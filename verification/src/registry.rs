//! The plugin registry: names resolved once, at build time.
//!
//! Every plugin name is resolved exactly once, when a scenario is built, into the thing
//! itself; nothing looks a name up inside a loop. Entries are kept in byte-wise name
//! order, so the names a registry lists do not depend on the order they were registered
//! in, and registering a name twice is refused rather than silently overwriting.

use vstd::prelude::*;
use vstd::string::StringSliceAdditionalSpecFns;

use crate::ids::{strictly_sorted, utf8};
use crate::order::{compare_bytes, lemma_lex_irreflexive, lemma_lex_transitive, lemma_lex_total, lex_lt, Precedence};

verus! {

/// The text `format!("{:?}", s)` gives for a string: quoted, with escapes.
pub uninterp spec fn debug_text(s: Seq<char>) -> Seq<char>;

/// Calls `<str as Debug>::fmt` through `format!`: the string quoted and escaped. The
/// result is named, a function of the text alone; the escaping rules are not restated.
#[verifier::external_body]
pub(crate) fn debug_quoted(s: &str) -> (r: String)
    ensures
        r@ == debug_text(s@),
{
    format!("{s:?}")
}

/// Why a registry operation failed. Every variant is a build-time failure.
#[derive(Clone, Debug)]
pub enum RegistryError {
    /// The scenario asked for a name nothing had registered.
    UnknownName {
        /// Which plugin point was being resolved.
        point: &'static str,
        /// The name that was asked for.
        requested: String,
        /// The names that are available, sorted.
        available: Vec<String>,
    },
    /// Two constructors were registered under one name.
    DuplicateName {
        /// Which plugin point.
        point: &'static str,
        /// The name registered twice.
        name: String,
    },
    /// The constructor ran and refused its parameters.
    Construction {
        /// Which plugin point.
        point: &'static str,
        /// The name being constructed.
        name: String,
        /// What the constructor objected to.
        reason: String,
    },
}

/// The names of a list, each quoted and escaped, separated by `", "`.
pub open spec fn quoted_list(names: Seq<Seq<char>>) -> Seq<char>
    decreases names.len(),
{
    if names.len() == 0 {
        Seq::empty()
    } else if names.len() == 1 {
        debug_text(names[0])
    } else {
        quoted_list(names.drop_last()) + ", "@ + debug_text(names.last())
    }
}

/// What a [`RegistryError`] says to a reader.
pub open spec fn registry_error_text(e: RegistryError) -> Seq<char> {
    match e {
        RegistryError::UnknownName { point, requested, available } => {
            let names = available@.map_values(|s: String| s@);
            "unknown "@ + point@ + " plugin "@ + debug_text(requested@) + "; available: "@
                + quoted_list(names) + (if names.len() == 0 { "(none registered)"@ } else { Seq::empty() })
        },
        RegistryError::DuplicateName { point, name } =>
            point@ + " plugin "@ + debug_text(name@) + " is registered twice"@,
        RegistryError::Construction { point, name, reason } =>
            point@ + " plugin "@ + debug_text(name@) + " rejected its parameters: "@ + reason@,
    }
}

impl RegistryError {
    /// A [`RegistryError::Construction`], for a constructor to return.
    pub fn construction(point: &'static str, name: &str, reason: &str) -> (r: RegistryError)
        ensures
            r matches RegistryError::Construction { point: p, name: n, reason: why } && p == point
                && n@ == name@ && why@ == reason@,
    {
        RegistryError::Construction { point, name: name.to_owned(), reason: reason.to_owned() }
    }

    /// The error as a sentence.
    pub fn to_string(&self) -> (r: String)
        ensures
            r@ == registry_error_text(*self),
    {
        match self {
            RegistryError::UnknownName { point, requested, available } => {
                let mut s = String::from_str("unknown ");
                s.append(point);
                s.append(" plugin ");
                let q = debug_quoted(requested.as_str());
                s.append(q.as_str());
                s.append("; available: ");
                let ghost prefix = s@;
                let ghost names = available@.map_values(|n: String| n@);
                let mut i: usize = 0;
                while i < available.len()
                    invariant
                        i <= available.len(),
                        names == available@.map_values(|n: String| n@),
                        s@ == prefix + quoted_list(names.take(i as int)),
                    decreases available.len() - i,
                {
                    if i > 0 {
                        s.append(", ");
                    }
                    let q = debug_quoted(available[i].as_str());
                    s.append(q.as_str());
                    proof {
                        assert(names.take(i + 1).drop_last() =~= names.take(i as int));
                        assert(names.take(i + 1).last() == available@[i as int]@);
                        if i == 0 {
                            assert(names.take(1).len() == 1);
                            assert(names.take(0).len() == 0);
                            assert(prefix + quoted_list(names.take(0)) =~= prefix);
                        }
                        reveal_strlit(", ");
                    }
                    i = i + 1;
                }
                proof {
                    assert(names.take(i as int) =~= names);
                }
                if available.len() == 0 {
                    s.append("(none registered)");
                }
                proof {
                    if available.len() != 0 {
                        assert(s@ =~= prefix + quoted_list(names) + Seq::<char>::empty());
                    }
                }
                s
            },
            RegistryError::DuplicateName { point, name } => {
                let mut s = String::from_str(point);
                s.append(" plugin ");
                let q = debug_quoted(name.as_str());
                s.append(q.as_str());
                s.append(" is registered twice");
                s
            },
            RegistryError::Construction { point, name, reason } => {
                let mut s = String::from_str(point);
                s.append(" plugin ");
                let q = debug_quoted(name.as_str());
                s.append(q.as_str());
                s.append(" rejected its parameters: ");
                s.append(reason.as_str());
                s
            },
        }
    }
}

/// Maps plugin names to constructors for one plugin point.
///
/// `C` is what a name resolves to, usually a boxed constructor `Fn(&P) -> Result<T,
/// RegistryError>`; [`Registry::resolve`] calls it.
pub struct Registry<C> {
    point: &'static str,
    names: Vec<String>,
    ctors: Vec<C>,
}

impl<C> Registry<C> {
    /// The names registered, as bytes, in byte-wise order.
    pub closed spec fn name_bytes(&self) -> Seq<Seq<u8>> {
        self.names@.map_values(|s: String| utf8(s@))
    }

    /// The constructor registered under the `i`-th name.
    pub closed spec fn ctor(&self, i: int) -> C {
        self.ctors@[i]
    }

    /// The plugin point, as it appears in error messages.
    pub closed spec fn point_name(&self) -> &'static str {
        self.point
    }

    #[verifier::type_invariant]
    spec fn sorted_names(self) -> bool {
        &&& self.names.len() == self.ctors.len()
        &&& strictly_sorted(self.name_bytes())
    }

    /// Where `name` stands among the names: the first index not before it, and whether the
    /// name there is it.
    fn find(&self, name: &str) -> (r: (bool, usize))
        ensures
            r.1 <= self.name_bytes().len(),
            forall|i: int| 0 <= i < r.1 ==> lex_lt(#[trigger] self.name_bytes()[i], name.spec_bytes()),
            forall|i: int| r.1 <= i < self.name_bytes().len() ==> !lex_lt(#[trigger] self.name_bytes()[i], name.spec_bytes()),
            r.0 == (r.1 < self.name_bytes().len() && self.name_bytes()[r.1 as int] == name.spec_bytes()),
            !r.0 ==> !self.name_bytes().contains(name.spec_bytes()),
    {
        proof {
            use_type_invariant(self);
        }
        let ghost v = self.name_bytes();
        let key = name.as_bytes();
        let mut lo: usize = 0;
        let mut hi: usize = self.names.len();
        while lo < hi
            invariant
                v == self.name_bytes(),
                v.len() == self.names.len(),
                strictly_sorted(v),
                key@ == name.spec_bytes(),
                lo <= hi <= v.len(),
                forall|i: int| 0 <= i < lo ==> lex_lt(#[trigger] v[i], key@),
                forall|i: int| hi <= i < v.len() ==> !lex_lt(#[trigger] v[i], key@),
            decreases hi - lo,
        {
            let mid = lo + (hi - lo) / 2;
            assert(v[mid as int] == utf8(self.names@[mid as int]@));
            match compare_bytes(self.names[mid].as_str().as_bytes(), key) {
                Precedence::Before => {
                    proof {
                        assert forall|i: int| 0 <= i < mid + 1 implies lex_lt(#[trigger] v[i], key@) by {
                            if i < mid {
                                lemma_lex_transitive(v[i], v[mid as int], key@);
                            }
                        }
                    }
                    lo = mid + 1;
                },
                _ => {
                    proof {
                        lemma_lex_irreflexive(key@);
                        crate::order::lemma_lex_asymmetric(v[mid as int], key@);
                        assert forall|i: int| mid <= i < v.len() implies !lex_lt(#[trigger] v[i], key@) by {
                            if i > mid {
                                if v[mid as int] == key@ {
                                    crate::order::lemma_lex_asymmetric(v[i], key@);
                                }
                                assert(lex_lt(v[mid as int], v[i]));
                                if lex_lt(v[i], key@) {
                                    lemma_lex_transitive(v[mid as int], v[i], key@);
                                    crate::order::lemma_lex_asymmetric(v[mid as int], key@);
                                }
                            }
                        }
                    }
                    hi = mid;
                },
            }
        }
        let found = if lo < self.names.len() {
            assert(v[lo as int] == utf8(self.names@[lo as int]@));
            match compare_bytes(self.names[lo].as_str().as_bytes(), key) {
                Precedence::Same => true,
                _ => false,
            }
        } else {
            false
        };
        proof {
            if !found && v.contains(key@) {
                let i = choose|i: int| 0 <= i < v.len() && v[i] == key@;
                lemma_lex_irreflexive(key@);
                if i > lo {
                    assert(lex_lt(v[lo as int], v[i]));
                    if v[lo as int] != key@ {
                        lemma_lex_total(v[lo as int], key@);
                    }
                }
            }
        }
        (found, lo)
    }

    /// An empty registry for the named plugin point.
    pub fn new(point: &'static str) -> (r: Registry<C>)
        ensures
            r.name_bytes() == Seq::<Seq<u8>>::empty(),
            r.point_name() == point,
    {
        let r = Registry { point, names: Vec::new(), ctors: Vec::new() };
        proof {
            assert(r.name_bytes() =~= Seq::<Seq<u8>>::empty());
        }
        r
    }

    /// The plugin point this registry serves.
    pub fn point(&self) -> (r: &'static str)
        ensures
            r == self.point_name(),
    {
        self.point
    }

    /// Register a constructor under `name`, or refuse if the name is taken: overwriting
    /// would make the result depend on registration order.
    pub fn register(&mut self, name: &str, ctor: C) -> (r: Result<(), RegistryError>)
        ensures
            old(self).name_bytes().contains(name.spec_bytes()) ==> (r matches Err(RegistryError::DuplicateName { point, name: n }) && point == old(self).point_name() && n@ == name@ && final(self).name_bytes() == old(self).name_bytes()),
            !old(self).name_bytes().contains(name.spec_bytes()) ==> (r is Ok && final(self).name_bytes().contains(name.spec_bytes())
                && final(self).name_bytes().len() == old(self).name_bytes().len() + 1
                && forall|v: Seq<u8>| final(self).name_bytes().contains(v) <==> (old(self).name_bytes().contains(v) || v == name.spec_bytes())),
            old(self).name_bytes().contains(name.spec_bytes()) ==> forall|i: int|
                0 <= i < old(self).name_bytes().len() ==> #[trigger] final(self).ctor(i) == old(self).ctor(i),
            forall|i: int|
                0 <= i < final(self).name_bytes().len() && final(self).name_bytes()[i] == name.spec_bytes()
                    && !old(self).name_bytes().contains(name.spec_bytes()) ==> #[trigger] final(self).ctor(i) == ctor,
            forall|i: int, j: int|
                0 <= i < final(self).name_bytes().len() && 0 <= j < old(self).name_bytes().len()
                    && #[trigger] final(self).name_bytes()[i] == #[trigger] old(self).name_bytes()[j]
                    ==> final(self).ctor(i) == old(self).ctor(j),
            final(self).point_name() == old(self).point_name(),
    {
        proof {
            use_type_invariant(&*self);
        }
        let (found, pos) = self.find(name);
        if found {
            proof {
                assert forall|i: int, j: int|
                    0 <= i < self.name_bytes().len() && 0 <= j < self.name_bytes().len()
                        && #[trigger] self.name_bytes()[i] == #[trigger] self.name_bytes()[j]
                        implies self.ctor(i) == self.ctor(j) by {
                    crate::ids::lemma_ids_round_trip(self.name_bytes(), i, j);
                }
            }
            return Err(RegistryError::DuplicateName { point: self.point, name: name.to_owned() });
        }
        let ghost v = self.name_bytes();
        let ghost nb = name.spec_bytes();
        let mut taken: Registry<C> = Registry::new(self.point);
        std::mem::swap(&mut taken, self);
        proof {
            use_type_invariant(&taken);
        }
        let Registry { point, mut names, mut ctors } = taken;
        assert(names@.map_values(|s: String| utf8(s@)) == v);
        let ghost oc = ctors@;
        let owned = name.to_owned();
        names.insert(pos, owned);
        ctors.insert(pos, ctor);
        let ghost nv = names@.map_values(|s: String| utf8(s@));
        proof {
            assert(nv =~= v.insert(pos as int, nb));
            assert forall|i: int, j: int| 0 <= i < j < nv.len() implies lex_lt(#[trigger] nv[i], #[trigger] nv[j]) by {
                if j < pos {
                    assert(lex_lt(v[i], v[j]));
                } else if j == pos {
                    assert(lex_lt(v[i], nb));
                } else if i < pos {
                    assert(lex_lt(v[i], nb));
                    assert(!lex_lt(v[j - 1], nb) && v[j - 1] != nb);
                    lemma_lex_total(v[j - 1], nb);
                    lemma_lex_transitive(v[i], nb, v[j - 1]);
                } else if i == pos {
                    assert(!lex_lt(v[j - 1], nb) && v[j - 1] != nb);
                    lemma_lex_total(v[j - 1], nb);
                } else {
                    assert(lex_lt(v[i - 1], v[j - 1]));
                }
            }
            assert forall|x: Seq<u8>| nv.contains(x) <==> (v.contains(x) || x == nb) by {
                if v.contains(x) {
                    let i = choose|i: int| 0 <= i < v.len() && v[i] == x;
                    if i < pos {
                        assert(nv[i] == x);
                    } else {
                        assert(nv[i + 1] == x);
                    }
                }
                if x == nb {
                    assert(nv[pos as int] == x);
                }
                if nv.contains(x) {
                    let i = choose|i: int| 0 <= i < nv.len() && nv[i] == x;
                    if i < pos {
                        assert(v[i] == x);
                    } else if i > pos {
                        assert(v[i - 1] == x);
                    }
                }
            }
            assert(ctors@ == oc.insert(pos as int, ctor));
            // Names are distinct, so a name's new index is its old index moved past the new one.
            assert forall|i: int, j: int|
                0 <= i < nv.len() && 0 <= j < v.len() && #[trigger] nv[i] == #[trigger] v[j]
                    implies ctors@[i] == oc[j] by {
                if i < pos {
                    assert(nv[i] == v[i]);
                    crate::ids::lemma_ids_round_trip(v, i, j);
                } else if i > pos {
                    assert(nv[i] == v[i - 1]);
                    crate::ids::lemma_ids_round_trip(v, i - 1, j);
                } else {
                    assert(nv[i] == nb);
                    assert(v.contains(nb));
                }
            }
            assert forall|i: int| 0 <= i < nv.len() && nv[i] == nb implies ctors@[i] == ctor by {
                if i < pos {
                    assert(nv[i] == v[i]);
                    assert(v.contains(nb));
                } else if i > pos {
                    assert(nv[i] == v[i - 1]);
                    assert(v.contains(nb));
                }
            }
        }
        *self = Registry { point, names, ctors };
        Ok(())
    }

    /// Whether a name is registered.
    pub fn contains(&self, name: &str) -> (r: bool)
        ensures
            r == self.name_bytes().contains(name.spec_bytes()),
    {
        let (found, pos) = self.find(name);
        proof {
            if found {
                assert(self.name_bytes()[pos as int] == name.spec_bytes());
            }
        }
        found
    }

    /// Every registered name, in byte-wise order.
    pub fn names(&self) -> (r: Vec<&str>)
        ensures
            r@.map_values(|e: &str| e.spec_bytes()) == self.name_bytes(),
            strictly_sorted(self.name_bytes()),
    {
        proof {
            use_type_invariant(self);
        }
        let mut out: Vec<&str> = Vec::new();
        let mut i: usize = 0;
        while i < self.names.len()
            invariant
                i <= self.names.len(),
                out@.map_values(|e: &str| e.spec_bytes()) == self.name_bytes().take(i as int),
            decreases self.names.len() - i,
        {
            let ghost prev = out@;
            let e = self.names[i].as_str();
            out.push(e);
            proof {
                assert(self.name_bytes()[i as int] == utf8(self.names@[i as int]@));
                assert(out@.map_values(|e: &str| e.spec_bytes()) =~= prev.map_values(|e: &str| e.spec_bytes()).push(e.spec_bytes()));
                assert(self.name_bytes().take(i + 1) =~= self.name_bytes().take(i as int).push(self.name_bytes()[i as int]));
            }
            i = i + 1;
        }
        proof {
            assert(self.name_bytes().take(i as int) =~= self.name_bytes());
        }
        out
    }

    /// Every registered name, owned, in byte-wise order.
    fn owned_names(&self) -> (r: Vec<String>)
        ensures
            r@.map_values(|s: String| utf8(s@)) == self.name_bytes(),
    {
        let mut out: Vec<String> = Vec::new();
        let mut i: usize = 0;
        while i < self.names.len()
            invariant
                i <= self.names.len(),
                out@.map_values(|s: String| utf8(s@)) == self.name_bytes().take(i as int),
            decreases self.names.len() - i,
        {
            let ghost prev = out@;
            let e = self.names[i].clone();
            out.push(e);
            proof {
                assert(self.name_bytes()[i as int] == utf8(self.names@[i as int]@));
                assert(out@.map_values(|s: String| utf8(s@)) =~= prev.map_values(|s: String| utf8(s@)).push(utf8(e@)));
                assert(self.name_bytes().take(i + 1) =~= self.name_bytes().take(i as int).push(self.name_bytes()[i as int]));
            }
            i = i + 1;
        }
        proof {
            assert(self.name_bytes().take(i as int) =~= self.name_bytes());
        }
        out
    }

    /// How many names are registered.
    pub fn len(&self) -> (r: usize)
        ensures
            r == self.name_bytes().len(),
    {
        self.names.len()
    }

    /// Whether nothing is registered.
    pub fn is_empty(&self) -> (r: bool)
        ensures
            r == (self.name_bytes().len() == 0),
    {
        self.names.len() == 0
    }

    /// Resolve `name` into a built plugin: call the constructor registered under it, or
    /// fail with [`RegistryError::UnknownName`], listing the names that are available.
    pub fn resolve<P, T>(&self, name: &str, params: &P) -> (r: Result<T, RegistryError>)
        where
            C: Fn(&P) -> Result<T, RegistryError>,
        requires
            forall|i: int| 0 <= i < self.name_bytes().len() ==> #[trigger] self.ctor(i).requires((params,)),
        ensures
            !self.name_bytes().contains(name.spec_bytes()) ==> (r matches Err(RegistryError::UnknownName { point, requested, available })
                && point == self.point_name() && requested@ == name@
                && available@.map_values(|s: String| utf8(s@)) == self.name_bytes()),
            forall|i: int| 0 <= i < self.name_bytes().len() && self.name_bytes()[i] == name.spec_bytes()
                ==> #[trigger] self.ctor(i).ensures((params,), r),
    {
        proof {
            use_type_invariant(self);
        }
        let (found, pos) = self.find(name);
        if !found {
            return Err(RegistryError::UnknownName {
                point: self.point,
                requested: name.to_owned(),
                available: self.owned_names(),
            });
        }
        proof {
            assert forall|i: int| 0 <= i < self.name_bytes().len() && self.name_bytes()[i] == name.spec_bytes() implies i == pos by {
                crate::ids::lemma_ids_round_trip(self.name_bytes(), i, pos as int);
            }
        }
        let ctor = &self.ctors[pos];
        assert(self.ctor(pos as int).requires((params,)));
        ctor(params)
    }
}

} // verus!
