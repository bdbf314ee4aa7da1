//! Things made by name: a list of named factories, in the order they were registered, and
//! the check that every option a caller gives is one a method has.

use vstd::prelude::*;

verus! {

/// Whether `name` is one of `known`.
pub open spec fn is_known_name(name: Seq<char>, known: Seq<&'static str>) -> bool {
    exists|j: int| 0 <= j < known.len() && (#[trigger] known[j])@ == name
}

/// Whether `a == b` for two texts.
fn same_text(a: &String, b: &str) -> (r: bool)
    ensures
        r == (a@ == b@),
{
    let b = String::from_str(b);
    *a == b
}

/// The first of `names` that is not one of `known`, if any.
pub fn first_unknown(names: &[String], known: &[&'static str]) -> (r: Option<usize>)
    ensures
        match r {
            None => forall|i: int| 0 <= i < names.len() ==> is_known_name(#[trigger] names@[i]@, known@),
            Some(i) => i < names.len() && !is_known_name(names@[i as int]@, known@)
                && forall|q: int| 0 <= q < i ==> is_known_name(#[trigger] names@[q]@, known@),
        },
{
    let mut i: usize = 0;
    while i < names.len()
        invariant
            i <= names.len(),
            forall|q: int| 0 <= q < i ==> is_known_name(#[trigger] names@[q]@, known@),
        decreases names.len() - i,
    {
        let mut found = false;
        let mut j: usize = 0;
        while j < known.len()
            invariant
                i < names.len(),
                j <= known.len(),
                found ==> is_known_name(names@[i as int]@, known@),
                !found ==> forall|q: int| 0 <= q < j ==> (#[trigger] known@[q])@ != names@[i as int]@,
            decreases known.len() - j,
        {
            if !found && same_text(&names[i], known[j]) {
                found = true;
            }
            j = j + 1;
        }
        if !found {
            return Some(i);
        }
        i = i + 1;
    }
    None
}

/// The index of `name` among `names`, if it is there: the first, and in a list of distinct
/// names the only one.
pub open spec fn index_of_name(names: Seq<Seq<char>>, name: Seq<char>) -> int {
    choose|i: int| 0 <= i < names.len() && names[i] == name
}

/// Factories by name, in the order they were first registered. Registering a name again
/// replaces its factory and keeps its place.
pub struct Methods<F> {
    names: Vec<String>,
    entries: Vec<F>,
}

impl<F> Methods<F> {
    /// The names, in registration order.
    pub closed spec fn names_spec(&self) -> Seq<Seq<char>> {
        self.names@.map_values(|s: String| s@)
    }

    /// The factory registered under the `i`-th name.
    pub closed spec fn entry(&self, i: int) -> F {
        self.entries@[i]
    }

    #[verifier::type_invariant]
    spec fn consistent(self) -> bool {
        &&& self.names@.len() == self.entries@.len()
        &&& forall|i: int, j: int| 0 <= i < j < self.names@.len() ==> (#[trigger] self.names@[i])@ != (#[trigger] self.names@[j])@
    }

    /// Nothing registered.
    pub fn new() -> (r: Methods<F>)
        ensures
            r.names_spec() == Seq::<Seq<char>>::empty(),
    {
        let r = Methods { names: Vec::new(), entries: Vec::new() };
        proof {
            assert(r.names_spec() =~= Seq::<Seq<char>>::empty());
        }
        r
    }

    /// Add `factory` under `name`, or replace the factory of that name where it stands.
    pub fn register(&mut self, name: &str, factory: F)
        ensures
            old(self).names_spec().contains(name@) ==> {
                let i = index_of_name(old(self).names_spec(), name@);
                &&& final(self).names_spec() == old(self).names_spec()
                &&& final(self).entry(i) == factory
                &&& forall|q: int| 0 <= q < old(self).names_spec().len() && q != i ==> #[trigger] final(self).entry(q) == old(self).entry(q)
            },
            !old(self).names_spec().contains(name@) ==> {
                &&& final(self).names_spec() == old(self).names_spec().push(name@)
                &&& final(self).entry(old(self).names_spec().len() as int) == factory
                &&& forall|q: int| 0 <= q < old(self).names_spec().len() ==> #[trigger] final(self).entry(q) == old(self).entry(q)
            },
    {
        proof {
            use_type_invariant(&*self);
        }
        let ghost names0 = self.names_spec();
        let mut i: usize = 0;
        while i < self.names.len()
            invariant
                i <= self.names@.len(),
                *self == *old(self),
                names0 == self.names_spec(),
                self.names@.len() == self.entries@.len(),
                forall|a: int, b: int| 0 <= a < b < self.names@.len() ==> (#[trigger] self.names@[a])@ != (#[trigger] self.names@[b])@,
                forall|q: int| 0 <= q < i ==> (#[trigger] self.names@[q])@ != name@,
            decreases self.names@.len() - i,
        {
            if same_text(&self.names[i], name) {
                let mut taken: Methods<F> = Methods::new();
                std::mem::swap(&mut taken, self);
                proof {
                    use_type_invariant(&taken);
                }
                let Methods { names, mut entries } = taken;
                entries.set(i, factory);
                *self = Methods { names, entries };
                proof {
                    assert(names0[i as int] == name@);
                    assert(names0.contains(name@));
                    let k = index_of_name(names0, name@);
                    assert(names0[k] == name@);
                    if k != i {
                        if k < i {
                            assert(self.names@[k]@ != name@);
                        } else {
                            assert(self.names@[i as int]@ != self.names@[k]@);
                        }
                    }
                }
                return;
            }
            i = i + 1;
        }
        let mut taken: Methods<F> = Methods::new();
        std::mem::swap(&mut taken, self);
        proof {
            use_type_invariant(&taken);
        }
        let Methods { mut names, mut entries } = taken;
        names.push(String::from_str(name));
        entries.push(factory);
        proof {
            assert forall|a: int, b: int| 0 <= a < b < names@.len() implies (#[trigger] names@[a])@ != (#[trigger] names@[b])@ by {
                if b == names@.len() - 1 {
                    assert(names@[a] == old(self).names@[a]);
                }
            }
        }
        *self = Methods { names, entries };
        proof {
            assert(self.names_spec() =~= names0.push(name@));
            assert(!names0.contains(name@)) by {
                if names0.contains(name@) {
                    let k = choose|k: int| 0 <= k < names0.len() && names0[k] == name@;
                    assert(old(self).names@[k]@ == name@);
                }
            }
        }
    }

    /// The names that can be selected, in registration order.
    pub fn names(&self) -> (r: Vec<&str>)
        ensures
            r@.len() == self.names_spec().len(),
            forall|i: int| 0 <= i < r@.len() ==> (#[trigger] r@[i])@ == self.names_spec()[i],
            forall|i: int, j: int| 0 <= i < j < r@.len() ==> (#[trigger] r@[i])@ != (#[trigger] r@[j])@,
    {
        proof {
            use_type_invariant(self);
        }
        let mut out: Vec<&str> = Vec::new();
        let mut i: usize = 0;
        while i < self.names.len()
            invariant
                i <= self.names@.len(),
                out@.len() == i,
                forall|q: int| 0 <= q < i ==> (#[trigger] out@[q])@ == self.names_spec()[q],
            decreases self.names@.len() - i,
        {
            out.push(self.names[i].as_str());
            i = i + 1;
        }
        out
    }

    /// The factory registered under `name`, or, if there is none, the names that exist.
    pub fn lookup(&self, name: &str) -> (r: Result<&F, Vec<String>>)
        ensures
            match r {
                Ok(f) => self.names_spec().contains(name@) && *f == self.entry(index_of_name(self.names_spec(), name@)),
                Err(known) => !self.names_spec().contains(name@) && known@.map_values(|s: String| s@) == self.names_spec(),
            },
    {
        proof {
            use_type_invariant(self);
        }
        let ghost names0 = self.names_spec();
        let mut i: usize = 0;
        while i < self.names.len()
            invariant
                i <= self.names@.len(),
                names0 == self.names_spec(),
                self.names@.len() == self.entries@.len(),
                forall|a: int, b: int| 0 <= a < b < self.names@.len() ==> (#[trigger] self.names@[a])@ != (#[trigger] self.names@[b])@,
                forall|q: int| 0 <= q < i ==> (#[trigger] self.names@[q])@ != name@,
            decreases self.names@.len() - i,
        {
            if same_text(&self.names[i], name) {
                proof {
                    assert(names0[i as int] == name@);
                    let k = index_of_name(names0, name@);
                    if k != i {
                        if k < i {
                            assert(self.names@[k]@ != name@);
                        } else {
                            assert(self.names@[i as int]@ != self.names@[k]@);
                        }
                    }
                }
                return Ok(&self.entries[i]);
            }
            i = i + 1;
        }
        let mut known: Vec<String> = Vec::new();
        let mut j: usize = 0;
        while j < self.names.len()
            invariant
                j <= self.names@.len(),
                known@.len() == j,
                forall|q: int| 0 <= q < j ==> (#[trigger] known@[q])@ == self.names@[q]@,
            decreases self.names@.len() - j,
        {
            known.push(self.names[j].clone());
            j = j + 1;
        }
        proof {
            assert(known@.map_values(|s: String| s@) =~= names0);
            if names0.contains(name@) {
                let k = choose|k: int| 0 <= k < names0.len() && names0[k] == name@;
                assert(self.names@[k]@ == name@);
            }
        }
        Err(known)
    }
}

} // verus!
