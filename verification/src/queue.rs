//! The event queue of a loading: the pending events, earliest first in the total order of
//! [`EventKey`], so that simultaneous events come out the same way on every run.
//!
//! A binary heap laid out in a `Vec`: the parent of entry `i` is entry `(i - 1) / 2`, and no
//! entry comes before its parent, so the first entry comes no later than any other.

use vstd::multiset::Multiset;
use vstd::prelude::*;

use crate::time::EventKey;

verus! {

/// Whether `a` comes no later than `b`: by second, then by kind, then by entity.
pub open spec fn key_le(a: EventKey, b: EventKey) -> bool {
    ||| a.second.0 < b.second.0
    ||| a.second.0 == b.second.0 && a.kind.number() < b.kind.number()
    ||| a.second.0 == b.second.0 && a.kind.number() == b.kind.number() && a.entity <= b.entity
}

/// The order of event keys is a total preorder: any two keys compare, and it is transitive.
pub proof fn lemma_key_order(a: EventKey, b: EventKey, c: EventKey)
    ensures
        key_le(a, a),
        key_le(a, b) || key_le(b, a),
        key_le(a, b) && key_le(b, c) ==> key_le(a, c),
{
}

/// Whether `a` comes no later than `b`.
fn no_later(a: EventKey, b: EventKey) -> (r: bool)
    ensures
        r == key_le(a, b),
{
    if a.second.0 != b.second.0 {
        a.second.0 < b.second.0
    } else {
        let ka = a.kind.discriminant();
        let kb = b.kind.discriminant();
        if ka != kb {
            ka < kb
        } else {
            a.entity <= b.entity
        }
    }
}

/// The parent of heap entry `i`.
pub open spec fn parent(i: int) -> int {
    (i - 1) / 2
}

/// No entry of `s` comes before its parent.
pub open spec fn heap_ordered(s: Seq<EventKey>) -> bool {
    forall|i: int| #![trigger s[i]] 0 < i < s.len() ==> key_le(s[parent(i)], s[i])
}

/// The heap order holds everywhere but between entry `pos` and its parent, and the parent of
/// `pos` comes no later than the children of `pos`.
spec fn ordered_but_up(s: Seq<EventKey>, pos: int) -> bool {
    &&& forall|i: int| #![trigger s[i]] 0 < i < s.len() && i != pos ==> key_le(s[parent(i)], s[i])
    &&& pos > 0 ==> forall|c: int| #![trigger s[c]] 0 < c < s.len() && parent(c) == pos ==> key_le(s[parent(pos)], s[c])
}

/// The heap order holds everywhere but between entry `pos` and its children, and the parent of
/// `pos` comes no later than the children of `pos`.
spec fn ordered_but_down(s: Seq<EventKey>, pos: int) -> bool {
    &&& forall|i: int| #![trigger s[i]] 0 < i < s.len() && parent(i) != pos ==> key_le(s[parent(i)], s[i])
    &&& pos > 0 ==> forall|c: int| #![trigger s[c]] 0 < c < s.len() && parent(c) == pos ==> key_le(s[parent(pos)], s[c])
}

/// In a heap, the first entry comes no later than entry `i`.
proof fn lemma_first_is_least(s: Seq<EventKey>, i: int)
    requires
        heap_ordered(s),
        0 <= i < s.len(),
    ensures
        key_le(s[0], s[i]),
    decreases i,
{
    if i > 0 {
        let p = parent(i);
        lemma_first_is_least(s, p);
        assert(key_le(s[p], s[i]));
        lemma_key_order(s[0], s[p], s[i]);
    }
}

/// Swapping two entries keeps what a sequence holds.
proof fn lemma_swap_keeps_multiset(s: Seq<EventKey>, i: int, j: int)
    requires
        0 <= i < s.len(),
        0 <= j < s.len(),
    ensures
        s.update(i, s[j]).update(j, s[i]).to_multiset() == s.to_multiset(),
{
    broadcast use vstd::seq_lib::group_to_multiset_ensures;
    broadcast use vstd::multiset::group_multiset_axioms;

    let t = s.update(i, s[j]);
    vstd::seq_lib::to_multiset_update(s, i, s[j]);
    vstd::seq_lib::to_multiset_update(t, j, s[i]);
    if i == j {
        assert(s.update(i, s[j]).update(j, s[i]) =~= s);
    } else {
        assert(t[j] == s[j]);
        assert(s.update(i, s[j]).update(j, s[i]).to_multiset() =~= s.to_multiset());
    }
}

/// Swap entries `i` and `j` of `v`.
fn swap_entries(v: &mut Vec<EventKey>, i: usize, j: usize)
    requires
        i < old(v).len(),
        j < old(v).len(),
    ensures
        final(v)@ == old(v)@.update(i as int, old(v)@[j as int]).update(j as int, old(v)@[i as int]),
        final(v)@.to_multiset() == old(v)@.to_multiset(),
{
    proof {
        lemma_swap_keeps_multiset(old(v)@, i as int, j as int);
    }
    let a = v[i];
    let b = v[j];
    v.set(i, b);
    v.set(j, a);
}

/// Move entry `pos` up past every parent it comes before.
fn sift_up(v: &mut Vec<EventKey>, pos: usize)
    requires
        pos < old(v).len(),
        ordered_but_up(old(v)@, pos as int),
    ensures
        heap_ordered(final(v)@),
        final(v)@.to_multiset() == old(v)@.to_multiset(),
        final(v)@.len() == old(v)@.len(),
{
    let mut pos = pos;
    loop
        invariant
            pos < v@.len(),
            v@.len() == old(v)@.len(),
            ordered_but_up(v@, pos as int),
            v@.to_multiset() == old(v)@.to_multiset(),
        ensures
            heap_ordered(v@),
            v@.len() == old(v)@.len(),
            v@.to_multiset() == old(v)@.to_multiset(),
        decreases pos,
    {
        if pos == 0 {
            break;
        }
        let p = (pos - 1) / 2;
        if no_later(v[p], v[pos]) {
            break;
        }
        let ghost s = v@;
        swap_entries(v, p, pos);
        proof {
            let t = v@;
            lemma_key_order(s[pos as int], s[p as int], s[p as int]);
            assert forall|i: int| #![trigger t[i]] 0 < i < t.len() && i != p implies key_le(t[parent(i)], t[i]) by {
                if i == pos {
                    lemma_key_order(s[pos as int], s[p as int], s[p as int]);
                } else if parent(i) == pos {
                    assert(key_le(s[parent(pos as int)], s[i]));
                } else if parent(i) == p {
                    assert(key_le(s[p as int], s[i]));
                    lemma_key_order(s[pos as int], s[p as int], s[i]);
                } else {
                    assert(key_le(s[parent(i)], s[i]));
                }
            }
            if p > 0 {
                assert forall|c: int| #![trigger t[c]] 0 < c < t.len() && parent(c) == p implies key_le(t[parent(p as int)], t[c]) by {
                    assert(key_le(s[parent(p as int)], s[p as int]));
                    if c != pos {
                        assert(key_le(s[p as int], s[c]));
                        lemma_key_order(s[parent(p as int)], s[p as int], s[c]);
                    }
                }
            }
        }
        pos = p;
    }
}

/// Move entry `pos` down past every child that comes before it.
fn sift_down(v: &mut Vec<EventKey>, pos: usize)
    requires
        pos < old(v).len(),
        ordered_but_down(old(v)@, pos as int),
    ensures
        heap_ordered(final(v)@),
        final(v)@.to_multiset() == old(v)@.to_multiset(),
        final(v)@.len() == old(v)@.len(),
{
    let mut pos = pos;
    let n = v.len();
    loop
        invariant
            n == v@.len(),
            pos < n,
            v@.len() == old(v)@.len(),
            ordered_but_down(v@, pos as int),
            v@.to_multiset() == old(v)@.to_multiset(),
        ensures
            heap_ordered(v@),
            v@.len() == old(v)@.len(),
            v@.to_multiset() == old(v)@.to_multiset(),
        decreases n - pos,
    {
        let ghost s = v@;
        if pos >= n / 2 {
            // No child: `2 * pos + 1 >= n`.
            proof {
                assert forall|i: int| #![trigger s[i]] 0 < i < s.len() implies key_le(s[parent(i)], s[i]) by {
                    assert(parent(i) != pos);
                }
            }
            break;
        }
        let l = 2 * pos + 1;
        let m = if l + 1 < n && !no_later(v[l], v[l + 1]) { l + 1 } else { l };
        proof {
            assert(parent(l as int) == pos);
            assert(parent(l + 1) == pos);
            if m == l && l + 1 < n {
                assert(key_le(s[l as int], s[l + 1]));
            }
            if m == l + 1 {
                lemma_key_order(s[l as int], s[l + 1], s[l + 1]);
                assert(key_le(s[l + 1], s[l as int]));
            }
        }
        if no_later(v[pos], v[m]) {
            proof {
                assert forall|i: int| #![trigger s[i]] 0 < i < s.len() implies key_le(s[parent(i)], s[i]) by {
                    if parent(i) == pos {
                        if i != m {
                            assert(i == l || i == l + 1);
                            lemma_key_order(s[pos as int], s[m as int], s[i]);
                        }
                    }
                }
            }
            break;
        }
        swap_entries(v, pos, m);
        proof {
            let t = v@;
            lemma_key_order(s[m as int], s[pos as int], s[pos as int]);
            assert forall|i: int| #![trigger t[i]] 0 < i < t.len() && parent(i) != m implies key_le(t[parent(i)], t[i]) by {
                if i == m {
                } else if parent(i) == pos {
                    assert(i == l || i == l + 1);
                } else if i == pos {
                    assert(key_le(s[parent(pos as int)], s[m as int]));
                } else {
                    assert(key_le(s[parent(i)], s[i]));
                }
            }
            assert forall|c: int| #![trigger t[c]] 0 < c < t.len() && parent(c) == m implies key_le(t[parent(m as int)], t[c]) by {
                assert(key_le(s[m as int], s[c]));
            }
        }
        pos = m;
    }
}

/// The pending events of a loading, earliest first.
#[derive(Debug)]
pub struct EventQueue {
    heap: Vec<EventKey>,
}

impl View for EventQueue {
    type V = Multiset<EventKey>;

    /// The pending events, each as often as it was pushed and not popped.
    closed spec fn view(&self) -> Multiset<EventKey> {
        self.heap@.to_multiset()
    }
}

impl EventQueue {
    #[verifier::type_invariant]
    spec fn ordered(self) -> bool {
        heap_ordered(self.heap@)
    }

    /// An empty queue.
    pub fn new() -> (r: EventQueue)
        ensures
            r@ == Multiset::<EventKey>::empty(),
    {
        broadcast use vstd::seq_lib::group_to_multiset_ensures;

        let r = EventQueue { heap: Vec::new() };
        proof {
            assert(r.heap@.len() == 0);
            assert(r@ =~= Multiset::<EventKey>::empty());
        }
        r
    }

    /// How many events are pending.
    pub fn len(&self) -> (r: usize)
        ensures
            r == self@.len(),
    {
        broadcast use vstd::seq_lib::group_to_multiset_ensures;

        self.heap.len()
    }

    /// Whether no event is pending.
    pub fn is_empty(&self) -> (r: bool)
        ensures
            r == (self@.len() == 0),
    {
        broadcast use vstd::seq_lib::group_to_multiset_ensures;

        self.heap.len() == 0
    }

    /// The earliest pending event, if any, left in the queue.
    pub fn peek(&self) -> (r: Option<EventKey>)
        ensures
            match r {
                None => self@.len() == 0,
                Some(k) => self@.contains(k) && forall|x: EventKey| #[trigger] self@.contains(x) ==> key_le(k, x),
            },
    {
        broadcast use vstd::seq_lib::group_to_multiset_ensures;

        proof {
            use_type_invariant(self);
        }
        if self.heap.len() == 0 {
            None
        } else {
            let k = self.heap[0];
            proof {
                let s = self.heap@;
                assert(s.contains(k));
                assert forall|x: EventKey| #[trigger] self@.contains(x) implies key_le(k, x) by {
                    assert(s.contains(x));
                    let i = choose|i: int| 0 <= i < s.len() && s[i] == x;
                    lemma_first_is_least(s, i);
                }
            }
            Some(k)
        }
    }

    /// Add an event.
    pub fn push(&mut self, key: EventKey)
        ensures
            final(self)@ == old(self)@.insert(key),
    {
        broadcast use vstd::seq_lib::group_to_multiset_ensures;

        proof {
            use_type_invariant(&*self);
        }
        let mut heap: Vec<EventKey> = Vec::new();
        std::mem::swap(&mut heap, &mut self.heap);
        let ghost before = heap@;
        heap.push(key);
        let n = heap.len();
        proof {
            let s = heap@;
            assert(s == before.push(key));
            assert forall|i: int| #![trigger s[i]] 0 < i < s.len() && i != n - 1 implies key_le(s[parent(i)], s[i]) by {
                assert(before[i] == s[i]);
                assert(before[parent(i)] == s[parent(i)]);
            }
        }
        sift_up(&mut heap, n - 1);
        self.heap = heap;
    }

    /// Take out the earliest pending event, if any.
    pub fn pop(&mut self) -> (r: Option<EventKey>)
        ensures
            match r {
                None => old(self)@.len() == 0 && final(self)@ == old(self)@,
                Some(k) => old(self)@.contains(k) && (forall|x: EventKey| #[trigger] old(self)@.contains(x) ==> key_le(k, x))
                    && final(self)@ == old(self)@.remove(k),
            },
    {
        broadcast use vstd::seq_lib::group_to_multiset_ensures;
        broadcast use vstd::multiset::group_multiset_axioms;

        proof {
            use_type_invariant(&*self);
        }
        if self.heap.len() == 0 {
            return None;
        }
        let top = self.heap[0];
        proof {
            let s0 = self.heap@;
            assert forall|x: EventKey| #[trigger] old(self)@.contains(x) implies key_le(top, x) by {
                assert(s0.contains(x));
                let i = choose|i: int| 0 <= i < s0.len() && s0[i] == x;
                lemma_first_is_least(s0, i);
            }
            assert(s0.contains(top));
        }
        let mut heap: Vec<EventKey> = Vec::new();
        std::mem::swap(&mut heap, &mut self.heap);
        let ghost s = heap@;
        let last = heap.pop().unwrap();
        proof {
            assert(s =~= heap@.push(last));
            assert(top == s[0]);
        }
        if heap.len() > 0 {
            let ghost d = heap@;
            heap.set(0, last);
            proof {
                let t = heap@;
                vstd::seq_lib::to_multiset_update(d, 0, last);
                assert(d[0] == top);
                assert(t.to_multiset() =~= s.to_multiset().remove(top));
                assert forall|i: int| #![trigger t[i]] 0 < i < t.len() && parent(i) != 0 implies key_le(t[parent(i)], t[i]) by {
                    assert(s[i] == t[i]);
                    assert(s[parent(i)] == t[parent(i)]);
                }
            }
            sift_down(&mut heap, 0);
        } else {
            proof {
                assert(s.len() == 1);
                assert(s =~= seq![top]);
                assert(heap@.to_multiset() =~= s.to_multiset().remove(top));
            }
        }
        self.heap = heap;
        Some(top)
    }
}

} // verus!
