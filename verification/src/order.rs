//! Variable numbers in ascending order.

use std::collections::{BTreeMap, BTreeSet};

use vstd::prelude::*;

verus! {

broadcast use vstd::std_specs::btree::group_btree_axioms;

/// The views of the strings in a map.
pub open spec fn views(m: Map<u32, String>) -> Map<u32, Seq<char>> {
    m.map_values(|s: String| s@)
}

/// The numbers below a bound that are in a set, in ascending order.
pub open spec fn ids_below(ids: Set<u32>, bound: nat) -> Seq<u32>
    decreases bound,
{
    if bound == 0 {
        Seq::empty()
    } else {
        let before = ids_below(ids, (bound - 1) as nat);
        if ids.contains((bound - 1) as u32) {
            before.push((bound - 1) as u32)
        } else {
            before
        }
    }
}

/// The numbers in a set, in ascending order.
pub open spec fn ascending(ids: Set<u32>) -> Seq<u32> {
    ids_below(ids, 0x1_0000_0000)
}

/// Whether numbers stand in ascending order, none of them twice.
pub open spec fn is_ascending(s: Seq<u32>) -> bool {
    forall|i: int, j: int| 0 <= i < j < s.len() ==> s[i] < s[j]
}

proof fn lemma_ids_below(ids: Set<u32>, bound: nat)
    requires
        bound <= 0x1_0000_0000,
    ensures
        is_ascending(ids_below(ids, bound)),
        forall|id: u32|
            #[trigger] ids_below(ids, bound).contains(id) <==> ids.contains(id) && id < bound,
    decreases bound,
{
    if bound > 0 {
        let b = (bound - 1) as nat;
        lemma_ids_below(ids, b);
        let before = ids_below(ids, b);
        let s = ids_below(ids, bound);
        assert forall|i: int, j: int| 0 <= i < j < s.len() implies s[i] < s[j] by {
            assert(before.contains(before[i]));
        }
        assert forall|id: u32| #[trigger] s.contains(id) <==> ids.contains(id) && id < bound by {
            if s.contains(id) {
                let i = s.index_of(id);
                if i < before.len() {
                    assert(before[i] == id);
                    assert(before.contains(id));
                }
            }
            if ids.contains(id) && id < bound {
                if id < b {
                    assert(before.contains(id));
                    let i = before.index_of(id);
                    assert(s[i] == id);
                } else {
                    assert(s[before.len() as int] == id);
                }
            }
        }
    }
}

/// The ascending numbers of a set ascend, and are the numbers of the set.
pub proof fn lemma_ascending(ids: Set<u32>)
    ensures
        is_ascending(ascending(ids)),
        forall|id: u32| #[trigger] ascending(ids).contains(id) <==> ids.contains(id),
{
    lemma_ids_below(ids, 0x1_0000_0000);
}

/// Ascending sequences of the same numbers are equal.
pub proof fn lemma_ascending_unique(s: Seq<u32>, t: Seq<u32>)
    requires
        is_ascending(s),
        is_ascending(t),
        forall|id: u32| s.contains(id) <==> t.contains(id),
    ensures
        s == t,
    decreases s.len(),
{
    if s.len() == 0 {
        if t.len() > 0 {
            assert(t.contains(t[0]));
            assert(s.contains(t[0]));
        }
    } else {
        let a = s.last();
        assert(s.contains(a));
        assert(t.contains(a));
        let b = t.last();
        assert(t.contains(b));
        assert(s.contains(b));
        let i = s.index_of(b);
        let j = t.index_of(a);
        assert(a == b);
        let p = s.drop_last();
        let q = t.drop_last();
        assert forall|id: u32| p.contains(id) <==> q.contains(id) by {
            if p.contains(id) {
                let k = p.index_of(id);
                assert(s[k] == id);
                assert(s.contains(id));
                let m = t.index_of(id);
                assert(q[m] == id);
            }
            if q.contains(id) {
                let k = q.index_of(id);
                assert(t[k] == id);
                assert(t.contains(id));
                let m = s.index_of(id);
                assert(p[m] == id);
            }
        }
        lemma_ascending_unique(p, q);
        assert(s == p.push(a));
        assert(t == q.push(a));
    }
}

/// Increasing references are to ascending numbers.
proof fn lemma_increasing(order: Seq<&u32>)
    requires
        vstd::std_specs::btree::increasing_seq(order),
    ensures
        is_ascending(order.unref()),
{
    let s = order.unref();
    assert forall|i: int, j: int| 0 <= i < j < s.len() implies s[i] < s[j] by {
        assert(vstd::std_specs::cmp::OrdSpec::cmp_spec(&order[i], &order[j]) is Less);
    }
}

/// The numbers in a set, in ascending order.
pub fn sorted_set(ids: &BTreeSet<u32>) -> (sorted: Vec<u32>)
    ensures
        sorted@ == ascending(ids@),
{
    let mut sorted: Vec<u32> = Vec::new();
    let ghost order = vstd::std_specs::iter::IteratorSpec::remaining(&ids.iter());
    for id in it: ids.iter()
        invariant
            it.seq() == order,
            sorted@ == order.unref().take(it.index() as int),
    {
        sorted.push(*id);
    }
    proof {
        assert(sorted@ == order.unref());
        lemma_increasing(order);
        lemma_ascending(ids@);
        lemma_ascending_unique(sorted@, ascending(ids@));
    }
    sorted
}

/// The keys of a map, in ascending order.
pub fn sorted_keys<V>(m: &BTreeMap<u32, V>) -> (sorted: Vec<u32>)
    ensures
        sorted@ == ascending(m@.dom()),
{
    let mut sorted: Vec<u32> = Vec::new();
    let ghost order = vstd::std_specs::iter::IteratorSpec::remaining(&m.keys());
    for id in it: m.keys()
        invariant
            it.seq() == order,
            sorted@ == order.unref().take(it.index() as int),
    {
        sorted.push(*id);
    }
    proof {
        assert(sorted@ == order.unref());
        lemma_increasing(order);
        lemma_ascending(m@.dom());
        lemma_ascending_unique(sorted@, ascending(m@.dom()));
    }
    sorted
}

/// Law: the views of a map's strings are those of all of them, under the same keys.
pub proof fn law_views(m: Map<u32, String>, id: u32)
    ensures
        views(m).contains_key(id) <==> m.contains_key(id),
        m.contains_key(id) ==> views(m)[id] == m[id]@,
{
}

} // verus!
