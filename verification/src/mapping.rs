//! The universe compressor: maps arbitrary elements to dense integer ids
//! `0..n-1`, assigned in order of first sight, and keeps the reverse map.
use vstd::prelude::*;
use std::collections::HashMap;
use crate::dense::seqs_of;
use crate::model::union_all;

verus! {

broadcast use vstd::std_specs::hash::group_hash_axioms, vstd::set::group_set_axioms, vstd::seq_lib::group_seq_properties;

/// All elements of all sets, in scan order.
pub open spec fn flat(sets: Seq<Seq<u64>>) -> Seq<u64>
    decreases sets.len(),
{
    if sets.len() == 0 {
        Seq::empty()
    } else {
        flat(sets.drop_last()) + sets.last()
    }
}

/// The first occurrence of each distinct element, in order of first sight:
/// what the reverse map of the compressor holds.
pub open spec fn firsts(s: Seq<u64>) -> Seq<u64>
    decreases s.len(),
{
    if s.len() == 0 {
        Seq::empty()
    } else {
        let p = firsts(s.drop_last());
        if p.contains(s.last()) {
            p
        } else {
            p.push(s.last())
        }
    }
}

/// `firsts` keeps exactly the elements of its input, each once.
pub proof fn lemma_firsts_props(s: Seq<u64>)
    ensures
        forall|e: u64| firsts(s).contains(e) <==> s.contains(e),
        forall|k1: int, k2: int| 0 <= k1 < k2 < firsts(s).len() ==> firsts(s)[k1] != firsts(s)[k2],
    decreases s.len(),
{
    if s.len() > 0 {
        lemma_firsts_props(s.drop_last());
        let p = firsts(s.drop_last());
        let f = firsts(s);
        assert forall|e: u64| f.contains(e) implies s.contains(e) by {
            assert(s.drop_last().push(s.last()) =~= s);
            if p.contains(e) {
                assert(s.drop_last().contains(e));
                assert(s.drop_last().push(s.last()).contains(e));
            } else {
                assert(f == p.push(s.last()));
                assert(e == s.last());
                assert(s.drop_last().push(s.last()).contains(e));
            }
        };
        assert forall|e: u64| s.contains(e) implies f.contains(e) by {
            assert(s.drop_last().push(s.last()) =~= s);
            assert(s.drop_last().push(s.last()).contains(e));
            if s.drop_last().contains(e) {
                assert(p.contains(e));
                if p.contains(s.last()) {
                    assert(f == p);
                } else {
                    assert(f == p.push(s.last()));
                    assert(f.contains(e));
                }
            } else {
                assert(e == s.last());
                if p.contains(e) {
                    assert(f == p);
                } else {
                    assert(f == p.push(e));
                    assert(f.contains(e));
                }
            }
        };
        if !p.contains(s.last()) {
            assert forall|k1: int, k2: int| 0 <= k1 < k2 < f.len() implies f[k1] != f[k2] by {
                if k2 == f.len() - 1 {
                    assert(f[k1] == p[k1]);
                    assert(p.contains(p[k1]));
                }
            };
        }
    }
}

/// An element occurs in the flattened scan iff it occurs in some set.
pub proof fn lemma_flat_membership(sets: Seq<Seq<u64>>)
    ensures
        forall|e: u64| flat(sets).contains(e) <==> union_all(sets).contains(e),
    decreases sets.len(),
{
    if sets.len() > 0 {
        let pre = sets.drop_last();
        lemma_flat_membership(pre);
        assert forall|e: u64| flat(sets).contains(e) implies union_all(sets).contains(e) by {
            let k = choose|k: int| 0 <= k < flat(sets).len() && flat(sets)[k] == e;
            if k < flat(pre).len() {
                assert(flat(pre)[k] == e);
                assert(flat(pre).contains(e));
                assert(union_all(pre).contains(e));
                let i = choose|i: int|
                    0 <= i < pre.len() && #[trigger] pre[i].to_set().contains(e);
                assert(sets[i] == pre[i]);
                assert(sets[i].to_set().contains(e));
            } else {
                let j = k - flat(pre).len();
                assert(sets.last()[j] == e);
                assert(sets.last().contains(e));
                assert(sets[sets.len() - 1].to_set().contains(e));
            }
        };
        assert forall|e: u64| union_all(sets).contains(e) implies flat(sets).contains(e) by {
            let i = choose|i: int| 0 <= i < sets.len() && #[trigger] sets[i].to_set().contains(e);
            if i < sets.len() - 1 {
                assert(pre[i].to_set().contains(e));
                assert(union_all(pre).contains(e));
                assert(flat(pre).contains(e));
                let k = choose|k: int| 0 <= k < flat(pre).len() && #[trigger] flat(pre)[k] == e;
                assert(flat(sets)[k] == e);
            } else {
                let j = choose|j: int| 0 <= j < sets.last().len() && sets.last()[j] == e;
                assert(flat(sets)[flat(pre).len() + j] == e);
            }
        };
    }
}

pub proof fn lemma_flat_take_step(sets: Seq<Seq<u64>>, i: int)
    requires
        0 <= i < sets.len(),
    ensures
        flat(sets.take(i + 1)) == flat(sets.take(i)) + sets[i],
{
    assert(sets.take(i + 1).drop_last() =~= sets.take(i));
    assert(sets.take(i + 1).last() == sets[i]);
}

/// Compresses arbitrary elements into dense ids `0..n-1`, assigned in
/// order of first sight across the sets. Returns the sets with each
/// element replaced by its id (duplicates and ordering preserved), and the
/// reverse map, which holds the first occurrence of each distinct element
/// in scan order: `reverse[id]` recovers the element that `id` stands for.
pub fn compress_universe(sets: &Vec<Vec<u64>>) -> (r: (Vec<Vec<usize>>, Vec<u64>))
    ensures
        r.1@ == firsts(flat(seqs_of(sets@))),
        r.0@.len() == sets@.len(),
        forall|i: int| 0 <= i < sets@.len() ==> r.0@[i]@.len() == sets@[i]@.len(),
        forall|i: int, j: int|
            0 <= i < sets@.len() && 0 <= j < sets@[i]@.len() ==> (#[trigger] r.0@[i]@[j]) < r.1@.len()
                && r.1@[r.0@[i]@[j] as int] == sets@[i]@[j],
{
    let ghost gsets = seqs_of(sets@);
    let mut map: HashMap<u64, usize> = HashMap::new();
    let mut reverse: Vec<u64> = Vec::new();
    let mut dense_sets: Vec<Vec<usize>> = Vec::new();
    let ghost seen = Seq::<u64>::empty();
    let mut seen_tracker = Ghost(seen);
    proof {
        assert(flat(gsets.take(0)) =~= Seq::<u64>::empty());
        assert(firsts(Seq::<u64>::empty()) =~= Seq::<u64>::empty());
    }
    let mut i: usize = 0;
    while i < sets.len()
        invariant
            gsets == seqs_of(sets@),
            i <= sets@.len(),
            dense_sets@.len() == i,
            reverse@ == firsts(seen_tracker@),
            seen_tracker@ == flat(gsets.take(i as int)),
            forall|e: u64| map@.contains_key(e) <==> reverse@.contains(e),
            forall|e: u64|
                #[trigger] map@.contains_key(e) ==> map@[e] < reverse@.len() && reverse@[map@[e] as int]
                    == e,
            forall|i2: int| 0 <= i2 < i ==> (#[trigger] dense_sets@[i2]@.len()) == sets@[i2]@.len(),
            forall|i2: int, j: int|
                0 <= i2 < i && 0 <= j < sets@[i2]@.len() ==> (#[trigger] dense_sets@[i2]@[j])
                    < reverse@.len() && reverse@[dense_sets@[i2]@[j] as int] == sets@[i2]@[j],
        decreases sets@.len() - i,
    {
        let s = &sets[i];
        let mut row: Vec<usize> = Vec::new();
        let ghost rev_at_row = reverse@;
        let mut j: usize = 0;
        proof {
            lemma_flat_take_step(gsets, i as int);
            assert(gsets[i as int].take(0) =~= Seq::<u64>::empty());
            assert(seen_tracker@ + gsets[i as int].take(0) =~= seen_tracker@);
        }
        while j < s.len()
            invariant
                gsets == seqs_of(sets@),
                i < sets@.len(),
                j <= s@.len(),
                s@ == gsets[i as int],
                row@.len() == j,
                reverse@ == firsts(seen_tracker@),
                seen_tracker@ == flat(gsets.take(i as int)) + gsets[i as int].take(j as int),
                forall|e: u64| map@.contains_key(e) <==> reverse@.contains(e),
                forall|e: u64|
                    #[trigger] map@.contains_key(e) ==> map@[e] < reverse@.len()
                        && reverse@[map@[e] as int] == e,
                forall|j2: int|
                    0 <= j2 < j ==> (#[trigger] row@[j2]) < reverse@.len()
                        && reverse@[row@[j2] as int] == s@[j2],
                rev_at_row.is_prefix_of(reverse@),
            decreases s@.len() - j,
        {
            let e = s[j];
            let ghost seen_pre = seen_tracker@;
            proof {
                seen_tracker@ = seen_pre.push(e);
                assert(seen_pre.push(e).drop_last() =~= seen_pre);
                assert(seen_pre.push(e).last() == e);
                assert(gsets[i as int].take(j as int).push(e) =~= gsets[i as int].take(
                    j as int + 1,
                ));
                assert(flat(gsets.take(i as int)) + gsets[i as int].take(j as int + 1)
                    =~= seen_pre.push(e));
            }
            let id: usize = match map.get(&e) {
                Some(found) => {
                    let id = *found;
                    proof {
                        assert(map@.contains_key(e));
                        assert(firsts(seen_pre).contains(e));
                        assert(firsts(seen_tracker@) == firsts(seen_pre));
                    }
                    id
                },
                None => {
                    let id = reverse.len();
                    proof {
                        assert(!map@.contains_key(e));
                        assert(!firsts(seen_pre).contains(e));
                        assert(firsts(seen_tracker@) == firsts(seen_pre).push(e));
                    }
                    map.insert(e, id);
                    reverse.push(e);
                    id
                },
            };
            row.push(id);
            j = j + 1;
        }
        proof {
            assert(gsets[i as int].take(s@.len() as int) =~= gsets[i as int]);
            assert(seen_tracker@ == flat(gsets.take(i as int + 1)));
        }
        dense_sets.push(row);
        i = i + 1;
    }
    proof {
        assert(gsets.take(gsets.len() as int) =~= gsets);
    }
    (dense_sets, reverse)
}

} // verus!
