//! The hash-set ("textbook") strategy: greedy cover by membership tests
//! against a hash set of the still-uncovered elements, directly on the
//! original elements, with no dense compression.
use vstd::prelude::*;
use std::collections::HashSet;
use vstd::set_lib::lemma_len_subset;
use crate::dense::seqs_of;
use crate::mapping::{flat, lemma_flat_membership};
use crate::model::{
    all_unused, greedy_cover_distinct, greedy_occurrences, lemma_greedy_scorings_agree,
    lemma_num_unused_update, lemma_occurrence_gain_pos, lemma_occurrence_gain_step,
    lemma_scan_best_props, lemma_take_to_set_step, occurrence_gain, occurrence_gains, opt_prepend,
    scan_best, union_all,
};

verus! {

broadcast use vstd::std_specs::hash::group_hash_axioms, vstd::set::group_set_axioms, vstd::seq_lib::group_seq_properties;

/// What the textbook strategy computes: the distinct-element-scored greedy
/// cover with the union of all listed elements initially uncovered. An
/// element listed twice by one set counts once — the strategies must not
/// be told apart by duplicate listings.
pub open spec fn textbook_cover(sets: Seq<Seq<u64>>) -> Option<Seq<int>> {
    greedy_cover_distinct(sets)
}

/// The elements of a row, each kept once, in order of first occurrence:
/// scoring the deduplicated row per occurrence is scoring the original
/// row per distinct element.
fn dedup_row(s: &Vec<u64>) -> (r: Vec<u64>)
    ensures
        r@.no_duplicates(),
        forall|x: u64| r@.contains(x) <==> s@.contains(x),
{
    let mut seen: HashSet<u64> = HashSet::new();
    let mut r: Vec<u64> = Vec::new();
    let mut j: usize = 0;
    proof {
        assert(s@.take(0) =~= Seq::<u64>::empty());
    }
    while j < s.len()
        invariant
            j <= s@.len(),
            r@.no_duplicates(),
            forall|x: u64| seen@.contains(x) <==> r@.contains(x),
            forall|x: u64| r@.contains(x) <==> s@.take(j as int).contains(x),
        decreases s@.len() - j,
    {
        let e = s[j];
        proof {
            lemma_take_to_set_step(s@, j as int);
        }
        if !seen.contains(&e) {
            seen.insert(e);
            r.push(e);
        }
        j = j + 1;
    }
    proof {
        assert(s@.take(s@.len() as int) =~= s@);
    }
    r
}

/// Greedy set cover by hash-set membership: `sets[i]` lists the elements
/// of candidate set `i`, of any value; duplicate listings within a set
/// are harmless. Returns the indices of the chosen sets in selection
/// order, or `None` when no cover exists; the result is exactly the
/// distinct-element greedy recursion of the model — the same recursion
/// the other strategies are proved against.
pub fn greedy_set_cover_textbook_generic(sets: &Vec<Vec<u64>>) -> (r: Option<Vec<usize>>)
    ensures
        ({
            let spec_r = textbook_cover(seqs_of(sets@));
            match r {
                Some(v) => spec_r == Some(v@.map_values(|x: usize| x as int)),
                None => spec_r == None::<Seq<int>>,
            }
        }),
{
    let ghost gsets = seqs_of(sets@);
    let ghost u0 = union_all(gsets);
    let m = sets.len();
    let mut uncovered: HashSet<u64> = HashSet::new();
    let mut i: usize = 0;
    proof {
        assert(flat(gsets.take(0)) =~= Seq::<u64>::empty());
        assert(uncovered@ =~= flat(gsets.take(0)).to_set());
    }
    while i < sets.len()
        invariant
            gsets == seqs_of(sets@),
            i <= sets@.len(),
            uncovered@ == flat(gsets.take(i as int)).to_set(),
        decreases sets@.len() - i,
    {
        let s = &sets[i];
        let mut j: usize = 0;
        proof {
            crate::mapping::lemma_flat_take_step(gsets, i as int);
            assert(gsets[i as int].take(0) =~= Seq::<u64>::empty());
            assert(flat(gsets.take(i as int)) + gsets[i as int].take(0) =~= flat(
                gsets.take(i as int),
            ));
        }
        while j < s.len()
            invariant
                gsets == seqs_of(sets@),
                i < sets@.len(),
                j <= s@.len(),
                s@ == gsets[i as int],
                uncovered@ == (flat(gsets.take(i as int)) + gsets[i as int].take(
                    j as int,
                )).to_set(),
            decreases s@.len() - j,
        {
            let e = s[j];
            let ghost pre = flat(gsets.take(i as int)) + gsets[i as int].take(j as int);
            uncovered.insert(e);
            proof {
                assert(gsets[i as int].take(j as int).push(e) =~= gsets[i as int].take(
                    j as int + 1,
                ));
                assert(flat(gsets.take(i as int)) + gsets[i as int].take(j as int + 1) =~= pre.push(
                    e,
                ));
                assert(pre.push(e).to_set() =~= pre.to_set().insert(e));
            }
            j = j + 1;
        }
        proof {
            assert(gsets[i as int].take(s@.len() as int) =~= gsets[i as int]);
        }
        i = i + 1;
    }
    proof {
        assert(gsets.take(gsets.len() as int) =~= gsets);
        lemma_flat_membership(gsets);
        assert(uncovered@ =~= u0);
        assert(uncovered@.finite());
    }
    if uncovered.is_empty() {
        proof {
            assert(u0 =~= Set::<u64>::empty());
            assert(Seq::<usize>::empty().map_values(|x: usize| x as int) =~= Seq::<int>::empty());
        }
        return Some(Vec::new());
    }
    let mut rows: Vec<Vec<u64>> = Vec::new();
    let mut di: usize = 0;
    while di < sets.len()
        invariant
            di <= sets@.len(),
            rows@.len() == di,
            forall|k: int| 0 <= k < di ==> (#[trigger] rows@[k]@).no_duplicates(),
            forall|k: int, x: u64|
                0 <= k < di ==> ((#[trigger] rows@[k]@.contains(x)) <==> sets@[k]@.contains(x)),
        decreases sets@.len() - di,
    {
        let row = dedup_row(&sets[di]);
        rows.push(row);
        di = di + 1;
    }
    let ghost drows = seqs_of(rows@);
    let ghost target = greedy_occurrences(drows, u0, all_unused(m as nat));
    proof {
        lemma_greedy_scorings_agree(drows, u0, all_unused(m as nat));
        let ma = drows.map_values(|s: Seq<u64>| s.to_set());
        let mb = gsets.map_values(|s: Seq<u64>| s.to_set());
        assert(ma =~= mb) by {
            assert forall|i2: int| 0 <= i2 < m implies #[trigger] ma[i2] =~= mb[i2] by {
                assert forall|x: u64| ma[i2].contains(x) implies mb[i2].contains(x) by {
                    assert(rows@[i2]@.contains(x));
                    assert(sets@[i2]@.contains(x));
                };
                assert forall|x: u64| mb[i2].contains(x) implies ma[i2].contains(x) by {
                    assert(sets@[i2]@.contains(x));
                    assert(rows@[i2]@.contains(x));
                };
            };
        };
        assert(target == textbook_cover(gsets));
    }
    let mut used = crate::dense::make_flags(m, false);
    let mut chosen: Vec<usize> = Vec::new();
    proof {
        assert(used@ =~= all_unused(m as nat));
        assert(chosen@.map_values(|x: usize| x as int) =~= Seq::<int>::empty());
        assert(Seq::<int>::empty() + greedy_occurrences(drows, u0, used@).unwrap()
            =~= greedy_occurrences(drows, u0, used@).unwrap());
    }
    while !uncovered.is_empty()
        invariant
            m == sets@.len(),
            m == rows@.len(),
            gsets == seqs_of(sets@),
            drows == seqs_of(rows@),
            u0 == union_all(gsets),
            target == greedy_occurrences(drows, u0, all_unused(m as nat)),
            target == textbook_cover(gsets),
            used@.len() == m,
            uncovered@.finite(),
            forall|k: int| 0 <= k < chosen@.len() ==> chosen@[k] < m,
            opt_prepend(
                chosen@.map_values(|x: usize| x as int),
                greedy_occurrences(drows, uncovered@, used@),
            ) == target,
        decreases uncovered@.len(),
    {
        let ghost ucur = uncovered@;
        let ghost gains = occurrence_gains(drows, ucur);
        let mut best_idx: Option<usize> = None;
        let mut best_gain: usize = 0;
        let mut i: usize = 0;
        while i < m
            invariant
                i <= m,
                m == rows@.len(),
                drows == seqs_of(rows@),
                used@.len() == m,
                ucur == uncovered@,
                gains == occurrence_gains(drows, ucur),
                match best_idx {
                    Some(b) => b < m && best_gain > 0,
                    None => best_gain == 0,
                },
                scan_best(
                    gains,
                    used@,
                    i as int,
                    match best_idx {
                        Some(b) => b as int,
                        None => 0,
                    },
                    best_gain as nat,
                ) == scan_best(gains, used@, 0, 0, 0),
            decreases m - i,
        {
            if !used[i] {
                let s = &rows[i];
                let mut cover: usize = 0;
                let mut j: usize = 0;
                proof {
                    assert(drows[i as int].take(0) =~= Seq::<u64>::empty());
                }
                while j < s.len()
                    invariant
                        i < m,
                        j <= s@.len(),
                        m == rows@.len(),
                        drows == seqs_of(rows@),
                        s@ == drows[i as int],
                        ucur == uncovered@,
                        cover <= j,
                        cover == occurrence_gain(drows[i as int].take(j as int), ucur),
                    decreases s@.len() - j,
                {
                    let e = s[j];
                    proof {
                        lemma_occurrence_gain_step(drows[i as int], j as int, ucur);
                        assert(drows[i as int][j as int] == e);
                    }
                    if uncovered.contains(&e) {
                        cover = cover + 1;
                    }
                    j = j + 1;
                }
                proof {
                    assert(drows[i as int].take(drows[i as int].len() as int)
                        =~= drows[i as int]);
                    assert(cover == gains[i as int]);
                }
                if cover > best_gain {
                    best_gain = cover;
                    best_idx = Some(i);
                }
            }
            i = i + 1;
        }
        let ghost bi_spec: int = match best_idx {
            Some(b) => b as int,
            None => 0,
        };
        proof {
            assert(scan_best(gains, used@, m as int, bi_spec, best_gain as nat) == (
                bi_spec,
                best_gain as nat,
            ));
            assert(!(ucur =~= Set::<u64>::empty()));
        }
        if best_gain > 0 {
            let idx = match best_idx {
                Some(b) => b,
                None => 0,
            };
            let ghost used_pre = used@;
            let ghost upre = ucur;
            let ghost unew = ucur.difference(drows[idx as int].to_set());
            proof {
                assert(idx == bi_spec);
                lemma_scan_best_props(gains, used@, 0, 0, 0);
                assert(!used@[idx as int] && gains[idx as int] == best_gain);
                lemma_num_unused_update(used@, idx as int);
                lemma_occurrence_gain_pos(drows[idx as int], ucur);
                let w = choose|k: int|
                    0 <= k < drows[idx as int].len() && ucur.contains(
                        #[trigger] drows[idx as int][k],
                    );
                let we = drows[idx as int][w];
                assert(drows[idx as int].to_set().contains(we));
                assert(unew.subset_of(ucur.remove(we)));
                lemma_len_subset(unew, ucur.remove(we));
                assert(unew.len() < ucur.len());
                assert(greedy_occurrences(drows, ucur, used_pre) == match greedy_occurrences(
                    drows,
                    unew,
                    used_pre.update(idx as int, true),
                ) {
                    Some(rest) => Some(seq![idx as int] + rest),
                    None => None,
                });
            }
            used[idx] = true;
            let ghost chosen_pre = chosen@.map_values(|x: usize| x as int);
            chosen.push(idx);
            proof {
                assert(chosen@.map_values(|x: usize| x as int) =~= chosen_pre.push(idx as int));
                if greedy_occurrences(drows, unew, used@) is Some {
                    let rest = greedy_occurrences(drows, unew, used@).unwrap();
                    assert(chosen_pre.push(idx as int) + rest =~= chosen_pre + (seq![idx as int]
                        + rest));
                }
            }
            let s = &rows[idx];
            let mut j: usize = 0;
            proof {
                assert(drows[idx as int].take(0).to_set() =~= Set::<u64>::empty());
                assert(upre.difference(drows[idx as int].take(0).to_set()) =~= upre);
            }
            while j < s.len()
                invariant
                    idx < m,
                    j <= s@.len(),
                    m == rows@.len(),
                    drows == seqs_of(rows@),
                    s@ == drows[idx as int],
                    upre.finite(),
                    uncovered@ == upre.difference(drows[idx as int].take(j as int).to_set()),
                decreases s@.len() - j,
            {
                let e = s[j];
                let ghost uc = uncovered@;
                uncovered.remove(&e);
                proof {
                    assert(drows[idx as int][j as int] == e);
                    lemma_take_to_set_step(drows[idx as int], j as int);
                    assert(upre.difference(drows[idx as int].take(j as int + 1).to_set())
                        =~= uc.remove(e));
                    assert(uncovered@ =~= uc.remove(e));
                }
                j = j + 1;
            }
            proof {
                assert(drows[idx as int].take(s@.len() as int) =~= drows[idx as int]);
                assert(uncovered@ == unew);
                lemma_len_subset(unew, upre);
            }
        } else {
            proof {
                assert(greedy_occurrences(drows, ucur, used@) == None::<Seq<int>>);
            }
            return None;
        }
    }
    proof {
        assert(uncovered@ =~= Set::<u64>::empty());
        assert(greedy_occurrences(drows, uncovered@, used@) == Some(Seq::<int>::empty()));
        assert(chosen@.map_values(|x: usize| x as int) + Seq::<int>::empty() =~= chosen@.map_values(
            |x: usize| x as int,
        ));
    }
    Some(chosen)
}

} // verus!
