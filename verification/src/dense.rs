//! The dense-array strategy: greedy cover over a `bool` uncovered-marker
//! array indexed by dense element ids.
use vstd::prelude::*;
use std::collections::HashSet;
use vstd::set_lib::{lemma_int_range, lemma_len_subset, set_int_range};
use crate::model::{
    all_unused, flags_set, greedy_distinct, greedy_occurrences, ids_of,
    lemma_greedy_scorings_agree, lemma_num_unused_update, lemma_occurrence_gain_pos,
    lemma_occurrence_gain_step, lemma_scan_best_props, lemma_take_to_set_step, occurrence_gain,
    occurrence_gains, opt_prepend, scan_best,
};

verus! {

broadcast use vstd::set::group_set_axioms, vstd::seq_lib::group_seq_properties, vstd::std_specs::hash::group_hash_axioms;

/// The element sequences of a vector of sets.
pub open spec fn seqs_of<T>(sets: Seq<Vec<T>>) -> Seq<Seq<T>> {
    sets.map_values(|v: Vec<T>| v@)
}

/// What the dense strategy computes: the distinct-element-scored greedy
/// cover with `0..universe_size` initially uncovered and every candidate
/// unused. An element listed twice by one set counts once — the strategies
/// must not be told apart by duplicate listings.
pub open spec fn dense_cover(universe_size: nat, sets: Seq<Seq<usize>>) -> Option<Seq<int>> {
    greedy_distinct(
        ids_of(sets).map_values(|s: Seq<int>| s.to_set()),
        set_int_range(0, universe_size as int),
        all_unused(sets.len()),
    )
}

/// A marker array of `len` copies of `val`.
pub fn make_flags(len: usize, val: bool) -> (v: Vec<bool>)
    ensures
        v@.len() == len,
        forall|i: int| 0 <= i < len ==> v@[i] == val,
{
    let mut v: Vec<bool> = Vec::new();
    while v.len() < len
        invariant
            v@.len() <= len,
            forall|i: int| 0 <= i < v@.len() ==> v@[i] == val,
        decreases len - v@.len(),
    {
        v.push(val);
    }
    v
}

/// The elements of a row, each kept once, in order of first occurrence:
/// scoring the deduplicated row per occurrence is scoring the original
/// row per distinct element.
fn dedup_row(s: &Vec<usize>) -> (r: Vec<usize>)
    ensures
        r@.no_duplicates(),
        forall|x: usize| r@.contains(x) <==> s@.contains(x),
{
    let mut seen: HashSet<usize> = HashSet::new();
    let mut r: Vec<usize> = Vec::new();
    let mut j: usize = 0;
    proof {
        assert(s@.take(0) =~= Seq::<usize>::empty());
    }
    while j < s.len()
        invariant
            j <= s@.len(),
            r@.no_duplicates(),
            forall|x: usize| seen@.contains(x) <==> r@.contains(x),
            forall|x: usize| r@.contains(x) <==> s@.take(j as int).contains(x),
        decreases s@.len() - j,
    {
        let e = s[j];
        proof {
            lemma_take_to_set_step(s@, j as int);
        }
        if !seen.contains(&e) {
            seen.insert(e);
            r.push(e);
        }
        j = j + 1;
    }
    proof {
        assert(s@.take(s@.len() as int) =~= s@);
    }
    r
}

/// Greedy set cover on the dense universe `{0, 1, ..., universe_size - 1}`.
///
/// `sets[i]` lists the elements of candidate set `i`; entries at or above
/// `universe_size` are ignored, and duplicate listings within a set are
/// harmless (each distinct element scores once). Returns the indices of
/// the chosen sets in selection order, or `None` when no cover exists.
/// The result is exactly the distinct-element greedy recursion of the
/// model — the same recursion the bitset strategy is proved against.
pub fn greedy_set_cover_dense(universe_size: usize, sets: &Vec<Vec<usize>>) -> (r: Option<
    Vec<usize>,
>)
    ensures
        ({
            let spec_r = dense_cover(universe_size as nat, seqs_of(sets@));
            match r {
                Some(v) => spec_r == Some(v@.map_values(|x: usize| x as int)),
                None => spec_r == None::<Seq<int>>,
            }
        }),
{
    let ghost u0 = set_int_range(0, universe_size as int);
    let m = sets.len();
    proof {
        lemma_int_range(0, universe_size as int);
    }
    if universe_size == 0 {
        proof {
            assert(u0 =~= Set::<int>::empty());
            assert(Seq::<usize>::empty().map_values(|x: usize| x as int) =~= Seq::<int>::empty());
        }
        return Some(Vec::new());
    }
    let mut rows: Vec<Vec<usize>> = Vec::new();
    let mut di: usize = 0;
    while di < sets.len()
        invariant
            di <= sets@.len(),
            rows@.len() == di,
            forall|k: int| 0 <= k < di ==> (#[trigger] rows@[k]@).no_duplicates(),
            forall|k: int, x: usize|
                0 <= k < di ==> ((#[trigger] rows@[k]@.contains(x)) <==> sets@[k]@.contains(x)),
        decreases sets@.len() - di,
    {
        let row = dedup_row(&sets[di]);
        rows.push(row);
        di = di + 1;
    }
    let ghost gsets = seqs_of(rows@);
    let ghost ids = ids_of(gsets);
    let ghost target = greedy_occurrences(ids, u0, all_unused(m as nat));
    proof {
        assert forall|i: int| 0 <= i < ids.len() implies (#[trigger] ids[i]).no_duplicates() by {
            assert forall|j1: int, j2: int|
                0 <= j1 < ids[i].len() && 0 <= j2 < ids[i].len() && j1 != j2 implies ids[i][j1]
                != ids[i][j2] by {
                assert(rows@[i]@[j1] != rows@[i]@[j2]);
            };
        };
        lemma_greedy_scorings_agree(ids, u0, all_unused(m as nat));
        let ma = ids.map_values(|s: Seq<int>| s.to_set());
        let mb = ids_of(seqs_of(sets@)).map_values(|s: Seq<int>| s.to_set());
        assert(ma =~= mb) by {
            assert forall|i: int| 0 <= i < m implies #[trigger] ma[i] =~= mb[i] by {
                let a = ids[i];
                let b = ids_of(seqs_of(sets@))[i];
                assert forall|x: int| a.to_set().contains(x) implies b.to_set().contains(x) by {
                    let j = choose|j: int| 0 <= j < a.len() && a[j] == x;
                    assert(rows@[i]@.contains(rows@[i]@[j]));
                    assert(sets@[i]@.contains(rows@[i]@[j]));
                    let j2 = choose|j2: int|
                        0 <= j2 < sets@[i]@.len() && #[trigger] sets@[i]@[j2] == rows@[i]@[j];
                    assert(b[j2] == x);
                };
                assert forall|x: int| b.to_set().contains(x) implies a.to_set().contains(x) by {
                    let j = choose|j: int| 0 <= j < b.len() && b[j] == x;
                    assert(sets@[i]@.contains(sets@[i]@[j]));
                    assert(rows@[i]@.contains(sets@[i]@[j]));
                    let j2 = choose|j2: int|
                        0 <= j2 < rows@[i]@.len() && #[trigger] rows@[i]@[j2] == sets@[i]@[j];
                    assert(a[j2] == x);
                };
            };
        };
        assert(target == dense_cover(universe_size as nat, seqs_of(sets@)));
    }
    let mut uncovered = make_flags(universe_size, true);
    let mut used = make_flags(m, false);
    let mut remaining: usize = universe_size;
    let mut chosen: Vec<usize> = Vec::new();
    proof {
        assert(flags_set(uncovered@) =~= u0);
        assert(used@ =~= all_unused(m as nat));
        assert(chosen@.map_values(|x: usize| x as int) =~= Seq::<int>::empty());
        assert(Seq::<int>::empty() + greedy_occurrences(ids, u0, used@).unwrap()
            =~= greedy_occurrences(ids, u0, used@).unwrap());
    }
    while remaining > 0
        invariant
            m == rows@.len(),
            gsets == seqs_of(rows@),
            ids == ids_of(gsets),
            u0 == set_int_range(0, universe_size as int),
            target == greedy_occurrences(ids, u0, all_unused(m as nat)),
            target == dense_cover(universe_size as nat, seqs_of(sets@)),
            uncovered@.len() == universe_size,
            used@.len() == m,
            flags_set(uncovered@).finite(),
            remaining == flags_set(uncovered@).len(),
            forall|k: int| 0 <= k < chosen@.len() ==> chosen@[k] < m,
            opt_prepend(
                chosen@.map_values(|x: usize| x as int),
                greedy_occurrences(ids, flags_set(uncovered@), used@),
            ) == target,
        decreases remaining,
    {
        let ghost ucur = flags_set(uncovered@);
        let ghost gains = occurrence_gains(ids, ucur);
        let mut best_idx: Option<usize> = None;
        let mut best_gain: usize = 0;
        let mut i: usize = 0;
        while i < m
            invariant
                i <= m,
                m == rows@.len(),
                gsets == seqs_of(rows@),
                ids == ids_of(gsets),
                uncovered@.len() == universe_size,
                used@.len() == m,
                ucur == flags_set(uncovered@),
                gains == occurrence_gains(ids, ucur),
                match best_idx {
                    Some(b) => b < m && best_gain > 0,
                    None => best_gain == 0,
                },
                scan_best(
                    gains,
                    used@,
                    i as int,
                    match best_idx {
                        Some(b) => b as int,
                        None => 0,
                    },
                    best_gain as nat,
                ) == scan_best(gains, used@, 0, 0, 0),
            decreases m - i,
        {
            if !used[i] {
                let s = &rows[i];
                let mut cover: usize = 0;
                let mut j: usize = 0;
                proof {
                    assert(ids[i as int].take(0) =~= Seq::<int>::empty());
                }
                while j < s.len()
                    invariant
                        i < m,
                        j <= s@.len(),
                        m == rows@.len(),
                        gsets == seqs_of(rows@),
                        ids == ids_of(gsets),
                        s@ == gsets[i as int],
                        uncovered@.len() == universe_size,
                        ucur == flags_set(uncovered@),
                        cover <= j,
                        cover == occurrence_gain(ids[i as int].take(j as int), ucur),
                    decreases s@.len() - j,
                {
                    let e = s[j];
                    proof {
                        lemma_occurrence_gain_step(ids[i as int], j as int, ucur);
                        assert(ids[i as int][j as int] == e as int);
                    }
                    if e < universe_size && uncovered[e] {
                        cover = cover + 1;
                    }
                    j = j + 1;
                }
                proof {
                    assert(ids[i as int].take(ids[i as int].len() as int) =~= ids[i as int]);
                    assert(cover == gains[i as int]);
                }
                if cover > best_gain {
                    best_gain = cover;
                    best_idx = Some(i);
                }
            }
            i = i + 1;
        }
        let ghost bi_spec: int = match best_idx {
            Some(b) => b as int,
            None => 0,
        };
        proof {
            assert(scan_best(gains, used@, m as int, bi_spec, best_gain as nat) == (
                bi_spec,
                best_gain as nat,
            ));
            assert(ucur.len() > 0);
            assert(!(ucur =~= Set::<int>::empty()));
        }
        if best_gain > 0 {
            let idx = match best_idx {
                Some(b) => b,
                None => 0,
            };
            proof {
                assert(idx == bi_spec);
            }
            {
                let ghost used_pre = used@;
                let ghost upre = ucur;
                let ghost unew = ucur.difference(ids[idx as int].to_set());
                proof {
                    lemma_scan_best_props(gains, used@, 0, 0, 0);
                    assert(!used@[idx as int] && gains[idx as int] == best_gain);
                    lemma_num_unused_update(used@, idx as int);
                    lemma_occurrence_gain_pos(ids[idx as int], ucur);
                    let w = choose|k: int|
                        0 <= k < ids[idx as int].len() && ucur.contains(
                            #[trigger] ids[idx as int][k],
                        );
                    let we = ids[idx as int][w];
                    assert(ids[idx as int].to_set().contains(we));
                    assert(unew.subset_of(ucur.remove(we)));
                    lemma_len_subset(unew, ucur.remove(we));
                    assert(unew.len() < ucur.len());
                    assert(greedy_occurrences(ids, ucur, used_pre) == match greedy_occurrences(
                        ids,
                        unew,
                        used_pre.update(idx as int, true),
                    ) {
                        Some(rest) => Some(seq![idx as int] + rest),
                        None => None,
                    });
                }
                used[idx] = true;
                let ghost chosen_pre = chosen@.map_values(|x: usize| x as int);
                chosen.push(idx);
                proof {
                    assert(chosen@.map_values(|x: usize| x as int) =~= chosen_pre.push(
                        idx as int,
                    ));
                    if greedy_occurrences(ids, unew, used@) is Some {
                        let rest = greedy_occurrences(ids, unew, used@).unwrap();
                        assert(chosen_pre.push(idx as int) + rest =~= chosen_pre + (seq![
                            idx as int,
                        ] + rest));
                    }
                }
                let s = &rows[idx];
                let mut j: usize = 0;
                proof {
                    assert(ids[idx as int].take(0).to_set() =~= Set::<int>::empty());
                    assert(upre.difference(ids[idx as int].take(0).to_set()) =~= upre);
                }
                while j < s.len() && remaining > 0
                    invariant
                        idx < m,
                        j <= s@.len(),
                        m == rows@.len(),
                        gsets == seqs_of(rows@),
                        ids == ids_of(gsets),
                        s@ == gsets[idx as int],
                        uncovered@.len() == universe_size,
                        upre.finite(),
                        flags_set(uncovered@) == upre.difference(
                            ids[idx as int].take(j as int).to_set(),
                        ),
                        remaining == flags_set(uncovered@).len(),
                    decreases s@.len() - j,
                {
                    let e = s[j];
                    let ghost uc = flags_set(uncovered@);
                    proof {
                        assert(ids[idx as int][j as int] == e as int);
                        lemma_take_to_set_step(ids[idx as int], j as int);
                        assert(upre.difference(ids[idx as int].take(j as int + 1).to_set())
                            =~= uc.remove(e as int));
                        lemma_len_subset(uc, upre);
                    }
                    if e < universe_size && uncovered[e] {
                        uncovered[e] = false;
                        proof {
                            assert(flags_set(uncovered@) =~= uc.remove(e as int));
                        }
                        remaining = remaining - 1;
                    } else {
                        proof {
                            assert(!uc.contains(e as int));
                            assert(uc.remove(e as int) =~= uc);
                        }
                    }
                    j = j + 1;
                }
                proof {
                    let utail = flags_set(uncovered@);
                    if j == s@.len() {
                        assert(ids[idx as int].take(j as int) =~= ids[idx as int]);
                        assert(utail == unew);
                    } else {
                        assert(remaining == 0);
                        utail.lemma_len0_is_empty();
                        assert forall|x: int| unew.contains(x) implies false by {
                            assert(ids[idx as int].take(j as int).to_set().subset_of(
                                ids[idx as int].to_set(),
                            ));
                            assert(utail.contains(x));
                        };
                        assert(unew =~= utail);
                    }
                    lemma_len_subset(unew, upre);
                }
            }
        } else {
            proof {
                assert(greedy_occurrences(ids, ucur, used@) == None::<Seq<int>>);
            }
            return None;
        }
    }
    proof {
        flags_set(uncovered@).lemma_len0_is_empty();
        assert(flags_set(uncovered@) =~= Set::<int>::empty());
        assert(greedy_occurrences(ids, flags_set(uncovered@), used@) == Some(Seq::<int>::empty()));
        assert(chosen@.map_values(|x: usize| x as int) + Seq::<int>::empty() =~= chosen@.map_values(
            |x: usize| x as int,
        ));
    }
    Some(chosen)
}

} // verus!
