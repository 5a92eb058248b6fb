//! The laws of the router, stated and proved over the same spec functions
//! that the executable functions' contracts use: full coverage on success,
//! sortedness and distinctness of the answer, success whenever the
//! universe is the union of the sets, agreement of the three strategies on
//! every input, infeasibility when an id of a dense universe is listed
//! nowhere, and the empty universe.
use vstd::prelude::*;
use vstd::relations::sorted_by;
use crate::bitset::{bits_elems, bitset_cover};
use crate::dense::dense_cover;
use crate::keys::{
    entry_order, key_order, EntryAbs, KeyAbs, lemma_entry_order_total, lemma_key_order_total,
};
use crate::model::{
    all_unused, distinct_gains, greedy_cover_distinct, greedy_distinct, ids_of,
    lemma_num_unused_update, lemma_scan_best_props, num_unused, scan_best, union_all,
};
use crate::{
    canonical_order, deep_ints, max_plus_one, parse_strategy_spec, route_int_spec, route_spec,
    strategy_cover, SetCoverError, Strategy,
};
use crate::mapping::flat;

verus! {

broadcast use vstd::seq_lib::group_seq_properties, vstd::set::group_set_axioms, vstd::string::group_string_axioms;

/// No two entries name the same key: what a mapping input guarantees.
pub open spec fn distinct_keys(entries: Seq<EntryAbs>) -> bool {
    forall|i: int, j: int|
        0 <= i < j < entries.len() ==> (#[trigger] entries[i]).key != (#[trigger] entries[j]).key
}

/// Every element listed across the entries.
pub open spec fn entries_union(entries: Seq<EntryAbs>) -> Set<u64> {
    union_all(entries.map_values(|e: EntryAbs| e.elems))
}

/// Every element listed by an entry whose key was returned.
pub open spec fn chosen_union(entries: Seq<EntryAbs>, keys: Seq<KeyAbs>) -> Set<u64> {
    Set::new(
        |e: u64|
            exists|i: int|
                0 <= i < entries.len() && keys.contains(#[trigger] entries[i].key)
                    && entries[i].elems.to_set().contains(e),
    )
}

/// The union of the sets a greedy run chose.
pub open spec fn picked_union_sets<E>(sets: Seq<Set<E>>, idxs: Seq<int>) -> Set<E> {
    Set::new(
        |e: E| exists|k: int| 0 <= k < idxs.len() && (#[trigger] sets[idxs[k]]).contains(e),
    )
}

/// A successful greedy run covers everything it set out to.
pub proof fn lemma_greedy_distinct_covers<E>(sets: Seq<Set<E>>, unc: Set<E>, used: Seq<bool>)
    ensures
        match greedy_distinct(sets, unc, used) {
            Some(idxs) => unc.subset_of(picked_union_sets(sets, idxs)),
            None => true,
        },
    decreases num_unused(used),
{
    if !(unc =~= Set::<E>::empty()) {
        let (bi, bg) = scan_best(distinct_gains(sets, unc), used, 0, 0, 0);
        if bg > 0 && 0 <= bi < used.len() && !used[bi] && num_unused(used.update(bi, true))
            < num_unused(used) {
            let unew = unc.difference(sets[bi]);
            lemma_greedy_distinct_covers(sets, unew, used.update(bi, true));
            match greedy_distinct(sets, unew, used.update(bi, true)) {
                Some(rest) => {
                    let idxs = seq![bi] + rest;
                    assert forall|e: E| unc.contains(e) implies picked_union_sets(
                        sets,
                        idxs,
                    ).contains(e) by {
                        if sets[bi].contains(e) {
                            assert(idxs[0] == bi);
                            assert(sets[idxs[0]].contains(e));
                        } else {
                            assert(unew.contains(e));
                            let k = choose|k: int|
                                0 <= k < rest.len() && (#[trigger] sets[rest[k]]).contains(e);
                            assert(idxs[k + 1] == rest[k]);
                            assert(sets[idxs[k + 1]].contains(e));
                        }
                    };
                },
                None => {},
            }
        }
    }
}

/// While every uncovered element belongs to some unused candidate, the
/// greedy run cannot fail: success is owed.
pub proof fn lemma_greedy_distinct_feasible<E>(sets: Seq<Set<E>>, unc: Set<E>, used: Seq<bool>)
    requires
        used.len() == sets.len(),
        unc.finite(),
        forall|i: int| 0 <= i < sets.len() ==> (#[trigger] sets[i]).finite(),
        forall|e: E|
            unc.contains(e) ==> exists|i: int|
                0 <= i < sets.len() && !used[i] && (#[trigger] sets[i]).contains(e),
    ensures
        greedy_distinct(sets, unc, used) is Some,
    decreases num_unused(used),
{
    if !(unc =~= Set::<E>::empty()) {
        let e = unc.choose();
        assert(unc.contains(e));
        let i = choose|i: int|
            0 <= i < sets.len() && !used[i] && (#[trigger] sets[i]).contains(e);
        let gains = distinct_gains(sets, unc);
        assert(gains[i] > 0) by {
            assert(sets[i].intersect(unc).contains(e));
            vstd::set_lib::lemma_len_subset(sets[i].intersect(unc), unc);
            if sets[i].intersect(unc).len() == 0 {
                sets[i].intersect(unc).lemma_len0_is_empty();
            }
        };
        lemma_scan_best_props(gains, used, 0, 0, 0);
        let (bi, bg) = scan_best(gains, used, 0, 0, 0);
        assert(bg >= gains[i]);
        lemma_num_unused_update(used, bi);
        let unew = unc.difference(sets[bi]);
        let used2 = used.update(bi, true);
        assert forall|e2: E| unew.contains(e2) implies exists|i2: int|
            0 <= i2 < sets.len() && !used2[i2] && (#[trigger] sets[i2]).contains(e2) by {
            let i2 = choose|i2: int|
                0 <= i2 < sets.len() && !used[i2] && (#[trigger] sets[i2]).contains(e2);
            assert(i2 != bi);
            assert(!used2[i2] && sets[i2].contains(e2));
        };
        lemma_greedy_distinct_feasible(sets, unew, used2);
    }
}

/// An element that no candidate holds dooms the run.
pub proof fn lemma_greedy_distinct_uncoverable<E>(
    sets: Seq<Set<E>>,
    unc: Set<E>,
    used: Seq<bool>,
    e: E,
)
    requires
        unc.contains(e),
        forall|i: int| 0 <= i < sets.len() ==> !(#[trigger] sets[i]).contains(e),
        used.len() == sets.len(),
    ensures
        greedy_distinct(sets, unc, used) == None::<Seq<int>>,
    decreases num_unused(used),
{
    assert(!(unc =~= Set::<E>::empty()));
    let (bi, bg) = scan_best(distinct_gains(sets, unc), used, 0, 0, 0);
    if bg > 0 && 0 <= bi < used.len() && !used[bi] && num_unused(used.update(bi, true))
        < num_unused(used) {
        let unew = unc.difference(sets[bi]);
        assert(unew.contains(e));
        lemma_greedy_distinct_uncoverable(sets, unew, used.update(bi, true), e);
    }
}

/// The canonical order is a permutation: same length, same members.
proof fn lemma_canonical_entries(entries: Seq<EntryAbs>)
    ensures
        canonical_order(entries).len() == entries.len(),
        forall|i: int|
            0 <= i < entries.len() ==> entries.contains(#[trigger] canonical_order(entries)[i]),
        forall|i: int|
            0 <= i < entries.len() ==> canonical_order(entries).contains(#[trigger] entries[i]),
        canonical_order(entries).to_multiset() == entries.to_multiset(),
{
    lemma_entry_order_total();
    entries.lemma_sort_by_ensures(entry_order());
    let canon = canonical_order(entries);
    assert(canon.to_multiset().len() == entries.to_multiset().len());
    assert forall|i: int| 0 <= i < entries.len() implies entries.contains(
        #[trigger] canon[i],
    ) by {
        assert(canon.contains(canon[i]));
        assert(canon.to_multiset().contains(canon[i]));
        assert(entries.to_multiset().contains(canon[i]));
    };
    assert forall|i: int| 0 <= i < entries.len() implies canon.contains(
        #[trigger] entries[i],
    ) by {
        assert(entries.contains(entries[i]));
        assert(entries.to_multiset().contains(entries[i]));
        assert(canon.to_multiset().contains(entries[i]));
    };
}

/// Distinct input keys stay distinct through the canonical reordering.
proof fn lemma_canonical_distinct_keys(entries: Seq<EntryAbs>)
    requires
        distinct_keys(entries),
    ensures
        distinct_keys(canonical_order(entries)),
{
    lemma_canonical_entries(entries);
    let canon = canonical_order(entries);
    assert(entries.no_duplicates()) by {
        assert forall|i: int, j: int|
            0 <= i < entries.len() && 0 <= j < entries.len() && i != j implies entries[i]
            != entries[j] by {
            if i < j {
                assert(entries[i].key != entries[j].key);
            } else {
                assert(entries[j].key != entries[i].key);
            }
        };
    };
    entries.lemma_multiset_has_no_duplicates();
    canon.lemma_multiset_has_no_duplicates_conv();
    assert forall|i: int, j: int| 0 <= i < j < canon.len() implies (#[trigger] canon[i]).key != (
    #[trigger] canon[j]).key by {
        if canon[i].key == canon[j].key {
            let k1 = choose|k1: int| 0 <= k1 < entries.len() && entries[k1] == canon[i];
            let k2 = choose|k2: int| 0 <= k2 < entries.len() && entries[k2] == canon[j];
            assert(canon[i] != canon[j]);
            assert(k1 != k2);
            if k1 < k2 {
                assert(entries[k1].key != entries[k2].key);
            } else {
                assert(entries[k2].key != entries[k1].key);
            }
        }
    };
}

/// The union of the listed elements survives the canonical reordering.
proof fn lemma_canonical_union(entries: Seq<EntryAbs>)
    ensures
        union_all(canonical_order(entries).map_values(|e: EntryAbs| e.elems)) =~= entries_union(
            entries,
        ),
{
    lemma_canonical_entries(entries);
    let canon = canonical_order(entries);
    let ss = canon.map_values(|e: EntryAbs| e.elems);
    let tt = entries.map_values(|e: EntryAbs| e.elems);
    assert forall|x: u64| union_all(ss).contains(x) implies union_all(tt).contains(x) by {
        let i = choose|i: int| 0 <= i < ss.len() && #[trigger] ss[i].to_set().contains(x);
        let k = choose|k: int| 0 <= k < entries.len() && entries[k] == canon[i];
        assert(tt[k].to_set().contains(x));
    };
    assert forall|x: u64| union_all(tt).contains(x) implies union_all(ss).contains(x) by {
        let i = choose|i: int| 0 <= i < tt.len() && #[trigger] tt[i].to_set().contains(x);
        let k = choose|k: int| 0 <= k < canon.len() && canon[k] == entries[i];
        assert(ss[k].to_set().contains(x));
    };
}

/// Feasibility soundness: whenever the router answers with a cover, the
/// returned keys are pairwise distinct and the union of the sets they
/// name equals the union of all the input sets.
pub proof fn lemma_cover_feasibility(entries: Seq<EntryAbs>, algo: Seq<char>)
    requires
        distinct_keys(entries),
        route_spec(entries, algo) is Ok,
    ensures
        ({
            let keys = route_spec(entries, algo)->Ok_0;
            &&& keys.no_duplicates()
            &&& chosen_union(entries, keys) =~= entries_union(entries)
        }),
{
    let canon = canonical_order(entries);
    let ss = canon.map_values(|e: EntryAbs| e.elems);
    let msets = ss.map_values(|s: Seq<u64>| s.to_set());
    let idxs = strategy_cover(canon)->Some_0;
    let mapped = idxs.map_values(|i: int| canon[i].key);
    let keys = route_spec(entries, algo)->Ok_0;
    lemma_canonical_entries(entries);
    lemma_canonical_distinct_keys(entries);
    lemma_canonical_union(entries);
    lemma_key_order_total();
    mapped.lemma_sort_by_ensures(key_order());
    assert(keys == mapped.sort_by(key_order()));
    crate::model::lemma_greedy_distinct_range(msets, union_all(ss), all_unused(ss.len()));
    lemma_greedy_distinct_covers(msets, union_all(ss), all_unused(ss.len()));
    assert(forall|k: int| 0 <= k < idxs.len() ==> 0 <= #[trigger] idxs[k] < canon.len());
    assert(mapped.no_duplicates()) by {
        assert forall|k1: int, k2: int|
            0 <= k1 < mapped.len() && 0 <= k2 < mapped.len() && k1 != k2 implies mapped[k1]
            != mapped[k2] by {
            if mapped[k1] == mapped[k2] {
                if idxs[k1] < idxs[k2] {
                    assert(canon[idxs[k1]].key != canon[idxs[k2]].key);
                } else if idxs[k2] < idxs[k1] {
                    assert(canon[idxs[k2]].key != canon[idxs[k1]].key);
                } else {
                    if k1 < k2 {
                        assert(idxs[k1] != idxs[k2]);
                    } else {
                        assert(idxs[k2] != idxs[k1]);
                    }
                }
            }
        };
    };
    mapped.lemma_multiset_has_no_duplicates();
    keys.lemma_multiset_has_no_duplicates_conv();
    assert forall|e: u64| entries_union(entries).contains(e) implies chosen_union(
        entries,
        keys,
    ).contains(e) by {
        assert(union_all(ss).contains(e));
        assert(picked_union_sets(msets, idxs).contains(e));
        let k = choose|k: int| 0 <= k < idxs.len() && (#[trigger] msets[idxs[k]]).contains(e);
        let i = choose|i: int| 0 <= i < entries.len() && entries[i] == canon[idxs[k]];
        assert(mapped[k] == entries[i].key);
        assert(mapped.contains(entries[i].key));
        assert(mapped.to_multiset().contains(entries[i].key));
        assert(keys.to_multiset().contains(entries[i].key));
        assert(keys.contains(entries[i].key));
        assert(entries[i].elems.to_set().contains(e));
    };
    assert forall|e: u64| chosen_union(entries, keys).contains(e) implies entries_union(
        entries,
    ).contains(e) by {
        let i = choose|i: int|
            0 <= i < entries.len() && keys.contains(#[trigger] entries[i].key)
                && entries[i].elems.to_set().contains(e);
        let tt = entries.map_values(|en: EntryAbs| en.elems);
        assert(tt[i].to_set().contains(e));
    };
}

/// Determinism: the answer is a function of the input values alone (the
/// pipeline spec is deterministic by construction), and any returned key
/// list is sorted ascending.
pub proof fn lemma_cover_sorted(entries: Seq<EntryAbs>, algo: Seq<char>)
    requires
        route_spec(entries, algo) is Ok,
    ensures
        sorted_by(route_spec(entries, algo)->Ok_0, key_order()),
{
    let canon = canonical_order(entries);
    let idxs = strategy_cover(canon)->Some_0;
    let mapped = idxs.map_values(|i: int| canon[i].key);
    lemma_key_order_total();
    mapped.lemma_sort_by_ensures(key_order());
}

/// Success is owed to the strategy wrappers too: a greedy cover over the
/// union of the very sets it may pick cannot fail, since any uncovered
/// element still lies in an unused set.
pub proof fn lemma_generic_cover_total(sets: Seq<Seq<u64>>)
    ensures
        greedy_cover_distinct(sets) is Some,
{
    let msets = sets.map_values(|s: Seq<u64>| s.to_set());
    let unc = union_all(sets);
    crate::mapping::lemma_flat_membership(sets);
    assert(unc =~= flat(sets).to_set());
    vstd::seq_lib::seq_to_set_is_finite::<u64>(flat(sets));
    assert forall|i: int| 0 <= i < msets.len() implies (#[trigger] msets[i]).finite() by {
        vstd::seq_lib::seq_to_set_is_finite::<u64>(sets[i]);
    };
    assert forall|e: u64| unc.contains(e) implies exists|i: int|
        0 <= i < msets.len() && !all_unused(msets.len())[i] && (#[trigger] msets[i]).contains(
            e,
        ) by {
        let i = choose|i: int| 0 <= i < sets.len() && #[trigger] sets[i].to_set().contains(e);
        assert(!all_unused(msets.len())[i] && msets[i].contains(e));
    };
    lemma_greedy_distinct_feasible(msets, unc, all_unused(msets.len()));
}

/// Success is owed: the principal router never finds a cover infeasible,
/// because its universe is the union of the very sets it may pick; with a
/// recognized strategy name it always returns a cover.
pub proof fn lemma_cover_total(entries: Seq<EntryAbs>, algo: Seq<char>)
    requires
        parse_strategy_spec(algo) is Some,
    ensures
        route_spec(entries, algo) is Ok,
{
    let canon = canonical_order(entries);
    lemma_generic_cover_total(canon.map_values(|e: EntryAbs| e.elems));
}

/// Whether no set lists the id `e`.
pub open spec fn unlisted_id(sets: Seq<Seq<usize>>, e: int) -> bool {
    forall|i: int| 0 <= i < sets.len() ==> !(#[trigger] ids_of(sets)[i]).to_set().contains(e)
}

/// Whether no packed set raises bit `e`.
pub open spec fn unraised_bit(sets_bits: Seq<Seq<u64>>, n: nat, e: int) -> bool {
    forall|i: int| 0 <= i < sets_bits.len() ==> !bits_elems(#[trigger] sets_bits[i], n).contains(e)
}

/// Infeasibility, exactly, for the dense-array strategy: it fails if and
/// only if some id below the universe size is listed by no set.
pub proof fn lemma_dense_cover_infeasible_iff(n: nat, sets: Seq<Seq<usize>>)
    ensures
        (dense_cover(n, sets) is None) <==> (exists|e: int|
            0 <= e < n && #[trigger] unlisted_id(sets, e)),
{
    let msets = ids_of(sets).map_values(|s: Seq<int>| s.to_set());
    let unc = vstd::set_lib::set_int_range(0, n as int);
    vstd::set_lib::lemma_int_range(0, n as int);
    assert forall|i: int| 0 <= i < msets.len() implies (#[trigger] msets[i]).finite() by {
        vstd::seq_lib::seq_to_set_is_finite::<int>(ids_of(sets)[i]);
    };
    if exists|e: int| 0 <= e < n && #[trigger] unlisted_id(sets, e) {
        let e = choose|e: int| 0 <= e < n && #[trigger] unlisted_id(sets, e);
        assert(forall|i: int| 0 <= i < msets.len() ==> !(#[trigger] msets[i]).contains(e));
        lemma_greedy_distinct_uncoverable(msets, unc, all_unused(sets.len()), e);
    } else {
        assert forall|e: int| unc.contains(e) implies exists|i: int|
            0 <= i < msets.len() && !all_unused(msets.len())[i] && (
            #[trigger] msets[i]).contains(e) by {
            assert(!unlisted_id(sets, e));
            let i = choose|i: int|
                0 <= i < sets.len() && (#[trigger] ids_of(sets)[i]).to_set().contains(e);
            assert(!all_unused(msets.len())[i] && msets[i].contains(e));
        };
        lemma_greedy_distinct_feasible(msets, unc, all_unused(sets.len()));
    }
}

/// The same, for the bitset strategy: it fails if and only if some bit
/// below the universe size is raised in none of the packed sets.
pub proof fn lemma_bitset_cover_infeasible_iff(n: nat, sets_bits: Seq<Seq<u64>>)
    ensures
        (bitset_cover(n, sets_bits) is None) <==> (exists|e: int|
            0 <= e < n && #[trigger] unraised_bit(sets_bits, n, e)),
{
    let msets = sets_bits.map_values(|b: Seq<u64>| bits_elems(b, n));
    let unc = vstd::set_lib::set_int_range(0, n as int);
    vstd::set_lib::lemma_int_range(0, n as int);
    assert forall|i: int| 0 <= i < msets.len() implies (#[trigger] msets[i]).finite() by {
        assert(msets[i].subset_of(unc));
        vstd::set_lib::lemma_len_subset(msets[i], unc);
    };
    if exists|e: int| 0 <= e < n && #[trigger] unraised_bit(sets_bits, n, e) {
        let e = choose|e: int| 0 <= e < n && #[trigger] unraised_bit(sets_bits, n, e);
        assert(forall|i: int| 0 <= i < msets.len() ==> !(#[trigger] msets[i]).contains(e));
        lemma_greedy_distinct_uncoverable(msets, unc, all_unused(sets_bits.len()), e);
    } else {
        assert forall|e: int| unc.contains(e) implies exists|i: int|
            0 <= i < msets.len() && !all_unused(msets.len())[i] && (
            #[trigger] msets[i]).contains(e) by {
            assert(!unraised_bit(sets_bits, n, e));
            let i = choose|i: int|
                0 <= i < sets_bits.len() && bits_elems(#[trigger] sets_bits[i], n).contains(e);
            assert(!all_unused(msets.len())[i] && msets[i].contains(e));
        };
        lemma_greedy_distinct_feasible(msets, unc, all_unused(sets_bits.len()));
    }
}

/// Strategy equivalence: the three strategy names return identical
/// answers on every input — their different internal representations do
/// not change the observed result, and a set listing an element twice is
/// scored no differently than one listing it once.
pub proof fn lemma_strategy_equivalence(entries: Seq<EntryAbs>)
    ensures
        route_spec(entries, "greedy-standard"@) == route_spec(entries, "greedy-bitvec"@),
        route_spec(entries, "greedy-standard"@) == route_spec(entries, "greedy-textbook"@),
{
    proof_strategy_names();
}

/// The three recognized names are pairwise different strings.
proof fn proof_strategy_names()
    ensures
        parse_strategy_spec("greedy-standard"@) == Some(Strategy::Dense),
        parse_strategy_spec("greedy-bitvec"@) == Some(Strategy::Bitset),
        parse_strategy_spec("greedy-textbook"@) == Some(Strategy::Textbook),
        parse_strategy_spec("bogus"@) == None::<Strategy>,
{
    reveal_strlit("greedy-standard");
    reveal_strlit("greedy-bitvec");
    reveal_strlit("greedy-textbook");
    reveal_strlit("bogus");
    assert("greedy-bitvec"@.len() == 13 && "greedy-standard"@.len() == 15 && "greedy-textbook"@.len() == 15 && "bogus"@.len() == 5);
    assert("greedy-bitvec"@ != "greedy-standard"@);
    assert("greedy-textbook"@ != "greedy-standard"@) by {
        assert("greedy-textbook"@[7] != "greedy-standard"@[7]);
    };
    assert("greedy-textbook"@ != "greedy-bitvec"@);
    assert("bogus"@ != "greedy-standard"@);
    assert("bogus"@ != "greedy-bitvec"@);
    assert("bogus"@ != "greedy-textbook"@);
}

/// Infeasibility: in the already-dense router, an id below the universe
/// size that no set lists makes both id-indexed strategies fail with
/// `InfeasibleCover`. (The hash-set strategy takes its universe from the
/// listed elements themselves, so an unlisted id does not concern it.)
pub proof fn lemma_missing_id_infeasible(entries: Seq<EntryAbs>, algo: Seq<char>, e: u64)
    requires
        parse_strategy_spec(algo) == Some(Strategy::Dense) || parse_strategy_spec(algo) == Some(
            Strategy::Bitset,
        ),
        (e as int) < max_plus_one(
            flat(canonical_order(entries).map_values(|en: EntryAbs| en.elems)),
        ),
        forall|i: int|
            0 <= i < entries.len() ==> !(#[trigger] entries[i]).elems.to_set().contains(e),
    ensures
        route_int_spec(entries, algo) == Err::<Seq<KeyAbs>, SetCoverError>(
            SetCoverError::InfeasibleCover,
        ),
{
    let canon = canonical_order(entries);
    let ss = canon.map_values(|en: EntryAbs| en.elems);
    let ssi = deep_ints(ss);
    let msets = ssi.map_values(|s: Seq<int>| s.to_set());
    let n = max_plus_one(flat(ss));
    lemma_canonical_entries(entries);
    assert forall|i: int| 0 <= i < msets.len() implies !(#[trigger] msets[i]).contains(
        e as int,
    ) by {
        if ssi[i].to_set().contains(e as int) {
            let j = choose|j: int| 0 <= j < ssi[i].len() && ssi[i][j] == e as int;
            assert(ss[i][j] == e);
            assert(ss[i].to_set().contains(e));
            let k = choose|k: int| 0 <= k < entries.len() && entries[k] == canon[i];
            assert(entries[k].elems.to_set().contains(e));
        }
    };
    vstd::set_lib::lemma_int_range(0, n);
    assert(vstd::set_lib::set_int_range(0, n).contains(e as int));
    lemma_greedy_distinct_uncoverable(
        msets,
        vstd::set_lib::set_int_range(0, n),
        all_unused(msets.len()),
        e as int,
    );
}

/// Invalid strategy: the name `bogus` is refused for every input, before
/// any computation, by both routers.
pub proof fn lemma_invalid_strategy(entries: Seq<EntryAbs>)
    ensures
        route_spec(entries, "bogus"@) == Err::<Seq<KeyAbs>, SetCoverError>(
            SetCoverError::InvalidAlgorithm,
        ),
        route_int_spec(entries, "bogus"@) == Err::<Seq<KeyAbs>, SetCoverError>(
            SetCoverError::InvalidAlgorithm,
        ),
{
    proof_strategy_names();
}

/// Empty universe: when the sets list nothing at all, every strategy
/// returns the empty cover, not a failure.
pub proof fn lemma_empty_universe(entries: Seq<EntryAbs>, algo: Seq<char>)
    requires
        parse_strategy_spec(algo) is Some,
        entries_union(entries) =~= Set::<u64>::empty(),
    ensures
        route_spec(entries, algo) == Ok::<Seq<KeyAbs>, SetCoverError>(Seq::<KeyAbs>::empty()),
{
    let canon = canonical_order(entries);
    let ss = canon.map_values(|e: EntryAbs| e.elems);
    lemma_canonical_union(entries);
    assert(union_all(ss) =~= Set::<u64>::empty());
    assert(strategy_cover(canon) == Some(Seq::<int>::empty()));
    let mapped = Seq::<int>::empty().map_values(|i: int| canon[i].key);
    assert(mapped =~= Seq::<KeyAbs>::empty());
    lemma_key_order_total();
    mapped.lemma_sort_by_ensures(key_order());
    assert(mapped.sort_by(key_order()).to_multiset().len() == 0);
    assert(mapped.sort_by(key_order()) =~= Seq::<KeyAbs>::empty());
}

} // verus!
