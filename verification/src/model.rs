//! Mathematical model of the greedy set-cover heuristic.
//!
//! The published semantics of every strategy is the recursive spec
//! function [`greedy_distinct`]: while uncovered elements remain, score
//! each unused candidate by its number of *distinct* still-uncovered
//! elements, keep the first candidate whose score strictly exceeds the
//! best seen so far, stop with `None` when no unused candidate scores
//! above zero, otherwise mark the winner used, subtract its elements from
//! the uncovered set, and recurse. A duplicate listing within a set never
//! changes a score, so the strategies cannot be told apart by one.
//!
//! [`greedy_occurrences`] is the same recursion scored per *position* of
//! the element sequences. It is proof scaffolding: the dense-array and
//! hash-set scans literally count positions of the deduplicated rows they
//! work on, and [`lemma_greedy_scorings_agree`] carries those runs over
//! to `greedy_distinct`, which the public contracts speak of.
use vstd::prelude::*;
use vstd::relations::injective_on;
use vstd::set_lib::lemma_len_subset;

verus! {

/// Number of positions of `s` that hold an element of `uncovered`
/// (a duplicated element is counted once per occurrence).
pub open spec fn occurrence_gain<E>(s: Seq<E>, uncovered: Set<E>) -> nat
    decreases s.len(),
{
    if s.len() == 0 {
        0
    } else {
        occurrence_gain(s.drop_last(), uncovered) + if uncovered.contains(s.last()) {
            1nat
        } else {
            0nat
        }
    }
}

/// Number of distinct elements of `s` that are still uncovered.
pub open spec fn distinct_gain<E>(s: Set<E>, uncovered: Set<E>) -> nat {
    s.intersect(uncovered).len()
}

/// How many candidate sets are still unused.
pub open spec fn num_unused(used: Seq<bool>) -> nat
    decreases used.len(),
{
    if used.len() == 0 {
        0
    } else {
        num_unused(used.drop_last()) + if used.last() {
            0nat
        } else {
            1nat
        }
    }
}

/// The scan that selects a round's winner: walk indices `i..gains.len()`
/// carrying the best candidate seen so far (`bi` with score `bg`), and
/// replace it only on a strictly larger score of an unused candidate, so
/// the first candidate of the maximal score wins.
pub open spec fn scan_best(gains: Seq<nat>, used: Seq<bool>, i: int, bi: int, bg: nat) -> (int, nat)
    decreases gains.len() - i,
{
    if i < 0 || i >= gains.len() {
        (bi, bg)
    } else if !used[i] && gains[i] > bg {
        scan_best(gains, used, i + 1, i, gains[i])
    } else {
        scan_best(gains, used, i + 1, bi, bg)
    }
}

/// The round scores of every candidate under occurrence counting.
pub open spec fn occurrence_gains<E>(sets: Seq<Seq<E>>, uncovered: Set<E>) -> Seq<nat> {
    Seq::new(sets.len(), |i: int| occurrence_gain(sets[i], uncovered))
}

/// The round scores of every candidate under distinct-element counting.
pub open spec fn distinct_gains<E>(sets: Seq<Set<E>>, uncovered: Set<E>) -> Seq<nat> {
    Seq::new(sets.len(), |i: int| distinct_gain(sets[i], uncovered))
}

/// Greedy cover, scoring by occurrences: the form the dense-array and
/// hash-set scans take on their deduplicated rows, where it coincides
/// with [`greedy_distinct`] (see [`lemma_greedy_scorings_agree`]).
/// Returns the chosen indices in selection order, or `None` when some
/// element cannot be covered.
///
/// The conjuncts after `bg > 0` in the guard restate facts that always hold
/// of a positive scan result (see `lemma_scan_best_props`); they are spelled
/// out here so that the recursion is visibly terminating.
pub open spec fn greedy_occurrences<E>(
    sets: Seq<Seq<E>>,
    uncovered: Set<E>,
    used: Seq<bool>,
) -> Option<Seq<int>>
    decreases num_unused(used),
{
    if uncovered =~= Set::<E>::empty() {
        Some(Seq::empty())
    } else {
        let (bi, bg) = scan_best(occurrence_gains(sets, uncovered), used, 0, 0, 0);
        if bg > 0 && 0 <= bi < used.len() && !used[bi] && num_unused(used.update(bi, true))
            < num_unused(used) {
            match greedy_occurrences(
                sets,
                uncovered.difference(sets[bi].to_set()),
                used.update(bi, true),
            ) {
                Some(rest) => Some(seq![bi] + rest),
                None => None,
            }
        } else {
            None
        }
    }
}

/// Greedy cover, scoring by distinct elements: the published semantics of
/// all three strategies.
pub open spec fn greedy_distinct<E>(
    sets: Seq<Set<E>>,
    uncovered: Set<E>,
    used: Seq<bool>,
) -> Option<Seq<int>>
    decreases num_unused(used),
{
    if uncovered =~= Set::<E>::empty() {
        Some(Seq::empty())
    } else {
        let (bi, bg) = scan_best(distinct_gains(sets, uncovered), used, 0, 0, 0);
        if bg > 0 && 0 <= bi < used.len() && !used[bi] && num_unused(used.update(bi, true))
            < num_unused(used) {
            match greedy_distinct(
                sets,
                uncovered.difference(sets[bi]),
                used.update(bi, true),
            ) {
                Some(rest) => Some(seq![bi] + rest),
                None => None,
            }
        } else {
            None
        }
    }
}

/// The union of all elements listed across `sets`: the universe.
pub open spec fn union_all<E>(sets: Seq<Seq<E>>) -> Set<E> {
    Set::new(|e: E| exists|i: int| 0 <= i < sets.len() && #[trigger] sets[i].to_set().contains(e))
}

/// `used` as every strategy starts it: no candidate used yet.
pub open spec fn all_unused(m: nat) -> Seq<bool> {
    Seq::new(m, |i: int| false)
}

/// Prepends the already-chosen indices to a pending greedy result.
pub open spec fn opt_prepend(prefix: Seq<int>, rest: Option<Seq<int>>) -> Option<Seq<int>> {
    match rest {
        Some(r) => Some(prefix + r),
        None => None,
    }
}

/// Dense integer ids, reread as mathematical integers.
pub open spec fn ids_of(sets: Seq<Seq<usize>>) -> Seq<Seq<int>> {
    sets.map_values(|s: Seq<usize>| s.map_values(|e: usize| e as int))
}

/// The set of indices whose flag is raised: how a `bool` marker array
/// denotes a set of dense ids.
pub open spec fn flags_set(flags: Seq<bool>) -> Set<int> {
    Set::new(|e: int| 0 <= e < flags.len() && flags[e])
}

/// One scan step of an occurrence count over a prefix.
pub proof fn lemma_occurrence_gain_step<E>(s: Seq<E>, j: int, uncovered: Set<E>)
    requires
        0 <= j < s.len(),
    ensures
        occurrence_gain(s.take(j + 1), uncovered) == occurrence_gain(s.take(j), uncovered) + if uncovered.contains(s[j]) {
            1nat
        } else {
            0nat
        },
{
    assert(s.take(j + 1).drop_last() =~= s.take(j));
    assert(s.take(j + 1).last() == s[j]);
}

/// A positive occurrence count names a coverable element.
pub proof fn lemma_occurrence_gain_pos<E>(s: Seq<E>, uncovered: Set<E>)
    requires
        occurrence_gain(s, uncovered) > 0,
    ensures
        exists|j: int| 0 <= j < s.len() && uncovered.contains(#[trigger] s[j]),
    decreases s.len(),
{
    if uncovered.contains(s.last()) {
        assert(uncovered.contains(s[s.len() - 1]));
    } else {
        lemma_occurrence_gain_pos(s.drop_last(), uncovered);
        let j = choose|j: int|
            0 <= j < s.drop_last().len() && uncovered.contains(#[trigger] s.drop_last()[j]);
        assert(uncovered.contains(s[j]));
    }
}

/// Updating one entry changes `num_unused` exactly at that entry.
pub proof fn lemma_num_unused_update(used: Seq<bool>, i: int)
    requires
        0 <= i < used.len(),
        !used[i],
    ensures
        num_unused(used.update(i, true)) + 1 == num_unused(used),
    decreases used.len(),
{
    let u2 = used.update(i, true);
    if i == used.len() - 1 {
        assert(u2.drop_last() =~= used.drop_last());
    } else {
        assert(u2.drop_last() =~= used.drop_last().update(i, true));
        lemma_num_unused_update(used.drop_last(), i);
    }
}

/// `take(j + 1)` holds exactly the elements of `take(j)` plus `s[j]`.
pub proof fn lemma_take_to_set_step<E>(s: Seq<E>, j: int)
    requires
        0 <= j < s.len(),
    ensures
        s.take(j + 1).to_set() =~= s.take(j).to_set().insert(s[j]),
{
    assert forall|x: E| s.take(j + 1).to_set().contains(x) implies s.take(j).to_set().insert(
        s[j],
    ).contains(x) by {
        let k = choose|k: int| 0 <= k < s.take(j + 1).len() && #[trigger] s.take(j + 1)[k] == x;
        if k < j {
            assert(s.take(j)[k] == x);
        }
    };
    assert forall|x: E| s.take(j).to_set().insert(s[j]).contains(x) implies s.take(
        j + 1,
    ).to_set().contains(x) by {
        if x == s[j] {
            assert(s.take(j + 1)[j] == x);
        } else {
            let k = choose|k: int| 0 <= k < s.take(j).len() && #[trigger] s.take(j)[k] == x;
            assert(s.take(j + 1)[k] == x);
        }
    };
}

/// Removing a finite subset removes exactly its cardinality.
pub proof fn lemma_len_minus<A>(u: Set<A>, c: Set<A>)
    requires
        u.finite(),
        c.finite(),
        c.subset_of(u),
    ensures
        u.difference(c).finite(),
        u.difference(c).len() == u.len() - c.len(),
    decreases c.len(),
{
    broadcast use vstd::set::group_set_axioms;

    if c.len() == 0 {
        c.lemma_len0_is_empty();
        assert(u.difference(c) =~= u);
    } else {
        let x = c.choose();
        lemma_len_minus(u.remove(x), c.remove(x));
        assert(u.remove(x).difference(c.remove(x)) =~= u.difference(c));
    }
}

/// The cardinality of a disjoint union is the sum of the cardinalities.
pub proof fn lemma_len_disjoint_union<A>(a: Set<A>, b: Set<A>)
    requires
        a.finite(),
        b.finite(),
        a.disjoint(b),
    ensures
        a.union(b).finite(),
        a.union(b).len() == a.len() + b.len(),
    decreases b.len(),
{
    broadcast use vstd::set::group_set_axioms;

    if b.len() == 0 {
        b.lemma_len0_is_empty();
        assert(a.union(b) =~= a);
    } else {
        let x = b.choose();
        lemma_len_disjoint_union(a, b.remove(x));
        assert(a.union(b.remove(x)).insert(x) =~= a.union(b));
        assert(!a.union(b.remove(x)).contains(x));
    }
}

/// The full greedy cover under distinct-element scoring.
pub open spec fn greedy_cover_distinct<E>(sets: Seq<Seq<E>>) -> Option<Seq<int>> {
    greedy_distinct(
        sets.map_values(|s: Seq<E>| s.to_set()),
        union_all(sets),
        all_unused(sets.len()),
    )
}

/// A successful greedy run picks in-range, unused, pairwise-distinct
/// candidates.
pub proof fn lemma_greedy_distinct_range<E>(sets: Seq<Set<E>>, unc: Set<E>, used: Seq<bool>)
    ensures
        match greedy_distinct(sets, unc, used) {
            Some(idxs) => (forall|k: int|
                0 <= k < idxs.len() ==> 0 <= #[trigger] idxs[k] < used.len() && !used[idxs[k]])
                && (forall|k1: int, k2: int|
                0 <= k1 < k2 < idxs.len() ==> idxs[k1] != idxs[k2]),
            None => true,
        },
    decreases num_unused(used),
{
    if !(unc =~= Set::<E>::empty()) {
        let (bi, bg) = scan_best(distinct_gains(sets, unc), used, 0, 0, 0);
        if bg > 0 && 0 <= bi < used.len() && !used[bi] && num_unused(used.update(bi, true))
            < num_unused(used) {
            let used2 = used.update(bi, true);
            lemma_greedy_distinct_range(sets, unc.difference(sets[bi]), used2);
            match greedy_distinct(sets, unc.difference(sets[bi]), used2) {
                Some(rest) => {
                    let idxs = seq![bi] + rest;
                    assert(idxs[0] == bi);
                    assert(forall|k: int| 1 <= k < idxs.len() ==> idxs[k] == rest[k - 1]);
                    assert forall|k: int|
                        0 <= k < idxs.len() implies 0 <= #[trigger] idxs[k] < used.len()
                        && !used[idxs[k]] by {
                        if k >= 1 {
                            assert(!used2[rest[k - 1]]);
                        }
                    };
                    assert forall|k1: int, k2: int| 0 <= k1 < k2 < idxs.len() implies idxs[k1]
                        != idxs[k2] by {
                        if k1 == 0 {
                            assert(!used2[rest[k2 - 1]]);
                            assert(used2[bi]);
                        }
                    };
                },
                None => {},
            }
        }
    }
}

/// Renaming elements injectively commutes with set difference.
proof fn lemma_map_difference<E, F>(a: Set<E>, b: Set<E>, dom: Set<E>, f: spec_fn(E) -> F)
    requires
        injective_on(f, dom),
        a.subset_of(dom),
        b.subset_of(dom),
    ensures
        a.difference(b).map(f) =~= a.map(f).difference(b.map(f)),
{
    broadcast use vstd::set::group_set_axioms;

    assert forall|y: F| a.difference(b).map(f).contains(y) implies a.map(f).difference(
        b.map(f),
    ).contains(y) by {
        let u = choose|u: E| a.difference(b).contains(u) && y == f(u);
        assert(a.map(f).contains(y));
        if b.map(f).contains(y) {
            let v = choose|v: E| b.contains(v) && y == f(v);
            assert(v == u);
        }
    };
    assert forall|y: F| a.map(f).difference(b.map(f)).contains(y) implies a.difference(b).map(
        f,
    ).contains(y) by {
        let u = choose|u: E| a.contains(u) && y == f(u);
        if b.contains(u) {
            assert(b.map(f).contains(y));
        }
        assert(a.difference(b).contains(u));
    };
}

/// The greedy recursion is unchanged by an injective renaming of the
/// elements: the chosen indices depend only on which elements coincide,
/// not on what they are.
pub proof fn lemma_greedy_distinct_relabel<E, F>(
    sets: Seq<Set<E>>,
    unc: Set<E>,
    used: Seq<bool>,
    dom: Set<E>,
    f: spec_fn(E) -> F,
)
    requires
        injective_on(f, dom),
        used.len() == sets.len(),
        forall|i: int| 0 <= i < sets.len() ==> (#[trigger] sets[i]).subset_of(dom),
        unc.subset_of(dom),
        unc.finite(),
        forall|i: int| 0 <= i < sets.len() ==> (#[trigger] sets[i]).finite(),
    ensures
        greedy_distinct(sets.map_values(|s: Set<E>| s.map(f)), unc.map(f), used)
            == greedy_distinct(sets, unc, used),
    decreases num_unused(used),
{
    broadcast use vstd::set::group_set_axioms;

    let msets = sets.map_values(|s: Set<E>| s.map(f));
    let munc = unc.map(f);
    if unc =~= Set::<E>::empty() {
        assert(munc =~= Set::<F>::empty());
    } else {
        let w = unc.choose();
        assert(unc.contains(w));
        assert(munc.contains(f(w)));
        assert(!(munc =~= Set::<F>::empty()));
        assert forall|i: int| 0 <= i < sets.len() implies distinct_gains(msets, munc)[i]
            == distinct_gains(sets, unc)[i] by {
            let inter = sets[i].intersect(unc);
            assert(inter.subset_of(dom));
            assert(inter.subset_of(unc));
            lemma_len_subset(inter, unc);
            assert(msets[i] == sets[i].map(f));
            assert(msets[i].intersect(munc) =~= inter.map(f)) by {
                assert forall|y: F| msets[i].intersect(munc).contains(y) implies inter.map(
                    f,
                ).contains(y) by {
                    let u = choose|u: E| sets[i].contains(u) && y == f(u);
                    let v = choose|v: E| unc.contains(v) && y == f(v);
                    assert(u == v);
                    assert(inter.contains(u));
                };
                assert forall|y: F| inter.map(f).contains(y) implies msets[i].intersect(
                    munc,
                ).contains(y) by {
                    let u = choose|u: E| inter.contains(u) && y == f(u);
                    assert(sets[i].map(f).contains(y));
                    assert(unc.map(f).contains(y));
                };
            };
            inter.lemma_map_finite(f);
            vstd::set_lib::lemma_map_size(inter, inter.map(f), f);
        };
        assert(distinct_gains(msets, munc) =~= distinct_gains(sets, unc));
        let (bi, bg) = scan_best(distinct_gains(sets, unc), used, 0, 0, 0);
        lemma_scan_best_props(distinct_gains(sets, unc), used, 0, 0, 0);
        if bg > 0 && 0 <= bi < used.len() && !used[bi] && num_unused(used.update(bi, true))
            < num_unused(used) {
            let unew = unc.difference(sets[bi]);
            assert(unew.subset_of(dom));
            lemma_len_subset(unew, unc);
            lemma_map_difference(unc, sets[bi], dom, f);
            lemma_greedy_distinct_relabel(sets, unew, used.update(bi, true), dom, f);
            assert(msets[bi] == sets[bi].map(f));
            assert(munc.difference(msets[bi]) == unew.map(f));
        }
    }
}

/// A duplicate-free candidate scores the same under both scorings.
pub proof fn lemma_gain_agree<E>(s: Seq<E>, unc: Set<E>)
    requires
        s.no_duplicates(),
    ensures
        occurrence_gain(s, unc) == distinct_gain(s.to_set(), unc),
    decreases s.len(),
{
    vstd::seq_lib::seq_to_set_is_finite::<E>(s);
    if s.len() == 0 {
        assert(s.to_set() =~= Set::<E>::empty());
        assert(s.to_set().intersect(unc) =~= Set::<E>::empty());
    } else {
        let sd = s.drop_last();
        assert(sd.no_duplicates());
        lemma_gain_agree(sd, unc);
        vstd::seq_lib::seq_to_set_is_finite::<E>(sd);
        vstd::set_lib::lemma_len_subset(sd.to_set().intersect(unc), sd.to_set());
        assert(!sd.contains(s.last())) by {
            if sd.contains(s.last()) {
                let k = choose|k: int| 0 <= k < sd.len() && sd[k] == s.last();
                assert(s[k] == s[s.len() - 1]);
            }
        };
        assert(s.to_set() =~= sd.to_set().insert(s.last())) by {
            assert(sd.push(s.last()) =~= s);
        };
        if unc.contains(s.last()) {
            assert(s.to_set().intersect(unc) =~= sd.to_set().intersect(unc).insert(s.last()));
            assert(!sd.to_set().intersect(unc).contains(s.last()));
        } else {
            assert(s.to_set().intersect(unc) =~= sd.to_set().intersect(unc));
        }
    }
}

/// On duplicate-free candidates, the two scorings drive the greedy
/// recursion to the same result.
pub proof fn lemma_greedy_scorings_agree<E>(sets: Seq<Seq<E>>, unc: Set<E>, used: Seq<bool>)
    requires
        used.len() == sets.len(),
        forall|i: int| 0 <= i < sets.len() ==> (#[trigger] sets[i]).no_duplicates(),
    ensures
        greedy_occurrences(sets, unc, used) == greedy_distinct(
            sets.map_values(|s: Seq<E>| s.to_set()),
            unc,
            used,
        ),
    decreases num_unused(used),
{
    let msets = sets.map_values(|s: Seq<E>| s.to_set());
    if !(unc =~= Set::<E>::empty()) {
        assert forall|i: int| 0 <= i < sets.len() implies occurrence_gains(sets, unc)[i]
            == distinct_gains(msets, unc)[i] by {
            lemma_gain_agree(sets[i], unc);
        };
        assert(occurrence_gains(sets, unc) =~= distinct_gains(msets, unc));
        let (bi, bg) = scan_best(occurrence_gains(sets, unc), used, 0, 0, 0);
        lemma_scan_best_props(occurrence_gains(sets, unc), used, 0, 0, 0);
        if bg > 0 && 0 <= bi < used.len() && !used[bi] && num_unused(used.update(bi, true))
            < num_unused(used) {
            lemma_greedy_scorings_agree(sets, unc.difference(sets[bi].to_set()), used.update(
                bi,
                true,
            ));
            assert(msets[bi] == sets[bi].to_set());
        }
    }
}

/// What a positive scan result means: the winner is an unused candidate in
/// range, it carries the reported score, that score is maximal among the
/// unused candidates, and the winner is the first candidate to reach it.
pub proof fn lemma_scan_best_props(gains: Seq<nat>, used: Seq<bool>, i: int, bi: int, bg: nat)
    requires
        0 <= i <= gains.len(),
        used.len() == gains.len(),
        bg > 0 ==> 0 <= bi < i && !used[bi] && gains[bi] == bg,
        bg > 0 ==> forall|j: int| 0 <= j < i && !used[j] && #[trigger] gains[j] >= bg ==> bi <= j,
        forall|j: int| 0 <= j < i && !used[j] ==> #[trigger] gains[j] <= bg,
    ensures
        ({
            let (ri, rg) = scan_best(gains, used, i, bi, bg);
            &&& rg > 0 ==> 0 <= ri < gains.len() && !used[ri] && gains[ri] == rg
            &&& rg > 0 ==> forall|j: int|
                0 <= j < gains.len() && !used[j] && #[trigger] gains[j] >= rg ==> ri <= j
            &&& forall|j: int| 0 <= j < gains.len() && !used[j] ==> #[trigger] gains[j] <= rg
            &&& rg >= bg
        }),
    decreases gains.len() - i,
{
    if i < gains.len() {
        if !used[i] && gains[i] > bg {
            lemma_scan_best_props(gains, used, i + 1, i, gains[i]);
        } else {
            lemma_scan_best_props(gains, used, i + 1, bi, bg);
        }
    }
}

} // verus!
