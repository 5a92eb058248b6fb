//! Approximate minimum set cover by the classical greedy heuristic.
//!
//! Given a collection of candidate sets, each named by a key, the library
//! finds a small sub-collection whose union equals the union of all the
//! sets, by repeatedly picking the set that covers the most still-uncovered
//! elements. Three interchangeable strategies realize the heuristic: a
//! boolean-array scan (`greedy-standard`), a word-packed bitset with
//! population counts (`greedy-bitvec`), and a hash-set membership baseline
//! (`greedy-textbook`). The router in this module fixes a deterministic
//! candidate order, compresses elements to dense ids where a strategy
//! wants them, dispatches, and returns the chosen keys sorted ascending.
pub mod bitset;
pub mod dense;
pub mod keys;
pub mod laws;
pub mod mapping;
pub mod model;
pub mod textbook;

pub use bitset::{greedy_set_cover_bitset, make_bitset};
pub use dense::greedy_set_cover_dense;
pub use keys::SetKey;
pub use mapping::compress_universe;
pub use textbook::greedy_set_cover_textbook_generic;

use vstd::prelude::*;
use vstd::relations::injective_on;
use vstd::set_lib::{lemma_int_range, set_int_range};
use vstd::string::*;
use crate::bitset::{bits_elems, bitset_cover, has_bit, word_count};
use crate::dense::{dense_cover, seqs_of};
use crate::keys::{
    abs_entries, abs_keys, entry_abs, entry_order, key_abs, key_order, sort_entries, sort_keys,
    EntryAbs, KeyAbs,
};
use crate::mapping::{firsts, flat, lemma_firsts_props, lemma_flat_membership};
use crate::model::{
    all_unused, greedy_cover_distinct, greedy_distinct, ids_of, lemma_greedy_distinct_relabel,
    union_all,
};

verus! {

broadcast use vstd::seq_lib::group_seq_properties, vstd::set::group_set_axioms;

/// The three greedy strategies, as an explicit routing value.
#[derive(Clone, Copy, Debug, PartialEq, Eq)]
pub enum Strategy {
    Dense,
    Bitset,
    Textbook,
}

/// The two terminal failures of an invocation: an unrecognized strategy
/// name, and a universe that no sub-collection covers. Neither is ever
/// answered with a partial cover.
#[derive(Clone, Copy, Debug, PartialEq, Eq)]
pub enum SetCoverError {
    InvalidAlgorithm,
    InfeasibleCover,
}

/// The fixed name table of the public entry points.
pub open spec fn parse_strategy_spec(name: Seq<char>) -> Option<Strategy> {
    if name == "greedy-standard"@ {
        Some(Strategy::Dense)
    } else if name == "greedy-bitvec"@ {
        Some(Strategy::Bitset)
    } else if name == "greedy-textbook"@ {
        Some(Strategy::Textbook)
    } else {
        None
    }
}

/// Whether two strings hold the same characters.
fn str_eq(a: &str, b: &str) -> (r: bool)
    ensures
        r == (a@ == b@),
{
    let la = a.unicode_len();
    let lb = b.unicode_len();
    if la != lb {
        proof {
            assert(a@ != b@);
        }
        return false;
    }
    let mut i: usize = 0;
    while i < la
        invariant
            la == a@.len(),
            la == b@.len(),
            i <= la,
            forall|k: int| 0 <= k < i ==> a@[k] == b@[k],
        decreases la - i,
    {
        if a.get_char(i) != b.get_char(i) {
            proof {
                assert(a@[i as int] != b@[i as int]);
            }
            return false;
        }
        i = i + 1;
    }
    proof {
        assert(a@ =~= b@);
    }
    true
}

/// Translates a strategy name through the fixed name table; any other
/// name is reported, never guessed at.
pub fn parse_strategy(name: &str) -> (r: Option<Strategy>)
    ensures
        r == parse_strategy_spec(name@),
{
    if str_eq(name, "greedy-standard") {
        Some(Strategy::Dense)
    } else if str_eq(name, "greedy-bitvec") {
        Some(Strategy::Bitset)
    } else if str_eq(name, "greedy-textbook") {
        Some(Strategy::Textbook)
    } else {
        None
    }
}

/// The id-to-element reading of a compressor reverse map.
pub open spec fn reverse_fn(rev: Seq<u64>) -> spec_fn(int) -> u64 {
    |id: int| rev[id]
}

/// After compression, a greedy recursion over the dense ids equals the
/// same recursion over the original elements: the reverse map renames
/// `0..n-1` injectively onto the universe.
proof fn lemma_compressed_cover(sets: Seq<Seq<u64>>, dense: Seq<Seq<usize>>, rev: Seq<u64>)
    requires
        rev == firsts(flat(sets)),
        dense.len() == sets.len(),
        forall|i: int| 0 <= i < sets.len() ==> (#[trigger] dense[i]).len() == sets[i].len(),
        forall|i: int, j: int|
            0 <= i < sets.len() && 0 <= j < sets[i].len() ==> (#[trigger] dense[i][j]) < rev.len()
                && rev[dense[i][j] as int] == sets[i][j],
    ensures
        dense_cover(rev.len() as nat, dense) == greedy_cover_distinct(sets),
{
    let n = rev.len() as int;
    let ids = ids_of(dense);
    let f = reverse_fn(rev);
    let dom = set_int_range(0, n);
    lemma_int_range(0, n);
    lemma_firsts_props(flat(sets));
    lemma_flat_membership(sets);
    assert(injective_on(f, dom)) by {
        assert forall|x1: int, x2: int|
            dom.contains(x1) && dom.contains(x2) && #[trigger] f(x1) == #[trigger] f(
                x2,
            ) implies x1 == x2 by {
            if x1 != x2 {
                assert(rev[x1] != rev[x2]);
            }
        };
    };
    assert(forall|i: int, j: int|
        0 <= i < ids.len() && 0 <= j < ids[i].len() ==> dom.contains(#[trigger] ids[i][j]));
    assert(dom.map(f) =~= union_all(sets)) by {
        assert forall|y: u64| dom.map(f).contains(y) implies union_all(sets).contains(y) by {
            let id = choose|id: int| dom.contains(id) && y == f(id);
            assert(rev[id] == y);
            assert(rev.contains(y));
            assert(flat(sets).contains(y));
        };
        assert forall|y: u64| union_all(sets).contains(y) implies dom.map(f).contains(y) by {
            assert(flat(sets).contains(y));
            assert(rev.contains(y));
            let id = choose|id: int| 0 <= id < rev.len() && rev[id] == y;
            assert(dom.contains(id));
            assert(f(id) == y);
        };
    };
    assert(all_unused(ids.len()) =~= all_unused(sets.len()));
    let idsets = ids.map_values(|s: Seq<int>| s.to_set());
    assert(forall|i: int| 0 <= i < idsets.len() ==> (#[trigger] idsets[i]).subset_of(dom));
    assert forall|i: int| 0 <= i < idsets.len() implies (#[trigger] idsets[i]).finite() by {
        vstd::seq_lib::seq_to_set_is_finite::<int>(ids[i]);
    };
    lemma_greedy_distinct_relabel(idsets, dom, all_unused(idsets.len()), dom, f);
    assert(idsets.map_values(|s: Set<int>| s.map(f)) =~= sets.map_values(
        |s: Seq<u64>| s.to_set(),
    )) by {
        assert forall|i: int| 0 <= i < sets.len() implies idsets.map_values(
            |s: Set<int>| s.map(f),
        )[i] =~= sets[i].to_set() by {
            let mi = idsets[i].map(f);
            assert forall|y: u64| mi.contains(y) implies sets[i].to_set().contains(y) by {
                let id = choose|id: int| idsets[i].contains(id) && y == f(id);
                let j = choose|j: int| 0 <= j < ids[i].len() && ids[i][j] == id;
                assert(sets[i][j] == y);
            };
            assert forall|y: u64| sets[i].to_set().contains(y) implies mi.contains(y) by {
                let j = choose|j: int| 0 <= j < sets[i].len() && sets[i][j] == y;
                assert(ids[i].to_set().contains(ids[i][j]));
                assert(f(ids[i][j]) == y);
            };
        };
    };
}

/// Greedy cover over arbitrary elements through the dense-array strategy:
/// compresses the universe, then runs the boolean-array scan. Equal to the
/// distinct-element greedy recursion on the original sets — the same
/// recursion every strategy returns.
pub fn greedy_set_cover_dense_generic(sets: &Vec<Vec<u64>>) -> (r: Option<Vec<usize>>)
    ensures
        ({
            let spec_r = greedy_cover_distinct(seqs_of(sets@));
            match r {
                Some(v) => spec_r == Some(v@.map_values(|x: usize| x as int)),
                None => spec_r == None::<Seq<int>>,
            }
        }),
{
    let compressed = compress_universe(sets);
    let dense_sets = compressed.0;
    let universe = compressed.1;
    let universe_size = universe.len();
    let r = crate::dense::greedy_set_cover_dense(universe_size, &dense_sets);
    proof {
        lemma_compressed_cover(seqs_of(sets@), seqs_of(dense_sets@), universe@);
    }
    r
}

/// Greedy cover over arbitrary elements through the bitset strategy:
/// compresses the universe, packs each set into 64-bit words, and runs the
/// population-count scan. Equal to the distinct-element greedy recursion
/// on the original sets.
pub fn greedy_set_cover_bitset_generic(sets: &Vec<Vec<u64>>) -> (r: Option<Vec<usize>>)
    ensures
        ({
            let spec_r = greedy_cover_distinct(seqs_of(sets@));
            match r {
                Some(v) => spec_r == Some(v@.map_values(|x: usize| x as int)),
                None => spec_r == None::<Seq<int>>,
            }
        }),
{
    let compressed = compress_universe(sets);
    let dense_sets = compressed.0;
    let universe = compressed.1;
    let universe_size = universe.len();
    let ghost dsets = seqs_of(dense_sets@);
    let ghost n = universe_size as nat;
    let mut sets_bits: Vec<Vec<u64>> = Vec::new();
    let mut i: usize = 0;
    while i < dense_sets.len()
        invariant
            dsets == seqs_of(dense_sets@),
            n == universe_size as nat,
            i <= dense_sets@.len(),
            sets_bits@.len() == i,
            forall|k: int| 0 <= k < i ==> (#[trigger] sets_bits@[k]@.len()) == word_count(n),
            forall|k: int|
                0 <= k < i ==> bits_elems(#[trigger] sets_bits@[k]@, n) =~= ids_of(
                    dsets,
                )[k].to_set().intersect(set_int_range(0, n as int)),
        decreases dense_sets@.len() - i,
    {
        let bits = make_bitset(universe_size, &dense_sets[i]);
        proof {
            let idseq = ids_of(dsets)[i as int];
            assert forall|x: int| bits_elems(bits@, n).contains(x) implies idseq.to_set().intersect(
                set_int_range(0, n as int),
            ).contains(x) by {
                assert(has_bit(bits@, x));
                let k = choose|k: int|
                    0 <= k < dense_sets@[i as int]@.len() && #[trigger] dense_sets@[i as int]@[k]
                        == x;
                assert(idseq[k] == x);
                assert(idseq.to_set().contains(idseq[k]));
            };
            assert forall|x: int|
                idseq.to_set().intersect(set_int_range(0, n as int)).contains(
                x,
            ) implies bits_elems(bits@, n).contains(x) by {
                let k = choose|k: int| 0 <= k < idseq.len() && idseq[k] == x;
                assert(dense_sets@[i as int]@[k] == x);
            };
        }
        sets_bits.push(bits);
        i = i + 1;
    }
    let r = crate::bitset::greedy_set_cover_bitset(universe_size, &sets_bits);
    proof {
        lemma_compressed_cover(seqs_of(sets@), dsets, universe@);
        let idsets = ids_of(dsets).map_values(|s: Seq<int>| s.to_set());
        assert(seqs_of(sets_bits@).map_values(|b: Seq<u64>| bits_elems(b, n)) =~= idsets) by {
            assert forall|k: int| 0 <= k < dsets.len() implies bits_elems(
                sets_bits@[k]@,
                n,
            ) =~= idsets[k] by {
                assert forall|x: int| idsets[k].contains(x) implies set_int_range(
                    0,
                    n as int,
                ).contains(x) by {
                    let j = choose|j: int|
                        0 <= j < ids_of(dsets)[k].len() && ids_of(dsets)[k][j] == x;
                    assert(dsets[k][j] < universe@.len());
                };
            };
        };
        assert(bitset_cover(n, seqs_of(sets_bits@)) == greedy_distinct(
            idsets,
            set_int_range(0, n as int),
            all_unused(dsets.len()),
        ));
    }
    r
}

/// Routes across the strategies for a plain sequence-of-sets input, under
/// their bare names; the three strategies return the same cover, and an
/// unrecognized name yields `None`, like an infeasible instance.
pub open spec fn generic_cover_spec(sets: Seq<Seq<u64>>, algo: Seq<char>) -> Option<Seq<int>> {
    if algo == "dense"@ || algo == "bitset"@ || algo == "textbook"@ {
        greedy_cover_distinct(sets)
    } else {
        None
    }
}

/// Routes a plain sequence-of-sets input across the available greedy
/// strategies by bare strategy name.
pub fn greedy_set_cover_generic(sets: &Vec<Vec<u64>>, algo: &str) -> (r: Option<Vec<usize>>)
    ensures
        ({
            let spec_r = generic_cover_spec(seqs_of(sets@), algo@);
            match r {
                Some(v) => spec_r == Some(v@.map_values(|x: usize| x as int)),
                None => spec_r == None::<Seq<int>>,
            }
        }),
{
    if str_eq(algo, "dense") {
        greedy_set_cover_dense_generic(sets)
    } else if str_eq(algo, "bitset") {
        greedy_set_cover_bitset_generic(sets)
    } else if str_eq(algo, "textbook") {
        greedy_set_cover_textbook_generic(sets)
    } else {
        None
    }
}

/// What the strategies return on the canonically ordered candidates. The
/// three scorings agree — a set's score is its number of distinct
/// still-uncovered elements — so the answer does not depend on which
/// recognized strategy name was given.
pub open spec fn strategy_cover(canon: Seq<EntryAbs>) -> Option<Seq<int>> {
    greedy_cover_distinct(canon.map_values(|e: EntryAbs| e.elems))
}

/// The canonical candidate order of one invocation: descending element
/// count, ties by ascending key.
pub open spec fn canonical_order(entries: Seq<EntryAbs>) -> Seq<EntryAbs> {
    entries.sort_by(entry_order())
}

/// The router, in full: parse the strategy name, fix the canonical order,
/// run the strategy, map the chosen indices back to keys, and sort the
/// keys ascending. Infeasibility and a bad name are reported as errors,
/// never answered with a partial cover.
pub open spec fn route_spec(entries: Seq<EntryAbs>, algo: Seq<char>) -> Result<
    Seq<KeyAbs>,
    SetCoverError,
> {
    match parse_strategy_spec(algo) {
        None => Err(SetCoverError::InvalidAlgorithm),
        Some(_) => {
            let canon = canonical_order(entries);
            match strategy_cover(canon) {
                None => Err(SetCoverError::InfeasibleCover),
                Some(idxs) => Ok(
                    idxs.map_values(|i: int| canon[i].key).sort_by(key_order()),
                ),
            }
        },
    }
}

/// A plain copy of an element list.
fn copy_u64_vec(v: &Vec<u64>) -> (r: Vec<u64>)
    ensures
        r@ == v@,
{
    let mut r: Vec<u64> = Vec::new();
    let mut i: usize = 0;
    while i < v.len()
        invariant
            i <= v@.len(),
            r@ == v@.take(i as int),
        decreases v@.len() - i,
    {
        r.push(v[i]);
        proof {
            assert(v@.take(i as int).push(v@[i as int]) =~= v@.take(i as int + 1));
        }
        i = i + 1;
    }
    proof {
        assert(v@.take(v@.len() as int) =~= v@);
    }
    r
}

/// The public router: accepts keyed candidate sets and a strategy name,
/// and returns the keys of a greedy cover, sorted ascending, or the error
/// that ended the invocation. The whole pipeline is pinned by
/// [`route_spec`] on the entries' values.
pub fn greedy_set_cover(sets: &Vec<(SetKey, Vec<u64>)>, algo: String) -> (r: Result<
    Vec<SetKey>,
    SetCoverError,
>)
    ensures
        ({
            let spec_r = route_spec(abs_entries(sets@), algo@);
            match r {
                Ok(v) => spec_r == Ok::<Seq<KeyAbs>, SetCoverError>(abs_keys(v@)),
                Err(e) => spec_r == Err::<Seq<KeyAbs>, SetCoverError>(e),
            }
        }),
{
    let strat = match parse_strategy(algo.as_str()) {
        Some(s) => s,
        None => {
            return Err(SetCoverError::InvalidAlgorithm);
        },
    };
    let mut entries: Vec<(SetKey, Vec<u64>)> = Vec::new();
    let mut i: usize = 0;
    while i < sets.len()
        invariant
            i <= sets@.len(),
            entries@.len() == i,
            forall|k: int|
                0 <= k < i ==> entry_abs(#[trigger] entries@[k]) == entry_abs(sets@[k]),
        decreases sets@.len() - i,
    {
        let pair = &sets[i];
        let cloned_key = pair.0.clone();
        let cloned_elems = copy_u64_vec(&pair.1);
        entries.push((cloned_key, cloned_elems));
        i = i + 1;
    }
    proof {
        assert(abs_entries(entries@) =~= abs_entries(sets@));
    }
    let canon = sort_entries(entries);
    let ghost canon_abs = canonical_order(abs_entries(sets@));
    proof {
        assert(abs_entries(canon@) == canon_abs);
    }
    let mut only_sets: Vec<Vec<u64>> = Vec::new();
    let mut i: usize = 0;
    while i < canon.len()
        invariant
            i <= canon@.len(),
            abs_entries(canon@) == canon_abs,
            only_sets@.len() == i,
            forall|k: int| 0 <= k < i ==> (#[trigger] only_sets@[k]@) == canon@[k].1@,
        decreases canon@.len() - i,
    {
        let row = copy_u64_vec(&canon[i].1);
        only_sets.push(row);
        i = i + 1;
    }
    let ghost ss = canon_abs.map_values(|e: EntryAbs| e.elems);
    proof {
        assert(seqs_of(only_sets@) =~= ss);
    }
    let cover_opt = match strat {
        Strategy::Dense => greedy_set_cover_dense_generic(&only_sets),
        Strategy::Bitset => greedy_set_cover_bitset_generic(&only_sets),
        Strategy::Textbook => greedy_set_cover_textbook_generic(&only_sets),
    };
    let chosen = match cover_opt {
        Some(c) => c,
        None => {
            proof {
                assert(strategy_cover(canon_abs) == None::<Seq<int>>);
            }
            return Err(SetCoverError::InfeasibleCover);
        },
    };
    let ghost idxs = chosen@.map_values(|x: usize| x as int);
    proof {
        assert(strategy_cover(canon_abs) == Some(idxs));
        crate::model::lemma_greedy_distinct_range(
            ss.map_values(|s: Seq<u64>| s.to_set()),
            union_all(ss),
            all_unused(ss.len()),
        );
        assert(forall|k: int| 0 <= k < idxs.len() ==> 0 <= #[trigger] idxs[k] < canon@.len());
    }
    let mut keys_out: Vec<SetKey> = Vec::new();
    let mut k: usize = 0;
    while k < chosen.len()
        invariant
            k <= chosen@.len(),
            abs_entries(canon@) == canon_abs,
            idxs == chosen@.map_values(|x: usize| x as int),
            forall|k2: int| 0 <= k2 < idxs.len() ==> 0 <= #[trigger] idxs[k2] < canon@.len(),
            keys_out@.len() == k,
            forall|k2: int|
                0 <= k2 < k ==> key_abs(#[trigger] keys_out@[k2]) == canon_abs[idxs[k2]].key,
        decreases chosen@.len() - k,
    {
        let idx = chosen[k];
        proof {
            assert(idxs[k as int] == idx as int);
        }
        let key_copy = canon[idx].0.clone();
        keys_out.push(key_copy);
        k = k + 1;
    }
    proof {
        assert(abs_keys(keys_out@) =~= idxs.map_values(|i2: int| canon_abs[i2].key));
    }
    let sorted = sort_keys(keys_out);
    proof {
        assert(route_spec(abs_entries(sets@), algo@) == Ok::<Seq<KeyAbs>, SetCoverError>(
            abs_keys(sorted@),
        ));
    }
    Ok(sorted)
}

/// One more than the largest value listed, or zero if nothing is listed:
/// the implicit universe size of an already-dense element space.
pub open spec fn max_plus_one(s: Seq<u64>) -> int
    decreases s.len(),
{
    if s.len() == 0 {
        0
    } else {
        let m = max_plus_one(s.drop_last());
        if s.last() as int + 1 > m {
            s.last() as int + 1
        } else {
            m
        }
    }
}

/// Elements of every set, reread as integers.
pub open spec fn deep_ints(ss: Seq<Seq<u64>>) -> Seq<Seq<int>> {
    ss.map_values(|s: Seq<u64>| s.map_values(|x: u64| x as int))
}

/// What one strategy returns on canonically ordered candidates whose
/// elements are already dense ids: the dense-array and bitset strategies
/// start from the full universe `0..max+1`, while the hash-set strategy,
/// which needs no compression, starts as always from the listed elements.
/// Every strategy scores a candidate by its distinct uncovered elements.
pub open spec fn int_strategy_cover(canon: Seq<EntryAbs>, strat: Strategy) -> Option<Seq<int>> {
    let ss = canon.map_values(|e: EntryAbs| e.elems);
    let ssi = deep_ints(ss);
    let n = max_plus_one(flat(ss));
    match strat {
        Strategy::Dense => greedy_distinct(
            ssi.map_values(|s: Seq<int>| s.to_set()),
            set_int_range(0, n),
            all_unused(ssi.len()),
        ),
        Strategy::Bitset => greedy_distinct(
            ssi.map_values(|s: Seq<int>| s.to_set()),
            set_int_range(0, n),
            all_unused(ssi.len()),
        ),
        Strategy::Textbook => greedy_cover_distinct(ss),
    }
}

/// The router for already-dense elements: identical to [`route_spec`],
/// but the universe compressor is skipped and the universe is
/// `0..max+1` for the strategies that index by id.
pub open spec fn route_int_spec(entries: Seq<EntryAbs>, algo: Seq<char>) -> Result<
    Seq<KeyAbs>,
    SetCoverError,
> {
    match parse_strategy_spec(algo) {
        None => Err(SetCoverError::InvalidAlgorithm),
        Some(strat) => {
            let canon = canonical_order(entries);
            match int_strategy_cover(canon, strat) {
                None => Err(SetCoverError::InfeasibleCover),
                Some(idxs) => Ok(
                    idxs.map_values(|i: int| canon[i].key).sort_by(key_order()),
                ),
            }
        },
    }
}

/// The listed elements of already-dense sets are coverable ids only.
pub open spec fn elements_fit(entries: Seq<EntryAbs>) -> bool {
    forall|i: int, j: int|
        0 <= i < entries.len() && 0 <= j < entries[i].elems.len() ==> (
        #[trigger] entries[i].elems[j]) < usize::MAX
}

/// The companion router for sets whose elements are already dense
/// non-negative integers: the universe compressor is skipped, and the
/// universe of the id-indexed strategies is `0..max+1` (`0..0` when no
/// element is listed). The machine bound on the elements is what lets a
/// marker array of that size be addressed at all.
pub fn greedy_set_cover_int_elements(sets: &Vec<(SetKey, Vec<u64>)>, algo: String) -> (r: Result<
    Vec<SetKey>,
    SetCoverError,
>)
    requires
        elements_fit(abs_entries(sets@)),
    ensures
        ({
            let spec_r = route_int_spec(abs_entries(sets@), algo@);
            match r {
                Ok(v) => spec_r == Ok::<Seq<KeyAbs>, SetCoverError>(abs_keys(v@)),
                Err(e) => spec_r == Err::<Seq<KeyAbs>, SetCoverError>(e),
            }
        }),
{
    let strat = match parse_strategy(algo.as_str()) {
        Some(s) => s,
        None => {
            return Err(SetCoverError::InvalidAlgorithm);
        },
    };
    let mut entries: Vec<(SetKey, Vec<u64>)> = Vec::new();
    let mut i: usize = 0;
    while i < sets.len()
        invariant
            i <= sets@.len(),
            entries@.len() == i,
            forall|k: int|
                0 <= k < i ==> entry_abs(#[trigger] entries@[k]) == entry_abs(sets@[k]),
        decreases sets@.len() - i,
    {
        let pair = &sets[i];
        let cloned_key = pair.0.clone();
        let cloned_elems = copy_u64_vec(&pair.1);
        entries.push((cloned_key, cloned_elems));
        i = i + 1;
    }
    proof {
        assert(abs_entries(entries@) =~= abs_entries(sets@));
    }
    let canon = sort_entries(entries);
    let ghost canon_abs = canonical_order(abs_entries(sets@));
    let ghost ss = canon_abs.map_values(|e: EntryAbs| e.elems);
    proof {
        assert(abs_entries(canon@) == canon_abs);
        crate::keys::lemma_entry_order_total();
        abs_entries(sets@).lemma_sort_by_ensures(entry_order());
        assert forall|i2: int, j2: int|
            0 <= i2 < canon@.len() && 0 <= j2 < canon@[i2].1@.len() implies (
        #[trigger] canon@[i2].1@[j2]) < usize::MAX by {
            assert(canon_abs.contains(canon_abs[i2]));
            let k = choose|k: int|
                0 <= k < abs_entries(sets@).len() && abs_entries(sets@)[k] == canon_abs[i2];
            assert(abs_entries(sets@)[k].elems[j2] < usize::MAX);
        };
    }
    let mut only_sets: Vec<Vec<u64>> = Vec::new();
    let mut i: usize = 0;
    while i < canon.len()
        invariant
            i <= canon@.len(),
            abs_entries(canon@) == canon_abs,
            only_sets@.len() == i,
            forall|k: int| 0 <= k < i ==> (#[trigger] only_sets@[k]@) == canon@[k].1@,
        decreases canon@.len() - i,
    {
        let row = copy_u64_vec(&canon[i].1);
        only_sets.push(row);
        i = i + 1;
    }
    proof {
        assert(seqs_of(only_sets@) =~= ss);
    }
    let cover_opt = match strat {
        Strategy::Textbook => greedy_set_cover_textbook_generic(&only_sets),
        _ => {
            let mut bound: u64 = 0;
            let mut i: usize = 0;
            proof {
                assert(flat(ss.take(0)) =~= Seq::<u64>::empty());
            }
            while i < only_sets.len()
                invariant
                    seqs_of(only_sets@) == ss,
                    i <= ss.len(),
                    forall|i2: int, j2: int|
                        0 <= i2 < ss.len() && 0 <= j2 < ss[i2].len() ==> (#[trigger] ss[i2][j2])
                            < usize::MAX,
                    bound == max_plus_one(flat(ss.take(i as int))),
                    bound <= usize::MAX,
                decreases ss.len() - i,
            {
                let row = &only_sets[i];
                let mut j: usize = 0;
                proof {
                    crate::mapping::lemma_flat_take_step(ss, i as int);
                    assert(ss[i as int].take(0) =~= Seq::<u64>::empty());
                    assert(flat(ss.take(i as int)) + ss[i as int].take(0) =~= flat(
                        ss.take(i as int),
                    ));
                }
                while j < row.len()
                    invariant
                        seqs_of(only_sets@) == ss,
                        i < ss.len(),
                        j <= row@.len(),
                        row@ == ss[i as int],
                        forall|i2: int, j2: int|
                            0 <= i2 < ss.len() && 0 <= j2 < ss[i2].len() ==> (
                            #[trigger] ss[i2][j2]) < usize::MAX,
                        bound == max_plus_one(
                            flat(ss.take(i as int)) + ss[i as int].take(j as int),
                        ),
                        bound <= usize::MAX,
                    decreases row@.len() - j,
                {
                    let e = row[j];
                    let ghost pre = flat(ss.take(i as int)) + ss[i as int].take(j as int);
                    proof {
                        assert(ss[i as int][j as int] < usize::MAX);
                        assert(pre.push(e).drop_last() =~= pre);
                        assert(flat(ss.take(i as int)) + ss[i as int].take(j as int + 1)
                            =~= pre.push(e));
                    }
                    if e + 1 > bound {
                        bound = e + 1;
                    }
                    j = j + 1;
                }
                proof {
                    assert(ss[i as int].take(row@.len() as int) =~= ss[i as int]);
                }
                i = i + 1;
            }
            proof {
                assert(ss.take(ss.len() as int) =~= ss);
            }
            let universe_size: usize = bound as usize;
            let ghost n = max_plus_one(flat(ss));
            let mut rows: Vec<Vec<usize>> = Vec::new();
            let mut i: usize = 0;
            while i < only_sets.len()
                invariant
                    seqs_of(only_sets@) == ss,
                    i <= ss.len(),
                    rows@.len() == i,
                    forall|i2: int, j2: int|
                        0 <= i2 < ss.len() && 0 <= j2 < ss[i2].len() ==> (#[trigger] ss[i2][j2])
                            < usize::MAX,
                    forall|k: int|
                        0 <= k < i ==> (#[trigger] rows@[k]@).len() == ss[k].len(),
                    forall|k: int, j2: int|
                        0 <= k < i && 0 <= j2 < ss[k].len() ==> (#[trigger] rows@[k]@[j2]) as int
                            == ss[k][j2] as int,
                decreases ss.len() - i,
            {
                let row = &only_sets[i];
                let mut urow: Vec<usize> = Vec::new();
                let mut j: usize = 0;
                while j < row.len()
                    invariant
                        seqs_of(only_sets@) == ss,
                        i < ss.len(),
                        j <= row@.len(),
                        row@ == ss[i as int],
                        forall|i2: int, j2: int|
                            0 <= i2 < ss.len() && 0 <= j2 < ss[i2].len() ==> (
                            #[trigger] ss[i2][j2]) < usize::MAX,
                        urow@.len() == j,
                        forall|j2: int|
                            0 <= j2 < j ==> (#[trigger] urow@[j2]) as int == ss[i as int][j2] as int,
                    decreases row@.len() - j,
                {
                    let e = row[j];
                    proof {
                        assert(ss[i as int][j as int] < usize::MAX);
                    }
                    urow.push(e as usize);
                    j = j + 1;
                }
                rows.push(urow);
                i = i + 1;
            }
            let ghost ssi = deep_ints(ss);
            proof {
                assert(ids_of(seqs_of(rows@)) =~= ssi) by {
                    assert forall|k: int| 0 <= k < ss.len() implies ids_of(seqs_of(rows@))[k]
                        =~= ssi[k] by {
                        assert forall|j2: int| 0 <= j2 < ss[k].len() implies ids_of(
                            seqs_of(rows@),
                        )[k][j2] == ssi[k][j2] by {
                            assert(rows@[k]@[j2] as int == ss[k][j2] as int);
                        };
                    };
                };
            }
            match strat {
                Strategy::Bitset => {
                    let mut sets_bits: Vec<Vec<u64>> = Vec::new();
                    let mut i: usize = 0;
                    while i < rows.len()
                        invariant
                            ids_of(seqs_of(rows@)) == ssi,
                            n == max_plus_one(flat(ss)),
                            universe_size as int == n,
                            i <= rows@.len(),
                            sets_bits@.len() == i,
                            forall|k: int|
                                0 <= k < i ==> (#[trigger] sets_bits@[k]@.len()) == word_count(
                                    universe_size as nat,
                                ),
                            forall|k: int|
                                0 <= k < i ==> bits_elems(
                                    #[trigger] sets_bits@[k]@,
                                    universe_size as nat,
                                ) =~= ssi[k].to_set().intersect(set_int_range(0, n)),
                        decreases rows@.len() - i,
                    {
                        let bits = make_bitset(universe_size, &rows[i]);
                        proof {
                            let idseq = ssi[i as int];
                            assert forall|x: int|
                                bits_elems(bits@, universe_size as nat).contains(
                                x,
                            ) implies idseq.to_set().intersect(set_int_range(0, n)).contains(
                                x,
                            ) by {
                                assert(has_bit(bits@, x));
                                let k = choose|k: int|
                                    0 <= k < rows@[i as int]@.len()
                                        && #[trigger] rows@[i as int]@[k] == x;
                                assert(idseq[k] == x);
                                assert(idseq.to_set().contains(idseq[k]));
                            };
                            assert forall|x: int|
                                idseq.to_set().intersect(set_int_range(0, n)).contains(
                                x,
                            ) implies bits_elems(bits@, universe_size as nat).contains(x) by {
                                let k = choose|k: int| 0 <= k < idseq.len() && idseq[k] == x;
                                assert(rows@[i as int]@[k] as int == x);
                            };
                        }
                        sets_bits.push(bits);
                        i = i + 1;
                    }
                    let r = crate::bitset::greedy_set_cover_bitset(universe_size, &sets_bits);
                    proof {
                        let idsets = ssi.map_values(|s: Seq<int>| s.to_set());
                        assert(seqs_of(sets_bits@).map_values(
                            |b: Seq<u64>| bits_elems(b, universe_size as nat),
                        ) =~= idsets) by {
                            assert forall|k: int| 0 <= k < ssi.len() implies bits_elems(
                                sets_bits@[k]@,
                                universe_size as nat,
                            ) =~= idsets[k] by {
                                assert forall|x: int| idsets[k].contains(x) implies set_int_range(
                                    0,
                                    n,
                                ).contains(x) by {
                                    let j2 = choose|j2: int|
                                        0 <= j2 < ssi[k].len() && ssi[k][j2] == x;
                                    lemma_flat_max(ss, k, j2);
                                };
                            };
                        };
                    }
                    r
                },
                _ => {
                    let r = crate::dense::greedy_set_cover_dense(universe_size, &rows);
                    proof {
                        assert(ids_of(seqs_of(rows@)).map_values(|s: Seq<int>| s.to_set())
                            == ssi.map_values(|s: Seq<int>| s.to_set()));
                        assert(dense_cover(universe_size as nat, seqs_of(rows@))
                            == greedy_distinct(
                            ssi.map_values(|s: Seq<int>| s.to_set()),
                            set_int_range(0, n),
                            all_unused(ssi.len()),
                        ));
                    }
                    r
                },
            }
        },
    };
    let chosen = match cover_opt {
        Some(c) => c,
        None => {
            proof {
                assert(int_strategy_cover(canon_abs, strat) == None::<Seq<int>>);
            }
            return Err(SetCoverError::InfeasibleCover);
        },
    };
    let ghost idxs = chosen@.map_values(|x: usize| x as int);
    proof {
        assert(int_strategy_cover(canon_abs, strat) == Some(idxs));
        let ssi = deep_ints(ss);
        match strat {
            Strategy::Textbook => {
                crate::model::lemma_greedy_distinct_range(
                    ss.map_values(|s: Seq<u64>| s.to_set()),
                    union_all(ss),
                    all_unused(ss.len()),
                );
            },
            _ => {
                crate::model::lemma_greedy_distinct_range(
                    ssi.map_values(|s: Seq<int>| s.to_set()),
                    set_int_range(0, max_plus_one(flat(ss))),
                    all_unused(ssi.len()),
                );
            },
        }
        assert(forall|k: int| 0 <= k < idxs.len() ==> 0 <= #[trigger] idxs[k] < canon@.len());
    }
    let mut keys_out: Vec<SetKey> = Vec::new();
    let mut k: usize = 0;
    while k < chosen.len()
        invariant
            k <= chosen@.len(),
            abs_entries(canon@) == canon_abs,
            idxs == chosen@.map_values(|x: usize| x as int),
            forall|k2: int| 0 <= k2 < idxs.len() ==> 0 <= #[trigger] idxs[k2] < canon@.len(),
            keys_out@.len() == k,
            forall|k2: int|
                0 <= k2 < k ==> key_abs(#[trigger] keys_out@[k2]) == canon_abs[idxs[k2]].key,
        decreases chosen@.len() - k,
    {
        let idx = chosen[k];
        proof {
            assert(idxs[k as int] == idx as int);
        }
        let key_copy = canon[idx].0.clone();
        keys_out.push(key_copy);
        k = k + 1;
    }
    proof {
        assert(abs_keys(keys_out@) =~= idxs.map_values(|i2: int| canon_abs[i2].key));
    }
    let sorted = sort_keys(keys_out);
    proof {
        assert(route_int_spec(abs_entries(sets@), algo@) == Ok::<Seq<KeyAbs>, SetCoverError>(
            abs_keys(sorted@),
        ));
    }
    Ok(sorted)
}

/// Every element of the flattened scan lies below the running maximum.
proof fn lemma_flat_max(ss: Seq<Seq<u64>>, i: int, j: int)
    requires
        0 <= i < ss.len(),
        0 <= j < ss[i].len(),
    ensures
        (ss[i][j] as int) < max_plus_one(flat(ss)),
{
    lemma_flat_contains_bound(flat(ss), ss, i, j);
}

/// `max_plus_one` bounds every member of the sequence.
proof fn lemma_max_plus_one_bounds(s: Seq<u64>, k: int)
    requires
        0 <= k < s.len(),
    ensures
        (s[k] as int) < max_plus_one(s),
    decreases s.len(),
{
    if k == s.len() - 1 {
    } else {
        lemma_max_plus_one_bounds(s.drop_last(), k);
        assert(s.drop_last()[k] == s[k]);
    }
}

proof fn lemma_flat_contains_bound(fs: Seq<u64>, ss: Seq<Seq<u64>>, i: int, j: int)
    requires
        fs == flat(ss),
        0 <= i < ss.len(),
        0 <= j < ss[i].len(),
    ensures
        (ss[i][j] as int) < max_plus_one(fs),
{
    broadcast use vstd::seq_lib::group_seq_properties;

    lemma_flat_membership(ss);
    assert(ss[i].to_set().contains(ss[i][j]));
    assert(union_all(ss).contains(ss[i][j]));
    assert(fs.contains(ss[i][j]));
    let k = choose|k: int| 0 <= k < fs.len() && fs[k] == ss[i][j];
    lemma_max_plus_one_bounds(fs, k);
}

} // verus!
