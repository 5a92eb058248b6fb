//! The bitset strategy: every set and the uncovered markers are packed
//! into arrays of 64-bit words, and a round's score is the population
//! count of `set_word & uncovered_word` summed over the words.
use vstd::prelude::*;
use vstd::set_lib::{lemma_int_range, lemma_len_subset, set_int_range};
use crate::model::{
    all_unused, distinct_gain, distinct_gains, greedy_distinct, lemma_len_disjoint_union,
    lemma_len_minus, lemma_num_unused_update, lemma_scan_best_props, opt_prepend,
    scan_best,
};
use crate::dense::seqs_of;

verus! {

broadcast use vstd::set::group_set_axioms;

/// Number of 64-bit words that hold a universe of `n` elements.
pub open spec fn word_count(n: nat) -> nat {
    (n + 63) / 64
}

/// Whether bit `b` of the word is raised.
pub open spec fn word_bit(w: u64, b: int) -> bool {
    (w >> (b as u64)) & 1 == 1
}

/// Whether the packed words hold element `e`: bit `e % 64` of word `e / 64`.
pub open spec fn has_bit(bits: Seq<u64>, e: int) -> bool {
    0 <= e < bits.len() * 64 && word_bit(bits[e / 64], e % 64)
}

/// The set of elements of the universe `0..n` that a bitset holds.
pub open spec fn bits_elems(bits: Seq<u64>, n: nat) -> Set<int> {
    Set::new(|e: int| 0 <= e < n && has_bit(bits, e))
}

/// No raised bit at or beyond `n`: the invariant every producer of an
/// uncovered bitset upholds, since a stray trailing bit would corrupt
/// the population counts.
pub open spec fn masked(bits: Seq<u64>, n: nat) -> bool {
    forall|e: int| n <= e < bits.len() * 64 ==> !has_bit(bits, e)
}

/// Number of raised bits of `w` below position `k`.
pub open spec fn count_bits(w: u64, k: int) -> nat
    decreases k,
{
    if k <= 0 {
        0
    } else {
        count_bits(w, k - 1) + if word_bit(w, k - 1) {
            1nat
        } else {
            0nat
        }
    }
}

/// The elements of `s` lying in `base..base + k`.
pub open spec fn chunk(s: Set<int>, base: int, k: int) -> Set<int> {
    Set::new(|e: int| s.contains(e) && base <= e < base + k)
}

/// The elements of `s` below `hi`.
pub open spec fn below(s: Set<int>, hi: int) -> Set<int> {
    Set::new(|e: int| s.contains(e) && e < hi)
}

proof fn lemma_bit_and(x: u64, y: u64, bu: u64)
    requires
        bu < 64,
    ensures
        (((x & y) >> bu) & 1 == 1) == (((x >> bu) & 1 == 1) && ((y >> bu) & 1 == 1)),
{
    assert((((x & y) >> bu) & 1 == 1) == (((x >> bu) & 1 == 1) && ((y >> bu) & 1 == 1)))
        by (bit_vector)
        requires
            bu < 64,
    ;
}

proof fn lemma_bit_andnot(x: u64, y: u64, bu: u64)
    requires
        bu < 64,
    ensures
        (((x & !y) >> bu) & 1 == 1) == (((x >> bu) & 1 == 1) && !((y >> bu) & 1 == 1)),
{
    assert((((x & !y) >> bu) & 1 == 1) == (((x >> bu) & 1 == 1) && !((y >> bu) & 1 == 1)))
        by (bit_vector)
        requires
            bu < 64,
    ;
}

proof fn lemma_bit_or_one(w: u64, bb: u64, bu: u64)
    requires
        bb < 64,
        bu < 64,
    ensures
        (((w | (1u64 << bb)) >> bu) & 1 == 1) == (bu == bb || ((w >> bu) & 1 == 1)),
{
    assert((((w | (1u64 << bb)) >> bu) & 1 == 1) == (bu == bb || ((w >> bu) & 1 == 1)))
        by (bit_vector)
        requires
            bb < 64 && bu < 64,
    ;
}

proof fn lemma_mask_bit(r: u64, bu: u64)
    requires
        0 < r < 64,
        bu < 64,
    ensures
        ((((!0u64) >> ((64 - r) as u64)) >> bu) & 1 == 1) == (bu < r),
{
    assert(((((!0u64) >> ((64 - r) as u64)) >> bu) & 1 == 1) == (bu < r))
        by (bit_vector)
        requires
            0 < r < 64 && bu < 64,
    ;
}

proof fn lemma_ones_bit(bu: u64)
    requires
        bu < 64,
    ensures
        ((!0u64) >> bu) & 1 == 1,
{
    assert(((!0u64) >> bu) & 1 == 1)
        by (bit_vector)
        requires
            bu < 64,
    ;
}

/// The element `64 * wi + b` sits at bit `b` of word `wi`.
proof fn lemma_word_pos(wi: int, b: int)
    requires
        wi >= 0,
        0 <= b < 64,
    ensures
        (64 * wi + b) / 64 == wi,
        (64 * wi + b) % 64 == b,
{
    assert((64 * wi + b) / 64 == wi && (64 * wi + b) % 64 == b) by (nonlinear_arith)
        requires
            wi >= 0 && 0 <= b < 64,
    ;
}

/// Counting the raised bits of one word as elements of `s`.
proof fn lemma_chunk_count(s: Set<int>, w: u64, base: int, k: int)
    requires
        0 <= k <= 64,
        forall|b: int| 0 <= b < 64 ==> (#[trigger] word_bit(w, b) <==> s.contains(base + b)),
    ensures
        chunk(s, base, k).finite(),
        chunk(s, base, k).len() == count_bits(w, k),
    decreases k,
{
    if k == 0 {
        assert(chunk(s, base, 0) =~= Set::<int>::empty());
    } else {
        lemma_chunk_count(s, w, base, k - 1);
        if word_bit(w, k - 1) {
            assert(s.contains(base + (k - 1)));
            assert(chunk(s, base, k) =~= chunk(s, base, k - 1).insert(base + (k - 1)));
            assert(!chunk(s, base, k - 1).contains(base + (k - 1)));
        } else {
            assert(chunk(s, base, k) =~= chunk(s, base, k - 1));
        }
    }
}

/// One word's worth of elements extends a `below` prefix.
proof fn lemma_below_extend(s: Set<int>, hi: int)
    requires
        hi >= 0,
        below(s, hi).finite(),
        chunk(s, hi, 64).finite(),
    ensures
        below(s, hi + 64).finite(),
        below(s, hi + 64).len() == below(s, hi).len() + chunk(s, hi, 64).len(),
{
    assert(below(s, hi).disjoint(chunk(s, hi, 64)));
    lemma_len_disjoint_union(below(s, hi), chunk(s, hi, 64));
    assert(below(s, hi).union(chunk(s, hi, 64)) =~= below(s, hi + 64));
}

/// Population count of one word, by testing each of its 64 bits.
fn popcount(x: u64) -> (c: u64)
    ensures
        c == count_bits(x, 64),
        c <= 64,
{
    let mut c: u64 = 0;
    let mut b: u64 = 0;
    while b < 64
        invariant
            b <= 64,
            c <= b,
            c == count_bits(x, b as int),
        decreases 64 - b,
    {
        if (x >> b) & 1 == 1 {
            c = c + 1;
        }
        b = b + 1;
    }
    c
}

/// A vector of `len` zeroed words.
fn make_words(len: usize) -> (v: Vec<u64>)
    ensures
        v@.len() == len,
        forall|i: int| 0 <= i < len ==> v@[i] == 0u64,
{
    let mut v: Vec<u64> = Vec::new();
    while v.len() < len
        invariant
            v@.len() <= len,
            forall|i: int| 0 <= i < v@.len() ==> v@[i] == 0u64,
        decreases len - v@.len(),
    {
        v.push(0u64);
    }
    v
}

/// How many words a universe of `universe_size` elements needs.
fn num_words(universe_size: usize) -> (w: usize)
    ensures
        w == word_count(universe_size as nat),
        64 * w < universe_size + 64,
        universe_size <= 64 * w,
{
    let q = universe_size / 64;
    let r = universe_size % 64;
    if r == 0 {
        q
    } else {
        q + 1
    }
}

/// Packs the listed elements into a bitset over the universe
/// `0..universe_size`; elements at or beyond `universe_size` are ignored.
pub fn make_bitset(universe_size: usize, elements: &Vec<usize>) -> (bits: Vec<u64>)
    ensures
        bits@.len() == word_count(universe_size as nat),
        masked(bits@, universe_size as nat),
        forall|x: int|
            #[trigger] has_bit(bits@, x) <==> (0 <= x < universe_size && exists|k: int|
                0 <= k < elements@.len() && #[trigger] elements@[k] == x),
{
    let words = num_words(universe_size);
    let mut bits = make_words(words);
    proof {
        assert forall|x: int| !(#[trigger] has_bit(bits@, x)) by {
            if 0 <= x < bits@.len() * 64 {
                let bu = (x % 64) as u64;
                assert((0u64 >> bu) & 1 == 0) by (bit_vector);
            }
        }
    }
    let mut j: usize = 0;
    while j < elements.len()
        invariant
            words == word_count(universe_size as nat),
            64 * words < universe_size + 64,
            universe_size <= 64 * words,
            bits@.len() == words,
            j <= elements@.len(),
            forall|x: int|
                #[trigger] has_bit(bits@, x) <==> (0 <= x < universe_size && exists|k: int|
                    0 <= k < j && #[trigger] elements@[k] == x),
        decreases elements@.len() - j,
    {
        let e = elements[j];
        if e < universe_size {
            let w = e / 64;
            let b = e % 64;
            proof {
                assert(64 * w + b == e);
                assert(w < words);
            }
            let ghost old_bits = bits@;
            let cur = bits[w];
            bits[w] = cur | (1u64 << (b as u64));
            proof {
                assert forall|x: int| #[trigger] has_bit(bits@, x) <==> (has_bit(old_bits, x) || x
                    == e) by {
                    if 0 <= x < bits@.len() * 64 {
                        let xw = x / 64;
                        let xb = x % 64;
                        assert(0 <= xb < 64 && 0 <= xw < bits@.len());
                        if xw == w as int {
                            lemma_bit_or_one(cur, b as u64, xb as u64);
                            lemma_word_pos(w as int, b as int);
                            assert(64 * xw + xb == x);
                        } else {
                            assert(bits@[xw] == old_bits[xw]);
                        }
                    }
                }
            }
        } else {
            proof {
                assert(forall|x: int|
                    #[trigger] has_bit(bits@, x) <==> (0 <= x < universe_size && exists|k: int|
                        0 <= k < j + 1 && #[trigger] elements@[k] == x));
            }
        }
        j = j + 1;
    }
    bits
}

/// The all-ones uncovered bitset, with the excess high bits of the last
/// word forced to zero so that population counts stay truthful.
fn make_uncovered(universe_size: usize) -> (bits: Vec<u64>)
    requires
        universe_size > 0,
    ensures
        bits@.len() == word_count(universe_size as nat),
        masked(bits@, universe_size as nat),
        forall|x: int| #[trigger] has_bit(bits@, x) <==> 0 <= x < universe_size,
{
    let words = num_words(universe_size);
    let mut bits: Vec<u64> = Vec::new();
    while bits.len() < words
        invariant
            bits@.len() <= words,
            forall|i: int| 0 <= i < bits@.len() ==> bits@[i] == !0u64,
        decreases words - bits@.len(),
    {
        bits.push(!0u64);
    }
    let r = universe_size % 64;
    if r > 0 {
        let last = words - 1;
        let mask = (!0u64) >> ((64 - r) as u64);
        let cur = bits[last];
        proof {
            assert(cur == !0u64);
        }
        bits[last] = cur & mask;
        proof {
            assert((!0u64) & mask == mask) by (bit_vector);
        }
    }
    proof {
        let n = universe_size as int;
        let w = words as int;
        assert(n == 64 * (w - 1) + (if r == 0 { 64int } else { r as int }));
        assert forall|x: int| #[trigger] has_bit(bits@, x) <==> 0 <= x < n by {
            if 0 <= x < w * 64 {
                let xw = x / 64;
                let xb = x % 64;
                assert(0 <= xb < 64 && 0 <= xw < w);
                if r > 0 && xw == w - 1 {
                    lemma_mask_bit(r as u64, xb as u64);
                    assert(bits@[xw] == (!0u64) >> ((64 - r) as u64));
                    assert(word_bit(bits@[xw], xb) == (xb < r as int));
                    assert(64 * xw + xb == x);
                    assert((x < n) == (xb < r as int));
                } else {
                    assert(bits@[xw] == !0u64);
                    lemma_ones_bit(xb as u64);
                    assert(word_bit(bits@[xw], xb));
                    assert(64 * xw + xb == x);
                    assert(x < n);
                }
            }
        }
    }
    bits
}

/// The population count of `set_word & uncovered_word`, summed across the
/// words: the number of distinct still-uncovered elements the set holds.
fn coverage_gain(universe_size: usize, set_bits: &Vec<u64>, uncovered: &Vec<u64>) -> (g: usize)
    requires
        set_bits@.len() == word_count(universe_size as nat),
        uncovered@.len() == word_count(universe_size as nat),
        masked(uncovered@, universe_size as nat),
    ensures
        g == distinct_gain(
            bits_elems(set_bits@, universe_size as nat),
            bits_elems(uncovered@, universe_size as nat),
        ),
{
    let n = universe_size;
    let ghost inter = bits_elems(set_bits@, n as nat).intersect(bits_elems(uncovered@, n as nat));
    proof {
        lemma_int_range(0, n as int);
        lemma_len_subset(inter, set_int_range(0, n as int));
        assert(below(inter, 0) =~= Set::<int>::empty());
    }
    let words = set_bits.len();
    let mut g: usize = 0;
    let mut wi: usize = 0;
    while wi < words
        invariant
            words == set_bits@.len(),
            set_bits@.len() == word_count(n as nat),
            uncovered@.len() == word_count(n as nat),
            masked(uncovered@, n as nat),
            inter == bits_elems(set_bits@, n as nat).intersect(bits_elems(uncovered@, n as nat)),
            inter.finite(),
            inter.len() <= n,
            wi <= words,
            below(inter, 64 * wi).finite(),
            g == below(inter, 64 * wi).len(),
            g <= inter.len(),
        decreases words - wi,
    {
        let and_word = set_bits[wi] & uncovered[wi];
        let c = popcount(and_word);
        proof {
            let base = 64 * (wi as int);
            assert forall|b: int| 0 <= b < 64 implies (#[trigger] word_bit(and_word, b)
                <==> inter.contains(base + b)) by {
                lemma_bit_and(set_bits@[wi as int], uncovered@[wi as int], b as u64);
                lemma_word_pos(wi as int, b);
                let x = base + b;
                assert(x / 64 == wi as int && x % 64 == b);
                if x >= n {
                    assert(!has_bit(uncovered@, x));
                }
            }
            lemma_chunk_count(inter, and_word, base, 64);
            lemma_below_extend(inter, base);
            lemma_len_subset(below(inter, base + 64), inter);
        }
        g = g + (c as usize);
        wi = wi + 1;
    }
    proof {
        assert(below(inter, 64 * (words as int)) =~= inter);
    }
    g
}

/// What the bitset strategy computes: the distinct-element-scored greedy
/// cover over the sets the bitsets denote.
pub open spec fn bitset_cover(universe_size: nat, sets_bits: Seq<Seq<u64>>) -> Option<Seq<int>> {
    greedy_distinct(
        sets_bits.map_values(|b: Seq<u64>| bits_elems(b, universe_size)),
        set_int_range(0, universe_size as int),
        all_unused(sets_bits.len()),
    )
}

/// Greedy set cover over packed bitsets: `sets_bits[i]` is the bitset of
/// candidate set `i` over the universe `0..universe_size`. Returns the
/// chosen indices in selection order, or `None` when no cover exists; the
/// result is exactly the distinct-element greedy recursion of the model.
pub fn greedy_set_cover_bitset(universe_size: usize, sets_bits: &Vec<Vec<u64>>) -> (r: Option<
    Vec<usize>,
>)
    requires
        forall|i: int|
            0 <= i < sets_bits@.len() ==> (#[trigger] sets_bits@[i]@.len()) == word_count(
                universe_size as nat,
            ),
    ensures
        ({
            let spec_r = bitset_cover(universe_size as nat, seqs_of(sets_bits@));
            match r {
                Some(v) => spec_r == Some(v@.map_values(|x: usize| x as int)),
                None => spec_r == None::<Seq<int>>,
            }
        }),
{
    let ghost gsets = seqs_of(sets_bits@);
    let ghost bsets = gsets.map_values(|b: Seq<u64>| bits_elems(b, universe_size as nat));
    let ghost u0 = set_int_range(0, universe_size as int);
    let m = sets_bits.len();
    proof {
        lemma_int_range(0, universe_size as int);
    }
    if universe_size == 0 {
        proof {
            assert(u0 =~= Set::<int>::empty());
            assert(Seq::<usize>::empty().map_values(|x: usize| x as int) =~= Seq::<int>::empty());
        }
        return Some(Vec::new());
    }
    let mut uncovered = make_uncovered(universe_size);
    let mut used = crate::dense::make_flags(m, false);
    let mut remaining: usize = universe_size;
    let mut chosen: Vec<usize> = Vec::new();
    proof {
        assert(bits_elems(uncovered@, universe_size as nat) =~= u0);
        assert(bits_elems(uncovered@, universe_size as nat).finite());
        assert(used@ =~= all_unused(m as nat));
        assert(chosen@.map_values(|x: usize| x as int) =~= Seq::<int>::empty());
        assert(Seq::<int>::empty() + greedy_distinct(bsets, u0, used@).unwrap()
            =~= greedy_distinct(bsets, u0, used@).unwrap());
    }
    while remaining > 0
        invariant
            m == sets_bits@.len(),
            gsets == seqs_of(sets_bits@),
            bsets == gsets.map_values(|b: Seq<u64>| bits_elems(b, universe_size as nat)),
            forall|i: int|
                0 <= i < sets_bits@.len() ==> (#[trigger] sets_bits@[i]@.len()) == word_count(
                    universe_size as nat,
                ),
            u0 == set_int_range(0, universe_size as int),
            uncovered@.len() == word_count(universe_size as nat),
            masked(uncovered@, universe_size as nat),
            used@.len() == m,
            bits_elems(uncovered@, universe_size as nat).finite(),
            remaining == bits_elems(uncovered@, universe_size as nat).len(),
            forall|k: int| 0 <= k < chosen@.len() ==> chosen@[k] < m,
            opt_prepend(
                chosen@.map_values(|x: usize| x as int),
                greedy_distinct(bsets, bits_elems(uncovered@, universe_size as nat), used@),
            ) == greedy_distinct(bsets, u0, all_unused(m as nat)),
        decreases remaining,
    {
        let ghost ucur = bits_elems(uncovered@, universe_size as nat);
        let ghost gains = distinct_gains(bsets, ucur);
        let mut best_idx: Option<usize> = None;
        let mut best_gain: usize = 0;
        let mut i: usize = 0;
        while i < m
            invariant
                i <= m,
                m == sets_bits@.len(),
                gsets == seqs_of(sets_bits@),
                bsets == gsets.map_values(|b: Seq<u64>| bits_elems(b, universe_size as nat)),
                forall|ii: int|
                    0 <= ii < sets_bits@.len() ==> (#[trigger] sets_bits@[ii]@.len()) == word_count(
                        universe_size as nat,
                    ),
                uncovered@.len() == word_count(universe_size as nat),
                masked(uncovered@, universe_size as nat),
                used@.len() == m,
                ucur == bits_elems(uncovered@, universe_size as nat),
                gains == distinct_gains(bsets, ucur),
                match best_idx {
                    Some(b) => b < m && best_gain > 0,
                    None => best_gain == 0,
                },
                scan_best(
                    gains,
                    used@,
                    i as int,
                    match best_idx {
                        Some(b) => b as int,
                        None => 0,
                    },
                    best_gain as nat,
                ) == scan_best(gains, used@, 0, 0, 0),
            decreases m - i,
        {
            if !used[i] {
                let gain = coverage_gain(universe_size, &sets_bits[i], &uncovered);
                proof {
                    assert(gain == gains[i as int]);
                }
                if gain > best_gain {
                    best_gain = gain;
                    best_idx = Some(i);
                }
            }
            i = i + 1;
        }
        let ghost bi_spec: int = match best_idx {
            Some(b) => b as int,
            None => 0,
        };
        proof {
            assert(scan_best(gains, used@, m as int, bi_spec, best_gain as nat) == (
                bi_spec,
                best_gain as nat,
            ));
            assert(ucur.len() > 0);
            assert(!(ucur =~= Set::<int>::empty()));
        }
        if best_gain > 0 {
            let idx = match best_idx {
                Some(b) => b,
                None => 0,
            };
            let ghost used_pre = used@;
            let ghost upre = ucur;
            let ghost inter = bsets[idx as int].intersect(upre);
            let ghost unew = upre.difference(bsets[idx as int]);
            proof {
                assert(idx == bi_spec);
                lemma_scan_best_props(gains, used@, 0, 0, 0);
                assert(!used@[idx as int] && gains[idx as int] == best_gain);
                lemma_num_unused_update(used@, idx as int);
                assert(inter.len() == best_gain);
                lemma_len_subset(inter, upre);
                let w = inter.choose();
                assert(inter.contains(w));
                assert(unew.subset_of(upre.remove(w)));
                lemma_len_subset(unew, upre.remove(w));
                assert(unew.len() < upre.len());
                lemma_len_minus(upre, inter);
                assert(unew =~= upre.difference(inter));
                assert(unew.len() == upre.len() - inter.len());
                assert(greedy_distinct(bsets, ucur, used_pre) == match greedy_distinct(
                    bsets,
                    unew,
                    used_pre.update(idx as int, true),
                ) {
                    Some(rest) => Some(seq![idx as int] + rest),
                    None => None,
                });
            }
            used[idx] = true;
            let ghost chosen_pre = chosen@.map_values(|x: usize| x as int);
            chosen.push(idx);
            proof {
                assert(chosen@.map_values(|x: usize| x as int) =~= chosen_pre.push(idx as int));
                if greedy_distinct(bsets, unew, used@) is Some {
                    let rest = greedy_distinct(bsets, unew, used@).unwrap();
                    assert(chosen_pre.push(idx as int) + rest =~= chosen_pre + (seq![idx as int]
                        + rest));
                }
            }
            let s = &sets_bits[idx];
            let words = uncovered.len();
            let mut wi: usize = 0;
            proof {
                assert(below(inter, 0) =~= Set::<int>::empty());
            }
            while wi < words
                invariant
                    idx < m,
                    wi <= words,
                    m == sets_bits@.len(),
                    gsets == seqs_of(sets_bits@),
                    bsets == gsets.map_values(|b: Seq<u64>| bits_elems(b, universe_size as nat)),
                    s@ == sets_bits@[idx as int]@,
                    s@.len() == word_count(universe_size as nat),
                    words == word_count(universe_size as nat),
                    uncovered@.len() == words,
                    masked(uncovered@, universe_size as nat),
                    inter == bsets[idx as int].intersect(upre),
                    inter.finite(),
                    upre.finite(),
                    remaining == upre.len() - below(inter, 64 * wi).len(),
                    below(inter, 64 * wi).finite(),
                    below(inter, 64 * wi).len() <= inter.len(),
                    inter.len() <= upre.len(),
                    forall|x: int|
                        0 <= x < universe_size ==> (#[trigger] has_bit(uncovered@, x) <==> {
                            if x < 64 * wi {
                                upre.contains(x) && !bsets[idx as int].contains(x)
                            } else {
                                upre.contains(x)
                            }
                        }),
                decreases words - wi,
            {
                let uw = uncovered[wi];
                let sw = s[wi];
                let newly = uw & sw;
                let c = popcount(newly);
                let ghost ubits_old = uncovered@;
                proof {
                    let base = 64 * (wi as int);
                    assert forall|b: int| 0 <= b < 64 implies (#[trigger] word_bit(newly, b)
                        <==> chunk(inter, base, 64).contains(base + b)) by {
                        lemma_bit_and(uw, sw, b as u64);
                        lemma_word_pos(wi as int, b);
                        let x = base + b;
                        assert(x / 64 == wi as int && x % 64 == b);
                        assert(0 <= x < uncovered@.len() * 64);
                        assert(has_bit(uncovered@, x) == word_bit(uw, b));
                        assert(has_bit(s@, x) == word_bit(sw, b));
                        if x >= universe_size {
                            assert(!has_bit(uncovered@, x));
                        } else {
                            assert(has_bit(uncovered@, x) == upre.contains(x));
                            assert(bsets[idx as int].contains(x) == has_bit(s@, x));
                        }
                    }
                    lemma_chunk_count(chunk(inter, base, 64), newly, base, 64);
                    assert(chunk(chunk(inter, base, 64), base, 64) =~= chunk(inter, base, 64));
                    lemma_below_extend(inter, base);
                }
                proof {
                    lemma_len_subset(below(inter, 64 * (wi as int) + 64), inter);
                }
                if c > 0 {
                    remaining = remaining - (c as usize);
                }
                uncovered[wi] = uw & !sw;
                proof {
                    let base = 64 * (wi as int);
                    assert forall|x: int| 0 <= x < universe_size implies (#[trigger] has_bit(
                        uncovered@,
                        x,
                    ) <==> {
                        if x < base + 64 {
                            upre.contains(x) && !bsets[idx as int].contains(x)
                        } else {
                            upre.contains(x)
                        }
                    }) by {
                        let xw = x / 64;
                        let xb = x % 64;
                        assert(x == 64 * xw + xb);
                        assert(0 <= xb < 64 && 0 <= xw < words);
                        assert(0 <= x < uncovered@.len() * 64);
                        if xw == wi as int {
                            lemma_bit_andnot(uw, sw, xb as u64);
                            assert(base <= x < base + 64);
                            assert(uncovered@[xw] == uw & !sw);
                            assert(has_bit(uncovered@, x) == word_bit(uw & !sw, xb));
                            assert(has_bit(ubits_old, x) == word_bit(uw, xb));
                            assert(has_bit(ubits_old, x) == upre.contains(x));
                            assert(has_bit(s@, x) == word_bit(sw, xb));
                            assert(bsets[idx as int].contains(x) == has_bit(s@, x));
                        } else {
                            assert(uncovered@[xw] == ubits_old[xw]);
                            assert(has_bit(uncovered@, x) == has_bit(ubits_old, x));
                        }
                    }
                    assert forall|x: int|
                        universe_size <= x < uncovered@.len() * 64 implies !(#[trigger] has_bit(
                        uncovered@,
                        x,
                    )) by {
                        let xw = x / 64;
                        let xb = x % 64;
                        assert(x == 64 * xw + xb);
                        assert(0 <= xb < 64 && 0 <= xw < words);
                        assert(!has_bit(ubits_old, x));
                        if xw == wi as int {
                            lemma_bit_andnot(uw, sw, xb as u64);
                            assert(uncovered@[xw] == uw & !sw);
                            assert(has_bit(ubits_old, x) == word_bit(uw, xb));
                        } else {
                            assert(uncovered@[xw] == ubits_old[xw]);
                        }
                    }
                }
                wi = wi + 1;
            }
            proof {
                assert(below(inter, 64 * (words as int)) =~= inter);
                assert(bits_elems(uncovered@, universe_size as nat) =~= unew);
                assert(remaining == unew.len());
            }
        } else {
            proof {
                assert(greedy_distinct(bsets, ucur, used@) == None::<Seq<int>>);
            }
            return None;
        }
    }
    proof {
        bits_elems(uncovered@, universe_size as nat).lemma_len0_is_empty();
        assert(bits_elems(uncovered@, universe_size as nat) =~= Set::<int>::empty());
        assert(greedy_distinct(bsets, bits_elems(uncovered@, universe_size as nat), used@) == Some(
            Seq::<int>::empty(),
        ));
        assert(chosen@.map_values(|x: usize| x as int) + Seq::<int>::empty() =~= chosen@.map_values(
            |x: usize| x as int,
        ));
    }
    Some(chosen)
}

} // verus!
