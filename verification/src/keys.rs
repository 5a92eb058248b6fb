//! Set keys and the deterministic orders of the router: the canonical
//! candidate order (longer element lists first, then ascending key) and
//! the ascending key order of the final answer.
use vstd::prelude::*;
use vstd::relations::total_ordering;
use vstd::seq_lib::lemma_sorted_unique;
use vstd::relations::sorted_by;
use vstd::string::*;
use vstd::multiset::Multiset;

verus! {

broadcast use vstd::seq_lib::group_seq_properties, vstd::multiset::group_multiset_axioms;

/// A key naming one candidate set: an integer or a text label.
#[derive(Debug, PartialEq, Eq, Hash)]
pub enum SetKey {
    Int(i64),
    Text(String),
}

/// The mathematical value of a key: what the contracts speak about.
#[verifier::ext_equal]
pub enum KeyAbs {
    Int(int),
    Text(Seq<char>),
}

pub open spec fn key_abs(k: SetKey) -> KeyAbs {
    match k {
        SetKey::Int(x) => KeyAbs::Int(x as int),
        SetKey::Text(s) => KeyAbs::Text(s@),
    }
}

impl Clone for SetKey {
    /// Cloning preserves the key's value.
    fn clone(&self) -> (r: Self)
        ensures
            key_abs(r) == key_abs(*self),
    {
        match self {
            SetKey::Int(x) => SetKey::Int(*x),
            SetKey::Text(s) => SetKey::Text(s.clone()),
        }
    }
}

/// Characters reread as their scalar values.
pub open spec fn ints_of_chars(s: Seq<char>) -> Seq<int> {
    s.map_values(|c: char| c as int)
}

/// Elements reread as mathematical integers.
pub open spec fn ints_of_u64(s: Seq<u64>) -> Seq<int> {
    s.map_values(|x: u64| x as int)
}

/// Non-strict lexicographic order on integer sequences.
pub open spec fn lex_le(a: Seq<int>, b: Seq<int>) -> bool
    decreases a.len(),
{
    if a.len() == 0 {
        true
    } else if b.len() == 0 {
        false
    } else if a.first() == b.first() {
        lex_le(a.drop_first(), b.drop_first())
    } else {
        a.first() < b.first()
    }
}

pub proof fn lemma_lex_le_refl(a: Seq<int>)
    ensures
        lex_le(a, a),
    decreases a.len(),
{
    if a.len() > 0 {
        lemma_lex_le_refl(a.drop_first());
    }
}

pub proof fn lemma_lex_le_antisym(a: Seq<int>, b: Seq<int>)
    requires
        lex_le(a, b),
        lex_le(b, a),
    ensures
        a =~= b,
    decreases a.len(),
{
    if a.len() == 0 {
        assert(b.len() == 0);
    } else {
        assert(b.len() > 0);
        assert(a.first() == b.first());
        lemma_lex_le_antisym(a.drop_first(), b.drop_first());
        assert forall|i: int| 0 <= i < a.len() implies a[i] == b[i] by {
            if i > 0 {
                assert(a.drop_first()[i - 1] == a[i]);
                assert(b.drop_first()[i - 1] == b[i]);
            }
        };
    }
}

pub proof fn lemma_lex_le_trans(a: Seq<int>, b: Seq<int>, c: Seq<int>)
    requires
        lex_le(a, b),
        lex_le(b, c),
    ensures
        lex_le(a, c),
    decreases a.len(),
{
    if a.len() > 0 && b.len() > 0 && c.len() > 0 {
        if a.first() == b.first() && b.first() == c.first() {
            lemma_lex_le_trans(a.drop_first(), b.drop_first(), c.drop_first());
        }
    }
}

pub proof fn lemma_lex_le_connected(a: Seq<int>, b: Seq<int>)
    ensures
        lex_le(a, b) || lex_le(b, a),
    decreases a.len(),
{
    if a.len() > 0 && b.len() > 0 && a.first() == b.first() {
        lemma_lex_le_connected(a.drop_first(), b.drop_first());
    }
}

/// Ascending order on keys: every integer key before every text key,
/// integers by value, texts lexicographically by character scalar value
/// (on strings that is the order `str` values take in Rust).
pub open spec fn key_le(a: KeyAbs, b: KeyAbs) -> bool {
    match (a, b) {
        (KeyAbs::Int(x), KeyAbs::Int(y)) => x <= y,
        (KeyAbs::Int(_), KeyAbs::Text(_)) => true,
        (KeyAbs::Text(_), KeyAbs::Int(_)) => false,
        (KeyAbs::Text(s), KeyAbs::Text(t)) => lex_le(ints_of_chars(s), ints_of_chars(t)),
    }
}

/// Strict version of `key_le`.
pub open spec fn key_lt(a: KeyAbs, b: KeyAbs) -> bool {
    key_le(a, b) && a != b
}

/// `key_le` is reflexive, antisymmetric, transitive and total.
pub proof fn lemma_key_le_props(a: KeyAbs, b: KeyAbs, c: KeyAbs)
    ensures
        key_le(a, a),
        (key_le(a, b) && key_le(b, a)) ==> a == b,
        (key_le(a, b) && key_le(b, c)) ==> key_le(a, c),
        key_le(a, b) || key_le(b, a),
{
    match (a, b, c) {
        (KeyAbs::Text(s), KeyAbs::Text(t), KeyAbs::Text(u)) => {
            lemma_lex_le_refl(ints_of_chars(s));
            lemma_lex_le_connected(ints_of_chars(s), ints_of_chars(t));
            if lex_le(ints_of_chars(s), ints_of_chars(t)) && lex_le(
                ints_of_chars(t),
                ints_of_chars(s),
            ) {
                lemma_lex_le_antisym(ints_of_chars(s), ints_of_chars(t));
                assert forall|i: int| 0 <= i < s.len() implies s[i] == t[i] by {
                    assert(ints_of_chars(s)[i] == ints_of_chars(t)[i]);
                };
                assert(s =~= t);
            }
            if lex_le(ints_of_chars(s), ints_of_chars(t)) && lex_le(
                ints_of_chars(t),
                ints_of_chars(u),
            ) {
                lemma_lex_le_trans(ints_of_chars(s), ints_of_chars(t), ints_of_chars(u));
            }
        },
        (KeyAbs::Text(s), KeyAbs::Text(t), _) => {
            lemma_lex_le_refl(ints_of_chars(s));
            lemma_lex_le_connected(ints_of_chars(s), ints_of_chars(t));
            if lex_le(ints_of_chars(s), ints_of_chars(t)) && lex_le(
                ints_of_chars(t),
                ints_of_chars(s),
            ) {
                lemma_lex_le_antisym(ints_of_chars(s), ints_of_chars(t));
                assert forall|i: int| 0 <= i < s.len() implies s[i] == t[i] by {
                    assert(ints_of_chars(s)[i] == ints_of_chars(t)[i]);
                };
                assert(s =~= t);
            }
        },
        (KeyAbs::Text(s), _, _) => {
            lemma_lex_le_refl(ints_of_chars(s));
        },
        _ => {},
    }
}

/// One candidate entry, abstractly: its key and its element list.
#[verifier::ext_equal]
pub struct EntryAbs {
    pub key: KeyAbs,
    pub elems: Seq<u64>,
}

pub open spec fn entry_abs(e: (SetKey, Vec<u64>)) -> EntryAbs {
    EntryAbs { key: key_abs(e.0), elems: e.1@ }
}

pub open spec fn abs_entries(es: Seq<(SetKey, Vec<u64>)>) -> Seq<EntryAbs> {
    es.map_values(|e: (SetKey, Vec<u64>)| entry_abs(e))
}

/// The canonical candidate order: longer element lists first, equal
/// lengths by ascending key, and (so that the order is total on every
/// pair of entries, not only those with distinct keys) equal keys by the
/// element lists themselves.
pub open spec fn entry_le(a: EntryAbs, b: EntryAbs) -> bool {
    if a.elems.len() != b.elems.len() {
        a.elems.len() > b.elems.len()
    } else if a.key != b.key {
        key_lt(a.key, b.key)
    } else {
        lex_le(ints_of_u64(a.elems), ints_of_u64(b.elems))
    }
}

/// `entry_le` is reflexive, antisymmetric, transitive and total.
pub proof fn lemma_entry_le_props(a: EntryAbs, b: EntryAbs, c: EntryAbs)
    ensures
        entry_le(a, a),
        (entry_le(a, b) && entry_le(b, a)) ==> a == b,
        (entry_le(a, b) && entry_le(b, c)) ==> entry_le(a, c),
        entry_le(a, b) || entry_le(b, a),
{
    lemma_key_le_props(a.key, b.key, c.key);
    lemma_key_le_props(b.key, a.key, c.key);
    lemma_lex_le_refl(ints_of_u64(a.elems));
    lemma_lex_le_connected(ints_of_u64(a.elems), ints_of_u64(b.elems));
    if lex_le(ints_of_u64(a.elems), ints_of_u64(b.elems)) && lex_le(
        ints_of_u64(b.elems),
        ints_of_u64(a.elems),
    ) {
        lemma_lex_le_antisym(ints_of_u64(a.elems), ints_of_u64(b.elems));
        assert forall|i: int| 0 <= i < a.elems.len() implies a.elems[i] == b.elems[i] by {
            assert(ints_of_u64(a.elems)[i] == ints_of_u64(b.elems)[i]);
        };
        assert(a.elems =~= b.elems);
    }
    if lex_le(ints_of_u64(a.elems), ints_of_u64(b.elems)) && lex_le(
        ints_of_u64(b.elems),
        ints_of_u64(c.elems),
    ) {
        lemma_lex_le_trans(ints_of_u64(a.elems), ints_of_u64(b.elems), ints_of_u64(c.elems));
    }
    if entry_le(a, b) && entry_le(b, a) {
        assert(a.elems.len() == b.elems.len());
        assert(a.key == b.key);
        assert(a.elems == b.elems);
        assert(a =~= b);
    }
}

/// The candidate order as a relation value.
pub open spec fn entry_order() -> spec_fn(EntryAbs, EntryAbs) -> bool {
    |a: EntryAbs, b: EntryAbs| entry_le(a, b)
}

/// The key order as a relation value.
pub open spec fn key_order() -> spec_fn(KeyAbs, KeyAbs) -> bool {
    |a: KeyAbs, b: KeyAbs| key_le(a, b)
}

pub proof fn lemma_entry_order_total()
    ensures
        total_ordering(entry_order()),
{
    let r = entry_order();
    assert forall|x: EntryAbs| #[trigger] r(x, x) by {
        lemma_entry_le_props(x, x, x);
    };
    assert forall|x: EntryAbs, y: EntryAbs| #[trigger] r(x, y) && #[trigger] r(y, x) implies x
        == y by {
        lemma_entry_le_props(x, y, x);
    };
    assert forall|x: EntryAbs, y: EntryAbs, z: EntryAbs|
        #[trigger] r(x, y) && #[trigger] r(y, z) implies r(x, z) by {
        lemma_entry_le_props(x, y, z);
    };
    assert forall|x: EntryAbs, y: EntryAbs| !(#[trigger] r(x, y)) implies #[trigger] r(y, x) by {
        lemma_entry_le_props(x, y, x);
    };
}

pub proof fn lemma_key_order_total()
    ensures
        total_ordering(key_order()),
{
    let r = key_order();
    assert forall|x: KeyAbs| #[trigger] r(x, x) by {
        lemma_key_le_props(x, x, x);
    };
    assert forall|x: KeyAbs, y: KeyAbs| #[trigger] r(x, y) && #[trigger] r(y, x) implies x
        == y by {
        lemma_key_le_props(x, y, x);
    };
    assert forall|x: KeyAbs, y: KeyAbs, z: KeyAbs|
        #[trigger] r(x, y) && #[trigger] r(y, z) implies r(x, z) by {
        lemma_key_le_props(x, y, z);
    };
    assert forall|x: KeyAbs, y: KeyAbs| !(#[trigger] r(x, y)) implies #[trigger] r(y, x) by {
        lemma_key_le_props(x, y, x);
    };
}

/// Decides `lex_le` on the character scalars of two strings.
fn char_seq_le(a: &str, b: &str) -> (r: bool)
    ensures
        r == lex_le(ints_of_chars(a@), ints_of_chars(b@)),
{
    let la = a.unicode_len();
    let lb = b.unicode_len();
    let ghost ia = ints_of_chars(a@);
    let ghost ib = ints_of_chars(b@);
    let mut i: usize = 0;
    proof {
        assert(ia.skip(0) =~= ia);
        assert(ib.skip(0) =~= ib);
    }
    while i < la && i < lb
        invariant
            la == a@.len(),
            lb == b@.len(),
            ia == ints_of_chars(a@),
            ib == ints_of_chars(b@),
            i <= la,
            i <= lb,
            lex_le(ia, ib) == lex_le(ia.skip(i as int), ib.skip(i as int)),
        decreases la - i,
    {
        let ca = a.get_char(i);
        let cb = b.get_char(i);
        proof {
            assert(ia.skip(i as int).first() == ca as int);
            assert(ib.skip(i as int).first() == cb as int);
        }
        if ca != cb {
            proof {
                assert(ca as int != cb as int) by {
                    assert(ca as u32 != cb as u32);
                };
                assert(lex_le(ia.skip(i as int), ib.skip(i as int)) == ((ca as int) < (cb as int)));
            }
            return (ca as u32) < (cb as u32);
        }
        proof {
            assert(ia.skip(i as int).drop_first() =~= ia.skip(i as int + 1));
            assert(ib.skip(i as int).drop_first() =~= ib.skip(i as int + 1));
        }
        i = i + 1;
    }
    proof {
        if i == la {
            assert(ia.skip(la as int).len() == 0);
            assert(lex_le(ia.skip(i as int), ib.skip(i as int)));
        } else {
            assert(ib.skip(lb as int).len() == 0);
            assert(ia.skip(i as int).len() > 0);
            assert(!lex_le(ia.skip(i as int), ib.skip(i as int)));
        }
    }
    i == la
}

/// Decides `key_le` on two keys.
fn key_le_exec(a: &SetKey, b: &SetKey) -> (r: bool)
    ensures
        r == key_le(key_abs(*a), key_abs(*b)),
{
    match (a, b) {
        (SetKey::Int(x), SetKey::Int(y)) => *x <= *y,
        (SetKey::Int(_), SetKey::Text(_)) => true,
        (SetKey::Text(_), SetKey::Int(_)) => false,
        (SetKey::Text(s), SetKey::Text(t)) => char_seq_le(s.as_str(), t.as_str()),
    }
}

/// Decides `lex_le` on two element lists.
fn elems_lex_le(a: &Vec<u64>, b: &Vec<u64>) -> (r: bool)
    ensures
        r == lex_le(ints_of_u64(a@), ints_of_u64(b@)),
{
    let la = a.len();
    let lb = b.len();
    let ghost ia = ints_of_u64(a@);
    let ghost ib = ints_of_u64(b@);
    let mut i: usize = 0;
    proof {
        assert(ia.skip(0) =~= ia);
        assert(ib.skip(0) =~= ib);
    }
    while i < la && i < lb
        invariant
            la == a@.len(),
            lb == b@.len(),
            ia == ints_of_u64(a@),
            ib == ints_of_u64(b@),
            i <= la,
            i <= lb,
            lex_le(ia, ib) == lex_le(ia.skip(i as int), ib.skip(i as int)),
        decreases la - i,
    {
        let ea = a[i];
        let eb = b[i];
        proof {
            assert(ia.skip(i as int).first() == ea as int);
            assert(ib.skip(i as int).first() == eb as int);
        }
        if ea != eb {
            proof {
                assert(lex_le(ia.skip(i as int), ib.skip(i as int)) == ((ea as int) < (eb as int)));
            }
            return ea < eb;
        }
        proof {
            assert(ia.skip(i as int).drop_first() =~= ia.skip(i as int + 1));
            assert(ib.skip(i as int).drop_first() =~= ib.skip(i as int + 1));
        }
        i = i + 1;
    }
    proof {
        if i == la {
            assert(ia.skip(la as int).len() == 0);
            assert(lex_le(ia.skip(i as int), ib.skip(i as int)));
        } else {
            assert(ib.skip(lb as int).len() == 0);
            assert(ia.skip(i as int).len() > 0);
            assert(!lex_le(ia.skip(i as int), ib.skip(i as int)));
        }
    }
    i == la
}

/// Decides `entry_le` on two entries.
fn entry_le_exec(a: &(SetKey, Vec<u64>), b: &(SetKey, Vec<u64>)) -> (r: bool)
    ensures
        r == entry_le(entry_abs(*a), entry_abs(*b)),
{
    if a.1.len() != b.1.len() {
        return a.1.len() > b.1.len();
    }
    let ab = key_le_exec(&a.0, &b.0);
    let ba = key_le_exec(&b.0, &a.0);
    proof {
        lemma_key_le_props(key_abs(a.0), key_abs(b.0), key_abs(a.0));
    }
    if ab && ba {
        elems_lex_le(&a.1, &b.1)
    } else {
        ab
    }
}

/// Sorts the entries into the canonical candidate order. The order is
/// total and antisymmetric, so the sorted sequence is the unique one:
/// determinism of the whole pipeline rests on this.
pub fn sort_entries(entries: Vec<(SetKey, Vec<u64>)>) -> (out: Vec<(SetKey, Vec<u64>)>)
    ensures
        abs_entries(out@) == abs_entries(entries@).sort_by(entry_order()),
{
    let ghost goal = abs_entries(entries@);
    let mut input = entries;
    let mut out: Vec<(SetKey, Vec<u64>)> = Vec::new();
    proof {
        assert(abs_entries(out@) =~= Seq::<EntryAbs>::empty());
        assert(abs_entries(out@).to_multiset().add(abs_entries(input@).to_multiset())
            =~= goal.to_multiset());
    }
    while input.len() > 0
        invariant
            sorted_by(abs_entries(out@), entry_order()),
            abs_entries(out@).to_multiset().add(abs_entries(input@).to_multiset())
                == goal.to_multiset(),
        decreases input@.len(),
    {
        let ghost in_pre = abs_entries(input@);
        let x = match input.pop() {
            Some(v) => v,
            None => (SetKey::Int(0), Vec::new()),
        };
        proof {
            assert(abs_entries(input@).push(entry_abs(x)) =~= in_pre);
            assert(in_pre.to_multiset() =~= abs_entries(input@).to_multiset().insert(
                entry_abs(x),
            ));
        }
        let mut pos: usize = 0;
        while pos < out.len() && entry_le_exec(&out[pos], &x)
            invariant
                pos <= out@.len(),
                forall|k: int|
                    0 <= k < pos ==> entry_le(#[trigger] abs_entries(out@)[k], entry_abs(x)),
            decreases out@.len() - pos,
        {
            pos = pos + 1;
        }
        let ghost out_pre = abs_entries(out@);
        proof {
            if pos < out@.len() {
                lemma_entry_le_props(entry_abs(out@[pos as int]), entry_abs(x), entry_abs(x));
                assert(entry_le(entry_abs(x), out_pre[pos as int]));
            }
        }
        out.insert(pos, x);
        proof {
            assert(abs_entries(out@) =~= out_pre.insert(pos as int, entry_abs(x)));
            vstd::seq_lib::to_multiset_insert(out_pre, pos as int, entry_abs(x));
            assert forall|i: int, j: int| 0 <= i < j < abs_entries(out@).len() implies #[trigger]
                entry_order()(abs_entries(out@)[i], abs_entries(out@)[j]) by {
                let s = abs_entries(out@);
                let p = pos as int;
                if i < p && j == p {
                    assert(s[i] == out_pre[i]);
                    assert(entry_le(out_pre[i], entry_abs(x)));
                } else if i == p {
                    assert(s[j] == out_pre[j - 1]);
                    if j - 1 > p - 1 && p < out_pre.len() {
                        lemma_entry_le_props(entry_abs(x), out_pre[p], out_pre[j - 1]);
                        assert(entry_order()(out_pre[p], out_pre[j - 1]) || p == j - 1);
                        assert(entry_le(entry_abs(x), out_pre[j - 1]));
                    }
                } else if i < p && j > p {
                    assert(s[i] == out_pre[i]);
                    assert(s[j] == out_pre[j - 1]);
                    assert(entry_order()(out_pre[i], out_pre[j - 1]) || i == j - 1);
                } else if i > p {
                    assert(s[i] == out_pre[i - 1]);
                    assert(s[j] == out_pre[j - 1]);
                } else {
                    assert(s[i] == out_pre[i]);
                    assert(s[j] == out_pre[j]);
                }
            };
        }
    }
    proof {
        assert(abs_entries(input@) =~= Seq::<EntryAbs>::empty());
        assert(abs_entries(input@).to_multiset() =~= Multiset::<EntryAbs>::empty());
        assert(abs_entries(out@).to_multiset() =~= goal.to_multiset());
        lemma_entry_order_total();
        goal.lemma_sort_by_ensures(entry_order());
        lemma_sorted_unique(abs_entries(out@), goal.sort_by(entry_order()), entry_order());
    }
    out
}

/// The keys of a sequence of keys, abstractly.
pub open spec fn abs_keys(ks: Seq<SetKey>) -> Seq<KeyAbs> {
    ks.map_values(|k: SetKey| key_abs(k))
}

/// Sorts keys ascending: the final ordering of every returned cover.
pub fn sort_keys(keys: Vec<SetKey>) -> (out: Vec<SetKey>)
    ensures
        abs_keys(out@) == abs_keys(keys@).sort_by(key_order()),
{
    let ghost goal = abs_keys(keys@);
    let mut input = keys;
    let mut out: Vec<SetKey> = Vec::new();
    proof {
        assert(abs_keys(out@) =~= Seq::<KeyAbs>::empty());
        assert(abs_keys(out@).to_multiset().add(abs_keys(input@).to_multiset())
            =~= goal.to_multiset());
    }
    while input.len() > 0
        invariant
            sorted_by(abs_keys(out@), key_order()),
            abs_keys(out@).to_multiset().add(abs_keys(input@).to_multiset()) == goal.to_multiset(),
        decreases input@.len(),
    {
        let ghost in_pre = abs_keys(input@);
        let x = match input.pop() {
            Some(v) => v,
            None => SetKey::Int(0),
        };
        proof {
            assert(abs_keys(input@).push(key_abs(x)) =~= in_pre);
            assert(in_pre.to_multiset() =~= abs_keys(input@).to_multiset().insert(key_abs(x)));
        }
        let mut pos: usize = 0;
        while pos < out.len() && key_le_exec(&out[pos], &x)
            invariant
                pos <= out@.len(),
                forall|k: int| 0 <= k < pos ==> key_le(#[trigger] abs_keys(out@)[k], key_abs(x)),
            decreases out@.len() - pos,
        {
            pos = pos + 1;
        }
        let ghost out_pre = abs_keys(out@);
        proof {
            if pos < out@.len() {
                lemma_key_le_props(key_abs(out@[pos as int]), key_abs(x), key_abs(x));
                assert(key_le(key_abs(x), out_pre[pos as int]));
            }
        }
        out.insert(pos, x);
        proof {
            assert(abs_keys(out@) =~= out_pre.insert(pos as int, key_abs(x)));
            vstd::seq_lib::to_multiset_insert(out_pre, pos as int, key_abs(x));
            assert forall|i: int, j: int| 0 <= i < j < abs_keys(out@).len() implies #[trigger]
                key_order()(abs_keys(out@)[i], abs_keys(out@)[j]) by {
                let s = abs_keys(out@);
                let p = pos as int;
                if i < p && j == p {
                    assert(s[i] == out_pre[i]);
                    assert(key_le(out_pre[i], key_abs(x)));
                } else if i == p {
                    assert(s[j] == out_pre[j - 1]);
                    if j - 1 > p - 1 && p < out_pre.len() {
                        lemma_key_le_props(key_abs(x), out_pre[p], out_pre[j - 1]);
                        assert(key_order()(out_pre[p], out_pre[j - 1]) || p == j - 1);
                        assert(key_le(key_abs(x), out_pre[j - 1]));
                    }
                } else if i < p && j > p {
                    assert(s[i] == out_pre[i]);
                    assert(s[j] == out_pre[j - 1]);
                    assert(key_order()(out_pre[i], out_pre[j - 1]) || i == j - 1);
                } else if i > p {
                    assert(s[i] == out_pre[i - 1]);
                    assert(s[j] == out_pre[j - 1]);
                } else {
                    assert(s[i] == out_pre[i]);
                    assert(s[j] == out_pre[j]);
                }
            };
        }
    }
    proof {
        assert(abs_keys(input@) =~= Seq::<KeyAbs>::empty());
        assert(abs_keys(input@).to_multiset() =~= Multiset::<KeyAbs>::empty());
        assert(abs_keys(out@).to_multiset() =~= goal.to_multiset());
        lemma_key_order_total();
        goal.lemma_sort_by_ensures(key_order());
        lemma_sorted_unique(abs_keys(out@), goal.sort_by(key_order()), key_order());
    }
    out
}

} // verus!
