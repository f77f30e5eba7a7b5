//! The Bencode value model: the executable tree type, its mathematical
//! shape, and the ordering/lookup theory for dictionaries.

use vstd::prelude::*;

verus! {

broadcast use vstd::seq::group_seq_axioms, vstd::std_specs::vec::group_vec_axioms;

/// A decoded Bencode node: byte string, signed integer, list, or dictionary.
///
/// A dictionary is a vector of `(key, value)` pairs.  Throughout the crate a
/// well-formed dictionary (see [`wf`]) keeps its keys unique, valid UTF-8 and
/// strictly ascending in byte order, so that the canonical encoder can walk
/// it directly; the decoder maintains this by sorted insertion, with a later
/// duplicate key replacing an earlier one (last write wins).
pub enum Benc {
    S(Vec<u8>),
    I(i64),
    L(Vec<Benc>),
    D(Vec<(Vec<u8>, Benc)>),
}

/// The mathematical shape of a Bencode value; every contract of the codec
/// speaks about values of this type.
#[verifier::ext_equal]
pub enum BVal {
    S(Seq<u8>),
    I(int),
    L(Seq<BVal>),
    D(Seq<(Seq<u8>, BVal)>),
}

/// The abstraction of an executable tree.
pub open spec fn bview(b: Benc) -> BVal
    decreases b,
{
    match b {
        Benc::S(s) => BVal::S(s@),
        Benc::I(i) => BVal::I(i as int),
        Benc::L(l) => BVal::L(seq_bview(l@)),
        Benc::D(d) => BVal::D(pairs_bview(d@)),
    }
}

/// Element-wise abstraction of a sequence of trees.
pub open spec fn seq_bview(s: Seq<Benc>) -> Seq<BVal>
    decreases s,
{
    if s.len() == 0 {
        Seq::empty()
    } else {
        seq![bview(s[0])] + seq_bview(s.drop_first())
    }
}

/// Element-wise abstraction of a sequence of dictionary pairs.
pub open spec fn pairs_bview(s: Seq<(Vec<u8>, Benc)>) -> Seq<(Seq<u8>, BVal)>
    decreases s,
{
    if s.len() == 0 {
        Seq::empty()
    } else {
        seq![(s[0].0@, bview(s[0].1))] + pairs_bview(s.drop_first())
    }
}

impl View for Benc {
    type V = BVal;

    open spec fn view(&self) -> BVal {
        bview(*self)
    }
}

/// Byte-lexicographic strict order on dictionary keys: the order canonical
/// Bencode sorts keys by.
pub open spec fn lex_lt(a: Seq<u8>, b: Seq<u8>) -> bool
    decreases a.len(),
{
    if b.len() == 0 {
        false
    } else if a.len() == 0 {
        true
    } else if a[0] < b[0] {
        true
    } else if a[0] > b[0] {
        false
    } else {
        lex_lt(a.drop_first(), b.drop_first())
    }
}

/// Keys strictly ascending in byte order (hence unique).
pub open spec fn keys_sorted(d: Seq<(Seq<u8>, BVal)>) -> bool {
    forall|i: int, j: int|
        0 <= i < j < d.len() ==> lex_lt(#[trigger] d[i].0, #[trigger] d[j].0)
}

/// Every pair has a valid UTF-8 key and a well-formed value.
pub open spec fn pairs_wf(ps: Seq<(Seq<u8>, BVal)>) -> bool {
    forall|i: int|
        0 <= i < ps.len() ==> vstd::utf8::valid_utf8(#[trigger] ps[i].0) && wf(ps[i].1)
}

/// Insert `(k, v)` into a key-sorted pair sequence at its ordered position,
/// replacing the pair with an equal key if there is one (last write wins).
pub open spec fn dict_insert(d: Seq<(Seq<u8>, BVal)>, k: Seq<u8>, v: BVal) -> Seq<
    (Seq<u8>, BVal),
>
    decreases d.len(),
{
    if d.len() == 0 {
        seq![(k, v)]
    } else if lex_lt(k, d[0].0) {
        seq![(k, v)] + d
    } else if k == d[0].0 {
        seq![(k, v)] + d.drop_first()
    } else {
        seq![d[0]] + dict_insert(d.drop_first(), k, v)
    }
}

/// Fold a pair list, in the order the pairs were encountered, into a sorted
/// dictionary; a later pair replaces an earlier one with the same key.
pub open spec fn build_dict(ps: Seq<(Seq<u8>, BVal)>) -> Seq<(Seq<u8>, BVal)>
    decreases ps.len(),
{
    if ps.len() == 0 {
        Seq::empty()
    } else {
        dict_insert(build_dict(ps.drop_last()), ps.last().0, ps.last().1)
    }
}

/// The first value bound to key `k`, if any; on a sorted dictionary the
/// first binding is the only one.
pub open spec fn dict_get(d: Seq<(Seq<u8>, BVal)>, k: Seq<u8>) -> Option<BVal>
    decreases d.len(),
{
    if d.len() == 0 {
        Option::None
    } else if d[0].0 == k {
        Option::Some(d[0].1)
    } else {
        dict_get(d.drop_first(), k)
    }
}

/// Scanning past keys that differ from the one sought leaves the lookup
/// unchanged.
pub proof fn lemma_dict_get_skip(d: Seq<(Seq<u8>, BVal)>, k: Seq<u8>, i: int)
    requires
        0 <= i <= d.len(),
        forall|j: int| 0 <= j < i ==> (#[trigger] d[j].0) != k,
    ensures
        dict_get(d, k) == dict_get(d.skip(i), k),
    decreases i,
{
    if i > 0 {
        assert(d[0].0 != k);
        let dr = d.drop_first();
        assert forall|j: int| 0 <= j < i - 1 implies (#[trigger] dr[j].0) != k by {
            assert(dr[j] == d[j + 1]);
            assert(d[j + 1].0 != k);
        }
        lemma_dict_get_skip(dr, k, i - 1);
        assert(d.skip(i) =~= dr.skip(i - 1));
    } else {
        assert(d.skip(0) =~= d);
    }
}

/// Well-formed value: integers fit `i64`, and every dictionary keeps its
/// keys valid UTF-8 and strictly ascending in byte order.  The decoder only
/// produces well-formed values, and the round-trip laws speak about them.
pub open spec fn wf(v: BVal) -> bool
    decreases v,
{
    match v {
        BVal::S(_) => true,
        BVal::I(i) => i64::MIN <= i <= i64::MAX,
        BVal::L(l) => forall|i: int| 0 <= i < l.len() ==> wf(#[trigger] l[i]),
        BVal::D(d) => {
            &&& keys_sorted(d)
            &&& forall|i: int| 0 <= i < d.len() ==> vstd::utf8::valid_utf8(#[trigger] d[i].0)
            &&& forall|i: int| 0 <= i < d.len() ==> wf(#[trigger] d[i].1)
        },
    }
}

/// `lex_lt` is a strict total order: any two keys compare one way, equal
/// keys compare neither way.
pub proof fn lemma_lex_total(a: Seq<u8>, b: Seq<u8>)
    ensures
        lex_lt(a, b) || lex_lt(b, a) || a == b,
        lex_lt(a, b) ==> !lex_lt(b, a) && a != b,
        a == b ==> !lex_lt(a, b),
    decreases a.len(),
{
    if a.len() > 0 && b.len() > 0 && a[0] == b[0] {
        lemma_lex_total(a.drop_first(), b.drop_first());
        if a.drop_first() == b.drop_first() {
            assert forall|i: int| 0 <= i < a.len() implies a[i] == b[i] by {
                if i > 0 {
                    assert(a.drop_first()[i - 1] == b.drop_first()[i - 1]);
                }
            }
            assert(a =~= b);
        }
        if a == b {
            assert(a.drop_first() =~= b.drop_first());
        }
    } else if a.len() == 0 && b.len() == 0 {
        assert(a =~= b);
    }
}

/// `lex_lt` is transitive.
pub proof fn lemma_lex_trans(a: Seq<u8>, b: Seq<u8>, c: Seq<u8>)
    requires
        lex_lt(a, b),
        lex_lt(b, c),
    ensures
        lex_lt(a, c),
    decreases a.len(),
{
    if a.len() > 0 && b.len() > 0 && c.len() > 0 && a[0] == b[0] && b[0] == c[0] {
        lemma_lex_trans(a.drop_first(), b.drop_first(), c.drop_first());
    }
}

/// Inserting into a sorted dictionary keeps it sorted, and every pair of
/// the result is the new pair or one of the old ones.
pub proof fn lemma_dict_insert_sorted(d: Seq<(Seq<u8>, BVal)>, k: Seq<u8>, v: BVal)
    requires
        keys_sorted(d),
    ensures
        keys_sorted(dict_insert(d, k, v)),
        forall|i: int|
            0 <= i < dict_insert(d, k, v).len() ==> #[trigger] dict_insert(d, k, v)[i] == (k, v)
                || d.contains(dict_insert(d, k, v)[i]),
    decreases d.len(),
{
    let r = dict_insert(d, k, v);
    if d.len() == 0 {
    } else if lex_lt(k, d[0].0) {
        assert forall|i: int, j: int| 0 <= i < j < r.len() implies lex_lt(r[i].0, r[j].0) by {
            if i == 0 {
                if j > 1 {
                    lemma_lex_trans(k, d[0].0, d[j - 1].0);
                }
            }
        }
        assert forall|i: int| 0 <= i < r.len() implies #[trigger] r[i] == (k, v) || d.contains(
            r[i],
        ) by {
            if i > 0 {
                assert(r[i] == d[i - 1]);
            }
        }
    } else if k == d[0].0 {
        assert forall|i: int, j: int| 0 <= i < j < r.len() implies lex_lt(r[i].0, r[j].0) by {
            if i == 0 {
                assert(r[j] == d[j]);
            } else {
                assert(r[i] == d[i]);
                assert(r[j] == d[j]);
            }
        }
        assert forall|i: int| 0 <= i < r.len() implies #[trigger] r[i] == (k, v) || d.contains(
            r[i],
        ) by {
            if i > 0 {
                assert(r[i] == d[i]);
            }
        }
    } else {
        lemma_lex_total(k, d[0].0);
        let dr = d.drop_first();
        assert forall|i: int, j: int| 0 <= i < j < dr.len() implies lex_lt(
            #[trigger] dr[i].0,
            #[trigger] dr[j].0,
        ) by {
            assert(dr[i] == d[i + 1]);
            assert(dr[j] == d[j + 1]);
            assert(lex_lt(d[i + 1].0, d[j + 1].0));
        }
        lemma_dict_insert_sorted(dr, k, v);
        let rr = dict_insert(dr, k, v);
        assert(r =~= seq![d[0]] + rr);
        assert forall|i: int, j: int| 0 <= i < j < r.len() implies lex_lt(r[i].0, r[j].0) by {
            if i == 0 {
                // head against anything in the inserted tail
                assert(r[j] == rr[j - 1]);
                assert(lex_lt(d[0].0, k));
                if rr[j - 1] == (k, v) {
                } else {
                    assert(dr.contains(rr[j - 1]));
                    let m = choose|m: int| 0 <= m < dr.len() && dr[m] == rr[j - 1];
                    assert(dr[m] == d[m + 1]);
                    assert(lex_lt(d[0].0, d[m + 1].0));
                }
            } else {
                assert(r[i] == rr[i - 1]);
                assert(r[j] == rr[j - 1]);
                assert(lex_lt(rr[i - 1].0, rr[j - 1].0));
            }
        }
        assert forall|i: int| 0 <= i < r.len() implies #[trigger] r[i] == (k, v) || d.contains(
            r[i],
        ) by {
            if i == 0 {
                assert(d.contains(d[0]));
            } else {
                assert(r[i] == rr[i - 1]);
                if rr[i - 1] == (k, v) {
                } else {
                    assert(dr.contains(rr[i - 1]));
                    let m = choose|m: int| 0 <= m < dr.len() && dr[m] == rr[i - 1];
                    assert(dr[m] == d[m + 1]);
                    assert(d.contains(d[m + 1]));
                }
            }
        }
    }
}

/// Comparing past an equal prefix compares the remainders.
pub proof fn lemma_lex_skip(a: Seq<u8>, b: Seq<u8>, i: int)
    requires
        0 <= i <= a.len(),
        i <= b.len(),
        forall|j: int| 0 <= j < i ==> a[j] == b[j],
    ensures
        lex_lt(a, b) == lex_lt(a.skip(i), b.skip(i)),
    decreases i,
{
    if i > 0 {
        assert(a[0] == b[0]);
        assert forall|j: int| 0 <= j < i - 1 implies a.drop_first()[j] == b.drop_first()[j] by {
            assert(a.drop_first()[j] == a[j + 1]);
            assert(b.drop_first()[j] == b[j + 1]);
        }
        lemma_lex_skip(a.drop_first(), b.drop_first(), i - 1);
        assert(a.skip(i) =~= a.drop_first().skip(i - 1));
        assert(b.skip(i) =~= b.drop_first().skip(i - 1));
    } else {
        assert(a.skip(0) =~= a);
        assert(b.skip(0) =~= b);
    }
}

/// Insertion passes over every pair whose key is smaller than the new key.
pub proof fn lemma_dict_insert_skip(d: Seq<(Seq<u8>, BVal)>, k: Seq<u8>, v: BVal, i: int)
    requires
        0 <= i <= d.len(),
        forall|j: int| 0 <= j < i ==> lex_lt(#[trigger] d[j].0, k),
    ensures
        dict_insert(d, k, v) == d.take(i) + dict_insert(d.skip(i), k, v),
    decreases i,
{
    if i == 0 {
        assert(d.skip(0) =~= d);
        assert(d.take(0) + dict_insert(d, k, v) =~= dict_insert(d, k, v));
    } else {
        assert(lex_lt(d[0].0, k));
        lemma_lex_total(k, d[0].0);
        let dr = d.drop_first();
        assert forall|j: int| 0 <= j < i - 1 implies lex_lt(#[trigger] dr[j].0, k) by {
            assert(dr[j] == d[j + 1]);
            assert(lex_lt(d[j + 1].0, k));
        }
        lemma_dict_insert_skip(dr, k, v, i - 1);
        assert(d.skip(i) =~= dr.skip(i - 1));
        assert(d.take(i) =~= seq![d[0]] + dr.take(i - 1));
        assert(dict_insert(d, k, v) == seq![d[0]] + dict_insert(dr, k, v));
        assert(seq![d[0]] + (dr.take(i - 1) + dict_insert(dr.skip(i - 1), k, v)) =~= (seq![d[0]]
            + dr.take(i - 1)) + dict_insert(dr.skip(i - 1), k, v));
    }
}

/// A dictionary folded from pairs with UTF-8 keys and well-formed values
/// is itself well-formed.
pub proof fn lemma_build_dict_wf(ps: Seq<(Seq<u8>, BVal)>)
    requires
        pairs_wf(ps),
    ensures
        wf(BVal::D(build_dict(ps))),
    decreases ps.len(),
{
    if ps.len() > 0 {
        let init = ps.drop_last();
        assert forall|i: int|
            0 <= i < init.len() implies vstd::utf8::valid_utf8(#[trigger] init[i].0) && wf(
            init[i].1,
        ) by {
            assert(init[i] == ps[i]);
            assert(vstd::utf8::valid_utf8(ps[i].0) && wf(ps[i].1));
        }
        assert(pairs_wf(init));
        lemma_build_dict_wf(init);
        let b = build_dict(init);
        lemma_dict_insert_sorted(b, ps.last().0, ps.last().1);
        let r = dict_insert(b, ps.last().0, ps.last().1);
        assert forall|i: int| 0 <= i < r.len() implies vstd::utf8::valid_utf8(
            #[trigger] r[i].0,
        ) && wf(r[i].1) by {
            if r[i] == (ps.last().0, ps.last().1) {
                assert(vstd::utf8::valid_utf8(ps[ps.len() - 1].0) && wf(ps[ps.len() - 1].1));
            } else {
                assert(b.contains(r[i]));
                let m = choose|m: int| 0 <= m < b.len() && b[m] == r[i];
                assert(vstd::utf8::valid_utf8(b[m].0) && wf(b[m].1));
            }
        }
    }
}

pub broadcast proof fn lemma_seq_bview_len(s: Seq<Benc>)
    ensures
        (#[trigger] seq_bview(s)).len() == s.len(),
        forall|i: int| 0 <= i < s.len() ==> seq_bview(s)[i] == bview(s[i]),
    decreases s,
{
    if s.len() > 0 {
        lemma_seq_bview_len(s.drop_first());
    }
}

pub broadcast proof fn lemma_pairs_bview_len(s: Seq<(Vec<u8>, Benc)>)
    ensures
        (#[trigger] pairs_bview(s)).len() == s.len(),
        forall|i: int|
            0 <= i < s.len() ==> pairs_bview(s)[i] == (s[i].0@, bview(s[i].1)),
    decreases s,
{
    if s.len() > 0 {
        lemma_pairs_bview_len(s.drop_first());
    }
}

} // verus!
