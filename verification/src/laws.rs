//! The round-trip laws of the codec: a canonical encoding parses back to
//! exactly the value it came from, and re-encoding the parse of canonical
//! bytes reproduces the bytes.

use vstd::prelude::*;

use crate::grammar::{
    dec_digits, digit_run, digits_val, encode_items, encode_pairs, encode_str, is_digit,
    lemma_dec_digits, lemma_digit_run_concat, parse_items, parse_pairs, spec_encode, spec_parse,
    B_COLON, B_DICT, B_END, B_INT, B_LIST, B_MINUS,
};
use crate::value::{
    build_dict, dict_insert, keys_sorted, lemma_dict_insert_skip, pairs_wf, wf, BVal,
};

verus! {

broadcast use vstd::seq::group_seq_axioms;

/// An encoding is never empty, and its first byte is the opening byte of
/// its variant — never a terminator.
proof fn lemma_encode_first_byte(v: BVal)
    ensures
        spec_encode(v).len() >= 1,
        v is S ==> is_digit(spec_encode(v)[0]),
        v is I ==> spec_encode(v)[0] == B_INT,
        v is L ==> spec_encode(v)[0] == B_LIST,
        v is D ==> spec_encode(v)[0] == B_DICT,
        spec_encode(v)[0] != B_END,
{
    match v {
        BVal::S(s) => {
            lemma_dec_digits(s.len() as int);
            assert(spec_encode(v)[0] == dec_digits(s.len() as int)[0]);
        },
        BVal::I(_i) => {},
        BVal::L(_l) => {},
        BVal::D(_d) => {},
    }
}

/// An encoded byte string, followed by anything, parses to exactly that
/// byte string, consuming exactly the encoding.
proof fn lemma_parse_encode_str(ks: Seq<u8>, rest: Seq<u8>)
    ensures
        spec_parse(encode_str(ks) + rest) == Option::Some(
            (BVal::S(ks), encode_str(ks).len() as int),
        ),
{
    let len = ks.len() as int;
    let dd = dec_digits(len);
    lemma_dec_digits(len);
    let t = encode_str(ks) + rest;
    let tail = seq![B_COLON] + ks + rest;
    assert(t =~= dd + tail);
    assert(tail[0] == B_COLON);
    lemma_digit_run_concat(dd, tail);
    let k = dd.len() as int;
    assert(digit_run(t) == k);
    assert(t.take(k) =~= dd);
    assert(t[0] == dd[0]);
    assert(k > 1 ==> len >= 10);
    assert(t[k] == tail[0]);
    assert(t.len() == k + 1 + len + rest.len());
    assert(t.subrange(k + 1, k + 1 + len) =~= ks);
    assert(is_digit(t[0]));
}

/// The main induction: the canonical encoding of a well-formed value,
/// followed by anything, parses to exactly that value, consuming exactly
/// the encoding.
pub proof fn lemma_encode_parses(v: BVal, rest: Seq<u8>)
    requires
        wf(v),
    ensures
        spec_parse(spec_encode(v) + rest) == Option::Some((v, spec_encode(v).len() as int)),
    decreases v,
{
    let t = spec_encode(v) + rest;
    match v {
        BVal::S(s) => {
            lemma_parse_encode_str(s, rest);
        },
        BVal::I(i) => {
            let mag = if i < 0 {
                -i
            } else {
                i
            };
            let dd = dec_digits(mag);
            lemma_dec_digits(mag);
            assert(!is_digit(B_INT));
            assert(t[0] == B_INT);
            let etail = seq![B_END] + rest;
            assert(etail[0] == B_END);
            assert(!is_digit(B_END));
            lemma_digit_run_concat(dd, etail);
            let k = dd.len() as int;
            if i < 0 {
                assert(t.drop_first() =~= seq![B_MINUS] + (dd + etail));
                let body = t.drop_first();
                assert(body[0] == B_MINUS);
                let digs = body.drop_first();
                assert(digs =~= dd + etail);
                assert(digit_run(digs) == k);
                assert(digs.take(k) =~= dd);
                assert(digits_val(digs.take(k)) == mag);
                assert(k > 1 ==> mag >= 10);
                assert(digs[k] == B_END);
                assert(spec_encode(v).len() == 1 + (1 + k) + 1);
            } else {
                assert(t.drop_first() =~= dd + etail);
                let body = t.drop_first();
                assert(body[0] == dd[0]);
                assert(is_digit(dd[0]));
                assert(dd[0] != B_MINUS);
                assert(digit_run(body) == k);
                assert(body.take(k) =~= dd);
                assert(digits_val(body.take(k)) == mag);
                assert(k > 1 ==> mag >= 10);
                assert(body[k] == B_END);
                assert(spec_encode(v).len() == 1 + k + 1);
            }
        },
        BVal::L(l) => {
            assert(t[0] == B_LIST);
            assert(!is_digit(B_LIST));
            assert(B_LIST != B_INT && B_LIST != B_DICT);
            assert forall|i: int| 0 <= i < l.len() implies wf(#[trigger] l[i]) by {}
            lemma_encode_items_parses(l, rest);
            assert(t.drop_first() =~= encode_items(l) + seq![B_END] + rest);
            assert(spec_encode(v).len() == 1 + (encode_items(l).len() + 1));
        },
        BVal::D(d) => {
            assert(t[0] == B_DICT);
            assert(!is_digit(B_DICT));
            assert(B_DICT != B_INT && B_DICT != B_LIST);
            lemma_encode_pairs_parses(d, rest);
            lemma_build_dict_sorted_id(d);
            assert(t.drop_first() =~= encode_pairs(d) + seq![B_END] + rest);
            assert(spec_encode(v).len() == 1 + (encode_pairs(d).len() + 1));
        },
    }
}

/// The encoded elements of a list, the terminator, then anything, parse to
/// exactly those elements.
proof fn lemma_encode_items_parses(l: Seq<BVal>, rest: Seq<u8>)
    requires
        forall|i: int| 0 <= i < l.len() ==> wf(#[trigger] l[i]),
    ensures
        parse_items(encode_items(l) + seq![B_END] + rest) == Option::Some(
            (l, encode_items(l).len() as int + 1),
        ),
    decreases l,
{
    let t = encode_items(l) + seq![B_END] + rest;
    if l.len() == 0 {
        assert(t =~= seq![B_END] + rest);
        assert(t[0] == B_END);
        assert(l =~= Seq::<BVal>::empty());
    } else {
        let v0 = l[0];
        let lr = l.drop_first();
        let e0 = spec_encode(v0);
        let rest1 = encode_items(lr) + seq![B_END] + rest;
        assert(t =~= e0 + rest1);
        lemma_encode_first_byte(v0);
        assert(t[0] == e0[0]);
        assert(t[0] != B_END);
        lemma_encode_parses(v0, rest1);
        let n0 = e0.len() as int;
        assert(0 < n0 <= t.len());
        assert(t.skip(n0) =~= rest1);
        assert forall|i: int| 0 <= i < lr.len() implies wf(#[trigger] lr[i]) by {
            assert(lr[i] == l[i + 1]);
        }
        lemma_encode_items_parses(lr, rest);
        assert(seq![v0] + lr =~= l);
        assert(encode_items(l).len() == n0 + encode_items(lr).len());
    }
}

/// The encoded pairs of a sorted dictionary, the terminator, then anything,
/// parse to exactly those pairs, in order.
proof fn lemma_encode_pairs_parses(d: Seq<(Seq<u8>, BVal)>, rest: Seq<u8>)
    requires
        keys_sorted(d),
        pairs_wf(d),
    ensures
        parse_pairs(encode_pairs(d) + seq![B_END] + rest) == Option::Some(
            (d, encode_pairs(d).len() as int + 1),
        ),
    decreases d,
{
    let t = encode_pairs(d) + seq![B_END] + rest;
    if d.len() == 0 {
        assert(t =~= seq![B_END] + rest);
        assert(t[0] == B_END);
        assert(d =~= Seq::<(Seq<u8>, BVal)>::empty());
    } else {
        let k0 = d[0].0;
        let v0 = d[0].1;
        let dr = d.drop_first();
        let ek = encode_str(k0);
        let ev = spec_encode(v0);
        let rest1 = ev + (encode_pairs(dr) + seq![B_END] + rest);
        let rest2 = encode_pairs(dr) + seq![B_END] + rest;
        assert(t =~= ek + rest1);
        lemma_dec_digits(k0.len() as int);
        assert(t[0] == ek[0]);
        assert(ek[0] == dec_digits(k0.len() as int)[0]);
        assert(is_digit(t[0]));
        assert(!is_digit(B_END));
        assert(t[0] != B_END);
        lemma_parse_encode_str(k0, rest1);
        let nk = ek.len() as int;
        assert(0 < nk <= t.len());
        assert(vstd::utf8::valid_utf8(k0) && wf(v0)) by {
            assert(vstd::utf8::valid_utf8(d[0].0) && wf(d[0].1));
        }
        assert(t.skip(nk) =~= rest1);
        lemma_encode_parses(v0, rest2);
        assert(rest1 =~= ev + rest2);
        let nv = ev.len() as int;
        lemma_encode_first_byte(v0);
        assert(0 < nv <= t.len() - nk);
        assert(t.skip(nk + nv) =~= rest2);
        assert forall|i: int, j: int| 0 <= i < j < dr.len() implies lex_lt_at(dr, i, j) by {
            assert(dr[i] == d[i + 1]);
            assert(dr[j] == d[j + 1]);
            assert(crate::value::lex_lt(d[i + 1].0, d[j + 1].0));
        }
        assert forall|i: int| 0 <= i < dr.len() implies vstd::utf8::valid_utf8(
            #[trigger] dr[i].0,
        ) && wf(dr[i].1) by {
            assert(dr[i] == d[i + 1]);
            assert(vstd::utf8::valid_utf8(d[i + 1].0) && wf(d[i + 1].1));
        }
        assert(keys_sorted(dr));
        assert(pairs_wf(dr));
        lemma_encode_pairs_parses(dr, rest);
        assert(seq![(k0, v0)] + dr =~= d);
        assert(encode_pairs(d).len() == nk + nv + encode_pairs(dr).len());
    }
}

/// In a sorted dictionary, keys at earlier positions are smaller.
spec fn lex_lt_at(d: Seq<(Seq<u8>, BVal)>, i: int, j: int) -> bool {
    crate::value::lex_lt(d[i].0, d[j].0)
}

/// Folding an already-sorted pair sequence rebuilds it unchanged.
proof fn lemma_build_dict_sorted_id(d: Seq<(Seq<u8>, BVal)>)
    requires
        keys_sorted(d),
    ensures
        build_dict(d) == d,
    decreases d.len(),
{
    if d.len() > 0 {
        let init = d.drop_last();
        assert forall|i: int, j: int| 0 <= i < j < init.len() implies lex_lt_at(init, i, j) by {
            assert(init[i] == d[i]);
            assert(init[j] == d[j]);
            assert(crate::value::lex_lt(d[i].0, d[j].0));
        }
        assert(keys_sorted(init));
        lemma_build_dict_sorted_id(init);
        let k = d.last().0;
        let v = d.last().1;
        assert forall|j: int| 0 <= j < init.len() implies crate::value::lex_lt(
            #[trigger] init[j].0,
            k,
        ) by {
            assert(init[j] == d[j]);
            assert(crate::value::lex_lt(d[j].0, d[d.len() - 1].0));
        }
        lemma_dict_insert_skip(init, k, v, init.len() as int);
        assert(init.skip(init.len() as int) =~= Seq::<(Seq<u8>, BVal)>::empty());
        assert(dict_insert(Seq::<(Seq<u8>, BVal)>::empty(), k, v) =~= seq![(k, v)]);
        assert(init.take(init.len() as int) =~= init);
        assert(init + seq![(k, v)] =~= d);
        assert((d.last().0, d.last().1) == d.last());
    }
}

/// Round trip: the canonical encoding of any well-formed value decodes
/// back to exactly that value, consuming the whole encoding.  This is the
/// law the executable pair `dec_benc`/`enc_benc` is held to through their
/// contracts over `spec_parse` and `spec_encode`.
pub proof fn lemma_round_trip(v: BVal)
    requires
        wf(v),
    ensures
        spec_parse(spec_encode(v)) == Option::Some((v, spec_encode(v).len() as int)),
{
    lemma_encode_parses(v, Seq::<u8>::empty());
    assert(spec_encode(v) + Seq::<u8>::empty() =~= spec_encode(v));
}

/// Canonical idempotence: bytes that are the canonical encoding of some
/// well-formed value decode successfully, and re-encoding the decoded
/// value reproduces the bytes exactly.
pub proof fn lemma_canonical_idempotent(b: Seq<u8>, v: BVal)
    requires
        wf(v),
        b == spec_encode(v),
    ensures
        match spec_parse(b) {
            Option::Some((w, n)) => spec_encode(w) == b && n == b.len(),
            Option::None => false,
        },
{
    lemma_round_trip(v);
}

} // verus!
