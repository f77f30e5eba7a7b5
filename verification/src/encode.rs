//! The canonical encoder: one pass over an already-built value tree,
//! proved to emit exactly [`spec_encode`] of the tree's abstraction.

use vstd::prelude::*;

use crate::grammar::{
    dec_digits, encode_items, encode_pairs, encode_str, lemma_dec_digits, spec_encode, B_COLON,
    B_DICT, B_END, B_INT, B_LIST, B_MINUS, B_ZERO,
};
use crate::value::{
    lemma_pairs_bview_len, lemma_seq_bview_len, pairs_bview, seq_bview, BVal, Benc,
};

verus! {

broadcast use vstd::seq::group_seq_axioms, vstd::std_specs::vec::group_vec_axioms;

/// Append the minimal decimal digits of `n` to `out`.
fn push_digits(out: &mut Vec<u8>, n: u64)
    ensures
        final(out)@ == old(out)@ + dec_digits(n as int),
    decreases n,
{
    proof {
        lemma_dec_digits(n as int);
    }
    if n < 10 {
        out.push(B_ZERO + n as u8);
        proof {
            assert(out@ =~= old(out)@ + dec_digits(n as int));
        }
    } else {
        push_digits(out, n / 10);
        proof {
            lemma_dec_digits(n as int / 10);
            vstd::arithmetic::div_mod::lemma_fundamental_div_mod(n as int, 10);
        }
        out.push(B_ZERO + (n % 10) as u8);
        proof {
            assert((B_ZERO + (n % 10) as u8) as u8 == (B_ZERO + (n as int) % 10) as u8);
            assert(out@ =~= old(out)@ + dec_digits(n as int));
        }
    }
}

/// Encode a byte string: its exact byte count in minimal decimal, a colon,
/// then the raw bytes.
pub fn enc_string(s: &[u8]) -> (r: Vec<u8>)
    ensures
        r@ == encode_str(s@),
{
    let mut out: Vec<u8> = Vec::new();
    push_digits(&mut out, s.len() as u64);
    out.push(B_COLON);
    out.extend_from_slice(s);
    proof {
        assert(out@ =~= encode_str(s@));
    }
    out
}

/// Encode an integer: `i`, the minimal decimal of its value, `e`.
pub fn enc_int(i: &i64) -> (r: Vec<u8>)
    ensures
        r@ == spec_encode(BVal::I(*i as int)),
{
    let mut out: Vec<u8> = Vec::new();
    out.push(B_INT);
    if *i < 0 {
        out.push(B_MINUS);
        let mag: u64 = (-(*i as i128)) as u64;
        proof {
            assert(mag as int == -(*i as int));
        }
        push_digits(&mut out, mag);
    } else {
        push_digits(&mut out, *i as u64);
    }
    out.push(B_END);
    proof {
        assert(out@ =~= spec_encode(BVal::I(*i as int)));
    }
    out
}

/// Encode a list: `l`, each element in stored order, `e`.
pub fn enc_list(l: &Vec<Benc>) -> (r: Vec<u8>)
    ensures
        r@ == spec_encode(BVal::L(seq_bview(l@))),
    decreases l, 0int,
{
    proof {
        broadcast use lemma_seq_bview_len;

    }
    let mut out: Vec<u8> = Vec::new();
    out.push(B_LIST);
    let ghost views = seq_bview(l@);
    let mut idx: usize = 0;
    while idx < l.len()
        invariant
            idx <= l.len(),
            views == seq_bview(l@),
            out@ == seq![B_LIST] + encode_items(views.take(idx as int)),
        decreases l.len() - idx,
    {
        proof {
            broadcast use lemma_seq_bview_len;

            lemma_encode_items_take(views, idx as int);
        }
        let mut piece = enc_benc(&l[idx]);
        out.append(&mut piece);
        idx = idx + 1;
        proof {
            assert(out@ =~= seq![B_LIST] + encode_items(views.take(idx as int)));
        }
    }
    out.push(B_END);
    proof {
        assert(views.take(l@.len() as int) =~= views);
        assert(out@ =~= spec_encode(BVal::L(seq_bview(l@))));
    }
    out
}

/// Encode a dictionary: `d`, each `(key, value)` pair in stored order, `e`.
/// On a well-formed dictionary the stored order is ascending key order, so
/// the output is canonical.
pub fn enc_dict(d: &Vec<(Vec<u8>, Benc)>) -> (r: Vec<u8>)
    ensures
        r@ == spec_encode(BVal::D(pairs_bview(d@))),
    decreases d, 0int,
{
    proof {
        broadcast use lemma_pairs_bview_len;

    }
    let mut out: Vec<u8> = Vec::new();
    out.push(B_DICT);
    let ghost views = pairs_bview(d@);
    let mut idx: usize = 0;
    while idx < d.len()
        invariant
            idx <= d.len(),
            views == pairs_bview(d@),
            out@ == seq![B_DICT] + encode_pairs(views.take(idx as int)),
        decreases d.len() - idx,
    {
        proof {
            broadcast use lemma_pairs_bview_len;

            lemma_encode_pairs_take(views, idx as int);
        }
        let mut key_bytes = enc_string(d[idx].0.as_slice());
        out.append(&mut key_bytes);
        let mut val_bytes = enc_benc(&d[idx].1);
        out.append(&mut val_bytes);
        idx = idx + 1;
        proof {
            assert(out@ =~= seq![B_DICT] + encode_pairs(views.take(idx as int)));
        }
    }
    out.push(B_END);
    proof {
        assert(views.take(d@.len() as int) =~= views);
        assert(out@ =~= spec_encode(BVal::D(pairs_bview(d@))));
    }
    out
}

/// Encode any value into its canonical byte sequence.  Total: every tree
/// is encodable.
pub fn enc_benc(b: &Benc) -> (r: Vec<u8>)
    ensures
        r@ == spec_encode(b@),
    decreases b, 1int,
{
    match b {
        Benc::S(s) => enc_string(s.as_slice()),
        Benc::I(i) => enc_int(i),
        Benc::L(l) => enc_list(l),
        Benc::D(d) => enc_dict(d),
    }
}

/// One more element extends the concatenated element encodings at the end.
proof fn lemma_encode_items_take(l: Seq<BVal>, i: int)
    requires
        0 <= i < l.len(),
    ensures
        encode_items(l.take(i + 1)) == encode_items(l.take(i)) + spec_encode(l[i]),
    decreases i,
{
    if i == 0 {
        assert(l.take(1).drop_first() =~= l.take(0));
        assert(encode_items(l.take(0)) == Seq::<u8>::empty());
        assert(l.take(1)[0] == l[0]);
        assert(encode_items(l.take(1)) =~= encode_items(l.take(0)) + spec_encode(l[0]));
    } else {
        lemma_encode_items_take(l.drop_first(), i - 1);
        assert(l.take(i + 1).drop_first() =~= l.drop_first().take(i));
        assert(l.take(i).drop_first() =~= l.drop_first().take(i - 1));
        assert(l.take(i + 1)[0] == l[0]);
        assert(l.take(i)[0] == l[0]);
        assert(l.drop_first()[i - 1] == l[i]);
        assert(encode_items(l.take(i + 1)) =~= encode_items(l.take(i)) + spec_encode(l[i]));
    }
}

/// One more pair extends the concatenated pair encodings at the end.
proof fn lemma_encode_pairs_take(d: Seq<(Seq<u8>, BVal)>, i: int)
    requires
        0 <= i < d.len(),
    ensures
        encode_pairs(d.take(i + 1)) == encode_pairs(d.take(i)) + encode_str(d[i].0)
            + spec_encode(d[i].1),
    decreases i,
{
    if i == 0 {
        assert(d.take(1).drop_first() =~= d.take(0));
        assert(encode_pairs(d.take(0)) == Seq::<u8>::empty());
        assert(d.take(1)[0] == d[0]);
        assert(encode_pairs(d.take(1)) =~= encode_pairs(d.take(0)) + encode_str(d[0].0)
            + spec_encode(d[0].1));
    } else {
        lemma_encode_pairs_take(d.drop_first(), i - 1);
        assert(d.take(i + 1).drop_first() =~= d.drop_first().take(i));
        assert(d.take(i).drop_first() =~= d.drop_first().take(i - 1));
        assert(d.take(i + 1)[0] == d[0]);
        assert(d.take(i)[0] == d[0]);
        assert(d.drop_first()[i - 1] == d[i]);
        assert(encode_pairs(d.take(i + 1)) =~= encode_pairs(d.take(i)) + encode_str(d[i].0)
            + spec_encode(d[i].1));
    }
}

} // verus!
