//! The decoder: a single left-to-right pass over the input with one byte of
//! lookahead, proved to follow [`spec_parse`] exactly — it succeeds on
//! precisely the byte sequences the grammar accepts, and returns precisely
//! the value the grammar gives them.

use vstd::prelude::*;

use crate::grammar::{
    digit_run, digit_val, digits_val, is_digit, lemma_digit_run, lemma_digit_run_at_least,
    lemma_digit_run_exact, lemma_digits_val_nonneg, lemma_digits_val_take_mono,
    lemma_digits_val_take_step, lemma_parse_wf, parse_int, parse_items, parse_pairs, parse_str,
    parses_fully, spec_parse, B_COLON, B_DICT, B_END, B_INT, B_LIST, B_MINUS, B_NINE, B_ZERO,
};
use crate::text::bytes_to_string;
use crate::value::{
    build_dict, bview, dict_insert, lemma_dict_insert_skip, lemma_lex_skip, lemma_lex_total,
    lemma_pairs_bview_len, lemma_seq_bview_len, lex_lt, pairs_bview, seq_bview, wf, BVal, Benc,
};

verus! {

broadcast use vstd::seq::group_seq_axioms, vstd::std_specs::vec::group_vec_axioms, vstd::slice::group_slice_axioms;

/// The contract every decoding step meets: on success, the suffix at the
/// entry cursor parses to exactly the returned value and the bytes stepped
/// over; on failure, that suffix has no parse.
pub open spec fn dec_post(
    s: Seq<u8>,
    start: int,
    end: int,
    r: Result<Benc, &'static str>,
) -> bool {
    match r {
        Result::Ok(v) => {
            &&& start < end <= s.len()
            &&& spec_parse(s.skip(start)) == Option::Some((bview(v), end - start))
        },
        Result::Err(_) => spec_parse(s.skip(start)) is None,
    }
}

/// Three-way outcome of a byte-lexicographic key comparison.
enum KeyOrder {
    Less,
    Equal,
    Greater,
}

/// Compare two keys in byte-lexicographic order.
#[verifier::loop_isolation(false)]
fn key_cmp(a: &Vec<u8>, b: &Vec<u8>) -> (r: KeyOrder)
    ensures
        r is Less <==> lex_lt(a@, b@),
        r is Equal <==> a@ == b@,
        r is Greater <==> lex_lt(b@, a@),
{
    let mut i: usize = 0;
    while i < a.len() && i < b.len()
        invariant
            i <= a.len(),
            i <= b.len(),
            forall|j: int| 0 <= j < i ==> a@[j] == b@[j],
        decreases a.len() - i,
    {
        if a[i] < b[i] {
            proof {
                lemma_lex_skip(a@, b@, i as int);
                lemma_lex_skip(b@, a@, i as int);
                assert(a@.skip(i as int)[0] == a@[i as int]);
                assert(b@.skip(i as int)[0] == b@[i as int]);
            }
            return KeyOrder::Less;
        }
        if a[i] > b[i] {
            proof {
                lemma_lex_skip(a@, b@, i as int);
                lemma_lex_skip(b@, a@, i as int);
                assert(a@.skip(i as int)[0] == a@[i as int]);
                assert(b@.skip(i as int)[0] == b@[i as int]);
            }
            return KeyOrder::Greater;
        }
        i = i + 1;
    }
    proof {
        lemma_lex_skip(a@, b@, i as int);
        lemma_lex_skip(b@, a@, i as int);
    }
    if a.len() < b.len() {
        KeyOrder::Less
    } else if a.len() > b.len() {
        KeyOrder::Greater
    } else {
        proof {
            assert(a@ =~= b@);
        }
        KeyOrder::Equal
    }
}

/// Insert a pair into a key-sorted dictionary vector at its ordered
/// position; a pair with an equal key is replaced (last write wins).
#[verifier::loop_isolation(false)]
fn dict_insert_exec(d: &mut Vec<(Vec<u8>, Benc)>, k: Vec<u8>, v: Benc)
    ensures
        pairs_bview(final(d)@) == dict_insert(pairs_bview(old(d)@), k@, bview(v)),
{
    broadcast use lemma_pairs_bview_len;

    let ghost d0 = pairs_bview(old(d)@);
    let ghost kv = k@;
    let ghost vv = bview(v);
    let mut i: usize = 0;
    while i < d.len()
        invariant
            i <= d.len(),
            d@ == old(d)@,
            forall|j: int| 0 <= j < i ==> lex_lt(#[trigger] d0[j].0, kv),
        decreases d.len() - i,
    {
        let order = key_cmp(&d[i].0, &k);
        match order {
            KeyOrder::Less => {
                proof {
                    assert(d0[i as int].0 == d@[i as int].0@);
                }
                i = i + 1;
            },
            KeyOrder::Equal => {
                proof {
                    lemma_dict_insert_skip(d0, kv, vv, i as int);
                    assert(d0[i as int].0 == d@[i as int].0@);
                    lemma_lex_total(kv, d0[i as int].0);
                }
                d.remove(i);
                d.insert(i, (k, v));
                proof {
                    assert(d0.skip(i as int)[0] == d0[i as int]);
                    assert(d0.skip(i as int).drop_first() =~= d0.skip(i as int + 1));
                    assert(dict_insert(d0.skip(i as int), kv, vv) =~= seq![(kv, vv)] + d0.skip(
                        i as int + 1,
                    ));
                    assert(pairs_bview(d@) =~= d0.take(i as int) + (seq![(kv, vv)] + d0.skip(
                        i as int + 1,
                    )));
                }
                return ;
            },
            KeyOrder::Greater => {
                proof {
                    lemma_dict_insert_skip(d0, kv, vv, i as int);
                    assert(d0[i as int].0 == d@[i as int].0@);
                }
                d.insert(i, (k, v));
                proof {
                    assert(d0.skip(i as int)[0] == d0[i as int]);
                    assert(dict_insert(d0.skip(i as int), kv, vv) =~= seq![(kv, vv)] + d0.skip(
                        i as int,
                    ));
                    assert(pairs_bview(d@) =~= d0.take(i as int) + (seq![(kv, vv)] + d0.skip(
                        i as int,
                    )));
                }
                return ;
            },
        }
    }
    proof {
        lemma_dict_insert_skip(d0, kv, vv, i as int);
        assert(d0.skip(i as int) =~= Seq::<(Seq<u8>, BVal)>::empty());
        assert(dict_insert(d0.skip(i as int), kv, vv) =~= seq![(kv, vv)]);
    }
    d.push((k, v));
    proof {
        assert(pairs_bview(d@) =~= d0.take(d0.len() as int) + seq![(kv, vv)]);
        assert(d0.take(d0.len() as int) =~= d0);
    }
}

/// Scan the maximal digit run at the cursor, accumulating its value, or
/// report that the value cannot fit below `limit`.
///
/// On `Ok(n)` the cursor stands just past the run, which is non-empty
/// exactly when it started on a digit, and `n` is the run's value.  On
/// `Err(())` the run's value exceeds `limit` (so certainly `usize::MAX`
/// cannot hold it if `limit == usize::MAX`); the cursor is left somewhere
/// inside the run.
#[verifier::loop_isolation(false)]
fn scan_digits(s: &[u8], pos: &mut usize, limit: u64) -> (r: Result<u64, ()>)
    requires
        *old(pos) <= s@.len(),
        limit >= 9,
    ensures
        ({
            let suf = s@.skip(*old(pos) as int);
            match r {
                Result::Ok(n) => {
                    &&& *old(pos) <= *final(pos) <= s@.len()
                    &&& *final(pos) - *old(pos) == digit_run(suf)
                    &&& n as int == digits_val(suf.take(digit_run(suf) as int))
                    &&& n <= limit
                },
                Result::Err(_) => digits_val(suf.take(digit_run(suf) as int)) > limit,
            }
        }),
{
    let ghost start = *old(pos) as int;
    let ghost suf = s@.skip(start);
    let slen = s.len();
    let mut n: u64 = 0;
    proof {
        assert(suf.take(0) =~= Seq::<u8>::empty());
    }
    while *pos < slen && s[*pos] >= B_ZERO && s[*pos] <= B_NINE
        invariant
            start <= *pos as int <= slen as int,
            forall|j: int| 0 <= j < *pos - start ==> is_digit(#[trigger] suf[j]),
            n as int == digits_val(suf.take(*pos - start)),
            n <= limit,
        decreases slen - *pos,
    {
        let ghost i = *pos - start;
        let d = s[*pos] - B_ZERO;
        proof {
            assert(suf[i] == s@[*pos as int]);
            assert(is_digit(suf[i]));
            lemma_digits_val_take_step(suf, i);
        }
        if n > (limit - d as u64) / 10 {
            proof {
                lemma_digit_run(suf);
                lemma_digit_run_at_least(suf, i + 1);
                let k = digit_run(suf) as int;
                vstd::arithmetic::div_mod::lemma_fundamental_div_mod(limit as int - d as int, 10);
                assert(digit_val(suf[i]) == d as int);
                assert(digits_val(suf.take(i + 1)) > limit);
                lemma_digits_val_take_mono(suf, i + 1, k);
                assert(digits_val(suf.take(k)) > limit);
            }
            return Result::Err(());
        }
        proof {
            assert(digit_val(suf[i]) == d as int);
        }
        n = n * 10 + d as u64;
        *pos = *pos + 1;
    }
    proof {
        let i = *pos - start;
        if *pos < slen {
            assert(suf[i] == s@[*pos as int]);
        }
        lemma_digit_run_exact(suf, i);
    }
    Result::Ok(n)
}

/// Decode a byte string `<len>:<bytes>` at the cursor.
pub fn dec_string(s: &[u8], pos: &mut usize) -> (r: Result<Benc, &'static str>)
    requires
        *old(pos) < s@.len(),
        is_digit(s@[*old(pos) as int]),
    ensures
        dec_post(s@, *old(pos) as int, *final(pos) as int, r),
{
    let ghost start = *old(pos) as int;
    let ghost suf = s@.skip(start);
    let slen = s.len();
    let dstart = *pos;
    let ghost k = digit_run(suf) as int;
    proof {
        assert(suf[0] == s@[start]);
        lemma_digit_run(suf);
        lemma_digit_run_at_least(suf, 1);
        assert forall|j: int| 0 <= j < k implies is_digit(#[trigger] suf.take(k)[j]) by {
            assert(suf.take(k)[j] == suf[j]);
        }
        lemma_digits_val_nonneg(suf.take(k));
    }
    let n64 = match scan_digits(s, pos, usize::MAX as u64) {
        Result::Ok(v) => v,
        Result::Err(_) => {
            proof {
                assert(suf.len() <= usize::MAX);
                assert(parse_str(suf) is None);
            }
            return Result::Err("Unable to parse string length!");
        },
    };
    let n = n64 as usize;
    if *pos > dstart + 1 && s[dstart] == B_ZERO {
        proof {
            assert(parse_str(suf) is None);
        }
        return Result::Err("Needed a non-zero number");
    }
    if *pos == slen {
        proof {
            assert(parse_str(suf) is None);
        }
        return Result::Err("Not enough characters in string");
    }
    if s[*pos] != B_COLON {
        proof {
            assert(suf[k] == s@[start + k]);
            assert(parse_str(suf) is None);
        }
        return Result::Err("Needed a number or colon");
    }
    proof {
        assert(suf[k] == s@[start + k]);
    }
    *pos = *pos + 1;
    if n > slen - *pos {
        proof {
            assert(parse_str(suf) is None);
        }
        return Result::Err("Not enough characters in string");
    }
    let mut out: Vec<u8> = Vec::new();
    out.extend_from_slice(&s[*pos..*pos + n]);
    *pos = *pos + n;
    proof {
        assert(out@ =~= suf.subrange(k + 1, k + 1 + n as int));
        assert(parse_str(suf) == Option::Some((BVal::S(out@), k + 1 + n as int)));
    }
    Result::Ok(Benc::S(out))
}

/// Decode an integer `i<digits>e` at the cursor.
pub fn dec_int(s: &[u8], pos: &mut usize) -> (r: Result<Benc, &'static str>)
    requires
        *old(pos) < s@.len(),
        s@[*old(pos) as int] == B_INT,
    ensures
        dec_post(s@, *old(pos) as int, *final(pos) as int, r),
{
    let ghost start = *old(pos) as int;
    let ghost suf = s@.skip(start);
    let slen = s.len();
    proof {
        assert(suf[0] == s@[start]);
        assert(!is_digit(suf[0]));
    }
    *pos = *pos + 1;
    let neg = *pos < slen && s[*pos] == B_MINUS;
    if neg {
        *pos = *pos + 1;
    }
    let dstart = *pos;
    let ghost digs = s@.skip(dstart as int);
    let ghost k = digit_run(digs) as int;
    proof {
        let body = suf.drop_first();
        assert(body =~= s@.skip(start + 1));
        assert(body.len() > 0 ==> body[0] == s@[start + 1]);
        assert((body.len() > 0 && body[0] == B_MINUS) == neg);
        if neg {
            assert(body.drop_first() =~= s@.skip(start + 2));
            assert(digs =~= body.drop_first());
        } else {
            assert(digs =~= body);
        }
        lemma_digit_run(digs);
        assert forall|j: int| 0 <= j < k implies is_digit(#[trigger] digs.take(k)[j]) by {
            assert(digs.take(k)[j] == digs[j]);
        }
        lemma_digits_val_nonneg(digs.take(k));
    }
    let mag = match scan_digits(s, pos, u64::MAX) {
        Result::Ok(v) => v,
        Result::Err(_) => {
            proof {
                assert(parse_int(suf) is None);
            }
            return Result::Err("Unable to parse integer, too large for i64?");
        },
    };
    if *pos == dstart {
        proof {
            assert(parse_int(suf) is None);
        }
        return Result::Err("Expected a hyphen or a number, failed to decode int");
    }
    if *pos > dstart + 1 && s[dstart] == B_ZERO {
        proof {
            assert(digs[0] == s@[dstart as int]);
            assert(parse_int(suf) is None);
        }
        return Result::Err("Expected an 'e', failed to decode int");
    }
    if neg && mag == 0 {
        proof {
            assert(parse_int(suf) is None);
        }
        return Result::Err("Expected a non-zero number, failed to decode int");
    }
    if *pos == slen {
        proof {
            assert(parse_int(suf) is None);
        }
        return Result::Err("Ran out of characters, failed to decode int");
    }
    if s[*pos] != B_END {
        proof {
            assert(digs[k] == s@[dstart + k]);
            assert(parse_int(suf) is None);
        }
        return Result::Err("Expected a number or 'e', failed to decode int");
    }
    proof {
        assert(digs[k] == s@[dstart + k]);
    }
    if neg {
        if mag > 0x8000_0000_0000_0000u64 {
            proof {
                assert(parse_int(suf) is None);
            }
            return Result::Err("Unable to parse integer, too large for i64?");
        }
        *pos = *pos + 1;
        let val: i64 = if mag == 0x8000_0000_0000_0000u64 {
            i64::MIN
        } else {
            -(mag as i64)
        };
        proof {
            assert(val as int == -(mag as int));
            assert(parse_int(suf) == Option::Some(
                (BVal::I(val as int), *pos - start),
            ));
        }
        Result::Ok(Benc::I(val))
    } else {
        if mag > i64::MAX as u64 {
            proof {
                assert(parse_int(suf) is None);
            }
            return Result::Err("Unable to parse integer, too large for i64?");
        }
        *pos = *pos + 1;
        let val: i64 = mag as i64;
        proof {
            assert(parse_int(suf) == Option::Some(
                (BVal::I(val as int), *pos - start),
            ));
        }
        Result::Ok(Benc::I(val))
    }
}

/// Decode a list `l<values>e` at the cursor.
#[verifier::loop_isolation(false)]
pub fn dec_list(s: &[u8], pos: &mut usize) -> (r: Result<Benc, &'static str>)
    requires
        *old(pos) < s@.len(),
        s@[*old(pos) as int] == B_LIST,
    ensures
        dec_post(s@, *old(pos) as int, *final(pos) as int, r),
    decreases s@.len() - *old(pos), 0int,
{
    broadcast use lemma_seq_bview_len;

    let ghost start = *old(pos) as int;
    let ghost suf = s@.skip(start);
    let slen = s.len();
    proof {
        assert(suf[0] == s@[start]);
        assert(!is_digit(suf[0]));
        assert(suf.drop_first() =~= s@.skip(start + 1));
    }
    *pos = *pos + 1;
    let mut out: Vec<Benc> = Vec::new();
    proof {
        assert(seq_bview(out@) =~= Seq::<BVal>::empty());
        match parse_items(s@.skip(start + 1)) {
            Option::Some((l, _m)) => {
                assert(seq_bview(out@) + l =~= l);
            },
            Option::None => {},
        }
    }
    loop
        invariant
            start + 1 <= *pos as int <= slen as int,
            (match parse_items(s@.skip(*pos as int)) {
                Option::Some((l, m)) => parse_items(s@.skip(start + 1)) == Option::Some(
                    (seq_bview(out@) + l, (*pos - (start + 1)) + m),
                ),
                Option::None => parse_items(s@.skip(start + 1)) is None,
            }),
        decreases slen - *pos,
    {
        let ghost cur = s@.skip(*pos as int);
        if *pos == slen {
            proof {
                assert(cur.len() == 0);
            }
            return Result::Err("Did not find terminal, failed to decode list");
        }
        proof {
            assert(cur[0] == s@[*pos as int]);
        }
        if s[*pos] == B_END {
            *pos = *pos + 1;
            proof {
                assert(parse_items(cur) == Option::Some((Seq::<BVal>::empty(), 1int)));
                assert(seq_bview(out@) + Seq::<BVal>::empty() =~= seq_bview(out@));
            }
            return Result::Ok(Benc::L(out));
        }
        let ghost pos0 = *pos as int;
        match dec_benc_helper(s, pos) {
            Result::Ok(v) => {
                let ghost vv = bview(v);
                let ghost ov = seq_bview(out@);
                out.push(v);
                proof {
                    assert(cur.skip(*pos - pos0) =~= s@.skip(*pos as int));
                    assert(seq_bview(out@) =~= ov + seq![vv]);
                    match parse_items(s@.skip(*pos as int)) {
                        Option::Some((l2, _m2)) => {
                            assert(parse_items(cur) is Some);
                            assert(ov + (seq![vv] + l2) =~= (ov + seq![vv]) + l2);
                        },
                        Option::None => {
                            assert(parse_items(cur) is None);
                        },
                    }
                }
            },
            Result::Err(e) => {
                proof {
                    assert(parse_items(cur) is None);
                }
                return Result::Err(e);
            },
        }
    }
}

/// Decode a dictionary `d(<key string><value>)*e` at the cursor.  Keys must
/// be valid UTF-8; pairs are kept sorted by key as they are inserted, a
/// later duplicate key replacing an earlier one.
#[verifier::loop_isolation(false)]
pub fn dec_dict(s: &[u8], pos: &mut usize) -> (r: Result<Benc, &'static str>)
    requires
        *old(pos) < s@.len(),
        s@[*old(pos) as int] == B_DICT,
    ensures
        dec_post(s@, *old(pos) as int, *final(pos) as int, r),
    decreases s@.len() - *old(pos), 0int,
{
    broadcast use lemma_pairs_bview_len;

    let ghost start = *old(pos) as int;
    let ghost suf = s@.skip(start);
    let slen = s.len();
    proof {
        assert(suf[0] == s@[start]);
        assert(!is_digit(suf[0]));
        assert(suf.drop_first() =~= s@.skip(start + 1));
    }
    *pos = *pos + 1;
    let mut out: Vec<(Vec<u8>, Benc)> = Vec::new();
    let ghost mut ps = Seq::<(Seq<u8>, BVal)>::empty();
    proof {
        assert(pairs_bview(out@) =~= Seq::<(Seq<u8>, BVal)>::empty());
        assert(pairs_bview(out@) == build_dict(ps));
        match parse_pairs(s@.skip(start + 1)) {
            Option::Some((l, _m)) => {
                assert(ps + l =~= l);
            },
            Option::None => {},
        }
    }
    loop
        invariant
            start + 1 <= *pos as int <= slen as int,
            pairs_bview(out@) == build_dict(ps),
            (match parse_pairs(s@.skip(*pos as int)) {
                Option::Some((l, m)) => parse_pairs(s@.skip(start + 1)) == Option::Some(
                    (ps + l, (*pos - (start + 1)) + m),
                ),
                Option::None => parse_pairs(s@.skip(start + 1)) is None,
            }),
        decreases slen - *pos,
    {
        let ghost cur = s@.skip(*pos as int);
        if *pos == slen {
            proof {
                assert(cur.len() == 0);
            }
            return Result::Err("Ran out of characters, failed to decode dict");
        }
        proof {
            assert(cur[0] == s@[*pos as int]);
        }
        if s[*pos] == B_END {
            *pos = *pos + 1;
            proof {
                assert(parse_pairs(cur) == Option::Some(
                    (Seq::<(Seq<u8>, BVal)>::empty(), 1int),
                ));
                assert(ps + Seq::<(Seq<u8>, BVal)>::empty() =~= ps);
            }
            return Result::Ok(Benc::D(out));
        }
        let ghost pos0 = *pos as int;
        let kv = match dec_benc_helper(s, pos) {
            Result::Ok(kv) => kv,
            Result::Err(e) => {
                proof {
                    assert(parse_pairs(cur) is None);
                }
                return Result::Err(e);
            },
        };
        let kb = match kv {
            Benc::S(kb) => kb,
            _ => {
                proof {
                    assert(!(bview(kv) is S));
                    assert(parse_pairs(cur) is None);
                }
                return Result::Err("Expected a String key, failed to decode dict");
            },
        };
        if bytes_to_string(&kb).is_none() {
            proof {
                assert(parse_pairs(cur) is None);
            }
            return Result::Err("Dict key must be valid utf8 string, failed to decode dict");
        }
        let ghost pos1 = *pos as int;
        proof {
            assert(cur.skip(pos1 - pos0) =~= s@.skip(pos1));
        }
        let v = match dec_benc_helper(s, pos) {
            Result::Ok(v) => v,
            Result::Err(e) => {
                proof {
                    assert(parse_pairs(cur) is None);
                }
                return Result::Err(e);
            },
        };
        let ghost kbv = kb@;
        let ghost vv = bview(v);
        let ghost ops = ps;
        dict_insert_exec(&mut out, kb, v);
        proof {
            ps = ps.push((kbv, vv));
            assert(ps.drop_last() =~= ops);
            assert(ps.last() == (kbv, vv));
            assert(build_dict(ps) == dict_insert(build_dict(ops), kbv, vv));
            assert(cur.skip(*pos - pos0) =~= s@.skip(*pos as int));
            match parse_pairs(s@.skip(*pos as int)) {
                Option::Some((l3, _t)) => {
                    assert(parse_pairs(cur) is Some);
                    assert(ops + (seq![(kbv, vv)] + l3) =~= ps + l3);
                },
                Option::None => {
                    assert(parse_pairs(cur) is None);
                },
            }
        }
    }
}

/// Decode one value at the cursor, dispatching on the leading byte.
pub fn dec_benc_helper(s: &[u8], pos: &mut usize) -> (r: Result<Benc, &'static str>)
    requires
        *old(pos) <= s@.len(),
    ensures
        dec_post(s@, *old(pos) as int, *final(pos) as int, r),
    decreases s@.len() - *old(pos), 1int,
{
    let ghost suf = s@.skip(*old(pos) as int);
    if *pos == s.len() {
        proof {
            assert(suf.len() == 0);
        }
        return Result::Err("Unable to decode empty string");
    }
    proof {
        assert(suf[0] == s@[*old(pos) as int]);
    }
    let c = s[*pos];
    if c >= B_ZERO && c <= B_NINE {
        dec_string(s, pos)
    } else if c == B_INT {
        dec_int(s, pos)
    } else if c == B_LIST {
        dec_list(s, pos)
    } else if c == B_DICT {
        dec_dict(s, pos)
    } else {
        Result::Err("Invalid character received!")
    }
}

/// Decode a byte slice holding exactly one value; bytes left over after
/// that value are an error.  A returned tree is well-formed: its
/// dictionaries are key-sorted with valid UTF-8 keys.
pub fn dec_benc_it(s: &[u8]) -> (r: Result<Benc, &'static str>)
    ensures
        match r {
            Result::Ok(v) => spec_parse(s@) == Option::Some((v@, s@.len() as int)) && wf(v@),
            Result::Err(_) => !parses_fully(s@),
        },
{
    let mut pos: usize = 0;
    proof {
        assert(s@.skip(0) =~= s@);
    }
    let v = match dec_benc_helper(s, &mut pos) {
        Result::Ok(v) => v,
        Result::Err(e) => {
            return Result::Err(e);
        },
    };
    if pos != s.len() {
        return Result::Err("Unable to consume whole string!");
    }
    proof {
        lemma_parse_wf(s@);
    }
    Result::Ok(v)
}

/// Decode a byte buffer holding exactly one value.
pub fn dec_benc(s: &Vec<u8>) -> (r: Result<Benc, &'static str>)
    ensures
        match r {
            Result::Ok(v) => spec_parse(s@) == Option::Some((v@, s@.len() as int)) && wf(v@),
            Result::Err(_) => !parses_fully(s@),
        },
{
    dec_benc_it(s.as_slice())
}

} // verus!
