//! The Bencode wire grammar, as pure specification functions.
//!
//! [`spec_encode`] gives the canonical byte sequence of a value;
//! [`spec_parse`] gives the value a byte sequence decodes to, together with
//! how many bytes the value occupies, or `None` when the bytes are not a
//! valid encoding.  The executable codec is proved against these two
//! functions, and the round-trip laws relate them to each other.

use vstd::prelude::*;

use crate::value::{build_dict, lemma_build_dict_wf, pairs_wf, wf, BVal};

verus! {

broadcast use vstd::seq::group_seq_axioms;

/// The byte `'0'`.
pub const B_ZERO: u8 = 48;

/// The byte `'9'`.
pub const B_NINE: u8 = 57;

/// The byte `':'`, ending a string-length token.
pub const B_COLON: u8 = 58;

/// The byte `'-'`, the sign of a negative integer.
pub const B_MINUS: u8 = 45;

/// The byte `'i'`, opening an integer.
pub const B_INT: u8 = 105;

/// The byte `'l'`, opening a list.
pub const B_LIST: u8 = 108;

/// The byte `'d'`, opening a dictionary.
pub const B_DICT: u8 = 100;

/// The byte `'e'`, closing an integer, list, or dictionary.
pub const B_END: u8 = 101;

/// Decimal digit, as a raw byte.
pub open spec fn is_digit(b: u8) -> bool {
    B_ZERO <= b && b <= B_NINE
}

/// Numeric value of a digit byte.
pub open spec fn digit_val(b: u8) -> int {
    b - B_ZERO
}

/// Length of the maximal run of decimal digits at the front of `s`.
pub open spec fn digit_run(s: Seq<u8>) -> nat
    decreases s.len(),
{
    if s.len() > 0 && is_digit(s[0]) {
        (1 + digit_run(s.drop_first())) as nat
    } else {
        0
    }
}

/// Numeric value of a digit sequence, most significant digit first.
pub open spec fn digits_val(s: Seq<u8>) -> int
    decreases s.len(),
{
    if s.len() == 0 {
        0
    } else {
        10 * digits_val(s.drop_last()) + digit_val(s.last())
    }
}

/// The minimal decimal notation of `n >= 0`: no redundant leading zero.
pub open spec fn dec_digits(n: int) -> Seq<u8>
    decreases n,
{
    if n < 10 {
        seq![(B_ZERO + n) as u8]
    } else {
        dec_digits(n / 10).push((B_ZERO + n % 10) as u8)
    }
}

/// The digits of an integer token: an optional minus sign, then the minimal
/// decimal notation of the magnitude.
pub open spec fn int_digits(i: int) -> Seq<u8> {
    if i < 0 {
        seq![B_MINUS] + dec_digits(-i)
    } else {
        dec_digits(i)
    }
}

/// `<byte length>:<raw bytes>` — the encoding of a byte string.
pub open spec fn encode_str(s: Seq<u8>) -> Seq<u8> {
    dec_digits(s.len() as int) + seq![B_COLON] + s
}

/// The canonical encoding of a value.  Dictionary pairs are emitted in
/// stored order, which a well-formed dictionary keeps sorted by key.
pub open spec fn spec_encode(v: BVal) -> Seq<u8>
    decreases v,
{
    match v {
        BVal::S(s) => encode_str(s),
        BVal::I(i) => seq![B_INT] + int_digits(i) + seq![B_END],
        BVal::L(l) => seq![B_LIST] + encode_items(l) + seq![B_END],
        BVal::D(d) => seq![B_DICT] + encode_pairs(d) + seq![B_END],
    }
}

/// Concatenated encodings of list elements.
pub open spec fn encode_items(l: Seq<BVal>) -> Seq<u8>
    decreases l,
{
    if l.len() == 0 {
        Seq::empty()
    } else {
        spec_encode(l[0]) + encode_items(l.drop_first())
    }
}

/// Concatenated `<key string><value>` encodings of dictionary pairs.
pub open spec fn encode_pairs(d: Seq<(Seq<u8>, BVal)>) -> Seq<u8>
    decreases d,
{
    if d.len() == 0 {
        Seq::empty()
    } else {
        encode_str(d[0].0) + spec_encode(d[0].1) + encode_pairs(d.drop_first())
    }
}

/// Parse one value at the front of `s`: the value and the number of bytes
/// it occupies, or `None` when `s` does not begin with a valid encoding.
pub open spec fn spec_parse(s: Seq<u8>) -> Option<(BVal, int)>
    decreases s.len(), 0int,
{
    if s.len() == 0 {
        Option::None
    } else if is_digit(s[0]) {
        parse_str(s)
    } else if s[0] == B_INT {
        parse_int(s)
    } else if s[0] == B_LIST {
        match parse_items(s.drop_first()) {
            Option::Some((l, n)) => Option::Some((BVal::L(l), 1 + n)),
            Option::None => Option::None,
        }
    } else if s[0] == B_DICT {
        match parse_pairs(s.drop_first()) {
            Option::Some((ps, n)) => Option::Some((BVal::D(build_dict(ps)), 1 + n)),
            Option::None => Option::None,
        }
    } else {
        Option::None
    }
}

/// `<len>:<len bytes>`.  The length token is a digit run with no redundant
/// leading zero, and at least `len` bytes must follow the colon.
pub open spec fn parse_str(s: Seq<u8>) -> Option<(BVal, int)> {
    let k = digit_run(s) as int;
    let n = digits_val(s.take(k));
    if k == 0 || (k > 1 && s[0] == B_ZERO) {
        Option::None
    } else if k < s.len() && s[k] == B_COLON && k + 1 + n <= s.len() {
        Option::Some((BVal::S(s.subrange(k + 1, k + 1 + n)), k + 1 + n))
    } else {
        Option::None
    }
}

/// `i<digits>e` with an optional leading minus: no empty digit run, no
/// redundant leading zero, no negative zero, and the value must fit `i64`.
pub open spec fn parse_int(s: Seq<u8>) -> Option<(BVal, int)> {
    let body = s.drop_first();
    let neg = body.len() > 0 && body[0] == B_MINUS;
    let digs = if neg {
        body.drop_first()
    } else {
        body
    };
    let k = digit_run(digs) as int;
    let mag = digits_val(digs.take(k));
    let val = if neg {
        -mag
    } else {
        mag
    };
    if k == 0 || (k > 1 && digs[0] == B_ZERO) || (neg && mag == 0) {
        Option::None
    } else if k < digs.len() && digs[k] == B_END && i64::MIN <= val && val <= i64::MAX {
        Option::Some((BVal::I(val), 1 + (if neg { 1int } else { 0int }) + k + 1))
    } else {
        Option::None
    }
}

/// List elements up to and including the terminating `e`.
pub open spec fn parse_items(s: Seq<u8>) -> Option<(Seq<BVal>, int)>
    decreases s.len(), 1int,
{
    if s.len() == 0 {
        Option::None
    } else if s[0] == B_END {
        Option::Some((Seq::empty(), 1))
    } else {
        match spec_parse(s) {
            Option::Some((v, n)) => if 0 < n <= s.len() {
                match parse_items(s.skip(n)) {
                    Option::Some((l, m)) => Option::Some((seq![v] + l, n + m)),
                    Option::None => Option::None,
                }
            } else {
                Option::None
            },
            Option::None => Option::None,
        }
    }
}

/// Dictionary pairs up to and including the terminating `e`, in the order
/// they stand in the input.  Each key must be a byte string and valid UTF-8.
pub open spec fn parse_pairs(s: Seq<u8>) -> Option<(Seq<(Seq<u8>, BVal)>, int)>
    decreases s.len(), 1int,
{
    if s.len() == 0 {
        Option::None
    } else if s[0] == B_END {
        Option::Some((Seq::empty(), 1))
    } else {
        match spec_parse(s) {
            Option::Some((BVal::S(key), n)) => if vstd::utf8::valid_utf8(key) && 0 < n <= s.len() {
                match spec_parse(s.skip(n)) {
                    Option::Some((v, m)) => if 0 < m <= s.len() - n {
                        match parse_pairs(s.skip(n + m)) {
                            Option::Some((ps, t)) => Option::Some(
                                (seq![(key, v)] + ps, n + m + t),
                            ),
                            Option::None => Option::None,
                        }
                    } else {
                        Option::None
                    },
                    Option::None => Option::None,
                }
            } else {
                Option::None
            },
            Option::Some(_) => Option::None,
            Option::None => Option::None,
        }
    }
}

/// The minimal decimal notation of `n`: at least one digit, every byte a
/// digit, value `n`, and no redundant leading zero.
pub proof fn lemma_dec_digits(n: int)
    requires
        0 <= n,
    ensures
        dec_digits(n).len() >= 1,
        forall|i: int| 0 <= i < dec_digits(n).len() ==> is_digit(#[trigger] dec_digits(n)[i]),
        digits_val(dec_digits(n)) == n,
        n == 0 ==> dec_digits(n) =~= seq![B_ZERO],
        n > 0 ==> dec_digits(n)[0] != B_ZERO,
        n < 10 ==> dec_digits(n).len() == 1,
        n >= 10 ==> dec_digits(n).len() >= 2,
    decreases n,
{
    if n < 10 {
        let d = (B_ZERO + n) as u8;
        assert(dec_digits(n) == seq![d]);
        assert(seq![d].drop_last() =~= Seq::<u8>::empty());
        assert(seq![d].last() == d);
        assert(digits_val(Seq::<u8>::empty()) == 0);
        assert(digits_val(seq![d]) == digit_val(d));
        assert(digit_val(d) == n);
    } else {
        lemma_dec_digits(n / 10);
        vstd::arithmetic::div_mod::lemma_fundamental_div_mod(n, 10);
        let s = dec_digits(n / 10);
        let d = (B_ZERO + n % 10) as u8;
        assert(s.push(d).drop_last() =~= s);
        assert(s.push(d).last() == d);
        assert(digit_val(d) == n % 10);
        assert(digits_val(s.push(d)) == 10 * digits_val(s) + digit_val(d));
    }
}

/// The maximal digit run never passes the end of the input, covers only
/// digits, and stops at the first non-digit.
pub proof fn lemma_digit_run(s: Seq<u8>)
    ensures
        digit_run(s) <= s.len(),
        forall|i: int| 0 <= i < digit_run(s) ==> is_digit(#[trigger] s[i]),
        digit_run(s) < s.len() ==> !is_digit(s[digit_run(s) as int]),
    decreases s.len(),
{
    if s.len() > 0 && is_digit(s[0]) {
        lemma_digit_run(s.drop_first());
        assert forall|i: int| 0 <= i < digit_run(s) implies is_digit(#[trigger] s[i]) by {
            if i > 0 {
                assert(s.drop_first()[i - 1] == s[i]);
            }
        }
        if digit_run(s) < s.len() {
            assert(s.drop_first()[digit_run(s) as int - 1] == s[digit_run(s) as int]);
        }
    }
}

/// A run of digits followed by anything that does not start with a digit is
/// scanned to exactly the run's length.
pub proof fn lemma_digit_run_concat(a: Seq<u8>, b: Seq<u8>)
    requires
        forall|i: int| 0 <= i < a.len() ==> is_digit(#[trigger] a[i]),
        b.len() > 0 ==> !is_digit(b[0]),
    ensures
        digit_run(a + b) == a.len(),
    decreases a.len(),
{
    if a.len() == 0 {
        assert(a + b =~= b);
    } else {
        lemma_digit_run_concat(a.drop_first(), b);
        assert forall|i: int| 0 <= i < a.drop_first().len() implies is_digit(
            #[trigger] a.drop_first()[i],
        ) by {
            assert(a.drop_first()[i] == a[i + 1]);
        }
        assert((a + b).drop_first() =~= a.drop_first() + b);
    }
}

/// A digit sequence has a non-negative value.
pub proof fn lemma_digits_val_nonneg(s: Seq<u8>)
    requires
        forall|i: int| 0 <= i < s.len() ==> is_digit(#[trigger] s[i]),
    ensures
        digits_val(s) >= 0,
    decreases s.len(),
{
    if s.len() > 0 {
        assert forall|i: int| 0 <= i < s.drop_last().len() implies is_digit(
            #[trigger] s.drop_last()[i],
        ) by {
            assert(s.drop_last()[i] == s[i]);
        }
        lemma_digits_val_nonneg(s.drop_last());
    }
}

/// Reading one more digit multiplies the prefix value by ten and adds it.
pub proof fn lemma_digits_val_take_step(s: Seq<u8>, i: int)
    requires
        0 <= i < s.len(),
    ensures
        digits_val(s.take(i + 1)) == 10 * digits_val(s.take(i)) + digit_val(s[i]),
{
    assert(s.take(i + 1).drop_last() =~= s.take(i));
    assert(s.take(i + 1).last() == s[i]);
}

/// The value of a digit sequence grows with its prefixes.
pub proof fn lemma_digits_val_take_mono(s: Seq<u8>, i: int, j: int)
    requires
        forall|k: int| 0 <= k < j ==> is_digit(#[trigger] s[k]),
        0 <= i <= j <= s.len(),
    ensures
        digits_val(s.take(i)) <= digits_val(s.take(j)),
    decreases j - i,
{
    if i < j {
        lemma_digits_val_take_mono(s, i, j - 1);
        assert forall|k: int| 0 <= k < s.take(j - 1).len() implies is_digit(
            #[trigger] s.take(j - 1)[k],
        ) by {
            assert(s.take(j - 1)[k] == s[k]);
        }
        lemma_digits_val_nonneg(s.take(j - 1));
        lemma_digits_val_take_step(s, j - 1);
    }
}

/// A prefix of digits means the maximal run is at least that long.
pub proof fn lemma_digit_run_at_least(s: Seq<u8>, m: int)
    requires
        0 <= m <= s.len(),
        forall|j: int| 0 <= j < m ==> is_digit(#[trigger] s[j]),
    ensures
        digit_run(s) >= m,
    decreases m,
{
    if m > 0 {
        assert(is_digit(s[0]));
        assert forall|j: int| 0 <= j < m - 1 implies is_digit(#[trigger] s.drop_first()[j]) by {
            assert(s.drop_first()[j] == s[j + 1]);
        }
        lemma_digit_run_at_least(s.drop_first(), m - 1);
    }
}

/// Scanning digits stops exactly at the first non-digit, or at the end.
pub proof fn lemma_digit_run_exact(s: Seq<u8>, m: int)
    requires
        0 <= m <= s.len(),
        forall|j: int| 0 <= j < m ==> is_digit(#[trigger] s[j]),
        m == s.len() || !is_digit(s[m]),
    ensures
        digit_run(s) == m,
{
    lemma_digit_run_at_least(s, m);
    lemma_digit_run(s);
}

/// Whatever parses is well-formed, and occupies at least one byte and at
/// most the whole input.
pub proof fn lemma_parse_wf(s: Seq<u8>)
    ensures
        match spec_parse(s) {
            Option::Some((v, n)) => wf(v) && 0 < n <= s.len(),
            Option::None => true,
        },
    decreases s.len(), 0int,
{
    if s.len() == 0 {
    } else if is_digit(s[0]) {
        lemma_digit_run(s);
        let k = digit_run(s) as int;
        assert forall|i: int| 0 <= i < s.take(k).len() implies is_digit(
            #[trigger] s.take(k)[i],
        ) by {
            assert(s.take(k)[i] == s[i]);
        }
        lemma_digits_val_nonneg(s.take(k));
    } else if s[0] == B_INT {
    } else if s[0] == B_LIST {
        lemma_parse_items_wf(s.drop_first());
    } else if s[0] == B_DICT {
        lemma_parse_pairs_wf(s.drop_first());
        match parse_pairs(s.drop_first()) {
            Option::Some((ps, _n)) => {
                lemma_build_dict_wf(ps);
            },
            Option::None => {},
        }
    }
}

/// Whatever a list body parses to is element-wise well-formed, and the body
/// with its terminator occupies at least one byte and at most the input.
pub proof fn lemma_parse_items_wf(s: Seq<u8>)
    ensures
        match parse_items(s) {
            Option::Some((l, n)) => (forall|i: int| 0 <= i < l.len() ==> wf(#[trigger] l[i])) && 0
                < n <= s.len(),
            Option::None => true,
        },
    decreases s.len(), 1int,
{
    if s.len() == 0 || s[0] == B_END {
    } else {
        lemma_parse_wf(s);
        match spec_parse(s) {
            Option::Some((v, n)) => {
                if 0 < n <= s.len() {
                    lemma_parse_items_wf(s.skip(n));
                    match parse_items(s.skip(n)) {
                        Option::Some((l, _m)) => {
                            assert forall|i: int| 0 <= i < (seq![v] + l).len() implies wf(
                                #[trigger] (seq![v] + l)[i],
                            ) by {
                                if i > 0 {
                                    assert((seq![v] + l)[i] == l[i - 1]);
                                }
                            }
                        },
                        Option::None => {},
                    }
                }
            },
            Option::None => {},
        }
    }
}

/// Whatever a dictionary body parses to is a pair list with valid UTF-8
/// keys and well-formed values, occupying at least one byte and at most the
/// input.
pub proof fn lemma_parse_pairs_wf(s: Seq<u8>)
    ensures
        match parse_pairs(s) {
            Option::Some((ps, n)) => pairs_wf(ps) && 0 < n <= s.len(),
            Option::None => true,
        },
    decreases s.len(), 1int,
{
    if s.len() == 0 || s[0] == B_END {
    } else {
        lemma_parse_wf(s);
        match spec_parse(s) {
            Option::Some((kv, n)) => {
                if kv is S && vstd::utf8::valid_utf8(kv->S_0) && 0 < n <= s.len() {
                    let key = kv->S_0;
                    lemma_parse_wf(s.skip(n));
                    match spec_parse(s.skip(n)) {
                        Option::Some((v, m)) => {
                            if 0 < m <= s.len() - n {
                                lemma_parse_pairs_wf(s.skip(n + m));
                                assert(s.skip(n).skip(m) =~= s.skip(n + m));
                                match parse_pairs(s.skip(n + m)) {
                                    Option::Some((ps, _t)) => {
                                        let full = seq![(key, v)] + ps;
                                        assert forall|i: int|
                                            0 <= i < full.len() implies vstd::utf8::valid_utf8(
                                            #[trigger] full[i].0,
                                        ) && wf(full[i].1) by {
                                            if i > 0 {
                                                assert(full[i] == ps[i - 1]);
                                                assert(vstd::utf8::valid_utf8(ps[i - 1].0) && wf(
                                                    ps[i - 1].1,
                                                ));
                                            }
                                        }
                                    },
                                    Option::None => {},
                                }
                            }
                        },
                        Option::None => {},
                    }
                }
            },
            Option::None => {},
        }
    }
}

/// The whole of `s` is exactly one encoded value.
pub open spec fn parses_fully(s: Seq<u8>) -> bool {
    match spec_parse(s) {
        Option::Some((_, n)) => n == s.len(),
        Option::None => false,
    }
}

} // verus!
