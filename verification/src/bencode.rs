//! Bencode value trees with a verified encoder and decoder.
//!
//! `encode` turns a value tree into bytes; `decode` reads a sequence of
//! concatenated top-level values back. The decoder is canonical: it accepts
//! exactly the byte strings that `encode` produces, so decoding an encoding
//! gives back the original tree (`lemma_round_trip`).

use vstd::prelude::*;

verus! {

broadcast use
    vstd::seq::axiom_seq_index_decreases,
    vstd::seq::axiom_seq_subrange_decreases,
    vstd::std_specs::vec::axiom_vec_index_decreases,
;

/// Byte tags of the wire format.
pub const TAG_INT: u8 = 105;

pub const TAG_LIST: u8 = 108;

pub const TAG_DICT: u8 = 100;

pub const TAG_END: u8 = 101;

pub const TAG_COLON: u8 = 58;

pub const TAG_MINUS: u8 = 45;

pub const TAG_ZERO: u8 = 48;

/// The mathematical shape of a bencode value tree.
pub enum SpecValue {
    Bytes(Seq<u8>),
    Int(int),
    List(Seq<SpecValue>),
    Dict(Seq<(Seq<u8>, SpecValue)>),
}

/// A bencode value: byte string, integer, list, or dictionary held as a
/// key/value pair sequence in decoded order.
#[derive(Debug, PartialEq)]
pub enum Value {
    Bytes(Vec<u8>),
    Int(i64),
    List(Vec<Value>),
    Dict(Vec<(Vec<u8>, Value)>),
}

pub open spec fn value_view(v: Value) -> SpecValue
    decreases v, 0int,
{
    match v {
        Value::Bytes(b) => SpecValue::Bytes(b@),
        Value::Int(n) => SpecValue::Int(n as int),
        Value::List(items) => SpecValue::List(view_items(items, 0)),
        Value::Dict(pairs) => SpecValue::Dict(view_pairs(pairs, 0)),
    }
}

pub open spec fn view_items(items: Vec<Value>, i: int) -> Seq<SpecValue>
    decreases items, items.len() - i,
{
    if i < 0 || i >= items.len() {
        Seq::empty()
    } else {
        seq![value_view(items[i])] + view_items(items, i + 1)
    }
}

pub open spec fn view_pairs(pairs: Vec<(Vec<u8>, Value)>, i: int) -> Seq<(Seq<u8>, SpecValue)>
    decreases pairs, pairs.len() - i,
{
    if i < 0 || i >= pairs.len() {
        Seq::empty()
    } else {
        seq![(pairs[i].0@, value_view(pairs[i].1))] + view_pairs(pairs, i + 1)
    }
}

impl View for Value {
    type V = SpecValue;

    open spec fn view(&self) -> SpecValue {
        value_view(*self)
    }
}

pub proof fn lemma_view_items(items: Vec<Value>, i: int)
    requires
        0 <= i <= items.len(),
    ensures
        view_items(items, i).len() == items.len() - i,
        forall|j: int|
            0 <= j < items.len() - i ==> view_items(items, i)[j] == value_view(items@[i + j]),
    decreases items.len() - i,
{
    if i < items.len() {
        lemma_view_items(items, i + 1);
    }
}

pub proof fn lemma_view_pairs(pairs: Vec<(Vec<u8>, Value)>, i: int)
    requires
        0 <= i <= pairs.len(),
    ensures
        view_pairs(pairs, i).len() == pairs.len() - i,
        forall|j: int|
            0 <= j < pairs.len() - i ==> view_pairs(pairs, i)[j] == (
                pairs@[i + j].0@,
                value_view(pairs@[i + j].1),
            ),
    decreases pairs.len() - i,
{
    if i < pairs.len() {
        lemma_view_pairs(pairs, i + 1);
    }
}

/// Decimal digits of `n`, most significant first, no leading zeros.
pub open spec fn spec_digits(n: nat) -> Seq<u8>
    decreases n,
{
    if n < 10 {
        seq![(48 + n) as u8]
    } else {
        spec_digits(n / 10) + seq![(48 + n % 10) as u8]
    }
}

/// Digits of the integer with a leading minus sign when negative.
pub open spec fn spec_int_bytes(n: int) -> Seq<u8> {
    if n < 0 {
        seq![TAG_MINUS] + spec_digits((-n) as nat)
    } else {
        spec_digits(n as nat)
    }
}

/// Length prefix, colon, payload: the encoding of one byte string.
pub open spec fn spec_str_encode(b: Seq<u8>) -> Seq<u8> {
    spec_digits(b.len()) + seq![TAG_COLON] + b
}

/// The bytes that `encode` produces for a value tree.
pub open spec fn spec_encode(v: SpecValue) -> Seq<u8>
    decreases v,
{
    match v {
        SpecValue::Bytes(b) => spec_str_encode(b),
        SpecValue::Int(n) => seq![TAG_INT] + spec_int_bytes(n) + seq![TAG_END],
        SpecValue::List(items) => seq![TAG_LIST] + spec_encode_seq(items) + seq![TAG_END],
        SpecValue::Dict(pairs) => seq![TAG_DICT] + spec_encode_pairs(pairs) + seq![TAG_END],
    }
}

pub open spec fn spec_encode_seq(items: Seq<SpecValue>) -> Seq<u8>
    decreases items,
{
    if items.len() == 0 {
        Seq::empty()
    } else {
        spec_encode(items[0]) + spec_encode_seq(items.subrange(1, items.len() as int))
    }
}

pub open spec fn spec_encode_pairs(pairs: Seq<(Seq<u8>, SpecValue)>) -> Seq<u8>
    decreases pairs,
{
    if pairs.len() == 0 {
        Seq::empty()
    } else {
        spec_str_encode(pairs[0].0) + spec_encode(pairs[0].1) + spec_encode_pairs(
            pairs.subrange(1, pairs.len() as int),
        )
    }
}

/// Failure of `decode`: truncated input, a bad tag, an unterminated
/// structure, or a malformed length or integer literal.
#[derive(Debug, Clone, Copy, PartialEq, Eq, Structural)]
pub struct ParseError;

pub open spec fn is_digit(b: u8) -> bool {
    48 <= b <= 57
}

/// Number of leading decimal digits.
pub open spec fn digit_run(s: Seq<u8>) -> nat
    decreases s.len(),
{
    if s.len() > 0 && is_digit(s[0]) {
        1 + digit_run(s.subrange(1, s.len() as int))
    } else {
        0
    }
}

/// Value of a digit sequence read in base ten.
pub open spec fn digits_val(s: Seq<u8>) -> nat
    decreases s.len(),
{
    if s.len() == 0 {
        0nat
    } else {
        (digits_val(s.subrange(0, s.len() - 1)) * 10 + (s[s.len() - 1] - 48)) as nat
    }
}

pub open spec fn pow10(k: nat) -> nat
    decreases k,
{
    if k == 0 {
        1nat
    } else {
        10 * pow10((k - 1) as nat)
    }
}

/// A byte string at the front of `s`: canonical length digits, a colon,
/// the payload. Result: payload and bytes consumed.
pub open spec fn spec_parse_str(s: Seq<u8>) -> Option<(Seq<u8>, int)> {
    let k = digit_run(s) as int;
    if k == 0 || k > 19 {
        None
    } else if k > 1 && s[0] == TAG_ZERO {
        None
    } else {
        let n = digits_val(s.subrange(0, k)) as int;
        if k < s.len() && s[k] == TAG_COLON && k + 1 + n <= s.len() {
            Some((s.subrange(k + 1, k + 1 + n), k + 1 + n))
        } else {
            None
        }
    }
}

/// An integer body after the `i` tag: canonical digits with an optional
/// sign, closed by the end tag. Result: value and bytes consumed.
pub open spec fn spec_parse_int_tail(t: Seq<u8>) -> Option<(i64, int)> {
    if t.len() > 0 && t[0] == TAG_MINUS {
        let u = t.subrange(1, t.len() as int);
        let k = digit_run(u) as int;
        if k == 0 || k > 19 {
            None
        } else if u[0] == TAG_ZERO {
            None
        } else {
            let m = digits_val(u.subrange(0, k)) as int;
            if m <= 0x8000_0000_0000_0000 && k < u.len() && u[k] == TAG_END {
                Some(((-m) as i64, 2 + k))
            } else {
                None
            }
        }
    } else {
        let k = digit_run(t) as int;
        if k == 0 || k > 19 {
            None
        } else if k > 1 && t[0] == TAG_ZERO {
            None
        } else {
            let m = digits_val(t.subrange(0, k)) as int;
            if m <= 0x7fff_ffff_ffff_ffff && k < t.len() && t[k] == TAG_END {
                Some((m as i64, 1 + k))
            } else {
                None
            }
        }
    }
}

/// One value at the front of `s`. Result: value and bytes consumed.
pub open spec fn spec_parse_value(s: Seq<u8>) -> Option<(SpecValue, int)>
    decreases s.len(), 0int,
{
    if s.len() == 0 {
        None
    } else if s[0] == TAG_INT {
        match spec_parse_int_tail(s.subrange(1, s.len() as int)) {
            Some((n, c)) => Some((SpecValue::Int(n as int), 1 + c)),
            None => None,
        }
    } else if s[0] == TAG_LIST {
        match spec_parse_items(s.subrange(1, s.len() as int)) {
            Some((items, c)) => Some((SpecValue::List(items), 1 + c)),
            None => None,
        }
    } else if s[0] == TAG_DICT {
        match spec_parse_pairs(s.subrange(1, s.len() as int)) {
            Some((pairs, c)) => Some((SpecValue::Dict(pairs), 1 + c)),
            None => None,
        }
    } else if is_digit(s[0]) {
        match spec_parse_str(s) {
            Some((b, c)) => Some((SpecValue::Bytes(b), c)),
            None => None,
        }
    } else {
        None
    }
}

/// List elements up to and including the end tag.
pub open spec fn spec_parse_items(s: Seq<u8>) -> Option<(Seq<SpecValue>, int)>
    decreases s.len(), 1int,
{
    if s.len() == 0 {
        None
    } else if s[0] == TAG_END {
        Some((Seq::empty(), 1))
    } else {
        match spec_parse_value(s) {
            Some((v, c)) => if 1 <= c <= s.len() {
                match spec_parse_items(s.subrange(c, s.len() as int)) {
                    Some((rest, c2)) => Some((seq![v] + rest, c + c2)),
                    None => None,
                }
            } else {
                None
            },
            None => None,
        }
    }
}

/// Dictionary entries up to and including the end tag; each key is a byte
/// string followed by its value.
pub open spec fn spec_parse_pairs(s: Seq<u8>) -> Option<(Seq<(Seq<u8>, SpecValue)>, int)>
    decreases s.len(), 1int,
{
    if s.len() == 0 {
        None
    } else if s[0] == TAG_END {
        Some((Seq::empty(), 1))
    } else {
        match spec_parse_str(s) {
            Some((key, ck)) => if 1 <= ck <= s.len() {
                match spec_parse_value(s.subrange(ck, s.len() as int)) {
                    Some((v, cv)) => if 1 <= cv <= s.len() - ck {
                        match spec_parse_pairs(s.subrange(ck + cv, s.len() as int)) {
                            Some((rest, c2)) => Some((seq![(key, v)] + rest, ck + cv + c2)),
                            None => None,
                        }
                    } else {
                        None
                    },
                    None => None,
                }
            } else {
                None
            },
            None => None,
        }
    }
}

/// All concatenated top-level values of `s`, or `None` where any byte
/// fails to parse.
pub open spec fn spec_parse_all(s: Seq<u8>) -> Option<Seq<SpecValue>>
    decreases s.len(), 2int,
{
    if s.len() == 0 {
        Some(Seq::empty())
    } else {
        match spec_parse_value(s) {
            Some((v, c)) => if 1 <= c <= s.len() {
                match spec_parse_all(s.subrange(c, s.len() as int)) {
                    Some(rest) => Some(seq![v] + rest),
                    None => None,
                }
            } else {
                None
            },
            None => None,
        }
    }
}

proof fn lemma_encode_seq_push(items: Seq<SpecValue>, x: SpecValue)
    ensures
        spec_encode_seq(items.push(x)) == spec_encode_seq(items) + spec_encode(x),
    decreases items.len(),
{
    if items.len() == 0 {
        assert(items.push(x)[0] == x);
        assert(items.push(x).subrange(1, 1) =~= Seq::<SpecValue>::empty());
        assert(spec_encode_seq(Seq::<SpecValue>::empty()) =~= Seq::<u8>::empty());
        assert(spec_encode_seq(items.push(x)) =~= spec_encode(x));
        assert(spec_encode_seq(items) + spec_encode(x) =~= spec_encode(x));
    } else {
        let tail = items.subrange(1, items.len() as int);
        assert(items.push(x).subrange(1, items.push(x).len() as int) =~= tail.push(x));
        lemma_encode_seq_push(tail, x);
        assert(spec_encode_seq(items.push(x)) =~= spec_encode_seq(items) + spec_encode(x));
    }
}

proof fn lemma_encode_pairs_push(pairs: Seq<(Seq<u8>, SpecValue)>, x: (Seq<u8>, SpecValue))
    ensures
        spec_encode_pairs(pairs.push(x)) == spec_encode_pairs(pairs) + spec_str_encode(x.0)
            + spec_encode(x.1),
    decreases pairs.len(),
{
    if pairs.len() == 0 {
        assert(pairs.push(x)[0] == x);
        assert(pairs.push(x).subrange(1, 1) =~= Seq::<(Seq<u8>, SpecValue)>::empty());
        assert(spec_encode_pairs(Seq::<(Seq<u8>, SpecValue)>::empty()) =~= Seq::<u8>::empty());
        assert(spec_encode_pairs(pairs.push(x)) =~= spec_str_encode(x.0) + spec_encode(x.1));
        assert(spec_encode_pairs(pairs) + spec_str_encode(x.0) + spec_encode(x.1)
            =~= spec_str_encode(x.0) + spec_encode(x.1));
    } else {
        let tail = pairs.subrange(1, pairs.len() as int);
        assert(pairs.push(x).subrange(1, pairs.push(x).len() as int) =~= tail.push(x));
        lemma_encode_pairs_push(tail, x);
        assert(spec_encode_pairs(pairs.push(x)) =~= spec_encode_pairs(pairs) + spec_str_encode(x.0)
            + spec_encode(x.1));
    }
}

/// Appends the decimal digits of `n`, most significant first.
fn push_decimal(n: u64, out: &mut Vec<u8>)
    ensures
        final(out)@ == old(out)@ + spec_digits(n as nat),
    decreases n,
{
    if n >= 10 {
        push_decimal(n / 10, out);
        out.push(48 + (n % 10) as u8);
        assert(out@ =~= old(out)@ + spec_digits(n as nat));
    } else {
        out.push(48 + n as u8);
        assert(out@ =~= old(out)@ + spec_digits(n as nat));
    }
}

/// Appends the length prefix, the colon, and the payload of one byte string.
fn push_str(b: &Vec<u8>, out: &mut Vec<u8>)
    ensures
        final(out)@ == old(out)@ + spec_str_encode(b@),
{
    push_decimal(b.len() as u64, out);
    out.push(TAG_COLON);
    let ghost mid = out@;
    let mut i: usize = 0;
    while i < b.len()
        invariant
            i <= b.len(),
            mid == old(out)@ + spec_digits(b@.len()) + seq![TAG_COLON],
            out@ == mid + b@.subrange(0, i as int),
        decreases b.len() - i,
    {
        out.push(b[i]);
        assert(out@ =~= mid + b@.subrange(0, i + 1));
        i += 1;
    }
    assert(b@.subrange(0, b.len() as int) =~= b@);
    assert(out@ =~= old(out)@ + spec_str_encode(b@));
}

/// Appends the encoding of `v`.
fn encode_into(v: &Value, out: &mut Vec<u8>)
    ensures
        final(out)@ == old(out)@ + spec_encode(v@),
    decreases v,
{
    match v {
        Value::Bytes(b) => {
            push_str(b, out);
        },
        Value::Int(n) => {
            out.push(TAG_INT);
            let m = *n;
            if m < 0 {
                out.push(TAG_MINUS);
                let mag: u64 = if m == i64::MIN {
                    9223372036854775808u64
                } else {
                    (-m) as u64
                };
                push_decimal(mag, out);
            } else {
                push_decimal(m as u64, out);
            }
            out.push(TAG_END);
            assert(out@ =~= old(out)@ + spec_encode(v@));
        },
        Value::List(items) => {
            out.push(TAG_LIST);
            proof {
                lemma_view_items(*items, 0);
            }
            let ghost vs = view_items(*items, 0);
            let mut i: usize = 0;
            while i < items.len()
                invariant
                    *v == Value::List(*items),
                    i <= items.len(),
                    vs == view_items(*items, 0),
                    vs.len() == items.len(),
                    forall|j: int| 0 <= j < items.len() ==> vs[j] == value_view(items@[j]),
                    out@ == old(out)@ + seq![TAG_LIST] + spec_encode_seq(vs.subrange(0, i as int)),
                decreases items.len() - i,
            {
                proof {
                    let ghost gv = *v;
                    assert(gv is List);
                    assert(decreases_to!(gv => gv->List_0));
                    assert(gv->List_0 == *items);
                    assert(decreases_to!(*items => items[i as int]));
                }
                encode_into(&items[i], out);
                proof {
                    lemma_encode_seq_push(vs.subrange(0, i as int), vs[i as int]);
                    assert(vs.subrange(0, i + 1) =~= vs.subrange(0, i as int).push(vs[i as int]));
                    assert(out@ =~= old(out)@ + seq![TAG_LIST] + spec_encode_seq(
                        vs.subrange(0, i + 1),
                    ));
                }
                i += 1;
            }
            out.push(TAG_END);
            proof {
                assert(vs.subrange(0, vs.len() as int) =~= vs);
                assert(out@ =~= old(out)@ + spec_encode(v@));
            }
        },
        Value::Dict(pairs) => {
            out.push(TAG_DICT);
            proof {
                lemma_view_pairs(*pairs, 0);
            }
            let ghost ps = view_pairs(*pairs, 0);
            let mut i: usize = 0;
            while i < pairs.len()
                invariant
                    *v == Value::Dict(*pairs),
                    i <= pairs.len(),
                    ps == view_pairs(*pairs, 0),
                    ps.len() == pairs.len(),
                    forall|j: int|
                        0 <= j < pairs.len() ==> ps[j] == (pairs@[j].0@, value_view(pairs@[j].1)),
                    out@ == old(out)@ + seq![TAG_DICT] + spec_encode_pairs(ps.subrange(0, i as int)),
                decreases pairs.len() - i,
            {
                let p = &pairs[i];
                push_str(&p.0, out);
                proof {
                    let ghost gv = *v;
                    assert(gv is Dict);
                    assert(decreases_to!(gv => gv->Dict_0));
                    assert(gv->Dict_0 == *pairs);
                    assert(decreases_to!(*pairs => pairs[i as int]));
                    assert(decreases_to!(pairs[i as int] => pairs[i as int].1));
                }
                encode_into(&p.1, out);
                proof {
                    lemma_encode_pairs_push(ps.subrange(0, i as int), ps[i as int]);
                    assert(ps.subrange(0, i + 1) =~= ps.subrange(0, i as int).push(ps[i as int]));
                    assert(out@ =~= old(out)@ + seq![TAG_DICT] + spec_encode_pairs(
                        ps.subrange(0, i + 1),
                    ));
                }
                i += 1;
            }
            out.push(TAG_END);
            proof {
                assert(ps.subrange(0, ps.len() as int) =~= ps);
                assert(out@ =~= old(out)@ + spec_encode(v@));
            }
        },
    }
}

/// Encodes one bencode value tree into bytes.
pub fn encode(v: &Value) -> (r: Vec<u8>)
    ensures
        r@ == spec_encode(v@),
{
    let mut out: Vec<u8> = Vec::new();
    encode_into(v, &mut out);
    proof {
        assert(out@ =~= spec_encode(v@));
    }
    out
}

proof fn lemma_digit_run_digits(t: Seq<u8>)
    ensures
        digit_run(t) <= t.len(),
        forall|j: int| 0 <= j < digit_run(t) ==> is_digit(#[trigger] t[j]),
        digit_run(t) < t.len() ==> !is_digit(t[digit_run(t) as int]),
    decreases t.len(),
{
    if t.len() > 0 && is_digit(t[0]) {
        let u = t.subrange(1, t.len() as int);
        lemma_digit_run_digits(u);
        assert forall|j: int| 0 <= j < digit_run(t) implies is_digit(#[trigger] t[j]) by {
            if j > 0 {
                assert(is_digit(u[j - 1]));
            }
        }
    }
}

proof fn lemma_digits_val_bound(s: Seq<u8>)
    requires
        forall|j: int| 0 <= j < s.len() ==> is_digit(#[trigger] s[j]),
    ensures
        digits_val(s) < pow10(s.len()),
    decreases s.len(),
{
    if s.len() > 0 {
        let p = s.subrange(0, s.len() - 1);
        lemma_digits_val_bound(p);
    }
}

proof fn lemma_pow10_mono(a: nat, b: nat)
    requires
        a <= b,
    ensures
        pow10(a) <= pow10(b),
    decreases b,
{
    if a < b {
        lemma_pow10_mono(a, (b - 1) as nat);
    }
}

proof fn lemma_pow10_values()
    ensures
        pow10(18) == 1_000_000_000_000_000_000,
        pow10(19) == 10_000_000_000_000_000_000,
{
    reveal_with_fuel(pow10, 20);
}

/// Number of decimal digits at and after `pos`.
fn digit_run_from(s: &[u8], pos: usize) -> (k: usize)
    requires
        pos <= s@.len(),
    ensures
        k as nat == digit_run(s@.subrange(pos as int, s@.len() as int)),
        pos + k <= s@.len(),
    decreases s@.len() - pos,
{
    if pos < s.len() && 48 <= s[pos] && s[pos] <= 57 {
        let k = digit_run_from(s, pos + 1);
        proof {
            let t = s@.subrange(pos as int, s@.len() as int);
            assert(t.subrange(1, t.len() as int) =~= s@.subrange(pos + 1, s@.len() as int));
        }
        k + 1
    } else {
        0
    }
}

/// Base-ten value of the `k` digits at `pos`.
fn digits_value_from(s: &[u8], pos: usize, k: usize) -> (n: u64)
    requires
        pos + k <= s@.len(),
        k <= 19,
        forall|j: int| pos <= j < pos + k ==> is_digit(#[trigger] s@[j]),
    ensures
        n as nat == digits_val(s@.subrange(pos as int, pos + k)),
        (n as nat) < pow10(k as nat),
{
    proof {
        lemma_pow10_values();
    }
    let sl = s.len();
    let mut acc: u64 = 0;
    let mut i: usize = 0;
    while i < k
        invariant
            i <= k,
            k <= 19,
            sl == s@.len(),
            pos + k <= sl,
            forall|j: int| pos <= j < pos + k ==> is_digit(#[trigger] s@[j]),
            acc as nat == digits_val(s@.subrange(pos as int, pos + i)),
            (acc as nat) < pow10(i as nat),
            pow10(18) == 1_000_000_000_000_000_000,
            pow10(19) == 10_000_000_000_000_000_000,
        decreases k - i,
    {
        proof {
            lemma_pow10_mono(i as nat, 18);
        }
        let d = s[pos + i] - 48;
        acc = acc * 10 + d as u64;
        proof {
            lemma_pow10_mono((i + 1) as nat, 19);
            let w = s@.subrange(pos as int, pos + i + 1);
            assert(w.subrange(0, w.len() - 1) =~= s@.subrange(pos as int, pos + i));
            assert(w[w.len() - 1] == s@[pos + i]);
        }
        i += 1;
    }
    proof {
        lemma_pow10_mono(k as nat, 19);
    }
    acc
}

/// A byte string at `pos`: length digits, colon, payload.
fn parse_str(s: &[u8], pos: usize) -> (r: Result<(Vec<u8>, usize), ParseError>)
    requires
        pos <= s@.len(),
    ensures
        ({
            let t = s@.subrange(pos as int, s@.len() as int);
            match r {
                Ok((b, end)) => pos < end <= s@.len() && spec_parse_str(t) == Some(
                    (b@, (end - pos) as int),
                ),
                Err(_) => spec_parse_str(t) is None,
            }
        }),
{
    let ghost t = s@.subrange(pos as int, s@.len() as int);
    let total = s.len();
    let k = digit_run_from(s, pos);
    if k == 0 || k > 19 {
        return Err(ParseError);
    }
    if k > 1 && s[pos] == TAG_ZERO {
        return Err(ParseError);
    }
    proof {
        lemma_digit_run_digits(t);
        assert forall|j: int| pos <= j < pos + k implies is_digit(#[trigger] s@[j]) by {
            assert(t[j - pos] == s@[j]);
        }
    }
    let n = digits_value_from(s, pos, k);
    proof {
        assert(t.subrange(0, k as int) =~= s@.subrange(pos as int, pos + k));
    }
    if pos + k >= s.len() || s[pos + k] != TAG_COLON {
        return Err(ParseError);
    }
    let rem = s.len() - (pos + k + 1);
    if n > rem as u64 {
        return Err(ParseError);
    }
    let cnt = n as usize;
    let start = pos + k + 1;
    let sl = s.len();
    let mut b: Vec<u8> = Vec::new();
    let mut i: usize = 0;
    while i < cnt
        invariant
            i <= cnt,
            sl == s@.len(),
            start + cnt <= sl,
            b@ == s@.subrange(start as int, start + i),
        decreases cnt - i,
    {
        b.push(s[start + i]);
        assert(b@ =~= s@.subrange(start as int, start + i + 1));
        i += 1;
    }
    let end = start + cnt;
    proof {
        assert(t.subrange(k + 1, k + 1 + n) =~= s@.subrange(start as int, end as int));
    }
    Ok((b, end))
}

/// An integer body at `pos`, just after the `i` tag.
fn parse_int_tail(s: &[u8], pos: usize) -> (r: Result<(i64, usize), ParseError>)
    requires
        pos <= s@.len(),
    ensures
        ({
            let t = s@.subrange(pos as int, s@.len() as int);
            match r {
                Ok((val, end)) => pos < end <= s@.len() && spec_parse_int_tail(t) == Some(
                    (val, (end - pos) as int),
                ),
                Err(_) => spec_parse_int_tail(t) is None,
            }
        }),
{
    let ghost t = s@.subrange(pos as int, s@.len() as int);
    let total = s.len();
    if pos < s.len() && s[pos] == TAG_MINUS {
        let ghost u = t.subrange(1, t.len() as int);
        proof {
            assert(u =~= s@.subrange(pos + 1, s@.len() as int));
        }
        let k = digit_run_from(s, pos + 1);
        if k == 0 || k > 19 {
            return Err(ParseError);
        }
        if s[pos + 1] == TAG_ZERO {
            return Err(ParseError);
        }
        proof {
            lemma_digit_run_digits(u);
            assert forall|j: int| pos + 1 <= j < pos + 1 + k implies is_digit(
                #[trigger] s@[j],
            ) by {
                assert(u[j - pos - 1] == s@[j]);
            }
        }
        let m = digits_value_from(s, pos + 1, k);
        proof {
            assert(u.subrange(0, k as int) =~= s@.subrange(pos + 1, pos + 1 + k));
        }
        if m > 9223372036854775808u64 {
            return Err(ParseError);
        }
        if pos + 1 + k >= s.len() || s[pos + 1 + k] != TAG_END {
            return Err(ParseError);
        }
        let val: i64 = if m == 9223372036854775808u64 {
            i64::MIN
        } else {
            -(m as i64)
        };
        Ok((val, pos + 2 + k))
    } else {
        let k = digit_run_from(s, pos);
        if k == 0 || k > 19 {
            return Err(ParseError);
        }
        if k > 1 && s[pos] == TAG_ZERO {
            return Err(ParseError);
        }
        proof {
            lemma_digit_run_digits(t);
            assert forall|j: int| pos <= j < pos + k implies is_digit(#[trigger] s@[j]) by {
                assert(t[j - pos] == s@[j]);
            }
        }
        let m = digits_value_from(s, pos, k);
        proof {
            assert(t.subrange(0, k as int) =~= s@.subrange(pos as int, pos + k));
        }
        if m > 0x7fff_ffff_ffff_ffffu64 {
            return Err(ParseError);
        }
        if pos + k >= s.len() || s[pos + k] != TAG_END {
            return Err(ParseError);
        }
        Ok((m as i64, pos + 1 + k))
    }
}

/// One value at `pos`.
fn parse_value(s: &[u8], pos: usize) -> (r: Result<(Value, usize), ParseError>)
    requires
        pos <= s@.len(),
    ensures
        ({
            let t = s@.subrange(pos as int, s@.len() as int);
            match r {
                Ok((v, end)) => pos < end <= s@.len() && spec_parse_value(t) == Some(
                    (v@, (end - pos) as int),
                ),
                Err(_) => spec_parse_value(t) is None,
            }
        }),
    decreases s@.len() - pos, 0int,
{
    let ghost t = s@.subrange(pos as int, s@.len() as int);
    if pos >= s.len() {
        return Err(ParseError);
    }
    proof {
        assert(t.subrange(1, t.len() as int) =~= s@.subrange(pos + 1, s@.len() as int));
    }
    let tag = s[pos];
    if tag == TAG_INT {
        let (n, end) = parse_int_tail(s, pos + 1)?;
        Ok((Value::Int(n), end))
    } else if tag == TAG_LIST {
        let (vs, end) = parse_items(s, pos + 1)?;
        Ok((Value::List(vs), end))
    } else if tag == TAG_DICT {
        let (ps, end) = parse_pairs(s, pos + 1)?;
        Ok((Value::Dict(ps), end))
    } else if 48 <= tag && tag <= 57 {
        let (b, end) = parse_str(s, pos)?;
        Ok((Value::Bytes(b), end))
    } else {
        Err(ParseError)
    }
}

/// List elements from `pos` up to and including the end tag.
fn parse_items(s: &[u8], pos: usize) -> (r: Result<(Vec<Value>, usize), ParseError>)
    requires
        pos <= s@.len(),
    ensures
        ({
            let t = s@.subrange(pos as int, s@.len() as int);
            match r {
                Ok((vs, end)) => pos < end <= s@.len() && spec_parse_items(t) == Some(
                    (view_items(vs, 0), (end - pos) as int),
                ),
                Err(_) => spec_parse_items(t) is None,
            }
        }),
    decreases s@.len() - pos, 1int,
{
    let ghost t = s@.subrange(pos as int, s@.len() as int);
    if pos >= s.len() {
        return Err(ParseError);
    }
    if s[pos] == TAG_END {
        let vs: Vec<Value> = Vec::new();
        return Ok((vs, pos + 1));
    }
    let (v, end1) = parse_value(s, pos)?;
    proof {
        assert(t.subrange((end1 - pos) as int, t.len() as int) =~= s@.subrange(
            end1 as int,
            s@.len() as int,
        ));
    }
    let (mut rest, end2) = parse_items(s, end1)?;
    let ghost old_rest = rest;
    let ghost vv = v@;
    rest.insert(0, v);
    proof {
        lemma_view_items(old_rest, 0);
        lemma_view_items(rest, 0);
        assert(view_items(rest, 0) =~= seq![vv] + view_items(old_rest, 0));
    }
    Ok((rest, end2))
}

/// Dictionary entries from `pos` up to and including the end tag.
fn parse_pairs(s: &[u8], pos: usize) -> (r: Result<(Vec<(Vec<u8>, Value)>, usize), ParseError>)
    requires
        pos <= s@.len(),
    ensures
        ({
            let t = s@.subrange(pos as int, s@.len() as int);
            match r {
                Ok((ps, end)) => pos < end <= s@.len() && spec_parse_pairs(t) == Some(
                    (view_pairs(ps, 0), (end - pos) as int),
                ),
                Err(_) => spec_parse_pairs(t) is None,
            }
        }),
    decreases s@.len() - pos, 1int,
{
    let ghost t = s@.subrange(pos as int, s@.len() as int);
    if pos >= s.len() {
        return Err(ParseError);
    }
    if s[pos] == TAG_END {
        let ps: Vec<(Vec<u8>, Value)> = Vec::new();
        return Ok((ps, pos + 1));
    }
    let (key, endk) = parse_str(s, pos)?;
    proof {
        assert(t.subrange((endk - pos) as int, t.len() as int) =~= s@.subrange(
            endk as int,
            s@.len() as int,
        ));
    }
    let (v, endv) = parse_value(s, endk)?;
    proof {
        assert(t.subrange((endv - pos) as int, t.len() as int) =~= s@.subrange(
            endv as int,
            s@.len() as int,
        ));
    }
    let (mut rest, end2) = parse_pairs(s, endv)?;
    let ghost old_rest = rest;
    let ghost kv = (key@, v@);
    rest.insert(0, (key, v));
    proof {
        lemma_view_pairs(old_rest, 0);
        lemma_view_pairs(rest, 0);
        assert(view_pairs(rest, 0) =~= seq![kv] + view_pairs(old_rest, 0));
    }
    Ok((rest, end2))
}

fn decode_from(s: &[u8], pos: usize) -> (r: Result<Vec<Value>, ParseError>)
    requires
        pos <= s@.len(),
    ensures
        ({
            let t = s@.subrange(pos as int, s@.len() as int);
            match r {
                Ok(vs) => spec_parse_all(t) == Some(view_items(vs, 0)),
                Err(_) => spec_parse_all(t) is None,
            }
        }),
    decreases s@.len() - pos, 2int,
{
    let ghost t = s@.subrange(pos as int, s@.len() as int);
    if pos == s.len() {
        let vs: Vec<Value> = Vec::new();
        return Ok(vs);
    }
    let (v, end) = parse_value(s, pos)?;
    proof {
        assert(t.subrange((end - pos) as int, t.len() as int) =~= s@.subrange(
            end as int,
            s@.len() as int,
        ));
    }
    let mut rest = decode_from(s, end)?;
    let ghost old_rest = rest;
    let ghost vv = v@;
    rest.insert(0, v);
    proof {
        lemma_view_items(old_rest, 0);
        lemma_view_items(rest, 0);
        assert(view_items(rest, 0) =~= seq![vv] + view_items(old_rest, 0));
    }
    Ok(rest)
}

/// Decodes a byte sequence into its concatenated top-level values; fails on
/// truncated length prefixes, bad tags, unterminated structures, and any
/// byte form that `encode` never writes.
pub fn decode(s: &[u8]) -> (r: Result<Vec<Value>, ParseError>)
    ensures
        match r {
            Ok(vs) => spec_parse_all(s@) == Some(view_items(vs, 0)),
            Err(_) => spec_parse_all(s@) is None,
        },
{
    proof {
        assert(s@.subrange(0, s@.len() as int) =~= s@);
    }
    decode_from(s, 0)
}

proof fn lemma_spec_digits_shape(n: nat)
    ensures
        spec_digits(n).len() >= 1,
        forall|j: int| 0 <= j < spec_digits(n).len() ==> is_digit(#[trigger] spec_digits(n)[j]),
        n >= 1 ==> spec_digits(n)[0] != TAG_ZERO,
        n < 10 ==> spec_digits(n).len() == 1,
        n >= 10 ==> spec_digits(n).len() >= 2,
    decreases n,
{
    if n >= 10 {
        lemma_spec_digits_shape(n / 10);
    }
}

proof fn lemma_spec_digits_len(n: nat, k: nat)
    requires
        1 <= k,
        n < pow10(k),
    ensures
        spec_digits(n).len() <= k,
    decreases k,
{
    if n >= 10 {
        assert(pow10(0) == 1);
        lemma_spec_digits_len(n / 10, (k - 1) as nat);
    }
}

proof fn lemma_digits_val_digits(n: nat)
    ensures
        digits_val(spec_digits(n)) == n,
    decreases n,
{
    assert(digits_val(Seq::<u8>::empty()) == 0);
    if n < 10 {
        assert(spec_digits(n).subrange(0, 0) =~= Seq::<u8>::empty());
    } else {
        lemma_digits_val_digits(n / 10);
        let dg = spec_digits(n);
        lemma_spec_digits_shape(n / 10);
        assert(dg.subrange(0, dg.len() - 1) =~= spec_digits(n / 10));
        assert(dg[dg.len() - 1] == (48 + n % 10) as u8);
    }
}

proof fn lemma_digit_run_concat(a: Seq<u8>, b: Seq<u8>)
    requires
        forall|j: int| 0 <= j < a.len() ==> is_digit(#[trigger] a[j]),
        b.len() == 0 || !is_digit(b[0]),
    ensures
        digit_run(a + b) == a.len(),
    decreases a.len(),
{
    if a.len() == 0 {
        assert(a + b =~= b);
    } else {
        let t = a.subrange(1, a.len() as int);
        lemma_digit_run_concat(t, b);
        assert((a + b).subrange(1, (a + b).len() as int) =~= t + b);
    }
}

proof fn lemma_parse_str_encode(b: Seq<u8>, rest: Seq<u8>)
    requires
        b.len() < pow10(19),
    ensures
        spec_parse_str(spec_str_encode(b) + rest) == Some(
            (b, spec_str_encode(b).len() as int),
        ),
{
    let dg = spec_digits(b.len());
    let s = spec_str_encode(b) + rest;
    lemma_spec_digits_shape(b.len());
    lemma_spec_digits_len(b.len(), 19);
    lemma_digits_val_digits(b.len());
    lemma_digit_run_concat(dg, seq![TAG_COLON] + b + rest);
    assert(s =~= dg + (seq![TAG_COLON] + b + rest));
    let k = dg.len() as int;
    assert(digit_run(s) == dg.len());
    assert(s.subrange(0, k) =~= dg);
    assert(s[k] == TAG_COLON);
    assert(s.subrange(k + 1, k + 1 + b.len()) =~= b);
}

proof fn lemma_parse_int_encode(n: int, rest: Seq<u8>)
    requires
        i64::MIN <= n <= i64::MAX,
    ensures
        spec_parse_int_tail(spec_int_bytes(n) + seq![TAG_END] + rest) == Some(
            (n as i64, spec_int_bytes(n).len() + 1 as int),
        ),
{
    lemma_pow10_values();
    let t = spec_int_bytes(n) + seq![TAG_END] + rest;
    if n < 0 {
        let mag = (-n) as nat;
        let dg = spec_digits(mag);
        lemma_spec_digits_shape(mag);
        lemma_spec_digits_len(mag, 19);
        lemma_digits_val_digits(mag);
        lemma_digit_run_concat(dg, seq![TAG_END] + rest);
        assert(t[0] == TAG_MINUS);
        let u = t.subrange(1, t.len() as int);
        assert(u =~= dg + (seq![TAG_END] + rest));
        let k = dg.len() as int;
        assert(digit_run(u) == dg.len());
        assert(u[0] == dg[0]);
        assert(u.subrange(0, k) =~= dg);
        assert(u[k] == TAG_END);
    } else {
        let dg = spec_digits(n as nat);
        lemma_spec_digits_shape(n as nat);
        lemma_spec_digits_len(n as nat, 19);
        lemma_digits_val_digits(n as nat);
        lemma_digit_run_concat(dg, seq![TAG_END] + rest);
        assert(t =~= dg + (seq![TAG_END] + rest));
        let k = dg.len() as int;
        assert(digit_run(t) == dg.len());
        assert(t[0] == dg[0]);
        assert(!(t[0] == TAG_MINUS));
        assert(t.subrange(0, k) =~= dg);
        assert(t[k] == TAG_END);
    }
}

proof fn lemma_encode_first_byte(v: SpecValue)
    ensures
        spec_encode(v).len() >= 1,
        spec_encode(v)[0] == TAG_INT || spec_encode(v)[0] == TAG_LIST || spec_encode(v)[0]
            == TAG_DICT || is_digit(spec_encode(v)[0]),
        spec_encode(v)[0] != TAG_END,
{
    match v {
        SpecValue::Bytes(b) => {
            lemma_spec_digits_shape(b.len());
            assert(spec_encode(v)[0] == spec_digits(b.len())[0]);
        },
        SpecValue::Int(n) => {
            assert(spec_encode(v)[0] == TAG_INT);
        },
        SpecValue::List(items) => {
            assert(spec_encode(v)[0] == TAG_LIST);
        },
        SpecValue::Dict(pairs) => {
            assert(spec_encode(v)[0] == TAG_DICT);
        },
    }
}

/// A value tree every real `Value` can hold: integers within the machine
/// range and byte strings whose length fits in nineteen decimal digits.
pub open spec fn representable(v: SpecValue) -> bool
    decreases v,
{
    match v {
        SpecValue::Bytes(b) => b.len() < pow10(19),
        SpecValue::Int(n) => i64::MIN <= n <= i64::MAX,
        SpecValue::List(items) => forall|i: int|
            0 <= i < items.len() ==> representable(#[trigger] items[i]),
        SpecValue::Dict(pairs) => forall|i: int|
            0 <= i < pairs.len() ==> ((#[trigger] pairs[i]).0.len() < pow10(19) && representable(
                pairs[i].1,
            )),
    }
}

#[verifier::rlimit(50)]
proof fn lemma_parse_encode(v: SpecValue, rest: Seq<u8>)
    requires
        representable(v),
    ensures
        spec_parse_value(spec_encode(v) + rest) == Some((v, spec_encode(v).len() as int)),
    decreases v, 0int,
{
    let s = spec_encode(v) + rest;
    lemma_encode_first_byte(v);
    match v {
        SpecValue::Bytes(b) => {
            lemma_parse_str_encode(b, rest);
            assert(s == spec_str_encode(b) + rest);
        },
        SpecValue::Int(n) => {
            lemma_parse_int_encode(n, rest);
            assert(s =~= seq![TAG_INT] + (spec_int_bytes(n) + seq![TAG_END] + rest));
            assert(s[0] == TAG_INT);
            assert(s.subrange(1, s.len() as int) =~= spec_int_bytes(n) + seq![TAG_END] + rest);
        },
        SpecValue::List(items) => {
            lemma_parse_encode_seq(items, rest);
            assert(s =~= seq![TAG_LIST] + (spec_encode_seq(items) + seq![TAG_END] + rest));
            assert(s[0] == TAG_LIST);
            assert(s.subrange(1, s.len() as int) =~= spec_encode_seq(items) + seq![TAG_END]
                + rest);
        },
        SpecValue::Dict(pairs) => {
            lemma_parse_encode_pairs(pairs, rest);
            assert(s =~= seq![TAG_DICT] + (spec_encode_pairs(pairs) + seq![TAG_END] + rest));
            assert(s[0] == TAG_DICT);
            assert(s.subrange(1, s.len() as int) =~= spec_encode_pairs(pairs) + seq![TAG_END]
                + rest);
        },
    }
}

proof fn lemma_parse_encode_seq(items: Seq<SpecValue>, rest: Seq<u8>)
    requires
        forall|i: int| 0 <= i < items.len() ==> representable(#[trigger] items[i]),
    ensures
        spec_parse_items(spec_encode_seq(items) + seq![TAG_END] + rest) == Some(
            (items, spec_encode_seq(items).len() + 1 as int),
        ),
    decreases items, 1int,
{
    let s = spec_encode_seq(items) + seq![TAG_END] + rest;
    if items.len() == 0 {
        assert(s =~= seq![TAG_END] + rest);
        assert(s[0] == TAG_END);
        assert(items =~= Seq::<SpecValue>::empty());
    } else {
        let hd = items[0];
        let tl = items.subrange(1, items.len() as int);
        let tail_bytes = spec_encode_seq(tl) + seq![TAG_END] + rest;
        assert(s =~= spec_encode(hd) + tail_bytes);
        lemma_encode_first_byte(hd);
        assert(s[0] == spec_encode(hd)[0]);
        lemma_parse_encode(hd, tail_bytes);
        let c = spec_encode(hd).len() as int;
        assert(s.subrange(c, s.len() as int) =~= tail_bytes);
        lemma_parse_encode_seq(tl, rest);
        assert(seq![hd] + tl =~= items);
    }
}

proof fn lemma_parse_encode_pairs(pairs: Seq<(Seq<u8>, SpecValue)>, rest: Seq<u8>)
    requires
        forall|i: int|
            0 <= i < pairs.len() ==> ((#[trigger] pairs[i]).0.len() < pow10(19) && representable(
                pairs[i].1,
            )),
    ensures
        spec_parse_pairs(spec_encode_pairs(pairs) + seq![TAG_END] + rest) == Some(
            (pairs, spec_encode_pairs(pairs).len() + 1 as int),
        ),
    decreases pairs, 1int,
{
    let s = spec_encode_pairs(pairs) + seq![TAG_END] + rest;
    if pairs.len() == 0 {
        assert(s =~= seq![TAG_END] + rest);
        assert(s[0] == TAG_END);
        assert(pairs =~= Seq::<(Seq<u8>, SpecValue)>::empty());
    } else {
        let key = pairs[0].0;
        let hd = pairs[0].1;
        let tl = pairs.subrange(1, pairs.len() as int);
        let after_key = spec_encode(hd) + spec_encode_pairs(tl) + seq![TAG_END] + rest;
        assert(s =~= spec_str_encode(key) + after_key);
        lemma_spec_digits_shape(key.len());
        assert(s[0] == spec_digits(key.len())[0]);
        assert(is_digit(s[0]));
        lemma_parse_str_encode(key, after_key);
        let ck = spec_str_encode(key).len() as int;
        assert(s.subrange(ck, s.len() as int) =~= after_key);
        let tail_bytes = spec_encode_pairs(tl) + seq![TAG_END] + rest;
        assert(after_key =~= spec_encode(hd) + tail_bytes);
        assert(decreases_to!(pairs => pairs[0]));
        assert(decreases_to!(pairs[0] => pairs[0].1));
        lemma_parse_encode(hd, tail_bytes);
        let cv = spec_encode(hd).len() as int;
        lemma_encode_first_byte(hd);
        assert(s.subrange(ck + cv, s.len() as int) =~= tail_bytes);
        lemma_parse_encode_pairs(tl, rest);
        assert(seq![(key, hd)] + tl =~= pairs);
    }
}

/// Round trip: decoding the encoding of any representable value tree gives
/// back exactly that tree as the one top-level value.
pub proof fn lemma_round_trip(v: SpecValue)
    requires
        representable(v),
    ensures
        spec_parse_all(spec_encode(v)) == Some(seq![v]),
{
    lemma_parse_encode(v, Seq::empty());
    lemma_encode_first_byte(v);
    let enc = spec_encode(v);
    assert(enc + Seq::<u8>::empty() =~= enc);
    assert(enc.subrange(enc.len() as int, enc.len() as int) =~= Seq::<u8>::empty());
    assert(spec_parse_all(Seq::<u8>::empty()) == Some(Seq::<SpecValue>::empty()));
    assert(seq![v] + Seq::<SpecValue>::empty() =~= seq![v]);
}

} // verus!
