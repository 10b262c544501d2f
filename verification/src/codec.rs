//! The timestamp codec: textual `HH:MM:SS:mmm` tokens (optionally signed on
//! output) converted to and from time points.
//!
//! A token decodes successfully exactly when it consists of four
//! colon-separated, non-empty, all-digit fields whose combined millisecond
//! value fits the time-point representation. Encoding zero-pads minutes and
//! seconds to two digits, milliseconds to three, and hours to at least two;
//! a negative point is encoded as `-` followed by the encoding of its
//! magnitude.

use vstd::prelude::*;
use vstd::arithmetic::div_mod::{lemma_div_denominator, lemma_fundamental_div_mod};
use crate::timetypes::TimePoint;

verus! {

pub open spec fn is_digit(b: u8) -> bool {
    48 <= b && b <= 57
}

pub open spec fn is_colon(b: u8) -> bool {
    b == 58u8
}

pub open spec fn digit_val(b: u8) -> nat {
    (b - 48) as nat
}

pub open spec fn all_digits(s: Seq<u8>) -> bool {
    forall|i: int| 0 <= i < s.len() ==> is_digit(s[i])
}

/// The number denoted by a sequence of decimal digit bytes (most significant
/// first); leading zeros are allowed.
pub open spec fn num_val(s: Seq<u8>) -> nat
    decreases s.len(),
{
    if s.len() == 0 {
        0
    } else {
        num_val(s.drop_last()) * 10 + digit_val(s.last())
    }
}

/// The shortest decimal digit representation of `n`.
pub open spec fn dec_rep(n: nat) -> Seq<u8>
    decreases n,
{
    if n < 10 {
        seq![(48 + n) as u8]
    } else {
        dec_rep(n / 10).push((48 + n % 10) as u8)
    }
}

/// `n` in decimal, zero-padded to at least two digits.
pub open spec fn pad2(n: nat) -> Seq<u8> {
    if n < 10 {
        seq![48u8] + dec_rep(n)
    } else {
        dec_rep(n)
    }
}

/// `n` in decimal, zero-padded to at least three digits.
pub open spec fn pad3(n: nat) -> Seq<u8> {
    if n < 100 {
        seq![48u8] + pad2(n)
    } else {
        dec_rep(n)
    }
}

/// The encoding of a non-negative number of milliseconds as
/// `HH:MM:SS:mmm`.
pub open spec fn encode_abs(ms: nat) -> Seq<u8> {
    pad2(ms / 3600000) + seq![58u8] + pad2((ms / 60000) % 60) + seq![58u8] + pad2(
        (ms / 1000) % 60,
    ) + seq![58u8] + pad3(ms % 1000)
}

/// The textual encoding of a time point: the sign applies once, to the whole
/// magnitude.
pub open spec fn encode_time(t: int) -> Seq<u8> {
    if t < 0 {
        seq![45u8] + encode_abs((-t) as nat)
    } else {
        encode_abs(t as nat)
    }
}

/// The fields of a token, split on colons: one more field than there are
/// colons, each field colon-free, in order.
pub open spec fn fields_of(s: Seq<u8>) -> Seq<Seq<u8>>
    decreases s.len(),
{
    if s.len() == 0 {
        seq![Seq::<u8>::empty()]
    } else {
        let rest = fields_of(s.skip(1));
        if is_colon(s[0]) {
            seq![Seq::<u8>::empty()] + rest
        } else {
            seq![seq![s[0]] + rest[0]] + rest.skip(1)
        }
    }
}

/// The byte-sequence views of a sequence of byte vectors.
pub open spec fn views_of(v: Seq<Vec<u8>>) -> Seq<Seq<u8>> {
    Seq::new(v.len(), |i: int| v[i]@)
}

pub open spec fn field_ok(f: Seq<u8>) -> bool {
    f.len() > 0 && all_digits(f)
}

/// A token has the right shape when it splits into exactly four non-empty,
/// all-digit fields.
pub open spec fn token_shape_ok(s: Seq<u8>) -> bool {
    &&& fields_of(s).len() == 4
    &&& field_ok(fields_of(s)[0])
    &&& field_ok(fields_of(s)[1])
    &&& field_ok(fields_of(s)[2])
    &&& field_ok(fields_of(s)[3])
}

/// The millisecond value of a well-shaped token: hours, minutes, seconds,
/// milliseconds, in that order, with no range restriction on any field.
pub open spec fn token_value(s: Seq<u8>) -> nat {
    let fs = fields_of(s);
    ((num_val(fs[0]) * 60 + num_val(fs[1])) * 60 + num_val(fs[2])) * 1000 + num_val(fs[3])
}

/// What decoding a token yields: a millisecond value for a well-shaped token
/// that fits the representation, nothing otherwise.
pub open spec fn decode_time(s: Seq<u8>) -> Option<int> {
    if token_shape_ok(s) && token_value(s) <= i64::MAX {
        Some(token_value(s) as int)
    } else {
        None
    }
}

/// Why a token failed to decode: it was not four non-empty digit fields, or
/// its value does not fit the time-point representation.
#[derive(Debug, Clone, Copy, PartialEq, Eq, Structural)]
pub enum DecodeFault {
    Shape,
    Range,
}

fn push_dec(v: &mut Vec<u8>, n: u64)
    ensures
        final(v)@ == old(v)@ + dec_rep(n as nat),
    decreases n,
{
    if n < 10 {
        v.push(48 + n as u8);
        assert(v@ =~= old(v)@ + dec_rep(n as nat));
    } else {
        push_dec(v, n / 10);
        let ghost mid = v@;
        v.push(48 + (n % 10) as u8);
        assert(v@ =~= old(v)@ + dec_rep(n as nat));
    }
}

fn push_pad2(v: &mut Vec<u8>, n: u64)
    ensures
        final(v)@ == old(v)@ + pad2(n as nat),
{
    if n < 10 {
        v.push(48);
    }
    push_dec(v, n);
    assert(v@ =~= old(v)@ + pad2(n as nat));
}

fn push_pad3(v: &mut Vec<u8>, n: u64)
    ensures
        final(v)@ == old(v)@ + pad3(n as nat),
{
    if n < 100 {
        v.push(48);
        push_pad2(v, n);
    } else {
        push_dec(v, n);
    }
    assert(v@ =~= old(v)@ + pad3(n as nat));
}

/// Encodes a time point as `HH:MM:SS:mmm` bytes, with a leading `-` for a
/// negative point.
pub fn encode_timestamp(t: TimePoint) -> (r: Vec<u8>)
    ensures
        r@ == encode_time(t@),
{
    let ms = t.msecs();
    let mut v: Vec<u8> = Vec::new();
    let mag: u64;
    if ms < 0 {
        v.push(45);
        if ms == i64::MIN {
            mag = 9223372036854775808u64;
        } else {
            mag = (-ms) as u64;
        }
    } else {
        mag = ms as u64;
    }
    assert(mag as nat == if t@ < 0 { -t@ } else { t@ });
    push_pad2(&mut v, mag / 3600000);
    v.push(58);
    push_pad2(&mut v, (mag / 60000) % 60);
    v.push(58);
    push_pad2(&mut v, (mag / 1000) % 60);
    v.push(58);
    push_pad3(&mut v, mag % 1000);
    assert(v@ =~= encode_time(t@));
    v
}

proof fn lemma_fields_nonempty(s: Seq<u8>)
    ensures
        fields_of(s).len() >= 1,
    decreases s.len(),
{
    if s.len() > 0 {
        lemma_fields_nonempty(s.skip(1));
    }
}

/// Appending one byte to a token appends an empty field (for a colon) or
/// extends the last field (for any other byte).
proof fn lemma_fields_snoc(s: Seq<u8>, b: u8)
    ensures
        is_colon(b) ==> fields_of(s.push(b)) == fields_of(s) + seq![Seq::<u8>::empty()],
        !is_colon(b) ==> fields_of(s.push(b)) == fields_of(s).update(
            fields_of(s).len() - 1,
            fields_of(s).last().push(b),
        ),
    decreases s.len(),
{
    reveal_with_fuel(fields_of, 3);
    lemma_fields_nonempty(s);
    if s.len() == 0 {
        assert(s.push(b).skip(1) =~= Seq::<u8>::empty());
        if is_colon(b) {
            assert(fields_of(s.push(b)) =~= fields_of(s) + seq![Seq::<u8>::empty()]);
        } else {
            assert(seq![s.push(b)[0]] + fields_of(s.push(b).skip(1))[0] =~= fields_of(
                s,
            ).last().push(b));
            assert(fields_of(s.push(b)) =~= fields_of(s).update(
                fields_of(s).len() - 1,
                fields_of(s).last().push(b),
            ));
        }
    } else {
        lemma_fields_snoc(s.skip(1), b);
        lemma_fields_nonempty(s.skip(1));
        assert(s.push(b).skip(1) =~= s.skip(1).push(b));
        let rest = fields_of(s.skip(1));
        let restb = fields_of(s.skip(1).push(b));
        if is_colon(b) {
            if is_colon(s[0]) {
                assert(fields_of(s.push(b)) =~= fields_of(s) + seq![Seq::<u8>::empty()]);
            } else {
                assert(restb[0] == rest[0]);
                assert(restb.skip(1) =~= rest.skip(1) + seq![Seq::<u8>::empty()]);
                assert(fields_of(s.push(b)) =~= fields_of(s) + seq![Seq::<u8>::empty()]);
            }
        } else {
            if is_colon(s[0]) {
                assert(fields_of(s.push(b)) =~= fields_of(s).update(
                    fields_of(s).len() - 1,
                    fields_of(s).last().push(b),
                ));
            } else {
                if rest.len() == 1 {
                    assert(restb[0] == rest[0].push(b));
                    assert(restb.skip(1) =~= rest.skip(1));
                    assert(fields_of(s.push(b)) =~= fields_of(s).update(
                        fields_of(s).len() - 1,
                        fields_of(s).last().push(b),
                    ));
                } else {
                    assert(restb[0] == rest[0]);
                    assert(restb.skip(1) =~= rest.skip(1).update(
                        rest.skip(1).len() - 1,
                        rest.skip(1).last().push(b),
                    ));
                    assert(fields_of(s.push(b)) =~= fields_of(s).update(
                        fields_of(s).len() - 1,
                        fields_of(s).last().push(b),
                    ));
                }
            }
        }
    }
}

/// The sequence of fields of a token, each as its own byte vector.
fn split_fields(s: &[u8]) -> (r: Vec<Vec<u8>>)
    ensures
        views_of(r@) == fields_of(s@),
{
    let mut done: Vec<Vec<u8>> = Vec::new();
    let mut cur: Vec<u8> = Vec::new();
    let mut i: usize = 0;
    proof {
        assert(s@.take(0) =~= Seq::<u8>::empty());
        assert(views_of(done@).push(cur@) =~= fields_of(s@.take(0)));
    }
    while i < s.len()
        invariant
            0 <= i <= s@.len(),
            views_of(done@).push(cur@) == fields_of(s@.take(i as int)),
        decreases s@.len() - i,
    {
        let ghost pre = s@.take(i as int);
        proof {
            assert(s@.take(i + 1) =~= pre.push(s@[i as int]));
            lemma_fields_snoc(pre, s@[i as int]);
            lemma_fields_nonempty(pre);
        }
        let b = s[i];
        let ghost prev_done = done@;
        let ghost prev_cur = cur@;
        if b == 58 {
            done.push(cur);
            cur = Vec::new();
            assert(views_of(done@).push(cur@) =~= views_of(prev_done).push(prev_cur) + seq![
                Seq::<u8>::empty(),
            ]);
            assert(views_of(done@).push(cur@) =~= fields_of(s@.take(i + 1)));
        } else {
            cur.push(b);
            assert(views_of(done@).push(cur@) =~= views_of(prev_done).push(prev_cur).update(
                views_of(prev_done).push(prev_cur).len() - 1,
                views_of(prev_done).push(prev_cur).last().push(b),
            ));
            assert(views_of(done@).push(cur@) =~= fields_of(s@.take(i + 1)));
        }
        i = i + 1;
    }
    assert(s@.take(s@.len() as int) =~= s@);
    let ghost prev_done = done@;
    let ghost prev_cur = cur@;
    done.push(cur);
    assert(views_of(done@) =~= views_of(prev_done).push(prev_cur));
    done
}

fn field_shape_ok(f: &Vec<u8>) -> (r: bool)
    ensures
        r == field_ok(f@),
{
    if f.len() == 0 {
        return false;
    }
    let mut i: usize = 0;
    while i < f.len()
        invariant
            0 <= i <= f@.len(),
            forall|j: int| 0 <= j < i ==> is_digit(f@[j]),
        decreases f@.len() - i,
    {
        let b = f[i];
        if b < 48 || b > 57 {
            return false;
        }
        i = i + 1;
    }
    true
}

proof fn lemma_num_val_take_le(s: Seq<u8>, k: int)
    requires
        0 <= k <= s.len(),
    ensures
        num_val(s.take(k)) <= num_val(s),
    decreases s.len() - k,
{
    if k < s.len() {
        assert(s.take(k + 1).drop_last() =~= s.take(k));
        assert(num_val(s.take(k + 1)) == num_val(s.take(k)) * 10 + digit_val(s.take(k + 1).last()));
        lemma_num_val_take_le(s, k + 1);
    } else {
        assert(s.take(k) =~= s);
    }
}

/// The numeric value of a non-empty all-digit field, where it fits the
/// representation.
fn field_value(f: &Vec<u8>) -> (r: Option<i64>)
    requires
        field_ok(f@),
    ensures
        num_val(f@) <= i64::MAX ==> r == Some(num_val(f@) as i64),
        num_val(f@) > i64::MAX ==> r is None,
{
    let mut acc: i64 = 0;
    let mut i: usize = 0;
    proof {
        assert(f@.take(0) =~= Seq::<u8>::empty());
    }
    while i < f.len()
        invariant
            0 <= i <= f@.len(),
            field_ok(f@),
            0 <= acc,
            acc as nat == num_val(f@.take(i as int)),
        decreases f@.len() - i,
    {
        let b = f[i];
        let d: i64 = (b - 48) as i64;
        proof {
            assert(f@.take(i + 1).drop_last() =~= f@.take(i as int));
            assert(num_val(f@.take(i + 1)) == num_val(f@.take(i as int)) * 10 + digit_val(
                f@.take(i + 1).last(),
            ));
        }
        if acc > (i64::MAX - d) / 10 {
            proof {
                assert(acc * 10 + d > i64::MAX) by (nonlinear_arith)
                    requires
                        acc > (i64::MAX - d) / 10,
                        0 <= d <= 9,
                        acc >= 0,
                {
                }
                lemma_num_val_take_le(f@, i + 1);
            }
            return None;
        }
        proof {
            assert(acc * 10 + d <= i64::MAX) by (nonlinear_arith)
                requires
                    acc <= (i64::MAX - d) / 10,
                    0 <= d <= 9,
                    acc >= 0,
            {
            }
        }
        acc = acc * 10 + d;
        i = i + 1;
    }
    proof {
        assert(f@.take(f@.len() as int) =~= f@);
    }
    Some(acc)
}

proof fn lemma_token_value_dominates(s: Seq<u8>)
    requires
        token_shape_ok(s),
    ensures
        num_val(fields_of(s)[0]) <= token_value(s),
        num_val(fields_of(s)[1]) <= token_value(s),
        num_val(fields_of(s)[2]) <= token_value(s),
        num_val(fields_of(s)[3]) <= token_value(s),
{
    let fs = fields_of(s);
    let h = num_val(fs[0]);
    let m = num_val(fs[1]);
    let sec = num_val(fs[2]);
    let ms = num_val(fs[3]);
    assert(((h * 60 + m) * 60 + sec) * 1000 + ms >= h && ((h * 60 + m) * 60 + sec) * 1000 + ms >= m
        && ((h * 60 + m) * 60 + sec) * 1000 + ms >= sec) by (nonlinear_arith);
}

/// Decodes a `HH:MM:SS:mmm` token. Returns the time point it denotes, or the
/// reason it does not denote one.
pub fn decode_timestamp(s: &[u8]) -> (r: Result<TimePoint, DecodeFault>)
    ensures
        r is Ok <==> decode_time(s@) is Some,
        r is Ok ==> r->Ok_0@ == decode_time(s@)->0,
        r is Err ==> (r->Err_0 == DecodeFault::Shape <==> !token_shape_ok(s@)),
{
    let fields = split_fields(s);
    if fields.len() != 4 {
        return Err(DecodeFault::Shape);
    }
    if !(field_shape_ok(&fields[0]) && field_shape_ok(&fields[1]) && field_shape_ok(&fields[2])
        && field_shape_ok(&fields[3])) {
        return Err(DecodeFault::Shape);
    }
    assert(token_shape_ok(s@));
    proof {
        lemma_token_value_dominates(s@);
    }
    let hv = field_value(&fields[0]);
    let mv = field_value(&fields[1]);
    let sv = field_value(&fields[2]);
    let msv = field_value(&fields[3]);
    match (hv, mv, sv, msv) {
        (Some(h), Some(m), Some(sec), Some(ms)) => {
            let total: i128 = (((h as i128) * 60 + (m as i128)) * 60 + (sec as i128)) * 1000 + (
            ms as i128);
            assert(total == token_value(s@));
            if total > i64::MAX as i128 {
                Err(DecodeFault::Range)
            } else {
                Ok(TimePoint::from_msecs(total as i64))
            }
        },
        _ => {
            assert(token_value(s@) > i64::MAX);
            Err(DecodeFault::Range)
        },
    }
}

proof fn lemma_dec_rep_digits(n: nat)
    ensures
        dec_rep(n).len() >= 1,
        all_digits(dec_rep(n)),
        num_val(dec_rep(n)) == n,
    decreases n,
{
    if n < 10 {
        assert(dec_rep(n).drop_last() =~= Seq::<u8>::empty());
        assert(num_val(dec_rep(n)) == num_val(Seq::<u8>::empty()) * 10 + digit_val(
            (48 + n) as u8,
        ));
    } else {
        lemma_dec_rep_digits(n / 10);
        let d = dec_rep(n / 10);
        let b = (48 + n % 10) as u8;
        assert(dec_rep(n) == d.push(b));
        assert(dec_rep(n).drop_last() =~= d);
        assert(num_val(dec_rep(n)) == num_val(d) * 10 + digit_val(b));
        assert(n / 10 * 10 + n % 10 == n) by {
            lemma_fundamental_div_mod(n as int, 10);
        }
        assert forall|j: int| 0 <= j < dec_rep(n).len() implies is_digit(dec_rep(n)[j]) by {
            if j < d.len() {
                assert(dec_rep(n)[j] == d[j]);
            }
        }
    }
}

proof fn lemma_num_val_zero_prepend(d: Seq<u8>)
    ensures
        num_val(seq![48u8] + d) == num_val(d),
    decreases d.len(),
{
    if d.len() == 0 {
        assert(seq![48u8] + d =~= seq![48u8]);
        assert((seq![48u8]).drop_last() =~= Seq::<u8>::empty());
        assert(num_val(seq![48u8]) == num_val(Seq::<u8>::empty()) * 10 + digit_val(48u8));
    } else {
        lemma_num_val_zero_prepend(d.drop_last());
        assert((seq![48u8] + d).drop_last() =~= seq![48u8] + d.drop_last());
        assert((seq![48u8] + d).last() == d.last());
    }
}

proof fn lemma_pad2_digits(n: nat)
    ensures
        pad2(n).len() >= 1,
        all_digits(pad2(n)),
        num_val(pad2(n)) == n,
{
    lemma_dec_rep_digits(n);
    if n < 10 {
        lemma_num_val_zero_prepend(dec_rep(n));
        assert forall|j: int| 0 <= j < pad2(n).len() implies is_digit(pad2(n)[j]) by {
            if j >= 1 {
                assert(pad2(n)[j] == dec_rep(n)[j - 1]);
            }
        }
    }
}

proof fn lemma_pad3_digits(n: nat)
    ensures
        pad3(n).len() >= 1,
        all_digits(pad3(n)),
        num_val(pad3(n)) == n,
{
    lemma_dec_rep_digits(n);
    if n < 100 {
        lemma_pad2_digits(n);
        lemma_num_val_zero_prepend(pad2(n));
        assert forall|j: int| 0 <= j < pad3(n).len() implies is_digit(pad3(n)[j]) by {
            if j >= 1 {
                assert(pad3(n)[j] == pad2(n)[j - 1]);
            }
        }
    }
}

proof fn lemma_fields_no_colon(a: Seq<u8>)
    requires
        forall|j: int| 0 <= j < a.len() ==> !is_colon(a[j]),
    ensures
        fields_of(a) == seq![a],
    decreases a.len(),
{
    if a.len() == 0 {
        assert(a =~= Seq::<u8>::empty());
        assert(fields_of(a) =~= seq![a]);
    } else {
        assert forall|j: int| 0 <= j < a.skip(1).len() implies !is_colon(a.skip(1)[j]) by {
            assert(a.skip(1)[j] == a[j + 1]);
        }
        lemma_fields_no_colon(a.skip(1));
        assert(seq![a[0]] + a.skip(1) =~= a);
        assert(fields_of(a.skip(1)).skip(1) =~= Seq::<Seq<u8>>::empty());
        assert(fields_of(a) =~= seq![a]);
    }
}

proof fn lemma_fields_field_sep(a: Seq<u8>, r: Seq<u8>)
    requires
        forall|j: int| 0 <= j < a.len() ==> !is_colon(a[j]),
    ensures
        fields_of(a + seq![58u8] + r) == seq![a] + fields_of(r),
    decreases a.len(),
{
    if a.len() == 0 {
        assert(a + seq![58u8] + r =~= seq![58u8] + r);
        assert((seq![58u8] + r).skip(1) =~= r);
        assert(a =~= Seq::<u8>::empty());
        assert(fields_of(a + seq![58u8] + r) =~= seq![a] + fields_of(r));
    } else {
        assert forall|j: int| 0 <= j < a.skip(1).len() implies !is_colon(a.skip(1)[j]) by {
            assert(a.skip(1)[j] == a[j + 1]);
        }
        lemma_fields_field_sep(a.skip(1), r);
        let s = a + seq![58u8] + r;
        assert(s[0] == a[0]);
        assert(s.skip(1) =~= a.skip(1) + seq![58u8] + r);
        assert(fields_of(s.skip(1)) == seq![a.skip(1)] + fields_of(r));
        assert(fields_of(s.skip(1))[0] == a.skip(1));
        assert(fields_of(s.skip(1)).skip(1) =~= fields_of(r));
        assert(seq![s[0]] + a.skip(1) =~= a);
        assert(fields_of(s) =~= seq![a] + fields_of(r));
    }
}

/// The codec is its own inverse on every representable non-negative point:
/// what a point encodes to decodes back to the same point.
#[verifier::rlimit(50)]
pub proof fn lemma_codec_inverse(t: int)
    requires
        0 <= t <= i64::MAX,
    ensures
        decode_time(encode_time(t)) == Some(t),
{
    let ms = t as nat;
    let h = ms / 3600000;
    let m = (ms / 60000) % 60;
    let s2 = (ms / 1000) % 60;
    let mm = ms % 1000;
    lemma_pad2_digits(h);
    lemma_pad2_digits(m);
    lemma_pad2_digits(s2);
    lemma_pad3_digits(mm);
    let e = encode_abs(ms);
    assert(encode_time(t) == e);
    let tail2 = pad2(s2) + seq![58u8] + pad3(mm);
    let tail1 = pad2(m) + seq![58u8] + tail2;
    assert(e =~= pad2(h) + seq![58u8] + tail1);
    assert forall|j: int| 0 <= j < pad2(h).len() implies !is_colon(pad2(h)[j]) by {
        assert(is_digit(pad2(h)[j]));
    }
    assert forall|j: int| 0 <= j < pad2(m).len() implies !is_colon(pad2(m)[j]) by {
        assert(is_digit(pad2(m)[j]));
    }
    assert forall|j: int| 0 <= j < pad2(s2).len() implies !is_colon(pad2(s2)[j]) by {
        assert(is_digit(pad2(s2)[j]));
    }
    assert forall|j: int| 0 <= j < pad3(mm).len() implies !is_colon(pad3(mm)[j]) by {
        assert(is_digit(pad3(mm)[j]));
    }
    lemma_fields_field_sep(pad2(h), tail1);
    lemma_fields_field_sep(pad2(m), tail2);
    lemma_fields_field_sep(pad2(s2), pad3(mm));
    lemma_fields_no_colon(pad3(mm));
    assert(fields_of(e) =~= seq![pad2(h), pad2(m), pad2(s2), pad3(mm)]);
    assert(token_shape_ok(e));
    assert(token_value(e) == ((h * 60 + m) * 60 + s2) * 1000 + mm);
    assert(h * 60 + m == ms / 60000) by {
        lemma_div_denominator(ms as int, 60000, 60);
        lemma_fundamental_div_mod(ms as int / 60000, 60);
    }
    assert((ms / 60000) * 60 + s2 == ms / 1000) by {
        lemma_div_denominator(ms as int, 1000, 60);
        lemma_fundamental_div_mod(ms as int / 1000, 60);
    }
    assert((ms / 1000) * 1000 + mm == ms) by {
        lemma_fundamental_div_mod(ms as int, 1000);
    }
    assert(token_value(e) == ms) by {
        assert(((h * 60 + m) * 60 + s2) * 1000 + mm == (ms / 1000) * 1000 + mm);
    }
    assert(decode_time(e) == Some(t));
}

} // verus!
