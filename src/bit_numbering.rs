//! Splitting an unsigned integer into bit fields under LSB 0 or MSB 0
//! numbering.
//!
//! Under LSB 0 numbering the first declared field takes the lowest bits;
//! under MSB 0 numbering it takes the highest. Either way the fields come out
//! in declared order.
use vstd::arithmetic::div_mod::{
    lemma_basic_div, lemma_div_by_multiple, lemma_div_denominator, lemma_fundamental_div_mod,
    lemma_mod_bound, lemma_mod_breakdown, lemma_mod_mod, lemma_multiply_divide_lt, lemma_small_mod,
    lemma_truncate_middle,
};
use vstd::arithmetic::mul::{
    lemma_mul_is_associative, lemma_mul_is_commutative, lemma_mul_strict_inequality,
};
use vstd::arithmetic::power2::{
    lemma2_to64, lemma_pow2_adds, lemma_pow2_pos, lemma_pow2_strictly_increases, lemma_pow2_unfold,
    pow2,
};
use vstd::prelude::*;

use crate::common::{
    as_nats, coerce_all, kept_count, lemma_coerce_all_len, lemma_skip_removes_value, coerce_fields, validate_widths, validate_widths_spec, width_sum, Target,
    Value, WidthError,
};

verus! {

/// 2^128, one more than the largest `u128`.
proof fn lemma_pow2_128()
    ensures
        pow2(128) == 0x1_0000_0000_0000_0000_0000_0000_0000_0000nat,
{
    lemma2_to64();
    lemma_pow2_adds(64, 64);
}

/// Every `u128` is below 2^n for n of at least 128.
proof fn lemma_u128_below_pow2(x: u128, n: nat)
    requires
        128 <= n,
    ensures
        x < pow2(n),
{
    lemma_pow2_128();
    if n > 128 {
        lemma_pow2_strictly_increases(128, n);
    }
}

proof fn lemma_one_shl(n: u32)
    requires
        n < 128,
    ensures
        (1u128 << n) == pow2(n as nat),
    decreases n,
{
    if n == 0 {
        assert((1u128 << 0u32) == 1) by (bit_vector);
        lemma2_to64();
    } else {
        let m: u32 = (n - 1) as u32;
        assert((1u128 << n) == 2 * (1u128 << m)) by (bit_vector)
            requires
                m < 127,
                n == m + 1,
        ;
        lemma_one_shl(m);
        lemma_pow2_unfold(n as nat);
    }
}

/// 2^n, for n below 128.
fn pow2_u128(n: usize) -> (r: u128)
    requires
        n < 128,
    ensures
        r == pow2(n as nat),
{
    proof {
        lemma_one_shl(n as u32);
    }
    1u128 << (n as u32)
}

/// Splits `data` after its `n` lowest bits: the low `n` bits, then the bits
/// above them moved down to position 0.
pub fn lsb_split(data: u128, n: usize) -> (r: (u128, u128))
    requires
        n <= 128,
    ensures
        r.0 == data as nat % pow2(n as nat),
        r.1 == data as nat / pow2(n as nat),
{
    if n == 128 {
        proof {
            lemma_pow2_128();
            lemma_small_mod(data as nat, pow2(128));
            lemma_basic_div(data as int, pow2(128) as int);
        }
        (data, 0)
    } else {
        let p = pow2_u128(n);
        proof {
            lemma_pow2_pos(n as nat);
        }
        (data % p, data / p)
    }
}

/// Splits a `bits`-bit value `data` after its `n` highest bits: those bits
/// moved down to position 0, then the remaining bits moved up by `n`, so that
/// they again start at the top of the `bits`-bit value.
pub fn msb_split(data: u128, bits: usize, n: usize) -> (r: (u128, u128))
    requires
        n <= bits <= 128,
        data < pow2(bits as nat),
    ensures
        r.0 == data as nat / pow2((bits - n) as nat),
        r.1 == (data as nat % pow2((bits - n) as nat)) * pow2(n as nat),
{
    proof {
        lemma2_to64();
        lemma_pow2_pos(bits as nat);
    }
    if n == 0 {
        proof {
            lemma_small_mod(data as nat, pow2(bits as nat));
            lemma_basic_div(data as int, pow2(bits as nat) as int);
        }
        assert(data as nat % pow2(bits as nat) * pow2(0) == data);
        (0, data)
    } else if n == bits {
        assert(pow2((bits - n) as nat) == 1);
        assert(data as nat % 1 == 0);
        assert((data as nat % pow2((bits - n) as nat)) * pow2(n as nat) == 0);
        (data, 0)
    } else {
        let s = bits - n;
        let p = pow2_u128(s);
        let q = pow2_u128(n);
        proof {
            lemma_pow2_pos(s as nat);
            lemma_pow2_pos(n as nat);
        }
        let low = data % p;
        proof {
            lemma_mod_bound(data as int, p as int);
            lemma_mul_strict_inequality(low as int, p as int, q as int);
            lemma_pow2_adds(s as nat, n as nat);
            lemma_pow2_128();
            if bits < 128 {
                lemma_pow2_strictly_increases(bits as nat, 128);
            }
        }
        assert(low * q == (data as nat % pow2((bits - n) as nat)) * pow2(n as nat));
        (data / p, low * q)
    }
}

/// The fields of `v` under LSB 0 numbering: the first width takes the lowest
/// bits, and each following width the bits just above.
pub open spec fn lsb_fields(v: nat, widths: Seq<usize>) -> Seq<nat>
    decreases widths.len(),
{
    if widths.len() == 0 {
        seq![]
    } else {
        let p = pow2(widths[0] as nat);
        seq![v % p] + lsb_fields(v / p, widths.drop_first())
    }
}

/// The fields of the `bits`-bit value `v` under MSB 0 numbering: the first
/// width takes the highest bits, and each following width the bits just
/// below.
pub open spec fn msb_fields(v: nat, bits: nat, widths: Seq<usize>) -> Seq<nat>
    decreases widths.len(),
{
    if widths.len() == 0 {
        seq![]
    } else {
        let rest = (bits - widths[0]) as nat;
        seq![v / pow2(rest)] + msb_fields(v % pow2(rest), rest, widths.drop_first())
    }
}

/// The value whose LSB 0 fields of `widths` are `fields`.
pub open spec fn lsb_compose(fields: Seq<nat>, widths: Seq<usize>) -> nat
    decreases widths.len(),
{
    if widths.len() == 0 || fields.len() == 0 {
        0
    } else {
        fields[0] + pow2(widths[0] as nat) * lsb_compose(fields.drop_first(), widths.drop_first())
    }
}

/// The value whose MSB 0 fields of `widths` are `fields`.
pub open spec fn msb_compose(fields: Seq<nat>, widths: Seq<usize>) -> nat
    decreases widths.len(),
{
    if widths.len() == 0 || fields.len() == 0 {
        0
    } else {
        fields[0] * pow2(width_sum(widths.drop_first())) + msb_compose(
            fields.drop_first(),
            widths.drop_first(),
        )
    }
}

/// Composing the LSB 0 fields of a value that fits the widths gives the value
/// back.
pub proof fn lemma_lsb_round_trip(v: nat, widths: Seq<usize>)
    requires
        v < pow2(width_sum(widths)),
    ensures
        lsb_compose(lsb_fields(v, widths), widths) == v,
    decreases widths.len(),
{
    if widths.len() == 0 {
        lemma2_to64();
    } else {
        let w = widths[0] as nat;
        let rest = widths.drop_first();
        let p = pow2(w);
        lemma_pow2_pos(w);
        lemma_pow2_adds(w, width_sum(rest));
        lemma_multiply_divide_lt(v as int, p as int, pow2(width_sum(rest)) as int);
        lemma_lsb_round_trip(v / p, rest);
        assert(lsb_fields(v, widths).drop_first() =~= lsb_fields(v / p, rest));
        lemma_fundamental_div_mod(v as int, p as int);
    }
}

/// Composing the MSB 0 fields of a value that fits the widths gives the value
/// back.
pub proof fn lemma_msb_round_trip(v: nat, widths: Seq<usize>)
    requires
        v < pow2(width_sum(widths)),
    ensures
        msb_compose(msb_fields(v, width_sum(widths), widths), widths) == v,
    decreases widths.len(),
{
    if widths.len() == 0 {
        lemma2_to64();
    } else {
        let rest = widths.drop_first();
        let q = pow2(width_sum(rest));
        lemma_pow2_pos(width_sum(rest));
        lemma_mod_bound(v as int, q as int);
        lemma_msb_round_trip(v % q, rest);
        assert(msb_fields(v, width_sum(widths), widths).drop_first() =~= msb_fields(
            v % q,
            width_sum(rest),
            rest,
        ));
        lemma_fundamental_div_mod(v as int, q as int);
        lemma_mul_is_commutative(q as int, (v / q) as int);
    }
}

/// There is one LSB 0 field per width.
pub proof fn lemma_lsb_fields_len(v: nat, widths: Seq<usize>)
    ensures
        lsb_fields(v, widths).len() == widths.len(),
    decreases widths.len(),
{
    if widths.len() > 0 {
        let p = pow2(widths[0] as nat);
        let rest = widths.drop_first();
        lemma_pow2_pos(widths[0] as nat);
        lemma_lsb_fields_len(v / p, rest);
        assert(lsb_fields(v, widths).drop_first() =~= lsb_fields(v / p, rest));
    }
}

/// There is one MSB 0 field per width.
pub proof fn lemma_msb_fields_len(v: nat, bits: nat, widths: Seq<usize>)
    ensures
        msb_fields(v, bits, widths).len() == widths.len(),
    decreases widths.len(),
{
    if widths.len() > 0 {
        let rest = (bits - widths[0]) as nat;
        lemma_pow2_pos(rest);
        lemma_msb_fields_len(v % pow2(rest), rest, widths.drop_first());
        assert(widths.len() != 0);
        assert(msb_fields(v, bits, widths).drop_first() =~= msb_fields(
            v % pow2(rest),
            rest,
            widths.drop_first(),
        ));
    }
}

/// The sum of the first `i + 1` widths is the first width plus the sum of the
/// next `i` widths.
proof fn lemma_width_sum_take(widths: Seq<usize>, i: int)
    requires
        0 < i <= widths.len(),
    ensures
        width_sum(widths.take(i)) == widths[0] + width_sum(widths.drop_first().take(i - 1)),
{
    assert(widths.take(i).drop_first() =~= widths.drop_first().take(i - 1));
}

/// Under LSB 0 numbering field `i` holds the `widths[i]` bits that start at
/// bit position `widths[0] + ... + widths[i - 1]`: the first field takes the
/// lowest bits, and each next field the bits just above.
pub proof fn lemma_lsb_field_position(v: nat, widths: Seq<usize>, i: int)
    requires
        0 <= i < widths.len(),
    ensures
        lsb_fields(v, widths)[i] == (v / pow2(width_sum(widths.take(i)))) % pow2(widths[i] as nat),
    decreases i,
{
    let p = pow2(widths[0] as nat);
    let rest = widths.drop_first();
    lemma_pow2_pos(widths[0] as nat);
    lemma_lsb_fields_len(v / p, rest);
    assert(lsb_fields(v, widths) == seq![v % p] + lsb_fields(v / p, rest));
    if i == 0 {
        assert(widths.take(0) =~= seq![]);
        assert(width_sum(widths.take(0)) == 0);
        lemma2_to64();
        assert(v / pow2(0) == v);
    } else {
        lemma_lsb_field_position(v / p, rest, i - 1);
        assert(lsb_fields(v, widths)[i] == lsb_fields(v / p, rest)[i - 1]);
        lemma_width_sum_take(widths, i);
        let s = width_sum(rest.take(i - 1));
        lemma_pow2_pos(s);
        lemma_div_denominator(v as int, p as int, pow2(s) as int);
        lemma_pow2_adds(widths[0] as nat, s);
        assert(width_sum(widths.take(i)) == widths[0] as nat + s);
        assert(v / pow2(width_sum(widths.take(i))) == (v / p) / pow2(s));
    }
}

/// Under MSB 0 numbering field `i` of a value that fits the widths holds the
/// `widths[i]` bits that end where the fields after it begin, counted from
/// bit position 0: the first field takes the highest bits, and each next
/// field the bits just below.
pub proof fn lemma_msb_field_position(v: nat, widths: Seq<usize>, i: int)
    requires
        0 <= i < widths.len(),
        v < pow2(width_sum(widths)),
    ensures
        msb_fields(v, width_sum(widths), widths)[i] == (v / pow2(width_sum(widths.skip(i + 1))))
            % pow2(widths[i] as nat),
    decreases i,
{
    let rest = widths.drop_first();
    let s1 = width_sum(rest);
    let q = pow2(s1);
    let w0 = widths[0] as nat;
    lemma_pow2_pos(s1);
    lemma_pow2_pos(w0);
    assert(widths.skip(1) =~= rest);
    if i == 0 {
        lemma_pow2_adds(w0, s1);
        lemma_multiply_divide_lt(v as int, q as int, pow2(w0) as int);
        lemma_small_mod((v / q) as nat, pow2(w0));
    } else {
        let t = width_sum(widths.skip(i + 1));
        let wi = widths[i] as nat;
        lemma_mod_bound(v as int, q as int);
        lemma_msb_fields_len(v % q, s1, rest);
        lemma_msb_field_position(v % q, rest, i - 1);
        assert(rest.skip(i) =~= widths.skip(i + 1));
        assert(msb_fields(v, width_sum(widths), widths)[i] == msb_fields(v % q, s1, rest)[i - 1]);
        // The bits below position s1 are the same in v and in v % 2^s1.
        lemma_width_sum_prefix(rest, i - 1);
        lemma_low_bits_unchanged(v, s1, t, wi);
    }
}

/// The suffix sum after the first `i + 1` of `widths` plus width `i` is at
/// most the whole sum.
proof fn lemma_width_sum_prefix(widths: Seq<usize>, i: int)
    requires
        0 <= i < widths.len(),
    ensures
        widths[i] + width_sum(widths.skip(i + 1)) <= width_sum(widths),
    decreases i,
{
    assert(widths.skip(i).drop_first() =~= widths.skip(i + 1));
    if i > 0 {
        lemma_width_sum_prefix(widths.drop_first(), i - 1);
        assert(widths.drop_first().skip(i) =~= widths.skip(i + 1));
    } else {
        assert(widths.skip(0) =~= widths);
    }
}

/// Bits `t .. t + w` of `v` and of `v % 2^s` agree when `t + w <= s`.
proof fn lemma_low_bits_unchanged(v: nat, s: nat, t: nat, w: nat)
    requires
        t + w <= s,
    ensures
        ((v % pow2(s)) / pow2(t)) % pow2(w) == (v / pow2(t)) % pow2(w),
{
    let a = pow2(t);
    let b = pow2((s - t) as nat);
    let c = pow2(w);
    let d = pow2((s - t - w) as nat);
    lemma_pow2_pos(t);
    lemma_pow2_pos((s - t) as nat);
    lemma_pow2_pos(w);
    lemma_pow2_pos((s - t - w) as nat);
    lemma_pow2_adds(t, (s - t) as nat);
    lemma_pow2_adds(w, (s - t - w) as nat);
    assert(t + (s - t) == s);
    assert(w + (s - t - w) == s - t);
    // v % (a * b) == a * ((v / a) % b) + v % a
    lemma_mod_breakdown(v as int, a as int, b as int);
    lemma_mod_bound(v as int, a as int);
    lemma_mod_bound((v / a) as int, b as int);
    let m = (v / a) % b;
    assert((a * m + v % a) / a == m) by {
        lemma_div_plus_small(m as int, a as int, (v % a) as int);
    }
    // (x % (c * d)) % c == x % c
    lemma_mod_mod((v / a) as int, c as int, d as int);
}

/// `(a * m + r) / a == m` for `0 <= r < a`.
proof fn lemma_div_plus_small(m: int, a: int, r: int)
    requires
        0 <= m,
        0 < a,
        0 <= r < a,
    ensures
        (a * m + r) / a == m,
{
    lemma_mul_is_commutative(a, m);
    vstd::arithmetic::div_mod::lemma_fundamental_div_mod_converse(a * m + r, a, m, r);
}

/// A skipped field takes its bits but gives no value: there is one value per
/// field that is not skipped, under either numbering, while the raw fields,
/// and so the bits each field reads, depend on the widths alone.
pub proof fn lemma_skipped_fields(v: nat, bits: nat, fields: Seq<BitField>, other: Seq<BitField>)
    requires
        field_widths(other) == field_widths(fields),
    ensures
        lsb_values(v, fields).len() == kept_count(field_targets(fields)),
        msb_values(v, bits, fields).len() == kept_count(field_targets(fields)),
        lsb_fields(v, field_widths(other)) == lsb_fields(v, field_widths(fields)),
        msb_fields(v, bits, field_widths(other)) == msb_fields(v, bits, field_widths(fields)),
{
    lemma_lsb_fields_len(v, field_widths(fields));
    lemma_msb_fields_len(v, bits, field_widths(fields));
    lemma_coerce_all_len(lsb_fields(v, field_widths(fields)), field_targets(fields));
    lemma_coerce_all_len(msb_fields(v, bits, field_widths(fields)), field_targets(fields));
}

/// `fields` with field `i` turned into reserved bits of the same width.
pub open spec fn with_skipped(fields: Seq<BitField>, i: int) -> Seq<BitField> {
    fields.update(i, BitField { width: fields[i].width, target: Target::Skip })
}

/// Turning field `i`, which had a value, into reserved bits removes exactly
/// its value from what the fields decode to, under either numbering; the
/// values of the other fields stay, in order.
pub proof fn lemma_skip_field(v: nat, bits: nat, fields: Seq<BitField>, i: int)
    requires
        0 <= i < fields.len(),
        !(fields[i].target is Skip),
    ensures
        lsb_values(v, with_skipped(fields, i)) == lsb_values(v, fields).remove(
            kept_count(field_targets(fields).take(i)) as int,
        ),
        msb_values(v, bits, with_skipped(fields, i)) == msb_values(v, bits, fields).remove(
            kept_count(field_targets(fields).take(i)) as int,
        ),
{
    let skipped = with_skipped(fields, i);
    let widths = field_widths(fields);
    assert(field_widths(skipped) =~= widths);
    assert(field_targets(skipped) =~= field_targets(fields).update(i, Target::Skip));
    lemma_lsb_fields_len(v, widths);
    lemma_msb_fields_len(v, bits, widths);
    lemma_skip_removes_value(lsb_fields(v, widths), field_targets(fields), i);
    lemma_skip_removes_value(msb_fields(v, bits, widths), field_targets(fields), i);
}

/// The raw LSB 0 fields of `value`.
fn lsb_raw_fields(value: u128, widths: &Vec<usize>) -> (r: Vec<u128>)
    requires
        forall|i: int| 0 <= i < widths@.len() ==> widths@[i] <= 128,
    ensures
        as_nats(r@) == lsb_fields(value as nat, widths@),
        r@.len() == widths@.len(),
{
    let n = widths.len();
    let mut out: Vec<u128> = Vec::new();
    let mut data = value;
    let mut i: usize = 0;
    assert(widths@.skip(0) =~= widths@);
    assert(as_nats(out@) =~= seq![]);
    while i < n
        invariant
            n == widths@.len(),
            i <= n,
            out@.len() == i,
            forall|j: int| 0 <= j < widths@.len() ==> widths@[j] <= 128,
            lsb_fields(value as nat, widths@) == as_nats(out@) + lsb_fields(
                data as nat,
                widths@.skip(i as int),
            ),
        decreases n - i,
    {
        let (field, rest) = lsb_split(data, widths[i]);
        proof {
            assert(widths@.skip(i as int).drop_first() =~= widths@.skip(i + 1));
            assert(as_nats(out@.push(field)) =~= as_nats(out@) + seq![field as nat]);
        }
        out.push(field);
        data = rest;
        i = i + 1;
    }
    proof {
        assert(as_nats(out@) + lsb_fields(data as nat, widths@.skip(n as int)) =~= as_nats(out@));
    }
    out
}

/// One step of the MSB 0 walk, with the unread bits `rem` kept at the top of
/// the value: after `c` bits were read, the value is `rem * 2^c`.
proof fn lemma_msb_step(rem: nat, c: nat, r1: nat, w: nat)
    ensures
        (rem * pow2(c)) / pow2(c + r1) == rem / pow2(r1),
        ((rem * pow2(c)) % pow2(c + r1)) * pow2(w) == (rem % pow2(r1)) * pow2(c + w),
{
    let pc = pow2(c);
    let pr = pow2(r1);
    lemma_pow2_pos(c);
    lemma_pow2_pos(r1);
    lemma_pow2_adds(c, r1);
    lemma_pow2_adds(c, w);
    lemma_div_denominator((rem * pc) as int, pc as int, pr as int);
    lemma_div_by_multiple(rem as int, pc as int);
    lemma_mul_is_commutative(rem as int, pc as int);
    lemma_truncate_middle(rem as int, pc as int, pr as int);
    lemma_mul_is_associative(pc as int, (rem % pr) as int, pow2(w) as int);
    lemma_mul_is_commutative(pc as int, (rem % pr) as int);
    lemma_mul_is_associative((rem % pr) as int, pc as int, pow2(w) as int);
}

/// The raw MSB 0 fields of the `bits`-bit value `value`.
fn msb_raw_fields(value: u128, bits: usize, widths: &Vec<usize>) -> (r: Vec<u128>)
    requires
        bits <= 128,
        width_sum(widths@) == bits,
        value < pow2(bits as nat),
    ensures
        as_nats(r@) == msb_fields(value as nat, bits as nat, widths@),
        r@.len() == widths@.len(),
{
    let n = widths.len();
    let mut out: Vec<u128> = Vec::new();
    let mut data = value;
    let mut consumed: usize = 0;
    let mut i: usize = 0;
    let ghost mut rem: nat = value as nat;
    proof {
        lemma2_to64();
    }
    assert(widths@.skip(0) =~= widths@);
    assert(as_nats(out@) =~= seq![]);
    while i < n
        invariant
            n == widths@.len(),
            i <= n,
            out@.len() == i,
            bits <= 128,
            consumed + width_sum(widths@.skip(i as int)) == bits,
            rem < pow2((bits - consumed) as nat),
            data == rem * pow2(consumed as nat),
            msb_fields(value as nat, bits as nat, widths@) == as_nats(out@) + msb_fields(
                rem,
                (bits - consumed) as nat,
                widths@.skip(i as int),
            ),
        decreases n - i,
    {
        let w = widths[i];
        let ghost r1: nat = (bits - consumed - w) as nat;
        proof {
            assert(widths@.skip(i as int).drop_first() =~= widths@.skip(i + 1));
            assert(width_sum(widths@.skip(i as int)) == w + width_sum(widths@.skip(i + 1)));
            lemma_pow2_adds((bits - consumed) as nat, consumed as nat);
            lemma_pow2_pos(consumed as nat);
            lemma_mul_strict_inequality(rem as int, pow2((bits - consumed) as nat) as int, pow2(consumed as nat) as int);
            lemma_msb_step(rem, consumed as nat, r1, w as nat);
            assert((bits - w) as nat == consumed + r1);
        }
        let (field, rest) = msb_split(data, bits, w);
        proof {
            assert(as_nats(out@.push(field)) =~= as_nats(out@) + seq![field as nat]);
            lemma_pow2_pos(r1);
            lemma_mod_bound(rem as int, pow2(r1) as int);
            rem = rem % pow2(r1);
        }
        out.push(field);
        data = rest;
        consumed = consumed + w;
        i = i + 1;
    }
    proof {
        assert(as_nats(out@) + msb_fields(rem, (bits - consumed) as nat, widths@.skip(n as int))
            =~= as_nats(out@));
    }
    out
}

/// One bit field: how many bits it takes and what its raw value becomes.
#[derive(Debug, Clone, Copy, PartialEq, Eq)]
pub struct BitField {
    pub width: usize,
    pub target: Target,
}

/// The widths of `fields`, in order.
pub open spec fn field_widths(fields: Seq<BitField>) -> Seq<usize> {
    Seq::new(fields.len(), |i: int| fields[i].width)
}

/// The targets of `fields`, in order.
pub open spec fn field_targets(fields: Seq<BitField>) -> Seq<Target> {
    Seq::new(fields.len(), |i: int| fields[i].target)
}

/// The outcome of validating `fields` for a source of `bits` bits.
pub open spec fn bit_layout_spec(bits: nat, fields: Seq<BitField>) -> Result<(), WidthError> {
    if bits > 128 {
        Err(WidthError::SourceTooWide)
    } else {
        validate_widths_spec(bits, field_widths(fields))
    }
}

/// The values that the LSB 0 fields of `v` become.
pub open spec fn lsb_values(v: nat, fields: Seq<BitField>) -> Seq<Value> {
    coerce_all(lsb_fields(v, field_widths(fields)), field_targets(fields))
}

/// The values that the MSB 0 fields of the `bits`-bit value `v` become.
pub open spec fn msb_values(v: nat, bits: nat, fields: Seq<BitField>) -> Seq<Value> {
    coerce_all(msb_fields(v, bits, field_widths(fields)), field_targets(fields))
}

/// A validated partition of a `bits`-bit unsigned integer into bit fields.
pub struct BitLayout {
    bits: usize,
    fields: Vec<BitField>,
    widths: Vec<usize>,
    targets: Vec<Target>,
}

impl View for BitLayout {
    type V = (nat, Seq<BitField>);

    closed spec fn view(&self) -> (nat, Seq<BitField>) {
        (self.bits as nat, self.fields@)
    }
}

impl BitLayout {
    #[verifier::type_invariant]
    spec fn inv(&self) -> bool {
        &&& bit_layout_spec(self.bits as nat, self.fields@) is Ok
        &&& self.widths@ == field_widths(self.fields@)
        &&& self.targets@ == field_targets(self.fields@)
    }

    /// Accepts `fields` for a source of `bits` bits when their widths are
    /// positive and add up to `bits`, and `bits` is at most 128.
    pub fn new(bits: usize, fields: Vec<BitField>) -> (r: Result<BitLayout, WidthError>)
        ensures
            r is Ok <==> bit_layout_spec(bits as nat, fields@) is Ok,
            r matches Err(e) ==> bit_layout_spec(bits as nat, fields@) == Err::<(), _>(e),
            r matches Ok(l) ==> l@ == (bits as nat, fields@),
    {
        if bits > 128 {
            return Err(WidthError::SourceTooWide);
        }
        let n = fields.len();
        let mut widths: Vec<usize> = Vec::new();
        let mut targets: Vec<Target> = Vec::new();
        let mut i: usize = 0;
        while i < n
            invariant
                n == fields@.len(),
                i <= n,
                widths@ == field_widths(fields@).take(i as int),
                targets@ == field_targets(fields@).take(i as int),
            decreases n - i,
        {
            widths.push(fields[i].width);
            targets.push(fields[i].target);
            i = i + 1;
            proof {
                assert(widths@ =~= field_widths(fields@).take(i as int));
                assert(targets@ =~= field_targets(fields@).take(i as int));
            }
        }
        assert(widths@ =~= field_widths(fields@));
        assert(targets@ =~= field_targets(fields@));
        match validate_widths(bits, &widths) {
            Ok(()) => Ok(BitLayout { bits, fields, widths, targets }),
            Err(e) => Err(e),
        }
    }

    /// The width of the source, in bits.
    pub fn bits(&self) -> (r: usize)
        ensures
            r == self@.0,
            r <= 128,
    {
        proof {
            use_type_invariant(self);
        }
        self.bits
    }

    /// The fields, in declared order.
    pub fn fields(&self) -> (r: &Vec<BitField>)
        ensures
            r@ == self@.1,
            bit_layout_spec(self@.0, self@.1) is Ok,
    {
        proof {
            use_type_invariant(self);
        }
        &self.fields
    }
}

/// A value ready to be partitioned: an unsigned integer of the layout's width
/// together with the layout.
pub struct Packed<'a> {
    value: u128,
    layout: &'a BitLayout,
}

impl<'a> View for Packed<'a> {
    /// The value, the source width and the fields.
    type V = (nat, nat, Seq<BitField>);

    closed spec fn view(&self) -> (nat, nat, Seq<BitField>) {
        (self.value as nat, self.layout@.0, self.layout@.1)
    }
}

impl<'a> Packed<'a> {
    #[verifier::type_invariant]
    spec fn inv(&self) -> bool {
        self.value < pow2(self.layout@.0)
    }

    /// Pairs `value` with `layout`; fails with `ValueTooWide` when `value`
    /// does not fit in the layout's width.
    pub fn new(value: u128, layout: &'a BitLayout) -> (r: Result<Packed<'a>, WidthError>)
        ensures
            r is Ok <==> value < pow2(layout@.0),
            r matches Err(e) ==> e == WidthError::ValueTooWide,
            r matches Ok(p) ==> p@ == (value as nat, layout@.0, layout@.1),
    {
        let bits = layout.bits();
        if bits < 128 {
            let limit = pow2_u128(bits);
            if value >= limit {
                return Err(WidthError::ValueTooWide);
            }
        } else {
            proof {
                lemma_u128_below_pow2(value, bits as nat);
            }
        }
        Ok(Packed { value, layout })
    }
}

/// LSB 0 bit numbering data to value conversion.
///
/// It is the reciprocal of [LsbInto].
pub trait FromLsb<T>: Sized {
    /// Whether `r` is what `data` decodes to.
    spec fn lsb_decodes(data: T, r: Self) -> bool;

    fn from_lsb(data: T) -> (r: Self)
        ensures
            Self::lsb_decodes(data, r),
    ;
}

/// LSB 0 bit numbering data to value conversion that consumes the input.
///
/// The opposite of [FromLsb]; implement [FromLsb] instead.
pub trait LsbInto<T>: Sized {
    /// Whether `r` is what `self` decodes to.
    spec fn lsb_into_decodes(self, r: T) -> bool;

    fn lsb_into(self) -> (r: T)
        ensures
            self.lsb_into_decodes(r),
    ;
}

impl<T, U: FromLsb<T>> LsbInto<U> for T {
    open spec fn lsb_into_decodes(self, r: U) -> bool {
        U::lsb_decodes(self, r)
    }

    fn lsb_into(self) -> (r: U) {
        U::from_lsb(self)
    }
}

/// The raw fields, before coercion.
impl<'a> FromLsb<Packed<'a>> for Vec<u128> {
    open spec fn lsb_decodes(data: Packed<'a>, r: Vec<u128>) -> bool {
        as_nats(r@) == lsb_fields(data@.0, field_widths(data@.2))
    }

    fn from_lsb(data: Packed<'a>) -> (r: Vec<u128>) {
        packed_lsb_raw_fields(&data)
    }
}

/// The fields coerced to their targets, skipped fields left out.
impl<'a> FromLsb<Packed<'a>> for Vec<Value> {
    open spec fn lsb_decodes(data: Packed<'a>, r: Vec<Value>) -> bool {
        r@ == lsb_values(data@.0, data@.2)
    }

    fn from_lsb(data: Packed<'a>) -> (r: Vec<Value>) {
        proof {
            use_type_invariant(data.layout);
        }
        let raws = packed_lsb_raw_fields(&data);
        coerce_fields(&raws, &data.layout.targets)
    }
}

fn packed_lsb_raw_fields(data: &Packed) -> (r: Vec<u128>)
    ensures
        as_nats(r@) == lsb_fields(data@.0, field_widths(data@.2)),
        r@.len() == data@.2.len(),
{
    let widths = &data.layout.widths;
    proof {
        use_type_invariant(data.layout);
        assert forall|i: int| 0 <= i < widths@.len() implies widths@[i] <= 128 by {
            lemma_width_bounded(widths@, i);
        }
    }
    lsb_raw_fields(data.value, widths)
}

fn packed_msb_raw_fields(data: &Packed) -> (r: Vec<u128>)
    ensures
        as_nats(r@) == msb_fields(data@.0, data@.1, field_widths(data@.2)),
        r@.len() == data@.2.len(),
{
    proof {
        use_type_invariant(data.layout);
        use_type_invariant(data);
    }
    msb_raw_fields(data.value, data.layout.bits, &data.layout.widths)
}

/// A single width never exceeds the sum of all widths.
proof fn lemma_width_bounded(widths: Seq<usize>, i: int)
    requires
        0 <= i < widths.len(),
        width_sum(widths) <= 128,
    ensures
        widths[i] <= 128,
    decreases widths.len(),
{
    if i > 0 {
        lemma_width_bounded(widths.drop_first(), i - 1);
    }
}

/// Type wrapper for LSB 0 bit numbering data.
#[derive(Debug, Clone, PartialEq, Eq)]
pub struct Lsb<T>(pub T);

impl<U> Lsb<U> {
    /// Decodes `data` under LSB 0 numbering and wraps the result.
    pub fn decode<T>(data: T) -> (r: Self) where U: FromLsb<T>
        ensures
            U::lsb_decodes(data, r.0),
    {
        Lsb(U::from_lsb(data))
    }
}

/// MSB 0 bit numbering data to value conversion.
///
/// It is the reciprocal of [MsbInto].
pub trait FromMsb<T>: Sized {
    /// Whether `r` is what `data` decodes to.
    spec fn msb_decodes(data: T, r: Self) -> bool;

    fn from_msb(data: T) -> (r: Self)
        ensures
            Self::msb_decodes(data, r),
    ;
}

/// MSB 0 bit numbering data to value conversion that consumes the input.
///
/// The opposite of [FromMsb]; implement [FromMsb] instead.
pub trait MsbInto<T>: Sized {
    /// Whether `r` is what `self` decodes to.
    spec fn msb_into_decodes(self, r: T) -> bool;

    fn msb_into(self) -> (r: T)
        ensures
            self.msb_into_decodes(r),
    ;
}

impl<T, U: FromMsb<T>> MsbInto<U> for T {
    open spec fn msb_into_decodes(self, r: U) -> bool {
        U::msb_decodes(self, r)
    }

    fn msb_into(self) -> (r: U) {
        U::from_msb(self)
    }
}

/// The raw fields, before coercion.
impl<'a> FromMsb<Packed<'a>> for Vec<u128> {
    open spec fn msb_decodes(data: Packed<'a>, r: Vec<u128>) -> bool {
        as_nats(r@) == msb_fields(data@.0, data@.1, field_widths(data@.2))
    }

    fn from_msb(data: Packed<'a>) -> (r: Vec<u128>) {
        packed_msb_raw_fields(&data)
    }
}

/// The fields coerced to their targets, skipped fields left out.
impl<'a> FromMsb<Packed<'a>> for Vec<Value> {
    open spec fn msb_decodes(data: Packed<'a>, r: Vec<Value>) -> bool {
        r@ == msb_values(data@.0, data@.1, data@.2)
    }

    fn from_msb(data: Packed<'a>) -> (r: Vec<Value>) {
        proof {
            use_type_invariant(data.layout);
        }
        let raws = packed_msb_raw_fields(&data);
        coerce_fields(&raws, &data.layout.targets)
    }
}

/// Type wrapper for MSB 0 bit numbering data.
#[derive(Debug, Clone, PartialEq, Eq)]
pub struct Msb<T>(pub T);

impl<U> Msb<U> {
    /// Decodes `data` under MSB 0 numbering and wraps the result.
    pub fn decode<T>(data: T) -> (r: Self) where U: FromMsb<T>
        ensures
            U::msb_decodes(data, r.0),
    {
        Msb(U::from_msb(data))
    }
}

} // verus!
