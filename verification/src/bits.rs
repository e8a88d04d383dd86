//! Fixed-width ternary fields: strings of `0`, `1` and the wildcard.
use vstd::arithmetic::power2::{lemma_pow2_unfold, pow2};
use vstd::prelude::*;
use vstd::string::StringExecFns;

verus! {

/// The symbol that matches either bit value.
pub const WILDCARD: char = '_';

/// The widest field that is rendered.
pub const MAX_FIELD_WIDTH: u32 = 32;

/// Bit `k`, counted from the most significant, of `value` written in `width`
/// bits.
pub open spec fn bit_at(value: nat, width: nat, k: int) -> bool {
    (value / pow2((width - 1 - k) as nat)) % 2 == 1
}

/// The character of a bit.
pub open spec fn bit_char(bit: bool) -> char {
    if bit {
        '1'
    } else {
        '0'
    }
}

/// `value` in binary, `width` characters, most significant bit first.
pub open spec fn binary(value: nat, width: nat) -> Seq<char> {
    Seq::new(width, |k: int| bit_char(bit_at(value, width, k)))
}

/// `width` wildcards.
pub open spec fn wildcards(width: nat) -> Seq<char> {
    Seq::new(width, |k: int| WILDCARD)
}

/// The first `keep` bits of `value` in `width` bits, then wildcards up to
/// `width` characters.
pub open spec fn prefix_field(value: nat, width: nat, keep: nat) -> Seq<char> {
    Seq::new(
        width,
        |k: int|
            if k < keep {
                bit_char(bit_at(value, width, k))
            } else {
                WILDCARD
            },
    )
}

/// The bits of `value` in `width` bits where `mask` has a one, and a
/// wildcard where `mask` has a zero.
pub open spec fn masked_field(value: nat, mask: nat, width: nat) -> Seq<char> {
    Seq::new(
        width,
        |k: int|
            if bit_at(mask, width, k) {
                bit_char(bit_at(value, width, k))
            } else {
                WILDCARD
            },
    )
}

/// The number that a string of `0` and `1` writes, most significant first.
pub open spec fn binary_value(s: Seq<char>) -> nat
    decreases s.len(),
{
    if s.len() == 0 {
        0
    } else {
        2 * binary_value(s.drop_last()) + if s.last() == '1' {
            1nat
        } else {
            0nat
        }
    }
}

/// Whether no character of `s` is the wildcard.
pub open spec fn has_no_wildcard(s: Seq<char>) -> bool {
    forall|k: int| 0 <= k < s.len() ==> s[k] != WILDCARD
}

/// Whether every character of `s` is the wildcard.
pub open spec fn is_all_wildcard(s: Seq<char>) -> bool {
    forall|k: int| 0 <= k < s.len() ==> s[k] == WILDCARD
}

proof fn lemma_pow2_zero()
    ensures
        pow2(0) == 1,
{
    vstd::arithmetic::power2::lemma_pow2(0);
    vstd::arithmetic::power::lemma_pow0(2);
}

/// Reading back the binary rendering of a value that fits in `width` bits
/// gives the value.
pub proof fn lemma_binary_round_trip(value: nat, width: nat)
    requires
        value < pow2(width),
    ensures
        binary_value(binary(value, width)) == value,
        has_no_wildcard(binary(value, width)),
    decreases width,
{
    let s = binary(value, width);
    if width == 0 {
        lemma_pow2_zero();
    } else {
        let half = value / 2;
        lemma_pow2_unfold(width);
        lemma_pow2_zero();
        assert(half < pow2((width - 1) as nat));
        lemma_binary_round_trip(half, (width - 1) as nat);
        assert(s.drop_last() =~= binary(half, (width - 1) as nat)) by {
            assert forall|k: int| 0 <= k < width - 1 implies bit_at(value, width, k) == bit_at(
                half,
                (width - 1) as nat,
                k,
            ) by {
                let e = (width - 2 - k) as nat;
                lemma_pow2_unfold(e + 1);
                vstd::arithmetic::power2::lemma_pow2_pos(e);
                vstd::arithmetic::div_mod::lemma_div_denominator(value as int, 2, pow2(e) as int);
            }
        }
        assert(s.last() == bit_char(value % 2 == 1)) by {
            assert((width - 1 - (width - 1)) as nat == 0);
            assert(value / 1 == value);
            assert(s.last() == bit_char(bit_at(value, width, width - 1)));
        }
    }
}

/// The first `keep` characters of the binary rendering of a value that fits
/// in `width` bits write the value without its last `width - keep` bits.
pub proof fn lemma_binary_prefix_value(value: nat, width: nat, keep: nat)
    requires
        value < pow2(width),
        keep <= width,
    ensures
        binary(value, width).take(keep as int) == binary(
            value / pow2((width - keep) as nat),
            keep,
        ),
        binary_value(binary(value, width).take(keep as int)) == value / pow2(
            (width - keep) as nat,
        ),
{
    let low = (width - keep) as nat;
    let top = value / pow2(low);
    vstd::arithmetic::power2::lemma_pow2_pos(low);
    vstd::arithmetic::power2::lemma_pow2_adds(keep, low);
    assert(top < pow2(keep)) by {
        vstd::arithmetic::mul::lemma_mul_is_commutative(pow2(keep) as int, pow2(low) as int);
        vstd::arithmetic::div_mod::lemma_multiply_divide_lt(
            value as int,
            pow2(low) as int,
            pow2(keep) as int,
        );
    }
    assert(binary(value, width).take(keep as int) =~= binary(top, keep)) by {
        assert forall|k: int| 0 <= k < keep implies bit_at(value, width, k) == bit_at(
            top,
            keep,
            k,
        ) by {
            let e = (keep - 1 - k) as nat;
            vstd::arithmetic::power2::lemma_pow2_pos(e);
            vstd::arithmetic::power2::lemma_pow2_adds(low, e);
            vstd::arithmetic::div_mod::lemma_div_denominator(
                value as int,
                pow2(low) as int,
                pow2(e) as int,
            );
            assert((width - 1 - k) as nat == low + e);
        }
    }
    lemma_binary_round_trip(top, keep);
}

/// A prefix field that keeps nothing is all wildcards; one that keeps every
/// bit is the binary rendering, without a wildcard; and the bits that it
/// keeps are those of the binary rendering.
pub proof fn lemma_prefix_field(value: nat, width: nat, keep: nat)
    requires
        keep <= width,
    ensures
        keep == 0 ==> prefix_field(value, width, keep) == wildcards(width),
        keep == width ==> prefix_field(value, width, keep) == binary(value, width)
            && has_no_wildcard(prefix_field(value, width, keep)),
        prefix_field(value, width, keep).take(keep as int) == binary(value, width).take(
            keep as int,
        ),
        is_all_wildcard(prefix_field(value, width, keep).skip(keep as int)),
{
    assert(keep == 0 ==> prefix_field(value, width, keep) =~= wildcards(width));
    assert(keep == width ==> prefix_field(value, width, keep) =~= binary(value, width));
    assert(prefix_field(value, width, keep).take(keep as int) =~= binary(value, width).take(
        keep as int,
    ));
}

/// Under a mask of all ones a masked field is the binary rendering of the
/// value, without a wildcard; under a mask of zero it is all wildcards.
pub proof fn lemma_masked_field(value: nat, mask: nat, width: nat)
    ensures
        mask + 1 == pow2(width) ==> masked_field(value, mask, width) == binary(value, width)
            && has_no_wildcard(masked_field(value, mask, width)),
        mask == 0 ==> masked_field(value, mask, width) == wildcards(width),
{
    if mask + 1 == pow2(width) {
        assert forall|k: int| 0 <= k < width implies bit_at(mask, width, k) by {
            lemma_all_ones(width, (width - 1 - k) as nat);
        }
        assert(masked_field(value, mask, width) =~= binary(value, width));
    }
    if mask == 0 {
        assert forall|k: int| 0 <= k < width implies !bit_at(mask, width, k) by {
            let e = (width - 1 - k) as nat;
            vstd::arithmetic::power2::lemma_pow2_pos(e);
            vstd::arithmetic::div_mod::lemma_div_basics(pow2(e) as int);
        }
        assert(masked_field(value, mask, width) =~= wildcards(width));
    }
}

proof fn lemma_all_ones(width: nat, e: nat)
    requires
        e < width,
    ensures
        (((pow2(width) - 1) as nat) / pow2(e)) % 2 == 1,
{
    let rest = (width - e) as nat;
    vstd::arithmetic::power2::lemma_pow2_adds(rest, e);
    vstd::arithmetic::power2::lemma_pow2_pos(e);
    lemma_pow2_unfold(rest);
    let p = pow2(e) as int;
    let h = pow2((rest - 1) as nat) as int;
    vstd::arithmetic::power2::lemma_pow2_pos((rest - 1) as nat);
    assert(pow2(width) == 2 * h * p) by (nonlinear_arith)
        requires
            pow2(width) == pow2(rest) * pow2(e),
            pow2(rest) == 2 * h,
            p == pow2(e),
    ;
    let q = 2 * h - 1;
    assert(pow2(width) - 1 == q * p + (p - 1)) by (nonlinear_arith)
        requires
            pow2(width) == 2 * h * p,
            q == 2 * h - 1,
    ;
    vstd::arithmetic::div_mod::lemma_fundamental_div_mod_converse(
        pow2(width) - 1,
        p,
        q,
        p - 1,
    );
}

/// Appends the character of `bit` to `out`.
fn push_bit(out: &mut String, bit: bool)
    ensures
        final(out)@ == old(out)@.push(bit_char(bit)),
{
    proof {
        reveal_strlit("1");
        reveal_strlit("0");
    }
    if bit {
        out.append("1");
        assert(out@ =~= old(out)@.push('1'));
    } else {
        out.append("0");
        assert(out@ =~= old(out)@.push('0'));
    }
}

/// Appends a wildcard to `out`.
fn push_wildcard(out: &mut String)
    ensures
        final(out)@ == old(out)@.push(WILDCARD),
{
    proof {
        reveal_strlit("_");
    }
    out.append("_");
    assert(out@ =~= old(out)@.push('_'));
}

/// Bit `k`, counted from the most significant, of `value` written in `width`
/// bits.
pub fn test_bit(value: u32, width: u32, k: u32) -> (bit: bool)
    requires
        k < width <= MAX_FIELD_WIDTH,
    ensures
        bit == bit_at(value as nat, width as nat, k as int),
{
    let shift: u32 = width - 1 - k;
    let moved: u32 = value >> shift;
    proof {
        vstd::bits::lemma_u32_shr_is_div(value, shift);
        assert(moved & 1 == moved % 2) by (bit_vector);
    }
    moved & 1 == 1
}

/// The first `keep` bits of `value` in `width` bits, then wildcards up to
/// `width` characters.
pub fn prefix_bits(value: u32, width: u32, keep: u32) -> (out: String)
    requires
        keep <= width <= MAX_FIELD_WIDTH,
    ensures
        out@ == prefix_field(value as nat, width as nat, keep as nat),
{
    let mut out = String::new();
    let mut k: u32 = 0;
    while k < width
        invariant
            k <= width <= MAX_FIELD_WIDTH,
            out@ == prefix_field(value as nat, width as nat, keep as nat).take(k as int),
        decreases width - k,
    {
        if k < keep {
            let bit = test_bit(value, width, k);
            push_bit(&mut out, bit);
        } else {
            push_wildcard(&mut out);
        }
        k += 1;
        assert(out@ =~= prefix_field(value as nat, width as nat, keep as nat).take(k as int));
    }
    assert(out@ =~= prefix_field(value as nat, width as nat, keep as nat));
    out
}

/// The bits of `value` in `width` bits where `mask` has a one, and a
/// wildcard where `mask` has a zero.
pub fn masked_bits(value: u32, mask: u32, width: u32) -> (out: String)
    requires
        width <= MAX_FIELD_WIDTH,
    ensures
        out@ == masked_field(value as nat, mask as nat, width as nat),
{
    let mut out = String::new();
    let mut k: u32 = 0;
    while k < width
        invariant
            k <= width <= MAX_FIELD_WIDTH,
            out@ == masked_field(value as nat, mask as nat, width as nat).take(k as int),
        decreases width - k,
    {
        if test_bit(mask, width, k) {
            let bit = test_bit(value, width, k);
            push_bit(&mut out, bit);
        } else {
            push_wildcard(&mut out);
        }
        k += 1;
        assert(out@ =~= masked_field(value as nat, mask as nat, width as nat).take(k as int));
    }
    assert(out@ =~= masked_field(value as nat, mask as nat, width as nat));
    out
}

} // verus!
