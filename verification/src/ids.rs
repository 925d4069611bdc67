//! Identifiers: instances and websites are keyed by 128-bit UUID values.

use vstd::prelude::*;

verus! {

/// Calls `uuid::Uuid::new_v4` and returns the id as its 128-bit value.
/// The value is random: nothing is promised of it.
#[verifier::external_body]
pub(crate) fn new_id() -> (r: u128) {
    uuid::Uuid::new_v4().as_u128()
}

/// The lower-case hex digit for a value below 16.
pub open spec fn hex_digit(d: nat) -> char {
    if d < 10 {
        ((d + 48) as u32) as char
    } else {
        ((d + 87) as u32) as char
    }
}

/// The last `k` hex digits of `n`, most significant first, zero-padded.
pub open spec fn hex_digits(n: nat, k: nat) -> Seq<char>
    decreases k,
{
    if k == 0 {
        Seq::empty()
    } else {
        hex_digits(n / 16, (k - 1) as nat).push(hex_digit(n % 16))
    }
}

/// The "simple" form of a UUID: its 128-bit value as 32 lower-case hex digits.
pub open spec fn simple_form(id: u128) -> Seq<char> {
    hex_digits(id as nat, 32)
}

/// `16` to the power `k`.
pub open spec fn pow16(k: nat) -> nat
    decreases k,
{
    if k == 0 {
        1
    } else {
        16 * pow16((k - 1) as nat)
    }
}

/// Every 128-bit value fits in 32 hex digits.
pub proof fn lemma_u128_below_pow16_32(id: u128)
    ensures
        (id as nat) < pow16(32),
{
    reveal_with_fuel(pow16, 33);
    assert(pow16(32) == 0x1_0000_0000_0000_0000_0000_0000_0000_0000);
}

/// `k` hex digits are `k` characters long.
pub proof fn lemma_hex_digits_len(n: nat, k: nat)
    ensures
        hex_digits(n, k).len() == k,
    decreases k,
{
    if k > 0 {
        lemma_hex_digits_len(n / 16, (k - 1) as nat);
    }
}

/// Different values below 16 have different hex digits.
pub proof fn lemma_hex_digit_injective(x: nat, y: nat)
    requires
        x < 16,
        y < 16,
        hex_digit(x) == hex_digit(y),
    ensures
        x == y,
{
    assert(hex_digit(x) as u32 == if x < 10 { x + 48 } else { x + 87 });
    assert(hex_digit(y) as u32 == if y < 10 { y + 48 } else { y + 87 });
}

/// Values below `16^k` are told apart by their last `k` hex digits.
pub proof fn lemma_hex_digits_injective(a: nat, b: nat, k: nat)
    requires
        a < pow16(k),
        b < pow16(k),
        hex_digits(a, k) == hex_digits(b, k),
    ensures
        a == b,
    decreases k,
{
    if k > 0 {
        let p = pow16((k - 1) as nat);
        let sa = hex_digits(a, k);
        let sb = hex_digits(b, k);
        assert(sa.last() == hex_digit(a % 16));
        assert(sb.last() == hex_digit(b % 16));
        lemma_hex_digit_injective(a % 16, b % 16);
        assert(sa.drop_last() =~= hex_digits(a / 16, (k - 1) as nat));
        assert(sb.drop_last() =~= hex_digits(b / 16, (k - 1) as nat));
        assert(a / 16 < p) by (nonlinear_arith)
            requires
                a < 16 * p,
        ;
        assert(b / 16 < p) by (nonlinear_arith)
            requires
                b < 16 * p,
        ;
        lemma_hex_digits_injective(a / 16, b / 16, (k - 1) as nat);
    }
}

/// Different ids have different simple forms.
pub proof fn lemma_simple_form_injective(a: u128, b: u128)
    requires
        simple_form(a) == simple_form(b),
    ensures
        a == b,
{
    lemma_u128_below_pow16_32(a);
    lemma_u128_below_pow16_32(b);
    lemma_hex_digits_injective(a as nat, b as nat, 32);
}

/// Calls `uuid::Uuid::simple` on the UUID with value `id` and renders it:
/// the 32 lower-case hex digits of the value, most significant first.
#[verifier::external_body]
pub(crate) fn uuid_simple(id: u128) -> (r: String)
    ensures
        r@ == simple_form(id),
{
    uuid::Uuid::from_u128(id).simple().to_string()
}

} // verus!
