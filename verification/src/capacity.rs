use crate::ident::Name;
use crate::text::decimal;
use crate::text::decimal_string;
use crate::text::lemma_decimal_digits;
use crate::text::lemma_identifier_append;
use crate::text::push_decimal;
use syn::LitInt;
use vstd::prelude::*;
use vstd::string::*;

verus! {

/// `syn::LitInt`, an integer literal as a token.
#[verifier::external_type_specification]
#[verifier::external_body]
pub struct ExLitInt(syn::LitInt);

/// The base-ten digits of an integer literal: what
/// `syn::LitInt::base10_digits` gives for it.
pub uninterp spec fn lit_int_digits(lit: LitInt) -> Seq<char>;

/// `syn::LitInt::new` with the span of `proc_macro2::Span::call_site`. The
/// constructor panics on text that is no integer literal. The decimal
/// notation of a number of eight bits is one, without a suffix, and the
/// literal's base-ten digits are that text.
#[verifier::external_body]
fn lit_int_new(text: &str) -> (lit: LitInt)
    requires
        exists|n: u8| text@ == decimal(n as nat),
    ensures
        lit_int_digits(lit) == text@,
{
    LitInt::new(text, proc_macro2::Span::call_site())
}

/// Whether `n` is a power of two.
pub open spec fn is_power_of_two(n: int) -> bool
    decreases n,
{
    if n <= 0 {
        false
    } else if n == 1 {
        true
    } else {
        n % 2 == 0 && is_power_of_two(n / 2)
    }
}

/// The least power of two that is not below `n`.
pub open spec fn next_power_of_two(n: nat) -> nat
    decreases n,
{
    if n <= 1 {
        1
    } else {
        2 * next_power_of_two((n + 1) / 2)
    }
}

/// The capacity that a queue declared with `capacity` is given: the declared
/// one, or the next power of two where rounding is asked for.
pub open spec fn effective_capacity(capacity: nat, round_up_to_power_of_two: bool) -> nat {
    if round_up_to_power_of_two {
        next_power_of_two(capacity)
    } else {
        capacity
    }
}

/// The name of the type-level integer `n`.
pub open spec fn typenum_name(n: nat) -> Seq<char> {
    "U"@ + decimal(n)
}

/// Doubling keeps a power of two a power of two.
pub proof fn lemma_double_power_of_two(n: int)
    requires
        is_power_of_two(n),
    ensures
        is_power_of_two(2 * n),
{
    assert((2 * n) / 2 == n);
}

/// Of two different powers of two the larger is at least twice the smaller.
pub proof fn lemma_powers_of_two_apart(a: int, b: int)
    requires
        is_power_of_two(a),
        is_power_of_two(b),
        a < b,
    ensures
        2 * a <= b,
    decreases b,
{
    if a > 1 {
        lemma_powers_of_two_apart(a / 2, b / 2);
    }
}

/// `next_power_of_two(n)` is a power of two, is not below `n`, and is below
/// twice `n` unless `n` is zero: so it is the least such power.
pub proof fn lemma_next_power_of_two(n: nat)
    ensures
        is_power_of_two(next_power_of_two(n) as int),
        n <= next_power_of_two(n),
        n > 0 ==> next_power_of_two(n) < 2 * n,
        forall|p: int| is_power_of_two(p) && n <= p ==> next_power_of_two(n) <= p,
    decreases n,
{
    if n > 1 {
        lemma_next_power_of_two((n + 1) / 2);
        lemma_double_power_of_two(next_power_of_two((n + 1) / 2) as int);
    }
    let r = next_power_of_two(n) as int;
    assert forall|p: int| is_power_of_two(p) && n <= p implies r <= p by {
        if p < r {
            lemma_powers_of_two_apart(p, r);
        }
    }
}

/// A power of two is its own next power of two.
pub proof fn lemma_next_power_of_two_fixed(n: nat)
    requires
        is_power_of_two(n as int),
    ensures
        next_power_of_two(n) == n,
{
    lemma_next_power_of_two(n);
}

/// The least power of two that is not below `n`, if it fits in eight bits.
pub fn checked_next_power_of_two(n: u8) -> (r: Option<u8>)
    ensures
        r is Some <==> n <= 128,
        r is Some ==> r->0 == next_power_of_two(n as nat),
{
    if n > 128 {
        return None;
    }
    let mut p: u8 = 1;
    while p < n
        invariant
            n <= 128,
            1 <= p <= 128,
            is_power_of_two(p as int),
            p == 1 || p < 2 * n,
        decreases 128 - p,
    {
        proof {
            lemma_double_power_of_two(p as int);
            if p > 64 {
                assert(is_power_of_two(64)) by {
                    reveal_with_fuel(is_power_of_two, 8);
                }
                lemma_powers_of_two_apart(64, p as int);
            }
        }
        p = p * 2;
    }
    proof {
        lemma_next_power_of_two(n as nat);
        let r = next_power_of_two(n as nat) as int;
        if r < p {
            lemma_powers_of_two_apart(r, p as int);
        }
    }
    Some(p)
}

/// The unsuffixed integer literal that writes `capacity`.
pub fn capacity_literal(capacity: u8) -> (lit: LitInt)
    ensures
        lit_int_digits(lit) == decimal(capacity as nat),
{
    let text = decimal_string(capacity as usize);
    lit_int_new(text.as_str())
}

/// The name of the type-level integer that stands for a queue's capacity:
/// `U` and the decimal notation of the declared capacity, or of the next
/// power of two where rounding is asked for.
pub fn capacity_typenum(capacity: u8, round_up_to_power_of_two: bool) -> (name: Name)
    requires
        round_up_to_power_of_two ==> capacity <= 128,
    ensures
        name@ == typenum_name(effective_capacity(capacity as nat, round_up_to_power_of_two)),
{
    let capacity = if round_up_to_power_of_two {
        match checked_next_power_of_two(capacity) {
            Some(rounded) => rounded,
            None => capacity,
        }
    } else {
        capacity
    };
    let mut text = String::from_str("U");
    push_decimal(&mut text, capacity as usize);
    proof {
        reveal_strlit("U");
        lemma_decimal_digits(capacity as nat);
        lemma_identifier_append("U"@, decimal(capacity as nat));
    }
    Name::from_valid(text)
}

} // verus!
