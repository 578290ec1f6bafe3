//! Content hashes as text.
use std::collections::hash_map::DefaultHasher;
use std::hash::Hasher;
use vstd::bytes::{spec_u64_to_le_bytes, u64_to_le_bytes};
use vstd::prelude::*;
use vstd::std_specs::hash::DefaultHasherAdditionalSpecFns;

use crate::text::{string_of, Text};

verus! {

/// The digit of a number below sixteen.
pub open spec fn hex_digit(d: nat) -> char {
    if d < 10 {
        (('0' as nat) + d) as char
    } else {
        (('a' as nat) + d - 10) as char
    }
}

/// The last `count` hexadecimal digits of a number, in small letters, with
/// zeros in front.
pub open spec fn hex_digits(n: nat, count: nat) -> Text
    decreases count,
{
    if count == 0 {
        Seq::empty()
    } else {
        hex_digits(n / 16, (count - 1) as nat).push(hex_digit(n % 16))
    }
}

proof fn lemma_hex_digits_len(n: nat, count: nat)
    ensures
        hex_digits(n, count).len() == count,
    decreases count,
{
    if count > 0 {
        lemma_hex_digits_len(n / 16, (count - 1) as nat);
    }
}

/// Numbers with the same digits are the same up to those digits.
proof fn lemma_hex_digits_injective(a: nat, b: nat, count: nat)
    requires
        hex_digits(a, count) == hex_digits(b, count),
        a < bound(count),
        b < bound(count),
    ensures
        a == b,
    decreases count,
{
    if count > 0 {
        let x = hex_digits(a, count);
        let y = hex_digits(b, count);
        let rest = (count - 1) as nat;
        assert(x.drop_last() =~= hex_digits(a / 16, rest));
        assert(y.drop_last() =~= hex_digits(b / 16, rest));
        assert(x.last() == hex_digit(a % 16));
        assert(y.last() == hex_digit(b % 16));
        assert(a / 16 < bound(rest)) by {
            assert(bound(count) == 16 * bound(rest));
        }
        assert(b / 16 < bound(rest)) by {
            assert(bound(count) == 16 * bound(rest));
        }
        lemma_hex_digits_injective(a / 16, b / 16, rest);
        assert(a % 16 == b % 16);
    }
}

/// Sixteen to the power of `count`.
spec fn bound(count: nat) -> nat
    decreases count,
{
    if count == 0 {
        1
    } else {
        16 * bound((count - 1) as nat)
    }
}

/// Different numbers have different digits.
pub proof fn hex_is_injective(a: u64, b: u64)
    requires
        hex_digits(a as nat, 16) == hex_digits(b as nat, 16),
    ensures
        a == b,
{
    assert(bound(16) == 0x1_0000_0000_0000_0000) by {
        reveal_with_fuel(bound, 17);
    }
    lemma_hex_digits_injective(a as nat, b as nat, 16);
}

/// A number as sixteen hexadecimal digits.
pub fn hex16(n: u64) -> (r: String)
    ensures
        r@ == hex_digits(n as nat, 16),
{
    let mut digits: Vec<char> = vec!['0'; 16];
    let mut left: u64 = n;
    let mut at: usize = 16;
    proof {
        lemma_hex_digits_len(n as nat, 16);
    }
    assert(hex_digits(n as nat, 16) =~= hex_digits(left as nat, at as nat) + digits@.skip(at as int));
    while at > 0
        invariant
            at <= 16,
            digits@.len() == 16,
            hex_digits(n as nat, 16) == hex_digits(left as nat, at as nat) + digits@.skip(at as int),
        decreases at,
    {
        let d: u8 = (left % 16) as u8;
        let c = if d < 10 {
            (48 + d) as char
        } else {
            (87 + d) as char
        };
        let ghost was = digits@.skip(at as int);
        let ghost front = hex_digits((left / 16) as nat, (at - 1) as nat);
        assert(c == hex_digit((left as nat) % 16));
        at = at - 1;
        digits.set(at, c);
        assert(digits@.skip(at as int) =~= seq![c] + was);
        assert(front.push(c) + was =~= front + (seq![c] + was));
        left = left / 16;
    }
    let r = string_of(&digits, 0, 16);
    assert(digits@.skip(0) =~= digits@);
    assert(r@ =~= digits@);
    r
}

/// The hash of some bytes: the digits of what the default hasher makes of
/// their number, as eight bytes with the lowest first, and of the bytes.
pub open spec fn hash_of(bytes: Seq<u8>) -> Text {
    hex_digits(
        DefaultHasher::spec_finish(seq![spec_u64_to_le_bytes(bytes.len() as u64), bytes]) as nat,
        16,
    )
}

/// A hash of some bytes: the same for the same bytes within one release of the
/// standard library.
pub fn content_hash(bytes: &[u8]) -> (r: String)
    ensures
        r@ == hash_of(bytes@),
{
    let mut hasher = DefaultHasher::new();
    let count = u64_to_le_bytes(bytes.len() as u64);
    hasher.write(count.as_slice());
    hasher.write(bytes);
    assert(hasher@ =~= seq![spec_u64_to_le_bytes(bytes@.len() as u64), bytes@]);
    hex16(hasher.finish())
}

/// A hash has sixteen digits.
pub proof fn hashes_have_sixteen_digits(bytes: Seq<u8>)
    ensures
        hash_of(bytes).len() == 16,
{
    lemma_hex_digits_len(
        DefaultHasher::spec_finish(seq![spec_u64_to_le_bytes(bytes.len() as u64), bytes]) as nat,
        16,
    );
}

/// Multiplied by sixteen and with a digit added, a number has one more digit: a
/// numeral, or a small letter from `a` for ten to `f` for fifteen.
pub proof fn digits_are_read_from_the_left(n: nat, d: nat, count: nat)
    requires
        d < 16,
    ensures
        ({
            let c = hex_digits(16 * n + d, count + 1).last();
            &&& hex_digits(16 * n + d, count + 1) == hex_digits(n, count).push(c)
            &&& d < 10 ==> '0' <= c <= '9' && c as int - '0' as int == d
            &&& d >= 10 ==> 'a' <= c <= 'f' && c as int - 'a' as int == d - 10
        }),
{
    assert((16 * n + d) / 16 == n);
    assert((16 * n + d) % 16 == d);
}

} // verus!
