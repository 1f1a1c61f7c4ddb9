//! The field of 256 elements: bytes as polynomials over the field of two elements,
//! modulo x^8 + x^4 + x^3 + x^2 + 1. Sums are `^`.
use vstd::prelude::*;

verus! {

/// The product with the polynomial x.
pub open spec fn shifted(a: u8) -> u8 {
    if a & 0x80 != 0 {
        (a << 1) ^ 0x1d
    } else {
        a << 1
    }
}

/// The product of two field elements: the sum of `a` times x^i over the bits i of `b`.
pub open spec fn product(a: u8, b: u8) -> u8
    decreases b,
{
    if b == 0 {
        0
    } else {
        (if b % 2 == 1 {
            a
        } else {
            0
        }) ^ product(shifted(a), b / 2)
    }
}

/// The `n`-th power.
pub open spec fn power(a: u8, n: nat) -> u8
    decreases n,
{
    if n == 0 {
        1
    } else {
        product(a, power(a, (n - 1) as nat))
    }
}

/// Sums: commutative, associative, with zero, and every element its own opposite.
pub proof fn lemma_sums(a: u8, b: u8, c: u8)
    ensures
        a ^ b == b ^ a,
        (a ^ b) ^ c == a ^ (b ^ c),
        a ^ 0 == a,
        0 ^ a == a,
        a ^ a == 0,
        a ^ b == 0 ==> a == b,
{
    assert(a ^ b == b ^ a) by (bit_vector);
    assert((a ^ b) ^ c == a ^ (b ^ c)) by (bit_vector);
    assert(a ^ 0 == a && 0 ^ a == a && a ^ a == 0) by (bit_vector);
    assert(a ^ b == 0 ==> a == b) by (bit_vector);
}

/// Two sums of two, regrouped.
pub proof fn lemma_regroup(a: u8, b: u8, c: u8, d: u8)
    ensures
        (a ^ b) ^ (c ^ d) == (a ^ c) ^ (b ^ d),
{
    assert((a ^ b) ^ (c ^ d) == (a ^ c) ^ (b ^ d)) by (bit_vector);
}

/// Multiplying by x respects sums, keeps zero and doubles a small element.
proof fn lemma_shifted(a: u8, b: u8)
    ensures
        shifted(a ^ b) == shifted(a) ^ shifted(b),
        shifted(0) == 0,
        a < 128 ==> shifted(a) == 2 * a,
{
    assert(shifted(a ^ b) == shifted(a) ^ shifted(b)) by (bit_vector);
    assert(shifted(0) == 0) by (bit_vector);
    assert(a < 128 ==> shifted(a) == 2 * a) by (bit_vector);
}

/// The low bit of a sum, and the rest.
proof fn lemma_bits(a: u8, b: u8)
    ensures
        (a ^ b) / 2 == (a / 2) ^ (b / 2),
        (a ^ b) % 2 == 1 <==> (a % 2 == 1) != (b % 2 == 1),
        (a % 2) ^ ((2 * (a / 2)) as u8) == a,
        a / 2 < 128,
{
    assert((a ^ b) / 2 == (a / 2) ^ (b / 2)) by (bit_vector);
    assert((a ^ b) % 2 == 1 <==> (a % 2 == 1) != (b % 2 == 1)) by (bit_vector);
    assert((a % 2) ^ ((2 * (a / 2)) as u8) == a) by (bit_vector);
}

pub proof fn lemma_product_zero(a: u8)
    ensures
        product(a, 0) == 0,
        product(0, a) == 0,
    decreases a,
{
    if a != 0 {
        lemma_shifted(0, 0);
        lemma_product_zero(a / 2);
        lemma_sums(0, 0, 0);
    }
}

/// Products distribute over sums on the left.
pub proof fn lemma_distributes_left(a: u8, c: u8, b: u8)
    ensures
        product(a ^ c, b) == product(a, b) ^ product(c, b),
    decreases b,
{
    lemma_sums(0, 0, 0);
    if b != 0 {
        lemma_shifted(a, c);
        lemma_distributes_left(shifted(a), shifted(c), b / 2);
        let rest_a = product(shifted(a), b / 2);
        let rest_c = product(shifted(c), b / 2);
        lemma_regroup(a, c, rest_a, rest_c);
        lemma_regroup(0, 0, rest_a, rest_c);
    }
}

/// Products distribute over sums on the right.
pub proof fn lemma_distributes_right(a: u8, b: u8, c: u8)
    ensures
        product(a, b ^ c) == product(a, b) ^ product(a, c),
    decreases b + c,
{
    lemma_sums(b, c, 0);
    lemma_sums(product(a, b), 0, 0);
    lemma_sums(product(a, c), 0, 0);
    lemma_sums(c, 0, 0);
    lemma_product_zero(a);
    if b != 0 && c != 0 {
        lemma_bits(b, c);
        lemma_distributes_right(shifted(a), b / 2, c / 2);
        let rest_b = product(shifted(a), b / 2);
        let rest_c = product(shifted(a), c / 2);
        let low_b: u8 = if b % 2 == 1 {
            a
        } else {
            0
        };
        let low_c: u8 = if c % 2 == 1 {
            a
        } else {
            0
        };
        lemma_regroup(low_b, rest_b, low_c, rest_c);
        lemma_sums(a, a, 0);
        lemma_sums(a, 0, 0);
        lemma_sums(0, a, 0);
        if b ^ c == 0 {
            lemma_sums(product(a, b), product(a, b), 0);
        }
    }
}

/// A factor x moves out of the left of a product.
proof fn lemma_shifted_left(a: u8, b: u8)
    ensures
        product(shifted(a), b) == shifted(product(a, b)),
    decreases b,
{
    lemma_shifted(0, 0);
    if b != 0 {
        lemma_shifted_left(shifted(a), b / 2);
        let rest = product(shifted(a), b / 2);
        lemma_shifted(a, rest);
        lemma_shifted(0, rest);
    }
}

/// One is neutral.
pub proof fn lemma_product_one(a: u8)
    ensures
        product(a, 1) == a,
        product(1, a) == a,
    decreases a,
{
    lemma_product_zero(shifted(a));
    lemma_sums(a, 0, 0);
    assert(product(a, 1) == a ^ product(shifted(a), 0));
    if a != 0 {
        lemma_product_one(a / 2);
        lemma_shifted_left(1, a / 2);
        lemma_shifted(a / 2, 0);
        lemma_bits(a, 0);
    }
}

/// Products commute.
pub proof fn lemma_commutes(a: u8, b: u8)
    ensures
        product(a, b) == product(b, a),
    decreases b,
{
    if b == 0 {
        lemma_product_zero(a);
    } else {
        let half = b / 2;
        lemma_bits(b, 0);
        lemma_shifted(half, 0);
        lemma_distributes_left(b % 2, shifted(half), a);
        lemma_shifted_left(half, a);
        lemma_commutes(a, half);
        lemma_shifted_left(a, half);
        lemma_product_one(a);
        lemma_product_zero(a);
        lemma_sums(0, 0, 0);
    }
}

/// Products associate.
pub proof fn lemma_associates(a: u8, b: u8, c: u8)
    ensures
        product(product(a, b), c) == product(a, product(b, c)),
    decreases c,
{
    if c == 0 {
        lemma_product_zero(product(a, b));
        lemma_product_zero(a);
        lemma_product_zero(b);
    } else {
        let half = c / 2;
        lemma_commutes(a, b);
        lemma_commutes(a, shifted(b));
        lemma_shifted_left(b, a);
        lemma_associates(a, shifted(b), half);
        let low: u8 = if c % 2 == 1 {
            b
        } else {
            0
        };
        lemma_distributes_right(a, low, product(shifted(b), half));
        lemma_product_zero(a);
    }
}

/// The square, bit by bit.
spec fn square_bits(a: u8) -> u8 {
    (if a & 1 != 0 {
        1
    } else {
        0u8
    }) ^ (if a & 2 != 0 {
        4
    } else {
        0u8
    }) ^ (if a & 4 != 0 {
        0x10
    } else {
        0u8
    }) ^ (if a & 8 != 0 {
        0x40
    } else {
        0u8
    }) ^ (if a & 0x10 != 0 {
        0x1d
    } else {
        0u8
    }) ^ (if a & 0x20 != 0 {
        0x74
    } else {
        0u8
    }) ^ (if a & 0x40 != 0 {
        0xcd
    } else {
        0u8
    }) ^ (if a & 0x80 != 0 {
        0x13
    } else {
        0u8
    })
}

proof fn lemma_single_bit_squares()
    ensures
        product(1, 1) == 1,
        product(2, 2) == 4,
        product(4, 4) == 0x10,
        product(8, 8) == 0x40,
        product(16, 16) == 0x1d,
        product(32, 32) == 0x74,
        product(64, 64) == 0xcd,
        product(128, 128) == 0x13,
{
    assert(shifted(1) == 2 && shifted(2) == 4 && shifted(4) == 8 && shifted(8) == 16 && shifted(16)
        == 32 && shifted(32) == 64 && shifted(64) == 128 && shifted(128) == 0x1d && shifted(0x1d)
        == 0x3a && shifted(0x3a) == 0x74 && shifted(0x74) == 0xe8 && shifted(0xe8) == 0xcd
        && shifted(0xcd) == 0x87 && shifted(0x87) == 0x13 && shifted(0x13) == 0x26) by (bit_vector);
    reveal_with_fuel(product, 9);
    lemma_sums(1, 0, 0);
    lemma_sums(4, 0, 0);
    lemma_sums(0x10, 0, 0);
    lemma_sums(0x40, 0, 0);
    lemma_sums(0x1d, 0, 0);
    lemma_sums(0x74, 0, 0);
    lemma_sums(0xcd, 0, 0);
    lemma_sums(0x13, 0, 0);
}

/// Squaring respects sums.
proof fn lemma_square_of_sum(a: u8, b: u8)
    ensures
        product(a ^ b, a ^ b) == product(a, a) ^ product(b, b),
{
    lemma_distributes_left(a, b, a ^ b);
    lemma_distributes_right(a, a, b);
    lemma_distributes_right(b, a, b);
    lemma_commutes(a, b);
    let (aa, ab, bb) = (product(a, a), product(a, b), product(b, b));
    assert((aa ^ ab) ^ (ab ^ bb) == aa ^ bb) by (bit_vector);
}

/// The square of one bit of an element.
proof fn lemma_square_of_bit(a: u8, bit: u8)
    requires
        bit == 1 || bit == 2 || bit == 4 || bit == 8 || bit == 0x10 || bit == 0x20 || bit == 0x40
            || bit == 0x80,
    ensures
        product(a & bit, a & bit) == if a & bit != 0 {
            product(bit, bit)
        } else {
            0
        },
{
    assert(a & bit == 0 || a & bit == bit) by (bit_vector)
        requires
            bit == 1 || bit == 2 || bit == 4 || bit == 8 || bit == 0x10 || bit == 0x20 || bit
                == 0x40 || bit == 0x80,
    ;
    lemma_product_zero(0);
}

proof fn lemma_square(a: u8)
    ensures
        product(a, a) == square_bits(a),
{
    let b0 = a & 1;
    let b1 = a & 2;
    let b2 = a & 4;
    let b3 = a & 8;
    let b4 = a & 0x10;
    let b5 = a & 0x20;
    let b6 = a & 0x40;
    let b7 = a & 0x80;
    assert(a == (a & 1) ^ (a & 2) ^ (a & 4) ^ (a & 8) ^ (a & 0x10) ^ (a & 0x20) ^ (a & 0x40) ^ (a
        & 0x80)) by (bit_vector);
    lemma_square_of_sum(b0, b1);
    lemma_square_of_sum(b0 ^ b1, b2);
    lemma_square_of_sum(b0 ^ b1 ^ b2, b3);
    lemma_square_of_sum(b0 ^ b1 ^ b2 ^ b3, b4);
    lemma_square_of_sum(b0 ^ b1 ^ b2 ^ b3 ^ b4, b5);
    lemma_square_of_sum(b0 ^ b1 ^ b2 ^ b3 ^ b4 ^ b5, b6);
    lemma_square_of_sum(b0 ^ b1 ^ b2 ^ b3 ^ b4 ^ b5 ^ b6, b7);
    lemma_square_of_bit(a, 1);
    lemma_square_of_bit(a, 2);
    lemma_square_of_bit(a, 4);
    lemma_square_of_bit(a, 8);
    lemma_square_of_bit(a, 0x10);
    lemma_square_of_bit(a, 0x20);
    lemma_square_of_bit(a, 0x40);
    lemma_square_of_bit(a, 0x80);
    lemma_single_bit_squares();
}

pub proof fn lemma_power_adds(a: u8, m: nat, n: nat)
    ensures
        power(a, m + n) == product(power(a, m), power(a, n)),
    decreases m,
{
    if m == 0 {
        lemma_product_one(power(a, n));
    } else {
        lemma_power_adds(a, (m - 1) as nat, n);
        lemma_associates(a, power(a, (m - 1) as nat), power(a, n));
        assert((m - 1) as nat + n == (m + n - 1) as nat);
    }
}

/// Powers of a square.
pub proof fn lemma_power_doubles(a: u8, n: nat)
    ensures
        power(product(a, a), n) == power(a, 2 * n),
    decreases n,
{
    if n > 0 {
        lemma_power_doubles(a, (n - 1) as nat);
        lemma_power_adds(a, 2, (2 * (n - 1)) as nat);
        lemma_product_one(a);
        assert(power(a, 2) == product(a, a)) by {
            reveal_with_fuel(power, 3);
        }
        assert(2 + (2 * (n - 1)) as nat == 2 * n);
    }
}

/// Every element is its own 256th power.
proof fn lemma_power_256(a: u8)
    ensures
        power(a, 256) == a,
{
    let a1 = product(a, a);
    let a2 = product(a1, a1);
    let a3 = product(a2, a2);
    let a4 = product(a3, a3);
    let a5 = product(a4, a4);
    let a6 = product(a5, a5);
    let a7 = product(a6, a6);
    let a8 = product(a7, a7);
    lemma_square(a);
    lemma_square(a1);
    lemma_square(a2);
    lemma_square(a3);
    lemma_square(a4);
    lemma_square(a5);
    lemma_square(a6);
    lemma_square(a7);
    assert(a8 == a) by (bit_vector)
        requires
            a1 == square_bits(a),
            a2 == square_bits(a1),
            a3 == square_bits(a2),
            a4 == square_bits(a3),
            a5 == square_bits(a4),
            a6 == square_bits(a5),
            a7 == square_bits(a6),
            a8 == square_bits(a7),
    ;
    lemma_power_adds(a, 1, 1);
    lemma_product_one(a);
    assert(power(a, 1) == a) by {
        reveal_with_fuel(power, 2);
    }
    lemma_power_adds(a, 2, 2);
    lemma_power_adds(a, 4, 4);
    lemma_power_adds(a, 8, 8);
    lemma_power_adds(a, 16, 16);
    lemma_power_adds(a, 32, 32);
    lemma_power_adds(a, 64, 64);
    lemma_power_adds(a, 128, 128);
}

/// The 254th power is the inverse.
pub proof fn lemma_inverse(a: u8)
    requires
        a != 0,
    ensures
        product(a, power(a, 254)) == 1,
        product(power(a, 254), a) == 1,
{
    lemma_commutes(a, power(a, 254));
    let one = power(a, 255);
    assert(one == product(a, power(a, 254)));
    lemma_power_256(a);
    assert(power(a, 256) == product(a, one));
    lemma_power_adds(a, 255, 255);
    lemma_power_adds(a, 256, 254);
    lemma_power_adds(a, 1, 254);
    lemma_product_one(a);
    assert(power(a, 1) == a) by {
        reveal_with_fuel(power, 2);
    }
    assert(product(one, one) == one);
    lemma_square(one);
    assert(one == 0 || one == 1) by (bit_vector)
        requires
            square_bits(one) == one,
    ;
    lemma_product_zero(a);
}

/// There are no divisors of zero.
pub proof fn lemma_no_zero_divisors(a: u8, b: u8)
    requires
        product(a, b) == 0,
    ensures
        a == 0 || b == 0,
{
    if a != 0 {
        lemma_inverse(a);
        lemma_associates(power(a, 254), a, b);
        lemma_product_one(b);
        lemma_product_zero(power(a, 254));
    }
}

/// The product of two field elements.
pub fn gf_mul(left: u8, right: u8) -> (result: u8)
    ensures
        result == product(left, right),
{
    let mut result: u8 = 0;
    let mut factor: u8 = left;
    let mut rest: u8 = right;
    proof {
        lemma_sums(product(left, right), 0, 0);
    }
    while rest != 0
        invariant
            result ^ product(factor, rest) == product(left, right),
        decreases rest,
    {
        let ghost before = result;
        let ghost tail = product(shifted(factor), rest / 2);
        proof {
            lemma_sums(before, factor, tail);
            lemma_sums(before, 0, tail);
            assert(rest & 1 == rest % 2) by (bit_vector);
            assert(rest >> 1 == rest / 2) by (bit_vector);
            lemma_sums(tail, 0, 0);
            lemma_sums(before, 0, 0);
        }
        if rest & 1 != 0 {
            result = result ^ factor;
        }
        factor = if factor & 0x80 != 0 {
            (factor << 1) ^ 0x1d
        } else {
            factor << 1
        };
        rest = rest >> 1;
    }
    proof {
        lemma_product_zero(factor);
        lemma_sums(result, 0, 0);
    }
    result
}

/// The power of a field element.
pub fn gf_pow(value: u8, power_of: u8) -> (result: u8)
    ensures
        result == power(value, power_of as nat),
{
    let mut result: u8 = 1;
    let mut base: u8 = value;
    let mut rest: u8 = power_of;
    proof {
        lemma_product_one(power(value, power_of as nat));
    }
    while rest != 0
        invariant
            product(result, power(base, rest as nat)) == power(value, power_of as nat),
        decreases rest,
    {
        proof {
            assert(rest & 1 == rest % 2) by (bit_vector);
            assert(rest >> 1 == rest / 2) by (bit_vector);
            lemma_power_doubles(base, (rest / 2) as nat);
            lemma_associates(result, base, power(base, (rest - rest % 2) as nat));
            if rest % 2 == 1 {
                assert(power(base, rest as nat) == product(base, power(base, (rest - 1) as nat)));
            }
        }
        if rest & 1 != 0 {
            result = gf_mul(result, base);
        }
        base = gf_mul(base, base);
        rest = rest >> 1;
    }
    proof {
        lemma_product_one(result);
    }
    result
}

/// The inverse of a field element other than zero.
pub fn gf_inv(value: u8) -> (inverse: u8)
    requires
        value != 0,
    ensures
        product(value, inverse) == 1,
        product(inverse, value) == 1,
{
    proof {
        lemma_inverse(value);
    }
    gf_pow(value, 254)
}

} // verus!
