//! What encoding and rebuilding owe to whoever calls them.
use vstd::prelude::*;

use crate::ec::codec::{
    available, codeword, column, encode_problem, even, generates, lemma_available,
    lemma_first_points, lemma_points, parity_of, points, points_of, reconstruct_problem,
    reconstructed, shard_bytes, shard_indices, EcError, EcProfile, ShardBuffer,
};
use crate::ec::field::{
    lemma_associates, lemma_commutes, lemma_distributes_right, lemma_product_one,
    lemma_product_zero, lemma_regroup, lemma_sums, power, product, shifted,
};
use crate::ec::laws::{encoded, law_any_six_shards_give_the_data, survives};
use crate::ec::matrix::apply;
use crate::ec::poly::{eval, evals, interpolated, lemma_interpolation};
use crate::hashing::blake3_digest;

verus! {

/// Six shards of one length, whatever the length, are encoded into four shards of that
/// length.
pub proof fn law_six_even_shards_are_encoded(data: Seq<Seq<u8>>)
    requires
        data.len() == 6,
        forall|i: int, j: int|
            #![trigger data[i], data[j]]
            0 <= i < 6 && 0 <= j < 6 ==> data[i].len() == data[j].len(),
    ensures
        encode_problem(EcProfile { data_shards: 6, parity_shards: 4 }, data) is None,
        parity_of(data).len() == 4,
        forall|p: int| 0 <= p < 4 ==> (#[trigger] parity_of(data)[p]).len() == data[0].len(),
{
}

/// Another number of shards is refused with that number, and so are shards of two lengths.
pub proof fn law_other_shards_are_refused(data: Seq<Seq<u8>>, i: int, j: int)
    requires
        data.len() <= usize::MAX,
        0 <= i < data.len(),
        0 <= j < data.len(),
    ensures
        ({
            let profile = EcProfile { data_shards: 6, parity_shards: 4 };
            &&& data.len() != 6 ==> encode_problem(profile, data) == Some(
                EcError::InvalidShardCount { expected: 6, actual: data.len() as usize },
            )
            &&& data.len() == 6 && data[i].len() != data[j].len() ==> encode_problem(profile, data)
                == Some(EcError::UnequalShardLengths)
        }),
{
}

/// No layout but six and four is worked with.
pub proof fn law_one_layout(
    profile: EcProfile,
    data: Seq<Seq<u8>>,
    shards: Seq<Option<ShardBuffer>>,
)
    requires
        profile.data_shards != 6 || profile.parity_shards != 4,
    ensures
        encode_problem(profile, data) == Some(EcError::UnsupportedProfile),
        reconstruct_problem(profile, shards) == Some(EcError::UnsupportedProfile),
{
}

/// Whether a slot holds a shard whose bytes have the digest that they should have.
pub open spec fn holds_shard(slot: Option<ShardBuffer>) -> bool {
    slot matches Some(shard) && shard.checksum() == blake3_digest(shard.data())@
}

/// Every sound shard is found.
proof fn lemma_found(shards: Seq<Option<ShardBuffer>>, i: int)
    requires
        0 <= i < shards.len(),
        holds_shard(shards[i]),
    ensures
        available(shards).contains(i),
    decreases shards.len(),
{
    let before = available(shards.drop_last());
    if i < shards.len() - 1 {
        assert(shards.drop_last()[i] == shards[i]);
        lemma_found(shards.drop_last(), i);
        let k = choose|k: int| 0 <= k < before.len() && before[k] == i;
        assert(available(shards)[k] == i);
    } else {
        assert(available(shards)[before.len() as int] == i);
    }
}

/// The sound shards are found in ascending order.
proof fn lemma_found_ascend(shards: Seq<Option<ShardBuffer>>, j: int, k: int)
    requires
        0 <= j < k < available(shards).len(),
    ensures
        available(shards)[j] < available(shards)[k],
    decreases shards.len(),
{
    if shards.len() > 0 {
        let rest = shards.drop_last();
        let before = available(rest);
        lemma_available(rest);
        if k < before.len() {
            lemma_found_ascend(rest, j, k);
        } else {
            assert(before[j] == available(shards)[j]);
        }
    }
}

/// As many distinct sound shards as one can name, at most, are found.
proof fn lemma_enough_found(shards: Seq<Option<ShardBuffer>>, named: Seq<int>)
    requires
        named.no_duplicates(),
        forall|k: int|
            0 <= k < named.len() ==> 0 <= (#[trigger] named[k]) < shards.len() && holds_shard(
                shards[named[k]],
            ),
    ensures
        named.len() <= available(shards).len(),
{
    let found = available(shards);
    lemma_available(shards);
    assert(named.to_set().subset_of(found.to_set())) by {
        assert forall|i: int| named.to_set().contains(i) implies found.to_set().contains(i) by {
            let k = choose|k: int| 0 <= k < named.len() && named[k] == i;
            lemma_found(shards, named[k]);
        }
    }
    named.unique_seq_to_set();
    found.unique_seq_to_set();
    vstd::set_lib::lemma_len_subset(named.to_set(), found.to_set());
}

/// Ten slots with six or more sound shards, all sound ones of one length, are rebuilt,
/// whatever the length and whichever six they are, into six shards of that length.
pub proof fn law_six_sound_shards_are_rebuilt(shards: Seq<Option<ShardBuffer>>, named: Seq<int>)
    requires
        shards.len() == 10,
        named.len() >= 6,
        named.no_duplicates(),
        forall|k: int|
            0 <= k < named.len() ==> 0 <= (#[trigger] named[k]) < 10 && holds_shard(
                shards[named[k]],
            ),
        forall|i: int, j: int|
            #![trigger shards[i], shards[j]]
            0 <= i < 10 && 0 <= j < 10 && holds_shard(shards[i]) && holds_shard(shards[j])
                ==> shards[i]->0.data().len() == shards[j]->0.data().len(),
    ensures
        reconstruct_problem(EcProfile { data_shards: 6, parity_shards: 4 }, shards) is None,
        reconstructed(shards).len() == 6,
        forall|i: int|
            0 <= i < 6 ==> (#[trigger] reconstructed(shards)[i]).len()
                == shards[named[0]]->0.data().len(),
{
    let found = available(shards);
    lemma_enough_found(shards, named);
    lemma_available(shards);
    assert forall|k: int| 0 <= k < found.len() implies (#[trigger] shard_bytes(
        shards,
        found,
    )[k]).len() == shards[named[0]]->0.data().len() by {
        let i = found[k];
        assert(holds_shard(shards[i]) && holds_shard(shards[named[0]]));
    }
    assert(even(shard_bytes(shards, found)));
    let chosen = found.take(6);
    assert(shard_bytes(shards, chosen)[0] == shard_bytes(shards, found)[0]);
}

/// Where at most five slots hold a sound shard, rebuilding is refused with their number.
pub proof fn law_five_shards_are_not_enough(shards: Seq<Option<ShardBuffer>>, named: Seq<int>)
    requires
        shards.len() == 10,
        named.len() <= 5,
        named.no_duplicates(),
        forall|k: int|
            0 <= k < named.len() ==> 0 <= (#[trigger] named[k]) < 10 && holds_shard(
                shards[named[k]],
            ),
        forall|i: int| 0 <= i < 10 && holds_shard(#[trigger] shards[i]) ==> named.contains(i),
    ensures
        reconstruct_problem(EcProfile { data_shards: 6, parity_shards: 4 }, shards) == Some(
            EcError::TooFewShards { available: named.len() as usize, required: 6 },
        ),
{
    let found = available(shards);
    lemma_available(shards);
    lemma_enough_found(shards, named);
    assert(found.to_set().subset_of(named.to_set())) by {
        assert forall|i: int| found.to_set().contains(i) implies named.to_set().contains(i) by {
            let k = choose|k: int| 0 <= k < found.len() && found[k] == i;
            assert(holds_shard(shards[found[k]]));
        }
    }
    named.unique_seq_to_set();
    found.unique_seq_to_set();
    vstd::set_lib::lemma_len_subset(found.to_set(), named.to_set());
}

/// Another number of slots than ten is refused with that number, and so are sound shards of
/// two lengths.
pub proof fn law_other_slots_are_refused(
    shards: Seq<Option<ShardBuffer>>,
    named: Seq<int>,
    i: int,
    j: int,
)
    requires
        shards.len() <= usize::MAX,
    ensures
        ({
            let profile = EcProfile { data_shards: 6, parity_shards: 4 };
            &&& shards.len() != 10 ==> reconstruct_problem(profile, shards) == Some(
                EcError::InvalidShardCount { expected: 10, actual: shards.len() as usize },
            )
            &&& shards.len() == 10 && named.len() == 6 && named.no_duplicates() && (forall|k: int|
                0 <= k < 6 ==> 0 <= (#[trigger] named[k]) < 10 && holds_shard(shards[named[k]]))
                && 0 <= i < 10 && 0 <= j < 10 && holds_shard(shards[i]) && holds_shard(shards[j])
                && shards[i]->0.data().len() != shards[j]->0.data().len() ==> reconstruct_problem(
                profile,
                shards,
            ) == Some(EcError::UnequalShardLengths)
        }),
{
    if shards.len() == 10 && named.len() == 6 && named.no_duplicates() && (forall|k: int|
        0 <= k < 6 ==> 0 <= (#[trigger] named[k]) < 10 && holds_shard(shards[named[k]])) && 0 <= i
        < 10 && 0 <= j < 10 && holds_shard(shards[i]) && holds_shard(shards[j])
        && shards[i]->0.data().len() != shards[j]->0.data().len() {
        let found = available(shards);
        lemma_enough_found(shards, named);
        lemma_found(shards, i);
        lemma_found(shards, j);
        let a = choose|a: int| 0 <= a < found.len() && found[a] == i;
        let b = choose|b: int| 0 <= b < found.len() && found[b] == j;
        assert(shard_bytes(shards, found)[a].len() != shard_bytes(shards, found)[b].len());
    }
}

/// What was encoded comes back from any six of its ten shards: every four may be missing or
/// hold other bytes than their digest.
pub proof fn law_what_is_encoded_comes_back(
    data: Seq<Seq<u8>>,
    shards: Seq<Option<ShardBuffer>>,
    named: Seq<int>,
)
    requires
        data.len() == 6,
        forall|i: int, j: int|
            #![trigger data[i], data[j]]
            0 <= i < 6 && 0 <= j < 6 ==> data[i].len() == data[j].len(),
        shards.len() == 10,
        named.len() >= 6,
        named.no_duplicates(),
        forall|k: int|
            0 <= k < named.len() ==> 0 <= (#[trigger] named[k]) < 10 && holds_shard(
                shards[named[k]],
            ),
        forall|i: int|
            0 <= i < 10 && holds_shard(#[trigger] shards[i]) ==> shards[i]->0.data() == if i < 6 {
                data[i]
            } else {
                parity_of(data)[i - 6]
            },
    ensures
        reconstruct_problem(EcProfile { data_shards: 6, parity_shards: 4 }, shards) is None,
        reconstructed(shards) == data,
{
    let profile = EcProfile { data_shards: 6, parity_shards: 4 };
    law_six_even_shards_are_encoded(data);
    lemma_enough_found(shards, named);
    assert forall|i: int|
        0 <= i < 10 && (#[trigger] shards[i]) is Some && shards[i]->0.sound() implies shards[i]->0.data()
        == encoded(data)[i] by {
        assert(holds_shard(shards[i]));
    }
    assert(survives(shards, data));
    law_any_six_shards_give_the_data(profile, data, shards);
}

/// The shards are rebuilt from the first six that are sound: encoding what was rebuilt gives
/// those six as they are.
pub proof fn law_rebuilt_data_fits_the_first_six(shards: Seq<Option<ShardBuffer>>, i: int)
    requires
        reconstruct_problem(EcProfile { data_shards: 6, parity_shards: 4 }, shards) is None,
        0 <= i < 10,
        holds_shard(shards[i]),
        forall|named: Seq<int>|
            #![trigger named.no_duplicates()]
            named.no_duplicates() && (forall|k: int|
                0 <= k < named.len() ==> 0 <= (#[trigger] named[k]) < i && holds_shard(
                    shards[named[k]],
                )) ==> named.len() < 6,
    ensures
        shards[i]->0.data() == (reconstructed(shards) + parity_of(reconstructed(shards)))[i],
{
    let found = available(shards);
    let data = reconstructed(shards);
    lemma_available(shards);
    lemma_found(shards, i);
    let at = choose|at: int| 0 <= at < found.len() && found[at] == i;
    if at >= 6 {
        let named = found.take(6);
        assert forall|k: int| 0 <= k < named.len() implies 0 <= (#[trigger] named[k]) < i
            && holds_shard(shards[named[k]]) by {
            lemma_found_ascend(shards, k, at);
            assert(found[k] == named[k]);
        }
        assert(named.no_duplicates());
        assert(false);
    }
    let chosen = found.take(6);
    let bytes = shard_bytes(shards, chosen);
    let len = bytes[0].len();
    assert forall|k: int| 0 <= k < 6 implies (#[trigger] bytes[k]).len() == len by {
        assert(bytes[k] == shard_bytes(shards, found)[k]);
        assert(bytes[0] == shard_bytes(shards, found)[0]);
    }
    assert(shard_indices(chosen)) by {
        assert forall|j: int| 0 <= j < 6 implies 0 <= #[trigger] chosen[j] < 10 by {
            assert(chosen[j] == found[j]);
        }
        assert forall|a: int, b: int|
            0 <= a < chosen.len() && 0 <= b < chosen.len() && a != b implies chosen[a]
            != chosen[b] by {
            assert(found[a] != found[b]);
        }
    }
    lemma_points(chosen);
    lemma_first_points(6);
    let out = (data + parity_of(data))[i];
    assert(out.len() == len);
    assert forall|p: int| 0 <= p < len implies bytes[at][p] == out[p] by {
        let values = column(bytes, p);
        let poly = interpolated(points_of(chosen), values);
        lemma_interpolation(points_of(chosen), values);
        assert(evals(poly, points_of(chosen))[at] == values[at]);
        assert(points_of(chosen)[at] == (i + 1) as u8);
        assert(bytes[at][p] == eval(poly, (i + 1) as u8));
        let line = column(data, p);
        assert(line =~= evals(poly, points(6))) by {
            assert forall|k: int| 0 <= k < 6 implies line[k] == evals(poly, points(6))[k] by {
                assert(data[k][p] == eval(poly, (k + 1) as u8));
            }
        }
        lemma_interpolation(points(6), line);
        assert(poly == interpolated(points(6), line));
        if i >= 6 {
            assert(points(10)[i] == (i + 1) as u8);
            assert(codeword(line)[i] == eval(poly, (i + 1) as u8));
            assert(parity_of(data)[i - 6][p] == codeword(line)[i]);
        }
    }
    assert(bytes[at] =~= out);
    assert(bytes[at] == shards[i]->0.data());
}

/// The value at `x` of the polynomial with the six coefficients, lowest first.
pub open spec fn value_at(c: Seq<u8>, x: u8) -> u8 {
    c[0] ^ product(x, c[1] ^ product(x, c[2] ^ product(x, c[3] ^ product(x, c[4] ^ product(x, c[5])))))
}

proof fn lemma_value_at(c: Seq<u8>, x: u8)
    requires
        c.len() == 6,
    ensures
        eval(c, x) == value_at(c, x),
{
    reveal_with_fuel(eval, 7);
    let r1 = c.drop_first();
    let r2 = r1.drop_first();
    let r3 = r2.drop_first();
    let r4 = r3.drop_first();
    let r5 = r4.drop_first();
    assert(r1[0] == c[1] && r2[0] == c[2] && r3[0] == c[3] && r4[0] == c[4] && r5[0] == c[5]);
    assert(r5.drop_first().len() == 0);
    assert(eval(r5.drop_first(), x) == 0);
    lemma_product_zero(x);
    lemma_sums(c[5], 0, 0);
    assert(eval(r5, x) == c[5]);
}

/// The data bytes at one position are the values at one to six of a polynomial with six
/// coefficients, and the parity bytes are its values at seven to ten.
pub proof fn law_parity_goes_on_with_the_polynomial(
    data: Seq<Seq<u8>>,
    at: int,
    c: Seq<u8>,
    p: int,
)
    requires
        data.len() == 6,
        forall|i: int, j: int|
            #![trigger data[i], data[j]]
            0 <= i < 6 && 0 <= j < 6 ==> data[i].len() == data[j].len(),
        0 <= at < data[0].len(),
        c.len() == 6,
        forall|i: int| 0 <= i < 6 ==> (#[trigger] data[i])[at] == value_at(c, (i + 1) as u8),
        0 <= p < 4,
    ensures
        parity_of(data)[p][at] == value_at(c, (7 + p) as u8),
{
    let line = column(data, at);
    lemma_first_points(6);
    lemma_interpolation(points(6), line);
    assert(evals(c, points(6)) =~= line) by {
        assert forall|i: int| 0 <= i < 6 implies evals(c, points(6))[i] == line[i] by {
            lemma_value_at(c, (i + 1) as u8);
            assert(data[i][at] == value_at(c, (i + 1) as u8));
        }
    }
    assert(c == interpolated(points(6), line));
    lemma_value_at(c, (7 + p) as u8);
    assert(points(10)[6 + p] == (7 + p) as u8);
}

/// Encoding is linear: the parity of the sum of two sets of shards is the sum of their
/// parities, and shards of zeros have parity of zeros.
pub proof fn law_parity_is_linear(a: Seq<Seq<u8>>, b: Seq<Seq<u8>>, c: Seq<Seq<u8>>, p: int, at: int)
    requires
        a.len() == 6,
        b.len() == 6,
        c.len() == 6,
        forall|i: int|
            0 <= i < 6 ==> (#[trigger] a[i]).len() == a[0].len() && b[i].len() == a[0].len()
                && c[i].len() == a[0].len(),
        0 <= at < a[0].len(),
        forall|i: int| 0 <= i < 6 ==> (#[trigger] c[i])[at] == a[i][at] ^ b[i][at],
        0 <= p < 4,
    ensures
        parity_of(c)[p][at] == parity_of(a)[p][at] ^ parity_of(b)[p][at],
{
    let (la, lb, lc) = (column(a, at), column(b, at), column(c, at));
    assert(b[0].len() == a[0].len() && c[0].len() == a[0].len()) by {
        assert(a[0].len() == a[0].len());
    }
    lemma_first_points(6);
    lemma_interpolation(points(6), la);
    lemma_interpolation(points(6), lb);
    lemma_interpolation(points(6), lc);
    let (pa, pb) = (interpolated(points(6), la), interpolated(points(6), lb));
    let pc = Seq::new(6, |i: int| pa[i] ^ pb[i]);
    assert forall|x: u8| value_at(pc, x) == value_at(pa, x) ^ value_at(pb, x) by {
        lemma_value_sums(pa, pb, pc, x);
    }
    assert(evals(pc, points(6)) =~= lc) by {
        assert forall|i: int| 0 <= i < 6 implies evals(pc, points(6))[i] == lc[i] by {
            let x = points(6)[i];
            lemma_value_at(pc, x);
            lemma_value_at(pa, x);
            lemma_value_at(pb, x);
            assert(evals(pa, points(6))[i] == la[i] && evals(pb, points(6))[i] == lb[i]);
            assert(value_at(pc, x) == value_at(pa, x) ^ value_at(pb, x));
            assert(c[i][at] == a[i][at] ^ b[i][at]);
        }
    }
    assert(pc == interpolated(points(6), lc));
    let x = points(10)[6 + p];
    lemma_value_at(pc, x);
    lemma_value_at(pa, x);
    lemma_value_at(pb, x);
    assert(value_at(pc, x) == value_at(pa, x) ^ value_at(pb, x));
}

proof fn lemma_value_sums(a: Seq<u8>, b: Seq<u8>, c: Seq<u8>, x: u8)
    requires
        a.len() == 6,
        b.len() == 6,
        c == Seq::new(6, |i: int| a[i] ^ b[i]),
    ensures
        value_at(c, x) == value_at(a, x) ^ value_at(b, x),
{
    let (a5, b5) = (product(x, a[5]), product(x, b[5]));
    let (a4, b4) = (product(x, a[4] ^ a5), product(x, b[4] ^ b5));
    let (a3, b3) = (product(x, a[3] ^ a4), product(x, b[3] ^ b4));
    let (a2, b2) = (product(x, a[2] ^ a3), product(x, b[2] ^ b3));
    let (a1, b1) = (product(x, a[1] ^ a2), product(x, b[1] ^ b2));
    lemma_distributes_right(x, a[5], b[5]);
    lemma_regroup(a[4], b[4], a5, b5);
    lemma_distributes_right(x, a[4] ^ a5, b[4] ^ b5);
    lemma_regroup(a[3], b[3], a4, b4);
    lemma_distributes_right(x, a[3] ^ a4, b[3] ^ b4);
    lemma_regroup(a[2], b[2], a3, b3);
    lemma_distributes_right(x, a[2] ^ a3, b[2] ^ b3);
    lemma_regroup(a[1], b[1], a2, b2);
    lemma_distributes_right(x, a[1] ^ a2, b[1] ^ b2);
    lemma_regroup(a[0], b[0], a1, b1);
}

/// The field in which shards are encoded: products commute, associate and distribute over
/// sums by exclusive or, one changes nothing, and twice an element is the element shifted by
/// one, less the polynomial x^8 + x^4 + x^3 + x^2 + 1 where it overflows.
pub proof fn law_products_of_the_field(a: u8, b: u8, c: u8)
    ensures
        product(a, b) == product(b, a),
        product(product(a, b), c) == product(a, product(b, c)),
        product(a, b ^ c) == product(a, b) ^ product(a, c),
        product(a, 1) == a,
        a < 128 ==> product(a, 2) == 2 * a,
        a >= 128 ==> product(a, 2) == ((2 * a - 256) as u8) ^ 0x1d,
{
    lemma_commutes(a, b);
    lemma_associates(a, b, c);
    lemma_distributes_right(a, b, c);
    lemma_product_one(a);
    assert(product(a, 2) == shifted(a)) by {
        assert(product(a, 2) == 0 ^ product(shifted(a), 1));
        lemma_product_one(shifted(a));
        lemma_sums(shifted(a), 0, 0);
    }
    assert(a < 128 ==> shifted(a) == 2 * a) by (bit_vector);
    assert(a >= 128 ==> shifted(a) == ((2 * a - 256) as u8) ^ 0x1d) by (bit_vector);
}

/// Powers are repeated products: none is one, and each multiplies the one before.
pub proof fn law_powers_are_repeated_products(a: u8, n: nat)
    ensures
        power(a, 0) == 1,
        power(a, n + 1) == product(a, power(a, n)),
        power(a, 1) == a,
{
    lemma_product_one(a);
    assert(power(a, 1) == product(a, power(a, 0)));
}

/// The rows of a generator take six bytes to themselves and their four parity bytes.
pub proof fn law_generators_keep_the_data(m: Seq<Seq<u8>>, data: Seq<Seq<u8>>, at: int, i: int)
    requires
        generates(m),
        data.len() == 6,
        forall|k: int| 0 <= k < 6 ==> (#[trigger] data[k]).len() == data[0].len(),
        0 <= at < data[0].len(),
        0 <= i < 10,
    ensures
        m.len() == 10,
        m[i].len() == 6,
        apply(m, Seq::new(6, |k: int| data[k][at])).len() == 10,
        i < 6 ==> apply(m, Seq::new(6, |k: int| data[k][at]))[i] == data[i][at],
        i >= 6 ==> apply(m, Seq::new(6, |k: int| data[k][at]))[i] == parity_of(data)[i - 6][at],
{
    assert(Seq::new(6, |k: int| data[k][at]) =~= column(data, at));
    let line = column(data, at);
    assert(apply(m, line) == codeword(line));
    lemma_first_points(6);
    lemma_interpolation(points(6), line);
    if i < 6 {
        let poly = interpolated(points(6), line);
        assert(evals(poly, points(6))[i] == line[i]);
        assert(points(6)[i] == points(10)[i]);
    }
}

} // verus!
