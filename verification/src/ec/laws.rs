//! What the code promises.
use vstd::prelude::*;

use crate::ec::codec::{
    available, codeword, column, encode_problem, even, lemma_available, lemma_first_points,
    lemma_points, parity_of, points, points_of, reconstruct_problem, reconstructed, shard_bytes,
    shard_indices, EcProfile, ShardBuffer,
};
use crate::ec::poly::{eval, evals, interpolated, lemma_interpolation};

verus! {

/// All ten shards of some data.
pub open spec fn encoded(data: Seq<Seq<u8>>) -> Seq<Seq<u8>> {
    data + parity_of(data)
}

/// Whether every shard that is there and sound is the one that encoding gave, and at
/// least six are.
pub open spec fn survives(shards: Seq<Option<ShardBuffer>>, data: Seq<Seq<u8>>) -> bool {
    &&& shards.len() == 10
    &&& available(shards).len() >= 6
    &&& forall|i: int|
        0 <= i < 10 && (#[trigger] shards[i]) is Some && shards[i]->0.sound()
            ==> shards[i]->0.data() == encoded(data)[i]
}

/// A shard holds, at each position, the value at its point of the polynomial through
/// the data.
proof fn lemma_encoded(data: Seq<Seq<u8>>, i: int, at: int)
    requires
        data.len() == 6,
        even(data),
        0 <= i < 10,
        0 <= at < data[0].len(),
    ensures
        encoded(data)[i].len() == data[0].len(),
        encoded(data)[i][at] == eval(interpolated(points(6), column(data, at)), (i + 1) as u8),
{
    let bytes = column(data, at);
    let poly = interpolated(points(6), bytes);
    lemma_first_points(6);
    lemma_interpolation(points(6), bytes);
    assert(data[i].len() == data[0].len() || i >= 6);
    if i < 6 {
        assert(evals(poly, points(6))[i] == bytes[i]);
        assert(points(6)[i] == (i + 1) as u8);
    } else {
        assert(encoded(data)[i] == parity_of(data)[i - 6]);
        assert(parity_of(data)[i - 6][at] == codeword(bytes)[i]);
        assert(points(10)[i] == (i + 1) as u8);
    }
}

/// Whatever six or more shards survive, the data comes back.
pub proof fn law_any_six_shards_give_the_data(
    profile: EcProfile,
    data: Seq<Seq<u8>>,
    shards: Seq<Option<ShardBuffer>>,
)
    requires
        encode_problem(profile, data) is None,
        survives(shards, data),
    ensures
        reconstruct_problem(profile, shards) is None,
        reconstructed(shards) == data,
{
    lemma_available(shards);
    let found = available(shards);
    let chosen = found.take(6);
    let bytes = shard_bytes(shards, chosen);
    let len = data[0].len();
    assert forall|k: int| 0 <= k < found.len() implies (#[trigger] shard_bytes(shards, found)[k])
        == encoded(data)[found[k]] && shard_bytes(shards, found)[k].len() == len by {
        let i = found[k];
        assert(shards[i] is Some && shards[i]->0.sound());
        if i < 6 {
            assert(data[i].len() == len);
        }
    }
    assert(even(shard_bytes(shards, found)));
    assert(shard_indices(chosen)) by {
        assert forall|j: int| 0 <= j < 6 implies 0 <= #[trigger] chosen[j] < 10 by {
            assert(chosen[j] == found[j]);
        }
        assert forall|a: int, b: int|
            0 <= a < chosen.len() && 0 <= b < chosen.len() && a != b implies chosen[a]
            != chosen[b] by {
            assert(found[a] != found[b]);
        }
    }
    lemma_points(chosen);
    assert(bytes[0].len() == len) by {
        assert(bytes[0] == shard_bytes(shards, found)[0]);
    }
    let result = reconstructed(shards);
    assert forall|i: int| 0 <= i < 6 implies #[trigger] result[i] == data[i] by {
        assert(data[i].len() == len);
        assert forall|at: int| 0 <= at < len implies result[i][at] == data[i][at] by {
            let poly = interpolated(points(6), column(data, at));
            let values = column(bytes, at);
            lemma_first_points(6);
            lemma_interpolation(points(6), column(data, at));
            assert forall|k: int| 0 <= k < 6 implies evals(poly, points_of(chosen))[k]
                == values[k] by {
                assert(bytes[k] == shard_bytes(shards, found)[k]);
                assert(chosen[k] == found[k]);
                lemma_encoded(data, chosen[k], at);
            }
            assert(evals(poly, points_of(chosen)) =~= values);
            lemma_interpolation(points_of(chosen), values);
            assert(poly == interpolated(points_of(chosen), values));
            lemma_encoded(data, i, at);
        }
        assert(result[i] =~= data[i]);
    }
    assert(result =~= data);
}

/// Whatever six or more shards survive, rebuilding gives all ten as encoding made them.
pub proof fn law_repair_gives_all_shards(
    profile: EcProfile,
    data: Seq<Seq<u8>>,
    shards: Seq<Option<ShardBuffer>>,
)
    requires
        encode_problem(profile, data) is None,
        survives(shards, data),
    ensures
        reconstructed(shards) + parity_of(reconstructed(shards)) == encoded(data),
{
    law_any_six_shards_give_the_data(profile, data, shards);
}

/// Different data agree in at most five of the ten bytes that encode them.
pub proof fn law_codewords_differ_in_five_places(a: Seq<u8>, b: Seq<u8>, places: Seq<int>)
    requires
        a.len() == 6,
        b.len() == 6,
        places.len() == 6,
        shard_indices(places),
        forall|k: int| 0 <= k < 6 ==> codeword(a)[#[trigger] places[k]] == codeword(b)[places[k]],
    ensures
        a == b,
{
    lemma_first_points(6);
    lemma_points(places);
    lemma_interpolation(points(6), a);
    lemma_interpolation(points(6), b);
    let at = points_of(places);
    let (pa, pb) = (interpolated(points(6), a), interpolated(points(6), b));
    let values = evals(pb, at);
    assert forall|k: int| 0 <= k < 6 implies evals(pa, at)[k] == values[k] by {
        assert(codeword(a)[places[k]] == codeword(b)[places[k]]);
        assert(points(10)[places[k]] == at[k]);
    }
    assert(evals(pa, at) =~= values);
    lemma_interpolation(at, values);
    assert(pa == pb);
}

/// The code is systematic: the data bytes are the first six of the ten.
pub proof fn law_data_stands_first(data: Seq<u8>)
    requires
        data.len() == 6,
    ensures
        codeword(data).take(6) == data,
{
    lemma_first_points(6);
    lemma_interpolation(points(6), data);
    let poly = interpolated(points(6), data);
    assert forall|i: int| 0 <= i < 6 implies codeword(data)[i] == data[i] by {
        assert(evals(poly, points(6))[i] == data[i]);
        assert(points(10)[i] == points(6)[i]);
    }
    assert(codeword(data).take(6) =~= data);
}

} // verus!
