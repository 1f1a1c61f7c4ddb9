//! The codec: parity from data, and data from any six sound shards.
use vstd::prelude::*;

use crate::bytes::zero_bytes;
use crate::ec::codec::{
    accumulate, available, codeword, column, decoded, encode_problem, even, generates,
    generator_matrix, lemma_available, lemma_decoder, lemma_dot_take, parity_of, points, points_of,
    reconstruct_problem, reconstructed, shard_bytes, shard_indices, EcError, EcProfile, ShardBuffer,
    DATA_SHARDS, PARITY_SHARDS, TOTAL_SHARDS,
};
use crate::ec::matrix::{apply, dot, invert, inverses, rows, shaped};
use crate::ec::poly::{eval, evals, interpolated};

verus! {

/// A codec for one layout.
#[derive(Clone, Copy, Debug)]
pub struct ReedSolomon {
    profile: EcProfile,
}

impl Default for ReedSolomon {
    fn default() -> (codec: Self)
        ensures
            codec.layout().supported(),
    {
        ReedSolomon::new()
    }
}

/// Adds one more input to an output that holds the products of the first `k`.
fn mix_in(
    output: &mut Vec<u8>,
    coefficients: &Vec<u8>,
    k: usize,
    input: &[u8],
    shards: Ghost<Seq<Seq<u8>>>,
)
    requires
        k < coefficients@.len(),
        coefficients@.len() == shards@.len(),
        input@ == shards@[k as int],
        old(output)@.len() == input@.len(),
        forall|at: int|
            0 <= at < old(output)@.len() ==> #[trigger] old(output)@[at] == dot(
                coefficients@.take(k as int),
                column(shards@, at).take(k as int),
            ),
    ensures
        final(output)@.len() == old(output)@.len(),
        forall|at: int|
            0 <= at < final(output)@.len() ==> #[trigger] final(output)@[at] == dot(
                coefficients@.take(k + 1),
                column(shards@, at).take(k + 1),
            ),
{
    let ghost before = output@;
    accumulate(output, coefficients[k], input);
    proof {
        assert forall|at: int| 0 <= at < output@.len() implies #[trigger] output@[at] == dot(
            coefficients@.take(k + 1),
            column(shards@, at).take(k + 1),
        ) by {
            lemma_dot_take(coefficients@, column(shards@, at), k as int);
            assert(before[at] == dot(
                coefficients@.take(k as int),
                column(shards@, at).take(k as int),
            ));
        }
    }
}

impl ReedSolomon {
    pub closed spec fn layout(&self) -> EcProfile {
        self.profile
    }

    pub fn new() -> (codec: Self)
        ensures
            codec.layout().supported(),
    {
        ReedSolomon { profile: EcProfile::six_plus_four() }
    }

    pub fn with_profile(profile: EcProfile) -> (result: Result<Self, EcError>)
        ensures
            match result {
                Ok(codec) => profile.supported() && codec.layout() == profile,
                Err(error) => !profile.supported() && error == EcError::UnsupportedProfile,
            },
    {
        if profile.data_shards != DATA_SHARDS || profile.parity_shards != PARITY_SHARDS {
            return Err(EcError::UnsupportedProfile);
        }
        Ok(ReedSolomon { profile })
    }

    pub fn profile(&self) -> (profile: EcProfile)
        ensures
            profile == self.layout(),
    {
        self.profile
    }

    fn validate_profile(&self) -> (result: Result<(), EcError>)
        ensures
            result == if self.layout().supported() {
                Ok::<(), EcError>(())
            } else {
                Err(EcError::UnsupportedProfile)
            },
    {
        if self.profile == EcProfile::six_plus_four() {
            Ok(())
        } else {
            Err(EcError::UnsupportedProfile)
        }
    }

    /// The parity shards of six data shards of one length.
    pub fn encode(&self, data: &[Vec<u8>]) -> (result: Result<Vec<Vec<u8>>, EcError>)
        ensures
            match result {
                Ok(parity) => {
                    &&& encode_problem(self.layout(), rows(data@)) is None
                    &&& rows(parity@) == parity_of(rows(data@))
                },
                Err(error) => encode_problem(self.layout(), rows(data@)) == Some(error),
            },
    {
        let ghost shards = rows(data@);
        match self.validate_profile() {
            Ok(_) => {},
            Err(error) => {
                return Err(error);
            },
        }
        if data.len() != DATA_SHARDS {
            return Err(EcError::InvalidShardCount { expected: DATA_SHARDS, actual: data.len() });
        }
        let len: usize = data[0].len();
        let mut i: usize = 0;
        while i < data.len()
            invariant
                i <= data@.len(),
                self.layout().supported(),
                data@.len() == 6,
                shards == rows(data@),
                len == shards[0].len(),
                forall|k: int| 0 <= k < i ==> (#[trigger] shards[k]).len() == len,
            decreases data@.len() - i,
        {
            assert(shards[i as int] == data@[i as int]@);
            if data[i].len() != len {
                assert(!even(shards));
                return Err(EcError::UnequalShardLengths);
            }
            i = i + 1;
        }
        let matrix = match generator_matrix() {
            Ok(matrix) => matrix,
            Err(error) => {
                return Err(error);
            },
        };
        let ghost generator = rows(matrix@);
        let mut parity: Vec<Vec<u8>> = Vec::new();
        let mut p: usize = 0;
        while p < PARITY_SHARDS
            invariant
                p <= 4,
                data@.len() == 6,
                shards == rows(data@),
                even(shards),
                len == shards[0].len(),
                generator == rows(matrix@),
                generates(generator),
                parity@.len() == p,
                forall|k: int| 0 <= k < p ==> (#[trigger] parity@[k])@ == parity_of(shards)[k],
            decreases 4 - p,
        {
            let mut output: Vec<u8> = zero_bytes(len);
            let ghost row = generator[6 + p];
            assert(row.len() == 6 && row == matrix@[6 + p]@);
            let mut d: usize = 0;
            while d < DATA_SHARDS
                invariant
                    d <= 6,
                    p < 4,
                    data@.len() == 6,
                    shards == rows(data@),
                    even(shards),
                    len == shards[0].len(),
                    matrix@.len() == 10,
                    row == matrix@[6 + p]@,
                    row.len() == 6,
                    output@.len() == len,
                    forall|at: int|
                        0 <= at < len ==> #[trigger] output@[at] == dot(
                            row.take(d as int),
                            column(shards, at).take(d as int),
                        ),
                decreases 6 - d,
            {
                assert(shards[d as int] == data@[d as int]@);
                assert(shards[d as int].len() == len);
                mix_in(&mut output, &matrix[DATA_SHARDS + p], d, data[d].as_slice(), Ghost(shards));
                d = d + 1;
            }
            proof {
                assert forall|at: int| 0 <= at < len implies output@[at] == parity_of(
                    shards,
                )[p as int][at] by {
                    let bytes = column(shards, at);
                    assert(row.take(6) =~= row);
                    assert(bytes.take(6) =~= bytes);
                    assert(apply(generator, bytes) == codeword(bytes));
                    assert(apply(generator, bytes)[6 + p] == dot(row, bytes));
                }
                assert(output@ =~= parity_of(shards)[p as int]);
            }
            parity.push(output);
            p = p + 1;
        }
        proof {
            assert(rows(parity@) =~= parity_of(shards));
        }
        Ok(parity)
    }

    /// The data shards, from the first six sound ones among ten.
    pub fn reconstruct(&self, shards: &[Option<ShardBuffer>]) -> (result: Result<
        Vec<Vec<u8>>,
        EcError,
    >)
        ensures
            match result {
                Ok(data) => {
                    &&& reconstruct_problem(self.layout(), shards@) is None
                    &&& rows(data@) == reconstructed(shards@)
                },
                Err(error) => reconstruct_problem(self.layout(), shards@) == Some(error),
            },
    {
        match self.validate_profile() {
            Ok(_) => {},
            Err(error) => {
                return Err(error);
            },
        }
        if shards.len() != TOTAL_SHARDS {
            return Err(
                EcError::InvalidShardCount { expected: TOTAL_SHARDS, actual: shards.len() },
            );
        }
        let found = sound_shards(shards);
        let ghost indices = found@.map_values(|i: usize| i as int);
        proof {
            lemma_available(shards@);
            assert(indices == available(shards@));
        }
        if found.len() < DATA_SHARDS {
            return Err(
                EcError::TooFewShards { available: found.len(), required: DATA_SHARDS },
            );
        }
        assert(indices[0] == found@[0] && available(shards@)[0] == indices[0]);
        let len: usize = shard_len(shards, found[0]);
        let mut k: usize = 0;
        while k < found.len()
            invariant
                k <= found@.len(),
                self.layout().supported(),
                shards@.len() == 10,
                found@.len() >= 6,
                indices == found@.map_values(|i: usize| i as int),
                indices == available(shards@),
                len == shard_bytes(shards@, indices)[0].len(),
                forall|j: int|
                    0 <= j < k ==> (#[trigger] shard_bytes(shards@, indices)[j]).len() == len,
            decreases found@.len() - k,
        {
            proof {
                lemma_available(shards@);
                assert(indices[k as int] == found@[k as int]);
            }
            if shard_len(shards, found[k]) != len {
                assert(shard_bytes(shards@, indices)[k as int].len() != len);
                assert(!even(shard_bytes(shards@, indices)));
                return Err(EcError::UnequalShardLengths);
            }
            k = k + 1;
        }
        let ghost chosen = indices.take(6);
        let ghost bytes = shard_bytes(shards@, chosen);
        proof {
            assert(even(shard_bytes(shards@, indices)));
            assert forall|j: int| 0 <= j < 6 implies (#[trigger] bytes[j]).len() == len by {
                assert(bytes[j] == shard_bytes(shards@, indices)[j]);
            }
            assert(bytes[0].len() == len);
            lemma_available(shards@);
            assert forall|j: int| 0 <= j < 6 implies #[trigger] chosen[j] == found@[j]
                && shards@[chosen[j]] is Some && shards@[chosen[j]]->0.data().len() == len by {
                assert(chosen[j] == available(shards@)[j]);
                assert(bytes[j].len() == len);
            }
            assert(shard_indices(chosen)) by {
                assert forall|j: int| 0 <= j < 6 implies 0 <= #[trigger] chosen[j] < 10 by {
                    assert(chosen[j] == available(shards@)[j]);
                }
                assert forall|a: int, b: int|
                    0 <= a < chosen.len() && 0 <= b < chosen.len() && a != b implies chosen[a]
                    != chosen[b] by {
                    assert(indices[a] != indices[b]);
                }
            }
        }
        decode_selected(shards, &found, len, Ghost(chosen))
    }

    /// All ten shards, from the first six sound ones.
    pub fn reconstruct_all(&self, shards: &[Option<ShardBuffer>]) -> (result: Result<
        Vec<Vec<u8>>,
        EcError,
    >)
        ensures
            match result {
                Ok(all) => {
                    &&& reconstruct_problem(self.layout(), shards@) is None
                    &&& rows(all@) == reconstructed(shards@) + parity_of(reconstructed(shards@))
                },
                Err(error) => reconstruct_problem(self.layout(), shards@) == Some(error),
            },
    {
        let mut all = match self.reconstruct(shards) {
            Ok(data) => data,
            Err(error) => {
                return Err(error);
            },
        };
        let ghost data = reconstructed(shards@);
        let mut parity = match self.encode(all.as_slice()) {
            Ok(parity) => parity,
            Err(error) => {
                assert(data.len() == 6);
                assert(even(data));
                return Err(error);
            },
        };
        let ghost (front, back) = (all@, parity@);
        all.append(&mut parity);
        proof {
            assert(all@ == front + back);
            assert(rows(all@) =~= rows(front) + rows(back));
        }
        Ok(all)
    }
}

/// The indices of the shards that are there and sound.
fn sound_shards(shards: &[Option<ShardBuffer>]) -> (found: Vec<usize>)
    ensures
        found@.map_values(|i: usize| i as int) == available(shards@),
{
    let mut found: Vec<usize> = Vec::new();
    let mut i: usize = 0;
    proof {
        assert(found@.map_values(|i: usize| i as int) =~= available(shards@.take(0)));
    }
    while i < shards.len()
        invariant
            i <= shards@.len(),
            found@.map_values(|i: usize| i as int) == available(shards@.take(i as int)),
        decreases shards@.len() - i,
    {
        let ghost before = found@;
        let ghost part = shards@.take(i + 1);
        assert(part.drop_last() =~= shards@.take(i as int));
        match &shards[i] {
            Some(shard) => {
                if shard.is_valid() {
                    found.push(i);
                    proof {
                        assert(found@.map_values(|i: usize| i as int) =~= before.map_values(
                            |i: usize| i as int,
                        ).push(i as int));
                    }
                }
            },
            None => {},
        }
        i = i + 1;
    }
    proof {
        assert(shards@.take(shards@.len() as int) =~= shards@);
    }
    found
}

/// The length of a shard that is there.
fn shard_len(shards: &[Option<ShardBuffer>], i: usize) -> (len: usize)
    requires
        i < shards@.len(),
        shards@[i as int] is Some,
    ensures
        len == shards@[i as int]->0.data().len(),
{
    match &shards[i] {
        Some(shard) => shard.bytes().len(),
        None => 0,
    }
}

/// The data shards, from the first six of the given ones.
fn decode_selected(
    shards: &[Option<ShardBuffer>],
    found: &Vec<usize>,
    len: usize,
    chosen: Ghost<Seq<int>>,
) -> (result: Result<Vec<Vec<u8>>, EcError>)
    requires
        shards@.len() == 10,
        found@.len() >= 6,
        chosen@.len() == 6,
        shard_indices(chosen@),
        forall|k: int|
            0 <= k < 6 ==> #[trigger] chosen@[k] == found@[k] && shards@[chosen@[k]] is Some
                && shards@[chosen@[k]]->0.data().len() == len,
    ensures
        result matches Ok(data) && rows(data@) == decoded(chosen@, shard_bytes(shards@, chosen@)),
{
    let ghost bytes = shard_bytes(shards@, chosen@);
    assert(bytes[0].len() == len) by {
        assert(shards@[chosen@[0]]->0.data().len() == len);
    }
    let generator = match generator_matrix() {
        Ok(generator) => generator,
        Err(error) => {
            return Err(error);
        },
    };
    let mut part: Vec<Vec<u8>> = Vec::new();
    let mut row: usize = 0;
    while row < DATA_SHARDS
        invariant
            row <= 6,
            found@.len() >= 6,
            chosen@.len() == 6,
            shard_indices(chosen@),
            forall|k: int| 0 <= k < 6 ==> #[trigger] chosen@[k] == found@[k],
            generates(rows(generator@)),
            part@.len() == row,
            forall|k: int|
                0 <= k < row ==> (#[trigger] part@[k])@ == rows(generator@)[chosen@[k]],
        decreases 6 - row,
    {
        assert(chosen@[row as int] == found@[row as int]);
        let index: usize = found[row];
        assert(rows(generator@)[index as int].len() == 6);
        assert(rows(generator@)[index as int] == generator@[index as int]@);
        let copy = crate::bytes::copy_range(generator[index].as_slice(), 0, DATA_SHARDS);
        proof {
            assert(copy@ =~= generator@[index as int]@);
        }
        part.push(copy);
        row = row + 1;
    }
    proof {
        assert forall|k: int| 0 <= k < 6 implies #[trigger] rows(part@)[k] == rows(
            generator@,
        )[chosen@[k]] by {
            assert(part@[k]@ == rows(generator@)[chosen@[k]]);
        }
        lemma_decoder(rows(generator@), chosen@, rows(part@));
        assert forall|k: int| 0 <= k < 6 implies (#[trigger] rows(part@)[k]).len() == 6 by {
            assert(rows(generator@)[chosen@[k]].len() == 6);
        }
    }
    let inverse = match invert(&part) {
        Ok(inverse) => inverse,
        Err(error) => {
            return Err(error);
        },
    };
    let mut data: Vec<Vec<u8>> = Vec::new();
    let mut i: usize = 0;
    while i < DATA_SHARDS
        invariant
            i <= 6,
            shards@.len() == 10,
            found@.len() >= 6,
            chosen@.len() == 6,
            shard_indices(chosen@),
            forall|k: int|
                0 <= k < 6 ==> #[trigger] chosen@[k] == found@[k] && shards@[chosen@[k]] is Some
                    && shards@[chosen@[k]]->0.data().len() == len,
            bytes == shard_bytes(shards@, chosen@),
            bytes[0].len() == len,
            inverse@.len() == 6,
            shaped(rows(inverse@), 6, 6),
            inverses(rows(part@), rows(inverse@)),
            forall|inverse: Seq<Seq<u8>>, values: Seq<u8>|
                #![trigger inverses(rows(part@), inverse), apply(inverse, values)]
                inverses(rows(part@), inverse) && values.len() == 6 ==> apply(inverse, values)
                    == evals(interpolated(points_of(chosen@), values), points(6)),
            data@.len() == i,
            forall|k: int| 0 <= k < i ==> (#[trigger] data@[k])@ == decoded(chosen@, bytes)[k],
        decreases 6 - i,
    {
        let ghost line = rows(inverse@)[i as int];
        assert(line.len() == 6 && line == inverse@[i as int]@);
        let mut output: Vec<u8> = zero_bytes(len);
        let mut k: usize = 0;
        while k < DATA_SHARDS
            invariant
                k <= 6,
                i < 6,
                shards@.len() == 10,
                found@.len() >= 6,
                chosen@.len() == 6,
                shard_indices(chosen@),
                forall|k: int|
                    0 <= k < 6 ==> #[trigger] chosen@[k] == found@[k] && shards@[chosen@[k]] is Some
                        && shards@[chosen@[k]]->0.data().len() == len,
                bytes == shard_bytes(shards@, chosen@),
                inverse@.len() == 6,
                line.len() == 6,
                line == inverse@[i as int]@,
                output@.len() == len,
                forall|at: int|
                    0 <= at < len ==> #[trigger] output@[at] == dot(
                        line.take(k as int),
                        column(bytes, at).take(k as int),
                    ),
            decreases 6 - k,
        {
            assert(chosen@[k as int] == found@[k as int]);
            match &shards[found[k]] {
                Some(shard) => {
                    assert(bytes[k as int] == shard.data());
                    mix_in(&mut output, &inverse[i], k, shard.bytes(), Ghost(bytes));
                },
                None => {},
            }
            k = k + 1;
        }
        proof {
            assert forall|at: int| 0 <= at < len implies output@[at] == decoded(
                chosen@,
                bytes,
            )[i as int][at] by {
                let values = column(bytes, at);
                assert(line.take(6) =~= line);
                assert(values.take(6) =~= values);
                let poly = interpolated(points_of(chosen@), values);
                assert(inverses(rows(part@), rows(inverse@)));
                assert(apply(rows(inverse@), values) == evals(poly, points(6)));
                assert(apply(rows(inverse@), values)[i as int] == dot(line, values));
                assert(evals(poly, points(6))[i as int] == eval(poly, (i + 1) as u8));
            }
            assert(output@ =~= decoded(chosen@, bytes)[i as int]);
        }
        data.push(output);
        i = i + 1;
    }
    proof {
        assert(rows(data@) =~= decoded(chosen@, bytes));
    }
    Ok(data)
}

} // verus!
