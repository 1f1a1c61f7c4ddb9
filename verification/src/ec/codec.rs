//! Six data shards and four parity shards, any six of which give the data back.
use vstd::prelude::*;

use crate::bytes::{copy_range, same_id, zero_bytes};
use crate::ec::field::{gf_mul, gf_pow, lemma_product_zero, lemma_sums, product};
use crate::ec::matrix::{
    apply, combined, dot, invert, inverses, lemma_dot_combined, lemma_powers, powers, rows, shaped,
    singular,
};
use crate::ec::poly::{
    all_zero, eval, evals, interpolated, lemma_interpolation, lemma_roots,
};
use crate::hashing::{blake3_digest, digest_bytes};

verus! {

pub const DATA_SHARDS: usize = 6;

pub const PARITY_SHARDS: usize = 4;

pub const TOTAL_SHARDS: usize = 10;

/// The bytes of one shard and the digest that they should have.
#[derive(Debug, PartialEq, Eq)]
pub struct ShardBuffer {
    bytes: Vec<u8>,
    expected_checksum: [u8; 32],
}

impl ShardBuffer {
    pub closed spec fn data(&self) -> Seq<u8> {
        self.bytes@
    }

    pub closed spec fn checksum(&self) -> Seq<u8> {
        self.expected_checksum@
    }

    /// Whether the bytes have the digest that they should have.
    pub open spec fn sound(&self) -> bool {
        blake3_digest(self.data())@ == self.checksum()
    }

    /// A shard with the digest of its bytes.
    pub fn from_bytes(bytes: Vec<u8>) -> (shard: Self)
        ensures
            shard.data() == bytes@,
            shard.checksum() == blake3_digest(bytes@)@,
    {
        let expected_checksum = digest_bytes(bytes.as_slice());
        ShardBuffer { bytes, expected_checksum }
    }

    pub fn with_checksum(bytes: Vec<u8>, expected_checksum: [u8; 32]) -> (shard: Self)
        ensures
            shard.data() == bytes@,
            shard.checksum() == expected_checksum@,
    {
        ShardBuffer { bytes, expected_checksum }
    }

    pub fn bytes(&self) -> (bytes: &[u8])
        ensures
            bytes@ == self.data(),
    {
        self.bytes.as_slice()
    }

    pub fn expected_checksum(&self) -> (checksum: [u8; 32])
        ensures
            checksum@ == self.checksum(),
    {
        self.expected_checksum
    }

    pub fn is_valid(&self) -> (valid: bool)
        ensures
            valid == self.sound(),
    {
        let digest = digest_bytes(self.bytes.as_slice());
        same_id(&digest, &self.expected_checksum)
    }
}

impl Clone for ShardBuffer {
    fn clone(&self) -> (copy: Self)
        ensures
            copy.data() == self.data(),
            copy.checksum() == self.checksum(),
    {
        ShardBuffer { bytes: self.bytes.clone(), expected_checksum: self.expected_checksum }
    }
}

/// How many data and parity shards a codec works with.
#[derive(Clone, Copy, Debug, PartialEq, Eq, Structural)]
pub struct EcProfile {
    pub data_shards: usize,
    pub parity_shards: usize,
}

impl EcProfile {
    /// Whether the layout is the supported one.
    pub open spec fn supported(self) -> bool {
        self.data_shards == 6 && self.parity_shards == 4
    }

    /// The one supported layout.
    pub fn six_plus_four() -> (profile: Self)
        ensures
            profile == (EcProfile { data_shards: 6, parity_shards: 4 }),
    {
        EcProfile { data_shards: DATA_SHARDS, parity_shards: PARITY_SHARDS }
    }
}

impl Default for EcProfile {
    fn default() -> (profile: Self)
        ensures
            profile == (EcProfile { data_shards: 6, parity_shards: 4 }),
    {
        EcProfile::six_plus_four()
    }
}

#[derive(Clone, Copy, Debug, PartialEq, Eq, Structural)]
pub enum EcError {
    UnsupportedProfile,
    InvalidShardCount { expected: usize, actual: usize },
    EmptyShardSet,
    UnequalShardLengths,
    TooFewShards { available: usize, required: usize },
    MissingDataShard(usize),
    SingularMatrix,
}

/// The points of the first `n` shards.
pub open spec fn points(n: nat) -> Seq<u8> {
    Seq::new(n, |i: int| (i + 1) as u8)
}

/// The bytes at one position of several shards.
pub open spec fn column(shards: Seq<Seq<u8>>, at: int) -> Seq<u8> {
    Seq::new(shards.len(), |i: int| shards[i][at])
}

/// The bytes at one position of all shards: the values, at the shards' points, of the
/// polynomial that has the data bytes as its values at the data shards' points.
pub open spec fn codeword(data: Seq<u8>) -> Seq<u8> {
    evals(interpolated(points(6), data), points(10))
}

/// The parity shards of the data shards.
pub open spec fn parity_of(data: Seq<Seq<u8>>) -> Seq<Seq<u8>> {
    Seq::new(
        4,
        |p: int| Seq::new(data[0].len(), |at: int| codeword(column(data, at))[6 + p]),
    )
}

/// Whether all shards have the length of the first.
pub open spec fn even(shards: Seq<Seq<u8>>) -> bool {
    forall|i: int| 0 <= i < shards.len() ==> (#[trigger] shards[i]).len() == shards[0].len()
}

/// Why shards cannot be encoded.
pub open spec fn encode_problem(profile: EcProfile, data: Seq<Seq<u8>>) -> Option<EcError> {
    if !profile.supported() {
        Some(EcError::UnsupportedProfile)
    } else if data.len() != 6 {
        Some(EcError::InvalidShardCount { expected: 6, actual: data.len() as usize })
    } else if !even(data) {
        Some(EcError::UnequalShardLengths)
    } else {
        None
    }
}

/// The indices, in order, of the shards that are there and sound.
pub open spec fn available(shards: Seq<Option<ShardBuffer>>) -> Seq<int>
    decreases shards.len(),
{
    if shards.len() == 0 {
        Seq::empty()
    } else {
        let before = available(shards.drop_last());
        if shards.last() is Some && shards.last()->0.sound() {
            before.push(shards.len() - 1)
        } else {
            before
        }
    }
}

/// The bytes of the shards with the given indices.
pub open spec fn shard_bytes(shards: Seq<Option<ShardBuffer>>, indices: Seq<int>) -> Seq<Seq<u8>> {
    Seq::new(indices.len(), |k: int| shards[indices[k]]->0.data())
}

/// Why shards cannot be rebuilt.
pub open spec fn reconstruct_problem(
    profile: EcProfile,
    shards: Seq<Option<ShardBuffer>>,
) -> Option<EcError> {
    let found = available(shards);
    if !profile.supported() {
        Some(EcError::UnsupportedProfile)
    } else if shards.len() != 10 {
        Some(EcError::InvalidShardCount { expected: 10, actual: shards.len() as usize })
    } else if found.len() < 6 {
        Some(EcError::TooFewShards { available: found.len() as usize, required: 6 })
    } else if !even(shard_bytes(shards, found)) {
        Some(EcError::UnequalShardLengths)
    } else {
        None
    }
}

/// The points of the shards with the given indices.
pub open spec fn points_of(indices: Seq<int>) -> Seq<u8> {
    Seq::new(indices.len(), |k: int| (indices[k] + 1) as u8)
}

/// The data shards of the code that has the given bytes at the given indices.
pub open spec fn decoded(indices: Seq<int>, bytes: Seq<Seq<u8>>) -> Seq<Seq<u8>> {
    Seq::new(
        6,
        |i: int|
            Seq::new(
                bytes[0].len(),
                |at: int|
                    eval(interpolated(points_of(indices), column(bytes, at)), (i + 1) as u8),
            ),
    )
}

/// The data shards that the first six sound shards give.
pub open spec fn reconstructed(shards: Seq<Option<ShardBuffer>>) -> Seq<Seq<u8>> {
    let chosen = available(shards).take(6);
    decoded(chosen, shard_bytes(shards, chosen))
}

/// Whether the indices name distinct shards.
pub open spec fn shard_indices(indices: Seq<int>) -> bool {
    &&& forall|k: int| 0 <= k < indices.len() ==> 0 <= #[trigger] indices[k] < 10
    &&& indices.no_duplicates()
}

pub proof fn lemma_available(shards: Seq<Option<ShardBuffer>>)
    ensures
        available(shards).len() <= shards.len(),
        available(shards).no_duplicates(),
        forall|k: int|
            0 <= k < available(shards).len() ==> {
                let i = #[trigger] available(shards)[k];
                0 <= i < shards.len() && shards[i] is Some && shards[i]->0.sound()
            },
    decreases shards.len(),
{
    if shards.len() > 0 {
        let before = available(shards.drop_last());
        lemma_available(shards.drop_last());
        assert forall|k: int| 0 <= k < available(shards).len() implies {
            let i = #[trigger] available(shards)[k];
            0 <= i < shards.len() && shards[i] is Some && shards[i]->0.sound()
        } by {
            if k < before.len() {
                assert(before[k] == available(shards)[k]);
                assert(shards.drop_last()[before[k]] == shards[before[k]]);
            }
        }
        assert forall|j: int, k: int|
            0 <= j < available(shards).len() && 0 <= k < available(shards).len() && j
                != k implies available(shards)[j] != available(shards)[k] by {
            if j < before.len() {
                assert(before[j] == available(shards)[j]);
            }
            if k < before.len() {
                assert(before[k] == available(shards)[k]);
            }
        }
    }
}

pub proof fn lemma_points(indices: Seq<int>)
    requires
        shard_indices(indices),
    ensures
        points_of(indices).no_duplicates(),
{
    let p = points_of(indices);
    assert forall|j: int, k: int| 0 <= j < p.len() && 0 <= k < p.len() && j != k implies p[j]
        != p[k] by {
        assert(indices[j] != indices[k]);
    }
}

pub proof fn lemma_first_points(n: nat)
    requires
        n <= 10,
    ensures
        points(n).no_duplicates(),
        points(n) == points_of(Seq::new(n, |i: int| i)),
{
    let indices = Seq::new(n, |i: int| i);
    assert(points(n) =~= points_of(indices));
    lemma_points(indices);
}

/// The matrix that takes data bytes to the bytes of all shards.
pub open spec fn generates(m: Seq<Seq<u8>>) -> bool {
    &&& shaped(m, 10, 6)
    &&& forall|data: Seq<u8>| data.len() == 6 ==> #[trigger] apply(m, data) == codeword(data)
}

/// The rows of powers of some points take coefficients to values.
proof fn lemma_power_rows(m: Seq<Seq<u8>>, at: Seq<u8>, poly: Seq<u8>)
    requires
        m.len() == at.len(),
        forall|i: int| 0 <= i < m.len() ==> #[trigger] m[i] == powers(at[i], poly.len()),
    ensures
        apply(m, poly) == evals(poly, at),
{
    assert forall|i: int| 0 <= i < m.len() implies apply(m, poly)[i] == evals(poly, at)[i] by {
        assert(m[i] == powers(at[i], poly.len()));
        lemma_powers(at[i], poly);
    }
    assert(apply(m, poly) =~= evals(poly, at));
}

/// Rows of powers of as many distinct points make a regular matrix.
proof fn lemma_power_rows_regular(m: Seq<Seq<u8>>, at: Seq<u8>)
    requires
        m.len() == at.len(),
        at.no_duplicates(),
        forall|i: int| 0 <= i < m.len() ==> #[trigger] m[i] == powers(at[i], m.len()),
    ensures
        !singular(m),
{
    if singular(m) {
        let x = choose|x: Seq<u8>|
            x.len() == m.len() && !all_zero(x) && all_zero(#[trigger] apply(m, x));
        lemma_power_rows(m, at, x);
        lemma_roots(x, at);
    }
}

/// One more term of a product of rows.
pub proof fn lemma_dot_take(a: Seq<u8>, b: Seq<u8>, k: int)
    requires
        0 <= k < a.len(),
        a.len() == b.len(),
    ensures
        dot(a.take(k + 1), b.take(k + 1)) == dot(a.take(k), b.take(k)) ^ product(a[k], b[k]),
    decreases k,
{
    let (ta, tb) = (a.take(k + 1), b.take(k + 1));
    if k == 0 {
        assert(dot(ta.drop_first(), tb.drop_first()) == 0);
        assert(dot(a.take(0), b.take(0)) == 0);
        lemma_sums(product(a[0], b[0]), 0, 0);
    } else {
        let (ra, rb) = (a.drop_first(), b.drop_first());
        lemma_dot_take(ra, rb, k - 1);
        assert(ta.drop_first() =~= ra.take(k));
        assert(tb.drop_first() =~= rb.take(k));
        assert(a.take(k).drop_first() =~= ra.take(k - 1));
        assert(b.take(k).drop_first() =~= rb.take(k - 1));
        lemma_sums(
            product(a[0], b[0]),
            dot(ra.take(k - 1), rb.take(k - 1)),
            product(a[k], b[k]),
        );
    }
}

/// Adds `coefficient` times `input` to `output`.
pub(crate) fn accumulate(output: &mut Vec<u8>, coefficient: u8, input: &[u8])
    requires
        old(output)@.len() == input@.len(),
    ensures
        final(output)@ == combined(old(output)@, coefficient, input@),
{
    let ghost before = output@;
    let n: usize = output.len();
    let mut i: usize = 0;
    while i < n
        invariant
            i <= n,
            n == output@.len(),
            n == before.len(),
            n == input@.len(),
            forall|k: int| 0 <= k < i ==> output@[k] == combined(before, coefficient, input@)[k],
            forall|k: int| i <= k < n ==> output@[k] == before[k],
        decreases n - i,
    {
        let value: u8 = output[i] ^ gf_mul(coefficient, input[i]);
        output.set(i, value);
        i = i + 1;
    }
    proof {
        assert(output@ =~= combined(before, coefficient, input@));
    }
}

/// The first six powers of the points of all shards.
fn power_rows() -> (m: Vec<Vec<u8>>)
    ensures
        m@.len() == 10,
        forall|i: int| 0 <= i < 10 ==> #[trigger] rows(m@)[i] == powers((i + 1) as u8, 6),
{
    let mut m: Vec<Vec<u8>> = Vec::new();
    let mut row: usize = 0;
    while row < TOTAL_SHARDS
        invariant
            row <= 10,
            m@.len() == row,
            forall|i: int| 0 <= i < row ==> (#[trigger] m@[i])@ == powers((i + 1) as u8, 6),
        decreases 10 - row,
    {
        let base: u8 = (row + 1) as u8;
        let mut items: Vec<u8> = Vec::new();
        let mut at: usize = 0;
        while at < DATA_SHARDS
            invariant
                at <= 6,
                items@ == powers(base, 6).take(at as int),
            decreases 6 - at,
        {
            items.push(gf_pow(base, at as u8));
            at = at + 1;
            proof {
                assert(items@ =~= powers(base, 6).take(at as int));
            }
        }
        proof {
            assert(items@ =~= powers(base, 6));
        }
        m.push(items);
        row = row + 1;
    }
    m
}

/// The sum of the rows of a matrix, each times its coefficient.
fn combination(coefficients: &Vec<u8>, m: &Vec<Vec<u8>>, width: usize) -> (row: Vec<u8>)
    requires
        coefficients@.len() == m@.len(),
        shaped(rows(m@), m@.len(), width as nat),
    ensures
        row@.len() == width,
        forall|w: Seq<u8>|
            w.len() == width ==> #[trigger] dot(row@, w) == dot(coefficients@, apply(rows(m@), w)),
{
    let mut row: Vec<u8> = zero_bytes(width);
    let ghost c = coefficients@;
    proof {
        assert forall|w: Seq<u8>| w.len() == width implies #[trigger] dot(row@, w) == dot(
            c.take(0),
            apply(rows(m@), w).take(0),
        ) by {
            lemma_zero_row(row@, w);
        }
    }
    let mut k: usize = 0;
    while k < coefficients.len()
        invariant
            k <= c.len(),
            c == coefficients@,
            c.len() == m@.len(),
            shaped(rows(m@), m@.len(), width as nat),
            row@.len() == width,
            forall|w: Seq<u8>|
                w.len() == width ==> #[trigger] dot(row@, w) == dot(
                    c.take(k as int),
                    apply(rows(m@), w).take(k as int),
                ),
        decreases c.len() - k,
    {
        let ghost before = row@;
        let ghost source = rows(m@)[k as int];
        assert(source == m@[k as int]@ && source.len() == width);
        accumulate(&mut row, coefficients[k], m[k].as_slice());
        proof {
            assert forall|w: Seq<u8>| w.len() == width implies #[trigger] dot(row@, w) == dot(
                c.take(k + 1),
                apply(rows(m@), w).take(k + 1),
            ) by {
                lemma_dot_combined(before, c[k as int], source, w);
                lemma_dot_take(c, apply(rows(m@), w), k as int);
                assert(dot(before, w) == dot(c.take(k as int), apply(rows(m@), w).take(k as int)));
            }
        }
        k = k + 1;
    }
    proof {
        assert(c.take(c.len() as int) =~= c);
        assert forall|w: Seq<u8>| w.len() == width implies #[trigger] dot(row@, w) == dot(
            c,
            apply(rows(m@), w),
        ) by {
            assert(apply(rows(m@), w).take(c.len() as int) =~= apply(rows(m@), w));
        }
    }
    row
}

proof fn lemma_zero_row(row: Seq<u8>, w: Seq<u8>)
    requires
        row.len() == w.len(),
        all_zero(row),
    ensures
        dot(row, w) == 0,
    decreases row.len(),
{
    if row.len() > 0 {
        let rest = row.drop_first();
        assert forall|i: int| 0 <= i < rest.len() implies rest[i] == 0 by {
            assert(row[i + 1] == 0);
        }
        lemma_zero_row(rest, w.drop_first());
        lemma_product_zero(w[0]);
        lemma_sums(0, 0, 0);
    }
}

/// The matrix that takes data bytes to the bytes of all shards.
pub fn generator_matrix() -> (result: Result<Vec<Vec<u8>>, EcError>)
    ensures
        result matches Ok(m) && generates(rows(m@)),
{
    let all = power_rows();
    let mut top: Vec<Vec<u8>> = Vec::new();
    let mut i: usize = 0;
    while i < DATA_SHARDS
        invariant
            i <= 6,
            all@.len() == 10,
            top@.len() == i,
            forall|k: int| 0 <= k < 10 ==> #[trigger] rows(all@)[k] == powers((k + 1) as u8, 6),
            forall|k: int| 0 <= k < i ==> (#[trigger] top@[k])@ == powers((k + 1) as u8, 6),
        decreases 6 - i,
    {
        assert(rows(all@)[i as int] == all@[i as int]@);
        top.push(copy_range(all[i].as_slice(), 0, DATA_SHARDS));
        proof {
            assert(top@[i as int]@ =~= powers((i + 1) as u8, 6));
        }
        i = i + 1;
    }
    proof {
        lemma_first_points(6);
        assert forall|k: int| 0 <= k < 6 implies #[trigger] rows(top@)[k] == powers(
            points(6)[k],
            6,
        ) by {
            assert(top@[k]@ == powers((k + 1) as u8, 6));
        }
        lemma_power_rows_regular(rows(top@), points(6));
    }
    let inverse = match invert(&top) {
        Ok(inverse) => inverse,
        Err(error) => {
            return Err(error);
        },
    };
    let mut generator: Vec<Vec<u8>> = Vec::new();
    let mut row: usize = 0;
    while row < TOTAL_SHARDS
        invariant
            row <= 10,
            all@.len() == 10,
            inverse@.len() == 6,
            shaped(rows(inverse@), 6, 6),
            forall|k: int| 0 <= k < 10 ==> #[trigger] rows(all@)[k] == powers((k + 1) as u8, 6),
            generator@.len() == row,
            forall|k: int| 0 <= k < row ==> (#[trigger] generator@[k])@.len() == 6,
            forall|k: int, w: Seq<u8>|
                0 <= k < row && w.len() == 6 ==> #[trigger] dot(generator@[k]@, w) == dot(
                    rows(all@)[k],
                    apply(rows(inverse@), w),
                ),
        decreases 10 - row,
    {
        assert(rows(all@)[row as int] == all@[row as int]@);
        let made = combination(&all[row], &inverse, DATA_SHARDS);
        generator.push(made);
        row = row + 1;
    }
    proof {
        lemma_generates(rows(generator@), rows(all@), rows(top@), rows(inverse@));
    }
    Ok(generator)
}

/// The powers of all points, after the inverse of those of the data shards' points,
/// take data bytes to the bytes of all shards.
proof fn lemma_generates(
    generator: Seq<Seq<u8>>,
    all: Seq<Seq<u8>>,
    top: Seq<Seq<u8>>,
    inverse: Seq<Seq<u8>>,
)
    requires
        shaped(generator, 10, 6),
        all.len() == 10,
        top.len() == 6,
        inverse.len() == 6,
        inverses(top, inverse),
        forall|k: int| 0 <= k < 10 ==> #[trigger] all[k] == powers((k + 1) as u8, 6),
        forall|k: int| 0 <= k < 6 ==> #[trigger] top[k] == powers(points(6)[k], 6),
        forall|k: int, w: Seq<u8>|
            0 <= k < 10 && w.len() == 6 ==> #[trigger] dot(generator[k], w) == dot(
                all[k],
                apply(inverse, w),
            ),
    ensures
        generates(generator),
{
    assert forall|data: Seq<u8>| data.len() == 6 implies #[trigger] apply(generator, data)
        == codeword(data) by {
        let poly = apply(inverse, data);
        assert(apply(top, poly) == data);
        lemma_power_rows(top, points(6), poly);
        lemma_first_points(6);
        lemma_interpolation(points(6), data);
        assert(evals(poly, points(6)) == data);
        assert(poly == interpolated(points(6), data));
        assert forall|k: int| 0 <= k < 10 implies apply(generator, data)[k] == codeword(data)[k] by {
            assert(dot(generator[k], data) == dot(all[k], poly));
            assert(all[k] == powers((k + 1) as u8, 6));
            lemma_powers((k + 1) as u8, poly);
        }
        assert(apply(generator, data) =~= codeword(data));
    }
}

/// The rows of the generator for any six shards make a regular matrix, whose inverse
/// takes the bytes of those shards to the data bytes.
pub proof fn lemma_decoder(generator: Seq<Seq<u8>>, indices: Seq<int>, part: Seq<Seq<u8>>)
    requires
        generates(generator),
        indices.len() == 6,
        shard_indices(indices),
        part.len() == 6,
        forall|k: int| 0 <= k < 6 ==> #[trigger] part[k] == generator[indices[k]],
    ensures
        !singular(part),
        forall|inverse: Seq<Seq<u8>>, values: Seq<u8>|
            #![trigger inverses(part, inverse), apply(inverse, values)]
            inverses(part, inverse) && values.len() == 6 ==> apply(inverse, values) == evals(
                interpolated(points_of(indices), values),
                points(6),
            ),
{
    let at = points_of(indices);
    lemma_points(indices);
    lemma_first_points(6);
    assert forall|poly: Seq<u8>| poly.len() == 6 implies apply(
        part,
        #[trigger] evals(poly, points(6)),
    ) == evals(poly, at) by {
        let data = evals(poly, points(6));
        lemma_interpolation(points(6), data);
        assert(poly == interpolated(points(6), data));
        assert(apply(generator, data) == codeword(data));
        assert forall|k: int| 0 <= k < 6 implies apply(part, data)[k] == evals(poly, at)[k] by {
            assert(part[k] == generator[indices[k]]);
            assert(apply(generator, data)[indices[k]] == codeword(data)[indices[k]]);
        }
        assert(apply(part, data) =~= evals(poly, at));
    }
    if singular(part) {
        let x = choose|x: Seq<u8>|
            x.len() == part.len() && !all_zero(x) && all_zero(#[trigger] apply(part, x));
        lemma_interpolation(points(6), x);
        let poly = interpolated(points(6), x);
        assert(evals(poly, points(6)) == x);
        assert(apply(part, x) == evals(poly, at));
        lemma_roots(poly, at);
        assert forall|i: int| 0 <= i < 6 implies x[i] == 0 by {
            crate::ec::poly::lemma_eval_zero(poly, points(6)[i]);
            assert(evals(poly, points(6))[i] == x[i]);
        }
    }
    assert forall|inverse: Seq<Seq<u8>>, values: Seq<u8>|
        #![trigger inverses(part, inverse), apply(inverse, values)]
        inverses(part, inverse) && values.len() == 6 implies apply(inverse, values) == evals(
        interpolated(at, values),
        points(6),
    ) by {
        lemma_interpolation(at, values);
        let poly = interpolated(at, values);
        let data = evals(poly, points(6));
        assert(apply(part, data) == values);
        assert(apply(inverse, apply(part, data)) == data);
    }
}

} // verus!
