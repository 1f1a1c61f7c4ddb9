//! Little-endian integers and byte-range helpers.
use vstd::prelude::*;

verus! {

/// 256 to the power `width`: one more than the largest value `width` bytes hold.
pub open spec fn pow256(width: nat) -> nat
    decreases width,
{
    if width == 0 {
        1
    } else {
        256 * pow256((width - 1) as nat)
    }
}

/// The `width` low-order bytes of `value`, least significant first.
pub open spec fn le_bytes(value: nat, width: nat) -> Seq<u8>
    decreases width,
{
    if width == 0 {
        Seq::empty()
    } else {
        seq![(value % 256) as u8] + le_bytes(value / 256, (width - 1) as nat)
    }
}

/// The number whose little-endian digits are `bytes`.
pub open spec fn le_value(bytes: Seq<u8>) -> nat
    decreases bytes.len(),
{
    if bytes.len() == 0 {
        0
    } else {
        bytes[0] as nat + 256 * le_value(bytes.drop_first())
    }
}

/// `base` with the bytes from `at` on replaced by `data`.
pub open spec fn splice(base: Seq<u8>, at: int, data: Seq<u8>) -> Seq<u8> {
    base.take(at) + data + base.skip(at + data.len())
}

/// `n` zero bytes.
pub open spec fn zeros(n: nat) -> Seq<u8> {
    Seq::new(n, |i: int| 0u8)
}

pub proof fn lemma_le_bytes_len(value: nat, width: nat)
    ensures
        le_bytes(value, width).len() == width,
    decreases width,
{
    if width > 0 {
        lemma_le_bytes_len(value / 256, (width - 1) as nat);
    }
}

pub proof fn lemma_le_value_bound(bytes: Seq<u8>)
    ensures
        le_value(bytes) < pow256(bytes.len()),
    decreases bytes.len(),
{
    if bytes.len() > 0 {
        lemma_le_value_bound(bytes.drop_first());
    }
}

/// Decoding the encoding of a value that fits gives the value back.
pub proof fn lemma_le_roundtrip(value: nat, width: nat)
    requires
        value < pow256(width),
    ensures
        le_bytes(value, width).len() == width,
        le_value(le_bytes(value, width)) == value,
    decreases width,
{
    lemma_le_bytes_len(value, width);
    if width > 0 {
        let rest = (width - 1) as nat;
        lemma_le_roundtrip(value / 256, rest);
        assert(le_bytes(value, width).drop_first() =~= le_bytes(value / 256, rest));
    }
}

/// Encoding the number that some bytes spell gives the bytes back.
pub proof fn lemma_le_canonical(bytes: Seq<u8>)
    ensures
        le_bytes(le_value(bytes), bytes.len()) == bytes,
    decreases bytes.len(),
{
    if bytes.len() > 0 {
        let rest = bytes.drop_first();
        lemma_le_canonical(rest);
        let value = le_value(bytes);
        assert(value == bytes[0] as nat + 256 * le_value(rest));
        assert(value % 256 == bytes[0] as nat);
        assert(value / 256 == le_value(rest));
        assert(le_bytes(value, bytes.len()) =~= bytes);
    } else {
        assert(le_bytes(le_value(bytes), bytes.len()) =~= bytes);
    }
}

pub proof fn lemma_pow256_values()
    ensures
        pow256(0) == 1,
        pow256(1) == 0x100,
        pow256(2) == 0x1_0000,
        pow256(4) == 0x1_0000_0000,
        pow256(8) == 0x1_0000_0000_0000_0000,
{
    reveal_with_fuel(pow256, 9);
}

pub proof fn lemma_pow256_monotone(a: nat, b: nat)
    requires
        a <= b,
    ensures
        pow256(a) <= pow256(b),
        pow256(a) >= 1,
    decreases b,
{
    if a < b {
        lemma_pow256_monotone(a, (b - 1) as nat);
    } else if a > 0 {
        lemma_pow256_monotone((a - 1) as nat, (b - 1) as nat);
    }
}

/// Appends the `width` low-order bytes of `value` to `out`.
pub fn push_le(out: &mut Vec<u8>, value: u64, width: usize)
    ensures
        final(out)@ == old(out)@ + le_bytes(value as nat, width as nat),
{
    let mut rest: u64 = value;
    let mut left: usize = width;
    let ghost start = out@;
    while left > 0
        invariant
            left <= width,
            start + le_bytes(value as nat, width as nat) == out@ + le_bytes(rest as nat, left as nat),
        decreases left,
    {
        let ghost before = out@;
        let ghost tail = le_bytes(rest as nat / 256, (left - 1) as nat);
        let byte: u8 = (rest % 256) as u8;
        out.push(byte);
        proof {
            assert(before + (seq![byte] + tail) =~= before.push(byte) + tail);
        }
        rest = rest / 256;
        left = left - 1;
    }
    proof {
        assert(out@ + le_bytes(rest as nat, 0) =~= out@);
    }
}

/// Reads the little-endian number of `width` bytes that starts at `at`.
pub fn read_le(bytes: &[u8], at: usize, width: usize) -> (value: u64)
    requires
        at + width <= bytes@.len(),
        width <= 8,
    ensures
        value as nat == le_value(bytes@.subrange(at as int, at + width)),
        value < pow256(width as nat),
{
    let total: usize = bytes.len();
    let mut value: u64 = 0;
    let mut i: usize = width;
    while i > 0
        invariant
            i <= width,
            total == bytes@.len(),
            at + width <= bytes@.len(),
            width <= 8,
            value as nat == le_value(bytes@.subrange(at + i, at + width)),
        decreases i,
    {
        i = i - 1;
        let ghost tail = bytes@.subrange(at + i + 1, at + width);
        let ghost here = bytes@.subrange(at + i, at + width);
        proof {
            assert(here.drop_first() =~= tail);
            lemma_le_value_bound(here);
            lemma_pow256_monotone(here.len(), 8);
            lemma_pow256_values();
        }
        value = bytes[at + i] as u64 + 256 * value;
    }
    proof {
        lemma_le_value_bound(bytes@.subrange(at as int, at + width));
    }
    value
}

/// A copy of the bytes from `start` up to, not including, `end`.
pub fn copy_range(bytes: &[u8], start: usize, end: usize) -> (out: Vec<u8>)
    requires
        start <= end <= bytes@.len(),
    ensures
        out@ == bytes@.subrange(start as int, end as int),
{
    let mut out: Vec<u8> = Vec::new();
    push_range(&mut out, bytes, start, end);
    out
}

/// Appends the bytes from `start` up to, not including, `end`.
pub fn push_range(out: &mut Vec<u8>, bytes: &[u8], start: usize, end: usize)
    requires
        start <= end <= bytes@.len(),
    ensures
        final(out)@ == old(out)@ + bytes@.subrange(start as int, end as int),
{
    let part = vstd::slice::slice_subrange(bytes, start, end);
    out.extend_from_slice(part);
    proof {
        assert(out@ =~= old(out)@ + bytes@.subrange(start as int, end as int));
    }
}

/// Appends all of `bytes`.
pub fn push_all(out: &mut Vec<u8>, bytes: &[u8])
    ensures
        final(out)@ == old(out)@ + bytes@,
{
    out.extend_from_slice(bytes);
    proof {
        assert(out@ =~= old(out)@ + bytes@);
    }
}

/// A vector of `n` zero bytes.
pub fn zero_bytes(n: usize) -> (out: Vec<u8>)
    ensures
        out@ == zeros(n as nat),
{
    let out: Vec<u8> = vec![0u8; n];
    proof {
        assert(out@ =~= zeros(n as nat));
    }
    out
}

/// Whether two byte strings are equal.
pub fn same_bytes(a: &[u8], b: &[u8]) -> (same: bool)
    ensures
        same == (a@ == b@),
{
    if a.len() != b.len() {
        return false;
    }
    let mut i: usize = 0;
    while i < a.len()
        invariant
            i <= a@.len(),
            a@.len() == b@.len(),
            forall|j: int| 0 <= j < i ==> a@[j] == b@[j],
        decreases a@.len() - i,
    {
        if a[i] != b[i] {
            return false;
        }
        i = i + 1;
    }
    proof {
        assert(a@ =~= b@);
    }
    true
}

/// Overwrites the bytes of `target` from `at` on with `data`.
pub fn overwrite(target: &mut Vec<u8>, at: usize, data: &[u8])
    requires
        at + data@.len() <= old(target)@.len(),
    ensures
        final(target)@ == splice(old(target)@, at as int, data@),
{
    let ghost before = target@;
    let total: usize = target.len();
    let mut i: usize = 0;
    while i < data.len()
        invariant
            i <= data@.len(),
            total == before.len(),
            at + data@.len() <= before.len(),
            target@ == splice(before, at as int, data@.take(i as int)),
        decreases data@.len() - i,
    {
        target.set(at + i, data[i]);
        i = i + 1;
        proof {
            assert(target@ =~= splice(before, at as int, data@.take(i as int)));
        }
    }
    proof {
        assert(data@.take(data@.len() as int) =~= data@);
        assert(data@.len() == 0 ==> target@ =~= splice(before, at as int, data@));
    }
}

/// Fills `buf` with the bytes of `source` from `start` on.
pub fn fill_from(buf: &mut [u8], source: &[u8], start: usize)
    requires
        start + old(buf)@.len() <= source@.len(),
    ensures
        final(buf)@ == source@.subrange(start as int, start + old(buf)@.len()),
{
    let total: usize = source.len();
    let n: usize = buf.len();
    let mut i: usize = 0;
    while i < n
        invariant
            i <= n,
            n == buf@.len(),
            total == source@.len(),
            start + n <= total,
            forall|j: int| 0 <= j < i ==> buf@[j] == source@[start + j],
        decreases n - i,
    {
        buf[i] = source[start + i];
        i = i + 1;
    }
    proof {
        assert(buf@ =~= source@.subrange(start as int, start + n));
    }
}

/// Copies `n` bytes of `source`, from `start` on, into `buf` at `at`.
pub fn copy_into(buf: &mut [u8], at: usize, source: &[u8], start: usize, n: usize)
    requires
        at + n <= old(buf)@.len(),
        start + n <= source@.len(),
    ensures
        final(buf)@ == splice(
            old(buf)@,
            at as int,
            source@.subrange(start as int, start + n),
        ),
{
    let ghost before = buf@;
    let total: usize = source.len();
    let room: usize = buf.len();
    let mut i: usize = 0;
    while i < n
        invariant
            i <= n,
            total == source@.len(),
            room == buf@.len(),
            room == before.len(),
            at + n <= room,
            start + n <= total,
            forall|j: int|
                0 <= j < room ==> buf@[j] == if at <= j < at + i {
                    source@[start + j - at]
                } else {
                    before[j]
                },
        decreases n - i,
    {
        buf[at + i] = source[start + i];
        i = i + 1;
    }
    proof {
        assert(buf@ =~= splice(before, at as int, source@.subrange(start as int, start + n)));
    }
}

/// Sets `n` bytes of `buf`, from `at` on, to zero.
pub fn fill_zeros(buf: &mut [u8], at: usize, n: usize)
    requires
        at + n <= old(buf)@.len(),
    ensures
        final(buf)@ == splice(old(buf)@, at as int, zeros(n as nat)),
{
    let ghost before = buf@;
    let room: usize = buf.len();
    let mut i: usize = 0;
    while i < n
        invariant
            i <= n,
            room == buf@.len(),
            room == before.len(),
            at + n <= room,
            forall|j: int|
                0 <= j < room ==> buf@[j] == if at <= j < at + i {
                    0u8
                } else {
                    before[j]
                },
        decreases n - i,
    {
        buf[at + i] = 0;
        i = i + 1;
    }
    proof {
        assert(buf@ =~= splice(before, at as int, zeros(n as nat)));
    }
}

/// A 32-byte identifier or digest.
pub type Id32 = [u8; 32];

/// Whether two identifiers are equal.
pub fn same_id(a: &[u8; 32], b: &[u8; 32]) -> (same: bool)
    ensures
        same == (*a == *b),
        same == (a@ == b@),
{
    let mut i: usize = 0;
    while i < 32
        invariant
            i <= 32,
            forall|j: int| 0 <= j < i ==> a@[j] == b@[j],
        decreases 32 - i,
    {
        if a[i] != b[i] {
            return false;
        }
        i = i + 1;
    }
    proof {
        assert(a@ =~= b@);
        assert(*a =~= *b);
    }
    true
}

/// Two identifiers with the same bytes are the same identifier.
pub proof fn lemma_id_view(a: [u8; 32], b: [u8; 32])
    requires
        a@ == b@,
    ensures
        a == b,
{
    assert forall|i: int| 0 <= i < 32 implies a[i] == b[i] by {
        assert(a@[i] == b@[i]);
    }
    assert(a =~= b);
}

/// The identifier made of the 32 bytes that start at `at`.
pub fn id_at(bytes: &[u8], at: usize) -> (id: [u8; 32])
    requires
        at + 32 <= bytes@.len(),
    ensures
        id@ == bytes@.subrange(at as int, at + 32),
{
    let total: usize = bytes.len();
    let mut id: [u8; 32] = [0u8; 32];
    let mut i: usize = 0;
    while i < 32
        invariant
            i <= 32,
            total == bytes@.len(),
            at + 32 <= bytes@.len(),
            forall|j: int| 0 <= j < i ==> id@[j] == bytes@[at + j],
        decreases 32 - i,
    {
        id[i] = bytes[at + i];
        i = i + 1;
    }
    proof {
        assert(id@ =~= bytes@.subrange(at as int, at + 32));
    }
    id
}

} // verus!
