//! The block-device interface.
use vstd::prelude::*;

use crate::bytes::splice;

verus! {

/// The kind of an I/O failure that the operating system reported.
#[verifier::external_type_specification]
#[verifier::external_body]
pub struct ExErrorKind(std::io::ErrorKind);

/// Why a device request failed.
#[non_exhaustive]
#[allow(inconsistent_fields)]
#[derive(Clone, Copy, Debug, PartialEq, Eq)]
pub enum DeviceError {
    OutOfBounds { offset: u64, len: usize, capacity: u64 },
    InvalidConfig(&'static str),
    Io { operation: IoOperation, kind: std::io::ErrorKind },
    Injected { at: InjectionSite, kind: FaultKind },
}

/// Where a scripted fault struck.
#[derive(Clone, Copy, Debug, PartialEq, Eq, Structural)]
pub enum InjectionSite {
    Event(u64),
}

/// The file operation that an I/O failure interrupted.
#[non_exhaustive]
#[derive(Clone, Copy, Debug, PartialEq, Eq, Structural)]
pub enum IoOperation {
    Open,
    Metadata,
    Read,
    Write,
    SetLen,
    SyncData,
    SyncAll,
    SyncDirectory,
}

#[derive(Clone, Copy, Debug, PartialEq, Eq, Structural)]
pub enum FaultKind {
    Failed,
    Crashed,
    Dropped,
    MediaError,
    ReadFailed,
    ShortIo,
    Timeout,
}

/// Whether `len` bytes from `offset` on lie within `capacity` bytes.
pub open spec fn in_bounds(offset: u64, len: nat, capacity: nat) -> bool {
    offset + len <= capacity
}

/// Whether every byte is the one or the other of two that could stand there.
pub open spec fn between(x: Seq<u8>, a: Seq<u8>, b: Seq<u8>) -> bool {
    &&& x.len() == a.len()
    &&& x.len() == b.len()
    &&& forall|i: int| 0 <= i < x.len() ==> #[trigger] x[i] == a[i] || x[i] == b[i]
}

/// Whether what the device acknowledges can be relied on.
pub open spec fn faithful<D: BlockDevice>(device: D) -> bool {
    device.reliable() || device.steady()
}

/// Whether a power loss would lose nothing.
pub open spec fn saved<D: BlockDevice>(device: D) -> bool {
    device.durable() == device.contents()
}

/// Whether nothing about the device has changed.
pub open spec fn untouched<D: BlockDevice>(before: D, after: D) -> bool {
    &&& after.wf()
    &&& after.contents() == before.contents()
    &&& after.reliable() == before.reliable()
    &&& after.durable() == before.durable()
    &&& before.steady() ==> after.steady()
}

/// Whether a device stays steady, and where the request was carried out (`done`) still
/// loses nothing in a power loss.
pub open spec fn carried<D: BlockDevice>(before: D, after: D, done: bool) -> bool {
    before.steady() ==> after.steady() && (done && saved(before) ==> saved(after))
}

/// A fixed-capacity array of bytes.
///
/// `contents` is what reads see, and `durable` what a power loss leaves. A device may fail
/// any request, lose a write it acknowledged, or change its contents in a crash; a
/// `reliable` one carries out every request that lies in bounds. A `steady` one may fail or
/// crash, but what it acknowledges is done: a write is seen by reads, a flush makes
/// everything durable, and a write puts nothing at risk but the bytes that are written.
///
/// A device that is implemented outside verified code leaves the ghost functions as they
/// stand here: what it holds is a function of the device of which nothing is known, and it
/// is neither reliable nor steady.
pub trait BlockDevice: Send + Sync + 'static {
    /// The device's invariant.
    open spec fn wf(&self) -> bool {
        true
    }

    /// The bytes that a read returns.
    open spec fn contents(&self) -> Seq<u8> {
        arbitrary::<spec_fn(&Self) -> (Seq<u8>, Seq<u8>)>()(self).0
    }

    /// Whether the device carries out every in-bounds request.
    open spec fn reliable(&self) -> bool {
        false
    }

    /// The bytes that a power loss leaves.
    open spec fn durable(&self) -> Seq<u8> {
        arbitrary::<spec_fn(&Self) -> (Seq<u8>, Seq<u8>)>()(self).1
    }

    /// Whether the device does what it acknowledges.
    open spec fn steady(&self) -> bool {
        false
    }

    fn len(&self) -> (n: u64)
        requires
            self.wf(),
        ensures
            n == self.contents().len(),
    ;

    fn is_empty(&self) -> (empty: bool)
        requires
            self.wf(),
        ensures
            empty == (self.contents().len() == 0),
    {
        self.len() == 0
    }

    fn read_at(&mut self, offset: u64, buf: &mut [u8]) -> (r: Result<(), DeviceError>)
        requires
            old(self).wf(),
        ensures
            final(self).wf(),
            final(self).contents() == old(self).contents(),
            final(self).reliable() == old(self).reliable(),
            final(self).durable() == old(self).durable(),
            old(self).steady() ==> final(self).steady(),
            final(buf)@.len() == old(buf)@.len(),
            r is Ok ==> in_bounds(offset, old(buf)@.len(), old(self).contents().len())
                && final(buf)@ == old(self).contents().subrange(
                offset as int,
                offset + old(buf)@.len(),
            ),
            !in_bounds(offset, old(buf)@.len(), old(self).contents().len()) ==> r == Err::<
                (),
                DeviceError,
            >(
                DeviceError::OutOfBounds {
                    offset,
                    len: old(buf)@.len() as usize,
                    capacity: old(self).contents().len() as u64,
                },
            ),
            old(self).reliable() && in_bounds(
                offset,
                old(buf)@.len(),
                old(self).contents().len(),
            ) ==> r is Ok,
    ;

    fn write_at(&mut self, offset: u64, buf: &[u8]) -> (r: Result<(), DeviceError>)
        requires
            old(self).wf(),
        ensures
            final(self).wf(),
            final(self).contents().len() == old(self).contents().len(),
            final(self).reliable() == old(self).reliable(),
            !in_bounds(offset, buf@.len(), old(self).contents().len()) ==> r == Err::<
                (),
                DeviceError,
            >(
                DeviceError::OutOfBounds {
                    offset,
                    len: buf@.len() as usize,
                    capacity: old(self).contents().len() as u64,
                },
            ) && final(self).contents() == old(self).contents(),
            old(self).reliable() && in_bounds(offset, buf@.len(), old(self).contents().len())
                ==> r is Ok && final(self).contents() == splice(
                old(self).contents(),
                offset as int,
                buf@,
            ),
            old(self).steady() ==> final(self).steady() && if in_bounds(
                offset,
                buf@.len(),
                old(self).contents().len(),
            ) {
                between(
                    final(self).durable(),
                    old(self).durable(),
                    splice(old(self).durable(), offset as int, buf@),
                ) && (r is Ok ==> final(self).contents() == splice(
                    old(self).contents(),
                    offset as int,
                    buf@,
                ))
            } else {
                final(self).durable() == old(self).durable()
            },
    ;

    fn flush_data(&mut self) -> (r: Result<(), DeviceError>)
        requires
            old(self).wf(),
        ensures
            final(self).wf(),
            final(self).contents().len() == old(self).contents().len(),
            final(self).reliable() == old(self).reliable(),
            old(self).reliable() ==> r is Ok && final(self).contents() == old(self).contents(),
            old(self).steady() ==> final(self).steady() && between(
                final(self).durable(),
                old(self).durable(),
                old(self).contents(),
            ) && (r is Ok ==> final(self).contents() == old(self).contents()
                && final(self).durable() == old(self).contents()),
    ;

    fn flush_all(&mut self) -> (r: Result<(), DeviceError>)
        requires
            old(self).wf(),
        ensures
            final(self).wf(),
            final(self).contents().len() == old(self).contents().len(),
            final(self).reliable() == old(self).reliable(),
            old(self).reliable() ==> r is Ok && final(self).contents() == old(self).contents(),
            old(self).steady() ==> final(self).steady() && between(
                final(self).durable(),
                old(self).durable(),
                old(self).contents(),
            ) && (r is Ok ==> final(self).contents() == old(self).contents()
                && final(self).durable() == old(self).contents()),
    ;
}

/// What stands between, and moves on towards the same, still stands between.
pub proof fn lemma_between_again(x: Seq<u8>, y: Seq<u8>, a: Seq<u8>, b: Seq<u8>)
    requires
        between(x, a, b),
        between(y, x, b),
    ensures
        between(y, a, b),
{
    assert forall|i: int| 0 <= i < y.len() implies #[trigger] y[i] == a[i] || y[i] == b[i] by {
        assert(x[i] == a[i] || x[i] == b[i]);
    }
}

/// Two writes side by side, each of which may be done in part, leave something between
/// nothing and both.
pub proof fn lemma_between_two_writes(
    x: Seq<u8>,
    y: Seq<u8>,
    c: Seq<u8>,
    at: int,
    first: Seq<u8>,
    second: Seq<u8>,
)
    requires
        0 <= at,
        at + first.len() + second.len() <= c.len(),
        between(x, c, splice(c, at, first)),
        y == x || between(y, x, splice(x, at + first.len(), second)),
    ensures
        between(y, c, splice(splice(c, at, first), at + first.len(), second)),
{
    let both = splice(splice(c, at, first), at + first.len(), second);
    assert(both.len() == c.len());
    assert forall|i: int| 0 <= i < y.len() implies #[trigger] y[i] == c[i] || y[i] == both[i] by {
        assert(x[i] == c[i] || x[i] == splice(c, at, first)[i]);
    }
}

} // verus!
