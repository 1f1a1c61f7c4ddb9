//! What holds of the simulated disk over any run of requests.
use vstd::prelude::*;

use crate::device::script::{DeviceEffect, DeviceEventKind};
use crate::device::sim::{lemma_rule_index, DiskView};
use crate::device::sim_laws::{in_step, lemma_cached_in_step, lemma_persist_split};

verus! {

/// What can be asked of a disk.
pub enum DiskRequest {
    Read { offset: u64, len: nat },
    Write { offset: u64, data: Seq<u8> },
    Flush,
    FlushAll,
    PowerLoss,
}

/// The disk after a request.
pub open spec fn served(disk: DiskView, request: DiskRequest) -> DiskView {
    match request {
        DiskRequest::Read { offset, len } => disk.after_read(offset, len),
        DiskRequest::Write { offset, data } => disk.after_write(offset, data),
        DiskRequest::Flush => disk.after_flush(DeviceEventKind::FlushData),
        DiskRequest::FlushAll => disk.after_flush(DeviceEventKind::FlushAll),
        DiskRequest::PowerLoss => disk.after_power_loss(),
    }
}

/// The disk after a run of requests.
pub open spec fn served_all(disk: DiskView, requests: Seq<DiskRequest>) -> DiskView
    decreases requests.len(),
{
    if requests.len() == 0 {
        disk
    } else {
        served(served_all(disk, requests.drop_last()), requests.last())
    }
}

/// How a request shows in the trace.
pub open spec fn kind_of(request: DiskRequest) -> DeviceEventKind {
    match request {
        DiskRequest::Read { .. } => DeviceEventKind::Read,
        DiskRequest::Write { .. } => DeviceEventKind::Write,
        DiskRequest::Flush => DeviceEventKind::FlushData,
        DiskRequest::FlushAll => DeviceEventKind::FlushAll,
        DiskRequest::PowerLoss => DeviceEventKind::Crash,
    }
}

/// Nothing is reordered, and no write is torn while its requester thinks it whole. Writes may
/// be dropped, and flushes limited.
pub open spec fn untorn(disk: DiskView) -> bool {
    &&& disk.script.reorder is None
    &&& disk.script.rules.len() <= usize::MAX
    &&& forall|i: int|
        0 <= i < disk.script.rules.len() ==> !((#[trigger] disk.script.rules[i]).effect is Tear)
}

/// Where nothing is torn or reordered, every request keeps reads and pending writes in step.
pub proof fn law_requests_keep_step(disk: DiskView, request: DiskRequest)
    requires
        untorn(disk),
        in_step(disk),
    ensures
        untorn(served(disk, request)),
        in_step(served(disk, request)),
{
    match request {
        DiskRequest::Write { offset, data } => {
            let len = data.len();
            lemma_rule_index(
                disk.script.rules,
                DeviceEventKind::Write,
                disk.sequence(),
                offset,
                len,
                0,
            );
            lemma_cached_in_step(disk, offset, data);
            match disk.effect_of(disk.transfer_rule(DeviceEventKind::Write, offset, len)) {
                Some(DeviceEffect::Short { bytes }) => {
                    if bytes < len {
                        lemma_cached_in_step(disk, offset, data.take(bytes as int));
                    }
                },
                _ => {},
            }
        },
        DiskRequest::Flush => {
            lemma_flush_in_step(disk, DeviceEventKind::FlushData);
        },
        DiskRequest::FlushAll => {
            lemma_flush_in_step(disk, DeviceEventKind::FlushAll);
        },
        _ => {},
    }
}

proof fn lemma_flush_in_step(disk: DiskView, kind: DeviceEventKind)
    requires
        untorn(disk),
        in_step(disk),
        kind is FlushData || kind is FlushAll,
    ensures
        in_step(disk.after_flush(kind)),
{
    let limit = disk.flush_limit(kind);
    let done = disk.flushed(limit);
    lemma_persist_split(disk.script.atomic_unit as int, disk.durable, disk.pending, limit);
    assert forall|i: int| 0 <= i < done.pending.len() implies (
    #[trigger] done.pending[i]).tear_prefix is None by {
        assert(done.pending[i] == disk.pending[limit + i]);
    }
}

/// Over any run of requests on a disk where nothing is torn or reordered, reads and pending
/// writes stay in step.
pub proof fn law_runs_keep_step(disk: DiskView, requests: Seq<DiskRequest>)
    requires
        untorn(disk),
        in_step(disk),
    ensures
        untorn(served_all(disk, requests)),
        in_step(served_all(disk, requests)),
    decreases requests.len(),
{
    if requests.len() > 0 {
        law_runs_keep_step(disk, requests.drop_last());
        law_requests_keep_step(served_all(disk, requests.drop_last()), requests.last());
    }
}

/// After any run of requests, a flush of everything that no rule strikes makes durable exactly
/// what reads see, leaves nothing pending and changes no read, so that a power loss behind it
/// loses nothing. Dropped writes and limited flushes before it make no difference.
pub proof fn law_flush_all_makes_reads_durable(disk: DiskView, requests: Seq<DiskRequest>)
    requires
        untorn(disk),
        in_step(disk),
        served_all(disk, requests).rule_for(DeviceEventKind::FlushAll, 0, 0) is None,
    ensures
        ({
            let before = served_all(disk, requests);
            let after = before.after_flush(DeviceEventKind::FlushAll);
            &&& before.flush_result(DeviceEventKind::FlushAll) is Ok
            &&& after.pending.len() == 0
            &&& after.durable == before.volatile
            &&& after.volatile == before.volatile
            &&& after.after_power_loss().volatile == before.volatile
        }),
{
    let before = served_all(disk, requests);
    law_runs_keep_step(disk, requests);
    assert(before.pending.take(before.pending.len() as int) =~= before.pending);
}

/// A disk with nothing pending, whose cache and medium agree, is in step: a new disk is.
pub proof fn law_idle_disk_is_in_step(disk: DiskView)
    requires
        disk.pending.len() == 0,
        disk.volatile == disk.durable,
    ensures
        in_step(disk),
{
}

/// The trace over any run of requests: one entry for each, numbered on from what was there, of
/// the kind that was asked, at times that do not go back; the clock stands at the last.
pub proof fn law_trace_of_a_run(disk: DiskView, requests: Seq<DiskRequest>)
    ensures
        ({
            let after = served_all(disk, requests);
            let n = disk.trace.len();
            &&& after.trace.len() == n + requests.len()
            &&& after.trace.take(n as int) == disk.trace
            &&& after.virtual_time >= disk.virtual_time
            &&& forall|k: int|
                0 <= k < requests.len() ==> {
                    let event = #[trigger] after.trace[n + k];
                    &&& event.sequence == (n + k) as u64
                    &&& event.kind == kind_of(requests[k])
                    &&& disk.virtual_time <= event.virtual_time <= after.virtual_time
                }
            &&& forall|j: int, k: int|
                #![trigger after.trace[n + j], after.trace[n + k]]
                0 <= j < k < requests.len() ==> after.trace[n + j].virtual_time
                    <= after.trace[n + k].virtual_time
            &&& requests.len() > 0 ==> after.trace.last().virtual_time == after.virtual_time
        }),
    decreases requests.len(),
{
    let n = disk.trace.len();
    if requests.len() > 0 {
        let front = requests.drop_last();
        let before = served_all(disk, front);
        let after = served_all(disk, requests);
        law_trace_of_a_run(disk, front);
        assert(after.trace.drop_last() =~= before.trace);
        assert(after.trace.take(n as int) =~= before.trace.take(n as int));
        assert forall|k: int| 0 <= k < requests.len() implies {
            let event = #[trigger] after.trace[n + k];
            &&& event.sequence == (n + k) as u64
            &&& event.kind == kind_of(requests[k])
            &&& disk.virtual_time <= event.virtual_time <= after.virtual_time
        } by {
            if k < front.len() {
                assert(after.trace[n + k] == before.trace[n + k]);
                assert(front[k] == requests[k]);
            }
        }
        assert forall|j: int, k: int|
            #![trigger after.trace[n + j], after.trace[n + k]]
            0 <= j < k < requests.len() implies after.trace[n + j].virtual_time
            <= after.trace[n + k].virtual_time by {
            assert(after.trace[n + j] == before.trace[n + j]);
            if k < front.len() {
                assert(after.trace[n + k] == before.trace[n + k]);
            }
        }
    } else {
        assert(disk.trace.take(n as int) =~= disk.trace);
    }
}

} // verus!
