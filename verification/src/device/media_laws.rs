//! What time the media models take.
use vstd::prelude::*;

use crate::device::block::{DeviceError, FaultKind};
use crate::device::media::{
    failure_of, slowdown, thresholds_stall, wrap, ConfigView, MediaError, MediaFailureKind,
    MediaOperation, MediaView, SsdSlowdownSegment,
};
use crate::device::script::{DeviceEffect, DeviceEvent, DeviceEventKind};
use crate::device::sim_effects::base_ticks;

verus! {

/// The smaller of a number and the largest time.
pub open spec fn capped(n: int) -> int {
    if n > u64::MAX {
        u64::MAX as int
    } else {
        n
    }
}

/// The head of a hard disk takes its seek latency for every byte that it is away from where a
/// transfer starts, forwards or backwards, up to the largest time.
pub proof fn law_seek_costs_the_distance(
    media: MediaView,
    offset: u64,
    len: nat,
    write: bool,
    far: nat,
)
    requires
        media.config.media_type is Hdd,
        offset + len <= media.config.capacity,
        offset == media.head + far || offset == media.head - far,
    ensures
        media.delay_of(offset, len, write) == capped(far * media.config.hdd_seek_latency),
{
}

/// Two places equally far before and behind the head cost the same, and none costs nothing
/// but the head's own, unless seeking is free.
pub proof fn law_seek_is_even_handed(
    media: MediaView,
    before: u64,
    behind: u64,
    len: nat,
    write: bool,
)
    requires
        media.config.media_type is Hdd,
        before + len <= media.config.capacity,
        behind + len <= media.config.capacity,
        media.head - before == behind - media.head,
    ensures
        media.delay_of(before, len, write) == media.delay_of(behind, len, write),
        media.config.hdd_seek_latency > 0 ==> (media.delay_of(before, len, write) == 0) == (before
            == media.head),
{
    let far = if media.head >= before {
        (media.head - before) as nat
    } else {
        (before - media.head) as nat
    };
    law_seek_costs_the_distance(media, before, len, write, far);
    law_seek_costs_the_distance(media, behind, len, write, far);
    let seek = media.config.hdd_seek_latency as nat;
    assert(far > 0 && seek > 0 ==> far * seek > 0) by (nonlinear_arith);
    assert(far == 0 ==> far * seek == 0) by (nonlinear_arith);
}

/// A transfer that does not lie on the medium, a read from an SSD, a flush and a crash are not
/// delayed.
pub proof fn law_free_requests(media: MediaView, offset: u64, len: nat, write: bool)
    ensures
        offset + len > media.config.capacity ==> media.delay_of(offset, len, write) == 0,
        media.config.media_type is Ssd ==> media.delay_of(offset, len, false) == 0,
        media.after_flush(DeviceEventKind::FlushData, MediaOperation::FlushData).extra_time
            == media.extra_time,
        media.after_flush(DeviceEventKind::FlushAll, MediaOperation::FlushAll).extra_time
            == media.extra_time,
        media.after_crash().extra_time == media.extra_time,
{
}

proof fn lemma_slowdown_prefix(
    segments: Seq<SsdSlowdownSegment>,
    segment: SsdSlowdownSegment,
    end: u64,
    n: nat,
)
    requires
        n <= segments.len(),
    ensures
        slowdown(segments.push(segment), end, n) == slowdown(segments, end, n),
        slowdown(segments, end, n) >= 0,
    decreases n,
{
    if n > 0 {
        lemma_slowdown_prefix(segments, segment, end, (n - 1) as nat);
        assert(segments.push(segment)[n - 1] == segments[n - 1]);
    }
}

/// An SSD without slowdown delays no write; one slowdown more delays a write by its extra delay
/// where the bytes written so far and those of the write reach its threshold, and changes
/// nothing where they do not.
pub proof fn law_slowdown_adds_its_delay(
    media: MediaView,
    segment: SsdSlowdownSegment,
    offset: u64,
    len: nat,
)
    requires
        media.config.media_type is Ssd,
        offset + len <= media.config.capacity,
    ensures
        media.config.ssd_slowdown.len() == 0 ==> media.delay_of(offset, len, true) == 0,
        ({
            let slower = MediaView {
                config: ConfigView {
                    ssd_slowdown: media.config.ssd_slowdown.push(segment),
                    ..media.config
                },
                ..media
            };
            let before = media.delay_of(offset, len, true);
            slower.delay_of(offset, len, true) == if capped(media.written + len)
                >= segment.after_bytes {
                capped(before + segment.extra_delay)
            } else {
                before as int
            }
        }),
{
    let segments = media.config.ssd_slowdown;
    let end = capped(media.written + len) as u64;
    lemma_slowdown_prefix(segments, segment, end, segments.len());
    assert(segments.push(segment)[segments.len() as int] == segment);
}

/// The delays add up: the time of a model is that of its disk and all delays together, a
/// transfer adds its own delay, and each request is logged with its delay and the time after.
pub proof fn law_delays_add_up(media: MediaView, offset: u64, len: nat, data: Seq<u8>)
    ensures
        ({
            let read = media.after_read(offset, len);
            let wrote = media.after_write(offset, data);
            let cost = media.delay_of(offset, len, false);
            let price = media.delay_of(offset, data.len(), true);
            &&& media.total_time() == capped(media.disk.virtual_time + media.extra_time)
            &&& read.extra_time == capped(media.extra_time + cost)
            &&& wrote.extra_time == capped(media.extra_time + price)
            &&& read.disk == media.disk.after_read(offset, len)
            &&& wrote.disk == media.disk.after_write(offset, data)
            &&& read.config == media.config
            &&& wrote.config == media.config
            &&& read.log.len() == media.log.len() + 1
            &&& read.log.last().delay == cost
            &&& read.log.last().virtual_time == read.total_time()
            &&& read.log.last().operation is Read
            &&& read.log.last().offset == offset
            &&& read.log.last().device_event == read.disk.trace.last()
            &&& wrote.log.len() == media.log.len() + 1
            &&& wrote.log.last().delay == price
            &&& wrote.log.last().virtual_time == wrote.total_time()
            &&& wrote.log.last().operation is Write
            &&& wrote.log.last().offset == offset
            &&& wrote.log.last().device_event == wrote.disk.trace.last()
        }),
{
}

/// Writes that lie on the medium count toward the slowdown with all their bytes, whatever
/// becomes of them; nothing else does.
pub proof fn law_valid_writes_count(media: MediaView, offset: u64, len: nat, data: Seq<u8>)
    ensures
        offset + data.len() <= media.config.capacity ==> media.after_write(offset, data).written
            == capped(media.written + data.len()),
        offset + data.len() > media.config.capacity ==> media.after_write(offset, data).written
            == media.written,
        media.after_read(offset, len).written == media.written,
        media.after_crash().written == media.written,
{
}

/// The head of a hard disk stands behind the bytes that were moved: all of a transfer that was
/// carried out, torn or crashed behind, those of a short one, and none of one that failed, was
/// dropped or crashed before. Other media have none that moves.
pub proof fn law_head_follows_the_bytes(media: MediaView, offset: u64, data: Seq<u8>)
    requires
        media.disk.trace.len() < usize::MAX,
        data.len() <= usize::MAX,
        offset + data.len() <= u64::MAX,
    ensures
        ({
            let after = media.after_write(offset, data);
            let event = after.disk.trace.last();
            let moved: int = match event.script_effect {
                Some(DeviceEffect::CrashBefore) => 0,
                Some(DeviceEffect::CrashAfter)
                | Some(DeviceEffect::Tear { .. })
                | Some(DeviceEffect::TearAndCrashAfter { .. }) => data.len() as int,
                Some(DeviceEffect::Short { bytes }) => if event.outcome is Short {
                    bytes as int
                } else {
                    0
                },
                Some(_) => 0,
                None => if event.outcome is Completed {
                    data.len() as int
                } else {
                    0
                },
            };
            &&& after.head == if media.config.media_type is Hdd && moved > 0 {
                offset + moved
            } else {
                media.head as int
            }
            &&& media.after_crash().head == media.head
        }),
{
}

/// A read moves the head of a hard disk behind its bytes where it is carried out.
pub proof fn law_read_moves_the_head(media: MediaView, offset: u64, len: nat)
    requires
        len <= usize::MAX,
        offset + len <= u64::MAX,
        media.disk.read_result(offset, len) is Ok ==> media.disk.after_read(
            offset,
            len,
        ).trace.last().script_effect is None,
    ensures
        media.disk.read_result(offset, len) is Ok && len > 0 && media.config.media_type is Hdd
            ==> media.after_read(offset, len).head == offset + len,
        media.config.media_type is Ssd ==> media.after_read(offset, len).head == media.head,
{
}

/// How failures show in the log: beyond the end, on a bad range, a failed or timed-out read, a
/// crash, a short or torn write; a dropped request counts as injected though it was
/// acknowledged, and one that was carried out does not fail.
pub proof fn law_failures_are_classified(event: DeviceEvent, error: DeviceError)
    ensures
        event.outcome is Completed ==> failure_of(event, None) is None,
        event.outcome is Dropped ==> failure_of(event, None) == Some(MediaFailureKind::Injected),
        event.outcome is Torn ==> failure_of(event, None) == Some(MediaFailureKind::ShortOrTorn),
        event.outcome is Short ==> failure_of(event, Some(error)) == Some(
            MediaFailureKind::ShortOrTorn,
        ),
        event.outcome is Crashed ==> failure_of(event, Some(error)) == Some(
            MediaFailureKind::Crashed,
        ),
        event.outcome is Failed && error is OutOfBounds ==> failure_of(event, Some(error)) == Some(
            MediaFailureKind::Bounds,
        ),
        event.outcome is Failed && error is Injected ==> failure_of(event, Some(error)) == Some(
            match error->Injected_kind {
                FaultKind::MediaError => MediaFailureKind::BadMedia,
                FaultKind::ReadFailed => MediaFailureKind::ReadFailed,
                FaultKind::Timeout => MediaFailureKind::Timeout,
                FaultKind::Crashed => MediaFailureKind::Crashed,
                FaultKind::ShortIo => MediaFailureKind::ShortOrTorn,
                FaultKind::Failed | FaultKind::Dropped => MediaFailureKind::Injected,
            },
        ),
{
}

/// The disk underneath takes the base latency for every request beside what its script says,
/// and the jitter of the medium where there is one. Nothing else of the script changes.
pub proof fn law_base_latency_is_added(config: ConfigView, kind: DeviceEventKind, number: u64)
    requires
        !(kind is Crash),
    ensures
        ({
            let script = config.compiled();
            let own = config.device_script;
            &&& base_ticks(script.latency, kind) == capped(
                base_ticks(own.latency, kind) + config.base_latency,
            )
            &&& script.atomic_unit == own.atomic_unit
            &&& script.reorder == own.reorder
            &&& script.flush_data_writes == own.flush_data_writes
            &&& script.bad_ranges == own.bad_ranges
            &&& script.rules == own.rules
            &&& script.latency_rules == own.latency_rules
            &&& config.jitter matches Some(jitter) ==> script.latency.jitter_ticks
                == jitter.max_delay && script.latency.seed == jitter.seed
            &&& config.jitter is None ==> script.latency.jitter_ticks == own.latency.jitter_ticks
                && script.latency.seed == own.latency.seed
            &&& config.jitter is None && own.latency.jitter_ticks == 0 && own.latency_rules.len()
                == 0 ==> script.latency_of(kind, number) == capped(
                base_ticks(own.latency, kind) + config.base_latency,
            )
        }),
{
}

/// A medium is made where its size is a multiple of its blocks, jitter is configured in one
/// place, and only a hard disk seeks and only an SSD slows down, by rising thresholds; it is
/// refused otherwise.
pub proof fn law_sensible_media_are_made(config: ConfigView)
    ensures
        config.problem() is None <==> {
            &&& config.capacity > 0
            &&& config.logical_block_size > 0
            &&& config.capacity % config.logical_block_size == 0
            &&& config.jitter is Some ==> config.device_script.latency.jitter_ticks == 0
                && config.device_script.latency.seed == 0
            &&& config.media_type is Hdd ==> config.ssd_slowdown.len() == 0
            &&& config.media_type is Ssd ==> config.hdd_seek_latency == 0
            &&& forall|i: int, j: int|
                #![trigger config.ssd_slowdown[i], config.ssd_slowdown[j]]
                0 <= i && j == i + 1 && j < config.ssd_slowdown.len()
                    ==> config.ssd_slowdown[i].after_bytes < config.ssd_slowdown[j].after_bytes
        },
{
    let segments = config.ssd_slowdown;
    if thresholds_stall(segments) {
        let i = choose|i: int|
            0 < i < segments.len() && segments[i - 1].after_bytes >= (
            #[trigger] segments[i]).after_bytes;
        assert(segments[i - 1].after_bytes >= segments[i].after_bytes);
        assert(i == (i - 1) + 1);
    } else {
        assert forall|i: int, j: int|
            #![trigger segments[i], segments[j]]
            0 <= i && j == i + 1 && j < segments.len() implies segments[i].after_bytes
            < segments[j].after_bytes by {
            assert(segments[j - 1].after_bytes < segments[j].after_bytes);
        }
    }
}

/// What the device under the media answers is passed on.
pub proof fn law_device_errors_are_passed_on(error: DeviceError)
    ensures
        wrap(Ok(())) == Ok::<(), MediaError>(()),
        wrap(Err(error)) == Err::<(), MediaError>(MediaError::Device(error)),
{
}

/// Flushes and crashes are passed on to the disk and logged without a delay; they move no head
/// and count no bytes.
pub proof fn law_flushes_and_crashes_are_logged(
    media: MediaView,
    kind: DeviceEventKind,
    operation: MediaOperation,
)
    requires
        operation is FlushData || operation is FlushAll,
    ensures
        ({
            let flushed = media.after_flush(kind, operation);
            let crashed = media.after_crash();
            &&& flushed.disk == media.disk.after_flush(kind)
            &&& flushed.config == media.config
            &&& flushed.head == media.head
            &&& flushed.written == media.written
            &&& flushed.extra_time == media.extra_time
            &&& flushed.log.len() == media.log.len() + 1
            &&& flushed.log.drop_last() == media.log
            &&& flushed.log.last().operation == operation
            &&& flushed.log.last().offset == 0
            &&& flushed.log.last().len == 0
            &&& flushed.log.last().delay == 0
            &&& flushed.log.last().virtual_time == flushed.total_time()
            &&& flushed.log.last().device_event == flushed.disk.trace.last()
            &&& media.disk.flush_result(kind) is Ok ==> flushed.log.last().device_error is None
            &&& media.disk.flush_result(kind) matches Err(error)
                ==> flushed.log.last().device_error == Some(error)
            &&& crashed.disk == media.disk.after_power_loss()
            &&& crashed.config == media.config
            &&& crashed.extra_time == media.extra_time
            &&& crashed.log.len() == media.log.len() + 1
            &&& crashed.log.drop_last() == media.log
            &&& crashed.log.last().operation is Crash
            &&& crashed.log.last().delay == 0
            &&& crashed.log.last().virtual_time == crashed.total_time()
            &&& crashed.log.last().device_event == crashed.disk.trace.last()
            &&& crashed.log.last().device_error is None
        }),
{
    assert(media.after_flush(kind, operation).log.drop_last() =~= media.log);
    assert(media.after_crash().log.drop_last() =~= media.log);
}

/// What the log says of a transfer: its length, whether it failed and how, and the error of the
/// device where there was one.
pub proof fn law_transfers_are_logged(media: MediaView, offset: u64, len: nat, data: Seq<u8>)
    requires
        len <= usize::MAX,
        data.len() <= usize::MAX,
    ensures
        ({
            let read = media.after_read(offset, len);
            let wrote = media.after_write(offset, data);
            &&& read.log.drop_last() == media.log
            &&& wrote.log.drop_last() == media.log
            &&& read.log.last().len == len
            &&& wrote.log.last().len == data.len()
            &&& read.log.last().sequence == read.disk.trace.last().sequence
            &&& wrote.log.last().sequence == wrote.disk.trace.last().sequence
            &&& media.disk.read_result(offset, len) is Ok ==> read.log.last().device_error is None
            &&& media.disk.read_result(offset, len) matches Err(error)
                ==> read.log.last().device_error == Some(error)
            &&& media.disk.write_result(offset, data.len()) is Ok
                ==> wrote.log.last().device_error is None
            &&& media.disk.write_result(offset, data.len()) matches Err(error)
                ==> wrote.log.last().device_error == Some(error)
            &&& wrote.disk.trace.last().outcome is Completed ==> wrote.log.last().outcome
                is Completed
            &&& !(wrote.disk.trace.last().outcome is Completed) ==> wrote.log.last().outcome
                is Failed
            &&& read.disk.trace.last().outcome is Completed ==> read.log.last().outcome is Completed
            &&& !(read.disk.trace.last().outcome is Completed) ==> read.log.last().outcome is Failed
        }),
{
    assert(media.after_read(offset, len).log.drop_last() =~= media.log);
    assert(media.after_write(offset, data).log.drop_last() =~= media.log);
}

} // verus!
