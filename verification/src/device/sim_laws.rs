//! What the simulated disk promises across requests.
use vstd::prelude::*;

use crate::bytes::splice;
use crate::device::block::{between, in_bounds};
use crate::device::script::{DeviceEffect, DeviceEventKind, ReorderPolicy};
use crate::device::sim::{
    durable_len, first_rule, flush_order, insert_sorted, is_cut, lemma_rule_index,
    lemma_sorted_permutes, persisted, persisted_all, sorted_writes, whole_units, DiskView, PendingView, SortKey,
};

verus! {

/// Reads see exactly the durable bytes with the pending writes applied in order,
/// and none of those writes is torn.
pub open spec fn in_step(disk: DiskView) -> bool {
    &&& disk.volatile == persisted_all(
        disk.script.atomic_unit as int,
        disk.durable,
        disk.pending,
    )
    &&& forall|i: int| 0 <= i < disk.pending.len() ==> (#[trigger] disk.pending[i]).tear_prefix is None
}

/// Nothing fails and nothing is reordered.
pub open spec fn plain(disk: DiskView) -> bool {
    disk.valid() && disk.fault_free() && disk.script.reorder is None
}

/// Whether the effect is one that the requester is told of.
pub open spec fn told(effect: DeviceEffect) -> bool {
    !(effect is Drop) && !(effect is Tear)
}

/// Requests may fail and the disk may crash, but no write is dropped or torn without a
/// word, nothing is reordered, and a flush leaves nothing out.
pub open spec fn honest(disk: DiskView) -> bool {
    &&& disk.valid()
    &&& in_step(disk)
    &&& disk.script.reorder is None
    &&& disk.script.flush_data_writes is None
    &&& forall|i: int| 0 <= i < disk.script.rules.len() ==> told((#[trigger] disk.script.rules[i]).effect)
}

proof fn lemma_untorn(unit: int, write: PendingView)
    requires
        write.tear_prefix is None,
    ensures
        durable_len(unit, write) == write.data.len(),
{
}

pub proof fn lemma_persist_split(
    unit: int,
    durable: Seq<u8>,
    writes: Seq<PendingView>,
    limit: int,
)
    requires
        0 <= limit <= writes.len(),
    ensures
        persisted_all(unit, persisted_all(unit, durable, writes.take(limit)), writes.skip(limit))
            == persisted_all(unit, durable, writes),
    decreases writes.len() - limit,
{
    if limit == writes.len() {
        assert(writes.take(limit) =~= writes);
        assert(writes.skip(limit) =~= Seq::empty());
    } else {
        let shorter = writes.drop_last();
        lemma_persist_split(unit, durable, shorter, limit);
        assert(shorter.take(limit) =~= writes.take(limit));
        assert(shorter.skip(limit) =~= writes.skip(limit).drop_last());
        assert(writes.skip(limit).last() == writes.last());
    }
}

/// On a disk where nothing fails or is reordered, a write is readable at once and
/// leaves what is durable alone.
pub proof fn law_write_is_readable_not_durable(disk: DiskView, offset: u64, data: Seq<u8>)
    requires
        plain(disk),
        in_bounds(offset, data.len(), disk.capacity()),
    ensures
        disk.write_result(offset, data.len()) is Ok,
        disk.after_write(offset, data).volatile == splice(disk.volatile, offset as int, data),
        disk.after_write(offset, data).durable == disk.durable,
        in_step(disk) ==> in_step(disk.after_write(offset, data)),
{
    let after = disk.after_write(offset, data);
    assert(first_rule(
        disk.script.rules,
        DeviceEventKind::Write,
        disk.sequence(),
        offset,
        data.len(),
        0,
    ) is None);
    if in_step(disk) {
        let write = after.pending.last();
        lemma_untorn(disk.script.atomic_unit as int, write);
        assert(after.pending.drop_last() =~= disk.pending);
        assert(data.take(data.len() as int) =~= data);
        assert forall|i: int| 0 <= i < after.pending.len() implies (
        #[trigger] after.pending[i]).tear_prefix is None by {
            if i < disk.pending.len() {
                assert(after.pending[i] == disk.pending[i]);
            }
        }
    }
}

/// A flush of everything makes exactly what reads see durable, so that it outlives
/// a power loss.
pub proof fn law_flushed_bytes_survive_power_loss(disk: DiskView)
    requires
        plain(disk),
        in_step(disk),
    ensures
        disk.flush_result(DeviceEventKind::FlushAll) is Ok,
        disk.after_flush(DeviceEventKind::FlushAll).durable == disk.volatile,
        disk.after_flush(DeviceEventKind::FlushAll).pending.len() == 0,
        disk.after_flush(DeviceEventKind::FlushAll).after_power_loss().volatile == disk.volatile,
{
    let kind = DeviceEventKind::FlushAll;
    assert(first_rule(disk.script.rules, kind, disk.sequence(), 0, 0, 0) is None);
    assert(disk.pending.take(disk.pending.len() as int) =~= disk.pending);
}

/// A flush, even one that is limited to some of the writes, keeps reads and
/// pending writes in step.
pub proof fn law_flush_keeps_step(disk: DiskView, kind: DeviceEventKind)
    requires
        plain(disk),
        in_step(disk),
        kind is FlushData || kind is FlushAll,
    ensures
        in_step(disk.after_flush(kind)),
        disk.after_flush(kind).volatile == disk.volatile,
{
    assert(first_rule(disk.script.rules, kind, disk.sequence(), 0, 0, 0) is None);
    let limit = disk.flush_limit(kind);
    let after = disk.after_flush(kind);
    lemma_persist_split(disk.script.atomic_unit as int, disk.durable, disk.pending, limit);
    assert forall|i: int| 0 <= i < after.pending.len() implies (
    #[trigger] after.pending[i]).tear_prefix is None by {
        assert(after.pending[i] == disk.pending[limit + i]);
    }
}

/// A write that is taken into the cache whole keeps reads and pending writes in step.
pub proof fn lemma_cached_in_step(disk: DiskView, offset: u64, data: Seq<u8>)
    requires
        in_step(disk),
    ensures
        in_step(disk.cached(offset, data, None)),
{
    let after = disk.cached(offset, data, None);
    let write = after.pending.last();
    lemma_untorn(disk.script.atomic_unit as int, write);
    assert(after.pending.drop_last() =~= disk.pending);
    assert(data.take(data.len() as int) =~= data);
    assert forall|i: int| 0 <= i < after.pending.len() implies (
    #[trigger] after.pending[i]).tear_prefix is None by {
        if i < disk.pending.len() {
            assert(after.pending[i] == disk.pending[i]);
        }
    }
}

/// A part of a write stands between nothing of it and all of it.
proof fn lemma_part_between(durable: Seq<u8>, offset: u64, data: Seq<u8>, n: int)
    requires
        0 <= n <= data.len(),
        offset + data.len() <= durable.len(),
    ensures
        between(
            splice(durable, offset as int, data.take(n)),
            durable,
            splice(durable, offset as int, data),
        ),
{
}

/// The effect that an event on an honest disk meets is one that the requester is told of.
proof fn lemma_told(disk: DiskView, kind: DeviceEventKind, offset: u64, len: nat)
    requires
        honest(disk),
    ensures
        disk.effect_of(disk.rule_for(kind, offset, len)) matches Some(effect) ==> told(effect),
{
    lemma_rule_index(disk.script.rules, kind, disk.sequence(), offset, len, 0);
}

/// An honest disk stays honest, whatever is read. A read leaves what is durable alone.
pub proof fn law_honest_disk_reads(disk: DiskView, offset: u64, len: nat)
    requires
        honest(disk),
    ensures
        disk.after_read(offset, len).valid() ==> honest(disk.after_read(offset, len)),
        disk.after_read(offset, len).durable == disk.durable,
{
}

/// An honest disk stays honest, whatever is written. A write that is acknowledged is
/// readable, and no write puts more at risk than the bytes that it is about.
pub proof fn law_honest_disk_writes(disk: DiskView, offset: u64, data: Seq<u8>)
    requires
        honest(disk),
    ensures
        disk.after_write(offset, data).valid() ==> honest(disk.after_write(offset, data)),
        if in_bounds(offset, data.len(), disk.capacity()) {
            between(
                disk.after_write(offset, data).durable,
                disk.durable,
                splice(disk.durable, offset as int, data),
            ) && (disk.write_result(offset, data.len()) is Ok ==> disk.after_write(
                offset,
                data,
            ).volatile == splice(disk.volatile, offset as int, data))
        } else {
            disk.after_write(offset, data).durable == disk.durable
        },
{
    let unit = disk.script.atomic_unit as int;
    lemma_told(disk, DeviceEventKind::Write, offset, data.len());
    lemma_cached_in_step(disk, offset, data);
    match disk.effect_of(disk.transfer_rule(DeviceEventKind::Write, offset, data.len())) {
        Some(DeviceEffect::Short { bytes }) => {
            if bytes < data.len() {
                lemma_cached_in_step(disk, offset, data.take(bytes as int));
            }
        },
        Some(DeviceEffect::TearAndCrashAfter { durable_prefix }) => {
            let end = if durable_prefix < data.len() {
                durable_prefix as int
            } else {
                data.len() as int
            };
            lemma_whole_units_is_cut(unit, offset as int, data.len() as int, end);
            lemma_part_between(
                disk.durable,
                offset,
                data,
                whole_units(unit, offset as int, data.len() as int, end),
            );
        },
        _ => {},
    }
}

/// An honest disk stays honest, whatever is flushed. A flush that is acknowledged makes
/// everything durable, and one that fails part of it or nothing.
pub proof fn law_honest_disk_flushes(disk: DiskView, kind: DeviceEventKind)
    requires
        honest(disk),
        kind is FlushData || kind is FlushAll,
    ensures
        disk.after_flush(kind).valid() ==> honest(disk.after_flush(kind)),
        between(disk.after_flush(kind).durable, disk.durable, disk.volatile),
        disk.flush_result(kind) is Ok ==> disk.after_flush(kind).durable == disk.volatile
            && disk.after_flush(kind).volatile == disk.volatile,
{
    lemma_told(disk, kind, 0, 0);
    assert(disk.pending.take(disk.pending.len() as int) =~= disk.pending);
    assert(disk.pending.skip(disk.pending.len() as int) =~= Seq::empty());
}

/// A power loss loses exactly what is not durable, and leaves the disk in step.
pub proof fn law_power_loss_forgets_volatile(disk: DiskView)
    requires
        disk.valid(),
    ensures
        disk.after_power_loss().volatile == disk.durable,
        disk.after_power_loss().durable == disk.durable,
        in_step(disk.after_power_loss()),
{
}

/// No write but one that is torn by a crash changes what is durable.
pub proof fn law_only_torn_crash_writes_through(disk: DiskView, offset: u64, data: Seq<u8>)
    requires
        disk.valid(),
        !(disk.effect_of(disk.transfer_rule(DeviceEventKind::Write, offset, data.len()))
            matches Some(DeviceEffect::TearAndCrashAfter { .. })),
    ensures
        disk.after_write(offset, data).durable == disk.durable,
{
}

proof fn lemma_whole_units_is_cut(unit: int, offset: int, len: int, end: int)
    requires
        0 <= end,
    ensures
        0 <= whole_units(unit, offset, len, end) <= end,
        is_cut(unit, offset, len, whole_units(unit, offset, len, end)),
        forall|cut: int|
            whole_units(unit, offset, len, end) < cut <= end ==> !#[trigger] is_cut(
                unit,
                offset,
                len,
                cut,
            ),
    decreases end,
{
    if end > 0 && !is_cut(unit, offset, len, end) {
        lemma_whole_units_is_cut(unit, offset, len, end - 1);
    }
}

/// A torn write makes the longest run of whole atomic units within its prefix
/// durable and touches nothing else.
pub proof fn law_torn_write_keeps_whole_units(
    unit: int,
    durable: Seq<u8>,
    write: PendingView,
    prefix: usize,
)
    requires
        write.tear_prefix == Some(prefix),
        write.offset + write.data.len() <= durable.len(),
    ensures
        ({
            let cut = durable_len(unit, write);
            let after = persisted(unit, durable, write);
            &&& 0 <= cut <= prefix
            &&& cut <= write.data.len()
            &&& is_cut(unit, write.offset as int, write.data.len() as int, cut)
            &&& after.len() == durable.len()
            &&& forall|i: int| write.offset <= i < write.offset + cut ==> after[i] == write.data[i - write.offset]
            &&& forall|i: int|
                0 <= i < durable.len() && !(write.offset <= i < write.offset + cut) ==> after[i]
                    == durable[i]
        }),
{
    let len = write.data.len() as int;
    let end = if prefix < len {
        prefix as int
    } else {
        len
    };
    lemma_whole_units_is_cut(unit, write.offset as int, len, end);
}

proof fn lemma_insert_ascends(key: SortKey, sorted: Seq<PendingView>, write: PendingView)
    requires
        forall|i: int, j: int|
            0 <= i <= j < sorted.len() ==> key.of(#[trigger] sorted[i]) <= key.of(
                #[trigger] sorted[j],
            ),
    ensures
        ({
            let out = insert_sorted(key, sorted, write);
            &&& out.len() == sorted.len() + 1
            &&& forall|i: int, j: int|
                0 <= i <= j < out.len() ==> key.of(#[trigger] out[i]) <= key.of(#[trigger] out[j])
            &&& forall|i: int|
                0 <= i < out.len() ==> (out[i] == write || exists|j: int|
                    0 <= j < sorted.len() && sorted[j] == #[trigger] out[i])
        }),
    decreases sorted.len(),
{
    let out = insert_sorted(key, sorted, write);
    if sorted.len() == 0 || key.of(sorted.last()) <= key.of(write) {
        assert forall|i: int, j: int| 0 <= i <= j < out.len() implies key.of(#[trigger] out[i])
            <= key.of(#[trigger] out[j]) by {
            if sorted.len() > 0 {
                assert(key.of(sorted[sorted.len() - 1]) <= key.of(write));
                if i < sorted.len() {
                    assert(key.of(sorted[i]) <= key.of(sorted[sorted.len() - 1]));
                }
            }
        }
        assert forall|i: int| 0 <= i < out.len() implies (out[i] == write || exists|j: int|
            0 <= j < sorted.len() && sorted[j] == #[trigger] out[i]) by {
            if i < sorted.len() {
                assert(sorted[i] == out[i]);
            }
        }
    } else {
        let shorter = sorted.drop_last();
        assert forall|i: int, j: int| 0 <= i <= j < shorter.len() implies key.of(
            #[trigger] shorter[i],
        ) <= key.of(#[trigger] shorter[j]) by {
            assert(shorter[i] == sorted[i] && shorter[j] == sorted[j]);
        }
        lemma_insert_ascends(key, shorter, write);
        let inner = insert_sorted(key, shorter, write);
        let last = sorted.last();
        assert forall|i: int| 0 <= i < inner.len() implies key.of(#[trigger] inner[i]) <= key.of(
            last,
        ) by {
            if inner[i] != write {
                let j = choose|j: int| 0 <= j < shorter.len() && shorter[j] == inner[i];
                assert(sorted[j] == inner[i]);
                assert(key.of(sorted[j]) <= key.of(sorted[sorted.len() - 1]));
            }
        }
        assert forall|i: int, j: int| 0 <= i <= j < out.len() implies key.of(#[trigger] out[i])
            <= key.of(#[trigger] out[j]) by {
            if j < inner.len() {
                assert(out[i] == inner[i] && out[j] == inner[j]);
            } else if i < inner.len() {
                assert(out[i] == inner[i]);
            }
        }
        assert forall|i: int| 0 <= i < out.len() implies (out[i] == write || exists|j: int|
            0 <= j < sorted.len() && sorted[j] == #[trigger] out[i]) by {
            if i < inner.len() {
                assert(out[i] == inner[i]);
                if inner[i] != write {
                    let j = choose|j: int| 0 <= j < shorter.len() && shorter[j] == inner[i];
                    assert(sorted[j] == out[i]);
                }
            } else {
                assert(sorted[sorted.len() - 1] == out[i]);
            }
        }
    }
}

/// A flush by offset makes all pending writes durable in ascending order of their
/// offsets, writes at one offset in the order in which they came.
pub proof fn law_by_offset_order(writes: Seq<PendingView>)
    ensures
        ({
            let order = flush_order(Some(ReorderPolicy::ByOffset), writes);
            &&& order.to_multiset() == writes.to_multiset()
            &&& forall|i: int, j: int|
                0 <= i <= j < order.len() ==> (#[trigger] order[i]).offset < (
                #[trigger] order[j]).offset || (order[i].offset == order[j].offset
                    && order[i].ordinal <= order[j].ordinal)
        }),
{
    lemma_sorted_permutes(SortKey::Offset, writes);
    lemma_sorted_ascends(SortKey::Offset, writes);
    let order = sorted_writes(SortKey::Offset, writes);
    assert forall|i: int, j: int| 0 <= i <= j < order.len() implies (#[trigger] order[i]).offset
        < (#[trigger] order[j]).offset || (order[i].offset == order[j].offset && order[i].ordinal
        <= order[j].ordinal) by {
        assert(SortKey::Offset.of(order[i]) <= SortKey::Offset.of(order[j]));
    }
}

pub proof fn lemma_sorted_ascends(key: SortKey, writes: Seq<PendingView>)
    ensures
        forall|i: int, j: int|
            0 <= i <= j < sorted_writes(key, writes).len() ==> key.of(
                #[trigger] sorted_writes(key, writes)[i],
            ) <= key.of(#[trigger] sorted_writes(key, writes)[j]),
    decreases writes.len(),
{
    if writes.len() > 0 {
        lemma_sorted_ascends(key, writes.drop_last());
        lemma_insert_ascends(key, sorted_writes(key, writes.drop_last()), writes.last());
    }
}

} // verus!
