//! What scripts do to the requests of a simulated disk.
use vstd::prelude::*;

use crate::bytes::splice;
use crate::device::block::{DeviceError, FaultKind, InjectionSite};
use crate::device::script::{
    ByteRange, DeviceEffect, DeviceEventKind, DeviceEventOutcome, DeviceRule, EventOccurrence,
    EventSelector, LatencyProfile, LatencyRule, ReorderPolicy, ScriptView,
};
use crate::device::sim::{
    durable_len, extra_ticks, first_rule, flush_order, is_cut, lemma_sorted_permutes, mixed,
    persisted_all, sorted_writes, whole_units, DiskView, PendingView, SortKey,
};
use crate::device::sim_laws::{law_torn_write_keeps_whole_units, lemma_sorted_ascends};

verus! {

/// Whether the event with the given number is one of those that the pattern is about.
pub open spec fn falls_on(occurrence: EventOccurrence, number: int) -> bool {
    match occurrence {
        EventOccurrence::Any => true,
        EventOccurrence::Exact(only) => number == only,
        EventOccurrence::Every { first, period } => period > 0 && number >= first && (number
            - first) % (period as int) == 0,
    }
}

/// Whether a byte of the range is among the bytes of a transfer; one without bytes counts as
/// lying between the bytes before and behind it.
pub open spec fn touches(range: ByteRange, offset: u64, len: nat) -> bool {
    if len == 0 {
        range.offset < offset < range.offset + range.len
    } else {
        exists|at: int|
            range.offset <= at < range.offset + range.len && #[trigger] lies_in(at, offset, len)
    }
}

pub open spec fn lies_in(at: int, offset: u64, len: nat) -> bool {
    offset <= at < offset + len
}

/// Whether a rule is about the event.
pub open spec fn concerns(
    selector: EventSelector,
    kind: DeviceEventKind,
    number: int,
    offset: u64,
    len: nat,
) -> bool {
    &&& selector.kind == kind
    &&& falls_on(selector.occurrence, number)
    &&& selector.range matches Some(range) ==> touches(range, offset, len)
}

/// Whether rule `i` is the first that is about the event.
pub open spec fn strikes(
    rules: Seq<DeviceRule>,
    i: int,
    kind: DeviceEventKind,
    number: int,
    offset: u64,
    len: nat,
) -> bool {
    &&& 0 <= i < rules.len()
    &&& concerns(rules[i].selector, kind, number, offset, len)
    &&& forall|j: int| 0 <= j < i ==> !concerns((#[trigger] rules[j]).selector, kind, number, offset, len)
}

/// Whether no rule is about the event.
pub open spec fn unstruck(
    rules: Seq<DeviceRule>,
    kind: DeviceEventKind,
    number: int,
    offset: u64,
    len: nat,
) -> bool {
    forall|j: int|
        0 <= j < rules.len() ==> !concerns((#[trigger] rules[j]).selector, kind, number, offset, len)
}

/// Whether the ranges of the script have bytes and end within the addresses, as those of an
/// accepted script do.
pub open spec fn ranges_end(script: ScriptView) -> bool {
    &&& forall|i: int|
        0 <= i < script.rules.len() ==> ((#[trigger] script.rules[i]).selector.range matches Some(
            range,
        ) ==> 0 < range.len && range.offset + range.len <= u64::MAX)
    &&& forall|i: int|
        0 <= i < script.bad_ranges.len() ==> 0 < (#[trigger] script.bad_ranges[i]).len
            && script.bad_ranges[i].offset + script.bad_ranges[i].len <= u64::MAX
}

/// Whether the transfer lies on the disk and touches no bad range.
pub open spec fn reachable(disk: DiskView, offset: u64, len: nat) -> bool {
    &&& offset + len <= disk.durable.len()
    &&& forall|i: int|
        0 <= i < disk.script.bad_ranges.len() ==> !touches(
            #[trigger] disk.script.bad_ranges[i],
            offset,
            len,
        )
}

/// A disk whose requests the laws here speak of.
pub open spec fn scripted(disk: DiskView) -> bool {
    &&& ranges_end(disk.script)
    &&& disk.durable.len() <= usize::MAX
    &&& disk.trace.len() <= usize::MAX
    &&& disk.script.rules.len() <= u32::MAX
    &&& disk.hits.len() == disk.script.rules.len()
}

proof fn lemma_touches(range: ByteRange, offset: u64, len: nat)
    requires
        0 < range.len,
        range.offset + range.len <= u64::MAX,
        offset + len <= u64::MAX,
    ensures
        range.meets(offset, len) == touches(range, offset, len),
{
    if len > 0 && range.meets(offset, len) {
        let at = if range.offset >= offset {
            range.offset as int
        } else {
            offset as int
        };
        assert(lies_in(at, offset, len));
    }
}

proof fn lemma_concerns(
    selector: EventSelector,
    kind: DeviceEventKind,
    number: u64,
    offset: u64,
    len: nat,
)
    requires
        selector.range matches Some(range) ==> 0 < range.len && range.offset + range.len <= u64::MAX,
        offset + len <= u64::MAX,
    ensures
        concerns(selector, kind, number as int, offset, len) == (selector.kind == kind
            && selector.occurrence.covers(number as int) && (selector.range is None
            || selector.range->0.meets(offset, len))),
{
    if let Some(range) = selector.range {
        lemma_touches(range, offset, len);
    }
}

proof fn lemma_first_struck(
    rules: Seq<DeviceRule>,
    kind: DeviceEventKind,
    number: u64,
    offset: u64,
    len: nat,
    from: nat,
)
    requires
        forall|i: int|
            0 <= i < rules.len() ==> ((#[trigger] rules[i]).selector.range matches Some(range)
                ==> 0 < range.len && range.offset + range.len <= u64::MAX),
        offset + len <= u64::MAX,
    ensures
        match first_rule(rules, kind, number, offset, len, from) {
            Some(i) => from <= i < rules.len() && concerns(
                rules[i as int].selector,
                kind,
                number as int,
                offset,
                len,
            ) && forall|j: int|
                from <= j < i ==> !concerns(
                    (#[trigger] rules[j]).selector,
                    kind,
                    number as int,
                    offset,
                    len,
                ),
            None => forall|j: int|
                from <= j < rules.len() ==> !concerns(
                    (#[trigger] rules[j]).selector,
                    kind,
                    number as int,
                    offset,
                    len,
                ),
        },
    decreases rules.len() - from,
{
    if from < rules.len() {
        lemma_concerns(rules[from as int].selector, kind, number, offset, len);
        lemma_first_struck(rules, kind, number, offset, len, from + 1);
    }
}

/// What the disk's own notions say of a transfer.
proof fn lemma_transfer(disk: DiskView, kind: DeviceEventKind, offset: u64, len: nat)
    requires
        scripted(disk),
        offset + len <= u64::MAX,
    ensures
        reachable(disk, offset, len) ==> offset + len <= disk.capacity()
            && !disk.script.hits_bad_range(offset, len),
        offset + len <= disk.capacity() && !reachable(disk, offset, len)
            ==> disk.script.hits_bad_range(offset, len),
        unstruck(disk.script.rules, kind, disk.trace.len() as int, offset, len)
            ==> disk.rule_for(kind, offset, len) is None,
        forall|i: int|
            strikes(disk.script.rules, i, kind, disk.trace.len() as int, offset, len)
                ==> #[trigger] disk.script.rules[i] == disk.script.rules[i] && disk.rule_for(
                kind,
                offset,
                len,
            ) == Some(i as nat),
{
    let rules = disk.script.rules;
    assert forall|i: int| 0 <= i < disk.script.bad_ranges.len() implies (
    #[trigger] disk.script.bad_ranges[i]).meets(offset, len) == touches(
        disk.script.bad_ranges[i],
        offset,
        len,
    ) by {
        lemma_touches(disk.script.bad_ranges[i], offset, len);
    }
    lemma_first_struck(rules, kind, disk.sequence(), offset, len, 0);
    assert forall|i: int|
        strikes(rules, i, kind, disk.trace.len() as int, offset, len) implies #[trigger] rules[i]
        == rules[i] && disk.rule_for(kind, offset, len) == Some(i as nat) by {
        match disk.rule_for(kind, offset, len) {
            Some(k) => {
                if k < i {
                    assert(!concerns(
                        rules[k as int].selector,
                        kind,
                        disk.trace.len() as int,
                        offset,
                        len,
                    ));
                }
                if i < k {
                    assert(!concerns(rules[i].selector, kind, disk.trace.len() as int, offset, len));
                }
            },
            None => {
                assert(!concerns(rules[i].selector, kind, disk.trace.len() as int, offset, len));
            },
        }
    }
}

/// The pattern of every so many events: none before the first, then one in each period.
pub proof fn law_every_so_many_events(first: u64, period: u64, number: int)
    requires
        period > 0,
    ensures
        ({
            let every = EventOccurrence::Every { first, period };
            &&& every.covers(first as int)
            &&& number < first ==> !every.covers(number)
            &&& first < number < first + period ==> !every.covers(number)
            &&& number >= first ==> every.covers(number) == every.covers(number + period)
        }),
{
    let p = period as int;
    assert(0int % p == 0) by {
        vstd::arithmetic::div_mod::lemma_small_mod(0, period as nat);
    }
    if first < number < first + period {
        vstd::arithmetic::div_mod::lemma_small_mod((number - first) as nat, period as nat);
    }
    if number >= first {
        vstd::arithmetic::div_mod::lemma_mod_add_multiples_vanish(number - first, p);
        assert((number + period - first) == p + (number - first));
    }
}

/// Any event, and one event alone.
pub proof fn law_any_and_exact_events(only: u64, number: int)
    ensures
        EventOccurrence::Any.covers(number),
        EventOccurrence::Exact(only).covers(number) == (number == only),
{
}

/// The ticks that the profile gives to an event of the kind.
pub open spec fn base_ticks(profile: LatencyProfile, kind: DeviceEventKind) -> u64 {
    match kind {
        DeviceEventKind::Read => profile.read_ticks,
        DeviceEventKind::Write => profile.write_ticks,
        DeviceEventKind::FlushData => profile.flush_data_ticks,
        DeviceEventKind::FlushAll => profile.flush_all_ticks,
        DeviceEventKind::Crash => 0,
    }
}

proof fn lemma_extra_ticks(rules: Seq<LatencyRule>, kind: DeviceEventKind, number: u64, n: nat)
    requires
        n <= rules.len(),
    ensures
        extra_ticks(rules, kind, number, n) >= 0,
    decreases n,
{
    if n > 0 {
        lemma_extra_ticks(rules, kind, number, (n - 1) as nat);
    }
}

proof fn lemma_extra_ticks_prefix(
    rules: Seq<LatencyRule>,
    rule: LatencyRule,
    kind: DeviceEventKind,
    number: u64,
    n: nat,
)
    requires
        n <= rules.len(),
    ensures
        extra_ticks(rules.push(rule), kind, number, n) == extra_ticks(rules, kind, number, n),
    decreases n,
{
    if n > 0 {
        lemma_extra_ticks_prefix(rules, rule, kind, number, (n - 1) as nat);
        assert(rules.push(rule)[n - 1] == rules[n - 1]);
    }
}

/// Without latency rules and jitter an event takes what the profile says for its kind.
pub proof fn law_plain_latency(script: ScriptView, kind: DeviceEventKind, number: u64)
    requires
        script.latency_rules.len() == 0,
        script.latency.jitter_ticks == 0,
    ensures
        script.latency_of(kind, number) == base_ticks(script.latency, kind),
{
}

/// Jitter lengthens an event by at most the ticks of the profile, by the same for every kind
/// of event, and by the same again for the same seed and number.
pub proof fn law_jitter_is_bounded_and_repeatable(
    script: ScriptView,
    other: ScriptView,
    kind: DeviceEventKind,
    other_kind: DeviceEventKind,
    number: u64,
)
    requires
        script.latency_rules.len() == 0,
        other.latency_rules.len() == 0,
        script.latency.jitter_ticks < u64::MAX,
        base_ticks(script.latency, kind) + script.latency.jitter_ticks <= u64::MAX,
        base_ticks(other.latency, other_kind) + script.latency.jitter_ticks <= u64::MAX,
        other.latency.jitter_ticks == script.latency.jitter_ticks,
        other.latency.seed == script.latency.seed,
    ensures
        base_ticks(script.latency, kind) <= script.latency_of(kind, number),
        script.latency_of(kind, number) <= base_ticks(script.latency, kind)
            + script.latency.jitter_ticks,
        script.latency_of(kind, number) - base_ticks(script.latency, kind) == other.latency_of(
            other_kind,
            number,
        ) - base_ticks(other.latency, other_kind),
{
}

/// One latency rule more lengthens an event that it is about by exactly its extra ticks, up to
/// the largest time, and leaves every other event alone.
pub proof fn law_latency_rule_adds_its_ticks(
    script: ScriptView,
    rule: LatencyRule,
    kind: DeviceEventKind,
    number: u64,
)
    ensures
        ({
            let more = ScriptView { latency_rules: script.latency_rules.push(rule), ..script };
            let before = script.latency_of(kind, number);
            let after = more.latency_of(kind, number);
            if rule.selector.kind == kind && falls_on(rule.selector.occurrence, number as int)
                && rule.selector.range is None {
                after == if before + rule.extra_ticks > u64::MAX {
                    u64::MAX as int
                } else {
                    before + rule.extra_ticks
                }
            } else {
                after == before
            }
        }),
{
    let rules = script.latency_rules;
    lemma_extra_ticks(rules, kind, number, rules.len());
    lemma_extra_ticks_prefix(rules, rule, kind, number, rules.len());
    assert(rules.push(rule)[rules.len() as int] == rule);
}

/// The clock goes on by the ticks of each event, whatever becomes of it, and stands still at
/// the largest time.
pub proof fn law_clock_goes_on(disk: DiskView, offset: u64, len: nat, data: Seq<u8>)
    requires
        disk.trace.len() <= usize::MAX,
    ensures
        ({
            let number = disk.trace.len() as u64;
            let flush = disk.after_flush(DeviceEventKind::FlushData);
            let all = disk.after_flush(DeviceEventKind::FlushAll);
            &&& ends_at(
                disk,
                disk.script.latency_of(DeviceEventKind::Read, number),
                disk.after_read(offset, len),
            )
            &&& ends_at(
                disk,
                disk.script.latency_of(DeviceEventKind::Write, number),
                disk.after_write(offset, data),
            )
            &&& ends_at(disk, disk.script.latency_of(DeviceEventKind::FlushData, number), flush)
            &&& ends_at(disk, disk.script.latency_of(DeviceEventKind::FlushAll, number), all)
        }),
{
}

/// Whether the clock has gone on by the ticks.
pub open spec fn ends_at(before: DiskView, ticks: u64, after: DiskView) -> bool {
    after.virtual_time == if before.virtual_time + ticks > u64::MAX {
        u64::MAX as int
    } else {
        before.virtual_time + ticks
    }
}

/// The error of a fault that struck the next event.
pub open spec fn struck_by(disk: DiskView, kind: FaultKind) -> Result<(), DeviceError> {
    Err(DeviceError::Injected { at: InjectionSite::Event(disk.trace.len() as u64), kind })
}

/// How the last event of a disk is recorded.
pub open spec fn recorded(
    before: DiskView,
    after: DiskView,
    kind: DeviceEventKind,
    offset: u64,
    len: nat,
    outcome: DeviceEventOutcome,
    rule: Option<int>,
) -> bool {
    let event = after.trace.last();
    &&& after.trace.len() == before.trace.len() + 1
    &&& after.trace.drop_last() == before.trace
    &&& event.sequence == before.trace.len()
    &&& event.kind == kind
    &&& event.offset == offset
    &&& event.len == len
    &&& event.virtual_time == after.virtual_time
    &&& event.outcome == outcome
    &&& match rule {
        Some(i) => event.script_rule == Some(i as u32) && event.script_effect == Some(
            before.script.rules[i].effect,
        ) && after.hits == before.hits.update(i, true),
        None => event.script_rule is None && event.script_effect is None && after.hits
            == before.hits,
    }
    &&& after.script == before.script
}

/// Whether the bytes of the disk, and what is pending, are as they were.
pub open spec fn same_bytes(before: DiskView, after: DiskView) -> bool {
    &&& after.durable == before.durable
    &&& after.volatile == before.volatile
    &&& after.pending == before.pending
}

/// Whether everything that was not durable is lost.
pub open spec fn lost(after: DiskView) -> bool {
    after.volatile == after.durable && after.pending.len() == 0
}

/// A transfer that does not lie on the disk is refused with the place, the length and the
/// size of the disk; it changes no byte and no rule strikes it.
pub proof fn law_transfers_beyond_the_end_are_refused(
    disk: DiskView,
    offset: u64,
    data: Seq<u8>,
)
    requires
        scripted(disk),
        data.len() <= usize::MAX,
        offset + data.len() > disk.durable.len(),
    ensures
        ({
            let len = data.len();
            let refused = Err::<(), DeviceError>(
                DeviceError::OutOfBounds {
                    offset,
                    len: len as usize,
                    capacity: disk.durable.len() as u64,
                },
            );
            let (read, wrote) = (disk.after_read(offset, len), disk.after_write(offset, data));
            let failed = DeviceEventOutcome::Failed;
            &&& disk.read_result(offset, len) == refused
            &&& disk.write_result(offset, len) == refused
            &&& same_bytes(disk, read)
            &&& same_bytes(disk, wrote)
            &&& recorded(disk, read, DeviceEventKind::Read, offset, len, failed, None)
            &&& recorded(disk, wrote, DeviceEventKind::Write, offset, len, failed, None)
        }),
{
    let len = data.len();
    assert(disk.after_read(offset, len).trace.drop_last() =~= disk.trace);
    assert(disk.after_write(offset, data).trace.drop_last() =~= disk.trace);
}

/// A transfer on the disk that touches a bad range fails with a media error; it changes no
/// byte and no rule strikes it.
pub proof fn law_bad_ranges_fail(disk: DiskView, offset: u64, data: Seq<u8>, i: int)
    requires
        scripted(disk),
        offset + data.len() <= disk.durable.len(),
        0 <= i < disk.script.bad_ranges.len(),
        touches(disk.script.bad_ranges[i], offset, data.len()),
    ensures
        ({
            let len = data.len();
            let (read, wrote) = (disk.after_read(offset, len), disk.after_write(offset, data));
            let failed = DeviceEventOutcome::Failed;
            &&& disk.read_result(offset, len) == struck_by(disk, FaultKind::MediaError)
            &&& disk.write_result(offset, len) == struck_by(disk, FaultKind::MediaError)
            &&& same_bytes(disk, read)
            &&& same_bytes(disk, wrote)
            &&& recorded(disk, read, DeviceEventKind::Read, offset, len, failed, None)
            &&& recorded(disk, wrote, DeviceEventKind::Write, offset, len, failed, None)
        }),
{
    let len = data.len();
    lemma_transfer(disk, DeviceEventKind::Read, offset, len);
    lemma_touches(disk.script.bad_ranges[i], offset, len);
    assert(disk.after_read(offset, len).trace.drop_last() =~= disk.trace);
    assert(disk.after_write(offset, data).trace.drop_last() =~= disk.trace);
}

/// A read that can be carried out and that no rule is about succeeds; it changes no byte.
pub proof fn law_plain_read_succeeds(disk: DiskView, offset: u64, len: nat)
    requires
        scripted(disk),
        reachable(disk, offset, len),
        unstruck(
            disk.script.rules,
            DeviceEventKind::Read,
            disk.trace.len() as int,
            offset,
            len,
        ),
    ensures
        disk.read_result(offset, len) is Ok,
        same_bytes(disk, disk.after_read(offset, len)),
        recorded(
            disk,
            disk.after_read(offset, len),
            DeviceEventKind::Read,
            offset,
            len,
            DeviceEventOutcome::Completed,
            None,
        ),
{
    lemma_transfer(disk, DeviceEventKind::Read, offset, len);
    assert(disk.after_read(offset, len).trace.drop_last() =~= disk.trace);
}

/// A rule that strikes a read makes it time out or fail; it changes no byte.
pub proof fn law_struck_read_fails(disk: DiskView, offset: u64, len: nat, i: int)
    requires
        scripted(disk),
        reachable(disk, offset, len),
        strikes(
            disk.script.rules,
            i,
            DeviceEventKind::Read,
            disk.trace.len() as int,
            offset,
            len,
        ),
    ensures
        disk.script.rules[i].effect is Timeout ==> disk.read_result(offset, len) == struck_by(
            disk,
            FaultKind::Timeout,
        ),
        disk.script.rules[i].effect is Fail ==> disk.read_result(offset, len) == struck_by(
            disk,
            FaultKind::ReadFailed,
        ),
        same_bytes(disk, disk.after_read(offset, len)),
        recorded(
            disk,
            disk.after_read(offset, len),
            DeviceEventKind::Read,
            offset,
            len,
            DeviceEventOutcome::Failed,
            Some(i),
        ),
{
    lemma_transfer(disk, DeviceEventKind::Read, offset, len);
    assert(disk.script.rules[i] == disk.script.rules[i]);
    assert(disk.after_read(offset, len).trace.drop_last() =~= disk.trace);
}

/// Whether the bytes were taken in at the place: they are read from now on, and wait behind
/// the others to be made durable.
pub open spec fn taken_in(
    before: DiskView,
    after: DiskView,
    offset: u64,
    data: Seq<u8>,
    tear: Option<usize>,
) -> bool {
    &&& after.durable == before.durable
    &&& after.volatile.len() == before.volatile.len()
    &&& forall|at: int|
        0 <= at < before.volatile.len() ==> #[trigger] after.volatile[at] == if offset <= at
            < offset + data.len() {
            data[at - offset]
        } else {
            before.volatile[at]
        }
    &&& after.pending == before.pending.push(
        PendingView { ordinal: before.trace.len() as u64, offset, data, tear_prefix: tear },
    )
}

proof fn lemma_taken_in(disk: DiskView, after: DiskView, offset: u64, data: Seq<u8>)
    requires
        disk.durable.len() == disk.volatile.len(),
        offset + data.len() <= disk.durable.len(),
    ensures
        forall|at: int|
            0 <= at < disk.volatile.len() ==> #[trigger] splice(
                disk.volatile,
                offset as int,
                data,
            )[at] == if offset <= at < offset + data.len() {
                data[at - offset]
            } else {
                disk.volatile[at]
            },
        splice(disk.volatile, offset as int, data).len() == disk.volatile.len(),
{
}

/// A write that can be carried out and that no rule is about is taken in whole.
pub proof fn law_plain_write_is_taken_in(disk: DiskView, offset: u64, data: Seq<u8>)
    requires
        scripted(disk),
        disk.durable.len() == disk.volatile.len(),
        reachable(disk, offset, data.len()),
        unstruck(
            disk.script.rules,
            DeviceEventKind::Write,
            disk.trace.len() as int,
            offset,
            data.len(),
        ),
    ensures
        disk.write_result(offset, data.len()) is Ok,
        taken_in(disk, disk.after_write(offset, data), offset, data, None),
        recorded(
            disk,
            disk.after_write(offset, data),
            DeviceEventKind::Write,
            offset,
            data.len(),
            DeviceEventOutcome::Completed,
            None,
        ),
{
    lemma_transfer(disk, DeviceEventKind::Write, offset, data.len());
    lemma_taken_in(disk, disk, offset, data);
    assert(disk.after_write(offset, data).trace.drop_last() =~= disk.trace);
}

/// What each effect makes of a write that its rule strikes: a failed, timed-out or dropped one
/// changes no byte, and only the dropped one is acknowledged; a short one is taken in up to its
/// bytes; a torn one is taken in and acknowledged whole, and only its prefix will be made
/// durable; a crash before or after it loses everything that is not durable, the write
/// included.
#[verifier::spinoff_prover]
pub proof fn law_struck_write(disk: DiskView, offset: u64, data: Seq<u8>, i: int)
    requires
        scripted(disk),
        disk.durable.len() == disk.volatile.len(),
        reachable(disk, offset, data.len()),
        strikes(
            disk.script.rules,
            i,
            DeviceEventKind::Write,
            disk.trace.len() as int,
            offset,
            data.len(),
        ),
    ensures
        ({
            let len = data.len();
            let after = disk.after_write(offset, data);
            let r = disk.write_result(offset, len);
            let kind = DeviceEventKind::Write;
            match disk.script.rules[i].effect {
                DeviceEffect::Fail => r == struck_by(disk, FaultKind::Failed) && same_bytes(
                    disk,
                    after,
                ) && recorded(
                    disk,
                    after,
                    kind,
                    offset,
                    len,
                    DeviceEventOutcome::Failed,
                    Some(i),
                ),
                DeviceEffect::Timeout => r == struck_by(disk, FaultKind::Timeout) && same_bytes(
                    disk,
                    after,
                ) && recorded(
                    disk,
                    after,
                    kind,
                    offset,
                    len,
                    DeviceEventOutcome::Failed,
                    Some(i),
                ),
                DeviceEffect::Drop => r is Ok && same_bytes(disk, after) && recorded(
                    disk,
                    after,
                    kind,
                    offset,
                    len,
                    DeviceEventOutcome::Dropped,
                    Some(i),
                ),
                DeviceEffect::Short { bytes } => if bytes < len {
                    r == struck_by(disk, FaultKind::ShortIo) && taken_in(
                        disk,
                        after,
                        offset,
                        data.take(bytes as int),
                        None,
                    ) && recorded(
                        disk,
                        after,
                        kind,
                        offset,
                        len,
                        DeviceEventOutcome::Short { bytes },
                        Some(i),
                    )
                } else {
                    r matches Err(DeviceError::InvalidConfig(_)) && same_bytes(disk, after)
                        && recorded(
                        disk,
                        after,
                        kind,
                        offset,
                        len,
                        DeviceEventOutcome::Failed,
                        Some(i),
                    )
                },
                DeviceEffect::Tear { durable_prefix } => r is Ok && taken_in(
                    disk,
                    after,
                    offset,
                    data,
                    Some(durable_prefix),
                ) && after.trace.last().outcome is Torn && after.trace.last().outcome->durable_prefix
                    <= durable_prefix,
                DeviceEffect::TearAndCrashAfter { durable_prefix } => r == struck_by(
                    disk,
                    FaultKind::Crashed,
                ) && lost(after) && after.durable.len() == disk.durable.len() && (forall|at: int|
                    0 <= at < disk.durable.len() && !(offset <= at < offset + len && at < offset
                        + durable_prefix) ==> #[trigger] after.durable[at] == disk.durable[at])
                    && recorded(
                    disk,
                    after,
                    kind,
                    offset,
                    len,
                    DeviceEventOutcome::Crashed,
                    Some(i),
                ),
                DeviceEffect::CrashBefore | DeviceEffect::CrashAfter => r == struck_by(
                    disk,
                    FaultKind::Crashed,
                ) && lost(after) && after.durable == disk.durable && recorded(
                    disk,
                    after,
                    kind,
                    offset,
                    len,
                    DeviceEventOutcome::Crashed,
                    Some(i),
                ),
            }
        }),
{
    let len = data.len();
    let after = disk.after_write(offset, data);
    lemma_transfer(disk, DeviceEventKind::Write, offset, len);
    assert(disk.script.rules[i] == disk.script.rules[i]);
    assert(after.trace.drop_last() =~= disk.trace);
    match disk.script.rules[i].effect {
        DeviceEffect::Short { bytes } => {
            if bytes < len {
                lemma_taken_in(disk, after, offset, data.take(bytes as int));
            }
        },
        DeviceEffect::Tear { durable_prefix } => {
            lemma_taken_in(disk, after, offset, data);
            law_torn_write_keeps_whole_units(
                disk.script.atomic_unit as int,
                disk.durable,
                PendingView {
                    ordinal: 0,
                    offset,
                    data,
                    tear_prefix: Some(durable_prefix),
                },
                durable_prefix,
            );
        },
        DeviceEffect::TearAndCrashAfter { durable_prefix } => {
            law_torn_write_keeps_whole_units(
                disk.script.atomic_unit as int,
                disk.durable,
                PendingView {
                    ordinal: disk.sequence(),
                    offset,
                    data,
                    tear_prefix: Some(durable_prefix),
                },
                durable_prefix,
            );
        },
        _ => {},
    }
}

/// How many pending writes a flush of the kind makes durable.
pub open spec fn made_durable(disk: DiskView, kind: DeviceEventKind) -> int {
    match disk.script.flush_data_writes {
        Some(most) => if kind is FlushData && most < disk.pending.len() {
            most as int
        } else {
            disk.pending.len() as int
        },
        None => disk.pending.len() as int,
    }
}

/// What each effect makes of a flush that its rule strikes, and what a flush without one does:
/// it is acknowledged, and so many of the pending writes, in the order of the policy, are made
/// durable one after the other. A dropped one is acknowledged and does nothing; a failed or
/// timed-out one does nothing; a crash before it loses everything that is not durable, and one
/// behind it what it left pending.
pub proof fn law_flush_effects(disk: DiskView, kind: DeviceEventKind, i: Option<int>)
    requires
        scripted(disk),
        kind is FlushData || kind is FlushAll,
        match i {
            Some(i) => strikes(disk.script.rules, i, kind, disk.trace.len() as int, 0, 0),
            None => unstruck(disk.script.rules, kind, disk.trace.len() as int, 0, 0),
        },
    ensures
        ({
            let after = disk.after_flush(kind);
            let r = disk.flush_result(kind);
            let n = made_durable(disk, kind);
            let order = flush_order(disk.script.reorder, disk.pending);
            let unit = disk.script.atomic_unit as int;
            let written = persisted_all(unit, disk.durable, order.take(n));
            let effect = match i {
                Some(i) => Some(disk.script.rules[i].effect),
                None => None,
            };
            let outcome = after.trace.last().outcome;
            &&& recorded(disk, after, kind, 0, 0, outcome, i)
            &&& match effect {
                Some(DeviceEffect::Fail) => r == struck_by(disk, FaultKind::Failed) && same_bytes(
                    disk,
                    after,
                ) && outcome is Failed,
                Some(DeviceEffect::Timeout) => r == struck_by(disk, FaultKind::Timeout)
                    && same_bytes(disk, after) && outcome is Failed,
                Some(DeviceEffect::Drop) => r is Ok && same_bytes(disk, after)
                    && outcome is Dropped,
                Some(DeviceEffect::CrashBefore) => r == struck_by(disk, FaultKind::Crashed) && lost(
                    after,
                ) && after.durable == disk.durable && outcome is Crashed,
                Some(DeviceEffect::CrashAfter) => r == struck_by(disk, FaultKind::Crashed) && lost(
                    after,
                ) && after.durable == written && outcome is Crashed,
                None => r is Ok && outcome is Completed && after.volatile == disk.volatile
                    && after.durable == written && after.pending == order.skip(n),
                _ => true,
            }
        }),
{
    lemma_transfer(disk, kind, 0, 0);
    assert(disk.after_flush(kind).trace.drop_last() =~= disk.trace);
    if let Some(i) = i {
        assert(disk.script.rules[i] == disk.script.rules[i]);
    }
}

/// The order of a flush: the order in which the writes came, or that order turned round.
pub proof fn law_flush_order_of_policies(writes: Seq<PendingView>, i: int)
    requires
        0 <= i < writes.len(),
    ensures
        flush_order(None, writes) == writes,
        flush_order(Some(ReorderPolicy::Reverse), writes).len() == writes.len(),
        flush_order(Some(ReorderPolicy::Reverse), writes)[i] == writes[writes.len() - 1 - i],
{
}

/// Whether the write covers the place.
pub open spec fn covers(write: PendingView, at: int) -> bool {
    write.offset <= at < write.offset + write.data.len()
}

/// Writes that are made durable one after the other, none of them torn: each byte is that of
/// the last write over it, or what it was before where none is over it.
pub proof fn law_last_write_stays(
    unit: int,
    durable: Seq<u8>,
    writes: Seq<PendingView>,
    at: int,
    last: Option<int>,
)
    requires
        0 <= at < durable.len(),
        forall|k: int|
            0 <= k < writes.len() ==> (#[trigger] writes[k]).tear_prefix is None && writes[k].offset
                + writes[k].data.len() <= durable.len(),
        match last {
            Some(i) => 0 <= i < writes.len() && covers(writes[i], at) && forall|k: int|
                i < k < writes.len() ==> !covers(#[trigger] writes[k], at),
            None => forall|k: int| 0 <= k < writes.len() ==> !covers(#[trigger] writes[k], at),
        },
    ensures
        persisted_all(unit, durable, writes).len() == durable.len(),
        persisted_all(unit, durable, writes)[at] == match last {
            Some(i) => writes[i].data[at - writes[i].offset],
            None => durable[at],
        },
    decreases writes.len(),
{
    if writes.len() > 0 {
        let rest = writes.drop_last();
        let write = writes.last();
        let n = writes.len() - 1;
        assert(write == writes[n]);
        assert(write.data.take(write.data.len() as int) =~= write.data);
        assert forall|k: int| 0 <= k < rest.len() implies (#[trigger] rest[k]).tear_prefix is None
            && rest[k].offset + rest[k].data.len() <= durable.len() by {
            assert(rest[k] == writes[k]);
        }
        match last {
            Some(i) => {
                if i == n {
                    lemma_persisted_len(unit, durable, rest);
                } else {
                    assert(rest[i] == writes[i]);
                    assert forall|k: int| i < k < rest.len() implies !covers(#[trigger] rest[k], at) by {
                        assert(rest[k] == writes[k]);
                    }
                    law_last_write_stays(unit, durable, rest, at, last);
                    assert(!covers(writes[n], at));
                }
            },
            None => {
                assert forall|k: int| 0 <= k < rest.len() implies !covers(#[trigger] rest[k], at) by {
                    assert(rest[k] == writes[k]);
                }
                law_last_write_stays(unit, durable, rest, at, None);
                assert(!covers(writes[n], at));
            },
        }
    }
}

proof fn lemma_persisted_len(unit: int, durable: Seq<u8>, writes: Seq<PendingView>)
    requires
        forall|k: int|
            0 <= k < writes.len() ==> (#[trigger] writes[k]).tear_prefix is None && writes[k].offset
                + writes[k].data.len() <= durable.len(),
    ensures
        persisted_all(unit, durable, writes).len() == durable.len(),
    decreases writes.len(),
{
    if writes.len() > 0 {
        let rest = writes.drop_last();
        assert(writes.last() == writes[writes.len() - 1]);
        assert(writes.last().data.take(writes.last().data.len() as int) =~= writes.last().data);
        assert forall|k: int| 0 <= k < rest.len() implies (#[trigger] rest[k]).tear_prefix is None
            && rest[k].offset + rest[k].data.len() <= durable.len() by {
            assert(rest[k] == writes[k]);
        }
        lemma_persisted_len(unit, durable, rest);
    }
}

/// How many bytes of a torn write become durable: a cut within the prefix that stands at the
/// start or the end of the write or at a multiple of the unit, and no longer one is such a cut.
pub proof fn law_torn_cut_is_the_longest(unit: int, write: PendingView, prefix: usize, cut: int)
    requires
        unit > 0,
        write.tear_prefix == Some(prefix),
        0 <= cut <= prefix,
        cut <= write.data.len(),
        cut == 0 || cut == write.data.len() || (write.offset + cut) % unit == 0,
    ensures
        cut <= durable_len(unit, write),
{
    let len = write.data.len() as int;
    let end = if prefix < len {
        prefix as int
    } else {
        len
    };
    lemma_longest_cut(unit, write.offset as int, len, end, cut);
}

proof fn lemma_longest_cut(unit: int, offset: int, len: int, end: int, cut: int)
    requires
        0 <= cut <= end,
        cut == 0 || cut == len || (offset + cut) % unit == 0,
    ensures
        cut <= whole_units(unit, offset, len, end),
    decreases end,
{
    if cut < end {
        if !is_cut(unit, offset, len, end) {
            lemma_longest_cut(unit, offset, len, end - 1, cut);
        }
    } else if end > 0 {
        assert(is_cut(unit, offset, len, end));
    }
}

/// A power loss is recorded, takes no time and loses everything that is not durable.
pub proof fn law_power_loss_is_recorded(disk: DiskView)
    requires
        scripted(disk),
    ensures
        lost(disk.after_power_loss()),
        disk.after_power_loss().durable == disk.durable,
        disk.script.latency_rules.len() == 0 && disk.script.latency.jitter_ticks == 0
            ==> disk.after_power_loss().virtual_time == disk.virtual_time,
        recorded(
            disk,
            disk.after_power_loss(),
            DeviceEventKind::Crash,
            0,
            0,
            DeviceEventOutcome::Completed,
            None,
        ),
{
    assert(disk.after_power_loss().trace.drop_last() =~= disk.trace);
}

/// The number that a seed and the number of an event are scrambled to.
pub open spec fn scrambled(seed: u64, number: u64) -> u64 {
    let first = seed ^ number.wrapping_mul(0x9e37_79b9_7f4a_7c15);
    let second = (first ^ (first >> 30)).wrapping_mul(0xbf58_476d_1ce4_e5b9);
    let third = (second ^ (second >> 27)).wrapping_mul(0x94d0_49bb_1331_11eb);
    third ^ (third >> 31)
}

/// Jitter is drawn from the seed and the number of the event, from nothing up to its bound,
/// the bound itself among them.
pub proof fn law_jitter_reaches_its_bound(script: ScriptView, kind: DeviceEventKind, number: u64)
    requires
        script.latency_rules.len() == 0,
        0 < script.latency.jitter_ticks < u64::MAX,
        base_ticks(script.latency, kind) + script.latency.jitter_ticks <= u64::MAX,
    ensures
        script.latency_of(kind, number) == base_ticks(script.latency, kind) + scrambled(
            script.latency.seed,
            number,
        ) as int % (script.latency.jitter_ticks + 1),
{
    assert(mixed(script.latency.seed, number) == scrambled(script.latency.seed, number));
}

/// A seeded flush keeps to its windows: the writes of the first window come first, and the rest
/// as if they were all.
pub proof fn law_windows_are_kept_apart(writes: Seq<PendingView>, window: u32, seed: u64)
    requires
        0 < window < writes.len(),
    ensures
        ({
            let policy = Some(ReorderPolicy::Seeded { window, seed });
            flush_order(policy, writes) == flush_order(policy, writes.take(window as int))
                + flush_order(policy, writes.skip(window as int))
        }),
{
}

/// Within a window the writes come in the order of their scrambled numbers, each once.
pub proof fn law_windows_are_scrambled(writes: Seq<PendingView>, window: u32, seed: u64)
    requires
        writes.len() <= window,
    ensures
        ({
            let order = flush_order(Some(ReorderPolicy::Seeded { window, seed }), writes);
            &&& order.to_multiset() == writes.to_multiset()
            &&& order.len() == writes.len()
            &&& forall|i: int, j: int|
                0 <= i <= j < order.len() ==> scrambled(seed, (#[trigger] order[i]).ordinal)
                    <= scrambled(seed, (#[trigger] order[j]).ordinal)
        }),
{
    let key = SortKey::Scrambled(seed);
    lemma_sorted_permutes(key, writes);
    lemma_sorted_ascends(key, writes);
    let order = flush_order(Some(ReorderPolicy::Seeded { window, seed }), writes);
    assert(order == sorted_writes(key, writes));
    assert forall|i: int, j: int| 0 <= i <= j < order.len() implies scrambled(
        seed,
        (#[trigger] order[i]).ordinal,
    ) <= scrambled(seed, (#[trigger] order[j]).ordinal) by {
        assert(key.of(order[i]) <= key.of(order[j]));
        assert(mixed(seed, order[i].ordinal) == scrambled(seed, order[i].ordinal));
        assert(mixed(seed, order[j].ordinal) == scrambled(seed, order[j].ordinal));
    }
}

/// A window of one write, and no window, keep the order.
pub proof fn law_small_windows_keep_the_order(writes: Seq<PendingView>, seed: u64)
    ensures
        flush_order(Some(ReorderPolicy::Seeded { window: 0, seed }), writes) == writes,
        flush_order(Some(ReorderPolicy::Seeded { window: 1, seed }), writes) == writes,
    decreases writes.len(),
{
    let key = SortKey::Scrambled(seed);
    if writes.len() <= 1 {
        if writes.len() == 1 {
            assert(writes.drop_last() =~= Seq::empty());
            assert(sorted_writes(key, writes.drop_last()) =~= Seq::empty());
            assert(sorted_writes(key, writes) =~= writes);
        }
    } else {
        let front = writes.take(1);
        law_small_windows_keep_the_order(front, seed);
        law_small_windows_keep_the_order(writes.skip(1), seed);
        assert(front + writes.skip(1) =~= writes);
    }
}

} // verus!
