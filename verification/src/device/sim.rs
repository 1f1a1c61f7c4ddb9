//! A simulated disk with a volatile write cache and scripted faults.
use vstd::prelude::*;

use crate::bytes::{copy_range, fill_from, overwrite, splice, zero_bytes, zeros};
use crate::device::block::{in_bounds, BlockDevice, DeviceError, FaultKind, InjectionSite};
use crate::device::sim_laws::{
    honest, law_honest_disk_flushes, law_honest_disk_reads, law_honest_disk_writes,
};
use crate::device::script::{
    effect_allowed, lemma_accepted_is_usable, plain_script, saturate, ByteRange, DeviceEffect,
    DeviceEvent, DeviceEventKind, DeviceEventOutcome, DeviceRule, DeviceScript, LatencyRule,
    ReorderPolicy, ScriptView,
};

verus! {

/// A write that is acknowledged but not yet durable.
#[derive(Debug)]
pub struct PendingWrite {
    ordinal: u64,
    offset: u64,
    data: Vec<u8>,
    tear_prefix: Option<usize>,
}

/// A pending write as mathematical values.
#[verifier::ext_equal]
pub struct PendingView {
    pub ordinal: u64,
    pub offset: u64,
    pub data: Seq<u8>,
    pub tear_prefix: Option<usize>,
}

impl View for PendingWrite {
    type V = PendingView;

    closed spec fn view(&self) -> PendingView {
        PendingView {
            ordinal: self.ordinal,
            offset: self.offset,
            data: self.data@,
            tear_prefix: self.tear_prefix,
        }
    }
}

impl PendingWrite {
    fn copy(&self) -> (copy: Self)
        ensures
            copy@ == self@,
    {
        let data = copy_range(self.data.as_slice(), 0, self.data.len());
        proof {
            assert(data@ =~= self.data@);
        }
        PendingWrite {
            ordinal: self.ordinal,
            offset: self.offset,
            data,
            tear_prefix: self.tear_prefix,
        }
    }
}

pub open spec fn views(writes: Seq<PendingWrite>) -> Seq<PendingView> {
    writes.map_values(|write: PendingWrite| write@)
}

/// The state of a simulated disk.
#[verifier::ext_equal]
pub struct DiskView {
    pub durable: Seq<u8>,
    pub volatile: Seq<u8>,
    pub pending: Seq<PendingView>,
    pub script: ScriptView,
    pub virtual_time: u64,
    pub trace: Seq<DeviceEvent>,
    pub hits: Seq<bool>,
}

/// A disk whose reads see every acknowledged write, while a power loss takes it
/// back to what was made durable.
#[derive(Debug)]
pub struct SimDisk {
    durable: Vec<u8>,
    volatile: Vec<u8>,
    pending: Vec<PendingWrite>,
    script: DeviceScript,
    virtual_time: u64,
    trace: Vec<DeviceEvent>,
    rule_hits: Vec<bool>,
}

impl View for SimDisk {
    type V = DiskView;

    closed spec fn view(&self) -> DiskView {
        DiskView {
            durable: self.durable@,
            volatile: self.volatile@,
            pending: views(self.pending@),
            script: self.script@,
            virtual_time: self.virtual_time,
            trace: self.trace@,
            hits: self.rule_hits@,
        }
    }
}

/// A reproducible scrambling of two numbers.
pub open spec fn mixed(value: u64, ordinal: u64) -> u64 {
    let a = value ^ ordinal.wrapping_mul(0x9e3779b97f4a7c15);
    let b = (a ^ (a >> 30)).wrapping_mul(0xbf58476d1ce4e5b9);
    let c = (b ^ (b >> 27)).wrapping_mul(0x94d049bb133111eb);
    c ^ (c >> 31)
}

pub fn mix(value: u64, ordinal: u64) -> (scrambled: u64)
    ensures
        scrambled == mixed(value, ordinal),
{
    let a: u64 = value ^ ordinal.wrapping_mul(0x9e3779b97f4a7c15);
    let b: u64 = (a ^ (a >> 30)).wrapping_mul(0xbf58476d1ce4e5b9);
    let c: u64 = (b ^ (b >> 27)).wrapping_mul(0x94d049bb133111eb);
    c ^ (c >> 31)
}

/// The extra ticks of the first `n` latency rules that are about the event.
pub open spec fn extra_ticks(
    rules: Seq<LatencyRule>,
    kind: DeviceEventKind,
    sequence: u64,
    n: nat,
) -> int
    decreases n,
{
    if n == 0 {
        0
    } else {
        let rule = rules[n - 1];
        let before = extra_ticks(rules, kind, sequence, (n - 1) as nat);
        if rule.selector.kind == kind && rule.selector.occurrence.covers(sequence as int)
            && rule.selector.range is None {
            before + rule.extra_ticks
        } else {
            before
        }
    }
}

/// The first rule from `from` on that is about the event.
pub open spec fn first_rule(
    rules: Seq<DeviceRule>,
    kind: DeviceEventKind,
    sequence: u64,
    offset: u64,
    len: nat,
    from: nat,
) -> Option<nat>
    decreases rules.len() - from,
{
    if from >= rules.len() {
        None
    } else if rules[from as int].selector.kind == kind
        && rules[from as int].selector.occurrence.covers(sequence as int) && (
    rules[from as int].selector.range is None || rules[from as int].selector.range->0.meets(
        offset,
        len,
    )) {
        Some(from)
    } else {
        first_rule(rules, kind, sequence, offset, len, from + 1)
    }
}

impl ScriptView {
    /// The ticks that the event takes.
    pub open spec fn latency_of(self, kind: DeviceEventKind, sequence: u64) -> u64 {
        let base = match kind {
            DeviceEventKind::Read => self.latency.read_ticks,
            DeviceEventKind::Write => self.latency.write_ticks,
            DeviceEventKind::FlushData => self.latency.flush_data_ticks,
            DeviceEventKind::FlushAll => self.latency.flush_all_ticks,
            DeviceEventKind::Crash => 0,
        };
        let jitter = if self.latency.jitter_ticks == 0 {
            0
        } else {
            mixed(self.latency.seed, sequence) % saturate(self.latency.jitter_ticks + 1)
        };
        saturate(
            base + jitter + extra_ticks(
                self.latency_rules,
                kind,
                sequence,
                self.latency_rules.len(),
            ),
        )
    }

    /// Whether the bytes touch a bad range.
    pub open spec fn hits_bad_range(self, offset: u64, len: nat) -> bool {
        exists|i: int|
            0 <= i < self.bad_ranges.len() && (#[trigger] self.bad_ranges[i]).meets(offset, len)
    }
}

/// Whether a write of `len` bytes at `offset` may be cut after `cut` bytes.
pub open spec fn is_cut(unit: int, offset: int, len: int, cut: int) -> bool {
    cut == 0 || cut == len || (offset + cut) % unit == 0
}

/// The longest part of a write, of at most `end` bytes, that breaks no atomic unit.
pub open spec fn whole_units(unit: int, offset: int, len: int, end: int) -> int
    decreases end,
{
    if end <= 0 {
        0
    } else if is_cut(unit, offset, len, end) {
        end
    } else {
        whole_units(unit, offset, len, end - 1)
    }
}

/// How many bytes of a pending write become durable.
pub open spec fn durable_len(unit: int, write: PendingView) -> int {
    let len = write.data.len() as int;
    let end = match write.tear_prefix {
        Some(prefix) => if prefix < len {
            prefix as int
        } else {
            len
        },
        None => len,
    };
    whole_units(unit, write.offset as int, len, end)
}

/// The durable bytes after one pending write was made durable.
pub open spec fn persisted(unit: int, durable: Seq<u8>, write: PendingView) -> Seq<u8> {
    splice(durable, write.offset as int, write.data.take(durable_len(unit, write)))
}

/// The durable bytes after the writes were made durable one after the other.
pub open spec fn persisted_all(unit: int, durable: Seq<u8>, writes: Seq<PendingView>) -> Seq<u8>
    decreases writes.len(),
{
    if writes.len() == 0 {
        durable
    } else {
        persisted(unit, persisted_all(unit, durable, writes.drop_last()), writes.last())
    }
}

/// What pending writes are ordered by.
#[derive(Clone, Copy, Debug, PartialEq, Eq, Structural)]
pub enum SortKey {
    Offset,
    Scrambled(u64),
}

impl SortKey {
    pub open spec fn of(self, write: PendingView) -> int {
        match self {
            SortKey::Offset => write.offset * 0x1_0000_0000_0000_0000 + write.ordinal,
            SortKey::Scrambled(seed) => mixed(seed, write.ordinal) as int,
        }
    }

    fn key_of(self, write: &PendingWrite) -> (key: u128)
        ensures
            key == self.of(write@),
    {
        match self {
            SortKey::Offset => {
                write.offset as u128 * 0x1_0000_0000_0000_0000u128 + write.ordinal as u128
            },
            SortKey::Scrambled(seed) => mix(seed, write.ordinal) as u128,
        }
    }
}

/// `write` put into a sorted list, after every write whose key is not larger.
pub open spec fn insert_sorted(
    key: SortKey,
    sorted: Seq<PendingView>,
    write: PendingView,
) -> Seq<PendingView>
    decreases sorted.len(),
{
    if sorted.len() == 0 || key.of(sorted.last()) <= key.of(write) {
        sorted.push(write)
    } else {
        insert_sorted(key, sorted.drop_last(), write).push(sorted.last())
    }
}

/// The writes in ascending order of their keys, equal keys in their old order.
pub open spec fn sorted_writes(key: SortKey, writes: Seq<PendingView>) -> Seq<PendingView>
    decreases writes.len(),
{
    if writes.len() == 0 {
        writes
    } else {
        insert_sorted(key, sorted_writes(key, writes.drop_last()), writes.last())
    }
}

/// The writes sorted within consecutive windows of `window` writes.
pub open spec fn sorted_windows(key: SortKey, writes: Seq<PendingView>, window: int) -> Seq<
    PendingView,
>
    decreases writes.len(),
{
    if window <= 0 || writes.len() <= window {
        sorted_writes(key, writes)
    } else {
        sorted_writes(key, writes.take(window)) + sorted_windows(
            key,
            writes.skip(window),
            window,
        )
    }
}

/// The order in which a flush makes the writes durable.
pub open spec fn flush_order(policy: Option<ReorderPolicy>, writes: Seq<PendingView>) -> Seq<
    PendingView,
> {
    match policy {
        None => writes,
        Some(ReorderPolicy::ByOffset) => sorted_writes(SortKey::Offset, writes),
        Some(ReorderPolicy::Reverse) => writes.reverse(),
        Some(ReorderPolicy::Seeded { window, seed }) => sorted_windows(
            SortKey::Scrambled(seed),
            writes,
            if window == 0 {
                1
            } else {
                window as int
            },
        ),
    }
}

pub open spec fn min_int(a: int, b: int) -> int {
    if a <= b {
        a
    } else {
        b
    }
}

/// An injected fault of the given kind at the given event.
pub open spec fn injected(sequence: u64, kind: FaultKind) -> Result<(), DeviceError> {
    Err(DeviceError::Injected { at: InjectionSite::Event(sequence), kind })
}

impl DiskView {
    /// The invariant of a disk's state.
    pub open spec fn valid(self) -> bool {
        &&& self.script.usable()
        &&& self.volatile.len() == self.durable.len()
        &&& self.durable.len() <= usize::MAX
        &&& self.hits.len() == self.script.rules.len()
        &&& self.hits.len() <= usize::MAX
        &&& self.trace.len() <= usize::MAX
        &&& forall|i: int|
            0 <= i < self.pending.len() ==> (#[trigger] self.pending[i]).offset
                + self.pending[i].data.len() <= self.durable.len()
        &&& forall|i: int|
            0 <= i < self.pending.len() ==> (#[trigger] self.pending[i]).ordinal
                < self.trace.len()
    }

    pub open spec fn capacity(self) -> nat {
        self.durable.len()
    }

    /// The number of the next event.
    pub open spec fn sequence(self) -> u64 {
        self.trace.len() as u64
    }

    /// The time at which the next event, of the given kind, ends.
    pub open spec fn time_after(self, kind: DeviceEventKind) -> u64 {
        saturate(self.virtual_time + self.script.latency_of(kind, self.sequence()))
    }

    /// The rule that the next event meets.
    pub open spec fn rule_for(self, kind: DeviceEventKind, offset: u64, len: nat) -> Option<nat> {
        first_rule(self.script.rules, kind, self.sequence(), offset, len, 0)
    }

    /// The rule that a transfer meets: none where it is out of bounds or bad media.
    pub open spec fn transfer_rule(self, kind: DeviceEventKind, offset: u64, len: nat) -> Option<
        nat,
    > {
        if !in_bounds(offset, len, self.capacity()) || self.script.hits_bad_range(offset, len) {
            None
        } else {
            self.rule_for(kind, offset, len)
        }
    }

    pub open spec fn effect_of(self, rule: Option<nat>) -> Option<DeviceEffect> {
        match rule {
            Some(i) => Some(self.script.rules[i as int].effect),
            None => None,
        }
    }

    pub open spec fn out_of_bounds(self, offset: u64, len: nat) -> Result<(), DeviceError> {
        Err(
            DeviceError::OutOfBounds {
                offset,
                len: len as usize,
                capacity: self.capacity() as u64,
            },
        )
    }

    /// What is left after everything volatile is lost.
    pub open spec fn after_crash(self) -> DiskView {
        DiskView { volatile: self.durable, pending: Seq::empty(), ..self }
    }

    /// The clock, the trace and the rule hits after the next event.
    pub open spec fn logged(
        self,
        start: DiskView,
        kind: DeviceEventKind,
        offset: u64,
        len: nat,
        outcome: DeviceEventOutcome,
        rule: Option<nat>,
    ) -> DiskView {
        DiskView {
            virtual_time: start.time_after(kind),
            trace: start.trace.push(
                DeviceEvent {
                    sequence: start.sequence(),
                    kind,
                    offset,
                    len: len as usize,
                    virtual_time: start.time_after(kind),
                    outcome,
                    script_rule: match rule {
                        Some(i) => Some(i as u32),
                        None => None,
                    },
                    script_effect: start.effect_of(rule),
                },
            ),
            hits: match rule {
                Some(i) => start.hits.update((i as u32) as int, true),
                None => start.hits,
            },
            ..self
        }
    }

    /// What a read returns.
    pub open spec fn read_result(self, offset: u64, len: nat) -> Result<(), DeviceError> {
        if !in_bounds(offset, len, self.capacity()) {
            self.out_of_bounds(offset, len)
        } else if self.script.hits_bad_range(offset, len) {
            injected(self.sequence(), FaultKind::MediaError)
        } else {
            match self.effect_of(self.rule_for(DeviceEventKind::Read, offset, len)) {
                Some(DeviceEffect::Timeout) => injected(self.sequence(), FaultKind::Timeout),
                Some(_) => injected(self.sequence(), FaultKind::ReadFailed),
                None => Ok(()),
            }
        }
    }

    /// The state after a read.
    pub open spec fn after_read(self, offset: u64, len: nat) -> DiskView {
        self.logged(
            self,
            DeviceEventKind::Read,
            offset,
            len,
            if self.read_result(offset, len) is Ok {
                DeviceEventOutcome::Completed
            } else {
                DeviceEventOutcome::Failed
            },
            self.transfer_rule(DeviceEventKind::Read, offset, len),
        )
    }

    /// What a write returns.
    pub open spec fn write_result(self, offset: u64, len: nat) -> Result<(), DeviceError> {
        let rule = self.rule_for(DeviceEventKind::Write, offset, len);
        if !in_bounds(offset, len, self.capacity()) {
            self.out_of_bounds(offset, len)
        } else if self.script.hits_bad_range(offset, len) {
            injected(self.sequence(), FaultKind::MediaError)
        } else {
            match self.effect_of(rule) {
                None | Some(DeviceEffect::Drop) | Some(DeviceEffect::Tear { .. }) => Ok(()),
                Some(DeviceEffect::Fail) => injected(self.sequence(), FaultKind::Failed),
                Some(DeviceEffect::Timeout) => injected(self.sequence(), FaultKind::Timeout),
                Some(DeviceEffect::Short { bytes }) => if bytes >= len {
                    Err(
                        DeviceError::InvalidConfig(
                            "short write must be shorter than the requested length",
                        ),
                    )
                } else {
                    injected(self.sequence(), FaultKind::ShortIo)
                },
                Some(DeviceEffect::TearAndCrashAfter { .. })
                | Some(DeviceEffect::CrashBefore)
                | Some(DeviceEffect::CrashAfter) => injected(self.sequence(), FaultKind::Crashed),
            }
        }
    }

    /// How a write shows in the trace.
    pub open spec fn write_outcome(self, offset: u64, len: nat) -> DeviceEventOutcome {
        match self.effect_of(self.transfer_rule(DeviceEventKind::Write, offset, len)) {
            None => if self.write_result(offset, len) is Ok {
                DeviceEventOutcome::Completed
            } else {
                DeviceEventOutcome::Failed
            },
            Some(DeviceEffect::Fail) | Some(DeviceEffect::Timeout) => DeviceEventOutcome::Failed,
            Some(DeviceEffect::Drop) => DeviceEventOutcome::Dropped,
            Some(DeviceEffect::Short { bytes }) => if bytes >= len {
                DeviceEventOutcome::Failed
            } else {
                DeviceEventOutcome::Short { bytes }
            },
            Some(DeviceEffect::Tear { durable_prefix }) => DeviceEventOutcome::Torn {
                durable_prefix: whole_units(
                    self.script.atomic_unit as int,
                    offset as int,
                    len as int,
                    min_int(durable_prefix as int, len as int),
                ) as usize,
            },
            Some(DeviceEffect::TearAndCrashAfter { .. })
            | Some(DeviceEffect::CrashBefore)
            | Some(DeviceEffect::CrashAfter) => DeviceEventOutcome::Crashed,
        }
    }

    /// The state in which `data` was taken into the cache.
    pub open spec fn cached(self, offset: u64, data: Seq<u8>, tear: Option<usize>) -> DiskView {
        DiskView {
            volatile: splice(self.volatile, offset as int, data),
            pending: self.pending.push(
                PendingView { ordinal: self.sequence(), offset, data, tear_prefix: tear },
            ),
            ..self
        }
    }

    /// The bytes after a write: what is durable, what is readable, what is pending.
    pub open spec fn write_transfer(self, offset: u64, data: Seq<u8>) -> DiskView {
        let transferred = in_bounds(offset, data.len(), self.capacity())
            && !self.script.hits_bad_range(offset, data.len());
        if !transferred {
            self
        } else {
            match self.effect_of(self.rule_for(DeviceEventKind::Write, offset, data.len())) {
                None => self.cached(offset, data, None),
                Some(DeviceEffect::Fail)
                | Some(DeviceEffect::Timeout)
                | Some(DeviceEffect::Drop) => self,
                Some(DeviceEffect::Short { bytes }) => if bytes >= data.len() {
                    self
                } else {
                    self.cached(offset, data.take(bytes as int), None)
                },
                Some(DeviceEffect::Tear { durable_prefix }) => self.cached(
                    offset,
                    data,
                    Some(durable_prefix),
                ),
                Some(DeviceEffect::TearAndCrashAfter { durable_prefix }) => DiskView {
                    durable: persisted(
                        self.script.atomic_unit as int,
                        self.durable,
                        PendingView {
                            ordinal: self.sequence(),
                            offset,
                            data,
                            tear_prefix: Some(durable_prefix),
                        },
                    ),
                    ..self
                }.after_crash(),
                Some(DeviceEffect::CrashBefore)
                | Some(DeviceEffect::CrashAfter) => self.after_crash(),
            }
        }
    }

    /// The state after a write.
    pub open spec fn after_write(self, offset: u64, data: Seq<u8>) -> DiskView {
        self.write_transfer(offset, data).logged(
            self,
            DeviceEventKind::Write,
            offset,
            data.len(),
            self.write_outcome(offset, data.len()),
            self.transfer_rule(DeviceEventKind::Write, offset, data.len()),
        )
    }

    /// How many pending writes a flush of the given kind makes durable.
    pub open spec fn flush_limit(self, kind: DeviceEventKind) -> int {
        match self.script.flush_data_writes {
            Some(writes) => if kind is FlushData {
                min_int(writes as int, self.pending.len() as int)
            } else {
                self.pending.len() as int
            },
            None => self.pending.len() as int,
        }
    }

    /// The state in which the first `limit` pending writes, in flush order, are durable.
    pub open spec fn flushed(self, limit: int) -> DiskView {
        let order = flush_order(self.script.reorder, self.pending);
        DiskView {
            durable: persisted_all(
                self.script.atomic_unit as int,
                self.durable,
                order.take(limit),
            ),
            pending: order.skip(limit),
            ..self
        }
    }

    /// What a flush returns.
    pub open spec fn flush_result(self, kind: DeviceEventKind) -> Result<(), DeviceError> {
        match self.effect_of(self.rule_for(kind, 0, 0)) {
            Some(DeviceEffect::Fail) => injected(self.sequence(), FaultKind::Failed),
            Some(DeviceEffect::Timeout) => injected(self.sequence(), FaultKind::Timeout),
            Some(DeviceEffect::CrashBefore)
            | Some(DeviceEffect::CrashAfter) => injected(self.sequence(), FaultKind::Crashed),
            _ => Ok(()),
        }
    }

    /// How a flush shows in the trace.
    pub open spec fn flush_outcome(self, kind: DeviceEventKind) -> DeviceEventOutcome {
        match self.effect_of(self.rule_for(kind, 0, 0)) {
            Some(DeviceEffect::Fail) | Some(DeviceEffect::Timeout) => DeviceEventOutcome::Failed,
            Some(DeviceEffect::Drop) => DeviceEventOutcome::Dropped,
            Some(DeviceEffect::CrashBefore)
            | Some(DeviceEffect::CrashAfter) => DeviceEventOutcome::Crashed,
            _ => DeviceEventOutcome::Completed,
        }
    }

    /// The bytes after a flush.
    pub open spec fn flush_transfer(self, kind: DeviceEventKind) -> DiskView {
        match self.effect_of(self.rule_for(kind, 0, 0)) {
            Some(DeviceEffect::Fail)
            | Some(DeviceEffect::Timeout)
            | Some(DeviceEffect::Drop) => self,
            Some(DeviceEffect::CrashBefore) => self.after_crash(),
            Some(DeviceEffect::CrashAfter) => self.flushed(self.flush_limit(kind)).after_crash(),
            _ => self.flushed(self.flush_limit(kind)),
        }
    }

    /// The state after a flush.
    pub open spec fn after_flush(self, kind: DeviceEventKind) -> DiskView {
        self.flush_transfer(kind).logged(
            self,
            kind,
            0,
            0,
            self.flush_outcome(kind),
            self.rule_for(kind, 0, 0),
        )
    }

    /// The state after the power went away and came back.
    pub open spec fn after_power_loss(self) -> DiskView {
        self.after_crash().logged(
            self,
            DeviceEventKind::Crash,
            0,
            0,
            DeviceEventOutcome::Completed,
            None,
        )
    }

    /// No scripted fault can strike.
    pub open spec fn fault_free(self) -> bool {
        self.script.rules.len() == 0 && self.script.bad_ranges.len() == 0
    }
}


proof fn lemma_whole_units(unit: int, offset: int, len: int, end: int, cut: int)
    requires
        0 <= cut <= end,
        is_cut(unit, offset, len, cut),
        forall|c: int| cut < c <= end ==> !#[trigger] is_cut(unit, offset, len, c),
    ensures
        whole_units(unit, offset, len, end) == cut,
    decreases end,
{
    if cut < end {
        assert(!is_cut(unit, offset, len, end));
        lemma_whole_units(unit, offset, len, end - 1, cut);
    } else if end > 0 {
    }
}

proof fn lemma_whole_units_bound(unit: int, offset: int, len: int, end: int)
    requires
        end >= 0,
    ensures
        0 <= whole_units(unit, offset, len, end) <= end,
    decreases end,
{
    if end > 0 && !is_cut(unit, offset, len, end) {
        lemma_whole_units_bound(unit, offset, len, end - 1);
    }
}

proof fn lemma_inside_unit(unit: int, at: int, step: int)
    requires
        unit > 0,
        at >= 0,
        0 < step < unit - at % unit,
    ensures
        (at + step) % unit != 0,
{
    vstd::arithmetic::div_mod::lemma_fundamental_div_mod(at, unit);
    let q = at / unit;
    let r = at % unit;
    assert(at + step == q * unit + (r + step)) by (nonlinear_arith)
        requires
            at == unit * q + r,
    ;
    vstd::arithmetic::div_mod::lemma_fundamental_div_mod_converse(at + step, unit, q, r + step);
}

proof fn lemma_unit_end(unit: int, at: int)
    requires
        unit > 0,
        at >= 0,
    ensures
        (at + (unit - at % unit)) % unit == 0,
{
    vstd::arithmetic::div_mod::lemma_fundamental_div_mod(at, unit);
    let q = at / unit;
    assert(at + (unit - at % unit) == (q + 1) * unit) by (nonlinear_arith)
        requires
            at == unit * q + at % unit,
    ;
    vstd::arithmetic::div_mod::lemma_mod_multiples_basic(q + 1, unit);
}

/// The longest part of a write, of at most `requested` bytes, that breaks no
/// atomic unit.
fn atomic_prefix(unit: usize, offset: usize, len: usize, requested: usize) -> (cut: usize)
    requires
        unit > 0,
        offset + len <= usize::MAX,
    ensures
        cut == whole_units(
            unit as int,
            offset as int,
            len as int,
            min_int(requested as int, len as int),
        ),
        cut <= len,
{
    let end: usize = if requested < len {
        requested
    } else {
        len
    };
    let mut cursor: usize = 0;
    while cursor < end
        invariant_except_break
            cursor <= end,
        invariant
            unit > 0,
            offset + len <= usize::MAX,
            cursor <= end <= len,
            is_cut(unit as int, offset as int, len as int, cursor as int),
        ensures
            forall|c: int|
                cursor < c <= end ==> !#[trigger] is_cut(
                    unit as int,
                    offset as int,
                    len as int,
                    c,
                ),
        decreases end - cursor,
    {
        let absolute: usize = offset + cursor;
        let remaining: usize = unit - absolute % unit;
        let segment: usize = if remaining < len - cursor {
            remaining
        } else {
            len - cursor
        };
        if segment > end - cursor {
            proof {
                assert forall|c: int| cursor < c <= end implies !#[trigger] is_cut(
                    unit as int,
                    offset as int,
                    len as int,
                    c,
                ) by {
                    lemma_inside_unit(unit as int, absolute as int, c - cursor);
                }
            }
            break;
        }
        proof {
            lemma_unit_end(unit as int, absolute as int);
        }
        cursor = cursor + segment;
    }
    proof {
        lemma_whole_units(
            unit as int,
            offset as int,
            len as int,
            min_int(requested as int, len as int),
            cursor as int,
        );
    }
    cursor
}

proof fn lemma_insert_sorted_at(
    key: SortKey,
    sorted: Seq<PendingView>,
    write: PendingView,
    at: int,
)
    requires
        0 <= at <= sorted.len(),
        at == 0 || key.of(sorted[at - 1]) <= key.of(write),
        forall|i: int| at <= i < sorted.len() ==> key.of(#[trigger] sorted[i]) > key.of(write),
    ensures
        insert_sorted(key, sorted, write) == sorted.insert(at, write),
    decreases sorted.len(),
{
    if at == sorted.len() {
        assert(sorted.insert(at, write) =~= sorted.push(write));
    } else {
        let shorter = sorted.drop_last();
        assert forall|i: int| at <= i < shorter.len() implies key.of(#[trigger] shorter[i])
            > key.of(write) by {
            assert(shorter[i] == sorted[i]);
        }
        lemma_insert_sorted_at(key, shorter, write, at);
        assert(sorted.insert(at, write) =~= shorter.insert(at, write).push(sorted.last()));
    }
}

/// Sorts the writes, leaving equal keys in their old order.
fn sort_writes(key: SortKey, writes: Vec<PendingWrite>) -> (sorted: Vec<PendingWrite>)
    ensures
        views(sorted@) == sorted_writes(key, views(writes@)),
        sorted@.len() == writes@.len(),
{
    let ghost all = views(writes@);
    let mut source = writes;
    let n: usize = source.len();
    let mut sorted: Vec<PendingWrite> = Vec::new();
    let mut done: usize = 0;
    proof {
        assert(all.take(0) =~= views(sorted@));
        assert(all.skip(0) =~= views(source@));
    }
    while source.len() > 0
        invariant
            done + source@.len() == n,
            n == all.len(),
            sorted@.len() == done,
            views(source@) == all.skip(done as int),
            views(sorted@) == sorted_writes(key, all.take(done as int)),
        decreases source@.len(),
    {
        let ghost before = views(sorted@);
        let ghost rest = views(source@);
        let write = source.remove(0);
        proof {
            assert(rest[0] == write@);
            assert(all[done as int] == write@);
            assert(views(source@) =~= rest.skip(1));
            assert(rest.skip(1) =~= all.skip(done + 1));
            assert(all.take(done + 1).drop_last() =~= all.take(done as int));
        }
        let wanted: u128 = key.key_of(&write);
        let mut at: usize = sorted.len();
        while at > 0 && key.key_of(&sorted[at - 1]) > wanted
            invariant
                at <= sorted@.len(),
                before == views(sorted@),
                wanted == key.of(write@),
                forall|i: int|
                    at <= i < sorted@.len() ==> key.of(#[trigger] before[i]) > key.of(write@),
            decreases at,
        {
            at = at - 1;
        }
        proof {
            lemma_insert_sorted_at(key, before, write@, at as int);
        }
        sorted.insert(at, write);
        done = done + 1;
        proof {
            assert(views(sorted@) =~= before.insert(at as int, write@));
        }
    }
    proof {
        assert(all.take(done as int) =~= all);
    }
    sorted
}

/// The first `n` writes of a list, and the rest.
fn split_writes(writes: Vec<PendingWrite>, n: usize) -> (parts: (
    Vec<PendingWrite>,
    Vec<PendingWrite>,
))
    requires
        n <= writes@.len(),
    ensures
        views(parts.0@) == views(writes@).take(n as int),
        views(parts.1@) == views(writes@).skip(n as int),
        parts.0@.len() == n,
        parts.1@.len() == writes@.len() - n,
{
    let ghost all = writes@;
    let mut front = writes;
    let back = front.split_off(n);
    proof {
        assert(views(front@) =~= views(all).take(n as int));
        assert(views(back@) =~= views(all).skip(n as int));
    }
    (front, back)
}

/// Puts pending writes into the order in which a flush makes them durable.
fn order_writes(policy: Option<ReorderPolicy>, writes: Vec<PendingWrite>) -> (ordered: Vec<
    PendingWrite,
>)
    ensures
        views(ordered@) == flush_order(policy, views(writes@)),
        ordered@.len() == writes@.len(),
{
    match policy {
        None => writes,
        Some(ReorderPolicy::ByOffset) => sort_writes(SortKey::Offset, writes),
        Some(ReorderPolicy::Reverse) => {
            let ghost all = views(writes@);
            let mut source = writes;
            let n: usize = source.len();
            let mut reversed: Vec<PendingWrite> = Vec::new();
            while source.len() > 0
                invariant
                    n == all.len(),
                    source@.len() + reversed@.len() == n,
                    views(source@) == all.take(source@.len() as int),
                    views(reversed@) == all.reverse().take(reversed@.len() as int),
                decreases source@.len(),
            {
                let ghost left = views(source@);
                let ghost moved = views(reversed@);
                let last = source.pop();
                if let Some(write) = last {
                    proof {
                        assert(left.last() == write@);
                    }
                    reversed.push(write);
                    proof {
                        assert(views(source@) =~= all.take(source@.len() as int));
                        assert(views(reversed@) =~= all.reverse().take(reversed@.len() as int));
                    }
                }
            }
            proof {
                assert(all.reverse().take(n as int) =~= all.reverse());
            }
            reversed
        },
        Some(ReorderPolicy::Seeded { window, seed }) => {
            let window: usize = if window == 0 {
                1
            } else {
                window as usize
            };
            let key = SortKey::Scrambled(seed);
            let ghost all = views(writes@);
            let n: usize = writes.len();
            let mut rest = writes;
            let mut ordered: Vec<PendingWrite> = Vec::new();
            proof {
                assert(Seq::<PendingView>::empty() + sorted_windows(key, all, window as int)
                    =~= sorted_windows(key, all, window as int));
                assert(views(ordered@) =~= Seq::<PendingView>::empty());
            }
            while rest.len() > window
                invariant
                    window > 0,
                    n == all.len(),
                    ordered@.len() + rest@.len() == n,
                    sorted_windows(key, all, window as int) == views(ordered@) + sorted_windows(
                        key,
                        views(rest@),
                        window as int,
                    ),
                decreases rest@.len(),
            {
                let ghost before = views(ordered@);
                let ghost left = views(rest@);
                let (front, back) = split_writes(rest, window);
                let mut sorted = sort_writes(key, front);
                let ghost part = views(sorted@);
                let ghost behind = ordered@;
                let ghost added = sorted@;
                ordered.append(&mut sorted);
                rest = back;
                proof {
                    assert(views(behind + added) =~= before + part);
                    assert((before + part) + sorted_windows(key, views(rest@), window as int)
                        =~= before + (part + sorted_windows(key, views(rest@), window as int)));
                }
            }
            let mut sorted = sort_writes(key, rest);
            let ghost before = views(ordered@);
            let ghost part = views(sorted@);
            let ghost behind = ordered@;
            let ghost added = sorted@;
            ordered.append(&mut sorted);
            proof {
                assert(views(behind + added) =~= before + part);
            }
            ordered
        },
    }
}

proof fn lemma_flush_order_fits(policy: Option<ReorderPolicy>, writes: Seq<PendingView>)
    ensures
        flush_order(policy, writes).to_multiset() == writes.to_multiset(),
        flush_order(policy, writes).len() == writes.len(),
{
    match policy {
        None => {},
        Some(ReorderPolicy::ByOffset) => lemma_sorted_permutes(SortKey::Offset, writes),
        Some(ReorderPolicy::Reverse) => {
            vstd::seq_lib::to_multiset_len(writes);
            lemma_reverse_permutes(writes);
        },
        Some(ReorderPolicy::Seeded { window, seed }) => lemma_windows_permute(
            SortKey::Scrambled(seed),
            writes,
            if window == 0 {
                1
            } else {
                window as int
            },
        ),
    }
}

proof fn lemma_reverse_permutes(writes: Seq<PendingView>)
    ensures
        writes.reverse().to_multiset() == writes.to_multiset(),
    decreases writes.len(),
{
    broadcast use vstd::seq_lib::group_to_multiset_ensures;

    if writes.len() > 0 {
        let last = writes.last();
        let rest = writes.drop_last();
        lemma_reverse_permutes(rest);
        assert(writes.reverse() =~= seq![last] + rest.reverse());
        vstd::seq_lib::lemma_multiset_commutative(seq![last], rest.reverse());
        vstd::seq_lib::lemma_multiset_commutative(rest, seq![last]);
        assert(writes =~= rest + seq![last]);
    } else {
        assert(writes.reverse() =~= writes);
    }
}

proof fn lemma_insert_permutes(key: SortKey, sorted: Seq<PendingView>, write: PendingView)
    ensures
        insert_sorted(key, sorted, write).to_multiset() == sorted.to_multiset().insert(write),
        insert_sorted(key, sorted, write).len() == sorted.len() + 1,
    decreases sorted.len(),
{
    broadcast use vstd::seq_lib::group_to_multiset_ensures;

    if sorted.len() == 0 || key.of(sorted.last()) <= key.of(write) {
    } else {
        lemma_insert_permutes(key, sorted.drop_last(), write);
        assert(sorted =~= sorted.drop_last().push(sorted.last()));
        assert(sorted.to_multiset() =~= sorted.drop_last().to_multiset().insert(sorted.last()));
        assert(insert_sorted(key, sorted, write).to_multiset() =~= sorted.to_multiset().insert(
            write,
        ));
    }
}

/// Sorting keeps every write.
pub proof fn lemma_sorted_permutes(key: SortKey, writes: Seq<PendingView>)
    ensures
        sorted_writes(key, writes).to_multiset() == writes.to_multiset(),
        sorted_writes(key, writes).len() == writes.len(),
    decreases writes.len(),
{
    broadcast use vstd::seq_lib::group_to_multiset_ensures;

    if writes.len() > 0 {
        lemma_sorted_permutes(key, writes.drop_last());
        lemma_insert_permutes(key, sorted_writes(key, writes.drop_last()), writes.last());
        assert(writes =~= writes.drop_last().push(writes.last()));
    }
}

proof fn lemma_windows_permute(key: SortKey, writes: Seq<PendingView>, window: int)
    requires
        window > 0,
    ensures
        sorted_windows(key, writes, window).to_multiset() == writes.to_multiset(),
        sorted_windows(key, writes, window).len() == writes.len(),
    decreases writes.len(),
{
    if writes.len() <= window {
        lemma_sorted_permutes(key, writes);
    } else {
        let front = writes.take(window);
        let back = writes.skip(window);
        lemma_sorted_permutes(key, front);
        lemma_windows_permute(key, back, window);
        vstd::seq_lib::lemma_multiset_commutative(
            sorted_writes(key, front),
            sorted_windows(key, back, window),
        );
        vstd::seq_lib::lemma_multiset_commutative(front, back);
        assert(writes =~= front + back);
    }
}

/// What every flush order keeps: the writes it makes durable are pending writes.
proof fn lemma_flush_order_member(
    policy: Option<ReorderPolicy>,
    writes: Seq<PendingView>,
    i: int,
) -> (j: int)
    requires
        0 <= i < flush_order(policy, writes).len(),
    ensures
        0 <= j < writes.len(),
        writes[j] == flush_order(policy, writes)[i],
{
    broadcast use vstd::seq_lib::group_to_multiset_ensures;

    let order = flush_order(policy, writes);
    lemma_flush_order_fits(policy, writes);
    assert(order.contains(order[i]));
    assert(order.to_multiset().count(order[i]) > 0);
    assert(writes.contains(order[i]));
    writes.index_of(order[i])
}

proof fn lemma_durable_len(unit: int, write: PendingView)
    ensures
        0 <= durable_len(unit, write) <= write.data.len(),
{
    let len = write.data.len() as int;
    let end = match write.tear_prefix {
        Some(prefix) => if prefix < len {
            prefix as int
        } else {
            len
        },
        None => len,
    };
    lemma_whole_units_bound(unit, write.offset as int, len, end);
}

impl SimDisk {
    /// The disk's invariant.
    pub open spec fn inv(&self) -> bool {
        self@.valid()
    }

    /// A disk of `len` zero bytes on which nothing fails.
    pub fn new(len: usize) -> (disk: Self)
        ensures
            disk.inv(),
            disk@ == (DiskView {
                durable: zeros(len as nat),
                volatile: zeros(len as nat),
                pending: Seq::empty(),
                script: plain_script(),
                virtual_time: 0,
                trace: Seq::empty(),
                hits: Seq::empty(),
            }),
            disk@.fault_free(),
    {
        let script = DeviceScript::default();
        let durable = zero_bytes(len);
        let volatile = zero_bytes(len);
        let disk = SimDisk {
            durable,
            volatile,
            pending: Vec::new(),
            script,
            virtual_time: 0,
            trace: Vec::new(),
            rule_hits: Vec::new(),
        };
        proof {
            assert(disk@.pending =~= Seq::empty());
            assert(disk@.trace =~= Seq::empty());
            assert(disk@.hits =~= Seq::empty());
        }
        disk
    }

    /// A disk of `len` zero bytes that follows `script`.
    pub fn from_script(len: usize, script: DeviceScript) -> (r: Result<Self, DeviceError>)
        ensures
            match script@.problem(len as u64) {
                Some(message) => r == Err::<Self, DeviceError>(
                    DeviceError::InvalidConfig(message),
                ),
                None => r is Ok && r->Ok_0.inv() && r->Ok_0@ == (DiskView {
                    durable: zeros(len as nat),
                    volatile: zeros(len as nat),
                    pending: Seq::empty(),
                    script: script@,
                    virtual_time: 0,
                    trace: Seq::empty(),
                    hits: Seq::new(script@.rules.len(), |i: int| false),
                }),
            },
    {
        match script.validate(len as u64) {
            Ok(()) => {},
            Err(error) => {
                return Err(error);
            },
        }
        let rule_count: usize = script.rules.len();
        let durable = zero_bytes(len);
        let volatile = zero_bytes(len);
        let rule_hits: Vec<bool> = vec![false; rule_count];
        let disk = SimDisk {
            durable,
            volatile,
            pending: Vec::new(),
            script,
            virtual_time: 0,
            trace: Vec::new(),
            rule_hits,
        };
        proof {
            lemma_accepted_is_usable(disk.script@, len as u64);
            assert(disk@.pending =~= Seq::empty());
            assert(disk@.trace =~= Seq::empty());
            assert(disk@.hits =~= Seq::new(disk.script@.rules.len(), |i: int| false));
        }
        Ok(disk)
    }

    pub fn script(&self) -> (script: &DeviceScript)
        ensures
            script@ == self@.script,
    {
        &self.script
    }

    pub fn durable_bytes(&self) -> (bytes: &[u8])
        ensures
            bytes@ == self@.durable,
    {
        self.durable.as_slice()
    }

    pub fn pending_writes(&self) -> (n: usize)
        ensures
            n == self@.pending.len(),
    {
        self.pending.len()
    }

    pub fn virtual_time(&self) -> (ticks: u64)
        ensures
            ticks == self@.virtual_time,
    {
        self.virtual_time
    }

    pub fn trace(&self) -> (trace: Vec<DeviceEvent>)
        ensures
            trace@ == self@.trace,
    {
        let trace = self.trace.clone();
        proof {
            assert(trace@ =~= self.trace@);
        }
        trace
    }

    /// For each rule of the script, whether it has struck.
    pub fn script_rule_hits(&self) -> (hits: &Vec<bool>)
        ensures
            hits@ == self@.hits,
    {
        &self.rule_hits
    }

    pub fn add_bad_range(&mut self, offset: u64, len: usize) -> (r: Result<(), DeviceError>)
        requires
            old(self).inv(),
        ensures
            final(self).inv(),
            r == if in_bounds(offset, len as nat, old(self)@.capacity()) {
                Ok::<(), DeviceError>(())
            } else {
                old(self)@.out_of_bounds(offset, len as nat)
            },
            final(self)@ == if r is Ok {
                DiskView {
                    script: ScriptView {
                        bad_ranges: old(self)@.script.bad_ranges.push(
                            ByteRange { offset, len: len as u64 },
                        ),
                        ..old(self)@.script
                    },
                    ..old(self)@
                }
            } else {
                old(self)@
            },
    {
        match self.bounds(offset, len) {
            Ok(_) => {},
            Err(error) => {
                return Err(error);
            },
        }
        self.script.bad_ranges.push(ByteRange { offset, len: len as u64 });
        Ok(())
    }

    /// Flips bits in a range of the durable bytes.
    pub fn corrupt_durable_range(&mut self, offset: u64, len: usize) -> (r: Result<
        (),
        DeviceError,
    >)
        requires
            old(self).inv(),
        ensures
            final(self).inv(),
            r == if in_bounds(offset, len as nat, old(self)@.capacity()) {
                Ok::<(), DeviceError>(())
            } else {
                old(self)@.out_of_bounds(offset, len as nat)
            },
            final(self)@ == if r is Ok {
                DiskView {
                    durable: Seq::new(
                        old(self)@.durable.len(),
                        |i: int|
                            if offset <= i < offset + len {
                                old(self)@.durable[i] ^ 0xa5
                            } else {
                                old(self)@.durable[i]
                            },
                    ),
                    ..old(self)@
                }
            } else {
                old(self)@
            },
    {
        let start = match self.bounds(offset, len) {
            Ok(start) => start,
            Err(error) => {
                return Err(error);
            },
        };
        let ghost before = self@;
        let total: usize = self.durable.len();
        let mut i: usize = 0;
        while i < len
            invariant
                i <= len,
                start == offset,
                start + len <= total,
                total == before.durable.len(),
                self@ == (DiskView { durable: self.durable@, ..before }),
                self.durable@.len() == total,
                forall|j: int|
                    0 <= j < total ==> self.durable@[j] == if offset <= j < offset + i {
                        before.durable[j] ^ 0xa5
                    } else {
                        before.durable[j]
                    },
            decreases len - i,
        {
            let byte: u8 = self.durable[start + i] ^ 0xa5;
            self.durable.set(start + i, byte);
            i = i + 1;
        }
        proof {
            assert(self.durable@ =~= Seq::new(
                before.durable.len(),
                |i: int|
                    if offset <= i < offset + len {
                        before.durable[i] ^ 0xa5
                    } else {
                        before.durable[i]
                    },
            ));
        }
        Ok(())
    }

    /// Loses everything that is not durable.
    pub fn power_loss(&mut self)
        requires
            old(self).inv(),
        ensures
            final(self).inv(),
            final(self)@ == old(self)@.after_power_loss(),
            final(self)@.durable == old(self)@.durable,
            final(self)@.volatile == old(self)@.durable,
            final(self)@.pending.len() == 0,
    {
        let ghost before = self@;
        let (sequence, virtual_time) = self.begin_event(DeviceEventKind::Crash);
        self.discard_volatile();
        self.record_event(
            DeviceEvent {
                sequence,
                kind: DeviceEventKind::Crash,
                offset: 0,
                len: 0,
                virtual_time,
                outcome: DeviceEventOutcome::Completed,
                script_rule: None,
                script_effect: None,
            },
        );
        proof {
            assert(self@ =~= before.after_power_loss());
        }
    }

    fn bounds(&self, offset: u64, len: usize) -> (r: Result<usize, DeviceError>)
        requires
            self.inv(),
        ensures
            match r {
                Ok(start) => in_bounds(offset, len as nat, self@.capacity()) && start == offset,
                Err(error) => !in_bounds(offset, len as nat, self@.capacity())
                    && self@.out_of_bounds(offset, len as nat) == Err::<(), DeviceError>(error),
            },
    {
        let capacity: u64 = self.durable.len() as u64;
        match offset.checked_add(len as u64) {
            Some(end) => {
                if end > capacity {
                    Err(DeviceError::OutOfBounds { offset, len, capacity })
                } else {
                    Ok(offset as usize)
                }
            },
            None => Err(DeviceError::OutOfBounds { offset, len, capacity }),
        }
    }

    /// Numbers the next event and lets the time it takes pass.
    fn begin_event(&mut self, kind: DeviceEventKind) -> (r: (u64, u64))
        requires
            old(self).inv(),
        ensures
            r.0 == old(self)@.sequence(),
            r.1 == old(self)@.time_after(kind),
            final(self)@ == (DiskView { virtual_time: r.1, ..old(self)@ }),
    {
        let sequence: u64 = self.trace.len() as u64;
        let ticks: u64 = self.latency(kind, sequence);
        self.virtual_time = self.virtual_time.saturating_add(ticks);
        (sequence, self.virtual_time)
    }

    fn latency(&self, kind: DeviceEventKind, sequence: u64) -> (ticks: u64)
        ensures
            ticks == self@.script.latency_of(kind, sequence),
    {
        let base: u64 = match kind {
            DeviceEventKind::Read => self.script.latency.read_ticks,
            DeviceEventKind::Write => self.script.latency.write_ticks,
            DeviceEventKind::FlushData => self.script.latency.flush_data_ticks,
            DeviceEventKind::FlushAll => self.script.latency.flush_all_ticks,
            DeviceEventKind::Crash => 0,
        };
        let jitter: u64 = if self.script.latency.jitter_ticks == 0 {
            0
        } else {
            mix(self.script.latency.seed, sequence)
                % self.script.latency.jitter_ticks.saturating_add(1)
        };
        let mut extra: u64 = 0;
        let mut i: usize = 0;
        while i < self.script.latency_rules.len()
            invariant
                i <= self.script.latency_rules@.len(),
                extra == saturate(
                    extra_ticks(self.script.latency_rules@, kind, sequence, i as nat),
                ),
                extra_ticks(self.script.latency_rules@, kind, sequence, i as nat) >= 0,
            decreases self.script.latency_rules@.len() - i,
        {
            let rule = self.script.latency_rules[i];
            if rule.selector.kind == kind && rule.selector.occurrence.matches(sequence)
                && rule.selector.range.is_none() {
                extra = extra.saturating_add(rule.extra_ticks);
            }
            i = i + 1;
        }
        base.saturating_add(jitter).saturating_add(extra)
    }

    fn record_event(&mut self, event: DeviceEvent)
        ensures
            final(self)@ == (DiskView {
                trace: old(self)@.trace.push(event),
                ..old(self)@
            }),
            final(self)@.trace.len() <= usize::MAX,
    {
        self.trace.push(event);
        let _count: usize = self.trace.len();
    }

    /// The first rule that is about the event; marks it as having struck.
    fn scripted_effect(
        &mut self,
        kind: DeviceEventKind,
        sequence: u64,
        offset: u64,
        len: usize,
    ) -> (r: Option<(u32, DeviceEffect)>)
        requires
            old(self)@.hits.len() == old(self)@.script.rules.len(),
        ensures
            match first_rule(old(self)@.script.rules, kind, sequence, offset, len as nat, 0) {
                Some(i) => i < old(self)@.script.rules.len() && r == Some(
                    (i as u32, old(self)@.script.rules[i as int].effect),
                ) && old(self)@.script.rules[i as int].selector.kind == kind
                    && final(self)@ == (DiskView {
                    hits: old(self)@.hits.update((i as u32) as int, true),
                    ..old(self)@
                }),
                None => r is None && final(self)@ == old(self)@,
            },
    {
        let mut i: usize = 0;
        while i < self.script.rules.len()
            invariant
                i <= self.script.rules@.len(),
                self@ == old(self)@,
                self@.hits.len() == self@.script.rules.len(),
                first_rule(self@.script.rules, kind, sequence, offset, len as nat, 0)
                    == first_rule(
                    self@.script.rules,
                    kind,
                    sequence,
                    offset,
                    len as nat,
                    i as nat,
                ),
            decreases self.script.rules@.len() - i,
        {
            let rule = self.script.rules[i];
            let in_range = match rule.selector.range {
                Some(range) => range.intersects(offset, len),
                None => true,
            };
            if rule.selector.kind == kind && rule.selector.occurrence.matches(sequence)
                && in_range {
                let index: u32 = #[verifier::truncate]
                (i as u32);
                proof {
                    assert((i as u32) as usize <= i) by (bit_vector);
                }
                self.rule_hits.set(index as usize, true);
                return Some((index, rule.effect));
            }
            i = i + 1;
        }
        None
    }

    fn overlaps_bad_range(&self, offset: u64, len: usize) -> (hit: bool)
        ensures
            hit == self@.script.hits_bad_range(offset, len as nat),
    {
        let mut i: usize = 0;
        while i < self.script.bad_ranges.len()
            invariant
                i <= self.script.bad_ranges@.len(),
                forall|j: int|
                    0 <= j < i ==> !(#[trigger] self.script.bad_ranges@[j]).meets(
                        offset,
                        len as nat,
                    ),
            decreases self.script.bad_ranges@.len() - i,
        {
            if self.script.bad_ranges[i].intersects(offset, len) {
                proof {
                    assert(self@.script.bad_ranges[i as int].meets(offset, len as nat));
                }
                return true;
            }
            i = i + 1;
        }
        false
    }

    /// Makes the whole atomic units of one write durable.
    fn persist_write(&mut self, write: &PendingWrite)
        requires
            old(self)@.script.atomic_unit != 0,
            write@.offset + write@.data.len() <= old(self)@.durable.len(),
        ensures
            final(self)@ == (DiskView {
                durable: persisted(
                    old(self)@.script.atomic_unit as int,
                    old(self)@.durable,
                    write@,
                ),
                ..old(self)@
            }),
    {
        let len: usize = write.data.len();
        let total: usize = self.durable.len();
        let requested: usize = match write.tear_prefix {
            Some(prefix) => prefix,
            None => len,
        };
        let cut: usize = atomic_prefix(
            self.script.atomic_unit,
            write.offset as usize,
            len,
            requested,
        );
        let part = vstd::slice::slice_subrange(write.data.as_slice(), 0, cut);
        proof {
            assert(part@ =~= write.data@.take(cut as int));
            lemma_durable_len(self.script.atomic_unit as int, write@);
        }
        overwrite(&mut self.durable, write.offset as usize, part);
    }

    /// Makes at most `limit` pending writes durable.
    fn apply_pending(&mut self, limit: Option<usize>)
        requires
            old(self).inv(),
        ensures
            final(self).inv(),
            final(self)@.durable.len() == old(self)@.durable.len(),
            final(self)@ == old(self)@.flushed(
                match limit {
                    Some(n) => min_int(n as int, old(self)@.pending.len() as int),
                    None => old(self)@.pending.len() as int,
                },
            ),
    {
        let ghost before = self@;
        let mut writes: Vec<PendingWrite> = Vec::new();
        std::mem::swap(&mut writes, &mut self.pending);
        let ordered = order_writes(self.script.reorder, writes);
        let ghost order = views(ordered@);
        let n: usize = match limit {
            Some(n) => if n < ordered.len() {
                n
            } else {
                ordered.len()
            },
            None => ordered.len(),
        };
        let (now, later) = split_writes(ordered, n);
        let ghost first = views(now@);
        proof {
            assert forall|i: int| 0 <= i < order.len() implies (#[trigger] order[i]).offset
                + order[i].data.len() <= before.durable.len() && order[i].ordinal
                < before.trace.len() by {
                let j = lemma_flush_order_member(before.script.reorder, before.pending, i);
                assert(before.pending[j] == order[i]);
            }
        }
        let mut i: usize = 0;
        proof {
            assert(first.take(0) =~= Seq::empty());
        }
        while i < now.len()
            invariant
                i <= now@.len(),
                first == views(now@),
                first == order.take(n as int),
                n <= order.len(),
                before.valid(),
                forall|j: int|
                    0 <= j < order.len() ==> (#[trigger] order[j]).offset + order[j].data.len()
                        <= before.durable.len(),
                self@.script == before.script,
                self@.durable.len() == before.durable.len(),
                self@.durable == persisted_all(
                    before.script.atomic_unit as int,
                    before.durable,
                    first.take(i as int),
                ),
                self@ == (DiskView {
                    durable: self@.durable,
                    pending: self@.pending,
                    ..before
                }),
            decreases now@.len() - i,
        {
            proof {
                assert(now@[i as int]@ == first[i as int]);
                assert(first.len() == now@.len());
                assert(first[i as int] == order.take(n as int)[i as int]);
                assert(first.take(i + 1).drop_last() =~= first.take(i as int));
                lemma_durable_len(before.script.atomic_unit as int, first[i as int]);
            }
            self.persist_write(&now[i]);
            i = i + 1;
        }
        self.pending = later;
        proof {
            assert(first.take(n as int) =~= first);
            assert forall|j: int| 0 <= j < self@.pending.len() implies (
            #[trigger] self@.pending[j]).offset + self@.pending[j].data.len()
                <= self@.durable.len() && self@.pending[j].ordinal < self@.trace.len() by {
                assert(self@.pending[j] == order[n + j]);
            }
            assert(self@ =~= before.flushed(n as int));
        }
    }

    fn discard_volatile(&mut self)
        ensures
            final(self)@ == old(self)@.after_crash(),
    {
        let ghost before = self@;
        self.volatile = copy_range(self.durable.as_slice(), 0, self.durable.len());
        self.pending = Vec::new();
        proof {
            assert(self.volatile@ =~= self.durable@);
            assert(self@ =~= before.after_crash());
        }
    }

    /// Carries a flush out; hands back its result and outcome.
    fn flush_effect(
        &mut self,
        kind: DeviceEventKind,
        sequence: u64,
        effect: Option<DeviceEffect>,
    ) -> (r: (Result<(), DeviceError>, DeviceEventOutcome))
        requires
            old(self).inv(),
            effect is None || effect_allowed(kind, effect->0),
            kind is FlushData || kind is FlushAll,
        ensures
            final(self).inv(),
            final(self)@.durable.len() == old(self)@.durable.len(),
            match effect {
                Some(DeviceEffect::Fail) => r.0 == injected(sequence, FaultKind::Failed)
                    && r.1 is Failed && final(self)@ == old(self)@,
                Some(DeviceEffect::Timeout) => r.0 == injected(sequence, FaultKind::Timeout)
                    && r.1 is Failed && final(self)@ == old(self)@,
                Some(DeviceEffect::Drop) => r.0 == Ok::<(), DeviceError>(()) && r.1 is Dropped && final(self)@
                    == old(self)@,
                Some(DeviceEffect::CrashBefore) => r.0 == injected(sequence, FaultKind::Crashed)
                    && r.1 is Crashed && final(self)@ == old(self)@.after_crash(),
                Some(DeviceEffect::CrashAfter) => r.0 == injected(sequence, FaultKind::Crashed)
                    && r.1 is Crashed && final(self)@ == old(self)@.flushed(
                    old(self)@.flush_limit(kind),
                ).after_crash(),
                _ => r.0 == Ok::<(), DeviceError>(()) && r.1 is Completed && final(self)@ == old(self)@.flushed(
                    old(self)@.flush_limit(kind),
                ),
            },
    {
        let crashed = DeviceError::Injected {
            at: InjectionSite::Event(sequence),
            kind: FaultKind::Crashed,
        };
        match effect {
            Some(DeviceEffect::CrashBefore) => {
                self.discard_volatile();
                return (Err(crashed), DeviceEventOutcome::Crashed);
            },
            Some(DeviceEffect::Fail) => {
                return (
                    Err(
                        DeviceError::Injected {
                            at: InjectionSite::Event(sequence),
                            kind: FaultKind::Failed,
                        },
                    ),
                    DeviceEventOutcome::Failed,
                );
            },
            Some(DeviceEffect::Timeout) => {
                return (
                    Err(
                        DeviceError::Injected {
                            at: InjectionSite::Event(sequence),
                            kind: FaultKind::Timeout,
                        },
                    ),
                    DeviceEventOutcome::Failed,
                );
            },
            Some(DeviceEffect::Drop) => {
                return (Ok(()), DeviceEventOutcome::Dropped);
            },
            _ => {},
        }
        let limit: Option<usize> = match kind {
            DeviceEventKind::FlushData => match self.script.flush_data_writes {
                Some(writes) => Some(writes as usize),
                None => None,
            },
            _ => None,
        };
        self.apply_pending(limit);
        if let Some(DeviceEffect::CrashAfter) = effect {
            self.discard_volatile();
            return (Err(crashed), DeviceEventOutcome::Crashed);
        }
        (Ok(()), DeviceEventOutcome::Completed)
    }

    fn flush(&mut self, kind: DeviceEventKind) -> (r: Result<(), DeviceError>)
        requires
            old(self).inv(),
            kind is FlushData || kind is FlushAll,
        ensures
            final(self).inv(),
            final(self)@.durable.len() == old(self)@.durable.len(),
            r == old(self)@.flush_result(kind),
            final(self)@ == old(self)@.after_flush(kind),
    {
        let ghost before = self@;
        let (sequence, virtual_time) = self.begin_event(kind);
        let scripted = self.scripted_effect(kind, sequence, 0, 0);
        let effect = match scripted {
            Some((_, effect)) => Some(effect),
            None => None,
        };
        proof {
            assert(effect == before.effect_of(before.rule_for(kind, 0, 0)));
        }
        let ghost ready = self@;
        let (result, outcome) = self.flush_effect(kind, sequence, effect);
        let ghost moved = self@;
        let script_rule: Option<u32> = match scripted {
            Some((rule, _)) => Some(rule),
            None => None,
        };
        self.record_event(
            DeviceEvent {
                sequence,
                kind,
                offset: 0,
                len: 0,
                virtual_time,
                outcome,
                script_rule,
                script_effect: effect,
            },
        );
        proof {
            assert(self@ =~= before.after_flush(kind));
        }
        result
    }
}


impl SimDisk {
    /// Takes `data` into the cache.
    fn cache_write(
        &mut self,
        sequence: u64,
        offset: u64,
        data: Vec<u8>,
        tear_prefix: Option<usize>,
    )
        requires
            old(self)@.volatile.len() == old(self)@.durable.len(),
            sequence == old(self)@.sequence(),
            offset + data@.len() <= old(self)@.durable.len(),
        ensures
            final(self)@ == old(self)@.cached(offset, data@, tear_prefix),
    {
        let ghost before = self@;
        let total: usize = self.durable.len();
        overwrite(&mut self.volatile, offset as usize, data.as_slice());
        let ghost write = PendingView { ordinal: sequence, offset, data: data@, tear_prefix };
        self.pending.push(PendingWrite { ordinal: sequence, offset, data, tear_prefix });
        proof {
            assert(self@.pending =~= before.pending.push(write));
        }
    }

    /// Carries a write out that lies in bounds and on good media.
    fn write_effect(
        &mut self,
        sequence: u64,
        offset: u64,
        buf: &[u8],
        effect: Option<DeviceEffect>,
    ) -> (r: (Result<(), DeviceError>, DeviceEventOutcome))
        requires
            old(self).inv(),
            sequence == old(self)@.sequence(),
            offset + buf@.len() <= old(self)@.durable.len(),
        ensures
            match effect {
                None => r.0 == Ok::<(), DeviceError>(()) && r.1 is Completed && final(self)@
                    == old(self)@.cached(offset, buf@, None),
                Some(DeviceEffect::Fail) => r.0 == injected(sequence, FaultKind::Failed)
                    && r.1 is Failed && final(self)@ == old(self)@,
                Some(DeviceEffect::Timeout) => r.0 == injected(sequence, FaultKind::Timeout)
                    && r.1 is Failed && final(self)@ == old(self)@,
                Some(DeviceEffect::Drop) => r.0 == Ok::<(), DeviceError>(()) && r.1 is Dropped
                    && final(self)@ == old(self)@,
                Some(DeviceEffect::Short { bytes }) => if bytes >= buf@.len() {
                    r.0 == Err::<(), DeviceError>(
                        DeviceError::InvalidConfig(
                            "short write must be shorter than the requested length",
                        ),
                    ) && r.1 is Failed && final(self)@ == old(self)@
                } else {
                    r.0 == injected(sequence, FaultKind::ShortIo)
                        && r.1 == (DeviceEventOutcome::Short { bytes }) && final(self)@ == old(
                        self,
                    )@.cached(offset, buf@.take(bytes as int), None)
                },
                Some(DeviceEffect::Tear { durable_prefix }) => r.0 == Ok::<(), DeviceError>(())
                    && r.1 == (DeviceEventOutcome::Torn {
                    durable_prefix: whole_units(
                        old(self)@.script.atomic_unit as int,
                        offset as int,
                        buf@.len() as int,
                        min_int(durable_prefix as int, buf@.len() as int),
                    ) as usize,
                }) && final(self)@ == old(self)@.cached(offset, buf@, Some(durable_prefix)),
                Some(DeviceEffect::TearAndCrashAfter { durable_prefix }) => r.0 == injected(
                    sequence,
                    FaultKind::Crashed,
                ) && r.1 is Crashed && final(self)@ == (DiskView {
                    durable: persisted(
                        old(self)@.script.atomic_unit as int,
                        old(self)@.durable,
                        PendingView {
                            ordinal: sequence,
                            offset,
                            data: buf@,
                            tear_prefix: Some(durable_prefix),
                        },
                    ),
                    ..old(self)@
                }).after_crash(),
                Some(DeviceEffect::CrashBefore) | Some(DeviceEffect::CrashAfter) => r.0
                    == injected(sequence, FaultKind::Crashed) && r.1 is Crashed && final(self)@
                    == old(self)@.after_crash(),
            },
    {
        let len: usize = buf.len();
        let total: usize = self.durable.len();
        let crashed = DeviceError::Injected {
            at: InjectionSite::Event(sequence),
            kind: FaultKind::Crashed,
        };
        match effect {
            None => {
                let data = copy_range(buf, 0, len);
                proof {
                    assert(data@ =~= buf@);
                }
                self.cache_write(sequence, offset, data, None);
                (Ok(()), DeviceEventOutcome::Completed)
            },
            Some(DeviceEffect::Fail) => (
                Err(
                    DeviceError::Injected {
                        at: InjectionSite::Event(sequence),
                        kind: FaultKind::Failed,
                    },
                ),
                DeviceEventOutcome::Failed,
            ),
            Some(DeviceEffect::Timeout) => (
                Err(
                    DeviceError::Injected {
                        at: InjectionSite::Event(sequence),
                        kind: FaultKind::Timeout,
                    },
                ),
                DeviceEventOutcome::Failed,
            ),
            Some(DeviceEffect::Drop) => (Ok(()), DeviceEventOutcome::Dropped),
            Some(DeviceEffect::Short { bytes }) => {
                if bytes >= len {
                    return (
                        Err(
                            DeviceError::InvalidConfig(
                                "short write must be shorter than the requested length",
                            ),
                        ),
                        DeviceEventOutcome::Failed,
                    );
                }
                let data = copy_range(buf, 0, bytes);
                proof {
                    assert(data@ =~= buf@.take(bytes as int));
                }
                self.cache_write(sequence, offset, data, None);
                (
                    Err(
                        DeviceError::Injected {
                            at: InjectionSite::Event(sequence),
                            kind: FaultKind::ShortIo,
                        },
                    ),
                    DeviceEventOutcome::Short { bytes },
                )
            },
            Some(DeviceEffect::Tear { durable_prefix }) => {
                let data = copy_range(buf, 0, len);
                proof {
                    assert(data@ =~= buf@);
                }
                let cut: usize = atomic_prefix(
                    self.script.atomic_unit,
                    offset as usize,
                    len,
                    durable_prefix,
                );
                self.cache_write(sequence, offset, data, Some(durable_prefix));
                (Ok(()), DeviceEventOutcome::Torn { durable_prefix: cut })
            },
            Some(DeviceEffect::TearAndCrashAfter { durable_prefix }) => {
                let data = copy_range(buf, 0, len);
                proof {
                    assert(data@ =~= buf@);
                }
                let write = PendingWrite {
                    ordinal: sequence,
                    offset,
                    data,
                    tear_prefix: Some(durable_prefix),
                };
                self.persist_write(&write);
                self.discard_volatile();
                (Err(crashed), DeviceEventOutcome::Crashed)
            },
            Some(DeviceEffect::CrashBefore) | Some(DeviceEffect::CrashAfter) => {
                self.discard_volatile();
                (Err(crashed), DeviceEventOutcome::Crashed)
            },
        }
    }
}

pub proof fn lemma_rule_index(
    rules: Seq<DeviceRule>,
    kind: DeviceEventKind,
    sequence: u64,
    offset: u64,
    len: nat,
    from: nat,
)
    requires
        rules.len() <= usize::MAX,
    ensures
        match first_rule(rules, kind, sequence, offset, len, from) {
            Some(i) => from <= i < rules.len() && (i as u32) < rules.len(),
            None => true,
        },
    decreases rules.len() - from,
{
    if from < rules.len() {
        lemma_rule_index(rules, kind, sequence, offset, len, from + 1);
        let small = from as usize;
        assert((small as u32) as usize <= small) by (bit_vector);
    }
}

proof fn lemma_valid_after_write(disk: DiskView, offset: u64, data: Seq<u8>)
    requires
        disk.valid(),
        disk.trace.len() < usize::MAX,
    ensures
        disk.after_write(offset, data).valid(),
        disk.after_write(offset, data).durable.len() == disk.durable.len(),
{
    let after = disk.after_write(offset, data);
    assert(after.script == disk.script);
    lemma_rule_index(
        disk.script.rules,
        DeviceEventKind::Write,
        disk.sequence(),
        offset,
        data.len(),
        0,
    );
    match disk.effect_of(disk.transfer_rule(DeviceEventKind::Write, offset, data.len())) {
        Some(DeviceEffect::TearAndCrashAfter { durable_prefix }) => {
            lemma_durable_len(
                disk.script.atomic_unit as int,
                PendingView {
                    ordinal: disk.sequence(),
                    offset,
                    data,
                    tear_prefix: Some(durable_prefix),
                },
            );
        },
        _ => {},
    }
    assert forall|i: int| 0 <= i < after.pending.len() implies (
    #[trigger] after.pending[i]).offset + after.pending[i].data.len() <= after.durable.len()
        && after.pending[i].ordinal < after.trace.len() by {
        if i < disk.pending.len() {
            assert(after.pending[i] == disk.pending[i]);
        }
    }
}

impl BlockDevice for SimDisk {
    open spec fn wf(&self) -> bool {
        self.inv()
    }

    open spec fn contents(&self) -> Seq<u8> {
        self@.volatile
    }

    open spec fn reliable(&self) -> bool {
        self@.fault_free()
    }

    open spec fn durable(&self) -> Seq<u8> {
        self@.durable
    }

    open spec fn steady(&self) -> bool {
        honest(self@)
    }

    fn len(&self) -> (n: u64) {
        self.durable.len() as u64
    }

    fn read_at(&mut self, offset: u64, buf: &mut [u8]) -> (r: Result<(), DeviceError>)
        ensures
            r == old(self)@.read_result(offset, old(buf)@.len()),
            final(self)@ == old(self)@.after_read(offset, old(buf)@.len()),
            r is Err ==> final(buf)@ == old(buf)@,
    {
        let ghost before = self@;
        let (sequence, virtual_time) = self.begin_event(DeviceEventKind::Read);
        let len: usize = buf.len();
        let mut scripted: Option<(u32, DeviceEffect)> = None;
        let mut outcome = DeviceEventOutcome::Failed;
        let result = match self.bounds(offset, len) {
            Err(error) => Err(error),
            Ok(start) => {
                if self.overlaps_bad_range(offset, len) {
                    Err(
                        DeviceError::Injected {
                            at: InjectionSite::Event(sequence),
                            kind: FaultKind::MediaError,
                        },
                    )
                } else {
                    scripted = self.scripted_effect(DeviceEventKind::Read, sequence, offset, len);
                    match scripted {
                        None => {
                            fill_from(buf, self.volatile.as_slice(), start);
                            outcome = DeviceEventOutcome::Completed;
                            Ok(())
                        },
                        Some((_, DeviceEffect::Timeout)) => Err(
                            DeviceError::Injected {
                                at: InjectionSite::Event(sequence),
                                kind: FaultKind::Timeout,
                            },
                        ),
                        Some((_, _)) => Err(
                            DeviceError::Injected {
                                at: InjectionSite::Event(sequence),
                                kind: FaultKind::ReadFailed,
                            },
                        ),
                    }
                }
            },
        };
        let script_rule: Option<u32> = match scripted {
            Some((rule, _)) => Some(rule),
            None => None,
        };
        let script_effect = match scripted {
            Some((_, effect)) => Some(effect),
            None => None,
        };
        self.record_event(
            DeviceEvent {
                sequence,
                kind: DeviceEventKind::Read,
                offset,
                len,
                virtual_time,
                outcome,
                script_rule,
                script_effect,
            },
        );
        proof {
            assert(self@ =~= before.after_read(offset, len as nat));
            if honest(before) {
                law_honest_disk_reads(before, offset, len as nat);
            }
        }
        result
    }

    fn write_at(&mut self, offset: u64, buf: &[u8]) -> (r: Result<(), DeviceError>)
        ensures
            r == old(self)@.write_result(offset, buf@.len()),
            final(self)@ == old(self)@.after_write(offset, buf@),
    {
        let ghost before = self@;
        let (sequence, virtual_time) = self.begin_event(DeviceEventKind::Write);
        let len: usize = buf.len();
        let mut scripted: Option<(u32, DeviceEffect)> = None;
        let mut outcome = DeviceEventOutcome::Failed;
        let result = match self.bounds(offset, len) {
            Err(error) => Err(error),
            Ok(_) => {
                if self.overlaps_bad_range(offset, len) {
                    Err(
                        DeviceError::Injected {
                            at: InjectionSite::Event(sequence),
                            kind: FaultKind::MediaError,
                        },
                    )
                } else {
                    scripted = self.scripted_effect(DeviceEventKind::Write, sequence, offset, len);
                    let effect = match scripted {
                        Some((_, effect)) => Some(effect),
                        None => None,
                    };
                    let (result, shown) = self.write_effect(sequence, offset, buf, effect);
                    outcome = shown;
                    result
                }
            },
        };
        let script_rule: Option<u32> = match scripted {
            Some((rule, _)) => Some(rule),
            None => None,
        };
        let script_effect = match scripted {
            Some((_, effect)) => Some(effect),
            None => None,
        };
        self.record_event(
            DeviceEvent {
                sequence,
                kind: DeviceEventKind::Write,
                offset,
                len,
                virtual_time,
                outcome,
                script_rule,
                script_effect,
            },
        );
        proof {
            assert(self@ =~= before.after_write(offset, buf@));
            lemma_valid_after_write(before, offset, buf@);
            if honest(before) {
                law_honest_disk_writes(before, offset, buf@);
            }
        }
        result
    }

    fn flush_data(&mut self) -> (r: Result<(), DeviceError>)
        ensures
            r == old(self)@.flush_result(DeviceEventKind::FlushData),
            final(self)@ == old(self)@.after_flush(DeviceEventKind::FlushData),
    {
        proof {
            if honest(self@) {
                law_honest_disk_flushes(self@, DeviceEventKind::FlushData);
            }
        }
        self.flush(DeviceEventKind::FlushData)
    }

    fn flush_all(&mut self) -> (r: Result<(), DeviceError>)
        ensures
            r == old(self)@.flush_result(DeviceEventKind::FlushAll),
            final(self)@ == old(self)@.after_flush(DeviceEventKind::FlushAll),
    {
        proof {
            if honest(self@) {
                law_honest_disk_flushes(self@, DeviceEventKind::FlushAll);
            }
        }
        self.flush(DeviceEventKind::FlushAll)
    }
}

impl Clone for SimDisk {
    fn clone(&self) -> (copy: Self)
        ensures
            copy@ == self@,
    {
        let mut pending: Vec<PendingWrite> = Vec::new();
        let mut i: usize = 0;
        while i < self.pending.len()
            invariant
                i <= self.pending@.len(),
                pending@.len() == i,
                views(pending@) == views(self.pending@).take(i as int),
            decreases self.pending@.len() - i,
        {
            pending.push(self.pending[i].copy());
            i = i + 1;
            proof {
                assert(views(pending@) =~= views(self.pending@).take(i as int));
            }
        }
        let copy = SimDisk {
            durable: copy_range(self.durable.as_slice(), 0, self.durable.len()),
            volatile: copy_range(self.volatile.as_slice(), 0, self.volatile.len()),
            pending,
            script: self.script.clone(),
            virtual_time: self.virtual_time,
            trace: self.trace.clone(),
            rule_hits: self.rule_hits.clone(),
        };
        proof {
            assert(copy.durable@ =~= self.durable@);
            assert(copy.volatile@ =~= self.volatile@);
            assert(views(copy.pending@) =~= views(self.pending@));
            assert(copy.trace@ =~= self.trace@);
            assert(copy.rule_hits@ =~= self.rule_hits@);
            assert(copy@ =~= self@);
        }
        copy
    }
}

} // verus!
