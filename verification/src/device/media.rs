//! Timing models of disk media on top of the simulated disk.
use vstd::prelude::*;

use crate::bytes::zeros;
use crate::device::block::{in_bounds, BlockDevice, DeviceError, FaultKind};
use crate::device::script::{
    saturate, DeviceEffect, DeviceEvent, DeviceEventOutcome, DeviceScript, LatencyProfile,
    ScriptView, DeviceEventKind,
};
use crate::device::sim::{DiskView, SimDisk};
use crate::device::sim_laws::{
    honest, law_honest_disk_flushes, law_honest_disk_reads, law_honest_disk_writes,
};

verus! {

#[derive(Clone, Copy, Debug, PartialEq, Eq, Structural)]
pub enum MediaType {
    Hdd,
    Ssd,
}

#[derive(Clone, Copy, Debug, PartialEq, Eq, Structural)]
pub struct JitterConfig {
    pub max_delay: u64,
    pub seed: u64,
}

/// Writes get slower by `extra_delay` once `after_bytes` bytes were written.
#[derive(Clone, Copy, Debug, PartialEq, Eq, Structural)]
pub struct SsdSlowdownSegment {
    pub after_bytes: u64,
    pub extra_delay: u64,
}

#[derive(Clone, Copy, Debug, PartialEq, Eq, Structural)]
pub struct MediaRange {
    pub offset: u64,
    pub len: u64,
}

#[derive(Debug, PartialEq, Eq)]
pub struct MediaConfig {
    pub media_type: MediaType,
    pub capacity: u64,
    /// Logical block size in bytes; capacity and I/O offsets are byte-based.
    pub logical_block_size: u64,
    pub base_latency: u64,
    pub hdd_seek_latency: u64,
    pub ssd_slowdown: Vec<SsdSlowdownSegment>,
    pub jitter: Option<JitterConfig>,
    pub device_script: DeviceScript,
}

/// A media configuration as mathematical values.
#[verifier::ext_equal]
pub struct ConfigView {
    pub media_type: MediaType,
    pub capacity: u64,
    pub logical_block_size: u64,
    pub base_latency: u64,
    pub hdd_seek_latency: u64,
    pub ssd_slowdown: Seq<SsdSlowdownSegment>,
    pub jitter: Option<JitterConfig>,
    pub device_script: ScriptView,
}

impl View for MediaConfig {
    type V = ConfigView;

    open spec fn view(&self) -> ConfigView {
        ConfigView {
            media_type: self.media_type,
            capacity: self.capacity,
            logical_block_size: self.logical_block_size,
            base_latency: self.base_latency,
            hdd_seek_latency: self.hdd_seek_latency,
            ssd_slowdown: self.ssd_slowdown@,
            jitter: self.jitter,
            device_script: self.device_script@,
        }
    }
}

impl Clone for MediaConfig {
    fn clone(&self) -> (copy: Self)
        ensures
            copy@ == self@,
    {
        let copy = MediaConfig {
            media_type: self.media_type,
            capacity: self.capacity,
            logical_block_size: self.logical_block_size,
            base_latency: self.base_latency,
            hdd_seek_latency: self.hdd_seek_latency,
            ssd_slowdown: self.ssd_slowdown.clone(),
            jitter: self.jitter,
            device_script: self.device_script.clone(),
        };
        proof {
            assert(copy.ssd_slowdown@ =~= self.ssd_slowdown@);
        }
        copy
    }
}

#[derive(Clone, Copy, Debug, PartialEq, Eq, Structural)]
pub enum MediaOperation {
    Read,
    Write,
    FlushData,
    FlushAll,
    Crash,
}

#[derive(Clone, Copy, Debug, PartialEq, Eq)]
pub enum MediaError {
    Device(DeviceError),
    InvalidConfig(&'static str),
}

impl From<DeviceError> for MediaError {
    fn from(error: DeviceError) -> (wrapped: Self) {
        MediaError::Device(error)
    }
}

impl vstd::std_specs::convert::FromSpecImpl<DeviceError> for MediaError {
    open spec fn obeys_from_spec() -> bool {
        true
    }

    open spec fn from_spec(error: DeviceError) -> Self {
        MediaError::Device(error)
    }
}

#[derive(Clone, Copy, Debug, PartialEq, Eq, Structural)]
pub enum MediaTraceOutcome {
    Completed,
    Failed { kind: MediaFailureKind },
}

#[derive(Clone, Copy, Debug, PartialEq, Eq, Structural)]
pub enum MediaFailureKind {
    Bounds,
    BadMedia,
    ReadFailed,
    Timeout,
    Injected,
    Crashed,
    ShortOrTorn,
}

/// One request as the media model saw it.
#[derive(Clone, Copy, Debug, PartialEq, Eq)]
pub struct MediaTraceEvent {
    pub sequence: u64,
    pub operation: MediaOperation,
    pub offset: u64,
    pub len: usize,
    pub virtual_time: u64,
    pub delay: u64,
    pub outcome: MediaTraceOutcome,
    pub device_event: DeviceEvent,
    pub device_error: Option<DeviceError>,
}

/// The state of a media model.
#[verifier::ext_equal]
pub struct MediaView {
    pub config: ConfigView,
    pub disk: DiskView,
    /// Where the head of a hard disk stands.
    pub head: u64,
    /// How many bytes valid writes have asked for.
    pub written: u64,
    /// The time that positioning and slowdown took.
    pub extra_time: u64,
    pub log: Seq<MediaTraceEvent>,
}

#[derive(Debug)]
pub struct MediaModel {
    config: MediaConfig,
    disk: SimDisk,
    hdd_head: u64,
    cumulative_writes: u64,
    extra_time: u64,
    media_trace: Vec<MediaTraceEvent>,
}

impl View for MediaModel {
    type V = MediaView;

    closed spec fn view(&self) -> MediaView {
        MediaView {
            config: self.config@,
            disk: self.disk@,
            head: self.hdd_head,
            written: self.cumulative_writes,
            extra_time: self.extra_time,
            log: self.media_trace@,
        }
    }
}

/// Some slowdown threshold is not above the one before it.
pub open spec fn thresholds_stall(segments: Seq<SsdSlowdownSegment>) -> bool {
    exists|i: int|
        0 < i < segments.len() && segments[i - 1].after_bytes >= (
        #[trigger] segments[i]).after_bytes
}

impl ConfigView {
    /// The first thing wrong with the configuration.
    pub open spec fn problem(self) -> Option<&'static str> {
        if self.capacity == 0 || self.logical_block_size == 0 {
            Some("capacity and logical_block_size must be non-zero")
        } else if self.jitter is Some && (self.device_script.latency.jitter_ticks != 0
            || self.device_script.latency.seed != 0) {
            Some("media jitter and device script jitter cannot both be configured")
        } else if self.capacity % self.logical_block_size != 0 {
            Some("capacity must be a multiple of logical_block_size")
        } else if self.media_type is Hdd && self.ssd_slowdown.len() != 0 {
            Some("ssd slowdown is only valid for SSD media")
        } else if self.media_type is Ssd && self.hdd_seek_latency != 0 {
            Some("hdd seek latency is only valid for HDD media")
        } else if thresholds_stall(self.ssd_slowdown) {
            Some("ssd slowdown thresholds must increase")
        } else {
            None
        }
    }

    /// The script of the disk underneath: base latency and jitter added in.
    pub open spec fn compiled(self) -> ScriptView {
        let own = self.device_script.latency;
        ScriptView {
            latency: LatencyProfile {
                read_ticks: saturate(own.read_ticks + self.base_latency),
                write_ticks: saturate(own.write_ticks + self.base_latency),
                flush_data_ticks: saturate(own.flush_data_ticks + self.base_latency),
                flush_all_ticks: saturate(own.flush_all_ticks + self.base_latency),
                jitter_ticks: match self.jitter {
                    Some(jitter) => jitter.max_delay,
                    None => own.jitter_ticks,
                },
                seed: match self.jitter {
                    Some(jitter) => jitter.seed,
                    None => own.seed,
                },
            },
            ..self.device_script
        }
    }
}

/// The summed delays of the first `n` segments whose threshold `end` has reached.
pub open spec fn slowdown(segments: Seq<SsdSlowdownSegment>, end: u64, n: nat) -> int
    decreases n,
{
    if n == 0 {
        0
    } else {
        let before = slowdown(segments, end, (n - 1) as nat);
        if end >= segments[n - 1].after_bytes {
            before + segments[n - 1].extra_delay
        } else {
            before
        }
    }
}

/// How many bytes the event moved past the head.
pub open spec fn moved_bytes(event: DeviceEvent) -> usize {
    match event.script_effect {
        Some(DeviceEffect::CrashBefore) => 0,
        Some(DeviceEffect::CrashAfter)
        | Some(DeviceEffect::Tear { .. })
        | Some(DeviceEffect::TearAndCrashAfter { .. }) => event.len,
        _ => match event.outcome {
            DeviceEventOutcome::Completed => event.len,
            DeviceEventOutcome::Dropped => 0,
            DeviceEventOutcome::Short { bytes } => bytes,
            DeviceEventOutcome::Torn { durable_prefix } => durable_prefix,
            DeviceEventOutcome::Failed | DeviceEventOutcome::Crashed => 0,
        },
    }
}

/// How a failed event is classified.
pub open spec fn failure_of(event: DeviceEvent, error: Option<DeviceError>) -> Option<
    MediaFailureKind,
> {
    match event.outcome {
        DeviceEventOutcome::Completed => None,
        DeviceEventOutcome::Dropped => Some(MediaFailureKind::Injected),
        DeviceEventOutcome::Short { .. }
        | DeviceEventOutcome::Torn { .. } => Some(MediaFailureKind::ShortOrTorn),
        DeviceEventOutcome::Crashed => Some(MediaFailureKind::Crashed),
        DeviceEventOutcome::Failed => Some(
            match error {
                Some(DeviceError::OutOfBounds { .. }) => MediaFailureKind::Bounds,
                Some(DeviceError::Injected { at: _, kind }) => match kind {
                    FaultKind::MediaError => MediaFailureKind::BadMedia,
                    FaultKind::ReadFailed => MediaFailureKind::ReadFailed,
                    FaultKind::Timeout => MediaFailureKind::Timeout,
                    FaultKind::Crashed => MediaFailureKind::Crashed,
                    FaultKind::ShortIo => MediaFailureKind::ShortOrTorn,
                    FaultKind::Failed | FaultKind::Dropped => MediaFailureKind::Injected,
                },
                _ => MediaFailureKind::Injected,
            },
        ),
    }
}

pub open spec fn wrap(result: Result<(), DeviceError>) -> Result<(), MediaError> {
    match result {
        Ok(done) => Ok(done),
        Err(error) => Err(MediaError::Device(error)),
    }
}

pub open spec fn error_of(result: Result<(), DeviceError>) -> Option<DeviceError> {
    match result {
        Ok(()) => None,
        Err(error) => Some(error),
    }
}

impl MediaView {
    pub open spec fn valid(self) -> bool {
        &&& self.disk.valid()
        &&& self.disk.capacity() == self.config.capacity
    }

    pub open spec fn total_time(self) -> u64 {
        saturate(self.disk.virtual_time + self.extra_time)
    }

    /// The positioning or slowdown delay of a transfer.
    pub open spec fn delay_of(self, offset: u64, len: nat, write: bool) -> u64 {
        if !in_bounds(offset, len, self.config.capacity as nat) {
            0
        } else if self.config.media_type is Hdd {
            let apart = if offset >= self.head {
                offset - self.head
            } else {
                self.head - offset
            };
            saturate(apart * self.config.hdd_seek_latency)
        } else if write {
            saturate(
                slowdown(
                    self.config.ssd_slowdown,
                    saturate(self.written + len),
                    self.config.ssd_slowdown.len(),
                ),
            )
        } else {
            0
        }
    }

    /// The state after the disk underneath went to `disk` with the given result.
    pub open spec fn logged(
        self,
        disk: DiskView,
        operation: MediaOperation,
        offset: u64,
        len: nat,
        delay: u64,
        result: Result<(), DeviceError>,
    ) -> MediaView {
        let event = disk.trace.last();
        let extra_time = saturate(self.extra_time + delay);
        let moves = operation is Read || operation is Write;
        MediaView {
            disk,
            head: if moves && self.config.media_type is Hdd && moved_bytes(event) != 0 {
                saturate(event.offset + moved_bytes(event))
            } else {
                self.head
            },
            written: if operation is Write && in_bounds(
                offset,
                len,
                self.config.capacity as nat,
            ) {
                saturate(self.written + len)
            } else {
                self.written
            },
            extra_time,
            log: self.log.push(
                MediaTraceEvent {
                    sequence: event.sequence,
                    operation,
                    offset,
                    len: len as usize,
                    virtual_time: saturate(disk.virtual_time + extra_time),
                    delay,
                    outcome: match failure_of(event, error_of(result)) {
                        Some(kind) => MediaTraceOutcome::Failed { kind },
                        None => MediaTraceOutcome::Completed,
                    },
                    device_event: event,
                    device_error: error_of(result),
                },
            ),
            ..self
        }
    }

    pub open spec fn after_read(self, offset: u64, len: nat) -> MediaView {
        self.logged(
            self.disk.after_read(offset, len),
            MediaOperation::Read,
            offset,
            len,
            self.delay_of(offset, len, false),
            self.disk.read_result(offset, len),
        )
    }

    pub open spec fn after_write(self, offset: u64, data: Seq<u8>) -> MediaView {
        self.logged(
            self.disk.after_write(offset, data),
            MediaOperation::Write,
            offset,
            data.len(),
            self.delay_of(offset, data.len(), true),
            self.disk.write_result(offset, data.len()),
        )
    }

    pub open spec fn after_flush(
        self,
        kind: DeviceEventKind,
        operation: MediaOperation,
    ) -> MediaView {
        self.logged(
            self.disk.after_flush(kind),
            operation,
            0,
            0,
            0,
            self.disk.flush_result(kind),
        )
    }

    pub open spec fn after_crash(self) -> MediaView {
        self.logged(
            self.disk.after_power_loss(),
            MediaOperation::Crash,
            0,
            0,
            0,
            Ok(()),
        )
    }
}

impl MediaConfig {
    fn validate(&self) -> (r: Result<(), MediaError>)
        ensures
            match self@.problem() {
                Some(message) => r == Err::<(), MediaError>(MediaError::InvalidConfig(message)),
                None => r is Ok,
            },
    {
        if self.capacity == 0 || self.logical_block_size == 0 {
            return Err(
                MediaError::InvalidConfig("capacity and logical_block_size must be non-zero"),
            );
        }
        if self.jitter.is_some() && (self.device_script.latency.jitter_ticks != 0
            || self.device_script.latency.seed != 0) {
            return Err(
                MediaError::InvalidConfig(
                    "media jitter and device script jitter cannot both be configured",
                ),
            );
        }
        if self.capacity % self.logical_block_size != 0 {
            return Err(
                MediaError::InvalidConfig("capacity must be a multiple of logical_block_size"),
            );
        }
        if self.media_type == MediaType::Hdd && !self.ssd_slowdown.is_empty() {
            return Err(MediaError::InvalidConfig("ssd slowdown is only valid for SSD media"));
        }
        if self.media_type == MediaType::Ssd && self.hdd_seek_latency != 0 {
            return Err(
                MediaError::InvalidConfig("hdd seek latency is only valid for HDD media"),
            );
        }
        let mut i: usize = 1;
        while i < self.ssd_slowdown.len()
            invariant
                1 <= i,
                self@.problem() == if thresholds_stall(self@.ssd_slowdown) {
                    Some("ssd slowdown thresholds must increase")
                } else {
                    None
                },
                forall|j: int|
                    0 < j < i && j < self.ssd_slowdown@.len() ==> self.ssd_slowdown@[j
                        - 1].after_bytes < (#[trigger] self.ssd_slowdown@[j]).after_bytes,
            decreases self.ssd_slowdown@.len() - i,
        {
            if self.ssd_slowdown[i - 1].after_bytes >= self.ssd_slowdown[i].after_bytes {
                proof {
                    assert(self@.ssd_slowdown[i - 1].after_bytes
                        >= self@.ssd_slowdown[i as int].after_bytes);
                }
                return Err(MediaError::InvalidConfig("ssd slowdown thresholds must increase"));
            }
            i = i + 1;
        }
        Ok(())
    }
}

impl MediaModel {
    /// The model's invariant.
    pub open spec fn inv(&self) -> bool {
        self@.valid()
    }

    pub fn new(config: MediaConfig) -> (r: Result<Self, MediaError>)
        ensures
            match config@.problem() {
                Some(message) => r == Err::<Self, MediaError>(
                    MediaError::InvalidConfig(message),
                ),
                None => if config.capacity > usize::MAX {
                    r == Err::<Self, MediaError>(
                        MediaError::InvalidConfig("capacity does not fit usize"),
                    )
                } else {
                    match config@.compiled().problem(config.capacity) {
                        Some(message) => r == Err::<Self, MediaError>(
                            MediaError::Device(DeviceError::InvalidConfig(message)),
                        ),
                        None => r is Ok && r->Ok_0.inv() && r->Ok_0@ == (MediaView {
                            config: config@,
                            disk: DiskView {
                                durable: zeros(config.capacity as nat),
                                volatile: zeros(config.capacity as nat),
                                pending: Seq::empty(),
                                script: config@.compiled(),
                                virtual_time: 0,
                                trace: Seq::empty(),
                                hits: Seq::new(
                                    config@.device_script.rules.len(),
                                    |i: int| false,
                                ),
                            },
                            head: 0,
                            written: 0,
                            extra_time: 0,
                            log: Seq::empty(),
                        }),
                    }
                },
            },
    {
        match config.validate() {
            Ok(()) => {},
            Err(error) => {
                return Err(error);
            },
        }
        if config.capacity > usize::MAX as u64 {
            return Err(MediaError::InvalidConfig("capacity does not fit usize"));
        }
        let capacity: usize = config.capacity as usize;
        let mut compiled = config.device_script.clone();
        let own = compiled.latency;
        let (jitter_ticks, seed): (u64, u64) = match config.jitter {
            Some(jitter) => (jitter.max_delay, jitter.seed),
            None => (own.jitter_ticks, own.seed),
        };
        compiled.latency = LatencyProfile {
            read_ticks: own.read_ticks.saturating_add(config.base_latency),
            write_ticks: own.write_ticks.saturating_add(config.base_latency),
            flush_data_ticks: own.flush_data_ticks.saturating_add(config.base_latency),
            flush_all_ticks: own.flush_all_ticks.saturating_add(config.base_latency),
            jitter_ticks,
            seed,
        };
        proof {
            assert(compiled@ =~= config@.compiled());
        }
        match SimDisk::from_script(capacity, compiled) {
            Ok(disk) => {
                let model = MediaModel {
                    config,
                    disk,
                    hdd_head: 0,
                    cumulative_writes: 0,
                    extra_time: 0,
                    media_trace: Vec::new(),
                };
                proof {
                    assert(model@.log =~= Seq::empty());
                }
                Ok(model)
            },
            Err(error) => Err(MediaError::Device(error)),
        }
    }

    pub fn config(&self) -> (config: &MediaConfig)
        ensures
            config@ == self@.config,
    {
        &self.config
    }

    pub fn len(&self) -> (n: u64)
        ensures
            n == self@.config.capacity,
    {
        self.config.capacity
    }

    pub fn is_empty(&self) -> (empty: bool)
        ensures
            empty == (self@.config.capacity == 0),
    {
        self.config.capacity == 0
    }

    pub fn durable_bytes(&self) -> (bytes: &[u8])
        ensures
            bytes@ == self@.disk.durable,
    {
        self.disk.durable_bytes()
    }

    pub fn pending_writes(&self) -> (n: usize)
        ensures
            n == self@.disk.pending.len(),
    {
        self.disk.pending_writes()
    }

    /// The script that the disk underneath follows.
    pub fn compiled_script(&self) -> (script: &DeviceScript)
        ensures
            script@ == self@.disk.script,
    {
        self.disk.script()
    }

    pub fn trace(&self) -> (trace: Vec<DeviceEvent>)
        ensures
            trace@ == self@.disk.trace,
    {
        self.disk.trace()
    }

    pub fn profile_trace(&self) -> (trace: Vec<MediaTraceEvent>)
        ensures
            trace@ == self@.log,
    {
        let trace = self.media_trace.clone();
        proof {
            assert(trace@ =~= self.media_trace@);
        }
        trace
    }

    pub fn virtual_time(&self) -> (ticks: u64)
        ensures
            ticks == self@.total_time(),
    {
        self.disk.virtual_time().saturating_add(self.extra_time)
    }

    /// Loses everything that is not durable.
    pub fn crash(&mut self)
        requires
            old(self).inv(),
        ensures
            final(self).inv(),
            final(self)@ == old(self)@.after_crash(),
    {
        let ghost before = self@;
        self.disk.power_loss();
        self.record_profile(MediaOperation::Crash, 0, 0, 0, None);
        proof {
            assert(self@ =~= before.after_crash());
        }
    }

    pub fn read_at(&mut self, offset: u64, buf: &mut [u8]) -> (r: Result<(), MediaError>)
        requires
            old(self).inv(),
        ensures
            final(self).inv(),
            r == wrap(old(self)@.disk.read_result(offset, old(buf)@.len())),
            final(self)@ == old(self)@.after_read(offset, old(buf)@.len()),
            final(buf)@ == if r is Ok {
                old(self)@.disk.volatile.subrange(offset as int, offset + old(buf)@.len())
            } else {
                old(buf)@
            },
    {
        let ghost before = self@;
        let len: usize = buf.len();
        let delay: u64 = self.position_delay(offset, len, false);
        let result = self.disk.read_at(offset, buf);
        self.update_head();
        let error = match result {
            Ok(()) => None,
            Err(error) => Some(error),
        };
        self.record_profile(MediaOperation::Read, offset, len, delay, error);
        proof {
            assert(self@ =~= before.after_read(offset, len as nat));
        }
        match result {
            Ok(()) => Ok(()),
            Err(error) => Err(MediaError::Device(error)),
        }
    }

    pub fn write_at(&mut self, offset: u64, buf: &[u8]) -> (r: Result<(), MediaError>)
        requires
            old(self).inv(),
        ensures
            final(self).inv(),
            r == wrap(old(self)@.disk.write_result(offset, buf@.len())),
            final(self)@ == old(self)@.after_write(offset, buf@),
    {
        let ghost before = self@;
        let len: usize = buf.len();
        let valid = self.in_range(offset, len);
        let delay: u64 = self.position_delay(offset, len, true);
        let result = self.disk.write_at(offset, buf);
        if valid {
            self.cumulative_writes = self.cumulative_writes.saturating_add(len as u64);
        }
        self.update_head();
        let error = match result {
            Ok(()) => None,
            Err(error) => Some(error),
        };
        self.record_profile(MediaOperation::Write, offset, len, delay, error);
        proof {
            assert(self@ =~= before.after_write(offset, buf@));
        }
        match result {
            Ok(()) => Ok(()),
            Err(error) => Err(MediaError::Device(error)),
        }
    }

    pub fn flush_data(&mut self) -> (r: Result<(), MediaError>)
        requires
            old(self).inv(),
        ensures
            final(self).inv(),
            r == wrap(old(self)@.disk.flush_result(DeviceEventKind::FlushData)),
            final(self)@ == old(self)@.after_flush(
                DeviceEventKind::FlushData,
                MediaOperation::FlushData,
            ),
    {
        let ghost before = self@;
        let result = self.disk.flush_data();
        let error = match result {
            Ok(()) => None,
            Err(error) => Some(error),
        };
        self.record_profile(MediaOperation::FlushData, 0, 0, 0, error);
        proof {
            assert(self@ =~= before.after_flush(
                DeviceEventKind::FlushData,
                MediaOperation::FlushData,
            ));
        }
        match result {
            Ok(()) => Ok(()),
            Err(error) => Err(MediaError::Device(error)),
        }
    }

    pub fn flush_all(&mut self) -> (r: Result<(), MediaError>)
        requires
            old(self).inv(),
        ensures
            final(self).inv(),
            r == wrap(old(self)@.disk.flush_result(DeviceEventKind::FlushAll)),
            final(self)@ == old(self)@.after_flush(
                DeviceEventKind::FlushAll,
                MediaOperation::FlushAll,
            ),
    {
        let ghost before = self@;
        let result = self.disk.flush_all();
        let error = match result {
            Ok(()) => None,
            Err(error) => Some(error),
        };
        self.record_profile(MediaOperation::FlushAll, 0, 0, 0, error);
        proof {
            assert(self@ =~= before.after_flush(
                DeviceEventKind::FlushAll,
                MediaOperation::FlushAll,
            ));
        }
        match result {
            Ok(()) => Ok(()),
            Err(error) => Err(MediaError::Device(error)),
        }
    }

    fn in_range(&self, offset: u64, len: usize) -> (valid: bool)
        ensures
            valid == in_bounds(offset, len as nat, self@.config.capacity as nat),
    {
        match offset.checked_add(len as u64) {
            Some(end) => end <= self.config.capacity,
            None => false,
        }
    }

    /// The delay of a transfer, which is added to the extra time.
    fn position_delay(&mut self, offset: u64, len: usize, write: bool) -> (delay: u64)
        ensures
            delay == old(self)@.delay_of(offset, len as nat, write),
            final(self)@ == (MediaView {
                extra_time: saturate(old(self)@.extra_time + delay),
                ..old(self)@
            }),
    {
        let valid = self.in_range(offset, len);
        let mut delay: u64 = 0;
        if valid && self.config.media_type == MediaType::Hdd {
            let apart: u64 = if offset >= self.hdd_head {
                offset - self.hdd_head
            } else {
                self.hdd_head - offset
            };
            delay = saturating_product(apart, self.config.hdd_seek_latency);
        }
        if valid && self.config.media_type == MediaType::Ssd && write {
            let end: u64 = self.cumulative_writes.saturating_add(len as u64);
            let mut i: usize = 0;
            while i < self.config.ssd_slowdown.len()
                invariant
                    i <= self.config.ssd_slowdown@.len(),
                    delay == saturate(slowdown(self.config.ssd_slowdown@, end, i as nat)),
                    slowdown(self.config.ssd_slowdown@, end, i as nat) >= 0,
                decreases self.config.ssd_slowdown@.len() - i,
            {
                let segment = self.config.ssd_slowdown[i];
                if end >= segment.after_bytes {
                    delay = delay.saturating_add(segment.extra_delay);
                }
                i = i + 1;
            }
        }
        self.extra_time = self.extra_time.saturating_add(delay);
        delay
    }

    fn record_profile(
        &mut self,
        operation: MediaOperation,
        offset: u64,
        len: usize,
        delay: u64,
        error: Option<DeviceError>,
    )
        requires
            old(self)@.disk.trace.len() > 0,
        ensures
            final(self)@ == (MediaView {
                log: old(self)@.log.push(
                    MediaTraceEvent {
                        sequence: old(self)@.disk.trace.last().sequence,
                        operation,
                        offset,
                        len,
                        virtual_time: old(self)@.total_time(),
                        delay,
                        outcome: match failure_of(old(self)@.disk.trace.last(), error) {
                            Some(kind) => MediaTraceOutcome::Failed { kind },
                            None => MediaTraceOutcome::Completed,
                        },
                        device_event: old(self)@.disk.trace.last(),
                        device_error: error,
                    },
                ),
                ..old(self)@
            }),
    {
        let event = self.latest_event();
        let outcome = match failure_kind(&event, error) {
            Some(kind) => MediaTraceOutcome::Failed { kind },
            None => MediaTraceOutcome::Completed,
        };
        let virtual_time: u64 = self.virtual_time();
        self.media_trace.push(
            MediaTraceEvent {
                sequence: event.sequence,
                operation,
                offset,
                len,
                virtual_time,
                delay,
                outcome,
                device_event: event,
                device_error: error,
            },
        );
    }

    fn latest_event(&self) -> (event: DeviceEvent)
        requires
            self@.disk.trace.len() > 0,
        ensures
            event == self@.disk.trace.last(),
    {
        let trace = self.disk.trace();
        trace[trace.len() - 1]
    }

    fn update_head(&mut self)
        requires
            old(self)@.disk.trace.len() > 0,
        ensures
            final(self)@ == (MediaView {
                head: if old(self)@.config.media_type is Hdd && moved_bytes(
                    old(self)@.disk.trace.last(),
                ) != 0 {
                    saturate(
                        old(self)@.disk.trace.last().offset + moved_bytes(
                            old(self)@.disk.trace.last(),
                        ),
                    )
                } else {
                    old(self)@.head
                },
                ..old(self)@
            }),
    {
        if self.config.media_type != MediaType::Hdd {
            return ;
        }
        let event = self.latest_event();
        let transferred: usize = transferred_len(&event);
        if transferred != 0 {
            self.hdd_head = event.offset.saturating_add(transferred as u64);
        }
    }
}

/// The product, or the largest `u64` where the product is larger.
fn saturating_product(a: u64, b: u64) -> (product: u64)
    ensures
        product == saturate(a * b),
{
    proof {
        assert(0 <= a * b <= 0xffff_ffff_ffff_ffff * 0xffff_ffff_ffff_ffff) by (nonlinear_arith)
            requires
                0 <= a <= 0xffff_ffff_ffff_ffff,
                0 <= b <= 0xffff_ffff_ffff_ffff,
        ;
    }
    let wide: u128 = a as u128 * b as u128;
    if wide > u64::MAX as u128 {
        u64::MAX
    } else {
        wide as u64
    }
}

fn transferred_len(event: &DeviceEvent) -> (bytes: usize)
    ensures
        bytes == moved_bytes(*event),
{
    match event.script_effect {
        Some(DeviceEffect::CrashBefore) => 0,
        Some(DeviceEffect::CrashAfter)
        | Some(DeviceEffect::Tear { durable_prefix: _ })
        | Some(DeviceEffect::TearAndCrashAfter { durable_prefix: _ }) => event.len,
        _ => match event.outcome {
            DeviceEventOutcome::Completed => event.len,
            DeviceEventOutcome::Dropped => 0,
            DeviceEventOutcome::Short { bytes } => bytes,
            DeviceEventOutcome::Torn { durable_prefix } => durable_prefix,
            DeviceEventOutcome::Failed | DeviceEventOutcome::Crashed => 0,
        },
    }
}

fn failure_kind(event: &DeviceEvent, error: Option<DeviceError>) -> (kind: Option<
    MediaFailureKind,
>)
    ensures
        kind == failure_of(*event, error),
{
    match event.outcome {
        DeviceEventOutcome::Completed => None,
        DeviceEventOutcome::Dropped => Some(MediaFailureKind::Injected),
        DeviceEventOutcome::Short { bytes: _ }
        | DeviceEventOutcome::Torn { durable_prefix: _ } => Some(MediaFailureKind::ShortOrTorn),
        DeviceEventOutcome::Crashed => Some(MediaFailureKind::Crashed),
        DeviceEventOutcome::Failed => Some(
            match error {
                Some(DeviceError::OutOfBounds { .. }) => MediaFailureKind::Bounds,
                Some(DeviceError::Injected { at: _, kind }) => match kind {
                    FaultKind::MediaError => MediaFailureKind::BadMedia,
                    FaultKind::ReadFailed => MediaFailureKind::ReadFailed,
                    FaultKind::Timeout => MediaFailureKind::Timeout,
                    FaultKind::Crashed => MediaFailureKind::Crashed,
                    FaultKind::ShortIo => MediaFailureKind::ShortOrTorn,
                    FaultKind::Failed | FaultKind::Dropped => MediaFailureKind::Injected,
                },
                _ => MediaFailureKind::Injected,
            },
        ),
    }
}

impl BlockDevice for MediaModel {
    open spec fn wf(&self) -> bool {
        self.inv()
    }

    open spec fn contents(&self) -> Seq<u8> {
        self@.disk.volatile
    }

    open spec fn reliable(&self) -> bool {
        self@.disk.fault_free()
    }

    open spec fn durable(&self) -> Seq<u8> {
        self@.disk.durable
    }

    open spec fn steady(&self) -> bool {
        honest(self@.disk)
    }

    fn len(&self) -> (n: u64) {
        self.config.capacity
    }

    fn read_at(&mut self, offset: u64, buf: &mut [u8]) -> (r: Result<(), DeviceError>)
    {
        proof {
            if honest(self@.disk) {
                law_honest_disk_reads(self@.disk, offset, buf@.len());
            }
        }
        unwrap_device(MediaModel::read_at(self, offset, buf))
    }

    fn write_at(&mut self, offset: u64, buf: &[u8]) -> (r: Result<(), DeviceError>)
    {
        proof {
            if honest(self@.disk) {
                law_honest_disk_writes(self@.disk, offset, buf@);
            }
        }
        unwrap_device(MediaModel::write_at(self, offset, buf))
    }

    fn flush_data(&mut self) -> (r: Result<(), DeviceError>)
    {
        proof {
            if honest(self@.disk) {
                law_honest_disk_flushes(self@.disk, DeviceEventKind::FlushData);
            }
        }
        unwrap_device(MediaModel::flush_data(self))
    }

    fn flush_all(&mut self) -> (r: Result<(), DeviceError>)
    {
        proof {
            if honest(self@.disk) {
                law_honest_disk_flushes(self@.disk, DeviceEventKind::FlushAll);
            }
        }
        unwrap_device(MediaModel::flush_all(self))
    }
}

/// The device error inside a media error that is no configuration error.
fn unwrap_device(result: Result<(), MediaError>) -> (r: Result<(), DeviceError>)
    requires
        !(result matches Err(MediaError::InvalidConfig(_))),
    ensures
        result == wrap(r),
{
    match result {
        Ok(done) => Ok(done),
        Err(MediaError::Device(error)) => Err(error),
        Err(MediaError::InvalidConfig(message)) => Err(DeviceError::InvalidConfig(message)),
    }
}

} // verus!
