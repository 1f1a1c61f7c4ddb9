//! The media model: seek, slowdown and jitter on top of the simulated disk.
use cairn::device::block::{BlockDevice, DeviceError};
use cairn::device::media::{
    JitterConfig, MediaConfig, MediaError, MediaFailureKind, MediaModel, MediaTraceOutcome,
    MediaType, SsdSlowdownSegment,
};
use cairn::device::script::{
    ByteRange, DeviceEffect, DeviceEventKind, DeviceEventOutcome, DeviceRule, DeviceScript,
    EventOccurrence, EventSelector,
};

fn config(media_type: MediaType) -> MediaConfig {
    MediaConfig {
        media_type,
        capacity: 64,
        logical_block_size: 4,
        base_latency: 10,
        hdd_seek_latency: if media_type == MediaType::Hdd { 2 } else { 0 },
        ssd_slowdown: Vec::new(),
        jitter: None,
        device_script: DeviceScript::default(),
    }
}

#[test]
fn hdd_seek_is_from_the_previous_position() {
    let mut model = MediaModel::new(config(MediaType::Hdd)).unwrap();
    model.write_at(4, &[1, 2, 3, 4]).unwrap();
    let mut read = [0; 4];
    model.read_at(20, &mut read).unwrap();

    assert_eq!(model.virtual_time(), 52);
}

#[test]
fn ssd_slowdown_is_applied_by_cumulative_write_threshold() {
    let mut cfg = config(MediaType::Ssd);
    cfg.ssd_slowdown = vec![
        SsdSlowdownSegment {
            after_bytes: 4,
            extra_delay: 7,
        },
        SsdSlowdownSegment {
            after_bytes: 8,
            extra_delay: 11,
        },
    ];
    let mut model = MediaModel::new(cfg).unwrap();
    model.write_at(0, &[0; 3]).unwrap();
    model.write_at(4, &[0; 2]).unwrap();
    model.write_at(8, &[0; 4]).unwrap();

    assert_eq!(model.virtual_time(), 55);
}

#[test]
fn jitter_is_reproducible_from_seed_and_sequence() {
    let mut cfg = config(MediaType::Ssd);
    cfg.jitter = Some(JitterConfig {
        max_delay: 9,
        seed: 0x1234,
    });
    let mut first = MediaModel::new(cfg.clone()).unwrap();
    let mut second = MediaModel::new(cfg).unwrap();
    first.write_at(0, &[1, 2, 3, 4]).unwrap();
    second.write_at(0, &[1, 2, 3, 4]).unwrap();
    first.flush_all().unwrap();
    second.flush_all().unwrap();
    assert_eq!(first.trace(), second.trace());
}

#[test]
fn media_jitter_is_applied_without_mutating_config() {
    let mut cfg = config(MediaType::Ssd);
    cfg.jitter = Some(JitterConfig {
        max_delay: 9,
        seed: 0x1234,
    });
    let model = MediaModel::new(cfg.clone()).unwrap();
    assert_eq!(model.config(), &cfg);
    assert!(model.config().jitter.is_some());
}

#[test]
fn bad_block_and_bounds_are_distinct_errors() {
    let mut cfg = config(MediaType::Ssd);
    cfg.device_script.bad_ranges = vec![ByteRange { offset: 8, len: 4 }];
    let mut model = MediaModel::new(cfg).unwrap();
    assert!(matches!(
        model.write_at(8, &[1; 4]),
        Err(MediaError::Device(DeviceError::Injected { .. }))
    ));
    assert_eq!(
        model.read_at(63, &mut [0; 2]),
        Err(MediaError::Device(DeviceError::OutOfBounds {
            offset: 63,
            len: 2,
            capacity: 64
        }))
    );
    assert_eq!(
        model
            .trace()
            .iter()
            .map(|event| &event.outcome)
            .collect::<Vec<_>>(),
        vec![
            &DeviceEventOutcome::Failed,
            &DeviceEventOutcome::Failed,
        ]
    );
    assert_eq!(model.trace()[0].kind, DeviceEventKind::Write);
    assert_eq!(model.trace()[1].kind, DeviceEventKind::Read);
    assert_eq!(
        model.profile_trace()[0].outcome,
        MediaTraceOutcome::Failed {
            kind: MediaFailureKind::BadMedia
        }
    );
    assert_eq!(
        model.profile_trace()[1].outcome,
        MediaTraceOutcome::Failed {
            kind: MediaFailureKind::Bounds
        }
    );
}

#[test]
fn invalid_range_is_traced_without_moving_hdd_head() {
    let mut model = MediaModel::new(config(MediaType::Hdd)).unwrap();
    assert!(model.read_at(64, &mut [0]).is_err());
    model.read_at(4, &mut [0]).unwrap();
    // The rejected request still consumes the device's base operation
    // latency, but it must not move the HDD head.
    assert_eq!(model.virtual_time(), 28);
    assert_eq!(model.trace()[0].kind, DeviceEventKind::Read);
}

#[test]
fn crash_discards_volatile_data_but_flush_makes_it_durable() {
    let mut model = MediaModel::new(config(MediaType::Ssd)).unwrap();
    model.write_at(0, &[9; 4]).unwrap();
    assert_eq!(&model.durable_bytes()[..4], &[0; 4]);
    model.crash();
    let mut read = [0; 4];
    model.read_at(0, &mut read).unwrap();
    assert_eq!(read, [0; 4]);

    model.write_at(0, &[7; 4]).unwrap();
    model.flush_data().unwrap();
    model.write_at(0, &[3; 4]).unwrap();
    model.crash();
    model.read_at(0, &mut read).unwrap();
    assert_eq!(read, [7; 4]);
}

#[test]
fn injected_fault_keeps_device_error_details_and_trace_metadata() {
    let mut cfg = config(MediaType::Ssd);
    cfg.device_script.rules.push(DeviceRule {
        selector: EventSelector {
            kind: DeviceEventKind::Write,
            occurrence: EventOccurrence::Any,
            range: None,
        },
        effect: DeviceEffect::Fail,
    });
    let mut model = MediaModel::new(cfg).unwrap();
    assert!(matches!(
        model.write_at(0, &[1]),
        Err(MediaError::Device(DeviceError::Injected { .. }))
    ));
    let event = &model.trace()[0];
    assert_eq!(event.outcome, DeviceEventOutcome::Failed);
    assert_eq!(event.script_effect, Some(DeviceEffect::Fail));
}

#[test]
fn profile_delay_saturates_without_overflow() {
    let mut cfg = config(MediaType::Hdd);
    cfg.base_latency = u64::MAX;
    cfg.hdd_seek_latency = u64::MAX;
    cfg.device_script.latency.read_ticks = u64::MAX;
    let mut model = MediaModel::new(cfg).unwrap();
    model.read_at(1, &mut [0]).unwrap();
    assert_eq!(model.virtual_time(), u64::MAX);
}


#[test]
fn media_and_device_jitter_cannot_be_merged() {
    let mut cfg = config(MediaType::Ssd);
    cfg.jitter = Some(JitterConfig {
        max_delay: 1,
        seed: 7,
    });
    cfg.device_script.latency.jitter_ticks = 1;
    assert!(matches!(
        MediaModel::new(cfg.clone()),
        Err(MediaError::InvalidConfig(
            "media jitter and device script jitter cannot both be configured"
        ))
    ));
    cfg.device_script.latency.jitter_ticks = 0;
    cfg.device_script.latency.seed = 7;
    cfg.jitter = Some(JitterConfig {
        max_delay: 0,
        seed: 8,
    });
    assert!(matches!(
        MediaModel::new(cfg),
        Err(MediaError::InvalidConfig(
            "media jitter and device script jitter cannot both be configured"
        ))
    ));
}

#[test]
fn ssd_slowdown_counts_attempted_valid_write_bytes() {
    let mut cfg = config(MediaType::Ssd);
    cfg.base_latency = 0;
    cfg.ssd_slowdown = vec![
        SsdSlowdownSegment {
            after_bytes: 1,
            extra_delay: 5,
        },
        SsdSlowdownSegment {
            after_bytes: 3,
            extra_delay: 7,
        },
    ];
    cfg.device_script.rules = vec![
        DeviceRule {
            selector: EventSelector {
                kind: DeviceEventKind::Write,
                occurrence: EventOccurrence::Exact(0),
                range: None,
            },
            effect: DeviceEffect::Fail,
        },
        DeviceRule {
            selector: EventSelector {
                kind: DeviceEventKind::Write,
                occurrence: EventOccurrence::Exact(1),
                range: None,
            },
            effect: DeviceEffect::Drop,
        },
        DeviceRule {
            selector: EventSelector {
                kind: DeviceEventKind::Write,
                occurrence: EventOccurrence::Exact(2),
                range: None,
            },
            effect: DeviceEffect::Short { bytes: 1 },
        },
    ];
    let mut model = MediaModel::new(cfg).unwrap();
    assert!(model.write_at(0, &[1, 2]).is_err());
    assert!(model.write_at(4, &[1, 2]).is_ok());
    assert!(model.write_at(8, &[1, 2]).is_err());

    assert_eq!(model.virtual_time(), 29);
    assert_eq!(
        model.profile_trace()[2].outcome,
        MediaTraceOutcome::Failed {
            kind: MediaFailureKind::ShortOrTorn,
        }
    );
}

#[test]
fn hdd_head_uses_transferred_interval_for_contiguous_reads() {
    let mut cfg = config(MediaType::Hdd);
    cfg.base_latency = 0;
    let mut model = MediaModel::new(cfg).unwrap();
    model.write_at(8, &[1, 2, 3, 4]).unwrap();
    let mut first = [0; 4];
    model.read_at(12, &mut first).unwrap();
    let mut second = [0; 4];
    model.read_at(16, &mut second).unwrap();

    assert_eq!(model.virtual_time(), 16);
    assert_eq!(model.profile_trace()[1].sequence, model.trace()[1].sequence);
    assert_eq!(model.profile_trace()[2].sequence, model.trace()[2].sequence);
}

#[test]
fn hdd_head_uses_full_transfer_for_crash_after() {
    let mut cfg = config(MediaType::Hdd);
    cfg.base_latency = 0;
    cfg.hdd_seek_latency = 1;
    cfg.device_script.rules = vec![DeviceRule {
        selector: EventSelector {
            kind: DeviceEventKind::Write,
            occurrence: EventOccurrence::Exact(0),
            range: None,
        },
        effect: DeviceEffect::CrashAfter,
    }];
    let mut model = MediaModel::new(cfg).unwrap();
    assert!(model.write_at(8, &[1; 4]).is_err());
    model.read_at(12, &mut [0]).unwrap();
    assert_eq!(model.profile_trace()[1].delay, 0);
}

#[test]
fn block_device_trait_returns_device_errors_and_preserves_effects() {
    let mut cfg = config(MediaType::Ssd);
    cfg.device_script.rules.push(DeviceRule {
        selector: EventSelector {
            kind: DeviceEventKind::Write,
            occurrence: EventOccurrence::Exact(0),
            range: None,
        },
        effect: DeviceEffect::Drop,
    });
    let mut model = MediaModel::new(cfg).unwrap();
    let device: &mut dyn BlockDevice = &mut model;
    device.write_at(0, &[9; 4]).unwrap();
    assert_eq!(device.len(), 64);
    assert_eq!(model.trace()[0].outcome, DeviceEventOutcome::Dropped);
}

#[test]
fn media_latency_is_added_to_the_script_and_not_to_the_config() {
    let mut cfg = config(MediaType::Ssd);
    cfg.base_latency = 17;
    cfg.device_script.latency.write_ticks = 3;
    let model = MediaModel::new(cfg.clone()).unwrap();
    assert_eq!(model.config(), &cfg);
    assert_eq!(model.compiled_script().latency.write_ticks, 20);
}
