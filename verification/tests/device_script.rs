//! The scripted simulated disk.
use cairn::device::block::{BlockDevice, DeviceError, FaultKind, InjectionSite};
use cairn::device::script::{
    ByteRange, DeviceEffect, DeviceEventKind, DeviceEventOutcome, DeviceRule, DeviceScript,
    EventOccurrence, EventSelector, LatencyProfile, ReorderPolicy,
};
use cairn::device::sim::{mix, SimDisk};

fn rule(
    kind: DeviceEventKind,
    occurrence: EventOccurrence,
    effect: DeviceEffect,
) -> DeviceRule {
    DeviceRule {
        selector: EventSelector {
            kind,
            occurrence,
            range: None,
        },
        effect,
    }
}

#[test]
fn volatile_data_is_lost_and_flushed_data_survives_power_loss() {
    let mut disk = SimDisk::new(16);
    disk.write_at(2, b"abc").unwrap();
    disk.power_loss();
    assert_eq!(&disk.durable_bytes()[2..5], b"\0\0\0");
    disk.write_at(2, b"abc").unwrap();
    disk.flush_data().unwrap();
    disk.power_loss();
    assert_eq!(&disk.durable_bytes()[2..5], b"abc");
}

#[test]
fn script_is_event_and_range_based() {
    let script = DeviceScript {
        rules: vec![DeviceRule {
            selector: EventSelector {
                kind: DeviceEventKind::Write,
                occurrence: EventOccurrence::Exact(0),
                range: Some(ByteRange { offset: 2, len: 2 }),
            },
            effect: DeviceEffect::Short { bytes: 2 },
        }],
        ..Default::default()
    };
    let mut disk = SimDisk::from_script(16, script).unwrap();
    assert!(matches!(
        disk.write_at(0, b"abcd"),
        Err(DeviceError::Injected {
            at: InjectionSite::Event(0),
            kind: FaultKind::ShortIo
        })
    ));
    assert_eq!(disk.trace()[0].script_rule, Some(0));
    assert_eq!(
        disk.trace()[0].script_effect,
        Some(DeviceEffect::Short { bytes: 2 })
    );
    disk.flush_data().unwrap();
    assert_eq!(&disk.durable_bytes()[..4], b"ab\0\0");
}

#[test]
fn torn_writes_are_atomic_unit_bounded_and_replayable() {
    let script = DeviceScript {
        atomic_unit: 2,
        rules: vec![rule(
            DeviceEventKind::Write,
            EventOccurrence::Exact(0),
            DeviceEffect::Tear { durable_prefix: 3 },
        )],
        ..Default::default()
    };
    let mut disk = SimDisk::from_script(8, script).unwrap();
    disk.write_at(0, b"abcd").unwrap();
    disk.flush_data().unwrap();
    assert_eq!(&disk.durable_bytes()[..4], b"ab\0\0");
    assert_eq!(
        disk.trace()[0].outcome,
        DeviceEventOutcome::Torn { durable_prefix: 2 }
    );
}

#[test]
fn flush_reorder_is_device_local_and_seeded() {
    let script = DeviceScript {
        reorder: Some(ReorderPolicy::Reverse),
        ..Default::default()
    };
    let mut disk = SimDisk::from_script(4, script).unwrap();
    disk.write_at(0, b"aaaa").unwrap();
    disk.write_at(0, b"bbbb").unwrap();
    disk.flush_data().unwrap();
    assert_eq!(disk.durable_bytes(), b"aaaa");
}

#[test]
fn bad_ranges_and_latency_are_device_properties() {
    let script = DeviceScript {
        latency: LatencyProfile {
            write_ticks: 5,
            flush_data_ticks: 7,
            ..Default::default()
        },
        bad_ranges: vec![ByteRange { offset: 2, len: 2 }],
        ..Default::default()
    };
    let mut disk = SimDisk::from_script(16, script).unwrap();
    assert!(matches!(
        disk.write_at(0, b"abcd"),
        Err(DeviceError::Injected {
            kind: FaultKind::MediaError,
            ..
        })
    ));
    assert_eq!(disk.virtual_time(), 5);
    disk.write_at(0, b"a").unwrap();
    disk.flush_data().unwrap();
    assert_eq!(disk.virtual_time(), 17);
}

#[test]
fn bad_range_precedes_a_write_script_rule_without_a_false_hit() {
    let script = DeviceScript {
        bad_ranges: vec![ByteRange { offset: 0, len: 4 }],
        rules: vec![rule(
            DeviceEventKind::Write,
            EventOccurrence::Exact(0),
            DeviceEffect::CrashBefore,
        )],
        ..Default::default()
    };
    let mut disk = SimDisk::from_script(8, script).unwrap();
    assert!(matches!(
        disk.write_at(0, b"abcd"),
        Err(DeviceError::Injected {
            kind: FaultKind::MediaError,
            ..
        })
    ));
    assert_eq!(disk.script_rule_hits().as_slice(), &[false]);
    assert_eq!(disk.trace()[0].script_rule, None);
    assert_eq!(disk.trace()[0].script_effect, None);
}

#[test]
fn bad_range_precedes_a_read_script_rule_without_a_false_hit() {
    let script = DeviceScript {
        bad_ranges: vec![ByteRange { offset: 0, len: 1 }],
        rules: vec![rule(
            DeviceEventKind::Read,
            EventOccurrence::Exact(0),
            DeviceEffect::Fail,
        )],
        ..Default::default()
    };
    let mut disk = SimDisk::from_script(8, script).unwrap();
    let mut byte = [0];
    assert!(matches!(
        disk.read_at(0, &mut byte),
        Err(DeviceError::Injected {
            kind: FaultKind::MediaError,
            ..
        })
    ));
    assert_eq!(disk.script_rule_hits().as_slice(), &[false]);
    assert_eq!(disk.trace()[0].script_rule, None);
    assert_eq!(disk.trace()[0].script_effect, None);
}

#[test]
fn script_validation_rejects_ambiguous_rules() {
    let script = DeviceScript {
        rules: vec![
            rule(
                DeviceEventKind::Write,
                EventOccurrence::Exact(0),
                DeviceEffect::Fail,
            ),
            rule(
                DeviceEventKind::Write,
                EventOccurrence::Exact(0),
                DeviceEffect::Timeout,
            ),
        ],
        ..Default::default()
    };
    assert!(matches!(
        SimDisk::from_script(8, script),
        Err(DeviceError::InvalidConfig(_))
    ));

    let script = DeviceScript {
        rules: vec![
            DeviceRule {
                selector: EventSelector {
                    kind: DeviceEventKind::Write,
                    occurrence: EventOccurrence::Exact(0),
                    range: Some(ByteRange { offset: 0, len: 1 }),
                },
                effect: DeviceEffect::Fail,
            },
            DeviceRule {
                selector: EventSelector {
                    kind: DeviceEventKind::Write,
                    occurrence: EventOccurrence::Exact(0),
                    range: Some(ByteRange { offset: 2, len: 1 }),
                },
                effect: DeviceEffect::Timeout,
            },
        ],
        ..Default::default()
    };
    assert!(matches!(
        SimDisk::from_script(8, script),
        Err(DeviceError::InvalidConfig(_))
    ));
}

#[test]
fn virtual_latency_and_trace_have_no_wall_clock_dependency() {
    let script = DeviceScript {
        latency: LatencyProfile {
            read_ticks: 2,
            write_ticks: 5,
            flush_data_ticks: 7,
            flush_all_ticks: 11,
            ..Default::default()
        },
        ..Default::default()
    };
    let mut disk = SimDisk::from_script(16, script).unwrap();
    disk.write_at(0, b"x").unwrap();
    disk.flush_data().unwrap();
    let mut byte = [0];
    disk.read_at(0, &mut byte).unwrap();
    disk.flush_all().unwrap();
    assert_eq!(disk.virtual_time(), 25);
    assert_eq!(disk.trace().len(), 4);
}

#[test]
fn partial_flush_and_crash_preserve_only_the_device_durable_prefix() {
    let script = DeviceScript {
        flush_data_writes: Some(1),
        ..Default::default()
    };
    let mut disk = SimDisk::from_script(8, script).unwrap();
    disk.write_at(0, b"aaaa").unwrap();
    disk.write_at(4, b"bbbb").unwrap();
    disk.flush_data().unwrap();
    assert_eq!(disk.durable_bytes(), b"aaaa\0\0\0\0");
    assert_eq!(disk.pending_writes(), 1);
    disk.power_loss();
    assert_eq!(disk.durable_bytes(), b"aaaa\0\0\0\0");
    assert_eq!(disk.pending_writes(), 0);
}

#[test]
fn crash_before_is_recorded_as_the_failed_target_event() {
    let script = DeviceScript {
        rules: vec![rule(
            DeviceEventKind::Write,
            EventOccurrence::Exact(0),
            DeviceEffect::CrashBefore,
        )],
        ..Default::default()
    };
    let mut disk = SimDisk::from_script(8, script).unwrap();
    assert!(matches!(
        disk.write_at(0, b"x"),
        Err(DeviceError::Injected {
            at: InjectionSite::Event(0),
            kind: FaultKind::Crashed
        })
    ));
    assert_eq!(disk.trace().len(), 1);
    assert_eq!(disk.trace()[0].outcome, DeviceEventOutcome::Crashed);
    assert_eq!(disk.trace()[0].kind, DeviceEventKind::Write);
}

#[test]
fn tear_and_crash_persists_complete_atomic_units_before_power_loss() {
    let script = DeviceScript {
        atomic_unit: 2,
        rules: vec![rule(
            DeviceEventKind::Write,
            EventOccurrence::Exact(0),
            DeviceEffect::TearAndCrashAfter { durable_prefix: 3 },
        )],
        ..Default::default()
    };
    let mut disk = SimDisk::from_script(8, script).unwrap();
    assert!(matches!(
        disk.write_at(0, b"abcd"),
        Err(DeviceError::Injected {
            kind: FaultKind::Crashed,
            ..
        })
    ));
    assert_eq!(&disk.durable_bytes()[..4], b"ab\0\0");
}

#[test]
fn oversized_short_write_is_rejected_before_mutation() {
    let script = DeviceScript {
        rules: vec![rule(
            DeviceEventKind::Write,
            EventOccurrence::Exact(0),
            DeviceEffect::Short { bytes: 2 },
        )],
        ..Default::default()
    };
    let mut disk = SimDisk::from_script(8, script).unwrap();
    assert!(matches!(
        disk.write_at(0, b"x"),
        Err(DeviceError::InvalidConfig(_))
    ));
    assert_eq!(disk.durable_bytes(), &[0; 8]);
}

#[test]
fn full_length_short_write_is_rejected_before_mutation() {
    let script = DeviceScript {
        rules: vec![rule(
            DeviceEventKind::Write,
            EventOccurrence::Exact(0),
            DeviceEffect::Short { bytes: 1 },
        )],
        ..Default::default()
    };
    let mut disk = SimDisk::from_script(8, script).unwrap();
    assert!(matches!(
        disk.write_at(0, b"x"),
        Err(DeviceError::InvalidConfig(_))
    ));
    assert_eq!(disk.durable_bytes(), &[0; 8]);
    assert_eq!(disk.pending_writes(), 0);
}


#[test]
fn byte_level_reference_model_matches_ten_thousand_schedules() {
    for seed in 0..10_000u64 {
        let mut disk = SimDisk::new(64);
        let mut durable = vec![0; 64];
        let mut volatile = durable.clone();
        let mut pending = Vec::<(usize, Vec<u8>)>::new();
        let mut state = seed;
        for _ in 0..32 {
            state = mix(state, 1);
            let offset = (state % 56) as usize;
            let len = 1 + (mix(state, 2) % 8) as usize;
            match state % 6 {
                0 | 1 => {
                    let bytes: Vec<u8> = (0..len)
                        .map(|index| mix(state, index as u64) as u8)
                        .collect();
                    disk.write_at(offset as u64, &bytes).unwrap();
                    volatile[offset..offset + len].copy_from_slice(&bytes);
                    pending.push((offset, bytes));
                }
                2 => {
                    let mut actual = vec![0; len];
                    disk.read_at(offset as u64, &mut actual).unwrap();
                    assert_eq!(actual, volatile[offset..offset + len]);
                }
                3 => {
                    disk.flush_data().unwrap();
                    for (write_offset, bytes) in pending.drain(..) {
                        durable[write_offset..write_offset + bytes.len()]
                            .copy_from_slice(&bytes);
                    }
                }
                4 => {
                    disk.flush_all().unwrap();
                    for (write_offset, bytes) in pending.drain(..) {
                        durable[write_offset..write_offset + bytes.len()]
                            .copy_from_slice(&bytes);
                    }
                }
                _ => {
                    disk.power_loss();
                    volatile.clone_from(&durable);
                    pending.clear();
                }
            }
            assert_eq!(disk.durable_bytes(), durable);
        }
    }
}
