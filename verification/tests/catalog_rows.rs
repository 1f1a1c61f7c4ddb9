//! What the durable catalog decides from its rows.
use cairn::catalog::batch::{insert_plan, version_order, BatchEnd, BatchStep};
use cairn::catalog::ddl::{durable_settings, same_ddl, schema_step, SchemaStep};
use cairn::catalog::records::{
    CatalogBatch, CatalogOperationState, CatalogVersion, ClaimIntentOutcome, CollectionRecord,
    CoordinatorEpoch, CrashPoint, EpochClaim, FileRecord, HeadRecord, IntentRecord,
    MembershipRecord, OperationRecord, PrincipalRecord, ReadAuthorization, RecoveryWork,
    T2Outcome, T3Outcome, TombstoneTerminal, VersionRecord, DAG_DURABILITY_SEAM,
};
use cairn::catalog::sqlite_catalog::{
    abort, acquire_reader_lease, advance_version_allocator, allocate_id, apply_publish,
    begun_operation, bootstrap_allocator, cas_owner_epoch, claim_coordinator_epoch, claim_intent,
    create_collection, create_file, decimal_text, operation_state, prepare_publish,
    read_authorization, reader_lease_active, record_operation, recovery_work, t1_prepare,
    t2_record_candidate, t2_record_candidate_typed, t2_record_version, t3_publish,
    t3_publish_in_transaction, version_matches, ClaimDecision, CreateStep, PreparePlan,
    PrepareRows, PublishPlan, PublishRows, ReaderLease, T2Plan,
};

fn principal(id: u64, authz_epoch: u64) -> PrincipalRecord {
    PrincipalRecord {
        id,
        kind: "user".to_string(),
        state: "active".to_string(),
        authz_epoch,
    }
}

fn version(id: u64, commit: u8, digest: u8) -> VersionRecord {
    VersionRecord {
        id,
        file_id: 20,
        generation: 1,
        commit_id: [commit; 32],
        parent_version_id: None,
        size: 1,
        digest: [digest; 32],
    }
}

fn operation(operation_id: u64, actor_id: u64, fingerprint: u8) -> OperationRecord {
    OperationRecord {
        operation_id,
        actor_id,
        kind: "publish".to_string(),
        request_fingerprint: [fingerprint; 32],
        state: "prepared".to_string(),
        result: None,
        error: None,
    }
}

fn intent(operation_id: u64, actor_id: u64, nonce: u64, fingerprint: u8) -> IntentRecord {
    IntentRecord {
        operation_id,
        actor_id,
        file_id: 20,
        owner_epoch: 0,
        owner_nonce: nonce,
        expected_head_version_id: None,
        expected_head_generation: 0,
        candidate_version_id: None,
        state: "preparing".to_string(),
        abort_reason: None,
        pinned: true,
        request_fingerprint: [fingerprint; 32],
        authz_epoch: 0,
    }
}

fn durable(operation_id: u64, actor_id: u64, fingerprint: u8, candidate: u64) -> IntentRecord {
    IntentRecord {
        candidate_version_id: Some(candidate),
        state: "commit_durable".to_string(),
        ..intent(operation_id, actor_id, 1, fingerprint)
    }
}

fn empty_head() -> HeadRecord {
    HeadRecord {
        file_id: 20,
        version_id: None,
        generation: 0,
    }
}

fn v1_batch() -> CatalogBatch {
    CatalogBatch {
        principals: vec![principal(1, 0)],
        memberships: vec![],
        collections: vec![CollectionRecord {
            id: 10,
            owner_id: 1,
            name: "docs".to_string(),
        }],
        files: vec![FileRecord {
            id: 20,
            collection_id: 10,
            name: "readme".to_string(),
        }],
        heads: vec![empty_head()],
        versions: vec![],
        intents: vec![],
        operations: vec![],
    }
}

#[test]
fn owner_epoch_cas_and_stale_owner_fence() {
    let mut current = 0;
    assert!(cas_owner_epoch(current, 0, 7));
    current = 7;
    assert!(!cas_owner_epoch(current, 0, 8));
    assert_eq!(current, 7);
    assert!(!cas_owner_epoch(current, 7, 7));
    assert!(!cas_owner_epoch(current, 7, 6));
}

#[test]
fn each_sqlite_cut_point_rolls_back_every_table() {
    let base = v1_batch();
    for cut in [
        CrashPoint::AfterCollections,
        CrashPoint::AfterFiles,
        CrashPoint::AfterVersions,
        CrashPoint::AfterIntents,
        CrashPoint::AfterResults,
    ] {
        let plan = insert_plan(&base, &vec![], cut);
        assert_eq!(plan.end, BatchEnd::CutShort);
    }
    assert_eq!(insert_plan(&base, &vec![], CrashPoint::Never).end, BatchEnd::Complete);
}

#[test]
fn a_cut_point_ends_the_batch_behind_its_table() {
    let plan = insert_plan(&v1_batch(), &vec![], CrashPoint::AfterCollections);
    assert_eq!(
        plan.steps,
        vec![BatchStep::Principal(0), BatchStep::Collection(0)]
    );
    let plan = insert_plan(&v1_batch(), &vec![], CrashPoint::AfterFiles);
    assert_eq!(
        plan.steps,
        vec![
            BatchStep::Principal(0),
            BatchStep::Collection(0),
            BatchStep::File(0)
        ]
    );
}

#[test]
fn non_empty_head_batch_inserts_versions_before_heads() {
    let mut b = v1_batch();
    b.versions.push(version(30, 1, 2));
    b.heads[0] = HeadRecord {
        file_id: 20,
        version_id: Some(30),
        generation: 1,
    };
    let plan = insert_plan(&b, &vec![], CrashPoint::Never);
    assert_eq!(plan.end, BatchEnd::Complete);
    let at = |step: BatchStep| plan.steps.iter().position(|s| *s == step).unwrap();
    assert!(at(BatchStep::Version(0)) < at(BatchStep::Head(0)));
    let versions = |s: &&BatchStep| matches!(s, BatchStep::Version(_));
    assert_eq!(plan.steps.iter().filter(versions).count(), 1);
    let heads = |s: &&BatchStep| matches!(s, BatchStep::Head(_));
    assert_eq!(plan.steps.iter().filter(heads).count(), 1);
}

#[test]
fn versions_are_recorded_behind_their_parents() {
    let child = VersionRecord {
        generation: 2,
        parent_version_id: Some(30),
        ..version(31, 3, 4)
    };
    assert_eq!(
        version_order(&vec![child, version(30, 1, 2)], &vec![]),
        (vec![1, 0], true)
    );
    let orphan = VersionRecord {
        parent_version_id: Some(31),
        ..version(30, 1, 2)
    };
    assert_eq!(
        version_order(&vec![child, orphan], &vec![]),
        (vec![], false)
    );
    let mut b = v1_batch();
    b.versions = vec![child, orphan];
    assert_eq!(insert_plan(&b, &vec![], CrashPoint::Never).end, BatchEnd::Invalid);
}

#[test]
fn a_stored_parent_lets_its_child_be_recorded() {
    let child = VersionRecord {
        parent_version_id: Some(30),
        ..version(31, 3, 4)
    };
    let parent = VersionRecord {
        parent_version_id: Some(31),
        ..version(30, 1, 2)
    };
    assert_eq!(
        version_order(&vec![child, parent], &vec![30]),
        (vec![0, 1], true)
    );
    assert_eq!(
        version_order(&vec![child, parent], &vec![31]),
        (vec![1, 0], true)
    );
    let mut b = v1_batch();
    b.versions = vec![child, parent];
    let plan = insert_plan(&b, &vec![30], CrashPoint::Never);
    assert_eq!(plan.end, BatchEnd::Complete);
    let orphan = VersionRecord {
        parent_version_id: Some(99),
        ..version(32, 5, 6)
    };
    assert_eq!(
        version_order(&vec![version(30, 1, 2), orphan, child], &vec![99]),
        (vec![0], false)
    );
    b.versions = vec![version(30, 1, 2), orphan];
    let plan = insert_plan(&b, &vec![99], CrashPoint::AfterVersions);
    assert_eq!(plan.end, BatchEnd::Invalid);
    assert_eq!(plan.steps.last(), Some(&BatchStep::Version(0)));
}

#[test]
fn version_allocator_is_global_and_retries_use_the_durable_candidate() {
    let mut next_id = advance_version_allocator(1, 30).unwrap();
    let mut intents = [
        Some(intent(40, 1, 7, 4)),
        Some(IntentRecord {
            file_id: 21,
            ..intent(41, 1, 8, 5)
        }),
    ];
    let operations = [operation(40, 1, 4), operation(41, 1, 5)];
    for (i, nonce) in [(0usize, 7u64), (1, 8)] {
        let found = intents[i].as_ref().unwrap();
        assert!(t1_prepare(
            found,
            &Some(operations[i].clone()),
            &Some(principal(1, 0))
        )
        .is_some());
        let recorded = CatalogVersion {
            id: 0,
            file_id: found.file_id,
            generation: 1,
            commit_id: [9; 32],
            parent_version_id: None,
            size: 2,
            digest: [8; 32],
        };
        match t2_record_version(
            &intents[i],
            0,
            CoordinatorEpoch::zero(),
            nonce,
            &recorded,
            next_id,
        ) {
            T2Plan::Record {
                version_id,
                allocator,
            } => {
                if let Some(after) = allocator {
                    next_id = after;
                }
                assert_eq!(
                    t2_record_candidate_typed(
                        &mut intents[i],
                        0,
                        CoordinatorEpoch::zero(),
                        nonce,
                        version_id
                    ),
                    T2Outcome::Applied
                );
            }
            other => panic!("{other:?}"),
        }
    }
    assert_eq!(intents[0].as_ref().unwrap().candidate_version_id, Some(31));
    assert_eq!(intents[1].as_ref().unwrap().candidate_version_id, Some(32));
    let stored = CatalogVersion {
        id: 31,
        file_id: 20,
        generation: 1,
        commit_id: [9; 32],
        parent_version_id: None,
        size: 2,
        digest: [8; 32],
    };
    assert_eq!(
        t2_record_version(
            &intents[0],
            0,
            CoordinatorEpoch::zero(),
            7,
            &stored,
            next_id
        ),
        T2Plan::Verify { version_id: 31 }
    );
    assert!(version_matches(&Some(stored), 31, &stored));
    assert!(!version_matches(&None, 31, &stored));
    assert!(!version_matches(
        &Some(stored),
        31,
        &CatalogVersion { size: 3, ..stored }
    ));
}

#[test]
fn operation_idempotency_and_t1_t2_t3_abort_fence() {
    let mut operations = vec![operation(40, 1, 3)];
    assert!(record_operation(&mut operations, &operation(41, 1, 4)));
    assert!(!record_operation(&mut operations, &operation(41, 1, 3)));
    let mut row = t1_prepare(
        &IntentRecord {
            pinned: false,
            ..intent(41, 1, 9, 4)
        },
        &Some(operations[1].clone()),
        &Some(principal(1, 0)),
    );
    assert!(row.is_some());
    assert!(t2_record_candidate(&mut row, 0, 0, 9, 30));
    let rows = PublishRows {
        intent: row,
        operation: Some(operations[1].clone()),
        principal: Some(principal(1, 0)),
        owner: Some(1),
        memberships: vec![],
        version: Some(version(30, 1, 2)),
        head: Some(empty_head()),
    };
    let (published, rows) = t3_publish(rows, 0, 0, 41, 9);
    assert_eq!(published, Some(true));
    assert_eq!(operations[0].state, "prepared");
    let ended = rows.operation.as_ref().unwrap();
    assert_eq!(ended.state, "succeeded");
    assert_eq!(ended.result, Some("version:30".to_string()));
    assert_eq!(
        rows.head,
        Some(HeadRecord {
            file_id: 20,
            version_id: Some(30),
            generation: 1
        })
    );
    let (again, rows) = t3_publish(rows, 0, 0, 41, 9);
    assert_eq!(again, Some(false));
    let mut row = rows.intent;
    let mut ended = rows.operation;
    assert!(!abort(&mut row, &mut ended, 0, 0, 9, "stale"));
    assert_eq!(ended.unwrap().state, "succeeded");
    assert_eq!(row.unwrap().state, "published");
}

#[test]
fn t3_missing_operation_and_fingerprint_conflicts_fail_closed() {
    let prepared = IntentRecord {
        candidate_version_id: Some(30),
        pinned: false,
        ..intent(50, 1, 1, 8)
    };
    assert!(t1_prepare(&prepared, &None, &Some(principal(1, 0))).is_none());

    let mut operations = vec![];
    assert!(record_operation(&mut operations, &operation(60, 1, 8)));
    assert!(!record_operation(&mut operations, &operation(61, 1, 8)));
    assert!(!record_operation(&mut operations, &operation(60, 1, 9)));
    assert_eq!(operations, vec![operation(60, 1, 8)]);
}

#[test]
fn typed_recovery_claims_nonterminal_and_preserves_tombstones_after_reopen() {
    let prepared = t1_prepare(
        &IntentRecord {
            candidate_version_id: Some(30),
            pinned: false,
            ..intent(70, 1, 11, 7)
        },
        &Some(operation(70, 1, 7)),
        &Some(principal(1, 0)),
    )
    .unwrap();
    assert_eq!(prepared.candidate_version_id, None);
    assert!(matches!(
        recovery_work(vec![prepared.clone()]).as_slice(),
        [RecoveryWork::Resume(_)]
    ));
    assert_eq!(
        claim_coordinator_epoch(
            CoordinatorEpoch::zero(),
            CoordinatorEpoch::zero(),
            CoordinatorEpoch::new(1)
        ),
        EpochClaim::Claimed(CoordinatorEpoch::new(1))
    );
    let claimed = match claim_intent(Some(prepared), 1, CoordinatorEpoch::new(1), 22) {
        ClaimDecision::Take(claimed) => claimed,
        _ => panic!("not claimed"),
    };
    assert_eq!((claimed.owner_epoch, claimed.owner_nonce), (1, 22));
    assert!(claimed.pinned);
    let mut row = Some(claimed);
    assert_eq!(
        t2_record_candidate_typed(&mut row, 1, CoordinatorEpoch::new(1), 22, 30),
        T2Outcome::Applied
    );
    let rows = PublishRows {
        intent: row,
        operation: Some(operation(70, 1, 7)),
        principal: Some(principal(1, 0)),
        owner: Some(1),
        memberships: vec![],
        version: Some(version(30, 1, 2)),
        head: Some(empty_head()),
    };
    let plan = t3_publish_in_transaction(&rows, 1, CoordinatorEpoch::new(1), 70, 22);
    assert_eq!(
        plan,
        PublishPlan::Publish {
            candidate: 30,
            generation: 1
        }
    );
    let rows = apply_publish(rows, 30, 1);
    assert_eq!(
        t3_publish_in_transaction(&rows, 1, CoordinatorEpoch::new(1), 70, 22),
        PublishPlan::Reply(T3Outcome::AlreadyPublished)
    );
    assert_eq!(
        t3_publish_in_transaction(&rows, 1, CoordinatorEpoch::zero(), 70, 22),
        PublishPlan::Reply(T3Outcome::Fenced)
    );
    assert!(matches!(
        recovery_work(vec![rows.intent.unwrap()]).as_slice(),
        [RecoveryWork::TombstoneDagBinding {
            terminal: TombstoneTerminal::Published,
            ..
        }]
    ));
}

#[test]
fn typed_epoch_and_fence_outcomes_are_explicit_and_authz_is_rechecked() {
    assert_eq!(
        claim_coordinator_epoch(
            CoordinatorEpoch::zero(),
            CoordinatorEpoch::zero(),
            CoordinatorEpoch::new(3)
        ),
        EpochClaim::Claimed(CoordinatorEpoch::new(3))
    );
    assert_eq!(
        claim_coordinator_epoch(
            CoordinatorEpoch::new(3),
            CoordinatorEpoch::new(3),
            CoordinatorEpoch::new(2)
        ),
        EpochClaim::Stale {
            current: CoordinatorEpoch::new(3)
        }
    );
    let mut missing = None;
    assert_eq!(
        t2_record_candidate_typed(&mut missing, 3, CoordinatorEpoch::new(2), 1, 1),
        T2Outcome::MissingIntent
    );
    let rows = PublishRows {
        intent: None,
        operation: None,
        principal: None,
        owner: None,
        memberships: vec![],
        version: None,
        head: None,
    };
    assert_eq!(
        t3_publish_in_transaction(&rows, 3, CoordinatorEpoch::new(2), 999, 1),
        PublishPlan::Reply(T3Outcome::MissingIntent)
    );
}

fn publishable() -> PublishRows {
    PublishRows {
        intent: Some(durable(80, 1, 8, 30)),
        operation: Some(operation(80, 1, 8)),
        principal: Some(principal(1, 0)),
        owner: Some(1),
        memberships: vec![],
        version: Some(version(30, 1, 2)),
        head: Some(empty_head()),
    }
}

fn outcome(rows: &PublishRows, op: u64) -> PublishPlan {
    t3_publish_in_transaction(rows, 0, CoordinatorEpoch::zero(), op, 1)
}

#[test]
fn typed_t3_rejects_authz_epoch_membership_revoke_and_head_conflict() {
    let rows = PublishRows {
        principal: Some(principal(1, 1)),
        ..publishable()
    };
    assert_eq!(
        outcome(&rows, 80),
        PublishPlan::Reply(T3Outcome::AuthorizationDenied)
    );

    let rows = PublishRows {
        intent: Some(durable(81, 2, 9, 31)),
        operation: Some(operation(81, 2, 9)),
        principal: Some(principal(2, 0)),
        owner: Some(1),
        memberships: vec![],
        version: Some(version(31, 3, 4)),
        head: Some(empty_head()),
    };
    assert_eq!(
        outcome(&rows, 81),
        PublishPlan::Reply(T3Outcome::AuthorizationDenied)
    );

    let rows = PublishRows {
        intent: Some(durable(82, 1, 10, 32)),
        operation: Some(operation(82, 1, 10)),
        principal: Some(principal(1, 0)),
        owner: Some(1),
        memberships: vec![],
        version: Some(version(32, 5, 6)),
        head: Some(HeadRecord {
            file_id: 20,
            version_id: Some(32),
            generation: 1,
        }),
    };
    assert_eq!(
        outcome(&rows, 82),
        PublishPlan::Reply(T3Outcome::HeadConflict)
    );
}

#[test]
fn every_other_refusal_of_a_publication_has_its_answer() {
    let rows = PublishRows {
        operation: None,
        ..publishable()
    };
    assert_eq!(
        outcome(&rows, 80),
        PublishPlan::Reply(T3Outcome::MissingOperation)
    );
    let rows = PublishRows {
        intent: Some(IntentRecord {
            state: "preparing".to_string(),
            ..durable(80, 1, 8, 30)
        }),
        ..publishable()
    };
    assert_eq!(
        outcome(&rows, 80),
        PublishPlan::Reply(T3Outcome::NotCommitDurable)
    );
    let rows = PublishRows {
        intent: Some(IntentRecord {
            candidate_version_id: None,
            ..durable(80, 1, 8, 30)
        }),
        ..publishable()
    };
    assert_eq!(
        outcome(&rows, 80),
        PublishPlan::Reply(T3Outcome::MissingCandidate)
    );
    let rows = PublishRows {
        version: Some(VersionRecord {
            generation: 2,
            ..version(30, 1, 2)
        }),
        ..publishable()
    };
    assert_eq!(
        outcome(&rows, 80),
        PublishPlan::Reply(T3Outcome::VersionConflict)
    );
    let member = PublishRows {
        owner: Some(7),
        memberships: vec![MembershipRecord {
            organization_id: 7,
            member_id: 1,
            capability: "write".to_string(),
        }],
        ..publishable()
    };
    assert_eq!(
        outcome(&member, 80),
        PublishPlan::Publish {
            candidate: 30,
            generation: 1
        }
    );
}

#[test]
fn claim_rejects_a_future_owner_epoch() {
    let row = IntentRecord {
        owner_epoch: 2,
        ..intent(90, 1, 1, 11)
    };
    assert!(matches!(
        claim_intent(Some(row), 0, CoordinatorEpoch::zero(), 2),
        ClaimDecision::Reply(ClaimIntentOutcome::FutureOwner { owner_epoch, current })
            if owner_epoch == CoordinatorEpoch::new(2) && current == CoordinatorEpoch::zero()
    ));
}

#[test]
fn a_claim_answers_missing_fenced_taken_and_ended_intents() {
    assert!(matches!(
        claim_intent(None, 1, CoordinatorEpoch::new(1), 2),
        ClaimDecision::Reply(ClaimIntentOutcome::Missing)
    ));
    assert!(matches!(
        claim_intent(Some(intent(90, 1, 1, 11)), 1, CoordinatorEpoch::zero(), 2),
        ClaimDecision::Reply(ClaimIntentOutcome::Fenced { current })
            if current == CoordinatorEpoch::new(1)
    ));
    assert!(matches!(
        claim_intent(Some(intent(90, 1, 1, 11)), 0, CoordinatorEpoch::zero(), 2),
        ClaimDecision::Reply(ClaimIntentOutcome::AlreadyClaimed { owner_nonce: 1, .. })
    ));
    let aborted = IntentRecord {
        state: "aborted".to_string(),
        ..intent(90, 1, 1, 11)
    };
    assert!(matches!(
        claim_intent(Some(aborted), 1, CoordinatorEpoch::zero(), 2),
        ClaimDecision::Reply(ClaimIntentOutcome::Terminal(_))
    ));
    let unknown = IntentRecord {
        state: "lost".to_string(),
        ..intent(90, 1, 1, 11)
    };
    assert!(matches!(
        claim_intent(Some(unknown), 1, CoordinatorEpoch::new(1), 2),
        ClaimDecision::Invalid
    ));
}

#[test]
fn preparing_a_publication_checks_epoch_actor_and_head() {
    let rows = |recorded: bool, epoch: u64, owner: u64| PrepareRows {
        recorded,
        coordinator_epoch: epoch,
        principal: Some(principal(1, 0)),
        owner: Some(owner),
        memberships: vec![],
        head: Some(empty_head()),
    };
    let op = operation(40, 1, 3);
    let wanted = intent(40, 1, 9, 3);
    assert_eq!(
        prepare_publish(&op, &wanted, &rows(false, 0, 1)),
        PreparePlan::Begin
    );
    assert_eq!(
        prepare_publish(&op, &wanted, &rows(true, 0, 1)),
        PreparePlan::Recorded
    );
    assert_eq!(
        prepare_publish(&op, &wanted, &rows(false, 5, 1)),
        PreparePlan::Invalid
    );
    assert_eq!(
        prepare_publish(&op, &wanted, &rows(false, 0, 2)),
        PreparePlan::Invalid
    );
    assert_eq!(
        prepare_publish(&operation(40, 1, 4), &wanted, &rows(true, 0, 1)),
        PreparePlan::Invalid
    );
}

#[test]
fn giving_up_ends_the_intent_and_fails_its_operation() {
    let mut row = Some(intent(40, 1, 9, 3));
    let mut op = Some(operation(40, 1, 3));
    assert!(!abort(&mut row, &mut op, 1, 0, 9, "stale"));
    assert!(abort(&mut row, &mut op, 0, 0, 9, "no longer wanted"));
    let ended = row.clone().unwrap();
    assert_eq!(ended.state, "aborted");
    assert_eq!(ended.abort_reason, Some("no longer wanted".to_string()));
    let failed = op.clone().unwrap();
    assert_eq!(failed.state, "failed");
    assert_eq!(failed.error, Some("no longer wanted".to_string()));
    assert!(!abort(&mut row, &mut op, 0, 0, 9, "again"));
}

#[test]
fn creation_is_refused_found_or_carried_out() {
    let actor = Some(principal(1, 0));
    assert_eq!(
        create_collection(1, &actor, None, None, Some(10)),
        CreateStep::Create {
            id: 11,
            next_id: 12
        }
    );
    assert_eq!(
        create_collection(1, &actor, Some(11), Some(12), Some(11)),
        CreateStep::Found { id: 11 }
    );
    assert_eq!(
        create_collection(1, &None, None, None, None),
        CreateStep::Refuse
    );
    assert_eq!(
        create_file(1, &actor, Some(2), None, None, None),
        CreateStep::Refuse
    );
    assert_eq!(
        create_file(1, &actor, Some(1), None, Some(21), None),
        CreateStep::Create {
            id: 21,
            next_id: 22
        }
    );
    assert_eq!(
        create_file(1, &actor, Some(1), None, Some(u64::MAX), None),
        CreateStep::Refuse
    );
    assert_eq!(bootstrap_allocator(None, 20), 21);
    assert_eq!(bootstrap_allocator(Some(30), 20), 30);
    assert_eq!(bootstrap_allocator(None, u64::MAX), u64::MAX);
    let begun = begun_operation(&operation(40, 1, 3));
    assert_eq!(begun.state, "in_progress");
}

#[test]
fn a_lease_ends_with_its_coordinator() {
    let lease = ReaderLease {
        lease_id: 1,
        file_id: 20,
        version_id: 30,
        actor_id: 1,
        coordinator_epoch: 4,
    };
    assert!(acquire_reader_lease(ReadAuthorization::Authorized, 4, 4));
    assert!(!acquire_reader_lease(ReadAuthorization::NotPublished, 4, 4));
    assert!(!acquire_reader_lease(ReadAuthorization::Authorized, 5, 4));
    assert!(reader_lease_active(&Some(lease), &lease, 4));
    assert!(!reader_lease_active(&Some(lease), &lease, 5));
    assert!(!reader_lease_active(&None, &lease, 4));
}

#[test]
fn reading_is_authorized_in_order() {
    let reader = Some(principal(1, 0));
    let none = vec![];
    assert_eq!(
        read_authorization(1, false, &reader, Some(1), &none, true),
        ReadAuthorization::Missing
    );
    assert_eq!(
        read_authorization(1, true, &reader, Some(2), &none, true),
        ReadAuthorization::Unauthorized
    );
    assert_eq!(
        read_authorization(1, true, &reader, Some(1), &none, false),
        ReadAuthorization::NotPublished
    );
    assert_eq!(
        read_authorization(1, true, &reader, Some(1), &none, true),
        ReadAuthorization::Authorized
    );
}

#[test]
fn allocators_stay_behind_what_is_in_use() {
    assert_eq!(allocate_id(None, None), Some((1, 2)));
    assert_eq!(allocate_id(None, Some(41)), Some((42, 43)));
    assert_eq!(allocate_id(Some(7), Some(41)), Some((7, 8)));
    assert_eq!(allocate_id(Some(u64::MAX), None), None);
    assert_eq!(advance_version_allocator(1, 41), Some(42));
    assert_eq!(advance_version_allocator(50, 41), Some(50));
    assert_eq!(advance_version_allocator(50, u64::MAX), None);
}

#[test]
fn numbers_and_state_words() {
    assert_eq!(decimal_text(0), "0");
    assert_eq!(decimal_text(1_234_567_890), "1234567890");
    assert_eq!(decimal_text(u64::MAX), u64::MAX.to_string());
    assert_eq!(
        operation_state("in_progress"),
        Some(CatalogOperationState::InProgress)
    );
    assert_eq!(
        operation_state("succeeded"),
        Some(CatalogOperationState::Succeeded)
    );
    assert_eq!(operation_state("failed"), Some(CatalogOperationState::Failed));
    assert_eq!(operation_state("prepared"), None);
    assert!(DAG_DURABILITY_SEAM.contains("not atomic"));
}

#[test]
fn settings_and_schemas_are_compared_as_they_are_stored() {
    assert!(durable_settings("WAL", 2, 1, true));
    assert!(durable_settings("memory", 2, 1, false));
    assert!(!durable_settings("memory", 2, 1, true));
    assert!(!durable_settings("wal", 1, 1, true));
    assert!(!durable_settings("wal", 2, 0, true));
    assert!(same_ddl(
        "CREATE  TABLE t(id\n INTEGER)",
        "create table if not exists t(id integer)"
    ));
    assert!(!same_ddl("CREATE TABLE t(id)", "CREATE TABLE u(id)"));
    assert_eq!(schema_step(false, false, None), SchemaStep::Create);
    assert_eq!(schema_step(false, true, None), SchemaStep::Reject);
    assert_eq!(schema_step(true, true, Some(1)), SchemaStep::Reject);
    assert_eq!(schema_step(true, true, Some(2)), SchemaStep::Migrate);
    assert_eq!(schema_step(true, true, Some(3)), SchemaStep::Use);
}
