//! What the transactions of the durable catalog owe to their callers, over the rows and the
//! words in them.
use vstd::prelude::*;

use crate::catalog::records::{
    CatalogVersion, ClaimIntentOutcome, CoordinatorEpoch, HeadRecord, IntentRecord, IntentRow,
    MembershipRecord, OperationRecord, OperationRow, PrincipalRecord, RecoveryIntent, RecoveryWork,
    T2Outcome, T3Outcome, VersionRecord,
};
use crate::catalog::sqlite_catalog::{
    abortable, aborted_intent, actor_may, advanced, allocated, begun, bootstrapped, claim_right,
    create_step, decimal, epoch_moves, failed_operation, inside, is_active, lemma_state_words,
    operation_ready, operation_row, prepare_plan, prepared, principal_ready, publish_plan,
    publish_right, published_head, published_intent, published_operation, recorded, row,
    stands_in_way, stored_as, t2_answer, t2_plan, well_classified, with_candidate, work_for,
    BootstrapRows, ClaimDecision, CreateStep, PrepareRows, PublishPlan, PublishRows, T2Plan,
};

verus! {

/// Whether the row is of a member of the organization with one of the words.
pub open spec fn member_with(
    membership: MembershipRecord,
    organization: u64,
    member: u64,
    capability: Seq<char>,
) -> bool {
    &&& membership.organization_id == organization
    &&& membership.member_id == member
    &&& membership.capability@ == capability
}

/// An owner may do anything with what it has, and a stranger nothing.
pub proof fn law_owners_and_strangers(
    owner: u64,
    actor: u64,
    memberships: Seq<MembershipRecord>,
    write: bool,
)
    ensures
        actor_may(Some(actor), memberships, actor, write),
        !actor_may(None, memberships, actor, write),
        owner != actor && (forall|i: int|
            0 <= i < memberships.len() ==> !((#[trigger] memberships[i]).organization_id == owner
                && memberships[i].member_id == actor)) ==> !actor_may(
            Some(owner),
            memberships,
            actor,
            write,
        ),
{
}

/// A member of the owning organization who may write or manages the members may publish and
/// read; one who may read may read.
pub proof fn law_members_may(
    owner: u64,
    actor: u64,
    memberships: Seq<MembershipRecord>,
    i: int,
)
    requires
        0 <= i < memberships.len(),
    ensures
        member_with(memberships[i], owner, actor, "write"@) || member_with(
            memberships[i],
            owner,
            actor,
            "manage_members"@,
        ) ==> actor_may(Some(owner), memberships, actor, true) && actor_may(
            Some(owner),
            memberships,
            actor,
            false,
        ),
        member_with(memberships[i], owner, actor, "read"@) ==> actor_may(
            Some(owner),
            memberships,
            actor,
            false,
        ),
{
    assert(memberships[i].organization_id == memberships[i].organization_id);
}

/// A member whose rows in the owning organization all let it read alone, or say something
/// else, may not publish; one none of whose rows there has a known word may not read.
pub proof fn law_members_may_not(owner: u64, actor: u64, memberships: Seq<MembershipRecord>)
    requires
        owner != actor,
    ensures
        (forall|i: int|
            0 <= i < memberships.len() && (#[trigger] memberships[i]).organization_id == owner
                && memberships[i].member_id == actor ==> memberships[i].capability@ != "write"@
                && memberships[i].capability@ != "manage_members"@) ==> !actor_may(
            Some(owner),
            memberships,
            actor,
            true,
        ),
        (forall|i: int|
            0 <= i < memberships.len() && (#[trigger] memberships[i]).organization_id == owner
                && memberships[i].member_id == actor ==> memberships[i].capability@ != "write"@
                && memberships[i].capability@ != "manage_members"@ && memberships[i].capability@
                != "read"@) ==> !actor_may(Some(owner), memberships, actor, false),
{
}

/// A capability is a word: reading alone is not writing.
pub proof fn law_reading_is_not_writing(owner: u64, actor: u64, membership: MembershipRecord)
    requires
        owner != actor,
        member_with(membership, owner, actor, "read"@),
    ensures
        !actor_may(Some(owner), seq![membership], actor, true),
        actor_may(Some(owner), seq![membership], actor, false),
{
    reveal_strlit("read");
    reveal_strlit("write");
    reveal_strlit("manage_members");
    assert("read"@.len() == 4 && "write"@.len() == 5 && "manage_members"@.len() == 14);
    assert(seq![membership][0] == membership);
    law_members_may(owner, actor, seq![membership], 0);
    law_members_may_not(owner, actor, seq![membership]);
}

/// Whether the claim is on the intent and of the coordinator that is there.
pub open spec fn claimed(intent: IntentRow, current: u64, epoch: u64, nonce: u64) -> bool {
    &&& epoch == current
    &&& intent.owner_epoch == current
    &&& intent.owner_nonce == nonce
}

/// Whether the row is of the actor's publication with the fingerprint, under way.
pub open spec fn under_way(operation: OperationRow, op: u64, intent: IntentRow) -> bool {
    &&& operation.operation_id == op
    &&& operation.actor_id == intent.actor_id
    &&& operation.kind == "publish"@
    &&& operation.request_fingerprint == intent.request_fingerprint
    &&& operation.state == "in_progress"@
}

/// Whether the row is of the intent's actor, active and with the authorization that it had.
pub open spec fn in_good_standing(principal: PrincipalRecord, intent: IntentRow) -> bool {
    &&& principal.id == intent.actor_id
    &&& principal.state@ == "active"@
    &&& principal.authz_epoch == intent.authz_epoch
}

/// Whether the actor owns the file's collection or is a member of its owner who may publish.
pub open spec fn may_publish(
    owner: u64,
    memberships: Seq<MembershipRecord>,
    actor: u64,
) -> bool {
    ||| owner == actor
    ||| exists|i: int|
        0 <= i < memberships.len() && (member_with(
            #[trigger] memberships[i],
            owner,
            actor,
            "write"@,
        ) || member_with(memberships[i], owner, actor, "manage_members"@))
}

/// Whether the row is of the candidate and follows the head that the intent was begun on.
pub open spec fn follows(version: VersionRecord, intent: IntentRow, candidate: u64) -> bool {
    &&& version.id == candidate
    &&& version.file_id == intent.file_id
    &&& version.generation == intent.expected_head_generation + 1
    &&& version.parent_version_id == intent.expected_head_version_id
}

/// Whether the head is still the one that the intent was begun on.
pub open spec fn stands(head: HeadRecord, intent: IntentRow) -> bool {
    &&& head.file_id == intent.file_id
    &&& head.version_id == intent.expected_head_version_id
    &&& head.generation == intent.expected_head_generation
}

proof fn lemma_may_publish(owner: u64, memberships: Seq<MembershipRecord>, actor: u64)
    ensures
        actor_may(Some(owner), memberships, actor, true) == may_publish(owner, memberships, actor),
{
    if may_publish(owner, memberships, actor) && owner != actor {
        let i = choose|i: int|
            0 <= i < memberships.len() && (member_with(
                #[trigger] memberships[i],
                owner,
                actor,
                "write"@,
            ) || member_with(memberships[i], owner, actor, "manage_members"@));
        law_members_may(owner, actor, memberships, i);
    }
    if !may_publish(owner, memberships, actor) {
        law_members_may_not(owner, actor, memberships);
    }
}

/// Whether everything is in order for the intent's publication.
pub open spec fn in_order(
    rows: PublishRows,
    intent: IntentRow,
    current: u64,
    epoch: u64,
    op: u64,
    nonce: u64,
) -> bool {
    &&& claimed(intent, current, epoch, nonce)
    &&& intent.state == "commit_durable"@
    &&& rows.operation matches Some(operation) && under_way(operation@, op, intent)
    &&& rows.principal matches Some(principal) && in_good_standing(principal, intent)
    &&& rows.owner matches Some(owner) && may_publish(owner, rows.memberships@, intent.actor_id)
    &&& intent.candidate_version_id matches Some(candidate) && rows.version matches Some(version)
        && follows(version, intent, candidate)
    &&& rows.head matches Some(head) && stands(head, intent)
}

proof fn lemma_operation_words()
    ensures
        "in_progress"@ != "succeeded"@,
        "in_progress"@ != "failed"@,
        "succeeded"@ != "failed"@,
{
    reveal_strlit("in_progress");
    reveal_strlit("succeeded");
    reveal_strlit("failed");
    assert("in_progress"@.len() == 11 && "succeeded"@.len() == 9 && "failed"@.len() == 6);
}

/// A publication for which everything is in order is carried out: its candidate becomes the
/// head, one generation on.
pub proof fn law_publication_in_order_is_carried_out(
    rows: PublishRows,
    current: u64,
    epoch: u64,
    op: u64,
    nonce: u64,
)
    requires
        rows.intent matches Some(intent) && in_order(rows, intent@, current, epoch, op, nonce)
            && intent@.expected_head_generation < u64::MAX,
    ensures
        publish_plan(rows, current, epoch, op, nonce) == (PublishPlan::Publish {
            candidate: rows.intent->0@.candidate_version_id->0,
            generation: (rows.intent->0@.expected_head_generation + 1) as u64,
        }),
{
    lemma_state_words();
    lemma_operation_words();
    lemma_may_publish(rows.owner->0, rows.memberships@, rows.intent->0@.actor_id);
}

/// Why a publication is not carried out, in the order in which it is asked: no intent, the
/// claim lost, done before, no candidate recorded yet, another operation or one that has
/// ended, a principal that has changed or may not publish, a candidate that does not follow
/// the head that the intent was begun on, and a head that has moved.
#[verifier::spinoff_prover]
pub proof fn law_publication_out_of_order_is_answered(
    rows: PublishRows,
    intent: IntentRow,
    current: u64,
    epoch: u64,
    op: u64,
    nonce: u64,
)
    requires
        rows.intent matches Some(found) ==> found@ == intent,
    ensures
        ({
            let plan = publish_plan(rows, current, epoch, op, nonce);
            let held = rows.intent is Some && claimed(intent, current, epoch, nonce);
            let durable = held && intent.state == "commit_durable"@;
            let open = durable && rows.operation is Some && under_way(
                rows.operation->0@,
                op,
                intent,
            );
            let allowed = open && rows.principal is Some && in_good_standing(
                rows.principal->0,
                intent,
            ) && rows.owner is Some && may_publish(
                rows.owner->0,
                rows.memberships@,
                intent.actor_id,
            );
            let sure = allowed && intent.candidate_version_id is Some
                && intent.expected_head_generation < u64::MAX;
            let candidate = intent.candidate_version_id->0;
            let fits = sure && rows.version is Some && follows(
                rows.version->0,
                intent,
                candidate,
            );
            &&& rows.intent is None ==> plan == PublishPlan::Reply(T3Outcome::MissingIntent)
            &&& rows.intent is Some && !claimed(intent, current, epoch, nonce) ==> plan
                == PublishPlan::Reply(T3Outcome::Fenced)
            &&& held && intent.state == "published"@ ==> plan == PublishPlan::Reply(
                T3Outcome::AlreadyPublished,
            )
            &&& held && (intent.state == "preparing"@ || intent.state == "aborted"@) ==> plan
                == PublishPlan::Reply(T3Outcome::NotCommitDurable)
            &&& durable && (rows.operation is None || rows.operation->0@.operation_id != op
                || rows.operation->0@.actor_id != intent.actor_id || rows.operation->0@.kind
                != "publish"@ || rows.operation->0@.request_fingerprint
                != intent.request_fingerprint || rows.operation->0@.state == "succeeded"@
                || rows.operation->0@.state == "failed"@) ==> plan == PublishPlan::Reply(
                T3Outcome::MissingOperation,
            )
            &&& open && !allowed ==> plan == PublishPlan::Reply(T3Outcome::AuthorizationDenied)
            &&& allowed && intent.candidate_version_id is None ==> plan == PublishPlan::Reply(
                T3Outcome::MissingCandidate,
            )
            &&& allowed && intent.candidate_version_id is Some && intent.expected_head_generation
                == u64::MAX ==> plan == PublishPlan::Invalid
            &&& sure && !fits ==> plan == PublishPlan::Reply(T3Outcome::VersionConflict)
            &&& fits && !(rows.head matches Some(head) && stands(head, intent)) ==> plan
                == PublishPlan::Reply(T3Outcome::HeadConflict)
        }),
{
    lemma_state_words();
    lemma_operation_words();
    if let Some(owner) = rows.owner {
        lemma_may_publish(owner, rows.memberships@, intent.actor_id);
    }
}

/// The rows of a publication that was carried out: the head is the candidate, the intent is
/// published and released, the operation has succeeded with the candidate as its result, and
/// nothing else about them has changed.
pub proof fn law_rows_of_a_publication(
    intent: IntentRow,
    operation: OperationRow,
    candidate: u64,
    generation: u64,
)
    ensures
        published_head(intent, candidate, generation) == (HeadRecord {
            file_id: intent.file_id,
            version_id: Some(candidate),
            generation,
        }),
        published_intent(intent) == (IntentRow { state: "published"@, pinned: false, ..intent }),
        published_operation(operation, candidate).state == "succeeded"@,
        published_operation(operation, candidate).error is None,
        published_operation(operation, candidate).result == Some(
            "version:"@ + decimal(candidate as nat),
        ),
        published_operation(operation, candidate).operation_id == operation.operation_id,
        published_operation(operation, candidate).actor_id == operation.actor_id,
        published_operation(operation, candidate).kind == operation.kind,
        published_operation(operation, candidate).request_fingerprint
            == operation.request_fingerprint,
{
}

/// Numbers are written in decimal: a digit stands for itself, and a further digit multiplies
/// what stands before it by ten.
pub proof fn law_decimal_digits(n: nat, d: nat)
    requires
        d < 10,
    ensures
        decimal(d) == seq![(48 + d) as char],
        n > 0 ==> decimal(10 * n + d) == decimal(n) + decimal(d),
{
    reveal_strlit("0");
    reveal_strlit("1");
    reveal_strlit("2");
    reveal_strlit("3");
    reveal_strlit("4");
    reveal_strlit("5");
    reveal_strlit("6");
    reveal_strlit("7");
    reveal_strlit("8");
    reveal_strlit("9");
    assert(decimal(d) =~= seq![(48 + d) as char]);
    if n > 0 {
        assert((10 * n + d) / 10 == n);
        assert((10 * n + d) % 10 == d);
    }
}

/// A claim on an intent that is open goes to the coordinator that is there, unless one of its
/// epoch or a later one has it: the intent is written with the new owner and held.
pub proof fn law_open_intents_are_claimed(
    intent: IntentRow,
    current: u64,
    epoch: u64,
    nonce: u64,
    decision: ClaimDecision,
)
    requires
        intent.state == "preparing"@ || intent.state == "commit_durable"@,
        claim_right(Some(intent), current, epoch, nonce, decision),
    ensures
        epoch == current && intent.owner_epoch < epoch ==> decision is Take && decision->Take_0@
            == (IntentRow { owner_epoch: epoch, owner_nonce: nonce, pinned: true, ..intent }),
        epoch != current ==> decision == ClaimDecision::Reply(
            ClaimIntentOutcome::Fenced { current: CoordinatorEpoch(current) },
        ),
        epoch == current && intent.owner_epoch > epoch ==> decision == ClaimDecision::Reply(
            ClaimIntentOutcome::FutureOwner {
                owner_epoch: CoordinatorEpoch(intent.owner_epoch),
                current: CoordinatorEpoch(current),
            },
        ),
        epoch == current && intent.owner_epoch == epoch && intent.owner_nonce == nonce
            ==> (decision matches ClaimDecision::Reply(
            ClaimIntentOutcome::Claimed(RecoveryIntent::Nonterminal(found)),
        ) && found@ == intent),
        epoch == current && intent.owner_epoch == epoch && intent.owner_nonce != nonce ==> decision
            == ClaimDecision::Reply(
            ClaimIntentOutcome::AlreadyClaimed {
                owner_epoch: CoordinatorEpoch(epoch),
                owner_nonce: intent.owner_nonce,
            },
        ),
{
    lemma_state_words();
}

/// A claim on an intent that has ended is answered with the intent as it is, and one on an
/// intent that is not there is answered so, whoever asks.
pub proof fn law_ended_intents_are_shown(
    intent: IntentRow,
    current: u64,
    epoch: u64,
    nonce: u64,
    decision: ClaimDecision,
    missing: ClaimDecision,
)
    requires
        claim_right(Some(intent), current, epoch, nonce, decision),
        claim_right(None, current, epoch, nonce, missing),
    ensures
        intent.state == "published"@ ==> (decision matches ClaimDecision::Reply(
            ClaimIntentOutcome::Terminal(RecoveryIntent::PublishedTombstone(found)),
        ) && found@ == intent),
        intent.state == "aborted"@ ==> (decision matches ClaimDecision::Reply(
            ClaimIntentOutcome::Terminal(RecoveryIntent::AbortedTombstone(found)),
        ) && found@ == intent),
        missing == ClaimDecision::Reply(ClaimIntentOutcome::Missing),
{
    lemma_state_words();
}

/// A coordinator's epoch moves on from the one that is expected, and only upwards.
pub proof fn law_epochs_only_rise(current: u64, expected: u64, next: u64)
    ensures
        epoch_moves(current, expected, next) <==> current == expected && expected < next,
{
}

/// The candidate of an intent is recorded once, by the one who has the claim: the intent is
/// durable afterwards, and a second recording is refused.
pub proof fn law_candidate_is_recorded_once(
    intent: IntentRow,
    current: u64,
    epoch: u64,
    nonce: u64,
    version: u64,
)
    ensures
        t2_answer(None, current, epoch, nonce) is MissingIntent,
        !claimed(intent, current, epoch, nonce) ==> t2_answer(Some(intent), current, epoch, nonce)
            is Fenced,
        claimed(intent, current, epoch, nonce) && intent.state == "preparing"@ ==> t2_answer(
            Some(intent),
            current,
            epoch,
            nonce,
        ) is Applied,
        claimed(intent, current, epoch, nonce) && intent.state == "commit_durable"@ ==> t2_answer(
            Some(intent),
            current,
            epoch,
            nonce,
        ) is NotPreparing,
        with_candidate(intent, version) == (IntentRow {
            candidate_version_id: Some(version),
            state: "commit_durable"@,
            ..intent
        }),
{
    lemma_state_words();
}

/// A version is recorded for an intent in preparation under the identifier that it names, or
/// under the next one where it names none; a repeat is checked against what was recorded.
pub proof fn law_version_is_recorded_under_an_identifier(
    intent: IntentRow,
    current: u64,
    nonce: u64,
    id: u64,
    next_id: u64,
    other_file: u64,
)
    requires
        claimed(intent, current, current, nonce),
    ensures
        ({
            let plan = t2_plan(Some(intent), current, current, nonce, intent.file_id, id, next_id);
            &&& intent.state == "preparing"@ && id != 0 ==> plan == (T2Plan::Record {
                version_id: id,
                allocator: None,
            })
            &&& intent.state == "preparing"@ && id == 0 && next_id < u64::MAX ==> plan == (
            T2Plan::Record { version_id: next_id, allocator: Some((next_id + 1) as u64) })
            &&& intent.state == "preparing"@ && id == 0 && next_id == u64::MAX ==> plan
                == T2Plan::Invalid
            &&& intent.state == "commit_durable"@ && intent.candidate_version_id is Some && (id == 0
                || id == intent.candidate_version_id->0) ==> plan == (T2Plan::Verify {
                version_id: intent.candidate_version_id->0,
            })
            &&& intent.state == "commit_durable"@ && intent.candidate_version_id is Some && id != 0
                && id != intent.candidate_version_id->0 ==> plan == T2Plan::Done(
                T2Outcome::NotPreparing,
            )
            &&& intent.state == "commit_durable"@ && intent.candidate_version_id is None ==> plan
                == T2Plan::Invalid
            &&& intent.state == "published"@ || intent.state == "aborted"@ ==> plan
                == T2Plan::Done(T2Outcome::NotPreparing)
            &&& other_file != intent.file_id ==> t2_plan(
                Some(intent),
                current,
                current,
                nonce,
                other_file,
                id,
                next_id,
            ) == T2Plan::Done(T2Outcome::NotPreparing)
        }),
{
    lemma_state_words();
}

/// Recording a version without the intent or without the claim is refused.
pub proof fn law_version_needs_the_claim(
    intent: IntentRow,
    current: u64,
    epoch: u64,
    nonce: u64,
    file_id: u64,
    id: u64,
    next_id: u64,
)
    ensures
        t2_plan(None, current, epoch, nonce, file_id, id, next_id) == T2Plan::Done(
            T2Outcome::MissingIntent,
        ),
        !claimed(intent, current, epoch, nonce) ==> t2_plan(
            Some(intent),
            current,
            epoch,
            nonce,
            file_id,
            id,
            next_id,
        ) == T2Plan::Done(T2Outcome::Fenced),
{
}

/// A stored version is the one that was to be recorded where it has the identifier and agrees
/// in everything else.
pub proof fn law_stored_version_agrees(stored: CatalogVersion, id: u64, version: CatalogVersion)
    ensures
        stored_as(Some(stored), id, version) <==> {
            &&& stored.id == id
            &&& stored.file_id == version.file_id
            &&& stored.generation == version.generation
            &&& stored.commit_id == version.commit_id
            &&& stored.parent_version_id == version.parent_version_id
            &&& stored.size == version.size
            &&& stored.digest == version.digest
        },
        !stored_as(None, id, version),
{
}

/// An open intent is given up by the one who has the claim, with the reason, and its operation
/// has failed with that reason; nobody else gives it up, and nothing else changes.
pub proof fn law_claimed_intents_are_given_up(
    intent: IntentRow,
    operation: OperationRow,
    current: u64,
    epoch: u64,
    nonce: u64,
    reason: Seq<char>,
)
    ensures
        intent.state == "preparing"@ || intent.state == "commit_durable"@ ==> abortable(
            Some(intent),
            current,
            epoch,
            nonce,
        ) == claimed(intent, current, epoch, nonce),
        intent.state == "published"@ || intent.state == "aborted"@ ==> !abortable(
            Some(intent),
            current,
            epoch,
            nonce,
        ),
        !abortable(None, current, epoch, nonce),
        aborted_intent(intent, reason) == (IntentRow {
            state: "aborted"@,
            abort_reason: Some(reason),
            ..intent
        }),
        failed_operation(operation, reason) == (OperationRow {
            state: "failed"@,
            error: Some(reason),
            ..operation
        }),
{
    lemma_state_words();
}

/// The rows that a publication begins with: an intent in preparation with nothing of how it
/// ends, and an operation under way without result or error.
pub proof fn law_rows_of_a_beginning(intent: IntentRow, operation: OperationRow)
    ensures
        prepared(intent) == (IntentRow {
            candidate_version_id: None,
            state: "preparing"@,
            abort_reason: None,
            ..intent
        }),
        begun(operation) == (OperationRow {
            state: "in_progress"@,
            result: None,
            error: None,
            ..operation
        }),
{
}

/// A publication is begun where the request is new and the intent is of the operation, by the
/// coordinator that is there, for a principal in good standing that may publish, on the head
/// that is there, or on none at all where no version is expected.
pub proof fn law_publication_is_begun(
    operation: OperationRow,
    intent: IntentRow,
    rows: PrepareRows,
)
    requires
        operation.operation_id == intent.operation_id,
        operation.actor_id == intent.actor_id,
        operation.request_fingerprint == intent.request_fingerprint,
    ensures
        rows.recorded ==> prepare_plan(operation, intent, rows) is Recorded,
        !rows.recorded ==> (prepare_plan(operation, intent, rows) is Begin <==> {
            &&& rows.coordinator_epoch == intent.owner_epoch
            &&& rows.principal matches Some(principal) && in_good_standing(principal, intent)
            &&& rows.owner matches Some(owner) && may_publish(
                owner,
                rows.memberships@,
                intent.actor_id,
            )
            &&& (intent.expected_head_version_id is None && intent.expected_head_generation == 0)
                || (rows.head matches Some(head) && stands(head, intent))
        }),
        !rows.recorded && !(prepare_plan(operation, intent, rows) is Begin) ==> prepare_plan(
            operation,
            intent,
            rows,
        ) is Invalid,
{
    if let Some(owner) = rows.owner {
        lemma_may_publish(owner, rows.memberships@, intent.actor_id);
    }
}

/// An intent of another operation, actor or request than the recorded one is refused.
pub proof fn law_intent_must_be_of_its_operation(
    operation: OperationRow,
    intent: IntentRow,
    rows: PrepareRows,
)
    requires
        operation.operation_id != intent.operation_id || operation.actor_id != intent.actor_id
            || operation.request_fingerprint != intent.request_fingerprint,
    ensures
        prepare_plan(operation, intent, rows) is Invalid,
{
}

/// A request is recorded unless one with its identifier, or the same actor's with the same
/// kind and fingerprint, is.
pub proof fn law_requests_are_recorded_unless_known(
    rows: Seq<OperationRecord>,
    request: OperationRow,
)
    ensures
        recorded(rows, request) <==> exists|i: int|
            0 <= i < rows.len() && ((#[trigger] rows[i])@.operation_id == request.operation_id || (
            rows[i]@.actor_id == request.actor_id && rows[i]@.kind == request.kind
                && rows[i]@.request_fingerprint == request.request_fingerprint)),
{
    if recorded(rows, request) {
        let i = choose|i: int|
            0 <= i < rows.len() && stands_in_way(
                (#[trigger] rows[i])@,
                request,
            );
        assert(rows[i]@.operation_id == rows[i]@.operation_id);
    }
    if exists|i: int|
        0 <= i < rows.len() && ((#[trigger] rows[i])@.operation_id == request.operation_id || (
        rows[i]@.actor_id == request.actor_id && rows[i]@.kind == request.kind
            && rows[i]@.request_fingerprint == request.request_fingerprint)) {
        let i = choose|i: int|
            0 <= i < rows.len() && ((#[trigger] rows[i])@.operation_id == request.operation_id || (
            rows[i]@.actor_id == request.actor_id && rows[i]@.kind == request.kind
                && rows[i]@.request_fingerprint == request.request_fingerprint));
        assert(stands_in_way(rows[i]@, request));
    }
}

/// What recovery does with each intent: one that is open is resumed, and the graph's binding
/// of one that has ended is released under how it ended.
pub proof fn law_recovery_work(intent: IntentRow, work: RecoveryWork)
    requires
        work_for(intent, work),
    ensures
        intent.state == "published"@ ==> (work matches RecoveryWork::TombstoneDagBinding {
            intent: found,
            terminal,
        } && found@ == intent && terminal is Published),
        intent.state == "aborted"@ ==> (work matches RecoveryWork::TombstoneDagBinding {
            intent: found,
            terminal,
        } && found@ == intent && terminal is Aborted),
        intent.state == "preparing"@ || intent.state == "commit_durable"@
            ==> (work matches RecoveryWork::Resume(found) && found@ == intent),
{
    lemma_state_words();
}

/// Identifiers are handed out one after the other; an allocator that is not there yet starts
/// at one, or behind the largest that is in use.
pub proof fn law_identifiers_are_handed_out_in_turn(next: u64, largest: u64, used: u64)
    ensures
        next < u64::MAX ==> allocated(Some(next), Some(largest)) == Some(
            (next, (next + 1) as u64),
        ) && allocated(Some(next), None) == Some((next, (next + 1) as u64)),
        largest < u64::MAX - 1 ==> allocated(None, Some(largest)) == Some(
            ((largest + 1) as u64, (largest + 2) as u64),
        ),
        allocated(None, None) == Some((1u64, 2u64)),
        allocated(Some(u64::MAX), Some(largest)) is None,
        used < u64::MAX ==> advanced(next, used) == Some(
            if next > used {
                next
            } else {
                (used + 1) as u64
            },
        ),
        advanced(next, u64::MAX) is None,
{
}

/// A collection or a file that may be created is found where it is there, and created under
/// the next identifier where it is not; one that may not be created is refused.
pub proof fn law_creation(existing: u64, next: u64, largest: Option<u64>)
    requires
        next < u64::MAX,
    ensures
        create_step(true, Some(existing), Some(next), largest) == (CreateStep::Found {
            id: existing,
        }),
        create_step(true, None, Some(next), largest) == (CreateStep::Create {
            id: next,
            next_id: (next + 1) as u64,
        }),
        create_step(false, Some(existing), Some(next), largest) is Refuse,
        create_step(false, None, Some(next), largest) is Refuse,
{
}

/// A principal is active where its row is the actor's and says so.
pub proof fn law_active_principals(principal: PrincipalRecord, actor: u64)
    ensures
        is_active(Some(principal), actor) <==> principal.id == actor && principal.state@
            == "active"@,
        !is_active(None, actor),
{
}

/// What a bootstrap finds is what it was to install where the user is active and unchanged, it
/// owns the collection of that name, the file of that name is in it, and the head has a
/// version from the first generation on.
pub proof fn law_bootstrap_finds_what_it_installs(
    rows: BootstrapRows,
    principal: u64,
    collection: u64,
    collection_name: Seq<char>,
    file_name: Seq<char>,
)
    ensures
        bootstrapped(rows, principal, collection, collection_name, file_name) <==> {
            &&& rows.principal_kind@ == "user"@
            &&& rows.principal_state@ == "active"@
            &&& rows.principal_epoch == 0
            &&& rows.collection_owner == principal
            &&& rows.collection_name@ == collection_name
            &&& rows.file_collection == collection
            &&& rows.file_name@ == file_name
            &&& (rows.head_version is None) == (rows.head_generation == 0)
        },
{
}

/// A publication for which everything is in order is written: the head is the candidate one
/// generation on, the intent is published and released, the operation has succeeded with the
/// candidate as its result, and every other row is as it was.
pub proof fn law_rows_in_order_are_published(
    rows: PublishRows,
    after: PublishRows,
    current: u64,
    epoch: u64,
    op: u64,
    nonce: u64,
    r: Option<bool>,
)
    requires
        publish_right(rows, after, current, epoch, op, nonce, r),
        rows.intent matches Some(intent) && in_order(rows, intent@, current, epoch, op, nonce)
            && intent@.expected_head_generation < u64::MAX,
    ensures
        ({
            let intent = rows.intent->0@;
            let candidate = intent.candidate_version_id->0;
            &&& r == Some(true)
            &&& after.head == Some(
                HeadRecord {
                    file_id: intent.file_id,
                    version_id: Some(candidate),
                    generation: (intent.expected_head_generation + 1) as u64,
                },
            )
            &&& after.intent is Some
            &&& after.intent->0@ == (IntentRow { state: "published"@, pinned: false, ..intent })
            &&& after.operation is Some
            &&& after.operation->0@.state == "succeeded"@
            &&& after.operation->0@.result == Some("version:"@ + decimal(candidate as nat))
            &&& after.operation->0@.operation_id == op
            &&& after.version == rows.version
            &&& after.principal == rows.principal
            &&& after.owner == rows.owner
            &&& after.memberships == rows.memberships
        }),
{
    law_publication_in_order_is_carried_out(rows, current, epoch, op, nonce);
    law_rows_of_a_publication(
        rows.intent->0@,
        rows.operation->0@,
        rows.intent->0@.candidate_version_id->0,
        (rows.intent->0@.expected_head_generation + 1) as u64,
    );
}

/// Only such a publication is written: with the claim, a durable intent, its own operation, a
/// principal that may publish, a candidate that follows and a head that stands. Otherwise
/// every row is as it was.
pub proof fn law_rows_out_of_order_are_kept(
    rows: PublishRows,
    after: PublishRows,
    current: u64,
    epoch: u64,
    op: u64,
    nonce: u64,
    r: Option<bool>,
)
    requires
        publish_right(rows, after, current, epoch, op, nonce, r),
    ensures
        r != Some(true) ==> after == rows,
        r == Some(true) ==> {
            let intent = rows.intent->0@;
            &&& rows.intent is Some
            &&& claimed(intent, current, epoch, nonce)
            &&& intent.state == "commit_durable"@
            &&& rows.operation is Some
            &&& rows.operation->0@.operation_id == op
            &&& rows.operation->0@.actor_id == intent.actor_id
            &&& rows.operation->0@.kind == "publish"@
            &&& rows.operation->0@.request_fingerprint == intent.request_fingerprint
            &&& rows.operation->0@.state != "succeeded"@
            &&& rows.operation->0@.state != "failed"@
            &&& rows.principal is Some
            &&& in_good_standing(rows.principal->0, intent)
            &&& rows.owner is Some
            &&& may_publish(rows.owner->0, rows.memberships@, intent.actor_id)
            &&& rows.version is Some
            &&& intent.candidate_version_id is Some
            &&& follows(rows.version->0, intent, intent.candidate_version_id->0)
            &&& rows.head is Some
            &&& stands(rows.head->0, intent)
        },
{
    lemma_state_words();
    if rows.intent is Some && rows.owner is Some {
        lemma_may_publish(rows.owner->0, rows.memberships@, rows.intent->0@.actor_id);
    }
}

/// What is asked of the operation and of the principal before an intent is prepared.
pub proof fn law_intents_are_prepared_for(
    operation: OperationRecord,
    principal: PrincipalRecord,
    intent: IntentRow,
)
    ensures
        under_way(operation@, intent.operation_id, intent) ==> operation_ready(
            Some(operation),
            intent.operation_id,
            intent.actor_id,
            intent.request_fingerprint,
        ),
        operation@.state == "succeeded"@ || operation@.state == "failed"@ || operation@.kind
            != "publish"@ || operation@.operation_id != intent.operation_id || operation@.actor_id
            != intent.actor_id || operation@.request_fingerprint != intent.request_fingerprint
            ==> !operation_ready(
            Some(operation),
            intent.operation_id,
            intent.actor_id,
            intent.request_fingerprint,
        ),
        !operation_ready(
            None,
            intent.operation_id,
            intent.actor_id,
            intent.request_fingerprint,
        ),
        principal_ready(Some(principal), intent.actor_id, intent.authz_epoch) <==> in_good_standing(
            principal,
            intent,
        ),
        !principal_ready(None, intent.actor_id, intent.authz_epoch),
{
    lemma_operation_words();
}

/// What is said of a row is said of the record's own fields.
pub proof fn law_rows_show_their_records(intent: IntentRecord, operation: OperationRecord)
    ensures
        intent@.operation_id == intent.operation_id,
        intent@.actor_id == intent.actor_id,
        intent@.file_id == intent.file_id,
        intent@.owner_epoch == intent.owner_epoch,
        intent@.owner_nonce == intent.owner_nonce,
        intent@.expected_head_version_id == intent.expected_head_version_id,
        intent@.expected_head_generation == intent.expected_head_generation,
        intent@.candidate_version_id == intent.candidate_version_id,
        intent@.state == intent.state@,
        intent@.abort_reason is Some == intent.abort_reason is Some,
        intent.abort_reason matches Some(reason) ==> intent@.abort_reason == Some(reason@),
        intent@.pinned == intent.pinned,
        intent@.request_fingerprint == intent.request_fingerprint,
        intent@.authz_epoch == intent.authz_epoch,
        operation@.operation_id == operation.operation_id,
        operation@.actor_id == operation.actor_id,
        operation@.kind == operation.kind@,
        operation@.request_fingerprint == operation.request_fingerprint,
        operation@.state == operation.state@,
        operation@.result is Some == operation.result is Some,
        operation.result matches Some(result) ==> operation@.result == Some(result@),
        operation@.error is Some == operation.error is Some,
        operation.error matches Some(error) ==> operation@.error == Some(error@),
        row(Some(intent)) == Some(intent@),
        row(None) is None,
        operation_row(Some(operation)) == Some(operation@),
        operation_row(None) is None,
{
}

/// Intents are told apart by their state: published, aborted, and open.
pub proof fn law_intents_are_classified(classified: RecoveryIntent)
    requires
        well_classified(classified),
    ensures
        inside(classified).state == "published"@ <==> classified is PublishedTombstone,
        inside(classified).state == "aborted"@ <==> classified is AbortedTombstone,
        classified matches RecoveryIntent::Nonterminal(intent) ==> inside(classified) == intent@,
        classified matches RecoveryIntent::PublishedTombstone(intent) ==> inside(classified)
            == intent@,
        classified matches RecoveryIntent::AbortedTombstone(intent) ==> inside(classified)
            == intent@,
{
    lemma_state_words();
}

} // verus!
