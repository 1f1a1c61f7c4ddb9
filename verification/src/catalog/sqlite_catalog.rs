//! The decisions of the durable catalog's transactions. Rows come in, and what is to
//! be written or answered goes out; reading and writing them is done elsewhere.
use vstd::prelude::*;
use vstd::string::*;

use crate::bytes::same_id;
use crate::catalog::model::same_text;
use crate::catalog::records::{
    CatalogOperationState, CatalogVersion, ClaimIntentOutcome, CoordinatorEpoch, EpochClaim,
    HeadRecord, IntentRecord, IntentRow, MembershipRecord, OperationRecord, OperationRow,
    PrincipalRecord, ReadAuthorization, RecoveryIntent, RecoveryWork, T2Outcome, T3Outcome,
    TombstoneTerminal, VersionRecord,
};

verus! {

/// The intent inside.
pub open spec fn inside(intent: RecoveryIntent) -> IntentRow {
    match intent {
        RecoveryIntent::Nonterminal(intent) => intent@,
        RecoveryIntent::PublishedTombstone(intent) => intent@,
        RecoveryIntent::AbortedTombstone(intent) => intent@,
    }
}

/// Whether the class is that of the intent inside.
pub open spec fn well_classified(intent: RecoveryIntent) -> bool {
    match intent {
        RecoveryIntent::PublishedTombstone(intent) => intent@.state == "published"@,
        RecoveryIntent::AbortedTombstone(intent) => intent@.state == "aborted"@,
        RecoveryIntent::Nonterminal(intent) => !ended(intent@),
    }
}

/// Whether the intent has ended.
pub open spec fn ended(intent: IntentRow) -> bool {
    intent.state == "published"@ || intent.state == "aborted"@
}

pub proof fn lemma_state_words()
    ensures
        "published"@ != "aborted"@,
        "published"@ != "preparing"@,
        "published"@ != "commit_durable"@,
        "aborted"@ != "preparing"@,
        "aborted"@ != "commit_durable"@,
        "preparing"@ != "commit_durable"@,
{
    reveal_strlit("published");
    reveal_strlit("aborted");
    reveal_strlit("preparing");
    reveal_strlit("commit_durable");
    assert("published"@.len() == 9);
    assert("aborted"@.len() == 7);
    assert("preparing"@.len() == 9);
    assert("commit_durable"@.len() == 14);
    assert("published"@[1] != "preparing"@[1]);
}

pub fn classify_intent(intent: IntentRecord) -> (classified: RecoveryIntent)
    ensures
        inside(classified) == intent@,
        well_classified(classified),
{
    if same_text(intent.state.as_str(), "published") {
        RecoveryIntent::PublishedTombstone(intent)
    } else if same_text(intent.state.as_str(), "aborted") {
        RecoveryIntent::AbortedTombstone(intent)
    } else {
        RecoveryIntent::Nonterminal(intent)
    }
}

/// Whether the work is what is still to be done for an intent: an open one is resumed,
/// and the graph's binding of an ended one is released.
pub open spec fn work_for(intent: IntentRow, work: RecoveryWork) -> bool {
    match work {
        RecoveryWork::Resume(found) => found@ == intent && !ended(intent),
        RecoveryWork::TombstoneDagBinding { intent: found, terminal } => found@ == intent
            && match terminal {
            TombstoneTerminal::Published => intent.state == "published"@,
            TombstoneTerminal::Aborted => intent.state == "aborted"@,
        },
    }
}

/// What is still to be done for each of the intents.
pub fn recovery_work(intents: Vec<IntentRecord>) -> (work: Vec<RecoveryWork>)
    ensures
        work@.len() == intents@.len(),
        forall|i: int| 0 <= i < work@.len() ==> work_for(intents@[i]@, #[trigger] work@[i]),
{
    let mut work: Vec<RecoveryWork> = Vec::new();
    let mut i: usize = 0;
    while i < intents.len()
        invariant
            i <= intents@.len(),
            work@.len() == i,
            forall|j: int| 0 <= j < i ==> work_for(intents@[j]@, #[trigger] work@[j]),
        decreases intents@.len() - i,
    {
        let next = match classify_intent(intents[i].clone()) {
            RecoveryIntent::Nonterminal(intent) => RecoveryWork::Resume(intent),
            RecoveryIntent::PublishedTombstone(intent) => RecoveryWork::TombstoneDagBinding {
                intent,
                terminal: TombstoneTerminal::Published,
            },
            RecoveryIntent::AbortedTombstone(intent) => RecoveryWork::TombstoneDagBinding {
                intent,
                terminal: TombstoneTerminal::Aborted,
            },
        };
        work.push(next);
        i = i + 1;
    }
    work
}

/// Whether a coordinator may move the epoch on: from the one that is there, and only
/// upwards.
pub open spec fn epoch_moves(current: u64, expected: u64, next: u64) -> bool {
    current == expected && next > expected
}

/// Moves the coordinator epoch on, if it is the expected one and the next is later.
pub fn claim_coordinator_epoch(
    current: CoordinatorEpoch,
    expected: CoordinatorEpoch,
    next: CoordinatorEpoch,
) -> (claim: EpochClaim)
    ensures
        claim == if epoch_moves(current.0, expected.0, next.0) {
            EpochClaim::Claimed(next)
        } else {
            EpochClaim::Stale { current }
        },
{
    if cas_owner_epoch(current.0, expected.0, next.0) {
        EpochClaim::Claimed(next)
    } else {
        EpochClaim::Stale { current }
    }
}

pub fn cas_owner_epoch(current: u64, expected: u64, next: u64) -> (moved: bool)
    ensures
        moved == epoch_moves(current, expected, next),
{
    current == expected && next > expected
}

/// What claiming an intent comes to.
pub enum ClaimDecision {
    /// Nothing is written.
    Reply(ClaimIntentOutcome),
    /// The intent is written with its new owner, and claimed.
    Take(IntentRecord),
    /// The stored intent is in no known state.
    Invalid,
}

/// The intent with a new owner.
pub open spec fn owned(intent: IntentRow, epoch: u64, nonce: u64) -> IntentRow {
    IntentRow { owner_epoch: epoch, owner_nonce: nonce, pinned: true, ..intent }
}

/// Whether an intent is open and in a known state.
pub open spec fn open_state(intent: IntentRow) -> bool {
    intent.state == "preparing"@ || intent.state == "commit_durable"@
}

/// What a claim on an intent must come to. An ended intent is answered as such, even
/// to a coordinator whose epoch has passed; an open one goes to the current
/// coordinator alone, and only if no other claim of that epoch is on it.
pub open spec fn claim_right(
    intent: Option<IntentRow>,
    current: u64,
    epoch: u64,
    nonce: u64,
    decision: ClaimDecision,
) -> bool {
    match intent {
        None => decision == ClaimDecision::Reply(ClaimIntentOutcome::Missing),
        Some(intent) => if ended(intent) {
            decision matches ClaimDecision::Reply(ClaimIntentOutcome::Terminal(found)) && inside(
                found,
            ) == intent && well_classified(found)
        } else if current != epoch {
            decision == ClaimDecision::Reply(
                ClaimIntentOutcome::Fenced { current: CoordinatorEpoch(current) },
            )
        } else if intent.owner_epoch > current {
            decision == ClaimDecision::Reply(
                ClaimIntentOutcome::FutureOwner {
                    owner_epoch: CoordinatorEpoch(intent.owner_epoch),
                    current: CoordinatorEpoch(current),
                },
            )
        } else if intent.owner_epoch == epoch && intent.owner_nonce == nonce {
            decision matches ClaimDecision::Reply(ClaimIntentOutcome::Claimed(found)) && inside(
                found,
            ) == intent && well_classified(found)
        } else if intent.owner_epoch == epoch {
            decision == ClaimDecision::Reply(
                ClaimIntentOutcome::AlreadyClaimed {
                    owner_epoch: CoordinatorEpoch(epoch),
                    owner_nonce: intent.owner_nonce,
                },
            )
        } else if open_state(intent) {
            decision matches ClaimDecision::Take(found) && found@ == owned(intent, epoch, nonce)
        } else {
            decision == ClaimDecision::Invalid
        },
    }
}

pub open spec fn row(intent: Option<IntentRecord>) -> Option<IntentRow> {
    match intent {
        Some(intent) => Some(intent@),
        None => None,
    }
}

/// Decides on a claim on an intent.
pub fn claim_intent(
    intent: Option<IntentRecord>,
    current: u64,
    epoch: CoordinatorEpoch,
    nonce: u64,
) -> (decision: ClaimDecision)
    ensures
        claim_right(row(intent), current, epoch.0, nonce, decision),
{
    let intent = match intent {
        Some(intent) => intent,
        None => {
            return ClaimDecision::Reply(ClaimIntentOutcome::Missing);
        },
    };
    proof {
        lemma_state_words();
    }
    let intent = match classify_intent(intent) {
        RecoveryIntent::Nonterminal(intent) => intent,
        classified => {
            return ClaimDecision::Reply(ClaimIntentOutcome::Terminal(classified));
        },
    };
    if current != epoch.0 {
        return ClaimDecision::Reply(
            ClaimIntentOutcome::Fenced { current: CoordinatorEpoch(current) },
        );
    }
    if intent.owner_epoch > current {
        return ClaimDecision::Reply(
            ClaimIntentOutcome::FutureOwner {
                owner_epoch: CoordinatorEpoch(intent.owner_epoch),
                current: CoordinatorEpoch(current),
            },
        );
    }
    if intent.owner_epoch == epoch.0 {
        if intent.owner_nonce == nonce {
            return ClaimDecision::Reply(
                ClaimIntentOutcome::Claimed(RecoveryIntent::Nonterminal(intent)),
            );
        }
        return ClaimDecision::Reply(
            ClaimIntentOutcome::AlreadyClaimed {
                owner_epoch: epoch,
                owner_nonce: intent.owner_nonce,
            },
        );
    }
    if !same_text(intent.state.as_str(), "preparing") && !same_text(
        intent.state.as_str(),
        "commit_durable",
    ) {
        return ClaimDecision::Invalid;
    }
    let mut taken = intent;
    taken.owner_epoch = epoch.0;
    taken.owner_nonce = nonce;
    taken.pinned = true;
    ClaimDecision::Take(taken)
}

/// Whether the claim on an intent is the current one.
pub open spec fn holds_claim(intent: IntentRow, current: u64, epoch: u64, nonce: u64) -> bool {
    current == epoch && intent.owner_epoch == epoch && intent.owner_nonce == nonce
}

fn check_claim(intent: &IntentRecord, current: u64, epoch: u64, nonce: u64) -> (held: bool)
    ensures
        held == holds_claim(intent@, current, epoch, nonce),
{
    current == epoch && intent.owner_epoch == epoch && intent.owner_nonce == nonce
}

/// What recording a candidate answers. It is written exactly where it is applied.
pub open spec fn t2_answer(intent: Option<IntentRow>, current: u64, epoch: u64, nonce: u64) -> T2Outcome {
    match intent {
        None => T2Outcome::MissingIntent,
        Some(intent) => if !holds_claim(intent, current, epoch, nonce) {
            T2Outcome::Fenced
        } else if intent.state != "preparing"@ {
            T2Outcome::NotPreparing
        } else {
            T2Outcome::Applied
        },
    }
}

/// The intent with its candidate recorded.
pub open spec fn with_candidate(intent: IntentRow, version: u64) -> IntentRow {
    IntentRow { candidate_version_id: Some(version), state: "commit_durable"@, ..intent }
}

/// Records the candidate of an intent, where it may be recorded.
pub fn t2_record_candidate_typed(
    intent: &mut Option<IntentRecord>,
    current: u64,
    epoch: CoordinatorEpoch,
    nonce: u64,
    version: u64,
) -> (outcome: T2Outcome)
    ensures
        outcome == t2_answer(row(*old(intent)), current, epoch.0, nonce),
        row(*final(intent)) == if outcome is Applied {
            Some(with_candidate(row(*old(intent))->0, version))
        } else {
            row(*old(intent))
        },
{
    let mut found = match intent {
        Some(found) => found.clone(),
        None => {
            return T2Outcome::MissingIntent;
        },
    };
    if !check_claim(&found, current, epoch.0, nonce) {
        return T2Outcome::Fenced;
    }
    if !same_text(found.state.as_str(), "preparing") {
        return T2Outcome::NotPreparing;
    }
    found.candidate_version_id = Some(version);
    found.state = "commit_durable".to_owned();
    *intent = Some(found);
    T2Outcome::Applied
}

/// Records the candidate of an intent, and answers whether it did.
pub fn t2_record_candidate(
    intent: &mut Option<IntentRecord>,
    current: u64,
    epoch: u64,
    nonce: u64,
    version: u64,
) -> (recorded: bool)
    ensures
        recorded == (t2_answer(row(*old(intent)), current, epoch, nonce) is Applied),
        row(*final(intent)) == if recorded {
            Some(with_candidate(row(*old(intent))->0, version))
        } else {
            row(*old(intent))
        },
{
    let outcome = t2_record_candidate_typed(
        intent,
        current,
        CoordinatorEpoch::new(epoch),
        nonce,
        version,
    );
    outcome == T2Outcome::Applied
}

/// What recording a version comes to.
#[allow(inconsistent_fields)]
#[derive(Clone, Copy, Debug, PartialEq, Eq)]
pub enum T2Plan {
    /// Nothing is written.
    Done(T2Outcome),
    /// The version was recorded before; it must be the stored one.
    Verify { version_id: u64 },
    /// The version is recorded under the identifier, after the allocator has moved on
    /// if it handed the identifier out.
    Record { version_id: u64, allocator: Option<u64> },
    /// The stored rows contradict each other, or identifiers have run out.
    Invalid,
}

/// What recording a version must come to. A version without an identifier gets the
/// next one; a repeat must name the version that was recorded.
pub open spec fn t2_plan(
    intent: Option<IntentRow>,
    current: u64,
    epoch: u64,
    nonce: u64,
    file_id: u64,
    id: u64,
    next_id: u64,
) -> T2Plan {
    match intent {
        None => T2Plan::Done(T2Outcome::MissingIntent),
        Some(intent) => if !holds_claim(intent, current, epoch, nonce) {
            T2Plan::Done(T2Outcome::Fenced)
        } else if intent.file_id != file_id {
            T2Plan::Done(T2Outcome::NotPreparing)
        } else if intent.state == "commit_durable"@ {
            match intent.candidate_version_id {
                None => T2Plan::Invalid,
                Some(candidate) => if id != 0 && id != candidate {
                    T2Plan::Done(T2Outcome::NotPreparing)
                } else {
                    T2Plan::Verify { version_id: candidate }
                },
            }
        } else if intent.state == "preparing"@ {
            if id != 0 {
                T2Plan::Record { version_id: id, allocator: None }
            } else if next_id == u64::MAX {
                T2Plan::Invalid
            } else {
                T2Plan::Record { version_id: next_id, allocator: Some((next_id + 1) as u64) }
            }
        } else {
            T2Plan::Done(T2Outcome::NotPreparing)
        },
    }
}

/// Decides on recording a version.
pub fn t2_record_version(
    intent: &Option<IntentRecord>,
    current: u64,
    epoch: CoordinatorEpoch,
    nonce: u64,
    version: &CatalogVersion,
    next_id: u64,
) -> (plan: T2Plan)
    ensures
        plan == t2_plan(
            row(*intent),
            current,
            epoch.0,
            nonce,
            version.file_id,
            version.id,
            next_id,
        ),
{
    let intent = match intent {
        Some(intent) => intent,
        None => {
            return T2Plan::Done(T2Outcome::MissingIntent);
        },
    };
    proof {
        lemma_state_words();
    }
    if !check_claim(intent, current, epoch.0, nonce) {
        return T2Plan::Done(T2Outcome::Fenced);
    }
    if intent.file_id != version.file_id {
        return T2Plan::Done(T2Outcome::NotPreparing);
    }
    if same_text(intent.state.as_str(), "commit_durable") {
        return match intent.candidate_version_id {
            None => T2Plan::Invalid,
            Some(candidate) => {
                if version.id != 0 && version.id != candidate {
                    T2Plan::Done(T2Outcome::NotPreparing)
                } else {
                    T2Plan::Verify { version_id: candidate }
                }
            },
        };
    }
    if !same_text(intent.state.as_str(), "preparing") {
        return T2Plan::Done(T2Outcome::NotPreparing);
    }
    if version.id != 0 {
        return T2Plan::Record { version_id: version.id, allocator: None };
    }
    match next_id.checked_add(1) {
        Some(after) => T2Plan::Record { version_id: next_id, allocator: Some(after) },
        None => T2Plan::Invalid,
    }
}

/// Whether the stored version is the one that was to be recorded under the identifier.
pub open spec fn stored_as(stored: Option<CatalogVersion>, id: u64, version: CatalogVersion) -> bool {
    stored == Some(CatalogVersion { id, ..version })
}

pub fn version_matches(stored: &Option<CatalogVersion>, id: u64, version: &CatalogVersion) -> (r:
    bool)
    ensures
        r == stored_as(*stored, id, *version),
{
    match stored {
        Some(found) => found.id == id && found.file_id == version.file_id && found.generation
            == version.generation && same_id(&found.commit_id, &version.commit_id)
            && found.parent_version_id == version.parent_version_id && found.size == version.size
            && same_id(&found.digest, &version.digest),
        None => false,
    }
}

/// Where the allocator stands after an identifier was used: behind it, and never
/// before where it was. `None` means that identifiers have run out.
pub open spec fn advanced(next_id: u64, version_id: u64) -> Option<u64> {
    if version_id == u64::MAX {
        None
    } else if next_id > version_id {
        Some(next_id)
    } else {
        Some((version_id + 1) as u64)
    }
}

/// Moves the allocator behind an identifier that was used.
pub fn advance_version_allocator(next_id: u64, version_id: u64) -> (after: Option<u64>)
    ensures
        after == advanced(next_id, version_id),
{
    match version_id.checked_add(1) {
        Some(behind) => {
            if next_id < behind {
                Some(behind)
            } else {
                Some(next_id)
            }
        },
        None => None,
    }
}

/// The identifier that an allocator hands out, and where it stands afterwards. An
/// allocator that is not there yet starts behind the largest identifier in use.
pub open spec fn allocated(next_id: Option<u64>, largest: Option<u64>) -> Option<(u64, u64)> {
    let id = match (next_id, largest) {
        (Some(next), _) => next as int,
        (None, Some(largest)) => largest + 1,
        (None, None) => 1,
    };
    if id >= u64::MAX {
        None
    } else {
        Some((id as u64, (id + 1) as u64))
    }
}

pub fn allocate_id(next_id: Option<u64>, largest: Option<u64>) -> (r: Option<(u64, u64)>)
    ensures
        r == allocated(next_id, largest),
{
    let id: u64 = match next_id {
        Some(next) => next,
        None => match largest {
            Some(largest) => match largest.checked_add(1) {
                Some(id) => id,
                None => {
                    return None;
                },
            },
            None => 1,
        },
    };
    match id.checked_add(1) {
        Some(after) => Some((id, after)),
        None => None,
    }
}

/// The rows that decide on a publication.
pub struct PublishRows {
    pub intent: Option<IntentRecord>,
    /// The row of the operation.
    pub operation: Option<OperationRecord>,
    /// The row of the intent's actor.
    pub principal: Option<PrincipalRecord>,
    /// The owner of the collection of the intent's file.
    pub owner: Option<u64>,
    /// What the intent's actor may do in the owner's name.
    pub memberships: Vec<MembershipRecord>,
    /// The row of the intent's candidate.
    pub version: Option<VersionRecord>,
    /// The head of the intent's file.
    pub head: Option<HeadRecord>,
}

/// Whether an operation is a publication that has not ended.
pub open spec fn operation_ready(
    operation: Option<OperationRecord>,
    op: u64,
    actor: u64,
    fingerprint: [u8; 32],
) -> bool {
    operation matches Some(found) && {
        &&& found@.operation_id == op
        &&& found@.actor_id == actor
        &&& found@.kind == "publish"@
        &&& found@.request_fingerprint == fingerprint
        &&& found@.state != "succeeded"@
        &&& found@.state != "failed"@
    }
}

/// Whether a principal is active and its authorization has not changed.
pub open spec fn principal_ready(
    principal: Option<PrincipalRecord>,
    actor: u64,
    authz_epoch: u64,
) -> bool {
    principal matches Some(found) && found.id == actor && found.state@ == "active"@
        && found.authz_epoch == authz_epoch
}

/// Whether the capability lets its holder write.
pub open spec fn may_write(capability: Seq<char>) -> bool {
    capability == "write"@ || capability == "manage_members"@
}

/// Whether the capability lets its holder read.
pub open spec fn may_read(capability: Seq<char>) -> bool {
    capability == "read"@ || may_write(capability)
}

/// Whether one of the memberships is of the actor in the organization and allows what
/// is asked for.
pub open spec fn member_may(
    memberships: Seq<MembershipRecord>,
    organization: u64,
    actor: u64,
    write: bool,
) -> bool {
    exists|i: int|
        0 <= i < memberships.len() && (#[trigger] memberships[i]).organization_id == organization
            && memberships[i].member_id == actor && if write {
            may_write(memberships[i].capability@)
        } else {
            may_read(memberships[i].capability@)
        }
}

/// Whether the actor may act on what the owner has.
pub open spec fn actor_may(
    owner: Option<u64>,
    memberships: Seq<MembershipRecord>,
    actor: u64,
    write: bool,
) -> bool {
    owner matches Some(owner) && (owner == actor || member_may(memberships, owner, actor, write))
}

/// What publishing comes to.
#[allow(inconsistent_fields)]
#[derive(Clone, Copy, Debug, PartialEq, Eq)]
pub enum PublishPlan {
    /// Nothing is written.
    Reply(T3Outcome),
    /// The candidate becomes the head, and intent and operation end.
    Publish { candidate: u64, generation: u64 },
    /// Generations have run out.
    Invalid,
}

/// What publishing must come to.
pub open spec fn publish_plan(rows: PublishRows, current: u64, epoch: u64, op: u64, nonce: u64) -> PublishPlan {
    match rows.intent {
        None => PublishPlan::Reply(T3Outcome::MissingIntent),
        Some(found) => {
            let intent = found@;
            if !holds_claim(intent, current, epoch, nonce) {
                PublishPlan::Reply(T3Outcome::Fenced)
            } else if intent.state == "published"@ {
                PublishPlan::Reply(T3Outcome::AlreadyPublished)
            } else if intent.state != "commit_durable"@ {
                PublishPlan::Reply(T3Outcome::NotCommitDurable)
            } else if !operation_ready(
                rows.operation,
                op,
                intent.actor_id,
                intent.request_fingerprint,
            ) {
                PublishPlan::Reply(T3Outcome::MissingOperation)
            } else if !principal_ready(rows.principal, intent.actor_id, intent.authz_epoch)
                || !actor_may(rows.owner, rows.memberships@, intent.actor_id, true) {
                PublishPlan::Reply(T3Outcome::AuthorizationDenied)
            } else {
                match intent.candidate_version_id {
                    None => PublishPlan::Reply(T3Outcome::MissingCandidate),
                    Some(candidate) => if intent.expected_head_generation == u64::MAX {
                        PublishPlan::Invalid
                    } else if !continues(rows.version, intent, candidate) {
                        PublishPlan::Reply(T3Outcome::VersionConflict)
                    } else if !head_is(
                        rows.head,
                        intent.file_id,
                        intent.expected_head_version_id,
                        intent.expected_head_generation,
                    ) {
                        PublishPlan::Reply(T3Outcome::HeadConflict)
                    } else {
                        PublishPlan::Publish {
                            candidate,
                            generation: (intent.expected_head_generation + 1) as u64,
                        }
                    },
                }
            }
        },
    }
}

/// Whether the candidate's row continues the head that the intent was begun on.
pub open spec fn continues(version: Option<VersionRecord>, intent: IntentRow, candidate: u64) -> bool {
    version matches Some(found) && found.id == candidate && found.file_id == intent.file_id
        && found.generation == intent.expected_head_generation + 1 && found.parent_version_id
        == intent.expected_head_version_id
}

/// Whether the head is the given one.
pub open spec fn head_is(
    head: Option<HeadRecord>,
    file_id: u64,
    version_id: Option<u64>,
    generation: u64,
) -> bool {
    head == Some(HeadRecord { file_id, version_id, generation })
}

fn check_operation(
    operation: &Option<OperationRecord>,
    op: u64,
    actor: u64,
    fingerprint: &[u8; 32],
) -> (ready: bool)
    ensures
        ready == operation_ready(*operation, op, actor, *fingerprint),
{
    match operation {
        Some(found) => found.operation_id == op && found.actor_id == actor && same_text(
            found.kind.as_str(),
            "publish",
        ) && same_id(&found.request_fingerprint, fingerprint) && !same_text(
            found.state.as_str(),
            "succeeded",
        ) && !same_text(found.state.as_str(), "failed"),
        None => false,
    }
}

fn check_principal(principal: &Option<PrincipalRecord>, actor: u64, authz_epoch: u64) -> (ready:
    bool)
    ensures
        ready == principal_ready(*principal, actor, authz_epoch),
{
    match principal {
        Some(found) => found.id == actor && same_text(found.state.as_str(), "active")
            && found.authz_epoch == authz_epoch,
        None => false,
    }
}

fn check_membership(
    memberships: &Vec<MembershipRecord>,
    organization: u64,
    actor: u64,
    write: bool,
) -> (may: bool)
    ensures
        may == member_may(memberships@, organization, actor, write),
{
    let mut i: usize = 0;
    while i < memberships.len()
        invariant
            i <= memberships@.len(),
            forall|j: int|
                0 <= j < i ==> !((#[trigger] memberships@[j]).organization_id == organization
                    && memberships@[j].member_id == actor && if write {
                    may_write(memberships@[j].capability@)
                } else {
                    may_read(memberships@[j].capability@)
                }),
        decreases memberships@.len() - i,
    {
        let found = &memberships[i];
        if found.organization_id == organization && found.member_id == actor {
            let capability = found.capability.as_str();
            if same_text(capability, "write") || same_text(capability, "manage_members") || (!write
                && same_text(capability, "read")) {
                return true;
            }
        }
        i = i + 1;
    }
    false
}

fn check_actor(
    owner: Option<u64>,
    memberships: &Vec<MembershipRecord>,
    actor: u64,
    write: bool,
) -> (may: bool)
    ensures
        may == actor_may(owner, memberships@, actor, write),
{
    match owner {
        Some(owner) => owner == actor || check_membership(memberships, owner, actor, write),
        None => false,
    }
}

fn check_head(
    head: &Option<HeadRecord>,
    file_id: u64,
    version_id: Option<u64>,
    generation: u64,
) -> (is: bool)
    ensures
        is == head_is(*head, file_id, version_id, generation),
{
    match head {
        Some(found) => found.file_id == file_id && found.version_id == version_id
            && found.generation == generation,
        None => false,
    }
}

/// Decides on a publication.
pub fn t3_publish_in_transaction(
    rows: &PublishRows,
    current: u64,
    epoch: CoordinatorEpoch,
    op: u64,
    nonce: u64,
) -> (plan: PublishPlan)
    ensures
        plan == publish_plan(*rows, current, epoch.0, op, nonce),
{
    let intent = match &rows.intent {
        Some(intent) => intent,
        None => {
            return PublishPlan::Reply(T3Outcome::MissingIntent);
        },
    };
    if !check_claim(intent, current, epoch.0, nonce) {
        return PublishPlan::Reply(T3Outcome::Fenced);
    }
    if same_text(intent.state.as_str(), "published") {
        return PublishPlan::Reply(T3Outcome::AlreadyPublished);
    }
    if !same_text(intent.state.as_str(), "commit_durable") {
        return PublishPlan::Reply(T3Outcome::NotCommitDurable);
    }
    if !check_operation(&rows.operation, op, intent.actor_id, &intent.request_fingerprint) {
        return PublishPlan::Reply(T3Outcome::MissingOperation);
    }
    if !check_principal(&rows.principal, intent.actor_id, intent.authz_epoch) {
        return PublishPlan::Reply(T3Outcome::AuthorizationDenied);
    }
    if !check_actor(rows.owner, &rows.memberships, intent.actor_id, true) {
        return PublishPlan::Reply(T3Outcome::AuthorizationDenied);
    }
    let candidate: u64 = match intent.candidate_version_id {
        Some(candidate) => candidate,
        None => {
            return PublishPlan::Reply(T3Outcome::MissingCandidate);
        },
    };
    let generation: u64 = match intent.expected_head_generation.checked_add(1) {
        Some(generation) => generation,
        None => {
            return PublishPlan::Invalid;
        },
    };
    let valid = match &rows.version {
        Some(found) => found.id == candidate && found.file_id == intent.file_id && found.generation
            == generation && found.parent_version_id == intent.expected_head_version_id,
        None => false,
    };
    if !valid {
        return PublishPlan::Reply(T3Outcome::VersionConflict);
    }
    if !check_head(
        &rows.head,
        intent.file_id,
        intent.expected_head_version_id,
        intent.expected_head_generation,
    ) {
        return PublishPlan::Reply(T3Outcome::HeadConflict);
    }
    PublishPlan::Publish { candidate, generation }
}

/// A decimal digit.
pub open spec fn digit(d: nat) -> Seq<char> {
    if d == 0 {
        "0"@
    } else if d == 1 {
        "1"@
    } else if d == 2 {
        "2"@
    } else if d == 3 {
        "3"@
    } else if d == 4 {
        "4"@
    } else if d == 5 {
        "5"@
    } else if d == 6 {
        "6"@
    } else if d == 7 {
        "7"@
    } else if d == 8 {
        "8"@
    } else {
        "9"@
    }
}

/// A number in decimal digits.
pub open spec fn decimal(n: nat) -> Seq<char>
    decreases n,
{
    if n < 10 {
        digit(n)
    } else {
        decimal(n / 10) + digit(n % 10)
    }
}

fn digit_text(d: u64) -> (text: &'static str)
    requires
        d < 10,
    ensures
        text@ == digit(d as nat),
{
    if d == 0 {
        "0"
    } else if d == 1 {
        "1"
    } else if d == 2 {
        "2"
    } else if d == 3 {
        "3"
    } else if d == 4 {
        "4"
    } else if d == 5 {
        "5"
    } else if d == 6 {
        "6"
    } else if d == 7 {
        "7"
    } else if d == 8 {
        "8"
    } else {
        "9"
    }
}

/// A number in decimal digits.
pub fn decimal_text(n: u64) -> (text: String)
    ensures
        text@ == decimal(n as nat),
    decreases n,
{
    if n < 10 {
        digit_text(n).to_owned()
    } else {
        let mut text = decimal_text(n / 10);
        text.append(digit_text(n % 10));
        text
    }
}

/// The rows after a publication: the head, the intent and the operation.
pub open spec fn published_head(intent: IntentRow, candidate: u64, generation: u64) -> HeadRecord {
    HeadRecord { file_id: intent.file_id, version_id: Some(candidate), generation }
}

pub open spec fn published_intent(intent: IntentRow) -> IntentRow {
    IntentRow { state: "published"@, pinned: false, ..intent }
}

pub open spec fn published_operation(operation: OperationRow, candidate: u64) -> OperationRow {
    OperationRow {
        state: "succeeded"@,
        result: Some("version:"@ + decimal(candidate as nat)),
        error: None,
        ..operation
    }
}

/// Writes a publication into the rows.
pub fn apply_publish(rows: PublishRows, candidate: u64, generation: u64) -> (after: PublishRows)
    requires
        rows.intent is Some,
        rows.operation is Some,
    ensures
        after.intent is Some,
        after.intent->0@ == published_intent(rows.intent->0@),
        after.operation is Some,
        after.operation->0@ == published_operation(rows.operation->0@, candidate),
        after.head == Some(published_head(rows.intent->0@, candidate, generation)),
        after.principal == rows.principal,
        after.owner == rows.owner,
        after.memberships == rows.memberships,
        after.version == rows.version,
{
    let mut after = rows;
    match after.intent {
        Some(found) => {
            let mut intent = found;
            after.head = Some(
                HeadRecord { file_id: intent.file_id, version_id: Some(candidate), generation },
            );
            intent.state = "published".to_owned();
            intent.pinned = false;
            after.intent = Some(intent);
        },
        None => {},
    }
    match after.operation {
        Some(found) => {
            let mut operation = found;
            operation.state = "succeeded".to_owned();
            let mut result = "version:".to_owned();
            result.append(decimal_text(candidate).as_str());
            operation.result = Some(result);
            operation.error = None;
            after.operation = Some(operation);
        },
        None => {},
    }
    after
}

/// Whether the rows are what publishing leaves.
pub open spec fn publish_right(
    rows: PublishRows,
    after: PublishRows,
    current: u64,
    epoch: u64,
    op: u64,
    nonce: u64,
    r: Option<bool>,
) -> bool {
    match publish_plan(rows, current, epoch, op, nonce) {
        PublishPlan::Publish { candidate, generation } => {
            &&& r == Some(true)
            &&& after.intent is Some
            &&& after.intent->0@ == published_intent(rows.intent->0@)
            &&& after.operation is Some
            &&& after.operation->0@ == published_operation(rows.operation->0@, candidate)
            &&& after.head == Some(published_head(rows.intent->0@, candidate, generation))
            &&& after.version == rows.version
            &&& after.principal == rows.principal
            &&& after.owner == rows.owner
            &&& after.memberships == rows.memberships
        },
        PublishPlan::Reply(_) => r == Some(false) && after == rows,
        PublishPlan::Invalid => r is None && after == rows,
    }
}

/// Publishes in the rows and answers whether it did, or `None` where generations have
/// run out.
pub fn t3_publish(rows: PublishRows, current: u64, epoch: u64, op: u64, nonce: u64) -> (r: (
    Option<bool>,
    PublishRows,
))
    ensures
        publish_right(rows, r.1, current, epoch, op, nonce, r.0),
{
    match t3_publish_in_transaction(&rows, current, CoordinatorEpoch::new(epoch), op, nonce) {
        PublishPlan::Publish { candidate, generation } => {
            let after = apply_publish(rows, candidate, generation);
            (Some(true), after)
        },
        PublishPlan::Reply(_) => (Some(false), rows),
        PublishPlan::Invalid => (None, rows),
    }
}

/// Whether a recorded operation stands in the way of another: it has the identifier, or
/// it is the same request.
pub open spec fn stands_in_way(found: OperationRow, request: OperationRow) -> bool {
    found.operation_id == request.operation_id || (found.actor_id == request.actor_id && found.kind
        == request.kind && found.request_fingerprint == request.request_fingerprint)
}

/// Whether one of the rows stands in the way.
pub open spec fn recorded(rows: Seq<OperationRecord>, request: OperationRow) -> bool {
    exists|i: int| 0 <= i < rows.len() && stands_in_way((#[trigger] rows[i])@, request)
}

/// Records an operation, unless one with its identifier or the same request is there.
pub fn record_operation(rows: &mut Vec<OperationRecord>, request: &OperationRecord) -> (added: bool)
    ensures
        added == !recorded(old(rows)@, request@),
        if added {
            final(rows)@.len() == old(rows)@.len() + 1 && final(rows)@.drop_last() == old(rows)@
                && final(rows)@.last()@ == request@
        } else {
            final(rows)@ == old(rows)@
        },
{
    let mut i: usize = 0;
    while i < rows.len()
        invariant
            i <= rows@.len(),
            rows@ == old(rows)@,
            forall|j: int| 0 <= j < i ==> !stands_in_way((#[trigger] rows@[j])@, request@),
        decreases rows@.len() - i,
    {
        let found = &rows[i];
        if found.operation_id == request.operation_id || (found.actor_id == request.actor_id
            && same_text(found.kind.as_str(), request.kind.as_str()) && same_id(
            &found.request_fingerprint,
            &request.request_fingerprint,
        )) {
            assert(stands_in_way(rows@[i as int]@, request@));
            return false;
        }
        i = i + 1;
    }
    let copy = request.clone();
    rows.push(copy);
    proof {
        assert(rows@.drop_last() =~= old(rows)@);
    }
    true
}

/// Whether an intent can be given up with the claim.
pub open spec fn abortable(intent: Option<IntentRow>, current: u64, epoch: u64, nonce: u64) -> bool {
    intent matches Some(intent) && holds_claim(intent, current, epoch, nonce) && !ended(intent)
}

/// An intent after it was given up.
pub open spec fn aborted_intent(intent: IntentRow, reason: Seq<char>) -> IntentRow {
    IntentRow { state: "aborted"@, abort_reason: Some(reason), ..intent }
}

/// An operation after its intent was given up.
pub open spec fn failed_operation(operation: OperationRow, reason: Seq<char>) -> OperationRow {
    OperationRow { state: "failed"@, error: Some(reason), ..operation }
}

pub open spec fn operation_row(operation: Option<OperationRecord>) -> Option<OperationRow> {
    match operation {
        Some(operation) => Some(operation@),
        None => None,
    }
}

/// Gives an intent up and fails its operation, where the claim allows it.
pub fn abort(
    intent: &mut Option<IntentRecord>,
    operation: &mut Option<OperationRecord>,
    current: u64,
    epoch: u64,
    nonce: u64,
    reason: &str,
) -> (given_up: bool)
    ensures
        given_up == abortable(row(*old(intent)), current, epoch, nonce),
        row(*final(intent)) == if given_up {
            Some(aborted_intent(row(*old(intent))->0, reason@))
        } else {
            row(*old(intent))
        },
        operation_row(*final(operation)) == match operation_row(*old(operation)) {
            Some(found) if given_up => Some(failed_operation(found, reason@)),
            found => found,
        },
{
    let mut found = match intent {
        Some(found) => found.clone(),
        None => {
            return false;
        },
    };
    if !check_claim(&found, current, epoch, nonce) || same_text(found.state.as_str(), "published")
        || same_text(found.state.as_str(), "aborted") {
        return false;
    }
    found.state = "aborted".to_owned();
    found.abort_reason = Some(reason.to_owned());
    *intent = Some(found);
    match operation {
        Some(ended) => {
            let mut ended = ended.clone();
            ended.state = "failed".to_owned();
            ended.error = Some(reason.to_owned());
            *operation = Some(ended);
        },
        None => {},
    }
    true
}

/// The row that an intent begins as: in preparation, with nothing recorded of how it
/// goes on.
pub open spec fn prepared(intent: IntentRow) -> IntentRow {
    IntentRow { candidate_version_id: None, state: "preparing"@, abort_reason: None, ..intent }
}

pub fn prepared_intent(intent: &IntentRecord) -> (prepared_row: IntentRecord)
    ensures
        prepared_row@ == prepared(intent@),
{
    let mut begun = intent.clone();
    begun.candidate_version_id = None;
    begun.state = "preparing".to_owned();
    begun.abort_reason = None;
    begun
}

/// The row that an operation begins as.
pub open spec fn begun(operation: OperationRow) -> OperationRow {
    OperationRow { state: "in_progress"@, result: None, error: None, ..operation }
}

pub fn begun_operation(operation: &OperationRecord) -> (begun_row: OperationRecord)
    ensures
        begun_row@ == begun(operation@),
{
    let mut taken_in = operation.clone();
    taken_in.state = "in_progress".to_owned();
    taken_in.result = None;
    taken_in.error = None;
    taken_in
}

/// The row to be recorded for an intent whose operation was taken in, or `None` where
/// the intent is refused.
pub fn t1_prepare(
    intent: &IntentRecord,
    operation: &Option<OperationRecord>,
    principal: &Option<PrincipalRecord>,
) -> (recorded_row: Option<IntentRecord>)
    ensures
        row(recorded_row) == if operation_ready(
            *operation,
            intent@.operation_id,
            intent@.actor_id,
            intent@.request_fingerprint,
        ) && principal_ready(*principal, intent@.actor_id, intent@.authz_epoch) {
            Some(prepared(intent@))
        } else {
            None
        },
{
    if check_operation(
        operation,
        intent.operation_id,
        intent.actor_id,
        &intent.request_fingerprint,
    ) && check_principal(principal, intent.actor_id, intent.authz_epoch) {
        Some(prepared_intent(intent))
    } else {
        None
    }
}

/// The rows that decide on the beginning of a publication.
pub struct PrepareRows {
    /// Whether a row has the operation's identifier, or its actor, kind and
    /// fingerprint.
    pub recorded: bool,
    pub coordinator_epoch: u64,
    /// The row of the intent's actor.
    pub principal: Option<PrincipalRecord>,
    /// The owner of the collection of the intent's file.
    pub owner: Option<u64>,
    /// What the intent's actor may do in the owner's name.
    pub memberships: Vec<MembershipRecord>,
    /// The head of the intent's file.
    pub head: Option<HeadRecord>,
}

/// What beginning a publication answers: that it is begun, that it was recorded
/// before, or that it is refused.
#[derive(Clone, Copy, Debug, PartialEq, Eq, Structural)]
pub enum PreparePlan {
    Begin,
    Recorded,
    Invalid,
}

/// What beginning a publication must come to.
pub open spec fn prepare_plan(
    operation: OperationRow,
    intent: IntentRow,
    rows: PrepareRows,
) -> PreparePlan {
    if operation.operation_id != intent.operation_id || operation.actor_id != intent.actor_id
        || operation.request_fingerprint != intent.request_fingerprint {
        PreparePlan::Invalid
    } else if rows.recorded {
        PreparePlan::Recorded
    } else if rows.coordinator_epoch == intent.owner_epoch && principal_ready(
        rows.principal,
        intent.actor_id,
        intent.authz_epoch,
    ) && actor_may(rows.owner, rows.memberships@, intent.actor_id, true) && ((
    intent.expected_head_version_id is None && intent.expected_head_generation == 0) || head_is(
        rows.head,
        intent.file_id,
        intent.expected_head_version_id,
        intent.expected_head_generation,
    )) {
        PreparePlan::Begin
    } else {
        PreparePlan::Invalid
    }
}

/// Decides on the beginning of a publication.
pub fn prepare_publish(operation: &OperationRecord, intent: &IntentRecord, rows: &PrepareRows) -> (
    plan: PreparePlan)
    ensures
        plan == prepare_plan(operation@, intent@, *rows),
{
    if operation.operation_id != intent.operation_id || operation.actor_id != intent.actor_id
        || !same_id(&operation.request_fingerprint, &intent.request_fingerprint) {
        return PreparePlan::Invalid;
    }
    if rows.recorded {
        return PreparePlan::Recorded;
    }
    if rows.coordinator_epoch != intent.owner_epoch || !check_principal(
        &rows.principal,
        intent.actor_id,
        intent.authz_epoch,
    ) || !check_actor(rows.owner, &rows.memberships, intent.actor_id, true) {
        return PreparePlan::Invalid;
    }
    if intent.expected_head_version_id.is_none() && intent.expected_head_generation == 0 {
        return PreparePlan::Begin;
    }
    if check_head(
        &rows.head,
        intent.file_id,
        intent.expected_head_version_id,
        intent.expected_head_generation,
    ) {
        PreparePlan::Begin
    } else {
        PreparePlan::Invalid
    }
}

/// What the rows say of reading a version: whether it is there, whether the actor may
/// read it, and whether it is published.
pub fn read_authorization(
    actor: u64,
    version_exists: bool,
    principal: &Option<PrincipalRecord>,
    owner: Option<u64>,
    memberships: &Vec<MembershipRecord>,
    published: bool,
) -> (r: ReadAuthorization)
    ensures
        r == if !version_exists {
            ReadAuthorization::Missing
        } else if !is_active(*principal, actor) || !actor_may(owner, memberships@, actor, false) {
            ReadAuthorization::Unauthorized
        } else if !published {
            ReadAuthorization::NotPublished
        } else {
            ReadAuthorization::Authorized
        },
{
    if !version_exists {
        return ReadAuthorization::Missing;
    }
    if !check_active(principal, actor) || !check_actor(owner, memberships, actor, false) {
        return ReadAuthorization::Unauthorized;
    }
    if !published {
        return ReadAuthorization::NotPublished;
    }
    ReadAuthorization::Authorized
}

/// Whether a reader gets a lease: it may read the version, which is published, and
/// knows the coordinator that is there.
pub fn acquire_reader_lease(
    authorization: ReadAuthorization,
    current_epoch: u64,
    coordinator_epoch: u64,
) -> (granted: bool)
    ensures
        granted == (authorization is Authorized && current_epoch == coordinator_epoch),
{
    authorization == ReadAuthorization::Authorized && current_epoch == coordinator_epoch
}

/// The state of an operation by its word.
pub fn operation_state(word: &str) -> (state: Option<CatalogOperationState>)
    ensures
        state == if word@ == "succeeded"@ {
            Some(CatalogOperationState::Succeeded)
        } else if word@ == "failed"@ {
            Some(CatalogOperationState::Failed)
        } else if word@ == "in_progress"@ {
            Some(CatalogOperationState::InProgress)
        } else {
            None
        },
{
    if same_text(word, "succeeded") {
        Some(CatalogOperationState::Succeeded)
    } else if same_text(word, "failed") {
        Some(CatalogOperationState::Failed)
    } else if same_text(word, "in_progress") {
        Some(CatalogOperationState::InProgress)
    } else {
        None
    }
}

/// A lease on a version for a reader.
#[derive(Clone, Copy, Debug, PartialEq, Eq, Structural)]
pub struct ReaderLease {
    pub lease_id: u64,
    pub file_id: u64,
    pub version_id: u64,
    pub actor_id: u64,
    pub coordinator_epoch: u64,
}

/// Whether the stored lease is the one that is asked for, and the coordinator that
/// granted it is still there.
pub fn reader_lease_active(stored: &Option<ReaderLease>, wanted: &ReaderLease, current_epoch: u64) -> (
    active: bool)
    ensures
        active == (*stored == Some(*wanted) && wanted.coordinator_epoch == current_epoch),
{
    match stored {
        Some(found) => *found == *wanted && wanted.coordinator_epoch == current_epoch,
        None => false,
    }
}

/// What the creation of a collection or a file comes to.
#[derive(Clone, Copy, Debug, PartialEq, Eq, Structural)]
pub enum CreateStep {
    /// The actor may not create it, or identifiers have run out.
    Refuse,
    /// It is there under the identifier.
    Found { id: u64 },
    /// It is recorded under the identifier, and the allocator moves on.
    Create { id: u64, next_id: u64 },
}

/// What the creation must come to, where the actor may create it or not.
pub open spec fn create_step(
    allowed: bool,
    existing: Option<u64>,
    next_id: Option<u64>,
    largest: Option<u64>,
) -> CreateStep {
    if !allowed {
        CreateStep::Refuse
    } else {
        match existing {
            Some(id) => CreateStep::Found { id },
            None => match allocated(next_id, largest) {
                Some((id, next_id)) => CreateStep::Create { id, next_id },
                None => CreateStep::Refuse,
            },
        }
    }
}

/// Whether the principal is the actor and active.
pub open spec fn is_active(principal: Option<PrincipalRecord>, actor: u64) -> bool {
    principal matches Some(found) && found.id == actor && found.state@ == "active"@
}

fn check_active(principal: &Option<PrincipalRecord>, actor: u64) -> (active: bool)
    ensures
        active == is_active(*principal, actor),
{
    match principal {
        Some(found) => found.id == actor && same_text(found.state.as_str(), "active"),
        None => false,
    }
}

/// Decides on a collection that an actor wants to own, given the identifier under which
/// the actor has one of that name.
pub fn create_collection(
    actor: u64,
    principal: &Option<PrincipalRecord>,
    existing: Option<u64>,
    next_id: Option<u64>,
    largest: Option<u64>,
) -> (step: CreateStep)
    ensures
        step == create_step(is_active(*principal, actor), existing, next_id, largest),
{
    create(check_active(principal, actor), existing, next_id, largest)
}

/// Decides on a file in a collection, given the collection's owner and the identifier
/// under which it has a file of that name. Only the owner creates files.
pub fn create_file(
    actor: u64,
    principal: &Option<PrincipalRecord>,
    owner: Option<u64>,
    existing: Option<u64>,
    next_id: Option<u64>,
    largest: Option<u64>,
) -> (step: CreateStep)
    ensures
        step == create_step(
            owner == Some(actor) && is_active(*principal, actor),
            existing,
            next_id,
            largest,
        ),
{
    let owns = match owner {
        Some(owner) => owner == actor,
        None => false,
    };
    create(owns && check_active(principal, actor), existing, next_id, largest)
}

fn create(allowed: bool, existing: Option<u64>, next_id: Option<u64>, largest: Option<u64>) -> (step:
    CreateStep)
    ensures
        step == create_step(allowed, existing, next_id, largest),
{
    if !allowed {
        return CreateStep::Refuse;
    }
    match existing {
        Some(id) => CreateStep::Found { id },
        None => match allocate_id(next_id, largest) {
            Some((id, next_id)) => CreateStep::Create { id, next_id },
            None => CreateStep::Refuse,
        },
    }
}

/// Where an allocator stands after a bootstrap that used an identifier.
pub fn bootstrap_allocator(next_id: Option<u64>, used: u64) -> (after: u64)
    ensures
        after == ({
            let behind = if used == u64::MAX {
                used
            } else {
                (used + 1) as u64
            };
            match next_id {
                Some(next) if next > behind => next,
                _ => behind,
            }
        }),
{
    let behind: u64 = match used.checked_add(1) {
        Some(behind) => behind,
        None => used,
    };
    match next_id {
        Some(next) => if next > behind {
            next
        } else {
            behind
        },
        None => behind,
    }
}

/// The rows that a bootstrap finds after it has put in what was missing.
pub struct BootstrapRows {
    pub principal_kind: String,
    pub principal_state: String,
    pub principal_epoch: u64,
    pub collection_owner: u64,
    pub collection_name: String,
    pub file_collection: u64,
    pub file_name: String,
    pub head_version: Option<u64>,
    pub head_generation: u64,
}

/// Whether what is there is what the bootstrap was to install. The head may have moved
/// on since.
pub open spec fn bootstrapped(
    rows: BootstrapRows,
    principal: u64,
    collection: u64,
    collection_name: Seq<char>,
    file_name: Seq<char>,
) -> bool {
    &&& rows.principal_kind@ == "user"@
    &&& rows.principal_state@ == "active"@
    &&& rows.principal_epoch == 0
    &&& rows.collection_owner == principal
    &&& rows.collection_name@ == collection_name
    &&& rows.file_collection == collection
    &&& rows.file_name@ == file_name
    &&& rows.head_version is Some <==> rows.head_generation > 0
}

pub fn bootstrap(
    rows: &BootstrapRows,
    principal: u64,
    collection: u64,
    collection_name: &str,
    file_name: &str,
) -> (valid: bool)
    ensures
        valid == bootstrapped(*rows, principal, collection, collection_name@, file_name@),
{
    let valid_head = match rows.head_version {
        Some(_) => rows.head_generation > 0,
        None => rows.head_generation == 0,
    };
    same_text(rows.principal_kind.as_str(), "user") && same_text(
        rows.principal_state.as_str(),
        "active",
    ) && rows.principal_epoch == 0 && rows.collection_owner == principal && same_text(
        rows.collection_name.as_str(),
        collection_name,
    ) && rows.file_collection == collection && same_text(rows.file_name.as_str(), file_name)
        && valid_head
}

/// A publication that was carried out is not carried out again: the same request is
/// answered that it is published.
pub proof fn law_publication_happens_once(
    rows: PublishRows,
    after: PublishRows,
    current: u64,
    epoch: u64,
    op: u64,
    nonce: u64,
    candidate: u64,
    generation: u64,
)
    requires
        publish_plan(rows, current, epoch, op, nonce) == (PublishPlan::Publish {
            candidate,
            generation,
        }),
        after.intent is Some,
        after.intent->0@ == published_intent(rows.intent->0@),
    ensures
        publish_plan(after, current, epoch, op, nonce) == PublishPlan::Reply(
            T3Outcome::AlreadyPublished,
        ),
{
}

/// An operation is recorded once: after it was recorded, it stands in its own way.
pub proof fn law_operation_is_recorded_once(rows: Seq<OperationRecord>, request: OperationRow)
    requires
        rows.len() > 0,
        rows.last()@ == request,
    ensures
        recorded(rows, request),
{
    assert(stands_in_way(rows[rows.len() - 1]@, request));
}

/// Of two intents begun on one head, the second is refused once the first is
/// published.
pub proof fn law_second_publication_conflicts(
    rows: PublishRows,
    current: u64,
    epoch: u64,
    op: u64,
    nonce: u64,
    first: IntentRow,
    candidate: u64,
)
    requires
        rows.intent is Some,
        rows.intent->0@.file_id == first.file_id,
        rows.intent->0@.expected_head_generation == first.expected_head_generation,
        first.expected_head_generation < u64::MAX,
        rows.head == Some(
            published_head(first, candidate, (first.expected_head_generation + 1) as u64),
        ),
    ensures
        !(publish_plan(rows, current, epoch, op, nonce) is Publish),
{
}

/// A publication moves the head by one generation, from the head that it was begun on,
/// to a version whose parent is that head.
pub proof fn law_publication_continues_head(
    rows: PublishRows,
    current: u64,
    epoch: u64,
    op: u64,
    nonce: u64,
    candidate: u64,
    generation: u64,
)
    requires
        publish_plan(rows, current, epoch, op, nonce) == (PublishPlan::Publish {
            candidate,
            generation,
        }),
    ensures
        rows.head is Some,
        rows.head->0.generation + 1 == generation,
        rows.version is Some,
        rows.version->0.id == candidate,
        rows.version->0.parent_version_id == rows.head->0.version_id,
        rows.version->0.file_id == rows.head->0.file_id,
        holds_claim(rows.intent->0@, current, epoch, nonce),
{
}

/// After a claim the coordinator that took it holds it, and an earlier coordinator's
/// requests are fenced off.
pub proof fn law_claim_fences_earlier_owner(
    intent: IntentRow,
    current: u64,
    nonce: u64,
    taken: IntentRow,
    earlier: u64,
    earlier_nonce: u64,
)
    requires
        taken == owned(intent, current, nonce),
        earlier != current || earlier_nonce != nonce,
    ensures
        holds_claim(taken, current, current, nonce),
        t2_answer(Some(taken), current, earlier, earlier_nonce) == T2Outcome::Fenced,
        !abortable(Some(taken), current, earlier, earlier_nonce),
{
}

/// Once an intent has ended, no claim, record or abort changes it.
pub proof fn law_ended_intent_is_left_alone(
    intent: IntentRow,
    current: u64,
    epoch: u64,
    nonce: u64,
    decision: ClaimDecision,
)
    requires
        ended(intent),
        claim_right(Some(intent), current, epoch, nonce, decision),
    ensures
        !(decision is Take),
        !(t2_answer(Some(intent), current, epoch, nonce) is Applied),
        !abortable(Some(intent), current, epoch, nonce),
{
    lemma_state_words();
}

/// Creating what was created finds it, under the identifier that it was given, whatever
/// the allocator has handed out since.
pub proof fn law_creation_is_idempotent(
    allowed: bool,
    next_id: Option<u64>,
    largest: Option<u64>,
    id: u64,
    after: u64,
    later: Option<u64>,
    in_use: Option<u64>,
)
    requires
        create_step(allowed, None, next_id, largest) == (CreateStep::Create { id, next_id: after }),
    ensures
        create_step(allowed, Some(id), later, in_use) == (CreateStep::Found { id }),
        after > id,
        next_id is None && largest is Some ==> id > largest->0,
{
}

/// An intent that was given up stays so: no request brings it back.
pub proof fn law_aborted_intent_stays(
    intent: IntentRow,
    reason: Seq<char>,
    current: u64,
    epoch: u64,
    nonce: u64,
)
    ensures
        ended(aborted_intent(intent, reason)),
        !abortable(Some(aborted_intent(intent, reason)), current, epoch, nonce),
        !(t2_answer(Some(aborted_intent(intent, reason)), current, epoch, nonce) is Applied),
{
    lemma_state_words();
}

/// An allocator never hands out an identifier that was used.
pub proof fn law_allocator_stays_behind_used_ids(next_id: u64, used: u64, after: u64)
    requires
        advanced(next_id, used) == Some(after),
    ensures
        after > used,
        after >= next_id,
{
}

} // verus!
