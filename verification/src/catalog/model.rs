//! The catalog: principals, collections, files, their versions, and the protocol by
//! which a version is published.
use vstd::prelude::*;
use vstd::string::*;

use crate::bytes::same_id;
use crate::catalog::ids::{CollectionId, CommitId, FileId, OperationId, PrincipalId, VersionId};
use crate::catalog::names::{fingerprint, fingerprint_of, norm, part_views};
use crate::catalog::rules::{
    actor_problem, add_collection, add_file, auth_problem, bump_problem, bumped, collection_named,
    completed, create_collection_outcome, create_file_outcome, fence_problem, file_named,
    file_problem, fresh, membership_problem, publish_request, reserve_outcome, state_outcome,
    unless, version_named, CatalogView,
};
use crate::catalog::types::{
    lemma_token, Capability, CatalogError, CatalogHandoff, Collection, FenceToken, File,
    FileVersion, Head, MemberKey, OperationKind, OperationRecord, OperationResult, Principal,
    PrincipalKind, PrincipalState, PublicIntentView, PublicPublishIntent, PublishIntent,
    SystemAuthority,
};
use crate::table::{lemma_views_insert, views, Table};

verus! {

broadcast use {lemma_token, lemma_views_insert};

pub struct ModelCatalog {
    pub next_principal: u64,
    pub next_collection: u64,
    pub next_file: u64,
    pub next_version: u64,
    pub next_operation: u64,
    pub coordinator_epoch: u64,
    pub next_fence_nonce: u64,
    pub principals: Table<PrincipalId, Principal>,
    pub collections: Table<CollectionId, Collection>,
    pub files: Table<FileId, File>,
    pub versions: Table<FileId, Vec<FileVersion>>,
    pub intents: Table<OperationId, PublishIntent>,
    pub operations: Table<OperationId, OperationRecord>,
    pub handoffs: Table<OperationId, CatalogHandoff>,
    pub memberships: Table<MemberKey, Capability>,
    pub retention_roots: Table<CommitId, ()>,
    pub reader_pins: Table<CommitId, u64>,
}

impl View for ModelCatalog {
    type V = CatalogView;

    open spec fn view(&self) -> CatalogView {
        CatalogView {
            next_principal: self.next_principal,
            next_collection: self.next_collection,
            next_file: self.next_file,
            next_version: self.next_version,
            next_operation: self.next_operation,
            coordinator_epoch: self.coordinator_epoch,
            next_fence_nonce: self.next_fence_nonce,
            principals: self.principals@,
            collections: views(self.collections@),
            files: views(self.files@),
            versions: views(self.versions@),
            intents: views(self.intents@),
            operations: self.operations@,
            handoffs: self.handoffs@,
            memberships: self.memberships@,
            retention_roots: self.retention_roots@.dom(),
            reader_pins: self.reader_pins@,
        }
    }
}

/// An answer about an intent, taken by its view.
pub open spec fn shown(r: Result<PublicPublishIntent, CatalogError>) -> Result<
    PublicIntentView,
    CatalogError,
> {
    match r {
        Ok(intent) => Ok(intent@),
        Err(error) => Err(error),
    }
}

/// The next identifier of a kind.
pub(crate) fn next(counter: &mut u64) -> (r: Result<u64, CatalogError>)
    ensures
        match r {
            Ok(id) => id == *old(counter) && *final(counter) == *old(counter) + 1,
            Err(error) => *old(counter) == u64::MAX && *final(counter) == *old(counter) && error
                == CatalogError::IdExhausted,
        },
{
    let id: u64 = *counter;
    match counter.checked_add(1) {
        Some(after) => {
            *counter = after;
            Ok(id)
        },
        None => Err(CatalogError::IdExhausted),
    }
}

/// The fingerprint of a request to publish.
pub(crate) fn publish_fingerprint(actor: PrincipalId, file: FileId, expected: Head) -> (id: [u8; 32])
    ensures
        id == publish_request(actor, file, expected),
{
    let version: u64 = match expected.version_id {
        Some(version) => version.0,
        None => u64::MAX,
    };
    let ints: [u64; 4] = [actor.0, file.0, version, expected.generation];
    let parts: [&[u8]; 0] = [];
    proof {
        assert(ints@ =~= seq![actor.0, file.0, version, expected.generation]);
        assert(part_views(parts@) =~= Seq::<Seq<u8>>::empty());
    }
    fingerprint("cairn/catalog/publish/v1", &ints, &parts)
}

/// The fingerprint of a request on two identifiers and a name.
pub(crate) fn named_fingerprint(domain: &str, first: u64, second: u64, name: &str) -> (id: [u8; 32])
    ensures
        id == fingerprint_of(
            domain.spec_bytes(),
            seq![first, second],
            seq![vstd::utf8::encode_utf8(name@)],
        ),
{
    let ints: [u64; 2] = [first, second];
    let bytes = name.as_bytes();
    let parts: [&[u8]; 1] = [bytes];
    proof {
        assert(ints@ =~= seq![first, second]);
        assert(part_views(parts@) =~= seq![bytes@]);
    }
    fingerprint(domain, &ints, &parts)
}

/// Whether a list of versions holds one with that identifier and commit.
pub(crate) fn holds_version(versions: &Vec<FileVersion>, id: VersionId, commit: &CommitId) -> (found: bool)
    ensures
        found == exists|k: int|
            0 <= k < versions@.len() && (#[trigger] versions@[k]).id == id
                && versions@[k].commit_id == *commit,
{
    let mut k: usize = 0;
    while k < versions.len()
        invariant
            k <= versions@.len(),
            forall|j: int|
                0 <= j < k ==> !((#[trigger] versions@[j]).id == id && versions@[j].commit_id
                    == *commit),
        decreases versions@.len() - k,
    {
        if versions[k].id == id && same_id(&versions[k].commit_id, commit) {
            return true;
        }
        k = k + 1;
    }
    false
}

/// The commit of the first version with that identifier.
pub(crate) fn find_version(versions: &Vec<FileVersion>, id: VersionId) -> (found: Option<CommitId>)
    ensures
        match version_named(versions@, id) {
            Some(version) => found == Some(version.commit_id),
            None => found is None,
        },
{
    let mut k: usize = 0;
    proof {
        assert(versions@.skip(0) =~= versions@);
    }
    while k < versions.len()
        invariant
            k <= versions@.len(),
            version_named(versions@, id) == version_named(versions@.skip(k as int), id),
        decreases versions@.len() - k,
    {
        proof {
            assert(versions@.skip(k as int).drop_first() =~= versions@.skip(k + 1));
            assert(versions@.skip(k as int)[0] == versions@[k as int]);
        }
        if versions[k].id == id {
            return Some(versions[k].commit_id);
        }
        k = k + 1;
    }
    None
}

/// A copy of a list of versions.
pub(crate) fn copy_versions(versions: &Vec<FileVersion>) -> (copy: Vec<FileVersion>)
    ensures
        copy@ == versions@,
{
    let mut copy: Vec<FileVersion> = Vec::new();
    let mut k: usize = 0;
    while k < versions.len()
        invariant
            k <= versions@.len(),
            copy@ == versions@.take(k as int),
        decreases versions@.len() - k,
    {
        copy.push(versions[k]);
        k = k + 1;
        proof {
            assert(copy@ =~= versions@.take(k as int));
        }
    }
    proof {
        assert(versions@.take(k as int) =~= versions@);
    }
    copy
}

impl Default for ModelCatalog {
    /// A catalog that holds nothing. Its coordinator epoch is zero; `new` starts at one.
    fn default() -> (catalog: Self)
        ensures
            catalog@ == (CatalogView { coordinator_epoch: 0, ..fresh() }),
    {
        let catalog = ModelCatalog {
            next_principal: 0,
            next_collection: 0,
            next_file: 0,
            next_version: 0,
            next_operation: 0,
            coordinator_epoch: 0,
            next_fence_nonce: 0,
            principals: Table::new(),
            collections: Table::new(),
            files: Table::new(),
            versions: Table::new(),
            intents: Table::new(),
            operations: Table::new(),
            handoffs: Table::new(),
            memberships: Table::new(),
            retention_roots: Table::new(),
            reader_pins: Table::new(),
        };
        proof {
            assert(catalog@ =~= (CatalogView { coordinator_epoch: 0, ..fresh() }));
        }
        catalog
    }
}

impl ModelCatalog {
    pub fn new() -> (catalog: Self)
        ensures
            catalog@ == fresh(),
    {
        let mut catalog = ModelCatalog::default();
        catalog.coordinator_epoch = 1;
        catalog
    }

    fn put_principal(&mut self, id: PrincipalId, principal: Principal)
        ensures
            final(self)@ == (CatalogView {
                principals: old(self)@.principals.insert(id, principal),
                ..old(self)@
            }),
    {
        self.principals.insert(id, principal);
    }

    pub(crate) fn put_intent(&mut self, op: OperationId, intent: PublishIntent)
        ensures
            final(self)@ == (CatalogView {
                intents: old(self)@.intents.insert(op, intent@),
                ..old(self)@
            }),
    {
        self.intents.insert(op, intent);
    }

    pub(crate) fn put_operation(&mut self, op: OperationId, record: OperationRecord)
        ensures
            final(self)@ == (CatalogView {
                operations: old(self)@.operations.insert(op, record),
                ..old(self)@
            }),
    {
        self.operations.insert(op, record);
    }

    pub(crate) fn put_handoff(&mut self, op: OperationId, handoff: CatalogHandoff)
        ensures
            final(self)@ == (CatalogView {
                handoffs: old(self)@.handoffs.insert(op, handoff),
                ..old(self)@
            }),
    {
        self.handoffs.insert(op, handoff);
    }

    /// A copy of an intent.
    pub(crate) fn find_intent(&self, op: OperationId) -> (intent: Option<PublishIntent>)
        ensures
            match intent {
                Some(intent) => self@.intents.dom().contains(op) && intent@ == self@.intents[op],
                None => !self@.intents.dom().contains(op),
            },
    {
        match self.intents.get(&op) {
            Some(intent) => Some(intent.clone()),
            None => None,
        }
    }

    /// Whether the actor may act on what the owner has.
    pub(crate) fn auth(&self, actor: PrincipalId, owner: PrincipalId, required: Capability) -> (r: Result<
        (),
        CatalogError,
    >)
        ensures
            r == unless(auth_problem(self@, actor, owner, required)),
    {
        let acting = match self.principals.get(&actor) {
            Some(principal) => *principal,
            None => {
                return Err(CatalogError::NotFound);
            },
        };
        if acting.state == PrincipalState::Disabled {
            return Err(CatalogError::PrincipalDisabled);
        }
        let owning = match self.principals.get(&owner) {
            Some(principal) => *principal,
            None => {
                return Err(CatalogError::NotFound);
            },
        };
        if owning.state == PrincipalState::Disabled {
            return Err(CatalogError::PrincipalDisabled);
        }
        if actor == owner {
            return Ok(());
        }
        if owning.kind == PrincipalKind::Organization {
            if let Some(capability) = self.memberships.get(
                &MemberKey { organization: owner, member: actor },
            ) {
                if capability.permits(required) {
                    return Ok(());
                }
            }
        }
        Err(CatalogError::PermissionDenied)
    }

    /// Whether the actor may act on the file.
    pub(crate) fn auth_file(&self, actor: PrincipalId, file: FileId, required: Capability) -> (r: Result<
        (),
        CatalogError,
    >)
        ensures
            r == unless(file_problem(self@, actor, file, required)),
    {
        let collection: CollectionId = match self.files.get(&file) {
            Some(file) => file.collection,
            None => {
                return Err(CatalogError::NotFound);
            },
        };
        match self.collections.get(&collection) {
            Some(collection) => self.auth(actor, collection.owner, required),
            None => Err(CatalogError::NotFound),
        }
    }

    pub(crate) fn authorize_publish_actor(&self, actor: PrincipalId, intent: &PublishIntent) -> (r: Result<
        (),
        CatalogError,
    >)
        ensures
            r == unless(actor_problem(self@, actor, intent@)),
    {
        if actor != intent.actor {
            return Err(CatalogError::PermissionDenied);
        }
        self.auth_file(actor, intent.file, Capability::Write)
    }

    pub(crate) fn require_fence(&self, intent: &PublishIntent, fence: FenceToken) -> (r: Result<
        (),
        CatalogError,
    >)
        ensures
            r == unless(fence_problem(self@, intent@, fence)),
    {
        match intent.fence() {
            Some(claim) => {
                if claim == fence && fence.is_of(self.coordinator_epoch) {
                    Ok(())
                } else {
                    Err(CatalogError::FenceLost)
                }
            },
            None => Err(CatalogError::FenceLost),
        }
    }

    /// Returns the coordinator's claim on an open intent to the actor who began it.
    /// An ended intent has none: retries go by its durable record.
    pub fn claim_token(&self, actor: PrincipalId, op: OperationId) -> (r: Result<
        FenceToken,
        CatalogError,
    >)
        ensures
            r == if !self@.intents.dom().contains(op) {
                Err(CatalogError::NotFound)
            } else {
                match (
                    actor_problem(self@, actor, self@.intents[op]),
                    self@.intents[op].owner_fence,
                ) {
                    (Some(error), _) => Err(error),
                    (None, Some(fence)) => Ok(fence),
                    (None, None) => Err(CatalogError::FenceLost),
                }
            },
    {
        match self.intents.get(&op) {
            Some(intent) => match self.authorize_publish_actor(actor, intent) {
                Err(error) => Err(error),
                Ok(_) => match intent.fence() {
                    Some(fence) => Ok(fence),
                    None => Err(CatalogError::FenceLost),
                },
            },
            None => Err(CatalogError::NotFound),
        }
    }

    pub fn allocate_operation_id(&mut self) -> (r: Result<OperationId, CatalogError>)
        ensures
            if old(self)@.next_operation == u64::MAX {
                r == Err::<OperationId, CatalogError>(CatalogError::IdExhausted) && final(self)@
                    == old(self)@
            } else {
                r == Ok::<OperationId, CatalogError>(OperationId(old(self)@.next_operation))
                    && final(self)@ == (CatalogView {
                    next_operation: (old(self)@.next_operation + 1) as u64,
                    ..old(self)@
                })
            },
    {
        match next(&mut self.next_operation) {
            Ok(id) => Ok(OperationId(id)),
            Err(error) => Err(error),
        }
    }

    pub fn create_principal(&mut self, kind: PrincipalKind) -> (r: Result<
        PrincipalId,
        CatalogError,
    >)
        ensures
            if old(self)@.next_principal == u64::MAX {
                r == Err::<PrincipalId, CatalogError>(CatalogError::IdExhausted) && final(self)@
                    == old(self)@
            } else {
                let id = PrincipalId(old(self)@.next_principal);
                r == Ok::<PrincipalId, CatalogError>(id) && final(self)@ == (CatalogView {
                    next_principal: (id.0 + 1) as u64,
                    principals: old(self)@.principals.insert(
                        id,
                        Principal { id, kind, state: PrincipalState::Active, authz_epoch: 0 },
                    ),
                    ..old(self)@
                })
            },
    {
        match next(&mut self.next_principal) {
            Ok(raw) => {
                let id = PrincipalId(raw);
                self.put_principal(
                    id,
                    Principal { id, kind, state: PrincipalState::Active, authz_epoch: 0 },
                );
                Ok(id)
            },
            Err(error) => Err(error),
        }
    }

    pub fn principal(&self, id: PrincipalId) -> (principal: Option<&Principal>)
        ensures
            match principal {
                Some(principal) => self@.principals.dom().contains(id) && *principal
                    == self@.principals[id],
                None => !self@.principals.dom().contains(id),
            },
    {
        self.principals.get(&id)
    }

    pub fn membership(&self, organization: PrincipalId, member: PrincipalId) -> (capability: Option<
        Capability,
    >)
        ensures
            ({
                let key = MemberKey { organization, member };
                match capability {
                    Some(capability) => self@.memberships.dom().contains(key) && capability
                        == self@.memberships[key],
                    None => !self@.memberships.dom().contains(key),
                }
            }),
    {
        match self.memberships.get(&MemberKey { organization, member }) {
            Some(capability) => Some(*capability),
            None => None,
        }
    }

    /// Moves the authorization epochs of two principals on, or neither.
    fn bump_authz(&mut self, first: PrincipalId, second: PrincipalId) -> (r: Result<
        (),
        CatalogError,
    >)
        ensures
            r == unless(bump_problem(old(self)@, first, second)),
            final(self)@ == if r is Ok {
                bumped(old(self)@, first, second)
            } else {
                old(self)@
            },
    {
        let mut one = match self.principals.get(&first) {
            Some(principal) => *principal,
            None => {
                return Err(CatalogError::NotFound);
            },
        };
        match one.authz_epoch.checked_add(1) {
            Some(epoch) => {
                one.authz_epoch = epoch;
            },
            None => {
                return Err(CatalogError::EpochExhausted);
            },
        }
        let mut two = match self.principals.get(&second) {
            Some(principal) => *principal,
            None => {
                return Err(CatalogError::NotFound);
            },
        };
        match two.authz_epoch.checked_add(1) {
            Some(epoch) => {
                two.authz_epoch = epoch;
            },
            None => {
                return Err(CatalogError::EpochExhausted);
            },
        }
        self.put_principal(first, one);
        if first != second {
            self.put_principal(second, two);
        }
        Ok(())
    }

    fn check_membership(
        &self,
        actor: PrincipalId,
        organization: PrincipalId,
        member: PrincipalId,
    ) -> (r: Result<(), CatalogError>)
        ensures
            match r {
                Err(error) => membership_problem(self@, actor, organization, member) == Some(error),
                Ok(_) => membership_problem(self@, actor, organization, member) == bump_problem(
                    self@,
                    organization,
                    member,
                ),
            },
    {
        match self.auth(actor, organization, Capability::ManageMembers) {
            Err(error) => {
                return Err(error);
            },
            Ok(_) => {},
        }
        match self.principals.get(&organization) {
            Some(principal) => {
                if principal.kind == PrincipalKind::User {
                    return Err(CatalogError::InvalidOrganization);
                }
            },
            None => {
                return Err(CatalogError::NotFound);
            },
        }
        if actor == member {
            return Err(CatalogError::PermissionDenied);
        }
        if !self.principals.contains_key(&member) {
            return Err(CatalogError::NotFound);
        }
        Ok(())
    }

    pub fn grant_membership(
        &mut self,
        actor: PrincipalId,
        organization: PrincipalId,
        member: PrincipalId,
        capability: Capability,
    ) -> (r: Result<(), CatalogError>)
        ensures
            r == unless(membership_problem(old(self)@, actor, organization, member)),
            final(self)@ == if r is Ok {
                CatalogView {
                    memberships: old(self)@.memberships.insert(
                        MemberKey { organization, member },
                        capability,
                    ),
                    ..bumped(old(self)@, organization, member)
                }
            } else {
                old(self)@
            },
    {
        match self.check_membership(actor, organization, member) {
            Err(error) => {
                return Err(error);
            },
            Ok(_) => {},
        }
        match self.bump_authz(organization, member) {
            Err(error) => {
                return Err(error);
            },
            Ok(_) => {},
        }
        self.memberships.insert(MemberKey { organization, member }, capability);
        Ok(())
    }

    pub fn revoke_membership(
        &mut self,
        actor: PrincipalId,
        organization: PrincipalId,
        member: PrincipalId,
    ) -> (r: Result<(), CatalogError>)
        ensures
            r == unless(membership_problem(old(self)@, actor, organization, member)),
            final(self)@ == if r is Ok {
                CatalogView {
                    memberships: old(self)@.memberships.remove(MemberKey { organization, member }),
                    ..bumped(old(self)@, organization, member)
                }
            } else {
                old(self)@
            },
    {
        match self.check_membership(actor, organization, member) {
            Err(error) => {
                return Err(error);
            },
            Ok(_) => {},
        }
        match self.bump_authz(organization, member) {
            Err(error) => {
                return Err(error);
            },
            Ok(_) => {},
        }
        self.memberships.remove(&MemberKey { organization, member });
        Ok(())
    }

    fn set_state(&mut self, id: PrincipalId, state: PrincipalState) -> (r: Result<
        (),
        CatalogError,
    >)
        ensures
            (r, final(self)@) == state_outcome(old(self)@, id, state),
    {
        let ghost before = self@;
        match self.bump_authz(id, id) {
            Err(error) => {
                return Err(error);
            },
            Ok(_) => {},
        }
        match self.principals.get(&id) {
            Some(found) => {
                let mut principal = *found;
                principal.state = state;
                self.put_principal(id, principal);
                proof {
                    assert(self@ =~= state_outcome(before, id, state).1);
                }
            },
            None => {},
        }
        Ok(())
    }

    /// Disables a principal. Its epoch moves on, so that what it had begun cannot be
    /// published any more.
    pub fn disable(&mut self, _authority: &SystemAuthority, id: PrincipalId) -> (r: Result<
        (),
        CatalogError,
    >)
        ensures
            (r, final(self)@) == state_outcome(old(self)@, id, PrincipalState::Disabled),
    {
        self.set_state(id, PrincipalState::Disabled)
    }

    pub fn enable(&mut self, _authority: &SystemAuthority, id: PrincipalId) -> (r: Result<
        (),
        CatalogError,
    >)
        ensures
            (r, final(self)@) == state_outcome(old(self)@, id, PrincipalState::Active),
    {
        self.set_state(id, PrincipalState::Active)
    }

    /// Takes a request in, or answers what is known of it.
    fn reserve(
        &mut self,
        op: OperationId,
        actor: PrincipalId,
        kind: OperationKind,
        fingerprint: [u8; 32],
    ) -> (r: Result<Option<OperationResult>, CatalogError>)
        ensures
            (r, final(self)@) == reserve_outcome(old(self)@, op, actor, kind, fingerprint),
    {
        match self.operations.get(&op) {
            Some(record) => {
                if record.kind != kind || record.actor != actor || !same_id(
                    &record.request_fingerprint,
                    &fingerprint,
                ) {
                    return Err(CatalogError::OperationConflict);
                }
                if let Some(error) = record.error {
                    return Err(error);
                }
                return Ok(record.result);
            },
            None => {},
        }
        self.put_operation(
            op,
            OperationRecord {
                operation_id: op,
                actor,
                kind,
                request_fingerprint: fingerprint,
                result: None,
                error: None,
            },
        );
        Ok(None)
    }

    /// Records the end of a request.
    pub(crate) fn complete(&mut self, op: OperationId, end: Result<OperationResult, CatalogError>)
        ensures
            final(self)@ == completed(old(self)@, op, end),
    {
        if let Some(found) = self.operations.get(&op) {
            let mut record = *found;
            match end {
                Ok(result) => {
                    record.result = Some(result);
                },
                Err(error) => {
                    record.error = Some(error);
                },
            }
            self.put_operation(op, record);
        }
    }

    fn collection_taken(&self, owner: PrincipalId, name: &str) -> (taken: bool)
        ensures
            taken == collection_named(self@, owner, name@),
    {
        let mut i: usize = 0;
        let n: usize = self.collections.len();
        while i < n
            invariant
                i <= n == self.collections.items().len(),
                forall|j: int|
                    0 <= j < i ==> !((#[trigger] self.collections.items()[j]).1.owner == owner
                        && self.collections.items()[j].1.name@ == name@),
            decreases n - i,
        {
            let collection = self.collections.value_at(i);
            if collection.owner == owner && same_text(collection.name.as_str(), name) {
                proof {
                    let id = self.collections.items()[i as int].0;
                    assert(self@.collections.dom().contains(id));
                }
                return true;
            }
            i = i + 1;
        }
        proof {
            assert forall|id: CollectionId| #[trigger]
                self@.collections.dom().contains(id) implies !(self@.collections[id].owner == owner
                && self@.collections[id].name == name@) by {
                let j = crate::table::position(self.collections.items(), id);
                assert(self.collections.items()[j].0 == id);
            }
        }
        false
    }

    fn file_taken(&self, collection: CollectionId, name: &str) -> (taken: bool)
        ensures
            taken == file_named(self@, collection, name@),
    {
        let mut i: usize = 0;
        let n: usize = self.files.len();
        while i < n
            invariant
                i <= n == self.files.items().len(),
                forall|j: int|
                    0 <= j < i ==> !((#[trigger] self.files.items()[j]).1.collection == collection
                        && self.files.items()[j].1.name@ == name@),
            decreases n - i,
        {
            let file = self.files.value_at(i);
            if file.collection == collection && same_text(file.name.as_str(), name) {
                proof {
                    let id = self.files.items()[i as int].0;
                    assert(self@.files.dom().contains(id));
                }
                return true;
            }
            i = i + 1;
        }
        proof {
            assert forall|id: FileId| #[trigger]
                self@.files.dom().contains(id) implies !(self@.files[id].collection == collection
                && self@.files[id].name == name@) by {
                let j = crate::table::position(self.files.items(), id);
                assert(self.files.items()[j].0 == id);
            }
        }
        false
    }

    fn add_collection(&mut self, actor: PrincipalId, owner: PrincipalId, text: &str) -> (r: Result<
        CollectionId,
        CatalogError,
    >)
        ensures
            (r, final(self)@) == add_collection(old(self)@, actor, owner, text@),
    {
        let name = match norm(text) {
            Ok(name) => name,
            Err(error) => {
                return Err(error);
            },
        };
        match self.auth(actor, owner, Capability::ManageMembers) {
            Err(error) => {
                return Err(error);
            },
            Ok(_) => {},
        }
        if self.collection_taken(owner, name.as_str()) {
            return Err(CatalogError::NameTaken);
        }
        let id = match next(&mut self.next_collection) {
            Ok(raw) => CollectionId(raw),
            Err(error) => {
                return Err(error);
            },
        };
        self.collections.insert(id, Collection { id, owner, name });
        Ok(id)
    }

    fn add_file(&mut self, actor: PrincipalId, collection: CollectionId, text: &str) -> (r: Result<
        FileId,
        CatalogError,
    >)
        ensures
            (r, final(self)@) == add_file(old(self)@, actor, collection, text@),
    {
        let name = match norm(text) {
            Ok(name) => name,
            Err(error) => {
                return Err(error);
            },
        };
        let owner: PrincipalId = match self.collections.get(&collection) {
            Some(collection) => collection.owner,
            None => {
                return Err(CatalogError::NotFound);
            },
        };
        match self.auth(actor, owner, Capability::Write) {
            Err(error) => {
                return Err(error);
            },
            Ok(_) => {},
        }
        if self.file_taken(collection, name.as_str()) {
            return Err(CatalogError::NameTaken);
        }
        let id = match next(&mut self.next_file) {
            Ok(raw) => FileId(raw),
            Err(error) => {
                return Err(error);
            },
        };
        let head = Head { version_id: None, generation: 0 };
        self.files.insert(id, File { id, collection, name, head });
        Ok(id)
    }

    pub fn create_collection(
        &mut self,
        actor: PrincipalId,
        owner: PrincipalId,
        name: &str,
        op: OperationId,
    ) -> (r: Result<CollectionId, CatalogError>)
        ensures
            (r, final(self)@) == create_collection_outcome(old(self)@, actor, owner, name@, op),
    {
        let request = named_fingerprint(
            "cairn/catalog/create-collection/v1",
            actor.0,
            owner.0,
            name,
        );
        match self.reserve(op, actor, OperationKind::CreateCollection, request) {
            Err(error) => {
                return Err(error);
            },
            Ok(Some(OperationResult::Collection(id))) => {
                return Ok(id);
            },
            Ok(Some(_)) => {
                return Err(CatalogError::OperationConflict);
            },
            Ok(None) => {},
        }
        match self.add_collection(actor, owner, name) {
            Ok(id) => {
                self.complete(op, Ok(OperationResult::Collection(id)));
                Ok(id)
            },
            Err(error) => {
                self.complete(op, Err(error));
                Err(error)
            },
        }
    }

    pub fn create_file(
        &mut self,
        actor: PrincipalId,
        collection: CollectionId,
        name: &str,
        op: OperationId,
    ) -> (r: Result<FileId, CatalogError>)
        ensures
            (r, final(self)@) == create_file_outcome(old(self)@, actor, collection, name@, op),
    {
        let request = named_fingerprint(
            "cairn/catalog/create-file/v1",
            actor.0,
            collection.0,
            name,
        );
        match self.reserve(op, actor, OperationKind::CreateFile, request) {
            Err(error) => {
                return Err(error);
            },
            Ok(Some(OperationResult::File(id))) => {
                return Ok(id);
            },
            Ok(Some(_)) => {
                return Err(CatalogError::OperationConflict);
            },
            Ok(None) => {},
        }
        match self.add_file(actor, collection, name) {
            Ok(id) => {
                self.complete(op, Ok(OperationResult::File(id)));
                Ok(id)
            },
            Err(error) => {
                self.complete(op, Err(error));
                Err(error)
            },
        }
    }
}

/// Whether two texts are equal.
pub fn same_text(a: &str, b: &str) -> (same: bool)
    ensures
        same == (a@ == b@),
{
    let n: usize = a.unicode_len();
    if b.unicode_len() != n {
        return false;
    }
    let mut i: usize = 0;
    while i < n
        invariant
            i <= n == a@.len(),
            n == b@.len(),
            forall|j: int| 0 <= j < i ==> a@[j] == b@[j],
        decreases n - i,
    {
        if a.get_char(i) != b.get_char(i) {
            return false;
        }
        i = i + 1;
    }
    proof {
        assert(a@ =~= b@);
    }
    true
}

} // verus!
