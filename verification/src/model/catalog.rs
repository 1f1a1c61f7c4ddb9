//! The single-coordinator catalog: principals, collections and files.
use vstd::prelude::*;
use vstd::string::*;

use crate::bytes::same_id;
use crate::catalog::ids::{CollectionId, CommitId, FileId, OperationId, PrincipalId};
use crate::catalog::model::{named_fingerprint, next, same_text};
use crate::catalog::names::norm;
use crate::catalog::rules::unless;
use crate::catalog::types::{
    Capability, CatalogError, Collection, File, FileVersion, Head, MemberKey, OperationKind,
    OperationRecord, OperationResult, Principal, PrincipalKind, PrincipalState,
};
use crate::model::rules::{
    add_collection, add_file, auth_problem, bump_problem, bumped, collection_named, completed,
    create_collection_outcome, create_file_outcome, file_named, file_problem, fresh,
    membership_problem, reserve_outcome, state_outcome, BasicView,
};
use crate::model::types::{DagOperationIndexEntry, PublishIntent};
use crate::table::{lemma_views_insert, position, views, Table};

verus! {

broadcast use lemma_views_insert;

#[derive(Debug)]
pub struct ModelCatalog {
    pub next_principal: u64,
    pub next_collection: u64,
    pub next_file: u64,
    pub next_version: u64,
    pub next_operation: u64,
    pub global_authz_epoch: u64,
    pub coordinator_epoch: u64,
    pub principals: Table<PrincipalId, Principal>,
    pub collections: Table<CollectionId, Collection>,
    pub files: Table<FileId, File>,
    pub versions: Table<FileId, Vec<FileVersion>>,
    pub intents: Table<OperationId, PublishIntent>,
    pub operations: Table<OperationId, OperationRecord>,
    pub dag_index: Table<OperationId, DagOperationIndexEntry>,
    pub memberships: Table<MemberKey, Capability>,
    pub retention_roots: Table<CommitId, ()>,
    pub reader_pins: Table<CommitId, ()>,
}

impl View for ModelCatalog {
    type V = BasicView;

    open spec fn view(&self) -> BasicView {
        BasicView {
            next_principal: self.next_principal,
            next_collection: self.next_collection,
            next_file: self.next_file,
            next_version: self.next_version,
            next_operation: self.next_operation,
            global_authz_epoch: self.global_authz_epoch,
            coordinator_epoch: self.coordinator_epoch,
            principals: self.principals@,
            collections: views(self.collections@),
            files: views(self.files@),
            versions: views(self.versions@),
            intents: views(self.intents@),
            operations: self.operations@,
            dag_index: self.dag_index@,
            memberships: self.memberships@,
            retention_roots: self.retention_roots@.dom(),
            reader_pins: self.reader_pins@.dom(),
        }
    }
}

impl Default for ModelCatalog {
    /// A catalog that holds nothing. Its coordinator epoch is zero; `new` starts at one.
    fn default() -> (catalog: Self)
        ensures
            catalog@ == (BasicView { coordinator_epoch: 0, ..fresh() }),
    {
        let catalog = ModelCatalog {
            next_principal: 0,
            next_collection: 0,
            next_file: 0,
            next_version: 0,
            next_operation: 0,
            global_authz_epoch: 0,
            coordinator_epoch: 0,
            principals: Table::new(),
            collections: Table::new(),
            files: Table::new(),
            versions: Table::new(),
            intents: Table::new(),
            operations: Table::new(),
            dag_index: Table::new(),
            memberships: Table::new(),
            retention_roots: Table::new(),
            reader_pins: Table::new(),
        };
        proof {
            assert(catalog@ =~= (BasicView { coordinator_epoch: 0, ..fresh() }));
        }
        catalog
    }
}

impl ModelCatalog {
    pub fn new() -> (catalog: Self)
        ensures
            catalog@ == fresh(),
    {
        let mut catalog = ModelCatalog::default();
        catalog.coordinator_epoch = 1;
        catalog
    }

    pub fn global_authz_epoch(&self) -> (epoch: u64)
        ensures
            epoch == self@.global_authz_epoch,
    {
        self.global_authz_epoch
    }

    pub fn allocate_operation_id(&mut self) -> (r: Result<OperationId, CatalogError>)
        ensures
            if old(self)@.next_operation == u64::MAX {
                r == Err::<OperationId, CatalogError>(CatalogError::IdExhausted) && final(self)@
                    == old(self)@
            } else {
                r == Ok::<OperationId, CatalogError>(OperationId(old(self)@.next_operation))
                    && final(self)@ == (BasicView {
                    next_operation: (old(self)@.next_operation + 1) as u64,
                    ..old(self)@
                })
            },
    {
        match next(&mut self.next_operation) {
            Ok(id) => Ok(OperationId(id)),
            Err(error) => Err(error),
        }
    }

    pub fn create_principal(&mut self, kind: PrincipalKind) -> (r: Result<
        PrincipalId,
        CatalogError,
    >)
        ensures
            if old(self)@.next_principal == u64::MAX {
                r == Err::<PrincipalId, CatalogError>(CatalogError::IdExhausted) && final(self)@
                    == old(self)@
            } else {
                let id = PrincipalId(old(self)@.next_principal);
                r == Ok::<PrincipalId, CatalogError>(id) && final(self)@ == (BasicView {
                    next_principal: (id.0 + 1) as u64,
                    principals: old(self)@.principals.insert(
                        id,
                        Principal { id, kind, state: PrincipalState::Active, authz_epoch: 0 },
                    ),
                    ..old(self)@
                })
            },
    {
        match next(&mut self.next_principal) {
            Ok(raw) => {
                let id = PrincipalId(raw);
                self.principals.insert(
                    id,
                    Principal { id, kind, state: PrincipalState::Active, authz_epoch: 0 },
                );
                Ok(id)
            },
            Err(error) => Err(error),
        }
    }

    pub fn principal(&self, id: PrincipalId) -> (principal: Option<&Principal>)
        ensures
            match principal {
                Some(principal) => self@.principals.dom().contains(id) && *principal
                    == self@.principals[id],
                None => !self@.principals.dom().contains(id),
            },
    {
        self.principals.get(&id)
    }

    pub fn membership(&self, organization: PrincipalId, member: PrincipalId) -> (capability: Option<
        Capability,
    >)
        ensures
            ({
                let key = MemberKey { organization, member };
                match capability {
                    Some(capability) => self@.memberships.dom().contains(key) && capability
                        == self@.memberships[key],
                    None => !self@.memberships.dom().contains(key),
                }
            }),
    {
        match self.memberships.get(&MemberKey { organization, member }) {
            Some(capability) => Some(*capability),
            None => None,
        }
    }

    /// Whether the actor may act on what the owner has.
    pub fn auth(&self, actor: PrincipalId, owner: PrincipalId, required: Capability) -> (r: Result<
        (),
        CatalogError,
    >)
        ensures
            r == unless(auth_problem(self@, actor, owner, required)),
    {
        let acting = match self.principals.get(&actor) {
            Some(principal) => *principal,
            None => {
                return Err(CatalogError::NotFound);
            },
        };
        if acting.state == PrincipalState::Disabled {
            return Err(CatalogError::PrincipalDisabled);
        }
        let owning = match self.principals.get(&owner) {
            Some(principal) => *principal,
            None => {
                return Err(CatalogError::NotFound);
            },
        };
        if owning.state == PrincipalState::Disabled {
            return Err(CatalogError::PrincipalDisabled);
        }
        if actor == owner {
            return Ok(());
        }
        if owning.kind == PrincipalKind::Organization {
            if let Some(capability) = self.memberships.get(
                &MemberKey { organization: owner, member: actor },
            ) {
                if capability.permits(required) {
                    return Ok(());
                }
            }
        }
        Err(CatalogError::PermissionDenied)
    }

    /// Whether the actor may write the file.
    pub(crate) fn auth_file(&self, actor: PrincipalId, file: FileId) -> (r: Result<
        (),
        CatalogError,
    >)
        ensures
            r == unless(file_problem(self@, actor, file)),
    {
        let collection: CollectionId = match self.files.get(&file) {
            Some(file) => file.collection,
            None => {
                return Err(CatalogError::NotFound);
            },
        };
        match self.collections.get(&collection) {
            Some(collection) => self.auth(actor, collection.owner, Capability::Write),
            None => Err(CatalogError::NotFound),
        }
    }

    /// Moves the catalog's authorization epoch and those of two principals on, or none.
    fn bump_authz(&mut self, first: PrincipalId, second: PrincipalId) -> (r: Result<
        (),
        CatalogError,
    >)
        ensures
            r == unless(bump_problem(old(self)@, first, second)),
            final(self)@ == if r is Ok {
                bumped(old(self)@, first, second)
            } else {
                old(self)@
            },
    {
        let global: u64 = match self.global_authz_epoch.checked_add(1) {
            Some(epoch) => epoch,
            None => {
                return Err(CatalogError::EpochExhausted);
            },
        };
        let mut one = match self.principals.get(&first) {
            Some(principal) => *principal,
            None => {
                return Err(CatalogError::NotFound);
            },
        };
        match one.authz_epoch.checked_add(1) {
            Some(epoch) => {
                one.authz_epoch = epoch;
            },
            None => {
                return Err(CatalogError::EpochExhausted);
            },
        }
        let mut two = match self.principals.get(&second) {
            Some(principal) => *principal,
            None => {
                return Err(CatalogError::NotFound);
            },
        };
        match two.authz_epoch.checked_add(1) {
            Some(epoch) => {
                two.authz_epoch = epoch;
            },
            None => {
                return Err(CatalogError::EpochExhausted);
            },
        }
        self.global_authz_epoch = global;
        self.principals.insert(first, one);
        if first != second {
            self.principals.insert(second, two);
        }
        Ok(())
    }

    fn require_organization(&self, id: PrincipalId) -> (r: Result<(), CatalogError>)
        ensures
            r == if !self@.principals.dom().contains(id) {
                Err::<(), CatalogError>(CatalogError::NotFound)
            } else if self@.principals[id].kind is User {
                Err(CatalogError::InvalidOrganization)
            } else {
                Ok(())
            },
    {
        match self.principals.get(&id) {
            Some(principal) => {
                if principal.kind == PrincipalKind::Organization {
                    Ok(())
                } else {
                    Err(CatalogError::InvalidOrganization)
                }
            },
            None => Err(CatalogError::NotFound),
        }
    }

    /// Whether a membership may be changed, and its epochs moved on for it.
    fn change_membership(
        &mut self,
        actor: PrincipalId,
        organization: PrincipalId,
        member: PrincipalId,
    ) -> (r: Result<(), CatalogError>)
        ensures
            r == unless(membership_problem(old(self)@, actor, organization, member)),
            final(self)@ == if r is Ok {
                bumped(old(self)@, organization, member)
            } else {
                old(self)@
            },
    {
        match self.auth(actor, organization, Capability::ManageMembers) {
            Err(error) => {
                return Err(error);
            },
            Ok(_) => {},
        }
        match self.require_organization(organization) {
            Err(error) => {
                return Err(error);
            },
            Ok(_) => {},
        }
        if !self.principals.contains_key(&member) {
            return Err(CatalogError::NotFound);
        }
        self.bump_authz(organization, member)
    }

    pub fn grant_membership(
        &mut self,
        actor: PrincipalId,
        organization: PrincipalId,
        member: PrincipalId,
        capability: Capability,
    ) -> (r: Result<(), CatalogError>)
        ensures
            r == unless(membership_problem(old(self)@, actor, organization, member)),
            final(self)@ == if r is Ok {
                BasicView {
                    memberships: old(self)@.memberships.insert(
                        MemberKey { organization, member },
                        capability,
                    ),
                    ..bumped(old(self)@, organization, member)
                }
            } else {
                old(self)@
            },
    {
        match self.change_membership(actor, organization, member) {
            Err(error) => {
                return Err(error);
            },
            Ok(_) => {},
        }
        self.memberships.insert(MemberKey { organization, member }, capability);
        Ok(())
    }

    pub fn revoke_membership(
        &mut self,
        actor: PrincipalId,
        organization: PrincipalId,
        member: PrincipalId,
    ) -> (r: Result<(), CatalogError>)
        ensures
            r == unless(membership_problem(old(self)@, actor, organization, member)),
            final(self)@ == if r is Ok {
                BasicView {
                    memberships: old(self)@.memberships.remove(MemberKey { organization, member }),
                    ..bumped(old(self)@, organization, member)
                }
            } else {
                old(self)@
            },
    {
        match self.change_membership(actor, organization, member) {
            Err(error) => {
                return Err(error);
            },
            Ok(_) => {},
        }
        self.memberships.remove(&MemberKey { organization, member });
        Ok(())
    }

    fn set_state(&mut self, id: PrincipalId, state: PrincipalState) -> (r: Result<
        (),
        CatalogError,
    >)
        ensures
            (r, final(self)@) == state_outcome(old(self)@, id, state),
    {
        if !self.principals.contains_key(&id) {
            return Err(CatalogError::NotFound);
        }
        match self.bump_authz(id, id) {
            Err(error) => {
                return Err(error);
            },
            Ok(_) => {},
        }
        match self.principals.get(&id) {
            Some(found) => {
                let mut principal = *found;
                principal.state = state;
                self.principals.insert(id, principal);
            },
            None => {},
        }
        Ok(())
    }

    pub fn disable(&mut self, id: PrincipalId) -> (r: Result<(), CatalogError>)
        ensures
            (r, final(self)@) == state_outcome(old(self)@, id, PrincipalState::Disabled),
    {
        self.set_state(id, PrincipalState::Disabled)
    }

    pub fn enable(&mut self, id: PrincipalId) -> (r: Result<(), CatalogError>)
        ensures
            (r, final(self)@) == state_outcome(old(self)@, id, PrincipalState::Active),
    {
        self.set_state(id, PrincipalState::Active)
    }

    pub fn disable_principal(&mut self, id: PrincipalId) -> (r: Result<(), CatalogError>)
        ensures
            (r, final(self)@) == state_outcome(old(self)@, id, PrincipalState::Disabled),
    {
        self.disable(id)
    }

    pub fn enable_principal(&mut self, id: PrincipalId) -> (r: Result<(), CatalogError>)
        ensures
            (r, final(self)@) == state_outcome(old(self)@, id, PrincipalState::Active),
    {
        self.enable(id)
    }

    /// Takes a request in, or answers what is known of it.
    fn reserve(
        &mut self,
        op: OperationId,
        actor: PrincipalId,
        kind: OperationKind,
        fingerprint: [u8; 32],
    ) -> (r: Result<Option<OperationResult>, CatalogError>)
        ensures
            (r, final(self)@) == reserve_outcome(old(self)@, op, actor, kind, fingerprint),
    {
        match self.operations.get(&op) {
            Some(record) => {
                if record.kind != kind || record.actor != actor || !same_id(
                    &record.request_fingerprint,
                    &fingerprint,
                ) {
                    return Err(CatalogError::OperationConflict);
                }
                if let Some(error) = record.error {
                    return Err(error);
                }
                return Ok(record.result);
            },
            None => {},
        }
        self.operations.insert(
            op,
            OperationRecord {
                operation_id: op,
                actor,
                kind,
                request_fingerprint: fingerprint,
                result: None,
                error: None,
            },
        );
        Ok(None)
    }

    /// Records the end of a request.
    pub(crate) fn complete(&mut self, op: OperationId, end: Result<OperationResult, CatalogError>)
        ensures
            final(self)@ == completed(old(self)@, op, end),
    {
        if let Some(found) = self.operations.get(&op) {
            let mut record = *found;
            match end {
                Ok(result) => {
                    record.result = Some(result);
                },
                Err(error) => {
                    record.error = Some(error);
                },
            }
            self.operations.insert(op, record);
        }
    }

    fn collection_taken(&self, owner: PrincipalId, name: &str) -> (taken: bool)
        ensures
            taken == collection_named(self@, owner, name@),
    {
        let mut i: usize = 0;
        let n: usize = self.collections.len();
        while i < n
            invariant
                i <= n == self.collections.items().len(),
                forall|j: int|
                    0 <= j < i ==> !((#[trigger] self.collections.items()[j]).1.owner == owner
                        && self.collections.items()[j].1.name@ == name@),
            decreases n - i,
        {
            let collection = self.collections.value_at(i);
            if collection.owner == owner && same_text(collection.name.as_str(), name) {
                proof {
                    let id = self.collections.items()[i as int].0;
                    assert(self@.collections.dom().contains(id));
                }
                return true;
            }
            i = i + 1;
        }
        proof {
            assert forall|id: CollectionId| #[trigger]
                self@.collections.dom().contains(id) implies !(self@.collections[id].owner == owner
                && self@.collections[id].name == name@) by {
                let j = position(self.collections.items(), id);
                assert(self.collections.items()[j].0 == id);
            }
        }
        false
    }

    fn file_taken(&self, collection: CollectionId, name: &str) -> (taken: bool)
        ensures
            taken == file_named(self@, collection, name@),
    {
        let mut i: usize = 0;
        let n: usize = self.files.len();
        while i < n
            invariant
                i <= n == self.files.items().len(),
                forall|j: int|
                    0 <= j < i ==> !((#[trigger] self.files.items()[j]).1.collection == collection
                        && self.files.items()[j].1.name@ == name@),
            decreases n - i,
        {
            let file = self.files.value_at(i);
            if file.collection == collection && same_text(file.name.as_str(), name) {
                proof {
                    let id = self.files.items()[i as int].0;
                    assert(self@.files.dom().contains(id));
                }
                return true;
            }
            i = i + 1;
        }
        proof {
            assert forall|id: FileId| #[trigger]
                self@.files.dom().contains(id) implies !(self@.files[id].collection == collection
                && self@.files[id].name == name@) by {
                let j = position(self.files.items(), id);
                assert(self.files.items()[j].0 == id);
            }
        }
        false
    }

    fn add_collection(&mut self, actor: PrincipalId, owner: PrincipalId, name: String) -> (r: Result<
        CollectionId,
        CatalogError,
    >)
        ensures
            (r, final(self)@) == add_collection(old(self)@, actor, owner, name@),
    {
        match self.auth(actor, owner, Capability::ManageMembers) {
            Err(error) => {
                return Err(error);
            },
            Ok(_) => {},
        }
        if self.collection_taken(owner, name.as_str()) {
            return Err(CatalogError::NameTaken);
        }
        let id = match next(&mut self.next_collection) {
            Ok(raw) => CollectionId(raw),
            Err(error) => {
                return Err(error);
            },
        };
        self.collections.insert(id, Collection { id, owner, name });
        Ok(id)
    }

    fn add_file(&mut self, actor: PrincipalId, collection: CollectionId, name: String) -> (r: Result<
        FileId,
        CatalogError,
    >)
        ensures
            (r, final(self)@) == add_file(old(self)@, actor, collection, name@),
    {
        let owner: PrincipalId = match self.collections.get(&collection) {
            Some(collection) => collection.owner,
            None => {
                return Err(CatalogError::NotFound);
            },
        };
        match self.auth(actor, owner, Capability::Write) {
            Err(error) => {
                return Err(error);
            },
            Ok(_) => {},
        }
        if self.file_taken(collection, name.as_str()) {
            return Err(CatalogError::NameTaken);
        }
        let id = match next(&mut self.next_file) {
            Ok(raw) => FileId(raw),
            Err(error) => {
                return Err(error);
            },
        };
        let head = Head { version_id: None, generation: 0 };
        self.files.insert(id, File { id, collection, name, head });
        Ok(id)
    }

    /// Makes a collection. A retry of the same request answers the same.
    pub fn create_collection(
        &mut self,
        actor: PrincipalId,
        owner: PrincipalId,
        name: &str,
        op: OperationId,
    ) -> (r: Result<CollectionId, CatalogError>)
        ensures
            (r, final(self)@) == create_collection_outcome(old(self)@, actor, owner, name@, op),
    {
        let normal = match norm(name) {
            Ok(normal) => normal,
            Err(error) => {
                return Err(error);
            },
        };
        let request = named_fingerprint(
            "cairn/catalog/create-collection/v1",
            actor.0,
            owner.0,
            normal.as_str(),
        );
        match self.reserve(op, actor, OperationKind::CreateCollection, request) {
            Err(error) => {
                return Err(error);
            },
            Ok(Some(OperationResult::Collection(id))) => {
                return Ok(id);
            },
            Ok(Some(_)) => {
                return Err(CatalogError::OperationConflict);
            },
            Ok(None) => {},
        }
        match self.add_collection(actor, owner, normal) {
            Ok(id) => {
                self.complete(op, Ok(OperationResult::Collection(id)));
                Ok(id)
            },
            Err(error) => {
                self.complete(op, Err(error));
                Err(error)
            },
        }
    }

    /// Makes a file. A retry of the same request answers the same.
    pub fn create_file(
        &mut self,
        actor: PrincipalId,
        collection: CollectionId,
        name: &str,
        op: OperationId,
    ) -> (r: Result<FileId, CatalogError>)
        ensures
            (r, final(self)@) == create_file_outcome(old(self)@, actor, collection, name@, op),
    {
        let normal = match norm(name) {
            Ok(normal) => normal,
            Err(error) => {
                return Err(error);
            },
        };
        let request = named_fingerprint(
            "cairn/catalog/create-file/v1",
            actor.0,
            collection.0,
            normal.as_str(),
        );
        match self.reserve(op, actor, OperationKind::CreateFile, request) {
            Err(error) => {
                return Err(error);
            },
            Ok(Some(OperationResult::File(id))) => {
                return Ok(id);
            },
            Ok(Some(_)) => {
                return Err(CatalogError::OperationConflict);
            },
            Ok(None) => {},
        }
        match self.add_file(actor, collection, normal) {
            Ok(id) => {
                self.complete(op, Ok(OperationResult::File(id)));
                Ok(id)
            },
            Err(error) => {
                self.complete(op, Err(error));
                Err(error)
            },
        }
    }

    pub fn head(&self, file: FileId) -> (head: Option<&Head>)
        ensures
            match head {
                Some(head) => self@.files.dom().contains(file) && *head == self@.files[file].head,
                None => !self@.files.dom().contains(file),
            },
    {
        match self.files.get(&file) {
            Some(file) => Some(&file.head),
            None => None,
        }
    }

    /// The versions of a file, oldest first.
    pub fn list_versions(&self, file: FileId) -> (versions: Option<&[FileVersion]>)
        ensures
            match versions {
                Some(versions) => self@.versions.dom().contains(file) && versions@
                    == self@.versions[file],
                None => !self@.versions.dom().contains(file),
            },
    {
        match self.versions.get(&file) {
            Some(versions) => Some(versions.as_slice()),
            None => None,
        }
    }

    /// What is recorded of a request, for the actor who made it.
    pub fn query_operation(&self, actor: PrincipalId, op: OperationId) -> (r: Result<
        Option<&OperationRecord>,
        CatalogError,
    >)
        ensures
            if !self@.operations.dom().contains(op) {
                r matches Ok(record) && record is None
            } else if self@.operations[op].actor != actor {
                r matches Err(error) && error == CatalogError::PermissionDenied
            } else {
                r matches Ok(record) && record is Some && *record->0 == self@.operations[op]
            },
    {
        match self.operations.get(&op) {
            Some(record) => {
                if record.actor != actor {
                    Err(CatalogError::PermissionDenied)
                } else {
                    Ok(Some(record))
                }
            },
            None => Ok(None),
        }
    }

    pub fn intent(&self, op: OperationId) -> (intent: Option<&PublishIntent>)
        ensures
            match intent {
                Some(intent) => self@.intents.dom().contains(op) && intent@ == self@.intents[op],
                None => !self@.intents.dom().contains(op),
            },
    {
        self.intents.get(&op)
    }

    pub fn dag_operation(&self, op: OperationId) -> (entry: Option<&DagOperationIndexEntry>)
        ensures
            match entry {
                Some(entry) => self@.dag_index.dom().contains(op) && *entry == self@.dag_index[op],
                None => !self@.dag_index.dom().contains(op),
            },
    {
        self.dag_index.get(&op)
    }
}

} // verus!
