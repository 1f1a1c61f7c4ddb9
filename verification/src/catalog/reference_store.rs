//! A store in memory: the catalog and the graph of contents behind one actor.
use vstd::prelude::*;
use std::ops::Range;

use crate::bytes::{same_id, splice};
use crate::catalog::dag::{Dag, OperationBinding};
use crate::catalog::dag_bind::commit_at;
use crate::catalog::dag_read::{lemma_snapshot_len, snapshot_at, snapshot_bytes};
use crate::catalog::graph::{node_sound, Graph};
use crate::catalog::ids::{CollectionId, CommitId, FileId, NodeId, OperationId, PrincipalId, VersionId};
use crate::catalog::model::ModelCatalog;
use crate::catalog::node::{DagError, Node, NodeView, MAX_CONTENT_NODE_PAYLOAD};
use crate::catalog::rules::{
    begin_publish_outcome, create_collection_outcome, create_file_outcome, file_problem, fresh,
    actor_problem, has_version, pins, query_problem, reader_problem, reconciled, unpinned, version_named,
    versions_of, Bindings, CatalogView,
};
use crate::catalog::types::{
    Capability, CatalogError, FenceToken, FileVersion, Head, OperationKind, OperationRecord,
    OperationResult, Principal, PrincipalKind, PrincipalState,
};
use crate::catalog::write_txn::WriteTxn;

verus! {

/// The most bytes that one write can carry.
pub const MAX_RANGE_WRITE_BYTES: usize = MAX_CONTENT_NODE_PAYLOAD;

/// What a store is opened on.
pub struct StoreConfig {
    pub catalog: ModelCatalog,
    pub dag: Dag,
    pub actor: PrincipalId,
}

impl StoreConfig {
    pub fn new(catalog: ModelCatalog, dag: Dag, actor: PrincipalId) -> (config: Self)
        ensures
            config == (StoreConfig { catalog, dag, actor }),
    {
        StoreConfig { catalog, dag, actor }
    }
}

#[derive(Clone, Copy, Debug, PartialEq, Eq)]
pub enum NativeError {
    Catalog(CatalogError),
    DagFailure(&'static str),
    InvalidRange,
    OutputTooSmall,
    WriteTooLarge,
    CannotExtend,
    TransactionClosed,
    SnapshotNotFound,
    OverlappingWrite,
    TooManyWrites,
    TooManyPatchBytes,
}

/// How a failure of the graph is reported: by its kind alone.
pub open spec fn dag_failure(error: DagError) -> NativeError {
    NativeError::DagFailure(
        match error {
            DagError::InvalidKind(_) => "invalid DAG node kind",
            DagError::InvalidPayload(_) => "invalid DAG payload",
            DagError::InvalidReference(_) => "invalid DAG reference",
            DagError::ReferenceKind { .. } => "invalid DAG reference kind",
            DagError::ArithmeticOverflow => "DAG arithmetic overflow",
            DagError::MissingNode(_) => "missing DAG node",
            DagError::HashMismatch(_) => "DAG hash mismatch",
            DagError::InvalidSnapshot(_) => "invalid DAG snapshot",
            DagError::ResourceLimit(_) => "DAG resource limit",
            DagError::OperationConflict(_) => "DAG operation conflict",
        },
    )
}

impl vstd::std_specs::convert::FromSpecImpl<CatalogError> for NativeError {
    open spec fn obeys_from_spec() -> bool {
        true
    }

    open spec fn from_spec(value: CatalogError) -> Self {
        NativeError::Catalog(value)
    }
}

impl From<CatalogError> for NativeError {
    fn from(value: CatalogError) -> (error: Self) {
        NativeError::Catalog(value)
    }
}

impl vstd::std_specs::convert::FromSpecImpl<DagError> for NativeError {
    open spec fn obeys_from_spec() -> bool {
        true
    }

    open spec fn from_spec(value: DagError) -> Self {
        dag_failure(value)
    }
}

impl From<DagError> for NativeError {
    fn from(value: DagError) -> (error: Self) {
        NativeError::DagFailure(
            match value {
                DagError::InvalidKind(_) => "invalid DAG node kind",
                DagError::InvalidPayload(_) => "invalid DAG payload",
                DagError::InvalidReference(_) => "invalid DAG reference",
                DagError::ReferenceKind { .. } => "invalid DAG reference kind",
                DagError::ArithmeticOverflow => "DAG arithmetic overflow",
                DagError::MissingNode(_) => "missing DAG node",
                DagError::HashMismatch(_) => "DAG hash mismatch",
                DagError::InvalidSnapshot(_) => "invalid DAG snapshot",
                DagError::ResourceLimit(_) => "DAG resource limit",
                DagError::OperationConflict(_) => "DAG operation conflict",
            },
        )
    }
}

pub struct Store {
    pub catalog: ModelCatalog,
    pub dag: Dag,
    pub actor: PrincipalId,
}

/// What callers see of a version.
#[derive(Clone, Copy, Debug, PartialEq, Eq, Structural)]
pub struct Version {
    pub id: VersionId,
    pub file: FileId,
    pub generation: u64,
    pub parent_version_id: Option<VersionId>,
    pub size: u64,
}

/// What callers see of a version.
pub open spec fn shown_version(version: FileVersion) -> Version {
    Version {
        id: version.id,
        file: version.file,
        generation: version.generation,
        parent_version_id: version.parent_version_id,
        size: version.size,
    }
}

impl vstd::std_specs::convert::FromSpecImpl<FileVersion> for Version {
    open spec fn obeys_from_spec() -> bool {
        true
    }

    open spec fn from_spec(value: FileVersion) -> Self {
        shown_version(value)
    }
}

impl From<FileVersion> for Version {
    fn from(value: FileVersion) -> (version: Self) {
        Version {
            id: value.id,
            file: value.file,
            generation: value.generation,
            parent_version_id: value.parent_version_id,
            size: value.size,
        }
    }
}

/// The version that is asked for: the named one, or the head.
pub open spec fn selected(v: CatalogView, file: FileId, version: Option<VersionId>) -> Option<
    Option<FileVersion>,
> {
    let id = match version {
        Some(id) => Some(id),
        None => v.files[file].head.version_id,
    };
    match id {
        Some(id) => match version_named(versions_of(v, file), id) {
            Some(version) => Some(Some(version)),
            None => None,
        },
        None => Some(None),
    }
}

/// The snapshot of a commit and its size, or what is wrong with the commit.
pub open spec fn snapshot_of(graph: Graph, commit_id: CommitId) -> Result<(NodeId, u64), DagError> {
    match commit_at(graph, commit_id) {
        None => if graph.dom().contains(commit_id) {
            Err(DagError::InvalidReference(commit_id))
        } else {
            Err(DagError::MissingNode(commit_id))
        },
        Some(commit) => match snapshot_at(graph, commit.snapshot) {
            None => if graph.dom().contains(commit.snapshot) {
                Err(DagError::InvalidReference(commit.snapshot))
            } else {
                Err(DagError::MissingNode(commit.snapshot))
            },
            Some(snapshot) => Ok((commit.snapshot, snapshot.logical_size)),
        },
    }
}

/// The view of a version of a file, or why there is none. A file without versions is
/// seen as empty.
pub open spec fn located(
    v: CatalogView,
    graph: Graph,
    actor: PrincipalId,
    file: FileId,
    version: Option<VersionId>,
) -> Result<SnapshotHandle, NativeError> {
    match file_problem(v, actor, file, Capability::Read) {
        Some(error) => Err(NativeError::Catalog(error)),
        None => match selected(v, file, version) {
            None => Err(NativeError::SnapshotNotFound),
            Some(None) => Ok(
                SnapshotHandle {
                    actor,
                    file,
                    version: None,
                    commit: None,
                    snapshot: None,
                    len: 0,
                },
            ),
            Some(Some(found)) => match snapshot_of(graph, found.commit_id) {
                Err(error) => Err(dag_failure(error)),
                Ok((snapshot, len)) => Ok(
                    SnapshotHandle {
                        actor,
                        file,
                        version: Some(found.id),
                        commit: Some(found.commit_id),
                        snapshot: Some(snapshot),
                        len,
                    },
                ),
            },
        },
    }
}

/// The catalog after a reader took hold of what a handle shows.
pub open spec fn pinned_for(v: CatalogView, handle: SnapshotHandle) -> CatalogView {
    match handle.commit {
        Some(commit) => CatalogView {
            reader_pins: v.reader_pins.insert(commit, (pins(v, commit) + 1) as u64),
            ..v
        },
        None => v,
    }
}

/// What callers see of an operation.
pub open spec fn operation_view(record: OperationRecord) -> OperationView {
    OperationView {
        operation_id: record.operation_id,
        kind: record.kind,
        file: match record.result {
            Some(OperationResult::Version(version)) => Some(version.file),
            _ => None,
        },
        parent_version_id: match record.result {
            Some(OperationResult::Version(version)) => version.parent_version_id,
            _ => None,
        },
        result: match record.result {
            Some(OperationResult::File(id)) => Some(OperationViewResult::File(id)),
            Some(OperationResult::Version(version)) => Some(
                OperationViewResult::Version {
                    id: version.id,
                    generation: version.generation,
                    size: version.size,
                    parent_version_id: version.parent_version_id,
                },
            ),
            Some(OperationResult::Aborted) => Some(OperationViewResult::Aborted),
            _ => None,
        },
        error: record.error,
    }
}

/// How a publication ended, if it has.
pub open spec fn terminal_of(record: OperationRecord) -> Option<OperationTerminal> {
    match record.error {
        Some(error) => Some(OperationTerminal::Aborted { error }),
        None => match record.result {
            Some(OperationResult::Version(version)) => Some(
                OperationTerminal::Committed(shown_version(version)),
            ),
            Some(OperationResult::Aborted) => Some(
                OperationTerminal::Aborted { error: CatalogError::Aborted },
            ),
            _ => None,
        },
    }
}

/// The answer to a request, with the error as the store reports it.
pub open spec fn reported<T>(r: Result<T, CatalogError>) -> Result<T, NativeError> {
    match r {
        Ok(value) => Ok(value),
        Err(error) => Err(NativeError::Catalog(error)),
    }
}

fn report<T>(r: Result<T, CatalogError>) -> (reply: Result<T, NativeError>)
    ensures
        reply == reported(r),
{
    match r {
        Ok(value) => Ok(value),
        Err(error) => Err(NativeError::Catalog(error)),
    }
}

/// The first of the versions with the given identifier.
fn pick_version(versions: &Vec<FileVersion>, id: VersionId) -> (found: Option<FileVersion>)
    ensures
        found == version_named(versions@, id),
{
    let mut k: usize = 0;
    proof {
        assert(versions@.skip(0) =~= versions@);
    }
    while k < versions.len()
        invariant
            k <= versions@.len(),
            version_named(versions@, id) == version_named(versions@.skip(k as int), id),
        decreases versions@.len() - k,
    {
        proof {
            assert(versions@.skip(k as int).drop_first() =~= versions@.skip(k + 1));
            assert(versions@.skip(k as int)[0] == versions@[k as int]);
        }
        if versions[k].id == id {
            return Some(versions[k]);
        }
        k = k + 1;
    }
    None
}

pub proof fn lemma_version_named(versions: Seq<FileVersion>, id: VersionId)
    ensures
        match version_named(versions, id) {
            Some(version) => version.id == id && exists|k: int|
                0 <= k < versions.len() && #[trigger] versions[k] == version,
            None => forall|k: int| 0 <= k < versions.len() ==> (#[trigger] versions[k]).id != id,
        },
    decreases versions.len(),
{
    if versions.len() > 0 {
        let rest = versions.drop_first();
        lemma_version_named(rest, id);
        assert(forall|k: int| 0 <= k < rest.len() ==> #[trigger] rest[k] == versions[k + 1]);
        if versions[0].id == id {
            assert(versions[0] == version_named(versions, id)->0);
        } else {
            match version_named(rest, id) {
                Some(version) => {
                    let k = choose|k: int| 0 <= k < rest.len() && #[trigger] rest[k] == version;
                    assert(versions[k + 1] == version);
                },
                None => {
                    assert forall|k: int| 0 <= k < versions.len() implies (
                    #[trigger] versions[k]).id != id by {
                        if k > 0 {
                            assert(rest[k - 1] == versions[k]);
                        }
                    }
                },
            }
        }
    }
}

impl Store {
    /// The store's invariant: its graph is sound.
    pub open spec fn wf(&self) -> bool {
        self.dag.wf()
    }

    /// Opens a store on a catalog and a graph, which are reconciled first.
    pub fn open(config: StoreConfig) -> (r: Result<Self, NativeError>)
        requires
            config.dag.wf(),
        ensures
            match r {
                Ok(store) => store.wf() && config.catalog@.principals.dom().contains(config.actor)
                    && store.actor == config.actor && store.dag.graph() == config.dag.graph()
                    && reconciled(
                    config.catalog@,
                    config.dag.graph(),
                    config.dag.bindings(),
                    Ok(()),
                    store.catalog@,
                    store.dag.bindings(),
                ),
                Err(error) => if config.catalog@.principals.dom().contains(config.actor) {
                    exists|problem: CatalogError, after: CatalogView, bindings: Bindings|
                        error == NativeError::Catalog(problem) && #[trigger] reconciled(
                            config.catalog@,
                            config.dag.graph(),
                            config.dag.bindings(),
                            Err(problem),
                            after,
                            bindings,
                        )
                } else {
                    error == NativeError::Catalog(CatalogError::NotFound)
                },
            },
    {
        if config.catalog.principal(config.actor).is_none() {
            return Err(NativeError::Catalog(CatalogError::NotFound));
        }
        let mut catalog = config.catalog;
        let mut dag = config.dag;
        match catalog.reconcile_startup(&mut dag) {
            Err(error) => {
                proof {
                    assert(reconciled(
                        config.catalog@,
                        config.dag.graph(),
                        config.dag.bindings(),
                        Err(error),
                        catalog@,
                        dag.bindings(),
                    ));
                }
                Err(NativeError::Catalog(error))
            },
            Ok(done) => {
                assert(done == ());
                Ok(Store { catalog, dag, actor: config.actor })
            },
        }
    }

    /// Opens an empty store with one user.
    pub fn open_default() -> (r: Result<Self, NativeError>)
        ensures
            r is Ok,
            r->Ok_0.wf(),
            r->Ok_0.actor == PrincipalId(0),
            r->Ok_0.dag.graph() == Map::<NodeId, NodeView>::empty(),
            r->Ok_0.dag.bindings() == Map::<OperationId, OperationBinding>::empty(),
            r->Ok_0.catalog@ == (CatalogView {
                next_principal: 1,
                principals: Map::empty().insert(
                    PrincipalId(0),
                    Principal {
                        id: PrincipalId(0),
                        kind: PrincipalKind::User,
                        state: PrincipalState::Active,
                        authz_epoch: 0,
                    },
                ),
                ..fresh()
            }),
    {
        let mut catalog = ModelCatalog::new();
        let actor = match catalog.create_principal(PrincipalKind::User) {
            Ok(actor) => actor,
            Err(error) => {
                return Err(NativeError::Catalog(error));
            },
        };
        let ghost before = catalog@;
        let r = Store::open(StoreConfig::new(catalog, Dag::new(), actor));
        proof {
            lemma_nothing_to_reconcile(before);
        }
        r
    }

    pub fn create_collection(&mut self, name: &str, operation_id: OperationId) -> (r: Result<
        CollectionId,
        NativeError,
    >)
        ensures
            final(self).dag == old(self).dag,
            final(self).actor == old(self).actor,
            ({
                let outcome = create_collection_outcome(
                    old(self).catalog@,
                    old(self).actor,
                    old(self).actor,
                    name@,
                    operation_id,
                );
                r == reported(outcome.0) && final(self).catalog@ == outcome.1
            }),
    {
        report(self.catalog.create_collection(self.actor, self.actor, name, operation_id))
    }

    pub fn create_file(
        &mut self,
        collection: CollectionId,
        name: &str,
        operation_id: OperationId,
    ) -> (r: Result<FileId, NativeError>)
        ensures
            final(self).dag == old(self).dag,
            final(self).actor == old(self).actor,
            ({
                let outcome = create_file_outcome(
                    old(self).catalog@,
                    old(self).actor,
                    collection,
                    name@,
                    operation_id,
                );
                r == reported(outcome.0) && final(self).catalog@ == outcome.1
            }),
    {
        report(self.catalog.create_file(self.actor, collection, name, operation_id))
    }

    pub fn allocate_operation_id(&mut self) -> (r: Result<OperationId, NativeError>)
        ensures
            final(self).dag == old(self).dag,
            final(self).actor == old(self).actor,
            if old(self).catalog@.next_operation == u64::MAX {
                r == Err::<OperationId, NativeError>(
                    NativeError::Catalog(CatalogError::IdExhausted),
                ) && final(self).catalog@ == old(self).catalog@
            } else {
                r == Ok::<OperationId, NativeError>(
                    OperationId(old(self).catalog@.next_operation),
                ) && final(self).catalog@ == (CatalogView {
                    next_operation: (old(self).catalog@.next_operation + 1) as u64,
                    ..old(self).catalog@
                })
            },
    {
        report(self.catalog.allocate_operation_id())
    }

    pub fn head(&self, file: FileId) -> (r: Result<Head, NativeError>)
        ensures
            r == match file_problem(self.catalog@, self.actor, file, Capability::Read) {
                Some(error) => Err(NativeError::Catalog(error)),
                None => Ok(self.catalog@.files[file].head),
            },
    {
        report(self.catalog.head(self.actor, file))
    }

    /// Finds a version of a file without taking hold of it.
    fn locate(&self, file: FileId, version: Option<VersionId>) -> (r: Result<
        SnapshotHandle,
        NativeError,
    >)
        ensures
            r == located(self.catalog@, self.dag.graph(), self.actor, file, version),
    {
        let versions = match self.catalog.list_versions(self.actor, file) {
            Ok(versions) => versions,
            Err(error) => {
                return Err(NativeError::Catalog(error));
            },
        };
        let id = match version {
            Some(id) => Some(id),
            None => match self.catalog.head(self.actor, file) {
                Ok(head) => head.version_id,
                Err(error) => {
                    return Err(NativeError::Catalog(error));
                },
            },
        };
        let found = match id {
            Some(id) => match pick_version(&versions, id) {
                Some(found) => found,
                None => {
                    return Err(NativeError::SnapshotNotFound);
                },
            },
            None => {
                return Ok(
                    SnapshotHandle {
                        actor: self.actor,
                        file,
                        version: None,
                        commit: None,
                        snapshot: None,
                        len: 0,
                    },
                );
            },
        };
        match self.snapshot_ref(found.commit_id) {
            Ok((snapshot, len)) => Ok(
                SnapshotHandle {
                    actor: self.actor,
                    file,
                    version: Some(found.id),
                    commit: Some(found.commit_id),
                    snapshot: Some(snapshot),
                    len,
                },
            ),
            Err(error) => Err(NativeError::from(error)),
        }
    }

    fn snapshot_ref(&self, commit_id: CommitId) -> (r: Result<(NodeId, u64), DagError>)
        ensures
            r == snapshot_of(self.dag.graph(), commit_id),
    {
        let commit = match self.dag.get(&commit_id) {
            Some(Node::Commit(commit)) => *commit,
            Some(_) => {
                return Err(DagError::InvalidReference(commit_id));
            },
            None => {
                return Err(DagError::MissingNode(commit_id));
            },
        };
        match self.dag.get(&commit.snapshot) {
            Some(Node::Snapshot(snapshot)) => Ok((commit.snapshot, snapshot.logical_size)),
            Some(_) => Err(DagError::InvalidReference(commit.snapshot)),
            None => Err(DagError::MissingNode(commit.snapshot)),
        }
    }

    /// Opens a version of a file for reading, and holds its commit until the handle
    /// is closed.
    pub fn open_snapshot(&mut self, file: FileId, version: Option<VersionId>) -> (r: Result<
        SnapshotHandle,
        NativeError,
    >)
        requires
            forall|commit: CommitId| #[trigger] pins(old(self).catalog@, commit) < u64::MAX,
        ensures
            final(self).dag == old(self).dag,
            final(self).actor == old(self).actor,
            r == located(
                old(self).catalog@,
                old(self).dag.graph(),
                old(self).actor,
                file,
                version,
            ),
            final(self).catalog@ == match r {
                Ok(handle) => pinned_for(old(self).catalog@, handle),
                Err(_) => old(self).catalog@,
            },
    {
        let handle = match self.locate(file, version) {
            Ok(handle) => handle,
            Err(error) => {
                return Err(error);
            },
        };
        if let (Some(id), Some(commit)) = (handle.version, handle.commit) {
            proof {
                let v = self.catalog@;
                let wanted = match version {
                    Some(id) => id,
                    None => v.files[file].head.version_id->0,
                };
                lemma_version_named(versions_of(v, file), wanted);
                assert(has_version(v, file, id, commit));
                assert(pins(v, commit) < u64::MAX);
            }
            match self.catalog.pin_reader(self.actor, file, id, commit) {
                Err(error) => {
                    return Err(NativeError::Catalog(error));
                },
                Ok(_) => {},
            }
        }
        Ok(handle)
    }

    /// Lets go of what a handle holds.
    pub fn close_snapshot(&mut self, handle: SnapshotHandle)
        requires
            handle.commit matches Some(commit) ==> old(self).catalog@.reader_pins.dom().contains(
                commit,
            ) ==> old(self).catalog@.reader_pins[commit] > 0,
        ensures
            final(self).dag == old(self).dag,
            final(self).actor == old(self).actor,
            final(self).catalog@ == match handle.commit {
                Some(commit) => unpinned(old(self).catalog@, commit),
                None => old(self).catalog@,
            },
    {
        if let Some(commit) = handle.commit {
            self.catalog.unpin_reader(commit);
        }
    }

    /// Opens a version of a file for reading.
    pub fn open_file_view(&mut self, file: FileId, version: Option<VersionId>) -> (r: Result<
        SnapshotHandle,
        NativeError,
    >)
        requires
            forall|commit: CommitId| #[trigger] pins(old(self).catalog@, commit) < u64::MAX,
        ensures
            final(self).dag == old(self).dag,
            final(self).actor == old(self).actor,
            r == located(
                old(self).catalog@,
                old(self).dag.graph(),
                old(self).actor,
                file,
                version,
            ),
            final(self).catalog@ == match r {
                Ok(handle) => pinned_for(old(self).catalog@, handle),
                Err(_) => old(self).catalog@,
            },
    {
        self.open_snapshot(file, version)
    }

    /// Begins a write on the head that the caller expects.
    pub fn begin_write(
        &mut self,
        file: FileId,
        expected_head: Head,
        operation_id: OperationId,
    ) -> (r: Result<WriteTxn, NativeError>)
        ensures
            final(self).dag == old(self).dag,
            final(self).actor == old(self).actor,
            match begin_write_outcome(
                old(self).catalog@,
                old(self).dag.graph(),
                old(self).actor,
                file,
                expected_head,
                operation_id,
            ) {
                (Err(error), after) => r == Err::<WriteTxn, NativeError>(error)
                    && final(self).catalog@ == after,
                (Ok((base, fence)), after) => final(self).catalog@ == after && r is Ok
                    && r->Ok_0.begun(file, expected_head, operation_id, base, fence),
            },
    {
        let base = match self.locate(file, expected_head.version_id) {
            Ok(base) => base,
            Err(error) => {
                return Err(error);
            },
        };
        let intent = match self.catalog.begin_publish(
            self.actor,
            file,
            operation_id,
            expected_head,
            None,
        ) {
            Ok(intent) => intent,
            Err(error) => {
                return Err(NativeError::Catalog(error));
            },
        };
        match self.catalog.claim_token(self.actor, operation_id) {
            Ok(fence) => Ok(WriteTxn::begin(file, expected_head, operation_id, base, fence)),
            Err(error) => Err(NativeError::Catalog(error)),
        }
    }

    pub fn query_operation(&self, operation_id: OperationId) -> (r: Result<
        Option<OperationView>,
        NativeError,
    >)
        ensures
            r == match query_problem(self.catalog@, self.actor, operation_id) {
                Some(error) => Err(NativeError::Catalog(error)),
                None => Ok(
                    if self.catalog@.operations.dom().contains(operation_id) {
                        Some(operation_view(self.catalog@.operations[operation_id]))
                    } else {
                        None
                    },
                ),
            },
    {
        match self.catalog.query_operation(self.actor, operation_id) {
            Ok(Some(record)) => Ok(Some(OperationView::of(record))),
            Ok(None) => Ok(None),
            Err(error) => Err(NativeError::Catalog(error)),
        }
    }

    /// How a publication ended. One that is under way has no end yet.
    pub fn operation_terminal(&self, operation_id: OperationId) -> (r: Result<
        Option<OperationTerminal>,
        NativeError,
    >)
        ensures
            r == match query_problem(self.catalog@, self.actor, operation_id) {
                Some(error) => Err(NativeError::Catalog(error)),
                None => Ok(
                    if self.catalog@.operations.dom().contains(operation_id) {
                        terminal_of(self.catalog@.operations[operation_id])
                    } else {
                        None
                    },
                ),
            },
    {
        let operation = match self.query_operation(operation_id) {
            Ok(Some(operation)) => operation,
            Ok(None) => {
                return Ok(None);
            },
            Err(error) => {
                return Err(error);
            },
        };
        if let Some(error) = operation.error {
            return Ok(Some(OperationTerminal::Aborted { error }));
        }
        match operation.result {
            Some(OperationViewResult::Version { id, generation, size, parent_version_id }) => {
                match operation.file {
                    Some(file) => Ok(
                        Some(
                            OperationTerminal::Committed(
                                Version { id, file, generation, parent_version_id, size },
                            ),
                        ),
                    ),
                    None => Err(NativeError::SnapshotNotFound),
                }
            },
            Some(OperationViewResult::Aborted) => Ok(
                Some(OperationTerminal::Aborted { error: CatalogError::Aborted }),
            ),
            _ => Ok(None),
        }
    }
}

/// What beginning a write does: the base that it starts from and the claim on its
/// intent.
pub open spec fn begin_write_outcome(
    v: CatalogView,
    graph: Graph,
    actor: PrincipalId,
    file: FileId,
    expected: Head,
    op: OperationId,
) -> (Result<(SnapshotHandle, FenceToken), NativeError>, CatalogView) {
    match located(v, graph, actor, file, expected.version_id) {
        Err(error) => (Err(error), v),
        Ok(base) => {
            let begun = begin_publish_outcome(v, actor, file, op, expected, None);
            match begun.0 {
                Err(error) => (Err(NativeError::Catalog(error)), begun.1),
                Ok(_) => match (
                    actor_problem(begun.1, actor, begun.1.intents[op]),
                    begun.1.intents[op].owner_fence,
                ) {
                    (Some(error), _) => (Err(NativeError::Catalog(error)), begun.1),
                    (None, Some(fence)) => (Ok((base, fence)), begun.1),
                    (None, None) => (Err(NativeError::Catalog(CatalogError::FenceLost)), begun.1),
                },
            }
        },
    }
}

/// A catalog without intents is reconciled as it is.
proof fn lemma_nothing_to_reconcile(v: CatalogView)
    requires
        v.intents == Map::<OperationId, crate::catalog::types::IntentView>::empty(),
    ensures
        forall|
            graph: Graph,
            bindings: Bindings,
            r: Result<(), CatalogError>,
            w: CatalogView,
            after: Bindings,
        | #[trigger]
            reconciled(v, graph, bindings, r, w, after) ==> r is Ok && w == v && after == bindings,
{
    assert forall|
        graph: Graph,
        bindings: Bindings,
        r: Result<(), CatalogError>,
        w: CatalogView,
        after: Bindings,
    | #[trigger] reconciled(v, graph, bindings, r, w, after) implies r is Ok && w == v && after
        == bindings by {
        let ops = choose|ops: Seq<OperationId>| #[trigger]
            crate::catalog::rules::lists_intents(v, ops) && {
                let first = crate::catalog::rules::recover_all(v, graph, bindings, ops);
                match first.0 {
                    Err(error) => r == Err::<(), CatalogError>(error) && w == first.1 && after
                        == bindings,
                    Ok(()) => w == first.1 && (r, after) == crate::catalog::rules::release_all(
                        w,
                        graph,
                        bindings,
                        ops,
                    ),
                }
            };
        if ops.len() > 0 {
            assert(ops.contains(ops[0]));
            assert(v.intents.dom().contains(ops[0]));
        }
    }
}

/// A hold on one version of a file, or on the file before its first version.
#[derive(Debug)]
pub struct SnapshotHandle {
    pub actor: PrincipalId,
    pub file: FileId,
    pub version: Option<VersionId>,
    pub commit: Option<CommitId>,
    pub snapshot: Option<NodeId>,
    pub len: u64,
}

/// What reading a range of a handle answers: how many bytes, or why not.
pub open spec fn read_answer(
    v: CatalogView,
    graph: Graph,
    handle: SnapshotHandle,
    start: u64,
    end: u64,
    room: nat,
) -> Result<nat, NativeError> {
    match reader_problem(v, handle.actor, handle.file, handle.version, handle.commit) {
        Some(error) => Err(NativeError::Catalog(error)),
        None => if start > end || end > handle.len || end - start > usize::MAX {
            Err(NativeError::InvalidRange)
        } else if room < end - start {
            Err(NativeError::OutputTooSmall)
        } else {
            match handle.snapshot {
                None => Ok(0),
                Some(id) => if handle.commit is Some && commit_at(graph, handle.commit->0) is Some
                    && commit_at(graph, handle.commit->0)->0.snapshot == id {
                    match snapshot_at(graph, id) {
                        None => Err(
                            dag_failure(
                                if graph.dom().contains(id) {
                                    DagError::InvalidReference(id)
                                } else {
                                    DagError::MissingNode(id)
                                },
                            ),
                        ),
                        Some(snapshot) => if end > snapshot.logical_size {
                            Err(dag_failure(DagError::InvalidSnapshot("range outside Snapshot")))
                        } else {
                            Ok((end - start) as nat)
                        },
                    }
                } else {
                    Err(NativeError::SnapshotNotFound)
                },
            }
        },
    }
}

/// The bytes that a handle shows.
pub open spec fn handle_bytes(graph: Graph, handle: SnapshotHandle) -> Seq<u8> {
    match handle.snapshot {
        Some(id) => match snapshot_at(graph, id) {
            Some(snapshot) => snapshot_bytes(graph, snapshot),
            None => Seq::empty(),
        },
        None => Seq::empty(),
    }
}

impl SnapshotHandle {
    pub fn len(&self) -> (len: u64)
        ensures
            len == self.len,
    {
        self.len
    }

    pub fn is_empty(&self) -> (empty: bool)
        ensures
            empty == (self.len == 0),
    {
        self.len == 0
    }

    /// Reads a range into the front of the output. The actor must still be allowed to
    /// read the file.
    pub fn read_range(&self, store: &Store, range: Range<u64>, output: &mut [u8]) -> (r: Result<
        usize,
        NativeError,
    >)
        requires
            store.wf(),
        ensures
            match read_answer(
                store.catalog@,
                store.dag.graph(),
                *self,
                range.start,
                range.end,
                old(output)@.len(),
            ) {
                Err(error) => r == Err::<usize, NativeError>(error) && final(output)@ == old(
                    output,
                )@,
                Ok(n) => r is Ok && r->Ok_0 == n && final(output)@ == if n == 0 {
                    old(output)@
                } else {
                    splice(
                        old(output)@,
                        0,
                        handle_bytes(store.dag.graph(), *self).subrange(
                            range.start as int,
                            range.end as int,
                        ),
                    )
                },
            },
    {
        match store.catalog.validate_reader(self.actor, self.file, self.version, self.commit) {
            Err(error) => {
                return Err(NativeError::Catalog(error));
            },
            Ok(_) => {},
        }
        if range.start > range.end || range.end > self.len {
            return Err(NativeError::InvalidRange);
        }
        if range.end - range.start > usize::MAX as u64 {
            return Err(NativeError::InvalidRange);
        }
        let length: usize = (range.end - range.start) as usize;
        if output.len() < length {
            return Err(NativeError::OutputTooSmall);
        }
        let snapshot = match self.snapshot {
            Some(snapshot) => snapshot,
            None => {
                return Ok(0);
            },
        };
        let commit_id = match self.commit {
            Some(commit_id) => commit_id,
            None => {
                return Err(NativeError::SnapshotNotFound);
            },
        };
        match store.dag.get(&commit_id) {
            Some(Node::Commit(commit)) => {
                if !same_id(&commit.snapshot, &snapshot) {
                    return Err(NativeError::SnapshotNotFound);
                }
            },
            _ => {
                return Err(NativeError::SnapshotNotFound);
            },
        }
        let ghost before = output@;
        match store.dag.reconstruct_range(snapshot, range, output) {
            Ok(n) => {
                proof {
                    let graph = store.dag.graph();
                    let found = snapshot_at(graph, snapshot)->0;
                    assert(node_sound(graph, snapshot));
                    lemma_snapshot_len(graph, found);
                    if n == 0 {
                        assert(output@ =~= before);
                    }
                }
                Ok(n)
            },
            Err(error) => Err(NativeError::from(error)),
        }
    }
}

#[derive(Clone, Copy, Debug, PartialEq, Eq)]
pub struct OperationView {
    pub operation_id: OperationId,
    pub kind: OperationKind,
    pub file: Option<FileId>,
    pub parent_version_id: Option<VersionId>,
    pub result: Option<OperationViewResult>,
    pub error: Option<CatalogError>,
}

#[derive(Clone, Copy, Debug, PartialEq, Eq)]
pub enum OperationViewResult {
    File(FileId),
    Version { id: VersionId, generation: u64, size: u64, parent_version_id: Option<VersionId> },
    Aborted,
}

#[derive(Clone, Copy, Debug, PartialEq, Eq)]
pub enum OperationTerminal {
    Committed(Version),
    Aborted { error: CatalogError },
}

impl OperationView {
    /// What callers see of an operation.
    pub fn of(record: &OperationRecord) -> (view: Self)
        ensures
            view == operation_view(*record),
    {
        let mut file: Option<FileId> = None;
        let mut parent_version_id: Option<VersionId> = None;
        let result = match record.result {
            Some(OperationResult::File(id)) => Some(OperationViewResult::File(id)),
            Some(OperationResult::Version(version)) => {
                file = Some(version.file);
                parent_version_id = version.parent_version_id;
                Some(
                    OperationViewResult::Version {
                        id: version.id,
                        generation: version.generation,
                        size: version.size,
                        parent_version_id: version.parent_version_id,
                    },
                )
            },
            Some(OperationResult::Aborted) => Some(OperationViewResult::Aborted),
            Some(OperationResult::Collection(_)) => None,
            None => None,
        };
        OperationView {
            operation_id: record.operation_id,
            kind: record.kind,
            file,
            parent_version_id,
            result,
            error: record.error,
        }
    }
}

} // verus!
