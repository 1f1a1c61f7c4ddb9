//! The object store without media: what is staged, what is committed and the root.
use vstd::prelude::*;

use crate::bytes::{same_bytes, zeros};
use crate::engine::format::{
    chunk_digest, chunk_id, lemma_object_id, manifest_body, manifest_bytes, manifest_digest, manifest_id, object_id,
    total_len, ChunkRef, Generation, ObjectId, Root,
};
use crate::first::{first_some, lemma_first_at, lemma_first_clear, lemma_first_none};
use crate::table::{lemma_views_insert, lemma_views_remove, views, Table};

verus! {

#[derive(Debug, PartialEq, Eq)]
pub struct Manifest {
    pub chunks: Vec<ChunkRef>,
    pub total_len: u64,
}

impl Clone for Manifest {
    fn clone(&self) -> (copy: Self)
        ensures
            copy.chunks@ == self.chunks@,
            copy.total_len == self.total_len,
    {
        Manifest { chunks: copy_refs(self.chunks.as_slice()), total_len: self.total_len }
    }
}

#[derive(Clone, Copy, Debug, PartialEq, Eq)]
pub enum Error {
    InvalidObjectId(ObjectId),
    ConflictingObject(ObjectId),
    NotFound(ObjectId),
    InvalidManifest(ObjectId),
    InvalidGeneration,
}

/// An object of the model.
#[derive(Debug, PartialEq, Eq)]
pub enum Stored {
    Chunk(Vec<u8>),
    Manifest(Manifest),
}

/// An object as mathematical values.
#[verifier::ext_equal]
pub enum StoredView {
    Chunk(Seq<u8>),
    Manifest { chunks: Seq<ChunkRef>, total_len: u64 },
}

impl View for Stored {
    type V = StoredView;

    open spec fn view(&self) -> StoredView {
        match self {
            Stored::Chunk(bytes) => StoredView::Chunk(bytes@),
            Stored::Manifest(manifest) => StoredView::Manifest {
                chunks: manifest.chunks@,
                total_len: manifest.total_len,
            },
        }
    }
}

impl Clone for Stored {
    fn clone(&self) -> (copy: Self)
        ensures
            copy@ == self@,
    {
        match self {
            Stored::Chunk(bytes) => Stored::Chunk(bytes.clone()),
            Stored::Manifest(manifest) => Stored::Manifest(manifest.clone()),
        }
    }
}

fn copy_refs(chunks: &[ChunkRef]) -> (copy: Vec<ChunkRef>)
    ensures
        copy@ == chunks@,
{
    let mut copy: Vec<ChunkRef> = Vec::new();
    let mut i: usize = 0;
    while i < chunks.len()
        invariant
            i <= chunks@.len(),
            copy@ == chunks@.take(i as int),
        decreases chunks@.len() - i,
    {
        copy.push(chunks[i]);
        i = i + 1;
        proof {
            assert(copy@ =~= chunks@.take(i as int));
        }
    }
    proof {
        assert(copy@ =~= chunks@);
    }
    copy
}

fn same_refs(a: &[ChunkRef], b: &[ChunkRef]) -> (same: bool)
    ensures
        same == (a@ == b@),
{
    if a.len() != b.len() {
        return false;
    }
    let mut i: usize = 0;
    while i < a.len()
        invariant
            i <= a@.len(),
            a@.len() == b@.len(),
            forall|j: int| 0 <= j < i ==> a@[j] == b@[j],
        decreases a@.len() - i,
    {
        if !crate::bytes::same_id(&a[i].id, &b[i].id) || a[i].len != b[i].len {
            return false;
        }
        i = i + 1;
    }
    proof {
        assert(a@ =~= b@);
    }
    true
}

impl Stored {
    fn same(&self, other: &Stored) -> (same: bool)
        ensures
            same == (self@ == other@),
    {
        match self {
            Stored::Chunk(bytes) => match other {
                Stored::Chunk(others) => same_bytes(bytes.as_slice(), others.as_slice()),
                Stored::Manifest(_) => false,
            },
            Stored::Manifest(manifest) => match other {
                Stored::Chunk(_) => false,
                Stored::Manifest(others) => manifest.total_len == others.total_len && same_refs(
                    manifest.chunks.as_slice(),
                    others.chunks.as_slice(),
                ),
            },
        }
    }
}

/// What the model holds: objects that are committed and ones that are not yet, and the
/// committed root.
#[derive(Debug)]
pub struct Model {
    committed: Table<ObjectId, Stored>,
    pending: Table<ObjectId, Stored>,
    root: Option<Root>,
}

#[verifier::ext_equal]
pub struct ModelView {
    pub committed: Map<ObjectId, StoredView>,
    pub pending: Map<ObjectId, StoredView>,
    pub root: Option<Root>,
}

impl View for Model {
    type V = ModelView;

    closed spec fn view(&self) -> ModelView {
        ModelView {
            committed: views(self.committed@),
            pending: views(self.pending@),
            root: self.root,
        }
    }
}

/// An object that is pending, or else committed.
pub open spec fn known(v: ModelView, id: ObjectId) -> Option<StoredView> {
    if v.pending.dom().contains(id) {
        Some(v.pending[id])
    } else if v.committed.dom().contains(id) {
        Some(v.committed[id])
    } else {
        None
    }
}

/// What staging an object comes to.
pub open spec fn stage_outcome(v: ModelView, id: ObjectId, object: StoredView) -> (
    Result<(), Error>,
    ModelView,
) {
    if v.committed.dom().contains(id) {
        if v.committed[id] == object {
            (Ok(()), v)
        } else {
            (Err(Error::ConflictingObject(id)), v)
        }
    } else if v.pending.dom().contains(id) {
        if v.pending[id] == object {
            (Ok(()), v)
        } else {
            (Err(Error::ConflictingObject(id)), v)
        }
    } else {
        (Ok(()), ModelView { pending: v.pending.insert(id, object), ..v })
    }
}

/// What staging a chunk under an identifier comes to.
pub open spec fn put_outcome(v: ModelView, id: ObjectId, bytes: Seq<u8>) -> (
    Result<(), Error>,
    ModelView,
) {
    if chunk_digest(bytes) != id@ {
        (Err(Error::InvalidObjectId(id)), v)
    } else {
        stage_outcome(v, id, StoredView::Chunk(bytes))
    }
}

/// The identifier of thirty-two zeros.
pub open spec fn zero_id() -> ObjectId {
    object_id(zeros(32))
}

/// What staging a manifest comes to.
pub open spec fn put_manifest_outcome(v: ModelView, chunks: Seq<ChunkRef>) -> (
    Result<ObjectId, Error>,
    ModelView,
) {
    if total_len(chunks) > u64::MAX {
        (Err(Error::InvalidManifest(zero_id())), v)
    } else {
        let id = object_id(manifest_digest(manifest_bytes(chunks)));
        let (r, after) = stage_outcome(
            v,
            id,
            StoredView::Manifest { chunks, total_len: total_len(chunks) as u64 },
        );
        match r {
            Ok(_) => (Ok(id), after),
            Err(error) => (Err(error), after),
        }
    }
}

/// What is wrong with a reference of a manifest, if anything.
pub open spec fn ref_problem(v: ModelView, chunk: ChunkRef) -> Option<Error> {
    match known(v, chunk.id) {
        Some(StoredView::Chunk(bytes)) => if bytes.len() == chunk.len {
            None
        } else {
            Some(Error::NotFound(chunk.id))
        },
        _ => Some(Error::NotFound(chunk.id)),
    }
}

/// The first thing that is wrong with the references of a manifest, if anything.
pub open spec fn refs_problem(v: ModelView, chunks: Seq<ChunkRef>) -> Option<Error> {
    first_some(|i: int| ref_problem(v, chunks[i]), 0, chunks.len() as int)
}

/// Why a root cannot be committed, if it cannot.
pub open spec fn commit_problem(v: ModelView, manifest: ObjectId, generation: u64) -> Option<
    Error,
> {
    if generation == 0 || v.root is Some && generation <= v.root->0.generation {
        Some(Error::InvalidGeneration)
    } else {
        match known(v, manifest) {
            None => Some(Error::NotFound(manifest)),
            Some(StoredView::Chunk(_)) => Some(Error::InvalidManifest(manifest)),
            Some(StoredView::Manifest { chunks, total_len }) => refs_problem(v, chunks),
        }
    }
}

/// What committing a root comes to: everything pending is committed with it.
pub open spec fn commit_outcome(v: ModelView, manifest: ObjectId, generation: u64) -> (
    Result<Root, Error>,
    ModelView,
) {
    match commit_problem(v, manifest, generation) {
        Some(error) => (Err(error), v),
        None => (
            Ok(Root { generation, manifest }),
            ModelView {
                committed: v.committed.union_prefer_right(v.pending),
                pending: Map::empty(),
                root: Some(Root { generation, manifest }),
            },
        ),
    }
}

/// What is left after a crash.
pub open spec fn reopened(v: ModelView) -> ModelView {
    ModelView { pending: Map::empty(), ..v }
}

pub open spec fn empty_model() -> ModelView {
    ModelView { committed: Map::empty(), pending: Map::empty(), root: None }
}

/// The chunk under an identifier, if there is one.
pub open spec fn chunk_under(objects: Map<ObjectId, StoredView>, id: ObjectId) -> Option<Seq<u8>> {
    if objects.dom().contains(id) {
        match objects[id] {
            StoredView::Chunk(bytes) => Some(bytes),
            _ => None,
        }
    } else {
        None
    }
}

fn chunk_of<'a>(objects: &'a Table<ObjectId, Stored>, id: &ObjectId) -> (bytes: Option<&'a [u8]>)
    ensures
        match chunk_under(views(objects@), *id) {
            Some(found) => bytes is Some && bytes->0@ == found,
            None => bytes is None,
        },
{
    match objects.get(id) {
        Some(Stored::Chunk(bytes)) => Some(bytes.as_slice()),
        _ => None,
    }
}

impl Default for Model {
    fn default() -> (model: Self)
        ensures
            model@ == empty_model(),
    {
        let model = Model { committed: Table::new(), pending: Table::new(), root: None };
        proof {
            assert(model@ =~= empty_model());
        }
        model
    }
}

/// How many bytes the chunks have together, if that fits.
fn sum_refs(chunks: &[ChunkRef]) -> (total: Option<u64>)
    ensures
        match total {
            Some(total) => total == total_len(chunks@),
            None => total_len(chunks@) > u64::MAX,
        },
{
    let mut total: u64 = 0;
    let mut i: usize = 0;
    proof {
        assert(chunks@.take(0) =~= Seq::empty());
    }
    while i < chunks.len()
        invariant
            i <= chunks@.len(),
            total == total_len(chunks@.take(i as int)),
        decreases chunks@.len() - i,
    {
        proof {
            assert(chunks@.take(i + 1).drop_last() =~= chunks@.take(i as int));
            lemma_total_grows(chunks@, i + 1);
        }
        total = match total.checked_add(chunks[i].len as u64) {
            Some(total) => total,
            None => {
                return None;
            },
        };
        i = i + 1;
    }
    proof {
        assert(chunks@.take(i as int) =~= chunks@);
    }
    Some(total)
}

proof fn lemma_total_grows(chunks: Seq<ChunkRef>, n: int)
    requires
        0 <= n <= chunks.len(),
    ensures
        total_len(chunks.take(n)) <= total_len(chunks),
    decreases chunks.len() - n,
{
    if n < chunks.len() {
        assert(chunks.take(n + 1).drop_last() =~= chunks.take(n));
        lemma_total_grows(chunks, n + 1);
    } else {
        assert(chunks.take(n) =~= chunks);
    }
}

impl Model {
    /// Stages a chunk under its identifier.
    pub fn put(&mut self, id: ObjectId, bytes: Vec<u8>) -> (r: Result<(), Error>)
        ensures
            (r, final(self)@) == put_outcome(old(self)@, id, bytes@),
    {
        let name = chunk_id(bytes.as_slice());
        if !crate::bytes::same_id(&name, &id) {
            return Err(Error::InvalidObjectId(id));
        }
        self.stage(id, Stored::Chunk(bytes))
    }

    /// Stages a chunk.
    pub fn put_bytes(&mut self, bytes: Vec<u8>) -> (r: Result<ObjectId, Error>)
        ensures
            ({
                let id = object_id(chunk_digest(bytes@));
                let (answer, after) = put_outcome(old(self)@, id, bytes@);
                &&& final(self)@ == after
                &&& match answer {
                    Ok(_) => r == Ok::<ObjectId, Error>(id),
                    Err(error) => r == Err::<ObjectId, Error>(error),
                }
            }),
    {
        let id = chunk_id(bytes.as_slice());
        match self.put(id, bytes) {
            Ok(_) => Ok(id),
            Err(error) => Err(error),
        }
    }

    /// Stages the manifest of an object made of the given chunks.
    pub fn put_manifest(&mut self, chunks: &[ChunkRef]) -> (r: Result<ObjectId, Error>)
        ensures
            (r, final(self)@) == put_manifest_outcome(old(self)@, chunks@),
    {
        let total: u64 = match sum_refs(chunks) {
            Some(total) => total,
            None => {
                let none: ObjectId = [0u8; 32];
                proof {
                    assert(none@ =~= zeros(32));
                    lemma_object_id(none);
                }
                return Err(Error::InvalidManifest(none));
            },
        };
        let body = manifest_body(chunks, total);
        let id = manifest_id(body.as_slice());
        let manifest = Manifest { chunks: copy_refs(chunks), total_len: total };
        match self.stage(id, Stored::Manifest(manifest)) {
            Ok(_) => Ok(id),
            Err(error) => Err(error),
        }
    }

    /// The bytes of a committed chunk.
    pub fn get(&self, id: &ObjectId) -> (bytes: Option<&[u8]>)
        ensures
            match chunk_under(self@.committed, *id) {
                Some(found) => bytes is Some && bytes->0@ == found,
                None => bytes is None,
            },
    {
        chunk_of(&self.committed, id)
    }

    /// The bytes of a chunk that is not committed yet.
    pub fn pending(&self, id: &ObjectId) -> (bytes: Option<&[u8]>)
        ensures
            match chunk_under(self@.pending, *id) {
                Some(found) => bytes is Some && bytes->0@ == found,
                None => bytes is None,
            },
    {
        chunk_of(&self.pending, id)
    }

    pub fn current_root(&self) -> (root: Option<Root>)
        ensures
            root == self@.root,
    {
        self.root
    }

    /// A committed manifest.
    pub fn committed_manifest(&self, id: &ObjectId) -> (manifest: Option<Manifest>)
        ensures
            manifest is Some <==> self@.committed.dom().contains(*id)
                && self@.committed[*id] is Manifest,
            manifest is Some ==> self@.committed[*id] == (StoredView::Manifest {
                chunks: manifest->0.chunks@,
                total_len: manifest->0.total_len,
            }),
    {
        match self.committed.get(id) {
            Some(Stored::Manifest(manifest)) => Some(manifest.clone()),
            _ => None,
        }
    }

    fn find(&self, id: &ObjectId) -> (object: Option<&Stored>)
        ensures
            match known(self@, *id) {
                Some(found) => object is Some && object->0@ == found,
                None => object is None,
            },
    {
        match self.pending.get(id) {
            Some(object) => Some(object),
            None => self.committed.get(id),
        }
    }

    fn check_refs(&self, chunks: &[ChunkRef]) -> (r: Result<(), Error>)
        ensures
            r == match refs_problem(self@, chunks@) {
                Some(error) => Err::<(), Error>(error),
                None => Ok(()),
            },
    {
        let ghost problem = |i: int| ref_problem(self@, chunks@[i]);
        let mut i: usize = 0;
        while i < chunks.len()
            invariant
                i <= chunks@.len(),
                problem == (|i: int| ref_problem(self@, chunks@[i])),
                forall|j: int| 0 <= j < i ==> #[trigger] problem(j) is None,
            decreases chunks@.len() - i,
        {
            let there = match self.find(&chunks[i].id) {
                Some(Stored::Chunk(bytes)) => bytes.len() as u64 == chunks[i].len as u64,
                _ => false,
            };
            if !there {
                proof {
                    assert(problem(i as int) == Some(Error::NotFound(chunks@[i as int].id)));
                    lemma_first_at(problem, 0, i as int, chunks@.len() as int);
                }
                return Err(Error::NotFound(chunks[i].id));
            }
            proof {
                assert(problem(i as int) is None);
            }
            i = i + 1;
        }
        proof {
            lemma_first_clear(problem, 0, chunks@.len() as int);
        }
        Ok(())
    }

    /// Commits a manifest, and everything pending with it, under a generation above the
    /// last.
    pub fn commit_root(&mut self, manifest: ObjectId, generation: Generation) -> (r: Result<
        Root,
        Error,
    >)
        ensures
            (r, final(self)@) == commit_outcome(old(self)@, manifest, generation),
    {
        let stale = match &self.root {
            Some(root) => generation <= root.generation,
            None => false,
        };
        if generation == 0 || stale {
            return Err(Error::InvalidGeneration);
        }
        match self.find(&manifest) {
            None => {
                return Err(Error::NotFound(manifest));
            },
            Some(Stored::Chunk(_)) => {
                return Err(Error::InvalidManifest(manifest));
            },
            Some(Stored::Manifest(object)) => {
                match self.check_refs(object.chunks.as_slice()) {
                    Ok(_) => {},
                    Err(error) => {
                        return Err(error);
                    },
                }
            },
        }
        self.commit_pending();
        let root = Root { generation, manifest };
        self.root = Some(root);
        Ok(root)
    }

    /// Moves everything pending to what is committed.
    fn commit_pending(&mut self)
        ensures
            final(self)@ == (ModelView {
                committed: old(self)@.committed.union_prefer_right(old(self)@.pending),
                pending: Map::empty(),
                root: old(self)@.root,
            }),
    {
        broadcast use {lemma_views_insert, lemma_views_remove};

        let ghost before = self@;
        let mut left: usize = self.pending.len();
        while left > 0
            invariant
                before == old(self)@,
                self@.root == before.root,
                left == self.pending@.dom().len(),
                self.pending@.dom().finite(),
                self@.committed.union_prefer_right(self@.pending)
                    == before.committed.union_prefer_right(before.pending),
            decreases left,
        {
            let ghost now = self@;
            let count: usize = self.pending.len();
            let key: ObjectId = *self.pending.key_at(0);
            match self.pending.take(&key) {
                Some(object) => {
                    self.committed.insert(key, object);
                    proof {
                        assert(self@.committed.union_prefer_right(self@.pending)
                            =~= now.committed.union_prefer_right(now.pending));
                    }
                },
                None => {},
            }
            left = left - 1;
        }
        proof {
            assert(self@.pending =~= Map::empty());
            assert(self@.committed =~= before.committed.union_prefer_right(before.pending));
        }
    }

    /// The model after a crash: what was pending is gone.
    pub fn crash_reopen(&self) -> (model: Self)
        ensures
            model@ == reopened(self@),
    {
        broadcast use lemma_views_insert;

        let mut committed: Table<ObjectId, Stored> = Table::new();
        let n: usize = self.committed.len();
        let ghost items = self.committed.items();
        let mut i: usize = 0;
        proof {
            assert(crate::table::as_map(items.take(0)) =~= Map::empty());
            assert(views(committed@) =~= views(crate::table::as_map(items.take(0))));
        }
        while i < n
            invariant
                i <= n,
                n == items.len(),
                items == self.committed.items(),
                crate::table::distinct_keys(items),
                views(committed@) == views(crate::table::as_map(items.take(i as int))),
            decreases n - i,
        {
            let key: ObjectId = *self.committed.key_at(i);
            let object = self.committed.value_at(i).clone();
            let ghost before = committed@;
            committed.insert(key, object);
            proof {
                crate::table::lemma_grow(items, i as int);
                lemma_views_insert(before, key, object);
                lemma_views_insert(
                    crate::table::as_map(items.take(i as int)),
                    items[i as int].0,
                    items[i as int].1,
                );
            }
            i = i + 1;
        }
        proof {
            assert(items.take(n as int) =~= items);
        }
        let model = Model { committed, pending: Table::new(), root: self.root };
        proof {
            assert(model@ =~= reopened(self@));
        }
        model
    }

    /// The model after a clean reopen, which keeps no more than a crash does.
    pub fn reopen(&self) -> (model: Self)
        ensures
            model@ == reopened(self@),
    {
        self.crash_reopen()
    }

    fn stage(&mut self, id: ObjectId, object: Stored) -> (r: Result<(), Error>)
        ensures
            (r, final(self)@) == stage_outcome(old(self)@, id, object@),
    {
        broadcast use lemma_views_insert;

        match self.committed.get(&id) {
            Some(existing) => {
                return if existing.same(&object) {
                    Ok(())
                } else {
                    Err(Error::ConflictingObject(id))
                };
            },
            None => {},
        }
        match self.pending.get(&id) {
            Some(existing) => {
                return if existing.same(&object) {
                    Ok(())
                } else {
                    Err(Error::ConflictingObject(id))
                };
            },
            None => {},
        }
        self.pending.insert(id, object);
        Ok(())
    }
}

/// Whether every object is under its own name.
pub open spec fn named(objects: Map<ObjectId, StoredView>) -> bool {
    forall|id: ObjectId|
        #[trigger] objects.dom().contains(id) ==> match objects[id] {
            StoredView::Chunk(bytes) => id@ == chunk_digest(bytes),
            StoredView::Manifest { chunks, total_len } => id == object_id(
                manifest_digest(manifest_bytes(chunks)),
            ),
        }
}

/// Whether the chunk that is referred to is there.
pub open spec fn holds_chunk(objects: Map<ObjectId, StoredView>, chunk: ChunkRef) -> bool {
    chunk_under(objects, chunk.id) is Some && chunk_under(objects, chunk.id)->0.len() == chunk.len
}

/// Whether the root's manifest is committed with every chunk that it lists.
pub open spec fn root_complete(v: ModelView) -> bool {
    v.root matches Some(root) ==> {
        &&& root.generation > 0
        &&& v.committed.dom().contains(root.manifest)
        &&& v.committed[root.manifest] is Manifest
        &&& forall|i: int|
            0 <= i < v.committed[root.manifest]->chunks.len() ==> holds_chunk(
                v.committed,
                #[trigger] v.committed[root.manifest]->chunks[i],
            )
    }
}

/// What holds of every model: objects are under their names, nothing is both committed
/// and pending, and the root is complete.
pub open spec fn sound(v: ModelView) -> bool {
    &&& named(v.committed)
    &&& named(v.pending)
    &&& v.committed.dom().disjoint(v.pending.dom())
    &&& root_complete(v)
}

/// A new model is sound.
pub proof fn law_empty_model_is_sound()
    ensures
        sound(empty_model()),
{
}

/// Staging keeps a model sound, and nothing that is committed changes.
pub proof fn law_staging_keeps_soundness(v: ModelView, id: ObjectId, bytes: Seq<u8>, chunks: Seq<ChunkRef>)
    requires
        sound(v),
    ensures
        sound(put_outcome(v, id, bytes).1),
        sound(put_manifest_outcome(v, chunks).1),
        put_outcome(v, id, bytes).1.committed == v.committed,
        put_manifest_outcome(v, chunks).1.committed == v.committed,
        put_outcome(v, id, bytes).1.root == v.root,
        put_manifest_outcome(v, chunks).1.root == v.root,
{
}

/// Committing keeps a model sound: the root that is committed is complete, its generation
/// is above the last, and nothing that was committed is lost.
pub proof fn law_commit_keeps_soundness(v: ModelView, manifest: ObjectId, generation: u64)
    requires
        sound(v),
    ensures
        ({
            let (r, after) = commit_outcome(v, manifest, generation);
            &&& sound(after)
            &&& v.committed.submap_of(after.committed)
            &&& r is Err ==> after == v
            &&& r is Ok ==> after.root == Some(Root { generation, manifest }) && (v.root is Some
                ==> v.root->0.generation < generation)
        }),
{
    let (r, after) = commit_outcome(v, manifest, generation);
    if r is Ok {
        assert(after.committed.dom() =~= v.committed.dom().union(v.pending.dom()));
        let chunks = known(v, manifest)->0->chunks;
        assert(after.committed[manifest] == known(v, manifest)->0);
        assert forall|i: int| 0 <= i < chunks.len() implies holds_chunk(
            after.committed,
            #[trigger] chunks[i],
        ) by {
            let problem = |i: int| ref_problem(v, chunks[i]);
            lemma_first_none(problem, 0, chunks.len() as int, i);
            assert(problem(i) is None);
        }
    }
}

/// A crash keeps exactly what is committed: a sound model stays sound, with its root and
/// its committed objects, and what was pending is gone.
pub proof fn law_crash_keeps_what_is_committed(v: ModelView)
    requires
        sound(v),
    ensures
        sound(reopened(v)),
        reopened(v).root == v.root,
        reopened(v).committed == v.committed,
        reopened(v).pending == Map::<ObjectId, StoredView>::empty(),
        reopened(reopened(v)) == reopened(v),
{
}

/// An object is staged once: staging it again changes nothing.
pub proof fn law_staging_is_idempotent(v: ModelView, id: ObjectId, bytes: Seq<u8>)
    requires
        put_outcome(v, id, bytes).0 is Ok,
    ensures
        put_outcome(put_outcome(v, id, bytes).1, id, bytes) == put_outcome(v, id, bytes),
{
}

} // verus!
