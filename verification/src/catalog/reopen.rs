//! Copies of the catalog.
use vstd::prelude::*;

use crate::catalog::ids::{CollectionId, FileId, OperationId};
use crate::catalog::model::{copy_versions, ModelCatalog};
use crate::catalog::rules::reopened;
use crate::catalog::types::{
    CatalogError, Collection, File, FileVersion, IntentView, PublishIntent,
};
use crate::table::{as_map, distinct_keys, lemma_grow, lemma_views_insert, views, Table};

verus! {

broadcast use lemma_views_insert;

pub(crate) fn copy_collections(table: &Table<CollectionId, Collection>) -> (copy: Table<
    CollectionId,
    Collection,
>)
    ensures
        views(copy@) == views(table@),
{
    let mut copy: Table<CollectionId, Collection> = Table::new();
    let n: usize = table.len();
    let ghost items = table.items();
    let mut i: usize = 0;
    proof {
        assert(as_map(items.take(0)) =~= Map::empty());
    }
    while i < n
        invariant
            i <= n == items.len(),
            items == table.items(),
            distinct_keys(items),
            views(copy@) == views(as_map(items.take(i as int))),
        decreases n - i,
    {
        let id = *table.key_at(i);
        let value = table.value_at(i).clone();
        copy.insert(id, value);
        proof {
            lemma_grow(items, i as int);
        }
        i = i + 1;
    }
    proof {
        assert(items.take(i as int) =~= items);
    }
    copy
}

pub(crate) fn copy_files(table: &Table<FileId, File>) -> (copy: Table<FileId, File>)
    ensures
        views(copy@) == views(table@),
{
    let mut copy: Table<FileId, File> = Table::new();
    let n: usize = table.len();
    let ghost items = table.items();
    let mut i: usize = 0;
    proof {
        assert(as_map(items.take(0)) =~= Map::empty());
    }
    while i < n
        invariant
            i <= n == items.len(),
            items == table.items(),
            distinct_keys(items),
            views(copy@) == views(as_map(items.take(i as int))),
        decreases n - i,
    {
        let id = *table.key_at(i);
        let value = table.value_at(i).clone();
        copy.insert(id, value);
        proof {
            lemma_grow(items, i as int);
        }
        i = i + 1;
    }
    proof {
        assert(items.take(i as int) =~= items);
    }
    copy
}

pub(crate) fn copy_histories(table: &Table<FileId, Vec<FileVersion>>) -> (copy: Table<
    FileId,
    Vec<FileVersion>,
>)
    ensures
        views(copy@) == views(table@),
{
    let mut copy: Table<FileId, Vec<FileVersion>> = Table::new();
    let n: usize = table.len();
    let ghost items = table.items();
    let mut i: usize = 0;
    proof {
        assert(as_map(items.take(0)) =~= Map::empty());
    }
    while i < n
        invariant
            i <= n == items.len(),
            items == table.items(),
            distinct_keys(items),
            views(copy@) == views(as_map(items.take(i as int))),
        decreases n - i,
    {
        let id = *table.key_at(i);
        let value = copy_versions(table.value_at(i));
        copy.insert(id, value);
        proof {
            lemma_grow(items, i as int);
        }
        i = i + 1;
    }
    proof {
        assert(items.take(i as int) =~= items);
    }
    copy
}

fn copy_intents(table: &Table<OperationId, PublishIntent>) -> (copy: Table<
    OperationId,
    PublishIntent,
>)
    ensures
        views(copy@) == views(table@),
{
    let mut copy: Table<OperationId, PublishIntent> = Table::new();
    let n: usize = table.len();
    let ghost items = table.items();
    let mut i: usize = 0;
    proof {
        assert(as_map(items.take(0)) =~= Map::empty());
    }
    while i < n
        invariant
            i <= n == items.len(),
            items == table.items(),
            distinct_keys(items),
            views(copy@) == views(as_map(items.take(i as int))),
        decreases n - i,
    {
        let id = *table.key_at(i);
        let value = table.value_at(i).clone();
        copy.insert(id, value);
        proof {
            lemma_grow(items, i as int);
        }
        i = i + 1;
    }
    proof {
        assert(items.take(i as int) =~= items);
    }
    copy
}

/// The intents with no claims on them.
pub open spec fn unclaimed(intents: Map<OperationId, IntentView>) -> Map<OperationId, IntentView> {
    Map::new(
        |op: OperationId| intents.dom().contains(op),
        |op: OperationId| IntentView { owner_fence: None, ..intents[op] },
    )
}

fn drop_claims(table: &Table<OperationId, PublishIntent>) -> (copy: Table<
    OperationId,
    PublishIntent,
>)
    ensures
        views(copy@) == unclaimed(views(table@)),
{
    let mut copy: Table<OperationId, PublishIntent> = Table::new();
    let n: usize = table.len();
    let ghost items = table.items();
    let mut i: usize = 0;
    proof {
        assert(as_map(items.take(0)) =~= Map::empty());
        assert(views(copy@) =~= unclaimed(views(as_map(items.take(0)))));
    }
    while i < n
        invariant
            i <= n == items.len(),
            items == table.items(),
            distinct_keys(items),
            views(copy@) == unclaimed(views(as_map(items.take(i as int)))),
        decreases n - i,
    {
        let id = *table.key_at(i);
        let value = table.value_at(i).clone().with_fence(None);
        copy.insert(id, value);
        proof {
            lemma_grow(items, i as int);
            assert(views(copy@) =~= unclaimed(views(as_map(items.take(i + 1)))));
        }
        i = i + 1;
    }
    proof {
        assert(items.take(i as int) =~= items);
    }
    copy
}

impl Clone for ModelCatalog {
    fn clone(&self) -> (copy: Self)
        ensures
            copy@ == self@,
    {
        ModelCatalog {
            next_principal: self.next_principal,
            next_collection: self.next_collection,
            next_file: self.next_file,
            next_version: self.next_version,
            next_operation: self.next_operation,
            coordinator_epoch: self.coordinator_epoch,
            next_fence_nonce: self.next_fence_nonce,
            principals: self.principals.copied(),
            collections: copy_collections(&self.collections),
            files: copy_files(&self.files),
            versions: copy_histories(&self.versions),
            intents: copy_intents(&self.intents),
            operations: self.operations.copied(),
            handoffs: self.handoffs.copied(),
            memberships: self.memberships.copied(),
            retention_roots: self.retention_roots.copied(),
            reader_pins: self.reader_pins.copied(),
        }
    }
}

impl ModelCatalog {
    /// The catalog as it is after a crash: everything recorded is there, the
    /// coordinator has another epoch, and no intent is claimed.
    pub fn crash_reopen(&self) -> (r: Result<Self, CatalogError>)
        ensures
            if self@.coordinator_epoch == u64::MAX {
                r == Err::<Self, CatalogError>(CatalogError::EpochExhausted)
            } else {
                r is Ok && r->Ok_0@ == reopened(self@)
            },
    {
        let epoch: u64 = match self.coordinator_epoch.checked_add(1) {
            Some(epoch) => epoch,
            None => {
                return Err(CatalogError::EpochExhausted);
            },
        };
        let mut copy = self.clone();
        copy.coordinator_epoch = epoch;
        copy.intents = drop_claims(&self.intents);
        proof {
            assert(copy@ =~= reopened(self@));
        }
        Ok(copy)
    }
}

} // verus!
