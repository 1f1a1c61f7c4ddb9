//! What holds commits, and a copy of the catalog after a crash.
use vstd::prelude::*;

use crate::catalog::dag::{Dag, DagOperationBindingState, OperationBinding};
use crate::catalog::ids::{CommitId, FileId, OperationId};
use crate::catalog::model::ModelCatalog;
use crate::catalog::rules::{ended_and_tombstoned, held_by, is_root, Bindings, CatalogView};
use crate::catalog::types::{
    CatalogHandoff, DagBindingState, FileVersion, IndexState, PublishIntent,
};
use crate::table::{distinct_keys, has_key, position, Table};

verus! {

/// Lists add up when they are appended to each other.
proof fn lemma_lists_push(roots: Seq<CommitId>, id: CommitId)
    ensures
        forall|x: CommitId| #[trigger]
            roots.push(id).contains(x) == (roots.contains(x) || x == id),
{
    assert forall|x: CommitId| #[trigger]
        roots.push(id).contains(x) == (roots.contains(x) || x == id) by {
        if roots.contains(x) {
            let i = choose|i: int| 0 <= i < roots.len() && roots[i] == x;
            assert(roots.push(id)[i] == x);
        }
        assert(roots.push(id)[roots.len() as int] == id);
        if roots.push(id).contains(x) && x != id {
            let i = choose|i: int| 0 <= i < roots.push(id).len() && roots.push(id)[i] == x;
            assert(roots[i] == x);
        }
    }
}

/// Commits of published versions in the first files of the table.
pub open spec fn version_root(items: Seq<(FileId, Vec<FileVersion>)>, n: int, id: CommitId) -> bool {
    exists|j: int, k: int|
        0 <= j < n && 0 <= k < items[j].1@.len() && (#[trigger] items[j].1@[k]).commit_id == id
}

pub open spec fn intent_root(
    v: CatalogView,
    items: Seq<(OperationId, PublishIntent)>,
    n: int,
    id: CommitId,
) -> bool {
    exists|j: int|
        0 <= j < n && !(#[trigger] items[j]).1@.state.ended() && held_by(v, items[j].1@, id)
}

pub open spec fn handoff_root(
    items: Seq<(OperationId, CatalogHandoff)>,
    n: int,
    candidate: OperationId,
    id: CommitId,
) -> bool {
    exists|j: int|
        0 <= j < n && (#[trigger] items[j]).0 != candidate && items[j].1.state is Active
            && items[j].1.has_roots && items[j].1.receipt.commit_id == id
}

pub open spec fn binding_root(
    v: CatalogView,
    items: Seq<(OperationId, CommitId)>,
    n: int,
    candidate: OperationId,
    id: CommitId,
) -> bool {
    exists|j: int|
        0 <= j < n && (#[trigger] items[j]).1 == id && (items[j].0 != candidate
            || !ended_and_tombstoned(v, items[j].0))
}

impl ModelCatalog {
    fn push_version_roots(&self, roots: &mut Vec<CommitId>)
        ensures
            distinct_keys(self.versions.items()),
            forall|id: CommitId| #[trigger]
                final(roots)@.contains(id) == (old(roots)@.contains(id) || version_root(
                    self.versions.items(),
                    self.versions.items().len() as int,
                    id,
                )),
    {
        let ghost before = roots@;
        let n: usize = self.versions.len();
        let mut i: usize = 0;
        let ghost items = self.versions.items();
        while i < n
            invariant
                i <= n == items.len(),
                items == self.versions.items(),
                distinct_keys(items),
                forall|id: CommitId| #[trigger]
                    roots@.contains(id) == (before.contains(id) || version_root(
                        items,
                        i as int,
                        id,
                    )),
            decreases n - i,
        {
            let list = self.versions.value_at(i);
            let ghost middle = roots@;
            let mut k: usize = 0;
            while k < list.len()
                invariant
                    k <= list@.len(),
                    forall|id: CommitId| #[trigger]
                        roots@.contains(id) == (middle.contains(id) || exists|m: int|
                            0 <= m < k && (#[trigger] list@[m]).commit_id == id),
                decreases list@.len() - k,
            {
                let ghost prior = roots@;
                roots.push(list[k].commit_id);
                proof {
                    lemma_lists_push(prior, list@[k as int].commit_id);
                    assert forall|id: CommitId| #[trigger]
                        roots@.contains(id) == (middle.contains(id) || exists|m: int|
                            0 <= m < k + 1 && (#[trigger] list@[m]).commit_id == id) by {
                        if prior.contains(id) && !middle.contains(id) {
                            let m = choose|m: int|
                                0 <= m < k && (#[trigger] list@[m]).commit_id == id;
                            assert(list@[m].commit_id == id);
                        }
                        if id == list@[k as int].commit_id {
                            assert(list@[k as int].commit_id == id);
                        }
                        if exists|m: int| 0 <= m < k + 1 && (#[trigger] list@[m]).commit_id == id {
                            let m = choose|m: int|
                                0 <= m < k + 1 && (#[trigger] list@[m]).commit_id == id;
                            if m < k {
                                assert(prior.contains(id));
                            }
                        }
                    }
                }
                k = k + 1;
            }
            proof {
                assert forall|id: CommitId| #[trigger]
                    roots@.contains(id) == (before.contains(id) || version_root(
                        items,
                        i + 1,
                        id,
                    )) by {
                    if exists|m: int| 0 <= m < k && (#[trigger] list@[m]).commit_id == id {
                        let m = choose|m: int| 0 <= m < k && (#[trigger] list@[m]).commit_id == id;
                        assert(items[i as int].1@[m].commit_id == id);
                    }
                    if version_root(items, i as int, id) {
                        let (j, m) = choose|j: int, m: int|
                            0 <= j < i && 0 <= m < items[j].1@.len() && (
                            #[trigger] items[j].1@[m]).commit_id == id;
                        assert(items[j].1@[m].commit_id == id);
                    }
                    if version_root(items, i + 1, id) {
                        let (j, m) = choose|j: int, m: int|
                            0 <= j < i + 1 && 0 <= m < items[j].1@.len() && (
                            #[trigger] items[j].1@[m]).commit_id == id;
                        assert(items[j].1@[m].commit_id == id);
                        if j == i {
                            assert(list@[m].commit_id == id);
                        }
                    }
                }
            }
            i = i + 1;
        }
    }

    fn push_held(&self, intent: &PublishIntent, roots: &mut Vec<CommitId>)
        ensures
            forall|id: CommitId| #[trigger]
                final(roots)@.contains(id) == (old(roots)@.contains(id) || held_by(
                    self@,
                    intent@,
                    id,
                )),
    {
        if let Some(candidate) = intent.candidate {
            proof {
                lemma_lists_push(roots@, candidate.receipt.commit_id);
            }
            roots.push(candidate.receipt.commit_id);
        }
        if let Some(commit) = self.commit_of(intent.file, intent.expected_head.version_id) {
            proof {
                lemma_lists_push(roots@, commit);
            }
            roots.push(commit);
        }
    }

    fn push_intent_roots(&self, roots: &mut Vec<CommitId>)
        ensures
            distinct_keys(self.intents.items()),
            forall|id: CommitId| #[trigger]
                final(roots)@.contains(id) == (old(roots)@.contains(id) || intent_root(
                    self@,
                    self.intents.items(),
                    self.intents.items().len() as int,
                    id,
                )),
    {
        let ghost before = roots@;
        let ghost items = self.intents.items();
        let n: usize = self.intents.len();
        let mut i: usize = 0;
        while i < n
            invariant
                i <= n == items.len(),
                items == self.intents.items(),
                distinct_keys(items),
                forall|id: CommitId| #[trigger]
                    roots@.contains(id) == (before.contains(id) || intent_root(
                        self@,
                        items,
                        i as int,
                        id,
                    )),
            decreases n - i,
        {
            let intent = self.intents.value_at(i);
            let ghost prior = roots@;
            if !intent.state.terminal() {
                self.push_held(intent, roots);
            }
            proof {
                assert forall|id: CommitId| #[trigger]
                    roots@.contains(id) == (before.contains(id) || intent_root(
                        self@,
                        items,
                        i + 1,
                        id,
                    )) by {
                    if intent_root(self@, items, i as int, id) {
                        let j = choose|j: int|
                            0 <= j < i && !(#[trigger] items[j]).1@.state.ended() && held_by(
                                self@,
                                items[j].1@,
                                id,
                            );
                        assert(!items[j].1@.state.ended());
                    }
                    if intent_root(self@, items, i + 1, id) {
                        let j = choose|j: int|
                            0 <= j < i + 1 && !(#[trigger] items[j]).1@.state.ended() && held_by(
                                self@,
                                items[j].1@,
                                id,
                            );
                        if j < i {
                            assert(prior.contains(id));
                        }
                    }
                    assert(items[i as int].1 == *intent);
                    assert(prior.contains(id) == (before.contains(id) || intent_root(
                        self@,
                        items,
                        i as int,
                        id,
                    )));
                }
            }
            i = i + 1;
        }
    }

    fn push_handoff_roots(&self, candidate: OperationId, roots: &mut Vec<CommitId>)
        ensures
            distinct_keys(self.handoffs.items()),
            forall|id: CommitId| #[trigger]
                final(roots)@.contains(id) == (old(roots)@.contains(id) || handoff_root(
                    self.handoffs.items(),
                    self.handoffs.items().len() as int,
                    candidate,
                    id,
                )),
    {
        let ghost before = roots@;
        let ghost items = self.handoffs.items();
        let n: usize = self.handoffs.len();
        let mut i: usize = 0;
        while i < n
            invariant
                i <= n == items.len(),
                items == self.handoffs.items(),
                distinct_keys(items),
                forall|id: CommitId| #[trigger]
                    roots@.contains(id) == (before.contains(id) || handoff_root(
                        items,
                        i as int,
                        candidate,
                        id,
                    )),
            decreases n - i,
        {
            let op = *self.handoffs.key_at(i);
            let entry = *self.handoffs.value_at(i);
            let ghost prior = roots@;
            if op != candidate && entry.state == IndexState::Active && entry.has_roots {
                proof {
                    lemma_lists_push(roots@, entry.receipt.commit_id);
                }
                roots.push(entry.receipt.commit_id);
            }
            proof {
                assert forall|id: CommitId| #[trigger]
                    roots@.contains(id) == (before.contains(id) || handoff_root(
                        items,
                        i + 1,
                        candidate,
                        id,
                    )) by {
                    assert(prior.contains(id) == (before.contains(id) || handoff_root(
                        items,
                        i as int,
                        candidate,
                        id,
                    )));
                    assert(items[i as int] == (op, entry));
                    if handoff_root(items, i + 1, candidate, id) {
                        let j = choose|j: int|
                            0 <= j < i + 1 && (#[trigger] items[j]).0 != candidate
                                && items[j].1.state is Active && items[j].1.has_roots
                                && items[j].1.receipt.commit_id == id;
                        if j < i {
                            assert(handoff_root(items, i as int, candidate, id));
                        }
                    }
                }
            }
            i = i + 1;
        }
    }

    fn push_binding_roots(
        &self,
        bound: &Vec<(OperationId, CommitId)>,
        candidate: OperationId,
        roots: &mut Vec<CommitId>,
    )
        ensures
            forall|id: CommitId| #[trigger]
                final(roots)@.contains(id) == (old(roots)@.contains(id) || binding_root(
                    self@,
                    bound@,
                    bound@.len() as int,
                    candidate,
                    id,
                )),
    {
        let ghost before = roots@;
        let ghost items = bound@;
        let mut i: usize = 0;
        while i < bound.len()
            invariant
                i <= items.len(),
                items == bound@,
                forall|id: CommitId| #[trigger]
                    roots@.contains(id) == (before.contains(id) || binding_root(
                        self@,
                        items,
                        i as int,
                        candidate,
                        id,
                    )),
            decreases items.len() - i,
        {
            let (op, commit) = bound[i];
            let ghost prior = roots@;
            if op != candidate || !self.operation_terminal_and_tombstoned(op) {
                proof {
                    lemma_lists_push(roots@, commit);
                }
                roots.push(commit);
            }
            proof {
                assert forall|id: CommitId| #[trigger]
                    roots@.contains(id) == (before.contains(id) || binding_root(
                        self@,
                        items,
                        i + 1,
                        candidate,
                        id,
                    )) by {
                    assert(prior.contains(id) == (before.contains(id) || binding_root(
                        self@,
                        items,
                        i as int,
                        candidate,
                        id,
                    )));
                    assert(items[i as int] == (op, commit));
                    if binding_root(self@, items, i + 1, candidate, id) {
                        let j = choose|j: int|
                            0 <= j < i + 1 && (#[trigger] items[j]).1 == id && (items[j].0
                                != candidate || !ended_and_tombstoned(self@, items[j].0));
                        if j < i {
                            assert(binding_root(self@, items, i as int, candidate, id));
                        }
                    }
                }
            }
            i = i + 1;
        }
    }

    fn operation_terminal_and_tombstoned(&self, op: OperationId) -> (ended: bool)
        ensures
            ended == ended_and_tombstoned(self@, op),
    {
        match (self.intents.get(&op), self.handoffs.get(&op)) {
            (Some(intent), Some(handoff)) => intent.state.terminal() && handoff.state
                == IndexState::Tombstoned && handoff.binding == DagBindingState::Bound,
            _ => false,
        }
    }

    /// Everything that holds a commit, but for the candidate of the given operation.
    pub(crate) fn roots(&self, dag: &Dag, candidate: OperationId) -> (roots: Vec<CommitId>)
        ensures
            forall|id: CommitId| #[trigger]
                roots@.contains(id) == is_root(self@, dag.bindings(), candidate, id),
    {
        let mut roots: Vec<CommitId> = Vec::new();
        self.push_version_roots(&mut roots);
        push_keys(&self.retention_roots, &mut roots);
        push_keys(&self.reader_pins, &mut roots);
        self.push_intent_roots(&mut roots);
        self.push_handoff_roots(candidate, &mut roots);
        let bound = dag.bound_commit_roots();
        self.push_binding_roots(&bound, candidate, &mut roots);
        proof {
            assert forall|id: CommitId| #[trigger]
                roots@.contains(id) == is_root(self@, dag.bindings(), candidate, id) by {
                self.lemma_version_roots(id);
                self.lemma_intent_roots(id);
                self.lemma_handoff_roots(candidate, id);
                self.lemma_binding_roots(dag.bindings(), bound@, candidate, id);
            }
        }
        roots
    }

    proof fn lemma_version_roots(&self, id: CommitId)
        requires
            distinct_keys(self.versions.items()),
        ensures
            version_root(self.versions.items(), self.versions.items().len() as int, id) == exists|
                of: FileId,
                k: int,
            |
                self@.versions.dom().contains(of) && 0 <= k < self@.versions[of].len() && (
                #[trigger] self@.versions[of][k]).commit_id == id,
    {
        let items = self.versions.items();
        if version_root(items, items.len() as int, id) {
            let (j, k) = choose|j: int, k: int|
                0 <= j < items.len() && 0 <= k < items[j].1@.len() && (
                #[trigger] items[j].1@[k]).commit_id == id;
            crate::table::lemma_position(items, j);
            let of = items[j].0;
            assert(self@.versions[of][k].commit_id == id);
        }
        if exists|of: FileId, k: int|
            self@.versions.dom().contains(of) && 0 <= k < self@.versions[of].len() && (
            #[trigger] self@.versions[of][k]).commit_id == id {
            let (of, k) = choose|of: FileId, k: int|
                self@.versions.dom().contains(of) && 0 <= k < self@.versions[of].len() && (
                #[trigger] self@.versions[of][k]).commit_id == id;
            let j = position(items, of);
            assert(has_key(items, of));
            assert(items[j].1@[k].commit_id == id);
        }
    }

    proof fn lemma_intent_roots(&self, id: CommitId)
        requires
            distinct_keys(self.intents.items()),
        ensures
            intent_root(self@, self.intents.items(), self.intents.items().len() as int, id)
                == exists|op: OperationId| #[trigger]
                self@.intents.dom().contains(op) && !self@.intents[op].state.ended() && held_by(
                    self@,
                    self@.intents[op],
                    id,
                ),
    {
        let items = self.intents.items();
        if intent_root(self@, items, items.len() as int, id) {
            let j = choose|j: int|
                0 <= j < items.len() && !(#[trigger] items[j]).1@.state.ended() && held_by(
                    self@,
                    items[j].1@,
                    id,
                );
            crate::table::lemma_position(items, j);
            assert(self@.intents.dom().contains(items[j].0));
        }
        if exists|op: OperationId| #[trigger]
            self@.intents.dom().contains(op) && !self@.intents[op].state.ended() && held_by(
                self@,
                self@.intents[op],
                id,
            ) {
            let op = choose|op: OperationId| #[trigger]
                self@.intents.dom().contains(op) && !self@.intents[op].state.ended() && held_by(
                    self@,
                    self@.intents[op],
                    id,
                );
            let j = position(items, op);
            assert(has_key(items, op));
            assert(items[j].0 == op);
        }
    }

    proof fn lemma_handoff_roots(&self, candidate: OperationId, id: CommitId)
        requires
            distinct_keys(self.handoffs.items()),
        ensures
            handoff_root(
                self.handoffs.items(),
                self.handoffs.items().len() as int,
                candidate,
                id,
            ) == exists|op: OperationId| #[trigger]
                self@.handoffs.dom().contains(op) && op != candidate
                    && self@.handoffs[op].state is Active && self@.handoffs[op].has_roots
                    && self@.handoffs[op].receipt.commit_id == id,
    {
        let items = self.handoffs.items();
        if handoff_root(items, items.len() as int, candidate, id) {
            let j = choose|j: int|
                0 <= j < items.len() && (#[trigger] items[j]).0 != candidate
                    && items[j].1.state is Active && items[j].1.has_roots
                    && items[j].1.receipt.commit_id == id;
            crate::table::lemma_position(items, j);
            assert(self@.handoffs.dom().contains(items[j].0));
        }
        if exists|op: OperationId| #[trigger]
            self@.handoffs.dom().contains(op) && op != candidate
                && self@.handoffs[op].state is Active && self@.handoffs[op].has_roots
                && self@.handoffs[op].receipt.commit_id == id {
            let op = choose|op: OperationId| #[trigger]
                self@.handoffs.dom().contains(op) && op != candidate
                    && self@.handoffs[op].state is Active && self@.handoffs[op].has_roots
                    && self@.handoffs[op].receipt.commit_id == id;
            let j = position(items, op);
            assert(has_key(items, op));
            assert(items[j].0 == op);
        }
    }

    proof fn lemma_binding_roots(
        &self,
        bindings: Bindings,
        items: Seq<(OperationId, CommitId)>,
        candidate: OperationId,
        id: CommitId,
    )
        requires
            forall|i: int|
                0 <= i < items.len() ==> bindings.dom().contains((#[trigger] items[i]).0)
                    && bindings[items[i].0] == (OperationBinding {
                    commit_id: items[i].1,
                    state: DagOperationBindingState::Active,
                }),
            forall|operation: OperationId| #[trigger]
                bindings.dom().contains(operation) && bindings[operation].state is Active
                    ==> exists|i: int| 0 <= i < items.len() && (#[trigger] items[i]).0 == operation,
        ensures
            binding_root(self@, items, items.len() as int, candidate, id) == exists|
                op: OperationId,
            | #[trigger]
                bindings.dom().contains(op) && bindings[op].state is Active
                    && bindings[op].commit_id == id && (op != candidate || !ended_and_tombstoned(
                    self@,
                    op,
                )),
    {
        if binding_root(self@, items, items.len() as int, candidate, id) {
            let j = choose|j: int|
                0 <= j < items.len() && (#[trigger] items[j]).1 == id && (items[j].0 != candidate
                    || !ended_and_tombstoned(self@, items[j].0));
            assert(bindings.dom().contains(items[j].0));
        }
        if exists|op: OperationId| #[trigger]
            bindings.dom().contains(op) && bindings[op].state is Active && bindings[op].commit_id
                == id && (op != candidate || !ended_and_tombstoned(self@, op)) {
            let op = choose|op: OperationId| #[trigger]
                bindings.dom().contains(op) && bindings[op].state is Active
                    && bindings[op].commit_id == id && (op != candidate || !ended_and_tombstoned(
                    self@,
                    op,
                ));
            let j = choose|i: int| 0 <= i < items.len() && (#[trigger] items[i]).0 == op;
            assert(items[j].1 == id);
        }
    }
}

/// Adds the keys of a table to a list.
fn push_keys<V>(table: &Table<CommitId, V>, roots: &mut Vec<CommitId>)
    ensures
        forall|id: CommitId| #[trigger]
            final(roots)@.contains(id) == (old(roots)@.contains(id) || table@.dom().contains(id)),
{
    let ghost before = roots@;
    let n: usize = table.len();
    let mut i: usize = 0;
    while i < n
        invariant
            i <= n == table.items().len(),
            forall|id: CommitId| #[trigger]
                roots@.contains(id) == (before.contains(id) || exists|j: int|
                    0 <= j < i && (#[trigger] table.items()[j]).0 == id),
        decreases n - i,
    {
        let key = *table.key_at(i);
        let ghost prior = roots@;
        proof {
            lemma_lists_push(roots@, key);
        }
        roots.push(key);
        proof {
            assert forall|id: CommitId| #[trigger]
                roots@.contains(id) == (before.contains(id) || exists|j: int|
                    0 <= j < i + 1 && (#[trigger] table.items()[j]).0 == id) by {
                assert(prior.contains(id) == (before.contains(id) || exists|j: int|
                    0 <= j < i && (#[trigger] table.items()[j]).0 == id));
                if id == key {
                    assert(table.items()[i as int].0 == id);
                }
            }
        }
        i = i + 1;
    }
    proof {
        assert forall|id: CommitId| #[trigger]
            roots@.contains(id) == (before.contains(id) || table@.dom().contains(id)) by {
            if has_key(table.items(), id) {
                let j = position(table.items(), id);
                assert(table.items()[j].0 == id);
            }
        }
    }
}

} // verus!
