//! The order in which a batch of rows is recorded.
use vstd::prelude::*;

use crate::catalog::records::{CatalogBatch, CrashPoint, VersionRecord};

verus! {

/// Whether a version's parent, where it has one, is a version of the batch.
pub open spec fn parent_given(versions: Seq<VersionRecord>, i: int) -> bool {
    match versions[i].parent_version_id {
        None => true,
        Some(parent) => exists|j: int|
            0 <= j < versions.len() && (#[trigger] versions[j]).id == parent,
    }
}

/// Whether a version's parent, where it has one, is stored already or among the versions that
/// stand at the listed positions.
pub open spec fn parent_listed(
    versions: Seq<VersionRecord>,
    stored: Set<u64>,
    order: Seq<usize>,
    i: int,
) -> bool {
    match versions[i].parent_version_id {
        None => true,
        Some(parent) => stored.contains(parent) || exists|j: int|
            0 <= j < order.len() && versions[(#[trigger] order[j]) as int].id == parent,
    }
}

/// Whether the list names positions.
pub open spec fn positions(n: nat, order: Seq<usize>) -> bool {
    forall|k: int| 0 <= k < order.len() ==> (#[trigger] order[k]) < n
}

/// Whether the list names positions, none twice, each where its parent is stored or listed
/// before.
pub open spec fn parents_first(
    versions: Seq<VersionRecord>,
    stored: Set<u64>,
    order: Seq<usize>,
) -> bool {
    &&& order.no_duplicates()
    &&& forall|k: int|
        0 <= k < order.len() ==> (#[trigger] order[k]) < versions.len() && parent_listed(
            versions,
            stored,
            order.take(k),
            order[k] as int,
        )
}

/// Whether every parent is given, and the list names every version once, each where its
/// parent is stored or listed before.
pub open spec fn full_order(
    versions: Seq<VersionRecord>,
    stored: Set<u64>,
    order: Seq<usize>,
) -> bool {
    &&& forall|i: int| 0 <= i < versions.len() ==> #[trigger] parent_given(versions, i)
    &&& order.len() == versions.len()
    &&& parents_first(versions, stored, order)
}

/// What one pass over the versions comes to: the positions recorded so far, those put off, and
/// whether it was stopped.
pub struct Pass {
    pub order: Seq<usize>,
    pub deferred: Seq<usize>,
    pub stopped: bool,
}

/// One pass over the pending versions, in turn: each is recorded where its parent is stored or
/// recorded, and put off otherwise. One whose parent is not given stops the pass.
pub open spec fn passed(
    versions: Seq<VersionRecord>,
    stored: Set<u64>,
    order: Seq<usize>,
    pending: Seq<usize>,
) -> Pass
    decreases pending.len(),
{
    if pending.len() == 0 {
        Pass { order, deferred: Seq::empty(), stopped: false }
    } else {
        let before = passed(versions, stored, order, pending.drop_last());
        let i = pending.last();
        if before.stopped {
            before
        } else if !parent_given(versions, i as int) {
            Pass { stopped: true, ..before }
        } else if parent_listed(versions, stored, before.order, i as int) {
            Pass { order: before.order.push(i), ..before }
        } else {
            Pass { deferred: before.deferred.push(i), ..before }
        }
    }
}

/// Passes over the pending versions until none is left, one is stopped or one records nothing:
/// the positions in the order in which they are recorded, and whether none was left.
pub open spec fn ordered(
    versions: Seq<VersionRecord>,
    stored: Set<u64>,
    order: Seq<usize>,
    pending: Seq<usize>,
) -> (Seq<usize>, bool)
    decreases pending.len(),
{
    if pending.len() == 0 {
        (order, true)
    } else {
        let pass = passed(versions, stored, order, pending);
        if pass.stopped || pass.deferred.len() >= pending.len() {
            (pass.order, false)
        } else {
            ordered(versions, stored, pass.order, pass.deferred)
        }
    }
}

/// The order in which versions are recorded beside those that are stored, and whether all of
/// them are.
pub open spec fn version_sequence(versions: Seq<VersionRecord>, stored: Set<u64>) -> (
    Seq<usize>,
    bool,
) {
    ordered(versions, stored, Seq::empty(), Seq::new(versions.len(), |i: int| i as usize))
}

fn parent_among(versions: &Vec<VersionRecord>, i: usize) -> (given: bool)
    requires
        i < versions@.len(),
    ensures
        given == parent_given(versions@, i as int),
{
    let parent: u64 = match versions[i].parent_version_id {
        Some(parent) => parent,
        None => {
            return true;
        },
    };
    let mut j: usize = 0;
    while j < versions.len()
        invariant
            j <= versions@.len(),
            i < versions@.len(),
            versions@[i as int].parent_version_id == Some(parent),
            forall|k: int| 0 <= k < j ==> (#[trigger] versions@[k]).id != parent,
        decreases versions@.len() - j,
    {
        if versions[j].id == parent {
            return true;
        }
        j = j + 1;
    }
    false
}

fn parent_ready(
    versions: &Vec<VersionRecord>,
    stored: &Vec<u64>,
    order: &Vec<usize>,
    i: usize,
) -> (ready: bool)
    requires
        i < versions@.len(),
        positions(versions@.len(), order@),
    ensures
        ready == parent_listed(versions@, stored@.to_set(), order@, i as int),
{
    let parent: u64 = match versions[i].parent_version_id {
        Some(parent) => parent,
        None => {
            return true;
        },
    };
    let mut j: usize = 0;
    while j < stored.len()
        invariant
            j <= stored@.len(),
            i < versions@.len(),
            versions@[i as int].parent_version_id == Some(parent),
            forall|k: int| 0 <= k < j ==> #[trigger] stored@[k] != parent,
        decreases stored@.len() - j,
    {
        if stored[j] == parent {
            proof {
                assert(stored@.contains(parent));
            }
            return true;
        }
        j = j + 1;
    }
    proof {
        assert(!stored@.contains(parent));
    }
    let mut j: usize = 0;
    while j < order.len()
        invariant
            j <= order@.len(),
            i < versions@.len(),
            versions@[i as int].parent_version_id == Some(parent),
            positions(versions@.len(), order@),
            forall|k: int|
                0 <= k < j ==> versions@[(#[trigger] order@[k]) as int].id != parent,
        decreases order@.len() - j,
    {
        if versions[order[j]].id == parent {
            return true;
        }
        j = j + 1;
    }
    false
}

/// A pass that is stopped ends as it was then.
proof fn lemma_stopped(
    versions: Seq<VersionRecord>,
    stored: Set<u64>,
    order: Seq<usize>,
    pending: Seq<usize>,
    k: int,
)
    requires
        0 <= k <= pending.len(),
        passed(versions, stored, order, pending.take(k)).stopped,
    ensures
        passed(versions, stored, order, pending) == passed(
            versions,
            stored,
            order,
            pending.take(k),
        ),
    decreases pending.len() - k,
{
    if k == pending.len() {
        assert(pending.take(k) =~= pending);
    } else {
        assert(pending.drop_last().take(k) =~= pending.take(k));
        lemma_stopped(versions, stored, order, pending.drop_last(), k);
    }
}

/// One pass over the pending versions. `None` where it is stopped, else those put off.
fn record_pass(
    versions: &Vec<VersionRecord>,
    stored: &Vec<u64>,
    order: &mut Vec<usize>,
    pending: &Vec<usize>,
) -> (r: Option<Vec<usize>>)
    requires
        positions(versions@.len(), old(order)@),
        positions(versions@.len(), pending@),
    ensures
        ({
            let pass = passed(versions@, stored@.to_set(), old(order)@, pending@);
            &&& final(order)@ == pass.order
            &&& r is None == pass.stopped
            &&& r matches Some(deferred) ==> deferred@ == pass.deferred && positions(
                versions@.len(),
                deferred@,
            )
        }),
        positions(versions@.len(), final(order)@),
{
    let ghost start = order@;
    let ghost known = stored@.to_set();
    let mut deferred: Vec<usize> = Vec::new();
    let mut k: usize = 0;
    proof {
        assert(pending@.take(0) =~= Seq::empty());
    }
    while k < pending.len()
        invariant
            k <= pending@.len(),
            known == stored@.to_set(),
            start == old(order)@,
            positions(versions@.len(), order@),
            positions(versions@.len(), pending@),
            positions(versions@.len(), deferred@),
            passed(versions@, known, start, pending@.take(k as int)) == (Pass {
                order: order@,
                deferred: deferred@,
                stopped: false,
            }),
        decreases pending@.len() - k,
    {
        let i: usize = pending[k];
        let ghost next = pending@.take(k + 1);
        proof {
            assert(next.drop_last() =~= pending@.take(k as int));
            assert(next.last() == i);
        }
        if !parent_among(versions, i) {
            proof {
                lemma_stopped(versions@, known, start, pending@, k + 1);
            }
            return None;
        }
        if parent_ready(versions, stored, order, i) {
            order.push(i);
        } else {
            deferred.push(i);
        }
        k = k + 1;
    }
    proof {
        assert(pending@.take(k as int) =~= pending@);
    }
    Some(deferred)
}

/// The order in which the versions of a batch are recorded beside those that are stored, and
/// whether all of them are. A version waits for its parent; one whose parent is not given in
/// the batch ends the order, and so do versions that wait for each other.
pub fn version_order(versions: &Vec<VersionRecord>, stored: &Vec<u64>) -> (r: (Vec<usize>, bool))
    ensures
        (r.0@, r.1) == version_sequence(versions@, stored@.to_set()),
        r.1 ==> full_order(versions@, stored@.to_set(), r.0@),
        !r.1 ==> forall|order: Seq<usize>|
            !#[trigger] full_order(versions@, stored@.to_set(), order),
{
    let n: usize = versions.len();
    let ghost known = stored@.to_set();
    let mut pending: Vec<usize> = Vec::new();
    let mut i: usize = 0;
    while i < n
        invariant
            i <= n,
            pending@ =~= Seq::new(i as nat, |k: int| k as usize),
        decreases n - i,
    {
        pending.push(i);
        i = i + 1;
    }
    let mut order: Vec<usize> = Vec::new();
    while pending.len() > 0
        invariant
            n == versions@.len(),
            known == stored@.to_set(),
            positions(versions@.len(), order@),
            positions(versions@.len(), pending@),
            ordered(versions@, known, order@, pending@) == version_sequence(versions@, known),
        decreases pending@.len(),
    {
        proof {
            law_versions_are_recorded_where_an_order_exists(versions@, known);
        }
        match record_pass(versions, stored, &mut order, &pending) {
            None => {
                return (order, false);
            },
            Some(deferred) => {
                if deferred.len() >= pending.len() {
                    return (order, false);
                }
                pending = deferred;
            },
        }
    }
    proof {
        law_versions_are_recorded_where_an_order_exists(versions@, known);
    }
    (order, true)
}

proof fn lemma_push_order(
    versions: Seq<VersionRecord>,
    stored: Set<u64>,
    order: Seq<usize>,
    i: usize,
)
    requires
        parents_first(versions, stored, order),
        i < versions.len(),
        !order.contains(i),
        parent_listed(versions, stored, order, i as int),
    ensures
        parents_first(versions, stored, order.push(i)),
{
    let after = order.push(i);
    assert forall|k: int| 0 <= k < after.len() implies (#[trigger] after[k]) < versions.len()
        && parent_listed(versions, stored, after.take(k), after[k] as int) by {
        assert(after.take(k) =~= order.take(k));
        if k < order.len() {
            assert(after[k] == order[k]);
        } else {
            assert(order.take(k) =~= order);
        }
    }
    assert forall|a: int, b: int| 0 <= a < after.len() && 0 <= b < after.len() && a != b implies after[a]
        != after[b] by {
        if a < order.len() && b < order.len() {
        } else if a < order.len() {
            assert(order.contains(order[a]));
        } else if b < order.len() {
            assert(order.contains(order[b]));
        }
    }
}

/// Where no further version can follow, there is no order of all of them.
proof fn lemma_stuck(
    versions: Seq<VersionRecord>,
    stored: Set<u64>,
    order: Seq<usize>,
    full: Seq<usize>,
)
    requires
        order.no_duplicates(),
        order.len() < versions.len(),
        forall|i: usize|
            i < versions.len() && !order.contains(i) ==> !#[trigger] parent_listed(
                versions,
                stored,
                order,
                i as int,
            ),
    ensures
        !full_order(versions, stored, full),
{
    if full_order(versions, stored, full) {
        assert forall|k: int| 0 <= k < full.len() implies order.contains(#[trigger] full[k]) by {
            lemma_all_listed(versions, stored, order, full, k);
        }
        assert(full.to_set().subset_of(order.to_set()));
        full.unique_seq_to_set();
        order.unique_seq_to_set();
        vstd::set_lib::lemma_len_subset(full.to_set(), order.to_set());
    }
}

proof fn lemma_all_listed(
    versions: Seq<VersionRecord>,
    stored: Set<u64>,
    order: Seq<usize>,
    full: Seq<usize>,
    k: int,
)
    requires
        full_order(versions, stored, full),
        0 <= k < full.len(),
        forall|i: usize|
            i < versions.len() && !order.contains(i) ==> !#[trigger] parent_listed(
                versions,
                stored,
                order,
                i as int,
            ),
    ensures
        order.contains(full[k]),
    decreases k,
{
    let i = full[k];
    assert(i < versions.len() && parent_listed(versions, stored, full.take(k), i as int));
    if !order.contains(i) {
        assert(!parent_listed(versions, stored, order, i as int));
        let parent = versions[i as int].parent_version_id->0;
        let j = choose|j: int|
            0 <= j < full.take(k).len() && versions[(#[trigger] full.take(k)[j]) as int].id
                == parent;
        assert(full.take(k)[j] == full[j]);
        lemma_all_listed(versions, stored, order, full, j);
        let m = choose|m: int| 0 <= m < order.len() && order[m] == full[j];
        assert(versions[order[m] as int].id == parent);
    }
}

/// Whether the two lists share no position and none stands twice, and together they name all.
spec fn parted(n: nat, order: Seq<usize>, pending: Seq<usize>) -> bool {
    &&& positions(n, order)
    &&& positions(n, pending)
    &&& order.no_duplicates()
    &&& pending.no_duplicates()
    &&& forall|i: usize| i < n ==> (#[trigger] order.contains(i)) != pending.contains(i)
    &&& order.len() + pending.len() == n
}

/// How far a pass has come: what is recorded, put off and still to come make up all versions.
spec fn under_way(
    versions: Seq<VersionRecord>,
    stored: Set<u64>,
    order: Seq<usize>,
    pass: Pass,
    rest: Seq<usize>,
) -> bool {
    &&& parents_first(versions, stored, pass.order)
    &&& parted(versions.len(), pass.order, pass.deferred + rest)
    &&& order.len() <= pass.order.len()
    &&& pass.order.len() == order.len() ==> pass.order == order && forall|k: int|
        0 <= k < pass.deferred.len() ==> !parent_listed(
            versions,
            stored,
            order,
            (#[trigger] pass.deferred[k]) as int,
        )
}

/// The next of the positions to come is recorded.
proof fn lemma_recorded(n: nat, order: Seq<usize>, deferred: Seq<usize>, rest: Seq<usize>)
    requires
        parted(n, order, deferred + rest),
        rest.len() > 0,
    ensures
        parted(n, order.push(rest[0]), deferred + rest.drop_first()),
        !order.contains(rest[0]),
        rest[0] < n,
{
    let i = rest[0];
    let all = deferred + rest;
    let left = deferred + rest.drop_first();
    let at = deferred.len() as int;
    assert(all[at] == i);
    assert(all.contains(i));
    let after = order.push(i);
    assert forall|k: int| 0 <= k < left.len() implies (#[trigger] left[k]) == all[if k < at {
        k
    } else {
        k + 1
    }] by {}
    assert(positions(n, left));
    assert(positions(n, after));
    assert forall|a: int, b: int| 0 <= a < after.len() && 0 <= b < after.len() && a != b implies after[a]
        != after[b] by {
        if a < order.len() {
            assert(order.contains(order[a]));
        }
        if b < order.len() {
            assert(order.contains(order[b]));
        }
    }
    assert forall|a: int, b: int| 0 <= a < left.len() && 0 <= b < left.len() && a != b implies left[a]
        != left[b] by {
        let x = if a < at {
            a
        } else {
            a + 1
        };
        let y = if b < at {
            b
        } else {
            b + 1
        };
        assert(left[a] == all[x] && left[b] == all[y]);
    }
    assert forall|j: usize| j < n implies (#[trigger] after.contains(j)) != left.contains(j) by {
        assert(order.contains(j) != all.contains(j));
        if after.contains(j) && j != i {
            let m = choose|m: int| 0 <= m < after.len() && after[m] == j;
            assert(order[m] == j);
            if left.contains(j) {
                let k = choose|k: int| 0 <= k < left.len() && left[k] == j;
                assert(all[if k < at {
                    k
                } else {
                    k + 1
                }] == j);
            }
        }
        if j == i {
            assert(after[order.len() as int] == i);
            if left.contains(i) {
                let k = choose|k: int| 0 <= k < left.len() && left[k] == i;
                let x = if k < at {
                    k
                } else {
                    k + 1
                };
                assert(all[x] == i && x != at);
            }
        }
        if !after.contains(j) {
            if order.contains(j) {
                let m = choose|m: int| 0 <= m < order.len() && order[m] == j;
                assert(after[m] == j);
            }
            let x = choose|x: int| 0 <= x < all.len() && all[x] == j;
            assert(after[order.len() as int] == i);
            assert(x != at);
            assert(left[if x < at {
                x
            } else {
                x - 1
            }] == j);
        }
    }
}

/// What a pass keeps.
#[verifier::spinoff_prover]
proof fn lemma_passed(
    versions: Seq<VersionRecord>,
    stored: Set<u64>,
    order: Seq<usize>,
    pending: Seq<usize>,
    k: int,
)
    requires
        parents_first(versions, stored, order),
        parted(versions.len(), order, pending),
        0 <= k <= pending.len(),
    ensures
        ({
            let pass = passed(versions, stored, order, pending.take(k));
            if pass.stopped {
                exists|i: int| 0 <= i < versions.len() && !#[trigger] parent_given(versions, i)
            } else {
                under_way(versions, stored, order, pass, pending.skip(k)) && forall|m: int|
                    0 <= m < k ==> parent_given(versions, (#[trigger] pending[m]) as int)
            }
        }),
    decreases k,
{
    if k == 0 {
        assert(pending.take(0) =~= Seq::empty());
        assert(Seq::<usize>::empty() + pending.skip(0) =~= pending);
    } else {
        lemma_passed(versions, stored, order, pending, k - 1);
        let before = passed(versions, stored, order, pending.take(k - 1));
        let pass = passed(versions, stored, order, pending.take(k));
        assert(pending.take(k).drop_last() =~= pending.take(k - 1));
        let i = pending[k - 1];
        assert(pending.take(k).last() == i);
        if !before.stopped {
            let rest = pending.skip(k - 1);
            assert(rest[0] == i);
            assert(rest.drop_first() =~= pending.skip(k));
            assert(i < versions.len());
            if parent_given(versions, i as int) {
                if parent_listed(versions, stored, before.order, i as int) {
                    lemma_recorded(versions.len(), before.order, before.deferred, rest);
                    lemma_push_order(versions, stored, before.order, i);
                } else {
                    assert(before.deferred.push(i) + pending.skip(k) =~= before.deferred + rest);
                }
            }
        }
    }
}

/// Passes record all versions exactly where there is an order for all of them, and that order
/// is one.
proof fn lemma_ordered(
    versions: Seq<VersionRecord>,
    stored: Set<u64>,
    order: Seq<usize>,
    pending: Seq<usize>,
)
    requires
        versions.len() <= usize::MAX,
        parents_first(versions, stored, order),
        parted(versions.len(), order, pending),
        forall|i: int|
            0 <= i < versions.len() && order.contains(i as usize) ==> #[trigger] parent_given(
                versions,
                i,
            ),
    ensures
        ({
            let (all, done) = ordered(versions, stored, order, pending);
            if done {
                full_order(versions, stored, all)
            } else {
                forall|full: Seq<usize>| !#[trigger] full_order(versions, stored, full)
            }
        }),
    decreases pending.len(),
{
    if pending.len() == 0 {
        assert forall|i: int| 0 <= i < versions.len() implies #[trigger] parent_given(
            versions,
            i,
        ) by {
            assert(order.contains(i as usize) != pending.contains(i as usize));
        }
    } else {
        let pass = passed(versions, stored, order, pending);
        lemma_passed(versions, stored, order, pending, pending.len() as int);
        assert(pending.take(pending.len() as int) =~= pending);
        assert(pass.deferred + pending.skip(pending.len() as int) =~= pass.deferred);
        if !pass.stopped {
            if pass.deferred.len() >= pending.len() {
                assert(pass.order == order);
                assert forall|full: Seq<usize>| !#[trigger] full_order(
                    versions,
                    stored,
                    full,
                ) by {
                    assert forall|i: usize|
                        i < versions.len() && !order.contains(i) implies !#[trigger] parent_listed(
                        versions,
                        stored,
                        order,
                        i as int,
                    ) by {
                        assert(pass.deferred.contains(i));
                    }
                    lemma_stuck(versions, stored, order, full);
                }
            } else {
                assert forall|i: int|
                    0 <= i < versions.len() && pass.order.contains(
                        i as usize,
                    ) implies #[trigger] parent_given(versions, i) by {
                    if !order.contains(i as usize) {
                        assert(pending.contains(i as usize));
                    }
                }
                lemma_ordered(versions, stored, pass.order, pass.deferred);
            }
        }
    }
}

/// All versions of a batch are recorded exactly where every parent is given and there is an
/// order in which each follows its parent or has it stored; they are recorded in such an order.
pub proof fn law_versions_are_recorded_where_an_order_exists(
    versions: Seq<VersionRecord>,
    stored: Set<u64>,
)
    requires
        versions.len() <= usize::MAX,
    ensures
        version_sequence(versions, stored).1 ==> full_order(
            versions,
            stored,
            version_sequence(versions, stored).0,
        ),
        !version_sequence(versions, stored).1 ==> forall|order: Seq<usize>|
            !#[trigger] full_order(versions, stored, order),
{
    let all = Seq::new(versions.len(), |i: int| i as usize);
    assert forall|i: usize| i < versions.len() implies #[trigger] all.contains(i) by {
        assert(all[i as int] == i);
    }
    assert(parted(versions.len(), Seq::empty(), all)) by {
        assert forall|i: usize| i < versions.len() implies (#[trigger] Seq::<usize>::empty().contains(
            i,
        )) != all.contains(i) by {
            assert(all.contains(i));
        }
    }
    lemma_ordered(versions, stored, Seq::empty(), all);
}

/// One row of a batch, by its table and its position there.
#[derive(Clone, Copy, Debug, PartialEq, Eq, Structural)]
pub enum BatchStep {
    Principal(usize),
    Membership(usize),
    Collection(usize),
    File(usize),
    Version(usize),
    Head(usize),
    Intent(usize),
    Operation(usize),
}

/// How the recording of a batch ends.
#[derive(Clone, Copy, Debug, PartialEq, Eq, Structural)]
pub enum BatchEnd {
    Complete,
    CutShort,
    Invalid,
}

/// The rows to be recorded, in order, and the end after them.
pub struct BatchPlan {
    pub steps: Vec<BatchStep>,
    pub end: BatchEnd,
}

/// The first `n` rows of a table.
pub open spec fn run(n: nat, step: spec_fn(usize) -> BatchStep) -> Seq<BatchStep> {
    Seq::new(n, |i: int| step(i as usize))
}

/// The steps up to the collections.
pub open spec fn owners(batch: CatalogBatch) -> Seq<BatchStep> {
    run(batch.principals@.len(), |i: usize| BatchStep::Principal(i)) + run(
        batch.memberships@.len(),
        |i: usize| BatchStep::Membership(i),
    ) + run(batch.collections@.len(), |i: usize| BatchStep::Collection(i))
}

/// The steps up to the files.
pub open spec fn with_files(batch: CatalogBatch) -> Seq<BatchStep> {
    owners(batch) + run(batch.files@.len(), |i: usize| BatchStep::File(i))
}

/// The steps up to the versions.
pub open spec fn with_versions(batch: CatalogBatch, order: Seq<usize>) -> Seq<BatchStep> {
    with_files(batch) + order.map_values(|i: usize| BatchStep::Version(i))
}

/// The steps up to the intents.
pub open spec fn with_intents(batch: CatalogBatch, order: Seq<usize>) -> Seq<BatchStep> {
    with_versions(batch, order) + run(batch.heads@.len(), |i: usize| BatchStep::Head(i)) + run(
        batch.intents@.len(),
        |i: usize| BatchStep::Intent(i),
    )
}

/// All steps.
pub open spec fn with_operations(batch: CatalogBatch, order: Seq<usize>) -> Seq<BatchStep> {
    with_intents(batch, order) + run(batch.operations@.len(), |i: usize| BatchStep::Operation(i))
}

/// The steps by which a batch is recorded beside the stored versions, and the end after them:
/// what rows refer to comes before the rows themselves, and it stops where it is cut short or
/// a version cannot be recorded.
pub open spec fn planned(batch: CatalogBatch, stored: Set<u64>, cut: CrashPoint) -> (
    Seq<BatchStep>,
    BatchEnd,
) {
    let (order, done) = version_sequence(batch.versions@, stored);
    match cut {
        CrashPoint::AfterCollections => (owners(batch), BatchEnd::CutShort),
        CrashPoint::AfterFiles => (with_files(batch), BatchEnd::CutShort),
        _ => if !done {
            (with_versions(batch, order), BatchEnd::Invalid)
        } else {
            match cut {
                CrashPoint::AfterVersions => (with_versions(batch, order), BatchEnd::CutShort),
                CrashPoint::AfterIntents => (with_intents(batch, order), BatchEnd::CutShort),
                CrashPoint::AfterResults => (with_operations(batch, order), BatchEnd::CutShort),
                _ => (with_operations(batch, order), BatchEnd::Complete),
            }
        },
    }
}

/// Makes the plan by which a batch is recorded, where the given versions are stored already.
pub fn insert_plan(batch: &CatalogBatch, stored: &Vec<u64>, cut: CrashPoint) -> (plan: BatchPlan)
    ensures
        (plan.steps@, plan.end) == planned(*batch, stored@.to_set(), cut),
{
    let mut steps: Vec<BatchStep> = Vec::new();
    let n: usize = batch.principals.len();
    let mut i: usize = 0;
    while i < n
        invariant
            i <= n,
            steps@ =~= run(i as nat, |i: usize| BatchStep::Principal(i)),
        decreases n - i,
    {
        steps.push(BatchStep::Principal(i));
        i = i + 1;
    }
    let ghost base = steps@;
    let n: usize = batch.memberships.len();
    let mut i: usize = 0;
    while i < n
        invariant
            i <= n,
            steps@ =~= base + run(i as nat, |i: usize| BatchStep::Membership(i)),
        decreases n - i,
    {
        steps.push(BatchStep::Membership(i));
        i = i + 1;
    }
    let ghost base = steps@;
    let n: usize = batch.collections.len();
    let mut i: usize = 0;
    while i < n
        invariant
            i <= n,
            steps@ =~= base + run(i as nat, |i: usize| BatchStep::Collection(i)),
        decreases n - i,
    {
        steps.push(BatchStep::Collection(i));
        i = i + 1;
    }
    proof {
        assert(steps@ =~= owners(*batch));
    }
    if cut == CrashPoint::AfterCollections {
        return BatchPlan { steps, end: BatchEnd::CutShort };
    }
    let ghost base = steps@;
    let n: usize = batch.files.len();
    let mut i: usize = 0;
    while i < n
        invariant
            i <= n,
            steps@ =~= base + run(i as nat, |i: usize| BatchStep::File(i)),
        decreases n - i,
    {
        steps.push(BatchStep::File(i));
        i = i + 1;
    }
    proof {
        assert(steps@ =~= with_files(*batch));
    }
    if cut == CrashPoint::AfterFiles {
        return BatchPlan { steps, end: BatchEnd::CutShort };
    }
    let (order, done) = version_order(&batch.versions, stored);
    let ghost base = steps@;
    let n: usize = order.len();
    let mut i: usize = 0;
    while i < n
        invariant
            i <= n == order@.len(),
            steps@ =~= base + order@.take(i as int).map_values(|i: usize| BatchStep::Version(i)),
        decreases n - i,
    {
        steps.push(BatchStep::Version(order[i]));
        i = i + 1;
    }
    proof {
        assert(order@.take(i as int) =~= order@);
        assert(steps@ =~= with_versions(*batch, order@));
    }
    if !done {
        return BatchPlan { steps, end: BatchEnd::Invalid };
    }
    insert_rest(batch, Ghost(stored@.to_set()), cut, steps, Ghost(order@))
}

/// The plan behind the versions.
fn insert_rest(
    batch: &CatalogBatch,
    Ghost(stored): Ghost<Set<u64>>,
    cut: CrashPoint,
    before: Vec<BatchStep>,
    Ghost(order): Ghost<Seq<usize>>,
) -> (plan: BatchPlan)
    requires
        before@ == with_versions(*batch, order),
        version_sequence(batch.versions@, stored) == (order, true),
        !(cut is AfterCollections),
        !(cut is AfterFiles),
    ensures
        (plan.steps@, plan.end) == planned(*batch, stored, cut),
{
    let mut steps = before;
    if cut == CrashPoint::AfterVersions {
        return BatchPlan { steps, end: BatchEnd::CutShort };
    }
    let ghost base = steps@;
    let n: usize = batch.heads.len();
    let mut i: usize = 0;
    while i < n
        invariant
            i <= n,
            steps@ =~= base + run(i as nat, |i: usize| BatchStep::Head(i)),
        decreases n - i,
    {
        steps.push(BatchStep::Head(i));
        i = i + 1;
    }
    let ghost base = steps@;
    let n: usize = batch.intents.len();
    let mut i: usize = 0;
    while i < n
        invariant
            i <= n,
            steps@ =~= base + run(i as nat, |i: usize| BatchStep::Intent(i)),
        decreases n - i,
    {
        steps.push(BatchStep::Intent(i));
        i = i + 1;
    }
    proof {
        assert(steps@ =~= with_intents(*batch, order));
    }
    if cut == CrashPoint::AfterIntents {
        return BatchPlan { steps, end: BatchEnd::CutShort };
    }
    let ghost base = steps@;
    let n: usize = batch.operations.len();
    let mut i: usize = 0;
    while i < n
        invariant
            i <= n,
            steps@ =~= base + run(i as nat, |i: usize| BatchStep::Operation(i)),
        decreases n - i,
    {
        steps.push(BatchStep::Operation(i));
        i = i + 1;
    }
    proof {
        assert(steps@ =~= with_operations(*batch, order));
    }
    if cut == CrashPoint::AfterResults {
        return BatchPlan { steps, end: BatchEnd::CutShort };
    }
    BatchPlan { steps, end: BatchEnd::Complete }
}

} // verus!
