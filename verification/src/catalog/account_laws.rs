//! What the catalog owes to those who own, share, name and read what is in it.
use vstd::prelude::*;
use vstd::string::*;
use vstd::utf8::encode_utf8;

use crate::bytes::le_bytes;
use crate::catalog::dag::{DagOperationBindingState, OperationBinding};
use crate::catalog::dag_bind::{bound, receipt_at};
use crate::catalog::dag_reach::reaches;
use crate::catalog::graph::Graph;
use crate::catalog::ids::{
    CollectionId, CommitId, FileId, NodeId, OperationId, PrincipalId, VersionId,
};
use crate::catalog::laws::{law_reconciliation_ends_all, sound};
use crate::catalog::names::{acceptable, ints_bytes, name_of, nfc_chars, parts_bytes, request_bytes};
use crate::catalog::publication_laws::{active, may, may_use, open};
use crate::catalog::rules::{
    auth_problem, bump_problem, bumped, collection_request, create_collection_outcome,
    create_file_outcome, file_request, fresh, has_version, intent_problem, is_root, lists_intents,
    membership_problem, pins, publish_request, query_problem, reader_problem, reclaimable,
    reconciled, recover_all, release_all, release_one, state_outcome, unpinned, versions_of,
    Bindings, CatalogView,
};
use crate::catalog::types::{
    Capability, CatalogError, DagBindingState, Head, IndexState, IntentState, OperationKind,
    OperationResult, PrincipalKind, PrincipalState,
};
use crate::hashing::blake3_digest;

verus! {

/// Whether a name is plain: not empty, at most two hundred and fifty-five bytes, without
/// slash, null or another control character.
pub open spec fn plain(name: Seq<char>) -> bool {
    &&& 0 < name.len()
    &&& encode_utf8(name).len() < 256
    &&& forall|i: int|
        0 <= i < name.len() ==> {
            let code = (#[trigger] name[i]) as u32;
            31 < code && name[i] != '/' && !(126 < code && code < 160)
        }
}

/// A name is taken in its normal form where that is plain, and refused otherwise.
pub proof fn law_plain_names_are_taken(text: Seq<char>)
    ensures
        plain(nfc_chars(text)) ==> name_of(text) == Ok::<Seq<char>, CatalogError>(nfc_chars(text)),
        !plain(nfc_chars(text)) ==> name_of(text) == Err::<Seq<char>, CatalogError>(
            CatalogError::InvalidName,
        ),
{
    let name = nfc_chars(text);
    assert('\0' as u32 == 0);
    if acceptable(name) {
        assert forall|i: int| 0 <= i < name.len() implies {
            let code = (#[trigger] name[i]) as u32;
            31 < code && name[i] != '/' && !(126 < code && code < 160)
        } by {
            assert(crate::catalog::names::allowed(name[i]));
        }
    }
}

/// Requests are told apart by what they ask for: the fingerprint is the digest of the kind of
/// request, the numbers in it and the name in it, each written out.
pub proof fn law_requests_are_written_out(
    actor: PrincipalId,
    owner: PrincipalId,
    collection: CollectionId,
    file: FileId,
    head: Head,
    name: Seq<char>,
)
    ensures
        collection_request(actor, owner, name) == blake3_digest(
            "cairn/catalog/create-collection/v1".spec_bytes() + le_bytes(2, 4) + le_bytes(
                actor.0 as nat,
                8,
            ) + le_bytes(owner.0 as nat, 8) + le_bytes(1, 4) + le_bytes(encode_utf8(name).len(), 8)
                + encode_utf8(name),
        ),
        file_request(actor, collection, name) == blake3_digest(
            "cairn/catalog/create-file/v1".spec_bytes() + le_bytes(2, 4) + le_bytes(
                actor.0 as nat,
                8,
            ) + le_bytes(collection.0 as nat, 8) + le_bytes(1, 4) + le_bytes(
                encode_utf8(name).len(),
                8,
            ) + encode_utf8(name),
        ),
        publish_request(actor, file, head) == blake3_digest(
            "cairn/catalog/publish/v1".spec_bytes() + le_bytes(4, 4) + le_bytes(actor.0 as nat, 8)
                + le_bytes(file.0 as nat, 8) + le_bytes(
                if head.version_id is Some {
                    (head.version_id->0).0 as nat
                } else {
                    u64::MAX as nat
                },
                8,
            ) + le_bytes(head.generation as nat, 8) + le_bytes(0, 4),
        ),
{
    let number = if head.version_id is Some {
        (head.version_id->0).0
    } else {
        u64::MAX
    };
    lemma_two(actor.0, owner.0);
    lemma_two(actor.0, collection.0);
    lemma_four(actor.0, file.0, number, head.generation);
    lemma_one_part(encode_utf8(name));
    let domain = "cairn/catalog/create-collection/v1".spec_bytes();
    assert(request_bytes(
        domain,
        seq![actor.0, owner.0],
        seq![encode_utf8(name)],
    ) =~= domain + le_bytes(2, 4) + le_bytes(actor.0 as nat, 8) + le_bytes(owner.0 as nat, 8)
        + le_bytes(1, 4) + le_bytes(encode_utf8(name).len(), 8) + encode_utf8(name));
    let domain = "cairn/catalog/create-file/v1".spec_bytes();
    assert(request_bytes(
        domain,
        seq![actor.0, collection.0],
        seq![encode_utf8(name)],
    ) =~= domain + le_bytes(2, 4) + le_bytes(actor.0 as nat, 8) + le_bytes(collection.0 as nat, 8)
        + le_bytes(1, 4) + le_bytes(encode_utf8(name).len(), 8) + encode_utf8(name));
    let domain = "cairn/catalog/publish/v1".spec_bytes();
    assert(request_bytes(
        domain,
        seq![actor.0, file.0, number, head.generation],
        Seq::empty(),
    ) =~= domain + le_bytes(4, 4) + le_bytes(actor.0 as nat, 8) + le_bytes(file.0 as nat, 8)
        + le_bytes(number as nat, 8) + le_bytes(head.generation as nat, 8) + le_bytes(0, 4));
}

proof fn lemma_two(a: u64, b: u64)
    ensures
        ints_bytes(seq![a, b]) == le_bytes(a as nat, 8) + le_bytes(
            b as nat,
            8,
        ),
{
    reveal_with_fuel(ints_bytes, 3);
    assert(seq![a, b].drop_last() =~= seq![a]);
    assert(seq![a].drop_last() =~= Seq::empty());
    assert(ints_bytes(seq![a, b]) =~= le_bytes(a as nat, 8) + le_bytes(
        b as nat,
        8,
    ));
}

proof fn lemma_four(a: u64, b: u64, c: u64, d: u64)
    ensures
        ints_bytes(seq![a, b, c, d]) == le_bytes(a as nat, 8) + le_bytes(
            b as nat,
            8,
        ) + le_bytes(c as nat, 8) + le_bytes(d as nat, 8),
{
    lemma_two(a, b);
    assert(seq![a, b, c, d].drop_last() =~= seq![a, b, c]);
    assert(seq![a, b, c].drop_last() =~= seq![a, b]);
    assert(ints_bytes(seq![a, b, c]) == le_bytes(a as nat, 8) + le_bytes(
        b as nat,
        8,
    ) + le_bytes(c as nat, 8));
}

proof fn lemma_one_part(part: Seq<u8>)
    ensures
        parts_bytes(seq![part]) == le_bytes(part.len(), 8) + part,
{
    reveal_with_fuel(parts_bytes, 2);
    assert(seq![part].drop_last() =~= Seq::empty());
    assert(parts_bytes(seq![part]) =~= le_bytes(part.len(), 8) + part);
}

/// Whether the owner's collections leave the name free.
pub open spec fn collection_free(v: CatalogView, owner: PrincipalId, name: Seq<char>) -> bool {
    forall|id: CollectionId| #[trigger]
        v.collections.dom().contains(id) && v.collections[id].owner == owner
            ==> v.collections[id].name != name
}

/// Whether the collection's files leave the name free.
pub open spec fn file_free(v: CatalogView, collection: CollectionId, name: Seq<char>) -> bool {
    forall|id: FileId| #[trigger]
        v.files.dom().contains(id) && v.files[id].collection == collection ==> v.files[id].name
            != name
}

/// A new request for a collection is carried out for one who is in charge of the owner's
/// members, under a plain name that the owner has not used: the collection gets the next
/// number, the owner and the name in its normal form.
pub proof fn law_collections_are_made(
    v: CatalogView,
    actor: PrincipalId,
    owner: PrincipalId,
    text: Seq<char>,
    op: OperationId,
)
    requires
        !v.operations.dom().contains(op),
        plain(nfc_chars(text)),
        may(v, actor, owner, Capability::ManageMembers),
        collection_free(v, owner, nfc_chars(text)),
        v.next_collection < u64::MAX,
    ensures
        ({
            let (answer, w) = create_collection_outcome(v, actor, owner, text, op);
            let id = CollectionId(v.next_collection);
            &&& answer == Ok::<CollectionId, CatalogError>(id)
            &&& w.next_collection == v.next_collection + 1
            &&& w.collections.dom() == v.collections.dom().insert(id)
            &&& w.collections[id].id == id
            &&& w.collections[id].owner == owner
            &&& w.collections[id].name == nfc_chars(text)
            &&& forall|other: CollectionId|
                other != id && v.collections.dom().contains(other)
                    ==> #[trigger] w.collections[other] == v.collections[other]
            &&& w.operations.dom() == v.operations.dom().insert(op)
            &&& w.operations[op].actor == actor
            &&& w.operations[op].kind == OperationKind::CreateCollection
            &&& w.operations[op].result == Some(OperationResult::Collection(id))
            &&& w.operations[op].error is None
            &&& w.files == v.files
            &&& w.principals == v.principals
            &&& w.memberships == v.memberships
        }),
{
    law_plain_names_are_taken(text);
    let (answer, w) = create_collection_outcome(v, actor, owner, text, op);
    assert(w.collections.dom() =~= v.collections.dom().insert(CollectionId(v.next_collection)));
    assert(w.operations.dom() =~= v.operations.dom().insert(op));
}

/// Why a new request for a collection is refused, in order: the name, the right, the name in
/// use, the numbers. The failure is recorded, and nothing is made.
pub proof fn law_collections_are_refused(
    v: CatalogView,
    actor: PrincipalId,
    owner: PrincipalId,
    text: Seq<char>,
    op: OperationId,
)
    requires
        !v.operations.dom().contains(op),
    ensures
        ({
            let (answer, w) = create_collection_outcome(v, actor, owner, text, op);
            let good = plain(nfc_chars(text));
            let allowed = good && may(v, actor, owner, Capability::ManageMembers);
            let free = allowed && collection_free(v, owner, nfc_chars(text));
            &&& !good ==> answer is Err && answer->Err_0 == CatalogError::InvalidName
            &&& good && !allowed ==> answer is Err && Some(answer->Err_0) == auth_problem(
                v,
                actor,
                owner,
                Capability::ManageMembers,
            )
            &&& allowed && !free ==> answer is Err && answer->Err_0 == CatalogError::NameTaken
            &&& free && v.next_collection == u64::MAX ==> answer is Err && answer->Err_0
                == CatalogError::IdExhausted
            &&& answer is Err ==> w.collections == v.collections && w.next_collection
                == v.next_collection && w.operations[op].error == Some(answer->Err_0)
        }),
{
    law_plain_names_are_taken(text);
}

/// A new request for a file is carried out for one who may write, under a plain name that the
/// collection has not used: the file gets the next number and has no version yet.
pub proof fn law_files_are_made(
    v: CatalogView,
    actor: PrincipalId,
    collection: CollectionId,
    text: Seq<char>,
    op: OperationId,
)
    requires
        !v.operations.dom().contains(op),
        plain(nfc_chars(text)),
        v.collections.dom().contains(collection),
        may(v, actor, v.collections[collection].owner, Capability::Write),
        file_free(v, collection, nfc_chars(text)),
        v.next_file < u64::MAX,
    ensures
        ({
            let (answer, w) = create_file_outcome(v, actor, collection, text, op);
            let id = FileId(v.next_file);
            &&& answer == Ok::<FileId, CatalogError>(id)
            &&& w.next_file == v.next_file + 1
            &&& w.files.dom() == v.files.dom().insert(id)
            &&& w.files[id].id == id
            &&& w.files[id].collection == collection
            &&& w.files[id].name == nfc_chars(text)
            &&& w.files[id].head.version_id is None
            &&& w.files[id].head.generation == 0
            &&& forall|other: FileId|
                other != id && v.files.dom().contains(other) ==> #[trigger] w.files[other]
                    == v.files[other]
            &&& w.operations.dom() == v.operations.dom().insert(op)
            &&& w.operations[op].actor == actor
            &&& w.operations[op].kind == OperationKind::CreateFile
            &&& w.operations[op].result == Some(OperationResult::File(id))
            &&& w.operations[op].error is None
            &&& w.collections == v.collections
            &&& w.versions == v.versions
        }),
{
    law_plain_names_are_taken(text);
    let (answer, w) = create_file_outcome(v, actor, collection, text, op);
    assert(w.files.dom() =~= v.files.dom().insert(FileId(v.next_file)));
    assert(w.operations.dom() =~= v.operations.dom().insert(op));
}

/// Why a new request for a file is refused, in order: the name, the collection, the right, the
/// name in use, the numbers. The failure is recorded, and nothing is made.
pub proof fn law_files_are_refused(
    v: CatalogView,
    actor: PrincipalId,
    collection: CollectionId,
    text: Seq<char>,
    op: OperationId,
)
    requires
        !v.operations.dom().contains(op),
    ensures
        ({
            let (answer, w) = create_file_outcome(v, actor, collection, text, op);
            let good = plain(nfc_chars(text));
            let there = good && v.collections.dom().contains(collection);
            let owner = v.collections[collection].owner;
            let allowed = there && may(v, actor, owner, Capability::Write);
            let free = allowed && file_free(v, collection, nfc_chars(text));
            &&& !good ==> answer is Err && answer->Err_0 == CatalogError::InvalidName
            &&& good && !there ==> answer is Err && answer->Err_0 == CatalogError::NotFound
            &&& there && !allowed ==> answer is Err && Some(answer->Err_0) == auth_problem(
                v,
                actor,
                owner,
                Capability::Write,
            )
            &&& allowed && !free ==> answer is Err && answer->Err_0 == CatalogError::NameTaken
            &&& free && v.next_file == u64::MAX ==> answer is Err && answer->Err_0
                == CatalogError::IdExhausted
            &&& answer is Err ==> w.files == v.files && w.next_file == v.next_file
                && w.operations[op].error == Some(answer->Err_0)
        }),
{
    law_plain_names_are_taken(text);
}

/// Another request under a known identifier is a conflict, and changes nothing.
pub proof fn law_other_requests_conflict(
    v: CatalogView,
    actor: PrincipalId,
    owner: PrincipalId,
    collection: CollectionId,
    text: Seq<char>,
    op: OperationId,
)
    requires
        v.operations.dom().contains(op),
    ensures
        v.operations[op].actor != actor || v.operations[op].kind != OperationKind::CreateCollection
            || v.operations[op].request_fingerprint != collection_request(actor, owner, text)
            ==> create_collection_outcome(v, actor, owner, text, op) == (
            Err::<CollectionId, CatalogError>(CatalogError::OperationConflict),
            v,
        ),
        v.operations[op].actor != actor || v.operations[op].kind != OperationKind::CreateFile
            || v.operations[op].request_fingerprint != file_request(actor, collection, text)
            ==> create_file_outcome(v, actor, collection, text, op) == (
            Err::<FileId, CatalogError>(CatalogError::OperationConflict),
            v,
        ),
{
}

/// A membership is changed by one in charge of the organization's members, for another who is
/// there, as long as both epochs can move on.
pub proof fn law_memberships_are_changed(
    v: CatalogView,
    actor: PrincipalId,
    organization: PrincipalId,
    subject: PrincipalId,
)
    ensures
        ({
            let problem = membership_problem(v, actor, organization, subject);
            let charge = may(v, actor, organization, Capability::ManageMembers);
            let proper = charge && v.principals[organization].kind == PrincipalKind::Organization;
            let other = proper && actor != subject;
            let there = other && v.principals.dom().contains(subject);
            let room = v.principals[organization].authz_epoch < u64::MAX
                && v.principals[subject].authz_epoch < u64::MAX;
            &&& problem is None <==> there && room
            &&& !charge ==> problem == auth_problem(
                v,
                actor,
                organization,
                Capability::ManageMembers,
            )
            &&& charge && !proper ==> problem == Some(CatalogError::InvalidOrganization)
            &&& proper && actor == subject ==> problem == Some(CatalogError::PermissionDenied)
            &&& other && !there ==> problem == Some(CatalogError::NotFound)
            &&& there && !room ==> problem == Some(CatalogError::EpochExhausted)
        }),
{
}

/// A change of membership moves the epochs of both principals on by one, and nothing else of
/// them; a principal that is both moves on once.
pub proof fn law_epochs_move_on(
    v: CatalogView,
    first: PrincipalId,
    second: PrincipalId,
    other: PrincipalId,
)
    requires
        v.principals.dom().contains(first),
        v.principals.dom().contains(second),
        v.principals[first].authz_epoch < u64::MAX,
        v.principals[second].authz_epoch < u64::MAX,
    ensures
        bump_problem(v, first, second) is None,
        ({
            let w = bumped(v, first, second);
            &&& w.principals.dom() == v.principals.dom()
            &&& w.principals[first].authz_epoch == v.principals[first].authz_epoch + 1
            &&& w.principals[second].authz_epoch == v.principals[second].authz_epoch + 1
            &&& w.principals[first].state == v.principals[first].state
            &&& w.principals[first].kind == v.principals[first].kind
            &&& w.principals[second].state == v.principals[second].state
            &&& w.principals[second].kind == v.principals[second].kind
            &&& other != first && other != second ==> w.principals[other] == v.principals[other]
            &&& w.memberships == v.memberships
            &&& w.intents == v.intents
        }),
{
    assert(bumped(v, first, second).principals.dom() =~= v.principals.dom());
}

/// A principal is disabled and enabled again, each time with its epoch moved on by one; one
/// that is not there is not found, and an epoch at its end stops it.
pub proof fn law_principals_change_state(
    v: CatalogView,
    id: PrincipalId,
    other: PrincipalId,
    state: PrincipalState,
)
    ensures
        v.principals.dom().contains(id) && v.principals[id].authz_epoch < u64::MAX ==> {
            let (answer, w) = state_outcome(v, id, state);
            &&& answer is Ok
            &&& w.principals.dom() == v.principals.dom()
            &&& w.principals[id].state == state
            &&& w.principals[id].authz_epoch == v.principals[id].authz_epoch + 1
            &&& w.principals[id].kind == v.principals[id].kind
            &&& w.principals[id].id == v.principals[id].id
            &&& other != id ==> w.principals[other] == v.principals[other]
            &&& w.memberships == v.memberships
            &&& active(w, id) <==> state == PrincipalState::Active
        },
        !v.principals.dom().contains(id) ==> state_outcome(v, id, state) == (
            Err::<(), CatalogError>(CatalogError::NotFound),
            v,
        ),
        v.principals.dom().contains(id) && v.principals[id].authz_epoch == u64::MAX
            ==> state_outcome(v, id, state) == (
            Err::<(), CatalogError>(CatalogError::EpochExhausted),
            v,
        ),
{
    let w = state_outcome(v, id, state).1;
    if v.principals.dom().contains(id) && v.principals[id].authz_epoch < u64::MAX {
        assert(w.principals.dom() =~= v.principals.dom());
    }
}

/// A disabled principal, and what it owns, is out of use until it is enabled again.
pub proof fn law_disabled_principals_are_locked_out(
    v: CatalogView,
    id: PrincipalId,
    other: PrincipalId,
    capability: Capability,
)
    requires
        v.principals.dom().contains(id),
        v.principals[id].authz_epoch < u64::MAX - 1,
    ensures
        ({
            let w = state_outcome(v, id, PrincipalState::Disabled).1;
            let again = state_outcome(w, id, PrincipalState::Active).1;
            &&& !may(w, id, other, capability)
            &&& auth_problem(w, id, other, capability) == Some(CatalogError::PrincipalDisabled)
            &&& auth_problem(w, other, id, capability) is Some
            &&& active(v, id) ==> (auth_problem(again, id, other, capability) is None <==> may(
                v,
                id,
                other,
                capability,
            ))
        }),
{
}

/// A reader is shown a version of a file that it may read, with the commit that the version
/// has, or an empty file; nothing else.
pub proof fn law_readers_are_shown_versions(
    v: CatalogView,
    actor: PrincipalId,
    file: FileId,
    version: VersionId,
    commit: CommitId,
)
    ensures
        ({
            let there = v.versions.dom().contains(file) && exists|k: int|
                0 <= k < v.versions[file].len() && (#[trigger] v.versions[file][k]).id == version
                    && v.versions[file][k].commit_id == commit;
            let allowed = may_use(v, actor, file, Capability::Read);
            &&& reader_problem(v, actor, file, Some(version), Some(commit)) is None <==> allowed
                && there
            &&& allowed && !there ==> reader_problem(v, actor, file, Some(version), Some(commit))
                == Some(CatalogError::NotFound)
            &&& reader_problem(v, actor, file, None, None) is None <==> allowed
            &&& reader_problem(v, actor, file, Some(version), None) is Some
            &&& reader_problem(v, actor, file, None, Some(commit)) is Some
        }),
{
    if v.versions.dom().contains(file) {
        assert(versions_of(v, file) == v.versions[file]);
        if has_version(v, file, version, commit) {
            let k = choose|k: int|
                0 <= k < v.versions[file].len() && (#[trigger] v.versions[file][k]).id == version
                    && v.versions[file][k].commit_id == commit;
            assert(v.versions[file][k].id == version);
        }
        if exists|k: int|
            0 <= k < v.versions[file].len() && (#[trigger] v.versions[file][k]).id == version
                && v.versions[file][k].commit_id == commit {
            let k = choose|k: int|
                0 <= k < v.versions[file].len() && (#[trigger] v.versions[file][k]).id == version
                    && v.versions[file][k].commit_id == commit;
            assert(versions_of(v, file)[k].id == version);
        }
    }
}

/// Letting a commit go takes one of its pins away, and no other commit's.
pub proof fn law_pins_are_counted(v: CatalogView, commit: CommitId, other: CommitId)
    requires
        v.reader_pins.dom().contains(commit) ==> v.reader_pins[commit] > 0,
    ensures
        pins(v, commit) > 0 ==> pins(unpinned(v, commit), commit) == pins(v, commit) - 1,
        pins(v, commit) == 0 ==> unpinned(v, commit) == v,
        other != commit ==> pins(unpinned(v, commit), other) == pins(v, other),
        v.reader_pins.dom().contains(commit) ==> pins(v, commit) == v.reader_pins[commit],
        !v.reader_pins.dom().contains(commit) ==> pins(v, commit) == 0,
        unpinned(v, commit).reader_pins.dom().contains(commit) <==> pins(v, commit) > 1,
        unpinned(v, commit).versions == v.versions,
{
}

/// An intent is shown to the active actor who began it, and to nobody else.
pub proof fn law_intents_are_shown_to_their_actor(
    v: CatalogView,
    actor: PrincipalId,
    op: OperationId,
)
    ensures
        intent_problem(v, actor, op) is None <==> v.intents.dom().contains(op) && active(v, actor)
            && v.intents[op].actor == actor,
        v.intents.dom().contains(op) && active(v, actor) && v.intents[op].actor != actor
            ==> intent_problem(v, actor, op) == Some(CatalogError::PermissionDenied),
        query_problem(v, actor, op) is None <==> active(v, actor) && (v.operations.dom().contains(
            op,
        ) ==> v.operations[op].actor == actor),
        v.operations.dom().contains(op) && v.operations[op].actor != actor ==> query_problem(
            v,
            actor,
            op,
        ) == Some(CatalogError::PermissionDenied),
{
}

/// What holds a commit: a version, a retention root, a reader, an open intent's candidate, an
/// active handoff of another operation, or an active binding of another operation.
pub proof fn law_what_holds_a_commit(
    v: CatalogView,
    bindings: Bindings,
    candidate: OperationId,
    commit: CommitId,
    file: FileId,
    k: int,
    op: OperationId,
)
    ensures
        v.versions.dom().contains(file) && 0 <= k < v.versions[file].len()
            && v.versions[file][k].commit_id == commit ==> is_root(v, bindings, candidate, commit),
        v.retention_roots.contains(commit) ==> is_root(v, bindings, candidate, commit),
        v.reader_pins.dom().contains(commit) ==> is_root(v, bindings, candidate, commit),
        open(v, op) && v.intents[op].candidate is Some
            && v.intents[op].candidate->0.receipt.commit_id == commit ==> is_root(
            v,
            bindings,
            candidate,
            commit,
        ),
        v.handoffs.dom().contains(op) && op != candidate && v.handoffs[op].state
            == IndexState::Active && v.handoffs[op].has_roots && v.handoffs[op].receipt.commit_id
            == commit ==> is_root(v, bindings, candidate, commit),
        bindings.dom().contains(op) && op != candidate && bindings[op].state
            == DagOperationBindingState::Active && bindings[op].commit_id == commit ==> is_root(
            v,
            bindings,
            candidate,
            commit,
        ),
{
    if v.versions.dom().contains(file) && 0 <= k < v.versions[file].len() {
        assert(v.versions[file][k] == v.versions[file][k]);
    }
    assert(v.intents.dom().contains(op) == v.intents.dom().contains(op));
    assert(v.handoffs.dom().contains(op) == v.handoffs.dom().contains(op));
    assert(bindings.dom().contains(op) == bindings.dom().contains(op));
}

/// An open intent holds the commit of the version that it was begun on.
pub proof fn law_open_intents_hold_their_base(
    v: CatalogView,
    bindings: Bindings,
    candidate: OperationId,
    op: OperationId,
    k: int,
)
    requires
        open(v, op),
        v.versions.dom().contains(v.intents[op].file),
        0 <= k < v.versions[v.intents[op].file].len(),
        v.intents[op].expected_head.version_id == Some(v.versions[v.intents[op].file][k].id),
    ensures
        is_root(v, bindings, candidate, v.versions[v.intents[op].file][k].commit_id),
{
    let file = v.intents[op].file;
    assert(v.versions[file][k] == v.versions[file][k]);
}

/// What is held by nothing, and put aside in the catalog and in the graph, can be reclaimed.
pub proof fn law_unheld_commits_are_reclaimed(
    v: CatalogView,
    graph: Graph,
    bindings: Bindings,
    op: OperationId,
)
    requires
        v.intents.dom().contains(op),
        v.intents[op].state == IntentState::Aborted || v.intents[op].state
            == IntentState::Published,
        v.handoffs.dom().contains(op),
        v.handoffs[op].state == IndexState::Tombstoned,
        v.handoffs[op].binding == DagBindingState::Bound,
        !v.handoffs[op].has_roots,
        v.handoffs[op].receipt.operation_id == op,
        bindings.dom().contains(op),
        bindings[op].state == DagOperationBindingState::Tombstoned,
        receipt_at(graph, op, bindings[op].commit_id) == Some(v.handoffs[op].receipt),
        forall|root: NodeId| #[trigger]
            is_root(v, bindings, op, root) ==> graph.dom().contains(root) && !reaches(
                graph,
                root,
                v.handoffs[op].receipt.commit_id,
            ),
    ensures
        reclaimable(v, graph, bindings, op),
{
}

/// Nothing is reclaimed that an open intent, an active handoff or an active binding stands for,
/// or that a root reaches.
pub proof fn law_held_commits_are_kept(
    v: CatalogView,
    graph: Graph,
    bindings: Bindings,
    op: OperationId,
    root: NodeId,
)
    ensures
        open(v, op) ==> !reclaimable(v, graph, bindings, op),
        !v.handoffs.dom().contains(op) ==> !reclaimable(v, graph, bindings, op),
        v.handoffs.dom().contains(op) && v.handoffs[op].state == IndexState::Active ==> !reclaimable(
            v,
            graph,
            bindings,
            op,
        ),
        v.handoffs.dom().contains(op) && v.handoffs[op].receipt.operation_id == op
            && bindings.dom().contains(op) && bindings[op].state
            == DagOperationBindingState::Active ==> !reclaimable(v, graph, bindings, op),
        v.handoffs.dom().contains(op) && is_root(v, bindings, op, root) && reaches(
            graph,
            root,
            v.handoffs[op].receipt.commit_id,
        ) ==> !reclaimable(v, graph, bindings, op),
{
}

/// The binding of an operation that has ended is released where both sides have the same
/// receipt, only that binding, and once; the binding of an open operation is left alone.
pub proof fn law_bindings_are_released(
    v: CatalogView,
    graph: Graph,
    bindings: Bindings,
    op: OperationId,
    other: OperationId,
)
    ensures
        open(v, op) ==> release_one(v, graph, bindings, op) == (Ok::<(), CatalogError>(()), bindings),
        v.intents.dom().contains(op) && !open(v, op) && v.handoffs.dom().contains(op)
            && v.handoffs[op].state == IndexState::Tombstoned && v.handoffs[op].binding
            == DagBindingState::Bound && v.handoffs[op].receipt.operation_id == op
            && bindings.dom().contains(op) && receipt_at(graph, op, bindings[op].commit_id) == Some(
            v.handoffs[op].receipt,
        ) ==> {
            let (answer, after) = release_one(v, graph, bindings, op);
            &&& answer is Ok
            &&& after.dom() == bindings.dom()
            &&& after[op].state == DagOperationBindingState::Tombstoned
            &&& after[op].commit_id == bindings[op].commit_id
            &&& other != op ==> after[other] == bindings[other]
        },
        v.intents.dom().contains(op) && v.intents[op].state == IntentState::Aborted
            && !v.handoffs.dom().contains(op) ==> release_one(v, graph, bindings, op) == (
            Ok::<(), CatalogError>(()),
            bindings,
        ),
        v.intents.dom().contains(op) && v.intents[op].state == IntentState::Published
            && !v.handoffs.dom().contains(op) ==> release_one(v, graph, bindings, op) == (
            Err::<(), CatalogError>(CatalogError::InvalidIntent),
            bindings,
        ),
{
    let (answer, after) = release_one(v, graph, bindings, op);
    if bindings.dom().contains(op) {
        let put = bindings.insert(
            op,
            OperationBinding {
                commit_id: bindings[op].commit_id,
                state: DagOperationBindingState::Tombstoned,
            },
        );
        assert(put.dom() =~= bindings.dom());
        assert(bindings[op].state is Tombstoned ==> bindings[op].state
            == DagOperationBindingState::Tombstoned);
        assert(bound(graph, bindings, op) is Some ==> (bound(graph, bindings, op)->0).1
            == bindings[op].state);
    }
}

/// A catalog that was just made has nothing in it, counts from zero and has its first
/// coordinator.
pub proof fn law_new_catalog_is_empty(
    principal: PrincipalId,
    collection: CollectionId,
    file: FileId,
    op: OperationId,
    commit: CommitId,
)
    ensures
        fresh().coordinator_epoch == 1,
        fresh().next_principal == 0,
        fresh().next_collection == 0,
        fresh().next_file == 0,
        fresh().next_version == 0,
        fresh().next_operation == 0,
        fresh().next_fence_nonce == 0,
        !fresh().principals.dom().contains(principal),
        !fresh().collections.dom().contains(collection),
        !fresh().files.dom().contains(file),
        !fresh().versions.dom().contains(file),
        !fresh().intents.dom().contains(op),
        !fresh().operations.dom().contains(op),
        !fresh().handoffs.dom().contains(op),
        !fresh().retention_roots.contains(commit),
        pins(fresh(), commit) == 0,
{
}

/// Where reconciliation gets through, no intent is left open; where there is none, nothing
/// changes.
pub proof fn law_reconciliation_leaves_nothing_open(
    v: CatalogView,
    graph: Graph,
    bindings: Bindings,
    r: Result<(), CatalogError>,
    w: CatalogView,
    after: Bindings,
    op: OperationId,
)
    requires
        sound(v),
        reconciled(v, graph, bindings, r, w, after),
    ensures
        r is Ok && v.intents.dom().contains(op) ==> w.intents.dom().contains(op) && !open(w, op),
        (forall|other: OperationId| !(#[trigger] v.intents.dom().contains(other))) ==> r is Ok && w
            == v && after == bindings,
{
    let ops = choose|ops: Seq<OperationId>| #[trigger]
        lists_intents(v, ops) && {
            let first = recover_all(v, graph, bindings, ops);
            match first.0 {
                Err(error) => r == Err::<(), CatalogError>(error) && w == first.1 && after
                    == bindings,
                Ok(()) => w == first.1 && (r, after) == release_all(w, graph, bindings, ops),
            }
        };
    assert forall|i: int| 0 <= i < ops.len() implies v.intents.dom().contains(#[trigger] ops[i]) by {
        assert(ops.contains(ops[i]));
    }
    if r is Ok {
        law_reconciliation_ends_all(v, graph, bindings, ops);
        if v.intents.dom().contains(op) {
            assert(ops.contains(op));
        }
    }
    if forall|other: OperationId| !(#[trigger] v.intents.dom().contains(other)) {
        if ops.len() > 0 {
            assert(v.intents.dom().contains(ops[0]));
        }
    }
}

} // verus!
