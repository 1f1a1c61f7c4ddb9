//! What recording a batch and comparing schema texts owe to their callers.
use vstd::prelude::*;

use crate::catalog::batch::{
    parent_given, parent_listed, planned, version_sequence, BatchEnd, BatchStep,
};
use crate::catalog::ddl::{is_space, lowered, normal_ddl, replaced, small, squeezed, starts};
use crate::catalog::records::{CatalogBatch, CrashPoint, VersionRecord};

verus! {

/// A version's parent is given where it has none or it is in the batch, and listed where it has
/// none, it is stored, or it stands before it in the order.
pub proof fn law_parents(
    versions: Seq<VersionRecord>,
    stored: Set<u64>,
    order: Seq<usize>,
    i: int,
    j: int,
)
    ensures
        versions[i].parent_version_id is None ==> parent_given(versions, i) && parent_listed(
            versions,
            stored,
            order,
            i,
        ),
        versions[i].parent_version_id matches Some(parent) ==> {
            &&& 0 <= j < versions.len() && versions[j].id == parent ==> parent_given(versions, i)
            &&& stored.contains(parent) ==> parent_listed(versions, stored, order, i)
            &&& 0 <= j < order.len() && versions[order[j] as int].id == parent ==> parent_listed(
                versions,
                stored,
                order,
                i,
            )
            &&& (forall|k: int| 0 <= k < versions.len() ==> (#[trigger] versions[k]).id != parent)
                ==> !parent_given(versions, i)
        },
{
    if 0 <= j < versions.len() {
        assert(versions[j].id == versions[j].id);
    }
    if 0 <= j < order.len() {
        assert(versions[order[j] as int].id == versions[order[j] as int].id);
    }
}

/// How many rows stand before the versions.
pub open spec fn rows_before_versions(batch: CatalogBatch) -> nat {
    batch.principals@.len() + batch.memberships@.len() + batch.collections@.len()
        + batch.files@.len()
}

/// A batch whose versions can be recorded with their parents first is recorded whole: the
/// principals, memberships, collections and files in their order, then the versions, parents
/// first, then the heads, the intents and the operations; each row once.
pub proof fn law_batches_are_recorded_whole(batch: CatalogBatch, stored: Set<u64>, i: int)
    requires
        version_sequence(batch.versions@, stored).1,
        batch.principals@.len() <= usize::MAX,
        batch.memberships@.len() <= usize::MAX,
        batch.collections@.len() <= usize::MAX,
        batch.files@.len() <= usize::MAX,
        batch.heads@.len() <= usize::MAX,
        batch.intents@.len() <= usize::MAX,
        batch.operations@.len() <= usize::MAX,
    ensures
        ({
            let (steps, end) = planned(batch, stored, CrashPoint::Never);
            let order = version_sequence(batch.versions@, stored).0;
            let members = batch.principals@.len() as int;
            let collections = members + batch.memberships@.len();
            let files = collections + batch.collections@.len();
            let versions = files + batch.files@.len();
            let heads = versions + order.len();
            let intents = heads + batch.heads@.len();
            let operations = intents + batch.intents@.len();
            &&& end == BatchEnd::Complete
            &&& steps.len() == operations + batch.operations@.len()
            &&& 0 <= i < batch.principals@.len() ==> steps[i] == BatchStep::Principal(i as usize)
            &&& 0 <= i < batch.memberships@.len() ==> steps[members + i] == BatchStep::Membership(
                i as usize,
            )
            &&& 0 <= i < batch.collections@.len() ==> steps[collections + i]
                == BatchStep::Collection(i as usize)
            &&& 0 <= i < batch.files@.len() ==> steps[files + i] == BatchStep::File(i as usize)
            &&& 0 <= i < order.len() ==> steps[versions + i] == BatchStep::Version(order[i])
            &&& 0 <= i < batch.heads@.len() ==> steps[heads + i] == BatchStep::Head(i as usize)
            &&& 0 <= i < batch.intents@.len() ==> steps[intents + i] == BatchStep::Intent(
                i as usize,
            )
            &&& 0 <= i < batch.operations@.len() ==> steps[operations + i] == BatchStep::Operation(
                i as usize,
            )
        }),
{
}

/// A batch that is cut short has the front of what it would have recorded: up to the
/// collections, the files, the versions, the intents or the operations.
pub proof fn law_cut_batches_have_the_front(batch: CatalogBatch, stored: Set<u64>)
    requires
        version_sequence(batch.versions@, stored).1,
    ensures
        ({
            let whole = planned(batch, stored, CrashPoint::Never).0;
            let files = rows_before_versions(batch) as int;
            let collections = files - batch.files@.len();
            let versions = files + version_sequence(batch.versions@, stored).0.len();
            let intents = versions + batch.heads@.len() + batch.intents@.len();
            &&& planned(batch, stored, CrashPoint::AfterCollections) == (
                whole.take(collections),
                BatchEnd::CutShort,
            )
            &&& planned(batch, stored, CrashPoint::AfterFiles) == (
                whole.take(files),
                BatchEnd::CutShort,
            )
            &&& planned(batch, stored, CrashPoint::AfterVersions) == (
                whole.take(versions),
                BatchEnd::CutShort,
            )
            &&& planned(batch, stored, CrashPoint::AfterIntents) == (
                whole.take(intents),
                BatchEnd::CutShort,
            )
            &&& planned(batch, stored, CrashPoint::AfterResults) == (whole, BatchEnd::CutShort)
        }),
{
    let whole = planned(batch, stored, CrashPoint::Never).0;
    let files = rows_before_versions(batch) as int;
    let collections = files - batch.files@.len();
    let versions = files + version_sequence(batch.versions@, stored).0.len();
    let intents = versions + batch.heads@.len() + batch.intents@.len();
    assert(planned(batch, stored, CrashPoint::AfterCollections).0 =~= whole.take(collections));
    assert(planned(batch, stored, CrashPoint::AfterFiles).0 =~= whole.take(files));
    assert(planned(batch, stored, CrashPoint::AfterVersions).0 =~= whole.take(versions));
    assert(planned(batch, stored, CrashPoint::AfterIntents).0 =~= whole.take(intents));
}

/// A batch whose versions cannot be recorded is refused at its versions, unless it is cut short
/// before.
pub proof fn law_unordered_batches_are_refused(batch: CatalogBatch, stored: Set<u64>)
    requires
        !version_sequence(batch.versions@, stored).1,
    ensures
        planned(batch, stored, CrashPoint::Never).1 == BatchEnd::Invalid,
        planned(batch, stored, CrashPoint::AfterVersions).1 == BatchEnd::Invalid,
        planned(batch, stored, CrashPoint::AfterIntents).1 == BatchEnd::Invalid,
        planned(batch, stored, CrashPoint::AfterResults).1 == BatchEnd::Invalid,
        planned(batch, stored, CrashPoint::AfterCollections).1 == BatchEnd::CutShort,
        planned(batch, stored, CrashPoint::AfterFiles).1 == BatchEnd::CutShort,
{
}

/// What is written of a text: its characters but for the spaces.
pub open spec fn written(text: Seq<char>) -> Seq<char> {
    text.filter(|c: char| !is_space(c))
}

/// Spacing is ignored, and nothing else: around a text, and in it but for whether there is any.
pub proof fn law_spacing_is_ignored(text: Seq<char>, space: char, other: char)
    requires
        is_space(space),
        is_space(other),
    ensures
        squeezed(text.push(space)) == squeezed(text),
        squeezed(text.push(space).push(other)) == squeezed(text.push(space)),
        squeezed(Seq::<char>::empty()) == Seq::<char>::empty(),
{
    assert(text.push(space).drop_last() =~= text);
    assert(text.push(space).push(other).drop_last() =~= text.push(space));
}

/// A letter goes behind what is there: with one blank where any spacing stood between, with
/// none where none did, and with none at the front.
pub proof fn law_words_stay_apart(text: Seq<char>, letter: char)
    requires
        !is_space(letter),
    ensures
        squeezed(text.push(letter)) == if squeezed(text).len() > 0 && is_space(text.last()) {
            squeezed(text) + seq![' ', letter]
        } else {
            squeezed(text) + seq![letter]
        },
        squeezed(text.push(letter)).last() == letter,
{
    let more = text.push(letter);
    assert(more.drop_last() =~= text);
    if text.len() > 0 {
        assert(more[more.len() - 2] == text.last());
    } else {
        assert(squeezed(text) =~= Seq::empty());
    }
    let rest = squeezed(text);
    assert(rest.push(' ').push(letter) =~= rest + seq![' ', letter]);
    assert(rest.push(letter) =~= rest + seq![letter]);
}

/// No letter is lost or added.
pub proof fn law_letters_are_kept(text: Seq<char>)
    ensures
        written(squeezed(text)) == written(text),
    decreases text.len(),
{
    reveal(Seq::filter);
    let keep = |c: char| !is_space(c);
    if text.len() > 0 {
        let front = text.drop_last();
        let c = text.last();
        law_letters_are_kept(front);
        let rest = squeezed(front);
        assert(text =~= front.push(c));
        lemma_filter_push(front, c);
        assert(is_space(' '));
        lemma_filter_push(rest, ' ');
        lemma_filter_push(rest.push(' '), c);
        lemma_filter_push(rest, c);
    }
}

proof fn lemma_filter_push(text: Seq<char>, c: char)
    ensures
        written(text.push(c)) == if is_space(c) {
            written(text)
        } else {
            written(text).push(c)
        },
{
    reveal(Seq::filter);
    assert(text.push(c).drop_last() =~= text);
}

/// Large letters are small ones, and every other character is itself.
pub proof fn law_letters_are_made_small(c: char, text: Seq<char>, i: int)
    ensures
        'A' <= c <= 'Z' ==> small(c) as u32 == c as u32 + 32,
        !('A' <= c <= 'Z') ==> small(c) == c,
        lowered(text).len() == text.len(),
        0 <= i < text.len() ==> lowered(text)[i] == small(text[i]),
{
}

/// A request to make a table reads the same with and without the words that let it be there.
pub proof fn law_existing_tables_read_the_same(rest: Seq<char>)
    ensures
        replaced(
            "create table if not exists "@ + rest,
            "create table if not exists "@,
            "create table "@,
        ) == "create table "@ + replaced(rest, "create table if not exists "@, "create table "@),
        normal_ddl(rest) == replaced(
            lowered(squeezed(rest)),
            "create table if not exists "@,
            "create table "@,
        ),
{
    reveal_strlit("create table if not exists ");
    reveal_strlit("create table ");
    let pattern = "create table if not exists "@;
    let text = pattern + rest;
    assert(text.take(pattern.len() as int) =~= pattern);
    assert(text.skip(pattern.len() as int) =~= rest);
}

/// Where those words do not stand, a text reads as it is.
pub proof fn law_other_text_is_kept(text: Seq<char>, pattern: Seq<char>, by: Seq<char>)
    requires
        pattern.len() > 0,
        forall|i: int|
            0 <= i && i + pattern.len() <= text.len() ==> #[trigger] text.subrange(
                i,
                i + pattern.len(),
            ) != pattern,
    ensures
        replaced(text, pattern, by) == text,
    decreases text.len(),
{
    if text.len() > 0 {
        let rest = text.drop_first();
        assert forall|i: int| 0 <= i && i + pattern.len() <= rest.len() implies #[trigger] rest.subrange(
            i,
            i + pattern.len(),
        ) != pattern by {
            assert(rest.subrange(i, i + pattern.len()) =~= text.subrange(
                i + 1,
                i + 1 + pattern.len(),
            ));
        }
        law_other_text_is_kept(rest, pattern, by);
        if starts(text, pattern) {
            assert(text.take(pattern.len() as int) =~= text.subrange(0, 0int + pattern.len()));
        }
        assert(seq![text[0]] + rest =~= text);
    } else {
        assert(replaced(text, pattern, by) =~= text);
    }
}

} // verus!
