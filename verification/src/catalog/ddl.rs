//! When two definitions of a table count as the same, and when a database may be
//! opened.
use vstd::prelude::*;
use vstd::string::*;

verus! {

/// Whether a character is white space (the Unicode property White_Space).
pub open spec fn is_space(c: char) -> bool {
    let n = c as u32;
    (9 <= n <= 13) || n == 0x20 || n == 0x85 || n == 0xa0 || n == 0x1680 || (0x2000 <= n <= 0x200a)
        || n == 0x2028 || n == 0x2029 || n == 0x202f || n == 0x205f || n == 0x3000
}

/// The words of a text with one space between each two.
pub open spec fn squeezed(text: Seq<char>) -> Seq<char>
    decreases text.len(),
{
    if text.len() == 0 {
        Seq::empty()
    } else {
        let rest = squeezed(text.drop_last());
        let c = text.last();
        if is_space(c) {
            rest
        } else if rest.len() > 0 && is_space(text[text.len() - 2]) {
            rest.push(' ').push(c)
        } else {
            rest.push(c)
        }
    }
}

/// A character with ASCII capitals made small.
pub open spec fn small(c: char) -> char {
    let n = c as u32;
    if 65 <= n <= 90 {
        (n + 32) as char
    } else {
        c
    }
}

pub open spec fn lowered(text: Seq<char>) -> Seq<char> {
    text.map_values(|c: char| small(c))
}

/// Whether the pattern stands at the front of the text.
pub open spec fn starts(text: Seq<char>, pattern: Seq<char>) -> bool {
    pattern.len() <= text.len() && text.take(pattern.len() as int) == pattern
}

/// The text with every occurrence of the pattern, from the front on, replaced.
pub open spec fn replaced(text: Seq<char>, pattern: Seq<char>, by: Seq<char>) -> Seq<char>
    decreases text.len(),
{
    if text.len() == 0 {
        Seq::empty()
    } else if pattern.len() > 0 && starts(text, pattern) {
        by + replaced(text.skip(pattern.len() as int), pattern, by)
    } else {
        seq![text[0]] + replaced(text.drop_first(), pattern, by)
    }
}

/// A definition in normal form: words apart by one space, in small letters, and without
/// the words that make it conditional.
pub open spec fn normal_ddl(text: Seq<char>) -> Seq<char> {
    replaced(lowered(squeezed(text)), "create table if not exists "@, "create table "@)
}

fn space(c: char) -> (is: bool)
    ensures
        is == is_space(c),
{
    let n: u32 = c as u32;
    (9 <= n && n <= 13) || n == 0x20 || n == 0x85 || n == 0xa0 || n == 0x1680 || (0x2000 <= n && n
        <= 0x200a) || n == 0x2028 || n == 0x2029 || n == 0x202f || n == 0x205f || n == 0x3000
}

fn make_small(c: char) -> (r: char)
    ensures
        r == small(c),
{
    let n: u32 = c as u32;
    if 65 <= n && n <= 90 {
        let byte: u8 = (n + 32) as u8;
        byte as char
    } else {
        c
    }
}

/// The words of a text in small letters with one space between each two.
fn squeeze(text: &str) -> (out: Vec<char>)
    ensures
        out@ == lowered(squeezed(text@)),
{
    let n: usize = text.unicode_len();
    let mut out: Vec<char> = Vec::new();
    let mut i: usize = 0;
    let mut after_space = false;
    proof {
        assert(text@.take(0) =~= Seq::empty());
        assert(out@ =~= lowered(squeezed(text@.take(0))));
    }
    while i < n
        invariant
            i <= n == text@.len(),
            out@ == lowered(squeezed(text@.take(i as int))),
            after_space == (i > 0 && is_space(text@[i - 1])),
        decreases n - i,
    {
        let c = text.get_char(i);
        let ghost prior = squeezed(text@.take(i as int));
        proof {
            let now = text@.take(i + 1);
            assert(now.drop_last() =~= text@.take(i as int));
            assert(now.last() == c);
            if i > 0 {
                assert(now[now.len() - 2] == text@[i - 1]);
            }
            assert(small(' ') == ' ');
        }
        if space(c) {
            after_space = true;
        } else {
            if out.len() > 0 && after_space {
                out.push(' ');
            }
            out.push(make_small(c));
            after_space = false;
        }
        proof {
            assert(out@ =~= lowered(squeezed(text@.take(i + 1))));
        }
        i = i + 1;
    }
    proof {
        assert(text@.take(i as int) =~= text@);
    }
    out
}

fn starts_at(text: &Vec<char>, at: usize, pattern: &str) -> (found: bool)
    requires
        at <= text@.len(),
    ensures
        found == starts(text@.skip(at as int), pattern@),
{
    let n: usize = pattern.unicode_len();
    let total: usize = text.len();
    if total - at < n {
        return false;
    }
    let ghost rest = text@.skip(at as int);
    let mut i: usize = 0;
    while i < n
        invariant
            i <= n == pattern@.len(),
            at + n <= total == text@.len(),
            rest == text@.skip(at as int),
            forall|j: int| 0 <= j < i ==> rest[j] == pattern@[j],
        decreases n - i,
    {
        if text[at + i] != pattern.get_char(i) {
            proof {
                assert(rest.take(n as int)[i as int] != pattern@[i as int]);
            }
            return false;
        }
        i = i + 1;
    }
    proof {
        assert(rest.take(n as int) =~= pattern@);
    }
    true
}

fn push_text(out: &mut Vec<char>, text: &str)
    ensures
        final(out)@ == old(out)@ + text@,
{
    let n: usize = text.unicode_len();
    let ghost before = out@;
    let mut i: usize = 0;
    proof {
        assert(before + text@.take(0) =~= before);
    }
    while i < n
        invariant
            i <= n == text@.len(),
            out@ == before + text@.take(i as int),
        decreases n - i,
    {
        out.push(text.get_char(i));
        i = i + 1;
        proof {
            assert(out@ =~= before + text@.take(i as int));
        }
    }
    proof {
        assert(text@.take(i as int) =~= text@);
    }
}

fn replace(text: &Vec<char>, pattern: &str, by: &str) -> (out: Vec<char>)
    requires
        pattern@.len() > 0,
    ensures
        out@ == replaced(text@, pattern@, by@),
{
    let mut out: Vec<char> = Vec::new();
    let mut at: usize = 0;
    let width: usize = pattern.unicode_len();
    proof {
        assert(text@.skip(0) =~= text@);
        assert(out@ + replaced(text@.skip(0), pattern@, by@) =~= replaced(text@, pattern@, by@));
    }
    while at < text.len()
        invariant
            at <= text@.len(),
            width == pattern@.len(),
            width > 0,
            out@ + replaced(text@.skip(at as int), pattern@, by@) == replaced(text@, pattern@, by@),
        decreases text@.len() - at,
    {
        let ghost rest = text@.skip(at as int);
        let ghost before = out@;
        if starts_at(text, at, pattern) {
            push_text(&mut out, by);
            at = at + width;
            proof {
                assert(rest.skip(width as int) =~= text@.skip(at as int));
                assert(before + (by@ + replaced(text@.skip(at as int), pattern@, by@)) =~= out@
                    + replaced(text@.skip(at as int), pattern@, by@));
            }
        } else {
            out.push(text[at]);
            at = at + 1;
            proof {
                assert(rest.drop_first() =~= text@.skip(at as int));
                assert(before + (seq![rest[0]] + replaced(text@.skip(at as int), pattern@, by@))
                    =~= out@ + replaced(text@.skip(at as int), pattern@, by@));
            }
        }
    }
    proof {
        assert(text@.skip(at as int) =~= Seq::empty());
        assert(out@ + Seq::<char>::empty() =~= out@);
    }
    out
}

/// A definition in normal form.
pub fn normalize_ddl(sql: &str) -> (out: Vec<char>)
    ensures
        out@ == normal_ddl(sql@),
{
    proof {
        reveal_strlit("create table if not exists ");
    }
    let text = squeeze(sql);
    replace(&text, "create table if not exists ", "create table ")
}

/// Whether two definitions count as the same.
pub fn same_ddl(actual: &str, expected: &str) -> (same: bool)
    ensures
        same == (normal_ddl(actual@) == normal_ddl(expected@)),
{
    let a = normalize_ddl(actual);
    let b = normalize_ddl(expected);
    if a.len() != b.len() {
        return false;
    }
    let mut i: usize = 0;
    while i < a.len()
        invariant
            i <= a@.len(),
            a@.len() == b@.len(),
            a@ == normal_ddl(actual@),
            b@ == normal_ddl(expected@),
            forall|j: int| 0 <= j < i ==> a@[j] == b@[j],
        decreases a@.len() - i,
    {
        if a[i] != b[i] {
            return false;
        }
        i = i + 1;
    }
    proof {
        assert(a@ =~= b@);
    }
    true
}

/// Whether two texts are equal but for the case of ASCII letters.
pub fn same_word(a: &str, b: &str) -> (same: bool)
    ensures
        same == (lowered(a@) == lowered(b@)),
{
    let n: usize = a.unicode_len();
    if b.unicode_len() != n {
        proof {
            assert(lowered(a@).len() != lowered(b@).len());
        }
        return false;
    }
    let mut i: usize = 0;
    while i < n
        invariant
            i <= n == a@.len(),
            n == b@.len(),
            forall|j: int| 0 <= j < i ==> small(a@[j]) == small(b@[j]),
        decreases n - i,
    {
        if make_small(a.get_char(i)) != make_small(b.get_char(i)) {
            proof {
                assert(lowered(a@)[i as int] != lowered(b@)[i as int]);
            }
            return false;
        }
        i = i + 1;
    }
    proof {
        assert(lowered(a@) =~= lowered(b@));
    }
    true
}

/// Whether the database keeps what was committed: its journal is a write-ahead log
/// (or in memory, where that is allowed), it waits for the medium, and it checks
/// references.
pub fn durable_settings(
    journal_mode: &str,
    synchronous: i64,
    foreign_keys: i64,
    require_wal: bool,
) -> (ok: bool)
    ensures
        ok == ((lowered(journal_mode@) == lowered("wal"@) || (!require_wal && lowered(
            journal_mode@,
        ) == lowered("memory"@))) && synchronous == 2 && foreign_keys == 1),
{
    let journal_ok = same_word(journal_mode, "wal") || (!require_wal && same_word(
        journal_mode,
        "memory",
    ));
    journal_ok && synchronous == 2 && foreign_keys == 1
}

/// What opening a database comes to, by what is in it.
#[derive(Clone, Copy, Debug, PartialEq, Eq, Structural)]
pub enum SchemaStep {
    /// The database is empty: the schema is created.
    Create,
    /// The tables are of the version before: they are brought up to date.
    Migrate,
    /// The tables are checked and used.
    Use,
    /// The database is of some other kind.
    Reject,
}

/// Decides what to do with a database that holds the given tables.
pub fn schema_step(has_catalog_meta: bool, has_any_table: bool, schema_version: Option<u64>) -> (
    step: SchemaStep)
    ensures
        step == if !has_catalog_meta {
            if has_any_table {
                SchemaStep::Reject
            } else {
                SchemaStep::Create
            }
        } else {
            match schema_version {
                Some(2) => SchemaStep::Migrate,
                Some(3) => SchemaStep::Use,
                _ => SchemaStep::Reject,
            }
        },
{
    if !has_catalog_meta {
        if has_any_table {
            SchemaStep::Reject
        } else {
            SchemaStep::Create
        }
    } else {
        match schema_version {
            Some(2) => SchemaStep::Migrate,
            Some(3) => SchemaStep::Use,
            _ => SchemaStep::Reject,
        }
    }
}

} // verus!
