//! Names and request fingerprints.
use vstd::prelude::*;
use vstd::string::*;
use vstd::utf8::encode_utf8;
use unicode_normalization::UnicodeNormalization;

use crate::bytes::{le_bytes, lemma_id_view, push_all, push_le};
use crate::catalog::types::CatalogError;
use crate::hashing::{blake3_digest, digest_bytes};

verus! {

/// The characters of a text in Unicode normalization form C.
pub uninterp spec fn nfc_chars(text: Seq<char>) -> Seq<char>;

/// `unicode_normalization::UnicodeNormalization::nfc`: the text in normalization
/// form C, which depends on the text alone.
#[verifier::external_body]
fn nfc(text: &str) -> (normal: String)
    ensures
        normal@ == nfc_chars(text@),
{
    text.nfc().collect::<String>()
}

/// Whether a character is a control character (general category Cc).
pub open spec fn is_control(c: char) -> bool {
    (c as u32) < 0x20 || 0x7f <= (c as u32) < 0xa0
}

/// Whether a name may hold the character.
pub open spec fn allowed(c: char) -> bool {
    c != '\0' && c != '/' && !is_control(c)
}

/// Whether a normalized name is acceptable.
pub open spec fn acceptable(name: Seq<char>) -> bool {
    &&& name.len() > 0
    &&& encode_utf8(name).len() <= 255
    &&& forall|i: int| 0 <= i < name.len() ==> allowed(#[trigger] name[i])
}

/// The name that a text stands for, if it stands for one.
pub open spec fn name_of(text: Seq<char>) -> Result<Seq<char>, CatalogError> {
    if acceptable(nfc_chars(text)) {
        Ok(nfc_chars(text))
    } else {
        Err(CatalogError::InvalidName)
    }
}

/// Checks a normalized name.
pub fn check_name(name: String) -> (r: Result<String, CatalogError>)
    ensures
        match r {
            Ok(same) => acceptable(name@) && same@ == name@,
            Err(error) => !acceptable(name@) && error == CatalogError::InvalidName,
        },
{
    let bytes = name.as_str().as_bytes();
    if name.as_str().is_empty() || bytes.len() > 255 {
        return Err(CatalogError::InvalidName);
    }
    let text = name.as_str();
    let n: usize = text.unicode_len();
    let mut i: usize = 0;
    while i < n
        invariant
            i <= n,
            n == name@.len(),
            text@ == name@,
            forall|j: int| 0 <= j < i ==> allowed(#[trigger] name@[j]),
        decreases n - i,
    {
        let c = text.get_char(i);
        let code: u32 = c as u32;
        if c == '\0' || c == '/' || code < 0x20 || (0x7f <= code && code < 0xa0) {
            proof {
                assert(!allowed(name@[i as int]));
            }
            return Err(CatalogError::InvalidName);
        }
        i = i + 1;
    }
    Ok(name)
}

/// The name that a text stands for.
pub fn norm(text: &str) -> (r: Result<String, CatalogError>)
    ensures
        match name_of(text@) {
            Ok(name) => r is Ok && r->Ok_0@ == name,
            Err(error) => r == Err::<String, CatalogError>(error),
        },
{
    check_name(nfc(text))
}

/// The integers one after the other, eight bytes each.
pub open spec fn ints_bytes(ints: Seq<u64>) -> Seq<u8>
    decreases ints.len(),
{
    if ints.len() == 0 {
        Seq::empty()
    } else {
        ints_bytes(ints.drop_last()) + le_bytes(ints.last() as nat, 8)
    }
}

/// The parts one after the other, each behind its length.
pub open spec fn parts_bytes(parts: Seq<Seq<u8>>) -> Seq<u8>
    decreases parts.len(),
{
    if parts.len() == 0 {
        Seq::empty()
    } else {
        parts_bytes(parts.drop_last()) + le_bytes(parts.last().len(), 8) + parts.last()
    }
}

/// What a request is told apart by.
pub open spec fn request_bytes(domain: Seq<u8>, ints: Seq<u64>, parts: Seq<Seq<u8>>) -> Seq<u8> {
    domain + le_bytes(ints.len(), 4) + ints_bytes(ints) + le_bytes(parts.len(), 4) + parts_bytes(
        parts,
    )
}

/// The fingerprint of a request.
pub open spec fn fingerprint_of(domain: Seq<u8>, ints: Seq<u64>, parts: Seq<Seq<u8>>) -> [u8; 32] {
    blake3_digest(request_bytes(domain, ints, parts))
}

pub open spec fn part_views(parts: Seq<&[u8]>) -> Seq<Seq<u8>> {
    parts.map_values(|part: &[u8]| part@)
}

/// The fingerprint of a request.
pub fn fingerprint(domain: &str, ints: &[u64], parts: &[&[u8]]) -> (id: [u8; 32])
    ensures
        id == fingerprint_of(domain.spec_bytes(), ints@, part_views(parts@)),
{
    let mut out: Vec<u8> = Vec::new();
    push_all(&mut out, domain.as_bytes());
    push_le(&mut out, ints.len() as u64, 4);
    let ghost head = out@;
    let mut i: usize = 0;
    proof {
        assert(ints@.take(0) =~= Seq::empty());
        assert(out@ =~= head + ints_bytes(ints@.take(0)));
    }
    while i < ints.len()
        invariant
            i <= ints@.len(),
            out@ == head + ints_bytes(ints@.take(i as int)),
        decreases ints@.len() - i,
    {
        push_le(&mut out, ints[i], 8);
        i = i + 1;
        proof {
            assert(ints@.take(i as int).drop_last() =~= ints@.take(i - 1));
            assert(out@ =~= head + ints_bytes(ints@.take(i as int)));
        }
    }
    proof {
        assert(ints@.take(i as int) =~= ints@);
    }
    push_le(&mut out, parts.len() as u64, 4);
    let ghost middle = out@;
    let ghost all = part_views(parts@);
    let mut i: usize = 0;
    proof {
        assert(all.take(0) =~= Seq::empty());
        assert(out@ =~= middle + parts_bytes(all.take(0)));
    }
    while i < parts.len()
        invariant
            i <= parts@.len(),
            all == part_views(parts@),
            out@ == middle + parts_bytes(all.take(i as int)),
        decreases parts@.len() - i,
    {
        push_le(&mut out, parts[i].len() as u64, 8);
        push_all(&mut out, parts[i]);
        i = i + 1;
        proof {
            assert(all.take(i as int).drop_last() =~= all.take(i - 1));
            assert(all.take(i as int).last() == parts@[i - 1]@);
            assert(out@ =~= middle + parts_bytes(all.take(i as int)));
        }
    }
    proof {
        assert(all.take(i as int) =~= all);
        assert(out@ =~= request_bytes(domain.spec_bytes(), ints@, all));
    }
    let id = digest_bytes(out.as_slice());
    proof {
        lemma_id_view(id, fingerprint_of(domain.spec_bytes(), ints@, all));
    }
    id
}

} // verus!
