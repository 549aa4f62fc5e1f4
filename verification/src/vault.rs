//! Naming rules of the memory vault: room keys and the byte lengths that
//! seed files must have.

use vstd::prelude::*;

use crate::error::{MemError, MemErrorView};
use crate::text::{ascii_lower, ascii_lower_char, chars_of, dec, lemma_trim_ends, lemma_trim_noop, push_dec, push_str, string_of, to_ascii_lower_chars, trim, trim_chars};

verus! {

/// File system paths are carried through the library unread.
#[verifier::external_type_specification]
#[verifier::external_body]
pub struct ExPathBuf(std::path::PathBuf);

/// A room key as the vault files it: trimmed, ASCII lowercase.
pub open spec fn normalize_pk_spec(pk: Seq<char>) -> Seq<char> {
    ascii_lower(trim(pk))
}

/// The canonical form of a room wire key.
pub fn normalize_pk(pk: &str) -> (s: String)
    ensures
        s@ == normalize_pk_spec(pk@),
{
    let c = chars_of(pk);
    let t = trim_chars(&c);
    let l = to_ascii_lower_chars(&t);
    string_of(&l)
}

/// Normalizing a key that is already normal changes nothing.
pub proof fn lemma_normalize_pk_idempotent(pk: Seq<char>)
    ensures
        normalize_pk_spec(normalize_pk_spec(pk)) == normalize_pk_spec(pk),
{
    let t = trim(pk);
    let l = ascii_lower(t);
    lemma_trim_ends(pk);
    if l.len() > 0 {
        assert(l[0] == ascii_lower_char(t[0]));
        assert(l.last() == ascii_lower_char(t.last()));
    }
    lemma_trim_noop(l);
    assert(ascii_lower(l) =~= l);
}

/// The text of the error for a seed file of the wrong length.
pub open spec fn seed_len_error(n: nat) -> MemErrorView {
    MemErrorView::Store("ratchet seed must be 32 bytes (got "@ + dec(n) + ")"@)
}

/// A ratchet seed is exactly 32 bytes.
pub fn ratchet_seed_from_bytes(data: Vec<u8>) -> (r: Result<Vec<u8>, MemError>)
    ensures
        data@.len() == 32 ==> (r matches Ok(v) && v@ == data@),
        data@.len() != 32 ==> (r matches Err(e) && e@ == seed_len_error(data@.len())),
{
    if data.len() == 32 {
        return Ok(data);
    }
    let mut m: Vec<char> = Vec::new();
    push_str(&mut m, "ratchet seed must be 32 bytes (got ");
    push_dec(&mut m, data.len() as u64);
    push_str(&mut m, ")");
    Err(MemError::Store(string_of(&m)))
}

} // verus!
