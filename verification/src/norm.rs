//! Normalization of words before they enter the trie.
//!
//! On insertion a word's bytes are folded to lowercase and every byte
//! outside `a`..=`z` is dropped. Queries are expected to be lowercase
//! letters already; `letters_only` states that caller contract.

use vstd::prelude::*;
use vstd::string::StringSliceAdditionalSpecFns;

verus! {

/// The byte value of `a`.
pub const LOWER_A: u8 = 97;

/// The byte value of `z`.
pub const LOWER_Z: u8 = 122;

/// The byte value of `A`.
pub const UPPER_A: u8 = 65;

/// The byte value of `Z`.
pub const UPPER_Z: u8 = 90;

/// The distance between an uppercase ASCII letter and its lowercase form.
pub const CASE_GAP: u8 = 32;

/// True iff `c` is a lowercase ASCII letter, the only byte values a trie
/// path may carry.
pub open spec fn is_letter(c: u8) -> bool {
    LOWER_A <= c <= LOWER_Z
}

/// Folds an uppercase ASCII letter to lowercase and leaves every other
/// byte unchanged.
pub open spec fn fold_lower(c: u8) -> u8 {
    if UPPER_A <= c <= UPPER_Z {
        (c + CASE_GAP) as u8
    } else {
        c
    }
}

/// True iff every byte of `s` is a lowercase ASCII letter.
pub open spec fn letters_only(s: Seq<u8>) -> bool {
    forall|i: int| 0 <= i < s.len() ==> is_letter(#[trigger] s[i])
}

/// The insertion normalization: fold to lowercase, then drop every byte
/// that is not a lowercase letter. Defined by recursion on the last byte
/// so that a left-to-right loop unfolds it one step per iteration.
pub open spec fn normalize(s: Seq<u8>) -> Seq<u8>
    decreases s.len(),
{
    if s.len() == 0 {
        Seq::empty()
    } else {
        let rest = normalize(s.drop_last());
        if is_letter(fold_lower(s.last())) {
            rest.push(fold_lower(s.last()))
        } else {
            rest
        }
    }
}

/// A normalized word consists of lowercase letters only.
pub proof fn lemma_normalize_letters_only(s: Seq<u8>)
    ensures
        letters_only(normalize(s)),
    decreases s.len(),
{
    if s.len() > 0 {
        lemma_normalize_letters_only(s.drop_last());
    }
}

/// Normalization is the identity on words that are already lowercase
/// letters, so a word inserted in query form is found again in query form.
pub proof fn lemma_normalize_identity(s: Seq<u8>)
    requires
        letters_only(s),
    ensures
        normalize(s) == s,
    decreases s.len(),
{
    if s.len() == 0 {
        assert(normalize(s) =~= s);
    } else {
        assert(letters_only(s.drop_last()));
        lemma_normalize_identity(s.drop_last());
        assert(is_letter(s.last()));
        assert(normalize(s) =~= s);
    }
}

/// Folds a byte to lowercase; the executable form of `fold_lower`.
pub fn to_lower(c: u8) -> (r: u8)
    ensures
        r == fold_lower(c),
{
    if UPPER_A <= c && c <= UPPER_Z {
        c + CASE_GAP
    } else {
        c
    }
}

/// Normalizes a word's bytes: folds to lowercase and drops every byte
/// outside `a`..=`z`.
pub fn normalize_bytes(s: &[u8]) -> (r: Vec<u8>)
    ensures
        r@ == normalize(s@),
{
    let mut out: Vec<u8> = Vec::new();
    let mut i: usize = 0;
    while i < s.len()
        invariant
            i <= s@.len(),
            out@ == normalize(s@.take(i as int)),
        decreases s@.len() - i,
    {
        let c = to_lower(s[i]);
        if LOWER_A <= c && c <= LOWER_Z {
            out.push(c);
        }
        proof {
            assert(s@.take(i + 1 as int).drop_last() =~= s@.take(i as int));
            assert(s@.take(i + 1 as int).last() == s@[i as int]);
        }
        i = i + 1;
    }
    proof {
        assert(s@.take(s@.len() as int) =~= s@);
    }
    out
}

/// Reports whether `word` may be handed to the membership walk and the
/// suggestion search: lowercase ASCII letters only. Queries outside that
/// range must be rejected or normalized by the caller.
pub fn is_valid_query(word: &str) -> (r: bool)
    ensures
        r == letters_only(word.spec_bytes()),
{
    let bytes = word.as_bytes();
    let mut i: usize = 0;
    while i < bytes.len()
        invariant
            i <= bytes@.len(),
            bytes@ == word.spec_bytes(),
            forall|j: int| 0 <= j < i ==> is_letter(#[trigger] bytes@[j]),
        decreases bytes@.len() - i,
    {
        let c = bytes[i];
        if c < LOWER_A || c > LOWER_Z {
            return false;
        }
        i = i + 1;
    }
    true
}

} // verus!
