//! Patch engine: scan a buffer for the first occurrence of a byte pattern and
//! overwrite it in place with an equal-length replacement.

use vstd::prelude::*;

verus! {

use crate::parse::{ParseError, ParseErrorModel, parse_hex_pattern, spec_parse_pattern};

/// Which of a patch's two patterns failed to parse.
#[derive(Debug, PartialEq, Eq)]
pub enum PatchSide {
    Find,
    Replace,
}

/// Outcome of applying one patch to a buffer. Every outcome but `Applied`
/// leaves the buffer unchanged; none of them is fatal to a run.
#[derive(Debug, PartialEq, Eq)]
pub enum PatchOutcome {
    /// The first occurrence of the find pattern, at this offset, was
    /// overwritten with the replace pattern.
    Applied { offset: usize },
    /// The find pattern does not occur in the buffer (an empty pattern never
    /// occurs).
    NotFound,
    /// One of the two patterns failed to parse.
    ParseFailed { side: PatchSide, error: ParseError },
    /// The two patterns parse to byte sequences of different lengths; an
    /// in-place overwrite cannot change the buffer's size.
    LengthMismatch { find_len: usize, replace_len: usize },
}

/// The needle occurs in the haystack starting at offset `i`.
pub open spec fn match_at(haystack: Seq<u8>, needle: Seq<u8>, i: int) -> bool {
    &&& 0 <= i
    &&& i + needle.len() <= haystack.len()
    &&& haystack.subrange(i, i + needle.len() as int) == needle
}

/// Checks whether the needle occurs in the haystack at the given offset.
fn slices_match_at(haystack: &[u8], needle: &[u8], off: usize) -> (r: bool)
    requires
        off + needle@.len() <= haystack@.len(),
    ensures
        r == match_at(haystack@, needle@, off as int),
{
    let n = needle.len();
    let h = haystack.len();
    let mut k: usize = 0;
    while k < n
        invariant
            k <= n,
            n == needle@.len(),
            h == haystack@.len(),
            off + n <= h,
            forall|m: int| 0 <= m < k ==> haystack@[off + m] == needle@[m],
        decreases n - k,
    {
        if haystack[off + k] != needle[k] {
            proof {
                if match_at(haystack@, needle@, off as int) {
                    assert(haystack@.subrange(off as int, off + needle@.len() as int)[k as int]
                        == needle@[k as int]);
                }
            }
            return false;
        }
        k += 1;
    }
    proof {
        assert(haystack@.subrange(off as int, off + needle@.len() as int) =~= needle@);
    }
    true
}

/// Finds the lowest offset at which the needle occurs in the haystack.
/// An empty needle never matches.
pub fn find_subslice(haystack: &[u8], needle: &[u8]) -> (r: Option<usize>)
    ensures
        match r {
            Some(off) => {
                &&& needle@.len() > 0
                &&& match_at(haystack@, needle@, off as int)
                &&& forall|j: int| 0 <= j < off ==> !match_at(haystack@, needle@, j)
            },
            None => needle@.len() == 0 || forall|j: int| !match_at(haystack@, needle@, j),
        },
{
    let n = needle.len();
    let h = haystack.len();
    if n == 0 || n > h {
        proof {
            if needle@.len() > 0 {
                assert forall|j: int| !match_at(haystack@, needle@, j) by {}
            }
        }
        return None;
    }
    let mut i: usize = 0;
    while i <= h - n
        invariant
            n <= h,
            i <= h - n + 1,
            n == needle@.len(),
            h == haystack@.len(),
            n >= 1,
            forall|j: int| 0 <= j < i ==> !match_at(haystack@, needle@, j),
        decreases h - n + 1 - i,
    {
        if slices_match_at(haystack, needle, i) {
            return Some(i);
        }
        i += 1;
    }
    proof {
        assert forall|j: int| !match_at(haystack@, needle@, j) by {
            if 0 <= j < i {
                assert(!match_at(haystack@, needle@, j));
            }
        }
    }
    None
}

/// The original sequence with `patch` written over the bytes starting at
/// `offset`; everything outside that window is unchanged.
pub open spec fn spliced(orig: Seq<u8>, offset: int, patch: Seq<u8>) -> Seq<u8> {
    orig.take(offset) + patch + orig.skip(offset + patch.len() as int)
}

/// Overwrites `content[offset .. offset + replacement.len()]` with the
/// replacement bytes, leaving the rest of the buffer untouched.
pub fn overwrite_at(content: &mut Vec<u8>, offset: usize, replacement: &[u8])
    requires
        offset + replacement@.len() <= old(content)@.len(),
    ensures
        final(content)@ == spliced(old(content)@, offset as int, replacement@),
{
    let ghost orig = content@;
    let n = replacement.len();
    let total = content.len();
    let mut k: usize = 0;
    while k < n
        invariant
            k <= n,
            n == replacement@.len(),
            total == orig.len(),
            offset + n <= total,
            content@.len() == orig.len(),
            forall|i: int|
                0 <= i < orig.len() && !(offset <= i < offset + k) ==> content@[i] == orig[i],
            forall|i: int| 0 <= i < k ==> content@[offset + i] == replacement@[i],
        decreases n - k,
    {
        let b = replacement[k];
        content.set(offset + k, b);
        k += 1;
    }
    proof {
        assert(content@ =~= spliced(orig, offset as int, replacement@));
    }
}

/// A patch's two patterns after validation, before any buffer is touched.
#[derive(Debug, PartialEq, Eq)]
pub enum PatchPrep {
    /// Both patterns parsed and have the same length; the patch may be
    /// applied.
    Ready { find: Vec<u8>, replace: Vec<u8> },
    /// One of the two patterns failed to parse.
    ParseFailed { side: PatchSide, error: ParseError },
    /// The two patterns parse to byte sequences of different lengths.
    LengthMismatch { find_len: usize, replace_len: usize },
}

/// Parses and validates a patch's two patterns. This is the part of a patch
/// that precedes any access to the target: a patch rejected here must cause
/// no I/O at all.
pub fn prepare_patch(find_text: &[u8], replace_text: &[u8]) -> (r: PatchPrep)
    ensures
        match r {
            PatchPrep::Ready { find, replace } => {
                &&& spec_parse_pattern(find_text@) == Ok::<Seq<u8>, ParseErrorModel>(find@)
                &&& spec_parse_pattern(replace_text@) == Ok::<Seq<u8>, ParseErrorModel>(replace@)
                &&& find@.len() == replace@.len()
            },
            PatchPrep::ParseFailed { side, error } => match side {
                PatchSide::Find => spec_parse_pattern(find_text@) == Err::<
                    Seq<u8>,
                    ParseErrorModel,
                >(error@),
                PatchSide::Replace => spec_parse_pattern(find_text@) is Ok && spec_parse_pattern(
                    replace_text@,
                ) == Err::<Seq<u8>, ParseErrorModel>(error@),
            },
            PatchPrep::LengthMismatch { find_len, replace_len } => {
                &&& spec_parse_pattern(find_text@) matches Ok(f) && f.len() == find_len
                &&& spec_parse_pattern(replace_text@) matches Ok(rep) && rep.len() == replace_len
                &&& find_len != replace_len
            },
        },
{
    let find_bytes = match parse_hex_pattern(find_text) {
        Ok(b) => b,
        Err(e) => {
            return PatchPrep::ParseFailed { side: PatchSide::Find, error: e };
        },
    };
    let replace_bytes = match parse_hex_pattern(replace_text) {
        Ok(b) => b,
        Err(e) => {
            return PatchPrep::ParseFailed { side: PatchSide::Replace, error: e };
        },
    };
    if find_bytes.len() != replace_bytes.len() {
        return PatchPrep::LengthMismatch {
            find_len: find_bytes.len(),
            replace_len: replace_bytes.len(),
        };
    }
    PatchPrep::Ready { find: find_bytes, replace: replace_bytes }
}

/// Overwrites the first occurrence of `find` in the buffer with `replace`,
/// and returns its offset; a buffer without the pattern (an empty pattern
/// never occurs) is left unchanged.
pub fn patch_buffer(content: &mut Vec<u8>, find: &[u8], replace: &[u8]) -> (r: Option<usize>)
    requires
        find@.len() == replace@.len(),
    ensures
        match r {
            Some(offset) => {
                &&& find@.len() > 0
                &&& match_at(old(content)@, find@, offset as int)
                &&& forall|j: int| 0 <= j < offset ==> !match_at(old(content)@, find@, j)
                &&& final(content)@ == spliced(old(content)@, offset as int, replace@)
            },
            None => (find@.len() == 0 || forall|j: int| !match_at(old(content)@, find@, j))
                && final(content)@ == old(content)@,
        },
{
    match find_subslice(content.as_slice(), find) {
        Some(offset) => {
            overwrite_at(content, offset, replace);
            Some(offset)
        },
        None => None,
    }
}

/// Applies one patch to a buffer: parses both patterns, checks that they have
/// the same length, and overwrites the first occurrence of the find bytes
/// with the replace bytes. The buffer is unchanged unless the outcome is
/// `Applied`.
pub fn apply_patch(content: &mut Vec<u8>, find_text: &[u8], replace_text: &[u8]) -> (r:
    PatchOutcome)
    ensures
        match r {
            PatchOutcome::ParseFailed { side, error } => {
                &&& final(content)@ == old(content)@
                &&& match side {
                    PatchSide::Find => spec_parse_pattern(find_text@) == Err::<
                        Seq<u8>,
                        ParseErrorModel,
                    >(error@),
                    PatchSide::Replace => spec_parse_pattern(find_text@) is Ok
                        && spec_parse_pattern(replace_text@) == Err::<
                        Seq<u8>,
                        ParseErrorModel,
                    >(error@),
                }
            },
            PatchOutcome::LengthMismatch { find_len, replace_len } => {
                &&& final(content)@ == old(content)@
                &&& spec_parse_pattern(find_text@) matches Ok(f) && f.len() == find_len
                &&& spec_parse_pattern(replace_text@) matches Ok(rep) && rep.len() == replace_len
                &&& find_len != replace_len
            },
            PatchOutcome::NotFound => {
                &&& final(content)@ == old(content)@
                &&& spec_parse_pattern(find_text@) matches Ok(f)
                    && spec_parse_pattern(replace_text@) matches Ok(rep) && f.len() == rep.len()
                    && (f.len() == 0 || forall|j: int| !match_at(old(content)@, f, j))
            },
            PatchOutcome::Applied { offset } => {
                spec_parse_pattern(find_text@) matches Ok(f) && spec_parse_pattern(replace_text@)
                    matches Ok(rep) && {
                    &&& f.len() == rep.len()
                    &&& f.len() > 0
                    &&& match_at(old(content)@, f, offset as int)
                    &&& forall|j: int| 0 <= j < offset ==> !match_at(old(content)@, f, j)
                    &&& final(content)@ == spliced(old(content)@, offset as int, rep)
                }
            },
        },
{
    let (find_bytes, replace_bytes) = match prepare_patch(find_text, replace_text) {
        PatchPrep::Ready { find, replace } => (find, replace),
        PatchPrep::ParseFailed { side, error } => {
            return PatchOutcome::ParseFailed { side, error };
        },
        PatchPrep::LengthMismatch { find_len, replace_len } => {
            return PatchOutcome::LengthMismatch { find_len, replace_len };
        },
    };
    match patch_buffer(content, find_bytes.as_slice(), replace_bytes.as_slice()) {
        Some(offset) => PatchOutcome::Applied { offset },
        None => PatchOutcome::NotFound,
    }
}

} // verus!
