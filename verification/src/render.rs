//! The decisions a renderer needs: how many identical leading messages to
//! skip, which label a message gets, and whether a message's text leaves a
//! code fence open.
//!
//! The textual layer itself — separators, headers, the exact wording of the
//! skip notice — is a presentation concern outside this library; a consumer
//! builds it from the values computed here.

use vstd::prelude::*;
use vstd::string::StringSliceAdditionalSpecFns;

use crate::model::{AuthorRole, ModelSlug, ThreadEntry};

verus! {

/// The speaker label shown before a message. An assistant message carries
/// the specific label only for the one recognised model; any other model
/// identifier, and an absent one, fall back to the generic label.
#[derive(Copy, Clone, Debug, PartialEq, Eq)]
pub enum RoleLabel {
    User,
    Gpt4,
    ChatGpt,
    System,
}

/// The label of a message with the given role and model metadata.
pub open spec fn spec_label(role: AuthorRole, model: Option<ModelSlug>) -> RoleLabel {
    match role {
        AuthorRole::User => RoleLabel::User,
        AuthorRole::System => RoleLabel::System,
        AuthorRole::Assistant => match model {
            Some(ModelSlug::Gpt4) => RoleLabel::Gpt4,
            _ => RoleLabel::ChatGpt,
        },
    }
}

/// The label a renderer prints for a message of the given role and model
/// metadata.
pub fn display_label(role: AuthorRole, model: Option<ModelSlug>) -> (l: RoleLabel)
    ensures
        l == spec_label(role, model),
{
    match role {
        AuthorRole::User => RoleLabel::User,
        AuthorRole::System => RoleLabel::System,
        AuthorRole::Assistant => match model {
            Some(ModelSlug::Gpt4) => RoleLabel::Gpt4,
            _ => RoleLabel::ChatGpt,
        },
    }
}

/// The first flagged position of a thread at or after `i`, or 0 when no
/// position is flagged.
pub open spec fn first_flag_from(t: Seq<ThreadEntry>, i: int) -> int
    decreases t.len() - i,
{
    if i < 0 || i >= t.len() {
        0
    } else if t[i].diverges {
        i
    } else {
        first_flag_from(t, i + 1)
    }
}

/// How many leading messages of a thread a renderer may elide: the first
/// flagged position, every message before which is identical to its
/// predecessor's — or 0 when nothing is flagged and the thread must be
/// shown whole.
pub open spec fn spec_skip_count(t: Seq<ThreadEntry>) -> int {
    first_flag_from(t, 0)
}

/// The number of identical leading messages a renderer may elide from the
/// thread.
pub fn skip_count(t: &Vec<ThreadEntry>) -> (r: usize)
    ensures
        r == spec_skip_count(t@),
        forall|j: int| 0 <= j < r ==> !t@[j].diverges,
        r != 0 ==> r < t@.len() && t@[r as int].diverges,
{
    let mut i: usize = 0;
    while i < t.len()
        invariant
            i <= t@.len(),
            first_flag_from(t@, 0) == first_flag_from(t@, i as int),
            forall|j: int| 0 <= j < i ==> !t@[j].diverges,
        decreases t@.len() - i,
    {
        if t[i].diverges {
            return i;
        }
        i += 1;
    }
    0
}

/// The number of non-overlapping code fences — three consecutive backtick
/// bytes — at or after byte position `i`, scanning left to right.
pub open spec fn fence_count_from(bs: Seq<u8>, i: int) -> nat
    decreases bs.len() - i,
{
    if i < 0 || i + 3 > bs.len() {
        0
    } else if bs[i] == 0x60 && bs[i + 1] == 0x60 && bs[i + 2] == 0x60 {
        1 + fence_count_from(bs, i + 3)
    } else {
        fence_count_from(bs, i + 1)
    }
}

/// The number of non-overlapping code fences in a text.
pub open spec fn fence_count(bs: Seq<u8>) -> nat {
    fence_count_from(bs, 0)
}

/// Whether a message's text opens a code fence it never closes — an odd
/// number of fences — so a renderer can append the missing closing fence
/// after an interrupted reply.
pub fn has_unclosed_fence(part: &str) -> (b: bool)
    ensures
        b == (fence_count(part.spec_bytes()) % 2 == 1),
{
    let bs = part.as_bytes();
    let mut count: usize = 0;
    let mut i: usize = 0;
    if bs.len() >= 3 {
        while i <= bs.len() - 3
            invariant
                bs@ == part.spec_bytes(),
                bs@.len() >= 3,
                i <= bs@.len(),
                3 * count <= i,
                count + fence_count_from(bs@, i as int) == fence_count(bs@),
            decreases bs@.len() - i,
        {
            if bs[i] == 0x60 && bs[i + 1] == 0x60 && bs[i + 2] == 0x60 {
                count += 1;
                i += 3;
            } else {
                i += 1;
            }
        }
    }
    proof {
        assert(fence_count_from(bs@, i as int) == 0);
    }
    count % 2 == 1
}

} // verus!
