//! Closing a buffer or the window: which unsaved work is asked about next
//! (save, discard or cancel), so that nothing with unsaved changes is closed
//! without an answer, and each discarded state is asked about only once.
use vstd::prelude::*;

use crate::text::{chars_equal, chars_vec};

verus! {

/// A document as a close request sees it: its identity, whether it has
/// unsaved changes, and its current text (what a discard answer refers to).
pub struct CloseCandidate {
    pub id: u64,
    pub dirty: bool,
    pub text: String,
}

/// What a close request asks about next.
#[derive(Clone, Copy, Debug, PartialEq, Eq, Structural)]
pub enum ClosePrompt {
    /// Whether to save the document at this index.
    Document(usize),
    /// Whether to apply the explorer's staged changes.
    Explorer,
    /// Nothing is left to ask: close.
    Close,
}

/// The identity under which the explorer's staged changes are discarded.
pub const EXPLORER_ID: u64 = 0;

pub open spec fn candidate_views(v: Seq<CloseCandidate>) -> Seq<(u64, bool, Seq<char>)> {
    v.map_values(|c: CloseCandidate| (c.id, c.dirty, c.text@))
}

pub open spec fn discard_views(v: Seq<(u64, String)>) -> Seq<(u64, Seq<char>)> {
    v.map_values(|d: (u64, String)| (d.0, d.1@))
}

/// A document the request must ask about: within its scope (the target
/// buffer, or every buffer for the window), with unsaved changes, and not
/// discarded with its current text.
pub open spec fn pending(c: (u64, bool, Seq<char>), target: Option<u64>, discarded: Seq<(u64, Seq<char>)>) -> bool {
    &&& (target matches Some(t) ==> t == c.0)
    &&& c.1
    &&& !discarded.contains((c.0, c.2))
}

/// The first pending document at or after `i`.
pub open spec fn first_pending(
    cs: Seq<(u64, bool, Seq<char>)>,
    target: Option<u64>,
    discarded: Seq<(u64, Seq<char>)>,
    i: int,
) -> Option<int>
    decreases cs.len() - i,
{
    if i < 0 || i >= cs.len() {
        None
    } else if pending(cs[i], target, discarded) {
        Some(i)
    } else {
        first_pending(cs, target, discarded, i + 1)
    }
}

/// The next question: the first pending document; then, when the window
/// closes, the explorer's staged changes unless they were discarded as they
/// now are; otherwise close.
pub open spec fn spec_next_prompt(
    cs: Seq<(u64, bool, Seq<char>)>,
    target: Option<u64>,
    discarded: Seq<(u64, Seq<char>)>,
    explorer_dirty: bool,
    explorer_state: Seq<char>,
) -> ClosePrompt {
    match first_pending(cs, target, discarded, 0) {
        Some(i) => ClosePrompt::Document(i as usize),
        None => if target is None && explorer_dirty && !discarded.contains((EXPLORER_ID, explorer_state)) {
            ClosePrompt::Explorer
        } else {
            ClosePrompt::Close
        },
    }
}

proof fn lemma_first_pending(
    cs: Seq<(u64, bool, Seq<char>)>,
    target: Option<u64>,
    discarded: Seq<(u64, Seq<char>)>,
    i: int,
)
    requires
        0 <= i <= cs.len(),
    ensures
        first_pending(cs, target, discarded, i) matches Some(k) ==> i <= k < cs.len() && pending(
            cs[k],
            target,
            discarded,
        ),
        first_pending(cs, target, discarded, i) is None ==> forall|k: int|
            i <= k < cs.len() ==> !pending(#[trigger] cs[k], target, discarded),
    decreases cs.len() - i,
{
    if i < cs.len() && !pending(cs[i], target, discarded) {
        lemma_first_pending(cs, target, discarded, i + 1);
    }
}

fn is_discarded(discarded: &Vec<(u64, String)>, id: u64, text: &String) -> (r: bool)
    ensures
        r == discard_views(discarded@).contains((id, text@)),
{
    let ghost dv = discard_views(discarded@);
    let t = chars_vec(text.as_str());
    let mut i: usize = 0;
    while i < discarded.len()
        invariant
            i <= discarded@.len(),
            dv == discard_views(discarded@),
            t@ == text@,
            forall|k: int| 0 <= k < i ==> #[trigger] dv[k] != (id, text@),
        decreases discarded.len() - i,
    {
        let d = chars_vec(discarded[i].1.as_str());
        if discarded[i].0 == id && chars_equal(d.as_slice(), t.as_slice()) {
            assert(dv[i as int] == (id, text@));
            return true;
        }
        i += 1;
    }
    false
}

/// What a close request asks about next, given the open documents, the
/// target buffer (`None` for the window), the answers that discarded work so
/// far, and the explorer's staged state.
pub fn next_close_prompt(
    documents: &Vec<CloseCandidate>,
    target: Option<u64>,
    discarded: &Vec<(u64, String)>,
    explorer_dirty: bool,
    explorer_state: &String,
) -> (r: ClosePrompt)
    ensures
        r == spec_next_prompt(
            candidate_views(documents@),
            target,
            discard_views(discarded@),
            explorer_dirty,
            explorer_state@,
        ),
{
    let ghost cs = candidate_views(documents@);
    let ghost dv = discard_views(discarded@);
    let mut i: usize = 0;
    while i < documents.len()
        invariant
            i <= documents@.len(),
            cs == candidate_views(documents@),
            dv == discard_views(discarded@),
            first_pending(cs, target, dv, i as int) == first_pending(cs, target, dv, 0),
        decreases documents.len() - i,
    {
        let c = &documents[i];
        let in_scope = match target {
            Some(t) => t == c.id,
            None => true,
        };
        if in_scope && c.dirty && !is_discarded(discarded, c.id, &c.text) {
            assert(pending(cs[i as int], target, dv));
            return ClosePrompt::Document(i);
        }
        i += 1;
    }
    if target.is_none() && explorer_dirty && !is_discarded(discarded, EXPLORER_ID, explorer_state) {
        ClosePrompt::Explorer
    } else {
        ClosePrompt::Close
    }
}

/// A close proceeds only when every document in its scope with unsaved
/// changes was discarded as it now is, and, for the window, the explorer has
/// no staged changes or they were discarded as they now are.
pub proof fn law_close_loses_nothing_unanswered(
    cs: Seq<(u64, bool, Seq<char>)>,
    target: Option<u64>,
    discarded: Seq<(u64, Seq<char>)>,
    explorer_dirty: bool,
    explorer_state: Seq<char>,
)
    requires
        spec_next_prompt(cs, target, discarded, explorer_dirty, explorer_state) == ClosePrompt::Close,
    ensures
        forall|k: int|
            0 <= k < cs.len() && (target matches Some(t) ==> t == cs[k].0) && #[trigger] cs[k].1 ==> discarded.contains(
                (cs[k].0, cs[k].2),
            ),
        target is None && explorer_dirty ==> discarded.contains((EXPLORER_ID, explorer_state)),
{
    lemma_first_pending(cs, target, discarded, 0);
    assert forall|k: int|
        0 <= k < cs.len() && (target matches Some(t) ==> t == cs[k].0) && #[trigger] cs[k].1 implies discarded.contains(
        (cs[k].0, cs[k].2),
    ) by {
        assert(!pending(cs[k], target, discarded));
    }
}

/// Discarding what a prompt showed moves on: the same document with the same
/// text is never asked about again.
pub proof fn law_discard_moves_on(
    cs: Seq<(u64, bool, Seq<char>)>,
    target: Option<u64>,
    discarded: Seq<(u64, Seq<char>)>,
    explorer_dirty: bool,
    explorer_state: Seq<char>,
    i: int,
)
    requires
        spec_next_prompt(cs, target, discarded, explorer_dirty, explorer_state) == ClosePrompt::Document(
            i as usize,
        ),
        0 <= i < cs.len(),
        cs.len() <= usize::MAX,
    ensures
        ({
            let after = discarded.push((cs[i].0, cs[i].2));
            let next = spec_next_prompt(cs, target, after, explorer_dirty, explorer_state);
            next matches ClosePrompt::Document(j) ==> cs[j as int] != cs[i]
        }),
{
    let after = discarded.push((cs[i].0, cs[i].2));
    lemma_first_pending(cs, target, discarded, 0);
    lemma_first_pending(cs, target, after, 0);
    assert(after.contains((cs[i].0, cs[i].2))) by {
        assert(after[after.len() - 1] == (cs[i].0, cs[i].2));
    }
}

} // verus!
