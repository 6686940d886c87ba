//! Every pass the journal holds, the way a person looks back at them: what ran, when, how many
//! photos it changed, whether it was taken back, and whether it still can be.

use vstd::prelude::*;

use crate::journal::{self, Kind, Recorded, Swap, WRITTEN};
use crate::json::{parse, parsed};
use crate::text::{copy, join, joined, same, starts, view_opt, views};
use crate::write::{copy_opt, shown, shown_of};

verus! {

#[derive(Debug, Clone, PartialEq, Eq)]
pub struct Pass {
    pub id: i64,
    pub kind: Kind,
    pub title: String,
    pub tool: Option<String>,
    pub started_at: String,
    pub written: i64,
    /// The pass this one took back.
    pub undoes: Option<i64>,
    /// The pass that took this one back.
    pub undone_by: Option<i64>,
    /// How many of the photos it wrote a later pass changed again. Those are left as they are
    /// when it is taken back.
    pub changed_since: i64,
}

impl Pass {
    pub open spec fn takes_back(self) -> bool {
        self.kind == Kind::Write && self.written > 0 && self.undone_by is None
    }

    /// A write that changed something and is not taken back yet. An undo is not offered: running
    /// the tool again is how a change is put back on.
    pub fn can_take_back(&self) -> (yes: bool)
        ensures
            yes == self.takes_back(),
    {
        self.kind == Kind::Write && self.written > 0 && self.undone_by.is_none()
    }

    /// A pass as the journal holds it, with the pass that took it back, and how many of its photos
    /// were changed since. The last two count for a write alone, and the last only where it can
    /// still be taken back.
    pub fn read(pass: &journal::Pass, undo: Option<i64>, changed: i64) -> (read: Pass)
        ensures
            read.id == pass.id,
            read.kind == (if pass.kind@ == "undo"@ {
                Kind::Undo
            } else {
                Kind::Write
            }),
            read.title@ == pass.title@,
            view_opt(read.tool) == view_opt(pass.tool),
            read.started_at@ == pass.started_at@,
            read.written == pass.written,
            read.undoes == pass.undoes,
            read.undone_by == (if read.kind == Kind::Write {
                undo
            } else {
                None
            }),
            read.changed_since == (if read.takes_back() {
                changed
            } else {
                0
            }),
    {
        let kind = if same(&pass.kind, "undo") {
            Kind::Undo
        } else {
            Kind::Write
        };
        let undone_by = if kind == Kind::Write {
            undo
        } else {
            None
        };
        let mut read = Pass {
            id: pass.id,
            kind,
            title: pass.title.clone(),
            tool: copy_opt(&pass.tool),
            started_at: pass.started_at.clone(),
            written: pass.written,
            undoes: pass.undoes,
            undone_by,
            changed_since: 0,
        };
        if read.can_take_back() {
            read.changed_since = changed;
        }
        read
    }
}

/// A value the journal holds, in words; a text that is no value counts as none.
pub open spec fn side_told(text: Option<Seq<char>>) -> Seq<char> {
    match text {
        Some(text) => match parsed(text) {
            Ok(tree) => shown_of(Some(tree)),
            Err(_) => shown_of(None),
        },
        None => shown_of(None),
    }
}

pub open spec fn swap_told(swap: Swap) -> Seq<char> {
    swap.tag@ + ": "@ + side_told(view_opt(swap.old)) + " -> "@ + side_told(view_opt(swap.new))
}

pub open spec fn swaps_told(swaps: Seq<Swap>) -> Seq<Seq<char>> {
    swaps.map_values(|swap: Swap| swap_told(swap))
}

/// What one photo of a pass got, in words.
pub open spec fn photo_told(photo: Recorded) -> Seq<char> {
    match photo.outcome {
        Some(outcome) => if outcome@ == WRITTEN@ {
            joined(swaps_told(photo.swaps@), "; "@)
        } else {
            match photo.detail {
                Some(detail) => outcome@ + ": "@ + detail@,
                None => outcome@,
            }
        },
        None => "never finished: the pass was interrupted"@,
    }
}

fn side(text: &Option<String>) -> (words: String)
    ensures
        words@ == side_told(view_opt(*text)),
{
    match text {
        Some(text) => match parse(text) {
            Ok(json) => shown(Some(&json)),
            Err(_) => shown(None),
        },
        None => shown(None),
    }
}

fn swapped(swap: &Swap) -> (words: String)
    ensures
        words@ == swap_told(*swap),
{
    swap.tag.clone().concat(": ").concat(&side(&swap.old)).concat(" -> ").concat(&side(&swap.new))
}

/// What one photo of a pass got, the way a person reads it: every tag with its two sides, or why
/// it was left alone.
pub fn told(photo: &Recorded) -> (words: String)
    ensures
        words@ == photo_told(*photo),
{
    match &photo.outcome {
        Some(outcome) => {
            if same(outcome, WRITTEN) {
                let mut parts: Vec<String> = Vec::new();
                let ghost goal = swaps_told(photo.swaps@);
                for i in 0..photo.swaps.len()
                    invariant
                        goal == swaps_told(photo.swaps@),
                        views(parts@) == goal.take(i as int),
                {
                    let ghost before = views(parts@);
                    parts.push(swapped(&photo.swaps[i]));
                    assert(views(parts@) =~= before.push(goal[i as int]));
                    assert(goal.take(i + 1) =~= before.push(goal[i as int]));
                }
                assert(goal.take(photo.swaps@.len() as int) =~= goal);
                join(&parts, "; ")
            } else {
                match &photo.detail {
                    Some(detail) => outcome.clone().concat(": ").concat(detail),
                    None => outcome.clone(),
                }
            }
        },
        None => copy("never finished: the pass was interrupted"),
    }
}

/// A swap is told from what was there to what is there: a tag that was not there is told as none
/// before the arrow, one that is not there any more as none after it.
pub proof fn a_swap_is_told_from_what_was_to_what_is(swap: Swap)
    ensures
        starts(swap_told(swap), swap.tag@ + ": "@),
        swap.old is None ==> starts(swap_told(swap), swap.tag@ + ": "@ + "none"@ + " -> "@),
        swap.new is None ==> swap_told(swap).len() >= (" -> "@ + "none"@).len() && swap_told(
            swap,
        ).skip(swap_told(swap).len() - (" -> "@ + "none"@).len()) == " -> "@ + "none"@,
{
    let told = swap_told(swap);
    let head = swap.tag@ + ": "@;
    assert(told.take(head.len() as int) =~= head);
    if swap.old is None {
        let more = swap.tag@ + ": "@ + "none"@ + " -> "@;
        assert(told.take(more.len() as int) =~= more);
    }
    if swap.new is None {
        let tail = " -> "@ + "none"@;
        assert(told.skip(told.len() - tail.len()) =~= tail);
    }
}

/// A photo that was written is told by every swap in the order they were made: one more is told
/// behind the others.
pub proof fn every_swap_of_a_photo_is_told(photo: Recorded, before: Recorded, last: Swap)
    requires
        photo.outcome matches Some(outcome) && outcome@ == "written"@,
        before.outcome == photo.outcome,
        before.swaps@.len() > 0,
        photo.swaps@ == before.swaps@.push(last),
    ensures
        photo_told(photo) == photo_told(before) + "; "@ + swap_told(last),
{
    let all = swaps_told(photo.swaps@);
    assert(all.drop_last() =~= swaps_told(before.swaps@));
    assert(all.last() == swap_told(last));
}

/// What was left alone is told by its outcome, and why where that is known; what has no outcome
/// was interrupted.
pub proof fn what_was_left_alone_says_why(photo: Recorded)
    requires
        photo.outcome matches Some(outcome) ==> outcome@ != "written"@,
    ensures
        photo.outcome matches Some(outcome) ==> starts(photo_told(photo), outcome@),
        photo.outcome is Some && photo.detail is None ==> photo_told(photo) == photo.outcome->0@,
        photo.outcome matches Some(outcome) ==> (photo.detail matches Some(detail) ==> photo_told(
            photo,
        ) == outcome@ + ": "@ + detail@),
{
    if let Some(outcome) = photo.outcome {
        assert(photo_told(photo).take(outcome@.len() as int) =~= outcome@);
    }
}

} // verus!
