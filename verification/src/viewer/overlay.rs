//! The overlay that covers a page until the scene can be seen.

use vstd::prelude::*;
use vstd::string::*;

use crate::text::{decimal, ends_with, push_index, starts_with};
use crate::viewer::input::text_view;

verus! {

/// A streamed scene, as far as the overlay is concerned.
#[derive(Clone, Copy, Debug, PartialEq, Eq, Structural)]
pub struct StreamedProgress {
    /// leaves of the scene, once it is read
    pub leaves: Option<usize>,
    /// leaves that are shown
    pub active: usize,
}

/// What the overlay does in a frame.
#[derive(Clone, Copy, Debug, PartialEq, Eq, Structural)]
pub enum OverlayStep {
    /// nothing changes
    Keep,
    /// the page has no overlay: it is never looked for again
    GiveUp,
    /// say that the scene is still to be read
    SceneIndex,
    /// say how much of the scene is shown, and go if it is all
    Progress { active: usize, total: usize, finish: bool },
    /// go
    Finish,
}

/// What the overlay does in a frame. `present` says whether the page has the
/// overlay and its parts.
pub open spec fn overlay_step(
    done: bool,
    present: bool,
    streamed: Option<StreamedProgress>,
    frame: u32,
) -> OverlayStep {
    if done {
        OverlayStep::Keep
    } else if !present {
        OverlayStep::GiveUp
    } else {
        match streamed {
            Some(StreamedProgress { leaves: None, .. }) => OverlayStep::SceneIndex,
            Some(StreamedProgress { leaves: Some(leaves), active }) => {
                let total = if leaves > 1 {
                    leaves
                } else {
                    1
                };
                OverlayStep::Progress { active, total, finish: active >= total }
            },
            None => if frame > 10 {
                OverlayStep::Finish
            } else {
                OverlayStep::Keep
            },
        }
    }
}

/// Decides what the overlay does in a frame: with a streamed scene it stays until
/// every leaf is shown, without one for a few frames.
pub fn plan_overlay(
    done: bool,
    present: bool,
    streamed: Option<StreamedProgress>,
    frame: u32,
) -> (r: OverlayStep)
    ensures
        r == overlay_step(done, present, streamed, frame),
{
    if done {
        return OverlayStep::Keep;
    }
    if !present {
        return OverlayStep::GiveUp;
    }
    match streamed {
        Some(progress) => match progress.leaves {
            None => OverlayStep::SceneIndex,
            Some(leaves) => {
                let total: usize = if leaves > 1 {
                    leaves
                } else {
                    1
                };
                OverlayStep::Progress {
                    active: progress.active,
                    total,
                    finish: progress.active >= total,
                }
            },
        },
        None => if frame > 10 {
            OverlayStep::Finish
        } else {
            OverlayStep::Keep
        },
    }
}

impl OverlayStep {
    /// Whether the overlay is not looked at again after this step.
    pub open spec fn ends(self) -> bool {
        match self {
            OverlayStep::GiveUp => true,
            OverlayStep::Finish => true,
            OverlayStep::Progress { finish, .. } => finish,
            _ => false,
        }
    }

    /// Whether the overlay is not looked at again after this step.
    pub fn is_last(&self) -> (r: bool)
        ensures
            r == self.ends(),
    {
        match self {
            OverlayStep::GiveUp => true,
            OverlayStep::Finish => true,
            OverlayStep::Progress { finish, .. } => *finish,
            _ => false,
        }
    }

    /// What the overlay says after this step, if it says anything new.
    pub open spec fn says(self) -> Option<Seq<char>> {
        match self {
            OverlayStep::SceneIndex => Some("loading scene index…"@),
            OverlayStep::Progress { active, total, .. } => Some(
                "loading scene… "@ + decimal(active as nat) + " / "@ + decimal(total as nat)
                    + " chunks"@,
            ),
            _ => None,
        }
    }

    /// What the overlay says after this step, if it says anything new.
    pub fn status(&self) -> (r: Option<String>)
        ensures
            text_view(r) == self.says(),
    {
        match self {
            OverlayStep::SceneIndex => Some("loading scene index…".to_owned()),
            OverlayStep::Progress { active, total, .. } => {
                let mut text = "loading scene… ".to_owned();
                push_index(&mut text, *active);
                text.append(" / ");
                push_index(&mut text, *total);
                text.append(" chunks");
                Some(text)
            },
            _ => None,
        }
    }
}

/// With a streamed scene the overlay goes on the first frame in which every leaf
/// is shown, and no earlier.
pub proof fn overlay_goes_when_every_leaf_is_shown(leaves: usize, active: usize, frame: u32)
    requires
        leaves > 0,
    ensures
        overlay_step(
            false,
            true,
            Some(StreamedProgress { leaves: Some(leaves), active }),
            frame,
        ).ends() <==> active >= leaves,
{
}

/// Without a streamed scene the overlay stays for ten frames and goes in the next;
/// once it has gone it stays gone, and a page without one is left alone from
/// the first look on.
pub proof fn overlay_stays_ten_frames(frame: u32, streamed: Option<StreamedProgress>, present: bool)
    ensures
        overlay_step(false, true, None, frame).ends() <==> frame > 10,
        frame <= 10 ==> overlay_step(false, true, None, frame) is Keep,
        overlay_step(true, present, streamed, frame) is Keep,
        overlay_step(false, false, streamed, frame) is GiveUp,
        overlay_step(false, false, streamed, frame).ends(),
{
}

/// With a streamed scene the overlay says how far it is: that the scene is still to
/// be read, or how many of its leaves are shown, whatever the frame.
pub proof fn overlay_says_how_far_it_is(leaves: usize, active: usize, frame: u32)
    ensures
        overlay_step(
            false,
            true,
            Some(StreamedProgress { leaves: None, active }),
            frame,
        ) is SceneIndex,
        ({
            let step = overlay_step(
                false,
                true,
                Some(StreamedProgress { leaves: Some(leaves), active }),
                frame,
            );
            let total = if leaves == 0 {
                1
            } else {
                leaves as int
            };
            &&& step is Progress
            &&& step.ends() <==> active >= total
            &&& step.says() matches Some(text) && starts_with(
                text,
                "loading scene… "@ + decimal(active as nat) + " / "@,
            ) && ends_with(text, " / "@ + decimal(total as nat) + " chunks"@)
        }),
{
    let total = if leaves == 0 {
        1
    } else {
        leaves as int
    };
    let head = "loading scene… "@ + decimal(active as nat) + " / "@;
    let tail = " / "@ + decimal(total as nat) + " chunks"@;
    let text = "loading scene… "@ + decimal(active as nat) + " / "@ + decimal(total as nat)
        + " chunks"@;
    assert(text.subrange(0, head.len() as int) =~= head);
    assert(text.subrange(text.len() - tail.len(), text.len() as int) =~= tail);
}

} // verus!
