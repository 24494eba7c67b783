//! A check behind a play: does a URL that is not played still work?
use vstd::prelude::*;
use crate::blacklist::{Blacklist, FailureKind};
use crate::outside::lowercase;
use crate::play::after_failure;
use crate::segment::{is_success, succeeded};
use crate::text::owned;
use crate::upstream::{CheckFault, SegmentCheck, body_fault, check_body, check_reply, check_segment, first_target};
use crate::upstream::{host_and_path, reply_fault, segment_check, segment_target};

verus! {

/// How deep a check has gone.
#[derive(Debug, Clone, Copy, PartialEq, Eq, Structural)]
pub enum Stage {
    Playlist,
    /// What the playlist names first, which may be a playlist again.
    Segment,
    /// A segment: what the playlist within the playlist names first, or what the playlist names
    /// first once it is known to be no playlist.
    Inner,
}

/// What to do next.
#[derive(Debug)]
pub enum CheckStep {
    /// Read the body of the reply.
    ReadBody,
    Fetch { url: String },
    Passed,
    Failed { fault: CheckFault },
}

/// The contents of a `CheckStep`.
pub enum StepView {
    ReadBody,
    Fetch { url: Seq<char> },
    Passed,
    Failed { fault: CheckFault },
}

impl View for CheckStep {
    type V = StepView;

    open spec fn view(&self) -> StepView {
        match self {
            CheckStep::ReadBody => StepView::ReadBody,
            CheckStep::Fetch { url } => StepView::Fetch { url: url@ },
            CheckStep::Passed => StepView::Passed,
            CheckStep::Failed { fault } => StepView::Failed { fault: *fault },
        }
    }
}

/// A check that is under way.
#[derive(Debug)]
pub struct Check {
    /// The URL that is checked.
    pub subject: String,
    pub stage: Stage,
    /// Where the latest reply came from.
    pub landed: String,
}

/// What the head of a reply leads to.
pub open spec fn after_head(stage: Stage, status: u16, url: Seq<char>, content_type: Seq<char>) -> StepView {
    match stage {
        Stage::Playlist => match reply_fault(status, host_and_path(url).0) {
            Some(fault) => StepView::Failed { fault },
            None => StepView::ReadBody,
        },
        Stage::Segment => match segment_check(status, host_and_path(url).0, host_and_path(url).1, lowercase(content_type)) {
            SegmentCheck::Fault(fault) => StepView::Failed { fault },
            SegmentCheck::Fine => StepView::ReadBody,
            SegmentCheck::Nested => StepView::ReadBody,
        },
        Stage::Inner => if succeeded(status) {
            StepView::ReadBody
        } else {
            StepView::Failed { fault: CheckFault::BadStatus }
        },
    }
}

/// The stage once the head of a reply is known.
pub open spec fn stage_after_head(stage: Stage, status: u16, url: Seq<char>, content_type: Seq<char>) -> Stage {
    if stage == Stage::Segment && segment_check(
        status,
        host_and_path(url).0,
        host_and_path(url).1,
        lowercase(content_type),
    ) == SegmentCheck::Fine {
        Stage::Inner
    } else {
        stage
    }
}

/// What the first reference of a playlist leads to.
pub open spec fn follow(target: Result<Seq<char>, CheckFault>) -> StepView {
    match target {
        Ok(url) => StepView::Fetch { url },
        Err(fault) => StepView::Failed { fault },
    }
}

/// What the body of a reply from `url` leads to.
pub open spec fn after_body(stage: Stage, url: Seq<char>, b: Seq<u8>) -> StepView {
    match stage {
        Stage::Playlist => match body_fault(b) {
            Some(fault) => StepView::Failed { fault },
            None => follow(first_target(url, b)),
        },
        Stage::Segment => follow(first_target(url, b)),
        Stage::Inner => if b.len() > 0 {
            StepView::Passed
        } else {
            StepView::Failed { fault: CheckFault::Empty }
        },
    }
}

/// The stage behind a stage.
pub open spec fn deeper(stage: Stage) -> Stage {
    match stage {
        Stage::Playlist => Stage::Segment,
        _ => Stage::Inner,
    }
}

impl Check {
    pub fn start(subject: String) -> (r: Self)
        ensures
            r.subject@ == subject@,
            r.stage == Stage::Playlist,
            r.landed@ == subject@,
    {
        let landed = subject.clone();
        Check { subject, stage: Stage::Playlist, landed }
    }

    /// Takes the head of a reply.
    pub fn on_head(&mut self, status: u16, url: &str, content_type: &str) -> (r: CheckStep)
        ensures
            r@ == after_head(old(self).stage, status, url@, content_type@),
            final(self).stage == stage_after_head(old(self).stage, status, url@, content_type@),
            final(self).subject@ == old(self).subject@,
            final(self).landed@ == url@,
    {
        self.landed = owned(url);
        match self.stage {
            Stage::Playlist => match check_reply(status, url) {
                Some(fault) => CheckStep::Failed { fault },
                None => CheckStep::ReadBody,
            },
            Stage::Segment => match check_segment(status, url, content_type) {
                SegmentCheck::Fault(fault) => CheckStep::Failed { fault },
                SegmentCheck::Fine => {
                    self.stage = Stage::Inner;
                    CheckStep::ReadBody
                },
                SegmentCheck::Nested => CheckStep::ReadBody,
            },
            Stage::Inner => if is_success(status) {
                CheckStep::ReadBody
            } else {
                CheckStep::Failed { fault: CheckFault::BadStatus }
            },
        }
    }

    /// Takes the body of a reply.
    pub fn on_body(&mut self, bytes: &[u8]) -> (r: CheckStep)
        ensures
            r@ == after_body(old(self).stage, old(self).landed@, bytes@),
            final(self).stage == (if r@ is Fetch {
                deeper(old(self).stage)
            } else {
                old(self).stage
            }),
            final(self).subject@ == old(self).subject@,
            final(self).landed@ == old(self).landed@,
    {
        match self.stage {
            Stage::Playlist => if let Some(fault) = check_body(bytes) {
                return CheckStep::Failed { fault };
            },
            Stage::Segment => {},
            Stage::Inner => {
                return if bytes.len() > 0 {
                    CheckStep::Passed
                } else {
                    CheckStep::Failed { fault: CheckFault::Empty }
                };
            },
        }
        match segment_target(&self.landed, bytes) {
            Ok(url) => {
                self.stage = match self.stage {
                    Stage::Playlist => Stage::Segment,
                    _ => Stage::Inner,
                };
                CheckStep::Fetch { url }
            },
            Err(fault) => CheckStep::Failed { fault },
        }
    }

    /// Takes note of a URL that no longer works.
    pub fn note_failed(&self, blacklist: &mut Blacklist, at: i128)
        requires
            old(blacklist).wf(),
        ensures
            final(blacklist).wf(),
            final(blacklist).dirty,
            final(blacklist).config == old(blacklist).config,
            final(blacklist)@ == after_failure(old(blacklist)@, self.subject@, at),
    {
        blacklist.note_failure(&self.subject, FailureKind::ServerSide, at);
    }
}

/// How many fetches may follow.
pub open spec fn fetches_left(stage: Stage) -> nat {
    match stage {
        Stage::Playlist => 2,
        Stage::Segment => 1,
        Stage::Inner => 0,
    }
}

/// A check comes to an end: each fetch that a body leads to leaves one fewer to follow.
pub proof fn law_checks_end(stage: Stage, url: Seq<char>, b: Seq<u8>)
    requires
        after_body(stage, url, b) is Fetch,
    ensures
        fetches_left(deeper(stage)) + 1 == fetches_left(stage),
{
}

/// A playlist alone does not pass a check: a segment must be had.
pub proof fn law_playlists_do_not_pass(url: Seq<char>, b: Seq<u8>)
    ensures
        !(after_body(Stage::Playlist, url, b) is Passed),
        !(after_body(Stage::Segment, url, b) is Passed),
{
}

/// A check passes on a segment's bytes and on nothing less: no head passes it, and a body does
/// only where it is a segment's and not empty. The segment's bytes are asked for only where the
/// reply succeeded.
pub proof fn law_segments_pass_by_their_bytes(
    stage: Stage,
    status: u16,
    url: Seq<char>,
    content_type: Seq<char>,
    b: Seq<u8>,
)
    ensures
        !(after_head(stage, status, url, content_type) is Passed),
        after_body(stage, url, b) is Passed <==> stage == Stage::Inner && b.len() > 0,
        after_head(stage, status, url, content_type) is ReadBody && stage_after_head(stage, status, url, content_type)
            == Stage::Inner ==> succeeded(status),
{
}

} // verus!
