//! The closing handshake of a WebSocket.
use vstd::prelude::*;

verus! {

/// How many frames are read at most in search of the server's close reply.
pub const MAX_DRAINED_FRAMES: u32 = 5;

/// What happens while a WebSocket is being closed.
pub enum ClosingEvent {
    /// The close frame was sent, or could not be sent.
    CloseSent,
    /// The server's close reply.
    CloseFrame,
    /// The stream has ended.
    StreamEnded,
    /// Any other frame, or an error.
    OtherFrame,
}

/// What is done next to close a WebSocket.
pub enum ClosingAction {
    /// Send a close frame.
    SendClose,
    /// Read the next frame.
    Read,
    /// Give up the connection.
    Done,
}

/// A graceful close: drains up to a few frames looking for the server's close reply, then gives up.
pub struct Closing {
    reads_left: u32,
}

impl View for Closing {
    type V = nat;

    closed spec fn view(&self) -> nat {
        self.reads_left as nat
    }
}

/// The reads that are left after an event.
pub open spec fn reads_left_after(left: nat, event: ClosingEvent) -> nat {
    if event is OtherFrame && left > 0 {
        (left - 1) as nat
    } else {
        left
    }
}

/// What is done about an event: frames are read until the close reply or the end of the stream, and
/// as long as reads are left.
pub open spec fn closing_answer(left: nat, event: ClosingEvent) -> ClosingAction {
    match event {
        ClosingEvent::CloseFrame => ClosingAction::Done,
        ClosingEvent::StreamEnded => ClosingAction::Done,
        _ => if reads_left_after(left, event) > 0 {
            ClosingAction::Read
        } else {
            ClosingAction::Done
        },
    }
}

impl Closing {
    /// The start of a close, and what is done first.
    pub fn start() -> (r: (Closing, ClosingAction))
        ensures
            r.0@ == MAX_DRAINED_FRAMES,
            r.1 is SendClose,
    {
        (Closing { reads_left: MAX_DRAINED_FRAMES }, ClosingAction::SendClose)
    }

    /// Takes in an event and says what is to be done next.
    pub fn step(&mut self, event: ClosingEvent) -> (action: ClosingAction)
        ensures
            final(self)@ == reads_left_after(old(self)@, event),
            action == closing_answer(old(self)@, event),
    {
        match event {
            ClosingEvent::CloseFrame => return ClosingAction::Done,
            ClosingEvent::StreamEnded => return ClosingAction::Done,
            ClosingEvent::OtherFrame => {
                if self.reads_left > 0 {
                    self.reads_left = self.reads_left - 1;
                }
            },
            ClosingEvent::CloseSent => {},
        }
        if self.reads_left > 0 {
            ClosingAction::Read
        } else {
            ClosingAction::Done
        }
    }
}

/// The reads that are left after a run of events.
pub open spec fn reads_left_after_all(left: nat, events: Seq<ClosingEvent>) -> nat
    decreases events.len(),
{
    if events.len() == 0 {
        left
    } else {
        reads_left_after(reads_left_after_all(left, events.drop_last()), events.last())
    }
}

/// How many of a run of events are answered by reading a frame.
pub open spec fn reads_in(left: nat, events: Seq<ClosingEvent>) -> nat
    decreases events.len(),
{
    if events.len() == 0 {
        0
    } else {
        let before = reads_left_after_all(left, events.drop_last());
        reads_in(left, events.drop_last()) + if closing_answer(before, events.last()) is Read {
            1nat
        } else {
            0nat
        }
    }
}

/// A close ends: where the close reply or the end of the stream comes behind `others` other frames,
/// or `others` frames came and none of them was such, the frames that are read are those and one
/// more, but no more than reads were allowed. The first of them is read when the close frame is sent.
pub proof fn law_close_gives_up(left: nat, frames: Seq<ClosingEvent>, others: nat)
    requires
        left > 0,
        others <= frames.len() <= others + 1,
        forall|i: int| 0 <= i < others ==> (#[trigger] frames[i]) is OtherFrame,
        frames.len() > others ==> frames[others as int] is CloseFrame
            || frames[others as int] is StreamEnded,
    ensures
        closing_answer(left, ClosingEvent::CloseSent) is Read,
        1 + reads_in(left, frames) == if others + 1 <= left {
            others + 1
        } else {
            left
        },
{
    if frames.len() > others {
        assert(frames.drop_last() =~= frames.take(others as int));
    } else {
        assert(frames =~= frames.take(others as int));
    }
    lemma_reads(left, frames.take(others as int));
}

/// Every other frame is answered by a read, as long as reads are left.
proof fn lemma_reads(left: nat, frames: Seq<ClosingEvent>)
    requires
        left > 0,
        forall|i: int| 0 <= i < frames.len() ==> (#[trigger] frames[i]) is OtherFrame,
    ensures
        reads_left_after_all(left, frames) == if frames.len() <= left {
            (left - frames.len()) as nat
        } else {
            0
        },
        1 + reads_in(left, frames) == if frames.len() + 1 <= left {
            frames.len() + 1
        } else {
            left
        },
    decreases frames.len(),
{
    if frames.len() > 0 {
        let front = frames.drop_last();
        assert forall|i: int| 0 <= i < front.len() implies (#[trigger] front[i]) is OtherFrame by {
            assert(front[i] == frames[i]);
        }
        lemma_reads(left, front);
        assert(frames[frames.len() - 1] is OtherFrame);
    }
}

/// A close reads on after every frame that is neither the reply nor the end of the stream, until five
/// frames have been read, and stops at once at the reply or the end.
pub proof fn law_close_reads_five_frames_at_most(left: nat)
    ensures
        MAX_DRAINED_FRAMES == 5,
        closing_answer(left, ClosingEvent::CloseFrame) == ClosingAction::Done,
        closing_answer(left, ClosingEvent::StreamEnded) == ClosingAction::Done,
        left > 0 ==> closing_answer(left, ClosingEvent::CloseSent) == ClosingAction::Read,
        left > 1 ==> closing_answer(left, ClosingEvent::OtherFrame) == ClosingAction::Read,
        left <= 1 ==> closing_answer(left, ClosingEvent::OtherFrame) == ClosingAction::Done,
        left > 0 ==> reads_left_after(left, ClosingEvent::OtherFrame) == left - 1,
        reads_left_after(left, ClosingEvent::CloseSent) == left,
{
}

} // verus!
