//! The connection writer's decisions. The writer's host waits on the peer's
//! link and on its cancellation token and tells the writer what happened; the
//! writer answers with what is to be done. Lines are written in the order in
//! which they come off the link, until the link closes, the token fires or a
//! write fails. Whatever stopped it, the writer then reports to the broker.

use vstd::prelude::*;
use crate::broker::DisconnectNotice;
use crate::link::LinkConsumer;
use crate::wire::Text;

verus! {

/// The way in which a writer fails. It ends its own connection and no other.
#[derive(Debug, Clone, Copy, PartialEq, Eq)]
pub enum WriterError {
    /// Writing to the connection failed.
    TransportWriteError,
}

/// What happened to a writer.
#[derive(Debug, PartialEq, Eq)]
pub enum Input {
    /// This line came off the link.
    Line(String),
    /// The link is closed and empty: the broker has dropped the producing end.
    LinkClosed,
    /// The cancellation token fired: the reader has stopped.
    Cancelled,
    /// The write of the last line failed.
    WriteFailed,
}

/// An `Input` as the contracts see it.
pub enum InputView {
    Line(Text),
    LinkClosed,
    Cancelled,
    WriteFailed,
}

impl View for Input {
    type V = InputView;

    open spec fn view(&self) -> InputView {
        match *self {
            Input::Line(line) => InputView::Line(line@),
            Input::LinkClosed => InputView::LinkClosed,
            Input::Cancelled => InputView::Cancelled,
            Input::WriteFailed => InputView::WriteFailed,
        }
    }
}

/// What the writer's host is to do next.
#[derive(Debug, PartialEq, Eq)]
pub enum Step {
    /// Write this line to the connection, all of it.
    Write(String),
    /// Stop and report to the broker; the writer ends well.
    Finish,
    /// Stop and report to the broker; the writer ends with this error.
    Fail(WriterError),
    /// Nothing: the writer had stopped before.
    Idle,
}

/// A `Step` as the contracts see it.
pub enum StepView {
    Write(Text),
    Finish,
    Fail(WriterError),
    Idle,
}

impl View for Step {
    type V = StepView;

    open spec fn view(&self) -> StepView {
        match *self {
            Step::Write(line) => StepView::Write(line@),
            Step::Finish => StepView::Finish,
            Step::Fail(e) => StepView::Fail(e),
            Step::Idle => StepView::Idle,
        }
    }
}

/// Whether a writer is stopped after `input`: it stops on anything but a
/// line, and stays stopped.
pub open spec fn stops(stopped: bool, input: InputView) -> bool {
    stopped || !(input is Line)
}

/// The writer's answer to `input`.
pub open spec fn next_step(stopped: bool, input: InputView) -> StepView {
    if stopped {
        StepView::Idle
    } else {
        match input {
            InputView::Line(line) => StepView::Write(line),
            InputView::LinkClosed => StepView::Finish,
            InputView::Cancelled => StepView::Finish,
            InputView::WriteFailed => StepView::Fail(WriterError::TransportWriteError),
        }
    }
}

/// The lines among `inputs`, in their order: what came off the link.
pub open spec fn arrived(inputs: Seq<InputView>) -> Seq<Text>
    decreases inputs.len(),
{
    if inputs.len() == 0 {
        Seq::empty()
    } else {
        let rest = arrived(inputs.drop_first());
        match inputs[0] {
            InputView::Line(line) => seq![line] + rest,
            _ => rest,
        }
    }
}

/// The lines that a writer has written after `inputs`, in the order in which
/// it asked for them.
pub open spec fn written(stopped: bool, inputs: Seq<InputView>) -> Seq<Text>
    decreases inputs.len(),
{
    if inputs.len() == 0 {
        Seq::empty()
    } else {
        let rest = written(stops(stopped, inputs[0]), inputs.drop_first());
        match next_step(stopped, inputs[0]) {
            StepView::Write(line) => seq![line] + rest,
            _ => rest,
        }
    }
}

proof fn lemma_stopped_writes_nothing(inputs: Seq<InputView>)
    ensures
        written(true, inputs) == Seq::<Text>::empty(),
    decreases inputs.len(),
{
    if inputs.len() > 0 {
        lemma_stopped_writes_nothing(inputs.drop_first());
    }
}

/// A writer writes the lines of its link in the order in which they arrive,
/// none twice and none left out, up to the moment it stops: what it has
/// written is always a prefix of what arrived, and all of it while nothing but
/// lines has come.
pub proof fn law_writer_keeps_order(inputs: Seq<InputView>)
    ensures
        written(false, inputs).is_prefix_of(arrived(inputs)),
        (forall|i: int| 0 <= i < inputs.len() ==> inputs[i] is Line) ==> written(false, inputs)
            == arrived(inputs),
    decreases inputs.len(),
{
    if inputs.len() > 0 {
        let rest = inputs.drop_first();
        if inputs[0] is Line {
            law_writer_keeps_order(rest);
            let line = inputs[0]->Line_0;
            assert(written(false, inputs) =~= seq![line] + written(false, rest));
            assert(arrived(inputs) =~= seq![line] + arrived(rest));
            assert(written(false, inputs).is_prefix_of(arrived(inputs)));
            if forall|i: int| 0 <= i < inputs.len() ==> inputs[i] is Line {
                assert forall|i: int| 0 <= i < rest.len() implies rest[i] is Line by {
                    assert(rest[i] == inputs[i + 1]);
                }
            }
        } else {
            lemma_stopped_writes_nothing(rest);
            assert(written(false, inputs) =~= Seq::<Text>::empty());
        }
    }
}

/// The writer of one peer.
pub struct Writer {
    name: String,
    stopped: bool,
}

impl Writer {
    /// The name of the writer's peer.
    pub closed spec fn peer(&self) -> Text {
        self.name@
    }

    /// Whether the writer has stopped.
    pub closed spec fn stopped(&self) -> bool {
        self.stopped
    }

    /// A writer for the peer `name`, running.
    pub fn new(name: String) -> (writer: Self)
        ensures
            writer.peer() == name@,
            !writer.stopped(),
    {
        Writer { name, stopped: false }
    }

    /// Whether the writer has stopped.
    pub fn is_stopped(&self) -> (stopped: bool)
        ensures
            stopped == self.stopped(),
    {
        self.stopped
    }

    /// Takes what happened and says what is to be done.
    pub fn step(&mut self, input: Input) -> (out: Step)
        ensures
            final(self).peer() == old(self).peer(),
            final(self).stopped() == stops(old(self).stopped(), input@),
            out@ == next_step(old(self).stopped(), input@),
    {
        if self.stopped {
            return Step::Idle;
        }
        match input {
            Input::Line(line) => Step::Write(line),
            Input::LinkClosed => {
                self.stopped = true;
                Step::Finish
            },
            Input::Cancelled => {
                self.stopped = true;
                Step::Finish
            },
            Input::WriteFailed => {
                self.stopped = true;
                Step::Fail(WriterError::TransportWriteError)
            },
        }
    }

    /// The writer's report to the broker: its peer's name, and the consuming
    /// end of the link, handed back with whatever is still queued on it.
    pub fn into_notice(self, pending: LinkConsumer) -> (notice: DisconnectNotice)
        ensures
            notice.name@ == self.peer(),
            notice.pending == pending,
    {
        DisconnectNotice { name: self.name, pending }
    }
}

} // verus!
