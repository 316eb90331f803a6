//! The connection reader's decisions. The reader's host reads the lines of
//! one connection and tells the reader what it got; the reader answers with
//! what is to be sent to the broker. The first line is the peer's name; each
//! later line is a message, or is passed over if it has no colon.

use vstd::prelude::*;
use crate::wire::{parse_line, parsed, Text};

verus! {

/// The ways in which a reader fails. Each ends its own connection and no
/// other.
#[derive(Debug, Clone, Copy, PartialEq, Eq)]
pub enum ReaderError {
    /// The connection ended before it gave a name.
    PeerDisconnectedImmediately,
    /// Reading from the connection failed.
    TransportReadError,
}

/// What the connection gave.
#[derive(Debug, PartialEq, Eq)]
pub enum Input {
    /// A line, without its line ending.
    Line(String),
    /// A read error.
    Failed,
    /// The end of the stream.
    Closed,
}

/// An `Input` as the contracts see it.
pub enum InputView {
    Line(Text),
    Failed,
    Closed,
}

impl View for Input {
    type V = InputView;

    open spec fn view(&self) -> InputView {
        match *self {
            Input::Line(line) => InputView::Line(line@),
            Input::Failed => InputView::Failed,
            Input::Closed => InputView::Closed,
        }
    }
}

/// What the reader's host is to do next.
#[derive(Debug, PartialEq, Eq)]
pub enum Step {
    /// Make a cancellation token and send `NewPeer` with this name.
    Announce { name: String },
    /// Send this `Message`.
    Forward { from: String, to: Vec<String>, content: String },
    /// Nothing: the line had no colon.
    Skip,
    /// Return: the stream ended after the peer had given its name.
    Finish,
    /// Return with this error.
    Fail(ReaderError),
    /// Nothing: the reader had stopped before.
    Idle,
}

/// A `Step` as the contracts see it.
pub enum StepView {
    Announce { name: Text },
    Forward { from: Text, to: Seq<Text>, content: Text },
    Skip,
    Finish,
    Fail(ReaderError),
    Idle,
}

impl View for Step {
    type V = StepView;

    open spec fn view(&self) -> StepView {
        match *self {
            Step::Announce { name } => StepView::Announce { name: name@ },
            Step::Forward { from, to, content } => StepView::Forward {
                from: from@,
                to: crate::wire::texts(to@),
                content: content@,
            },
            Step::Skip => StepView::Skip,
            Step::Finish => StepView::Finish,
            Step::Fail(e) => StepView::Fail(e),
            Step::Idle => StepView::Idle,
        }
    }
}

/// Where a reader stands.
pub enum State {
    /// No line has come yet.
    AwaitingName,
    /// The peer has given this name; its lines are messages.
    Relaying { name: Text },
    /// The stream has ended or failed.
    Stopped,
}

/// The reader's state after `input`.
pub open spec fn next_state(state: State, input: InputView) -> State {
    match (state, input) {
        (State::Stopped, _) => State::Stopped,
        (State::AwaitingName, InputView::Line(line)) => State::Relaying { name: line },
        (State::Relaying { name }, InputView::Line(_)) => State::Relaying { name },
        (_, _) => State::Stopped,
    }
}

/// The reader's answer to `input`.
pub open spec fn next_step(state: State, input: InputView) -> StepView {
    match (state, input) {
        (State::Stopped, _) => StepView::Idle,
        (State::AwaitingName, InputView::Line(line)) => StepView::Announce { name: line },
        (State::Relaying { name }, InputView::Line(line)) => match parsed(line) {
            Some((to, content)) => StepView::Forward { from: name, to, content },
            None => StepView::Skip,
        },
        (_, InputView::Failed) => StepView::Fail(ReaderError::TransportReadError),
        (State::AwaitingName, InputView::Closed) => StepView::Fail(
            ReaderError::PeerDisconnectedImmediately,
        ),
        (State::Relaying { .. }, InputView::Closed) => StepView::Finish,
    }
}

/// How many times a reader that starts in `state` announces its peer over
/// `inputs`.
pub open spec fn announcements(state: State, inputs: Seq<InputView>) -> nat
    decreases inputs.len(),
{
    if inputs.len() == 0 {
        0
    } else {
        let first: nat = if next_step(state, inputs[0]) is Announce {
            1
        } else {
            0
        };
        first + announcements(next_state(state, inputs[0]), inputs.drop_first())
    }
}

/// How many messages a reader that starts in `state` forwards over `inputs`.
pub open spec fn forwarded(state: State, inputs: Seq<InputView>) -> nat
    decreases inputs.len(),
{
    if inputs.len() == 0 {
        0
    } else {
        let first: nat = if next_step(state, inputs[0]) is Forward {
            1
        } else {
            0
        };
        first + forwarded(next_state(state, inputs[0]), inputs.drop_first())
    }
}

proof fn lemma_silent_once_named(state: State, inputs: Seq<InputView>)
    requires
        !(state is AwaitingName),
    ensures
        announcements(state, inputs) == 0,
        state is Stopped ==> forwarded(state, inputs) == 0,
    decreases inputs.len(),
{
    if inputs.len() > 0 {
        lemma_silent_once_named(next_state(state, inputs[0]), inputs.drop_first());
    }
}

/// A connection announces its peer once, with its first line, and never
/// again. One that ends or fails before its first line sends nothing at all.
pub proof fn law_one_announcement(inputs: Seq<InputView>)
    ensures
        announcements(State::AwaitingName, inputs) == if inputs.len() > 0 && inputs[0] is Line {
            1nat
        } else {
            0nat
        },
        inputs.len() > 0 && !(inputs[0] is Line) ==> forwarded(State::AwaitingName, inputs) == 0,
{
    if inputs.len() > 0 {
        lemma_silent_once_named(
            next_state(State::AwaitingName, inputs[0]),
            inputs.drop_first(),
        );
    }
}

/// The reader of one connection.
pub struct Reader {
    name: Option<String>,
    stopped: bool,
}

impl View for Reader {
    type V = State;

    /// Where the reader stands.
    closed spec fn view(&self) -> State {
        if self.stopped {
            State::Stopped
        } else {
            match self.name {
                Some(name) => State::Relaying { name: name@ },
                None => State::AwaitingName,
            }
        }
    }
}

impl Reader {
    /// The reader of a connection that has just been accepted.
    pub fn new() -> (reader: Self)
        ensures
            reader@ == State::AwaitingName,
    {
        Reader { name: None, stopped: false }
    }

    /// Takes what the connection gave and says what is to be done.
    pub fn step(&mut self, input: Input) -> (out: Step)
        ensures
            final(self)@ == next_state(old(self)@, input@),
            out@ == next_step(old(self)@, input@),
    {
        if self.stopped {
            return Step::Idle;
        }
        match input {
            Input::Line(line) => {
                match &self.name {
                    None => {
                        self.name = Some(line.clone());
                        Step::Announce { name: line }
                    },
                    Some(name) => {
                        match parse_line(line.as_str()) {
                            Some(addressed) => Step::Forward {
                                from: name.clone(),
                                to: addressed.to,
                                content: addressed.content,
                            },
                            None => Step::Skip,
                        }
                    },
                }
            },
            Input::Failed => {
                self.stopped = true;
                Step::Fail(ReaderError::TransportReadError)
            },
            Input::Closed => {
                self.stopped = true;
                if self.name.is_none() {
                    Step::Fail(ReaderError::PeerDisconnectedImmediately)
                } else {
                    Step::Finish
                }
            },
        }
    }
}

} // verus!
