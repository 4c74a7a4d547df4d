//! The channels that join a run to its collaborators, and a record of what
//! passed through them.

use vstd::prelude::*;
use flume::{Receiver, RecvError, SendError, Sender};
use crate::cell::CellValue;
use crate::event::{Event, EventView, IoCommand};

verus! {

#[verifier::external_type_specification]
#[verifier::external_body]
#[verifier::reject_recursive_types(T)]
pub struct ExSender<T>(Sender<T>);

#[verifier::external_type_specification]
#[verifier::external_body]
#[verifier::reject_recursive_types(T)]
pub struct ExReceiver<T>(Receiver<T>);

#[verifier::external_type_specification]
#[verifier::external_body]
#[verifier::reject_recursive_types(T)]
pub struct ExSendError<T>(SendError<T>);

#[verifier::external_type_specification]
#[verifier::external_body]
pub struct ExRecvError(RecvError);

/// The capacity that the idle channel was made with, if it is bounded. A
/// channel keeps it for its lifetime.
pub uninterp spec fn idle_channel_limit(receiver: Receiver<bool>) -> Option<usize>;

/// The capacity that the input channel was made with, if it is bounded.
pub uninterp spec fn cell_channel_limit(receiver: Receiver<CellValue>) -> Option<usize>;

/// `flume::Receiver::capacity` returns the capacity that the channel was
/// made with, or `None` for an unbounded channel.
#[verifier::external_body]
fn idle_limit(receiver: &Receiver<bool>) -> (limit: Option<usize>)
    ensures
        limit == idle_channel_limit(*receiver),
{
    receiver.capacity()
}

/// `flume::Receiver::capacity`, for the input channel.
#[verifier::external_body]
fn cell_limit(receiver: &Receiver<CellValue>) -> (limit: Option<usize>)
    ensures
        limit == cell_channel_limit(*receiver),
{
    receiver.capacity()
}

/// `flume::Sender::send` hands `msg` to the channel, waiting while a bounded
/// channel is full, and fails once every receiver is gone. Whether it
/// succeeds is up to the other end, so nothing is claimed of the result.
pub assume_specification<T>[ Sender::<T>::send ](sender: &Sender<T>, msg: T) -> (sent: Result<
    (),
    SendError<T>,
>)
;

/// `flume::Receiver::recv` waits for the next message of the channel, and
/// fails once the channel is empty and every sender is gone. What arrives is
/// up to the other end, so nothing is claimed of the result. A channel whose
/// capacity is the largest number is left out: there the call adds one to
/// the capacity, which overflows.
#[verifier::external_body]
fn receive_idle(receiver: &Receiver<bool>) -> (received: Result<bool, RecvError>)
    requires
        idle_channel_limit(*receiver) != Some(usize::MAX),
{
    receiver.recv()
}

/// `flume::Receiver::recv`, for the input channel.
#[verifier::external_body]
fn receive_input(receiver: &Receiver<CellValue>) -> (received: Result<CellValue, RecvError>)
    requires
        cell_channel_limit(*receiver) != Some(usize::MAX),
{
    receiver.recv()
}

/// Whether a channel with the capacity `limit` cannot be received from.
fn unusable(limit: Option<usize>) -> (refused: bool)
    ensures
        refused == (limit == Some(usize::MAX)),
{
    match limit {
        Some(capacity) => capacity == usize::MAX,
        None => false,
    }
}

/// Why a run ended before it was complete.
#[derive(Clone, Copy, Debug, PartialEq, Eq, Structural)]
pub enum DistributorError {
    /// The initial grid could not be requested, or its cells ran out before
    /// every coordinate had one.
    InputUnavailable,
    /// An event could not be delivered: the observer is gone.
    EventChannelClosed,
    /// The idle check could not be requested, or was never acknowledged.
    IdleSignalLost,
}

/// One exchange between a run and a collaborator.
pub enum Action {
    /// The command channel accepted a command.
    Asked(IoCommand),
    /// The input channel delivered a cell.
    Took(CellValue),
    /// The event channel accepted an event.
    Reported(EventView),
    /// The idle channel delivered an acknowledgment.
    Acknowledged,
}

/// The failure that a run ends with where `action` cannot be made.
pub open spec fn blamed(action: Action) -> DistributorError {
    match action {
        Action::Asked(IoCommand::IoInput) => DistributorError::InputUnavailable,
        Action::Took(_) => DistributorError::InputUnavailable,
        Action::Reported(_) => DistributorError::EventChannelClosed,
        Action::Asked(IoCommand::IoCheckIdle) => DistributorError::IdleSignalLost,
        Action::Acknowledged => DistributorError::IdleSignalLost,
    }
}

/// A run's ends of its channels, together with a record of every exchange
/// that the run made over them, in the order in which it made them.
pub struct Link {
    events: Sender<Event>,
    io_command: Sender<IoCommand>,
    io_idle: Receiver<bool>,
    io_input: Option<Receiver<CellValue>>,
    history: Ghost<Seq<Action>>,
}

impl Link {
    /// Every exchange made over the channels so far, oldest first.
    pub closed spec fn history(&self) -> Seq<Action> {
        self.history@
    }

    /// Whether there is an input channel at all.
    pub closed spec fn has_input(&self) -> bool {
        self.io_input is Some
    }

    /// The capacity of the input channel, if there is one and it is bounded.
    pub closed spec fn input_capacity(&self) -> Option<usize> {
        match self.io_input {
            Some(input) => cell_channel_limit(input),
            None => None,
        }
    }

    /// The capacity of the idle channel, if it is bounded.
    pub closed spec fn idle_capacity(&self) -> Option<usize> {
        idle_channel_limit(self.io_idle)
    }

    /// Whether a cell can be asked of the input channel: there is one, and
    /// its capacity is not the largest number, from which a channel cannot
    /// be received.
    pub open spec fn input_usable(&self) -> bool {
        self.has_input() && self.input_capacity() != Some(usize::MAX)
    }

    /// Whether the idle channel can be received from.
    pub open spec fn idle_usable(&self) -> bool {
        self.idle_capacity() != Some(usize::MAX)
    }

    /// The same channels: a link keeps its channels and their capacities
    /// whatever passes through them.
    pub open spec fn same_channels(&self, other: &Link) -> bool {
        &&& self.has_input() == other.has_input()
        &&& self.input_capacity() == other.input_capacity()
        &&& self.idle_capacity() == other.idle_capacity()
    }

    /// Joins the channel ends of a run; nothing has passed through them yet.
    pub fn new(
        events: Sender<Event>,
        io_command: Sender<IoCommand>,
        io_idle: Receiver<bool>,
        io_input: Option<Receiver<CellValue>>,
    ) -> (link: Link)
        ensures
            link.history() == Seq::<Action>::empty(),
            link.has_input() == (io_input is Some),
            link.idle_capacity() == idle_channel_limit(io_idle),
            link.input_capacity() == match io_input {
                Some(input) => cell_channel_limit(input),
                None => None,
            },
    {
        Link { events, io_command, io_idle, io_input, history: Ghost(Seq::empty()) }
    }

    /// Reports `event` to the observer. Fails where the observer is gone;
    /// nothing is exchanged then.
    pub fn emit(&mut self, event: Event) -> (sent: Result<(), DistributorError>)
        ensures
            sent is Ok ==> final(self).history() == old(self).history().push(
                Action::Reported(event@),
            ),
            sent is Err ==> sent == Err::<(), DistributorError>(
                DistributorError::EventChannelClosed,
            ) && final(self).history() == old(self).history(),
            final(self).same_channels(old(self)),
    {
        let ghost view = event@;
        match self.events.send(event) {
            Ok(()) => {
                self.history = Ghost(self.history@.push(Action::Reported(view)));
                Ok(())
            },
            Err(_) => Err(DistributorError::EventChannelClosed),
        }
    }

    /// Asks the collaborator to deliver the initial grid. Fails where the
    /// collaborator is gone; nothing is exchanged then.
    pub fn request_input(&mut self) -> (sent: Result<(), DistributorError>)
        ensures
            sent is Ok ==> final(self).history() == old(self).history().push(
                Action::Asked(IoCommand::IoInput),
            ),
            sent is Err ==> sent == Err::<(), DistributorError>(DistributorError::InputUnavailable)
                && final(self).history() == old(self).history(),
            final(self).same_channels(old(self)),
    {
        match self.io_command.send(IoCommand::IoInput) {
            Ok(()) => {
                self.history = Ghost(self.history@.push(Action::Asked(IoCommand::IoInput)));
                Ok(())
            },
            Err(_) => Err(DistributorError::InputUnavailable),
        }
    }

    /// Takes the next cell of the initial grid from the input channel. Fails
    /// where the input channel is missing or cannot be received from, and
    /// where it is empty with the collaborator gone; nothing is exchanged
    /// then.
    pub fn receive_cell(&mut self) -> (cell: Result<CellValue, DistributorError>)
        ensures
            cell matches Ok(value) ==> final(self).history() == old(self).history().push(
                Action::Took(value),
            ),
            cell is Err ==> cell == Err::<CellValue, DistributorError>(
                DistributorError::InputUnavailable,
            ) && final(self).history() == old(self).history(),
            !old(self).input_usable() ==> cell is Err,
            final(self).same_channels(old(self)),
    {
        let outcome = match &self.io_input {
            Some(input) => {
                if unusable(cell_limit(input)) {
                    return Err(DistributorError::InputUnavailable);
                }
                receive_input(input)
            },
            None => {
                return Err(DistributorError::InputUnavailable);
            },
        };
        match outcome {
            Ok(value) => {
                self.history = Ghost(self.history@.push(Action::Took(value)));
                Ok(value)
            },
            Err(_) => Err(DistributorError::InputUnavailable),
        }
    }

    /// Asks the collaborator to acknowledge once it is idle, and waits for
    /// the acknowledgment. Fails, before anything is asked, where the idle
    /// channel cannot be received from. Fails where the collaborator is
    /// gone; the request may have been made by then.
    pub fn await_idle(&mut self) -> (idle: Result<(), DistributorError>)
        ensures
            idle is Ok ==> final(self).history() == old(self).history().push(
                Action::Asked(IoCommand::IoCheckIdle),
            ).push(Action::Acknowledged),
            idle is Err ==> idle == Err::<(), DistributorError>(DistributorError::IdleSignalLost) && (
            final(self).history() == old(self).history() || final(self).history() == old(
                self,
            ).history().push(Action::Asked(IoCommand::IoCheckIdle))),
            !old(self).idle_usable() ==> idle is Err && final(self).history() == old(
                self,
            ).history(),
            final(self).same_channels(old(self)),
    {
        if unusable(idle_limit(&self.io_idle)) {
            return Err(DistributorError::IdleSignalLost);
        }
        match self.io_command.send(IoCommand::IoCheckIdle) {
            Ok(()) => {
                self.history = Ghost(self.history@.push(Action::Asked(IoCommand::IoCheckIdle)));
            },
            Err(_) => {
                return Err(DistributorError::IdleSignalLost);
            },
        }
        match receive_idle(&self.io_idle) {
            Ok(_) => {
                self.history = Ghost(self.history@.push(Action::Acknowledged));
                Ok(())
            },
            Err(_) => Err(DistributorError::IdleSignalLost),
        }
    }
}

} // verus!
