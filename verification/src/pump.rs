//! The stream pump: which writes follow from what the transport delivers.
//!
//! The pump decides and the caller acts. The caller tells the pump what has
//! happened, carries out the action that the pump answers with, and comes
//! back with the next event.

use crate::frame::{
    frame_bytes, frame_count, frame_views, frames_of, lemma_payload_is_prefix, payload_bytes,
    split_frames, ChannelCount, Frame,
};
use vstd::prelude::*;

verus! {

/// Where the pump stands in the life of one observation.
#[derive(Clone, Copy, Debug, PartialEq, Eq, Structural)]
pub enum Phase {
    /// Nothing has been written yet.
    Priming,
    /// The file header is out; blocks are pulled and written.
    Streaming,
    /// The transport has closed the stream.
    Finished,
}

/// What has happened, as the caller reports it.
#[derive(Clone, Copy, Debug)]
pub enum Event<'a> {
    /// The output is open and the observation parameters are known.
    Begin,
    /// The transport delivered a block.
    Block(&'a [u8]),
    /// The transport closed the stream in good order.
    EndOfStream,
}

/// An event as a mathematical value.
pub enum EventValue {
    Begin,
    Block(Seq<u8>),
    EndOfStream,
}

impl<'a> View for Event<'a> {
    type V = EventValue;

    open spec fn view(&self) -> EventValue {
        match *self {
            Event::Begin => EventValue::Begin,
            Event::Block(bytes) => EventValue::Block(bytes@),
            Event::EndOfStream => EventValue::EndOfStream,
        }
    }
}

/// What the caller is to do next.
#[derive(Debug)]
pub enum Action {
    /// Write the file header, flush, then pull the first block.
    WriteHeader,
    /// Write these frames in their order, flush, then pull the next block.
    WriteFrames(Vec<Frame>),
    /// Leave the loop; the observation has ended in good order.
    Stop,
    /// The event has no place in the current phase. Nothing is to be
    /// written, and the pump stays as it was.
    Rejected,
}

/// An action as a mathematical value.
pub enum ActionValue {
    WriteHeader,
    WriteFrames(Seq<Seq<Seq<u8>>>),
    Stop,
    Rejected,
}

impl View for Action {
    type V = ActionValue;

    open spec fn view(&self) -> ActionValue {
        match *self {
            Action::WriteHeader => ActionValue::WriteHeader,
            Action::WriteFrames(frames) => ActionValue::WriteFrames(frame_views(frames@)),
            Action::Stop => ActionValue::Stop,
            Action::Rejected => ActionValue::Rejected,
        }
    }
}

/// The phase that follows `phase` on `event`.
pub open spec fn next_phase(phase: Phase, event: EventValue) -> Phase {
    match (phase, event) {
        (Phase::Priming, EventValue::Begin) => Phase::Streaming,
        (Phase::Streaming, EventValue::EndOfStream) => Phase::Finished,
        _ => phase,
    }
}

/// The action that answers `event` in `phase`, for `n` channels.
pub open spec fn action_for(phase: Phase, n: nat, event: EventValue) -> ActionValue {
    match (phase, event) {
        (Phase::Priming, EventValue::Begin) => ActionValue::WriteHeader,
        (Phase::Streaming, EventValue::Block(bytes)) => ActionValue::WriteFrames(
            frames_of(bytes, n),
        ),
        (Phase::Streaming, EventValue::EndOfStream) => ActionValue::Stop,
        _ => ActionValue::Rejected,
    }
}

/// The pump of one observation.
#[derive(Clone, Copy, Debug)]
pub struct Pump {
    channels: ChannelCount,
    phase: Phase,
}

impl Pump {
    /// The number of channels that the pump cuts frames for.
    pub closed spec fn channel_count(&self) -> nat {
        self.channels.value()
    }

    /// The phase that the pump is in.
    pub closed spec fn phase_value(&self) -> Phase {
        self.phase
    }

    /// A pump for `channels` channels, before anything has been written.
    pub fn new(channels: ChannelCount) -> (pump: Pump)
        ensures
            pump.channel_count() == channels.value(),
            pump.phase_value() == Phase::Priming,
    {
        Pump { channels, phase: Phase::Priming }
    }

    /// The phase that the pump is in.
    pub fn phase(&self) -> (phase: Phase)
        ensures
            phase == self.phase_value(),
    {
        self.phase
    }

    /// The number of channels that the pump cuts frames for.
    pub fn channels(&self) -> (channels: ChannelCount)
        ensures
            channels.value() == self.channel_count(),
    {
        self.channels
    }

    /// Whether the file header has been asked for.
    pub fn header_emitted(&self) -> (emitted: bool)
        ensures
            emitted == (self.phase_value() != Phase::Priming),
    {
        match self.phase {
            Phase::Priming => false,
            _ => true,
        }
    }

    /// Takes in one event and says what is to be done about it.
    pub fn step(&mut self, event: Event) -> (action: Action)
        ensures
            final(self).channel_count() == old(self).channel_count(),
            final(self).phase_value() == next_phase(old(self).phase_value(), event@),
            action@ == action_for(old(self).phase_value(), old(self).channel_count(), event@),
    {
        match (self.phase, event) {
            (Phase::Priming, Event::Begin) => {
                self.phase = Phase::Streaming;
                Action::WriteHeader
            },
            (Phase::Streaming, Event::Block(bytes)) => {
                Action::WriteFrames(split_frames(bytes, self.channels))
            },
            (Phase::Streaming, Event::EndOfStream) => {
                self.phase = Phase::Finished;
                Action::Stop
            },
            _ => Action::Rejected,
        }
    }
}

/// The phase that a pump in `phase` is in after it has taken in `events`.
pub open spec fn phase_after(phase: Phase, events: Seq<EventValue>) -> Phase
    decreases events.len(),
{
    if events.len() == 0 {
        phase
    } else {
        next_phase(phase_after(phase, events.drop_last()), events.last())
    }
}

/// The actions with which a pump that starts in `phase` answers `events`, one
/// for each event.
pub open spec fn actions_of(phase: Phase, n: nat, events: Seq<EventValue>) -> Seq<ActionValue>
    decreases events.len(),
{
    if events.len() == 0 {
        Seq::empty()
    } else {
        actions_of(phase, n, events.drop_last()).push(
            action_for(phase_after(phase, events.drop_last()), n, events.last()),
        )
    }
}

/// How often `actions` asks for the file header.
pub open spec fn headers_in(actions: Seq<ActionValue>) -> nat
    decreases actions.len(),
{
    if actions.len() == 0 {
        0
    } else {
        headers_in(actions.drop_last()) + if actions.last() is WriteHeader {
            1nat
        } else {
            0nat
        }
    }
}

/// How many frames `actions` asks to be written.
pub open spec fn frames_in(actions: Seq<ActionValue>) -> nat
    decreases actions.len(),
{
    if actions.len() == 0 {
        0
    } else {
        frames_in(actions.drop_last()) + match actions.last() {
            ActionValue::WriteFrames(frames) => frames.len(),
            _ => 0nat,
        }
    }
}

/// The bytes that one action puts into the output, where the file header is
/// `header`.
pub open spec fn bytes_of(action: ActionValue, header: Seq<u8>) -> Seq<u8> {
    match action {
        ActionValue::WriteHeader => header,
        ActionValue::WriteFrames(frames) => payload_bytes(frames),
        _ => Seq::empty(),
    }
}

/// The output after `actions` have been carried out in their order.
pub open spec fn written(actions: Seq<ActionValue>, header: Seq<u8>) -> Seq<u8>
    decreases actions.len(),
{
    if actions.len() == 0 {
        Seq::empty()
    } else {
        written(actions.drop_last(), header) + bytes_of(actions.last(), header)
    }
}

/// Whatever events a new pump is given, and however many blocks among them:
/// it asks for the file header once if it has left the priming phase and
/// never before, and the output is then that one header followed by frame
/// data alone.
pub proof fn lemma_header_once(n: nat, events: Seq<EventValue>, header: Seq<u8>)
    ensures
        headers_in(actions_of(Phase::Priming, n, events)) == (if phase_after(
            Phase::Priming,
            events,
        ) == Phase::Priming {
            0nat
        } else {
            1nat
        }),
        written(actions_of(Phase::Priming, n, events), header) == (if phase_after(
            Phase::Priming,
            events,
        ) == Phase::Priming {
            Seq::<u8>::empty()
        } else {
            header + written(actions_of(Phase::Priming, n, events), Seq::<u8>::empty())
        }),
    decreases events.len(),
{
    let actions = actions_of(Phase::Priming, n, events);
    if events.len() == 0 {
    } else {
        let front = events.drop_last();
        lemma_header_once(n, front, header);
        let front_actions = actions_of(Phase::Priming, n, front);
        assert(actions.drop_last() =~= front_actions);
        let before = phase_after(Phase::Priming, front);
        let last = action_for(before, n, events.last());
        assert(actions.last() == last);
        let plain = written(front_actions, Seq::<u8>::empty());
        if before == Phase::Priming {
            lemma_nothing_while_priming(n, front);
            assert(written(actions, header) =~= bytes_of(last, header));
            assert(written(actions, Seq::<u8>::empty()) =~= Seq::<u8>::empty());
            assert(header + Seq::<u8>::empty() =~= header);
        } else {
            assert(bytes_of(last, header) == bytes_of(last, Seq::<u8>::empty()));
            assert(written(actions, header) =~= header + (plain + bytes_of(
                last,
                Seq::<u8>::empty(),
            )));
        }
    }
}

/// A pump that is still priming has had nothing written.
pub proof fn lemma_nothing_while_priming(n: nat, events: Seq<EventValue>)
    requires
        phase_after(Phase::Priming, events) == Phase::Priming,
    ensures
        written(actions_of(Phase::Priming, n, events), Seq::<u8>::empty()) == Seq::<u8>::empty(),
        frames_in(actions_of(Phase::Priming, n, events)) == 0,
    decreases events.len(),
{
    let actions = actions_of(Phase::Priming, n, events);
    if events.len() == 0 {
    } else {
        let front = events.drop_last();
        lemma_nothing_while_priming(n, front);
        assert(actions.drop_last() =~= actions_of(Phase::Priming, n, front));
        assert(written(actions, Seq::<u8>::empty()) =~= Seq::<u8>::empty());
    }
}

/// The events of an observation up to its last block: the start, then each of
/// `blocks` as the transport delivers it.
pub open spec fn pulls(blocks: Seq<Seq<u8>>) -> Seq<EventValue> {
    Seq::new(
        blocks.len() + 1,
        |i: int|
            if i == 0 {
                EventValue::Begin
            } else {
                EventValue::Block(blocks[i - 1])
            },
    )
}

/// The events of an observation that runs its course: the start, each of
/// `blocks`, then the end of the stream.
pub open spec fn session(blocks: Seq<Seq<u8>>) -> Seq<EventValue> {
    pulls(blocks).push(EventValue::EndOfStream)
}

/// What is kept of `blocks` for `n` channels: of each block in turn its bytes
/// up to the end of its last whole frame.
pub open spec fn kept_bytes(blocks: Seq<Seq<u8>>, n: nat) -> Seq<u8>
    decreases blocks.len(),
{
    if blocks.len() == 0 {
        Seq::empty()
    } else {
        kept_bytes(blocks.drop_last(), n) + blocks.last().subrange(
            0,
            (frame_count(blocks.last().len(), n) * frame_bytes(n)) as int,
        )
    }
}

/// The number of whole frames of `n` channels in `blocks`, block by block.
pub open spec fn total_frames(blocks: Seq<Seq<u8>>, n: nat) -> nat
    decreases blocks.len(),
{
    if blocks.len() == 0 {
        0
    } else {
        total_frames(blocks.drop_last(), n) + frame_count(blocks.last().len(), n)
    }
}

/// Whether none of `actions` turns an event down.
pub open spec fn none_rejected(actions: Seq<ActionValue>) -> bool {
    forall|i: int| 0 <= i < actions.len() ==> !(#[trigger] actions[i] is Rejected)
}

/// While blocks arrive after the start, a new pump turns nothing down and
/// stays streaming; the output is one header and then what is kept of the
/// blocks, in the order in which they were pulled.
pub proof fn lemma_streaming(n: nat, blocks: Seq<Seq<u8>>, header: Seq<u8>)
    requires
        0 < n,
    ensures
        phase_after(Phase::Priming, pulls(blocks)) == Phase::Streaming,
        none_rejected(actions_of(Phase::Priming, n, pulls(blocks))),
        headers_in(actions_of(Phase::Priming, n, pulls(blocks))) == 1,
        frames_in(actions_of(Phase::Priming, n, pulls(blocks))) == total_frames(blocks, n),
        written(actions_of(Phase::Priming, n, pulls(blocks)), header) == header + kept_bytes(
            blocks,
            n,
        ),
    decreases blocks.len(),
{
    let events = pulls(blocks);
    let actions = actions_of(Phase::Priming, n, events);
    let front = events.drop_last();
    let front_actions = actions_of(Phase::Priming, n, front);
    assert(actions.drop_last() =~= front_actions);
    lemma_header_once(n, events, header);
    if blocks.len() == 0 {
        assert(front =~= Seq::<EventValue>::empty());
        assert(front_actions =~= Seq::<ActionValue>::empty());
        assert(phase_after(Phase::Priming, front) == Phase::Priming);
        assert(actions.last() == ActionValue::WriteHeader);
        assert(written(front_actions, header) =~= Seq::<u8>::empty());
        assert(frames_in(front_actions) == 0);
        assert(written(actions, header) =~= header + kept_bytes(blocks, n));
    } else {
        let earlier = blocks.drop_last();
        lemma_streaming(n, earlier, header);
        assert(front =~= pulls(earlier));
        assert(events.last() == EventValue::Block(blocks.last()));
        assert(actions.last() == ActionValue::WriteFrames(frames_of(blocks.last(), n)));
        lemma_payload_is_prefix(blocks.last(), n);
        assert(written(actions, header) =~= header + kept_bytes(blocks, n));
        assert forall|i: int| 0 <= i < actions.len() implies !(#[trigger] actions[i]
            is Rejected) by {
            if i < actions.len() - 1 {
                assert(actions[i] == front_actions[i]);
            }
        }
    }
}

/// An observation that runs its course: the start, any number of blocks, the
/// end of the stream. The pump turns nothing down and ends in the finished
/// phase with a last action `Stop`; the output holds the header once, then of
/// each block its whole frames in the order pulled, as many frames as the
/// blocks hold between them, and nothing else.
pub proof fn lemma_session(n: nat, blocks: Seq<Seq<u8>>, header: Seq<u8>)
    requires
        0 < n,
    ensures
        phase_after(Phase::Priming, session(blocks)) == Phase::Finished,
        none_rejected(actions_of(Phase::Priming, n, session(blocks))),
        actions_of(Phase::Priming, n, session(blocks)).last() == ActionValue::Stop,
        headers_in(actions_of(Phase::Priming, n, session(blocks))) == 1,
        frames_in(actions_of(Phase::Priming, n, session(blocks))) == total_frames(blocks, n),
        written(actions_of(Phase::Priming, n, session(blocks)), header) == header + kept_bytes(
            blocks,
            n,
        ),
{
    let events = session(blocks);
    let actions = actions_of(Phase::Priming, n, events);
    let front_actions = actions_of(Phase::Priming, n, pulls(blocks));
    lemma_streaming(n, blocks, header);
    lemma_header_once(n, events, header);
    assert(events.drop_last() =~= pulls(blocks));
    assert(actions.drop_last() =~= front_actions);
    assert(actions.last() == ActionValue::Stop);
    assert(written(actions, header) =~= header + kept_bytes(blocks, n));
    assert forall|i: int| 0 <= i < actions.len() implies !(#[trigger] actions[i] is Rejected) by {
        if i < actions.len() - 1 {
            assert(actions[i] == front_actions[i]);
        }
    }
}

} // verus!
