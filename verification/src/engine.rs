//! The conversion loop as a machine: it says what to do next, is told how
//! that went, and keeps the one buffer of converted bytes. Whoever owns the
//! two streams performs the reads and writes.

use crate::conversion::{lemma_whole, whole, Conversion};
use vstd::arithmetic::div_mod::*;
use vstd::prelude::*;

verus! {

/// The greatest number of bytes asked for in one read.
pub const DEFAULT_BUF_SIZE: usize = 8 * 1024;

/// How a run ended.
#[derive(Debug, Clone, Copy, PartialEq, Eq, Structural)]
pub enum Outcome {
    /// The input came to its end.
    Success,
    /// A read failed for good.
    ReadFailed,
    /// A write failed or was cut short.
    WriteFailed,
}

/// Where a run stands.
#[derive(Debug, Clone, Copy, PartialEq, Eq, Structural)]
pub enum Phase {
    /// The next chunk of input is awaited.
    Reading,
    /// The converted chunk is to be written.
    Writing,
    /// The run is over.
    Done(Outcome),
}

/// What the owner of the streams has to do next.
#[derive(Debug, Clone, Copy, PartialEq, Eq, Structural)]
pub enum Action {
    /// Read once, at most this many bytes.
    Read(usize),
    /// Write all the pending bytes.
    Write,
    /// Stop: the run is over.
    Stop(Outcome),
}

/// What the owner of the streams reports back.
#[derive(Debug, Clone, Copy)]
pub enum Event<'a> {
    /// A read returned these bytes; none at all at the end of the input.
    Data(&'a [u8]),
    /// A read was interrupted before it returned anything.
    Interrupted,
    /// A read failed for any other reason.
    ReadFailed,
    /// The pending bytes were written, all of them.
    Written,
    /// The write failed or was cut short.
    WriteFailed,
}

/// An event, with the bytes of a read as a sequence.
pub enum Input {
    Data(Seq<u8>),
    Interrupted,
    ReadFailed,
    Written,
    WriteFailed,
}

impl<'a> View for Event<'a> {
    type V = Input;

    open spec fn view(&self) -> Input {
        match self {
            Event::Data(chunk) => Input::Data(chunk@),
            Event::Interrupted => Input::Interrupted,
            Event::ReadFailed => Input::ReadFailed,
            Event::Written => Input::Written,
            Event::WriteFailed => Input::WriteFailed,
        }
    }
}

/// The state of a run: its phase, the converted bytes not yet written, and
/// all that was written so far.
#[verifier::ext_equal]
pub struct Machine {
    pub phase: Phase,
    pub pending: Seq<u8>,
    pub written: Seq<u8>,
}

impl Outcome {
    /// The exit status of a process that ran the conversion.
    pub open spec fn status(self) -> int {
        if self == Outcome::Success {
            0
        } else {
            1
        }
    }

    /// The exit status of a process that ran the conversion: 0 after the end
    /// of the input, 1 after a failed read or write.
    pub fn exit_code(self) -> (code: i32)
        ensures
            code == self.status(),
    {
        match self {
            Outcome::Success => 0,
            _ => 1,
        }
    }
}

impl Machine {
    /// The state before the first read.
    pub open spec fn start() -> Machine {
        Machine { phase: Phase::Reading, pending: Seq::empty(), written: Seq::empty() }
    }

    /// What is to be done in this state.
    pub open spec fn action(self) -> Action {
        match self.phase {
            Phase::Reading => Action::Read(DEFAULT_BUF_SIZE),
            Phase::Writing => Action::Write,
            Phase::Done(outcome) => Action::Stop(outcome),
        }
    }

    /// The state after an event.
    ///
    /// While a chunk is awaited: an empty read ends the run in success, any
    /// other read leaves its conversion pending, an interrupted read changes
    /// nothing, a failed read ends the run. While a write is awaited: a
    /// completed write adds the pending bytes to what was written, a failed
    /// one ends the run. An event that does not answer the action asked for
    /// changes nothing, and neither does any event after the end.
    pub open spec fn react(self, conv: Conversion, input: Input) -> Machine {
        match (self.phase, input) {
            (Phase::Reading, Input::Data(chunk)) => if chunk.len() == 0 {
                Machine { phase: Phase::Done(Outcome::Success), ..self }
            } else {
                Machine { phase: Phase::Writing, pending: conv.output(chunk), ..self }
            },
            (Phase::Reading, Input::ReadFailed) => Machine {
                phase: Phase::Done(Outcome::ReadFailed),
                ..self
            },
            (Phase::Writing, Input::Written) => Machine {
                phase: Phase::Reading,
                pending: Seq::empty(),
                written: self.written + self.pending,
            },
            (Phase::Writing, Input::WriteFailed) => Machine {
                phase: Phase::Done(Outcome::WriteFailed),
                ..self
            },
            _ => self,
        }
    }

    /// The state after a sequence of events, from the start.
    pub open spec fn run(conv: Conversion, inputs: Seq<Input>) -> Machine
        decreases inputs.len(),
    {
        if inputs.len() == 0 {
            Machine::start()
        } else {
            Machine::run(conv, inputs.drop_last()).react(conv, inputs.last())
        }
    }
}

/// The events of a run in which the reads return `chunks` one after the
/// other and every write completes.
pub open spec fn session(chunks: Seq<Seq<u8>>) -> Seq<Input>
    decreases chunks.len(),
{
    if chunks.len() == 0 {
        Seq::empty()
    } else {
        session(chunks.drop_last()).push(Input::Data(chunks.last())).push(Input::Written)
    }
}

/// What is written in all for reads that return `chunks` one after the
/// other: the conversion of each chunk by itself.
pub open spec fn outputs(conv: Conversion, chunks: Seq<Seq<u8>>) -> Seq<u8>
    decreases chunks.len(),
{
    if chunks.len() == 0 {
        Seq::empty()
    } else {
        conv.output(chunks.first()) + outputs(conv, chunks.drop_first())
    }
}

/// True when no read cuts an element in two, unless that element is the
/// unfinished rest of the input: a chunk may end inside an element only where
/// all the bytes from that element on are fewer than one element.
pub open spec fn aligned(chunks: Seq<Seq<u8>>, width: nat) -> bool
    decreases chunks.len(),
{
    if chunks.len() == 0 {
        true
    } else if chunks.first().len() % width == 0 {
        aligned(chunks.drop_first(), width)
    } else {
        chunks.first().len() % width + chunks.drop_first().flatten().len() < width
    }
}

/// The bytes that reads returning `chunks` keep: the whole elements of each
/// chunk, put together.
pub open spec fn kept(chunks: Seq<Seq<u8>>, width: nat) -> Seq<u8>
    decreases chunks.len(),
{
    if chunks.len() == 0 {
        Seq::empty()
    } else {
        whole(chunks.first(), width) + kept(chunks.drop_first(), width)
    }
}

/// The machine of one conversion, with its buffer of converted bytes.
pub struct Engine {
    conv: Conversion,
    phase: Phase,
    out: Vec<u8>,
    written: Ghost<Seq<u8>>,
}

impl View for Engine {
    type V = Machine;

    closed spec fn view(&self) -> Machine {
        Machine { phase: self.phase, pending: self.out@, written: self.written@ }
    }
}

impl Engine {
    /// The conversion that the engine runs.
    pub closed spec fn conversion(self) -> Conversion {
        self.conv
    }

    /// An engine at the start of its run.
    pub fn new(conv: Conversion) -> (engine: Engine)
        ensures
            engine@ == Machine::start(),
            engine.conversion() == conv,
    {
        Engine {
            conv,
            phase: Phase::Reading,
            out: Vec::with_capacity(DEFAULT_BUF_SIZE),
            written: Ghost(Seq::empty()),
        }
    }

    /// What is to be done next.
    pub fn action(&self) -> (action: Action)
        ensures
            action == self@.action(),
    {
        match self.phase {
            Phase::Reading => Action::Read(DEFAULT_BUF_SIZE),
            Phase::Writing => Action::Write,
            Phase::Done(outcome) => Action::Stop(outcome),
        }
    }

    /// Where the run stands.
    pub fn phase(&self) -> (phase: Phase)
        ensures
            phase == self@.phase,
    {
        self.phase
    }

    /// The converted bytes that wait to be written.
    pub fn pending(&self) -> (bytes: &[u8])
        ensures
            bytes@ == self@.pending,
    {
        self.out.as_slice()
    }

    /// Takes in how the last action went and moves to the next state.
    pub fn step(&mut self, event: Event<'_>)
        ensures
            final(self)@ == old(self)@.react(old(self).conversion(), event@),
            final(self).conversion() == old(self).conversion(),
    {
        match self.phase {
            Phase::Reading => match event {
                Event::Data(chunk) => {
                    if chunk.len() == 0 {
                        self.phase = Phase::Done(Outcome::Success);
                    } else {
                        self.conv.convert(chunk, &mut self.out);
                        self.phase = Phase::Writing;
                    }
                },
                Event::ReadFailed => {
                    self.phase = Phase::Done(Outcome::ReadFailed);
                },
                _ => {},
            },
            Phase::Writing => match event {
                Event::Written => {
                    self.written = Ghost(self.written@ + self.out@);
                    self.out.clear();
                    self.phase = Phase::Reading;
                },
                Event::WriteFailed => {
                    self.phase = Phase::Done(Outcome::WriteFailed);
                },
                _ => {},
            },
            Phase::Done(_) => {},
        }
        assert(self@ =~= old(self)@.react(old(self).conversion(), event@));
    }
}

/// An interrupted read is retried and leaves no trace: the state and the
/// action asked for are what they were.
pub proof fn lemma_interrupted_read(conv: Conversion, machine: Machine)
    ensures
        machine.react(conv, Input::Interrupted) == machine,
{
}

/// Once a run is over, nothing changes it.
pub proof fn lemma_done_is_final(conv: Conversion, machine: Machine, input: Input)
    requires
        machine.phase is Done,
    ensures
        machine.react(conv, input) == machine,
{
}

/// An input without a single byte is converted to nothing, and the run ends
/// in success.
pub proof fn lemma_empty_input(conv: Conversion)
    ensures
        Machine::run(conv, seq![Input::Data(Seq::empty())]) == (Machine {
            phase: Phase::Done(Outcome::Success),
            pending: Seq::empty(),
            written: Seq::empty(),
        }),
        conv.output(Seq::empty()) == Seq::<u8>::empty(),
{
    let inputs = seq![Input::Data(Seq::<u8>::empty())];
    assert(inputs.drop_last() =~= Seq::<Input>::empty());
    assert(Machine::run(conv, inputs.drop_last()) == Machine::start());
    assert(inputs.last() == Input::Data(Seq::<u8>::empty()));
}

/// One more chunk at the end adds its conversion at the end.
pub proof fn lemma_outputs_push(conv: Conversion, chunks: Seq<Seq<u8>>, chunk: Seq<u8>)
    ensures
        outputs(conv, chunks.push(chunk)) == outputs(conv, chunks) + conv.output(chunk),
    decreases chunks.len(),
{
    let all = chunks.push(chunk);
    if chunks.len() == 0 {
        assert(all.drop_first() =~= Seq::<Seq<u8>>::empty());
        assert(outputs(conv, all.drop_first()) =~= Seq::<u8>::empty());
        assert(outputs(conv, all) =~= outputs(conv, chunks) + conv.output(chunk));
    } else {
        lemma_outputs_push(conv, chunks.drop_first(), chunk);
        assert(all.drop_first() =~= chunks.drop_first().push(chunk));
        assert(outputs(conv, all) =~= outputs(conv, chunks) + conv.output(chunk));
    }
}

/// A run in which the reads return the chunks one after the other, none of
/// them empty, and every write completes, has written the conversion of each
/// chunk, in order, and awaits the next read. The empty read that follows
/// ends it in success with nothing more written.
pub proof fn lemma_session(conv: Conversion, chunks: Seq<Seq<u8>>)
    requires
        forall|i: int| 0 <= i < chunks.len() ==> (#[trigger] chunks[i]).len() > 0,
    ensures
        Machine::run(conv, session(chunks)) == (Machine {
            phase: Phase::Reading,
            pending: Seq::empty(),
            written: outputs(conv, chunks),
        }),
        Machine::run(conv, session(chunks).push(Input::Data(Seq::empty()))) == (Machine {
            phase: Phase::Done(Outcome::Success),
            pending: Seq::empty(),
            written: outputs(conv, chunks),
        }),
    decreases chunks.len(),
{
    let all = session(chunks);
    if chunks.len() > 0 {
        let before = session(chunks.drop_last());
        let read = before.push(Input::Data(chunks.last()));
        lemma_session(conv, chunks.drop_last());
        assert(read.drop_last() =~= before);
        assert(all.drop_last() =~= read);
        assert(Machine::run(conv, read) == Machine::run(conv, before).react(
            conv,
            Input::Data(chunks.last()),
        ));
        assert(Machine::run(conv, all) == Machine::run(conv, read).react(conv, Input::Written));
        lemma_outputs_push(conv, chunks.drop_last(), chunks.last());
        assert(chunks.drop_last().push(chunks.last()) =~= chunks);
        assert(Machine::run(conv, all) =~= (Machine {
            phase: Phase::Reading,
            pending: Seq::empty(),
            written: outputs(conv, chunks),
        }));
    }
    let end = all.push(Input::Data(Seq::empty()));
    assert(end.drop_last() =~= all);
    assert(end.last() == Input::Data(Seq::<u8>::empty()));
}

/// Chunks that together hold less than one element keep nothing.
pub proof fn lemma_kept_of_short(chunks: Seq<Seq<u8>>, width: nat)
    requires
        chunks.flatten().len() < width,
    ensures
        kept(chunks, width) == Seq::<u8>::empty(),
    decreases chunks.len(),
{
    if chunks.len() > 0 {
        lemma_kept_of_short(chunks.drop_first(), width);
        lemma_whole(chunks.first(), width);
        lemma_small_mod(chunks.first().len(), width);
        assert(kept(chunks, width) =~= Seq::<u8>::empty());
    }
}

/// However the reads cut the input, what is written in all is the
/// conversion of the whole elements of each chunk, put together.
pub proof fn lemma_outputs_of_kept(conv: Conversion, chunks: Seq<Seq<u8>>)
    ensures
        outputs(conv, chunks) == conv.output(kept(chunks, conv.source().spec_width())),
    decreases chunks.len(),
{
    let w = conv.source().spec_width();
    if chunks.len() == 0 {
        assert(conv.output(kept(chunks, w)) =~= Seq::<u8>::empty());
    } else {
        lemma_outputs_of_kept(conv, chunks.drop_first());
        lemma_whole(chunks.first(), w);
        conv.lemma_output_of_whole(chunks.first());
        conv.lemma_output_append(whole(chunks.first(), w), kept(chunks.drop_first(), w));
    }
}

/// Where no read cuts an element in two, the chunks keep every whole element
/// of the input.
pub proof fn lemma_kept_of_aligned(chunks: Seq<Seq<u8>>, width: nat)
    requires
        width > 0,
        aligned(chunks, width),
    ensures
        kept(chunks, width) == whole(chunks.flatten(), width),
    decreases chunks.len(),
{
    if chunks.len() == 0 {
        lemma_whole(chunks.flatten(), width);
        assert(whole(chunks.flatten(), width) =~= Seq::<u8>::empty());
    } else {
        let first = chunks.first();
        let rest = chunks.drop_first().flatten();
        lemma_whole(first, width);
        lemma_whole(rest, width);
        lemma_whole(first + rest, width);
        if first.len() % width == 0 {
            lemma_kept_of_aligned(chunks.drop_first(), width);
            lemma_mod_adds(first.len() as int, rest.len() as int, width as int);
            lemma_small_mod(rest.len() % width, width);
            assert(first + whole(rest, width) =~= whole(first + rest, width));
        } else {
            let q = first.len() as int / width as int;
            let r = first.len() % width;
            lemma_kept_of_short(chunks.drop_first(), width);
            lemma_fundamental_div_mod(first.len() as int, width as int);
            lemma_small_mod(r + rest.len(), width);
            lemma_mod_multiples_vanish(q, (r + rest.len()) as int, width as int);
            assert(whole(first, width) + Seq::<u8>::empty() =~= whole(first + rest, width));
        }
    }
}

/// Chunks of whole elements cut no element in two.
pub proof fn lemma_whole_chunks_aligned(chunks: Seq<Seq<u8>>, width: nat)
    requires
        forall|i: int| 0 <= i < chunks.len() ==> (#[trigger] chunks[i]).len() % width == 0,
    ensures
        aligned(chunks, width),
    decreases chunks.len(),
{
    if chunks.len() > 0 {
        let rest = chunks.drop_first();
        assert forall|i: int| 0 <= i < rest.len() implies (#[trigger] rest[i]).len() % width
            == 0 by {
            assert(rest[i] == chunks[i + 1]);
        }
        lemma_whole_chunks_aligned(rest, width);
    }
}

/// Two ways of cutting input into chunks lead to the same bytes written
/// wherever they keep the same whole elements.
pub proof fn lemma_chunking_invariance(conv: Conversion, a: Seq<Seq<u8>>, b: Seq<Seq<u8>>)
    requires
        kept(a, conv.source().spec_width()) == kept(b, conv.source().spec_width()),
    ensures
        outputs(conv, a) == outputs(conv, b),
{
    lemma_outputs_of_kept(conv, a);
    lemma_outputs_of_kept(conv, b);
}

/// However the reads cut the same input into chunks, the same bytes are
/// written, as long as no read cuts an element in two: the conversion of
/// the input read at once.
pub proof fn lemma_aligned_chunkings(conv: Conversion, a: Seq<Seq<u8>>, b: Seq<Seq<u8>>)
    requires
        a.flatten() == b.flatten(),
        aligned(a, conv.source().spec_width()),
        aligned(b, conv.source().spec_width()),
    ensures
        outputs(conv, a) == outputs(conv, b),
        outputs(conv, a) == conv.output(a.flatten()),
{
    let w = conv.source().spec_width();
    lemma_outputs_of_kept(conv, a);
    lemma_outputs_of_kept(conv, b);
    lemma_kept_of_aligned(a, w);
    lemma_kept_of_aligned(b, w);
    conv.lemma_output_of_whole(a.flatten());
}

/// Between equal kinds and without a multiplier, a stream of whole elements
/// is written as it was read, however the reads cut it into chunks of whole
/// elements.
pub proof fn lemma_identity_stream(conv: Conversion, chunks: Seq<Seq<u8>>)
    requires
        conv.source() == conv.target(),
        conv.multiplier() is None,
        forall|i: int|
            0 <= i < chunks.len() ==> (#[trigger] chunks[i]).len() % conv.source().spec_width()
                == 0,
    ensures
        outputs(conv, chunks) == chunks.flatten(),
    decreases chunks.len(),
{
    if chunks.len() > 0 {
        let rest = chunks.drop_first();
        assert forall|i: int| 0 <= i < rest.len() implies (#[trigger] rest[i]).len()
            % conv.source().spec_width() == 0 by {
            assert(rest[i] == chunks[i + 1]);
        }
        lemma_identity_stream(conv, rest);
        conv.lemma_identity_output(chunks.first());
    }
}

} // verus!
