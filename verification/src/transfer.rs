//! Reading past bytes and writing zeros, one buffer at a time.

use vstd::prelude::*;

verus! {

/// The bytes of the buffer that a transfer goes through.
pub const BUF_BYTES: usize = 4096;

/// What a transfer has to do next.
#[derive(Debug, PartialEq, Eq)]
pub enum MoveStep<E> {
    /// Move this many bytes.
    Move(usize),
    /// Nothing more: all bytes were moved, or this is the failure.
    Finish(Result<(), E>),
}

/// The bytes to move next when `left` of them are left: as many as the buffer takes.
pub open spec fn piece(left: nat) -> nat {
    if left <= BUF_BYTES {
        left
    } else {
        BUF_BYTES as nat
    }
}

/// The bytes that are left, and the step, once the last move came to `last`.
pub open spec fn move_next<E>(left: nat, last: Result<(), E>) -> (nat, MoveStep<E>) {
    match last {
        Err(e) => (left, MoveStep::Finish(Err(e))),
        Ok(()) => if left == 0 {
            (left, MoveStep::Finish(Ok(())))
        } else {
            ((left - piece(left)) as nat, MoveStep::Move(piece(left) as usize))
        },
    }
}

/// A reader that bytes are to be skipped in.
pub trait ReadExt {
    /// How many of the bytes have not been asked for yet.
    spec fn unread(&self) -> nat;

    /// Takes what the last read came to and says how many bytes to read next. At first, with
    /// nothing read, `last` is a success.
    fn skip<E>(&mut self, last: Result<(), E>) -> (r: MoveStep<E>)
        ensures
            (final(self).unread(), r) == move_next(old(self).unread(), last),
    ;
}

/// A writer that zeros are to be written to.
pub trait WriteExt {
    /// How many of the zeros have not been asked for yet.
    spec fn unwritten(&self) -> nat;

    /// The zeros that are to be written now.
    spec fn zeros(&self) -> Seq<u8>;

    /// Takes what the last write came to and says how many zeros to write next. At first, with
    /// nothing written, `last` is a success.
    fn write_zeros<E>(&mut self, last: Result<(), E>) -> (r: MoveStep<E>)
        ensures
            (final(self).unwritten(), r) == move_next(old(self).unwritten(), last),
            r matches MoveStep::Move(n) ==> final(self).zeros() == Seq::new(n as nat, |i: int| 0u8),
    ;
}

/// Bytes that are read past.
#[derive(Clone, Copy, Debug, PartialEq, Eq)]
pub struct Skip {
    left: usize,
}

impl Skip {
    /// Begins to skip `len` bytes.
    pub fn new(len: usize) -> (r: Skip)
        ensures
            r.unread() == len,
    {
        Skip { left: len }
    }
}

/// The bytes to move next when `left` of them are left.
fn next_piece(left: usize) -> (r: usize)
    ensures
        r == piece(left as nat),
{
    if left <= BUF_BYTES {
        left
    } else {
        BUF_BYTES
    }
}

impl ReadExt for Skip {
    closed spec fn unread(&self) -> nat {
        self.left as nat
    }

    fn skip<E>(&mut self, last: Result<(), E>) -> (r: MoveStep<E>) {
        match last {
            Err(e) => MoveStep::Finish(Err(e)),
            Ok(()) => {
                if self.left == 0 {
                    return MoveStep::Finish(Ok(()));
                }
                let n: usize = next_piece(self.left);
                self.left = self.left - n;
                MoveStep::Move(n)
            },
        }
    }
}

/// Zeros that are written out.
#[derive(Debug)]
pub struct Zeros {
    left: usize,
    buf: Vec<u8>,
}

impl Zeros {
    /// Begins to write `len` zeros.
    pub fn new(len: usize) -> (r: Zeros)
        ensures
            r.unwritten() == len,
    {
        Zeros { left: len, buf: Vec::new() }
    }

    /// The zeros to write now.
    pub fn data(&self) -> (r: &[u8])
        ensures
            r@ == self.zeros(),
    {
        self.buf.as_slice()
    }
}

impl WriteExt for Zeros {
    closed spec fn unwritten(&self) -> nat {
        self.left as nat
    }

    closed spec fn zeros(&self) -> Seq<u8> {
        self.buf@
    }

    fn write_zeros<E>(&mut self, last: Result<(), E>) -> (r: MoveStep<E>) {
        match last {
            Err(e) => MoveStep::Finish(Err(e)),
            Ok(()) => {
                if self.left == 0 {
                    return MoveStep::Finish(Ok(()));
                }
                let n: usize = next_piece(self.left);
                self.left = self.left - n;
                self.buf = vec![0u8; n];
                assert(self.buf@ =~= Seq::new(n as nat, |i: int| 0u8));
                MoveStep::Move(n)
            },
        }
    }
}

/// What skipping in a file has to do next.
#[derive(Debug, PartialEq, Eq)]
pub enum SeekStep<E> {
    /// Seek this far from the current position.
    Seek(i64),
    /// Read this many bytes.
    Move(usize),
    /// Nothing more: all bytes were skipped, or this is the failure.
    Finish(Result<(), E>),
}

/// What came of a step.
#[derive(Debug, PartialEq, Eq)]
pub enum SeekEvent<E> {
    /// Whether the seek succeeded. Why it failed does not matter.
    Sought(bool),
    Read(Result<(), E>),
}

/// How far the skip of a file is: it has yet to seek, or it reads, with so many bytes left.
#[derive(Clone, Copy, Debug, PartialEq, Eq, Structural)]
pub enum SeekPhase {
    Seeking,
    Reading,
    Finished,
}

/// The state of a skip in a file: what it is at, and the bytes that have not been asked for.
pub struct SeekState {
    pub phase: SeekPhase,
    pub left: nat,
}

impl SeekState {
    /// Whether the skip waits for such an event.
    pub open spec fn awaits<E>(self, event: SeekEvent<E>) -> bool {
        match event {
            SeekEvent::Sought(_) => self.phase is Seeking,
            SeekEvent::Read(_) => self.phase is Reading,
        }
    }

    /// The skip reads on.
    pub open spec fn read_on<E>(self, last: Result<(), E>) -> (SeekState, SeekStep<E>) {
        let (left, step) = move_next(self.left, last);
        match step {
            MoveStep::Move(n) => (SeekState { phase: SeekPhase::Reading, left }, SeekStep::Move(n)),
            MoveStep::Finish(result) => (
                SeekState { phase: SeekPhase::Finished, left },
                SeekStep::Finish(result),
            ),
        }
    }

    /// The state and the step that follow an event. A file that cannot seek is read instead.
    pub open spec fn next<E>(self, event: SeekEvent<E>) -> (SeekState, SeekStep<E>) {
        match event {
            SeekEvent::Sought(true) => (
                SeekState { phase: SeekPhase::Finished, ..self },
                SeekStep::Finish(Ok(())),
            ),
            SeekEvent::Sought(false) => self.read_on(Ok(())),
            SeekEvent::Read(last) => self.read_on(last),
        }
    }
}

/// A file that bytes are to be skipped in.
pub trait ReadSeekExt {
    /// The state of the skip.
    spec fn state(&self) -> SeekState;

    /// Takes what the last step came to and says what to do next.
    fn skip<E>(&mut self, event: SeekEvent<E>) -> (r: SeekStep<E>)
        requires
            old(self).state().awaits(event),
        ensures
            (final(self).state(), r) == old(self).state().next(event),
    ;
}

/// Bytes that are skipped in a file: by a seek, or if the file cannot, by reading.
#[derive(Clone, Copy, Debug, PartialEq, Eq)]
pub struct SeekSkip {
    phase: SeekPhase,
    skip: Skip,
}

impl SeekSkip {
    /// Begins to skip `len` bytes: by a seek, its distance being `len` as a signed number.
    pub fn new<E>(len: usize) -> (r: (SeekSkip, SeekStep<E>))
        ensures
            r.0.state() == (SeekState { phase: SeekPhase::Seeking, left: len as nat }),
            r.1 == SeekStep::<E>::Seek(len as i64),
    {
        (SeekSkip { phase: SeekPhase::Seeking, skip: Skip::new(len) }, SeekStep::Seek(len as i64))
    }
}

impl ReadSeekExt for SeekSkip {
    closed spec fn state(&self) -> SeekState {
        SeekState { phase: self.phase, left: self.skip.unread() }
    }

    fn skip<E>(&mut self, event: SeekEvent<E>) -> (r: SeekStep<E>) {
        let last: Result<(), E> = match event {
            SeekEvent::Sought(true) => {
                self.phase = SeekPhase::Finished;
                return SeekStep::Finish(Ok(()));
            },
            SeekEvent::Sought(false) => Ok(()),
            SeekEvent::Read(last) => last,
        };
        match self.skip.skip(last) {
            MoveStep::Move(n) => {
                self.phase = SeekPhase::Reading;
                SeekStep::Move(n)
            },
            MoveStep::Finish(result) => {
                self.phase = SeekPhase::Finished;
                SeekStep::Finish(result)
            },
        }
    }
}

/// The pieces that `len` bytes are moved in.
pub open spec fn pieces(len: nat) -> Seq<nat>
    decreases len,
{
    if len == 0 {
        Seq::empty()
    } else {
        seq![piece(len)] + pieces((len - piece(len)) as nat)
    }
}

/// The sum of some numbers.
pub open spec fn sum(s: Seq<nat>) -> nat
    decreases s.len(),
{
    if s.len() == 0 {
        0
    } else {
        s[0] + sum(s.skip(1))
    }
}

/// The pieces are the bytes that they make up, no more and no less. Each but the last fills the
/// buffer, and none is empty.
pub proof fn law_pieces_make_up(len: nat)
    ensures
        sum(pieces(len)) == len,
        pieces(len).len() == (len + BUF_BYTES - 1) / BUF_BYTES as int,
        forall|i: int| 0 <= i < pieces(len).len() ==> 0 < #[trigger] pieces(len)[i] <= BUF_BYTES,
        forall|i: int|
            0 <= i < pieces(len).len() - 1 ==> #[trigger] pieces(len)[i] == BUF_BYTES,
        BUF_BYTES == 4096,
    decreases len,
{
    if len > 0 {
        let rest = (len - piece(len)) as nat;
        law_pieces_make_up(rest);
        assert(pieces(len).skip(1) =~= pieces(rest));
    }
}

/// The moves that are asked for with `left` bytes left, and the result, where the moves come to
/// what `outcomes` says. `n` moves were made before.
pub open spec fn run<E>(left: nat, outcomes: spec_fn(nat) -> Result<(), E>, n: nat) -> (
    Seq<nat>,
    Result<(), E>,
)
    decreases left,
{
    let last = if n == 0 {
        Ok(())
    } else {
        outcomes((n - 1) as nat)
    };
    match move_next(left, last) {
        (_, MoveStep::Finish(result)) => (Seq::empty(), result),
        (rest, MoveStep::Move(k)) => {
            if rest >= left {
                (Seq::empty(), last)
            } else {
                let (more, result) = run(rest, outcomes, n + 1);
                (seq![k as nat] + more, result)
            }
        },
    }
}

proof fn lemma_run<E>(left: nat, outcomes: spec_fn(nat) -> Result<(), E>, n: nat)
    requires
        left <= usize::MAX,
        n == 0 || outcomes((n - 1) as nat) is Ok,
    ensures
        ({
            let (moves, result) = run(left, outcomes, n);
            &&& moves.len() <= pieces(left).len()
            &&& moves == pieces(left).take(moves.len() as int)
            &&& forall|j: nat| n <= j < n + moves.len() - 1 ==> #[trigger] outcomes(j) is Ok
            &&& left == 0 ==> result == Ok::<(), E>(())
            &&& left > 0 ==> moves.len() > 0 && result == outcomes((n + moves.len() - 1) as nat)
            &&& result is Ok ==> moves == pieces(left)
        }),
    decreases left,
{
    let rest = (left - piece(left)) as nat;
    let (moves, result) = run(left, outcomes, n);
    if left == 0 {
        assert(moves =~= pieces(left));
        assert(moves =~= pieces(left).take(0));
    } else if outcomes(n) is Ok {
        lemma_run(rest, outcomes, n + 1);
        let more = run(rest, outcomes, n + 1).0;
        assert(moves =~= seq![piece(left)] + more);
        assert(moves =~= pieces(left).take(moves.len() as int));
        if result is Ok {
            assert(moves =~= pieces(left));
        }
        if rest == 0 {
            assert(outcomes(n)->Ok_0 == ());
        }
    } else {
        assert(run(rest, outcomes, n + 1).0 =~= Seq::empty());
        assert(moves =~= pieces(left).take(1));
    }
}

/// A transfer of `len` bytes asks for the pieces of `len` in order: for all of them, or for those
/// up to the first that fails. That failure is then the result.
pub proof fn law_transfer_in_order<E>(len: usize, outcomes: spec_fn(nat) -> Result<(), E>)
    ensures
        ({
            let (moves, result) = run(len as nat, outcomes, 0);
            &&& moves.len() <= pieces(len as nat).len()
            &&& moves == pieces(len as nat).take(moves.len() as int)
            &&& forall|j: nat| j < moves.len() - 1 ==> #[trigger] outcomes(j) is Ok
            &&& len == 0 ==> result == Ok::<(), E>(())
            &&& len > 0 ==> moves.len() > 0 && result == outcomes((moves.len() - 1) as nat)
            &&& result is Ok ==> moves == pieces(len as nat)
        }),
{
    lemma_run(len as nat, outcomes, 0);
}

/// The reads that are asked for once `event` happened in this state of a skip in a file, and the
/// result, where the reads come to what `outcomes` says. `n` reads were asked for before.
pub open spec fn seek_run<E>(
    state: SeekState,
    event: SeekEvent<E>,
    outcomes: spec_fn(nat) -> Result<(), E>,
    n: nat,
) -> (Seq<nat>, Result<(), E>)
    decreases state.left,
{
    match state.next(event) {
        (_, SeekStep::Finish(result)) => (Seq::empty(), result),
        (_, SeekStep::Seek(_)) => (Seq::empty(), Ok(())),
        (later, SeekStep::Move(k)) => {
            if later.left >= state.left {
                (Seq::empty(), Ok(()))
            } else {
                let (more, result) = seek_run(
                    later,
                    SeekEvent::Read(outcomes(n)),
                    outcomes,
                    n + 1,
                );
                (seq![k as nat] + more, result)
            }
        },
    }
}

proof fn lemma_seek_run<E>(left: nat, outcomes: spec_fn(nat) -> Result<(), E>, n: nat)
    requires
        n > 0,
        left <= usize::MAX,
    ensures
        seek_run(
            SeekState { phase: SeekPhase::Reading, left },
            SeekEvent::Read(outcomes((n - 1) as nat)),
            outcomes,
            n,
        ) == run(left, outcomes, n),
    decreases left,
{
    if left > 0 {
        lemma_seek_run((left - piece(left)) as nat, outcomes, n + 1);
    }
}

/// A seek that succeeds is all that a skip in a file does. A file that cannot seek is read past
/// like any reader, and what failed in the seek is not told.
pub proof fn law_seek_or_read<E>(len: usize, outcomes: spec_fn(nat) -> Result<(), E>)
    ensures
        ({
            let start = SeekState { phase: SeekPhase::Seeking, left: len as nat };
            &&& seek_run(start, SeekEvent::Sought(true), outcomes, 0) == (
                Seq::<nat>::empty(),
                Ok::<(), E>(()),
            )
            &&& seek_run(start, SeekEvent::Sought(false), outcomes, 0) == run(
                len as nat,
                outcomes,
                0,
            )
        }),
{
    if len > 0 {
        lemma_seek_run((len - piece(len as nat)) as nat, outcomes, 1);
    }
}

/// A reader: whether so many bytes can be read at a position, and the failure if they cannot.
pub struct Reader<E> {
    pub can_read: spec_fn(nat, nat) -> bool,
    pub failure: spec_fn(nat, nat) -> E,
}

impl<E> Reader<E> {
    /// Whether `m + n` bytes can be read at a position just where `m` bytes can, and `n` bytes
    /// after them.
    pub open spec fn joins(self, at: nat, m: nat, n: nat) -> bool {
        (self.can_read)(at, m + n) <==> (self.can_read)(at, m) && (self.can_read)(at + m, n)
    }

    /// Whether it does not matter in what parts bytes are read. To read no bytes always works.
    pub open spec fn is_regular(self) -> bool {
        &&& forall|at: nat| #[trigger] (self.can_read)(at, 0)
        &&& forall|at: nat, m: nat, n: nat| #[trigger] self.joins(at, m, n)
    }
}

/// Where a skip leaves a reader that is at position `at`, with `left` bytes left, and the result.
pub open spec fn skip_in<E>(left: nat, reader: Reader<E>, at: nat) -> (nat, Result<(), E>)
    decreases left,
{
    match move_next::<E>(left, Ok(())) {
        (_, MoveStep::Finish(result)) => (at, result),
        (rest, MoveStep::Move(k)) => if rest >= left {
            (at, Ok(()))
        } else if (reader.can_read)(at, k as nat) {
            skip_in(rest, reader, at + k as nat)
        } else {
            match move_next(rest, Err((reader.failure)(at, k as nat))) {
                (_, MoveStep::Finish(result)) => (at, result),
                (_, MoveStep::Move(_)) => (at, Ok(())),
            }
        },
    }
}

/// A skip of `len` bytes succeeds just where they can be read, and leaves the reader after them.
pub proof fn law_skip_goes_past<E>(len: usize, reader: Reader<E>, at: nat)
    requires
        reader.is_regular(),
    ensures
        skip_in(len as nat, reader, at).1 is Ok <==> (reader.can_read)(at, len as nat),
        skip_in(len as nat, reader, at).1 is Ok ==> skip_in(len as nat, reader, at).0 == at + len,
    decreases len,
{
    if len > 0 {
        let k = piece(len as nat);
        let rest = (len - k) as usize;
        assert(reader.joins(at, k, rest as nat));
        if (reader.can_read)(at, k) {
            law_skip_goes_past(rest, reader, at + k);
        }
    } else {
        assert((reader.can_read)(at, 0));
    }
}

/// To skip `a` bytes and then `b` bytes is to skip `a + b` bytes: the two succeed just where the
/// one does, and leave the reader at the same position. To skip no bytes succeeds, asks for
/// nothing and leaves the reader where it was.
pub proof fn law_skips_add_up<E>(a: usize, b: usize, reader: Reader<E>, at: nat)
    requires
        reader.is_regular(),
        a + b <= usize::MAX,
    ensures
        ({
            let (middle, first) = skip_in(a as nat, reader, at);
            let (end, second) = skip_in(b as nat, reader, middle);
            let (whole_end, whole) = skip_in((a + b) as nat, reader, at);
            &&& first is Ok && second is Ok <==> whole is Ok
            &&& whole is Ok ==> end == whole_end
        }),
        sum(pieces(a as nat)) + sum(pieces(b as nat)) == sum(pieces((a + b) as nat)),
        skip_in(0, reader, at) == (at, Ok::<(), E>(())),
        pieces(0) == Seq::<nat>::empty(),
{
    let middle = at + a as nat;
    law_skip_goes_past(a, reader, at);
    law_skip_goes_past(b, reader, middle);
    law_skip_goes_past((a + b) as usize, reader, at);
    assert(reader.joins(at, a as nat, b as nat));
    law_pieces_make_up(a as nat);
    law_pieces_make_up(b as nat);
    law_pieces_make_up((a + b) as nat);
}

/// What is moved next depends on how much is left alone, and what is left then on nothing else:
/// all of it, if that is no more than 4096 bytes, and else 4096 bytes. The first failure is the
/// result, however much is left.
pub proof fn law_move_by_buffers<E>(left: nat, e: E)
    requires
        left <= usize::MAX,
    ensures
        left == 0 ==> move_next::<E>(left, Ok(())) == (0nat, MoveStep::<E>::Finish(Ok(()))),
        0 < left <= 4096 ==> move_next::<E>(left, Ok(())) == (
            0nat,
            MoveStep::<E>::Move(left as usize),
        ),
        left > 4096 ==> move_next::<E>(left, Ok(())) == (
            (left - 4096) as nat,
            MoveStep::<E>::Move(4096),
        ),
        move_next(left, Err(e)).1 == MoveStep::Finish(Err(e)),
{
}

/// A skip in a file takes what comes of the step that it asked for, whatever that is. It goes on
/// as a skip in any reader, once the seek has failed, and waits for what it asked for.
pub proof fn law_seek_step_is_awaited<E>(state: SeekState, sought: bool, last: Result<(), E>)
    ensures
        state.awaits(SeekEvent::<E>::Sought(sought)) <==> state.phase is Seeking,
        state.awaits(SeekEvent::Read(last)) <==> state.phase is Reading,
        state.next(SeekEvent::<E>::Sought(true)).1 == SeekStep::<E>::Finish(Ok(())),
        state.next(SeekEvent::<E>::Sought(false)) == state.next(SeekEvent::<E>::Read(Ok(()))),
        ({
            let (later, step) = state.next(SeekEvent::Read(last));
            &&& later.left == move_next(state.left, last).0
            &&& match move_next(state.left, last).1 {
                MoveStep::Move(n) => step == SeekStep::<E>::Move(n) && later.phase is Reading,
                MoveStep::Finish(result) => step == SeekStep::Finish(result)
                    && later.phase is Finished,
            }
        }),
{
}

} // verus!
