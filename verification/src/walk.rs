//! Walks of a directory tree.
//!
//! A walk reads directories, enters them and visits their entries. All of that is the caller's
//! to do: a [`Walk`] says which of these comes next, and is told what it came to.

use vstd::prelude::*;

use crate::dir::{DirEntry, Directory};

verus! {

/// What the visitor of an entry wants to happen next.
#[derive(Clone, Copy, Debug, PartialEq, Eq, Structural)]
pub enum WalkResult {
    /// Go on.
    Continue,
    /// End the whole walk.
    Abort,
    /// Leave out the rest of the directory that the entry is in.
    Skip,
}

/// Whether a directory is visited before or after its entries.
#[derive(Clone, Copy, Debug, PartialEq, Eq, Structural)]
pub enum WalkOrder {
    Pre,
    Post,
}

/// What a walk waits for.
#[derive(Debug)]
pub enum WalkPhase {
    /// For the next entry of the innermost open directory.
    Reading,
    /// For this entry to be opened as a directory.
    Entering(DirEntry),
    /// For the visit of this entry.
    Visiting(DirEntry),
    /// For nothing.
    Finished,
}

/// What the caller has to do.
#[derive(Debug)]
pub enum WalkStep<E> {
    /// Read the next entry of the innermost open directory.
    Read,
    /// Open the current entry as a directory, which then is the innermost one.
    Enter,
    /// Visit the current entry.
    Visit,
    /// Nothing more: this is what the walk came to.
    Finish(Result<WalkResult, E>),
}

/// What came of the last step.
#[derive(Debug)]
pub enum WalkEvent<E> {
    Read(Result<Option<DirEntry>, E>),
    Entered(Result<(), E>),
    Visited(Result<WalkResult, E>),
}

/// A walk of a directory tree.
#[derive(Debug)]
pub struct Walk {
    order: WalkOrder,
    stack: Vec<DirEntry>,
    phase: WalkPhase,
}

/// The state of a walk: its order, the entries of the directories that it is inside of, from the
/// outermost one, and what it waits for.
pub struct WalkState {
    pub order: WalkOrder,
    pub stack: Seq<DirEntry>,
    pub phase: WalkPhase,
}

impl WalkState {
    /// The state at the start.
    pub open spec fn start(order: WalkOrder) -> WalkState {
        WalkState { order, stack: Seq::empty(), phase: WalkPhase::Reading }
    }

    /// Whether the walk waits for such an event.
    pub open spec fn awaits<E>(self, event: WalkEvent<E>) -> bool {
        match event {
            WalkEvent::Read(_) => self.phase is Reading,
            WalkEvent::Entered(_) => self.phase is Entering,
            WalkEvent::Visited(_) => self.phase is Visiting,
        }
    }

    /// The walk goes on in the innermost directory.
    pub open spec fn read_on<E>(self) -> (WalkState, WalkStep<E>) {
        (WalkState { phase: WalkPhase::Reading, ..self }, WalkStep::Read)
    }

    /// An entry is to be entered.
    pub open spec fn enter<E>(self, entry: DirEntry) -> (WalkState, WalkStep<E>) {
        (WalkState { phase: WalkPhase::Entering(entry), ..self }, WalkStep::Enter)
    }

    /// An entry is to be visited.
    pub open spec fn visit<E>(self, entry: DirEntry) -> (WalkState, WalkStep<E>) {
        (WalkState { phase: WalkPhase::Visiting(entry), ..self }, WalkStep::Visit)
    }

    /// The walk is over.
    pub open spec fn finish<E>(self, result: Result<WalkResult, E>) -> (WalkState, WalkStep<E>) {
        (WalkState { phase: WalkPhase::Finished, ..self }, WalkStep::Finish(result))
    }

    /// The innermost directory is done with. Outside of it the walk goes on: with the visit of
    /// that directory, if directories come last, else with the next entry. The end of the
    /// outermost directory is the end of the walk.
    pub open spec fn leave<E>(self) -> (WalkState, WalkStep<E>) {
        if self.stack.len() == 0 {
            self.finish(Ok(WalkResult::Continue))
        } else {
            let outside = WalkState { stack: self.stack.drop_last(), ..self };
            match self.order {
                WalkOrder::Post => outside.visit(self.stack.last()),
                WalkOrder::Pre => outside.read_on(),
            }
        }
    }

    /// The state and the step that follow an event. Every failure ends the walk.
    pub open spec fn next<E>(self, event: WalkEvent<E>) -> (WalkState, WalkStep<E>) {
        match event {
            WalkEvent::Read(Err(e)) => self.finish(Err(e)),
            WalkEvent::Read(Ok(None)) => self.leave(),
            WalkEvent::Read(Ok(Some(entry))) => if self.order == WalkOrder::Post
                && entry.spec_is_dir() {
                self.enter(entry)
            } else {
                self.visit(entry)
            },
            WalkEvent::Entered(Err(e)) => self.finish(Err(e)),
            WalkEvent::Entered(Ok(())) => WalkState {
                stack: self.stack.push(self.phase->Entering_0),
                ..self
            }.read_on(),
            WalkEvent::Visited(Err(e)) => self.finish(Err(e)),
            WalkEvent::Visited(Ok(WalkResult::Abort)) => self.finish(Ok(WalkResult::Abort)),
            WalkEvent::Visited(Ok(WalkResult::Skip)) => self.leave(),
            WalkEvent::Visited(Ok(WalkResult::Continue)) => if self.order == WalkOrder::Pre
                && self.phase->Visiting_0.spec_is_dir() {
                self.enter(self.phase->Visiting_0)
            } else {
                self.read_on()
            },
        }
    }
}

impl Walk {
    /// The state of the walk.
    pub closed spec fn view(&self) -> WalkState {
        WalkState { order: self.order, stack: self.stack@, phase: self.phase }
    }

    /// A walk of an open directory. Its first step is to read.
    pub fn new(order: WalkOrder) -> (r: Walk)
        ensures
            r@ == WalkState::start(order),
            r@.order == order,
            r@.stack.len() == 0,
            r@.phase is Reading,
    {
        let r = Walk { order, stack: Vec::new(), phase: WalkPhase::Reading };
        assert(r@.stack =~= Seq::empty());
        r
    }

    /// How many directories the walk is inside of, the outermost one not counted. Any beyond
    /// that the caller can close.
    pub fn depth(&self) -> (r: usize)
        ensures
            r == self@.stack.len(),
    {
        self.stack.len()
    }

    /// The entry that is to be entered or visited, if there is one.
    pub fn current(&self) -> (r: Option<&DirEntry>)
        ensures
            match self@.phase {
                WalkPhase::Entering(entry) => r == Some(&entry),
                WalkPhase::Visiting(entry) => r == Some(&entry),
                _ => r is None,
            },
    {
        match &self.phase {
            WalkPhase::Entering(entry) => Some(entry),
            WalkPhase::Visiting(entry) => Some(entry),
            _ => None,
        }
    }

    /// Takes what came of the last step and says what to do next.
    pub fn step<E>(&mut self, event: WalkEvent<E>) -> (r: WalkStep<E>)
        requires
            old(self)@.awaits(event),
        ensures
            (final(self)@, r) == old(self)@.next(event),
    {
        let mut phase: WalkPhase = WalkPhase::Finished;
        core::mem::swap(&mut self.phase, &mut phase);
        match event {
            WalkEvent::Read(Err(e)) => WalkStep::Finish(Err(e)),
            WalkEvent::Read(Ok(None)) => self.leave(),
            WalkEvent::Read(Ok(Some(entry))) => {
                if self.order == WalkOrder::Post && entry.is_dir() {
                    self.phase = WalkPhase::Entering(entry);
                    WalkStep::Enter
                } else {
                    self.phase = WalkPhase::Visiting(entry);
                    WalkStep::Visit
                }
            },
            WalkEvent::Entered(Err(e)) => WalkStep::Finish(Err(e)),
            WalkEvent::Entered(Ok(())) => {
                if let WalkPhase::Entering(entry) = phase {
                    self.stack.push(entry);
                }
                self.phase = WalkPhase::Reading;
                WalkStep::Read
            },
            WalkEvent::Visited(Err(e)) => WalkStep::Finish(Err(e)),
            WalkEvent::Visited(Ok(WalkResult::Abort)) => WalkStep::Finish(Ok(WalkResult::Abort)),
            WalkEvent::Visited(Ok(WalkResult::Skip)) => self.leave(),
            WalkEvent::Visited(Ok(WalkResult::Continue)) => {
                if let WalkPhase::Visiting(entry) = phase {
                    if self.order == WalkOrder::Pre && entry.is_dir() {
                        self.phase = WalkPhase::Entering(entry);
                        return WalkStep::Enter;
                    }
                }
                self.phase = WalkPhase::Reading;
                WalkStep::Read
            },
        }
    }

    /// Goes on outside of the innermost directory.
    fn leave<E>(&mut self) -> (r: WalkStep<E>)
        requires
            old(self)@.phase is Finished,
        ensures
            (final(self)@, r) == old(self)@.leave::<E>(),
    {
        match self.stack.pop() {
            None => WalkStep::Finish(Ok(WalkResult::Continue)),
            Some(entry) => match self.order {
                WalkOrder::Post => {
                    self.phase = WalkPhase::Visiting(entry);
                    WalkStep::Visit
                },
                WalkOrder::Pre => {
                    self.phase = WalkPhase::Reading;
                    WalkStep::Read
                },
            },
        }
    }
}

impl Directory {
    /// A walk of the tree below the directory that visits a directory after its entries.
    pub fn post_order_walk(&self) -> (r: Walk)
        ensures
            r@ == WalkState::start(WalkOrder::Post),
            r@.order == WalkOrder::Post,
            r@.stack.len() == 0,
            r@.phase is Reading,
    {
        Walk::new(WalkOrder::Post)
    }

    /// A walk of the tree below the directory that visits a directory before its entries.
    pub fn pre_order_walk(&self) -> (r: Walk)
        ensures
            r@ == WalkState::start(WalkOrder::Pre),
            r@.order == WalkOrder::Pre,
            r@.stack.len() == 0,
            r@.phase is Reading,
    {
        Walk::new(WalkOrder::Pre)
    }
}

/// Whether a walk in this state waits for what comes of `step`.
pub open spec fn is_asked<E>(state: WalkState, step: WalkStep<E>) -> bool {
    match step {
        WalkStep::Read => state.phase is Reading,
        WalkStep::Enter => state.phase is Entering,
        WalkStep::Visit => state.phase is Visiting,
        WalkStep::Finish(_) => state.phase is Finished,
    }
}

/// A walk always waits for what comes of the step that it asked for. So an event of another kind
/// never comes up, and nothing follows the end.
pub proof fn law_step_is_awaited<E>(state: WalkState, event: WalkEvent<E>)
    requires
        state.awaits(event),
    ensures
        is_asked(WalkState::start(state.order), WalkStep::<E>::Read),
        is_asked(state.next(event).0, state.next(event).1),
{
}

/// A walk takes what comes of the step that it asked for, whatever that is: an outcome is never
/// refused for what it holds.
pub proof fn law_any_outcome_is_taken<E>(
    state: WalkState,
    read: Result<Option<DirEntry>, E>,
    entered: Result<(), E>,
    visited: Result<WalkResult, E>,
)
    ensures
        state.awaits(WalkEvent::Read(read)) <==> state.phase is Reading,
        state.awaits(WalkEvent::Entered(entered)) <==> state.phase is Entering,
        state.awaits(WalkEvent::Visited(visited)) <==> state.phase is Visiting,
{
}

/// An entry that was read is dealt with next, and no other entry is: it is entered if it is a
/// directory, of kind 4, and directories come last, and else it is visited.
pub proof fn law_read_entry_is_current<E>(state: WalkState, entry: DirEntry)
    ensures
        ({
            let (later, step) = state.next(WalkEvent::<E>::Read(Ok(Some(entry))));
            &&& later.order == state.order
            &&& later.stack == state.stack
            &&& if state.order is Post && entry.kind() == 4 {
                later.phase == WalkPhase::Entering(entry) && step is Enter
            } else {
                later.phase == WalkPhase::Visiting(entry) && step is Visit
            }
        }),
{
}

/// A directory that was entered is the innermost one until it is left, and the directories around
/// it stay as they are. Where directories come first, one is entered right after a visit that is
/// answered by `Continue`, and nothing but a directory, of kind 4, is.
pub proof fn law_entered_is_innermost<E>(state: WalkState, entry: DirEntry)
    ensures
        state.phase == WalkPhase::Entering(entry) ==> {
            let (later, step) = state.next(WalkEvent::<E>::Entered(Ok(())));
            &&& step is Read && later.phase is Reading
            &&& later.order == state.order
            &&& later.stack == state.stack.push(entry)
        },
        state.phase == WalkPhase::Visiting(entry) ==> {
            let (later, step) = state.next(WalkEvent::<E>::Visited(Ok(WalkResult::Continue)));
            &&& later.order == state.order
            &&& later.stack == state.stack
            &&& if state.order is Pre && entry.kind() == 4 {
                later.phase == WalkPhase::Entering(entry) && step is Enter
            } else {
                later.phase is Reading && step is Read
            }
        },
{
}

/// The end of a directory and `Skip` come to the same: the innermost directory is left. The one
/// that was entered last is visited then, if directories come last, and else the one around it is
/// read on. Where none was entered, the walk ends with `Continue`.
pub proof fn law_left_is_last_entered<E>(state: WalkState)
    ensures
        state.next(WalkEvent::<E>::Read(Ok(None))) == state.next(
            WalkEvent::<E>::Visited(Ok(WalkResult::Skip)),
        ),
        ({
            let (later, step) = state.next(WalkEvent::<E>::Read(Ok(None)));
            &&& later.order == state.order
            &&& state.stack.len() == 0 ==> step == WalkStep::<E>::Finish(Ok(WalkResult::Continue))
            &&& state.stack.len() > 0 ==> {
                &&& later.stack == state.stack.drop_last()
                &&& state.order is Post ==> step is Visit && later.phase == WalkPhase::Visiting(
                    state.stack.last(),
                )
                &&& state.order is Pre ==> step is Read && later.phase is Reading
            }
        }),
{
}

/// A walk ends at once, and as told, with every failure and with `Abort`. It ends in no other way
/// but by leaving the outermost directory.
pub proof fn law_walk_ends_as_told<E>(state: WalkState, event: WalkEvent<E>)
    ensures
        match event {
            WalkEvent::Read(Err(e)) => state.next(event).1 == WalkStep::Finish(Err(e)),
            WalkEvent::Entered(Err(e)) => state.next(event).1 == WalkStep::Finish(Err(e)),
            WalkEvent::Visited(Err(e)) => state.next(event).1 == WalkStep::Finish(Err(e)),
            WalkEvent::Visited(Ok(WalkResult::Abort)) => state.next(event).1 == WalkStep::<
                E,
            >::Finish(Ok(WalkResult::Abort)),
            WalkEvent::Read(Ok(None)) | WalkEvent::Visited(Ok(WalkResult::Skip)) => state.next(
                event,
            ).1 is Finish <==> state.stack.len() == 0,
            _ => !(state.next(event).1 is Finish),
        },
{
}

} // verus!
