//! Removing what is in a directory, and removing a path.

use vstd::prelude::*;

use crate::abi;
use crate::dir::{DirEntry, Directory};
use crate::stat::{Stat, StatExt};
use crate::tour;
use crate::tour::{Listing, Run, Visitor};
use crate::walk::{Walk, WalkEvent, WalkOrder, WalkPhase, WalkResult, WalkState, WalkStep};

verus! {

/// What emptying a directory has to do next.
#[derive(Debug)]
pub enum RemoveStep<E> {
    /// Read the next entry of the innermost open directory.
    Read,
    /// Open the current entry as a directory, which then is the innermost one.
    Enter,
    /// Remove the current entry.
    Unlink,
    /// Nothing more: all is removed, or this is the failure.
    Finish(Result<(), E>),
}

/// What came of a step.
#[derive(Debug)]
pub enum RemoveEvent<E> {
    Read(Result<Option<DirEntry>, E>),
    Entered(Result<(), E>),
    Unlinked(Result<(), E>),
}

/// The answer to a visit that removes the entry: the walk goes on, unless that failed.
pub open spec fn unlink_answer<E>(unlinked: Result<(), E>) -> Result<WalkResult, E> {
    match unlinked {
        Ok(()) => Ok(WalkResult::Continue),
        Err(e) => Err(e),
    }
}

/// The event of a walk that an event stands for.
pub open spec fn as_walk_event<E>(event: RemoveEvent<E>) -> WalkEvent<E> {
    match event {
        RemoveEvent::Read(read) => WalkEvent::Read(read),
        RemoveEvent::Entered(entered) => WalkEvent::Entered(entered),
        RemoveEvent::Unlinked(unlinked) => WalkEvent::Visited(unlink_answer(unlinked)),
    }
}

/// The step that stands for a step of a walk.
pub open spec fn as_remove_step<E>(step: WalkStep<E>) -> RemoveStep<E> {
    match step {
        WalkStep::Read => RemoveStep::Read,
        WalkStep::Enter => RemoveStep::Enter,
        WalkStep::Visit => RemoveStep::Unlink,
        WalkStep::Finish(Ok(_)) => RemoveStep::Finish(Ok(())),
        WalkStep::Finish(Err(e)) => RemoveStep::Finish(Err(e)),
    }
}

/// The work of emptying a directory: a walk that comes to a directory after its entries, and
/// removes what it visits.
#[derive(Debug)]
pub struct RemoveAll {
    walk: Walk,
}

impl RemoveAll {
    /// The state of the walk.
    pub closed spec fn view(&self) -> WalkState {
        self.walk@
    }

    /// How many directories the work is inside of, the outermost one not counted. Any beyond
    /// that the caller can close.
    pub fn depth(&self) -> (r: usize)
        ensures
            r == self@.stack.len(),
    {
        self.walk.depth()
    }

    /// The entry that is to be entered or removed, if there is one.
    pub fn current(&self) -> (r: Option<&DirEntry>)
        ensures
            match self@.phase {
                WalkPhase::Entering(entry) => r == Some(&entry),
                WalkPhase::Visiting(entry) => r == Some(&entry),
                _ => r is None,
            },
    {
        self.walk.current()
    }

    /// Takes what came of the last step and says what to do next.
    pub fn step<E>(&mut self, event: RemoveEvent<E>) -> (r: RemoveStep<E>)
        requires
            old(self)@.awaits(as_walk_event(event)),
        ensures
            final(self)@ == old(self)@.next(as_walk_event(event)).0,
            r == as_remove_step(old(self)@.next(as_walk_event(event)).1),
            event matches RemoveEvent::Read(Ok(Some(entry))) ==> {
                ||| r is Enter && final(self)@.phase == WalkPhase::Entering(entry)
                ||| r is Unlink && final(self)@.phase == WalkPhase::Visiting(entry)
            },
            event matches RemoveEvent::Read(Err(e)) ==> r == RemoveStep::Finish(Err(e)),
            event matches RemoveEvent::Entered(Err(e)) ==> r == RemoveStep::Finish(Err(e)),
            event matches RemoveEvent::Unlinked(Err(e)) ==> r == RemoveStep::Finish(Err(e)),
            r == RemoveStep::<E>::Finish(Ok(())) ==> event is Read && event->Read_0 == Ok::<
                Option<DirEntry>,
                E,
            >(None) && old(self)@.stack.len() == 0,
    {
        let event: WalkEvent<E> = match event {
            RemoveEvent::Read(read) => WalkEvent::Read(read),
            RemoveEvent::Entered(entered) => WalkEvent::Entered(entered),
            RemoveEvent::Unlinked(Ok(())) => WalkEvent::Visited(Ok(WalkResult::Continue)),
            RemoveEvent::Unlinked(Err(e)) => WalkEvent::Visited(Err(e)),
        };
        match self.walk.step(event) {
            WalkStep::Read => RemoveStep::Read,
            WalkStep::Enter => RemoveStep::Enter,
            WalkStep::Visit => RemoveStep::Unlink,
            WalkStep::Finish(Ok(_)) => RemoveStep::Finish(Ok(())),
            WalkStep::Finish(Err(e)) => RemoveStep::Finish(Err(e)),
        }
    }
}

impl Directory {
    /// Begins to remove all that is in the directory. The first step is to read.
    pub fn remove_all(&self) -> (r: RemoveAll)
        ensures
            r@ == WalkState::start(WalkOrder::Post),
            r@.order == WalkOrder::Post,
            r@.stack.len() == 0,
            r@.phase is Reading,
    {
        RemoveAll { walk: self.post_order_walk() }
    }
}

/// The visitor that removes entries, where the removals come to what `unlinks` says.
pub open spec fn remover<E>(unlinks: spec_fn(nat) -> Result<(), E>) -> Visitor<E> {
    |n: nat| unlink_answer(unlinks(n))
}

proof fn lemma_ok_is_complete<E>(
    listing: Listing<E>,
    i: int,
    unlinks: spec_fn(nat) -> Result<(), E>,
    n: nat,
)
    requires
        0 <= i,
        tour::tour(WalkOrder::Post, listing, i, remover(unlinks), n).1 is Ok,
    ensures
        tour::readable(listing, i),
        tour::tour(WalkOrder::Post, listing, i, remover(unlinks), n) == (
            tour::all_entries(WalkOrder::Post, listing, i),
            Ok::<WalkResult, E>(WalkResult::Continue),
        ),
        forall|j: nat|
            n <= j < n + tour::all_entries(WalkOrder::Post, listing, i).len()
                ==> #[trigger] unlinks(j) is Ok,
    decreases listing, listing.entries.len() - i,
{
    if i < listing.entries.len() {
        let visitor = remover(unlinks);
        let node = listing.entries[i];
        if node.entry.spec_is_dir() {
            let inside = tour::tour_inside(WalkOrder::Post, node, visitor, n);
            assert(tour::tour_node(WalkOrder::Post, node, visitor, n).1 is Ok);
            assert(inside.1 is Ok);
            lemma_ok_is_complete(node.content->Ok_0, 0, unlinks, n);
        }
        let visits = tour::tour_node(WalkOrder::Post, node, visitor, n).0;
        assert(visitor((n + visits.len() - 1) as nat) is Ok);
        lemma_ok_is_complete(listing, i + 1, unlinks, n + visits.len());
    }
}

/// All that was in a directory is removed if and only if emptying it succeeds, and then each
/// entry of the tree was removed once, after what was in it.
pub proof fn law_removed_all_or_failed<E>(
    listing: Listing<E>,
    unlinks: spec_fn(nat) -> Result<(), E>,
) -> (steps: nat)
    ensures
        ({
            let end = Run::start(WalkOrder::Post, listing).after(remover(unlinks), steps);
            let all = tour::all_entries(WalkOrder::Post, listing, 0);
            &&& as_remove_step(end.step) is Finish
            &&& as_remove_step(end.step) == RemoveStep::<E>::Finish(Ok(())) <==> {
                &&& tour::readable(listing, 0)
                &&& forall|j: nat| j < all.len() ==> #[trigger] unlinks(j) is Ok
            }
            &&& as_remove_step(end.step) == RemoveStep::<E>::Finish(Ok(())) ==> end.visits == all
        }),
{
    let visitor = remover(unlinks);
    let steps = tour::law_walk_is_tour(WalkOrder::Post, listing, visitor);
    let (visits, result) = tour::tour(WalkOrder::Post, listing, 0, visitor, 0);
    let all = tour::all_entries(WalkOrder::Post, listing, 0);
    if result is Ok {
        lemma_ok_is_complete(listing, 0, unlinks, 0);
    } else if tour::readable(listing, 0) && (forall|j: nat|
        j < all.len() ==> #[trigger] unlinks(j) is Ok) {
        lemma_complete_is_ok(listing, 0, unlinks, 0);
    }
    steps
}

proof fn lemma_complete_is_ok<E>(
    listing: Listing<E>,
    i: int,
    unlinks: spec_fn(nat) -> Result<(), E>,
    n: nat,
)
    requires
        0 <= i,
        tour::readable(listing, i),
        forall|j: nat|
            n <= j < n + tour::all_entries(WalkOrder::Post, listing, i).len()
                ==> #[trigger] unlinks(j) is Ok,
    ensures
        tour::tour(WalkOrder::Post, listing, i, remover(unlinks), n) == (
            tour::all_entries(WalkOrder::Post, listing, i),
            Ok::<WalkResult, E>(WalkResult::Continue),
        ),
    decreases listing, listing.entries.len() - i,
{
    if i < listing.entries.len() {
        let visitor = remover(unlinks);
        let node = listing.entries[i];
        let below = if node.entry.spec_is_dir() {
            tour::all_entries(WalkOrder::Post, node.content->Ok_0, 0)
        } else {
            Seq::empty()
        };
        let rest = tour::all_entries(WalkOrder::Post, listing, i + 1);
        assert(tour::all_entries(WalkOrder::Post, listing, i) == below.push(node.entry) + rest);
        if node.entry.spec_is_dir() {
            lemma_complete_is_ok(node.content->Ok_0, 0, unlinks, n);
        }
        assert(unlinks(n + below.len()) is Ok);
        assert(tour::tour_node(WalkOrder::Post, node, visitor, n).0 == below.push(node.entry));
        lemma_complete_is_ok(listing, i + 1, unlinks, n + below.len() + 1);
    }
}

/// What removing a path has to do next.
#[derive(Debug, PartialEq, Eq)]
pub enum RmRfStep<E> {
    /// Ask for the status of the path, not following a link.
    Lstat,
    /// Open the path as a directory.
    OpenDir,
    /// Empty that directory.
    RemoveAll,
    /// Remove the path itself.
    Remove,
    /// Nothing more: the path is removed, or this is the failure.
    Finish(Result<(), E>),
}

/// What came of a step.
#[derive(Debug, PartialEq, Eq)]
pub enum RmRfEvent<E> {
    Lstat(Result<Stat, E>),
    Opened(Result<(), E>),
    Emptied(Result<(), E>),
    Removed(Result<(), E>),
}

/// The removal of a path: what it waits for.
#[derive(Clone, Copy, Debug, PartialEq, Eq, Structural)]
pub enum RmRf {
    Inspecting,
    Opening,
    Emptying,
    Removing,
    Finished,
}

impl RmRf {
    /// Whether the removal waits for such an event.
    pub open spec fn awaits<E>(self, event: RmRfEvent<E>) -> bool {
        match event {
            RmRfEvent::Lstat(_) => self is Inspecting,
            RmRfEvent::Opened(_) => self is Opening,
            RmRfEvent::Emptied(_) => self is Emptying,
            RmRfEvent::Removed(_) => self is Removing,
        }
    }

    /// The state and the step that follow an event. What the status takes for a directory is
    /// emptied before it is removed. Every failure is the end.
    pub open spec fn next<E>(event: RmRfEvent<E>) -> (RmRf, RmRfStep<E>) {
        match event {
            RmRfEvent::Lstat(Ok(stat)) => if stat.type_bits() == abi::spec_s_ifdir() {
                (RmRf::Opening, RmRfStep::OpenDir)
            } else {
                (RmRf::Removing, RmRfStep::Remove)
            },
            RmRfEvent::Opened(Ok(())) => (RmRf::Emptying, RmRfStep::RemoveAll),
            RmRfEvent::Emptied(Ok(())) => (RmRf::Removing, RmRfStep::Remove),
            RmRfEvent::Removed(Ok(())) => (RmRf::Finished, RmRfStep::Finish(Ok(()))),
            RmRfEvent::Lstat(Err(e)) => (RmRf::Finished, RmRfStep::Finish(Err(e))),
            RmRfEvent::Opened(Err(e)) => (RmRf::Finished, RmRfStep::Finish(Err(e))),
            RmRfEvent::Emptied(Err(e)) => (RmRf::Finished, RmRfStep::Finish(Err(e))),
            RmRfEvent::Removed(Err(e)) => (RmRf::Finished, RmRfStep::Finish(Err(e))),
        }
    }

    /// Takes what came of the last step and says what to do next.
    pub fn step<E>(&mut self, event: RmRfEvent<E>) -> (r: RmRfStep<E>)
        requires
            old(self).awaits(event),
        ensures
            (*final(self), r) == RmRf::next(event),
            event is Lstat && event->Lstat_0 is Ok ==> r is Remove,
            event is Opened && event->Opened_0 is Ok ==> r is RemoveAll,
            event is Emptied && event->Emptied_0 is Ok ==> r is Remove,
            event is Removed && event->Removed_0 is Ok ==> r is Finish && r->Finish_0 is Ok,
            event matches RmRfEvent::Lstat(Err(e)) ==> r == RmRfStep::Finish(Err(e)),
            event matches RmRfEvent::Opened(Err(e)) ==> r == RmRfStep::Finish(Err(e)),
            event matches RmRfEvent::Emptied(Err(e)) ==> r == RmRfStep::Finish(Err(e)),
            event matches RmRfEvent::Removed(Err(e)) ==> r == RmRfStep::Finish(Err(e)),
    {
        proof {
            if event is Lstat && event->Lstat_0 is Ok {
                law_rm_rf_removes_at_once::<E>(event->Lstat_0->Ok_0);
            }
        }
        match event {
            RmRfEvent::Lstat(Ok(stat)) => {
                if stat.is_dir() {
                    *self = RmRf::Opening;
                    RmRfStep::OpenDir
                } else {
                    *self = RmRf::Removing;
                    RmRfStep::Remove
                }
            },
            RmRfEvent::Opened(Ok(())) => {
                *self = RmRf::Emptying;
                RmRfStep::RemoveAll
            },
            RmRfEvent::Emptied(Ok(())) => {
                *self = RmRf::Removing;
                RmRfStep::Remove
            },
            RmRfEvent::Removed(Ok(())) => {
                *self = RmRf::Finished;
                RmRfStep::Finish(Ok(()))
            },
            RmRfEvent::Lstat(Err(e))
            | RmRfEvent::Opened(Err(e))
            | RmRfEvent::Emptied(Err(e))
            | RmRfEvent::Removed(Err(e)) => {
                *self = RmRf::Finished;
                RmRfStep::Finish(Err(e))
            },
        }
    }
}

/// Begins to remove a path.
pub fn rm_rf<E>() -> (r: (RmRf, RmRfStep<E>))
    ensures
        r == (RmRf::Inspecting, RmRfStep::<E>::Lstat),
{
    (RmRf::Inspecting, RmRfStep::Lstat)
}

/// A path that has a status is removed at once, as no status is taken for that of a directory.
pub proof fn law_rm_rf_removes_at_once<E>(stat: Stat)
    ensures
        RmRf::next(RmRfEvent::<E>::Lstat(Ok(stat))) == (RmRf::Removing, RmRfStep::<E>::Remove),
{
    crate::stat::law_no_kind_outside_of_mask(stat);
}

/// Whether a removal in this state waits for what comes of `step`.
pub open spec fn is_asked<E>(state: RmRf, step: RmRfStep<E>) -> bool {
    match step {
        RmRfStep::Lstat => state is Inspecting,
        RmRfStep::OpenDir => state is Opening,
        RmRfStep::RemoveAll => state is Emptying,
        RmRfStep::Remove => state is Removing,
        RmRfStep::Finish(_) => state is Finished,
    }
}

/// The failure that an event tells of.
pub open spec fn failure<E>(event: RmRfEvent<E>) -> Option<E> {
    match event {
        RmRfEvent::Lstat(Err(e)) => Some(e),
        RmRfEvent::Opened(Err(e)) => Some(e),
        RmRfEvent::Emptied(Err(e)) => Some(e),
        RmRfEvent::Removed(Err(e)) => Some(e),
        _ => None,
    }
}

/// A removal always waits for what comes of the step that it asked for. It succeeds only when the
/// path itself has been removed, and a failure of any step is its result.
pub proof fn law_rm_rf_ends_with_removal<E>(event: RmRfEvent<E>)
    ensures
        is_asked(RmRf::next(event).0, RmRf::next(event).1),
        RmRf::next(event).1 == RmRfStep::<E>::Finish(Ok(())) <==> event matches RmRfEvent::Removed(
            Ok(_),
        ),
        match failure(event) {
            Some(e) => RmRf::next(event).1 == RmRfStep::Finish(Err(e)),
            None => !(RmRf::next(event).1 matches RmRfStep::Finish(Err(_))),
        },
{
}

/// What comes of each outcome while a directory is emptied. An entry that was read is dealt with
/// next, and no other is: it is entered if it is a directory, of kind 4, and else it is removed.
/// What was entered is read, and a directory that comes to its end is left and then removed
/// itself. After a removal the directory is read on. Every failure is the result, and the work
/// succeeds only at the end of the outermost directory.
pub proof fn law_read_entry_is_removed<E>(state: WalkState, event: RemoveEvent<E>)
    requires
        state.order is Post,
    ensures
        ({
            let later = state.next(as_walk_event(event)).0;
            let step = as_remove_step(state.next(as_walk_event(event)).1);
            &&& later.order is Post
            &&& match event {
                RemoveEvent::Read(Ok(Some(entry))) => later.stack == state.stack
                    && if entry.kind() == 4 {
                    step is Enter && later.phase == WalkPhase::Entering(entry)
                } else {
                    step is Unlink && later.phase == WalkPhase::Visiting(entry)
                },
                RemoveEvent::Read(Ok(None)) => if state.stack.len() == 0 {
                    step == RemoveStep::<E>::Finish(Ok(()))
                } else {
                    &&& step is Unlink
                    &&& later.phase == WalkPhase::Visiting(state.stack.last())
                    &&& later.stack == state.stack.drop_last()
                },
                RemoveEvent::Entered(Ok(_)) => {
                    &&& step is Read && later.phase is Reading
                    &&& later.stack == state.stack.push(state.phase->Entering_0)
                },
                RemoveEvent::Unlinked(Ok(_)) => {
                    &&& step is Read && later.phase is Reading
                    &&& later.stack == state.stack
                },
                RemoveEvent::Read(Err(e)) => step == RemoveStep::Finish(Err(e)),
                RemoveEvent::Entered(Err(e)) => step == RemoveStep::Finish(Err(e)),
                RemoveEvent::Unlinked(Err(e)) => step == RemoveStep::Finish(Err(e)),
            }
        }),
{
}

/// Emptying a directory takes what comes of the step that it asked for, whatever that is.
pub proof fn law_any_removal_is_taken<E>(
    state: WalkState,
    read: Result<Option<DirEntry>, E>,
    entered: Result<(), E>,
    unlinked: Result<(), E>,
)
    ensures
        state.awaits(as_walk_event(RemoveEvent::Read(read))) <==> state.phase is Reading,
        state.awaits(as_walk_event(RemoveEvent::Entered(entered))) <==> state.phase is Entering,
        state.awaits(as_walk_event(RemoveEvent::Unlinked(unlinked))) <==> state.phase is Visiting,
{
}

/// The emptying of a directory under way on a tree: its state, the step that it asks for, the open
/// directories with how far each was read, from the outermost one, and what it removed so far.
pub struct Emptying<E> {
    pub work: WalkState,
    pub step: RemoveStep<E>,
    pub open: Seq<(Listing<E>, int)>,
    pub removed: Seq<DirEntry>,
}

impl<E> Emptying<E> {
    /// The emptying of a directory with this listing, before its first step.
    pub open spec fn start(listing: Listing<E>) -> Emptying<E> {
        Emptying {
            work: WalkState::start(WalkOrder::Post),
            step: RemoveStep::Read,
            open: seq![(listing, 0int)],
            removed: Seq::empty(),
        }
    }

    /// Hands an event to the work, and closes the directories that it is no longer inside of.
    pub open spec fn tell(self, event: RemoveEvent<E>) -> Emptying<E> {
        let (work, step) = self.work.next(as_walk_event(event));
        Emptying {
            work,
            step: as_remove_step(step),
            open: self.open.take(work.stack.len() + 1int),
            ..self
        }
    }

    /// Does what the work asks for, where the removals come to what `unlinks` says.
    pub open spec fn advance(self, unlinks: spec_fn(nat) -> Result<(), E>) -> Emptying<E> {
        let (listing, at) = self.open.last();
        match self.step {
            RemoveStep::Read => if at < listing.entries.len() {
                let open = self.open.drop_last().push((listing, at + 1));
                Emptying { open, ..self }.tell(
                    RemoveEvent::Read(Ok(Some(listing.entries[at].entry))),
                )
            } else {
                match listing.end {
                    Some(e) => self.tell(RemoveEvent::Read(Err(e))),
                    None => self.tell(RemoveEvent::Read(Ok(None))),
                }
            },
            RemoveStep::Enter => match listing.entries[at - 1].content {
                Err(e) => self.tell(RemoveEvent::Entered(Err(e))),
                Ok(inner) => Emptying { open: self.open.push((inner, 0int)), ..self }.tell(
                    RemoveEvent::Entered(Ok(())),
                ),
            },
            RemoveStep::Unlink => {
                let removed = self.removed.push(self.work.phase->Visiting_0);
                Emptying { removed, ..self }.tell(
                    RemoveEvent::Unlinked(unlinks(self.removed.len())),
                )
            },
            RemoveStep::Finish(_) => self,
        }
    }

    /// Does what the work asks for, `steps` times.
    pub open spec fn after(self, unlinks: spec_fn(nat) -> Result<(), E>, steps: nat) -> Emptying<E>
        decreases steps,
    {
        if steps == 0 {
            self
        } else {
            self.advance(unlinks).after(unlinks, (steps - 1) as nat)
        }
    }

    /// Whether the work is at the same point as a walk.
    spec fn is_at(self, run: Run<E>) -> bool {
        &&& self.work == run.walk
        &&& self.step == as_remove_step(run.step)
        &&& self.open == run.open
        &&& self.removed == run.visits
    }
}

proof fn lemma_emptying_is_walk<E>(
    emptying: Emptying<E>,
    run: Run<E>,
    unlinks: spec_fn(nat) -> Result<(), E>,
    steps: nat,
)
    requires
        emptying.is_at(run),
    ensures
        emptying.after(unlinks, steps).is_at(run.after(remover(unlinks), steps)),
    decreases steps,
{
    if steps > 0 {
        let (a, b) = (emptying.advance(unlinks), run.advance(remover(unlinks)));
        assert(a.is_at(b));
        lemma_emptying_is_walk(a, b, unlinks, (steps - 1) as nat);
    }
}

/// Emptying a directory comes to an end on every tree. It succeeds just if everything in the tree
/// can be read and every removal succeeds, and then each entry of the tree was removed, once, and
/// after what was in it.
pub proof fn law_emptied_if_and_only_if_ok<E>(
    listing: Listing<E>,
    unlinks: spec_fn(nat) -> Result<(), E>,
) -> (steps: nat)
    ensures
        ({
            let end = Emptying::start(listing).after(unlinks, steps);
            let all = tour::all_entries(WalkOrder::Post, listing, 0);
            &&& end.step is Finish
            &&& end.step->Finish_0 is Ok <==> {
                &&& tour::readable(listing, 0)
                &&& forall|j: nat| j < all.len() ==> #[trigger] unlinks(j) is Ok
            }
            &&& end.step->Finish_0 is Ok ==> end.removed == all
        }),
{
    let steps = law_removed_all_or_failed(listing, unlinks);
    let run = Run::start(WalkOrder::Post, listing);
    lemma_emptying_is_walk(Emptying::start(listing), run, unlinks, steps);
    let step = as_remove_step(run.after(remover(unlinks), steps).step);
    if step->Finish_0 is Ok {
        assert(step->Finish_0->Ok_0 == ());
    }
    steps
}

/// What is removed from a directory, where all succeeds: of the first entry all that is in it, if
/// it is a directory, of kind 4, then the entry itself, and then the same of the other entries.
pub proof fn law_all_entries_are_made_up<E>(
    first: tour::Node<E>,
    rest: Seq<tour::Node<E>>,
    end: Option<E>,
)
    requires
        tour::readable(Listing { entries: seq![first] + rest, end }, 0),
    ensures
        tour::all_entries(WalkOrder::Post, Listing { entries: seq![first] + rest, end }, 0) == (
        if first.entry.kind() == 4 {
            tour::all_entries(WalkOrder::Post, first.content->Ok_0, 0)
        } else {
            Seq::empty()
        }) + seq![first.entry] + tour::all_entries(
            WalkOrder::Post,
            Listing { entries: rest, end },
            0,
        ),
        tour::all_entries(WalkOrder::Post, Listing::<E> { entries: Seq::empty(), end }, 0).len()
            == 0,
{
    let visitor = |n: nat| Ok::<WalkResult, E>(WalkResult::Continue);
    tour::law_readable_means_no_failure(first, rest, end);
    tour::law_post_order_is_made_up(first, rest, end, visitor, 0);
    let whole = Listing { entries: seq![first] + rest, end };
    let others = Listing { entries: rest, end };
    tour::law_tour_is_complete(WalkOrder::Post, whole, 0, visitor, 0);
    let below = if first.entry.kind() == 4 {
        tour::law_tour_is_complete(WalkOrder::Post, first.content->Ok_0, 0, visitor, 0);
        tour::all_entries(WalkOrder::Post, first.content->Ok_0, 0)
    } else {
        Seq::empty()
    };
    tour::law_tour_is_complete(WalkOrder::Post, others, 0, visitor, below.len() + 1);
}

/// The removal of a path takes what comes of the step that it asked for, whatever that is. A
/// directory that was opened is emptied, and the path is removed once that is done.
pub proof fn law_rm_rf_in_order<E>(
    state: RmRf,
    lstat: Result<Stat, E>,
    opened: Result<(), E>,
    emptied: Result<(), E>,
    removed: Result<(), E>,
)
    ensures
        state.awaits(RmRfEvent::Lstat(lstat)) <==> state is Inspecting,
        state.awaits(RmRfEvent::Opened(opened)) <==> state is Opening,
        state.awaits(RmRfEvent::Emptied(emptied)) <==> state is Emptying,
        state.awaits(RmRfEvent::Removed(removed)) <==> state is Removing,
        opened is Ok ==> RmRf::next(RmRfEvent::Opened(opened)) == (
            RmRf::Emptying,
            RmRfStep::<E>::RemoveAll,
        ),
        emptied is Ok ==> RmRf::next(RmRfEvent::Emptied(emptied)) == (
            RmRf::Removing,
            RmRfStep::<E>::Remove,
        ),
        removed is Ok ==> RmRf::next(RmRfEvent::Removed(removed)) == (
            RmRf::Finished,
            RmRfStep::<E>::Finish(Ok(())),
        ),
{
}

} // verus!
