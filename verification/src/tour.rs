//! What a walk comes to on a whole directory tree.
//!
//! [`tour`] says it by recursion over the tree, as one would tell it: go through a directory, and
//! for each entry that is a directory go through that one, before or after the entry is visited.
//! The laws say that a [`Walk`](crate::walk::Walk), driven step by step, does just that.

use vstd::prelude::*;

use crate::dir::DirEntry;
use crate::walk::{WalkEvent, WalkOrder, WalkPhase, WalkResult, WalkState, WalkStep};

verus! {

/// What reading a directory gives: its entries, and then the end, or a failure.
pub struct Listing<E> {
    pub entries: Seq<Node<E>>,
    pub end: Option<E>,
}

/// An entry, and what opening it as a directory gives.
pub struct Node<E> {
    pub entry: DirEntry,
    pub content: Result<Listing<E>, E>,
}

/// What the visitor answers to the first visit of the walk, to the second and so on.
pub type Visitor<E> = spec_fn(nat) -> Result<WalkResult, E>;

/// The visits made while going through `listing` from entry `i` on, and the result.
///
/// `n` visits were made before. `Skip` leaves out the rest of the listing; it is no failure.
pub open spec fn tour<E>(
    order: WalkOrder,
    listing: Listing<E>,
    i: int,
    visitor: Visitor<E>,
    n: nat,
) -> (Seq<DirEntry>, Result<WalkResult, E>)
    decreases listing, listing.entries.len() - i,
{
    if i < 0 || i >= listing.entries.len() {
        (
            Seq::empty(),
            match listing.end {
                Some(e) => Err(e),
                None => Ok(WalkResult::Continue),
            },
        )
    } else {
        let (visits, result) = tour_node(order, listing.entries[i], visitor, n);
        match result {
            Ok(WalkResult::Continue) => {
                let (more, end) = tour(order, listing, i + 1, visitor, n + visits.len());
                (visits + more, end)
            },
            Ok(WalkResult::Skip) => (visits, Ok(WalkResult::Continue)),
            _ => (visits, result),
        }
    }
}

/// The visits made for one entry of a directory, what is below it included, and the answer that
/// decides how the directory goes on.
pub open spec fn tour_node<E>(
    order: WalkOrder,
    node: Node<E>,
    visitor: Visitor<E>,
    n: nat,
) -> (Seq<DirEntry>, Result<WalkResult, E>)
    decreases node, 1int,
{
    match order {
        WalkOrder::Post => {
            let (visits, result) = tour_inside(order, node, visitor, n);
            if result == Ok::<WalkResult, E>(WalkResult::Continue) {
                (visits.push(node.entry), visitor(n + visits.len()))
            } else {
                (visits, result)
            }
        },
        WalkOrder::Pre => if visitor(n) == Ok::<WalkResult, E>(WalkResult::Continue) {
            let (visits, result) = tour_inside(order, node, visitor, n + 1);
            (seq![node.entry] + visits, result)
        } else {
            (seq![node.entry], visitor(n))
        },
    }
}

/// The visits made below an entry: none, unless it is a directory.
pub open spec fn tour_inside<E>(
    order: WalkOrder,
    node: Node<E>,
    visitor: Visitor<E>,
    n: nat,
) -> (Seq<DirEntry>, Result<WalkResult, E>)
    decreases node, 0int,
{
    if !node.entry.spec_is_dir() {
        (Seq::empty(), Ok(WalkResult::Continue))
    } else {
        match node.content {
            Err(e) => (Seq::empty(), Err(e)),
            Ok(listing) => tour(order, listing, 0, visitor, n),
        }
    }
}

/// A walk in progress on a tree: its state, the step that it asks for, the open directories with
/// how far each was read, from the outermost one, and the visits made so far.
pub struct Run<E> {
    pub walk: WalkState,
    pub step: WalkStep<E>,
    pub open: Seq<(Listing<E>, int)>,
    pub visits: Seq<DirEntry>,
}

impl<E> Run<E> {
    /// A walk of `listing` that has not begun.
    pub open spec fn start(order: WalkOrder, listing: Listing<E>) -> Run<E> {
        Run {
            walk: WalkState::start(order),
            step: WalkStep::Read,
            open: seq![(listing, 0int)],
            visits: Seq::empty(),
        }
    }

    /// Hands an event to the walk, and closes the directories that it is no longer inside of.
    pub open spec fn tell(self, event: WalkEvent<E>) -> Run<E> {
        let (walk, step) = self.walk.next(event);
        Run { walk, step, open: self.open.take(walk.stack.len() + 1int), ..self }
    }

    /// Does what the walk asks for.
    pub open spec fn advance(self, visitor: Visitor<E>) -> Run<E> {
        let (listing, at) = self.open.last();
        match self.step {
            WalkStep::Read => if at < listing.entries.len() {
                let open = self.open.drop_last().push((listing, at + 1));
                Run { open, ..self }.tell(
                    WalkEvent::Read(Ok(Some(listing.entries[at].entry))),
                )
            } else {
                match listing.end {
                    Some(e) => self.tell(WalkEvent::Read(Err(e))),
                    None => self.tell(WalkEvent::Read(Ok(None))),
                }
            },
            WalkStep::Enter => match listing.entries[at - 1].content {
                Err(e) => self.tell(WalkEvent::Entered(Err(e))),
                Ok(inner) => Run { open: self.open.push((inner, 0int)), ..self }.tell(
                    WalkEvent::Entered(Ok(())),
                ),
            },
            WalkStep::Visit => {
                let visits = self.visits.push(self.walk.phase->Visiting_0);
                Run { visits, ..self }.tell(WalkEvent::Visited(visitor(self.visits.len())))
            },
            WalkStep::Finish(_) => self,
        }
    }

    /// Does what the walk asks for, `steps` times.
    pub open spec fn after(self, visitor: Visitor<E>, steps: nat) -> Run<E>
        decreases steps,
    {
        if steps == 0 {
            self
        } else {
            self.advance(visitor).after(visitor, (steps - 1) as nat)
        }
    }

    /// Whether the walk is about to read entry `i` of `listing`, its innermost open directory.
    pub open spec fn reads(self, order: WalkOrder, listing: Listing<E>, i: int) -> bool {
        &&& self.step is Read
        &&& self.walk.order == order
        &&& self.walk.phase is Reading
        &&& self.open.len() == self.walk.stack.len() + 1
        &&& self.open.last() == (listing, i)
        &&& 0 <= i <= listing.entries.len()
    }

    /// Whether `later` is where the run gets to when its innermost directory made these visits
    /// and came to `result`: the walk has ended, or it goes on outside of the directory.
    pub open spec fn lands(
        self,
        later: Run<E>,
        visits: Seq<DirEntry>,
        result: Result<WalkResult, E>,
    ) -> bool {
        &&& later.visits == self.visits + visits
        &&& if result == Ok::<WalkResult, E>(WalkResult::Continue) && self.walk.stack.len() > 0 {
            &&& (later.walk, later.step) == self.walk.leave::<E>()
            &&& later.open == self.open.drop_last()
        } else {
            later.step == WalkStep::Finish(result)
        }
    }
}

proof fn lemma_after<E>(run: Run<E>, visitor: Visitor<E>, a: nat, b: nat)
    ensures
        run.after(visitor, a + b) == run.after(visitor, a).after(visitor, b),
    decreases a,
{
    if a > 0 {
        lemma_after(run.advance(visitor), visitor, (a - 1) as nat, b);
    }
}

/// A directory never comes to `Skip`: that is between the visitor and the directory.
pub proof fn law_skip_stays_inside<E>(
    order: WalkOrder,
    listing: Listing<E>,
    i: int,
    visitor: Visitor<E>,
    n: nat,
)
    ensures
        tour(order, listing, i, visitor, n).1 != Ok::<WalkResult, E>(WalkResult::Skip),
    decreases listing, listing.entries.len() - i,
{
    if 0 <= i < listing.entries.len() {
        let visits = tour_node(order, listing.entries[i], visitor, n).0;
        law_skip_stays_inside(order, listing, i + 1, visitor, n + visits.len());
    }
}

/// The run gets through one entry of its innermost directory.
proof fn lemma_node<E>(
    run: Run<E>,
    order: WalkOrder,
    listing: Listing<E>,
    i: int,
    visitor: Visitor<E>,
) -> (steps: nat)
    requires
        run.reads(order, listing, i),
        i < listing.entries.len(),
    ensures
        ({
            let (visits, result) = tour_node(order, listing.entries[i], visitor, run.visits.len());
            let later = run.after(visitor, steps);
            match result {
                Ok(WalkResult::Continue) => {
                    &&& later.reads(order, listing, i + 1)
                    &&& later.walk == run.walk
                    &&& later.open == run.open.drop_last().push((listing, i + 1))
                    &&& later.visits == run.visits + visits
                },
                Ok(WalkResult::Skip) => run.lands(later, visits, Ok(WalkResult::Continue)),
                _ => run.lands(later, visits, result),
            }
        }),
    decreases listing, listing.entries.len() - i, 0int,
{
    reveal_with_fuel(Run::after, 2);
    let node = listing.entries[i];
    let open = run.open.drop_last().push((listing, i + 1));
    let read = run.advance(visitor);
    assert(open.take(run.walk.stack.len() + 1int) =~= open);
    assert(open.take(run.walk.stack.len() as int) =~= run.open.drop_last());
    assert(read.open == open);
    assert(run.after(visitor, 1) == read);
    match order {
        WalkOrder::Post => {
            if !node.entry.spec_is_dir() {
                lemma_after(run, visitor, 1, 1);
                assert(read.advance(visitor).visits =~= run.visits + seq![node.entry]);
                assert(Seq::<DirEntry>::empty().push(node.entry) =~= seq![node.entry]);
                2
            } else {
                let entered = read.advance(visitor);
                lemma_after(run, visitor, 1, 1);
                match node.content {
                    Err(e) => {
                        assert(entered.visits =~= run.visits + Seq::<DirEntry>::empty());
                        2
                    },
                    Ok(inner) => {
                        assert(open.push((inner, 0int)).take(run.walk.stack.len() + 2int)
                            =~= open.push((inner, 0int)));
                        let k = lemma_tour(entered, order, inner, 0, visitor);
                        law_skip_stays_inside(order, inner, 0, visitor, run.visits.len());
                        let (visits, result) = tour(order, inner, 0, visitor, run.visits.len());
                        let back = entered.after(visitor, k);
                        lemma_after(run, visitor, 2, k);
                        if result == Ok::<WalkResult, E>(WalkResult::Continue) {
                            assert(entered.open.drop_last() =~= open);
                            assert(entered.walk.stack.drop_last() =~= run.walk.stack);
                            lemma_after(run, visitor, (2 + k) as nat, 1);
                            assert(back.advance(visitor).visits =~= run.visits + visits.push(
                                node.entry,
                            ));
                            (2 + k + 1) as nat
                        } else {
                            (2 + k) as nat
                        }
                    },
                }
            }
        },
        WalkOrder::Pre => {
            let visited = read.advance(visitor);
            lemma_after(run, visitor, 1, 1);
            assert(visited.visits =~= run.visits + seq![node.entry]);
            if visitor(run.visits.len()) != Ok::<WalkResult, E>(WalkResult::Continue)
                || !node.entry.spec_is_dir() {
                assert(seq![node.entry] + Seq::<DirEntry>::empty() =~= seq![node.entry]);
                2
            } else {
                let entered = visited.advance(visitor);
                lemma_after(run, visitor, 2, 1);
                match node.content {
                    Err(e) => {
                        assert(seq![node.entry] + Seq::<DirEntry>::empty() =~= seq![node.entry]);
                        3
                    },
                    Ok(inner) => {
                        assert(open.push((inner, 0int)).take(run.walk.stack.len() + 2int)
                            =~= open.push((inner, 0int)));
                        let k = lemma_tour(entered, order, inner, 0, visitor);
                        law_skip_stays_inside(order, inner, 0, visitor, run.visits.len() + 1);
                        let (visits, result) = tour(order, inner, 0, visitor, run.visits.len() + 1);
                        let back = entered.after(visitor, k);
                        lemma_after(run, visitor, 3, k);
                        assert(back.visits =~= run.visits + (seq![node.entry] + visits));
                        assert(entered.open.drop_last() =~= open);
                        assert(entered.walk.stack.drop_last() =~= run.walk.stack);
                        (3 + k) as nat
                    },
                }
            }
        },
    }
}

/// The run gets through the rest of its innermost directory.
proof fn lemma_tour<E>(
    run: Run<E>,
    order: WalkOrder,
    listing: Listing<E>,
    i: int,
    visitor: Visitor<E>,
) -> (steps: nat)
    requires
        run.reads(order, listing, i),
    ensures
        ({
            let (visits, result) = tour(order, listing, i, visitor, run.visits.len());
            run.lands(run.after(visitor, steps), visits, result)
        }),
    decreases listing, listing.entries.len() - i, 1int,
{
    reveal_with_fuel(Run::after, 2);
    if i == listing.entries.len() {
        let next = run.advance(visitor);
        assert(run.open.take(run.walk.stack.len() as int) =~= run.open.drop_last());
        assert(next.visits =~= run.visits + Seq::<DirEntry>::empty());
        assert(run.after(visitor, 1) == next);
        1
    } else {
        let k = lemma_node(run, order, listing, i, visitor);
        let (visits, result) = tour_node(order, listing.entries[i], visitor, run.visits.len());
        if result == Ok::<WalkResult, E>(WalkResult::Continue) {
            let later = run.after(visitor, k);
            let j = lemma_tour(later, order, listing, i + 1, visitor);
            lemma_after(run, visitor, k, j);
            let more = tour(order, listing, i + 1, visitor, later.visits.len()).0;
            assert(later.visits + more =~= run.visits + (visits + more));
            assert(later.open.drop_last() =~= run.open.drop_last());
            k + j
        } else {
            k
        }
    }
}

/// On every tree, and whatever the visitor answers, a walk comes to an end, having made the
/// visits of [`tour`] in its order, with the result of [`tour`].
pub proof fn law_walk_is_tour<E>(order: WalkOrder, listing: Listing<E>, visitor: Visitor<E>) -> (steps:
    nat)
    ensures
        Run::start(order, listing).after(visitor, steps).step == WalkStep::Finish(
            tour(order, listing, 0, visitor, 0).1,
        ),
        Run::start(order, listing).after(visitor, steps).visits == tour(
            order,
            listing,
            0,
            visitor,
            0,
        ).0,
{
    let run = Run::start(order, listing);
    let steps = lemma_tour(run, order, listing, 0, visitor);
    let visits = tour(order, listing, 0, visitor, 0).0;
    assert(run.visits + visits =~= visits);
    steps
}

/// Whether the visitor was heeded in a walk that made `visits`, the first of them its visit
/// number `n`, and came to `result`: an answer that ends the walk was the last one and is the
/// result, and `Abort` is the result only if the last answer was `Abort`.
pub open spec fn heeded<E>(
    visitor: Visitor<E>,
    n: nat,
    visits: Seq<DirEntry>,
    result: Result<WalkResult, E>,
) -> bool {
    &&& forall|j: nat|
        #![trigger visitor(j)]
        n <= j < n + visits.len() && (visitor(j) is Err || visitor(j) == Ok::<WalkResult, E>(
            WalkResult::Abort,
        )) ==> j + 1 == n + visits.len() && result == visitor(j)
    &&& result == Ok::<WalkResult, E>(WalkResult::Abort) ==> visits.len() > 0 && visitor(
        (n + visits.len() - 1) as nat,
    ) == result
}

/// A walk ends with the first visit that fails or is answered by `Abort`, and comes to that
/// failure or to `Abort`. It comes to `Abort` in no other way.
pub proof fn law_visitor_is_heeded<E>(
    order: WalkOrder,
    listing: Listing<E>,
    i: int,
    visitor: Visitor<E>,
    n: nat,
)
    ensures
        heeded(
            visitor,
            n,
            tour(order, listing, i, visitor, n).0,
            tour(order, listing, i, visitor, n).1,
        ),
    decreases listing, listing.entries.len() - i, 1int,
{
    if 0 <= i < listing.entries.len() {
        let node = listing.entries[i];
        lemma_node_is_heeded(order, listing, i, visitor, n);
        let (visits, result) = tour_node(order, node, visitor, n);
        if result == Ok::<WalkResult, E>(WalkResult::Continue) {
            law_visitor_is_heeded(order, listing, i + 1, visitor, n + visits.len());
        }
    }
}

proof fn lemma_node_is_heeded<E>(
    order: WalkOrder,
    listing: Listing<E>,
    i: int,
    visitor: Visitor<E>,
    n: nat,
)
    requires
        0 <= i < listing.entries.len(),
    ensures
        ({
            let (visits, result) = tour_node(order, listing.entries[i], visitor, n);
            heeded(visitor, n, visits, result)
        }),
    decreases listing, listing.entries.len() - i, 0int,
{
    let node = listing.entries[i];
    let below = match order {
        WalkOrder::Post => n,
        WalkOrder::Pre => n + 1,
    };
    if node.entry.spec_is_dir() && node.content is Ok {
        let inner = node.content->Ok_0;
        law_visitor_is_heeded(order, inner, 0, visitor, below);
        law_skip_stays_inside(order, inner, 0, visitor, below);
    }
}

/// Whether everything in the tree can be read, from entry `i` of `listing` on.
pub open spec fn readable<E>(listing: Listing<E>, i: int) -> bool
    decreases listing, listing.entries.len() - i,
{
    if i < 0 || i >= listing.entries.len() {
        listing.end is None
    } else {
        let node = listing.entries[i];
        &&& node.entry.spec_is_dir() ==> match node.content {
            Ok(inner) => readable(inner, 0),
            Err(_) => false,
        }
        &&& readable(listing, i + 1)
    }
}

/// All entries of the tree from entry `i` of `listing` on, a directory's own entries before it
/// or after it.
pub open spec fn all_entries<E>(order: WalkOrder, listing: Listing<E>, i: int) -> Seq<DirEntry>
    decreases listing, listing.entries.len() - i,
{
    if i < 0 || i >= listing.entries.len() {
        Seq::empty()
    } else {
        let node = listing.entries[i];
        let below = match node.content {
            Ok(inner) => if node.entry.spec_is_dir() {
                all_entries(order, inner, 0)
            } else {
                Seq::empty()
            },
            Err(_) => Seq::empty(),
        };
        let here = match order {
            WalkOrder::Post => below.push(node.entry),
            WalkOrder::Pre => seq![node.entry] + below,
        };
        here + all_entries(order, listing, i + 1)
    }
}

/// Where everything can be read and the visitor always goes on, every entry of the tree is
/// visited, once and in order.
pub proof fn law_tour_is_complete<E>(
    order: WalkOrder,
    listing: Listing<E>,
    i: int,
    visitor: Visitor<E>,
    n: nat,
)
    requires
        readable(listing, i),
        forall|j: nat| #[trigger] visitor(j) == Ok::<WalkResult, E>(WalkResult::Continue),
    ensures
        tour(order, listing, i, visitor, n) == (
            all_entries(order, listing, i),
            Ok::<WalkResult, E>(WalkResult::Continue),
        ),
    decreases listing, listing.entries.len() - i,
{
    if 0 <= i < listing.entries.len() {
        let node = listing.entries[i];
        let below = match order {
            WalkOrder::Post => n,
            WalkOrder::Pre => n + 1,
        };
        if node.entry.spec_is_dir() {
            law_tour_is_complete(order, node.content->Ok_0, 0, visitor, below);
        }
        let visits = tour_node(order, node, visitor, n).0;
        law_tour_is_complete(order, listing, i + 1, visitor, n + visits.len());
    }
}

/// The places of all entries of the tree from entry `i` of `listing` on, in the order of
/// [`all_entries`]. A place tells the number of each directory on the way in the one around it,
/// from the outermost one, and at last the number of the entry; `above` is the place of the
/// directory that was listed.
pub open spec fn places<E>(order: WalkOrder, listing: Listing<E>, i: int, above: Seq<int>) -> Seq<
    Seq<int>,
>
    decreases listing, listing.entries.len() - i,
{
    if i < 0 || i >= listing.entries.len() {
        Seq::empty()
    } else {
        let node = listing.entries[i];
        let below = match node.content {
            Ok(inner) => if node.entry.spec_is_dir() {
                places(order, inner, 0, above.push(i))
            } else {
                Seq::empty()
            },
            Err(_) => Seq::empty(),
        };
        let here = match order {
            WalkOrder::Post => below.push(above.push(i)),
            WalkOrder::Pre => seq![above.push(i)] + below,
        };
        here + places(order, listing, i + 1, above)
    }
}

/// The entry at a place of the tree of `listing`.
pub open spec fn entry_at<E>(listing: Listing<E>, place: Seq<int>) -> DirEntry
    decreases place.len(),
{
    if place.len() <= 1 {
        listing.entries[place[0]].entry
    } else {
        entry_at(listing.entries[place[0]].content->Ok_0, place.skip(1))
    }
}

/// Whether the place `b` is below the place `a`: the way to it leads through `a`.
pub open spec fn is_below(a: Seq<int>, b: Seq<int>) -> bool {
    a.len() < b.len() && b.take(a.len() as int) == a
}

/// The places below entry `i` of `listing`.
spec fn places_below<E>(order: WalkOrder, listing: Listing<E>, i: int, above: Seq<int>) -> Seq<
    Seq<int>,
> {
    let node = listing.entries[i];
    match node.content {
        Ok(inner) => if node.entry.spec_is_dir() {
            places(order, inner, 0, above.push(i))
        } else {
            Seq::empty()
        },
        Err(_) => Seq::empty(),
    }
}

/// The places from entry `i` on lead there from `above`, and the entries at them are those of
/// [`all_entries`].
proof fn lemma_places<E>(order: WalkOrder, listing: Listing<E>, i: int, above: Seq<int>)
    ensures
        places(order, listing, i, above).len() == all_entries(order, listing, i).len(),
        forall|k: int|
            #![trigger places(order, listing, i, above)[k]]
            0 <= k < places(order, listing, i, above).len() ==> {
                let place = places(order, listing, i, above)[k];
                &&& place.len() > above.len()
                &&& place.take(above.len() as int) == above
                &&& i <= place[above.len() as int] < listing.entries.len()
                &&& entry_at(listing, place.skip(above.len() as int)) == all_entries(
                    order,
                    listing,
                    i,
                )[k]
            },
    decreases listing, listing.entries.len() - i,
{
    if 0 <= i < listing.entries.len() {
        let node = listing.entries[i];
        let all = places(order, listing, i, above);
        let rest = places(order, listing, i + 1, above);
        let below = places_below(order, listing, i, above);
        let n = above.len() as int;
        let here = above.push(i);
        lemma_places(order, listing, i + 1, above);
        if node.entry.spec_is_dir() && node.content is Ok {
            lemma_places(order, node.content->Ok_0, 0, here);
        }
        assert(here.take(n) =~= above);
        assert(here.skip(n) =~= seq![i]);
        assert forall|k: int| 0 <= k < below.len() implies {
            let place = #[trigger] below[k];
            &&& place.len() > n + 1
            &&& place.take(n) == above
            &&& place[n] == i
            &&& entry_at(listing, place.skip(n)) == entry_at(
                node.content->Ok_0,
                place.skip(n + 1),
            )
        } by {
            let place = below[k];
            assert(place.take(n + 1) == here);
            assert(place.take(n) =~= place.take(n + 1).take(n));
            assert(place[n] == place.take(n + 1)[n]);
            assert(place.skip(n).skip(1) =~= place.skip(n + 1));
        }
        let before = below.len() + 1;
        assert forall|k: int|
            #![trigger all[k]]
            0 <= k < all.len() implies {
            let place = all[k];
            &&& place.len() > n
            &&& place.take(n) == above
            &&& i <= place[n] < listing.entries.len()
            &&& entry_at(listing, place.skip(n)) == all_entries(order, listing, i)[k]
        } by {
            if k >= before {
                assert(all[k] == rest[k - before]);
            } else {
                match order {
                    WalkOrder::Post => {
                        if k < below.len() {
                            assert(all[k] == below[k]);
                        } else {
                            assert(all[k] == here);
                        }
                    },
                    WalkOrder::Pre => {
                        if k > 0 {
                            assert(all[k] == below[k - 1]);
                        } else {
                            assert(all[k] == here);
                        }
                    },
                }
            }
        }
    }
}

/// Both orders have the same entries and the same places.
proof fn lemma_orders_agree<E>(listing: Listing<E>, i: int, above: Seq<int>)
    ensures
        all_entries(WalkOrder::Pre, listing, i).to_multiset() == all_entries(
            WalkOrder::Post,
            listing,
            i,
        ).to_multiset(),
        places(WalkOrder::Pre, listing, i, above).to_multiset() == places(
            WalkOrder::Post,
            listing,
            i,
            above,
        ).to_multiset(),
    decreases listing, listing.entries.len() - i,
{
    broadcast use vstd::seq_lib::group_to_multiset_ensures;
    broadcast use vstd::seq_lib::lemma_multiset_commutative;
    broadcast use vstd::multiset::group_multiset_axioms;

    if 0 <= i < listing.entries.len() {
        let node = listing.entries[i];
        lemma_orders_agree(listing, i + 1, above);
        if node.entry.spec_is_dir() && node.content is Ok {
            lemma_orders_agree(node.content->Ok_0, 0, above.push(i));
        }
        let (pre, post) = match node.content {
            Ok(inner) if node.entry.spec_is_dir() => (
                all_entries(WalkOrder::Pre, inner, 0),
                all_entries(WalkOrder::Post, inner, 0),
            ),
            _ => (Seq::empty(), Seq::empty()),
        };
        assert(seq![node.entry] =~= Seq::<DirEntry>::empty().push(node.entry));
        assert((seq![node.entry] + pre).to_multiset() =~= post.push(node.entry).to_multiset());
        let (before, after) = (
            places_below(WalkOrder::Pre, listing, i, above),
            places_below(WalkOrder::Post, listing, i, above),
        );
        let here = above.push(i);
        assert(seq![here] =~= Seq::<Seq<int>>::empty().push(here));
        assert((seq![here] + before).to_multiset() =~= after.push(here).to_multiset());
    }
}

/// A directory stands before all that is below it in one order, and after it in the other. No
/// place stands twice.
proof fn lemma_directory_stands_first_or_last<E>(
    order: WalkOrder,
    listing: Listing<E>,
    i: int,
    above: Seq<int>,
)
    ensures
        forall|a: int, b: int|
            #![trigger places(order, listing, i, above)[a], places(order, listing, i, above)[b]]
            0 <= a < places(order, listing, i, above).len() && 0 <= b < places(
                order,
                listing,
                i,
                above,
            ).len() ==> {
                let (s, c) = (
                    places(order, listing, i, above)[a],
                    places(order, listing, i, above)[b],
                );
                &&& s == c ==> a == b
                &&& is_below(s, c) ==> match order {
                    WalkOrder::Pre => a < b,
                    WalkOrder::Post => b < a,
                }
            },
    decreases listing, listing.entries.len() - i,
{
    if 0 <= i < listing.entries.len() {
        let node = listing.entries[i];
        let all = places(order, listing, i, above);
        let rest = places(order, listing, i + 1, above);
        let below = places_below(order, listing, i, above);
        let here = above.push(i);
        let n = above.len() as int;
        lemma_directory_stands_first_or_last(order, listing, i + 1, above);
        lemma_places(order, listing, i + 1, above);
        if node.entry.spec_is_dir() && node.content is Ok {
            lemma_directory_stands_first_or_last(order, node.content->Ok_0, 0, here);
            lemma_places(order, node.content->Ok_0, 0, here);
        }
        let before = below.len() + 1;
        let shift: int = match order {
            WalkOrder::Pre => 1,
            WalkOrder::Post => 0,
        };
        let own: int = match order {
            WalkOrder::Pre => 0,
            WalkOrder::Post => below.len() as int,
        };
        assert(all[own] == here);
        assert forall|k: int| 0 <= k < before && k != own implies {
            &&& 0 <= k - shift < below.len()
            &&& #[trigger] all[k] == below[k - shift]
            &&& all[k].len() > n + 1
            &&& all[k][n] == i
        } by {
            assert(all[k] == below[k - shift]);
            assert(all[k].take(n + 1) == here);
            assert(all[k][n] == all[k].take(n + 1)[n]);
        }
        assert forall|k: int| before <= k < all.len() implies {
            &&& #[trigger] all[k] == rest[k - before]
            &&& all[k].len() > n
            &&& all[k][n] > i
        } by {
            assert(all[k] == rest[k - before]);
        }
        assert forall|a: int, b: int|
            #![trigger all[a], all[b]]
            0 <= a < all.len() && 0 <= b < all.len() implies {
            &&& all[a] == all[b] ==> a == b
            &&& is_below(all[a], all[b]) ==> match order {
                WalkOrder::Pre => a < b,
                WalkOrder::Post => b < a,
            }
        } by {
            if is_below(all[a], all[b]) {
                assert(all[b].take(all[a].len() as int)[n] == all[b][n]);
            }
            if a >= before && b >= before {
                assert(all[a] == rest[a - before] && all[b] == rest[b - before]);
            } else if a < before && b < before && a != own && b != own {
                assert(all[a] == below[a - shift] && all[b] == below[b - shift]);
            }
        }
    }
}

/// Where everything can be read and the visitor always goes on, the walks in the two orders visit
/// the same entries, each as often in one as in the other, and at the same places of the tree, no
/// place twice. A directory is visited before all that is below it in one of them, and after all
/// of that in the other.
pub proof fn law_orders_visit_the_same<E>(listing: Listing<E>, visitor: Visitor<E>)
    requires
        readable(listing, 0),
        forall|j: nat| #[trigger] visitor(j) == Ok::<WalkResult, E>(WalkResult::Continue),
    ensures
        tour(WalkOrder::Pre, listing, 0, visitor, 0).0.to_multiset() == tour(
            WalkOrder::Post,
            listing,
            0,
            visitor,
            0,
        ).0.to_multiset(),
        places(WalkOrder::Pre, listing, 0, Seq::empty()).to_multiset() == places(
            WalkOrder::Post,
            listing,
            0,
            Seq::empty(),
        ).to_multiset(),
        forall|order: WalkOrder| #[trigger]
            tour(order, listing, 0, visitor, 0).0 == places(
                order,
                listing,
                0,
                Seq::empty(),
            ).map_values(|place: Seq<int>| entry_at(listing, place)),
        forall|order: WalkOrder|
            (#[trigger] places(order, listing, 0, Seq::empty())).no_duplicates(),
        forall|order: WalkOrder, a: int, b: int|
            #![trigger
                places(order, listing, 0, Seq::empty())[a],
                places(order, listing, 0, Seq::empty())[b]]
            0 <= a < places(order, listing, 0, Seq::empty()).len() && 0 <= b < places(
                order,
                listing,
                0,
                Seq::empty(),
            ).len() && is_below(
                places(order, listing, 0, Seq::empty())[a],
                places(order, listing, 0, Seq::empty())[b],
            ) ==> match order {
                WalkOrder::Pre => a < b,
                WalkOrder::Post => b < a,
            },
{
    law_tour_is_complete(WalkOrder::Pre, listing, 0, visitor, 0);
    law_tour_is_complete(WalkOrder::Post, listing, 0, visitor, 0);
    lemma_orders_agree(listing, 0, Seq::empty());
    lemma_directory_stands_first_or_last(WalkOrder::Pre, listing, 0, Seq::empty());
    lemma_directory_stands_first_or_last(WalkOrder::Post, listing, 0, Seq::empty());
    lemma_places(WalkOrder::Pre, listing, 0, Seq::empty());
    lemma_places(WalkOrder::Post, listing, 0, Seq::empty());
    assert forall|order: WalkOrder| #[trigger]
        tour(order, listing, 0, visitor, 0).0 == places(
            order,
            listing,
            0,
            Seq::empty(),
        ).map_values(|place: Seq<int>| entry_at(listing, place)) by {
        let all = places(order, listing, 0, Seq::empty());
        assert(order is Pre || order is Post);
        assert forall|k: int| 0 <= k < all.len() implies entry_at(listing, #[trigger] all[k])
            == all_entries(order, listing, 0)[k] by {
            assert(all[k].skip(0) =~= all[k]);
        }
        assert(all_entries(order, listing, 0) =~= all.map_values(
            |place: Seq<int>| entry_at(listing, place),
        ));
    }
}

/// What is seen of two listings from these entries on is the same where the same is left of them.
proof fn lemma_tour_of_rest<E>(
    order: WalkOrder,
    a: Listing<E>,
    i: int,
    b: Listing<E>,
    j: int,
    visitor: Visitor<E>,
    n: nat,
)
    requires
        0 <= i <= a.entries.len(),
        0 <= j <= b.entries.len(),
        a.entries.skip(i) == b.entries.skip(j),
        a.end == b.end,
    ensures
        tour(order, a, i, visitor, n) == tour(order, b, j, visitor, n),
    decreases a.entries.len() - i,
{
    assert(a.entries.skip(i).len() == a.entries.len() - i);
    assert(b.entries.skip(j).len() == b.entries.len() - j);
    if i < a.entries.len() {
        assert(a.entries[i] == a.entries.skip(i)[0]);
        assert(b.entries[j] == b.entries.skip(j)[0]);
        assert(a.entries.skip(i + 1) =~= a.entries.skip(i).skip(1));
        assert(b.entries.skip(j + 1) =~= b.entries.skip(j).skip(1));
        let visits = tour_node(order, a.entries[i], visitor, n).0;
        lemma_tour_of_rest(order, a, i + 1, b, j + 1, visitor, n + visits.len());
    }
}

/// How a walk with directories first is made up of others. An empty directory comes to its end.
/// Of another one the first entry is visited. The answer decides: a failure or `Abort` is the
/// result, and `Skip` is the end of the directory. Else the walk of what is in the entry follows,
/// if its kind is 4, and if that comes to its end, the walk of the other entries.
pub proof fn law_pre_order_is_made_up<E>(
    first: Node<E>,
    rest: Seq<Node<E>>,
    end: Option<E>,
    visitor: Visitor<E>,
    n: nat,
)
    ensures
        ({
            let whole = Listing { entries: seq![first] + rest, end };
            let others = Listing { entries: rest, end };
            let (visits, result) = tour(WalkOrder::Pre, whole, 0, visitor, n);
            match visitor(n) {
                Err(e) => visits == seq![first.entry] && result == Err::<WalkResult, E>(e),
                Ok(WalkResult::Abort) => visits == seq![first.entry] && result == visitor(n),
                Ok(WalkResult::Skip) => visits == seq![first.entry] && result == Ok::<
                    WalkResult,
                    E,
                >(WalkResult::Continue),
                Ok(WalkResult::Continue) => if first.entry.kind() != 4 {
                    let (more, last) = tour(WalkOrder::Pre, others, 0, visitor, n + 1);
                    visits == seq![first.entry] + more && result == last
                } else {
                    match first.content {
                        Err(e) => visits == seq![first.entry] && result == Err::<WalkResult, E>(e),
                        Ok(inner) => {
                            let (below, inside) = tour(WalkOrder::Pre, inner, 0, visitor, n + 1);
                            let (more, last) = tour(
                                WalkOrder::Pre,
                                others,
                                0,
                                visitor,
                                n + 1 + below.len(),
                            );
                            if inside == Ok::<WalkResult, E>(WalkResult::Continue) {
                                visits == seq![first.entry] + below + more && result == last
                            } else {
                                visits == seq![first.entry] + below && result == inside
                            }
                        },
                    }
                },
            }
        }),
        tour(WalkOrder::Pre, Listing { entries: Seq::empty(), end }, 0, visitor, n) == (
            Seq::<DirEntry>::empty(),
            match end {
                Some(e) => Err(e),
                None => Ok(WalkResult::Continue),
            },
        ),
{
    let whole = Listing { entries: seq![first] + rest, end };
    let others = Listing { entries: rest, end };
    assert(whole.entries.skip(1) =~= others.entries.skip(0));
    let here = tour_node(WalkOrder::Pre, first, visitor, n).0;
    lemma_tour_of_rest(WalkOrder::Pre, whole, 1, others, 0, visitor, n + here.len());
    assert(whole.entries[0] == first);
    assert(seq![first.entry] + Seq::<DirEntry>::empty() =~= seq![first.entry]);
    if first.entry.kind() == 4 && first.content is Ok {
        law_skip_stays_inside(WalkOrder::Pre, first.content->Ok_0, 0, visitor, n + 1);
    }
}

/// How a walk with directories last is made up of others. An empty directory comes to its end. Of
/// another one the first entry is gone through, if its kind is 4, and what does not come to its
/// end is the result. Else the entry is visited then. The answer decides: a failure or `Abort` is
/// the result, `Skip` is the end of the directory, and else the walk of the other entries follows.
pub proof fn law_post_order_is_made_up<E>(
    first: Node<E>,
    rest: Seq<Node<E>>,
    end: Option<E>,
    visitor: Visitor<E>,
    n: nat,
)
    ensures
        ({
            let whole = Listing { entries: seq![first] + rest, end };
            let others = Listing { entries: rest, end };
            let (visits, result) = tour(WalkOrder::Post, whole, 0, visitor, n);
            let (below, inside) = if first.entry.kind() != 4 {
                (Seq::<DirEntry>::empty(), Ok(WalkResult::Continue))
            } else {
                match first.content {
                    Err(e) => (Seq::<DirEntry>::empty(), Err(e)),
                    Ok(inner) => tour(WalkOrder::Post, inner, 0, visitor, n),
                }
            };
            let answer = visitor(n + below.len());
            let (more, last) = tour(WalkOrder::Post, others, 0, visitor, n + below.len() + 1);
            if inside != Ok::<WalkResult, E>(WalkResult::Continue) {
                visits == below && result == inside
            } else {
                match answer {
                    Ok(WalkResult::Continue) => visits == below + seq![first.entry] + more
                        && result == last,
                    Ok(WalkResult::Skip) => visits == below + seq![first.entry] && result == Ok::<
                        WalkResult,
                        E,
                    >(WalkResult::Continue),
                    _ => visits == below + seq![first.entry] && result == answer,
                }
            }
        }),
        tour(WalkOrder::Post, Listing { entries: Seq::empty(), end }, 0, visitor, n) == (
            Seq::<DirEntry>::empty(),
            match end {
                Some(e) => Err(e),
                None => Ok(WalkResult::Continue),
            },
        ),
{
    let whole = Listing { entries: seq![first] + rest, end };
    let others = Listing { entries: rest, end };
    assert(whole.entries.skip(1) =~= others.entries.skip(0));
    let here = tour_node(WalkOrder::Post, first, visitor, n).0;
    lemma_tour_of_rest(WalkOrder::Post, whole, 1, others, 0, visitor, n + here.len());
    assert(whole.entries[0] == first);
    let below = tour_inside(WalkOrder::Post, first, visitor, n).0;
    assert(below.push(first.entry) =~= below + seq![first.entry]);
    if first.entry.kind() == 4 && first.content is Ok {
        law_skip_stays_inside(WalkOrder::Post, first.content->Ok_0, 0, visitor, n);
    }
}

proof fn lemma_all_entries_hold<E>(order: WalkOrder, listing: Listing<E>, i: int, k: int)
    requires
        0 <= i <= k < listing.entries.len(),
    ensures
        all_entries(order, listing, i).contains(listing.entries[k].entry),
        listing.entries[k].entry.kind() == 4 && listing.entries[k].content is Ok ==> forall|j: int|
            0 <= j < all_entries(order, listing.entries[k].content->Ok_0, 0).len()
                ==> all_entries(order, listing, i).contains(
                #[trigger] all_entries(order, listing.entries[k].content->Ok_0, 0)[j],
            ),
    decreases k - i,
{
    let all = all_entries(order, listing, i);
    let node = listing.entries[i];
    let rest = all_entries(order, listing, i + 1);
    let is_dir = node.entry.kind() == 4 && node.content is Ok;
    let below = if is_dir {
        all_entries(order, node.content->Ok_0, 0)
    } else {
        Seq::empty()
    };
    let start = below.len() + 1;
    assert(forall|j: int| 0 <= j < rest.len() ==> #[trigger] rest[j] == all[start + j]);
    if i == k {
        match order {
            WalkOrder::Post => {
                assert(all[below.len() as int] == node.entry);
                assert(forall|j: int| 0 <= j < below.len() ==> #[trigger] below[j] == all[j]);
            },
            WalkOrder::Pre => {
                assert(all[0] == node.entry);
                assert(forall|j: int| 0 <= j < below.len() ==> #[trigger] below[j] == all[1 + j]);
            },
        }
    } else {
        lemma_all_entries_hold(order, listing, i + 1, k);
        assert forall|entry: DirEntry| #[trigger] rest.contains(entry) implies all.contains(
            entry,
        ) by {
            let j = choose|j: int| 0 <= j < rest.len() && rest[j] == entry;
            assert(all[start + j] == entry);
        }
    }
}

/// Where everything can be read and the visitor always goes on, every entry of a directory is
/// visited, and for each of them that is a directory itself, of kind 4, all that a walk of that
/// one visits, and so on down the tree.
pub proof fn law_whatever_is_below_is_visited<E>(
    order: WalkOrder,
    listing: Listing<E>,
    visitor: Visitor<E>,
    k: int,
)
    requires
        readable(listing, 0),
        forall|j: nat| #[trigger] visitor(j) == Ok::<WalkResult, E>(WalkResult::Continue),
        0 <= k < listing.entries.len(),
    ensures
        tour(order, listing, 0, visitor, 0).0.contains(listing.entries[k].entry),
        listing.entries[k].entry.kind() == 4 ==> listing.entries[k].content is Ok && forall|
            j: int,
        |
            0 <= j < tour(order, listing.entries[k].content->Ok_0, 0, visitor, 0).0.len() ==> tour(
                order,
                listing,
                0,
                visitor,
                0,
            ).0.contains(
                #[trigger] tour(order, listing.entries[k].content->Ok_0, 0, visitor, 0).0[j],
            ),
{
    law_tour_is_complete(order, listing, 0, visitor, 0);
    lemma_all_entries_hold(order, listing, 0, k);
    lemma_readable(listing, 0, k);
    if listing.entries[k].entry.kind() == 4 {
        law_tour_is_complete(order, listing.entries[k].content->Ok_0, 0, visitor, 0);
    }
}

proof fn lemma_readable<E>(listing: Listing<E>, i: int, k: int)
    requires
        0 <= i <= k < listing.entries.len(),
        readable(listing, i),
    ensures
        listing.entries[k].entry.kind() == 4 ==> listing.entries[k].content is Ok && readable(
            listing.entries[k].content->Ok_0,
            0,
        ),
    decreases k - i,
{
    if i < k {
        lemma_readable(listing, i + 1, k);
    }
}

/// What it takes for a tree to be readable: all that the entries lead to can be read, as far as
/// they are directories, of kind 4, and the directory comes to its end without a failure.
pub proof fn law_readable_means_no_failure<E>(first: Node<E>, rest: Seq<Node<E>>, end: Option<E>)
    ensures
        readable(Listing { entries: seq![first] + rest, end }, 0) <==> {
            &&& first.entry.kind() == 4 ==> first.content is Ok && readable(first.content->Ok_0, 0)
            &&& readable(Listing { entries: rest, end }, 0)
        },
        readable(Listing { entries: Seq::empty(), end }, 0) <==> end is None,
{
    let whole = Listing { entries: seq![first] + rest, end };
    let others = Listing { entries: rest, end };
    assert(whole.entries.skip(1) =~= others.entries.skip(0));
    lemma_readable_rest(whole, 1, others, 0);
    assert(whole.entries[0] == first);
}

proof fn lemma_readable_rest<E>(a: Listing<E>, i: int, b: Listing<E>, j: int)
    requires
        0 <= i <= a.entries.len(),
        0 <= j <= b.entries.len(),
        a.entries.skip(i) == b.entries.skip(j),
        a.end == b.end,
    ensures
        readable(a, i) == readable(b, j),
    decreases a.entries.len() - i,
{
    assert(a.entries.skip(i).len() == a.entries.len() - i);
    assert(b.entries.skip(j).len() == b.entries.len() - j);
    if i < a.entries.len() {
        assert(a.entries[i] == a.entries.skip(i)[0]);
        assert(b.entries[j] == b.entries.skip(j)[0]);
        assert(a.entries.skip(i + 1) =~= a.entries.skip(i).skip(1));
        assert(b.entries.skip(j + 1) =~= b.entries.skip(j).skip(1));
        lemma_readable_rest(a, i + 1, b, j + 1);
    }
}

} // verus!
