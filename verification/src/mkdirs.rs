//! Making a directory together with all its parents.

use vstd::prelude::*;

use crate::abi;
use crate::bytes;
use crate::bytes::{NUL, SLASH};
use crate::error::FileError;

verus! {

/// The bytes that a path may take, its NUL among them. A longer one is cut.
pub const PATH_BYTES: usize = 4096;

/// What making directories has to do next.
#[derive(Clone, Copy, Debug, PartialEq, Eq)]
pub enum MkdirsStep {
    /// Make the current directory.
    Mkdir,
    /// Nothing more: all are made, or this is the failure.
    Finish(Result<(), FileError>),
}

impl MkdirsStep {
    /// The number that `errno` is to be set to after this step: zero once all is made, whatever
    /// `mkdir` said of directories that were there. A failure leaves its own number.
    pub open spec fn spec_errno_left(self) -> Option<i32> {
        match self {
            MkdirsStep::Finish(Ok(_)) => Some(0),
            _ => None,
        }
    }

    /// The number that `errno` is to be set to, if it is not to stay as it is.
    pub fn errno_left(&self) -> (r: Option<i32>)
        ensures
            r == self.spec_errno_left(),
            r == (if self is Finish && self->Finish_0 is Ok {
                Some(0i32)
            } else {
                None
            }),
    {
        match self {
            MkdirsStep::Finish(Ok(_)) => Some(0),
            _ => None,
        }
    }
}

/// The state of making a directory with its parents: the path, the length of the part of it that
/// is to be made now, and whether the work has ended.
pub struct MkdirsState {
    pub path: Seq<u8>,
    pub end: int,
    pub finished: bool,
}

/// The path without its NUL byte, cut to the bytes that a path may take.
pub open spec fn cut_path(path: Seq<u8>) -> Seq<u8> {
    path.take(bytes::cstr_fit(PATH_BYTES as int, path.len() as int))
}

/// Whether a call of `mkdir` has left a directory behind: it succeeded, or there was one.
pub open spec fn is_made(ret: i32, errno: i32) -> bool {
    ret >= 0 || errno == abi::spec_eexist()
}

impl MkdirsState {
    /// The state at the start. The slash that an absolute path begins with ends no parent.
    pub open spec fn start(path: Seq<u8>) -> MkdirsState {
        MkdirsState { path, end: bytes::find(path, SLASH, 1), finished: false }
    }

    /// The directory that is to be made now, a C string.
    pub open spec fn dir(self) -> Seq<u8> {
        self.path.take(self.end).push(NUL)
    }

    /// The state and the step that follow a call of `mkdir`: after a parent comes the one that
    /// the next slash ends, and at last the path itself.
    pub open spec fn next(self, ret: i32, errno: i32) -> (MkdirsState, MkdirsStep) {
        if !is_made(ret, errno) {
            (
                MkdirsState { finished: true, ..self },
                MkdirsStep::Finish(Err(FileError::Os(errno))),
            )
        } else if self.end >= self.path.len() {
            (MkdirsState { finished: true, ..self }, MkdirsStep::Finish(Ok(())))
        } else {
            (
                MkdirsState { end: bytes::find(self.path, SLASH, self.end + 1), ..self },
                MkdirsStep::Mkdir,
            )
        }
    }
}

/// The work of making a directory with its parents.
///
/// The path lies in a buffer, and the slash that ends the current parent is replaced by a NUL
/// byte while that parent is made.
#[derive(Debug)]
pub struct Mkdirs {
    buf: Vec<u8>,
    end: usize,
    mode: u32,
    finished: bool,
}

impl Mkdirs {
    /// The state of the work.
    pub closed spec fn view(&self) -> MkdirsState {
        let path = self.buf@.drop_last();
        MkdirsState {
            path: if self.end < path.len() {
                path.update(self.end as int, SLASH)
            } else {
                path
            },
            end: self.end as int,
            finished: self.finished,
        }
    }

    /// The mode that the directories get.
    pub closed spec fn mode(&self) -> u32 {
        self.mode
    }

    /// Whether the buffer holds a path, with the current directory ended in it.
    pub closed spec fn well_formed(&self) -> bool {
        &&& self.end < self.buf@.len()
        &&& self.buf@[self.end as int] == NUL
        &&& bytes::is_cstr(self@.path.push(NUL))
    }

    /// The directory to make now, with its NUL byte.
    pub fn dir(&self) -> (r: &[u8])
        requires
            self.well_formed(),
        ensures
            r@ == self@.dir(),
            bytes::is_cstr(r@),
    {
        assert(self.end < self.buf.len());
        let r: &[u8] = vstd::slice::slice_subrange(self.buf.as_slice(), 0, self.end + 1);
        assert(r@ =~= self@.dir());
        assert forall|i: int| 0 <= i < r@.len() - 1 implies r@[i] != NUL by {
            assert(r@[i] == self@.path.push(NUL)[i]);
        }
        r
    }

    /// The mode that the directories get.
    pub fn get_mode(&self) -> (r: u32)
        ensures
            r == self.mode(),
    {
        self.mode
    }

    /// Takes what `mkdir` returned for the current directory and left in `errno`, and says what
    /// to do next.
    pub fn step(&mut self, ret: i32, errno: i32) -> (r: MkdirsStep)
        requires
            old(self).well_formed(),
            !old(self)@.finished,
        ensures
            final(self).well_formed(),
            final(self).mode() == old(self).mode(),
            (final(self)@, r) == old(self)@.next(ret, errno),
            final(self)@.path == old(self)@.path,
            ret < 0 && errno != 17 ==> r is Finish && r->Finish_0 is Err && r->Finish_0->Err_0
                == FileError::Os(errno),
            ret >= 0 || errno == 17 ==> if old(self)@.end >= old(self)@.path.len() {
                r is Finish && r->Finish_0 is Ok
            } else {
                r is Mkdir && final(self)@.end > old(self)@.end
            },
            r is Finish <==> final(self)@.finished,
    {
        let ghost before = self@;
        proof {
            bytes::lemma_find(before.path, SLASH, before.end + 1);
        }
        if ret < 0 && errno != abi::eexist() {
            self.finished = true;
            return MkdirsStep::Finish(Err(FileError::Os(errno)));
        }
        let len: usize = self.buf.len() - 1;
        if self.end >= len {
            self.finished = true;
            return MkdirsStep::Finish(Ok(()));
        }
        self.buf[self.end] = SLASH;
        assert(self.buf@.drop_last() =~= before.path);
        self.end = next_end(self.buf.as_slice(), self.end + 1);
        self.buf[self.end] = NUL;
        assert(self@.path =~= before.path);
        MkdirsStep::Mkdir
    }
}

/// The end of the part of the C string `buf` before its first slash from `from` on.
fn next_end(buf: &[u8], from: usize) -> (r: usize)
    requires
        buf@.len() > 0,
    ensures
        r == bytes::find(buf@.drop_last(), SLASH, from as int),
        r < buf@.len(),
{
    let len: usize = buf.len() - 1;
    let path: &[u8] = vstd::slice::slice_subrange(buf, 0, len);
    assert(path@ =~= buf@.drop_last());
    bytes::find_byte(path, SLASH, from)
}

/// Begins to make the directory `path`, a C string, with its parents.
pub fn mkdirs(path: &[u8], mode: u32) -> (r: Mkdirs)
    requires
        bytes::is_cstr(path@),
    ensures
        r.well_formed(),
        r.mode() == mode,
        r@ == MkdirsState::start(cut_path(path@)),
        path@.len() <= 4096 ==> r@.path == path@.drop_last(),
        path@.len() > 4096 ==> r@.path == path@.take(4095),
        !r@.finished,
{
    let mut buf: Vec<u8> = vec![NUL; PATH_BYTES];
    let n: usize = bytes::copy_cstr(buf.as_mut_slice(), path);
    buf.truncate(n + 1);
    assert(buf@.drop_last() =~= cut_path(path@));
    assert(buf@.last() == NUL);
    let end: usize = next_end(buf.as_slice(), 1);
    proof {
        bytes::lemma_find(cut_path(path@), SLASH, 1);
    }
    buf[end] = NUL;
    let r = Mkdirs { buf, end, mode, finished: false };
    assert(r@.path =~= cut_path(path@));
    r
}

/// What calls of `mkdir` came to: what the first of them returned and left in `errno`, and so on.
pub type Outcomes = spec_fn(nat) -> (i32, i32);

/// The directories that are asked for from this state on, and the result. `n` calls were made
/// before.
pub open spec fn run(state: MkdirsState, outcomes: Outcomes, n: nat) -> (
    Seq<Seq<u8>>,
    Result<(), FileError>,
)
    decreases state.path.len() - state.end,
    when 0 <= state.end
{
    proof {
        bytes::lemma_find(state.path, SLASH, state.end + 1);
    }
    let (later, step) = state.next(outcomes(n).0, outcomes(n).1);
    match step {
        MkdirsStep::Finish(result) => (seq![state.dir()], result),
        MkdirsStep::Mkdir => {
            let (dirs, result) = run(later, outcomes, n + 1);
            (seq![state.dir()] + dirs, result)
        },
    }
}

/// Where the parents of `path` end, from the slash that `find` gives from `from` on, and at last
/// the end of the path itself.
pub open spec fn ends(path: Seq<u8>, from: int) -> Seq<int>
    decreases path.len() - from,
    when 0 <= from
{
    proof {
        bytes::lemma_find(path, SLASH, from);
    }
    let end = bytes::find(path, SLASH, from);
    if end >= path.len() {
        seq![path.len() as int]
    } else {
        seq![end] + ends(path, end + 1)
    }
}

/// The directories that a path asks for: the parents, the outermost first, and the path itself.
pub open spec fn lineage(path: Seq<u8>) -> Seq<Seq<u8>> {
    ends(path, 1).map_values(|end: int| path.take(end).push(NUL))
}

proof fn lemma_ends(path: Seq<u8>, from: int)
    requires
        0 <= from,
    ensures
        ends(path, from).len() > 0,
        ends(path, from).last() == path.len(),
        forall|i: int|
            0 <= i < ends(path, from).len() - 1 ==> from <= #[trigger] ends(path, from)[i]
                < path.len() && path[ends(path, from)[i]] == SLASH,
        forall|i: int, j: int|
            0 <= i < j < ends(path, from).len() ==> ends(path, from)[i] < ends(path, from)[j],
        forall|k: int|
            from <= k < path.len() && #[trigger] path[k] == SLASH ==> ends(path, from).contains(k),
    decreases path.len() - from,
{
    bytes::lemma_find(path, SLASH, from);
    let end = bytes::find(path, SLASH, from);
    let all = ends(path, from);
    if end < path.len() {
        lemma_ends(path, end + 1);
        let rest = ends(path, end + 1);
        assert(all =~= seq![end] + rest);
        assert forall|k: int| from <= k < path.len() && #[trigger] path[k] == SLASH implies all.contains(
            k,
        ) by {
            if k == end {
                assert(all[0] == k);
            } else {
                let i = choose|i: int| 0 <= i < rest.len() && rest[i] == k;
                assert(all[i + 1] == k);
            }
        }
    }
}

/// The directories that a path asks for end with the path itself. Each of them is a proper
/// beginning of every later one. Before the path itself come just the parts of it that a slash
/// ends, but for a slash at its start.
pub proof fn law_lineage_is_every_parent(path: Seq<u8>)
    ensures
        lineage(path).len() > 0,
        lineage(path).last() == path.push(NUL),
        forall|i: int, j: int|
            0 <= i < j < lineage(path).len() ==> {
                let (a, b) = (#[trigger] lineage(path)[i], #[trigger] lineage(path)[j]);
                a.len() < b.len() && a.drop_last() == b.take(a.len() - 1)
            },
        forall|k: int|
            1 <= k < path.len() && #[trigger] path[k] == SLASH ==> lineage(path).contains(
                path.take(k).push(NUL),
            ),
        forall|i: int|
            0 <= i < lineage(path).len() - 1 ==> {
                let k = (#[trigger] lineage(path)[i]).len() - 1;
                1 <= k < path.len() && path[k] == SLASH && lineage(path)[i] == path.take(k).push(
                    NUL,
                )
            },
{
    lemma_ends(path, 1);
    let all = ends(path, 1);
    assert(path.take(path.len() as int) =~= path);
    assert forall|i: int, j: int| 0 <= i < j < lineage(path).len() implies {
        let (a, b) = (#[trigger] lineage(path)[i], #[trigger] lineage(path)[j]);
        a.len() < b.len() && a.drop_last() == b.take(a.len() - 1)
    } by {
        assert(all[i] < all[j]);
        assert(all[j] <= path.len());
        assert(lineage(path)[i].drop_last() =~= path.take(all[i]));
        assert(lineage(path)[j].take(all[i]) =~= path.take(all[i]));
    }
    assert forall|k: int| 1 <= k < path.len() && #[trigger] path[k] == SLASH implies lineage(
        path,
    ).contains(path.take(k).push(NUL)) by {
        let i = choose|i: int| 0 <= i < all.len() && all[i] == k;
        assert(lineage(path)[i] == path.take(k).push(NUL));
    }
    assert forall|i: int| 0 <= i < lineage(path).len() - 1 implies {
        let k = (#[trigger] lineage(path)[i]).len() - 1;
        1 <= k < path.len() && path[k] == SLASH && lineage(path)[i] == path.take(k).push(NUL)
    } by {
        assert(1 <= all[i] < path.len());
    }
}

proof fn lemma_run(state: MkdirsState, outcomes: Outcomes, n: nat, from: int)
    requires
        0 <= from,
        state.end == bytes::find(state.path, SLASH, from),
        !state.finished,
    ensures
        ({
            let all = ends(state.path, from).map_values(|end: int| state.path.take(end).push(NUL));
            let (dirs, result) = run(state, outcomes, n);
            &&& 0 < dirs.len() <= all.len()
            &&& dirs == all.take(dirs.len() as int)
            &&& forall|j: nat|
                n <= j < n + dirs.len() - 1 ==> is_made((#[trigger] outcomes(j)).0, outcomes(j).1)
            &&& {
                let (ret, errno) = outcomes((n + dirs.len() - 1) as nat);
                if is_made(ret, errno) {
                    dirs.len() == all.len() && result == Ok::<(), FileError>(())
                } else {
                    result == Err::<(), FileError>(FileError::Os(errno))
                }
            }
        }),
    decreases state.path.len() - from,
{
    bytes::lemma_find(state.path, SLASH, from);
    let path = state.path;
    let all = ends(path, from).map_values(|end: int| path.take(end).push(NUL));
    let (dirs, result) = run(state, outcomes, n);
    let (later, step) = state.next(outcomes(n).0, outcomes(n).1);
    lemma_ends(path, from);
    assert(all[0] == state.dir());
    if step is Mkdir {
        bytes::lemma_find(path, SLASH, state.end + 1);
        lemma_run(later, outcomes, n + 1, state.end + 1);
        let rest = ends(path, state.end + 1).map_values(|end: int| path.take(end).push(NUL));
        let more = run(later, outcomes, n + 1).0;
        assert(all =~= seq![state.dir()] + rest);
        assert(dirs =~= seq![state.dir()] + more);
        assert(dirs =~= all.take(dirs.len() as int));
    } else {
        assert(dirs =~= all.take(1));
    }
}

/// The directories that a path asks for are made in the order of [`lineage`]: all of them, or
/// those up to the first that cannot be made. That one's failure is then the result; that a
/// directory exists already is no failure.
pub proof fn law_mkdirs_in_order(path: Seq<u8>, outcomes: Outcomes)
    ensures
        ({
            let (dirs, result) = run(MkdirsState::start(path), outcomes, 0);
            &&& 0 < dirs.len() <= lineage(path).len()
            &&& dirs == lineage(path).take(dirs.len() as int)
            &&& forall|j: nat|
                j < dirs.len() - 1 ==> is_made((#[trigger] outcomes(j)).0, outcomes(j).1)
            &&& {
                let (ret, errno) = outcomes((dirs.len() - 1) as nat);
                if is_made(ret, errno) {
                    dirs == lineage(path) && result == Ok::<(), FileError>(())
                } else {
                    result == Err::<(), FileError>(FileError::Os(errno))
                }
            }
        }),
{
    lemma_run(MkdirsState::start(path), outcomes, 0, 1);
    let dirs = run(MkdirsState::start(path), outcomes, 0).0;
    if dirs.len() == lineage(path).len() {
        assert(lineage(path).take(dirs.len() as int) =~= lineage(path));
    }
}

/// What is in `errno` after the work came to `result`, its last call of `mkdir` having left
/// `errno` there.
pub open spec fn errno_after(result: Result<(), FileError>, errno: i32) -> i32 {
    match MkdirsStep::Finish(result).spec_errno_left() {
        Some(code) => code,
        None => errno,
    }
}

/// After a success `errno` is zero, though `mkdir` may have said that a directory exists. After a
/// failure it tells that failure.
pub proof fn law_errno_tells_the_result(path: Seq<u8>, outcomes: Outcomes)
    ensures
        ({
            let (dirs, result) = run(MkdirsState::start(path), outcomes, 0);
            let errno = errno_after(result, outcomes((dirs.len() - 1) as nat).1);
            match result {
                Ok(_) => errno == 0,
                Err(e) => e == FileError::Os(errno),
            }
        }),
{
    law_mkdirs_in_order(path, outcomes);
}

/// Where every directory exists already, all of them are asked for, and that is a success.
pub proof fn law_existing_is_no_failure(path: Seq<u8>, outcomes: Outcomes)
    requires
        forall|j: nat|
            (#[trigger] outcomes(j)).0 < 0 && outcomes(j).1 == abi::spec_eexist(),
    ensures
        run(MkdirsState::start(path), outcomes, 0) == (lineage(path), Ok::<(), FileError>(())),
{
    law_mkdirs_in_order(path, outcomes);
}

/// A system that directories are made in, with states `T`: whether a path exists in a state, what
/// `mkdir` of a path with a mode returns and leaves in `errno`, and the state after that.
#[verifier::reject_recursive_types(T)]
pub struct System<T> {
    pub exists: spec_fn(T, Seq<u8>) -> bool,
    pub answer: spec_fn(T, Seq<u8>, u32) -> (i32, i32),
    pub after: spec_fn(T, Seq<u8>, u32) -> T,
}

impl<T> System<T> {
    /// Whether `mkdir` is what it is documented to be: of what exists it says so and changes
    /// nothing, what it is said to have left behind exists, and nothing ceases to exist.
    pub open spec fn is_regular(self) -> bool {
        &&& forall|t: T, dir: Seq<u8>, mode: u32|
            (self.exists)(t, dir) ==> (#[trigger] (self.answer)(t, dir, mode)).0 < 0 && (
            self.answer)(t, dir, mode).1 == abi::spec_eexist() && (self.after)(t, dir, mode) == t
        &&& forall|t: T, dir: Seq<u8>, mode: u32|
            is_made((#[trigger] (self.answer)(t, dir, mode)).0, (self.answer)(t, dir, mode).1)
                ==> (self.exists)((self.after)(t, dir, mode), dir)
        &&& forall|t: T, dir: Seq<u8>, other: Seq<u8>, mode: u32|
            (self.exists)(t, dir) ==> #[trigger] (self.exists)(
                (self.after)(t, other, mode),
                dir,
            )
    }
}

/// What the work does from this state on in a system in state `t`: the state that it leaves the
/// system in, the directories that it asks for, and the result.
pub open spec fn run_in<T>(state: MkdirsState, mode: u32, system: System<T>, t: T) -> (
    T,
    Seq<Seq<u8>>,
    Result<(), FileError>,
)
    decreases state.path.len() - state.end,
    when 0 <= state.end
{
    proof {
        bytes::lemma_find(state.path, SLASH, state.end + 1);
    }
    let (ret, errno) = (system.answer)(t, state.dir(), mode);
    let after = (system.after)(t, state.dir(), mode);
    let (later, step) = state.next(ret, errno);
    match step {
        MkdirsStep::Finish(result) => (after, seq![state.dir()], result),
        MkdirsStep::Mkdir => {
            let (end, dirs, result) = run_in(later, mode, system, after);
            (end, seq![state.dir()] + dirs, result)
        },
    }
}

/// The directories that are yet to be asked for, where the current one ends at the slash that
/// `find` gives from `from` on.
spec fn to_make(path: Seq<u8>, from: int) -> Seq<Seq<u8>> {
    ends(path, from).map_values(|end: int| path.take(end).push(NUL))
}

proof fn lemma_to_make(state: MkdirsState, from: int)
    requires
        0 <= from,
        state.end == bytes::find(state.path, SLASH, from),
    ensures
        0 <= state.end <= state.path.len(),
        from <= state.path.len() ==> from <= state.end,
        state.end < state.path.len() ==> to_make(state.path, from) == seq![state.dir()] + to_make(
            state.path,
            state.end + 1,
        ),
        state.end >= state.path.len() ==> to_make(state.path, from) == seq![state.dir()],
{
    bytes::lemma_find(state.path, SLASH, from);
    let all = to_make(state.path, from);
    if state.end < state.path.len() {
        assert(all =~= seq![state.dir()] + to_make(state.path, state.end + 1));
    } else {
        assert(all =~= seq![state.dir()]);
    }
}

proof fn lemma_all_made<T>(state: MkdirsState, from: int, mode: u32, system: System<T>, t: T)
    requires
        0 <= from,
        state.end == bytes::find(state.path, SLASH, from),
        system.is_regular(),
    ensures
        ({
            let (end, dirs, result) = run_in(state, mode, system, t);
            &&& forall|dir: Seq<u8>| (system.exists)(t, dir) ==> #[trigger] (system.exists)(end, dir)
            &&& result is Ok ==> forall|i: int|
                0 <= i < to_make(state.path, from).len() ==> (system.exists)(
                    end,
                    #[trigger] to_make(state.path, from)[i],
                )
        }),
    decreases state.path.len() - from,
{
    lemma_to_make(state, from);
    let after = (system.after)(t, state.dir(), mode);
    let (ret, errno) = (system.answer)(t, state.dir(), mode);
    let all = to_make(state.path, from);
    if is_made(ret, errno) && state.end < state.path.len() {
        let later = state.next(ret, errno).0;
        bytes::lemma_find(state.path, SLASH, state.end + 1);
        lemma_all_made(later, state.end + 1, mode, system, after);
        let (end, dirs, result) = run_in(state, mode, system, t);
        let rest = to_make(state.path, state.end + 1);
        if result is Ok {
            assert forall|i: int| 0 <= i < all.len() implies (system.exists)(
                end,
                #[trigger] all[i],
            ) by {
                if i > 0 {
                    assert(all[i] == rest[i - 1]);
                }
            }
        }
    }
}

proof fn lemma_nothing_made<T>(state: MkdirsState, from: int, mode: u32, system: System<T>, t: T)
    requires
        0 <= from,
        state.end == bytes::find(state.path, SLASH, from),
        system.is_regular(),
        forall|i: int|
            0 <= i < to_make(state.path, from).len() ==> (system.exists)(
                t,
                #[trigger] to_make(state.path, from)[i],
            ),
    ensures
        run_in(state, mode, system, t) == (
            t,
            to_make(state.path, from),
            Ok::<(), FileError>(()),
        ),
    decreases state.path.len() - from,
{
    lemma_to_make(state, from);
    let all = to_make(state.path, from);
    let (ret, errno) = (system.answer)(t, state.dir(), mode);
    assert((system.exists)(t, all[0]));
    if state.end < state.path.len() {
        let rest = to_make(state.path, state.end + 1);
        assert forall|i: int| 0 <= i < rest.len() implies (system.exists)(t, #[trigger] rest[i]) by {
            assert(all[i + 1] == rest[i]);
        }
        bytes::lemma_find(state.path, SLASH, state.end + 1);
        lemma_nothing_made(state.next(ret, errno).0, state.end + 1, mode, system, t);
    }
}

/// Where a path was made with its parents, making it again succeeds, with any mode, and changes
/// nothing: each directory is asked for again, and exists.
pub proof fn law_made_again_changes_nothing<T>(
    path: Seq<u8>,
    system: System<T>,
    t: T,
    first_mode: u32,
    second_mode: u32,
)
    requires
        system.is_regular(),
        run_in(MkdirsState::start(path), first_mode, system, t).2 is Ok,
    ensures
        ({
            let made = run_in(MkdirsState::start(path), first_mode, system, t).0;
            run_in(MkdirsState::start(path), second_mode, system, made) == (
                made,
                lineage(path),
                Ok::<(), FileError>(()),
            )
        }),
{
    let start = MkdirsState::start(path);
    let made = run_in(start, first_mode, system, t).0;
    lemma_all_made(start, 1, first_mode, system, t);
    lemma_nothing_made(start, 1, second_mode, system, made);
    assert(to_make(path, 1) =~= lineage(path));
}

/// A path is taken whole, if it fits with its NUL byte in 4096 bytes, and else its first 4095
/// bytes are taken. No byte of it matters for that.
pub proof fn law_path_is_taken_whole(path: Seq<u8>)
    requires
        bytes::is_cstr(path),
    ensures
        path.len() <= 4096 ==> cut_path(path) == path.drop_last(),
        path.len() > 4096 ==> cut_path(path) == path.take(4095),
{
    if path.len() <= 4096 {
        assert(cut_path(path) =~= path.drop_last());
    }
}

/// A call of `mkdir` is a failure just if it returns a negative number and leaves another number
/// than that of `EEXIST`, 17, in `errno`.
pub proof fn law_only_existing_is_passed_over(ret: i32, errno: i32)
    ensures
        is_made(ret, errno) <==> ret >= 0 || errno == 17,
{
}

/// What is made for a path that fits. The work succeeds just if no call of `mkdir` fails, but for
/// directories that exist already. Then the last directory made is the path that was given, and
/// the others are just those parts of it that a slash ends, but for a slash at its start, each
/// before every longer one. Else the work ends with the first failure, which is its result.
pub proof fn law_mkdirs_makes_the_path(path: Seq<u8>, outcomes: Outcomes)
    requires
        bytes::is_cstr(path),
        path.len() <= 4096,
    ensures
        ({
            let (dirs, result) = run(MkdirsState::start(cut_path(path)), outcomes, 0);
            &&& dirs.len() > 0
            &&& result is Ok <==> forall|j: nat|
                j < dirs.len() ==> (#[trigger] outcomes(j)).0 >= 0 || outcomes(j).1 == 17
            &&& result is Ok ==> dirs.last() == path
            &&& result is Ok ==> forall|k: int|
                1 <= k < path.len() - 1 && #[trigger] path[k] == 47 ==> dirs.contains(
                    path.take(k).push(0),
                )
            &&& forall|i: int|
                0 <= i < dirs.len() ==> {
                    let k = (#[trigger] dirs[i]).len() - 1;
                    ||| dirs[i] == path
                    ||| 1 <= k < path.len() - 1 && path[k] == 47 && dirs[i] == path.take(k).push(0)
                }
            &&& forall|i: int, j: int|
                0 <= i < j < dirs.len() ==> (#[trigger] dirs[i]).len() < (#[trigger] dirs[j]).len()
            &&& result is Err ==> {
                let (ret, errno) = outcomes((dirs.len() - 1) as nat);
                &&& ret < 0 && errno != 17
                &&& result->Err_0 == FileError::Os(errno)
                &&& forall|j: nat|
                    j < dirs.len() - 1 ==> (#[trigger] outcomes(j)).0 >= 0 || outcomes(j).1 == 17
            }
        }),
{
    law_path_is_taken_whole(path);
    let text = path.drop_last();
    law_mkdirs_in_order(text, outcomes);
    law_lineage_is_every_parent(text);
    let (dirs, result) = run(MkdirsState::start(text), outcomes, 0);
    let all = lineage(text);
    assert(text.push(NUL) =~= path);
    assert(forall|i: int| 0 <= i < dirs.len() ==> dirs[i] == all[i]);
    assert forall|k: int| 1 <= k < path.len() - 1 implies #[trigger] path.take(k) == text.take(
        k,
    ) by {
        assert(path.take(k) =~= text.take(k));
    }
    if result is Ok {
        assert forall|k: int| 1 <= k < path.len() - 1 && #[trigger] path[k]
            == 47 implies dirs.contains(path.take(k).push(0)) by {
            assert(text[k] == SLASH);
        }
    }
    assert forall|i: int| 0 <= i < dirs.len() implies {
        let k = (#[trigger] dirs[i]).len() - 1;
        ||| dirs[i] == path
        ||| 1 <= k < path.len() - 1 && path[k] == 47 && dirs[i] == path.take(k).push(0)
    } by {
        if i < all.len() - 1 {
            assert(dirs[i] == all[i]);
            let k = all[i].len() - 1;
            assert(text[k] == path[k]);
        }
    }
    assert forall|i: int, j: int| 0 <= i < j < dirs.len() implies (#[trigger] dirs[i]).len() < (
    #[trigger] dirs[j]).len() by {
        assert(dirs[i] == all[i] && dirs[j] == all[j]);
    }
}

} // verus!
