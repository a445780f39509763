//! Symbolic links: reading one, the link of a descriptor, and the path that it leads to.

use vstd::prelude::*;

use crate::abi;
use crate::bytes;
use crate::bytes::NUL;
use crate::error::FileError;
use crate::dir::Directory;
use crate::stat::Stat;

verus! {

/// How many bytes of a link may be read to a buffer of `bufsz` bytes: one is kept for the NUL.
pub fn readlink_room(bufsz: usize) -> (r: usize)
    requires
        bufsz > 0,
    ensures
        r == bufsz - 1,
{
    bufsz - 1
}

/// Ends the link that `readlink` has put in `buf` by a NUL byte. `ret` is what the call
/// returned: the length of the link, or a negative number, which leaves `buf` as it is.
pub fn readlink_unsafe(ret: isize, buf: &mut [u8]) -> (r: isize)
    requires
        ret < old(buf)@.len(),
    ensures
        r == ret,
        final(buf)@ == (if ret >= 0 {
            old(buf)@.update(ret as int, NUL)
        } else {
            old(buf)@
        }),
{
    if ret >= 0 {
        buf[ret as usize] = NUL;
    }
    ret
}

/// As [`readlink_unsafe`], but gives the length of the link, or the failure told by `errno`.
pub fn readlink(ret: isize, errno: i32, data: &mut [u8]) -> (r: Result<usize, FileError>)
    requires
        ret < old(data)@.len(),
    ensures
        if ret >= 0 {
            &&& r is Ok
            &&& r->Ok_0 == ret
            &&& final(data)@ == old(data)@.update(ret as int, NUL)
        } else {
            &&& r == Err::<usize, FileError>(FileError::Os(errno))
            &&& final(data)@ == old(data)@
        },
{
    let r: isize = readlink_unsafe(ret, data);
    if r < 0 {
        Err(FileError::Os(errno))
    } else {
        Ok(r as usize)
    }
}

/// The digits of a number.
pub open spec fn digits(n: nat) -> Seq<u8>
    decreases n,
{
    if n < 10 {
        seq![(48 + n) as u8]
    } else {
        digits(n / 10).push((48 + n % 10) as u8)
    }
}

/// A number as it is written: its digits, with a minus sign before those of a negative one.
pub open spec fn decimal(n: int) -> Seq<u8> {
    if n < 0 {
        seq![45u8] + digits((-n) as nat)
    } else {
        digits(n as nat)
    }
}

/// Appends the digits of `n` to `out`.
fn push_digits(out: &mut Vec<u8>, n: u32)
    ensures
        final(out)@ == old(out)@ + digits(n as nat),
    decreases n,
{
    if n >= 10 {
        push_digits(out, n / 10);
    }
    out.push(48 + (n % 10) as u8);
    assert(out@ =~= old(out)@ + digits(n as nat));
}

/// The link of the descriptor `fd`, a C string.
pub open spec fn fd_link(fd: int) -> Seq<u8> {
    "/proc/self/fd/"@.map_values(|c: char| c as u8) + decimal(fd) + seq![NUL]
}

/// The link that leads to the path of the descriptor `fd`.
pub fn fd_path(fd: i32) -> (r: Vec<u8>)
    ensures
        r@ == fd_link(fd as int),
{
    broadcast use vstd::string::is_ascii_spec_bytes;

    let prefix: &str = "/proc/self/fd/";
    proof {
        reveal_strlit("/proc/self/fd/");
        assert(vstd::string::is_ascii(prefix));
    }
    let mut out: Vec<u8> = vstd::slice::slice_to_vec(prefix.as_bytes());
    assert(out@ =~= prefix@.map_values(|c: char| c as u8));
    if fd < 0 {
        out.push(45);
        push_digits(&mut out, (-(fd as i64)) as u32);
    } else {
        push_digits(&mut out, fd as u32);
    }
    out.push(NUL);
    assert(out@ =~= fd_link(fd as int));
    out
}

proof fn lemma_digits(n: nat)
    ensures
        digits(n).len() > 0,
        forall|i: int| 0 <= i < digits(n).len() ==> 48 <= #[trigger] digits(n)[i] <= 57,
        n < 10 ==> digits(n).len() == 1,
        n < 4294967296 ==> digits(n).len() <= 10,
    decreases n,
{
    reveal_with_fuel(digits, 11);
    if n >= 10 {
        lemma_digits(n / 10);
    }
}

/// The link of every descriptor is a C string that fits in a buffer of 40 bytes.
pub proof fn law_fd_link_fits(fd: i32)
    ensures
        bytes::is_cstr(fd_link(fd as int)),
        fd_link(fd as int).len() <= 40,
{
    reveal_strlit("/proc/self/fd/");
    let magnitude: nat = if fd < 0 {
        (-fd) as nat
    } else {
        fd as nat
    };
    lemma_digits(magnitude);
    let link = fd_link(fd as int);
    let prefix = "/proc/self/fd/"@.map_values(|c: char| c as u8);
    let number = decimal(fd as int);
    assert forall|i: int| 0 <= i < link.len() - 1 implies link[i] != NUL by {
        if i < prefix.len() {
            assert(link[i] == prefix[i]);
        } else {
            assert(link[i] == number[i - prefix.len()]);
        }
    }
}

/// The number that a row of digits stands for.
pub open spec fn number(s: Seq<u8>) -> int
    decreases s.len(),
{
    if s.len() == 0 {
        0
    } else {
        number(s.drop_last()) * 10 + (s.last() - 48)
    }
}

/// The digits of a number stand for that number.
pub proof fn law_digits_read_back(n: nat)
    ensures
        number(digits(n)) == n,
    decreases n,
{
    reveal_with_fuel(number, 2);
    if n < 10 {
        assert(digits(n).drop_last() =~= Seq::empty());
    } else {
        law_digits_read_back(n / 10);
        assert(digits(n).drop_last() =~= digits(n / 10));
    }
}

/// Different descriptors have different links.
pub proof fn law_fd_links_differ(a: i32, b: i32)
    requires
        a != b,
    ensures
        fd_link(a as int) != fd_link(b as int),
{
    if fd_link(a as int) == fd_link(b as int) {
        let prefix = "/proc/self/fd/"@.map_values(|c: char| c as u8);
        let end = fd_link(a as int).len() - 1;
        assert(fd_link(a as int).subrange(prefix.len() as int, end) =~= decimal(a as int));
        assert(fd_link(b as int).subrange(prefix.len() as int, end) =~= decimal(b as int));
        assert(decimal(a as int) == decimal(b as int));
        let m: nat = if a < 0 { (-a) as nat } else { a as nat };
        let n: nat = if b < 0 { (-b) as nat } else { b as nat };
        lemma_digits(m);
        lemma_digits(n);
        law_digits_read_back(m);
        law_digits_read_back(n);
        assert(decimal(a as int)[0] == 45 <==> a < 0);
        assert(decimal(b as int)[0] == 45 <==> b < 0);
        if a < 0 {
            assert(decimal(a as int).skip(1) =~= digits(m));
            assert(decimal(b as int).skip(1) =~= digits(n));
        }
    }
}

impl Directory {
    /// The link that leads to the path of the directory.
    pub fn path(&self) -> (r: Vec<u8>)
        ensures
            r@ == fd_link(self.fd as int),
    {
        fd_path(self.fd)
    }
}

/// What resolving a path has to do next.
#[derive(Clone, Copy, Debug, PartialEq, Eq)]
pub enum RealPathStep {
    /// Open the path with these flags.
    Open(i32),
    /// Ask for the status of this descriptor.
    Fstat(i32),
    /// Read the link of this descriptor, as `fd_path` gives it, to the buffer.
    Readlink(i32),
    /// Ask for the status of the path in the buffer.
    Stat,
    /// Nothing more: this is the length of the path in the buffer, or the failure.
    Finish(Result<usize, FileError>),
}

impl RealPathStep {
    /// The number that `errno` is to be set to after this step: that of the failure, which may
    /// come from comparing files and not from a call.
    pub open spec fn spec_errno_left(self) -> Option<i32> {
        match self {
            RealPathStep::Finish(Err(FileError::Os(code))) => Some(code),
            _ => None,
        }
    }

    /// The number that `errno` is to be set to, if it is not to stay as it is.
    pub fn errno_left(&self) -> (r: Option<i32>)
        ensures
            r == self.spec_errno_left(),
            match self {
                RealPathStep::Finish(Err(FileError::Os(code))) => r == Some(*code),
                _ => r is None,
            },
    {
        match self {
            RealPathStep::Finish(Err(FileError::Os(code))) => Some(*code),
            _ => None,
        }
    }
}

/// What came of a step. Of a failed status no more is told than that it failed.
#[derive(Clone, Copy, Debug, PartialEq, Eq)]
pub enum RealPathEvent {
    Opened(Result<i32, FileError>),
    Fstat(Option<Stat>),
    Readlink(Result<usize, FileError>),
    Stat(Option<Stat>),
}

/// The resolution of a path to the one that has no links in it.
///
/// The file is opened, its path is read from the link of the descriptor, and that path must lead
/// to the same file.
#[derive(Clone, Copy, Debug, PartialEq, Eq)]
pub enum RealPath {
    Opening,
    Identifying { fd: i32 },
    Reading { opened: Option<Stat> },
    Comparing { opened: Option<Stat>, len: usize },
    Finished,
}

impl RealPath {
    /// Whether the resolution waits for such an event.
    pub open spec fn awaits(self, event: RealPathEvent) -> bool {
        match event {
            RealPathEvent::Opened(_) => self is Opening,
            RealPathEvent::Fstat(_) => self is Identifying,
            RealPathEvent::Readlink(_) => self is Reading,
            RealPathEvent::Stat(_) => self is Comparing,
        }
    }

    /// The state and the step that follow an event.
    pub open spec fn next(self, event: RealPathEvent) -> (RealPath, RealPathStep) {
        match event {
            RealPathEvent::Opened(Err(e)) => (RealPath::Finished, RealPathStep::Finish(Err(e))),
            RealPathEvent::Opened(Ok(fd)) => (
                RealPath::Identifying { fd },
                RealPathStep::Fstat(fd),
            ),
            RealPathEvent::Fstat(opened) => (
                RealPath::Reading { opened },
                RealPathStep::Readlink(self->Identifying_fd),
            ),
            RealPathEvent::Readlink(Err(e)) => (RealPath::Finished, RealPathStep::Finish(Err(e))),
            RealPathEvent::Readlink(Ok(len)) => (
                RealPath::Comparing { opened: self->Reading_opened, len },
                RealPathStep::Stat,
            ),
            RealPathEvent::Stat(found) => (
                RealPath::Finished,
                RealPathStep::Finish(
                    compare_files(self->Comparing_opened, self->Comparing_len, found),
                ),
            ),
        }
    }

    /// Takes what came of the last step and says what to do next.
    pub fn step(&mut self, event: RealPathEvent) -> (r: RealPathStep)
        requires
            old(self).awaits(event),
        ensures
            (*final(self), r) == old(self).next(event),
    {
        let state: RealPath = *self;
        match (event, state) {
            (RealPathEvent::Opened(Ok(fd)), _) => {
                *self = RealPath::Identifying { fd };
                RealPathStep::Fstat(fd)
            },
            (RealPathEvent::Fstat(opened), RealPath::Identifying { fd }) => {
                *self = RealPath::Reading { opened };
                RealPathStep::Readlink(fd)
            },
            (RealPathEvent::Readlink(Ok(len)), RealPath::Reading { opened }) => {
                *self = RealPath::Comparing { opened, len };
                RealPathStep::Stat
            },
            (RealPathEvent::Stat(found), RealPath::Comparing { opened, len }) => {
                *self = RealPath::Finished;
                let same: bool = match (opened, found) {
                    (_, None) => false,
                    (None, Some(_)) => true,
                    (Some(a), Some(b)) => a.same_file(&b),
                };
                if same {
                    RealPathStep::Finish(Ok(len))
                } else {
                    RealPathStep::Finish(Err(FileError::Os(abi::enoent())))
                }
            },
            (RealPathEvent::Opened(Err(e)), _) | (RealPathEvent::Readlink(Err(e)), _) => {
                *self = RealPath::Finished;
                RealPathStep::Finish(Err(e))
            },
            _ => vstd::pervasive::unreached(),
        }
    }
}

/// The result for a path of `len` bytes that was read from the link of a file with status
/// `opened` and leads to one with status `found`. If the system could not tell the first, any
/// file will do.
pub open spec fn compare_files(opened: Option<Stat>, len: usize, found: Option<Stat>) -> Result<
    usize,
    FileError,
> {
    match (opened, found) {
        (_, None) => Err(FileError::Os(abi::spec_enoent())),
        (None, Some(_)) => Ok(len),
        (Some(a), Some(b)) => if a.spec_same_file(b) {
            Ok(len)
        } else {
            Err(FileError::Os(abi::spec_enoent()))
        },
    }
}

/// Begins to resolve a path, where these are the flags to open a place in the file tree only and
/// to close on `exec`.
pub fn realpath_with(path: i32, cloexec: i32) -> (r: (RealPath, RealPathStep))
    ensures
        r == (RealPath::Opening, RealPathStep::Open(path | cloexec)),
{
    (RealPath::Opening, RealPathStep::Open(path | cloexec))
}

/// Begins to resolve a path.
pub fn realpath() -> (r: (RealPath, RealPathStep))
    ensures
        r.0 is Opening,
        exists|path: i32, cloexec: i32| #[trigger]
            abi::is_o_path(path) && #[trigger] abi::is_o_cloexec(cloexec) && r.1
                == RealPathStep::Open(path | cloexec),
{
    realpath_with(abi::o_path(), abi::o_cloexec())
}

/// What resolving a path comes to, from what its steps come to: the first failure, or the
/// comparison at the end.
pub open spec fn resolved(
    opened: Result<i32, FileError>,
    status: Option<Stat>,
    link: Result<usize, FileError>,
    found: Option<Stat>,
) -> Result<usize, FileError> {
    match (opened, link) {
        (Err(e), _) => Err(e),
        (Ok(_), Err(e)) => Err(e),
        (Ok(_), Ok(len)) => compare_files(status, len, found),
    }
}

/// Whether a resolution in this state waits for what comes of `step`.
pub open spec fn is_asked(state: RealPath, step: RealPathStep) -> bool {
    match step {
        RealPathStep::Open(_) => state is Opening,
        RealPathStep::Fstat(fd) => state == (RealPath::Identifying { fd }),
        RealPathStep::Readlink(_) => state is Reading,
        RealPathStep::Stat => state is Comparing,
        RealPathStep::Finish(_) => state is Finished,
    }
}

/// A resolution opens the path, asks for the status of that descriptor, reads the link of that
/// descriptor and asks for the status of what it read, in this order and up to the first failure.
/// It comes to [`resolved`].
pub proof fn law_realpath_in_order(
    opened: Result<i32, FileError>,
    status: Option<Stat>,
    link: Result<usize, FileError>,
    found: Option<Stat>,
)
    ensures
        ({
            let (s1, a1) = RealPath::Opening.next(RealPathEvent::Opened(opened));
            let (s2, a2) = s1.next(RealPathEvent::Fstat(status));
            let (s3, a3) = s2.next(RealPathEvent::Readlink(link));
            let (s4, a4) = s3.next(RealPathEvent::Stat(found));
            let end = RealPathStep::Finish(resolved(opened, status, link, found));
            &&& is_asked(s1, a1)
            &&& opened is Err ==> a1 == end
            &&& opened is Ok ==> {
                &&& a1 == RealPathStep::Fstat(opened->Ok_0)
                &&& a2 == RealPathStep::Readlink(opened->Ok_0)
                &&& is_asked(s2, a2)
                &&& is_asked(s3, a3)
                &&& link is Err ==> a3 == end
                &&& link is Ok ==> a3 == RealPathStep::Stat && a4 == end && is_asked(s4, a4)
            }
        }),
{
}

/// A path is given back only if it was opened, its link was read and what was read leads to a
/// file, the one that was opened if the system could tell.
pub proof fn law_realpath_is_checked(
    opened: Result<i32, FileError>,
    status: Option<Stat>,
    link: Result<usize, FileError>,
    found: Option<Stat>,
    len: usize,
)
    ensures
        resolved(opened, status, link, found) == Ok::<usize, FileError>(len) <==> {
            &&& opened is Ok
            &&& link == Ok::<usize, FileError>(len)
            &&& found is Some
            &&& status is Some ==> status->Some_0.spec_same_file(found->Some_0)
        },
{
}

/// What is in `errno` after a resolution came to `result`, its last call having left `errno`
/// there.
pub open spec fn errno_after(result: Result<usize, FileError>, errno: i32) -> i32 {
    match RealPathStep::Finish(result).spec_errno_left() {
        Some(code) => code,
        None => errno,
    }
}

/// After a resolution that failed, `errno` tells the failure. So it is `ENOENT` where the path
/// that was read does not lead to the file that was opened, whatever the last call left there.
/// After one that succeeded it is as the last call left it.
pub proof fn law_errno_tells_the_failure(
    opened: Result<i32, FileError>,
    status: Option<Stat>,
    link: Result<usize, FileError>,
    found: Option<Stat>,
    errno: i32,
)
    ensures
        ({
            let result = resolved(opened, status, link, found);
            let left = errno_after(result, errno);
            &&& result matches Err(FileError::Os(code)) ==> left == code
            &&& result is Ok ==> left == errno
            &&& opened is Ok && link is Ok && (found is None || (status is Some
                && !status->Some_0.spec_same_file(found->Some_0))) ==> result is Err && left
                == abi::spec_enoent()
        }),
{
}

/// What the system answers while a path is resolved: the descriptor that opening a path gives, the
/// status of a descriptor and what its link holds, and the status of a path. Paths are C strings.
pub struct Answers {
    pub open: spec_fn(Seq<u8>) -> Result<i32, FileError>,
    pub fstat: spec_fn(i32) -> Option<Stat>,
    pub link: spec_fn(i32) -> Result<Seq<u8>, FileError>,
    pub stat: spec_fn(Seq<u8>) -> Option<Stat>,
}

/// How many bytes `readlink` gives of a link that it reads to a buffer with this room.
pub open spec fn link_fit(room: int, link: Seq<u8>) -> int {
    if link.len() < room {
        link.len() as int
    } else {
        room - 1
    }
}

/// What is in the buffer `buf` once a link was read to it and ended: the link, as far as there is
/// room, and a NUL byte.
pub open spec fn linked(buf: Seq<u8>, link: Seq<u8>) -> Seq<u8> {
    let n = link_fit(buf.len() as int, link);
    (link.take(n) + buf.skip(n)).update(n, NUL)
}

/// A resolution under way: its state, the step that it asks for, and the buffer.
pub struct Resolution {
    pub state: RealPath,
    pub step: RealPathStep,
    pub buf: Seq<u8>,
}

impl Resolution {
    /// The start of a resolution that opens with these flags.
    pub open spec fn start(flags: i32, buf: Seq<u8>) -> Resolution {
        Resolution { state: RealPath::Opening, step: RealPathStep::Open(flags), buf }
    }

    /// Hands an event to the resolution.
    pub open spec fn tell(self, event: RealPathEvent) -> Resolution {
        let (state, step) = self.state.next(event);
        Resolution { state, step, ..self }
    }

    /// Does what the resolution of `path` asks for.
    pub open spec fn advance(self, path: Seq<u8>, answers: Answers) -> Resolution {
        match self.step {
            RealPathStep::Open(_) => self.tell(RealPathEvent::Opened((answers.open)(path))),
            RealPathStep::Fstat(fd) => self.tell(RealPathEvent::Fstat((answers.fstat)(fd))),
            RealPathStep::Readlink(fd) => match (answers.link)(fd) {
                Err(e) => self.tell(RealPathEvent::Readlink(Err(e))),
                Ok(link) => {
                    let len = link_fit(self.buf.len() as int, link) as usize;
                    Resolution { buf: linked(self.buf, link), ..self }.tell(
                        RealPathEvent::Readlink(Ok(len)),
                    )
                },
            },
            RealPathStep::Stat => self.tell(
                RealPathEvent::Stat((answers.stat)(bytes::leading_cstr(self.buf))),
            ),
            RealPathStep::Finish(_) => self,
        }
    }
}

/// What resolving `path` comes to, and the buffer after it. A resolution has four steps at most.
pub open spec fn resolve(flags: i32, path: Seq<u8>, buf: Seq<u8>, answers: Answers) -> (
    Result<usize, FileError>,
    Seq<u8>,
) {
    let end = Resolution::start(flags, buf).advance(path, answers).advance(path, answers).advance(
        path,
        answers,
    ).advance(path, answers);
    (end.step->Finish_0, end.buf)
}

/// Whether two statuses tell of one file, or there is neither.
pub open spec fn same_status(a: Option<Stat>, b: Option<Stat>) -> bool {
    match (a, b) {
        (Some(a), Some(b)) => a.spec_same_file(b),
        (None, None) => true,
        _ => false,
    }
}

/// A resolution ends after its fourth step at the latest, with the result of [`resolved`].
pub proof fn law_resolution_ends(flags: i32, path: Seq<u8>, buf: Seq<u8>, answers: Answers)
    ensures
        ({
            let end = Resolution::start(flags, buf).advance(path, answers).advance(
                path,
                answers,
            ).advance(path, answers).advance(path, answers);
            let opened = (answers.open)(path);
            let link = (answers.link)(opened->Ok_0);
            &&& end.step is Finish
            &&& end.buf == (if opened is Ok && link is Ok {
                linked(buf, link->Ok_0)
            } else {
                buf
            })
            &&& end.step->Finish_0 == resolved(
                opened,
                (answers.fstat)(opened->Ok_0),
                match link {
                    Ok(link) => Ok(link_fit(buf.len() as int, link) as usize),
                    Err(e) => Err(e),
                },
                (answers.stat)(bytes::leading_cstr(linked(buf, link->Ok_0))),
            )
        }),
{
}

/// Whether reading either of two links to a buffer with this room gives the same.
pub open spec fn same_as_read(room: int, a: Seq<u8>, b: Seq<u8>) -> bool {
    &&& link_fit(room, a) == link_fit(room, b)
    &&& a.take(link_fit(room, a)) == b.take(link_fit(room, b))
}

/// To resolve a path that was resolved gives it again: if the system opens the same file by it as
/// it did before, with a link that reads the same as far as there is room, and tells the same of
/// the path, then the length and the bytes are those of the first time.
///
/// A link holds no NUL byte. The two buffers have the same length, and hold at least one byte.
pub proof fn law_resolved_path_resolves_to_itself(
    flags: i32,
    path: Seq<u8>,
    first_buf: Seq<u8>,
    first: Answers,
    second_buf: Seq<u8>,
    second: Answers,
)
    requires
        0 < first_buf.len() <= usize::MAX,
        second_buf.len() == first_buf.len(),
        resolve(flags, path, first_buf, first).0 is Ok,
        forall|fd: i32|
            (#[trigger] (first.link)(fd)) matches Ok(link) ==> !link.contains(NUL),
        ({
            let again = bytes::leading_cstr(resolve(flags, path, first_buf, first).1);
            let (a, b) = ((first.open)(path), (second.open)(again));
            &&& b is Ok
            &&& same_status((first.fstat)(a->Ok_0), (second.fstat)(b->Ok_0))
            &&& (second.link)(b->Ok_0) is Ok
            &&& same_as_read(
                first_buf.len() as int,
                (first.link)(a->Ok_0)->Ok_0,
                (second.link)(b->Ok_0)->Ok_0,
            )
            &&& (second.stat)(again) == (first.stat)(again)
        }),
    ensures
        ({
            let (found, buf) = resolve(flags, path, first_buf, first);
            let again = bytes::leading_cstr(buf);
            let (found_again, buf_again) = resolve(flags, again, second_buf, second);
            &&& found->Ok_0 < first_buf.len()
            &&& again == buf.take(found->Ok_0 + 1)
            &&& found_again == found
            &&& buf_again.take(found->Ok_0 + 1) == buf.take(found->Ok_0 + 1)
        }),
{
    law_resolution_ends(flags, path, first_buf, first);
    let (found, buf) = resolve(flags, path, first_buf, first);
    let again = bytes::leading_cstr(buf);
    law_resolution_ends(flags, again, second_buf, second);
    let link = (first.link)((first.open)(path)->Ok_0)->Ok_0;
    let n = link_fit(first_buf.len() as int, link);
    lemma_linked(first_buf, link);
    let link_again = (second.link)((second.open)(again)->Ok_0)->Ok_0;
    assert forall|i: int| 0 <= i < n implies link_again[i] != NUL by {
        assert(link_again.take(n)[i] == link.take(n)[i]);
    }
    lemma_linked(second_buf, link_again);
    assert(found->Ok_0 == n);
}

/// A buffer that a link was read to begins with the link, as far as there is room, as a C string.
proof fn lemma_linked(buf: Seq<u8>, link: Seq<u8>)
    requires
        0 < buf.len(),
        forall|i: int| 0 <= i < link_fit(buf.len() as int, link) ==> link[i] != NUL,
    ensures
        ({
            let n = link_fit(buf.len() as int, link);
            &&& 0 <= n < buf.len()
            &&& linked(buf, link).take(n + 1) == link.take(n).push(NUL)
            &&& bytes::leading_cstr(linked(buf, link)) == link.take(n).push(NUL)
        }),
{
    let n = link_fit(buf.len() as int, link);
    let out = linked(buf, link);
    assert(out.take(n + 1) =~= link.take(n).push(NUL));
    bytes::lemma_find(out, NUL, 0);
    assert(out[n] == NUL);
    assert forall|i: int| 0 <= i < n implies out[i] != NUL by {
        assert(out[i] == link[i]);
    }
}

/// The digits of a number come from those of the number without its last digit, with that digit
/// after them. A number below ten has one digit.
pub proof fn law_digits_one_by_one(n: nat, last: nat)
    requires
        last < 10,
    ensures
        n > 0 ==> digits(10 * n + last) == digits(n).push((48 + last) as u8),
        digits(last) == seq![(48 + last) as u8],
        n > 0 ==> decimal(-(n as int)) == seq![45u8] + digits(n),
        decimal(n as int) == digits(n),
{
}

/// The link of a descriptor is the text `/proc/self/fd/`, the number of the descriptor and a NUL
/// byte.
pub proof fn law_fd_link_is_spelt(fd: i32)
    ensures
        fd_link(fd as int) == seq![
            47u8, 112u8, 114u8, 111u8, 99u8, 47u8, 115u8, 101u8, 108u8, 102u8, 47u8, 102u8, 100u8, 47u8,
        ] + decimal(fd as int) + seq![0u8],
{
    reveal_strlit("/proc/self/fd/");
    assert("/proc/self/fd/"@.map_values(|c: char| c as u8) =~= seq![
        47u8, 112u8, 114u8, 111u8, 99u8, 47u8, 115u8, 101u8, 108u8, 102u8, 47u8, 102u8, 100u8, 47u8,
    ]);
}

/// What resolving a path comes to, by what the system answers. A failure to open it or to read
/// the link of its descriptor is the result. Else the result is the length of the link, if what
/// was read leads to a file, and if that has the device and the number of the one that was opened,
/// whatever those are, or the system could not tell them. It is `ENOENT`, 2, in every other case.
pub proof fn law_realpath_by_device_and_number(
    opened: Result<i32, FileError>,
    status: Option<Stat>,
    link: Result<usize, FileError>,
    found: Option<Stat>,
)
    ensures
        ({
            let (s1, a1) = RealPath::Opening.next(RealPathEvent::Opened(opened));
            let (s2, a2) = s1.next(RealPathEvent::Fstat(status));
            let (s3, a3) = s2.next(RealPathEvent::Readlink(link));
            let (s4, a4) = s3.next(RealPathEvent::Stat(found));
            match opened {
                Err(e) => a1 == RealPathStep::Finish(Err(e)),
                Ok(fd) => {
                    &&& a1 == RealPathStep::Fstat(fd)
                    &&& a2 == RealPathStep::Readlink(fd)
                    &&& match link {
                        Err(e) => a3 == RealPathStep::Finish(Err(e)),
                        Ok(len) => {
                            &&& a3 is Stat
                            &&& a4 == RealPathStep::Finish(
                                match (status, found) {
                                    (_, None) => Err(FileError::Os(2)),
                                    (None, Some(_)) => Ok(len),
                                    (Some(a), Some(b)) => if a.st_dev == b.st_dev && a.st_ino
                                        == b.st_ino {
                                        Ok(len)
                                    } else {
                                        Err(FileError::Os(2))
                                    },
                                },
                            )
                        },
                    }
                },
            }
        }),
{
}

/// A resolution takes what comes of the step that it asked for, whatever that is.
pub proof fn law_any_resolution_outcome_is_taken(
    state: RealPath,
    opened: Result<i32, FileError>,
    status: Option<Stat>,
    link: Result<usize, FileError>,
    found: Option<Stat>,
)
    ensures
        state.awaits(RealPathEvent::Opened(opened)) <==> state is Opening,
        state.awaits(RealPathEvent::Fstat(status)) <==> state is Identifying,
        state.awaits(RealPathEvent::Readlink(link)) <==> state is Reading,
        state.awaits(RealPathEvent::Stat(found)) <==> state is Comparing,
{
}

} // verus!
