//! Directories and their entries.
//!
//! The system calls themselves are the caller's. A method says which call to make, or takes what
//! a call gave back and says what follows from it.

use vstd::prelude::*;

use crate::abi;
use crate::bytes;
use crate::bytes::{DOT, NUL, SLASH};
use crate::error::FileError;

verus! {

/// An open directory, known by its file descriptor.
#[derive(Clone, Copy, Debug, PartialEq, Eq, Structural)]
pub struct Directory {
    pub fd: i32,
}

/// An entry of a directory.
#[derive(Debug)]
pub struct DirEntry {
    dir: Directory,
    d_name: Vec<u8>,
    d_type: u8,
}

/// A call of `unlinkat`.
#[derive(Clone, Copy, Debug)]
pub struct UnlinkAt<'a> {
    pub dirfd: i32,
    pub name: &'a [u8],
    pub flags: i32,
}

/// A call of `openat`.
#[derive(Clone, Copy, Debug)]
pub struct OpenAt<'a> {
    pub dirfd: i32,
    pub name: &'a [u8],
    pub flags: i32,
}

/// A call of `readdir` on the stream of a directory, with `errno` set to this number before it.
#[derive(Clone, Copy, Debug, PartialEq, Eq, Structural)]
pub struct Readdir {
    pub fd: i32,
    pub errno: i32,
}

/// What one `readdir` came to.
#[derive(Debug)]
pub enum DirRead {
    /// `.` or `..`: these are passed over, so read again.
    Again,
    /// There are no more entries.
    End,
    /// The next entry.
    Entry(DirEntry),
}

/// Whether the C string `name` is `.` or `..`.
pub open spec fn is_dots(name: Seq<u8>) -> bool {
    name == seq![DOT, NUL] || name == seq![DOT, DOT, NUL]
}

/// What one `readdir` is taken for, a failure included.
pub enum Seen {
    Again,
    End,
    Entry { dir: Directory, name: Seq<u8>, kind: u8 },
    Failed(FileError),
}

/// What a result of [`Directory::read`] says.
pub open spec fn seen(r: Result<DirRead, FileError>) -> Seen {
    match r {
        Ok(DirRead::Again) => Seen::Again,
        Ok(DirRead::End) => Seen::End,
        Ok(DirRead::Entry(entry)) => Seen::Entry {
            dir: entry.dir(),
            name: entry.name(),
            kind: entry.kind(),
        },
        Err(e) => Seen::Failed(e),
    }
}

impl DirEntry {
    /// The directory that the entry belongs to.
    pub closed spec fn dir(&self) -> Directory {
        self.dir
    }

    /// The entry's name, a C string.
    pub closed spec fn name(&self) -> Seq<u8> {
        self.d_name@
    }

    /// The kind of the entry, as `readdir` gives it.
    pub closed spec fn kind(&self) -> u8 {
        self.d_type
    }

    #[verifier::type_invariant]
    spec fn well_formed(&self) -> bool {
        bytes::is_cstr(self.d_name@)
    }

    /// Whether the entry is a directory.
    pub open spec fn spec_is_dir(&self) -> bool {
        self.kind() == abi::spec_dt_dir()
    }

    /// What `path` leaves in a buffer whose first `len` bytes are the path of the directory.
    pub open spec fn path_in(&self, buf: Seq<u8>, len: int) -> Seq<u8> {
        buf.take(len) + seq![SLASH] + bytes::cstr_copied(buf.skip(len + 1), self.name())
    }

    /// The name of the entry with its NUL byte.
    pub fn d_name(&self) -> (r: &[u8])
        ensures
            r@ == self.name(),
            bytes::is_cstr(r@),
    {
        proof {
            use_type_invariant(self);
        }
        self.d_name.as_slice()
    }

    /// Writes the path of the entry to `buf`, which begins with the path of its directory.
    ///
    /// `dir_len` is what asking for the path of the directory came to: its length in `buf`, NUL
    /// not counted. A failure of that is passed on. The path is cut to what fits in `buf`.
    /// Returns the length of the path, NUL not counted.
    pub fn path(&self, buf: &mut [u8], dir_len: Result<usize, FileError>) -> (r: Result<
        usize,
        FileError,
    >)
        requires
            dir_len matches Ok(len) ==> len < old(buf)@.len(),
        ensures
            match dir_len {
                Err(e) => r == Err::<usize, FileError>(e) && final(buf)@ == old(buf)@,
                Ok(len) => {
                    &&& final(buf)@ == self.path_in(old(buf)@, len as int)
                    &&& r is Ok
                    &&& r->Ok_0 == len + 1 + bytes::cstr_fit(
                        old(buf)@.len() - len - 1,
                        self.name().len() as int,
                    )
                    &&& final(buf)@.len() == old(buf)@.len()
                    &&& forall|i: int| 0 <= i < len ==> final(buf)@[i] == old(buf)@[i]
                    &&& final(buf)@[len as int] == 47
                    &&& len + 1 + self.name().len() <= old(buf)@.len() ==> r->Ok_0 == len
                        + self.name().len()
                    &&& len + 1 + self.name().len() > old(buf)@.len() && len + 1
                        < old(buf)@.len() ==> r->Ok_0 == old(buf)@.len() - 1
                    &&& len + 1 == old(buf)@.len() ==> r->Ok_0 == len + 1
                    &&& forall|i: int|
                        len < i < r->Ok_0 ==> final(buf)@[i] == self.name()[i - len - 1]
                    &&& r->Ok_0 < old(buf)@.len() ==> final(buf)@[r->Ok_0 as int] == 0
                    &&& forall|i: int|
                        r->Ok_0 < i < old(buf)@.len() ==> final(buf)@[i] == old(buf)@[i]
                },
            },
    {
        proof {
            use_type_invariant(self);
        }
        match dir_len {
            Err(e) => Err(e),
            Ok(len) => {
                let ghost before = buf@;
                buf[len] = SLASH;
                let (head, tail) = buf.split_at_mut(len + 1);
                assert(tail@ =~= before.skip(len + 1));
                let n: usize = bytes::copy_cstr(tail, self.d_name.as_slice());
                proof {
                    bytes::law_copy_is_terminated(before.skip(len + 1), self.name());
                }
                assert(buf@ =~= self.path_in(before, len as int));
                Ok(len + 1 + n)
            },
        }
    }

    /// Whether the entry is a directory.
    pub fn is_dir(&self) -> (r: bool)
        ensures
            r == self.spec_is_dir(),
            r == (self.kind() == 4),
    {
        self.d_type == abi::dt_dir()
    }

    /// Whether the entry is a regular file.
    pub fn is_file(&self) -> (r: bool)
        ensures
            r == (self.kind() == abi::spec_dt_reg()),
            r == (self.kind() == 8),
    {
        self.d_type == abi::dt_reg()
    }

    /// Whether the entry is a symbolic link.
    pub fn is_lnk(&self) -> (r: bool)
        ensures
            r == (self.kind() == abi::spec_dt_lnk()),
            r == (self.kind() == 10),
    {
        self.d_type == abi::dt_lnk()
    }

    /// The call that removes the entry. A directory has to be asked for as one.
    pub fn unlink(&self) -> (r: UnlinkAt<'_>)
        ensures
            r.dirfd == self.dir().fd,
            r.name@ == self.name(),
            r.flags == (if self.spec_is_dir() {
                abi::spec_at_removedir()
            } else {
                0
            }),
            r.flags == (if self.kind() == 4 {
                0x200i32
            } else {
                0
            }),
    {
        let flags: i32 = if self.is_dir() {
            abi::at_removedir()
        } else {
            0
        };
        UnlinkAt { dirfd: self.dir.fd, name: self.d_name.as_slice(), flags }
    }

    /// The call that opens the entry, which must be a directory, to be read.
    pub fn open_as_dir(&self) -> (r: Result<OpenAt<'_>, FileError>)
        ensures
            !self.spec_is_dir() ==> r == Err::<OpenAt<'_>, FileError>(FileError::NotADirectory),
            self.spec_is_dir() ==> {
                &&& r is Ok
                &&& r->Ok_0.dirfd == self.dir().fd
                &&& r->Ok_0.name@ == self.name()
                &&& exists|cloexec: i32| #[trigger]
                    abi::is_o_cloexec(cloexec) && r->Ok_0.flags
                        == abi::spec_o_rdonly() | cloexec
            },
            r is Ok <==> self.kind() == 4,
            r is Err ==> r->Err_0 == FileError::NotADirectory,
            r is Ok ==> r->Ok_0.flags == 0i32 | 0x80000i32 || r->Ok_0.flags == 0i32 | 0x400000i32,
    {
        if !self.is_dir() {
            return Err(FileError::NotADirectory);
        }
        Ok(self.open_at(abi::o_rdonly(), abi::o_cloexec()))
    }

    /// The call that opens the entry, which must not be a directory, with `flags`.
    pub fn open_as_file(&self, flags: i32) -> (r: Result<OpenAt<'_>, FileError>)
        ensures
            self.spec_is_dir() ==> r == Err::<OpenAt<'_>, FileError>(FileError::IsADirectory),
            !self.spec_is_dir() ==> {
                &&& r is Ok
                &&& r->Ok_0.dirfd == self.dir().fd
                &&& r->Ok_0.name@ == self.name()
                &&& exists|cloexec: i32| #[trigger]
                    abi::is_o_cloexec(cloexec) && r->Ok_0.flags == flags | cloexec
            },
            r is Ok <==> self.kind() != 4,
            r is Err ==> r->Err_0 == FileError::IsADirectory,
            r is Ok ==> r->Ok_0.flags == flags | 0x80000i32 || r->Ok_0.flags == flags
                | 0x400000i32,
    {
        if self.is_dir() {
            return Err(FileError::IsADirectory);
        }
        Ok(self.open_at(flags, abi::o_cloexec()))
    }

    /// The call that opens the entry with `flags` and the flag `cloexec`.
    pub fn open_at(&self, flags: i32, cloexec: i32) -> (r: OpenAt<'_>)
        ensures
            r.dirfd == self.dir().fd,
            r.name@ == self.name(),
            r.flags == flags | cloexec,
    {
        OpenAt { dirfd: self.dir.fd, name: self.d_name.as_slice(), flags: flags | cloexec }
    }
}

/// A name that fits is written whole: the buffer then begins with the path of the directory, a
/// slash and the name of the entry.
pub proof fn law_entry_path(entry: DirEntry, buf: Seq<u8>, len: int)
    requires
        bytes::is_cstr(entry.name()),
        0 <= len,
        len + 1 + entry.name().len() <= buf.len(),
        forall|i: int| 0 <= i < len ==> buf[i] != NUL,
    ensures
        bytes::leading_cstr(entry.path_in(buf, len)) == buf.take(len) + seq![SLASH] + entry.name(),
        entry.path_in(buf, len).len() == buf.len(),
{
    let out = entry.path_in(buf, len);
    let name = entry.name();
    let tail = buf.skip(len + 1);
    bytes::law_copy_reads_back(tail, name);
    let end = len + name.len();
    assert(out.take(end + 1) =~= buf.take(len) + seq![SLASH] + name);
    assert(out[end] == out.take(end + 1)[end]);
    assert forall|i: int| 0 <= i < end implies out[i] != NUL by {
        assert(out[i] == out.take(end + 1)[i]);
        if i > len {
            assert(out[i] == name[i - len - 1]);
        }
    }
    bytes::lemma_find(out, NUL, 0);
    assert(bytes::find(out, NUL, 0) == end);
}

impl Directory {
    /// Takes what opening a directory came to: the descriptor of the directory, or the failure.
    pub fn open(opened: Result<i32, FileError>) -> (r: Result<Directory, FileError>)
        ensures
            r == (match opened {
                Ok(fd) => Ok::<Directory, FileError>(Directory { fd }),
                Err(e) => Err(e),
            }),
    {
        match opened {
            Ok(fd) => Ok(Directory { fd }),
            Err(e) => Err(e),
        }
    }

    /// The call that reads on in the directory. `errno` is cleared before it.
    pub open spec fn spec_readdir(self) -> Readdir {
        Readdir { fd: self.fd, errno: 0 }
    }

    /// The call that reads on in the directory. `errno` is cleared before it, so that what is
    /// found there afterwards is the call's own.
    pub fn readdir(&self) -> (r: Readdir)
        ensures
            r == self.spec_readdir(),
            r.fd == self.fd,
            r.errno == 0,
    {
        Readdir { fd: self.fd, errno: 0 }
    }

    /// What a `readdir` that gave this name field and kind, or nothing, and left this `errno` is
    /// taken for.
    pub open spec fn spec_read(self, found: Option<(Seq<u8>, u8)>, errno: i32) -> Seen {
        match found {
            None => if errno != 0 {
                Seen::Failed(FileError::Os(errno))
            } else {
                Seen::End
            },
            Some((raw, kind)) => if is_dots(bytes::leading_cstr(raw)) {
                Seen::Again
            } else {
                Seen::Entry { dir: self, name: bytes::leading_cstr(raw), kind }
            },
        }
    }

    /// Takes what one `readdir` on the directory gave: the bytes of the entry's name field and
    /// its kind, or nothing. The call was that of [`Directory::readdir`], and `errno` is what it
    /// left there; it tells a failure from the end of the directory.
    ///
    /// The entries `.` and `..` are passed over.
    pub fn read(&self, found: Option<(&[u8], u8)>, errno: i32) -> (r: Result<DirRead, FileError>)
        requires
            found matches Some((raw, kind)) ==> raw@.contains(NUL),
        ensures
            seen(r) == self.spec_read(
                match found {
                    Some((raw, kind)) => Some((raw@, kind)),
                    None => None,
                },
                errno,
            ),
            match found {
                None => if errno != 0 {
                    r is Err && r->Err_0 == FileError::Os(errno)
                } else {
                    r matches Ok(DirRead::End)
                },
                Some((raw, kind)) => {
                    let name = bytes::leading_cstr(raw@);
                    if name == seq![46u8, 0u8] || name == seq![46u8, 46u8, 0u8] {
                        r matches Ok(DirRead::Again)
                    } else {
                        &&& r matches Ok(DirRead::Entry(entry))
                        &&& entry.dir() == self
                        &&& entry.name() == name
                        &&& entry.kind() == kind
                    }
                },
            },
    {
        match found {
            None => if errno != 0 {
                Err(FileError::Os(errno))
            } else {
                Ok(DirRead::End)
            },
            Some((raw, kind)) => {
                proof {
                    bytes::lemma_leading_cstr(raw@);
                }
                let end: usize = bytes::find_byte(raw, NUL, 0);
                assert(end < raw.len());
                let len: usize = end + 1;
                let name: &[u8] = vstd::slice::slice_subrange(raw, 0, len);
                assert(name@ =~= bytes::leading_cstr(raw@));
                let one: bool = len == 2 && name[0] == DOT;
                let two: bool = len == 3 && name[0] == DOT && name[1] == DOT;
                assert(one ==> name@ =~= seq![DOT, NUL]);
                assert(two ==> name@ =~= seq![DOT, DOT, NUL]);
                if one || two {
                    Ok(DirRead::Again)
                } else {
                    let d_name: Vec<u8> = vstd::slice::slice_to_vec(name);
                    Ok(DirRead::Entry(DirEntry { dir: *self, d_name, d_type: kind }))
                }
            },
        }
    }
}

/// What the stream of a directory holds: the name fields and the kinds that `readdir` gives one
/// after the other, and then the end, or the number of a failure.
pub struct Stream {
    pub found: Seq<(Seq<u8>, u8)>,
    pub failure: Option<i32>,
}

impl Stream {
    /// What call number `i` gives.
    pub open spec fn at(self, i: int) -> Option<(Seq<u8>, u8)> {
        if 0 <= i < self.found.len() {
            Some(self.found[i])
        } else {
            None
        }
    }

    /// What call number `i` leaves in `errno`: what was there before, unless it fails.
    pub open spec fn errno(self, i: int, call: Readdir) -> i32 {
        match self.failure {
            Some(code) => if i >= self.found.len() {
                code
            } else {
                call.errno
            },
            None => call.errno,
        }
    }
}

/// What is seen of `stream` from call number `i` on, once what is to be read again was read
/// again, and the number of the next call.
pub open spec fn read_from(dir: Directory, stream: Stream, i: int) -> (Seen, int)
    decreases stream.found.len() - i,
{
    let next = dir.spec_read(stream.at(i), stream.errno(i, dir.spec_readdir()));
    if next is Again && i < stream.found.len() {
        read_from(dir, stream, i + 1)
    } else {
        (next, i + 1)
    }
}

/// The names and kinds of the entries that are seen of `stream` from call number `i` on, and
/// what is seen at its end.
pub open spec fn read_all(dir: Directory, stream: Stream, i: int) -> (Seq<(Seq<u8>, u8)>, Seen)
    decreases stream.found.len() - i,
{
    let (next, j) = read_from(dir, stream, i);
    match next {
        Seen::Entry { dir: _, name, kind } if i < j <= stream.found.len() => {
            let (more, end) = read_all(dir, stream, j);
            (seq![(name, kind)] + more, end)
        },
        _ => (Seq::empty(), next),
    }
}

/// The names and kinds that `readdir` gave, but for those of `.` and `..`.
pub open spec fn listed(found: Seq<(Seq<u8>, u8)>) -> Seq<(Seq<u8>, u8)> {
    found.map_values(|f: (Seq<u8>, u8)| (bytes::leading_cstr(f.0), f.1)).filter(
        |f: (Seq<u8>, u8)| !is_dots(f.0),
    )
}

/// A number that was in `errno` before a `readdir` is never reported: where the call finds
/// nothing and leaves `errno` as it was, that is the end of the directory.
pub proof fn law_older_errno_is_not_reported(dir: Directory)
    ensures
        dir.spec_read(None, dir.spec_readdir().errno) == Seen::End,
{
}

/// Reading again after each `.` and `..` comes to the next other entry, or to the end: all that
/// is passed over is one of the two, and what it comes to is what `readdir` gave there.
pub proof fn law_only_dots_are_passed_over(dir: Directory, stream: Stream, i: int)
    requires
        0 <= i <= stream.found.len(),
    ensures
        ({
            let (next, j) = read_from(dir, stream, i);
            &&& i < j <= stream.found.len() + 1
            &&& forall|k: int|
                i <= k < j - 1 ==> is_dots(bytes::leading_cstr((#[trigger] stream.found[k]).0))
            &&& next == dir.spec_read(stream.at(j - 1), stream.errno(j - 1, dir.spec_readdir()))
            &&& !(next is Again)
            &&& next is Entry <==> j <= stream.found.len()
        }),
    decreases stream.found.len() - i,
{
    if i < stream.found.len() && is_dots(bytes::leading_cstr(stream.found[i].0)) {
        law_only_dots_are_passed_over(dir, stream, i + 1);
    }
}

/// The entries of a directory are all that `readdir` gives, in its order, without `.` and `..`.
/// After them comes the failure of `readdir`, if there is one, and else the end.
pub proof fn law_entries_are_all_but_dots(dir: Directory, stream: Stream, i: int)
    requires
        0 <= i <= stream.found.len(),
    ensures
        read_all(dir, stream, i).0 == listed(stream.found.skip(i)),
        read_all(dir, stream, i).1 == (match stream.failure {
            Some(code) => if code != 0 {
                Seen::Failed(FileError::Os(code))
            } else {
                Seen::End
            },
            None => Seen::End,
        }),
    decreases stream.found.len() - i,
{
    reveal_with_fuel(Seq::filter, 2);
    let rest = stream.found.skip(i);
    if i < stream.found.len() {
        law_only_dots_are_passed_over(dir, stream, i);
        law_entries_are_all_but_dots(dir, stream, i + 1);
        let name = |f: (Seq<u8>, u8)| (bytes::leading_cstr(f.0), f.1);
        let keep = |f: (Seq<u8>, u8)| !is_dots(f.0);
        let one = seq![name(stream.found[i])];
        let more = stream.found.skip(i + 1).map_values(name);
        assert(rest.map_values(name) =~= one + more);
        Seq::filter_distributes_over_add(one, more, keep);
        assert(one.drop_last() =~= Seq::empty());
        if is_dots(bytes::leading_cstr(stream.found[i].0)) {
            assert(one.filter(keep) =~= Seq::empty());
            assert(read_all(dir, stream, i) == read_all(dir, stream, i + 1));
            assert(Seq::<(Seq<u8>, u8)>::empty() + more.filter(keep) =~= more.filter(keep));
        } else {
            assert(one.filter(keep) =~= one);
        }
    } else {
        assert(listed(rest) =~= Seq::empty());
    }
}

/// Whether an entry is a directory, and so whether a walk enters it, is told by its kind alone:
/// two entries of one kind are both directories or neither, whatever their names and wherever
/// they are. The kind of a directory is 4.
pub proof fn law_directory_is_told_by_kind(a: DirEntry, b: DirEntry)
    ensures
        a.spec_is_dir() <==> a.kind() == 4,
        a.kind() == b.kind() ==> a.spec_is_dir() == b.spec_is_dir(),
{
}

/// A `readdir` that finds a name, a text without a NUL byte that one ends in the name field, is
/// an entry with just this name and this kind, unless the text is one dot or two dots. What comes
/// after the NUL byte, and what is in `errno`, does not matter.
pub proof fn law_found_is_entry_unless_dots(
    dir: Directory,
    text: Seq<u8>,
    rest: Seq<u8>,
    kind: u8,
    errno: i32,
)
    requires
        !text.contains(0),
    ensures
        ({
            let next = dir.spec_read(Some((text.push(0) + rest, kind)), errno);
            if text == seq![46u8] || text == seq![46u8, 46u8] {
                next is Again
            } else {
                next == (Seen::Entry { dir, name: text.push(0), kind })
            }
        }),
{
    bytes::law_leading_cstr_ends_at_nul(text, rest);
    let name = text.push(0);
    assert(seq![46u8].push(0) =~= seq![DOT, NUL]);
    assert(seq![46u8, 46u8].push(0) =~= seq![DOT, DOT, NUL]);
    assert(name.drop_last() =~= text);
    assert(seq![DOT, NUL].drop_last() =~= seq![46u8]);
    assert(seq![DOT, DOT, NUL].drop_last() =~= seq![46u8, 46u8]);
}

/// A `readdir` that finds nothing is a failure just if it left a number other than zero in
/// `errno`, and that number is the failure's. Else it is the end.
pub proof fn law_nothing_found_is_end_or_failure(dir: Directory, errno: i32)
    ensures
        errno == 0 ==> dir.spec_read(None, errno) is End,
        errno != 0 ==> dir.spec_read(None, errno) == Seen::Failed(FileError::Os(errno)),
        dir.spec_readdir().errno == 0,
        dir.spec_readdir().fd == dir.fd,
{
}

/// What is listed of a stream does not depend on how it is split: the entries of two streams put
/// together are those of one and then those of the other. A single name is listed, unless it is
/// one dot or two dots.
pub proof fn law_listed_name_by_name(
    a: Seq<(Seq<u8>, u8)>,
    b: Seq<(Seq<u8>, u8)>,
    text: Seq<u8>,
    rest: Seq<u8>,
    kind: u8,
)
    requires
        !text.contains(0),
    ensures
        listed(a + b) == listed(a) + listed(b),
        listed(seq![(text.push(0) + rest, kind)]) == (if text == seq![46u8] || text == seq![
            46u8,
            46u8,
        ] {
            Seq::empty()
        } else {
            seq![(text.push(0), kind)]
        }),
{
    reveal_with_fuel(Seq::filter, 2);
    let name = |f: (Seq<u8>, u8)| (bytes::leading_cstr(f.0), f.1);
    let keep = |f: (Seq<u8>, u8)| !is_dots(f.0);
    assert((a + b).map_values(name) =~= a.map_values(name) + b.map_values(name));
    Seq::filter_distributes_over_add(a.map_values(name), b.map_values(name), keep);
    law_found_is_entry_unless_dots(Directory { fd: 0 }, text, rest, kind, 0);
    bytes::law_leading_cstr_ends_at_nul(text, rest);
    let one = seq![(text.push(0) + rest, kind)].map_values(name);
    assert(one =~= seq![(text.push(0), kind)]);
    assert(one.drop_last() =~= Seq::empty());
    if is_dots(text.push(0)) {
        assert(one.filter(keep) =~= Seq::empty());
    } else {
        assert(one.filter(keep) =~= one);
    }
}

} // verus!
