//! Files mapped to memory.

use vstd::prelude::*;

use crate::abi;
use crate::error::FileError;

verus! {

/// A call of `mmap`, the address being left to the system.
#[derive(Clone, Copy, Debug, PartialEq, Eq, Structural)]
pub struct Mmap {
    pub len: usize,
    pub prot: i32,
    pub flags: i32,
    pub fd: i32,
    pub offset: i64,
}

/// The call that maps the first `sz` bytes of an open file: readable and writable, and with
/// changes written through to the file only if `rw` is set.
pub open spec fn spec_map_fd(fd: i32, sz: usize, rw: bool) -> Mmap {
    Mmap {
        len: sz,
        prot: abi::spec_prot_read() | abi::spec_prot_write(),
        flags: if rw {
            abi::spec_map_shared()
        } else {
            abi::spec_map_private()
        },
        fd,
        offset: 0,
    }
}

/// The call that maps the first `sz` bytes of an open file: readable and writable, and with
/// changes written through to the file only if `rw` is set.
pub fn map_fd(fd: i32, sz: usize, rw: bool) -> (r: Mmap)
    ensures
        r == spec_map_fd(fd, sz, rw),
        r.len == sz && r.fd == fd && r.offset == 0,
        r.prot == 1i32 | 2i32,
        r.flags == (if rw {
            1i32
        } else {
            2
        }),
{
    let flags: i32 = if rw {
        abi::map_shared()
    } else {
        abi::map_private()
    };
    Mmap { len: sz, prot: abi::prot_read() | abi::prot_write(), flags, fd, offset: 0 }
}

/// What mapping a file has to do next.
#[derive(Clone, Copy, Debug, PartialEq, Eq)]
pub enum MapStep {
    /// Open the file with these flags.
    Open(i32),
    /// Ask for the size of this descriptor.
    Size(i32),
    /// Map the file by this call.
    Mmap(Mmap),
    /// Nothing more: this is the failure.
    Fail(FileError),
}

/// What came of a step.
#[derive(Clone, Copy, Debug, PartialEq, Eq)]
pub enum MapEvent {
    Opened(Result<i32, FileError>),
    Sized(Result<usize, FileError>),
}

/// How far the mapping of a file is.
#[derive(Clone, Copy, Debug, PartialEq, Eq, Structural)]
pub enum MapPhase {
    Opening,
    Measuring { fd: i32 },
    Finished,
}

/// The work up to the mapping of a file.
#[derive(Clone, Copy, Debug, PartialEq, Eq, Structural)]
pub struct MapFile {
    pub rw: bool,
    pub phase: MapPhase,
}

impl MapFile {
    /// Whether the work waits for such an event.
    pub open spec fn awaits(self, event: MapEvent) -> bool {
        match event {
            MapEvent::Opened(_) => self.phase is Opening,
            MapEvent::Sized(_) => self.phase is Measuring,
        }
    }

    /// The state and the step that follow an event.
    pub open spec fn next(self, event: MapEvent) -> (MapFile, MapStep) {
        let finished = MapFile { phase: MapPhase::Finished, ..self };
        match event {
            MapEvent::Opened(Err(e)) => (finished, MapStep::Fail(e)),
            MapEvent::Opened(Ok(fd)) => (
                MapFile { phase: MapPhase::Measuring { fd }, ..self },
                MapStep::Size(fd),
            ),
            MapEvent::Sized(Err(e)) => (finished, MapStep::Fail(e)),
            MapEvent::Sized(Ok(sz)) => (
                finished,
                MapStep::Mmap(spec_map_fd(self.phase->fd, sz, self.rw)),
            ),
        }
    }

    /// Takes what came of the last step and says what to do next.
    pub fn step(&mut self, event: MapEvent) -> (r: MapStep)
        requires
            old(self).awaits(event),
        ensures
            (*final(self), r) == old(self).next(event),
    {
        let phase: MapPhase = self.phase;
        self.phase = MapPhase::Finished;
        match (event, phase) {
            (MapEvent::Opened(Ok(fd)), _) => {
                self.phase = MapPhase::Measuring { fd };
                MapStep::Size(fd)
            },
            (MapEvent::Sized(Ok(sz)), MapPhase::Measuring { fd }) => MapStep::Mmap(
                map_fd(fd, sz, self.rw),
            ),
            (MapEvent::Opened(Err(e)), _) | (MapEvent::Sized(Err(e)), _) => MapStep::Fail(e),
            _ => vstd::pervasive::unreached(),
        }
    }
}

/// The flags that a file to be mapped is opened with, where this is the flag to close on `exec`:
/// for reading alone if `rw` is set, and for reading and writing if not.
pub open spec fn spec_map_flags(rw: bool, cloexec: i32) -> i32 {
    (if rw {
        abi::spec_o_rdonly()
    } else {
        abi::spec_o_rdwr()
    }) | cloexec
}

/// Begins to map a file, where this is the flag to close on `exec`. The file is opened for reading
/// alone if `rw` is set, and for reading and writing if not.
pub fn map_file_with(rw: bool, cloexec: i32) -> (r: (MapFile, MapStep))
    ensures
        r.0 == (MapFile { rw, phase: MapPhase::Opening }),
        r.1 == MapStep::Open(spec_map_flags(rw, cloexec)),
        r.1 == MapStep::Open(
            (if rw {
                0i32
            } else {
                2
            }) | cloexec,
        ),
{
    let flag: i32 = if rw {
        abi::o_rdonly()
    } else {
        abi::o_rdwr()
    };
    (MapFile { rw, phase: MapPhase::Opening }, MapStep::Open(flag | cloexec))
}

/// Begins to map a file. It is opened for reading alone if `rw` is set, and for reading and
/// writing if not.
pub fn map_file(rw: bool) -> (r: (MapFile, MapStep))
    ensures
        r.0 == (MapFile { rw, phase: MapPhase::Opening }),
        exists|cloexec: i32| #[trigger]
            abi::is_o_cloexec(cloexec) && r.1 == MapStep::Open(spec_map_flags(rw, cloexec)),
{
    map_file_with(rw, abi::o_cloexec())
}

/// A file mapped to memory.
#[derive(Debug)]
pub struct MappedFile(&'static mut [u8]);

impl MappedFile {
    /// The bytes of the mapping.
    pub closed spec fn view(&self) -> Seq<u8> {
        self.0@
    }

    /// Begins to map a file with changes that stay in memory.
    pub fn open() -> (r: (MapFile, MapStep))
        ensures
            r.0 == (MapFile { rw: false, phase: MapPhase::Opening }),
            exists|cloexec: i32| #[trigger]
                abi::is_o_cloexec(cloexec) && r.1 == MapStep::Open(spec_map_flags(false, cloexec)),
    {
        map_file(false)
    }

    /// Begins to map a file with changes that are written through to it.
    pub fn open_rw() -> (r: (MapFile, MapStep))
        ensures
            r.0 == (MapFile { rw: true, phase: MapPhase::Opening }),
            exists|cloexec: i32| #[trigger]
                abi::is_o_cloexec(cloexec) && r.1 == MapStep::Open(spec_map_flags(true, cloexec)),
    {
        map_file(true)
    }

    /// The call that maps the first `sz` bytes of an open file.
    pub fn create(fd: i32, sz: usize, rw: bool) -> (r: Mmap)
        ensures
            r == spec_map_fd(fd, sz, rw),
            r.len == sz && r.fd == fd && r.offset == 0,
            r.prot == 1i32 | 2i32,
            r.flags == (if rw {
                1i32
            } else {
                2
            }),
    {
        map_fd(fd, sz, rw)
    }

    /// Takes what the call of `mmap` came to: the bytes of the mapping, or the failure.
    pub fn mapped(bytes: Result<&'static mut [u8], FileError>) -> (r: Result<MappedFile, FileError>)
        ensures
            match bytes {
                Ok(data) => r is Ok && r->Ok_0@ == data@,
                Err(e) => r == Err::<MappedFile, FileError>(e),
            },
    {
        match bytes {
            Ok(data) => Ok(MappedFile(data)),
            Err(e) => Err(e),
        }
    }

    /// The bytes of the mapping.
    pub fn as_ref(&self) -> (r: &[u8])
        ensures
            r@ == self@,
    {
        &*self.0
    }

    /// The bytes of the mapping, to be changed.
    pub fn as_mut(&mut self) -> (r: &mut [u8])
        ensures
            r@ == old(self)@,
            final(self)@ == final(r)@,
    {
        &mut *self.0
    }
}

/// Whether work in this state waits for what comes of `step`.
pub open spec fn is_asked(state: MapFile, step: MapStep) -> bool {
    match step {
        MapStep::Open(_) => state.phase is Opening,
        MapStep::Size(fd) => state.phase == (MapPhase::Measuring { fd }),
        MapStep::Mmap(_) => state.phase is Finished,
        MapStep::Fail(_) => state.phase is Finished,
    }
}

/// A file is mapped by the descriptor that opening it gave, to the size that was found of that
/// descriptor. The first failure ends the work.
pub proof fn law_map_file_in_order(
    rw: bool,
    opened: Result<i32, FileError>,
    size: Result<usize, FileError>,
)
    ensures
        ({
            let (s1, a1) = (MapFile { rw, phase: MapPhase::Opening }).next(MapEvent::Opened(opened));
            let (s2, a2) = s1.next(MapEvent::Sized(size));
            &&& is_asked(s1, a1)
            &&& match (opened, size) {
                (Err(e), _) => a1 == MapStep::Fail(e),
                (Ok(fd), Err(e)) => a1 == MapStep::Size(fd) && a2 == MapStep::Fail(e),
                (Ok(fd), Ok(sz)) => a1 == MapStep::Size(fd) && a2 == MapStep::Mmap(
                    spec_map_fd(fd, sz, rw),
                ),
            }
        }),
{
}

/// The whole of a file of this size is mapped from its start, readable and writable. Whether it is
/// shared is all that `rw` decides about the mapping, and which of reading alone or reading and
/// writing all that it decides about the opening.
pub proof fn law_mapping_call(fd: i32, sz: usize, rw: bool, cloexec: i32)
    ensures
        ({
            let call = spec_map_fd(fd, sz, rw);
            &&& call.len == sz && call.fd == fd && call.offset == 0
            &&& call.prot == 3
            &&& call.flags == 1 <==> rw
            &&& call.flags == 2 <==> !rw
        }),
        spec_map_flags(rw, cloexec) == (if rw {
            0i32
        } else {
            2
        }) | cloexec,
{
    assert(1i32 | 2i32 == 3) by (bit_vector);
}

/// Mapping a file takes what comes of the step that it asked for, whatever that is.
pub proof fn law_any_map_outcome_is_taken(
    state: MapFile,
    opened: Result<i32, FileError>,
    sized: Result<usize, FileError>,
)
    ensures
        state.awaits(MapEvent::Opened(opened)) <==> state.phase is Opening,
        state.awaits(MapEvent::Sized(sized)) <==> state.phase is Measuring,
        opened is Ok ==> state.next(MapEvent::Opened(opened)).0 == (MapFile {
            rw: state.rw,
            phase: MapPhase::Measuring { fd: opened->Ok_0 },
        }),
{
}

} // verus!
