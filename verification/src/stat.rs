//! What the system tells of a file: its mode, its identity and its size.

use vstd::prelude::*;

use crate::abi;
use crate::error::FileError;

verus! {

/// The part of a file's status that the library reads.
#[derive(Clone, Copy, Debug, PartialEq, Eq, Structural)]
pub struct Stat {
    pub st_mode: u32,
    pub st_dev: u64,
    pub st_ino: u64,
    pub st_size: i64,
}

impl Stat {
    /// The bits of the mode under `S_IFMT`.
    pub open spec fn mode_bits(self) -> u32 {
        self.st_mode & abi::spec_s_ifmt()
    }

    /// The bits of the mode outside of `S_IFMT`.
    pub open spec fn type_bits(self) -> u32 {
        self.st_mode & !abi::spec_s_ifmt()
    }

    /// Whether the two tell of one file: device and number are the same.
    pub open spec fn spec_same_file(self, other: Stat) -> bool {
        self.st_dev == other.st_dev && self.st_ino == other.st_ino
    }

    /// Whether the two tell of one file: device and number are the same.
    pub fn same_file(&self, other: &Stat) -> (r: bool)
        ensures
            r == self.spec_same_file(*other),
            r == (self.st_dev == other.st_dev && self.st_ino == other.st_ino),
    {
        self.st_dev == other.st_dev && self.st_ino == other.st_ino
    }
}

/// Questions about the mode of a file.
pub trait StatExt {
    /// The status that the questions are about.
    spec fn stat(&self) -> Stat;

    /// The bits of the mode under `S_IFMT`.
    fn get_mode(&self) -> (r: u32)
        ensures
            r == self.stat().mode_bits(),
    ;

    /// The bits of the mode outside of `S_IFMT`.
    fn get_type(&self) -> (r: u32)
        ensures
            r == self.stat().type_bits(),
    ;

    /// Whether the bits of `get_type` are those of `S_IFDIR`.
    fn is_dir(&self) -> (r: bool)
        ensures
            r == (self.stat().type_bits() == abi::spec_s_ifdir()),
    ;

    /// Whether the bits of `get_type` are those of `S_IFBLK`.
    fn is_blk(&self) -> (r: bool)
        ensures
            r == (self.stat().type_bits() == abi::spec_s_ifblk()),
    ;
}

impl StatExt for Stat {
    open spec fn stat(&self) -> Stat {
        *self
    }

    fn get_mode(&self) -> (r: u32)
        ensures
            r == self.st_mode & 0o170000,
    {
        self.st_mode & abi::s_ifmt()
    }

    fn get_type(&self) -> (r: u32)
        ensures
            r == self.st_mode & !0o170000u32,
    {
        self.st_mode & !abi::s_ifmt()
    }

    fn is_dir(&self) -> (r: bool)
        ensures
            r == (self.st_mode & !0o170000u32 == 0o040000),
    {
        self.get_type() == abi::s_ifdir()
    }

    fn is_blk(&self) -> (r: bool)
        ensures
            r == (self.st_mode & !0o170000u32 == 0o060000),
    {
        self.get_type() == abi::s_ifblk()
    }
}

/// `get_mode` and `get_type` share out the bits of the mode: together they make it up, and no
/// bit is in both.
pub proof fn law_mode_is_shared_out(stat: Stat)
    ensures
        stat.mode_bits() | stat.type_bits() == stat.st_mode,
        stat.mode_bits() & stat.type_bits() == 0,
{
    let mode = stat.st_mode;
    assert((mode & 0o170000) | (mode & !0o170000u32) == mode) by (bit_vector);
    assert((mode & 0o170000) & (mode & !0o170000u32) == 0) by (bit_vector);
}

/// The kinds `S_IFDIR` and `S_IFBLK` lie under `S_IFMT`, and `get_type` has no bit there. So
/// `is_dir` and `is_blk` hold of no file.
pub proof fn law_no_kind_outside_of_mask(stat: Stat)
    ensures
        stat.type_bits() != abi::spec_s_ifdir(),
        stat.type_bits() != abi::spec_s_ifblk(),
{
    let mode = stat.st_mode;
    assert(mode & !0o170000u32 != 0o040000) by (bit_vector);
    assert(mode & !0o170000u32 != 0o060000) by (bit_vector);
}

/// The request of `ioctl` for the size of a block device in bytes.
pub const BLKGETSIZE64: u32 = 0x80081272;

/// What finding out the size of an open file has to do next.
#[derive(Clone, Copy, Debug, PartialEq, Eq)]
pub enum SizeStep {
    /// Ask for the status of this descriptor.
    Fstat { fd: i32 },
    /// Ask the block device itself, by an `ioctl` on this descriptor with this request.
    Ioctl { fd: i32, request: u32 },
    /// Nothing more: this is the size, or the failure.
    Finish(Result<usize, FileError>),
}

/// What came of a step.
#[derive(Clone, Copy, Debug, PartialEq, Eq)]
pub enum SizeEvent {
    Fstat(Result<Stat, FileError>),
    Ioctl(Result<u64, FileError>),
}

/// The step that follows an event: the size of a block device is asked of the device, that of
/// any other file is in its status. Numbers are cut to the bits of `usize`.
pub open spec fn size_next(fd: i32, event: SizeEvent) -> SizeStep {
    match event {
        SizeEvent::Fstat(Err(e)) => SizeStep::Finish(Err(e)),
        SizeEvent::Fstat(Ok(stat)) => if stat.type_bits() == abi::spec_s_ifblk() {
            SizeStep::Ioctl { fd, request: BLKGETSIZE64 }
        } else {
            SizeStep::Finish(Ok(stat.st_size as usize))
        },
        SizeEvent::Ioctl(Err(e)) => SizeStep::Finish(Err(e)),
        SizeEvent::Ioctl(Ok(size)) => SizeStep::Finish(Ok(size as usize)),
    }
}

/// The size of an open file.
pub trait FdExt {
    /// The descriptor of the file.
    spec fn descriptor(&self) -> i32;

    /// Begins to find out the size: the first step is to ask for the status of the file.
    fn size_start(&self) -> (r: SizeStep)
        ensures
            r == (SizeStep::Fstat { fd: self.descriptor() }),
    ;

    /// Takes what came of the last step and says what to do next.
    fn size(&self, event: SizeEvent) -> (r: SizeStep)
        ensures
            r == size_next(self.descriptor(), event),
    ;
}

/// An open file, known by its descriptor.
#[derive(Clone, Copy, Debug, PartialEq, Eq, Structural)]
pub struct Fd {
    pub fd: i32,
}

impl FdExt for Fd {
    open spec fn descriptor(&self) -> i32 {
        self.fd
    }

    fn size_start(&self) -> (r: SizeStep)
        ensures
            r == (SizeStep::Fstat { fd: self.fd }),
    {
        SizeStep::Fstat { fd: self.fd }
    }

    fn size(&self, event: SizeEvent) -> (r: SizeStep)
        ensures
            r == (match event {
                SizeEvent::Fstat(Ok(stat)) => SizeStep::Finish(Ok(stat.st_size as usize)),
                SizeEvent::Ioctl(Ok(size)) => SizeStep::Finish(Ok(size as usize)),
                SizeEvent::Fstat(Err(e)) => SizeStep::Finish(Err(e)),
                SizeEvent::Ioctl(Err(e)) => SizeStep::Finish(Err(e)),
            }),
    {
        proof {
            if event is Fstat && event->Fstat_0 is Ok {
                law_no_kind_outside_of_mask(event->Fstat_0->Ok_0);
            }
        }
        match event {
            SizeEvent::Fstat(Err(e)) => SizeStep::Finish(Err(e)),
            SizeEvent::Fstat(Ok(stat)) => if stat.is_blk() {
                SizeStep::Ioctl { fd: self.fd, request: BLKGETSIZE64 }
            } else {
                SizeStep::Finish(Ok(stat.st_size as usize))
            },
            SizeEvent::Ioctl(Err(e)) => SizeStep::Finish(Err(e)),
            SizeEvent::Ioctl(Ok(size)) => SizeStep::Finish(Ok(size as usize)),
        }
    }
}

/// The size of a file is always the one in its status, as no file passes for a block device.
pub proof fn law_size_is_in_status(fd: i32, stat: Stat)
    ensures
        size_next(fd, SizeEvent::Fstat(Ok(stat))) == SizeStep::Finish(Ok(stat.st_size as usize)),
        0 <= stat.st_size <= usize::MAX ==> (stat.st_size as usize) == stat.st_size,
{
    law_no_kind_outside_of_mask(stat);
}

/// `get_mode` keeps the fourth group of four bits of a mode, where the kind of a file is, and
/// `get_type` is what that leaves of the mode.
pub proof fn law_mode_by_groups_of_bits(stat: Stat)
    ensures
        stat.mode_bits() == stat.st_mode / 4096 % 16 * 4096,
        stat.type_bits() == stat.st_mode - stat.mode_bits(),
{
    let mode = stat.st_mode;
    assert(mode & 0o170000 == mode / 4096 % 16 * 4096) by (bit_vector);
    assert(mode & !0o170000u32 == mode - (mode & 0o170000)) by (bit_vector);
}

/// Two statuses tell of one file just if the devices are equal and the numbers are, whatever
/// they are and whatever else the two hold. So a file is always taken for itself.
pub proof fn law_file_is_told_by_device_and_number(a: Stat, b: Stat, c: Stat)
    ensures
        a.spec_same_file(b) <==> a.st_dev == b.st_dev && a.st_ino == b.st_ino,
        a.spec_same_file(a),
        a.spec_same_file(b) == b.spec_same_file(a),
        a.spec_same_file(b) && b.spec_same_file(c) ==> a.spec_same_file(c),
{
}

/// The size of a file is the number in the answer, and a failure is that of the answer.
pub proof fn law_size_is_as_answered(fd: i32, stat: Stat, size: u64, e: FileError)
    ensures
        size_next(fd, SizeEvent::Fstat(Ok(stat))) == SizeStep::Finish(Ok(stat.st_size as usize)),
        size_next(fd, SizeEvent::Ioctl(Ok(size))) == SizeStep::Finish(Ok(size as usize)),
        size_next(fd, SizeEvent::Fstat(Err(e))) == SizeStep::Finish(Err(e)),
        size_next(fd, SizeEvent::Ioctl(Err(e))) == SizeStep::Finish(Err(e)),
        BLKGETSIZE64 == 0x80081272,
{
    law_size_is_in_status(fd, stat);
}

} // verus!
