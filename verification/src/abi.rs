//! The numbers that Linux and Android give to the names of the system interface.
//!
//! Each number is taken from the `libc` crate. Beside it stands a spec function, which the
//! contracts of the library speak of. Two of the flags of `open` differ between processors; for
//! those the spec function is a predicate.

use vstd::prelude::*;

verus! {

/// The number of `DT_DIR`.
pub open spec fn spec_dt_dir() -> u8 {
    4
}

/// The number of `DT_REG`.
pub open spec fn spec_dt_reg() -> u8 {
    8
}

/// The number of `DT_LNK`.
pub open spec fn spec_dt_lnk() -> u8 {
    10
}

/// The number of `S_IFMT`.
pub open spec fn spec_s_ifmt() -> u32 {
    0o170000
}

/// The number of `S_IFDIR`.
pub open spec fn spec_s_ifdir() -> u32 {
    0o040000
}

/// The number of `S_IFBLK`.
pub open spec fn spec_s_ifblk() -> u32 {
    0o060000
}

/// The number of `EEXIST`.
pub open spec fn spec_eexist() -> i32 {
    17
}

/// The number of `ENOENT`.
pub open spec fn spec_enoent() -> i32 {
    2
}

/// The number of `O_RDONLY`.
pub open spec fn spec_o_rdonly() -> i32 {
    0
}

/// The number of `O_RDWR`.
pub open spec fn spec_o_rdwr() -> i32 {
    2
}

/// Whether `flag` is the number of `O_CLOEXEC` on some processor: SPARC has one of its own.
pub open spec fn is_o_cloexec(flag: i32) -> bool {
    flag == 0x80000 || flag == 0x400000
}

/// Whether `flag` is the number of `O_PATH` on some processor: SPARC has one of its own.
pub open spec fn is_o_path(flag: i32) -> bool {
    flag == 0x200000 || flag == 0x1000000
}

/// The number of `AT_REMOVEDIR`.
pub open spec fn spec_at_removedir() -> i32 {
    0x200
}

/// The number of `PROT_READ`.
pub open spec fn spec_prot_read() -> i32 {
    1
}

/// The number of `PROT_WRITE`.
pub open spec fn spec_prot_write() -> i32 {
    2
}

/// The number of `MAP_SHARED`.
pub open spec fn spec_map_shared() -> i32 {
    1
}

/// The number of `MAP_PRIVATE`.
pub open spec fn spec_map_private() -> i32 {
    2
}

/// `libc::DT_DIR`, the `d_type` of a directory: 4 on Linux and Android.
#[verifier::external_body]
pub(crate) fn dt_dir() -> (r: u8)
    ensures
        r == spec_dt_dir(),
{
    libc::DT_DIR
}

/// `libc::DT_REG`, the `d_type` of a regular file: 8 on Linux and Android.
#[verifier::external_body]
pub(crate) fn dt_reg() -> (r: u8)
    ensures
        r == spec_dt_reg(),
{
    libc::DT_REG
}

/// `libc::DT_LNK`, the `d_type` of a symbolic link: 10 on Linux and Android.
#[verifier::external_body]
pub(crate) fn dt_lnk() -> (r: u8)
    ensures
        r == spec_dt_lnk(),
{
    libc::DT_LNK
}

/// `libc::S_IFMT`, the file kind bits of a mode: `0o170000` on Linux and Android. The cast is
/// for 32-bit Android, whose mode has 16 bits.
#[verifier::external_body]
pub(crate) fn s_ifmt() -> (r: u32)
    ensures
        r == spec_s_ifmt(),
{
    libc::S_IFMT as u32
}

/// `libc::S_IFDIR`, the kind bits of a directory: `0o040000` on Linux and Android.
#[verifier::external_body]
pub(crate) fn s_ifdir() -> (r: u32)
    ensures
        r == spec_s_ifdir(),
{
    libc::S_IFDIR as u32
}

/// `libc::S_IFBLK`, the kind bits of a block device: `0o060000` on Linux and Android.
#[verifier::external_body]
pub(crate) fn s_ifblk() -> (r: u32)
    ensures
        r == spec_s_ifblk(),
{
    libc::S_IFBLK as u32
}

/// `libc::EEXIST`, the error that a path exists already: 17 on Linux and Android.
#[verifier::external_body]
pub(crate) fn eexist() -> (r: i32)
    ensures
        r == spec_eexist(),
{
    libc::EEXIST
}

/// `libc::ENOENT`, the error that a path does not exist: 2 on Linux and Android.
#[verifier::external_body]
pub(crate) fn enoent() -> (r: i32)
    ensures
        r == spec_enoent(),
{
    libc::ENOENT
}

/// `libc::O_RDONLY`, the flag to open for reading alone: 0 on Linux and Android.
#[verifier::external_body]
pub(crate) fn o_rdonly() -> (r: i32)
    ensures
        r == spec_o_rdonly(),
{
    libc::O_RDONLY
}

/// `libc::O_RDWR`, the flag to open for reading and writing: 2 on Linux and Android.
#[verifier::external_body]
pub(crate) fn o_rdwr() -> (r: i32)
    ensures
        r == spec_o_rdwr(),
{
    libc::O_RDWR
}

/// `libc::O_CLOEXEC`, the flag to close on `exec`: `0x80000` on Linux and Android, but
/// `0x400000` on SPARC.
#[verifier::external_body]
pub(crate) fn o_cloexec() -> (r: i32)
    ensures
        is_o_cloexec(r),
{
    libc::O_CLOEXEC
}

/// `libc::O_PATH`, the flag to open a place in the file tree only: `0x200000` on Linux and
/// Android, but `0x1000000` on SPARC.
#[verifier::external_body]
pub(crate) fn o_path() -> (r: i32)
    ensures
        is_o_path(r),
{
    libc::O_PATH
}

/// `libc::AT_REMOVEDIR`, the flag to `unlinkat` a directory: `0x200` on Linux and Android.
#[verifier::external_body]
pub(crate) fn at_removedir() -> (r: i32)
    ensures
        r == spec_at_removedir(),
{
    libc::AT_REMOVEDIR
}

/// `libc::PROT_READ`, the flag for readable pages: 1 on Linux and Android.
#[verifier::external_body]
pub(crate) fn prot_read() -> (r: i32)
    ensures
        r == spec_prot_read(),
{
    libc::PROT_READ
}

/// `libc::PROT_WRITE`, the flag for writable pages: 2 on Linux and Android.
#[verifier::external_body]
pub(crate) fn prot_write() -> (r: i32)
    ensures
        r == spec_prot_write(),
{
    libc::PROT_WRITE
}

/// `libc::MAP_SHARED`, the flag to share a mapping's changes: 1 on Linux and Android.
#[verifier::external_body]
pub(crate) fn map_shared() -> (r: i32)
    ensures
        r == spec_map_shared(),
{
    libc::MAP_SHARED
}

/// `libc::MAP_PRIVATE`, the flag to keep a mapping's changes private: 2 on Linux and Android.
#[verifier::external_body]
pub(crate) fn map_private() -> (r: i32)
    ensures
        r == spec_map_private(),
{
    libc::MAP_PRIVATE
}

/// The flags of `open` that differ between processors are single bits, apart from each other and
/// from the access modes, and there are two choices for each.
pub proof fn law_open_flags_are_apart(cloexec: i32, path: i32)
    ensures
        is_o_cloexec(cloexec) <==> cloexec == 0x80000 || cloexec == 0x400000,
        is_o_path(path) <==> path == 0x200000 || path == 0x1000000,
        is_o_cloexec(cloexec) && is_o_path(path) ==> {
            &&& cloexec & path == 0
            &&& (cloexec | path) & (spec_o_rdonly() | spec_o_rdwr()) == 0
        },
{
    assert(forall|c: i32, p: i32|
        (c == 0x80000 || c == 0x400000) && (p == 0x200000 || p == 0x1000000) ==> #[trigger] (c & p)
            == 0 && (c | p) & (0i32 | 2i32) == 0) by (bit_vector);
}

/// The numbers of the kinds of entries, of the kinds of files, of the errors, of the access modes
/// and of the flags of a removal and of a mapping.
pub proof fn law_numbers()
    ensures
        spec_dt_dir() == 4 && spec_dt_reg() == 8 && spec_dt_lnk() == 10,
        spec_s_ifmt() == 15 * 4096 && spec_s_ifdir() == 4 * 4096 && spec_s_ifblk() == 6 * 4096,
        spec_eexist() == 17 && spec_enoent() == 2,
        spec_o_rdonly() == 0 && spec_o_rdwr() == 2,
        spec_at_removedir() == 512,
        spec_prot_read() == 1 && spec_prot_write() == 2,
        spec_map_shared() == 1 && spec_map_private() == 2,
{
}

} // verus!
