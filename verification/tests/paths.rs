use files::bytes::{copy_cstr, find_byte};
use files::dir::Directory;
use files::error::FileError;
use files::link::{
    fd_path, readlink, readlink_room, readlink_unsafe, realpath, realpath_with, RealPath,
    RealPathEvent, RealPathStep,
};
use files::mapping::{
    map_fd, map_file, map_file_with, MapEvent, MapFile, MapPhase, MapStep, MappedFile, Mmap,
};
use files::mkdirs::{mkdirs, MkdirsStep};
use files::stat::{Fd, FdExt, SizeEvent, SizeStep, Stat, StatExt, BLKGETSIZE64};

fn stat(mode: u32, dev: u64, ino: u64, size: i64) -> Stat {
    Stat { st_mode: mode, st_dev: dev, st_ino: ino, st_size: size }
}

/// Drives the work with these outcomes, and gives the directories asked for and the result.
fn make(path: &[u8], outcomes: &[(i32, i32)]) -> (Vec<Vec<u8>>, Result<(), FileError>) {
    let mut work = mkdirs(path, 0o750);
    assert_eq!(work.get_mode(), 0o750);
    let mut dirs = Vec::new();
    loop {
        dirs.push(work.dir().to_vec());
        let (ret, errno) = outcomes.get(dirs.len() - 1).copied().unwrap_or((0, 0));
        match work.step(ret, errno) {
            MkdirsStep::Mkdir => {}
            MkdirsStep::Finish(result) => return (dirs, result),
        }
    }
}

#[test]
fn mkdirs_makes_every_parent() {
    let (dirs, result) = make(b"/data/adb/modules\0", &[]);
    assert_eq!(
        dirs,
        vec![b"/data\0".to_vec(), b"/data/adb\0".to_vec(), b"/data/adb/modules\0".to_vec()]
    );
    assert_eq!(result, Ok(()));
    let (dirs, _) = make(b"a/b\0", &[]);
    assert_eq!(dirs, vec![b"a\0".to_vec(), b"a/b\0".to_vec()]);
    let (dirs, _) = make(b"a//b/\0", &[]);
    assert_eq!(
        dirs,
        vec![b"a\0".to_vec(), b"a/\0".to_vec(), b"a//b\0".to_vec(), b"a//b/\0".to_vec()]
    );
    let (dirs, _) = make(b"/\0", &[]);
    assert_eq!(dirs, vec![b"/\0".to_vec()]);
    let (dirs, result) = make(b"\0", &[(-1, libc::ENOENT)]);
    assert_eq!(dirs, vec![b"\0".to_vec()]);
    assert_eq!(result, Err(FileError::Os(libc::ENOENT)));
    let (dirs, _) = make(b"a\0", &[]);
    assert_eq!(dirs, vec![b"a\0".to_vec()]);
}

#[test]
fn mkdirs_passes_over_what_exists() {
    let there = (-1, libc::EEXIST);
    let (dirs, result) = make(b"/a/b\0", &[there, there]);
    assert_eq!(dirs.len(), 2);
    assert_eq!(result, Ok(()));
}

#[test]
fn mkdirs_clears_errno_on_success() {
    let mut work = mkdirs(b"/\0", 0o755);
    assert_eq!(work.dir(), b"/\0");
    let step = work.step(-1, libc::EEXIST);
    assert_eq!(step, MkdirsStep::Finish(Ok(())));
    assert_eq!(step.errno_left(), Some(0));
    let mut work = mkdirs(b"a/b\0", 0o755);
    assert_eq!(work.step(0, 0).errno_left(), None);
    let step = work.step(-1, libc::EACCES);
    assert_eq!(step, MkdirsStep::Finish(Err(FileError::Os(libc::EACCES))));
    assert_eq!(step.errno_left(), None);
}

#[test]
fn mkdirs_again_changes_nothing() {
    let mut made: Vec<Vec<u8>> = Vec::new();
    let mut asked = Vec::new();
    for mode in [0o755, 0o700] {
        let before = made.clone();
        let mut work = mkdirs(b"/a/b/c\0", mode);
        asked.clear();
        loop {
            let dir = work.dir().to_vec();
            asked.push(dir.clone());
            let (ret, errno) = if made.contains(&dir) {
                (-1, libc::EEXIST)
            } else {
                made.push(dir);
                (0, 0)
            };
            if let MkdirsStep::Finish(result) = work.step(ret, errno) {
                assert_eq!(result, Ok(()));
                break;
            }
        }
        if mode == 0o700 {
            assert_eq!(made, before);
        }
        assert_eq!(asked.len(), 3);
    }
    assert_eq!(made, asked);
}

#[test]
fn mkdirs_stops_at_a_failure() {
    let (dirs, result) = make(b"/a/b/c\0", &[(0, 0), (-1, libc::EACCES)]);
    assert_eq!(dirs, vec![b"/a\0".to_vec(), b"/a/b\0".to_vec()]);
    assert_eq!(result, Err(FileError::Os(libc::EACCES)));
    let (dirs, result) = make(b"/a\0", &[(-1, libc::EROFS)]);
    assert_eq!(dirs.len(), 1);
    assert_eq!(result, Err(FileError::Os(libc::EROFS)));
}

#[test]
fn mkdirs_cuts_a_long_path() {
    let mut path = vec![b'x'; 5000];
    path[4095] = b'/';
    path.push(0);
    let (dirs, result) = make(&path, &[]);
    assert_eq!(dirs.len(), 1);
    assert_eq!(dirs[0].len(), 4096);
    assert_eq!(dirs[0][4094], b'x');
    assert_eq!(dirs[0][4095], 0);
    assert_eq!(result, Ok(()));
}

#[test]
fn copy_cstr_copies_and_cuts() {
    let mut buf = *b"......";
    assert_eq!(copy_cstr(&mut buf, b"abc\0"), 3);
    assert_eq!(&buf, b"abc\0..");
    let mut buf = *b"...";
    assert_eq!(copy_cstr(&mut buf, b"abc\0"), 2);
    assert_eq!(&buf, b"ab\0");
    assert_eq!(copy_cstr(&mut [], b"abc\0"), 0);
}

#[test]
fn find_byte_gives_the_first_or_the_length() {
    assert_eq!(find_byte(b"/a/b", b'/', 1), 2);
    assert_eq!(find_byte(b"/a/b", b'/', 3), 4);
    assert_eq!(find_byte(b"", b'/', 1), 0);
}

#[test]
fn readlink_ends_the_link() {
    assert_eq!(readlink_room(16), 15);
    let mut buf = *b"link??";
    assert_eq!(readlink_unsafe(4, &mut buf), 4);
    assert_eq!(&buf, b"link\0?");
    assert_eq!(readlink_unsafe(-1, &mut buf), -1);
    assert_eq!(&buf, b"link\0?");
    let mut buf = *b"link??";
    assert_eq!(readlink(0, 0, &mut buf), Ok(0));
    assert_eq!(&buf, b"\0ink??");
    assert_eq!(readlink(-1, 22, &mut buf), Err(FileError::Os(22)));
    assert_eq!(&buf, b"\0ink??");
}

#[test]
fn fd_path_names_the_descriptor() {
    assert_eq!(fd_path(0), b"/proc/self/fd/0\0");
    assert_eq!(fd_path(42), b"/proc/self/fd/42\0");
    assert_eq!(fd_path(-1), b"/proc/self/fd/-1\0");
    assert_eq!(fd_path(i32::MAX), b"/proc/self/fd/2147483647\0");
    assert_eq!(fd_path(i32::MIN), b"/proc/self/fd/-2147483648\0");
    assert!(fd_path(i32::MIN).len() <= 40);
    assert_eq!(Directory { fd: 10 }.path(), b"/proc/self/fd/10\0");
}

fn resolve(
    opened: Result<i32, FileError>,
    status: Option<Stat>,
    link: Result<usize, FileError>,
    found: Option<Stat>,
) -> (usize, Result<usize, FileError>) {
    let (mut work, mut step) = realpath();
    assert_eq!(work, RealPath::Opening);
    let mut steps = 0;
    loop {
        let event = match step {
            RealPathStep::Open(flags) => {
                assert_eq!(flags, libc::O_PATH | libc::O_CLOEXEC);
                RealPathEvent::Opened(opened)
            }
            RealPathStep::Fstat(fd) => {
                assert_eq!(Ok(fd), opened);
                RealPathEvent::Fstat(status)
            }
            RealPathStep::Readlink(fd) => {
                assert_eq!(Ok(fd), opened);
                RealPathEvent::Readlink(link)
            }
            RealPathStep::Stat => RealPathEvent::Stat(found),
            RealPathStep::Finish(result) => return (steps, result),
        };
        steps += 1;
        step = work.step(event);
    }
}

#[test]
fn realpath_gives_a_path_to_the_same_file() {
    let a = stat(0, 1, 2, 3);
    let b = stat(9, 1, 2, 9);
    assert_eq!(resolve(Ok(5), Some(a), Ok(11), Some(b)), (4, Ok(11)));
    assert_eq!(resolve(Ok(5), None, Ok(11), Some(b)), (4, Ok(11)));
}

/// Resolves a path where `/link` and `/real/file` are one file.
fn resolve_in(path: &[u8], buf: &mut [u8]) -> Result<usize, FileError> {
    let file = stat(0o100644, 8, 15, 3);
    let is_file = |path: &[u8]| path == b"/link" || path == b"/real/file";
    let (mut work, mut step) = realpath_with(1, 4);
    assert_eq!(step, RealPathStep::Open(5));
    loop {
        let event = match step {
            RealPathStep::Open(_) => RealPathEvent::Opened(if is_file(path) {
                Ok(3)
            } else {
                Err(FileError::Os(libc::ENOENT))
            }),
            RealPathStep::Fstat(_) => RealPathEvent::Fstat(Some(file)),
            RealPathStep::Readlink(_) => {
                let target = b"/real/file";
                let n = target.len().min(readlink_room(buf.len()));
                buf[..n].copy_from_slice(&target[..n]);
                RealPathEvent::Readlink(readlink(n as isize, 0, buf))
            }
            RealPathStep::Stat => {
                let end = find_byte(buf, 0, 0);
                RealPathEvent::Stat(if is_file(&buf[..end]) { Some(file) } else { None })
            }
            RealPathStep::Finish(result) => return result,
        };
        step = work.step(event);
    }
}

#[test]
fn resolved_path_resolves_to_itself() {
    let mut first = [b'?'; 16];
    assert_eq!(resolve_in(b"/link", &mut first), Ok(10));
    assert_eq!(&first[..11], b"/real/file\0");
    let mut second = [b'!'; 16];
    assert_eq!(resolve_in(&first[..10], &mut second), Ok(10));
    assert_eq!(second[..11], first[..11]);
    let mut short = [b'?'; 8];
    assert_eq!(resolve_in(b"/link", &mut short), Err(FileError::Os(libc::ENOENT)));
    assert_eq!(&short, b"/real/f\0");
}

#[test]
fn realpath_refuses_another_file() {
    let gone = Err(FileError::Os(libc::ENOENT));
    let a = stat(0, 1, 2, 3);
    assert_eq!(resolve(Ok(5), Some(a), Ok(11), Some(stat(0, 1, 3, 3))), (4, gone));
    assert_eq!(resolve(Ok(5), Some(a), Ok(11), Some(stat(0, 4, 2, 3))), (4, gone));
    assert_eq!(resolve(Ok(5), Some(a), Ok(11), None), (4, gone));
    assert_eq!(resolve(Ok(5), None, Ok(11), None), (4, gone));
}

#[test]
fn realpath_leaves_errno_of_the_failure() {
    let mut work = RealPath::Comparing { opened: Some(stat(0, 1, 2, 3)), len: 4 };
    let step = work.step(RealPathEvent::Stat(Some(stat(0, 1, 9, 3))));
    assert_eq!(step, RealPathStep::Finish(Err(FileError::Os(libc::ENOENT))));
    assert_eq!(step.errno_left(), Some(libc::ENOENT));
    let (mut work, step) = realpath();
    assert_eq!(step.errno_left(), None);
    let step = work.step(RealPathEvent::Opened(Err(FileError::Os(13))));
    assert_eq!(step.errno_left(), Some(13));
    assert_eq!(RealPathStep::Finish(Ok(4)).errno_left(), None);
}

#[test]
fn realpath_stops_at_a_failure() {
    let e = Err(FileError::Os(13));
    assert_eq!(resolve(e, None, Ok(1), None), (1, Err(FileError::Os(13))));
    let e = Err(FileError::Os(36));
    assert_eq!(resolve(Ok(5), None, e, None), (3, Err(FileError::Os(36))));
}

#[test]
fn mode_is_split_by_the_kind_mask() {
    let dir = stat(0o040755, 0, 0, 0);
    assert_eq!(dir.get_mode(), 0o040000);
    assert_eq!(dir.get_type(), 0o755);
    assert!(!dir.is_dir() && !dir.is_blk());
    let blk = stat(0o060660, 0, 0, 0);
    assert_eq!(blk.get_mode(), 0o060000);
    assert_eq!(blk.get_type(), 0o660);
    assert!(!blk.is_dir() && !blk.is_blk());
    assert_eq!(dir.get_mode() & libc::S_IFMT as u32, libc::S_IFDIR as u32);
    assert_eq!(blk.get_mode(), libc::S_IFBLK as u32);
    assert!(dir.same_file(&blk));
    assert!(!dir.same_file(&stat(0o040755, 0, 1, 0)));
}

#[test]
fn no_mode_passes_for_a_kind() {
    for mode in 0..=0xffff {
        let file = stat(mode, 0, 0, 0);
        assert!(!file.is_dir() && !file.is_blk());
        assert_eq!(file.get_mode(), mode & libc::S_IFMT as u32);
        assert_eq!(file.get_mode() | file.get_type(), mode);
        assert_eq!(file.get_mode() & file.get_type(), 0);
    }
}

#[test]
fn size_is_that_of_the_status() {
    let fd = Fd { fd: 4 };
    assert_eq!(fd.size_start(), SizeStep::Fstat { fd: 4 });
    let blk = stat(0o060660, 0, 0, 512);
    assert_eq!(fd.size(SizeEvent::Fstat(Ok(blk))), SizeStep::Finish(Ok(512)));
    let e = FileError::Os(9);
    assert_eq!(fd.size(SizeEvent::Fstat(Err(e))), SizeStep::Finish(Err(e)));
    assert_eq!(fd.size(SizeEvent::Ioctl(Ok(1 << 20))), SizeStep::Finish(Ok(1 << 20)));
    assert_eq!(fd.size(SizeEvent::Ioctl(Err(e))), SizeStep::Finish(Err(e)));
    assert_eq!(BLKGETSIZE64, 0x80081272);
}

#[test]
fn map_fd_shares_only_on_demand() {
    let prot = libc::PROT_READ | libc::PROT_WRITE;
    assert_eq!(
        map_fd(3, 100, true),
        Mmap { len: 100, prot, flags: libc::MAP_SHARED, fd: 3, offset: 0 }
    );
    assert_eq!(
        MappedFile::create(3, 100, false),
        Mmap { len: 100, prot, flags: libc::MAP_PRIVATE, fd: 3, offset: 0 }
    );
}

#[test]
fn map_file_opens_measures_and_maps() {
    let (mut work, first) = MappedFile::open();
    assert_eq!(work, MapFile { rw: false, phase: MapPhase::Opening });
    assert_eq!(first, MapStep::Open(libc::O_RDWR | libc::O_CLOEXEC));
    assert_eq!(work.step(MapEvent::Opened(Ok(6))), MapStep::Size(6));
    assert_eq!(work.step(MapEvent::Sized(Ok(10))), MapStep::Mmap(map_fd(6, 10, false)));
    let (mut work, first) = MappedFile::open_rw();
    assert_eq!(first, MapStep::Open(libc::O_RDONLY | libc::O_CLOEXEC));
    let e = FileError::Os(5);
    assert_eq!(work.step(MapEvent::Opened(Err(e))), MapStep::Fail(e));
    assert_eq!(map_file_with(false, 8).1, MapStep::Open(libc::O_RDWR | 8));
    assert_eq!(map_file_with(true, 8).1, MapStep::Open(libc::O_RDONLY | 8));
    let (mut work, _) = map_file(true);
    assert_eq!(work.step(MapEvent::Opened(Ok(6))), MapStep::Size(6));
    assert_eq!(work.step(MapEvent::Sized(Err(e))), MapStep::Fail(e));
}

#[test]
fn mapped_file_gives_its_bytes() {
    let data: &'static mut [u8] = vec![1, 2, 3].leak();
    let mut file = MappedFile::mapped(Ok(data)).unwrap();
    assert_eq!(file.as_ref(), [1, 2, 3]);
    file.as_mut()[1] = 9;
    assert_eq!(file.as_ref(), [1, 9, 3]);
    assert_eq!(MappedFile::mapped(Err(FileError::Os(12))).err(), Some(FileError::Os(12)));
}
