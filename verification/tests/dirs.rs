use files::dir::{DirEntry, DirRead, Directory, Readdir};
use files::error::{check_os_err, FileError};
use files::remove::{RemoveAll, RemoveEvent, RemoveStep, RmRf, RmRfEvent, RmRfStep};
use files::stat::Stat;
use files::walk::{Walk, WalkEvent, WalkOrder, WalkResult, WalkStep};

const DIR: Directory = Directory { fd: 7 };

fn entry(name: &str, kind: u8) -> DirEntry {
    let mut raw = name.as_bytes().to_vec();
    raw.resize(256, 0);
    match DIR.read(Some((&raw, kind)), 0) {
        Ok(DirRead::Entry(entry)) => entry,
        other => panic!("{:?}", other),
    }
}

fn name(entry: &DirEntry) -> String {
    let bytes = entry.d_name();
    assert_eq!(bytes[bytes.len() - 1], 0);
    String::from_utf8(bytes[..bytes.len() - 1].to_vec()).unwrap()
}

/// A tree: a name, and for a directory what is in it.
struct Tree(&'static str, Option<Vec<Tree>>);

fn sample() -> Vec<Tree> {
    vec![
        Tree("a", None),
        Tree(
            "b",
            Some(vec![Tree("c", None), Tree("d", Some(vec![])), Tree("e", None)]),
        ),
        Tree("f", None),
    ]
}

/// Drives a walk over a tree, and gives the names visited and the result.
fn drive(
    mut walk: Walk,
    tree: &Vec<Tree>,
    visitor: &dyn Fn(&str) -> Result<WalkResult, i32>,
) -> (Vec<String>, Result<WalkResult, i32>) {
    let mut open: Vec<(&Vec<Tree>, usize)> = vec![(tree, 0)];
    let mut visits = Vec::new();
    let mut step: WalkStep<i32> = WalkStep::Read;
    loop {
        open.truncate(walk.depth() + 1);
        let last = open.len() - 1;
        let event = match step {
            WalkStep::Read => {
                let (list, at) = open[last];
                if at < list.len() {
                    open[last].1 = at + 1;
                    let kind = if list[at].1.is_some() { libc::DT_DIR } else { libc::DT_REG };
                    WalkEvent::Read(Ok(Some(entry(list[at].0, kind))))
                } else {
                    WalkEvent::Read(Ok(None))
                }
            }
            WalkStep::Enter => {
                let (list, at) = open[last];
                assert_eq!(name(walk.current().unwrap()), list[at - 1].0);
                if list[at - 1].0 == "locked" {
                    WalkEvent::Entered(Err(13))
                } else {
                    open.push((list[at - 1].1.as_ref().unwrap(), 0));
                    WalkEvent::Entered(Ok(()))
                }
            }
            WalkStep::Visit => {
                let current = name(walk.current().unwrap());
                let answer = visitor(&current);
                visits.push(current);
                WalkEvent::Visited(answer)
            }
            WalkStep::Finish(result) => return (visits, result),
        };
        step = walk.step(event);
    }
}

fn go_on(_: &str) -> Result<WalkResult, i32> {
    Ok(WalkResult::Continue)
}

#[test]
fn post_order_visits_directories_last() {
    let (visits, result) = drive(DIR.post_order_walk(), &sample(), &go_on);
    assert_eq!(visits, vec!["a", "c", "d", "e", "b", "f"]);
    assert_eq!(result, Ok(WalkResult::Continue));
}

#[test]
fn pre_order_visits_directories_first() {
    let (visits, result) = drive(DIR.pre_order_walk(), &sample(), &go_on);
    assert_eq!(visits, vec!["a", "b", "c", "d", "e", "f"]);
    assert_eq!(result, Ok(WalkResult::Continue));
}

#[test]
fn abort_ends_the_whole_walk() {
    let visitor = |name: &str| {
        Ok(if name == "d" { WalkResult::Abort } else { WalkResult::Continue })
    };
    let (visits, result) = drive(DIR.post_order_walk(), &sample(), &visitor);
    assert_eq!(visits, vec!["a", "c", "d"]);
    assert_eq!(result, Ok(WalkResult::Abort));
    let (visits, result) = drive(DIR.pre_order_walk(), &sample(), &visitor);
    assert_eq!(visits, vec!["a", "b", "c", "d"]);
    assert_eq!(result, Ok(WalkResult::Abort));
}

#[test]
fn skip_leaves_out_the_rest_of_a_directory() {
    let visitor = |name: &str| {
        Ok(if name == "c" { WalkResult::Skip } else { WalkResult::Continue })
    };
    let (visits, result) = drive(DIR.post_order_walk(), &sample(), &visitor);
    assert_eq!(visits, vec!["a", "c", "b", "f"]);
    assert_eq!(result, Ok(WalkResult::Continue));
    let (visits, result) = drive(DIR.pre_order_walk(), &sample(), &visitor);
    assert_eq!(visits, vec!["a", "b", "c", "f"]);
    assert_eq!(result, Ok(WalkResult::Continue));
}

#[test]
fn skip_of_a_directory_leaves_out_what_follows_it() {
    let visitor = |name: &str| {
        Ok(if name == "b" { WalkResult::Skip } else { WalkResult::Continue })
    };
    let (visits, result) = drive(DIR.post_order_walk(), &sample(), &visitor);
    assert_eq!(visits, vec!["a", "c", "d", "e", "b"]);
    assert_eq!(result, Ok(WalkResult::Continue));
    let (visits, result) = drive(DIR.pre_order_walk(), &sample(), &visitor);
    assert_eq!(visits, vec!["a", "b"]);
    assert_eq!(result, Ok(WalkResult::Continue));
}

#[test]
fn failures_end_a_walk() {
    let visitor = |name: &str| if name == "c" { Err(5) } else { Ok(WalkResult::Continue) };
    let (visits, result) = drive(DIR.post_order_walk(), &sample(), &visitor);
    assert_eq!(visits, vec!["a", "c"]);
    assert_eq!(result, Err(5));
    let tree = vec![Tree("a", None), Tree("locked", Some(vec![])), Tree("z", None)];
    let (visits, result) = drive(DIR.pre_order_walk(), &tree, &go_on);
    assert_eq!(visits, vec!["a", "locked"]);
    assert_eq!(result, Err(13));
    let (visits, result) = drive(DIR.post_order_walk(), &tree, &go_on);
    assert_eq!(visits, vec!["a"]);
    assert_eq!(result, Err(13));
    let mut walk = Walk::new(WalkOrder::Pre);
    assert!(matches!(
        walk.step(WalkEvent::Read(Err(9))),
        WalkStep::Finish(Err(9))
    ));
}

#[test]
fn walk_tracks_depth_and_current_entry() {
    let mut walk = DIR.post_order_walk();
    assert!(walk.current().is_none());
    assert!(matches!(
        walk.step(WalkEvent::<i32>::Read(Ok(Some(entry("b", libc::DT_DIR))))),
        WalkStep::Enter
    ));
    assert_eq!(walk.depth(), 0);
    assert!(matches!(walk.step(WalkEvent::<i32>::Entered(Ok(()))), WalkStep::Read));
    assert_eq!(walk.depth(), 1);
    assert!(walk.current().is_none());
    assert!(matches!(walk.step(WalkEvent::<i32>::Read(Ok(None))), WalkStep::Visit));
    assert_eq!(walk.depth(), 0);
    assert_eq!(name(walk.current().unwrap()), "b");
}

#[test]
fn remove_all_unlinks_bottom_up() {
    let mut work: RemoveAll = DIR.remove_all();
    let mut reads = vec![
        Some(("b", libc::DT_DIR)),
        Some(("c", libc::DT_REG)),
        None,
        Some(("f", libc::DT_LNK)),
        None,
    ]
    .into_iter();
    let mut removed = Vec::new();
    let mut step: RemoveStep<i32> = RemoveStep::Read;
    let result = loop {
        let event = match step {
            RemoveStep::Read => {
                let next = reads.next().unwrap();
                RemoveEvent::Read(Ok(next.map(|(name, kind)| entry(name, kind))))
            }
            RemoveStep::Enter => RemoveEvent::Entered(Ok(())),
            RemoveStep::Unlink => {
                let current = work.current().unwrap();
                removed.push((name(current), current.unlink().flags, work.depth()));
                RemoveEvent::Unlinked(Ok(()))
            }
            RemoveStep::Finish(result) => break result,
        };
        step = work.step(event);
    };
    assert_eq!(result, Ok(()));
    assert_eq!(
        removed,
        vec![
            ("c".to_string(), 0, 1),
            ("b".to_string(), libc::AT_REMOVEDIR, 0),
            ("f".to_string(), 0, 0)
        ]
    );
}

#[test]
fn remove_all_stops_at_a_failure() {
    let mut work = DIR.remove_all();
    assert!(matches!(
        work.step(RemoveEvent::<i32>::Read(Ok(Some(entry("a", libc::DT_REG))))),
        RemoveStep::Unlink
    ));
    assert!(matches!(
        work.step(RemoveEvent::Unlinked(Err(30))),
        RemoveStep::Finish(Err(30))
    ));
}

fn stat(mode: u32) -> Stat {
    Stat { st_mode: mode, st_dev: 1, st_ino: 2, st_size: 3 }
}

#[test]
fn rm_rf_removes_what_has_a_status() {
    let (mut work, first) = files::rm_rf::<i32>();
    assert_eq!(work, RmRf::Inspecting);
    assert_eq!(first, RmRfStep::Lstat);
    assert_eq!(work.step(RmRfEvent::<i32>::Lstat(Ok(stat(0o100644)))), RmRfStep::Remove);
    assert_eq!(work.step(RmRfEvent::<i32>::Removed(Ok(()))), RmRfStep::Finish(Ok(())));
    assert_eq!(work, RmRf::Finished);
    let (mut work, _) = files::rm_rf::<i32>();
    assert_eq!(work.step(RmRfEvent::<i32>::Lstat(Ok(stat(0o040755)))), RmRfStep::Remove);
    assert_eq!(work.step(RmRfEvent::Removed(Err(39))), RmRfStep::Finish(Err(39)));
    let (mut work, _) = files::rm_rf::<i32>();
    assert_eq!(work.step(RmRfEvent::Lstat(Err(2))), RmRfStep::Finish(Err(2)));
}

#[test]
fn rm_rf_empties_an_opened_directory_first() {
    let mut work = RmRf::Opening;
    assert_eq!(work.step(RmRfEvent::<i32>::Opened(Ok(()))), RmRfStep::RemoveAll);
    assert_eq!(work.step(RmRfEvent::<i32>::Emptied(Ok(()))), RmRfStep::Remove);
    let mut work = RmRf::Opening;
    assert_eq!(work.step(RmRfEvent::Opened(Err(13))), RmRfStep::Finish(Err(13)));
    let mut work = RmRf::Emptying;
    assert_eq!(work.step(RmRfEvent::Emptied(Err(16))), RmRfStep::Finish(Err(16)));
}

#[test]
fn read_passes_over_dots() {
    assert!(matches!(DIR.read(Some((b".\0", libc::DT_DIR)), 0), Ok(DirRead::Again)));
    assert!(matches!(DIR.read(Some((b"..\0junk", libc::DT_DIR)), 0), Ok(DirRead::Again)));
    assert!(matches!(DIR.read(Some((b"...\0", libc::DT_DIR)), 0), Ok(DirRead::Entry(_))));
    assert!(matches!(DIR.read(Some((b".a\0", libc::DT_DIR)), 0), Ok(DirRead::Entry(_))));
    assert!(matches!(DIR.read(Some((b"a\0", libc::DT_REG)), 0), Ok(DirRead::Entry(_))));
}

#[test]
fn read_tells_the_end_from_a_failure() {
    assert!(matches!(DIR.read(None, 0), Ok(DirRead::End)));
    assert!(matches!(DIR.read(None, 9), Err(FileError::Os(9))));
}

/// Reads a whole stream that ends with this failure, if any, from an `errno` left over from before.
fn read_all(stream: &[(&str, u8)], failure: Option<i32>) -> (Vec<String>, Option<FileError>) {
    let mut errno = 5;
    let mut names = Vec::new();
    let mut next = 0;
    loop {
        let call = DIR.readdir();
        assert_ne!(call.errno, errno);
        errno = call.errno;
        let raw = stream.get(next).map(|(name, kind)| (format!("{}\0", name), *kind));
        if raw.is_none() {
            errno = failure.unwrap_or(errno);
        }
        next += 1;
        match DIR.read(raw.as_ref().map(|(name, kind)| (name.as_bytes(), *kind)), errno) {
            Ok(DirRead::Again) => {}
            Ok(DirRead::End) => return (names, None),
            Ok(DirRead::Entry(entry)) => names.push(name(&entry)),
            Err(e) => return (names, Some(e)),
        }
        errno = 5;
    }
}

#[test]
fn older_errno_is_not_reported() {
    assert_eq!(DIR.readdir(), Readdir { fd: 7, errno: 0 });
    assert_eq!(read_all(&[], None), (vec![], None));
}

#[test]
fn stream_is_read_without_dots() {
    let stream = [("b", 8), (".", 4), ("..", 4), ("a", 4), (".a", 8), (".", 4)];
    let names = vec!["b".to_string(), "a".to_string(), ".a".to_string()];
    assert_eq!(read_all(&stream, None), (names.clone(), None));
    assert_eq!(read_all(&stream, Some(9)), (names, Some(FileError::Os(9))));
    assert_eq!(read_all(&[(".", 4), ("..", 4)], None), (vec![], None));
}

#[test]
fn both_orders_visit_the_same() {
    let (mut pre, _) = drive(DIR.pre_order_walk(), &sample(), &go_on);
    let (mut post, _) = drive(DIR.post_order_walk(), &sample(), &go_on);
    let at = |visits: &Vec<String>, name: &str| visits.iter().position(|n| n == name);
    for below in ["c", "d", "e"] {
        assert!(at(&pre, "b") < at(&pre, below));
        assert!(at(&post, "b") > at(&post, below));
    }
    pre.sort();
    post.sort();
    assert_eq!(pre, post);
}

#[test]
fn entry_has_name_and_kind() {
    let file = entry("file.txt", libc::DT_REG);
    assert_eq!(file.d_name(), b"file.txt\0");
    assert!(file.is_file() && !file.is_dir() && !file.is_lnk());
    let dir = entry("d", libc::DT_DIR);
    assert!(dir.is_dir() && !dir.is_file() && !dir.is_lnk());
    let link = entry("l", libc::DT_LNK);
    assert!(link.is_lnk() && !link.is_dir() && !link.is_file());
    let other = entry("s", libc::DT_SOCK);
    assert!(!other.is_lnk() && !other.is_dir() && !other.is_file());
}

#[test]
fn entry_path_is_directory_slash_name() {
    let file = entry("xyz", libc::DT_REG);
    let mut buf = [b'?'; 16];
    buf[..5].copy_from_slice(b"/dir\0");
    assert_eq!(file.path(&mut buf, Ok(4)), Ok(8));
    assert_eq!(&buf[..9], b"/dir/xyz\0");
    assert_eq!(&buf[9..], [b'?'; 7]);
}

#[test]
fn entry_path_is_cut_to_the_buffer() {
    let file = entry("xyz", libc::DT_REG);
    let mut buf = *b"/dir\0??";
    assert_eq!(file.path(&mut buf, Ok(4)), Ok(6));
    assert_eq!(&buf, b"/dir/x\0");
    let mut buf = *b"/dir\0";
    assert_eq!(file.path(&mut buf, Ok(4)), Ok(5));
    assert_eq!(&buf, b"/dir/");
    let mut buf = *b"/dir\0";
    assert_eq!(file.path(&mut buf, Err(FileError::Os(2))), Err(FileError::Os(2)));
    assert_eq!(&buf, b"/dir\0");
}

#[test]
fn unlink_asks_for_a_directory_as_one() {
    let dir = entry("d", libc::DT_DIR);
    let call = dir.unlink();
    assert_eq!((call.dirfd, call.name, call.flags), (7, &b"d\0"[..], libc::AT_REMOVEDIR));
    let file = entry("f", libc::DT_REG);
    let call = file.unlink();
    assert_eq!((call.dirfd, call.name, call.flags), (7, &b"f\0"[..], 0));
}

#[test]
fn open_wants_the_right_kind() {
    let dir = entry("d", libc::DT_DIR);
    let file = entry("f", libc::DT_REG);
    let call = dir.open_as_dir().unwrap();
    assert_eq!(
        (call.dirfd, call.name, call.flags),
        (7, &b"d\0"[..], libc::O_RDONLY | libc::O_CLOEXEC)
    );
    assert_eq!(file.open_as_dir().err(), Some(FileError::NotADirectory));
    let call = file.open_as_file(libc::O_WRONLY | libc::O_APPEND).unwrap();
    assert_eq!(
        (call.dirfd, call.name, call.flags),
        (7, &b"f\0"[..], libc::O_WRONLY | libc::O_APPEND | libc::O_CLOEXEC)
    );
    assert_eq!(dir.open_as_file(0).err(), Some(FileError::IsADirectory));
    assert_eq!(file.open_at(1, 4).flags, 5);
}

#[test]
fn directory_open_passes_on_the_outcome() {
    assert_eq!(Directory::open(Ok(3)), Ok(Directory { fd: 3 }));
    assert_eq!(Directory::open(Err(FileError::Os(20))), Err(FileError::Os(20)));
}

#[test]
fn negative_returns_are_failures() {
    assert_eq!(check_os_err(-1, 13), Err(FileError::Os(13)));
    assert_eq!(check_os_err(0, 13), Ok(0));
    assert_eq!(check_os_err(5, 0), Ok(5));
}
