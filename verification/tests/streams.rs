use files::lines::{prop, BufReadExt, LineEvent, LineStep, Lines};
use files::transfer::{
    MoveStep, ReadExt, ReadSeekExt, SeekEvent, SeekSkip, SeekStep, Skip, WriteExt, Zeros,
};

fn pieces_of(len: usize) -> Vec<usize> {
    let mut skip = Skip::new(len);
    let mut pieces = Vec::new();
    loop {
        match skip.skip::<()>(Ok(())) {
            MoveStep::Move(n) => pieces.push(n),
            MoveStep::Finish(result) => {
                assert_eq!(result, Ok(()));
                return pieces;
            }
        }
    }
}

#[test]
fn skip_reads_by_buffers() {
    assert_eq!(pieces_of(0), Vec::<usize>::new());
    assert_eq!(pieces_of(1), vec![1]);
    assert_eq!(pieces_of(4096), vec![4096]);
    assert_eq!(pieces_of(4097), vec![4096, 1]);
    assert_eq!(pieces_of(10000), vec![4096, 4096, 1808]);
}

/// Skips in a reader of `size` bytes, and gives the position after it and the result.
fn skip_in(size: usize, at: usize, len: usize) -> (usize, Result<(), &'static str>) {
    let mut at = at;
    let mut skip = Skip::new(len);
    let mut last = Ok(());
    loop {
        match skip.skip(last) {
            MoveStep::Move(n) if at + n <= size => {
                at += n;
                last = Ok(());
            }
            MoveStep::Move(_) => last = Err("eof"),
            MoveStep::Finish(result) => return (at, result),
        }
    }
}

#[test]
fn skips_add_up() {
    for (a, b) in [(0, 0), (0, 7), (4096, 1), (5000, 3192), (4000, 4000)] {
        let (middle, first) = skip_in(8192, 0, a);
        let (end, second) = skip_in(8192, middle, b);
        assert_eq!((first, second), (Ok(()), Ok(())));
        assert_eq!(skip_in(8192, 0, a + b), (end, Ok(())));
        assert_eq!(end, a + b);
    }
    assert_eq!(skip_in(8192, 5000, 3193).1, Err("eof"));
    assert_eq!(skip_in(8192, 0, 8193).1, Err("eof"));
    assert_eq!(skip_in(8192, 11, 0), (11, Ok(())));
}

#[test]
fn skip_stops_at_a_failure() {
    let mut skip = Skip::new(10000);
    assert_eq!(skip.skip::<&str>(Ok(())), MoveStep::Move(4096));
    assert_eq!(skip.skip(Err("eof")), MoveStep::Finish(Err("eof")));
}

#[test]
fn write_zeros_writes_zeros() {
    let mut work = Zeros::new(5000);
    let mut out = Vec::new();
    loop {
        match work.write_zeros::<()>(Ok(())) {
            MoveStep::Move(n) => {
                assert_eq!(work.data().len(), n);
                out.extend_from_slice(work.data());
            }
            MoveStep::Finish(result) => {
                assert_eq!(result, Ok(()));
                break;
            }
        }
    }
    assert_eq!(out, vec![0; 5000]);
    let mut work = Zeros::new(1);
    assert_eq!(work.write_zeros::<i32>(Ok(())), MoveStep::Move(1));
    assert_eq!(work.write_zeros(Err(28)), MoveStep::Finish(Err(28)));
}

#[test]
fn seek_is_enough_where_it_works() {
    let (mut work, first) = SeekSkip::new::<i32>(5000);
    assert_eq!(first, SeekStep::Seek(5000));
    assert_eq!(work.skip::<i32>(SeekEvent::Sought(true)), SeekStep::Finish(Ok(())));
    let (_, first) = SeekSkip::new::<i32>(usize::MAX);
    assert_eq!(first, SeekStep::Seek(-1));
}

#[test]
fn reads_replace_a_failed_seek() {
    let (mut work, _) = SeekSkip::new::<i32>(5000);
    assert_eq!(work.skip::<i32>(SeekEvent::Sought(false)), SeekStep::Move(4096));
    assert_eq!(work.skip::<i32>(SeekEvent::Read(Ok(()))), SeekStep::Move(904));
    assert_eq!(work.skip::<i32>(SeekEvent::Read(Ok(()))), SeekStep::Finish(Ok(())));
    let (mut work, _) = SeekSkip::new::<i32>(0);
    assert_eq!(work.skip::<i32>(SeekEvent::Sought(false)), SeekStep::Finish(Ok(())));
    let (mut work, _) = SeekSkip::new::<i32>(9);
    assert_eq!(work.skip::<i32>(SeekEvent::Sought(false)), SeekStep::Move(9));
    assert_eq!(work.skip(SeekEvent::Read(Err(4))), SeekStep::Finish(Err(4)));
}

/// Goes through `text`, and gives the lines handed out and the failure reported.
fn go(
    props: bool,
    text: &[&str],
    failure: Option<i32>,
    answer: &dyn Fn(&str) -> bool,
) -> (Vec<String>, Option<i32>) {
    let mut lines = Lines::new();
    let mut given = Vec::new();
    let mut next = 0;
    let mut step = LineStep::Read;
    loop {
        let event = match step {
            LineStep::Read => {
                assert_eq!(lines.line().as_str(), "");
                if next < text.len() {
                    lines.line().push_str(text[next]);
                    next += 1;
                    LineEvent::Read(Ok(text[next - 1].len()))
                } else {
                    match failure {
                        Some(e) => LineEvent::Read(Err(e)),
                        None => LineEvent::Read(Ok(0)),
                    }
                }
            }
            LineStep::Call => {
                let line = if props {
                    let (key, value) = lines.prop().unwrap();
                    format!("{}|{}", key, value)
                } else {
                    lines.line().clone()
                };
                let more = answer(&line);
                given.push(line);
                LineEvent::Called(more)
            }
            LineStep::Report(e) => return (given, Some(e)),
            LineStep::Stop => return (given, None),
        };
        step = if props { lines.foreach_props(event) } else { lines.foreach_lines(event) };
    }
}

const FILE: [&str; 6] =
    ["# a comment\n", "  ro.a=1\n", "\n", "no pair\n", "ro.b = x=y \r\n", "=\n"];

#[test]
fn lines_are_handed_out_in_order() {
    let (given, failure) = go(false, &FILE, None, &|_| true);
    assert_eq!(given, FILE.to_vec());
    assert_eq!(failure, None);
    let (given, failure) = go(false, &FILE, Some(5), &|_| true);
    assert_eq!(given, FILE.to_vec());
    assert_eq!(failure, Some(5));
}

#[test]
fn lines_stop_on_demand() {
    let (given, failure) = go(false, &FILE, Some(5), &|line| line != "\n");
    assert_eq!(given, FILE[..3].to_vec());
    assert_eq!(failure, None);
}

#[test]
fn props_are_the_lines_with_a_pair() {
    let (given, failure) = go(true, &FILE, None, &|_| true);
    assert_eq!(given, vec!["ro.a|1", "ro.b | x=y", "|"]);
    assert_eq!(failure, None);
    let (given, failure) = go(true, &FILE, Some(5), &|line| line == "ro.a|1");
    assert_eq!(given, vec!["ro.a|1", "ro.b | x=y"]);
    assert_eq!(failure, None);
}

#[test]
fn prop_splits_at_the_first_equals() {
    assert_eq!(prop("key=value"), Some(("key", "value")));
    assert_eq!(prop("a=b=c"), Some(("a", "b=c")));
    assert_eq!(prop("=v"), Some(("", "v")));
    assert_eq!(prop("k="), Some(("k", "")));
    assert_eq!(prop("key"), None);
    assert_eq!(prop(""), None);
    assert_eq!(prop("#k=v"), None);
    assert_eq!(prop("k#=v"), Some(("k#", "v")));
}

#[test]
fn prop_trims_unicode_white_space() {
    assert_eq!(prop(" \t\u{b}\u{c}\r\nk=v\u{85}\u{a0}\n"), Some(("k", "v")));
    assert_eq!(prop("\u{1680}\u{2000}\u{200a}k=v\u{2028}\u{2029}"), Some(("k", "v")));
    assert_eq!(prop("\u{202f}\u{205f}\u{3000}k = v"), Some(("k ", " v")));
    assert_eq!(prop("\u{200b}k=v\u{180e}"), Some(("\u{200b}k", "v\u{180e}")));
    assert_eq!(prop("  # k=v"), None);
}

#[test]
fn white_space_is_as_documented() {
    for u in 0..=0x10ffffu32 {
        if let Some(c) = char::from_u32(u) {
            let listed = matches!(u, 0x9..=0xd | 0x20 | 0x85 | 0xa0 | 0x1680 | 0x2000..=0x200a
                | 0x2028 | 0x2029 | 0x202f | 0x205f | 0x3000);
            assert_eq!(c.is_whitespace(), listed);
        }
    }
}
