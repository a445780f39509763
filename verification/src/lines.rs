//! Going through text line by line, and through the `key=value` lines of a property file.

use vstd::prelude::*;

verus! {

/// Whether Unicode counts a character as white space.
pub open spec fn is_white_space(c: char) -> bool {
    let u = c as u32;
    ||| 0x9 <= u <= 0xD
    ||| u == 0x20
    ||| u == 0x85
    ||| u == 0xA0
    ||| u == 0x1680
    ||| 0x2000 <= u <= 0x200A
    ||| u == 0x2028
    ||| u == 0x2029
    ||| u == 0x202F
    ||| u == 0x205F
    ||| u == 0x3000
}

/// Text without the white space that it begins with.
pub open spec fn trimmed_start(s: Seq<char>) -> Seq<char>
    decreases s.len(),
{
    if s.len() > 0 && is_white_space(s[0]) {
        trimmed_start(s.skip(1))
    } else {
        s
    }
}

/// Text without the white space that it ends with.
pub open spec fn trimmed_end(s: Seq<char>) -> Seq<char>
    decreases s.len(),
{
    if s.len() > 0 && is_white_space(s.last()) {
        trimmed_end(s.drop_last())
    } else {
        s
    }
}

/// Text without the white space around it.
pub open spec fn trimmed(s: Seq<char>) -> Seq<char> {
    trimmed_end(trimmed_start(s))
}

/// The first index from `from` on at which `s` holds `c`, or the length of `s` if there is none.
pub open spec fn find_char(s: Seq<char>, c: char, from: int) -> int
    decreases s.len() - from,
{
    if from >= s.len() {
        s.len() as int
    } else if s[from] == c {
        from
    } else {
        find_char(s, c, from + 1)
    }
}

/// `str::trim` of std: leaves out the white space at both ends, as Unicode's `White_Space`
/// property tells it.
#[verifier::external_body]
fn trim(s: &str) -> (r: &str)
    ensures
        r@ == trimmed(s@),
{
    s.trim()
}

/// `str::split_once` of std with a character: gives what is before and what is after the first
/// `delimiter`, or nothing if there is none.
#[verifier::external_body]
fn split_once(s: &str, delimiter: char) -> (r: Option<(&str, &str)>)
    ensures
        ({
            let i = find_char(s@, delimiter, 0);
            if i < s@.len() {
                &&& r is Some
                &&& r->Some_0.0@ == s@.take(i)
                &&& r->Some_0.1@ == s@.skip(i + 1)
            } else {
                r is None
            }
        }),
{
    s.split_once(delimiter)
}

/// The key and the value of a line of a property file. White space around the line does not
/// count. A line that begins with `#`, or has no `=`, has none.
pub open spec fn spec_prop(line: Seq<char>) -> Option<(Seq<char>, Seq<char>)> {
    let text = trimmed(line);
    let i = find_char(text, '=', 0);
    if text.len() > 0 && text[0] == '#' {
        None
    } else if i < text.len() {
        Some((text.take(i), text.skip(i + 1)))
    } else {
        None
    }
}

/// The key and the value of a line of a property file, if it has them.
pub fn prop(line: &str) -> (r: Option<(&str, &str)>)
    ensures
        match spec_prop(line@) {
            Some((key, value)) => {
                &&& r is Some
                &&& r->Some_0.0@ == key
                &&& r->Some_0.1@ == value
            },
            None => r is None,
        },
{
    let text: &str = trim(line);
    if !text.is_empty() && text.get_char(0) == '#' {
        return None;
    }
    split_once(text, '=')
}

/// What going through lines waits for.
#[derive(Clone, Copy, Debug, PartialEq, Eq, Structural)]
pub enum LinePhase {
    /// For a line to be read.
    Reading,
    /// For the answer to a line.
    Calling,
    /// For nothing.
    Stopped,
}

/// What going through lines has to do next.
#[derive(Debug, PartialEq, Eq)]
pub enum LineStep<E> {
    /// Read a line to the end of the buffer.
    Read,
    /// Hand out what is in the buffer, and ask whether to go on.
    Call,
    /// Log this failure to read, and stop.
    Report(E),
    /// Stop.
    Stop,
}

/// What came of a step.
#[derive(Debug, PartialEq, Eq)]
pub enum LineEvent<E> {
    /// The bytes read; none at the end of the text.
    Read(Result<usize, E>),
    /// Whether to go on.
    Called(bool),
}

/// The state of going through lines: what it waits for, and the text in the buffer.
pub struct LineState {
    pub phase: LinePhase,
    pub text: Seq<char>,
}

impl LineState {
    /// The state at the start.
    pub open spec fn start() -> LineState {
        LineState { phase: LinePhase::Reading, text: Seq::empty() }
    }

    /// Whether such an event is waited for.
    pub open spec fn awaits<E>(self, event: LineEvent<E>) -> bool {
        match event {
            LineEvent::Read(_) => self.phase is Reading,
            LineEvent::Called(_) => self.phase is Calling,
        }
    }

    /// Nothing more is done.
    pub open spec fn stop<E>(self, step: LineStep<E>) -> (LineState, LineStep<E>) {
        (LineState { phase: LinePhase::Stopped, ..self }, step)
    }

    /// The state and the step that follow an event, where `wanted` tells whether the text in the
    /// buffer is handed out or passed over. The next line is read to an empty buffer.
    pub open spec fn next<E>(self, wanted: bool, event: LineEvent<E>) -> (LineState, LineStep<E>) {
        match event {
            LineEvent::Read(Err(e)) => self.stop(LineStep::Report(e)),
            LineEvent::Read(Ok(n)) => if n == 0 {
                self.stop(LineStep::Stop)
            } else if wanted {
                (LineState { phase: LinePhase::Calling, ..self }, LineStep::Call)
            } else {
                (LineState::start(), LineStep::Read)
            },
            LineEvent::Called(true) => (LineState::start(), LineStep::Read),
            LineEvent::Called(false) => self.stop(LineStep::Stop),
        }
    }
}

/// A buffered reader that is gone through by lines.
pub trait BufReadExt {
    /// The state of going through the lines.
    spec fn state(&self) -> LineState;

    /// Takes what the last step came to and says what to do next. Every line is handed out.
    fn foreach_lines<E>(&mut self, event: LineEvent<E>) -> (r: LineStep<E>)
        requires
            old(self).state().awaits(event),
        ensures
            (final(self).state(), r) == old(self).state().next(true, event),
    ;

    /// Takes what the last step came to and says what to do next. Only lines with a key and a
    /// value are handed out.
    fn foreach_props<E>(&mut self, event: LineEvent<E>) -> (r: LineStep<E>)
        requires
            old(self).state().awaits(event),
        ensures
            (final(self).state(), r) == old(self).state().next(
                spec_prop(old(self).state().text) is Some,
                event,
            ),
    ;
}

/// The buffer that lines are read to, and what is done with them.
#[derive(Debug)]
pub struct Lines {
    phase: LinePhase,
    buf: String,
}

impl Lines {
    /// Begins to go through lines. The first step is to read one.
    pub fn new() -> (r: Lines)
        ensures
            r.state() == LineState::start(),
    {
        Lines { phase: LinePhase::Reading, buf: String::new() }
    }

    /// The buffer.
    pub fn line(&mut self) -> (r: &mut String)
        ensures
            r@ == old(self).state().text,
            final(self).state() == (LineState { text: final(r)@, ..old(self).state() }),
    {
        &mut self.buf
    }

    /// The key and the value of the line in the buffer, if it has them.
    pub fn prop(&self) -> (r: Option<(&str, &str)>)
        ensures
            match spec_prop(self.state().text) {
                Some((key, value)) => {
                    &&& r is Some
                    &&& r->Some_0.0@ == key
                    &&& r->Some_0.1@ == value
                },
                None => r is None,
            },
    {
        prop(self.buf.as_str())
    }

    /// Takes an event, with the text in the buffer handed out if it is `wanted`.
    fn step<E>(&mut self, wanted: bool, event: LineEvent<E>) -> (r: LineStep<E>)
        ensures
            (final(self).state(), r) == old(self).state().next(wanted, event),
    {
        match event {
            LineEvent::Read(Err(e)) => {
                self.phase = LinePhase::Stopped;
                LineStep::Report(e)
            },
            LineEvent::Read(Ok(n)) if n != 0 && wanted => {
                self.phase = LinePhase::Calling;
                LineStep::Call
            },
            LineEvent::Read(Ok(0)) | LineEvent::Called(false) => {
                self.phase = LinePhase::Stopped;
                LineStep::Stop
            },
            LineEvent::Read(Ok(_)) | LineEvent::Called(true) => {
                self.phase = LinePhase::Reading;
                self.buf = String::new();
                LineStep::Read
            },
        }
    }
}

impl BufReadExt for Lines {
    closed spec fn state(&self) -> LineState {
        LineState { phase: self.phase, text: self.buf@ }
    }

    fn foreach_lines<E>(&mut self, event: LineEvent<E>) -> (r: LineStep<E>) {
        self.step(true, event)
    }

    fn foreach_props<E>(&mut self, event: LineEvent<E>) -> (r: LineStep<E>) {
        let wanted: bool = prop(self.buf.as_str()).is_some();
        self.step(wanted, event)
    }
}

/// Text that is read line by line: its lines, and a failure to read on after them, if there is
/// one.
pub struct Text<E> {
    pub lines: Seq<Seq<char>>,
    pub failure: Option<E>,
}

/// Whether the text in the buffer is handed out.
pub open spec fn is_wanted(props: bool, text: Seq<char>) -> bool {
    !props || spec_prop(text) is Some
}

/// What is handed out from this state on, with line `i` the next to read, and the failure that
/// is reported. `answers` tells whether to go on after what is handed out first, and so on; `n`
/// lines were handed out before.
pub open spec fn run<E>(
    props: bool,
    state: LineState,
    text: Text<E>,
    i: int,
    answers: spec_fn(nat) -> bool,
    n: nat,
) -> (Seq<Seq<char>>, Option<E>)
    decreases text.lines.len() - i,
{
    if i >= text.lines.len() {
        let event = match text.failure {
            Some(e) => LineEvent::Read(Err(e)),
            None => LineEvent::Read(Ok(0usize)),
        };
        match state.next(is_wanted(props, state.text), event).1 {
            LineStep::Report(e) => (Seq::empty(), Some(e)),
            _ => (Seq::empty(), None),
        }
    } else {
        let read = LineState { text: state.text + text.lines[i], ..state };
        let wanted = is_wanted(props, read.text);
        match read.next(wanted, LineEvent::<E>::Read(Ok(1usize))) {
            (asked, LineStep::Call) => match asked.next(
                wanted,
                LineEvent::<E>::Called(answers(n)),
            ) {
                (later, LineStep::Read) => {
                    let (more, failure) = run(props, later, text, i + 1, answers, n + 1);
                    (seq![asked.text] + more, failure)
                },
                _ => (seq![asked.text], None),
            },
            (later, LineStep::Read) => run(props, later, text, i + 1, answers, n),
            _ => (Seq::empty(), None),
        }
    }
}

/// The lines from line `i` on that are handed out, up to the first whose answer is not to go on.
/// If there is no such answer, the failure after the last line, if there is one, is reported.
pub open spec fn handed_out<E>(
    props: bool,
    text: Text<E>,
    i: int,
    answers: spec_fn(nat) -> bool,
    n: nat,
) -> (Seq<Seq<char>>, Option<E>)
    decreases text.lines.len() - i,
{
    if i >= text.lines.len() {
        (Seq::empty(), text.failure)
    } else if !is_wanted(props, text.lines[i]) {
        handed_out(props, text, i + 1, answers, n)
    } else if !answers(n) {
        (seq![text.lines[i]], None)
    } else {
        let (more, failure) = handed_out(props, text, i + 1, answers, n + 1);
        (seq![text.lines[i]] + more, failure)
    }
}

/// Lines are handed out one at a time and in order, nothing of one line being left in the buffer
/// for the next, up to the first answer not to go on. Of a property file the lines without a key
/// and a value are passed over.
pub proof fn law_lines_in_order<E>(
    props: bool,
    text: Text<E>,
    i: int,
    answers: spec_fn(nat) -> bool,
    n: nat,
)
    requires
        0 <= i,
    ensures
        run(props, LineState::start(), text, i, answers, n) == handed_out(
            props,
            text,
            i,
            answers,
            n,
        ),
    decreases text.lines.len() - i,
{
    if i < text.lines.len() {
        assert(LineState::start().text + text.lines[i] =~= text.lines[i]);
        law_lines_in_order(props, text, i + 1, answers, n);
        law_lines_in_order(props, text, i + 1, answers, n + 1);
    }
}

proof fn lemma_find_char(s: Seq<char>, c: char, from: int, at: int)
    requires
        0 <= from <= at < s.len(),
        s[at] == c,
        forall|i: int| from <= i < at ==> s[i] != c,
    ensures
        find_char(s, c, from) == at,
    decreases at - from,
{
    if from < at {
        lemma_find_char(s, c, from + 1, at);
    }
}

/// A key and a value written with `=` between them read back as they were, whatever the value
/// holds between its first and its last character. The key must have no `=` and not begin with
/// `#`, and there must be no white space at the ends.
pub proof fn law_prop_reads_back(key: Seq<char>, value: Seq<char>)
    requires
        forall|i: int| 0 <= i < key.len() ==> key[i] != '=',
        key.len() > 0 ==> key[0] != '#' && !is_white_space(key[0]),
        value.len() > 0 ==> !is_white_space(value.last()),
    ensures
        spec_prop(key + seq!['='] + value) == Some((key, value)),
{
    let line = key + seq!['='] + value;
    assert(!is_white_space('='));
    assert(line[0] == (if key.len() > 0 {
        key[0]
    } else {
        '='
    }));
    assert(line.last() == (if value.len() > 0 {
        value.last()
    } else {
        '='
    }));
    assert(trimmed(line) == line);
    assert(line[key.len() as int] == '=');
    assert forall|i: int| 0 <= i < key.len() implies line[i] != '=' by {
        assert(line[i] == key[i]);
    }
    lemma_find_char(line, '=', 0, key.len() as int);
    assert(line.take(key.len() as int) =~= key);
    assert(line.skip(key.len() + 1int) =~= value);
}

/// White space around a line changes nothing of its key and its value.
pub proof fn law_margins_do_not_count(before: char, line: Seq<char>, after: char)
    requires
        is_white_space(before),
        is_white_space(after),
    ensures
        spec_prop(seq![before] + line) == spec_prop(line),
        spec_prop(line.push(after)) == spec_prop(line),
{
    let left = seq![before] + line;
    assert(left.skip(1) =~= line);
    lemma_trimmed_push(line, after);
}

proof fn lemma_trimmed_push(line: Seq<char>, after: char)
    requires
        is_white_space(after),
    ensures
        trimmed(line.push(after)) == trimmed(line),
    decreases line.len(),
{
    let right = line.push(after);
    if line.len() > 0 && is_white_space(line[0]) {
        lemma_trimmed_push(line.skip(1), after);
        assert(right.skip(1) =~= line.skip(1).push(after));
    } else if line.len() > 0 {
        assert(right.drop_last() =~= line);
    } else {
        assert(right.skip(1) =~= line);
        reveal_with_fuel(trimmed_start, 2);
    }
}

/// How many bytes a line has matters only as none or some: a read of any number of bytes but zero
/// is as a read of any other such number.
pub proof fn law_any_count_is_a_line<E>(state: LineState, wanted: bool, m: usize, n: usize)
    requires
        m > 0,
        n > 0,
    ensures
        state.next(wanted, LineEvent::<E>::Read(Ok(m))) == state.next(
            wanted,
            LineEvent::<E>::Read(Ok(n)),
        ),
        ({
            let (later, step) = state.next(wanted, LineEvent::<E>::Read(Ok(n)));
            if wanted {
                step is Call && later.phase is Calling && later.text == state.text
            } else {
                step is Read && later.phase is Reading && later.text.len() == 0
            }
        }),
{
}

/// The end of the text, a failure to read and the answer not to go on are the end, and nothing
/// else is. Only a failure is reported, and as it is. After the answer to go on the next line is
/// read, to an empty buffer.
pub proof fn law_lines_end_as_told<E>(state: LineState, wanted: bool, event: LineEvent<E>)
    ensures
        match event {
            LineEvent::Read(Ok(n)) => state.next(wanted, event).1 is Stop <==> n == 0,
            LineEvent::Read(Err(e)) => state.next(wanted, event).1 == LineStep::Report(e),
            LineEvent::Called(more) => if more {
                &&& state.next(wanted, event).1 is Read
                &&& state.next(wanted, event).0.phase is Reading
                &&& state.next(wanted, event).0.text.len() == 0
            } else {
                state.next(wanted, event).1 is Stop
            },
        },
        state.next(wanted, event).1 is Report <==> event is Read && event->Read_0 is Err,
{
}

/// Going through lines takes what comes of the step that it asked for, whatever that is, and
/// begins with a read to an empty buffer.
pub proof fn law_any_line_outcome_is_taken<E>(
    state: LineState,
    read: Result<usize, E>,
    more: bool,
)
    ensures
        state.awaits(LineEvent::Read(read)) <==> state.phase is Reading,
        state.awaits(LineEvent::<E>::Called(more)) <==> state.phase is Calling,
        LineState::start().phase is Reading && LineState::start().text.len() == 0,
{
}

/// As [`run`], where the read of line `i` tells `counts(i)` bytes.
pub open spec fn run_counted<E>(
    props: bool,
    state: LineState,
    text: Text<E>,
    counts: spec_fn(int) -> usize,
    i: int,
    answers: spec_fn(nat) -> bool,
    n: nat,
) -> (Seq<Seq<char>>, Option<E>)
    decreases text.lines.len() - i,
{
    if i >= text.lines.len() {
        let event = match text.failure {
            Some(e) => LineEvent::Read(Err(e)),
            None => LineEvent::Read(Ok(0usize)),
        };
        match state.next(is_wanted(props, state.text), event).1 {
            LineStep::Report(e) => (Seq::empty(), Some(e)),
            _ => (Seq::empty(), None),
        }
    } else {
        let read = LineState { text: state.text + text.lines[i], ..state };
        let wanted = is_wanted(props, read.text);
        match read.next(wanted, LineEvent::<E>::Read(Ok(counts(i)))) {
            (asked, LineStep::Call) => match asked.next(
                wanted,
                LineEvent::<E>::Called(answers(n)),
            ) {
                (later, LineStep::Read) => {
                    let (more, failure) = run_counted(
                        props,
                        later,
                        text,
                        counts,
                        i + 1,
                        answers,
                        n + 1,
                    );
                    (seq![asked.text] + more, failure)
                },
                _ => (seq![asked.text], None),
            },
            (later, LineStep::Read) => run_counted(props, later, text, counts, i + 1, answers, n),
            _ => (Seq::empty(), None),
        }
    }
}

/// Lines of any length are handed out one at a time and in order: what is handed out does not
/// depend on how many bytes the reads tell, as long as each tells some.
pub proof fn law_long_lines_in_order<E>(
    props: bool,
    text: Text<E>,
    counts: spec_fn(int) -> usize,
    i: int,
    answers: spec_fn(nat) -> bool,
    n: nat,
)
    requires
        0 <= i,
        forall|j: int| #[trigger] counts(j) > 0,
    ensures
        run_counted(props, LineState::start(), text, counts, i, answers, n) == handed_out(
            props,
            text,
            i,
            answers,
            n,
        ),
    decreases text.lines.len() - i,
{
    if i < text.lines.len() {
        assert(counts(i) > 0);
        assert(LineState::start().text + text.lines[i] =~= text.lines[i]);
        law_long_lines_in_order(props, text, counts, i + 1, answers, n);
        law_long_lines_in_order(props, text, counts, i + 1, answers, n + 1);
    }
}

proof fn lemma_all_handed_out<E>(
    text: Text<E>,
    i: int,
    answers: spec_fn(nat) -> bool,
    n: nat,
)
    requires
        0 <= i <= text.lines.len(),
        forall|j: nat| #[trigger] answers(j),
    ensures
        handed_out(false, text, i, answers, n) == (text.lines.skip(i), text.failure),
    decreases text.lines.len() - i,
{
    if i < text.lines.len() {
        lemma_all_handed_out(text, i + 1, answers, n + 1);
        assert(answers(n));
        assert(text.lines.skip(i) =~= seq![text.lines[i]] + text.lines.skip(i + 1));
    } else {
        assert(text.lines.skip(i) =~= Seq::empty());
    }
}

/// Where every answer is to go on, the lines that are handed out are all the lines of the text, as
/// they are, whatever they hold and however long they are, and the failure after them is reported.
pub proof fn law_every_line_is_handed_out<E>(
    text: Text<E>,
    counts: spec_fn(int) -> usize,
    answers: spec_fn(nat) -> bool,
)
    requires
        forall|j: int| #[trigger] counts(j) > 0,
        forall|j: nat| #[trigger] answers(j),
    ensures
        run_counted(false, LineState::start(), text, counts, 0, answers, 0) == (
            text.lines,
            text.failure,
        ),
{
    law_long_lines_in_order(false, text, counts, 0, answers, 0);
    lemma_all_handed_out(text, 0, answers, 0);
    assert(text.lines.skip(0) =~= text.lines);
}

/// What is handed out of a text, line by line. A line that holds a key and a value is handed out
/// of a property file, and every line of another text. The answer to it decides whether what is
/// handed out of the other lines follows. A line that is not handed out changes nothing.
pub proof fn law_handed_out_is_made_up<E>(
    props: bool,
    first: Seq<char>,
    rest: Seq<Seq<char>>,
    failure: Option<E>,
    answers: spec_fn(nat) -> bool,
    n: nat,
)
    ensures
        ({
            let whole = Text { lines: seq![first] + rest, failure };
            let others = Text { lines: rest, failure };
            handed_out(props, whole, 0, answers, n) == (if props && spec_prop(first) is None {
                handed_out(props, others, 0, answers, n)
            } else if answers(n) {
                let (more, reported) = handed_out(props, others, 0, answers, n + 1);
                (seq![first] + more, reported)
            } else {
                (seq![first], None)
            })
        }),
        handed_out(props, Text { lines: Seq::empty(), failure }, 0, answers, n) == (
            Seq::<Seq<char>>::empty(),
            failure,
        ),
{
    let whole = Text { lines: seq![first] + rest, failure };
    let others = Text { lines: rest, failure };
    assert(whole.lines.skip(1) =~= others.lines.skip(0));
    lemma_handed_out_rest(props, whole, 1, others, 0, answers, n);
    lemma_handed_out_rest(props, whole, 1, others, 0, answers, n + 1);
    assert(whole.lines[0] == first);
}

proof fn lemma_handed_out_rest<E>(
    props: bool,
    a: Text<E>,
    i: int,
    b: Text<E>,
    j: int,
    answers: spec_fn(nat) -> bool,
    n: nat,
)
    requires
        0 <= i <= a.lines.len(),
        0 <= j <= b.lines.len(),
        a.lines.skip(i) == b.lines.skip(j),
        a.failure == b.failure,
    ensures
        handed_out(props, a, i, answers, n) == handed_out(props, b, j, answers, n),
    decreases a.lines.len() - i,
{
    assert(a.lines.skip(i).len() == a.lines.len() - i);
    assert(b.lines.skip(j).len() == b.lines.len() - j);
    if i < a.lines.len() {
        assert(a.lines[i] == a.lines.skip(i)[0]);
        assert(b.lines[j] == b.lines.skip(j)[0]);
        assert(a.lines.skip(i + 1) =~= a.lines.skip(i).skip(1));
        assert(b.lines.skip(j + 1) =~= b.lines.skip(j).skip(1));
        lemma_handed_out_rest(props, a, i + 1, b, j + 1, answers, n);
        lemma_handed_out_rest(props, a, i + 1, b, j + 1, answers, n + 1);
    }
}

proof fn lemma_trimmed_end(s: Seq<char>)
    ensures
        trimmed_end(s).len() <= s.len(),
        trimmed_end(s) == s.take(trimmed_end(s).len() as int),
        forall|i: int|
            trimmed_end(s).len() <= i < s.len() ==> is_white_space(#[trigger] s[i]),
    decreases s.len(),
{
    if s.len() > 0 && is_white_space(s.last()) {
        lemma_trimmed_end(s.drop_last());
        let n = trimmed_end(s).len() as int;
        assert(s.take(n) =~= s.drop_last().take(n));
        assert forall|i: int| n <= i < s.len() implies is_white_space(#[trigger] s[i]) by {
            if i < s.len() - 1 {
                assert(s[i] == s.drop_last()[i]);
            }
        }
    } else {
        assert(s.take(s.len() as int) =~= s);
    }
}

proof fn lemma_trimmed_is_part(s: Seq<char>, c: char)
    requires
        !s.contains(c),
    ensures
        !trimmed(s).contains(c),
    decreases s.len(),
{
    if s.len() > 0 && is_white_space(s[0]) {
        assert forall|i: int| 0 <= i < s.skip(1).len() implies s.skip(1)[i] != c by {
            assert(s[i + 1] != c);
        }
        lemma_trimmed_is_part(s.skip(1), c);
    } else {
        lemma_trimmed_end(s);
        assert forall|i: int| 0 <= i < trimmed_end(s).len() implies trimmed_end(s)[i] != c by {
            assert(s[i] != c);
        }
    }
}

proof fn lemma_find_no_char(s: Seq<char>, c: char, from: int)
    requires
        0 <= from,
        !s.contains(c),
    ensures
        find_char(s, c, from) == s.len(),
    decreases s.len() - from,
{
    if from < s.len() {
        assert(s[from] != c);
        lemma_find_no_char(s, c, from + 1);
    }
}

/// A line without `=` has no key and value, and neither has a comment, a line that begins with
/// `#`, whatever follows.
pub proof fn law_other_lines_have_no_prop(line: Seq<char>)
    ensures
        !line.contains('=') ==> spec_prop(line) is None,
        spec_prop(seq!['#'] + line) is None,
{
    if !line.contains('=') {
        lemma_trimmed_is_part(line, '=');
        lemma_find_no_char(trimmed(line), '=', 0);
    }
    let comment = seq!['#'] + line;
    assert(comment[0] == '#');
    assert(!is_white_space('#'));
    lemma_trimmed_end(comment);
    assert(trimmed_start(comment) == comment);
    if trimmed(comment).len() == 0 {
        assert(is_white_space(comment[0]));
    }
    assert(trimmed(comment)[0] == comment[0]);
}

/// The characters that count as white space, by their numbers.
pub proof fn law_white_space_by_number(c: char)
    ensures
        is_white_space(c) <==> seq![
            9u32, 10u32, 11u32, 12u32, 13u32, 32u32, 133u32, 160u32, 5760u32, 8192u32, 8193u32,
            8194u32, 8195u32, 8196u32, 8197u32, 8198u32, 8199u32, 8200u32, 8201u32, 8202u32,
            8232u32, 8233u32, 8239u32, 8287u32, 12288u32,
        ].contains(c as u32),
{
    let all = seq![
        9u32, 10u32, 11u32, 12u32, 13u32, 32u32, 133u32, 160u32, 5760u32, 8192u32, 8193u32,
        8194u32, 8195u32, 8196u32, 8197u32, 8198u32, 8199u32, 8200u32, 8201u32, 8202u32,
        8232u32, 8233u32, 8239u32, 8287u32, 12288u32,
    ];
    let u = c as u32;
    if is_white_space(c) {
        let k: int = if u <= 13 {
            u - 9
        } else if u == 32 {
            5
        } else if u == 133 {
            6
        } else if u == 160 {
            7
        } else if u == 5760 {
            8
        } else if u <= 8202 {
            u - 8192 + 9
        } else if u == 8232 {
            20
        } else if u == 8233 {
            21
        } else if u == 8239 {
            22
        } else if u == 8287 {
            23
        } else {
            24
        };
        assert(all[k] == u);
    }
}

} // verus!
