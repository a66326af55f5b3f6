//! `list_files` and `read_file`.
use crate::config::Limits;
use crate::error::{ToolError, ToolResult};
use crate::text;
use crate::tools;
use crate::tools::command;
use crate::tools::glob;
use crate::tools::glob::PathFilter;
use crate::workspace::{FullPath, Located, PathPresentation, WorkspaceContext};
use crate::workspace_id::WorkspaceId;
use vstd::prelude::*;

verus! {

broadcast use vstd::string::group_string_axioms;

// ---------------------------------------------------------------------------
// read_file: the model
// ---------------------------------------------------------------------------

/// How many leading bytes are looked at to recognise a binary file.
pub const BINARY_SNIFF_BYTES: usize = 8192;

/// The lines that a read returns, and how much of them.
#[derive(Debug, Clone, Copy)]
pub struct ReadWindow {
    /// The first line to return, one-based.
    pub first: u64,
    /// The last line to return.
    pub last: u64,
    /// The most bytes to return.
    pub budget: usize,
    /// The most bytes to return of one line.
    pub line_cap: usize,
    /// The most bytes to hold of one line.
    pub source_cap: usize,
}

/// The first line of a request.
pub open spec fn requested_first(start_line: Option<u64>) -> int {
    match start_line {
        Some(line) => if line == 0 {
            1
        } else {
            line as int
        },
        None => 1,
    }
}

/// The last line of a request: the given one but not before the first, or a
/// bounded span.
pub open spec fn requested_last(
    start_line: Option<u64>,
    end_line: Option<u64>,
    limits: Limits,
) -> int {
    let first = requested_first(start_line);
    match end_line {
        Some(end) => if end < first {
            first
        } else {
            end as int
        },
        None => if start_line is None {
            limits.default_read_lines as int
        } else {
            first + limits.read_span_when_start_only - 1
        },
    }
}

/// The window of a request.
pub fn read_window(start_line: Option<u64>, end_line: Option<u64>, limits: &Limits) -> (window:
    ReadWindow)
    requires
        requested_last(start_line, end_line, *limits) <= u64::MAX,
        limits.max_search_line_bytes * 8 <= usize::MAX,
    ensures
        window.first == requested_first(start_line),
        window.last == requested_last(start_line, end_line, *limits),
        window.budget == limits.max_read_bytes,
        window.line_cap == limits.max_search_line_bytes * 8,
        window.source_cap == limits.max_source_line_bytes,
        window.first >= 1,
        end_line is Some ==> window.last >= window.first,
        start_line matches Some(line) ==> line >= 1 ==> window.first == line,
        start_line is None ==> window.first == 1,
        end_line matches Some(line) ==> line >= window.first ==> window.last == line,
        start_line is None && end_line is None ==> window.last == limits.default_read_lines,
        start_line is Some && end_line is None && limits.read_span_when_start_only >= 1
            ==> window.last - window.first + 1 == limits.read_span_when_start_only,
{
    let first: u64 = match start_line {
        Some(line) => if line == 0 {
            1
        } else {
            line
        },
        None => 1,
    };
    let last: u64 = match end_line {
        Some(end) => if end < first {
            first
        } else {
            end
        },
        None => if start_line.is_none() {
            limits.default_read_lines
        } else {
            (first - 1) + limits.read_span_when_start_only
        },
    };
    ReadWindow {
        first,
        last,
        budget: limits.max_read_bytes,
        line_cap: limits.max_search_line_bytes * 8,
        source_cap: limits.max_source_line_bytes,
    }
}

/// Whether a file with these leading bytes is taken for a binary one: they
/// hold a zero byte.
pub open spec fn is_binary(head: Seq<u8>) -> bool {
    exists|i: int| 0 <= i < head.len() && i < BINARY_SNIFF_BYTES && head[i] == 0
}

/// Whether a file with these leading bytes is taken for a binary one.
pub fn looks_binary(head: &[u8]) -> (yes: bool)
    ensures
        yes == is_binary(head@),
{
    let mut i: usize = 0;
    while i < head.len() && i < BINARY_SNIFF_BYTES
        invariant
            i <= head@.len(),
            forall|k: int| 0 <= k < i ==> head@[k] != 0,
        decreases head.len() - i,
    {
        if head[i] == 0 {
            return true;
        }
        i += 1;
    }
    false
}

/// The line feed.
pub const NEWLINE: u8 = 10;

/// The carriage return.
pub const RETURN: u8 = 13;

/// The lines of `content` that a line feed ends, without it.
pub open spec fn closed_lines(content: Seq<u8>) -> Seq<Seq<u8>>
    decreases content.len(),
{
    if content.len() == 0 {
        Seq::empty()
    } else if content.last() == NEWLINE {
        closed_lines(content.drop_last()).push(open_line(content.drop_last()))
    } else {
        closed_lines(content.drop_last())
    }
}

/// What follows the last line feed of `content`.
pub open spec fn open_line(content: Seq<u8>) -> Seq<u8>
    decreases content.len(),
{
    if content.len() == 0 || content.last() == NEWLINE {
        Seq::empty()
    } else {
        open_line(content.drop_last()).push(content.last())
    }
}

/// All lines of `content`; what follows the last line feed is one unless it
/// is empty.
pub open spec fn all_lines(content: Seq<u8>) -> Seq<Seq<u8>> {
    if open_line(content).len() == 0 {
        closed_lines(content)
    } else {
        closed_lines(content).push(open_line(content))
    }
}

/// A line without the carriage returns and line feeds at its end.
pub open spec fn without_eol(line: Seq<u8>) -> Seq<u8>
    decreases line.len(),
{
    if line.len() > 0 && (line.last() == NEWLINE || line.last() == RETURN) {
        without_eol(line.drop_last())
    } else {
        line
    }
}

/// At most `cap` leading elements of `s`.
pub open spec fn at_most(s: Seq<u8>, cap: nat) -> Seq<u8> {
    if s.len() > cap {
        s.take(cap as int)
    } else {
        s
    }
}

/// The bytes of a line that are shown: what is held of it, without its end.
pub open spec fn held_line(line: Seq<u8>, window: ReadWindow) -> Seq<u8> {
    without_eol(at_most(line, window.source_cap as nat))
}

/// The length of the number in front of a shown line.
pub open spec fn prefix_len(number: nat) -> nat {
    text::decimal(number).len() + 2
}

/// A numbered line.
pub open spec fn numbered(number: nat, line: Seq<char>) -> Seq<char> {
    text::decimal(number) + ": "@ + line
}

/// What a read returns of a file.
#[verifier::ext_equal]
pub struct WindowView {
    /// The numbered lines.
    pub lines: Seq<Seq<char>>,
    /// Whether something of the window was cut off.
    pub truncated: bool,
    /// Whether the byte budget ended the window.
    pub stopped: bool,
    /// Whether a line of the window is not valid UTF-8.
    pub lossy: bool,
    /// How many lines of the file were gone through.
    pub passed: int,
}

/// How one line of the window is shown when `spent` bytes were shown before.
#[verifier::ext_equal]
pub enum LineView {
    /// It does not fit any more.
    Omitted,
    /// It is longer than the whole budget: its head is shown, and no more.
    Head(Seq<char>),
    /// It is shown, at the given cost; the flag tells whether it was clipped.
    Whole(Seq<char>, nat, bool),
}

/// How line `number` with the given text is shown.
pub open spec fn shown_line(
    number: nat,
    line: Seq<char>,
    spent: nat,
    window: ReadWindow,
) -> LineView {
    let cost = text::byte_len(line) + prefix_len(number);
    if spent > 0 && spent + cost > window.budget {
        LineView::Omitted
    } else if spent == 0 && text::byte_len(line) > window.budget {
        let room = if window.budget > prefix_len(number) {
            (window.budget - prefix_len(number)) as nat
        } else {
            0
        };
        LineView::Head(numbered(number, tools::clipped(line, room)))
    } else {
        let kept = tools::clipped(line, window.line_cap as nat);
        LineView::Whole(
            numbered(number, kept),
            text::byte_len(kept) + prefix_len(number),
            text::byte_len(line) > window.line_cap,
        )
    }
}

/// What a read returns from line index `i` on, when `spent` bytes were
/// returned before.
pub open spec fn window_from(
    lines: Seq<Seq<u8>>,
    i: int,
    spent: nat,
    window: ReadWindow,
) -> WindowView
    decreases lines.len() - i,
{
    if i < 0 || i >= lines.len() {
        WindowView {
            lines: Seq::empty(),
            truncated: false,
            stopped: false,
            lossy: false,
            passed: i,
        }
    } else if i + 1 < window.first || i + 1 > window.last {
        window_from(lines, i + 1, spent, window)
    } else {
        let bytes = held_line(lines[i], window);
        let lossy = !vstd::utf8::valid_utf8(bytes);
        match shown_line((i + 1) as nat, text::decoded_text(bytes), spent, window) {
            LineView::Omitted => WindowView {
                lines: Seq::empty(),
                truncated: true,
                stopped: true,
                lossy,
                passed: i + 1,
            },
            LineView::Head(line) => WindowView {
                lines: seq![line],
                truncated: true,
                stopped: true,
                lossy,
                passed: i + 1,
            },
            LineView::Whole(line, cost, clipped) => {
                let cut = clipped || lines[i].len() > window.source_cap;
                if i + 1 >= window.last {
                    WindowView {
                        lines: seq![line],
                        truncated: cut,
                        stopped: false,
                        lossy,
                        passed: i + 1,
                    }
                } else {
                    let rest = window_from(lines, i + 1, spent + cost, window);
                    WindowView {
                        lines: seq![line] + rest.lines,
                        truncated: cut || rest.truncated,
                        lossy: lossy || rest.lossy,
                        ..rest
                    }
                }
            },
        }
    }
}

/// What a read returns of a file's content.
pub open spec fn file_window(content: Seq<u8>, window: ReadWindow) -> WindowView {
    window_from(all_lines(content), 0, 0, window)
}

/// Whether the file goes on after what a read returns.
pub open spec fn goes_on(content: Seq<u8>, window: ReadWindow) -> bool {
    let view = file_window(content, window);
    view.stopped || view.passed < all_lines(content).len()
}

// ---------------------------------------------------------------------------
// read_file: the session
// ---------------------------------------------------------------------------

/// How one line of the window is shown.
pub enum ShownLine {
    /// It does not fit any more.
    Omitted,
    /// It is longer than the whole budget: its head is shown, and no more.
    Head(String),
    /// It is shown, at the given cost; the flag tells whether it was clipped.
    Whole(String, u128, bool),
}

/// The length of the number in front of a shown line.
pub fn number_prefix_len(number: u64) -> (length: usize)
    ensures
        length == prefix_len(number as nat),
        3 <= length <= 22,
{
    proof {
        text::lemma_decimal_len(number);
    }
    text::chars_of(text::decimal_of(number).as_str()).len() + 2
}

fn number_line(number: u64, line: &str) -> (shown: String)
    ensures
        shown@ == numbered(number as nat, line@),
{
    text::decimal_of(number).concat(": ").concat(line)
}

/// Decides how line `number` with the given text is shown when `spent` bytes
/// were shown before.
pub fn show_line(number: u64, line: &str, spent: u128, window: &ReadWindow) -> (shown: ShownLine)
    requires
        spent <= window.budget + 64,
    ensures
        match shown {
            ShownLine::Omitted => shown_line(number as nat, line@, spent as nat, *window)
                is Omitted,
            ShownLine::Head(s) => shown_line(number as nat, line@, spent as nat, *window)
                == LineView::Head(s@),
            ShownLine::Whole(s, cost, clipped) => shown_line(
                number as nat,
                line@,
                spent as nat,
                *window,
            ) == LineView::Whole(s@, cost as nat, clipped) && 0 < cost && spent + cost
                <= window.budget + 64,
        },
{
    let length: usize = text::byte_len_of(line);
    let prefix: usize = number_prefix_len(number);
    let cost: u128 = length as u128 + prefix as u128;
    if spent > 0 && spent + cost > window.budget as u128 {
        return ShownLine::Omitted;
    }
    if spent == 0 && length > window.budget {
        let room: usize = if window.budget > prefix {
            window.budget - prefix
        } else {
            0
        };
        let (head, _) = tools::clip_line(line, room);
        return ShownLine::Head(number_line(number, head.as_str()));
    }
    let (kept, clipped) = tools::clip_line(line, window.line_cap);
    proof {
        tools::law_clipped_is_bounded_prefix(line@, window.line_cap as nat);
    }
    let kept_cost: u128 = text::byte_len_of(kept.as_str()) as u128 + prefix as u128;
    ShownLine::Whole(number_line(number, kept.as_str()), kept_cost, clipped)
}

/// Removes the carriage returns and line feeds at the end of a line.
pub fn strip_eol(line: &[u8]) -> (rest: &[u8])
    ensures
        rest@ == without_eol(line@),
{
    let mut to: usize = line.len();
    assert(line@.take(to as int) =~= line@);
    while to > 0 && (line[to - 1] == NEWLINE || line[to - 1] == RETURN)
        invariant
            to <= line@.len(),
            without_eol(line@.take(to as int)) == without_eol(line@),
        decreases to,
    {
        assert(line@.take(to as int).drop_last() =~= line@.take(to - 1));
        to -= 1;
    }
    assert(line@.subrange(0, to as int) =~= line@.take(to as int));
    &line[0..to]
}

/// What the lines gone through so far contribute to a read.
struct Progress {
    lines: Vec<String>,
    truncated: bool,
    stopped: bool,
    lossy: bool,
    passed: u64,
    spent: u128,
    sated: bool,
}

spec fn glued(head: WindowView, tail: WindowView) -> WindowView {
    WindowView {
        lines: head.lines + tail.lines,
        truncated: head.truncated || tail.truncated,
        lossy: head.lossy || tail.lossy,
        ..tail
    }
}

spec fn extends(lines: Seq<Seq<u8>>, done: Seq<Seq<u8>>) -> bool {
    lines.len() >= done.len() && lines.take(done.len() as int) == done
}

spec fn string_views(strings: Seq<String>) -> Seq<Seq<char>> {
    strings.map_values(|s: String| s@)
}

impl Progress {
    spec fn shown(self) -> WindowView {
        WindowView {
            lines: string_views(self.lines@),
            truncated: self.truncated,
            stopped: self.stopped,
            lossy: self.lossy,
            passed: self.passed as int,
        }
    }

    /// This is where a read stands after the lines `done`, whatever follows.
    spec fn tracks(self, done: Seq<Seq<u8>>, window: ReadWindow) -> bool {
        &&& self.passed == done.len()
        &&& self.spent <= window.budget + 64
        &&& self.lines@.len() > 0 ==> window.first + self.lines@.len() - 1 <= self.passed
        &&& !self.sated ==> !self.stopped
        &&& forall|lines: Seq<Seq<u8>>| #[trigger]
            extends(lines, done) ==> window_from(lines, 0, 0, window) == if self.sated {
                self.shown()
            } else {
                glued(
                    self.shown(),
                    window_from(lines, done.len() as int, self.spent as nat, window),
                )
            }
    }

    fn start(window: &ReadWindow) -> (progress: Progress)
        ensures
            progress.tracks(Seq::empty(), *window),
            !progress.sated,
    {
        let progress = Progress {
            lines: Vec::new(),
            truncated: false,
            stopped: false,
            lossy: false,
            passed: 0,
            spent: 0,
            sated: false,
        };
        assert forall|lines: Seq<Seq<u8>>| #[trigger]
            extends(lines, Seq::empty()) implies window_from(lines, 0, 0, *window) == glued(
            progress.shown(),
            window_from(lines, 0, 0, *window),
        ) by {
            assert(string_views(progress.lines@) + window_from(lines, 0, 0, *window).lines
                =~= window_from(lines, 0, 0, *window).lines);
        }
        progress
    }

    /// Goes through one more line, of which at most the held bytes are given;
    /// `overlong` tells whether that is not the whole line.
    fn pass_line(
        &mut self,
        held: &[u8],
        overlong: bool,
        window: &ReadWindow,
        Ghost(done): Ghost<Seq<Seq<u8>>>,
        Ghost(line): Ghost<Seq<u8>>,
    )
        requires
            old(self).tracks(done, *window),
            !old(self).sated,
            held@ == at_most(line, window.source_cap as nat),
            overlong == (line.len() > window.source_cap),
            done.len() < u64::MAX,
        ensures
            final(self).tracks(done.push(line), *window),
    {
        let ghost next = done.push(line);
        let ghost before = *self;
        assert forall|lines: Seq<Seq<u8>>| #[trigger] extends(lines, next) implies extends(
            lines,
            done,
        ) && lines[done.len() as int] == line by {
            assert(lines.take(next.len() as int)[done.len() as int] == line);
            assert(lines.take(done.len() as int) =~= lines.take(next.len() as int).take(
                done.len() as int,
            ));
            assert(next.take(done.len() as int) =~= done);
        }
        self.passed = self.passed + 1;
        let number: u64 = self.passed;
        if number < window.first || number > window.last {
            assert forall|lines: Seq<Seq<u8>>| #[trigger]
                extends(lines, next) implies window_from(lines, 0, 0, *window) == glued(
                self.shown(),
                window_from(lines, next.len() as int, self.spent as nat, *window),
            ) by {
                assert(extends(lines, done));
            }
            return;
        }
        let stripped: &[u8] = strip_eol(held);
        let (line_text, replaced) = text::decode_lossy(stripped);
        if replaced {
            self.lossy = true;
        }
        match show_line(number, line_text.as_str(), self.spent, window) {
            ShownLine::Omitted => {
                self.truncated = true;
                self.stopped = true;
                self.sated = true;
                assert forall|lines: Seq<Seq<u8>>| #[trigger]
                    extends(lines, next) implies window_from(lines, 0, 0, *window)
                    == self.shown() by {
                    assert(extends(lines, done));
                    assert(self.shown() =~= glued(
                        before.shown(),
                        window_from(lines, done.len() as int, before.spent as nat, *window),
                    ));
                }
            },
            ShownLine::Head(shown) => {
                self.lines.push(shown);
                self.truncated = true;
                self.stopped = true;
                self.sated = true;
                assert forall|lines: Seq<Seq<u8>>| #[trigger]
                    extends(lines, next) implies window_from(lines, 0, 0, *window)
                    == self.shown() by {
                    assert(extends(lines, done));
                    assert(string_views(self.lines@) =~= string_views(before.lines@) + seq![shown@]);
                    assert(self.shown() =~= glued(
                        before.shown(),
                        window_from(lines, done.len() as int, before.spent as nat, *window),
                    ));
                }
            },
            ShownLine::Whole(shown, cost, clipped) => {
                self.lines.push(shown);
                if clipped || overlong {
                    self.truncated = true;
                }
                self.spent = self.spent + cost;
                self.sated = number >= window.last;
                assert(string_views(self.lines@) =~= string_views(before.lines@) + seq![shown@]);
                assert forall|lines: Seq<Seq<u8>>| #[trigger]
                    extends(lines, next) implies window_from(lines, 0, 0, *window) == if self.sated {
                    self.shown()
                } else {
                    glued(
                        self.shown(),
                        window_from(lines, next.len() as int, self.spent as nat, *window),
                    )
                } by {
                    assert(extends(lines, done));
                    let rest = window_from(lines, next.len() as int, self.spent as nat, *window);
                    let whole = glued(
                        before.shown(),
                        window_from(lines, done.len() as int, before.spent as nat, *window),
                    );
                    if self.sated {
                        assert(self.shown() =~= whole);
                    } else {
                        assert(string_views(before.lines@) + (seq![shown@] + rest.lines)
                            =~= string_views(before.lines@) + seq![shown@] + rest.lines);
                        assert(glued(self.shown(), rest) =~= whole);
                    }
                }
            },
        }
    }
}

/// What a read returns.
#[derive(Debug)]
pub struct FileWindow {
    /// The number of the first returned line.
    pub start_line: Option<u64>,
    /// The number of the last returned line.
    pub end_line: Option<u64>,
    /// Whether something of the window was cut off.
    pub truncated: bool,
    /// Whether the file goes on after what is returned.
    pub has_more_lines: bool,
    /// Whether a line of the window is not valid UTF-8.
    pub lossy_decoding: bool,
    /// The numbered lines.
    pub lines: Vec<String>,
}

/// A bounded read in progress: it is fed a file's bytes in order and holds
/// only what is returned and the head of the current line.
pub struct ReadSession {
    window: ReadWindow,
    progress: Progress,
    partial: Vec<u8>,
    partial_open: bool,
    partial_overlong: bool,
    more: bool,
    fed: Ghost<Seq<u8>>,
}

proof fn lemma_one_more_byte(content: Seq<u8>, byte: u8)
    ensures
        closed_lines(content.push(byte)) == if byte == NEWLINE {
            closed_lines(content).push(open_line(content))
        } else {
            closed_lines(content)
        },
        open_line(content.push(byte)) == if byte == NEWLINE {
            Seq::empty()
        } else {
            open_line(content).push(byte)
        },
{
    assert(content.push(byte).drop_last() =~= content);
}

impl ReadSession {
    /// The bytes fed so far.
    pub closed spec fn content(self) -> Seq<u8> {
        self.fed@
    }

    /// What the read was opened for.
    pub closed spec fn for_window(self) -> ReadWindow {
        self.window
    }

    /// Whether nothing that may still follow changes the result.
    pub closed spec fn complete(self) -> bool {
        self.progress.sated && self.more
    }

    /// The bytes held in memory for the current line.
    pub closed spec fn held(self) -> Seq<u8> {
        self.partial@
    }

    /// The session's invariant.
    pub closed spec fn wf(self) -> bool {
        let closed = closed_lines(self.fed@);
        let passed = self.progress.passed as int;
        &&& 1 <= self.window.first
        &&& passed <= closed.len() <= self.fed@.len()
        &&& self.progress.tracks(closed.take(passed), self.window)
        &&& !self.progress.sated ==> {
            &&& passed == closed.len()
            &&& self.partial@ == at_most(open_line(self.fed@), self.window.source_cap as nat)
            &&& self.partial_open == (open_line(self.fed@).len() > 0)
            &&& self.partial_overlong == (open_line(self.fed@).len() > self.window.source_cap)
            &&& !self.more
        }
        &&& self.progress.sated ==> {
            &&& self.partial@.len() == 0
            &&& self.more == (self.progress.stopped || closed.len() > passed || open_line(
                self.fed@,
            ).len() > 0)
        }
    }

    /// Opens a read.
    pub fn open(window: &ReadWindow) -> (session: ReadSession)
        requires
            1 <= window.first,
        ensures
            session.wf(),
            session.for_window() == *window,
            session.content() == Seq::<u8>::empty(),
            !session.complete(),
    {
        let session = ReadSession {
            window: *window,
            progress: Progress::start(window),
            partial: Vec::new(),
            partial_open: false,
            partial_overlong: false,
            more: false,
            fed: Ghost(Seq::empty()),
        };
        assert(closed_lines(Seq::<u8>::empty()).take(0) =~= Seq::<Seq<u8>>::empty());
        assert(session.partial@ =~= at_most(Seq::empty(), window.source_cap as nat));
        session
    }

    /// Whether more of the file is needed.
    pub fn wants_more(&self) -> (yes: bool)
        ensures
            yes == !self.complete(),
    {
        !(self.progress.sated && self.more)
    }

    fn feed_byte(&mut self, byte: u8)
        requires
            old(self).wf(),
            old(self).fed@.len() < u64::MAX,
        ensures
            final(self).wf(),
            final(self).window == old(self).window,
            final(self).fed@ == old(self).fed@.push(byte),
    {
        let ghost content = self.fed@;
        let ghost closed = closed_lines(content);
        proof {
            lemma_one_more_byte(content, byte);
        }
        self.fed = Ghost(content.push(byte));
        let ghost grown = closed_lines(self.fed@);
        if self.progress.sated {
            self.more = true;
            proof {
                assert(grown.take(self.progress.passed as int) =~= closed.take(
                    self.progress.passed as int,
                ));
            }
            return;
        }
        assert(closed.take(closed.len() as int) =~= closed);
        if byte == NEWLINE {
            self.progress.pass_line(
                self.partial.as_slice(),
                self.partial_overlong,
                &self.window,
                Ghost(closed),
                Ghost(open_line(content)),
            );
            self.partial = Vec::new();
            self.partial_open = false;
            self.partial_overlong = false;
            if self.progress.stopped {
                self.more = true;
            }
            proof {
                assert(grown.take(grown.len() as int) =~= grown);
                assert(self.partial@ =~= at_most(Seq::empty(), self.window.source_cap as nat));
            }
        } else {
            self.partial_open = true;
            if self.partial.len() < self.window.source_cap {
                self.partial.push(byte);
            } else {
                self.partial_overlong = true;
            }
            proof {
                assert(self.partial@ =~= at_most(
                    open_line(self.fed@),
                    self.window.source_cap as nat,
                ));
            }
        }
    }

    /// Takes in the next bytes of the file.
    pub fn feed(&mut self, chunk: &[u8])
        requires
            old(self).wf(),
            old(self).content().len() + chunk@.len() <= u64::MAX,
        ensures
            final(self).wf(),
            final(self).for_window() == old(self).for_window(),
            final(self).content() == old(self).content() + chunk@,
            final(self).held().len() <= final(self).for_window().source_cap,
    {
        let ghost start = self.fed@;
        assert(start + chunk@.take(0) =~= start);
        for i in 0..chunk.len()
            invariant
                self.wf(),
                self.window == old(self).window,
                start.len() + chunk@.len() <= u64::MAX,
                self.fed@ == start + chunk@.take(i as int),
        {
            self.feed_byte(chunk[i]);
            assert(start + chunk@.take(i + 1) =~= (start + chunk@.take(i as int)).push(
                chunk@[i as int],
            ));
        }
        assert(start + chunk@.take(chunk@.len() as int) =~= start + chunk@);
    }

    /// Ends the read: the file has no more bytes, or no more are wanted.
    pub fn finish(self) -> (result: FileWindow)
        requires
            self.wf(),
            self.content().len() < u64::MAX,
        ensures
            ({
                let view = file_window(self.content(), self.for_window());
                &&& result.lines@.map_values(|s: String| s@) == view.lines
                &&& result.truncated == view.truncated
                &&& result.lossy_decoding == view.lossy
                &&& result.has_more_lines == goes_on(self.content(), self.for_window())
                &&& view.lines.len() == 0 ==> result.start_line is None && result.end_line is None
                &&& view.lines.len() > 0 ==> result.start_line == Some(self.for_window().first)
                    && result.end_line == Some(
                    (self.for_window().first + view.lines.len() - 1) as u64,
                ) && self.for_window().first + view.lines.len() - 1 <= u64::MAX
            }),
    {
        let ghost content = self.fed@;
        let ghost closed = closed_lines(content);
        let ghost every = all_lines(content);
        let mut progress: Progress = self.progress;
        let mut more: bool = self.more;
        proof {
            assert(every.take(closed.len() as int) =~= closed);
            assert(closed.take(closed.len() as int) =~= closed);
            assert(every.take(progress.passed as int) =~= closed.take(progress.passed as int));
            assert(every.take(every.len() as int) =~= every);
            assert(extends(every, closed.take(progress.passed as int)));
        }
        if !progress.sated && self.partial_open {
            progress.pass_line(
                self.partial.as_slice(),
                self.partial_overlong,
                &self.window,
                Ghost(closed),
                Ghost(open_line(content)),
            );
            more = progress.stopped;
            assert(extends(every, every));
        }
        proof {
            let view = file_window(content, self.window);
            if !progress.sated {
                assert(string_views(progress.lines@) + Seq::<Seq<char>>::empty() =~= string_views(
                    progress.lines@,
                ));
                assert(view =~= progress.shown());
            }
            assert(view == progress.shown());
            assert(string_views(progress.lines@) =~= progress.lines@.map_values(|s: String| s@));
        }
        let count: usize = progress.lines.len();
        let start_line: Option<u64> = if count == 0 {
            None
        } else {
            Some(self.window.first)
        };
        let end_line: Option<u64> = if count == 0 {
            None
        } else {
            Some(self.window.first + (count as u64 - 1))
        };
        FileWindow {
            start_line,
            end_line,
            truncated: progress.truncated,
            has_more_lines: more,
            lossy_decoding: progress.lossy,
            lines: progress.lines,
        }
    }
}

// ---------------------------------------------------------------------------
// read_file: laws
// ---------------------------------------------------------------------------

proof fn lemma_more_bytes(content: Seq<u8>, rest: Seq<u8>)
    ensures
        extends(closed_lines(content + rest), closed_lines(content)),
        closed_lines(content + rest).len() > closed_lines(content).len() || open_line(
            content + rest,
        ).len() >= open_line(content).len(),
    decreases rest.len(),
{
    if rest.len() == 0 {
        assert(content + rest =~= content);
        assert(closed_lines(content).take(closed_lines(content).len() as int) =~= closed_lines(
            content,
        ));
    } else {
        lemma_more_bytes(content, rest.drop_last());
        assert((content + rest).drop_last() =~= content + rest.drop_last());
        assert(closed_lines(content + rest).take(closed_lines(content).len() as int)
            =~= closed_lines(content + rest.drop_last()).take(closed_lines(content).len() as int));
    }
}

/// Once a read wants no more, the rest of the file does not matter: the
/// result for what was fed is the result for the whole file.
pub proof fn law_complete_read_ignores_the_rest(session: ReadSession, rest: Seq<u8>)
    requires
        session.wf(),
        session.complete(),
    ensures
        file_window(session.content() + rest, session.for_window()) == file_window(
            session.content(),
            session.for_window(),
        ),
        goes_on(session.content() + rest, session.for_window()),
        goes_on(session.content(), session.for_window()),
{
    let content = session.content();
    let closed = closed_lines(content);
    let passed = session.progress.passed as int;
    let done = closed.take(passed);
    lemma_more_bytes(content, rest);
    let whole = all_lines(content + rest);
    assert(all_lines(content).take(passed) =~= done);
    assert(extends(all_lines(content), done));
    assert(whole.take(passed) =~= closed_lines(content + rest).take(closed.len() as int).take(
        passed,
    ));
    assert(extends(whole, done));
}

/// The number that window lines start from when lines up to index `i` are
/// gone through.
spec fn next_shown(i: int, window: ReadWindow) -> int {
    if i + 1 < window.first {
        window.first as int
    } else {
        i + 1
    }
}

proof fn lemma_numbering(lines: Seq<Seq<u8>>, i: int, spent: nat, window: ReadWindow, j: int)
    requires
        0 <= i,
        0 <= j < window_from(lines, i, spent, window).lines.len(),
    ensures
        exists|line: Seq<char>| #[trigger]
            numbered((next_shown(i, window) + j) as nat, line) == window_from(
                lines,
                i,
                spent,
                window,
            ).lines[j],
    decreases lines.len() - i,
{
    if i + 1 < window.first || i + 1 > window.last {
        if i + 1 > window.last {
            lemma_nothing_after(lines, i + 1, spent, window);
        } else {
            lemma_numbering(lines, i + 1, spent, window, j);
            assert(next_shown(i + 1, window) == next_shown(i, window));
        }
    } else {
        let line = text::decoded_text(held_line(lines[i], window));
        match shown_line((i + 1) as nat, line, spent, window) {
            LineView::Omitted => {},
            LineView::Head(_) => {
                let prefix = prefix_len((i + 1) as nat);
                let room = if window.budget > prefix {
                    (window.budget - prefix) as nat
                } else {
                    0
                };
                let head = tools::clipped(line, room);
                assert(numbered((next_shown(i, window) + j) as nat, head) == window_from(
                    lines,
                    i,
                    spent,
                    window,
                ).lines[j]);
            },
            LineView::Whole(_, cost, _) => {
                if j == 0 {
                    let kept = tools::clipped(line, window.line_cap as nat);
                    assert(numbered((next_shown(i, window) + j) as nat, kept) == window_from(
                        lines,
                        i,
                        spent,
                        window,
                    ).lines[j]);
                }
                if i + 1 < window.last {
                    let rest = window_from(lines, i + 1, spent + cost, window);
                    if j > 0 {
                        lemma_numbering(lines, i + 1, spent + cost, window, j - 1);
                        assert(window_from(lines, i, spent, window).lines[j] == rest.lines[j - 1]);
                        assert((next_shown(i + 1, window) + (j - 1)) as nat == (next_shown(
                            i,
                            window,
                        ) + j) as nat);
                    }
                }
            },
        }
    }
}

proof fn lemma_nothing_after(lines: Seq<Seq<u8>>, i: int, spent: nat, window: ReadWindow)
    requires
        0 <= i,
        i >= window.last,
    ensures
        window_from(lines, i, spent, window).lines.len() == 0,
    decreases lines.len() - i,
{
    if i < lines.len() {
        lemma_nothing_after(lines, i + 1, spent, window);
    }
}

/// The returned lines are numbered one after the other from the first line
/// of the window.
pub proof fn law_lines_are_numbered(content: Seq<u8>, window: ReadWindow, j: int)
    requires
        1 <= window.first,
        0 <= j < file_window(content, window).lines.len(),
    ensures
        exists|line: Seq<char>| #[trigger]
            numbered((window.first + j) as nat, line) == file_window(content, window).lines[j],
{
    lemma_numbering(all_lines(content), 0, 0, window, j);
}

proof fn lemma_faithful_from(lines: Seq<Seq<u8>>, i: int, spent: nat, window: ReadWindow, j: int)
    requires
        0 <= i,
        0 <= j < window_from(lines, i, spent, window).lines.len(),
        !window_from(lines, i, spent, window).truncated,
    ensures
        next_shown(i, window) + j <= lines.len(),
        window_from(lines, i, spent, window).lines[j] == numbered(
            (next_shown(i, window) + j) as nat,
            text::decoded_text(without_eol(lines[next_shown(i, window) + j - 1])),
        ),
    decreases lines.len() - i,
{
    if i + 1 < window.first || i + 1 > window.last {
        if i + 1 > window.last {
            lemma_nothing_after(lines, i + 1, spent, window);
        } else {
            lemma_faithful_from(lines, i + 1, spent, window, j);
            assert(next_shown(i + 1, window) == next_shown(i, window));
        }
    } else {
        let line = text::decoded_text(held_line(lines[i], window));
        match shown_line((i + 1) as nat, line, spent, window) {
            LineView::Omitted => {},
            LineView::Head(_) => {},
            LineView::Whole(_, cost, _) => {
                assert(held_line(lines[i], window) == without_eol(lines[i]));
                if i + 1 < window.last && j > 0 {
                    let rest = window_from(lines, i + 1, spent + cost, window);
                    lemma_faithful_from(lines, i + 1, spent + cost, window, j - 1);
                    assert(window_from(lines, i, spent, window).lines[j] == rest.lines[j - 1]);
                    assert(next_shown(i + 1, window) + (j - 1) == next_shown(i, window) + j);
                }
            },
        }
    }
}

/// A read that does not report a cut shows every returned line as it stands
/// in the file, without its end.
pub proof fn law_every_cut_is_reported(content: Seq<u8>, window: ReadWindow, j: int)
    requires
        1 <= window.first,
        0 <= j < file_window(content, window).lines.len(),
        !file_window(content, window).truncated,
    ensures
        window.first + j <= all_lines(content).len(),
        file_window(content, window).lines[j] == numbered(
            (window.first + j) as nat,
            text::decoded_text(without_eol(all_lines(content)[window.first + j - 1])),
        ),
{
    lemma_faithful_from(all_lines(content), 0, 0, window, j);
}

/// The bytes of lines together.
pub open spec fn total_bytes(lines: Seq<Seq<char>>) -> nat
    decreases lines.len(),
{
    if lines.len() == 0 {
        0
    } else {
        text::byte_len(lines[0]) + total_bytes(lines.skip(1))
    }
}

proof fn lemma_numbered_len(number: u64, line: Seq<char>)
    ensures
        text::byte_len(numbered(number as nat, line)) == prefix_len(number as nat)
            + text::byte_len(line),
        prefix_len(number as nat) <= 22,
{
    let digits = text::decimal(number as nat);
    text::lemma_decimal_byte_len(number as nat);
    text::lemma_decimal_len(number);
    text::lemma_byte_len_concat(digits, ": "@);
    text::lemma_byte_len_concat(digits + ": "@, line);
    assert(text::byte_len(": "@) == 2) by {
        reveal_strlit(": ");
        text::lemma_byte_len_first(": "@);
        text::lemma_byte_len_first(": "@.skip(1));
        assert(": "@.skip(1).skip(1) =~= Seq::<char>::empty());
    }
}

proof fn lemma_total_one(line: Seq<char>)
    ensures
        total_bytes(seq![line]) == text::byte_len(line),
{
    assert(seq![line].skip(1) =~= Seq::<Seq<char>>::empty());
    assert(total_bytes(seq![line].skip(1)) == 0);
}

proof fn lemma_bounded_from(lines: Seq<Seq<u8>>, i: int, spent: nat, window: ReadWindow)
    requires
        0 <= i,
        lines.len() <= u64::MAX,
        spent <= window.budget + 27,
    ensures
        total_bytes(window_from(lines, i, spent, window).lines) + spent <= window.budget + 27,
    decreases lines.len() - i,
{
    if i < lines.len() {
        if i + 1 < window.first || i + 1 > window.last {
            lemma_bounded_from(lines, i + 1, spent, window);
        } else {
            let line = text::decoded_text(held_line(lines[i], window));
            let number = (i + 1) as u64;
            let prefix = prefix_len(number as nat);
            match shown_line((i + 1) as nat, line, spent, window) {
                LineView::Omitted => {},
                LineView::Head(shown) => {
                    let room = if window.budget > prefix {
                        (window.budget - prefix) as nat
                    } else {
                        0
                    };
                    tools::law_clipped_is_bounded_prefix(line, room);
                    lemma_numbered_len(number, tools::clipped(line, room));
                    lemma_total_one(shown);
                },
                LineView::Whole(shown, cost, _) => {
                    tools::law_clipped_is_bounded_prefix(line, window.line_cap as nat);
                    lemma_numbered_len(number, tools::clipped(line, window.line_cap as nat));
                    lemma_total_one(shown);
                    if i + 1 < window.last {
                        lemma_bounded_from(lines, i + 1, spent + cost, window);
                        let rest = window_from(lines, i + 1, spent + cost, window);
                        assert((seq![shown] + rest.lines).skip(1) =~= rest.lines);
                    }
                },
            }
        }
    }
}

/// A read returns at most its byte budget, but for a line number and a mark
/// that something was cut off.
pub proof fn law_read_is_bounded(content: Seq<u8>, window: ReadWindow)
    requires
        all_lines(content).len() <= u64::MAX,
    ensures
        total_bytes(file_window(content, window).lines) <= window.budget + 27,
{
    lemma_bounded_from(all_lines(content), 0, 0, window);
}

// ---------------------------------------------------------------------------
// read_file: refusals
// ---------------------------------------------------------------------------

/// Arguments of `read_file`.
#[derive(Debug)]
pub struct ReadFileArgs {
    /// The file's path relative to the workspace root.
    pub path: String,
    /// The first line to return.
    pub start_line: Option<u64>,
    /// The last line to return.
    pub end_line: Option<u64>,
}

/// Arguments of `read_file` in registry mode.
#[derive(Debug)]
pub struct RegistryReadFileArgs {
    /// The logical id of the workspace to read from.
    pub workspace: WorkspaceId,
    /// What to read.
    pub args: ReadFileArgs,
}

/// What may stand in the way of reading a file.
#[derive(Debug)]
pub enum ReadObstacle {
    /// Its metadata cannot be read, for the given reason.
    NoMetadata(String),
    /// It is a directory.
    Directory,
    /// It cannot be opened, for the given reason.
    NoAccess(String),
    /// It is a binary file.
    Binary,
}

/// The refusal to read a file.
pub open spec fn obstacle_text(obstacle: ReadObstacle, shown: Seq<char>) -> Seq<char> {
    match obstacle {
        ReadObstacle::NoMetadata(reason) => "Cannot read '"@ + shown + "': "@ + reason@,
        ReadObstacle::Directory => "'"@ + shown + "' is a directory; use list_files instead."@,
        ReadObstacle::NoAccess(reason) => "Cannot open '"@ + shown + "': "@ + reason@,
        ReadObstacle::Binary => "'"@ + shown + "' appears to be a binary file and was not read."@,
    }
}

/// Refuses to read the file that is shown as `shown`.
pub fn refuse_read(obstacle: &ReadObstacle, shown: &str) -> (error: ToolError)
    ensures
        error.0@ == obstacle_text(*obstacle, shown@),
{
    match obstacle {
        ReadObstacle::NoMetadata(reason) => ToolError(
            String::from_str("Cannot read '").concat(shown).concat("': ").concat(reason.as_str()),
        ),
        ReadObstacle::Directory => ToolError(
            String::from_str("'").concat(shown).concat(
                "' is a directory; use list_files instead.",
            ),
        ),
        ReadObstacle::NoAccess(reason) => ToolError(
            String::from_str("Cannot open '").concat(shown).concat("': ").concat(reason.as_str()),
        ),
        ReadObstacle::Binary => ToolError(
            String::from_str("'").concat(shown).concat(
                "' appears to be a binary file and was not read.",
            ),
        ),
    }
}

/// What the filesystem says of a file to be read.
#[derive(Debug)]
pub struct FileFacts {
    /// Whether it is a directory, or why that is not known.
    pub directory: Result<bool, String>,
    /// Its leading bytes, or why it cannot be opened.
    pub head: Result<Vec<u8>, String>,
}

/// What stands in the way of reading a file, if anything.
pub open spec fn obstacle(facts: FileFacts) -> Option<ReadObstacle> {
    match facts.directory {
        Err(reason) => Some(ReadObstacle::NoMetadata(reason)),
        Ok(directory) => if directory {
            Some(ReadObstacle::Directory)
        } else {
            match facts.head {
                Err(reason) => Some(ReadObstacle::NoAccess(reason)),
                Ok(bytes) => if is_binary(bytes@) {
                    Some(ReadObstacle::Binary)
                } else {
                    None
                },
            }
        },
    }
}

/// Checks whether a file may be read as text.
pub fn check_readable(facts: &FileFacts, shown: &str) -> (result: ToolResult<()>)
    ensures
        match result {
            Ok(_) => obstacle(*facts) is None,
            Err(e) => obstacle(*facts) matches Some(found) && e.0@ == obstacle_text(found, shown@),
        },
{
    match &facts.directory {
        Err(reason) => Err(refuse_read(&ReadObstacle::NoMetadata(reason.clone()), shown)),
        Ok(directory) => {
            if *directory {
                return Err(refuse_read(&ReadObstacle::Directory, shown));
            }
            match &facts.head {
                Err(reason) => Err(refuse_read(&ReadObstacle::NoAccess(reason.clone()), shown)),
                Ok(bytes) => if looks_binary(bytes.as_slice()) {
                    Err(refuse_read(&ReadObstacle::Binary, shown))
                } else {
                    Ok(())
                },
            }
        },
    }
}

/// A read that may be carried out.
#[derive(Debug)]
pub struct ReadPlan {
    /// The file to read.
    pub path: FullPath,
    /// How it is shown.
    pub shown: String,
    /// The lines to return.
    pub window: ReadWindow,
}

/// Whether `result` is what comes of a request to read the file at `path`,
/// given what the filesystem says of it.
pub open spec fn read_planned(
    result: ToolResult<ReadPlan>,
    ctx: WorkspaceContext,
    limits: Limits,
    presentation: PathPresentation,
    args: ReadFileArgs,
    path: FullPath,
    facts: FileFacts,
) -> bool {
    let shown = ctx.resolver_view().presented_view(path@, presentation);
    match obstacle(facts) {
        Some(found) => result matches Err(e) && e.0@ == obstacle_text(found, shown),
        None => result matches Ok(plan) && plan.path == path && plan.shown@ == shown
            && plan.window.first == requested_first(args.start_line) && plan.window.last
            == requested_last(args.start_line, args.end_line, limits) && plan.window.budget
            == limits.max_read_bytes && plan.window.line_cap == limits.max_search_line_bytes * 8
            && plan.window.source_cap == limits.max_source_line_bytes,
    }
}

/// Plans a read: the path is resolved, and must be a text file. `look` tells
/// what the filesystem says of it.
pub fn plan_read<L: Fn(&FullPath) -> Located, K: Fn(&FullPath) -> FileFacts>(
    ctx: &WorkspaceContext,
    limits: &Limits,
    presentation: PathPresentation,
    args: &ReadFileArgs,
    locate: &L,
    look: &K,
) -> (result: ToolResult<ReadPlan>)
    requires
        requested_last(args.start_line, args.end_line, *limits) <= u64::MAX,
        limits.max_search_line_bytes * 8 <= usize::MAX,
        forall|at: &FullPath| call_requires(locate, (at,)),
        forall|at: &FullPath| call_requires(look, (at,)),
    ensures
        exists|given: &str, found: ToolResult<FullPath>|
            given@ == args.path@ && #[trigger] ctx.resolver_view().resolves_by(
                Some(given),
                *locate,
                found,
            ) && match found {
                Err(refusal) => result matches Err(e) && e == refusal,
                Ok(path) => exists|facts: FileFacts| #[trigger]
                    call_ensures(*look, (&path,), facts) && read_planned(
                        result,
                        *ctx,
                        *limits,
                        presentation,
                        *args,
                        path,
                        facts,
                    ),
            },
{
    let given: &str = args.path.as_str();
    let found: ToolResult<FullPath> = ctx.resolver().resolve(Some(given), locate);
    assert(ctx.resolver_view().resolves_by(Some(given), *locate, found));
    let path: FullPath = match found {
        Ok(path) => path,
        Err(e) => {
            return Err(e);
        },
    };
    let shown: String = ctx.resolver().display_relative_as(&path, presentation);
    let facts: FileFacts = look(&path);
    assert(call_ensures(*look, (&path,), facts));
    if let Err(e) = check_readable(&facts, shown.as_str()) {
        return Err(e);
    }
    Ok(ReadPlan { path, shown, window: read_window(args.start_line, args.end_line, limits) })
}

// ---------------------------------------------------------------------------
// list_files
// ---------------------------------------------------------------------------

/// Arguments of `list_files`.
#[derive(Debug)]
pub struct ListFilesArgs {
    /// The directory to list, relative to the workspace root.
    pub path: Option<String>,
    /// How many levels to descend.
    pub depth: Option<u32>,
    /// List hidden entries, too.
    pub include_hidden: bool,
    /// A filter on paths.
    pub glob: Option<String>,
}

/// Arguments of `list_files` in registry mode.
#[derive(Debug)]
pub struct RegistryListFilesArgs {
    /// The logical id of the workspace to list.
    pub workspace: WorkspaceId,
    /// What to list.
    pub args: ListFilesArgs,
}

/// How many levels a listing descends: two unless requested, between one and
/// ten.
pub open spec fn listing_depth(requested: Option<u32>) -> u32 {
    match requested {
        Some(depth) => if depth < 1 {
            1
        } else if depth > 10 {
            10
        } else {
            depth
        },
        None => 2,
    }
}

/// Whether a listing shows an entry and descends into it. The requested
/// directory itself always counts; hidden entries only on request; generated
/// and version-control directories never.
pub open spec fn is_visible(depth: nat, name: Seq<char>, is_dir: bool, include_hidden: bool) -> bool {
    depth == 0 || ((include_hidden || !(name.len() > 0 && name[0] == '.')) && !(is_dir && (
    tools::is_vcs_name(name) || tools::is_generated_name(name))))
}

/// Decides whether a listing shows an entry and descends into it.
pub fn entry_is_visible(depth: usize, name: &str, is_dir: bool, include_hidden: bool) -> (yes: bool)
    ensures
        yes == is_visible(depth as nat, name@, is_dir, include_hidden),
{
    if depth == 0 {
        return true;
    }
    let chars: Vec<char> = text::chars_of(name);
    if !include_hidden && chars.len() > 0 && chars[0] == '.' {
        return false;
    }
    if is_dir && tools::is_generated_or_vcs_dir(name) {
        return false;
    }
    true
}

/// A listing that may be carried out.
#[derive(Debug)]
pub struct ListPlan {
    /// The directory to list.
    pub dir: FullPath,
    /// How it is shown.
    pub shown: String,
    /// How many levels to descend.
    pub depth: u32,
    /// List hidden entries, too.
    pub include_hidden: bool,
    /// A filter on paths.
    pub filter: Option<PathFilter>,
    /// The most entries to list.
    pub max_entries: usize,
}

/// What a path is on disk.
#[derive(Debug, Clone, Copy, PartialEq, Eq, Structural)]
pub enum PlaceKind {
    /// There is nothing.
    Absent,
    /// A directory.
    Directory,
    /// Anything else.
    Other,
}

/// Whether `result` is what comes of a listing request whose path resolves to
/// `dir`, given what that is.
pub open spec fn list_planned(
    result: ToolResult<ListPlan>,
    ctx: WorkspaceContext,
    limits: Limits,
    presentation: PathPresentation,
    args: ListFilesArgs,
    dir: FullPath,
    kind: PlaceKind,
) -> bool {
    let shown = ctx.resolver_view().presented_view(dir@, presentation);
    match kind {
        PlaceKind::Absent => result matches Err(e) && e.0@ == "Path does not exist: "@ + shown,
        PlaceKind::Other => result matches Err(e) && e.0@ == "'"@ + shown
            + "' is not a directory."@,
        PlaceKind::Directory => match result {
            Err(e) => glob::requested_pattern(args.glob) matches Some(p) && exists|
                reason: Seq<char>,
            |
                e.0@ == #[trigger] ("Invalid glob pattern '"@ + args.glob.unwrap()@ + "': "@
                    + reason) && glob::refuses(p, reason),
            Ok(plan) => plan.dir == dir && plan.shown@ == shown && plan.depth == listing_depth(
                args.depth,
            ) && plan.include_hidden == args.include_hidden && glob::filter_pattern(plan.filter)
                == glob::requested_pattern(args.glob) && plan.max_entries
                == limits.max_list_entries && (glob::requested_pattern(args.glob) matches Some(p)
                ==> glob::accepts(p)),
        },
    }
}

/// Plans a listing: the path is resolved, must be a directory, and the filter
/// must be a glob.
pub fn plan_listing<L: Fn(&FullPath) -> Located, K: Fn(&FullPath) -> PlaceKind>(
    ctx: &WorkspaceContext,
    limits: &Limits,
    presentation: PathPresentation,
    args: &ListFilesArgs,
    locate: &L,
    kind_of: &K,
) -> (result: ToolResult<ListPlan>)
    requires
        forall|at: &FullPath| call_requires(locate, (at,)),
        forall|at: &FullPath| call_requires(kind_of, (at,)),
    ensures
        exists|found: ToolResult<FullPath>| #[trigger]
            command::resolves_optional(ctx.resolver_view(), args.path, *locate, found)
                && match found {
                Err(refusal) => result matches Err(e) && e == refusal,
                Ok(dir) => exists|kind: PlaceKind| #[trigger]
                    call_ensures(*kind_of, (&dir,), kind) && list_planned(
                        result,
                        *ctx,
                        *limits,
                        presentation,
                        *args,
                        dir,
                        kind,
                    ),
            },
{
    let found: ToolResult<FullPath> = match &args.path {
        Some(path) => ctx.resolver().resolve(Some(path.as_str()), locate),
        None => ctx.resolver().resolve(None, locate),
    };
    assert(command::resolves_optional(ctx.resolver_view(), args.path, *locate, found));
    let dir: FullPath = match found {
        Ok(dir) => dir,
        Err(e) => {
            return Err(e);
        },
    };
    let shown: String = ctx.resolver().display_relative_as(&dir, presentation);
    let kind: PlaceKind = kind_of(&dir);
    assert(call_ensures(*kind_of, (&dir,), kind));
    match kind {
        PlaceKind::Absent => {
            return Err(
                ToolError(String::from_str("Path does not exist: ").concat(shown.as_str())),
            );
        },
        PlaceKind::Other => {
            return Err(
                ToolError(
                    String::from_str("'").concat(shown.as_str()).concat("' is not a directory."),
                ),
            );
        },
        PlaceKind::Directory => {},
    }
    match PathFilter::compile(&args.glob) {
        Err(reason) => {
            let given: &str = match &args.glob {
                Some(given) => given.as_str(),
                None => "",
            };
            let error = ToolError(
                String::from_str("Invalid glob pattern '").concat(given).concat("': ").concat(
                    reason.as_str(),
                ),
            );
            assert(error.0@ == "Invalid glob pattern '"@ + args.glob.unwrap()@ + "': "@ + reason@);
            Err(error)
        },
        Ok(filter) => {
            let depth: u32 = match args.depth {
                Some(depth) => if depth < 1 {
                    1
                } else if depth > 10 {
                    10
                } else {
                    depth
                },
                None => 2,
            };
            Ok(
                ListPlan {
                    dir,
                    shown,
                    depth,
                    include_hidden: args.include_hidden,
                    filter,
                    max_entries: limits.max_list_entries,
                },
            )
        },
    }
}

/// The kind of a listed entry.
#[derive(Debug, Clone, Copy, PartialEq, Eq, Structural)]
pub enum EntryKind {
    /// A symbolic link.
    Symlink,
    /// A directory.
    Dir,
    /// A regular file.
    File,
    /// Anything else, listed as a file.
    Special,
}

impl EntryKind {
    /// The kind as it is listed.
    pub open spec fn label_view(self) -> Seq<char> {
        match self {
            EntryKind::Symlink => "symlink"@,
            EntryKind::Dir => "dir"@,
            EntryKind::File => "file"@,
            EntryKind::Special => "file"@,
        }
    }

    /// The kind as it is listed.
    pub fn label(self) -> (label: &'static str)
        ensures
            label@ == self.label_view(),
    {
        match self {
            EntryKind::Symlink => "symlink",
            EntryKind::Dir => "dir",
            EntryKind::File => "file",
            EntryKind::Special => "file",
        }
    }
}

/// One listed entry.
#[derive(Debug)]
pub struct ListedEntry {
    /// Its path as shown.
    pub path: String,
    /// Its kind.
    pub kind: EntryKind,
    /// Its size; told of regular files.
    pub size: Option<u64>,
}

/// An entry that the walk came upon.
#[derive(Debug)]
pub struct FoundEntry {
    /// Its path as shown.
    pub path: String,
    /// Its bare name, where that is valid text.
    pub name: Option<String>,
    /// Its kind.
    pub kind: EntryKind,
    /// Its size, where that is known.
    pub size: Option<u64>,
}

impl FoundEntry {
    /// The entry as it is listed.
    pub open spec fn listed(self) -> ListedEntry {
        ListedEntry {
            path: self.path,
            kind: self.kind,
            size: if self.kind == EntryKind::File {
                self.size
            } else {
                None
            },
        }
    }
}

/// What becomes of the kept entries, and of the note that one was left out,
/// when an entry comes that the filter selects or not.
pub open spec fn offered(
    state: (Seq<ListedEntry>, bool),
    selected: bool,
    entry: ListedEntry,
    cap: nat,
) -> (Seq<ListedEntry>, bool) {
    if !selected {
        state
    } else if state.0.len() >= cap {
        (state.0, true)
    } else {
        (state.0.push(entry), state.1)
    }
}

/// What becomes of a sequence of entries.
pub open spec fn offered_all(
    entries: Seq<ListedEntry>,
    chosen: Seq<bool>,
    cap: nat,
) -> (Seq<ListedEntry>, bool)
    decreases entries.len(),
{
    if entries.len() == 0 {
        (Seq::empty(), false)
    } else {
        offered(
            offered_all(entries.drop_last(), chosen.drop_last(), cap),
            chosen.last(),
            entries.last(),
            cap,
        )
    }
}

/// The chosen ones of a sequence of entries.
pub open spec fn chosen_of(entries: Seq<ListedEntry>, chosen: Seq<bool>) -> Seq<ListedEntry>
    decreases entries.len(),
{
    if entries.len() == 0 {
        Seq::empty()
    } else if chosen.last() {
        chosen_of(entries.drop_last(), chosen.drop_last()).push(entries.last())
    } else {
        chosen_of(entries.drop_last(), chosen.drop_last())
    }
}

/// A listing keeps the first entries that the filter selects, as many as it
/// may, in the order of the walk; and it says that it is cut off just if the
/// filter selects more than that.
pub proof fn law_listing_keeps_the_first(entries: Seq<ListedEntry>, chosen: Seq<bool>, cap: nat)
    requires
        entries.len() == chosen.len(),
    ensures
        ({
            let all = chosen_of(entries, chosen);
            let (kept, cut) = offered_all(entries, chosen, cap);
            kept == all.take(
                if all.len() <= cap {
                    all.len() as int
                } else {
                    cap as int
                },
            ) && cut == (all.len() > cap)
        }),
    decreases entries.len(),
{
    if entries.len() > 0 {
        law_listing_keeps_the_first(entries.drop_last(), chosen.drop_last(), cap);
        let before = chosen_of(entries.drop_last(), chosen.drop_last());
        if chosen.last() {
            let all = before.push(entries.last());
            if before.len() < cap {
                assert(before.take(before.len() as int) =~= before);
                assert(all.take(all.len() as int) =~= all);
            } else {
                assert(all.take(cap as int) =~= before.take(cap as int));
            }
        }
    } else {
        assert(Seq::<ListedEntry>::empty().take(0) =~= Seq::<ListedEntry>::empty());
    }
}

/// The entries of a listing, as far as they are kept.
pub struct ListCollector {
    entries: Vec<ListedEntry>,
    max_entries: usize,
    truncated: bool,
}

impl ListCollector {
    /// The kept entries.
    pub closed spec fn kept(self) -> Seq<ListedEntry> {
        self.entries@
    }

    /// The most entries to keep.
    pub closed spec fn cap(self) -> nat {
        self.max_entries as nat
    }

    /// Whether an entry was left out.
    pub closed spec fn overflowed(self) -> bool {
        self.truncated
    }

    /// No more than the cap are kept.
    pub closed spec fn wf(self) -> bool {
        self.entries@.len() <= self.max_entries && (self.truncated ==> self.entries@.len()
            == self.max_entries)
    }

    /// An empty listing.
    pub fn new(max_entries: usize) -> (collector: ListCollector)
        ensures
            collector.wf(),
            collector.kept() == Seq::<ListedEntry>::empty(),
            collector.cap() == max_entries,
            !collector.overflowed(),
    {
        ListCollector { entries: Vec::new(), max_entries, truncated: false }
    }

    /// Takes in an entry of the walk; tells whether to go on. An entry that
    /// the filter does not select is passed over. Once enough are kept, a
    /// further one is left out and noted, and the listing ends. Only a regular
    /// file's size is kept.
    pub fn offer(&mut self, plan: &ListPlan, found: FoundEntry) -> (go_on: bool)
        requires
            old(self).wf(),
        ensures
            final(self).wf(),
            final(self).cap() == old(self).cap(),
            exists|yes: bool| #[trigger]
                glob::may_select(plan.filter, found.path@, found.name, yes) && (
                final(self).kept(), final(self).overflowed()) == offered(
                    (old(self).kept(), old(self).overflowed()),
                    yes,
                    found.listed(),
                    old(self).cap(),
                ) && go_on == !(yes && old(self).kept().len() >= old(self).cap()),
    {
        if !glob::selects(&plan.filter, found.path.as_str(), &found.name) {
            assert(glob::may_select(plan.filter, found.path@, found.name, false));
            return true;
        }
        assert(glob::may_select(plan.filter, found.path@, found.name, true));
        if self.entries.len() >= self.max_entries {
            self.truncated = true;
            return false;
        }
        let size: Option<u64> = if found.kind == EntryKind::File {
            found.size
        } else {
            None
        };
        self.entries.push(ListedEntry { path: found.path, kind: found.kind, size });
        true
    }

    /// Ends the listing.
    pub fn finish(self, plan: &ListPlan) -> (listing: Listing)
        requires
            self.wf(),
        ensures
            listing.root@ == plan.shown@,
            listing.depth == plan.depth,
            listing.truncated == self.overflowed(),
            listing.entries@ == self.kept(),
            listing.entries@.len() <= self.cap(),
    {
        Listing {
            root: plan.shown.clone(),
            depth: plan.depth,
            truncated: self.truncated,
            entries: self.entries,
        }
    }
}

/// What `list_files` returns.
#[derive(Debug)]
pub struct Listing {
    /// The listed directory as shown.
    pub root: String,
    /// How many levels were descended.
    pub depth: u32,
    /// Whether an entry was left out.
    pub truncated: bool,
    /// The entries in the order of the walk.
    pub entries: Vec<ListedEntry>,
}

// ---------------------------------------------------------------------------
// read_file: more laws
// ---------------------------------------------------------------------------

/// Whether line index `k` lies in the window.
pub open spec fn in_window(k: int, window: ReadWindow) -> bool {
    window.first <= k + 1 <= window.last
}

/// The text that is shown of a line, before it is clipped.
pub open spec fn line_text(line: Seq<u8>, window: ReadWindow) -> Seq<char> {
    text::decoded_text(held_line(line, window))
}

/// Whether something of a line is not shown even if the budget allows it.
pub open spec fn is_cut(line: Seq<u8>, window: ReadWindow) -> bool {
    line.len() > window.source_cap || text::byte_len(line_text(line, window)) > window.line_cap
}

proof fn lemma_window_from(lines: Seq<Seq<u8>>, i: int, spent: nat, window: ReadWindow)
    requires
        0 <= i <= lines.len(),
        1 <= window.first,
    ensures
        ({
            let view = window_from(lines, i, spent, window);
            let next = next_shown(i, window);
            let end = if window.last < lines.len() {
                window.last as int
            } else {
                lines.len() as int
            };
            &&& !view.stopped ==> view.lines.len() == if end >= next {
                end - next + 1
            } else {
                0
            }
            &&& view.lines.len() > 0 ==> next + view.lines.len() - 1 <= end
            &&& !view.stopped || spent > 0 || view.lines.len() > 1 ==> forall|j: int|
                0 <= j < view.lines.len() ==> #[trigger] view.lines[j] == numbered(
                    (next + j) as nat,
                    tools::clipped(
                        line_text(lines[next + j - 1], window),
                        window.line_cap as nat,
                    ),
                )
            &&& !view.stopped ==> (view.truncated <==> exists|k: int|
                i <= k < lines.len() && in_window(k, window) && is_cut(#[trigger] lines[k], window))
            &&& !view.stopped ==> (view.lossy <==> exists|k: int|
                i <= k < lines.len() && in_window(k, window) && !vstd::utf8::valid_utf8(
                    held_line(#[trigger] lines[k], window),
                ))
            &&& !view.stopped && i < window.last && window.first <= window.last ==> view.passed == if window.last
                <= lines.len() {
                window.last as int
            } else {
                lines.len() as int
            }
            &&& view.stopped ==> view.truncated
        }),
    decreases lines.len() - i,
{
    let view = window_from(lines, i, spent, window);
    let next = next_shown(i, window);
    if i < lines.len() {
        if i + 1 > window.last {
            lemma_past_the_window(lines, i, spent, window);
        } else if i + 1 < window.first {
            lemma_window_from(lines, i + 1, spent, window);
            assert(next_shown(i + 1, window) == next);
        } else {
            let bytes = held_line(lines[i], window);
            match shown_line((i + 1) as nat, text::decoded_text(bytes), spent, window) {
                LineView::Omitted => {},
                LineView::Head(_) => {},
                LineView::Whole(line, cost, clipped) => {
                    if i + 1 < window.last {
                        let rest = window_from(lines, i + 1, spent + cost, window);
                        lemma_window_from(lines, i + 1, spent + cost, window);
                        assert(next_shown(i + 1, window) == i + 2);
                        assert forall|j: int| 0 <= j < view.lines.len() implies #[trigger] view.lines[j]
                            == numbered(
                            (next + j) as nat,
                            tools::clipped(
                                line_text(lines[next + j - 1], window),
                                window.line_cap as nat,
                            ),
                        ) by {
                            if j > 0 {
                                assert(view.lines[j] == rest.lines[j - 1]);
                            }
                        }
                        assert(in_window(i, window));
                        if !view.stopped {
                            if is_cut(lines[i], window) {
                                assert(is_cut(lines[i], window));
                            }
                        }
                    } else {
                        assert(in_window(i, window));
                    }
                },
            }
        }
    }
}

proof fn lemma_past_the_window(lines: Seq<Seq<u8>>, i: int, spent: nat, window: ReadWindow)
    requires
        0 <= i <= lines.len(),
        i >= window.last,
    ensures
        ({
            let view = window_from(lines, i, spent, window);
            view.lines.len() == 0 && !view.stopped && !view.truncated && !view.lossy && view.passed
                == lines.len()
        }),
    decreases lines.len() - i,
{
    if i < lines.len() {
        lemma_past_the_window(lines, i + 1, spent, window);
    }
}

/// The window is complete: where the byte budget did not end the read, every
/// line of the window is returned, however long the lines are and whatever
/// stands on them.
pub proof fn law_window_is_complete(content: Seq<u8>, window: ReadWindow)
    requires
        1 <= window.first,
        !file_window(content, window).stopped,
    ensures
        file_window(content, window).lines.len() == ({
            let end = if window.last < all_lines(content).len() {
                window.last as int
            } else {
                all_lines(content).len() as int
            };
            if end >= window.first {
                end - window.first + 1
            } else {
                0
            }
        }),
{
    lemma_window_from(all_lines(content), 0, 0, window);
}

/// Every returned line is the line of the file with its number: what is held
/// of it, without its end, clipped to the line cap. Only the head of a single
/// line longer than the whole budget is shown otherwise.
pub proof fn law_window_shows_the_lines(content: Seq<u8>, window: ReadWindow, j: int)
    requires
        1 <= window.first,
        0 <= j < file_window(content, window).lines.len(),
        !file_window(content, window).stopped || file_window(content, window).lines.len() > 1,
    ensures
        window.first + j <= all_lines(content).len(),
        window.first + j <= window.last,
        file_window(content, window).lines[j] == text::decimal((window.first + j) as nat) + ": "@
            + tools::clipped(
            text::decoded_text(held_line(all_lines(content)[window.first + j - 1], window)),
            window.line_cap as nat,
        ),
{
    lemma_window_from(all_lines(content), 0, 0, window);
}

/// Truncation and lossy decoding are reported just where they occur: where the
/// budget did not end the read, a cut is reported if and only if a line of the
/// window was cut, and lossy decoding if and only if one is not valid UTF-8.
pub proof fn law_losses_are_reported_exactly(content: Seq<u8>, window: ReadWindow)
    requires
        1 <= window.first,
    ensures
        file_window(content, window).stopped ==> file_window(content, window).truncated,
        !file_window(content, window).stopped ==> (file_window(content, window).truncated
            <==> exists|k: int|
            0 <= k < all_lines(content).len() && in_window(k, window) && is_cut(
                #[trigger] all_lines(content)[k],
                window,
            )),
        !file_window(content, window).stopped ==> (file_window(content, window).lossy
            <==> exists|k: int|
            0 <= k < all_lines(content).len() && in_window(k, window) && !vstd::utf8::valid_utf8(
                held_line(#[trigger] all_lines(content)[k], window),
            )),
{
    lemma_window_from(all_lines(content), 0, 0, window);
}

/// A read tells that the file goes on just where it does: the budget ended it,
/// or a line follows the window.
pub proof fn law_more_lines_are_told(content: Seq<u8>, window: ReadWindow)
    requires
        1 <= window.first <= window.last,
    ensures
        goes_on(content, window) <==> file_window(content, window).stopped || all_lines(
            content,
        ).len() > window.last,
{
    lemma_window_from(all_lines(content), 0, 0, window);
}

/// What the lines of the window from index `i` on cost.
pub open spec fn window_cost(lines: Seq<Seq<u8>>, i: int, window: ReadWindow) -> nat
    decreases lines.len() - i,
{
    if i < 0 || i >= lines.len() {
        0
    } else if in_window(i, window) {
        text::byte_len(line_text(lines[i], window)) + text::decimal((i + 1) as nat).len() + 2
            + window_cost(lines, i + 1, window)
    } else {
        window_cost(lines, i + 1, window)
    }
}

proof fn lemma_budget_suffices(lines: Seq<Seq<u8>>, i: int, spent: nat, window: ReadWindow)
    requires
        0 <= i <= lines.len(),
        spent + window_cost(lines, i, window) <= window.budget,
        forall|k: int|
            0 <= k < lines.len() && in_window(k, window) ==> text::byte_len(
                line_text(#[trigger] lines[k], window),
            ) <= window.line_cap,
    ensures
        !window_from(lines, i, spent, window).stopped,
    decreases lines.len() - i,
{
    if i < lines.len() {
        if !in_window(i, window) {
            lemma_budget_suffices(lines, i + 1, spent, window);
        } else {
            let line = line_text(lines[i], window);
            let cost = text::byte_len(line) + prefix_len((i + 1) as nat);
            assert(text::byte_len(line) <= window.line_cap);
            if i + 1 < window.last {
                lemma_budget_suffices(lines, i + 1, spent + cost, window);
            }
        }
    }
}

/// Nothing but the byte budget ends a read early: where the lines of the window
/// fit into it, with their numbers and none of them over the line cap, the read
/// goes to the end of the window.
pub proof fn law_only_the_budget_ends_a_read(content: Seq<u8>, window: ReadWindow)
    requires
        window_cost(all_lines(content), 0, window) <= window.budget,
        forall|k: int|
            0 <= k < all_lines(content).len() && in_window(k, window) ==> text::byte_len(
                line_text(#[trigger] all_lines(content)[k], window),
            ) <= window.line_cap,
    ensures
        !file_window(content, window).stopped,
{
    lemma_budget_suffices(all_lines(content), 0, 0, window);
}

/// Lines, each with a line feed behind it.
pub open spec fn with_feeds(lines: Seq<Seq<u8>>) -> Seq<u8>
    decreases lines.len(),
{
    if lines.len() == 0 {
        Seq::empty()
    } else {
        with_feeds(lines.drop_last()) + lines.last() + seq![10u8]
    }
}

proof fn lemma_lines_make_up(content: Seq<u8>)
    ensures
        with_feeds(closed_lines(content)) + open_line(content) == content,
        !open_line(content).contains(10u8),
        forall|k: int|
            0 <= k < closed_lines(content).len() ==> !(#[trigger] closed_lines(
                content,
            )[k]).contains(10u8),
    decreases content.len(),
{
    if content.len() > 0 {
        let head = content.drop_last();
        lemma_lines_make_up(head);
        if content.last() == NEWLINE {
            let lines = closed_lines(content);
            assert(lines.drop_last() =~= closed_lines(head));
            assert(with_feeds(lines) + Seq::<u8>::empty() =~= head.push(10u8));
            assert(head.push(10u8) =~= content);
        } else {
            assert(with_feeds(closed_lines(content)) + open_line(content) =~= head.push(
                content.last(),
            ));
            assert(head.push(content.last()) =~= content);
            assert forall|k: int| 0 <= k < open_line(content).len() implies open_line(content)[k]
                != 10u8 by {
                if k < open_line(head).len() {
                    assert(open_line(head).contains(open_line(head)[k]));
                }
            }
        }
    }
}

/// The lines of a file make it up: a line feed ends each, and what follows the
/// last one is a line of its own unless it is empty. No line holds a line feed.
pub proof fn law_lines_make_up_the_file(content: Seq<u8>)
    ensures
        content.len() == 0 || content.last() == 10u8 ==> with_feeds(all_lines(content)) == content,
        content.len() > 0 && content.last() != 10u8 ==> with_feeds(all_lines(content))
            == content.push(10u8),
        forall|k: int|
            0 <= k < all_lines(content).len() ==> !(#[trigger] all_lines(content)[k]).contains(
                10u8,
            ),
{
    lemma_lines_make_up(content);
    let closed = closed_lines(content);
    let rest = open_line(content);
    if rest.len() == 0 {
        assert(with_feeds(closed) + rest =~= with_feeds(closed));
        if content.len() > 0 && content.last() != NEWLINE {
            assert(rest.len() > 0);
        }
    } else {
        let all = closed.push(rest);
        assert(all.drop_last() =~= closed);
        assert(with_feeds(all) =~= (with_feeds(closed) + rest).push(10u8));
        if content.last() == 10u8 {
            assert(rest.len() == 0);
        }
    }
}

/// What is shown of a line is what is held of it, but for carriage returns and
/// line feeds at its end; and a line that fits is held whole.
pub proof fn law_only_line_ends_are_taken_off(line: Seq<u8>, window: ReadWindow)
    ensures
        ({
            let held = if line.len() > window.source_cap {
                line.take(window.source_cap as int)
            } else {
                line
            };
            let shown = held_line(line, window);
            &&& shown.len() <= held.len() && shown == held.take(shown.len() as int)
            &&& forall|i: int|
                shown.len() <= i < held.len() ==> #[trigger] held[i] == 10u8 || held[i] == 13u8
            &&& shown.len() > 0 ==> shown.last() != 10u8 && shown.last() != 13u8
        }),
{
    lemma_without_eol(at_most(line, window.source_cap as nat));
}

proof fn lemma_without_eol(held: Seq<u8>)
    ensures
        ({
            let shown = without_eol(held);
            &&& shown.len() <= held.len() && shown == held.take(shown.len() as int)
            &&& forall|i: int|
                shown.len() <= i < held.len() ==> #[trigger] held[i] == 10u8 || held[i] == 13u8
            &&& shown.len() > 0 ==> shown.last() != 10u8 && shown.last() != 13u8
        }),
    decreases held.len(),
{
    let shown = without_eol(held);
    if held.len() > 0 && (held.last() == NEWLINE || held.last() == RETURN) {
        lemma_without_eol(held.drop_last());
        assert(held.drop_last().take(shown.len() as int) =~= held.take(shown.len() as int));
        assert forall|i: int| shown.len() <= i < held.len() implies #[trigger] held[i] == 10u8
            || held[i] == 13u8 by {
            if i < held.len() - 1 {
                assert(held.drop_last()[i] == held[i]);
            }
        }
    } else {
        assert(held.take(held.len() as int) =~= held);
    }
}

/// A file is taken for a binary one just where a zero byte stands among its
/// first eight kibibytes.
pub proof fn law_binary_files_hold_a_zero_byte(head: Seq<u8>)
    ensures
        is_binary(head) <==> exists|i: int|
            0 <= i < head.len() && i < 8192 && #[trigger] head[i] == 0u8,
{
}

/// A file is read unless it is a directory, cannot be looked at or opened, or
/// is a binary one.
pub proof fn law_text_files_are_read(facts: FileFacts)
    ensures
        obstacle(facts) is None <==> facts.directory == Ok::<bool, String>(false)
            && facts.head is Ok && !facts.head->Ok_0@.take(
            if facts.head->Ok_0@.len() < 8192 {
                facts.head->Ok_0@.len() as int
            } else {
                8192
            },
        ).contains(0u8),
{
    if facts.head is Ok {
        let head = facts.head->Ok_0@;
        let seen = head.take(
            if head.len() < 8192 {
                head.len() as int
            } else {
                8192
            },
        );
        if is_binary(head) {
            let i = choose|i: int| 0 <= i < head.len() && i < BINARY_SNIFF_BYTES && head[i] == 0;
            assert(seen[i] == 0u8);
        }
        if seen.contains(0u8) {
            let i = choose|i: int| 0 <= i < seen.len() && seen[i] == 0u8;
            assert(head[i] == 0u8);
        }
    }
}

// ---------------------------------------------------------------------------
// list_files: more laws
// ---------------------------------------------------------------------------

/// An entry is listed unless it is hidden and hidden ones were not asked for,
/// or it is a generated or version-control directory; files are never left out
/// for such a name.
pub proof fn law_ordinary_entries_are_listed(
    depth: nat,
    name: Seq<char>,
    is_dir: bool,
    include_hidden: bool,
)
    ensures
        depth == 0 ==> is_visible(depth, name, is_dir, include_hidden),
        depth > 0 ==> (is_visible(depth, name, is_dir, include_hidden) <==> (include_hidden
            || name.len() == 0 || name[0] != '.') && (!is_dir || !(tools::is_vcs_name(name)
            || tools::is_generated_name(name)))),
{
}

/// A listing keeps every selected entry in order while there is room: entry `i`
/// is kept if it is selected and fewer than the cap were selected before it.
pub proof fn law_listed_entries_are_the_selected_ones(
    entries: Seq<ListedEntry>,
    chosen: Seq<bool>,
    cap: nat,
    i: int,
)
    requires
        entries.len() == chosen.len(),
        0 <= i < entries.len(),
    ensures
        chosen_of(entries.take(i), chosen.take(i)).len() <= i,
        chosen[i] && chosen_of(entries.take(i), chosen.take(i)).len() < cap ==> {
            let at = chosen_of(entries.take(i), chosen.take(i)).len() as int;
            at < offered_all(entries, chosen, cap).0.len() && offered_all(entries, chosen, cap).0[at]
                == entries[i]
        },
        offered_all(entries, chosen, cap).0.len() <= cap,
    decreases entries.len(),
{
    law_listing_keeps_the_first(entries, chosen, cap);
    lemma_chosen_position(entries, chosen, i);
}

proof fn lemma_chosen_position(entries: Seq<ListedEntry>, chosen: Seq<bool>, i: int)
    requires
        entries.len() == chosen.len(),
        0 <= i < entries.len(),
    ensures
        chosen_of(entries.take(i), chosen.take(i)).len() <= i,
        chosen_of(entries.take(i), chosen.take(i)).len() <= chosen_of(entries, chosen).len(),
        chosen[i] ==> {
            let at = chosen_of(entries.take(i), chosen.take(i)).len() as int;
            at < chosen_of(entries, chosen).len() && chosen_of(entries, chosen)[at] == entries[i]
        },
    decreases entries.len(),
{
    let head = entries.drop_last();
    let marks = chosen.drop_last();
    if i < head.len() {
        assert(head.take(i) =~= entries.take(i));
        assert(marks.take(i) =~= chosen.take(i));
        lemma_chosen_position(head, marks, i);
    } else {
        assert(entries.take(i) =~= head);
        assert(chosen.take(i) =~= marks);
        lemma_chosen_len(head, marks);
    }
}

proof fn lemma_chosen_len(entries: Seq<ListedEntry>, chosen: Seq<bool>)
    requires
        entries.len() == chosen.len(),
    ensures
        chosen_of(entries, chosen).len() <= entries.len(),
    decreases entries.len(),
{
    if entries.len() > 0 {
        lemma_chosen_len(entries.drop_last(), chosen.drop_last());
    }
}

/// A read that the byte budget ends has used it up: either its only line is the
/// head of one that is longer than the whole budget, or the next line of the
/// window does not fit behind those returned.
pub proof fn law_stopped_reads_are_full(content: Seq<u8>, window: ReadWindow)
    requires
        1 <= window.first,
        all_lines(content).len() <= u64::MAX,
        file_window(content, window).stopped,
    ensures
        ({
            let shown = file_window(content, window).lines;
            let lines = all_lines(content);
            let next = window.first + shown.len();
            ||| shown.len() == 1 && window.first <= lines.len() && text::byte_len(
                line_text(lines[window.first - 1], window),
            ) > window.budget
            ||| shown.len() > 0 && next <= lines.len() && next <= window.last && total_bytes(shown)
                + text::byte_len(line_text(lines[next - 1], window)) + text::decimal(
                next as nat,
            ).len() + 2 > window.budget
        }),
{
    lemma_stopped(all_lines(content), 0, 0, window);
}

proof fn lemma_stopped(lines: Seq<Seq<u8>>, i: int, spent: nat, window: ReadWindow)
    requires
        0 <= i <= lines.len() <= u64::MAX,
        1 <= window.first,
        window_from(lines, i, spent, window).stopped,
    ensures
        ({
            let shown = window_from(lines, i, spent, window).lines;
            let first = next_shown(i, window);
            let next = first + shown.len();
            ||| spent == 0 && shown.len() == 1 && 1 <= first <= lines.len() && text::byte_len(
                line_text(lines[first - 1], window),
            ) > window.budget
            ||| (spent > 0 || shown.len() > 0) && 1 <= next <= lines.len() && next <= window.last
                && spent + total_bytes(shown) + text::byte_len(line_text(lines[next - 1], window))
                + prefix_len(next as nat) > window.budget
        }),
    decreases lines.len() - i,
{
    let view = window_from(lines, i, spent, window);
    if i + 1 > window.last {
        lemma_past_the_window(lines, i, spent, window);
    } else if i + 1 < window.first {
        lemma_stopped(lines, i + 1, spent, window);
        assert(next_shown(i + 1, window) == next_shown(i, window));
    } else {
        let line = line_text(lines[i], window);
        let number = (i + 1) as u64;
        match shown_line((i + 1) as nat, line, spent, window) {
            LineView::Omitted => {
                assert(total_bytes(view.lines) == 0);
            },
            LineView::Head(_) => {},
            LineView::Whole(shown, cost, _) => {
                let rest = window_from(lines, i + 1, spent + cost, window);
                lemma_stopped(lines, i + 1, spent + cost, window);
                lemma_numbered_len(number, tools::clipped(line, window.line_cap as nat));
                assert((seq![shown] + rest.lines).skip(1) =~= rest.lines);
                assert(total_bytes(view.lines) == cost + total_bytes(rest.lines));
                assert(next_shown(i + 1, window) == i + 2);
            },
        }
    }
}

/// A single line longer than the whole budget is shown by its head, with its
/// number, as far as there is room behind that.
pub proof fn law_long_lines_show_their_head(content: Seq<u8>, window: ReadWindow)
    requires
        1 <= window.first <= window.last,
        window.first <= all_lines(content).len(),
        text::byte_len(line_text(all_lines(content)[window.first - 1], window)) > window.budget,
    ensures
        file_window(content, window).stopped,
        file_window(content, window).lines == seq![
            text::decimal(window.first as nat) + ": "@ + tools::clipped(
                line_text(all_lines(content)[window.first - 1], window),
                if window.budget > text::decimal(window.first as nat).len() + 2 {
                    (window.budget - text::decimal(window.first as nat).len() - 2) as nat
                } else {
                    0
                },
            ),
        ],
{
    lemma_skips_to_first(all_lines(content), 0, window);
}

proof fn lemma_skips_to_first(lines: Seq<Seq<u8>>, i: int, window: ReadWindow)
    requires
        0 <= i < window.first <= lines.len(),
        window.first <= window.last,
    ensures
        window_from(lines, i, 0, window) == window_from(lines, window.first - 1, 0, window),
    decreases window.first - i,
{
    if i + 1 < window.first {
        lemma_skips_to_first(lines, i + 1, window);
    }
}

/// A planned read is for the path that was resolved and for the lines that
/// were asked for; it is planned just where nothing stands in the way.
pub proof fn law_reads_are_planned_as_asked(
    result: ToolResult<ReadPlan>,
    ctx: WorkspaceContext,
    limits: Limits,
    presentation: PathPresentation,
    args: ReadFileArgs,
    path: FullPath,
    facts: FileFacts,
)
    requires
        read_planned(result, ctx, limits, presentation, args, path, facts),
    ensures
        result is Ok <==> obstacle(facts) is None,
        result matches Ok(plan) ==> {
            &&& plan.path == path
            &&& plan.shown@ == ctx.resolver_view().presented_view(path@, presentation)
            &&& args.start_line matches Some(line) ==> line >= 1 ==> plan.window.first == line
            &&& args.start_line is None ==> plan.window.first == 1
            &&& args.end_line matches Some(line) ==> line >= plan.window.first ==> plan.window.last
                == line
            &&& args.end_line is Some ==> plan.window.last >= plan.window.first
            &&& args.start_line is None && args.end_line is None ==> plan.window.last
                == limits.default_read_lines
            &&& args.start_line is Some && args.end_line is None ==> plan.window.last
                - plan.window.first + 1 == limits.read_span_when_start_only
            &&& plan.window.budget == limits.max_read_bytes
            &&& plan.window.line_cap == 8 * limits.max_search_line_bytes
            &&& plan.window.source_cap == limits.max_source_line_bytes
        },
{
}

/// A planned listing is of the directory that was resolved, as deep as asked
/// for within its bounds, with the filter that was asked for.
pub proof fn law_listings_are_planned_as_asked(
    plan: ListPlan,
    ctx: WorkspaceContext,
    limits: Limits,
    presentation: PathPresentation,
    args: ListFilesArgs,
    dir: FullPath,
    kind: PlaceKind,
)
    requires
        list_planned(Ok(plan), ctx, limits, presentation, args, dir, kind),
    ensures
        kind == PlaceKind::Directory,
        plan.dir == dir,
        plan.include_hidden == args.include_hidden,
        1 <= plan.depth <= 10,
        args.depth matches Some(depth) ==> 1 <= depth <= 10 ==> plan.depth == depth,
        args.depth == Some(0u32) ==> plan.depth == 1,
        args.depth matches Some(depth) ==> depth > 10 ==> plan.depth == 10,
        args.depth is None ==> plan.depth == 2,
        plan.max_entries == limits.max_list_entries,
        args.glob is None ==> plan.filter is None,
        args.glob matches Some(given) ==> !text::is_blank(given@) ==> (plan.filter matches Some(f)
            && text::is_core(given@, f.pattern())),
{
    glob::law_filters_are_taken_as_given(args.glob);
}

/// An entry is listed as it was found: its path and its kind, and the size
/// just where it is a regular file.
pub proof fn law_entries_are_listed_as_found(found: FoundEntry)
    ensures
        found.listed().path == found.path,
        found.listed().kind == found.kind,
        found.kind == EntryKind::File ==> found.listed().size == found.size,
        found.kind != EntryKind::File ==> found.listed().size is None,
        EntryKind::Symlink.label_view() == "symlink"@,
        EntryKind::Dir.label_view() == "dir"@,
        EntryKind::File.label_view() == "file"@,
        EntryKind::Special.label_view() == "file"@,
{
}

/// A listing of a directory is refused only where its filter is no glob.
pub proof fn law_listing_refusals_have_their_reason(
    refusal: ToolError,
    ctx: WorkspaceContext,
    limits: Limits,
    presentation: PathPresentation,
    args: ListFilesArgs,
    dir: FullPath,
)
    requires
        list_planned(
            Err(refusal),
            ctx,
            limits,
            presentation,
            args,
            dir,
            PlaceKind::Directory,
        ),
    ensures
        args.glob matches Some(given) && !text::is_blank(given@) && exists|
            pattern: Seq<char>,
            reason: Seq<char>,
        | text::is_core(given@, pattern) && #[trigger] glob::refuses(pattern, reason),
{
    glob::law_filters_are_taken_as_given(args.glob);
}

/// The refusal to read a file names the file.
pub proof fn law_read_refusals_name_the_file(obstacle: ReadObstacle, shown: Seq<char>)
    ensures
        text::occurs(obstacle_text(obstacle, shown), shown),
{
    let told = obstacle_text(obstacle, shown);
    match obstacle {
        ReadObstacle::NoMetadata(reason) => {
            text::law_occurrences_are_found_anywhere(
                "Cannot read '"@,
                shown,
                "': "@ + reason@,
                told,
                0,
            );
            assert(told =~= "Cannot read '"@ + shown + ("': "@ + reason@));
        },
        ReadObstacle::Directory => {
            text::law_occurrences_are_found_anywhere(
                "'"@,
                shown,
                "' is a directory; use list_files instead."@,
                told,
                0,
            );
        },
        ReadObstacle::NoAccess(reason) => {
            text::law_occurrences_are_found_anywhere(
                "Cannot open '"@,
                shown,
                "': "@ + reason@,
                told,
                0,
            );
            assert(told =~= "Cannot open '"@ + shown + ("': "@ + reason@));
        },
        ReadObstacle::Binary => {
            text::law_occurrences_are_found_anywhere(
                "'"@,
                shown,
                "' appears to be a binary file and was not read."@,
                told,
                0,
            );
        },
    }
}

/// Every line after the first fits into what the budget leaves: with what was
/// returned before, the whole of it and its number stay within the budget.
pub proof fn law_later_lines_fit(content: Seq<u8>, window: ReadWindow, j: int)
    requires
        1 <= window.first,
        all_lines(content).len() <= u64::MAX,
        0 < j < file_window(content, window).lines.len(),
    ensures
        window.first + j <= all_lines(content).len(),
        total_bytes(file_window(content, window).lines.take(j)) + text::byte_len(
            line_text(all_lines(content)[window.first + j - 1], window),
        ) + text::decimal((window.first + j) as nat).len() + 2 <= window.budget,
{
    lemma_later_line_fits(all_lines(content), 0, 0, window, j);
}

proof fn lemma_later_line_fits(
    lines: Seq<Seq<u8>>,
    i: int,
    spent: nat,
    window: ReadWindow,
    j: int,
)
    requires
        0 <= i <= lines.len() <= u64::MAX,
        1 <= window.first,
        0 <= j < window_from(lines, i, spent, window).lines.len(),
        spent > 0 || j > 0,
    ensures
        ({
            let view = window_from(lines, i, spent, window);
            let number = next_shown(i, window) + j;
            &&& 1 <= number <= lines.len()
            &&& spent + total_bytes(view.lines.take(j)) + text::byte_len(
                line_text(lines[number - 1], window),
            ) + prefix_len(number as nat) <= window.budget
        }),
    decreases lines.len() - i,
{
    let view = window_from(lines, i, spent, window);
    if i + 1 > window.last {
        lemma_past_the_window(lines, i, spent, window);
    } else if i + 1 < window.first {
        lemma_later_line_fits(lines, i + 1, spent, window, j);
        assert(next_shown(i + 1, window) == next_shown(i, window));
    } else {
        let line = line_text(lines[i], window);
        match shown_line((i + 1) as nat, line, spent, window) {
            LineView::Omitted => {},
            LineView::Head(_) => {},
            LineView::Whole(shown, cost, _) => {
                if j == 0 {
                    assert(view.lines.take(0) =~= Seq::<Seq<char>>::empty());
                    assert(total_bytes(view.lines.take(0)) == 0);
                } else {
                    let rest = window_from(lines, i + 1, spent + cost, window);
                    lemma_numbered_len((i + 1) as u64, tools::clipped(line, window.line_cap as nat));
                    lemma_later_line_fits(lines, i + 1, spent + cost, window, j - 1);
                    let head = view.lines.take(j);
                    assert(head.skip(1) =~= rest.lines.take(j - 1));
                    assert(head[0] == shown);
                    assert(total_bytes(head) == cost + total_bytes(rest.lines.take(j - 1)));
                    assert(next_shown(i + 1, window) == i + 2);
                }
            },
        }
    }
}

/// Lossy decoding is told of what was gone through, whether or not the budget
/// ended the read: if and only if one of those lines is not valid UTF-8. A
/// read that the budget ends has gone through the lines that it returns, and
/// through the one that did not fit.
pub proof fn law_lossy_lines_are_told(content: Seq<u8>, window: ReadWindow)
    requires
        1 <= window.first,
        file_window(content, window).stopped,
    ensures
        ({
            let view = file_window(content, window);
            &&& view.passed <= all_lines(content).len()
            &&& view.passed == window.first + view.lines.len() || (view.lines.len() == 1
                && view.passed == window.first)
            &&& view.lossy <==> exists|k: int|
                window.first - 1 <= k < view.passed && !vstd::utf8::valid_utf8(
                    held_line(#[trigger] all_lines(content)[k], window),
                )
        }),
{
    lemma_lossy(all_lines(content), 0, 0, window);
}

proof fn lemma_lossy(lines: Seq<Seq<u8>>, i: int, spent: nat, window: ReadWindow)
    requires
        0 <= i <= lines.len(),
        1 <= window.first,
        window_from(lines, i, spent, window).stopped,
    ensures
        ({
            let view = window_from(lines, i, spent, window);
            let first = next_shown(i, window);
            &&& first <= view.passed <= lines.len()
            &&& view.passed == first + view.lines.len() || (spent == 0 && view.lines.len() == 1
                && view.passed == first)
            &&& view.lossy <==> exists|k: int|
                first - 1 <= k < view.passed && !vstd::utf8::valid_utf8(
                    held_line(#[trigger] lines[k], window),
                )
        }),
    decreases lines.len() - i,
{
    let view = window_from(lines, i, spent, window);
    if i + 1 > window.last {
        lemma_past_the_window(lines, i, spent, window);
    } else if i + 1 < window.first {
        lemma_lossy(lines, i + 1, spent, window);
        assert(next_shown(i + 1, window) == next_shown(i, window));
    } else {
        let bytes = held_line(lines[i], window);
        if !vstd::utf8::valid_utf8(bytes) {
            assert(!vstd::utf8::valid_utf8(held_line(lines[i], window)));
        }
        match shown_line((i + 1) as nat, line_text(lines[i], window), spent, window) {
            LineView::Omitted => {},
            LineView::Head(_) => {},
            LineView::Whole(_, cost, _) => {
                let rest = window_from(lines, i + 1, spent + cost, window);
                assert(cost > 0);
                lemma_lossy(lines, i + 1, spent + cost, window);
                assert(next_shown(i + 1, window) == i + 2);
                if view.lossy && vstd::utf8::valid_utf8(bytes) {
                    let k = choose|k: int|
                        i + 1 <= k < rest.passed && !vstd::utf8::valid_utf8(
                            held_line(#[trigger] lines[k], window),
                        );
                    assert(!vstd::utf8::valid_utf8(held_line(lines[k], window)));
                }
            },
        }
    }
}

/// The edges of a requested range: line zero is the first one, and a range
/// that ends before it begins is its first line alone.
pub proof fn law_odd_ranges_are_set_right(
    start_line: Option<u64>,
    end_line: Option<u64>,
    limits: Limits,
)
    ensures
        start_line == Some(0u64) ==> requested_first(start_line) == 1,
        start_line matches Some(line) ==> line >= 1 ==> requested_first(start_line) == line,
        start_line is None ==> requested_first(start_line) == 1,
        end_line matches Some(end) ==> (start_line matches Some(start) ==> end < start
            ==> requested_last(start_line, end_line, limits) == start),
        end_line matches Some(end) ==> (start_line matches Some(start) ==> 1 <= start <= end
            ==> requested_last(start_line, end_line, limits) == end),
        end_line == Some(0u64) && start_line is None ==> requested_last(
            start_line,
            end_line,
            limits,
        ) == 1,
{
}

} // verus!
