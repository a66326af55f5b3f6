//! `apply_patch`: the single write primitive.
//!
//! A unified diff is parsed, every target is checked, and each file's new
//! content is built in memory. Only if every hunk applies is anything
//! handed back to be written.
use crate::error::{ToolError, ToolResult};
use crate::permissions::Permissions;
use crate::text;
use crate::text::{LineEnding, LineView, TextLine};
use crate::workspace;
use crate::workspace::{FullPath, Located, PathPresentation, PathView, Workspace, WorkspaceContext};
use crate::workspace_id::WorkspaceId;
use vstd::prelude::*;

verus! {

broadcast use vstd::string::group_string_axioms;

// ---------------------------------------------------------------------------
// The parsed patch
// ---------------------------------------------------------------------------

/// One line of a hunk body.
#[derive(Debug)]
pub enum LineOp {
    /// A line that is in both files.
    Context(String),
    /// A line of the old file only.
    Remove(String),
    /// A line of the new file only.
    Add(String),
}

/// What a [`LineOp`] says.
#[verifier::ext_equal]
pub enum OpView {
    /// A line that is in both files.
    Context(Seq<char>),
    /// A line of the old file only.
    Remove(Seq<char>),
    /// A line of the new file only.
    Add(Seq<char>),
}

impl View for LineOp {
    type V = OpView;

    open spec fn view(&self) -> OpView {
        match self {
            LineOp::Context(s) => OpView::Context(s@),
            LineOp::Remove(s) => OpView::Remove(s@),
            LineOp::Add(s) => OpView::Add(s@),
        }
    }
}

/// What a list of hunk lines says.
pub open spec fn op_views(ops: Seq<LineOp>) -> Seq<OpView> {
    ops.map_values(|op: LineOp| op@)
}

/// One hunk of a patch.
#[derive(Debug)]
pub struct Hunk {
    /// The stated one-based line of the old file.
    pub old_start: u64,
    /// The body.
    pub ops: Vec<LineOp>,
}

/// What a [`Hunk`] says.
#[verifier::ext_equal]
pub struct HunkView {
    /// The stated one-based line of the old file.
    pub old_start: u64,
    /// The body.
    pub ops: Seq<OpView>,
}

impl View for Hunk {
    type V = HunkView;

    open spec fn view(&self) -> HunkView {
        HunkView { old_start: self.old_start, ops: op_views(self.ops@) }
    }
}

/// What a list of hunks says.
pub open spec fn hunk_views(hunks: Seq<Hunk>) -> Seq<HunkView> {
    hunks.map_values(|hunk: Hunk| hunk@)
}

/// The part of a patch that concerns one file.
#[derive(Debug)]
pub struct FilePatch {
    /// The path in the `---` header.
    pub old_path: String,
    /// The path in the `+++` header.
    pub new_path: String,
    /// Whether the file is to be created.
    pub creation: bool,
    /// The hunks, in order.
    pub hunks: Vec<Hunk>,
}

/// What a [`FilePatch`] says.
#[verifier::ext_equal]
pub struct FilePatchView {
    /// The path in the `---` header.
    pub old_path: Seq<char>,
    /// The path in the `+++` header.
    pub new_path: Seq<char>,
    /// Whether the file is to be created.
    pub creation: bool,
    /// The hunks, in order.
    pub hunks: Seq<HunkView>,
}

impl View for FilePatch {
    type V = FilePatchView;

    open spec fn view(&self) -> FilePatchView {
        FilePatchView {
            old_path: self.old_path@,
            new_path: self.new_path@,
            creation: self.creation,
            hunks: hunk_views(self.hunks@),
        }
    }
}

/// What a list of file patches says.
pub open spec fn file_views(files: Seq<FilePatch>) -> Seq<FilePatchView> {
    files.map_values(|file: FilePatch| file@)
}

// ---------------------------------------------------------------------------
// The grammar
// ---------------------------------------------------------------------------

/// `s` after every repetition of `prefix` at its head.
pub open spec fn after_repeated(s: Seq<char>, prefix: Seq<char>) -> Seq<char>
    decreases s.len(),
{
    if prefix.len() > 0 && text::begins_with(s, prefix) {
        after_repeated(s.skip(prefix.len() as int), prefix)
    } else {
        s
    }
}

/// A header's path: without surrounding quotes, or else without what follows
/// a tab.
pub open spec fn unquoted(raw: Seq<char>) -> Seq<char> {
    let t = text::trimmed(raw);
    if t.len() >= 2 && t[0] == '"' && t.last() == '"' {
        t.subrange(1, t.len() - 1)
    } else {
        t.take(text::position_from(t, '\t', 0))
    }
}

/// The path that a `---` or `+++` line names.
pub open spec fn header_path(line: Seq<char>, marker: Seq<char>) -> Seq<char> {
    unquoted(text::trimmed(after_repeated(line, marker)))
}

/// A diff path without the conventional `a/` or `b/` in front.
pub open spec fn without_side(path: Seq<char>) -> Seq<char> {
    if text::begins_with(path, "a/"@) || text::begins_with(path, "b/"@) {
        path.skip(2)
    } else {
        path
    }
}

/// The position of the first white space at or after `from`.
pub open spec fn token_end(s: Seq<char>, from: int) -> int
    decreases s.len() - from,
{
    if from >= s.len() {
        s.len() as int
    } else if text::is_white_space(s[from]) {
        from
    } else {
        token_end(s, from + 1)
    }
}

/// The old-side range of a hunk header: what stands between `@@ ` and the
/// next white space.
pub open spec fn old_range(header: Seq<char>) -> Seq<char> {
    header.subrange(3, token_end(header, 3))
}

/// The line number text of a range.
pub open spec fn range_start_text(range: Seq<char>) -> Seq<char> {
    let number = after_repeated(range, seq!['-']);
    number.take(text::position_from(number, ',', 0))
}

/// The length that a range declares after its comma.
pub open spec fn range_length(range: Seq<char>) -> Option<u64> {
    let rest = range.skip(1);
    let comma = text::position_from(rest, ',', 0);
    if comma < rest.len() {
        text::parsed_u64(rest.skip(comma + 1))
    } else {
        None
    }
}

/// What one line means inside a hunk body.
#[verifier::ext_equal]
pub enum BodyLine {
    /// The body ends in front of this line.
    Stop,
    /// A remark such as `\ No newline at end of file`.
    Remark,
    /// A line of the body.
    Op(OpView),
}

/// Reads one line as part of a hunk body. An empty line is an empty context
/// line whose blank was trimmed.
pub open spec fn body_line(text: Seq<char>) -> BodyLine {
    if text::begins_with(text, "@@"@) || text::begins_with(text, "--- "@) || text::begins_with(text, "diff --git"@)
        || text::begins_with(text, "Index: "@) {
        BodyLine::Stop
    } else if text.len() == 0 {
        BodyLine::Op(OpView::Context(Seq::empty()))
    } else if text[0] == '\\' {
        BodyLine::Remark
    } else if text[0] == ' ' {
        BodyLine::Op(OpView::Context(text.skip(1)))
    } else if text[0] == '-' {
        BodyLine::Op(OpView::Remove(text.skip(1)))
    } else if text[0] == '+' {
        BodyLine::Op(OpView::Add(text.skip(1)))
    } else {
        BodyLine::Stop
    }
}

/// The operations of the hunk body that starts at line `i`.
pub open spec fn body_ops(lines: Seq<LineView>, i: int) -> Seq<OpView>
    decreases lines.len() - i,
{
    if i >= lines.len() {
        Seq::empty()
    } else {
        match body_line(lines[i].text) {
            BodyLine::Stop => Seq::empty(),
            BodyLine::Remark => body_ops(lines, i + 1),
            BodyLine::Op(op) => seq![op] + body_ops(lines, i + 1),
        }
    }
}

/// The line after the hunk body that starts at line `i`.
pub open spec fn body_end(lines: Seq<LineView>, i: int) -> int
    decreases lines.len() - i,
{
    if i >= lines.len() || body_line(lines[i].text) is Stop {
        i
    } else {
        body_end(lines, i + 1)
    }
}

/// The lines of the old file that a hunk body shows.
pub open spec fn old_side(ops: Seq<OpView>) -> Seq<Seq<char>>
    decreases ops.len(),
{
    if ops.len() == 0 {
        Seq::empty()
    } else {
        match ops.last() {
            OpView::Context(s) => old_side(ops.drop_last()).push(s),
            OpView::Remove(s) => old_side(ops.drop_last()).push(s),
            OpView::Add(_) => old_side(ops.drop_last()),
        }
    }
}

/// The lines of the new file that a hunk body shows.
pub open spec fn new_side(ops: Seq<OpView>) -> Seq<Seq<char>>
    decreases ops.len(),
{
    if ops.len() == 0 {
        Seq::empty()
    } else {
        match ops.last() {
            OpView::Context(s) => new_side(ops.drop_last()).push(s),
            OpView::Remove(_) => new_side(ops.drop_last()),
            OpView::Add(s) => new_side(ops.drop_last()).push(s),
        }
    }
}

/// Whether a body only adds lines.
pub open spec fn only_adds(ops: Seq<OpView>) -> bool {
    forall|i: int| 0 <= i < ops.len() ==> ops[i] is Add
}

/// Reads the hunk whose header is line `i`.
pub open spec fn parsed_hunk(lines: Seq<LineView>, i: int) -> Result<HunkView, Seq<char>> {
    let range = old_range(lines[i].text);
    let declared = range_length(range);
    let ops = body_ops(lines, i + 1);
    match text::parsed_u64(range_start_text(range)) {
        None => Err(
            "Malformed patch: bad line number '"@ + range_start_text(range)
                + "' in '@@' header."@,
        ),
        Some(start) => if start == 0 && declared is None {
            Err(
                "Malformed patch: '@@ -0,0' style headers must include an explicit ',0' length."@,
            )
        } else if ops.len() == 0 {
            Err("Malformed patch: hunk has no body lines."@)
        } else if start == 0 && declared == Some(0u64) {
            if only_adds(ops) {
                Ok(HunkView { old_start: 1, ops })
            } else {
                Err(
                    "Malformed patch: a creation hunk ('@@ -0,0') must contain only added ('+') lines."@,
                )
            }
        } else if declared matches Some(count) && count != old_side(ops).len() {
            Err(
                "Malformed patch: '@@' header declares "@ + text::decimal(declared.unwrap() as nat)
                    + " old-side lines but body has "@ + text::decimal(old_side(ops).len()) + "."@,
            )
        } else {
            Ok(HunkView { old_start: if start == 0 { 1 } else { start }, ops })
        },
    }
}

/// Reads the run of hunks that starts at line `i`, and finds where it ends.
pub open spec fn parsed_hunks(lines: Seq<LineView>, i: int) -> Result<
    (Seq<HunkView>, int),
    Seq<char>,
>
    decreases lines.len() - i,
{
    if i < 0 || i >= lines.len() || !text::begins_with(lines[i].text, "@@ -"@) {
        Ok((Seq::empty(), i))
    } else {
        match parsed_hunk(lines, i) {
            Err(e) => Err(e),
            Ok(hunk) => {
                proof {
                    lemma_body_end(lines, i + 1);
                }
                match parsed_hunks(lines, body_end(lines, i + 1)) {
                    Err(e) => Err(e),
                    Ok((rest, end)) => Ok((seq![hunk] + rest, end)),
                }
            },
        }
    }
}

/// A hunk body ends at or after its start.
pub proof fn lemma_body_end(lines: Seq<LineView>, i: int)
    requires
        i <= lines.len(),
    ensures
        i <= body_end(lines, i) <= lines.len(),
    decreases lines.len() - i,
{
    if i < lines.len() && !(body_line(lines[i].text) is Stop) {
        lemma_body_end(lines, i + 1);
    }
}

/// Reads the file section whose `---` header is line `i`, and finds where it
/// ends.
pub open spec fn parsed_file(lines: Seq<LineView>, i: int) -> Result<
    (FilePatchView, int),
    Seq<char>,
> {
    let old_path = header_path(lines[i].text, "--- "@);
    if i + 1 >= lines.len() {
        Err("Malformed patch: '---' header not followed by '+++' header."@)
    } else if !text::begins_with(lines[i + 1].text, "+++ "@) {
        Err("Malformed patch: expected '+++' header after '---' header."@)
    } else {
        let new_path = header_path(lines[i + 1].text, "+++ "@);
        let creation = without_side(old_path) == "/dev/null"@;
        if !creation && without_side(new_path) == "/dev/null"@ {
            Err(
                "Patch deletes '"@ + without_side(old_path)
                    + "'; file deletion is not supported by apply_patch. Remove the file manually with run_command if --exec is enabled."@,
            )
        } else {
            match parsed_hunks(lines, i + 2) {
                Err(e) => Err(e),
                Ok((hunks, end)) => if hunks.len() == 0 {
                    Err(
                        "Malformed patch: no '@@' hunks found after headers for '"@ + new_path
                            + "'. Include full @@ sections."@,
                    )
                } else {
                    Ok((FilePatchView { old_path, new_path, creation, hunks }, end))
                },
            }
        }
    }
}

/// A run of hunks ends at or after its start.
pub proof fn lemma_parsed_hunks_end(lines: Seq<LineView>, i: int)
    requires
        0 <= i <= lines.len(),
    ensures
        parsed_hunks(lines, i) matches Ok((_, end)) ==> i <= end <= lines.len(),
    decreases lines.len() - i,
{
    if i < lines.len() && text::begins_with(lines[i].text, "@@ -"@) {
        lemma_body_end(lines, i + 1);
        lemma_parsed_hunks_end(lines, body_end(lines, i + 1));
    }
}

/// Reads every file section from line `i` on. Lines between sections are
/// passed over.
pub open spec fn parsed_files(lines: Seq<LineView>, i: int) -> Result<
    Seq<FilePatchView>,
    Seq<char>,
>
    decreases lines.len() - i,
{
    if i < 0 || i >= lines.len() {
        Ok(Seq::empty())
    } else if !text::begins_with(lines[i].text, "--- "@) {
        parsed_files(lines, i + 1)
    } else {
        match parsed_file(lines, i) {
            Err(e) => Err(e),
            Ok((file, end)) => {
                proof {
                    lemma_parsed_hunks_end(lines, i + 2);
                }
                match parsed_files(lines, end) {
                    Err(e) => Err(e),
                    Ok(rest) => Ok(seq![file] + rest),
                }
            },
        }
    }
}

/// Reads a whole patch. At least one file section is needed.
pub open spec fn parsed_patch(patch: Seq<char>) -> Result<Seq<FilePatchView>, Seq<char>> {
    match parsed_files(text::split_lines(patch), 0) {
        Err(e) => Err(e),
        Ok(files) => if files.len() == 0 {
            Err(
                "No usable unified-diff sections found. Expected lines starting with '--- ', '+++ ', '@@', '+', '-', or ' '."@,
            )
        } else {
            Ok(files)
        },
    }
}

// ---------------------------------------------------------------------------
// Parsing
// ---------------------------------------------------------------------------

fn skip_repeated<'a>(s: &'a [char], prefix: &str) -> (rest: &'a [char])
    requires
        prefix@.len() > 0,
    ensures
        rest@ == after_repeated(s@, prefix@),
{
    let step: usize = text::chars_of(prefix).len();
    let mut from: usize = 0;
    assert(s@.skip(0) =~= s@);
    while text::has_prefix(&s[from..s.len()], prefix)
        invariant
            from <= s@.len(),
            step == prefix@.len() > 0,
            after_repeated(s@.skip(from as int), prefix@) == after_repeated(s@, prefix@),
        ensures
            !text::begins_with(s@.skip(from as int), prefix@),
        decreases s.len() - from,
    {
        proof {
            assert(s@.subrange(from as int, s@.len() as int) =~= s@.skip(from as int));
            assert(s@.skip(from as int).skip(step as int) =~= s@.skip(from + step));
        }
        from += step;
    }
    assert(s@.subrange(from as int, s@.len() as int) =~= s@.skip(from as int));
    &s[from..s.len()]
}

/// The path that a header names: without surrounding quotes, or else without
/// the tab-separated time stamp.
pub fn unquote(raw: &[char]) -> (path: String)
    ensures
        path@ == unquoted(raw@),
{
    let t: &[char] = text::trim(raw);
    if t.len() >= 2 && t[0] == '"' && t[t.len() - 1] == '"' {
        text::string_of(&t[1..t.len() - 1])
    } else {
        let tab: usize = text::find_char(t, '\t', 0);
        assert(t@.subrange(0, tab as int) =~= t@.take(tab as int));
        text::string_of(&t[0..tab])
    }
}

fn path_in_header(line: &TextLine, marker: &str) -> (path: String)
    requires
        marker@.len() > 0,
    ensures
        path@ == header_path(line.text@, marker@),
{
    let chars: Vec<char> = text::chars_of(line.text.as_str());
    unquote(text::trim(skip_repeated(chars.as_slice(), marker)))
}

/// A diff path without the conventional `a/` or `b/` in front.
pub fn strip_a_b(path: &str) -> (rest: String)
    ensures
        rest@ == without_side(path@),
{
    proof {
        reveal_strlit("a/");
        reveal_strlit("b/");
    }
    let chars: Vec<char> = text::chars_of(path);
    if text::has_prefix(chars.as_slice(), "a/") || text::has_prefix(chars.as_slice(), "b/") {
        assert(path@.subrange(2, path@.len() as int) =~= path@.skip(2));
        text::string_of(&chars[2..chars.len()])
    } else {
        String::from_str(path)
    }
}

fn find_white_space(s: &[char], from: usize) -> (at: usize)
    requires
        from <= s@.len(),
    ensures
        at == token_end(s@, from as int),
        from <= at <= s@.len(),
{
    let mut at: usize = from;
    while at < s.len() && !text::white_space(s[at])
        invariant
            from <= at <= s@.len(),
            token_end(s@, at as int) == token_end(s@, from as int),
        decreases s.len() - at,
    {
        at += 1;
    }
    at
}

fn declared_old_len(range: &[char]) -> (length: Option<u64>)
    requires
        range@.len() > 0,
    ensures
        length == range_length(range@),
{
    let rest: &[char] = &range[1..range.len()];
    assert(rest@ =~= range@.skip(1));
    let comma: usize = text::find_char(rest, ',', 0);
    if comma < rest.len() {
        assert(rest@.subrange(comma + 1, rest@.len() as int) =~= rest@.skip(comma + 1));
        text::parse_u64(&rest[comma + 1..rest.len()])
    } else {
        None
    }
}

/// What one line means inside a hunk body.
pub enum BodyStep {
    /// The body ends in front of this line.
    Stop,
    /// A remark without content.
    Remark,
    /// A line of the body.
    Op(LineOp),
}

fn read_body_line(line: &TextLine) -> (step: BodyStep)
    ensures
        match step {
            BodyStep::Stop => body_line(line.text@) is Stop,
            BodyStep::Remark => body_line(line.text@) is Remark,
            BodyStep::Op(op) => body_line(line.text@) == BodyLine::Op(op@),
        },
{
    let owned: Vec<char> = text::chars_of(line.text.as_str());
    let chars: &[char] = owned.as_slice();
    if text::has_prefix(chars, "@@") || text::has_prefix(chars, "--- ") || text::has_prefix(
        chars,
        "diff --git",
    ) || text::has_prefix(chars, "Index: ") {
        return BodyStep::Stop;
    }
    if chars.len() == 0 {
        return BodyStep::Op(LineOp::Context(String::new()));
    }
    let kind: char = chars[0];
    if kind == '\\' {
        return BodyStep::Remark;
    }
    assert(chars@.subrange(1, chars@.len() as int) =~= chars@.skip(1));
    let rest: String = text::string_of(&chars[1..chars.len()]);
    if kind == ' ' {
        BodyStep::Op(LineOp::Context(rest))
    } else if kind == '-' {
        BodyStep::Op(LineOp::Remove(rest))
    } else if kind == '+' {
        BodyStep::Op(LineOp::Add(rest))
    } else {
        BodyStep::Stop
    }
}

/// Reads the operations of the hunk body that starts at line `from`, and the
/// line where it ends.
fn read_body(lines: &Vec<TextLine>, from: usize) -> (body: (Vec<LineOp>, usize))
    requires
        from <= lines@.len(),
    ensures
        op_views(body.0@) == body_ops(text::line_views(lines@), from as int),
        body.1 == body_end(text::line_views(lines@), from as int),
        from <= body.1 <= lines@.len(),
{
    let ghost views = text::line_views(lines@);
    let mut ops: Vec<LineOp> = Vec::new();
    let mut i: usize = from;
    assert(op_views(ops@) =~= Seq::<OpView>::empty());
    assert(Seq::<OpView>::empty() + body_ops(views, from as int) =~= body_ops(views, from as int));
    while i < lines.len()
        invariant
            from <= i <= lines@.len(),
            views == text::line_views(lines@),
            op_views(ops@) + body_ops(views, i as int) == body_ops(views, from as int),
            body_end(views, i as int) == body_end(views, from as int),
        ensures
            body_ops(views, i as int) == Seq::<OpView>::empty(),
            body_end(views, i as int) == i,
        decreases lines.len() - i,
    {
        assert(views[i as int].text == lines@[i as int].text@);
        match read_body_line(&lines[i]) {
            BodyStep::Stop => {
                break;
            },
            BodyStep::Remark => {},
            BodyStep::Op(op) => {
                let ghost before = op_views(ops@);
                ops.push(op);
                proof {
                    assert(op_views(ops@) =~= before.push(op@));
                    assert(before.push(op@) + body_ops(views, i + 1) =~= before + (seq![op@]
                        + body_ops(views, i + 1)));
                }
            },
        }
        i += 1;
    }
    assert(op_views(ops@) + Seq::<OpView>::empty() =~= op_views(ops@));
    (ops, i)
}

/// How many lines of the old file a hunk body shows.
fn count_old_side(ops: &Vec<LineOp>) -> (count: usize)
    ensures
        count == old_side(op_views(ops@)).len(),
{
    let ghost views = op_views(ops@);
    let mut count: usize = 0;
    for i in 0..ops.len()
        invariant
            views == op_views(ops@),
            count == old_side(views.take(i as int)).len(),
            count <= i,
    {
        assert(views.take(i + 1).drop_last() =~= views.take(i as int));
        assert(views[i as int] == ops@[i as int]@);
        match &ops[i] {
            LineOp::Add(_) => {},
            _ => {
                count += 1;
            },
        }
    }
    assert(views.take(views.len() as int) =~= views);
    count
}

fn adds_only(ops: &Vec<LineOp>) -> (yes: bool)
    ensures
        yes == only_adds(op_views(ops@)),
{
    let ghost views = op_views(ops@);
    for i in 0..ops.len()
        invariant
            views == op_views(ops@),
            forall|k: int| 0 <= k < i ==> views[k] is Add,
    {
        assert(views[i as int] == ops@[i as int]@);
        match &ops[i] {
            LineOp::Add(_) => {},
            _ => {
                return false;
            },
        }
    }
    true
}

/// Reads the hunk whose header is line `i`, and finds the line where it ends.
pub fn parse_hunk(lines: &Vec<TextLine>, i: usize) -> (result: ToolResult<(Hunk, usize)>)
    requires
        i < lines@.len(),
        text::begins_with(lines@[i as int].text@, "@@ -"@),
    ensures
        match result {
            Ok((hunk, end)) => parsed_hunk(text::line_views(lines@), i as int) == Ok::<
                HunkView,
                Seq<char>,
            >(hunk@) && end == body_end(text::line_views(lines@), i + 1) && i < end <= lines@.len(),
            Err(e) => parsed_hunk(text::line_views(lines@), i as int) == Err::<
                HunkView,
                Seq<char>,
            >(e.0@),
        },
{
    let ghost views = text::line_views(lines@);
    let header: Vec<char> = text::chars_of(lines[i].text.as_str());
    assert(views[i as int].text == header@);
    proof {
        reveal_strlit("@@ -");
        assert(header@.subrange(0, 4)[3] == '-');
    }
    let range_end: usize = find_white_space(header.as_slice(), 3);
    assert(token_end(header@, 3) == token_end(header@, 4)) by {
        reveal_with_fuel(token_end, 2);
        assert(!text::is_white_space('-'));
    }
    proof {
        lemma_token_end(header@, 4);
    }
    let range: &[char] = &header[3..range_end];
    assert(range@ == old_range(header@));

    proof {
        reveal_strlit("-");
        assert("-"@ =~= seq!['-']);
    }
    let number: &[char] = skip_repeated(range, "-");
    let comma: usize = text::find_char(number, ',', 0);
    assert(number@.subrange(0, comma as int) =~= number@.take(comma as int));
    let start_text: &[char] = &number[0..comma];
    let declared: Option<u64> = declared_old_len(range);
    let start: u64 = match text::parse_u64(start_text) {
        Some(start) => start,
        None => {
            return Err(
                ToolError(
                    String::from_str("Malformed patch: bad line number '").concat(
                        text::string_of(start_text).as_str(),
                    ).concat("' in '@@' header."),
                ),
            );
        },
    };
    if start == 0 && declared.is_none() {
        return Err(
            ToolError::msg(
                "Malformed patch: '@@ -0,0' style headers must include an explicit ',0' length.",
            ),
        );
    }
    assert(i < lines.len());
    let (ops, end) = read_body(lines, i + 1);
    if ops.len() == 0 {
        return Err(ToolError::msg("Malformed patch: hunk has no body lines."));
    }
    if let Some(expected) = declared {
        if start == 0 && expected == 0 {
            if !adds_only(&ops) {
                return Err(
                    ToolError::msg(
                        "Malformed patch: a creation hunk ('@@ -0,0') must contain only added ('+') lines.",
                    ),
                );
            }
        } else {
            let actual: usize = count_old_side(&ops);
            if actual as u64 != expected {
                return Err(
                    ToolError(
                        String::from_str("Malformed patch: '@@' header declares ").concat(
                            text::decimal_of(expected).as_str(),
                        ).concat(" old-side lines but body has ").concat(
                            text::decimal_of(actual as u64).as_str(),
                        ).concat("."),
                    ),
                );
            }
        }
    }
    let old_start: u64 = if start == 0 {
        1
    } else {
        start
    };
    Ok((Hunk { old_start, ops }, end))
}

proof fn lemma_token_end(s: Seq<char>, from: int)
    requires
        0 <= from <= s.len(),
    ensures
        from <= token_end(s, from) <= s.len(),
    decreases s.len() - from,
{
    if from < s.len() && !text::is_white_space(s[from]) {
        lemma_token_end(s, from + 1);
    }
}

fn starts_with(line: &TextLine, prefix: &str) -> (yes: bool)
    ensures
        yes == text::begins_with(line.text@, prefix@),
{
    text::has_prefix(text::chars_of(line.text.as_str()).as_slice(), prefix)
}

/// Reads the run of hunks that starts at line `from`.
fn parse_hunks(lines: &Vec<TextLine>, from: usize) -> (result: ToolResult<(Vec<Hunk>, usize)>)
    requires
        from <= lines@.len(),
    ensures
        match result {
            Ok((hunks, end)) => parsed_hunks(text::line_views(lines@), from as int) == Ok::<
                (Seq<HunkView>, int),
                Seq<char>,
            >((hunk_views(hunks@), end as int)) && from <= end <= lines@.len(),
            Err(e) => parsed_hunks(text::line_views(lines@), from as int) == Err::<
                (Seq<HunkView>, int),
                Seq<char>,
            >(e.0@),
        },
{
    let ghost views = text::line_views(lines@);
    let mut hunks: Vec<Hunk> = Vec::new();
    let mut i: usize = from;
    assert(hunk_views(hunks@) =~= Seq::<HunkView>::empty());
    proof {
        lemma_prepend_hunks(Seq::empty(), parsed_hunks(views, from as int));
    }
    while i < lines.len() && starts_with(&lines[i], "@@ -")
        invariant
            from <= i <= lines@.len(),
            views == text::line_views(lines@),
            prepend_hunks(hunk_views(hunks@), parsed_hunks(views, i as int)) == parsed_hunks(
                views,
                from as int,
            ),
        ensures
            parsed_hunks(views, i as int) == Ok::<(Seq<HunkView>, int), Seq<char>>(
                (Seq::<HunkView>::empty(), i as int),
            ),
        decreases lines.len() - i,
    {
        assert(views[i as int].text == lines@[i as int].text@);
        match parse_hunk(lines, i) {
            Err(e) => {
                return Err(e);
            },
            Ok((hunk, end)) => {
                let ghost before = hunk_views(hunks@);
                hunks.push(hunk);
                proof {
                    assert(hunk_views(hunks@) =~= before.push(hunk@));
                    if let Ok((rest, _)) = parsed_hunks(views, end as int) {
                        assert(before.push(hunk@) + rest =~= before + (seq![hunk@] + rest));
                    }
                }
                i = end;
            },
        }
    }
    assert(hunk_views(hunks@) + Seq::<HunkView>::empty() =~= hunk_views(hunks@));
    Ok((hunks, i))
}

spec fn prepend_hunks(
    head: Seq<HunkView>,
    tail: Result<(Seq<HunkView>, int), Seq<char>>,
) -> Result<(Seq<HunkView>, int), Seq<char>> {
    match tail {
        Err(e) => Err(e),
        Ok((rest, end)) => Ok((head + rest, end)),
    }
}

proof fn lemma_prepend_hunks(
    head: Seq<HunkView>,
    tail: Result<(Seq<HunkView>, int), Seq<char>>,
)
    ensures
        head.len() == 0 ==> prepend_hunks(head, tail) == tail,
{
    if let Ok((rest, _)) = tail {
        if head.len() == 0 {
            assert(head + rest =~= rest);
        }
    }
}

/// Reads the file section whose `---` header is line `i`.
fn parse_file(lines: &Vec<TextLine>, i: usize) -> (result: ToolResult<(FilePatch, usize)>)
    requires
        i < lines@.len(),
    ensures
        match result {
            Ok((file, end)) => parsed_file(text::line_views(lines@), i as int) == Ok::<
                (FilePatchView, int),
                Seq<char>,
            >((file@, end as int)) && i < end <= lines@.len(),
            Err(e) => parsed_file(text::line_views(lines@), i as int) == Err::<
                (FilePatchView, int),
                Seq<char>,
            >(e.0@),
        },
{
    let ghost views = text::line_views(lines@);
    proof {
        reveal_strlit("--- ");
        reveal_strlit("+++ ");
    }
    assert(views[i as int].text == lines@[i as int].text@);
    let old_path: String = path_in_header(&lines[i], "--- ");
    if lines.len() - i < 2 {
        return Err(
            ToolError::msg("Malformed patch: '---' header not followed by '+++' header."),
        );
    }
    assert(views[i + 1].text == lines@[i + 1].text@);
    if !starts_with(&lines[i + 1], "+++ ") {
        return Err(
            ToolError::msg("Malformed patch: expected '+++' header after '---' header."),
        );
    }
    let new_path: String = path_in_header(&lines[i + 1], "+++ ");
    let old_target: String = strip_a_b(old_path.as_str());
    let creation: bool = text::same_text(old_target.as_str(), "/dev/null");
    if !creation && text::same_text(strip_a_b(new_path.as_str()).as_str(), "/dev/null") {
        return Err(
            ToolError(
                String::from_str("Patch deletes '").concat(old_target.as_str()).concat(
                    "'; file deletion is not supported by apply_patch. Remove the file manually with run_command if --exec is enabled.",
                ),
            ),
        );
    }
    let (hunks, end) = match parse_hunks(lines, i + 2) {
        Ok(found) => found,
        Err(e) => {
            return Err(e);
        },
    };
    if hunks.len() == 0 {
        return Err(
            ToolError(
                String::from_str("Malformed patch: no '@@' hunks found after headers for '").concat(
                    new_path.as_str(),
                ).concat("'. Include full @@ sections."),
            ),
        );
    }
    Ok((FilePatch { old_path, new_path, creation, hunks }, end))
}

spec fn prepend_files(
    head: Seq<FilePatchView>,
    tail: Result<Seq<FilePatchView>, Seq<char>>,
) -> Result<Seq<FilePatchView>, Seq<char>> {
    match tail {
        Err(e) => Err(e),
        Ok(rest) => Ok(head + rest),
    }
}

/// Reads a unified diff.
pub fn parse_patch(patch: &str) -> (result: ToolResult<Vec<FilePatch>>)
    ensures
        match result {
            Ok(files) => parsed_patch(patch@) == Ok::<Seq<FilePatchView>, Seq<char>>(
                file_views(files@),
            ),
            Err(e) => parsed_patch(patch@) == Err::<Seq<FilePatchView>, Seq<char>>(e.0@),
        },
{
    let lines: Vec<TextLine> = text::lines_of(patch);
    let ghost views = text::line_views(lines@);
    let mut files: Vec<FilePatch> = Vec::new();
    let mut i: usize = 0;
    assert(file_views(files@) =~= Seq::<FilePatchView>::empty());
    proof {
        if let Ok(rest) = parsed_files(views, 0) {
            assert(Seq::<FilePatchView>::empty() + rest =~= rest);
        }
    }
    while i < lines.len()
        invariant
            i <= lines@.len(),
            views == text::line_views(lines@),
            views == text::split_lines(patch@),
            prepend_files(file_views(files@), parsed_files(views, i as int)) == parsed_files(
                views,
                0,
            ),
        decreases lines.len() - i,
    {
        assert(views[i as int].text == lines@[i as int].text@);
        if !starts_with(&lines[i], "--- ") {
            i += 1;
            continue;
        }
        match parse_file(&lines, i) {
            Err(e) => {
                return Err(e);
            },
            Ok((file, end)) => {
                let ghost before = file_views(files@);
                files.push(file);
                proof {
                    assert(file_views(files@) =~= before.push(file@));
                    if let Ok(rest) = parsed_files(views, end as int) {
                        assert(before.push(file@) + rest =~= before + (seq![file@] + rest));
                    }
                }
                i = end;
            },
        }
    }
    assert(file_views(files@) + Seq::<FilePatchView>::empty() =~= file_views(files@));
    if files.len() == 0 {
        return Err(
            ToolError::msg(
                "No usable unified-diff sections found. Expected lines starting with '--- ', '+++ ', '@@', '+', '-', or ' '.",
            ),
        );
    }
    Ok(files)
}

// ---------------------------------------------------------------------------
// Application
// ---------------------------------------------------------------------------

/// How far from its stated line a hunk is looked for.
pub const MAX_DRIFT: u64 = 100;

/// Whether the lines `expected` stand in `target` from the one-based line
/// `line` on.
pub open spec fn fits_at(target: Seq<LineView>, expected: Seq<Seq<char>>, line: int) -> bool {
    &&& 1 <= line
    &&& line - 1 + expected.len() <= target.len()
    &&& forall|k: int|
        0 <= k < expected.len() ==> (#[trigger] target[line - 1 + k]).text == expected[k]
}

/// Where `expected` stands, looking `distance` lines and more away from
/// `start`; of two equally near places the earlier one.
pub open spec fn nearest_fit(
    target: Seq<LineView>,
    expected: Seq<Seq<char>>,
    start: int,
    distance: int,
) -> Option<int>
    decreases MAX_DRIFT + 1 - distance,
{
    if distance > MAX_DRIFT {
        None
    } else if fits_at(target, expected, start - distance) {
        Some(start - distance)
    } else if fits_at(target, expected, start + distance) {
        Some(start + distance)
    } else {
        nearest_fit(target, expected, start, distance + 1)
    }
}

/// The lines that a hunk body puts in place of the old lines that stand in
/// `target` from index `base` on: context lines stay as they are, added lines
/// end in `style`.
pub open spec fn replaced(
    ops: Seq<OpView>,
    target: Seq<LineView>,
    base: int,
    style: LineEnding,
) -> Seq<LineView>
    decreases ops.len(),
{
    if ops.len() == 0 {
        Seq::empty()
    } else {
        let head = ops.drop_last();
        match ops.last() {
            OpView::Context(_) => replaced(head, target, base, style).push(
                target[base + old_side(head).len()],
            ),
            OpView::Remove(_) => replaced(head, target, base, style),
            OpView::Add(s) => replaced(head, target, base, style).push(
                LineView { text: s, ending: style },
            ),
        }
    }
}

/// New lines with the given texts, all ending in `style`.
pub open spec fn fresh_lines(texts: Seq<Seq<char>>, style: LineEnding) -> Seq<LineView> {
    texts.map_values(|s: Seq<char>| LineView { text: s, ending: style })
}

/// The lines after one hunk, or nothing where its old lines are not found.
/// A hunk without old lines, or for a file to be created, is inserted after
/// its stated line.
pub open spec fn applied(
    target: Seq<LineView>,
    hunk: HunkView,
    style: LineEnding,
    creation: bool,
) -> Option<Seq<LineView>> {
    let expected = old_side(hunk.ops);
    if creation || expected.len() == 0 {
        let at = if hunk.old_start <= target.len() {
            hunk.old_start as int
        } else {
            target.len() as int
        };
        Some(target.take(at) + fresh_lines(new_side(hunk.ops), style) + target.skip(at))
    } else {
        match nearest_fit(target, expected, hunk.old_start as int, 0) {
            None => None,
            Some(line) => Some(
                target.take(line - 1) + replaced(hunk.ops, target, line - 1, style) + target.skip(
                    line - 1 + expected.len(),
                ),
            ),
        }
    }
}

/// The report of a hunk whose old lines were not found.
pub open spec fn stale_hunk_text(index: nat, name: Seq<char>, old_start: u64) -> Seq<char> {
    "Failed to apply hunk #"@ + text::decimal(index) + " to '"@ + name
        + "': no matching context found near line "@ + text::decimal(old_start as nat)
        + ". Re-read the file around that line and regenerate the patch."@
}

/// The lines after the hunks from index `k` on, in order.
pub open spec fn applied_from(
    target: Seq<LineView>,
    file: FilePatchView,
    k: int,
    style: LineEnding,
) -> Result<Seq<LineView>, Seq<char>>
    decreases file.hunks.len() - k,
{
    if k < 0 || k >= file.hunks.len() {
        Ok(target)
    } else {
        match applied(target, file.hunks[k], style, file.creation) {
            None => Err(
                stale_hunk_text((k + 1) as nat, file.new_path, file.hunks[k].old_start),
            ),
            Some(next) => applied_from(next, file, k + 1, style),
        }
    }
}

/// The newline style of a file: that of its first line.
pub open spec fn newline_style(lines: Seq<LineView>) -> LineEnding {
    if lines.len() > 0 && lines[0].ending == LineEnding::CrLf {
        LineEnding::CrLf
    } else {
        LineEnding::Lf
    }
}

/// `ending`, or `style` where there is none.
pub open spec fn ending_or(ending: LineEnding, style: LineEnding) -> LineEnding {
    if ending == LineEnding::Missing {
        style
    } else {
        ending
    }
}

/// The text of lines that all end, a missing ending being `style`.
pub open spec fn terminated_text(lines: Seq<LineView>, style: LineEnding) -> Seq<char>
    decreases lines.len(),
{
    if lines.len() == 0 {
        Seq::empty()
    } else {
        terminated_text(lines.drop_last(), style) + lines.last().text + ending_or(
            lines.last().ending,
            style,
        ).chars()
    }
}

/// The text of a patched file. Its last line ends only where `final_newline`
/// says so; a file of at most one empty line is empty.
pub open spec fn rendered(
    lines: Seq<LineView>,
    style: LineEnding,
    final_newline: bool,
) -> Seq<char> {
    if lines.len() == 0 || (lines.len() == 1 && lines[0].text.len() == 0) {
        Seq::empty()
    } else if final_newline {
        terminated_text(lines, style)
    } else {
        terminated_text(lines.drop_last(), style) + lines.last().text
    }
}

/// The text of a file after its part of a patch. The final newline stays as
/// it was; a created file ends in one.
pub open spec fn patched_text(original: Seq<char>, file: FilePatchView) -> Result<
    Seq<char>,
    Seq<char>,
> {
    let lines = text::split_lines(original);
    let style = newline_style(lines);
    let final_newline = file.creation || (original.len() > 0 && original.last() == '\n');
    match applied_from(lines, file, 0, style) {
        Err(e) => Err(e),
        Ok(after) => Ok(rendered(after, style, final_newline)),
    }
}

fn expected_lines(hunk: &Hunk) -> (expected: Vec<String>)
    ensures
        expected@.map_values(|s: String| s@) == old_side(hunk@.ops),
{
    let ghost views = hunk@.ops;
    let mut expected: Vec<String> = Vec::new();
    assert(expected@.map_values(|s: String| s@) =~= Seq::<Seq<char>>::empty());
    for i in 0..hunk.ops.len()
        invariant
            views == hunk@.ops,
            expected@.map_values(|s: String| s@) == old_side(views.take(i as int)),
    {
        assert(views.take(i + 1).drop_last() =~= views.take(i as int));
        assert(views[i as int] == hunk.ops@[i as int]@);
        let ghost before = expected@.map_values(|s: String| s@);
        match &hunk.ops[i] {
            LineOp::Add(_) => {},
            LineOp::Context(s) => {
                expected.push(s.clone());
                assert(expected@.map_values(|s: String| s@) =~= before.push(s@));
            },
            LineOp::Remove(s) => {
                expected.push(s.clone());
                assert(expected@.map_values(|s: String| s@) =~= before.push(s@));
            },
        }
    }
    assert(views.take(views.len() as int) =~= views);
    expected
}

fn fits(target: &Vec<TextLine>, expected: &Vec<String>, line: i128) -> (yes: bool)
    requires
        expected@.len() > 0,
    ensures
        yes == fits_at(
            text::line_views(target@),
            expected@.map_values(|s: String| s@),
            line as int,
        ),
{
    let ghost views = text::line_views(target@);
    let ghost wanted = expected@.map_values(|s: String| s@);
    if line < 1 || line > target.len() as i128 {
        return false;
    }
    let base: usize = (line - 1) as usize;
    if expected.len() > target.len() - base {
        return false;
    }
    for k in 0..expected.len()
        invariant
            views == text::line_views(target@),
            wanted == expected@.map_values(|s: String| s@),
            base + expected.len() <= target.len(),
            base == line - 1,
            forall|j: int| 0 <= j < k ==> (#[trigger] views[line - 1 + j]).text == wanted[j],
    {
        assert(views[line - 1 + k].text == target@[base + k].text@);
        assert(wanted[k as int] == expected@[k as int]@);
        if !text::same_text(target[base + k].text.as_str(), expected[k].as_str()) {
            return false;
        }
    }
    true
}

fn find_nearest(target: &Vec<TextLine>, expected: &Vec<String>, start: u64) -> (line: Option<
    usize,
>)
    requires
        expected@.len() > 0,
    ensures
        match line {
            Some(at) => nearest_fit(
                text::line_views(target@),
                expected@.map_values(|s: String| s@),
                start as int,
                0,
            ) == Some(at as int) && fits_at(
                text::line_views(target@),
                expected@.map_values(|s: String| s@),
                at as int,
            ),
            None => nearest_fit(
                text::line_views(target@),
                expected@.map_values(|s: String| s@),
                start as int,
                0,
            ) is None,
        },
{
    let ghost views = text::line_views(target@);
    let ghost wanted = expected@.map_values(|s: String| s@);
    let first: i128 = start as i128;
    let mut distance: u64 = 0;
    while distance <= MAX_DRIFT
        invariant
            views == text::line_views(target@),
            wanted == expected@.map_values(|s: String| s@),
            expected@.len() > 0,
            first == start,
            distance <= MAX_DRIFT + 1,
            nearest_fit(views, wanted, start as int, distance as int) == nearest_fit(
                views,
                wanted,
                start as int,
                0,
            ),
        decreases MAX_DRIFT + 1 - distance,
    {
        if fits(target, expected, first - distance as i128) {
            assert(first - distance <= target.len());
            return Some((first - distance as i128) as usize);
        }
        if fits(target, expected, first + distance as i128) {
            assert(first + distance <= target.len());
            return Some((first + distance as i128) as usize);
        }
        distance += 1;
    }
    None
}

/// Appends copies of `lines[from..to]` to `out`.
fn push_copies(out: &mut Vec<TextLine>, lines: &Vec<TextLine>, from: usize, to: usize)
    requires
        from <= to <= lines@.len(),
    ensures
        text::line_views(final(out)@) == text::line_views(old(out)@) + text::line_views(
            lines@,
        ).subrange(from as int, to as int),
{
    let ghost views = text::line_views(lines@);
    assert(text::line_views(out@) + views.subrange(from as int, from as int) =~= text::line_views(
        out@,
    ));
    for i in from..to
        invariant
            from <= i <= to <= lines@.len(),
            views == text::line_views(lines@),
            text::line_views(out@) == text::line_views(old(out)@) + views.subrange(
                from as int,
                i as int,
            ),
    {
        let ghost before = text::line_views(out@);
        out.push(lines[i].duplicate());
        proof {
            assert(text::line_views(out@) =~= before.push(views[i as int]));
            assert(views.subrange(from as int, i + 1) =~= views.subrange(
                from as int,
                i as int,
            ).push(views[i as int]));
            assert(before.push(views[i as int]) =~= text::line_views(old(out)@) + views.subrange(
                from as int,
                i + 1,
            ));
        }
    }
}

/// Appends the lines that a hunk puts in place of the old ones that stand in
/// `target` from index `base` on.
fn push_replacement(
    out: &mut Vec<TextLine>,
    hunk: &Hunk,
    target: &Vec<TextLine>,
    base: usize,
    style: LineEnding,
)
    requires
        base + old_side(hunk@.ops).len() <= target@.len(),
    ensures
        text::line_views(final(out)@) == text::line_views(old(out)@) + replaced(
            hunk@.ops,
            text::line_views(target@),
            base as int,
            style,
        ),
{
    let ghost ops = hunk@.ops;
    let ghost views = text::line_views(target@);
    let mut at: usize = base;
    assert(text::line_views(out@) + Seq::<LineView>::empty() =~= text::line_views(out@));
    for i in 0..hunk.ops.len()
        invariant
            ops == hunk@.ops,
            views == text::line_views(target@),
            at == base + old_side(ops.take(i as int)).len(),
            base + old_side(ops).len() <= target@.len(),
            text::line_views(out@) == text::line_views(old(out)@) + replaced(
                ops.take(i as int),
                views,
                base as int,
                style,
            ),
    {
        let ghost before = text::line_views(out@);
        proof {
            assert(ops.take(i + 1).drop_last() =~= ops.take(i as int));
            assert(ops[i as int] == hunk.ops@[i as int]@);
            lemma_old_side_grows(ops, i + 1);
        }
        match &hunk.ops[i] {
            LineOp::Context(_) => {
                out.push(target[at].duplicate());
                assert(text::line_views(out@) =~= before.push(views[at as int]));
                assert(at < target.len());
                at += 1;
            },
            LineOp::Remove(_) => {
                assert(at < target.len());
                at += 1;
            },
            LineOp::Add(s) => {
                let line = TextLine { text: s.clone(), ending: style };
                out.push(line);
                assert(text::line_views(out@) =~= before.push(line@));
            },
        }
        assert(text::line_views(out@) =~= text::line_views(old(out)@) + replaced(
            ops.take(i + 1),
            views,
            base as int,
            style,
        ));
    }
    assert(ops.take(ops.len() as int) =~= ops);
}

proof fn lemma_old_side_grows(ops: Seq<OpView>, k: int)
    requires
        0 <= k <= ops.len(),
    ensures
        old_side(ops.take(k)).len() <= old_side(ops).len(),
    decreases ops.len() - k,
{
    if k < ops.len() {
        lemma_old_side_grows(ops, k + 1);
        assert(ops.take(k + 1).drop_last() =~= ops.take(k));
    } else {
        assert(ops.take(k) =~= ops);
    }
}

/// Appends the new side of a hunk as new lines.
fn push_new_side(out: &mut Vec<TextLine>, hunk: &Hunk, style: LineEnding)
    ensures
        text::line_views(final(out)@) == text::line_views(old(out)@) + fresh_lines(
            new_side(hunk@.ops),
            style,
        ),
{
    let ghost ops = hunk@.ops;
    assert(text::line_views(out@) + fresh_lines(Seq::empty(), style) =~= text::line_views(out@));
    for i in 0..hunk.ops.len()
        invariant
            ops == hunk@.ops,
            text::line_views(out@) == text::line_views(old(out)@) + fresh_lines(
                new_side(ops.take(i as int)),
                style,
            ),
    {
        let ghost before = text::line_views(out@);
        proof {
            assert(ops.take(i + 1).drop_last() =~= ops.take(i as int));
            assert(ops[i as int] == hunk.ops@[i as int]@);
        }
        match &hunk.ops[i] {
            LineOp::Remove(_) => {},
            LineOp::Context(s) => {
                let line = TextLine { text: s.clone(), ending: style };
                out.push(line);
                assert(text::line_views(out@) =~= before.push(line@));
            },
            LineOp::Add(s) => {
                let line = TextLine { text: s.clone(), ending: style };
                out.push(line);
                assert(text::line_views(out@) =~= before.push(line@));
            },
        }
        assert(text::line_views(out@) =~= text::line_views(old(out)@) + fresh_lines(
            new_side(ops.take(i + 1)),
            style,
        ));
    }
    assert(ops.take(ops.len() as int) =~= ops);
}

/// Applies one hunk at its stated line, or at the nearest line within
/// [`MAX_DRIFT`] where its old lines stand. Where they are not found, nothing
/// changes.
pub fn apply_hunk(
    target: &mut Vec<TextLine>,
    hunk: &Hunk,
    style: LineEnding,
    index: usize,
    display_name: &str,
    creation: bool,
) -> (result: ToolResult<()>)
    ensures
        match result {
            Ok(_) => applied(text::line_views(old(target)@), hunk@, style, creation) == Some(
                text::line_views(final(target)@),
            ),
            Err(e) => applied(text::line_views(old(target)@), hunk@, style, creation) is None
                && *final(target) == *old(target) && e.0@ == stale_hunk_text(
                index as nat,
                display_name@,
                hunk.old_start,
            ),
        },
{
    let ghost views = text::line_views(target@);
    let expected: Vec<String> = expected_lines(hunk);
    proof {
        assert(expected@.len() == old_side(hunk@.ops).len()) by {
            assert(expected@.map_values(|s: String| s@).len() == expected@.len());
        }
    }
    let mut out: Vec<TextLine> = Vec::new();
    assert(text::line_views(out@) =~= Seq::<LineView>::empty());
    if creation || expected.len() == 0 {
        let at: usize = if hunk.old_start <= target.len() as u64 {
            hunk.old_start as usize
        } else {
            target.len()
        };
        push_copies(&mut out, target, 0, at);
        push_new_side(&mut out, hunk, style);
        push_copies(&mut out, target, at, target.len());
        proof {
            assert(views.subrange(0, at as int) =~= views.take(at as int));
            assert(views.subrange(at as int, views.len() as int) =~= views.skip(at as int));
            assert(text::line_views(out@) =~= views.take(at as int) + fresh_lines(
                new_side(hunk@.ops),
                style,
            ) + views.skip(at as int));
        }
        *target = out;
        return Ok(());
    }
    match find_nearest(target, &expected, hunk.old_start) {
        None => {
            let near: String = text::decimal_of(hunk.old_start);
            let number: String = text::decimal_of(index as u64);
            Err(
                ToolError(
                    String::from_str("Failed to apply hunk #").concat(number.as_str()).concat(
                        " to '",
                    ).concat(display_name).concat("': no matching context found near line ").concat(
                        near.as_str(),
                    ).concat(". Re-read the file around that line and regenerate the patch."),
                ),
            )
        },
        Some(line) => {
            let base: usize = line - 1;
            assert(base + expected.len() <= target.len());
            push_copies(&mut out, target, 0, base);
            push_replacement(&mut out, hunk, target, base, style);
            push_copies(&mut out, target, base + expected.len(), target.len());
            proof {
                assert(views.subrange(0, base as int) =~= views.take(base as int));
                assert(views.subrange(base + expected@.len(), views.len() as int) =~= views.skip(
                    base + expected@.len(),
                ));
                assert(text::line_views(out@) =~= views.take(base as int) + replaced(
                    hunk@.ops,
                    views,
                    base as int,
                    style,
                ) + views.skip(base + expected@.len()));
            }
            *target = out;
            Ok(())
        },
    }
}

/// Writes the text of lines that all end, a missing ending being `style`.
fn push_terminated(out: &mut String, lines: &Vec<TextLine>, to: usize, style: LineEnding)
    requires
        to <= lines@.len(),
    ensures
        final(out)@ == old(out)@ + terminated_text(text::line_views(lines@).take(to as int), style),
{
    let ghost views = text::line_views(lines@);
    assert(views.take(0) =~= Seq::<LineView>::empty());
    assert(out@ + Seq::<char>::empty() =~= out@);
    for i in 0..to
        invariant
            to <= lines@.len(),
            views == text::line_views(lines@),
            out@ == old(out)@ + terminated_text(views.take(i as int), style),
    {
        proof {
            assert(views.take(i + 1).drop_last() =~= views.take(i as int));
            assert(views.take(i + 1).last() == lines@[i as int]@);
        }
        out.append(lines[i].text.as_str());
        let ending: LineEnding = match lines[i].ending {
            LineEnding::Missing => style,
            given => given,
        };
        ending.push_to(out);
        assert(out@ =~= old(out)@ + terminated_text(views.take(i + 1), style));
    }
}

/// Writes the text of a patched file.
fn render(lines: &Vec<TextLine>, style: LineEnding, final_newline: bool) -> (out: String)
    ensures
        out@ == rendered(text::line_views(lines@), style, final_newline),
{
    let ghost views = text::line_views(lines@);
    let mut out: String = String::new();
    let count: usize = lines.len();
    if count == 0 {
        return out;
    }
    assert(views[0] == lines@[0]@);
    if count == 1 && lines[0].text.as_str().is_empty() {
        return out;
    }
    if final_newline {
        push_terminated(&mut out, lines, count, style);
        assert(views.take(count as int) =~= views);
    } else {
        push_terminated(&mut out, lines, count - 1, style);
        assert(views.take(count - 1) =~= views.drop_last());
        assert(views.last() == lines@[count - 1]@);
        out.append(lines[count - 1].text.as_str());
    }
    assert(out@ =~= rendered(views, style, final_newline));
    out
}

/// The text of a file after its part of a patch.
pub fn patch_text(original: &str, file: &FilePatch) -> (result: ToolResult<String>)
    ensures
        match result {
            Ok(after) => patched_text(original@, file@) == Ok::<Seq<char>, Seq<char>>(after@),
            Err(e) => patched_text(original@, file@) == Err::<Seq<char>, Seq<char>>(e.0@),
        },
{
    let mut lines: Vec<TextLine> = text::lines_of(original);
    let ghost start = text::line_views(lines@);
    let ghost hunks = file@.hunks;
    let mut style: LineEnding = LineEnding::Lf;
    let mut final_newline: bool = file.creation;
    if lines.len() > 0 {
        assert(start[0] == lines@[0]@);
        if let LineEnding::CrLf = lines[0].ending {
            style = LineEnding::CrLf;
        }
    }
    let chars: Vec<char> = text::chars_of(original);
    if chars.len() > 0 && chars[chars.len() - 1] == '\n' {
        final_newline = true;
    }
    for k in 0..file.hunks.len()
        invariant
            hunks == file@.hunks,
            start == text::split_lines(original@),
            style == newline_style(start),
            applied_from(text::line_views(lines@), file@, k as int, style) == applied_from(
                start,
                file@,
                0,
                style,
            ),
    {
        assert(hunks[k as int] == file.hunks@[k as int]@);
        assert(k < file.hunks.len());
        match apply_hunk(
            &mut lines,
            &file.hunks[k],
            style,
            k + 1,
            file.new_path.as_str(),
            file.creation,
        ) {
            Ok(_) => {},
            Err(e) => {
                return Err(e);
            },
        }
    }
    Ok(render(&lines, style, final_newline))
}

// ---------------------------------------------------------------------------
// The tool
// ---------------------------------------------------------------------------

/// The refusal of a patch with an unsupported header.
pub open spec fn unsupported_text(keyword: Seq<char>) -> Seq<char> {
    "Patch contains unsupported '"@ + keyword
        + "' header; regenerate a plain unified diff."@
}

/// The file sections of a requested patch, or why it is refused.
pub open spec fn requested_files(patch: Seq<char>) -> Result<Seq<FilePatchView>, Seq<char>> {
    if text::is_blank(patch) {
        Err("Patch text is empty."@)
    } else if text::occurs(patch, "rename from"@) {
        Err(unsupported_text("rename from"@))
    } else if text::occurs(patch, "copy from"@) {
        Err(unsupported_text("copy from"@))
    } else if text::occurs(patch, "GIT binary patch"@) {
        Err(unsupported_text("GIT binary patch"@))
    } else {
        parsed_patch(patch)
    }
}

fn unsupported(keyword: &str) -> (error: ToolError)
    ensures
        error.0@ == unsupported_text(keyword@),
{
    ToolError(
        String::from_str("Patch contains unsupported '").concat(keyword).concat(
            "' header; regenerate a plain unified diff.",
        ),
    )
}

/// Reads a requested patch: its file sections in order, or the first reason
/// to refuse it.
pub fn read_request(patch: &str) -> (result: ToolResult<Vec<FilePatch>>)
    ensures
        match result {
            Ok(files) => requested_files(patch@) == Ok::<Seq<FilePatchView>, Seq<char>>(
                file_views(files@),
            ),
            Err(e) => requested_files(patch@) == Err::<Seq<FilePatchView>, Seq<char>>(e.0@),
        },
{
    if text::blank(patch) {
        return Err(ToolError::msg("Patch text is empty."));
    }
    let chars: Vec<char> = text::chars_of(patch);
    if text::contains_text(chars.as_slice(), "rename from") {
        return Err(unsupported("rename from"));
    }
    if text::contains_text(chars.as_slice(), "copy from") {
        return Err(unsupported("copy from"));
    }
    if text::contains_text(chars.as_slice(), "GIT binary patch") {
        return Err(unsupported("GIT binary patch"));
    }
    parse_patch(patch)
}

/// The path to resolve for a file section.
pub fn requested_target(file: &FilePatch) -> (path: String)
    ensures
        path@ == without_side(file@.new_path),
{
    strip_a_b(file.new_path.as_str())
}

/// The report of a target that could not be resolved inside the workspace.
pub fn target_refused(file: &FilePatch, reason: &ToolError) -> (error: ToolError)
    ensures
        error.0@ == "Rejecting patch target '"@ + file@.new_path + "': "@ + reason.0@,
{
    ToolError(
        String::from_str("Rejecting patch target '").concat(file.new_path.as_str()).concat(
            "': ",
        ).concat(reason.0.as_str()),
    )
}

/// What reading a target gave.
#[derive(Debug)]
pub enum TargetContent {
    /// The file's bytes.
    Bytes(Vec<u8>),
    /// There is no such file.
    Absent,
    /// Reading failed, for the given reason.
    Unreadable(String),
}

/// The new bytes of one file, or why the patch is refused.
pub open spec fn staged(file: FilePatchView, content: TargetContent) -> Result<
    Seq<u8>,
    Seq<char>,
> {
    match content {
        TargetContent::Unreadable(reason) => Err(
            "Cannot read '"@ + file.old_path + "': "@ + reason@,
        ),
        TargetContent::Absent => if file.creation {
            match patched_text(Seq::empty(), file) {
                Ok(after) => Ok(vstd::utf8::encode_utf8(after)),
                Err(e) => Err(e),
            }
        } else {
            Err("Cannot patch '"@ + file.old_path + "': file does not exist."@)
        },
        TargetContent::Bytes(bytes) => staged_on(file, bytes@),
    }
}

/// The new bytes of a file with the given bytes.
pub open spec fn staged_on(file: FilePatchView, bytes: Seq<u8>) -> Result<Seq<u8>, Seq<char>> {
    if !vstd::utf8::valid_utf8(bytes) {
        Err("Cannot patch '"@ + file.old_path + "': file is not valid UTF-8."@)
    } else {
        match patched_text(vstd::utf8::decode_utf8(bytes), file) {
            Ok(after) => Ok(vstd::utf8::encode_utf8(after)),
            Err(e) => Err(e),
        }
    }
}

/// Builds the new bytes of one file.
pub fn stage(file: &FilePatch, content: &TargetContent) -> (result: ToolResult<Vec<u8>>)
    ensures
        match result {
            Ok(bytes) => staged(file@, *content) == Ok::<Seq<u8>, Seq<char>>(bytes@),
            Err(e) => staged(file@, *content) == Err::<Seq<u8>, Seq<char>>(e.0@),
        },
{
    let original: String = match content {
        TargetContent::Unreadable(reason) => {
            return Err(
                ToolError(
                    String::from_str("Cannot read '").concat(file.old_path.as_str()).concat(
                        "': ",
                    ).concat(reason.as_str()),
                ),
            );
        },
        TargetContent::Absent => {
            if !file.creation {
                return Err(
                    ToolError(
                        String::from_str("Cannot patch '").concat(file.old_path.as_str()).concat(
                            "': file does not exist.",
                        ),
                    ),
                );
            }
            String::new()
        },
        TargetContent::Bytes(bytes) => match text::decode(bytes.as_slice()) {
            Some(decoded) => decoded,
            None => {
                return Err(
                    ToolError(
                        String::from_str("Cannot patch '").concat(file.old_path.as_str()).concat(
                            "': file is not valid UTF-8.",
                        ),
                    ),
                );
            },
        },
    };
    match patch_text(original.as_str(), file) {
        Ok(after) => Ok(after.as_str().as_bytes_vec()),
        Err(e) => Err(e),
    }
}

/// Opens an `apply_patch` request: writing must be allowed, and is asked
/// before the patch is read.
pub fn open_request(permissions: &Permissions, patch: &str) -> (result: ToolResult<Vec<FilePatch>>)
    ensures
        match result {
            Ok(files) => permissions.write && requested_files(patch@) == Ok::<
                Seq<FilePatchView>,
                Seq<char>,
            >(file_views(files@)),
            Err(e) => if !permissions.write {
                e.0@
                    == "Write permission is disabled. Start nian-workspace with --write to modify workspace files."@
            } else {
                requested_files(patch@) == Err::<Seq<FilePatchView>, Seq<char>>(e.0@)
            },
        },
{
    match permissions.require_write() {
        Ok(_) => read_request(patch),
        Err(e) => Err(e),
    }
}

/// Arguments of `apply_patch`.
#[derive(Debug)]
pub struct ApplyPatchArgs {
    /// A unified diff, possibly of several files.
    pub patch: String,
}

/// Arguments of `apply_patch` in registry mode.
#[derive(Debug)]
pub struct RegistryApplyPatchArgs {
    /// The logical id of the workspace to change.
    pub workspace: WorkspaceId,
    /// What to apply.
    pub args: ApplyPatchArgs,
}

/// One file to be written.
#[derive(Debug)]
pub struct PlannedWrite {
    /// The target as shown.
    pub shown: String,
    /// The target.
    pub target: FullPath,
    /// Its new content.
    pub bytes: Vec<u8>,
}

/// Whether `found` is how the target of a file section resolves.
pub open spec fn resolves_target<L: Fn(&FullPath) -> Located>(
    ctx: WorkspaceContext,
    locate: L,
    file: FilePatchView,
    found: ToolResult<FullPath>,
) -> bool {
    exists|given: &str|
        given@ == without_side(file.new_path) && #[trigger] ctx.resolver_view().resolves_by(
            Some(given),
            locate,
            found,
        )
}

/// Whether the target of a file section resolves to a path.
pub open spec fn lands_at<L: Fn(&FullPath) -> Located>(
    ctx: WorkspaceContext,
    locate: L,
    file: FilePatchView,
    target: PathView,
) -> bool {
    exists|at: FullPath| at@ == target && #[trigger] resolves_target(ctx, locate, file, Ok(at))
}

/// The bytes that the last of the planned writes to `target` leaves there.
pub open spec fn pending(writes: Seq<PlannedWrite>, target: PathView) -> Option<Seq<u8>>
    decreases writes.len(),
{
    if writes.len() == 0 {
        None
    } else if writes.last().target@ == target {
        Some(writes.last().bytes@)
    } else {
        pending(writes.drop_last(), target)
    }
}

/// Whether `outcome` is what comes of a file section: it is applied to what
/// the writes planned before leave at its target, and where they leave it
/// alone, to the content that `read` gives.
pub open spec fn stages<D: Fn(&FullPath) -> TargetContent>(
    read: D,
    before: Seq<PlannedWrite>,
    file: FilePatchView,
    target: PathView,
    outcome: Result<Seq<u8>, Seq<char>>,
) -> bool {
    match pending(before, target) {
        Some(bytes) => staged_on(file, bytes) == outcome,
        None => exists|at: FullPath, content: TargetContent|
            at@ == target && #[trigger] call_ensures(read, (&at,), content) && staged(file, content)
                == outcome,
    }
}

/// Whether a planned write carries out a file section after the writes
/// planned before.
pub open spec fn carries_out<
    L: Fn(&FullPath) -> Located,
    D: Fn(&FullPath) -> TargetContent,
>(
    ctx: WorkspaceContext,
    presentation: PathPresentation,
    locate: L,
    read: D,
    before: Seq<PlannedWrite>,
    file: FilePatchView,
    write: PlannedWrite,
) -> bool {
    &&& lands_at(ctx, locate, file, write.target@)
    &&& write.shown@ == ctx.resolver_view().presented_view(write.target@, presentation)
    &&& stages(read, before, file, write.target@, Ok(write.bytes@))
}

/// Whether planned writes carry out the leading file sections, one by one.
pub open spec fn carry_out<
    L: Fn(&FullPath) -> Located,
    D: Fn(&FullPath) -> TargetContent,
>(
    ctx: WorkspaceContext,
    presentation: PathPresentation,
    locate: L,
    read: D,
    files: Seq<FilePatchView>,
    writes: Seq<PlannedWrite>,
) -> bool {
    &&& writes.len() <= files.len()
    &&& forall|k: int|
        0 <= k < writes.len() ==> carries_out(
            ctx,
            presentation,
            locate,
            read,
            writes.take(k),
            files[k],
            #[trigger] writes[k],
        )
}

/// Whether `refusal` comes of a file section that follows those that `writes`
/// carry out.
pub open spec fn fails_after<
    L: Fn(&FullPath) -> Located,
    D: Fn(&FullPath) -> TargetContent,
>(
    ctx: WorkspaceContext,
    locate: L,
    read: D,
    writes: Seq<PlannedWrite>,
    file: FilePatchView,
    refusal: Seq<char>,
) -> bool {
    exists|target: PathView|
        #[trigger] lands_at(ctx, locate, file, target) && stages(
            read,
            writes,
            file,
            target,
            Err(refusal),
        )
}

/// Whether `refusal` comes of a patch with these file sections: either the
/// first target that does not resolve, or, where all resolve, the first
/// content that cannot be built.
pub open spec fn refused_by<
    L: Fn(&FullPath) -> Located,
    D: Fn(&FullPath) -> TargetContent,
>(
    ctx: WorkspaceContext,
    presentation: PathPresentation,
    locate: L,
    read: D,
    files: Seq<FilePatchView>,
    refusal: Seq<char>,
) -> bool {
    ||| exists|k: int, reason: ToolError|
        0 <= k < files.len() && #[trigger] resolves_target(ctx, locate, files[k], Err(reason))
            && refusal == "Rejecting patch target '"@ + files[k].new_path + "': "@ + reason.0@
            && all_land(ctx, locate, files.take(k))
    ||| all_land(ctx, locate, files) && exists|writes: Seq<PlannedWrite>|
        writes.len() < files.len() && #[trigger] carry_out(
            ctx,
            presentation,
            locate,
            read,
            files,
            writes,
        ) && fails_after(ctx, locate, read, writes, files[writes.len() as int], refusal)
}

/// Whether the target of every file section resolves.
pub open spec fn all_land<L: Fn(&FullPath) -> Located>(
    ctx: WorkspaceContext,
    locate: L,
    files: Seq<FilePatchView>,
) -> bool {
    forall|k: int| 0 <= k < files.len() ==> lands(ctx, locate, #[trigger] files[k])
}

/// Whether the target of a file section resolves.
pub open spec fn lands<L: Fn(&FullPath) -> Located>(
    ctx: WorkspaceContext,
    locate: L,
    file: FilePatchView,
) -> bool {
    exists|target: PathView| #[trigger] lands_at(ctx, locate, file, target)
}

fn land_all<L: Fn(&FullPath) -> Located>(
    ctx: &WorkspaceContext,
    files: &Vec<FilePatch>,
    locate: &L,
) -> (result: Result<Vec<FullPath>, (usize, ToolError)>)
    requires
        forall|at: &FullPath| call_requires(locate, (at,)),
    ensures
        match result {
            Ok(targets) => targets@.len() == files@.len() && forall|k: int|
                0 <= k < files@.len() ==> lands_at(*ctx, *locate, file_views(files@)[k], (#[trigger] targets@[k])@),
            Err((k, reason)) => k < files@.len() && resolves_target(
                *ctx,
                *locate,
                file_views(files@)[k as int],
                Err(reason),
            ) && all_land(*ctx, *locate, file_views(files@).take(k as int)),
        },
{
    let ghost views = file_views(files@);
    let mut targets: Vec<FullPath> = Vec::new();
    for i in 0..files.len()
        invariant
            views == file_views(files@),
            forall|at: &FullPath| call_requires(locate, (at,)),
            targets@.len() == i,
            forall|k: int|
                0 <= k < i ==> lands_at(*ctx, *locate, views[k], (#[trigger] targets@[k])@),
    {
        let requested: String = requested_target(&files[i]);
        let found: ToolResult<FullPath> = ctx.resolver().resolve(Some(requested.as_str()), locate);
        assert(resolves_target(*ctx, *locate, views[i as int], found));
        match found {
            Ok(target) => {
                targets.push(target);
            },
            Err(reason) => {
                assert forall|k: int| 0 <= k < i implies lands(
                    *ctx,
                    *locate,
                    #[trigger] views.take(i as int)[k],
                ) by {
                    assert(lands_at(*ctx, *locate, views[k], targets@[k]@));
                }
                return Err((i, reason));
            },
        }
    }
    Ok(targets)
}

/// Copies the bytes that the last of the planned writes to `target` leaves
/// there.
fn pending_bytes(writes: &Vec<PlannedWrite>, target: &FullPath) -> (bytes: Option<Vec<u8>>)
    ensures
        match bytes {
            Some(found) => pending(writes@, target@) == Some(found@),
            None => pending(writes@, target@) is None,
        },
{
    let mut left: usize = writes.len();
    assert(writes@.take(left as int) =~= writes@);
    while left > 0
        invariant
            left <= writes@.len(),
            pending(writes@.take(left as int), target@) == pending(writes@, target@),
        decreases left,
    {
        left -= 1;
        assert(writes@.take(left + 1).drop_last() =~= writes@.take(left as int));
        if writes[left].target.is_same(target) {
            return Some(text::copy_bytes(writes[left].bytes.as_slice()));
        }
    }
    None
}

/// Plans an `apply_patch` request: what to write, in the order of the patch.
/// Writing must be allowed, every target must resolve inside the workspace,
/// and every hunk must apply; otherwise nothing is handed out to be written.
/// Sections on the same target build on each other. `read` tells a target's
/// content.
pub fn plan_patch<L: Fn(&FullPath) -> Located, D: Fn(&FullPath) -> TargetContent>(
    ctx: &WorkspaceContext,
    presentation: PathPresentation,
    args: &ApplyPatchArgs,
    locate: &L,
    read: &D,
) -> (result: ToolResult<Vec<PlannedWrite>>)
    requires
        forall|at: &FullPath| call_requires(locate, (at,)),
        forall|at: &FullPath| call_requires(read, (at,)),
    ensures
        if !ctx.permissions_view().write {
            result matches Err(e) && e.0@
                == "Write permission is disabled. Start nian-workspace with --write to modify workspace files."@
        } else {
            match requested_files(args.patch@) {
                Err(reason) => result matches Err(e) && e.0@ == reason,
                Ok(files) => match result {
                    Ok(writes) => writes@.len() == files.len() && carry_out(
                        *ctx,
                        presentation,
                        *locate,
                        *read,
                        files,
                        writes@,
                    ),
                    Err(e) => refused_by(*ctx, presentation, *locate, *read, files, e.0@),
                },
            }
        },
{
    let files: Vec<FilePatch> = match open_request(ctx.permissions(), args.patch.as_str()) {
        Ok(files) => files,
        Err(e) => {
            return Err(e);
        },
    };
    let ghost views = file_views(files@);
    let targets: Vec<FullPath> = match land_all(ctx, &files, locate) {
        Ok(targets) => targets,
        Err((k, reason)) => {
            return Err(target_refused(&files[k], &reason));
        },
    };
    assert forall|k: int| 0 <= k < views.len() implies lands(
        *ctx,
        *locate,
        #[trigger] views[k],
    ) by {
        assert(lands_at(*ctx, *locate, views[k], targets@[k]@));
    }
    let mut writes: Vec<PlannedWrite> = Vec::new();
    for i in 0..files.len()
        invariant
            views == file_views(files@),
            requested_files(args.patch@) == Ok::<Seq<FilePatchView>, Seq<char>>(views),
            ctx.permissions_view().write,
            targets@.len() == files@.len(),
            all_land(*ctx, *locate, views),
            forall|k: int|
                0 <= k < files@.len() ==> lands_at(*ctx, *locate, views[k], (#[trigger] targets@[k])@),
            forall|at: &FullPath| call_requires(read, (at,)),
            writes@.len() == i,
            carry_out(*ctx, presentation, *locate, *read, views, writes@),
    {
        let target: &FullPath = &targets[i];
        let ghost before = writes@;
        let content: TargetContent = match pending_bytes(&writes, target) {
            Some(bytes) => TargetContent::Bytes(bytes),
            None => {
                let content: TargetContent = read(target);
                assert(call_ensures(*read, (target,), content));
                content
            },
        };
        assert(lands_at(*ctx, *locate, views[i as int], target@));
        match stage(&files[i], &content) {
            Ok(bytes) => {
                assert(stages(*read, before, views[i as int], target@, Ok(bytes@)));
                let shown: String = ctx.resolver().display_relative_as(target, presentation);
                writes.push(PlannedWrite { shown, target: target.duplicate(), bytes });
                assert forall|k: int| 0 <= k < writes@.len() implies carries_out(
                    *ctx,
                    presentation,
                    *locate,
                    *read,
                    writes@.take(k),
                    views[k],
                    #[trigger] writes@[k],
                ) by {
                    assert(writes@.take(k) =~= before.take(k));
                    if k == i {
                        assert(before.take(k) =~= before);
                    } else {
                        assert(before[k] == writes@[k]);
                    }
                }
            },
            Err(e) => {
                assert(stages(*read, before, views[i as int], target@, Err(e.0@)));
                assert(fails_after(*ctx, *locate, *read, before, views[i as int], e.0@));
                return Err(e);
            },
        }
    }
    Ok(writes)
}

/// A step of writing a file.
#[derive(Debug, Clone, Copy, PartialEq, Eq, Structural)]
pub enum WriteStep {
    /// The directory is created.
    CreateDirectory,
    /// The sibling file is created.
    CreateTemp,
    /// The sibling file is written.
    WriteTemp,
    /// The sibling file replaces the target.
    Replace,
}

/// How a path is shown in the report of a failed write: a single workspace
/// sees it in full, a registry client relative to the workspace.
pub open spec fn failed_path(
    resolver: Workspace,
    presentation: PathPresentation,
    path: PathView,
) -> Seq<char> {
    match presentation {
        PathPresentation::SingleCompatible => text::decoded_text(
            workspace::path_bytes(path, resolver.separator_view()),
        ),
        PathPresentation::RegistryRelative => resolver.presented_view(path, presentation),
    }
}

/// The report of a failed write.
pub open spec fn failed_write_text(step: WriteStep, shown: Seq<char>, reason: Seq<char>) -> Seq<
    char,
> {
    match step {
        WriteStep::CreateDirectory => "Failed to create directory '"@ + shown + "': "@ + reason,
        WriteStep::CreateTemp => "Failed to create temp file '"@ + shown + "': "@ + reason,
        WriteStep::WriteTemp => "Failed to write temp file: "@ + reason,
        WriteStep::Replace => "Failed to replace '"@ + shown + "': "@ + reason,
    }
}

/// Reports a failed write.
pub fn write_failed(
    ctx: &WorkspaceContext,
    presentation: PathPresentation,
    step: WriteStep,
    path: &FullPath,
    reason: &str,
) -> (error: ToolError)
    ensures
        error.0@ == failed_write_text(
            step,
            failed_path(ctx.resolver_view(), presentation, path@),
            reason@,
        ),
{
    let shown: String = match presentation {
        PathPresentation::SingleCompatible => ctx.resolver().full_text(path),
        PathPresentation::RegistryRelative => ctx.resolver().display_relative_as(
            path,
            presentation,
        ),
    };
    let text: String = match step {
        WriteStep::CreateDirectory => String::from_str("Failed to create directory '").concat(
            shown.as_str(),
        ).concat("': ").concat(reason),
        WriteStep::CreateTemp => String::from_str("Failed to create temp file '").concat(
            shown.as_str(),
        ).concat("': ").concat(reason),
        WriteStep::WriteTemp => String::from_str("Failed to write temp file: ").concat(reason),
        WriteStep::Replace => String::from_str("Failed to replace '").concat(
            shown.as_str(),
        ).concat("': ").concat(reason),
    };
    ToolError(text)
}

/// The name of the sibling file that a new content is written to before it
/// replaces the target.
pub fn temp_file_name(target_name: &str, nanos: u32) -> (name: String)
    ensures
        name@ == "."@ + target_name@ + ".tmp"@ + text::decimal(nanos as nat),
{
    String::from_str(".").concat(target_name).concat(".tmp").concat(
        text::decimal_of(nanos as u64).as_str(),
    )
}

// ---------------------------------------------------------------------------
// Laws
// ---------------------------------------------------------------------------

/// A patch writes nothing outside the workspace: whatever a planned write
/// carries out, its target is inside the root.
pub proof fn law_patches_stay_inside<
    L: Fn(&FullPath) -> Located,
    D: Fn(&FullPath) -> TargetContent,
>(
    ctx: WorkspaceContext,
    presentation: PathPresentation,
    locate: L,
    read: D,
    before: Seq<PlannedWrite>,
    file: FilePatchView,
    write: PlannedWrite,
)
    requires
        carries_out(ctx, presentation, locate, read, before, file, write),
    ensures
        workspace::inside(ctx.resolver_view().root_view(), write.target@),
{
}

proof fn lemma_pending(writes: Seq<PlannedWrite>, i: int)
    requires
        0 <= i < writes.len(),
        forall|m: int| i < m < writes.len() ==> (#[trigger] writes[m]).target@ != writes[i].target@,
    ensures
        pending(writes, writes[i].target@) == Some(writes[i].bytes@),
    decreases writes.len(),
{
    if i < writes.len() - 1 {
        lemma_pending(writes.drop_last(), i);
    }
}

/// A patch is one unit: where two of its sections have the same target and
/// none between them has, the later one is applied to what the earlier one
/// made of the file, so that no accepted hunk is lost.
pub proof fn law_sections_build_on_each_other<
    L: Fn(&FullPath) -> Located,
    D: Fn(&FullPath) -> TargetContent,
>(
    ctx: WorkspaceContext,
    presentation: PathPresentation,
    locate: L,
    read: D,
    files: Seq<FilePatchView>,
    writes: Seq<PlannedWrite>,
    i: int,
    j: int,
)
    requires
        carry_out(ctx, presentation, locate, read, files, writes),
        0 <= i < j < writes.len(),
        writes[i].target@ == writes[j].target@,
        forall|m: int| i < m < j ==> (#[trigger] writes[m]).target@ != writes[i].target@,
    ensures
        staged_on(files[j], writes[i].bytes@) == Ok::<Seq<u8>, Seq<char>>(writes[j].bytes@),
{
    let before = writes.take(j);
    assert forall|m: int| i < m < before.len() implies (#[trigger] before[m]).target@
        != before[i].target@ by {
        assert(before[m] == writes[m]);
    }
    lemma_pending(before, i);
    assert(carries_out(ctx, presentation, locate, read, writes.take(j), files[j], writes[j]));
}

/// The texts of lines.
pub open spec fn line_texts(lines: Seq<LineView>) -> Seq<Seq<char>> {
    lines.map_values(|line: LineView| line.text)
}

/// The distance between two line numbers.
pub open spec fn distance(a: int, b: int) -> int {
    if a <= b {
        b - a
    } else {
        a - b
    }
}

/// A hunk is placed at the line nearest to the stated one where its old lines
/// stand, at most [`MAX_DRIFT`] lines away; it is given up only where there
/// is no such line.
pub proof fn law_nearest_placement(
    target: Seq<LineView>,
    expected: Seq<Seq<char>>,
    start: int,
    other: int,
)
    requires
        fits_at(target, expected, other),
        distance(start, other) <= MAX_DRIFT,
    ensures
        match nearest_fit(target, expected, start, 0) {
            None => false,
            Some(line) => fits_at(target, expected, line) && distance(start, line) <= distance(
                start,
                other,
            ),
        },
{
    lemma_nearest_from(target, expected, start, other, 0);
}

proof fn lemma_nearest_from(
    target: Seq<LineView>,
    expected: Seq<Seq<char>>,
    start: int,
    other: int,
    from: int,
)
    requires
        fits_at(target, expected, other),
        0 <= from <= distance(start, other) <= MAX_DRIFT,
    ensures
        match nearest_fit(target, expected, start, from) {
            None => false,
            Some(line) => fits_at(target, expected, line) && distance(start, line) <= distance(
                start,
                other,
            ),
        },
    decreases MAX_DRIFT + 1 - from,
{
    if !fits_at(target, expected, start - from) && !fits_at(target, expected, start + from) {
        lemma_nearest_from(target, expected, start, other, from + 1);
    }
}

proof fn lemma_nearest_is_near(
    target: Seq<LineView>,
    expected: Seq<Seq<char>>,
    start: int,
    from: int,
)
    requires
        0 <= from,
    ensures
        nearest_fit(target, expected, start, from) matches Some(line) ==> fits_at(
            target,
            expected,
            line,
        ) && distance(start, line) <= MAX_DRIFT,
    decreases MAX_DRIFT + 1 - from,
{
    if from <= MAX_DRIFT && !fits_at(target, expected, start - from) && !fits_at(
        target,
        expected,
        start + from,
    ) {
        lemma_nearest_is_near(target, expected, start, from + 1);
    }
}

proof fn lemma_replaced_texts(
    ops: Seq<OpView>,
    target: Seq<LineView>,
    base: int,
    style: LineEnding,
    whole: Seq<Seq<char>>,
)
    requires
        fits_at(target, whole, base + 1),
        old_side(ops).len() <= whole.len(),
        old_side(ops) == whole.take(old_side(ops).len() as int),
    ensures
        line_texts(replaced(ops, target, base, style)) == new_side(ops),
    decreases ops.len(),
{
    if ops.len() > 0 {
        let head = ops.drop_last();
        let n = old_side(head).len() as int;
        assert(old_side(head) =~= whole.take(n)) by {
            assert forall|k: int| 0 <= k < n implies old_side(head)[k] == whole[k] by {
                assert(old_side(ops)[k] == whole.take(old_side(ops).len() as int)[k]);
            }
        }
        lemma_replaced_texts(head, target, base, style, whole);
        match ops.last() {
            OpView::Context(s) => {
                assert(old_side(ops)[n] == s);
                assert(whole.take(old_side(ops).len() as int)[n] == whole[n]);
                assert(target[base + 1 - 1 + n].text == whole[n]);
            },
            _ => {},
        }
        assert(line_texts(replaced(ops, target, base, style)) =~= new_side(ops));
    } else {
        assert(line_texts(replaced(ops, target, base, style)) =~= new_side(ops));
    }
}

/// A hunk that shows old lines replaces exactly them, where they stand, by
/// its new lines, at most [`MAX_DRIFT`] lines from the stated line. Every
/// other line stays as it is, its ending too.
pub proof fn law_hunk_replaces_old_by_new(
    target: Seq<LineView>,
    hunk: HunkView,
    style: LineEnding,
    after: Seq<LineView>,
) -> (line: int)
    requires
        old_side(hunk.ops).len() > 0,
        applied(target, hunk, style, false) == Some(after),
    ensures
        fits_at(target, old_side(hunk.ops), line),
        distance(hunk.old_start as int, line) <= MAX_DRIFT,
        after.len() == target.len() - old_side(hunk.ops).len() + new_side(hunk.ops).len(),
        after.take(line - 1) == target.take(line - 1),
        line_texts(after.subrange(line - 1, line - 1 + new_side(hunk.ops).len())) == new_side(
            hunk.ops,
        ),
        after.skip(line - 1 + new_side(hunk.ops).len()) == target.skip(
            line - 1 + old_side(hunk.ops).len(),
        ),
{
    let expected = old_side(hunk.ops);
    lemma_nearest_is_near(target, expected, hunk.old_start as int, 0);
    let line = nearest_fit(target, expected, hunk.old_start as int, 0).unwrap();
    assert(expected =~= expected.take(expected.len() as int));
    lemma_replaced_texts(hunk.ops, target, line - 1, style, expected);
    let middle = replaced(hunk.ops, target, line - 1, style);
    assert(line_texts(middle).len() == middle.len());
    assert(after.take(line - 1) =~= target.take(line - 1));
    assert(after.subrange(line - 1, line - 1 + new_side(hunk.ops).len()) =~= middle);
    assert(after.skip(line - 1 + new_side(hunk.ops).len()) =~= target.skip(
        line - 1 + old_side(hunk.ops).len(),
    ));
    line
}

/// Whether every line ends in `style`, but for a missing ending.
pub open spec fn uniform(lines: Seq<LineView>, style: LineEnding) -> bool {
    forall|i: int|
        0 <= i < lines.len() ==> (#[trigger] lines[i]).ending == style || lines[i].ending
            == LineEnding::Missing
}

proof fn lemma_replaced_uniform(
    ops: Seq<OpView>,
    target: Seq<LineView>,
    base: int,
    style: LineEnding,
)
    requires
        uniform(target, style),
        0 <= base,
        base + old_side(ops).len() <= target.len(),
    ensures
        uniform(replaced(ops, target, base, style), style),
    decreases ops.len(),
{
    if ops.len() > 0 {
        lemma_replaced_uniform(ops.drop_last(), target, base, style);
    }
}

/// The newline style of a file survives its patch: where every line ends in
/// one style, so does every line afterwards.
pub proof fn law_newline_style_preserved(
    target: Seq<LineView>,
    file: FilePatchView,
    k: int,
    style: LineEnding,
)
    requires
        0 <= k,
        uniform(target, style),
    ensures
        applied_from(target, file, k, style) matches Ok(after) ==> uniform(after, style),
    decreases file.hunks.len() - k,
{
    if k < file.hunks.len() {
        let hunk = file.hunks[k];
        if let Some(next) = applied(target, hunk, style, file.creation) {
            let expected = old_side(hunk.ops);
            if !(file.creation || expected.len() == 0) {
                lemma_nearest_is_near(target, expected, hunk.old_start as int, 0);
                let line = nearest_fit(target, expected, hunk.old_start as int, 0).unwrap();
                lemma_replaced_uniform(hunk.ops, target, line - 1, style);
            }
            assert(uniform(next, style));
            law_newline_style_preserved(next, file, k + 1, style);
        }
    }
}

proof fn lemma_join_last(lines: Seq<LineView>)
    requires
        lines.len() > 0,
    ensures
        text::join_lines(lines) == text::join_lines(lines.drop_last()) + lines.last().text
            + lines.last().ending.chars(),
    decreases lines.len(),
{
    if lines.len() == 1 {
        assert(text::join_lines(lines.skip(1)) =~= Seq::<char>::empty());
        assert(text::join_lines(lines.drop_last()) =~= Seq::<char>::empty());
        assert(text::join_lines(lines) =~= text::join_lines(lines.drop_last()) + lines.last().text
            + lines.last().ending.chars());
    } else {
        lemma_join_last(lines.skip(1));
        assert(lines.skip(1).drop_last() =~= lines.drop_last().skip(1));
        assert(text::join_lines(lines) =~= text::join_lines(lines.drop_last()) + lines.last().text
            + lines.last().ending.chars());
    }
}

proof fn lemma_terminated_is_join(lines: Seq<LineView>, style: LineEnding)
    requires
        forall|i: int|
            0 <= i < lines.len() ==> (#[trigger] lines[i]).ending != LineEnding::Missing,
    ensures
        terminated_text(lines, style) == text::join_lines(lines),
    decreases lines.len(),
{
    if lines.len() > 0 {
        lemma_terminated_is_join(lines.drop_last(), style);
        lemma_join_last(lines);
    }
}

proof fn lemma_split_endings(s: Seq<char>)
    ensures
        s.len() > 0 <==> text::split_lines(s).len() > 0,
        forall|i: int|
            0 <= i < text::split_lines(s).len() - 1 ==> (#[trigger] text::split_lines(s)[i]).ending
                != LineEnding::Missing,
        s.len() > 0 ==> (text::split_lines(s).last().ending == LineEnding::Missing <==> s.last()
            != '\n'),
    decreases s.len(),
{
    text::lemma_position_from(s, '\n', 0);
    let end = text::position_from(s, '\n', 0);
    if s.len() > 0 && end < s.len() {
        let rest = s.skip(end + 1);
        lemma_split_endings(rest);
        let lines = text::split_lines(s);
        assert(lines =~= seq![text::terminated_line(s.take(end))] + text::split_lines(rest));
        assert forall|i: int| 0 <= i < lines.len() - 1 implies (#[trigger] lines[i]).ending
            != LineEnding::Missing by {
            if i > 0 {
                assert(lines[i] == text::split_lines(rest)[i - 1]);
            }
        }
        if rest.len() > 0 {
            assert(lines.last() == text::split_lines(rest).last());
            assert(rest.last() == s.last());
        }
    }
}

proof fn lemma_unchanged_text(s: Seq<char>)
    requires
        !(text::split_lines(s).len() == 1 && text::split_lines(s)[0].text.len() == 0),
    ensures
        rendered(
            text::split_lines(s),
            newline_style(text::split_lines(s)),
            s.len() > 0 && s.last() == '\n',
        ) == s,
{
    let lines = text::split_lines(s);
    let style = newline_style(lines);
    lemma_split_endings(s);
    text::law_lines_round_trip(s);
    if s.len() > 0 {
        if s.last() == '\n' {
            lemma_terminated_is_join(lines, style);
        } else {
            lemma_terminated_is_join(lines.drop_last(), style);
            lemma_join_last(lines);
            assert(rendered(lines, style, false) =~= s);
        }
    }
}

/// Whether a hunk only shows lines that both files have.
pub open spec fn only_context(ops: Seq<OpView>) -> bool {
    forall|i: int| 0 <= i < ops.len() ==> (#[trigger] ops[i]) is Context
}

proof fn lemma_context_replaced(
    ops: Seq<OpView>,
    target: Seq<LineView>,
    base: int,
    style: LineEnding,
)
    requires
        only_context(ops),
        0 <= base,
        base + ops.len() <= target.len(),
    ensures
        old_side(ops).len() == ops.len(),
        replaced(ops, target, base, style) == target.subrange(base, base + ops.len()),
    decreases ops.len(),
{
    if ops.len() > 0 {
        lemma_context_replaced(ops.drop_last(), target, base, style);
        assert(ops[ops.len() - 1] is Context);
        assert(replaced(ops, target, base, style) =~= target.subrange(base, base + ops.len()));
    } else {
        assert(replaced(ops, target, base, style) =~= target.subrange(base, base + ops.len()));
    }
}

proof fn lemma_context_len(ops: Seq<OpView>)
    requires
        only_context(ops),
    ensures
        old_side(ops).len() == ops.len(),
    decreases ops.len(),
{
    if ops.len() > 0 {
        lemma_context_len(ops.drop_last());
        assert(ops[ops.len() - 1] is Context);
    }
}

proof fn lemma_context_applied(
    target: Seq<LineView>,
    file: FilePatchView,
    k: int,
    style: LineEnding,
)
    requires
        0 <= k,
        !file.creation,
        forall|i: int|
            0 <= i < file.hunks.len() ==> (#[trigger] file.hunks[i]).ops.len() > 0 && only_context(
                file.hunks[i].ops,
            ),
    ensures
        applied_from(target, file, k, style) matches Ok(after) ==> after == target,
    decreases file.hunks.len() - k,
{
    if k < file.hunks.len() {
        let hunk = file.hunks[k];
        if let Some(next) = applied(target, hunk, style, false) {
            let expected = old_side(hunk.ops);
            lemma_context_len(hunk.ops);
            lemma_nearest_is_near(target, expected, hunk.old_start as int, 0);
            let line = nearest_fit(target, expected, hunk.old_start as int, 0).unwrap();
            lemma_context_replaced(hunk.ops, target, line - 1, style);
            assert(next =~= target);
            lemma_context_applied(next, file, k + 1, style);
        }
    }
}

/// A patch that only shows context leaves a file as it is, to the character.
/// The one exception is a file of a single empty line, which becomes empty.
pub proof fn law_context_changes_nothing(original: Seq<char>, file: FilePatchView)
    requires
        !file.creation,
        forall|i: int|
            0 <= i < file.hunks.len() ==> (#[trigger] file.hunks[i]).ops.len() > 0 && only_context(
                file.hunks[i].ops,
            ),
        !(text::split_lines(original).len() == 1 && text::split_lines(original)[0].text.len()
            == 0),
    ensures
        patched_text(original, file) matches Ok(after) ==> after == original,
{
    let lines = text::split_lines(original);
    lemma_context_applied(lines, file, 0, newline_style(lines));
    lemma_unchanged_text(original);
}

/// What every accepted patch is made of: at least one file, at least one hunk
/// per file, at least one line per hunk and a one-based position; and no
/// section asks for a deletion.
pub open spec fn well_formed(files: Seq<FilePatchView>) -> bool {
    &&& files.len() > 0
    &&& forall|i: int|
        0 <= i < files.len() ==> {
            &&& (#[trigger] files[i]).hunks.len() > 0
            &&& forall|k: int|
                0 <= k < files[i].hunks.len() ==> (#[trigger] files[i].hunks[k]).old_start >= 1
                    && files[i].hunks[k].ops.len() > 0
            &&& files[i].creation <==> without_side(files[i].old_path) == "/dev/null"@
            &&& !files[i].creation ==> without_side(files[i].new_path) != "/dev/null"@
        }
}

proof fn lemma_hunks_well_formed(lines: Seq<LineView>, i: int)
    requires
        0 <= i <= lines.len(),
    ensures
        parsed_hunks(lines, i) matches Ok((hunks, _)) ==> forall|k: int|
            0 <= k < hunks.len() ==> (#[trigger] hunks[k]).old_start >= 1 && hunks[k].ops.len() > 0,
    decreases lines.len() - i,
{
    if i < lines.len() && text::begins_with(lines[i].text, "@@ -"@) {
        if let Ok(hunk) = parsed_hunk(lines, i) {
            lemma_body_end(lines, i + 1);
            lemma_hunks_well_formed(lines, body_end(lines, i + 1));
            if let Ok((rest, _)) = parsed_hunks(lines, body_end(lines, i + 1)) {
                let hunks = seq![hunk] + rest;
                assert forall|k: int| 0 <= k < hunks.len() implies (#[trigger] hunks[k]).old_start
                    >= 1 && hunks[k].ops.len() > 0 by {
                    if k > 0 {
                        assert(hunks[k] == rest[k - 1]);
                    }
                }
            }
        }
    }
}

proof fn lemma_files_well_formed(lines: Seq<LineView>, i: int)
    requires
        0 <= i <= lines.len(),
    ensures
        parsed_files(lines, i) matches Ok(files) ==> files.len() == 0 || well_formed(files),
    decreases lines.len() - i,
{
    if i < lines.len() {
        if !text::begins_with(lines[i].text, "--- "@) {
            lemma_files_well_formed(lines, i + 1);
        } else if let Ok((file, end)) = parsed_file(lines, i) {
            lemma_parsed_hunks_end(lines, i + 2);
            lemma_hunks_well_formed(lines, i + 2);
            lemma_files_well_formed(lines, end);
            if let Ok(rest) = parsed_files(lines, end) {
                let files = seq![file] + rest;
                assert forall|k: int| 0 <= k < files.len() implies {
                    &&& (#[trigger] files[k]).hunks.len() > 0
                    &&& forall|j: int|
                        0 <= j < files[k].hunks.len() ==> (#[trigger] files[k].hunks[j]).old_start
                            >= 1 && files[k].hunks[j].ops.len() > 0
                    &&& files[k].creation <==> without_side(files[k].old_path) == "/dev/null"@
                    &&& !files[k].creation ==> without_side(files[k].new_path) != "/dev/null"@
                } by {
                    if k > 0 {
                        assert(files[k] == rest[k - 1]);
                    }
                }
            }
        }
    }
}

/// Every accepted patch is well formed; in particular none deletes a file.
pub proof fn law_accepted_patch_is_well_formed(patch: Seq<char>)
    ensures
        requested_files(patch) matches Ok(files) ==> well_formed(files),
{
    lemma_files_well_formed(text::split_lines(patch), 0);
}

/// Whether lines begin with the header of a file section.
spec fn opens_section(lines: Seq<LineView>) -> bool {
    lines.len() > 0 && text::begins_with(lines[0].text, "--- "@)
}

proof fn lemma_body_in_front(lines: Seq<LineView>, next: Seq<LineView>, i: int)
    requires
        0 <= i <= lines.len(),
        opens_section(next),
    ensures
        body_ops(lines + next, i) == body_ops(lines, i),
        body_end(lines + next, i) == body_end(lines, i),
    decreases lines.len() - i,
{
    let all = lines + next;
    if i < lines.len() {
        assert(all[i] == lines[i]);
        lemma_body_in_front(lines, next, i + 1);
    } else {
        assert(all[i] == next[0]);
    }
}

proof fn lemma_hunks_in_front(lines: Seq<LineView>, next: Seq<LineView>, i: int)
    requires
        0 <= i <= lines.len(),
        opens_section(next),
    ensures
        parsed_hunks(lines + next, i) == parsed_hunks(lines, i),
    decreases lines.len() - i,
{
    let all = lines + next;
    if i == lines.len() {
        assert(all[i] == next[0]);
        assert(!text::begins_with(next[0].text, "@@ -"@)) by {
            reveal_strlit("--- ");
            reveal_strlit("@@ -");
            if text::begins_with(next[0].text, "@@ -"@) {
                assert(next[0].text.subrange(0, 4)[0] == '@');
                assert(next[0].text.subrange(0, 4)[0] == '-');
            }
        }
    } else {
        assert(all[i] == lines[i]);
        if text::begins_with(lines[i].text, "@@ -"@) {
            lemma_body_in_front(lines, next, i + 1);
            assert(parsed_hunk(all, i) == parsed_hunk(lines, i));
            lemma_body_end(lines, i + 1);
            lemma_hunks_in_front(lines, next, body_end(lines, i + 1));
        }
    }
}

proof fn lemma_files_in_front(lines: Seq<LineView>, next: Seq<LineView>, i: int)
    requires
        0 <= i <= lines.len(),
        opens_section(next),
        parsed_files(lines, i) is Ok,
    ensures
        parsed_files(lines + next, i) == match parsed_files(lines + next, lines.len() as int) {
            Ok(rest) => Ok::<Seq<FilePatchView>, Seq<char>>(parsed_files(lines, i)->Ok_0 + rest),
            Err(e) => Err(e),
        },
    decreases lines.len() - i,
{
    let all = lines + next;
    let later = parsed_files(all, lines.len() as int);
    if i == lines.len() {
        if let Ok(rest) = later {
            assert(Seq::<FilePatchView>::empty() + rest =~= rest);
        }
    } else {
        assert(all[i] == lines[i]);
        if !text::begins_with(lines[i].text, "--- "@) {
            lemma_files_in_front(lines, next, i + 1);
        } else {
            assert(all[i + 1] == lines[i + 1]);
            lemma_hunks_in_front(lines, next, i + 2);
            assert(parsed_file(all, i) == parsed_file(lines, i));
            lemma_parsed_hunks_end(lines, i + 2);
            let (file, end) = parsed_file(lines, i)->Ok_0;
            lemma_files_in_front(lines, next, end);
            if let Ok(rest) = later {
                let mine = parsed_files(lines, end)->Ok_0;
                assert(seq![file] + (mine + rest) =~= seq![file] + mine + rest);
            }
        }
    }
}

proof fn lemma_body_behind(front: Seq<LineView>, lines: Seq<LineView>, i: int)
    requires
        0 <= i <= lines.len(),
    ensures
        body_ops(front + lines, front.len() + i) == body_ops(lines, i),
        body_end(front + lines, front.len() + i) == front.len() + body_end(lines, i),
    decreases lines.len() - i,
{
    if i < lines.len() {
        assert((front + lines)[front.len() + i] == lines[i]);
        lemma_body_behind(front, lines, i + 1);
    }
}

proof fn lemma_hunks_behind(front: Seq<LineView>, lines: Seq<LineView>, i: int)
    requires
        0 <= i <= lines.len(),
    ensures
        parsed_hunks(front + lines, front.len() + i) == match parsed_hunks(lines, i) {
            Ok((hunks, end)) => Ok::<(Seq<HunkView>, int), Seq<char>>((hunks, front.len() + end)),
            Err(e) => Err(e),
        },
    decreases lines.len() - i,
{
    let all = front + lines;
    if i < lines.len() {
        assert(all[front.len() + i] == lines[i]);
        if text::begins_with(lines[i].text, "@@ -"@) {
            lemma_body_behind(front, lines, i + 1);
            assert(parsed_hunk(all, front.len() + i) == parsed_hunk(lines, i));
            lemma_body_end(lines, i + 1);
            lemma_hunks_behind(front, lines, body_end(lines, i + 1));
        }
    }
}

proof fn lemma_files_behind(front: Seq<LineView>, lines: Seq<LineView>, i: int)
    requires
        0 <= i <= lines.len(),
    ensures
        parsed_files(front + lines, front.len() + i) == parsed_files(lines, i),
    decreases lines.len() - i,
{
    let all = front + lines;
    if i < lines.len() {
        assert(all[front.len() + i] == lines[i]);
        if !text::begins_with(lines[i].text, "--- "@) {
            lemma_files_behind(front, lines, i + 1);
        } else if i + 1 < lines.len() {
            assert(all[front.len() + i + 1] == lines[i + 1]);
            lemma_hunks_behind(front, lines, i + 2);
            lemma_parsed_hunks_end(lines, i + 2);
            if let Ok((_, end)) = parsed_file(lines, i) {
                lemma_files_behind(front, lines, end);
            }
        }
    }
}

proof fn lemma_text_opens_section(q: Seq<char>)
    requires
        text::begins_with(q, "--- "@),
    ensures
        opens_section(text::split_lines(q)),
{
    reveal_strlit("--- ");
    text::lemma_position_from(q, '\n', 0);
    let end = text::position_from(q, '\n', 0);
    assert forall|k: int| 0 <= k < 4 implies q[k] == "--- "@[k] by {
        assert(q.subrange(0, 4)[k] == q[k]);
    }
    if end < q.len() {
        assert(end >= 4) by {
            assert(q[end] == '\n');
        }
        let line = text::terminated_line(q.take(end)).text;
        assert(line.subrange(0, 4) =~= "--- "@);
    }
}

/// Patches put one after the other are read as their file sections in order:
/// none is lost, and none runs into the next.
pub proof fn law_joined_patches_keep_their_sections(
    p: Seq<char>,
    q: Seq<char>,
    first: Seq<FilePatchView>,
    second: Seq<FilePatchView>,
)
    requires
        parsed_patch(p) == Ok::<Seq<FilePatchView>, Seq<char>>(first),
        parsed_patch(q) == Ok::<Seq<FilePatchView>, Seq<char>>(second),
        p.last() == '\n',
        text::begins_with(q, "--- "@),
    ensures
        parsed_patch(p + q) == Ok::<Seq<FilePatchView>, Seq<char>>(first + second),
{
    let lines = text::split_lines(p);
    let next = text::split_lines(q);
    text::lemma_split_whole_lines(p, q);
    lemma_text_opens_section(q);
    lemma_files_in_front(lines, next, 0);
    lemma_files_behind(lines, next, 0);
}

/// What stands in front of the first file section is passed over, such as the
/// `diff --git` and `index` lines that git writes.
pub proof fn law_preamble_is_ignored(
    preamble: Seq<char>,
    q: Seq<char>,
    files: Seq<FilePatchView>,
)
    requires
        preamble.len() == 0 || preamble.last() == '\n',
        forall|k: int|
            0 <= k < text::split_lines(preamble).len() ==> !text::begins_with(
                (#[trigger] text::split_lines(preamble)[k]).text,
                "--- "@,
            ),
        parsed_patch(q) == Ok::<Seq<FilePatchView>, Seq<char>>(files),
    ensures
        parsed_patch(preamble + q) == Ok::<Seq<FilePatchView>, Seq<char>>(files),
{
    let front = text::split_lines(preamble);
    let lines = text::split_lines(q);
    text::lemma_split_whole_lines(preamble, q);
    lemma_passed_over(front, lines, 0);
    lemma_files_behind(front, lines, 0);
}

proof fn lemma_passed_over(front: Seq<LineView>, lines: Seq<LineView>, i: int)
    requires
        0 <= i <= front.len(),
        forall|k: int|
            0 <= k < front.len() ==> !text::begins_with((#[trigger] front[k]).text, "--- "@),
    ensures
        parsed_files(front + lines, i) == parsed_files(front + lines, front.len() as int),
    decreases front.len() - i,
{
    if i < front.len() {
        assert((front + lines)[i] == front[i]);
        lemma_passed_over(front, lines, i + 1);
    }
}

/// Where every hunk of a file section applies, one after the other and the
/// first to the lines of the file, the file becomes what stands after the
/// last one.
pub proof fn law_hunks_apply_in_order(
    original: Seq<char>,
    file: FilePatchView,
    states: Seq<Seq<LineView>>,
)
    requires
        states.len() == file.hunks.len() + 1,
        states[0] == text::split_lines(original),
        forall|k: int|
            0 <= k < file.hunks.len() ==> applied(
                #[trigger] states[k],
                file.hunks[k],
                newline_style(text::split_lines(original)),
                file.creation,
            ) == Some(states[k + 1]),
    ensures
        patched_text(original, file) == Ok::<Seq<char>, Seq<char>>(
            rendered(
                states[file.hunks.len() as int],
                newline_style(text::split_lines(original)),
                file.creation || (original.len() > 0 && original.last() == '\n'),
            ),
        ),
{
    lemma_states_lead_on(original, file, states, 0);
}

proof fn lemma_states_lead_on(
    original: Seq<char>,
    file: FilePatchView,
    states: Seq<Seq<LineView>>,
    k: int,
)
    requires
        0 <= k < states.len() <= file.hunks.len() + 1,
        forall|i: int|
            0 <= i < states.len() - 1 ==> applied(
                #[trigger] states[i],
                file.hunks[i],
                newline_style(text::split_lines(original)),
                file.creation,
            ) == Some(states[i + 1]),
    ensures
        applied_from(states[k], file, k, newline_style(text::split_lines(original)))
            == applied_from(
            states[states.len() - 1],
            file,
            states.len() - 1,
            newline_style(text::split_lines(original)),
        ),
    decreases states.len() - k,
{
    if k < states.len() - 1 {
        lemma_states_lead_on(original, file, states, k + 1);
    }
}

/// A hunk that does not apply to what the hunks before it made of the file
/// refuses the whole section, and the refusal names that hunk.
pub proof fn law_stale_hunk_refuses_the_section(
    original: Seq<char>,
    file: FilePatchView,
    states: Seq<Seq<LineView>>,
)
    requires
        0 < states.len() <= file.hunks.len(),
        states[0] == text::split_lines(original),
        forall|k: int|
            0 <= k < states.len() - 1 ==> applied(
                #[trigger] states[k],
                file.hunks[k],
                newline_style(text::split_lines(original)),
                file.creation,
            ) == Some(states[k + 1]),
        applied(
            states[states.len() - 1],
            file.hunks[states.len() - 1],
            newline_style(text::split_lines(original)),
            file.creation,
        ) is None,
    ensures
        patched_text(original, file) == Err::<Seq<char>, Seq<char>>(
            "Failed to apply hunk #"@ + text::decimal(states.len()) + " to '"@ + file.new_path
                + "': no matching context found near line "@ + text::decimal(
                file.hunks[states.len() - 1].old_start as nat,
            ) + ". Re-read the file around that line and regenerate the patch."@,
        ),
{
    lemma_states_lead_on(original, file, states, 0);
}

/// Every hunk takes part: a patched file has gone through one state per hunk,
/// each made of the one before by that hunk.
pub proof fn law_every_hunk_takes_part(original: Seq<char>, file: FilePatchView) -> (states: Seq<
    Seq<LineView>,
>)
    requires
        patched_text(original, file) is Ok,
    ensures
        states.len() == file.hunks.len() + 1,
        states[0] == text::split_lines(original),
        forall|k: int|
            0 <= k < file.hunks.len() ==> applied(
                #[trigger] states[k],
                file.hunks[k],
                newline_style(text::split_lines(original)),
                file.creation,
            ) == Some(states[k + 1]),
        patched_text(original, file) == Ok::<Seq<char>, Seq<char>>(
            rendered(
                states[file.hunks.len() as int],
                newline_style(text::split_lines(original)),
                file.creation || (original.len() > 0 && original.last() == '\n'),
            ),
        ),
{
    let lines = text::split_lines(original);
    let states = lemma_states_of(lines, file, 0, newline_style(lines));
    law_hunks_apply_in_order(original, file, states);
    states
}

proof fn lemma_states_of(
    target: Seq<LineView>,
    file: FilePatchView,
    from: int,
    style: LineEnding,
) -> (states: Seq<Seq<LineView>>)
    requires
        0 <= from <= file.hunks.len(),
        applied_from(target, file, from, style) is Ok,
    ensures
        states.len() == file.hunks.len() - from + 1,
        states[0] == target,
        forall|k: int|
            0 <= k < states.len() - 1 ==> applied(
                #[trigger] states[k],
                file.hunks[from + k],
                style,
                file.creation,
            ) == Some(states[k + 1]),
    decreases file.hunks.len() - from,
{
    if from == file.hunks.len() {
        seq![target]
    } else {
        let next = applied(target, file.hunks[from], style, file.creation).unwrap();
        let rest = lemma_states_of(next, file, from + 1, style);
        let states = seq![target] + rest;
        assert forall|k: int| 0 <= k < states.len() - 1 implies applied(
            #[trigger] states[k],
            file.hunks[from + k],
            style,
            file.creation,
        ) == Some(states[k + 1]) by {
            if k > 0 {
                assert(states[k] == rest[k - 1]);
                assert(states[k + 1] == rest[k]);
                assert(file.hunks[from + k] == file.hunks[(from + 1) + (k - 1)]);
            } else {
                assert(states[1] == rest[0]);
            }
        }
        states
    }
}

/// What a body shows of either file is what its parts show, one after the
/// other: a context line is in both files, a removed one in the old file
/// only, an added one in the new file only.
pub proof fn law_sides_are_shown_line_by_line(first: Seq<OpView>, op: OpView, rest: Seq<OpView>)
    ensures
        old_side(first + rest) == old_side(first) + old_side(rest),
        new_side(first + rest) == new_side(first) + new_side(rest),
        old_side(seq![op]) == match op {
            OpView::Context(s) => seq![s],
            OpView::Remove(s) => seq![s],
            OpView::Add(_) => Seq::empty(),
        },
        new_side(seq![op]) == match op {
            OpView::Context(s) => seq![s],
            OpView::Remove(_) => Seq::empty(),
            OpView::Add(s) => seq![s],
        },
    decreases rest.len(),
{
    let one = seq![op];
    assert(one.drop_last() =~= Seq::<OpView>::empty());
    assert(old_side(one.drop_last()) =~= Seq::<Seq<char>>::empty());
    assert(new_side(one.drop_last()) =~= Seq::<Seq<char>>::empty());
    assert(old_side(one) =~= match op {
        OpView::Context(s) => seq![s],
        OpView::Remove(s) => seq![s],
        OpView::Add(_) => Seq::<Seq<char>>::empty(),
    });
    assert(new_side(one) =~= match op {
        OpView::Context(s) => seq![s],
        OpView::Remove(_) => Seq::<Seq<char>>::empty(),
        OpView::Add(s) => seq![s],
    });
    let all = first + rest;
    if rest.len() == 0 {
        assert(all =~= first);
        assert(old_side(all) =~= old_side(first) + old_side(rest));
        assert(new_side(all) =~= new_side(first) + new_side(rest));
    } else {
        law_sides_are_shown_line_by_line(first, op, rest.drop_last());
        assert(all.drop_last() =~= first + rest.drop_last());
        assert(all.last() == rest.last());
        assert(old_side(all) =~= old_side(first) + old_side(rest));
        assert(new_side(all) =~= new_side(first) + new_side(rest));
    }
}

/// A hunk that shows no old lines, or that is for a file to be created, puts
/// its new lines behind its stated line, or behind the last one where the
/// file is shorter. Every other line stays as it is, and the new ones end in
/// the style of the file.
pub proof fn law_insertions_change_nothing_else(
    target: Seq<LineView>,
    hunk: HunkView,
    style: LineEnding,
    creation: bool,
    at: int,
)
    requires
        creation || old_side(hunk.ops).len() == 0,
        at == if hunk.old_start <= target.len() {
            hunk.old_start as int
        } else {
            target.len() as int
        },
    ensures
        applied(target, hunk, style, creation) matches Some(after) && {
            let added = new_side(hunk.ops);
            &&& after.len() == target.len() + added.len()
            &&& after.take(at) == target.take(at)
            &&& line_texts(after.subrange(at, at + added.len())) == added
            &&& forall|k: int|
                at <= k < at + added.len() ==> (#[trigger] after[k]).ending == style
            &&& after.skip(at + added.len()) == target.skip(at)
        },
{
    let added = new_side(hunk.ops);
    let after = applied(target, hunk, style, creation).unwrap();
    let fresh = fresh_lines(added, style);
    assert(after.take(at) =~= target.take(at));
    assert(after.subrange(at, at + added.len()) =~= fresh);
    assert(line_texts(fresh) =~= added);
    assert forall|k: int| at <= k < at + added.len() implies (#[trigger] after[k]).ending == style by {
        assert(after[k] == fresh[k - at]);
    }
    assert(after.skip(at + added.len()) =~= target.skip(at));
}

/// In what a hunk puts in place of its old lines, a context line is the very
/// line of the file, ending and all, and an added line ends in the style of
/// the file.
pub proof fn law_context_stays_and_additions_take_the_style(
    ops: Seq<OpView>,
    target: Seq<LineView>,
    base: int,
    style: LineEnding,
    i: int,
)
    requires
        0 <= i < ops.len(),
    ensures
        replaced(ops, target, base, style).len() == new_side(ops).len(),
        new_side(ops.take(i)).len() <= new_side(ops).len(),
        ops[i] is Context ==> new_side(ops.take(i)).len() < new_side(ops).len() && replaced(
            ops,
            target,
            base,
            style,
        )[new_side(ops.take(i)).len() as int] == target[base + old_side(ops.take(i)).len()],
        ops[i] matches OpView::Add(s) ==> new_side(ops.take(i)).len() < new_side(ops).len()
            && replaced(ops, target, base, style)[new_side(ops.take(i)).len() as int] == (LineView {
            text: s,
            ending: style,
        }),
    decreases ops.len(),
{
    lemma_replaced_len(ops, target, base, style);
    let head = ops.drop_last();
    lemma_replaced_len(head, target, base, style);
    if i < head.len() {
        law_context_stays_and_additions_take_the_style(head, target, base, style, i);
        assert(head.take(i) =~= ops.take(i));
        assert(head[i] == ops[i]);
    } else {
        assert(ops.take(i) =~= head);
    }
}

proof fn lemma_replaced_len(
    ops: Seq<OpView>,
    target: Seq<LineView>,
    base: int,
    style: LineEnding,
)
    ensures
        replaced(ops, target, base, style).len() == new_side(ops).len(),
    decreases ops.len(),
{
    if ops.len() > 0 {
        lemma_replaced_len(ops.drop_last(), target, base, style);
    }
}

/// Whether the lines `expected` stand neither `away` lines in front of `start`
/// nor `away` lines behind it.
pub open spec fn misses(
    target: Seq<LineView>,
    expected: Seq<Seq<char>>,
    start: int,
    away: int,
) -> bool {
    !fits_at(target, expected, start - away) && !fits_at(target, expected, start + away)
}

/// A hunk whose old lines stand at the stated line is placed there; of two
/// places equally far from it, and none nearer, the earlier one is taken; and
/// none more than a hundred lines away is.
pub proof fn law_earlier_of_two_places(
    target: Seq<LineView>,
    expected: Seq<Seq<char>>,
    start: int,
    away: int,
)
    requires
        0 <= away <= 100,
        forall|d: int| 0 <= d < away ==> #[trigger] misses(target, expected, start, d),
    ensures
        fits_at(target, expected, start - away) ==> nearest_fit(target, expected, start, 0) == Some(
            start - away,
        ),
        !fits_at(target, expected, start - away) && fits_at(target, expected, start + away)
            ==> nearest_fit(target, expected, start, 0) == Some(start + away),
        nearest_fit(target, expected, start, 0) matches Some(line) ==> fits_at(
            target,
            expected,
            line,
        ) && start - 100 <= line <= start + 100,
{
    lemma_nearest_is_near(target, expected, start, 0);
    lemma_search_outwards(target, expected, start, away, 0);
}

proof fn lemma_search_outwards(
    target: Seq<LineView>,
    expected: Seq<Seq<char>>,
    start: int,
    away: int,
    from: int,
)
    requires
        0 <= from <= away <= MAX_DRIFT,
        forall|d: int| 0 <= d < away ==> #[trigger] misses(target, expected, start, d),
    ensures
        nearest_fit(target, expected, start, from) == nearest_fit(target, expected, start, away),
    decreases away - from,
{
    if from < away {
        assert(misses(target, expected, start, from));
        lemma_search_outwards(target, expected, start, away, from + 1);
    }
}

/// The lines of a patched file are written one after the other, each with its
/// own ending, or in the style of the file where it has none.
pub proof fn law_lines_are_written_in_order(
    first: Seq<LineView>,
    line: LineView,
    rest: Seq<LineView>,
    style: LineEnding,
)
    ensures
        terminated_text(first + rest, style) == terminated_text(first, style) + terminated_text(
            rest,
            style,
        ),
        terminated_text(seq![line], style) == line.text + (if line.ending == LineEnding::Missing {
            style.chars()
        } else {
            line.ending.chars()
        }),
        LineEnding::Lf.chars() == seq!['\n'],
        LineEnding::CrLf.chars() == seq!['\r', '\n'],
{
    let one = seq![line];
    assert(one.drop_last() =~= Seq::<LineView>::empty());
    assert(terminated_text(one.drop_last(), style) =~= Seq::<char>::empty());
    assert(terminated_text(one, style) =~= line.text + ending_or(line.ending, style).chars());
    lemma_terminated_in_order(first, rest, style);
}

proof fn lemma_terminated_in_order(first: Seq<LineView>, rest: Seq<LineView>, style: LineEnding)
    ensures
        terminated_text(first + rest, style) == terminated_text(first, style) + terminated_text(
            rest,
            style,
        ),
    decreases rest.len(),
{
    let all = first + rest;
    let front = terminated_text(first, style);
    if rest.len() == 0 {
        assert(all =~= first);
        assert(front + Seq::<char>::empty() =~= front);
    } else {
        lemma_terminated_in_order(first, rest.drop_last(), style);
        assert(all.drop_last() =~= first + rest.drop_last());
        assert(all.last() == rest.last());
        let middle = terminated_text(rest.drop_last(), style);
        let text = rest.last().text;
        let end = ending_or(rest.last().ending, style).chars();
        assert(terminated_text(all, style) == (front + middle) + text + end);
        assert((front + middle) + text + end =~= front + (middle + text + end));
    }
}

/// A patched file is its lines; only the ending of the last one depends on
/// whether the file ends in a newline. Where nothing is left but an empty
/// line, the file is empty.
pub proof fn law_final_newline_is_all_that_differs(
    front: Seq<LineView>,
    last: LineView,
    style: LineEnding,
)
    ensures
        front.len() > 0 || last.text.len() > 0 ==> rendered(front.push(last), style, true)
            == terminated_text(front, style) + last.text + (if last.ending == LineEnding::Missing {
            style.chars()
        } else {
            last.ending.chars()
        }),
        front.len() > 0 || last.text.len() > 0 ==> rendered(front.push(last), style, false)
            == terminated_text(front, style) + last.text,
        rendered(Seq::empty(), style, true) == Seq::<char>::empty(),
        rendered(Seq::empty(), style, false) == Seq::<char>::empty(),
        last.text.len() == 0 ==> rendered(seq![last], style, true) == Seq::<char>::empty()
            && rendered(seq![last], style, false) == Seq::<char>::empty(),
{
    let lines = front.push(last);
    assert(lines.drop_last() =~= front);
    assert(lines.last() == last);
}

/// The newline style of a text is that of its first line feed, and a plain
/// line feed where it has none.
pub proof fn law_newline_style_is_the_first_one(original: Seq<char>, p: int)
    ensures
        0 <= p < original.len() && original[p] == '\n' && (forall|k: int|
            0 <= k < p ==> #[trigger] original[k] != '\n') ==> newline_style(
            text::split_lines(original),
        ) == if p > 0 && original[p - 1] == '\r' {
            LineEnding::CrLf
        } else {
            LineEnding::Lf
        },
        !original.contains('\n') ==> newline_style(text::split_lines(original)) == LineEnding::Lf,
{
    text::lemma_position_from(original, '\n', 0);
    let end = text::position_from(original, '\n', 0);
    if end < original.len() {
        assert(original[end] == '\n');
        assert(original.contains('\n'));
        if 0 <= p < original.len() && original[p] == '\n' && (forall|k: int|
            0 <= k < p ==> #[trigger] original[k] != '\n') {
            assert(end == p) by {
                if end < p {
                    assert(original[end] != '\n');
                }
            }
            let raw = original.take(end);
            if p > 0 {
                assert(raw.last() == original[p - 1]);
            }
        }
    }
}

/// A file that is not there is patched only where it is to be created, and
/// then from nothing; one that is there is patched as the text that its bytes
/// write; and one that is no text, or cannot be read, is not patched.
pub proof fn law_what_a_section_is_applied_to(
    file: FilePatchView,
    content: TargetContent,
    after: Seq<char>,
)
    ensures
        content is Absent && !file.creation ==> staged(file, content) is Err,
        content is Unreadable ==> staged(file, content) is Err,
        content is Absent && file.creation && patched_text(Seq::empty(), file) == Ok::<
            Seq<char>,
            Seq<char>,
        >(after) ==> staged(file, content) == Ok::<Seq<u8>, Seq<char>>(
            vstd::utf8::encode_utf8(after),
        ),
        content matches TargetContent::Bytes(bytes) ==> (staged(file, content) is Ok
            ==> vstd::utf8::valid_utf8(bytes@)),
        forall|original: Seq<char>| #[trigger]
            patched_text(original, file) == Ok::<Seq<char>, Seq<char>>(after) ==> (content
                matches TargetContent::Bytes(bytes) ==> bytes@ == vstd::utf8::encode_utf8(original)
                ==> staged(file, content) == Ok::<Seq<u8>, Seq<char>>(
                vstd::utf8::encode_utf8(after),
            )),
{
    assert forall|original: Seq<char>| #[trigger]
        patched_text(original, file) == Ok::<Seq<char>, Seq<char>>(after) implies (content
        matches TargetContent::Bytes(bytes) ==> bytes@ == vstd::utf8::encode_utf8(original)
        ==> staged(file, content) == Ok::<Seq<u8>, Seq<char>>(vstd::utf8::encode_utf8(after))) by {
        vstd::utf8::encode_utf8_valid_utf8(original);
        vstd::utf8::encode_utf8_decode_utf8(original);
    }
}

/// What is planned for a target is what the last write to it leaves, and
/// nothing where no write is planned for it.
pub proof fn law_last_planned_write_counts(writes: Seq<PlannedWrite>, target: PathView)
    ensures
        pending(writes, target) is None <==> forall|m: int|
            0 <= m < writes.len() ==> (#[trigger] writes[m]).target@ != target,
        forall|i: int|
            0 <= i < writes.len() && (#[trigger] writes[i]).target@ == target && (forall|m: int|
                i < m < writes.len() ==> (#[trigger] writes[m]).target@ != target) ==> pending(
                writes,
                target,
            ) == Some(writes[i].bytes@),
    decreases writes.len(),
{
    if writes.len() > 0 && writes.last().target@ != target {
        let front = writes.drop_last();
        law_last_planned_write_counts(front, target);
        assert forall|m: int| 0 <= m < front.len() implies #[trigger] front[m] == writes[m] by {}
        if pending(writes, target) is Some {
            let m = choose|m: int| 0 <= m < front.len() && (#[trigger] front[m]).target@ == target;
            assert(writes[m].target@ == target);
        } else {
            assert forall|m: int| 0 <= m < writes.len() implies (#[trigger] writes[m]).target@
                != target by {
                if m < front.len() {
                    assert(front[m].target@ != target);
                }
            }
        }
    } else if writes.len() > 0 {
        assert(writes[writes.len() - 1].target@ == target);
    }
    assert forall|i: int|
        0 <= i < writes.len() && (#[trigger] writes[i]).target@ == target && (forall|m: int|
            i < m < writes.len() ==> (#[trigger] writes[m]).target@ != target) implies pending(
        writes,
        target,
    ) == Some(writes[i].bytes@) by {
        lemma_pending(writes, i);
    }
}

/// A section whose target no earlier section writes is applied to what is
/// read there.
pub proof fn law_untouched_targets_are_read<
    L: Fn(&FullPath) -> Located,
    D: Fn(&FullPath) -> TargetContent,
>(
    ctx: WorkspaceContext,
    presentation: PathPresentation,
    locate: L,
    read: D,
    files: Seq<FilePatchView>,
    writes: Seq<PlannedWrite>,
    j: int,
) -> (found: (FullPath, TargetContent))
    requires
        carry_out(ctx, presentation, locate, read, files, writes),
        0 <= j < writes.len(),
        forall|m: int| 0 <= m < j ==> (#[trigger] writes[m]).target@ != writes[j].target@,
    ensures
        found.0@ == writes[j].target@,
        call_ensures(read, (&found.0,), found.1),
        staged(files[j], found.1) == Ok::<Seq<u8>, Seq<char>>(writes[j].bytes@),
{
    let before = writes.take(j);
    let target = writes[j].target@;
    assert(carries_out(ctx, presentation, locate, read, before, files[j], writes[j]));
    law_last_planned_write_counts(before, target);
    assert forall|m: int| 0 <= m < before.len() implies (#[trigger] before[m]).target@ != target by {
        assert(before[m] == writes[m]);
    }
    let (at, content) = choose|at: FullPath, content: TargetContent|
        at@ == target && #[trigger] call_ensures(read, (&at,), content) && staged(files[j], content)
            == Ok::<Seq<u8>, Seq<char>>(writes[j].bytes@);
    (at, content)
}

/// The conventional `a/` or `b/` in front of a path is taken off once, and
/// nothing else is.
pub proof fn law_side_is_taken_off(path: Seq<char>)
    ensures
        without_side(seq!['a', '/'] + path) == path,
        without_side(seq!['b', '/'] + path) == path,
        !(path.len() >= 2 && (path[0] == 'a' || path[0] == 'b') && path[1] == '/') ==> without_side(
            path,
        ) == path,
{
    reveal_strlit("a/");
    reveal_strlit("b/");
    let a = seq!['a', '/'] + path;
    let b = seq!['b', '/'] + path;
    assert(a.subrange(0, 2) =~= "a/"@);
    assert(a.skip(2) =~= path);
    assert(b.subrange(0, 2) =~= "b/"@);
    assert(b.skip(2) =~= path);
    if path.len() >= 2 {
        assert(path.subrange(0, 2)[0] == path[0]);
        assert(path.subrange(0, 2)[1] == path[1]);
    }
}

/// A header names the path between quotes, or else the one in front of a tab,
/// whatever white space stands around.
pub proof fn law_headers_name_paths(raw: Seq<char>, core: Seq<char>, path: Seq<char>)
    requires
        text::is_core(raw, core),
    ensures
        core == seq!['"'] + path + seq!['"'] ==> unquoted(raw) == path,
        core == path && !path.contains('\t') && !(path.len() >= 2 && path[0] == '"' && path.last()
            == '"') ==> unquoted(raw) == path,
        core.len() > path.len() && core.take(path.len() as int) == path && core[path.len() as int]
            == '\t' && !path.contains('\t') && !(core[0] == '"' && core.last() == '"') ==> unquoted(
            raw,
        ) == path,
{
    text::law_core_is_unique(raw, core);
    if core == seq!['"'] + path + seq!['"'] {
        assert(core.subrange(1, core.len() - 1) =~= path);
    }
    text::lemma_position_from(core, '\t', 0);
    let tab = text::position_from(core, '\t', 0);
    if core == path && !path.contains('\t') {
        if tab < core.len() {
            assert(core[tab] == '\t');
        }
        assert(core.take(tab) =~= path);
    }
    if core.len() > path.len() && core.take(path.len() as int) == path && core[path.len() as int]
        == '\t' && !path.contains('\t') {
        assert(tab == path.len()) by {
            if tab < path.len() {
                assert(core.take(path.len() as int)[tab] == core[tab]);
                assert(path[tab] == '\t');
            }
        }
        if core.len() == 1 {
            assert(core.take(tab) =~= path);
        }
    }
}

/// A patch with a rename, a copy or a binary part is refused, and so is a
/// blank one; any other is taken for what it says.
pub proof fn law_only_plain_patches_are_taken(patch: Seq<char>)
    ensures
        (forall|i: int| 0 <= i < patch.len() ==> text::is_white_space(#[trigger] patch[i]))
            ==> requested_files(patch) is Err,
        text::occurs(patch, "rename from"@) || text::occurs(patch, "copy from"@) || text::occurs(
            patch,
            "GIT binary patch"@,
        ) ==> requested_files(patch) is Err,
        (exists|i: int| 0 <= i < patch.len() && !text::is_white_space(#[trigger] patch[i]))
            && !text::occurs(patch, "rename from"@) && !text::occurs(patch, "copy from"@)
            && !text::occurs(patch, "GIT binary patch"@) ==> requested_files(patch) == parsed_patch(
            patch,
        ),
{
}

// ---------------------------------------------------------------------------
// What is written is read back
// ---------------------------------------------------------------------------

/// How a line of a hunk body is written.
pub open spec fn written_op(op: OpView) -> Seq<char> {
    match op {
        OpView::Context(s) => seq![' '] + s,
        OpView::Remove(s) => seq!['-'] + s,
        OpView::Add(s) => seq!['+'] + s,
    }
}

/// Whether a line of a hunk body can be told from the header of a file
/// section when it is written.
pub open spec fn can_be_written(op: OpView) -> bool {
    !text::begins_with(written_op(op), "--- "@)
}

/// Whether the lines from `i` on write a hunk body.
pub open spec fn writes_body(lines: Seq<LineView>, i: int, ops: Seq<OpView>) -> bool {
    &&& 0 <= i
    &&& i + ops.len() <= lines.len()
    &&& forall|k: int|
        0 <= k < ops.len() ==> lines[i + k].text == written_op(#[trigger] ops[k])
            && can_be_written(ops[k])
}

/// Whether no hunk body goes on at line `end`: there is none, or it is a
/// header.
pub open spec fn body_stops(lines: Seq<LineView>, end: int) -> bool {
    end == lines.len() || text::begins_with(lines[end].text, "@@"@) || text::begins_with(
        lines[end].text,
        "--- "@,
    ) || text::begins_with(lines[end].text, "diff --git"@) || text::begins_with(
        lines[end].text,
        "Index: "@,
    )
}

/// A written hunk body is read back as it is: every line of it, in order, and
/// nothing behind it.
pub proof fn law_bodies_are_read_back(lines: Seq<LineView>, i: int, ops: Seq<OpView>)
    requires
        writes_body(lines, i, ops),
        body_stops(lines, i + ops.len()),
    ensures
        body_ops(lines, i) == ops,
        body_end(lines, i) == i + ops.len(),
    decreases ops.len(),
{
    if ops.len() > 0 {
        let rest = ops.skip(1);
        lemma_op_is_read(ops[0]);
        assert(lines[i + 0].text == written_op(ops[0]));
        assert forall|k: int| 0 <= k < rest.len() implies lines[i + 1 + k].text == written_op(
            #[trigger] rest[k],
        ) && can_be_written(rest[k]) by {
            assert(rest[k] == ops[k + 1]);
            assert(lines[i + (k + 1)].text == written_op(ops[k + 1]));
        }
        law_bodies_are_read_back(lines, i + 1, rest);
        assert(seq![ops[0]] + rest =~= ops);
    } else {
        assert(ops =~= Seq::<OpView>::empty());
    }
}

proof fn lemma_op_is_read(op: OpView)
    requires
        can_be_written(op),
    ensures
        body_line(written_op(op)) == BodyLine::Op(op),
{
    reveal_strlit("@@");
    reveal_strlit("--- ");
    reveal_strlit("diff --git");
    reveal_strlit("Index: ");
    let written = written_op(op);
    lemma_first_char(written, "@@"@);
    lemma_first_char(written, "diff --git"@);
    lemma_first_char(written, "Index: "@);
    match op {
        OpView::Context(s) => {
            assert(written.skip(1) =~= s);
        },
        OpView::Remove(s) => {
            assert(written.skip(1) =~= s);
        },
        OpView::Add(s) => {
            assert(written.skip(1) =~= s);
        },
    }
}

proof fn lemma_first_char(s: Seq<char>, prefix: Seq<char>)
    requires
        prefix.len() > 0,
    ensures
        text::begins_with(s, prefix) ==> s.len() > 0 && s[0] == prefix[0],
{
    if text::begins_with(s, prefix) {
        assert(s.subrange(0, prefix.len() as int)[0] == s[0]);
    }
}

/// An empty line in a hunk body is an empty context line, and a remark says
/// nothing.
pub proof fn law_empty_lines_and_remarks(lines: Seq<LineView>, i: int)
    requires
        0 <= i < lines.len(),
    ensures
        lines[i].text.len() == 0 ==> body_ops(lines, i) == seq![OpView::Context(Seq::empty())]
            + body_ops(lines, i + 1),
        lines[i].text.len() > 0 && lines[i].text[0] == '\\' ==> body_ops(lines, i) == body_ops(
            lines,
            i + 1,
        ),
{
    reveal_strlit("@@");
    reveal_strlit("--- ");
    reveal_strlit("diff --git");
    reveal_strlit("Index: ");
    lemma_first_char(lines[i].text, "@@"@);
    lemma_first_char(lines[i].text, "--- "@);
    lemma_first_char(lines[i].text, "diff --git"@);
    lemma_first_char(lines[i].text, "Index: "@);
}

/// How the header of a hunk is written whose old lines begin at `start` and
/// are `count`; what follows the old side is up to the writer.
pub open spec fn written_header(start: u64, count: u64, tail: Seq<char>) -> Seq<char> {
    "@@ -"@ + text::decimal(start as nat) + seq![','] + text::decimal(count as nat) + seq![' '] + tail
}

/// The old side of a hunk header may leave the length out.
pub open spec fn short_header(start: u64, tail: Seq<char>) -> Seq<char> {
    "@@ -"@ + text::decimal(start as nat) + seq![' '] + tail
}

proof fn lemma_token_end_at(s: Seq<char>, from: int, end: int)
    requires
        0 <= from <= end < s.len(),
        text::is_white_space(s[end]),
        forall|k: int| from <= k < end ==> !text::is_white_space(#[trigger] s[k]),
    ensures
        token_end(s, from) == end,
    decreases end - from,
{
    if from < end {
        assert(!text::is_white_space(s[from]));
        lemma_token_end_at(s, from + 1, end);
    }
}

proof fn lemma_digit_is_plain(c: char)
    requires
        text::is_digit(c),
    ensures
        !text::is_white_space(c),
        c != '-',
        c != ',',
{
}

proof fn lemma_old_side_of_header(numbers: Seq<char>, tail: Seq<char>)
    requires
        forall|k: int| 0 <= k < numbers.len() ==> !text::is_white_space(#[trigger] numbers[k]),
    ensures
        text::begins_with("@@ -"@ + numbers + seq![' '] + tail, "@@ -"@),
        text::begins_with("@@ -"@ + numbers + seq![' '] + tail, "@@"@),
        old_range("@@ -"@ + numbers + seq![' '] + tail) == seq!['-'] + numbers,
{
    reveal_strlit("@@ -");
    reveal_strlit("@@");
    let header = "@@ -"@ + numbers + seq![' '] + tail;
    let end: int = (4 + numbers.len()) as int;
    assert(header.subrange(0, 4) =~= "@@ -"@);
    assert(header.subrange(0, 2) =~= "@@"@);
    assert(header[3] == '-');
    assert(header[end] == ' ');
    assert forall|k: int| 3 <= k < end implies !text::is_white_space(#[trigger] header[k]) by {
        if k > 3 {
            assert(header[k] == numbers[k - 4]);
        }
    }
    lemma_token_end_at(header, 3, end);
    assert(header.subrange(3, end) =~= seq!['-'] + numbers);
}

proof fn lemma_header_is_read(start: u64, count: u64, tail: Seq<char>)
    ensures
        text::begins_with(written_header(start, count, tail), "@@ -"@),
        text::begins_with(written_header(start, count, tail), "@@"@),
        range_start_text(old_range(written_header(start, count, tail))) == text::decimal(
            start as nat,
        ),
        range_length(old_range(written_header(start, count, tail))) == Some(count),
{
    let d = text::decimal(start as nat);
    let c = text::decimal(count as nat);
    let numbers = d + seq![','] + c;
    text::lemma_decimal_digits(start as nat);
    text::lemma_decimal_digits(count as nat);
    assert forall|k: int| 0 <= k < numbers.len() implies !text::is_white_space(
        #[trigger] numbers[k],
    ) by {
        if k < d.len() {
            assert(numbers[k] == d[k]);
            lemma_digit_is_plain(d[k]);
        } else if k > d.len() {
            assert(numbers[k] == c[k - d.len() - 1]);
            lemma_digit_is_plain(c[k - d.len() - 1]);
        }
    }
    lemma_old_side_of_header(numbers, tail);
    assert(written_header(start, count, tail) =~= "@@ -"@ + numbers + seq![' '] + tail);
    lemma_range_is_read(d, c);
    text::law_decimal_round_trip(count);
}

proof fn lemma_range_is_read(d: Seq<char>, c: Seq<char>)
    requires
        d.len() > 0,
        text::all_digits(d),
    ensures
        range_start_text(seq!['-'] + (d + seq![','] + c)) == d,
        range_length(seq!['-'] + (d + seq![','] + c)) == text::parsed_u64(c),
{
    let numbers = d + seq![','] + c;
    let range = seq!['-'] + numbers;
    assert(numbers[0] == d[0]);
    lemma_digit_is_plain(d[0]);
    lemma_first_char(numbers, seq!['-']);
    lemma_marker_is_taken_off(seq!['-'], numbers);
    lemma_comma_at(d, c);
    assert(numbers.take(d.len() as int) =~= d);
    assert(range.skip(1) =~= numbers);
    assert(numbers.skip(d.len() as int + 1) =~= c);
}

proof fn lemma_short_header_is_read(start: u64, tail: Seq<char>)
    ensures
        text::begins_with(short_header(start, tail), "@@ -"@),
        range_start_text(old_range(short_header(start, tail))) == text::decimal(start as nat),
        range_length(old_range(short_header(start, tail))) is None,
{
    let d = text::decimal(start as nat);
    text::lemma_decimal_digits(start as nat);
    assert forall|k: int| 0 <= k < d.len() implies !text::is_white_space(#[trigger] d[k]) by {
        lemma_digit_is_plain(d[k]);
    }
    lemma_old_side_of_header(d, tail);
    let range = seq!['-'] + d;
    lemma_digit_is_plain(d[0]);
    lemma_first_char(d, seq!['-']);
    lemma_marker_is_taken_off(seq!['-'], d);
    lemma_no_comma(d);
    assert(d.take(d.len() as int) =~= d);
    assert(range.skip(1) =~= d);
}

proof fn lemma_marker_is_taken_off(marker: Seq<char>, rest: Seq<char>)
    requires
        marker.len() > 0,
        !text::begins_with(rest, marker),
    ensures
        after_repeated(marker + rest, marker) == rest,
{
    let line = marker + rest;
    assert(line.subrange(0, marker.len() as int) =~= marker);
    assert(line.skip(marker.len() as int) =~= rest);
    assert(after_repeated(rest, marker) == rest);
}

proof fn lemma_comma_at(d: Seq<char>, c: Seq<char>)
    requires
        text::all_digits(d),
    ensures
        text::position_from(d + seq![','] + c, ',', 0) == d.len(),
{
    let number = d + seq![','] + c;
    text::lemma_position_from(number, ',', 0);
    let at = text::position_from(number, ',', 0);
    assert(number[d.len() as int] == ',');
    if at < d.len() {
        assert(number[at] == d[at]);
        lemma_digit_is_plain(d[at]);
    }
}

proof fn lemma_no_comma(d: Seq<char>)
    requires
        text::all_digits(d),
    ensures
        text::position_from(d, ',', 0) == d.len(),
{
    text::lemma_position_from(d, ',', 0);
    let at = text::position_from(d, ',', 0);
    if at < d.len() {
        lemma_digit_is_plain(d[at]);
    }
}

/// A written hunk is read back: its position and its whole body. Where the
/// header declares another number of old lines than the body shows, the hunk
/// is refused; where it declares none, the body alone counts.
pub proof fn law_hunks_are_read_back(
    lines: Seq<LineView>,
    i: int,
    start: u64,
    count: u64,
    tail: Seq<char>,
    ops: Seq<OpView>,
)
    requires
        0 <= i < lines.len(),
        ops.len() > 0,
        writes_body(lines, i + 1, ops),
        body_stops(lines, i + 1 + ops.len()),
    ensures
        lines[i].text == written_header(start, count, tail) && start > 0 ==> parsed_hunk(lines, i)
            == if count == old_side(ops).len() {
            Ok::<HunkView, Seq<char>>(HunkView { old_start: start, ops })
        } else {
            Err(
                "Malformed patch: '@@' header declares "@ + text::decimal(count as nat)
                    + " old-side lines but body has "@ + text::decimal(old_side(ops).len()) + "."@,
            )
        },
        lines[i].text == short_header(start, tail) && start > 0 ==> parsed_hunk(lines, i) == Ok::<
            HunkView,
            Seq<char>,
        >(HunkView { old_start: start, ops }),
        lines[i].text == written_header(0, 0, tail) ==> (parsed_hunk(lines, i) is Ok <==> forall|
            k: int,
        |
            0 <= k < ops.len() ==> #[trigger] ops[k] is Add),
        lines[i].text == written_header(0, 0, tail) ==> (parsed_hunk(lines, i) matches Ok(hunk)
            ==> hunk == (HunkView { old_start: 1, ops })),
        lines[i].text == short_header(0, tail) ==> parsed_hunk(lines, i) is Err,
{
    law_bodies_are_read_back(lines, i + 1, ops);
    lemma_header_is_read(start, count, tail);
    lemma_header_is_read(0, 0, tail);
    lemma_short_header_is_read(start, tail);
    lemma_short_header_is_read(0, tail);
    text::law_decimal_round_trip(start);
    text::law_decimal_round_trip(0);
}

/// Whether the lines from `i` on write hunks, one after the other.
pub open spec fn writes_hunks(lines: Seq<LineView>, i: int, hunks: Seq<HunkView>) -> bool
    decreases hunks.len(),
{
    if hunks.len() == 0 {
        0 <= i <= lines.len()
    } else {
        &&& 0 <= i < lines.len()
        &&& hunks[0].ops.len() > 0
        &&& exists|tail: Seq<char>|
            lines[i].text == #[trigger] written_header(
                hunks[0].old_start,
                old_side(hunks[0].ops).len() as u64,
                tail,
            )
        &&& old_side(hunks[0].ops).len() <= u64::MAX
        &&& hunks[0].old_start > 0
        &&& writes_body(lines, i + 1, hunks[0].ops)
        &&& writes_hunks(lines, i + 1 + hunks[0].ops.len(), hunks.skip(1))
    }
}

/// How many lines hunks are written in.
pub open spec fn written_len(hunks: Seq<HunkView>) -> int
    decreases hunks.len(),
{
    if hunks.len() == 0 {
        0
    } else {
        1 + hunks[0].ops.len() + written_len(hunks.skip(1))
    }
}

/// Written hunks are read back, all of them and in order, up to the end of
/// the patch or the next file section.
pub proof fn law_runs_of_hunks_are_read_back(
    lines: Seq<LineView>,
    i: int,
    hunks: Seq<HunkView>,
)
    requires
        writes_hunks(lines, i, hunks),
        i + written_len(hunks) == lines.len() || (0 <= i + written_len(hunks) < lines.len()
            && text::begins_with(lines[i + written_len(hunks)].text, "--- "@)),
    ensures
        parsed_hunks(lines, i) == Ok::<(Seq<HunkView>, int), Seq<char>>(
            (hunks, i + written_len(hunks)),
        ),
    decreases hunks.len(),
{
    reveal_strlit("--- ");
    reveal_strlit("@@ -");
    let end = i + written_len(hunks);
    if hunks.len() == 0 {
        if end < lines.len() {
            lemma_first_char(lines[end].text, "--- "@);
            lemma_first_char(lines[end].text, "@@ -"@);
        }
        assert(hunks =~= Seq::<HunkView>::empty());
    } else {
        let hunk = hunks[0];
        let rest = hunks.skip(1);
        let next = i + 1 + hunk.ops.len();
        let count = old_side(hunk.ops).len() as u64;
        let tail = choose|tail: Seq<char>|
            lines[i].text == #[trigger] written_header(hunk.old_start, count, tail);
        lemma_header_is_read(hunk.old_start, count, tail);
        assert(writes_hunks(lines, next, rest));
        if rest.len() > 0 {
            let more = choose|tail: Seq<char>|
                lines[next].text == #[trigger] written_header(
                    rest[0].old_start,
                    old_side(rest[0].ops).len() as u64,
                    tail,
                );
            lemma_header_is_read(rest[0].old_start, old_side(rest[0].ops).len() as u64, more);
        } else {
            assert(written_len(rest) == 0);
        }
        assert(body_stops(lines, next));
        law_hunks_are_read_back(lines, i, hunk.old_start, count, tail, hunk.ops);
        law_bodies_are_read_back(lines, i + 1, hunk.ops);
        law_runs_of_hunks_are_read_back(lines, next, rest);
        assert(seq![hunk] + rest =~= hunks);
    }
}

/// Whether a path can stand in a header as it is: no white space around it,
/// no tab in it, no quotes around it, and no second marker in front.
#[verifier::opaque]
pub open spec fn plain_path(path: Seq<char>, marker: Seq<char>) -> bool {
    &&& text::is_core(path, path)
    &&& !path.contains('\t')
    &&& !(path.len() >= 2 && path[0] == '"' && path.last() == '"')
    &&& !text::begins_with(path, marker)
}

proof fn lemma_plain_is_unquoted(path: Seq<char>, marker: Seq<char>)
    requires
        plain_path(path, marker),
    ensures
        text::trimmed(path) == path,
        unquoted(path) == path,
{
    reveal(plain_path);
    text::law_core_is_unique(path, path);
    text::lemma_position_from(path, '\t', 0);
    let tab = text::position_from(path, '\t', 0);
    assert(tab == path.len()) by {
        if tab < path.len() {
            assert(path[tab] == '\t');
            assert(path.contains('\t'));
        }
    }
    assert(path.take(tab) =~= path);
}

/// A header names the path that is written behind its marker.
pub proof fn law_header_paths_are_read_back(path: Seq<char>, marker: Seq<char>)
    requires
        plain_path(path, marker),
        marker.len() > 0,
    ensures
        header_path(marker + path, marker) == path,
{
    assert(after_repeated(marker + path, marker) == path) by {
        reveal(plain_path);
        lemma_marker_is_taken_off(marker, path);
    }
    lemma_plain_is_unquoted(path, marker);
}

/// Whether the lines from `i` on write a file section.
pub open spec fn writes_file(lines: Seq<LineView>, i: int, file: FilePatchView) -> bool {
    &&& 0 <= i
    &&& i + 2 <= lines.len()
    &&& lines[i].text == "--- "@ + file.old_path
    &&& lines[i + 1].text == "+++ "@ + file.new_path
    &&& plain_path(file.old_path, "--- "@)
    &&& plain_path(file.new_path, "+++ "@)
    &&& file.creation <==> without_side(file.old_path) == "/dev/null"@
    &&& file.creation || without_side(file.new_path) != "/dev/null"@
    &&& file.hunks.len() > 0
    &&& writes_hunks(lines, i + 2, file.hunks)
}

/// Whether the lines from `i` on write file sections, one after the other, and
/// nothing else.
pub open spec fn writes_files(lines: Seq<LineView>, i: int, files: Seq<FilePatchView>) -> bool
    decreases files.len(),
{
    if files.len() == 0 {
        i == lines.len()
    } else {
        &&& writes_file(lines, i, files[0])
        &&& writes_files(lines, i + 2 + written_len(files[0].hunks), files.skip(1))
    }
}

/// A written patch is read back: every file section, every hunk and every
/// line of it, in order.
pub proof fn law_patches_are_read_back(patch: Seq<char>, files: Seq<FilePatchView>)
    requires
        files.len() > 0,
        writes_files(text::split_lines(patch), 0, files),
    ensures
        parsed_patch(patch) == Ok::<Seq<FilePatchView>, Seq<char>>(files),
{
    lemma_files_are_read(text::split_lines(patch), 0, files);
}

proof fn lemma_written_len(hunks: Seq<HunkView>)
    ensures
        written_len(hunks) >= 0,
    decreases hunks.len(),
{
    if hunks.len() > 0 {
        lemma_written_len(hunks.skip(1));
    }
}

proof fn lemma_header_opens(line: Seq<char>, marker: Seq<char>, path: Seq<char>)
    requires
        line == marker + path,
        plain_path(path, marker),
        marker.len() > 0,
    ensures
        text::begins_with(line, marker),
        header_path(line, marker) == path,
{
    assert(line.subrange(0, marker.len() as int) =~= marker);
    law_header_paths_are_read_back(path, marker);
}

proof fn lemma_section_opens(lines: Seq<LineView>, i: int, file: FilePatchView)
    requires
        writes_file(lines, i, file),
    ensures
        text::begins_with(lines[i].text, "--- "@),
        text::begins_with(lines[i + 1].text, "+++ "@),
        header_path(lines[i].text, "--- "@) == file.old_path,
        header_path(lines[i + 1].text, "+++ "@) == file.new_path,
{
    assert("--- "@.len() == 4) by {
        reveal_strlit("--- ");
    }
    assert("+++ "@.len() == 4) by {
        reveal_strlit("+++ ");
    }
    lemma_header_opens(lines[i].text, "--- "@, file.old_path);
    lemma_header_opens(lines[i + 1].text, "+++ "@, file.new_path);
}

/// A written file section is read back: its paths, and all of its hunks, up
/// to the end of the patch or the next section.
pub proof fn law_sections_are_read_back(lines: Seq<LineView>, i: int, file: FilePatchView)
    requires
        writes_file(lines, i, file),
        i + 2 + written_len(file.hunks) == lines.len() || (0 <= i + 2 + written_len(file.hunks)
            < lines.len() && text::begins_with(
            lines[i + 2 + written_len(file.hunks)].text,
            "--- "@,
        )),
    ensures
        parsed_file(lines, i) == Ok::<(FilePatchView, int), Seq<char>>(
            (file, i + 2 + written_len(file.hunks)),
        ),
{
    lemma_section_opens(lines, i, file);
    law_runs_of_hunks_are_read_back(lines, i + 2, file.hunks);
    let end = i + 2 + written_len(file.hunks);
    let made = FilePatchView {
        old_path: file.old_path,
        new_path: file.new_path,
        creation: without_side(file.old_path) == "/dev/null"@,
        hunks: file.hunks,
    };
    assert(made == file);
}

proof fn lemma_section_goes_first(
    lines: Seq<LineView>,
    i: int,
    file: FilePatchView,
    end: int,
    rest: Seq<FilePatchView>,
)
    requires
        0 <= i < lines.len(),
        text::begins_with(lines[i].text, "--- "@),
        parsed_file(lines, i) == Ok::<(FilePatchView, int), Seq<char>>((file, end)),
        parsed_files(lines, end) == Ok::<Seq<FilePatchView>, Seq<char>>(rest),
    ensures
        parsed_files(lines, i) == Ok::<Seq<FilePatchView>, Seq<char>>(seq![file] + rest),
{
}

proof fn lemma_next_section(lines: Seq<LineView>, i: int, files: Seq<FilePatchView>)
    requires
        writes_files(lines, i, files),
    ensures
        i == lines.len() || (0 <= i < lines.len() && text::begins_with(lines[i].text, "--- "@)),
{
    if files.len() > 0 {
        lemma_section_opens(lines, i, files[0]);
    }
}

proof fn lemma_first_and_rest(files: Seq<FilePatchView>)
    requires
        files.len() > 0,
    ensures
        seq![files[0]] + files.skip(1) == files,
{
    assert(seq![files[0]] + files.skip(1) =~= files);
}

proof fn lemma_files_are_read(lines: Seq<LineView>, i: int, files: Seq<FilePatchView>)
    requires
        0 <= i,
        writes_files(lines, i, files),
    ensures
        parsed_files(lines, i) == Ok::<Seq<FilePatchView>, Seq<char>>(files),
    decreases files.len(),
{
    if files.len() == 0 {
        assert(files =~= Seq::<FilePatchView>::empty());
    } else {
        let file = files[0];
        let rest = files.skip(1);
        lemma_written_len(file.hunks);
        let end = i + 2 + written_len(file.hunks);
        assert(text::begins_with(lines[i].text, "--- "@)) by {
            lemma_section_opens(lines, i, file);
        }
        assert(parsed_file(lines, i) == Ok::<(FilePatchView, int), Seq<char>>((file, end))) by {
            lemma_next_section(lines, end, rest);
            law_sections_are_read_back(lines, i, file);
        }
        lemma_files_are_read(lines, end, rest);
        lemma_section_goes_first(lines, i, file, end, rest);
        lemma_first_and_rest(files);
    }
}

/// A planned write goes where the new path of its section leads, without the
/// conventional side in front, and is shown as that place.
pub proof fn law_writes_go_where_the_new_path_leads<
    L: Fn(&FullPath) -> Located,
    D: Fn(&FullPath) -> TargetContent,
>(
    ctx: WorkspaceContext,
    presentation: PathPresentation,
    locate: L,
    read: D,
    files: Seq<FilePatchView>,
    writes: Seq<PlannedWrite>,
    k: int,
) -> (at: FullPath)
    requires
        carry_out(ctx, presentation, locate, read, files, writes),
        0 <= k < writes.len(),
    ensures
        at@ == writes[k].target@,
        exists|given: &str|
            given@ == without_side(files[k].new_path) && #[trigger] ctx.resolver_view().resolves_by(
                Some(given),
                locate,
                Ok(at),
            ),
        writes[k].shown@ == ctx.resolver_view().presented_view(at@, presentation),
{
    assert(carries_out(
        ctx,
        presentation,
        locate,
        read,
        writes.take(k),
        files[k],
        writes[k],
    ));
    choose|at: FullPath|
        at@ == writes[k].target@ && #[trigger] resolves_target(ctx, locate, files[k], Ok(at))
}

/// A patch is refused for a target just where that target does not resolve
/// and those before it do, and for a content just where a section cannot be
/// applied to what is there.
pub proof fn law_refusals_have_their_reason<
    L: Fn(&FullPath) -> Located,
    D: Fn(&FullPath) -> TargetContent,
>(
    ctx: WorkspaceContext,
    presentation: PathPresentation,
    locate: L,
    read: D,
    files: Seq<FilePatchView>,
    refusal: Seq<char>,
)
    requires
        refused_by(ctx, presentation, locate, read, files, refusal),
    ensures
        (exists|k: int, given: &str, reason: ToolError|
            0 <= k < files.len() && given@ == without_side((#[trigger] files[k]).new_path)
                && #[trigger] ctx.resolver_view().resolves_by(Some(given), locate, Err(reason))
                && refusal == "Rejecting patch target '"@ + files[k].new_path + "': "@ + reason.0@)
            || (exists|k: int, target: PathView|
            0 <= k < files.len() && #[trigger] lands_at(ctx, locate, files[k], target) && ((exists|
                bytes: Seq<u8>,
            | #[trigger] staged_on(files[k], bytes) == Err::<Seq<u8>, Seq<char>>(refusal)) || (
            exists|content: TargetContent| #[trigger] staged(files[k], content) == Err::<
                Seq<u8>,
                Seq<char>,
            >(refusal)))),
{
    if exists|k: int, reason: ToolError|
        0 <= k < files.len() && #[trigger] resolves_target(ctx, locate, files[k], Err(reason))
            && refusal == "Rejecting patch target '"@ + files[k].new_path + "': "@ + reason.0@
            && all_land(ctx, locate, files.take(k)) {
        let (k, reason) = choose|k: int, reason: ToolError|
            0 <= k < files.len() && #[trigger] resolves_target(ctx, locate, files[k], Err(reason))
                && refusal == "Rejecting patch target '"@ + files[k].new_path + "': "@ + reason.0@
                && all_land(ctx, locate, files.take(k));
        let given = choose|given: &str|
            given@ == without_side(files[k].new_path) && #[trigger] ctx.resolver_view().resolves_by(
                Some(given),
                locate,
                Err(reason),
            );
        assert(ctx.resolver_view().resolves_by(Some(given), locate, Err(reason)));
    } else {
        let writes = choose|writes: Seq<PlannedWrite>|
            writes.len() < files.len() && #[trigger] carry_out(
                ctx,
                presentation,
                locate,
                read,
                files,
                writes,
            ) && fails_after(ctx, locate, read, writes, files[writes.len() as int], refusal);
        let k = writes.len() as int;
        let target = choose|target: PathView|
            #[trigger] lands_at(ctx, locate, files[k], target) && stages(
                read,
                writes,
                files[k],
                target,
                Err(refusal),
            );
        match pending(writes, target) {
            Some(bytes) => {
                assert(staged_on(files[k], bytes) == Err::<Seq<u8>, Seq<char>>(refusal));
            },
            None => {
                let (at, content) = choose|at: FullPath, content: TargetContent|
                    at@ == target && #[trigger] call_ensures(read, (&at,), content) && staged(
                        files[k],
                        content,
                    ) == Err::<Seq<u8>, Seq<char>>(refusal);
                assert(staged(files[k], content) == Err::<Seq<u8>, Seq<char>>(refusal));
            },
        }
        assert(lands_at(ctx, locate, files[k], target));
    }
}

/// A file section needs both headers, and one faulty hunk or section refuses
/// the patch with its own fault.
pub proof fn law_faults_refuse_the_patch(lines: Seq<LineView>, i: int)
    requires
        0 <= i < lines.len(),
    ensures
        i + 1 == lines.len() ==> parsed_file(lines, i) is Err,
        i + 1 < lines.len() && !text::begins_with(lines[i + 1].text, "+++ "@) ==> parsed_file(
            lines,
            i,
        ) is Err,
        text::begins_with(lines[i].text, "@@ -"@) ==> (parsed_hunk(lines, i) matches Err(fault)
            ==> parsed_hunks(lines, i) == Err::<(Seq<HunkView>, int), Seq<char>>(fault)),
        i + 1 < lines.len() && parsed_hunks(lines, i + 2) is Err ==> parsed_file(lines, i) is Err,
        text::begins_with(lines[i].text, "--- "@) ==> (parsed_file(lines, i) matches Err(fault)
            ==> parsed_files(lines, i) == Err::<Seq<FilePatchView>, Seq<char>>(fault)),
        !text::begins_with(lines[i].text, "--- "@) ==> parsed_files(lines, i) == parsed_files(
            lines,
            i + 1,
        ),
{
}

/// A hunk that follows another is read behind its body, and its fault is that
/// of the whole run.
pub proof fn law_faults_of_later_hunks_count(lines: Seq<LineView>, i: int, hunk: HunkView)
    requires
        0 <= i < lines.len(),
        text::begins_with(lines[i].text, "@@ -"@),
        parsed_hunk(lines, i) == Ok::<HunkView, Seq<char>>(hunk),
    ensures
        parsed_hunks(lines, i) == match parsed_hunks(lines, body_end(lines, i + 1)) {
            Err(fault) => Err::<(Seq<HunkView>, int), Seq<char>>(fault),
            Ok((rest, end)) => Ok((seq![hunk] + rest, end)),
        },
{
    lemma_body_end(lines, i + 1);
}

/// What a parsed patch says is what its parts say, one by one and in order.
pub proof fn law_patch_views_are_the_parts(
    ops: Seq<LineOp>,
    hunks: Seq<Hunk>,
    files: Seq<FilePatch>,
)
    ensures
        op_views(ops).len() == ops.len(),
        forall|i: int|
            0 <= i < ops.len() ==> match ops[i] {
                LineOp::Context(s) => (#[trigger] op_views(ops)[i]) == OpView::Context(s@),
                LineOp::Remove(s) => op_views(ops)[i] == OpView::Remove(s@),
                LineOp::Add(s) => op_views(ops)[i] == OpView::Add(s@),
            },
        hunk_views(hunks).len() == hunks.len(),
        forall|i: int|
            0 <= i < hunks.len() ==> (#[trigger] hunk_views(hunks)[i]).old_start
                == hunks[i].old_start && hunk_views(hunks)[i].ops == op_views(hunks[i].ops@),
        file_views(files).len() == files.len(),
        forall|i: int|
            0 <= i < files.len() ==> {
                let view = #[trigger] file_views(files)[i];
                &&& view.old_path == files[i].old_path@
                &&& view.new_path == files[i].new_path@
                &&& view.creation == files[i].creation
                &&& view.hunks == hunk_views(files[i].hunks@)
            },
{
}

/// A failed write is reported with the place that it was for, in full to a
/// single workspace, and with the reason.
pub proof fn law_failed_writes_tell_place_and_reason(
    resolver: Workspace,
    step: WriteStep,
    path: PathView,
    shown: Seq<char>,
    reason: Seq<char>,
)
    ensures
        failed_path(resolver, PathPresentation::SingleCompatible, path) == text::decoded_text(
            workspace::path_bytes(path, resolver.separator_view()),
        ),
        failed_path(resolver, PathPresentation::RegistryRelative, path) == resolver.presented_view(
            path,
            PathPresentation::RegistryRelative,
        ),
        text::occurs(failed_write_text(step, shown, reason), reason),
        !(step is WriteTemp) ==> text::occurs(failed_write_text(step, shown, reason), shown),
{
    let told = failed_write_text(step, shown, reason);
    let none = Seq::<char>::empty();
    let head = match step {
        WriteStep::CreateDirectory => "Failed to create directory '"@,
        WriteStep::CreateTemp => "Failed to create temp file '"@,
        WriteStep::WriteTemp => "Failed to write temp file: "@,
        WriteStep::Replace => "Failed to replace '"@,
    };
    if step is WriteTemp {
        text::law_occurrences_are_found_anywhere(head, reason, none, none, 0);
        assert(told =~= head + reason + none);
    } else {
        text::law_occurrences_are_found_anywhere(head + shown + "': "@, reason, none, none, 0);
        assert(told =~= (head + shown + "': "@) + reason + none);
        text::law_occurrences_are_found_anywhere(head, shown, "': "@ + reason, none, 0);
        assert(told =~= head + shown + ("': "@ + reason));
    }
}

/// A line that begins with none of the marks of a body ends it.
pub proof fn law_other_lines_end_a_body(lines: Seq<LineView>, i: int)
    requires
        0 <= i < lines.len(),
        lines[i].text.len() > 0,
        lines[i].text[0] != ' ',
        lines[i].text[0] != '+',
        lines[i].text[0] != '-',
        lines[i].text[0] != '\\',
    ensures
        body_ops(lines, i) == Seq::<OpView>::empty(),
        body_end(lines, i) == i,
{
}

/// A place for a hunk is one where the texts of the lines are those that it
/// shows of the old file, the end of the file included.
pub proof fn law_places_are_found_by_their_lines(
    target: Seq<LineView>,
    expected: Seq<Seq<char>>,
    line: int,
)
    ensures
        fits_at(target, expected, line) <==> 1 <= line && line - 1 + expected.len() <= target.len()
            && line_texts(target).subrange(line - 1, line - 1 + expected.len()) == expected,
{
    if 1 <= line && line - 1 + expected.len() <= target.len() {
        let part = line_texts(target).subrange(line - 1, line - 1 + expected.len());
        assert forall|k: int| 0 <= k < expected.len() implies #[trigger] part[k] == target[line - 1
            + k].text by {}
        if fits_at(target, expected, line) {
            assert(part =~= expected);
        } else {
            let k = choose|k: int|
                0 <= k < expected.len() && (#[trigger] target[line - 1 + k]).text != expected[k];
            assert(part[k] != expected[k]);
        }
    }
}

/// A hunk goes to the nearest place: where its old lines stand `away` lines
/// from the stated one, at most a hundred, and nowhere nearer, exactly they
/// are replaced, and of two such places the earlier ones.
pub proof fn law_hunks_go_to_the_nearest_place(
    target: Seq<LineView>,
    hunk: HunkView,
    style: LineEnding,
    away: int,
    line: int,
)
    requires
        old_side(hunk.ops).len() > 0,
        0 <= away <= 100,
        forall|d: int|
            0 <= d < away ==> #[trigger] misses(
                target,
                old_side(hunk.ops),
                hunk.old_start as int,
                d,
            ),
        fits_at(target, old_side(hunk.ops), line),
        line == hunk.old_start - away || (line == hunk.old_start + away && !fits_at(
            target,
            old_side(hunk.ops),
            hunk.old_start - away,
        )),
    ensures
        applied(target, hunk, style, false) == Some(
            target.take(line - 1) + replaced(hunk.ops, target, line - 1, style) + target.skip(
                line - 1 + old_side(hunk.ops).len(),
            ),
        ),
{
    law_earlier_of_two_places(target, old_side(hunk.ops), hunk.old_start as int, away);
}

/// A hunk is given up only where its old lines stand nowhere within a hundred
/// lines of the stated one.
pub proof fn law_fitting_hunks_apply(
    target: Seq<LineView>,
    hunk: HunkView,
    style: LineEnding,
    creation: bool,
    line: int,
)
    requires
        creation || old_side(hunk.ops).len() == 0 || (fits_at(target, old_side(hunk.ops), line)
            && hunk.old_start - 100 <= line <= hunk.old_start + 100),
    ensures
        applied(target, hunk, style, creation) is Some,
{
    if !(creation || old_side(hunk.ops).len() == 0) {
        law_nearest_placement(target, old_side(hunk.ops), hunk.old_start as int, line);
    }
}

/// A header names what is written behind its marker, quoted or not, however
/// often the marker is repeated.
pub proof fn law_headers_name_what_follows_the_marker(raw: Seq<char>, marker: Seq<char>)
    requires
        marker.len() > 0,
    ensures
        !text::begins_with(raw, marker) ==> header_path(marker + raw, marker) == unquoted(raw),
        header_path(marker + raw, marker) == header_path(raw, marker),
{
    let line = marker + raw;
    assert(line.subrange(0, marker.len() as int) =~= marker);
    assert(line.skip(marker.len() as int) =~= raw);
    assert(after_repeated(line, marker) == after_repeated(raw, marker));
    lemma_trimmed_again(raw);
}

proof fn lemma_trimmed_again(s: Seq<char>)
    ensures
        text::trimmed(text::trimmed(s)) == text::trimmed(s),
{
    let core = text::trimmed(s);
    text::law_trimming_takes_off_white_space_only(s);
    assert(core.subrange(0, core.len() as int) =~= core);
    assert(text::is_core(core, core));
    text::law_core_is_unique(core, core);
}

/// A hunk that is said to begin at line zero and to show old lines begins at
/// the first line.
pub proof fn law_line_zero_is_the_first(
    lines: Seq<LineView>,
    i: int,
    count: u64,
    tail: Seq<char>,
    ops: Seq<OpView>,
)
    requires
        0 <= i < lines.len(),
        ops.len() > 0,
        count > 0,
        writes_body(lines, i + 1, ops),
        body_stops(lines, i + 1 + ops.len()),
        lines[i].text == written_header(0, count, tail),
    ensures
        parsed_hunk(lines, i) is Ok <==> count == old_side(ops).len(),
        parsed_hunk(lines, i) matches Ok(hunk) ==> hunk == (HunkView { old_start: 1, ops }),
{
    law_bodies_are_read_back(lines, i + 1, ops);
    lemma_header_is_read(0, count, tail);
    text::law_decimal_round_trip(0);
}

/// A hunk whose header gives no number where its old lines begin is refused.
pub proof fn law_headers_need_a_number(lines: Seq<LineView>, i: int)
    requires
        0 <= i < lines.len(),
        text::parsed_u64(range_start_text(old_range(lines[i].text))) is None,
    ensures
        parsed_hunk(lines, i) is Err,
{
}

} // verus!
