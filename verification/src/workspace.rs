//! Path resolution: the single authority on what lies inside a workspace.
//!
//! A request is normalised lexically, resolved physically through the deepest
//! existing ancestor, and accepted only if the outcome lies inside the
//! canonical root. Looking at the disk is the caller's part: a [`PathProbe`]
//! says what to canonicalise and is told the answer.
use crate::error::{ToolError, ToolResult};
use crate::permissions::{Permissions, SetupError};
use crate::text;
use crate::workspace_id::WorkspaceId;
use vstd::prelude::*;

verus! {

broadcast use vstd::string::group_string_axioms;

// ---------------------------------------------------------------------------
// Paths
// ---------------------------------------------------------------------------

/// An absolute path without `.` and `..`: a platform prefix (empty but on
/// Windows), the root, and the names below it.
#[derive(Debug)]
pub struct FullPath {
    /// The platform prefix, such as a drive.
    pub prefix: Vec<u8>,
    /// The names below the root.
    pub names: Vec<Vec<u8>>,
}

/// What a [`FullPath`] names.
#[verifier::ext_equal]
pub struct PathView {
    /// The platform prefix.
    pub prefix: Seq<u8>,
    /// The names below the root.
    pub names: Seq<Seq<u8>>,
}

/// What a list of names holds.
pub open spec fn name_views(names: Seq<Vec<u8>>) -> Seq<Seq<u8>> {
    names.map_values(|name: Vec<u8>| name@)
}

impl View for FullPath {
    type V = PathView;

    open spec fn view(&self) -> PathView {
        PathView { prefix: self.prefix@, names: name_views(self.names@) }
    }
}

/// Whether `path` is `root` or lies below it.
pub open spec fn inside(root: PathView, path: PathView) -> bool {
    path.prefix == root.prefix && text::begins_with(path.names, root.names)
}

/// The directory `k + 1` levels above a path.
pub open spec fn ancestor(path: PathView, k: int) -> PathView {
    let depth = if k < path.names.len() {
        path.names.len() - 1 - k
    } else {
        0
    };
    PathView { names: path.names.take(depth), ..path }
}

/// One component of a requested path.
#[derive(Debug)]
pub enum PathPart {
    /// A platform prefix, such as a drive.
    Prefix(Vec<u8>),
    /// The root directory.
    RootDir,
    /// A leading `.`.
    CurDir,
    /// `..`.
    ParentDir,
    /// A name.
    Normal(Vec<u8>),
}

/// What a [`PathPart`] is.
#[verifier::ext_equal]
pub enum PartView {
    /// A platform prefix, such as a drive.
    Prefix(Seq<u8>),
    /// The root directory.
    RootDir,
    /// A leading `.`.
    CurDir,
    /// `..`.
    ParentDir,
    /// A name.
    Normal(Seq<u8>),
}

impl View for PathPart {
    type V = PartView;

    open spec fn view(&self) -> PartView {
        match self {
            PathPart::Prefix(bytes) => PartView::Prefix(bytes@),
            PathPart::RootDir => PartView::RootDir,
            PathPart::CurDir => PartView::CurDir,
            PathPart::ParentDir => PartView::ParentDir,
            PathPart::Normal(bytes) => PartView::Normal(bytes@),
        }
    }
}

/// What a list of components is.
pub open spec fn part_views(parts: Seq<PathPart>) -> Seq<PartView> {
    parts.map_values(|part: PathPart| part@)
}

/// Whether a path text means the same on every platform: it holds neither a
/// colon nor a backslash and does not begin with two slashes.
pub open spec fn is_neutral(raw: Seq<char>) -> bool {
    &&& !raw.contains(':')
    &&& !raw.contains('\\')
    &&& !text::begins_with(raw, seq!['/', '/'])
}

/// The component that one piece between slashes stands for. Empty pieces
/// and dots stand for none, but for a dot in front.
pub open spec fn piece_part(piece: Seq<char>, leading: bool) -> Seq<PartView> {
    if piece.len() == 0 {
        Seq::empty()
    } else if piece == seq!['.'] {
        if leading {
            seq![PartView::CurDir]
        } else {
            Seq::empty()
        }
    } else if piece == seq!['.', '.'] {
        seq![PartView::ParentDir]
    } else {
        seq![PartView::Normal(vstd::utf8::encode_utf8(piece))]
    }
}

/// Whether a character separates names: a slash does, and where `backslash`
/// says so, a backslash too.
pub open spec fn separates(c: char, backslash: bool) -> bool {
    c == '/' || (backslash && c == '\\')
}

/// The first position at or after `from` that holds a separator, or the length
/// of `raw`.
pub open spec fn separator_from(raw: Seq<char>, from: int, backslash: bool) -> int
    decreases raw.len() - from,
{
    if from >= raw.len() {
        raw.len() as int
    } else if separates(raw[from], backslash) {
        from
    } else {
        separator_from(raw, from + 1, backslash)
    }
}

/// The components of the path text `raw` from position `from` on, which
/// follows a separator or is the beginning.
pub open spec fn split_parts(raw: Seq<char>, from: int, backslash: bool) -> Seq<PartView>
    decreases raw.len() - from,
{
    let end = separator_from(raw, from, backslash);
    if from < 0 || from > raw.len() || end < from {
        Seq::empty()
    } else if end >= raw.len() {
        piece_part(raw.subrange(from, raw.len() as int), from == 0)
    } else {
        piece_part(raw.subrange(from, end), from == 0) + split_parts(raw, end + 1, backslash)
    }
}

/// The components of a path text without a platform prefix.
pub open spec fn text_parts(raw: Seq<char>, backslash: bool) -> Seq<PartView> {
    if raw.len() > 0 && separates(raw[0], backslash) {
        seq![PartView::RootDir] + split_parts(raw, 1, backslash)
    } else {
        split_parts(raw, 0, backslash)
    }
}

/// Whether a path text has no platform prefix. Where a backslash separates,
/// one is a drive, which is followed by a colon, or begins with two
/// separators; elsewhere there are none.
pub open spec fn is_plain(raw: Seq<char>, backslash: bool) -> bool {
    backslash ==> {
        &&& !raw.contains(':')
        &&& !(raw.len() >= 2 && separates(raw[0], true) && separates(raw[1], true))
    }
}

/// Asks `std::path::is_separator` whether a character separates the names of
/// a path. A slash does everywhere; what else does depends on the platform and
/// is left unsaid.
#[verifier::external_body]
fn is_separator(c: char) -> (separates: bool)
    ensures
        c == '/' ==> separates,
{
    std::path::is_separator(c)
}

/// Splits a path text with `std::path::Path::components`: separators split,
/// repeated ones and a trailing one count once, and a dot is kept only in
/// front. A neutral text is split alike everywhere. How another one is split
/// depends on whether the platform takes a backslash for a separator; where it
/// does, what a text with a platform prefix is split into is left unsaid.
#[verifier::external_body]
fn components(raw: &str) -> (parts: Vec<PathPart>)
    ensures
        is_neutral(raw@) ==> part_views(parts@) == text_parts(raw@, false),
        forall|backslash: bool| #[trigger]
            call_ensures(is_separator, ('\\',), backslash) && is_plain(raw@, backslash)
                ==> part_views(parts@) == text_parts(raw@, backslash),
{
    std::path::Path::new(raw).components().map(|component| match component {
        std::path::Component::Prefix(p) => PathPart::Prefix(
            p.as_os_str().as_encoded_bytes().to_vec(),
        ),
        std::path::Component::RootDir => PathPart::RootDir,
        std::path::Component::CurDir => PathPart::CurDir,
        std::path::Component::ParentDir => PathPart::ParentDir,
        std::path::Component::Normal(n) => PathPart::Normal(n.as_encoded_bytes().to_vec()),
    }).collect()
}

/// Asks `std::path::Path::is_absolute`. A text that has no platform prefix and
/// does not begin with a separator is relative. For a neutral text that holds
/// everywhere; whether one that begins with a separator is absolute depends on
/// the platform and is left unsaid.
#[verifier::external_body]
fn is_absolute(raw: &str) -> (absolute: bool)
    ensures
        is_neutral(raw@) && !text::begins_with(raw@, seq!['/']) ==> !absolute,
        forall|backslash: bool| #[trigger]
            call_ensures(is_separator, ('\\',), backslash) && is_plain(raw@, backslash) && !(
            raw@.len() > 0 && separates(raw@[0], backslash)) ==> !absolute,
{
    std::path::Path::new(raw).is_absolute()
}

/// Whether `separates` is what the platform may say when it is asked whether
/// a character separates names.
pub closed spec fn told_separator(c: char, separates: bool) -> bool {
    call_ensures(is_separator, (c,), separates)
}

/// Asks the platform whether a character separates the names of a path.
pub(crate) fn ask_separator(c: char) -> (separates: bool)
    ensures
        told_separator(c, separates),
{
    ask(is_separator, c)
}

/// Whether `absolute` is what the platform may say when it is asked whether
/// the path text `raw` is absolute.
pub closed spec fn told_absolute(raw: Seq<char>, absolute: bool) -> bool {
    exists|given: &str|
        given@ == raw && #[trigger] call_ensures(is_absolute, (given,), absolute)
}

/// Whether `parts` are components that the platform may split the path text
/// `raw` into.
pub closed spec fn told_parts(raw: Seq<char>, parts: Seq<PartView>) -> bool {
    exists|given: &str, found: Vec<PathPart>|
        given@ == raw && #[trigger] call_ensures(components, (given,), found) && part_views(found@)
            == parts
}

/// Calls `question` on `subject`.
fn ask<A, T, Q: Fn(A) -> T>(question: Q, subject: A) -> (answer: T)
    requires
        call_requires(question, (subject,)),
    ensures
        call_ensures(question, (subject,), answer),
{
    question(subject)
}

/// Asks the platform whether a path text is absolute.
pub(crate) fn ask_absolute(raw: &str) -> (absolute: bool)
    ensures
        told_absolute(raw@, absolute),
{
    ask(is_absolute, raw)
}

/// Splits a path text as the platform does.
fn ask_parts(raw: &str) -> (parts: Vec<PathPart>)
    ensures
        told_parts(raw@, part_views(parts@)),
{
    ask(components, raw)
}

/// On every platform a neutral text is split at its slashes.
pub proof fn law_neutral_texts_are_split_alike(raw: Seq<char>, parts: Seq<PartView>)
    requires
        is_neutral(raw),
        told_parts(raw, parts),
    ensures
        parts == text_parts(raw, false),
{
}

/// On every platform a neutral text is relative unless it begins with a slash.
pub proof fn law_neutral_texts_are_relative(raw: Seq<char>, absolute: bool)
    requires
        is_neutral(raw),
        told_absolute(raw, absolute),
        !text::begins_with(raw, seq!['/']),
    ensures
        !absolute,
{
}

/// A text without a platform prefix is split at the platform's separators, and
/// is relative unless it begins with one.
pub proof fn law_plain_texts_are_split_at_separators(
    raw: Seq<char>,
    backslash: bool,
    parts: Seq<PartView>,
    absolute: bool,
)
    requires
        told_separator('\\', backslash),
        is_plain(raw, backslash),
        told_parts(raw, parts),
        told_absolute(raw, absolute),
    ensures
        parts == text_parts(raw, backslash),
        absolute ==> raw.len() > 0 && separates(raw[0], backslash),
{
}

// ---------------------------------------------------------------------------
// Lexical normalisation
// ---------------------------------------------------------------------------

/// The names that the components from index `i` on lead to when `stack` was
/// reached before, or nothing where they climb above the start.
pub open spec fn lexical_from(parts: Seq<PartView>, i: int, stack: Seq<Seq<u8>>) -> Option<
    Seq<Seq<u8>>,
>
    decreases parts.len() - i,
{
    if i < 0 || i >= parts.len() {
        Some(stack)
    } else {
        match parts[i] {
            PartView::Normal(name) => lexical_from(parts, i + 1, stack.push(name)),
            PartView::ParentDir => if stack.len() == 0 {
                None
            } else {
                lexical_from(parts, i + 1, stack.drop_last())
            },
            _ => lexical_from(parts, i + 1, stack),
        }
    }
}

/// The platform prefix of a request.
pub open spec fn request_prefix(parts: Seq<PartView>) -> Seq<u8> {
    if parts.len() > 0 && parts[0] is Prefix {
        parts[0]->Prefix_0
    } else {
        Seq::empty()
    }
}

/// How many leading components are prefix and root.
pub open spec fn anchor_len(parts: Seq<PartView>) -> int {
    let after_prefix: int = if parts.len() > 0 && parts[0] is Prefix {
        1
    } else {
        0
    };
    if after_prefix < parts.len() && parts[after_prefix] is RootDir {
        after_prefix + 1
    } else {
        after_prefix
    }
}

/// Whether an absolute request spells something at or below `root`.
pub open spec fn spells_root(parts: Seq<PartView>, root: PathView) -> bool {
    let from = anchor_len(parts);
    &&& request_prefix(parts) == root.prefix
    &&& from + root.names.len() <= parts.len()
    &&& forall|k: int|
        0 <= k < root.names.len() ==> #[trigger] parts[from + k] == PartView::Normal(root.names[k])
}

/// The report of a request that leads outside.
pub open spec fn escape_text(requested: Seq<char>) -> Seq<char> {
    "Path resolves outside the configured workspace: "@ + requested
}

/// What is known of a request before the disk is looked at.
#[verifier::ext_equal]
pub enum LexicalView {
    /// It is refused.
    Refused(Seq<char>),
    /// It is the workspace root.
    Root,
    /// It has to be resolved physically.
    Candidate(PathView),
}

/// Normalises a request, given its components and whether it is absolute.
pub open spec fn lexical(
    root: PathView,
    requested: Seq<char>,
    parts: Seq<PartView>,
    absolute: bool,
) -> LexicalView {
    if requested.contains('\0') {
        LexicalView::Refused("Invalid path: NUL bytes are not allowed in workspace paths."@)
    } else if text::is_blank(requested) {
        LexicalView::Root
    } else {
        let rooted = absolute && spells_root(parts, root);
        let from = if rooted {
            anchor_len(parts) + root.names.len()
        } else {
            0
        };
        match lexical_from(parts, from, Seq::empty()) {
            None => LexicalView::Refused(escape_text(requested)),
            Some(names) => if absolute && !rooted {
                LexicalView::Candidate(PathView { prefix: request_prefix(parts), names })
            } else if names.len() == 0 {
                LexicalView::Root
            } else {
                LexicalView::Candidate(PathView { prefix: root.prefix, names: root.names + names })
            },
        }
    }
}

fn push_copy(names: &mut Vec<Vec<u8>>, name: &[u8])
    ensures
        name_views(final(names)@) == name_views(old(names)@).push(name@),
{
    let ghost before = name_views(names@);
    names.push(text::copy_bytes(name));
    assert(name_views(names@) =~= before.push(name@));
}

/// Pushes the names that the components from index `from` on lead to; tells
/// whether they stay at or below the start.
fn collect_lexical(parts: &Vec<PathPart>, from: usize) -> (stack: Option<Vec<Vec<u8>>>)
    ensures
        match stack {
            Some(names) => lexical_from(part_views(parts@), from as int, Seq::empty()) == Some(
                name_views(names@),
            ),
            None => lexical_from(part_views(parts@), from as int, Seq::empty()) is None,
        },
{
    let ghost views = part_views(parts@);
    let mut names: Vec<Vec<u8>> = Vec::new();
    let mut i: usize = from;
    assert(name_views(names@) =~= Seq::<Seq<u8>>::empty());
    while i < parts.len()
        invariant
            views == part_views(parts@),
            lexical_from(views, i as int, name_views(names@)) == lexical_from(
                views,
                from as int,
                Seq::empty(),
            ),
        decreases parts.len() - i,
    {
        assert(views[i as int] == parts@[i as int]@);
        match &parts[i] {
            PathPart::Normal(name) => {
                push_copy(&mut names, name.as_slice());
            },
            PathPart::ParentDir => {
                let ghost before = name_views(names@);
                match names.pop() {
                    None => {
                        return None;
                    },
                    Some(_) => {
                        assert(name_views(names@) =~= before.drop_last());
                    },
                }
            },
            PathPart::CurDir => {},
            PathPart::RootDir => {},
            PathPart::Prefix(_) => {},
        }
        i += 1;
    }
    Some(names)
}

impl FullPath {
    /// A copy of this path.
    pub fn duplicate(&self) -> (copy: FullPath)
        ensures
            copy@ == self@,
    {
        FullPath {
            prefix: text::copy_bytes(self.prefix.as_slice()),
            names: copy_names(&self.names, 0, self.names.len()),
        }
    }

    /// The directory `levels + 1` levels above this path, or the root.
    pub fn above(&self, levels: usize) -> (path: FullPath)
        ensures
            path@ == ancestor(self@, levels as int),
    {
        let count: usize = self.names.len();
        let depth: usize = if levels < count {
            count - 1 - levels
        } else {
            0
        };
        assert(self@.names.subrange(0, depth as int) =~= self@.names.take(depth as int));
        FullPath {
            prefix: text::copy_bytes(self.prefix.as_slice()),
            names: copy_names(&self.names, 0, depth),
        }
    }

    /// Whether two paths are the same.
    pub fn is_same(&self, other: &FullPath) -> (same: bool)
        ensures
            same == (self@ == other@),
    {
        let same: bool = self.names.len() == other.names.len() && self.starts_with(other);
        proof {
            assert(other@.names.subrange(0, other@.names.len() as int) =~= other@.names);
            assert(self@.names.subrange(0, self@.names.len() as int) =~= self@.names);
            if same {
                assert(self@ =~= other@);
            }
        }
        same
    }

    /// Whether this path is `root` or lies below it.
    pub fn starts_with(&self, root: &FullPath) -> (yes: bool)
        ensures
            yes == inside(root@, self@),
    {
        let ghost mine = self@.names;
        let ghost wanted = root@.names;
        if !text::same_bytes(self.prefix.as_slice(), root.prefix.as_slice()) {
            return false;
        }
        if root.names.len() > self.names.len() {
            return false;
        }
        for k in 0..root.names.len()
            invariant
                mine == self@.names,
                wanted == root@.names,
                root.names@.len() <= self.names@.len(),
                forall|j: int| 0 <= j < k ==> mine[j] == wanted[j],
        {
            assert(mine[k as int] == self.names@[k as int]@);
            assert(wanted[k as int] == root.names@[k as int]@);
            if !text::same_bytes(self.names[k].as_slice(), root.names[k].as_slice()) {
                assert(mine.subrange(0, wanted.len() as int)[k as int] != wanted[k as int]);
                return false;
            }
        }
        assert(mine.subrange(0, wanted.len() as int) =~= wanted);
        true
    }
}

/// Copies `names[from..to]`.
fn copy_names(names: &Vec<Vec<u8>>, from: usize, to: usize) -> (copy: Vec<Vec<u8>>)
    requires
        from <= to <= names@.len(),
    ensures
        name_views(copy@) == name_views(names@).subrange(from as int, to as int),
        from == 0 && to == names@.len() ==> name_views(copy@) == name_views(names@),
{
    let ghost views = name_views(names@);
    let mut copy: Vec<Vec<u8>> = Vec::new();
    assert(name_views(copy@) =~= views.subrange(from as int, from as int));
    for i in from..to
        invariant
            from <= i <= to <= names@.len(),
            views == name_views(names@),
            name_views(copy@) == views.subrange(from as int, i as int),
    {
        push_copy(&mut copy, names[i].as_slice());
        assert(views.subrange(from as int, i + 1) =~= views.subrange(from as int, i as int).push(
            views[i as int],
        ));
    }
    assert(views.subrange(0, views.len() as int) =~= views);
    copy
}

/// Appends copies of `names[from..]` to `out`.
fn append_names(out: &mut Vec<Vec<u8>>, names: &Vec<Vec<u8>>, from: usize)
    requires
        from <= names@.len(),
    ensures
        name_views(final(out)@) == name_views(old(out)@) + name_views(names@).skip(from as int),
{
    let ghost views = name_views(names@);
    assert(name_views(out@) =~= name_views(old(out)@) + views.subrange(from as int, from as int));
    for i in from..names.len()
        invariant
            from <= i <= names@.len(),
            views == name_views(names@),
            name_views(out@) == name_views(old(out)@) + views.subrange(from as int, i as int),
    {
        push_copy(out, names[i].as_slice());
        assert(name_views(old(out)@) + views.subrange(from as int, i + 1) =~= (name_views(old(out)@)
            + views.subrange(from as int, i as int)).push(views[i as int]));
    }
    assert(views.subrange(from as int, views.len() as int) =~= views.skip(from as int));
}

// ---------------------------------------------------------------------------
// Resolution
// ---------------------------------------------------------------------------

/// The canonical path of something that exists at or above a candidate, with
/// the names that are missing below it.
pub open spec fn extended(existing: PathView, missing: Seq<Seq<u8>>) -> PathView {
    PathView { prefix: existing.prefix, names: existing.names + missing }
}

/// What the disk says of a path.
#[derive(Debug)]
pub enum Located {
    /// It exists; this is its canonical form.
    Canonical(FullPath),
    /// It is a link that does not lead to anything.
    BrokenLink,
    /// Nothing is there.
    Nothing,
}

/// What a [`Located`] says.
#[verifier::ext_equal]
pub enum LocatedView {
    /// It exists; this is its canonical form.
    Canonical(PathView),
    /// It is a link that does not lead to anything.
    BrokenLink,
    /// Nothing is there.
    Nothing,
}

impl View for Located {
    type V = LocatedView;

    open spec fn view(&self) -> LocatedView {
        match self {
            Located::Canonical(path) => LocatedView::Canonical(path@),
            Located::BrokenLink => LocatedView::BrokenLink,
            Located::Nothing => LocatedView::Nothing,
        }
    }
}

/// A pending physical resolution: something to canonicalise.
pub struct PathProbe {
    root: FullPath,
    requested: String,
    candidate: FullPath,
    depth: usize,
}

/// Where a resolution stands.
pub enum Resolution {
    /// It ended.
    Finished(ToolResult<FullPath>),
    /// The disk has to be asked.
    Probe(PathProbe),
}

/// What a finished resolution says.
pub open spec fn finished(result: ToolResult<FullPath>) -> Result<PathView, Seq<char>> {
    match result {
        Ok(path) => Ok(path@),
        Err(e) => Err(e.0@),
    }
}

impl PathProbe {
    /// The workspace root.
    pub closed spec fn root(self) -> PathView {
        self.root@
    }

    /// The request.
    pub closed spec fn requested(self) -> Seq<char> {
        self.requested@
    }

    /// The candidate that is being resolved.
    pub closed spec fn candidate(self) -> PathView {
        self.candidate@
    }

    /// How many of the candidate's names are asked for.
    pub closed spec fn depth(self) -> int {
        self.depth as int
    }

    /// At most all names are asked for.
    pub closed spec fn wf(self) -> bool {
        self.depth <= self.candidate.names@.len()
    }

    /// What is asked for: the candidate, or one of its ancestors.
    pub open spec fn asked(self) -> PathView {
        PathView { names: self.candidate().names.take(self.depth()), ..self.candidate() }
    }

    /// What to canonicalise.
    pub fn target(&self) -> (path: FullPath)
        requires
            self.wf(),
        ensures
            path@ == self.asked(),
    {
        let names: Vec<Vec<u8>> = copy_names(&self.candidate.names, 0, self.depth);
        assert(name_views(self.candidate.names@).subrange(0, self.depth as int) =~= name_views(
            self.candidate.names@,
        ).take(self.depth as int));
        FullPath { prefix: text::copy_bytes(self.candidate.prefix.as_slice()), names }
    }

    /// Goes on with what the disk says of what was asked for.
    ///
    /// What exists is extended by the names that were left off, and the
    /// outcome is accepted only inside the workspace. A link that leads
    /// nowhere is refused: what it would lead to cannot be shown to lie
    /// inside. Where there is nothing, the parent is asked for next.
    pub fn answer(self, located: Located) -> (next: Resolution)
        requires
            self.wf(),
        ensures
            match located {
                Located::Canonical(existing) => {
                    let resolved = extended(
                        existing@,
                        self.candidate().names.skip(self.depth()),
                    );
                    next matches Resolution::Finished(result) && finished(result) == if inside(
                        self.root(),
                        resolved,
                    ) {
                        Ok::<PathView, Seq<char>>(resolved)
                    } else {
                        Err(escape_text(self.requested()))
                    }
                },
                Located::BrokenLink => next matches Resolution::Finished(result) && finished(result)
                    == Err::<PathView, Seq<char>>(escape_text(self.requested())),
                Located::Nothing => if self.candidate().names.len() == 0 {
                    next matches Resolution::Finished(result) && finished(result) == Err::<
                        PathView,
                        Seq<char>,
                    >(escape_text(self.requested()))
                } else if self.depth() == 0 {
                    next matches Resolution::Finished(result) && finished(result) == Err::<
                        PathView,
                        Seq<char>,
                    >("Failed to resolve path: exhausted all path components."@)
                } else {
                    next matches Resolution::Probe(probe) && probe.wf() && probe.root()
                        == self.root() && probe.requested() == self.requested()
                        && probe.candidate() == self.candidate() && probe.depth() == self.depth()
                        - 1
                },
            },
    {
        match located {
            Located::Canonical(existing) => {
                let mut resolved: FullPath = existing;
                append_names(&mut resolved.names, &self.candidate.names, self.depth);
                if resolved.starts_with(&self.root) {
                    Resolution::Finished(Ok(resolved))
                } else {
                    Resolution::Finished(Err(escape(self.requested.as_str())))
                }
            },
            Located::BrokenLink => Resolution::Finished(Err(escape(self.requested.as_str()))),
            Located::Nothing => {
                if self.candidate.names.len() == 0 {
                    Resolution::Finished(Err(escape(self.requested.as_str())))
                } else if self.depth == 0 {
                    Resolution::Finished(
                        Err(ToolError::msg("Failed to resolve path: exhausted all path components.")),
                    )
                } else {
                    Resolution::Probe(PathProbe { depth: self.depth - 1, ..self })
                }
            },
        }
    }
}

fn escape(requested: &str) -> (error: ToolError)
    ensures
        error.0@ == escape_text(requested@),
{
    ToolError(String::from_str("Path resolves outside the configured workspace: ").concat(requested))
}

/// What a resolution that has to ask the disk starts from.
pub open spec fn opening(
    next: Resolution,
    root: PathView,
    requested: Seq<char>,
    view: LexicalView,
) -> bool {
    match view {
        LexicalView::Refused(text) => next matches Resolution::Finished(result) && finished(result)
            == Err::<PathView, Seq<char>>(text),
        LexicalView::Root => next matches Resolution::Finished(result) && finished(result) == Ok::<
            PathView,
            Seq<char>,
        >(root),
        LexicalView::Candidate(path) => next matches Resolution::Probe(probe) && probe.wf()
            && probe.root() == root && probe.requested() == requested && probe.candidate() == path
            && probe.depth() == path.names.len(),
    }
}

/// The text of a request; nothing stands for an empty one.
pub open spec fn raw_request(requested: Option<&str>) -> Seq<char> {
    match requested {
        Some(given) => given@,
        None => Seq::empty(),
    }
}

/// How a workspace path is shown.
#[derive(Debug, Clone, Copy, PartialEq, Eq, Structural)]
pub enum PathPresentation {
    /// The root is shown as its canonical absolute path.
    SingleCompatible,
    /// The root is shown as `.`; no absolute path is ever shown.
    RegistryRelative,
}

/// A workspace: its canonical root and the platform's path separator.
#[derive(Debug)]
pub struct Workspace {
    root_canonical: FullPath,
    separator: u8,
}

/// Names joined by a separator.
pub open spec fn joined(names: Seq<Seq<u8>>, separator: u8) -> Seq<u8>
    decreases names.len(),
{
    if names.len() == 0 {
        Seq::empty()
    } else if names.len() == 1 {
        names[0]
    } else {
        joined(names.drop_last(), separator).push(separator) + names.last()
    }
}

/// The bytes of an absolute path.
pub open spec fn path_bytes(path: PathView, separator: u8) -> Seq<u8> {
    path.prefix.push(separator) + joined(path.names, separator)
}

/// Joins the names from index `from` on.
fn join_names(names: &Vec<Vec<u8>>, from: usize, separator: u8) -> (bytes: Vec<u8>)
    requires
        from <= names@.len(),
    ensures
        bytes@ == joined(name_views(names@).skip(from as int), separator),
{
    let ghost views = name_views(names@).skip(from as int);
    let mut bytes: Vec<u8> = Vec::new();
    assert(views.take(0) =~= Seq::<Seq<u8>>::empty());
    for i in from..names.len()
        invariant
            from <= i <= names@.len(),
            views == name_views(names@).skip(from as int),
            bytes@ == joined(views.take(i - from), separator),
    {
        if i > from {
            bytes.push(separator);
        }
        let ghost before = bytes@;
        let mut name: Vec<u8> = text::copy_bytes(names[i].as_slice());
        bytes.append(&mut name);
        proof {
            assert(views.take(i - from + 1).drop_last() =~= views.take(i - from));
            assert(views.take(i - from + 1).last() == names@[i as int]@);
            assert(bytes@ =~= joined(views.take(i - from + 1), separator));
        }
    }
    assert(views.take(views.len() as int) =~= views);
    bytes
}

/// An absolute path as text.
pub fn full_path_text(path: &FullPath, separator: u8) -> (shown: String)
    ensures
        shown@ == text::decoded_text(path_bytes(path@, separator)),
{
    let mut bytes: Vec<u8> = text::copy_bytes(path.prefix.as_slice());
    bytes.push(separator);
    let mut rest: Vec<u8> = join_names(&path.names, 0, separator);
    bytes.append(&mut rest);
    assert(path@.names.skip(0) =~= path@.names);
    assert(bytes@ =~= path_bytes(path@, separator));
    text::decode_lossy(bytes.as_slice()).0
}

impl Workspace {
    /// The canonical root.
    pub closed spec fn root_view(self) -> PathView {
        self.root_canonical@
    }

    /// The path separator.
    pub closed spec fn separator_view(self) -> u8 {
        self.separator
    }

    /// Opens a workspace whose root was canonicalised up front.
    pub fn open(root: &str, canonical: Result<FullPath, String>, separator: u8) -> (result: Result<
        Workspace,
        SetupError,
    >)
        ensures
            match result {
                Ok(ws) => canonical matches Ok(path) && ws.root_view() == path@
                    && ws.separator_view() == separator,
                Err(e) => canonical matches Err(reason) && e.0@
                    == "Failed to resolve workspace root '"@ + root@ + "': "@ + reason@,
            },
    {
        match canonical {
            Ok(root_canonical) => Ok(Workspace { root_canonical, separator }),
            Err(reason) => Err(
                SetupError(
                    String::from_str("Failed to resolve workspace root '").concat(root).concat(
                        "': ",
                    ).concat(reason.as_str()),
                ),
            ),
        }
    }

    /// The canonical root.
    pub fn root(&self) -> (root: &FullPath)
        ensures
            root@ == self.root_view(),
    {
        &self.root_canonical
    }

    /// The last name of the root, or all of it where it has none.
    pub open spec fn name_view(self) -> Seq<char> {
        if self.root_view().names.len() > 0 {
            text::decoded_text(self.root_view().names.last())
        } else {
            text::decoded_text(path_bytes(self.root_view(), self.separator_view()))
        }
    }

    /// The last name of the root, or all of it where it has none.
    pub fn name(&self) -> (name: String)
        ensures
            name@ == self.name_view(),
    {
        let count: usize = self.root_canonical.names.len();
        if count > 0 {
            assert(self.root_view().names.last() == self.root_canonical.names@[count - 1]@);
            text::decode_lossy(self.root_canonical.names[count - 1].as_slice()).0
        } else {
            self.full_text(&self.root_canonical)
        }
    }

    /// An absolute path as text.
    pub fn full_text(&self, path: &FullPath) -> (shown: String)
        ensures
            shown@ == text::decoded_text(path_bytes(path@, self.separator_view())),
    {
        full_path_text(path, self.separator)
    }

    /// How `path` is shown: below the root without it, and otherwise in full.
    pub open spec fn relative_view(self, path: PathView) -> Seq<char> {
        let root = self.root_view();
        if inside(root, path) && path.names.len() > root.names.len() {
            text::decoded_text(
                joined(path.names.skip(root.names.len() as int), self.separator_view()),
            )
        } else {
            text::decoded_text(path_bytes(path, self.separator_view()))
        }
    }

    /// Shows `path` relative to the root.
    pub fn display_relative(&self, path: &FullPath) -> (shown: String)
        ensures
            shown@ == self.relative_view(path@),
    {
        let depth: usize = self.root_canonical.names.len();
        if path.starts_with(&self.root_canonical) && path.names.len() > depth {
            let bytes: Vec<u8> = join_names(&path.names, depth, self.separator);
            text::decode_lossy(bytes.as_slice()).0
        } else {
            self.full_text(path)
        }
    }

    /// How `path` is shown in the given presentation. What is not inside the
    /// workspace is never shown in full to a registry client.
    pub open spec fn presented_view(self, path: PathView, presentation: PathPresentation) -> Seq<
        char,
    > {
        match presentation {
            PathPresentation::SingleCompatible => self.relative_view(path),
            PathPresentation::RegistryRelative => if inside(self.root_view(), path)
                && path.names.len() > self.root_view().names.len() {
                self.relative_view(path)
            } else {
                "."@
            },
        }
    }

    /// Shows `path` in the given presentation.
    pub fn display_relative_as(&self, path: &FullPath, presentation: PathPresentation) -> (shown:
        String)
        ensures
            shown@ == self.presented_view(path@, presentation),
    {
        match presentation {
            PathPresentation::SingleCompatible => self.display_relative(path),
            PathPresentation::RegistryRelative => {
                if path.starts_with(&self.root_canonical) && path.names.len()
                    > self.root_canonical.names.len() {
                    self.display_relative(path)
                } else {
                    String::from_str(".")
                }
            },
        }
    }

    /// Starts the resolution of a request, given its components and whether
    /// it is absolute.
    pub fn start_resolution(
        &self,
        requested: &str,
        parts: &Vec<PathPart>,
        absolute: bool,
    ) -> (next: Resolution)
        ensures
            opening(
                next,
                self.root_view(),
                requested@,
                lexical(self.root_view(), requested@, part_views(parts@), absolute),
            ),
    {
        let ghost views = part_views(parts@);
        let ghost root = self.root_view();
        if text::holds_char(requested, '\0') {
            return Resolution::Finished(
                Err(ToolError::msg("Invalid path: NUL bytes are not allowed in workspace paths.")),
            );
        }
        if text::blank(requested) {
            return Resolution::Finished(Ok(self.root_canonical.duplicate()));
        }
        let anchor: usize = count_anchor(parts);
        let rooted: bool = absolute && self.spelled_by(parts, anchor);
        let from: usize = if rooted {
            anchor + self.root_canonical.names.len()
        } else {
            0
        };
        let names: Vec<Vec<u8>> = match collect_lexical(parts, from) {
            Some(names) => names,
            None => {
                return Resolution::Finished(Err(escape(requested)));
            },
        };
        if absolute && !rooted {
            let prefix: Vec<u8> = copy_prefix(parts);
            let depth: usize = names.len();
            return Resolution::Probe(
                PathProbe {
                    root: self.root_canonical.duplicate(),
                    requested: String::from_str(requested),
                    candidate: FullPath { prefix, names },
                    depth,
                },
            );
        }
        if names.len() == 0 {
            return Resolution::Finished(Ok(self.root_canonical.duplicate()));
        }
        let mut candidate: FullPath = self.root_canonical.duplicate();
        append_names(&mut candidate.names, &names, 0);
        assert(name_views(names@).skip(0) =~= name_views(names@));
        let depth: usize = candidate.names.len();
        Resolution::Probe(
            PathProbe {
                root: self.root_canonical.duplicate(),
                requested: String::from_str(requested),
                candidate,
                depth,
            },
        )
    }

    /// Resolves a request, given its components and whether it is absolute.
    /// `locate` tells what the disk says of a path.
    ///
    /// The outcome is that of the disk that `locate` reports, and whatever it
    /// reports, a resolved path lies inside the workspace.
    pub fn resolve_split<F: Fn(&FullPath) -> Located>(
        &self,
        requested: &str,
        parts: &Vec<PathPart>,
        absolute: bool,
        locate: &F,
    ) -> (result: ToolResult<FullPath>)
        requires
            forall|path: &FullPath| call_requires(locate, (path,)),
        ensures
            forall|disk: spec_fn(PathView) -> LocatedView|
                answers_as(*locate, disk) ==> finished(result) == #[trigger] resolved_on(
                    self.root_view(),
                    requested@,
                    lexical(self.root_view(), requested@, part_views(parts@), absolute),
                    disk,
                ),
            result matches Ok(path) ==> inside(self.root_view(), path@),
    {
        let start: Resolution = self.start_resolution(requested, parts, absolute);
        settle(
            start,
            locate,
            Ghost(self.root_view()),
            Ghost(requested@),
            Ghost(lexical(self.root_view(), requested@, part_views(parts@), absolute)),
        )
    }

    /// Resolves a client-supplied path; nothing stands for the root. The
    /// outcome may name a file that does not exist yet.
    ///
    /// How the text is split, and whether it is absolute, is what the platform
    /// says of it; a text that is neutral and does not begin with a slash is
    /// split in one way everywhere.
    pub fn resolve<F: Fn(&FullPath) -> Located>(
        &self,
        requested: Option<&str>,
        locate: &F,
    ) -> (result: ToolResult<FullPath>)
        requires
            forall|path: &FullPath| call_requires(locate, (path,)),
        ensures
            self.resolves_by(requested, *locate, result),
    {
        let raw: &str = match requested {
            Some(given) => given,
            None => "",
        };
        proof {
            reveal_strlit("");
            assert(""@ =~= Seq::<char>::empty());
            assert(raw@ == raw_request(requested));
        }
        let parts: Vec<PathPart> = ask_parts(raw);
        let absolute: bool = ask_absolute(raw);
        let result: ToolResult<FullPath> = self.resolve_split(raw, &parts, absolute, locate);
        assert forall|disk: spec_fn(PathView) -> LocatedView| #[trigger]
            answers_as(*locate, disk) implies self.resolves(requested, disk, result) by {
            let view = lexical(self.root_view(), raw@, part_views(parts@), absolute);
            assert(finished(result) == resolved_on(self.root_view(), raw@, view, disk));
            if is_neutral(raw@) {
                law_neutral_texts_are_split_alike(raw@, part_views(parts@));
                if !text::begins_with(raw@, seq!['/']) {
                    law_neutral_texts_are_relative(raw@, absolute);
                }
            }
        }
        result
    }

    /// Whether `result` is how `requested` resolves where `locate`
    /// tells what exists.
    pub open spec fn resolves_by<F: Fn(&FullPath) -> Located>(
        self,
        requested: Option<&str>,
        locate: F,
        result: ToolResult<FullPath>,
    ) -> bool {
        &&& result matches Ok(path) ==> inside(self.root_view(), path@)
        &&& forall|disk: spec_fn(PathView) -> LocatedView| #[trigger]
            answers_as(locate, disk) ==> self.resolves(requested, disk, result)
    }

    /// Whether `result` is how `requested` resolves on `disk`.
    pub open spec fn resolves(
        self,
        requested: Option<&str>,
        disk: spec_fn(PathView) -> LocatedView,
        result: ToolResult<FullPath>,
    ) -> bool {
        let root = self.root_view();
        let raw = raw_request(requested);
        &&& exists|parts: Seq<PartView>, absolute: bool|
            finished(result) == resolved_on(
                root,
                raw,
                #[trigger] lexical(root, raw, parts, absolute),
                disk,
            ) && told_parts(raw, parts) && told_absolute(raw, absolute)
        &&& is_neutral(raw) && !text::begins_with(raw, seq!['/']) ==> finished(result)
            == resolved_on(root, raw, lexical(root, raw, text_parts(raw, false), false), disk)
    }

    fn spelled_by(&self, parts: &Vec<PathPart>, anchor: usize) -> (yes: bool)
        requires
            anchor == anchor_len(part_views(parts@)),
        ensures
            yes == spells_root(part_views(parts@), self.root_view()),
            yes ==> anchor + self.root_canonical.names.len() <= usize::MAX,
    {
        let ghost views = part_views(parts@);
        let ghost root = self.root_view();
        let prefix: Vec<u8> = copy_prefix(parts);
        if !text::same_bytes(prefix.as_slice(), self.root_canonical.prefix.as_slice()) {
            return false;
        }
        let count: usize = self.root_canonical.names.len();
        assert(anchor <= parts@.len());
        if count > parts.len() - anchor {
            return false;
        }
        for k in 0..count
            invariant
                views == part_views(parts@),
                root == self.root_view(),
                count == self.root_canonical.names@.len(),
                anchor == anchor_len(views),
                anchor + count <= parts.len(),
                forall|j: int|
                    0 <= j < k ==> #[trigger] views[anchor + j] == PartView::Normal(root.names[j]),
        {
            assert(views[anchor + k] == parts@[anchor + k]@);
            assert(root.names[k as int] == self.root_canonical.names@[k as int]@);
            match &parts[anchor + k] {
                PathPart::Normal(name) => {
                    if !text::same_bytes(
                        name.as_slice(),
                        self.root_canonical.names[k].as_slice(),
                    ) {
                        return false;
                    }
                },
                _ => {
                    return false;
                },
            }
        }
        true
    }
}

fn copy_prefix(parts: &Vec<PathPart>) -> (prefix: Vec<u8>)
    ensures
        prefix@ == request_prefix(part_views(parts@)),
{
    if parts.len() > 0 {
        assert(part_views(parts@)[0] == parts@[0]@);
        if let PathPart::Prefix(bytes) = &parts[0] {
            return text::copy_bytes(bytes.as_slice());
        }
    }
    Vec::new()
}

fn count_anchor(parts: &Vec<PathPart>) -> (count: usize)
    ensures
        count == anchor_len(part_views(parts@)),
        count <= parts@.len(),
{
    let ghost views = part_views(parts@);
    let mut count: usize = 0;
    if parts.len() > 0 {
        assert(views[0] == parts@[0]@);
        if let PathPart::Prefix(_) = &parts[0] {
            count = 1;
        }
    }
    if count < parts.len() {
        assert(views[count as int] == parts@[count as int]@);
        if let PathPart::RootDir = &parts[count] {
            count += 1;
        }
    }
    count
}

/// The outcome of a physical resolution on a disk that answers as
/// `disk` does, when the first `depth` names of the candidate are asked for next.
pub open spec fn settled(
    root: PathView,
    requested: Seq<char>,
    candidate: PathView,
    depth: int,
    disk: spec_fn(PathView) -> LocatedView,
) -> Result<PathView, Seq<char>>
    decreases depth,
{
    let asked = PathView { names: candidate.names.take(depth), ..candidate };
    match disk(asked) {
        LocatedView::Canonical(existing) => {
            let resolved = extended(existing, candidate.names.skip(depth));
            if inside(root, resolved) {
                Ok(resolved)
            } else {
                Err(escape_text(requested))
            }
        },
        LocatedView::BrokenLink => Err(escape_text(requested)),
        LocatedView::Nothing => if candidate.names.len() == 0 {
            Err(escape_text(requested))
        } else if depth <= 0 {
            Err("Failed to resolve path: exhausted all path components."@)
        } else {
            settled(root, requested, candidate, depth - 1, disk)
        },
    }
}

/// The outcome of a resolution on a disk that answers as `disk` does.
pub open spec fn resolved_on(
    root: PathView,
    requested: Seq<char>,
    view: LexicalView,
    disk: spec_fn(PathView) -> LocatedView,
) -> Result<PathView, Seq<char>> {
    match view {
        LexicalView::Refused(text) => Err(text),
        LexicalView::Root => Ok(root),
        LexicalView::Candidate(path) => settled(
            root,
            requested,
            path,
            path.names.len() as int,
            disk,
        ),
    }
}

/// Whether `locate` answers as `disk` does.
pub open spec fn answers_as<F: Fn(&FullPath) -> Located>(
    locate: F,
    disk: spec_fn(PathView) -> LocatedView,
) -> bool {
    forall|path: &FullPath, located: Located|
        #[trigger] call_ensures(locate, (path,), located) ==> located@ == disk(path@)
}

/// Carries a resolution to its end, asking `locate` what exists.
fn settle<F: Fn(&FullPath) -> Located>(
    start: Resolution,
    locate: &F,
    Ghost(root): Ghost<PathView>,
    Ghost(requested): Ghost<Seq<char>>,
    Ghost(view): Ghost<LexicalView>,
) -> (result: ToolResult<FullPath>)
    requires
        opening(start, root, requested, view),
        forall|path: &FullPath| call_requires(locate, (path,)),
    ensures
        forall|disk: spec_fn(PathView) -> LocatedView|
            answers_as(*locate, disk) ==> finished(result) == #[trigger] resolved_on(
                root,
                requested,
                view,
                disk,
            ),
        result matches Ok(path) ==> inside(root, path@),
{
    match start {
        Resolution::Finished(result) => {
            proof {
                if view is Root {
                    assert(root.names.subrange(0, root.names.len() as int) =~= root.names);
                }
            }
            result
        },
        Resolution::Probe(first) => {
            let ghost candidate = first.candidate();
            let mut probe: PathProbe = first;
            loop
                invariant
                    forall|path: &FullPath| call_requires(locate, (path,)),
                    probe.wf(),
                    probe.root() == root,
                    probe.requested() == requested,
                    probe.candidate() == candidate,
                    view == LexicalView::Candidate(candidate),
                    forall|disk: spec_fn(PathView) -> LocatedView|
                        answers_as(*locate, disk) ==> #[trigger] resolved_on(
                            root,
                            requested,
                            view,
                            disk,
                        ) == settled(root, requested, candidate, probe.depth(), disk),
                decreases probe.depth(),
            {
                let ghost depth = probe.depth();
                let target: FullPath = probe.target();
                let located: Located = locate(&target);
                assert forall|disk: spec_fn(PathView) -> LocatedView|
                    answers_as(*locate, disk) implies disk(target@) == located@ by {
                    assert(call_ensures(*locate, (&target,), located));
                }
                match probe.answer(located) {
                    Resolution::Finished(result) => {
                        return result;
                    },
                    Resolution::Probe(next) => {
                        probe = next;
                    },
                }
            }
        },
    }
}

// ---------------------------------------------------------------------------
// Laws
// ---------------------------------------------------------------------------

proof fn lemma_settled_inside(
    root: PathView,
    requested: Seq<char>,
    candidate: PathView,
    depth: int,
    disk: spec_fn(PathView) -> LocatedView,
)
    ensures
        settled(root, requested, candidate, depth, disk) matches Ok(path) ==> inside(root, path),
    decreases depth,
{
    if depth > 0 {
        lemma_settled_inside(root, requested, candidate, depth - 1, disk);
    }
}

/// Containment: whatever the request and whatever the disk, links and all,
/// a resolved path lies inside the workspace.
pub proof fn law_resolution_stays_inside(
    root: PathView,
    requested: Seq<char>,
    parts: Seq<PartView>,
    absolute: bool,
    disk: spec_fn(PathView) -> LocatedView,
)
    ensures
        resolved_on(
            root,
            requested,
            lexical(root, requested, parts, absolute),
            disk,
        ) matches Ok(path) ==> inside(root, path),
{
    match lexical(root, requested, parts, absolute) {
        LexicalView::Refused(_) => {},
        LexicalView::Root => {
            assert(root.names.subrange(0, root.names.len() as int) =~= root.names);
        },
        LexicalView::Candidate(path) => {
            lemma_settled_inside(root, requested, path, path.names.len() as int, disk);
        },
    }
}

/// A relative request that climbs above the root at any point is refused
/// before the disk is looked at.
pub proof fn law_climbing_is_refused(
    root: PathView,
    requested: Seq<char>,
    parts: Seq<PartView>,
    disk: spec_fn(PathView) -> LocatedView,
)
    requires
        !requested.contains('\0'),
        !text::is_blank(requested),
        lexical_from(parts, 0, Seq::empty()) is None,
    ensures
        resolved_on(root, requested, lexical(root, requested, parts, false), disk) == Err::<
            PathView,
            Seq<char>,
        >(escape_text(requested)),
{
}

/// An absolute request that does not spell the root is taken for what it
/// says, never for something below the root: what exists there resolves to
/// its canonical form where that lies inside, and is refused where it lies
/// outside.
pub proof fn law_foreign_absolute_requests_keep_their_place(
    root: PathView,
    requested: Seq<char>,
    parts: Seq<PartView>,
    names: Seq<Seq<u8>>,
    existing: PathView,
    disk: spec_fn(PathView) -> LocatedView,
)
    requires
        !requested.contains('\0'),
        !text::is_blank(requested),
        !spells_root(parts, root),
        lexical_from(parts, 0, Seq::empty()) == Some(names),
        disk(PathView { prefix: request_prefix(parts), names }) == LocatedView::Canonical(existing),
    ensures
        resolved_on(root, requested, lexical(root, requested, parts, true), disk) == if inside(
            root,
            existing,
        ) {
            Ok::<PathView, Seq<char>>(existing)
        } else {
            Err(escape_text(requested))
        },
{
    let candidate = PathView { prefix: request_prefix(parts), names };
    assert(names.take(names.len() as int) =~= names);
    assert(names.skip(names.len() as int) =~= Seq::<Seq<u8>>::empty());
    assert(extended(existing, Seq::empty()) =~= existing);
    assert(lexical(root, requested, parts, true) =~= LexicalView::Candidate(candidate));
}

/// A file that does not exist yet resolves through its deepest existing
/// ancestor: the missing names are appended to that ancestor's canonical
/// form, so a link on the way counts.
pub proof fn law_missing_names_are_appended(
    root: PathView,
    requested: Seq<char>,
    candidate: PathView,
    depth: int,
    from: int,
    disk: spec_fn(PathView) -> LocatedView,
    existing: PathView,
)
    requires
        0 <= depth <= from <= candidate.names.len(),
        candidate.names.len() > 0,
        disk(PathView { names: candidate.names.take(depth), ..candidate })
            == LocatedView::Canonical(existing),
        forall|d: int|
            depth < d <= from ==> disk(
                PathView { names: #[trigger] candidate.names.take(d), ..candidate },
            ) is Nothing,
    ensures
        settled(root, requested, candidate, from, disk) == if inside(
            root,
            extended(existing, candidate.names.skip(depth)),
        ) {
            Ok::<PathView, Seq<char>>(extended(existing, candidate.names.skip(depth)))
        } else {
            Err(escape_text(requested))
        },
    decreases from,
{
    if depth < from {
        assert(disk(PathView { names: candidate.names.take(from), ..candidate }) is Nothing);
        law_missing_names_are_appended(
            root,
            requested,
            candidate,
            depth,
            from - 1,
            disk,
            existing,
        );
    }
}

/// A link that leads nowhere is never resolved through: where one is met on
/// the way up to the deepest existing ancestor, the request is refused.
pub proof fn law_broken_links_are_refused(
    root: PathView,
    requested: Seq<char>,
    candidate: PathView,
    depth: int,
    from: int,
    disk: spec_fn(PathView) -> LocatedView,
)
    requires
        0 <= depth <= from <= candidate.names.len(),
        candidate.names.len() > 0,
        disk(PathView { names: candidate.names.take(depth), ..candidate })
            == LocatedView::BrokenLink,
        forall|d: int|
            depth < d <= from ==> disk(
                PathView { names: #[trigger] candidate.names.take(d), ..candidate },
            ) is Nothing,
    ensures
        settled(root, requested, candidate, from, disk) == Err::<PathView, Seq<char>>(
            escape_text(requested),
        ),
    decreases from,
{
    if depth < from {
        assert(disk(PathView { names: candidate.names.take(from), ..candidate }) is Nothing);
        law_broken_links_are_refused(root, requested, candidate, depth, from - 1, disk);
    }
}

/// To a registry client a path is shown without the root: the outcome does
/// not depend on where the workspace lies.
pub proof fn law_registry_paths_hide_the_root(
    here: Workspace,
    there: Workspace,
    names: Seq<Seq<u8>>,
)
    requires
        here.separator_view() == there.separator_view(),
    ensures
        here.presented_view(
            extended(here.root_view(), names),
            PathPresentation::RegistryRelative,
        ) == there.presented_view(
            extended(there.root_view(), names),
            PathPresentation::RegistryRelative,
        ),
{
    let a = extended(here.root_view(), names);
    let b = extended(there.root_view(), names);
    assert(a.names.subrange(0, here.root_view().names.len() as int) =~= here.root_view().names);
    assert(b.names.subrange(0, there.root_view().names.len() as int) =~= there.root_view().names);
    assert(a.names.skip(here.root_view().names.len() as int) =~= names);
    assert(b.names.skip(there.root_view().names.len() as int) =~= names);
}

/// Whether a disk answers consistently: a path and its canonical form lead to
/// the same places.
pub open spec fn consistent(disk: spec_fn(PathView) -> LocatedView) -> bool {
    forall|a: PathView, c: PathView, names: Seq<Seq<u8>>|
        #![trigger extended(a, names), extended(c, names)]
        disk(a) == LocatedView::Canonical(c) ==> disk(extended(a, names)) == disk(
            extended(c, names),
        )
}

proof fn lemma_settles_again(
    root: PathView,
    requested: Seq<char>,
    candidate: PathView,
    depth: int,
    existing: PathView,
    j: int,
    disk: spec_fn(PathView) -> LocatedView,
)
    requires
        consistent(disk),
        0 <= depth <= candidate.names.len(),
        disk(PathView { names: candidate.names.take(depth), ..candidate })
            == LocatedView::Canonical(existing),
        forall|d: int|
            depth < d <= candidate.names.len() ==> disk(
                PathView { names: #[trigger] candidate.names.take(d), ..candidate },
            ) is Nothing,
        inside(root, extended(existing, candidate.names.skip(depth))),
        0 <= j <= candidate.names.len() - depth,
    ensures
        settled(
            root,
            requested,
            extended(existing, candidate.names.skip(depth)),
            existing.names.len() + j,
            disk,
        ) == Ok::<PathView, Seq<char>>(extended(existing, candidate.names.skip(depth))),
    decreases j,
{
    let missing = candidate.names.skip(depth);
    let path = extended(existing, missing);
    let met = PathView { names: candidate.names.take(depth), ..candidate };
    let asked = PathView { names: path.names.take(existing.names.len() + j), ..path };
    assert(asked =~= extended(existing, missing.take(j)));
    assert(disk(extended(met, missing.take(j))) == disk(extended(existing, missing.take(j))));
    assert(extended(met, missing.take(j)) =~= PathView {
        names: candidate.names.take(depth + j),
        ..candidate
    });
    if j == 0 {
        assert(asked =~= existing);
        assert(path.names.skip(existing.names.len() as int) =~= missing);
    } else {
        assert(disk(asked) is Nothing);
        lemma_settles_again(root, requested, candidate, depth, existing, j - 1, disk);
    }
}

proof fn lemma_outcome_settles(
    root: PathView,
    first: Seq<char>,
    again: Seq<char>,
    candidate: PathView,
    from: int,
    path: PathView,
    disk: spec_fn(PathView) -> LocatedView,
)
    requires
        consistent(disk),
        0 <= from <= candidate.names.len(),
        forall|d: int|
            from < d <= candidate.names.len() ==> disk(
                PathView { names: #[trigger] candidate.names.take(d), ..candidate },
            ) is Nothing,
        settled(root, first, candidate, from, disk) == Ok::<PathView, Seq<char>>(path),
    ensures
        settled(root, again, path, path.names.len() as int, disk) == Ok::<PathView, Seq<char>>(
            path,
        ),
    decreases from,
{
    match disk(PathView { names: candidate.names.take(from), ..candidate }) {
        LocatedView::Canonical(existing) => {
            lemma_settles_again(
                root,
                again,
                candidate,
                from,
                existing,
                candidate.names.len() - from,
                disk,
            );
        },
        LocatedView::BrokenLink => {},
        LocatedView::Nothing => {
            lemma_outcome_settles(root, first, again, candidate, from - 1, path, disk);
        },
    }
}

/// The components that stand for names.
pub open spec fn normal_parts(names: Seq<Seq<u8>>) -> Seq<PartView> {
    names.map_values(|name: Seq<u8>| PartView::Normal(name))
}

/// Whether components name a path of the workspace as it is shown: below the
/// root by the names below it, and the root itself by all of its names.
pub open spec fn names_as_shown(
    root: PathView,
    path: PathView,
    parts: Seq<PartView>,
    absolute: bool,
) -> bool {
    if path.names.len() > root.names.len() {
        parts == normal_parts(path.names.skip(root.names.len() as int)) && !absolute
    } else {
        let from = anchor_len(parts);
        absolute && request_prefix(parts) == root.prefix && parts.skip(from) == normal_parts(
            root.names,
        )
    }
}

/// Whether the platform splits a shown path back into what it shows.
pub open spec fn splits_back(ws: Workspace, path: PathView) -> bool {
    forall|parts: Seq<PartView>, absolute: bool|
        #[trigger] told_parts(ws.relative_view(path), parts) && #[trigger] told_absolute(
            ws.relative_view(path),
            absolute,
        ) ==> names_as_shown(ws.root_view(), path, parts, absolute)
}

proof fn lemma_lexical_names(names: Seq<Seq<u8>>, i: int)
    requires
        0 <= i <= names.len(),
    ensures
        lexical_from(normal_parts(names), i, names.take(i)) == Some(names),
    decreases names.len() - i,
{
    if i < names.len() {
        assert(names.take(i).push(names[i]) =~= names.take(i + 1));
        lemma_lexical_names(names, i + 1);
    } else {
        assert(names.take(i) =~= names);
    }
}

proof fn lemma_resolved_inside(
    root: PathView,
    requested: Seq<char>,
    view: LexicalView,
    path: PathView,
    disk: spec_fn(PathView) -> LocatedView,
)
    requires
        resolved_on(root, requested, view, disk) == Ok::<PathView, Seq<char>>(path),
    ensures
        inside(root, path),
{
    match view {
        LexicalView::Candidate(c) => {
            lemma_settled_inside(root, requested, c, c.names.len() as int, disk);
        },
        _ => {
            assert(root.names.subrange(0, root.names.len() as int) =~= root.names);
        },
    }
}

/// Where the platform splits a shown path back into what it shows, it resolves
/// back to itself.
pub proof fn law_paths_that_split_back_resolve_back(
    ws: Workspace,
    requested: Seq<char>,
    view: LexicalView,
    path: PathView,
    given: &str,
    again: ToolResult<FullPath>,
    disk: spec_fn(PathView) -> LocatedView,
)
    requires
        consistent(disk),
        resolved_on(ws.root_view(), requested, view, disk) == Ok::<PathView, Seq<char>>(path),
        given@ == ws.relative_view(path),
        !text::is_blank(given@),
        !given@.contains('\0'),
        splits_back(ws, path),
        ws.resolves(Some(given), disk, again),
    ensures
        finished(again) == Ok::<PathView, Seq<char>>(path),
{
    let root = ws.root_view();
    let (parts, absolute): (Seq<PartView>, bool) = choose|parts: Seq<PartView>, absolute: bool|
        finished(again) == resolved_on(
            root,
            given@,
            #[trigger] lexical(root, given@, parts, absolute),
            disk,
        ) && told_parts(given@, parts) && told_absolute(given@, absolute);
    assert(names_as_shown(root, path, parts, absolute));
    lemma_resolved_inside(root, requested, view, path, disk);
    if path.names.len() > root.names.len() {
        let below = path.names.skip(root.names.len() as int);
        lemma_lexical_names(below, 0);
        assert(below.take(0) =~= Seq::<Seq<u8>>::empty());
        assert(root.names + below =~= path.names);
        assert(lexical(root, given@, parts, absolute) =~= LexicalView::Candidate(path));
        match view {
            LexicalView::Candidate(c) => {
                lemma_outcome_settles(
                    root,
                    requested,
                    given@,
                    c,
                    c.names.len() as int,
                    path,
                    disk,
                );
            },
            _ => {},
        }
    } else {
        assert(path =~= root) by {
            assert(path.names.subrange(0, root.names.len() as int) =~= path.names);
        }
        let from = anchor_len(parts);
        assert(parts.skip(from).len() == root.names.len());
        assert forall|k: int| 0 <= k < root.names.len() implies #[trigger] parts[from + k]
            == PartView::Normal(root.names[k]) by {
            assert(parts.skip(from)[k] == parts[from + k]);
            assert(normal_parts(root.names)[k] == PartView::Normal(root.names[k]));
        }
        assert(spells_root(parts, root));
    }
}

/// What the root is shown as to a registry client resolves back to it.
pub proof fn law_dot_is_the_root(
    ws: Workspace,
    given: &str,
    again: ToolResult<FullPath>,
    disk: spec_fn(PathView) -> LocatedView,
)
    requires
        given@ == "."@,
        ws.resolves(Some(given), disk, again),
    ensures
        finished(again) == Ok::<PathView, Seq<char>>(ws.root_view()),
{
    reveal_strlit(".");
    let raw = given@;
    assert(raw.len() == 1 && raw[0] == '.');
    assert(is_neutral(raw));
    assert(!text::begins_with(raw, seq!['/'])) by {
        if text::begins_with(raw, seq!['/']) {
            assert(raw.subrange(0, 1)[0] == '/');
        }
    }
    assert(!text::is_blank(raw));
    lemma_no_separator_before(raw, 0, 1, false);
    assert(raw.subrange(0, 1) =~= seq!['.']);
    let parts = text_parts(raw, false);
    assert(parts =~= seq![PartView::CurDir]);
    assert(lexical_from(parts, 1, Seq::empty()) == Some(Seq::<Seq<u8>>::empty()));
    assert(lexical_from(parts, 0, Seq::empty()) == Some(Seq::<Seq<u8>>::empty()));
}

/// Texts joined by a separator.
pub open spec fn joined_texts(texts: Seq<Seq<char>>, separator: char) -> Seq<char>
    decreases texts.len(),
{
    if texts.len() == 0 {
        Seq::empty()
    } else if texts.len() == 1 {
        texts[0]
    } else {
        texts[0] + seq![separator] + joined_texts(texts.skip(1), separator)
    }
}

/// Whether a text can be the name of a file where a backslash separates or
/// does not. Where it does, a colon cannot stand in one either.
pub open spec fn is_name(name: Seq<char>, backslash: bool) -> bool {
    &&& name.len() > 0
    &&& forall|k: int| 0 <= k < name.len() ==> !separates(#[trigger] name[k], backslash)
    &&& name != seq!['.']
    &&& name != seq!['.', '.']
    &&& !name.contains('\0')
    &&& backslash ==> !name.contains(':')
}

/// The separator that paths are shown with.
pub open spec fn shown_separator(backslash: bool) -> char {
    if backslash {
        '\\'
    } else {
        '/'
    }
}

/// Names as bytes.
pub open spec fn encoded(texts: Seq<Seq<char>>) -> Seq<Seq<u8>> {
    texts.map_values(|name: Seq<char>| vstd::utf8::encode_utf8(name))
}

proof fn lemma_joined_front(names: Seq<Seq<u8>>, separator: u8)
    requires
        names.len() >= 2,
    ensures
        joined(names, separator) == names[0].push(separator) + joined(names.skip(1), separator),
    decreases names.len(),
{
    if names.len() == 2 {
        assert(names.drop_last() =~= seq![names[0]]);
        assert(names.skip(1) =~= seq![names[1]]);
        assert(joined(names.drop_last(), separator) == names[0]);
        assert(joined(names.skip(1), separator) == names[1]);
    } else {
        lemma_joined_front(names.drop_last(), separator);
        assert(names.drop_last().skip(1) =~= names.skip(1).drop_last());
        assert(joined(names, separator) =~= names[0].push(separator) + joined(
            names.skip(1),
            separator,
        ));
    }
}

proof fn lemma_joined_texts_bytes(texts: Seq<Seq<char>>, separator: char)
    requires
        (separator as u32) < 128,
    ensures
        joined(encoded(texts), separator as u8) == vstd::utf8::encode_utf8(
            joined_texts(texts, separator),
        ),
    decreases texts.len(),
{
    if texts.len() >= 2 {
        let byte = separator as u8;
        lemma_joined_texts_bytes(texts.skip(1), separator);
        lemma_joined_front(encoded(texts), byte);
        assert(encoded(texts).skip(1) =~= encoded(texts.skip(1)));
        text::lemma_encode_concat(texts[0], seq![separator]);
        text::lemma_encode_concat(texts[0] + seq![separator], joined_texts(texts.skip(1), separator));
        text::lemma_encode_ascii(separator);
        assert(encoded(texts)[0].push(byte) =~= encoded(texts)[0] + seq![byte]);
    }
}

proof fn lemma_no_separator_before(raw: Seq<char>, from: int, end: int, backslash: bool)
    requires
        0 <= from <= end <= raw.len(),
        forall|k: int| from <= k < end ==> !separates(#[trigger] raw[k], backslash),
        end < raw.len() ==> separates(raw[end], backslash),
    ensures
        separator_from(raw, from, backslash) == end,
    decreases end - from,
{
    if from < end {
        assert(!separates(raw[from], backslash));
        lemma_no_separator_before(raw, from + 1, end, backslash);
    }
}

proof fn lemma_split_names(raw: Seq<char>, from: int, texts: Seq<Seq<char>>, backslash: bool)
    requires
        0 <= from <= raw.len(),
        raw.skip(from) == joined_texts(texts, shown_separator(backslash)),
        forall|k: int| 0 <= k < texts.len() ==> is_name(#[trigger] texts[k], backslash),
    ensures
        split_parts(raw, from, backslash) == normal_parts(encoded(texts)),
    decreases texts.len(),
{
    let separator = shown_separator(backslash);
    if texts.len() == 0 {
        assert(raw.skip(from).len() == 0);
        assert(normal_parts(encoded(texts)) =~= Seq::<PartView>::empty());
        assert(raw.subrange(from, raw.len() as int).len() == 0);
    } else {
        let name = texts[0];
        let end = from + name.len();
        assert(is_name(texts[0], backslash));
        assert(raw.skip(from).len() == raw.len() - from);
        assert(joined_texts(texts, separator).len() >= name.len());
        assert forall|k: int| from <= k < end implies !separates(#[trigger] raw[k], backslash) by {
            assert(raw.skip(from)[k - from] == raw[k]);
            assert(joined_texts(texts, separator)[k - from] == name[k - from]);
        }
        if texts.len() == 1 {
            lemma_no_separator_before(raw, from, end, backslash);
            assert(raw.subrange(from, end) =~= name);
            assert(normal_parts(encoded(texts)) =~= seq![
                PartView::Normal(vstd::utf8::encode_utf8(name)),
            ]);
        } else {
            assert(raw.skip(from)[end - from] == separator);
            lemma_no_separator_before(raw, from, end, backslash);
            assert(raw.subrange(from, end) =~= name) by {
                assert forall|k: int| 0 <= k < name.len() implies raw[from + k] == name[k] by {
                    assert(raw.skip(from)[k] == raw[from + k]);
                }
            }
            assert(raw.skip(end + 1) =~= joined_texts(texts.skip(1), separator)) by {
                assert(raw.skip(from).skip(name.len() as int + 1) =~= raw.skip(end + 1));
                assert(joined_texts(texts, separator).skip(name.len() as int + 1) =~= joined_texts(
                    texts.skip(1),
                    separator,
                ));
            }
            lemma_split_names(raw, end + 1, texts.skip(1), backslash);
            assert(normal_parts(encoded(texts)) =~= seq![
                PartView::Normal(vstd::utf8::encode_utf8(name)),
            ] + normal_parts(encoded(texts.skip(1))));
        }
    }
}

proof fn lemma_joined_texts_lack(texts: Seq<Seq<char>>, separator: char, c: char)
    requires
        c != separator,
        forall|k: int| 0 <= k < texts.len() ==> !(#[trigger] texts[k]).contains(c),
    ensures
        !joined_texts(texts, separator).contains(c),
    decreases texts.len(),
{
    let all = joined_texts(texts, separator);
    if texts.len() > 0 {
        assert(!texts[0].contains(c));
        if texts.len() > 1 {
            let rest = joined_texts(texts.skip(1), separator);
            assert forall|k: int| 0 <= k < texts.skip(1).len() implies !(#[trigger] texts.skip(
                1,
            )[k]).contains(c) by {
                assert(texts.skip(1)[k] == texts[k + 1]);
            }
            lemma_joined_texts_lack(texts.skip(1), separator, c);
            if all.contains(c) {
                let k = choose|k: int| 0 <= k < all.len() && all[k] == c;
                let head = texts[0].len();
                if k < head {
                    assert(texts[0][k] == c);
                } else if k > head {
                    assert(rest[k - head - 1] == c);
                }
            }
        }
    }
}

/// Whether a path is one that a platform can show in a text: its names are
/// valid text and can be names there, and they are joined by the separator
/// that the platform shows. The root itself is shown in full: it has no
/// platform prefix, and the platform takes its text, which begins with a slash,
/// for absolute.
pub open spec fn can_be_shown(
    ws: Workspace,
    path: PathView,
    texts: Seq<Seq<char>>,
    backslash: bool,
) -> bool {
    &&& told_separator('\\', backslash)
    &&& ws.separator_view() == shown_separator(backslash) as u8
    &&& path.names == encoded(texts)
    &&& forall|k: int| 0 <= k < texts.len() ==> is_name(#[trigger] texts[k], backslash)
    &&& path == ws.root_view() ==> !backslash && path.prefix.len() == 0 && !told_absolute(
        ws.relative_view(path),
        false,
    )
}

proof fn lemma_shown_text(
    ws: Workspace,
    path: PathView,
    texts: Seq<Seq<char>>,
    backslash: bool,
)
    requires
        inside(ws.root_view(), path),
        can_be_shown(ws, path, texts, backslash),
    ensures
        splits_back(ws, path),
        !ws.relative_view(path).contains('\0'),
{
    let root = ws.root_view();
    let shown = ws.relative_view(path);
    let separator = shown_separator(backslash);
    let depth = root.names.len() as int;
    let below = texts.skip(depth);
    assert forall|k: int| 0 <= k < below.len() implies is_name(#[trigger] below[k], backslash) by {
        assert(below[k] == texts[depth + k]);
    }
    if path.names.len() > root.names.len() {
        assert(path.names.skip(depth) =~= encoded(below));
        lemma_joined_texts_bytes(below, separator);
        text::lemma_decoded_again(joined_texts(below, separator));
        assert(shown == joined_texts(below, separator));
        lemma_joined_texts_lack(below, separator, '\0');
        if backslash {
            lemma_joined_texts_lack(below, separator, ':');
        }
        assert(!separates(shown[0], backslash)) by {
            assert(is_name(below[0], backslash));
            assert(shown[0] == below[0][0]);
        }
        assert(is_plain(shown, backslash));
        assert(shown.skip(0) =~= shown);
        lemma_split_names(shown, 0, below, backslash);
        assert forall|parts: Seq<PartView>, absolute: bool|
            #[trigger] told_parts(shown, parts) && #[trigger] told_absolute(
                shown,
                absolute,
            ) implies names_as_shown(root, path, parts, absolute) by {
            law_plain_texts_are_split_at_separators(shown, backslash, parts, absolute);
        }
    } else {
        assert(path.names.subrange(0, root.names.len() as int) =~= path.names);
        assert(path =~= root);
        lemma_joined_texts_bytes(texts, '/');
        text::lemma_encode_concat(seq!['/'], joined_texts(texts, '/'));
        text::lemma_encode_ascii('/');
        text::lemma_decoded_again(seq!['/'] + joined_texts(texts, '/'));
        assert(path_bytes(path, 47) =~= seq![47u8] + joined(path.names, 47));
        assert(shown == seq!['/'] + joined_texts(texts, '/'));
        assert(shown.skip(1) =~= joined_texts(texts, '/'));
        lemma_joined_texts_lack(texts, '/', '\0');
        assert(!shown.contains('\0')) by {
            if shown.contains('\0') {
                let k = choose|k: int| 0 <= k < shown.len() && shown[k] == '\0';
                assert(joined_texts(texts, '/')[k - 1] == '\0');
            }
        }
        lemma_split_names(shown, 1, texts, false);
        assert forall|parts: Seq<PartView>, absolute: bool|
            #[trigger] told_parts(shown, parts) && #[trigger] told_absolute(
                shown,
                absolute,
            ) implies names_as_shown(root, path, parts, absolute) by {
            law_plain_texts_are_split_at_separators(shown, backslash, parts, absolute);
            assert(parts[0] is RootDir);
            assert(root.prefix =~= Seq::<u8>::empty());
            assert(parts.skip(1) =~= normal_parts(root.names));
        }
    }
}

/// A shown path resolves back to itself: what a request resolved to, asked for
/// again by the text that it is shown as, resolves to the same path, while the
/// disk does not change.
pub proof fn law_shown_paths_resolve_back(
    ws: Workspace,
    requested: Seq<char>,
    view: LexicalView,
    path: PathView,
    texts: Seq<Seq<char>>,
    backslash: bool,
    given: &str,
    again: ToolResult<FullPath>,
    disk: spec_fn(PathView) -> LocatedView,
)
    requires
        consistent(disk),
        resolved_on(ws.root_view(), requested, view, disk) == Ok::<PathView, Seq<char>>(path),
        can_be_shown(ws, path, texts, backslash),
        given@ == ws.relative_view(path),
        !text::is_blank(given@),
        ws.resolves(Some(given), disk, again),
    ensures
        finished(again) == Ok::<PathView, Seq<char>>(path),
{
    lemma_resolved_inside(ws.root_view(), requested, view, path, disk);
    lemma_shown_text(ws, path, texts, backslash);
    law_paths_that_split_back_resolve_back(ws, requested, view, path, given, again, disk);
}

// ---------------------------------------------------------------------------
// Contexts
// ---------------------------------------------------------------------------

/// What every tool operates against: a workspace, its id where it has one,
/// and what is allowed in it.
#[derive(Debug)]
pub struct WorkspaceContext {
    id: Option<WorkspaceId>,
    resolver: Workspace,
    permissions: Permissions,
}

impl WorkspaceContext {
    /// The logical id; a single workspace has none.
    pub closed spec fn id_view(self) -> Option<Seq<char>> {
        match self.id {
            Some(id) => Some(id@),
            None => None,
        }
    }

    /// The workspace.
    pub closed spec fn resolver_view(self) -> Workspace {
        self.resolver
    }

    /// What is allowed.
    pub closed spec fn permissions_view(self) -> Permissions {
        self.permissions
    }

    /// Assembles a context.
    pub fn new(id: Option<WorkspaceId>, resolver: Workspace, permissions: Permissions) -> (context:
        WorkspaceContext)
        ensures
            context.id_view() == (match id {
                Some(id) => Some(id@),
                None => None,
            }),
            context.resolver_view() == resolver,
            context.permissions_view() == permissions,
    {
        WorkspaceContext { id, resolver, permissions }
    }

    /// The logical id; a single workspace has none.
    pub fn id(&self) -> (id: Option<&WorkspaceId>)
        ensures
            self.id_view() == (match id {
                Some(id) => Some(id@),
                None => None,
            }),
    {
        self.id.as_ref()
    }

    /// The canonical root.
    pub fn root(&self) -> (root: &FullPath)
        ensures
            root@ == self.resolver_view().root_view(),
    {
        self.resolver.root()
    }

    /// The path resolver.
    pub fn resolver(&self) -> (resolver: &Workspace)
        ensures
            *resolver == self.resolver_view(),
    {
        &self.resolver
    }

    /// What is allowed.
    pub fn permissions(&self) -> (permissions: &Permissions)
        ensures
            *permissions == self.permissions_view(),
    {
        &self.permissions
    }
}

// ---------------------------------------------------------------------------
// Laws of the parts
// ---------------------------------------------------------------------------

/// Components are followed one after the other: what is reached by all of
/// them is what the later ones reach from where the earlier ones lead.
pub proof fn law_components_are_followed_in_turn(
    first: Seq<PartView>,
    then_parts: Seq<PartView>,
    stack: Seq<Seq<u8>>,
)
    ensures
        lexical_from(first + then_parts, 0, stack) == match lexical_from(first, 0, stack) {
            None => None,
            Some(reached) => lexical_from(then_parts, 0, reached),
        },
{
    lemma_in_turn(first, then_parts, 0, stack);
}

proof fn lemma_in_turn(
    first: Seq<PartView>,
    then_parts: Seq<PartView>,
    i: int,
    stack: Seq<Seq<u8>>,
)
    requires
        0 <= i <= first.len(),
    ensures
        lexical_from(first + then_parts, i, stack) == match lexical_from(first, i, stack) {
            None => None,
            Some(reached) => lexical_from(then_parts, 0, reached),
        },
    decreases first.len() - i,
{
    let all = first + then_parts;
    if i < first.len() {
        assert(all[i] == first[i]);
        match first[i] {
            PartView::Normal(name) => {
                lemma_in_turn(first, then_parts, i + 1, stack.push(name));
            },
            PartView::ParentDir => {
                if stack.len() > 0 {
                    lemma_in_turn(first, then_parts, i + 1, stack.drop_last());
                }
            },
            _ => {
                lemma_in_turn(first, then_parts, i + 1, stack);
            },
        }
    } else {
        lemma_shifted(first, then_parts, 0, stack);
    }
}

proof fn lemma_shifted(
    first: Seq<PartView>,
    then_parts: Seq<PartView>,
    i: int,
    stack: Seq<Seq<u8>>,
)
    requires
        0 <= i <= then_parts.len(),
    ensures
        lexical_from(first + then_parts, first.len() + i, stack) == lexical_from(
            then_parts,
            i,
            stack,
        ),
    decreases then_parts.len() - i,
{
    let all = first + then_parts;
    if i < then_parts.len() {
        assert(all[first.len() + i] == then_parts[i]);
        match then_parts[i] {
            PartView::Normal(name) => {
                lemma_shifted(first, then_parts, i + 1, stack.push(name));
            },
            PartView::ParentDir => {
                if stack.len() > 0 {
                    lemma_shifted(first, then_parts, i + 1, stack.drop_last());
                }
            },
            _ => {
                lemma_shifted(first, then_parts, i + 1, stack);
            },
        }
    }
}

/// One component at a time: a name is entered, `..` takes back the last name
/// and climbs where there is none, and anything else stays.
pub proof fn law_each_component_leads_on(part: PartView, stack: Seq<Seq<u8>>)
    ensures
        lexical_from(Seq::empty(), 0, stack) == Some(stack),
        lexical_from(seq![part], 0, stack) == match part {
            PartView::Normal(name) => Some(stack + seq![name]),
            PartView::ParentDir => if stack.len() == 0 {
                None
            } else {
                Some(stack.take(stack.len() - 1))
            },
            _ => Some(stack),
        },
{
    let parts = seq![part];
    match part {
        PartView::Normal(name) => {
            assert(stack.push(name) =~= stack + seq![name]);
            assert(lexical_from(parts, 1, stack.push(name)) == Some(stack.push(name)));
        },
        PartView::ParentDir => {
            if stack.len() > 0 {
                assert(stack.drop_last() =~= stack.take(stack.len() - 1));
                assert(lexical_from(parts, 1, stack.drop_last()) == Some(stack.drop_last()));
            }
        },
        _ => {
            assert(lexical_from(parts, 1, stack) == Some(stack));
        },
    }
}

/// A name and the `..` behind it cancel wherever they stand.
pub proof fn law_parent_takes_back_a_name(
    before: Seq<PartView>,
    name: Seq<u8>,
    after: Seq<PartView>,
    stack: Seq<Seq<u8>>,
)
    ensures
        lexical_from(
            before + seq![PartView::Normal(name), PartView::ParentDir] + after,
            0,
            stack,
        ) == lexical_from(before + after, 0, stack),
{
    let pair = seq![PartView::Normal(name), PartView::ParentDir];
    law_components_are_followed_in_turn(before, after, stack);
    law_components_are_followed_in_turn(before + pair, after, stack);
    law_components_are_followed_in_turn(before, pair, stack);
    if let Some(reached) = lexical_from(before, 0, stack) {
        assert(pair =~= seq![PartView::Normal(name)] + seq![PartView::ParentDir]);
        law_components_are_followed_in_turn(
            seq![PartView::Normal(name)],
            seq![PartView::ParentDir],
            reached,
        );
        law_each_component_leads_on(PartView::Normal(name), reached);
        law_each_component_leads_on(PartView::ParentDir, reached + seq![name]);
        assert((reached + seq![name]).take(reached.len() as int) =~= reached);
    }
}

/// Names are entered in order, each below the one before it.
pub proof fn law_names_are_entered_in_order(names: Seq<Seq<u8>>)
    ensures
        lexical_from(normal_parts(names), 0, Seq::empty()) == Some(names),
{
    lemma_lexical_names(names, 0);
    assert(names.take(0) =~= Seq::<Seq<u8>>::empty());
}

/// A relative request stands for what its components lead to below the root.
pub proof fn law_relative_requests_lie_below_the_root(
    root: PathView,
    requested: Seq<char>,
    parts: Seq<PartView>,
    names: Seq<Seq<u8>>,
)
    requires
        !requested.contains('\0'),
        !text::is_blank(requested),
        lexical_from(parts, 0, Seq::empty()) == Some(names),
    ensures
        names.len() == 0 ==> lexical(root, requested, parts, false) is Root,
        names.len() > 0 ==> lexical(root, requested, parts, false) == LexicalView::Candidate(
            extended(root, names),
        ),
{
}

/// A request that is nothing but white space stands for the root, and one
/// that holds a NUL for nothing.
pub proof fn law_blank_requests_and_nul(
    root: PathView,
    requested: Seq<char>,
    parts: Seq<PartView>,
    absolute: bool,
)
    ensures
        requested.contains('\0') ==> lexical(root, requested, parts, absolute) is Refused,
        !requested.contains('\0') && (forall|i: int|
            0 <= i < requested.len() ==> text::is_white_space(#[trigger] requested[i])) ==> lexical(
            root,
            requested,
            parts,
            absolute,
        ) is Root,
{
}

/// An absolute request that spells the root and goes on is what the rest of
/// it is relative to the root; one that spells another place keeps it.
pub proof fn law_absolute_requests_below_the_root(
    root: PathView,
    requested: Seq<char>,
    rest: Seq<PartView>,
)
    requires
        !text::is_blank(requested),
    ensures
        root.prefix.len() == 0 ==> lexical(
            root,
            requested,
            seq![PartView::RootDir] + normal_parts(root.names) + rest,
            true,
        ) == lexical(root, requested, rest, false),
        lexical(
            root,
            requested,
            seq![PartView::Prefix(root.prefix), PartView::RootDir] + normal_parts(root.names) + rest,
            true,
        ) == lexical(root, requested, rest, false),
{
    let none = Seq::<Seq<u8>>::empty();
    let head = seq![PartView::RootDir];
    let middle = normal_parts(root.names);
    if root.prefix.len() == 0 {
        let parts = head + middle + rest;
        assert(parts[0] is RootDir);
        assert(anchor_len(parts) == 1);
        assert(root.prefix =~= Seq::<u8>::empty());
        assert forall|k: int| 0 <= k < root.names.len() implies #[trigger] parts[1 + k]
            == PartView::Normal(root.names[k]) by {}
        assert(spells_root(parts, root));
        lemma_shifted(head + middle, rest, 0, none);
        assert((head + middle).len() == 1 + root.names.len());
    }
    let head = seq![PartView::Prefix(root.prefix), PartView::RootDir];
    let parts = head + middle + rest;
    assert(parts[0] == PartView::Prefix(root.prefix));
    assert(parts[1] is RootDir);
    assert(anchor_len(parts) == 2);
    assert forall|k: int| 0 <= k < root.names.len() implies #[trigger] parts[2 + k]
        == PartView::Normal(root.names[k]) by {}
    assert(spells_root(parts, root));
    lemma_shifted(head + middle, rest, 0, none);
    assert((head + middle).len() == 2 + root.names.len());
}

/// A path lies inside another exactly where it is that path with names below
/// it.
pub proof fn law_inside_means_below(root: PathView, path: PathView)
    ensures
        inside(root, path) <==> exists|names: Seq<Seq<u8>>| path == #[trigger] extended(root, names),
{
    if inside(root, path) {
        let names = path.names.skip(root.names.len() as int);
        assert(root.names + names =~= path.names);
        assert(path == extended(root, names));
    }
    if exists|names: Seq<Seq<u8>>| path == #[trigger] extended(root, names) {
        let names = choose|names: Seq<Seq<u8>>| path == #[trigger] extended(root, names);
        assert(path.names.subrange(0, root.names.len() as int) =~= root.names);
    }
}

/// The directories above a path: the nearest is the path without its last
/// name, and each further one is above the one before.
pub proof fn law_ancestors_drop_names(path: PathView, name: Seq<u8>, k: int)
    requires
        0 <= k < path.names.len(),
    ensures
        ancestor(extended(path, seq![name]), 0) == path,
        ancestor(extended(path, seq![name]), k + 1) == ancestor(path, k),
{
    let longer = extended(path, seq![name]);
    assert(longer.names.take(path.names.len() as int) =~= path.names);
    assert(longer.names.take(path.names.len() - 1 - k) =~= path.names.take(
        path.names.len() - 1 - k,
    ));
}

/// Names are joined in order, with one separator between two of them.
pub proof fn law_names_are_joined_in_order(
    front: Seq<Seq<u8>>,
    name: Seq<u8>,
    separator: u8,
    prefix: Seq<u8>,
)
    ensures
        joined(seq![name], separator) == name,
        front.len() > 0 ==> joined(front + seq![name], separator) == joined(front, separator)
            + seq![separator] + name,
        path_bytes(PathView { prefix, names: front }, separator) == prefix + seq![separator] + joined(
            front,
            separator,
        ),
{
    let all = front + seq![name];
    assert(all.drop_last() =~= front);
    assert(all.last() == name);
    assert(joined(front, separator).push(separator) =~= joined(front, separator) + seq![separator]);
    assert(prefix.push(separator) =~= prefix + seq![separator]);
}

/// What lies below the root is shown by its names below it, in either
/// presentation; the root itself is shown in full to a single workspace and
/// as a dot to a registry client, to whom nothing outside is shown.
pub proof fn law_paths_are_shown_from_the_root(
    ws: Workspace,
    names: Seq<Seq<u8>>,
    path: PathView,
    presentation: PathPresentation,
)
    ensures
        names.len() > 0 ==> ws.presented_view(extended(ws.root_view(), names), presentation)
            == text::decoded_text(joined(names, ws.separator_view())),
        ws.presented_view(ws.root_view(), PathPresentation::SingleCompatible) == text::decoded_text(
            path_bytes(ws.root_view(), ws.separator_view()),
        ),
        ws.presented_view(ws.root_view(), PathPresentation::RegistryRelative) == "."@,
        !inside(ws.root_view(), path) ==> ws.presented_view(path, PathPresentation::RegistryRelative)
            == "."@ && ws.presented_view(path, PathPresentation::SingleCompatible)
            == text::decoded_text(path_bytes(path, ws.separator_view())),
{
    let below = extended(ws.root_view(), names);
    let depth = ws.root_view().names.len() as int;
    assert(below.names.subrange(0, depth) =~= ws.root_view().names);
    assert(below.names.skip(depth) =~= names);
}

/// A workspace is named by the last name of its root.
pub proof fn law_workspaces_are_named_by_their_directory(
    ws: Workspace,
    above: PathView,
    name: Seq<u8>,
)
    requires
        ws.root_view() == extended(above, seq![name]),
    ensures
        ws.name_view() == text::decoded_text(name),
{
    assert(ws.root_view().names.last() == name);
}

/// What exists resolves to its canonical form where that lies inside the
/// workspace, and is refused as leading outside where it does not.
pub proof fn law_existing_paths_resolve_to_their_form(
    root: PathView,
    requested: Seq<char>,
    candidate: PathView,
    existing: PathView,
    disk: spec_fn(PathView) -> LocatedView,
)
    requires
        disk(candidate) == LocatedView::Canonical(existing),
    ensures
        resolved_on(root, requested, LexicalView::Candidate(candidate), disk) == if inside(
            root,
            existing,
        ) {
            Ok::<PathView, Seq<char>>(existing)
        } else {
            Err("Path resolves outside the configured workspace: "@ + requested)
        },
{
    let count = candidate.names.len() as int;
    assert(candidate.names.take(count) =~= candidate.names);
    assert(candidate.names.skip(count) =~= Seq::<Seq<u8>>::empty());
    assert(extended(existing, Seq::empty()) =~= existing);
}

/// A request is resolved as it is given, and none is the root: a text that
/// means the same everywhere and is relative resolves to what its parts lead
/// to from the root.
pub proof fn law_requests_are_resolved_as_given(
    ws: Workspace,
    given: &str,
    disk: spec_fn(PathView) -> LocatedView,
    result: ToolResult<FullPath>,
)
    requires
        ws.resolves(Some(given), disk, result),
    ensures
        is_neutral(given@) && !text::begins_with(given@, seq!['/']) ==> finished(result)
            == resolved_on(
            ws.root_view(),
            given@,
            lexical(ws.root_view(), given@, text_parts(given@, false), false),
            disk,
        ),
        exists|parts: Seq<PartView>, absolute: bool|
            told_parts(given@, parts) && told_absolute(given@, absolute) && finished(result)
                == resolved_on(
                ws.root_view(),
                given@,
                #[trigger] lexical(ws.root_view(), given@, parts, absolute),
                disk,
            ),
{
}

/// Without a request the root is meant.
pub proof fn law_no_request_is_the_root(
    ws: Workspace,
    disk: spec_fn(PathView) -> LocatedView,
    result: ToolResult<FullPath>,
)
    requires
        ws.resolves(None, disk, result),
    ensures
        result matches Ok(path) && path@ == ws.root_view(),
{
    assert(raw_request(None) =~= Seq::<char>::empty());
}

/// A resolution follows what the disk answers.
pub proof fn law_resolutions_follow_the_disk<F: Fn(&FullPath) -> Located>(
    ws: Workspace,
    requested: Option<&str>,
    locate: F,
    disk: spec_fn(PathView) -> LocatedView,
    result: ToolResult<FullPath>,
)
    requires
        ws.resolves_by(requested, locate, result),
        forall|path: &FullPath, located: Located|
            #[trigger] call_ensures(locate, (path,), located) ==> located@ == disk(path@),
    ensures
        ws.resolves(requested, disk, result),
        result matches Ok(path) ==> inside(ws.root_view(), path@),
{
    assert(answers_as(locate, disk));
}

/// What lists of names and of components are is what each element is, one by
/// one.
pub proof fn law_path_views_are_the_elements(names: Seq<Vec<u8>>, parts: Seq<PathPart>)
    ensures
        name_views(names).len() == names.len(),
        forall|i: int| 0 <= i < names.len() ==> (#[trigger] name_views(names)[i]) == names[i]@,
        part_views(parts).len() == parts.len(),
        forall|i: int|
            0 <= i < parts.len() ==> match parts[i] {
                PathPart::Prefix(bytes) => (#[trigger] part_views(parts)[i]) == PartView::Prefix(
                    bytes@,
                ),
                PathPart::RootDir => part_views(parts)[i] is RootDir,
                PathPart::CurDir => part_views(parts)[i] is CurDir,
                PathPart::ParentDir => part_views(parts)[i] is ParentDir,
                PathPart::Normal(bytes) => part_views(parts)[i] == PartView::Normal(bytes@),
            },
{
}

/// An absolute request spells the root only where its names are those of the
/// root, all of them and in order, behind nothing but a prefix and the root
/// directory, and the prefix is the root's.
pub proof fn law_only_the_root_spells_the_root(parts: Seq<PartView>, root: PathView)
    requires
        spells_root(parts, root),
    ensures
        exists|from: int|
            0 <= from <= 2 && from + root.names.len() <= parts.len() && (forall|k: int|
                0 <= k < from ==> (#[trigger] parts[k] is Prefix) || parts[k] is RootDir)
                && #[trigger] parts.subrange(from, from + root.names.len()) == normal_parts(
                root.names,
            ),
        parts.len() > 0 ==> (parts[0] matches PartView::Prefix(prefix) ==> prefix == root.prefix),
        parts.len() == 0 || !(parts[0] is Prefix) ==> root.prefix.len() == 0,
{
    let from = anchor_len(parts);
    let spelled = parts.subrange(from, from + root.names.len());
    assert forall|k: int| 0 <= k < root.names.len() implies spelled[k] == normal_parts(
        root.names,
    )[k] by {
        assert(parts[from + k] == PartView::Normal(root.names[k]));
    }
    assert(spelled =~= normal_parts(root.names));
}

/// An absolute request that climbs above the root directory is refused.
pub proof fn law_absolute_climbing_is_refused(
    root: PathView,
    requested: Seq<char>,
    parts: Seq<PartView>,
)
    requires
        !requested.contains('\0'),
        !text::is_blank(requested),
        !spells_root(parts, root),
        lexical_from(parts, 0, Seq::empty()) is None,
    ensures
        lexical(root, requested, parts, true) == LexicalView::Refused(
            "Path resolves outside the configured workspace: "@ + requested,
        ),
{
}

} // verus!
