//! `search`: which files are looked at, and which matches are kept.
use crate::config::Limits;
use crate::error::{ToolError, ToolResult};
use crate::text;
use crate::tools;
use crate::tools::command;
use crate::tools::glob;
use crate::tools::glob::PathFilter;
use crate::workspace::{FullPath, Located, PathPresentation, PathView, WorkspaceContext};
use crate::workspace_id::WorkspaceId;
use vstd::prelude::*;

verus! {

broadcast use vstd::string::group_string_axioms;

/// Arguments of `search`.
#[derive(Debug)]
pub struct SearchArgs {
    /// The text or regular expression to look for.
    pub query: String,
    /// The directory or file to search, relative to the workspace root.
    pub path: Option<String>,
    /// A filter on file paths.
    pub glob: Option<String>,
    /// Match without regard to case.
    pub ignore_case: bool,
    /// Take the query as fixed text.
    pub literal: bool,
    /// The most matches to return.
    pub max_results: Option<usize>,
}

/// Arguments of `search` in registry mode.
#[derive(Debug)]
pub struct RegistrySearchArgs {
    /// The logical id of the workspace to search.
    pub workspace: WorkspaceId,
    /// What to look for.
    pub args: SearchArgs,
}

// ---------------------------------------------------------------------------
// Patterns
// ---------------------------------------------------------------------------

/// Characters with a meaning in a regular expression.
pub open spec fn is_meta(c: char) -> bool {
    c == '\\' || c == '.' || c == '+' || c == '*' || c == '?' || c == '(' || c == ')' || c == '|'
        || c == '[' || c == ']' || c == '{' || c == '}' || c == '^' || c == '$' || c == '#' || c
        == '&' || c == '-' || c == '~'
}

/// A text as a regular expression for itself: a backslash in front of every
/// character with a meaning.
pub open spec fn escaped(s: Seq<char>) -> Seq<char>
    decreases s.len(),
{
    if s.len() == 0 {
        Seq::empty()
    } else if is_meta(s.last()) {
        escaped(s.drop_last()).push('\\').push(s.last())
    } else {
        escaped(s.drop_last()).push(s.last())
    }
}

/// Escapes a text with `regex::escape`: every character with a meaning gets a
/// backslash in front, and nothing else changes.
#[verifier::external_body]
fn escape(s: &str) -> (pattern: String)
    ensures
        pattern@ == escaped(s@),
{
    regex::escape(s)
}

/// `grep_regex::RegexMatcher`, a compiled search expression.
#[verifier::external_type_specification]
#[verifier::external_body]
pub struct ExRegexMatcher(grep_regex::RegexMatcher);

/// Why a pattern is not a search expression, on a machine with words of the
/// given size: the compiled size is bounded, and counts in words.
pub uninterp spec fn pattern_fault(
    pattern: Seq<char>,
    ignore_case: bool,
    word_bits: u32,
) -> Option<Seq<char>>;

/// The expression that a matcher was built from, and whether it matches
/// without regard to case.
pub uninterp spec fn matcher_source(matcher: grep_regex::RegexMatcher) -> (Seq<char>, bool);

/// Compiles a search expression with `grep_regex::RegexMatcherBuilder`, all
/// other options as they are by default; the error, if any, is named
/// [`pattern_fault`], and what the matcher was built from [`matcher_source`].
/// What the matcher finds is not said here: nothing in this library asks it.
#[verifier::external_body]
fn compile(pattern: &str, ignore_case: bool) -> (result: Result<grep_regex::RegexMatcher, String>)
    ensures
        match result {
            Ok(matcher) => pattern_fault(pattern@, ignore_case, usize::BITS) is None
                && matcher_source(matcher) == (pattern@, ignore_case),
            Err(e) => pattern_fault(pattern@, ignore_case, usize::BITS) == Some(e@),
        },
{
    grep_regex::RegexMatcherBuilder::new().case_insensitive(ignore_case).build(pattern).map_err(
        |e| e.to_string(),
    )
}

/// The pattern of a query.
pub open spec fn query_pattern(query: Seq<char>, literal: bool) -> Seq<char> {
    if literal {
        escaped(text::trimmed(query))
    } else {
        text::trimmed(query)
    }
}

/// The most matches that a request may get.
pub open spec fn result_cap(requested: Option<usize>, limits: Limits) -> int {
    let wanted = match requested {
        Some(n) => n,
        None => limits.default_search_results,
    };
    if wanted < 1 {
        1
    } else if wanted > limits.max_search_results_cap {
        limits.max_search_results_cap as int
    } else {
        wanted as int
    }
}

// ---------------------------------------------------------------------------
// Territory
// ---------------------------------------------------------------------------

/// The names of a resolved path below the root, as text.
pub open spec fn names_below(root: PathView, path: PathView) -> Seq<Seq<char>> {
    path.names.skip(root.names.len() as int).map_values(|name: Seq<u8>| text::decoded_text(name))
}

/// The first name from index `k` on that is version-control metadata.
pub open spec fn vcs_name(names: Seq<Seq<char>>, k: int) -> Option<Seq<char>>
    decreases names.len() - k,
{
    if k < 0 || k >= names.len() {
        None
    } else if tools::is_vcs_name(names[k]) {
        Some(names[k])
    } else {
        vcs_name(names, k + 1)
    }
}

/// Whether a name is hidden.
pub open spec fn is_hidden(name: Seq<char>) -> bool {
    name.len() > 0 && name[0] == '.'
}

/// Whether a path enters hidden territory.
pub open spec fn enters_hidden(names: Seq<Seq<char>>) -> bool {
    exists|i: int| 0 <= i < names.len() && is_hidden(#[trigger] names[i])
}

/// Whether a path enters generated territory.
pub open spec fn enters_generated(names: Seq<Seq<char>>) -> bool {
    exists|i: int| 0 <= i < names.len() && tools::is_generated_name(#[trigger] names[i])
}

fn hidden(name: &str) -> (yes: bool)
    ensures
        yes == is_hidden(name@),
{
    let chars: Vec<char> = text::chars_of(name);
    chars.len() > 0 && chars[0] == '.'
}

/// What the requested path itself enters.
#[derive(Debug, Clone, Copy)]
pub struct Territory {
    /// Hidden entries are looked at.
    pub hidden: bool,
    /// Generated directories are looked at.
    pub generated: bool,
}

/// Surveys a resolved path: what it enters, or the version-control metadata
/// that it lies in.
pub fn survey(root: &FullPath, path: &FullPath) -> (result: Result<Territory, String>)
    requires
        root.names@.len() <= path.names@.len(),
    ensures
        match result {
            Ok(territory) => vcs_name(names_below(root@, path@), 0) is None && territory.hidden
                == enters_hidden(names_below(root@, path@)) && territory.generated
                == enters_generated(names_below(root@, path@)),
            Err(name) => vcs_name(names_below(root@, path@), 0) == Some(name@),
        },
{
    let ghost names = names_below(root@, path@);
    let depth: usize = root.names.len();
    let mut territory = Territory { hidden: false, generated: false };
    for i in depth..path.names.len()
        invariant
            depth == root.names@.len(),
            depth <= i <= path.names@.len(),
            names == names_below(root@, path@),
            vcs_name(names, i - depth) == vcs_name(names, 0),
            territory.hidden == exists|k: int|
                0 <= k < i - depth && is_hidden(#[trigger] names[k]),
            territory.generated == exists|k: int|
                0 <= k < i - depth && tools::is_generated_name(#[trigger] names[k]),
    {
        let name: String = text::decode_lossy(path.names[i].as_slice()).0;
        assert(names[i - depth] == name@) by {
            assert(path@.names[i as int] == path.names@[i as int]@);
        }
        if tools::is_vcs_metadata_dir(name.as_str()) {
            return Err(name);
        }
        if hidden(name.as_str()) {
            territory.hidden = true;
        }
        if tools::is_generated_dir(name.as_str()) {
            territory.generated = true;
        }
        assert forall|k: int| 0 <= k < i + 1 - depth implies k < i - depth || names[k]
            == name@ by {}
    }
    Ok(territory)
}

/// Whether the walk looks at an entry. The requested path itself always is;
/// version-control metadata never is; hidden entries only in hidden territory
/// or where the filter matches their name; generated directories, hidden ones
/// too, only in generated territory.
pub open spec fn looks_at(
    depth: nat,
    name: Seq<char>,
    is_dir: bool,
    territory: Territory,
    glob_names_it: bool,
) -> bool {
    depth == 0 || {
        &&& is_dir ==> !tools::is_vcs_name(name)
        &&& is_hidden(name) ==> territory.hidden || glob_names_it
        &&& is_dir && tools::is_generated_name(name) ==> territory.generated
    }
}

/// Whether the filter decides about an entry: it is hidden, hidden territory
/// was not entered, and nothing else keeps it out.
pub open spec fn asked_for_name(
    depth: nat,
    name: Seq<char>,
    is_dir: bool,
    territory: Territory,
) -> bool {
    looks_at(depth, name, is_dir, territory, true) && !looks_at(
        depth,
        name,
        is_dir,
        territory,
        false,
    )
}

/// Decides whether the walk looks at an entry.
pub fn entry_admissible(
    depth: usize,
    name: &str,
    is_dir: bool,
    territory: &Territory,
    filter: &Option<PathFilter>,
) -> (yes: bool)
    ensures
        exists|glob_names_it: bool| #[trigger]
            looks_at(depth as nat, name@, is_dir, *territory, glob_names_it) == yes && match filter {
                Some(f) => asked_for_name(depth as nat, name@, is_dir, *territory) ==> f.verdict_of(
                    name@,
                    glob_names_it,
                ),
                None => !glob_names_it,
            },
{
    let ghost mut verdict = false;
    let yes: bool = if depth == 0 {
        true
    } else if is_dir && (tools::is_vcs_metadata_dir(name) || tools::is_generated_dir(name)
        && !territory.generated) {
        false
    } else if hidden(name) && !territory.hidden {
        match filter {
            Some(f) => {
                let named: bool = f.matches(name);
                proof {
                    verdict = named;
                }
                named
            },
            None => false,
        }
    } else {
        true
    };
    assert(looks_at(depth as nat, name@, is_dir, *territory, verdict) == yes);
    yes
}

/// Version-control metadata is never walked into, whatever the requested
/// path and the filter.
pub proof fn law_vcs_metadata_is_never_walked(
    depth: nat,
    name: Seq<char>,
    territory: Territory,
    glob_names_it: bool,
)
    requires
        depth > 0,
        tools::is_vcs_name(name),
    ensures
        !looks_at(depth, name, true, territory, glob_names_it),
{
}

/// Generated directories are walked into only in generated territory,
/// whatever their names and the filter.
pub proof fn law_generated_directories_need_their_territory(
    depth: nat,
    name: Seq<char>,
    territory: Territory,
    glob_names_it: bool,
)
    requires
        depth > 0,
        tools::is_generated_name(name),
        !territory.generated,
    ensures
        !looks_at(depth, name, true, territory, glob_names_it),
{
}

// ---------------------------------------------------------------------------
// The request
// ---------------------------------------------------------------------------

/// A search that may be carried out.
#[derive(Debug)]
pub struct SearchPlan {
    /// What to look for.
    pub matcher: grep_regex::RegexMatcher,
    /// Where to look.
    pub target: FullPath,
    /// A filter on file paths.
    pub filter: Option<PathFilter>,
    /// What the requested path enters.
    pub territory: Territory,
    /// The most matches to keep.
    pub max_results: usize,
    /// The most bytes to keep of a line.
    pub max_line_bytes: usize,
}

/// The refusal of a path in version-control metadata.
pub open spec fn vcs_text(path: Option<String>, name: Seq<char>) -> Seq<char> {
    "'"@ + (match path {
        Some(p) => p@,
        None => "<workspace root>"@,
    }) + "' lies inside version-control metadata ('"@ + name
        + "'); the search tool never inspects VCS internals."@
}

/// Whether `result` is what comes of a request whose path resolves to
/// `target`, given whether that exists.
pub open spec fn planned(
    result: ToolResult<SearchPlan>,
    ctx: WorkspaceContext,
    limits: Limits,
    presentation: PathPresentation,
    args: SearchArgs,
    target: FullPath,
    exists_there: bool,
) -> bool {
    let names = names_below(ctx.resolver_view().root_view(), target@);
    let pattern = query_pattern(args.query@, args.literal);
    match vcs_name(names, 0) {
        Some(name) => result matches Err(e) && e.0@ == vcs_text(args.path, name),
        None => if !exists_there {
            result matches Err(e) && e.0@ == "Search path does not exist: "@
                + ctx.resolver_view().presented_view(target@, presentation)
        } else {
            match pattern_fault(pattern, args.ignore_case, usize::BITS) {
                Some(fault) => result matches Err(e) && e.0@ == "Invalid search expression '"@
                    + pattern + "': "@ + fault,
                None => result matches Ok(plan) && matcher_source(plan.matcher) == (
                    pattern,
                    args.ignore_case,
                ) && plan.target == target && glob::filter_pattern(
                    plan.filter,
                ) == glob::requested_pattern(args.glob) && plan.territory.hidden == enters_hidden(
                    names,
                ) && plan.territory.generated == enters_generated(names) && plan.max_results
                    == result_cap(args.max_results, limits) && plan.max_line_bytes
                    == limits.max_search_line_bytes,
            }
        },
    }
}

/// Whether `result` is the refusal of a filter that is not a glob.
pub open spec fn refuses_glob(result: ToolResult<SearchPlan>, glob: Option<String>) -> bool {
    glob::requested_pattern(glob) matches Some(p) && exists|reason: Seq<char>|
        result matches Err(e) && e.0@ == #[trigger] ("Invalid glob pattern '"@ + p + "': "@
            + reason) && glob::refuses(p, reason)
}

/// Whether a requested filter is accepted.
pub open spec fn accepts_glob(glob: Option<String>) -> bool {
    glob::requested_pattern(glob) matches Some(p) ==> glob::accepts(p)
}

/// Plans a search. The query must not be blank; then the path is resolved,
/// then the filter compiled, then version-control metadata refused, whether
/// it exists or not, then the path must exist, and last the expression is
/// compiled.
pub fn plan_search<L: Fn(&FullPath) -> Located, X: Fn(&FullPath) -> bool>(
    ctx: &WorkspaceContext,
    limits: &Limits,
    presentation: PathPresentation,
    args: &SearchArgs,
    locate: &L,
    there: &X,
) -> (result: ToolResult<SearchPlan>)
    requires
        limits.max_search_results_cap >= 1,
        forall|at: &FullPath| call_requires(locate, (at,)),
        forall|at: &FullPath| call_requires(there, (at,)),
    ensures
        if text::is_blank(args.query@) {
            result matches Err(e) && e.0@ == "Search query must not be empty."@
        } else {
            exists|found: ToolResult<FullPath>| #[trigger]
                command::resolves_optional(ctx.resolver_view(), args.path, *locate, found)
                    && match found {
                    Err(refusal) => result matches Err(e) && e == refusal,
                    Ok(target) => {
                        ||| refuses_glob(result, args.glob)
                        ||| accepts_glob(args.glob) && exists|exists_there: bool| #[trigger]
                            planned(
                                result,
                                *ctx,
                                *limits,
                                presentation,
                                *args,
                                target,
                                exists_there,
                            ) && (vcs_name(
                                names_below(ctx.resolver_view().root_view(), target@),
                                0,
                            ) is None ==> call_ensures(*there, (&target,), exists_there))
                    },
                }
        },
{
    if text::blank(args.query.as_str()) {
        return Err(ToolError::msg("Search query must not be empty."));
    }
    let wanted: usize = match args.max_results {
        Some(n) => n,
        None => limits.default_search_results,
    };
    let max_results: usize = if wanted < 1 {
        1
    } else if wanted > limits.max_search_results_cap {
        limits.max_search_results_cap
    } else {
        wanted
    };
    let found: ToolResult<FullPath> = match &args.path {
        Some(path) => ctx.resolver().resolve(Some(path.as_str()), locate),
        None => ctx.resolver().resolve(None, locate),
    };
    assert(command::resolves_optional(ctx.resolver_view(), args.path, *locate, found));
    let target: FullPath = match found {
        Ok(target) => target,
        Err(e) => {
            return Err(e);
        },
    };
    let filter: Option<PathFilter> = match PathFilter::compile(&args.glob) {
        Ok(filter) => filter,
        Err(reason) => {
            let pattern: String = match &args.glob {
                Some(given) => text::trim_text(given.as_str()),
                None => String::new(),
            };
            let result: ToolResult<SearchPlan> = Err(
                ToolError(
                    String::from_str("Invalid glob pattern '").concat(pattern.as_str()).concat(
                        "': ",
                    ).concat(reason.as_str()),
                ),
            );
            assert(refuses_glob(result, args.glob)) by {
                let p = glob::requested_pattern(args.glob).unwrap();
                assert(result->Err_0.0@ == "Invalid glob pattern '"@ + p + "': "@ + reason@);
            }
            return result;
        },
    };
    assert(accepts_glob(args.glob));
    let ghost names = names_below(ctx.resolver_view().root_view(), target@);
    let territory: Territory = match survey(ctx.root(), &target) {
        Ok(territory) => territory,
        Err(name) => {
            let shown: &str = match &args.path {
                Some(path) => path.as_str(),
                None => "<workspace root>",
            };
            let result: ToolResult<SearchPlan> = Err(
                ToolError(
                    String::from_str("'").concat(shown).concat(
                        "' lies inside version-control metadata ('",
                    ).concat(name.as_str()).concat(
                        "'); the search tool never inspects VCS internals.",
                    ),
                ),
            );
            assert(planned(result, *ctx, *limits, presentation, *args, target, false));
            return result;
        },
    };
    let exists_there: bool = there(&target);
    assert(call_ensures(*there, (&target,), exists_there));
    if !exists_there {
        let shown: String = ctx.resolver().display_relative_as(&target, presentation);
        let result: ToolResult<SearchPlan> = Err(
            ToolError(String::from_str("Search path does not exist: ").concat(shown.as_str())),
        );
        assert(planned(result, *ctx, *limits, presentation, *args, target, exists_there));
        return result;
    }
    let query: String = text::trim_text(args.query.as_str());
    let pattern: String = if args.literal {
        escape(query.as_str())
    } else {
        query
    };
    match compile(pattern.as_str(), args.ignore_case) {
        Ok(matcher) => {
            let ghost at = target;
            let result: ToolResult<SearchPlan> = Ok(
                SearchPlan {
                    matcher,
                    target,
                    filter,
                    territory,
                    max_results,
                    max_line_bytes: limits.max_search_line_bytes,
                },
            );
            assert(planned(result, *ctx, *limits, presentation, *args, at, exists_there));
            result
        },
        Err(reason) => {
            let result: ToolResult<SearchPlan> = Err(
                ToolError(
                    String::from_str("Invalid search expression '").concat(
                        pattern.as_str(),
                    ).concat("': ").concat(reason.as_str()),
                ),
            );
            assert(planned(result, *ctx, *limits, presentation, *args, target, exists_there));
            result
        },
    }
}

// ---------------------------------------------------------------------------
// Collecting
// ---------------------------------------------------------------------------

/// One match.
#[derive(Debug)]
pub struct SearchMatch {
    /// The file's path as shown.
    pub path: String,
    /// The line number.
    pub line: u64,
    /// The line, clipped.
    pub text: String,
    /// Whether something was cut off.
    pub clipped: bool,
}

/// What a [`SearchMatch`] shows.
#[verifier::ext_equal]
pub struct MatchView {
    /// The file's path as shown.
    pub path: Seq<char>,
    /// The line number.
    pub line: u64,
    /// The line, clipped.
    pub text: Seq<char>,
    /// Whether something was cut off.
    pub clipped: bool,
}

impl View for SearchMatch {
    type V = MatchView;

    open spec fn view(&self) -> MatchView {
        MatchView {
            path: self.path@,
            line: self.line,
            text: self.text@,
            clipped: self.clipped,
        }
    }
}

/// What a list of matches shows.
pub open spec fn match_views(matches: Seq<SearchMatch>) -> Seq<MatchView> {
    matches.map_values(|m: SearchMatch| m@)
}

/// `s` without the line feeds and carriage returns at its end.
pub open spec fn without_line_end(s: Seq<char>) -> Seq<char>
    decreases s.len(),
{
    if s.len() > 0 && (s.last() == '\n' || s.last() == '\r') {
        without_line_end(s.drop_last())
    } else {
        s
    }
}

fn trim_line_end(s: &[char]) -> (rest: &[char])
    ensures
        rest@ == without_line_end(s@),
{
    let mut to: usize = s.len();
    assert(s@.take(to as int) =~= s@);
    while to > 0 && (s[to - 1] == '\n' || s[to - 1] == '\r')
        invariant
            to <= s@.len(),
            without_line_end(s@.take(to as int)) == without_line_end(s@),
        decreases to,
    {
        assert(s@.take(to as int).drop_last() =~= s@.take(to - 1));
        to -= 1;
    }
    assert(s@.subrange(0, to as int) =~= s@.take(to as int));
    &s[0..to]
}

/// How a matched line is shown.
pub open spec fn shown_match(
    path: Seq<char>,
    line: Option<u64>,
    bytes: Seq<u8>,
    max_line_bytes: nat,
) -> MatchView {
    let found = without_line_end(text::decoded_text(bytes));
    MatchView {
        path,
        line: match line {
            Some(n) => n,
            None => 0,
        },
        text: tools::clipped(found, max_line_bytes),
        clipped: text::byte_len(found) > max_line_bytes,
    }
}

/// What becomes of the kept matches, and of the note that one was left out,
/// when a match comes.
pub open spec fn collected(
    state: (Seq<MatchView>, bool),
    found: MatchView,
    cap: nat,
) -> (Seq<MatchView>, bool) {
    if state.0.len() >= cap {
        (state.0, true)
    } else {
        (state.0.push(found), state.1)
    }
}

/// What becomes of a sequence of matches.
pub open spec fn collected_all(found: Seq<MatchView>, cap: nat) -> (Seq<MatchView>, bool)
    decreases found.len(),
{
    if found.len() == 0 {
        (Seq::empty(), false)
    } else {
        collected(collected_all(found.drop_last(), cap), found.last(), cap)
    }
}

/// A search keeps the first matches that it finds, as many as it may, and
/// says that it is cut off just if it finds more than that.
pub proof fn law_search_keeps_the_first(found: Seq<MatchView>, cap: nat)
    ensures
        collected_all(found, cap).0 == found.take(
            if found.len() <= cap {
                found.len() as int
            } else {
                cap as int
            },
        ),
        collected_all(found, cap).1 == (found.len() > cap),
    decreases found.len(),
{
    if found.len() > 0 {
        law_search_keeps_the_first(found.drop_last(), cap);
        let before = found.drop_last();
        if before.len() < cap {
            assert(before.take(before.len() as int) =~= before);
            assert(before.push(found.last()) =~= found.take(found.len() as int));
        } else {
            assert(found.take(cap as int) =~= before.take(cap as int));
        }
    } else {
        assert(found.take(0) =~= Seq::<MatchView>::empty());
    }
}

/// The matches of a search, as far as they are kept.
pub struct SearchCollector {
    matches: Vec<SearchMatch>,
    max_results: usize,
    max_line_bytes: usize,
    files_searched: usize,
    hit_limit: bool,
}

impl SearchCollector {
    /// The kept matches.
    pub closed spec fn kept(self) -> Seq<MatchView> {
        match_views(self.matches@)
    }

    /// The most matches to keep.
    pub closed spec fn cap(self) -> nat {
        self.max_results as nat
    }

    /// The most bytes to keep of a line.
    pub closed spec fn line_cap(self) -> nat {
        self.max_line_bytes as nat
    }

    /// How many files were looked at.
    pub closed spec fn files(self) -> nat {
        self.files_searched as nat
    }

    /// Whether a match was left out.
    pub closed spec fn overflowed(self) -> bool {
        self.hit_limit
    }

    /// No more than the cap are kept, and one is left out only once that many
    /// are.
    pub closed spec fn wf(self) -> bool {
        self.matches@.len() <= self.max_results && (self.hit_limit ==> self.matches@.len()
            == self.max_results)
    }

    /// An empty collection for a plan.
    pub fn new(max_results: usize, max_line_bytes: usize) -> (collector: SearchCollector)
        ensures
            collector.wf(),
            collector.kept() == Seq::<MatchView>::empty(),
            collector.cap() == max_results,
            collector.line_cap() == max_line_bytes,
            collector.files() == 0,
            !collector.overflowed(),
    {
        let matches: Vec<SearchMatch> = Vec::new();
        assert(match_views(matches@) =~= Seq::<MatchView>::empty());
        SearchCollector { matches, max_results, max_line_bytes, files_searched: 0, hit_limit: false }
    }

    /// Whether to search a file that the walk came upon: one that the filter
    /// selects. It is counted.
    pub fn begin_file(&mut self, plan: &SearchPlan, path: &str, name: &Option<String>) -> (yes:
        bool)
        requires
            old(self).wf(),
            old(self).files() < usize::MAX,
        ensures
            final(self).wf(),
            final(self).kept() == old(self).kept(),
            final(self).cap() == old(self).cap(),
            final(self).line_cap() == old(self).line_cap(),
            final(self).overflowed() == old(self).overflowed(),
            glob::may_select(plan.filter, path@, *name, yes),
            final(self).files() == old(self).files() + (if yes {
                1nat
            } else {
                0nat
            }),
    {
        if !glob::selects(&plan.filter, path, name) {
            return false;
        }
        self.files_searched = self.files_searched + 1;
        true
    }

    /// Takes in one match; tells whether to go on with the file. Once enough
    /// are kept, a further one is left out and noted.
    pub fn matched(&mut self, path: &str, line: Option<u64>, bytes: &[u8]) -> (go_on: bool)
        requires
            old(self).wf(),
        ensures
            final(self).wf(),
            final(self).cap() == old(self).cap(),
            final(self).line_cap() == old(self).line_cap(),
            final(self).files() == old(self).files(),
            go_on == (old(self).kept().len() < old(self).cap()),
            (final(self).kept(), final(self).overflowed()) == collected(
                (old(self).kept(), old(self).overflowed()),
                shown_match(path@, line, bytes@, old(self).line_cap()),
                old(self).cap(),
            ),
    {
        let ghost before = match_views(self.matches@);
        assert(before.len() == self.matches@.len());
        if self.matches.len() >= self.max_results {
            self.hit_limit = true;
            return false;
        }
        let decoded: String = text::decode_lossy(bytes).0;
        let chars: Vec<char> = text::chars_of(decoded.as_str());
        let found: String = text::string_of(trim_line_end(chars.as_slice()));
        let (clipped_text, was_clipped) = tools::clip_line(found.as_str(), self.max_line_bytes);
        let kept = SearchMatch {
            path: String::from_str(path),
            line: match line {
                Some(n) => n,
                None => 0,
            },
            text: clipped_text,
            clipped: was_clipped,
        };
        self.matches.push(kept);
        assert(match_views(self.matches@) =~= before.push(kept@));
        true
    }

    /// Whether the search is over after a file: a match was left out.
    pub fn is_full(&self) -> (full: bool)
        requires
            self.wf(),
        ensures
            full == self.overflowed(),
    {
        self.hit_limit && self.matches.len() >= self.max_results
    }

    /// Ends the search.
    pub fn finish(self, query: &str, path: &str) -> (report: SearchReport)
        requires
            self.wf(),
        ensures
            report.query@ == query@,
            report.path@ == path@,
            report.files_searched == self.files(),
            report.truncated == self.overflowed(),
            match_views(report.matches@) == self.kept(),
            report.matches@.len() <= self.cap(),
    {
        SearchReport {
            query: String::from_str(query),
            path: String::from_str(path),
            files_searched: self.files_searched,
            truncated: self.hit_limit,
            matches: self.matches,
        }
    }
}

/// What `search` returns.
#[derive(Debug)]
pub struct SearchReport {
    /// The query as requested.
    pub query: String,
    /// The searched path as shown.
    pub path: String,
    /// How many files were looked at.
    pub files_searched: usize,
    /// Whether a match was left out.
    pub truncated: bool,
    /// The matches, in the order in which they were found.
    pub matches: Vec<SearchMatch>,
}

// ---------------------------------------------------------------------------
// Laws
// ---------------------------------------------------------------------------

/// The text that an expression made of plain and escaped characters stands
/// for; nothing where it holds a bare character with a meaning, or a backslash
/// in front of a character without one.
pub open spec fn plain_reading(pattern: Seq<char>) -> Option<Seq<char>>
    decreases pattern.len(),
{
    if pattern.len() == 0 {
        Some(Seq::empty())
    } else {
        let last = pattern.last();
        let escaped_last = pattern.len() >= 2 && pattern[pattern.len() - 2] == '\\';
        if is_meta(last) {
            if !escaped_last {
                None
            } else {
                match plain_reading(pattern.take(pattern.len() - 2)) {
                    Some(text) => Some(text.push(last)),
                    None => None,
                }
            }
        } else {
            match plain_reading(pattern.drop_last()) {
                Some(text) => Some(text.push(last)),
                None => None,
            }
        }
    }
}

proof fn lemma_escaped_reads_back(s: Seq<char>)
    ensures
        plain_reading(escaped(s)) == Some(s),
    decreases s.len(),
{
    if s.len() > 0 {
        let head = s.drop_last();
        let p = escaped(s);
        lemma_escaped_reads_back(head);
        assert(s =~= head.push(s.last()));
        if is_meta(s.last()) {
            assert(p.take(p.len() - 2) =~= escaped(head));
            assert(p[p.len() - 2] == '\\');
        } else {
            assert(p.drop_last() =~= escaped(head));
        }
    }
}

/// A literal query is looked for as it stands: what is compiled is an
/// expression of plain and escaped characters that stands for the query
/// without the white space around it. One without characters with a meaning is
/// compiled as it is.
pub proof fn law_literal_query_stands_for_itself(query: Seq<char>)
    ensures
        exists|core: Seq<char>| #[trigger]
            text::is_core(query, core) && plain_reading(query_pattern(query, true)) == Some(core)
                && ((forall|i: int| 0 <= i < core.len() ==> !is_meta(#[trigger] core[i]))
                ==> query_pattern(query, true) == core),
{
    let core = text::trimmed(query);
    text::law_trimming_takes_off_white_space_only(query);
    lemma_escaped_reads_back(core);
    if forall|i: int| 0 <= i < core.len() ==> !is_meta(#[trigger] core[i]) {
        lemma_nothing_to_escape(core);
    }
    assert(text::is_core(query, core));
}

proof fn lemma_nothing_to_escape(s: Seq<char>)
    requires
        forall|i: int| 0 <= i < s.len() ==> !is_meta(#[trigger] s[i]),
    ensures
        escaped(s) == s,
    decreases s.len(),
{
    if s.len() > 0 {
        assert(!is_meta(s[s.len() - 1]));
        assert forall|i: int| 0 <= i < s.drop_last().len() implies !is_meta(
            #[trigger] s.drop_last()[i],
        ) by {
            assert(s.drop_last()[i] == s[i]);
        }
        lemma_nothing_to_escape(s.drop_last());
        assert(s.drop_last().push(s.last()) =~= s);
    }
}

/// A query that is no literal is compiled as it stands, without the white
/// space around it.
pub proof fn law_expression_is_compiled_as_given(query: Seq<char>)
    ensures
        text::is_core(query, query_pattern(query, false)),
{
    text::law_trimming_takes_off_white_space_only(query);
}

/// Letters, digits, blanks and the other characters without a meaning are not
/// escaped, and the operators of regular expressions are.
pub proof fn law_operators_have_a_meaning(c: char)
    ensures
        is_meta(c) <==> "\\.+*?()|[]{}^$#&-~"@.contains(c),
{
    reveal_strlit("\\.+*?()|[]{}^$#&-~");
    let all = "\\.+*?()|[]{}^$#&-~"@;
    assert(all[0] == '\\' && all[1] == '.' && all[2] == '+' && all[3] == '*' && all[4] == '?'
        && all[5] == '(' && all[6] == ')' && all[7] == '|' && all[8] == '[' && all[9] == ']'
        && all[10] == '{' && all[11] == '}' && all[12] == '^' && all[13] == '$' && all[14] == '#'
        && all[15] == '&' && all[16] == '-' && all[17] == '~');
}

/// What a planned search looks for is what was asked: a matcher built from the
/// query, literal or not, with the requested regard to case.
pub proof fn law_planned_search_looks_for_the_query(
    plan: SearchPlan,
    ctx: WorkspaceContext,
    limits: Limits,
    presentation: PathPresentation,
    args: SearchArgs,
    target: FullPath,
)
    requires
        planned(Ok(plan), ctx, limits, presentation, args, target, true),
    ensures
        matcher_source(plan.matcher).1 == args.ignore_case,
        exists|core: Seq<char>| #[trigger]
            text::is_core(args.query@, core) && if args.literal {
                plain_reading(matcher_source(plan.matcher).0) == Some(core)
            } else {
                matcher_source(plan.matcher).0 == core
            },
        plan.target == target,
        1 <= plan.max_results || limits.max_search_results_cap < 1,
        plan.max_results <= limits.max_search_results_cap || plan.max_results == 1,
        args.max_results matches Some(n) ==> 1 <= n <= limits.max_search_results_cap
            ==> plan.max_results == n,
        args.max_results is None && 1 <= limits.default_search_results
            <= limits.max_search_results_cap ==> plan.max_results == limits.default_search_results,
{
    law_literal_query_stands_for_itself(args.query@);
    law_expression_is_compiled_as_given(args.query@);
    if args.literal {
        let core = choose|core: Seq<char>| #[trigger]
            text::is_core(args.query@, core) && plain_reading(query_pattern(args.query@, true))
                == Some(core);
        assert(text::is_core(args.query@, core));
    } else {
        assert(text::is_core(args.query@, query_pattern(args.query@, false)));
    }
}

/// A path is refused just where one of its names is version-control metadata,
/// and the refusal tells the first such name.
pub proof fn law_metadata_is_found_wherever_it_stands(names: Seq<Seq<char>>)
    ensures
        vcs_name(names, 0) is None <==> forall|i: int|
            0 <= i < names.len() ==> !tools::is_vcs_name(#[trigger] names[i]),
        vcs_name(names, 0) matches Some(name) ==> exists|i: int|
            0 <= i < names.len() && #[trigger] names[i] == name && tools::is_vcs_name(name)
                && forall|k: int| 0 <= k < i ==> !tools::is_vcs_name(#[trigger] names[k]),
{
    lemma_vcs_name_from(names, 0);
}

proof fn lemma_vcs_name_from(names: Seq<Seq<char>>, from: int)
    requires
        0 <= from <= names.len(),
    ensures
        vcs_name(names, from) is None <==> forall|i: int|
            from <= i < names.len() ==> !tools::is_vcs_name(#[trigger] names[i]),
        vcs_name(names, from) matches Some(name) ==> exists|i: int|
            from <= i < names.len() && #[trigger] names[i] == name && tools::is_vcs_name(name)
                && forall|k: int| from <= k < i ==> !tools::is_vcs_name(#[trigger] names[k]),
    decreases names.len() - from,
{
    if from < names.len() {
        if tools::is_vcs_name(names[from]) {
            assert(names[from] == vcs_name(names, from).unwrap());
        } else {
            lemma_vcs_name_from(names, from + 1);
            if let Some(name) = vcs_name(names, from) {
                let i = choose|i: int|
                    from + 1 <= i < names.len() && #[trigger] names[i] == name
                        && tools::is_vcs_name(name) && forall|k: int|
                        from + 1 <= k < i ==> !tools::is_vcs_name(#[trigger] names[k]);
                assert(names[i] == name);
            }
        }
    }
}

/// Entries that are neither hidden nor generated nor metadata are looked at
/// wherever they stand, and so are hidden ones that the filter names.
pub proof fn law_ordinary_entries_are_looked_at(
    depth: nat,
    name: Seq<char>,
    is_dir: bool,
    territory: Territory,
    glob_names_it: bool,
)
    ensures
        (name.len() == 0 || name[0] != '.' || territory.hidden || glob_names_it) && (!is_dir || (
        !tools::is_vcs_name(name) && (!tools::is_generated_name(name) || territory.generated)))
            ==> looks_at(depth, name, is_dir, territory, glob_names_it),
        depth > 0 && name.len() > 0 && name[0] == '.' && !territory.hidden && !glob_names_it
            ==> !looks_at(depth, name, is_dir, territory, glob_names_it),
        depth == 0 ==> looks_at(depth, name, is_dir, territory, glob_names_it),
{
}

/// A shown match is the matched line as it stands: only line ends are taken
/// off, and where it does not fit, what is shown is flagged as clipped.
pub proof fn law_matches_show_the_line(
    path: Seq<char>,
    line: Option<u64>,
    bytes: Seq<u8>,
    max_line_bytes: nat,
)
    ensures
        shown_match(path, line, bytes, max_line_bytes).path == path,
        line matches Some(n) ==> shown_match(path, line, bytes, max_line_bytes).line == n,
        exists|found: Seq<char>| #[trigger]
            is_without_line_end(text::decoded_text(bytes), found) && (
            shown_match(path, line, bytes, max_line_bytes).clipped <==> text::byte_len(found)
                > max_line_bytes) && (!shown_match(path, line, bytes, max_line_bytes).clipped
                ==> shown_match(path, line, bytes, max_line_bytes).text == found),
{
    lemma_without_line_end(text::decoded_text(bytes));
    assert(is_without_line_end(
        text::decoded_text(bytes),
        without_line_end(text::decoded_text(bytes)),
    ));
}

/// Whether `rest` is `s` but for line feeds and carriage returns at its end,
/// of which it has none.
pub open spec fn is_without_line_end(s: Seq<char>, rest: Seq<char>) -> bool {
    &&& rest.len() <= s.len() && rest == s.take(rest.len() as int)
    &&& forall|i: int| rest.len() <= i < s.len() ==> #[trigger] s[i] == '\n' || s[i] == '\r'
    &&& rest.len() > 0 ==> rest.last() != '\n' && rest.last() != '\r'
}

proof fn lemma_without_line_end(s: Seq<char>)
    ensures
        is_without_line_end(s, without_line_end(s)),
    decreases s.len(),
{
    let rest = without_line_end(s);
    if s.len() > 0 && (s.last() == '\n' || s.last() == '\r') {
        lemma_without_line_end(s.drop_last());
        assert(s.drop_last().take(rest.len() as int) =~= s.take(rest.len() as int));
        assert forall|i: int| rest.len() <= i < s.len() implies #[trigger] s[i] == '\n' || s[i]
            == '\r' by {
            if i < s.len() - 1 {
                assert(s.drop_last()[i] == s[i]);
            }
        }
    } else {
        assert(s.take(s.len() as int) =~= s);
    }
}

/// A search is planned just where the path exists, no metadata lies on it and
/// the expression compiles; and then for all of what was asked: where to look,
/// which files, what the path itself enters, and how much of a line to show.
pub proof fn law_searches_are_planned_as_asked(
    result: ToolResult<SearchPlan>,
    ctx: WorkspaceContext,
    limits: Limits,
    presentation: PathPresentation,
    args: SearchArgs,
    target: FullPath,
    exists_there: bool,
)
    requires
        planned(result, ctx, limits, presentation, args, target, exists_there),
    ensures
        result is Ok <==> exists_there && pattern_fault(
            query_pattern(args.query@, args.literal),
            args.ignore_case,
            usize::BITS,
        ) is None && forall|i: int|
            0 <= i < names_below(ctx.resolver_view().root_view(), target@).len()
                ==> !tools::is_vcs_name(
                #[trigger] names_below(ctx.resolver_view().root_view(), target@)[i],
            ),
        result matches Ok(plan) ==> {
            let names = names_below(ctx.resolver_view().root_view(), target@);
            &&& plan.target == target
            &&& plan.max_line_bytes == limits.max_search_line_bytes
            &&& args.glob is None ==> plan.filter is None
            &&& args.glob matches Some(given) ==> !text::is_blank(given@) ==> (plan.filter
                matches Some(f) && text::is_core(given@, f.pattern()))
            &&& plan.territory.hidden <==> exists|i: int|
                0 <= i < names.len() && (#[trigger] names[i]).len() > 0 && names[i][0] == '.'
            &&& plan.territory.generated <==> exists|i: int|
                0 <= i < names.len() && tools::is_generated_name(#[trigger] names[i])
        },
{
    let names = names_below(ctx.resolver_view().root_view(), target@);
    law_metadata_is_found_wherever_it_stands(names);
    glob::law_filters_are_taken_as_given(args.glob);
    if result is Ok {
        if enters_hidden(names) {
            let i = choose|i: int| 0 <= i < names.len() && is_hidden(#[trigger] names[i]);
            assert(names[i].len() > 0 && names[i][0] == '.');
        }
        assert forall|i: int|
            0 <= i < names.len() && (#[trigger] names[i]).len() > 0 && names[i][0]
                == '.' implies enters_hidden(names) by {
            assert(is_hidden(names[i]));
        }
    }
}

/// The names of a path below the root are those that follow the root's.
pub proof fn law_names_below_follow_the_root(root: PathView, names: Seq<Seq<u8>>)
    ensures
        names_below(root, crate::workspace::extended(root, names)).len() == names.len(),
        forall|i: int|
            0 <= i < names.len() ==> (#[trigger] names_below(
                root,
                crate::workspace::extended(root, names),
            )[i]) == text::decoded_text(names[i]),
{
    let path = crate::workspace::extended(root, names);
    assert(path.names.skip(root.names.len() as int) =~= names);
}

/// A match without a line number is shown as line zero, and one that does not
/// fit by as much of the line as fits, with a mark.
pub proof fn law_matches_are_clipped_to_the_bound(
    path: Seq<char>,
    line: Option<u64>,
    bytes: Seq<u8>,
    max_line_bytes: nat,
    found: Seq<char>,
)
    requires
        is_without_line_end(text::decoded_text(bytes), found),
    ensures
        line is None ==> shown_match(path, line, bytes, max_line_bytes).line == 0,
        shown_match(path, line, bytes, max_line_bytes).text == tools::clipped(
            found,
            max_line_bytes,
        ),
{
    let s = text::decoded_text(bytes);
    let own = without_line_end(s);
    lemma_without_line_end(s);
    if own.len() < found.len() {
        assert(found.last() == s[found.len() - 1]);
    } else if found.len() < own.len() {
        assert(own.last() == s[own.len() - 1]);
    }
    assert(own == found);
}

/// What a list of matches shows is its matches, one by one.
pub proof fn law_match_views_are_the_matches(matches: Seq<SearchMatch>)
    ensures
        match_views(matches).len() == matches.len(),
        forall|i: int|
            0 <= i < matches.len() ==> {
                let view = #[trigger] match_views(matches)[i];
                &&& view.path == matches[i].path@
                &&& view.line == matches[i].line
                &&& view.text == matches[i].text@
                &&& view.clipped == matches[i].clipped
            },
{
}

/// The filter decides about an entry just where it is hidden outside hidden
/// territory and would be looked at otherwise.
pub proof fn law_filters_decide_about_hidden_entries(
    depth: nat,
    name: Seq<char>,
    is_dir: bool,
    territory: Territory,
)
    ensures
        asked_for_name(depth, name, is_dir, territory) <==> depth > 0 && name.len() > 0 && name[0]
            == '.' && !territory.hidden && !(is_dir && (tools::is_vcs_name(name)
            || tools::is_generated_name(name) && !territory.generated)),
{
}

/// A search is refused for its filter only where that is no glob, and planned
/// with one only where it is.
pub proof fn law_search_filters_are_globs(
    result: ToolResult<SearchPlan>,
    glob: Option<String>,
    given: String,
    pattern: Seq<char>,
)
    requires
        glob == Some(given),
        text::is_core(given@, pattern),
        pattern.len() > 0,
        glob::is_portable(pattern),
    ensures
        refuses_glob(result, glob) ==> result is Err && (glob::glob_fault(pattern, usize::BITS) is Some
            || !glob::nests_within_bounds(pattern, false)),
        accepts_glob(glob) ==> glob::glob_fault(pattern, usize::BITS) is None
            && glob::nests_within_bounds(pattern, false),
{
    text::law_core_is_unique(given@, pattern);
    text::lemma_blank_trims_to_nothing(given@);
}

/// The refusal of a path in metadata names the path and the metadata.
pub proof fn law_metadata_refusals_name_the_path(path: String, name: Seq<char>)
    ensures
        text::occurs(vcs_text(Some(path), name), path@),
        text::occurs(vcs_text(Some(path), name), name),
{
    let told = vcs_text(Some(path), name);
    let middle = "' lies inside version-control metadata ('"@;
    let tail = "'); the search tool never inspects VCS internals."@;
    text::law_occurrences_are_found_anywhere("'"@, path@, middle + name + tail, told, 0);
    assert(told =~= "'"@ + path@ + (middle + name + tail));
    text::law_occurrences_are_found_anywhere("'"@ + path@ + middle, name, tail, told, 0);
    assert(told =~= ("'"@ + path@ + middle) + name + tail);
}

/// As many matches are kept as asked for, but at least one and no more than
/// the largest number; where nothing is asked for, the default counts.
pub proof fn law_result_caps_are_kept_in_bounds(requested: Option<usize>, limits: Limits)
    requires
        limits.max_search_results_cap >= 1,
    ensures
        requested == Some(0usize) ==> result_cap(requested, limits) == 1,
        requested matches Some(n) ==> 1 <= n <= limits.max_search_results_cap ==> result_cap(
            requested,
            limits,
        ) == n,
        requested matches Some(n) ==> n > limits.max_search_results_cap ==> result_cap(
            requested,
            limits,
        ) == limits.max_search_results_cap,
        requested is None ==> result_cap(requested, limits) == result_cap(
            Some(limits.default_search_results),
            limits,
        ),
{
}

} // verus!
