//! Glob filters on workspace paths.
use crate::text;
use crate::workspace;
use vstd::prelude::*;

verus! {

broadcast use vstd::string::group_string_axioms;

/// Whether a text means the same to a glob on every platform: a backslash is
/// a separator on some and an escape on others.
pub open spec fn is_portable(s: Seq<char>) -> bool {
    !s.contains('\\')
}

/// The deepest nesting of braces in a filter: compiling one takes stack for
/// each level.
pub const MAX_BRACE_DEPTH: usize = 1000;

/// The position behind the character class that begins at `at`: what follows
/// its negation belongs to it whatever it is.
pub open spec fn class_end(pattern: Seq<char>, at: int) -> int {
    let first = if at + 1 < pattern.len() && (pattern[at + 1] == '!' || pattern[at + 1] == '^') {
        at + 2
    } else {
        at + 1
    };
    text::position_from(pattern, ']', first + 1) + 1
}

/// The larger of two numbers.
pub open spec fn larger(a: nat, b: nat) -> nat {
    if a > b {
        a
    } else {
        b
    }
}

/// The open groups after the innermost one is closed. Each is known by how
/// deep the groups closed inside it are nested.
pub open spec fn after_closing(open: Seq<nat>) -> Seq<nat> {
    let rest = open.drop_last();
    if rest.len() == 0 {
        rest
    } else {
        rest.update(rest.len() - 1, larger(rest.last(), open.last() + 1))
    }
}

/// How deep the groups are nested that `pattern` closes from position `at` on,
/// when the groups `open` are open there. A closing brace without an opening
/// one ends a pattern; braces in a character class do not count, nor, where a
/// backslash escapes, what follows one.
pub open spec fn brace_depth(pattern: Seq<char>, at: int, open: Seq<nat>, escapes: bool) -> nat
    decreases
            if at < pattern.len() {
                pattern.len() - at
            } else {
                0
            },
{
    if at < 0 || at >= pattern.len() {
        0
    } else if pattern[at] == '{' {
        brace_depth(pattern, at + 1, open.push(0), escapes)
    } else if pattern[at] == '}' {
        if open.len() == 0 {
            0
        } else {
            larger(
                open.last() + 1,
                brace_depth(pattern, at + 1, after_closing(open), escapes),
            )
        }
    } else if pattern[at] == '[' {
        if class_end(pattern, at) <= at {
            0
        } else {
            brace_depth(pattern, class_end(pattern, at), open, escapes)
        }
    } else if pattern[at] == '\\' && escapes {
        brace_depth(pattern, at + 2, open, escapes)
    } else {
        brace_depth(pattern, at + 1, open, escapes)
    }
}

/// Whether the groups of a pattern are nested within bounds.
pub open spec fn nests_within_bounds(pattern: Seq<char>, escapes: bool) -> bool {
    brace_depth(pattern, 0, Seq::empty(), escapes) <= MAX_BRACE_DEPTH
}

spec fn depths(open: Seq<usize>) -> Seq<nat> {
    open.map_values(|depth: usize| depth as nat)
}

/// Tells whether the groups of a pattern are nested within bounds.
fn nests_shallowly(pattern: &[char], escapes: bool) -> (yes: bool)
    ensures
        yes == nests_within_bounds(pattern@, escapes),
{
    let mut at: usize = 0;
    let mut open: Vec<usize> = Vec::new();
    assert(depths(open@) =~= Seq::<nat>::empty());
    while at < pattern.len()
        invariant
            at <= pattern@.len(),
            forall|k: int| 0 <= k < open@.len() ==> open@[k] <= MAX_BRACE_DEPTH,
            nests_within_bounds(pattern@, escapes) <==> brace_depth(
                pattern@,
                at as int,
                depths(open@),
                escapes,
            ) <= MAX_BRACE_DEPTH,
        decreases pattern.len() - at,
    {
        let c: char = pattern[at];
        let ghost before = depths(open@);
        if c == '{' {
            open.push(0);
            assert(depths(open@) =~= before.push(0));
            at += 1;
        } else if c == '}' {
            match open.pop() {
                None => {
                    return true;
                },
                Some(depth) => {
                    assert(before.last() == depth);
                    if depth >= MAX_BRACE_DEPTH {
                        return false;
                    }
                    assert(depths(open@) =~= before.drop_last());
                    let count: usize = open.len();
                    if count > 0 && open[count - 1] < depth + 1 {
                        open.set(count - 1, depth + 1);
                    }
                    assert(depths(open@) =~= after_closing(before));
                },
            }
            at += 1;
        } else if c == '[' {
            let first: usize = if pattern.len() - at > 1 && (pattern[at + 1] == '!' || pattern[at
                + 1] == '^') {
                at + 2
            } else {
                at + 1
            };
            if first == pattern.len() {
                assert(brace_depth(pattern@, class_end(pattern@, at as int), before, escapes) == 0);
                return true;
            }
            let end: usize = text::find_char(pattern, ']', first + 1);
            if end == pattern.len() {
                assert(brace_depth(pattern@, class_end(pattern@, at as int), before, escapes) == 0);
                return true;
            }
            at = end + 1;
        } else if c == '\\' && escapes {
            if pattern.len() - at < 2 {
                assert(brace_depth(pattern@, at + 2, before, escapes) == 0);
                return true;
            }
            at += 2;
        } else {
            at += 1;
        }
    }
    true
}

proof fn lemma_portable_depth(pattern: Seq<char>, at: int, open: Seq<nat>)
    requires
        is_portable(pattern),
    ensures
        brace_depth(pattern, at, open, true) == brace_depth(pattern, at, open, false),
    decreases
            if at < pattern.len() {
                pattern.len() - at
            } else {
                0
            },
{
    if 0 <= at < pattern.len() {
        assert(pattern.contains(pattern[at]));
        if pattern[at] == '{' {
            lemma_portable_depth(pattern, at + 1, open.push(0));
        } else if pattern[at] == '}' {
            lemma_portable_depth(pattern, at + 1, after_closing(open));
        } else if pattern[at] == '[' {
            if class_end(pattern, at) > at {
                lemma_portable_depth(pattern, class_end(pattern, at), open);
            }
        } else {
            lemma_portable_depth(pattern, at + 1, open);
        }
    }
}

/// `globset::GlobSet`, a compiled set of globs.
#[verifier::external_type_specification]
#[verifier::external_body]
pub struct ExGlobSet(globset::GlobSet);

/// The patterns that a set of globs holds.
pub uninterp spec fn held_patterns(set: globset::GlobSet) -> Seq<Seq<char>>;

/// Why a pattern is not a glob, on a machine with words of the given size:
/// the compiled size is bounded, and counts in words.
pub uninterp spec fn glob_fault(pattern: Seq<char>, word_bits: u32) -> Option<Seq<char>>;

/// Whether a glob matches a path, on a machine with words of the given size.
pub uninterp spec fn glob_matches(pattern: Seq<char>, path: Seq<char>, word_bits: u32) -> bool;

/// Compiles one pattern with `globset::GlobBuilder` and
/// `globset::GlobSetBuilder`, with separators matched only literally and with
/// the given meaning of a backslash. The set holds that pattern alone. For a
/// portable pattern the error is named [`glob_fault`]; what others mean depends
/// on the platform and is left unsaid. A pattern is rendered, and its groups
/// are dropped, by functions that call themselves once per nested group, so
/// their depth is bounded.
#[verifier::external_body]
fn compile_glob(pattern: &str, escapes: bool) -> (result: Result<globset::GlobSet, String>)
    requires
        nests_within_bounds(pattern@, escapes),
    ensures
        match result {
            Ok(set) => held_patterns(set) == seq![pattern@] && (is_portable(pattern@)
                ==> glob_fault(pattern@, usize::BITS) is None),
            Err(e) => is_portable(pattern@) ==> glob_fault(pattern@, usize::BITS) == Some(e@),
        },
{
    let mut builder = globset::GlobBuilder::new(pattern);
    let glob = match builder.literal_separator(true).backslash_escape(escapes).build() {
        Ok(glob) => glob,
        Err(e) => return Err(e.to_string()),
    };
    globset::GlobSetBuilder::new().add(glob).build().map_err(|e| e.to_string())
}

/// Asks `globset::GlobSet::is_match` whether a path matches. Where the set
/// holds one pattern and both are portable, the answer is named
/// [`glob_matches`]; what other texts mean depends on the platform and is
/// left unsaid.
#[verifier::external_body]
fn match_globs(set: &globset::GlobSet, path: &str) -> (verdict: bool)
    ensures
        held_patterns(*set).len() == 1 && is_portable(held_patterns(*set)[0]) && is_portable(path@)
            ==> verdict == glob_matches(held_patterns(*set)[0], path@, usize::BITS),
{
    set.is_match(path)
}

/// Calls `question` on a pattern.
fn ask_glob<Q: Fn(&str, bool) -> Result<globset::GlobSet, String>>(
    question: Q,
    pattern: &str,
    escapes: bool,
) -> (answer: Result<globset::GlobSet, String>)
    requires
        call_requires(question, (pattern, escapes)),
    ensures
        call_ensures(question, (pattern, escapes), answer),
{
    question(pattern, escapes)
}

/// Calls `question` on a set of globs and a path.
fn ask_match<Q: Fn(&globset::GlobSet, &str) -> bool>(
    question: Q,
    set: &globset::GlobSet,
    path: &str,
) -> (answer: bool)
    requires
        call_requires(question, (set, path)),
    ensures
        call_ensures(question, (set, path), answer),
{
    question(set, path)
}

/// Whether compiling `pattern` may succeed on this platform.
pub closed spec fn told_accepted(pattern: Seq<char>, escapes: bool) -> bool {
    exists|given: &str, set: globset::GlobSet|
        given@ == pattern && #[trigger] call_ensures(compile_glob, (given, escapes), Ok(set))
}

/// Whether compiling `pattern` may fail with `reason` on this platform.
pub closed spec fn told_refused(pattern: Seq<char>, escapes: bool, reason: Seq<char>) -> bool {
    exists|given: &str, error: String|
        given@ == pattern && error@ == reason && #[trigger] call_ensures(
            compile_glob,
            (given, escapes),
            Err(error),
        )
}

/// Whether a pattern is accepted where a backslash escapes or does not.
pub open spec fn accepts_where(pattern: Seq<char>, escapes: bool) -> bool {
    nests_within_bounds(pattern, escapes) && told_accepted(pattern, escapes)
}

/// Whether a pattern is accepted: its groups are nested within bounds, and it
/// compiles. A backslash escapes where it does not separate. A portable
/// pattern is accepted on every platform or on none.
pub open spec fn accepts(pattern: Seq<char>) -> bool {
    &&& exists|separates: bool| #[trigger]
        workspace::told_separator('\\', separates) && accepts_where(pattern, !separates)
    &&& is_portable(pattern) ==> nests_within_bounds(pattern, false) && glob_fault(
        pattern,
        usize::BITS,
    ) is None
}

/// Whether a pattern is refused for the given reason where a backslash escapes
/// or does not.
pub open spec fn refuses_where(pattern: Seq<char>, escapes: bool, reason: Seq<char>) -> bool {
    if nests_within_bounds(pattern, escapes) {
        told_refused(pattern, escapes, reason)
    } else {
        reason == "braces are nested too deeply"@
    }
}

/// Whether a pattern is refused for the given reason: its groups are nested
/// too deeply, or it does not compile.
pub open spec fn refuses(pattern: Seq<char>, reason: Seq<char>) -> bool {
    &&& exists|separates: bool| #[trigger]
        workspace::told_separator('\\', separates) && refuses_where(pattern, !separates, reason)
    &&& is_portable(pattern) ==> if nests_within_bounds(pattern, false) {
        glob_fault(pattern, usize::BITS) == Some(reason)
    } else {
        reason == "braces are nested too deeply"@
    }
}

/// A compiled filter on paths.
#[derive(Debug)]
pub struct PathFilter {
    set: globset::GlobSet,
}

/// The pattern of a requested filter; a blank one is none.
pub open spec fn requested_pattern(glob: Option<String>) -> Option<Seq<char>> {
    match glob {
        Some(given) => if text::is_blank(given@) {
            None
        } else {
            Some(text::trimmed(given@))
        },
        None => None,
    }
}

/// The pattern of an optional filter.
pub open spec fn filter_pattern(filter: Option<PathFilter>) -> Option<Seq<char>> {
    match filter {
        Some(f) => Some(f.pattern()),
        None => None,
    }
}

/// Whether an entry is selected: there is no filter, or it matches the path
/// or the bare name.
pub open spec fn selected(filtered: bool, path_matches: bool, name_matches: bool) -> bool {
    !filtered || path_matches || name_matches
}

impl PathFilter {
    #[verifier::type_invariant]
    spec fn holds_one(self) -> bool {
        held_patterns(self.set).len() == 1
    }

    /// The filter's pattern.
    pub closed spec fn pattern(self) -> Seq<char> {
        held_patterns(self.set)[0]
    }

    /// What is asked when a path is matched.
    pub closed spec fn told_match(self, path: Seq<char>, verdict: bool) -> bool {
        exists|given: &str|
            given@ == path && #[trigger] call_ensures(match_globs, (&self.set, given), verdict)
    }

    /// Whether `verdict` is whether the filter matches a path. Where pattern
    /// and path are portable, that is the same on every platform.
    pub open spec fn verdict_of(self, path: Seq<char>, verdict: bool) -> bool {
        &&& self.told_match(path, verdict)
        &&& is_portable(self.pattern()) && is_portable(path) ==> verdict == glob_matches(
            self.pattern(),
            path,
            usize::BITS,
        )
    }

    /// Compiles a requested filter. A blank one is none; the reason comes
    /// back where the pattern is refused.
    pub fn compile(glob: &Option<String>) -> (result: Result<Option<PathFilter>, String>)
        ensures
            match result {
                Ok(filter) => filter_pattern(filter) == requested_pattern(*glob) && (
                requested_pattern(*glob) matches Some(p) ==> accepts(p)),
                Err(e) => requested_pattern(*glob) matches Some(p) && refuses(p, e@),
            },
    {
        match glob {
            None => Ok(None),
            Some(given) => {
                if text::blank(given.as_str()) {
                    return Ok(None);
                }
                let pattern: String = text::trim_text(given.as_str());
                let chars: Vec<char> = text::chars_of(pattern.as_str());
                let separates: bool = workspace::ask_separator('\\');
                proof {
                    if is_portable(pattern@) {
                        lemma_portable_depth(pattern@, 0, Seq::empty());
                    }
                }
                if !nests_shallowly(chars.as_slice(), !separates) {
                    let reason: String = String::from_str("braces are nested too deeply");
                    assert(refuses_where(pattern@, !separates, reason@));
                    return Err(reason);
                }
                let answer = ask_glob(compile_glob, pattern.as_str(), !separates);
                match answer {
                    Ok(set) => {
                        assert(accepts_where(pattern@, !separates));
                        Ok(Some(PathFilter { set }))
                    },
                    Err(e) => {
                        assert(refuses_where(pattern@, !separates, e@));
                        Err(e)
                    },
                }
            },
        }
    }

    /// Whether the filter matches a path.
    pub fn matches(&self, path: &str) -> (verdict: bool)
        ensures
            self.verdict_of(path@, verdict),
    {
        proof {
            use_type_invariant(self);
        }
        ask_match(match_globs, &self.set, path)
    }
}

/// Whether `yes` is whether an optional filter selects the path `rel` with the
/// bare name `name`.
pub open spec fn may_select(
    filter: Option<PathFilter>,
    rel: Seq<char>,
    name: Option<String>,
    yes: bool,
) -> bool {
    match filter {
        None => yes,
        Some(f) => exists|by_path: bool, by_name: bool| #[trigger]
            selected(true, by_path, by_name) == yes && f.verdict_of(rel, by_path)
                && match name {
                Some(n) => f.verdict_of(n@, by_name),
                None => !by_name,
            },
    }
}

/// Whether an optional filter selects the path `rel` with the bare name
/// `name`; a name that is not valid text matches nothing.
pub fn selects(filter: &Option<PathFilter>, rel: &str, name: &Option<String>) -> (yes: bool)
    ensures
        may_select(*filter, rel@, *name, yes),
{
    match filter {
        None => true,
        Some(f) => {
            let by_path: bool = f.matches(rel);
            let by_name: bool = match name {
                Some(n) => f.matches(n.as_str()),
                None => false,
            };
            assert(selected(true, by_path, by_name) == (by_path || by_name));
            by_path || by_name
        },
    }
}

/// A filter selects an entry just where its pattern matches the path relative
/// to the workspace or the bare name, whichever; without a filter every entry
/// is selected.
pub proof fn law_filters_match_path_or_name(
    filter: Option<PathFilter>,
    rel: Seq<char>,
    name: Option<String>,
    yes: bool,
)
    requires
        may_select(filter, rel, name, yes),
        filter matches Some(f) ==> is_portable(f.pattern()),
        is_portable(rel),
        name matches Some(n) ==> is_portable(n@),
    ensures
        filter is None ==> yes,
        filter matches Some(f) ==> (yes <==> glob_matches(f.pattern(), rel, usize::BITS) || (
        name matches Some(n) && glob_matches(f.pattern(), n@, usize::BITS))),
{
}

/// Whatever the platform says of a pattern, an entry is selected just where it
/// says that the path matches, or that the bare name does.
pub proof fn law_selection_follows_the_verdicts(
    f: PathFilter,
    rel: Seq<char>,
    name: Option<String>,
    yes: bool,
)
    requires
        may_select(Some(f), rel, name, yes),
    ensures
        yes ==> f.told_match(rel, true) || (name matches Some(n) && f.told_match(n@, true)),
        !yes ==> f.told_match(rel, false) && (name matches Some(n) ==> f.told_match(n@, false)),
{
}

/// A requested filter is taken as it stands but for the white space around it,
/// and a blank one is none.
pub proof fn law_filters_are_taken_as_given(glob: Option<String>)
    ensures
        glob is None ==> requested_pattern(glob) is None,
        glob matches Some(given) ==> (requested_pattern(glob) is None <==> text::is_blank(given@)),
        glob matches Some(given) ==> (requested_pattern(glob) matches Some(p) ==> text::is_core(
            given@,
            p,
        )),
{
    if let Some(given) = glob {
        text::law_trimming_takes_off_white_space_only(given@);
    }
}

/// How many opening braces stand in a pattern from position `at` on.
pub open spec fn braces_from(pattern: Seq<char>, at: int) -> nat
    decreases pattern.len() - at,
{
    if at < 0 || at >= pattern.len() {
        0
    } else {
        braces_from(pattern, at + 1) + (if pattern[at] == '{' {
            1nat
        } else {
            0nat
        })
    }
}

proof fn lemma_braces_fall(pattern: Seq<char>, at: int, later: int)
    requires
        0 <= at <= later,
    ensures
        braces_from(pattern, later) <= braces_from(pattern, at),
    decreases later - at,
{
    if at < later {
        lemma_braces_fall(pattern, at + 1, later);
    }
}

spec fn within_depth(open: Seq<nat>, bound: nat) -> bool {
    &&& open.len() <= bound
    &&& forall|k: int| 0 <= k < open.len() ==> #[trigger] open[k] + k + 1 <= bound
}

proof fn lemma_depth_is_bounded(
    pattern: Seq<char>,
    at: int,
    open: Seq<nat>,
    escapes: bool,
    bound: nat,
)
    requires
        0 <= at,
        within_depth(open, bound),
    ensures
        brace_depth(pattern, at, open, escapes) <= bound + braces_from(pattern, at),
    decreases
            if at < pattern.len() {
                pattern.len() - at
            } else {
                0
            },
{
    if at < pattern.len() {
        if pattern[at] == '{' {
            let more = open.push(0);
            assert(within_depth(more, bound + 1)) by {
                assert forall|k: int| 0 <= k < more.len() implies #[trigger] more[k] + k + 1 <= bound
                    + 1 by {
                    if k < open.len() {
                        assert(more[k] == open[k]);
                    }
                }
            }
            lemma_depth_is_bounded(pattern, at + 1, more, escapes, bound + 1);
        } else if pattern[at] == '}' {
            if open.len() > 0 {
                let rest = after_closing(open);
                assert(open[open.len() - 1] == open.last());
                assert(within_depth(rest, bound)) by {
                    assert forall|k: int| 0 <= k < rest.len() implies #[trigger] rest[k] + k + 1
                        <= bound by {
                        assert(open[k] + k + 1 <= bound);
                        assert(open.drop_last()[k] == open[k]);
                    }
                }
                lemma_depth_is_bounded(pattern, at + 1, rest, escapes, bound);
            }
        } else if pattern[at] == '[' {
            if class_end(pattern, at) > at {
                lemma_depth_is_bounded(pattern, class_end(pattern, at), open, escapes, bound);
                lemma_braces_fall(pattern, at, class_end(pattern, at));
            }
        } else if pattern[at] == '\\' && escapes {
            lemma_depth_is_bounded(pattern, at + 2, open, escapes, bound);
            lemma_braces_fall(pattern, at, at + 2);
        } else {
            lemma_depth_is_bounded(pattern, at + 1, open, escapes, bound);
        }
    }
}

/// A pattern with no more than a thousand opening braces is never refused for
/// its nesting.
pub proof fn law_few_groups_are_within_bounds(pattern: Seq<char>, escapes: bool)
    requires
        braces_from(pattern, 0) <= 1000,
    ensures
        nests_within_bounds(pattern, escapes),
{
    lemma_depth_is_bounded(pattern, 0, Seq::empty(), escapes, 0);
}

/// A word with `levels` groups around it.
pub open spec fn in_groups(levels: nat, word: Seq<char>) -> Seq<char> {
    Seq::new(levels, |i: int| '{') + word + Seq::new(levels, |i: int| '}')
}

/// A word in more than a thousand groups is refused, and one in fewer is not.
pub proof fn law_nested_groups_are_counted(levels: nat, word: Seq<char>, escapes: bool)
    requires
        forall|i: int|
            0 <= i < word.len() ==> #[trigger] word[i] != '{' && word[i] != '}' && word[i] != '['
                && word[i] != '\\',
    ensures
        nests_within_bounds(in_groups(levels, word), escapes) <==> levels <= 1000,
{
    let pattern = in_groups(levels, word);
    let none = zeros(0);
    assert(none =~= Seq::<nat>::empty());
    lemma_groups_open(levels, word, escapes, 0);
    lemma_word_passes(levels, word, escapes, 0);
    lemma_groups_close(levels, word, escapes, 0);
    assert(opened(levels, 0) =~= zeros(levels));
    if levels == 0 {
        assert(pattern.len() == word.len());
    }
}

spec fn zeros(count: nat) -> Seq<nat> {
    Seq::new(count, |i: int| 0nat)
}

spec fn opened(count: nat, inside: nat) -> Seq<nat> {
    if count == 0 {
        Seq::empty()
    } else {
        zeros((count - 1) as nat).push(inside)
    }
}

proof fn lemma_groups_open(levels: nat, word: Seq<char>, escapes: bool, i: nat)
    requires
        i <= levels,
    ensures
        brace_depth(in_groups(levels, word), i as int, zeros(i), escapes) == brace_depth(
            in_groups(levels, word),
            levels as int,
            zeros(levels),
            escapes,
        ),
    decreases levels - i,
{
    if i < levels {
        let pattern = in_groups(levels, word);
        assert(pattern[i as int] == '{');
        assert(zeros(i).push(0) =~= zeros(i + 1));
        lemma_groups_open(levels, word, escapes, i + 1);
    }
}

proof fn lemma_word_passes(levels: nat, word: Seq<char>, escapes: bool, i: int)
    requires
        0 <= i <= word.len(),
        forall|i: int|
            0 <= i < word.len() ==> #[trigger] word[i] != '{' && word[i] != '}' && word[i] != '['
                && word[i] != '\\',
    ensures
        brace_depth(in_groups(levels, word), levels + i, zeros(levels), escapes) == brace_depth(
            in_groups(levels, word),
            (levels + word.len()) as int,
            zeros(levels),
            escapes,
        ),
    decreases word.len() - i,
{
    if i < word.len() {
        let pattern = in_groups(levels, word);
        assert(pattern[levels + i] == word[i]);
        lemma_word_passes(levels, word, escapes, i + 1);
    }
}

proof fn lemma_groups_close(levels: nat, word: Seq<char>, escapes: bool, closed: nat)
    requires
        closed <= levels,
    ensures
        brace_depth(
            in_groups(levels, word),
            (levels + word.len() + closed) as int,
            opened((levels - closed) as nat, closed),
            escapes,
        ) == if closed < levels {
            levels
        } else {
            0
        },
    decreases levels - closed,
{
    let pattern = in_groups(levels, word);
    if closed < levels {
        let at = (levels + word.len() + closed) as int;
        let open = opened((levels - closed) as nat, closed);
        assert(pattern[at] == '}');
        assert(open.drop_last() =~= zeros((levels - closed - 1) as nat));
        assert(after_closing(open) =~= opened((levels - closed - 1) as nat, closed + 1));
        lemma_groups_close(levels, word, escapes, closed + 1);
    }
}

/// A portable pattern is accepted just where it is a glob whose groups are
/// nested within bounds, and refused for its own fault otherwise.
pub proof fn law_globs_are_accepted(pattern: Seq<char>, reason: Seq<char>)
    requires
        is_portable(pattern),
    ensures
        accepts(pattern) ==> glob_fault(pattern, usize::BITS) is None && nests_within_bounds(
            pattern,
            false,
        ),
        refuses(pattern, reason) && nests_within_bounds(pattern, false) ==> glob_fault(
            pattern,
            usize::BITS,
        ) == Some(reason),
        !(accepts(pattern) && refuses(pattern, reason)),
{
}

/// A compiled filter is for the requested pattern.
pub proof fn law_filters_hold_their_pattern(filter: Option<PathFilter>, glob: Option<String>)
    requires
        filter_pattern(filter) == requested_pattern(glob),
    ensures
        filter is None <==> requested_pattern(glob) is None,
        filter matches Some(f) ==> (glob matches Some(given) && text::is_core(given@, f.pattern())),
{
    law_filters_are_taken_as_given(glob);
}

} // verus!
