//! `git_status` and `git_diff`: fixed, hardened argument lists, and the
//! presentation of what git says.
use crate::config::Limits;
use crate::error::{ToolError, ToolResult};
use crate::registry::WorkspaceRegistry;
use crate::text;
use crate::tools::discovery;
use crate::tools::discovery::Selected;
use crate::workspace;
use crate::workspace::{FullPath, Located, PathPresentation, PathView, WorkspaceContext};
use crate::workspace_id::WorkspaceId;
use std::sync::Arc;
use vstd::prelude::*;

verus! {

broadcast use vstd::string::group_string_axioms;

// ---------------------------------------------------------------------------
// Redaction
// ---------------------------------------------------------------------------

/// Whether a path component ends at position `at`: the text ends there, or a
/// separator, a quote, white space or a colon follows.
pub open spec fn component_ends(s: Seq<char>, at: int) -> bool {
    at >= s.len() || s[at] == '/' || s[at] == '\\' || s[at] == '\'' || s[at] == '"' || s[at] == ' '
        || s[at] == '\t' || s[at] == ':' || s[at] == '\n' || s[at] == '\r'
}

/// `s` from position `i` on, with every occurrence of `root` that ends a path
/// component turned into `replacement`.
pub open spec fn redacted_from(
    s: Seq<char>,
    root: Seq<char>,
    replacement: Seq<char>,
    i: int,
) -> Seq<char>
    decreases s.len() - i,
{
    if i < 0 || i >= s.len() {
        Seq::empty()
    } else if root.len() > 0 && text::occurs_at(s, root, i) {
        let next = i + root.len();
        (if component_ends(s, next) {
            replacement
        } else {
            root
        }) + redacted_from(s, root, replacement, next)
    } else {
        seq![s[i]] + redacted_from(s, root, replacement, i + 1)
    }
}

/// Replaces every occurrence of `root` that ends a path component, so that
/// `/ws/root` never rewrites an unrelated `/ws/root-2`.
pub fn replace_path_prefix(s: &str, root: &str, replacement: &str) -> (out: String)
    ensures
        out@ == redacted_from(s@, root@, replacement@, 0),
{
    let chars: Vec<char> = text::chars_of(s);
    let wanted: Vec<char> = text::chars_of(root);
    let mut out: String = String::new();
    let mut i: usize = 0;
    assert(out@ + redacted_from(s@, root@, replacement@, 0) =~= redacted_from(
        s@,
        root@,
        replacement@,
        0,
    ));
    while i < chars.len()
        invariant
            chars@ == s@,
            wanted@ == root@,
            i <= chars@.len(),
            out@ + redacted_from(s@, root@, replacement@, i as int) == redacted_from(
                s@,
                root@,
                replacement@,
                0,
            ),
        decreases chars.len() - i,
    {
        let ghost before = out@;
        if wanted.len() > 0 && text::matches_at(chars.as_slice(), wanted.as_slice(), i) {
            let next: usize = i + wanted.len();
            let ends: bool = next >= chars.len() || chars[next] == '/' || chars[next] == '\\'
                || chars[next] == '\'' || chars[next] == '"' || chars[next] == ' ' || chars[next]
                == '\t' || chars[next] == ':' || chars[next] == '\n' || chars[next] == '\r';
            if ends {
                out.append(replacement);
                assert(out@ + redacted_from(s@, root@, replacement@, next as int) =~= before + (
                replacement@ + redacted_from(s@, root@, replacement@, next as int)));
            } else {
                out.append(root);
                assert(out@ + redacted_from(s@, root@, replacement@, next as int) =~= before + (
                root@ + redacted_from(s@, root@, replacement@, next as int)));
            }
            i = next;
        } else {
            out.push(chars[i]);
            assert(out@ + redacted_from(s@, root@, replacement@, i + 1) =~= before + (seq![
                s@[i as int],
            ] + redacted_from(s@, root@, replacement@, i + 1)));
            i += 1;
        }
    }
    assert(out@ + Seq::<char>::empty() =~= out@);
    out
}

/// The verbatim prefix that canonical Windows paths carry.
pub open spec fn verbatim() -> Seq<char> {
    "\\\\?\\"@
}

/// The spellings of a path before separators are swapped: as it is, without
/// a verbatim prefix, and the ordinary spelling of a verbatim share.
pub open spec fn spellings(canonical: Seq<char>) -> Seq<Seq<char>> {
    match text::after_prefix(canonical, verbatim()) {
        None => seq![canonical],
        Some(stripped) => match share_rest(stripped) {
            None => seq![canonical, stripped],
            Some(rest) => seq![canonical, stripped, "\\\\"@ + rest],
        },
    }
}

/// What follows the share marker of a verbatim path.
pub open spec fn share_rest(stripped: Seq<char>) -> Option<Seq<char>> {
    if text::begins_with(stripped, "UNC\\"@) {
        text::after_prefix(stripped, "UNC\\"@)
    } else {
        text::after_prefix(stripped, "UNC/"@)
    }
}

/// The separator variants of one spelling; a verbatim one keeps its prefix in
/// one of them.
pub open spec fn separator_variants(form: Seq<char>) -> Seq<Seq<char>> {
    let three = seq![form, text::swapped(form, '\\', '/'), text::swapped(form, '/', '\\')];
    match text::after_prefix(form, verbatim()) {
        None => three,
        Some(rest) => three.push(verbatim() + text::swapped(rest, '\\', '/')),
    }
}

/// `sorted` with `item` in its place, unless it is empty or there already.
pub open spec fn placed(sorted: Seq<Seq<char>>, item: Seq<char>) -> Seq<Seq<char>>
    decreases sorted.len(),
{
    if item.len() == 0 {
        sorted
    } else if sorted.len() == 0 {
        seq![item]
    } else if sorted.last() == item {
        sorted
    } else if text::precedes(item, sorted.last()) {
        placed(sorted.drop_last(), item).push(sorted.last())
    } else {
        sorted.push(item)
    }
}

/// The distinct non-empty texts among `items`, in order.
pub open spec fn tidied(items: Seq<Seq<char>>) -> Seq<Seq<char>>
    decreases items.len(),
{
    if items.len() == 0 {
        Seq::empty()
    } else {
        placed(tidied(items.drop_last()), items.last())
    }
}

/// All separator variants of all spellings.
pub open spec fn all_variants(forms: Seq<Seq<char>>) -> Seq<Seq<char>>
    decreases forms.len(),
{
    if forms.len() == 0 {
        Seq::empty()
    } else {
        all_variants(forms.drop_last()) + separator_variants(forms.last())
    }
}

/// The equivalent display spellings of a canonical path.
pub open spec fn display_variants(canonical: Seq<char>) -> Seq<Seq<char>> {
    tidied(all_variants(spellings(canonical)))
}

fn place(sorted: &mut Vec<String>, item: &str)
    ensures
        text::text_views(final(sorted)@) == placed(text::text_views(old(sorted)@), item@),
{
    let ghost views = text::text_views(sorted@);
    if item.is_empty() {
        return;
    }
    let mut at: usize = sorted.len();
    assert(views.take(at as int) =~= views);
    assert(placed(views, item@) + views.skip(at as int) =~= placed(views, item@));
    while at > 0 && text::comes_before(item, sorted[at - 1].as_str())
        invariant
            *sorted == *old(sorted),
            views == text::text_views(sorted@),
            at <= sorted@.len(),
            item@.len() > 0,
            placed(views.take(at as int), item@) + views.skip(at as int) == placed(views, item@),
        ensures
            at == 0 || !text::precedes(item@, views[at - 1]),
        decreases at,
    {
        proof {
            let part = views.take(at as int);
            text::lemma_precedes_total(item@, part.last());
            assert(part.drop_last() =~= views.take(at - 1));
            assert(part.last() == sorted@[at - 1]@);
            assert(placed(part.drop_last(), item@).push(part.last()) + views.skip(at as int)
                =~= placed(part.drop_last(), item@) + views.skip(at - 1));
        }
        at -= 1;
    }
    let ghost part = views.take(at as int);
    if at > 0 {
        assert(part.last() == sorted@[at - 1]@);
        if text::same_text(item, sorted[at - 1].as_str()) {
            assert(part + views.skip(at as int) =~= views);
            return;
        }
    }
    sorted.insert(at, String::from_str(item));
    proof {
        if at == 0 {
            assert(placed(part, item@) =~= seq![item@]);
        } else {
            assert(placed(part, item@) =~= part.push(item@));
        }
        assert(text::text_views(sorted@) =~= placed(part, item@) + views.skip(at as int));
    }
}

fn find_spellings(canonical: &str) -> (forms: Vec<String>)
    ensures
        text::text_views(forms@) == spellings(canonical@),
{
    let mut forms: Vec<String> = Vec::new();
    assert(text::text_views(forms@) =~= Seq::<Seq<char>>::empty());
    text::push_text(&mut forms, canonical);
    if let Some(stripped) = text::strip_prefix(canonical, "\\\\?\\") {
        text::push_text(&mut forms, stripped.as_str());
        let rest: Option<String> = match text::strip_prefix(stripped.as_str(), "UNC\\") {
            Some(rest) => Some(rest),
            None => text::strip_prefix(stripped.as_str(), "UNC/"),
        };
        if let Some(rest) = rest {
            text::push_text(&mut forms, String::from_str("\\\\").concat(rest.as_str()).as_str());
        }
    }
    assert(text::text_views(forms@) =~= spellings(canonical@));
    forms
}

fn push_variants(variants: &mut Vec<String>, form: &str)
    ensures
        text::text_views(final(variants)@) == text::text_views(old(variants)@)
            + separator_variants(form@),
{
    let ghost before = text::text_views(variants@);
    text::push_text(variants, form);
    text::push_text(variants, text::swap_chars(form, '\\', '/').as_str());
    text::push_text(variants, text::swap_chars(form, '/', '\\').as_str());
    if let Some(rest) = text::strip_prefix(form, "\\\\?\\") {
        let mixed: String = String::from_str("\\\\?\\").concat(
            text::swap_chars(rest.as_str(), '\\', '/').as_str(),
        );
        text::push_text(variants, mixed.as_str());
    }
    assert(text::text_views(variants@) =~= before + separator_variants(form@));
}

/// Finds the equivalent display spellings of a canonical path: with and
/// without a verbatim prefix, with either separator, and the mixed forms that
/// diagnostics use. In order, and each once.
pub fn path_display_variants(canonical: &str) -> (variants: Vec<String>)
    ensures
        text::text_views(variants@) == display_variants(canonical@),
{
    let forms: Vec<String> = find_spellings(canonical);
    let ghost form_views = text::text_views(forms@);
    let mut raw: Vec<String> = Vec::new();
    assert(text::text_views(raw@) =~= Seq::<Seq<char>>::empty());
    assert(form_views.take(0) =~= Seq::<Seq<char>>::empty());
    for i in 0..forms.len()
        invariant
            form_views == text::text_views(forms@),
            text::text_views(raw@) == all_variants(form_views.take(i as int)),
    {
        assert(form_views.take(i + 1).drop_last() =~= form_views.take(i as int));
        assert(form_views.take(i + 1).last() == forms@[i as int]@);
        push_variants(&mut raw, forms[i].as_str());
    }
    assert(form_views.take(form_views.len() as int) =~= form_views);
    let ghost raw_views = text::text_views(raw@);
    let mut variants: Vec<String> = Vec::new();
    assert(text::text_views(variants@) =~= Seq::<Seq<char>>::empty());
    assert(raw_views.take(0) =~= Seq::<Seq<char>>::empty());
    for i in 0..raw.len()
        invariant
            raw_views == text::text_views(raw@),
            text::text_views(variants@) == tidied(raw_views.take(i as int)),
    {
        assert(raw_views.take(i + 1).drop_last() =~= raw_views.take(i as int));
        assert(raw_views.take(i + 1).last() == raw@[i as int]@);
        place(&mut variants, raw[i].as_str());
    }
    assert(raw_views.take(raw_views.len() as int) =~= raw_views);
    variants
}

/// `needles` with `item` behind every one that is at least as long.
pub open spec fn ranked(needles: Seq<Seq<char>>, item: Seq<char>) -> Seq<Seq<char>>
    decreases needles.len(),
{
    if needles.len() > 0 && text::byte_len(needles.last()) < text::byte_len(item) {
        ranked(needles.drop_last(), item).push(needles.last())
    } else {
        needles.push(item)
    }
}

/// `items` ranked one after the other behind `needles`.
pub open spec fn ranked_all(needles: Seq<Seq<char>>, items: Seq<Seq<char>>) -> Seq<Seq<char>>
    decreases items.len(),
{
    if items.len() == 0 {
        needles
    } else {
        ranked(ranked_all(needles, items.drop_last()), items.last())
    }
}

/// The spellings to redact for the given roots, longest first. An empty root
/// or a bare slash discloses nothing.
pub open spec fn needles_for(roots: Seq<Seq<char>>) -> Seq<Seq<char>>
    decreases roots.len(),
{
    if roots.len() == 0 {
        Seq::empty()
    } else if roots.last().len() == 0 || roots.last() == "/"@ {
        needles_for(roots.drop_last())
    } else {
        ranked_all(needles_for(roots.drop_last()), display_variants(roots.last()))
    }
}

/// `s` with each of the needles redacted in turn.
pub open spec fn redacted_all(
    s: Seq<char>,
    needles: Seq<Seq<char>>,
    replacement: Seq<char>,
) -> Seq<char>
    decreases needles.len(),
{
    if needles.len() == 0 {
        s
    } else {
        redacted_from(
            redacted_all(s, needles.drop_last(), replacement),
            needles.last(),
            replacement,
            0,
        )
    }
}

fn rank(needles: &mut Vec<String>, item: &str)
    ensures
        text::text_views(final(needles)@) == ranked(text::text_views(old(needles)@), item@),
{
    let ghost views = text::text_views(needles@);
    let length: usize = text::byte_len_of(item);
    let mut at: usize = needles.len();
    assert(views.take(at as int) =~= views);
    assert(ranked(views, item@) + views.skip(at as int) =~= ranked(views, item@));
    while at > 0 && text::byte_len_of(needles[at - 1].as_str()) < length
        invariant
            *needles == *old(needles),
            views == text::text_views(needles@),
            length == text::byte_len(item@),
            at <= needles@.len(),
            ranked(views.take(at as int), item@) + views.skip(at as int) == ranked(views, item@),
        ensures
            at == 0 || text::byte_len(views[at - 1]) >= length,
        decreases at,
    {
        proof {
            let part = views.take(at as int);
            assert(part.drop_last() =~= views.take(at - 1));
            assert(part.last() == needles@[at - 1]@);
            assert(ranked(part.drop_last(), item@).push(part.last()) + views.skip(at as int)
                =~= ranked(part.drop_last(), item@) + views.skip(at - 1));
        }
        at -= 1;
    }
    let ghost part = views.take(at as int);
    proof {
        if at > 0 {
            assert(part.last() == views[at - 1]);
        }
        assert(ranked(part, item@) =~= part.push(item@));
    }
    needles.insert(at, String::from_str(item));
    assert(text::text_views(needles@) =~= part.push(item@) + views.skip(at as int));
}

fn collect_needles(roots: &Vec<String>) -> (needles: Vec<String>)
    ensures
        text::text_views(needles@) == needles_for(text::text_views(roots@)),
{
    let ghost root_views = text::text_views(roots@);
    let mut needles: Vec<String> = Vec::new();
    assert(text::text_views(needles@) =~= Seq::<Seq<char>>::empty());
    assert(root_views.take(0) =~= Seq::<Seq<char>>::empty());
    for i in 0..roots.len()
        invariant
            root_views == text::text_views(roots@),
            text::text_views(needles@) == needles_for(root_views.take(i as int)),
    {
        assert(root_views.take(i + 1).drop_last() =~= root_views.take(i as int));
        assert(root_views.take(i + 1).last() == roots@[i as int]@);
        let root: &str = roots[i].as_str();
        if !root.is_empty() && !text::same_text(root, "/") {
            let variants: Vec<String> = path_display_variants(root);
            let ghost views = text::text_views(variants@);
            let ghost before = text::text_views(needles@);
            assert(views.take(0) =~= Seq::<Seq<char>>::empty());
            for j in 0..variants.len()
                invariant
                    views == text::text_views(variants@),
                    text::text_views(needles@) == ranked_all(before, views.take(j as int)),
            {
                assert(views.take(j + 1).drop_last() =~= views.take(j as int));
                assert(views.take(j + 1).last() == variants@[j as int]@);
                rank(&mut needles, variants[j].as_str());
            }
            assert(views.take(views.len() as int) =~= views);
        }
    }
    assert(root_views.take(root_views.len() as int) =~= root_views);
    needles
}

/// Redacts every display spelling of every root, longest first, so that a
/// spelling with a verbatim prefix goes before the one without and a
/// workspace root before an enclosing one.
pub fn redact_display_variants(s: &str, canonical_roots: &Vec<String>, replacement: &str) -> (out:
    String)
    ensures
        out@ == redacted_all(
            s@,
            needles_for(text::text_views(canonical_roots@)),
            replacement@,
        ),
{
    let needles: Vec<String> = collect_needles(canonical_roots);
    let ghost views = text::text_views(needles@);
    let mut out: String = String::from_str(s);
    assert(views.take(0) =~= Seq::<Seq<char>>::empty());
    for i in 0..needles.len()
        invariant
            views == text::text_views(needles@),
            out@ == redacted_all(s@, views.take(i as int), replacement@),
    {
        assert(views.take(i + 1).drop_last() =~= views.take(i as int));
        assert(views.take(i + 1).last() == needles@[i as int]@);
        out = replace_path_prefix(out.as_str(), needles[i].as_str(), replacement);
    }
    assert(views.take(views.len() as int) =~= views);
    out
}

// ---------------------------------------------------------------------------
// Laws of redaction
// ---------------------------------------------------------------------------

/// Whether a text discloses a root: it occurs and ends a path component.
pub open spec fn discloses(s: Seq<char>, root: Seq<char>) -> bool {
    exists|p: int| #[trigger]
        text::occurs_at(s, root, p) && component_ends(s, p + root.len())
}

/// Whether no name in a path ends with a dot.
pub open spec fn no_dotted_end(root: Seq<char>) -> bool {
    forall|j: int| 0 <= j < root.len() && #[trigger] root[j] == '.' ==> !component_ends(root, j + 1)
}

/// Whether a path can overlap itself only where a path component ends.
pub open spec fn overlaps_at_ends(root: Seq<char>) -> bool {
    forall|k: int|
        0 < k < root.len() && #[trigger] root.take(k) == root.skip(root.len() - k)
            ==> component_ends(root, k)
}

/// Where each character of a redacted text comes from; `-1` for a
/// replacement.
spec fn sources(s: Seq<char>, root: Seq<char>, i: int) -> Seq<int>
    decreases s.len() - i,
{
    if i < 0 || i >= s.len() {
        Seq::empty()
    } else if root.len() > 0 && text::occurs_at(s, root, i) {
        let next = i + root.len();
        (if component_ends(s, next) {
            seq![-1int]
        } else {
            Seq::new(root.len(), |j: int| i + j)
        }) + sources(s, root, next)
    } else {
        seq![i] + sources(s, root, i + 1)
    }
}

spec fn traced(s: Seq<char>, root: Seq<char>, i: int) -> bool {
    let out = redacted_from(s, root, seq!['.'], i);
    let from = sources(s, root, i);
    &&& from.len() == out.len()
    &&& forall|p: int|
        0 <= p < out.len() ==> {
            ||| #[trigger] from[p] == -1 && out[p] == '.'
            ||| i <= from[p] < s.len() && out[p] == s[from[p]]
        }
    &&& forall|p: int|
        0 <= p < out.len() - 1 && #[trigger] from[p] >= 0 && from[p + 1] >= 0 ==> from[p + 1]
            == from[p] + 1
    &&& forall|p: int|
        0 <= p < out.len() && #[trigger] from[p] == -1 ==> component_ends(out, p + 1) || from[p + 1]
            == -1
    &&& from.len() > 0 && from.last() >= 0 ==> from.last() == s.len() - 1
    &&& from.len() == 0 ==> i >= s.len()
    &&& from.len() > 0 && from[0] >= 0 ==> from[0] == i
}

proof fn lemma_traced(s: Seq<char>, root: Seq<char>, i: int)
    requires
        0 <= i,
    ensures
        traced(s, root, i),
    decreases s.len() - i,
{
    if i < s.len() {
        let out = redacted_from(s, root, seq!['.'], i);
        let from = sources(s, root, i);
        if root.len() > 0 && text::occurs_at(s, root, i) {
            let next = i + root.len();
            lemma_traced(s, root, next);
            let rest = redacted_from(s, root, seq!['.'], next);
            let rest_from = sources(s, root, next);
            assert forall|j: int| 0 <= j < root.len() implies s[i + j] == #[trigger] root[j] by {
                assert(s.subrange(i, i + root.len())[j] == root[j]);
            }
            if component_ends(s, next) {
                assert(out =~= seq!['.'] + rest);
                assert(from =~= seq![-1int] + rest_from);
            } else {
                assert(out =~= root + rest);
                let head = Seq::new(root.len(), |j: int| i + j);
                assert(from =~= head + rest_from);
                assert forall|p: int|
                    0 <= p < out.len() - 1 && #[trigger] from[p] >= 0 && from[p + 1]
                        >= 0 implies from[p + 1] == from[p] + 1 by {
                    if p >= root.len() {
                        assert(from[p] == rest_from[p - root.len()]);
                        assert(from[p + 1] == rest_from[p - root.len() + 1]);
                    }
                }
                assert forall|p: int| 0 <= p < out.len() && #[trigger] from[p]
                    == -1 implies component_ends(out, p + 1) || from[p + 1] == -1 by {
                    assert(from[p] == rest_from[p - root.len()]);
                    let k = p - root.len();
                    if k + 1 < rest_from.len() {
                        assert(from[p + 1] == rest_from[k + 1]);
                        assert(out[p + 1] == rest[k + 1]);
                    }
                }
            }
        } else {
            lemma_traced(s, root, i + 1);
        }
    }
}

proof fn lemma_no_replacement_inside(
    s: Seq<char>,
    root: Seq<char>,
    needle: Seq<char>,
    p: int,
    j: int,
)
    requires
        no_dotted_end(needle),
        text::occurs_at(redacted_from(s, root, seq!['.'], 0), needle, p),
        0 <= j < needle.len(),
    ensures
        sources(s, root, 0)[p + j] != -1,
    decreases needle.len() - j,
{
    lemma_traced(s, root, 0);
    let out = redacted_from(s, root, seq!['.'], 0);
    let from = sources(s, root, 0);
    assert(out.subrange(p, p + needle.len())[j] == needle[j]);
    if from[p + j] == -1 {
        assert(needle[j] == '.');
        if j + 1 < needle.len() {
            lemma_no_replacement_inside(s, root, needle, p, j + 1);
            assert(out.subrange(p, p + needle.len())[j + 1] == needle[j + 1]);
        }
        assert(component_ends(needle, j + 1));
    }
}

proof fn lemma_disclosed_before(s: Seq<char>, root: Seq<char>, needle: Seq<char>, p: int) -> (q: int)
    requires
        needle.len() > 0,
        no_dotted_end(needle),
        text::occurs_at(redacted_from(s, root, seq!['.'], 0), needle, p),
        component_ends(redacted_from(s, root, seq!['.'], 0), p + needle.len()),
    ensures
        text::occurs_at(s, needle, q),
        component_ends(s, q + needle.len()),
        forall|j: int| 0 <= j < needle.len() ==> #[trigger] sources(s, root, 0)[p + j] == q + j,
{
    lemma_traced(s, root, 0);
    let out = redacted_from(s, root, seq!['.'], 0);
    let from = sources(s, root, 0);
    let n = needle.len() as int;
    let q = from[p];
    lemma_no_replacement_inside(s, root, needle, p, 0);
    assert forall|j: int| 0 <= j < n implies #[trigger] from[p + j] == q + j by {
        lemma_consecutive(s, root, needle, p, j);
    }
    assert forall|j: int| 0 <= j < n implies s[q + j] == #[trigger] needle[j] by {
        assert(out.subrange(p, p + n)[j] == needle[j]);
        assert(from[p + j] == q + j);
    }
    assert(from[p + (n - 1)] == q + (n - 1));
    assert(s.subrange(q, q + n) =~= needle);
    if p + n < out.len() {
        assert(out[p + n] != '.');
        assert(from[p + n] != -1);
        assert(from[(p + n - 1) + 1] == from[p + n - 1] + 1);
    }
    q
}

proof fn lemma_consecutive(s: Seq<char>, root: Seq<char>, needle: Seq<char>, p: int, j: int)
    requires
        no_dotted_end(needle),
        text::occurs_at(redacted_from(s, root, seq!['.'], 0), needle, p),
        0 <= j < needle.len(),
    ensures
        sources(s, root, 0)[p + j] == sources(s, root, 0)[p] + j,
    decreases j,
{
    if j > 0 {
        lemma_traced(s, root, 0);
        lemma_consecutive(s, root, needle, p, j - 1);
        lemma_no_replacement_inside(s, root, needle, p, j - 1);
        lemma_no_replacement_inside(s, root, needle, p, j);
        let from = sources(s, root, 0);
        assert(from[(p + j - 1) + 1] == from[p + j - 1] + 1);
    }
}

/// A character of every disclosed occurrence is replaced.
proof fn lemma_something_replaced(s: Seq<char>, root: Seq<char>, i: int, q: int) -> (x: int)
    requires
        0 <= i <= q,
        root.len() > 0,
        overlaps_at_ends(root),
        text::occurs_at(s, root, q),
        component_ends(s, q + root.len()),
    ensures
        q <= x < q + root.len(),
        forall|p: int| 0 <= p < sources(s, root, i).len() ==> #[trigger] sources(s, root, i)[p] != x,
    decreases s.len() - i,
{
    let n = root.len() as int;
    let from = sources(s, root, i);
    assert(i < s.len());
    if text::occurs_at(s, root, i) {
        let next = i + n;
        let rest = sources(s, root, next);
        lemma_traced(s, root, next);
        if component_ends(s, next) {
            assert(from =~= seq![-1int] + rest);
            if q < next {
                q
            } else {
                lemma_something_replaced(s, root, next, q)
            }
        } else {
            if q < next {
                let k = next - q;
                assert(q > i);
                assert forall|j: int| 0 <= j < k implies #[trigger] root[j] == root[n - k + j] by {
                    assert(s.subrange(q, q + n)[j] == root[j]);
                    assert(s.subrange(i, i + n)[n - k + j] == root[n - k + j]);
                }
                assert(root.take(k) =~= root.skip(n - k));
                assert(s.subrange(q, q + n)[k] == root[k]);
                assert(component_ends(root, k));
                assert(false);
            }
            let x = lemma_something_replaced(s, root, next, q);
            assert(from =~= Seq::new(root.len(), |j: int| i + j) + rest);
            x
        }
    } else {
        let x = lemma_something_replaced(s, root, i + 1, q);
        assert(from =~= seq![i] + sources(s, root, i + 1));
        x
    }
}

proof fn lemma_redaction_hides(s: Seq<char>, root: Seq<char>)
    requires
        root.len() > 0,
        no_dotted_end(root),
        overlaps_at_ends(root),
    ensures
        !discloses(redacted_from(s, root, seq!['.'], 0), root),
{
    let out = redacted_from(s, root, seq!['.'], 0);
    if discloses(out, root) {
        let p = choose|p: int| #[trigger]
            text::occurs_at(out, root, p) && component_ends(out, p + root.len());
        let q = lemma_disclosed_before(s, root, root, p);
        let x = lemma_something_replaced(s, root, 0, q);
        lemma_traced(s, root, 0);
        assert(sources(s, root, 0)[p + (x - q)] == q + (x - q));
    }
}

proof fn lemma_redaction_reveals_nothing(s: Seq<char>, root: Seq<char>, needle: Seq<char>)
    requires
        needle.len() > 0,
        no_dotted_end(needle),
        !discloses(s, needle),
    ensures
        !discloses(redacted_from(s, root, seq!['.'], 0), needle),
{
    let out = redacted_from(s, root, seq!['.'], 0);
    if discloses(out, needle) {
        let p = choose|p: int| #[trigger]
            text::occurs_at(out, needle, p) && component_ends(out, p + needle.len());
        let q = lemma_disclosed_before(s, root, needle, p);
    }
}

proof fn lemma_needle_is_hidden(s: Seq<char>, needles: Seq<Seq<char>>, k: int)
    requires
        0 <= k < needles.len(),
        needles[k].len() > 0,
        no_dotted_end(needles[k]),
        overlaps_at_ends(needles[k]),
    ensures
        !discloses(redacted_all(s, needles, seq!['.']), needles[k]),
    decreases needles.len(),
{
    let before = redacted_all(s, needles.drop_last(), seq!['.']);
    if k == needles.len() - 1 {
        lemma_redaction_hides(before, needles[k]);
    } else {
        lemma_needle_is_hidden(s, needles.drop_last(), k);
        lemma_redaction_reveals_nothing(before, needles.last(), needles[k]);
    }
}

proof fn lemma_placed_keeps(sorted: Seq<Seq<char>>, item: Seq<char>, x: Seq<char>)
    requires
        sorted.contains(x) || (x == item && item.len() > 0),
    ensures
        placed(sorted, item).contains(x),
    decreases sorted.len(),
{
    let result = placed(sorted, item);
    if item.len() == 0 {
    } else if sorted.len() == 0 {
        assert(result[0] == item);
    } else if sorted.last() == item {
        assert(sorted[sorted.len() - 1] == item);
    } else if text::precedes(item, sorted.last()) {
        let part = sorted.drop_last();
        if x == sorted.last() {
            assert(result[result.len() - 1] == x);
        } else {
            if sorted.contains(x) {
                let i = choose|i: int| 0 <= i < sorted.len() && sorted[i] == x;
                assert(part[i] == x);
            }
            lemma_placed_keeps(part, item, x);
            let i = choose|i: int| 0 <= i < placed(part, item).len() && placed(part, item)[i] == x;
            assert(result[i] == x);
        }
    } else {
        if sorted.contains(x) {
            let i = choose|i: int| 0 <= i < sorted.len() && sorted[i] == x;
            assert(result[i] == x);
        } else {
            assert(result[sorted.len() as int] == x);
        }
    }
}

proof fn lemma_tidied_keeps(items: Seq<Seq<char>>, i: int)
    requires
        0 <= i < items.len(),
        items[i].len() > 0,
    ensures
        tidied(items).contains(items[i]),
    decreases items.len(),
{
    if i < items.len() - 1 {
        lemma_tidied_keeps(items.drop_last(), i);
    }
    lemma_placed_keeps(tidied(items.drop_last()), items.last(), items[i]);
}

proof fn lemma_ranked_keeps(needles: Seq<Seq<char>>, item: Seq<char>, x: Seq<char>)
    requires
        needles.contains(x) || x == item,
    ensures
        ranked(needles, item).contains(x),
    decreases needles.len(),
{
    let result = ranked(needles, item);
    if needles.len() > 0 && text::byte_len(needles.last()) < text::byte_len(item) {
        let part = needles.drop_last();
        if x == needles.last() {
            assert(result[result.len() - 1] == x);
        } else {
            if needles.contains(x) {
                let i = choose|i: int| 0 <= i < needles.len() && needles[i] == x;
                assert(part[i] == x);
            }
            lemma_ranked_keeps(part, item, x);
            let i = choose|i: int| 0 <= i < ranked(part, item).len() && ranked(part, item)[i] == x;
            assert(result[i] == x);
        }
    } else {
        if needles.contains(x) {
            let i = choose|i: int| 0 <= i < needles.len() && needles[i] == x;
            assert(result[i] == x);
        } else {
            assert(result[needles.len() as int] == x);
        }
    }
}

proof fn lemma_ranked_all_keeps(needles: Seq<Seq<char>>, items: Seq<Seq<char>>, x: Seq<char>)
    requires
        needles.contains(x) || items.contains(x),
    ensures
        ranked_all(needles, items).contains(x),
    decreases items.len(),
{
    if items.len() > 0 {
        let part = items.drop_last();
        if x != items.last() {
            if items.contains(x) {
                let i = choose|i: int| 0 <= i < items.len() && items[i] == x;
                assert(part[i] == x);
            }
            lemma_ranked_all_keeps(needles, part, x);
        }
        lemma_ranked_keeps(ranked_all(needles, part), items.last(), x);
    }
}

proof fn lemma_needles_keep(roots: Seq<Seq<char>>, r: int, x: Seq<char>)
    requires
        0 <= r < roots.len(),
        roots[r].len() > 0,
        roots[r] != "/"@,
        display_variants(roots[r]).contains(x),
    ensures
        needles_for(roots).contains(x),
    decreases roots.len(),
{
    let part = roots.drop_last();
    if r < roots.len() - 1 {
        lemma_needles_keep(part, r, x);
    }
    if !(roots.last().len() == 0 || roots.last() == "/"@) {
        lemma_ranked_all_keeps(needles_for(part), display_variants(roots.last()), x);
    }
}

/// The display spellings of a path hold the path itself, its spelling
/// without a verbatim prefix, and either with the separators swapped.
pub proof fn law_variants_cover_the_spellings(canonical: Seq<char>)
    requires
        canonical.len() > 0,
    ensures
        display_variants(canonical).contains(canonical),
        display_variants(canonical).contains(text::swapped(canonical, '\\', '/')),
        display_variants(canonical).contains(text::swapped(canonical, '/', '\\')),
        text::after_prefix(canonical, verbatim()) matches Some(stripped) ==> stripped.len() > 0 ==> (
        display_variants(canonical).contains(stripped) && display_variants(canonical).contains(
            text::swapped(stripped, '\\', '/'),
        )),
{
    let forms = spellings(canonical);
    let all = all_variants(forms);
    lemma_variants_of(forms, 0, 0);
    lemma_variants_of(forms, 0, 1);
    lemma_variants_of(forms, 0, 2);
    if let Some(stripped) = text::after_prefix(canonical, verbatim()) {
        if stripped.len() > 0 {
            lemma_variants_of(forms, 1, 0);
            lemma_variants_of(forms, 1, 1);
        }
    }
}

proof fn lemma_variants_of(forms: Seq<Seq<char>>, f: int, v: int)
    requires
        0 <= f < forms.len(),
        0 <= v < 3,
        forms[f].len() > 0,
    ensures
        tidied(all_variants(forms)).contains(separator_variants(forms[f])[v]),
{
    let i = lemma_variant_index(forms, f, v);
    lemma_tidied_keeps(all_variants(forms), i);
}

proof fn lemma_variant_index(forms: Seq<Seq<char>>, f: int, v: int) -> (i: int)
    requires
        0 <= f < forms.len(),
        0 <= v < 3,
    ensures
        0 <= i < all_variants(forms).len(),
        all_variants(forms)[i] == separator_variants(forms[f])[v],
    decreases forms.len(),
{
    let part = all_variants(forms.drop_last());
    if f == forms.len() - 1 {
        assert(separator_variants(forms.last()).len() >= 3);
        part.len() + v
    } else {
        lemma_variant_index(forms.drop_last(), f, v)
    }
}

/// No spelling of a root is left in what a registry client sees of git's
/// words, wherever it would end a path component. Left out are spellings in
/// which a name ends with a dot, which the replacement can complete, and
/// those that overlap themselves inside a name, of which the second of two
/// overlapping occurrences is passed over.
pub proof fn law_no_root_is_disclosed(
    raw: Seq<char>,
    roots: Seq<Seq<char>>,
    r: int,
    spelling: Seq<char>,
)
    requires
        0 <= r < roots.len(),
        roots[r].len() > 0,
        roots[r] != "/"@,
        display_variants(roots[r]).contains(spelling),
        spelling.len() > 0,
        no_dotted_end(spelling),
        overlaps_at_ends(spelling),
    ensures
        !discloses(redacted_all(raw, needles_for(roots), "."@), spelling),
{
    reveal_strlit(".");
    assert("."@ =~= seq!['.']);
    lemma_needles_keep(roots, r, spelling);
    let needles = needles_for(roots);
    let k = choose|k: int| 0 <= k < needles.len() && needles[k] == spelling;
    lemma_needle_is_hidden(raw, needles, k);
}

/// A text that no spelling of a root occurs in is shown as it is.
pub proof fn law_redaction_leaves_the_rest(s: Seq<char>, needles: Seq<Seq<char>>, replacement: Seq<char>)
    requires
        forall|k: int| 0 <= k < needles.len() ==> !discloses(s, #[trigger] needles[k]),
    ensures
        redacted_all(s, needles, replacement) == s,
    decreases needles.len(),
{
    if needles.len() > 0 {
        law_redaction_leaves_the_rest(s, needles.drop_last(), replacement);
        lemma_unchanged(s, needles.last(), replacement, 0);
        assert(s.skip(0) =~= s);
    }
}

proof fn lemma_unchanged(s: Seq<char>, root: Seq<char>, replacement: Seq<char>, i: int)
    requires
        0 <= i <= s.len(),
        !discloses(s, root),
    ensures
        redacted_from(s, root, replacement, i) == s.skip(i),
    decreases s.len() - i,
{
    if i < s.len() {
        if root.len() > 0 && text::occurs_at(s, root, i) {
            lemma_unchanged(s, root, replacement, i + root.len());
            assert(s.skip(i) =~= s.subrange(i, i + root.len()) + s.skip(i + root.len()));
        } else {
            lemma_unchanged(s, root, replacement, i + 1);
            assert(s.skip(i) =~= seq![s[i]] + s.skip(i + 1));
        }
    } else {
        assert(s.skip(i) =~= Seq::<char>::empty());
    }
}

// ---------------------------------------------------------------------------
// Invocations
// ---------------------------------------------------------------------------

/// Texts as a list.
pub(crate) fn list2(a: &str, b: &str) -> (texts: Vec<String>)
    ensures
        text::text_views(texts@) == seq![a@, b@],
{
    let mut texts: Vec<String> = Vec::new();
    text::push_text(&mut texts, a);
    text::push_text(&mut texts, b);
    assert(text::text_views(texts@) =~= seq![a@, b@]);
    texts
}

/// Configuration overrides in front of every invocation, so that neither a
/// repository nor a user can turn these execution paths on again, and paths
/// come relative to the workspace.
pub open spec fn hardened_config_view() -> Seq<Seq<char>> {
    seq![
        "-c"@,
        "core.fsmonitor=false"@,
        "-c"@,
        "core.pager=cat"@,
        "-c"@,
        "pager.diff=false"@,
        "-c"@,
        "pager.status=false"@,
        "-c"@,
        "status.relativePaths=true"@,
    ]
}

/// Configuration overrides in front of every invocation.
pub fn hardened_config() -> (args: Vec<String>)
    ensures
        text::text_views(args@) == hardened_config_view(),
{
    let mut args: Vec<String> = list2("-c", "core.fsmonitor=false");
    text::push_text(&mut args, "-c");
    text::push_text(&mut args, "core.pager=cat");
    text::push_text(&mut args, "-c");
    text::push_text(&mut args, "pager.diff=false");
    text::push_text(&mut args, "-c");
    text::push_text(&mut args, "pager.status=false");
    text::push_text(&mut args, "-c");
    text::push_text(&mut args, "status.relativePaths=true");
    assert(text::text_views(args@) =~= hardened_config_view());
    args
}

/// Environment variables taken away from every invocation: those that could
/// lead git into another repository or to an outside program.
pub open spec fn stripped_env_view() -> Seq<Seq<char>> {
    seq![
        "GIT_DIR"@,
        "GIT_WORK_TREE"@,
        "GIT_INDEX_FILE"@,
        "GIT_OBJECT_DIRECTORY"@,
        "GIT_ALTERNATE_OBJECT_DIRECTORIES"@,
        "GIT_EXTERNAL_DIFF"@,
        "GIT_PAGER"@,
        "GIT_EDITOR"@,
        "GIT_SEQUENCE_EDITOR"@,
        "GIT_PAGER_IN_USE"@,
    ]
}

/// Environment variables taken away from every invocation.
pub fn stripped_git_env() -> (names: Vec<String>)
    ensures
        text::text_views(names@) == stripped_env_view(),
{
    let mut names: Vec<String> = list2("GIT_DIR", "GIT_WORK_TREE");
    text::push_text(&mut names, "GIT_INDEX_FILE");
    text::push_text(&mut names, "GIT_OBJECT_DIRECTORY");
    text::push_text(&mut names, "GIT_ALTERNATE_OBJECT_DIRECTORIES");
    text::push_text(&mut names, "GIT_EXTERNAL_DIFF");
    text::push_text(&mut names, "GIT_PAGER");
    text::push_text(&mut names, "GIT_EDITOR");
    text::push_text(&mut names, "GIT_SEQUENCE_EDITOR");
    text::push_text(&mut names, "GIT_PAGER_IN_USE");
    assert(text::text_views(names@) =~= stripped_env_view());
    names
}

/// Environment variables set for every invocation, name and value in turn.
pub open spec fn pinned_env_view() -> Seq<Seq<char>> {
    seq!["GIT_OPTIONAL_LOCKS"@, "1"@, "GIT_TERMINAL_PROMPT"@, "0"@, "PAGER"@, "cat"@]
}

/// Environment variables set for every invocation, name and value in turn.
pub fn pinned_git_env() -> (pairs: Vec<String>)
    ensures
        text::text_views(pairs@) == pinned_env_view(),
{
    let mut pairs: Vec<String> = list2("GIT_OPTIONAL_LOCKS", "1");
    text::push_text(&mut pairs, "GIT_TERMINAL_PROMPT");
    text::push_text(&mut pairs, "0");
    text::push_text(&mut pairs, "PAGER");
    text::push_text(&mut pairs, "cat");
    assert(text::text_views(pairs@) =~= pinned_env_view());
    pairs
}

/// One hardened invocation in a workspace root: the arguments behind the
/// configuration overrides, and the cap on each output stream. Only the exit
/// code zero is a success.
#[derive(Debug)]
pub struct GitInvocation {
    /// Where it runs.
    pub root: FullPath,
    /// The subcommand and its arguments.
    pub args: Vec<String>,
    /// The cap on each output stream, in bytes.
    pub cap: usize,
}

/// What an invocation gave.
#[derive(Debug)]
pub struct GitOutput {
    /// The standard output as text.
    pub stdout: String,
    /// Whether the cap was reached.
    pub stdout_truncated: bool,
}

/// The arguments of the work tree check.
pub open spec fn worktree_args() -> Seq<Seq<char>> {
    seq!["rev-parse"@, "--is-inside-work-tree"@]
}

/// The arguments of the search for the enclosing repository.
pub open spec fn toplevel_args() -> Seq<Seq<char>> {
    seq!["--no-pager"@, "rev-parse"@, "--show-toplevel"@]
}

/// The arguments of `git_status`: the pathspec keeps it inside the workspace
/// wherever the enclosing repository extends.
pub open spec fn status_args() -> Seq<Seq<char>> {
    seq!["--no-pager"@, "status"@, "--short"@, "--branch"@, "--"@, "."@]
}

/// The arguments of `git_diff`: no outside program runs, paths come relative
/// to the workspace, and the pathspec keeps it inside.
pub open spec fn diff_args(staged: bool, path: Option<Seq<char>>) -> Seq<Seq<char>> {
    let options = seq![
        "--no-pager"@,
        "diff"@,
        "--no-color"@,
        "--no-ext-diff"@,
        "--no-textconv"@,
        "--relative"@,
    ];
    let chosen = if staged {
        options.push("--cached"@)
    } else {
        options
    };
    chosen.push("--"@).push(
        match path {
            Some(rel) => rel,
            None => "."@,
        },
    )
}

pub(crate) fn worktree_invocation(root: &FullPath) -> (invocation: GitInvocation)
    ensures
        invocation.root@ == root@,
        text::text_views(invocation.args@) == worktree_args(),
        invocation.cap == 1024,
{
    GitInvocation {
        root: root.duplicate(),
        args: list2("rev-parse", "--is-inside-work-tree"),
        cap: 1024,
    }
}

fn toplevel_invocation(root: &FullPath) -> (invocation: GitInvocation)
    ensures
        invocation.root@ == root@,
        text::text_views(invocation.args@) == toplevel_args(),
        invocation.cap == 4096,
{
    let mut args: Vec<String> = list2("--no-pager", "rev-parse");
    text::push_text(&mut args, "--show-toplevel");
    assert(text::text_views(args@) =~= toplevel_args());
    GitInvocation { root: root.duplicate(), args, cap: 4096 }
}

fn status_invocation(root: &FullPath, limits: &Limits) -> (invocation: GitInvocation)
    ensures
        invocation.root@ == root@,
        text::text_views(invocation.args@) == status_args(),
        invocation.cap == limits.max_git_output,
{
    let mut args: Vec<String> = list2("--no-pager", "status");
    text::push_text(&mut args, "--short");
    text::push_text(&mut args, "--branch");
    text::push_text(&mut args, "--");
    text::push_text(&mut args, ".");
    assert(text::text_views(args@) =~= status_args());
    GitInvocation { root: root.duplicate(), args, cap: limits.max_git_output }
}

fn diff_invocation(
    root: &FullPath,
    limits: &Limits,
    staged: bool,
    path: &Option<String>,
) -> (invocation: GitInvocation)
    ensures
        invocation.root@ == root@,
        text::text_views(invocation.args@) == diff_args(
            staged,
            match path {
                Some(rel) => Some(rel@),
                None => None,
            },
        ),
        invocation.cap == limits.max_git_output,
{
    let mut args: Vec<String> = list2("--no-pager", "diff");
    text::push_text(&mut args, "--no-color");
    text::push_text(&mut args, "--no-ext-diff");
    text::push_text(&mut args, "--no-textconv");
    text::push_text(&mut args, "--relative");
    if staged {
        text::push_text(&mut args, "--cached");
    }
    text::push_text(&mut args, "--");
    match path {
        Some(rel) => {
            text::push_text(&mut args, rel.as_str());
        },
        None => {
            text::push_text(&mut args, ".");
        },
    }
    assert(text::text_views(args@) =~= diff_args(
        staged,
        match path {
            Some(rel) => Some(rel@),
            None => None,
        },
    ));
    GitInvocation { root: root.duplicate(), args, cap: limits.max_git_output }
}

/// What is made of an invocation that ended: its output, or git's own words
/// where it failed.
pub fn git_outcome(exit_code: i32, stdout: &[u8], stderr: &[u8], cap: usize) -> (result: ToolResult<
    GitOutput,
>)
    ensures
        match result {
            Ok(out) => exit_code == 0 && out.stdout@ == text::decoded_text(stdout@)
                && out.stdout_truncated == (stdout@.len() >= cap),
            Err(e) => exit_code != 0 && e.0@ == "git exited with code "@ + text::signed_decimal(
                exit_code as int,
            ) + ": "@ + text::trimmed(text::decoded_text(stderr@)),
        },
{
    if exit_code != 0 {
        let reason: String = text::decode_lossy(stderr).0;
        return Err(
            ToolError(
                String::from_str("git exited with code ").concat(
                    text::signed_decimal_of(exit_code).as_str(),
                ).concat(": ").concat(text::trim_text(reason.as_str()).as_str()),
            ),
        );
    }
    Ok(
        GitOutput {
            stdout: text::decode_lossy(stdout).0,
            stdout_truncated: stdout.len() >= cap,
        },
    )
}

// ---------------------------------------------------------------------------
// The tools
// ---------------------------------------------------------------------------

/// Whether `result` is what `run` may give for an invocation in this root
/// with these arguments and this cap.
pub open spec fn ran<R: Fn(&GitInvocation) -> ToolResult<GitOutput>>(
    run: R,
    root: PathView,
    args: Seq<Seq<char>>,
    cap: usize,
    result: ToolResult<GitOutput>,
) -> bool {
    exists|invocation: &GitInvocation|
        invocation.root@ == root && text::text_views(invocation.args@) == args && invocation.cap == cap
            && #[trigger] call_ensures(run, (invocation,), result)
}

/// Whether the work tree check says that the workspace is in one.
pub open spec fn is_worktree(check: ToolResult<GitOutput>) -> bool {
    check matches Ok(out) && text::trimmed(out.stdout@) == "true"@
}

/// The refusal where the workspace is not in a work tree.
pub open spec fn no_worktree_text(ctx: WorkspaceContext, presentation: PathPresentation) -> Seq<
    char,
> {
    "'"@ + ctx.resolver_view().presented_view(ctx.resolver_view().root_view(), presentation)
        + "' does not appear to be inside a Git working tree."@
}

/// Succeeds exactly where the work tree check says that the workspace is in
/// one.
pub fn ensure_git(
    ctx: &WorkspaceContext,
    presentation: PathPresentation,
    check: &ToolResult<GitOutput>,
) -> (result: ToolResult<()>)
    ensures
        match result {
            Ok(_) => is_worktree(*check),
            Err(e) => !is_worktree(*check) && e.0@ == no_worktree_text(*ctx, presentation),
        },
{
    if let Ok(out) = check {
        if text::same_text(text::trim_text(out.stdout.as_str()).as_str(), "true") {
            return Ok(());
        }
    }
    let shown: String = ctx.resolver().display_relative_as(ctx.root(), presentation);
    Err(
        ToolError(
            String::from_str("'").concat(shown.as_str()).concat(
                "' does not appear to be inside a Git working tree.",
            ),
        ),
    )
}

/// The enclosing repository that the search for it reports, if any.
pub open spec fn toplevel_of(search: ToolResult<GitOutput>) -> Seq<char> {
    match search {
        Ok(out) => text::without_trailing(text::trimmed(out.stdout@), '/'),
        Err(_) => Seq::empty(),
    }
}

/// Whether a reported repository is worth redacting.
pub open spec fn tells(toplevel: Seq<char>) -> bool {
    toplevel.len() > 0 && toplevel != "/"@
}

/// The roots to redact: that of the workspace, that of the enclosing
/// repository as git spells it, and its canonical spelling where it differs.
pub open spec fn roots_to_redact(
    root: Seq<char>,
    toplevel: Seq<char>,
    canonical: Option<Seq<char>>,
) -> Seq<Seq<char>> {
    if !tells(toplevel) {
        seq![root]
    } else {
        match canonical {
            Some(c) => if c != toplevel {
                seq![root, toplevel, c]
            } else {
                seq![root, toplevel]
            },
            None => seq![root, toplevel],
        }
    }
}

/// Git's words as a registry client sees them: no root is disclosed.
pub open spec fn presented(
    raw: Seq<char>,
    root: Seq<char>,
    toplevel: Seq<char>,
    canonical: Option<Seq<char>>,
) -> Seq<char> {
    redacted_all(raw, needles_for(roots_to_redact(root, toplevel, canonical)), "."@)
}

/// An optional text.
pub open spec fn optional_view(s: Option<String>) -> Option<Seq<char>> {
    match s {
        Some(s) => Some(s@),
        None => None,
    }
}

/// Rewrites git's words for a registry client, given the root of the
/// workspace and of the enclosing repository.
pub fn presented_git_error(raw: &str, root: &str, toplevel: &str, canonical: &Option<String>) -> (
    error: ToolError)
    ensures
        error.0@ == presented(raw@, root@, toplevel@, optional_view(*canonical)),
{
    let mut roots: Vec<String> = Vec::new();
    assert(text::text_views(roots@) =~= Seq::<Seq<char>>::empty());
    text::push_text(&mut roots, root);
    if !toplevel.is_empty() && !text::same_text(toplevel, "/") {
        text::push_text(&mut roots, toplevel);
        if let Some(c) = canonical {
            if !text::same_text(c.as_str(), toplevel) {
                text::push_text(&mut roots, c.as_str());
            }
        }
    }
    assert(text::text_views(roots@) =~= roots_to_redact(
        root@,
        toplevel@,
        optional_view(*canonical),
    ));
    ToolError(redact_display_variants(raw, &roots, "."))
}

/// Whether `canonical` is what `canonicalize` may say of a path text.
pub open spec fn canonicalised<C: Fn(&str) -> Option<String>>(
    canonicalize: C,
    path: Seq<char>,
    canonical: Option<String>,
) -> bool {
    exists|given: &str| given@ == path && #[trigger] call_ensures(canonicalize, (given,), canonical)
}

/// Whether `shown` is how a failure of git is shown. A single workspace sees
/// git's words as they are; a registry client sees them without roots, for
/// which the enclosing repository is searched.
pub open spec fn shown_failure<
    R: Fn(&GitInvocation) -> ToolResult<GitOutput>,
    C: Fn(&str) -> Option<String>,
>(
    run: R,
    canonicalize: C,
    ctx: WorkspaceContext,
    presentation: PathPresentation,
    raw: Seq<char>,
    shown: Seq<char>,
) -> bool {
    let resolver = ctx.resolver_view();
    let root = text::decoded_text(
        workspace::path_bytes(resolver.root_view(), resolver.separator_view()),
    );
    match presentation {
        PathPresentation::SingleCompatible => shown == raw,
        PathPresentation::RegistryRelative => exists|
            search: ToolResult<GitOutput>,
            canonical: Option<String>,
        |
            #[trigger] shown_failure_given(run, canonicalize, resolver.root_view(), search, canonical) && shown
                == presented(raw, root, toplevel_of(search), optional_view(canonical)),
    }
}

/// Whether the enclosing repository was searched with this result, and its
/// canonical spelling asked for where it is worth redacting.
pub open spec fn shown_failure_given<
    R: Fn(&GitInvocation) -> ToolResult<GitOutput>,
    C: Fn(&str) -> Option<String>,
>(
    run: R,
    canonicalize: C,
    root: PathView,
    search: ToolResult<GitOutput>,
    canonical: Option<String>,
) -> bool {
    &&& ran(run, root, toplevel_args(), 4096, search)
    &&& tells(toplevel_of(search)) ==> canonicalised(canonicalize, toplevel_of(search), canonical)
}

fn show_failure<R: Fn(&GitInvocation) -> ToolResult<GitOutput>, C: Fn(&str) -> Option<String>>(
    run: &R,
    canonicalize: &C,
    ctx: &WorkspaceContext,
    presentation: PathPresentation,
    failure: ToolError,
) -> (error: ToolError)
    requires
        forall|invocation: &GitInvocation| call_requires(run, (invocation,)),
        forall|path: &str| call_requires(canonicalize, (path,)),
    ensures
        shown_failure(*run, *canonicalize, *ctx, presentation, failure.0@, error.0@),
{
    match presentation {
        PathPresentation::SingleCompatible => failure,
        PathPresentation::RegistryRelative => {
            let invocation: GitInvocation = toplevel_invocation(ctx.root());
            let search: ToolResult<GitOutput> = run(&invocation);
            assert(call_ensures(*run, (&invocation,), search));
            assert(ran(*run, ctx.resolver_view().root_view(), toplevel_args(), 4096, search));
            let toplevel: String = match &search {
                Ok(out) => text::string_of(
                    text::trim_trailing(
                        text::chars_of(text::trim_text(out.stdout.as_str()).as_str()).as_slice(),
                        '/',
                    ),
                ),
                Err(_) => String::new(),
            };
            assert(toplevel@ == toplevel_of(search));
            let mut canonical: Option<String> = None;
            if !toplevel.as_str().is_empty() && !text::same_text(toplevel.as_str(), "/") {
                canonical = canonicalize(toplevel.as_str());
                assert(canonicalised(*canonicalize, toplevel@, canonical));
            }
            assert(shown_failure_given(
                *run,
                *canonicalize,
                ctx.resolver_view().root_view(),
                search,
                canonical,
            ));
            let root: String = ctx.resolver().full_text(ctx.root());
            presented_git_error(failure.0.as_str(), root.as_str(), toplevel.as_str(), &canonical)
        },
    }
}

/// Arguments of `git_status`: none.
#[derive(Debug)]
pub struct GitStatusArgs {}

/// Arguments of `git_status` in registry mode.
#[derive(Debug)]
pub struct RegistryGitStatusArgs {
    /// The logical id of the workspace to look at.
    pub workspace: WorkspaceId,
    /// Nothing more.
    pub args: GitStatusArgs,
}

/// What `git_status` returns.
#[derive(Debug)]
pub struct GitStatus {
    /// Git's output.
    pub output: String,
    /// Whether it was cut off.
    pub truncated: bool,
}

/// Whether `result` is what `git_status` may tell of a workspace. Nothing but
/// the work tree check runs where that fails.
pub open spec fn status_told<
    R: Fn(&GitInvocation) -> ToolResult<GitOutput>,
    C: Fn(&str) -> Option<String>,
>(
    run: R,
    canonicalize: C,
    ctx: WorkspaceContext,
    limits: Limits,
    presentation: PathPresentation,
    result: ToolResult<GitStatus>,
) -> bool {
    let root = ctx.resolver_view().root_view();
    exists|check: ToolResult<GitOutput>| #[trigger]
        ran(run, root, worktree_args(), 1024, check) && if !is_worktree(check) {
            result matches Err(e) && e.0@ == no_worktree_text(ctx, presentation)
        } else {
            exists|out: ToolResult<GitOutput>| #[trigger]
                ran(run, root, status_args(), limits.max_git_output, out) && match (out, result) {
                    (Ok(found), Ok(status)) => status.output@ == found.stdout@ && status.truncated
                        == found.stdout_truncated,
                    (Err(failure), Err(e)) => shown_failure(
                        run,
                        canonicalize,
                        ctx,
                        presentation,
                        failure.0@,
                        e.0@,
                    ),
                    _ => false,
                }
        }
}

/// Runs `git_status` in a workspace. `run` carries out an invocation,
/// and `canonicalize` tells the canonical spelling of a path.
///
/// Nothing but the work tree check runs where that fails.
pub fn git_status_for_context<
    R: Fn(&GitInvocation) -> ToolResult<GitOutput>,
    C: Fn(&str) -> Option<String>,
>(
    ctx: &WorkspaceContext,
    limits: &Limits,
    presentation: PathPresentation,
    run: &R,
    canonicalize: &C,
) -> (result: ToolResult<GitStatus>)
    requires
        forall|invocation: &GitInvocation| call_requires(run, (invocation,)),
        forall|path: &str| call_requires(canonicalize, (path,)),
    ensures
        status_told(*run, *canonicalize, *ctx, *limits, presentation, result),
{
    let checking: GitInvocation = worktree_invocation(ctx.root());
    let check: ToolResult<GitOutput> = run(&checking);
    proof {
        assert(call_ensures(*run, (&checking,), check));
        assert(ran(*run, ctx.resolver_view().root_view(), worktree_args(), 1024, check));
    }
    if let Err(e) = ensure_git(ctx, presentation, &check) {
        return Err(e);
    }
    let invocation: GitInvocation = status_invocation(ctx.root(), limits);
    let out: ToolResult<GitOutput> = run(&invocation);
    proof {
        assert(call_ensures(*run, (&invocation,), out));
        assert(ran(*run, ctx.resolver_view().root_view(), status_args(), limits.max_git_output, out));
    }
    match out {
        Ok(found) => Ok(GitStatus { output: found.stdout, truncated: found.stdout_truncated }),
        Err(failure) => Err(show_failure(run, canonicalize, ctx, presentation, failure)),
    }
}

/// What `git_diff` returns.
#[derive(Debug)]
pub struct GitDiff {
    /// Whether staged changes are shown.
    pub staged: bool,
    /// The path that the diff is restricted to, as it was resolved.
    pub path: Option<String>,
    /// Git's output.
    pub diff: String,
    /// Whether it was cut off.
    pub truncated: bool,
}

/// Arguments of `git_diff`.
#[derive(Debug)]
pub struct GitDiffArgs {
    /// Show staged changes instead of unstaged ones.
    pub staged: bool,
    /// Restrict the diff to one path relative to the workspace root.
    pub path: Option<String>,
}

/// Arguments of `git_diff` in registry mode.
#[derive(Debug)]
pub struct RegistryGitDiffArgs {
    /// The logical id of the workspace to look at.
    pub workspace: WorkspaceId,
    /// What to show.
    pub args: GitDiffArgs,
}

/// Whether `outcome` is what comes of the path of a diff request: nothing
/// where there is none, the path as shown where it resolves inside the
/// workspace, and the reason otherwise.
pub open spec fn diff_path<L: Fn(&FullPath) -> Located>(
    ctx: WorkspaceContext,
    presentation: PathPresentation,
    path: Option<String>,
    locate: L,
    outcome: Result<Option<Seq<char>>, Seq<char>>,
) -> bool {
    match path {
        None => outcome == Ok::<Option<Seq<char>>, Seq<char>>(None),
        Some(p) => exists|given: &str, found: ToolResult<FullPath>|
            given@ == p@ && #[trigger] ctx.resolver_view().resolves_by(Some(given), locate, found)
                && match found {
                Ok(resolved) => outcome == Ok::<Option<Seq<char>>, Seq<char>>(
                    Some(ctx.resolver_view().presented_view(resolved@, presentation)),
                ),
                Err(e) => outcome == Err::<Option<Seq<char>>, Seq<char>>(
                    "Invalid diff path '"@ + p@ + "': "@ + e.0@,
                ),
            },
    }
}

fn resolve_diff_path<L: Fn(&FullPath) -> Located>(
    ctx: &WorkspaceContext,
    presentation: PathPresentation,
    path: &Option<String>,
    locate: &L,
) -> (result: ToolResult<Option<String>>)
    requires
        forall|at: &FullPath| call_requires(locate, (at,)),
    ensures
        diff_path(*ctx, presentation, *path, *locate, diff_path_view(result)),
{
    match path {
        None => Ok(None),
        Some(p) => {
            let found: ToolResult<FullPath> = ctx.resolver().resolve(Some(p.as_str()), locate);
            match found {
                Ok(resolved) => {
                    let shown: String = ctx.resolver().display_relative_as(
                        &resolved,
                        presentation,
                    );
                    Ok(Some(shown))
                },
                Err(e) => Err(
                    ToolError(
                        String::from_str("Invalid diff path '").concat(p.as_str()).concat(
                            "': ",
                        ).concat(e.0.as_str()),
                    ),
                ),
            }
        },
    }
}

/// What came of the path of a diff request.
pub open spec fn diff_path_view(result: ToolResult<Option<String>>) -> Result<
    Option<Seq<char>>,
    Seq<char>,
> {
    match result {
        Ok(shown) => Ok(optional_view(shown)),
        Err(e) => Err(e.0@),
    }
}

/// Whether `result` is what `git_diff` may tell of a workspace. The pathspec
/// comes from a resolved path, never from the request.
pub open spec fn diff_told<
    R: Fn(&GitInvocation) -> ToolResult<GitOutput>,
    C: Fn(&str) -> Option<String>,
    L: Fn(&FullPath) -> Located,
>(
    run: R,
    canonicalize: C,
    locate: L,
    ctx: WorkspaceContext,
    limits: Limits,
    presentation: PathPresentation,
    args: GitDiffArgs,
    result: ToolResult<GitDiff>,
) -> bool {
    let root = ctx.resolver_view().root_view();
    exists|check: ToolResult<GitOutput>| #[trigger]
        ran(run, root, worktree_args(), 1024, check) && if !is_worktree(check) {
            result matches Err(e) && e.0@ == no_worktree_text(ctx, presentation)
        } else {
            exists|outcome: Result<Option<Seq<char>>, Seq<char>>| #[trigger]
                diff_path(ctx, presentation, args.path, locate, outcome) && match outcome {
                    Err(reason) => result matches Err(e) && e.0@ == reason,
                    Ok(shown) => exists|out: ToolResult<GitOutput>| #[trigger]
                        ran(
                            run,
                            root,
                            diff_args(args.staged, shown),
                            limits.max_git_output,
                            out,
                        ) && match (out, result) {
                            (Ok(found), Ok(diff)) => diff.staged == args.staged && optional_view(
                                diff.path,
                            ) == shown && diff.diff@ == found.stdout@ && diff.truncated
                                == found.stdout_truncated,
                            (Err(failure), Err(e)) => shown_failure(
                                run,
                                canonicalize,
                                ctx,
                                presentation,
                                failure.0@,
                                e.0@,
                            ),
                            _ => false,
                        },
                }
        }
}

/// Runs `git_diff` in a workspace. The pathspec comes from a resolved path,
/// never from the request, so it cannot reach outside the workspace; a
/// request whose path does not resolve starts nothing but the work tree
/// check.
pub fn git_diff_for_context<
    R: Fn(&GitInvocation) -> ToolResult<GitOutput>,
    C: Fn(&str) -> Option<String>,
    L: Fn(&FullPath) -> Located,
>(
    ctx: &WorkspaceContext,
    limits: &Limits,
    presentation: PathPresentation,
    args: &GitDiffArgs,
    run: &R,
    canonicalize: &C,
    locate: &L,
) -> (result: ToolResult<GitDiff>)
    requires
        forall|invocation: &GitInvocation| call_requires(run, (invocation,)),
        forall|path: &str| call_requires(canonicalize, (path,)),
        forall|at: &FullPath| call_requires(locate, (at,)),
    ensures
        diff_told(*run, *canonicalize, *locate, *ctx, *limits, presentation, *args, result),
{
    let checking: GitInvocation = worktree_invocation(ctx.root());
    let check: ToolResult<GitOutput> = run(&checking);
    proof {
        assert(call_ensures(*run, (&checking,), check));
        assert(ran(*run, ctx.resolver_view().root_view(), worktree_args(), 1024, check));
    }
    if let Err(e) = ensure_git(ctx, presentation, &check) {
        return Err(e);
    }
    let found_path: ToolResult<Option<String>> = resolve_diff_path(
        ctx,
        presentation,
        &args.path,
        locate,
    );
    let ghost outcome = diff_path_view(found_path);
    assert(diff_path(*ctx, presentation, args.path, *locate, outcome));
    let path: Option<String> = match found_path {
        Ok(path) => path,
        Err(e) => {
            return Err(e);
        },
    };
    let invocation: GitInvocation = diff_invocation(ctx.root(), limits, args.staged, &path);
    let out: ToolResult<GitOutput> = run(&invocation);
    proof {
        assert(call_ensures(*run, (&invocation,), out));
        assert(ran(
            *run,
            ctx.resolver_view().root_view(),
            diff_args(args.staged, optional_view(path)),
            limits.max_git_output,
            out,
        ));
    }
    match out {
        Ok(found) => Ok(
            GitDiff {
                staged: args.staged,
                path,
                diff: found.stdout,
                truncated: found.stdout_truncated,
            },
        ),
        Err(failure) => Err(show_failure(run, canonicalize, ctx, presentation, failure)),
    }
}

/// `git_status` in registry mode: the workspace is selected by its exact id,
/// paths are shown relative to it, and the answer carries the id. An unknown
/// id starts nothing.
pub fn registry_git_status<
    R: Fn(&GitInvocation) -> ToolResult<GitOutput>,
    C: Fn(&str) -> Option<String>,
>(
    registry: &WorkspaceRegistry,
    limits: &Limits,
    args: &RegistryGitStatusArgs,
    run: &R,
    canonicalize: &C,
) -> (answer: ToolResult<Selected<GitStatus>>)
    requires
        forall|invocation: &GitInvocation| call_requires(run, (invocation,)),
        forall|path: &str| call_requires(canonicalize, (path,)),
    ensures
        if discovery::is_unknown(*registry, args.workspace@) {
            answer matches Err(e) && e.0@ == discovery::unknown_text(args.workspace@)
        } else {
            exists|ctx: WorkspaceContext, told: ToolResult<GitStatus>|
                discovery::selects(*registry, args.workspace@, ctx) && #[trigger] status_told(
                    *run,
                    *canonicalize,
                    ctx,
                    *limits,
                    PathPresentation::RegistryRelative,
                    told,
                ) && discovery::with_provenance(answer, told, args.workspace@)
        },
{
    let ctx: Arc<WorkspaceContext> = match discovery::resolve_registry_workspace(
        registry,
        &args.workspace,
    ) {
        Ok(ctx) => ctx,
        Err(e) => {
            return Err(e);
        },
    };
    let told: ToolResult<GitStatus> = git_status_for_context(
        &ctx,
        limits,
        PathPresentation::RegistryRelative,
        run,
        canonicalize,
    );
    proof {
        let i = choose|i: int| 0 <= i < registry.contexts().len() && registry.contexts()[i] == *ctx;
        assert(registry.contexts()[i].id_view() == Some(args.workspace@));
    }
    discovery::with_workspace_provenance(told, &args.workspace)
}

/// `git_diff` in registry mode: the workspace is selected by its exact id,
/// paths are shown relative to it, and the answer carries the id. An unknown
/// id starts nothing.
pub fn registry_git_diff<
    R: Fn(&GitInvocation) -> ToolResult<GitOutput>,
    C: Fn(&str) -> Option<String>,
    L: Fn(&FullPath) -> Located,
>(
    registry: &WorkspaceRegistry,
    limits: &Limits,
    args: &RegistryGitDiffArgs,
    run: &R,
    canonicalize: &C,
    locate: &L,
) -> (answer: ToolResult<Selected<GitDiff>>)
    requires
        forall|invocation: &GitInvocation| call_requires(run, (invocation,)),
        forall|path: &str| call_requires(canonicalize, (path,)),
        forall|at: &FullPath| call_requires(locate, (at,)),
    ensures
        if discovery::is_unknown(*registry, args.workspace@) {
            answer matches Err(e) && e.0@ == discovery::unknown_text(args.workspace@)
        } else {
            exists|ctx: WorkspaceContext, told: ToolResult<GitDiff>|
                discovery::selects(*registry, args.workspace@, ctx) && #[trigger] diff_told(
                    *run,
                    *canonicalize,
                    *locate,
                    ctx,
                    *limits,
                    PathPresentation::RegistryRelative,
                    args.args,
                    told,
                ) && discovery::with_provenance(answer, told, args.workspace@)
        },
{
    let ctx: Arc<WorkspaceContext> = match discovery::resolve_registry_workspace(
        registry,
        &args.workspace,
    ) {
        Ok(ctx) => ctx,
        Err(e) => {
            return Err(e);
        },
    };
    let told: ToolResult<GitDiff> = git_diff_for_context(
        &ctx,
        limits,
        PathPresentation::RegistryRelative,
        &args.args,
        run,
        canonicalize,
        locate,
    );
    proof {
        let i = choose|i: int| 0 <= i < registry.contexts().len() && registry.contexts()[i] == *ctx;
        assert(registry.contexts()[i].id_view() == Some(args.workspace@));
    }
    discovery::with_workspace_provenance(told, &args.workspace)
}

// ---------------------------------------------------------------------------
// Laws of the invocations
// ---------------------------------------------------------------------------

/// A diff is restricted to its path, or to the workspace where there is none;
/// nothing but a request for staged changes makes it show those; and no
/// outside program runs for it.
pub proof fn law_diff_is_restricted(staged: bool, path: Option<Seq<char>>)
    ensures
        ({
            let args = diff_args(staged, path);
            let options = args.drop_last().drop_last();
            &&& args.len() >= 2
            &&& args.last() == match path {
                Some(rel) => rel,
                None => "."@,
            }
            &&& args.drop_last().last() == "--"@
            &&& options.contains("diff"@)
            &&& options.contains("--no-pager"@)
            &&& options.contains("--no-color"@)
            &&& options.contains("--no-ext-diff"@)
            &&& options.contains("--no-textconv"@)
            &&& options.contains("--relative"@)
            &&& options.contains("--cached"@) <==> staged
            &&& forall|k: int| 0 <= k < options.len() && #[trigger] options[k] != "diff"@
                ==> options[k].len() > 2 && options[k][0] == '-' && options[k][1] == '-'
        }),
{
    let args = diff_args(staged, path);
    let options = args.drop_last().drop_last();
    reveal_strlit("--no-pager");
    reveal_strlit("diff");
    reveal_strlit("--no-color");
    reveal_strlit("--no-ext-diff");
    reveal_strlit("--no-textconv");
    reveal_strlit("--relative");
    reveal_strlit("--cached");
    assert(options[0] == "--no-pager"@);
    assert(options[1] == "diff"@);
    assert(options[2] == "--no-color"@);
    assert(options[3] == "--no-ext-diff"@);
    assert(options[4] == "--no-textconv"@);
    assert(options[5] == "--relative"@);
    assert("--cached"@.len() == 8);
    assert("--relative"@.len() == 10);
    if staged {
        assert(options[6] == "--cached"@);
    }
}

/// A status is restricted to the workspace and tells the branch.
pub proof fn law_status_is_restricted()
    ensures
        ({
            let args = status_args();
            let options = args.drop_last().drop_last();
            &&& args.len() >= 2
            &&& args.last() == "."@
            &&& args.drop_last().last() == "--"@
            &&& options.contains("status"@)
            &&& options.contains("--no-pager"@)
            &&& options.contains("--short"@)
            &&& options.contains("--branch"@)
        }),
{
    let options = status_args().drop_last().drop_last();
    assert(options[0] == "--no-pager"@);
    assert(options[1] == "status"@);
    assert(options[2] == "--short"@);
    assert(options[3] == "--branch"@);
}

/// Where a root is the first that occurs from some position on and a name
/// ends with it, exactly it is replaced; where the name goes on, it stays.
/// What stands before it is kept, and what follows is looked at in turn.
pub proof fn law_roots_are_replaced_where_a_name_ends(
    s: Seq<char>,
    root: Seq<char>,
    replacement: Seq<char>,
    i: int,
    p: int,
)
    requires
        0 <= i <= p,
        root.len() > 0,
        text::occurs_at(s, root, p),
        forall|k: int| i <= k < p ==> !#[trigger] text::occurs_at(s, root, k),
    ensures
        ({
            let next = p + root.len();
            let ends = next == s.len() || s[next] == '/' || s[next] == '\\' || s[next] == '\''
                || s[next] == '"' || s[next] == ' ' || s[next] == '\t' || s[next] == ':' || s[next]
                == '\n' || s[next] == '\r';
            redacted_from(s, root, replacement, i) == s.subrange(i, p) + (if ends {
                replacement
            } else {
                root
            }) + redacted_from(s, root, replacement, next)
        }),
    decreases p - i,
{
    let next = p + root.len();
    if i < p {
        law_roots_are_replaced_where_a_name_ends(s, root, replacement, i + 1, p);
        assert(s.subrange(i, p) =~= seq![s[i]] + s.subrange(i + 1, p));
        assert(redacted_from(s, root, replacement, i) =~= s.subrange(i, p) + (if component_ends(
            s,
            next,
        ) {
            replacement
        } else {
            root
        }) + redacted_from(s, root, replacement, next));
    } else {
        assert(s.subrange(p, p) =~= Seq::<char>::empty());
        assert(redacted_from(s, root, replacement, p) =~= s.subrange(p, p) + (if component_ends(
            s,
            next,
        ) {
            replacement
        } else {
            root
        }) + redacted_from(s, root, replacement, next));
    }
}

/// The longer of two spellings is replaced first, so that no part of it is.
pub proof fn law_longest_spellings_come_first(roots: Seq<Seq<char>>)
    ensures
        forall|a: int, b: int|
            0 <= a < b < needles_for(roots).len() ==> text::byte_len(
                #[trigger] needles_for(roots)[a],
            ) >= text::byte_len(#[trigger] needles_for(roots)[b]),
    decreases roots.len(),
{
    if roots.len() > 0 {
        law_longest_spellings_come_first(roots.drop_last());
        if roots.last().len() > 0 && roots.last() != "/"@ {
            lemma_ranked_all_descends(
                needles_for(roots.drop_last()),
                display_variants(roots.last()),
            );
        }
    }
}

proof fn lemma_ranked_all_descends(needles: Seq<Seq<char>>, items: Seq<Seq<char>>)
    requires
        forall|a: int, b: int|
            0 <= a < b < needles.len() ==> text::byte_len(#[trigger] needles[a]) >= text::byte_len(
                #[trigger] needles[b],
            ),
    ensures
        forall|a: int, b: int|
            0 <= a < b < ranked_all(needles, items).len() ==> text::byte_len(
                #[trigger] ranked_all(needles, items)[a],
            ) >= text::byte_len(#[trigger] ranked_all(needles, items)[b]),
    decreases items.len(),
{
    if items.len() > 0 {
        lemma_ranked_all_descends(needles, items.drop_last());
        lemma_ranked_descends(ranked_all(needles, items.drop_last()), items.last());
    }
}

proof fn lemma_ranked_descends(needles: Seq<Seq<char>>, item: Seq<char>)
    requires
        forall|a: int, b: int|
            0 <= a < b < needles.len() ==> text::byte_len(#[trigger] needles[a]) >= text::byte_len(
                #[trigger] needles[b],
            ),
    ensures
        forall|a: int, b: int|
            0 <= a < b < ranked(needles, item).len() ==> text::byte_len(
                #[trigger] ranked(needles, item)[a],
            ) >= text::byte_len(#[trigger] ranked(needles, item)[b]),
        forall|a: int|
            0 <= a < ranked(needles, item).len() ==> (#[trigger] ranked(needles, item)[a]) == item
                || needles.contains(ranked(needles, item)[a]),
    decreases needles.len(),
{
    let out = ranked(needles, item);
    if needles.len() > 0 && text::byte_len(needles.last()) < text::byte_len(item) {
        let front = needles.drop_last();
        assert forall|a: int, b: int| 0 <= a < b < front.len() implies text::byte_len(
            #[trigger] front[a],
        ) >= text::byte_len(#[trigger] front[b]) by {
            assert(front[a] == needles[a] && front[b] == needles[b]);
        }
        lemma_ranked_descends(front, item);
        let inner = ranked(front, item);
        assert forall|a: int| 0 <= a < inner.len() implies #[trigger] inner[a] == item
            || needles.contains(inner[a]) by {
            if inner[a] != item {
                let k = choose|k: int| 0 <= k < front.len() && front[k] == inner[a];
                assert(needles[k] == inner[a]);
            }
        }
        assert forall|a: int| 0 <= a < out.len() implies #[trigger] out[a] == item
            || needles.contains(out[a]) by {
            if a < inner.len() {
                assert(out[a] == inner[a]);
            } else {
                assert(out[a] == needles[needles.len() - 1]);
            }
        }
        assert forall|a: int, b: int| 0 <= a < b < out.len() implies text::byte_len(
            #[trigger] out[a],
        ) >= text::byte_len(#[trigger] out[b]) by {
            assert(out[a] == inner[a]);
            if b < inner.len() {
                assert(out[b] == inner[b]);
            } else if inner[a] != item {
                let k = choose|k: int| 0 <= k < needles.len() && needles[k] == inner[a];
                assert(needles[k] == inner[a]);
                assert(out[b] == needles[needles.len() - 1]);
            }
        }
    } else {
        assert forall|a: int, b: int| 0 <= a < b < out.len() implies text::byte_len(
            #[trigger] out[a],
        ) >= text::byte_len(#[trigger] out[b]) by {
            assert(out[a] == needles[a]);
            if b < needles.len() {
                assert(out[b] == needles[b]);
            } else {
                assert(out[b] == item);
                assert(needles[needles.len() - 1] == needles.last());
            }
        }
        assert forall|a: int| 0 <= a < out.len() implies #[trigger] out[a] == item
            || needles.contains(out[a]) by {
            if a < needles.len() {
                assert(out[a] == needles[a]);
            }
        }
    }
}

/// Only spellings of roots are replaced, and never those of a root that
/// discloses nothing.
pub proof fn law_only_roots_are_replaced(roots: Seq<Seq<char>>, k: int)
    requires
        0 <= k < needles_for(roots).len(),
    ensures
        exists|r: int|
            0 <= r < roots.len() && (#[trigger] roots[r]).len() > 0 && roots[r] != "/"@
                && display_variants(roots[r]).contains(needles_for(roots)[k]),
    decreases roots.len(),
{
    let needle = needles_for(roots)[k];
    let front = roots.drop_last();
    if roots.last().len() == 0 || roots.last() == "/"@ {
        law_only_roots_are_replaced(front, k);
        let r = choose|r: int|
            0 <= r < front.len() && (#[trigger] front[r]).len() > 0 && front[r] != "/"@
                && display_variants(front[r]).contains(needle);
        assert(roots[r] == front[r]);
    } else {
        lemma_ranked_all_source(needles_for(front), display_variants(roots.last()), k);
        if needles_for(front).contains(needle) {
            let j = choose|j: int| 0 <= j < needles_for(front).len() && needles_for(front)[j] == needle;
            law_only_roots_are_replaced(front, j);
            let r = choose|r: int|
                0 <= r < front.len() && (#[trigger] front[r]).len() > 0 && front[r] != "/"@
                    && display_variants(front[r]).contains(needle);
            assert(roots[r] == front[r]);
        } else {
            assert(roots[roots.len() - 1] == roots.last());
        }
    }
}

proof fn lemma_ranked_all_source(needles: Seq<Seq<char>>, items: Seq<Seq<char>>, k: int)
    requires
        0 <= k < ranked_all(needles, items).len(),
    ensures
        needles.contains(ranked_all(needles, items)[k]) || items.contains(
            ranked_all(needles, items)[k],
        ),
    decreases items.len(),
{
    if items.len() > 0 {
        let front = items.drop_last();
        let inner = ranked_all(needles, front);
        lemma_ranked_source(inner, items.last(), k);
        let x = ranked_all(needles, items)[k];
        if x == items.last() {
            assert(items[items.len() - 1] == x);
        } else {
            let j = choose|j: int| 0 <= j < inner.len() && inner[j] == x;
            lemma_ranked_all_source(needles, front, j);
            if front.contains(x) {
                let m = choose|m: int| 0 <= m < front.len() && front[m] == x;
                assert(items[m] == x);
            }
        }
    }
}

proof fn lemma_ranked_source(needles: Seq<Seq<char>>, item: Seq<char>, k: int)
    requires
        0 <= k < ranked(needles, item).len(),
    ensures
        ranked(needles, item)[k] == item || needles.contains(ranked(needles, item)[k]),
    decreases needles.len(),
{
    let out = ranked(needles, item);
    if needles.len() > 0 && text::byte_len(needles.last()) < text::byte_len(item) {
        let front = needles.drop_last();
        if k < out.len() - 1 {
            lemma_ranked_source(front, item, k);
            if out[k] != item {
                let j = choose|j: int| 0 <= j < front.len() && front[j] == out[k];
                assert(needles[j] == out[k]);
            }
        } else {
            assert(needles[needles.len() - 1] == out[k]);
        }
    } else if k < needles.len() {
        assert(needles[k] == out[k]);
    }
}

/// The workspace is in a work tree exactly where the check succeeds and says
/// `true`, whatever white space stands around the word.
pub proof fn law_work_tree_check_says_true(check: ToolResult<GitOutput>)
    ensures
        is_worktree(check) <==> match check {
            Ok(out) => text::is_core(out.stdout@, "true"@),
            Err(_) => false,
        },
{
    if let Ok(out) = check {
        text::law_trimming_takes_off_white_space_only(out.stdout@);
        if text::is_core(out.stdout@, "true"@) {
            text::law_core_is_unique(out.stdout@, "true"@);
        }
    }
}

/// The enclosing repository is the path that git prints, without the line end
/// and the separators behind it.
pub proof fn law_enclosing_repository_is_as_printed(out: GitOutput, path: Seq<char>)
    requires
        text::is_core(out.stdout@, path),
    ensures
        ({
            let toplevel = toplevel_of(Ok(out));
            &&& toplevel.len() <= path.len()
            &&& toplevel == path.take(toplevel.len() as int)
            &&& forall|k: int| toplevel.len() <= k < path.len() ==> #[trigger] path[k] == '/'
            &&& toplevel.len() > 0 ==> toplevel.last() != '/'
        }),
{
    text::law_core_is_unique(out.stdout@, path);
    text::law_trailing_characters_are_taken_off(path, '/');
}

/// The root of the workspace is always redacted, and that of the enclosing
/// repository in each spelling that is known.
pub proof fn law_every_known_root_is_redacted(
    root: Seq<char>,
    toplevel: Seq<char>,
    canonical: Option<Seq<char>>,
)
    ensures
        roots_to_redact(root, toplevel, canonical).contains(root),
        toplevel.len() > 0 && toplevel != "/"@ ==> roots_to_redact(root, toplevel, canonical).contains(
            toplevel,
        ) && (canonical matches Some(c) ==> roots_to_redact(root, toplevel, canonical).contains(c)),
        forall|k: int|
            0 <= k < roots_to_redact(root, toplevel, canonical).len() ==> (
            #[trigger] roots_to_redact(root, toplevel, canonical)[k]) == root
                || roots_to_redact(root, toplevel, canonical)[k] == toplevel || canonical == Some(
                roots_to_redact(root, toplevel, canonical)[k],
            ),
{
    let roots = roots_to_redact(root, toplevel, canonical);
    assert(roots[0] == root);
    if tells(toplevel) {
        assert(roots[1] == toplevel);
        if let Some(c) = canonical {
            if c != toplevel {
                assert(roots[2] == c);
            }
        }
    }
}

/// A diff that is told is what one invocation in the root of the workspace
/// printed, staged changes just where they were asked for, restricted to the
/// whole workspace just where no path was given.
pub proof fn law_diff_tells_what_git_printed<
    R: Fn(&GitInvocation) -> ToolResult<GitOutput>,
    C: Fn(&str) -> Option<String>,
    L: Fn(&FullPath) -> Located,
>(
    run: R,
    canonicalize: C,
    locate: L,
    ctx: WorkspaceContext,
    limits: Limits,
    presentation: PathPresentation,
    args: GitDiffArgs,
    diff: GitDiff,
) -> (told: (GitInvocation, GitOutput))
    requires
        diff_told(run, canonicalize, locate, ctx, limits, presentation, args, Ok(diff)),
    ensures
        call_ensures(run, (&told.0,), Ok::<GitOutput, ToolError>(told.1)),
        told.0.root@ == ctx.resolver_view().root_view(),
        told.0.cap == limits.max_git_output,
        diff.diff@ == told.1.stdout@,
        diff.truncated == told.1.stdout_truncated,
        diff.staged == args.staged,
        diff.path is Some <==> args.path is Some,
        told.0.args@.len() >= 2,
        told.0.args@.last()@ == match diff.path {
            Some(shown) => shown@,
            None => "."@,
        },
        told.0.args@[told.0.args@.len() - 2]@ == "--"@,
        text::text_views(told.0.args@).drop_last().drop_last().contains("--cached"@) <==> args.staged,
{
    let root = ctx.resolver_view().root_view();
    let result = Ok::<GitDiff, ToolError>(diff);
    let (outcome, out) = choose|
        outcome: Result<Option<Seq<char>>, Seq<char>>,
        out: ToolResult<GitOutput>,
    |
        #[trigger] diff_path(ctx, presentation, args.path, locate, outcome) && outcome is Ok
            && #[trigger] ran(
            run,
            root,
            diff_args(args.staged, outcome->Ok_0),
            limits.max_git_output,
            out,
        ) && out is Ok && diff.staged == args.staged && optional_view(diff.path) == outcome->Ok_0
            && diff.diff@ == out->Ok_0.stdout@ && diff.truncated == out->Ok_0.stdout_truncated;
    let shown = outcome->Ok_0;
    let expected = diff_args(args.staged, shown);
    let invocation = choose|invocation: &GitInvocation|
        invocation.root@ == root && text::text_views(invocation.args@) == expected && invocation.cap
            == limits.max_git_output && #[trigger] call_ensures(run, (invocation,), out);
    let given = invocation.args@;
    law_diff_is_restricted(args.staged, shown);
    assert(text::text_views(given).len() == given.len());
    assert forall|k: int| 0 <= k < given.len() implies (#[trigger] given[k])@ == expected[k] by {
        assert(text::text_views(given)[k] == given[k]@);
    }
    (*invocation, out->Ok_0)
}

/// A status that is told is what one invocation in the root of the workspace
/// printed.
pub proof fn law_status_tells_what_git_printed<
    R: Fn(&GitInvocation) -> ToolResult<GitOutput>,
    C: Fn(&str) -> Option<String>,
>(
    run: R,
    canonicalize: C,
    ctx: WorkspaceContext,
    limits: Limits,
    presentation: PathPresentation,
    status: GitStatus,
) -> (told: (GitInvocation, GitOutput))
    requires
        status_told(run, canonicalize, ctx, limits, presentation, Ok(status)),
    ensures
        call_ensures(run, (&told.0,), Ok::<GitOutput, ToolError>(told.1)),
        told.0.root@ == ctx.resolver_view().root_view(),
        told.0.cap == limits.max_git_output,
        status.output@ == told.1.stdout@,
        status.truncated == told.1.stdout_truncated,
        exists|k: int| 0 <= k < told.0.args@.len() && (#[trigger] told.0.args@[k])@ == "status"@,
        told.0.args@.len() >= 2,
        told.0.args@.last()@ == "."@,
        told.0.args@[told.0.args@.len() - 2]@ == "--"@,
{
    let root = ctx.resolver_view().root_view();
    let out = choose|out: ToolResult<GitOutput>| #[trigger]
        ran(run, root, status_args(), limits.max_git_output, out) && out is Ok && status.output@
            == out->Ok_0.stdout@ && status.truncated == out->Ok_0.stdout_truncated;
    let expected = status_args();
    let invocation = choose|invocation: &GitInvocation|
        invocation.root@ == root && text::text_views(invocation.args@) == expected && invocation.cap
            == limits.max_git_output && #[trigger] call_ensures(run, (invocation,), out);
    let given = invocation.args@;
    assert(text::text_views(given).len() == given.len());
    assert forall|k: int| 0 <= k < given.len() implies (#[trigger] given[k])@ == expected[k] by {
        assert(text::text_views(given)[k] == given[k]@);
    }
    assert(given[1]@ == "status"@);
    (*invocation, out->Ok_0)
}

/// A single workspace sees git's own words.
pub proof fn law_single_workspace_sees_the_words<
    R: Fn(&GitInvocation) -> ToolResult<GitOutput>,
    C: Fn(&str) -> Option<String>,
>(run: R, canonicalize: C, ctx: WorkspaceContext, raw: Seq<char>, shown: Seq<char>)
    requires
        shown_failure(run, canonicalize, ctx, PathPresentation::SingleCompatible, raw, shown),
    ensures
        shown == raw,
{
}

/// The path of a diff request is the one that is resolved, and what is handed
/// to git is how the resolved path is shown; without a path nothing is.
pub proof fn law_diff_paths_are_resolved<L: Fn(&FullPath) -> Located>(
    ctx: WorkspaceContext,
    presentation: PathPresentation,
    path: Option<String>,
    locate: L,
    outcome: Result<Option<Seq<char>>, Seq<char>>,
)
    requires
        diff_path(ctx, presentation, path, locate, outcome),
    ensures
        path is None <==> outcome == Ok::<Option<Seq<char>>, Seq<char>>(None),
        path matches Some(p) ==> (outcome matches Ok(shown) ==> exists|
            given: &str,
            resolved: FullPath,
        |
            given@ == p@ && #[trigger] ctx.resolver_view().resolves_by(
                Some(given),
                locate,
                Ok(resolved),
            ) && shown == Some(ctx.resolver_view().presented_view(resolved@, presentation))),
        path matches Some(p) ==> (outcome is Err ==> exists|given: &str, reason: ToolError|
            given@ == p@ && #[trigger] ctx.resolver_view().resolves_by(
                Some(given),
                locate,
                Err(reason),
            )),
{
    if let Some(p) = path {
        let (given, found) = choose|given: &str, found: ToolResult<FullPath>|
            given@ == p@ && #[trigger] ctx.resolver_view().resolves_by(Some(given), locate, found)
                && match found {
                Ok(resolved) => outcome == Ok::<Option<Seq<char>>, Seq<char>>(
                    Some(ctx.resolver_view().presented_view(resolved@, presentation)),
                ),
                Err(e) => outcome == Err::<Option<Seq<char>>, Seq<char>>(
                    "Invalid diff path '"@ + p@ + "': "@ + e.0@,
                ),
            };
        match found {
            Ok(resolved) => {
                assert(ctx.resolver_view().resolves_by(Some(given), locate, Ok(resolved)));
            },
            Err(reason) => {
                assert(ctx.resolver_view().resolves_by(Some(given), locate, Err(reason)));
            },
        }
    }
}

/// Neither a repository nor a user can turn on a pager, a file monitor or an
/// outside diff, nor lead git elsewhere.
pub proof fn law_invocations_are_hardened()
    ensures
        forall|k: int|
            0 <= k < 5 ==> #[trigger] hardened_config_view()[2 * k] == "-c"@,
        hardened_config_view().len() == 10,
        hardened_config_view().contains("core.fsmonitor=false"@),
        hardened_config_view().contains("core.pager=cat"@),
        hardened_config_view().contains("pager.diff=false"@),
        hardened_config_view().contains("pager.status=false"@),
        hardened_config_view().contains("status.relativePaths=true"@),
        stripped_env_view().contains("GIT_DIR"@),
        stripped_env_view().contains("GIT_WORK_TREE"@),
        stripped_env_view().contains("GIT_INDEX_FILE"@),
        stripped_env_view().contains("GIT_OBJECT_DIRECTORY"@),
        stripped_env_view().contains("GIT_ALTERNATE_OBJECT_DIRECTORIES"@),
        stripped_env_view().contains("GIT_EXTERNAL_DIFF"@),
        stripped_env_view().contains("GIT_PAGER"@),
        stripped_env_view().contains("GIT_EDITOR"@),
        stripped_env_view().contains("GIT_SEQUENCE_EDITOR"@),
        stripped_env_view().contains("GIT_PAGER_IN_USE"@),
        pinned_env_view() == seq![
            "GIT_OPTIONAL_LOCKS"@,
            "1"@,
            "GIT_TERMINAL_PROMPT"@,
            "0"@,
            "PAGER"@,
            "cat"@,
        ],
{
    let config = hardened_config_view();
    assert forall|k: int| 0 <= k < 5 implies #[trigger] config[2 * k] == "-c"@ by {
        assert(k == 0 || k == 1 || k == 2 || k == 3 || k == 4);
    }
    assert(config[1] == "core.fsmonitor=false"@);
    assert(config[3] == "core.pager=cat"@);
    assert(config[5] == "pager.diff=false"@);
    assert(config[7] == "pager.status=false"@);
    assert(config[9] == "status.relativePaths=true"@);
    let names = stripped_env_view();
    assert(names[0] == "GIT_DIR"@);
    assert(names[1] == "GIT_WORK_TREE"@);
    assert(names[2] == "GIT_INDEX_FILE"@);
    assert(names[3] == "GIT_OBJECT_DIRECTORY"@);
    assert(names[4] == "GIT_ALTERNATE_OBJECT_DIRECTORIES"@);
    assert(names[5] == "GIT_EXTERNAL_DIFF"@);
    assert(names[6] == "GIT_PAGER"@);
    assert(names[7] == "GIT_EDITOR"@);
    assert(names[8] == "GIT_SEQUENCE_EDITOR"@);
    assert(names[9] == "GIT_PAGER_IN_USE"@);
}

/// Display spellings come in order, each once, and none is empty.
pub proof fn law_variants_come_once_and_in_order(canonical: Seq<char>)
    ensures
        forall|a: int, b: int|
            0 <= a < b < display_variants(canonical).len() ==> text::precedes(
                #[trigger] display_variants(canonical)[a],
                #[trigger] display_variants(canonical)[b],
            ),
        forall|a: int|
            0 <= a < display_variants(canonical).len() ==> (
            #[trigger] display_variants(canonical)[a]).len() > 0,
{
    lemma_tidied_is_ordered(all_variants(spellings(canonical)));
}

spec fn strictly_sorted(texts: Seq<Seq<char>>) -> bool {
    &&& forall|a: int, b: int|
        0 <= a < b < texts.len() ==> text::precedes(#[trigger] texts[a], #[trigger] texts[b])
    &&& forall|a: int| 0 <= a < texts.len() ==> (#[trigger] texts[a]).len() > 0
}

proof fn lemma_tidied_is_ordered(items: Seq<Seq<char>>)
    ensures
        strictly_sorted(tidied(items)),
    decreases items.len(),
{
    if items.len() > 0 {
        lemma_tidied_is_ordered(items.drop_last());
        lemma_placed_is_ordered(tidied(items.drop_last()), items.last());
    }
}

proof fn lemma_placed_is_ordered(sorted: Seq<Seq<char>>, item: Seq<char>)
    requires
        strictly_sorted(sorted),
    ensures
        strictly_sorted(placed(sorted, item)),
        forall|a: int|
            0 <= a < placed(sorted, item).len() ==> (#[trigger] placed(sorted, item)[a]) == item
                || sorted.contains(placed(sorted, item)[a]),
    decreases sorted.len(),
{
    let out = placed(sorted, item);
    if item.len() == 0 || (sorted.len() > 0 && sorted.last() == item) {
        assert forall|a: int| 0 <= a < out.len() implies (#[trigger] out[a]) == item
            || sorted.contains(out[a]) by {
            assert(sorted[a] == out[a]);
        }
    } else if sorted.len() > 0 {
        let last = sorted.last();
        text::lemma_precedes_total(item, last);
        if text::precedes(item, last) {
            let front = sorted.drop_last();
            assert(strictly_sorted(front)) by {
                assert forall|a: int, b: int| 0 <= a < b < front.len() implies text::precedes(
                    #[trigger] front[a],
                    #[trigger] front[b],
                ) by {
                    assert(front[a] == sorted[a] && front[b] == sorted[b]);
                }
                assert forall|a: int| 0 <= a < front.len() implies (#[trigger] front[a]).len()
                    > 0 by {
                    assert(front[a] == sorted[a]);
                }
            }
            lemma_placed_is_ordered(front, item);
            let inner = placed(front, item);
            assert forall|a: int| 0 <= a < inner.len() implies text::precedes(
                #[trigger] inner[a],
                last,
            ) && (inner[a] == item || sorted.contains(inner[a])) by {
                if inner[a] != item {
                    let k = choose|k: int| 0 <= k < front.len() && front[k] == inner[a];
                    assert(sorted[k] == inner[a]);
                    assert(sorted[sorted.len() - 1] == last);
                }
            }
            assert forall|a: int, b: int| 0 <= a < b < out.len() implies text::precedes(
                #[trigger] out[a],
                #[trigger] out[b],
            ) by {
                assert(out[a] == inner[a]);
                if b < inner.len() {
                    assert(out[b] == inner[b]);
                }
            }
            assert forall|a: int| 0 <= a < out.len() implies (#[trigger] out[a]).len() > 0 && (
            out[a] == item || sorted.contains(out[a])) by {
                if a < inner.len() {
                    assert(out[a] == inner[a]);
                } else {
                    assert(sorted[sorted.len() - 1] == out[a]);
                }
            }
        } else {
            assert forall|a: int, b: int| 0 <= a < b < out.len() implies text::precedes(
                #[trigger] out[a],
                #[trigger] out[b],
            ) by {
                assert(out[a] == sorted[a]);
                if b < sorted.len() {
                    assert(out[b] == sorted[b]);
                } else if a < sorted.len() - 1 {
                    assert(text::precedes(sorted[a], sorted[sorted.len() - 1]));
                    text::lemma_precedes_transitive(sorted[a], last, item);
                }
            }
            assert forall|a: int| 0 <= a < out.len() implies (#[trigger] out[a]).len() > 0 && (
            out[a] == item || sorted.contains(out[a])) by {
                if a < sorted.len() {
                    assert(sorted[a] == out[a]);
                }
            }
        }
    }
}

/// What a registry client sees of git's words holds no spelling of the root of
/// the workspace or of the enclosing repository where a name ends; and words
/// that hold none are shown as they are.
pub proof fn law_presented_words_hide_the_roots(
    raw: Seq<char>,
    root: Seq<char>,
    toplevel: Seq<char>,
    canonical: Option<Seq<char>>,
    known: Seq<char>,
    spelling: Seq<char>,
)
    requires
        known == root || (toplevel.len() > 0 && toplevel != "/"@ && (known == toplevel || canonical
            == Some(known))),
        known.len() > 0,
        known != "/"@,
        display_variants(known).contains(spelling),
        spelling.len() > 0,
        no_dotted_end(spelling),
        overlaps_at_ends(spelling),
    ensures
        !discloses(presented(raw, root, toplevel, canonical), spelling),
{
    let roots = roots_to_redact(root, toplevel, canonical);
    law_every_known_root_is_redacted(root, toplevel, canonical);
    let r = choose|r: int| 0 <= r < roots.len() && roots[r] == known;
    law_no_root_is_disclosed(raw, roots, r, spelling);
}

/// Words that hold no spelling of a known root are presented as they are.
pub proof fn law_other_words_are_presented_as_they_are(
    raw: Seq<char>,
    root: Seq<char>,
    toplevel: Seq<char>,
    canonical: Option<Seq<char>>,
)
    requires
        forall|known: Seq<char>, spelling: Seq<char>|
            (known == root || known == toplevel || canonical == Some(known)) && #[trigger] display_variants(
                known,
            ).contains(spelling) ==> !discloses(raw, spelling),
    ensures
        presented(raw, root, toplevel, canonical) == raw,
{
    let roots = roots_to_redact(root, toplevel, canonical);
    let needles = needles_for(roots);
    law_every_known_root_is_redacted(root, toplevel, canonical);
    assert forall|k: int| 0 <= k < needles.len() implies !discloses(raw, #[trigger] needles[k]) by {
        law_only_roots_are_replaced(roots, k);
        let r = choose|r: int|
            0 <= r < roots.len() && (#[trigger] roots[r]).len() > 0 && roots[r] != "/"@
                && display_variants(roots[r]).contains(needles[k]);
        assert(display_variants(roots[r]).contains(needles[k]));
    }
    law_redaction_leaves_the_rest(raw, needles, "."@);
}

/// Whatever git says, a registry client sees no spelling of the workspace's
/// root where a name ends.
pub proof fn law_registry_clients_see_no_root<
    R: Fn(&GitInvocation) -> ToolResult<GitOutput>,
    C: Fn(&str) -> Option<String>,
>(
    run: R,
    canonicalize: C,
    ctx: WorkspaceContext,
    raw: Seq<char>,
    shown: Seq<char>,
    spelling: Seq<char>,
)
    requires
        shown_failure(run, canonicalize, ctx, PathPresentation::RegistryRelative, raw, shown),
        text::decoded_text(
            workspace::path_bytes(
                ctx.resolver_view().root_view(),
                ctx.resolver_view().separator_view(),
            ),
        ).len() > 0,
        text::decoded_text(
            workspace::path_bytes(
                ctx.resolver_view().root_view(),
                ctx.resolver_view().separator_view(),
            ),
        ) != "/"@,
        display_variants(
            text::decoded_text(
                workspace::path_bytes(
                    ctx.resolver_view().root_view(),
                    ctx.resolver_view().separator_view(),
                ),
            ),
        ).contains(spelling),
        spelling.len() > 0,
        no_dotted_end(spelling),
        overlaps_at_ends(spelling),
    ensures
        !discloses(shown, spelling),
{
    let resolver = ctx.resolver_view();
    let root = text::decoded_text(
        workspace::path_bytes(resolver.root_view(), resolver.separator_view()),
    );
    let (search, canonical) = choose|search: ToolResult<GitOutput>, canonical: Option<String>|
        #[trigger] shown_failure_given(run, canonicalize, resolver.root_view(), search, canonical) && shown
            == presented(raw, root, toplevel_of(search), optional_view(canonical));
    law_presented_words_hide_the_roots(
        raw,
        root,
        toplevel_of(search),
        optional_view(canonical),
        root,
        spelling,
    );
}

/// Nothing is told of a workspace that no check found to be in a work tree:
/// before a status or a diff is told, git was asked in the root of the
/// workspace, and answered that it is.
pub proof fn law_status_needs_a_work_tree<
    R: Fn(&GitInvocation) -> ToolResult<GitOutput>,
    C: Fn(&str) -> Option<String>,
>(
    run: R,
    canonicalize: C,
    ctx: WorkspaceContext,
    limits: Limits,
    presentation: PathPresentation,
    status: GitStatus,
) -> (asked: (GitInvocation, GitOutput))
    requires
        status_told(run, canonicalize, ctx, limits, presentation, Ok(status)),
    ensures
        call_ensures(run, (&asked.0,), Ok::<GitOutput, ToolError>(asked.1)),
        asked.0.root@ == ctx.resolver_view().root_view(),
        text::text_views(asked.0.args@) == seq!["rev-parse"@, "--is-inside-work-tree"@],
        text::is_core(asked.1.stdout@, "true"@),
{
    let root = ctx.resolver_view().root_view();
    let check = choose|check: ToolResult<GitOutput>| #[trigger]
        ran(run, root, worktree_args(), 1024, check) && is_worktree(check);
    law_work_tree_check_says_true(check);
    let invocation = choose|invocation: &GitInvocation|
        invocation.root@ == root && text::text_views(invocation.args@) == worktree_args()
            && invocation.cap == 1024 && #[trigger] call_ensures(run, (invocation,), check);
    (*invocation, check->Ok_0)
}

/// A diff, too, is told only of a workspace in a work tree.
pub proof fn law_diff_needs_a_work_tree<
    R: Fn(&GitInvocation) -> ToolResult<GitOutput>,
    C: Fn(&str) -> Option<String>,
    L: Fn(&FullPath) -> Located,
>(
    run: R,
    canonicalize: C,
    locate: L,
    ctx: WorkspaceContext,
    limits: Limits,
    presentation: PathPresentation,
    args: GitDiffArgs,
    diff: GitDiff,
) -> (asked: (GitInvocation, GitOutput))
    requires
        diff_told(run, canonicalize, locate, ctx, limits, presentation, args, Ok(diff)),
    ensures
        call_ensures(run, (&asked.0,), Ok::<GitOutput, ToolError>(asked.1)),
        asked.0.root@ == ctx.resolver_view().root_view(),
        text::text_views(asked.0.args@) == seq!["rev-parse"@, "--is-inside-work-tree"@],
        text::is_core(asked.1.stdout@, "true"@),
{
    let root = ctx.resolver_view().root_view();
    let check = choose|check: ToolResult<GitOutput>| #[trigger]
        ran(run, root, worktree_args(), 1024, check) && is_worktree(check);
    law_work_tree_check_says_true(check);
    let invocation = choose|invocation: &GitInvocation|
        invocation.root@ == root && text::text_views(invocation.args@) == worktree_args()
            && invocation.cap == 1024 && #[trigger] call_ensures(run, (invocation,), check);
    (*invocation, check->Ok_0)
}

/// A refused status is told for a reason: the workspace was not found to be in
/// a work tree, or git failed, and then its words are shown.
pub proof fn law_status_refusals_have_their_reason<
    R: Fn(&GitInvocation) -> ToolResult<GitOutput>,
    C: Fn(&str) -> Option<String>,
>(
    run: R,
    canonicalize: C,
    ctx: WorkspaceContext,
    limits: Limits,
    refusal: ToolError,
)
    requires
        status_told(
            run,
            canonicalize,
            ctx,
            limits,
            PathPresentation::SingleCompatible,
            Err(refusal),
        ),
    ensures
        (exists|invocation: &GitInvocation, check: ToolResult<GitOutput>| #[trigger]
            call_ensures(run, (invocation,), check) && !is_worktree(check)) || (exists|
            invocation: &GitInvocation,
            failure: ToolError,
        | #[trigger]
            call_ensures(run, (invocation,), Err::<GitOutput, ToolError>(failure)) && refusal.0@
                == failure.0@),
{
    let root = ctx.resolver_view().root_view();
    let check = choose|check: ToolResult<GitOutput>| #[trigger]
        ran(run, root, worktree_args(), 1024, check) && if !is_worktree(check) {
            refusal.0@ == no_worktree_text(ctx, PathPresentation::SingleCompatible)
        } else {
            exists|out: ToolResult<GitOutput>| #[trigger]
                ran(run, root, status_args(), limits.max_git_output, out) && out is Err
                    && refusal.0@ == out->Err_0.0@
        };
    if !is_worktree(check) {
        let invocation = choose|invocation: &GitInvocation| #[trigger]
            call_ensures(run, (invocation,), check);
        assert(call_ensures(run, (invocation,), check));
    } else {
        let out = choose|out: ToolResult<GitOutput>| #[trigger]
            ran(run, root, status_args(), limits.max_git_output, out) && out is Err && refusal.0@
                == out->Err_0.0@;
        let invocation = choose|invocation: &GitInvocation| #[trigger]
            call_ensures(run, (invocation,), out);
        assert(call_ensures(run, (invocation,), Err::<GitOutput, ToolError>(out->Err_0)));
    }
}

/// The spelling of a verbatim share without the marker is covered, too, and so
/// is the mixed form of a verbatim path.
pub proof fn law_variants_cover_shares(rest: Seq<char>)
    ensures
        display_variants("\\\\?\\UNC\\"@ + rest).contains("\\\\"@ + rest),
        display_variants("\\\\?\\"@ + rest).contains(
            "\\\\?\\"@ + text::swapped(rest, '\\', '/'),
        ),
{
    reveal_strlit("\\\\?\\UNC\\");
    reveal_strlit("\\\\?\\");
    reveal_strlit("UNC\\");
    reveal_strlit("\\\\");
    let share = "\\\\?\\UNC\\"@ + rest;
    let marked = "UNC\\"@ + rest;
    assert(share =~= "\\\\?\\"@ + marked);
    text::law_prefixes_are_taken_off("\\\\?\\"@, marked, share);
    text::law_prefixes_are_taken_off("UNC\\"@, rest, marked);
    assert(marked.subrange(0, 4) =~= "UNC\\"@);
    assert(spellings(share) == seq![share, marked, "\\\\"@ + rest]);
    lemma_variants_of(spellings(share), 2, 0);
    let plain = "\\\\?\\"@ + rest;
    text::law_prefixes_are_taken_off("\\\\?\\"@, rest, plain);
    let forms = spellings(plain);
    assert(forms[0] == plain);
    let variants = separator_variants(plain);
    assert(variants[3] == "\\\\?\\"@ + text::swapped(rest, '\\', '/'));
    let i = lemma_fourth_variant(forms, 0);
    lemma_tidied_keeps(all_variants(forms), i);
}

proof fn lemma_fourth_variant(forms: Seq<Seq<char>>, f: int) -> (i: int)
    requires
        0 <= f < forms.len(),
        separator_variants(forms[f]).len() == 4,
    ensures
        0 <= i < all_variants(forms).len(),
        all_variants(forms)[i] == separator_variants(forms[f])[3],
    decreases forms.len(),
{
    let part = all_variants(forms.drop_last());
    if f == forms.len() - 1 {
        (part.len() + 3) as int
    } else {
        lemma_fourth_variant(forms.drop_last(), f)
    }
}

/// Every display spelling is the path itself, its spelling without a verbatim
/// prefix, or that of its share, but for the separators.
pub proof fn law_variants_spell_the_same_path(canonical: Seq<char>, k: int)
    requires
        0 <= k < display_variants(canonical).len(),
    ensures
        exists|form: Seq<char>| #[trigger]
            text::swapped(form, '\\', '/') == text::swapped(
                display_variants(canonical)[k],
                '\\',
                '/',
            ) && {
                ||| form == canonical
                ||| "\\\\?\\"@ + form == canonical
                ||| exists|rest: Seq<char>|
                    form == #[trigger] ("\\\\"@ + rest) && ("\\\\?\\"@ + ("UNC\\"@ + rest) == canonical
                        || "\\\\?\\"@ + ("UNC/"@ + rest) == canonical)
            },
{
    let forms = spellings(canonical);
    let items = all_variants(forms);
    let variant = display_variants(canonical)[k];
    lemma_tidied_source(items, k);
    let i = choose|i: int| 0 <= i < items.len() && items[i] == variant;
    let (f, v) = lemma_variant_source(forms, i);
    let form = forms[f];
    lemma_separators_only(form, v);
    assert(text::swapped(form, '\\', '/') == text::swapped(variant, '\\', '/'));
    if f > 0 {
        let stripped = forms[1];
        text::law_prefixes_are_taken_off("\\\\?\\"@, stripped, canonical);
        if f > 1 {
            let rest = share_rest(stripped).unwrap();
            text::law_prefixes_are_taken_off("UNC\\"@, rest, stripped);
            text::law_prefixes_are_taken_off("UNC/"@, rest, stripped);
            assert(form == "\\\\"@ + rest);
        }
    }
}

proof fn lemma_tidied_source(items: Seq<Seq<char>>, k: int)
    requires
        0 <= k < tidied(items).len(),
    ensures
        items.contains(tidied(items)[k]),
    decreases items.len(),
{
    let front = items.drop_last();
    lemma_tidied_is_ordered(front);
    lemma_placed_is_ordered(tidied(front), items.last());
    let x = tidied(items)[k];
    if x == items.last() {
        assert(items[items.len() - 1] == x);
    } else {
        let j = choose|j: int| 0 <= j < tidied(front).len() && tidied(front)[j] == x;
        lemma_tidied_source(front, j);
        let m = choose|m: int| 0 <= m < front.len() && front[m] == x;
        assert(items[m] == x);
    }
}

proof fn lemma_variant_source(forms: Seq<Seq<char>>, i: int) -> (at: (int, int))
    requires
        0 <= i < all_variants(forms).len(),
    ensures
        0 <= at.0 < forms.len(),
        0 <= at.1 < separator_variants(forms[at.0]).len(),
        all_variants(forms)[i] == separator_variants(forms[at.0])[at.1],
    decreases forms.len(),
{
    let part = all_variants(forms.drop_last());
    if i < part.len() {
        lemma_variant_source(forms.drop_last(), i)
    } else {
        (forms.len() - 1, i - part.len())
    }
}

proof fn lemma_separators_only(form: Seq<char>, v: int)
    requires
        0 <= v < separator_variants(form).len(),
    ensures
        text::swapped(separator_variants(form)[v], '\\', '/') == text::swapped(form, '\\', '/'),
{
    let variant = separator_variants(form)[v];
    if v < 3 {
        assert(text::swapped(variant, '\\', '/') =~= text::swapped(form, '\\', '/'));
    } else {
        let rest = text::after_prefix(form, verbatim()).unwrap();
        text::law_prefixes_are_taken_off(verbatim(), rest, form);
        assert(variant == verbatim() + text::swapped(rest, '\\', '/'));
        assert(form == verbatim() + rest);
        assert(text::swapped(variant, '\\', '/') =~= text::swapped(form, '\\', '/'));
    }
}

/// Where a failure is shown without roots, the enclosing repository was asked
/// for in the root of the workspace, and its canonical spelling where it tells
/// something.
pub proof fn law_enclosing_repository_is_asked_for<
    R: Fn(&GitInvocation) -> ToolResult<GitOutput>,
    C: Fn(&str) -> Option<String>,
>(
    run: R,
    canonicalize: C,
    root: PathView,
    search: ToolResult<GitOutput>,
    canonical: Option<String>,
) -> (asked: GitInvocation)
    requires
        shown_failure_given(run, canonicalize, root, search, canonical),
    ensures
        asked.root@ == root,
        text::text_views(asked.args@) == seq!["--no-pager"@, "rev-parse"@, "--show-toplevel"@],
        call_ensures(run, (&asked,), search),
        toplevel_of(search).len() > 0 && toplevel_of(search) != "/"@ ==> exists|given: &str|
            given@ == toplevel_of(search) && #[trigger] call_ensures(
                canonicalize,
                (given,),
                canonical,
            ),
{
    let invocation = choose|invocation: &GitInvocation|
        invocation.root@ == root && text::text_views(invocation.args@) == toplevel_args()
            && invocation.cap == 4096 && #[trigger] call_ensures(run, (invocation,), search);
    *invocation
}

/// The refusal outside a work tree names the workspace as it is shown.
pub proof fn law_work_tree_refusals_name_the_workspace(
    ctx: WorkspaceContext,
    presentation: PathPresentation,
)
    ensures
        text::occurs(
            no_worktree_text(ctx, presentation),
            ctx.resolver_view().presented_view(ctx.resolver_view().root_view(), presentation),
        ),
{
    text::law_occurrences_are_found_anywhere(
        "'"@,
        ctx.resolver_view().presented_view(ctx.resolver_view().root_view(), presentation),
        "' does not appear to be inside a Git working tree."@,
        Seq::empty(),
        0,
    );
}

/// Spellings are replaced in turn, each in what the ones before it left.
pub proof fn law_spellings_are_replaced_in_turn(
    s: Seq<char>,
    needles: Seq<Seq<char>>,
    needle: Seq<char>,
    replacement: Seq<char>,
)
    ensures
        redacted_all(s, Seq::empty(), replacement) == s,
        redacted_all(s, needles.push(needle), replacement) == redacted_from(
            redacted_all(s, needles, replacement),
            needle,
            replacement,
            0,
        ),
{
    assert(needles.push(needle).drop_last() =~= needles);
}

} // verus!
