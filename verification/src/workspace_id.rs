//! Logical workspace identifiers.
//!
//! A [`WorkspaceId`] is a name chosen by the operator, never a filesystem
//! path. There is no case folding and no aliasing: two ids are the same only
//! if their texts are equal. The grammar is `[a-z0-9][a-z0-9._-]{0,63}`.
use crate::text;
use crate::text::{chars_of, comes_before, same_text};
use std::cmp::Ordering;
use vstd::prelude::*;

verus! {

/// Maximum length of a workspace id in characters.
pub const WORKSPACE_ID_MAX_LEN: usize = 64;

/// A lowercase ASCII letter or an ASCII digit.
pub open spec fn id_head_char(c: char) -> bool {
    ('a' <= c && c <= 'z') || ('0' <= c && c <= '9')
}

/// What may follow the first character of an id.
pub open spec fn id_tail_char(c: char) -> bool {
    id_head_char(c) || c == '.' || c == '_' || c == '-'
}

/// The id grammar.
pub open spec fn is_id(raw: Seq<char>) -> bool {
    &&& 1 <= raw.len() <= WORKSPACE_ID_MAX_LEN
    &&& id_head_char(raw[0])
    &&& forall|i: int| 1 <= i < raw.len() ==> id_tail_char(raw[i])
}

/// The first position at or after `from` that may not stand in an id.
pub open spec fn bad_tail_position(raw: Seq<char>, from: int) -> int
    decreases raw.len() - from,
{
    if from >= raw.len() || !id_tail_char(raw[from]) {
        from
    } else {
        bad_tail_position(raw, from + 1)
    }
}

/// Why `raw` is not an id.
pub open spec fn id_fault(raw: Seq<char>) -> Seq<char> {
    if raw.len() == 0 {
        "must not be empty"@
    } else if raw.len() > WORKSPACE_ID_MAX_LEN {
        "must be at most 64 characters"@
    } else if !id_head_char(raw[0]) {
        "must start with a lowercase ASCII letter or digit"@
    } else {
        "may only contain lowercase ASCII letters, digits, '.', '_', '-' (found '"@.push(
            raw[bad_tail_position(raw, 1)],
        ) + "')"@
    }
}

fn head_char(c: char) -> (yes: bool)
    ensures
        yes == id_head_char(c),
{
    ('a' <= c && c <= 'z') || ('0' <= c && c <= '9')
}

/// A validated workspace id.
#[derive(Debug, Eq, Hash, Ord)]
pub struct WorkspaceId(String);

impl View for WorkspaceId {
    type V = Seq<char>;

    closed spec fn view(&self) -> Seq<char> {
        self.0@
    }
}

fn rejection(raw: &str, reason: &str) -> (text: String)
    ensures
        text@ == "invalid workspace id '"@ + raw@ + "': "@ + reason@,
{
    String::from_str("invalid workspace id '").concat(raw).concat("': ").concat(reason)
}

impl WorkspaceId {
    #[verifier::type_invariant]
    spec fn valid(self) -> bool {
        is_id(self.0@)
    }

    /// Checks `raw` against the id grammar and wraps it.
    pub fn parse(raw: &str) -> (result: Result<WorkspaceId, String>)
        ensures
            match result {
                Ok(id) => is_id(raw@) && id@ == raw@,
                Err(e) => !is_id(raw@) && e@ == "invalid workspace id '"@ + raw@ + "': "@
                    + id_fault(raw@),
            },
    {
        let chars: Vec<char> = chars_of(raw);
        if chars.len() == 0 {
            return Err(rejection(raw, "must not be empty"));
        }
        if chars.len() > WORKSPACE_ID_MAX_LEN {
            return Err(rejection(raw, "must be at most 64 characters"));
        }
        if !head_char(chars[0]) {
            return Err(rejection(raw, "must start with a lowercase ASCII letter or digit"));
        }
        let mut i: usize = 1;
        while i < chars.len()
            invariant
                chars@ == raw@,
                1 <= i <= chars@.len() <= WORKSPACE_ID_MAX_LEN,
                id_head_char(raw@[0]),
                forall|k: int| 1 <= k < i ==> id_tail_char(raw@[k]),
                bad_tail_position(raw@, i as int) == bad_tail_position(raw@, 1),
            decreases chars.len() - i,
        {
            let c: char = chars[i];
            if !(head_char(c) || c == '.' || c == '_' || c == '-') {
                let mut reason: String = String::from_str(
                    "may only contain lowercase ASCII letters, digits, '.', '_', '-' (found '",
                );
                reason.push(c);
                reason.append("')");
                return Err(rejection(raw, reason.as_str()));
            }
            i += 1;
        }
        Ok(WorkspaceId(String::from_str(raw)))
    }

    /// The id text.
    pub fn as_str(&self) -> (text: &str)
        ensures
            text@ == self@,
            is_id(text@),
    {
        proof {
            use_type_invariant(self);
        }
        self.0.as_str()
    }

    /// Whether two ids are the same.
    pub fn same(&self, other: &WorkspaceId) -> (same: bool)
        ensures
            same == (self@ == other@),
    {
        same_text(self.0.as_str(), other.0.as_str())
    }
}

impl PartialEq for WorkspaceId {
    fn eq(&self, other: &WorkspaceId) -> (same: bool) {
        same_text(self.0.as_str(), other.0.as_str())
    }
}

impl vstd::std_specs::cmp::PartialEqSpecImpl for WorkspaceId {
    open spec fn obeys_eq_spec() -> bool {
        true
    }

    open spec fn eq_spec(&self, other: &WorkspaceId) -> bool {
        self@ == other@
    }
}

impl PartialOrd for WorkspaceId {
    fn partial_cmp(&self, other: &WorkspaceId) -> (order: Option<Ordering>) {
        if comes_before(self.0.as_str(), other.0.as_str()) {
            Some(Ordering::Less)
        } else if same_text(self.0.as_str(), other.0.as_str()) {
            Some(Ordering::Equal)
        } else {
            Some(Ordering::Greater)
        }
    }
}

impl vstd::std_specs::cmp::PartialOrdSpecImpl for WorkspaceId {
    open spec fn obeys_partial_cmp_spec() -> bool {
        true
    }

    open spec fn partial_cmp_spec(&self, other: &WorkspaceId) -> Option<Ordering> {
        if text::precedes(self@, other@) {
            Some(Ordering::Less)
        } else if self@ == other@ {
            Some(Ordering::Equal)
        } else {
            Some(Ordering::Greater)
        }
    }
}

/// Ids are compared as their texts: equal where the texts are, and ordered as
/// they are, character by character. There is no case folding and no
/// aliasing.
pub proof fn law_ids_compare_as_their_texts(a: WorkspaceId, b: WorkspaceId)
    ensures
        vstd::std_specs::cmp::PartialEqSpec::eq_spec(&a, &b) <==> a@ == b@,
        vstd::std_specs::cmp::PartialOrdSpec::partial_cmp_spec(&a, &b) == Some(Ordering::Less)
            <==> text::precedes(a@, b@),
        vstd::std_specs::cmp::PartialOrdSpec::partial_cmp_spec(&a, &b) == Some(Ordering::Equal)
            <==> a@ == b@,
        vstd::std_specs::cmp::PartialOrdSpec::partial_cmp_spec(&a, &b) == Some(Ordering::Greater)
            <==> text::precedes(b@, a@),
{
    text::lemma_precedes_total(a@, b@);
}

impl Clone for WorkspaceId {
    fn clone(&self) -> (copy: Self)
        ensures
            copy@ == self@,
    {
        proof {
            use_type_invariant(self);
        }
        WorkspaceId(self.0.clone())
    }
}

impl std::str::FromStr for WorkspaceId {
    type Err = String;

    fn from_str(s: &str) -> (result: Result<Self, String>)
        ensures
            match result {
                Ok(id) => is_id(s@) && id@ == s@,
                Err(e) => !is_id(s@) && e@ == "invalid workspace id '"@ + s@ + "': "@
                    + id_fault(s@),
            },
    {
        WorkspaceId::parse(s)
    }
}

/// An id is one to sixty-four characters, each a lowercase ASCII letter, an
/// ASCII digit, or, but for the first, a dot, an underscore or a hyphen.
pub proof fn law_id_grammar(raw: Seq<char>)
    ensures
        is_id(raw) <==> 1 <= raw.len() <= 64 && forall|i: int|
            0 <= i < raw.len() ==> 'a' <= #[trigger] raw[i] <= 'z' || '0' <= raw[i] <= '9' || (i > 0
                && (raw[i] == '.' || raw[i] == '_' || raw[i] == '-')),
{
    if is_id(raw) {
        assert forall|i: int| 0 <= i < raw.len() implies 'a' <= #[trigger] raw[i] <= 'z' || '0'
            <= raw[i] <= '9' || (i > 0 && (raw[i] == '.' || raw[i] == '_' || raw[i] == '-')) by {
            if i > 0 {
                assert(id_tail_char(raw[i]));
            }
        }
    }
}

/// The refusal of an id names the first character that may not stand in one.
pub proof fn law_id_fault_names_the_first(raw: Seq<char>, p: int)
    requires
        1 <= p < raw.len() <= 64,
        id_head_char(raw[0]),
        forall|i: int| 1 <= i < p ==> id_tail_char(#[trigger] raw[i]),
        !id_tail_char(raw[p]),
    ensures
        !is_id(raw),
        id_fault(raw)
            == "may only contain lowercase ASCII letters, digits, '.', '_', '-' (found '"@
            + seq![raw[p]] + "')"@,
{
    lemma_bad_tail_position(raw, 1, p);
    assert("may only contain lowercase ASCII letters, digits, '.', '_', '-' (found '"@.push(raw[p])
        =~= "may only contain lowercase ASCII letters, digits, '.', '_', '-' (found '"@
        + seq![raw[p]]);
}

proof fn lemma_bad_tail_position(raw: Seq<char>, from: int, p: int)
    requires
        0 <= from <= p < raw.len(),
        forall|i: int| from <= i < p ==> id_tail_char(#[trigger] raw[i]),
        !id_tail_char(raw[p]),
    ensures
        bad_tail_position(raw, from) == p,
    decreases p - from,
{
    if from < p {
        assert(id_tail_char(raw[from]));
        lemma_bad_tail_position(raw, from + 1, p);
    }
}

} // verus!
