//! Text primitives: character sequences, trimming, searching, decimal
//! numbers and line splitting.
use vstd::prelude::*;

verus! {

broadcast use vstd::string::group_string_axioms;

/// `String::push` appends one character.
pub assume_specification[ String::push ](s: &mut String, c: char)
    ensures
        final(s)@ == old(s)@.push(c),
;

/// The characters of `s`.
pub fn chars_of(s: &str) -> (chars: Vec<char>)
    ensures
        chars@ == s@,
{
    let mut chars: Vec<char> = Vec::new();
    for c in it: s.chars()
        invariant
            it.seq() == s@,
            chars@ == s@.take(it.index()),
    {
        chars.push(c);
        assert(s@.take(it.index() + 1) =~= s@.take(it.index()).push(c));
    }
    assert(s@.take(s@.len() as int) =~= s@);
    chars
}

/// The text made of `chars`.
pub fn string_of(chars: &[char]) -> (s: String)
    ensures
        s@ == chars@,
{
    let mut s: String = String::new();
    for i in 0..chars.len()
        invariant
            s@ == chars@.take(i as int),
    {
        s.push(chars[i]);
        assert(chars@.take(i + 1) =~= chars@.take(i as int).push(chars@[i as int]));
    }
    assert(chars@.take(chars@.len() as int) =~= chars@);
    s
}

/// Whether two texts are the same.
pub fn same_text(a: &str, b: &str) -> (same: bool)
    ensures
        same == (a@ == b@),
{
    String::from_str(a) == String::from_str(b)
}

/// Whether two character slices are the same.
pub fn same_chars(a: &[char], b: &[char]) -> (same: bool)
    ensures
        same == (a@ == b@),
{
    if a.len() != b.len() {
        return false;
    }
    for i in 0..a.len()
        invariant
            a.len() == b.len(),
            a@.take(i as int) == b@.take(i as int),
    {
        if a[i] != b[i] {
            assert(a@[i as int] != b@[i as int]);
            return false;
        }
        assert(a@.take(i + 1) =~= a@.take(i as int).push(a@[i as int]));
        assert(b@.take(i + 1) =~= b@.take(i as int).push(b@[i as int]));
    }
    assert(a@.take(a@.len() as int) =~= a@);
    assert(b@.take(b@.len() as int) =~= b@);
    true
}

/// Whether `needle` occurs in `hay` at `at`.
pub open spec fn occurs_at<T>(hay: Seq<T>, needle: Seq<T>, at: int) -> bool {
    &&& 0 <= at
    &&& at + needle.len() <= hay.len()
    &&& hay.subrange(at, at + needle.len()) == needle
}

/// Whether `needle` occurs anywhere in `hay`.
pub open spec fn occurs<T>(hay: Seq<T>, needle: Seq<T>) -> bool {
    exists|at: int| occurs_at(hay, needle, at)
}

/// Whether `s` begins with `prefix`.
pub open spec fn begins_with<T>(s: Seq<T>, prefix: Seq<T>) -> bool {
    occurs_at(s, prefix, 0)
}

/// Whether `needle` occurs in `hay` at `at`.
pub fn matches_at(hay: &[char], needle: &[char], at: usize) -> (found: bool)
    ensures
        found == occurs_at(hay@, needle@, at as int),
{
    if at > hay.len() || needle.len() > hay.len() - at {
        return false;
    }
    same_chars(&hay[at..at + needle.len()], needle)
}

/// Whether `s` begins with `prefix`.
pub fn has_prefix(s: &[char], prefix: &str) -> (found: bool)
    ensures
        found == begins_with(s@, prefix@),
{
    matches_at(s, chars_of(prefix).as_slice(), 0)
}

/// Whether `needle` occurs anywhere in `hay`.
pub fn contains_text(hay: &[char], needle: &str) -> (found: bool)
    ensures
        found == occurs(hay@, needle@),
{
    let wanted: Vec<char> = chars_of(needle);
    let mut at: usize = 0;
    while at < hay.len()
        invariant
            wanted@ == needle@,
            at <= hay.len(),
            forall|k: int| 0 <= k < at ==> !occurs_at(hay@, needle@, k),
        decreases hay.len() - at,
    {
        if matches_at(hay, wanted.as_slice(), at) {
            return true;
        }
        at += 1;
    }
    matches_at(hay, wanted.as_slice(), at)
}

/// The first position at or after `from` that holds `c`, or the length of `s`.
pub open spec fn position_from(s: Seq<char>, c: char, from: int) -> int
    decreases s.len() - from,
{
    if from >= s.len() {
        s.len() as int
    } else if s[from] == c {
        from
    } else {
        position_from(s, c, from + 1)
    }
}

/// `position_from` is the first hit: nothing before it holds `c`.
pub proof fn lemma_position_from(s: Seq<char>, c: char, from: int)
    requires
        0 <= from <= s.len(),
    ensures
        from <= position_from(s, c, from) <= s.len(),
        forall|k: int| from <= k < position_from(s, c, from) ==> s[k] != c,
        position_from(s, c, from) < s.len() ==> s[position_from(s, c, from)] == c,
    decreases s.len() - from,
{
    if from < s.len() && s[from] != c {
        lemma_position_from(s, c, from + 1);
    }
}

/// Finds the first position at or after `from` that holds `c`.
pub fn find_char(s: &[char], c: char, from: usize) -> (at: usize)
    requires
        from <= s@.len(),
    ensures
        at == position_from(s@, c, from as int),
        from <= at <= s@.len(),
{
    let mut at: usize = from;
    while at < s.len() && s[at] != c
        invariant
            from <= at <= s@.len(),
            position_from(s@, c, at as int) == position_from(s@, c, from as int),
        decreases s.len() - at,
    {
        at += 1;
    }
    at
}

/// Unicode's `White_Space` property.
pub open spec fn is_white_space(c: char) -> bool {
    let n = c as u32;
    ||| 9 <= n <= 13
    ||| n == 0x20
    ||| n == 0x85
    ||| n == 0xA0
    ||| n == 0x1680
    ||| 0x2000 <= n <= 0x200A
    ||| n == 0x2028
    ||| n == 0x2029
    ||| n == 0x202F
    ||| n == 0x205F
    ||| n == 0x3000
}

/// Whether `c` is white space.
pub fn white_space(c: char) -> (yes: bool)
    ensures
        yes == is_white_space(c),
{
    let n: u32 = c as u32;
    (9 <= n && n <= 13) || n == 0x20 || n == 0x85 || n == 0xA0 || n == 0x1680 || (0x2000 <= n && n
        <= 0x200A) || n == 0x2028 || n == 0x2029 || n == 0x202F || n == 0x205F || n == 0x3000
}

/// `s` without its leading white space.
pub open spec fn trimmed_start(s: Seq<char>) -> Seq<char>
    decreases s.len(),
{
    if s.len() > 0 && is_white_space(s[0]) {
        trimmed_start(s.skip(1))
    } else {
        s
    }
}

/// `s` without its trailing white space.
pub open spec fn trimmed_end(s: Seq<char>) -> Seq<char>
    decreases s.len(),
{
    if s.len() > 0 && is_white_space(s.last()) {
        trimmed_end(s.drop_last())
    } else {
        s
    }
}

/// `s` without leading and trailing white space.
pub open spec fn trimmed(s: Seq<char>) -> Seq<char> {
    trimmed_end(trimmed_start(s))
}

/// `s` without trailing white space.
pub fn trim_end(s: &[char]) -> (rest: &[char])
    ensures
        rest@ == trimmed_end(s@),
{
    let mut to: usize = s.len();
    assert(s@.take(to as int) =~= s@);
    while to > 0 && white_space(s[to - 1])
        invariant
            to <= s@.len(),
            trimmed_end(s@.take(to as int)) == trimmed_end(s@),
        decreases to,
    {
        assert(s@.take(to as int).drop_last() =~= s@.take(to - 1));
        to -= 1;
    }
    assert(s@.subrange(0, to as int) =~= s@.take(to as int));
    &s[0..to]
}

/// `s` without leading and trailing white space.
pub fn trim(s: &[char]) -> (rest: &[char])
    ensures
        rest@ == trimmed(s@),
{
    let mut from: usize = 0;
    assert(s@.skip(0) =~= s@);
    while from < s.len() && white_space(s[from])
        invariant
            from <= s@.len(),
            trimmed_start(s@.skip(from as int)) == trimmed_start(s@),
        decreases s.len() - from,
    {
        assert(s@.skip(from as int).skip(1) =~= s@.skip(from + 1));
        from += 1;
    }
    assert(s@.subrange(from as int, s@.len() as int) =~= s@.skip(from as int));
    trim_end(&s[from..s.len()])
}

/// Whether `s` holds nothing but white space.
pub open spec fn is_blank(s: Seq<char>) -> bool {
    forall|i: int| 0 <= i < s.len() ==> is_white_space(s[i])
}

/// A text is blank exactly when nothing is left of it after trimming.
pub proof fn lemma_blank_trims_to_nothing(s: Seq<char>)
    ensures
        is_blank(s) <==> trimmed(s).len() == 0,
    decreases s.len(),
{
    if s.len() > 0 && is_white_space(s[0]) {
        lemma_blank_trims_to_nothing(s.skip(1));
        assert forall|i: int| is_blank(s.skip(1)) && 0 <= i < s.len() implies is_white_space(
            s[i],
        ) by {
            if i > 0 {
                assert(s.skip(1)[i - 1] == s[i]);
            }
        }
    } else if s.len() > 0 {
        lemma_trimmed_end_keeps_head(s);
    }
}

proof fn lemma_trimmed_end_keeps_head(s: Seq<char>)
    requires
        s.len() > 0,
        !is_white_space(s[0]),
    ensures
        trimmed_end(s).len() > 0,
    decreases s.len(),
{
    if is_white_space(s.last()) {
        assert(s.drop_last()[0] == s[0]);
        lemma_trimmed_end_keeps_head(s.drop_last());
    }
}

/// Whether `core` is what is left of `s` when the white space around it is
/// taken off, and nothing else.
pub open spec fn is_core(s: Seq<char>, core: Seq<char>) -> bool {
    exists|from: int, to: int|
        0 <= from <= to <= s.len() && core == #[trigger] s.subrange(from, to) && (forall|i: int|
            0 <= i < from ==> is_white_space(#[trigger] s[i])) && (forall|i: int|
            to <= i < s.len() ==> is_white_space(#[trigger] s[i])) && (core.len() > 0
            ==> !is_white_space(core[0]) && !is_white_space(core.last()))
}

proof fn lemma_trimmed_start(s: Seq<char>) -> (from: int)
    ensures
        0 <= from <= s.len(),
        trimmed_start(s) == s.skip(from),
        forall|i: int| 0 <= i < from ==> is_white_space(#[trigger] s[i]),
        from < s.len() ==> !is_white_space(s[from]),
    decreases s.len(),
{
    if s.len() > 0 && is_white_space(s[0]) {
        let rest = lemma_trimmed_start(s.skip(1));
        assert(s.skip(1).skip(rest) =~= s.skip(rest + 1));
        assert forall|i: int| 0 <= i < rest + 1 implies is_white_space(#[trigger] s[i]) by {
            if i > 0 {
                assert(s.skip(1)[i - 1] == s[i]);
            }
        }
        rest + 1
    } else {
        assert(s.skip(0) =~= s);
        0
    }
}

proof fn lemma_trimmed_end(s: Seq<char>) -> (to: int)
    ensures
        0 <= to <= s.len(),
        trimmed_end(s) == s.take(to),
        forall|i: int| to <= i < s.len() ==> is_white_space(#[trigger] s[i]),
        to > 0 ==> !is_white_space(s[to - 1]),
    decreases s.len(),
{
    if s.len() > 0 && is_white_space(s.last()) {
        let to = lemma_trimmed_end(s.drop_last());
        assert(s.drop_last().take(to) =~= s.take(to));
        assert forall|i: int| to <= i < s.len() implies is_white_space(#[trigger] s[i]) by {
            if i < s.len() - 1 {
                assert(s.drop_last()[i] == s[i]);
            }
        }
        if to > 0 {
            assert(s.drop_last()[to - 1] == s[to - 1]);
        }
        to
    } else {
        assert(s.take(s.len() as int) =~= s);
        s.len() as int
    }
}

/// Trimming takes off the white space around a text and nothing else.
pub proof fn law_trimming_takes_off_white_space_only(s: Seq<char>)
    ensures
        is_core(s, trimmed(s)),
{
    let from = lemma_trimmed_start(s);
    let rest = s.skip(from);
    let to = lemma_trimmed_end(rest);
    assert(rest.take(to) =~= s.subrange(from, from + to));
    assert forall|i: int| from + to <= i < s.len() implies is_white_space(#[trigger] s[i]) by {
        assert(rest[i - from] == s[i]);
    }
    if to > 0 {
        assert(trimmed(s)[0] == s[from]);
        assert(trimmed(s).last() == rest[to - 1]);
    }
}

/// No printable ASCII character is white space; the blank, the tab and the
/// line ends are.
pub proof fn law_printable_characters_are_no_white_space(c: char)
    ensures
        '!' <= c <= '~' ==> !is_white_space(c),
        c == ' ' || c == '\t' || c == '\n' || c == '\r' ==> is_white_space(c),
{
}

/// Whether `s` holds nothing but white space.
pub fn blank(s: &str) -> (yes: bool)
    ensures
        yes == is_blank(s@),
{
    let chars: Vec<char> = chars_of(s);
    let mut i: usize = 0;
    while i < chars.len()
        invariant
            chars@ == s@,
            i <= chars@.len(),
            forall|k: int| 0 <= k < i ==> is_white_space(s@[k]),
        decreases chars.len() - i,
    {
        if !white_space(chars[i]) {
            return false;
        }
        i += 1;
    }
    true
}

/// The decimal digit `d`.
pub open spec fn digit(d: nat) -> char {
    (48 + d) as char
}

/// `n` in decimal, without leading zeros.
pub open spec fn decimal(n: nat) -> Seq<char>
    decreases n,
{
    if n < 10 {
        seq![digit(n)]
    } else {
        decimal(n / 10).push(digit(n % 10))
    }
}

/// `n` in decimal.
pub fn decimal_of(n: u64) -> (s: String)
    ensures
        s@ == decimal(n as nat),
    decreases n,
{
    let last: char = (48u8 + (n % 10) as u8) as char;
    if n < 10 {
        let mut s: String = String::new();
        s.push(last);
        assert(s@ =~= seq![digit(n as nat)]);
        s
    } else {
        let mut s: String = decimal_of(n / 10);
        s.push(last);
        s
    }
}

/// Whether `c` is an ASCII digit.
pub open spec fn is_digit(c: char) -> bool {
    48 <= c as u32 <= 57
}

/// Whether every character of `s` is an ASCII digit.
pub open spec fn all_digits(s: Seq<char>) -> bool {
    forall|i: int| 0 <= i < s.len() ==> is_digit(#[trigger] s[i])
}

/// The number that the digits `s` write in decimal.
pub open spec fn digits_value(s: Seq<char>) -> nat
    decreases s.len(),
{
    if s.len() == 0 {
        0
    } else {
        (digits_value(s.drop_last()) * 10 + (s.last() as u32 - 48)) as nat
    }
}

/// The digits of a number text: what follows an optional plus sign.
pub open spec fn unsigned_digits(s: Seq<char>) -> Seq<char> {
    if s.len() > 0 && s[0] == '+' {
        s.skip(1)
    } else {
        s
    }
}

/// The number that `s` writes: an optional plus sign and at least one digit,
/// with a value that fits.
pub open spec fn parsed_u64(s: Seq<char>) -> Option<u64> {
    let digits = unsigned_digits(s);
    if digits.len() > 0 && all_digits(digits) && digits_value(digits) <= u64::MAX {
        Some(digits_value(digits) as u64)
    } else {
        None
    }
}

proof fn lemma_digits_value_grows(s: Seq<char>, k: int)
    requires
        0 <= k <= s.len(),
        all_digits(s),
    ensures
        digits_value(s.take(k)) <= digits_value(s),
    decreases s.len() - k,
{
    if k < s.len() {
        lemma_digits_value_grows(s, k + 1);
        assert(s.take(k + 1).drop_last() =~= s.take(k));
        assert(is_digit(s.take(k + 1).last()));
    } else {
        assert(s.take(k) =~= s);
    }
}

/// Reads a number text.
pub fn parse_u64(s: &[char]) -> (value: Option<u64>)
    ensures
        value == parsed_u64(s@),
{
    let from: usize = if s.len() > 0 && s[0] == '+' {
        1
    } else {
        0
    };
    let ghost digits = unsigned_digits(s@);
    assert(digits =~= s@.skip(from as int));
    if from == s.len() {
        return None;
    }
    let mut value: u64 = 0;
    let mut i: usize = from;
    assert(digits.take(0) =~= Seq::<char>::empty());
    while i < s.len()
        invariant
            from <= i <= s@.len(),
            digits == s@.skip(from as int),
            digits == unsigned_digits(s@),
            forall|k: int| 0 <= k < i - from ==> is_digit(#[trigger] digits[k]),
            value == digits_value(digits.take(i - from)),
        decreases s.len() - i,
    {
        let c: char = s[i];
        assert(digits[i - from] == c);
        let n: u32 = c as u32;
        if n < 48 || n > 57 {
            assert(!is_digit(digits[i - from]));
            return None;
        }
        assert(digits.take(i - from + 1).drop_last() =~= digits.take(i - from));
        let next: u128 = value as u128 * 10 + (n - 48) as u128;
        assert(next == digits_value(digits.take(i - from + 1)));
        if next > 0xffff_ffff_ffff_ffff {
            proof {
                if all_digits(digits) {
                    lemma_digits_value_grows(digits, i - from + 1);
                }
            }
            return None;
        }
        value = next as u64;
        i += 1;
    }
    assert(digits.take(digits.len() as int) =~= digits);
    Some(value)
}

pub proof fn lemma_decimal_digits(n: nat)
    ensures
        decimal(n).len() > 0,
        all_digits(decimal(n)),
        digits_value(decimal(n)) == n,
    decreases n,
{
    if n < 10 {
        let s = decimal(n);
        assert(s.drop_last() =~= Seq::<char>::empty());
        assert(digits_value(s.drop_last()) == 0);
    } else {
        lemma_decimal_digits(n / 10);
        let s = decimal(n);
        assert(s.drop_last() =~= decimal(n / 10));
    }
}

/// Reading back a number that was written in decimal gives that number.
pub proof fn law_decimal_round_trip(n: u64)
    ensures
        parsed_u64(decimal(n as nat)) == Some(n),
{
    lemma_decimal_digits(n as nat);
    assert(is_digit(decimal(n as nat)[0]));
}

/// How a line ends.
#[derive(Debug, Clone, Copy, PartialEq, Eq, Structural)]
pub enum LineEnding {
    /// The text ends here.
    Missing,
    /// A line feed.
    Lf,
    /// A carriage return and a line feed.
    CrLf,
}

impl LineEnding {
    /// The characters of the ending.
    pub open spec fn chars(self) -> Seq<char> {
        match self {
            LineEnding::Missing => Seq::empty(),
            LineEnding::Lf => seq!['\n'],
            LineEnding::CrLf => seq!['\r', '\n'],
        }
    }

    /// Appends the ending to `out`.
    pub fn push_to(self, out: &mut String)
        ensures
            final(out)@ == old(out)@ + self.chars(),
    {
        match self {
            LineEnding::Missing => {},
            LineEnding::Lf => {
                out.push('\n');
            },
            LineEnding::CrLf => {
                out.push('\r');
                out.push('\n');
            },
        }
        assert(out@ =~= old(out)@ + self.chars());
    }
}

/// One line of a text.
pub struct TextLine {
    /// The line without its ending.
    pub text: String,
    /// How it ends.
    pub ending: LineEnding,
}

/// What a [`TextLine`] holds.
#[verifier::ext_equal]
pub struct LineView {
    /// The line without its ending.
    pub text: Seq<char>,
    /// How it ends.
    pub ending: LineEnding,
}

impl View for TextLine {
    type V = LineView;

    open spec fn view(&self) -> LineView {
        LineView { text: self.text@, ending: self.ending }
    }
}

impl TextLine {
    /// A copy of this line.
    pub fn duplicate(&self) -> (copy: TextLine)
        ensures
            copy@ == self@,
    {
        TextLine { text: self.text.clone(), ending: self.ending }
    }
}

/// What a list of lines holds.
pub open spec fn line_views(lines: Seq<TextLine>) -> Seq<LineView> {
    lines.map_values(|line: TextLine| line@)
}

/// A line that stood in front of a line feed: a carriage return at its end
/// belongs to the ending.
pub open spec fn terminated_line(raw: Seq<char>) -> LineView {
    if raw.len() > 0 && raw.last() == '\r' {
        LineView { text: raw.drop_last(), ending: LineEnding::CrLf }
    } else {
        LineView { text: raw, ending: LineEnding::Lf }
    }
}

/// The lines of `s`. A line feed ends a line; what follows the last one is a
/// line of its own unless it is empty.
pub open spec fn split_lines(s: Seq<char>) -> Seq<LineView>
    decreases s.len(),
{
    let end = position_from(s, '\n', 0);
    if s.len() == 0 {
        Seq::empty()
    } else if end < 0 || end >= s.len() {
        seq![LineView { text: s, ending: LineEnding::Missing }]
    } else {
        seq![terminated_line(s.take(end))] + split_lines(s.skip(end + 1))
    }
}

/// The text that a list of lines writes.
pub open spec fn join_lines(lines: Seq<LineView>) -> Seq<char>
    decreases lines.len(),
{
    if lines.len() == 0 {
        Seq::empty()
    } else {
        lines[0].text + lines[0].ending.chars() + join_lines(lines.skip(1))
    }
}

/// Splitting a text into lines loses nothing: joining them gives it back.
pub proof fn law_lines_round_trip(s: Seq<char>)
    ensures
        join_lines(split_lines(s)) == s,
    decreases s.len(),
{
    lemma_position_from(s, '\n', 0);
    let end = position_from(s, '\n', 0);
    if s.len() == 0 {
    } else if end >= s.len() {
        let lines = split_lines(s);
        assert(join_lines(lines.skip(1)) =~= Seq::<char>::empty());
        assert(join_lines(lines) =~= s);
    } else {
        let rest = s.skip(end + 1);
        law_lines_round_trip(rest);
        let lines = split_lines(s);
        assert(lines.skip(1) =~= split_lines(rest));
        let first = terminated_line(s.take(end));
        assert(first.text + first.ending.chars() =~= s.take(end).push('\n'));
        assert(s.take(end).push('\n') + rest =~= s);
    }
}

proof fn lemma_position_shift(s: Seq<char>, c: char, from: int, at: int)
    requires
        0 <= from <= at <= s.len(),
    ensures
        position_from(s, c, at) == position_from(s.skip(from), c, at - from) + from,
    decreases s.len() - at,
{
    if at < s.len() && s[at] != c {
        assert(s.skip(from)[at - from] == s[at]);
        lemma_position_shift(s, c, from, at + 1);
    } else if at < s.len() {
        assert(s.skip(from)[at - from] == s[at]);
    }
}

proof fn lemma_position_in_front(s: Seq<char>, rest: Seq<char>, c: char, from: int)
    requires
        0 <= from <= s.len(),
        position_from(s, c, from) < s.len(),
    ensures
        position_from(s + rest, c, from) == position_from(s, c, from),
    decreases s.len() - from,
{
    if from < s.len() && s[from] != c {
        lemma_position_in_front(s, rest, c, from + 1);
    }
}

/// Whole lines stay lines, whatever follows them.
pub proof fn lemma_split_whole_lines(s: Seq<char>, rest: Seq<char>)
    requires
        s.len() == 0 || s.last() == '\n',
    ensures
        split_lines(s + rest) == split_lines(s) + split_lines(rest),
    decreases s.len(),
{
    if s.len() == 0 {
        assert(s + rest =~= rest);
        assert(split_lines(s) + split_lines(rest) =~= split_lines(rest));
    } else {
        let end = position_from(s, '\n', 0);
        lemma_position_from(s, '\n', 0);
        lemma_position_in_front(s, rest, '\n', 0);
        assert((s + rest).take(end) =~= s.take(end));
        assert((s + rest).skip(end + 1) =~= s.skip(end + 1) + rest);
        if end + 1 < s.len() {
            assert(s.skip(end + 1).last() == s.last());
        }
        lemma_split_whole_lines(s.skip(end + 1), rest);
        let first = seq![terminated_line(s.take(end))];
        assert(first + (split_lines(s.skip(end + 1)) + split_lines(rest)) =~= first + split_lines(
            s.skip(end + 1),
        ) + split_lines(rest));
    }
}

/// Splits a text into its lines.
pub fn lines_of(s: &str) -> (lines: Vec<TextLine>)
    ensures
        line_views(lines@) == split_lines(s@),
{
    let chars: Vec<char> = chars_of(s);
    let mut lines: Vec<TextLine> = Vec::new();
    let mut from: usize = 0;
    assert(s@.skip(0) =~= s@);
    assert(line_views(lines@) =~= Seq::<LineView>::empty());
    assert(Seq::<LineView>::empty() + split_lines(s@) =~= split_lines(s@));
    while from < chars.len()
        invariant
            chars@ == s@,
            from <= s@.len(),
            line_views(lines@) + split_lines(s@.skip(from as int)) == split_lines(s@),
        decreases chars.len() - from,
    {
        let end: usize = find_char(chars.as_slice(), '\n', from);
        let ghost rest = s@.skip(from as int);
        let ghost before = line_views(lines@);
        proof {
            lemma_position_shift(s@, '\n', from as int, from as int);
            lemma_position_from(rest, '\n', 0);
        }
        if end == chars.len() {
            let line = TextLine {
                text: string_of(&chars[from..end]),
                ending: LineEnding::Missing,
            };
            assert(line.text@ =~= rest);
            lines.push(line);
            proof {
                assert(line_views(lines@) =~= before.push(line@));
                assert(before + seq![line@] =~= before.push(line@));
                assert(split_lines(rest) =~= seq![line@]);
                assert(s@.skip(end as int) =~= Seq::<char>::empty());
                assert(line_views(lines@) + split_lines(s@.skip(end as int)) =~= before + seq![
                    line@,
                ]);
            }
            from = end;
        } else {
            let line = if end > from && chars[end - 1] == '\r' {
                TextLine { text: string_of(&chars[from..end - 1]), ending: LineEnding::CrLf }
            } else {
                TextLine { text: string_of(&chars[from..end]), ending: LineEnding::Lf }
            };
            proof {
                assert(rest.take(end - from) =~= s@.subrange(from as int, end as int));
                assert(line@ =~~= terminated_line(rest.take(end - from)));
            }
            lines.push(line);
            proof {
                assert(line_views(lines@) =~= before.push(line@));
                assert(rest.skip(end - from + 1) =~= s@.skip(end + 1));
                assert(before.push(line@) + split_lines(s@.skip(end + 1)) =~= before + (seq![line@]
                    + split_lines(s@.skip(end + 1))));
            }
            from = end + 1;
        }
    }
    proof {
        assert(s@.skip(from as int) =~= Seq::<char>::empty());
        assert(line_views(lines@) + Seq::<LineView>::empty() =~= line_views(lines@));
    }
    lines
}

/// Decodes UTF-8 with `String::from_utf8`, which succeeds exactly on valid
/// UTF-8 and then holds the characters that the bytes encode.
#[verifier::external_body]
fn from_utf8(bytes: Vec<u8>) -> (result: Result<String, ()>)
    ensures
        match result {
            Ok(s) => vstd::utf8::valid_utf8(bytes@) && s@ == vstd::utf8::decode_utf8(bytes@),
            Err(_) => !vstd::utf8::valid_utf8(bytes@),
        },
{
    String::from_utf8(bytes).map_err(|_| ())
}

/// The text that `bytes` encode, where they are valid UTF-8.
pub fn decode(bytes: &[u8]) -> (decoded: Option<String>)
    ensures
        match decoded {
            Some(s) => vstd::utf8::valid_utf8(bytes@) && s@ == vstd::utf8::decode_utf8(bytes@),
            None => !vstd::utf8::valid_utf8(bytes@),
        },
{
    match from_utf8(vstd::slice::slice_to_vec(bytes)) {
        Ok(s) => Some(s),
        Err(_) => None,
    }
}

/// How many bytes `c` takes in UTF-8.
pub open spec fn char_width(c: char) -> nat {
    let n = c as u32;
    if n <= 0x7F {
        1
    } else if n <= 0x7FF {
        2
    } else if n <= 0xFFFF {
        3
    } else {
        4
    }
}

/// How many bytes `c` takes in UTF-8.
pub fn width_of(c: char) -> (width: usize)
    ensures
        width == char_width(c),
{
    let n: u32 = c as u32;
    if n <= 0x7F {
        1
    } else if n <= 0x7FF {
        2
    } else if n <= 0xFFFF {
        3
    } else {
        4
    }
}

/// How many bytes `s` takes in UTF-8.
pub open spec fn byte_len(s: Seq<char>) -> nat {
    vstd::utf8::encode_utf8(s).len()
}

/// How many bytes `s` takes in UTF-8.
pub fn byte_len_of(s: &str) -> (length: usize)
    ensures
        length == byte_len(s@),
{
    s.as_bytes().len()
}

/// The byte length of a text is that of its first character and of the rest.
pub proof fn lemma_byte_len_first(s: Seq<char>)
    requires
        s.len() > 0,
    ensures
        byte_len(s) == char_width(s[0]) + byte_len(s.skip(1)),
{
    vstd::utf8::char_is_scalar(s[0]);
    assert(s.drop_first() =~= s.skip(1));
    assert(vstd::utf8::encode_scalar(s[0] as u32).len() == char_width(s[0]));
}

/// Byte lengths add up.
pub proof fn lemma_byte_len_concat(a: Seq<char>, b: Seq<char>)
    ensures
        byte_len(a + b) == byte_len(a) + byte_len(b),
    decreases a.len(),
{
    if a.len() == 0 {
        assert(a + b =~= b);
    } else {
        lemma_byte_len_first(a);
        lemma_byte_len_first(a + b);
        lemma_byte_len_concat(a.skip(1), b);
        assert((a + b).skip(1) =~= a.skip(1) + b);
    }
}

/// How many leading characters of `s` fit into `room` bytes.
pub open spec fn fitting(s: Seq<char>, room: nat) -> nat
    decreases s.len(),
{
    if s.len() > 0 && char_width(s[0]) <= room {
        1 + fitting(s.skip(1), (room - char_width(s[0])) as nat)
    } else {
        0
    }
}

/// `fitting` counts the longest prefix that fits: it does fit, and one
/// character more would not.
pub proof fn lemma_fitting_is_longest(s: Seq<char>, room: nat)
    ensures
        fitting(s, room) <= s.len(),
        byte_len(s.take(fitting(s, room) as int)) <= room,
        fitting(s, room) < s.len() ==> byte_len(s.take(fitting(s, room) as int + 1)) > room,
        byte_len(s) <= room ==> fitting(s, room) == s.len(),
    decreases s.len(),
{
    if s.len() > 0 && char_width(s[0]) <= room {
        let left = (room - char_width(s[0])) as nat;
        lemma_fitting_is_longest(s.skip(1), left);
        lemma_byte_len_first(s);
        let n = fitting(s, room) as int;
        assert(s.take(n).skip(1) =~= s.skip(1).take(n - 1));
        lemma_byte_len_first(s.take(n));
        if n < s.len() {
            assert(s.take(n + 1).skip(1) =~= s.skip(1).take(n));
            lemma_byte_len_first(s.take(n + 1));
        }
    } else if s.len() > 0 {
        lemma_byte_len_first(s);
        assert(s.take(0) =~= Seq::<char>::empty());
        assert(s.take(1).skip(1) =~= Seq::<char>::empty());
        lemma_byte_len_first(s.take(1));
    } else {
        assert(s.take(0) =~= Seq::<char>::empty());
    }
}

/// Counts how many leading characters of `s` fit into `room` bytes.
pub fn count_fitting(s: &[char], room: usize) -> (count: usize)
    ensures
        count == fitting(s@, room as nat),
        count <= s@.len(),
{
    let mut count: usize = 0;
    let mut left: usize = room;
    assert(s@.skip(0) =~= s@);
    while count < s.len() && width_of(s[count]) <= left
        invariant
            count <= s@.len(),
            count + fitting(s@.skip(count as int), left as nat) == fitting(s@, room as nat),
        decreases s.len() - count,
    {
        assert(s@.skip(count as int).skip(1) =~= s@.skip(count + 1));
        left -= width_of(s[count]);
        count += 1;
    }
    count
}

/// An ASCII letter in lower case; any other character as it is.
pub open spec fn ascii_lower(c: char) -> char {
    if 'A' <= c && c <= 'Z' {
        (c as u32 + 32) as char
    } else {
        c
    }
}

/// `s` with its ASCII letters in lower case.
pub open spec fn ascii_lowered(s: Seq<char>) -> Seq<char> {
    s.map_values(|c: char| ascii_lower(c))
}

/// `s` with its ASCII letters in lower case.
pub fn lower_ascii(s: &str) -> (lowered: String)
    ensures
        lowered@ == ascii_lowered(s@),
{
    let chars: Vec<char> = chars_of(s);
    let mut lowered: String = String::new();
    for i in 0..chars.len()
        invariant
            chars@ == s@,
            lowered@ == ascii_lowered(s@.take(i as int)),
    {
        let c: char = chars[i];
        let next: char = if 'A' <= c && c <= 'Z' {
            (c as u8 + 32u8) as char
        } else {
            c
        };
        assert(next == ascii_lower(c));
        lowered.push(next);
        assert(ascii_lowered(s@.take(i + 1)) =~= ascii_lowered(s@.take(i as int)).push(next));
    }
    assert(s@.take(s@.len() as int) =~= s@);
    lowered
}

/// The text that bytes stand for when invalid parts are replaced: the result
/// of `String::from_utf8_lossy`.
pub uninterp spec fn lossy_text(bytes: Seq<u8>) -> Seq<char>;

/// Decodes bytes with `String::from_utf8_lossy`, whose result depends on the
/// bytes alone and is named [`lossy_text`].
#[verifier::external_body]
fn from_utf8_lossy(bytes: &[u8]) -> (s: String)
    ensures
        s@ == lossy_text(bytes@),
{
    String::from_utf8_lossy(bytes).into_owned()
}

/// The text of bytes: what they encode, or their lossy decoding where they
/// are not valid UTF-8.
pub open spec fn decoded_text(bytes: Seq<u8>) -> Seq<char> {
    if vstd::utf8::valid_utf8(bytes) {
        vstd::utf8::decode_utf8(bytes)
    } else {
        lossy_text(bytes)
    }
}

/// Texts one after the other are encoded one after the other.
pub proof fn lemma_encode_concat(a: Seq<char>, b: Seq<char>)
    ensures
        vstd::utf8::encode_utf8(a + b) == vstd::utf8::encode_utf8(a) + vstd::utf8::encode_utf8(b),
    decreases a.len(),
{
    if a.len() == 0 {
        assert(a + b =~= b);
        assert(vstd::utf8::encode_utf8(a) + vstd::utf8::encode_utf8(b)
            =~= vstd::utf8::encode_utf8(b));
    } else {
        assert((a + b).drop_first() =~= a.drop_first() + b);
        lemma_encode_concat(a.drop_first(), b);
        let first = vstd::utf8::encode_scalar(a[0] as u32);
        assert(first + (vstd::utf8::encode_utf8(a.drop_first()) + vstd::utf8::encode_utf8(b))
            =~= first + vstd::utf8::encode_utf8(a.drop_first()) + vstd::utf8::encode_utf8(b));
    }
}

/// An ASCII character is encoded as one byte.
pub proof fn lemma_encode_ascii(c: char)
    requires
        (c as u32) < 128,
    ensures
        vstd::utf8::encode_utf8(seq![c]) == seq![c as u8],
{
    let text = seq![c];
    assert(vstd::utf8::is_ascii_chars(text));
    vstd::utf8::is_ascii_chars_encode_utf8(text);
    assert(vstd::utf8::encode_utf8(text) =~= seq![c as u8]);
}

/// An encoded text is decoded to itself.
pub proof fn lemma_decoded_again(s: Seq<char>)
    ensures
        decoded_text(vstd::utf8::encode_utf8(s)) == s,
{
    vstd::utf8::encode_utf8_valid_utf8(s);
    vstd::utf8::encode_utf8_decode_utf8(s);
}

/// Decodes bytes, replacing invalid parts, and tells whether that was needed.
pub fn decode_lossy(bytes: &[u8]) -> (result: (String, bool))
    ensures
        result.0@ == decoded_text(bytes@),
        result.1 == !vstd::utf8::valid_utf8(bytes@),
{
    match decode(bytes) {
        Some(s) => (s, false),
        None => (from_utf8_lossy(bytes), true),
    }
}

spec fn ten_to(k: nat) -> nat
    decreases k,
{
    if k == 0 {
        1
    } else {
        10 * ten_to((k - 1) as nat)
    }
}

proof fn lemma_decimal_len_below(n: nat, k: nat)
    requires
        k > 0,
        n < ten_to(k),
    ensures
        decimal(n).len() <= k,
    decreases k,
{
    if n >= 10 {
        if k == 1 {
            assert(ten_to(1) == 10) by {
                reveal_with_fuel(ten_to, 2);
            }
        } else {
            lemma_decimal_len_below(n / 10, (k - 1) as nat);
        }
    }
}

/// A 64-bit number has between one and twenty digits, all of them ASCII.
pub proof fn lemma_decimal_len(n: u64)
    ensures
        1 <= decimal(n as nat).len() <= 20,
{
    lemma_decimal_digits(n as nat);
    assert(n < ten_to(20)) by {
        reveal_with_fuel(ten_to, 21);
    }
    lemma_decimal_len_below(n as nat, 20);
}

proof fn lemma_digits_byte_len(s: Seq<char>)
    requires
        all_digits(s),
    ensures
        byte_len(s) == s.len(),
    decreases s.len(),
{
    if s.len() > 0 {
        assert(is_digit(s[0]));
        assert forall|i: int| 0 <= i < s.skip(1).len() implies is_digit(#[trigger] s.skip(1)[i]) by {
            assert(s.skip(1)[i] == s[i + 1]);
        }
        lemma_digits_byte_len(s.skip(1));
        lemma_byte_len_first(s);
    }
}

/// A decimal number takes one byte per digit.
pub proof fn lemma_decimal_byte_len(n: nat)
    ensures
        byte_len(decimal(n)) == decimal(n).len(),
{
    lemma_decimal_digits(n);
    lemma_digits_byte_len(decimal(n));
}

/// Whether two byte slices are the same.
pub fn same_bytes(a: &[u8], b: &[u8]) -> (same: bool)
    ensures
        same == (a@ == b@),
{
    if a.len() != b.len() {
        return false;
    }
    for i in 0..a.len()
        invariant
            a.len() == b.len(),
            forall|k: int| 0 <= k < i ==> a@[k] == b@[k],
    {
        if a[i] != b[i] {
            assert(a@[i as int] != b@[i as int]);
            return false;
        }
    }
    assert(a@ =~= b@);
    true
}

/// A copy of bytes.
pub fn copy_bytes(bytes: &[u8]) -> (copy: Vec<u8>)
    ensures
        copy@ == bytes@,
{
    vstd::slice::slice_to_vec(bytes)
}

/// Whether `s` holds `c`.
pub fn holds_char(s: &str, c: char) -> (yes: bool)
    ensures
        yes == s@.contains(c),
{
    let chars: Vec<char> = chars_of(s);
    let at: usize = find_char(chars.as_slice(), c, 0);
    proof {
        lemma_position_from(s@, c, 0);
        if s@.contains(c) {
            let k = choose|k: int| 0 <= k < s@.len() && s@[k] == c;
            assert(s@[k] == c);
        }
    }
    at < chars.len()
}

/// Whether `a` comes before `b`, character by character.
pub open spec fn precedes(a: Seq<char>, b: Seq<char>) -> bool
    decreases a.len(),
{
    if b.len() == 0 {
        false
    } else if a.len() == 0 {
        true
    } else if a[0] == b[0] {
        precedes(a.skip(1), b.skip(1))
    } else {
        a[0] < b[0]
    }
}

/// The order is irreflexive and total.
pub proof fn lemma_precedes_total(a: Seq<char>, b: Seq<char>)
    ensures
        precedes(a, b) ==> !precedes(b, a) && a != b,
        a != b ==> precedes(a, b) || precedes(b, a),
        a == b ==> !precedes(a, b),
    decreases a.len(),
{
    if a.len() > 0 && b.len() > 0 {
        lemma_precedes_total(a.skip(1), b.skip(1));
        if a[0] == b[0] && a.skip(1) == b.skip(1) {
            assert(a =~= seq![a[0]] + a.skip(1));
            assert(b =~= seq![b[0]] + b.skip(1));
        }
    } else if a.len() == 0 && b.len() == 0 {
        assert(a =~= b);
    }
}

/// The order is transitive.
pub proof fn lemma_precedes_transitive(a: Seq<char>, b: Seq<char>, c: Seq<char>)
    requires
        precedes(a, b),
        precedes(b, c),
    ensures
        precedes(a, c),
    decreases a.len(),
{
    if a.len() > 0 && a[0] == b[0] && b[0] == c[0] {
        lemma_precedes_transitive(a.skip(1), b.skip(1), c.skip(1));
    }
}

/// Whether `a` comes before `b`, character by character.
pub fn comes_before(a: &str, b: &str) -> (yes: bool)
    ensures
        yes == precedes(a@, b@),
{
    let x: Vec<char> = chars_of(a);
    let y: Vec<char> = chars_of(b);
    let mut i: usize = 0;
    assert(a@.skip(0) =~= a@);
    assert(b@.skip(0) =~= b@);
    while i < x.len() && i < y.len() && x[i] == y[i]
        invariant
            x@ == a@,
            y@ == b@,
            i <= x@.len(),
            i <= y@.len(),
            precedes(a@.skip(i as int), b@.skip(i as int)) == precedes(a@, b@),
        decreases x.len() - i,
    {
        assert(a@.skip(i as int).skip(1) =~= a@.skip(i + 1));
        assert(b@.skip(i as int).skip(1) =~= b@.skip(i + 1));
        i += 1;
    }
    if i == y.len() {
        false
    } else if i == x.len() {
        true
    } else {
        x[i] < y[i]
    }
}

/// `s` with every `from` turned into `to`.
pub open spec fn swapped(s: Seq<char>, from: char, to: char) -> Seq<char> {
    s.map_values(
        |c: char|
            if c == from {
                to
            } else {
                c
            },
    )
}

/// Turns every `from` in `s` into `to`.
pub fn swap_chars(s: &str, from: char, to: char) -> (out: String)
    ensures
        out@ == swapped(s@, from, to),
{
    let chars: Vec<char> = chars_of(s);
    let mut out: String = String::new();
    for i in 0..chars.len()
        invariant
            chars@ == s@,
            out@ == swapped(s@.take(i as int), from, to),
    {
        let c: char = chars[i];
        out.push(
            if c == from {
                to
            } else {
                c
            },
        );
        assert(out@ =~= swapped(s@.take(i + 1), from, to));
    }
    assert(s@.take(s@.len() as int) =~= s@);
    out
}

/// `s` after `prefix`, where it begins with it.
pub open spec fn after_prefix(s: Seq<char>, prefix: Seq<char>) -> Option<Seq<char>> {
    if begins_with(s, prefix) {
        Some(s.skip(prefix.len() as int))
    } else {
        None
    }
}

/// What follows `prefix` in `s`, where it begins with it.
pub fn strip_prefix(s: &str, prefix: &str) -> (rest: Option<String>)
    ensures
        match rest {
            Some(r) => after_prefix(s@, prefix@) == Some(r@),
            None => after_prefix(s@, prefix@) is None,
        },
{
    let chars: Vec<char> = chars_of(s);
    let start: Vec<char> = chars_of(prefix);
    if matches_at(chars.as_slice(), start.as_slice(), 0) {
        assert(s@.subrange(start@.len() as int, s@.len() as int) =~= s@.skip(start@.len() as int));
        Some(string_of(&chars[start.len()..chars.len()]))
    } else {
        None
    }
}

/// `s` without the `c` at its end, however many.
pub open spec fn without_trailing(s: Seq<char>, c: char) -> Seq<char>
    decreases s.len(),
{
    if s.len() > 0 && s.last() == c {
        without_trailing(s.drop_last(), c)
    } else {
        s
    }
}

/// `s` without the `c` at its end, however many.
pub fn trim_trailing(s: &[char], c: char) -> (rest: &[char])
    ensures
        rest@ == without_trailing(s@, c),
{
    let mut to: usize = s.len();
    assert(s@.take(to as int) =~= s@);
    while to > 0 && s[to - 1] == c
        invariant
            to <= s@.len(),
            without_trailing(s@.take(to as int), c) == without_trailing(s@, c),
        decreases to,
    {
        assert(s@.take(to as int).drop_last() =~= s@.take(to - 1));
        to -= 1;
    }
    assert(s@.subrange(0, to as int) =~= s@.take(to as int));
    &s[0..to]
}

/// `s` without leading and trailing white space, as text.
pub fn trim_text(s: &str) -> (rest: String)
    ensures
        rest@ == trimmed(s@),
{
    string_of(trim(chars_of(s).as_slice()))
}

/// `n` in decimal, with a sign where it is negative.
pub open spec fn signed_decimal(n: int) -> Seq<char> {
    if n < 0 {
        seq!['-'] + decimal((-n) as nat)
    } else {
        decimal(n as nat)
    }
}

/// `n` in decimal, with a sign where it is negative.
pub fn signed_decimal_of(n: i32) -> (s: String)
    ensures
        s@ == signed_decimal(n as int),
{
    if n < 0 {
        let mut s: String = String::new();
        s.push('-');
        assert(s@ =~= seq!['-']);
        s.concat(decimal_of((-(n as i64)) as u64).as_str())
    } else {
        decimal_of(n as u64)
    }
}

/// What a list of texts holds.
pub open spec fn text_views(texts: Seq<String>) -> Seq<Seq<char>> {
    texts.map_values(|s: String| s@)
}

/// Appends a copy of `s` to `texts`.
pub fn push_text(texts: &mut Vec<String>, s: &str)
    ensures
        text_views(final(texts)@) == text_views(old(texts)@).push(s@),
{
    let ghost before = text_views(texts@);
    texts.push(String::from_str(s));
    assert(text_views(texts@) =~= before.push(s@));
}

// ---------------------------------------------------------------------------
// Laws
// ---------------------------------------------------------------------------

/// Only one text is what is left when the white space around a text is taken
/// off.
pub proof fn law_core_is_unique(s: Seq<char>, core: Seq<char>)
    requires
        is_core(s, core),
    ensures
        core == trimmed(s),
{
    law_trimming_takes_off_white_space_only(s);
    let own = trimmed(s);
    let (a, b) = choose|from: int, to: int|
        0 <= from <= to <= s.len() && core == #[trigger] s.subrange(from, to) && (forall|i: int|
            0 <= i < from ==> is_white_space(#[trigger] s[i])) && (forall|i: int|
            to <= i < s.len() ==> is_white_space(#[trigger] s[i])) && (core.len() > 0
            ==> !is_white_space(core[0]) && !is_white_space(core.last()));
    let (c, d) = choose|from: int, to: int|
        0 <= from <= to <= s.len() && own == #[trigger] s.subrange(from, to) && (forall|i: int|
            0 <= i < from ==> is_white_space(#[trigger] s[i])) && (forall|i: int|
            to <= i < s.len() ==> is_white_space(#[trigger] s[i])) && (own.len() > 0
            ==> !is_white_space(own[0]) && !is_white_space(own.last()));
    if core.len() > 0 {
        assert(core[0] == s[a] && core.last() == s[b - 1]);
        assert(!is_white_space(s[a]) && !is_white_space(s[b - 1]));
        assert(c <= a && b <= d);
    }
    if own.len() > 0 {
        assert(own[0] == s[c] && own.last() == s[d - 1]);
        assert(!is_white_space(s[c]) && !is_white_space(s[d - 1]));
        assert(a <= c && d <= b);
    }
    assert(core =~= own);
}

/// Lines are what stands between line feeds: none holds one, only the last may
/// lack an ending, and a carriage return in front of a line feed belongs to
/// the ending.
pub proof fn law_lines_are_split_at_line_feeds(s: Seq<char>)
    ensures
        forall|k: int|
            0 <= k < split_lines(s).len() ==> !(#[trigger] split_lines(s)[k]).text.contains('\n'),
        forall|k: int|
            0 <= k < split_lines(s).len() - 1 ==> (#[trigger] split_lines(s)[k]).ending
                != LineEnding::Missing,
        forall|k: int|
            0 <= k < split_lines(s).len() && (#[trigger] split_lines(s)[k]).ending == LineEnding::Lf
                && split_lines(s)[k].text.len() > 0 ==> split_lines(s)[k].text.last() != '\r',
        split_lines(s).len() == 0 <==> s.len() == 0,
        s.len() > 0 ==> (split_lines(s).last().ending == LineEnding::Missing <==> s.last() != '\n'),
    decreases s.len(),
{
    if s.len() > 0 {
        let end = position_from(s, '\n', 0);
        lemma_position_from(s, '\n', 0);
        let lines = split_lines(s);
        if end >= s.len() {
            assert forall|k: int| 0 <= k < s.len() implies s[k] != '\n' by {}
        } else {
            let rest = s.skip(end + 1);
            law_lines_are_split_at_line_feeds(rest);
            let first = terminated_line(s.take(end));
            assert forall|k: int| 0 <= k < first.text.len() implies first.text[k] != '\n' by {
                assert(first.text[k] == s[k]);
            }
            assert forall|k: int| 1 <= k < lines.len() implies #[trigger] lines[k] == split_lines(
                rest,
            )[k - 1] by {}
            if rest.len() > 0 {
                assert(rest.last() == s.last());
                assert(lines.last() == split_lines(rest).last());
            } else {
                assert(s.last() == s[end]);
            }
        }
    }
}

/// A number text holds digits only, but for a plus sign in front of them.
pub proof fn law_number_texts_hold_digits(s: Seq<char>, i: int)
    requires
        parsed_u64(s) is Some,
        0 <= i < s.len(),
    ensures
        '0' <= s[i] <= '9' || (i == 0 && s[i] == '+' && s.len() > 1),
{
    if s[0] == '+' {
        assert(s.skip(1).len() > 0);
        if i > 0 {
            assert(s.skip(1)[i - 1] == s[i]);
            lemma_digit_range(s[i]);
        }
    } else {
        lemma_digit_range(s[i]);
    }
}

proof fn lemma_digit_range(c: char)
    requires
        is_digit(c),
    ensures
        '0' <= c <= '9',
{
}

/// Leading zeros and a plus sign do not change the number.
pub proof fn law_leading_zeros_do_not_count(s: Seq<char>)
    requires
        s.len() > 0,
        forall|i: int| 0 <= i < s.len() ==> '0' <= #[trigger] s[i] <= '9',
    ensures
        parsed_u64(seq!['0'] + s) == parsed_u64(s),
        parsed_u64(seq!['+'] + s) == parsed_u64(s),
{
    lemma_leading_zero(s);
    let zero = seq!['0'] + s;
    assert(all_digits(s));
    assert forall|i: int| 0 <= i < zero.len() implies is_digit(#[trigger] zero[i]) by {
        if i > 0 {
            assert(zero[i] == s[i - 1]);
        }
    }
    assert(zero[0] == '0');
    assert(s[0] != '+');
    assert((seq!['+'] + s).skip(1) =~= s);
}

proof fn lemma_leading_zero(s: Seq<char>)
    ensures
        digits_value(seq!['0'] + s) == digits_value(s),
    decreases s.len(),
{
    let zero = seq!['0'] + s;
    if s.len() == 0 {
        assert(zero.drop_last() =~= Seq::<char>::empty());
        assert(digits_value(zero.drop_last()) == 0);
    } else {
        lemma_leading_zero(s.drop_last());
        assert(zero.drop_last() =~= seq!['0'] + s.drop_last());
    }
}

/// Character by character: lowering changes ASCII capitals only, and swapping
/// changes one character only.
pub proof fn law_letters_change_one_by_one(s: Seq<char>, from: char, to: char)
    ensures
        ascii_lowered(s).len() == s.len(),
        forall|i: int|
            0 <= i < s.len() ==> (#[trigger] ascii_lowered(s)[i]) == if 'A' <= s[i] <= 'Z' {
                (s[i] as u32 + 32) as char
            } else {
                s[i]
            },
        swapped(s, from, to).len() == s.len(),
        forall|i: int|
            0 <= i < s.len() ==> (#[trigger] swapped(s, from, to)[i]) == if s[i] == from {
                to
            } else {
                s[i]
            },
{
}

/// What a list of texts holds is its texts, one by one.
pub proof fn law_text_views_are_the_texts(texts: Seq<String>)
    ensures
        text_views(texts).len() == texts.len(),
        forall|i: int| 0 <= i < texts.len() ==> (#[trigger] text_views(texts)[i]) == texts[i]@,
{
}

/// Taking a character off the end of a text leaves the rest of it.
pub proof fn law_trailing_characters_are_taken_off(s: Seq<char>, c: char)
    ensures
        without_trailing(s, c).len() <= s.len(),
        without_trailing(s, c) == s.take(without_trailing(s, c).len() as int),
        forall|i: int| without_trailing(s, c).len() <= i < s.len() ==> #[trigger] s[i] == c,
        without_trailing(s, c).len() > 0 ==> without_trailing(s, c).last() != c,
    decreases s.len(),
{
    let rest = without_trailing(s, c);
    if s.len() > 0 && s.last() == c {
        law_trailing_characters_are_taken_off(s.drop_last(), c);
        assert(s.drop_last().take(rest.len() as int) =~= s.take(rest.len() as int));
        assert forall|i: int| rest.len() <= i < s.len() implies #[trigger] s[i] == c by {
            if i < s.len() - 1 {
                assert(s.drop_last()[i] == s[i]);
            }
        }
    } else {
        assert(s.take(s.len() as int) =~= s);
    }
}

/// Texts are ordered by the first character in which they differ, and a text
/// comes before any longer one that begins with it.
pub proof fn law_texts_are_ordered_by_their_first_difference(
    a: Seq<char>,
    b: Seq<char>,
    p: int,
)
    requires
        0 <= p <= a.len(),
        p <= b.len(),
        forall|i: int| 0 <= i < p ==> #[trigger] a[i] == b[i],
    ensures
        p < a.len() && p < b.len() && a[p] != b[p] ==> (precedes(a, b) <==> a[p] < b[p]),
        p == a.len() ==> (precedes(a, b) <==> a.len() < b.len()),
        p == b.len() ==> !precedes(a, b),
    decreases p,
{
    if p > 0 {
        let x = a.skip(1);
        let y = b.skip(1);
        assert(a[0] == b[0]);
        assert forall|i: int| 0 <= i < p - 1 implies #[trigger] x[i] == y[i] by {
            assert(a[i + 1] == b[i + 1]);
        }
        law_texts_are_ordered_by_their_first_difference(x, y, p - 1);
    }
}

/// A number is written in digits, without leading zeros, and with a sign just
/// where it is negative.
pub proof fn law_numbers_are_written_plainly(n: nat)
    ensures
        decimal(n).len() > 0,
        n > 0 ==> decimal(n)[0] != '0',
        n == 0 ==> decimal(n) == seq!['0'],
        forall|i: int| 0 <= i < decimal(n).len() ==> is_digit(#[trigger] decimal(n)[i]),
        signed_decimal(n as int) == decimal(n),
        n > 0 ==> signed_decimal(-(n as int)) == seq!['-'] + decimal(n),
    decreases n,
{
    lemma_decimal_digits(n);
    if n >= 10 {
        law_numbers_are_written_plainly(n / 10);
        assert(decimal(n)[0] == decimal(n / 10)[0]);
    } else {
        assert(decimal(n)[0] == digit(n));
        if n > 0 {
            assert(digit(n) as u32 == 48 + n);
        }
    }
}

/// What follows a prefix is the rest of the text.
pub proof fn law_prefixes_are_taken_off(prefix: Seq<char>, rest: Seq<char>, other: Seq<char>)
    ensures
        after_prefix(prefix + rest, prefix) == Some(rest),
        after_prefix(other, prefix) is Some ==> prefix + after_prefix(other, prefix).unwrap()
            == other,
{
    let whole = prefix + rest;
    assert(whole.subrange(0, prefix.len() as int) =~= prefix);
    assert(whole.skip(prefix.len() as int) =~= rest);
    if after_prefix(other, prefix) is Some {
        assert(prefix + other.skip(prefix.len() as int) =~= other) by {
            assert forall|i: int| 0 <= i < prefix.len() implies prefix[i] == other[i] by {
                assert(other.subrange(0, prefix.len() as int)[i] == other[i]);
            }
        }
    }
}

/// As many leading characters are counted as fit, and no more.
pub proof fn law_fitting_is_the_longest(s: Seq<char>, room: nat, n: int)
    requires
        0 <= n <= s.len(),
    ensures
        n <= fitting(s, room) <==> byte_len(s.take(n)) <= room,
    decreases s.len(),
{
    lemma_fitting_is_longest(s, room);
    let longest = fitting(s, room) as int;
    if n <= longest {
        lemma_shorter_takes_less(s, n, longest);
    } else {
        lemma_shorter_takes_less(s, longest + 1, n);
    }
}

proof fn lemma_shorter_takes_less(s: Seq<char>, a: int, b: int)
    requires
        0 <= a <= b <= s.len(),
    ensures
        byte_len(s.take(a)) <= byte_len(s.take(b)),
{
    lemma_byte_len_concat(s.take(a), s.subrange(a, b));
    assert(s.take(a) + s.subrange(a, b) =~= s.take(b));
}

/// Valid text is decoded to itself.
pub proof fn law_valid_text_is_decoded_to_itself(s: Seq<char>, bytes: Seq<u8>)
    ensures
        decoded_text(vstd::utf8::encode_utf8(s)) == s,
        vstd::utf8::valid_utf8(bytes) ==> vstd::utf8::encode_utf8(decoded_text(bytes)) == bytes,
{
    lemma_decoded_again(s);
    if vstd::utf8::valid_utf8(bytes) {
        vstd::utf8::decode_utf8_encode_utf8(bytes);
    }
}

/// A text occurs wherever it stands, and nowhere else: just where the whole is
/// something, the text, and something more.
pub proof fn law_occurrences_are_found_anywhere(
    front: Seq<char>,
    needle: Seq<char>,
    back: Seq<char>,
    hay: Seq<char>,
    at: int,
)
    ensures
        occurs(front + needle + back, needle),
        occurs_at(front + needle + back, needle, front.len() as int),
        begins_with(needle + back, needle),
        occurs_at(hay, needle, at) ==> 0 <= at && at + needle.len() <= hay.len() && hay == hay.take(
            at,
        ) + needle + hay.skip(at + needle.len()),
        occurs(hay, needle) ==> exists|at: int| #[trigger] occurs_at(hay, needle, at),
        begins_with(hay, needle) ==> hay == needle + hay.skip(needle.len() as int),
{
    let whole = front + needle + back;
    assert(whole.subrange(front.len() as int, (front.len() + needle.len()) as int) =~= needle);
    assert(occurs_at(whole, needle, front.len() as int));
    assert((needle + back).subrange(0, needle.len() as int) =~= needle);
    if occurs_at(hay, needle, at) {
        assert(hay.take(at) + hay.subrange(at, at + needle.len()) + hay.skip(at + needle.len())
            =~= hay);
    }
    if begins_with(hay, needle) {
        assert(hay.subrange(0, needle.len() as int) + hay.skip(needle.len() as int) =~= hay);
    }
}

/// What a list of lines is made of is its lines, one by one.
pub proof fn law_line_views_are_the_lines(lines: Seq<TextLine>)
    ensures
        line_views(lines).len() == lines.len(),
        forall|i: int|
            0 <= i < lines.len() ==> (#[trigger] line_views(lines)[i]).text == lines[i].text@
                && line_views(lines)[i].ending == lines[i].ending,
{
}

} // verus!
