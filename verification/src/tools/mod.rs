//! The tools offered to clients, and what they share.
use crate::text;
use vstd::prelude::*;

pub mod command;
pub mod discovery;
pub mod files;
pub mod git;
pub mod glob;
pub mod patch;
pub mod search;
pub mod workspace_info;

verus! {

broadcast use vstd::string::group_string_axioms;

/// Names of version-control metadata directories. They are compared without
/// regard to ASCII case, since on many systems `.GIT` is `.git`.
pub open spec fn is_vcs_name(name: Seq<char>) -> bool {
    let lowered = text::ascii_lowered(name);
    lowered == ".git"@ || lowered == ".hg"@ || lowered == ".svn"@
}

/// Names of generated directories.
pub open spec fn is_generated_name(name: Seq<char>) -> bool {
    ||| name == "node_modules"@
    ||| name == "target"@
    ||| name == "__pycache__"@
    ||| name == ".venv"@
    ||| name == "venv"@
    ||| name == "dist"@
    ||| name == ".next"@
    ||| name == ".cache"@
    ||| name == "coverage"@
}

/// Whether `name` is that of a version-control metadata directory.
pub fn is_vcs_metadata_dir(name: &str) -> (yes: bool)
    ensures
        yes == is_vcs_name(name@),
{
    let lowered: String = text::lower_ascii(name);
    text::same_text(lowered.as_str(), ".git") || text::same_text(lowered.as_str(), ".hg")
        || text::same_text(lowered.as_str(), ".svn")
}

/// Whether `name` is that of a generated directory.
pub fn is_generated_dir(name: &str) -> (yes: bool)
    ensures
        yes == is_generated_name(name@),
{
    text::same_text(name, "node_modules") || text::same_text(name, "target") || text::same_text(
        name,
        "__pycache__",
    ) || text::same_text(name, ".venv") || text::same_text(name, "venv") || text::same_text(
        name,
        "dist",
    ) || text::same_text(name, ".next") || text::same_text(name, ".cache") || text::same_text(
        name,
        "coverage",
    )
}

/// Whether a directory of this name is left out of listings.
pub fn is_generated_or_vcs_dir(name: &str) -> (yes: bool)
    ensures
        yes == (is_vcs_name(name@) || is_generated_name(name@)),
{
    is_vcs_metadata_dir(name) || is_generated_dir(name)
}

/// Version-control names are recognised whatever the case of their letters.
pub proof fn law_vcs_names_ignore_case(a: Seq<char>, b: Seq<char>)
    requires
        text::ascii_lowered(a) == text::ascii_lowered(b),
    ensures
        is_vcs_name(a) == is_vcs_name(b),
{
}

/// `line` if it fits into `max_bytes` bytes, and otherwise the longest prefix
/// that does, with a mark that something was cut off.
pub open spec fn clipped(line: Seq<char>, max_bytes: nat) -> Seq<char> {
    if text::byte_len(line) <= max_bytes {
        line
    } else {
        line.take(text::fitting(line, max_bytes) as int) + "[…]"@
    }
}

/// Clips a text to at most `max_bytes` bytes of UTF-8 on a character
/// boundary, and tells whether something was cut off.
pub fn clip_line(line: &str, max_bytes: usize) -> (result: (String, bool))
    ensures
        result.0@ == clipped(line@, max_bytes as nat),
        result.1 == (text::byte_len(line@) > max_bytes),
{
    if text::byte_len_of(line) <= max_bytes {
        return (String::from_str(line), false);
    }
    let chars: Vec<char> = text::chars_of(line);
    let count: usize = text::count_fitting(chars.as_slice(), max_bytes);
    let head: String = text::string_of(&chars[0..count]);
    assert(head@ =~= line@.take(count as int));
    (head.concat("[…]"), true)
}

/// A clipped text is at most five bytes longer than its bound, and what it
/// keeps is a prefix of the text.
pub proof fn law_clipped_is_bounded_prefix(line: Seq<char>, max_bytes: nat)
    ensures
        text::byte_len(clipped(line, max_bytes)) <= max_bytes + 5,
        text::byte_len(line) > max_bytes ==> exists|n: int|
            0 <= n < line.len() && #[trigger] line.take(n) + "[…]"@ == clipped(line, max_bytes)
                && text::byte_len(line.take(n)) <= max_bytes < text::byte_len(line.take(n + 1)),
{
    text::lemma_fitting_is_longest(line, max_bytes);
    let n = text::fitting(line, max_bytes) as int;
    if text::byte_len(line) > max_bytes {
        if n == line.len() {
            assert(line.take(n) =~= line);
        }
        assert(text::byte_len("[…]"@) == 5) by {
            reveal_strlit("[…]");
            let mark = "[…]"@;
            text::lemma_byte_len_first(mark);
            text::lemma_byte_len_first(mark.skip(1));
            text::lemma_byte_len_first(mark.skip(1).skip(1));
            assert(mark.skip(1).skip(1).skip(1) =~= Seq::<char>::empty());
        }
        text::lemma_byte_len_concat(line.take(n), "[…]"@);
        assert(line.take(n) + "[…]"@ == clipped(line, max_bytes));
    }
}

/// The head of a stream, up to a cap.
#[derive(Debug)]
pub struct CappedBytes {
    /// The kept bytes.
    pub bytes: Vec<u8>,
    /// Whether the stream was longer than the cap.
    pub truncated: bool,
}

impl CappedBytes {
    /// Whether this is what is kept of `stream` under `cap`.
    pub open spec fn caps(self, stream: Seq<u8>, cap: nat) -> bool {
        &&& self.truncated == (stream.len() > cap)
        &&& self.bytes@ == if stream.len() > cap {
            stream.take(cap as int)
        } else {
            stream
        }
    }

    /// Nothing read yet.
    pub fn empty() -> (capped: CappedBytes)
        ensures
            forall|cap: nat| #[trigger] capped.caps(Seq::empty(), cap),
    {
        CappedBytes { bytes: Vec::new(), truncated: false }
    }

    /// Takes in the next chunk of the stream: whatever was kept of the stream
    /// before, afterwards it is what is kept of the stream with the chunk.
    pub fn accept(&mut self, chunk: &[u8], cap: usize)
        requires
            old(self).bytes@.len() <= cap,
        ensures
            forall|stream: Seq<u8>|
                old(self).caps(stream, cap as nat) ==> #[trigger] final(self).caps(
                    stream + chunk@,
                    cap as nat,
                ),
            final(self).bytes@.len() <= cap,
    {
        let room: usize = cap - self.bytes.len();
        let ghost before = self.bytes@;
        let ghost was_truncated = self.truncated;
        let take: usize = if chunk.len() < room {
            chunk.len()
        } else {
            room
        };
        let mut i: usize = 0;
        while i < take
            invariant
                i <= take <= chunk@.len(),
                self.bytes@ == before + chunk@.take(i as int),
                self.truncated == was_truncated,
            decreases take - i,
        {
            self.bytes.push(chunk[i]);
            assert(before + chunk@.take(i + 1) =~= (before + chunk@.take(i as int)).push(
                chunk@[i as int],
            ));
            i += 1;
        }
        if take < chunk.len() {
            self.truncated = true;
        }
        assert forall|stream: Seq<u8>| old(self).caps(stream, cap as nat) implies #[trigger] self.caps(
            stream + chunk@,
            cap as nat,
        ) by {
            let whole = stream + chunk@;
            if stream.len() > cap {
                assert(chunk@.take(0) =~= Seq::<u8>::empty());
                assert(self.bytes@ =~= whole.take(cap as int));
            } else if whole.len() > cap {
                assert(self.bytes@ =~= whole.take(cap as int));
            } else {
                assert(self.bytes@ =~= whole);
            }
        }
    }
}

/// What is kept of a stream is its head, as much of it as the cap allows, and
/// that something is missing is told just where it is.
pub proof fn law_kept_output_is_the_head(capped: CappedBytes, stream: Seq<u8>, cap: nat)
    requires
        capped.caps(stream, cap),
    ensures
        capped.bytes@.len() <= cap,
        capped.bytes@.len() <= stream.len(),
        forall|i: int| 0 <= i < capped.bytes@.len() ==> #[trigger] capped.bytes@[i] == stream[i],
        capped.truncated <==> capped.bytes@.len() < stream.len(),
        capped.bytes@.len() < stream.len() ==> capped.bytes@.len() == cap,
{
}

/// Every stream has exactly one head under a cap, whatever chunks it came in.
pub proof fn law_chunks_do_not_matter(
    one: CappedBytes,
    other: CappedBytes,
    stream: Seq<u8>,
    cap: nat,
)
    requires
        one.caps(stream, cap),
        other.caps(stream, cap),
    ensures
        one.bytes@ == other.bytes@,
        one.truncated == other.truncated,
{
}

/// The metadata of git, Mercurial and Subversion is recognised in any case,
/// and nothing else is.
pub proof fn law_vcs_names(name: Seq<char>)
    ensures
        is_vcs_name(name) <==> {
            ||| name.len() == 4 && name[0] == '.' && (name[1] == 'g' || name[1] == 'G') && (name[2]
                == 'i' || name[2] == 'I') && (name[3] == 't' || name[3] == 'T')
            ||| name.len() == 3 && name[0] == '.' && (name[1] == 'h' || name[1] == 'H') && (name[2]
                == 'g' || name[2] == 'G')
            ||| name.len() == 4 && name[0] == '.' && (name[1] == 's' || name[1] == 'S') && (name[2]
                == 'v' || name[2] == 'V') && (name[3] == 'n' || name[3] == 'N')
        },
{
    reveal_strlit(".git");
    reveal_strlit(".hg");
    reveal_strlit(".svn");
    let lowered = text::ascii_lowered(name);
    assert(lowered.len() == name.len());
    assert forall|i: int| 0 <= i < name.len() implies #[trigger] lowered[i] == text::ascii_lower(
        name[i],
    ) by {}
    if name.len() == 4 {
        lemma_lower(name[0]);
        lemma_lower(name[1]);
        lemma_lower(name[2]);
        lemma_lower(name[3]);
        assert(lowered == ".git"@ <==> lowered[0] == '.' && lowered[1] == 'g' && lowered[2] == 'i'
            && lowered[3] == 't') by {
            if lowered[0] == '.' && lowered[1] == 'g' && lowered[2] == 'i' && lowered[3] == 't' {
                assert(lowered =~= ".git"@);
            }
        }
        assert(lowered == ".svn"@ <==> lowered[0] == '.' && lowered[1] == 's' && lowered[2] == 'v'
            && lowered[3] == 'n') by {
            if lowered[0] == '.' && lowered[1] == 's' && lowered[2] == 'v' && lowered[3] == 'n' {
                assert(lowered =~= ".svn"@);
            }
        }
    } else if name.len() == 3 {
        lemma_lower(name[0]);
        lemma_lower(name[1]);
        lemma_lower(name[2]);
        assert(lowered == ".hg"@ <==> lowered[0] == '.' && lowered[1] == 'h' && lowered[2] == 'g')
            by {
            if lowered[0] == '.' && lowered[1] == 'h' && lowered[2] == 'g' {
                assert(lowered =~= ".hg"@);
            }
        }
    }
}

proof fn lemma_lower(c: char)
    ensures
        text::ascii_lower(c) == '.' <==> c == '.',
        text::ascii_lower(c) == 'g' <==> c == 'g' || c == 'G',
        text::ascii_lower(c) == 'i' <==> c == 'i' || c == 'I',
        text::ascii_lower(c) == 't' <==> c == 't' || c == 'T',
        text::ascii_lower(c) == 'h' <==> c == 'h' || c == 'H',
        text::ascii_lower(c) == 's' <==> c == 's' || c == 'S',
        text::ascii_lower(c) == 'v' <==> c == 'v' || c == 'V',
        text::ascii_lower(c) == 'n' <==> c == 'n' || c == 'N',
{
}

/// The generated directories, each by its exact name.
pub proof fn law_generated_names(name: Seq<char>)
    ensures
        is_generated_name(name) <==> seq![
            "node_modules"@,
            "target"@,
            "__pycache__"@,
            ".venv"@,
            "venv"@,
            "dist"@,
            ".next"@,
            ".cache"@,
            "coverage"@,
        ].contains(name),
{
    let names = seq![
        "node_modules"@,
        "target"@,
        "__pycache__"@,
        ".venv"@,
        "venv"@,
        "dist"@,
        ".next"@,
        ".cache"@,
        "coverage"@,
    ];
    assert(names[0] == "node_modules"@);
    assert(names[1] == "target"@);
    assert(names[2] == "__pycache__"@);
    assert(names[3] == ".venv"@);
    assert(names[4] == "venv"@);
    assert(names[5] == "dist"@);
    assert(names[6] == ".next"@);
    assert(names[7] == ".cache"@);
    assert(names[8] == "coverage"@);
}

/// A text that fits is kept whole.
pub proof fn law_fitting_texts_are_kept(line: Seq<char>, max_bytes: nat)
    requires
        text::byte_len(line) <= max_bytes,
    ensures
        clipped(line, max_bytes) == line,
{
}

} // verus!
