//! The ignore list: regular expressions read from one ignore file, each
//! tested against bare directory names.
use vstd::prelude::*;
use vstd::string::*;
use crate::text::{split_on, lemma_split_on_nonempty};

verus! {

/// Most patterns loaded from one ignore file.
pub const MAX_IGNORE_PATTERNS: usize = 100;

/// Ceiling on the compiled size of one pattern, in bytes.
pub const MAX_COMPILED_REGEX_SIZE: usize = 1000000;

/// `regex::Regex`, a compiled pattern, carried through opaquely.
#[verifier::external_type_specification]
#[verifier::external_body]
pub struct ExRegex(regex::Regex);

/// Whether a pattern compiles under a size ceiling.
pub uninterp spec fn pattern_compiles(pattern: Seq<char>, size_limit: nat) -> bool;

/// Whether a compiled pattern finds a match anywhere in a name.
pub uninterp spec fn pattern_matches(pattern: Seq<char>, name: Seq<char>) -> bool;

/// What `str::trim` leaves of a line.
pub uninterp spec fn trimmed_of(line: Seq<char>) -> Seq<char>;

/// A compiled ignore pattern, together with the text it was compiled from.
pub struct IgnorePattern {
    source: String,
    regex: regex::Regex,
}

impl IgnorePattern {
    /// The text the pattern was compiled from.
    pub closed spec fn source_text(&self) -> Seq<char> {
        self.source@
    }

    /// The text the pattern was compiled from.
    pub fn source(&self) -> (r: &str)
        ensures
            r@ == self.source_text(),
    {
        self.source.as_str()
    }
}

/// Relies on `regex::RegexBuilder::new`, `size_limit` and `build`: whether
/// the line compiles depends on the line and the ceiling alone.
#[verifier::external_body]
fn compile_pattern(line: &str, size_limit: usize) -> (r: Option<IgnorePattern>)
    ensures
        r is Some <==> pattern_compiles(line@, size_limit as nat),
        r matches Some(p) ==> p.source_text() == line@,
{
    match regex::RegexBuilder::new(line).size_limit(size_limit).build() {
        Ok(regex) => Some(IgnorePattern { source: line.to_string(), regex }),
        Err(_) => None,
    }
}

/// Relies on `regex::Regex::is_match`: an unanchored search of `name` with
/// the pattern compiled from `p`'s source text.
#[verifier::external_body]
fn pattern_is_match(p: &IgnorePattern, name: &str) -> (r: bool)
    ensures
        r == pattern_matches(p.source_text(), name@),
{
    p.regex.is_match(name)
}

/// Relies on `str::trim`: leading and trailing white space removed.
#[verifier::external_body]
fn trim(line: &str) -> (r: String)
    ensures
        r@ == trimmed_of(line@),
{
    line.trim().to_string()
}

/// A line that yields a pattern: after trimming it is not empty, is no
/// comment, and compiles under the ceiling.
pub open spec fn yields_pattern(line: Seq<char>) -> bool {
    let t = trimmed_of(line);
    t.len() > 0 && t[0] != '#' && pattern_compiles(t, MAX_COMPILED_REGEX_SIZE as nat)
}

/// The source texts of the patterns loaded from `lines`: every line that
/// yields a pattern, trimmed, in order, until the cap is reached.
pub open spec fn loaded_sources(lines: Seq<Seq<char>>) -> Seq<Seq<char>>
    decreases lines.len(),
{
    if lines.len() == 0 {
        Seq::<Seq<char>>::empty()
    } else {
        let r = loaded_sources(lines.drop_last());
        if yields_pattern(lines.last()) && r.len() < MAX_IGNORE_PATTERNS {
            r.push(trimmed_of(lines.last()))
        } else {
            r
        }
    }
}

pub proof fn lemma_loaded_sources_capped(lines: Seq<Seq<char>>)
    ensures
        loaded_sources(lines).len() <= MAX_IGNORE_PATTERNS,
    decreases lines.len(),
{
    if lines.len() > 0 {
        lemma_loaded_sources_capped(lines.drop_last());
    }
}

/// The source texts of a list of patterns.
pub open spec fn sources(ps: Seq<IgnorePattern>) -> Seq<Seq<char>> {
    ps.map_values(|p: IgnorePattern| p.source_text())
}

/// A name is ignored when some pattern of the list matches it.
pub open spec fn ignored(ps: Seq<IgnorePattern>, name: Seq<char>) -> bool {
    exists|i: int| 0 <= i < ps.len() && pattern_matches(#[trigger] ps[i].source_text(), name)
}

/// Adds the pattern of one line, where the line yields one and the cap
/// is not reached.
fn take_line(out: &mut Vec<IgnorePattern>, line: &str)
    ensures
        sources(final(out)@) == ({
            let r = sources(old(out)@);
            if yields_pattern(line@) && r.len() < MAX_IGNORE_PATTERNS {
                r.push(trimmed_of(line@))
            } else {
                r
            }
        }),
{
    let t = trim(line);
    let tc = crate::text::chars_of(t.as_str());
    assert(sources(out@).len() == out@.len());
    if tc.len() == 0 || tc[0] == '#' || out.len() >= MAX_IGNORE_PATTERNS {
        return;
    }
    match compile_pattern(t.as_str(), MAX_COMPILED_REGEX_SIZE) {
        Some(p) => {
            let ghost before = out@;
            out.push(p);
            assert(sources(out@) =~= sources(before).push(trimmed_of(line@)));
        },
        None => {},
    }
}

/// The patterns of an ignore file's content: each line that is neither blank
/// nor a comment is trimmed and compiled; lines that do not compile are
/// skipped, and loading stops at the cap.
pub fn parse_ignore_patterns(content: &str) -> (r: Vec<IgnorePattern>)
    ensures
        sources(r@) == loaded_sources(split_on(content@, '\n')),
        r@.len() <= MAX_IGNORE_PATTERNS,
{
    let cs = crate::text::chars_of(content);
    let mut out: Vec<IgnorePattern> = Vec::new();
    let mut start: usize = 0;
    let mut i: usize = 0;
    proof {
        assert(content@.subrange(0, 0) =~= Seq::<char>::empty());
        assert(sources(out@) =~= Seq::<Seq<char>>::empty());
    }
    while i < cs.len()
        invariant
            cs@ == content@,
            start <= i <= cs@.len(),
            split_on(content@.subrange(0, i as int), '\n').len() >= 1,
            split_on(content@.subrange(0, i as int), '\n').last() == content@.subrange(start as int, i as int),
            sources(out@) == loaded_sources(split_on(content@.subrange(0, i as int), '\n').drop_last()),
        decreases cs.len() - i,
    {
        let ghost pre = content@.subrange(0, i as int);
        let ghost next = content@.subrange(0, i + 1);
        proof {
            assert(next.drop_last() =~= pre);
            lemma_split_on_nonempty(pre, '\n');
        }
        if cs[i] == '\n' {
            let line = content.substring_char(start, i);
            take_line(&mut out, line);
            proof {
                let sp = split_on(pre, '\n');
                assert(split_on(next, '\n') == sp.push(Seq::<char>::empty()));
                assert(split_on(next, '\n').drop_last() =~= sp);
                assert(sp =~= sp.drop_last().push(sp.last()));
                assert(content@.subrange(i + 1, i + 1) =~= Seq::<char>::empty());
            }
            start = i + 1;
        } else {
            proof {
                let sp = split_on(pre, '\n');
                assert(split_on(next, '\n').drop_last() =~= sp.drop_last());
                assert(content@.subrange(start as int, i + 1) =~= sp.last().push(cs@[i as int]));
            }
        }
        i = i + 1;
    }
    let line = content.substring_char(start, cs.len());
    take_line(&mut out, line);
    proof {
        let sp = split_on(content@.subrange(0, cs@.len() as int), '\n');
        assert(content@.subrange(0, cs@.len() as int) =~= content@);
        assert(sp =~= sp.drop_last().push(sp.last()));
        lemma_loaded_sources_capped(split_on(content@, '\n'));
        assert(sources(out@).len() == out@.len());
    }
    out
}

/// Whether some pattern of the list matches the bare directory name.
pub fn should_ignore_directory(name: &str, patterns: &Vec<IgnorePattern>) -> (r: bool)
    ensures
        r == ignored(patterns@, name@),
{
    let mut i: usize = 0;
    while i < patterns.len()
        invariant
            i <= patterns@.len(),
            forall|k: int| 0 <= k < i ==> !pattern_matches(#[trigger] patterns@[k].source_text(), name@),
        decreases patterns.len() - i,
    {
        if pattern_is_match(&patterns[i], name) {
            return true;
        }
        i = i + 1;
    }
    false
}

/// The patterns of the first ignore file that could be read, given what
/// reading each candidate location gave, in priority order (`None` where it
/// could not be read); none when no candidate could be read.
pub fn load_ignore_patterns(contents: &Vec<Option<String>>) -> (r: Vec<IgnorePattern>)
    ensures
        (exists|k: int| 0 <= k < contents@.len() && #[trigger] contents@[k] is Some) ==> exists|k: int|
            0 <= k < contents@.len() && #[trigger] contents@[k] is Some && (forall|j: int| 0 <= j < k ==> contents@[j] is None)
                && sources(r@) == loaded_sources(split_on(contents@[k]->0@, '\n')),
        (forall|k: int| 0 <= k < contents@.len() ==> contents@[k] is None) ==> r@.len() == 0,
{
    let mut i: usize = 0;
    while i < contents.len()
        invariant
            i <= contents@.len(),
            forall|j: int| 0 <= j < i ==> contents@[j] is None,
        decreases contents.len() - i,
    {
        match &contents[i] {
            Some(text) => {
                let r = parse_ignore_patterns(text.as_str());
                assert(contents@[i as int] is Some);
                return r;
            },
            None => {},
        }
        i = i + 1;
    }
    Vec::new()
}

} // verus!
