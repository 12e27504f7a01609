//! Turning the current directory and a raw search term into the directory
//! to search from and the pattern left to match.
use vstd::prelude::*;
use vstd::string::*;
use crate::path::{parent, parent_of};
use crate::text::{chars_of, chars_eq, split_on, split_text, is_prefix, contains, is_prefix_exec, contains_exec};

verus! {

/// `d` without trailing separators (a lone separator is kept).
pub open spec fn without_trailing_seps(d: Seq<char>) -> Seq<char>
    decreases d.len(),
{
    if d.len() > 1 && d.last() == '/' {
        without_trailing_seps(d.drop_last())
    } else {
        d
    }
}

pub proof fn lemma_without_trailing_seps_no_longer(d: Seq<char>)
    ensures
        without_trailing_seps(d).len() <= d.len(),
    decreases d.len(),
{
    if d.len() > 1 && d.last() == '/' {
        lemma_without_trailing_seps_no_longer(d.drop_last());
    }
}

/// One level up from `d` (trailing separators aside), or `d` itself at
/// the top.
pub open spec fn parent_or_self(d: Seq<char>) -> Seq<char> {
    match parent_of(without_trailing_seps(d)) {
        Some(q) => q,
        None => d,
    }
}

fn without_trailing_seps_exec(d: &str) -> (r: String)
    ensures
        r@ == without_trailing_seps(d@),
{
    let cs = chars_of(d);
    let mut k: usize = cs.len();
    assert(d@.subrange(0, k as int) =~= d@);
    while k > 1 && cs[k - 1] == '/'
        invariant
            k <= cs@.len(),
            cs@ == d@,
            without_trailing_seps(d@) == without_trailing_seps(d@.subrange(0, k as int)),
        decreases k,
    {
        assert(d@.subrange(0, k as int).drop_last() =~= d@.subrange(0, k - 1));
        k = k - 1;
    }
    <String as StringExecFns>::from_str(d.substring_char(0, k))
}

/// Walks the pieces of a relative term from `dir`: empty and `.` pieces are
/// absorbed, `..` goes one level up, and the first other piece ends the walk
/// and becomes the pattern.
pub open spec fn walk(dir: Seq<char>, pieces: Seq<Seq<char>>) -> (Seq<char>, Seq<char>)
    decreases pieces.len(),
{
    if pieces.len() == 0 {
        (dir, Seq::<char>::empty())
    } else {
        let p = pieces[0];
        if p.len() == 0 || p == seq!['.'] {
            walk(dir, pieces.drop_first())
        } else if p == seq!['.', '.'] {
            walk(parent_or_self(dir), pieces.drop_first())
        } else {
            (dir, p)
        }
    }
}

/// Every character of `t` is `.` or `/`.
pub open spec fn only_dots_and_slashes(t: Seq<char>) -> bool {
    forall|k: int| 0 <= k < t.len() ==> t[k] == '.' || t[k] == '/'
}

/// The directory to search from and the pattern left, for a term typed in
/// directory `cwd`.
pub open spec fn resolved(cwd: Seq<char>, term: Seq<char>) -> (Seq<char>, Seq<char>) {
    if term.len() == 0 {
        (cwd, Seq::<char>::empty())
    } else if term == seq!['.', '.'] {
        (parent_or_self(cwd), Seq::<char>::empty())
    } else if term == seq!['.'] {
        (cwd, Seq::<char>::empty())
    } else if is_prefix(seq!['.', '/'], term) || is_prefix(seq!['.', '.', '/'], term) {
        walk(cwd, split_on(term, '/'))
    } else if only_dots_and_slashes(term) && contains(term, seq!['.', '.']) {
        if term[0] == '/' {
            (cwd, Seq::<char>::empty())
        } else {
            (walk(cwd, split_on(term, '/')).0, Seq::<char>::empty())
        }
    } else {
        (cwd, term)
    }
}

fn parent_or_self_exec(d: String) -> (r: String)
    ensures
        r@ == parent_or_self(d@),
{
    let t = without_trailing_seps_exec(d.as_str());
    match parent(t.as_str()) {
        Some(q) => q,
        None => d,
    }
}

fn walk_exec(dir: &str, pieces: &Vec<String>) -> (r: (String, String))
    ensures
        (r.0@, r.1@) == walk(dir@, pieces@.map_values(|x: String| x@)),
{
    let ghost all = pieces@.map_values(|x: String| x@);
    let mut d = <String as StringExecFns>::from_str(dir);
    let mut i: usize = 0;
    let dot = chars_of(".");
    let dots = chars_of("..");
    proof {
        reveal_strlit(".");
        reveal_strlit("..");
        assert(dot@ =~= seq!['.']);
        assert(dots@ =~= seq!['.', '.']);
        assert(all.skip(0) =~= all);
    }
    while i < pieces.len()
        invariant
            i <= pieces@.len(),
            all == pieces@.map_values(|x: String| x@),
            dot@ == seq!['.'],
            dots@ == seq!['.', '.'],
            walk(dir@, all) == walk(d@, all.skip(i as int)),
        decreases pieces.len() - i,
    {
        let p = chars_of(pieces[i].as_str());
        proof {
            assert(all.skip(i as int)[0] == p@);
            assert(all.skip(i as int).drop_first() =~= all.skip(i + 1));
        }
        if p.len() == 0 || chars_eq(&p, &dot) {
        } else if chars_eq(&p, &dots) {
            d = parent_or_self_exec(d);
        } else {
            return (d, pieces[i].clone());
        }
        i = i + 1;
    }
    (d, String::new())
}

fn only_dots_and_slashes_exec(t: &Vec<char>) -> (r: bool)
    ensures
        r == only_dots_and_slashes(t@),
{
    let mut k: usize = 0;
    while k < t.len()
        invariant
            k <= t@.len(),
            forall|j: int| 0 <= j < k ==> t@[j] == '.' || t@[j] == '/',
        decreases t.len() - k,
    {
        if t[k] != '.' && t[k] != '/' {
            return false;
        }
        k = k + 1;
    }
    true
}

/// The directory to search from and the pattern left to match, for a term
/// typed in `current_dir`: `.` and `..` navigate without a pattern, a term
/// led by `./` or `../` is walked until its first ordinary component, a term
/// of dots and slashes only ascends one level per `..`, and any other term
/// is searched for from `current_dir` as it stands.
pub fn resolve_search_context(current_dir: &str, search_term: &str) -> (r: (String, String))
    ensures
        (r.0@, r.1@) == resolved(current_dir@, search_term@),
{
    let t = chars_of(search_term);
    let cwd = <String as StringExecFns>::from_str(current_dir);
    let dot = chars_of(".");
    let dots = chars_of("..");
    let dot_slash = chars_of("./");
    let dots_slash = chars_of("../");
    proof {
        reveal_strlit(".");
        reveal_strlit("..");
        reveal_strlit("./");
        reveal_strlit("../");
        assert(dot@ =~= seq!['.']);
        assert(dots@ =~= seq!['.', '.']);
        assert(dot_slash@ =~= seq!['.', '/']);
        assert(dots_slash@ =~= seq!['.', '.', '/']);
    }
    if t.len() == 0 {
        return (cwd, String::new());
    }
    if chars_eq(&t, &dots) {
        return (parent_or_self_exec(cwd), String::new());
    }
    if chars_eq(&t, &dot) {
        return (cwd, String::new());
    }
    if is_prefix_exec(&dot_slash, &t) || is_prefix_exec(&dots_slash, &t) {
        let pieces = split_text(search_term, '/');
        return walk_exec(current_dir, &pieces);
    }
    if only_dots_and_slashes_exec(&t) && contains_exec(&t, &dots) {
        if t[0] == '/' {
            return (cwd, String::new());
        }
        let pieces = split_text(search_term, '/');
        let (d, _) = walk_exec(current_dir, &pieces);
        return (d, String::new());
    }
    (cwd, <String as StringExecFns>::from_str(search_term))
}

pub proof fn lemma_walk_no_longer(dir: Seq<char>, pieces: Seq<Seq<char>>)
    ensures
        walk(dir, pieces).0.len() <= dir.len(),
    decreases pieces.len(),
{
    if pieces.len() > 0 {
        let p = pieces[0];
        if p.len() == 0 || p == seq!['.'] {
            lemma_walk_no_longer(dir, pieces.drop_first());
        } else if p == seq!['.', '.'] {
            lemma_without_trailing_seps_no_longer(dir);
            if parent_of(without_trailing_seps(dir)) is Some {
                crate::path::lemma_parent_shorter(without_trailing_seps(dir));
            }
            lemma_walk_no_longer(parent_or_self(dir), pieces.drop_first());
        }
    }
}

/// The directory a term resolves to is never longer than the one it was
/// typed in.
pub proof fn lemma_resolved_no_longer(cwd: Seq<char>, term: Seq<char>)
    ensures
        resolved(cwd, term).0.len() <= cwd.len(),
{
    lemma_walk_no_longer(cwd, split_on(term, '/'));
    lemma_without_trailing_seps_no_longer(cwd);
    if parent_of(without_trailing_seps(cwd)) is Some {
        crate::path::lemma_parent_shorter(without_trailing_seps(cwd));
    }
}

} // verus!
