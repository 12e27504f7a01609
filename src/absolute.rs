//! The absolute-path searcher: an existing directory is itself the match, a
//! trailing separator lists a directory's subdirectories, and otherwise the
//! search starts from the longest existing prefix of the path.
//!
//! Whether a path is an existing directory is told by a probe handed in by
//! the caller.
use vstd::prelude::*;
use crate::budget::SearchContext;
use crate::ignore::{IgnorePattern, ignored};
use crate::path::parent;
use crate::ranking::{DirectoryMatch, MatchQuality, paths_distinct, represents};
use crate::search::{child_of, names_include, reachable, ancestor, breadth_first_search, scan_directory, valid_down_match, records_listing, child_qualifies};
use crate::path::{join, name_of};
use crate::text::{chars_of, folded, split_on, split_text};

verus! {

/// What follows `root` and its separator in `term`.
pub open spec fn remainder_after(term: Seq<char>, root: Seq<char>) -> Seq<char> {
    let k = if root.len() > 0 && root.last() == '/' { root.len() as int } else { (root.len() + 1) as int };
    if k <= term.len() {
        term.subrange(k, term.len() as int)
    } else {
        Seq::<char>::empty()
    }
}

/// The first component of `term` after `root`.
pub open spec fn first_component_after(term: Seq<char>, root: Seq<char>) -> Seq<char> {
    split_on(remainder_after(term, root), '/')[0]
}

fn first_component_after_exec(term: &str, root: &str) -> (r: String)
    ensures
        r@ == first_component_after(term@, root@),
{
    let tc = chars_of(term);
    let rc = chars_of(root);
    let sep_ends = rc.len() > 0 && rc[rc.len() - 1] == '/';
    let rest: &str = if sep_ends && rc.len() <= tc.len() {
        term.substring_char(rc.len(), tc.len())
    } else if !sep_ends && rc.len() < tc.len() {
        term.substring_char(rc.len() + 1, tc.len())
    } else {
        ""
    };
    proof {
        reveal_strlit("");
        assert(""@ =~= Seq::<char>::empty());
    }
    let pieces = split_text(rest, '/');
    proof {
        crate::text::lemma_split_on_nonempty(rest@, '/');
        assert(pieces@.map_values(|x: String| x@)[0] == pieces@[0]@);
    }
    pieces[0].clone()
}

/// `is_dir` answered `answer` for the path `a`.
pub open spec fn answered<D: Fn(&str) -> bool>(is_dir: &D, a: Seq<char>, answer: bool) -> bool {
    exists|s: &str| s@ == a && #[trigger] is_dir.ensures((s,), answer)
}

/// The ancestor `j` levels above `term` is passed over as a search root:
/// `is_dir` rejected it, or no component follows it in `term`.
pub open spec fn passed_over<D: Fn(&str) -> bool>(is_dir: &D, term: Seq<char>, j: nat) -> bool {
    match ancestor(term, j) {
        Some(a) => answered(is_dir, a, false) || first_component_after(term, a).len() == 0,
        None => true,
    }
}

/// `root` is where a search for the missing path `term` starts: the closest
/// ancestor that `is_dir` accepted and after which a component follows, or
/// the root when every ancestor was passed over.
pub open spec fn is_search_root<D: Fn(&str) -> bool>(is_dir: &D, term: Seq<char>, root: Seq<char>) -> bool {
    (exists|k: nat|
        k >= 1 && ancestor(term, k) == Some(root) && answered(is_dir, root, true)
            && first_component_after(term, root).len() > 0
            && forall|j: nat| 1 <= j < k ==> #[trigger] passed_over(is_dir, term, j))
        || (root == seq!['/'] && forall|j: nat| j >= 1 ==> #[trigger] passed_over(is_dir, term, j))
}

/// What listing `dir` gives: its qualifying subdirectories as prefix
/// matches at depth 1 (all of those the lister returned), or `dir` itself
/// when there are none.
pub open spec fn listing_of_dir<L: Fn(&str) -> Option<Vec<String>>>(
    list_dir: &L,
    r: Seq<DirectoryMatch>,
    dir: &str,
    ps: Seq<IgnorePattern>,
    case_sensitive: bool,
) -> bool {
    &&& r.len() >= 1
    &&& exists|ls: Option<Vec<String>>| #[trigger] list_dir.ensures((dir,), ls) && listed_or_self(r, dir@, ls, ps, case_sensitive)
}

/// `r` is exactly `dir` itself, at depth 0, as an exact match.
pub open spec fn is_self_match(r: Seq<DirectoryMatch>, dir: Seq<char>) -> bool {
    r.len() == 1 && r[0].path@ == dir && r[0].depth_from_current == 0 && r[0].match_quality == MatchQuality::ExactDown
}

/// Some name of `names` is a plain, non-empty, non-ignored name.
pub open spec fn lists_qualifying(names: Seq<String>, ps: Seq<IgnorePattern>, case_sensitive: bool) -> bool {
    exists|j: int| 0 <= j < names.len() && child_qualifies(#[trigger] names[j]@, Seq::<char>::empty(), ps, case_sensitive)
}

/// Given the listing `ls` of `dir`: when it holds a qualifying name, `r`
/// holds every qualifying name and nothing else, each as a prefix match at
/// depth 1; otherwise `r` is `dir` itself.
pub open spec fn listed_or_self(
    r: Seq<DirectoryMatch>,
    dir: Seq<char>,
    ls: Option<Vec<String>>,
    ps: Seq<IgnorePattern>,
    case_sensitive: bool,
) -> bool {
    if ls is Some && lists_qualifying(ls->0@, ps, case_sensitive) {
        &&& records_listing(r, dir, ls->0@, Seq::<char>::empty(), ps, case_sensitive)
        &&& forall|i: int|
            0 <= i < r.len() ==> (#[trigger] r[i]).depth_from_current == 1 && r[i].match_quality == MatchQuality::PrefixDown
                && valid_down_match(r[i], Seq::<char>::empty(), ps, case_sensitive) && child_of(dir, r[i].path@, ps)
                && names_include(ls->0@, name_of(r[i].path@))
    } else {
        is_self_match(r, dir)
    }
}

/// The result of searching for the missing path `t` from its search root:
/// every qualifying subdirectory that the lister returned for the root is
/// recorded.
pub open spec fn searched_from_root<L: Fn(&str) -> Option<Vec<String>>, D: Fn(&str) -> bool>(
    list_dir: &L,
    is_dir: &D,
    r: Seq<DirectoryMatch>,
    t: Seq<char>,
    ps: Seq<IgnorePattern>,
    case_sensitive: bool,
) -> bool {
    exists|rs: &str, ls: Option<Vec<String>>|
        is_search_root(is_dir, t, rs@) && #[trigger] list_dir.ensures((rs,), ls) && (ls is Some ==> root_listing_answered(
            r,
            rs@,
            ls->0@,
            folded(first_component_after(t, rs@), case_sensitive),
            ps,
            case_sensitive,
        )) && (forall|i: int| 0 <= i < r.len() ==> reachable(list_dir, rs@, (#[trigger] r[i]).path@, r[i].depth_from_current as nat, ps))
}

/// Given the listing `names` of the search root: every qualifying name is
/// recorded, every match at depth 1 is one of those names, and a name equal
/// to the pattern or starting with it keeps every match at depth 1.
pub open spec fn root_listing_answered(
    r: Seq<DirectoryMatch>,
    root: Seq<char>,
    names: Seq<String>,
    fp: Seq<char>,
    ps: Seq<IgnorePattern>,
    case_sensitive: bool,
) -> bool {
    &&& records_listing(r, root, names, fp, ps, case_sensitive)
    &&& forall|i: int| 0 <= i < r.len() && (#[trigger] r[i]).depth_from_current == 1 ==> names_include(names, name_of(r[i].path@))
    &&& crate::search::lists_good_name(names, fp, ps, case_sensitive) ==> forall|i: int| 0 <= i < r.len() ==> (#[trigger] r[i]).depth_from_current == 1
}

/// What an absolute term `t` is answered with. With a trailing separator:
/// the listing of the named directory when `is_dir` accepted it, else the
/// search from the root of the path without the separator. Without one:
/// exactly `t` at depth 0 when `is_dir` accepted it, else the search from
/// the root of `t`.
pub open spec fn absolute_answer<L: Fn(&str) -> Option<Vec<String>>, D: Fn(&str) -> bool>(
    list_dir: &L,
    is_dir: &D,
    r: Seq<DirectoryMatch>,
    t: &str,
    ps: Seq<IgnorePattern>,
    case_sensitive: bool,
) -> bool {
    &&& t@.len() > 0 && t@.last() == '/' ==> exists|s: &str, b: bool|
        s@ == t@.drop_last() && #[trigger] is_dir.ensures((s,), b) && (b ==> listing_of_dir(list_dir, r, s, ps, case_sensitive))
            && (!b ==> searched_from_root(list_dir, is_dir, r, s@, ps, case_sensitive))
    &&& !(t@.len() > 0 && t@.last() == '/') ==> exists|b: bool|
        #[trigger] is_dir.ensures((t,), b) && (b ==> r.len() == 1 && r[0].path@ == t@ && r[0].depth_from_current == 0
            && r[0].match_quality == MatchQuality::ExactDown) && (!b ==> searched_from_root(list_dir, is_dir, r, t@, ps, case_sensitive))
}

/// Ranking an answer keeps it an answer: one match per path, each taken
/// from the answer, every path of the answer kept.
pub proof fn lemma_absolute_answer_ranked<L: Fn(&str) -> Option<Vec<String>>, D: Fn(&str) -> bool>(
    list_dir: &L,
    is_dir: &D,
    found: Seq<DirectoryMatch>,
    r: Seq<DirectoryMatch>,
    t: &str,
    ps: Seq<IgnorePattern>,
    case_sensitive: bool,
)
    requires
        absolute_answer(list_dir, is_dir, found, t, ps, case_sensitive),
        paths_distinct(r),
        forall|i: int| 0 <= i < r.len() ==> #[trigger] found.contains(r[i]),
        forall|k: int| 0 <= k < found.len() ==> represents(r, #[trigger] found[k]),
    ensures
        absolute_answer(list_dir, is_dir, r, t, ps, case_sensitive),
{
    assert forall|d: Seq<char>, names: Seq<String>, fp: Seq<char>|
        #[trigger] records_listing(found, d, names, fp, ps, case_sensitive) implies records_listing(r, d, names, fp, ps, case_sensitive) by {
        assert forall|j: int| 0 <= j < names.len() && child_qualifies(#[trigger] names[j]@, fp, ps, case_sensitive)
            implies exists|i: int| 0 <= i < r.len() && (#[trigger] r[i]).path@ == join(d, names[j]@) by {
            let i = choose|i: int| 0 <= i < found.len() && (#[trigger] found[i]).path@ == join(d, names[j]@);
            assert(represents(r, found[i]));
        }
    }
    if found.len() == 1 {
        assert(represents(r, found[0]));
        assert(r.len() >= 1);
        assert(found.contains(r[0]));
        assert(r[0] == found[0]);
        if r.len() > 1 {
            assert(found.contains(r[1]));
            assert(r[1] == found[0]);
        }
    }
    if t@.len() > 0 && t@.last() == '/' {
        let (s, b) = choose|s: &str, b: bool|
            s@ == t@.drop_last() && #[trigger] is_dir.ensures((s,), b) && (b ==> listing_of_dir(list_dir, found, s, ps, case_sensitive))
                && (!b ==> searched_from_root(list_dir, is_dir, found, s@, ps, case_sensitive));
        if b {
            let ls = choose|ls: Option<Vec<String>>|
                #[trigger] list_dir.ensures((s,), ls) && listed_or_self(found, s@, ls, ps, case_sensitive);
            if ls is Some && lists_qualifying(ls->0@, ps, case_sensitive) {
                assert(records_listing(found, s@, ls->0@, Seq::<char>::empty(), ps, case_sensitive));
                assert forall|i: int| 0 <= i < r.len() implies (#[trigger] r[i]).depth_from_current == 1 && r[i].match_quality
                    == MatchQuality::PrefixDown && valid_down_match(r[i], Seq::<char>::empty(), ps, case_sensitive)
                    && child_of(s@, r[i].path@, ps) && names_include(ls->0@, name_of(r[i].path@)) by {
                    assert(found.contains(r[i]));
                }
                assert(found.len() >= 1);
                assert(represents(r, found[0]));
            }
            assert(listed_or_self(r, s@, ls, ps, case_sensitive));
            assert(list_dir.ensures((s,), ls));
        } else {
            let (rs, ls) = choose|rs: &str, ls: Option<Vec<String>>|
                is_search_root(is_dir, s@, rs@) && #[trigger] list_dir.ensures((rs,), ls) && (ls is Some ==> root_listing_answered(
                    found, rs@, ls->0@, folded(first_component_after(s@, rs@), case_sensitive), ps, case_sensitive))
                    && (forall|i: int| 0 <= i < found.len() ==> reachable(list_dir, rs@, (#[trigger] found[i]).path@, found[i].depth_from_current as nat, ps));
            assert forall|i: int| 0 <= i < r.len() implies reachable(list_dir, rs@, (#[trigger] r[i]).path@, r[i].depth_from_current as nat, ps) by {
                assert(found.contains(r[i]));
            }
            if ls is Some {
                let fpv = folded(first_component_after(s@, rs@), case_sensitive);
                assert(records_listing(found, rs@, ls->0@, fpv, ps, case_sensitive));
                assert forall|i: int| 0 <= i < r.len() && (#[trigger] r[i]).depth_from_current == 1 implies names_include(ls->0@, name_of(r[i].path@)) by {
                    assert(found.contains(r[i]));
                }
                if crate::search::lists_good_name(ls->0@, fpv, ps, case_sensitive) {
                    assert forall|i: int| 0 <= i < r.len() implies (#[trigger] r[i]).depth_from_current == 1 by {
                        assert(found.contains(r[i]));
                    }
                }
                assert(root_listing_answered(r, rs@, ls->0@, fpv, ps, case_sensitive));
            }
            assert(list_dir.ensures((rs,), ls));
        }
        assert(is_dir.ensures((s,), b));
    } else {
        let b = choose|b: bool|
            #[trigger] is_dir.ensures((t,), b) && (b ==> found.len() == 1 && found[0].path@ == t@ && found[0].depth_from_current == 0
                && found[0].match_quality == MatchQuality::ExactDown) && (!b ==> searched_from_root(list_dir, is_dir, found, t@, ps, case_sensitive));
        if !b {
            let (rs, ls) = choose|rs: &str, ls: Option<Vec<String>>|
                is_search_root(is_dir, t@, rs@) && #[trigger] list_dir.ensures((rs,), ls) && (ls is Some ==> root_listing_answered(
                    found, rs@, ls->0@, folded(first_component_after(t@, rs@), case_sensitive), ps, case_sensitive))
                    && (forall|i: int| 0 <= i < found.len() ==> reachable(list_dir, rs@, (#[trigger] found[i]).path@, found[i].depth_from_current as nat, ps));
            assert forall|i: int| 0 <= i < r.len() implies reachable(list_dir, rs@, (#[trigger] r[i]).path@, r[i].depth_from_current as nat, ps) by {
                assert(found.contains(r[i]));
            }
            if ls is Some {
                let fpv = folded(first_component_after(t@, rs@), case_sensitive);
                assert(records_listing(found, rs@, ls->0@, fpv, ps, case_sensitive));
                assert forall|i: int| 0 <= i < r.len() && (#[trigger] r[i]).depth_from_current == 1 implies names_include(ls->0@, name_of(r[i].path@)) by {
                    assert(found.contains(r[i]));
                }
                if crate::search::lists_good_name(ls->0@, fpv, ps, case_sensitive) {
                    assert forall|i: int| 0 <= i < r.len() implies (#[trigger] r[i]).depth_from_current == 1 by {
                        assert(found.contains(r[i]));
                    }
                }
                assert(root_listing_answered(r, rs@, ls->0@, fpv, ps, case_sensitive));
            }
            assert(list_dir.ensures((rs,), ls));
        }
        assert(is_dir.ensures((t,), b));
    }
}

/// Where a search for a missing absolute path starts: the closest ancestor
/// of `search_term` that `is_dir` reports as an existing directory and after
/// which a component follows, with that component as the pattern; the root
/// with the first component when every ancestor is passed over.
pub fn find_search_root_and_pattern<D>(search_term: &str, is_dir: &D) -> (r: (Option<String>, String)) where
    D: Fn(&str) -> bool,

    requires
        forall|d: &str| is_dir.requires((d,)),
    ensures
        r.0 is Some,
        r.1@ == first_component_after(search_term@, r.0->0@),
        is_search_root(is_dir, search_term@, r.0->0@),
{
    let mut current = <String as vstd::string::StringExecFns>::from_str(search_term);
    let ghost mut k: nat = 0;
    assert(ancestor(search_term@, 0) == Some(search_term@));
    loop
        invariant
            forall|d: &str| is_dir.requires((d,)),
            ancestor(search_term@, k) == Some(current@),
            forall|j: nat| 1 <= j <= k ==> #[trigger] passed_over(is_dir, search_term@, j),
        ensures
            ancestor(search_term@, k + 1) is None,
            forall|j: nat| 1 <= j <= k ==> #[trigger] passed_over(is_dir, search_term@, j),
        decreases current@.len(),
    {
        let par = match parent(current.as_str()) {
            Some(q) => q,
            None => {
                break;
            },
        };
        proof {
            crate::path::lemma_parent_shorter(current@);
        }
        assert(ancestor(search_term@, k + 1) == Some(par@));
        let ps = par.as_str();
        let b = is_dir(ps);
        assert(is_dir.ensures((ps,), b));
        if b {
            let pat = first_component_after_exec(search_term, ps);
            let pc = chars_of(pat.as_str());
            if pc.len() > 0 {
                assert(answered(is_dir, par@, true));
                return (Some(par), pat);
            }
        } else {
            assert(answered(is_dir, par@, false));
        }
        assert(passed_over(is_dir, search_term@, k + 1));
        current = par;
        proof {
            k = k + 1;
        }
    }
    proof {
        assert forall|j: nat| j >= 1 implies #[trigger] passed_over(is_dir, search_term@, j) by {
            if j > k {
                crate::search::lemma_ancestor_stays_none(search_term@, k + 1, j);
            }
        }
    }
    let root = <String as vstd::string::StringExecFns>::from_str("/");
    proof {
        reveal_strlit("/");
        assert(root@ =~= seq!['/']);
    }
    let pat = first_component_after_exec(search_term, root.as_str());
    (Some(root), pat)
}

/// The listing of a directory named with a trailing separator: each
/// subdirectory of `dir` that is not ignored, as a prefix match at depth 1;
/// `dir` itself, as an exact match at depth 0, when there is none.
pub fn list_or_self<L>(
    dir: &str,
    case_sensitive: bool,
    ignore_patterns: &Vec<IgnorePattern>,
    list_dir: &L,
) -> (r: Vec<DirectoryMatch>) where L: Fn(&str) -> Option<Vec<String>>
    requires
        list_dir.requires((dir,)),
    ensures
        listing_of_dir(list_dir, r@, dir, ignore_patterns@, case_sensitive),
{
    let mut ctx = SearchContext::new();
    let mut found: Vec<DirectoryMatch> = Vec::new();
    let mut next: Vec<String> = Vec::new();
    let empty: Vec<char> = Vec::new();
    scan_directory(dir, 1, &empty, case_sensitive, ignore_patterns, list_dir, false, &mut ctx, &mut found, &mut next, false);
    assert(empty@ =~= Seq::<char>::empty());
    let ghost ls = choose|ls: Option<Vec<String>>|
        #[trigger] list_dir.ensures((dir,), ls) && (ls is None ==> found@ == Seq::<DirectoryMatch>::empty()) && (ls is Some
            ==> forall|i: int| 0 <= i < found@.len() ==> names_include(ls->0@, name_of(#[trigger] found@[i].path@)))
            && (ls is Some ==> crate::search::records_listing_from(found@, 0, dir@, ls->0@, empty@, ignore_patterns@, case_sensitive));
    assert(list_dir.ensures((dir,), ls));
    if found.len() == 0 {
        let mut r: Vec<DirectoryMatch> = Vec::new();
        r.push(DirectoryMatch {
            path: <String as vstd::string::StringExecFns>::from_str(dir),
            depth_from_current: 0,
            match_quality: MatchQuality::ExactDown,
        });
        proof {
            if ls is Some && lists_qualifying(ls->0@, ignore_patterns@, case_sensitive) {
                let ns = ls->0@;
                let j = choose|j: int| 0 <= j < ns.len() && child_qualifies(#[trigger] ns[j]@, Seq::<char>::empty(), ignore_patterns@, case_sensitive);
                let t = choose|t: int| 0 <= t < found@.len() && (#[trigger] found@[t]).path@ == join(dir@, ns[j]@);
            }
            assert(listed_or_self(r@, dir@, ls, ignore_patterns@, case_sensitive));
        }
        return r;
    }
    proof {
        assert(ls is Some);
        let ns = ls->0@;
        assert forall|i: int| 0 <= i < found@.len() implies (#[trigger] found@[i]).match_quality == MatchQuality::PrefixDown by {
            let n = name_of(found@[i].path@);
            let f = folded(n, case_sensitive);
            assert(crate::text::is_prefix(Seq::<char>::empty(), f)) by {
                assert(f.subrange(0, 0) =~= Seq::<char>::empty());
            }
        }
        assert(names_include(ns, name_of(found@[0].path@)));
        let w = choose|w: int| 0 <= w < ns.len() && (#[trigger] ns[w])@ == name_of(found@[0].path@);
        assert(valid_down_match(found@[0], Seq::<char>::empty(), ignore_patterns@, case_sensitive));
        assert(child_qualifies(ns[w]@, Seq::<char>::empty(), ignore_patterns@, case_sensitive));
        assert(lists_qualifying(ns, ignore_patterns@, case_sensitive));
        assert(forall|i: int| 0 <= i < found@.len() ==> crate::search::listed_child(list_dir, dir@, #[trigger] found@[i].path@, ignore_patterns@));
        assert(listed_or_self(found@, dir@, ls, ignore_patterns@, case_sensitive));
    }
    found
}

/// A match for an absolute term: the directory named by the term (with
/// or without its trailing separator) at depth 0, or a directory found by
/// searching, whose name is not ignored.
pub open spec fn valid_absolute_match(m: DirectoryMatch, term: Seq<char>, ps: Seq<IgnorePattern>) -> bool {
    (m.depth_from_current == 0 && m.match_quality == MatchQuality::ExactDown && (m.path@ == term
        || m.path@ == term.drop_last())) || !ignored(ps, crate::path::name_of(m.path@))
}

/// The absolute-path searcher. A term with a trailing separator that names
/// an existing directory lists it (see `list_or_self`); a term that names an
/// existing directory is itself the one match; otherwise a breadth-first
/// search, without budget, starts from the closest existing ancestor for the
/// component that follows it.
pub fn search_absolute_path<L, D>(
    search_term: &str,
    case_sensitive: bool,
    ignore_patterns: &Vec<IgnorePattern>,
    list_dir: &L,
    is_dir: &D,
) -> (r: Vec<DirectoryMatch>) where L: Fn(&str) -> Option<Vec<String>>, D: Fn(&str) -> bool
    requires
        forall|d: &str| list_dir.requires((d,)),
        forall|d: &str| is_dir.requires((d,)),
    ensures
        forall|i: int| 0 <= i < r@.len() ==> valid_absolute_match(#[trigger] r@[i], search_term@, ignore_patterns@),
        absolute_answer(list_dir, is_dir, r@, search_term, ignore_patterns@, case_sensitive),
{
    let tc = chars_of(search_term);
    let mut ctx = SearchContext::new();
    if tc.len() > 0 && tc[tc.len() - 1] == '/' {
        let dir = search_term.substring_char(0, tc.len() - 1);
        assert(dir@ =~= search_term@.drop_last());
        let b = is_dir(dir);
        assert(is_dir.ensures((dir,), b));
        if b {
            let r = list_or_self(dir, case_sensitive, ignore_patterns, list_dir);
            assert(listing_of_dir(list_dir, r@, dir, ignore_patterns@, case_sensitive));
            assert forall|i: int| 0 <= i < r@.len() implies valid_absolute_match(#[trigger] r@[i], search_term@, ignore_patterns@) by {
                if !(r@.len() == 1 && r@[0].path@ == dir@ && r@[0].depth_from_current == 0) {
                    assert(valid_down_match(r@[i], Seq::<char>::empty(), ignore_patterns@, case_sensitive));
                }
            }
            return r;
        }
        let (root, pat) = find_search_root_and_pattern(dir, is_dir);
        let root = match root {
            Some(x) => x,
            None => {
                return Vec::new();
            },
        };
        let rs = root.as_str();
        let r = breadth_first_search(rs, pat.as_str(), case_sensitive, ignore_patterns, list_dir, false, &mut ctx);
        assert forall|i: int| 0 <= i < r@.len() implies valid_absolute_match(#[trigger] r@[i], search_term@, ignore_patterns@) by {
            assert(valid_down_match(r@[i], folded(pat@, case_sensitive), ignore_patterns@, case_sensitive));
        }
        proof {
            let ls = choose|ls: Option<Vec<String>>|
                #[trigger] list_dir.ensures((rs,), ls) && (ls is Some ==> crate::search::answers_listing(
                    list_dir, rs@, ls->0@, r@, folded(pat@, case_sensitive), ignore_patterns@, case_sensitive, false, ctx.exhausted));
            assert(list_dir.ensures((rs,), ls));
            assert(searched_from_root(list_dir, is_dir, r@, dir@, ignore_patterns@, case_sensitive));
        }
        return r;
    }
    let b = is_dir(search_term);
    assert(is_dir.ensures((search_term,), b));
    if b {
        let mut r: Vec<DirectoryMatch> = Vec::new();
        r.push(DirectoryMatch {
            path: <String as vstd::string::StringExecFns>::from_str(search_term),
            depth_from_current: 0,
            match_quality: MatchQuality::ExactDown,
        });
        return r;
    }
    let (root, pat) = find_search_root_and_pattern(search_term, is_dir);
    let root = match root {
        Some(x) => x,
        None => {
            return Vec::new();
        },
    };
    let rs = root.as_str();
    let r = breadth_first_search(rs, pat.as_str(), case_sensitive, ignore_patterns, list_dir, false, &mut ctx);
    assert forall|i: int| 0 <= i < r@.len() implies valid_absolute_match(#[trigger] r@[i], search_term@, ignore_patterns@) by {
        assert(valid_down_match(r@[i], folded(pat@, case_sensitive), ignore_patterns@, case_sensitive));
    }
    proof {
        let ls = choose|ls: Option<Vec<String>>|
            #[trigger] list_dir.ensures((rs,), ls) && (ls is Some ==> crate::search::answers_listing(
                list_dir, rs@, ls->0@, r@, folded(pat@, case_sensitive), ignore_patterns@, case_sensitive, false, ctx.exhausted));
        assert(list_dir.ensures((rs,), ls));
        assert(searched_from_root(list_dir, is_dir, r@, search_term@, ignore_patterns@, case_sensitive));
    }
    r
}

} // verus!
