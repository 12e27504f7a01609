//! The search engine: picks the searcher for the shape of the pattern and
//! ranks what it finds.
use vstd::prelude::*;
use crate::absolute::{search_absolute_path, valid_absolute_match, absolute_answer, lemma_absolute_answer_ranked};
use crate::budget::SearchContext;
use crate::ignore::{IgnorePattern, ignored};
use crate::path::{name_of, parent_of};
use crate::ranking::{represents, DirectoryMatch, MatchQuality, finalize_matches, paths_distinct, is_ranked};
use crate::resolve::{resolved, without_trailing_seps};
use crate::search::{records_listing, lists_good_name, lister_is_stable, matches_pattern, MAX_DEPTH, reachable, search_up_tree_with_priority, search_down_breadth_first_all, valid_down_match, valid_up_match, up_match_at, ancestor, is_good_immediate};
use crate::segments::{found_below_start_or_ancestor, search_path_pattern_fast, valid_segment_match, last_segment};
use crate::text::{chars_of, folded};

verus! {

/// Every match names a directory whose name is not ignored.
pub open spec fn none_ignored(r: Seq<DirectoryMatch>, ps: Seq<IgnorePattern>) -> bool {
    forall|i: int| 0 <= i < r.len() ==> !ignored(ps, name_of(#[trigger] r[i].path@))
}

/// A term without separators.
pub open spec fn is_plain_term(t: Seq<char>) -> bool {
    t.len() > 0 && forall|k: int| 0 <= k < t.len() ==> t[k] != '/'
}

/// The ranked matches for `search_term` around `current_dir`. An empty
/// term is the current directory itself. An absolute term goes to the
/// absolute-path searcher; a term with separators to the path-segment
/// searcher, and only when that finds nothing, like any other term, to the
/// upward and downward searchers together. One search budget serves the
/// whole call. The result holds one match per path, ranked.
///
/// For a term that is not absolute, the lister is asked about nothing but
/// `current_dir` and directories whose names are not ignored: an ignored
/// directory is never entered.
pub fn find_matching_directories<L, D>(
    current_dir: &str,
    search_term: &str,
    case_sensitive: bool,
    ignore_patterns: &Vec<IgnorePattern>,
    list_dir: &L,
    is_dir: &D,
) -> (r: Vec<DirectoryMatch>) where L: Fn(&str) -> Option<Vec<String>>, D: Fn(&str) -> bool
    requires
        forall|d: &str| (d@ == current_dir@ || !ignored(ignore_patterns@, name_of(d@)) || (search_term@.len() > 0 && search_term@[0] == '/')) ==> #[trigger] list_dir.requires((d,)),
        forall|d: &str| is_dir.requires((d,)),
        current_dir@.len() < i32::MAX,
    ensures
        answers_empty_term(current_dir@, search_term@, r@),
        paths_distinct(r@),
        is_ranked(r@),
        search_term@.len() > 0 && search_term@[0] != '/' ==> none_ignored(r@, ignore_patterns@),
        search_term@.len() > 0 && search_term@[0] == '/' ==> forall|i: int|
            0 <= i < r@.len() ==> valid_absolute_match(#[trigger] r@[i], search_term@, ignore_patterns@),
        is_plain_term(search_term@) ==> forall|i: int|
            0 <= i < r@.len() ==> valid_up_match(
                #[trigger] r@[i],
                current_dir@,
                folded(search_term@, case_sensitive),
                ignore_patterns@,
                case_sensitive,
            ) || (valid_down_match(r@[i], folded(search_term@, case_sensitive), ignore_patterns@, case_sensitive)
                && reachable(list_dir, current_dir@, r@[i].path@, r@[i].depth_from_current as nat, ignore_patterns@)),
        is_plain_term(search_term@) ==> forall|k: nat|
            k >= 1 && #[trigger] up_match_at(current_dir@, k, folded(search_term@, case_sensitive), ignore_patterns@, case_sensitive) is Some
                ==> exists|i: int| 0 <= i < r@.len() && Some((#[trigger] r@[i]).path@) == ancestor(current_dir@, k),
        is_plain_term(search_term@) && (exists|i: int| 0 <= i < r@.len() && is_good_immediate(#[trigger] r@[i]))
            ==> forall|i: int| 0 <= i < r@.len() ==> (#[trigger] r@[i]).depth_from_current <= 1,
        is_plain_term(search_term@) ==> exists|ls: Option<Vec<String>>|
            #[trigger] list_dir.ensures((current_dir,), ls) && (ls is Some ==> records_listing(
                r@,
                current_dir@,
                ls->0@,
                folded(search_term@, case_sensitive),
                ignore_patterns@,
                case_sensitive,
            )),
        search_term@.len() > 0 && search_term@[0] != '/' && !is_plain_term(search_term@) ==> (r@.len() > 0 && forall|i: int|
            0 <= i < r@.len() ==> valid_segment_match(#[trigger] r@[i], last_segment(search_term@, case_sensitive), ignore_patterns@, case_sensitive)
                && found_below_start_or_ancestor(list_dir, current_dir@, r@[i], ignore_patterns@))
            || (forall|i: int| 0 <= i < r@.len() ==> valid_up_match(
                #[trigger] r@[i],
                current_dir@,
                folded(search_term@, case_sensitive),
                ignore_patterns@,
                case_sensitive,
            ) || (valid_down_match(r@[i], folded(search_term@, case_sensitive), ignore_patterns@, case_sensitive)
                && reachable(list_dir, current_dir@, r@[i].path@, r@[i].depth_from_current as nat, ignore_patterns@))),
        search_term@.len() > 0 && search_term@[0] == '/' ==> absolute_answer(list_dir, is_dir, r@, search_term, ignore_patterns@, case_sensitive),
{
    let mut ctx = SearchContext::new();
    find_matching_directories_within(current_dir, search_term, case_sensitive, ignore_patterns, list_dir, is_dir, &mut ctx)
}

/// `find_matching_directories` with the search budget handed in. For a
/// term without separators whose search never found the budget spent, and
/// a lister that answers the same for the same directory: when no
/// subdirectory of `current_dir` equals the pattern or starts with it,
/// every matching directory reached within `MAX_DEPTH + 1` levels is in the
/// result.
pub fn find_matching_directories_within<L, D>(
    current_dir: &str,
    search_term: &str,
    case_sensitive: bool,
    ignore_patterns: &Vec<IgnorePattern>,
    list_dir: &L,
    is_dir: &D,
    ctx: &mut SearchContext,
) -> (r: Vec<DirectoryMatch>) where L: Fn(&str) -> Option<Vec<String>>, D: Fn(&str) -> bool
    requires
        forall|d: &str| (d@ == current_dir@ || !ignored(ignore_patterns@, name_of(d@)) || (search_term@.len() > 0 && search_term@[0] == '/')) ==> #[trigger] list_dir.requires((d,)),
        forall|d: &str| is_dir.requires((d,)),
        current_dir@.len() < i32::MAX,
        old(ctx).current_matches <= old(ctx).max_matches,
    ensures
        answers_empty_term(current_dir@, search_term@, r@),
        paths_distinct(r@),
        is_ranked(r@),
        search_term@.len() > 0 && search_term@[0] != '/' ==> none_ignored(r@, ignore_patterns@),
        search_term@.len() > 0 && search_term@[0] == '/' ==> forall|i: int|
            0 <= i < r@.len() ==> valid_absolute_match(#[trigger] r@[i], search_term@, ignore_patterns@),
        is_plain_term(search_term@) ==> forall|i: int|
            0 <= i < r@.len() ==> valid_up_match(
                #[trigger] r@[i],
                current_dir@,
                folded(search_term@, case_sensitive),
                ignore_patterns@,
                case_sensitive,
            ) || (valid_down_match(r@[i], folded(search_term@, case_sensitive), ignore_patterns@, case_sensitive)
                && reachable(list_dir, current_dir@, r@[i].path@, r@[i].depth_from_current as nat, ignore_patterns@)),
        is_plain_term(search_term@) ==> forall|k: nat|
            k >= 1 && #[trigger] up_match_at(current_dir@, k, folded(search_term@, case_sensitive), ignore_patterns@, case_sensitive) is Some
                ==> exists|i: int| 0 <= i < r@.len() && Some((#[trigger] r@[i]).path@) == ancestor(current_dir@, k),
        is_plain_term(search_term@) && (exists|i: int| 0 <= i < r@.len() && is_good_immediate(#[trigger] r@[i]))
            ==> forall|i: int| 0 <= i < r@.len() ==> (#[trigger] r@[i]).depth_from_current <= 1,
        is_plain_term(search_term@) ==> exists|ls: Option<Vec<String>>|
            #[trigger] list_dir.ensures((current_dir,), ls) && (ls is Some ==> records_listing(
                r@,
                current_dir@,
                ls->0@,
                folded(search_term@, case_sensitive),
                ignore_patterns@,
                case_sensitive,
            )),
        search_term@.len() > 0 && search_term@[0] != '/' && !is_plain_term(search_term@) ==> (r@.len() > 0 && forall|i: int|
            0 <= i < r@.len() ==> valid_segment_match(#[trigger] r@[i], last_segment(search_term@, case_sensitive), ignore_patterns@, case_sensitive)
                && found_below_start_or_ancestor(list_dir, current_dir@, r@[i], ignore_patterns@))
            || (forall|i: int| 0 <= i < r@.len() ==> valid_up_match(
                #[trigger] r@[i],
                current_dir@,
                folded(search_term@, case_sensitive),
                ignore_patterns@,
                case_sensitive,
            ) || (valid_down_match(r@[i], folded(search_term@, case_sensitive), ignore_patterns@, case_sensitive)
                && reachable(list_dir, current_dir@, r@[i].path@, r@[i].depth_from_current as nat, ignore_patterns@))),
        search_term@.len() > 0 && search_term@[0] == '/' ==> absolute_answer(list_dir, is_dir, r@, search_term, ignore_patterns@, case_sensitive),
        is_plain_term(search_term@) && !final(ctx).exhausted ==> exists|ls: Option<Vec<String>>|
            #[trigger] list_dir.ensures((current_dir,), ls) && (ls is Some && !lists_good_name(
                ls->0@,
                folded(search_term@, case_sensitive),
                ignore_patterns@,
                case_sensitive,
            ) && lister_is_stable(list_dir) ==> forall|p: Seq<char>, k: nat|
                1 <= k <= MAX_DEPTH + 1 && #[trigger] reachable(list_dir, current_dir@, p, k, ignore_patterns@) && matches_pattern(
                    p,
                    folded(search_term@, case_sensitive),
                    case_sensitive,
                ) ==> exists|i: int| 0 <= i < r@.len() && (#[trigger] r@[i]).path@ == p),
{
    let tc = chars_of(search_term);
    if tc.len() == 0 {
        let mut r: Vec<DirectoryMatch> = Vec::new();
        r.push(DirectoryMatch {
            path: <String as vstd::string::StringExecFns>::from_str(current_dir),
            depth_from_current: 0,
            match_quality: MatchQuality::ExactDown,
        });
        return r;
    }
    if tc[0] == '/' {
        let found = search_absolute_path(search_term, case_sensitive, ignore_patterns, list_dir, is_dir);
        let r = finalize_matches(found);
        assert forall|i: int| 0 <= i < r@.len() implies valid_absolute_match(#[trigger] r@[i], search_term@, ignore_patterns@) by {
            assert(found@.contains(r@[i]));
        }
        proof {
            lemma_absolute_answer_ranked(list_dir, is_dir, found@, r@, search_term, ignore_patterns@, case_sensitive);
        }
        return r;
    }
    let mut matches: Vec<DirectoryMatch> = Vec::new();
    let slash = vec!['/'];
    let has_sep = crate::text::contains_exec(&tc, &slash);
    proof {
        if !has_sep {
            assert forall|k: int| 0 <= k < search_term@.len() implies search_term@[k] != '/' by {
                if search_term@[k] == '/' {
                    assert(search_term@.subrange(k, k + 1) =~= slash@);
                    assert(crate::text::occurs_at(slash@, search_term@, k));
                }
            }
        }
        if is_plain_term(search_term@) && has_sep {
            let k = choose|k: int| crate::text::occurs_at(slash@, search_term@, k);
            assert(search_term@.subrange(k, k + 1)[0] == search_term@[k]);
        }
    }
    if has_sep {
        search_path_pattern_fast(current_dir, search_term, &mut matches, ctx, case_sensitive, ignore_patterns, list_dir);
        if matches.len() > 0 {
            let r = finalize_matches(matches);
            proof {
                assert forall|i: int| 0 <= i < r@.len() implies !ignored(ignore_patterns@, name_of(#[trigger] r@[i].path@)) by {
                    assert(matches@.contains(r@[i]));
                    let k = choose|k: int| 0 <= k < matches@.len() && matches@[k] == r@[i];
                    assert(valid_segment_match(matches@[k], last_segment(search_term@, case_sensitive), ignore_patterns@, case_sensitive));
                }
                assert(represents(r@, matches@[0]));
                assert forall|i: int| 0 <= i < r@.len() implies valid_segment_match(#[trigger] r@[i], last_segment(search_term@, case_sensitive), ignore_patterns@, case_sensitive)
                    && found_below_start_or_ancestor(list_dir, current_dir@, r@[i], ignore_patterns@) by {
                    assert(matches@.contains(r@[i]));
                    let k = choose|k: int| 0 <= k < matches@.len() && matches@[k] == r@[i];
                    assert(valid_segment_match(matches@[k], last_segment(search_term@, case_sensitive), ignore_patterns@, case_sensitive));
                }
            }
            return r;
        }
    }
    search_up_and_down(current_dir, search_term, case_sensitive, ignore_patterns, list_dir, ctx)
}

/// The upward and downward searchers together, ranked: the search for a
/// term that is not absolute once the path-segment searcher has found
/// nothing (or was not used).
#[verifier::rlimit(40)]
fn search_up_and_down<L>(
    current_dir: &str,
    search_term: &str,
    case_sensitive: bool,
    ignore_patterns: &Vec<IgnorePattern>,
    list_dir: &L,
    ctx: &mut SearchContext,
) -> (r: Vec<DirectoryMatch>) where L: Fn(&str) -> Option<Vec<String>>
    requires
        crate::search::lists_unignored(list_dir, current_dir@, ignore_patterns@),
        current_dir@.len() < i32::MAX,
        old(ctx).current_matches <= old(ctx).max_matches,
    ensures
        paths_distinct(r@),
        is_ranked(r@),
        none_ignored(r@, ignore_patterns@),
        forall|i: int|
            0 <= i < r@.len() ==> valid_up_match(#[trigger] r@[i], current_dir@, folded(search_term@, case_sensitive), ignore_patterns@, case_sensitive)
                || (valid_down_match(r@[i], folded(search_term@, case_sensitive), ignore_patterns@, case_sensitive)
                && reachable(list_dir, current_dir@, r@[i].path@, r@[i].depth_from_current as nat, ignore_patterns@)),
        forall|k: nat|
            k >= 1 && #[trigger] up_match_at(current_dir@, k, folded(search_term@, case_sensitive), ignore_patterns@, case_sensitive) is Some
                ==> exists|i: int| 0 <= i < r@.len() && Some((#[trigger] r@[i]).path@) == ancestor(current_dir@, k),
        (exists|i: int| 0 <= i < r@.len() && is_good_immediate(#[trigger] r@[i]))
            ==> forall|i: int| 0 <= i < r@.len() ==> (#[trigger] r@[i]).depth_from_current <= 1,
        exists|ls: Option<Vec<String>>|
            #[trigger] list_dir.ensures((current_dir,), ls) && (ls is Some ==> records_listing(r@, current_dir@, ls->0@, folded(search_term@, case_sensitive), ignore_patterns@, case_sensitive)),
        !final(ctx).exhausted ==> exists|ls: Option<Vec<String>>|
            #[trigger] list_dir.ensures((current_dir,), ls) && (ls is Some && !lists_good_name(ls->0@, folded(search_term@, case_sensitive), ignore_patterns@, case_sensitive)
                && lister_is_stable(list_dir) ==> forall|p: Seq<char>, k: nat|
                1 <= k <= MAX_DEPTH + 1 && #[trigger] reachable(list_dir, current_dir@, p, k, ignore_patterns@) && matches_pattern(p, folded(search_term@, case_sensitive), case_sensitive)
                    ==> exists|i: int| 0 <= i < r@.len() && (#[trigger] r@[i]).path@ == p),
{
    let ghost f = folded(search_term@, case_sensitive);
    let mut all = search_up_tree_with_priority(current_dir, search_term, case_sensitive, ignore_patterns);
    let ghost up = all@;
    let mut down = search_down_breadth_first_all(current_dir, search_term, case_sensitive, ignore_patterns, list_dir, ctx);
    let ghost dn = down@;
    let ghost ex = ctx.exhausted;
    let ghost ls0 = choose|ls: Option<Vec<String>>|
        #[trigger] list_dir.ensures((current_dir,), ls) && (ls is Some ==> crate::search::answers_listing(
            list_dir, current_dir@, ls->0@, dn, f, ignore_patterns@, case_sensitive, true, ex));
    all.append(&mut down);
    proof {
        assert(all@ =~= up + dn);
        assert forall|k: int| 0 <= k < all@.len() implies !ignored(ignore_patterns@, name_of(#[trigger] all@[k].path@)) by {
            if k < up.len() {
                assert(all@[k] == up[k]);
                assert(valid_up_match(up[k], current_dir@, f, ignore_patterns@, case_sensitive));
            } else {
                assert(all@[k] == dn[k - up.len()]);
                assert(valid_down_match(dn[k - up.len()], f, ignore_patterns@, case_sensitive));
            }
        }
    }
    let r = finalize_matches(all);
    proof {
        assert forall|i: int| 0 <= i < r@.len() implies valid_up_match(#[trigger] r@[i], current_dir@, f, ignore_patterns@, case_sensitive)
            || (valid_down_match(r@[i], f, ignore_patterns@, case_sensitive)
                && reachable(list_dir, current_dir@, r@[i].path@, r@[i].depth_from_current as nat, ignore_patterns@)) by {
            assert(all@.contains(r@[i]));
            let k = choose|k: int| 0 <= k < all@.len() && all@[k] == r@[i];
            if k < up.len() {
                assert(all@[k] == up[k]);
            } else {
                assert(all@[k] == dn[k - up.len()]);
            }
        }
        assert forall|k: nat| k >= 1 && #[trigger] up_match_at(current_dir@, k, f, ignore_patterns@, case_sensitive) is Some
            implies exists|i: int| 0 <= i < r@.len() && Some((#[trigger] r@[i]).path@) == ancestor(current_dir@, k) by {
            let t = choose|t: int| 0 <= t < up.len() && (#[trigger] up[t]).depth_from_current == -k;
            assert(valid_up_match(up[t], current_dir@, f, ignore_patterns@, case_sensitive));
            assert(all@[t] == up[t]);
            assert(crate::ranking::represents(r@, all@[t]));
        }
        if exists|i: int| 0 <= i < r@.len() && is_good_immediate(#[trigger] r@[i]) {
            let i0 = choose|i: int| 0 <= i < r@.len() && is_good_immediate(#[trigger] r@[i]);
            assert(all@.contains(r@[i0]));
            let k0 = choose|k: int| 0 <= k < all@.len() && all@[k] == r@[i0];
            if k0 < up.len() {
                assert(all@[k0] == up[k0]);
                assert(valid_up_match(up[k0], current_dir@, f, ignore_patterns@, case_sensitive));
            } else {
                assert(all@[k0] == dn[k0 - up.len()]);
                assert(is_good_immediate(dn[k0 - up.len()]));
            }
            assert forall|i: int| 0 <= i < r@.len() implies (#[trigger] r@[i]).depth_from_current <= 1 by {
                assert(all@.contains(r@[i]));
                let k = choose|k: int| 0 <= k < all@.len() && all@[k] == r@[i];
                if k < up.len() {
                    assert(all@[k] == up[k]);
                    assert(valid_up_match(up[k], current_dir@, f, ignore_patterns@, case_sensitive));
                } else {
                    assert(all@[k] == dn[k - up.len()]);
                }
            }
        }
        assert forall|i: int| 0 <= i < r@.len() implies !ignored(ignore_patterns@, name_of(#[trigger] r@[i].path@)) by {
            assert(all@.contains(r@[i]));
            let k = choose|k: int| 0 <= k < all@.len() && all@[k] == r@[i];
            assert(!ignored(ignore_patterns@, name_of(all@[k].path@)));
        }
    }
    proof {
        if ls0 is Some {
            let ns = ls0->0@;
            assert forall|j: int| 0 <= j < ns.len() && crate::search::child_qualifies(#[trigger] ns[j]@, f, ignore_patterns@, case_sensitive)
                implies exists|t: int| 0 <= t < r@.len() && (#[trigger] r@[t]).path@ == crate::path::join(current_dir@, ns[j]@) by {
                assert(records_listing(dn, current_dir@, ns, f, ignore_patterns@, case_sensitive));
                let w = choose|w: int| 0 <= w < dn.len() && (#[trigger] dn[w]).path@ == crate::path::join(current_dir@, ns[j]@);
                assert(all@[up.len() + w] == dn[w]);
                assert(represents(r@, all@[up.len() + w]));
            }
        }
        assert(list_dir.ensures((current_dir,), ls0));
    }
    proof {
        if ls0 is Some && !lists_good_name(ls0->0@, f, ignore_patterns@, case_sensitive) && lister_is_stable(list_dir) && !ctx.exhausted {
            assert forall|p: Seq<char>, k: nat|
                1 <= k <= MAX_DEPTH + 1 && #[trigger] reachable(list_dir, current_dir@, p, k, ignore_patterns@) && matches_pattern(p, f, case_sensitive)
                    implies exists|i: int| 0 <= i < r@.len() && (#[trigger] r@[i]).path@ == p by {
                assert(crate::search::found_at(dn, p, k as int));
                let w = choose|w: int| 0 <= w < dn.len() && (#[trigger] dn[w]).path@ == p && dn[w].depth_from_current == k as int;
                assert(all@[up.len() + w] == dn[w]);
                assert(represents(r@, all@[up.len() + w]));
            }
        }
    }
    r
}

/// What the engine answers for an empty term: exactly the directory
/// searched from, at depth 0, as an exact match.
pub open spec fn answers_empty_term(dir: Seq<char>, term: Seq<char>, r: Seq<DirectoryMatch>) -> bool {
    term.len() == 0 ==> r.len() == 1 && r[0].path@ == dir && r[0].depth_from_current == 0
        && r[0].match_quality == MatchQuality::ExactDown
}

/// The term `..` typed where the current directory has a parent resolves to
/// a search from that parent with nothing left to match, and such a search
/// is answered with exactly the parent itself.
pub proof fn lemma_parent_navigation(cwd: Seq<char>, r: Seq<DirectoryMatch>)
    requires
        parent_of(without_trailing_seps(cwd)) is Some,
        answers_empty_term(resolved(cwd, seq!['.', '.']).0, resolved(cwd, seq!['.', '.']).1, r),
    ensures
        resolved(cwd, seq!['.', '.']) == (parent_of(without_trailing_seps(cwd))->0, Seq::<char>::empty()),
        r.len() == 1,
        r[0].path@ == parent_of(without_trailing_seps(cwd))->0,
        r[0].depth_from_current == 0,
        r[0].match_quality == MatchQuality::ExactDown,
{
}

/// The whole search for a raw term typed in `current_dir`: the term is
/// resolved into a directory to search from and a pattern, and the engine
/// ranks what it finds for them. Unless the pattern is absolute, no
/// ignored directory is listed.
pub fn search_directories<L, D>(
    current_dir: &str,
    raw_term: &str,
    case_sensitive: bool,
    ignore_patterns: &Vec<IgnorePattern>,
    list_dir: &L,
    is_dir: &D,
) -> (r: Vec<DirectoryMatch>) where L: Fn(&str) -> Option<Vec<String>>, D: Fn(&str) -> bool
    requires
        forall|d: &str| (d@ == resolved(current_dir@, raw_term@).0 || !ignored(ignore_patterns@, name_of(d@)) || (resolved(current_dir@, raw_term@).1.len() > 0 && resolved(current_dir@, raw_term@).1[0] == '/')) ==> #[trigger] list_dir.requires((d,)),
        forall|d: &str| is_dir.requires((d,)),
        current_dir@.len() < i32::MAX,
    ensures
        answers_empty_term(resolved(current_dir@, raw_term@).0, resolved(current_dir@, raw_term@).1, r@),
        paths_distinct(r@),
        is_ranked(r@),
        resolved(current_dir@, raw_term@).1.len() > 0 && resolved(current_dir@, raw_term@).1[0] != '/'
            ==> none_ignored(r@, ignore_patterns@),
{
    let (root, pattern) = crate::resolve::resolve_search_context(current_dir, raw_term);
    proof {
        crate::resolve::lemma_resolved_no_longer(current_dir@, raw_term@);
    }
    find_matching_directories(root.as_str(), pattern.as_str(), case_sensitive, ignore_patterns, list_dir, is_dir)
}

} // verus!
