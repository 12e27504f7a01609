//! The searchers: up the ancestors, breadth-first down the subdirectories,
//! and the classification of a name against the pattern that they share.
//!
//! Directory contents come from a lister handed in by the caller: given a
//! directory path it returns the names of that directory's subdirectories,
//! or `None` when the directory cannot be read. Each listing is put in name
//! order before it is used.
use vstd::prelude::*;
use crate::budget::SearchContext;
use crate::ignore::{IgnorePattern, ignored, should_ignore_directory};
use crate::path::{join, join_name, name, name_of, parent, parent_of, is_plain_name, is_plain_name_exec, lemma_name_of_join};
use crate::ranking::{DirectoryMatch, MatchQuality};
use crate::text::{chars_eq, chars_of, contains, contains_exec, folded, folded_chars, is_prefix, is_prefix_exec};

verus! {

/// Deepest level below the start that a breadth-first search lists.
pub const MAX_DEPTH: u32 = 8;

/// How a name below the start matches: equal, starting with the pattern,
/// or holding it elsewhere.
pub open spec fn down_quality(name: Seq<char>, pattern: Seq<char>) -> Option<MatchQuality> {
    if name == pattern {
        Some(MatchQuality::ExactDown)
    } else if is_prefix(pattern, name) {
        Some(MatchQuality::PrefixDown)
    } else if contains(name, pattern) {
        Some(MatchQuality::PartialDown)
    } else {
        None
    }
}

/// How the name of an ancestor matches: equal, or holding the pattern.
pub open spec fn up_quality(name: Seq<char>, pattern: Seq<char>) -> Option<MatchQuality> {
    if name == pattern {
        Some(MatchQuality::ExactUp)
    } else if contains(name, pattern) {
        Some(MatchQuality::PartialUp)
    } else {
        None
    }
}

/// How `name` matches `pattern` below the start, both compared in folded form.
pub fn classify_down(name: &Vec<char>, pattern: &Vec<char>) -> (r: Option<MatchQuality>)
    ensures
        r == down_quality(name@, pattern@),
{
    if chars_eq(name, pattern) {
        Some(MatchQuality::ExactDown)
    } else if is_prefix_exec(pattern, name) {
        Some(MatchQuality::PrefixDown)
    } else if contains_exec(name, pattern) {
        Some(MatchQuality::PartialDown)
    } else {
        None
    }
}

/// How the name of an ancestor matches `pattern`.
pub fn classify_up(name: &Vec<char>, pattern: &Vec<char>) -> (r: Option<MatchQuality>)
    ensures
        r == up_quality(name@, pattern@),
{
    if chars_eq(name, pattern) {
        Some(MatchQuality::ExactUp)
    } else if contains_exec(name, pattern) {
        Some(MatchQuality::PartialUp)
    } else {
        None
    }
}

/// The ancestor `k` levels above `p`, where there is one.
pub open spec fn ancestor(p: Seq<char>, k: nat) -> Option<Seq<char>>
    decreases k,
{
    if k == 0 {
        Some(p)
    } else {
        match ancestor(p, (k - 1) as nat) {
            Some(a) => parent_of(a),
            None => None,
        }
    }
}

/// The lister may be asked about `start` and about every directory whose
/// name is not ignored. A search that asks no more of it never lists an
/// ignored directory, so never goes below one.
pub open spec fn lists_unignored<L: Fn(&str) -> Option<Vec<String>>>(
    list_dir: &L,
    start: Seq<char>,
    ps: Seq<IgnorePattern>,
) -> bool {
    forall|d: &str| (d@ == start || !ignored(ps, name_of(d@))) ==> #[trigger] list_dir.requires((d,))
}

/// A match recorded below a directory: a plain, non-empty, non-ignored
/// name, at a depth the search can reach, classified by its folded name
/// against the folded pattern `fp`.
pub open spec fn valid_down_match(
    m: DirectoryMatch,
    fp: Seq<char>,
    ps: Seq<IgnorePattern>,
    case_sensitive: bool,
) -> bool {
    let n = name_of(m.path@);
    &&& n.len() > 0
    &&& folded(n, case_sensitive).len() > 0
    &&& is_plain_name(n)
    &&& !ignored(ps, n)
    &&& 1 <= m.depth_from_current <= MAX_DEPTH + 1
    &&& down_quality(folded(n, case_sensitive), fp) == Some(m.match_quality)
}

/// The matches at depth 1 come first; after them come at most `limit`
/// deeper ones when `budgeted`.
pub open spec fn first_level_then_deeper(r: Seq<DirectoryMatch>, budgeted: bool, limit: int) -> bool {
    exists|n: int| #[trigger] first_level_ends_at(r, n, budgeted, limit)
}

/// The matches before `n` lie at depth 1, those from `n` on deeper, and
/// there are at most `limit` of the latter when `budgeted`.
pub open spec fn first_level_ends_at(r: Seq<DirectoryMatch>, n: int, budgeted: bool, limit: int) -> bool {
    &&& 0 <= n <= r.len()
    &&& forall|i: int| 0 <= i < n ==> (#[trigger] r[i]).depth_from_current == 1
    &&& forall|i: int| n <= i < r.len() ==> (#[trigger] r[i]).depth_from_current > 1
    &&& budgeted ==> r.len() - n <= limit
}

/// A subdirectory `n` of a listed directory that the search records: a
/// plain, non-empty, non-ignored name that matches the folded pattern `fp`.
pub open spec fn child_qualifies(n: Seq<char>, fp: Seq<char>, ps: Seq<IgnorePattern>, case_sensitive: bool) -> bool {
    n.len() > 0 && is_plain_name(n) && !ignored(ps, n) && down_quality(folded(n, case_sensitive), fp) is Some
}

/// Every name of a listing of `dir` that qualifies is recorded in `found`.
pub open spec fn records_listing(
    found: Seq<DirectoryMatch>,
    dir: Seq<char>,
    names: Seq<String>,
    fp: Seq<char>,
    ps: Seq<IgnorePattern>,
    case_sensitive: bool,
) -> bool {
    forall|j: int|
        0 <= j < names.len() && child_qualifies(#[trigger] names[j]@, fp, ps, case_sensitive) ==> exists|i: int|
            0 <= i < found.len() && (#[trigger] found[i]).path@ == join(dir, names[j]@)
}

/// `p` is the entry of `q` named by its last component, a plain, non-empty
/// name that is not ignored.
pub open spec fn child_of(q: Seq<char>, p: Seq<char>, ps: Seq<IgnorePattern>) -> bool {
    let n = name_of(p);
    n.len() > 0 && is_plain_name(n) && !ignored(ps, n) && p == join(q, n)
}


/// Every plain, non-empty, non-ignored name of a listing of `dir` is kept,
/// joined onto `dir`, in `next`.
pub open spec fn children_kept(next: Seq<String>, dir: Seq<char>, names: Seq<String>, ps: Seq<IgnorePattern>) -> bool {
    forall|j: int|
        0 <= j < names.len() && (#[trigger] names[j]@).len() > 0 && is_plain_name(names[j]@) && !ignored(ps, names[j]@)
            ==> exists|t: int| 0 <= t < next.len() && (#[trigger] next[t])@ == join(dir, names[j]@)
}

/// The lister answers the same for the same directory during one search.
pub open spec fn lister_is_stable<L: Fn(&str) -> Option<Vec<String>>>(list_dir: &L) -> bool {
    forall|a: &str, b: &str, x: Option<Vec<String>>, y: Option<Vec<String>>|
        a@ == b@ && #[trigger] list_dir.ensures((a,), x) && #[trigger] list_dir.ensures((b,), y) ==> x == y
}

/// `p` is an entry of `q` whose name the lister gives for `q`.
pub open spec fn listed_child<L: Fn(&str) -> Option<Vec<String>>>(
    list_dir: &L,
    q: Seq<char>,
    p: Seq<char>,
    ps: Seq<IgnorePattern>,
) -> bool {
    child_of(q, p, ps) && exists|s: &str, v: Vec<String>|
        s@ == q && #[trigger] list_dir.ensures((s,), Some(v)) && names_include(v@, name_of(p))
}

/// Some name of `names` is `n`.
pub open spec fn names_include(names: Seq<String>, n: Seq<char>) -> bool {
    exists|j: int| 0 <= j < names.len() && (#[trigger] names[j])@ == n
}

/// Each path of `chain` is a listed entry of the one before it.
pub open spec fn is_listed_descent<L: Fn(&str) -> Option<Vec<String>>>(
    list_dir: &L,
    chain: Seq<Seq<char>>,
    ps: Seq<IgnorePattern>,
) -> bool {
    forall|i: int| 0 <= i < chain.len() - 1 ==> #[trigger] listed_child(list_dir, chain[i], chain[i + 1], ps)
}

/// `p` is reached from `root` in `k` steps, each to an entry that the
/// lister gives and whose name is not ignored.
pub open spec fn reachable<L: Fn(&str) -> Option<Vec<String>>>(
    list_dir: &L,
    root: Seq<char>,
    p: Seq<char>,
    k: nat,
    ps: Seq<IgnorePattern>,
) -> bool {
    exists|chain: Seq<Seq<char>>|
        chain.len() == k + 1 && chain[0] == root && chain.last() == p && #[trigger] is_listed_descent(list_dir, chain, ps)
}

pub proof fn lemma_reachable_start<L: Fn(&str) -> Option<Vec<String>>>(list_dir: &L, root: Seq<char>, ps: Seq<IgnorePattern>)
    ensures
        reachable(list_dir, root, root, 0, ps),
{
    let chain = seq![root];
    assert(is_listed_descent(list_dir, chain, ps));
}

pub proof fn lemma_reachable_step<L: Fn(&str) -> Option<Vec<String>>>(
    list_dir: &L,
    root: Seq<char>,
    q: Seq<char>,
    p: Seq<char>,
    k: nat,
    ps: Seq<IgnorePattern>,
)
    requires
        reachable(list_dir, root, q, k, ps),
        listed_child(list_dir, q, p, ps),
    ensures
        reachable(list_dir, root, p, k + 1, ps),
{
    let chain = choose|chain: Seq<Seq<char>>|
        chain.len() == k + 1 && chain[0] == root && chain.last() == q && #[trigger] is_listed_descent(list_dir, chain, ps);
    let c2 = chain.push(p);
    assert forall|i: int| 0 <= i < c2.len() - 1 implies #[trigger] listed_child(list_dir, c2[i], c2[i + 1], ps) by {
        if i < chain.len() - 1 {
            assert(c2[i] == chain[i] && c2[i + 1] == chain[i + 1]);
            assert(listed_child(list_dir, chain[i], chain[i + 1], ps));
        }
    }
    assert(is_listed_descent(list_dir, c2, ps));
}

pub proof fn lemma_reachable_prepend<L: Fn(&str) -> Option<Vec<String>>>(
    list_dir: &L,
    q: Seq<char>,
    c: Seq<char>,
    p: Seq<char>,
    k: nat,
    ps: Seq<IgnorePattern>,
)
    requires
        listed_child(list_dir, q, c, ps),
        reachable(list_dir, c, p, k, ps),
    ensures
        reachable(list_dir, q, p, k + 1, ps),
{
    let chain = choose|chain: Seq<Seq<char>>|
        chain.len() == k + 1 && chain[0] == c && chain.last() == p && #[trigger] is_listed_descent(list_dir, chain, ps);
    let c2 = seq![q] + chain;
    assert forall|i: int| 0 <= i < c2.len() - 1 implies #[trigger] listed_child(list_dir, c2[i], c2[i + 1], ps) by {
        if i > 0 {
            assert(c2[i] == chain[i - 1] && c2[i + 1] == chain[(i - 1) + 1]);
            assert(listed_child(list_dir, chain[i - 1], chain[(i - 1) + 1], ps));
        }
    }
    assert(is_listed_descent(list_dir, c2, ps));
    assert(c2.last() == p);
}

pub proof fn lemma_reachable_parent<L: Fn(&str) -> Option<Vec<String>>>(
    list_dir: &L,
    root: Seq<char>,
    p: Seq<char>,
    k: nat,
    ps: Seq<IgnorePattern>,
) -> (q: Seq<char>)
    requires
        k >= 1,
        reachable(list_dir, root, p, k, ps),
    ensures
        reachable(list_dir, root, q, (k - 1) as nat, ps),
        listed_child(list_dir, q, p, ps),
{
    let chain = choose|chain: Seq<Seq<char>>|
        chain.len() == k + 1 && chain[0] == root && chain.last() == p && #[trigger] is_listed_descent(list_dir, chain, ps);
    let c2 = chain.drop_last();
    assert forall|i: int| 0 <= i < c2.len() - 1 implies #[trigger] listed_child(list_dir, c2[i], c2[i + 1], ps) by {
        assert(listed_child(list_dir, chain[i], chain[i + 1], ps));
    }
    assert(is_listed_descent(list_dir, c2, ps));
    let i: int = k - 1;
    assert(0 <= i < chain.len() - 1);
    assert(listed_child(list_dir, chain[i], chain[i + 1], ps));
    assert(chain[i + 1] == p);
    chain[i]
}

/// Every name of a listing of `dir` that qualifies is recorded in `found`
/// at or after index `from`.
pub open spec fn records_listing_from(
    found: Seq<DirectoryMatch>,
    from: int,
    dir: Seq<char>,
    names: Seq<String>,
    fp: Seq<char>,
    ps: Seq<IgnorePattern>,
    case_sensitive: bool,
) -> bool {
    forall|j: int|
        0 <= j < names.len() && child_qualifies(#[trigger] names[j]@, fp, ps, case_sensitive) ==> exists|i: int|
            from <= i < found.len() && (#[trigger] found[i]).path@ == join(dir, names[j]@)
}

/// `found` records `p` at depth `k`.
pub open spec fn found_at(found: Seq<DirectoryMatch>, p: Seq<char>, k: int) -> bool {
    exists|i: int| 0 <= i < found.len() && (#[trigger] found[i]).path@ == p && found[i].depth_from_current == k
}

/// The name of `p` matches the folded pattern `fp`.
pub open spec fn matches_pattern(p: Seq<char>, fp: Seq<char>, case_sensitive: bool) -> bool {
    down_quality(folded(name_of(p), case_sensitive), fp) is Some
}

/// Some entry of `level` is `p`.
pub open spec fn level_holds(level: Seq<String>, p: Seq<char>) -> bool {
    exists|t: int| 0 <= t < level.len() && (#[trigger] level[t])@ == p
}

/// Every directory reached from `root` in 1 to `depth` steps whose name
/// matches is recorded in `found` at the depth it was reached.
pub open spec fn complete_to<L: Fn(&str) -> Option<Vec<String>>>(
    list_dir: &L,
    root: Seq<char>,
    found: Seq<DirectoryMatch>,
    fp: Seq<char>,
    ps: Seq<IgnorePattern>,
    case_sensitive: bool,
    depth: int,
) -> bool {
    forall|p: Seq<char>, k: nat|
        1 <= k <= depth && #[trigger] reachable(list_dir, root, p, k, ps) && matches_pattern(p, fp, case_sensitive)
            ==> found_at(found, p, k as int)
}

/// Every directory reached from `root` in `depth` steps is in `level`.
pub open spec fn level_complete<L: Fn(&str) -> Option<Vec<String>>>(
    list_dir: &L,
    root: Seq<char>,
    level: Seq<String>,
    ps: Seq<IgnorePattern>,
    depth: nat,
) -> bool {
    forall|p: Seq<char>| #[trigger] reachable(list_dir, root, p, depth, ps) ==> level_holds(level, p)
}

proof fn lemma_reachable_zero<L: Fn(&str) -> Option<Vec<String>>>(
    list_dir: &L,
    root: Seq<char>,
    q: Seq<char>,
    ps: Seq<IgnorePattern>,
)
    requires
        reachable(list_dir, root, q, 0, ps),
    ensures
        q == root,
{
    let chain = choose|chain: Seq<Seq<char>>|
        chain.len() == 0 + 1 && chain[0] == root && chain.last() == q && #[trigger] is_listed_descent(list_dir, chain, ps);
}

pub proof fn lemma_found_at_kept(a: Seq<DirectoryMatch>, b: Seq<DirectoryMatch>)
    requires
        a.len() <= b.len(),
        forall|i: int| 0 <= i < a.len() ==> b[i] == a[i],
    ensures
        forall|p: Seq<char>, k: int| #[trigger] found_at(a, p, k) ==> found_at(b, p, k),
{
    assert forall|p: Seq<char>, k: int| #[trigger] found_at(a, p, k) implies found_at(b, p, k) by {
        let i = choose|i: int| 0 <= i < a.len() && (#[trigger] a[i]).path@ == p && a[i].depth_from_current == k;
        assert(b[i] == a[i]);
    }
}

proof fn lemma_level_holds_kept(a: Seq<String>, b: Seq<String>)
    requires
        a.len() <= b.len(),
        forall|i: int| 0 <= i < a.len() ==> b[i] == a[i],
    ensures
        forall|p: Seq<char>| #[trigger] level_holds(a, p) ==> level_holds(b, p),
{
    assert forall|p: Seq<char>| #[trigger] level_holds(a, p) implies level_holds(b, p) by {
        let t = choose|t: int| 0 <= t < a.len() && (#[trigger] a[t])@ == p;
        assert(b[t] == a[t]);
    }
}

proof fn lemma_scan_covers<L: Fn(&str) -> Option<Vec<String>>>(
    list_dir: &L,
    dref: &str,
    ls: Option<Vec<String>>,
    p: Seq<char>,
    found: Seq<DirectoryMatch>,
    from: int,
    next: Seq<String>,
    fp: Seq<char>,
    ps: Seq<IgnorePattern>,
    case_sensitive: bool,
    depth: int,
    keep: bool,
)
    requires
        0 <= from,
        lister_is_stable(list_dir),
        list_dir.ensures((dref,), ls),
        ls is Some ==> records_listing_from(found, from, dref@, ls->0@, fp, ps, case_sensitive) && (keep ==> children_kept(
            next,
            dref@,
            ls->0@,
            ps,
        )),
        forall|i: int| from <= i < found.len() ==> (#[trigger] found[i]).depth_from_current == depth,
        listed_child(list_dir, dref@, p, ps),
    ensures
        keep ==> level_holds(next, p),
        matches_pattern(p, fp, case_sensitive) ==> found_at(found, p, depth),
{
    let (s, v) = choose|s: &str, v: Vec<String>|
        s@ == dref@ && #[trigger] list_dir.ensures((s,), Some(v)) && names_include(v@, name_of(p));
    assert(list_dir.ensures((s,), Some(v)));
    assert(ls == Some(v));
    let jj = choose|jj: int| 0 <= jj < v@.len() && (#[trigger] v@[jj])@ == name_of(p);
    assert(child_of(dref@, p, ps));
    assert(p == join(dref@, v@[jj]@));
    if keep {
        let t = choose|t: int| 0 <= t < next.len() && (#[trigger] next[t])@ == join(dref@, v@[jj]@);
        assert(level_holds(next, p));
    }
    if matches_pattern(p, fp, case_sensitive) {
        assert(child_qualifies(v@[jj]@, fp, ps, case_sensitive));
        let i = choose|i: int| from <= i < found.len() && (#[trigger] found[i]).path@ == join(dref@, v@[jj]@);
        assert(found[i].depth_from_current == depth);
        assert(found[i].path@ == p);
        assert(found_at(found, p, depth));
    }
}

/// `n` equals the folded pattern or starts with it.
pub open spec fn good_name(n: Seq<char>, fp: Seq<char>, case_sensitive: bool) -> bool {
    let q = down_quality(folded(n, case_sensitive), fp);
    q == Some(MatchQuality::ExactDown) || q == Some(MatchQuality::PrefixDown)
}

/// Some qualifying name of `names` equals the pattern or starts with it.
pub open spec fn lists_good_name(names: Seq<String>, fp: Seq<char>, ps: Seq<IgnorePattern>, case_sensitive: bool) -> bool {
    exists|j: int| 0 <= j < names.len() && child_qualifies(#[trigger] names[j]@, fp, ps, case_sensitive) && good_name(names[j]@, fp, case_sensitive)
}

/// What a breadth-first search below `root` answers, given the listing
/// `names` of `root`: every qualifying name is recorded, every match at depth
/// 1 is one of those names; a name equal to the pattern or starting with it
/// stops the search at depth 1; otherwise, unless the budget was found spent,
/// every matching directory reached within `MAX_DEPTH + 1` levels is recorded
/// (for a lister that answers the same for the same directory).
pub open spec fn answers_listing<L: Fn(&str) -> Option<Vec<String>>>(
    list_dir: &L,
    root: Seq<char>,
    names: Seq<String>,
    r: Seq<DirectoryMatch>,
    fp: Seq<char>,
    ps: Seq<IgnorePattern>,
    case_sensitive: bool,
    budgeted: bool,
    exhausted: bool,
) -> bool {
    &&& records_listing(r, root, names, fp, ps, case_sensitive)
    &&& forall|i: int| 0 <= i < r.len() && (#[trigger] r[i]).depth_from_current == 1 ==> names_include(names, name_of(r[i].path@))
    &&& lists_good_name(names, fp, ps, case_sensitive) ==> forall|i: int| 0 <= i < r.len() ==> (#[trigger] r[i]).depth_from_current == 1
    &&& !lists_good_name(names, fp, ps, case_sensitive) && lister_is_stable(list_dir) && (!budgeted || !exhausted) ==> complete_to(
        list_dir,
        root,
        r,
        fp,
        ps,
        case_sensitive,
        MAX_DEPTH + 1,
    )
}

/// A match of a good kind next to the start: equal or prefix, at depth 1.
pub open spec fn is_good_immediate(m: DirectoryMatch) -> bool {
    m.depth_from_current == 1 && (m.match_quality == MatchQuality::ExactDown || m.match_quality
        == MatchQuality::PrefixDown)
}

/// Lists the subdirectories of `dir` and records, at `depth`, each child
/// that is not ignored and whose name matches; when `keep_children` the
/// children that are not ignored are added to `next`. When `budgeted`, each
/// match is recorded against the budget, and recording stops once the
/// budget says so; the result tells whether it did.
pub(crate) fn scan_directory<L>(
    dir: &str,
    depth: i32,
    fp: &Vec<char>,
    case_sensitive: bool,
    ignore_patterns: &Vec<IgnorePattern>,
    list_dir: &L,
    budgeted: bool,
    ctx: &mut SearchContext,
    found: &mut Vec<DirectoryMatch>,
    next: &mut Vec<String>,
    keep_children: bool,
) -> (stopped: bool) where L: Fn(&str) -> Option<Vec<String>>
    requires
        list_dir.requires((dir,)),
        1 <= depth <= MAX_DEPTH + 1,
        old(ctx).current_matches <= old(ctx).max_matches,
    ensures
        final(ctx).max_matches == old(ctx).max_matches,
        final(ctx).current_matches <= final(ctx).max_matches,
        !budgeted ==> final(ctx).current_matches == old(ctx).current_matches && !stopped,
        final(next)@.len() >= old(next)@.len(),
        forall|i: int| 0 <= i < old(next)@.len() ==> final(next)@[i] == old(next)@[i],
        forall|i: int|
            old(next)@.len() <= i < final(next)@.len() ==> !ignored(ignore_patterns@, name_of(#[trigger] final(next)@[i]@)),
        budgeted ==> final(found)@.len() - old(found)@.len() == final(ctx).current_matches
            - old(ctx).current_matches,
        final(found)@.len() >= old(found)@.len(),
        forall|i: int| 0 <= i < old(found)@.len() ==> final(found)@[i] == old(found)@[i],
        forall|i: int|
            old(found)@.len() <= i < final(found)@.len() ==> valid_down_match(
                #[trigger] final(found)@[i],
                fp@,
                ignore_patterns@,
                case_sensitive,
            ) && final(found)@[i].depth_from_current == depth,
        forall|i: int| old(found)@.len() <= i < final(found)@.len() ==> listed_child(list_dir, dir@, #[trigger] final(found)@[i].path@, ignore_patterns@),
        forall|i: int| old(next)@.len() <= i < final(next)@.len() ==> listed_child(list_dir, dir@, #[trigger] final(next)@[i]@, ignore_patterns@),
        exists|ls: Option<Vec<String>>|
            #[trigger] list_dir.ensures((dir,), ls) && (ls is None ==> final(found)@ == old(found)@) && (ls is Some ==> forall|i: int|
                old(found)@.len() <= i < final(found)@.len() ==> names_include(ls->0@, name_of(#[trigger] final(found)@[i].path@)))
                && (!stopped && ls is Some ==> records_listing_from(
                final(found)@,
                old(found)@.len() as int,
                dir@,
                ls->0@,
                fp@,
                ignore_patterns@,
                case_sensitive,
            ) && (keep_children ==> children_kept(final(next)@, dir@, ls->0@, ignore_patterns@))),
        stopped ==> final(ctx).exhausted,
        old(ctx).exhausted ==> final(ctx).exhausted,
{
    let listed = list_dir(dir);
    let ghost listing = listed;
    assert(list_dir.ensures((dir,), listing));
    let names = match listed {
        Some(ns) => crate::text::sort_names(ns),
        None => {
            assert(list_dir.ensures((dir,), listing));
            return false;
        },
    };
    let ghost found0 = found@;
    let ghost next0 = next@;
    let ghost ctx0 = *ctx;
    let mut i: usize = 0;
    while i < names.len()
        invariant
            1 <= depth <= MAX_DEPTH + 1,
            ctx0 == *old(ctx),
            found0 == old(found)@,
            ctx.max_matches == ctx0.max_matches,
            ctx.current_matches <= ctx.max_matches,
            !budgeted ==> ctx.current_matches == ctx0.current_matches,
            budgeted ==> found@.len() - found0.len() == ctx.current_matches - ctx0.current_matches,
            found@.len() >= found0.len(),
            forall|k: int| 0 <= k < found0.len() ==> found@[k] == found0[k],
            forall|k: int|
                found0.len() <= k < found@.len() ==> valid_down_match(
                    #[trigger] found@[k],
                    fp@,
                    ignore_patterns@,
                    case_sensitive,
                ) && found@[k].depth_from_current == depth,
            i <= names@.len(),
            ctx0.exhausted ==> ctx.exhausted,
            keep_children ==> forall|j: int|
                0 <= j < i && (#[trigger] names@[j]@).len() > 0 && is_plain_name(names@[j]@) && !ignored(ignore_patterns@, names@[j]@)
                    ==> exists|t: int| 0 <= t < next@.len() && (#[trigger] next@[t])@ == join(dir@, names@[j]@),
            next0 == old(next)@,
            next@.len() >= next0.len(),
            forall|k: int| 0 <= k < next0.len() ==> next@[k] == next0[k],
            forall|k: int| next0.len() <= k < next@.len() ==> !ignored(ignore_patterns@, name_of(#[trigger] next@[k]@)),
            forall|k: int| next0.len() <= k < next@.len() ==> listed_child(list_dir, dir@, #[trigger] next@[k]@, ignore_patterns@),
            forall|k: int| found0.len() <= k < found@.len() ==> listed_child(list_dir, dir@, #[trigger] found@[k].path@, ignore_patterns@),
            list_dir.ensures((dir,), listing),
            listing is Some,
            forall|k: int| found0.len() <= k < found@.len() ==> names_include(listing->0@, name_of(#[trigger] found@[k].path@)),
            forall|x: String| names@.contains(x) <==> listing->0@.contains(x),
            forall|j: int|
                0 <= j < i && child_qualifies(#[trigger] names@[j]@, fp@, ignore_patterns@, case_sensitive)
                    ==> exists|t: int| found0.len() <= t < found@.len() && (#[trigger] found@[t]).path@ == join(dir@, names@[j]@),
        decreases names.len() - i,
    {
        let ghost before = found@;
        let ghost nbefore = next@;
        let n = &names[i];
        let nc = chars_of(n.as_str());
        i = i + 1;
        if nc.len() == 0 || !is_plain_name_exec(&nc) || should_ignore_directory(n.as_str(), ignore_patterns) {
            continue;
        }
        let child = join_name(dir, n.as_str());
        proof {
            lemma_name_of_join(dir@, n@);
            assert(names@.contains(names@[i - 1]));
            let lv = listing->0;
            assert(lv@.contains(names@[i - 1]));
            let w = choose|w: int| 0 <= w < lv@.len() && lv@[w] == names@[i - 1];
            assert(names_include(lv@, name_of(child@)));
            assert(list_dir.ensures((dir,), Some(lv)));
            assert(listed_child(list_dir, dir@, child@, ignore_patterns@));
        }
        let nf = folded_chars(n.as_str(), case_sensitive);
        match classify_down(&nf, fp) {
            Some(q) => {
                if budgeted {
                    if !ctx.proceed() {
                        return true;
                    }
                    ctx.add_match();
                }
                found.push(DirectoryMatch { path: child.clone(), depth_from_current: depth, match_quality: q });
                proof {
                    assert(found@[found@.len() - 1].path@ == join(dir@, names@[i - 1]@));
                    assert forall|j: int|
                        0 <= j < i && child_qualifies(#[trigger] names@[j]@, fp@, ignore_patterns@, case_sensitive)
                            implies exists|t: int| found0.len() <= t < found@.len() && (#[trigger] found@[t]).path@ == join(dir@, names@[j]@) by {
                        if j < i - 1 {
                            let t = choose|t: int| found0.len() <= t < before.len() && (#[trigger] before[t]).path@ == join(dir@, names@[j]@);
                            assert(found@[t] == before[t]);
                        } else {
                            assert(found@[found@.len() - 1].path@ == join(dir@, names@[j]@));
                        }
                    }
                }
            },
            None => {},
        }
        let ghost nmid = next@;
        if keep_children {
            next.push(child);
            proof {
                assert(next@[next@.len() - 1]@ == join(dir@, names@[i - 1]@));
                assert forall|j: int|
                    0 <= j < i && (#[trigger] names@[j]@).len() > 0 && is_plain_name(names@[j]@) && !ignored(ignore_patterns@, names@[j]@)
                        implies exists|t: int| 0 <= t < next@.len() && (#[trigger] next@[t])@ == join(dir@, names@[j]@) by {
                    if j < i - 1 {
                        let t = choose|t: int| 0 <= t < nmid.len() && (#[trigger] nmid[t])@ == join(dir@, names@[j]@);
                        assert(next@[t] == nmid[t]);
                    } else {
                        assert(next@[next@.len() - 1]@ == join(dir@, names@[j]@));
                    }
                }
            }
        }
    }
    proof {
        let ns = listing->0;
        if keep_children {
            assert forall|j: int|
                0 <= j < ns@.len() && (#[trigger] ns@[j]@).len() > 0 && is_plain_name(ns@[j]@) && !ignored(ignore_patterns@, ns@[j]@)
                    implies exists|t: int| 0 <= t < next@.len() && (#[trigger] next@[t])@ == join(dir@, ns@[j]@) by {
                assert(ns@.contains(ns@[j]));
                assert(names@.contains(ns@[j]));
                let w = choose|w: int| 0 <= w < names@.len() && names@[w] == ns@[j];
                assert(names@[w]@ == ns@[j]@);
            }
        }
        assert(list_dir.ensures((dir,), listing));
        assert forall|j: int| 0 <= j < ns@.len() && child_qualifies(#[trigger] ns@[j]@, fp@, ignore_patterns@, case_sensitive)
            implies exists|t: int| found0.len() <= t < found@.len() && (#[trigger] found@[t]).path@ == join(dir@, ns@[j]@) by {
            assert(ns@.contains(ns@[j]));
            assert(names@.contains(ns@[j]));
            let w = choose|w: int| 0 <= w < names@.len() && names@[w] == ns@[j];
            assert(child_qualifies(names@[w]@, fp@, ignore_patterns@, case_sensitive));
        }
    }
    false
}

fn has_good_immediate(found: &Vec<DirectoryMatch>) -> (r: bool)
    ensures
        r == exists|i: int| 0 <= i < found@.len() && is_good_immediate(#[trigger] found@[i]),
{
    let mut i: usize = 0;
    while i < found.len()
        invariant
            i <= found@.len(),
            forall|k: int| 0 <= k < i ==> !is_good_immediate(#[trigger] found@[k]),
        decreases found.len() - i,
    {
        let m = &found[i];
        if m.depth_from_current == 1 && (m.match_quality == MatchQuality::ExactDown || m.match_quality
            == MatchQuality::PrefixDown) {
            return true;
        }
        i = i + 1;
    }
    false
}

/// Breadth-first search below `root`. The subdirectories of `root` are
/// classified first; when one of them equals the pattern or starts with it,
/// the search stops there. Otherwise it goes on level by level down to
/// `MAX_DEPTH`, recording each deeper match; when `budgeted` each of those
/// is recorded against the budget, which is checked before each directory
/// is listed and before each match is recorded.
pub fn breadth_first_search<L>(
    root: &str,
    pattern: &str,
    case_sensitive: bool,
    ignore_patterns: &Vec<IgnorePattern>,
    list_dir: &L,
    budgeted: bool,
    ctx: &mut SearchContext,
) -> (r: Vec<DirectoryMatch>) where L: Fn(&str) -> Option<Vec<String>>
    requires
        lists_unignored(list_dir, root@, ignore_patterns@),
        old(ctx).current_matches <= old(ctx).max_matches,
    ensures
        final(ctx).max_matches == old(ctx).max_matches,
        final(ctx).current_matches <= final(ctx).max_matches,
        forall|i: int|
            0 <= i < r@.len() ==> valid_down_match(
                #[trigger] r@[i],
                folded(pattern@, case_sensitive),
                ignore_patterns@,
                case_sensitive,
            ),
        (exists|i: int| 0 <= i < r@.len() && is_good_immediate(#[trigger] r@[i])) ==> forall|i: int|
            0 <= i < r@.len() ==> (#[trigger] r@[i]).depth_from_current == 1,
        first_level_then_deeper(r@, budgeted, old(ctx).max_matches - old(ctx).current_matches),
        forall|i: int| 0 <= i < r@.len() ==> reachable(list_dir, root@, (#[trigger] r@[i]).path@, r@[i].depth_from_current as nat, ignore_patterns@),
        exists|ls: Option<Vec<String>>|
            #[trigger] list_dir.ensures((root,), ls) && (ls is Some ==> answers_listing(
                list_dir,
                root@,
                ls->0@,
                r@,
                folded(pattern@, case_sensitive),
                ignore_patterns@,
                case_sensitive,
                budgeted,
                final(ctx).exhausted,
            )),
{
    let fp = folded_chars(pattern, case_sensitive);
    let mut found: Vec<DirectoryMatch> = Vec::new();
    let mut level: Vec<String> = Vec::new();
    let ghost c0 = ctx.current_matches;
    scan_directory(root, 1, &fp, case_sensitive, ignore_patterns, list_dir, false, ctx, &mut found, &mut level, true);
    let n1 = found.len();
    let ghost f1 = found@;
    proof {
        lemma_reachable_start(list_dir, root@, ignore_patterns@);
        assert forall|k: int| 0 <= k < found@.len() implies reachable(list_dir, root@, (#[trigger] found@[k]).path@, found@[k].depth_from_current as nat, ignore_patterns@) by {
            assert(listed_child(list_dir, root@, found@[k].path@, ignore_patterns@));
            lemma_reachable_step(list_dir, root@, root@, found@[k].path@, 0, ignore_patterns@);
        }
        assert forall|k: int| 0 <= k < level@.len() implies reachable(list_dir, root@, #[trigger] level@[k]@, 1, ignore_patterns@) by {
            assert(listed_child(list_dir, root@, level@[k]@, ignore_patterns@));
            lemma_reachable_step(list_dir, root@, root@, level@[k]@, 0, ignore_patterns@);
        }
    }
    let ghost ls0 = choose|ls: Option<Vec<String>>|
        #[trigger] list_dir.ensures((root,), ls) && (ls is Some ==> forall|i: int|
            0 <= i < found@.len() ==> names_include(ls->0@, name_of(#[trigger] found@[i].path@))) && (ls is Some ==> records_listing_from(
            found@, 0, root@, ls->0@, fp@, ignore_patterns@, case_sensitive) && children_kept(level@, root@, ls->0@, ignore_patterns@));
    proof {
        if lister_is_stable(list_dir) {
            assert forall|p: Seq<char>, k: nat|
                1 <= k <= 1 && #[trigger] reachable(list_dir, root@, p, k, ignore_patterns@) && matches_pattern(p, fp@, case_sensitive)
                    implies found_at(found@, p, k as int) by {
                let q = lemma_reachable_parent(list_dir, root@, p, k, ignore_patterns@);
                lemma_reachable_zero(list_dir, root@, q, ignore_patterns@);
                lemma_scan_covers(list_dir, root, ls0, p, found@, 0, level@, fp@, ignore_patterns@, case_sensitive, 1, true);
            }
            assert forall|p: Seq<char>| #[trigger] reachable(list_dir, root@, p, 1, ignore_patterns@) implies level_holds(level@, p) by {
                let q = lemma_reachable_parent(list_dir, root@, p, 1, ignore_patterns@);
                lemma_reachable_zero(list_dir, root@, q, ignore_patterns@);
                lemma_scan_covers(list_dir, root, ls0, p, found@, 0, level@, fp@, ignore_patterns@, case_sensitive, 1, true);
            }
        }
    }
    if has_good_immediate(&found) {
        assert(first_level_ends_at(found@, n1 as int, budgeted, ctx.max_matches - c0));
        proof {
            if ls0 is Some {
                let ns = ls0->0@;
                let g = choose|i: int| 0 <= i < found@.len() && is_good_immediate(#[trigger] found@[i]);
                let w = choose|w: int| 0 <= w < ns.len() && (#[trigger] ns[w])@ == name_of(found@[g].path@);
                assert(valid_down_match(found@[g], fp@, ignore_patterns@, case_sensitive));
                assert(child_qualifies(ns[w]@, fp@, ignore_patterns@, case_sensitive));
                assert(lists_good_name(ns, fp@, ignore_patterns@, case_sensitive));
                assert(records_listing(found@, root@, ns, fp@, ignore_patterns@, case_sensitive));
            }
            assert(list_dir.ensures((root,), ls0));
        }
        return found;
    }
    let mut depth: u32 = 1;
    let mut stopped = false;
    while depth <= MAX_DEPTH && !stopped
        invariant
            lists_unignored(list_dir, root@, ignore_patterns@),
            forall|k: int| 0 <= k < level@.len() ==> !ignored(ignore_patterns@, name_of(#[trigger] level@[k]@)),
            forall|k: int| 0 <= k < level@.len() ==> reachable(list_dir, root@, #[trigger] level@[k]@, depth as nat, ignore_patterns@),
            forall|k: int| 0 <= k < found@.len() ==> reachable(list_dir, root@, (#[trigger] found@[k]).path@, found@[k].depth_from_current as nat, ignore_patterns@),
            1 <= depth <= MAX_DEPTH + 1,
            stopped ==> ctx.exhausted && budgeted,
            lister_is_stable(list_dir) && !stopped ==> complete_to(list_dir, root@, found@, fp@, ignore_patterns@, case_sensitive, depth as int),
            lister_is_stable(list_dir) && !stopped && depth <= MAX_DEPTH ==> level_complete(list_dir, root@, level@, ignore_patterns@, depth as nat),
            fp@ == folded(pattern@, case_sensitive),
            ctx.max_matches == old(ctx).max_matches,
            c0 == old(ctx).current_matches,
            c0 <= ctx.current_matches <= ctx.max_matches,
            n1 <= found@.len(),
            budgeted ==> found@.len() - n1 == ctx.current_matches - c0,
            forall|k: int| 0 <= k < n1 ==> (#[trigger] found@[k]).depth_from_current == 1,
            forall|k: int| 0 <= k < n1 ==> !is_good_immediate(#[trigger] found@[k]),
            n1 == f1.len(),
            forall|k: int| 0 <= k < n1 ==> found@[k] == f1[k],
            forall|k: int| n1 <= k < found@.len() ==> (#[trigger] found@[k]).depth_from_current > 1,
            forall|k: int|
                0 <= k < found@.len() ==> valid_down_match(
                    #[trigger] found@[k],
                    fp@,
                    ignore_patterns@,
                    case_sensitive,
                ),
        decreases MAX_DEPTH + 1 - depth, if stopped { 0int } else { 1int },
    {
        let mut next: Vec<String> = Vec::new();
        let mut j: usize = 0;
        while j < level.len() && !stopped
            invariant
                lists_unignored(list_dir, root@, ignore_patterns@),
                forall|k: int| 0 <= k < level@.len() ==> !ignored(ignore_patterns@, name_of(#[trigger] level@[k]@)),
                forall|k: int| 0 <= k < next@.len() ==> !ignored(ignore_patterns@, name_of(#[trigger] next@[k]@)),
                forall|k: int| 0 <= k < level@.len() ==> reachable(list_dir, root@, #[trigger] level@[k]@, depth as nat, ignore_patterns@),
                forall|k: int| 0 <= k < next@.len() ==> reachable(list_dir, root@, #[trigger] next@[k]@, (depth + 1) as nat, ignore_patterns@),
                forall|k: int| 0 <= k < found@.len() ==> reachable(list_dir, root@, (#[trigger] found@[k]).path@, found@[k].depth_from_current as nat, ignore_patterns@),
                1 <= depth <= MAX_DEPTH,
                j <= level@.len(),
                stopped ==> ctx.exhausted && budgeted,
                lister_is_stable(list_dir) && !stopped ==> complete_to(list_dir, root@, found@, fp@, ignore_patterns@, case_sensitive, depth as int),
                lister_is_stable(list_dir) && !stopped ==> level_complete(list_dir, root@, level@, ignore_patterns@, depth as nat),
                lister_is_stable(list_dir) && !stopped ==> forall|jj: int, p: Seq<char>|
                    0 <= jj < j && #[trigger] listed_child(list_dir, level@[jj]@, p, ignore_patterns@) ==> (depth < MAX_DEPTH
                        ==> level_holds(next@, p)) && (matches_pattern(p, fp@, case_sensitive) ==> found_at(found@, p, depth + 1)),
                fp@ == folded(pattern@, case_sensitive),
                ctx.max_matches == old(ctx).max_matches,
                c0 == old(ctx).current_matches,
                c0 <= ctx.current_matches <= ctx.max_matches,
                n1 <= found@.len(),
                budgeted ==> found@.len() - n1 == ctx.current_matches - c0,
                forall|k: int| 0 <= k < n1 ==> (#[trigger] found@[k]).depth_from_current == 1,
                forall|k: int| 0 <= k < n1 ==> !is_good_immediate(#[trigger] found@[k]),
            n1 == f1.len(),
            forall|k: int| 0 <= k < n1 ==> found@[k] == f1[k],
                forall|k: int| n1 <= k < found@.len() ==> (#[trigger] found@[k]).depth_from_current > 1,
                forall|k: int|
                    0 <= k < found@.len() ==> valid_down_match(
                        #[trigger] found@[k],
                        fp@,
                        ignore_patterns@,
                        case_sensitive,
                    ),
            decreases level.len() - j, if stopped { 0int } else { 1int },
        {
            if budgeted && !ctx.proceed() {
                stopped = true;
            } else {
                proof {
                    assert(!ignored(ignore_patterns@, name_of(level@[j as int]@)));
                    assert(reachable(list_dir, root@, level@[j as int]@, depth as nat, ignore_patterns@));
                }
                let ghost fb = found@;
                let ghost nb = next@;
                let ghost dj = level@[j as int]@;
                let dref = level[j].as_str();
                let st = scan_directory(
                    dref,
                    (depth + 1) as i32,
                    &fp,
                    case_sensitive,
                    ignore_patterns,
                    list_dir,
                    budgeted,
                    ctx,
                    &mut found,
                    &mut next,
                    depth < MAX_DEPTH,
                );
                proof {
                    assert forall|k: int| 0 <= k < found@.len() implies reachable(list_dir, root@, (#[trigger] found@[k]).path@, found@[k].depth_from_current as nat, ignore_patterns@) by {
                        if k >= fb.len() {
                            assert(listed_child(list_dir, dj, found@[k].path@, ignore_patterns@));
                            assert(reachable(list_dir, root@, dj, depth as nat, ignore_patterns@));
                            assert(found@[k].depth_from_current as nat == (depth + 1) as nat);
                            lemma_reachable_step(list_dir, root@, dj, found@[k].path@, depth as nat, ignore_patterns@);
                        } else {
                            assert(found@[k] == fb[k]);
                        }
                    }
                    assert forall|k: int| 0 <= k < next@.len() implies reachable(list_dir, root@, #[trigger] next@[k]@, (depth + 1) as nat, ignore_patterns@) by {
                        if k >= nb.len() {
                            assert(listed_child(list_dir, dj, next@[k]@, ignore_patterns@));
                            lemma_reachable_step(list_dir, root@, dj, next@[k]@, depth as nat, ignore_patterns@);
                        } else {
                            assert(next@[k] == nb[k]);
                        }
                    }
                }
                proof {
                    lemma_found_at_kept(fb, found@);
                    lemma_level_holds_kept(nb, next@);
                    if lister_is_stable(list_dir) && !st {
                        let ls = choose|ls: Option<Vec<String>>|
                            #[trigger] list_dir.ensures((dref,), ls) && (!st && ls is Some ==> records_listing_from(
                                found@, fb.len() as int, dref@, ls->0@, fp@, ignore_patterns@, case_sensitive)
                                && ((depth < MAX_DEPTH) ==> children_kept(next@, dref@, ls->0@, ignore_patterns@)));
                        assert forall|jj: int, p: Seq<char>|
                            0 <= jj < j + 1 && #[trigger] listed_child(list_dir, level@[jj]@, p, ignore_patterns@) implies (depth < MAX_DEPTH
                                ==> level_holds(next@, p)) && (matches_pattern(p, fp@, case_sensitive) ==> found_at(found@, p, depth + 1)) by {
                            if jj == j {
                                lemma_scan_covers(list_dir, dref, ls, p, found@, fb.len() as int, next@, fp@, ignore_patterns@, case_sensitive, depth + 1, depth < MAX_DEPTH);
                            }
                        }
                    }
                }
                if st {
                    stopped = true;
                }
                j = j + 1;
            }
        }
        proof {
            if lister_is_stable(list_dir) && !stopped {
                assert forall|p: Seq<char>, k: nat|
                    1 <= k <= depth + 1 && #[trigger] reachable(list_dir, root@, p, k, ignore_patterns@) && matches_pattern(p, fp@, case_sensitive)
                        implies found_at(found@, p, k as int) by {
                    if k == depth + 1 {
                        let q = lemma_reachable_parent(list_dir, root@, p, k, ignore_patterns@);
                        assert(level_holds(level@, q));
                        let t = choose|t: int| 0 <= t < level@.len() && (#[trigger] level@[t])@ == q;
                        assert(listed_child(list_dir, level@[t]@, p, ignore_patterns@));
                    }
                }
                if depth < MAX_DEPTH {
                    assert forall|p: Seq<char>| #[trigger] reachable(list_dir, root@, p, (depth + 1) as nat, ignore_patterns@)
                        implies level_holds(next@, p) by {
                        let q = lemma_reachable_parent(list_dir, root@, p, (depth + 1) as nat, ignore_patterns@);
                        assert(level_holds(level@, q));
                        let t = choose|t: int| 0 <= t < level@.len() && (#[trigger] level@[t])@ == q;
                        assert(listed_child(list_dir, level@[t]@, p, ignore_patterns@));
                    }
                    assert(level_complete(list_dir, root@, next@, ignore_patterns@, (depth + 1) as nat));
                }
            }
        }
        level = next;
        depth = depth + 1;
    }
    assert(first_level_ends_at(found@, n1 as int, budgeted, ctx.max_matches - c0));
    assert(forall|i: int| 0 <= i < found@.len() ==> !is_good_immediate(#[trigger] found@[i]));
    proof {
        if ls0 is Some {
            let ns = ls0->0@;
            assert forall|j: int| 0 <= j < ns.len() && child_qualifies(#[trigger] ns[j]@, fp@, ignore_patterns@, case_sensitive)
                implies exists|t: int| 0 <= t < found@.len() && (#[trigger] found@[t]).path@ == join(root@, ns[j]@) by {
                let t = choose|t: int| 0 <= t < f1.len() && (#[trigger] f1[t]).path@ == join(root@, ns[j]@);
                assert(found@[t] == f1[t]);
            }
            assert forall|i: int| 0 <= i < found@.len() && (#[trigger] found@[i]).depth_from_current == 1
                implies names_include(ns, name_of(found@[i].path@)) by {
                assert(i < n1);
                assert(found@[i] == f1[i]);
            }
            if lists_good_name(ns, fp@, ignore_patterns@, case_sensitive) {
                let j = choose|j: int| 0 <= j < ns.len() && child_qualifies(#[trigger] ns[j]@, fp@, ignore_patterns@, case_sensitive)
                    && good_name(ns[j]@, fp@, case_sensitive);
                let t = choose|t: int| 0 <= t < f1.len() && (#[trigger] f1[t]).path@ == join(root@, ns[j]@);
                lemma_name_of_join(root@, ns[j]@);
                assert(valid_down_match(f1[t], fp@, ignore_patterns@, case_sensitive));
                assert(is_good_immediate(f1[t]));
                assert(found@[t] == f1[t]);
            }
        }
        assert(list_dir.ensures((root,), ls0));
    }
    found
}

/// The downward searcher: a budgeted breadth-first search below
/// `current_dir`, with the early stop on a good match among the
/// subdirectories of `current_dir`. Every matching subdirectory of
/// `current_dir` that the lister returns is recorded; when there is no good
/// one among them and the budget was never found spent, every matching
/// directory reached within `MAX_DEPTH + 1` levels is recorded at the level
/// where it was reached (for a lister that answers the same for the same
/// directory).
pub fn search_down_breadth_first_all<L>(
    current_dir: &str,
    search_term: &str,
    case_sensitive: bool,
    ignore_patterns: &Vec<IgnorePattern>,
    list_dir: &L,
    ctx: &mut SearchContext,
) -> (r: Vec<DirectoryMatch>) where L: Fn(&str) -> Option<Vec<String>>
    requires
        lists_unignored(list_dir, current_dir@, ignore_patterns@),
        old(ctx).current_matches <= old(ctx).max_matches,
    ensures
        final(ctx).max_matches == old(ctx).max_matches,
        final(ctx).current_matches <= final(ctx).max_matches,
        forall|i: int|
            0 <= i < r@.len() ==> valid_down_match(
                #[trigger] r@[i],
                folded(search_term@, case_sensitive),
                ignore_patterns@,
                case_sensitive,
            ),
        (exists|i: int| 0 <= i < r@.len() && is_good_immediate(#[trigger] r@[i])) ==> forall|i: int|
            0 <= i < r@.len() ==> (#[trigger] r@[i]).depth_from_current == 1,
        first_level_then_deeper(r@, true, old(ctx).max_matches - old(ctx).current_matches),
        forall|i: int| 0 <= i < r@.len() ==> reachable(list_dir, current_dir@, (#[trigger] r@[i]).path@, r@[i].depth_from_current as nat, ignore_patterns@),
        exists|ls: Option<Vec<String>>|
            #[trigger] list_dir.ensures((current_dir,), ls) && (ls is Some ==> answers_listing(
                list_dir,
                current_dir@,
                ls->0@,
                r@,
                folded(search_term@, case_sensitive),
                ignore_patterns@,
                case_sensitive,
                true,
                final(ctx).exhausted,
            )),
{
    breadth_first_search(current_dir, search_term, case_sensitive, ignore_patterns, list_dir, true, ctx)
}

/// How the ancestor `k` levels above `start` matches, where it exists, has
/// a name, and is not ignored.
pub open spec fn up_match_at(
    start: Seq<char>,
    k: nat,
    fp: Seq<char>,
    ps: Seq<IgnorePattern>,
    case_sensitive: bool,
) -> Option<MatchQuality> {
    match ancestor(start, k) {
        Some(a) => if name_of(a).len() > 0 && !ignored(ps, name_of(a)) {
            up_quality(folded(name_of(a), case_sensitive), fp)
        } else {
            None
        },
        None => None,
    }
}

/// A match recorded above `start`: an ancestor, classified as `up_match_at` says.
pub open spec fn valid_up_match(
    m: DirectoryMatch,
    start: Seq<char>,
    fp: Seq<char>,
    ps: Seq<IgnorePattern>,
    case_sensitive: bool,
) -> bool {
    &&& m.depth_from_current < 0
    &&& ancestor(start, (-m.depth_from_current) as nat) == Some(m.path@)
    &&& up_match_at(start, (-m.depth_from_current) as nat, fp, ps, case_sensitive) == Some(m.match_quality)
}

/// Equal matches before partial ones; within each, the closer ancestor first.
pub open spec fn up_ordered(a: DirectoryMatch, b: DirectoryMatch) -> bool {
    (a.match_quality == MatchQuality::ExactUp && b.match_quality == MatchQuality::PartialUp) || (
    a.match_quality == b.match_quality && a.depth_from_current > b.depth_from_current)
}

pub proof fn lemma_ancestor_stays_none(p: Seq<char>, k: nat, j: nat)
    requires
        ancestor(p, k) is None,
        k <= j,
    ensures
        ancestor(p, j) is None,
    decreases j - k,
{
    if k < j {
        lemma_ancestor_stays_none(p, k, (j - 1) as nat);
    }
}

/// The upward searcher: every ancestor of `current_dir` up to the root whose
/// name is not ignored and equals or holds the pattern, equal matches first,
/// each group from the closest ancestor up. Ignored ancestors are passed over
/// and the ascent goes on above them.
pub fn search_up_tree_with_priority(
    current_dir: &str,
    search_term: &str,
    case_sensitive: bool,
    ignore_patterns: &Vec<IgnorePattern>,
) -> (r: Vec<DirectoryMatch>)
    requires
        current_dir@.len() < i32::MAX,
    ensures
        forall|i: int|
            0 <= i < r@.len() ==> valid_up_match(
                #[trigger] r@[i],
                current_dir@,
                folded(search_term@, case_sensitive),
                ignore_patterns@,
                case_sensitive,
            ),
        forall|k: nat|
            k >= 1 && #[trigger] up_match_at(current_dir@, k, folded(search_term@, case_sensitive), ignore_patterns@, case_sensitive) is Some
                ==> exists|i: int| 0 <= i < r@.len() && (#[trigger] r@[i]).depth_from_current == -k,
        forall|i: int, j: int| 0 <= i < j < r@.len() ==> up_ordered(r@[i], r@[j]),
{
    let ghost start = current_dir@;
    let fp = folded_chars(search_term, case_sensitive);
    let ghost f = fp@;
    let mut exact: Vec<DirectoryMatch> = Vec::new();
    let mut partial: Vec<DirectoryMatch> = Vec::new();
    let mut current = <String as vstd::string::StringExecFns>::from_str(current_dir);
    let mut k: usize = 0;
    loop
        invariant
            start == current_dir@,
            f == folded(search_term@, case_sensitive),
            fp@ == f,
            ancestor(start, k as nat) == Some(current@),
            current@.len() + k <= start.len(),
            start.len() < i32::MAX,
            forall|i: int| 0 <= i < exact@.len() ==> valid_up_match(#[trigger] exact@[i], start, f, ignore_patterns@, case_sensitive)
                && exact@[i].match_quality == MatchQuality::ExactUp && exact@[i].depth_from_current >= -k,
            forall|i: int| 0 <= i < partial@.len() ==> valid_up_match(#[trigger] partial@[i], start, f, ignore_patterns@, case_sensitive)
                && partial@[i].match_quality == MatchQuality::PartialUp && partial@[i].depth_from_current >= -k,
            forall|i: int, j: int| 0 <= i < j < exact@.len() ==> exact@[i].depth_from_current > exact@[j].depth_from_current,
            forall|i: int, j: int| 0 <= i < j < partial@.len() ==> partial@[i].depth_from_current > partial@[j].depth_from_current,
            forall|j: nat| 1 <= j <= k && #[trigger] up_match_at(start, j, f, ignore_patterns@, case_sensitive) is Some ==>
                (exists|i: int| 0 <= i < exact@.len() && (#[trigger] exact@[i]).depth_from_current == -j)
                || (exists|i: int| 0 <= i < partial@.len() && (#[trigger] partial@[i]).depth_from_current == -j),
        ensures
            ancestor(start, (k + 1) as nat) is None,
            forall|i: int| 0 <= i < exact@.len() ==> valid_up_match(#[trigger] exact@[i], start, f, ignore_patterns@, case_sensitive)
                && exact@[i].match_quality == MatchQuality::ExactUp,
            forall|i: int| 0 <= i < partial@.len() ==> valid_up_match(#[trigger] partial@[i], start, f, ignore_patterns@, case_sensitive)
                && partial@[i].match_quality == MatchQuality::PartialUp,
            forall|i: int, j: int| 0 <= i < j < exact@.len() ==> exact@[i].depth_from_current > exact@[j].depth_from_current,
            forall|i: int, j: int| 0 <= i < j < partial@.len() ==> partial@[i].depth_from_current > partial@[j].depth_from_current,
            forall|j: nat| 1 <= j <= k && #[trigger] up_match_at(start, j, f, ignore_patterns@, case_sensitive) is Some ==>
                (exists|i: int| 0 <= i < exact@.len() && (#[trigger] exact@[i]).depth_from_current == -j)
                || (exists|i: int| 0 <= i < partial@.len() && (#[trigger] partial@[i]).depth_from_current == -j),
        decreases current@.len(),
    {
        let par = match parent(current.as_str()) {
            Some(q) => q,
            None => {
                break;
            },
        };
        proof {
            crate::path::lemma_parent_shorter(current@);
        }
        let ghost k1 = (k + 1) as nat;
        let ghost exact0 = exact@;
        let ghost part0 = partial@;
        assert(ancestor(start, k1) == Some(par@));
        let depth: i32 = -((k + 1) as i32);
        let nm = name(par.as_str());
        let nc = chars_of(nm.as_str());
        if nc.len() > 0 && !should_ignore_directory(nm.as_str(), ignore_patterns) {
            let nf = folded_chars(nm.as_str(), case_sensitive);
            match classify_up(&nf, &fp) {
                Some(q) => {
                    let m = DirectoryMatch { path: par.clone(), depth_from_current: depth, match_quality: q };
                    assert(up_match_at(start, k1, f, ignore_patterns@, case_sensitive) == Some(q));
                    if q == MatchQuality::ExactUp {
                        exact.push(m);
                        assert(exact@[exact@.len() - 1].depth_from_current == -k1);
                    } else {
                        partial.push(m);
                        assert(partial@[partial@.len() - 1].depth_from_current == -k1);
                    }
                },
                None => {
                    assert(up_match_at(start, k1, f, ignore_patterns@, case_sensitive) is None);
                },
            }
        } else {
            assert(up_match_at(start, k1, f, ignore_patterns@, case_sensitive) is None);
        }
        proof {
            assert forall|j: nat| 1 <= j <= k1 && #[trigger] up_match_at(start, j, f, ignore_patterns@, case_sensitive) is Some implies
                (exists|i: int| 0 <= i < exact@.len() && (#[trigger] exact@[i]).depth_from_current == -j)
                || (exists|i: int| 0 <= i < partial@.len() && (#[trigger] partial@[i]).depth_from_current == -j) by {
                if j < k1 {
                    if exists|i: int| 0 <= i < exact0.len() && (#[trigger] exact0[i]).depth_from_current == -j {
                        let t = choose|i: int| 0 <= i < exact0.len() && (#[trigger] exact0[i]).depth_from_current == -j;
                        assert(exact@[t] == exact0[t]);
                    } else {
                        let t = choose|i: int| 0 <= i < part0.len() && (#[trigger] part0[i]).depth_from_current == -j;
                        assert(partial@[t] == part0[t]);
                    }
                }
            }
        }
        current = par;
        k = k + 1;
    }
    let ghost e = exact@;
    let ghost pa = partial@;
    let mut i: usize = 0;
    while i < partial.len()
        invariant
            e == exact@.subrange(0, e.len() as int),
            exact@.len() == e.len() + i,
            i <= pa.len(),
            pa == partial@,
            forall|t: int| 0 <= t < i ==> exact@[e.len() + t] == pa[t],
        decreases partial.len() - i,
    {
        let ghost before = exact@;
        exact.push(crate::ranking::copy_match(&partial[i]));
        assert(exact@.subrange(0, e.len() as int) =~= before.subrange(0, e.len() as int));
        i = i + 1;
    }
    proof {
        assert(exact@ =~= e + pa);
        assert forall|j: nat| j >= 1 && #[trigger] up_match_at(start, j, f, ignore_patterns@, case_sensitive) is Some
            implies exists|t: int| 0 <= t < exact@.len() && (#[trigger] exact@[t]).depth_from_current == -j by {
            if j > k {
                lemma_ancestor_stays_none(start, (k + 1) as nat, j);
            }
            if exists|t: int| 0 <= t < pa.len() && (#[trigger] pa[t]).depth_from_current == -j {
                let t = choose|t: int| 0 <= t < pa.len() && (#[trigger] pa[t]).depth_from_current == -j;
                assert(exact@[e.len() + t] == pa[t]);
            } else {
                let t = choose|t: int| 0 <= t < e.len() && (#[trigger] e[t]).depth_from_current == -j;
                assert(exact@[t] == e[t]);
            }
        }
        assert forall|a: int, b: int| 0 <= a < b < exact@.len() implies up_ordered(exact@[a], exact@[b]) by {
            if b < e.len() {
                assert(exact@[a] == e[a] && exact@[b] == e[b]);
            } else if a < e.len() {
                assert(exact@[a] == e[a] && exact@[b] == pa[b - e.len()]);
            } else {
                assert(exact@[a] == pa[a - e.len()] && exact@[b] == pa[b - e.len()]);
            }
        }
        assert forall|a: int| 0 <= a < exact@.len() implies valid_up_match(#[trigger] exact@[a], start, f, ignore_patterns@, case_sensitive) by {
            if a < e.len() {
                assert(exact@[a] == e[a]);
            } else {
                assert(exact@[a] == pa[a - e.len()]);
            }
        }
    }
    exact
}

} // verus!
