//! The path-segment searcher: a pattern with separators is split into
//! segments that are matched in order, each either right below the
//! directory reached so far or deeper, going down from the start and from
//! its ancestors, under the search budget.
use vstd::prelude::*;
use crate::budget::SearchContext;
use crate::ignore::{IgnorePattern, ignored, should_ignore_directory};
use crate::path::{join, join_name, name, name_of, parent, is_plain_name, is_plain_name_exec, lemma_name_of_join};
use crate::ranking::{DirectoryMatch, MatchQuality};
use crate::search::{ancestor, lists_unignored, listed_child, names_include, reachable, lemma_reachable_start, lemma_reachable_prepend};
use crate::text::{chars_eq, chars_of, contains, contains_exec, folded, folded_chars, split_on, split_text};

verus! {

/// Deepest a descent from the start goes, in levels.
pub const DESCENT_DEPTH: usize = 4;

/// Deepest a descent from a matching ancestor goes, in levels.
pub const ANCESTOR_DESCENT_DEPTH: usize = 3;

/// Most ancestors looked at.
pub const MAX_ASCENT: usize = 10;

/// A match for the last segment `last`: a plain, non-empty, non-ignored name
/// that holds the segment, of an exact quality exactly when it equals it,
/// within the levels the search can reach.
pub open spec fn valid_segment_match(
    m: DirectoryMatch,
    last: Seq<char>,
    ps: Seq<IgnorePattern>,
    case_sensitive: bool,
) -> bool {
    let n = name_of(m.path@);
    let f = folded(n, case_sensitive);
    &&& n.len() > 0
    &&& is_plain_name(n)
    &&& !ignored(ps, n)
    &&& contains(f, last)
    &&& (m.match_quality == MatchQuality::ExactUp || m.match_quality == MatchQuality::ExactDown) == (f == last)
    &&& crate::ranking::is_up(m.match_quality) == (m.depth_from_current <= 0)
    &&& -(MAX_ASCENT as int) <= m.depth_from_current <= DESCENT_DEPTH
}

/// A listed name that a search for segment `seg` takes: plain, non-empty,
/// not ignored, and holding the segment in folded form.
pub open spec fn segment_child_qualifies(n: Seq<char>, seg: Seq<char>, ps: Seq<IgnorePattern>, case_sensitive: bool) -> bool {
    n.len() > 0 && is_plain_name(n) && !ignored(ps, n) && contains(folded(n, case_sensitive), seg)
}

/// Every name of a listing of `dir` that the search for `seg` takes is
/// recorded in `found`, at `depth`.
pub open spec fn records_segment_listing(
    found: Seq<DirectoryMatch>,
    dir: Seq<char>,
    names: Seq<String>,
    seg: Seq<char>,
    depth: int,
    ps: Seq<IgnorePattern>,
    case_sensitive: bool,
) -> bool {
    forall|j: int|
        0 <= j < names.len() && segment_child_qualifies(#[trigger] names[j]@, seg, ps, case_sensitive) ==> exists|i: int|
            0 <= i < found.len() && (#[trigger] found[i]).path@ == join(dir, names[j]@) && found[i].depth_from_current == depth
}

fn segment_quality(exact: bool, base_depth: i32) -> (r: MatchQuality)
    ensures
        (r == MatchQuality::ExactUp || r == MatchQuality::ExactDown) == exact,
        crate::ranking::is_up(r) == (base_depth < 0),
{
    if exact {
        if base_depth < 0 { MatchQuality::ExactUp } else { MatchQuality::ExactDown }
    } else {
        if base_depth < 0 { MatchQuality::PartialUp } else { MatchQuality::PartialDown }
    }
}

/// Looks below `current_dir` for segment `idx` and the segments after it,
/// at most `max_depth` levels down. A subdirectory whose name holds the
/// segment is recorded when it is the last one, and searched for the next
/// one otherwise; every subdirectory is also searched for the same segment
/// one level deeper. The budget is checked before each directory and each
/// entry; each match is recorded against it.
pub fn search_pattern_recursive_fast<L>(
    current_dir: &str,
    segs: &Vec<Vec<char>>,
    idx: usize,
    matches: &mut Vec<DirectoryMatch>,
    context: &mut SearchContext,
    base_depth: i32,
    max_depth: usize,
    case_sensitive: bool,
    ignore_patterns: &Vec<IgnorePattern>,
    list_dir: &L,
) where L: Fn(&str) -> Option<Vec<String>>
    requires
        lists_unignored(list_dir, current_dir@, ignore_patterns@),
        idx < segs@.len(),
        -(MAX_ASCENT as int) <= base_depth,
        base_depth + max_depth <= DESCENT_DEPTH,
        old(context).current_matches <= old(context).max_matches,
    ensures
        final(context).max_matches == old(context).max_matches,
        final(context).current_matches <= final(context).max_matches,
        final(matches)@.len() - old(matches)@.len() == final(context).current_matches - old(context).current_matches,
        final(matches)@.len() >= old(matches)@.len(),
        forall|i: int| 0 <= i < old(matches)@.len() ==> final(matches)@[i] == old(matches)@[i],
        forall|i: int|
            old(matches)@.len() <= i < final(matches)@.len() ==> valid_segment_match(
                #[trigger] final(matches)@[i],
                segs@.last()@,
                ignore_patterns@,
                case_sensitive,
            ),
        forall|i: int|
            old(matches)@.len() <= i < final(matches)@.len() ==> reachable(list_dir, current_dir@, (#[trigger] final(matches)@[i]).path@, (final(matches)@[i].depth_from_current - base_depth) as nat, ignore_patterns@) && base_depth < final(matches)@[i].depth_from_current <= base_depth + max_depth,
        old(context).exhausted ==> final(context).exhausted,
        max_depth == 0 || old(context).exhausted ==> final(matches)@ == old(matches)@,
        idx == segs@.len() - 1 && max_depth > 0 && !final(context).exhausted ==> exists|ls: Option<Vec<String>>|
            #[trigger] list_dir.ensures((current_dir,), ls) && (ls is Some ==> records_segment_listing(
                final(matches)@,
                current_dir@,
                ls->0@,
                segs@[idx as int]@,
                base_depth + 1,
                ignore_patterns@,
                case_sensitive,
            )),
        !final(context).exhausted ==> segment_complete(
            list_dir,
            current_dir@,
            segs@.map_values(|v: Vec<char>| v@),
            idx as int,
            base_depth as int,
            max_depth as nat,
            final(matches)@,
            ignore_patterns@,
            case_sensitive,
        ),
    decreases max_depth,
{
    if max_depth == 0 {
        return;
    }
    if !context.proceed() {
        return;
    }
    let listed = list_dir(current_dir);
    let ghost listing = listed;
    assert(list_dir.ensures((current_dir,), listing));
    let names = match listed {
        Some(ns) => crate::text::sort_names(ns),
        None => {
            assert(list_dir.ensures((current_dir,), listing));
            return;
        },
    };
    let ghost m0 = matches@;
    let ghost c0 = *context;
    let last = segs.len() - 1;
    let mut i: usize = 0;
    let mut stop = false;
    while i < names.len() && !stop
        invariant
            stop ==> context.exhausted,
            c0.exhausted ==> context.exhausted,
            !context.exhausted ==> forall|j: int|
                0 <= j < i && entered_name(#[trigger] names@[j]@, ignore_patterns@) ==> child_complete(list_dir, current_dir@, names@[j]@, segs@.map_values(|v: Vec<char>| v@), idx as int, base_depth as int, (max_depth - 1) as nat, matches@, ignore_patterns@, case_sensitive),
            i <= names@.len(),
            list_dir.ensures((current_dir,), listing),
            listing is Some,
            forall|x: String| names@.contains(x) <==> listing->0@.contains(x),
            idx == last ==> forall|j: int|
                0 <= j < i && segment_child_qualifies(#[trigger] names@[j]@, segs@[idx as int]@, ignore_patterns@, case_sensitive)
                    ==> exists|t: int| 0 <= t < matches@.len() && (#[trigger] matches@[t]).path@ == join(current_dir@, names@[j]@)
                        && matches@[t].depth_from_current == base_depth + 1,
            lists_unignored(list_dir, current_dir@, ignore_patterns@),
            idx < segs@.len(),
            last == segs@.len() - 1,
            -(MAX_ASCENT as int) <= base_depth,
            1 <= max_depth,
            base_depth + max_depth <= DESCENT_DEPTH,
            m0 == old(matches)@,
            c0 == *old(context),
            context.max_matches == c0.max_matches,
            context.current_matches <= context.max_matches,
            matches@.len() - m0.len() == context.current_matches - c0.current_matches,
            matches@.len() >= m0.len(),
            forall|k: int| 0 <= k < m0.len() ==> matches@[k] == m0[k],
            forall|k: int| m0.len() <= k < matches@.len() ==> reachable(list_dir, current_dir@, (#[trigger] matches@[k]).path@, (matches@[k].depth_from_current - base_depth) as nat, ignore_patterns@) && base_depth < matches@[k].depth_from_current <= base_depth + max_depth,
            forall|k: int|
                m0.len() <= k < matches@.len() ==> valid_segment_match(
                    #[trigger] matches@[k],
                    segs@.last()@,
                    ignore_patterns@,
                    case_sensitive,
                ),
        decreases names.len() - i, if stop { 0int } else { 1int },
    {
        if !context.proceed() {
            stop = true;
            continue;
        }
        let ghost before = matches@;
        let n = &names[i];
        let nc = chars_of(n.as_str());
        i = i + 1;
        if nc.len() == 0 || !is_plain_name_exec(&nc) || should_ignore_directory(n.as_str(), ignore_patterns) {
            continue;
        }
        let child = join_name(current_dir, n.as_str());
        proof {
            lemma_name_of_join(current_dir@, n@);
            assert(names@.contains(names@[i - 1]));
            let lv = listing->0;
            assert(lv@.contains(names@[i - 1]));
            let w = choose|w: int| 0 <= w < lv@.len() && lv@[w] == names@[i - 1];
            assert(names_include(lv@, name_of(child@)));
            assert(list_dir.ensures((current_dir,), Some(lv)));
            assert(listed_child(list_dir, current_dir@, child@, ignore_patterns@));
            lemma_reachable_start(list_dir, child@, ignore_patterns@);
        }
        let nf = folded_chars(n.as_str(), case_sensitive);
        if contains_exec(&nf, &segs[idx]) {
            if idx == last {
                let q = segment_quality(chars_eq(&nf, &segs[idx]), base_depth);
                matches.push(DirectoryMatch { path: child.clone(), depth_from_current: base_depth + 1, match_quality: q });
                context.add_match();
                proof {
                    lemma_reachable_prepend(list_dir, current_dir@, child@, child@, 0, ignore_patterns@);
                    assert forall|k: int| m0.len() <= k < matches@.len() implies reachable(list_dir, current_dir@, (#[trigger] matches@[k]).path@, (matches@[k].depth_from_current - base_depth) as nat, ignore_patterns@) && base_depth < matches@[k].depth_from_current <= base_depth + max_depth by {
                        if k < before.len() {
                            assert(matches@[k] == before[k]);
                        }
                    }
                    assert(matches@[matches@.len() - 1].path@ == join(current_dir@, names@[i - 1]@));
                    assert forall|j: int|
                        0 <= j < i && segment_child_qualifies(#[trigger] names@[j]@, segs@[idx as int]@, ignore_patterns@, case_sensitive)
                            implies exists|t: int| 0 <= t < matches@.len() && (#[trigger] matches@[t]).path@ == join(current_dir@, names@[j]@)
                                && matches@[t].depth_from_current == base_depth + 1 by {
                        if j < i - 1 {
                            let t = choose|t: int| 0 <= t < before.len() && (#[trigger] before[t]).path@ == join(current_dir@, names@[j]@)
                                && before[t].depth_from_current == base_depth + 1;
                            assert(matches@[t] == before[t]);
                        } else {
                            assert(matches@[matches@.len() - 1].path@ == join(current_dir@, names@[j]@));
                        }
                    }
                }
            } else {
                let ghost b1 = matches@;
                search_pattern_recursive_fast(
                    child.as_str(),
                    segs,
                    idx + 1,
                    matches,
                    context,
                    base_depth + 1,
                    max_depth - 1,
                    case_sensitive,
                    ignore_patterns,
                    list_dir,
                );
                proof {
                    assert forall|k: int| m0.len() <= k < matches@.len() implies reachable(list_dir, current_dir@, (#[trigger] matches@[k]).path@, (matches@[k].depth_from_current - base_depth) as nat, ignore_patterns@) && base_depth < matches@[k].depth_from_current <= base_depth + max_depth by {
                        if k < b1.len() {
                            assert(matches@[k] == b1[k]);
                        } else {
                            let m = matches@[k];
                            lemma_reachable_prepend(list_dir, current_dir@, child@, m.path@, (m.depth_from_current - (base_depth + 1)) as nat, ignore_patterns@);
                            assert(((m.depth_from_current - (base_depth + 1)) as nat + 1) as nat == (m.depth_from_current - base_depth) as nat);
                        }
                    }
                }
            }
        }
        let ghost mid = matches@;
        proof {
            assert(forall|k: int| 0 <= k < before.len() ==> mid[k] == before[k]);
            if !context.exhausted && contains(nf@, segs@[idx as int]@) {
                if idx == last {
                    assert(crate::search::found_at(mid, child@, base_depth + 1)) by {
                        assert(mid[before.len() as int].path@ == child@);
                    }
                }
            }
        }
        let deeper = context.proceed();
        if deeper {
            search_pattern_recursive_fast(
                child.as_str(),
                segs,
                idx,
                matches,
                context,
                base_depth + 1,
                max_depth - 1,
                case_sensitive,
                ignore_patterns,
                list_dir,
            );
        }
        proof {
            assert forall|k: int| m0.len() <= k < matches@.len() implies reachable(list_dir, current_dir@, (#[trigger] matches@[k]).path@, (matches@[k].depth_from_current - base_depth) as nat, ignore_patterns@) && base_depth < matches@[k].depth_from_current <= base_depth + max_depth by {
                if k < mid.len() {
                    assert(matches@[k] == mid[k]);
                } else {
                    let m = matches@[k];
                    lemma_reachable_prepend(list_dir, current_dir@, child@, m.path@, (m.depth_from_current - (base_depth + 1)) as nat, ignore_patterns@);
                    assert(((m.depth_from_current - (base_depth + 1)) as nat + 1) as nat == (m.depth_from_current - base_depth) as nat);
                }
            }
            if !context.exhausted {
                assert(forall|k: int| 0 <= k < mid.len() ==> matches@[k] == mid[k]);
                assert(forall|k: int| 0 <= k < before.len() ==> matches@[k] == before[k]);
                assert(deeper);
                assert forall|j: int|
                    0 <= j < i && entered_name(#[trigger] names@[j]@, ignore_patterns@) implies child_complete(list_dir, current_dir@, names@[j]@, segs@.map_values(|v: Vec<char>| v@), idx as int, base_depth as int, (max_depth - 1) as nat, matches@, ignore_patterns@, case_sensitive) by {
                    if j < i - 1 {
                        lemma_child_complete_grows(list_dir, current_dir@, names@[j]@, segs@.map_values(|v: Vec<char>| v@), idx as int, base_depth as int, (max_depth - 1) as nat, before, matches@, ignore_patterns@, case_sensitive);
                    } else {
                        assert(join(current_dir@, names@[j]@) == child@);
                        if contains(folded(names@[j]@, case_sensitive), segs@.map_values(|v: Vec<char>| v@)[idx as int]) {
                            assert(segs@.map_values(|v: Vec<char>| v@)[idx as int] == segs@[idx as int]@);
                            if idx == last {
                                let t = choose|t: int| 0 <= t < mid.len() && (#[trigger] mid[t]).path@ == child@ && mid[t].depth_from_current == base_depth + 1;
                                assert(matches@[t] == mid[t]);
                            } else {
                                lemma_segment_complete_grows(list_dir, child@, segs@.map_values(|v: Vec<char>| v@), idx + 1, base_depth + 1, (max_depth - 1) as nat, mid, matches@, ignore_patterns@, case_sensitive);
                            }
                        }
                    }
                }
            }
            if idx == last {
                assert forall|j: int|
                    0 <= j < i && segment_child_qualifies(#[trigger] names@[j]@, segs@[idx as int]@, ignore_patterns@, case_sensitive)
                        implies exists|t: int| 0 <= t < matches@.len() && (#[trigger] matches@[t]).path@ == join(current_dir@, names@[j]@)
                            && matches@[t].depth_from_current == base_depth + 1 by {
                    let t = choose|t: int| 0 <= t < mid.len() && (#[trigger] mid[t]).path@ == join(current_dir@, names@[j]@)
                        && mid[t].depth_from_current == base_depth + 1;
                    assert(matches@[t] == mid[t]);
                }
            }
        }
    }
    proof {
        if !context.exhausted {
            let ns = listing->0;
            assert forall|j: int| 0 <= j < ns@.len() && entered_name(#[trigger] ns@[j]@, ignore_patterns@) implies child_complete(list_dir, current_dir@, ns@[j]@, segs@.map_values(|v: Vec<char>| v@), idx as int, base_depth as int, (max_depth - 1) as nat, matches@, ignore_patterns@, case_sensitive) by {
                assert(ns@.contains(ns@[j]));
                assert(names@.contains(ns@[j]));
                let w = choose|w: int| 0 <= w < names@.len() && names@[w] == ns@[j];
                assert(entered_name(names@[w]@, ignore_patterns@));
            }
            assert(list_dir.ensures((current_dir,), listing));
        }
        if idx == last && !context.exhausted {
            let ns = listing->0;
            assert forall|j: int| 0 <= j < ns@.len() && segment_child_qualifies(#[trigger] ns@[j]@, segs@[idx as int]@, ignore_patterns@, case_sensitive)
                implies exists|t: int| 0 <= t < matches@.len() && (#[trigger] matches@[t]).path@ == join(current_dir@, ns@[j]@)
                    && matches@[t].depth_from_current == base_depth + 1 by {
                assert(ns@.contains(ns@[j]));
                assert(names@.contains(ns@[j]));
                let w = choose|w: int| 0 <= w < names@.len() && names@[w] == ns@[j];
                assert(segment_child_qualifies(names@[w]@, segs@[idx as int]@, ignore_patterns@, case_sensitive));
            }
        }
    }
}

/// The match `m` lies below the ancestor `k` levels above `start` (`start`
/// itself when `k` is 0, at most `MAX_ASCENT` levels up): its path is reached
/// from that ancestor through listed, non-ignored entries, as many steps as
/// its depth lies below the ancestor.
pub open spec fn found_below_ancestor<L: Fn(&str) -> Option<Vec<String>>>(
    list_dir: &L,
    start: Seq<char>,
    m: DirectoryMatch,
    ps: Seq<IgnorePattern>,
    k: nat,
) -> bool {
    &&& k <= MAX_ASCENT
    &&& m.depth_from_current + k >= 0
    &&& match ancestor(start, k) {
        Some(a) => reachable(list_dir, a, m.path@, (m.depth_from_current + k) as nat, ps),
        None => false,
    }
}

/// `m` lies below `start` or below one of its closest ancestors.
pub open spec fn found_below_start_or_ancestor<L: Fn(&str) -> Option<Vec<String>>>(
    list_dir: &L,
    start: Seq<char>,
    m: DirectoryMatch,
    ps: Seq<IgnorePattern>,
) -> bool {
    exists|k: nat| #[trigger] found_below_ancestor(list_dir, start, m, ps, k)
}

/// A name a segment search enters: plain, non-empty, not ignored.
pub open spec fn entered_name(n: Seq<char>, ps: Seq<IgnorePattern>) -> bool {
    n.len() > 0 && is_plain_name(n) && !ignored(ps, n)
}

/// The segment search from `dir` for segment `idx` on, with `max_depth`
/// levels left, is complete in `r`: some listing that the lister gave for
/// `dir` has each of its entered names searched as `child_complete` says.
pub open spec fn segment_complete<L: Fn(&str) -> Option<Vec<String>>>(
    list_dir: &L,
    dir: Seq<char>,
    segs: Seq<Seq<char>>,
    idx: int,
    base: int,
    max_depth: nat,
    r: Seq<DirectoryMatch>,
    ps: Seq<IgnorePattern>,
    case_sensitive: bool,
) -> bool
    decreases max_depth, 0int,
{
    if max_depth == 0 {
        true
    } else {
        exists|s: &str, ls: Option<Vec<String>>|
            s@ == dir && #[trigger] list_dir.ensures((s,), ls) && (ls is Some ==> forall|j: int|
                0 <= j < ls->0@.len() && entered_name(#[trigger] ls->0@[j]@, ps) ==> child_complete(
                    list_dir,
                    dir,
                    ls->0@[j]@,
                    segs,
                    idx,
                    base,
                    (max_depth - 1) as nat,
                    r,
                    ps,
                    case_sensitive,
                ))
    }
}

/// The entry `n` of `dir` is searched completely in `r`: when its folded
/// name holds segment `idx`, it is recorded at depth `base + 1` if that is
/// the last segment, and searched for the next segment otherwise; in any
/// case it is searched for the same segment one level deeper (`md` levels
/// left below it).
pub open spec fn child_complete<L: Fn(&str) -> Option<Vec<String>>>(
    list_dir: &L,
    dir: Seq<char>,
    n: Seq<char>,
    segs: Seq<Seq<char>>,
    idx: int,
    base: int,
    md: nat,
    r: Seq<DirectoryMatch>,
    ps: Seq<IgnorePattern>,
    case_sensitive: bool,
) -> bool
    decreases md, 1int,
{
    let c = join(dir, n);
    &&& contains(folded(n, case_sensitive), segs[idx]) ==> (idx == segs.len() - 1 ==> crate::search::found_at(r, c, base + 1))
        && (idx < segs.len() - 1 ==> segment_complete(list_dir, c, segs, idx + 1, base + 1, md, r, ps, case_sensitive))
    &&& segment_complete(list_dir, c, segs, idx, base + 1, md, r, ps, case_sensitive)
}

pub proof fn lemma_segment_complete_grows<L: Fn(&str) -> Option<Vec<String>>>(
    list_dir: &L,
    dir: Seq<char>,
    segs: Seq<Seq<char>>,
    idx: int,
    base: int,
    max_depth: nat,
    r1: Seq<DirectoryMatch>,
    r2: Seq<DirectoryMatch>,
    ps: Seq<IgnorePattern>,
    case_sensitive: bool,
)
    requires
        segment_complete(list_dir, dir, segs, idx, base, max_depth, r1, ps, case_sensitive),
        r1.len() <= r2.len(),
        forall|i: int| 0 <= i < r1.len() ==> r2[i] == r1[i],
    ensures
        segment_complete(list_dir, dir, segs, idx, base, max_depth, r2, ps, case_sensitive),
    decreases max_depth, 0int,
{
    if max_depth > 0 {
        let (s, ls) = choose|s: &str, ls: Option<Vec<String>>|
            s@ == dir && #[trigger] list_dir.ensures((s,), ls) && (ls is Some ==> forall|j: int|
                0 <= j < ls->0@.len() && entered_name(#[trigger] ls->0@[j]@, ps) ==> child_complete(
                    list_dir, dir, ls->0@[j]@, segs, idx, base, (max_depth - 1) as nat, r1, ps, case_sensitive));
        if ls is Some {
            let v = ls->0@;
            assert forall|j: int| 0 <= j < v.len() && entered_name(#[trigger] v[j]@, ps) implies child_complete(
                list_dir, dir, v[j]@, segs, idx, base, (max_depth - 1) as nat, r2, ps, case_sensitive) by {
                lemma_child_complete_grows(list_dir, dir, v[j]@, segs, idx, base, (max_depth - 1) as nat, r1, r2, ps, case_sensitive);
            }
        }
        assert(list_dir.ensures((s,), ls));
    }
}

pub proof fn lemma_child_complete_grows<L: Fn(&str) -> Option<Vec<String>>>(
    list_dir: &L,
    dir: Seq<char>,
    n: Seq<char>,
    segs: Seq<Seq<char>>,
    idx: int,
    base: int,
    md: nat,
    r1: Seq<DirectoryMatch>,
    r2: Seq<DirectoryMatch>,
    ps: Seq<IgnorePattern>,
    case_sensitive: bool,
)
    requires
        child_complete(list_dir, dir, n, segs, idx, base, md, r1, ps, case_sensitive),
        r1.len() <= r2.len(),
        forall|i: int| 0 <= i < r1.len() ==> r2[i] == r1[i],
    ensures
        child_complete(list_dir, dir, n, segs, idx, base, md, r2, ps, case_sensitive),
    decreases md, 1int,
{
    let c = join(dir, n);
    lemma_segment_complete_grows(list_dir, c, segs, idx, base + 1, md, r1, r2, ps, case_sensitive);
    if contains(folded(n, case_sensitive), segs[idx]) {
        if idx == segs.len() - 1 {
            let i = choose|i: int| 0 <= i < r1.len() && (#[trigger] r1[i]).path@ == c && r1[i].depth_from_current == base + 1;
            assert(r2[i] == r1[i]);
        }
        if idx < segs.len() - 1 {
            lemma_segment_complete_grows(list_dir, c, segs, idx + 1, base + 1, md, r1, r2, ps, case_sensitive);
        }
    }
}

/// The last segment of a term, in folded form.
pub open spec fn last_segment(term: Seq<char>, case_sensitive: bool) -> Seq<char> {
    folded(split_on(term, '/').last(), case_sensitive)
}

/// The segments of a term, each in folded form.
pub open spec fn folded_segments(term: Seq<char>, case_sensitive: bool) -> Seq<Seq<char>> {
    split_on(term, '/').map_values(|p: Seq<char>| folded(p, case_sensitive))
}

/// The ancestor `k` levels above `start` is searched completely in `r`:
/// where its name is entered and holds the first segment, it is itself
/// recorded at depth `-k` when there is one segment, and searched below for
/// the remaining segments otherwise.
pub open spec fn ancestor_searched<L: Fn(&str) -> Option<Vec<String>>>(
    list_dir: &L,
    start: Seq<char>,
    segs: Seq<Seq<char>>,
    k: nat,
    r: Seq<DirectoryMatch>,
    ps: Seq<IgnorePattern>,
    case_sensitive: bool,
) -> bool {
    match ancestor(start, k) {
        Some(a) => (name_of(a).len() > 0 && !ignored(ps, name_of(a)) && contains(folded(name_of(a), case_sensitive), segs[0]))
            ==> (segs.len() == 1 ==> crate::search::found_at(r, a, -k)) && (segs.len() > 1 ==> segment_complete(
            list_dir,
            a,
            segs,
            1,
            -k,
            ANCESTOR_DESCENT_DEPTH as nat,
            r,
            ps,
            case_sensitive,
        )),
        None => true,
    }
}

proof fn lemma_ancestor_searched_grows<L: Fn(&str) -> Option<Vec<String>>>(
    list_dir: &L,
    start: Seq<char>,
    segs: Seq<Seq<char>>,
    k: nat,
    r1: Seq<DirectoryMatch>,
    r2: Seq<DirectoryMatch>,
    ps: Seq<IgnorePattern>,
    case_sensitive: bool,
)
    requires
        ancestor_searched(list_dir, start, segs, k, r1, ps, case_sensitive),
        r1.len() <= r2.len(),
        forall|i: int| 0 <= i < r1.len() ==> r2[i] == r1[i],
    ensures
        ancestor_searched(list_dir, start, segs, k, r2, ps, case_sensitive),
{
    crate::search::lemma_found_at_kept(r1, r2);
    match ancestor(start, k) {
        Some(a) => {
            if name_of(a).len() > 0 && !ignored(ps, name_of(a)) && contains(folded(name_of(a), case_sensitive), segs[0]) && segs.len() > 1 {
                lemma_segment_complete_grows(list_dir, a, segs, 1, -k, ANCESTOR_DESCENT_DEPTH as nat, r1, r2, ps, case_sensitive);
            }
        },
        None => {},
    }
}

/// The path-segment searcher: the segments of `search_term` are looked for
/// below `current_dir`, then below each of its closest ancestors whose name
/// holds the first segment (an ancestor is itself the match when there is
/// one segment only). Every match recorded is one for the last segment,
/// lies below the start or one of those ancestors through listed entries
/// whose names are not ignored, and is recorded against the budget, so no
/// more are added than it allows. When the budget was never found spent,
/// the search is complete: from the start and from each matching ancestor,
/// every listed entry is followed as `segment_complete` says.
pub fn search_path_pattern_fast<L>(
    current_dir: &str,
    search_term: &str,
    matches: &mut Vec<DirectoryMatch>,
    context: &mut SearchContext,
    case_sensitive: bool,
    ignore_patterns: &Vec<IgnorePattern>,
    list_dir: &L,
) where L: Fn(&str) -> Option<Vec<String>>
    requires
        lists_unignored(list_dir, current_dir@, ignore_patterns@),
        old(context).current_matches <= old(context).max_matches,
    ensures
        final(context).max_matches == old(context).max_matches,
        final(context).current_matches <= final(context).max_matches,
        final(matches)@.len() - old(matches)@.len() == final(context).current_matches - old(context).current_matches,
        final(matches)@.len() >= old(matches)@.len(),
        forall|i: int| 0 <= i < old(matches)@.len() ==> final(matches)@[i] == old(matches)@[i],
        forall|i: int|
            old(matches)@.len() <= i < final(matches)@.len() ==> valid_segment_match(
                #[trigger] final(matches)@[i],
                last_segment(search_term@, case_sensitive),
                ignore_patterns@,
                case_sensitive,
            ),
        forall|i: int|
            old(matches)@.len() <= i < final(matches)@.len() ==> found_below_start_or_ancestor(
                list_dir,
                current_dir@,
                #[trigger] final(matches)@[i],
                ignore_patterns@,
            ),
        old(context).exhausted ==> final(context).exhausted,
        old(context).exhausted ==> final(matches)@ == old(matches)@,
        !final(context).exhausted ==> segment_complete(
            list_dir,
            current_dir@,
            folded_segments(search_term@, case_sensitive),
            0,
            0,
            DESCENT_DEPTH as nat,
            final(matches)@,
            ignore_patterns@,
            case_sensitive,
        ),
        !final(context).exhausted ==> forall|k: nat|
            1 <= k <= MAX_ASCENT ==> #[trigger] ancestor_searched(list_dir, current_dir@, folded_segments(search_term@, case_sensitive), k, final(matches)@, ignore_patterns@, case_sensitive),
        split_on(search_term@, '/').len() == 1 && !final(context).exhausted ==> exists|ls: Option<Vec<String>>|
            #[trigger] list_dir.ensures((current_dir,), ls) && (ls is Some ==> records_segment_listing(
                final(matches)@,
                current_dir@,
                ls->0@,
                last_segment(search_term@, case_sensitive),
                1,
                ignore_patterns@,
                case_sensitive,
            )),
{
    let parts = split_text(search_term, '/');
    let ghost pieces = split_on(search_term@, '/');
    proof {
        crate::text::lemma_split_on_nonempty(search_term@, '/');
        assert(parts@.len() == pieces.len());
    }
    if !context.proceed() {
        return;
    }
    let mut segs: Vec<Vec<char>> = Vec::new();
    let mut j: usize = 0;
    while j < parts.len()
        invariant
            j <= parts@.len(),
            parts@.map_values(|x: String| x@) == pieces,
            segs@.len() == j,
            forall|t: int| 0 <= t < j ==> (#[trigger] segs@[t])@ == folded(pieces[t], case_sensitive),
        decreases parts.len() - j,
    {
        assert(parts@[j as int]@ == pieces[j as int]);
        segs.push(folded_chars(parts[j].as_str(), case_sensitive));
        j = j + 1;
    }
    assert(segs@.last()@ == last_segment(search_term@, case_sensitive));
    assert(segs@.map_values(|v: Vec<char>| v@) =~= folded_segments(search_term@, case_sensitive)) by {
        assert forall|t: int| 0 <= t < segs@.len() implies segs@.map_values(|v: Vec<char>| v@)[t] == folded_segments(search_term@, case_sensitive)[t] by {
            assert(segs@[t]@ == folded(pieces[t], case_sensitive));
        }
    }
    search_pattern_recursive_fast(
        current_dir,
        &segs,
        0,
        matches,
        context,
        0,
        DESCENT_DEPTH,
        case_sensitive,
        ignore_patterns,
        list_dir,
    );
    let ghost m0 = old(matches)@;
    let ghost m1 = matches@;
    proof {
        assert(ancestor(current_dir@, 0) == Some(current_dir@));
        assert forall|k: int| m0.len() <= k < matches@.len() implies found_below_start_or_ancestor(list_dir, current_dir@, #[trigger] matches@[k], ignore_patterns@) by {
            assert(found_below_ancestor(list_dir, current_dir@, matches@[k], ignore_patterns@, 0));
        }
    }
    let ghost first_complete = !context.exhausted;
    let ghost sc = folded_segments(search_term@, case_sensitive);
    let ghost ls1 = if segs@.len() == 1 && first_complete {
        choose|ls: Option<Vec<String>>|
            #[trigger] list_dir.ensures((current_dir,), ls) && (ls is Some ==> records_segment_listing(
                m1,
                current_dir@,
                ls->0@,
                segs@[0]@,
                1,
                ignore_patterns@,
                case_sensitive,
            ))
    } else {
        None
    };
    let mut current = <String as vstd::string::StringExecFns>::from_str(current_dir);
    let mut up_count: usize = 0;
    while up_count < MAX_ASCENT && !context.exhausted
        invariant
            lists_unignored(list_dir, current_dir@, ignore_patterns@),
            ancestor(current_dir@, up_count as nat) == Some(current@),
            segs@.map_values(|v: Vec<char>| v@) == sc,
            sc == folded_segments(search_term@, case_sensitive),
            !context.exhausted ==> segment_complete(list_dir, current_dir@, sc, 0, 0, DESCENT_DEPTH as nat, matches@, ignore_patterns@, case_sensitive),
            !context.exhausted ==> forall|k: nat|
                1 <= k <= up_count ==> #[trigger] ancestor_searched(list_dir, current_dir@, sc, k, matches@, ignore_patterns@, case_sensitive),
            forall|k: int| m0.len() <= k < matches@.len() ==> found_below_start_or_ancestor(list_dir, current_dir@, #[trigger] matches@[k], ignore_patterns@),
            m1.len() <= matches@.len(),
            forall|k: int| 0 <= k < m1.len() ==> matches@[k] == m1[k],
            !context.exhausted ==> first_complete,
            segs@.len() >= 1,
            segs@.last()@ == last_segment(search_term@, case_sensitive),
            m0 == old(matches)@,
            up_count <= MAX_ASCENT,
            context.max_matches == old(context).max_matches,
            context.current_matches <= context.max_matches,
            matches@.len() - m0.len() == context.current_matches - old(context).current_matches,
            matches@.len() >= m0.len(),
            forall|k: int| 0 <= k < m0.len() ==> matches@[k] == m0[k],
            forall|k: int|
                m0.len() <= k < matches@.len() ==> valid_segment_match(
                    #[trigger] matches@[k],
                    segs@.last()@,
                    ignore_patterns@,
                    case_sensitive,
                ),
        ensures
            !context.exhausted ==> up_count >= MAX_ASCENT || ancestor(current_dir@, (up_count + 1) as nat) is None,
        decreases MAX_ASCENT - up_count,
    {
        if !context.proceed() {
            break;
        }
        let par = match parent(current.as_str()) {
            Some(q) => q,
            None => {
                assert(ancestor(current_dir@, (up_count + 1) as nat) is None);
                break;
            },
        };
        let depth: i32 = -((up_count + 1) as i32);
        let ghost ku = (up_count + 1) as nat;
        assert(ancestor(current_dir@, ku) == Some(par@));
        let ghost bm = matches@;
        let nm = name(par.as_str());
        let nc = chars_of(nm.as_str());
        if nc.len() > 0 && !should_ignore_directory(nm.as_str(), ignore_patterns) {
            let nf = folded_chars(nm.as_str(), case_sensitive);
            if contains_exec(&nf, &segs[0]) {
                if segs.len() == 1 {
                    let q = if chars_eq(&nf, &segs[0]) { MatchQuality::ExactUp } else { MatchQuality::PartialUp };
                    proof {
                        crate::path::lemma_last_sep_bounds(par@);
                        assert(is_plain_name(name_of(par@)));
                    }
                    matches.push(DirectoryMatch { path: par.clone(), depth_from_current: depth, match_quality: q });
                    context.add_match();
                    proof {
                        lemma_reachable_start(list_dir, par@, ignore_patterns@);
                        assert(found_below_ancestor(list_dir, current_dir@, matches@[matches@.len() - 1], ignore_patterns@, ku));
                        assert forall|k: int| m0.len() <= k < matches@.len() implies found_below_start_or_ancestor(list_dir, current_dir@, #[trigger] matches@[k], ignore_patterns@) by {
                            if k < bm.len() {
                                assert(matches@[k] == bm[k]);
                            } else {
                                assert(found_below_ancestor(list_dir, current_dir@, matches@[k], ignore_patterns@, ku));
                            }
                        }
                    }
                } else {
                    search_pattern_recursive_fast(
                        par.as_str(),
                        &segs,
                        1,
                        matches,
                        context,
                        depth,
                        ANCESTOR_DESCENT_DEPTH,
                        case_sensitive,
                        ignore_patterns,
                        list_dir,
                    );
                    proof {
                        assert forall|k: int| m0.len() <= k < matches@.len() implies found_below_start_or_ancestor(list_dir, current_dir@, #[trigger] matches@[k], ignore_patterns@) by {
                            if k < bm.len() {
                                assert(matches@[k] == bm[k]);
                            } else {
                                assert(found_below_ancestor(list_dir, current_dir@, matches@[k], ignore_patterns@, ku));
                            }
                        }
                    }
                }
            }
        }
        proof {
            if !context.exhausted {
                assert(forall|k: int| 0 <= k < bm.len() ==> matches@[k] == bm[k]);
                lemma_segment_complete_grows(list_dir, current_dir@, sc, 0, 0, DESCENT_DEPTH as nat, bm, matches@, ignore_patterns@, case_sensitive);
                assert forall|k: nat| 1 <= k <= up_count + 1 implies #[trigger] ancestor_searched(list_dir, current_dir@, sc, k, matches@, ignore_patterns@, case_sensitive) by {
                    if k <= up_count {
                        lemma_ancestor_searched_grows(list_dir, current_dir@, sc, k, bm, matches@, ignore_patterns@, case_sensitive);
                    } else {
                        assert(k == ku);
                        assert(name_of(par@) == nm@);
                    }
                }
            }
        }
        current = par;
        up_count = up_count + 1;
    }
    proof {
        if !context.exhausted {
            assert forall|k: nat| 1 <= k <= MAX_ASCENT implies #[trigger] ancestor_searched(list_dir, current_dir@, sc, k, matches@, ignore_patterns@, case_sensitive) by {
                if k > up_count {
                    crate::search::lemma_ancestor_stays_none(current_dir@, (up_count + 1) as nat, k);
                }
            }
        }
    }
    proof {
        if split_on(search_term@, '/').len() == 1 && !context.exhausted {
            assert(segs@[0]@ == last_segment(search_term@, case_sensitive));
            if ls1 is Some {
                let ns = ls1->0@;
                assert forall|j: int| 0 <= j < ns.len() && segment_child_qualifies(#[trigger] ns[j]@, last_segment(search_term@, case_sensitive), ignore_patterns@, case_sensitive)
                    implies exists|t: int| 0 <= t < matches@.len() && (#[trigger] matches@[t]).path@ == join(current_dir@, ns[j]@)
                        && matches@[t].depth_from_current == 1 by {
                    let t = choose|t: int| 0 <= t < m1.len() && (#[trigger] m1[t]).path@ == join(current_dir@, ns[j]@)
                        && m1[t].depth_from_current == 1;
                    assert(matches@[t] == m1[t]);
                }
            }
            assert(list_dir.ensures((current_dir,), ls1));
        }
    }
}

} // verus!
