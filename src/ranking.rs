//! Match qualities, directory matches, and the final ranking: one match per
//! path, in a strict total order led by the priority bucket.
use vstd::prelude::*;
use crate::text::{chars_of, chars_eq, lex_lt, lex_lt_exec, lemma_lex_irreflexive, lemma_lex_transitive, lemma_lex_total, lemma_lex_asymmetric};

verus! {

/// How a directory name matched the pattern, and in which direction it lies.
#[derive(Debug, Clone, Copy, PartialEq, Eq, Structural)]
pub enum MatchQuality {
    ExactUp,
    PartialUp,
    ExactDown,
    PrefixDown,
    PartialDown,
}

/// A directory that matched: its path, how many levels away it lies
/// (negative above the starting directory, positive below), and how it matched.
#[derive(Debug)]
pub struct DirectoryMatch {
    pub path: String,
    pub depth_from_current: i32,
    pub match_quality: MatchQuality,
}

/// A match found above the starting directory.
pub open spec fn is_up(q: MatchQuality) -> bool {
    q == MatchQuality::ExactUp || q == MatchQuality::PartialUp
}

/// The priority bucket of a match, 0 being the best.
pub open spec fn bucket(m: DirectoryMatch) -> int {
    let near = m.depth_from_current == 1;
    match m.match_quality {
        MatchQuality::ExactDown => if near { 0 } else { 5 },
        MatchQuality::PrefixDown => if near { 1 } else { 6 },
        MatchQuality::PartialDown => if near { 2 } else { 7 },
        MatchQuality::ExactUp => 3,
        MatchQuality::PartialUp => 4,
    }
}

/// Within a bucket: the closer ancestor first for matches above, the
/// shallower descendant first for the others.
pub open spec fn depth_key(m: DirectoryMatch) -> int {
    if is_up(m.match_quality) {
        -(m.depth_from_current as int)
    } else {
        m.depth_from_current as int
    }
}

/// `a` is strictly better than `b` by bucket, then by depth.
pub open spec fn outranks(a: DirectoryMatch, b: DirectoryMatch) -> bool {
    bucket(a) < bucket(b) || (bucket(a) == bucket(b) && depth_key(a) < depth_key(b))
}

/// The final order: bucket, then depth, then path text.
pub open spec fn ranks_before(a: DirectoryMatch, b: DirectoryMatch) -> bool {
    outranks(a, b) || (bucket(a) == bucket(b) && depth_key(a) == depth_key(b) && lex_lt(
        a.path@,
        b.path@,
    ))
}

/// Each match ranks before every later one.
pub open spec fn is_ranked(s: Seq<DirectoryMatch>) -> bool {
    forall|i: int, j: int| 0 <= i < j < s.len() ==> ranks_before(s[i], s[j])
}

/// No two matches share a path.
pub open spec fn paths_distinct(s: Seq<DirectoryMatch>) -> bool {
    forall|i: int, j: int| 0 <= i < s.len() && 0 <= j < s.len() && i != j ==> s[i].path@ != s[j].path@
}

/// `s` holds a match with the path of `m` that `m` does not outrank.
pub open spec fn represents(s: Seq<DirectoryMatch>, m: DirectoryMatch) -> bool {
    exists|i: int| 0 <= i < s.len() && s[i].path@ == m.path@ && !outranks(m, s[i])
}

pub proof fn lemma_ranks_before_irreflexive(a: DirectoryMatch)
    ensures
        !ranks_before(a, a),
{
    lemma_lex_irreflexive(a.path@);
}

pub proof fn lemma_ranks_before_transitive(a: DirectoryMatch, b: DirectoryMatch, c: DirectoryMatch)
    requires
        ranks_before(a, b),
        ranks_before(b, c),
    ensures
        ranks_before(a, c),
{
    if !outranks(a, b) && !outranks(b, c) {
        lemma_lex_transitive(a.path@, b.path@, c.path@);
    }
}

pub proof fn lemma_ranks_before_total(a: DirectoryMatch, b: DirectoryMatch)
    requires
        a.path@ != b.path@,
    ensures
        ranks_before(a, b) || ranks_before(b, a),
{
    lemma_lex_total(a.path@, b.path@);
}

pub proof fn lemma_ranks_before_asymmetric(a: DirectoryMatch, b: DirectoryMatch)
    requires
        ranks_before(a, b),
    ensures
        !ranks_before(b, a),
{
    if !outranks(a, b) {
        lemma_lex_asymmetric(a.path@, b.path@);
    }
}

/// The ranking is a strict total order: irreflexive, asymmetric and
/// transitive, and any two matches with different paths are comparable.
pub proof fn lemma_ranking_is_strict_total_order(a: DirectoryMatch, b: DirectoryMatch, c: DirectoryMatch)
    ensures
        !ranks_before(a, a),
        ranks_before(a, b) ==> !ranks_before(b, a),
        ranks_before(a, b) && ranks_before(b, c) ==> ranks_before(a, c),
        a.path@ != b.path@ ==> ranks_before(a, b) || ranks_before(b, a),
        bucket(a) < bucket(b) ==> ranks_before(a, b),
{
    lemma_ranks_before_irreflexive(a);
    if ranks_before(a, b) {
        lemma_ranks_before_asymmetric(a, b);
        if ranks_before(b, c) {
            lemma_ranks_before_transitive(a, b, c);
        }
    }
    if a.path@ != b.path@ {
        lemma_ranks_before_total(a, b);
    }
}

/// In a ranked list a match of a better bucket always stands earlier,
/// whatever the depths.
pub proof fn lemma_ranked_respects_buckets(s: Seq<DirectoryMatch>, i: int, j: int)
    requires
        is_ranked(s),
        0 <= i < s.len(),
        0 <= j < s.len(),
        bucket(s[i]) < bucket(s[j]),
    ensures
        i < j,
{
    if j < i {
        assert(ranks_before(s[j], s[i]));
    } else if i == j {
    }
}

/// The priority bucket of a match.
pub fn bucket_of(m: &DirectoryMatch) -> (r: u32)
    ensures
        r as int == bucket(*m),
{
    let near = m.depth_from_current == 1;
    match m.match_quality {
        MatchQuality::ExactDown => if near { 0 } else { 5 },
        MatchQuality::PrefixDown => if near { 1 } else { 6 },
        MatchQuality::PartialDown => if near { 2 } else { 7 },
        MatchQuality::ExactUp => 3,
        MatchQuality::PartialUp => 4,
    }
}

fn depth_key_of(m: &DirectoryMatch) -> (r: i64)
    ensures
        r as int == depth_key(*m),
{
    match m.match_quality {
        MatchQuality::ExactUp | MatchQuality::PartialUp => -(m.depth_from_current as i64),
        _ => m.depth_from_current as i64,
    }
}

fn outranks_exec(a: &DirectoryMatch, b: &DirectoryMatch) -> (r: bool)
    ensures
        r == outranks(*a, *b),
{
    let ba = bucket_of(a);
    let bb = bucket_of(b);
    ba < bb || (ba == bb && depth_key_of(a) < depth_key_of(b))
}

fn ranks_before_exec(a: &DirectoryMatch, b: &DirectoryMatch) -> (r: bool)
    ensures
        r == ranks_before(*a, *b),
{
    if outranks_exec(a, b) {
        return true;
    }
    if bucket_of(a) != bucket_of(b) || depth_key_of(a) != depth_key_of(b) {
        return false;
    }
    let pa = chars_of(a.path.as_str());
    let pb = chars_of(b.path.as_str());
    lex_lt_exec(&pa, &pb)
}

/// A copy of `m`.
pub fn copy_match(m: &DirectoryMatch) -> (r: DirectoryMatch)
    ensures
        r == *m,
{
    DirectoryMatch { path: m.path.clone(), depth_from_current: m.depth_from_current, match_quality: m.match_quality }
}

fn same_path(a: &DirectoryMatch, b: &DirectoryMatch) -> (r: bool)
    ensures
        r == (a.path@ == b.path@),
{
    let pa = chars_of(a.path.as_str());
    let pb = chars_of(b.path.as_str());
    chars_eq(&pa, &pb)
}

/// One match per path: for each path the occurrence of the best bucket,
/// and among those of the shallowest depth.
fn dedup_by_path(matches: &Vec<DirectoryMatch>) -> (r: Vec<DirectoryMatch>)
    ensures
        paths_distinct(r@),
        forall|i: int| 0 <= i < r@.len() ==> #[trigger] matches@.contains(r@[i]),
        forall|k: int| 0 <= k < matches@.len() ==> represents(r@, #[trigger] matches@[k]),
{
    let mut out: Vec<DirectoryMatch> = Vec::new();
    let mut i: usize = 0;
    while i < matches.len()
        invariant
            i <= matches@.len(),
            paths_distinct(out@),
            forall|o: int| 0 <= o < out@.len() ==> #[trigger] matches@.contains(out@[o]),
            forall|k: int| 0 <= k < i ==> represents(out@, #[trigger] matches@[k]),
        decreases matches.len() - i,
    {
        let m = &matches[i];
        let mut j: usize = 0;
        while j < out.len() && !same_path(&out[j], m)
            invariant
                j <= out@.len(),
                forall|t: int| 0 <= t < j ==> out@[t].path@ != m.path@,
            decreases out.len() - j,
        {
            j = j + 1;
        }
        let found = j < out.len();
        assert(matches@.contains(matches@[i as int]));
        if !found {
            let ghost before = out@;
            out.push(copy_match(m));
            assert forall|k: int| 0 <= k <= i implies represents(out@, #[trigger] matches@[k]) by {
                if k < i {
                    let w = choose|w: int| 0 <= w < before.len() && before[w].path@ == matches@[k].path@ && !outranks(matches@[k], before[w]);
                    assert(out@[w] == before[w]);
                } else {
                    assert(out@[before.len() as int] == *m);
                }
            }
        } else if outranks_exec(m, &out[j]) {
            let ghost before = out@;
            out.set(j, copy_match(m));
            assert forall|k: int| 0 <= k <= i implies represents(out@, #[trigger] matches@[k]) by {
                if k < i {
                    let w = choose|w: int| 0 <= w < before.len() && before[w].path@ == matches@[k].path@ && !outranks(matches@[k], before[w]);
                    if w != j {
                        assert(out@[w] == before[w]);
                    } else {
                        assert(out@[w] == *m);
                    }
                } else {
                    assert(out@[j as int] == *m);
                }
            }
        } else {
            assert(represents(out@, matches@[i as int])) by {
                assert(out@[j as int].path@ == m.path@);
            }
        }
        i = i + 1;
    }
    out
}

/// The final, caller-visible list: one match per path (the best-ranked
/// occurrence of that path), in ranking order.
pub fn finalize_matches(matches: Vec<DirectoryMatch>) -> (r: Vec<DirectoryMatch>)
    ensures
        paths_distinct(r@),
        is_ranked(r@),
        forall|i: int| 0 <= i < r@.len() ==> #[trigger] matches@.contains(r@[i]),
        forall|k: int| 0 <= k < matches@.len() ==> represents(r@, #[trigger] matches@[k]),
{
    let mut rest = dedup_by_path(&matches);
    let ghost all = rest@;
    let mut out: Vec<DirectoryMatch> = Vec::new();
    while rest.len() > 0
        invariant
            paths_distinct(out@ + rest@),
            is_ranked(out@),
            forall|a: int, b: int| 0 <= a < out@.len() && 0 <= b < rest@.len() ==> ranks_before(out@[a], rest@[b]),
            forall|x: DirectoryMatch| (out@ + rest@).contains(x) <==> all.contains(x),
        decreases rest.len(),
    {
        let mut mi: usize = 0;
        let mut j: usize = 1;
        while j < rest.len()
            invariant
                0 <= mi < j <= rest@.len(),
                paths_distinct(out@ + rest@),
                forall|t: int| 0 <= t < j && t != mi ==> ranks_before(rest@[mi as int], rest@[t]),
            decreases rest.len() - j,
        {
            proof {
                assert((out@ + rest@)[out@.len() + j] == rest@[j as int]);
                assert((out@ + rest@)[out@.len() + mi] == rest@[mi as int]);
                lemma_ranks_before_total(rest@[j as int], rest@[mi as int]);
            }
            if ranks_before_exec(&rest[j], &rest[mi]) {
                proof {
                    assert forall|t: int| 0 <= t < j + 1 && t != j implies ranks_before(rest@[j as int], rest@[t]) by {
                        if t != mi {
                            lemma_ranks_before_transitive(rest@[j as int], rest@[mi as int], rest@[t]);
                        }
                    }
                }
                mi = j;
            }
            j = j + 1;
        }
        let ghost old_out = out@;
        let ghost old_rest = rest@;
        let x = rest.remove(mi);
        out.push(x);
        proof {
            assert(out@ + rest@ =~= old_out + seq![x] + old_rest.remove(mi as int));
            assert forall|y: DirectoryMatch| (out@ + rest@).contains(y) <==> (old_out + old_rest).contains(y) by {
                if (old_out + old_rest).contains(y) {
                    let w = choose|w: int| 0 <= w < (old_out + old_rest).len() && (old_out + old_rest)[w] == y;
                    if w < old_out.len() {
                        assert((out@ + rest@)[w] == y);
                    } else if w - old_out.len() < mi {
                        assert((out@ + rest@)[w + 1] == y);
                    } else if w - old_out.len() == mi {
                        assert((out@ + rest@)[old_out.len() as int] == y);
                    } else {
                        assert((out@ + rest@)[w] == y);
                    }
                }
                if (out@ + rest@).contains(y) {
                    let w = choose|w: int| 0 <= w < (out@ + rest@).len() && (out@ + rest@)[w] == y;
                    if w < old_out.len() {
                        assert((old_out + old_rest)[w] == y);
                    } else if w == old_out.len() {
                        assert((old_out + old_rest)[old_out.len() + mi] == y);
                    } else if w - old_out.len() - 1 < mi {
                        assert((old_out + old_rest)[w - 1] == y);
                    } else {
                        assert((old_out + old_rest)[w] == y);
                    }
                }
            }
            assert forall|a: int, b: int| 0 <= a < (out@ + rest@).len() && 0 <= b < (out@ + rest@).len() && a != b
                implies (out@ + rest@)[a].path@ != (out@ + rest@)[b].path@ by {
                let s = out@ + rest@;
                let o = old_out + old_rest;
                let ia = if a < old_out.len() { a } else if a == old_out.len() { old_out.len() + mi } else if a - old_out.len() - 1 < mi { a - 1 } else { a };
                let ib = if b < old_out.len() { b } else if b == old_out.len() { old_out.len() + mi } else if b - old_out.len() - 1 < mi { b - 1 } else { b };
                assert(s[a] == o[ia]);
                assert(s[b] == o[ib]);
            }
            assert forall|a: int, b: int| 0 <= a < b < out@.len() implies ranks_before(out@[a], out@[b]) by {
                if b == old_out.len() {
                    assert(out@[b] == old_rest[mi as int]);
                    assert(out@[a] == old_out[a]);
                } else {
                    assert(out@[a] == old_out[a]);
                    assert(out@[b] == old_out[b]);
                }
            }
            assert forall|a: int, b: int| 0 <= a < out@.len() && 0 <= b < rest@.len() implies ranks_before(out@[a], rest@[b]) by {
                let ob = if b < mi { b } else { b + 1 };
                assert(rest@[b] == old_rest[ob]);
                if a == old_out.len() {
                    assert(out@[a] == old_rest[mi as int]);
                } else {
                    assert(out@[a] == old_out[a]);
                }
            }
        }
    }
    proof {
        assert(out@ + rest@ =~= out@);
        assert forall|i: int| 0 <= i < out@.len() implies #[trigger] matches@.contains(out@[i]) by {
            assert(out@.contains(out@[i]));
            assert(all.contains(out@[i]));
        }
        assert forall|k: int| 0 <= k < matches@.len() implies represents(out@, #[trigger] matches@[k]) by {
            assert(represents(all, matches@[k]));
            let w = choose|w: int| 0 <= w < all.len() && all[w].path@ == matches@[k].path@ && !outranks(matches@[k], all[w]);
            assert(all.contains(all[w]));
            assert(out@.contains(all[w]));
        }
    }
    out
}

} // verus!
