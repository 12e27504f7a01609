//! Character-level text helpers: containment, prefixes, lexicographic order
//! and case folding.
use vstd::prelude::*;
use vstd::string::*;

verus! {

/// `p` occurs in `s` starting at index `i`.
pub open spec fn occurs_at(p: Seq<char>, s: Seq<char>, i: int) -> bool {
    0 <= i && i + p.len() <= s.len() && s.subrange(i, i + p.len()) == p
}

/// `p` is a prefix of `s`.
pub open spec fn is_prefix(p: Seq<char>, s: Seq<char>) -> bool {
    occurs_at(p, s, 0)
}

/// `p` occurs somewhere in `s` (substring containment).
pub open spec fn contains(s: Seq<char>, p: Seq<char>) -> bool {
    exists|i: int| occurs_at(p, s, i)
}

/// Strict lexicographic order on character sequences, by code point.
pub open spec fn lex_lt(a: Seq<char>, b: Seq<char>) -> bool
    decreases a.len(),
{
    if a.len() == 0 {
        b.len() > 0
    } else if b.len() == 0 {
        false
    } else if a[0] != b[0] {
        a[0] < b[0]
    } else {
        lex_lt(a.drop_first(), b.drop_first())
    }
}

pub proof fn lemma_lex_irreflexive(a: Seq<char>)
    ensures
        !lex_lt(a, a),
    decreases a.len(),
{
    if a.len() > 0 {
        lemma_lex_irreflexive(a.drop_first());
    }
}

pub proof fn lemma_lex_transitive(a: Seq<char>, b: Seq<char>, c: Seq<char>)
    requires
        lex_lt(a, b),
        lex_lt(b, c),
    ensures
        lex_lt(a, c),
    decreases a.len(),
{
    if a.len() > 0 && b.len() > 0 && c.len() > 0 {
        if a[0] == b[0] && b[0] == c[0] {
            lemma_lex_transitive(a.drop_first(), b.drop_first(), c.drop_first());
        }
    }
}

pub proof fn lemma_lex_total(a: Seq<char>, b: Seq<char>)
    requires
        a != b,
    ensures
        lex_lt(a, b) || lex_lt(b, a),
    decreases a.len(),
{
    if a.len() > 0 && b.len() > 0 {
        if a[0] == b[0] {
            if a.drop_first() == b.drop_first() {
                assert(a =~= seq![a[0]] + a.drop_first());
                assert(b =~= seq![b[0]] + b.drop_first());
            }
            lemma_lex_total(a.drop_first(), b.drop_first());
        } else {
            assert(a[0] != b[0]);
        }
    } else if a.len() == 0 && b.len() == 0 {
        assert(a =~= b);
    }
}

pub proof fn lemma_lex_asymmetric(a: Seq<char>, b: Seq<char>)
    requires
        lex_lt(a, b),
    ensures
        !lex_lt(b, a),
    decreases a.len(),
{
    if a.len() > 0 && b.len() > 0 && a[0] == b[0] {
        lemma_lex_asymmetric(a.drop_first(), b.drop_first());
    }
}

/// The pieces of `s` between occurrences of `sep`, in order (a text
/// without `sep` is one piece).
pub open spec fn split_on(s: Seq<char>, sep: char) -> Seq<Seq<char>>
    decreases s.len(),
{
    if s.len() == 0 {
        seq![Seq::<char>::empty()]
    } else {
        let r = split_on(s.drop_last(), sep);
        if s.last() == sep {
            r.push(Seq::<char>::empty())
        } else {
            r.update(r.len() - 1, r.last().push(s.last()))
        }
    }
}

pub proof fn lemma_split_on_nonempty(s: Seq<char>, sep: char)
    ensures
        split_on(s, sep).len() >= 1,
    decreases s.len(),
{
    if s.len() > 0 {
        lemma_split_on_nonempty(s.drop_last(), sep);
    }
}

/// The pieces of `s` between occurrences of `sep`.
pub fn split_text(s: &str, sep: char) -> (r: Vec<String>)
    ensures
        r@.map_values(|x: String| x@) == split_on(s@, sep),
{
    let cs = chars_of(s);
    let mut out: Vec<String> = Vec::new();
    let mut start: usize = 0;
    let mut i: usize = 0;
    proof {
        assert(s@.subrange(0, 0) =~= Seq::<char>::empty());
        assert(out@.map_values(|x: String| x@) =~= Seq::<Seq<char>>::empty());
    }
    while i < cs.len()
        invariant
            cs@ == s@,
            start <= i <= cs@.len(),
            split_on(s@.subrange(0, i as int), sep).len() >= 1,
            split_on(s@.subrange(0, i as int), sep).last() == s@.subrange(start as int, i as int),
            out@.map_values(|x: String| x@) == split_on(s@.subrange(0, i as int), sep).drop_last(),
        decreases cs.len() - i,
    {
        let ghost pre = s@.subrange(0, i as int);
        let ghost next = s@.subrange(0, i + 1);
        proof {
            assert(next.drop_last() =~= pre);
            lemma_split_on_nonempty(pre, sep);
        }
        if cs[i] == sep {
            let piece = <String as StringExecFns>::from_str(s.substring_char(start, i));
            let ghost before = out@;
            out.push(piece);
            proof {
                let sp = split_on(pre, sep);
                assert(split_on(next, sep) == sp.push(Seq::<char>::empty()));
                assert(split_on(next, sep).drop_last() =~= sp);
                assert(sp =~= sp.drop_last().push(sp.last()));
                assert(out@.map_values(|x: String| x@) =~= before.map_values(|x: String| x@).push(piece@));
                assert(s@.subrange(i + 1, i + 1) =~= Seq::<char>::empty());
            }
            start = i + 1;
        } else {
            proof {
                let sp = split_on(pre, sep);
                assert(split_on(next, sep).drop_last() =~= sp.drop_last());
                assert(s@.subrange(start as int, i + 1) =~= sp.last().push(cs@[i as int]));
            }
        }
        i = i + 1;
    }
    let piece = <String as StringExecFns>::from_str(s.substring_char(start, cs.len()));
    let ghost before = out@;
    out.push(piece);
    proof {
        let sp = split_on(s@.subrange(0, cs@.len() as int), sep);
        assert(s@.subrange(0, cs@.len() as int) =~= s@);
        assert(sp =~= sp.drop_last().push(sp.last()));
        assert(out@.map_values(|x: String| x@) =~= before.map_values(|x: String| x@).push(piece@));
    }
    out
}

/// The characters of `s`, one by one.
pub fn chars_of(s: &str) -> (r: Vec<char>)
    ensures
        r@ == s@,
{
    let n = s.unicode_len();
    let mut r: Vec<char> = Vec::new();
    let mut i: usize = 0;
    while i < n
        invariant
            n == s@.len(),
            i <= n,
            r@ == s@.subrange(0, i as int),
        decreases n - i,
    {
        r.push(s.get_char(i));
        i = i + 1;
    }
    assert(r@ =~= s@);
    r
}

/// Whether `p` occurs in `s` at index `i`.
pub fn occurs_at_exec(p: &Vec<char>, s: &Vec<char>, i: usize) -> (r: bool)
    ensures
        r == occurs_at(p@, s@, i as int),
{
    if i > s.len() || p.len() > s.len() - i {
        return false;
    }
    let mut k: usize = 0;
    while k < p.len()
        invariant
            i + p@.len() <= s@.len(),
            k <= p@.len(),
            forall|j: int| 0 <= j < k ==> s@[i + j] == p@[j],
        decreases p.len() - k,
    {
        assert(i + k < s.len());
        if s[i + k] != p[k] {
            assert(s@.subrange(i as int, i + p@.len())[k as int] != p@[k as int]);
            return false;
        }
        k = k + 1;
    }
    assert(s@.subrange(i as int, i + p@.len()) =~= p@);
    true
}

/// Whether `p` is a prefix of `s`.
pub fn is_prefix_exec(p: &Vec<char>, s: &Vec<char>) -> (r: bool)
    ensures
        r == is_prefix(p@, s@),
{
    occurs_at_exec(p, s, 0)
}

/// Whether `p` occurs anywhere in `s`.
pub fn contains_exec(s: &Vec<char>, p: &Vec<char>) -> (r: bool)
    ensures
        r == contains(s@, p@),
{
    if p.len() > s.len() {
        assert forall|i: int| !occurs_at(p@, s@, i) by {}
        return false;
    }
    let last = s.len() - p.len();
    let mut i: usize = 0;
    loop
        invariant
            last == s@.len() - p@.len(),
            i <= last,
            forall|j: int| 0 <= j < i ==> !occurs_at(p@, s@, j),
        ensures
            forall|j: int| 0 <= j <= last ==> !occurs_at(p@, s@, j),
        decreases last - i,
    {
        if occurs_at_exec(p, s, i) {
            return true;
        }
        if i == last {
            break;
        }
        i = i + 1;
    }
    assert forall|j: int| !occurs_at(p@, s@, j) by {
        if 0 <= j && j + p@.len() <= s@.len() {
        }
    }
    false
}

/// Whether two character sequences are equal.
pub fn chars_eq(a: &Vec<char>, b: &Vec<char>) -> (r: bool)
    ensures
        r == (a@ == b@),
{
    if a.len() != b.len() {
        return false;
    }
    let r = occurs_at_exec(a, b, 0);
    proof {
        if r {
            assert(b@.subrange(0, a@.len() as int) =~= b@);
        } else {
            assert(b@.subrange(0, a@.len() as int) =~= b@);
        }
    }
    r
}

/// Whether `a` comes strictly before `b` in lexicographic order.
pub fn lex_lt_exec(a: &Vec<char>, b: &Vec<char>) -> (r: bool)
    ensures
        r == lex_lt(a@, b@),
{
    let mut i: usize = 0;
    assert(a@.subrange(0, a@.len() as int) =~= a@);
    assert(b@.subrange(0, b@.len() as int) =~= b@);
    while i < a.len() && i < b.len() && a[i] == b[i]
        invariant
            i <= a@.len(),
            i <= b@.len(),
            lex_lt(a@, b@) == lex_lt(a@.subrange(i as int, a@.len() as int), b@.subrange(i as int, b@.len() as int)),
        decreases a.len() - i,
    {
        proof {
            let sa = a@.subrange(i as int, a@.len() as int);
            let sb = b@.subrange(i as int, b@.len() as int);
            assert(sa.drop_first() =~= a@.subrange(i + 1, a@.len() as int));
            assert(sb.drop_first() =~= b@.subrange(i + 1, b@.len() as int));
        }
        i = i + 1;
    }
    let sa = Ghost(a@.subrange(i as int, a@.len() as int));
    let sb = Ghost(b@.subrange(i as int, b@.len() as int));
    if i == a.len() {
        i < b.len()
    } else if i == b.len() {
        false
    } else {
        assert(sa@[0] == a@[i as int] && sb@[0] == b@[i as int]);
        a[i] < b[i]
    }
}

/// What `str::to_lowercase` makes of a character sequence.
pub uninterp spec fn lower_of(s: Seq<char>) -> Seq<char>;

/// Relies on `str::to_lowercase`: the lower-case form depends on the
/// characters alone, and each character maps to at least one, so only the
/// empty text is empty in lower case.
#[verifier::external_body]
fn lowercase(s: &str) -> (r: String)
    ensures
        r@ == lower_of(s@),
        r@.len() == 0 <==> s@.len() == 0,
{
    s.to_lowercase()
}

/// The form in which a name or pattern is compared: itself when matching is
/// case sensitive, its lower-case form otherwise.
pub open spec fn folded(s: Seq<char>, case_sensitive: bool) -> Seq<char> {
    if case_sensitive {
        s
    } else {
        lower_of(s)
    }
}

/// The characters of `s` in the form in which they are compared.
pub fn folded_chars(s: &str, case_sensitive: bool) -> (r: Vec<char>)
    ensures
        r@ == folded(s@, case_sensitive),
        r@.len() == 0 <==> s@.len() == 0,
{
    if case_sensitive {
        chars_of(s)
    } else {
        let l = lowercase(s);
        chars_of(l.as_str())
    }
}

/// No text of `s` comes lexicographically before an earlier one.
pub open spec fn names_sorted(s: Seq<String>) -> bool {
    forall|a: int, b: int| 0 <= a < b < s.len() ==> !lex_lt(s[b]@, s[a]@)
}

fn string_lt(a: &String, b: &String) -> (r: bool)
    ensures
        r == lex_lt(a@, b@),
{
    let ac = chars_of(a.as_str());
    let bc = chars_of(b.as_str());
    lex_lt_exec(&ac, &bc)
}

/// The same names in lexicographic order.
pub fn sort_names(names: Vec<String>) -> (r: Vec<String>)
    ensures
        names_sorted(r@),
        r@.len() == names@.len(),
        forall|x: String| r@.contains(x) <==> names@.contains(x),
{
    let mut rest = names;
    let mut out: Vec<String> = Vec::new();
    while rest.len() > 0
        invariant
            out@.len() + rest@.len() == names@.len(),
            names_sorted(out@),
            forall|a: int, b: int| 0 <= a < out@.len() && 0 <= b < rest@.len() ==> !lex_lt(rest@[b]@, out@[a]@),
            forall|x: String| (out@ + rest@).contains(x) <==> names@.contains(x),
        decreases rest.len(),
    {
        let mut mi: usize = 0;
        let mut j: usize = 1;
        proof {
            lemma_lex_irreflexive(rest@[0]@);
        }
        while j < rest.len()
            invariant
                0 <= mi < j <= rest@.len(),
                forall|t: int| 0 <= t < j ==> !lex_lt(rest@[t]@, rest@[mi as int]@),
            decreases rest.len() - j,
        {
            if string_lt(&rest[j], &rest[mi]) {
                proof {
                    assert forall|t: int| 0 <= t < j + 1 implies !lex_lt(rest@[t]@, rest@[j as int]@) by {
                        if t == j as int {
                            lemma_lex_irreflexive(rest@[t]@);
                        } else if lex_lt(rest@[t]@, rest@[j as int]@) {
                            lemma_lex_transitive(rest@[t]@, rest@[j as int]@, rest@[mi as int]@);
                        }
                    }
                }
                mi = j;
            }
            j = j + 1;
        }
        let ghost old_out = out@;
        let ghost old_rest = rest@;
        let x = rest.remove(mi);
        out.push(x);
        proof {
            assert forall|y: String| (out@ + rest@).contains(y) <==> (old_out + old_rest).contains(y) by {
                if (old_out + old_rest).contains(y) {
                    let w = choose|w: int| 0 <= w < (old_out + old_rest).len() && (old_out + old_rest)[w] == y;
                    if w < old_out.len() {
                        assert((out@ + rest@)[w] == y);
                    } else if w - old_out.len() < mi {
                        assert((out@ + rest@)[w + 1] == y);
                    } else if w - old_out.len() == mi {
                        assert((out@ + rest@)[old_out.len() as int] == y);
                    } else {
                        assert((out@ + rest@)[w] == y);
                    }
                }
                if (out@ + rest@).contains(y) {
                    let w = choose|w: int| 0 <= w < (out@ + rest@).len() && (out@ + rest@)[w] == y;
                    if w < old_out.len() {
                        assert((old_out + old_rest)[w] == y);
                    } else if w == old_out.len() {
                        assert((old_out + old_rest)[old_out.len() + mi] == y);
                    } else if w - old_out.len() - 1 < mi {
                        assert((old_out + old_rest)[w - 1] == y);
                    } else {
                        assert((old_out + old_rest)[w] == y);
                    }
                }
            }
            assert forall|a: int, b: int| 0 <= a < b < out@.len() implies !lex_lt(out@[b]@, out@[a]@) by {
                if b == old_out.len() {
                    assert(out@[b] == old_rest[mi as int]);
                    assert(out@[a] == old_out[a]);
                } else {
                    assert(out@[a] == old_out[a]);
                    assert(out@[b] == old_out[b]);
                }
            }
            assert forall|a: int, b: int| 0 <= a < out@.len() && 0 <= b < rest@.len() implies !lex_lt(rest@[b]@, out@[a]@) by {
                let ob = if b < mi { b } else { b + 1 };
                assert(rest@[b] == old_rest[ob]);
                if a == old_out.len() {
                    assert(out@[a] == old_rest[mi as int]);
                } else {
                    assert(out@[a] == old_out[a]);
                }
            }
        }
    }
    assert(out@ + rest@ =~= out@);
    out
}

} // verus!
