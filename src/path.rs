//! Paths as text: the parent of a path, its last component, and joining a
//! name onto a directory. Components are separated by `/`.
use vstd::prelude::*;
use vstd::string::*;

verus! {

/// The index of the last separator in `p`, or -1 when there is none.
pub open spec fn last_sep(p: Seq<char>) -> int
    decreases p.len(),
{
    if p.len() == 0 {
        -1
    } else if p.last() == '/' {
        p.len() - 1
    } else {
        last_sep(p.drop_last())
    }
}

/// The path one level up from `p`; none for the root and the empty path.
pub open spec fn parent_of(p: Seq<char>) -> Option<Seq<char>> {
    let i = last_sep(p);
    if p.len() == 0 || p == seq!['/'] {
        None
    } else if i < 0 {
        Some(Seq::<char>::empty())
    } else if i == 0 {
        Some(seq!['/'])
    } else {
        Some(p.subrange(0, i))
    }
}

/// The last component of `p` (empty for the root).
pub open spec fn name_of(p: Seq<char>) -> Seq<char> {
    p.subrange(last_sep(p) + 1, p.len() as int)
}

/// `n` holds no separator.
pub open spec fn is_plain_name(n: Seq<char>) -> bool {
    forall|k: int| 0 <= k < n.len() ==> n[k] != '/'
}

/// The path of the entry `n` inside directory `d`.
pub open spec fn join(d: Seq<char>, n: Seq<char>) -> Seq<char> {
    if d.len() > 0 && d.last() == '/' {
        d + n
    } else {
        d + seq!['/'] + n
    }
}

pub proof fn lemma_last_sep_bounds(p: Seq<char>)
    ensures
        -1 <= last_sep(p) < p.len(),
        last_sep(p) >= 0 ==> p[last_sep(p)] == '/',
        forall|k: int| last_sep(p) < k < p.len() ==> p[k] != '/',
    decreases p.len(),
{
    if p.len() > 0 && p.last() != '/' {
        lemma_last_sep_bounds(p.drop_last());
        assert forall|k: int| last_sep(p) < k < p.len() implies p[k] != '/' by {
            if k < p.len() - 1 {
                assert(p.drop_last()[k] == p[k]);
            }
        }
    }
}

/// A separator followed by a plain name: the last separator is the one
/// just before the name.
pub proof fn lemma_last_sep_before_name(d: Seq<char>, n: Seq<char>)
    requires
        d.len() > 0,
        d.last() == '/',
        is_plain_name(n),
    ensures
        last_sep(d + n) == d.len() - 1,
    decreases n.len(),
{
    if n.len() == 0 {
        assert(d + n =~= d);
    } else {
        let m = n.drop_last();
        assert((d + n).drop_last() =~= d + m);
        lemma_last_sep_before_name(d, m);
    }
}

/// The last component of a joined path is the joined name.
pub proof fn lemma_name_of_join(d: Seq<char>, n: Seq<char>)
    requires
        is_plain_name(n),
    ensures
        name_of(join(d, n)) == n,
{
    let dd = if d.len() > 0 && d.last() == '/' { d } else { d + seq!['/'] };
    assert(join(d, n) == dd + n);
    lemma_last_sep_before_name(dd, n);
    assert((dd + n).subrange(dd.len() as int, (dd + n).len() as int) =~= n);
}

/// A parent is shorter than its child.
pub proof fn lemma_parent_shorter(p: Seq<char>)
    requires
        parent_of(p) is Some,
    ensures
        parent_of(p)->0.len() < p.len(),
{
    lemma_last_sep_bounds(p);
    if last_sep(p) == 0 && p.len() == 1 {
        assert(p =~= seq!['/']);
    }
}

fn last_sep_exec(p: &Vec<char>) -> (r: Option<usize>)
    ensures
        match r {
            Some(i) => last_sep(p@) == i as int,
            None => last_sep(p@) == -1,
        },
{
    let mut i: usize = p.len();
    assert(p@.subrange(0, p@.len() as int) =~= p@);
    while i > 0
        invariant
            i <= p@.len(),
            last_sep(p@) == last_sep(p@.subrange(0, i as int)),
        decreases i,
    {
        proof {
            assert(p@.subrange(0, i as int).drop_last() =~= p@.subrange(0, i - 1));
        }
        if p[i - 1] == '/' {
            return Some(i - 1);
        }
        i = i - 1;
    }
    None
}

/// The path one level up from `p`; `None` for the root and the empty path.
pub fn parent(p: &str) -> (r: Option<String>)
    ensures
        match r {
            Some(q) => parent_of(p@) == Some(q@),
            None => parent_of(p@) is None,
        },
{
    let cs = crate::text::chars_of(p);
    if cs.len() == 0 || (cs.len() == 1 && cs[0] == '/') {
        proof {
            if cs@.len() == 1 {
                assert(p@ =~= seq!['/']);
            }
        }
        return None;
    }
    proof {
        assert(p@ != seq!['/']) by {
            if p@ == seq!['/'] {
                assert(p@[0] == '/');
            }
        }
    }
    proof {
        lemma_last_sep_bounds(p@);
        reveal_strlit("/");
    }
    match last_sep_exec(&cs) {
        None => Some(String::new()),
        Some(i) => {
            if i == 0 {
                Some(<String as StringExecFns>::from_str("/"))
            } else {
                Some(<String as StringExecFns>::from_str(p.substring_char(0, i)))
            }
        },
    }
}

/// The last component of `p` (empty for the root).
pub fn name(p: &str) -> (r: String)
    ensures
        r@ == name_of(p@),
{
    let cs = crate::text::chars_of(p);
    proof {
        lemma_last_sep_bounds(p@);
    }
    let start: usize = match last_sep_exec(&cs) {
        None => 0,
        Some(i) => {
            assert(i < cs.len());
            i + 1
        },
    };
    proof {
        lemma_last_sep_bounds(p@);
    }
    <String as StringExecFns>::from_str(p.substring_char(start, cs.len()))
}

/// The path of the entry `n` inside directory `d`.
pub fn join_name(d: &str, n: &str) -> (r: String)
    ensures
        r@ == join(d@, n@),
{
    let cs = crate::text::chars_of(d);
    let mut r = <String as StringExecFns>::from_str(d);
    proof {
        reveal_strlit("/");
    }
    if !(cs.len() > 0 && cs[cs.len() - 1] == '/') {
        r.append("/");
    }
    r.append(n);
    r
}

/// Whether `n` holds no separator.
pub fn is_plain_name_exec(n: &Vec<char>) -> (r: bool)
    ensures
        r == is_plain_name(n@),
{
    let mut k: usize = 0;
    while k < n.len()
        invariant
            k <= n@.len(),
            forall|j: int| 0 <= j < k ==> n@[j] != '/',
        decreases n.len() - k,
    {
        if n[k] == '/' {
            return false;
        }
        k = k + 1;
    }
    true
}

} // verus!
