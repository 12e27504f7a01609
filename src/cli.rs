//! The command line: a search term, an optional index into the ranked
//! matches, and three flags; and the candidate locations of the ignore file.
use vstd::prelude::*;
use vstd::string::*;
use crate::path::join;
use crate::ranking::DirectoryMatch;
use crate::text::chars_of;

verus! {

/// What the command line asks for.
pub struct Options {
    pub search_term: String,
    pub tab_index: usize,
    pub case_sensitive: bool,
    pub quiet: bool,
    pub bypass_ignore: bool,
}

/// The value of a decimal digit.
pub open spec fn digit_value(c: char) -> int {
    (c as int) - ('0' as int)
}

/// `c` is a decimal digit.
pub open spec fn is_digit(c: char) -> bool {
    '0' <= c && c <= '9'
}

/// The number written by a sequence of decimal digits.
pub open spec fn decimal_value(s: Seq<char>) -> int
    decreases s.len(),
{
    if s.len() == 0 {
        0
    } else {
        decimal_value(s.drop_last()) * 10 + digit_value(s.last())
    }
}

/// The digits of a written index: the text without a leading `+`.
pub open spec fn index_digits(s: Seq<char>) -> Seq<char> {
    if s.len() > 0 && s[0] == '+' {
        s.drop_first()
    } else {
        s
    }
}

/// A written index is valid when its digits are not empty, are all decimal
/// digits, and write a number that fits in `usize`.
pub open spec fn index_of(s: Seq<char>) -> Option<int> {
    let d = index_digits(s);
    if d.len() > 0 && (forall|k: int| 0 <= k < d.len() ==> is_digit(#[trigger] d[k])) && decimal_value(d)
        <= usize::MAX {
        Some(decimal_value(d))
    } else {
        None
    }
}

proof fn lemma_decimal_grows(s: Seq<char>, k: int, j: int)
    requires
        0 <= k <= j <= s.len(),
        forall|t: int| 0 <= t < s.len() ==> is_digit(#[trigger] s[t]),
    ensures
        decimal_value(s.subrange(0, k)) <= decimal_value(s.subrange(0, j)),
        decimal_value(s.subrange(0, j)) >= 0,
    decreases j,
{
    if j > 0 {
        assert(s.subrange(0, j).drop_last() =~= s.subrange(0, j - 1));
        if k < j {
            lemma_decimal_grows(s, k, j - 1);
        } else {
            lemma_decimal_grows(s, j - 1, j - 1);
        }
    }
}

fn digit_of(c: char) -> (r: Option<usize>)
    ensures
        r is Some <==> is_digit(c),
        r matches Some(v) ==> v as int == digit_value(c),
{
    if '0' <= c && c <= '9' {
        let v = (c as u32 - '0' as u32) as usize;
        Some(v)
    } else {
        None
    }
}

/// The index written in `s`, as `str::parse::<usize>` reads it: optional
/// `+`, then decimal digits, within `usize`.
pub fn parse_index(s: &str) -> (r: Option<usize>)
    ensures
        match r {
            Some(v) => index_of(s@) == Some(v as int),
            None => index_of(s@) is None,
        },
{
    let all = chars_of(s);
    let start: usize = if all.len() > 0 && all[0] == '+' { 1 } else { 0 };
    let ghost d = index_digits(s@);
    assert(d =~= all@.subrange(start as int, all@.len() as int));
    if start >= all.len() {
        return None;
    }
    let mut k: usize = start;
    while k < all.len()
        invariant
            start <= k <= all@.len(),
            d == all@.subrange(start as int, all@.len() as int),
            d == index_digits(s@),
            forall|t: int| start <= t < k ==> is_digit(#[trigger] all@[t]),
        decreases all.len() - k,
    {
        if digit_of(all[k]).is_none() {
            assert(!is_digit(d[k - start]));
            return None;
        }
        k = k + 1;
    }
    assert(forall|t: int| 0 <= t < d.len() ==> is_digit(#[trigger] d[t]) ) by {
        assert forall|t: int| 0 <= t < d.len() implies is_digit(#[trigger] d[t]) by {
            assert(d[t] == all@[start + t]);
        }
    }
    let mut v: usize = 0;
    let mut i: usize = start;
    assert(d.subrange(0, 0) =~= Seq::<char>::empty());
    while i < all.len()
        invariant
            start <= i <= all@.len(),
            d == all@.subrange(start as int, all@.len() as int),
            d == index_digits(s@),
            forall|t: int| 0 <= t < d.len() ==> is_digit(#[trigger] d[t]),
            v as int == decimal_value(d.subrange(0, i - start)),
        decreases all.len() - i,
    {
        let dv = match digit_of(all[i]) {
            Some(x) => x,
            None => 0,
        };
        proof {
            assert(d[i - start] == all@[i as int]);
            assert(d.subrange(0, i - start + 1).drop_last() =~= d.subrange(0, i - start));
        }
        let next = match v.checked_mul(10) {
            Some(t) => t.checked_add(dv),
            None => None,
        };
        match next {
            Some(n) => {
                v = n;
            },
            None => {
                proof {
                    assert(is_digit(d[i - start]));
                    assert(decimal_value(d.subrange(0, i - start + 1)) == v * 10 + dv);
                    assert(v * 10 + dv > usize::MAX);
                    lemma_decimal_grows(d, i - start + 1, d.len() as int);
                    assert(d.subrange(0, d.len() as int) =~= d);
                }
                return None;
            },
        }
        i = i + 1;
    }
    assert(d.subrange(0, d.len() as int) =~= d);
    Some(v)
}

/// The options after reading one more argument: `-i` turns matching case
/// insensitive, `-x` bypasses the ignore list, `--quiet` hides the progress
/// indicator; the first other argument is the search term and the next one
/// the index (0 when it is not a valid index). Later ones are passed over.
pub open spec fn read_argument(st: (Seq<char>, int, bool, bool, bool), a: Seq<char>) -> (Seq<char>, int, bool, bool, bool) {
    if a == seq!['-', 'i'] {
        (st.0, st.1, false, st.3, st.4)
    } else if a == seq!['-', 'x'] {
        (st.0, st.1, st.2, st.3, true)
    } else if a == seq!['-', '-', 'q', 'u', 'i', 'e', 't'] {
        (st.0, st.1, st.2, true, st.4)
    } else if st.0.len() == 0 {
        (a, st.1, st.2, st.3, st.4)
    } else if st.1 == 0 {
        (st.0, match index_of(a) { Some(v) => v, None => 0 }, st.2, st.3, st.4)
    } else {
        st
    }
}

/// The options read from a list of arguments: term, index, case
/// sensitivity, quiet, bypass of the ignore list.
pub open spec fn read_arguments(args: Seq<Seq<char>>) -> (Seq<char>, int, bool, bool, bool)
    decreases args.len(),
{
    if args.len() == 0 {
        (Seq::<char>::empty(), 0, true, false, false)
    } else {
        read_argument(read_arguments(args.drop_last()), args.last())
    }
}

/// The arguments after the program's name.
pub open spec fn program_arguments(args: Seq<Seq<char>>) -> Seq<Seq<char>> {
    if args.len() == 0 {
        args
    } else {
        args.skip(1)
    }
}

/// The options of a command line whose first argument is the program's
/// name; `None` when no search term is given.
pub fn parse_arguments(args: &Vec<String>) -> (r: Option<Options>)
    ensures
        ({
            let st = read_arguments(program_arguments(args@.map_values(|a: String| a@)));
            match r {
                Some(o) => st.0.len() > 0 && o.search_term@ == st.0 && o.tab_index as int == st.1
                    && o.case_sensitive == st.2 && o.quiet == st.3 && o.bypass_ignore == st.4,
                None => st.0.len() == 0,
            }
        }),
{
    let ghost all = args@.map_values(|a: String| a@);
    let flag_i = chars_of("-i");
    let flag_x = chars_of("-x");
    let flag_quiet = chars_of("--quiet");
    proof {
        reveal_strlit("-i");
        reveal_strlit("-x");
        reveal_strlit("--quiet");
        assert(flag_i@ =~= seq!['-', 'i']);
        assert(flag_x@ =~= seq!['-', 'x']);
        assert(flag_quiet@ =~= seq!['-', '-', 'q', 'u', 'i', 'e', 't']);
    }
    let mut term = String::new();
    let mut tab_index: usize = 0;
    let mut case_sensitive = true;
    let mut quiet = false;
    let mut bypass_ignore = false;
    let mut i: usize = 1;
    if args.len() == 0 {
        return None;
    }
    assert(all.skip(1).subrange(0, 0) =~= Seq::<Seq<char>>::empty());
    while i < args.len()
        invariant
            1 <= i <= args@.len(),
            all == args@.map_values(|a: String| a@),
            flag_i@ == seq!['-', 'i'],
            flag_x@ == seq!['-', 'x'],
            flag_quiet@ == seq!['-', '-', 'q', 'u', 'i', 'e', 't'],
            read_arguments(all.skip(1).subrange(0, i - 1)) == (term@, tab_index as int, case_sensitive, quiet, bypass_ignore),
        decreases args.len() - i,
    {
        let a = chars_of(args[i].as_str());
        proof {
            assert(all.skip(1).subrange(0, i as int).drop_last() =~= all.skip(1).subrange(0, i - 1));
            assert(all.skip(1).subrange(0, i as int).last() == a@);
        }
        if crate::text::chars_eq(&a, &flag_i) {
            case_sensitive = false;
        } else if crate::text::chars_eq(&a, &flag_x) {
            bypass_ignore = true;
        } else if crate::text::chars_eq(&a, &flag_quiet) {
            quiet = true;
        } else if term.as_str().unicode_len() == 0 {
            term = args[i].clone();
        } else if tab_index == 0 {
            tab_index = match parse_index(args[i].as_str()) {
                Some(v) => v,
                None => 0,
            };
        }
        i = i + 1;
    }
    assert(all.skip(1).subrange(0, args@.len() - 1) =~= all.skip(1));
    if term.as_str().unicode_len() == 0 {
        return None;
    }
    Some(Options { search_term: term, tab_index, case_sensitive, quiet, bypass_ignore })
}

/// The path of the match at `index` in the ranked list; `None` when the
/// list is shorter.
pub fn select_match(matches: &Vec<DirectoryMatch>, index: usize) -> (r: Option<String>)
    ensures
        match r {
            Some(p) => index < matches@.len() && p@ == matches@[index as int].path@,
            None => index >= matches@.len(),
        },
{
    if index < matches.len() {
        Some(matches[index].path.clone())
    } else {
        None
    }
}

/// Where the ignore file is looked for, in priority order: the current
/// directory, the user's configuration directory (the XDG one when set,
/// else `.config` under the home directory, else `.config`), the home
/// directory, and the system configuration.
pub open spec fn ignore_file_locations(
    cwd: Option<Seq<char>>,
    config_home: Option<Seq<char>>,
    home: Option<Seq<char>>,
) -> Seq<Seq<char>> {
    let local = match cwd {
        Some(c) => seq![join(c, ".jcdignore"@)],
        None => Seq::<Seq<char>>::empty(),
    };
    let config = match config_home {
        Some(x) => x,
        None => match home {
            Some(h) => join(h, ".config"@),
            None => ".config"@,
        },
    };
    let legacy = match home {
        Some(h) => seq![join(h, ".jcdignore"@)],
        None => Seq::<Seq<char>>::empty(),
    };
    local + seq![join(join(config, "jcd"@), "ignore"@)] + legacy + seq!["/etc/jcd/ignore"@]
}

/// The candidate ignore files, given the current directory and the values
/// of the configuration-home and home variables, where known.
pub fn get_ignore_file_paths(
    cwd: Option<&str>,
    config_home: Option<&str>,
    home: Option<&str>,
) -> (r: Vec<String>)
    ensures
        r@.map_values(|p: String| p@) == ignore_file_locations(
            match cwd { Some(c) => Some(c@), None => None },
            match config_home { Some(c) => Some(c@), None => None },
            match home { Some(c) => Some(c@), None => None },
        ),
{
    let mut paths: Vec<String> = Vec::new();
    match cwd {
        Some(c) => paths.push(crate::path::join_name(c, ".jcdignore")),
        None => {},
    }
    let config = match config_home {
        Some(x) => <String as StringExecFns>::from_str(x),
        None => match home {
            Some(h) => crate::path::join_name(h, ".config"),
            None => <String as StringExecFns>::from_str(".config"),
        },
    };
    let jcd = crate::path::join_name(config.as_str(), "jcd");
    paths.push(crate::path::join_name(jcd.as_str(), "ignore"));
    match home {
        Some(h) => paths.push(crate::path::join_name(h, ".jcdignore")),
        None => {},
    }
    paths.push(<String as StringExecFns>::from_str("/etc/jcd/ignore"));
    proof {
        let e = ignore_file_locations(
            match cwd { Some(c) => Some(c@), None => None },
            match config_home { Some(c) => Some(c@), None => None },
            match home { Some(c) => Some(c@), None => None },
        );
        assert(paths@.map_values(|p: String| p@) =~= e);
    }
    paths
}

} // verus!
