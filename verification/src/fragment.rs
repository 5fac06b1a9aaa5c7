//! Pattern-based fallback extraction over raw, unparsed source text.
//!
//! The extractor looks for a `return ( <Fragment> ... </Fragment> )` pattern,
//! tolerating whitespace around the parentheses, and returns the characters
//! strictly between the fragment markers.  The match is textual: the body
//! runs from the first opening pattern to the last closing marker that a
//! closing parenthesis follows, so nested or repeated fragment markers are
//! not balanced.

use vstd::prelude::*;

use crate::text::{chars_of, is_space, is_space_char, string_of_range};

verus! {

/// `pat` occurs in `s` at position `i`.
pub open spec fn starts_with_at(s: Seq<char>, i: int, pat: Seq<char>) -> bool {
    0 <= i && i + pat.len() <= s.len() && s.subrange(i, i + pat.len()) == pat
}

pub open spec fn return_keyword() -> Seq<char> {
    seq!['r', 'e', 't', 'u', 'r', 'n']
}

pub open spec fn fragment_open() -> Seq<char> {
    seq!['<', 'F', 'r', 'a', 'g', 'm', 'e', 'n', 't', '>']
}

pub open spec fn fragment_close() -> Seq<char> {
    seq!['<', '/', 'F', 'r', 'a', 'g', 'm', 'e', 'n', 't', '>']
}

/// The first position at or after `j` holding a non-whitespace character,
/// or the length of `s` when only whitespace remains.
pub open spec fn skip_ws(s: Seq<char>, j: int) -> int
    decreases s.len() - j,
{
    if j >= s.len() {
        s.len() as int
    } else if is_space_char(s[j]) {
        skip_ws(s, j + 1)
    } else {
        j
    }
}

/// When the opening pattern `return ( <Fragment>` stands at `i`: the position
/// right after its `<Fragment>` marker.
pub open spec fn body_start_at(s: Seq<char>, i: int) -> Option<int> {
    if starts_with_at(s, i, return_keyword()) {
        let j1 = skip_ws(s, i + 6);
        if j1 < s.len() && s[j1] == '(' {
            let j2 = skip_ws(s, j1 + 1);
            if starts_with_at(s, j2, fragment_open()) {
                Some(j2 + 10)
            } else {
                None
            }
        } else {
            None
        }
    } else {
        None
    }
}

/// The body start of the leftmost opening pattern at or after `p`.
pub open spec fn first_body_start(s: Seq<char>, p: int) -> Option<int>
    decreases s.len() - p,
{
    if p >= s.len() {
        None
    } else if body_start_at(s, p) is Some {
        body_start_at(s, p)
    } else {
        first_body_start(s, p + 1)
    }
}

/// A closing pattern `</Fragment> )` stands at `k`.
pub open spec fn body_end_at(s: Seq<char>, k: int) -> bool {
    starts_with_at(s, k, fragment_close()) && {
        let j = skip_ws(s, k + 11);
        j < s.len() && s[j] == ')'
    }
}

/// The rightmost closing pattern at or before `k`.
pub open spec fn last_body_end(s: Seq<char>, k: int) -> Option<int>
    decreases k + 1,
{
    if k < 0 {
        None
    } else if body_end_at(s, k) {
        Some(k)
    } else {
        last_body_end(s, k - 1)
    }
}

/// The fragment body of a source text: the characters strictly between the
/// `<Fragment>` marker of the first `return ( <Fragment>` pattern and the
/// last `</Fragment>` marker followed by a closing parenthesis.  Absent when
/// either pattern is missing or the last closing marker precedes the body.
pub open spec fn fragment_body(s: Seq<char>) -> Option<Seq<char>> {
    match first_body_start(s, 0) {
        Option::None => Option::None,
        Option::Some(b) => match last_body_end(s, s.len() - 11) {
            Option::None => Option::None,
            Option::Some(k) => if b <= k {
                Option::Some(s.subrange(b, k))
            } else {
                Option::None
            },
        },
    }
}

fn return_pat() -> (r: Vec<char>)
    ensures
        r@ == return_keyword(),
{
    let mut v: Vec<char> = Vec::new();
    v.push('r');
    v.push('e');
    v.push('t');
    v.push('u');
    v.push('r');
    v.push('n');
    proof {
        assert(v@ =~= return_keyword());
    }
    v
}

fn open_pat() -> (r: Vec<char>)
    ensures
        r@ == fragment_open(),
{
    let mut v: Vec<char> = Vec::new();
    v.push('<');
    v.push('F');
    v.push('r');
    v.push('a');
    v.push('g');
    v.push('m');
    v.push('e');
    v.push('n');
    v.push('t');
    v.push('>');
    proof {
        assert(v@ =~= fragment_open());
    }
    v
}

fn close_pat() -> (r: Vec<char>)
    ensures
        r@ == fragment_close(),
{
    let mut v: Vec<char> = Vec::new();
    v.push('<');
    v.push('/');
    v.push('F');
    v.push('r');
    v.push('a');
    v.push('g');
    v.push('m');
    v.push('e');
    v.push('n');
    v.push('t');
    v.push('>');
    proof {
        assert(v@ =~= fragment_close());
    }
    v
}

/// Whether `pat` occurs in `v` at position `i`.
pub fn starts_with(v: &Vec<char>, i: usize, pat: &Vec<char>) -> (r: bool)
    ensures
        r == starts_with_at(v@, i as int, pat@),
{
    if pat.len() > v.len() || i > v.len() - pat.len() {
        return false;
    }
    let mut m: usize = 0;
    while m < pat.len()
        invariant
            v@.len() <= usize::MAX,
            i + pat@.len() <= v@.len(),
            m <= pat@.len(),
            forall|t: int| 0 <= t < m ==> v@[i + t] == pat@[t],
        decreases pat@.len() - m,
    {
        if v[i + m] != pat[m] {
            proof {
                assert(v@.subrange(i as int, i + pat@.len())[m as int] == v@[i + m]);
            }
            return false;
        }
        m = m + 1;
    }
    proof {
        assert(v@.subrange(i as int, i + pat@.len()) =~= pat@);
    }
    true
}

/// The first position at or after `j` holding a non-whitespace character.
pub fn skip_whitespace(v: &Vec<char>, j: usize) -> (r: usize)
    requires
        j <= v@.len(),
    ensures
        j <= r <= v@.len(),
        r as int == skip_ws(v@, j as int),
{
    let mut t: usize = j;
    while t < v.len() && is_space(v[t])
        invariant
            j <= t <= v@.len(),
            skip_ws(v@, j as int) == skip_ws(v@, t as int),
        decreases v@.len() - t,
    {
        t = t + 1;
    }
    t
}

fn body_start(v: &Vec<char>, i: usize, ret: &Vec<char>, open: &Vec<char>) -> (r: Option<usize>)
    requires
        ret@ == return_keyword(),
        open@ == fragment_open(),
    ensures
        (match r {
            Some(b) => body_start_at(v@, i as int) == Some(b as int) && b <= v@.len(),
            None => body_start_at(v@, i as int) is None,
        }),
{
    if !starts_with(v, i, ret) {
        return None;
    }
    let n = v.len();
    proof {
        assert(return_keyword().len() == 6);
    }
    let j1 = skip_whitespace(v, i + 6);
    if j1 >= n {
        return None;
    }
    if v[j1] != '(' {
        return None;
    }
    let j2 = skip_whitespace(v, j1 + 1);
    if !starts_with(v, j2, open) {
        return None;
    }
    proof {
        assert(fragment_open().len() == 10);
    }
    Some(j2 + 10)
}

fn find_first_start(v: &Vec<char>, ret: &Vec<char>, open: &Vec<char>) -> (r: Option<usize>)
    requires
        ret@ == return_keyword(),
        open@ == fragment_open(),
    ensures
        (match r {
            Some(b) => first_body_start(v@, 0) == Some(b as int) && b <= v@.len(),
            None => first_body_start(v@, 0) is None,
        }),
{
    let mut p: usize = 0;
    while p < v.len()
        invariant
            ret@ == return_keyword(),
            open@ == fragment_open(),
            p <= v@.len(),
            first_body_start(v@, 0) == first_body_start(v@, p as int),
        decreases v@.len() - p,
    {
        let r = body_start(v, p, ret, open);
        if let Some(b) = r {
            return Some(b);
        }
        proof {
            assert(first_body_start(v@, p as int)
                == first_body_start(v@, p + 1));
        }
        p = p + 1;
    }
    None
}

fn body_end(v: &Vec<char>, k: usize, close: &Vec<char>) -> (r: bool)
    requires
        close@ == fragment_close(),
    ensures
        r == body_end_at(v@, k as int),
{
    if !starts_with(v, k, close) {
        return false;
    }
    let n = v.len();
    proof {
        assert(fragment_close().len() == 11);
    }
    let j = skip_whitespace(v, k + 11);
    if j >= n {
        return false;
    }
    let c = v[j];
    c == ')'
}

fn last_end(v: &Vec<char>, close: &Vec<char>) -> (r: Option<usize>)
    requires
        close@ == fragment_close(),
    ensures
        (match r {
            Some(k) => last_body_end(v@, v@.len() - 11) == Some(k as int) && k + 11 <= v@.len(),
            None => last_body_end(v@, v@.len() - 11) is None,
        }),
{
    if v.len() < 11 {
        return None;
    }
    let mut k: usize = v.len() - 11;
    loop
        invariant
            close@ == fragment_close(),
            v@.len() >= 11,
            v@.len() <= usize::MAX,
            k <= v@.len() - 11,
            last_body_end(v@, v@.len() - 11) == last_body_end(v@, k as int),
        decreases k,
    {
        if body_end(v, k, close) {
            return Some(k);
        }
        if k == 0 {
            proof {
                assert(last_body_end(v@, 0) == last_body_end(v@, -1));
            }
            return None;
        }
        proof {
            assert(last_body_end(v@, k as int) == last_body_end(v@, k - 1));
        }
        k = k - 1;
    }
}

/// Fallback extractor: the fragment body of `input`, or `None` when the text
/// holds no `return ( <Fragment> ... </Fragment> )` pattern.  The absence of
/// the pattern is a normal outcome, not an error.
pub fn extract_html(input: &str) -> (r: Option<String>)
    ensures
        (match r {
            Some(t) => fragment_body(input@) == Some(t@),
            None => fragment_body(input@) is None,
        }),
{
    let v = chars_of(input);
    let ret = return_pat();
    let open = open_pat();
    let close = close_pat();
    match find_first_start(&v, &ret, &open) {
        None => None,
        Some(b) => match last_end(&v, &close) {
            None => None,
            Some(k) => if b <= k {
                Some(string_of_range(&v, b, k))
            } else {
                None
            },
        },
    }
}

} // verus!
