//! Text normalization applied to every text leaf before it enters the
//! extracted sequence: all newline characters are removed, then leading and
//! trailing whitespace is trimmed.  Empty results are kept by callers, so the
//! rule here is exactly "strip newlines, then trim".

use vstd::prelude::*;

verus! {

/// Whitespace in the sense of Unicode `White_Space`, the set the standard
/// library's `trim` removes.
pub open spec fn is_space_char(c: char) -> bool {
    let u = c as u32;
    u == 0x20 || (0x9 <= u && u <= 0xd) || u == 0x85 || u == 0xa0 || u == 0x1680 || (0x2000 <= u
        && u <= 0x200a) || u == 0x2028 || u == 0x2029 || u == 0x202f || u == 0x205f || u == 0x3000
}

/// The sequence with every `'\n'` removed, other characters kept in order.
pub open spec fn strip_newlines(s: Seq<char>) -> Seq<char>
    decreases s.len(),
{
    if s.len() == 0 {
        Seq::empty()
    } else if s[0] == '\n' {
        strip_newlines(s.drop_first())
    } else {
        seq![s[0]] + strip_newlines(s.drop_first())
    }
}

/// Length of the maximal whitespace prefix.
pub open spec fn ws_prefix_len(s: Seq<char>) -> nat
    decreases s.len(),
{
    if s.len() == 0 {
        0
    } else if is_space_char(s[0]) {
        1 + ws_prefix_len(s.drop_first())
    } else {
        0
    }
}

/// Length of the maximal whitespace suffix.
pub open spec fn ws_suffix_len(s: Seq<char>) -> nat
    decreases s.len(),
{
    if s.len() == 0 {
        0
    } else if is_space_char(s[s.len() - 1]) {
        1 + ws_suffix_len(s.drop_last())
    } else {
        0
    }
}

/// The sequence with its whitespace prefix removed.
pub open spec fn trim_front(s: Seq<char>) -> Seq<char>
    decreases s.len(),
{
    if s.len() == 0 {
        s
    } else if is_space_char(s[0]) {
        trim_front(s.drop_first())
    } else {
        s
    }
}

/// The sequence with its whitespace suffix removed.
pub open spec fn trim_back(s: Seq<char>) -> Seq<char>
    decreases s.len(),
{
    if s.len() == 0 {
        s
    } else if is_space_char(s[s.len() - 1]) {
        trim_back(s.drop_last())
    } else {
        s
    }
}

/// The normalization rule: remove newlines, then trim both ends.
pub open spec fn normalized(s: Seq<char>) -> Seq<char> {
    trim_back(trim_front(strip_newlines(s)))
}

proof fn lemma_strip_newlines_push(s: Seq<char>, c: char)
    ensures
        strip_newlines(s.push(c)) == strip_newlines(s) + (if c == '\n' {
            Seq::<char>::empty()
        } else {
            seq![c]
        }),
    decreases s.len(),
{
    let tail: Seq<char> = if c == '\n' {
        Seq::<char>::empty()
    } else {
        seq![c]
    };
    if s.len() == 0 {
        assert(s.push(c) =~= seq![c]);
        assert(strip_newlines(Seq::<char>::empty()) == Seq::<char>::empty());
        assert(seq![c].drop_first() =~= Seq::<char>::empty());
        assert(seq![c][0] == c);
        if c == '\n' {
            assert(strip_newlines(seq![c]) == strip_newlines(seq![c].drop_first()));
            assert(strip_newlines(s) + tail =~= Seq::<char>::empty());
        } else {
            assert(strip_newlines(seq![c]) == seq![seq![c][0]] + strip_newlines(
                seq![c].drop_first(),
            ));
            assert(strip_newlines(seq![c]) =~= tail);
            assert(strip_newlines(s) + tail =~= tail);
        }
    } else {
        assert(s.push(c)[0] == s[0]);
        assert(s.push(c).drop_first() =~= s.drop_first().push(c));
        lemma_strip_newlines_push(s.drop_first(), c);
        if s[0] == '\n' {
        } else {
            assert(seq![s[0]] + (strip_newlines(s.drop_first()) + tail) =~= (seq![s[0]]
                + strip_newlines(s.drop_first())) + tail);
        }
    }
}

proof fn lemma_strip_newlines_no_newline(s: Seq<char>)
    ensures
        forall|i: int| 0 <= i < strip_newlines(s).len() ==> strip_newlines(s)[i] != '\n',
    decreases s.len(),
{
    if s.len() == 0 {
    } else if s[0] == '\n' {
        lemma_strip_newlines_no_newline(s.drop_first());
        assert(strip_newlines(s) == strip_newlines(s.drop_first()));
    } else {
        lemma_strip_newlines_no_newline(s.drop_first());
        assert(strip_newlines(s) == seq![s[0]] + strip_newlines(s.drop_first()));
        assert forall|i: int| 0 <= i < strip_newlines(s).len() implies strip_newlines(s)[i]
            != '\n' by {
            if i == 0 {
                assert(strip_newlines(s)[0] == s[0]);
            } else {
                assert(strip_newlines(s)[i] == strip_newlines(s.drop_first())[i - 1]);
            }
        }
    }
}

proof fn lemma_strip_newlines_identity(s: Seq<char>)
    requires
        forall|i: int| 0 <= i < s.len() ==> s[i] != '\n',
    ensures
        strip_newlines(s) == s,
    decreases s.len(),
{
    if s.len() == 0 {
        assert(strip_newlines(s) =~= s);
    } else {
        lemma_strip_newlines_identity(s.drop_first());
        assert(strip_newlines(s) =~= seq![s[0]] + s.drop_first());
        assert(seq![s[0]] + s.drop_first() =~= s);
    }
}

proof fn lemma_trim_front_skip(s: Seq<char>)
    ensures
        ws_prefix_len(s) <= s.len(),
        trim_front(s) == s.skip(ws_prefix_len(s) as int),
    decreases s.len(),
{
    if s.len() == 0 {
        assert(trim_front(s) =~= s.skip(0));
    } else if is_space_char(s[0]) {
        lemma_trim_front_skip(s.drop_first());
        assert(s.drop_first().skip(ws_prefix_len(s.drop_first()) as int) =~= s.skip(
            ws_prefix_len(s) as int,
        ));
    } else {
        assert(trim_front(s) =~= s.skip(0));
    }
}

proof fn lemma_trim_back_take(s: Seq<char>)
    ensures
        ws_suffix_len(s) <= s.len(),
        trim_back(s) == s.take(s.len() - ws_suffix_len(s)),
    decreases s.len(),
{
    if s.len() == 0 {
        assert(trim_back(s) =~= s.take(0));
    } else if is_space_char(s[s.len() - 1]) {
        lemma_trim_back_take(s.drop_last());
        assert(s.drop_last().take(s.drop_last().len() - ws_suffix_len(s.drop_last())) =~= s.take(
            s.len() - ws_suffix_len(s),
        ));
    } else {
        assert(trim_back(s) =~= s.take(s.len() as int));
    }
}

proof fn lemma_trim_front_head(s: Seq<char>)
    ensures
        trim_front(s).len() > 0 ==> !is_space_char(trim_front(s)[0]),
    decreases s.len(),
{
    if s.len() > 0 && is_space_char(s[0]) {
        lemma_trim_front_head(s.drop_first());
    }
}

proof fn lemma_trim_back_last(s: Seq<char>)
    ensures
        trim_back(s).len() > 0 ==> !is_space_char(trim_back(s)[trim_back(s).len() - 1]),
    decreases s.len(),
{
    if s.len() > 0 && is_space_char(s[s.len() - 1]) {
        lemma_trim_back_last(s.drop_last());
    }
}

/// Normalization is idempotent: applying the rule to an already normalized
/// string gives it back unchanged.
pub proof fn lemma_normalized_idempotent(s: Seq<char>)
    ensures
        normalized(normalized(s)) == normalized(s),
{
    let u = strip_newlines(s);
    let t = normalized(s);
    lemma_strip_newlines_no_newline(s);
    lemma_trim_front_skip(u);
    lemma_trim_back_take(trim_front(u));
    assert(forall|i: int| 0 <= i < t.len() ==> t[i] != '\n');
    lemma_strip_newlines_identity(t);
    lemma_trim_front_head(u);
    lemma_trim_back_last(trim_front(u));
    if t.len() == 0 {
        assert(trim_front(t) =~= t);
        assert(trim_back(t) =~= t);
    } else {
        assert(t[0] == trim_front(u)[0]);
        assert(!is_space_char(t[0]));
        assert(trim_front(t) =~= t);
        assert(trim_back(t) =~= t);
    }
}

/// Relies on `String::push`: appends one character at the end of the string.
#[verifier::external_body]
pub(crate) fn push_char(s: &mut String, c: char)
    ensures
        final (s)@ == old(s)@.push(c),
{
    s.push(c)
}

/// Whether `c` is whitespace under the normalization rule.
pub fn is_space(c: char) -> (r: bool)
    ensures
        r == is_space_char(c),
{
    let u = c as u32;
    u == 0x20 || (0x9 <= u && u <= 0xd) || u == 0x85 || u == 0xa0 || u == 0x1680 || (0x2000 <= u
        && u <= 0x200a) || u == 0x2028 || u == 0x2029 || u == 0x202f || u == 0x205f || u == 0x3000
}

/// Collects the characters of `s` into a vector, in order.
pub fn chars_of(s: &str) -> (r: Vec<char>)
    ensures
        r@ == s@,
{
    let n = s.unicode_len();
    let mut r: Vec<char> = Vec::new();
    let mut i: usize = 0;
    while i < n
        invariant
            n == s@.len(),
            i <= n,
            r@ == s@.take(i as int),
        decreases n - i,
    {
        let c = s.get_char(i);
        r.push(c);
        proof {
            assert(s@.take(i + 1) =~= s@.take(i as int).push(s@[i as int]));
        }
        i = i + 1;
    }
    proof {
        assert(s@.take(n as int) =~= s@);
    }
    r
}

/// Builds a string out of the characters `v[from..to]`, in order.
pub fn string_of_range(v: &Vec<char>, from: usize, to: usize) -> (r: String)
    requires
        from <= to <= v@.len(),
    ensures
        r@ == v@.subrange(from as int, to as int),
{
    let mut r = String::new();
    let mut j: usize = from;
    while j < to
        invariant
            from <= j <= to <= v@.len(),
            r@ == v@.subrange(from as int, j as int),
        decreases to - j,
    {
        push_char(&mut r, v[j]);
        proof {
            assert(v@.subrange(from as int, j + 1) =~= v@.subrange(from as int, j as int).push(
                v@[j as int],
            ));
        }
        j = j + 1;
    }
    r
}

/// Applies the normalization rule to `s`: every newline character is removed
/// and the result is trimmed of leading and trailing whitespace.
pub fn normalize_text(s: &str) -> (r: String)
    ensures
        r@ == normalized(s@),
{
    let n = s.unicode_len();
    let mut v: Vec<char> = Vec::new();
    let mut i: usize = 0;
    while i < n
        invariant
            n == s@.len(),
            i <= n,
            v@ == strip_newlines(s@.take(i as int)),
        decreases n - i,
    {
        let c = s.get_char(i);
        proof {
            assert(s@.take(i + 1) =~= s@.take(i as int).push(s@[i as int]));
            lemma_strip_newlines_push(s@.take(i as int), s@[i as int]);
        }
        if c != '\n' {
            v.push(c);
        }
        i = i + 1;
    }
    proof {
        assert(s@.take(n as int) =~= s@);
    }
    proof {
        assert(v@.skip(0) =~= v@);
    }
    let mut b: usize = 0;
    while b < v.len() && is_space(v[b])
        invariant
            b <= v@.len(),
            trim_front(v@) == trim_front(v@.skip(b as int)),
        decreases v@.len() - b,
    {
        proof {
            assert(v@.skip(b as int).drop_first() =~= v@.skip(b + 1));
        }
        b = b + 1;
    }
    proof {
        if b < v@.len() {
            assert(trim_front(v@.skip(b as int)) =~= v@.skip(b as int));
        } else {
            assert(v@.skip(b as int) =~= Seq::<char>::empty());
        }
        assert(trim_front(v@) =~= v@.skip(b as int));
    }
    let mut e: usize = v.len();
    while e > b && is_space(v[e - 1])
        invariant
            b <= e <= v@.len(),
            trim_back(v@.skip(b as int)) == trim_back(v@.subrange(b as int, e as int)),
        decreases e,
    {
        proof {
            assert(v@.skip(b as int) =~= v@.subrange(b as int, v@.len() as int));
            assert(v@.subrange(b as int, e as int).drop_last() =~= v@.subrange(b as int, e - 1));
        }
        e = e - 1;
    }
    proof {
        assert(v@.skip(b as int) =~= v@.subrange(b as int, v@.len() as int));
        if e > b {
            assert(trim_back(v@.subrange(b as int, e as int)) =~= v@.subrange(b as int, e as int));
        } else {
            assert(v@.subrange(b as int, e as int) =~= Seq::<char>::empty());
        }
        assert(trim_back(trim_front(v@)) =~= v@.subrange(b as int, e as int));
    }
    string_of_range(&v, b, e)
}

} // verus!
