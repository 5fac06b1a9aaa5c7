//! Heading extraction.
//!
//! Two companions of the fallback extractor: a textual locator that finds
//! `<hN ...>...</hN>` spans in raw markup text with set semantics (each
//! distinct span appears once, in order of first occurrence), and a
//! structural extractor that collects the id attributes of heading elements
//! from a markup tree.

use vstd::prelude::*;

use crate::fragment::{starts_with, starts_with_at};
use crate::markup::MarkupChild;
use crate::text::{chars_of, string_of_range};

verus! {

/// Digits a heading tag may carry.
pub open spec fn heading_digit(c: char) -> bool {
    c == '1' || c == '2' || c == '3' || c == '4' || c == '5' || c == '6'
}

/// An opening `<h` with a heading digit stands at `i`.
pub open spec fn heading_open_at(s: Seq<char>, i: int) -> bool {
    0 <= i && i + 3 <= s.len() && s[i] == '<' && s[i + 1] == 'h' && heading_digit(s[i + 2])
}

/// The closing tag of heading digit `d`.
pub open spec fn heading_close(d: char) -> Seq<char> {
    seq!['<', '/', 'h', d, '>']
}

/// Some `'>'` stands in `s` at a position of `[lo, hi)`.
pub open spec fn has_gt(s: Seq<char>, lo: int, hi: int) -> bool {
    exists|g: int| lo <= g < hi && s[g] == '>'
}

/// The rightmost closing tag of digit `d` at or before `k` that can close an
/// opening tag at `i`: some `'>'` must end the opening tag first.
pub open spec fn heading_end_from(s: Seq<char>, i: int, d: char, k: int) -> Option<int>
    decreases k + 1,
{
    if k < 0 {
        None
    } else if starts_with_at(s, k, heading_close(d)) && has_gt(s, i + 3, k) {
        Some(k)
    } else {
        heading_end_from(s, i, d, k - 1)
    }
}

/// The end (exclusive) of the heading span opening at `i`: greedy content,
/// running to the rightmost matching closing tag.
pub open spec fn heading_match_at(s: Seq<char>, i: int) -> Option<int> {
    if heading_open_at(s, i) {
        match heading_end_from(s, i, s[i + 2], s.len() - 5) {
            Option::Some(k) => Option::Some(k + 5),
            Option::None => Option::None,
        }
    } else {
        Option::None
    }
}

proof fn lemma_heading_end_bounds(s: Seq<char>, i: int, d: char, k: int)
    ensures
        heading_end_from(s, i, d, k) matches Some(k2) ==> i + 4 <= k2 && k2 <= k && k2 + 5
            <= s.len(),
    decreases k + 1,
{
    if k >= 0 && !(starts_with_at(s, k, heading_close(d)) && has_gt(s, i + 3, k)) {
        lemma_heading_end_bounds(s, i, d, k - 1);
    } else if k >= 0 {
        assert(heading_close(d).len() == 5);
    }
}

/// Every heading span of `s` from position `p` on, scanned left to right;
/// after a match the scan resumes past the span, so matches do not overlap.
pub open spec fn headings_from(s: Seq<char>, p: int) -> Seq<Seq<char>>
    decreases s.len() - p,
    via headings_from_decreases
{
    if p >= s.len() {
        Seq::empty()
    } else {
        match heading_match_at(s, p) {
            Option::Some(e) => seq![s.subrange(p, e)] + headings_from(s, e),
            Option::None => headings_from(s, p + 1),
        }
    }
}

#[via_fn]
proof fn headings_from_decreases(s: Seq<char>, p: int) {
    if p < s.len() && heading_match_at(s, p) is Some {
        lemma_heading_end_bounds(s, p, s[p + 2], s.len() - 5);
    }
}

/// The subsequence keeping the first occurrence of each distinct string.
pub open spec fn dedup_texts(q: Seq<Seq<char>>) -> Seq<Seq<char>>
    decreases q.len(),
{
    if q.len() == 0 {
        Seq::empty()
    } else if q.drop_last().contains(q.last()) {
        dedup_texts(q.drop_last())
    } else {
        dedup_texts(q.drop_last()).push(q.last())
    }
}

/// Deduplication keeps membership: a string occurs in the deduplicated
/// sequence exactly when it occurs in the input sequence.
pub proof fn lemma_dedup_texts_membership(q: Seq<Seq<char>>, x: Seq<char>)
    ensures
        dedup_texts(q).contains(x) == q.contains(x),
    decreases q.len(),
{
    if q.len() > 0 {
        let d0 = dedup_texts(q.drop_last());
        lemma_dedup_texts_membership(q.drop_last(), x);
        assert(q.contains(x) == (q.drop_last().contains(x) || x == q.last())) by {
            if q.contains(x) {
                let w = choose|w: int| 0 <= w < q.len() && q[w] == x;
                if w < q.len() - 1 {
                    assert(q.drop_last()[w] == x);
                    assert(q.drop_last().contains(x));
                }
            }
            if q.drop_last().contains(x) {
                let u = choose|u: int| 0 <= u < q.drop_last().len() && q.drop_last()[u] == x;
                assert(q[u] == x);
                assert(q.contains(x));
            }
            if x == q.last() {
                assert(q[q.len() - 1] == x);
                assert(q.contains(x));
            }
        }
        if q.drop_last().contains(q.last()) {
            assert(dedup_texts(q) == d0);
        } else {
            assert(dedup_texts(q) == d0.push(q.last()));
            assert(d0.push(q.last()).contains(x) == (d0.contains(x) || x == q.last())) by {
                if d0.push(q.last()).contains(x) {
                    let w = choose|w: int|
                        0 <= w < d0.push(q.last()).len() && d0.push(q.last())[w] == x;
                    if w < d0.len() {
                        assert(d0[w] == x);
                        assert(d0.contains(x));
                    } else {
                        assert(x == q.last());
                    }
                }
                if d0.contains(x) {
                    let w = choose|w: int| 0 <= w < d0.len() && d0[w] == x;
                    assert(d0.push(q.last())[w] == x);
                    assert(d0.push(q.last()).contains(x));
                }
                if x == q.last() {
                    assert(d0.push(q.last())[d0.len() as int] == x);
                    assert(d0.push(q.last()).contains(x));
                }
            }
        }
    }
}

/// Deduplication leaves no duplicates: any two positions of the
/// deduplicated sequence hold different strings.
pub proof fn lemma_dedup_texts_distinct(q: Seq<Seq<char>>, i: int, j: int)
    requires
        0 <= i < j < dedup_texts(q).len(),
    ensures
        dedup_texts(q)[i] != dedup_texts(q)[j],
    decreases q.len(),
{
    if q.len() > 0 {
        if q.drop_last().contains(q.last()) {
            lemma_dedup_texts_distinct(q.drop_last(), i, j);
        } else {
            let d = dedup_texts(q.drop_last());
            if j < d.len() {
                lemma_dedup_texts_distinct(q.drop_last(), i, j);
                assert(dedup_texts(q)[i] == d[i]);
                assert(dedup_texts(q)[j] == d[j]);
            } else {
                assert(dedup_texts(q)[j] == q.last());
                assert(dedup_texts(q)[i] == d[i]);
                assert(d.contains(d[i]));
                lemma_dedup_texts_membership(q.drop_last(), d[i]);
                assert(q.drop_last().contains(d[i]));
                assert(d[i] != q.last());
            }
        }
    }
}

/// The distinct heading spans of a markup text, in order of first occurrence.
pub open spec fn heading_matches(s: Seq<char>) -> Seq<Seq<char>> {
    dedup_texts(headings_from(s, 0))
}

fn heading_digit_exec(c: char) -> (r: bool)
    ensures
        r == heading_digit(c),
{
    c == '1' || c == '2' || c == '3' || c == '4' || c == '5' || c == '6'
}

fn heading_open(v: &Vec<char>, i: usize) -> (r: bool)
    ensures
        r == heading_open_at(v@, i as int),
{
    if v.len() < 3 || i > v.len() - 3 {
        return false;
    }
    let c0 = v[i];
    let c1 = v[i + 1];
    let c2 = v[i + 2];
    c0 == '<' && c1 == 'h' && heading_digit_exec(c2)
}

fn close_tag_pat(d: char) -> (r: Vec<char>)
    ensures
        r@ == heading_close(d),
{
    let mut v: Vec<char> = Vec::new();
    v.push('<');
    v.push('/');
    v.push('h');
    v.push(d);
    v.push('>');
    proof {
        assert(v@ =~= heading_close(d));
    }
    v
}

fn has_gt_exec(v: &Vec<char>, lo: usize, hi: usize) -> (r: bool)
    requires
        hi <= v@.len(),
    ensures
        r == has_gt(v@, lo as int, hi as int),
{
    let mut g: usize = lo;
    while g < hi
        invariant
            lo <= g,
            hi <= v@.len(),
            forall|t: int| lo <= t < g ==> v@[t] != '>',
        decreases hi - g,
    {
        if v[g] == '>' {
            return true;
        }
        g = g + 1;
    }
    false
}

fn heading_end(v: &Vec<char>, i: usize, d: char) -> (r: Option<usize>)
    requires
        i + 3 <= v@.len(),
    ensures
        (match r {
            Some(k) => heading_end_from(v@, i as int, d, v@.len() - 5) == Some(k as int) && k + 5
                <= v@.len(),
            None => heading_end_from(v@, i as int, d, v@.len() - 5) is None,
        }),
{
    if v.len() < 5 {
        return None;
    }
    let close = close_tag_pat(d);
    let mut k: usize = v.len() - 5;
    loop
        invariant
            close@ == heading_close(d),
            i + 3 <= v@.len(),
            v@.len() >= 5,
            v@.len() <= usize::MAX,
            k <= v@.len() - 5,
            heading_end_from(v@, i as int, d, v@.len() - 5) == heading_end_from(
                v@,
                i as int,
                d,
                k as int,
            ),
        decreases k,
    {
        let hit = starts_with(v, k, &close);
        let mut ok = false;
        if hit {
            ok = has_gt_exec(v, i + 3, k);
        }
        if ok {
            proof {
                assert(heading_close(d).len() == 5);
            }
            return Some(k);
        }
        if k == 0 {
            proof {
                assert(heading_end_from(v@, i as int, d, 0) == heading_end_from(
                    v@,
                    i as int,
                    d,
                    -1,
                ));
            }
            return None;
        }
        proof {
            assert(heading_end_from(v@, i as int, d, k as int) == heading_end_from(
                v@,
                i as int,
                d,
                k - 1,
            ));
        }
        k = k - 1;
    }
}

fn heading_match(v: &Vec<char>, i: usize) -> (r: Option<usize>)
    ensures
        (match r {
            Some(e) => heading_match_at(v@, i as int) == Some(e as int) && i < e <= v@.len(),
            None => heading_match_at(v@, i as int) is None,
        }),
{
    if !heading_open(v, i) {
        return None;
    }
    let n = v.len();
    let d = v[i + 2];
    proof {
        lemma_heading_end_bounds(v@, i as int, d, v@.len() - 5);
    }
    match heading_end(v, i, d) {
        Some(k) => Some(k + 5),
        None => None,
    }
}

fn contains_string(v: &Vec<String>, x: &String) -> (r: bool)
    ensures
        r == v.deep_view().contains(x@),
{
    let mut i: usize = 0;
    while i < v.len()
        invariant
            i <= v@.len(),
            forall|t: int| 0 <= t < i ==> v@[t]@ != x@,
        decreases v@.len() - i,
    {
        if v[i].eq(x) {
            proof {
                assert(v.deep_view()[i as int] == v@[i as int]@);
                assert(v.deep_view().contains(x@));
            }
            return true;
        }
        i = i + 1;
    }
    proof {
        assert(forall|t: int| 0 <= t < v@.len() ==> v.deep_view()[t] == v@[t]@);
    }
    false
}

/// Textual heading locator: the distinct `<hN ...>...</hN>` spans of a raw
/// markup text, each one once, in order of first occurrence.
pub fn extract_headers(text: &str) -> (r: Vec<String>)
    ensures
        r.deep_view() == heading_matches(text@),
{
    let v = chars_of(text);
    let n = v.len();
    let mut out: Vec<String> = Vec::new();
    let ghost mut raw: Seq<Seq<char>> = Seq::empty();
    let mut p: usize = 0;
    proof {
        assert(raw + headings_from(v@, 0) =~= headings_from(v@, 0));
        assert(out.deep_view() =~= Seq::<Seq<char>>::empty());
        assert(dedup_texts(raw) == Seq::<Seq<char>>::empty());
    }
    while p < n
        invariant
            n == v@.len(),
            p <= n,
            headings_from(v@, 0) == raw + headings_from(v@, p as int),
            out.deep_view() == dedup_texts(raw),
        decreases n - p,
    {
        match heading_match(&v, p) {
            Some(e) => {
                let m = string_of_range(&v, p, e);
                let dup = contains_string(&out, &m);
                proof {
                    lemma_dedup_texts_membership(raw, m@);
                }
                let ghost out_before = out.deep_view();
                if !dup {
                    out.push(m);
                }
                proof {
                    assert(raw.push(m@).drop_last() =~= raw);
                    assert(raw.push(m@).last() == m@);
                    if raw.contains(m@) {
                        assert(dedup_texts(raw.push(m@)) == dedup_texts(raw));
                    } else {
                        assert(dedup_texts(raw.push(m@)) == dedup_texts(raw).push(m@));
                        assert(out.deep_view() =~= out_before.push(m@));
                    }
                    assert(headings_from(v@, p as int) == seq![v@.subrange(p as int, e as int)]
                        + headings_from(v@, e as int));
                    assert(raw + (seq![m@] + headings_from(v@, e as int)) =~= raw.push(m@)
                        + headings_from(v@, e as int));
                    raw = raw.push(m@);
                }
                p = e;
            },
            None => {
                proof {
                    assert(headings_from(v@, p as int) == headings_from(v@, p + 1));
                }
                p = p + 1;
            },
        }
    }
    proof {
        assert(headings_from(v@, n as int) == Seq::<Seq<char>>::empty());
        assert(raw + Seq::<Seq<char>>::empty() =~= raw);
    }
    out
}

/// `s` names a heading tag, `h1` through `h6`.
pub open spec fn is_heading_name(s: Seq<char>) -> bool {
    s.len() == 2 && s[0] == 'h' && heading_digit(s[1])
}

/// Whether a tag name is one of the heading tags.
#[allow(non_snake_case)]
pub fn matchHeadings(s: &str) -> (r: bool)
    ensures
        r == is_heading_name(s@),
{
    let n = s.unicode_len();
    if n != 2 {
        return false;
    }
    let c0 = s.get_char(0);
    let c1 = s.get_char(1);
    c0 == 'h' && heading_digit_exec(c1)
}

/// The id attributes of heading elements under `c`, itself included, in
/// pre-order; elements without an id contribute nothing.
pub open spec fn child_heading_ids(c: MarkupChild) -> Seq<Seq<char>>
    decreases c,
{
    match c {
        MarkupChild::Element { tag, id, children } => (match id {
            Option::Some(x) => if is_heading_name(tag@) {
                seq![x@]
            } else {
                Seq::empty()
            },
            Option::None => Seq::empty(),
        }) + children_heading_ids(children@),
        MarkupChild::Fragment { children } => children_heading_ids(children@),
        _ => Seq::empty(),
    }
}

/// The heading ids under a child list, left to right.
pub open spec fn children_heading_ids(cs: Seq<MarkupChild>) -> Seq<Seq<char>>
    decreases cs,
{
    if cs.len() == 0 {
        Seq::empty()
    } else {
        child_heading_ids(cs[0]) + children_heading_ids(cs.drop_first())
    }
}

/// The heading ids of the descendants of `root`; the root's own attributes
/// are not inspected.
pub open spec fn descendant_heading_ids(c: MarkupChild) -> Seq<Seq<char>> {
    match c {
        MarkupChild::Element { children, .. } => children_heading_ids(children@),
        MarkupChild::Fragment { children } => children_heading_ids(children@),
        _ => Seq::empty(),
    }
}

proof fn lemma_children_heading_ids_take_step(cs: Seq<MarkupChild>, i: int)
    requires
        0 <= i < cs.len(),
    ensures
        children_heading_ids(cs.take(i + 1)) == children_heading_ids(cs.take(i))
            + child_heading_ids(cs[i]),
    decreases i,
{
    if i == 0 {
        assert(cs.take(1).drop_first() =~= Seq::<MarkupChild>::empty());
        assert(cs.take(0) =~= Seq::<MarkupChild>::empty());
        assert(cs.take(1)[0] == cs[0]);
        assert(children_heading_ids(cs.take(1)) == child_heading_ids(cs[0])
            + children_heading_ids(Seq::<MarkupChild>::empty()));
        assert(children_heading_ids(cs.take(1)) =~= children_heading_ids(cs.take(0))
            + child_heading_ids(cs[0]));
    } else {
        lemma_children_heading_ids_take_step(cs.drop_first(), i - 1);
        assert(cs.take(i + 1).drop_first() =~= cs.drop_first().take(i));
        assert(cs.take(i).drop_first() =~= cs.drop_first().take(i - 1));
        assert(cs.take(i + 1)[0] == cs[0]);
        assert(cs.take(i)[0] == cs[0]);
        assert(cs.drop_first()[i - 1] == cs[i]);
        assert(child_heading_ids(cs[0]) + (children_heading_ids(cs.drop_first().take(i - 1))
            + child_heading_ids(cs[i])) =~= (child_heading_ids(cs[0]) + children_heading_ids(
            cs.drop_first().take(i - 1),
        )) + child_heading_ids(cs[i]));
    }
}

fn collect_heading_ids(nodes: &Vec<MarkupChild>, out: &mut Vec<String>)
    ensures
        final (out).deep_view() == old(out).deep_view() + children_heading_ids(nodes@),
    decreases nodes@,
{
    let ghost base = out.deep_view();
    let mut i: usize = 0;
    proof {
        assert(children_heading_ids(nodes@.take(0)) =~= Seq::<Seq<char>>::empty());
        assert(base + children_heading_ids(nodes@.take(0)) =~= base);
    }
    while i < nodes.len()
        invariant
            i <= nodes@.len(),
            out.deep_view() == base + children_heading_ids(nodes@.take(i as int)),
        decreases nodes@.len() - i,
    {
        proof {
            lemma_children_heading_ids_take_step(nodes@, i as int);
        }
        match &nodes[i] {
            MarkupChild::Element { tag, id, children } => {
                let is_h = matchHeadings(tag.as_str());
                let ghost before = out.deep_view();
                if is_h {
                    match id {
                        Some(x) => {
                            out.push(x.clone());
                            proof {
                                assert(out.deep_view() =~= before.push(x@));
                            }
                        },
                        None => {},
                    }
                }
                proof {
                    assert(decreases_to!(nodes@ => nodes@[i as int]));
                    assert(decreases_to!(nodes@[i as int] => children@));
                }
                collect_heading_ids(children, out);
            },
            MarkupChild::Fragment { children } => {
                proof {
                    assert(decreases_to!(nodes@ => nodes@[i as int]));
                    assert(decreases_to!(nodes@[i as int] => children@));
                }
                collect_heading_ids(children, out);
            },
            MarkupChild::Text { .. } => {},
            MarkupChild::ExpressionContainer => {},
            MarkupChild::Member => {},
            MarkupChild::Empty => {},
            MarkupChild::Namespaced => {},
        }
        i = i + 1;
    }
    proof {
        assert(nodes@.take(nodes@.len() as int) =~= nodes@);
    }
}

/// Structural heading extractor: the id attributes of every heading element
/// among the descendants of `root`, in pre-order document order.
#[allow(non_snake_case)]
pub fn extractHeadings(root: &MarkupChild) -> (r: Vec<String>)
    ensures
        r.deep_view() == descendant_heading_ids(*root),
{
    let mut out: Vec<String> = Vec::new();
    proof {
        assert(out.deep_view() =~= Seq::<Seq<char>>::empty());
    }
    match root {
        MarkupChild::Element { children, .. } => {
            collect_heading_ids(children, &mut out);
            proof {
                assert(Seq::<Seq<char>>::empty() + children_heading_ids(children@)
                    =~= children_heading_ids(children@));
            }
        },
        MarkupChild::Fragment { children } => {
            collect_heading_ids(children, &mut out);
            proof {
                assert(Seq::<Seq<char>>::empty() + children_heading_ids(children@)
                    =~= children_heading_ids(children@));
            }
        },
        _ => {},
    }
    out
}

} // verus!
