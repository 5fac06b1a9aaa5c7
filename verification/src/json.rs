//! Rendering of the extraction artifact: a JSON object with the single
//! stable field `text` holding the ordered sequence of extracted strings.
//! Field name and array order are part of the contract; consumers rely on
//! the array matching document order.

use vstd::prelude::*;

use crate::text::string_of_range;

verus! {

/// The lowercase hexadecimal digit of `n`.
pub open spec fn hex_digit(n: int) -> char {
    if n == 0 {
        '0'
    } else if n == 1 {
        '1'
    } else if n == 2 {
        '2'
    } else if n == 3 {
        '3'
    } else if n == 4 {
        '4'
    } else if n == 5 {
        '5'
    } else if n == 6 {
        '6'
    } else if n == 7 {
        '7'
    } else if n == 8 {
        '8'
    } else if n == 9 {
        '9'
    } else if n == 10 {
        'a'
    } else if n == 11 {
        'b'
    } else if n == 12 {
        'c'
    } else if n == 13 {
        'd'
    } else if n == 14 {
        'e'
    } else {
        'f'
    }
}

/// The rendering of one character inside a JSON string literal: quote,
/// backslash and the named control characters get a two-character escape,
/// other control characters a `\u00..` escape, everything else stands as is.
pub open spec fn escape_char(c: char) -> Seq<char> {
    if c == '"' {
        seq!['\\', '"']
    } else if c == '\\' {
        seq!['\\', '\\']
    } else if c == '\u{8}' {
        seq!['\\', 'b']
    } else if c == '\t' {
        seq!['\\', 't']
    } else if c == '\n' {
        seq!['\\', 'n']
    } else if c == '\u{c}' {
        seq!['\\', 'f']
    } else if c == '\r' {
        seq!['\\', 'r']
    } else if (c as u32) < 0x20 {
        seq!['\\', 'u', '0', '0', hex_digit((c as u32) as int / 16), hex_digit(
            (c as u32) as int % 16,
        )]
    } else {
        seq![c]
    }
}

/// The escaped body of a JSON string literal.
pub open spec fn escape_text(s: Seq<char>) -> Seq<char>
    decreases s.len(),
{
    if s.len() == 0 {
        Seq::empty()
    } else {
        escape_char(s[0]) + escape_text(s.drop_first())
    }
}

/// A complete JSON string literal.
pub open spec fn quoted(s: Seq<char>) -> Seq<char> {
    seq!['"'] + escape_text(s) + seq!['"']
}

/// The body of the JSON array: the quoted strings joined by commas.
pub open spec fn joined(q: Seq<Seq<char>>) -> Seq<char>
    decreases q.len(),
{
    if q.len() == 0 {
        Seq::empty()
    } else if q.len() == 1 {
        quoted(q[0])
    } else {
        joined(q.drop_last()) + seq![','] + quoted(q.last())
    }
}

/// The whole artifact: `{"text":[` the joined strings `]}`.
pub open spec fn artifact_json(q: Seq<Seq<char>>) -> Seq<char> {
    seq!['{', '"', 't', 'e', 'x', 't', '"', ':', '['] + joined(q) + seq![']', '}']
}

proof fn lemma_escape_text_push(s: Seq<char>, c: char)
    ensures
        escape_text(s.push(c)) == escape_text(s) + escape_char(c),
    decreases s.len(),
{
    if s.len() == 0 {
        assert(s.push(c) =~= seq![c]);
        assert(seq![c].drop_first() =~= Seq::<char>::empty());
        assert(escape_text(Seq::<char>::empty()) == Seq::<char>::empty());
        assert(escape_text(seq![c]) == escape_char(seq![c][0]) + escape_text(
            seq![c].drop_first(),
        ));
        assert(seq![c][0] == c);
        assert(escape_char(c) + Seq::<char>::empty() =~= escape_char(c));
        assert(escape_text(s) + escape_char(c) =~= escape_char(c));
    } else {
        lemma_escape_text_push(s.drop_first(), c);
        assert(s.push(c)[0] == s[0]);
        assert(s.push(c).drop_first() =~= s.drop_first().push(c));
        assert(escape_char(s[0]) + (escape_text(s.drop_first()) + escape_char(c)) =~= (escape_char(
            s[0],
        ) + escape_text(s.drop_first())) + escape_char(c));
    }
}

proof fn lemma_joined_push(q: Seq<Seq<char>>, x: Seq<char>)
    ensures
        joined(q.push(x)) == (if q.len() == 0 {
            quoted(x)
        } else {
            joined(q) + seq![','] + quoted(x)
        }),
{
    assert(q.push(x).drop_last() =~= q);
    assert(q.push(x).last() == x);
    if q.len() == 0 {
        assert(q.push(x)[0] == x);
    }
}

fn hex_digit_exec(n: u32) -> (r: char)
    requires
        n < 16,
    ensures
        r == hex_digit(n as int),
{
    if n == 0 {
        '0'
    } else if n == 1 {
        '1'
    } else if n == 2 {
        '2'
    } else if n == 3 {
        '3'
    } else if n == 4 {
        '4'
    } else if n == 5 {
        '5'
    } else if n == 6 {
        '6'
    } else if n == 7 {
        '7'
    } else if n == 8 {
        '8'
    } else if n == 9 {
        '9'
    } else if n == 10 {
        'a'
    } else if n == 11 {
        'b'
    } else if n == 12 {
        'c'
    } else if n == 13 {
        'd'
    } else if n == 14 {
        'e'
    } else {
        'f'
    }
}

fn append_escaped(out: &mut Vec<char>, s: &str)
    ensures
        final (out)@ == old(out)@ + escape_text(s@),
{
    let ghost base = out@;
    let n = s.unicode_len();
    let mut i: usize = 0;
    proof {
        assert(escape_text(s@.take(0)) =~= Seq::<char>::empty());
        assert(base + escape_text(s@.take(0)) =~= base);
    }
    while i < n
        invariant
            n == s@.len(),
            i <= n,
            out@ == base + escape_text(s@.take(i as int)),
        decreases n - i,
    {
        let ghost before = out@;
        let c = s.get_char(i);
        if c == '"' {
            out.push('\\');
            out.push('"');
        } else if c == '\\' {
            out.push('\\');
            out.push('\\');
        } else if c == '\u{8}' {
            out.push('\\');
            out.push('b');
        } else if c == '\t' {
            out.push('\\');
            out.push('t');
        } else if c == '\n' {
            out.push('\\');
            out.push('n');
        } else if c == '\u{c}' {
            out.push('\\');
            out.push('f');
        } else if c == '\r' {
            out.push('\\');
            out.push('r');
        } else if (c as u32) < 0x20 {
            out.push('\\');
            out.push('u');
            out.push('0');
            out.push('0');
            out.push(hex_digit_exec((c as u32) / 16));
            out.push(hex_digit_exec((c as u32) % 16));
        } else {
            out.push(c);
        }
        proof {
            assert(out@ =~= before + escape_char(s@[i as int]));
            assert(s@.take(i + 1) =~= s@.take(i as int).push(s@[i as int]));
            lemma_escape_text_push(s@.take(i as int), s@[i as int]);
            assert((base + escape_text(s@.take(i as int))) + escape_char(s@[i as int]) =~= base
                + escape_text(s@.take(i + 1)));
        }
        i = i + 1;
    }
    proof {
        assert(s@.take(n as int) =~= s@);
    }
}

fn append_quoted(out: &mut Vec<char>, s: &str)
    ensures
        final (out)@ == old(out)@ + quoted(s@),
{
    let ghost base = out@;
    out.push('"');
    append_escaped(out, s);
    out.push('"');
    proof {
        assert(out@ =~= base + quoted(s@));
    }
}

/// Serializes an extracted text sequence as the JSON artifact
/// `{"text":["...","..."]}`, strings in order, with JSON string escaping.
pub fn render_artifact(texts: &Vec<String>) -> (r: String)
    ensures
        r@ == artifact_json(texts.deep_view()),
{
    let mut out: Vec<char> = Vec::new();
    out.push('{');
    out.push('"');
    out.push('t');
    out.push('e');
    out.push('x');
    out.push('t');
    out.push('"');
    out.push(':');
    out.push('[');
    let ghost prefix = out@;
    proof {
        assert(prefix =~= seq!['{', '"', 't', 'e', 'x', 't', '"', ':', '[']);
        assert(joined(texts.deep_view().take(0)) =~= Seq::<char>::empty());
        assert(out@ =~= prefix + joined(texts.deep_view().take(0)));
        assert(texts.deep_view().len() == texts@.len());
    }
    let mut i: usize = 0;
    while i < texts.len()
        invariant
            i <= texts@.len(),
            texts.deep_view().len() == texts@.len(),
            prefix == seq!['{', '"', 't', 'e', 'x', 't', '"', ':', '['],
            out@ == prefix + joined(texts.deep_view().take(i as int)),
        decreases texts@.len() - i,
    {
        let ghost q = texts.deep_view();
        proof {
            assert(q.take(i + 1) =~= q.take(i as int).push(q[i as int]));
            lemma_joined_push(q.take(i as int), q[i as int]);
            assert(q[i as int] == texts@[i as int]@);
        }
        let ghost before = out@;
        if i > 0 {
            out.push(',');
        }
        append_quoted(&mut out, texts[i].as_str());
        proof {
            if i > 0 {
                assert(out@ =~= before + seq![','] + quoted(texts@[i as int]@));
                assert(out@ =~= prefix + joined(q.take(i + 1)));
            } else {
                assert(joined(q.take(0)) =~= Seq::<char>::empty());
                assert(out@ =~= prefix + quoted(texts@[i as int]@));
                assert(out@ =~= prefix + joined(q.take(i + 1)));
            }
        }
        i = i + 1;
    }
    out.push(']');
    out.push('}');
    proof {
        assert(texts.deep_view().take(texts@.len() as int) =~= texts.deep_view());
        assert(out@ =~= artifact_json(texts.deep_view()));
    }
    let n = out.len();
    let r = string_of_range(&out, 0, n);
    proof {
        assert(out@.subrange(0, out@.len() as int) =~= out@);
    }
    r
}

} // verus!
