//! Escaping of text for HTML.
use crate::chars::chars_of;
use crate::sink::push_char;
use vstd::prelude::*;

verus! {

/// What stands for one character in escaped text; `attr` selects the rules for
/// attribute values, where the double quote is replaced too.
pub open spec fn entity(c: char, attr: bool) -> Seq<char> {
    if c == '&' {
        seq!['&', 'a', 'm', 'p', ';']
    } else if c == '<' {
        seq!['&', 'l', 't', ';']
    } else if c == '>' {
        seq!['&', 'g', 't', ';']
    } else if attr && c == '"' {
        seq!['&', 'q', 'u', 'o', 't', ';']
    } else {
        seq![c]
    }
}

/// `s` with each character replaced by what stands for it.
pub open spec fn escaped(s: Seq<char>, attr: bool) -> Seq<char>
    decreases s.len(),
{
    if s.len() == 0 {
        Seq::empty()
    } else {
        escaped(s.drop_last(), attr) + entity(s.last(), attr)
    }
}

/// What stands for the character at `i` of `t` once line breaks are expanded:
/// a newline becomes a break element and a newline, except at the very start.
pub open spec fn break_at(t: Seq<char>, i: int) -> Seq<char> {
    if t[i] == '\n' && i != 0 {
        seq!['<', 'b', 'r', ' ', '/', '>', '\n']
    } else {
        seq![t[i]]
    }
}

/// The first `n` characters of `t` with line breaks expanded.
pub open spec fn broken_upto(t: Seq<char>, n: int) -> Seq<char>
    decreases n,
{
    if n <= 0 {
        Seq::empty()
    } else {
        broken_upto(t, n - 1) + break_at(t, n - 1)
    }
}

/// `t` with every newline but a leading one turned into a line break.
pub open spec fn broken(t: Seq<char>) -> Seq<char> {
    broken_upto(t, t.len() as int)
}

/// How running text is rendered: escaped, then line breaks expanded.
pub open spec fn text_html(s: Seq<char>) -> Seq<char> {
    broken(escaped(s, false))
}

/// True if position `i` of `e` starts one of the character references that
/// escaping produces.
pub open spec fn reference_at(e: Seq<char>, i: int) -> bool {
    ||| e.subrange(i, i + 5) == seq!['&', 'a', 'm', 'p', ';'] && i + 5 <= e.len()
    ||| e.subrange(i, i + 4) == seq!['&', 'l', 't', ';'] && i + 4 <= e.len()
    ||| e.subrange(i, i + 4) == seq!['&', 'g', 't', ';'] && i + 4 <= e.len()
    ||| e.subrange(i, i + 6) == seq!['&', 'q', 'u', 'o', 't', ';'] && i + 6 <= e.len()
}

/// True if the character at `i` of `e` is no angle bracket, no double quote
/// where `attr` is set, and no ampersand but one that starts a character
/// reference.
pub open spec fn inert_at(e: Seq<char>, i: int, attr: bool) -> bool {
    &&& e[i] != '<'
    &&& e[i] != '>'
    &&& attr ==> e[i] != '"'
    &&& e[i] == '&' ==> reference_at(e, i)
}

/// Escaped text holds no angle bracket, and every ampersand in it starts a
/// character reference; under the attribute rules it holds no double quote
/// either.
pub proof fn lemma_escaped_is_inert(s: Seq<char>, attr: bool)
    ensures
        forall|i: int| 0 <= i < escaped(s, attr).len() ==> inert_at(escaped(s, attr), i, attr),
    decreases s.len(),
{
    if s.len() > 0 {
        let head = escaped(s.drop_last(), attr);
        let tail = entity(s.last(), attr);
        let e = escaped(s, attr);
        lemma_escaped_is_inert(s.drop_last(), attr);
        assert forall|i: int| 0 <= i < e.len() implies inert_at(e, i, attr) by {
            if i < head.len() {
                assert(e[i] == head[i]);
                assert(inert_at(head, i, attr));
                if head[i] == '&' {
                    assert(reference_at(head, i));
                    assert(e.subrange(i, i + 4) =~= head.subrange(i, i + 4) || i + 4 > head.len());
                    assert(e.subrange(i, i + 5) =~= head.subrange(i, i + 5) || i + 5 > head.len());
                    assert(e.subrange(i, i + 6) =~= head.subrange(i, i + 6) || i + 6 > head.len());
                }
            } else {
                let k = i - head.len();
                assert(e[i] == tail[k]);
                if tail[k] == '&' {
                    assert(k == 0);
                    assert(e.subrange(i, i + tail.len()) =~= tail);
                }
            }
        }
    }
}

/// True if the characters `pat` stand at the start of `e`.
pub open spec fn starts_with(e: Seq<char>, pat: Seq<char>) -> bool {
    pat.len() <= e.len() && e.subrange(0, pat.len() as int) == pat
}

/// `e` with each character reference that escaping produces turned back into
/// the character that it stands for, read from the left.
pub open spec fn unescaped(e: Seq<char>) -> Seq<char>
    decreases e.len(),
{
    if e.len() == 0 {
        Seq::empty()
    } else if starts_with(e, seq!['&', 'a', 'm', 'p', ';']) {
        seq!['&'] + unescaped(e.skip(5))
    } else if starts_with(e, seq!['&', 'l', 't', ';']) {
        seq!['<'] + unescaped(e.skip(4))
    } else if starts_with(e, seq!['&', 'g', 't', ';']) {
        seq!['>'] + unescaped(e.skip(4))
    } else if starts_with(e, seq!['&', 'q', 'u', 'o', 't', ';']) {
        seq!['"'] + unescaped(e.skip(6))
    } else {
        seq![e[0]] + unescaped(e.skip(1))
    }
}

/// Escaping goes character by character: a text escapes to what its parts
/// escape to, one after the other.
pub proof fn lemma_escaped_concat(a: Seq<char>, b: Seq<char>, attr: bool)
    ensures
        escaped(a + b, attr) == escaped(a, attr) + escaped(b, attr),
    decreases b.len(),
{
    if b.len() == 0 {
        assert(a + b =~= a);
        assert(escaped(a, attr) + escaped(b, attr) =~= escaped(a, attr));
    } else {
        lemma_escaped_concat(a, b.drop_last(), attr);
        assert((a + b).drop_last() =~= a + b.drop_last());
        assert((a + b).last() == b.last());
        assert(escaped(a + b, attr) =~= escaped(a, attr) + escaped(b, attr));
    }
}

/// Escaped text reads back as the text: turning the character references
/// back into their characters gives what was escaped.
pub proof fn lemma_unescaped_escaped(s: Seq<char>, attr: bool)
    ensures
        unescaped(escaped(s, attr)) == s,
    decreases s.len(),
{
    if s.len() > 0 {
        let c = s[0];
        let rest = s.drop_first();
        let head = entity(c, attr);
        let tail = escaped(rest, attr);
        let e = escaped(s, attr);
        lemma_escaped_concat(seq![c], rest, attr);
        assert(seq![c] + rest =~= s);
        assert(seq![c].drop_last() =~= Seq::<char>::empty());
        assert(escaped(seq![c], attr) =~= head) by {
            reveal_with_fuel(escaped, 2);
        }
        assert(e == head + tail);
        lemma_unescaped_escaped(rest, attr);
        assert(e.skip(head.len() as int) =~= tail);
        assert(e.subrange(0, head.len() as int) =~= head);
        assert(e[0] == head[0]);
        if head.len() > 1 {
            assert(e[1] == head[1]);
            assert(e[2] == head[2]);
            assert(e[3] == head[3]);
            assert(e.subrange(0, 4)[1] == e[1]);
            assert(e.subrange(0, 4)[2] == e[2]);
            if e.len() >= 5 {
                assert(e.subrange(0, 5)[1] == e[1]);
            }
            if e.len() >= 6 {
                assert(e.subrange(0, 6)[1] == e[1]);
            }
        } else {
            assert(c != '&');
            if e.len() >= 4 {
                assert(e.subrange(0, 4)[0] == e[0]);
            }
            if e.len() >= 5 {
                assert(e.subrange(0, 5)[0] == e[0]);
            }
            if e.len() >= 6 {
                assert(e.subrange(0, 6)[0] == e[0]);
            }
        }
        assert(unescaped(e) =~= seq![c] + unescaped(tail));
        assert(seq![c] + rest =~= s);
    }
}

/// Escaping brings in no newline, and where a text holds none, expanding the
/// line breaks leaves it as it is.
pub proof fn lemma_no_newline_no_break(s: Seq<char>)
    requires
        forall|i: int| 0 <= i < s.len() ==> s[i] != '\n',
    ensures
        text_html(s) == escaped(s, false),
{
    let t = escaped(s, false);
    lemma_escaped_has_no_newline(s);
    lemma_broken_upto_plain(t, t.len() as int);
    assert(t.take(t.len() as int) =~= t);
}

proof fn lemma_escaped_has_no_newline(s: Seq<char>)
    requires
        forall|i: int| 0 <= i < s.len() ==> s[i] != '\n',
    ensures
        forall|i: int| 0 <= i < escaped(s, false).len() ==> escaped(s, false)[i] != '\n',
    decreases s.len(),
{
    if s.len() > 0 {
        assert forall|i: int| 0 <= i < s.drop_last().len() implies s.drop_last()[i] != '\n' by {
            assert(s.drop_last()[i] == s[i]);
        }
        lemma_escaped_has_no_newline(s.drop_last());
        let head = escaped(s.drop_last(), false);
        let tail = entity(s.last(), false);
        assert(s.last() == s[s.len() - 1]);
        assert forall|i: int| 0 <= i < escaped(s, false).len() implies escaped(s, false)[i]
            != '\n' by {
            if i < head.len() {
                assert(escaped(s, false)[i] == head[i]);
            } else {
                assert(escaped(s, false)[i] == tail[i - head.len()]);
            }
        }
    }
}

proof fn lemma_broken_upto_plain(t: Seq<char>, n: int)
    requires
        0 <= n <= t.len(),
        forall|i: int| 0 <= i < t.len() ==> t[i] != '\n',
    ensures
        broken_upto(t, n) == t.take(n),
    decreases n,
{
    if n > 0 {
        lemma_broken_upto_plain(t, n - 1);
        assert(t.take(n) =~= t.take(n - 1) + seq![t[n - 1]]);
    } else {
        assert(t.take(0) =~= Seq::<char>::empty());
    }
}

/// Appends to `out` the characters of `text`, escaped.
pub fn escape_into(text: &Vec<char>, attr: bool, out: &mut Vec<char>)
    ensures
        final(out)@ == old(out)@ + escaped(text@, attr),
{
    let mut i: usize = 0;
    while i < text.len()
        invariant
            i <= text.len(),
            out@ == old(out)@ + escaped(text@.take(i as int), attr),
        decreases text.len() - i,
    {
        let c = text[i];
        let ghost before = out@;
        if c == '&' {
            out.push('&');
            out.push('a');
            out.push('m');
            out.push('p');
            out.push(';');
        } else if c == '<' {
            out.push('&');
            out.push('l');
            out.push('t');
            out.push(';');
        } else if c == '>' {
            out.push('&');
            out.push('g');
            out.push('t');
            out.push(';');
        } else if attr && c == '"' {
            out.push('&');
            out.push('q');
            out.push('u');
            out.push('o');
            out.push('t');
            out.push(';');
        } else {
            out.push(c);
        }
        proof {
            assert(out@ =~= before + entity(c, attr));
            assert(text@.take(i + 1).drop_last() =~= text@.take(i as int));
        }
        i += 1;
    }
    proof {
        assert(text@.take(text.len() as int) =~= text@);
    }
}

/// Appends to `out` the characters of `t` with line breaks expanded.
pub fn write_broken(t: &Vec<char>, out: &mut String)
    ensures
        final(out)@ == old(out)@ + broken(t@),
{
    let mut i: usize = 0;
    while i < t.len()
        invariant
            i <= t.len(),
            out@ == old(out)@ + broken_upto(t@, i as int),
        decreases t.len() - i,
    {
        let c = t[i];
        let ghost before = out@;
        if c == '\n' && i != 0 {
            push_char(out, '<');
            push_char(out, 'b');
            push_char(out, 'r');
            push_char(out, ' ');
            push_char(out, '/');
            push_char(out, '>');
            push_char(out, '\n');
        } else {
            push_char(out, c);
        }
        proof {
            assert(out@ =~= before + break_at(t@, i as int));
        }
        i += 1;
    }
}

/// Appends the characters of `t` to `out`.
pub fn write_chars(t: &Vec<char>, out: &mut String)
    ensures
        final(out)@ == old(out)@ + t@,
{
    let mut i: usize = 0;
    while i < t.len()
        invariant
            i <= t.len(),
            out@ == old(out)@ + t@.take(i as int),
        decreases t.len() - i,
    {
        push_char(out, t[i]);
        proof {
            assert(t@.take(i + 1) =~= t@.take(i as int).push(t@[i as int]));
        }
        i += 1;
    }
    proof {
        assert(t@.take(t.len() as int) =~= t@);
    }
}

/// Writes `text` for a whitespace-preserving context: escaped, no line breaks.
pub fn write_html_escaped(text: &str, out: &mut String)
    ensures
        final(out)@ == old(out)@ + escaped(text@, false),
{
    let source = chars_of(text);
    let mut buf: Vec<char> = Vec::new();
    escape_into(&source, false, &mut buf);
    write_chars(&buf, out);
}

/// Writes `text` as running text: escaped, with line breaks expanded.
pub fn write_html_escaped_with_linebreaks(text: &str, out: &mut String)
    ensures
        final(out)@ == old(out)@ + text_html(text@),
{
    let source = chars_of(text);
    let mut buf: Vec<char> = Vec::new();
    escape_into(&source, false, &mut buf);
    write_broken(&buf, out);
}

/// Writes `text` as the value of an attribute.
pub fn write_attr_value_escaped(text: &str, out: &mut String)
    ensures
        final(out)@ == old(out)@ + escaped(text@, true),
{
    let source = chars_of(text);
    let mut buf: Vec<char> = Vec::new();
    escape_into(&source, true, &mut buf);
    write_chars(&buf, out);
}

} // verus!
