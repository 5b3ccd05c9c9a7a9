//! The second pass: the text of a tooltip is taken out of its quote.
//!
//! A bracket holds a link target, a tooltip or both. Where its tooltip is
//! still a quoted span, the span is replaced by its raw text, without the
//! quote marks and without comments, so that later passes leave it alone.
use crate::chars::{byte_len, chars_of, find_run, find_run_from, Source};
use crate::parse::{comment_len, left, parse_comment};
use crate::sink::push_char;
use crate::tree::{lemma_branch_view, lemma_views, lemma_views_push, take_all, views, Kind, Node};
use crate::{Ast, PqLiteError, CLOSE_QUOTE, OPEN_QUOTE};
use std::borrow::Cow;
use vstd::pervasive::unreached;
use vstd::prelude::*;
use vstd::string::*;

verus! {

/// How many characters `ch` stand at the start of `s`.
pub open spec fn leading(s: Seq<char>, ch: char) -> nat
    decreases s.len(),
{
    if s.len() > 0 && s[0] == ch {
        1 + leading(s.drop_first(), ch)
    } else {
        0
    }
}

/// How many characters `ch` stand at the end of `s`.
pub open spec fn trailing(s: Seq<char>, ch: char) -> nat
    decreases s.len(),
{
    if s.len() > 0 && s.last() == ch {
        1 + trailing(s.drop_last(), ch)
    } else {
        0
    }
}

/// `raw` without the opening quote marks at its start and then without the
/// closing quote marks at its end.
pub open spec fn unquoted(raw: Seq<char>) -> Seq<char> {
    let opened = raw.skip(leading(raw, OPEN_QUOTE) as int);
    opened.take(opened.len() - trailing(opened, CLOSE_QUOTE))
}

/// `t` from position `from` on without its comments, or the position of the
/// comment that is never closed.
pub open spec fn strip_comments(t: Seq<char>, from: int) -> Result<Seq<char>, int>
    decreases left(t, from),
{
    if from < 0 || from >= t.len() {
        Ok(Seq::empty())
    } else {
        match find_run(t, from, '[', 3) {
            None => Ok(t.subrange(from, t.len() as int)),
            Some(k) => match comment_len(t, from + k + 3, 3) {
                None => Err(from + k),
                Some(n) => match strip_comments(t, from + k + 3 + n) {
                    Ok(rest) => Ok(t.subrange(from, from + k) + rest),
                    Err(at) => Err(at),
                },
            },
        }
    }
}

/// The tooltip text that the raw text `raw` of a quoted span gives, or the
/// byte offset, in the text between the quote marks, of the comment that is
/// never closed.
pub open spec fn tooltip_of(raw: Seq<char>) -> Result<Seq<char>, int> {
    match strip_comments(unquoted(raw), 0) {
        Ok(t) => Ok(t),
        Err(at) => Err(byte_len(unquoted(raw).take(at)) as int),
    }
}

/// True of a bracket whose children are a tooltip, a link target, or a link
/// target and a tooltip: the tooltip a quoted span or tooltip text, the
/// target a text node.
pub open spec fn url_tooltip_shape(n: Node) -> bool {
    n matches Node::Branch(Kind::Bracketed, c) && {
        let tooltip = c.len() > 0 && (c.last() is TooltipText || c.last() matches Node::Branch(
            Kind::Quoted { .. },
            _,
        ));
        let url = c.len() > 0 && c[0] is Text;
        ||| tooltip && !url && c.len() == 1
        ||| !tooltip && url && c.len() == 1
        ||| tooltip && url && c.len() == 2
    }
}

/// The raw text of the quoted span that stands for the tooltip of `n`, if `n`
/// has the shape above and its tooltip is still a quoted span.
pub open spec fn tip_source(n: Node) -> Option<Seq<char>> {
    if url_tooltip_shape(n) {
        match n->Branch_1.last() {
            Node::Branch(Kind::Quoted { original_text }, _) => Some(original_text),
            _ => None,
        }
    } else {
        None
    }
}

/// The bracket `n` with its last child replaced by the tooltip text `tip`.
pub open spec fn with_tip(n: Node, tip: Seq<char>) -> Node {
    Node::Branch(Kind::Bracketed, n->Branch_1.drop_last().push(Node::TooltipText(tip)))
}

/// What this pass makes of `n` as a child: its tooltip is pulled out if it is
/// a bracket whose tooltip is still a quoted span.
pub open spec fn pull_child(n: Node) -> Result<Node, int> {
    match tip_source(n) {
        None => Ok(n),
        Some(raw) => match tooltip_of(raw) {
            Ok(tip) => Ok(with_tip(n, tip)),
            Err(at) => Err(at),
        },
    }
}

/// The first failure among the children `c` from position `i` on, as this
/// pass goes over them.
pub open spec fn level_error(c: Seq<Node>, i: int) -> Option<int>
    decreases c.len() - i,
{
    if i < 0 || i >= c.len() {
        None
    } else {
        match pull_child(c[i]) {
            Err(at) => Some(at),
            Ok(_) => level_error(c, i + 1),
        }
    }
}

/// The tree `n` after this pass, or the byte offset that the first failure
/// reports. At each node the children are first gone over in order; then each
/// child that is no bracket of the shape above is processed in turn.
pub open spec fn pulled(n: Node) -> Result<Node, int>
    decreases n, 0nat,
{
    match n {
        Node::Branch(k, c) => match level_error(c, 0) {
            Some(at) => Err(at),
            None => match pulled_below(c, 0) {
                Ok(below) => Ok(Node::Branch(k, below)),
                Err(at) => Err(at),
            },
        },
        _ => Ok(n),
    }
}

/// The children `c` from position `i` on after this pass.
pub open spec fn pulled_below(c: Seq<Node>, i: int) -> Result<Seq<Node>, int>
    decreases c, c.len() - i,
{
    if i < 0 || i >= c.len() {
        Ok(Seq::empty())
    } else {
        let child = if url_tooltip_shape(c[i]) {
            pull_child(c[i])
        } else {
            pulled(c[i])
        };
        match child {
            Err(at) => Err(at),
            Ok(x) => match pulled_below(c, i + 1) {
                Ok(rest) => Ok(seq![x] + rest),
                Err(at) => Err(at),
            },
        }
    }
}

/// `raw` without the quote marks around it.
pub fn unquote<'a>(raw: &'a str) -> (r: &'a str)
    ensures
        r@ == unquoted(raw@),
{
    let s = chars_of(raw);
    let n = s.len();
    let mut lo: usize = 0;
    proof {
        assert(s@.skip(0) =~= s@);
    }
    while lo < n && s[lo] == OPEN_QUOTE
        invariant
            lo <= n == s@.len(),
            leading(s@, OPEN_QUOTE) == lo + leading(s@.skip(lo as int), OPEN_QUOTE),
        decreases n - lo,
    {
        proof {
            assert(s@.skip(lo as int).drop_first() =~= s@.skip(lo + 1));
        }
        lo += 1;
    }
    let ghost opened = s@.skip(lo as int);
    let mut hi: usize = n;
    proof {
        assert(opened.take(opened.len() as int) =~= opened);
    }
    while hi > lo && s[hi - 1] == CLOSE_QUOTE
        invariant
            lo <= hi <= n == s@.len(),
            opened == s@.skip(lo as int),
            trailing(opened, CLOSE_QUOTE) == (n - hi) + trailing(
                opened.take(hi - lo),
                CLOSE_QUOTE,
            ),
        decreases hi,
    {
        proof {
            assert(opened.take(hi - lo).drop_last() =~= opened.take(hi - lo - 1));
        }
        hi -= 1;
    }
    proof {
        assert(s@.subrange(lo as int, hi as int) =~= opened.take(hi - lo));
    }
    raw.substring_char(lo, hi)
}

/// Appends to `out` the characters of `s` from `from` up to `to`.
fn push_range(s: &Vec<char>, from: usize, to: usize, out: &mut String)
    requires
        from <= to <= s@.len(),
    ensures
        final(out)@ == old(out)@ + s@.subrange(from as int, to as int),
{
    let mut i: usize = from;
    proof {
        assert(s@.subrange(from as int, from as int) =~= Seq::<char>::empty());
    }
    while i < to
        invariant
            from <= i <= to <= s@.len(),
            out@ == old(out)@ + s@.subrange(from as int, i as int),
        decreases to - i,
    {
        push_char(out, s[i]);
        proof {
            assert(s@.subrange(from as int, i + 1) =~= s@.subrange(from as int, i as int).push(
                s@[i as int],
            ));
        }
        i += 1;
    }
}

/// `rest`, after `head` was kept before it.
pub open spec fn kept(head: Seq<char>, rest: Result<Seq<char>, int>) -> Result<Seq<char>, int> {
    match rest {
        Ok(t) => Ok(head + t),
        Err(at) => Err(at),
    }
}

/// The text of a tooltip without its comments. A text that holds no comment
/// is handed back as it is, and is copied only where a comment has to go.
pub fn remove_comments_for_tooltip<'a>(original_text: &'a str) -> (r: Result<
    Cow<'a, str>,
    PqLiteError,
>)
    ensures
        match strip_comments(original_text@, 0) {
            Ok(t) => {
                &&& r matches Ok(text)
                &&& text@ == t
                &&& original_text@.len() > 0 && find_run(original_text@, 0, '[', 3) is None
                    ==> text == Cow::Borrowed::<str>(original_text)
            },
            Err(at) => r matches Err(e) && e.is_unclosed_comment(
                byte_len(original_text@.take(at)) as int,
            ),
        },
{
    let src = Source::new(original_text);
    let ghost t = original_text@;
    let ghost whole = strip_comments(t, 0);
    let mut result = String::new();
    let mut index: usize = 0;
    proof {
        assert(Seq::<char>::empty() + Seq::<char>::empty() =~= Seq::<char>::empty());
        match whole {
            Ok(x) => {
                assert(Seq::<char>::empty() + x =~= x);
            },
            Err(_) => {},
        }
    }
    while index < src.len()
        invariant
            src@ == t,
            t == original_text@,
            index <= t.len(),
            whole == strip_comments(t, 0),
            whole == kept(result@, strip_comments(t, index as int)),
            index == 0 ==> result@.len() == 0,
            index > 0 ==> find_run(t, 0, '[', 3) is Some,
        decreases t.len() - index,
    {
        let ghost so_far = result@;
        match find_run_from(src.chars(), index, '[', 3) {
            None => {
                if index == 0 {
                    proof {
                        assert(t.subrange(0, t.len() as int) =~= t);
                        assert(so_far + t =~= t);
                    }
                    return Ok(Cow::Borrowed(original_text));
                } else {
                    push_range(src.chars(), index, src.len(), &mut result);
                    return Ok(Cow::Owned(result));
                }
            },
            Some(at) => {
                push_range(src.chars(), index, at, &mut result);
                let ghost from = index;
                index = at + 3;
                match parse_comment(&src, &mut index, at) {
                    Err(e) => {
                        return Err(e);
                    },
                    Ok(()) => {
                        proof {
                            match strip_comments(t, index as int) {
                                Ok(rest) => {
                                    assert(so_far + (t.subrange(from as int, at as int) + rest)
                                        =~= result@ + rest);
                                },
                                Err(_) => {},
                            }
                        }
                    },
                }
            },
        }
    }
    proof {
        assert(result@ + Seq::<char>::empty() =~= result@);
    }
    Ok(Cow::Owned(result))
}

/// Tests for the shape of a bracket that holds a link target, a tooltip or
/// both.
pub fn is_url_tooltip(child2: &Ast<'_>) -> (b: bool)
    ensures
        b == url_tooltip_shape(child2@),
{
    proof {
        if child2.children() is Some {
            lemma_branch_view(*child2);
            lemma_views(child2.children().unwrap()@);
        }
    }
    let bracketed_ast = match child2 {
        Ast::Bracketed(v) => v,
        _ => {
            return false;
        },
    };
    let n = bracketed_ast.len();
    if n == 0 {
        return false;
    }
    proof {
        let last = bracketed_ast@[n - 1];
        if last.children() is Some {
            lemma_branch_view(last);
        }
    }
    let tooltip = match &bracketed_ast[n - 1] {
        Ast::Quoted { .. } => true,
        Ast::TooltipText(_) => true,
        _ => false,
    };
    let url = match &bracketed_ast[0] {
        Ast::Text(_) => true,
        _ => false,
    };
    (tooltip && !url && n == 1) || (!tooltip && url && n == 1) || (tooltip && url && n == 2)
}

/// Tests whether the last child of a bracket is a quoted span.
fn ends_in_quote(child: &Ast<'_>) -> (b: bool)
    requires
        url_tooltip_shape(child@),
    ensures
        b == (tip_source(child@) is Some),
{
    proof {
        lemma_branch_view(*child);
        lemma_views(child.children().unwrap()@);
    }
    match child {
        Ast::Bracketed(v) => {
            proof {
                let last = v@[v@.len() - 1];
                if last.children() is Some {
                    lemma_branch_view(last);
                }
            }
            match &v[v.len() - 1] {
                Ast::Quoted { .. } => true,
                _ => false,
            }
        },
        _ => false,
    }
}

/// What `pull_tooltip` has to return for a child that this pass makes
/// `wanted` of.
pub open spec fn pull_matches(wanted: Result<Node, int>, r: Result<Ast<'_>, PqLiteError>) -> bool {
    match wanted {
        Ok(node) => r matches Ok(ast) && ast@ == node,
        Err(at) => r matches Err(e) && e.is_unclosed_comment(at),
    }
}

/// Pulls the tooltip text out of `child`, if it is a bracket whose tooltip is
/// still a quoted span.
fn pull_tooltip<'a>(child: Ast<'a>) -> (r: Result<Ast<'a>, PqLiteError>)
    ensures
        pull_matches(pull_child(child@), r),
        r matches Ok(ast) ==> (tip_source(child@) is None ==> ast == child),
        r matches Ok(ast) ==> url_tooltip_shape(ast@) == url_tooltip_shape(child@),
{
    if !is_url_tooltip(&child) {
        return Ok(child);
    }
    proof {
        lemma_branch_view(child);
        lemma_views(child.children().unwrap()@);
    }
    if !ends_in_quote(&child) {
        return Ok(child);
    }
    match child {
        Ast::Bracketed(mut v) => {
            let ghost before = v@;
            match v.pop() {
                Some(Ast::Quoted { original_text, inner }) => {
                    proof {
                        lemma_branch_view(before.last());
                    }
                    match remove_comments_for_tooltip(unquote(original_text)) {
                        Ok(tip) => {
                            let text = Ast::TooltipText(tip);
                            proof {
                                lemma_views(v@);
                                lemma_views_push(v@, text);
                                assert(views(v@) =~= views(before).drop_last());
                            }
                            v.push(text);
                            let r = Ast::Bracketed(v);
                            proof {
                                lemma_branch_view(r);
                                lemma_views(v@);
                            }
                            Ok(r)
                        },
                        Err(e) => Err(e),
                    }
                },
                _ => unreached(),
            }
        },
        other => Ok(other),
    }
}

/// `rest`, after the children `head` before it.
pub open spec fn below_after(head: Seq<Node>, rest: Result<Seq<Node>, int>) -> Result<
    Seq<Node>,
    int,
> {
    match rest {
        Ok(c) => Ok(head + c),
        Err(at) => Err(at),
    }
}

/// Replaces the quoted span that stands for a tooltip by the text of the
/// tooltip, everywhere in the tree.
pub fn pull_out_tooltip_text(ast: &mut Ast<'_>) -> (r: Result<(), PqLiteError>)
    ensures
        match pulled(old(ast)@) {
            Ok(tree) => r is Ok && final(ast)@ == tree,
            Err(at) => r matches Err(e) && e.is_unclosed_comment(at),
        },
    decreases *old(ast),
{
    proof {
        if old(ast).children() is Some {
            lemma_branch_view(*old(ast));
        }
    }
    match ast.children_mut() {
        Some(children) => {
            let ghost before = children@;
            let ghost c = views(before);
            let taken = take_all(children);
            proof {
                lemma_views(before);
            }
            for child in it: taken
                invariant
                    it.seq() == before,
                    c == views(before),
                    old(ast)@ == Node::Branch(old(ast).kind(), c),
                    children@.len() == it.index(),
                    level_error(c, 0) == level_error(c, it.index() as int),
                    forall|j: int|
                        0 <= j < children@.len() ==> pull_child(c[j]) == Ok::<Node, int>(
                            (#[trigger] children@[j])@,
                        ),
                    forall|j: int|
                        0 <= j < children@.len() ==> url_tooltip_shape(
                            (#[trigger] children@[j])@,
                        ) == url_tooltip_shape(c[j]),
                    forall|j: int|
                        0 <= j < children@.len() && !url_tooltip_shape(c[j]) ==> (
                        #[trigger] children@[j]) == before[j],
            {
                proof {
                    lemma_views(before);
                }
                match pull_tooltip(child) {
                    Ok(pulled_child) => {
                        children.push(pulled_child);
                    },
                    Err(e) => {
                        return Err(e);
                    },
                }
            }
            let n = children.len();
            let mut i: usize = 0;
            let ghost level = children@;
            proof {
                assert(Seq::<Node>::empty() =~= views(children@).take(0));
                match pulled_below(c, 0) {
                    Ok(x) => {
                        assert(Seq::<Node>::empty() + x =~= x);
                    },
                    Err(_) => {},
                }
            }
            while i < n
                invariant
                    i <= n == children@.len() == before.len(),
                    c == views(before),
                    old(ast)@ == Node::Branch(old(ast).kind(), c),
                    level_error(c, 0) is None,
                    pulled_below(c, 0) == below_after(
                        views(children@).take(i as int),
                        pulled_below(c, i as int),
                    ),
                    forall|j: int|
                        i <= j < n ==> pull_child(c[j]) == Ok::<Node, int>(
                            (#[trigger] children@[j])@,
                        ),
                    forall|j: int|
                        i <= j < n ==> url_tooltip_shape((#[trigger] children@[j])@)
                            == url_tooltip_shape(c[j]),
                    forall|j: int|
                        i <= j < n && !url_tooltip_shape(c[j]) ==> (#[trigger] children@[j])
                            == before[j],
                    forall|j: int|
                        0 <= j < before.len() ==> decreases_to!(*old(ast) => #[trigger] before[j]),
                decreases n - i,
            {
                let ghost done = views(children@).take(i as int);
                proof {
                    lemma_views(before);
                    lemma_views(children@);
                }
                if !is_url_tooltip(&children[i]) {
                    assert(children@[i as int] == before[i as int]);
                    match pull_out_tooltip_text(&mut children[i]) {
                        Ok(()) => {},
                        Err(e) => {
                            return Err(e);
                        },
                    }
                }
                proof {
                    lemma_views(children@);
                    let x = children@[i as int]@;
                    assert(views(children@).take(i + 1) =~= done + seq![x]);
                    match pulled_below(c, i + 1) {
                        Ok(rest) => {
                            assert(done + (seq![x] + rest) =~= (done + seq![x]) + rest);
                        },
                        Err(_) => {},
                    }
                }
                i += 1;
            }
            proof {
                assert(views(children@).take(n as int) =~= views(children@));
                assert(views(children@) + Seq::<Node>::empty() =~= views(children@));
            }
        },
        None => {},
    }
    proof {
        if ast.children() is Some {
            lemma_branch_view(*ast);
        }
    }
    Ok(())
}

} // verus!
