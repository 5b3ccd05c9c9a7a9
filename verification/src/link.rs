//! The fifth pass: brackets become links and tooltips.
//!
//! A bracket that holds a link target, a tooltip text or both is replaced by a
//! link or a tooltip. What stands directly before the bracket becomes the
//! label; where nothing usable stands there, the target or the tooltip text is
//! the label.
use crate::chars::chars_of;
use crate::tree::{lemma_branch_view, lemma_views, lemma_views_push, take_all, views, Kind, Node};
use crate::Ast;
use std::borrow::Cow;
use vstd::pervasive::unreached;
use vstd::prelude::*;
use vstd::string::*;

verus! {

/// True of the characters that Unicode gives the property `White_Space`.
pub open spec fn is_white_space(c: char) -> bool {
    let v = c as u32;
    ||| 0x09 <= v <= 0x0D
    ||| v == 0x20
    ||| v == 0x85
    ||| v == 0xA0
    ||| v == 0x1680
    ||| 0x2000 <= v <= 0x200A
    ||| v == 0x2028
    ||| v == 0x2029
    ||| v == 0x202F
    ||| v == 0x205F
    ||| v == 0x3000
}

/// True of the space, the tab, the line feed, the form feed and the carriage
/// return.
pub open spec fn is_ascii_space(c: char) -> bool {
    let v = c as u32;
    v == 0x20 || v == 0x09 || v == 0x0A || v == 0x0C || v == 0x0D
}

/// `s` without the white space at its end.
pub open spec fn trimmed_end(s: Seq<char>) -> Seq<char>
    decreases s.len(),
{
    if s.len() > 0 && is_white_space(s.last()) {
        trimmed_end(s.drop_last())
    } else {
        s
    }
}

/// The last position before `upto` at which `s` holds an ASCII space
/// character.
pub open spec fn last_space(s: Seq<char>, upto: int) -> Option<int>
    decreases upto,
{
    if upto <= 0 || upto > s.len() {
        None
    } else if is_ascii_space(s[upto - 1]) {
        Some(upto - 1)
    } else {
        last_space(s, upto - 1)
    }
}

/// The link target and the tooltip text that the bracket `n` holds: the
/// target is the text of its first child without the white space at its end.
/// `None` if `n` is no bracket of one tooltip text, of one text, or of a text
/// and a tooltip text.
pub open spec fn link_parts(n: Node) -> Option<(Option<Seq<char>>, Option<Seq<char>>)> {
    match n {
        Node::Branch(Kind::Bracketed, c) => if c.len() == 1 {
            match c[0] {
                Node::TooltipText(tip) => Some((None, Some(tip))),
                Node::Text(url) => Some((Some(trimmed_end(url)), None)),
                _ => None,
            }
        } else if c.len() == 2 {
            match (c[0], c[1]) {
                (Node::Text(url), Node::TooltipText(tip)) => Some(
                    (Some(trimmed_end(url)), Some(tip)),
                ),
                _ => None,
            }
        } else {
            None
        },
        _ => None,
    }
}

/// The label of last resort: the target if there is one, else the tooltip
/// text.
pub open spec fn fallback_label(url: Option<Seq<char>>, tip: Option<Seq<char>>) -> Node {
    Node::CowText(
        match url {
            Some(u) => u,
            None => tip.unwrap(),
        },
    )
}

/// The link, or where there is no target the tooltip, with label `label`.
pub open spec fn linked(url: Option<Seq<char>>, tip: Option<Seq<char>>, label: Seq<Node>) -> Node {
    match url {
        Some(u) => Node::Branch(Kind::Link { link_location: u, tooltip_text: tip }, label),
        None => Node::Branch(Kind::Tooltip { tooltip_text: tip.unwrap() }, label),
    }
}

/// What stays of the node `before` that stands before a bracket, and the
/// label that it gives:
/// - text without an ASCII space is the label, whole;
/// - text that ends in an ASCII space stays, and the label is the fallback;
/// - of other text the word after the last ASCII space is the label, and the
///   text up to and with that space stays;
/// - of a quoted span the children are the label;
/// - any other node is the label itself.
pub open spec fn label_from(before: Node, url: Option<Seq<char>>, tip: Option<Seq<char>>) -> (
    Option<Node>,
    Seq<Node>,
) {
    match before {
        Node::Text(s) => match last_space(s, s.len() as int) {
            None => (None, seq![Node::Text(s)]),
            Some(p) => if p + 1 == s.len() {
                (Some(before), seq![fallback_label(url, tip)])
            } else {
                (Some(Node::Text(s.take(p + 1))), seq![Node::Text(s.skip(p + 1))])
            },
        },
        Node::Branch(Kind::Quoted { .. }, inner) => (None, inner),
        other => (None, seq![other]),
    }
}

/// `done`, followed by `node`. A bracket with a target or a tooltip text
/// becomes a link or a tooltip, and takes its label from the node before it;
/// where nothing stands before it, the label is the fallback.
pub open spec fn link_step(done: Seq<Node>, node: Node) -> Seq<Node> {
    match link_parts(node) {
        None => done.push(node),
        Some((url, tip)) => {
            if done.len() == 0 {
                seq![linked(url, tip, seq![fallback_label(url, tip)])]
            } else {
                let (stays, label) = label_from(done.last(), url, tip);
                match stays {
                    Some(x) => done.drop_last().push(x).push(linked(url, tip, label)),
                    None => done.drop_last().push(linked(url, tip, label)),
                }
            }
        },
    }
}

/// The children `c` of one node with their brackets resolved, from the first
/// to the last.
pub open spec fn links_level(c: Seq<Node>) -> Seq<Node>
    decreases c.len(),
{
    if c.len() == 0 {
        Seq::empty()
    } else {
        link_step(links_level(c.drop_last()), c.last())
    }
}

/// `n` with the brackets resolved at every depth, children before parents.
pub open spec fn bracketed(n: Node) -> Node
    decreases n,
{
    match n {
        Node::Branch(k, c) => Node::Branch(k, links_level(bracketed_all(c))),
        _ => n,
    }
}

/// Each tree of `c` with its brackets resolved.
pub open spec fn bracketed_all(c: Seq<Node>) -> Seq<Node>
    decreases c,
{
    Seq::new(
        c.len(),
        |i: int|
            if 0 <= i < c.len() {
                bracketed(c[i])
            } else {
                Node::Text(Seq::empty())
            },
    )
}

fn is_space(c: char) -> (b: bool)
    ensures
        b == is_white_space(c),
{
    let v = c as u32;
    (0x09 <= v && v <= 0x0D) || v == 0x20 || v == 0x85 || v == 0xA0 || v == 0x1680 || (0x2000 <= v
        && v <= 0x200A) || v == 0x2028 || v == 0x2029 || v == 0x202F || v == 0x205F || v == 0x3000
}

/// `text` without the white space at its end.
pub fn trim_end<'a>(text: &'a str) -> (r: &'a str)
    ensures
        r@ == trimmed_end(text@),
{
    let s = chars_of(text);
    let mut hi: usize = s.len();
    proof {
        assert(s@.take(hi as int) =~= s@);
    }
    while hi > 0 && is_space(s[hi - 1])
        invariant
            hi <= s@.len(),
            trimmed_end(s@) == trimmed_end(s@.take(hi as int)),
        decreases hi,
    {
        proof {
            assert(s@.take(hi as int).drop_last() =~= s@.take(hi - 1));
        }
        hi -= 1;
    }
    proof {
        assert(s@.subrange(0, hi as int) =~= s@.take(hi as int));
    }
    text.substring_char(0, hi)
}

/// The position of the last ASCII space character of `s`.
fn find_last_space(s: &Vec<char>) -> (r: Option<usize>)
    ensures
        match r {
            Some(p) => last_space(s@, s@.len() as int) == Some(p as int) && p < s@.len(),
            None => last_space(s@, s@.len() as int) is None,
        },
{
    let mut i: usize = s.len();
    while i > 0
        invariant
            i <= s@.len(),
            last_space(s@, s@.len() as int) == last_space(s@, i as int),
        decreases i,
    {
        let v = s[i - 1] as u32;
        if v == 0x20 || v == 0x09 || v == 0x0A || v == 0x0C || v == 0x0D {
            return Some(i - 1);
        }
        i -= 1;
    }
    None
}

/// Tests for a bracket that holds a target or a tooltip text.
fn holds_link(node: &Ast<'_>) -> (b: bool)
    ensures
        b == (link_parts(node@) is Some),
{
    proof {
        if node.children() is Some {
            lemma_branch_view(*node);
            lemma_views(node.children().unwrap()@);
        }
    }
    match node {
        Ast::Bracketed(v) => {
            proof {
                if v@.len() > 0 && v@[0].children() is Some {
                    lemma_branch_view(v@[0]);
                }
                if v@.len() > 1 && v@[1].children() is Some {
                    lemma_branch_view(v@[1]);
                }
            }
            if v.len() == 1 {
                match &v[0] {
                    Ast::TooltipText(_) => true,
                    Ast::Text(_) => true,
                    _ => false,
                }
            } else if v.len() == 2 {
                match (&v[0], &v[1]) {
                    (Ast::Text(_), Ast::TooltipText(_)) => true,
                    _ => false,
                }
            } else {
                false
            }
        },
        _ => false,
    }
}

/// The target and the tooltip text that a bracket holds.
pub fn bracket_child_to_url_and_tooltip<'a>(child2: Ast<'a>) -> (r: (
    Option<&'a str>,
    Option<Cow<'a, str>>,
))
    ensures
        match link_parts(child2@) {
            Some((url, tip)) => {
                &&& url == opt_str(r.0)
                &&& tip == crate::tree::opt_text(r.1)
                &&& r.0 is Some || r.1 is Some
            },
            None => r.0 is None && r.1 is None,
        },
{
    proof {
        if child2.children() is Some {
            lemma_branch_view(child2);
            lemma_views(child2.children().unwrap()@);
        }
    }
    let mut bracketed_ast = match child2 {
        Ast::Bracketed(v) => v,
        _ => {
            return (None, None);
        },
    };
    if bracketed_ast.len() == 0 || bracketed_ast.len() > 2 {
        return (None, None);
    }
    proof {
        let v = bracketed_ast@;
        if v[0].children() is Some {
            lemma_branch_view(v[0]);
        }
        if v.len() > 1 && v[1].children() is Some {
            lemma_branch_view(v[1]);
        }
    }
    let second = if bracketed_ast.len() == 2 {
        bracketed_ast.pop()
    } else {
        None
    };
    let first = bracketed_ast.pop();
    match (first, second) {
        (Some(Ast::TooltipText(tooltip)), None) => (None, Some(tooltip)),
        (Some(Ast::Text(url)), Some(Ast::TooltipText(tooltip))) => (
            Some(trim_end(url)),
            Some(tooltip),
        ),
        (Some(Ast::Text(url)), None) => (Some(trim_end(url)), None),
        _ => (None, None),
    }
}

fn copy_text<'a>(text: &Cow<'a, str>) -> (r: Cow<'a, str>)
    ensures
        r@ == text@,
{
    match text {
        Cow::Borrowed(t) => Cow::Borrowed(*t),
        Cow::Owned(t) => Cow::Owned(t.clone()),
    }
}

fn make_fallback<'a>(url: Option<&'a str>, tooltip: &Option<Cow<'a, str>>) -> (r: Ast<'a>)
    requires
        url is Some || tooltip is Some,
    ensures
        r@ == fallback_label(opt_str(url), crate::tree::opt_text(*tooltip)),
{
    match url {
        Some(u) => Ast::CowText(Cow::Borrowed(u)),
        None => match tooltip {
            Some(t) => Ast::CowText(copy_text(t)),
            None => unreached(),
        },
    }
}

fn make_link<'a>(url: Option<&'a str>, tooltip: Option<Cow<'a, str>>, label: Vec<Ast<'a>>) -> (r:
    Ast<'a>)
    requires
        url is Some || tooltip is Some,
    ensures
        r@ == linked(opt_str(url), crate::tree::opt_text(tooltip), views(label@)),
{
    let r = match url {
        Some(link_location) => Ast::Link { link_location, tooltip_text: tooltip, inner: label },
        None => match tooltip {
            Some(tooltip_text) => Ast::Tooltip { tooltip_text, inner: label },
            None => unreached(),
        },
    };
    proof {
        lemma_branch_view(r);
    }
    r
}

fn one<'a>(node: Ast<'a>) -> (v: Vec<Ast<'a>>)
    ensures
        views(v@) == seq![node@],
{
    let mut v: Vec<Ast<'a>> = Vec::new();
    v.push(node);
    proof {
        lemma_views(v@);
        assert(views(v@) =~= seq![node@]);
    }
    v
}

/// The characters of an optional text.
pub open spec fn opt_str(t: Option<&str>) -> Option<Seq<char>> {
    match t {
        Some(s) => Some(s@),
        None => None,
    }
}

/// The model of an optional tree.
pub open spec fn opt_view(t: Option<Ast<'_>>) -> Option<Node> {
    match t {
        Some(a) => Some(a@),
        None => None,
    }
}

/// What stays of the node `before`, and the label that it gives.
fn derive_label<'a>(
    before: Ast<'a>,
    url: Option<&'a str>,
    tooltip: &Option<Cow<'a, str>>,
) -> (r: (Option<Ast<'a>>, Vec<Ast<'a>>))
    requires
        url is Some || tooltip is Some,
    ensures
        (opt_view(r.0), views(r.1@)) == label_from(
            before@,
            opt_str(url),
            crate::tree::opt_text(*tooltip),
        ),
{
    proof {
        if before.children() is Some {
            lemma_branch_view(before);
        }
    }
    match before {
        Ast::Text(s) => {
            let text = chars_of(s);
            let n = text.len();
            match find_last_space(&text) {
                None => (None, one(Ast::Text(s))),
                Some(p) => {
                    if p + 1 == n {
                        (Some(Ast::Text(s)), one(make_fallback(url, tooltip)))
                    } else {
                        let head = s.substring_char(0, p + 1);
                        let word = s.substring_char(p + 1, n);
                        proof {
                            assert(s@.subrange(0, p + 1) =~= s@.take(p + 1));
                            assert(s@.subrange(p + 1, s@.len() as int) =~= s@.skip(p + 1));
                        }
                        (Some(Ast::Text(head)), one(Ast::Text(word)))
                    }
                },
            }
        },
        Ast::Quoted { inner, .. } => (None, inner),
        other => (None, one(other)),
    }
}

fn push_link_step<'a>(done: &mut Vec<Ast<'a>>, node: Ast<'a>)
    ensures
        views(final(done)@) == link_step(views(old(done)@), node@),
{
    proof {
        lemma_views(done@);
        lemma_views_push(done@, node);
    }
    if !holds_link(&node) {
        done.push(node);
        return;
    }
    let ghost before = done@;
    let (url, tooltip) = bracket_child_to_url_and_tooltip(node);
    match done.pop() {
        None => {
            let label = one(make_fallback(url, &tooltip));
            let link = make_link(url, tooltip, label);
            proof {
                lemma_views_push(done@, link);
                assert(views(done@.push(link)) =~= seq![link@]);
            }
            done.push(link);
        },
        Some(last) => {
            let (stays, label) = derive_label(last, url, &tooltip);
            proof {
                lemma_views(done@);
                assert(views(done@) =~= views(before).drop_last());
            }
            match stays {
                Some(x) => {
                    proof {
                        lemma_views_push(done@, x);
                    }
                    done.push(x);
                },
                None => {},
            }
            let link = make_link(url, tooltip, label);
            proof {
                lemma_views_push(done@, link);
            }
            done.push(link);
        },
    }
}

/// Resolves the brackets in the tree, children before parents.
pub fn process_brackets(ast: &mut Ast<'_>)
    ensures
        final(ast)@ == bracketed(old(ast)@),
    decreases *old(ast),
{
    proof {
        if old(ast).children() is Some {
            lemma_branch_view(*old(ast));
        }
    }
    match ast.children_mut() {
        Some(children) => {
            let ghost before = children@;
            let ghost goal = bracketed_all(views(before));
            let taken = take_all(children);
            proof {
                lemma_views(before);
                assert(views(children@) =~= links_level(goal.take(0)));
            }
            for child in it: taken
                invariant
                    it.seq() == before,
                    goal == bracketed_all(views(before)),
                    views(children@) == links_level(goal.take(it.index() as int)),
                    forall|j: int|
                        0 <= j < before.len() ==> decreases_to!(*old(ast) => #[trigger] before[j]),
            {
                let ghost i = it.index() as int;
                let mut child = child;
                process_brackets(&mut child);
                proof {
                    lemma_views(before);
                    assert(goal.take(i + 1).drop_last() =~= goal.take(i));
                    assert(goal.take(i + 1).last() == child@);
                }
                push_link_step(children, child);
            }
            proof {
                assert(goal.take(before.len() as int) =~= goal);
            }
        },
        None => {},
    }
    proof {
        if ast.children() is Some {
            lemma_branch_view(*ast);
        }
    }
}

} // verus!
