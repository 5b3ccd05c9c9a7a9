//! The fourth pass: curly-braced spans become click-to-reveal spoilers.
use crate::tree::{lemma_branch_view, lemma_views, lemma_views_push, take_all, views, Kind, Node};
use crate::Ast;
use vstd::prelude::*;

verus! {

/// The markup before a spoiler: the closed state, with the hook that reveals it.
pub const SPOILER_OPEN: &'static str =
    "<span class=\"cu_brackets\" onclick=\"return spoiler(this, event)\"><span class=\"cu_brackets_b\">{</span><span>\u{2026}</span><span class=\"cu\" style=\"display: none\">";

/// The markup after a spoiler.
pub const SPOILER_CLOSE: &'static str = "</span><span class=\"cu_brackets_b\">}</span></span>";

/// `n`, turned into a spoiler if it is a curly-braced span.
pub open spec fn spoiler_of(n: Node) -> Node {
    match n {
        Node::Branch(Kind::CurlyBraced, inner) => Node::Branch(
            Kind::ProcessedPrefixSuffix { prefix: SPOILER_OPEN@, suffix: SPOILER_CLOSE@ },
            inner,
        ),
        _ => n,
    }
}

/// `n` with every curly-braced span below it turned into a spoiler.
pub open spec fn spoiled(n: Node) -> Node
    decreases n,
{
    match n {
        Node::Branch(k, c) => Node::Branch(k, spoiled_all(c)),
        _ => n,
    }
}

/// Each tree of `c` with the spans below it turned into spoilers, and then
/// itself.
pub open spec fn spoiled_all(c: Seq<Node>) -> Seq<Node>
    decreases c,
{
    Seq::new(
        c.len(),
        |i: int|
            if 0 <= i < c.len() {
                spoiler_of(spoiled(c[i]))
            } else {
                Node::Text(Seq::empty())
            },
    )
}

fn into_spoiler<'a>(ast: Ast<'a>) -> (r: Ast<'a>)
    ensures
        r@ == spoiler_of(ast@),
{
    proof {
        if ast.children() is Some {
            lemma_branch_view(ast);
        }
    }
    match ast {
        Ast::CurlyBraced(inner) => {
            let r = Ast::ProcessedPrefixSuffix(SPOILER_OPEN, inner, SPOILER_CLOSE);
            proof {
                lemma_branch_view(r);
            }
            r
        },
        other => other,
    }
}

/// Turns every curly-braced span below `ast` into a spoiler.
pub fn process_spoilers(ast: &mut Ast<'_>)
    ensures
        final(ast)@ == spoiled(old(ast)@),
    decreases *old(ast),
{
    proof {
        if old(ast).children() is Some {
            lemma_branch_view(*old(ast));
        }
    }
    match ast.children_mut() {
        Some(children) => {
            let ghost before = children@;
            let ghost goal = spoiled_all(views(before));
            let taken = take_all(children);
            proof {
                lemma_views(before);
                assert(views(children@) =~= goal.take(0));
            }
            for child in it: taken
                invariant
                    it.seq() == before,
                    goal == spoiled_all(views(before)),
                    views(children@) == goal.take(it.index() as int),
                    forall|j: int|
                        0 <= j < before.len() ==> decreases_to!(*old(ast) => #[trigger] before[j]),
            {
                let ghost i = it.index() as int;
                let mut child = child;
                process_spoilers(&mut child);
                let child = into_spoiler(child);
                proof {
                    lemma_views(before);
                    lemma_views_push(children@, child);
                    assert(goal.take(i + 1) =~= goal.take(i).push(child@));
                }
                children.push(child);
            }
            proof {
                assert(goal.take(before.len() as int) =~= goal);
            }
        },
        None => {},
    }
    proof {
        if ast.children() is Some {
            lemma_branch_view(*ast);
        }
    }
}

} // verus!
