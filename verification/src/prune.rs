//! The first pass: empty text nodes are removed.
use crate::tree::{lemma_branch_view, lemma_views, lemma_views_push, take_all, views, Node};
use crate::Ast;
use vstd::prelude::*;

verus! {

/// True of a text node without content.
pub open spec fn is_empty_text(n: Node) -> bool {
    n matches Node::Text(s) && s.len() == 0
}

/// `c` without its empty text nodes.
pub open spec fn drop_empty(c: Seq<Node>) -> Seq<Node>
    decreases c.len(),
{
    if c.len() == 0 {
        Seq::empty()
    } else if is_empty_text(c.last()) {
        drop_empty(c.drop_last())
    } else {
        drop_empty(c.drop_last()).push(c.last())
    }
}

/// `n` with every empty text node removed, at every depth.
pub open spec fn pruned(n: Node) -> Node
    decreases n,
{
    match n {
        Node::Branch(k, c) => Node::Branch(k, drop_empty(pruned_all(c))),
        _ => n,
    }
}

/// Each tree of `c`, pruned.
pub open spec fn pruned_all(c: Seq<Node>) -> Seq<Node>
    decreases c,
{
    Seq::new(
        c.len(),
        |i: int|
            if 0 <= i < c.len() {
                pruned(c[i])
            } else {
                Node::Text(Seq::empty())
            },
    )
}

fn has_no_content(ast: &Ast<'_>) -> (b: bool)
    ensures
        b == is_empty_text(ast@),
{
    match ast {
        Ast::Text(s) => s.is_empty(),
        _ => false,
    }
}

/// Removes every empty text node from the tree.
pub fn remove_empty_text(ast: &mut Ast<'_>)
    ensures
        final(ast)@ == pruned(old(ast)@),
    decreases *old(ast),
{
    proof {
        if old(ast).children() is Some {
            lemma_branch_view(*old(ast));
        }
    }
    match ast.children_mut() {
        Some(children) => {
            let ghost before = children@;
            let ghost goal = pruned_all(views(before));
            let taken = take_all(children);
            proof {
                lemma_views(before);
                assert(views(children@) =~= drop_empty(goal.take(0)));
            }
            for child in it: taken
                invariant
                    it.seq() == before,
                    goal == pruned_all(views(before)),
                    views(children@) == drop_empty(goal.take(it.index() as int)),
                    forall|j: int|
                        0 <= j < before.len() ==> decreases_to!(*old(ast) => #[trigger] before[j]),
            {
                let ghost i = it.index() as int;
                let mut child = child;
                remove_empty_text(&mut child);
                proof {
                    lemma_views(before);
                    assert(goal.take(i + 1).drop_last() =~= goal.take(i));
                    assert(goal.take(i + 1).last() == child@);
                    lemma_views_push(children@, child);
                }
                if !has_no_content(&child) {
                    children.push(child);
                }
            }
            proof {
                assert(goal.take(before.len() as int) =~= goal);
            }
        },
        None => {},
    }
    proof {
        if ast.children() is Some {
            lemma_branch_view(*ast);
        }
    }
}

} // verus!
