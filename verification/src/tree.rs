//! The mathematical model of the syntax tree.
use crate::Ast;
use std::borrow::Cow;
use vstd::prelude::*;

verus! {

/// What an inner node is, apart from its children.
#[allow(inconsistent_fields)]
pub enum Kind {
    Root,
    Quoted { original_text: Seq<char> },
    Bracketed,
    CurlyBraced,
    BlockQuoted,
    CodeQuoted,
    ProcessedPrefixSuffix { prefix: Seq<char>, suffix: Seq<char> },
    Header { level: i32 },
    Tooltip { tooltip_text: Seq<char> },
    Link { link_location: Seq<char>, tooltip_text: Option<Seq<char>> },
}

/// A syntax tree as a value: leaves carry their characters, inner nodes their
/// kind and their children in document order.
pub enum Node {
    Text(Seq<char>),
    CowText(Seq<char>),
    NoBrText(Seq<char>),
    TooltipText(Seq<char>),
    Branch(Kind, Seq<Node>),
}

/// The characters of an optional piece of text.
pub open spec fn opt_text(t: Option<Cow<'_, str>>) -> Option<Seq<char>> {
    match t {
        Some(s) => Some(s@),
        None => None,
    }
}

impl<'a> Ast<'a> {
    /// The kind of an inner node; arbitrary on a leaf.
    pub open spec fn kind(self) -> Kind {
        match self {
            Ast::Quoted { original_text, .. } => Kind::Quoted { original_text: original_text@ },
            Ast::Bracketed(_) => Kind::Bracketed,
            Ast::CurlyBraced(_) => Kind::CurlyBraced,
            Ast::BlockQuoted(_) => Kind::BlockQuoted,
            Ast::CodeQuoted(_) => Kind::CodeQuoted,
            Ast::ProcessedPrefixSuffix(prefix, _, suffix) => Kind::ProcessedPrefixSuffix {
                prefix: prefix@,
                suffix: suffix@,
            },
            Ast::Header(level, _) => Kind::Header { level },
            Ast::Tooltip { tooltip_text, .. } => Kind::Tooltip { tooltip_text: tooltip_text@ },
            Ast::Link { link_location, tooltip_text, .. } => Kind::Link {
                link_location: link_location@,
                tooltip_text: opt_text(tooltip_text),
            },
            _ => Kind::Root,
        }
    }

    /// The children of an inner node; `None` on a leaf.
    pub open spec fn children(self) -> Option<Vec<Ast<'a>>> {
        match self {
            Ast::Root(nodes) => Some(nodes),
            Ast::Quoted { inner, .. } => Some(inner),
            Ast::Bracketed(nodes) => Some(nodes),
            Ast::CurlyBraced(nodes) => Some(nodes),
            Ast::BlockQuoted(nodes) => Some(nodes),
            Ast::CodeQuoted(nodes) => Some(nodes),
            Ast::ProcessedPrefixSuffix(_, nodes, _) => Some(nodes),
            Ast::Header(_, nodes) => Some(nodes),
            Ast::Tooltip { inner, .. } => Some(inner),
            Ast::Link { inner, .. } => Some(inner),
            _ => None,
        }
    }
}

impl<'a> View for Ast<'a> {
    type V = Node;

    open spec fn view(&self) -> Node
        decreases self,
    {
        match self {
            Ast::Text(s) => Node::Text(s@),
            Ast::CowText(s) => Node::CowText(s@),
            Ast::NoBrText(s) => Node::NoBrText(s@),
            Ast::TooltipText(s) => Node::TooltipText(s@),
            Ast::Root(nodes) => Node::Branch(self.kind(), views(nodes@)),
            Ast::Quoted { inner, .. } => Node::Branch(self.kind(), views(inner@)),
            Ast::Bracketed(nodes) => Node::Branch(self.kind(), views(nodes@)),
            Ast::CurlyBraced(nodes) => Node::Branch(self.kind(), views(nodes@)),
            Ast::BlockQuoted(nodes) => Node::Branch(self.kind(), views(nodes@)),
            Ast::CodeQuoted(nodes) => Node::Branch(self.kind(), views(nodes@)),
            Ast::ProcessedPrefixSuffix(_, nodes, _) => Node::Branch(self.kind(), views(nodes@)),
            Ast::Header(_, nodes) => Node::Branch(self.kind(), views(nodes@)),
            Ast::Tooltip { inner, .. } => Node::Branch(self.kind(), views(inner@)),
            Ast::Link { inner, .. } => Node::Branch(self.kind(), views(inner@)),
        }
    }
}

/// The models of a sequence of trees.
pub open spec fn views(v: Seq<Ast<'_>>) -> Seq<Node>
    decreases v,
{
    Seq::new(
        v.len(),
        |i: int|
            if 0 <= i < v.len() {
                v[i]@
            } else {
                Node::Text(Seq::empty())
            },
    )
}

/// What an inner node models.
pub proof fn lemma_branch_view(ast: Ast<'_>)
    requires
        ast.children() is Some,
    ensures
        ast@ == Node::Branch(ast.kind(), views(ast.children().unwrap()@)),
{
}

/// The model of a sequence of trees, element by element.
pub proof fn lemma_views(v: Seq<Ast<'_>>)
    ensures
        views(v).len() == v.len(),
        forall|i: int| 0 <= i < v.len() ==> #[trigger] views(v)[i] == v[i]@,
{
}

/// The model of a sequence with one more tree at its end.
pub proof fn lemma_views_push(v: Seq<Ast<'_>>, x: Ast<'_>)
    ensures
        views(v.push(x)) == views(v).push(x@),
        views(v.push(x)) == views(v) + seq![x@],
{
    assert(views(v.push(x)) =~= views(v).push(x@));
    assert(views(v).push(x@) =~= views(v) + seq![x@]);
}

/// The model of two sequences, one after the other.
pub proof fn lemma_views_concat(a: Seq<Ast<'_>>, b: Seq<Ast<'_>>)
    ensures
        views(a + b) == views(a) + views(b),
{
    assert(views(a + b) =~= views(a) + views(b));
}

impl<'a> Ast<'a> {
    /// The children of an inner node.
    pub fn children_ref(&self) -> (r: Option<&Vec<Ast<'a>>>)
        ensures
            match r {
                Some(c) => self.children() == Some(*c),
                None => self.children() is None,
            },
    {
        match self {
            Ast::Root(nodes) => Some(nodes),
            Ast::Quoted { inner, .. } => Some(inner),
            Ast::Bracketed(nodes) => Some(nodes),
            Ast::CurlyBraced(nodes) => Some(nodes),
            Ast::BlockQuoted(nodes) => Some(nodes),
            Ast::CodeQuoted(nodes) => Some(nodes),
            Ast::ProcessedPrefixSuffix(_, nodes, _) => Some(nodes),
            Ast::Header(_, nodes) => Some(nodes),
            Ast::Tooltip { inner, .. } => Some(inner),
            Ast::Link { inner, .. } => Some(inner),
            Ast::Text(_) | Ast::CowText(_) | Ast::NoBrText(_) | Ast::TooltipText(_) => None,
        }
    }

    /// The children of an inner node, for rewriting in place.
    pub fn children_mut(&mut self) -> (r: Option<&mut Vec<Ast<'a>>>)
        ensures
            match r {
                Some(c) => {
                    &&& old(self).children() == Some(*c)
                    &&& final(self).children() == Some(*final(c))
                    &&& final(self).kind() == old(self).kind()
                    &&& forall|i: int|
                        0 <= i < c@.len() ==> decreases_to!(*old(self) => #[trigger] c@[i])
                },
                None => old(self).children() is None && *final(self) == *old(self),
            },
    {
        match self {
            Ast::Root(nodes) => Some(nodes),
            Ast::Quoted { inner, .. } => Some(inner),
            Ast::Bracketed(nodes) => Some(nodes),
            Ast::CurlyBraced(nodes) => Some(nodes),
            Ast::BlockQuoted(nodes) => Some(nodes),
            Ast::CodeQuoted(nodes) => Some(nodes),
            Ast::ProcessedPrefixSuffix(_, nodes, _) => Some(nodes),
            Ast::Header(_, nodes) => Some(nodes),
            Ast::Tooltip { inner, .. } => Some(inner),
            Ast::Link { inner, .. } => Some(inner),
            Ast::Text(_) | Ast::CowText(_) | Ast::NoBrText(_) | Ast::TooltipText(_) => None,
        }
    }
}

/// Takes every tree out of `nodes`, leaving it empty.
pub fn take_all<'a>(nodes: &mut Vec<Ast<'a>>) -> (taken: Vec<Ast<'a>>)
    ensures
        taken == *old(nodes),
        final(nodes)@ == Seq::<Ast<'a>>::empty(),
{
    let mut taken: Vec<Ast<'a>> = Vec::new();
    std::mem::swap(nodes, &mut taken);
    taken
}

} // verus!
