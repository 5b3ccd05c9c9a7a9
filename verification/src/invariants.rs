//! What holds of the tree between the passes, so that the renderer never
//! meets a node that it cannot write.
use crate::chars::{find_run, run_of};
use crate::link::{
    bracketed, bracketed_all, fallback_label, label_from, link_parts, linked, links_level,
};
use crate::parse::{
    after, code_block, comment_len, delim_at, left, next_interesting, scan_level, scanned,
    tick_run, ticks, Delim, Scan,
};
use crate::print::renderable;
use crate::prune::{drop_empty, pruned, pruned_all};
use crate::shorthand::{quote_pair, quoted, quoted_all, quotes_level};
use crate::spoiler::{spoiled, spoiled_all, spoiler_of};
use crate::tooltip::{pull_child, pulled, pulled_below, tip_source, url_tooltip_shape, with_tip};
use crate::tree::{Kind, Node};
use vstd::prelude::*;

verus! {

/// True if every tree of `c` can be rendered.
pub open spec fn all_renderable(c: Seq<Node>) -> bool {
    forall|i: int| 0 <= i < c.len() ==> renderable(#[trigger] c[i])
}

/// True of a bracket that holds a tooltip text, alone or after a link target.
pub open spec fn tip_bracket(n: Node) -> bool {
    n matches Node::Branch(Kind::Bracketed, c) && {
        ||| c.len() == 1 && c[0] is TooltipText
        ||| c.len() == 2 && c[0] is Text && c[1] is TooltipText
    }
}

/// True of a tree in which tooltip text stands only in such brackets, below
/// the root, and every heading has a level from 1 to 6.
pub open spec fn tip_safe(n: Node) -> bool
    decreases n,
{
    match n {
        Node::TooltipText(_) => false,
        Node::Branch(k, c) => {
            &&& k matches Kind::Header { level } ==> 1 <= level <= 6
            &&& forall|i: int| 0 <= i < c.len() ==> tip_bracket(#[trigger] c[i]) || tip_safe(c[i])
        },
        _ => true,
    }
}

/// True if every tree of `c` is such a bracket or safe in the sense above.
pub open spec fn all_safe(c: Seq<Node>) -> bool {
    forall|i: int| 0 <= i < c.len() ==> tip_bracket(#[trigger] c[i]) || tip_safe(c[i])
}

/// An inner node can be rendered if its children can, and its level is in
/// range where it is a heading.
pub proof fn lemma_renderable_intro(k: Kind, c: Seq<Node>)
    requires
        all_renderable(c),
        k matches Kind::Header { level } ==> 1 <= level <= 6,
    ensures
        renderable(Node::Branch(k, c)),
{
    reveal_with_fuel(renderable, 2);
}

/// The children of an inner node that can be rendered can be rendered.
pub proof fn lemma_renderable_elim(k: Kind, c: Seq<Node>)
    requires
        renderable(Node::Branch(k, c)),
    ensures
        all_renderable(c),
        k matches Kind::Header { level } ==> 1 <= level <= 6,
{
    crate::print::lemma_renderable_branch(k, c);
}

/// An inner node is safe if each child is safe or a bracket that holds a
/// tooltip text, and its level is in range where it is a heading.
pub proof fn lemma_safe_intro(k: Kind, c: Seq<Node>)
    requires
        all_safe(c),
        k matches Kind::Header { level } ==> 1 <= level <= 6,
    ensures
        tip_safe(Node::Branch(k, c)),
{
    reveal_with_fuel(tip_safe, 2);
}

/// Each child of a safe inner node is safe or a bracket that holds a tooltip
/// text.
pub proof fn lemma_safe_elim(k: Kind, c: Seq<Node>)
    requires
        tip_safe(Node::Branch(k, c)),
    ensures
        all_safe(c),
        k matches Kind::Header { level } ==> 1 <= level <= 6,
{
    let n = Node::Branch(k, c);
    assert(n->Branch_1 == c);
    assert(forall|i: int| 0 <= i < c.len() ==> tip_bracket(#[trigger] c[i]) || tip_safe(c[i])) by {
        reveal_with_fuel(tip_safe, 2);
    }
}

/// A tree that can be rendered is safe.
pub proof fn lemma_renderable_is_safe(n: Node)
    requires
        renderable(n),
    ensures
        tip_safe(n),
        !tip_bracket(n),
    decreases n,
{
    if let Node::Branch(k, c) = n {
        lemma_renderable_elim(k, c);
        assert forall|i: int| 0 <= i < c.len() implies tip_bracket(#[trigger] c[i]) || tip_safe(
            c[i],
        ) by {
            lemma_renderable_is_safe(c[i]);
        }
        lemma_safe_intro(k, c);
        if c.len() > 0 {
            assert(renderable(c[c.len() - 1]));
        }
    }
}

proof fn lemma_after_renderable(head: Seq<Node>, used: nat, rest: Scan)
    requires
        all_renderable(head),
        rest matches Scan::Level { nodes, .. } ==> all_renderable(nodes),
    ensures
        after(head, used, rest) matches Scan::Level { nodes, .. } ==> all_renderable(nodes),
{
}

/// Every level that the scanner gives can be rendered.
pub proof fn lemma_scan_renderable(s: Seq<char>, pos: int, ending: Option<Delim>)
    ensures
        scan_level(s, pos, ending) matches Scan::Level { nodes, .. } ==> all_renderable(nodes),
    decreases left(s, pos),
{
    if !(0 <= pos < s.len()) {
        if pos >= s.len() {
            crate::parse::lemma_scan_end(s, pos, ending);
        } else {
            reveal(scan_level);
        }
    } else {
        crate::parse::lemma_next_interesting(s, pos, ending);
        match next_interesting(s, pos, ending) {
            None => {
                crate::parse::lemma_scan_text(s, pos, ending);
            },
            Some(k) => {
                let c = pos + k;
                let head = Node::Text(s.subrange(pos, c));
                if run_of(s, c, '[', 3) {
                    crate::parse::lemma_scan_comment(s, pos, ending, c);
                    match comment_len(s, c + 3, 3) {
                        Some(n) => {
                            lemma_scan_renderable(s, c + 3 + n, ending);
                            lemma_after_renderable(
                                seq![head],
                                (c - pos + 3 + n) as nat,
                                scan_level(s, c + 3 + n, ending),
                            );
                        },
                        None => {},
                    }
                } else if s[c] == '`' {
                    crate::parse::lemma_scan_code(s, pos, ending, c);
                    let n = tick_run(s, c);
                    match find_run(s, c + n, '`', n) {
                        Some(j) => {
                            lemma_scan_renderable(s, c + n + j + n, ending);
                            let content = s.subrange(c + n, c + n + j);
                            lemma_renderable_intro(Kind::CodeQuoted, seq![Node::NoBrText(content)]);
                            lemma_after_renderable(
                                seq![head, code_block(content)],
                                (c - pos + n + j + n) as nat,
                                scan_level(s, c + n + j + n, ending),
                            );
                        },
                        None => {
                            lemma_scan_renderable(s, c + n, ending);
                            lemma_after_renderable(
                                seq![head, Node::Text(ticks(n))],
                                (c - pos + n) as nat,
                                scan_level(s, c + n, ending),
                            );
                        },
                    }
                } else {
                    match delim_at(s, c) {
                        None => {
                            crate::parse::lemma_scan_closer(s, pos, ending, c);
                        },
                        Some(d) => {
                            crate::parse::lemma_scan_region(s, pos, ending, c, d);
                            let start = c + d.opener().len();
                            lemma_scan_renderable(s, start, Some(d));
                            match scan_level(s, start, Some(d)) {
                                Scan::Level { nodes: inner, consumed: m } => {
                                    if start + m < s.len() {
                                        lemma_scan_renderable(s, start + m + 1, ending);
                                        let raw = s.subrange(c, start + m + 1);
                                        lemma_renderable_intro(d.wrap(raw, inner)->Branch_0, inner);
                                        lemma_after_renderable(
                                            seq![head, d.wrap(raw, inner)],
                                            (c - pos + d.opener().len() + m + 1) as nat,
                                            scan_level(s, start + m + 1, ending),
                                        );
                                    }
                                },
                                _ => {},
                            }
                        },
                    }
                }
            },
        }
    }
}

/// The tree that the scanner gives can be rendered.
pub proof fn lemma_scanned_renderable(s: Seq<char>)
    ensures
        scanned(s) matches Ok(tree) ==> renderable(tree),
{
    lemma_scan_renderable(s, 0, None);
    if let Scan::Level { nodes, .. } = scan_level(s, 0, None) {
        lemma_renderable_intro(Kind::Root, nodes);
    }
}

proof fn lemma_drop_empty_renderable(c: Seq<Node>)
    requires
        all_renderable(c),
    ensures
        all_renderable(drop_empty(c)),
    decreases c.len(),
{
    if c.len() > 0 {
        assert(all_renderable(c.drop_last())) by {
            assert forall|i: int| 0 <= i < c.drop_last().len() implies renderable(
                #[trigger] c.drop_last()[i],
            ) by {
                assert(c.drop_last()[i] == c[i]);
            }
        }
        lemma_drop_empty_renderable(c.drop_last());
        assert(renderable(c[c.len() - 1]));
    }
}

/// Pruning keeps a tree renderable.
pub proof fn lemma_pruned_renderable(n: Node)
    requires
        renderable(n),
    ensures
        renderable(pruned(n)),
    decreases n,
{
    if let Node::Branch(k, c) = n {
        lemma_renderable_elim(k, c);
        assert(all_renderable(pruned_all(c))) by {
            assert forall|i: int| 0 <= i < pruned_all(c).len() implies renderable(
                #[trigger] pruned_all(c)[i],
            ) by {
                assert(renderable(c[i]));
                lemma_pruned_renderable(c[i]);
            }
        }
        lemma_drop_empty_renderable(pruned_all(c));
        lemma_renderable_intro(k, drop_empty(pruned_all(c)));
    }
}

proof fn lemma_all_safe_prefix(c: Seq<Node>)
    requires
        all_safe(c),
        c.len() > 0,
    ensures
        all_safe(c.drop_last()),
        tip_bracket(c.last()) || tip_safe(c.last()),
{
    assert forall|i: int| 0 <= i < c.drop_last().len() implies tip_bracket(
        #[trigger] c.drop_last()[i],
    ) || tip_safe(c.drop_last()[i]) by {
        assert(c.drop_last()[i] == c[i]);
    }
    assert(c.last() == c[c.len() - 1]);
}

proof fn lemma_all_renderable_prefix(c: Seq<Node>)
    requires
        all_renderable(c),
        c.len() > 0,
    ensures
        all_renderable(c.drop_last()),
        renderable(c.last()),
{
    assert forall|i: int| 0 <= i < c.drop_last().len() implies renderable(
        #[trigger] c.drop_last()[i],
    ) by {
        assert(c.drop_last()[i] == c[i]);
    }
    assert(c.last() == c[c.len() - 1]);
}

/// A bracket whose tooltip was pulled out holds a tooltip text.
proof fn lemma_with_tip_is_tip_bracket(n: Node, tip: Seq<char>)
    requires
        tip_source(n) is Some,
    ensures
        tip_bracket(with_tip(n, tip)),
{
    let c = n->Branch_1;
    let w = c.drop_last().push(Node::TooltipText(tip));
    if c.len() == 2 {
        assert(w[0] == c[0]);
    }
}

/// After the tooltips are pulled out of a tree that could be rendered, the
/// tree is safe.
pub proof fn lemma_pulled_safe(n: Node)
    requires
        renderable(n),
    ensures
        pulled(n) matches Ok(t) ==> tip_safe(t),
    decreases n, 0nat,
{
    match n {
        Node::Branch(k, c) => {
            lemma_renderable_elim(k, c);
            lemma_pulled_below_safe(c, 0);
            if let Ok(t) = pulled(n) {
                lemma_safe_intro(k, t->Branch_1);
            }
        },
        _ => {},
    }
}

proof fn lemma_pulled_below_safe(c: Seq<Node>, i: int)
    requires
        all_renderable(c),
        0 <= i,
    ensures
        pulled_below(c, i) matches Ok(b) ==> all_safe(b),
    decreases c, c.len() - i,
{
    if i < c.len() {
        assert(renderable(c[i]));
        lemma_pulled_below_safe(c, i + 1);
        if url_tooltip_shape(c[i]) {
            match tip_source(c[i]) {
                Some(raw) => {
                    if let Ok(x) = pull_child(c[i]) {
                        lemma_with_tip_is_tip_bracket(c[i], x->Branch_1.last()->TooltipText_0);
                    }
                },
                None => {
                    lemma_renderable_is_safe(c[i]);
                },
            }
        } else {
            lemma_pulled_safe(c[i]);
        }
    }
}

/// The shorthand pass leaves a bracket that holds a tooltip text as it is.
proof fn lemma_quoted_tip_bracket(n: Node)
    requires
        tip_bracket(n),
    ensures
        quoted(n) == n,
{
    let c = n->Branch_1;
    assert(quoted_all(c) =~= c);
    reveal_with_fuel(quotes_level, 3);
    if c.len() == 1 {
        assert(c.drop_last() =~= Seq::<Node>::empty());
        assert(quotes_level(c) =~= c);
    } else {
        assert(c.drop_last().drop_last() =~= Seq::<Node>::empty());
        assert(c.drop_last().last() == c[0]);
        assert(quotes_level(c.drop_last()) =~= c.drop_last());
        assert(quotes_level(c) =~= c);
    }
}

proof fn lemma_quotes_level_safe(c: Seq<Node>)
    requires
        all_safe(c),
    ensures
        all_safe(quotes_level(c)),
    decreases c.len(),
{
    if c.len() > 0 {
        lemma_all_safe_prefix(c);
        lemma_quotes_level_safe(c.drop_last());
        let done = quotes_level(c.drop_last());
        let node = c.last();
        if done.len() > 0 {
            lemma_all_safe_prefix(done);
            match quote_pair(done.last(), node) {
                Some((text, wrapped)) => {
                    let inner = node->Branch_1;
                    lemma_safe_elim(node->Branch_0, inner);
                    lemma_safe_intro(wrapped->Branch_0, inner);
                },
                None => {},
            }
        }
    }
}

/// The shorthand pass keeps a tree safe.
pub proof fn lemma_quoted_safe(n: Node)
    requires
        tip_safe(n),
    ensures
        tip_safe(quoted(n)),
    decreases n,
{
    if let Node::Branch(k, c) = n {
        lemma_safe_elim(k, c);
        assert(all_safe(quoted_all(c))) by {
            assert forall|i: int| 0 <= i < quoted_all(c).len() implies tip_bracket(
                #[trigger] quoted_all(c)[i],
            ) || tip_safe(quoted_all(c)[i]) by {
                assert(tip_bracket(c[i]) || tip_safe(c[i]));
                if tip_bracket(c[i]) {
                    lemma_quoted_tip_bracket(c[i]);
                } else {
                    lemma_quoted_safe(c[i]);
                }
            }
        }
        lemma_quotes_level_safe(quoted_all(c));
        lemma_safe_intro(k, quotes_level(quoted_all(c)));
    }
}

/// The spoiler pass keeps a tree safe.
pub proof fn lemma_spoiled_safe(n: Node)
    requires
        tip_safe(n),
    ensures
        tip_safe(spoiled(n)),
    decreases n,
{
    if let Node::Branch(k, c) = n {
        lemma_safe_elim(k, c);
        assert(all_safe(spoiled_all(c))) by {
            assert forall|i: int| 0 <= i < spoiled_all(c).len() implies tip_bracket(
                #[trigger] spoiled_all(c)[i],
            ) || tip_safe(spoiled_all(c)[i]) by {
                assert(tip_bracket(c[i]) || tip_safe(c[i]));
                if tip_bracket(c[i]) {
                    let cc = c[i]->Branch_1;
                    assert(spoiled_all(cc) =~= cc);
                } else {
                    lemma_spoiled_safe(c[i]);
                    let m = spoiled(c[i]);
                    if let Node::Branch(Kind::CurlyBraced, inner) = m {
                        lemma_safe_elim(Kind::CurlyBraced, inner);
                        lemma_safe_intro(spoiler_of(m)->Branch_0, inner);
                    }
                }
            }
        }
        lemma_safe_intro(k, spoiled_all(c));
    }
}

/// True if every tree of `c` is a bracket that holds a tooltip text, or can
/// be rendered.
pub open spec fn all_resolvable(c: Seq<Node>) -> bool {
    forall|i: int| 0 <= i < c.len() ==> tip_bracket(#[trigger] c[i]) || renderable(c[i])
}

/// The link pass leaves a bracket that holds a tooltip text as it is.
proof fn lemma_bracketed_tip_bracket(n: Node)
    requires
        tip_bracket(n),
    ensures
        bracketed(n) == n,
{
    let c = n->Branch_1;
    assert(bracketed_all(c) =~= c);
    reveal_with_fuel(links_level, 3);
    if c.len() == 1 {
        assert(c.drop_last() =~= Seq::<Node>::empty());
        assert(links_level(c) =~= c);
    } else {
        assert(c.drop_last().drop_last() =~= Seq::<Node>::empty());
        assert(c.drop_last().last() == c[0]);
        assert(links_level(c.drop_last()) =~= c.drop_last());
        assert(links_level(c) =~= c);
    }
}

proof fn lemma_links_level_renderable(c: Seq<Node>)
    requires
        all_resolvable(c),
    ensures
        all_renderable(links_level(c)),
    decreases c.len(),
{
    if c.len() > 0 {
        assert(all_resolvable(c.drop_last())) by {
            assert forall|i: int| 0 <= i < c.drop_last().len() implies tip_bracket(
                #[trigger] c.drop_last()[i],
            ) || renderable(c.drop_last()[i]) by {
                assert(c.drop_last()[i] == c[i]);
            }
        }
        lemma_links_level_renderable(c.drop_last());
        let done = links_level(c.drop_last());
        let node = c.last();
        assert(tip_bracket(c[c.len() - 1]) || renderable(c[c.len() - 1]));
        match link_parts(node) {
            None => {},
            Some((url, tip)) => {
                if done.len() == 0 {
                    lemma_renderable_intro(
                        linked(url, tip, seq![fallback_label(url, tip)])->Branch_0,
                        seq![fallback_label(url, tip)],
                    );
                } else {
                    lemma_all_renderable_prefix(done);
                    let (stays, label) = label_from(done.last(), url, tip);
                    if let Node::Branch(k, inner) = done.last() {
                        lemma_renderable_elim(k, inner);
                    }
                    lemma_renderable_intro(linked(url, tip, label)->Branch_0, label);
                }
            },
        }
    }
}

/// After the link pass a safe tree can be rendered.
pub proof fn lemma_bracketed_renderable(n: Node)
    requires
        tip_safe(n),
    ensures
        renderable(bracketed(n)),
    decreases n,
{
    if let Node::Branch(k, c) = n {
        lemma_safe_elim(k, c);
        assert(all_resolvable(bracketed_all(c))) by {
            assert forall|i: int| 0 <= i < bracketed_all(c).len() implies tip_bracket(
                #[trigger] bracketed_all(c)[i],
            ) || renderable(bracketed_all(c)[i]) by {
                assert(tip_bracket(c[i]) || tip_safe(c[i]));
                if tip_bracket(c[i]) {
                    lemma_bracketed_tip_bracket(c[i]);
                } else {
                    lemma_bracketed_renderable(c[i]);
                }
            }
        }
        lemma_links_level_renderable(bracketed_all(c));
        lemma_renderable_intro(k, links_level(bracketed_all(c)));
    }
}

} // verus!
