//! What holds of every compilation.
use crate::chars::{byte_len, find_run, lemma_find_run, run_of};
use crate::compiled;
use crate::parse::{
    after, code_block, comment_len, delim_at, interesting_at, left, lemma_next_interesting,
    lemma_scan_closer, lemma_scan_code, lemma_scan_comment, lemma_scan_end, lemma_scan_region,
    lemma_scan_text, next_interesting, parsed, scan_level, scanned, tick_run, ticks, Delim, Scan,
};
use crate::escape::{
    escaped, inert_at, lemma_escaped_is_inert, lemma_no_newline_no_break,
    lemma_unescaped_escaped, text_html, unescaped,
};
use crate::link::{bracketed, bracketed_all, links_level};
use crate::parse::lemma_next_interesting_is_none;
use crate::print::{html, html_all};
use crate::shorthand::{
    lemma_quotes_level_pointwise, quoted, quoted_all, quoted_at, quotes_level,
};
use crate::spoiler::{spoiled, spoiled_all};
use crate::prune::{drop_empty, pruned, pruned_all};
use crate::shorthand::{
    is_digit, last_mark, mark_at, quote_pair, quote_step, shorthand_of, signed_decimal,
    unsigned_part,
};
use crate::tooltip::{
    leading, level_error, pull_child, pulled, pulled_below, tip_source, tooltip_of, trailing,
    unquoted, url_tooltip_shape,
};
use crate::tree::{Kind, Node};
use vstd::prelude::*;

verus! {

/// True if `[[[` stands somewhere in `s`.
pub open spec fn has_comment_opener(s: Seq<char>) -> bool {
    exists|i: int| run_of(s, i, '[', 3)
}

/// True of a tree in which the raw text of no quoted span holds `[[[`.
pub open spec fn calm(n: Node) -> bool
    decreases n,
{
    match n {
        Node::Branch(k, c) => {
            &&& k matches Kind::Quoted { original_text } ==> !has_comment_opener(original_text)
            &&& forall|i: int| 0 <= i < c.len() ==> calm(#[trigger] c[i])
        },
        _ => true,
    }
}

/// True if every tree of `c` is calm.
pub open spec fn all_calm(c: Seq<Node>) -> bool {
    forall|i: int| 0 <= i < c.len() ==> calm(#[trigger] c[i])
}

proof fn lemma_calm_intro(k: Kind, c: Seq<Node>)
    requires
        all_calm(c),
        k matches Kind::Quoted { original_text } ==> !has_comment_opener(original_text),
    ensures
        calm(Node::Branch(k, c)),
{
    reveal_with_fuel(calm, 2);
}

proof fn lemma_calm_elim(k: Kind, c: Seq<Node>)
    requires
        calm(Node::Branch(k, c)),
    ensures
        all_calm(c),
        k matches Kind::Quoted { original_text } ==> !has_comment_opener(original_text),
{
    let n = Node::Branch(k, c);
    assert(n->Branch_1 == c);
    assert(forall|i: int| 0 <= i < c.len() ==> calm(#[trigger] c[i])) by {
        reveal_with_fuel(calm, 2);
    }
}

/// A part of a text without `[[[` holds no `[[[`.
pub proof fn lemma_part_has_no_opener(s: Seq<char>, from: int, to: int)
    requires
        !has_comment_opener(s),
        0 <= from <= to <= s.len(),
    ensures
        !has_comment_opener(s.subrange(from, to)),
{
    let part = s.subrange(from, to);
    if has_comment_opener(part) {
        let i = choose|i: int| run_of(part, i, '[', 3);
        assert(part[i] == s[from + i]);
        assert(part[i + 1] == s[from + i + 1]);
        assert(part[i + 2] == s[from + i + 2]);
        assert(run_of(s, from + i, '[', 3));
    }
}

proof fn lemma_after_calm(head: Seq<Node>, used: nat, rest: Scan)
    requires
        all_calm(head),
        rest matches Scan::Level { nodes, .. } && all_calm(nodes),
    ensures
        after(head, used, rest) matches Scan::Level { nodes, .. } && all_calm(nodes),
{
}

/// A text without `[[[` scans without failure, and every quoted span of the
/// level it gives has a raw text without `[[[`.
pub proof fn lemma_scan_calm(s: Seq<char>, pos: int, ending: Option<Delim>)
    requires
        !has_comment_opener(s),
        0 <= pos,
    ensures
        scan_level(s, pos, ending) matches Scan::Level { nodes, .. } && all_calm(nodes),
    decreases left(s, pos),
{
    if pos >= s.len() {
        lemma_scan_end(s, pos, ending);
    } else {
        lemma_next_interesting(s, pos, ending);
        match next_interesting(s, pos, ending) {
            None => {
                lemma_scan_text(s, pos, ending);
            },
            Some(k) => {
                let c = pos + k;
                let head = Node::Text(s.subrange(pos, c));
                assert(!run_of(s, c, '[', 3));
                if s[c] == '`' {
                    lemma_scan_code(s, pos, ending, c);
                    let n = tick_run(s, c);
                    lemma_find_run(s, c + n, '`', n);
                    match find_run(s, c + n, '`', n) {
                        Some(j) => {
                            lemma_scan_calm(s, c + n + j + n, ending);
                            let content = s.subrange(c + n, c + n + j);
                            lemma_calm_intro(Kind::CodeQuoted, seq![Node::NoBrText(content)]);
                            lemma_after_calm(
                                seq![head, code_block(content)],
                                (c - pos + n + j + n) as nat,
                                scan_level(s, c + n + j + n, ending),
                            );
                        },
                        None => {
                            lemma_scan_calm(s, c + n, ending);
                            lemma_after_calm(
                                seq![head, Node::Text(ticks(n))],
                                (c - pos + n) as nat,
                                scan_level(s, c + n, ending),
                            );
                        },
                    }
                } else {
                    match delim_at(s, c) {
                        None => {
                            lemma_scan_closer(s, pos, ending, c);
                        },
                        Some(d) => {
                            lemma_scan_region(s, pos, ending, c, d);
                            let start = c + d.opener().len();
                            lemma_scan_calm(s, start, Some(d));
                            match scan_level(s, start, Some(d)) {
                                Scan::Level { nodes: inner, consumed: m } => {
                                    if start + m < s.len() {
                                        lemma_scan_calm(s, start + m + 1, ending);
                                        let raw = s.subrange(c, start + m + 1);
                                        lemma_part_has_no_opener(s, c, start + m + 1);
                                        lemma_calm_intro(d.wrap(raw, inner)->Branch_0, inner);
                                        lemma_after_calm(
                                            seq![head, d.wrap(raw, inner)],
                                            (c - pos + d.opener().len() + m + 1) as nat,
                                            scan_level(s, start + m + 1, ending),
                                        );
                                    }
                                },
                                _ => {},
                            }
                        },
                    }
                }
            },
        }
    }
}

proof fn lemma_drop_empty_calm(c: Seq<Node>)
    requires
        all_calm(c),
    ensures
        all_calm(drop_empty(c)),
    decreases c.len(),
{
    if c.len() > 0 {
        assert(all_calm(c.drop_last())) by {
            assert forall|i: int| 0 <= i < c.drop_last().len() implies calm(
                #[trigger] c.drop_last()[i],
            ) by {
                assert(c.drop_last()[i] == c[i]);
            }
        }
        lemma_drop_empty_calm(c.drop_last());
        assert(calm(c[c.len() - 1]));
    }
}

/// Pruning keeps a tree calm.
pub proof fn lemma_pruned_calm(n: Node)
    requires
        calm(n),
    ensures
        calm(pruned(n)),
    decreases n,
{
    if let Node::Branch(k, c) = n {
        lemma_calm_elim(k, c);
        assert(all_calm(pruned_all(c))) by {
            assert forall|i: int| 0 <= i < pruned_all(c).len() implies calm(
                #[trigger] pruned_all(c)[i],
            ) by {
                assert(calm(c[i]));
                lemma_pruned_calm(c[i]);
            }
        }
        lemma_drop_empty_calm(pruned_all(c));
        lemma_calm_intro(k, drop_empty(pruned_all(c)));
    }
}

/// A raw text without `[[[` gives its tooltip text without failure.
pub proof fn lemma_tooltip_of_calm(raw: Seq<char>)
    requires
        !has_comment_opener(raw),
    ensures
        tooltip_of(raw) is Ok,
{
    let lead = leading(raw, crate::OPEN_QUOTE);
    lemma_leading_bound(raw, crate::OPEN_QUOTE);
    let opened = raw.skip(lead as int);
    lemma_trailing_bound(opened, crate::CLOSE_QUOTE);
    let t = unquoted(raw);
    assert(opened =~= raw.subrange(lead as int, raw.len() as int));
    lemma_part_has_no_opener(raw, lead as int, raw.len() as int);
    assert(t =~= opened.subrange(0, opened.len() - trailing(opened, crate::CLOSE_QUOTE)));
    lemma_part_has_no_opener(opened, 0, opened.len() - trailing(opened, crate::CLOSE_QUOTE));
    lemma_find_run(t, 0, '[', 3);
}

proof fn lemma_leading_bound(s: Seq<char>, ch: char)
    ensures
        leading(s, ch) <= s.len(),
    decreases s.len(),
{
    if s.len() > 0 && s[0] == ch {
        lemma_leading_bound(s.drop_first(), ch);
    }
}

proof fn lemma_trailing_bound(s: Seq<char>, ch: char)
    ensures
        trailing(s, ch) <= s.len(),
    decreases s.len(),
{
    if s.len() > 0 && s.last() == ch {
        lemma_trailing_bound(s.drop_last(), ch);
    }
}

proof fn lemma_pull_child_calm(n: Node)
    requires
        calm(n),
    ensures
        pull_child(n) is Ok,
{
    if let Some(raw) = tip_source(n) {
        let c = n->Branch_1;
        lemma_calm_elim(n->Branch_0, c);
        assert(calm(c[c.len() - 1]));
        lemma_calm_elim(c.last()->Branch_0, c.last()->Branch_1);
        lemma_tooltip_of_calm(raw);
    }
}

proof fn lemma_level_calm(c: Seq<Node>, i: int)
    requires
        all_calm(c),
        0 <= i,
    ensures
        level_error(c, i) is None,
    decreases c.len() - i,
{
    if i < c.len() {
        assert(calm(c[i]));
        lemma_pull_child_calm(c[i]);
        lemma_level_calm(c, i + 1);
    }
}

/// The tooltips are pulled out of a calm tree without failure.
pub proof fn lemma_pulled_calm(n: Node)
    requires
        calm(n),
    ensures
        pulled(n) is Ok,
    decreases n, 0nat,
{
    if let Node::Branch(k, c) = n {
        lemma_calm_elim(k, c);
        lemma_level_calm(c, 0);
        lemma_below_calm(c, 0);
    }
}

proof fn lemma_below_calm(c: Seq<Node>, i: int)
    requires
        all_calm(c),
        0 <= i,
    ensures
        pulled_below(c, i) is Ok,
    decreases c, c.len() - i,
{
    if i < c.len() {
        assert(calm(c[i]));
        if url_tooltip_shape(c[i]) {
            lemma_pull_child_calm(c[i]);
        } else {
            lemma_pulled_calm(c[i]);
        }
        lemma_below_calm(c, i + 1);
    }
}

/// A document in which `[[[` does not occur compiles. Put the other way
/// round, a compilation fails only on a document that holds `[[[`.
pub proof fn lemma_compiles_without_comment_opener(s: Seq<char>)
    requires
        !has_comment_opener(s),
    ensures
        scanned(s) is Ok,
        parsed(s) is Ok,
        compiled(s) is Ok,
{
    lemma_scan_calm(s, 0, None);
    let nodes = scan_level(s, 0, None)->nodes;
    lemma_calm_intro(Kind::Root, nodes);
    lemma_pruned_calm(scanned(s)->Ok_0);
    lemma_pulled_calm(pruned(scanned(s)->Ok_0));
}

/// True if the scan of a level either fails at position `p` or ends before it.
pub open spec fn stops_before(scan: Scan, pos: int, p: int) -> bool {
    match scan {
        Scan::Unclosed { at } => at == p,
        Scan::Level { consumed, .. } => pos + consumed < p,
    }
}

proof fn lemma_after_stops_before(head: Seq<Node>, used: nat, rest: Scan, pos: int, p: int)
    requires
        stops_before(rest, pos + used, p),
    ensures
        stops_before(after(head, used, rest), pos, p),
{
}

/// Where the first `[[[` of a text stands at `p`, no backtick stands before
/// it and the comment that it opens is never closed, the scan of any level
/// that starts at or before `p` fails at `p`, or ends before `p`.
pub proof fn lemma_scan_meets_comment(s: Seq<char>, pos: int, ending: Option<Delim>, p: int)
    requires
        0 <= pos <= p,
        run_of(s, p, '[', 3),
        forall|i: int| 0 <= i < p ==> !run_of(s, i, '[', 3),
        forall|i: int| 0 <= i < p ==> s[i] != '`',
        comment_len(s, p + 3, 3) is None,
    ensures
        stops_before(scan_level(s, pos, ending), pos, p),
    decreases left(s, pos),
{
    lemma_next_interesting(s, pos, ending);
    assert(interesting_at(s, p, ending));
    match next_interesting(s, pos, ending) {
        None => {},
        Some(k) => {
            let c = pos + k;
            let head = Node::Text(s.subrange(pos, c));
            if c == p {
                lemma_scan_comment(s, pos, ending, c);
            } else {
                assert(c < p);
                assert(!run_of(s, c, '[', 3));
                assert(s[c] != '`');
                match delim_at(s, c) {
                    None => {
                        lemma_scan_closer(s, pos, ending, c);
                    },
                    Some(d) => {
                        lemma_scan_region(s, pos, ending, c, d);
                        let start = c + d.opener().len();
                        assert(start <= p);
                        lemma_scan_meets_comment(s, start, Some(d), p);
                        match scan_level(s, start, Some(d)) {
                            Scan::Level { nodes: inner, consumed: m } => {
                                lemma_scan_meets_comment(s, start + m + 1, ending, p);
                                lemma_after_stops_before(
                                    seq![head, d.wrap(s.subrange(c, start + m + 1), inner)],
                                    (c - pos + d.opener().len() + m + 1) as nat,
                                    scan_level(s, start + m + 1, ending),
                                    pos,
                                    p,
                                );
                            },
                            _ => {},
                        }
                    },
                }
            }
        },
    }
}

/// An unclosed comment is fatal: where the first `[[[` of a document stands
/// at `p`, outside any code region since no backtick stands before it, and
/// the comment that it opens is never closed, the compilation fails and
/// reports the byte offset of `p`.
pub proof fn lemma_unclosed_comment_fails(s: Seq<char>, p: int)
    requires
        run_of(s, p, '[', 3),
        forall|i: int| 0 <= i < p ==> !run_of(s, i, '[', 3),
        forall|i: int| 0 <= i < p ==> s[i] != '`',
        comment_len(s, p + 3, 3) is None,
    ensures
        scanned(s) == Err::<Node, int>(p),
        parsed(s) == Err::<Node, int>(byte_len(s.take(p)) as int),
        compiled(s) == Err::<Seq<char>, int>(byte_len(s.take(p)) as int),
{
    lemma_scan_meets_comment(s, 0, None, p);
    lemma_next_interesting(s, 0, None);
    match scan_level(s, 0, None) {
        Scan::Level { nodes, consumed } => {
            lemma_top_level_runs_out(s, 0);
        },
        _ => {},
    }
}

/// The scan of the outermost level ends only at the end of the text.
pub proof fn lemma_top_level_runs_out(s: Seq<char>, pos: int)
    requires
        0 <= pos <= s.len(),
    ensures
        scan_level(s, pos, None) matches Scan::Level { consumed, .. } ==> pos + consumed
            == s.len(),
    decreases left(s, pos),
{
    if pos >= s.len() {
        lemma_scan_end(s, pos, None);
    } else {
        lemma_next_interesting(s, pos, None);
        match next_interesting(s, pos, None) {
            None => {
                lemma_scan_text(s, pos, None);
            },
            Some(k) => {
                let c = pos + k;
                if run_of(s, c, '[', 3) {
                    lemma_scan_comment(s, pos, None, c);
                    match comment_len(s, c + 3, 3) {
                        Some(n) => {
                            lemma_comment_len_bound(s, c + 3, 3);
                            lemma_top_level_runs_out(s, c + 3 + n);
                        },
                        None => {},
                    }
                } else if s[c] == '`' {
                    lemma_scan_code(s, pos, None, c);
                    let n = tick_run(s, c);
                    lemma_find_run(s, c + n, '`', n);
                    match find_run(s, c + n, '`', n) {
                        Some(j) => {
                            lemma_top_level_runs_out(s, c + n + j + n);
                        },
                        None => {
                            lemma_top_level_runs_out(s, c + n);
                        },
                    }
                } else {
                    match delim_at(s, c) {
                        None => {},
                        Some(d) => {
                            lemma_scan_region(s, pos, None, c, d);
                            let start = c + d.opener().len();
                            match scan_level(s, start, Some(d)) {
                                Scan::Level { nodes: inner, consumed: m } => {
                                    if start + m < s.len() {
                                        lemma_top_level_runs_out(s, start + m + 1);
                                    }
                                },
                                _ => {},
                            }
                        },
                    }
                }
            },
        }
    }
}

/// A comment that closes does so within the text.
pub proof fn lemma_comment_len_bound(s: Seq<char>, from: int, depth: nat)
    requires
        0 <= from <= s.len(),
    ensures
        comment_len(s, from, depth) matches Some(n) ==> from + n <= s.len(),
    decreases s.len() - from,
{
    if depth != 0 && from < s.len() {
        let owed: nat = if s[from] == '[' {
            depth + 1
        } else if s[from] == ']' {
            (depth - 1) as nat
        } else {
            depth
        };
        lemma_comment_len_bound(s, from + 1, owed);
    }
}

proof fn lemma_last_mark_at(s: Seq<char>, upto: int, h: int)
    requires
        0 <= h < upto,
        mark_at(s, h),
        forall|i: int| h < i < upto ==> !mark_at(s, i),
    ensures
        last_mark(s, upto) == Some(h),
    decreases upto,
{
    if upto - 1 > h {
        lemma_last_mark_at(s, upto - 1, h);
    }
}

/// Text that ends in `H(`, a number `n` and `)` turns the quoted span after
/// it into a heading of level `3 - n` and loses the shorthand, where that
/// level lies from 1 to 6. Where it does not, the text and the span stay as
/// they are.
pub proof fn lemma_heading_shorthand(
    base: Seq<char>,
    d: Seq<char>,
    raw: Seq<char>,
    inner: Seq<Node>,
)
    requires
        signed_decimal(d) is Some,
    ensures
        ({
            let n = signed_decimal(d)->Some_0;
            let pre = base + seq!['H', '('] + d + seq![')'];
            let quote = Node::Branch(Kind::Quoted { original_text: raw }, inner);
            quote_pair(Node::Text(pre), quote) == if 1 <= 3 - n <= 6 {
                Some((Node::Text(base), Node::Branch(Kind::Header { level: (3 - n) as i32 }, inner)))
            } else {
                None
            }
        }),
{
    let pre = base + seq!['H', '('] + d + seq![')'];
    let h = base.len() as int;
    let digits = unsigned_part(d);
    assert(pre[h] == 'H');
    assert(pre[h + 1] == '(');
    assert(pre[pre.len() - 1] == ')');
    assert forall|i: int| h < i < pre.len() - 1 implies !mark_at(pre, i) by {
        if i >= h + 2 {
            let j = i - (h + 2);
            assert(pre[i] == d[j]);
            if d[0] == '-' || d[0] == '+' {
                if j > 0 {
                    assert(d[j] == digits[j - 1]);
                    assert(is_digit(digits[j - 1]));
                }
            } else {
                assert(is_digit(digits[j]));
            }
        }
    }
    lemma_last_mark_at(pre, pre.len() - 1, h);
    assert(pre.subrange(h + 2, pre.len() - 1) =~= d);
    assert(pre.take(h) =~= base);
}

/// A quoted span after text that ends in no shorthand stays a quoted span,
/// and a quoted span renders as its content between the quote marks.
pub proof fn lemma_quote_kept(done: Seq<Node>, pre: Seq<char>, raw: Seq<char>, inner: Seq<Node>)
    requires
        shorthand_of(pre) is None,
    ensures
        ({
            let quote = Node::Branch(Kind::Quoted { original_text: raw }, inner);
            &&& quote_step(done.push(Node::Text(pre)), quote) == done.push(Node::Text(pre)).push(
                quote,
            )
            &&& html(quote) == seq![crate::OPEN_QUOTE] + html_all(inner) + seq![
                crate::CLOSE_QUOTE,
            ]
        }),
{
}

/// True of a text at which the scanner never stops: it holds no opening quote
/// mark, no bracket, no brace and no backtick, and no `>` before a space.
pub open spec fn is_plain(s: Seq<char>) -> bool {
    forall|i: int| 0 <= i < s.len() ==> !interesting_at(s, i, None)
}

/// A document at which the scanner never stops compiles to its own text,
/// escaped and with its line breaks expanded.
pub proof fn lemma_plain_text_is_escaped(s: Seq<char>)
    requires
        s.len() > 0,
        is_plain(s),
    ensures
        compiled(s) == Ok::<Seq<char>, int>(text_html(s)),
{
    let text = Node::Text(s);
    let c = seq![text];
    let root = Node::Branch(Kind::Root, c);
    lemma_next_interesting_is_none(s, 0, None);
    lemma_scan_text(s, 0, None);
    assert(s.subrange(0, s.len() as int) =~= s);
    assert(scanned(s) == Ok::<Node, int>(root));
    assert(c.drop_last() =~= Seq::<Node>::empty());
    assert(pruned(root) == root) by {
        assert(pruned_all(c) =~= c);
        reveal_with_fuel(drop_empty, 2);
        assert(drop_empty(c) =~= c);
    }
    assert(pulled(root) == Ok::<Node, int>(root)) by {
        reveal_with_fuel(level_error, 2);
        reveal_with_fuel(pulled_below, 2);
        assert(pulled_below(c, 0)->Ok_0 =~= c);
    }
    assert(quoted(root) == root) by {
        assert(quoted_all(c) =~= c);
        reveal_with_fuel(quotes_level, 2);
        assert(quotes_level(c) =~= c);
    }
    assert(spoiled(root) == root) by {
        assert(spoiled_all(c) =~= c);
    }
    assert(bracketed(root) == root) by {
        assert(bracketed_all(c) =~= c);
        reveal_with_fuel(links_level, 2);
        assert(links_level(c) =~= c);
    }
    assert(html(root) == text_html(s)) by {
        assert(html(text) == text_html(s));
        assert(html_all(c) =~= html(text)) by {
            reveal_with_fuel(html_all, 2);
        }
        assert(html(root) =~= text_html(s));
    }
}

/// The heading rule holds of every node of every tree: where text that ends
/// in `H(`, a number `n` and `)` stands directly before a quoted span among
/// the children of a node, the pass turns the two into the text without the
/// shorthand and a heading of level `3 - n` around the processed content of
/// the span, if that level lies from 1 to 6. If it does not, the text stays
/// and the span stays a quoted span.
pub proof fn lemma_heading_rule_everywhere(
    k: Kind,
    c: Seq<Node>,
    i: int,
    base: Seq<char>,
    d: Seq<char>,
)
    requires
        0 <= i,
        i + 1 < c.len(),
        c[i] == Node::Text(base + seq!['H', '('] + d + seq![')']),
        c[i + 1] matches Node::Branch(Kind::Quoted { .. }, _),
        signed_decimal(d) is Some,
    ensures
        ({
            let n = signed_decimal(d)->Some_0;
            let after = quoted(Node::Branch(k, c))->Branch_1;
            let span = quoted(c[i + 1]);
            &&& after.len() == c.len()
            &&& span matches Node::Branch(Kind::Quoted { .. }, _)
            &&& if 1 <= 3 - n <= 6 {
                &&& after[i] == Node::Text(base)
                &&& after[i + 1] == Node::Branch(
                    Kind::Header { level: (3 - n) as i32 },
                    span->Branch_1,
                )
            } else {
                &&& after[i] == c[i]
                &&& after[i + 1] == span
            }
        }),
{
    let below = quoted_all(c);
    let span = quoted(c[i + 1]);
    assert(below[i] == c[i]);
    assert(below[i + 1] == span);
    lemma_quotes_level_pointwise(below);
    let raw = span->Branch_0->original_text;
    lemma_heading_shorthand(base, d, raw, span->Branch_1);
    assert(quotes_level(below)[i] == quoted_at(below, i));
    assert(quotes_level(below)[i + 1] == quoted_at(below, i + 1));
}

/// True if `w` holds no angle bracket.
pub open spec fn has_no_angle(w: Seq<char>) -> bool {
    forall|i: int| 0 <= i < w.len() ==> w[i] != '<' && w[i] != '>'
}

/// True if `s` holds no newline.
pub open spec fn has_no_newline(s: Seq<char>) -> bool {
    forall|i: int| 0 <= i < s.len() ==> s[i] != '\n'
}

/// A text node without a newline renders as its text, escaped: what is
/// written holds no angle bracket, every ampersand in it starts a character
/// reference, and turning the references back gives the text. Text for a code
/// region renders so with or without newlines.
pub proof fn lemma_text_renders_inert(s: Seq<char>)
    ensures
        html(Node::NoBrText(s)) == escaped(s, false),
        has_no_newline(s) ==> html(Node::Text(s)) == escaped(s, false) && html(Node::CowText(s))
            == escaped(s, false),
        forall|i: int|
            0 <= i < escaped(s, false).len() ==> inert_at(escaped(s, false), i, false),
        has_no_angle(escaped(s, false)),
        unescaped(escaped(s, false)) == s,
{
    lemma_escaped_is_inert(s, false);
    lemma_unescaped_escaped(s, false);
    if has_no_newline(s) {
        lemma_no_newline_no_break(s);
    }
    assert forall|i: int| 0 <= i < escaped(s, false).len() implies escaped(s, false)[i] != '<'
        && escaped(s, false)[i] != '>' by {
        assert(inert_at(escaped(s, false), i, false));
    }
}

/// True of a tree that names no markup of its own: its text holds no newline,
/// and its inner nodes are the root, quoted spans, brackets and braces.
pub open spec fn literal(n: Node) -> bool
    decreases n,
{
    match n {
        Node::Text(s) => has_no_newline(s),
        Node::CowText(s) => has_no_newline(s),
        Node::NoBrText(_) => true,
        Node::TooltipText(_) => true,
        Node::Branch(k, c) => {
            &&& k is Root || k is Quoted || k is Bracketed || k is CurlyBraced
            &&& forall|i: int| 0 <= i < c.len() ==> literal(#[trigger] c[i])
        },
    }
}

proof fn lemma_literal_all(c: Seq<Node>)
    requires
        forall|i: int| 0 <= i < c.len() ==> literal(#[trigger] c[i]),
    ensures
        has_no_angle(html_all(c)),
    decreases c, 0nat,
{
    if c.len() > 0 {
        let b = c.drop_last();
        assert forall|i: int| 0 <= i < b.len() implies literal(#[trigger] b[i]) by {
            assert(b[i] == c[i]);
        }
        lemma_literal_all(b);
        assert(literal(c[c.len() - 1]));
        lemma_literal_tree_has_no_markup(c.last());
        let x = html_all(b);
        let y = html(c.last());
        assert forall|i: int| 0 <= i < (x + y).len() implies (x + y)[i] != '<' && (x + y)[i]
            != '>' by {
            if i < x.len() {
                assert((x + y)[i] == x[i]);
            } else {
                assert((x + y)[i] == y[i - x.len()]);
            }
        }
    }
}

/// No text brings markup into the page: a tree that names no markup of its
/// own renders without an angle bracket, whatever its text holds.
pub proof fn lemma_literal_tree_has_no_markup(n: Node)
    requires
        literal(n),
    ensures
        has_no_angle(html(n)),
    decreases n, 1nat,
{
    match n {
        Node::Text(s) => {
            lemma_text_renders_inert(s);
        },
        Node::CowText(s) => {
            lemma_text_renders_inert(s);
        },
        Node::NoBrText(s) => {
            lemma_text_renders_inert(s);
        },
        Node::TooltipText(_) => {},
        Node::Branch(k, c) => {
            assert(n->Branch_1 == c);
            assert(forall|i: int| 0 <= i < c.len() ==> literal(#[trigger] c[i])) by {
                reveal_with_fuel(literal, 2);
            }
            lemma_literal_all(c);
            let a = crate::print::opening(k);
            let m = html_all(c);
            let z = crate::print::closing(k);
            let w = a + m + z;
            assert(a.len() <= 1 && z.len() <= 1);
            assert forall|i: int| 0 <= i < w.len() implies w[i] != '<' && w[i] != '>' by {
                if i < a.len() {
                    assert(w[i] == a[i]);
                } else if i < a.len() + m.len() {
                    assert(w[i] == m[i - a.len()]);
                } else {
                    assert(w[i] == z[i - a.len() - m.len()]);
                }
            }
        },
    }
}

} // verus!
