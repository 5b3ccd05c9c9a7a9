//! The third pass: formatting shorthands and headings.
//!
//! A quoted span that directly follows text ending in a shorthand token is
//! wrapped in the markup that the token names, and the token is taken off the
//! text.
use crate::chars::chars_of;
use crate::tree::{lemma_branch_view, lemma_views, lemma_views_push, take_all, views, Kind, Node};
use crate::Ast;
use vstd::prelude::*;
use vstd::string::*;

verus! {

/// True if `s` ends with the character `a`.
pub open spec fn ends_with1(s: Seq<char>, a: char) -> bool {
    s.len() >= 1 && s[s.len() - 1] == a
}

/// True if `s` ends with the characters `a`, `b`.
pub open spec fn ends_with2(s: Seq<char>, a: char, b: char) -> bool {
    s.len() >= 2 && s[s.len() - 2] == a && s[s.len() - 1] == b
}

/// The plain shorthand that `pre` ends with: how many characters of `pre`
/// stay, and the wrapper that the token names. The first token of the list
/// that matches wins.
pub open spec fn plain_shorthand(pre: Seq<char>) -> Option<(int, Kind)> {
    if ends_with1(pre, '*') {
        Some((pre.len() - 1, Kind::ProcessedPrefixSuffix { prefix: "<b>"@, suffix: "</b>"@ }))
    } else if ends_with1(pre, '_') {
        Some((pre.len() - 1, Kind::ProcessedPrefixSuffix { prefix: "<u>"@, suffix: "</u>"@ }))
    } else if ends_with1(pre, '-') {
        Some((pre.len() - 1, Kind::ProcessedPrefixSuffix { prefix: "<s>"@, suffix: "</s>"@ }))
    } else if ends_with1(pre, '~') {
        Some((pre.len() - 1, Kind::ProcessedPrefixSuffix { prefix: "<i>"@, suffix: "</i>"@ }))
    } else if ends_with1(pre, '>') {
        Some(
            (
                pre.len() - 1,
                Kind::ProcessedPrefixSuffix {
                    prefix: "<blockquote>"@,
                    suffix: "</blockquote>"@,
                },
            ),
        )
    } else if ends_with1(pre, 'H') {
        Some((pre.len() - 1, Kind::ProcessedPrefixSuffix { prefix: "<h3>"@, suffix: "</h3>"@ }))
    } else if ends_with2(pre, '/', '\\') {
        Some(
            (pre.len() - 2, Kind::ProcessedPrefixSuffix { prefix: "<sup>"@, suffix: "</sup>"@ }),
        )
    } else if ends_with2(pre, '\\', '/') {
        Some(
            (pre.len() - 2, Kind::ProcessedPrefixSuffix { prefix: "<sub>"@, suffix: "</sub>"@ }),
        )
    } else {
        None
    }
}

/// True if `H(` stands at position `i` of `s`.
pub open spec fn mark_at(s: Seq<char>, i: int) -> bool {
    0 <= i && i + 1 < s.len() && s[i] == 'H' && s[i + 1] == '('
}

/// The last position before `upto` at which `H(` stands.
pub open spec fn last_mark(s: Seq<char>, upto: int) -> Option<int>
    decreases upto,
{
    if upto <= 0 {
        None
    } else if mark_at(s, upto - 1) {
        Some(upto - 1)
    } else {
        last_mark(s, upto - 1)
    }
}

/// True if `c` is a decimal digit.
pub open spec fn is_digit(c: char) -> bool {
    0x30 <= c as u32 <= 0x39
}

/// The number that the decimal digits `s` write.
pub open spec fn digits_value(s: Seq<char>) -> int
    decreases s.len(),
{
    if s.len() == 0 {
        0
    } else {
        digits_value(s.drop_last()) * 10 + (s.last() as u32 - 0x30)
    }
}

/// True if every character of `s` is a decimal digit.
pub open spec fn all_digits(s: Seq<char>) -> bool {
    forall|i: int| 0 <= i < s.len() ==> is_digit(#[trigger] s[i])
}

/// `d` without its sign, if it starts with one.
pub open spec fn unsigned_part(d: Seq<char>) -> Seq<char> {
    if d.len() > 0 && (d[0] == '-' || d[0] == '+') {
        d.skip(1)
    } else {
        d
    }
}

/// The number that `d` writes: an optional sign, then one or more decimal
/// digits.
pub open spec fn signed_decimal(d: Seq<char>) -> Option<int> {
    let digits = unsigned_part(d);
    if digits.len() == 0 || !all_digits(digits) {
        None
    } else if d[0] == '-' {
        Some(-digits_value(digits))
    } else {
        Some(digits_value(digits))
    }
}

/// The heading level that the number written in `d` asks for: 3 less the
/// number, where that lies from 1 to 6.
pub open spec fn heading_level(d: Seq<char>) -> Option<i32> {
    match signed_decimal(d) {
        Some(n) => if 1 <= 3 - n <= 6 {
            Some((3 - n) as i32)
        } else {
            None
        },
        None => None,
    }
}

/// The heading shorthand that `pre` ends with: `H(`, a number and `)`, where
/// the number asks for a level from 1 to 6.
pub open spec fn heading_shorthand(pre: Seq<char>) -> Option<(int, Kind)> {
    if ends_with1(pre, ')') {
        match last_mark(pre, pre.len() - 1) {
            Some(h) => match heading_level(pre.subrange(h + 2, pre.len() - 1)) {
                Some(level) => Some((h, Kind::Header { level })),
                None => None,
            },
            None => None,
        }
    } else {
        None
    }
}

/// The shorthand that `pre` ends with: how many characters of `pre` stay, and
/// what the quoted span after it becomes. A plain shorthand goes before a
/// heading.
pub open spec fn shorthand_of(pre: Seq<char>) -> Option<(int, Kind)> {
    match plain_shorthand(pre) {
        Some(found) => Some(found),
        None => heading_shorthand(pre),
    }
}

/// What the text `before` and the node `node` after it become, where `node`
/// is a quoted span and `before` ends in a shorthand: the text without the
/// shorthand, and the span in its wrapper.
pub open spec fn quote_pair(before: Node, node: Node) -> Option<(Node, Node)> {
    match (before, node) {
        (Node::Text(pre), Node::Branch(Kind::Quoted { .. }, inner)) => match shorthand_of(pre) {
            Some((keep, kind)) => Some((Node::Text(pre.take(keep)), Node::Branch(kind, inner))),
            None => None,
        },
        _ => None,
    }
}

/// `done`, followed by `node`: a quoted span after text that ends in a
/// shorthand is wrapped, and the text loses the shorthand.
pub open spec fn quote_step(done: Seq<Node>, node: Node) -> Seq<Node> {
    if done.len() == 0 {
        done.push(node)
    } else {
        match quote_pair(done.last(), node) {
            Some((text, wrapped)) => done.drop_last().push(text).push(wrapped),
            None => done.push(node),
        }
    }
}

/// The children `c` of one node with their shorthands resolved, from the
/// first to the last.
pub open spec fn quotes_level(c: Seq<Node>) -> Seq<Node>
    decreases c.len(),
{
    if c.len() == 0 {
        Seq::empty()
    } else {
        quote_step(quotes_level(c.drop_last()), c.last())
    }
}

/// `n` with the shorthands resolved at every depth, children before parents.
pub open spec fn quoted(n: Node) -> Node
    decreases n,
{
    match n {
        Node::Branch(k, c) => Node::Branch(k, quotes_level(quoted_all(c))),
        _ => n,
    }
}

/// Each tree of `c` with its shorthands resolved.
pub open spec fn quoted_all(c: Seq<Node>) -> Seq<Node>
    decreases c,
{
    Seq::new(
        c.len(),
        |i: int|
            if 0 <= i < c.len() {
                quoted(c[i])
            } else {
                Node::Text(Seq::empty())
            },
    )
}

/// What child `i` of the children `c` becomes when the shorthands of `c` are
/// resolved: text before a quoted span loses its shorthand, a quoted span
/// after text with a shorthand is wrapped, and any other child stays.
pub open spec fn quoted_at(c: Seq<Node>, i: int) -> Node {
    if i + 1 < c.len() && quote_pair(c[i], c[i + 1]) is Some {
        quote_pair(c[i], c[i + 1])->Some_0.0
    } else if i > 0 && quote_pair(c[i - 1], c[i]) is Some {
        quote_pair(c[i - 1], c[i])->Some_0.1
    } else {
        c[i]
    }
}

/// Resolving the shorthands of the children of a node keeps their number and
/// gives, at every position, what `quoted_at` says.
pub proof fn lemma_quotes_level_pointwise(c: Seq<Node>)
    ensures
        quotes_level(c).len() == c.len(),
        forall|i: int| 0 <= i < c.len() ==> #[trigger] quotes_level(c)[i] == quoted_at(c, i),
    decreases c.len(),
{
    if c.len() > 0 {
        let n = c.len() as int;
        let b = c.drop_last();
        let done = quotes_level(b);
        let node = c.last();
        let r = quotes_level(c);
        lemma_quotes_level_pointwise(b);
        if n == 1 {
            assert(r =~= seq![node]);
        } else {
            assert(done.last() == quoted_at(b, n - 2));
            assert(b[n - 2] == c[n - 2]);
            if n > 2 {
                assert(b[n - 3] == c[n - 3]);
            }
            assert(quote_pair(done.last(), node) == quote_pair(c[n - 2], node));
            assert forall|i: int| 0 <= i < n implies #[trigger] r[i] == quoted_at(c, i) by {
                if i < n - 2 {
                    assert(r[i] == done[i]);
                    assert(done[i] == quoted_at(b, i));
                    assert(b[i] == c[i]);
                    assert(b[i + 1] == c[i + 1]);
                    if i > 0 {
                        assert(b[i - 1] == c[i - 1]);
                    }
                }
            }
        }
    }
}

/// True of a tree in which every heading has a level from 1 to 6.
pub open spec fn headings_in_range(n: Node) -> bool
    decreases n,
{
    match n {
        Node::Branch(k, c) => {
            &&& k matches Kind::Header { level } ==> 1 <= level <= 6
            &&& forall|i: int| 0 <= i < c.len() ==> headings_in_range(#[trigger] c[i])
        },
        _ => true,
    }
}

proof fn lemma_headings_branch(k: Kind, c: Seq<Node>)
    ensures
        headings_in_range(Node::Branch(k, c)) <==> {
            &&& k matches Kind::Header { level } ==> 1 <= level <= 6
            &&& forall|i: int| 0 <= i < c.len() ==> headings_in_range(#[trigger] c[i])
        },
{
    let n = Node::Branch(k, c);
    assert(n->Branch_1 == c);
    reveal_with_fuel(headings_in_range, 2);
}

/// The headings that the shorthands make have a level from 1 to 6: a tree
/// whose headings are in range keeps them in range.
pub proof fn lemma_quoted_headings_in_range(n: Node)
    requires
        headings_in_range(n),
    ensures
        headings_in_range(quoted(n)),
    decreases n,
{
    if let Node::Branch(k, c) = n {
        lemma_headings_branch(k, c);
        let below = quoted_all(c);
        let after = quotes_level(below);
        lemma_quotes_level_pointwise(below);
        assert forall|i: int| 0 <= i < after.len() implies headings_in_range(
            #[trigger] after[i],
        ) by {
            assert(after[i] == quoted_at(below, i));
            assert(headings_in_range(c[i]));
            lemma_quoted_headings_in_range(c[i]);
            assert(below[i] == quoted(c[i]));
            if i + 1 < below.len() && quote_pair(below[i], below[i + 1]) is Some {
            } else if i > 0 && quote_pair(below[i - 1], below[i]) is Some {
                let inner = below[i]->Branch_1;
                lemma_headings_branch(below[i]->Branch_0, inner);
                lemma_headings_branch(after[i]->Branch_0, inner);
            }
        }
        lemma_headings_branch(k, after);
    }
}

/// What a quoted span becomes under a shorthand.
#[derive(Clone, Copy)]
pub enum Wrap {
    /// Fixed markup before and after.
    Affix(&'static str, &'static str),
    /// A heading of the given level.
    Heading(i32),
}

impl Wrap {
    /// The kind of node that the span becomes.
    pub open spec fn kind(self) -> Kind {
        match self {
            Wrap::Affix(prefix, suffix) => Kind::ProcessedPrefixSuffix {
                prefix: prefix@,
                suffix: suffix@,
            },
            Wrap::Heading(level) => Kind::Header { level },
        }
    }

    fn apply<'a>(self, inner: Vec<Ast<'a>>) -> (r: Ast<'a>)
        ensures
            r@ == Node::Branch(self.kind(), views(inner@)),
    {
        let r = match self {
            Wrap::Affix(prefix, suffix) => Ast::ProcessedPrefixSuffix(prefix, inner, suffix),
            Wrap::Heading(level) => Ast::Header(level, inner),
        };
        proof {
            lemma_branch_view(r);
        }
        r
    }
}

fn find_plain(pre: &Vec<char>) -> (r: Option<(usize, Wrap)>)
    ensures
        match r {
            Some((keep, wrap)) => plain_shorthand(pre@) == Some((keep as int, wrap.kind()))
                && keep <= pre@.len(),
            None => plain_shorthand(pre@) is None,
        },
{
    let n = pre.len();
    if n == 0 {
        return None;
    }
    let last = pre[n - 1];
    if last == '*' {
        Some((n - 1, Wrap::Affix("<b>", "</b>")))
    } else if last == '_' {
        Some((n - 1, Wrap::Affix("<u>", "</u>")))
    } else if last == '-' {
        Some((n - 1, Wrap::Affix("<s>", "</s>")))
    } else if last == '~' {
        Some((n - 1, Wrap::Affix("<i>", "</i>")))
    } else if last == '>' {
        Some((n - 1, Wrap::Affix("<blockquote>", "</blockquote>")))
    } else if last == 'H' {
        Some((n - 1, Wrap::Affix("<h3>", "</h3>")))
    } else if n >= 2 && pre[n - 2] == '/' && last == '\\' {
        Some((n - 2, Wrap::Affix("<sup>", "</sup>")))
    } else if n >= 2 && pre[n - 2] == '\\' && last == '/' {
        Some((n - 2, Wrap::Affix("<sub>", "</sub>")))
    } else {
        None
    }
}

fn find_last_mark(s: &Vec<char>, upto: usize) -> (r: Option<usize>)
    requires
        upto < s@.len(),
    ensures
        match r {
            Some(h) => last_mark(s@, upto as int) == Some(h as int) && h < upto && mark_at(
                s@,
                h as int,
            ),
            None => last_mark(s@, upto as int) is None,
        },
{
    let mut i: usize = upto;
    while i > 0
        invariant
            i <= upto < s@.len(),
            last_mark(s@, upto as int) == last_mark(s@, i as int),
        decreases i,
    {
        if s[i - 1] == 'H' && s[i] == '(' {
            return Some(i - 1);
        }
        i -= 1;
    }
    None
}

/// The least of `v` and 10: enough to tell the numbers up to 3 from the rest.
pub open spec fn capped(v: int) -> int {
    if v < 10 {
        v
    } else {
        10
    }
}

/// The heading level that the characters of `s` from `from` up to `to` ask for.
fn heading_level_of(s: &Vec<char>, from: usize, to: usize) -> (r: Option<i32>)
    requires
        from <= to <= s@.len(),
    ensures
        r == heading_level(s@.subrange(from as int, to as int)),
{
    let ghost d = s@.subrange(from as int, to as int);
    if from == to {
        return None;
    }
    let negative = s[from] == '-';
    let signed = negative || s[from] == '+';
    let first = if signed {
        from + 1
    } else {
        from
    };
    let ghost digits = s@.subrange(first as int, to as int);
    proof {
        assert(d[0] == s@[from as int]);
        if signed {
            assert(d.skip(1) =~= digits);
        } else {
            assert(d =~= digits);
        }
    }
    if first == to {
        return None;
    }
    let mut acc: i32 = 0;
    let mut i: usize = first;
    proof {
        assert(digits.take(0) =~= Seq::<char>::empty());
    }
    while i < to
        invariant
            first <= i <= to <= s@.len(),
            from < to,
            d == s@.subrange(from as int, to as int),
            digits == unsigned_part(d),
            digits == s@.subrange(first as int, to as int),
            forall|j: int| 0 <= j < i - first ==> is_digit(#[trigger] digits[j]),
            digits_value(digits.take(i - first)) >= 0,
            acc == capped(digits_value(digits.take(i - first))),
        decreases to - i,
    {
        let c = s[i];
        let v = c as u32;
        if !(0x30 <= v && v <= 0x39) {
            proof {
                assert(0 <= i - first < digits.len());
                assert(digits[i - first] == c);
                assert(!is_digit(digits[i - first]));
                assert(!all_digits(digits));
            }
            return None;
        }
        let digit = (v - 0x30) as i32;
        proof {
            assert(digits[i - first] == c);
            assert(digits.take(i - first + 1).drop_last() =~= digits.take(i - first));
            assert(digits.take(i - first + 1).last() == c);
        }
        acc = acc * 10 + digit;
        if acc > 10 {
            acc = 10;
        }
        i += 1;
    }
    proof {
        assert(digits.take(to - first) =~= digits);
    }
    let level = if negative {
        3 + acc
    } else {
        3 - acc
    };
    if 1 <= level && level <= 6 {
        Some(level)
    } else {
        None
    }
}

fn find_heading(pre: &Vec<char>) -> (r: Option<(usize, Wrap)>)
    ensures
        match r {
            Some((keep, wrap)) => heading_shorthand(pre@) == Some((keep as int, wrap.kind()))
                && keep <= pre@.len(),
            None => heading_shorthand(pre@) is None,
        },
{
    let n = pre.len();
    if n == 0 || pre[n - 1] != ')' {
        return None;
    }
    match find_last_mark(pre, n - 1) {
        Some(h) => match heading_level_of(pre, h + 2, n - 1) {
            Some(level) => Some((h, Wrap::Heading(level))),
            None => None,
        },
        None => None,
    }
}

/// The shorthand that `pre` ends with, if any.
fn find_shorthand(pre: &str) -> (r: Option<(usize, Wrap)>)
    ensures
        match r {
            Some((keep, wrap)) => shorthand_of(pre@) == Some((keep as int, wrap.kind())) && keep
                <= pre@.len(),
            None => shorthand_of(pre@) is None,
        },
{
    let text = chars_of(pre);
    match find_plain(&text) {
        Some(found) => Some(found),
        None => find_heading(&text),
    }
}

fn last_text<'a>(done: &Vec<Ast<'a>>) -> (r: Option<&'a str>)
    ensures
        match r {
            Some(pre) => done@.len() > 0 && done@.last()@ == Node::Text(pre@),
            None => !(done@.len() > 0 && done@.last()@ is Text),
        },
{
    if done.len() == 0 {
        return None;
    }
    match &done[done.len() - 1] {
        Ast::Text(pre) => Some(*pre),
        _ => None,
    }
}

fn push_quote_step<'a>(done: &mut Vec<Ast<'a>>, node: Ast<'a>)
    ensures
        views(final(done)@) == quote_step(views(old(done)@), node@),
{
    proof {
        lemma_views(done@);
        lemma_views_push(done@, node);
        if node.children() is Some {
            lemma_branch_view(node);
        }
    }
    match node {
        Ast::Quoted { original_text, inner } => {
            let found = match last_text(done) {
                Some(pre) => match find_shorthand(pre) {
                    Some((keep, wrap)) => Some((pre, keep, wrap)),
                    None => None,
                },
                None => None,
            };
            match found {
                Some((pre, keep, wrap)) => {
                    let ghost before = done@;
                    done.pop();
                    let text = Ast::Text(pre.substring_char(0, keep));
                    let wrapped = wrap.apply(inner);
                    proof {
                        assert(pre@.subrange(0, keep as int) =~= pre@.take(keep as int));
                        lemma_views(done@);
                        assert(views(done@) =~= views(before).drop_last());
                        lemma_views_push(done@, text);
                        lemma_views_push(done@.push(text), wrapped);
                    }
                    done.push(text);
                    done.push(wrapped);
                },
                None => {
                    done.push(Ast::Quoted { original_text, inner });
                },
            }
        },
        other => {
            done.push(other);
        },
    }
}

/// Resolves the shorthands in the tree, children before parents. Every
/// heading that this makes has a level from 1 to 6.
pub fn process_ast_quotes(ast: &mut Ast<'_>)
    ensures
        final(ast)@ == quoted(old(ast)@),
        headings_in_range(old(ast)@) ==> headings_in_range(final(ast)@),
    decreases *old(ast),
{
    proof {
        if headings_in_range(old(ast)@) {
            lemma_quoted_headings_in_range(old(ast)@);
        }
    }
    proof {
        if old(ast).children() is Some {
            lemma_branch_view(*old(ast));
        }
    }
    match ast.children_mut() {
        Some(children) => {
            let ghost before = children@;
            let ghost goal = quoted_all(views(before));
            let taken = take_all(children);
            proof {
                lemma_views(before);
                assert(views(children@) =~= quotes_level(goal.take(0)));
            }
            for child in it: taken
                invariant
                    it.seq() == before,
                    goal == quoted_all(views(before)),
                    views(children@) == quotes_level(goal.take(it.index() as int)),
                    forall|j: int|
                        0 <= j < before.len() ==> decreases_to!(*old(ast) => #[trigger] before[j]),
            {
                let ghost i = it.index() as int;
                let mut child = child;
                process_ast_quotes(&mut child);
                proof {
                    lemma_views(before);
                    assert(goal.take(i + 1).drop_last() =~= goal.take(i));
                    assert(goal.take(i + 1).last() == child@);
                }
                push_quote_step(children, child);
            }
            proof {
                assert(goal.take(before.len() as int) =~= goal);
            }
        },
        None => {},
    }
    proof {
        if ast.children() is Some {
            lemma_branch_view(*ast);
        }
    }
}

} // verus!
