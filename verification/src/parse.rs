//! The scanner, from a document to its unprocessed syntax tree, and the
//! pipeline of passes that processes the tree.
use crate::chars::{byte_len, find_run, find_run_from, is_run, run_of, Source};
use crate::invariants::{
    lemma_bracketed_renderable, lemma_pruned_renderable, lemma_pulled_safe, lemma_quoted_safe,
    lemma_scanned_renderable, lemma_spoiled_safe,
};
use crate::link::{bracketed, process_brackets};
use crate::print::renderable;
use crate::prune::{pruned, remove_empty_text};
use crate::shorthand::{process_ast_quotes, quoted};
use crate::spoiler::{process_spoilers, spoiled};
use crate::tooltip::{pull_out_tooltip_text, pulled};
use crate::tree::{lemma_views_concat, lemma_views_push, views, Kind, Node};
use crate::{Ast, PqLiteError, CLOSE_QUOTE, OPEN_QUOTE};
use vstd::prelude::*;

verus! {

/// A pair of delimiters that bounds a nested region.
#[derive(Clone, Copy)]
pub enum Delim {
    /// Curly quotes.
    Quote,
    /// Square brackets.
    Bracket,
    /// Curly braces.
    Curly,
    /// From `> ` to the end of the line.
    Block,
}

impl Delim {
    /// The text that opens the region.
    pub open spec fn opener(self) -> Seq<char> {
        match self {
            Delim::Quote => seq![OPEN_QUOTE],
            Delim::Bracket => seq!['['],
            Delim::Curly => seq!['{'],
            Delim::Block => seq!['>', ' '],
        }
    }

    /// The character that closes the region.
    pub open spec fn closer(self) -> char {
        match self {
            Delim::Quote => CLOSE_QUOTE,
            Delim::Bracket => ']',
            Delim::Curly => '}',
            Delim::Block => '\n',
        }
    }

    /// The node that a closed region becomes: `raw` is the text of the region
    /// with its delimiters, `inner` what was scanned between them.
    pub open spec fn wrap(self, raw: Seq<char>, inner: Seq<Node>) -> Node {
        match self {
            Delim::Quote => Node::Branch(Kind::Quoted { original_text: raw }, inner),
            Delim::Bracket => Node::Branch(Kind::Bracketed, inner),
            Delim::Curly => Node::Branch(Kind::CurlyBraced, inner),
            Delim::Block => Node::Branch(Kind::BlockQuoted, inner),
        }
    }

    fn opener_len(self) -> (n: usize)
        ensures
            n == self.opener().len(),
            1 <= n <= 2,
    {
        match self {
            Delim::Block => 2,
            _ => 1,
        }
    }

    fn opener_str(self) -> (r: &'static str)
        ensures
            r@ == self.opener(),
    {
        proof {
            reveal_strlit("\u{2018}");
            reveal_strlit("[");
            reveal_strlit("{");
            reveal_strlit("> ");
        }
        let r = match self {
            Delim::Quote => "\u{2018}",
            Delim::Bracket => "[",
            Delim::Curly => "{",
            Delim::Block => "> ",
        };
        assert(r@ =~= self.opener());
        r
    }

    fn closer_char(self) -> (c: char)
        ensures
            c == self.closer(),
    {
        match self {
            Delim::Quote => CLOSE_QUOTE,
            Delim::Bracket => ']',
            Delim::Curly => '}',
            Delim::Block => '\n',
        }
    }
}

/// True if `c` closes the region that `ending` names.
pub open spec fn closes(ending: Option<Delim>, c: char) -> bool {
    ending matches Some(d) && d.closer() == c
}

/// The delimiter pair whose opener stands at position `i` of `s`, if any. A
/// `>` opens a block quote only where a space follows it.
pub open spec fn delim_at(s: Seq<char>, i: int) -> Option<Delim> {
    if s[i] == OPEN_QUOTE {
        Some(Delim::Quote)
    } else if s[i] == '[' {
        Some(Delim::Bracket)
    } else if s[i] == '{' {
        Some(Delim::Curly)
    } else if s[i] == '>' && i + 1 < s.len() && s[i + 1] == ' ' {
        Some(Delim::Block)
    } else {
        None
    }
}

/// True if the scanner stops at position `i`: an opener stands there, or the
/// closer of the region being scanned.
pub open spec fn interesting_at(s: Seq<char>, i: int, ending: Option<Delim>) -> bool {
    delim_at(s, i) is Some || s[i] == '`' || closes(ending, s[i])
}

/// How far after `from` the scanner next stops, if it does.
pub open spec fn next_interesting(s: Seq<char>, from: int, ending: Option<Delim>) -> Option<nat>
    decreases s.len() - from,
{
    if from < 0 || from >= s.len() {
        None
    } else if interesting_at(s, from, ending) {
        Some(0)
    } else {
        match next_interesting(s, from + 1, ending) {
            Some(k) => Some(k + 1),
            None => None,
        }
    }
}

/// `next_interesting` gives the first position at or after `from` where the
/// scanner stops.
pub proof fn lemma_next_interesting(s: Seq<char>, from: int, ending: Option<Delim>)
    requires
        0 <= from,
    ensures
        match next_interesting(s, from, ending) {
            Some(k) => {
                &&& from + k < s.len()
                &&& interesting_at(s, from + k, ending)
                &&& forall|j: int| from <= j < from + k ==> !interesting_at(s, j, ending)
            },
            None => forall|j: int| from <= j < s.len() ==> !interesting_at(s, j, ending),
        },
    decreases s.len() - from,
{
    if from < s.len() && !interesting_at(s, from, ending) {
        lemma_next_interesting(s, from + 1, ending);
    }
}

proof fn lemma_next_interesting_at(s: Seq<char>, from: int, ending: Option<Delim>, at: int)
    requires
        0 <= from <= at < s.len(),
        interesting_at(s, at, ending),
        forall|j: int| from <= j < at ==> !interesting_at(s, j, ending),
    ensures
        next_interesting(s, from, ending) == Some((at - from) as nat),
    decreases at - from,
{
    if from < at {
        lemma_next_interesting_at(s, from + 1, ending, at);
    }
}

/// Where the scanner stops nowhere from `from` on, it next stops not at all.
pub proof fn lemma_next_interesting_is_none(s: Seq<char>, from: int, ending: Option<Delim>)
    requires
        0 <= from,
        forall|j: int| from <= j < s.len() ==> !interesting_at(s, j, ending),
    ensures
        next_interesting(s, from, ending) is None,
    decreases s.len() - from,
{
    if from < s.len() {
        lemma_next_interesting_is_none(s, from + 1, ending);
    }
}

/// How many characters a comment takes from position `from` on, where `depth`
/// closing brackets are still owed: every `[` adds one to the debt and every
/// `]` pays one. `None` if the text ends with brackets still owed.
pub open spec fn comment_len(s: Seq<char>, from: int, depth: nat) -> Option<nat>
    decreases s.len() - from,
{
    if depth == 0 {
        Some(0)
    } else if from < 0 || from >= s.len() {
        None
    } else {
        let owed: nat = if s[from] == '[' {
            depth + 1
        } else if s[from] == ']' {
            (depth - 1) as nat
        } else {
            depth
        };
        match comment_len(s, from + 1, owed) {
            Some(n) => Some(n + 1),
            None => None,
        }
    }
}

/// How many backticks open a code region at position `c`: three, two or one.
pub open spec fn tick_run(s: Seq<char>, c: int) -> nat {
    if run_of(s, c, '`', 3) {
        3
    } else if run_of(s, c, '`', 2) {
        2
    } else {
        1
    }
}

/// A run of `n` backticks, `n` from 1 to 3.
pub open spec fn ticks(n: nat) -> Seq<char> {
    if n == 3 {
        seq!['`', '`', '`']
    } else if n == 2 {
        seq!['`', '`']
    } else {
        seq!['`']
    }
}

/// A code region with content `content`.
pub open spec fn code_block(content: Seq<char>) -> Node {
    Node::Branch(Kind::CodeQuoted, seq![Node::NoBrText(content)])
}

/// What scanning one nesting level gives.
pub enum Scan {
    /// The nodes of the level, and how many characters were passed.
    Level { nodes: Seq<Node>, consumed: nat },
    /// A comment opened at position `at` was never closed.
    Unclosed { at: int },
}

/// `rest`, after `head` was scanned over `used` characters before it.
pub open spec fn after(head: Seq<Node>, used: nat, rest: Scan) -> Scan {
    match rest {
        Scan::Level { nodes, consumed } => Scan::Level {
            nodes: head + nodes,
            consumed: used + consumed,
        },
        Scan::Unclosed { at } => Scan::Unclosed { at },
    }
}

/// How many characters of `s` lie at or after position `pos`.
pub open spec fn left(s: Seq<char>, pos: int) -> nat {
    if pos < s.len() {
        (s.len() - pos) as nat
    } else {
        0
    }
}

/// Scans `s` from position `pos` to the end of the nesting level: to the
/// closer of `ending`, which is not passed, or to the end of `s`.
///
/// The text up to the next stop is a text node. A comment is skipped. A code
/// region is taken whole, up to the next run of as many backticks; where none
/// follows, the backticks are text. Any other opener starts a nested level;
/// where that level ends with its closer, the region becomes a node, and where
/// it runs to the end of `s`, the opener is text and what was scanned after it
/// follows at this level.
#[verifier::opaque]
pub open spec fn scan_level(s: Seq<char>, pos: int, ending: Option<Delim>) -> Scan
    decreases left(s, pos),
{
    if pos < 0 || pos >= s.len() {
        Scan::Level { nodes: Seq::empty(), consumed: 0 }
    } else {
        match next_interesting(s, pos, ending) {
            None => Scan::Level {
                nodes: seq![Node::Text(s.subrange(pos, s.len() as int))],
                consumed: (s.len() - pos) as nat,
            },
            Some(k) => {
                let c = pos + k;
                let head = Node::Text(s.subrange(pos, c));
                if run_of(s, c, '[', 3) {
                    match comment_len(s, c + 3, 3) {
                        None => Scan::Unclosed { at: c },
                        Some(n) => after(seq![head], k + 3 + n, scan_level(s, c + 3 + n, ending)),
                    }
                } else if s[c] == '`' {
                    let n = tick_run(s, c);
                    match find_run(s, c + n, '`', n) {
                        Some(j) => after(
                            seq![head, code_block(s.subrange(c + n, c + n + j))],
                            k + n + j + n,
                            scan_level(s, c + n + j + n, ending),
                        ),
                        None => after(
                            seq![head, Node::Text(ticks(n))],
                            k + n,
                            scan_level(s, c + n, ending),
                        ),
                    }
                } else {
                    match delim_at(s, c) {
                        None => Scan::Level { nodes: seq![head], consumed: k },
                        Some(d) => {
                            let start = c + d.opener().len();
                            match scan_level(s, start, Some(d)) {
                                Scan::Unclosed { at } => Scan::Unclosed { at },
                                Scan::Level { nodes: inner, consumed: m } => {
                                    if start + m >= s.len() {
                                        Scan::Level {
                                            nodes: seq![head, Node::Text(d.opener())] + inner,
                                            consumed: (s.len() - pos) as nat,
                                        }
                                    } else {
                                        after(
                                            seq![
                                                head,
                                                d.wrap(s.subrange(c, start + m + 1), inner),
                                            ],
                                            k + d.opener().len() + m + 1,
                                            scan_level(s, start + m + 1, ending),
                                        )
                                    }
                                },
                            }
                        },
                    }
                }
            },
        }
    }
}

/// At the end of the text a level is empty.
pub proof fn lemma_scan_end(s: Seq<char>, pos: int, ending: Option<Delim>)
    requires
        pos >= s.len(),
    ensures
        scan_level(s, pos, ending) == (Scan::Level { nodes: Seq::empty(), consumed: 0 }),
{
    reveal(scan_level);
}

/// Where the scanner stops no more, the rest of the text is one text node.
pub proof fn lemma_scan_text(s: Seq<char>, pos: int, ending: Option<Delim>)
    requires
        0 <= pos < s.len(),
        next_interesting(s, pos, ending) is None,
    ensures
        scan_level(s, pos, ending) == (Scan::Level {
            nodes: seq![Node::Text(s.subrange(pos, s.len() as int))],
            consumed: (s.len() - pos) as nat,
        }),
{
    reveal(scan_level);
}

/// Where the scanner stops at a comment opener, the comment is skipped, or
/// the scan fails at the opener if the comment is never closed.
pub proof fn lemma_scan_comment(s: Seq<char>, pos: int, ending: Option<Delim>, c: int)
    requires
        0 <= pos <= c < s.len(),
        next_interesting(s, pos, ending) == Some((c - pos) as nat),
        run_of(s, c, '[', 3),
    ensures
        scan_level(s, pos, ending) == match comment_len(s, c + 3, 3) {
            None => Scan::Unclosed { at: c },
            Some(n) => after(
                seq![Node::Text(s.subrange(pos, c))],
                (c - pos + 3 + n) as nat,
                scan_level(s, c + 3 + n, ending),
            ),
        },
{
    reveal(scan_level);
}

/// Where the scanner stops at backticks, a code region is taken up to the
/// next run of as many backticks; where none follows, the backticks are text.
pub proof fn lemma_scan_code(s: Seq<char>, pos: int, ending: Option<Delim>, c: int)
    requires
        0 <= pos <= c < s.len(),
        next_interesting(s, pos, ending) == Some((c - pos) as nat),
        s[c] == '`',
    ensures
        scan_level(s, pos, ending) == ({
            let n = tick_run(s, c);
            let head = Node::Text(s.subrange(pos, c));
            match find_run(s, c + n, '`', n) {
                Some(j) => after(
                    seq![head, code_block(s.subrange(c + n, c + n + j))],
                    (c - pos + n + j + n) as nat,
                    scan_level(s, c + n + j + n, ending),
                ),
                None => after(
                    seq![head, Node::Text(ticks(n))],
                    (c - pos + n) as nat,
                    scan_level(s, c + n, ending),
                ),
            }
        }),
{
    reveal(scan_level);
}

/// Where the scanner stops at the closer of the level, the level ends there.
pub proof fn lemma_scan_closer(s: Seq<char>, pos: int, ending: Option<Delim>, c: int)
    requires
        0 <= pos <= c < s.len(),
        next_interesting(s, pos, ending) == Some((c - pos) as nat),
        s[c] != '`',
        delim_at(s, c) is None,
    ensures
        scan_level(s, pos, ending) == (Scan::Level {
            nodes: seq![Node::Text(s.subrange(pos, c))],
            consumed: (c - pos) as nat,
        }),
{
    reveal(scan_level);
}

/// Where the scanner stops at an opener, a nested level is scanned. If that
/// level ends with its closer, the region becomes a node; if it runs to the
/// end of the text, the opener is text and the nested nodes follow it.
pub proof fn lemma_scan_region(s: Seq<char>, pos: int, ending: Option<Delim>, c: int, d: Delim)
    requires
        0 <= pos <= c < s.len(),
        next_interesting(s, pos, ending) == Some((c - pos) as nat),
        !run_of(s, c, '[', 3),
        delim_at(s, c) == Some(d),
    ensures
        scan_level(s, pos, ending) == ({
            let head = Node::Text(s.subrange(pos, c));
            let start = c + d.opener().len();
            match scan_level(s, start, Some(d)) {
                Scan::Unclosed { at } => Scan::Unclosed { at },
                Scan::Level { nodes: inner, consumed: m } => {
                    if start + m >= s.len() {
                        Scan::Level {
                            nodes: seq![head, Node::Text(d.opener())] + inner,
                            consumed: (s.len() - pos) as nat,
                        }
                    } else {
                        after(
                            seq![head, d.wrap(s.subrange(c, start + m + 1), inner)],
                            (c - pos + d.opener().len() + m + 1) as nat,
                            scan_level(s, start + m + 1, ending),
                        )
                    }
                },
            }
        }),
{
    reveal(scan_level);
}

/// The unprocessed tree of a document, or the position of the comment that
/// was never closed.
pub open spec fn scanned(s: Seq<char>) -> Result<Node, int> {
    match scan_level(s, 0, None) {
        Scan::Level { nodes, .. } => Ok(Node::Branch(Kind::Root, nodes)),
        Scan::Unclosed { at } => Err(at),
    }
}

/// Scanning done in two parts is scanning done in one.
pub proof fn lemma_after_after(a: Seq<Node>, u: nat, b: Seq<Node>, v: nat, rest: Scan)
    ensures
        after(a, u, after(b, v, rest)) == after(a + b, u + v, rest),
{
    if let Scan::Level { nodes, consumed } = rest {
        assert(a + (b + nodes) =~= (a + b) + nodes);
    }
}

fn opener_at(src: &Source<'_>, i: usize) -> (r: Option<Delim>)
    requires
        i < src@.len(),
    ensures
        r == delim_at(src@, i as int),
{
    let c = src.at(i);
    let n = src.len();
    if c == OPEN_QUOTE {
        Some(Delim::Quote)
    } else if c == '[' {
        Some(Delim::Bracket)
    } else if c == '{' {
        Some(Delim::Curly)
    } else if c == '>' && i + 1 < n && src.at(i + 1) == ' ' {
        Some(Delim::Block)
    } else {
        None
    }
}

fn is_closer(ending: Option<Delim>, c: char) -> (b: bool)
    ensures
        b == closes(ending, c),
{
    match ending {
        Some(d) => d.closer_char() == c,
        None => false,
    }
}

/// The next position at or after `from` where the scanner stops.
fn find_interesting(src: &Source<'_>, from: usize, ending: Option<Delim>) -> (r: Option<usize>)
    requires
        from <= src@.len(),
    ensures
        match r {
            Some(at) => next_interesting(src@, from as int, ending) == Some((at - from) as nat)
                && from <= at < src@.len(),
            None => next_interesting(src@, from as int, ending) is None,
        },
{
    let mut i: usize = from;
    while i < src.len()
        invariant
            from <= i <= src@.len(),
            forall|j: int| from <= j < i ==> !interesting_at(src@, j, ending),
        decreases src@.len() - i,
    {
        let c = src.at(i);
        if c == '`' || is_closer(ending, c) || opener_at(src, i).is_some() {
            proof {
                lemma_next_interesting_at(src@, from as int, ending, i as int);
            }
            return Some(i);
        }
        i += 1;
    }
    proof {
        lemma_next_interesting_is_none(src@, from as int, ending);
    }
    None
}

/// Passes a comment whose opener, at position `opening_index`, has been read:
/// moves `index` past the bracket that closes it.
pub fn parse_comment(src: &Source<'_>, index: &mut usize, opening_index: usize) -> (r: Result<
    (),
    PqLiteError,
>)
    requires
        *old(index) <= src@.len(),
        opening_index <= src@.len(),
    ensures
        match comment_len(src@, *old(index) as int, 3) {
            Some(n) => r is Ok && *final(index) == *old(index) + n && *final(index) <= src@.len(),
            None => r matches Err(e) && e.is_unclosed_comment(
                byte_len(src@.take(opening_index as int)) as int,
            ),
        },
{
    let mut remaining: u128 = 3;
    let ghost start = *index;
    while remaining > 0
        invariant
            start == *old(index),
            start <= *index <= src@.len(),
            opening_index <= src@.len(),
            remaining <= 3 + (*index - start),
            match comment_len(src@, *index as int, remaining as nat) {
                Some(n) => comment_len(src@, start as int, 3) == Some((*index - start + n) as nat),
                None => comment_len(src@, start as int, 3) is None,
            },
        decreases src@.len() - *index + 1,
    {
        if *index >= src.len() {
            return Err(PqLiteError::unmatched(src.offset(opening_index), "[[[", "]]]"));
        }
        let c = src.at(*index);
        if c == '[' {
            remaining += 1;
        } else if c == ']' {
            remaining -= 1;
        }
        *index += 1;
    }
    Ok(())
}

/// Takes a code region whose opener of `n` backticks has been read: its
/// content up to the next run of `n` backticks, if there is one.
pub fn parse_code_block<'a>(src: &Source<'a>, index: &mut usize, n: usize) -> (r: Option<Ast<'a>>)
    requires
        *old(index) <= src@.len(),
        1 <= n <= 3,
    ensures
        match find_run(src@, *old(index) as int, '`', n as nat) {
            Some(j) => {
                &&& r matches Some(block)
                &&& block@ == code_block(
                    src@.subrange(*old(index) as int, *old(index) + j),
                )
                &&& *final(index) == *old(index) + j + n
                &&& *final(index) <= src@.len()
            },
            None => r is None && *final(index) == *old(index),
        },
{
    let chars = src.chars();
    match find_run_from(chars, *index, '`', n) {
        Some(at) => {
            assert(at + n <= chars.len());
            let inner = src.slice(*index, at);
            *index = at + n;
            let mut content: Vec<Ast<'a>> = Vec::new();
            content.push(Ast::NoBrText(inner));
            let block = Ast::CodeQuoted(content);
            proof {
                crate::tree::lemma_branch_view(block);
                assert(views(content@) =~= seq![Node::NoBrText(inner@)]);
            }
            Some(block)
        },
        None => None,
    }
}

fn tick_count(src: &Source<'_>, c: usize) -> (n: usize)
    requires
        c < src@.len(),
        src@[c as int] == '`',
    ensures
        n == tick_run(src@, c as int),
        1 <= n <= 3,
        c + n <= src@.len(),
{
    if is_run(src.chars(), c, '`', 3) {
        3
    } else if is_run(src.chars(), c, '`', 2) {
        2
    } else {
        1
    }
}

fn ticks_str(n: usize) -> (r: &'static str)
    requires
        1 <= n <= 3,
    ensures
        r@ == ticks(n as nat),
{
    proof {
        reveal_strlit("```");
        reveal_strlit("``");
        reveal_strlit("`");
    }
    let r = if n == 3 {
        "```"
    } else if n == 2 {
        "``"
    } else {
        "`"
    };
    assert(r@ =~= ticks(n as nat));
    r
}

fn wrap_region<'a>(d: Delim, raw: &'a str, inner: Vec<Ast<'a>>) -> (r: Ast<'a>)
    ensures
        r@ == d.wrap(raw@, views(inner@)),
{
    let r = match d {
        Delim::Quote => Ast::Quoted { original_text: raw, inner },
        Delim::Bracket => Ast::Bracketed(inner),
        Delim::Curly => Ast::CurlyBraced(inner),
        Delim::Block => Ast::BlockQuoted(inner),
    };
    proof {
        crate::tree::lemma_branch_view(r);
    }
    r
}

/// What `parse_to_ast_inner` has to return for a scan that gives `scan`.
pub open spec fn scan_matches(
    scan: Scan,
    s: Seq<char>,
    from: int,
    r: Result<Vec<Ast<'_>>, PqLiteError>,
    to: int,
) -> bool {
    match scan {
        Scan::Level { nodes, consumed } => {
            &&& r matches Ok(v)
            &&& views(v@) == nodes
            &&& to == from + consumed
            &&& to <= s.len()
        },
        Scan::Unclosed { at } => {
            &&& r matches Err(e)
            &&& 0 <= at <= s.len()
            &&& e.is_unclosed_comment(byte_len(s.take(at)) as int)
        },
    }
}

/// Scans one nesting level from `index` on, and leaves `index` at the closer
/// of `ending`, or at the end of the text.
pub fn parse_to_ast_inner<'a>(src: &Source<'a>, index: &mut usize, ending: Option<Delim>) -> (r:
    Result<Vec<Ast<'a>>, PqLiteError>)
    requires
        *old(index) <= src@.len(),
    ensures
        scan_matches(
            scan_level(src@, *old(index) as int, ending),
            src@,
            *old(index) as int,
            r,
            *final(index) as int,
        ),
    decreases src@.len() - *old(index),
{
    let ghost s = src@;
    let ghost start = *index;
    let ghost whole = scan_level(s, start as int, ending);
    let mut parsed: Vec<Ast<'a>> = Vec::new();
    proof {
        assert(views(parsed@) =~= Seq::<Node>::empty());
        lemma_after_id(whole);
    }
    while *index < src.len()
        invariant
            s == src@,
            start == *old(index),
            start <= *index <= s.len(),
            whole == scan_level(s, start as int, ending),
            whole == after(
                views(parsed@),
                (*index - start) as nat,
                scan_level(s, *index as int, ending),
            ),
        decreases s.len() - *index,
    {
        let pos = *index;
        let ghost done = views(parsed@);
        let ghost used = (pos - start) as nat;
        let c = match find_interesting(src, pos, ending) {
            None => {
                let text = Ast::Text(src.slice(pos, src.len()));
                proof {
                    lemma_views_push(parsed@, text);
                    lemma_scan_text(s, pos as int, ending);
                }
                parsed.push(text);
                *index = src.len();
                return Ok(parsed);
            },
            Some(c) => c,
        };
        let ghost k = (c - pos) as nat;
        let head = Ast::Text(src.slice(pos, c));
        proof {
            lemma_views_push(parsed@, head);
        }
        parsed.push(head);
        if is_run(src.chars(), c, '[', 3) {
            proof {
                lemma_scan_comment(s, pos as int, ending, c as int);
            }
            *index = c + 3;
            match parse_comment(src, index, c) {
                Err(e) => {
                    return Err(e);
                },
                Ok(()) => {
                    proof {
                        let n = comment_len(s, c + 3, 3).unwrap();
                        lemma_after_after(
                            done,
                            used,
                            seq![head@],
                            k + 3 + n,
                            scan_level(s, *index as int, ending),
                        );
                    }
                },
            }
        } else if src.at(c) == '`' {
            proof {
                lemma_scan_code(s, pos as int, ending, c as int);
            }
            let n = tick_count(src, c);
            *index = c + n;
            match parse_code_block(src, index, n) {
                Some(block) => {
                    proof {
                        let j = find_run(s, c + n, '`', n as nat).unwrap();
                        lemma_views_push(parsed@, block);
                        lemma_after_after(
                            done,
                            used,
                            seq![head@, block@],
                            (k + n + j + n) as nat,
                            scan_level(s, *index as int, ending),
                        );
                        assert(done + seq![head@, block@] =~= (done + seq![head@]) + seq![block@]);
                    }
                    parsed.push(block);
                },
                None => {
                    let text = Ast::Text(ticks_str(n));
                    proof {
                        lemma_views_push(parsed@, text);
                        lemma_after_after(
                            done,
                            used,
                            seq![head@, text@],
                            (k + n) as nat,
                            scan_level(s, *index as int, ending),
                        );
                        assert(done + seq![head@, text@] =~= (done + seq![head@]) + seq![text@]);
                    }
                    parsed.push(text);
                },
            }
        } else {
            match opener_at(src, c) {
                None => {
                    proof {
                        lemma_scan_closer(s, pos as int, ending, c as int);
                    }
                    *index = c;
                    return Ok(parsed);
                },
                Some(d) => {
                    proof {
                        lemma_scan_region(s, pos as int, ending, c as int, d);
                    }
                    let from = c + d.opener_len();
                    *index = from;
                    let mut inner = match parse_to_ast_inner(src, index, Some(d)) {
                        Err(e) => {
                            return Err(e);
                        },
                        Ok(inner) => inner,
                    };
                    let ghost m = (*index - from) as nat;
                    if *index == src.len() {
                        let text = Ast::Text(d.opener_str());
                        proof {
                            lemma_views_push(parsed@, text);
                            lemma_views_concat(parsed@.push(text), inner@);
                            assert(done + (seq![head@, text@] + views(inner@)) =~= ((done + seq![
                                head@,
                            ]) + seq![text@]) + views(inner@));
                        }
                        parsed.push(text);
                        parsed.append(&mut inner);
                        return Ok(parsed);
                    } else {
                        *index += 1;
                        let region = wrap_region(d, src.slice(c, *index), inner);
                        proof {
                            lemma_views_push(parsed@, region);
                            lemma_after_after(
                                done,
                                used,
                                seq![head@, region@],
                                k + d.opener().len() + m + 1,
                                scan_level(s, *index as int, ending),
                            );
                            assert(done + seq![head@, region@] =~= (done + seq![head@]) + seq![
                                region@,
                            ]);
                        }
                        parsed.push(region);
                    }
                },
            }
        }
    }
    proof {
        lemma_scan_end(s, *index as int, ending);
        assert(views(parsed@) + Seq::<Node>::empty() =~= views(parsed@));
    }
    Ok(parsed)
}

/// Nothing scanned before a scan leaves it as it is.
pub proof fn lemma_after_id(rest: Scan)
    ensures
        after(Seq::empty(), 0, rest) == rest,
{
    if let Scan::Level { nodes, consumed } = rest {
        assert(Seq::<Node>::empty() + nodes =~= nodes);
    }
}

/// Scans a whole document into its unprocessed tree.
pub fn parse_to_unprocessed_ast<'a>(src: &Source<'a>) -> (r: Result<Ast<'a>, PqLiteError>)
    requires
    ensures
        match scanned(src@) {
            Ok(tree) => r matches Ok(ast) && ast@ == tree,
            Err(at) => r matches Err(e) && 0 <= at <= src@.len() && e.is_unclosed_comment(
                byte_len(src@.take(at)) as int,
            ),
        },
{
    let mut index: usize = 0;
    match parse_to_ast_inner(src, &mut index, None) {
        Ok(nodes) => {
            let root = Ast::Root(nodes);
            proof {
                crate::tree::lemma_branch_view(root);
            }
            Ok(root)
        },
        Err(e) => Err(e),
    }
}

/// The tree `n` after the five passes, in their order: empty text pruned,
/// tooltip texts pulled out, shorthands resolved, spoilers wrapped, brackets
/// resolved. The second pass alone can fail, with the byte offset of a comment
/// that is never closed.
pub open spec fn processed(n: Node) -> Result<Node, int> {
    match pulled(pruned(n)) {
        Ok(t) => Ok(bracketed(spoiled(quoted(t)))),
        Err(at) => Err(at),
    }
}

/// The processed tree of the document `s`, or the byte offset of the comment
/// that is never closed.
pub open spec fn parsed(s: Seq<char>) -> Result<Node, int> {
    match scanned(s) {
        Ok(tree) => processed(tree),
        Err(at) => Err(byte_len(s.take(at)) as int),
    }
}

/// A tree that can be rendered can still be rendered after the five passes.
pub proof fn lemma_processed_renderable(n: Node)
    requires
        renderable(n),
    ensures
        processed(n) matches Ok(t) ==> renderable(t),
{
    lemma_pruned_renderable(n);
    lemma_pulled_safe(pruned(n));
    if let Ok(t) = pulled(pruned(n)) {
        lemma_quoted_safe(t);
        lemma_spoiled_safe(quoted(t));
        lemma_bracketed_renderable(spoiled(quoted(t)));
    }
}

/// The processed tree of a document can be rendered.
pub proof fn lemma_parsed_renderable(s: Seq<char>)
    ensures
        parsed(s) matches Ok(t) ==> renderable(t),
{
    lemma_scanned_renderable(s);
    if let Ok(tree) = scanned(s) {
        lemma_processed_renderable(tree);
    }
}

/// Runs the five passes over the tree.
pub fn process_ast(ast: &mut Ast<'_>) -> (r: Result<(), PqLiteError>)
    ensures
        match processed(old(ast)@) {
            Ok(t) => r is Ok && final(ast)@ == t,
            Err(at) => r matches Err(e) && e.is_unclosed_comment(at),
        },
{
    remove_empty_text(ast);
    match pull_out_tooltip_text(ast) {
        Ok(()) => {},
        Err(e) => {
            return Err(e);
        },
    }
    process_ast_quotes(ast);
    process_spoilers(ast);
    process_brackets(ast);
    Ok(())
}

/// Scans and processes a document.
///
/// Succeeds unless a triple-bracket comment is opened and never closed, and
/// then reports the byte offset of its opener: in the document, or, for a
/// comment inside the quoted text of a tooltip, in that text. The tree of a
/// success can always be rendered.
pub fn parse_to_processed_ast<'a>(input: &'a str) -> (r: Result<Ast<'a>, PqLiteError>)
    ensures
        match parsed(input@) {
            Ok(t) => r matches Ok(ast) && ast@ == t && renderable(ast@),
            Err(at) => r matches Err(e) && e.is_unclosed_comment(at),
        },
{
    let src = Source::new(input);
    let mut ast = match parse_to_unprocessed_ast(&src) {
        Ok(ast) => ast,
        Err(e) => {
            return Err(e);
        },
    };
    match process_ast(&mut ast) {
        Ok(()) => {},
        Err(e) => {
            return Err(e);
        },
    }
    proof {
        lemma_parsed_renderable(input@);
    }
    Ok(ast)
}

} // verus!
