//! Serialising a syntax tree as HTML.
use crate::chars::chars_of;
use crate::escape::{
    escaped, text_html, write_attr_value_escaped, write_html_escaped,
    write_html_escaped_with_linebreaks,
};
use crate::sink::push_char;
use crate::tree::{Kind, Node};
use crate::{Ast, PqLiteError, CLOSE_QUOTE, OPEN_QUOTE};
use std::borrow::Cow;
use vstd::prelude::*;
use vstd::string::*;
use vstd::utf8::encode_utf8;

verus! {

/// What a wrapped document holds before the rendered body.
pub const DOCUMENT_HEAD: &'static str = "<html>
<head>
<meta charset=\"utf-8\" />
<base target=\"_blank\">
<script type=\"text/javascript\">
function spoiler(element, event)
{
    if (event.target.nodeName == 'A' || event.target.parentNode.nodeName == 'A' || event.target.onclick)//for links in spoilers and spoilers2 in spoilers to work
        return;
    var e = element.firstChild.nextSibling.nextSibling;//element.getElementsByTagName('span')[0]
    e.previousSibling.style.display = e.style.display;//<span>…</span> must have inverted display style
    e.style.display = (e.style.display == \"none\" ? \"\" : \"none\");
    element.firstChild.style.fontWeight =
    element. lastChild.style.fontWeight = (e.style.display == \"\" ? \"normal\" : \"bold\");
    event.stopPropagation();
}
</script>
<style type=\"text/css\">
div#main, td {
    font-size: 14px;
    font-family: Verdana, sans-serif;
    line-height: 160%;
    text-align: justify;
}
span.cu_brackets_b {
    font-size: initial;
    font-family: initial;
    font-weight: bold;
}
a {
    text-decoration: none;
    color: #6da3bd;
}
a:hover {
    text-decoration: underline;
    color: #4d7285;
}
h1, h2, h3, h4, h5, h6 {
    margin: 0;
    font-weight: 400;
}
h1 {font-size: 200%; line-height: 130%;}
h2 {font-size: 180%; line-height: 135%;}
h3 {font-size: 160%; line-height: 140%;}
h4 {font-size: 145%; line-height: 145%;}
h5 {font-size: 130%; line-height: 140%;}
h6 {font-size: 120%; line-height: 140%;}
span.sq {color: gray; font-size: 0.8rem; font-weight: normal; /*pointer-events: none;*/}
span.sq_brackets {color: #BFBFBF;}
span.cu_brackets {cursor: pointer;}
span.cu {background-color: #F7F7FF;}
abbr {text-decoration: none; border-bottom: 1px dotted;}
pre {margin: 0; font-family: 'Courier New'; line-height: normal;}
blockquote {
    margin: 0 0 7px 0;
    padding: 7px 12px;
}
blockquote:not(.re) {border-left:  0.2em solid #C7EED4; background-color: #FCFFFC;}
blockquote.re       {border-right: 0.2em solid #C7EED4; background-color: #F9FFFB;}
div.note {
    padding: 18px 20px;
    background: #ffffd7;
}
pre.inline_code {
    display: inline;
    padding: 0px 3px;
    border: 1px solid #E5E5E5;
    background-color: #FAFAFA;
    border-radius: 3px;
}
div#main {width: 100%;}
@media screen and (min-width: 750px) {
    div#main {width: 724px;}
}
</style>
</head>
<body>
<div id=\"main\" style=\"margin: 0 auto\">";

/// What a wrapped document holds after the rendered body.
pub const DOCUMENT_TAIL: &'static str = "</div>
</body>
</html>
";

/// The digit that names heading level `level`.
pub open spec fn level_digit(level: i32) -> char {
    if level == 1 {
        '1'
    } else if level == 2 {
        '2'
    } else if level == 3 {
        '3'
    } else if level == 4 {
        '4'
    } else if level == 5 {
        '5'
    } else {
        '6'
    }
}

/// True if the target of a link lies beside the document itself.
pub open spec fn is_relative(target: Seq<char>) -> bool {
    target.len() >= 2 && target[0] == '.' && target[1] == '/'
}

/// What is written before the children of a node of kind `k`.
pub open spec fn opening(k: Kind) -> Seq<char> {
    match k {
        Kind::Root => Seq::empty(),
        Kind::Quoted { .. } => seq![OPEN_QUOTE],
        Kind::Bracketed => seq!['['],
        Kind::CurlyBraced => seq!['{'],
        Kind::BlockQuoted => "<blockquote>"@,
        Kind::CodeQuoted => "<pre>"@,
        Kind::ProcessedPrefixSuffix { prefix, .. } => prefix,
        Kind::Header { level } => "<h"@ + seq![level_digit(level), '>'],
        Kind::Tooltip { tooltip_text } => "<abbr title=\""@ + escaped(tooltip_text, true) + "\">"@,
        Kind::Link { link_location, tooltip_text } => {
            "<a href=\""@ + escaped(link_location, true) + (if is_relative(link_location) {
                "\" target=\"_self"@
            } else {
                Seq::empty()
            }) + (match tooltip_text {
                Some(t) => "\" title=\""@ + escaped(t, true),
                None => Seq::empty(),
            }) + "\">"@
        },
    }
}

/// What is written after the children of a node of kind `k`.
pub open spec fn closing(k: Kind) -> Seq<char> {
    match k {
        Kind::Root => Seq::empty(),
        Kind::Quoted { .. } => seq![CLOSE_QUOTE],
        Kind::Bracketed => seq![']'],
        Kind::CurlyBraced => seq!['}'],
        Kind::BlockQuoted => "</blockquote>\n"@,
        Kind::CodeQuoted => "</pre>"@,
        Kind::ProcessedPrefixSuffix { suffix, .. } => suffix,
        Kind::Header { level } => "</h"@ + seq![level_digit(level), '>'],
        Kind::Tooltip { .. } => "</abbr>"@,
        Kind::Link { .. } => "</a>"@,
    }
}

/// The HTML that a tree renders as.
pub open spec fn html(n: Node) -> Seq<char>
    decreases n,
{
    match n {
        Node::Text(s) => text_html(s),
        Node::CowText(s) => text_html(s),
        Node::NoBrText(s) => escaped(s, false),
        Node::TooltipText(_) => Seq::empty(),
        Node::Branch(k, c) => opening(k) + html_all(c) + closing(k),
    }
}

/// The HTML of a sequence of trees, one after the other.
pub open spec fn html_all(c: Seq<Node>) -> Seq<char>
    decreases c,
{
    if c.len() == 0 {
        Seq::empty()
    } else {
        html_all(c.drop_last()) + html(c.last())
    }
}

/// True of a tree that can be rendered: no tooltip text is left in it, and
/// every heading has a level from 1 to 6.
pub open spec fn renderable(n: Node) -> bool
    decreases n,
{
    match n {
        Node::TooltipText(_) => false,
        Node::Branch(k, c) => {
            &&& k matches Kind::Header { level } ==> 1 <= level <= 6
            &&& forall|i: int| 0 <= i < c.len() ==> renderable(#[trigger] c[i])
        },
        _ => true,
    }
}

/// The whole document that wraps a rendered tree.
pub open spec fn wrapped_html(n: Node) -> Seq<char> {
    DOCUMENT_HEAD@ + html(n) + DOCUMENT_TAIL@
}

fn write_level_digit(level: i32, out: &mut String)
    requires
        1 <= level <= 6,
    ensures
        final(out)@ == old(out)@.push(level_digit(level)),
{
    if level == 1 {
        push_char(out, '1');
    } else if level == 2 {
        push_char(out, '2');
    } else if level == 3 {
        push_char(out, '3');
    } else if level == 4 {
        push_char(out, '4');
    } else if level == 5 {
        push_char(out, '5');
    } else {
        push_char(out, '6');
    }
}

fn starts_relative(target: &str) -> (b: bool)
    ensures
        b == is_relative(target@),
{
    let t = chars_of(target);
    t.len() >= 2 && t[0] == '.' && t[1] == '/'
}

fn write_all(nodes: &Vec<Ast<'_>>, out: &mut String)
    requires
        forall|i: int| 0 <= i < nodes@.len() ==> renderable(#[trigger] nodes@[i]@),
    ensures
        final(out)@ == old(out)@ + html_all(crate::tree::views(nodes@)),
    decreases nodes,
{
    let ghost all = crate::tree::views(nodes@);
    let mut i: usize = 0;
    while i < nodes.len()
        invariant
            i <= nodes.len(),
            all == crate::tree::views(nodes@),
            forall|i: int| 0 <= i < nodes@.len() ==> renderable(#[trigger] nodes@[i]@),
            out@ == old(out)@ + html_all(all.take(i as int)),
        decreases nodes.len() - i,
    {
        nodes[i].write_html(out);
        proof {
            assert(all.take(i + 1).drop_last() =~= all.take(i as int));
            assert(all.take(i + 1).last() == nodes@[i as int]@);
        }
        i += 1;
    }
    proof {
        assert(all.take(nodes.len() as int) =~= all);
    }
}

/// A renderable inner node has renderable children, and a level from 1 to 6
/// if it is a heading.
pub proof fn lemma_renderable_branch(k: Kind, c: Seq<Node>)
    requires
        renderable(Node::Branch(k, c)),
    ensures
        k matches Kind::Header { level } ==> 1 <= level <= 6,
        forall|i: int| 0 <= i < c.len() ==> renderable(#[trigger] c[i]),
{
    let n = Node::Branch(k, c);
    assert(n->Branch_1 == c);
    assert(forall|i: int| 0 <= i < c.len() ==> renderable(#[trigger] c[i])) by {
        reveal_with_fuel(renderable, 2);
    }
}

impl<'a> Ast<'a> {
    fn write_opening(&self, out: &mut String)
        requires
            self.children() is Some,
            self.kind() matches Kind::Header { level } ==> 1 <= level <= 6,
        ensures
            final(out)@ == old(out)@ + opening(self.kind()),
    {
        let ghost before = out@;
        match self {
            Ast::Quoted { .. } => push_char(out, OPEN_QUOTE),
            Ast::Bracketed(_) => push_char(out, '['),
            Ast::CurlyBraced(_) => push_char(out, '{'),
            Ast::BlockQuoted(_) => out.append("<blockquote>"),
            Ast::CodeQuoted(_) => out.append("<pre>"),
            Ast::ProcessedPrefixSuffix(prefix, _, _) => out.append(prefix),
            Ast::Header(level, _) => {
                out.append("<h");
                write_level_digit(*level, out);
                push_char(out, '>');
            },
            Ast::Tooltip { tooltip_text, .. } => {
                out.append("<abbr title=\"");
                write_cow_attr(tooltip_text, out);
                out.append("\">");
            },
            Ast::Link { link_location, tooltip_text, .. } => {
                out.append("<a href=\"");
                write_attr_value_escaped(link_location, out);
                if starts_relative(link_location) {
                    out.append("\" target=\"_self");
                }
                match tooltip_text {
                    Some(t) => {
                        out.append("\" title=\"");
                        write_cow_attr(t, out);
                    },
                    None => {},
                }
                out.append("\">");
            },
            _ => {},
        }
        assert(out@ =~= before + opening(self.kind()));
    }

    fn write_closing(&self, out: &mut String)
        requires
            self.children() is Some,
            self.kind() matches Kind::Header { level } ==> 1 <= level <= 6,
        ensures
            final(out)@ == old(out)@ + closing(self.kind()),
    {
        let ghost before = out@;
        match self {
            Ast::Quoted { .. } => push_char(out, CLOSE_QUOTE),
            Ast::Bracketed(_) => push_char(out, ']'),
            Ast::CurlyBraced(_) => push_char(out, '}'),
            Ast::BlockQuoted(_) => out.append("</blockquote>\n"),
            Ast::CodeQuoted(_) => out.append("</pre>"),
            Ast::ProcessedPrefixSuffix(_, _, suffix) => out.append(suffix),
            Ast::Header(level, _) => {
                out.append("</h");
                write_level_digit(*level, out);
                push_char(out, '>');
            },
            Ast::Tooltip { .. } => out.append("</abbr>"),
            Ast::Link { .. } => out.append("</a>"),
            _ => {},
        }
        assert(out@ =~= before + closing(self.kind()));
    }

    /// Appends to `out` the HTML of this tree.
    pub fn write_html(&self, out: &mut String)
        requires
            renderable(self@),
        ensures
            final(out)@ == old(out)@ + html(self@),
        decreases self,
    {
        let ghost before = out@;
        match self.children_ref() {
            Some(nodes) => {
                proof {
                    crate::tree::lemma_branch_view(*self);
                    crate::tree::lemma_views(nodes@);
                    lemma_renderable_branch(self.kind(), crate::tree::views(nodes@));
                    assert forall|i: int| 0 <= i < nodes@.len() implies renderable(
                        #[trigger] nodes@[i]@,
                    ) by {
                        assert(crate::tree::views(nodes@)[i] == nodes@[i]@);
                    }
                }
                self.write_opening(out);
                write_all(nodes, out);
                self.write_closing(out);
            },
            None => {
                match self {
                    Ast::Text(text) => write_html_escaped_with_linebreaks(text, out),
                    Ast::CowText(text) => {
                        match text {
                            Cow::Borrowed(t) => write_html_escaped_with_linebreaks(t, out),
                            Cow::Owned(t) => write_html_escaped_with_linebreaks(t.as_str(), out),
                        }
                    },
                    Ast::NoBrText(text) => write_html_escaped(text, out),
                    _ => {},
                }
            },
        }
        assert(out@ =~= before + html(self@));
    }

    /// The HTML of this tree.
    pub fn to_html(&self) -> (s: String)
        requires
            renderable(self@),
        ensures
            s@ == html(self@),
    {
        let mut out = String::new();
        self.write_html(&mut out);
        assert(out@ =~= html(self@));
        out
    }
}

fn write_cow_attr(text: &Cow<'_, str>, out: &mut String)
    ensures
        final(out)@ == old(out)@ + escaped(text@, true),
{
    match text {
        Cow::Borrowed(t) => write_attr_value_escaped(t, out),
        Cow::Owned(t) => write_attr_value_escaped(t.as_str(), out),
    }
}

/// Appends to `output` the UTF-8 encoding of `text`.
pub fn write_utf8(text: &str, output: &mut Vec<u8>)
    ensures
        final(output)@ == old(output)@ + encode_utf8(text@),
{
    let bytes = text.as_bytes();
    let mut i: usize = 0;
    while i < bytes.len()
        invariant
            i <= bytes.len(),
            bytes@ == encode_utf8(text@),
            output@ == old(output)@ + bytes@.take(i as int),
        decreases bytes.len() - i,
    {
        output.push(bytes[i]);
        proof {
            assert(bytes@.take(i + 1) =~= bytes@.take(i as int).push(bytes@[i as int]));
        }
        i += 1;
    }
    proof {
        assert(bytes@.take(bytes.len() as int) =~= bytes@);
    }
}

/// Appends to `output` the HTML of `ast`, encoded as UTF-8.
pub fn ast_to_unwrapped_html(ast: &Ast<'_>, output: &mut Vec<u8>) -> (r: Result<(), PqLiteError>)
    requires
        renderable(ast@),
    ensures
        r is Ok,
        final(output)@ == old(output)@ + encode_utf8(html(ast@)),
{
    let body = ast.to_html();
    write_utf8(body.as_str(), output);
    Ok(())
}

/// Appends to `output` the whole document that wraps the HTML of `ast`,
/// encoded as UTF-8.
pub fn ast_to_wrapped_html(ast: &Ast<'_>, output: &mut Vec<u8>) -> (r: Result<(), PqLiteError>)
    requires
        renderable(ast@),
    ensures
        r is Ok,
        final(output)@ == old(output)@ + encode_utf8(wrapped_html(ast@)),
{
    let mut page = String::new();
    page.append(DOCUMENT_HEAD);
    ast.write_html(&mut page);
    page.append(DOCUMENT_TAIL);
    assert(page@ =~= wrapped_html(ast@));
    write_utf8(page.as_str(), output);
    Ok(())
}

} // verus!
