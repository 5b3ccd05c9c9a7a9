use ast_pqlite::print::{DOCUMENT_HEAD, DOCUMENT_TAIL};
use ast_pqlite::spoiler::{SPOILER_CLOSE, SPOILER_OPEN};
use ast_pqlite::{pqlite_to_unwrapped_html_string, write_wrapped_html_from_pqlite, PqLiteError};

fn html(input: &str) -> String {
    pqlite_to_unwrapped_html_string(input).unwrap()
}

fn unclosed_at(input: &str) -> usize {
    match pqlite_to_unwrapped_html_string(input) {
        Err(PqLiteError::UnmatchedOpen { opening_at_index, opening, expected_close }) => {
            assert_eq!(opening, "[[[");
            assert_eq!(expected_close, "]]]");
            opening_at_index
        }
        other => panic!("expected an unmatched opener, got {:?}", other),
    }
}

#[test]
fn empty_document_is_empty() {
    assert_eq!(html(""), "");
}

#[test]
fn text_is_escaped() {
    assert_eq!(html("a & b < c"), "a &amp; b &lt; c");
    assert_eq!(html("x>y \"z\""), "x&gt;y \"z\"");
}

#[test]
fn newlines_become_line_breaks_except_a_leading_one() {
    assert_eq!(html("a\nb"), "a<br />\nb");
    assert_eq!(html("\na"), "\na");
    assert_eq!(html("\n\na\n"), "\n<br />\na<br />\n");
}

#[test]
fn quoted_span_keeps_its_marks() {
    assert_eq!(html("\u{2018}hi\u{2019}"), "\u{2018}hi\u{2019}");
    assert_eq!(html("say \u{2018}a < b\u{2019}"), "say \u{2018}a &lt; b\u{2019}");
}

#[test]
fn link_takes_the_word_before_it_as_label() {
    assert_eq!(html("text[https://example.com]"), "<a href=\"https://example.com\">text</a>");
}

#[test]
fn link_splits_the_text_before_it_at_the_last_space() {
    assert_eq!(
        html("see the docs[https://a.b \u{2018}A & B\u{2019}]"),
        "see the <a href=\"https://a.b\" title=\"A &amp; B\">docs</a>"
    );
    assert_eq!(html("one\ttwo[u]"), "one\t<a href=\"u\">two</a>");
}

#[test]
fn link_after_text_that_ends_in_space_is_its_own_label() {
    assert_eq!(html("see [https://x.y]"), "see <a href=\"https://x.y\">https://x.y</a>");
}

#[test]
fn link_without_anything_before_it_is_its_own_label() {
    assert_eq!(html("[https://x.y]"), "<a href=\"https://x.y\">https://x.y</a>");
    assert_eq!(html("[\u{2018}tip\u{2019}]"), "<abbr title=\"tip\">tip</abbr>");
}

#[test]
fn link_takes_the_content_of_a_quote_before_it_as_label() {
    assert_eq!(
        html("\u{2018}two words\u{2019}[https://x.y]"),
        "<a href=\"https://x.y\">two words</a>"
    );
}

#[test]
fn link_takes_any_other_node_before_it_as_label() {
    assert_eq!(
        html("*\u{2018}b\u{2019}[https://x.y]"),
        "<a href=\"https://x.y\"><b>b</b></a>"
    );
    assert_eq!(
        html("{s}[https://x.y]"),
        format!("<a href=\"https://x.y\">{}s{}</a>", SPOILER_OPEN, SPOILER_CLOSE)
    );
    assert_eq!(html("a[u][v]"), "<a href=\"v\"><a href=\"u\">a</a></a>");
}

#[test]
fn link_target_loses_the_white_space_at_its_end() {
    assert_eq!(html("a[https://x.y  ]"), "<a href=\"https://x.y\">a</a>");
    assert_eq!(html("a[https://x.y\u{a0}\u{3000}]"), "<a href=\"https://x.y\">a</a>");
    assert_eq!(html("a[ x y ]"), "<a href=\" x y\">a</a>");
}

#[test]
fn link_into_the_same_directory_opens_in_the_same_tab() {
    assert_eq!(
        html("\u{2018}[[[Scoping rules/]]]Code blocks\u{2019}[./code-blocks]"),
        "<a href=\"./code-blocks\" target=\"_self\">Code blocks</a>"
    );
    assert_eq!(
        html("w[./a \u{2018}t\u{2019}]"),
        "<a href=\"./a\" target=\"_self\" title=\"t\">w</a>"
    );
}

#[test]
fn tooltip_wraps_the_word_before_it() {
    assert_eq!(html("word[\u{2018}tip\u{2019}]"), "<abbr title=\"tip\">word</abbr>");
}

#[test]
fn tooltip_text_is_escaped_for_an_attribute() {
    assert_eq!(
        html("w[\u{2018}\"q\" & <x>\u{2019}]"),
        "<abbr title=\"&quot;q&quot; &amp; &lt;x&gt;\">w</abbr>"
    );
}

#[test]
fn tooltip_text_is_raw_and_loses_its_comments() {
    assert_eq!(html("w[\u{2018}a[[[c]]]b\u{2019}]"), "<abbr title=\"ab\">w</abbr>");
    assert_eq!(html("w[\u{2018}*\u{2018}x\u{2019} {y}\u{2019}]"), "<abbr title=\"*\u{2018}x\u{2019} {y}\">w</abbr>");
}

#[test]
fn bracket_of_another_shape_stays_literal() {
    assert_eq!(html("[]"), "[]");
    assert_eq!(html("[a{b}]"), format!("[a{}b{}]", SPOILER_OPEN, SPOILER_CLOSE));
    assert_eq!(html("[\u{2018}t\u{2019} u]"), "[\u{2018}t\u{2019} u]");
}

#[test]
fn links_are_resolved_inside_other_nodes() {
    assert_eq!(
        html("\u{2018}a [b] c\u{2019}"),
        "\u{2018}a <a href=\"b\">b</a> c\u{2019}"
    );
}

#[test]
fn comment_is_suppressed() {
    assert_eq!(html("a[[[secret]]]b"), "ab");
    assert_eq!(html("[[[a]]]"), "");
    assert_eq!(html("a[[[x [y] z]]]b"), "ab");
    assert_eq!(html("a[[[x]y]z]b"), "ab");
}

#[test]
fn unclosed_comment_is_fatal() {
    assert_eq!(unclosed_at("a[[[b"), 1);
    assert_eq!(unclosed_at("[[[ [ ]]]"), 0);
    assert_eq!(unclosed_at("{a[[[b]]}"), 2);
}

#[test]
fn unclosed_comment_is_reported_at_its_byte_offset() {
    assert_eq!(unclosed_at("\u{2018}x\u{2019}[[["), 7);
    assert_eq!(unclosed_at("\u{e9}[[["), 2);
}

#[test]
fn unclosed_comment_in_a_tooltip_is_reported_within_the_tooltip() {
    assert_eq!(unclosed_at("some words[\u{2018}`[[[`\u{2019}]"), 1);
    assert_eq!(unclosed_at("w[u \u{2018}\u{e9}`[[[]`\u{2019}]"), 3);
}

#[test]
fn comment_opener_in_a_code_region_is_text() {
    assert_eq!(html("`[[[`"), "<pre>[[[</pre>");
}

#[test]
fn block_quote_needs_a_space_after_its_opener() {
    assert_eq!(html(">text"), "&gt;text");
    assert_eq!(html("> text\n"), "<blockquote>text</blockquote>\n");
    assert_eq!(html("a\n> b\nc"), "a<br />\n<blockquote>b</blockquote>\nc");
}

#[test]
fn unmatched_opener_is_text() {
    assert_eq!(html("[unterminated"), "[unterminated");
    assert_eq!(html("{open"), "{open");
    assert_eq!(html("\u{2018}open"), "\u{2018}open");
    assert_eq!(html("> quote without end"), "&gt; quote without end");
    assert_eq!(html("a[b{c"), "a[b{c");
    assert_eq!(html("a]b}c\u{2019}d"), "a]b}c\u{2019}d");
}

#[test]
fn unmatched_opener_keeps_what_was_scanned_after_it() {
    assert_eq!(html("[a `b` {c}"), format!("[a <pre>b</pre> {}c{}", SPOILER_OPEN, SPOILER_CLOSE));
}

#[test]
fn code_region_is_taken_verbatim() {
    assert_eq!(html("`a<b`"), "<pre>a&lt;b</pre>");
    assert_eq!(html("```x`y```"), "<pre>x`y</pre>");
    assert_eq!(html("``a`b``"), "<pre>a`b</pre>");
    assert_eq!(html("`a\nb`"), "<pre>a\nb</pre>");
    assert_eq!(html("`[x]{y}`"), "<pre>[x]{y}</pre>");
}

#[test]
fn unclosed_code_region_is_text() {
    assert_eq!(html("`code"), "`code");
    assert_eq!(html("```a``"), "```a``");
    assert_eq!(html("````"), "````");
}

#[test]
fn spoiler_wraps_its_content() {
    assert_eq!(
        html("{secret}"),
        "<span class=\"cu_brackets\" onclick=\"return spoiler(this, event)\"><span class=\"cu_brackets_b\">{</span><span>\u{2026}</span><span class=\"cu\" style=\"display: none\">secret</span><span class=\"cu_brackets_b\">}</span></span>"
    );
    assert_eq!(html("{a<b}"), format!("{}a&lt;b{}", SPOILER_OPEN, SPOILER_CLOSE));
    assert_eq!(
        html("{a{b}}"),
        format!("{}a{}b{}{}", SPOILER_OPEN, SPOILER_OPEN, SPOILER_CLOSE, SPOILER_CLOSE)
    );
}

#[test]
fn shorthand_wraps_the_quote_after_it() {
    assert_eq!(html("a*\u{2018}b\u{2019}"), "a<b>b</b>");
    assert_eq!(html("_\u{2018}u\u{2019}"), "<u>u</u>");
    assert_eq!(html("-\u{2018}s\u{2019}"), "<s>s</s>");
    assert_eq!(html("~\u{2018}i\u{2019}"), "<i>i</i>");
    assert_eq!(html(">\u{2018}q\u{2019}"), "<blockquote>q</blockquote>");
    assert_eq!(html("H\u{2018}t\u{2019}"), "<h3>t</h3>");
    assert_eq!(html("/\\\u{2018}up\u{2019}"), "<sup>up</sup>");
    assert_eq!(html("\\/\u{2018}down\u{2019}"), "<sub>down</sub>");
}

#[test]
fn shorthand_needs_the_quote_directly_after_it() {
    assert_eq!(html("* \u{2018}b\u{2019}"), "* \u{2018}b\u{2019}");
    assert_eq!(html("a*"), "a*");
    assert_eq!(html("x\u{2018}b\u{2019}"), "x\u{2018}b\u{2019}");
}

#[test]
fn shorthands_nest() {
    assert_eq!(html("*\u{2018}a~\u{2018}b\u{2019}\u{2019}"), "<b>a<i>b</i></b>");
}

#[test]
fn heading_level_is_three_less_the_number() {
    assert_eq!(html("H(1)\u{2018}Title\u{2019}"), "<h2>Title</h2>");
    assert_eq!(html("H(2)\u{2018}t\u{2019}"), "<h1>t</h1>");
    assert_eq!(html("H(0)\u{2018}t\u{2019}"), "<h3>t</h3>");
    assert_eq!(html("H(-1)\u{2018}t\u{2019}"), "<h4>t</h4>");
    assert_eq!(html("H(-2)\u{2018}t\u{2019}"), "<h5>t</h5>");
    assert_eq!(html("H(-3)\u{2018}t\u{2019}"), "<h6>t</h6>");
    assert_eq!(html("H(+1)\u{2018}t\u{2019}"), "<h2>t</h2>");
    assert_eq!(html("H(-0)\u{2018}t\u{2019}"), "<h3>t</h3>");
    assert_eq!(html("H(002)\u{2018}t\u{2019}"), "<h1>t</h1>");
    assert_eq!(html("intro H(1)\u{2018}t\u{2019}"), "intro <h2>t</h2>");
    assert_eq!(html("H(H(1)\u{2018}t\u{2019}"), "H(<h2>t</h2>");
}

#[test]
fn heading_level_out_of_range_leaves_the_source_literal() {
    assert_eq!(html("H(3)\u{2018}x\u{2019}"), "H(3)\u{2018}x\u{2019}");
    assert_eq!(html("H(5)\u{2018}x\u{2019}"), "H(5)\u{2018}x\u{2019}");
    assert_eq!(html("H(-4)\u{2018}x\u{2019}"), "H(-4)\u{2018}x\u{2019}");
    assert_eq!(
        html("H(99999999999999999999)\u{2018}x\u{2019}"),
        "H(99999999999999999999)\u{2018}x\u{2019}"
    );
    assert_eq!(html("H(-2147483648)\u{2018}x\u{2019}"), "H(-2147483648)\u{2018}x\u{2019}");
}

#[test]
fn heading_number_that_is_no_number_leaves_the_source_literal() {
    assert_eq!(html("H(x)\u{2018}t\u{2019}"), "H(x)\u{2018}t\u{2019}");
    assert_eq!(html("H()\u{2018}t\u{2019}"), "H()\u{2018}t\u{2019}");
    assert_eq!(html("H(-)\u{2018}t\u{2019}"), "H(-)\u{2018}t\u{2019}");
    assert_eq!(html("H(1 )\u{2018}t\u{2019}"), "H(1 )\u{2018}t\u{2019}");
    assert_eq!(html("(1)\u{2018}t\u{2019}"), "(1)\u{2018}t\u{2019}");
}

#[test]
fn plain_shorthand_goes_before_a_heading() {
    assert_eq!(html("H(1)*\u{2018}t\u{2019}"), "H(1)<b>t</b>");
}

#[test]
fn wrapped_document_surrounds_the_body() {
    let mut out = Vec::new();
    write_wrapped_html_from_pqlite("a < b", &mut out).unwrap();
    let page = String::from_utf8(out).unwrap();
    assert_eq!(page, format!("{}a &lt; b{}", DOCUMENT_HEAD, DOCUMENT_TAIL));
    assert!(page.starts_with("<html>\n<head>\n<meta charset=\"utf-8\" />\n"));
    assert!(page.contains("<div id=\"main\" style=\"margin: 0 auto\">a &lt; b</div>\n</body>"));
    assert!(page.ends_with("</div>\n</body>\n</html>\n"));
}

#[test]
fn wrapped_document_is_appended_to_what_the_sink_holds() {
    let mut out = vec![b'x'];
    write_wrapped_html_from_pqlite("\u{e9}", &mut out).unwrap();
    let page = String::from_utf8(out).unwrap();
    assert_eq!(page, format!("x{}\u{e9}{}", DOCUMENT_HEAD, DOCUMENT_TAIL));
}

#[test]
fn wrapped_document_is_not_written_on_failure() {
    let mut out = vec![b'x'];
    let r = write_wrapped_html_from_pqlite("a[[[", &mut out);
    assert!(matches!(r, Err(PqLiteError::UnmatchedOpen { opening_at_index: 1, .. })));
    assert_eq!(out, vec![b'x']);
}

#[test]
fn document_without_comment_opener_compiles() {
    for input in ["[", "]]]", "[[ [", "\u{2018}", "{[\u{2018}`", "> ", "H(", "[\u{2018}", "[x \u{2018}"] {
        assert!(pqlite_to_unwrapped_html_string(input).is_ok());
    }
}

#[test]
fn escaped_text_holds_no_markup() {
    let out = html("<a href=\"x\">&amp;</a>");
    assert_eq!(out, "&lt;a href=\"x\"&gt;&amp;amp;&lt;/a&gt;");
    assert!(!out.contains('<'));
    assert!(!out.contains('>'));
}

#[test]
fn shorthand_applies_after_a_reinserted_opener() {
    assert_eq!(html("[*\u{2018}a\u{2019}"), "[<b>a</b>");
    assert_eq!(html("{H\u{2018}t\u{2019}"), "{<h3>t</h3>");
}

#[test]
fn tooltip_without_comments_removed_labels_itself() {
    assert_eq!(html("[\u{2018}a[[[c]]]b\u{2019}]"), "<abbr title=\"ab\">ab</abbr>");
    assert_eq!(html(" [\u{2018}t\u{2019}]"), " <abbr title=\"t\">t</abbr>");
}

#[test]
fn tooltip_text_keeps_inner_quote_marks() {
    assert_eq!(
        html("w[\u{2018}\u{2018}a\u{2019} b\u{2019}]"),
        "<abbr title=\"a\u{2019} b\">w</abbr>"
    );
}

#[test]
fn unclosed_block_quote_inside_a_bracket_degrades_to_text() {
    assert_eq!(html("> a [b\n"), "&gt; a [b<br />\n");
}

#[test]
fn heading_rule_holds_at_every_depth() {
    assert_eq!(html("[H(1)\u{2018}t\u{2019} x]"), "[<h2>t</h2> x]");
    assert_eq!(
        html("{a H(-1)\u{2018}*\u{2018}b\u{2019}\u{2019}}"),
        format!("{}a <h4><b>b</b></h4>{}", SPOILER_OPEN, SPOILER_CLOSE)
    );
    assert_eq!(
        html("{H(9)\u{2018}t\u{2019}}"),
        format!("{}H(9)\u{2018}t\u{2019}{}", SPOILER_OPEN, SPOILER_CLOSE)
    );
}

#[test]
fn link_keeps_the_white_space_before_its_label() {
    assert_eq!(html("a b\nc[u]"), "a b<br />\n<a href=\"u\">c</a>");
    assert_eq!(html("a  b[\u{2018}t\u{2019}]"), "a  <abbr title=\"t\">b</abbr>");
}
