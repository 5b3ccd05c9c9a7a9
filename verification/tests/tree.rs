use ast_pqlite::chars::{chars_of, Source};
use ast_pqlite::escape::{
    write_attr_value_escaped, write_html_escaped, write_html_escaped_with_linebreaks,
};
use ast_pqlite::link::{bracket_child_to_url_and_tooltip, process_brackets, trim_end};
use ast_pqlite::parse::{
    parse_code_block, parse_comment, parse_to_ast_inner, parse_to_processed_ast,
    parse_to_unprocessed_ast, process_ast, Delim,
};
use ast_pqlite::print::{ast_to_unwrapped_html, ast_to_wrapped_html, DOCUMENT_HEAD, DOCUMENT_TAIL};
use ast_pqlite::prune::remove_empty_text;
use ast_pqlite::shorthand::process_ast_quotes;
use ast_pqlite::spoiler::{process_spoilers, SPOILER_CLOSE, SPOILER_OPEN};
use ast_pqlite::tooltip::{
    is_url_tooltip, pull_out_tooltip_text, remove_comments_for_tooltip, unquote,
};
use ast_pqlite::{Ast, PqLiteError};
use std::borrow::Cow;

fn rendered(ast: &Ast<'_>) -> String {
    let mut out = Vec::new();
    ast_to_unwrapped_html(ast, &mut out).unwrap();
    String::from_utf8(out).unwrap()
}

#[test]
fn characters_of_a_text() {
    assert_eq!(chars_of("a\u{2018}b"), vec!['a', '\u{2018}', 'b']);
    assert_eq!(chars_of(""), Vec::<char>::new());
}

#[test]
fn source_slices_by_character_position() {
    let src = Source::new("a\u{2018}b\u{2019}c\u{1f600}d");
    assert_eq!(src.len(), 7);
    assert_eq!(src.at(1), '\u{2018}');
    assert_eq!(src.slice(1, 4), "\u{2018}b\u{2019}");
    assert_eq!(src.slice(0, 7), "a\u{2018}b\u{2019}c\u{1f600}d");
    assert_eq!(src.slice(5, 6), "\u{1f600}");
    assert_eq!(src.slice(3, 3), "");
    assert_eq!(src.offset(0), 0);
    assert_eq!(src.offset(2), 4);
    assert_eq!(src.offset(6), 13);
    assert_eq!(src.offset(7), 14);
}

#[test]
fn comment_ends_where_the_brackets_balance() {
    let src = Source::new("[[[a[b]]]]c");
    let mut index = 3;
    assert!(parse_comment(&src, &mut index, 0).is_ok());
    assert_eq!(index, 10);
}

#[test]
fn comment_without_end_names_its_opener() {
    let src = Source::new("\u{e9}[[[a]]");
    let mut index = 4;
    match parse_comment(&src, &mut index, 1) {
        Err(PqLiteError::UnmatchedOpen { opening_at_index, opening, expected_close }) => {
            assert_eq!(opening_at_index, 2);
            assert_eq!(opening, "[[[");
            assert_eq!(expected_close, "]]]");
        }
        other => panic!("expected an unmatched opener, got {:?}", other),
    }
}

#[test]
fn code_block_runs_to_the_next_run_of_backticks() {
    let src = Source::new("``a`b``c");
    let mut index = 2;
    let block = parse_code_block(&src, &mut index, 2).unwrap();
    assert_eq!(index, 7);
    match block {
        Ast::CodeQuoted(v) => {
            assert_eq!(v.len(), 1);
            assert!(matches!(v[0], Ast::NoBrText("a`b")));
        }
        other => panic!("expected a code region, got {:?}", other),
    }
    let mut index = 7;
    assert!(parse_code_block(&src, &mut index, 2).is_none());
    assert_eq!(index, 7);
}

#[test]
fn nested_level_stops_at_its_closer() {
    let src = Source::new("[a{b}c]d");
    let mut index = 1;
    let nodes = parse_to_ast_inner(&src, &mut index, Some(Delim::Bracket)).unwrap();
    assert_eq!(index, 6);
    assert_eq!(nodes.len(), 3);
    assert!(matches!(nodes[0], Ast::Text("a")));
    assert!(matches!(nodes[1], Ast::CurlyBraced(_)));
    assert!(matches!(nodes[2], Ast::Text("c")));
}

#[test]
fn scanner_keeps_empty_text_and_raw_quotes() {
    let src = Source::new("\u{2018}a[[[x]]]b\u{2019}");
    let ast = parse_to_unprocessed_ast(&src).unwrap();
    match ast {
        Ast::Root(v) => {
            assert_eq!(v.len(), 2);
            assert!(matches!(v[0], Ast::Text("")));
            match &v[1] {
                Ast::Quoted { original_text, inner } => {
                    assert_eq!(*original_text, "\u{2018}a[[[x]]]b\u{2019}");
                    assert_eq!(inner.len(), 2);
                    assert!(matches!(inner[0], Ast::Text("a")));
                    assert!(matches!(inner[1], Ast::Text("b")));
                }
                other => panic!("expected a quoted span, got {:?}", other),
            }
        }
        other => panic!("expected a root, got {:?}", other),
    }
}

#[test]
fn processed_tree_of_a_link() {
    let ast = parse_to_processed_ast("text[https://example.com]").unwrap();
    match ast {
        Ast::Root(v) => {
            assert_eq!(v.len(), 1);
            match &v[0] {
                Ast::Link { link_location, tooltip_text, inner } => {
                    assert_eq!(*link_location, "https://example.com");
                    assert!(tooltip_text.is_none());
                    assert_eq!(inner.len(), 1);
                    assert!(matches!(inner[0], Ast::Text("text")));
                }
                other => panic!("expected a link, got {:?}", other),
            }
        }
        other => panic!("expected a root, got {:?}", other),
    }
}

#[test]
fn processed_tree_of_a_heading() {
    let ast = parse_to_processed_ast("H(-2)\u{2018}t\u{2019}").unwrap();
    match ast {
        Ast::Root(v) => {
            assert_eq!(v.len(), 2);
            assert!(matches!(v[0], Ast::Text("")));
            match &v[1] {
                Ast::Header(level, inner) => {
                    assert_eq!(*level, 5);
                    assert!(matches!(inner[0], Ast::Text("t")));
                }
                other => panic!("expected a heading, got {:?}", other),
            }
        }
        other => panic!("expected a root, got {:?}", other),
    }
}

#[test]
fn processed_tree_fails_on_an_unclosed_comment() {
    assert!(matches!(
        parse_to_processed_ast("ab[[[c]"),
        Err(PqLiteError::UnmatchedOpen { opening_at_index: 2, opening: "[[[", expected_close: "]]]" })
    ));
}

#[test]
fn pruning_removes_empty_text_at_every_depth() {
    let mut ast = Ast::Root(vec![
        Ast::Text(""),
        Ast::Bracketed(vec![Ast::Text(""), Ast::Text("a"), Ast::NoBrText("")]),
        Ast::Text("b"),
        Ast::Text(""),
    ]);
    remove_empty_text(&mut ast);
    match ast {
        Ast::Root(v) => {
            assert_eq!(v.len(), 2);
            match &v[0] {
                Ast::Bracketed(inner) => {
                    assert_eq!(inner.len(), 2);
                    assert!(matches!(inner[0], Ast::Text("a")));
                    assert!(matches!(inner[1], Ast::NoBrText("")));
                }
                other => panic!("expected a bracket, got {:?}", other),
            }
            assert!(matches!(v[1], Ast::Text("b")));
        }
        other => panic!("expected a root, got {:?}", other),
    }
}

#[test]
fn quote_marks_are_trimmed_from_both_ends() {
    assert_eq!(unquote("\u{2018}a\u{2019}"), "a");
    assert_eq!(unquote("\u{2018}\u{2018}a\u{2019}b\u{2019}\u{2019}"), "a\u{2019}b");
    assert_eq!(unquote("\u{2018}\u{2019}"), "");
    assert_eq!(unquote("\u{2019}a\u{2018}"), "\u{2019}a\u{2018}");
    assert_eq!(unquote(""), "");
}

#[test]
fn comments_are_removed_from_tooltip_text() {
    assert_eq!(remove_comments_for_tooltip("a[[[b]]]c[[[d]]]").unwrap(), "ac");
    assert_eq!(remove_comments_for_tooltip("[[[b]]]").unwrap(), "");
    assert_eq!(remove_comments_for_tooltip("").unwrap(), "");
    assert!(matches!(remove_comments_for_tooltip("a[[[b]]]c"), Ok(Cow::Owned(_))));
}

#[test]
fn tooltip_text_without_comment_is_borrowed() {
    match remove_comments_for_tooltip("a [b] c") {
        Ok(Cow::Borrowed(t)) => assert_eq!(t, "a [b] c"),
        other => panic!("expected borrowed text, got {:?}", other),
    }
}

#[test]
fn unclosed_comment_in_tooltip_text_is_an_error() {
    assert!(matches!(
        remove_comments_for_tooltip("\u{2018}[[[b]]"),
        Err(PqLiteError::UnmatchedOpen { opening_at_index: 3, opening: "[[[", expected_close: "]]]" })
    ));
}

#[test]
fn url_tooltip_shape_is_recognised() {
    let quote = || Ast::Quoted { original_text: "\u{2018}t\u{2019}", inner: vec![Ast::Text("t")] };
    assert!(is_url_tooltip(&Ast::Bracketed(vec![Ast::Text("u")])));
    assert!(is_url_tooltip(&Ast::Bracketed(vec![quote()])));
    assert!(is_url_tooltip(&Ast::Bracketed(vec![Ast::Text("u"), quote()])));
    assert!(is_url_tooltip(&Ast::Bracketed(vec![Ast::TooltipText(Cow::Borrowed("t"))])));
    assert!(is_url_tooltip(&Ast::Bracketed(vec![
        Ast::Text("u"),
        Ast::TooltipText(Cow::Borrowed("t"))
    ])));
    assert!(!is_url_tooltip(&Ast::Bracketed(vec![])));
    assert!(!is_url_tooltip(&Ast::Bracketed(vec![Ast::Text("u"), Ast::Text("v")])));
    assert!(!is_url_tooltip(&Ast::Bracketed(vec![quote(), Ast::Text("u")])));
    assert!(!is_url_tooltip(&Ast::Bracketed(vec![quote(), quote()])));
    assert!(!is_url_tooltip(&Ast::Bracketed(vec![Ast::Text("u"), quote(), quote()])));
    assert!(!is_url_tooltip(&Ast::CurlyBraced(vec![Ast::Text("u")])));
    assert!(!is_url_tooltip(&Ast::Text("u")));
}

#[test]
fn tooltip_text_is_pulled_out_of_its_quote() {
    let mut ast = Ast::Root(vec![Ast::Bracketed(vec![
        Ast::Text("u "),
        Ast::Quoted {
            original_text: "\u{2018}a[[[b]]]*\u{2018}c\u{2019}\u{2019}",
            inner: vec![Ast::Text("a"), Ast::Text("*")],
        },
    ])]);
    pull_out_tooltip_text(&mut ast).unwrap();
    match ast {
        Ast::Root(v) => match &v[0] {
            Ast::Bracketed(inner) => {
                assert_eq!(inner.len(), 2);
                assert!(matches!(inner[0], Ast::Text("u ")));
                match &inner[1] {
                    Ast::TooltipText(t) => assert_eq!(t, "a*\u{2018}c"),
                    other => panic!("expected tooltip text, got {:?}", other),
                }
            }
            other => panic!("expected a bracket, got {:?}", other),
        },
        other => panic!("expected a root, got {:?}", other),
    }
}

#[test]
fn tooltip_failures_at_a_level_come_before_those_below() {
    let bad = |raw: &'static str| {
        Ast::Bracketed(vec![Ast::Quoted { original_text: raw, inner: vec![] }])
    };
    let mut ast = Ast::Root(vec![
        Ast::CurlyBraced(vec![bad("\u{2018}[[[\u{2019}")]),
        bad("\u{2018}ab[[[\u{2019}"),
    ]);
    assert!(matches!(
        pull_out_tooltip_text(&mut ast),
        Err(PqLiteError::UnmatchedOpen { opening_at_index: 2, .. })
    ));
}

#[test]
fn shorthand_pass_rewrites_text_and_quote() {
    let mut ast = Ast::Root(vec![
        Ast::Text("a/\\"),
        Ast::Quoted { original_text: "\u{2018}b\u{2019}", inner: vec![Ast::Text("b")] },
    ]);
    process_ast_quotes(&mut ast);
    match ast {
        Ast::Root(v) => {
            assert_eq!(v.len(), 2);
            assert!(matches!(v[0], Ast::Text("a")));
            assert!(matches!(v[1], Ast::ProcessedPrefixSuffix("<sup>", _, "</sup>")));
        }
        other => panic!("expected a root, got {:?}", other),
    }
}

#[test]
fn spoiler_pass_rewrites_curly_braces() {
    let mut ast = Ast::Root(vec![Ast::CurlyBraced(vec![Ast::CurlyBraced(vec![])])]);
    process_spoilers(&mut ast);
    match ast {
        Ast::Root(v) => match &v[0] {
            Ast::ProcessedPrefixSuffix(prefix, inner, suffix) => {
                assert_eq!(*prefix, SPOILER_OPEN);
                assert_eq!(*suffix, SPOILER_CLOSE);
                assert!(matches!(inner[0], Ast::ProcessedPrefixSuffix(_, _, _)));
            }
            other => panic!("expected a spoiler, got {:?}", other),
        },
        other => panic!("expected a root, got {:?}", other),
    }
}

#[test]
fn white_space_is_trimmed_from_the_end() {
    assert_eq!(trim_end("a b \t\n"), "a b");
    assert_eq!(trim_end(" a\u{a0}\u{2003}\u{3000}\u{85}"), " a");
    assert_eq!(trim_end("a\u{200b}"), "a\u{200b}");
    assert_eq!(trim_end("   "), "");
    assert_eq!(trim_end(""), "");
}

#[test]
fn bracket_gives_its_target_and_tooltip() {
    let (url, tip) = bracket_child_to_url_and_tooltip(Ast::Bracketed(vec![
        Ast::Text("u  "),
        Ast::TooltipText(Cow::Borrowed("t")),
    ]));
    assert_eq!(url, Some("u"));
    assert_eq!(tip, Some(Cow::Borrowed("t")));
    let (url, tip) = bracket_child_to_url_and_tooltip(Ast::Bracketed(vec![Ast::Text("u")]));
    assert_eq!(url, Some("u"));
    assert_eq!(tip, None);
    let (url, tip) = bracket_child_to_url_and_tooltip(Ast::Bracketed(vec![Ast::TooltipText(
        Cow::Owned(String::from("t")),
    )]));
    assert_eq!(url, None);
    assert_eq!(tip, Some(Cow::Borrowed("t")));
    let (url, tip) = bracket_child_to_url_and_tooltip(Ast::Bracketed(vec![Ast::Quoted {
        original_text: "\u{2018}\u{2019}",
        inner: vec![],
    }]));
    assert_eq!(url, None);
    assert_eq!(tip, None);
    let (url, tip) = bracket_child_to_url_and_tooltip(Ast::Text("u"));
    assert_eq!(url, None);
    assert_eq!(tip, None);
}

#[test]
fn link_pass_leaves_a_bracket_with_a_quote_literal() {
    let mut ast = Ast::Root(vec![
        Ast::Text("a"),
        Ast::Bracketed(vec![Ast::Quoted {
            original_text: "\u{2018}t\u{2019}",
            inner: vec![Ast::Text("t")],
        }]),
    ]);
    process_brackets(&mut ast);
    assert_eq!(rendered(&ast), "a[\u{2018}t\u{2019}]");
}

#[test]
fn passes_run_in_order() {
    let src = Source::new("x *\u{2018}b\u{2019}[u \u{2018}t\u{2019}]{s}");
    let mut ast = parse_to_unprocessed_ast(&src).unwrap();
    process_ast(&mut ast).unwrap();
    assert_eq!(
        rendered(&ast),
        format!("x <a href=\"u\" title=\"t\"><b>b</b></a>{}s{}", SPOILER_OPEN, SPOILER_CLOSE)
    );
}

#[test]
fn text_is_escaped_for_each_context() {
    let mut out = String::from(">");
    write_html_escaped("a&b<c>d\"e\n", &mut out);
    assert_eq!(out, ">a&amp;b&lt;c&gt;d\"e\n");
    let mut out = String::new();
    write_html_escaped_with_linebreaks("\na&b\n<c>\n", &mut out);
    assert_eq!(out, "\na&amp;b<br />\n&lt;c&gt;<br />\n");
    let mut out = String::new();
    write_attr_value_escaped("a&b<c>d\"e'\n", &mut out);
    assert_eq!(out, "a&amp;b&lt;c&gt;d&quot;e'\n");
}

#[test]
fn every_kind_of_node_renders() {
    let t = || vec![Ast::Text("t")];
    assert_eq!(rendered(&Ast::Text("a<\nb")), "a&lt;<br />\nb");
    assert_eq!(rendered(&Ast::CowText(Cow::Owned(String::from("a\n&")))), "a<br />\n&amp;");
    assert_eq!(rendered(&Ast::CowText(Cow::Borrowed("\nb"))), "\nb");
    assert_eq!(rendered(&Ast::NoBrText("a\nb>")), "a\nb&gt;");
    assert_eq!(rendered(&Ast::Root(vec![Ast::Text("a"), Ast::Text("b")])), "ab");
    assert_eq!(rendered(&Ast::Root(vec![])), "");
    assert_eq!(
        rendered(&Ast::Quoted { original_text: "ignored", inner: t() }),
        "\u{2018}t\u{2019}"
    );
    assert_eq!(rendered(&Ast::Bracketed(t())), "[t]");
    assert_eq!(rendered(&Ast::CurlyBraced(t())), "{t}");
    assert_eq!(rendered(&Ast::BlockQuoted(t())), "<blockquote>t</blockquote>\n");
    assert_eq!(rendered(&Ast::CodeQuoted(vec![Ast::NoBrText("a\nb")])), "<pre>a\nb</pre>");
    assert_eq!(rendered(&Ast::ProcessedPrefixSuffix("<x>", t(), "</x>")), "<x>t</x>");
    for (level, open, close) in [
        (1, "<h1>", "</h1>"),
        (2, "<h2>", "</h2>"),
        (3, "<h3>", "</h3>"),
        (4, "<h4>", "</h4>"),
        (5, "<h5>", "</h5>"),
        (6, "<h6>", "</h6>"),
    ] {
        assert_eq!(rendered(&Ast::Header(level, t())), format!("{}t{}", open, close));
    }
    assert_eq!(
        rendered(&Ast::Tooltip { tooltip_text: Cow::Borrowed("a\"b"), inner: t() }),
        "<abbr title=\"a&quot;b\">t</abbr>"
    );
    assert_eq!(
        rendered(&Ast::Link { link_location: "u?a&b", tooltip_text: None, inner: t() }),
        "<a href=\"u?a&amp;b\">t</a>"
    );
    assert_eq!(
        rendered(&Ast::Link {
            link_location: "./u",
            tooltip_text: Some(Cow::Owned(String::from("<"))),
            inner: t()
        }),
        "<a href=\"./u\" target=\"_self\" title=\"&lt;\">t</a>"
    );
    assert_eq!(
        rendered(&Ast::Link { link_location: ".", tooltip_text: None, inner: vec![] }),
        "<a href=\".\"></a>"
    );
}

#[test]
fn tree_renders_to_a_string() {
    let ast = Ast::Bracketed(vec![Ast::Text("\u{e9}<")]);
    assert_eq!(ast.to_html(), "[\u{e9}&lt;]");
    let mut out = String::from("x");
    ast.write_html(&mut out);
    assert_eq!(out, "x[\u{e9}&lt;]");
}

#[test]
fn wrapped_tree_renders_inside_the_document_shell() {
    let mut out = vec![b'x'];
    ast_to_wrapped_html(&Ast::Root(vec![Ast::Text("\u{2018}")]), &mut out).unwrap();
    assert_eq!(
        String::from_utf8(out).unwrap(),
        format!("x{}\u{2018}{}", DOCUMENT_HEAD, DOCUMENT_TAIL)
    );
}

#[test]
fn children_are_reached_through_the_node() {
    let mut ast = Ast::Header(1, vec![Ast::Text("a")]);
    assert_eq!(ast.children_ref().map(|c| c.len()), Some(1));
    ast.children_mut().unwrap().push(Ast::Text("b"));
    assert_eq!(rendered(&ast), "<h1>ab</h1>");
    let mut leaf = Ast::Text("a");
    assert!(leaf.children_ref().is_none());
    assert!(leaf.children_mut().is_none());
}

#[test]
fn unmatched_error_carries_its_fields() {
    match PqLiteError::unmatched(4, "[[[", "]") {
        PqLiteError::UnmatchedOpen { opening_at_index, opening, expected_close } => {
            assert_eq!(opening_at_index, 4);
            assert_eq!(opening, "[[[");
            assert_eq!(expected_close, "]");
        }
        other => panic!("expected an unmatched opener, got {:?}", other),
    }
}

#[test]
fn outside_errors_convert_into_their_variants() {
    let io = std::io::Error::new(std::io::ErrorKind::Other, "sink");
    assert!(matches!(PqLiteError::from(io), PqLiteError::Io(_)));
    let utf8 = String::from_utf8(vec![0xff]).unwrap_err();
    assert!(matches!(PqLiteError::from(utf8), PqLiteError::Utf8(_)));
}

#[test]
fn link_pass_keeps_the_space_before_the_label() {
    let mut ast = Ast::Root(vec![Ast::Text("see this"), Ast::Bracketed(vec![Ast::Text("u")])]);
    process_brackets(&mut ast);
    match ast {
        Ast::Root(v) => {
            assert_eq!(v.len(), 2);
            assert!(matches!(v[0], Ast::Text("see ")));
            match &v[1] {
                Ast::Link { link_location, tooltip_text, inner } => {
                    assert_eq!(*link_location, "u");
                    assert!(tooltip_text.is_none());
                    assert_eq!(inner.len(), 1);
                    assert!(matches!(inner[0], Ast::Text("this")));
                }
                other => panic!("expected a link, got {:?}", other),
            }
        }
        other => panic!("expected a root, got {:?}", other),
    }
}

#[test]
fn unclosed_comment_expects_three_closing_brackets() {
    let src = Source::new("[[[x");
    let mut index = 3;
    assert!(matches!(
        parse_comment(&src, &mut index, 0),
        Err(PqLiteError::UnmatchedOpen {
            opening_at_index: 0,
            opening: "[[[",
            expected_close: "]]]"
        })
    ));
}

#[test]
fn literal_tree_renders_without_markup() {
    let ast = Ast::Root(vec![
        Ast::Quoted { original_text: "", inner: vec![Ast::Text("<b>")] },
        Ast::Bracketed(vec![
            Ast::Text("a<b>c & "),
            Ast::CurlyBraced(vec![Ast::CowText(Cow::Borrowed("d>e"))]),
        ]),
        Ast::NoBrText("x<y>\nz"),
    ]);
    let out = rendered(&ast);
    assert!(!out.contains('<'));
    assert!(!out.contains('>'));
    assert_eq!(out, "\u{2018}&lt;b&gt;\u{2019}[a&lt;b&gt;c &amp; {d&gt;e}]x&lt;y&gt;\nz");
}
