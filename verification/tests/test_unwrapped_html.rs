use ast_pqlite::pqlite_to_unwrapped_html_string;

/// Regression cases in the fixture format: cases separated by `|`, an empty
/// line and `|`; input and expected output separated by ` (()) `.
const FIXTURE: &str = "a & b < c (()) a &amp; b &lt; c|\n\n|\u{2018}hi\u{2019} (()) \u{2018}hi\u{2019}|\n\n|text[https://example.com] (()) <a href=\"https://example.com\">text</a>|\n\n|a[[[secret]]]b (()) ab|\n\n|>text (()) &gt;text|\n\n|> text\n (()) <blockquote>text</blockquote>\n|\n\n|[unterminated (()) [unterminated|\n\n|*\u{2018}bold\u{2019} (()) <b>bold</b>|\n\n|H(1)\u{2018}Title\u{2019} (()) <h2>Title</h2>";

#[test]
fn test_from_tests_txt() {
    let test_cases = FIXTURE.split("|\n\n|");

    let mut failure = false;

    for case in test_cases {
        let (input, output) = case
            .split_once(" (()) ")
            .unwrap_or_else(|| panic!("badly formatted test case: {:?}", case));

        println!("Running test case {:?}", input);
        let actual_output = pqlite_to_unwrapped_html_string(input).unwrap();

        if actual_output != output {
            println!(
                "test failure:\n expected: {:?}\n   actual: {:?}\nfor input: {:?}",
                output, actual_output, input
            );
            failure = true;
        }
    }
    if failure {
        panic!("one or more fixture cases failed.");
    }
}
