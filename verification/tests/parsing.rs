use precedence_scheduling::decimal::{decimal, digit_for, digit_value, parse_number};
use precedence_scheduling::graph::GraphError;
use precedence_scheduling::parser::{
    FileParser, FileParserError, FileSource, GraphParser, StringParser, StringParserError,
};
use precedence_scheduling::text::{chars_of, is_visible, split_at, strip, strip_whitespace};

fn chars(s: &str) -> Vec<char> {
    s.chars().collect()
}

fn pieces(v: Vec<Vec<char>>) -> Vec<String> {
    v.into_iter().map(|p| p.into_iter().collect()).collect()
}

fn parse_error(source: &str) -> StringParserError {
    match StringParser::parse(source) {
        Ok(_) => panic!("a graph was read"),
        Err(e) => e,
    }
}

#[test]
fn characters_of_a_string() {
    assert_eq!(chars_of("a(1,é)"), vec!['a', '(', '1', ',', 'é', ')']);
    assert_eq!(chars_of(""), Vec::<char>::new());
}

#[test]
fn strip_keeps_what_the_predicate_lets_through() {
    assert_eq!(strip(&chars(" (1, 2) (3 ,4)  "), is_visible), chars("(1,2)(3,4)"));
    assert_eq!(strip(&chars("a1b22c"), |c: char| c.is_ascii_digit()), chars("122"));
    assert_eq!(strip(&chars("abc"), |_c: char| false), chars(""));
}

#[test]
fn whitespace_is_blank_tab_and_line_ends() {
    assert!(!is_visible(' '));
    assert!(!is_visible('\t'));
    assert!(!is_visible('\r'));
    assert!(!is_visible('\n'));
    assert!(is_visible('('));
    assert!(is_visible('0'));
    assert!(is_visible('\u{a0}'));
    assert_eq!(strip_whitespace(&chars(" (1,\t2)\r\n(3 ,4)\n")), chars("(1,2)(3,4)"));
    assert_eq!(strip_whitespace(&chars("abc")), chars("abc"));
    assert_eq!(strip_whitespace(&chars("\n \t\r")), chars(""));
}

#[test]
fn split_gives_one_piece_more_than_separators() {
    assert_eq!(pieces(split_at(&chars("1,2"), ',')), vec!["1", "2"]);
    assert_eq!(pieces(split_at(&chars("12"), ',')), vec!["12"]);
    assert_eq!(pieces(split_at(&chars(""), ',')), vec![""]);
    assert_eq!(pieces(split_at(&chars(",a,,"), ',')), vec!["", "a", "", ""]);
}

#[test]
fn split_at_the_closing_parenthesis() {
    assert_eq!(pieces(split_at(&chars("(1,2)(2,3)"), ')')), vec!["(1,2", "(2,3", ""]);
    assert_eq!(pieces(split_at(&chars("(1,2)(2,3"), ')')), vec!["(1,2", "(2,3"]);
    assert_eq!(pieces(split_at(&chars("))"), ')')), vec!["", "", ""]);
}

#[test]
fn digits_and_their_values() {
    assert_eq!(digit_value('0'), Some(0));
    assert_eq!(digit_value('7'), Some(7));
    assert_eq!(digit_value('9'), Some(9));
    assert_eq!(digit_value('a'), None);
    assert_eq!(digit_value('+'), None);
    assert_eq!(digit_for(0), '0');
    assert_eq!(digit_for(9), '9');
}

#[test]
fn numbers_are_read_as_the_standard_library_reads_them() {
    for text in ["0", "7", "007", "+5", "42", "340282366920938463463374607431768211455",
        "340282366920938463463374607431768211456", "3402823669209384634633746074317682114550",
        "", "+", "-1", "1 ", " 1", "1_0", "12a", "++1", "1+", "٣"] {
        let expected: Option<u128> = text.parse::<u128>().ok();
        assert_eq!(parse_number(&chars(text)), expected, "for {:?}", text);
    }
    assert_eq!(parse_number(&chars("42")), Some(42));
    assert_eq!(parse_number(&chars("+5")), Some(5));
    assert_eq!(
        parse_number(&chars("340282366920938463463374607431768211455")),
        Some(u128::MAX)
    );
    assert_eq!(parse_number(&chars("340282366920938463463374607431768211456")), None);
}

#[test]
fn numbers_are_written_in_decimal() {
    assert_eq!(decimal(0), chars("0"));
    assert_eq!(decimal(9), chars("9"));
    assert_eq!(decimal(10), chars("10"));
    assert_eq!(decimal(1203), chars("1203"));
    assert_eq!(decimal(u128::MAX), chars("340282366920938463463374607431768211455"));
}

#[test]
fn a_number_written_and_read_is_the_number() {
    for n in [0u128, 1, 9, 10, 99, 100, 12345678901234567890, u128::MAX] {
        assert_eq!(parse_number(&decimal(n)), Some(n));
    }
}

#[test]
fn one_pair_is_one_edge() {
    assert_eq!(StringParser::parse_entity(&chars("(1,2")), Ok((1, 2)));
    assert_eq!(StringParser::parse_entity(&chars("(+10,007")), Ok((10, 7)));
    assert_eq!(
        StringParser::parse_entity(&chars("1,2")),
        Err(StringParserError::FailedToParse { str: "1,2".to_string() })
    );
    assert_eq!(
        StringParser::parse_entity(&chars("")),
        Err(StringParserError::FailedToParse { str: "".to_string() })
    );
    assert_eq!(
        StringParser::parse_entity(&chars("(1,2,3")),
        Err(StringParserError::FailedToParse { str: "(1,2,3".to_string() })
    );
    assert_eq!(
        StringParser::parse_entity(&chars("(12")),
        Err(StringParserError::FailedToParse { str: "(12".to_string() })
    );
    assert_eq!(
        StringParser::parse_entity(&chars("(a,2")),
        Err(StringParserError::NodeIsNotNumber { node: "a".to_string() })
    );
    assert_eq!(
        StringParser::parse_entity(&chars("(1,")),
        Err(StringParserError::NodeIsNotNumber { node: "".to_string() })
    );
    assert_eq!(
        StringParser::parse_entity(&chars("(x,y")),
        Err(StringParserError::NodeIsNotNumber { node: "x".to_string() })
    );
    assert_eq!(
        StringParser::parse_entity(&chars("(1,(2")),
        Err(StringParserError::NodeIsNotNumber { node: "(2".to_string() })
    );
}

#[test]
fn a_text_of_pairs_is_a_graph() {
    let g = match StringParser::parse("(1,2)(2,3)(1,3)") {
        Ok(g) => g,
        Err(e) => panic!("no graph: {:?}", e),
    };
    assert_eq!(g.all_nodes(), vec![1, 2, 3]);
    assert_eq!(g.successors(1), vec![2, 3]);
    assert_eq!(g.successors(2), vec![3]);
    assert_eq!(g.predecessors(1), Vec::<u128>::new());
}

#[test]
fn whitespace_is_ignored_wherever_it_stands() {
    let g = match StringParser::parse("  ( 1 , 2 )   (2,3 ) ( 1 0 , 2 ) ") {
        Ok(g) => g,
        Err(e) => panic!("no graph: {:?}", e),
    };
    assert_eq!(g.all_nodes(), vec![1, 2, 3, 10]);
    assert_eq!(g.successors(10), vec![2]);
}

#[test]
fn tabs_and_line_ends_between_pairs_change_nothing() {
    let plain = StringParser::parse("(1,2)(2,3)").map(|g| (g.all_nodes(), g.successors(1), g.successors(2)));
    assert_eq!(plain, Ok((vec![1, 2, 3], vec![2], vec![3])));
    for text in ["(1,2)\t(2,3)", "(1,2)\n(2,3)", "(1,2)\r\n(2,3)", "\t(1,\r2) (\n2,3)\r\n", "( 1 ,2)(2, 3 )"] {
        let spaced = StringParser::parse(text).map(|g| (g.all_nodes(), g.successors(1), g.successors(2)));
        assert_eq!(spaced, plain, "for {:?}", text);
    }
    for (a, b) in [("(1,x)", "( 1 ,\tx )"), ("(1,2)(2,1)", "(1,2)\r\n(2,1)\n"), ("(1;2)", "(1;\t2)")] {
        assert!(StringParser::parse(a).is_err());
        assert!(StringParser::parse(b).is_err());
    }
}

#[test]
fn a_pair_that_is_not_closed_is_no_pair() {
    assert_eq!(
        parse_error("(1,2)(2,3"),
        StringParserError::FailedToParse { str: "(2,3".to_string() }
    );
    assert_eq!(
        parse_error("(1,2"),
        StringParserError::FailedToParse { str: "(1,2".to_string() }
    );
    assert_eq!(
        parse_error("(1,2) 7"),
        StringParserError::FailedToParse { str: "7".to_string() }
    );
    assert_eq!(
        parse_error("(1,2)(x,3)(4,5"),
        StringParserError::NodeIsNotNumber { node: "x".to_string() }
    );
    assert_eq!(
        parse_error("(1,1)(4,5"),
        StringParserError::FailedToParse { str: "(4,5".to_string() }
    );
}

#[test]
fn the_empty_text_is_the_empty_graph() {
    let g = match StringParser::parse("") {
        Ok(g) => g,
        Err(e) => panic!("no graph: {:?}", e),
    };
    assert_eq!(g.len(), 0);
    assert!(StringParser::parse("   ").is_ok());
}

#[test]
fn the_first_bad_piece_is_reported() {
    assert_eq!(
        parse_error("(1,2)(3;4)(a,5)"),
        StringParserError::FailedToParse { str: "(3;4".to_string() }
    );
    assert_eq!(
        parse_error("(1,2)(a,5)(3;4)"),
        StringParserError::NodeIsNotNumber { node: "a".to_string() }
    );
    assert_eq!(
        parse_error("(1,2))"),
        StringParserError::FailedToParse { str: "".to_string() }
    );
    assert_eq!(
        parse_error("(1,2)\u{a0}(2,3)"),
        StringParserError::FailedToParse { str: "\u{a0}(2,3".to_string() }
    );
    assert_eq!(
        parse_error("[1,2)"),
        StringParserError::FailedToParse { str: "[1,2".to_string() }
    );
    assert_eq!(
        parse_error("(1,-2)"),
        StringParserError::NodeIsNotNumber { node: "-2".to_string() }
    );
}

#[test]
fn pairs_that_form_no_graph_are_reported_with_the_reason() {
    assert_eq!(
        parse_error("(1,2) (2,1)"),
        StringParserError::GraphCanNotBeCreated {
            graph: "(1,2) (2,1)".to_string(),
            cause: GraphError::CycleDetected { node: 1 },
        }
    );
    assert_eq!(
        parse_error("(1,2)(3,3)"),
        StringParserError::GraphCanNotBeCreated {
            graph: "(1,2)(3,3)".to_string(),
            cause: GraphError::SelfLoop { node: 3 },
        }
    );
    assert_eq!(
        parse_error("(3,3)(1,2)(2,4)(4,1)"),
        StringParserError::GraphCanNotBeCreated {
            graph: "(3,3)(1,2)(2,4)(4,1)".to_string(),
            cause: GraphError::CycleDetected { node: 1 },
        }
    );
}

#[test]
fn characters_are_parsed_as_the_string_is() {
    let source = "(4,5)(5,6)";
    let a = StringParser::parse(source).map(|g| g.all_nodes());
    let b = StringParser::parse_chars(&chars(source)).map(|g| g.all_nodes());
    assert_eq!(a, b);
    assert_eq!(a, Ok(vec![4, 5, 6]));
}

#[test]
fn a_file_is_parsed_without_its_line_breaks() {
    let g = match FileParser::parse(FileSource { file: "graph.txt", content: Some("(1,2)\n(2,\n3)\n") }) {
        Ok(g) => g,
        Err(e) => panic!("no graph: {:?}", e),
    };
    assert_eq!(g.all_nodes(), vec![1, 2, 3]);
    assert!(g.is_ordered_before(1, 3));
}

#[test]
fn a_file_with_carriage_returns_is_parsed() {
    let g = match FileParser::parse_content("graph.txt", Some("(1,2)\r\n(2,3)")) {
        Ok(g) => g,
        Err(e) => panic!("no graph: {:?}", e),
    };
    assert_eq!(g.all_nodes(), vec![1, 2, 3]);
    assert_eq!(g.successors(1), vec![2]);
    assert_eq!(g.successors(2), vec![3]);
    assert_eq!(g.successors(3), Vec::<u128>::new());
    assert!(FileParser::parse_content("graph.txt", Some("(1,2)\t(2,3) \r\n")).is_ok());
}

#[test]
fn a_file_that_was_not_read_is_reported() {
    assert_eq!(
        FileParser::parse(FileSource { file: "missing.txt", content: None }).map(|g| g.len()),
        Err(FileParserError::FailedToReadFile { file: "missing.txt".to_string() })
    );
}

#[test]
fn a_file_that_holds_no_graph_is_reported_with_its_text() {
    assert_eq!(
        FileParser::parse_content("bad.txt", Some("(1,2)\n(x,3)\n")).map(|g| g.len()),
        Err(FileParserError::FailedToParse {
            content: "(1,2)(x,3)".to_string(),
            file: "bad.txt".to_string(),
            cause: StringParserError::NodeIsNotNumber { node: "x".to_string() },
        })
    );
}
