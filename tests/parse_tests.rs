use neitc::lexer::{lexer, Tokens};
use neitc::parse1::{highlight_parts, parse, split_args, stream_selector, ParseError, AST};

fn run(src: &str) -> Result<Vec<AST>, Vec<ParseError>> {
    let code = src.to_string();
    parse(&lexer(&code), &code)
}

#[test]
fn import_of_cstd_is_recorded_once() {
    let ast = run("cimport cstd\n").unwrap();
    assert_eq!(ast, vec![AST::Cimport("cstd".to_string())]);
}

#[test]
fn write_before_import_reports_missing_import() {
    let errs = run("_wrt(stdout, \"hello\", 5)").unwrap_err();
    assert!(errs.iter().any(|e| matches!(e, ParseError::NoCimport)));
}

#[test]
fn malformed_write_before_import_reports_missing_import() {
    let errs = run("_wrt(stdout)").unwrap_err();
    assert!(errs.iter().any(|e| matches!(e, ParseError::NoCimport)));
}

#[test]
fn write_to_stdout() {
    let ast = run("cimport cstd\n_wrt(stdout, \"hello\", 5)").unwrap();
    assert_eq!(
        ast,
        vec![
            AST::Cimport("cstd".to_string()),
            AST::CWrt(1, "\"hello\"".to_string(), 5)
        ]
    );
}

#[test]
fn comma_inside_quotes_does_not_split() {
    let ast = run("cimport cstd\n_wrt(stderr, \"x,y\", 3)").unwrap();
    assert_eq!(ast[1], AST::CWrt(0, "\"x,y\"".to_string(), 3));
    let argv: Vec<char> = "stderr,\"x,y\",3".chars().collect();
    assert_eq!(split_args(&argv).len(), 3);
}

#[test]
fn space_inside_quotes_is_kept() {
    let ast = run("cimport cstd\n_wrt(stdout, 'a b', 3)").unwrap();
    assert_eq!(ast[1], AST::CWrt(1, "'a b'".to_string(), 3));
}

#[test]
fn quoted_spacing_is_kept_as_written() {
    let ast = run("cimport cstd\n_wrt(stdout, \"hello world\", 11)").unwrap();
    assert_eq!(
        ast,
        vec![
            AST::Cimport("cstd".to_string()),
            AST::CWrt(1, "\"hello world\"".to_string(), 11)
        ]
    );
    let ast = run("cimport cstd\n_wrt(stderr, \" a  b \", 6)").unwrap();
    assert_eq!(ast[1], AST::CWrt(0, "\" a  b \"".to_string(), 6));
}

#[test]
fn empty_argument_list_is_reported() {
    let errs = run("cimport cstd\n_wrt()").unwrap_err();
    assert_eq!(errs.len(), 1);
    match &errs[0] {
        ParseError::InvalidArgument { expected, found, .. } => {
            assert_eq!(expected, "3 arguments");
            assert_eq!(found, "0");
        }
        other => panic!("unexpected {:?}", other),
    }
}

#[test]
fn unknown_library_is_one_diagnostic() {
    let errs = run("cimport foo").unwrap_err();
    assert_eq!(errs.len(), 1);
    match &errs[0] {
        ParseError::InvalidLibrary { name, .. } => assert_eq!(name, "foo"),
        other => panic!("unexpected {:?}", other),
    }
}

#[test]
fn unknown_library_beside_cstd() {
    let errs = run("cimport cstd,foo").unwrap_err();
    assert_eq!(errs.len(), 1);
    assert!(matches!(&errs[0], ParseError::InvalidLibrary { name, .. } if name == "foo"));
}

#[test]
fn non_numeric_length_is_rejected() {
    let errs = run("cimport cstd\n_wrt(stdout, \"x\", \"abc\")").unwrap_err();
    assert_eq!(errs.len(), 1);
    match &errs[0] {
        ParseError::InvalidArgument { expected, found, .. } => {
            assert_eq!(expected, "integer");
            assert_eq!(found, "\"abc\"");
        }
        other => panic!("unexpected {:?}", other),
    }
}

#[test]
fn wrong_argument_count() {
    let errs = run("cimport cstd\n_wrt(stdout, \"x\")").unwrap_err();
    match &errs[0] {
        ParseError::InvalidArgument { expected, found, .. } => {
            assert_eq!(expected, "3 arguments");
            assert_eq!(found, "2");
        }
        other => panic!("unexpected {:?}", other),
    }
}

#[test]
fn bad_stream_is_reported_lowercased() {
    let errs = run("cimport cstd\n_wrt(STDIN, \"x\", 1)").unwrap_err();
    match &errs[0] {
        ParseError::InvalidArgument { expected, found, .. } => {
            assert_eq!(expected, "stdout or stderr");
            assert_eq!(found, "stdin");
        }
        other => panic!("unexpected {:?}", other),
    }
}

#[test]
fn stream_is_case_insensitive_and_length_signed() {
    let ast = run("cimport cstd\n_wrt(StdErr, \"x\", -3)").unwrap();
    assert_eq!(ast[1], AST::CWrt(0, "\"x\"".to_string(), -3));
}

#[test]
fn unknown_function_is_reported_with_its_line() {
    let errs = run("_foo(x)\nsecond").unwrap_err();
    assert_eq!(errs.len(), 2);
    assert!(matches!(&errs[0], ParseError::NoCimport));
    match &errs[1] {
        ParseError::InvalidFunction { line, name, code_line } => {
            assert_eq!(*line, 1);
            assert_eq!(name, "foo");
            assert_eq!(code_line, "_foo(x)");
        }
        other => panic!("unexpected {:?}", other),
    }
}

#[test]
fn diagnostics_name_their_source_line() {
    let errs = run("cimport cstd\n\n_wrt(stdout, \"x\", abc)\ncimport bad").unwrap_err();
    assert_eq!(errs.len(), 2);
    match &errs[0] {
        ParseError::InvalidArgument { line, code_line, .. } => {
            assert_eq!(*line, 3);
            assert_eq!(code_line, "_wrt(stdout, \"x\", abc)");
        }
        other => panic!("unexpected {:?}", other),
    }
    match &errs[1] {
        ParseError::InvalidLibrary { line, code_line, .. } => {
            assert_eq!(*line, 4);
            assert_eq!(code_line, "cimport bad");
        }
        other => panic!("unexpected {:?}", other),
    }
}

#[test]
fn invalid_character_in_import_list() {
    let errs = run("cimport cstd;").unwrap_err();
    assert_eq!(errs.len(), 1);
    assert!(matches!(&errs[0], ParseError::InvalidCharacter { col: 0, .. }));
}

#[test]
fn stream_selector_values() {
    assert_eq!(stream_selector(&"stdout".to_string()), Some(1));
    assert_eq!(stream_selector(&"stderr".to_string()), Some(0));
    assert_eq!(stream_selector(&"STDOUT".to_string()), None);
}

#[test]
fn highlight_split_is_clamped() {
    assert_eq!(highlight_parts("abcd", 1), ("a".to_string(), "bcd".to_string()));
    assert_eq!(highlight_parts("ab", 9), ("ab".to_string(), String::new()));
    assert_eq!(highlight_parts("", 0), (String::new(), String::new()));
}

#[test]
fn diagnostic_messages() {
    let errs = run("_foo(x)\ncimport bad\ncimport cstd\n_wrt(stdout, \"x\", y)").unwrap_err();
    let messages: Vec<String> = errs.iter().map(|e| e.message()).collect();
    assert_eq!(
        messages,
        vec![
            "No import of cstd found".to_string(),
            "Invalid function 'foo' at line 1".to_string(),
            "Invalid library 'bad' at line 2".to_string(),
            "Expected 'integer' but found 'y' at line 4".to_string(),
        ]
    );
    let errs = run("cimport cstd;").unwrap_err();
    assert_eq!(errs[0].message(), "Invalid character at line 1, col 0");
}

fn chars(s: &str) -> Vec<Tokens> {
    s.chars().map(|c| Tokens::Char(0, 0, c)).collect()
}

#[test]
fn single_space_token_inside_quotes_is_kept() {
    let mut toks = vec![Tokens::CImport];
    toks.extend(chars("cstd"));
    toks.extend([Tokens::Eol, Tokens::Underscore]);
    toks.extend(chars("wrt"));
    toks.push(Tokens::LSB);
    toks.extend(chars("stdout"));
    toks.extend([Tokens::Comma, Tokens::Space, Tokens::DQ]);
    toks.extend(chars("a"));
    toks.push(Tokens::Space);
    toks.extend(chars("b"));
    toks.extend([Tokens::DQ, Tokens::Comma, Tokens::Space]);
    toks.extend(chars("3"));
    toks.extend([Tokens::RSB, Tokens::Eol, Tokens::Eof]);
    let ast = parse(&toks, &String::new()).unwrap();
    assert_eq!(
        ast,
        vec![AST::Cimport("cstd".to_string()), AST::CWrt(1, "\"a b\"".to_string(), 3)]
    );
}

#[test]
fn word_closing_space_before_end_of_line_is_dropped() {
    let mut toks = vec![Tokens::CImport];
    toks.extend(chars("cstd"));
    toks.extend([Tokens::Eol, Tokens::Underscore]);
    toks.extend(chars("wrt"));
    toks.push(Tokens::LSB);
    toks.extend(chars("stdout"));
    toks.extend([Tokens::Comma, Tokens::DQ]);
    toks.extend(chars("a"));
    toks.extend([Tokens::Space, Tokens::Space]);
    toks.extend(chars("b"));
    toks.extend([Tokens::DQ, Tokens::Comma]);
    toks.extend(chars("3"));
    toks.extend([Tokens::Eol, Tokens::Eof]);
    let ast = parse(&toks, &String::new()).unwrap();
    assert_eq!(ast[1], AST::CWrt(1, "\"a b\"".to_string(), 3));
}

#[test]
fn import_list_records_each_name_in_order() {
    let errs = run("cimport a, cstd,,b ,cstd").unwrap_err();
    let names: Vec<String> = errs
        .iter()
        .map(|e| match e {
            ParseError::InvalidLibrary { name, .. } => name.clone(),
            other => panic!("unexpected {:?}", other),
        })
        .collect();
    assert_eq!(names, vec!["a".to_string(), "b".to_string()]);
}
