use neitc::lexer::{checkwrd, lexer, Tokens};

#[test]
fn lexes_import_line() {
    let toks = lexer(&"cimport cstd".to_string());
    let expected = vec![
        Tokens::Char(1, 0, 'c'),
        Tokens::Char(2, 0, 'i'),
        Tokens::Char(3, 0, 'm'),
        Tokens::Char(4, 0, 'p'),
        Tokens::Char(5, 0, 'o'),
        Tokens::Char(6, 0, 'r'),
        Tokens::Char(7, 0, 't'),
        Tokens::CImport,
        Tokens::Space,
        Tokens::Char(9, 0, 'c'),
        Tokens::Char(10, 0, 's'),
        Tokens::Char(11, 0, 't'),
        Tokens::Char(12, 0, 'd'),
        Tokens::Space,
        Tokens::Space,
        Tokens::Eol,
        Tokens::Eof,
    ];
    assert_eq!(toks, expected);
}

#[test]
fn lexes_empty_source() {
    assert_eq!(lexer(&String::new()), vec![Tokens::Space, Tokens::Eol, Tokens::Eof]);
}

#[test]
fn newline_resets_column_and_counts_lines() {
    let toks = lexer(&"a\nb".to_string());
    let expected = vec![
        Tokens::Char(1, 0, 'a'),
        Tokens::Space,
        Tokens::Eol,
        Tokens::Char(1, 1, 'b'),
        Tokens::Space,
        Tokens::Space,
        Tokens::Eol,
        Tokens::Eof,
    ];
    assert_eq!(toks, expected);
}

#[test]
fn lexes_punctuation() {
    let toks = lexer(&"_(){}[];,\"'".to_string());
    let expected = vec![
        Tokens::Underscore,
        Tokens::LSB,
        Tokens::RSB,
        Tokens::LCurlyB,
        Tokens::RCurlyBrace,
        Tokens::LBBracket,
        Tokens::RBBracket,
        Tokens::SColon,
        Tokens::Comma,
        Tokens::DQ,
        Tokens::SQ,
        Tokens::Space,
        Tokens::Eol,
        Tokens::Eof,
    ];
    assert_eq!(toks, expected);
}

#[test]
fn surrounding_whitespace_is_dropped() {
    assert_eq!(lexer(&"  \n x \n".to_string()), lexer(&"x".to_string()));
}

#[test]
fn checkwrd_finds_keyword() {
    assert_eq!(checkwrd(&"cimport".to_string()), Tokens::CImport);
    assert_eq!(checkwrd(&" cimport\r".to_string()), Tokens::CImport);
    assert_eq!(checkwrd(&"cimports".to_string()), Tokens::Space);
    assert_eq!(checkwrd(&String::new()), Tokens::Space);
}
