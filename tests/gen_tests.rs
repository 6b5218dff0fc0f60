use neitc::gen::{genc, trim_quotes};
use neitc::lexer::lexer;
use neitc::parse1::{parse, AST};

const PREAMBLE: &str = "#include <unistd.h>\nint STDOUT = 0;\nint STDERR = 1;\n";
const COUNT: &str = "int count(const char *str) {\n    int c = 0;\n    while (*str) {\n        c += 1;\n    }\n    return c;\n}\n";

#[test]
fn generates_empty_program() {
    assert_eq!(genc(&Vec::new()), "\n\nint main(int argc, char const *argv[]) {\n\n}\n");
}

#[test]
fn generates_write_call() {
    let code = "cimport cstd\n_wrt(stdout, \"hello\", 5)".to_string();
    let ast = parse(&lexer(&code), &code).unwrap();
    let expected = format!(
        "{}\n{}\nint main(int argc, char const *argv[]) {{\n    write(1, \"hello\", 5);\n\n}}\n",
        PREAMBLE, COUNT
    );
    assert_eq!(genc(&ast), expected);
}

#[test]
fn generates_negative_length_and_single_quotes() {
    let ast = vec![AST::CWrt(0, "'ab'".to_string(), -12)];
    assert_eq!(
        genc(&ast),
        "\n\nint main(int argc, char const *argv[]) {\n    write(0, \"ab\", -12);\n\n}\n"
    );
}

#[test]
fn other_library_adds_nothing() {
    let ast = vec![AST::Cimport("other".to_string())];
    assert_eq!(genc(&ast), genc(&Vec::new()));
}

#[test]
fn generation_is_repeatable() {
    let ast = vec![
        AST::Cimport("cstd".to_string()),
        AST::CWrt(1, "\"a\"".to_string(), 1),
        AST::CWrt(0, "\"b\"".to_string(), 2),
    ];
    let again = vec![
        AST::Cimport("cstd".to_string()),
        AST::CWrt(1, "\"a\"".to_string(), 1),
        AST::CWrt(0, "\"b\"".to_string(), 2),
    ];
    assert_eq!(genc(&ast), genc(&again));
}

#[test]
fn trim_quotes_strips_both_kinds() {
    assert_eq!(trim_quotes("\"'x'\""), "x");
    assert_eq!(trim_quotes("a\"b"), "a\"b");
    assert_eq!(trim_quotes("\"\""), "");
}
