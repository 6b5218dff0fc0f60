use vstd::prelude::*;

use crate::parse1::{AST, AstV, ast_views};
use crate::text::{chars_of, decimal_text, int_text, same_chars, string_of, strip_chars, unquoted};

verus! {

/// What an import of `cstd` adds to the includes.
pub open spec fn cstd_preamble() -> Seq<char> {
    "#include <unistd.h>\nint STDOUT = 0;\nint STDERR = 1;\n"@
}

/// What an import of `cstd` adds to the helper functions.
pub open spec fn count_helper() -> Seq<char> {
    "int count(const char *str) {\n    int c = 0;\n    while (*str) {\n        c += 1;\n    }\n    return c;\n}\n"@
}

/// The C line of one write statement.
pub open spec fn write_call(stream: i32, text: Seq<char>, size: i32) -> Seq<char> {
    "    write("@ + int_text(stream as int) + ", \""@ + unquoted(text) + "\", "@ + int_text(
        size as int,
    ) + ");\n"@
}

/// The three parts of the C text: includes, helper functions, the body of `main`.
pub struct GenParts {
    pub imports: Seq<char>,
    pub sidef: Seq<char>,
    pub body: Seq<char>,
}

pub open spec fn gen_step(g: GenParts, a: AstV) -> GenParts {
    match a {
        AstV::Cimport(lib) => if lib == "cstd"@ {
            GenParts {
                imports: g.imports + cstd_preamble(),
                sidef: g.sidef + count_helper(),
                body: g.body,
            }
        } else {
            g
        },
        AstV::CWrt(stream, text, size) => GenParts {
            imports: g.imports,
            sidef: g.sidef,
            body: g.body + write_call(stream, text, size),
        },
    }
}

pub open spec fn gen_run(ast: Seq<AstV>) -> GenParts
    decreases ast.len(),
{
    if ast.len() == 0 {
        GenParts { imports: seq![], sidef: seq![], body: seq![] }
    } else {
        gen_step(gen_run(ast.drop_last()), ast.last())
    }
}

/// The C text of a statement sequence: the includes, a blank line, the helper
/// functions, a blank line, then `main` around the write calls, and a newline.
pub open spec fn genc_spec(ast: Seq<AstV>) -> Seq<char> {
    let g = gen_run(ast);
    g.imports + "\n"@ + g.sidef + "\n"@ + "int main(int argc, char const *argv[]) {\n"@ + g.body
        + "\n}"@ + "\n"@
}

/// Generating is a function of the statements alone: two statement sequences with the
/// same contents give the same C text, character for character.
pub proof fn lemma_genc_deterministic(a: Seq<AST>, b: Seq<AST>)
    requires
        ast_views(a) == ast_views(b),
    ensures
        genc_spec(ast_views(a)) == genc_spec(ast_views(b)),
{
}

/// The text without its surrounding single and double quotes.
pub fn trim_quotes(input: &str) -> (r: String)
    ensures
        r@ == unquoted(input@),
{
    string_of(&strip_chars(&chars_of(input), true))
}

/// Generates the C text of a statement sequence.
pub fn genc(ast: &Vec<AST>) -> (r: String)
    ensures
        r@ == genc_spec(ast_views(ast@)),
{
    let ghost av = ast_views(ast@);
    let mut imports = String::new();
    let mut sidef = String::new();
    let mut body = String::new();
    let cstd = chars_of("cstd");
    let mut i: usize = 0;
    assert(av.take(0) =~= seq![]);
    while i < ast.len()
        invariant
            i <= ast@.len(),
            av == ast_views(ast@),
            cstd@ == "cstd"@,
            gen_run(av.take(i as int)) == (GenParts {
                imports: imports@,
                sidef: sidef@,
                body: body@,
            }),
        decreases ast.len() - i,
    {
        assert(av.take(i as int + 1).drop_last() =~= av.take(i as int));
        match &ast[i] {
            AST::Cimport(lib) => {
                if same_chars(&chars_of(lib.as_str()), &cstd) {
                    imports.append("#include <unistd.h>\nint STDOUT = 0;\nint STDERR = 1;\n");
                    sidef.append(
                        "int count(const char *str) {\n    int c = 0;\n    while (*str) {\n        c += 1;\n    }\n    return c;\n}\n",
                    );
                }
            },
            AST::CWrt(stream, text, size) => {
                body.append("    write(");
                body.append(decimal_text(*stream as i128).as_str());
                body.append(", \"");
                body.append(trim_quotes(text.as_str()).as_str());
                body.append("\", ");
                body.append(decimal_text(*size as i128).as_str());
                body.append(");\n");
            },
        }
        i = i + 1;
        assert(gen_run(av.take(i as int)).body =~= body@);
        assert(gen_run(av.take(i as int)).imports =~= imports@);
        assert(gen_run(av.take(i as int)).sidef =~= sidef@);
    }
    assert(av.take(i as int) =~= av);
    let mut c_code = String::new();
    c_code.append(imports.as_str());
    c_code.append("\n");
    c_code.append(sidef.as_str());
    c_code.append("\n");
    c_code.append("int main(int argc, char const *argv[]) {\n");
    c_code.append(body.as_str());
    c_code.append("\n}");
    c_code.append("\n");
    assert(c_code@ =~= genc_spec(av));
    c_code
}

} // verus!
