use vstd::prelude::*;

use crate::lexer::Tokens;
use crate::text::{
    chars_of, decimal_text, i32_of_text, int_text, is_quote, line_text, lower_of, lowercase,
    parse_i32, same_chars, source_line, string_of, strip_chars, trimmed,
};

verus! {

/// A diagnostic recorded while parsing.
#[derive(Debug)]
pub enum ParseError {
    InvalidCharacter { line: usize, col: usize, code_line: String },
    InvalidLibrary { line: usize, name: String, code_line: String },
    UnexpectedToken { line: usize, token: String, code_line: String },
    UnterminatedString { line: usize, code_line: String },
    InvalidFunction { line: usize, name: String, code_line: String },
    InvalidArgument {
        line: usize,
        expected: String,
        found: String,
        code_line: String,
        code: String,
    },
    NoCimport,
}

/// A statement of the program.
#[derive(Debug, PartialEq, Eq)]
pub enum AST {
    /// An imported library; only `cstd` is ever recorded.
    Cimport(String),
    /// A write: the stream (1 for `stdout`, 0 for `stderr`), the text as written, the length.
    CWrt(i32, String, i32),
}

/// A diagnostic, with its texts as character sequences.
pub enum ErrV {
    InvalidCharacter { line: nat, col: nat, code_line: Seq<char> },
    InvalidLibrary { line: nat, name: Seq<char>, code_line: Seq<char> },
    UnexpectedToken { line: nat, token: Seq<char>, code_line: Seq<char> },
    UnterminatedString { line: nat, code_line: Seq<char> },
    InvalidFunction { line: nat, name: Seq<char>, code_line: Seq<char> },
    InvalidArgument {
        line: nat,
        expected: Seq<char>,
        found: Seq<char>,
        code_line: Seq<char>,
        code: Seq<char>,
    },
    NoCimport,
}

/// A statement, with its texts as character sequences.
pub enum AstV {
    Cimport(Seq<char>),
    CWrt(i32, Seq<char>, i32),
}

impl View for ParseError {
    type V = ErrV;

    open spec fn view(&self) -> ErrV {
        match self {
            ParseError::InvalidCharacter { line, col, code_line } => ErrV::InvalidCharacter {
                line: *line as nat,
                col: *col as nat,
                code_line: code_line@,
            },
            ParseError::InvalidLibrary { line, name, code_line } => ErrV::InvalidLibrary {
                line: *line as nat,
                name: name@,
                code_line: code_line@,
            },
            ParseError::UnexpectedToken { line, token, code_line } => ErrV::UnexpectedToken {
                line: *line as nat,
                token: token@,
                code_line: code_line@,
            },
            ParseError::UnterminatedString { line, code_line } => ErrV::UnterminatedString {
                line: *line as nat,
                code_line: code_line@,
            },
            ParseError::InvalidFunction { line, name, code_line } => ErrV::InvalidFunction {
                line: *line as nat,
                name: name@,
                code_line: code_line@,
            },
            ParseError::InvalidArgument { line, expected, found, code_line, code } =>
                ErrV::InvalidArgument {
                line: *line as nat,
                expected: expected@,
                found: found@,
                code_line: code_line@,
                code: code@,
            },
            ParseError::NoCimport => ErrV::NoCimport,
        }
    }
}

impl View for AST {
    type V = AstV;

    open spec fn view(&self) -> AstV {
        match self {
            AST::Cimport(lib) => AstV::Cimport(lib@),
            AST::CWrt(stream, text, size) => AstV::CWrt(*stream, text@, *size),
        }
    }
}

pub open spec fn ast_views(a: Seq<AST>) -> Seq<AstV> {
    a.map_values(|x: AST| x@)
}

pub open spec fn err_views(e: Seq<ParseError>) -> Seq<ErrV> {
    e.map_values(|x: ParseError| x@)
}

/// Where the parser stands: between statements, inside an import list, reading a
/// function name, reading the arguments of a write (with the quote state), or stopped
/// at the end of the input. The last flag of a function name or of write arguments
/// says whether a word is open: a character has come since the last space, end of
/// line, `;` or keyword. The tokenizer closes an open word with one more space
/// token, just before the space or end of line that ended it. So write arguments
/// hold back (last flag) a space that comes while a word is open: it is the closing
/// token, and dropped, when a space or end of line follows; else it stands for a
/// space of the source.
pub enum Mode {
    Top,
    Imports(Seq<char>),
    FnName(Seq<char>, bool),
    WriteArgs(Seq<char>, bool, char, bool, bool),
    Done,
}

/// The parser's state after a prefix of the tokens.
pub struct PState {
    pub mode: Mode,
    pub line: int,
    pub ast: Seq<AstV>,
    pub errs: Seq<ErrV>,
}

pub open spec fn with_mode(st: PState, m: Mode) -> PState {
    PState { mode: m, line: st.line, ast: st.ast, errs: st.errs }
}

pub open spec fn with_err(st: PState, e: ErrV) -> PState {
    PState { mode: st.mode, line: st.line, ast: st.ast, errs: st.errs.push(e) }
}

pub open spec fn with_node(st: PState, a: AstV) -> PState {
    PState { mode: st.mode, line: st.line, ast: st.ast.push(a), errs: st.errs }
}

/// The source line that a diagnostic at parser line `line` shows.
pub open spec fn code_line_of(code: Seq<char>, line: int) -> Seq<char> {
    line_text(code, (line - 1) as nat)
}

/// Whether the statements hold an import of `cstd`.
pub open spec fn has_cstd(ast: Seq<AstV>) -> bool {
    exists|k: int| 0 <= k < ast.len() && ast[k] == AstV::Cimport("cstd"@)
}

/// The end of one library name in an import list.
pub open spec fn close_lib(code: Seq<char>, st: PState, cur: Seq<char>) -> PState {
    if cur.len() == 0 {
        st
    } else if cur == "cstd"@ {
        with_node(st, AstV::Cimport(cur))
    } else {
        with_err(
            st,
            ErrV::InvalidLibrary { line: st.line as nat, name: cur, code_line: code_line_of(code, st.line) },
        )
    }
}

/// The end of a function name: the import check, then the write arguments or an error.
pub open spec fn after_name(code: Seq<char>, st: PState, name: Seq<char>, word: bool) -> PState {
    let st1 = if has_cstd(st.ast) {
        st
    } else {
        with_err(st, ErrV::NoCimport)
    };
    if trimmed(name) == "wrt"@ {
        with_mode(st1, Mode::WriteArgs(seq![], false, ' ', word, false))
    } else {
        with_mode(
            with_err(
                st1,
                ErrV::InvalidFunction { line: st1.line as nat, name, code_line: code_line_of(code, st1.line) },
            ),
            Mode::Top,
        )
    }
}

/// The argument splitter's state: the finished parts, the current part, the quote state.
pub struct SplitState {
    pub parts: Seq<Seq<char>>,
    pub cur: Seq<char>,
    pub inq: bool,
    pub qc: char,
}

pub open spec fn split_step(s: SplitState, c: char) -> SplitState {
    if s.inq {
        SplitState { parts: s.parts, cur: s.cur.push(c), inq: c != s.qc, qc: s.qc }
    } else if is_quote(c) {
        SplitState { parts: s.parts, cur: s.cur.push(c), inq: true, qc: c }
    } else if c == ',' {
        SplitState { parts: s.parts.push(trimmed(s.cur)), cur: seq![], inq: false, qc: s.qc }
    } else {
        SplitState { parts: s.parts, cur: s.cur.push(c), inq: false, qc: s.qc }
    }
}

pub open spec fn split_run(a: Seq<char>) -> SplitState
    decreases a.len(),
{
    if a.len() == 0 {
        SplitState { parts: seq![], cur: seq![], inq: false, qc: ' ' }
    } else {
        split_step(split_run(a.drop_last()), a.last())
    }
}

/// The arguments of a write: split on each comma outside quotes, each part trimmed;
/// a last part that is empty before trimming is dropped.
pub open spec fn split_parts(a: Seq<char>) -> Seq<Seq<char>> {
    let s = split_run(a);
    if s.cur.len() > 0 {
        s.parts.push(trimmed(s.cur))
    } else {
        s.parts
    }
}

/// The stream code of a lowercased selector: 1 for `stdout`, 0 for `stderr`.
pub open spec fn selector_of(s: Seq<char>) -> Option<i32> {
    if s == "stdout"@ {
        Some(1i32)
    } else if s == "stderr"@ {
        Some(0i32)
    } else {
        None
    }
}

pub open spec fn bad_argument(
    code: Seq<char>,
    st: PState,
    expected: Seq<char>,
    found: Seq<char>,
) -> PState {
    with_err(
        st,
        ErrV::InvalidArgument {
            line: st.line as nat,
            expected,
            found,
            code_line: code_line_of(code, st.line),
            code,
        },
    )
}

/// The checks on the three arguments of a write, given its selector lowercased.
pub open spec fn check_write(
    code: Seq<char>,
    st: PState,
    parts: Seq<Seq<char>>,
    first: Seq<char>,
) -> PState {
    if parts.len() != 3 {
        bad_argument(code, st, "3 arguments"@, int_text(parts.len() as int))
    } else {
        match selector_of(first) {
            None => bad_argument(code, st, "stdout or stderr"@, first),
            Some(sel) => match i32_of_text(trimmed(parts[2])) {
                None => bad_argument(code, st, "integer"@, trimmed(parts[2])),
                Some(n) => with_node(st, AstV::CWrt(sel, parts[1], n)),
            },
        }
    }
}

/// The collected characters of a write's arguments, checked.
pub open spec fn process_write(code: Seq<char>, st: PState, argv: Seq<char>) -> PState {
    let parts = split_parts(argv);
    check_write(code, st, parts, if parts.len() == 3 { lower_of(trimmed(parts[0])) } else { seq![] })
}

/// The end of a write's arguments. The arguments are checked when the end of the
/// line closes them, and when the input ends after some of them.
pub open spec fn write_done(code: Seq<char>, st: PState, argv: Seq<char>, eol: bool) -> PState {
    with_mode(if argv.len() > 0 || eol { process_write(code, st, argv) } else { st }, Mode::Top)
}

/// The state on the next source line.
pub open spec fn next_line(st: PState) -> PState {
    PState { mode: st.mode, line: st.line + 1, ast: st.ast, errs: st.errs }
}

/// A token after which no word of the source is open.
pub open spec fn ends_word(t: Tokens) -> bool {
    t is Space || t is Eol || t is SColon || t is CImport
}

/// The parser on one token.
pub open spec fn parse_step(code: Seq<char>, st: PState, t: Tokens) -> PState {
    match st.mode {
        Mode::Done => st,
        Mode::Top => match t {
            Tokens::Eof => with_mode(st, Mode::Done),
            Tokens::Eol => next_line(st),
            Tokens::CImport => with_mode(st, Mode::Imports(seq![])),
            Tokens::Underscore => with_mode(st, Mode::FnName(seq![], false)),
            _ => st,
        },
        Mode::Imports(cur) => match t {
            Tokens::Eof => with_mode(st, Mode::Top),
            Tokens::Char(_, _, c) => with_mode(st, Mode::Imports(cur.push(c))),
            Tokens::Comma => with_mode(close_lib(code, st, cur), Mode::Imports(seq![])),
            Tokens::Eol => next_line(with_mode(close_lib(code, st, cur), Mode::Top)),
            Tokens::Space => st,
            _ => with_err(
                st,
                ErrV::InvalidCharacter { line: st.line as nat, col: 0, code_line: code_line_of(code, st.line) },
            ),
        },
        Mode::FnName(name, word) => match t {
            Tokens::Eof => after_name(code, st, name, word),
            Tokens::LSB => after_name(code, st, name, word),
            Tokens::Char(_, _, c) => with_mode(st, Mode::FnName(name.push(c), true)),
            Tokens::Eol => next_line(with_mode(st, Mode::FnName(name, false))),
            _ => if ends_word(t) {
                with_mode(st, Mode::FnName(name, false))
            } else {
                st
            },
        },
        Mode::WriteArgs(held_argv, inq, qc, word, held) => {
            let argv = if held && !(t is Space || t is Eol) {
                with_held(held_argv, inq, held)
            } else {
                held_argv
            };
            match t {
                Tokens::Eof => write_done(code, st, argv, false),
                Tokens::Eol => next_line(write_done(code, st, argv, true)),
                Tokens::DQ => with_mode(st, quote_mode(argv, inq, qc, '"', word)),
                Tokens::SQ => with_mode(st, quote_mode(argv, inq, qc, '\'', word)),
                Tokens::Char(_, _, c) => with_mode(
                    st,
                    Mode::WriteArgs(argv.push(c), inq, qc, true, false),
                ),
                Tokens::Space => if word {
                    with_mode(st, Mode::WriteArgs(argv, inq, qc, false, true))
                } else if inq {
                    with_mode(st, Mode::WriteArgs(argv.push(' '), inq, qc, false, false))
                } else {
                    with_mode(st, Mode::WriteArgs(argv, inq, qc, false, false))
                },
                Tokens::Comma => with_mode(st, Mode::WriteArgs(argv.push(','), inq, qc, word, false)),
                _ => with_mode(st, Mode::WriteArgs(argv, inq, qc, word && !ends_word(t), false)),
            }
        },
    }
}

/// The arguments with a held-back space put in, where it is inside quotes.
pub open spec fn with_held(argv: Seq<char>, inq: bool, held: bool) -> Seq<char> {
    if held && inq {
        argv.push(' ')
    } else {
        argv
    }
}

/// A quote character inside a write's arguments: it opens a quoted region, or
/// closes the one that the same character opened.
pub open spec fn quote_mode(argv: Seq<char>, inq: bool, qc: char, q: char, word: bool) -> Mode {
    if !inq {
        Mode::WriteArgs(argv.push(q), true, q, word, false)
    } else if qc == q {
        Mode::WriteArgs(argv.push(q), false, qc, word, false)
    } else {
        Mode::WriteArgs(argv.push(q), inq, qc, word, false)
    }
}

pub open spec fn parse_init() -> PState {
    PState { mode: Mode::Top, line: 1, ast: seq![], errs: seq![] }
}

/// The parser's state after the tokens `toks`.
pub open spec fn parse_run(code: Seq<char>, toks: Seq<Tokens>) -> PState
    decreases toks.len(),
{
    if toks.len() == 0 {
        parse_init()
    } else {
        parse_step(code, parse_run(code, toks.drop_last()), toks.last())
    }
}

/// What is left to do when the tokens run out: a function name or write arguments
/// that were cut short are still checked.
pub open spec fn finish(code: Seq<char>, st: PState) -> PState {
    match st.mode {
        Mode::FnName(name, word) => with_mode(after_name(code, st, name, word), Mode::Top),
        Mode::WriteArgs(argv, inq, _, _, held) => write_done(code, st, with_held(argv, inq, held), false),
        _ => st,
    }
}

/// The statements and diagnostics of a token sequence.
pub open spec fn parse_spec(code: Seq<char>, toks: Seq<Tokens>) -> PState {
    finish(code, parse_run(code, toks))
}


/// Tokens that end an import list or a write's arguments.
pub open spec fn line_stop() -> spec_fn(Tokens) -> bool {
    |t: Tokens| t is Eol || t is Eof
}

/// Tokens that end a function name.
pub open spec fn name_stop() -> spec_fn(Tokens) -> bool {
    |t: Tokens| t is LSB || t is Eof
}

/// `to` is one past the first token from `from` on that `stop` accepts, or the end
/// of the tokens when there is none.
pub open spec fn scan_end(
    toks: Seq<Tokens>,
    from: int,
    to: int,
    stop: spec_fn(Tokens) -> bool,
) -> bool {
    ||| (from < to <= toks.len() && stop(toks[to - 1]) && forall|k: int|
        from <= k < to - 1 ==> !stop(#[trigger] toks[k]))
    ||| (0 <= from <= to == toks.len() && forall|k: int| from <= k < to ==> !stop(#[trigger] toks[k]))
}

/// The compilation state that the sub-parsers share.
struct ParseContext {
    errors: Vec<ParseError>,
    line: usize,
    col: usize,
}

impl ParseContext {
    fn new() -> (r: Self)
        ensures
            r.errors@ == Seq::<ParseError>::empty(),
            r.line == 1,
            r.col == 0,
    {
        Self { errors: Vec::new(), line: 1, col: 0 }
    }

    fn add_error(&mut self, error: ParseError)
        ensures
            final(self).errors@ == old(self).errors@.push(error),
            final(self).line == old(self).line,
            final(self).col == old(self).col,
    {
        self.errors.push(error);
    }
}

/// The parser state that the statements and the context stand for, in mode `m`.
spec fn state_of(m: Mode, ast: Seq<AST>, ctx: ParseContext) -> PState {
    PState { mode: m, line: ctx.line as int, ast: ast_views(ast), errs: err_views(ctx.errors@) }
}

/// Two states with the same statements, diagnostics and line.
pub open spec fn same_data(a: PState, b: PState) -> bool {
    a.line == b.line && a.ast == b.ast && a.errs == b.errs
}

spec fn ctx_ok(ctx: ParseContext) -> bool {
    ctx.line >= 1 && ctx.col == 0
}

/// The state after one more token is one step from the state before it.
pub proof fn lemma_run_next(code: Seq<char>, toks: Seq<Tokens>, i: int)
    requires
        0 <= i < toks.len(),
    ensures
        parse_run(code, toks.take(i + 1)) == parse_step(code, parse_run(code, toks.take(i)), toks[i]),
{
    assert(toks.take(i + 1).drop_last() =~= toks.take(i));
}

proof fn lemma_done_stays(code: Seq<char>, toks: Seq<Tokens>, i: int, j: int)
    requires
        0 <= i <= j <= toks.len(),
        parse_run(code, toks.take(i)).mode == Mode::Done,
    ensures
        parse_run(code, toks.take(j)) == parse_run(code, toks.take(i)),
    decreases j - i,
{
    if j > i {
        lemma_done_stays(code, toks, i, j - 1);
        lemma_run_next(code, toks, j - 1);
    }
}

fn code_line(code: &String, line: usize) -> (r: String)
    requires
        line >= 1,
    ensures
        r@ == code_line_of(code@, line as int),
{
    source_line(code.as_str(), line - 1)
}

/// The stream code of a lowercased selector: `Some(1)` for `stdout`, `Some(0)` for
/// `stderr`, `None` for anything else.
pub fn stream_selector(first: &String) -> (r: Option<i32>)
    ensures
        r == selector_of(first@),
{
    let f = chars_of(first.as_str());
    if same_chars(&f, &chars_of("stdout")) {
        Some(1)
    } else if same_chars(&f, &chars_of("stderr")) {
        Some(0)
    } else {
        None
    }
}

/// Splits the characters of a write's arguments on each comma outside quotes,
/// each part trimmed.
pub fn split_args(argv: &Vec<char>) -> (r: Vec<Vec<char>>)
    ensures
        r@.map_values(|p: Vec<char>| p@) == split_parts(argv@),
{
    let mut parts: Vec<Vec<char>> = Vec::new();
    let mut cur: Vec<char> = Vec::new();
    let mut inq = false;
    let mut qc = ' ';
    let mut i: usize = 0;
    assert(argv@.take(0) =~= seq![]);
    assert(parts@.map_values(|p: Vec<char>| p@) =~= seq![]);
    while i < argv.len()
        invariant
            i <= argv@.len(),
            split_run(argv@.take(i as int)) == (SplitState {
                parts: parts@.map_values(|p: Vec<char>| p@),
                cur: cur@,
                inq,
                qc,
            }),
        decreases argv.len() - i,
    {
        assert(argv@.take(i as int + 1).drop_last() =~= argv@.take(i as int));
        let c = argv[i];
        let ghost old_parts = parts@;
        if inq {
            cur.push(c);
            if c == qc {
                inq = false;
            }
        } else if c == '"' || c == '\'' {
            inq = true;
            qc = c;
            cur.push(c);
        } else if c == ',' {
            let ghost old_cur = cur@;
            parts.push(strip_chars(&cur, false));
            cur = Vec::new();
            assert(parts@.map_values(|p: Vec<char>| p@) =~= old_parts.map_values(
                |p: Vec<char>| p@,
            ).push(trimmed(old_cur)));
        } else {
            cur.push(c);
        }
        i = i + 1;
    }
    assert(argv@.take(i as int) =~= argv@);
    if cur.len() > 0 {
        let ghost old_parts = parts@;
        parts.push(strip_chars(&cur, false));
        assert(parts@.map_values(|p: Vec<char>| p@) =~= old_parts.map_values(|p: Vec<char>| p@).push(
            trimmed(cur@),
        ));
    }
    parts
}

fn bad_argument_error(code: &String, line: usize, expected: &str, found: String) -> (r: ParseError)
    requires
        line >= 1,
    ensures
        r@ == (ErrV::InvalidArgument {
            line: line as nat,
            expected: expected@,
            found: found@,
            code_line: code_line_of(code@, line as int),
            code: code@,
        }),
{
    ParseError::InvalidArgument {
        line,
        expected: String::from_str(expected),
        found,
        code_line: code_line(code, line),
        code: code.clone(),
    }
}

/// Checks the collected characters of a write's arguments and records the write or
/// a diagnostic.
fn process_write_args(argv: &Vec<char>, ast: &mut Vec<AST>, ctx: &mut ParseContext, code: &String)
    requires
        ctx_ok(*old(ctx)),
    ensures
        ctx_ok(*final(ctx)),
        same_data(
            state_of(Mode::Top, final(ast)@, *final(ctx)),
            process_write(code@, state_of(Mode::Top, old(ast)@, *old(ctx)), argv@),
        ),
{
    let ghost st = state_of(Mode::Top, old(ast)@, *old(ctx));
    let parts = split_args(argv);
    let ghost pv = parts@.map_values(|p: Vec<char>| p@);
    assert(pv.len() == parts@.len());
    if parts.len() != 3 {
        let e = bad_argument_error(code, ctx.line, "3 arguments", decimal_text(parts.len() as i128));
        ctx.add_error(e);
        assert(err_views(ctx.errors@) =~= st.errs.push(e@));
        return;
    }
    assert(pv[0] == parts@[0]@ && pv[1] == parts@[1]@ && pv[2] == parts@[2]@);
    let first = lowercase(string_of(&strip_chars(&parts[0], false)).as_str());
    let sel = match stream_selector(&first) {
        Some(s) => s,
        None => {
            let e = bad_argument_error(code, ctx.line, "stdout or stderr", first);
            ctx.add_error(e);
            assert(err_views(ctx.errors@) =~= st.errs.push(e@));
            return;
        },
    };
    let size_str = string_of(&strip_chars(&parts[2], false));
    let size = match parse_i32(size_str.as_str()) {
        Some(n) => n,
        None => {
            let e = bad_argument_error(code, ctx.line, "integer", size_str);
            ctx.add_error(e);
            assert(err_views(ctx.errors@) =~= st.errs.push(e@));
            return;
        },
    };
    let node = AST::CWrt(sel, string_of(&parts[1]), size);
    ast.push(node);
    assert(ast_views(ast@) =~= st.ast.push(node@));
}

/// Records a missing import of `cstd`, when no statement so far imports it.
fn checkci(ast: &Vec<AST>, ctx: &mut ParseContext)
    ensures
        final(ctx).line == old(ctx).line,
        final(ctx).col == old(ctx).col,
        err_views(final(ctx).errors@) == (if has_cstd(ast_views(ast@)) {
            err_views(old(ctx).errors@)
        } else {
            err_views(old(ctx).errors@).push(ErrV::NoCimport)
        }),
{
    let ghost av = ast_views(ast@);
    let cstd = chars_of("cstd");
    let mut cif = false;
    let mut i: usize = 0;
    while i < ast.len()
        invariant
            i <= ast@.len(),
            av == ast_views(ast@),
            cstd@ == "cstd"@,
            cif == exists|k: int| 0 <= k < i && av[k] == AstV::Cimport("cstd"@),
        decreases ast.len() - i,
    {
        let found = match &ast[i] {
            AST::Cimport(lib) => same_chars(&chars_of(lib.as_str()), &cstd),
            AST::CWrt(_, _, _) => false,
        };
        assert(found == (av[i as int] == AstV::Cimport("cstd"@)));
        if found {
            cif = true;
        }
        i = i + 1;
    }
    if !cif {
        let ghost before = ctx.errors@;
        ctx.add_error(ParseError::NoCimport);
        assert(err_views(ctx.errors@) =~= err_views(before).push(ErrV::NoCimport));
    }
}

/// Ends one library name of an import list: records the import, or a diagnostic.
fn close_import(curlib: &Vec<char>, ast: &mut Vec<AST>, ctx: &mut ParseContext, code: &String)
    requires
        ctx_ok(*old(ctx)),
    ensures
        ctx_ok(*final(ctx)),
        state_of(Mode::Top, final(ast)@, *final(ctx)) == close_lib(
            code@,
            state_of(Mode::Top, old(ast)@, *old(ctx)),
            curlib@,
        ),
{
    let ghost st = state_of(Mode::Top, old(ast)@, *old(ctx));
    if curlib.len() > 0 {
        if same_chars(curlib, &chars_of("cstd")) {
            let node = AST::Cimport(string_of(curlib));
            ast.push(node);
            assert(ast_views(ast@) =~= st.ast.push(node@));
        } else {
            let e = ParseError::InvalidLibrary {
                line: ctx.line,
                name: string_of(curlib),
                code_line: code_line(code, ctx.line),
            };
            ctx.add_error(e);
            assert(err_views(ctx.errors@) =~= st.errs.push(e@));
        }
    }
}

/// Reads an import list, up to the end of its line.
fn parse_imports(
    toks: &Vec<Tokens>,
    pos: &mut usize,
    ast: &mut Vec<AST>,
    ctx: &mut ParseContext,
    code: &String,
)
    requires
        *old(pos) <= toks@.len() < usize::MAX,
        ctx_ok(*old(ctx)),
        old(ctx).line <= *old(pos) + 1,
        parse_run(code@, toks@.take(*old(pos) as int)) == state_of(
            Mode::Imports(seq![]),
            old(ast)@,
            *old(ctx),
        ),
    ensures
        *old(pos) <= *final(pos) <= toks@.len(),
        scan_end(toks@, *old(pos) as int, *final(pos) as int, line_stop()),
        ctx_ok(*final(ctx)),
        final(ctx).line <= *final(pos) + 1,
        *final(pos) < toks@.len() ==> parse_run(code@, toks@.take(*final(pos) as int))
            == state_of(Mode::Top, final(ast)@, *final(ctx)),
        same_data(
            finish(code@, parse_run(code@, toks@.take(*final(pos) as int))),
            state_of(Mode::Top, final(ast)@, *final(ctx)),
        ),
{
    let ghost pos0 = *pos;
    let mut curlib: Vec<char> = Vec::new();
    assert(curlib@ =~= seq![]);
    while *pos < toks.len()
        invariant
            pos0 == *old(pos),
            pos0 <= *pos <= toks@.len() < usize::MAX,
            ctx_ok(*ctx),
            ctx.line <= *pos + 1,
            parse_run(code@, toks@.take(*pos as int)) == state_of(
                Mode::Imports(curlib@),
                ast@,
                *ctx,
            ),
            forall|k: int| pos0 <= k < *pos ==> !(line_stop())(#[trigger] toks@[k]),
        decreases toks@.len() - *pos,
    {
        proof {
            lemma_run_next(code@, toks@, *pos as int);
        }
        let ghost st = state_of(Mode::Imports(curlib@), ast@, *ctx);
        let t = &toks[*pos];
        *pos = *pos + 1;
        match t {
            Tokens::Eof => {
                return ;
            },
            Tokens::Char(_, _, c) => {
                curlib.push(*c);
            },
            Tokens::Comma => {
                close_import(&curlib, ast, ctx, code);
                curlib = Vec::new();
                assert(curlib@ =~= seq![]);
            },
            Tokens::Eol => {
                close_import(&curlib, ast, ctx, code);
                ctx.line = ctx.line + 1;
                return ;
            },
            Tokens::Space => {},
            _ => {
                let e = ParseError::InvalidCharacter {
                    line: ctx.line,
                    col: ctx.col,
                    code_line: code_line(code, ctx.line),
                };
                ctx.add_error(e);
                assert(err_views(ctx.errors@) =~= st.errs.push(e@));
            },
        }
    }
}

/// Reads the arguments of a write, up to the end of its line, and checks them. A
/// space token that closes a word is no space of the source and is passed over.
fn parse_write(
    toks: &Vec<Tokens>,
    pos: &mut usize,
    ast: &mut Vec<AST>,
    ctx: &mut ParseContext,
    code: &String,
    word: bool,
)
    requires
        *old(pos) <= toks@.len() < usize::MAX,
        ctx_ok(*old(ctx)),
        old(ctx).line <= *old(pos) + 1,
        parse_run(code@, toks@.take(*old(pos) as int)) == state_of(
            Mode::WriteArgs(seq![], false, ' ', word, false),
            old(ast)@,
            *old(ctx),
        ),
    ensures
        *old(pos) <= *final(pos) <= toks@.len(),
        scan_end(toks@, *old(pos) as int, *final(pos) as int, line_stop()),
        ctx_ok(*final(ctx)),
        final(ctx).line <= *final(pos) + 1,
        *final(pos) < toks@.len() ==> parse_run(code@, toks@.take(*final(pos) as int))
            == state_of(Mode::Top, final(ast)@, *final(ctx)),
        same_data(
            finish(code@, parse_run(code@, toks@.take(*final(pos) as int))),
            state_of(Mode::Top, final(ast)@, *final(ctx)),
        ),
{
    let ghost pos0 = *pos;
    let mut argv: Vec<char> = Vec::new();
    let mut in_quotes = false;
    let mut quote_char = ' ';
    let mut in_word = word;
    let mut held = false;
    let mut closed = false;
    let mut at_eol = false;
    assert(argv@ =~= seq![]);
    while *pos < toks.len() && !closed
        invariant
            pos0 == *old(pos),
            pos0 <= *pos <= toks@.len() < usize::MAX,
            ctx_ok(*ctx),
            ast@ == old(ast)@,
            *ctx == *old(ctx),
            ctx.line <= *pos + 1,
            !closed ==> !at_eol,
            closed ==> !held,
            !closed ==> forall|k: int| pos0 <= k < *pos ==> !(line_stop())(#[trigger] toks@[k]),
            closed ==> pos0 < *pos && (line_stop())(toks@[*pos - 1]) && forall|k: int|
                pos0 <= k < *pos - 1 ==> !(line_stop())(#[trigger] toks@[k]),
            !closed ==> parse_run(code@, toks@.take(*pos as int)) == state_of(
                Mode::WriteArgs(argv@, in_quotes, quote_char, in_word, held),
                ast@,
                *ctx,
            ),
            closed && at_eol ==> ctx.line <= *pos && parse_run(code@, toks@.take(*pos as int))
                == next_line(
                write_done(
                    code@,
                    state_of(Mode::WriteArgs(argv@, in_quotes, quote_char, in_word, held), ast@, *ctx),
                    argv@,
                    true,
                ),
            ),
            closed && !at_eol ==> parse_run(code@, toks@.take(*pos as int)) == write_done(
                code@,
                state_of(Mode::WriteArgs(argv@, in_quotes, quote_char, in_word, held), ast@, *ctx),
                argv@,
                false,
            ),
        decreases toks@.len() - *pos,
    {
        proof {
            lemma_run_next(code@, toks@, *pos as int);
        }
        let t = &toks[*pos];
        *pos = *pos + 1;
        if held {
            if in_quotes && !(matches!(t, Tokens::Space) || matches!(t, Tokens::Eol)) {
                argv.push(' ');
            }
            held = false;
        }
        match t {
            Tokens::Eof => {
                closed = true;
            },
            Tokens::Eol => {
                closed = true;
                at_eol = true;
            },
            Tokens::DQ => {
                if !in_quotes {
                    in_quotes = true;
                    quote_char = '"';
                } else if quote_char == '"' {
                    in_quotes = false;
                }
                argv.push('"');
            },
            Tokens::SQ => {
                if !in_quotes {
                    in_quotes = true;
                    quote_char = '\'';
                } else if quote_char == '\'' {
                    in_quotes = false;
                }
                argv.push('\'');
            },
            Tokens::Char(_, _, c) => {
                argv.push(*c);
                in_word = true;
            },
            Tokens::Space => {
                if in_word {
                    held = true;
                } else if in_quotes {
                    argv.push(' ');
                }
                in_word = false;
            },
            Tokens::Comma => {
                argv.push(',');
            },
            Tokens::SColon | Tokens::CImport => {
                in_word = false;
            },
            _ => {},
        }
    }
    if held && in_quotes {
        argv.push(' ');
    }
    if argv.len() > 0 || at_eol {
        process_write_args(&argv, ast, ctx, code);
    }
    if at_eol {
        ctx.line = ctx.line + 1;
    }
}

/// Reads a function name up to `(`, checks that `cstd` was imported, and reads the
/// call's arguments when the function is `wrt`.
fn parse_function(
    toks: &Vec<Tokens>,
    pos: &mut usize,
    ast: &mut Vec<AST>,
    ctx: &mut ParseContext,
    code: &String,
)
    requires
        *old(pos) <= toks@.len() < usize::MAX,
        ctx_ok(*old(ctx)),
        old(ctx).line <= *old(pos) + 1,
        parse_run(code@, toks@.take(*old(pos) as int)) == state_of(
            Mode::FnName(seq![], false),
            old(ast)@,
            *old(ctx),
        ),
    ensures
        *old(pos) <= *final(pos) <= toks@.len(),
        exists|mid: int|
            scan_end(toks@, *old(pos) as int, mid, name_stop()) && (*final(pos) == mid || scan_end(
                toks@,
                mid,
                *final(pos) as int,
                line_stop(),
            )),
        ctx_ok(*final(ctx)),
        final(ctx).line <= *final(pos) + 1,
        *final(pos) < toks@.len() ==> parse_run(code@, toks@.take(*final(pos) as int))
            == state_of(Mode::Top, final(ast)@, *final(ctx)),
        same_data(
            finish(code@, parse_run(code@, toks@.take(*final(pos) as int))),
            state_of(Mode::Top, final(ast)@, *final(ctx)),
        ),
{
    let ghost pos0 = *pos;
    let mut fn_name: Vec<char> = Vec::new();
    let mut in_word = false;
    let mut closed = false;
    assert(fn_name@ =~= seq![]);
    while *pos < toks.len() && !closed
        invariant
            pos0 == *old(pos),
            pos0 <= *pos <= toks@.len() < usize::MAX,
            ast@ == old(ast)@,
            ctx_ok(*ctx),
            ctx.line <= *pos + 1,
            ctx.errors@ == old(ctx).errors@,
            !closed ==> parse_run(code@, toks@.take(*pos as int)) == state_of(
                Mode::FnName(fn_name@, in_word),
                ast@,
                *ctx,
            ),
            !closed ==> forall|k: int| pos0 <= k < *pos ==> !(name_stop())(#[trigger] toks@[k]),
            closed ==> pos0 < *pos && (name_stop())(toks@[*pos - 1]) && forall|k: int|
                pos0 <= k < *pos - 1 ==> !(name_stop())(#[trigger] toks@[k]),
            closed ==> parse_run(code@, toks@.take(*pos as int)) == after_name(
                code@,
                state_of(Mode::FnName(fn_name@, in_word), ast@, *ctx),
                fn_name@,
                in_word,
            ),
        decreases toks@.len() - *pos,
    {
        proof {
            lemma_run_next(code@, toks@, *pos as int);
        }
        let t = &toks[*pos];
        *pos = *pos + 1;
        match t {
            Tokens::Eof => {
                closed = true;
            },
            Tokens::LSB => {
                closed = true;
            },
            Tokens::Char(_, _, c) => {
                fn_name.push(*c);
                in_word = true;
            },
            Tokens::Eol => {
                in_word = false;
                ctx.line = ctx.line + 1;
            },
            Tokens::Space | Tokens::SColon | Tokens::CImport => {
                in_word = false;
            },
            _ => {},
        }
    }
    let ghost mid = *pos as int;
    assert(scan_end(toks@, pos0 as int, mid, name_stop()));
    let ghost base = state_of(Mode::FnName(fn_name@, in_word), ast@, *ctx);
    checkci(ast, ctx);
    let ghost st1 = if has_cstd(base.ast) {
        base
    } else {
        with_err(base, ErrV::NoCimport)
    };
    assert(state_of(Mode::FnName(fn_name@, in_word), ast@, *ctx) == st1);
    let trimmed_name = strip_chars(&fn_name, false);
    if same_chars(&trimmed_name, &chars_of("wrt")) {
        if closed {
            parse_write(toks, pos, ast, ctx, code, in_word);
        }
    } else {
        let e = ParseError::InvalidFunction {
            line: ctx.line,
            name: string_of(&fn_name),
            code_line: code_line(code, ctx.line),
        };
        ctx.add_error(e);
        assert(err_views(ctx.errors@) =~= st1.errs.push(e@));
    }
}

/// Parses a token sequence into its statements. The result is `Ok` with the
/// statements when no diagnostic was recorded, and `Err` with every diagnostic, in
/// the order they were found, otherwise. Diagnostics name the source line, counted
/// from 1 by the end-of-line tokens before them.
pub fn parse(toks: &Vec<Tokens>, code: &String) -> (r: Result<Vec<AST>, Vec<ParseError>>)
    requires
        toks@.len() < usize::MAX,
    ensures
        match r {
            Ok(a) => parse_spec(code@, toks@).errs.len() == 0 && ast_views(a@) == parse_spec(
                code@,
                toks@,
            ).ast,
            Err(e) => parse_spec(code@, toks@).errs.len() > 0 && err_views(e@) == parse_spec(
                code@,
                toks@,
            ).errs,
        },
{
    let mut ctx = ParseContext::new();
    let mut ast: Vec<AST> = Vec::new();
    let mut pos: usize = 0;
    let mut done = false;
    assert(toks@.take(0) =~= seq![]);
    assert(ast_views(ast@) =~= seq![]);
    assert(err_views(ctx.errors@) =~= seq![]);
    while pos < toks.len() && !done
        invariant
            pos <= toks@.len() < usize::MAX,
            ctx_ok(ctx),
            ctx.line <= pos + 1,
            done ==> parse_run(code@, toks@.take(pos as int)) == state_of(Mode::Done, ast@, ctx),
            !done && pos < toks@.len() ==> parse_run(code@, toks@.take(pos as int)) == state_of(
                Mode::Top,
                ast@,
                ctx,
            ),
            !done ==> same_data(
                finish(code@, parse_run(code@, toks@.take(pos as int))),
                state_of(Mode::Top, ast@, ctx),
            ),
        decreases toks@.len() - pos,
    {
        proof {
            lemma_run_next(code@, toks@, pos as int);
        }
        let t = &toks[pos];
        pos = pos + 1;
        match t {
            Tokens::Eof => {
                done = true;
            },
            Tokens::Eol => {
                ctx.line = ctx.line + 1;
            },
            Tokens::CImport => {
                parse_imports(toks, &mut pos, &mut ast, &mut ctx, code);
            },
            Tokens::Underscore => {
                parse_function(toks, &mut pos, &mut ast, &mut ctx, code);
            },
            _ => {},
        }
    }
    proof {
        if done {
            lemma_done_stays(code@, toks@, pos as int, toks@.len() as int);
        }
        assert(toks@.take(toks@.len() as int) =~= toks@);
    }
    if ctx.errors.len() > 0 {
        Err(ctx.errors)
    } else {
        Ok(ast)
    }
}

/// The message of a diagnostic, without its source line.
pub open spec fn message_of(e: ErrV) -> Seq<char> {
    match e {
        ErrV::InvalidCharacter { line, col, .. } => "Invalid character at line "@ + int_text(
            line as int,
        ) + ", col "@ + int_text(col as int),
        ErrV::InvalidLibrary { line, name, .. } => "Invalid library '"@ + name + "' at line "@
            + int_text(line as int),
        ErrV::UnexpectedToken { line, token, .. } => "Unexpected token '"@ + token
            + "' at line "@ + int_text(line as int),
        ErrV::UnterminatedString { line, .. } => "Unterminated string at line "@ + int_text(
            line as int,
        ),
        ErrV::InvalidFunction { line, name, .. } => "Invalid function '"@ + name
            + "' at line "@ + int_text(line as int),
        ErrV::InvalidArgument { line, expected, found, .. } => "Expected '"@ + expected
            + "' but found '"@ + found + "' at line "@ + int_text(line as int),
        ErrV::NoCimport => "No import of cstd found"@,
    }
}

impl ParseError {
    /// The diagnostic's message, as it is shown after "Error: ".
    pub fn message(&self) -> (r: String)
        ensures
            r@ == message_of(self@),
    {
        let mut m = String::new();
        match self {
            ParseError::InvalidCharacter { line, col, .. } => {
                m.append("Invalid character at line ");
                m.append(decimal_text(*line as i128).as_str());
                m.append(", col ");
                m.append(decimal_text(*col as i128).as_str());
            },
            ParseError::InvalidLibrary { line, name, .. } => {
                m.append("Invalid library '");
                m.append(name.as_str());
                m.append("' at line ");
                m.append(decimal_text(*line as i128).as_str());
            },
            ParseError::UnexpectedToken { line, token, .. } => {
                m.append("Unexpected token '");
                m.append(token.as_str());
                m.append("' at line ");
                m.append(decimal_text(*line as i128).as_str());
            },
            ParseError::UnterminatedString { line, .. } => {
                m.append("Unterminated string at line ");
                m.append(decimal_text(*line as i128).as_str());
            },
            ParseError::InvalidFunction { line, name, .. } => {
                m.append("Invalid function '");
                m.append(name.as_str());
                m.append("' at line ");
                m.append(decimal_text(*line as i128).as_str());
            },
            ParseError::InvalidArgument { line, expected, found, .. } => {
                m.append("Expected '");
                m.append(expected.as_str());
                m.append("' but found '");
                m.append(found.as_str());
                m.append("' at line ");
                m.append(decimal_text(*line as i128).as_str());
            },
            ParseError::NoCimport => {
                m.append("No import of cstd found");
            },
        }
        proof {
            assert(m@ =~= message_of(self@));
        }
        m
    }
}

/// The column at which a diagnostic's highlight starts, held within the line.
pub open spec fn clamp_col(line: Seq<char>, col: nat) -> int {
    if col <= line.len() {
        col as int
    } else {
        line.len() as int
    }
}

/// Splits a source line for display at column `col`: the part before it and the
/// highlighted part from it on. A column past the end of the line highlights nothing.
pub fn highlight_parts(code_line: &str, col: usize) -> (r: (String, String))
    ensures
        r.0@ == code_line@.take(clamp_col(code_line@, col as nat)),
        r.1@ == code_line@.skip(clamp_col(code_line@, col as nat)),
{
    let chars = chars_of(code_line);
    let k = if col <= chars.len() {
        col
    } else {
        chars.len()
    };
    let mut before: Vec<char> = Vec::new();
    let mut after: Vec<char> = Vec::new();
    let mut i: usize = 0;
    while i < chars.len()
        invariant
            k <= chars@.len(),
            i <= chars@.len(),
            before@ == chars@.take(if i < k { i as int } else { k as int }),
            after@ == (if i <= k { seq![] } else { chars@.subrange(k as int, i as int) }),
        decreases chars.len() - i,
    {
        if i < k {
            before.push(chars[i]);
            assert(before@ =~= chars@.take(i as int + 1));
        } else {
            after.push(chars[i]);
            assert(after@ =~= chars@.subrange(k as int, i as int + 1));
        }
        i = i + 1;
    }
    assert(before@ =~= chars@.take(k as int));
    assert(after@ =~= chars@.skip(k as int));
    (string_of(&before), string_of(&after))
}

} // verus!
