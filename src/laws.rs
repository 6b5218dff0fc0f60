use vstd::prelude::*;

use crate::lexer::Tokens;
use crate::parse1::{
    AstV, ErrV, Mode, PState, SplitState, after_name, close_lib, split_parts, code_line_of,
    finish, has_cstd, lemma_run_next, next_line, split_run, parse_run, parse_spec, parse_step, process_write, selector_of, split_step,
    write_done,
};
use crate::text::{i32_of_text, is_quote, is_white, lower_of, trimmed};

verus! {

/// `a` continues `b`: it holds `b` as its beginning.
pub open spec fn extends<T>(a: Seq<T>, b: Seq<T>) -> bool {
    b.len() <= a.len() && a.take(b.len() as int) == b
}

/// The diagnostics after the first `n` hold no missing import.
pub open spec fn no_missing_import_after(errs: Seq<ErrV>, n: int) -> bool {
    forall|k: int| n <= k < errs.len() ==> errs[k] != ErrV::NoCimport
}

/// What any step of the parser keeps: the statements and diagnostics so far stay, and
/// once `cstd` is imported no missing import is recorded.
pub open spec fn keeps(a: PState, b: PState) -> bool {
    &&& extends(b.ast, a.ast)
    &&& extends(b.errs, a.errs)
    &&& (has_cstd(a.ast) ==> no_missing_import_after(b.errs, a.errs.len() as int))
}

proof fn lemma_push_keeps<T>(s: Seq<T>, x: T)
    ensures
        extends(s.push(x), s),
{
    assert(s.push(x).take(s.len() as int) =~= s);
}

proof fn lemma_same_extends<T>(s: Seq<T>)
    ensures
        extends(s, s),
{
    assert(s.take(s.len() as int) =~= s);
}

proof fn lemma_has_cstd_push(ast: Seq<AstV>, a: AstV)
    ensures
        has_cstd(ast) ==> has_cstd(ast.push(a)),
{
    if has_cstd(ast) {
        let k = choose|k: int| 0 <= k < ast.len() && ast[k] == AstV::Cimport("cstd"@);
        assert(ast.push(a)[k] == AstV::Cimport("cstd"@));
    }
}

proof fn lemma_keeps_push_node(st: PState, a: AstV, m: Mode)
    ensures
        keeps(st, PState { mode: m, line: st.line, ast: st.ast.push(a), errs: st.errs }),
{
    lemma_push_keeps(st.ast, a);
    lemma_same_extends(st.errs);
    lemma_has_cstd_push(st.ast, a);
}

proof fn lemma_keeps_push_err(st: PState, e: ErrV, m: Mode)
    requires
        e != ErrV::NoCimport,
    ensures
        keeps(st, PState { mode: m, line: st.line, ast: st.ast, errs: st.errs.push(e) }),
{
    lemma_same_extends(st.ast);
    lemma_push_keeps(st.errs, e);
}

proof fn lemma_keeps_same(st: PState, m: Mode, line: int)
    ensures
        keeps(st, PState { mode: m, line, ast: st.ast, errs: st.errs }),
{
    lemma_same_extends(st.ast);
    lemma_same_extends(st.errs);
}

proof fn lemma_keeps_trans(a: PState, b: PState, c: PState)
    requires
        keeps(a, b),
        keeps(b, c),
    ensures
        keeps(a, c),
{
    assert(c.ast.take(a.ast.len() as int) =~= c.ast.take(b.ast.len() as int).take(a.ast.len() as int));
    assert(c.errs.take(a.errs.len() as int) =~= c.errs.take(b.errs.len() as int).take(
        a.errs.len() as int,
    ));
    if has_cstd(a.ast) {
        let k = choose|k: int| 0 <= k < a.ast.len() && a.ast[k] == AstV::Cimport("cstd"@);
        assert(b.ast.take(a.ast.len() as int)[k] == b.ast[k]);
        assert(has_cstd(b.ast));
        assert forall|k: int| a.errs.len() <= k < c.errs.len() implies c.errs[k]
            != ErrV::NoCimport by {
            if k < b.errs.len() {
                assert(c.errs.take(b.errs.len() as int)[k] == c.errs[k]);
            }
        }
    }
}

proof fn lemma_keeps_with_mode(a: PState, b: PState, m: Mode)
    requires
        keeps(a, b),
    ensures
        keeps(a, PState { mode: m, line: b.line, ast: b.ast, errs: b.errs }),
{
}

proof fn lemma_process_keeps(code: Seq<char>, st: PState, argv: Seq<char>)
    ensures
        keeps(st, process_write(code, st, argv)),
{
    let parts = crate::parse1::split_parts(argv);
    let first = if parts.len() == 3 {
        crate::text::lower_of(trimmed(parts[0]))
    } else {
        seq![]
    };
    if parts.len() != 3 {
        lemma_keeps_push_err(st, ErrV::InvalidArgument {
            line: st.line as nat,
            expected: "3 arguments"@,
            found: crate::text::int_text(parts.len() as int),
            code_line: code_line_of(code, st.line),
            code,
        }, st.mode);
    } else {
        match selector_of(first) {
            None => lemma_keeps_push_err(st, ErrV::InvalidArgument {
                line: st.line as nat,
                expected: "stdout or stderr"@,
                found: first,
                code_line: code_line_of(code, st.line),
                code,
            }, st.mode),
            Some(sel) => match i32_of_text(trimmed(parts[2])) {
                None => lemma_keeps_push_err(st, ErrV::InvalidArgument {
                    line: st.line as nat,
                    expected: "integer"@,
                    found: trimmed(parts[2]),
                    code_line: code_line_of(code, st.line),
                    code,
                }, st.mode),
                Some(n) => lemma_keeps_push_node(st, AstV::CWrt(sel, parts[1], n), st.mode),
            },
        }
    }
}

proof fn lemma_write_done_keeps(code: Seq<char>, st: PState, argv: Seq<char>, eol: bool)
    ensures
        keeps(st, write_done(code, st, argv, eol)),
        keeps(st, next_line(write_done(code, st, argv, eol))),
{
    if argv.len() > 0 || eol {
        lemma_process_keeps(code, st, argv);
    } else {
        lemma_keeps_same(st, Mode::Top, st.line);
    }
}

proof fn lemma_after_name_keeps(code: Seq<char>, st: PState, name: Seq<char>, word: bool)
    ensures
        keeps(st, after_name(code, st, name, word)),
{
    let st1 = if has_cstd(st.ast) {
        st
    } else {
        crate::parse1::with_err(st, ErrV::NoCimport)
    };
    if has_cstd(st.ast) {
        lemma_keeps_same(st, st.mode, st.line);
    } else {
        lemma_same_extends(st.ast);
        lemma_push_keeps(st.errs, ErrV::NoCimport);
    }
    if trimmed(name) == "wrt"@ {
        lemma_keeps_with_mode(st, st1, Mode::WriteArgs(seq![], false, ' ', word, false));
    } else {
        let e = ErrV::InvalidFunction {
            line: st1.line as nat,
            name,
            code_line: code_line_of(code, st1.line),
        };
        lemma_keeps_push_err(st1, e, Mode::Top);
        lemma_keeps_trans(st, st1, after_name(code, st, name, word));
    }
}

proof fn lemma_close_lib_keeps(code: Seq<char>, st: PState, cur: Seq<char>)
    ensures
        keeps(st, close_lib(code, st, cur)),
{
    if cur.len() == 0 {
        lemma_keeps_same(st, st.mode, st.line);
    } else if cur == "cstd"@ {
        lemma_keeps_push_node(st, AstV::Cimport(cur), st.mode);
    } else {
        lemma_keeps_push_err(st, ErrV::InvalidLibrary {
            line: st.line as nat,
            name: cur,
            code_line: code_line_of(code, st.line),
        }, st.mode);
    }
}

proof fn lemma_step_keeps(code: Seq<char>, st: PState, t: Tokens)
    ensures
        keeps(st, parse_step(code, st, t)),
{
    match st.mode {
        Mode::Done => lemma_keeps_same(st, st.mode, st.line),
        Mode::Top => lemma_keeps_same(
            st,
            parse_step(code, st, t).mode,
            parse_step(code, st, t).line,
        ),
        Mode::Imports(cur) => match t {
            Tokens::Comma => lemma_close_lib_keeps(code, st, cur),
            Tokens::Eol => lemma_close_lib_keeps(code, st, cur),
            Tokens::Eof => lemma_keeps_same(st, Mode::Top, st.line),
            Tokens::Char(_, _, c) => lemma_keeps_same(st, Mode::Imports(cur.push(c)), st.line),
            Tokens::Space => lemma_keeps_same(st, st.mode, st.line),
            _ => lemma_keeps_push_err(st, ErrV::InvalidCharacter {
                line: st.line as nat,
                col: 0,
                code_line: code_line_of(code, st.line),
            }, st.mode),
        },
        Mode::FnName(name, word) => match t {
            Tokens::Eof => lemma_after_name_keeps(code, st, name, word),
            Tokens::LSB => lemma_after_name_keeps(code, st, name, word),
            _ => lemma_keeps_same(st, parse_step(code, st, t).mode, parse_step(code, st, t).line),
        },
        Mode::WriteArgs(argv0, inq, qc, word, held) => match t {
            Tokens::Eof => lemma_write_done_keeps(code, st, crate::parse1::with_held(argv0, inq, held), false),
            Tokens::Eol => lemma_write_done_keeps(code, st, argv0, true),
            _ => lemma_keeps_same(st, parse_step(code, st, t).mode, st.line),
        },
    }
}

proof fn lemma_run_keeps(code: Seq<char>, toks: Seq<Tokens>, i: int, j: int)
    requires
        0 <= i <= j <= toks.len(),
    ensures
        keeps(parse_run(code, toks.take(i)), parse_run(code, toks.take(j))),
    decreases j - i,
{
    let a = parse_run(code, toks.take(i));
    if j == i {
        lemma_keeps_same(a, a.mode, a.line);
        assert(PState { mode: a.mode, line: a.line, ast: a.ast, errs: a.errs } == a);
    } else {
        lemma_run_keeps(code, toks, i, j - 1);
        assert(toks.take(j).drop_last() =~= toks.take(j - 1));
        let b = parse_run(code, toks.take(j - 1));
        lemma_step_keeps(code, b, toks[j - 1]);
        lemma_keeps_trans(a, b, parse_run(code, toks.take(j)));
    }
}

proof fn lemma_finish_keeps(code: Seq<char>, st: PState)
    ensures
        keeps(st, finish(code, st)),
{
    match st.mode {
        Mode::FnName(name, word) => lemma_after_name_keeps(code, st, name, word),
        Mode::WriteArgs(argv, inq, _, _, held) => lemma_write_done_keeps(
            code,
            st,
            crate::parse1::with_held(argv, inq, held),
            false,
        ),
        _ => {
            lemma_keeps_same(st, st.mode, st.line);
            assert(PState { mode: st.mode, line: st.line, ast: st.ast, errs: st.errs } == st);
        },
    }
}

/// Whatever the parser has recorded after a prefix of the tokens stays in the final
/// result, and once `cstd` has been imported no missing import is reported.
pub proof fn lemma_parse_keeps_prefix(code: Seq<char>, toks: Seq<Tokens>, i: int)
    requires
        0 <= i <= toks.len(),
    ensures
        keeps(parse_run(code, toks.take(i)), parse_spec(code, toks)),
{
    lemma_run_keeps(code, toks, i, toks.len() as int);
    assert(toks.take(toks.len() as int) =~= toks);
    lemma_finish_keeps(code, parse_run(code, toks));
    lemma_keeps_trans(parse_run(code, toks.take(i)), parse_run(code, toks), parse_spec(code, toks));
}

/// An import line `cstd`, closed by the end of the line, records exactly one import
/// of `cstd` and no diagnostic, and the parse then reports no missing import from
/// there on.
pub proof fn lemma_cstd_import(code: Seq<char>, toks: Seq<Tokens>, i: int)
    requires
        0 <= i,
        i + 5 <= toks.len(),
        parse_run(code, toks.take(i)).mode == Mode::Imports(seq![]),
        toks[i] matches Tokens::Char(_, _, c) && c == 'c',
        toks[i + 1] matches Tokens::Char(_, _, c) && c == 's',
        toks[i + 2] matches Tokens::Char(_, _, c) && c == 't',
        toks[i + 3] matches Tokens::Char(_, _, c) && c == 'd',
        toks[i + 4] matches Tokens::Eol,
    ensures
        ({
            let before = parse_run(code, toks.take(i));
            let after = parse_run(code, toks.take(i + 5));
            &&& after.mode == Mode::Top
            &&& after.ast == before.ast.push(AstV::Cimport("cstd"@))
            &&& after.errs == before.errs
            &&& has_cstd(after.ast)
            &&& no_missing_import_after(parse_spec(code, toks).errs, after.errs.len() as int)
        }),
{
    let st = parse_run(code, toks.take(i));
    assert(toks.take(i + 1).drop_last() =~= toks.take(i));
    assert(Seq::<char>::empty().push('c') =~= seq!['c']);
    assert(parse_run(code, toks.take(i + 1)) == crate::parse1::with_mode(st, Mode::Imports(seq!['c'])));
    assert(toks.take(i + 2).drop_last() =~= toks.take(i + 1));
    assert(seq!['c'].push('s') =~= seq!['c', 's']);
    assert(parse_run(code, toks.take(i + 2)) == crate::parse1::with_mode(st, Mode::Imports(seq!['c', 's'])));
    assert(toks.take(i + 3).drop_last() =~= toks.take(i + 2));
    assert(seq!['c', 's'].push('t') =~= seq!['c', 's', 't']);
    assert(parse_run(code, toks.take(i + 3)) == crate::parse1::with_mode(st, Mode::Imports(seq!['c', 's', 't'])));
    assert(toks.take(i + 4).drop_last() =~= toks.take(i + 3));
    assert(seq!['c', 's', 't'].push('d') =~= seq!['c', 's', 't', 'd']);
    assert(parse_run(code, toks.take(i + 4)) == crate::parse1::with_mode(
        st,
        Mode::Imports(seq!['c', 's', 't', 'd']),
    ));
    assert(toks.take(i + 5).drop_last() =~= toks.take(i + 4));
    reveal_strlit("cstd");
    assert(seq!['c', 's', 't', 'd'] =~= "cstd"@);
    let after = parse_run(code, toks.take(i + 5));
    assert(after.ast[after.ast.len() - 1] == AstV::Cimport("cstd"@));
    lemma_parse_keeps_prefix(code, toks, i + 5);
}

/// A function call read before any import of `cstd` records a missing import, and
/// the parse as a whole then fails with that diagnostic among its own.
pub proof fn lemma_call_without_import(code: Seq<char>, toks: Seq<Tokens>, i: int)
    requires
        0 <= i < toks.len(),
        parse_run(code, toks.take(i)).mode matches Mode::FnName(_, _),
        !has_cstd(parse_run(code, toks.take(i)).ast),
        toks[i] matches Tokens::LSB,
    ensures
        parse_run(code, toks.take(i + 1)).errs.contains(ErrV::NoCimport),
        parse_spec(code, toks).errs.contains(ErrV::NoCimport),
        parse_spec(code, toks).errs.len() > 0,
{
    let st = parse_run(code, toks.take(i));
    assert(toks.take(i + 1).drop_last() =~= toks.take(i));
    let after = parse_run(code, toks.take(i + 1));
    assert(after.errs[st.errs.len() as int] == ErrV::NoCimport);
    lemma_parse_keeps_prefix(code, toks, i + 1);
    let fin = parse_spec(code, toks);
    assert(fin.errs.take(after.errs.len() as int)[st.errs.len() as int] == ErrV::NoCimport);
    assert(fin.errs[st.errs.len() as int] == ErrV::NoCimport);
}

/// A library name other than `cstd` in an import list records exactly one
/// invalid-library diagnostic, naming it, and no statement.
pub proof fn lemma_unknown_library(code: Seq<char>, st: PState, name: Seq<char>)
    requires
        name.len() > 0,
        name != "cstd"@,
    ensures
        close_lib(code, st, name).ast == st.ast,
        close_lib(code, st, name).errs == st.errs.push(
            ErrV::InvalidLibrary { line: st.line as nat, name, code_line: code_line_of(code, st.line) },
        ),
{
}

/// Inside a quoted region of a write's arguments no character, a comma included,
/// ends an argument.
pub proof fn lemma_quoted_comma_kept(s: SplitState, c: char)
    requires
        s.inq,
    ensures
        split_step(s, c).parts == s.parts,
        split_step(s, c).cur == s.cur.push(c),
{
}

/// A write whose arguments split into three, with a valid stream and a third
/// argument that is not an `i32`, records one invalid-argument diagnostic that
/// expects an integer and shows that argument, and no statement.
pub proof fn lemma_length_not_integer(code: Seq<char>, st: PState, argv: Seq<char>)
    requires
        split_parts(argv).len() == 3,
        selector_of(lower_of(trimmed(split_parts(argv)[0]))) is Some,
        i32_of_text(trimmed(split_parts(argv)[2])) is None,
    ensures
        process_write(code, st, argv).ast == st.ast,
        process_write(code, st, argv).errs == st.errs.push(
            ErrV::InvalidArgument {
                line: st.line as nat,
                expected: "integer"@,
                found: trimmed(split_parts(argv)[2]),
                code_line: code_line_of(code, st.line),
                code,
            },
        ),
{
}

/// The argument splitter run from state `s` over the characters of `a`.
pub open spec fn split_fold(s: SplitState, a: Seq<char>) -> SplitState
    decreases a.len(),
{
    if a.len() == 0 {
        s
    } else {
        split_step(split_fold(s, a.drop_last()), a.last())
    }
}

proof fn lemma_split_append(a: Seq<char>, b: Seq<char>)
    ensures
        split_run(a + b) == split_fold(split_run(a), b),
    decreases b.len(),
{
    if b.len() == 0 {
        assert(a + b =~= a);
    } else {
        lemma_split_append(a, b.drop_last());
        assert((a + b).drop_last() =~= a + b.drop_last());
        assert((a + b).last() == b.last());
    }
}

proof fn lemma_split_fold_append(s: SplitState, a: Seq<char>, b: Seq<char>)
    ensures
        split_fold(s, a + b) == split_fold(split_fold(s, a), b),
    decreases b.len(),
{
    if b.len() == 0 {
        assert(a + b =~= a);
    } else {
        lemma_split_fold_append(s, a, b.drop_last());
        assert((a + b).drop_last() =~= a + b.drop_last());
        assert((a + b).last() == b.last());
    }
}

/// Text with no quote and no comma.
pub open spec fn plain(a: Seq<char>) -> bool {
    forall|k: int| 0 <= k < a.len() ==> !is_quote(#[trigger] a[k]) && a[k] != ','
}

proof fn lemma_split_plain(s: SplitState, a: Seq<char>)
    requires
        !s.inq,
        plain(a),
    ensures
        split_fold(s, a) == (SplitState { parts: s.parts, cur: s.cur + a, inq: false, qc: s.qc }),
    decreases a.len(),
{
    if a.len() == 0 {
        assert(s.cur + a =~= s.cur);
    } else {
        assert(plain(a.drop_last()));
        lemma_split_plain(s, a.drop_last());
        assert(!is_quote(a[a.len() - 1]) && a[a.len() - 1] != ',');
        assert((s.cur + a.drop_last()).push(a.last()) =~= s.cur + a);
    }
}

proof fn lemma_split_quoted_body(s: SplitState, body: Seq<char>)
    requires
        s.inq,
        !body.contains(s.qc),
    ensures
        split_fold(s, body) == (SplitState { parts: s.parts, cur: s.cur + body, inq: true, qc: s.qc }),
    decreases body.len(),
{
    if body.len() == 0 {
        assert(s.cur + body =~= s.cur);
    } else {
        assert(!body.drop_last().contains(s.qc)) by {
            if body.drop_last().contains(s.qc) {
                let k = choose|k: int| 0 <= k < body.drop_last().len() && body.drop_last()[k] == s.qc;
                assert(body[k] == s.qc);
            }
        }
        lemma_split_quoted_body(s, body.drop_last());
        assert(body[body.len() - 1] != s.qc);
        assert((s.cur + body.drop_last()).push(body.last()) =~= s.cur + body);
    }
}

proof fn lemma_trimmed_quoted(q: Seq<char>)
    requires
        q.len() > 0,
        is_quote(q[0]),
        is_quote(q.last()),
    ensures
        trimmed(q) == q,
{
    assert(!is_white(q[0]));
    assert(!is_white(q.last()));
}

/// A write's arguments made of a plain first part, a quoted part and a plain last
/// part, joined by commas, split into exactly those three parts: a comma inside the
/// quotes never splits, whatever else the quotes hold.
pub proof fn lemma_quoted_argument_split(pre: Seq<char>, d: char, body: Seq<char>, post: Seq<char>)
    requires
        plain(pre),
        plain(post),
        post.len() > 0,
        is_quote(d),
        !body.contains(d),
    ensures
        split_parts(pre + seq![','] + (seq![d] + body + seq![d]) + seq![','] + post) == seq![
            trimmed(pre),
            seq![d] + body + seq![d],
            trimmed(post),
        ],
{
    let q = seq![d] + body + seq![d];
    let e = SplitState { parts: seq![], cur: seq![], inq: false, qc: ' ' };
    let a1 = pre;
    let a2 = a1 + seq![','];
    let a3 = a2 + seq![d];
    let a4 = a3 + body;
    let a5 = a4 + seq![d];
    let a6 = a5 + seq![','];
    let a7 = a6 + post;
    assert(a7 =~= pre + seq![','] + q + seq![','] + post);
    // the first part
    lemma_split_append(seq![], a1);
    assert(seq![] + a1 =~= a1);
    lemma_split_plain(e, a1);
    assert(e.cur + a1 =~= a1);
    let s1 = split_run(a1);
    assert(s1 == SplitState { parts: seq![], cur: a1, inq: false, qc: ' ' });
    // the first comma
    assert(a2.drop_last() =~= a1);
    let s2 = split_run(a2);
    assert(s2 == SplitState { parts: seq![trimmed(pre)], cur: seq![], inq: false, qc: ' ' });
    // the opening quote
    assert(a3.drop_last() =~= a2);
    let s3 = split_run(a3);
    assert(s3 == SplitState { parts: seq![trimmed(pre)], cur: seq![d], inq: true, qc: d });
    // the quoted text
    lemma_split_append(a3, body);
    lemma_split_quoted_body(s3, body);
    let s4 = split_run(a4);
    assert(s4 == SplitState { parts: seq![trimmed(pre)], cur: seq![d] + body, inq: true, qc: d });
    // the closing quote
    assert(a5.drop_last() =~= a4);
    let s5 = split_run(a5);
    assert((seq![d] + body).push(d) =~= q);
    assert(s5 == SplitState { parts: seq![trimmed(pre)], cur: q, inq: false, qc: d });
    // the second comma
    assert(a6.drop_last() =~= a5);
    let s6 = split_run(a6);
    assert(s6.parts == seq![trimmed(pre)].push(trimmed(q)));
    assert(s6.cur == Seq::<char>::empty());
    // the last part
    lemma_split_append(a6, post);
    lemma_split_plain(s6, post);
    let s7 = split_run(a7);
    assert(s6.cur + post =~= post);
    assert(s7.cur == post);
    lemma_trimmed_quoted(q);
    assert(split_parts(a7) =~= seq![trimmed(pre), q, trimmed(post)]);
}

/// A write of a valid stream, a quoted text that may hold commas, and an `i32`
/// length records exactly that write, with the quotes kept, and no diagnostic.
pub proof fn lemma_quoted_write(
    code: Seq<char>,
    st: PState,
    pre: Seq<char>,
    d: char,
    body: Seq<char>,
    post: Seq<char>,
)
    requires
        plain(pre),
        plain(post),
        post.len() > 0,
        is_quote(d),
        !body.contains(d),
        selector_of(lower_of(trimmed(pre))) is Some,
        i32_of_text(trimmed(post)) is Some,
    ensures
        ({
            let argv = pre + seq![','] + (seq![d] + body + seq![d]) + seq![','] + post;
            &&& process_write(code, st, argv).errs == st.errs
            &&& process_write(code, st, argv).ast == st.ast.push(
                AstV::CWrt(
                    selector_of(lower_of(trimmed(pre)))->Some_0,
                    seq![d] + body + seq![d],
                    i32_of_text(trimmed(post))->Some_0,
                ),
            )
        }),
{
    lemma_quoted_argument_split(pre, d, body, post);
    lemma_trimmed_twice(pre);
    lemma_trimmed_twice(post);
}

proof fn lemma_strip_front_idem(s: Seq<char>, p: spec_fn(char) -> bool)
    ensures
        crate::text::strip_front(crate::text::strip_front(s, p), p) == crate::text::strip_front(s, p),
    decreases s.len(),
{
    if s.len() > 0 && p(s[0]) {
        lemma_strip_front_idem(s.drop_first(), p);
    }
}

proof fn lemma_strip_back_idem(s: Seq<char>, p: spec_fn(char) -> bool)
    ensures
        crate::text::strip_back(crate::text::strip_back(s, p), p) == crate::text::strip_back(s, p),
    decreases s.len(),
{
    if s.len() > 0 && p(s.last()) {
        lemma_strip_back_idem(s.drop_last(), p);
    }
}

proof fn lemma_strip_back_keeps_front(s: Seq<char>, p: spec_fn(char) -> bool)
    requires
        crate::text::strip_front(s, p) == s,
    ensures
        crate::text::strip_front(crate::text::strip_back(s, p), p) == crate::text::strip_back(s, p),
    decreases s.len(),
{
    if s.len() > 0 && p(s.last()) {
        let t = s.drop_last();
        if t.len() > 0 {
            if p(s[0]) {
                crate::text::lemma_strip_front_len(s.drop_first(), p);
            }
            assert(!p(s[0]));
            assert(t[0] == s[0]);
        }
        lemma_strip_back_keeps_front(t, p);
    }
}

proof fn lemma_trimmed_twice(s: Seq<char>)
    ensures
        trimmed(trimmed(s)) == trimmed(s),
{
    let p = crate::text::strip_pred(false);
    let f = crate::text::strip_front(s, p);
    lemma_strip_front_idem(s, p);
    lemma_strip_back_keeps_front(f, p);
    lemma_strip_back_idem(f, p);
}

/// Tokens that may stand inside an import list.
pub open spec fn is_list_token(t: Tokens) -> bool {
    t is Char || t is Space || t is Comma
}

/// The library names of an import list read so far: the names that a comma ended,
/// and the one being read.
pub struct ListNames {
    pub done: Seq<Seq<char>>,
    pub cur: Seq<char>,
}

/// The names of an import list: its characters, split at each comma, spaces left out.
pub open spec fn list_names(seg: Seq<Tokens>) -> ListNames
    decreases seg.len(),
{
    if seg.len() == 0 {
        ListNames { done: seq![], cur: seq![] }
    } else {
        let s = list_names(seg.drop_last());
        match seg.last() {
            Tokens::Char(_, _, c) => ListNames { done: s.done, cur: s.cur.push(c) },
            Tokens::Comma => ListNames { done: s.done.push(s.cur), cur: seq![] },
            _ => s,
        }
    }
}

/// One import of `cstd` for each name `cstd`, in order.
pub open spec fn lib_nodes(ns: Seq<Seq<char>>) -> Seq<AstV>
    decreases ns.len(),
{
    if ns.len() == 0 {
        seq![]
    } else if ns.last() == "cstd"@ {
        lib_nodes(ns.drop_last()).push(AstV::Cimport(ns.last()))
    } else {
        lib_nodes(ns.drop_last())
    }
}

/// One invalid-library diagnostic for each name that is neither empty nor `cstd`, in
/// order.
pub open spec fn lib_errs(ns: Seq<Seq<char>>, line: int, code_line: Seq<char>) -> Seq<ErrV>
    decreases ns.len(),
{
    if ns.len() == 0 {
        seq![]
    } else if ns.last().len() > 0 && ns.last() != "cstd"@ {
        lib_errs(ns.drop_last(), line, code_line).push(
            ErrV::InvalidLibrary { line: line as nat, name: ns.last(), code_line },
        )
    } else {
        lib_errs(ns.drop_last(), line, code_line)
    }
}

proof fn lemma_import_list_prefix(code: Seq<char>, toks: Seq<Tokens>, i: int, m: int)
    requires
        0 <= i <= m <= toks.len(),
        parse_run(code, toks.take(i)).mode == Mode::Imports(seq![]),
        forall|k: int| i <= k < m ==> is_list_token(#[trigger] toks[k]),
    ensures
        ({
            let st = parse_run(code, toks.take(i));
            let ln = list_names(toks.subrange(i, m));
            parse_run(code, toks.take(m)) == PState {
                mode: Mode::Imports(ln.cur),
                line: st.line,
                ast: st.ast + lib_nodes(ln.done),
                errs: st.errs + lib_errs(ln.done, st.line, code_line_of(code, st.line)),
            }
        }),
    decreases m - i,
{
    let st = parse_run(code, toks.take(i));
    let cl = code_line_of(code, st.line);
    if m == i {
        assert(toks.subrange(i, m) =~= Seq::<Tokens>::empty());
        assert(st.ast + Seq::<AstV>::empty() =~= st.ast);
        assert(st.errs + Seq::<ErrV>::empty() =~= st.errs);
    } else {
        lemma_import_list_prefix(code, toks, i, m - 1);
        lemma_run_next(code, toks, m - 1);
        assert(toks.subrange(i, m).drop_last() =~= toks.subrange(i, m - 1));
        let ln0 = list_names(toks.subrange(i, m - 1));
        let t = toks[m - 1];
        assert(is_list_token(t));
        assert(toks.subrange(i, m).last() == t);
        let prev = parse_run(code, toks.take(m - 1));
        match t {
            Tokens::Comma => {
                reveal_strlit("cstd");
                let ns = ln0.done.push(ln0.cur);
                assert(list_names(toks.subrange(i, m)).done == ns);
                assert(ns.drop_last() =~= ln0.done);
                assert(ns.last() == ln0.cur);
                assert((st.ast + lib_nodes(ln0.done)).push(AstV::Cimport(ln0.cur)) =~= st.ast
                    + lib_nodes(ln0.done).push(AstV::Cimport(ln0.cur)));
                assert((st.errs + lib_errs(ln0.done, st.line, cl)).push(
                    ErrV::InvalidLibrary { line: st.line as nat, name: ln0.cur, code_line: cl },
                ) =~= st.errs + lib_errs(ln0.done, st.line, cl).push(
                    ErrV::InvalidLibrary { line: st.line as nat, name: ln0.cur, code_line: cl },
                ));
                if ln0.cur.len() == 0 {
                    assert(lib_nodes(ns) == lib_nodes(ln0.done));
                    assert(lib_errs(ns, st.line, cl) == lib_errs(ln0.done, st.line, cl));
                } else if ln0.cur == "cstd"@ {
                    assert(lib_errs(ns, st.line, cl) == lib_errs(ln0.done, st.line, cl));
                } else {
                    assert(lib_nodes(ns) == lib_nodes(ln0.done));
                }
            },
            Tokens::Char(_, _, c) => {
                assert(list_names(toks.subrange(i, m)) == ListNames {
                    done: ln0.done,
                    cur: ln0.cur.push(c),
                });
            },
            _ => {
                assert(t is Space);
                assert(list_names(toks.subrange(i, m)) == ln0);
            },
        }
    }
}

/// An import list closed by an end of line records, in order, one import for each
/// name `cstd` and one invalid-library diagnostic for each other name that is not
/// empty, and nothing else.
pub proof fn lemma_import_list(code: Seq<char>, toks: Seq<Tokens>, i: int, j: int)
    requires
        0 <= i <= j < toks.len(),
        parse_run(code, toks.take(i)).mode == Mode::Imports(seq![]),
        forall|k: int| i <= k < j ==> is_list_token(#[trigger] toks[k]),
        toks[j] is Eol,
    ensures
        ({
            let st = parse_run(code, toks.take(i));
            let ln = list_names(toks.subrange(i, j));
            let ns = ln.done.push(ln.cur);
            let after = parse_run(code, toks.take(j + 1));
            &&& after.mode == Mode::Top
            &&& after.ast == st.ast + lib_nodes(ns)
            &&& after.errs == st.errs + lib_errs(ns, st.line, code_line_of(code, st.line))
        }),
{
    let st = parse_run(code, toks.take(i));
    let cl = code_line_of(code, st.line);
    lemma_import_list_prefix(code, toks, i, j);
    lemma_run_next(code, toks, j);
    let ln = list_names(toks.subrange(i, j));
    let ns = ln.done.push(ln.cur);
    reveal_strlit("cstd");
    assert(ns.drop_last() =~= ln.done);
    assert(ns.last() == ln.cur);
    if ln.cur.len() == 0 {
        assert(lib_nodes(ns) == lib_nodes(ln.done));
        assert(lib_errs(ns, st.line, cl) == lib_errs(ln.done, st.line, cl));
    } else if ln.cur == "cstd"@ {
        assert(lib_errs(ns, st.line, cl) == lib_errs(ln.done, st.line, cl));
    } else {
        assert(lib_nodes(ns) == lib_nodes(ln.done));
    }
    assert((st.ast + lib_nodes(ln.done)).push(AstV::Cimport(ln.cur)) =~= st.ast + lib_nodes(
        ln.done,
    ).push(AstV::Cimport(ln.cur)));
    assert((st.errs + lib_errs(ln.done, st.line, cl)).push(
        ErrV::InvalidLibrary { line: st.line as nat, name: ln.cur, code_line: cl },
    ) =~= st.errs + lib_errs(ln.done, st.line, cl).push(
        ErrV::InvalidLibrary { line: st.line as nat, name: ln.cur, code_line: cl },
    ));
}

} // verus!
