use vstd::prelude::*;

use crate::text::{
    chars_of, lemma_strip_back_len, lemma_strip_front_len, same_chars, strip_chars, trimmed,
};

verus! {

/// One lexical token of a source text.
#[derive(Debug, PartialEq, Eq)]
pub enum Tokens {
    /// The `cimport` keyword.
    CImport,
    /// `_`, which introduces a function call.
    Underscore,
    /// A list of library names.
    Libs(String),
    /// Any other character, with its column (from 1) and its line (from 0).
    Char(i32, i32, char),
    /// `(`
    LSB,
    /// `)`
    RSB,
    /// `{`
    LCurlyB,
    /// `}`
    RCurlyBrace,
    /// `[`
    LBBracket,
    /// `]`
    RBBracket,
    /// A space, or the end of a word that is not a keyword.
    Space,
    /// The end of the input.
    Eof,
    /// The end of a line.
    Eol,
    /// `,`
    Comma,
    /// `;`
    SColon,
    /// `"`
    DQ,
    /// `'`
    SQ,
}

/// The tokenizer's state after a prefix of its input.
pub struct LexState {
    pub toks: Seq<Tokens>,
    /// The current word: the characters seen since the last space, newline or `;`.
    pub wrd: Seq<char>,
    pub charpos: int,
    pub linec: int,
}

/// The token that closes a word: the keyword, or a plain space.
pub open spec fn word_token(w: Seq<char>) -> Tokens {
    if trimmed(w) == "cimport"@ {
        Tokens::CImport
    } else {
        Tokens::Space
    }
}

/// The tokens with the current word, if any, closed.
pub open spec fn flushed(st: LexState) -> Seq<Tokens> {
    if st.wrd.len() > 0 {
        st.toks.push(word_token(st.wrd))
    } else {
        st.toks
    }
}

/// The token of a character that stands for itself alone.
pub open spec fn single_token(c: char) -> Option<Tokens> {
    if c == '"' {
        Some(Tokens::DQ)
    } else if c == '\'' {
        Some(Tokens::SQ)
    } else if c == '(' {
        Some(Tokens::LSB)
    } else if c == ')' {
        Some(Tokens::RSB)
    } else if c == '{' {
        Some(Tokens::LCurlyB)
    } else if c == '}' {
        Some(Tokens::RCurlyBrace)
    } else if c == '[' {
        Some(Tokens::LBBracket)
    } else if c == ']' {
        Some(Tokens::RBBracket)
    } else if c == ',' {
        Some(Tokens::Comma)
    } else if c == '_' {
        Some(Tokens::Underscore)
    } else {
        None
    }
}

/// One character of input.
pub open spec fn lex_step(st: LexState, c: char) -> LexState {
    let pos = st.charpos + 1;
    if c == '\n' {
        LexState { toks: flushed(st).push(Tokens::Eol), wrd: seq![], charpos: 0, linec: st.linec + 1 }
    } else if c == ' ' {
        LexState { toks: flushed(st).push(Tokens::Space), wrd: seq![], charpos: pos, linec: st.linec }
    } else if c == ';' {
        LexState { toks: st.toks.push(Tokens::SColon), wrd: seq![], charpos: pos, linec: st.linec }
    } else if let Some(t) = single_token(c) {
        LexState { toks: st.toks.push(t), wrd: st.wrd, charpos: pos, linec: st.linec }
    } else {
        LexState {
            toks: st.toks.push(Tokens::Char(pos as i32, st.linec as i32, c)),
            wrd: st.wrd.push(c),
            charpos: pos,
            linec: st.linec,
        }
    }
}

/// The state after the characters of `s`, from an empty start.
pub open spec fn lex_run(s: Seq<char>) -> LexState
    decreases s.len(),
{
    if s.len() == 0 {
        LexState { toks: seq![], wrd: seq![], charpos: 0, linec: 0 }
    } else {
        lex_step(lex_run(s.drop_last()), s.last())
    }
}

/// The tokens of a source text: the text without surrounding white space and with
/// one space after it, one token per character and one more at the end of each
/// word, then an end of line and an end of input.
pub open spec fn lex_spec(code: Seq<char>) -> Seq<Tokens> {
    lex_run(trimmed(code).push(' ')).toks + seq![Tokens::Eol, Tokens::Eof]
}

proof fn lemma_lex_bounds(s: Seq<char>)
    ensures
        0 <= lex_run(s).charpos <= s.len(),
        0 <= lex_run(s).linec <= s.len(),
    decreases s.len(),
{
    if s.len() > 0 {
        lemma_lex_bounds(s.drop_last());
    }
}

fn word_tok(wrd: &Vec<char>) -> (r: Tokens)
    ensures
        r == word_token(wrd@),
{
    let t = strip_chars(wrd, false);
    if same_chars(&t, &chars_of("cimport")) {
        Tokens::CImport
    } else {
        Tokens::Space
    }
}

/// The token that closes the word `wrd`: `CImport` for the keyword, else `Space`.
pub fn checkwrd(wrd: &String) -> (r: Tokens)
    ensures
        r == word_token(wrd@),
{
    word_tok(&chars_of(wrd.as_str()))
}

/// Turns a source text into its tokens.
pub fn lexer(code: &String) -> (r: Vec<Tokens>)
    requires
        code@.len() < i32::MAX,
    ensures
        r@ == lex_spec(code@),
{
    let mut input = strip_chars(&chars_of(code.as_str()), false);
    input.push(' ');
    let ghost src = input@;
    assert(src =~= trimmed(code@).push(' '));
    let mut toks: Vec<Tokens> = Vec::new();
    let mut wrd: Vec<char> = Vec::new();
    let mut charpos: i32 = 0;
    let mut linec: i32 = 0;
    let mut i: usize = 0;
    assert(src.take(0) =~= seq![]);
    proof {
        lemma_strip_len(code@);
    }
    while i < input.len()
        invariant
            src == input@,
            src.len() <= code@.len() + 1,
            code@.len() < i32::MAX,
            i <= src.len(),
            lex_run(src.take(i as int)) == (LexState {
                toks: toks@,
                wrd: wrd@,
                charpos: charpos as int,
                linec: linec as int,
            }),
        decreases src.len() - i,
    {
        proof {
            lemma_lex_bounds(src.take(i as int));
            assert(src.take(i as int + 1).drop_last() =~= src.take(i as int));
        }
        let c = input[i];
        charpos = charpos + 1;
        if c == '\n' {
            if wrd.len() > 0 {
                toks.push(word_tok(&wrd));
            }
            toks.push(Tokens::Eol);
            wrd = Vec::new();
            charpos = 0;
            linec = linec + 1;
        } else if c == ' ' {
            if wrd.len() > 0 {
                toks.push(word_tok(&wrd));
            }
            toks.push(Tokens::Space);
            wrd = Vec::new();
        } else if c == ';' {
            toks.push(Tokens::SColon);
            wrd = Vec::new();
        } else if c == '"' {
            toks.push(Tokens::DQ);
        } else if c == '\'' {
            toks.push(Tokens::SQ);
        } else if c == '(' {
            toks.push(Tokens::LSB);
        } else if c == ')' {
            toks.push(Tokens::RSB);
        } else if c == '{' {
            toks.push(Tokens::LCurlyB);
        } else if c == '}' {
            toks.push(Tokens::RCurlyBrace);
        } else if c == '[' {
            toks.push(Tokens::LBBracket);
        } else if c == ']' {
            toks.push(Tokens::RBBracket);
        } else if c == ',' {
            toks.push(Tokens::Comma);
        } else if c == '_' {
            toks.push(Tokens::Underscore);
        } else {
            wrd.push(c);
            toks.push(Tokens::Char(charpos, linec, c));
        }
        i = i + 1;
        assert(toks@ == lex_run(src.take(i as int)).toks);
        assert(wrd@ == lex_run(src.take(i as int)).wrd);
    }
    assert(src.take(i as int) =~= src);
    toks.push(Tokens::Eol);
    toks.push(Tokens::Eof);
    assert(toks@ =~= lex_spec(code@));
    toks
}

proof fn lemma_strip_len(s: Seq<char>)
    ensures
        trimmed(s).len() <= s.len(),
{
    lemma_strip_front_len(s, crate::text::strip_pred(false));
    lemma_strip_back_len(
        crate::text::strip_front(s, crate::text::strip_pred(false)),
        crate::text::strip_pred(false),
    );
}

} // verus!
