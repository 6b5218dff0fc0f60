use vstd::prelude::*;

verus! {

/// The characters that `char::is_whitespace` accepts: the Unicode `White_Space` property.
pub open spec fn is_white(c: char) -> bool {
    c == '\t' || c == '\n' || c == '\u{0B}' || c == '\u{0C}' || c == '\r' || c == ' '
        || c == '\u{85}' || c == '\u{A0}' || c == '\u{1680}'
        || ('\u{2000}' <= c && c <= '\u{200A}')
        || c == '\u{2028}' || c == '\u{2029}' || c == '\u{202F}' || c == '\u{205F}'
        || c == '\u{3000}'
}

pub open spec fn is_quote(c: char) -> bool {
    c == '"' || c == '\''
}

/// Whether `c` is white space, in the sense of `char::is_whitespace`.
pub fn is_whitespace(c: char) -> (r: bool)
    ensures
        r == is_white(c),
{
    c == '\t' || c == '\n' || c == '\u{0B}' || c == '\u{0C}' || c == '\r' || c == ' '
        || c == '\u{85}' || c == '\u{A0}' || c == '\u{1680}'
        || ('\u{2000}' <= c && c <= '\u{200A}')
        || c == '\u{2028}' || c == '\u{2029}' || c == '\u{202F}' || c == '\u{205F}'
        || c == '\u{3000}'
}

/// `s` without the leading characters that satisfy `p`.
pub open spec fn strip_front(s: Seq<char>, p: spec_fn(char) -> bool) -> Seq<char>
    decreases s.len(),
{
    if s.len() > 0 && p(s[0]) {
        strip_front(s.drop_first(), p)
    } else {
        s
    }
}

/// `s` without the trailing characters that satisfy `p`.
pub open spec fn strip_back(s: Seq<char>, p: spec_fn(char) -> bool) -> Seq<char>
    decreases s.len(),
{
    if s.len() > 0 && p(s.last()) {
        strip_back(s.drop_last(), p)
    } else {
        s
    }
}

/// The predicate that a strip removes: quote characters, or white space.
pub open spec fn strip_pred(quotes: bool) -> spec_fn(char) -> bool {
    if quotes {
        |c: char| is_quote(c)
    } else {
        |c: char| is_white(c)
    }
}

/// `s` without surrounding white space, as `str::trim` gives it.
pub open spec fn trimmed(s: Seq<char>) -> Seq<char> {
    strip_back(strip_front(s, strip_pred(false)), strip_pred(false))
}

/// `s` without surrounding single or double quote characters.
pub open spec fn unquoted(s: Seq<char>) -> Seq<char> {
    strip_back(strip_front(s, strip_pred(true)), strip_pred(true))
}

fn in_strip_set(c: char, quotes: bool) -> (r: bool)
    ensures
        r == (strip_pred(quotes))(c),
{
    if quotes {
        c == '"' || c == '\''
    } else {
        is_whitespace(c)
    }
}

/// The characters of `v` without the surrounding run of quotes (or of white space).
pub fn strip_chars(v: &Vec<char>, quotes: bool) -> (r: Vec<char>)
    ensures
        r@ == strip_back(strip_front(v@, strip_pred(quotes)), strip_pred(quotes)),
{
    let ghost p = strip_pred(quotes);
    let len = v.len();
    let mut i: usize = 0;
    assert(v@.subrange(0, len as int) =~= v@);
    while i < len && in_strip_set(v[i], quotes)
        invariant
            len == v@.len(),
            p == strip_pred(quotes),
            i <= len,
            strip_front(v@, p) == strip_front(v@.subrange(i as int, len as int), p),
        decreases len - i,
    {
        assert(v@.subrange(i as int, len as int).drop_first() =~= v@.subrange(
            i as int + 1,
            len as int,
        ));
        i = i + 1;
    }
    assert(strip_front(v@, p) == v@.subrange(i as int, len as int));
    let mut j: usize = len;
    while j > i && in_strip_set(v[j - 1], quotes)
        invariant
            len == v@.len(),
            p == strip_pred(quotes),
            i <= j <= len,
            strip_back(v@.subrange(i as int, len as int), p) == strip_back(
                v@.subrange(i as int, j as int),
                p,
            ),
        decreases j,
    {
        assert(v@.subrange(i as int, j as int).drop_last() =~= v@.subrange(
            i as int,
            j as int - 1,
        ));
        j = j - 1;
    }
    assert(strip_back(v@.subrange(i as int, j as int), p) == v@.subrange(i as int, j as int));
    let mut r: Vec<char> = Vec::new();
    let mut k: usize = i;
    while k < j
        invariant
            i <= k <= j <= len,
            len == v@.len(),
            r@ == v@.subrange(i as int, k as int),
        decreases j - k,
    {
        r.push(v[k]);
        k = k + 1;
        assert(r@ =~= v@.subrange(i as int, k as int));
    }
    r
}

/// Whether two character sequences are equal.
pub fn same_chars(a: &Vec<char>, b: &Vec<char>) -> (r: bool)
    ensures
        r == (a@ == b@),
{
    if a.len() != b.len() {
        return false;
    }
    let mut i: usize = 0;
    while i < a.len()
        invariant
            a@.len() == b@.len(),
            i <= a@.len(),
            forall|k: int| 0 <= k < i ==> a@[k] == b@[k],
        decreases a.len() - i,
    {
        if a[i] != b[i] {
            return false;
        }
        i = i + 1;
    }
    assert(a@ =~= b@);
    true
}

/// Relies on `str::chars`: it yields the characters of the string in order.
#[verifier::external_body]
pub fn chars_of(s: &str) -> (r: Vec<char>)
    ensures
        r@ == s@,
{
    s.chars().collect()
}

/// Relies on `String`'s `FromIterator<char>`: the string holds the characters in order.
#[verifier::external_body]
pub fn string_of(v: &Vec<char>) -> (r: String)
    ensures
        r@ == v@,
{
    v.iter().collect()
}

/// What `str::to_lowercase` makes of a string.
pub uninterp spec fn lower_of(s: Seq<char>) -> Seq<char>;

/// Relies on `str::to_lowercase`: the result depends on the characters alone.
#[verifier::external_body]
pub fn lowercase(s: &str) -> (r: String)
    ensures
        r@ == lower_of(s@),
{
    s.to_lowercase()
}

pub open spec fn is_digit(c: char) -> bool {
    '0' <= c && c <= '9'
}

/// The number that a run of decimal digits spells.
pub open spec fn digits_value(s: Seq<char>) -> int
    decreases s.len(),
{
    if s.len() == 0 {
        0
    } else {
        digits_value(s.drop_last()) * 10 + (s.last() as int - '0' as int)
    }
}

/// The integer that `s` spells: an optional `+` or `-`, then one or more decimal digits.
pub open spec fn int_of_text(s: Seq<char>) -> Option<int> {
    let signed = s.len() > 0 && (s[0] == '+' || s[0] == '-');
    let ds = if signed { s.drop_first() } else { s };
    if ds.len() > 0 && forall|k: int| 0 <= k < ds.len() ==> is_digit(#[trigger] ds[k]) {
        if signed && s[0] == '-' {
            Some(-digits_value(ds))
        } else {
            Some(digits_value(ds))
        }
    } else {
        None
    }
}

/// The `i32` that `s` spells, if it spells one in range.
pub open spec fn i32_of_text(s: Seq<char>) -> Option<i32> {
    match int_of_text(s) {
        Some(v) => if i32::MIN <= v && v <= i32::MAX {
            Some(v as i32)
        } else {
            None
        },
        None => None,
    }
}

/// Relies on `i32`'s `FromStr`: an optional sign and decimal digits, with no
/// surrounding white space, whose value fits; anything else is an error.
#[verifier::external_body]
pub fn parse_i32(s: &str) -> (r: Option<i32>)
    ensures
        r == i32_of_text(s@),
{
    s.parse::<i32>().ok()
}

/// The decimal digits of `n`, most significant first.
pub open spec fn nat_text(n: nat) -> Seq<char>
    decreases n,
{
    let d = seq!['0', '1', '2', '3', '4', '5', '6', '7', '8', '9'];
    if n < 10 {
        seq![d[n as int]]
    } else {
        nat_text(n / 10).push(d[(n % 10) as int])
    }
}

/// The decimal text of `v`, with a leading `-` when it is negative.
pub open spec fn int_text(v: int) -> Seq<char> {
    if v < 0 {
        seq!['-'] + nat_text((-v) as nat)
    } else {
        nat_text(v as nat)
    }
}

/// Relies on `i128`'s `Display` (through `ToString`): decimal digits, `-` before a negative value.
#[verifier::external_body]
pub fn decimal_text(v: i128) -> (r: String)
    ensures
        r@ == int_text(v as int),
{
    v.to_string()
}

/// The line-splitter's state: the finished lines and the current one.
pub struct LineState {
    pub lines: Seq<Seq<char>>,
    pub cur: Seq<char>,
}

/// A line as its newline ends it: without a carriage return just before the newline.
pub open spec fn without_cr(l: Seq<char>) -> Seq<char> {
    if l.len() > 0 && l.last() == '\r' {
        l.drop_last()
    } else {
        l
    }
}

pub open spec fn lines_run(s: Seq<char>) -> LineState
    decreases s.len(),
{
    if s.len() == 0 {
        LineState { lines: seq![], cur: seq![] }
    } else {
        let st = lines_run(s.drop_last());
        if s.last() == '\n' {
            LineState { lines: st.lines.push(without_cr(st.cur)), cur: seq![] }
        } else {
            LineState { lines: st.lines, cur: st.cur.push(s.last()) }
        }
    }
}

/// The lines of a text: split at each `\n` or `\r\n`, the terminators left out, and
/// a last line without a terminator only when it is not empty.
pub open spec fn text_lines(s: Seq<char>) -> Seq<Seq<char>> {
    let st = lines_run(s);
    if st.cur.len() > 0 {
        st.lines.push(st.cur)
    } else {
        st.lines
    }
}

/// The line at position `n` of a text, or the empty text past its last line.
pub open spec fn line_text(code: Seq<char>, n: nat) -> Seq<char> {
    if n < text_lines(code).len() {
        text_lines(code)[n as int]
    } else {
        seq![]
    }
}

fn drop_cr(l: Vec<char>) -> (r: Vec<char>)
    ensures
        r@ == without_cr(l@),
{
    let ghost orig = l@;
    let mut l = l;
    if l.len() > 0 && l[l.len() - 1] == '\r' {
        l.pop();
        assert(l@ =~= without_cr(orig));
    }
    l
}

/// The line at position `n` of `code`, or the empty text past its last line.
pub fn source_line(code: &str, n: usize) -> (r: String)
    ensures
        r@ == line_text(code@, n as nat),
{
    let chars = chars_of(code);
    let mut lines: Vec<Vec<char>> = Vec::new();
    let mut cur: Vec<char> = Vec::new();
    let mut i: usize = 0;
    assert(chars@.take(0) =~= seq![]);
    assert(lines@.map_values(|l: Vec<char>| l@) =~= seq![]);
    while i < chars.len()
        invariant
            i <= chars@.len(),
            chars@ == code@,
            lines_run(chars@.take(i as int)) == (LineState {
                lines: lines@.map_values(|l: Vec<char>| l@),
                cur: cur@,
            }),
        decreases chars.len() - i,
    {
        assert(chars@.take(i as int + 1).drop_last() =~= chars@.take(i as int));
        let c = chars[i];
        if c == '\n' {
            let ghost old_lines = lines@;
            let ghost old_cur = cur@;
            let done = drop_cr(cur);
            lines.push(done);
            cur = Vec::new();
            assert(lines@.map_values(|l: Vec<char>| l@) =~= old_lines.map_values(
                |l: Vec<char>| l@,
            ).push(without_cr(old_cur)));
        } else {
            cur.push(c);
        }
        i = i + 1;
    }
    assert(chars@.take(i as int) =~= chars@);
    if cur.len() > 0 {
        let ghost old_lines = lines@;
        let ghost old_cur = cur@;
        lines.push(cur);
        assert(lines@.map_values(|l: Vec<char>| l@) =~= old_lines.map_values(|l: Vec<char>| l@).push(
            old_cur,
        ));
    }
    if n < lines.len() {
        assert(lines@.map_values(|l: Vec<char>| l@)[n as int] == lines@[n as int]@);
        string_of(&lines[n])
    } else {
        String::new()
    }
}

/// Stripping never lengthens a text.
pub proof fn lemma_strip_front_len(s: Seq<char>, p: spec_fn(char) -> bool)
    ensures
        strip_front(s, p).len() <= s.len(),
    decreases s.len(),
{
    if s.len() > 0 && p(s[0]) {
        lemma_strip_front_len(s.drop_first(), p);
    }
}

/// Stripping never lengthens a text.
pub proof fn lemma_strip_back_len(s: Seq<char>, p: spec_fn(char) -> bool)
    ensures
        strip_back(s, p).len() <= s.len(),
    decreases s.len(),
{
    if s.len() > 0 && p(s.last()) {
        lemma_strip_back_len(s.drop_last(), p);
    }
}

} // verus!
