//! Splits query text into tokens.

use crate::context::digits_value;
use crate::span::Pos;
use vstd::prelude::*;

verus! {

/// The kinds of token in query text.
#[derive(PartialEq, Eq, Structural, Clone, Copy, Debug)]
pub enum TokenKind {
    /// One of `! $ & ( ) : = @ [ ] { } |`.
    Punct,
    /// `...`
    Spread,
    Name,
    Int,
    Float,
    /// A string literal; the text is what stands between the quotes, escapes as written.
    Str,
}

/// A token: its kind, its text, where it stands, and for integers their value.
#[derive(Debug)]
pub struct Token {
    pub kind: TokenKind,
    pub text: String,
    pub int_value: i64,
    /// Index, in characters, of the first character of `text` in the input.
    pub offset: usize,
    pub start: Pos,
    pub end: Pos,
}

/// A syntax error and where it was found.
#[derive(Debug)]
pub struct ParseError {
    pub message: String,
    pub pos: Pos,
}

pub open spec fn is_name_start(c: char) -> bool {
    ('a' <= c <= 'z') || ('A' <= c <= 'Z') || c == '_'
}

pub open spec fn is_digit(c: char) -> bool {
    '0' <= c <= '9'
}

pub open spec fn is_name_char(c: char) -> bool {
    is_name_start(c) || is_digit(c)
}

pub open spec fn is_punct(c: char) -> bool {
    c == '!' || c == '$' || c == '&' || c == '(' || c == ')' || c == ':' || c == '=' || c == '@' || c == '['
        || c == ']' || c == '{' || c == '}' || c == '|'
}

/// A GraphQL name: a letter or underscore, then letters, digits and underscores.
pub open spec fn is_name(s: Seq<char>) -> bool {
    s.len() > 0 && is_name_start(s[0]) && forall|k: int| 0 <= k < s.len() ==> is_name_char(#[trigger] s[k])
}

/// An optional minus sign, then one or more digits.
pub open spec fn is_int_text(s: Seq<char>) -> bool {
    let d = if s.len() > 0 && s[0] == '-' { s.drop_first() } else { s };
    d.len() > 0 && forall|k: int| 0 <= k < d.len() ==> is_digit(#[trigger] d[k])
}

/// The number an integer text stands for.
pub open spec fn int_text_value(s: Seq<char>) -> int {
    if s.len() > 0 && s[0] == '-' {
        -(digits_value(s.drop_first(), s.len() - 1) as int)
    } else {
        digits_value(s, s.len() as int) as int
    }
}

/// The characters of `t` from `a` to `b` are one or more digits.
pub open spec fn digits_in(t: Seq<char>, a: int, b: int) -> bool {
    0 <= a < b <= t.len() && forall|k: int| a <= k < b ==> is_digit(#[trigger] t[k])
}

/// A floating-point literal with its integer part ending at `p` and its
/// fractional part, if any, at `q`: an optional minus sign, an integer part
/// without leading zeros, then a fractional part (`.` and digits), an
/// exponent (`e` or `E`, an optional sign, digits), or both.
pub open spec fn float_shape(t: Seq<char>, p: int, q: int) -> bool {
    let a = if t.len() > 0 && t[0] == '-' { 1int } else { 0int };
    &&& p <= q <= t.len()
    &&& digits_in(t, a, p)
    &&& (t[a] == '0' ==> p == a + 1)
    &&& (q == p || (t[p] == '.' && digits_in(t, p + 1, q)))
    &&& (q == t.len() || ((t[q] == 'e' || t[q] == 'E') && (digits_in(t, q + 1, t.len() as int) || (q + 1 < t.len()
        && (t[q + 1] == '+' || t[q + 1] == '-') && digits_in(t, q + 2, t.len() as int)))))
    &&& (q > p || q < t.len())
}

pub open spec fn is_float_text(t: Seq<char>) -> bool {
    exists|p: int, q: int| #[trigger] float_shape(t, p, q)
}

/// A number token is not followed by a digit, a letter, an underscore or a point.
pub open spec fn number_ends(t: Token, input: Seq<char>) -> bool {
    let e = t.offset + t.text@.len();
    e == input.len() || !(is_name_char(input[e]) || input[e] == '.')
}

/// A token read from `input` is the text at its offset, and has the form its kind asks for.
pub open spec fn token_wf(t: Token, input: Seq<char>) -> bool {
    &&& t.start.wf() && t.end.wf()
    &&& t.offset + t.text@.len() <= input.len()
    &&& t.text@ == input.subrange(t.offset as int, t.offset + t.text@.len())
    &&& match t.kind {
        TokenKind::Punct => t.text@.len() == 1 && is_punct(t.text@[0]),
        TokenKind::Spread => t.text@ == seq!['.', '.', '.'],
        TokenKind::Name => is_name(t.text@) && (t.offset + t.text@.len() == input.len() || !is_name_char(
            input[t.offset + t.text@.len()],
        )),
        TokenKind::Int => is_int_text(t.text@) && t.int_value == int_text_value(t.text@) && number_ends(t, input),
        TokenKind::Float => is_float_text(t.text@) && number_ends(t, input),
        TokenKind::Str => t.offset >= 1 && input[t.offset - 1] == '"' && t.offset + t.text@.len() < input.len()
            && input[t.offset + t.text@.len()] == '"',
    }
}

/// Every token is well formed, and each ends before the next begins.
pub open spec fn tokens_wf(toks: Seq<Token>, input: Seq<char>) -> bool {
    &&& forall|k: int| 0 <= k < toks.len() ==> token_wf(#[trigger] toks[k], input)
    &&& forall|k: int|
        0 <= k < toks.len() - 1 ==> #[trigger] toks[k].offset + toks[k].text@.len() <= toks[k + 1].offset
}

/// Where a token's text begins, its opening quote included.
pub open spec fn token_first(t: Token) -> int {
    if t.kind == TokenKind::Str {
        t.offset - 1
    } else {
        t.offset as int
    }
}

/// Where a token's text ends, its closing quote included.
pub open spec fn token_after(t: Token) -> int {
    if t.kind == TokenKind::Str {
        t.offset + t.text@.len() + 1
    } else {
        t.offset + t.text@.len()
    }
}

/// Characters that only separate tokens.
pub open spec fn is_blank(c: char) -> bool {
    c == ' ' || c == '\t' || c == ',' || c == '\r' || c == '\n' || c == '\u{feff}'
}

/// Position `k` of the input lies in one of the tokens.
#[verifier::opaque]
pub open spec fn in_token(toks: Seq<Token>, k: int) -> bool {
    exists|t: int| 0 <= t < toks.len() && token_first(#[trigger] toks[t]) <= k < token_after(toks[t])
}

/// Position `k` of the input lies in a comment: after a `#` that is in no
/// token, with no line break between.
#[verifier::opaque]
pub open spec fn in_comment(toks: Seq<Token>, s: Seq<char>, k: int) -> bool {
    exists|j: int|
        0 <= j <= k && s[j] == '#' && !in_token(toks, j) && forall|m: int| j <= m <= k ==> #[trigger] s[m] != '\n'
}

/// Every character of the input is in a token, separates tokens, or is in a comment.
pub open spec fn tokens_cover(toks: Seq<Token>, s: Seq<char>) -> bool {
    forall|k: int| 0 <= k < s.len() ==> in_token(toks, k) || is_blank(#[trigger] s[k]) || in_comment(toks, s, k)
}

fn collect_chars(input: &str) -> (r: Vec<char>)
    ensures
        r@ == input@,
{
    let n = input.unicode_len();
    let mut out: Vec<char> = Vec::new();
    let mut i: usize = 0;
    while i < n
        invariant
            n == input@.len(),
            0 <= i <= n,
            out@ == input@.subrange(0, i as int),
        decreases n - i,
    {
        out.push(input.get_char(i));
        i = i + 1;
        proof { assert(out@ =~= input@.subrange(0, i as int)); }
    }
    proof { assert(out@ =~= input@); }
    out
}

fn is_name_start_char(c: char) -> (r: bool)
    ensures
        r == is_name_start(c),
{
    ('a' <= c && c <= 'z') || ('A' <= c && c <= 'Z') || c == '_'
}

fn is_digit_char(c: char) -> (r: bool)
    ensures
        r == is_digit(c),
{
    '0' <= c && c <= '9'
}

fn is_punct_char(c: char) -> (r: bool)
    ensures
        r == is_punct(c),
{
    c == '!' || c == '$' || c == '&' || c == '(' || c == ')' || c == ':' || c == '=' || c == '@' || c == '['
        || c == ']' || c == '{' || c == '}' || c == '|'
}

/// The value of the digits `chars[from..to]`, if it is at most `limit`.
fn digits_upto(chars: &Vec<char>, from: usize, to: usize, limit: u64) -> (r: Option<u64>)
    requires
        from < to <= chars@.len(),
        forall|k: int| from <= k < to ==> is_digit(#[trigger] chars@[k]),
    ensures
        match r {
            Some(v) => v == digits_value(chars@.subrange(from as int, to as int), to - from) && v <= limit,
            None => digits_value(chars@.subrange(from as int, to as int), to - from) > limit,
        },
{
    let ghost s = chars@.subrange(from as int, to as int);
    let mut acc: u64 = 0;
    let mut i: usize = from;
    while i < to
        invariant
            from <= i <= to,
            to <= chars@.len(),
            s == chars@.subrange(from as int, to as int),
            forall|k: int| from <= k < to ==> is_digit(#[trigger] chars@[k]),
            acc == digits_value(s, i - from),
            acc <= limit,
        decreases to - i,
    {
        let c = chars[i];
        assert(is_digit(chars@[i as int]));
        assert(s[i - from] == c);
        let d: u64 = ((c as u32) - 48) as u64;
        assert(digits_value(s, i - from + 1) == acc * 10 + d);
        if d > limit || acc > (limit - d) / 10 {
            proof {
                assert(acc * 10 + d > limit) by (nonlinear_arith)
                    requires d > limit || acc > (limit - d) / 10, d <= 9, acc >= 0;
                lemma_digits_grow_lex(s, i - from + 1, to - from);
            }
            return None;
        }
        proof {
            assert(acc * 10 + d <= limit) by (nonlinear_arith)
                requires acc <= (limit - d) / 10, d <= limit, d <= 9;
        }
        acc = acc * 10 + d;
        i = i + 1;
    }
    Some(acc)
}

proof fn lemma_digits_grow_lex(s: Seq<char>, i: int, n: int)
    requires
        0 <= i <= n <= s.len(),
        forall|k: int| 0 <= k < n ==> is_digit(#[trigger] s[k]),
    ensures
        digits_value(s, i) <= digits_value(s, n),
    decreases n - i,
{
    if i < n {
        lemma_digits_grow_lex(s, i + 1, n);
        assert(digits_value(s, i + 1) == digits_value(s, i) * 10 + ((s[i] as nat) - 48) as nat);
    }
}

fn error_at(message: &str, pos: Pos) -> (r: ParseError)
    ensures
        r.pos == pos,
        r.message@ == message@,
{
    ParseError { message: String::from_str(message), pos }
}

fn scan_name(chars: &Vec<char>, i: usize) -> (end: usize)
    requires
        i < chars@.len(),
        chars@.len() < usize::MAX - 2,
        is_name_start(chars@[i as int]),
    ensures
        i < end <= chars@.len(),
        forall|k: int| i <= k < end ==> is_name_char(#[trigger] chars@[k]),
        end == chars@.len() || !is_name_char(chars@[end as int]),
{
    let mut k: usize = i + 1;
    while k < chars.len() && (is_name_start_char(chars[k]) || is_digit_char(chars[k]))
        invariant
            i < k <= chars@.len(),
            is_name_start(chars@[i as int]),
            forall|m: int| i <= m < k ==> is_name_char(#[trigger] chars@[m]),
        decreases chars@.len() - k,
    {
        k = k + 1;
    }
    k
}

fn scan_digits(chars: &Vec<char>, j: usize) -> (end: usize)
    requires
        j <= chars@.len(),
    ensures
        j <= end <= chars@.len(),
        forall|k: int| j <= k < end ==> is_digit(#[trigger] chars@[k]),
        end == chars@.len() || !is_digit(chars@[end as int]),
{
    let mut k: usize = j;
    while k < chars.len() && is_digit_char(chars[k])
        invariant
            j <= k <= chars@.len(),
            forall|m: int| j <= m < k ==> is_digit(#[trigger] chars@[m]),
        decreases chars@.len() - k,
    {
        k = k + 1;
    }
    k
}

/// Reads a number at `i`: its kind, where it ends, and for an integer its value.
fn scan_number(chars: &Vec<char>, i: usize) -> (r: Result<(TokenKind, usize, i64), &'static str>)
    requires
        i < chars@.len(),
        chars@.len() < usize::MAX - 2,
    ensures
        r matches Ok((kind, end, v)) ==> {
            &&& i < end <= chars@.len()
            &&& (end == chars@.len() || !(is_name_char(chars@[end as int]) || chars@[end as int] == '.'))
            &&& (kind == TokenKind::Int || kind == TokenKind::Float)
            &&& kind == TokenKind::Int ==> is_int_text(chars@.subrange(i as int, end as int)) && v
                == int_text_value(chars@.subrange(i as int, end as int))
            &&& kind == TokenKind::Float ==> is_float_text(chars@.subrange(i as int, end as int))
        },
{
    let n = chars.len();
    let neg = chars[i] == '-';
    let j: usize = if neg { i + 1 } else { i };
    if j >= n || !is_digit_char(chars[j]) {
        return Err("expected a digit");
    }
    let int_end: usize = if chars[j] == '0' {
        if j + 1 < n && is_digit_char(chars[j + 1]) {
            return Err("a number may not start with a zero");
        }
        j + 1
    } else {
        scan_digits(chars, j)
    };
    let mut k: usize = int_end;
    let mut is_float = false;
    if k < n && chars[k] == '.' {
        if k + 1 < n && is_digit_char(chars[k + 1]) {
            k = scan_digits(chars, k + 1);
            is_float = true;
        } else {
            return Err("expected a digit after the decimal point");
        }
    }
    let ghost frac_end = k;
    if k < n && (chars[k] == 'e' || chars[k] == 'E') {
        k = k + 1;
        if k < n && (chars[k] == '+' || chars[k] == '-') {
            k = k + 1;
        }
        if k < n && is_digit_char(chars[k]) {
            k = scan_digits(chars, k);
            is_float = true;
        } else {
            return Err("expected a digit in the exponent");
        }
    }
    if k < n && (is_name_start_char(chars[k]) || chars[k] == '.') {
        return Err("unexpected character after a number");
    }
    if is_float {
        proof {
            let t = chars@.subrange(i as int, k as int);
            let p = int_end - i;
            let q = frac_end - i;
            assert(forall|x: int| 0 <= x < t.len() ==> t[x] == chars@[i + x]);
            let a = if neg { 1int } else { 0int };
            assert(t[0] == chars@[i as int]);
            assert(digits_in(t, a, p)) by {
                assert forall|x: int| a <= x < p implies is_digit(#[trigger] t[x]) by {
                    assert(t[x] == chars@[i + x]);
                    if chars@[j as int] == '0' {
                        assert(x == a);
                    }
                }
            }
            if q > p {
                assert(digits_in(t, p + 1, q)) by {
                    assert forall|x: int| p + 1 <= x < q implies is_digit(#[trigger] t[x]) by {
                        assert(t[x] == chars@[i + x]);
                    }
                }
            }
            if q < t.len() {
                let c1 = q + 1;
                if c1 < t.len() && (t[c1] == '+' || t[c1] == '-') {
                    assert(digits_in(t, q + 2, t.len() as int)) by {
                        assert forall|x: int| q + 2 <= x < t.len() implies is_digit(#[trigger] t[x]) by {
                            assert(t[x] == chars@[i + x]);
                        }
                    }
                } else {
                    assert(digits_in(t, q + 1, t.len() as int)) by {
                        assert forall|x: int| q + 1 <= x < t.len() implies is_digit(#[trigger] t[x]) by {
                            assert(t[x] == chars@[i + x]);
                        }
                    }
                }
            }
            assert(float_shape(t, p, q));
        }
        return Ok((TokenKind::Float, k, 0));
    }
    assert(k == int_end);
    let limit: u64 = if neg { 9223372036854775808u64 } else { 9223372036854775807u64 };
    let ghost s = chars@.subrange(i as int, k as int);
    proof {
        if neg {
            assert(s.drop_first() =~= chars@.subrange(j as int, k as int));
        } else {
            assert(s =~= chars@.subrange(j as int, k as int));
        }
        assert forall|m: int| j <= m < k implies is_digit(#[trigger] chars@[m]) by {
            if chars@[j as int] == '0' {
                assert(m == j);
            }
        }
    }
    match digits_upto(chars, j, k, limit) {
        None => Err("integer out of range"),
        Some(v) => {
            let value: i64 = if neg {
                if v == 9223372036854775808u64 {
                    i64::MIN
                } else {
                    -(v as i64)
                }
            } else {
                v as i64
            };
            Ok((TokenKind::Int, k, value))
        },
    }
}

/// Where a comment that starts at `i` ends: at the next line break or the end of input.
fn skip_comment(chars: &Vec<char>, i: usize) -> (end: usize)
    requires
        i < chars@.len(),
        chars@.len() < usize::MAX - 2,
        chars@[i as int] == '#',
    ensures
        i < end <= chars@.len(),
        forall|m: int| i <= m < end ==> #[trigger] chars@[m] != '\n',
{
    let mut k: usize = i + 1;
    while k < chars.len() && chars[k] != '\n'
        invariant
            i < k <= chars@.len(),
            chars@[i as int] == '#',
            forall|m: int| i <= m < k ==> #[trigger] chars@[m] != '\n',
        decreases chars@.len() - k,
    {
        k = k + 1;
    }
    k
}

/// Reads a string literal whose opening quote is at `i`; gives the index of the closing quote.
fn scan_string(chars: &Vec<char>, i: usize) -> (r: Result<usize, &'static str>)
    requires
        i < chars@.len(),
        chars@.len() < usize::MAX - 2,
        chars@[i as int] == '"',
    ensures
        r matches Ok(close) ==> i < close < chars@.len() && chars@[close as int] == '"',
{
    let n = chars.len();
    let mut k: usize = i + 1;
    while k < n && chars[k] != '"'
        invariant
            i < k <= n + 1,
            n == chars@.len(),
        decreases n + 1 - k,
    {
        if chars[k] == '\n' || chars[k] == '\r' {
            return Err("unterminated string");
        }
        if chars[k] == '\\' && k + 1 < n {
            k = k + 2;
        } else {
            k = k + 1;
        }
    }
    if k >= n {
        return Err("unterminated string");
    }
    Ok(k)
}

#[verifier::spinoff_prover]
#[verifier::rlimit(60)]
proof fn lemma_push_token_cover(old_toks: Seq<Token>, tok: Token, chars: Seq<char>, i0: int, i: int)
    requires
        token_first(tok) == i0,
        token_after(tok) == i,
        i0 < i,
        forall|t: int| 0 <= t < old_toks.len() ==> token_after(#[trigger] old_toks[t]) <= i0,
        forall|k: int| 0 <= k < i0 ==> in_token(old_toks, k) || is_blank(#[trigger] chars[k]) || in_comment(old_toks, chars, k),
    ensures
        forall|t: int| 0 <= t < old_toks.push(tok).len() ==> token_after(#[trigger] old_toks.push(tok)[t]) <= i,
        forall|k: int|
            0 <= k < i ==> in_token(old_toks.push(tok), k) || is_blank(#[trigger] chars[k]) || in_comment(
                old_toks.push(tok),
                chars,
                k,
            ),
{
    reveal(in_token);
    reveal(in_comment);
    let toks = old_toks.push(tok);
    assert forall|t: int| 0 <= t < toks.len() implies token_after(#[trigger] toks[t]) <= i by {
        if t < toks.len() - 1 {
            assert(toks[t] == old_toks[t]);
        }
    }
    assert forall|k: int| 0 <= k < i implies in_token(toks, k) || is_blank(#[trigger] chars[k]) || in_comment(toks, chars, k) by {
        if k >= i0 {
            let t = toks.len() - 1;
            assert(token_first(toks[t]) <= k < token_after(toks[t]));
        } else if in_token(old_toks, k) {
            let t = choose|t: int| 0 <= t < old_toks.len() && token_first(#[trigger] old_toks[t]) <= k < token_after(old_toks[t]);
            assert(toks[t] == old_toks[t]);
        } else if !is_blank(chars[k]) {
            assert(in_comment(old_toks, chars, k));
            let j = choose|j: int|
                0 <= j <= k && chars[j] == '#' && !in_token(old_toks, j) && forall|m: int| j <= m <= k ==> #[trigger] chars[m] != '\n';
            assert(!in_token(toks, j)) by {
                if in_token(toks, j) {
                    let t = choose|t: int| 0 <= t < toks.len() && token_first(#[trigger] toks[t]) <= j < token_after(toks[t]);
                    if t < toks.len() - 1 {
                        assert(toks[t] == old_toks[t]);
                    }
                }
            }
        }
    }
}

/// Splits query text into tokens, dropping whitespace, commas and comments.
#[verifier::spinoff_prover]
#[verifier::rlimit(60)]
pub fn tokenize(input: &str) -> (r: Result<Vec<Token>, ParseError>)
    ensures
        r matches Ok(ts) ==> tokens_wf(ts@, input@) && tokens_cover(ts@, input@),
        r matches Err(e) ==> e.pos.wf(),
{
    let chars = collect_chars(input);
    let n = chars.len();
    if n >= usize::MAX - 2 {
        return Err(error_at("input too long", Pos { line: 1, column: 1 }));
    }
    let mut toks: Vec<Token> = Vec::new();
    let mut i: usize = 0;
    let mut line: usize = 1;
    let mut col: usize = 1;
    while i < n
        invariant
            chars@ == input@,
            n == chars@.len(),
            n < usize::MAX - 2,
            0 <= i <= n,
            1 <= line <= i + 1,
            1 <= col <= i + 1,
            tokens_wf(toks@, input@),
            toks@.len() > 0 ==> toks@.last().offset + toks@.last().text@.len() <= i,
            forall|t: int| 0 <= t < toks@.len() ==> token_after(#[trigger] toks@[t]) <= i,
            forall|k: int| 0 <= k < i ==> in_token(toks@, k) || is_blank(#[trigger] chars@[k]) || in_comment(toks@, chars@, k),
        decreases n - i,
    {
        let c = chars[i];
        let ghost i0 = i;
        if c == '\n' {
            i = i + 1;
            line = line + 1;
            col = 1;
        } else if c == ' ' || c == '\t' || c == ',' || c == '\r' || c == '\u{feff}' {
            i = i + 1;
            col = col + 1;
        } else if c == '#' {
            let end = skip_comment(&chars, i);
            proof {
                reveal(in_token);
                reveal(in_comment);
                assert(!in_token(toks@, i0 as int)) by {
                    if in_token(toks@, i0 as int) {
                        let t = choose|t: int| 0 <= t < toks@.len() && token_first(#[trigger] toks@[t]) <= i0 < token_after(toks@[t]);
                        assert(token_after(toks@[t]) <= i0);
                    }
                }
                assert forall|k: int| i0 <= k < end implies in_comment(toks@, chars@, k) by {
                    assert(chars@[i0 as int] == '#');
                    assert(forall|m: int| i0 <= m <= k ==> #[trigger] chars@[m] != '\n');
                }
            }
            col = col + (end - i);
            i = end;
        } else {
            let start = Pos { line, column: col };
            let kind: TokenKind;
            let a: usize;
            let b: usize;
            let after: usize;
            let mut int_value: i64 = 0;
            if is_punct_char(c) {
                kind = TokenKind::Punct;
                a = i;
                b = i + 1;
                after = i + 1;
            } else if c == '.' {
                if i + 2 < n && chars[i + 1] == '.' && chars[i + 2] == '.' {
                    kind = TokenKind::Spread;
                    a = i;
                    b = i + 3;
                    after = i + 3;
                } else {
                    return Err(error_at("unexpected character", start));
                }
            } else if is_name_start_char(c) {
                kind = TokenKind::Name;
                a = i;
                b = scan_name(&chars, i);
                after = b;
            } else if c == '-' || is_digit_char(c) {
                match scan_number(&chars, i) {
                    Ok((k, end, v)) => {
                        kind = k;
                        a = i;
                        b = end;
                        after = end;
                        int_value = v;
                    },
                    Err(msg) => {
                        return Err(error_at(msg, start));
                    },
                }
            } else if c == '"' {
                match scan_string(&chars, i) {
                    Ok(close) => {
                        kind = TokenKind::Str;
                        a = i + 1;
                        b = close;
                        after = close + 1;
                    },
                    Err(msg) => {
                        return Err(error_at(msg, start));
                    },
                }
            } else {
                return Err(error_at("unexpected character", start));
            }
            let text = String::from_str(input.substring_char(a, b));
            col = col + (after - i);
            i = after;
            let end = Pos { line, column: col };
            let tok = Token { kind, text, int_value, offset: a, start, end };
            proof {
                assert(text@ == chars@.subrange(a as int, b as int));
                if kind == TokenKind::Spread {
                    assert(text@ =~= seq!['.', '.', '.']);
                }
                if kind == TokenKind::Name {
                    assert forall|k: int| 0 <= k < text@.len() implies is_name_char(#[trigger] text@[k]) by {
                        assert(text@[k] == chars@[a + k]);
                    }
                }
                assert(token_wf(tok, input@));
            }
            let ghost old_toks = toks@;
            let ghost tok_g = tok;
            assert(token_first(tok) == i0);
            assert(token_after(tok) == i);
            toks.push(tok);
            proof {
                assert forall|k: int| 0 <= k < toks@.len() implies token_wf(#[trigger] toks@[k], input@) by {
                    if k < toks@.len() - 1 {
                        assert(toks@[k] == old_toks[k]);
                    }
                }
                lemma_push_token_cover(old_toks, tok_g, chars@, i0 as int, i as int);
            }
        }
    }
    proof {
        assert forall|k: int| 0 <= k < input@.len() implies in_token(toks@, k) || is_blank(#[trigger] input@[k]) || in_comment(toks@, input@, k) by {
            assert(chars@[k] == input@[k]);
        }
    }
    Ok(toks)
}


} // verus!
