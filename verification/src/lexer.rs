//! The lexer: scans raw text into a flat sequence of typed tokens, skipping
//! whitespace and comments, with longest-match-wins disambiguation and the
//! fixed keywords `x`, `m`, `km`, `s` taking priority over a generic word of
//! equal length. A span of text matching no token pattern yields an error
//! item covering it; lexing then resumes after it.

use vstd::prelude::*;
use vstd::string::StrSliceExecFns;

verus! {

/// A lexical token. The composite time literal `<int>:<int>[s]` is kept as
/// written (its text), as is a word; both are resolved by the parser.
#[derive(Debug, Clone, PartialEq)]
pub enum Token {
    /// An integer literal that fits a `u32`.
    Number(u32),
    /// The repetition keyword `x`.
    Times,
    /// `{`
    BraceOpen,
    /// `}`
    BraceClose,
    /// The unit marker `m`.
    Meters,
    /// The unit marker `km`.
    Kilometers,
    /// A generic word: alphabetic, may contain `.` or `-` after the first
    /// character.
    Word(String),
    /// `(`
    ParenOpen,
    /// `)`
    ParenClose,
    /// `,`
    Comma,
    /// `@`
    At,
    /// The bare seconds suffix `s`.
    Seconds,
    /// A composite time literal such as `1:30` or `1:30s`, kept as written.
    Time(String),
}

/// The model of a token: its text parts as character sequences.
pub enum TokenV {
    Number(u32),
    Times,
    BraceOpen,
    BraceClose,
    Meters,
    Kilometers,
    Word(Seq<char>),
    ParenOpen,
    ParenClose,
    Comma,
    At,
    Seconds,
    Time(Seq<char>),
}

impl View for Token {
    type V = TokenV;

    open spec fn view(&self) -> TokenV {
        match self {
            Token::Number(n) => TokenV::Number(*n),
            Token::Times => TokenV::Times,
            Token::BraceOpen => TokenV::BraceOpen,
            Token::BraceClose => TokenV::BraceClose,
            Token::Meters => TokenV::Meters,
            Token::Kilometers => TokenV::Kilometers,
            Token::Word(w) => TokenV::Word(w@),
            Token::ParenOpen => TokenV::ParenOpen,
            Token::ParenClose => TokenV::ParenClose,
            Token::Comma => TokenV::Comma,
            Token::At => TokenV::At,
            Token::Seconds => TokenV::Seconds,
            Token::Time(t) => TokenV::Time(t@),
        }
    }
}

/// One lexed item: a token or a lexing failure, with the half-open span of
/// character positions it covers.
#[derive(Debug, PartialEq)]
pub struct Lexed {
    pub token: Result<Token, ()>,
    pub start: usize,
    pub end: usize,
}

/// The model of one lexed item.
pub struct LexedV {
    pub token: Result<TokenV, ()>,
    pub start: int,
    pub end: int,
}

impl View for Lexed {
    type V = LexedV;

    open spec fn view(&self) -> LexedV {
        LexedV {
            token: match &self.token {
                Ok(t) => Ok(t@),
                Err(e) => Err(*e),
            },
            start: self.start as int,
            end: self.end as int,
        }
    }
}

/// Whitespace skipped between tokens.
pub open spec fn is_space(c: char) -> bool {
    c == ' ' || c == '\t' || c == '\n' || c == '\r'
}

pub open spec fn is_digit(c: char) -> bool {
    '0' as u32 <= c as u32 && c as u32 <= '9' as u32
}

/// A character that can start a word.
pub open spec fn is_alpha(c: char) -> bool {
    ('a' as u32 <= c as u32 && c as u32 <= 'z' as u32) || ('A' as u32 <= c as u32 && c as u32
        <= 'Z' as u32)
}

/// A character that can continue a word: alphabetic, `.` or `-`.
pub open spec fn is_word_char(c: char) -> bool {
    is_alpha(c) || c == '.' || c == '-'
}

/// The numeric value of a digit character.
pub open spec fn digit_val(c: char) -> nat {
    ((c as int) - ('0' as int)) as nat
}

/// The end of the run of digits starting at `i`.
pub open spec fn digit_run_end(s: Seq<char>, i: int) -> int
    decreases s.len() - i,
{
    if 0 <= i < s.len() && is_digit(s[i]) {
        digit_run_end(s, i + 1)
    } else {
        i
    }
}

/// The end of the run of word characters starting at `i`.
pub open spec fn word_run_end(s: Seq<char>, i: int) -> int
    decreases s.len() - i,
{
    if 0 <= i < s.len() && is_word_char(s[i]) {
        word_run_end(s, i + 1)
    } else {
        i
    }
}

/// The value of the decimal digit string `s[i..j]`, read left to right.
pub open spec fn digits_value(s: Seq<char>, i: int, j: int) -> nat
    decreases j - i,
{
    if i < j {
        digits_value(s, i, j - 1) * 10 + digit_val(s[j - 1])
    } else {
        0
    }
}

/// The position of the first line break at or after `i`, or the end of the
/// text: where a line comment ends (the break itself is skipped as
/// whitespace).
pub open spec fn line_end(s: Seq<char>, i: int) -> int
    decreases s.len() - i,
{
    if 0 <= i < s.len() {
        if s[i] == '\n' {
            i
        } else {
            line_end(s, i + 1)
        }
    } else {
        i
    }
}

/// The position right after the `*/` that closes a block comment whose body
/// starts at `i`, if the comment is closed. A `*` must pair with the
/// character after it: `*/` closes, `*` followed by anything else is plain
/// body text consumed together with that character.
pub open spec fn block_comment_end(s: Seq<char>, i: int) -> Option<int>
    decreases s.len() - i,
{
    if 0 <= i < s.len() {
        if s[i] == '*' {
            if i + 1 < s.len() {
                if s[i + 1] == '/' {
                    Some(i + 2)
                } else {
                    block_comment_end(s, i + 2)
                }
            } else {
                None
            }
        } else {
            block_comment_end(s, i + 1)
        }
    } else {
        None
    }
}

/// One lexing step at position `i` (with `0 <= i < s.len()`): either skip to
/// a new position (whitespace or a comment) or emit one item ending at the
/// new position. The new position always lies past `i`.
pub open spec fn lex_step(s: Seq<char>, i: int) -> (Option<Result<TokenV, ()>>, int) {
    let c = s[i];
    if is_space(c) {
        (None, i + 1)
    } else if c == '{' {
        (Some(Ok(TokenV::BraceOpen)), i + 1)
    } else if c == '}' {
        (Some(Ok(TokenV::BraceClose)), i + 1)
    } else if c == '(' {
        (Some(Ok(TokenV::ParenOpen)), i + 1)
    } else if c == ')' {
        (Some(Ok(TokenV::ParenClose)), i + 1)
    } else if c == ',' {
        (Some(Ok(TokenV::Comma)), i + 1)
    } else if c == '@' {
        (Some(Ok(TokenV::At)), i + 1)
    } else if is_digit(c) {
        let j = digit_run_end(s, i);
        if j < s.len() && s[j] == ':' && j + 1 < s.len() && is_digit(s[j + 1]) {
            // The composite time literal is the longer match.
            let k = digit_run_end(s, j + 1);
            let k2 = if k < s.len() && s[k] == 's' {
                k + 1
            } else {
                k
            };
            (Some(Ok(TokenV::Time(s.subrange(i, k2)))), k2)
        } else if digits_value(s, i, j) <= u32::MAX {
            (Some(Ok(TokenV::Number(digits_value(s, i, j) as u32))), j)
        } else {
            // The literal does not fit a u32: the whole run is an error.
            (Some(Err(())), j)
        }
    } else if is_alpha(c) {
        let j = word_run_end(s, i);
        if j == i + 1 && c == 'x' {
            (Some(Ok(TokenV::Times)), j)
        } else if j == i + 1 && c == 'm' {
            (Some(Ok(TokenV::Meters)), j)
        } else if j == i + 1 && c == 's' {
            (Some(Ok(TokenV::Seconds)), j)
        } else if j == i + 2 && c == 'k' && s[i + 1] == 'm' {
            (Some(Ok(TokenV::Kilometers)), j)
        } else {
            (Some(Ok(TokenV::Word(s.subrange(i, j)))), j)
        }
    } else if c == '#' {
        (None, line_end(s, i))
    } else if c == '/' && i + 1 < s.len() && s[i + 1] == '/' {
        (None, line_end(s, i))
    } else if c == '/' && i + 1 < s.len() && s[i + 1] == '*' && block_comment_end(
        s,
        i + 2,
    ) is Some {
        (None, block_comment_end(s, i + 2)->Some_0)
    } else {
        // No token pattern matches here: one error character, then resume.
        (Some(Err(())), i + 1)
    }
}

/// The sequence of items lexed from position `i` to the end of the text.
pub open spec fn spec_lex_from(s: Seq<char>, i: int) -> Seq<LexedV>
    decreases s.len() - i,
{
    if 0 <= i < s.len() {
        let (emit, jr) = lex_step(s, i);
        let j = if i < jr <= s.len() {
            jr
        } else {
            i + 1
        };
        match emit {
            None => spec_lex_from(s, j),
            Some(item) => Seq::empty().push(LexedV { token: item, start: i, end: j }) + spec_lex_from(
                s,
                j,
            ),
        }
    } else {
        Seq::empty()
    }
}

/// The items lexed from a whole text.
pub open spec fn spec_lex(s: Seq<char>) -> Seq<LexedV> {
    spec_lex_from(s, 0)
}

/// The models of a sequence of lexed items.
pub open spec fn lexed_views(s: Seq<Lexed>) -> Seq<LexedV> {
    s.map_values(|l: Lexed| l@)
}

/// The model of one possibly emitted item.
pub open spec fn emit_view(o: Option<Result<Token, ()>>) -> Option<Result<TokenV, ()>> {
    match o {
        Some(Ok(t)) => Some(Ok(t@)),
        Some(Err(e)) => Some(Err(e)),
        None => None,
    }
}

/// A run never ends before its start.
proof fn lemma_digit_run_end_lb(s: Seq<char>, i: int)
    ensures
        digit_run_end(s, i) >= i,
    decreases s.len() - i,
{
    if 0 <= i < s.len() && is_digit(s[i]) {
        lemma_digit_run_end_lb(s, i + 1);
    }
}

/// A word run never ends before its start.
proof fn lemma_word_run_end_lb(s: Seq<char>, i: int)
    ensures
        word_run_end(s, i) >= i,
    decreases s.len() - i,
{
    if 0 <= i < s.len() && is_word_char(s[i]) {
        lemma_word_run_end_lb(s, i + 1);
    }
}

/// A line's end never lies before its start.
proof fn lemma_line_end_lb(s: Seq<char>, i: int)
    ensures
        line_end(s, i) >= i,
    decreases s.len() - i,
{
    if 0 <= i < s.len() && s[i] != '\n' {
        lemma_line_end_lb(s, i + 1);
    }
}

/// Extending a digit string multiplies its value up, so the value never
/// shrinks.
proof fn lemma_digits_value_grows(s: Seq<char>, i: int, t: int, j: int)
    requires
        i <= t <= j,
    ensures
        digits_value(s, i, j) >= digits_value(s, i, t),
    decreases j - t,
{
    if t < j {
        lemma_digits_value_grows(s, i, t, j - 1);
    }
}

/// Whether the digit run continues at `j`.
fn digit_at(s: &str, n: usize, j: usize) -> (r: bool)
    requires
        n as nat == s@.len(),
        j <= n,
    ensures
        r == (j < n && is_digit(s@[j as int])),
{
    if j < n {
        let c = s.get_char(j);
        '0' as u32 <= c as u32 && c as u32 <= '9' as u32
    } else {
        false
    }
}

/// The end of the digit run starting at `i`, with all of it digits and a
/// non-digit (or the end) right after.
#[verifier::loop_isolation(false)]
pub(crate) fn scan_digits(s: &str, n: usize, i: usize) -> (r: usize)
    requires
        n as nat == s@.len(),
        i <= n,
    ensures
        i <= r <= n,
        r as int == digit_run_end(s@, i as int),
        forall|t: int| i <= t < r ==> is_digit(s@[t]),
        r < n ==> !is_digit(s@[r as int]),
{
    let mut j: usize = i;
    while digit_at(s, n, j)
        invariant
            i <= j <= n,
            digit_run_end(s@, i as int) == digit_run_end(s@, j as int),
            forall|t: int| i <= t < j ==> is_digit(s@[t]),
        decreases n - j,
    {
        j = j + 1;
    }
    j
}

/// Whether the word run continues at `j`.
fn word_char_at(s: &str, n: usize, j: usize) -> (r: bool)
    requires
        n as nat == s@.len(),
        j <= n,
    ensures
        r == (j < n && is_word_char(s@[j as int])),
{
    if j < n {
        let c = s.get_char(j);
        ('a' as u32 <= c as u32 && c as u32 <= 'z' as u32) || ('A' as u32 <= c as u32 && c as u32
            <= 'Z' as u32) || c == '.' || c == '-'
    } else {
        false
    }
}

/// The end of the word run starting at `i`.
#[verifier::loop_isolation(false)]
fn scan_word(s: &str, n: usize, i: usize) -> (r: usize)
    requires
        n as nat == s@.len(),
        i <= n,
    ensures
        i <= r <= n,
        r as int == word_run_end(s@, i as int),
{
    let mut j: usize = i;
    while word_char_at(s, n, j)
        invariant
            i <= j <= n,
            word_run_end(s@, i as int) == word_run_end(s@, j as int),
        decreases n - j,
    {
        j = j + 1;
    }
    j
}

/// Whether the line continues at `j` (no line break yet).
fn line_char_at(s: &str, n: usize, j: usize) -> (r: bool)
    requires
        n as nat == s@.len(),
        j <= n,
    ensures
        r == (j < n && s@[j as int] != '\n'),
{
    if j < n {
        let c = s.get_char(j);
        c != '\n'
    } else {
        false
    }
}

/// The position of the first line break at or after `i`, or the end.
#[verifier::loop_isolation(false)]
fn scan_line_end(s: &str, n: usize, i: usize) -> (r: usize)
    requires
        n as nat == s@.len(),
        i <= n,
    ensures
        i <= r <= n,
        r as int == line_end(s@, i as int),
{
    let mut j: usize = i;
    while line_char_at(s, n, j)
        invariant
            i <= j <= n,
            line_end(s@, i as int) == line_end(s@, j as int),
        decreases n - j,
    {
        j = j + 1;
    }
    j
}

/// The position right after the `*/` closing the block comment body that
/// starts at `i`, if any.
#[verifier::loop_isolation(false)]
fn scan_block_comment(s: &str, n: usize, i: usize) -> (r: Option<usize>)
    requires
        n as nat == s@.len(),
        i <= n,
    ensures
        match r {
            Some(e) => i <= e <= n && block_comment_end(s@, i as int) == Some(e as int),
            None => block_comment_end(s@, i as int) is None,
        },
{
    let mut j: usize = i;
    while j < n
        invariant
            i <= j <= n,
            block_comment_end(s@, i as int) == block_comment_end(s@, j as int),
        decreases n - j,
    {
        let c = s.get_char(j);
        if c == '*' {
            if j + 1 < n {
                let c2 = s.get_char(j + 1);
                if c2 == '/' {
                    return Some(j + 2);
                } else {
                    j = j + 2;
                }
            } else {
                return None;
            }
        } else {
            j = j + 1;
        }
    }
    None
}

/// The value of the all-digit range `s[i..j]` as a `u32`, or nothing when it
/// does not fit.
#[verifier::loop_isolation(false)]
pub(crate) fn digits_to_u32(s: &str, n: usize, i: usize, j: usize) -> (r: Option<u32>)
    requires
        n as nat == s@.len(),
        i <= j <= n,
        forall|t: int| i <= t < j ==> is_digit(s@[t]),
    ensures
        match r {
            Some(v) => v as nat == digits_value(s@, i as int, j as int) && digits_value(
                s@,
                i as int,
                j as int,
            ) <= u32::MAX,
            None => digits_value(s@, i as int, j as int) > u32::MAX,
        },
{
    let mut v: u32 = 0;
    let mut t: usize = i;
    while t < j
        invariant
            i <= t <= j,
            v as nat == digits_value(s@, i as int, t as int),
        decreases j - t,
    {
        let c = s.get_char(t);
        let d: u32 = c as u32 - '0' as u32;
        proof {
            assert(is_digit(s@[t as int]));
            assert(d == digit_val(s@[t as int]));
        }
        if v > (u32::MAX - d) / 10 {
            proof {
                assert(digits_value(s@, i as int, t as int + 1) == v as nat * 10 + d);
                assert(v as nat * 10 + d > u32::MAX);
                lemma_digits_value_grows(s@, i as int, t as int + 1, j as int);
            }
            return None;
        }
        v = v * 10 + d;
        t = t + 1;
    }
    Some(v)
}

/// A copy of a lexed token, equal to the one given.
pub(crate) fn clone_token_item(t: &Result<Token, ()>) -> (r: Result<Token, ()>)
    ensures
        r == *t,
{
    match t {
        Ok(tok) => Ok(
            match tok {
                Token::Number(v) => Token::Number(*v),
                Token::Times => Token::Times,
                Token::BraceOpen => Token::BraceOpen,
                Token::BraceClose => Token::BraceClose,
                Token::Meters => Token::Meters,
                Token::Kilometers => Token::Kilometers,
                Token::Word(w) => Token::Word(w.clone()),
                Token::ParenOpen => Token::ParenOpen,
                Token::ParenClose => Token::ParenClose,
                Token::Comma => Token::Comma,
                Token::At => Token::At,
                Token::Seconds => Token::Seconds,
                Token::Time(w) => Token::Time(w.clone()),
            },
        ),
        Err(e) => Err(*e),
    }
}

/// Lexes a whole text into items with spans, exactly as the mathematical
/// lexer describes.
#[verifier::loop_isolation(false)]
pub fn tokenize(input: &str) -> (r: Vec<Lexed>)
    ensures
        lexed_views(r@) == spec_lex(input@),
        forall|t: int| 0 <= t < r@.len() ==> 0 <= #[trigger] r@[t].start < r@[t].end <= input@.len(),
{
    let n = input.unicode_len();
    let mut out: Vec<Lexed> = Vec::new();
    let mut i: usize = 0;
    proof {
        assert(lexed_views(out@) + spec_lex_from(input@, 0) =~= spec_lex(input@));
    }
    while i < n
        invariant
            n as nat == input@.len(),
            0 <= i <= n,
            lexed_views(out@) + spec_lex_from(input@, i as int) == spec_lex(input@),
            forall|t: int|
                0 <= t < out@.len() ==> 0 <= #[trigger] out@[t].start < out@[t].end <= input@.len(),
        decreases n - i,
    {
        let ghost prev = out@;
        let ghost gi = i as int;
        let c = input.get_char(i);
        let mut emit: Option<Result<Token, ()>> = None;
        let mut j: usize = i + 1;
        if c == ' ' || c == '\t' || c == '\n' || c == '\r' {
            proof {
                assert(lex_step(input@, gi) == (None::<Result<TokenV, ()>>, gi + 1));
            }
        } else if c == '{' {
            emit = Some(Ok(Token::BraceOpen));
        } else if c == '}' {
            emit = Some(Ok(Token::BraceClose));
        } else if c == '(' {
            emit = Some(Ok(Token::ParenOpen));
        } else if c == ')' {
            emit = Some(Ok(Token::ParenClose));
        } else if c == ',' {
            emit = Some(Ok(Token::Comma));
        } else if c == '@' {
            emit = Some(Ok(Token::At));
        } else if '0' as u32 <= c as u32 && c as u32 <= '9' as u32 {
            let dr = scan_digits(input, n, i);
            proof {
                lemma_digit_run_end_lb(input@, gi + 1);
                assert(is_digit(input@[gi]));
                assert(dr > i);
            }
            let time_shape = if dr < n {
                let cc = input.get_char(dr);
                cc == ':' && dr + 1 < n && digit_at(input, n, dr + 1)
            } else {
                false
            };
            if time_shape {
                let k = scan_digits(input, n, dr + 1);
                let k2 = if k < n {
                    let cs = input.get_char(k);
                    if cs == 's' {
                        k + 1
                    } else {
                        k
                    }
                } else {
                    k
                };
                let text = input.substring_char(i, k2).to_owned();
                emit = Some(Ok(Token::Time(text)));
                j = k2;
            } else {
                match digits_to_u32(input, n, i, dr) {
                    Some(v) => {
                        emit = Some(Ok(Token::Number(v)));
                    },
                    None => {
                        emit = Some(Err(()));
                    },
                }
                j = dr;
                proof {
                    assert(j > i);
                }
            }
        } else if ('a' as u32 <= c as u32 && c as u32 <= 'z' as u32) || ('A' as u32 <= c as u32
            && c as u32 <= 'Z' as u32) {
            let wr = scan_word(input, n, i);
            proof {
                lemma_word_run_end_lb(input@, gi + 1);
                assert(is_word_char(input@[gi]));
                assert(wr > i);
            }
            j = wr;
            if wr - i == 1 && c == 'x' {
                emit = Some(Ok(Token::Times));
            } else if wr - i == 1 && c == 'm' {
                emit = Some(Ok(Token::Meters));
            } else if wr - i == 1 && c == 's' {
                emit = Some(Ok(Token::Seconds));
            } else if wr - i == 2 && c == 'k' {
                let c2 = input.get_char(i + 1);
                if c2 == 'm' {
                    emit = Some(Ok(Token::Kilometers));
                } else {
                    let text = input.substring_char(i, wr).to_owned();
                    emit = Some(Ok(Token::Word(text)));
                }
            } else {
                let text = input.substring_char(i, wr).to_owned();
                emit = Some(Ok(Token::Word(text)));
            }
        } else if c == '#' {
            let le = scan_line_end(input, n, i);
            proof {
                lemma_line_end_lb(input@, gi + 1);
                assert(input@[gi] != '\n');
                assert(le > i);
            }
            j = le;
        } else if c == '/' && i + 1 < n && input.get_char(i + 1) == '/' {
            let le = scan_line_end(input, n, i);
            proof {
                lemma_line_end_lb(input@, gi + 1);
                assert(input@[gi] != '\n');
                assert(le > i);
            }
            j = le;
        } else if c == '/' && i + 1 < n && input.get_char(i + 1) == '*' && scan_block_comment(
            input,
            n,
            i + 2,
        ).is_some() {
            let bce = scan_block_comment(input, n, i + 2);
            match bce {
                Some(e) => {
                    proof {
                        assert(e > i);
                    }
                    j = e;
                },
                None => {
                    proof {
                        assert(false);
                    }
                },
            }
        } else {
            emit = Some(Err(()));
        }
        proof {
            assert(gi < j <= n);
            assert(lex_step(input@, gi) == (emit_view(emit), j as int));
        }
        match emit {
            Some(tk) => {
                let l = Lexed { token: tk, start: i, end: j };
                out.push(l);
                proof {
                    assert forall|t: int| 0 <= t < out@.len() implies 0 <= #[trigger] out@[t].start
                        < out@[t].end <= input@.len() by {
                        if t < prev.len() {
                            assert(out@[t] == prev[t]);
                        } else {
                            assert(out@[t] == l);
                        }
                    }
                    assert(spec_lex_from(input@, gi) == Seq::empty().push(l@) + spec_lex_from(
                        input@,
                        j as int,
                    ));
                    assert(lexed_views(out@) =~= lexed_views(prev) + Seq::empty().push(l@));
                    assert(lexed_views(out@) + spec_lex_from(input@, j as int) =~= lexed_views(
                        prev,
                    ) + spec_lex_from(input@, gi));
                }
            },
            None => {
                proof {
                    assert(spec_lex_from(input@, gi) == spec_lex_from(input@, j as int));
                }
            },
        }
        i = j;
    }
    proof {
        assert(spec_lex_from(input@, i as int) =~= Seq::<LexedV>::empty());
        assert(lexed_views(out@) =~= lexed_views(out@) + spec_lex_from(input@, i as int));
    }
    out
}

/// The token sequence of a text: the lexed items without their spans.
pub open spec fn spec_tokens(s: Seq<char>) -> Seq<Result<TokenV, ()>> {
    spec_lex(s).map_values(|l: LexedV| l.token)
}

/// A cursor over the lexed items of one source text, handing tokens out one
/// by one together with the span and slice of the last one.
pub struct Lexer {
    src: String,
    items: Vec<Lexed>,
    pos: usize,
    span_start: usize,
    span_end: usize,
}

impl Lexer {
    /// The models of the lexed items of the source.
    pub closed spec fn spec_items(&self) -> Seq<LexedV> {
        lexed_views(self.items@)
    }

    /// The source text's characters.
    pub closed spec fn spec_src(&self) -> Seq<char> {
        self.src@
    }

    /// How many items have been handed out.
    pub closed spec fn spec_pos(&self) -> int {
        self.pos as int
    }

    /// The span of the item handed out last, as character positions.
    pub closed spec fn spec_span(&self) -> (int, int) {
        (self.span_start as int, self.span_end as int)
    }

    /// The items are the lexing of the source and every span lies within it.
    pub closed spec fn wf(&self) -> bool {
        &&& lexed_views(self.items@) == spec_lex(self.src@)
        &&& self.pos <= self.items@.len()
        &&& forall|t: int|
            0 <= t < self.items@.len() ==> 0 <= #[trigger] self.items@[t].start
                < self.items@[t].end <= self.src@.len()
        &&& self.span_start <= self.span_end <= self.src@.len()
    }

    /// A cursor at the start of the given text's items.
    pub fn new(input: &str) -> (r: Lexer)
        ensures
            r.wf(),
            r.spec_items() == spec_lex(input@),
            r.spec_src() == input@,
            r.spec_pos() == 0,
            r.spec_span() == (0int, 0int),
    {
        let items = tokenize(input);
        Lexer { src: input.to_owned(), items, pos: 0, span_start: 0, span_end: 0 }
    }

    /// The next item's token, or nothing at the end of the items. The span
    /// and the slice then describe the token handed out.
    pub fn next(&mut self) -> (r: Option<Result<Token, ()>>)
        requires
            old(self).wf(),
        ensures
            final(self).wf(),
            final(self).spec_items() == old(self).spec_items(),
            final(self).spec_src() == old(self).spec_src(),
            ({
                let its = old(self).spec_items();
                let p = old(self).spec_pos();
                if p < its.len() {
                    &&& final(self).spec_pos() == p + 1
                    &&& r matches Some(t) && emit_view(Some(t)) == Some(its[p].token)
                    &&& final(self).spec_span() == (its[p].start, its[p].end)
                } else {
                    &&& r is None
                    &&& final(self).spec_pos() == p
                    &&& final(self).spec_span() == old(self).spec_span()
                }
            }),
    {
        if self.pos < self.items.len() {
            let start = self.items[self.pos].start;
            let end = self.items[self.pos].end;
            let t = clone_token_item(&self.items[self.pos].token);
            self.span_start = start;
            self.span_end = end;
            self.pos = self.pos + 1;
            Some(t)
        } else {
            None
        }
    }

    /// The half-open span of character positions of the last token.
    pub fn span(&self) -> (r: (usize, usize))
        ensures
            (r.0 as int, r.1 as int) == self.spec_span(),
    {
        (self.span_start, self.span_end)
    }

    /// The source text under the last span.
    pub fn slice(&self) -> (r: String)
        requires
            self.wf(),
        ensures
            r@ == self.spec_src().subrange(self.spec_span().0, self.spec_span().1),
    {
        self.src.as_str().substring_char(self.span_start, self.span_end).to_owned()
    }
}

} // verus!
