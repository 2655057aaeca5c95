//! The parser: consumes the buffered token sequence with one- and two-token
//! lookahead and builds the abstract syntax tree by recursive descent. The
//! mathematical parser below fixes the grammar:
//!
//! ```text
//! workout    := set*                      (until the tokens are exhausted)
//! set        := repetition | block | statement
//! repetition := NUMBER 'x' set
//! block      := '{' set* '}'
//! statement  := distance stroke interval?
//! distance   := NUMBER ('m' | 'km')
//! stroke     := WORD ( '(' WORD (',' WORD)* ')' )?
//! interval   := '@' ( NUMBER 's'? | TIME )
//! ```
//!
//! Each executable method returns `Ok` exactly when the mathematical parser
//! succeeds from the same position, and then builds exactly its result; the
//! first deviation from the grammar aborts the whole parse with an error.

use vstd::prelude::*;
use vstd::string::StrSliceExecFns;
use vstd::string::StringExecFns;

use crate::ast::{
    set_node_view, set_seq_view, Distance, DistanceUnit, Interval, SetNode, SetNodeV, Statement,
    StatementV, Stroke, StrokeV, Workout, WorkoutV,
};
use crate::lexer::{
    clone_token_item, digits_to_u32, digits_value, is_digit, scan_digits, spec_tokens, tokenize,
    Token, TokenV,
};

verus! {

/// The model of one buffered token slot.
pub open spec fn token_item_view(t: Result<Token, ()>) -> Result<TokenV, ()> {
    match t {
        Ok(tok) => Ok(tok@),
        Err(e) => Err(e),
    }
}

/// The models of the buffered token slots.
pub open spec fn token_items_view(s: Seq<Result<Token, ()>>) -> Seq<Result<TokenV, ()>> {
    s.map_values(|t: Result<Token, ()>| token_item_view(t))
}

/// The position of the first `:` at or after `i`, or the end of the text.
pub open spec fn first_colon(s: Seq<char>, i: int) -> int
    decreases s.len() - i,
{
    if 0 <= i < s.len() {
        if s[i] == ':' {
            i
        } else {
            first_colon(s, i + 1)
        }
    } else {
        i
    }
}

/// The end of `s[i..j]` once every trailing `s` has been stripped.
pub open spec fn strip_s_end(s: Seq<char>, i: int, j: int) -> int
    decreases j - i,
{
    if i < j && s[j - 1] == 's' {
        strip_s_end(s, i, j - 1)
    } else {
        j
    }
}

/// The `u32` that the range `s[i..j]` spells: defined when the range is
/// nonempty, all digits, and its value fits.
pub open spec fn spec_parse_u32_range(s: Seq<char>, i: int, j: int) -> Option<u32> {
    if i < j && (forall|t: int| i <= t < j ==> is_digit(#[trigger] s[t])) && digits_value(s, i, j)
        <= u32::MAX {
        Some(digits_value(s, i, j) as u32)
    } else {
        None
    }
}

/// A composite time literal split on its single `:`, with every trailing `s`
/// stripped from the seconds part before numeric parsing. A missing or
/// doubled `:` or a malformed part yields nothing.
pub open spec fn spec_parse_time(text: Seq<char>) -> Option<Interval> {
    let len = text.len() as int;
    let c1 = first_colon(text, 0);
    if c1 < len && first_colon(text, c1 + 1) == len {
        let sec_end = strip_s_end(text, c1 + 1, len);
        match (spec_parse_u32_range(text, 0, c1), spec_parse_u32_range(text, c1 + 1, sec_end)) {
            (Some(m), Some(sec)) => Some(Interval::MinutesSeconds { minutes: m, seconds: sec }),
            _ => None,
        }
    } else {
        None
    }
}

/// The mathematical parse of one set starting at `pos`: the dispatch reads
/// one token, and for a number peeks one further token to choose between a
/// repetition and a statement.
pub open spec fn sp_set(toks: Seq<Result<TokenV, ()>>, pos: int) -> Option<(SetNodeV, int)>
    decreases toks.len() - pos, 2int,
{
    if 0 <= pos < toks.len() {
        match toks[pos] {
            Ok(TokenV::Number(n)) => {
                if pos + 1 < toks.len() && toks[pos + 1] == Ok::<TokenV, ()>(TokenV::Times) {
                    sp_repetition(toks, pos)
                } else {
                    match sp_statement(toks, pos) {
                        Some((st, p2)) => Some((SetNodeV::Statement(st), p2)),
                        None => None,
                    }
                }
            },
            Ok(TokenV::BraceOpen) => sp_block(toks, pos),
            _ => None,
        }
    } else {
        None
    }
}

/// The mathematical parse of a repetition: a count, the keyword `x`, then a
/// set.
pub open spec fn sp_repetition(toks: Seq<Result<TokenV, ()>>, pos: int) -> Option<(SetNodeV, int)>
    decreases toks.len() - pos, 1int,
{
    if 0 <= pos < toks.len() {
        match toks[pos] {
            Ok(TokenV::Number(n)) => {
                if pos + 1 < toks.len() && toks[pos + 1] == Ok::<TokenV, ()>(TokenV::Times) {
                    match sp_set(toks, pos + 2) {
                        Some((child, p2)) => Some(
                            (SetNodeV::Repetition { count: n, set: Box::new(child) }, p2),
                        ),
                        None => None,
                    }
                } else {
                    None
                }
            },
            _ => None,
        }
    } else {
        None
    }
}

/// The mathematical parse of a block: `{`, member sets, `}`.
pub open spec fn sp_block(toks: Seq<Result<TokenV, ()>>, pos: int) -> Option<(SetNodeV, int)>
    decreases toks.len() - pos, 1int,
{
    if 0 <= pos < toks.len() && toks[pos] == Ok::<TokenV, ()>(TokenV::BraceOpen) {
        match sp_block_items(toks, pos + 1) {
            Some((sets, p2)) => Some((SetNodeV::Block { sets }, p2)),
            None => None,
        }
    } else {
        None
    }
}

/// The member sets of a block, up to and including the closing brace.
/// Running out of tokens inside the block is a failure.
pub open spec fn sp_block_items(toks: Seq<Result<TokenV, ()>>, pos: int) -> Option<
    (Seq<SetNodeV>, int),
>
    decreases toks.len() - pos, 3int,
{
    if 0 <= pos < toks.len() {
        if toks[pos] == Ok::<TokenV, ()>(TokenV::BraceClose) {
            Some((Seq::empty(), pos + 1))
        } else {
            match sp_set(toks, pos) {
                Some((s, p2)) => if pos < p2 <= toks.len() {
                    match sp_block_items(toks, p2) {
                        Some((rest, p3)) => Some((Seq::empty().push(s) + rest, p3)),
                        None => None,
                    }
                } else {
                    None
                },
                None => None,
            }
        }
    } else {
        None
    }
}

/// The mathematical parse of a statement: a distance, a stroke, and an
/// optional interval.
pub open spec fn sp_statement(toks: Seq<Result<TokenV, ()>>, pos: int) -> Option<(StatementV, int)>
    decreases toks.len() - pos, 1int,
{
    match sp_distance(toks, pos) {
        Some((d, p1)) => match sp_stroke(toks, p1) {
            Some((stk, p2)) => if p1 < p2 {
                match sp_interval(toks, p2) {
                    Some((iv, p3)) => Some(
                        (StatementV { distance: d, stroke: stk, interval: iv }, p3),
                    ),
                    None => None,
                }
            } else {
                None
            },
            None => None,
        },
        None => None,
    }
}

/// The mathematical parse of a distance: a number and a unit marker.
pub open spec fn sp_distance(toks: Seq<Result<TokenV, ()>>, pos: int) -> Option<(Distance, int)> {
    if 0 <= pos < toks.len() {
        match toks[pos] {
            Ok(TokenV::Number(n)) => {
                if pos + 1 < toks.len() {
                    match toks[pos + 1] {
                        Ok(TokenV::Meters) => Some(
                            (Distance { value: n, unit: DistanceUnit::Meters }, pos + 2),
                        ),
                        Ok(TokenV::Kilometers) => Some(
                            (Distance { value: n, unit: DistanceUnit::Kilometers }, pos + 2),
                        ),
                        _ => None,
                    }
                } else {
                    None
                }
            },
            _ => None,
        }
    } else {
        None
    }
}

/// The mathematical parse of a stroke: a word, optionally followed by a
/// parenthesized comma-separated modifier list.
pub open spec fn sp_stroke(toks: Seq<Result<TokenV, ()>>, pos: int) -> Option<(StrokeV, int)>
    decreases toks.len() - pos, 1int,
{
    if 0 <= pos < toks.len() {
        match toks[pos] {
            Ok(TokenV::Word(w)) => {
                if pos + 1 < toks.len() && toks[pos + 1] == Ok::<TokenV, ()>(TokenV::ParenOpen) {
                    match sp_modifiers(toks, pos + 2) {
                        Some((mods, p2)) => Some((StrokeV { name: w, modifiers: mods }, p2)),
                        None => None,
                    }
                } else {
                    Some((StrokeV { name: w, modifiers: Seq::empty() }, pos + 1))
                }
            },
            _ => None,
        }
    } else {
        None
    }
}

/// The modifier list after the opening parenthesis: each step needs a word
/// followed by `,` to continue or `)` to close; anything else fails.
pub open spec fn sp_modifiers(toks: Seq<Result<TokenV, ()>>, pos: int) -> Option<
    (Seq<Seq<char>>, int),
>
    decreases toks.len() - pos,
{
    if 0 <= pos < toks.len() {
        match toks[pos] {
            Ok(TokenV::Word(w)) => {
                if pos + 1 < toks.len() {
                    if toks[pos + 1] == Ok::<TokenV, ()>(TokenV::Comma) {
                        match sp_modifiers(toks, pos + 2) {
                            Some((rest, p2)) => Some((Seq::empty().push(w) + rest, p2)),
                            None => None,
                        }
                    } else if toks[pos + 1] == Ok::<TokenV, ()>(TokenV::ParenClose) {
                        Some((Seq::empty().push(w), pos + 2))
                    } else {
                        None
                    }
                } else {
                    None
                }
            },
            _ => None,
        }
    } else {
        None
    }
}

/// The mathematical parse of an optional interval: nothing without a leading
/// `@`; after one, a plain number with a cosmetic `s`, or a composite time
/// literal.
pub open spec fn sp_interval(toks: Seq<Result<TokenV, ()>>, pos: int) -> Option<
    (Option<Interval>, int),
> {
    if 0 <= pos < toks.len() && toks[pos] == Ok::<TokenV, ()>(TokenV::At) {
        if pos + 1 < toks.len() {
            match toks[pos + 1] {
                Ok(TokenV::Number(n)) => {
                    if pos + 2 < toks.len() && toks[pos + 2] == Ok::<TokenV, ()>(TokenV::Seconds) {
                        Some((Some(Interval::Seconds(n)), pos + 3))
                    } else {
                        Some((Some(Interval::Seconds(n)), pos + 2))
                    }
                },
                Ok(TokenV::Time(text)) => match spec_parse_time(text) {
                    Some(iv) => Some((Some(iv), pos + 2)),
                    None => None,
                },
                _ => None,
            }
        } else {
            None
        }
    } else {
        Some((None, pos))
    }
}

/// The top-level sets of a workout, until the tokens are exhausted.
pub open spec fn sp_workout_items(toks: Seq<Result<TokenV, ()>>, pos: int) -> Option<Seq<SetNodeV>>
    decreases toks.len() - pos, 3int,
{
    if 0 <= pos < toks.len() {
        match sp_set(toks, pos) {
            Some((s, p2)) => if pos < p2 <= toks.len() {
                match sp_workout_items(toks, p2) {
                    Some(rest) => Some(Seq::empty().push(s) + rest),
                    None => None,
                }
            } else {
                None
            },
            None => None,
        }
    } else {
        Some(Seq::empty())
    }
}

/// The mathematical parse of a whole token sequence into a workout.
pub open spec fn spec_parse(toks: Seq<Result<TokenV, ()>>) -> Option<WorkoutV> {
    match sp_workout_items(toks, 0) {
        Some(sets) => Some(WorkoutV { sets }),
        None => None,
    }
}

/// A successful parse of one set reads only sound tokens: every consumed
/// slot up to the new position holds a token, none a lexing failure.
proof fn lemma_sp_set_ok_tokens(toks: Seq<Result<TokenV, ()>>, pos: int)
    requires
        0 <= pos <= toks.len(),
    ensures
        sp_set(toks, pos) matches Some((s, p)) ==> pos <= p <= toks.len() && (forall|i: int|
            pos <= i < p ==> toks[i] is Ok),
    decreases toks.len() - pos, 2int,
{
    if pos < toks.len() {
        match toks[pos] {
            Ok(TokenV::Number(n)) => {
                if pos + 1 < toks.len() && toks[pos + 1] == Ok::<TokenV, ()>(TokenV::Times) {
                    lemma_sp_repetition_ok_tokens(toks, pos);
                } else {
                    lemma_sp_statement_ok_tokens(toks, pos);
                }
            },
            Ok(TokenV::BraceOpen) => {
                lemma_sp_block_ok_tokens(toks, pos);
            },
            _ => {},
        }
    }
}

/// A successful parse of a repetition reads only sound tokens.
proof fn lemma_sp_repetition_ok_tokens(toks: Seq<Result<TokenV, ()>>, pos: int)
    requires
        0 <= pos <= toks.len(),
    ensures
        sp_repetition(toks, pos) matches Some((s, p)) ==> pos <= p <= toks.len() && (forall|i: int|
            pos <= i < p ==> toks[i] is Ok),
    decreases toks.len() - pos, 1int,
{
    if pos + 1 < toks.len() {
        lemma_sp_set_ok_tokens(toks, pos + 2);
    }
}

/// A successful parse of a block reads only sound tokens.
proof fn lemma_sp_block_ok_tokens(toks: Seq<Result<TokenV, ()>>, pos: int)
    requires
        0 <= pos <= toks.len(),
    ensures
        sp_block(toks, pos) matches Some((s, p)) ==> pos <= p <= toks.len() && (forall|i: int|
            pos <= i < p ==> toks[i] is Ok),
    decreases toks.len() - pos, 1int,
{
    if pos < toks.len() {
        lemma_sp_block_items_ok_tokens(toks, pos + 1);
    }
}

/// A successful parse of a block's members reads only sound tokens.
proof fn lemma_sp_block_items_ok_tokens(toks: Seq<Result<TokenV, ()>>, pos: int)
    requires
        0 <= pos <= toks.len(),
    ensures
        sp_block_items(toks, pos) matches Some((sets, p)) ==> pos <= p <= toks.len() && (
        forall|i: int| pos <= i < p ==> toks[i] is Ok),
    decreases toks.len() - pos, 3int,
{
    if pos < toks.len() && toks[pos] != Ok::<TokenV, ()>(TokenV::BraceClose) {
        lemma_sp_set_ok_tokens(toks, pos);
        match sp_set(toks, pos) {
            Some((s, p2)) => {
                if pos < p2 <= toks.len() {
                    lemma_sp_block_items_ok_tokens(toks, p2);
                }
            },
            None => {},
        }
    }
}

/// A successful parse of a statement reads only sound tokens.
proof fn lemma_sp_statement_ok_tokens(toks: Seq<Result<TokenV, ()>>, pos: int)
    requires
        0 <= pos <= toks.len(),
    ensures
        sp_statement(toks, pos) matches Some((st, p)) ==> pos <= p <= toks.len() && (forall|i: int|
            pos <= i < p ==> toks[i] is Ok),
    decreases toks.len() - pos, 1int,
{
    match sp_distance(toks, pos) {
        Some((d, p1)) => {
            lemma_sp_stroke_ok_tokens(toks, p1);
            match sp_stroke(toks, p1) {
                Some((stk, p2)) => {
                    if p1 < p2 {
                        lemma_sp_interval_ok_tokens(toks, p2);
                    }
                },
                None => {},
            }
        },
        None => {},
    }
}

/// A successful parse of a stroke reads only sound tokens.
proof fn lemma_sp_stroke_ok_tokens(toks: Seq<Result<TokenV, ()>>, pos: int)
    requires
        0 <= pos <= toks.len(),
    ensures
        sp_stroke(toks, pos) matches Some((stk, p)) ==> pos <= p <= toks.len() && (forall|i: int|
            pos <= i < p ==> toks[i] is Ok),
    decreases toks.len() - pos, 1int,
{
    if pos + 1 < toks.len() {
        lemma_sp_modifiers_ok_tokens(toks, pos + 2);
    }
}

/// A successful parse of a modifier list reads only sound tokens.
proof fn lemma_sp_modifiers_ok_tokens(toks: Seq<Result<TokenV, ()>>, pos: int)
    ensures
        sp_modifiers(toks, pos) matches Some((mods, p)) ==> pos <= p <= toks.len() && (
        forall|i: int| pos <= i < p ==> toks[i] is Ok),
    decreases toks.len() - pos,
{
    if 0 <= pos && pos + 1 < toks.len() {
        lemma_sp_modifiers_ok_tokens(toks, pos + 2);
    }
}

/// A successful parse of an optional interval reads only sound tokens.
proof fn lemma_sp_interval_ok_tokens(toks: Seq<Result<TokenV, ()>>, pos: int)
    requires
        0 <= pos <= toks.len(),
    ensures
        sp_interval(toks, pos) matches Some((iv, p)) ==> pos <= p <= toks.len() && (forall|i: int|
            pos <= i < p ==> toks[i] is Ok),
{
}

/// A successful parse of a whole workout reads only sound tokens, and reads
/// them all.
proof fn lemma_sp_workout_ok_tokens(toks: Seq<Result<TokenV, ()>>, pos: int)
    requires
        0 <= pos <= toks.len(),
    ensures
        sp_workout_items(toks, pos) is Some ==> (forall|i: int|
            pos <= i < toks.len() ==> toks[i] is Ok),
    decreases toks.len() - pos, 3int,
{
    if pos < toks.len() {
        lemma_sp_set_ok_tokens(toks, pos);
        match sp_set(toks, pos) {
            Some((s, p2)) => {
                if pos < p2 <= toks.len() {
                    lemma_sp_workout_ok_tokens(toks, p2);
                }
            },
            None => {},
        }
    }
}

/// A lexical failure is never silently passed over: a token sequence with an
/// error slot anywhere parses to no workout at all.
pub proof fn law_lex_failure_fails_parse(toks: Seq<Result<TokenV, ()>>, i: int)
    requires
        0 <= i < toks.len(),
        toks[i] is Err,
    ensures
        spec_parse(toks) is None,
{
    if sp_workout_items(toks, 0) is Some {
        lemma_sp_workout_ok_tokens(toks, 0);
    }
}

/// Which grammar production the two-token lookahead commits to.
enum Dispatch {
    Repetition,
    Statement,
    Block,
    Bad,
}

/// The dispatch decision at `pos`.
spec fn spec_dispatch(toks: Seq<Result<TokenV, ()>>, pos: int) -> Dispatch {
    if 0 <= pos < toks.len() {
        match toks[pos] {
            Ok(TokenV::Number(n)) => {
                if pos + 1 < toks.len() && toks[pos + 1] == Ok::<TokenV, ()>(TokenV::Times) {
                    Dispatch::Repetition
                } else {
                    Dispatch::Statement
                }
            },
            Ok(TokenV::BraceOpen) => Dispatch::Block,
            _ => Dispatch::Bad,
        }
    } else {
        Dispatch::Bad
    }
}

/// A recursive-descent parser over a buffered, indexable token sequence.
pub struct Parser {
    tokens: Vec<Result<Token, ()>>,
    current: usize,
}

impl Parser {
    /// The models of the buffered tokens.
    pub closed spec fn toks(&self) -> Seq<Result<TokenV, ()>> {
        token_items_view(self.tokens@)
    }

    /// The index of the next token to consume.
    pub closed spec fn pos(&self) -> int {
        self.current as int
    }

    /// The cursor never lies past the end of the buffer.
    pub closed spec fn wf(&self) -> bool {
        self.current <= self.tokens@.len()
    }

    /// A parser over the token sequence of the given text, at its start.
    #[verifier::loop_isolation(false)]
    pub fn new(input: &str) -> (r: Parser)
        ensures
            r.wf(),
            r.toks() == spec_tokens(input@),
            r.pos() == 0,
    {
        let items = tokenize(input);
        let mut tokens: Vec<Result<Token, ()>> = Vec::new();
        let mut idx: usize = 0;
        while idx < items.len()
            invariant
                0 <= idx <= items@.len(),
                tokens@.len() == idx,
                forall|j: int|
                    0 <= j < idx ==> token_item_view(#[trigger] tokens@[j]) == spec_tokens(
                        input@,
                    )[j],
            decreases items@.len() - idx,
        {
            let t = clone_token_item(&items[idx].token);
            proof {
                assert(spec_tokens(input@)[idx as int] == items@[idx as int]@.token);
            }
            tokens.push(t);
            idx = idx + 1;
        }
        proof {
            assert(token_items_view(tokens@) =~= spec_tokens(input@));
        }
        Parser { tokens, current: 0 }
    }

    /// The token at the cursor, without consuming it.
    fn peek(&self) -> (r: Option<&Result<Token, ()>>)
        requires
            self.wf(),
        ensures
            match r {
                Some(t) => self.pos() < self.toks().len() && token_item_view(*t) == self.toks()[
                    self.pos()
                ],
                None => self.pos() >= self.toks().len(),
            },
    {
        if self.current < self.tokens.len() {
            Some(&self.tokens[self.current])
        } else {
            None
        }
    }

    /// The token `n` places past the cursor, without consuming anything.
    fn peek_nth(&self, n: usize) -> (r: Option<&Result<Token, ()>>)
        requires
            self.wf(),
        ensures
            match r {
                Some(t) => self.pos() + n < self.toks().len() && token_item_view(*t)
                    == self.toks()[self.pos() + n],
                None => self.pos() + n >= self.toks().len(),
            },
    {
        if self.current < self.tokens.len() && n < self.tokens.len() - self.current {
            Some(&self.tokens[self.current + n])
        } else {
            None
        }
    }

    /// The token at the cursor, consuming it.
    fn next(&mut self) -> (r: Option<Result<Token, ()>>)
        requires
            old(self).wf(),
        ensures
            final(self).wf(),
            final(self).toks() == old(self).toks(),
            match r {
                Some(t) => old(self).pos() < old(self).toks().len() && token_item_view(t) == old(self).toks()[old(self).pos()] && final(self).pos() == old(self).pos() + 1,
                None => old(self).pos() >= old(self).toks().len() && final(self).pos() == old(self).pos(),
            },
    {
        if self.current < self.tokens.len() {
            let t = clone_token_item(&self.tokens[self.current]);
            self.current = self.current + 1;
            Some(t)
        } else {
            None
        }
    }

    /// The dispatch decision at the cursor.
    fn dispatch(&self) -> (r: Dispatch)
        requires
            self.wf(),
        ensures
            r == spec_dispatch(self.toks(), self.pos()),
    {
        let first_num = match self.peek() {
            Some(Ok(Token::Number(_))) => true,
            _ => false,
        };
        if first_num {
            let next_times = match self.peek_nth(1) {
                Some(Ok(Token::Times)) => true,
                _ => false,
            };
            if next_times {
                Dispatch::Repetition
            } else {
                proof {
                    if self.pos() + 1 < self.toks().len() {
                        assert(self.toks()[self.pos() + 1] == token_item_view(
                            self.tokens@[self.pos() + 1],
                        ));
                        assert(self.toks()[self.pos() + 1] != Ok::<TokenV, ()>(TokenV::Times));
                    }
                }
                Dispatch::Statement
            }
        } else {
            let first_brace = match self.peek() {
                Some(Ok(Token::BraceOpen)) => true,
                _ => false,
            };
            if first_brace {
                Dispatch::Block
            } else {
                proof {
                    if self.pos() < self.toks().len() {
                        assert(self.toks()[self.pos()] == token_item_view(
                            self.tokens@[self.pos()],
                        ));
                        assert(!(self.toks()[self.pos()] matches Ok(TokenV::Number(_))));
                        assert(self.toks()[self.pos()] != Ok::<TokenV, ()>(TokenV::BraceOpen));
                    }
                }
                Dispatch::Bad
            }
        }
    }

    /// Parses the whole token sequence into a workout: the top-level sets in
    /// program order. Returns `Ok` exactly when the mathematical parser
    /// accepts the tokens, with exactly its tree; any deviation from the
    /// grammar, or any lexing failure among the tokens, yields the first
    /// error and no tree.
    #[verifier::loop_isolation(false)]
    pub fn parse(&mut self) -> (r: Result<Workout, String>)
        requires
            old(self).wf(),
        ensures
            final(self).wf(),
            final(self).toks() == old(self).toks(),
            match r {
                Ok(w) => sp_workout_items(old(self).toks(), old(self).pos()) == Some(w@.sets),
                Err(_) => sp_workout_items(old(self).toks(), old(self).pos()) is None,
            },
    {
        let ghost toks = self.toks();
        let ghost p0 = self.pos();
        let mut sets: Vec<SetNode> = Vec::new();
        proof {
            if sp_workout_items(toks, p0) is Some {
                let rest = sp_workout_items(toks, p0)->Some_0;
                assert(set_seq_view(sets@) + rest =~= rest);
            }
        }
        loop
            invariant
                self.wf(),
                self.toks() == toks,
                p0 <= self.pos() <= toks.len(),
                sp_workout_items(toks, p0) == (match sp_workout_items(toks, self.pos()) {
                    Some(rest) => Some(set_seq_view(sets@) + rest),
                    None => None::<Seq<SetNodeV>>,
                }),
            decreases toks.len() - self.pos(),
        {
            let ghost cur = self.pos();
            let ghost prev_sets = sets@;
            if self.current >= self.tokens.len() {
                proof {
                    assert(sp_workout_items(toks, cur) == Some(Seq::<SetNodeV>::empty()));
                    assert(set_seq_view(sets@) + Seq::<SetNodeV>::empty() =~= set_seq_view(
                        sets@,
                    ));
                }
                return Ok(Workout { sets });
            }
            match self.parse_set() {
                Ok(s) => {
                    sets.push(s);
                    proof {
                        assert(sets@.drop_last() =~= prev_sets);
                        assert(set_seq_view(sets@) =~= set_seq_view(prev_sets).push(
                            set_node_view(sets@.last()),
                        ));
                        if sp_workout_items(toks, self.pos()) is Some {
                            let rest = sp_workout_items(toks, self.pos())->Some_0;
                            assert(set_seq_view(prev_sets) + (Seq::empty().push(
                                set_node_view(sets@.last()),
                            ) + rest) =~= set_seq_view(sets@) + rest);
                        }
                    }
                },
                Err(e) => {
                    return Err(e);
                },
            }
        }
    }

    /// Parses one set by the two-token lookahead dispatch.
    fn parse_set(&mut self) -> (r: Result<SetNode, String>)
        requires
            old(self).wf(),
        ensures
            final(self).wf(),
            final(self).toks() == old(self).toks(),
            match r {
                Ok(s) => sp_set(old(self).toks(), old(self).pos()) == Some(
                    (s@, final(self).pos()),
                ) && old(self).pos() < final(self).pos() <= old(self).toks().len(),
                Err(_) => sp_set(old(self).toks(), old(self).pos()) is None && final(self).pos()
                    >= old(self).pos(),
            },
        decreases old(self).toks().len() - old(self).pos(), 2int,
    {
        match self.dispatch() {
            Dispatch::Repetition => self.parse_repetition(),
            Dispatch::Statement => {
                match self.parse_statement() {
                    Ok(st) => Ok(SetNode::Statement(st)),
                    Err(e) => Err(e),
                }
            },
            Dispatch::Block => self.parse_block(),
            Dispatch::Bad => Err(String::from_str("Expected number or '{'")),
        }
    }

    /// Parses a repetition: a count, the keyword `x`, then the repeated set.
    fn parse_repetition(&mut self) -> (r: Result<SetNode, String>)
        requires
            old(self).wf(),
        ensures
            final(self).wf(),
            final(self).toks() == old(self).toks(),
            match r {
                Ok(s) => sp_repetition(old(self).toks(), old(self).pos()) == Some(
                    (s@, final(self).pos()),
                ) && old(self).pos() < final(self).pos() <= old(self).toks().len(),
                Err(_) => sp_repetition(old(self).toks(), old(self).pos()) is None && final(self).pos() >= old(self).pos(),
            },
        decreases old(self).toks().len() - old(self).pos(), 1int,
    {
        let count: u32 = match self.next() {
            Some(Ok(Token::Number(n))) => n,
            _ => {
                return Err(String::from_str("Expected number for repetition count"));
            },
        };
        match self.next() {
            Some(Ok(Token::Times)) => {},
            _ => {
                return Err(String::from_str("Expected 'x' after repetition count"));
            },
        }
        match self.parse_set() {
            Ok(child) => Ok(SetNode::Repetition { count, set: Box::new(child) }),
            Err(e) => Err(e),
        }
    }

    /// Parses a block: `{`, member sets, `}`. Token exhaustion inside the
    /// block is an error.
    #[verifier::loop_isolation(false)]
    fn parse_block(&mut self) -> (r: Result<SetNode, String>)
        requires
            old(self).wf(),
        ensures
            final(self).wf(),
            final(self).toks() == old(self).toks(),
            match r {
                Ok(s) => sp_block(old(self).toks(), old(self).pos()) == Some(
                    (s@, final(self).pos()),
                ) && old(self).pos() < final(self).pos() <= old(self).toks().len(),
                Err(_) => sp_block(old(self).toks(), old(self).pos()) is None && final(self).pos()
                    >= old(self).pos(),
            },
        decreases old(self).toks().len() - old(self).pos(), 1int,
    {
        let ghost toks = self.toks();
        let ghost p0 = self.pos();
        match self.next() {
            Some(Ok(Token::BraceOpen)) => {},
            _ => {
                return Err(String::from_str("Expected '{'"));
            },
        }
        let ghost q0 = self.pos();
        let mut sets: Vec<SetNode> = Vec::new();
        proof {
            if sp_block_items(toks, q0) is Some {
                let rest = sp_block_items(toks, q0)->Some_0.0;
                assert(set_seq_view(sets@) + rest =~= rest);
            }
        }
        loop
            invariant
                self.wf(),
                self.toks() == toks,
                q0 <= self.pos() <= toks.len(),
                p0 < q0,
                sp_block_items(toks, q0) == (match sp_block_items(toks, self.pos()) {
                    Some((rest, pf)) => Some((set_seq_view(sets@) + rest, pf)),
                    None => None::<(Seq<SetNodeV>, int)>,
                }),
            decreases toks.len() - self.pos(),
        {
            let ghost cur = self.pos();
            let ghost prev_sets = sets@;
            let at_close = match self.peek() {
                Some(t) => match t {
                    Ok(Token::BraceClose) => true,
                    _ => false,
                },
                None => {
                    return Err(String::from_str("Unexpected end of input in block"));
                },
            };
            if at_close {
                let _ = self.next();
                proof {
                    assert(sp_block_items(toks, cur) == Some(
                        (Seq::<SetNodeV>::empty(), cur + 1),
                    ));
                    assert(set_seq_view(sets@) + Seq::<SetNodeV>::empty() =~= set_seq_view(
                        sets@,
                    ));
                }
                return Ok(SetNode::Block { sets });
            }
            match self.parse_set() {
                Ok(s) => {
                    sets.push(s);
                    proof {
                        assert(sets@.drop_last() =~= prev_sets);
                        assert(set_seq_view(sets@) =~= set_seq_view(prev_sets).push(
                            set_node_view(sets@.last()),
                        ));
                        if sp_block_items(toks, self.pos()) is Some {
                            let rest = sp_block_items(toks, self.pos())->Some_0.0;
                            assert(set_seq_view(prev_sets) + (Seq::empty().push(
                                set_node_view(sets@.last()),
                            ) + rest) =~= set_seq_view(sets@) + rest);
                        }
                    }
                },
                Err(e) => {
                    return Err(e);
                },
            }
        }
    }

    /// Parses a statement: a distance, a stroke, and an optional interval.
    fn parse_statement(&mut self) -> (r: Result<Statement, String>)
        requires
            old(self).wf(),
        ensures
            final(self).wf(),
            final(self).toks() == old(self).toks(),
            match r {
                Ok(st) => sp_statement(old(self).toks(), old(self).pos()) == Some(
                    (st@, final(self).pos()),
                ) && old(self).pos() < final(self).pos() <= old(self).toks().len(),
                Err(_) => sp_statement(old(self).toks(), old(self).pos()) is None && final(self).pos() >= old(self).pos(),
            },
        decreases old(self).toks().len() - old(self).pos(), 1int,
    {
        let distance = match self.parse_distance() {
            Ok(d) => d,
            Err(e) => {
                return Err(e);
            },
        };
        let stroke = match self.parse_stroke() {
            Ok(s) => s,
            Err(e) => {
                return Err(e);
            },
        };
        let interval = match self.parse_interval() {
            Ok(iv) => iv,
            Err(e) => {
                return Err(e);
            },
        };
        Ok(Statement { distance, stroke, interval })
    }

    /// Parses a distance: a number and the unit marker `m` or `km`.
    fn parse_distance(&mut self) -> (r: Result<Distance, String>)
        requires
            old(self).wf(),
        ensures
            final(self).wf(),
            final(self).toks() == old(self).toks(),
            match r {
                Ok(d) => sp_distance(old(self).toks(), old(self).pos()) == Some(
                    (d, final(self).pos()),
                ) && old(self).pos() < final(self).pos() <= old(self).toks().len(),
                Err(_) => sp_distance(old(self).toks(), old(self).pos()) is None && final(self).pos() >= old(self).pos(),
            },
    {
        let value: u32 = match self.next() {
            Some(Ok(Token::Number(n))) => n,
            _ => {
                return Err(String::from_str("Expected number for distance"));
            },
        };
        let unit = match self.next() {
            Some(Ok(Token::Meters)) => DistanceUnit::Meters,
            Some(Ok(Token::Kilometers)) => DistanceUnit::Kilometers,
            _ => {
                return Err(String::from_str("Expected 'm' or 'km' for distance unit"));
            },
        };
        Ok(Distance { value, unit })
    }

    /// Parses a stroke: a word, optionally followed by a parenthesized
    /// comma-separated modifier list.
    #[verifier::loop_isolation(false)]
    fn parse_stroke(&mut self) -> (r: Result<Stroke, String>)
        requires
            old(self).wf(),
        ensures
            final(self).wf(),
            final(self).toks() == old(self).toks(),
            match r {
                Ok(s) => sp_stroke(old(self).toks(), old(self).pos()) == Some(
                    (s@, final(self).pos()),
                ) && old(self).pos() < final(self).pos() <= old(self).toks().len(),
                Err(_) => sp_stroke(old(self).toks(), old(self).pos()) is None && final(self).pos() >= old(self).pos(),
            },
    {
        let ghost toks = self.toks();
        let ghost p0 = self.pos();
        let name: String = match self.next() {
            Some(Ok(Token::Word(w))) => w,
            _ => {
                return Err(String::from_str("Expected stroke name"));
            },
        };
        let has_mods = match self.peek() {
            Some(t) => match t {
                Ok(Token::ParenOpen) => true,
                _ => false,
            },
            None => false,
        };
        if !has_mods {
            let r = Stroke { name, modifiers: Vec::new() };
            proof {
                assert(r@.modifiers =~= Seq::<Seq<char>>::empty());
            }
            return Ok(r);
        }
        let _ = self.next();
        let ghost q0 = self.pos();
        let mut modifiers: Vec<String> = Vec::new();
        proof {
            if sp_modifiers(toks, q0) is Some {
                let rest = sp_modifiers(toks, q0)->Some_0.0;
                assert(modifiers.deep_view() + rest =~= rest);
            }
        }
        loop
            invariant
                self.wf(),
                self.toks() == toks,
                q0 <= self.pos() <= toks.len(),
                p0 + 2 == q0,
                toks[p0] == Ok::<TokenV, ()>(TokenV::Word(name@)),
                p0 + 1 < toks.len() && toks[p0 + 1] == Ok::<TokenV, ()>(TokenV::ParenOpen),
                sp_modifiers(toks, q0) == (match sp_modifiers(toks, self.pos()) {
                    Some((rest, pf)) => Some((modifiers.deep_view() + rest, pf)),
                    None => None::<(Seq<Seq<char>>, int)>,
                }),
            decreases toks.len() - self.pos(),
        {
            let ghost cur = self.pos();
            let ghost prev_mods = modifiers.deep_view();
            let w = match self.next() {
                Some(Ok(Token::Word(w))) => w,
                _ => {
                    return Err(String::from_str("Expected modifier in parentheses"));
                },
            };
            modifiers.push(w);
            proof {
                assert(modifiers.deep_view() =~= prev_mods.push(
                    modifiers@[modifiers@.len() - 1]@,
                ));
            }
            let is_comma = match self.peek() {
                Some(t) => match t {
                    Ok(Token::Comma) => true,
                    _ => false,
                },
                None => false,
            };
            let is_close = match self.peek() {
                Some(t) => match t {
                    Ok(Token::ParenClose) => true,
                    _ => false,
                },
                None => false,
            };
            if is_comma {
                let _ = self.next();
                proof {
                    if sp_modifiers(toks, self.pos()) is Some {
                        let rest = sp_modifiers(toks, self.pos())->Some_0.0;
                        assert(prev_mods + (Seq::empty().push(modifiers@.last()@) + rest)
                            =~= modifiers.deep_view() + rest);
                    }
                }
            } else if is_close {
                let _ = self.next();
                proof {
                    assert(prev_mods + Seq::empty().push(modifiers@.last()@)
                        =~= modifiers.deep_view());
                }
                return Ok(Stroke { name, modifiers });
            } else {
                return Err(String::from_str("Expected ',' or ')' after modifier"));
            }
        }
    }

    /// Parses an optional interval: nothing without a leading `@`; after
    /// one, a plain number with an optional cosmetic `s`, or a composite
    /// time literal.
    fn parse_interval(&mut self) -> (r: Result<Option<Interval>, String>)
        requires
            old(self).wf(),
        ensures
            final(self).wf(),
            final(self).toks() == old(self).toks(),
            match r {
                Ok(iv) => sp_interval(old(self).toks(), old(self).pos()) == Some(
                    (iv, final(self).pos()),
                ) && old(self).pos() <= final(self).pos() <= old(self).toks().len(),
                Err(_) => sp_interval(old(self).toks(), old(self).pos()) is None && final(self).pos() >= old(self).pos(),
            },
    {
        let at_sign = match self.peek() {
            Some(t) => match t {
                Ok(Token::At) => true,
                _ => false,
            },
            None => false,
        };
        if !at_sign {
            return Ok(None);
        }
        let _ = self.next();
        match self.next() {
            Some(Ok(Token::Number(n))) => {
                let has_s = match self.peek() {
                    Some(t) => match t {
                        Ok(Token::Seconds) => true,
                        _ => false,
                    },
                    None => false,
                };
                if has_s {
                    let _ = self.next();
                    Ok(Some(Interval::Seconds(n)))
                } else {
                    Ok(Some(Interval::Seconds(n)))
                }
            },
            Some(Ok(Token::Time(text))) => {
                match parse_time_text(&text) {
                    Some(iv) => Ok(Some(iv)),
                    None => Err(String::from_str("Invalid time format")),
                }
            },
            _ => Err(String::from_str("Expected number or time after '@'")),
        }
    }
}

/// Whether the text has a `:` strictly before position `j`.
fn colon_before(s: &str, n: usize, j: usize) -> (r: bool)
    requires
        n as nat == s@.len(),
        j <= n,
    ensures
        r == (j < n && s@[j as int] != ':'),
{
    if j < n {
        let c = s.get_char(j);
        c != ':'
    } else {
        false
    }
}

/// The position of the first `:` at or after `i`, or the end.
#[verifier::loop_isolation(false)]
fn scan_colon(s: &str, n: usize, i: usize) -> (r: usize)
    requires
        n as nat == s@.len(),
        i <= n,
    ensures
        i <= r <= n,
        r as int == first_colon(s@, i as int),
{
    let mut j: usize = i;
    while colon_before(s, n, j)
        invariant
            i <= j <= n,
            first_colon(s@, i as int) == first_colon(s@, j as int),
        decreases n - j,
    {
        j = j + 1;
    }
    j
}

/// Whether a trailing `s` stands right before position `j`.
fn trailing_s_at(s: &str, i: usize, j: usize) -> (r: bool)
    requires
        j as nat <= s@.len(),
    ensures
        r == (i < j && s@[j as int - 1] == 's'),
{
    if i < j {
        let c = s.get_char(j - 1);
        c == 's'
    } else {
        false
    }
}

/// The end of `s[i..j]` with every trailing `s` stripped.
#[verifier::loop_isolation(false)]
fn scan_strip_s(s: &str, i: usize, j: usize) -> (r: usize)
    requires
        i <= j,
        j as nat <= s@.len(),
    ensures
        i <= r <= j,
        r as int == strip_s_end(s@, i as int, j as int),
{
    let mut e: usize = j;
    while trailing_s_at(s, i, e)
        invariant
            i <= e <= j,
            strip_s_end(s@, i as int, j as int) == strip_s_end(s@, i as int, e as int),
        decreases e,
    {
        e = e - 1;
    }
    e
}

/// The `u32` that the range `s[i..j]` spells, when it is nonempty, all
/// digits, and fits.
fn parse_u32_range(s: &str, n: usize, i: usize, j: usize) -> (r: Option<u32>)
    requires
        n as nat == s@.len(),
        i <= j <= n,
    ensures
        r == spec_parse_u32_range(s@, i as int, j as int),
{
    if i == j {
        return None;
    }
    let e = scan_digits(s, n, i);
    if e < j {
        proof {
            assert(!is_digit(s@[e as int]));
        }
        return None;
    }
    match digits_to_u32(s, n, i, j) {
        Some(v) => Some(v),
        None => None,
    }
}

/// The composite time literal split and parsed, as the mathematical form
/// describes.
fn parse_time_text(text: &String) -> (r: Option<Interval>)
    ensures
        r == spec_parse_time(text@),
{
    let s: &str = text.as_str();
    let n = s.unicode_len();
    let c1 = scan_colon(s, n, 0);
    if c1 >= n {
        return None;
    }
    let c2 = scan_colon(s, n, c1 + 1);
    if c2 < n {
        return None;
    }
    let sec_end = scan_strip_s(s, c1 + 1, n);
    let minutes = match parse_u32_range(s, n, 0, c1) {
        Some(v) => v,
        None => {
            return None;
        },
    };
    let seconds = match parse_u32_range(s, n, c1 + 1, sec_end) {
        Some(v) => v,
        None => {
            return None;
        },
    };
    Some(Interval::MinutesSeconds { minutes, seconds })
}

} // verus!
