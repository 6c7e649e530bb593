//! The lexer: a forward-only scanner that converts a source text into a
//! sequence of tokens, one per call to [`Lexer::next_token`].
//!
//! The specification side models the scanner on the remaining unconsumed
//! text, a `Seq<char>`: [`step_of`] says which token the next call produces
//! and how many characters it consumes, and [`spec_tokens`] iterates it to
//! the full token sequence. The executable side is proved to follow this
//! model exactly.

use crate::classify::{id_char, is_id_character, numeric_char, whitespace_char};
use crate::token::{Token, TokenKind};
use vstd::prelude::*;
use vstd::string::StrSliceExecFns;

verus! {

/// The length of the longest prefix of `s` whose characters all satisfy `p`:
/// the maximal run of `p`-characters at the start of `s`.
pub open spec fn run_len(s: Seq<char>, p: spec_fn(char) -> bool) -> nat
    decreases s.len(),
{
    if s.len() == 0 || !p(s[0]) {
        0
    } else {
        (1 + run_len(s.drop_first(), p)) as nat
    }
}

/// The whitespace class, as a predicate value for [`run_len`].
pub open spec fn ws_pred() -> spec_fn(char) -> bool {
    |c: char| whitespace_char(c)
}

/// The identifier-character class, as a predicate value for [`run_len`].
pub open spec fn ident_pred() -> spec_fn(char) -> bool {
    |c: char| id_char(c)
}

/// The decimal-digit class, as a predicate value for [`run_len`].
pub open spec fn digit_pred() -> spec_fn(char) -> bool {
    |c: char| numeric_char(c)
}

/// A maximal run is no longer than the sequence, every character in it
/// satisfies `p`, and the first character after it (if any) does not.
pub proof fn lemma_run_len_spec(s: Seq<char>, p: spec_fn(char) -> bool)
    ensures
        run_len(s, p) <= s.len(),
        forall|i: int| 0 <= i < run_len(s, p) ==> p(s[i]),
        run_len(s, p) < s.len() ==> !p(s[run_len(s, p) as int]),
    decreases s.len(),
{
    if s.len() != 0 && p(s[0]) {
        lemma_run_len_spec(s.drop_first(), p);
        assert forall|i: int| 0 <= i < run_len(s, p) implies p(s[i]) by {
            if i > 0 {
                assert(s.drop_first()[i - 1] == s[i]);
            }
        }
        if run_len(s, p) < s.len() {
            assert(s.drop_first()[run_len(s, p) - 1] == s[run_len(s, p) as int]);
        }
    }
}

/// The characterization in [`lemma_run_len_spec`] picks out the run length
/// uniquely: any `k` with those properties equals `run_len(s, p)`.
pub proof fn lemma_run_len_unique(s: Seq<char>, p: spec_fn(char) -> bool, k: nat)
    requires
        k <= s.len(),
        forall|i: int| 0 <= i < k ==> p(s[i]),
        k < s.len() ==> !p(s[k as int]),
    ensures
        run_len(s, p) == k,
    decreases s.len(),
{
    if k == 0 {
    } else {
        assert(p(s[0]));
        assert forall|i: int| 0 <= i < k - 1 implies p(s.drop_first()[i]) by {
            assert(s.drop_first()[i] == s[i + 1]);
        }
        if k - 1 < s.drop_first().len() {
            assert(s.drop_first()[k - 1] == s[k as int]);
        }
        lemma_run_len_unique(s.drop_first(), p, (k - 1) as nat);
    }
}

/// One classification step over a remaining text: the kind and literal of
/// the token the step produces, and how many characters of the remaining
/// text it consumes (skipped whitespace included).
pub ghost struct Step {
    pub kind: TokenKind,
    pub literal: Seq<char>,
    pub consumed: nat,
}

/// The classification step on remaining text `s`, following the fixed rule
/// order: skip whitespace, then end check, single-character parentheses,
/// identifier run, integer run, and the single-character fallback. The
/// end-of-input literal is the NUL sentinel and stands for no consumed text.
pub open spec fn step_of(s: Seq<char>) -> Step {
    let k = run_len(s, ws_pred());
    let r = s.skip(k as int);
    if r.len() == 0 {
        Step { kind: TokenKind::EndOfInput, literal: seq!['\0'], consumed: k }
    } else if r[0] == '(' {
        Step { kind: TokenKind::OpenParen, literal: seq![r[0]], consumed: k + 1 }
    } else if r[0] == ')' {
        Step { kind: TokenKind::CloseParen, literal: seq![r[0]], consumed: k + 1 }
    } else if id_char(r[0]) {
        Step {
            kind: TokenKind::Identifier,
            literal: r.take(run_len(r, ident_pred()) as int),
            consumed: k + run_len(r, ident_pred()),
        }
    } else if numeric_char(r[0]) {
        Step {
            kind: TokenKind::Integer,
            literal: r.take(run_len(r, digit_pred()) as int),
            consumed: k + run_len(r, digit_pred()),
        }
    } else {
        Step { kind: TokenKind::Illegal, literal: seq![r[0]], consumed: k + 1 }
    }
}

/// A step consumes at most the whole remaining text; it consumes at least
/// one character unless it produces `EndOfInput`, in which case it consumes
/// exactly the remaining (all-whitespace) text.
pub proof fn lemma_step_bounds(s: Seq<char>)
    ensures
        step_of(s).consumed <= s.len(),
        step_of(s).kind != TokenKind::EndOfInput ==> 1 <= step_of(s).consumed,
        step_of(s).kind == TokenKind::EndOfInput ==> step_of(s).consumed == s.len(),
{
    lemma_run_len_spec(s, ws_pred());
    let k = run_len(s, ws_pred());
    let r = s.skip(k as int);
    if r.len() != 0 {
        if id_char(r[0]) {
            lemma_run_len_spec(r, ident_pred());
        } else if numeric_char(r[0]) {
            lemma_run_len_spec(r, digit_pred());
        }
    }
}

/// The sequence of classification steps over `s`, from the first token up to
/// and including the `EndOfInput` step. Repeated `next_token` calls on a
/// lexer whose remaining text is `s` produce exactly these tokens, in order.
pub open spec fn spec_tokens(s: Seq<char>) -> Seq<Step>
    decreases s.len(),
    via spec_tokens_decreases
{
    if step_of(s).kind == TokenKind::EndOfInput {
        seq![step_of(s)]
    } else {
        seq![step_of(s)] + spec_tokens(s.skip(step_of(s).consumed as int))
    }
}

#[via_fn]
proof fn spec_tokens_decreases(s: Seq<char>) {
    lemma_step_bounds(s);
}

/// The text that tokenizing `s` accounts for: for each step, the skipped
/// whitespace interval followed by the token's literal, concatenated in
/// order. The `EndOfInput` step contributes only its skipped whitespace,
/// since its sentinel literal stands for no consumed text.
pub open spec fn rebuilt(s: Seq<char>) -> Seq<char>
    decreases s.len(),
    via rebuilt_decreases
{
    let st = step_of(s);
    if st.kind == TokenKind::EndOfInput {
        s.take(run_len(s, ws_pred()) as int)
    } else {
        s.take(run_len(s, ws_pred()) as int) + st.literal + rebuilt(s.skip(st.consumed as int))
    }
}

#[via_fn]
proof fn rebuilt_decreases(s: Seq<char>) {
    lemma_step_bounds(s);
}

/// Round trip: concatenating the whitespace intervals skipped and the token
/// literals produced, in order, reconstructs the tokenized text exactly.
pub proof fn lemma_round_trip(s: Seq<char>)
    ensures
        rebuilt(s) == s,
    decreases s.len(),
{
    lemma_step_bounds(s);
    lemma_run_len_spec(s, ws_pred());
    let st = step_of(s);
    let k = run_len(s, ws_pred());
    let r = s.skip(k as int);
    if st.kind == TokenKind::EndOfInput {
        assert(rebuilt(s) =~= s);
    } else {
        lemma_round_trip(s.skip(st.consumed as int));
        if r[0] == '(' || r[0] == ')' {
        } else if id_char(r[0]) {
            lemma_run_len_spec(r, ident_pred());
        } else if numeric_char(r[0]) {
            lemma_run_len_spec(r, digit_pred());
        }
        assert(st.literal =~= s.subrange(k as int, st.consumed as int));
        assert(rebuilt(s) =~= s);
    }
}

/// Termination: the step sequence over any finite text ends with the
/// `EndOfInput` step, no earlier step is one, and it holds at most
/// `s.len() + 1` steps, so repeated `next_token` calls reach `EndOfInput`
/// in at most that many calls.
pub proof fn lemma_termination(s: Seq<char>)
    ensures
        1 <= spec_tokens(s).len() <= s.len() + 1,
        spec_tokens(s).last().kind == TokenKind::EndOfInput,
        forall|i: int|
            0 <= i < spec_tokens(s).len() - 1 ==> spec_tokens(s)[i].kind != TokenKind::EndOfInput,
    decreases s.len(),
{
    lemma_step_bounds(s);
    if step_of(s).kind != TokenKind::EndOfInput {
        let rest = s.skip(step_of(s).consumed as int);
        lemma_termination(rest);
        assert forall|i: int|
            0 <= i < spec_tokens(s).len() - 1 implies spec_tokens(s)[i].kind
            != TokenKind::EndOfInput by {
            if i > 0 {
                assert(spec_tokens(s)[i] == spec_tokens(rest)[i - 1]);
            }
        }
    }
}

/// Idempotent end state: a step that produces `EndOfInput` consumes the
/// whole remaining text, so `is_at_end` reports true as soon as the token is
/// produced; and the step on the empty text is `EndOfInput` again, consuming
/// nothing, so both stay that way over any number of further calls.
pub proof fn lemma_end_state(s: Seq<char>)
    ensures
        step_of(s).kind == TokenKind::EndOfInput ==> step_of(s).consumed == s.len(),
        step_of(Seq::<char>::empty()).kind == TokenKind::EndOfInput,
        step_of(Seq::<char>::empty()).consumed == 0,
{
    lemma_step_bounds(s);
    lemma_step_bounds(Seq::<char>::empty());
}

/// Determinism: the token sequence is a function of the text alone, so two
/// fresh lexers over equal texts yield identical token sequences.
pub proof fn lemma_deterministic(a: Seq<char>, b: Seq<char>)
    requires
        a == b,
    ensures
        spec_tokens(a) == spec_tokens(b),
{
}

/// The scanner. It holds the source text and a cursor that only moves
/// forward; the view of a `Lexer` is the remaining unconsumed suffix of the
/// source, as a sequence of characters.
pub struct Lexer<'a> {
    src: &'a str,
    pos: usize,
}

impl<'a> View for Lexer<'a> {
    type V = Seq<char>;

    closed spec fn view(&self) -> Seq<char> {
        self.src@.skip(self.pos as int)
    }
}

impl<'a> Lexer<'a> {
    /// The cursor never points past the end of the source.
    #[verifier::type_invariant]
    spec fn inv(self) -> bool {
        self.pos <= self.src@.len()
    }

    /// Captures the full source text; the cursor starts at the beginning,
    /// so the whole text remains to be consumed. Allocates no token.
    pub fn new(src: &'a str) -> (l: Lexer<'a>)
        ensures
            l@ == src@,
    {
        let l = Lexer { src, pos: 0 };
        proof {
            assert(l@ =~= src@);
        }
        l
    }

    /// True exactly when no characters remain unconsumed. A pure query: the
    /// cursor does not move.
    pub fn is_at_end(&self) -> (r: bool)
        ensures
            r == (self@.len() == 0),
    {
        proof {
            use_type_invariant(&*self);
        }
        self.pos >= self.src.unicode_len()
    }

    /// Consumes and returns the next remaining character, or `None` when the
    /// text is exhausted.
    fn read(&mut self) -> (c: Option<char>)
        ensures
            final(self).src == old(self).src,
            old(self)@.len() == 0 ==> c is None && *final(self) == *old(self),
            old(self)@.len() > 0 ==> c == Some(old(self)@[0]) && final(self)@ == old(
                self,
            )@.drop_first() && final(self).pos == old(self).pos + 1,
    {
        proof {
            use_type_invariant(&*self);
        }
        if self.pos < self.src.unicode_len() {
            let c = self.src.get_char(self.pos);
            self.pos = self.pos + 1;
            proof {
                assert(self@ =~= old(self)@.drop_first());
            }
            Some(c)
        } else {
            None
        }
    }

    /// Returns the next remaining character without consuming it, or the NUL
    /// sentinel when the text is exhausted. Single-character lookahead: the
    /// cursor does not move.
    fn peek(&self) -> (c: char)
        ensures
            c == (if self@.len() == 0 {
                '\0'
            } else {
                self@[0]
            }),
    {
        proof {
            use_type_invariant(&*self);
        }
        if self.pos < self.src.unicode_len() {
            self.src.get_char(self.pos)
        } else {
            '\0'
        }
    }

    /// Copies the characters of the source between two cursor positions into
    /// an owned string.
    fn text_range(&self, start: usize, end: usize) -> (r: String)
        requires
            start <= end <= self.src@.len(),
        ensures
            r@ == self.src@.subrange(start as int, end as int),
    {
        self.src.substring_char(start, end).to_owned()
    }

    /// Advances the cursor past the maximal run of leading whitespace.
    fn skip_whitespace(&mut self)
        ensures
            final(self).src == old(self).src,
            final(self).pos == old(self).pos + run_len(old(self)@, ws_pred()),
            final(self)@ == old(self)@.skip(run_len(old(self)@, ws_pred()) as int),
    {
        proof {
            use_type_invariant(&*self);
        }
        let ghost orig = *self;
        loop
            invariant
                self.src == orig.src,
                orig.pos <= self.pos <= self.src@.len(),
                forall|i: int| orig.pos <= i < self.pos ==> whitespace_char(self.src@[i]),
            ensures
                self.src == orig.src,
                orig.pos <= self.pos <= self.src@.len(),
                forall|i: int| orig.pos <= i < self.pos ==> whitespace_char(self.src@[i]),
                self.pos == self.src@.len() || !whitespace_char(self.src@[self.pos as int]),
            decreases self.src@.len() - self.pos,
        {
            if self.pos < self.src.unicode_len() {
                let c = self.peek();
                if c.is_whitespace() {
                    self.pos = self.pos + 1;
                } else {
                    break;
                }
            } else {
                break;
            }
        }
        proof {
            let s = orig@;
            let k = (self.pos - orig.pos) as nat;
            assert forall|i: int| 0 <= i < k implies ws_pred()(s[i]) by {
                assert(s[i] == orig.src@[orig.pos + i]);
            }
            if k < s.len() {
                assert(s[k as int] == orig.src@[self.pos as int]);
            }
            lemma_run_len_unique(s, ws_pred(), k);
            assert(self@ =~= s.skip(k as int));
        }
    }

    /// Greedily consumes the identifier characters that follow `value`, the
    /// identifier character consumed just before the call, and produces the
    /// `Identifier` token for the whole maximal run.
    fn letter(&mut self, value: char) -> (t: Token)
        requires
            1 <= old(self).pos,
            old(self).src@[old(self).pos - 1] == value,
            id_char(value),
        ensures
            final(self).src == old(self).src,
            final(self).pos == old(self).pos + run_len(old(self)@, ident_pred()),
            final(self)@ == old(self)@.skip(run_len(old(self)@, ident_pred()) as int),
            t.kind == TokenKind::Identifier,
            t.literal@ == seq![value] + old(self)@.take(run_len(old(self)@, ident_pred()) as int),
    {
        proof {
            use_type_invariant(&*self);
        }
        let start = self.pos - 1;
        let ghost orig = *self;
        loop
            invariant
                self.src == orig.src,
                orig.pos <= self.pos <= self.src@.len(),
                forall|i: int| orig.pos <= i < self.pos ==> id_char(self.src@[i]),
            ensures
                self.src == orig.src,
                orig.pos <= self.pos <= self.src@.len(),
                forall|i: int| orig.pos <= i < self.pos ==> id_char(self.src@[i]),
                self.pos == self.src@.len() || !id_char(self.src@[self.pos as int]),
            decreases self.src@.len() - self.pos,
        {
            if self.pos < self.src.unicode_len() {
                let c = self.peek();
                if is_id_character(c) {
                    self.pos = self.pos + 1;
                } else {
                    break;
                }
            } else {
                break;
            }
        }
        let lit = self.text_range(start, self.pos);
        proof {
            let s = orig@;
            let n = (self.pos - orig.pos) as nat;
            assert forall|i: int| 0 <= i < n implies ident_pred()(s[i]) by {
                assert(s[i] == orig.src@[orig.pos + i]);
            }
            if n < s.len() {
                assert(s[n as int] == orig.src@[self.pos as int]);
            }
            lemma_run_len_unique(s, ident_pred(), n);
            assert(lit@ =~= seq![value] + s.take(n as int));
            assert(self@ =~= s.skip(n as int));
        }
        Token::new(TokenKind::Identifier, lit)
    }

    /// Greedily consumes the decimal digits that follow `value`, the digit
    /// consumed just before the call, and produces the `Integer` token for
    /// the whole maximal run.
    fn number(&mut self, value: char) -> (t: Token)
        requires
            1 <= old(self).pos,
            old(self).src@[old(self).pos - 1] == value,
            numeric_char(value),
        ensures
            final(self).src == old(self).src,
            final(self).pos == old(self).pos + run_len(old(self)@, digit_pred()),
            final(self)@ == old(self)@.skip(run_len(old(self)@, digit_pred()) as int),
            t.kind == TokenKind::Integer,
            t.literal@ == seq![value] + old(self)@.take(run_len(old(self)@, digit_pred()) as int),
    {
        proof {
            use_type_invariant(&*self);
        }
        let start = self.pos - 1;
        let ghost orig = *self;
        loop
            invariant
                self.src == orig.src,
                orig.pos <= self.pos <= self.src@.len(),
                forall|i: int| orig.pos <= i < self.pos ==> numeric_char(self.src@[i]),
            ensures
                self.src == orig.src,
                orig.pos <= self.pos <= self.src@.len(),
                forall|i: int| orig.pos <= i < self.pos ==> numeric_char(self.src@[i]),
                self.pos == self.src@.len() || !numeric_char(self.src@[self.pos as int]),
            decreases self.src@.len() - self.pos,
        {
            if self.pos < self.src.unicode_len() {
                let c = self.peek();
                if c.is_numeric() {
                    self.pos = self.pos + 1;
                } else {
                    break;
                }
            } else {
                break;
            }
        }
        let lit = self.text_range(start, self.pos);
        proof {
            let s = orig@;
            let n = (self.pos - orig.pos) as nat;
            assert forall|i: int| 0 <= i < n implies digit_pred()(s[i]) by {
                assert(s[i] == orig.src@[orig.pos + i]);
            }
            if n < s.len() {
                assert(s[n as int] == orig.src@[self.pos as int]);
            }
            lemma_run_len_unique(s, digit_pred(), n);
            assert(lit@ =~= seq![value] + s.take(n as int));
            assert(self@ =~= s.skip(n as int));
        }
        Token::new(TokenKind::Integer, lit)
    }

    /// Produces the next token and advances the cursor past exactly the
    /// characters consumed for it, whitespace skipped beforehand included.
    /// The result and the new cursor are functions of the remaining text
    /// alone, the ones [`step_of`] gives; tokenization therefore never fails
    /// and is deterministic. Once `EndOfInput` is produced nothing remains,
    /// and every later call produces `EndOfInput` again.
    pub fn next_token(&mut self) -> (t: Token)
        ensures
            t.kind == step_of(old(self)@).kind,
            t.literal@ == step_of(old(self)@).literal,
            final(self)@ == old(self)@.skip(step_of(old(self)@).consumed as int),
            t.kind == TokenKind::EndOfInput ==> final(self)@.len() == 0,
    {
        let ghost s0 = *self;
        self.skip_whitespace();
        let ghost k = run_len(s0@, ws_pred());
        let ghost r = s0@.skip(k as int);
        proof {
            lemma_run_len_spec(s0@, ws_pred());
        }
        if let Some(ch) = self.read() {
            proof {
                use_type_invariant(&*self);
            }
            if ch == '(' {
                let lit = self.text_range(self.pos - 1, self.pos);
                proof {
                    assert(lit@ =~= seq![r[0]]);
                    assert(self@ =~= s0@.skip((k + 1) as int));
                }
                Token::new(TokenKind::OpenParen, lit)
            } else if ch == ')' {
                let lit = self.text_range(self.pos - 1, self.pos);
                proof {
                    assert(lit@ =~= seq![r[0]]);
                    assert(self@ =~= s0@.skip((k + 1) as int));
                }
                Token::new(TokenKind::CloseParen, lit)
            } else if is_id_character(ch) {
                let ghost mid = *self;
                let t = self.letter(ch);
                proof {
                    let n = run_len(r, ident_pred());
                    let m = run_len(mid@, ident_pred());
                    lemma_run_len_spec(r, ident_pred());
                    lemma_run_len_spec(mid@, ident_pred());
                    assert(mid@ =~= r.drop_first());
                    assert(n == 1 + m);
                    assert(t.literal@ =~= r.take(n as int));
                    assert(self@ =~= s0@.skip((k + n) as int));
                }
                t
            } else if ch.is_numeric() {
                let ghost mid = *self;
                let t = self.number(ch);
                proof {
                    let n = run_len(r, digit_pred());
                    let m = run_len(mid@, digit_pred());
                    lemma_run_len_spec(r, digit_pred());
                    lemma_run_len_spec(mid@, digit_pred());
                    assert(mid@ =~= r.drop_first());
                    assert(n == 1 + m);
                    assert(t.literal@ =~= r.take(n as int));
                    assert(self@ =~= s0@.skip((k + n) as int));
                }
                t
            } else {
                let lit = self.text_range(self.pos - 1, self.pos);
                proof {
                    assert(lit@ =~= seq![r[0]]);
                    assert(self@ =~= s0@.skip((k + 1) as int));
                }
                Token::new(TokenKind::Illegal, lit)
            }
        } else {
            proof {
                reveal_strlit("\0");
                assert("\0"@ =~= seq!['\0']);
            }
            Token::new(TokenKind::EndOfInput, "\0".to_owned())
        }
    }
}

} // verus!
