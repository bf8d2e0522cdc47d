//! Lexical analysis: from source text to a queue of tokens.

use std::collections::VecDeque;
use vstd::prelude::*;

use crate::lexeme::{
    decimal_value, digit_run, first_lexeme, found_then, is_compound_head, is_mark,
    lemma_decimal_value_grows, lemma_digit_run, lemma_digit_run_at_least, lemma_first_lexeme_len,
    lemma_scan_step, lemma_word_run, lex, number_fits, op_len, scan, tokens_of, word_run, Lexeme,
};
use crate::parse::{LVarView, LVars};
use crate::result::{TokenizeError, TokenizeFault, TokenizeResult};
use crate::text::{
    byte_len, digit_value, is_alnum, is_alpha, is_digit, is_space, same_text, spec_is_alnum,
    spec_is_alpha, spec_is_digit,
};

verus! {

/// The source text that is still to be read, as a queue of characters.
#[derive(Debug, PartialEq, Eq)]
pub struct UserInput {
    chars: VecDeque<char>,
}

impl View for UserInput {
    type V = Seq<char>;

    closed spec fn view(&self) -> Seq<char> {
        self.chars@
    }
}

impl UserInput {
    /// The characters of `input`, in order.
    pub fn new(input: String) -> (r: Self)
        ensures
            r@ == input@,
    {
        let mut chars: VecDeque<char> = VecDeque::new();
        for c in it: input.as_str().chars()
            invariant
                chars@ == it.seq().take(it.index() as int),
                it.seq() == input@,
        {
            chars.push_back(c);
        }
        Self { chars }
    }

    /// The next character, if any is left.
    pub fn front(&self) -> (r: Option<&char>)
        ensures
            r == (if self@.len() > 0 {
                Some(&self@[0])
            } else {
                None
            }),
    {
        if self.chars.len() > 0 {
            Some(&self.chars[0])
        } else {
            None
        }
    }

    /// Takes the next character off the queue, if any is left.
    pub fn pop_front(&mut self) -> (r: Option<char>)
        ensures
            r == (if old(self)@.len() > 0 {
                Some(old(self)@[0])
            } else {
                None
            }),
            final(self)@ == (if old(self)@.len() > 0 {
                old(self)@.skip(1)
            } else {
                old(self)@
            }),
    {
        self.chars.pop_front()
    }

    fn get(&self, index: usize) -> (r: Option<&char>)
        ensures
            r == (if index < self@.len() {
                Some(&self@[index as int])
            } else {
                None
            }),
    {
        if index < self.chars.len() {
            Some(&self.chars[index])
        } else {
            None
        }
    }

    /// Takes `n` characters off the front of the queue.
    fn advance(&mut self, n: usize)
        requires
            n <= old(self)@.len(),
        ensures
            final(self)@ == old(self)@.skip(n as int),
    {
        let mut i: usize = 0;
        while i < n
            invariant
                i <= n <= old(self)@.len(),
                self@ == old(self)@.skip(i as int),
            decreases n - i,
        {
            self.chars.pop_front();
            i = i + 1;
        }
    }

    /// Reads a decimal number off the front of the queue.
    ///
    /// Where the queue begins with a digit and the number that its leading
    /// run of digits spells fits the integer range, the run is taken off and
    /// the number returned. Otherwise the queue stays as it is and the
    /// result is `None`.
    pub fn parse_num(&mut self) -> (r: Option<usize>)
        ensures
            ({
                let s = old(self)@;
                let n = digit_run(s);
                let v = decimal_value(s.take(n as int));
                if n > 0 && number_fits(v) {
                    r == Some(v as usize) && final(self)@ == s.skip(n as int)
                } else {
                    r.is_none() && final(self)@ == s
                }
            }),
    {
        let len = self.chars.len();
        let mut num: usize = 0;
        let mut i: usize = 0;
        let limit: usize = if usize::MAX as u64 <= i64::MAX as u64 {
            usize::MAX
        } else {
            i64::MAX as usize
        };
        let ghost s = self@;
        while i < len && is_digit(self.chars[i])
            invariant
                s == self@,
                len == s.len(),
                i <= len,
                forall|j: int| 0 <= j < i ==> spec_is_digit(#[trigger] s[j]),
                num == decimal_value(s.take(i as int)),
                number_fits(num as nat),
                9 <= limit,
                forall|v: nat| number_fits(v) <==> v <= limit,
            decreases len - i,
        {
            let d = (self.chars[i] as u32 - '0' as u32) as usize;
            proof {
                assert(spec_is_digit(s[i as int]));
                assert(s.take(i + 1).drop_last() =~= s.take(i as int));
                assert(s.take(i + 1).last() == s[i as int]);
                assert(d == digit_value(s[i as int]));
            }
            if num > (limit - d) / 10 {
                proof {
                    lemma_digit_run_at_least(s, i + 1);
                    lemma_decimal_value_grows(s, i + 1, digit_run(s) as int);
                }
                return None;
            }
            num = num * 10 + d;
            i = i + 1;
        }
        proof {
            lemma_digit_run(s, i as int);
        }
        if i == 0 {
            return None;
        }
        self.advance(i);
        Some(num)
    }

    /// Reads an operator or punctuation mark off the front of the queue.
    ///
    /// A two-character operator is preferred to its one-character prefix.
    /// Where no operator stands at the front, the queue stays as it is and
    /// the result is `None`.
    pub fn parse_op(&mut self) -> (r: Option<String>)
        ensures
            ({
                let s = old(self)@;
                let n = op_len(s);
                match r {
                    Some(op) => n > 0 && op@ == s.take(n as int) && final(self)@ == s.skip(
                        n as int,
                    ),
                    None => n == 0 && final(self)@ == s,
                }
            }),
    {
        let c = match self.front() {
            Some(c) => *c,
            None => {
                return None;
            },
        };
        let followed = match self.get(1) {
            Some(d) => *d == '=',
            None => false,
        };
        let ghost s = self@;
        if is_compound_head(c) && followed {
            let mut op = String::new();
            op.push(c);
            op.push('=');
            self.advance(2);
            assert(op@ =~= s.take(2));
            Some(op)
        } else if is_mark(c) {
            let mut op = String::new();
            op.push(c);
            self.advance(1);
            assert(op@ =~= s.take(1));
            Some(op)
        } else {
            None
        }
    }

    /// Reads an identifier off the front of the queue.
    ///
    /// Where the queue begins with a letter, its leading run of letters and
    /// digits is taken off and returned. Otherwise the queue stays as it is
    /// and the result is `None`.
    pub fn parse_lvar(&mut self) -> (r: Option<String>)
        ensures
            ({
                let s = old(self)@;
                let n = word_run(s);
                match r {
                    Some(name) => s.len() > 0 && spec_is_alpha(s[0]) && name@ == s.take(n as int)
                        && final(self)@ == s.skip(n as int),
                    None => !(s.len() > 0 && spec_is_alpha(s[0])) && final(self)@ == s,
                }
            }),
    {
        match self.front() {
            Some(c) => {
                if !is_alpha(*c) {
                    return None;
                }
            },
            None => {
                return None;
            },
        }
        let ghost s = self@;
        let len = self.chars.len();
        let mut i: usize = 0;
        let mut lvar = String::new();
        while i < len && is_alnum(self.chars[i])
            invariant
                s == self@,
                len == s.len(),
                i <= len,
                forall|j: int| 0 <= j < i ==> spec_is_alnum(#[trigger] s[j]),
                lvar@ == s.take(i as int),
            decreases len - i,
        {
            lvar.push(self.chars[i]);
            assert(s.take(i + 1) =~= s.take(i as int).push(s[i as int]));
            i = i + 1;
        }
        proof {
            lemma_word_run(s, i as int);
        }
        self.advance(i);
        Some(lvar)
    }

    /// The leading run of digits, left on the queue.
    fn digits(&self) -> (r: String)
        ensures
            r@ == self@.take(digit_run(self@) as int),
    {
        let ghost s = self@;
        let len = self.chars.len();
        let mut i: usize = 0;
        let mut run = String::new();
        while i < len && is_digit(self.chars[i])
            invariant
                s == self@,
                len == s.len(),
                i <= len,
                forall|j: int| 0 <= j < i ==> spec_is_digit(#[trigger] s[j]),
                run@ == s.take(i as int),
            decreases len - i,
        {
            run.push(self.chars[i]);
            assert(s.take(i + 1) =~= s.take(i as int).push(s[i as int]));
            i = i + 1;
        }
        proof {
            lemma_digit_run(s, i as int);
        }
        run
    }
}

/// The three kinds of token.
#[derive(Debug, PartialEq, Eq)]
pub enum TokenKind {
    /// An operator or punctuation mark.
    Reserved,
    /// An identifier.
    Ident,
    /// An integer literal.
    Num,
}

/// One token of the source text.
#[derive(Debug, PartialEq, Eq)]
pub struct Token {
    pub kind: TokenKind,
    /// The value of an integer literal; 0 for the other kinds.
    pub val: i64,
    /// The text of an operator or identifier; one space for an integer.
    pub str: String,
    /// The length of `str` in bytes.
    pub len: usize,
}

/// A [`Token`] with its text as a character sequence.
pub struct TokenView {
    pub kind: TokenKind,
    pub val: i64,
    pub text: Seq<char>,
    pub len: usize,
}

impl View for Token {
    type V = TokenView;

    open spec fn view(&self) -> TokenView {
        TokenView { kind: self.kind, val: self.val, text: self.str@, len: self.len }
    }
}

/// The token that stands for the operator or punctuation mark `text`.
pub open spec fn op_token(text: Seq<char>) -> TokenView {
    TokenView { kind: TokenKind::Reserved, val: 0, text, len: byte_len(text) }
}

/// The token that stands for the integer `val`.
pub open spec fn num_token(val: i64) -> TokenView {
    TokenView { kind: TokenKind::Num, val, text: seq![' '], len: 1 }
}

/// The token that stands for the identifier `text`.
pub open spec fn ident_token(text: Seq<char>) -> TokenView {
    TokenView { kind: TokenKind::Ident, val: 0, text, len: byte_len(text) }
}

impl Token {
    /// A token for the operator or punctuation mark `c`.
    pub fn new_op(c: String) -> (r: TokenizeResult<Token>)
        ensures
            r matches Ok(t) && t@ == op_token(c@),
    {
        let len = c.as_str().len();
        Ok(Self { kind: TokenKind::Reserved, val: 0, str: c, len })
    }

    /// A token for the integer `val`.
    pub fn new_num(val: i64) -> (r: TokenizeResult<Token>)
        ensures
            r matches Ok(t) && t@ == num_token(val),
    {
        let mut text = String::new();
        text.push(' ');
        assert(text@ =~= seq![' ']);
        Ok(Self { kind: TokenKind::Num, val, str: text, len: 1 })
    }

    /// A token for the identifier `lvar`.
    pub fn new_lvar(lvar: String) -> (r: TokenizeResult<Token>)
        ensures
            r matches Ok(t) && t@ == ident_token(lvar@),
    {
        let len = lvar.as_str().len();
        Ok(Self { kind: TokenKind::Ident, val: 0, str: lvar, len })
    }
}

/// The tokens that are still to be parsed, with the source text they came
/// from and the table of local variables met so far.
#[derive(Debug, PartialEq, Eq)]
pub struct Tokens {
    pub user_input: String,
    pub lvars: LVars,
    pub tokens: VecDeque<Token>,
}

/// A [`Tokens`] value as plain sequences.
pub struct TokensView {
    pub user_input: Seq<char>,
    pub lvars: Seq<LVarView>,
    pub tokens: Seq<TokenView>,
}

impl View for Tokens {
    type V = TokensView;

    open spec fn view(&self) -> TokensView {
        TokensView {
            user_input: self.user_input@,
            lvars: self.lvars@,
            tokens: self.tokens@.map_values(|t: Token| t@),
        }
    }
}

impl TokensView {
    /// Whether the first token is the operator or punctuation mark `op`.
    pub open spec fn starts_with_op(self, op: Seq<char>) -> bool {
        self.tokens.len() > 0 && self.tokens[0].kind == TokenKind::Reserved && self.tokens[0].text
            == op
    }

    /// The same stream without its first token.
    pub open spec fn advanced(self) -> TokensView
        recommends
            self.tokens.len() > 0,
    {
        TokensView { tokens: self.tokens.skip(1), ..self }
    }
}

impl Tokens {
    /// An empty token queue for the source text `user_input`, with an empty
    /// table of local variables. `capasity` is a hint for the allocation.
    pub fn init(user_input: String, capasity: usize) -> (r: Self)
        ensures
            r@ == fresh(user_input@, Seq::empty()),
    {
        let r = Self {
            user_input,
            lvars: LVars::new(),
            tokens: VecDeque::with_capacity(capasity),
        };
        assert(r@.tokens =~= Seq::empty());
        r
    }

    /// Appends a token to the queue.
    pub fn push_back(&mut self, token: Token)
        ensures
            final(self)@ == (TokensView { tokens: old(self)@.tokens.push(token@), ..old(self)@ }),
    {
        self.tokens.push_back(token);
        assert(self@.tokens =~= old(self)@.tokens.push(token@));
    }

    /// Takes the first token off the queue, if any is left.
    pub fn pop_front(&mut self) -> (r: Option<Token>)
        ensures
            match r {
                Some(t) => old(self)@.tokens.len() > 0 && t@ == old(self)@.tokens[0]
                    && final(self)@ == old(self)@.advanced(),
                None => old(self)@.tokens.len() == 0 && final(self)@ == old(self)@,
            },
    {
        let r = self.tokens.pop_front();
        assert(r is Some ==> self@.tokens =~= old(self)@.tokens.skip(1));
        r
    }

    /// The first token, if any is left.
    pub fn front(&self) -> (r: Option<&Token>)
        ensures
            match r {
                Some(t) => self@.tokens.len() > 0 && t@ == self@.tokens[0],
                None => self@.tokens.len() == 0,
            },
    {
        if self.tokens.len() > 0 {
            Some(&self.tokens[0])
        } else {
            None
        }
    }

    /// How many tokens are left.
    pub fn len(&self) -> (r: usize)
        ensures
            r == self@.tokens.len(),
    {
        self.tokens.len()
    }

    /// Takes the first token off the queue if it is the operator or
    /// punctuation mark `op`, and says whether it did.
    pub fn consume_op(&mut self, op: &str) -> (r: bool)
        ensures
            r == old(self)@.starts_with_op(op@),
            final(self)@ == (if r {
                old(self)@.advanced()
            } else {
                old(self)@
            }),
    {
        let found = match self.front() {
            Some(token) => match token.kind {
                TokenKind::Reserved => same_text(token.str.as_str(), op),
                _ => false,
            },
            None => false,
        };
        if found {
            self.pop_front();
        }
        found
    }
}

/// The token stream as the tokeniser hands it to the parser: the source
/// text, its tokens, and no local variable yet.
pub open spec fn fresh(input: Seq<char>, tokens: Seq<TokenView>) -> TokensView {
    TokensView { user_input: input, lvars: Seq::empty(), tokens }
}

/// Turns source text into tokens.
///
/// The result holds the tokens of `input` in order, the text itself, and an
/// empty table of local variables. The call fails where the text holds a
/// character that begins no token, or a number outside the integer range.
pub fn tokenize(input: String) -> (r: TokenizeResult<Tokens>)
    ensures
        match r {
            Ok(t) => lex(input@) == Ok::<Seq<TokenView>, TokenizeFault>(t@.tokens) && t@ == fresh(
                input@,
                t@.tokens,
            ),
            Err(e) => lex(input@) == Err::<Seq<TokenView>, TokenizeFault>(e@),
        },
{
    let mut user_input = UserInput::new(input.clone());
    let mut tokens = Tokens::init(input.clone(), input.capacity());
    let ghost mut found: Seq<Lexeme> = Seq::empty();
    assert(tokens@.tokens =~= tokens_of(found));
    assert(found + Seq::<Lexeme>::empty() =~= found);
    loop
        invariant
            tokens@.user_input == input@,
            tokens@.lvars == Seq::<LVarView>::empty(),
            tokens@.tokens == tokens_of(found),
            scan(input@, input@) == found_then(found, scan(user_input@, input@)),
        decreases user_input@.len(),
    {
        let ghost rest = user_input@;
        let c = match user_input.front() {
            Some(c) => *c,
            None => {
                assert(found + Seq::<Lexeme>::empty() =~= found);
                return Ok(tokens);
            },
        };
        if is_space(c) {
            user_input.pop_front();
            continue ;
        }
        proof {
            lemma_first_lexeme_len(rest);
            lemma_scan_step(found, rest, input@);
        }
        let ghost longer = found.push(first_lexeme(rest)->0);
        if let Some(lvar) = user_input.parse_lvar() {
            tokens.push_back(Token::new_lvar(lvar)?);
            proof {
                found = longer;
            }
            continue ;
        }
        if let Some(op) = user_input.parse_op() {
            tokens.push_back(Token::new_op(op)?);
            proof {
                found = longer;
            }
            continue ;
        }
        if let Some(num) = user_input.parse_num() {
            assert(spec_is_digit(rest[0]));
            tokens.push_back(Token::new_num(num as i64)?);
            proof {
                found = longer;
            }
            continue ;
        }
        if is_digit(c) {
            return Err(TokenizeError::InvalidNumber(user_input.digits()));
        }
        return Err(TokenizeError::InvalidSyntax(input));
    }
}

} // verus!
