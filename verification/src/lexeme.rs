//! What the tokens of a text are: the lexical rules of the language as
//! functions on character sequences, and what follows from them.

use vstd::prelude::*;

use crate::result::TokenizeFault;
use crate::text::{
    digit_char, digit_value, int_text, nat_text, spec_is_alnum, spec_is_alpha, spec_is_digit,
    spec_is_space,
};
use crate::tokenize::{ident_token, num_token, op_token, TokenKind, TokenView};

verus! {

/// How many characters at the front of `s` are ASCII digits.
pub open spec fn digit_run(s: Seq<char>) -> nat
    decreases s.len(),
{
    if s.len() > 0 && spec_is_digit(s[0]) {
        1 + digit_run(s.skip(1))
    } else {
        0
    }
}

/// How many characters at the front of `s` are ASCII letters or digits.
pub open spec fn word_run(s: Seq<char>) -> nat
    decreases s.len(),
{
    if s.len() > 0 && spec_is_alnum(s[0]) {
        1 + word_run(s.skip(1))
    } else {
        0
    }
}

/// The number that a sequence of decimal digits spells, most significant
/// digit first. The empty sequence spells zero.
pub open spec fn decimal_value(digits: Seq<char>) -> nat
    decreases digits.len(),
{
    if digits.len() == 0 {
        0
    } else {
        10 * decimal_value(digits.drop_last()) + digit_value(digits.last())
    }
}

/// Whether a number can be held both as a `usize` and as an `i64`.
pub open spec fn number_fits(v: nat) -> bool {
    v <= usize::MAX && v <= i64::MAX
}

/// Whether `c` is an operator or punctuation mark of one character.
pub open spec fn spec_is_mark(c: char) -> bool {
    c == '=' || c == '<' || c == '>' || c == '+' || c == '-' || c == '*' || c == '/' || c == '('
        || c == ')' || c == ';'
}

/// Whether `c` is an operator or punctuation mark of one character.
#[verifier::when_used_as_spec(spec_is_mark)]
pub fn is_mark(c: char) -> (r: bool)
    ensures
        r == spec_is_mark(c),
{
    c == '=' || c == '<' || c == '>' || c == '+' || c == '-' || c == '*' || c == '/' || c == '('
        || c == ')' || c == ';'
}

/// Whether `c` begins one of the operators `==`, `!=`, `<=`, `>=`.
pub open spec fn spec_is_compound_head(c: char) -> bool {
    c == '=' || c == '!' || c == '<' || c == '>'
}

/// Whether `c` begins one of the operators `==`, `!=`, `<=`, `>=`.
#[verifier::when_used_as_spec(spec_is_compound_head)]
pub fn is_compound_head(c: char) -> (r: bool)
    ensures
        r == spec_is_compound_head(c),
{
    c == '=' || c == '!' || c == '<' || c == '>'
}

/// The length of the operator at the front of `s`: 2 for `==`, `!=`, `<=`
/// and `>=`, 1 for a single mark, 0 where no operator stands. A `!` that no
/// `=` follows is no operator.
pub open spec fn op_len(s: Seq<char>) -> nat {
    if s.len() == 0 {
        0
    } else if spec_is_compound_head(s[0]) && s.len() >= 2 && s[1] == '=' {
        2
    } else if spec_is_mark(s[0]) {
        1
    } else {
        0
    }
}

/// A stretch of source text that becomes one token.
pub struct Lexeme {
    pub kind: TokenKind,
    pub text: Seq<char>,
}

/// The lexeme that begins `s`, where one does.
///
/// A letter begins an identifier, which runs as far as letters and digits
/// do. Otherwise an operator is looked for, and then a digit, which begins a
/// number that runs as far as digits do.
pub open spec fn first_lexeme(s: Seq<char>) -> Option<Lexeme> {
    if s.len() == 0 {
        None
    } else if spec_is_alpha(s[0]) {
        Some(Lexeme { kind: TokenKind::Ident, text: s.take(word_run(s) as int) })
    } else if op_len(s) > 0 {
        Some(Lexeme { kind: TokenKind::Reserved, text: s.take(op_len(s) as int) })
    } else if spec_is_digit(s[0]) {
        Some(Lexeme { kind: TokenKind::Num, text: s.take(digit_run(s) as int) })
    } else {
        None
    }
}

/// The token that a lexeme becomes: an operator or an identifier keeps its
/// text, a run of digits becomes the number it spells.
pub open spec fn token_of(lexeme: Lexeme) -> TokenView {
    match lexeme.kind {
        TokenKind::Reserved => op_token(lexeme.text),
        TokenKind::Ident => ident_token(lexeme.text),
        TokenKind::Num => num_token(decimal_value(lexeme.text) as i64),
    }
}

/// The tokens that a sequence of lexemes becomes.
pub open spec fn tokens_of(lexemes: Seq<Lexeme>) -> Seq<TokenView> {
    lexemes.map_values(|lexeme: Lexeme| token_of(lexeme))
}

/// The lexemes of `rest`, a suffix of the source text `whole`.
///
/// Whitespace between lexemes is passed over. The scan fails with
/// `InvalidSyntax` at a character that begins no lexeme, and with
/// `InvalidNumber` at a run of digits that spells a number outside the
/// integer range.
pub open spec fn scan(rest: Seq<char>, whole: Seq<char>) -> Result<Seq<Lexeme>, TokenizeFault>
    decreases rest.len(),
{
    if rest.len() == 0 {
        Ok(Seq::empty())
    } else if spec_is_space(rest[0]) {
        scan(rest.skip(1), whole)
    } else {
        match first_lexeme(rest) {
            None => Err(TokenizeFault::InvalidSyntax(whole)),
            Some(lexeme) => {
                if lexeme.kind == TokenKind::Num && !number_fits(decimal_value(lexeme.text)) {
                    Err(TokenizeFault::InvalidNumber(lexeme.text))
                } else {
                    proof {
                        lemma_first_lexeme_len(rest);
                    }
                    match scan(rest.skip(lexeme.text.len() as int), whole) {
                        Ok(more) => Ok(seq![lexeme] + more),
                        Err(e) => Err(e),
                    }
                }
            },
        }
    }
}

/// The tokens of the source text `input`, or why it has none.
pub open spec fn lex(input: Seq<char>) -> Result<Seq<TokenView>, TokenizeFault> {
    match scan(input, input) {
        Ok(lexemes) => Ok(tokens_of(lexemes)),
        Err(e) => Err(e),
    }
}

/// `digit_run` counts exactly the digits before the first non-digit.
pub proof fn lemma_digit_run(s: Seq<char>, n: int)
    requires
        0 <= n <= s.len(),
        forall|j: int| 0 <= j < n ==> spec_is_digit(#[trigger] s[j]),
        n == s.len() || !spec_is_digit(s[n]),
    ensures
        digit_run(s) == n,
    decreases n,
{
    if n > 0 {
        let t = s.skip(1);
        assert forall|j: int| 0 <= j < n - 1 implies spec_is_digit(#[trigger] t[j]) by {
            assert(t[j] == s[j + 1]);
        }
        lemma_digit_run(t, n - 1);
    }
}

/// `word_run` counts exactly the letters and digits before the first other
/// character.
pub proof fn lemma_word_run(s: Seq<char>, n: int)
    requires
        0 <= n <= s.len(),
        forall|j: int| 0 <= j < n ==> spec_is_alnum(#[trigger] s[j]),
        n == s.len() || !spec_is_alnum(s[n]),
    ensures
        word_run(s) == n,
    decreases n,
{
    if n > 0 {
        let t = s.skip(1);
        assert forall|j: int| 0 <= j < n - 1 implies spec_is_alnum(#[trigger] t[j]) by {
            assert(t[j] == s[j + 1]);
        }
        lemma_word_run(t, n - 1);
    }
}

/// Where the first `k` characters are digits, the leading run of digits has
/// at least `k` characters.
pub proof fn lemma_digit_run_at_least(s: Seq<char>, k: int)
    requires
        0 <= k <= s.len(),
        forall|j: int| 0 <= j < k ==> spec_is_digit(#[trigger] s[j]),
    ensures
        k <= digit_run(s) <= s.len(),
    decreases s.len(),
{
    if s.len() > 0 && spec_is_digit(s[0]) {
        let t = s.skip(1);
        if k > 0 {
            assert forall|j: int| 0 <= j < k - 1 implies spec_is_digit(#[trigger] t[j]) by {
                assert(t[j] == s[j + 1]);
            }
            lemma_digit_run_at_least(t, k - 1);
        } else {
            lemma_digit_run_at_least(t, 0);
        }
    }
}

/// Where the first `k` characters are letters or digits, the leading run of
/// letters and digits has at least `k` characters.
pub proof fn lemma_word_run_at_least(s: Seq<char>, k: int)
    requires
        0 <= k <= s.len(),
        forall|j: int| 0 <= j < k ==> spec_is_alnum(#[trigger] s[j]),
    ensures
        k <= word_run(s) <= s.len(),
    decreases s.len(),
{
    if s.len() > 0 && spec_is_alnum(s[0]) {
        let t = s.skip(1);
        if k > 0 {
            assert forall|j: int| 0 <= j < k - 1 implies spec_is_alnum(#[trigger] t[j]) by {
                assert(t[j] == s[j + 1]);
            }
            lemma_word_run_at_least(t, k - 1);
        } else {
            lemma_word_run_at_least(t, 0);
        }
    }
}

/// Every character of the leading run of digits is a digit.
pub proof fn lemma_digit_run_chars(s: Seq<char>)
    ensures
        digit_run(s) <= s.len(),
        forall|j: int| 0 <= j < digit_run(s) ==> spec_is_digit(#[trigger] s[j]),
    decreases s.len(),
{
    if s.len() > 0 && spec_is_digit(s[0]) {
        let t = s.skip(1);
        lemma_digit_run_chars(t);
        assert forall|j: int| 0 <= j < digit_run(s) implies spec_is_digit(#[trigger] s[j]) by {
            if j > 0 {
                assert(s[j] == t[j - 1]);
            }
        }
    }
}

/// Every character of the leading run of letters and digits is a letter or
/// a digit.
pub proof fn lemma_word_run_chars(s: Seq<char>)
    ensures
        word_run(s) <= s.len(),
        forall|j: int| 0 <= j < word_run(s) ==> spec_is_alnum(#[trigger] s[j]),
    decreases s.len(),
{
    if s.len() > 0 && spec_is_alnum(s[0]) {
        let t = s.skip(1);
        lemma_word_run_chars(t);
        assert forall|j: int| 0 <= j < word_run(s) implies spec_is_alnum(#[trigger] s[j]) by {
            if j > 0 {
                assert(s[j] == t[j - 1]);
            }
        }
    }
}

/// A longer prefix of digits spells a number at least as large.
pub proof fn lemma_decimal_value_grows(s: Seq<char>, k: int, n: int)
    requires
        0 <= k <= n <= s.len(),
    ensures
        decimal_value(s.take(k)) <= decimal_value(s.take(n)),
    decreases n - k,
{
    if k < n {
        assert(s.take(n).drop_last() =~= s.take(n - 1));
        lemma_decimal_value_grows(s, k, n - 1);
    }
}

/// A lexeme is a prefix of the text it begins, and is not empty.
pub proof fn lemma_first_lexeme_len(s: Seq<char>)
    ensures
        digit_run(s) <= s.len(),
        word_run(s) <= s.len(),
        first_lexeme(s) matches Some(lexeme) ==> 0 < lexeme.text.len() <= s.len()
            && lexeme.text == s.take(lexeme.text.len() as int),
{
    lemma_digit_run_at_least(s, 0);
    lemma_word_run_at_least(s, 0);
}

/// What is left to scan decides, together with the lexemes already found,
/// the lexemes of the whole text.
pub open spec fn found_then(found: Seq<Lexeme>, rest: Result<Seq<Lexeme>, TokenizeFault>) -> Result<
    Seq<Lexeme>,
    TokenizeFault,
> {
    match rest {
        Ok(more) => Ok(found + more),
        Err(e) => Err(e),
    }
}

/// One step of the scan: the lexeme that begins `rest` joins those already
/// found, and the scan goes on behind it.
pub proof fn lemma_scan_step(found: Seq<Lexeme>, rest: Seq<char>, whole: Seq<char>)
    requires
        rest.len() > 0,
        !spec_is_space(rest[0]),
    ensures
        first_lexeme(rest) matches Some(lexeme) ==> {
            &&& tokens_of(found.push(lexeme)) == tokens_of(found).push(token_of(lexeme))
            &&& !(lexeme.kind == TokenKind::Num && !number_fits(decimal_value(lexeme.text)))
                ==> found_then(found, scan(rest, whole)) == found_then(
                found.push(lexeme),
                scan(rest.skip(lexeme.text.len() as int), whole),
            )
        },
{
    if let Some(lexeme) = first_lexeme(rest) {
        assert(tokens_of(found.push(lexeme)) =~= tokens_of(found).push(token_of(lexeme)));
        if let Ok(more) = scan(rest.skip(lexeme.text.len() as int), whole) {
            assert(found + (seq![lexeme] + more) =~= found.push(lexeme) + more);
        }
    }
}

/// Whether a lexeme has the form of its kind: an operator is one operator
/// and no more, an identifier is a letter followed by letters and digits,
/// a number is a run of digits that spells a number of the integer range.
pub open spec fn lexeme_ok(lexeme: Lexeme) -> bool {
    let text = lexeme.text;
    &&& text.len() > 0
    &&& match lexeme.kind {
        TokenKind::Reserved => op_len(text) == text.len(),
        TokenKind::Ident => spec_is_alpha(text[0]) && forall|j: int|
            0 <= j < text.len() ==> spec_is_alnum(#[trigger] text[j]),
        TokenKind::Num => number_fits(decimal_value(text)) && forall|j: int|
            0 <= j < text.len() ==> spec_is_digit(#[trigger] text[j]),
    }
}

/// Whether a numeral is written without a superfluous leading zero.
pub open spec fn plain_numeral(digits: Seq<char>) -> bool {
    digits.len() == 1 || digits[0] != '0'
}

/// The texts of a sequence of lexemes.
pub open spec fn texts(lexemes: Seq<Lexeme>) -> Seq<Seq<char>> {
    lexemes.map_values(|lexeme: Lexeme| lexeme.text)
}

/// The text that a token stands for: its own text for an operator or an
/// identifier, the decimal numeral of its value for an integer.
pub open spec fn spelling(token: TokenView) -> Seq<char> {
    match token.kind {
        TokenKind::Num => int_text(token.val as int),
        _ => token.text,
    }
}

/// The texts that the tokens stand for.
pub open spec fn spellings(tokens: Seq<TokenView>) -> Seq<Seq<char>> {
    tokens.map_values(|token: TokenView| spelling(token))
}

/// The test that a character is no whitespace.
pub open spec fn not_space() -> spec_fn(char) -> bool {
    |c: char| !spec_is_space(c)
}

/// `s` with its whitespace taken out.
pub open spec fn without_spaces(s: Seq<char>) -> Seq<char> {
    s.filter(not_space())
}

/// The lexeme that begins a text has the form of its kind, but that the
/// number it spells may be too large, and holds no whitespace.
pub proof fn lemma_first_lexeme_form(s: Seq<char>)
    requires
        first_lexeme(s) is Some,
    ensures
        ({
            let lexeme = first_lexeme(s)->0;
            &&& number_fits(decimal_value(lexeme.text)) || lexeme.kind != TokenKind::Num
                ==> lexeme_ok(lexeme)
            &&& forall|j: int|
                0 <= j < lexeme.text.len() ==> !spec_is_space(#[trigger] lexeme.text[j])
        }),
{
    lemma_first_lexeme_len(s);
    lemma_digit_run_chars(s);
    lemma_word_run_chars(s);
    let lexeme = first_lexeme(s)->0;
    let text = lexeme.text;
    if lexeme.kind == TokenKind::Reserved {
        assert(text[0] == s[0]);
        if text.len() == 2 {
            assert(text[1] == s[1]);
        }
    }
    assert forall|j: int| 0 <= j < text.len() implies !spec_is_space(#[trigger] text[j]) by {
        assert(text[j] == s[j]);
    }
}

/// A filter that every element passes changes nothing.
pub proof fn lemma_filter_keeps_all<A>(s: Seq<A>, pred: spec_fn(A) -> bool)
    requires
        forall|j: int| 0 <= j < s.len() ==> pred(#[trigger] s[j]),
    ensures
        s.filter(pred) == s,
    decreases s.len(),
{
    reveal(Seq::filter);
    if s.len() > 0 {
        lemma_filter_keeps_all(s.drop_last(), pred);
        assert(s.drop_last().push(s.last()) =~= s);
    }
}

/// The lexemes of a text have the form of their kinds, and together they
/// are the text without its whitespace.
pub proof fn lemma_lexemes_cover_text(rest: Seq<char>, whole: Seq<char>)
    requires
        scan(rest, whole) is Ok,
    ensures
        ({
            let lexemes = scan(rest, whole)->Ok_0;
            &&& forall|i: int| 0 <= i < lexemes.len() ==> lexeme_ok(#[trigger] lexemes[i])
            &&& texts(lexemes).flatten() == without_spaces(rest)
        }),
    decreases rest.len(),
{
    let lexemes = scan(rest, whole)->Ok_0;
    let keep = not_space();
    if rest.len() == 0 {
        reveal(Seq::filter);
        assert(texts(lexemes) =~= Seq::<Seq<char>>::empty());
    } else if spec_is_space(rest[0]) {
        lemma_lexemes_cover_text(rest.skip(1), whole);
        assert(rest =~= seq![rest[0]] + rest.skip(1));
        rest.skip(1).lemma_filter_prepend(rest[0], keep);
        assert(Seq::<char>::empty() + rest.skip(1).filter(keep) =~= rest.skip(1).filter(keep));
    } else {
        let lexeme = first_lexeme(rest)->0;
        let n = lexeme.text.len() as int;
        let tail = rest.skip(n);
        let more = scan(tail, whole)->Ok_0;
        lemma_first_lexeme_len(rest);
        lemma_first_lexeme_form(rest);
        lemma_lexemes_cover_text(tail, whole);
        assert(lexemes == seq![lexeme] + more);
        assert forall|i: int| 0 <= i < lexemes.len() implies lexeme_ok(#[trigger] lexemes[i]) by {
            if i > 0 {
                assert(lexemes[i] == more[i - 1]);
            }
        }
        assert(texts(lexemes).first() == lexeme.text);
        assert(texts(lexemes).drop_first() =~= texts(more));
        assert(rest =~= lexeme.text + tail);
        Seq::filter_distributes_over_add(lexeme.text, tail, keep);
        lemma_filter_keeps_all(lexeme.text, keep);
    }
}

/// A numeral that begins with a digit other than 0 spells a number other
/// than 0.
pub proof fn lemma_decimal_value_positive(digits: Seq<char>)
    requires
        digits.len() > 0,
        forall|j: int| 0 <= j < digits.len() ==> spec_is_digit(#[trigger] digits[j]),
        digits[0] != '0',
    ensures
        decimal_value(digits) > 0,
    decreases digits.len(),
{
    if digits.len() > 1 {
        lemma_decimal_value_positive(digits.drop_last());
    }
}

/// The decimal numeral of the number that a plain numeral spells is that
/// numeral.
pub proof fn lemma_plain_numeral_round_trip(digits: Seq<char>)
    requires
        digits.len() > 0,
        forall|j: int| 0 <= j < digits.len() ==> spec_is_digit(#[trigger] digits[j]),
        plain_numeral(digits),
    ensures
        nat_text(decimal_value(digits)) == digits,
    decreases digits.len(),
{
    let front = digits.drop_last();
    let d = digit_value(digits.last());
    assert(digit_char(d) == digits.last());
    if digits.len() == 1 {
        assert(decimal_value(front) == 0);
        assert(nat_text(d) =~= digits);
    } else {
        lemma_decimal_value_positive(front);
        lemma_plain_numeral_round_trip(front);
        let v = decimal_value(digits);
        assert(v / 10 == decimal_value(front) && v % 10 == d);
        assert(front.push(digits.last()) =~= digits);
    }
}

/// The tokens of a text spell the text: taken together in order, the texts
/// that they stand for are the text without its whitespace. This holds of
/// a text whose numerals are plain; a numeral such as `007` becomes the
/// number 7, which is spelt `7`.
pub proof fn lemma_tokens_spell_text(input: Seq<char>)
    requires
        scan(input, input) matches Ok(lexemes) && forall|i: int|
            0 <= i < lexemes.len() && lexemes[i].kind == TokenKind::Num ==> plain_numeral(
                #[trigger] lexemes[i].text,
            ),
    ensures
        lex(input) matches Ok(tokens) && spellings(tokens).flatten() == without_spaces(input),
{
    let lexemes = scan(input, input)->Ok_0;
    let tokens = tokens_of(lexemes);
    lemma_lexemes_cover_text(input, input);
    assert forall|i: int| 0 <= i < lexemes.len() implies #[trigger] spellings(tokens)[i] == texts(
        lexemes,
    )[i] by {
        let lexeme = lexemes[i];
        assert(lexeme_ok(lexeme));
        if lexeme.kind == TokenKind::Num {
            lemma_plain_numeral_round_trip(lexeme.text);
        }
    }
    assert(spellings(tokens) =~= texts(lexemes));
}

/// Whether nothing that ends before `b` can run on into `b`: `b` is empty,
/// or begins with a character that is no letter, no digit and no `=`.
pub open spec fn begins_apart(b: Seq<char>) -> bool {
    b.len() == 0 || (!spec_is_alnum(b[0]) && b[0] != '=')
}

/// A run of letters and digits does not reach into a text that begins
/// apart.
pub proof fn lemma_runs_stop_before(a: Seq<char>, b: Seq<char>)
    requires
        begins_apart(b),
    ensures
        word_run(a + b) == word_run(a),
        digit_run(a + b) == digit_run(a),
    decreases a.len(),
{
    if a.len() == 0 {
        assert(a + b =~= b);
    } else {
        assert((a + b).skip(1) =~= a.skip(1) + b);
        lemma_runs_stop_before(a.skip(1), b);
    }
}

/// The lexeme that begins a text is the same where a text that begins
/// apart is put behind the text.
pub proof fn lemma_first_lexeme_before(a: Seq<char>, b: Seq<char>)
    requires
        a.len() > 0,
        begins_apart(b),
    ensures
        first_lexeme(a + b) == first_lexeme(a),
{
    lemma_runs_stop_before(a, b);
    lemma_first_lexeme_len(a);
    if let Some(lexeme) = first_lexeme(a) {
        let n = lexeme.text.len() as int;
        assert((a + b).take(n) =~= a.take(n));
    }
}

/// The lexemes of a text stay where a text that begins apart is put behind
/// it, and the lexemes of that text follow them. Where the first text has
/// no lexemes, the two together have none.
pub proof fn lemma_scan_before(a: Seq<char>, b: Seq<char>, of_a: Seq<char>, whole: Seq<char>)
    requires
        begins_apart(b),
    ensures
        match scan(a, of_a) {
            Ok(lexemes) => scan(a + b, whole) == found_then(lexemes, scan(b, whole)),
            Err(_) => scan(a + b, whole) is Err,
        },
    decreases a.len(),
{
    if a.len() == 0 {
        assert(a + b =~= b);
        if let Ok(more) = scan(b, whole) {
            assert(Seq::<Lexeme>::empty() + more =~= more);
        }
    } else if spec_is_space(a[0]) {
        assert((a + b).skip(1) =~= a.skip(1) + b);
        lemma_scan_before(a.skip(1), b, of_a, whole);
    } else {
        lemma_first_lexeme_before(a, b);
        lemma_first_lexeme_len(a);
        if let Some(lexeme) = first_lexeme(a) {
            let n = lexeme.text.len() as int;
            assert((a + b).skip(n) =~= a.skip(n) + b);
            lemma_scan_before(a.skip(n), b, of_a, whole);
            if let Ok(rest) = scan(a.skip(n), of_a) {
                if let Ok(more) = scan(b, whole) {
                    assert((seq![lexeme] + rest) + more =~= seq![lexeme] + (rest + more));
                }
            }
        }
    }
}

/// The lexeme that is a single mark.
pub open spec fn mark(c: char) -> Lexeme {
    Lexeme { kind: TokenKind::Reserved, text: seq![c] }
}

/// A mark that begins no operator of two characters is a lexeme by itself
/// at the front of any text.
pub proof fn lemma_scan_behind_mark(c: char, a: Seq<char>, whole: Seq<char>)
    requires
        spec_is_mark(c),
        !spec_is_compound_head(c),
    ensures
        scan(seq![c] + a, whole) == found_then(seq![mark(c)], scan(a, whole)),
{
    let s = seq![c] + a;
    assert(s.take(1) =~= seq![c]);
    assert(s.skip(1) =~= a);
}

} // verus!
