//! What holds of whole programs: that reading is repeatable, that
//! parentheses change nothing, and that negating twice changes nothing of
//! what a program returns.

use vstd::prelude::*;

use crate::grammar::{
    is_closer, lemma_assign_keeps, lemma_minus_negates, lemma_offsets_within_more,
    lemma_parentheses_change_nothing, lemma_program_offsets, lemma_stmt_keeps, lowercase_names,
    parse_expr, parse_program, parse_stmt, used, ParsedProgram,
};
use crate::instructions::{
    immediates_fit, lemma_assembly_is_listing, lemma_body_code_is_listing, program_instrs,
};
use crate::lexeme::{
    lemma_scan_before, lemma_scan_behind_mark, lex, mark, scan, token_of, tokens_of, Lexeme,
};
use crate::machine::{exit_status, run, Machine};
use crate::meaning::{
    at_entry, entered, frame_of, last_value, lemma_exit_status_is_last_value,
    lemma_negated_is_runnable, lemma_negating_twice_keeps_value,
};
use crate::parse::Node;
use crate::result::{CompileFault, ParseFault, TokenizeFault};
use crate::tokenize::{fresh, op_token, TokenView, TokensView};
use crate::{assembly, body_code, trees};

verus! {

/// Reading a text is repeatable: whatever two runs of the tokeniser on one
/// text hand to the parser is the same stream, and whatever the parser
/// makes of it in the two runs is the same, tree for tree.
pub proof fn lemma_reading_is_repeatable(
    input: Seq<char>,
    first_stream: TokensView,
    second_stream: TokensView,
    first: ParsedProgram,
    second: ParsedProgram,
)
    requires
        lex(input) == Ok::<Seq<TokenView>, TokenizeFault>(first_stream.tokens),
        first_stream == fresh(input, first_stream.tokens),
        lex(input) == Ok::<Seq<TokenView>, TokenizeFault>(second_stream.tokens),
        second_stream == fresh(input, second_stream.tokens),
        first == parse_program(first_stream),
        second == parse_program(second_stream),
    ensures
        first_stream == second_stream,
        first == second,
        trees(input) is Ok ==> first.result is Ok && first.result->Ok_0 == trees(input)->Ok_0,
{
}

/// The offsets of the local variables of a program text.
///
/// Every tree of a program is well formed, and each of its local variables
/// lies at an offset `8 * k`, `k` from 1 to the number of variables that
/// the parser has recorded. Where every identifier of the text is a single
/// lowercase letter, `k` is at most 26.
pub proof fn lemma_offsets_of_text(input: Seq<char>)
    requires
        trees(input) is Ok,
    ensures
        ({
            let stream = fresh(input, lex(input)->Ok_0);
            let count = parse_program(stream).rest.lvars.len();
            let nodes = trees(input)->Ok_0;
            &&& forall|i: int|
                0 <= i < nodes.len() ==> (#[trigger] nodes[i]).well_formed()
                    && nodes[i].offsets_within(count)
            &&& lowercase_names(stream) ==> count <= 26 && forall|i: int|
                0 <= i < nodes.len() ==> (#[trigger] nodes[i]).offsets_within(26)
        }),
{
    lemma_program_offsets(fresh(input, lex(input)->Ok_0));
}

/// The stream of a text that is an expression followed by `;`: the tokens
/// of the expression, and the `;`.
pub open spec fn statement_stream(e: Seq<char>) -> TokensView {
    fresh(e + ";"@, tokens_of(scan(e, e)->Ok_0 + seq![mark(';')]))
}

/// What a text of one statement is made of: the text before the `;` has
/// lexemes of its own, the tokens of the whole are the tokens of these and
/// the `;`, and the expression that the parser reads takes all tokens but
/// the `;`.
proof fn lemma_one_statement(e: Seq<char>)
    requires
        trees(e + ";"@) matches Ok(nodes) && nodes.len() == 1,
    ensures
        ({
            let plain = statement_stream(e);
            let n = scan(e, e)->Ok_0.len() as int;
            &&& scan(e, e) is Ok
            &&& lex(e + ";"@) == Ok::<Seq<TokenView>, TokenizeFault>(plain.tokens)
            &&& plain.tokens.len() == n + 1
            &&& plain.tokens[n] == op_token(";"@)
            &&& is_closer(plain.tokens[n])
            &&& parse_expr(plain).result == Ok::<Node, ParseFault>(trees(e + ";"@)->Ok_0[0])
            &&& used(parse_expr(plain), plain) == n
            &&& parse_expr(plain).rest.tokens == seq![op_token(";"@)]
            &&& parse_program(plain).rest.lvars == parse_expr(plain).rest.lvars
        }),
{
    reveal_strlit(";");
    let text = e + ";"@;
    let semi = seq![';'];
    assert(";"@ =~= semi);
    assert(semi =~= seq![';'] + Seq::<char>::empty());
    lemma_scan_behind_mark(';', Seq::empty(), text);
    lemma_scan_before(e, semi, e, text);
    let inner = scan(e, e)->Ok_0;
    let lexemes = inner + seq![mark(';')];
    assert(seq![mark(';')] + Seq::<Lexeme>::empty() =~= seq![mark(';')]);
    assert(scan(text, text) == Ok::<Seq<Lexeme>, TokenizeFault>(lexemes));
    let n = inner.len() as int;
    let plain = statement_stream(e);
    assert(plain.tokens[n] == token_of(lexemes[n]));
    let node = trees(text)->Ok_0[0];
    let first = parse_stmt(plain);
    lemma_stmt_keeps(plain, |name: Seq<char>| true);
    assert(first.result == Ok::<Node, ParseFault>(node));
    assert(parse_program(first.rest).result->Ok_0.len() == 0);
    assert(first.rest.tokens.len() == 0);
    lemma_assign_keeps(plain, |name: Seq<char>| true);
    assert(parse_expr(plain).rest.tokens =~= seq![op_token(";"@)]);
}

/// A text whose tokens are an expression and a `;` is a program of one
/// statement, with the tree of the expression.
proof fn lemma_statement_is_program(text: Seq<char>, tokens: Seq<TokenView>, tree: Node)
    requires
        lex(text) == Ok::<Seq<TokenView>, TokenizeFault>(tokens),
        parse_expr(fresh(text, tokens)).result == Ok::<Node, ParseFault>(tree),
        parse_expr(fresh(text, tokens)).rest.tokens == seq![op_token(";"@)],
    ensures
        trees(text) == Ok::<Seq<Node>, CompileFault>(seq![tree]),
        parse_program(fresh(text, tokens)).rest.lvars == parse_expr(fresh(text, tokens)).rest.lvars,
{
    let stream = fresh(text, tokens);
    let read = parse_stmt(stream);
    lemma_stmt_keeps(stream, |name: Seq<char>| true);
    assert(parse_expr(stream).rest.starts_with_op(";"@));
    assert(read.rest.tokens.len() == 0);
    assert(parse_program(read.rest).result == Ok::<Seq<Node>, ParseFault>(Seq::empty()));
    assert(seq![tree] + Seq::<Node>::empty() =~= seq![tree]);
}

/// Parentheses around a program's expression change nothing: where the
/// text `e` followed by `;` is a program of one statement, the text `(e);`
/// is a program with the same tree, and so with the same assembly.
pub proof fn lemma_parentheses_keep_assembly(e: Seq<char>)
    requires
        trees(e + ";"@) matches Ok(nodes) && nodes.len() == 1,
    ensures
        trees("("@ + e + ");"@) == trees(e + ";"@),
        assembly("("@ + e + ");"@) == assembly(e + ";"@),
{
    reveal_strlit("(");
    reveal_strlit(")");
    reveal_strlit(";");
    reveal_strlit(");");
    let text = "("@ + e + ");"@;
    let semi = seq![';'];
    let close = seq![')', ';'];
    assert(";"@ =~= semi && ");"@ =~= close && "("@ =~= seq!['('] && ")"@ =~= seq![')']);
    assert(close =~= seq![')'] + semi);
    assert(semi =~= seq![';'] + Seq::<char>::empty());
    assert(text =~= seq!['('] + (e + close));
    lemma_one_statement(e);
    let plain = statement_stream(e);
    let inner = scan(e, e)->Ok_0;
    let n = inner.len() as int;

    lemma_scan_behind_mark(';', Seq::empty(), text);
    lemma_scan_behind_mark(')', semi, text);
    lemma_scan_behind_mark('(', e + close, text);
    lemma_scan_before(e, close, e, text);
    let lexemes = seq![mark('(')] + (inner + (seq![mark(')')] + seq![mark(';')]));
    assert(seq![mark(';')] + Seq::<Lexeme>::empty() =~= seq![mark(';')]);
    assert(scan(text, text) == Ok::<Seq<Lexeme>, TokenizeFault>(lexemes));

    let tokens = tokens_of(lexemes);
    let wrapped = fresh(text, tokens);
    let expected = seq![op_token("("@)] + plain.tokens.take(n) + seq![op_token(")"@)]
        + plain.tokens.skip(n);
    assert(tokens.len() == n + 3 && expected.len() == n + 3);
    assert forall|i: int| 0 <= i < n + 3 implies tokens[i] == expected[i] by {
        assert(tokens[i] == token_of(lexemes[i]));
        if i == 0 {
            assert(lexemes[0] == mark('('));
        } else if i <= n {
            assert(lexemes[i] == inner[i - 1]);
            assert(expected[i] == plain.tokens.take(n)[i - 1]);
            assert(plain.tokens[i - 1] == token_of(inner[i - 1]));
        } else if i == n + 1 {
            assert(lexemes[i] == mark(')'));
        } else {
            assert(lexemes[i] == mark(';'));
            assert(expected[i] == plain.tokens.skip(n)[0]);
        }
    }
    assert(tokens =~= expected);

    lemma_stmt_keeps(plain, |name: Seq<char>| true);
    lemma_parentheses_change_nothing(plain, wrapped);
    lemma_statement_is_program(text, tokens, trees(e + ";"@)->Ok_0[0]);
    assert(trees(e + ";"@)->Ok_0 =~= seq![trees(e + ";"@)->Ok_0[0]]);
}

/// The program of `-(-(e));` has the tree of `e`, negated twice, where the
/// text `e` followed by `;` is a program of one statement. It has the same
/// local variables.
pub proof fn lemma_negated_twice_text(e: Seq<char>)
    requires
        trees(e + ";"@) matches Ok(nodes) && nodes.len() == 1,
    ensures
        trees("-(-("@ + e + "));"@) == Ok::<Seq<Node>, CompileFault>(
            seq![trees(e + ";"@)->Ok_0[0].negated().negated()],
        ),
        lex("-(-("@ + e + "));"@) is Ok,
        parse_program(fresh("-(-("@ + e + "));"@, lex("-(-("@ + e + "));"@)->Ok_0)).rest.lvars
            == parse_program(fresh(e + ";"@, lex(e + ";"@)->Ok_0)).rest.lvars,
{
    reveal_strlit("(");
    reveal_strlit(")");
    reveal_strlit("-");
    reveal_strlit(";");
    reveal_strlit("-(-(");
    reveal_strlit("));");
    let text = "-(-("@ + e + "));"@;
    let semi = seq![';'];
    let close = seq![')', ';'];
    let closes = seq![')', ')', ';'];
    assert(";"@ =~= semi && "));"@ =~= closes && "("@ =~= seq!['('] && ")"@ =~= seq![')'] && "-"@
        =~= seq!['-']);
    assert(closes =~= seq![')'] + close);
    assert(close =~= seq![')'] + semi);
    assert(semi =~= seq![';'] + Seq::<char>::empty());
    let s3 = seq!['('] + (e + closes);
    let s2 = seq!['-'] + s3;
    let s1 = seq!['('] + s2;
    assert(text =~= seq!['-'] + s1);
    lemma_one_statement(e);
    let plain = statement_stream(e);
    let inner = scan(e, e)->Ok_0;
    let n = inner.len() as int;
    let node = trees(e + ";"@)->Ok_0[0];

    lemma_scan_behind_mark(';', Seq::empty(), text);
    lemma_scan_behind_mark(')', semi, text);
    lemma_scan_behind_mark(')', close, text);
    lemma_scan_before(e, closes, e, text);
    lemma_scan_behind_mark('(', e + closes, text);
    lemma_scan_behind_mark('-', s3, text);
    lemma_scan_behind_mark('(', s2, text);
    lemma_scan_behind_mark('-', s1, text);
    let tail = seq![mark(')')] + (seq![mark(')')] + seq![mark(';')]);
    let lexemes = seq![mark('-')] + (seq![mark('(')] + (seq![mark('-')] + (seq![mark('(')] + (inner
        + tail))));
    assert(seq![mark(';')] + Seq::<Lexeme>::empty() =~= seq![mark(';')]);
    assert(scan(text, text) == Ok::<Seq<Lexeme>, TokenizeFault>(lexemes));
    let tokens = tokens_of(lexemes);
    let twice = fresh(text, tokens);

    // The text negated once, as a stream between the two.
    let once_tokens = seq![op_token("-"@), op_token("("@)] + plain.tokens.take(n) + seq![
        op_token(")"@),
    ] + plain.tokens.skip(n);
    let once = fresh(e, once_tokens);
    lemma_stmt_keeps(plain, |name: Seq<char>| true);
    lemma_minus_negates(plain, once);
    assert(once_tokens.len() == n + 4);
    assert(once_tokens[n + 3] == plain.tokens[n]);

    let expected = seq![op_token("-"@), op_token("("@)] + once_tokens.take(n + 3) + seq![
        op_token(")"@),
    ] + once_tokens.skip(n + 3);
    assert(tokens.len() == n + 7 && expected.len() == n + 7);
    assert forall|i: int| 0 <= i < n + 7 implies tokens[i] == expected[i] by {
        assert(tokens[i] == token_of(lexemes[i]));
        if i == 0 {
            assert(lexemes[i] == mark('-'));
        } else if i == 1 {
            assert(lexemes[i] == mark('('));
        } else if i == 2 {
            assert(lexemes[i] == mark('-'));
            assert(expected[i] == once_tokens[0]);
        } else if i == 3 {
            assert(lexemes[i] == mark('('));
            assert(expected[i] == once_tokens[1]);
        } else if i <= n + 3 {
            assert(lexemes[i] == inner[i - 4]);
            assert(expected[i] == once_tokens[i - 2]);
            assert(once_tokens[i - 2] == plain.tokens.take(n)[i - 4]);
            assert(plain.tokens[i - 4] == token_of(inner[i - 4]));
        } else if i == n + 4 {
            assert(lexemes[i] == mark(')'));
            assert(expected[i] == once_tokens[n + 2]);
        } else if i == n + 5 {
            assert(lexemes[i] == mark(')'));
        } else {
            assert(lexemes[i] == mark(';'));
            assert(expected[i] == once_tokens.skip(n + 3)[0]);
        }
    }
    assert(tokens =~= expected);
    lemma_minus_negates(once, twice);
    lemma_statement_is_program(text, tokens, node.negated().negated());
}

/// Negating twice keeps the exit status.
///
/// Where the text `e` followed by `;` is a program of one statement that
/// has an assembly, the text `-(-(e));` has one too, and the two programs,
/// run from the same state at the entry of `main`, return with the same
/// exit status, or fault both. This holds of a text with at most 26 local
/// variables and with no integer too large to stand in an instruction.
pub proof fn lemma_negating_twice_keeps_exit_status(e: Seq<char>, m: Machine)
    requires
        trees(e + ";"@) matches Ok(nodes) && nodes.len() == 1 && immediates_fit(nodes[0]),
        assembly(e + ";"@) is Ok,
        parse_program(fresh(e + ";"@, lex(e + ";"@)->Ok_0)).rest.lvars.len() <= 26,
        at_entry(m),
    ensures
        assembly("-(-("@ + e + "));"@) is Ok,
        ({
            let plain = run(program_instrs(trees(e + ";"@)->Ok_0), m);
            let twice = run(program_instrs(trees("-(-("@ + e + "));"@)->Ok_0), m);
            match plain {
                Some(after) => twice matches Some(other) && after.returned && other.returned
                    && exit_status(other) == exit_status(after),
                None => twice is None,
            }
        }),
{
    let text = e + ";"@;
    let negated = "-(-("@ + e + "));"@;
    let stream = fresh(text, lex(text)->Ok_0);
    let node = trees(text)->Ok_0[0];
    let tree = node.negated().negated();
    lemma_negated_twice_text(e);
    lemma_assembly_is_listing(text);
    lemma_program_offsets(stream);
    lemma_offsets_within_more(node, parse_program(stream).rest.lvars.len(), 26);
    assert(trees(text)->Ok_0 =~= seq![node]);
    lemma_negated_is_runnable(node);
    lemma_negated_is_runnable(node.negated());
    lemma_body_code_is_listing(seq![tree]);
    assert(body_code(seq![tree]) is Ok);
    lemma_exit_status_is_last_value(text, m);
    lemma_exit_status_is_last_value(negated, m);
    let frame = frame_of(entered(m));
    lemma_negating_twice_keeps_value(node, frame);
    assert(seq![node].drop_last() =~= Seq::<Node>::empty());
    assert(seq![tree].drop_last() =~= Seq::<Node>::empty());
    assert(last_value(seq![node], frame) == last_value(seq![tree], frame));
}

} // verus!
