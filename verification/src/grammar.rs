//! What the trees of a token stream are: the grammar of the language as
//! functions on token sequences, and what follows from them.
//!
//! ```text
//! program    = stmt*
//! stmt       = expr ";"
//! expr       = assign
//! assign     = equality ("=" assign)?
//! equality   = relational (("==" | "!=") relational)*
//! relational = add (("<" | "<=" | ">" | ">=") add)*
//! add        = mul (("+" | "-") mul)*
//! mul        = unary (("*" | "/") unary)*
//! unary      = ("+" | "-")? primary
//! primary    = "(" expr ")" | ident | num
//! ```

use vstd::prelude::*;

use crate::parse::{index_of_name, LVarView, Node, NodeKind};
use crate::result::{ParseError, ParseFault};
use crate::tokenize::{op_token, TokenKind, TokenView, TokensView};

verus! {

/// What a grammar rule makes of a token stream: the tree it built or the
/// fault it met, and the stream as it leaves it.
pub struct Parsed {
    pub result: Result<Node, ParseFault>,
    pub rest: TokensView,
}

impl Parsed {
    /// Whether the rule left fewer tokens than `t` holds.
    pub open spec fn shorter_than(self, t: TokensView) -> bool {
        self.rest.tokens.len() < t.tokens.len()
    }
}

/// What the parser makes of a whole token stream: one tree per statement,
/// or the fault it met, and the stream as it leaves it.
pub struct ParsedProgram {
    pub result: Result<Seq<Node>, ParseFault>,
    pub rest: TokensView,
}

/// A rule's result and the stream it left, seen as a [`Parsed`].
pub open spec fn outcome(r: Result<Node, ParseError>, rest: TokensView) -> Parsed {
    Parsed {
        result: match r {
            Ok(node) => Ok(node),
            Err(e) => Err(e@),
        },
        rest,
    }
}

/// The parser's result and the stream it left, seen as a [`ParsedProgram`].
pub open spec fn program_outcome(r: Result<Vec<Node>, ParseError>, rest: TokensView)
    -> ParsedProgram {
    ParsedProgram {
        result: match r {
            Ok(nodes) => Ok(nodes@),
            Err(e) => Err(e@),
        },
        rest,
    }
}

/// The offset of the variable that joins a table of `count` variables: the
/// first variable lies 8 bytes below the base pointer, each further one 8
/// bytes below the one before.
pub open spec fn next_offset(count: nat) -> int {
    8 * (count as int + 1)
}

/// The levels of binary operators that associate to the left, from the one
/// that binds tightest.
pub enum Level {
    /// `*` and `/`
    Mul,
    /// `+` and `-`
    Add,
    /// `<`, `<=`, `>` and `>=`
    Relational,
    /// `==` and `!=`
    Equality,
}

impl Level {
    /// The position of the level, counted from the tightest.
    pub open spec fn rank(self) -> nat {
        match self {
            Level::Mul => 0,
            Level::Add => 1,
            Level::Relational => 2,
            Level::Equality => 3,
        }
    }
}

/// The operator of `level` that begins `t`, where one does: the kind of node
/// it makes, and whether its operands change places. `a > b` is read as
/// `b < a`, and `a >= b` as `b <= a`.
pub open spec fn operator_at(level: Level, t: TokensView) -> Option<(NodeKind, bool)> {
    match level {
        Level::Mul => if t.starts_with_op("*"@) {
            Some((NodeKind::Mul, false))
        } else if t.starts_with_op("/"@) {
            Some((NodeKind::Div, false))
        } else {
            None
        },
        Level::Add => if t.starts_with_op("+"@) {
            Some((NodeKind::Add, false))
        } else if t.starts_with_op("-"@) {
            Some((NodeKind::Sub, false))
        } else {
            None
        },
        Level::Relational => if t.starts_with_op("<"@) {
            Some((NodeKind::Lt, false))
        } else if t.starts_with_op("<="@) {
            Some((NodeKind::Le, false))
        } else if t.starts_with_op(">"@) {
            Some((NodeKind::Lt, true))
        } else if t.starts_with_op(">="@) {
            Some((NodeKind::Le, true))
        } else {
            None
        },
        Level::Equality => if t.starts_with_op("=="@) {
            Some((NodeKind::Eq, false))
        } else if t.starts_with_op("!="@) {
            Some((NodeKind::Ne, false))
        } else {
            None
        },
    }
}

/// The node that an operator makes of the tree on its left and the tree on
/// its right.
pub open spec fn join(op: (NodeKind, bool), left: Node, right: Node) -> Node {
    if op.1 {
        Node::binary(op.0, right, left)
    } else {
        Node::binary(op.0, left, right)
    }
}

/// `primary = "(" expr ")" | ident | num`
///
/// An identifier that the table of local variables holds gets the offset
/// recorded there. Another joins the table, at the next offset.
pub open spec fn parse_primary(t: TokensView) -> Parsed
    decreases t.tokens.len(), 0nat,
{
    if t.starts_with_op("("@) {
        let inner = parse_expr(t.advanced());
        match inner.result {
            Ok(node) => if inner.rest.starts_with_op(")"@) {
                Parsed { result: Ok(node), rest: inner.rest.advanced() }
            } else {
                Parsed { result: Err(ParseFault::MissingCloseParen), rest: inner.rest }
            },
            Err(_) => inner,
        }
    } else if t.tokens.len() == 0 {
        Parsed { result: Err(ParseFault::UnexpectedEnd), rest: t }
    } else {
        let token = t.tokens[0];
        match token.kind {
            TokenKind::Ident => {
                let i = index_of_name(t.lvars, token.text);
                if i < t.lvars.len() {
                    Parsed { result: Ok(Node::lvar(t.lvars[i as int].offset)), rest: t.advanced() }
                } else if next_offset(t.lvars.len()) > i64::MAX {
                    Parsed { result: Err(ParseFault::TooManyVariables), rest: t }
                } else {
                    let var = LVarView {
                        name: token.text,
                        len: token.len,
                        offset: next_offset(t.lvars.len()) as i64,
                    };
                    Parsed {
                        result: Ok(Node::lvar(var.offset)),
                        rest: TokensView { lvars: t.lvars.push(var), ..t.advanced() },
                    }
                }
            },
            TokenKind::Num => Parsed { result: Ok(Node::num(token.val)), rest: t.advanced() },
            TokenKind::Reserved => Parsed {
                result: Err(ParseFault::UnexpectedToken(token.text)),
                rest: t,
            },
        }
    }
}

/// `unary = ("+" | "-")? primary`
///
/// `+x` is `x`, and `-x` is `0 - x`.
pub open spec fn parse_unary(t: TokensView) -> Parsed
    decreases t.tokens.len(), 1nat,
{
    if t.starts_with_op("+"@) {
        parse_primary(t.advanced())
    } else if t.starts_with_op("-"@) {
        let operand = parse_primary(t.advanced());
        match operand.result {
            Ok(node) => Parsed { result: Ok(node.negated()), rest: operand.rest },
            Err(_) => operand,
        }
    } else {
        parse_primary(t)
    }
}

/// An operand of `level`: a `unary` at the tightest level, and at any other
/// a whole expression of the level below.
pub open spec fn parse_operand(level: Level, t: TokensView) -> Parsed
    decreases t.tokens.len(), 2 * level.rank() + 2,
{
    match level {
        Level::Mul => parse_unary(t),
        Level::Add => parse_level(Level::Mul, t),
        Level::Relational => parse_level(Level::Add, t),
        Level::Equality => parse_level(Level::Relational, t),
    }
}

/// An expression of `level`: operands with operators of the level between
/// them, taken together from the left.
///
/// ```text
/// equality   = relational (("==" | "!=") relational)*
/// relational = add (("<" | "<=" | ">" | ">=") add)*
/// add        = mul (("+" | "-") mul)*
/// mul        = unary (("*" | "/") unary)*
/// ```
///
/// A rule that succeeds has taken at least one token; that this is asked
/// anew before a rule goes on only serves to keep the definition well
/// founded.
pub open spec fn parse_level(level: Level, t: TokensView) -> Parsed
    decreases t.tokens.len(), 2 * level.rank() + 3,
{
    let first = parse_operand(level, t);
    match first.result {
        Ok(node) if first.shorter_than(t) => parse_level_tail(level, node, first.rest),
        _ => first,
    }
}

/// What follows the first operand of an expression of `level`, `left`
/// being the tree of what was read so far.
pub open spec fn parse_level_tail(level: Level, left: Node, t: TokensView) -> Parsed
    decreases t.tokens.len(), 0nat,
{
    match operator_at(level, t) {
        None => Parsed { result: Ok(left), rest: t },
        Some(op) => {
            let next = parse_operand(level, t.advanced());
            match next.result {
                Ok(right) if next.shorter_than(t) => parse_level_tail(
                    level,
                    join(op, left, right),
                    next.rest,
                ),
                _ => next,
            }
        },
    }
}

/// `assign = equality ("=" assign)?`
pub open spec fn parse_assign(t: TokensView) -> Parsed
    decreases t.tokens.len(), 10nat,
{
    let target = parse_level(Level::Equality, t);
    match target.result {
        Ok(left) if target.shorter_than(t) && target.rest.starts_with_op("="@) => {
            let value = parse_assign(target.rest.advanced());
            match value.result {
                Ok(right) => Parsed {
                    result: Ok(Node::binary(NodeKind::Assign, left, right)),
                    rest: value.rest,
                },
                Err(_) => value,
            }
        },
        _ => target,
    }
}

/// `expr = assign`
pub open spec fn parse_expr(t: TokensView) -> Parsed
    decreases t.tokens.len(), 11nat,
{
    parse_assign(t)
}

/// `stmt = expr ";"`
pub open spec fn parse_stmt(t: TokensView) -> Parsed {
    let e = parse_expr(t);
    match e.result {
        Ok(node) => if e.rest.starts_with_op(";"@) {
            Parsed { result: Ok(node), rest: e.rest.advanced() }
        } else {
            Parsed { result: Err(ParseFault::MissingSemicolon), rest: e.rest }
        },
        Err(_) => e,
    }
}

/// `program = stmt*`
///
/// Statements are read until no token is left; the first fault ends the
/// reading. A statement that is read has always taken a token.
pub open spec fn parse_program(t: TokensView) -> ParsedProgram
    decreases t.tokens.len(),
{
    if t.tokens.len() == 0 {
        ParsedProgram { result: Ok(Seq::empty()), rest: t }
    } else {
        let first = parse_stmt(t);
        match first.result {
            Ok(node) if first.shorter_than(t) => {
                let more = parse_program(first.rest);
                ParsedProgram {
                    result: match more.result {
                        Ok(nodes) => Ok(seq![node] + nodes),
                        Err(e) => Err(e),
                    },
                    rest: more.rest,
                }
            },
            Ok(node) => ParsedProgram { result: Ok(seq![node]), rest: first.rest },
            Err(e) => ParsedProgram { result: Err(e), rest: first.rest },
        }
    }
}

/// What `program` has read so far decides, together with what is left to
/// read, the trees of the whole stream.
pub open spec fn read_then(nodes: Seq<Node>, rest: ParsedProgram) -> ParsedProgram {
    ParsedProgram {
        result: match rest.result {
            Ok(more) => Ok(nodes + more),
            Err(e) => Err(e),
        },
        rest: rest.rest,
    }
}

/// Whether a rule that began with `t` took tokens off as a rule does: it
/// left no more tokens than it found, and fewer where it built a tree.
pub open spec fn advances(p: Parsed, t: TokensView) -> bool {
    &&& p.rest.tokens.len() <= t.tokens.len()
    &&& p.result is Ok ==> p.rest.tokens.len() < t.tokens.len()
}

/// Whether a table of local variables is in order: no two variables share a
/// name, and the variable at index `i` lies at offset `8 * (i + 1)`.
pub open spec fn table_ok(vars: Seq<LVarView>) -> bool {
    &&& forall|i: int| 0 <= i < vars.len() ==> (#[trigger] vars[i]).offset == next_offset(i as nat)
    &&& forall|i: int, j: int|
        0 <= i < j < vars.len() ==> (#[trigger] vars[i]).name != (#[trigger] vars[j]).name
}

/// Whether every identifier among the tokens, and every name in the table,
/// passes the test `good`.
pub open spec fn names_pass(t: TokensView, good: spec_fn(Seq<char>) -> bool) -> bool {
    &&& forall|i: int|
        0 <= i < t.tokens.len() && (#[trigger] t.tokens[i]).kind == TokenKind::Ident ==> good(
            t.tokens[i].text,
        )
    &&& forall|j: int| 0 <= j < t.lvars.len() ==> good((#[trigger] t.lvars[j]).name)
}

/// Whether the stream `u` can come of the stream `t` by parsing: the source
/// text is the same, the tokens of `u` are the last of `t`, the table of
/// `u` begins with the table of `t`, and is in order where that of `t` is.
/// The names keep passing any test that the names of `t` pass.
pub open spec fn follows(u: TokensView, t: TokensView, good: spec_fn(Seq<char>) -> bool) -> bool {
    &&& u.user_input == t.user_input
    &&& u.tokens.len() <= t.tokens.len()
    &&& u.tokens == t.tokens.skip(t.tokens.len() - u.tokens.len())
    &&& t.lvars.len() <= u.lvars.len()
    &&& u.lvars.take(t.lvars.len() as int) == t.lvars
    &&& table_ok(t.lvars) ==> table_ok(u.lvars)
    &&& names_pass(t, good) ==> names_pass(u, good)
}

/// Whether the tree `node` is one that a rule may hand out with the table
/// `vars`: well formed, its variables among those of the table.
pub open spec fn fits_table(node: Node, vars: Seq<LVarView>) -> bool {
    node.well_formed() && node.offsets_within(vars.len())
}

/// What every rule keeps to: the stream it leaves follows the stream it
/// began with, and, the table being in order, the tree it builds fits the
/// table it leaves.
pub open spec fn keeps(p: Parsed, t: TokensView, good: spec_fn(Seq<char>) -> bool) -> bool {
    &&& follows(p.rest, t, good)
    &&& table_ok(t.lvars) ==> (p.result matches Ok(node) ==> fits_table(node, p.rest.lvars))
}

/// A stream follows itself.
pub proof fn lemma_follows_self(t: TokensView, good: spec_fn(Seq<char>) -> bool)
    ensures
        follows(t, t, good),
{
    assert(t.tokens =~= t.tokens.skip(0));
    assert(t.lvars.take(t.lvars.len() as int) =~= t.lvars);
}

/// A stream without its first token follows the stream.
pub proof fn lemma_follows_advanced(t: TokensView, good: spec_fn(Seq<char>) -> bool)
    requires
        t.tokens.len() > 0,
    ensures
        follows(t.advanced(), t, good),
{
    let u = t.advanced();
    assert(t.lvars.take(t.lvars.len() as int) =~= t.lvars);
    if names_pass(t, good) {
        assert forall|i: int|
            0 <= i < u.tokens.len() && (#[trigger] u.tokens[i]).kind
                == TokenKind::Ident implies good(u.tokens[i].text) by {
            assert(u.tokens[i] == t.tokens[i + 1]);
        }
    }
}

/// What follows a stream that follows `t` follows `t`.
pub proof fn lemma_follows_chain(
    v: TokensView,
    u: TokensView,
    t: TokensView,
    good: spec_fn(Seq<char>) -> bool,
)
    requires
        follows(v, u, good),
        follows(u, t, good),
    ensures
        follows(v, t, good),
{
    assert(v.tokens =~= t.tokens.skip(t.tokens.len() - v.tokens.len()));
    assert(v.lvars.take(t.lvars.len() as int) =~= u.lvars.take(t.lvars.len() as int));
}

/// A tree whose variables are among the first `count` has them among the
/// first `more`, where `more` is no less.
pub proof fn lemma_offsets_within_more(node: Node, count: nat, more: nat)
    requires
        node.offsets_within(count),
        count <= more,
    ensures
        node.offsets_within(more),
    decreases node,
{
    if let Some(left) = node.lhs {
        lemma_offsets_within_more(*left, count, more);
    }
    if let Some(right) = node.rhs {
        lemma_offsets_within_more(*right, count, more);
    }
}

/// `index_of_name` finds the first variable of the name, and stops at the
/// length of the table where there is none.
pub proof fn lemma_index_of_name(vars: Seq<LVarView>, name: Seq<char>)
    ensures
        ({
            let i = index_of_name(vars, name);
            &&& i <= vars.len()
            &&& i < vars.len() ==> vars[i as int].name == name
            &&& forall|j: int| 0 <= j < i ==> (#[trigger] vars[j]).name != name
        }),
    decreases vars.len(),
{
    if !(vars.len() == 0 || vars[0].name == name) {
        let rest = vars.skip(1);
        lemma_index_of_name(rest, name);
        let i = index_of_name(vars, name);
        assert forall|j: int| 0 <= j < i implies (#[trigger] vars[j]).name != name by {
            if j > 0 {
                assert(vars[j] == rest[j - 1]);
            }
        }
    }
}

/// A name that a table holds is found at the same place in any table that
/// begins with it: a variable keeps the offset that it got when it was
/// first met.
pub proof fn lemma_lookup_stable(old_vars: Seq<LVarView>, new_vars: Seq<LVarView>, name: Seq<char>)
    requires
        old_vars.len() <= new_vars.len(),
        new_vars.take(old_vars.len() as int) == old_vars,
        index_of_name(old_vars, name) < old_vars.len(),
    ensures
        index_of_name(new_vars, name) == index_of_name(old_vars, name),
        new_vars[index_of_name(new_vars, name) as int] == old_vars[index_of_name(
            old_vars,
            name,
        ) as int],
{
    lemma_index_of_name(old_vars, name);
    lemma_index_of_name(new_vars, name);
    let i = index_of_name(old_vars, name) as int;
    let k = index_of_name(new_vars, name) as int;
    assert(forall|j: int| 0 <= j < old_vars.len() ==> old_vars[j] == new_vars.take(
        old_vars.len() as int,
    )[j]);
    assert(new_vars[i] == old_vars[i]);
    if k < i {
        assert(new_vars[k] == old_vars[k]);
    }
}

/// An identifier keeps its offset: where it is met again, in a stream
/// that follows the one in which it was read, it gives the same tree as
/// before. So every occurrence of a name has the offset that the first got.
pub proof fn lemma_identifier_keeps_offset(
    t: TokensView,
    u: TokensView,
    good: spec_fn(Seq<char>) -> bool,
)
    requires
        t.tokens.len() > 0,
        t.tokens[0].kind == TokenKind::Ident,
        parse_primary(t).result is Ok,
        follows(u, parse_primary(t).rest, good),
        u.tokens.len() > 0,
        u.tokens[0].kind == TokenKind::Ident,
        u.tokens[0].text == t.tokens[0].text,
    ensures
        parse_primary(u).result == parse_primary(t).result,
{
    let name = t.tokens[0].text;
    let after = parse_primary(t).rest.lvars;
    lemma_index_of_name(t.lvars, name);
    lemma_index_of_name(after, name);
    let i = index_of_name(t.lvars, name);
    if i < t.lvars.len() {
        assert(after == t.lvars);
    } else {
        assert(after == t.lvars.push(after[i as int]));
        assert(after[i as int].name == name);
        assert(forall|j: int| 0 <= j < i ==> after[j] == t.lvars[j]);
    }
    assert(index_of_name(after, name) == i);
    lemma_lookup_stable(after, u.lvars, name);
}

/// `primary` takes tokens off as a rule does, and keeps to what every rule
/// keeps to.
pub proof fn lemma_primary_keeps(t: TokensView, good: spec_fn(Seq<char>) -> bool)
    ensures
        advances(parse_primary(t), t),
        keeps(parse_primary(t), t, good),
    decreases t.tokens.len(), 0nat,
{
    let p = parse_primary(t);
    lemma_follows_self(t, good);
    if t.starts_with_op("("@) {
        let inner = parse_expr(t.advanced());
        lemma_follows_advanced(t, good);
        lemma_assign_keeps(t.advanced(), good);
        lemma_follows_chain(inner.rest, t.advanced(), t, good);
        if inner.result is Ok && inner.rest.starts_with_op(")"@) {
            lemma_follows_advanced(inner.rest, good);
            lemma_follows_chain(inner.rest.advanced(), inner.rest, t, good);
        }
    } else if t.tokens.len() > 0 {
        let token = t.tokens[0];
        lemma_follows_advanced(t, good);
        lemma_index_of_name(t.lvars, token.text);
        if token.kind == TokenKind::Ident && p.result is Ok && index_of_name(t.lvars, token.text)
            >= t.lvars.len() {
            let grown = p.rest.lvars;
            assert(grown.take(t.lvars.len() as int) =~= t.lvars);
            assert(grown.len() == t.lvars.len() + 1);
            assert(forall|j: int| 0 <= j < t.lvars.len() ==> grown[j] == t.lvars[j]);
            if names_pass(t, good) {
                assert(names_pass(t.advanced(), good));
                assert(good(token.text));
                assert(names_pass(p.rest, good));
            }
        }
    }
}

/// `unary` takes tokens off as a rule does, and keeps to what every rule
/// keeps to.
pub proof fn lemma_unary_keeps(t: TokensView, good: spec_fn(Seq<char>) -> bool)
    ensures
        advances(parse_unary(t), t),
        keeps(parse_unary(t), t, good),
    decreases t.tokens.len(), 1nat,
{
    if t.starts_with_op("+"@) || t.starts_with_op("-"@) {
        let operand = parse_primary(t.advanced());
        lemma_follows_advanced(t, good);
        lemma_primary_keeps(t.advanced(), good);
        lemma_follows_chain(operand.rest, t.advanced(), t, good);
        if let Ok(node) = operand.result {
            let zero = Node::num(0);
            assert(zero.well_formed() && zero.offsets_within(operand.rest.lvars.len()));
            let negated = Node::binary(NodeKind::Sub, zero, node);
            assert(table_ok(t.lvars) ==> fits_table(negated, operand.rest.lvars));
        }
    } else {
        lemma_primary_keeps(t, good);
    }
}

/// An operand takes tokens off as a rule does, and keeps to what every rule
/// keeps to.
pub proof fn lemma_operand_keeps(level: Level, t: TokensView, good: spec_fn(Seq<char>) -> bool)
    ensures
        advances(parse_operand(level, t), t),
        keeps(parse_operand(level, t), t, good),
    decreases t.tokens.len(), 2 * level.rank() + 2,
{
    match level {
        Level::Mul => lemma_unary_keeps(t, good),
        Level::Add => lemma_level_keeps(Level::Mul, t, good),
        Level::Relational => lemma_level_keeps(Level::Add, t, good),
        Level::Equality => lemma_level_keeps(Level::Relational, t, good),
    }
}

/// An expression of a level takes tokens off as a rule does, and keeps to
/// what every rule keeps to.
pub proof fn lemma_level_keeps(level: Level, t: TokensView, good: spec_fn(Seq<char>) -> bool)
    ensures
        advances(parse_level(level, t), t),
        keeps(parse_level(level, t), t, good),
    decreases t.tokens.len(), 2 * level.rank() + 3,
{
    lemma_operand_keeps(level, t, good);
    let first = parse_operand(level, t);
    if let Ok(node) = first.result {
        lemma_level_tail_keeps(level, node, first.rest, good);
        lemma_follows_chain(parse_level_tail(level, node, first.rest).rest, first.rest, t, good);
    }
}

/// What follows the first operand leaves a stream that follows the one it
/// found, and builds a tree that fits the table it leaves, where the table
/// is in order and the tree read so far fits the table.
pub proof fn lemma_level_tail_keeps(
    level: Level,
    left: Node,
    t: TokensView,
    good: spec_fn(Seq<char>) -> bool,
)
    ensures
        ({
            let p = parse_level_tail(level, left, t);
            &&& follows(p.rest, t, good)
            &&& table_ok(t.lvars) && fits_table(left, t.lvars) ==> (p.result matches Ok(node)
                ==> fits_table(node, p.rest.lvars))
        }),
    decreases t.tokens.len(), 0nat,
{
    lemma_follows_self(t, good);
    if let Some(op) = operator_at(level, t) {
        lemma_follows_advanced(t, good);
        lemma_operand_keeps(level, t.advanced(), good);
        let next = parse_operand(level, t.advanced());
        lemma_follows_chain(next.rest, t.advanced(), t, good);
        if let Ok(right) = next.result {
            let joined = join(op, left, right);
            if table_ok(t.lvars) && fits_table(left, t.lvars) {
                lemma_offsets_within_more(left, t.lvars.len(), next.rest.lvars.len());
                assert(fits_table(joined, next.rest.lvars));
            }
            lemma_level_tail_keeps(level, joined, next.rest, good);
            lemma_follows_chain(
                parse_level_tail(level, joined, next.rest).rest,
                next.rest,
                t,
                good,
            );
        }
    }
}

/// `assign` and `expr` take tokens off as a rule does, and keep to what
/// every rule keeps to.
pub proof fn lemma_assign_keeps(t: TokensView, good: spec_fn(Seq<char>) -> bool)
    ensures
        advances(parse_assign(t), t),
        keeps(parse_assign(t), t, good),
        advances(parse_expr(t), t),
        keeps(parse_expr(t), t, good),
    decreases t.tokens.len(), 10nat,
{
    lemma_level_keeps(Level::Equality, t, good);
    let target = parse_level(Level::Equality, t);
    if let Ok(left) = target.result {
        if target.rest.starts_with_op("="@) {
            let value = parse_assign(target.rest.advanced());
            lemma_follows_advanced(target.rest, good);
            lemma_assign_keeps(target.rest.advanced(), good);
            lemma_follows_chain(value.rest, target.rest.advanced(), target.rest, good);
            lemma_follows_chain(value.rest, target.rest, t, good);
            if table_ok(t.lvars) {
                lemma_offsets_within_more(left, target.rest.lvars.len(), value.rest.lvars.len());
            }
        }
    }
}

/// `stmt` takes tokens off as a rule does, and keeps to what every rule
/// keeps to.
pub proof fn lemma_stmt_keeps(t: TokensView, good: spec_fn(Seq<char>) -> bool)
    ensures
        advances(parse_stmt(t), t),
        keeps(parse_stmt(t), t, good),
{
    lemma_assign_keeps(t, good);
    let e = parse_expr(t);
    if e.result is Ok && e.rest.starts_with_op(";"@) {
        lemma_follows_advanced(e.rest, good);
        lemma_follows_chain(e.rest.advanced(), e.rest, t, good);
    }
}

/// An operand that is read leaves fewer tokens than it found.
pub proof fn lemma_operand_advances(level: Level, t: TokensView)
    ensures
        advances(parse_operand(level, t), t),
{
    lemma_operand_keeps(level, t, |name: Seq<char>| true);
}

/// An expression of a level that is read leaves fewer tokens than it found.
pub proof fn lemma_level_advances(level: Level, t: TokensView)
    ensures
        advances(parse_level(level, t), t),
{
    lemma_level_keeps(level, t, |name: Seq<char>| true);
}

/// A statement that is read leaves fewer tokens than it found.
pub proof fn lemma_stmt_advances(t: TokensView)
    ensures
        advances(parse_stmt(t), t),
{
    lemma_stmt_keeps(t, |name: Seq<char>| true);
}

/// `program` keeps to what every rule keeps to, each of its trees fits the
/// table it leaves, and where it succeeds no token is left.
pub proof fn lemma_program_keeps(t: TokensView, good: spec_fn(Seq<char>) -> bool)
    ensures
        ({
            let p = parse_program(t);
            &&& follows(p.rest, t, good)
            &&& p.result is Ok ==> p.rest.tokens.len() == 0
            &&& table_ok(t.lvars) ==> (p.result matches Ok(nodes) ==> forall|i: int|
                0 <= i < nodes.len() ==> fits_table(#[trigger] nodes[i], p.rest.lvars))
        }),
    decreases t.tokens.len(),
{
    let p = parse_program(t);
    lemma_follows_self(t, good);
    if t.tokens.len() > 0 {
        lemma_stmt_keeps(t, good);
        let first = parse_stmt(t);
        if let Ok(node) = first.result {
            let more = parse_program(first.rest);
            lemma_program_keeps(first.rest, good);
            lemma_follows_chain(more.rest, first.rest, t, good);
            if table_ok(t.lvars) {
                if let Ok(nodes) = more.result {
                    lemma_offsets_within_more(node, first.rest.lvars.len(), more.rest.lvars.len());
                    let all = seq![node] + nodes;
                    assert forall|i: int| 0 <= i < all.len() implies fits_table(
                        #[trigger] all[i],
                        p.rest.lvars,
                    ) by {
                        if i > 0 {
                            assert(all[i] == nodes[i - 1]);
                        }
                    }
                }
            }
        }
    }
}

/// Whether a name is a single lowercase letter.
pub open spec fn single_lowercase(name: Seq<char>) -> bool {
    name.len() == 1 && 'a' <= name[0] && name[0] <= 'z'
}

/// A table in order whose names are single lowercase letters holds at most
/// 26 variables.
pub proof fn lemma_lowercase_table_is_short(vars: Seq<LVarView>)
    requires
        table_ok(vars),
        forall|j: int| 0 <= j < vars.len() ==> single_lowercase((#[trigger] vars[j]).name),
    ensures
        vars.len() <= 26,
{
    let letters = Seq::new(vars.len(), |j: int| vars[j].name[0] as int - 'a' as int);
    assert forall|i: int, j: int| 0 <= i < letters.len() && 0 <= j < letters.len() && i != j
        implies letters[i] != letters[j] by {
        if letters[i] == letters[j] {
            assert(single_lowercase(vars[i].name) && single_lowercase(vars[j].name));
            assert(vars[i].name =~= vars[j].name);
        }
    }
    letters.unique_seq_to_set();
    vstd::set_lib::lemma_int_range(0, 26);
    assert forall|x: int| letters.to_set().contains(x) implies vstd::set_lib::set_int_range(
        0,
        26,
    ).contains(x) by {
        let j = choose|j: int| 0 <= j < letters.len() && letters[j] == x;
        assert(single_lowercase(vars[j].name));
    }
    vstd::set_lib::lemma_len_subset(letters.to_set(), vstd::set_lib::set_int_range(0, 26));
}

/// Whether every identifier among the tokens, and every name in the table,
/// is a single lowercase letter.
pub open spec fn lowercase_names(t: TokensView) -> bool {
    names_pass(t, |name: Seq<char>| single_lowercase(name))
}

/// The offsets of a program's local variables.
///
/// Where a token stream with a table in order parses as a program, the
/// table stays in order and every tree is well formed, with each of its
/// local variables at an offset `8 * k`, `k` from 1 to the number of
/// variables in the table. Where moreover every identifier is a single
/// lowercase letter, there are at most 26 variables, so that `k` is at
/// most 26.
pub proof fn lemma_program_offsets(t: TokensView)
    requires
        table_ok(t.lvars),
        parse_program(t).result is Ok,
    ensures
        ({
            let p = parse_program(t);
            let nodes = p.result->Ok_0;
            &&& table_ok(p.rest.lvars)
            &&& forall|i: int|
                0 <= i < nodes.len() ==> (#[trigger] nodes[i]).well_formed()
                    && nodes[i].offsets_within(p.rest.lvars.len())
            &&& lowercase_names(t) ==> p.rest.lvars.len() <= 26 && forall|i: int|
                0 <= i < nodes.len() ==> (#[trigger] nodes[i]).offsets_within(26)
        }),
{
    let good = |name: Seq<char>| single_lowercase(name);
    lemma_program_keeps(t, good);
    let p = parse_program(t);
    let nodes = p.result->Ok_0;
    assert forall|i: int| 0 <= i < nodes.len() implies (#[trigger] nodes[i]).well_formed()
        && nodes[i].offsets_within(p.rest.lvars.len()) by {
        assert(fits_table(nodes[i], p.rest.lvars));
    }
    if lowercase_names(t) {
        assert forall|j: int| 0 <= j < p.rest.lvars.len() implies single_lowercase(
            (#[trigger] p.rest.lvars[j]).name,
        ) by {
            assert(good(p.rest.lvars[j].name));
        }
        lemma_lowercase_table_is_short(p.rest.lvars);
        assert forall|i: int| 0 <= i < nodes.len() implies (#[trigger] nodes[i]).offsets_within(
            26,
        ) by {
            lemma_offsets_within_more(nodes[i], p.rest.lvars.len(), 26);
        }
    }
}

/// How many tokens a rule that began with `t` took.
pub open spec fn used(p: Parsed, t: TokensView) -> int {
    t.tokens.len() - p.rest.tokens.len()
}

/// Whether a token is one that ends an expression: `)` or `;`.
pub open spec fn is_closer(token: TokenView) -> bool {
    token.kind == TokenKind::Reserved && (token.text == ")"@ || token.text == ";"@)
}

/// Whether the streams `t` and `u` read alike for `n` tokens: their tables
/// are the same, their first `n` tokens are the same, and behind these each
/// of them ends or goes on with a token that ends an expression.
pub open spec fn alike(t: TokensView, u: TokensView, n: int) -> bool {
    &&& t.lvars == u.lvars
    &&& 0 <= n <= t.tokens.len()
    &&& n <= u.tokens.len()
    &&& forall|i: int| 0 <= i < n ==> t.tokens[i] == u.tokens[i]
    &&& n < t.tokens.len() ==> is_closer(t.tokens[n])
    &&& n < u.tokens.len() ==> is_closer(u.tokens[n])
}

/// Whether a rule made the same of two streams: the same tree or fault,
/// the same table, and as many tokens taken.
pub open spec fn same_reading(p: Parsed, t: TokensView, q: Parsed, u: TokensView) -> bool {
    &&& p.result == q.result
    &&& p.rest.lvars == q.rest.lvars
    &&& used(p, t) == used(q, u)
}

/// A stream that ends, or goes on with a token that ends an expression,
/// begins with no operator, no sign, no `(` and no `=`.
pub proof fn lemma_closer_begins_nothing(t: TokensView)
    requires
        t.tokens.len() > 0 ==> is_closer(t.tokens[0]),
    ensures
        forall|level: Level| operator_at(level, t) is None,
        !t.starts_with_op("("@),
        !t.starts_with_op("="@),
        !t.starts_with_op("+"@),
        !t.starts_with_op("-"@),
{
    reveal_strlit(")");
    reveal_strlit(";");
    reveal_strlit("(");
    reveal_strlit("=");
    reveal_strlit("+");
    reveal_strlit("-");
    reveal_strlit("*");
    reveal_strlit("/");
    reveal_strlit("<");
    reveal_strlit("<=");
    reveal_strlit(">");
    reveal_strlit(">=");
    reveal_strlit("==");
    reveal_strlit("!=");
    if t.tokens.len() > 0 {
        let text = t.tokens[0].text;
        assert(text.len() == 1 && (text[0] == ')' || text[0] == ';'));
        assert(text != "("@ && text != "="@ && text != "+"@ && text != "-"@ && text != "*"@ && text
            != "/"@ && text != "<"@ && text != "<="@ && text != ">"@ && text != ">="@ && text
            != "=="@ && text != "!="@);
    }
    assert forall|level: Level| operator_at(level, t) is None by {}
}

/// Streams that begin with the same token begin with the same operators.
pub proof fn lemma_same_front(t: TokensView, u: TokensView)
    requires
        t.tokens.len() > 0,
        u.tokens.len() > 0,
        t.tokens[0] == u.tokens[0],
    ensures
        forall|op: Seq<char>| t.starts_with_op(op) == u.starts_with_op(op),
        forall|level: Level| operator_at(level, t) == operator_at(level, u),
{
    assert forall|level: Level| operator_at(level, t) == operator_at(level, u) by {}
}

/// Where two streams read alike for `n` tokens and a rule took `c` of them
/// from each and left the same table, what it left reads alike for the
/// `n - c` tokens that remain.
pub proof fn lemma_alike_rest(
    t: TokensView,
    u: TokensView,
    n: int,
    p: Parsed,
    q: Parsed,
    good: spec_fn(Seq<char>) -> bool,
)
    requires
        alike(t, u, n),
        follows(p.rest, t, good),
        follows(q.rest, u, good),
        p.rest.lvars == q.rest.lvars,
        used(p, t) == used(q, u),
        used(p, t) <= n,
    ensures
        alike(p.rest, q.rest, n - used(p, t)),
{
}

/// `primary` makes the same of streams that read alike as far as it reads.
pub proof fn lemma_primary_alike(t: TokensView, u: TokensView, n: int)
    requires
        alike(t, u, n),
        parse_primary(t).result is Ok,
        used(parse_primary(t), t) <= n,
    ensures
        same_reading(parse_primary(t), t, parse_primary(u), u),
    decreases t.tokens.len(), 0nat,
{
    let good = |name: Seq<char>| true;
    lemma_primary_keeps(t, good);
    lemma_same_front(t, u);
    if t.starts_with_op("("@) {
        let inner = parse_expr(t.advanced());
        let other = parse_expr(u.advanced());
        lemma_assign_keeps(t.advanced(), good);
        lemma_assign_keeps(u.advanced(), good);
        lemma_assign_alike(t.advanced(), u.advanced(), n - 1);
        lemma_alike_rest(t.advanced(), u.advanced(), n - 1, inner, other, good);
        lemma_same_front(inner.rest, other.rest);
    }
}

/// `unary` makes the same of streams that read alike as far as it reads.
pub proof fn lemma_unary_alike(t: TokensView, u: TokensView, n: int)
    requires
        alike(t, u, n),
        parse_unary(t).result is Ok,
        used(parse_unary(t), t) <= n,
    ensures
        same_reading(parse_unary(t), t, parse_unary(u), u),
    decreases t.tokens.len(), 1nat,
{
    let good = |name: Seq<char>| true;
    lemma_unary_keeps(t, good);
    lemma_same_front(t, u);
    if t.starts_with_op("+"@) || t.starts_with_op("-"@) {
        lemma_primary_alike(t.advanced(), u.advanced(), n - 1);
    } else {
        lemma_primary_alike(t, u, n);
    }
}

/// An operand is the same in streams that read alike as far as it reads.
pub proof fn lemma_operand_alike(level: Level, t: TokensView, u: TokensView, n: int)
    requires
        alike(t, u, n),
        parse_operand(level, t).result is Ok,
        used(parse_operand(level, t), t) <= n,
    ensures
        same_reading(parse_operand(level, t), t, parse_operand(level, u), u),
    decreases t.tokens.len(), 2 * level.rank() + 2,
{
    match level {
        Level::Mul => lemma_unary_alike(t, u, n),
        Level::Add => lemma_level_alike(Level::Mul, t, u, n),
        Level::Relational => lemma_level_alike(Level::Add, t, u, n),
        Level::Equality => lemma_level_alike(Level::Relational, t, u, n),
    }
}

/// An expression of a level is the same in streams that read alike as far
/// as it reads.
pub proof fn lemma_level_alike(level: Level, t: TokensView, u: TokensView, n: int)
    requires
        alike(t, u, n),
        parse_level(level, t).result is Ok,
        used(parse_level(level, t), t) <= n,
    ensures
        same_reading(parse_level(level, t), t, parse_level(level, u), u),
    decreases t.tokens.len(), 2 * level.rank() + 3,
{
    let good = |name: Seq<char>| true;
    let first = parse_operand(level, t);
    let other = parse_operand(level, u);
    lemma_operand_keeps(level, t, good);
    lemma_operand_keeps(level, u, good);
    let left = first.result->Ok_0;
    lemma_level_tail_keeps(level, left, first.rest, good);
    lemma_operand_alike(level, t, u, n);
    lemma_alike_rest(t, u, n, first, other, good);
    lemma_level_tail_alike(level, left, first.rest, other.rest, n - used(first, t));
}

/// What follows the first operand is the same in streams that read alike
/// as far as it reads.
pub proof fn lemma_level_tail_alike(level: Level, left: Node, t: TokensView, u: TokensView, n: int)
    requires
        alike(t, u, n),
        parse_level_tail(level, left, t).result is Ok,
        used(parse_level_tail(level, left, t), t) <= n,
    ensures
        same_reading(parse_level_tail(level, left, t), t, parse_level_tail(level, left, u), u),
    decreases t.tokens.len(), 0nat,
{
    let good = |name: Seq<char>| true;
    if n == 0 {
        lemma_closer_begins_nothing(t);
        lemma_closer_begins_nothing(u);
    } else {
        lemma_same_front(t, u);
        if let Some(op) = operator_at(level, t) {
            let next = parse_operand(level, t.advanced());
            let other = parse_operand(level, u.advanced());
            lemma_operand_keeps(level, t.advanced(), good);
            lemma_operand_keeps(level, u.advanced(), good);
            let right = next.result->Ok_0;
            let joined = join(op, left, right);
            lemma_level_tail_keeps(level, joined, next.rest, good);
            lemma_operand_alike(level, t.advanced(), u.advanced(), n - 1);
            lemma_alike_rest(t.advanced(), u.advanced(), n - 1, next, other, good);
            lemma_level_tail_alike(
                level,
                joined,
                next.rest,
                other.rest,
                n - 1 - used(next, t.advanced()),
            );
        }
    }
}

/// `assign` and `expr` make the same of streams that read alike as far as
/// they read.
pub proof fn lemma_assign_alike(t: TokensView, u: TokensView, n: int)
    requires
        alike(t, u, n),
        parse_assign(t).result is Ok,
        used(parse_assign(t), t) <= n,
    ensures
        same_reading(parse_assign(t), t, parse_assign(u), u),
        same_reading(parse_expr(t), t, parse_expr(u), u),
    decreases t.tokens.len(), 10nat,
{
    let good = |name: Seq<char>| true;
    let target = parse_level(Level::Equality, t);
    let other = parse_level(Level::Equality, u);
    lemma_level_keeps(Level::Equality, t, good);
    lemma_level_keeps(Level::Equality, u, good);
    if target.rest.starts_with_op("="@) {
        lemma_follows_advanced(target.rest, good);
        lemma_assign_keeps(target.rest.advanced(), good);
    }
    lemma_level_alike(Level::Equality, t, u, n);
    lemma_alike_rest(t, u, n, target, other, good);
    let m = n - used(target, t);
    if m == 0 {
        lemma_closer_begins_nothing(target.rest);
        lemma_closer_begins_nothing(other.rest);
    } else {
        lemma_same_front(target.rest, other.rest);
        if target.rest.starts_with_op("="@) {
            lemma_follows_advanced(other.rest, good);
            lemma_assign_keeps(other.rest.advanced(), good);
            lemma_assign_alike(target.rest.advanced(), other.rest.advanced(), m - 1);
        }
    }
}

/// A `unary` behind which the stream ends or a token stands that ends an
/// expression is a whole expression.
pub proof fn lemma_lone_unary(t: TokensView)
    requires
        parse_unary(t).result is Ok,
        parse_unary(t).rest.tokens.len() > 0 ==> is_closer(parse_unary(t).rest.tokens[0]),
    ensures
        parse_expr(t) == parse_unary(t),
{
    let p = parse_unary(t);
    lemma_unary_keeps(t, |name: Seq<char>| true);
    lemma_closer_begins_nothing(p.rest);
    assert(parse_level(Level::Mul, t) == p);
    assert(parse_level(Level::Add, t) == p);
    assert(parse_level(Level::Relational, t) == p);
    assert(parse_level(Level::Equality, t) == p);
}

/// An expression in parentheses is a `primary` with the tree of the
/// expression.
///
/// `plain` begins with an expression, behind which a token stands that ends
/// an expression. `wrapped` is the same stream with a `(` before the
/// expression and a `)` behind it. Then the `primary` read from `wrapped`
/// has the tree of the expression, and leaves the same tokens and the same
/// table.
pub proof fn lemma_parenthesised_primary(plain: TokensView, wrapped: TokensView)
    requires
        parse_expr(plain).result is Ok,
        ({
            let n = used(parse_expr(plain), plain);
            &&& n < plain.tokens.len()
            &&& is_closer(plain.tokens[n])
            &&& wrapped.tokens == seq![op_token("("@)] + plain.tokens.take(n) + seq![
                op_token(")"@),
            ] + plain.tokens.skip(n)
        }),
        wrapped.lvars == plain.lvars,
    ensures
        parse_primary(wrapped).result == parse_expr(plain).result,
        parse_primary(wrapped).rest.tokens == parse_expr(plain).rest.tokens,
        parse_primary(wrapped).rest.lvars == parse_expr(plain).rest.lvars,
        used(parse_primary(wrapped), wrapped) == used(parse_expr(plain), plain) + 2,
{
    let good = |name: Seq<char>| true;
    let p = parse_expr(plain);
    let n = used(p, plain);
    let inside = wrapped.advanced();
    let inner = parse_expr(inside);
    lemma_assign_keeps(plain, good);
    lemma_assign_keeps(inside, good);
    assert(wrapped.starts_with_op("("@));
    assert forall|i: int| 0 <= i < n implies plain.tokens[i] == inside.tokens[i] by {
        assert(inside.tokens[i] == wrapped.tokens[i + 1]);
    }
    assert(inside.tokens[n] == op_token(")"@));
    assert(alike(plain, inside, n));
    lemma_assign_alike(plain, inside, n);
    assert(inner.rest.tokens[0] == inside.tokens[n]);
    assert(inner.rest.starts_with_op(")"@));
    assert(parse_primary(wrapped).rest.tokens =~= p.rest.tokens);
}

/// Parentheses around an expression change nothing.
///
/// `plain` begins with an expression, behind which a token stands that ends
/// an expression. `wrapped` is the same stream with a `(` before the
/// expression and a `)` behind it. Then the expression read from `wrapped`
/// has the same tree, and leaves the same tokens and the same table.
pub proof fn lemma_parentheses_change_nothing(plain: TokensView, wrapped: TokensView)
    requires
        parse_expr(plain).result is Ok,
        ({
            let n = used(parse_expr(plain), plain);
            &&& n < plain.tokens.len()
            &&& is_closer(plain.tokens[n])
            &&& wrapped.tokens == seq![op_token("("@)] + plain.tokens.take(n) + seq![
                op_token(")"@),
            ] + plain.tokens.skip(n)
        }),
        wrapped.lvars == plain.lvars,
    ensures
        parse_expr(wrapped).result == parse_expr(plain).result,
        parse_expr(wrapped).rest.tokens == parse_expr(plain).rest.tokens,
        parse_expr(wrapped).rest.lvars == parse_expr(plain).rest.lvars,
        used(parse_expr(wrapped), wrapped) == used(parse_expr(plain), plain) + 2,
{
    let n = used(parse_expr(plain), plain);
    lemma_assign_keeps(plain, |name: Seq<char>| true);
    lemma_parenthesised_primary(plain, wrapped);
    assert(parse_primary(wrapped).rest.tokens[0] == plain.tokens[n]);
    reveal_strlit("(");
    reveal_strlit("+");
    reveal_strlit("-");
    assert(parse_unary(wrapped) == parse_primary(wrapped));
    lemma_lone_unary(wrapped);
}

/// A minus sign before an expression in parentheses negates it.
///
/// `plain` begins with an expression, behind which a token stands that ends
/// an expression. `wrapped` is the same stream with `-(` before the
/// expression and a `)` behind it. Then the expression read from `wrapped`
/// has the negated tree, and leaves the same tokens and the same table.
pub proof fn lemma_minus_negates(plain: TokensView, wrapped: TokensView)
    requires
        parse_expr(plain).result is Ok,
        ({
            let n = used(parse_expr(plain), plain);
            &&& n < plain.tokens.len()
            &&& is_closer(plain.tokens[n])
            &&& wrapped.tokens == seq![op_token("-"@), op_token("("@)] + plain.tokens.take(n)
                + seq![op_token(")"@)] + plain.tokens.skip(n)
        }),
        wrapped.lvars == plain.lvars,
    ensures
        parse_expr(wrapped).result == Ok::<Node, ParseFault>(
            parse_expr(plain).result->Ok_0.negated(),
        ),
        parse_expr(wrapped).rest.tokens == parse_expr(plain).rest.tokens,
        parse_expr(wrapped).rest.lvars == parse_expr(plain).rest.lvars,
        used(parse_expr(wrapped), wrapped) == used(parse_expr(plain), plain) + 3,
{
    let n = used(parse_expr(plain), plain);
    let inside = wrapped.advanced();
    lemma_assign_keeps(plain, |name: Seq<char>| true);
    assert(inside.tokens =~= seq![op_token("("@)] + plain.tokens.take(n) + seq![op_token(")"@)]
        + plain.tokens.skip(n));
    lemma_parenthesised_primary(plain, inside);
    assert(parse_primary(inside).rest.tokens[0] == plain.tokens[n]);
    reveal_strlit("+");
    reveal_strlit("-");
    assert(wrapped.starts_with_op("-"@));
    assert(!wrapped.starts_with_op("+"@));
    lemma_lone_unary(wrapped);
}

} // verus!
