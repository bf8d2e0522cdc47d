//! Syntax analysis: from the token queue to one tree per statement.

use vstd::prelude::*;

use crate::grammar::{
    lemma_level_advances, lemma_operand_advances, lemma_stmt_advances, outcome, parse_assign,
    parse_expr, parse_level, parse_level_tail, parse_primary, parse_program, parse_stmt,
    parse_unary, program_outcome, read_then, Level,
};
use crate::result::{ParseError, ParseFault};
use crate::text::same_text;
use crate::tokenize::{Token, TokenKind, Tokens};

verus! {

/// What a node of a statement's tree stands for.
#[derive(Debug, PartialEq, Eq)]
pub enum NodeKind {
    /// `+`
    Add,
    /// `-`
    Sub,
    /// `*`
    Mul,
    /// `/`
    Div,
    /// `<`
    Lt,
    /// `<=`
    Le,
    /// `==`
    Eq,
    /// `!=`
    Ne,
    /// `=`
    Assign,
    /// A local variable.
    LVar,
    /// An integer.
    Num,
    /// Nothing.
    Nil,
}

/// A node of a statement's tree. It owns its operands.
#[derive(Debug, PartialEq, Eq)]
pub struct Node {
    pub kind: NodeKind,
    /// The value of an integer; 0 for the other kinds.
    pub val: i64,
    /// The offset of a local variable; 0 for the other kinds.
    pub offset: i64,
    /// The left operand; of an assignment, the target.
    pub lhs: Option<Box<Node>>,
    /// The right operand; of an assignment, the value.
    pub rhs: Option<Box<Node>>,
}

impl Node {
    /// The node for the integer `val`.
    pub open spec fn num(val: i64) -> Node {
        Node { kind: NodeKind::Num, val, offset: 0, lhs: None, rhs: None }
    }

    /// The node for the local variable at `offset`.
    pub open spec fn lvar(offset: i64) -> Node {
        Node { kind: NodeKind::LVar, val: 0, offset, lhs: None, rhs: None }
    }

    /// The node of kind `kind` with the operands `lhs` and `rhs`.
    pub open spec fn binary(kind: NodeKind, lhs: Node, rhs: Node) -> Node {
        Node { kind, val: 0, offset: 0, lhs: Some(Box::new(lhs)), rhs: Some(Box::new(rhs)) }
    }

    /// The tree of `-e`, where `self` is the tree of `e`: `0 - e`.
    pub open spec fn negated(self) -> Node {
        Node::binary(NodeKind::Sub, Node::num(0), self)
    }

    /// Whether the tree has the shape that the parser gives its trees: an
    /// integer and a local variable have no operands, any other node has
    /// both, and no node is empty.
    pub open spec fn well_formed(self) -> bool
        decreases self,
    {
        match self.kind {
            NodeKind::Nil => false,
            NodeKind::Num | NodeKind::LVar => self.lhs is None && self.rhs is None,
            _ => self.lhs matches Some(left) && self.rhs matches Some(right) && left.well_formed()
                && right.well_formed(),
        }
    }

    /// Whether every local variable of the tree lies at the offset of one
    /// of the first `count` variables: at `8 * k` for a `k` from 1 to
    /// `count`.
    pub open spec fn offsets_within(self, count: nat) -> bool
        decreases self,
    {
        &&& self.kind == NodeKind::LVar ==> 8 <= self.offset <= 8 * count && self.offset % 8 == 0
        &&& self.lhs matches Some(left) ==> left.offsets_within(count)
        &&& self.rhs matches Some(right) ==> right.offsets_within(count)
    }

    /// The empty node: kind `Nil`, no operands.
    pub fn default() -> (r: Self)
        ensures
            r == (Node { kind: NodeKind::Nil, val: 0, offset: 0, lhs: None, rhs: None }),
    {
        Self { kind: NodeKind::Nil, val: 0, offset: 0, lhs: None, rhs: None }
    }

    /// The node for the integer `val`.
    pub fn new_num(val: i64) -> (r: Self)
        ensures
            r == Node::num(val),
    {
        Self { kind: NodeKind::Num, val, offset: 0, lhs: None, rhs: None }
    }

    /// The node of kind `kind` with the operands `lhs` and `rhs`.
    pub fn new_op(kind: NodeKind, lhs: Node, rhs: Node) -> (r: Self)
        ensures
            r == Node::binary(kind, lhs, rhs),
    {
        Self { kind, val: 0, offset: 0, lhs: Some(Box::new(lhs)), rhs: Some(Box::new(rhs)) }
    }
}

/// A local variable: its name, the length of the name in bytes, and its
/// distance in bytes below the frame's base pointer.
#[derive(Debug, PartialEq, Eq)]
pub struct LVar {
    pub name: String,
    pub len: usize,
    pub offset: i64,
}

/// An [`LVar`] with its name as a character sequence.
pub struct LVarView {
    pub name: Seq<char>,
    pub len: usize,
    pub offset: i64,
}

impl View for LVar {
    type V = LVarView;

    open spec fn view(&self) -> LVarView {
        LVarView { name: self.name@, len: self.len, offset: self.offset }
    }
}

/// The table of local variables, in the order in which they were first met.
#[derive(Debug, PartialEq, Eq)]
pub struct LVars {
    pub vec: Vec<LVar>,
}

impl View for LVars {
    type V = Seq<LVarView>;

    open spec fn view(&self) -> Seq<LVarView> {
        self.vec@.map_values(|v: LVar| v@)
    }
}

/// The index of the first variable of `vars` that is called `name`, or the
/// length of `vars` where there is none.
pub open spec fn index_of_name(vars: Seq<LVarView>, name: Seq<char>) -> nat
    decreases vars.len(),
{
    if vars.len() == 0 || vars[0].name == name {
        0
    } else {
        1 + index_of_name(vars.skip(1), name)
    }
}

impl LVars {
    /// An empty table.
    pub fn new() -> (r: Self)
        ensures
            r@ == Seq::<LVarView>::empty(),
    {
        let r = Self { vec: Vec::new() };
        assert(r@ =~= Seq::<LVarView>::empty());
        r
    }

    /// The first variable of the table that is called `name`.
    pub fn find(&self, name: &str) -> (r: Option<&LVar>)
        ensures
            ({
                let i = index_of_name(self@, name@);
                match r {
                    Some(v) => i < self@.len() && *v == self.vec[i as int],
                    None => i == self@.len(),
                }
            }),
    {
        let mut i: usize = 0;
        assert(self@.skip(0) =~= self@);
        while i < self.vec.len()
            invariant
                i <= self.vec.len(),
                index_of_name(self@, name@) == i + index_of_name(self@.skip(i as int), name@),
            decreases self.vec.len() - i,
        {
            if same_text(self.vec[i].name.as_str(), name) {
                assert(self@.skip(i as int)[0] == self@[i as int]);
                return Some(&self.vec[i]);
            }
            proof {
                assert(self@.skip(i as int)[0] == self@[i as int]);
                assert(self@.skip(i as int).skip(1) =~= self@.skip(i + 1));
            }
            i = i + 1;
        }
        assert(self@.skip(i as int).len() == 0);
        None
    }
}

/// `program = stmt*`
///
/// Reads a whole program: statements until no token is left.
///
/// On success the result holds one tree per statement, in order, and the
/// queue is empty. The first fault ends the reading and is returned.
pub fn program(tokens: &mut Tokens) -> (r: Result<Vec<Node>, ParseError>)
    ensures
        program_outcome(r, final(tokens)@) == parse_program(old(tokens)@),
{
    let mut code: Vec<Node> = Vec::with_capacity(1);
    assert(code@ + Seq::<Node>::empty() =~= code@);
    while tokens.len() > 0
        invariant
            parse_program(old(tokens)@) == read_then(code@, parse_program(tokens@)),
        decreases tokens@.tokens.len(),
    {
        let ghost t = tokens@;
        let ghost before = code@;
        proof {
            lemma_stmt_advances(t);
        }
        let node = stmt(tokens)?;
        code.push(node);
        proof {
            let more = parse_program(tokens@);
            if let Ok(nodes) = more.result {
                assert(before + (seq![node] + nodes) =~= code@ + nodes);
            }
        }
    }
    assert(code@ + Seq::<Node>::empty() =~= code@);
    Ok(code)
}

/// `stmt = expr ";"`
///
/// Reads one statement: an expression and the `;` that ends it.
pub fn stmt(tokens: &mut Tokens) -> (r: Result<Node, ParseError>)
    ensures
        outcome(r, final(tokens)@) == parse_stmt(old(tokens)@),
{
    let node = expr(tokens)?;
    if !tokens.consume_op(";") {
        return Err(ParseError::MissingSemicolon);
    }
    Ok(node)
}

/// `expr = assign`
///
/// Reads one expression.
pub fn expr(tokens: &mut Tokens) -> (r: Result<Node, ParseError>)
    ensures
        outcome(r, final(tokens)@) == parse_expr(old(tokens)@),
    decreases old(tokens)@.tokens.len(), 11nat,
{
    assign(tokens)
}

/// `assign = equality ("=" assign)?`
fn assign(tokens: &mut Tokens) -> (r: Result<Node, ParseError>)
    ensures
        outcome(r, final(tokens)@) == parse_assign(old(tokens)@),
    decreases old(tokens)@.tokens.len(), 10nat,
{
    proof {
        lemma_level_advances(Level::Equality, tokens@);
    }
    let mut node = equality(tokens)?;
    if tokens.consume_op("=") {
        let value = assign(tokens)?;
        node = Node::new_op(NodeKind::Assign, node, value);
    }
    Ok(node)
}

/// `equality = relational (("==" | "!=") relational)*`
fn equality(tokens: &mut Tokens) -> (r: Result<Node, ParseError>)
    ensures
        outcome(r, final(tokens)@) == parse_level(Level::Equality, old(tokens)@),
    decreases old(tokens)@.tokens.len(), 9nat,
{
    proof {
        lemma_operand_advances(Level::Equality, tokens@);
    }
    let mut node = relational(tokens)?;
    loop
        invariant
            tokens@.tokens.len() <= old(tokens)@.tokens.len(),
            parse_level(Level::Equality, old(tokens)@) == parse_level_tail(
                Level::Equality,
                node,
                tokens@,
            ),
        decreases tokens@.tokens.len(),
    {
        proof {
            lemma_operand_advances(Level::Equality, tokens@.advanced());
        }
        if tokens.consume_op("==") {
            let right = relational(tokens)?;
            node = Node::new_op(NodeKind::Eq, node, right);
        } else if tokens.consume_op("!=") {
            let right = relational(tokens)?;
            node = Node::new_op(NodeKind::Ne, node, right);
        } else {
            return Ok(node);
        }
    }
}

/// `relational = add (("<" | "<=" | ">" | ">=") add)*`
///
/// `a > b` is read as `b < a`, and `a >= b` as `b <= a`.
fn relational(tokens: &mut Tokens) -> (r: Result<Node, ParseError>)
    ensures
        outcome(r, final(tokens)@) == parse_level(Level::Relational, old(tokens)@),
    decreases old(tokens)@.tokens.len(), 7nat,
{
    proof {
        lemma_operand_advances(Level::Relational, tokens@);
    }
    let mut node = self::add(tokens)?;
    loop
        invariant
            tokens@.tokens.len() <= old(tokens)@.tokens.len(),
            parse_level(Level::Relational, old(tokens)@) == parse_level_tail(
                Level::Relational,
                node,
                tokens@,
            ),
        decreases tokens@.tokens.len(),
    {
        proof {
            lemma_operand_advances(Level::Relational, tokens@.advanced());
        }
        if tokens.consume_op("<") {
            let right = self::add(tokens)?;
            node = Node::new_op(NodeKind::Lt, node, right);
        } else if tokens.consume_op("<=") {
            let right = self::add(tokens)?;
            node = Node::new_op(NodeKind::Le, node, right);
        } else if tokens.consume_op(">") {
            let left = self::add(tokens)?;
            node = Node::new_op(NodeKind::Lt, left, node);
        } else if tokens.consume_op(">=") {
            let left = self::add(tokens)?;
            node = Node::new_op(NodeKind::Le, left, node);
        } else {
            return Ok(node);
        }
    }
}

/// `add = mul (("+" | "-") mul)*`
fn add(tokens: &mut Tokens) -> (r: Result<Node, ParseError>)
    ensures
        outcome(r, final(tokens)@) == parse_level(Level::Add, old(tokens)@),
    decreases old(tokens)@.tokens.len(), 5nat,
{
    proof {
        lemma_operand_advances(Level::Add, tokens@);
    }
    let mut node = self::mul(tokens)?;
    loop
        invariant
            tokens@.tokens.len() <= old(tokens)@.tokens.len(),
            parse_level(Level::Add, old(tokens)@) == parse_level_tail(Level::Add, node, tokens@),
        decreases tokens@.tokens.len(),
    {
        proof {
            lemma_operand_advances(Level::Add, tokens@.advanced());
        }
        if tokens.consume_op("+") {
            let right = self::mul(tokens)?;
            node = Node::new_op(NodeKind::Add, node, right);
        } else if tokens.consume_op("-") {
            let right = self::mul(tokens)?;
            node = Node::new_op(NodeKind::Sub, node, right);
        } else {
            return Ok(node);
        }
    }
}

/// `mul = unary (("*" | "/") unary)*`
fn mul(tokens: &mut Tokens) -> (r: Result<Node, ParseError>)
    ensures
        outcome(r, final(tokens)@) == parse_level(Level::Mul, old(tokens)@),
    decreases old(tokens)@.tokens.len(), 3nat,
{
    proof {
        lemma_operand_advances(Level::Mul, tokens@);
    }
    let mut node = unary(tokens)?;
    loop
        invariant
            tokens@.tokens.len() <= old(tokens)@.tokens.len(),
            parse_level(Level::Mul, old(tokens)@) == parse_level_tail(Level::Mul, node, tokens@),
        decreases tokens@.tokens.len(),
    {
        proof {
            lemma_operand_advances(Level::Mul, tokens@.advanced());
        }
        if tokens.consume_op("*") {
            let right = unary(tokens)?;
            node = Node::new_op(NodeKind::Mul, node, right);
        } else if tokens.consume_op("/") {
            let right = unary(tokens)?;
            node = Node::new_op(NodeKind::Div, node, right);
        } else {
            return Ok(node);
        }
    }
}

/// `unary = ("+" | "-")? primary`
///
/// `+x` is `x`, and `-x` is `0 - x`.
fn unary(tokens: &mut Tokens) -> (r: Result<Node, ParseError>)
    ensures
        outcome(r, final(tokens)@) == parse_unary(old(tokens)@),
    decreases old(tokens)@.tokens.len(), 1nat,
{
    if tokens.consume_op("+") {
        primary(tokens)
    } else if tokens.consume_op("-") {
        let operand = primary(tokens)?;
        Ok(Node::new_op(NodeKind::Sub, Node::new_num(0), operand))
    } else {
        primary(tokens)
    }
}

/// `primary = "(" expr ")" | ident | num`
///
/// An identifier that the table of local variables holds gets the offset
/// recorded there. Another joins the table, at the next offset.
fn primary(tokens: &mut Tokens) -> (r: Result<Node, ParseError>)
    ensures
        outcome(r, final(tokens)@) == parse_primary(old(tokens)@),
    decreases old(tokens)@.tokens.len(), 0nat,
{
    if tokens.consume_op("(") {
        let node = expr(tokens)?;
        if !tokens.consume_op(")") {
            return Err(ParseError::MissingCloseParen);
        }
        return Ok(node);
    }
    let ghost t = tokens@;
    match tokens.front() {
        Some(tk) => match tk.kind {
            TokenKind::Ident => {
                if let Some(lvar) = tokens.lvars.find(tk.str.as_str()) {
                    let node = Node {
                        kind: NodeKind::LVar,
                        offset: lvar.offset,
                        ..Node::default()
                    };
                    tokens.pop_front();
                    Ok(node)
                } else {
                    let count = tokens.lvars.vec.len();
                    if count as u64 > 0x0fff_ffff_ffff_fffe {
                        return Err(ParseError::TooManyVariables);
                    }
                    let lvar = LVar {
                        name: tk.str.clone(),
                        offset: count as i64 * 8 + 8,
                        len: tk.len,
                    };
                    let node = Node {
                        kind: NodeKind::LVar,
                        offset: lvar.offset,
                        ..Node::default()
                    };
                    tokens.lvars.vec.push(lvar);
                    tokens.pop_front();
                    assert(tokens@.lvars =~= t.lvars.push(lvar@));
                    Ok(node)
                }
            },
            TokenKind::Num => {
                let val = expect_number(&tokens.pop_front())?;
                Ok(Node::new_num(val))
            },
            TokenKind::Reserved => Err(ParseError::UnexpectedToken(tk.str.clone())),
        },
        None => Err(ParseError::UnexpectedEnd),
    }
}

/// The value of the integer token `tk`.
fn expect_number(tk: &Option<Token>) -> (r: Result<i64, ParseError>)
    ensures
        match *tk {
            Some(token) => match token.kind {
                TokenKind::Num => r == Ok::<i64, ParseError>(token.val),
                _ => r matches Err(e) && e@ == ParseFault::UnexpectedToken(token.str@),
            },
            None => r matches Err(e) && e@ == ParseFault::UnexpectedEnd,
        },
{
    match tk {
        Some(token) => match token.kind {
            TokenKind::Num => Ok(token.val),
            _ => Err(ParseError::UnexpectedToken(token.str.clone())),
        },
        None => Err(ParseError::UnexpectedEnd),
    }
}

} // verus!
