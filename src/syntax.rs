//! The full statement grammar: an indentation-aware recursive-descent
//! parser over optimized tokens.
use vstd::prelude::*;
use crate::tokens::{Token, LexError, tokenize, optimize, optimized, lex_script};

verus! {

/// A binary arithmetic operator.
#[derive(Debug, Clone, Copy, PartialEq, Eq, Structural)]
pub enum Operation {
    Minus,
    Plus,
    Multiply,
}

/// A node of the statement tree. Names are ranges of character positions
/// into the script.
#[derive(Debug)]
pub enum Ast {
    ConstantNum(i32),
    Variable { name: (usize, usize) },
    Assign { var_name: (usize, usize), rhs: Box<Ast> },
    Method { method_name: (usize, usize), args: Vec<Ast> },
    Expression { left: (usize, usize), operation: Operation, right: Box<Ast> },
    Loop { statements: Vec<Ast> },
    For { start: i32, end: i32, var_name: (usize, usize), statements: Vec<Ast> },
    Block { statements: Vec<Ast> },
}

/// Why a token sequence does not form a program.
#[derive(Debug, Clone, Copy, PartialEq, Eq, Structural)]
pub enum ParseError {
    /// An indentation marker that is neither the current depth nor one less.
    UnexpectedIdent { found: u8, expected: u8 },
    /// Blocks nested deeper than an indentation marker can record.
    TooDeep,
    /// A statement that is not followed by its terminator.
    ExpectedEndStatement,
    /// An `if`, which the grammar recognizes but does not execute.
    UnsupportedIf,
    /// A `for` header other than `for name in start, end:`.
    MalformedFor,
    /// An operator with nothing after it.
    UnterminatedExpression,
    /// Two tokens that start no statement.
    UnexpectedTokens,
    /// Call arguments with no comma or parenthesis after them.
    MissingDelimiter,
    /// A nested call whose name is not a single word.
    ExpectedMethodName,
    /// A single-token argument that is neither a number nor a word.
    UnexpectedArgument,
    /// Tokens left over after the outermost block.
    TrailingTokens,
}

/// Why a script could not be compiled.
#[derive(Debug, Clone, Copy, PartialEq, Eq, Structural)]
pub enum Error {
    Lex(LexError),
    Parse(ParseError),
}

pub open spec fn operation_of(t: Token) -> Option<Operation> {
    match t {
        Token::Minus => Some(Operation::Minus),
        Token::Plus => Some(Operation::Plus),
        Token::Multiply => Some(Operation::Multiply),
        _ => None,
    }
}

impl Operation {
    pub fn from_token(token: &Token) -> (r: Option<Self>)
        ensures
            r == operation_of(*token),
    {
        match token {
            Token::Minus => Some(Operation::Minus),
            Token::Plus => Some(Operation::Plus),
            Token::Multiply => Some(Operation::Multiply),
            _ => None,
        }
    }
}

/// The token at `i`, if `i` lies in `..end`.
pub open spec fn token_at(t: Seq<Token>, i: int, end: int) -> Option<Token> {
    if 0 <= i < end { Some(t[i]) } else { None }
}

pub open spec fn is_arg_delim(t: Token) -> bool {
    t == Token::BananaClose || t == Token::BananaOpen || t == Token::Comma
}

/// A statement tree as a mathematical value.
pub enum Node {
    Num(i32),
    Var((usize, usize)),
    Assign((usize, usize), Box<Node>),
    Call((usize, usize), Seq<Node>),
    Expr((usize, usize), Operation, Box<Node>),
    Loop(Seq<Node>),
    For(i32, i32, (usize, usize), Seq<Node>),
    Block(Seq<Node>),
}

impl Ast {
    pub open spec fn node(self) -> Node
        decreases self,
    {
        match self {
            Ast::ConstantNum(n) => Node::Num(n),
            Ast::Variable { name } => Node::Var(name),
            Ast::Assign { var_name, rhs } => Node::Assign(var_name, Box::new((*rhs).node())),
            Ast::Method { method_name, args } => Node::Call(method_name, nodes_of(args@)),
            Ast::Expression { left, operation, right } => Node::Expr(left, operation, Box::new((*right).node())),
            Ast::Loop { statements } => Node::Loop(nodes_of(statements@)),
            Ast::For { start, end, var_name, statements } => Node::For(start, end, var_name, nodes_of(statements@)),
            Ast::Block { statements } => Node::Block(nodes_of(statements@)),
        }
    }
}

/// The trees of a sequence of nodes.
pub open spec fn nodes_of(s: Seq<Ast>) -> Seq<Node>
    decreases s,
{
    if s.len() == 0 {
        seq![]
    } else {
        nodes_of(s.drop_last()).push(s.last().node())
    }
}

/// The first argument delimiter in `p..end`, or `end`.
pub open spec fn arg_delim(t: Seq<Token>, p: int, end: int) -> int
    decreases end - p,
{
    if p < end && !is_arg_delim(t[p]) {
        arg_delim(t, p + 1, end)
    } else {
        p
    }
}

/// Call arguments from `p`, after the opening parenthesis, up to and
/// including the closing one: the argument trees (after those in `acc`)
/// and the position after them.
pub open spec fn parse_args_spec(t: Seq<Token>, p: int, end: int, acc: Seq<Node>) -> Result<(Seq<Node>, int), ParseError>
    decreases end - p, 0nat,
{
    if p >= end {
        Ok((acc, p))
    } else {
        let k = arg_delim(t, p, end);
        if k >= end || k < p {
            Err(ParseError::MissingDelimiter)
        } else if t[k] == Token::BananaOpen {
            if k != p + 1 {
                Err(ParseError::ExpectedMethodName)
            } else {
                match t[p] {
                    Token::Word(a, b) => match parse_args_spec(t, p + 2, end, seq![]) {
                        Ok((ns, q)) => if p < q < end && t[q] == Token::Comma {
                            parse_args_spec(t, q + 1, end, acc.push(Node::Call((a, b), ns)))
                        } else if p < q < end && t[q] == Token::BananaClose {
                            Ok((acc.push(Node::Call((a, b), ns)), q + 1))
                        } else {
                            Err(ParseError::UnexpectedTokens)
                        },
                        Err(e) => Err(e),
                    },
                    _ => Err(ParseError::ExpectedMethodName),
                }
            }
        } else if k == p {
            if t[k] == Token::BananaClose {
                Ok((acc, p + 1))
            } else {
                Err(ParseError::UnexpectedArgument)
            }
        } else {
            let arg = if k == p + 1 {
                match t[p] {
                    Token::Number(n) => Ok(Node::Num(n)),
                    Token::Word(a, b) => Ok(Node::Var((a, b))),
                    _ => Err(ParseError::UnexpectedArgument),
                }
            } else {
                match parse_block_spec(t, p, k, 255, true, seq![]) {
                    Ok((ns, _)) => Ok(Node::Block(ns)),
                    Err(e) => Err(e),
                }
            };
            match arg {
                Err(e) => Err(e),
                Ok(nd) => if t[k] == Token::BananaClose {
                    Ok((acc.push(nd), k + 1))
                } else {
                    parse_args_spec(t, k + 1, end, acc.push(nd))
                },
            }
        }
    }
}

/// After the statement at `p` of a block whose trees so far are `acc`:
/// require a terminator at `q` and go on after it.
pub open spec fn after_terminator(t: Seq<Token>, p: int, q: int, end: int, ident: u8, nested: bool, acc: Seq<Node>) -> Result<(Seq<Node>, int), ParseError>
    decreases end - p, 0nat,
{
    if p < q < end && t[q] == Token::EndStatement {
        parse_block_spec(t, q + 1, end, ident, nested, acc)
    } else {
        Err(ParseError::ExpectedEndStatement)
    }
}

/// The statements of a block from `p` at depth `ident` (after those in
/// `acc`), and the position where the block ends. In a nested
/// single-expression context (`nested`) it stops after the first call or a
/// lone number.
pub open spec fn parse_block_spec(t: Seq<Token>, p: int, end: int, ident: u8, nested: bool, acc: Seq<Node>) -> Result<(Seq<Node>, int), ParseError>
    decreases end - p, 1nat,
{
    if p >= end || p < 0 {
        Ok((acc, p))
    } else {
        let second = token_at(t, p + 1, end);
        match t[p] {
            Token::Ident(n) => if n == ident {
                parse_block_spec(t, p + 1, end, ident, nested, acc)
            } else if n + 1 == ident {
                Ok((acc, p))
            } else {
                Err(ParseError::UnexpectedIdent { found: n, expected: ident })
            },
            Token::Word(a, b) => if second == Some(Token::BananaOpen) {
                match parse_args_spec(t, p + 2, end, seq![]) {
                    Err(e) => Err(e),
                    Ok((args, q)) => if !(p < q <= end) {
                        Err(ParseError::UnexpectedTokens)
                    } else if nested {
                        Ok((acc.push(Node::Call((a, b), args)), q))
                    } else {
                        after_terminator(t, p, q, end, ident, nested, acc.push(Node::Call((a, b), args)))
                    },
                }
            } else if second == Some(Token::Assign) {
                match parse_block_spec(t, p + 2, end, 255, true, seq![]) {
                    Err(e) => Err(e),
                    Ok((ns, q)) => if !(p < q <= end) {
                        Err(ParseError::UnexpectedTokens)
                    } else {
                        let rhs = if ns.len() == 1 { ns[0] } else { Node::Block(ns) };
                        after_terminator(t, p, q, end, ident, nested, acc.push(Node::Assign((a, b), Box::new(rhs))))
                    },
                }
            } else if second is Some && operation_of(second->0) is Some {
                let op = operation_of(second->0)->0;
                let r = p + 2;
                if end - r == 1 {
                    match t[r] {
                        Token::Number(n) => parse_block_spec(t, r + 1, end, ident, nested,
                            acc.push(Node::Expr((a, b), op, Box::new(Node::Num(n))))),
                        Token::Word(x, y) => parse_block_spec(t, r + 1, end, ident, nested,
                            acc.push(Node::Expr((a, b), op, Box::new(Node::Var((x, y)))))),
                        _ => Err(ParseError::UnterminatedExpression),
                    }
                } else if end - r > 1 {
                    match parse_block_spec(t, r, end, 255, true, seq![]) {
                        Err(e) => Err(e),
                        Ok((ns, q)) => if !(p < q <= end) {
                            Err(ParseError::UnexpectedTokens)
                        } else {
                            parse_block_spec(t, q, end, ident, nested,
                                acc.push(Node::Expr((a, b), op, Box::new(Node::Block(ns)))))
                        },
                    }
                } else {
                    Err(ParseError::UnterminatedExpression)
                }
            } else {
                Err(ParseError::UnexpectedTokens)
            },
            Token::Number(n) => if nested && second == Some(Token::EndStatement) && acc.len() == 0 {
                Ok((acc.push(Node::Num(n)), p + 1))
            } else {
                Err(ParseError::UnexpectedTokens)
            },
            Token::Loop => if second == Some(Token::Colon) {
                let r = p + 2;
                if !(r < end && t[r] == Token::EndStatement) {
                    Err(ParseError::ExpectedEndStatement)
                } else if ident == 255 {
                    Err(ParseError::TooDeep)
                } else {
                    match parse_block_spec(t, r + 1, end, (ident + 1) as u8, false, seq![]) {
                        Err(e) => Err(e),
                        Ok((ns, q)) => if !(p < q <= end) {
                            Err(ParseError::UnexpectedTokens)
                        } else {
                            parse_block_spec(t, q, end, ident, nested, acc.push(Node::Loop(ns)))
                        },
                    }
                }
            } else {
                Err(ParseError::UnexpectedTokens)
            },
            Token::If => Err(ParseError::UnsupportedIf),
            Token::For => match second {
                Some(Token::Word(a, b)) => {
                    let r = p + 3;
                    if !(p + 2 < end && t[p + 2] == Token::In) || end - r < 5 {
                        Err(ParseError::MalformedFor)
                    } else {
                        match (t[r], t[r + 1], t[r + 2], t[r + 3], t[r + 4]) {
                            (Token::Number(from), Token::Comma, Token::Number(to), Token::Colon, Token::EndStatement) =>
                                if ident == 255 {
                                    Err(ParseError::TooDeep)
                                } else {
                                    match parse_block_spec(t, r + 5, end, (ident + 1) as u8, false, seq![]) {
                                        Err(e) => Err(e),
                                        Ok((ns, q)) => if !(p < q <= end) {
                                            Err(ParseError::UnexpectedTokens)
                                        } else {
                                            parse_block_spec(t, q, end, ident, nested,
                                                acc.push(Node::For(from, to, (a, b), ns)))
                                        },
                                    }
                                },
                            _ => Err(ParseError::MalformedFor),
                        }
                    }
                },
                _ => Err(ParseError::MalformedFor),
            },
            _ => Err(ParseError::UnexpectedTokens),
        }
    }
}

/// A whole token sequence as one block.
pub open spec fn program_of(t: Seq<Token>) -> Result<Node, ParseError> {
    match parse_block_spec(t, 0, t.len() as int, 0, false, seq![]) {
        Ok((ns, q)) => if q == t.len() { Ok(Node::Block(ns)) } else { Err(ParseError::TrailingTokens) },
        Err(e) => Err(e),
    }
}

pub open spec fn tree_result(r: Result<Ast, ParseError>) -> Result<Node, ParseError> {
    match r {
        Ok(a) => Ok(a.node()),
        Err(e) => Err(e),
    }
}

pub open spec fn nodes_result(r: Result<(Vec<Ast>, usize), ParseError>) -> Result<(Seq<Node>, int), ParseError> {
    match r {
        Ok((v, q)) => Ok((nodes_of(v@), q as int)),
        Err(e) => Err(e),
    }
}

/// What compiling a script gives: its lexical error, or its optimized
/// tokens parsed as one block.
pub open spec fn compiled(s: Seq<char>) -> Result<Node, Error> {
    match lex_script(s) {
        Err(e) => Err(Error::Lex(e)),
        Ok(t) => match program_of(optimized(t)) {
            Ok(n) => Ok(n),
            Err(e) => Err(Error::Parse(e)),
        },
    }
}

pub open spec fn compile_result(r: Result<Ast, Error>) -> Result<Node, Error> {
    match r {
        Ok(a) => Ok(a.node()),
        Err(e) => Err(e),
    }
}

proof fn lemma_nodes_push(s: Seq<Ast>, x: Ast)
    ensures
        nodes_of(s.push(x)) == nodes_of(s).push(x.node()),
{
    assert(s.push(x).drop_last() =~= s);
}

proof fn lemma_nodes_len(s: Seq<Ast>)
    ensures
        nodes_of(s).len() == s.len(),
    decreases s.len(),
{
    if s.len() > 0 {
        lemma_nodes_len(s.drop_last());
    }
}

proof fn lemma_nodes_one(s: Seq<Ast>)
    requires
        s.len() == 1,
    ensures
        nodes_of(s) == seq![s[0].node()],
{
    assert(s.drop_last() =~= seq![]);
    assert(nodes_of(s.drop_last()) =~= seq![]);
    assert(seq![].push(s[0].node()) =~= seq![s[0].node()]);
}

fn find_arg_delim(tokens: &Vec<Token>, pos: usize, end: usize) -> (r: Option<usize>)
    requires
        pos <= end <= tokens@.len(),
    ensures
        r is Some ==> pos <= r->0 < end && r->0 == arg_delim(tokens@, pos as int, end as int),
        r is None ==> arg_delim(tokens@, pos as int, end as int) == end,
{
    let mut k = pos;
    while k < end
        invariant
            pos <= k <= end <= tokens@.len(),
            arg_delim(tokens@, pos as int, end as int) == arg_delim(tokens@, k as int, end as int),
        decreases end - k,
    {
        let t = tokens[k];
        if t == Token::BananaClose || t == Token::BananaOpen || t == Token::Comma {
            return Some(k);
        }
        k = k + 1;
    }
    None
}

/// Parses call arguments from `pos`, just after the opening parenthesis,
/// up to and including the closing one. Returns the arguments and the
/// position after them.
fn parse_method_args(tokens: &Vec<Token>, pos: usize, end: usize) -> (r: Result<(Vec<Ast>, usize), ParseError>)
    requires
        pos <= end <= tokens@.len(),
    ensures
        nodes_result(r) == parse_args_spec(tokens@, pos as int, end as int, seq![]),
        r is Ok ==> pos <= r->Ok_0.1 <= end,
    decreases end - pos, 0nat,
{
    let ghost t = tokens@;
    let mut args: Vec<Ast> = Vec::new();
    let mut p = pos;
    assert(nodes_of(args@) =~= seq![]);
    loop
        invariant_except_break
            parse_args_spec(t, pos as int, end as int, seq![]) == parse_args_spec(t, p as int, end as int, nodes_of(args@)),
        invariant
            t == tokens@,
            pos <= p <= end <= t.len(),
        ensures
            pos <= p <= end,
            parse_args_spec(t, pos as int, end as int, seq![]) == Ok::<(Seq<Node>, int), ParseError>((nodes_of(args@), p as int)),
        decreases end - p,
    {
        if p >= end {
            break;
        }
        let ghost acc = nodes_of(args@);
        let ghost before = args@;
        let k = match find_arg_delim(tokens, p, end) {
            Some(k) => k,
            None => {
                return Err(ParseError::MissingDelimiter);
            },
        };
        let d = tokens[k];
        if d == Token::BananaOpen {
            if k != p + 1 {
                return Err(ParseError::ExpectedMethodName);
            }
            let method_name = match tokens[p] {
                Token::Word(a, b) => (a, b),
                _ => {
                    return Err(ParseError::ExpectedMethodName);
                },
            };
            let (nested, next) = match parse_method_args(tokens, p + 2, end) {
                Ok(x) => x,
                Err(e) => {
                    return Err(e);
                },
            };
            let node = Ast::Method { method_name, args: nested };
            args.push(node);
            proof {
                lemma_nodes_push(before, node);
            }
            if next < end && tokens[next] == Token::Comma {
                p = next + 1;
            } else if next < end && tokens[next] == Token::BananaClose {
                p = next + 1;
                break;
            } else {
                return Err(ParseError::UnexpectedTokens);
            }
        } else if k == p {
            if d == Token::BananaClose {
                p = p + 1;
                break;
            }
            return Err(ParseError::UnexpectedArgument);
        } else {
            if k == p + 1 {
                let node = match tokens[p] {
                    Token::Number(n) => Ast::ConstantNum(n),
                    Token::Word(a, b) => Ast::Variable { name: (a, b) },
                    _ => {
                        return Err(ParseError::UnexpectedArgument);
                    },
                };
                args.push(node);
                proof {
                    lemma_nodes_push(before, node);
                }
            } else {
                let (statements, _) = match parse_block(tokens, p, k, 255, true) {
                    Ok(x) => x,
                    Err(e) => {
                        return Err(e);
                    },
                };
                let node = Ast::Block { statements };
                args.push(node);
                proof {
                    lemma_nodes_push(before, node);
                }
            }
            p = k + 1;
            if d == Token::BananaClose {
                break;
            }
        }
    }
    Ok((args, p))
}

/// Parses the statements of one block from `pos`, at indentation depth
/// `ident`. In a nested single-expression context (`nested`) it stops after
/// the first call or a lone number. Returns the statements and the position
/// where the block ends.
fn parse_block(tokens: &Vec<Token>, pos: usize, end: usize, ident: u8, nested: bool) -> (r: Result<(Vec<Ast>, usize), ParseError>)
    requires
        pos <= end <= tokens@.len(),
    ensures
        nodes_result(r) == parse_block_spec(tokens@, pos as int, end as int, ident, nested, seq![]),
        r is Ok ==> pos <= r->Ok_0.1 <= end,
    decreases end - pos, 1nat,
{
    let ghost t = tokens@;
    let mut result: Vec<Ast> = Vec::new();
    let mut p = pos;
    assert(nodes_of(result@) =~= seq![]);
    loop
        invariant_except_break
            parse_block_spec(t, pos as int, end as int, ident, nested, seq![])
                == parse_block_spec(t, p as int, end as int, ident, nested, nodes_of(result@)),
        invariant
            t == tokens@,
            pos <= p <= end <= t.len(),
        ensures
            pos <= p <= end,
            parse_block_spec(t, pos as int, end as int, ident, nested, seq![])
                == Ok::<(Seq<Node>, int), ParseError>((nodes_of(result@), p as int)),
        decreases end - p,
    {
        if p >= end {
            break;
        }
        let ghost acc = nodes_of(result@);
        let ghost before = result@;
        let ghost stmt_at = p;
        let first = tokens[p];
        let second = if p + 1 < end { Some(tokens[p + 1]) } else { None };
        match (first, second) {
            (Token::Ident(n), _) => {
                if n == ident {
                    p = p + 1;
                } else if n as u16 + 1 == ident as u16 {
                    break;
                } else {
                    return Err(ParseError::UnexpectedIdent { found: n, expected: ident });
                }
            },
            (Token::Word(a, b), Some(Token::BananaOpen)) => {
                let (args, next) = match parse_method_args(tokens, p + 2, end) {
                    Ok(x) => x,
                    Err(e) => {
                        return Err(e);
                    },
                };
                let node = Ast::Method { method_name: (a, b), args };
                result.push(node);
                proof {
                    lemma_nodes_push(before, node);
                }
                p = next;
                if nested {
                    break;
                }
                if p >= end || tokens[p] != Token::EndStatement {
                    assert(parse_block_spec(t, stmt_at as int, end as int, ident, nested, acc)
                        == after_terminator(t, stmt_at as int, p as int, end as int, ident, nested, nodes_of(result@)));
                    return Err(ParseError::ExpectedEndStatement);
                }
                p = p + 1;
            },
            (Token::Number(num), Some(Token::EndStatement)) if nested && result.len() == 0 => {
                let node = Ast::ConstantNum(num);
                result.push(node);
                proof {
                    lemma_nodes_push(before, node);
                }
                return Ok((result, p + 1));
            },
            (Token::Word(a, b), Some(Token::Assign)) => {
                let (mut rhs, next) = match parse_block(tokens, p + 2, end, 255, true) {
                    Ok(x) => x,
                    Err(e) => {
                        return Err(e);
                    },
                };
                let ghost rhs_before = rhs@;
                let ghost ns = nodes_of(rhs_before);
                let ghost rhs_node = if ns.len() == 1 { ns[0] } else { Node::Block(ns) };
                proof {
                    lemma_nodes_len(rhs_before);
                }
                let rhs = if rhs.len() == 1 {
                    proof {
                        lemma_nodes_one(rhs_before);
                    }
                    let node = rhs.remove(0);
                    assert(node.node() == ns[0]);
                    Box::new(node)
                } else {
                    let block = Ast::Block { statements: rhs };
                    assert(block.node() == Node::Block(ns));
                    Box::new(block)
                };
                assert((*rhs).node() == rhs_node);
                let node = Ast::Assign { var_name: (a, b), rhs };
                result.push(node);
                proof {
                    lemma_nodes_push(before, node);
                }
                p = next;
                if p >= end || tokens[p] != Token::EndStatement {
                    assert(parse_block_spec(t, stmt_at as int, end as int, ident, nested, acc)
                        == after_terminator(t, stmt_at as int, p as int, end as int, ident, nested, nodes_of(result@)));
                    return Err(ParseError::ExpectedEndStatement);
                }
                p = p + 1;
            },
            (Token::Loop, Some(Token::Colon)) => {
                p = p + 2;
                if p >= end || tokens[p] != Token::EndStatement {
                    return Err(ParseError::ExpectedEndStatement);
                }
                p = p + 1;
                if ident == 255 {
                    return Err(ParseError::TooDeep);
                }
                let (statements, next) = match parse_block(tokens, p, end, ident + 1, false) {
                    Ok(x) => x,
                    Err(e) => {
                        return Err(e);
                    },
                };
                let node = Ast::Loop { statements };
                result.push(node);
                proof {
                    lemma_nodes_push(before, node);
                }
                p = next;
            },
            (Token::If, _) => {
                return Err(ParseError::UnsupportedIf);
            },
            (Token::For, Some(Token::Word(a, b))) => {
                p = p + 2;
                if p >= end || tokens[p] != Token::In {
                    return Err(ParseError::MalformedFor);
                }
                p = p + 1;
                if end - p < 5 {
                    return Err(ParseError::MalformedFor);
                }
                let (start, stop) = match (tokens[p], tokens[p + 1], tokens[p + 2], tokens[p + 3], tokens[p + 4]) {
                    (Token::Number(s), Token::Comma, Token::Number(e), Token::Colon, Token::EndStatement) => (s, e),
                    _ => {
                        return Err(ParseError::MalformedFor);
                    },
                };
                p = p + 5;
                if ident == 255 {
                    return Err(ParseError::TooDeep);
                }
                let (statements, next) = match parse_block(tokens, p, end, ident + 1, false) {
                    Ok(x) => x,
                    Err(e) => {
                        return Err(e);
                    },
                };
                let node = Ast::For { start, end: stop, var_name: (a, b), statements };
                result.push(node);
                proof {
                    lemma_nodes_push(before, node);
                }
                p = next;
            },
            (Token::For, _) => {
                return Err(ParseError::MalformedFor);
            },
            (Token::Word(a, b), Some(x)) => {
                let operation = match Operation::from_token(&x) {
                    Some(op) => op,
                    None => {
                        return Err(ParseError::UnexpectedTokens);
                    },
                };
                p = p + 2;
                let right = if end - p == 1 {
                    match tokens[p] {
                        Token::Number(n) => {
                            p = p + 1;
                            Ast::ConstantNum(n)
                        },
                        Token::Word(x, y) => {
                            p = p + 1;
                            Ast::Variable { name: (x, y) }
                        },
                        _ => {
                            return Err(ParseError::UnterminatedExpression);
                        },
                    }
                } else if end - p > 1 {
                    let (statements, next) = match parse_block(tokens, p, end, 255, true) {
                        Ok(x) => x,
                        Err(e) => {
                            return Err(e);
                        },
                    };
                    p = next;
                    Ast::Block { statements }
                } else {
                    return Err(ParseError::UnterminatedExpression);
                };
                let ghost rn = right.node();
                let node = Ast::Expression { left: (a, b), operation, right: Box::new(right) };
                result.push(node);
                proof {
                    lemma_nodes_push(before, node);
                }
                assert(node.node() == Node::Expr((a, b), operation, Box::new(rn)));
            },
            _ => {
                return Err(ParseError::UnexpectedTokens);
            },
        }
    }
    Ok((result, p))
}

/// Parses a whole optimized token sequence into one block.
pub fn tokens_to_ast(tokens: &Vec<Token>) -> (r: Result<Ast, ParseError>)
    ensures
        tree_result(r) == program_of(tokens@),
{
    let (statements, next) = match parse_block(tokens, 0, tokens.len(), 0, false) {
        Ok(x) => x,
        Err(e) => {
            return Err(e);
        },
    };
    if next != tokens.len() {
        return Err(ParseError::TrailingTokens);
    }
    Ok(Ast::Block { statements })
}

/// Tokenizes, optimizes and parses a script.
pub fn compile(script: &str) -> (r: Result<Ast, Error>)
    ensures
        compile_result(r) == compiled(script@),
{
    let mut tokens = match tokenize(script) {
        Ok(t) => t,
        Err(e) => {
            return Err(Error::Lex(e));
        },
    };
    optimize(&mut tokens);
    match tokens_to_ast(&tokens) {
        Ok(ast) => Ok(ast),
        Err(e) => Err(Error::Parse(e)),
    }
}

} // verus!
