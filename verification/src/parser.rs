//! Recursive-descent parsing: the token sequence to one abstract syntax
//! tree per top-level expression.
//!
//! Grammar, lowest to highest precedence, every binary rule
//! left-associative:
//! ```text
//! expression := equality
//! equality   := comparison (("!=" | "==") comparison)*
//! comparison := term (("<" | ">" | "<=" | ">=") term)*
//! term       := factor (("+" | "-") factor)*
//! factor     := unary (("*" | "/") unary)*
//! unary      := ("!" | "-") unary | primary
//! primary    := NUMBER | STRING | "true" | "false" | "nil" | "(" expression ")"
//! ```
//! Every failure is a recoverable `ParseError` carrying the unexpected token
//! (or none, at the end of input) and the position in the token stream.

use vstd::prelude::*;

use crate::lexer::{items_view, spec_tokens, tokenize, LexingError, LexingErrorM, Token, TokenM};

verus! {

/// A literal type.
#[derive(Debug)]
pub enum Literal {
    Number(u64),
    String(String),
    True,
    False,
    Nil,
    Expr(Box<Expr>),
}

/// An expression for the parser.
#[derive(Debug)]
pub enum Expr {
    Literal(Literal),
    Grouping(Box<Expr>),
    Unary { op: Token, right: Box<Expr> },
    Binary { left: Box<Expr>, op: Token, right: Box<Expr> },
}

/// A parse failure: the unexpected token (`None` at the end of input) and
/// the position in the token stream where it stood.
#[derive(Debug, Clone)]
pub struct ParseError {
    pub token: Option<Token>,
    pub pos: usize,
}

impl Clone for Literal {
    /// Cloning a literal yields an equal literal.
    fn clone(&self) -> (res: Self)
        ensures
            res == *self,
        decreases *self, 1int,
    {
        match self {
            Literal::Number(n) => Literal::Number(*n),
            Literal::String(s) => Literal::String(s.clone()),
            Literal::True => Literal::True,
            Literal::False => Literal::False,
            Literal::Nil => Literal::Nil,
            Literal::Expr(e) => Literal::Expr(Box::new((**e).clone())),
        }
    }
}

impl Clone for Expr {
    /// Cloning an expression yields an equal tree.
    fn clone(&self) -> (res: Self)
        ensures
            res == *self,
        decreases *self, 1int,
    {
        match self {
            Expr::Literal(l) => Expr::Literal(l.clone()),
            Expr::Grouping(g) => Expr::Grouping(Box::new((**g).clone())),
            Expr::Unary { op, right } => Expr::Unary {
                op: op.clone(),
                right: Box::new((**right).clone()),
            },
            Expr::Binary { left, op, right } => Expr::Binary {
                left: Box::new((**left).clone()),
                op: op.clone(),
                right: Box::new((**right).clone()),
            },
        }
    }
}

/// The mathematical shape of a literal.
pub enum LiteralM {
    Number(u64),
    String(Seq<char>),
    True,
    False,
    Nil,
    Expr(Box<ExprM>),
}

/// The mathematical shape of an expression tree.
pub enum ExprM {
    Literal(LiteralM),
    Grouping(Box<ExprM>),
    Unary { op: TokenM, right: Box<ExprM> },
    Binary { left: Box<ExprM>, op: TokenM, right: Box<ExprM> },
}

/// The mathematical shape of a parse failure.
pub struct ParseErrM {
    pub token: Option<TokenM>,
    pub pos: int,
}

pub open spec fn literal_view(l: Literal) -> LiteralM
    decreases l,
{
    match l {
        Literal::Number(n) => LiteralM::Number(n),
        Literal::String(s) => LiteralM::String(s@),
        Literal::True => LiteralM::True,
        Literal::False => LiteralM::False,
        Literal::Nil => LiteralM::Nil,
        Literal::Expr(e) => LiteralM::Expr(Box::new(expr_view(*e))),
    }
}

pub open spec fn expr_view(e: Expr) -> ExprM
    decreases e,
{
    match e {
        Expr::Literal(l) => ExprM::Literal(literal_view(l)),
        Expr::Grouping(g) => ExprM::Grouping(Box::new(expr_view(*g))),
        Expr::Unary { op, right } => ExprM::Unary { op: op@, right: Box::new(expr_view(*right)) },
        Expr::Binary { left, op, right } => ExprM::Binary {
            left: Box::new(expr_view(*left)),
            op: op@,
            right: Box::new(expr_view(*right)),
        },
    }
}

impl View for Literal {
    type V = LiteralM;

    open spec fn view(&self) -> LiteralM {
        literal_view(*self)
    }
}

impl View for Expr {
    type V = ExprM;

    open spec fn view(&self) -> ExprM {
        expr_view(*self)
    }
}

impl View for ParseError {
    type V = ParseErrM;

    open spec fn view(&self) -> ParseErrM {
        ParseErrM {
            token: match self.token {
                Some(t) => Some(t@),
                None => None,
            },
            pos: self.pos as int,
        }
    }
}

/// The variant of a token, without its payload; what the parser's one-token
/// lookahead dispatches on.
#[derive(Debug, Clone, Copy, PartialEq, Eq, Structural)]
pub enum TokenKind {
    Number,
    String,
    Ident,
    Plus,
    Minus,
    Mult,
    Div,
    True,
    False,
    Equal,
    Bang,
    NEqual,
    Less,
    Greater,
    GEqual,
    LEqual,
    DEqual,
    LParen,
    RParen,
    Nil,
}

pub open spec fn kind_of(t: TokenM) -> TokenKind {
    match t {
        TokenM::Number(_) => TokenKind::Number,
        TokenM::String(_) => TokenKind::String,
        TokenM::Ident(_) => TokenKind::Ident,
        TokenM::Plus => TokenKind::Plus,
        TokenM::Minus => TokenKind::Minus,
        TokenM::Mult => TokenKind::Mult,
        TokenM::Div => TokenKind::Div,
        TokenM::True => TokenKind::True,
        TokenM::False => TokenKind::False,
        TokenM::Equal => TokenKind::Equal,
        TokenM::Bang => TokenKind::Bang,
        TokenM::NEqual => TokenKind::NEqual,
        TokenM::Less => TokenKind::Less,
        TokenM::Greater => TokenKind::Greater,
        TokenM::GEqual => TokenKind::GEqual,
        TokenM::LEqual => TokenKind::LEqual,
        TokenM::DEqual => TokenKind::DEqual,
        TokenM::LParen => TokenKind::LParen,
        TokenM::RParen => TokenKind::RParen,
        TokenM::Nil => TokenKind::Nil,
    }
}

// ---------------------------------------------------------------------------
// The grammar, as functions from the token sequence to trees
// ---------------------------------------------------------------------------
// Each function takes the position it starts at and yields the parsed tree
// or the failure, with the position it stops at.  The guards `i <= j` and
// `i < j` on the recursive calls only restate that a parser never moves
// backwards (proved below as progress of the executable parser); they give
// the measures their strict decrease.
pub open spec fn spec_expression(s: Seq<TokenM>, i: int) -> (Result<ExprM, ParseErrM>, int)
    decreases s.len() - i, 10int,
{
    spec_equality(s, i)
}

pub open spec fn spec_equality(s: Seq<TokenM>, i: int) -> (Result<ExprM, ParseErrM>, int)
    decreases s.len() - i, 9int,
{
    let (r, j) = spec_comparison(s, i);
    match r {
        Ok(e) => if i <= j && j <= s.len() {
            spec_equality_rest(s, e, j)
        } else {
            (Ok(e), j)
        },
        Err(pe) => (Err(pe), j),
    }
}

pub open spec fn spec_equality_rest(s: Seq<TokenM>, acc: ExprM, i: int) -> (
    Result<ExprM, ParseErrM>,
    int,
)
    decreases s.len() - i, 8int,
{
    if 0 <= i < s.len() && (s[i] is NEqual || s[i] is DEqual) {
        let op = s[i];
        let (r, j) = spec_comparison(s, i + 1);
        match r {
            Ok(right) => {
                let joined = ExprM::Binary { left: Box::new(acc), op, right: Box::new(right) };
                if i < j && j <= s.len() {
                    spec_equality_rest(s, joined, j)
                } else {
                    (Ok(joined), j)
                }
            },
            Err(pe) => (Err(pe), j),
        }
    } else {
        (Ok(acc), i)
    }
}

pub open spec fn spec_comparison(s: Seq<TokenM>, i: int) -> (Result<ExprM, ParseErrM>, int)
    decreases s.len() - i, 7int,
{
    let (r, j) = spec_term(s, i);
    match r {
        Ok(e) => if i <= j && j <= s.len() {
            spec_comparison_rest(s, e, j)
        } else {
            (Ok(e), j)
        },
        Err(pe) => (Err(pe), j),
    }
}

pub open spec fn spec_comparison_rest(s: Seq<TokenM>, acc: ExprM, i: int) -> (
    Result<ExprM, ParseErrM>,
    int,
)
    decreases s.len() - i, 6int,
{
    if 0 <= i < s.len() && (s[i] is Less || s[i] is Greater || s[i] is LEqual || s[i] is GEqual) {
        let op = s[i];
        let (r, j) = spec_term(s, i + 1);
        match r {
            Ok(right) => {
                let joined = ExprM::Binary { left: Box::new(acc), op, right: Box::new(right) };
                if i < j && j <= s.len() {
                    spec_comparison_rest(s, joined, j)
                } else {
                    (Ok(joined), j)
                }
            },
            Err(pe) => (Err(pe), j),
        }
    } else {
        (Ok(acc), i)
    }
}

pub open spec fn spec_term(s: Seq<TokenM>, i: int) -> (Result<ExprM, ParseErrM>, int)
    decreases s.len() - i, 5int,
{
    let (r, j) = spec_factor(s, i);
    match r {
        Ok(e) => if i <= j && j <= s.len() {
            spec_term_rest(s, e, j)
        } else {
            (Ok(e), j)
        },
        Err(pe) => (Err(pe), j),
    }
}

pub open spec fn spec_term_rest(s: Seq<TokenM>, acc: ExprM, i: int) -> (
    Result<ExprM, ParseErrM>,
    int,
)
    decreases s.len() - i, 4int,
{
    if 0 <= i < s.len() && (s[i] is Minus || s[i] is Plus) {
        let op = s[i];
        let (r, j) = spec_factor(s, i + 1);
        match r {
            Ok(right) => {
                let joined = ExprM::Binary { left: Box::new(acc), op, right: Box::new(right) };
                if i < j && j <= s.len() {
                    spec_term_rest(s, joined, j)
                } else {
                    (Ok(joined), j)
                }
            },
            Err(pe) => (Err(pe), j),
        }
    } else {
        (Ok(acc), i)
    }
}

pub open spec fn spec_factor(s: Seq<TokenM>, i: int) -> (Result<ExprM, ParseErrM>, int)
    decreases s.len() - i, 3int,
{
    let (r, j) = spec_unary(s, i);
    match r {
        Ok(e) => if i <= j && j <= s.len() {
            spec_factor_rest(s, e, j)
        } else {
            (Ok(e), j)
        },
        Err(pe) => (Err(pe), j),
    }
}

pub open spec fn spec_factor_rest(s: Seq<TokenM>, acc: ExprM, i: int) -> (
    Result<ExprM, ParseErrM>,
    int,
)
    decreases s.len() - i, 2int,
{
    if 0 <= i < s.len() && (s[i] is Div || s[i] is Mult) {
        let op = s[i];
        let (r, j) = spec_unary(s, i + 1);
        match r {
            Ok(right) => {
                let joined = ExprM::Binary { left: Box::new(acc), op, right: Box::new(right) };
                if i < j && j <= s.len() {
                    spec_factor_rest(s, joined, j)
                } else {
                    (Ok(joined), j)
                }
            },
            Err(pe) => (Err(pe), j),
        }
    } else {
        (Ok(acc), i)
    }
}

pub open spec fn spec_unary(s: Seq<TokenM>, i: int) -> (Result<ExprM, ParseErrM>, int)
    decreases s.len() - i, 1int,
{
    if 0 <= i < s.len() && (s[i] is Bang || s[i] is Minus) {
        let op = s[i];
        let (r, j) = spec_unary(s, i + 1);
        match r {
            Ok(right) => (Ok(ExprM::Unary { op, right: Box::new(right) }), j),
            Err(pe) => (Err(pe), j),
        }
    } else {
        spec_primary(s, i)
    }
}

pub open spec fn spec_primary(s: Seq<TokenM>, i: int) -> (Result<ExprM, ParseErrM>, int)
    decreases s.len() - i, 0int,
{
    if i < 0 || i >= s.len() {
        (Err(ParseErrM { token: None, pos: i }), i)
    } else {
        match s[i] {
            TokenM::String(str) => (Ok(ExprM::Literal(LiteralM::String(str))), i + 1),
            TokenM::Number(n) => (Ok(ExprM::Literal(LiteralM::Number(n))), i + 1),
            TokenM::True => (Ok(ExprM::Literal(LiteralM::True)), i + 1),
            TokenM::False => (Ok(ExprM::Literal(LiteralM::False)), i + 1),
            TokenM::Nil => (Ok(ExprM::Literal(LiteralM::Nil)), i + 1),
            TokenM::LParen => {
                let (r, j) = spec_expression(s, i + 1);
                match r {
                    Ok(e) => if 0 <= j < s.len() && s[j] is RParen {
                        (Ok(ExprM::Grouping(Box::new(e))), j + 1)
                    } else {
                        (
                            Err(
                                ParseErrM {
                                    token: if 0 <= j < s.len() {
                                        Some(s[j])
                                    } else {
                                        None
                                    },
                                    pos: j,
                                },
                            ),
                            j,
                        )
                    },
                    Err(pe) => (Err(pe), j),
                }
            },
            _ => (Err(ParseErrM { token: Some(s[i]), pos: i }), i),
        }
    }
}


proof fn lemma_equality_step(s: Seq<TokenM>, acc: ExprM, i: int, right: ExprM, j: int)
    requires
        0 <= i < s.len(),
        s[i] is NEqual || s[i] is DEqual,
        spec_comparison(s, i + 1) == (Ok::<ExprM, ParseErrM>(right), j),
        i + 1 <= j <= s.len(),
    ensures
        spec_equality_rest(s, acc, i) == spec_equality_rest(
            s,
            ExprM::Binary { left: Box::new(acc), op: s[i], right: Box::new(right) },
            j,
        ),
{
}

proof fn lemma_equality_err(s: Seq<TokenM>, acc: ExprM, i: int, pe: ParseErrM, j: int)
    requires
        0 <= i < s.len(),
        s[i] is NEqual || s[i] is DEqual,
        spec_comparison(s, i + 1) == (Err::<ExprM, ParseErrM>(pe), j),
    ensures
        spec_equality_rest(s, acc, i) == (Err::<ExprM, ParseErrM>(pe), j),
{
}

proof fn lemma_equality_stop(s: Seq<TokenM>, acc: ExprM, i: int)
    requires
        !(0 <= i < s.len() && (s[i] is NEqual || s[i] is DEqual)),
    ensures
        spec_equality_rest(s, acc, i) == (Ok::<ExprM, ParseErrM>(acc), i),
{
}


proof fn lemma_comparison_step(s: Seq<TokenM>, acc: ExprM, i: int, right: ExprM, j: int)
    requires
        0 <= i < s.len(),
        s[i] is Less || s[i] is Greater || s[i] is LEqual || s[i] is GEqual,
        spec_term(s, i + 1) == (Ok::<ExprM, ParseErrM>(right), j),
        i + 1 <= j <= s.len(),
    ensures
        spec_comparison_rest(s, acc, i) == spec_comparison_rest(
            s,
            ExprM::Binary { left: Box::new(acc), op: s[i], right: Box::new(right) },
            j,
        ),
{
}

proof fn lemma_comparison_err(s: Seq<TokenM>, acc: ExprM, i: int, pe: ParseErrM, j: int)
    requires
        0 <= i < s.len(),
        s[i] is Less || s[i] is Greater || s[i] is LEqual || s[i] is GEqual,
        spec_term(s, i + 1) == (Err::<ExprM, ParseErrM>(pe), j),
    ensures
        spec_comparison_rest(s, acc, i) == (Err::<ExprM, ParseErrM>(pe), j),
{
}

proof fn lemma_comparison_stop(s: Seq<TokenM>, acc: ExprM, i: int)
    requires
        !(0 <= i < s.len() && (s[i] is Less || s[i] is Greater || s[i] is LEqual || s[i] is GEqual)),
    ensures
        spec_comparison_rest(s, acc, i) == (Ok::<ExprM, ParseErrM>(acc), i),
{
}


proof fn lemma_term_step(s: Seq<TokenM>, acc: ExprM, i: int, right: ExprM, j: int)
    requires
        0 <= i < s.len(),
        s[i] is Minus || s[i] is Plus,
        spec_factor(s, i + 1) == (Ok::<ExprM, ParseErrM>(right), j),
        i + 1 <= j <= s.len(),
    ensures
        spec_term_rest(s, acc, i) == spec_term_rest(
            s,
            ExprM::Binary { left: Box::new(acc), op: s[i], right: Box::new(right) },
            j,
        ),
{
}

proof fn lemma_term_err(s: Seq<TokenM>, acc: ExprM, i: int, pe: ParseErrM, j: int)
    requires
        0 <= i < s.len(),
        s[i] is Minus || s[i] is Plus,
        spec_factor(s, i + 1) == (Err::<ExprM, ParseErrM>(pe), j),
    ensures
        spec_term_rest(s, acc, i) == (Err::<ExprM, ParseErrM>(pe), j),
{
}

proof fn lemma_term_stop(s: Seq<TokenM>, acc: ExprM, i: int)
    requires
        !(0 <= i < s.len() && (s[i] is Minus || s[i] is Plus)),
    ensures
        spec_term_rest(s, acc, i) == (Ok::<ExprM, ParseErrM>(acc), i),
{
}


proof fn lemma_factor_step(s: Seq<TokenM>, acc: ExprM, i: int, right: ExprM, j: int)
    requires
        0 <= i < s.len(),
        s[i] is Div || s[i] is Mult,
        spec_unary(s, i + 1) == (Ok::<ExprM, ParseErrM>(right), j),
        i + 1 <= j <= s.len(),
    ensures
        spec_factor_rest(s, acc, i) == spec_factor_rest(
            s,
            ExprM::Binary { left: Box::new(acc), op: s[i], right: Box::new(right) },
            j,
        ),
{
}

proof fn lemma_factor_err(s: Seq<TokenM>, acc: ExprM, i: int, pe: ParseErrM, j: int)
    requires
        0 <= i < s.len(),
        s[i] is Div || s[i] is Mult,
        spec_unary(s, i + 1) == (Err::<ExprM, ParseErrM>(pe), j),
    ensures
        spec_factor_rest(s, acc, i) == (Err::<ExprM, ParseErrM>(pe), j),
{
}

proof fn lemma_factor_stop(s: Seq<TokenM>, acc: ExprM, i: int)
    requires
        !(0 <= i < s.len() && (s[i] is Div || s[i] is Mult)),
    ensures
        spec_factor_rest(s, acc, i) == (Ok::<ExprM, ParseErrM>(acc), i),
{
}


// ---------------------------------------------------------------------------
// Chains of `+`/`-` over number literals
// ---------------------------------------------------------------------------
/// The expression tree of a left-associative chain of `+`/`-` over number
/// literals: each operator's left side is the whole chain before it.
pub open spec fn chain_expr(b0: u64, rest: Seq<(bool, u64)>) -> ExprM
    decreases rest.len(),
{
    if rest.len() == 0 {
        ExprM::Literal(LiteralM::Number(b0))
    } else {
        ExprM::Binary {
            left: Box::new(chain_expr(b0, rest.drop_last())),
            op: if rest.last().0 {
                TokenM::Plus
            } else {
                TokenM::Minus
            },
            right: Box::new(ExprM::Literal(LiteralM::Number(rest.last().1))),
        }
    }
}

/// Whether `s` is exactly the token sequence of such a chain: a first
/// number, then one `+` or `-` and one number per pair.
pub open spec fn is_chain_tokens(s: Seq<TokenM>, b0: u64, rest: Seq<(bool, u64)>) -> bool {
    &&& s.len() == 1 + 2 * rest.len()
    &&& s[0] == TokenM::Number(b0)
    &&& forall|k: int|
        #![trigger rest[k]]
        0 <= k < rest.len() ==> s[1 + 2 * k] == (if rest[k].0 {
            TokenM::Plus
        } else {
            TokenM::Minus
        }) && s[2 + 2 * k] == TokenM::Number(rest[k].1)
}

/// A factor at a number literal is that literal, one token long, where no
/// `*` or `/` follows.
proof fn lemma_chain_factor(s: Seq<TokenM>, i: int)
    requires
        0 <= i < s.len(),
        s[i] is Number,
        i + 1 < s.len() ==> (s[i + 1] is Plus || s[i + 1] is Minus),
    ensures
        spec_factor(s, i) == (
            Ok::<ExprM, ParseErrM>(ExprM::Literal(LiteralM::Number(s[i]->Number_0))),
            i + 1,
        ),
{
    let lit = ExprM::Literal(LiteralM::Number(s[i]->Number_0));
    assert(spec_primary(s, i) == (Ok::<ExprM, ParseErrM>(lit), i + 1));
    assert(spec_unary(s, i) == spec_primary(s, i));
    assert(spec_factor_rest(s, lit, i + 1) == (Ok::<ExprM, ParseErrM>(lit), i + 1));
}

/// The term loop, entered anywhere in a chain with the chain so far in its
/// accumulator, consumes the remaining pairs and builds the whole chain.
proof fn lemma_chain_term_rest(s: Seq<TokenM>, b0: u64, rest: Seq<(bool, u64)>, m: int)
    requires
        is_chain_tokens(s, b0, rest),
        0 <= m <= rest.len(),
    ensures
        spec_term_rest(s, chain_expr(b0, rest.take(m)), 1 + 2 * m) == (
            Ok::<ExprM, ParseErrM>(chain_expr(b0, rest)),
            s.len() as int,
        ),
    decreases rest.len() - m,
{
    let i = 1 + 2 * m;
    if m == rest.len() {
        assert(rest.take(m) =~= rest);
    } else {
        assert(s[1 + 2 * m] == (if rest[m].0 {
            TokenM::Plus
        } else {
            TokenM::Minus
        }) && s[2 + 2 * m] == TokenM::Number(rest[m].1));
        let op = s[i];
        if i + 2 < s.len() {
            assert(s[1 + 2 * (m + 1)] == (if rest[m + 1].0 {
                TokenM::Plus
            } else {
                TokenM::Minus
            }) && s[2 + 2 * (m + 1)] == TokenM::Number(rest[m + 1].1));
            assert(s[i + 2] is Plus || s[i + 2] is Minus);
        }
        lemma_chain_factor(s, i + 1);
        let lit = ExprM::Literal(LiteralM::Number(rest[m].1));
        let acc = chain_expr(b0, rest.take(m));
        let joined = ExprM::Binary { left: Box::new(acc), op, right: Box::new(lit) };
        assert(rest.take(m + 1).drop_last() =~= rest.take(m));
        assert(rest.take(m + 1).last() == rest[m]);
        assert(joined == chain_expr(b0, rest.take(m + 1)));
        lemma_chain_term_rest(s, b0, rest, m + 1);
        assert(spec_term_rest(s, acc, i) == spec_term_rest(s, joined, i + 2));
    }
}

/// Parsing a chain of `+`/`-` over number literals yields exactly the
/// left-associative tree, consuming the whole input: left-associativity
/// holds structurally.
pub proof fn lemma_chain_parse(s: Seq<TokenM>, b0: u64, rest: Seq<(bool, u64)>)
    requires
        is_chain_tokens(s, b0, rest),
    ensures
        spec_expression(s, 0) == (
            Ok::<ExprM, ParseErrM>(chain_expr(b0, rest)),
            s.len() as int,
        ),
{
    let ce = chain_expr(b0, rest);
    let n = s.len() as int;
    if rest.len() > 0 {
        assert(s[1 + 2 * 0int] == (if rest[0].0 {
            TokenM::Plus
        } else {
            TokenM::Minus
        }) && s[2 + 2 * 0int] == TokenM::Number(rest[0].1));
        assert(s[1] is Plus || s[1] is Minus);
    }
    lemma_chain_factor(s, 0);
    let lit = ExprM::Literal(LiteralM::Number(b0));
    assert(rest.take(0) =~= Seq::<(bool, u64)>::empty());
    assert(lit == chain_expr(b0, rest.take(0)));
    lemma_chain_term_rest(s, b0, rest, 0);
    assert(spec_term(s, 0) == (Ok::<ExprM, ParseErrM>(ce), n));
    assert(spec_comparison_rest(s, ce, n) == (Ok::<ExprM, ParseErrM>(ce), n));
    assert(spec_comparison(s, 0) == (Ok::<ExprM, ParseErrM>(ce), n));
    assert(spec_equality_rest(s, ce, n) == (Ok::<ExprM, ParseErrM>(ce), n));
    assert(spec_equality(s, 0) == (Ok::<ExprM, ParseErrM>(ce), n));
}

// ---------------------------------------------------------------------------
// The executable parser
// ---------------------------------------------------------------------------
/// The shape of a token sequence.
pub open spec fn tokens_view(s: Seq<Token>) -> Seq<TokenM> {
    s.map_values(|t: Token| t@)
}

/// The shape of what a parsing function hands out.
pub open spec fn pres_view(r: Result<Box<Expr>, ParseError>) -> Result<ExprM, ParseErrM> {
    match r {
        Ok(b) => Ok(b@),
        Err(pe) => Err(pe@),
    }
}

fn token_kind(t: &Token) -> (k: TokenKind)
    ensures
        k == kind_of(t@),
{
    match t {
        Token::Number(_) => TokenKind::Number,
        Token::String(_) => TokenKind::String,
        Token::Ident(_) => TokenKind::Ident,
        Token::Plus => TokenKind::Plus,
        Token::Minus => TokenKind::Minus,
        Token::Mult => TokenKind::Mult,
        Token::Div => TokenKind::Div,
        Token::True => TokenKind::True,
        Token::False => TokenKind::False,
        Token::Equal => TokenKind::Equal,
        Token::Bang => TokenKind::Bang,
        Token::NEqual => TokenKind::NEqual,
        Token::Less => TokenKind::Less,
        Token::Greater => TokenKind::Greater,
        Token::GEqual => TokenKind::GEqual,
        Token::LEqual => TokenKind::LEqual,
        Token::DEqual => TokenKind::DEqual,
        Token::LParen => TokenKind::LParen,
        Token::RParen => TokenKind::RParen,
        Token::Nil => TokenKind::Nil,
    }
}

/// Converts tokens into an AST.
pub struct Parser {
    pub tokens: Vec<Token>,
    pub pos: usize,
}

impl Parser {
    /// The shape of the token stream.
    pub open spec fn toks(&self) -> Seq<TokenM> {
        tokens_view(self.tokens@)
    }

    pub open spec fn wf(&self) -> bool {
        self.pos <= self.tokens@.len()
    }

    pub fn new(tokens: Vec<Token>) -> (p: Parser)
        ensures
            p.tokens@ == tokens@,
            p.pos == 0,
            p.wf(),
    {
        Parser { tokens, pos: 0 }
    }

    /// The current token, without consuming it.
    fn peek(&self) -> (r: Option<&Token>)
        ensures
            match r {
                Some(t) => self.pos < self.tokens@.len() && *t == self.tokens@[self.pos as int],
                None => self.pos >= self.tokens@.len(),
            },
    {
        if self.pos < self.tokens.len() {
            Some(&self.tokens[self.pos])
        } else {
            None
        }
    }

    /// The token just consumed.
    fn previous(&self) -> (t: &Token)
        requires
            1 <= self.pos <= self.tokens@.len(),
        ensures
            *t == self.tokens@[self.pos - 1],
    {
        &self.tokens[self.pos - 1]
    }

    /// Moves past the current token, if any.
    fn advance(&mut self)
        ensures
            final(self).tokens@ == old(self).tokens@,
            final(self).pos as int == if old(self).pos < old(self).tokens@.len() {
                old(self).pos + 1
            } else {
                old(self).pos as int
            },
    {
        if self.pos < self.tokens.len() {
            self.pos = self.pos + 1;
        }
    }

    /// Whether the current token has the given kind; consumes nothing.
    fn check(&self, kind: TokenKind) -> (b: bool)
        requires
            self.wf(),
        ensures
            b == (self.pos < self.toks().len() && kind_of(self.toks()[self.pos as int]) == kind),
    {
        match self.peek() {
            Some(t) => token_kind(t) == kind,
            None => false,
        }
    }

    /// If the current token has one of the given kinds, consumes it and
    /// yields true; otherwise consumes nothing and yields false.
    fn tmatch(&mut self, kinds: Vec<TokenKind>) -> (b: bool)
        requires
            old(self).wf(),
        ensures
            final(self).wf(),
            final(self).tokens@ == old(self).tokens@,
            b == (old(self).pos < old(self).toks().len() && kinds@.contains(
                kind_of(old(self).toks()[old(self).pos as int]),
            )),
            final(self).pos as int == if b {
                old(self).pos + 1
            } else {
                old(self).pos as int
            },
    {
        let mut i: usize = 0;
        while i < kinds.len()
            invariant
                old(self).wf(),
                self == old(self),
                i <= kinds@.len(),
                forall|k: int|
                    0 <= k < i ==> !(self.pos < self.toks().len() && kinds@[k] == kind_of(
                        self.toks()[self.pos as int],
                    )),
            decreases kinds@.len() - i,
        {
            if self.check(kinds[i]) {
                self.advance();
                return true;
            }
            i = i + 1;
        }
        false
    }

    /// The failure for the current position: the token standing there, or
    /// none at the end of input.
    fn unexpected(&self) -> (pe: ParseError)
        requires
            self.wf(),
        ensures
            pe@ == (ParseErrM {
                token: if self.pos < self.toks().len() {
                    Some(self.toks()[self.pos as int])
                } else {
                    None
                },
                pos: self.pos as int,
            }),
    {
        let token = match self.peek() {
            Some(t) => Some(t.clone()),
            None => None,
        };
        ParseError { token, pos: self.pos }
    }

    /// Consumes a token of the given kind, failing where it is absent.
    fn consume(&mut self, kind: TokenKind) -> (r: Result<(), ParseError>)
        requires
            old(self).wf(),
        ensures
            final(self).wf(),
            final(self).tokens@ == old(self).tokens@,
            ({
                let ok = old(self).pos < old(self).toks().len() && kind_of(
                    old(self).toks()[old(self).pos as int],
                ) == kind;
                if ok {
                    r is Ok && final(self).pos == old(self).pos + 1
                } else {
                    final(self).pos == old(self).pos && (match r {
                        Ok(_) => false,
                        Err(pe) => pe@ == (ParseErrM {
                            token: if old(self).pos < old(self).toks().len() {
                                Some(old(self).toks()[old(self).pos as int])
                            } else {
                                None
                            },
                            pos: old(self).pos as int,
                        }),
                    })
                }
            }),
    {
        if self.tmatch(vec![kind]) {
            Ok(())
        } else {
            Err(self.unexpected())
        }
    }

    /// Parses the tokens into an AST of one top-level expression, or the
    /// first failure.
    pub fn parse(&mut self) -> (r: Result<Vec<Box<Expr>>, ParseError>)
        requires
            old(self).wf(),
        ensures
            final(self).wf(),
            final(self).tokens@ == old(self).tokens@,
            match (r, spec_expression(old(self).toks(), old(self).pos as int).0) {
                (Ok(v), Ok(e)) => v@.len() == 1 && v@[0]@ == e,
                (Err(pe), Err(pe2)) => pe@ == pe2,
                _ => false,
            },
    {
        let mut ast: Vec<Box<Expr>> = Vec::new();
        match self.expression() {
            Ok(e) => {
                ast.push(e);
                Ok(ast)
            },
            Err(pe) => Err(pe),
        }
    }

    /// Parses one expression.
    fn expression(&mut self) -> (r: Result<Box<Expr>, ParseError>)
        requires
            old(self).wf(),
        ensures
            final(self).wf(),
            final(self).tokens@ == old(self).tokens@,
            old(self).pos <= final(self).pos,
            r is Ok ==> old(self).pos < final(self).pos,
            final(self).pos as int == spec_expression(old(self).toks(), old(self).pos as int).1,
            pres_view(r) == spec_expression(old(self).toks(), old(self).pos as int).0,
        decreases old(self).tokens@.len() - old(self).pos, 10int,
    {
        self.equality()
    }

    /// Parses one equality expression.
    #[verifier::rlimit(50)]
    fn equality(&mut self) -> (r: Result<Box<Expr>, ParseError>)
        requires
            old(self).wf(),
        ensures
            final(self).wf(),
            final(self).tokens@ == old(self).tokens@,
            old(self).pos <= final(self).pos,
            r is Ok ==> old(self).pos < final(self).pos,
            final(self).pos as int == spec_equality(old(self).toks(), old(self).pos as int).1,
            pres_view(r) == spec_equality(old(self).toks(), old(self).pos as int).0,
        decreases old(self).tokens@.len() - old(self).pos, 9int,
    {
        let ghost s = old(self).toks();
        let ghost p0 = old(self).pos as int;
        let mut expr: Box<Expr>;
        match self.comparison() {
            Ok(e) => {
                proof {
                    assert(spec_equality(s, p0) == spec_equality_rest(s, e@, self.pos as int));
                }
                expr = e;
            },
            Err(pe) => {
                proof {
                    assert(spec_equality(s, p0) == (Err::<ExprM, ParseErrM>(pe@), self.pos as int));
                }
                return Err(pe);
            },
        }
        loop
            invariant
                self.wf(),
                self.tokens@ == old(self).tokens@,
                s == old(self).toks(),
                p0 == old(self).pos as int,
                self.toks() == s,
                p0 < self.pos as int <= s.len(),
                spec_equality(s, p0) == spec_equality_rest(s, expr@, self.pos as int),
            decreases s.len() - self.pos,
        {
            let ghost i = self.pos as int;
            let kinds = vec![TokenKind::NEqual, TokenKind::DEqual];
            let ghost kv = kinds@;
            proof {
                assert(kv =~= seq![TokenKind::NEqual, TokenKind::DEqual]);
            }
            if self.tmatch(kinds) {
                proof {
                    assert(kv.contains(kind_of(s[i])));
                    let idx = choose|jj: int| 0 <= jj < kv.len() && kv[jj] == kind_of(s[i]);
                    assert(s[i] is NEqual || s[i] is DEqual);
                }
                let op = self.previous().clone();
                match self.comparison() {
                    Ok(right) => {
                        let ghost j = self.pos as int;
                        let ghost joined = ExprM::Binary {
                            left: Box::new(expr@),
                            op: s[i],
                            right: Box::new(right@),
                        };
                        proof {
                            assert(s.len() == self.tokens@.len());
                            assert(i + 1 <= j <= s.len());
                            assert(spec_comparison(s, i + 1) == (Ok::<ExprM, ParseErrM>(right@), j));
                            lemma_equality_step(s, expr@, i, right@, j);
                            assert(spec_equality_rest(s, expr@, i) == spec_equality_rest(s, joined, j));
                        }
                        expr = Box::new(Expr::Binary { left: expr, op, right });
                        proof {
                            assert(expr@ == joined);
                        }
                    },
                    Err(pe) => {
                        proof {
                            assert(s.len() == self.tokens@.len());
                            assert(spec_comparison(s, i + 1) == (Err::<ExprM, ParseErrM>(pe@), self.pos as int));
                            lemma_equality_err(s, expr@, i, pe@, self.pos as int);
                            assert(spec_equality_rest(s, expr@, i) == (
                                Err::<ExprM, ParseErrM>(pe@),
                                self.pos as int,
                            ));
                        }
                        return Err(pe);
                    },
                }
            } else {
                proof {
                    if i < s.len() {
                        if s[i] is NEqual {
                            assert(kv[0] == kind_of(s[i]));
                            assert(kv.contains(kind_of(s[i])));
                        }
                        if s[i] is DEqual {
                            assert(kv[1] == kind_of(s[i]));
                            assert(kv.contains(kind_of(s[i])));
                        }
                    }
                    assert(!(0 <= i < s.len() && (s[i] is NEqual || s[i] is DEqual)));
                    lemma_equality_stop(s, expr@, i);
                    assert(spec_equality_rest(s, expr@, i) == (Ok::<ExprM, ParseErrM>(expr@), i));
                }
                return Ok(expr);
            }
        }
    }

    /// Parses one comparison expression.
    #[verifier::rlimit(50)]
    fn comparison(&mut self) -> (r: Result<Box<Expr>, ParseError>)
        requires
            old(self).wf(),
        ensures
            final(self).wf(),
            final(self).tokens@ == old(self).tokens@,
            old(self).pos <= final(self).pos,
            r is Ok ==> old(self).pos < final(self).pos,
            final(self).pos as int == spec_comparison(old(self).toks(), old(self).pos as int).1,
            pres_view(r) == spec_comparison(old(self).toks(), old(self).pos as int).0,
        decreases old(self).tokens@.len() - old(self).pos, 7int,
    {
        let ghost s = old(self).toks();
        let ghost p0 = old(self).pos as int;
        let mut expr: Box<Expr>;
        match self.term() {
            Ok(e) => {
                proof {
                    assert(spec_comparison(s, p0) == spec_comparison_rest(s, e@, self.pos as int));
                }
                expr = e;
            },
            Err(pe) => {
                proof {
                    assert(spec_comparison(s, p0) == (Err::<ExprM, ParseErrM>(pe@), self.pos as int));
                }
                return Err(pe);
            },
        }
        loop
            invariant
                self.wf(),
                self.tokens@ == old(self).tokens@,
                s == old(self).toks(),
                p0 == old(self).pos as int,
                self.toks() == s,
                p0 < self.pos as int <= s.len(),
                spec_comparison(s, p0) == spec_comparison_rest(s, expr@, self.pos as int),
            decreases s.len() - self.pos,
        {
            let ghost i = self.pos as int;
            let kinds = vec![TokenKind::Less, TokenKind::Greater, TokenKind::LEqual, TokenKind::GEqual];
            let ghost kv = kinds@;
            proof {
                assert(kv =~= seq![TokenKind::Less, TokenKind::Greater, TokenKind::LEqual, TokenKind::GEqual]);
            }
            if self.tmatch(kinds) {
                proof {
                    assert(kv.contains(kind_of(s[i])));
                    let idx = choose|jj: int| 0 <= jj < kv.len() && kv[jj] == kind_of(s[i]);
                    assert(s[i] is Less || s[i] is Greater || s[i] is LEqual || s[i] is GEqual);
                }
                let op = self.previous().clone();
                match self.term() {
                    Ok(right) => {
                        let ghost j = self.pos as int;
                        let ghost joined = ExprM::Binary {
                            left: Box::new(expr@),
                            op: s[i],
                            right: Box::new(right@),
                        };
                        proof {
                            assert(s.len() == self.tokens@.len());
                            assert(i + 1 <= j <= s.len());
                            assert(spec_term(s, i + 1) == (Ok::<ExprM, ParseErrM>(right@), j));
                            lemma_comparison_step(s, expr@, i, right@, j);
                            assert(spec_comparison_rest(s, expr@, i) == spec_comparison_rest(s, joined, j));
                        }
                        expr = Box::new(Expr::Binary { left: expr, op, right });
                        proof {
                            assert(expr@ == joined);
                        }
                    },
                    Err(pe) => {
                        proof {
                            assert(s.len() == self.tokens@.len());
                            assert(spec_term(s, i + 1) == (Err::<ExprM, ParseErrM>(pe@), self.pos as int));
                            lemma_comparison_err(s, expr@, i, pe@, self.pos as int);
                            assert(spec_comparison_rest(s, expr@, i) == (
                                Err::<ExprM, ParseErrM>(pe@),
                                self.pos as int,
                            ));
                        }
                        return Err(pe);
                    },
                }
            } else {
                proof {
                    if i < s.len() {
                        if s[i] is Less {
                            assert(kv[0] == kind_of(s[i]));
                            assert(kv.contains(kind_of(s[i])));
                        }
                        if s[i] is Greater {
                            assert(kv[1] == kind_of(s[i]));
                            assert(kv.contains(kind_of(s[i])));
                        }
                        if s[i] is LEqual {
                            assert(kv[2] == kind_of(s[i]));
                            assert(kv.contains(kind_of(s[i])));
                        }
                        if s[i] is GEqual {
                            assert(kv[3] == kind_of(s[i]));
                            assert(kv.contains(kind_of(s[i])));
                        }
                    }
                    assert(!(0 <= i < s.len() && (s[i] is Less || s[i] is Greater || s[i] is LEqual || s[i] is GEqual)));
                    lemma_comparison_stop(s, expr@, i);
                    assert(spec_comparison_rest(s, expr@, i) == (Ok::<ExprM, ParseErrM>(expr@), i));
                }
                return Ok(expr);
            }
        }
    }

    /// Parses one term expression.
    #[verifier::rlimit(50)]
    fn term(&mut self) -> (r: Result<Box<Expr>, ParseError>)
        requires
            old(self).wf(),
        ensures
            final(self).wf(),
            final(self).tokens@ == old(self).tokens@,
            old(self).pos <= final(self).pos,
            r is Ok ==> old(self).pos < final(self).pos,
            final(self).pos as int == spec_term(old(self).toks(), old(self).pos as int).1,
            pres_view(r) == spec_term(old(self).toks(), old(self).pos as int).0,
        decreases old(self).tokens@.len() - old(self).pos, 5int,
    {
        let ghost s = old(self).toks();
        let ghost p0 = old(self).pos as int;
        let mut expr: Box<Expr>;
        match self.factor() {
            Ok(e) => {
                proof {
                    assert(spec_term(s, p0) == spec_term_rest(s, e@, self.pos as int));
                }
                expr = e;
            },
            Err(pe) => {
                proof {
                    assert(spec_term(s, p0) == (Err::<ExprM, ParseErrM>(pe@), self.pos as int));
                }
                return Err(pe);
            },
        }
        loop
            invariant
                self.wf(),
                self.tokens@ == old(self).tokens@,
                s == old(self).toks(),
                p0 == old(self).pos as int,
                self.toks() == s,
                p0 < self.pos as int <= s.len(),
                spec_term(s, p0) == spec_term_rest(s, expr@, self.pos as int),
            decreases s.len() - self.pos,
        {
            let ghost i = self.pos as int;
            let kinds = vec![TokenKind::Minus, TokenKind::Plus];
            let ghost kv = kinds@;
            proof {
                assert(kv =~= seq![TokenKind::Minus, TokenKind::Plus]);
            }
            if self.tmatch(kinds) {
                proof {
                    assert(kv.contains(kind_of(s[i])));
                    let idx = choose|jj: int| 0 <= jj < kv.len() && kv[jj] == kind_of(s[i]);
                    assert(s[i] is Minus || s[i] is Plus);
                }
                let op = self.previous().clone();
                match self.factor() {
                    Ok(right) => {
                        let ghost j = self.pos as int;
                        let ghost joined = ExprM::Binary {
                            left: Box::new(expr@),
                            op: s[i],
                            right: Box::new(right@),
                        };
                        proof {
                            assert(s.len() == self.tokens@.len());
                            assert(i + 1 <= j <= s.len());
                            assert(spec_factor(s, i + 1) == (Ok::<ExprM, ParseErrM>(right@), j));
                            lemma_term_step(s, expr@, i, right@, j);
                            assert(spec_term_rest(s, expr@, i) == spec_term_rest(s, joined, j));
                        }
                        expr = Box::new(Expr::Binary { left: expr, op, right });
                        proof {
                            assert(expr@ == joined);
                        }
                    },
                    Err(pe) => {
                        proof {
                            assert(s.len() == self.tokens@.len());
                            assert(spec_factor(s, i + 1) == (Err::<ExprM, ParseErrM>(pe@), self.pos as int));
                            lemma_term_err(s, expr@, i, pe@, self.pos as int);
                            assert(spec_term_rest(s, expr@, i) == (
                                Err::<ExprM, ParseErrM>(pe@),
                                self.pos as int,
                            ));
                        }
                        return Err(pe);
                    },
                }
            } else {
                proof {
                    if i < s.len() {
                        if s[i] is Minus {
                            assert(kv[0] == kind_of(s[i]));
                            assert(kv.contains(kind_of(s[i])));
                        }
                        if s[i] is Plus {
                            assert(kv[1] == kind_of(s[i]));
                            assert(kv.contains(kind_of(s[i])));
                        }
                    }
                    assert(!(0 <= i < s.len() && (s[i] is Minus || s[i] is Plus)));
                    lemma_term_stop(s, expr@, i);
                    assert(spec_term_rest(s, expr@, i) == (Ok::<ExprM, ParseErrM>(expr@), i));
                }
                return Ok(expr);
            }
        }
    }

    /// Parses one factor expression.
    #[verifier::rlimit(50)]
    fn factor(&mut self) -> (r: Result<Box<Expr>, ParseError>)
        requires
            old(self).wf(),
        ensures
            final(self).wf(),
            final(self).tokens@ == old(self).tokens@,
            old(self).pos <= final(self).pos,
            r is Ok ==> old(self).pos < final(self).pos,
            final(self).pos as int == spec_factor(old(self).toks(), old(self).pos as int).1,
            pres_view(r) == spec_factor(old(self).toks(), old(self).pos as int).0,
        decreases old(self).tokens@.len() - old(self).pos, 3int,
    {
        let ghost s = old(self).toks();
        let ghost p0 = old(self).pos as int;
        let mut expr: Box<Expr>;
        match self.unary() {
            Ok(e) => {
                proof {
                    assert(spec_factor(s, p0) == spec_factor_rest(s, e@, self.pos as int));
                }
                expr = e;
            },
            Err(pe) => {
                proof {
                    assert(spec_factor(s, p0) == (Err::<ExprM, ParseErrM>(pe@), self.pos as int));
                }
                return Err(pe);
            },
        }
        loop
            invariant
                self.wf(),
                self.tokens@ == old(self).tokens@,
                s == old(self).toks(),
                p0 == old(self).pos as int,
                self.toks() == s,
                p0 < self.pos as int <= s.len(),
                spec_factor(s, p0) == spec_factor_rest(s, expr@, self.pos as int),
            decreases s.len() - self.pos,
        {
            let ghost i = self.pos as int;
            let kinds = vec![TokenKind::Div, TokenKind::Mult];
            let ghost kv = kinds@;
            proof {
                assert(kv =~= seq![TokenKind::Div, TokenKind::Mult]);
            }
            if self.tmatch(kinds) {
                proof {
                    assert(kv.contains(kind_of(s[i])));
                    let idx = choose|jj: int| 0 <= jj < kv.len() && kv[jj] == kind_of(s[i]);
                    assert(s[i] is Div || s[i] is Mult);
                }
                let op = self.previous().clone();
                match self.unary() {
                    Ok(right) => {
                        let ghost j = self.pos as int;
                        let ghost joined = ExprM::Binary {
                            left: Box::new(expr@),
                            op: s[i],
                            right: Box::new(right@),
                        };
                        proof {
                            assert(s.len() == self.tokens@.len());
                            assert(i + 1 <= j <= s.len());
                            assert(spec_unary(s, i + 1) == (Ok::<ExprM, ParseErrM>(right@), j));
                            lemma_factor_step(s, expr@, i, right@, j);
                            assert(spec_factor_rest(s, expr@, i) == spec_factor_rest(s, joined, j));
                        }
                        expr = Box::new(Expr::Binary { left: expr, op, right });
                        proof {
                            assert(expr@ == joined);
                        }
                    },
                    Err(pe) => {
                        proof {
                            assert(s.len() == self.tokens@.len());
                            assert(spec_unary(s, i + 1) == (Err::<ExprM, ParseErrM>(pe@), self.pos as int));
                            lemma_factor_err(s, expr@, i, pe@, self.pos as int);
                            assert(spec_factor_rest(s, expr@, i) == (
                                Err::<ExprM, ParseErrM>(pe@),
                                self.pos as int,
                            ));
                        }
                        return Err(pe);
                    },
                }
            } else {
                proof {
                    if i < s.len() {
                        if s[i] is Div {
                            assert(kv[0] == kind_of(s[i]));
                            assert(kv.contains(kind_of(s[i])));
                        }
                        if s[i] is Mult {
                            assert(kv[1] == kind_of(s[i]));
                            assert(kv.contains(kind_of(s[i])));
                        }
                    }
                    assert(!(0 <= i < s.len() && (s[i] is Div || s[i] is Mult)));
                    lemma_factor_stop(s, expr@, i);
                    assert(spec_factor_rest(s, expr@, i) == (Ok::<ExprM, ParseErrM>(expr@), i));
                }
                return Ok(expr);
            }
        }
    }

    /// Parses one unary expression.
    fn unary(&mut self) -> (r: Result<Box<Expr>, ParseError>)
        requires
            old(self).wf(),
        ensures
            final(self).wf(),
            final(self).tokens@ == old(self).tokens@,
            old(self).pos <= final(self).pos,
            r is Ok ==> old(self).pos < final(self).pos,
            final(self).pos as int == spec_unary(old(self).toks(), old(self).pos as int).1,
            pres_view(r) == spec_unary(old(self).toks(), old(self).pos as int).0,
        decreases old(self).tokens@.len() - old(self).pos, 1int,
    {
        if self.tmatch(vec![TokenKind::Bang, TokenKind::Minus]) {
            let op = self.previous().clone();
            match self.unary() {
                Ok(right) => Ok(Box::new(Expr::Unary { op, right })),
                Err(pe) => Err(pe),
            }
        } else {
            self.primary()
        }
    }

    /// Parses one primary expression.
    fn primary(&mut self) -> (r: Result<Box<Expr>, ParseError>)
        requires
            old(self).wf(),
        ensures
            final(self).wf(),
            final(self).tokens@ == old(self).tokens@,
            old(self).pos <= final(self).pos,
            r is Ok ==> old(self).pos < final(self).pos,
            final(self).pos as int == spec_primary(old(self).toks(), old(self).pos as int).1,
            pres_view(r) == spec_primary(old(self).toks(), old(self).pos as int).0,
        decreases old(self).tokens@.len() - old(self).pos, 0int,
    {
        let ghost s = old(self).toks();
        let ghost p0 = old(self).pos as int;
        if self.pos >= self.tokens.len() {
            return Err(ParseError { token: None, pos: self.pos });
        }
        let tk = self.tokens[self.pos].clone();
        proof {
            assert(s.len() == self.tokens@.len());
            assert(tk@ == s[p0]);
        }
        match tk {
            Token::String(st) => {
                proof {
                    assert(s[p0] == TokenM::String(st@));
                    assert(literal_view(Literal::String(st)) == LiteralM::String(st@));
                }
                self.advance();
                Ok(Box::new(Expr::Literal(Literal::String(st))))
            },
            Token::Number(n) => {
                proof {
                    assert(s[p0] == TokenM::Number(n));
                    assert(literal_view(Literal::Number(n)) == LiteralM::Number(n));
                }
                self.advance();
                Ok(Box::new(Expr::Literal(Literal::Number(n))))
            },
            Token::True => {
                proof {
                    assert(literal_view(Literal::True) == LiteralM::True);
                }
                self.advance();
                Ok(Box::new(Expr::Literal(Literal::True)))
            },
            Token::False => {
                proof {
                    assert(literal_view(Literal::False) == LiteralM::False);
                }
                self.advance();
                Ok(Box::new(Expr::Literal(Literal::False)))
            },
            Token::Nil => {
                proof {
                    assert(literal_view(Literal::Nil) == LiteralM::Nil);
                }
                self.advance();
                Ok(Box::new(Expr::Literal(Literal::Nil)))
            },
            Token::LParen => {
                proof {
                    assert(s[p0] is LParen);
                }
                self.advance();
                match self.expression() {
                    Ok(e) => {
                        let ghost j = self.pos as int;
                        proof {
                            assert(spec_expression(s, p0 + 1) == (Ok::<ExprM, ParseErrM>(e@), j));
                            assert(s.len() == self.tokens@.len());
                        }
                        match self.consume(TokenKind::RParen) {
                            Ok(_) => {
                                proof {
                                    assert(s[j] is RParen);
                                }
                                let ghost ev = e@;
                                let res = Box::new(Expr::Grouping(e));
                                proof {
                                    assert(res@ == ExprM::Grouping(Box::new(ev)));
                                }
                                Ok(res)
                            },
                            Err(pe) => Err(pe),
                        }
                    },
                    Err(pe) => Err(pe),
                }
            },
            _ => Err(ParseError { token: Some(tk), pos: self.pos }),
        }
    }
}

/// A failure of turning source text into an AST: the first lexing
/// failure, or the parse failure.
#[derive(Debug)]
pub enum AstError {
    Lexing(LexingError),
    Parsing(ParseError),
}

/// The mathematical shape of such a failure.
pub enum AstErrM {
    Lexing(LexingErrorM),
    Parsing(ParseErrM),
}

impl View for AstError {
    type V = AstErrM;

    open spec fn view(&self) -> AstErrM {
        match self {
            AstError::Lexing(e) => AstErrM::Lexing(e@),
            AstError::Parsing(e) => AstErrM::Parsing(e@),
        }
    }
}

/// The first failure among the lexed items.
pub open spec fn first_lex_error(items: Seq<Result<TokenM, LexingErrorM>>) -> Option<LexingErrorM>
    decreases items.len(),
{
    if items.len() == 0 {
        None
    } else {
        match items[0] {
            Err(e) => Some(e),
            Ok(_) => first_lex_error(items.drop_first()),
        }
    }
}

/// The tokens among the lexed items, in order.
pub open spec fn lex_tokens(items: Seq<Result<TokenM, LexingErrorM>>) -> Seq<TokenM>
    decreases items.len(),
{
    if items.len() == 0 {
        Seq::empty()
    } else {
        match items[0] {
            Ok(t) => seq![t] + lex_tokens(items.drop_first()),
            Err(_) => lex_tokens(items.drop_first()),
        }
    }
}

/// What producing an AST from the given source text yields: the tree of
/// its one top-level expression, or the first failure met.
pub open spec fn spec_produce_ast(code: Seq<char>) -> Result<ExprM, AstErrM> {
    let items = spec_tokens(code, 0);
    match first_lex_error(items) {
        Some(le) => Err(AstErrM::Lexing(le)),
        None => match spec_expression(lex_tokens(items), 0).0 {
            Ok(e) => Ok(e),
            Err(pe) => Err(AstErrM::Parsing(pe)),
        },
    }
}

/// Returns the AST representation of code: one tree per top-level
/// expression (exactly one, in the current grammar), or the first failure.
pub fn produce_ast(code: &str) -> (r: Result<Vec<Box<Expr>>, AstError>)
    ensures
        match (r, spec_produce_ast(code@)) {
            (Ok(v), Ok(e)) => v@.len() == 1 && v@[0]@ == e,
            (Err(ae), Err(aem)) => ae@ == aem,
            _ => false,
        },
{
    let items = tokenize(code);
    let ghost iv = items_view(items@);
    let mut toks: Vec<Token> = Vec::new();
    let n = items.len();
    let mut i: usize = 0;
    proof {
        assert(iv.skip(0) =~= iv);
        assert(tokens_view(toks@) =~= Seq::<TokenM>::empty());
        assert(tokens_view(toks@) + lex_tokens(iv) =~= lex_tokens(iv));
    }
    while i < n
        invariant
            n == items@.len(),
            iv == items_view(items@),
            iv == spec_tokens(code@, 0),
            i <= n,
            first_lex_error(iv) == first_lex_error(iv.skip(i as int)),
            lex_tokens(iv) == tokens_view(toks@) + lex_tokens(iv.skip(i as int)),
        decreases n - i,
    {
        proof {
            assert(iv.skip(i as int).drop_first() =~= iv.skip(i as int + 1));
            assert(iv.skip(i as int)[0] == iv[i as int]);
        }
        match &items[i] {
            Ok(t) => {
                let tc = t.clone();
                proof {
                    assert(iv[i as int] == Ok::<TokenM, LexingErrorM>(tc@));
                    assert(lex_tokens(iv.skip(i as int)) == seq![tc@] + lex_tokens(
                        iv.skip(i as int + 1),
                    ));
                }
                toks.push(tc);
                proof {
                    assert(tokens_view(toks@) =~= tokens_view(toks@.drop_last()).push(
                        toks@.last()@,
                    ));
                    assert(tokens_view(toks@) + lex_tokens(iv.skip(i as int + 1)) =~= lex_tokens(
                        iv,
                    ));
                }
            },
            Err(e) => {
                proof {
                    assert(iv[i as int] == Err::<TokenM, LexingErrorM>(e@));
                    assert(first_lex_error(iv) == Some(e@));
                }
                return Err(AstError::Lexing(e.clone()));
            },
        }
        i = i + 1;
    }
    proof {
        assert(iv.skip(n as int) =~= Seq::<Result<TokenM, LexingErrorM>>::empty());
        assert(first_lex_error(iv) is None);
        assert(lex_tokens(iv) =~= tokens_view(toks@));
    }
    let mut parser = Parser::new(toks);
    match parser.parse() {
        Ok(v) => Ok(v),
        Err(pe) => Err(AstError::Parsing(pe)),
    }
}

} // verus!
