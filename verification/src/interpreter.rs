//! Tree-walking interpretation: an AST evaluates directly to a runtime
//! value by post-order recursion, with no intermediate form.
//!
//! Number literals map to numbers, string literals to strings, keywords to
//! booleans and nil.  Unary minus negates a number; binary `+` and `-`
//! combine two numbers with IEEE-754 binary64 semantics.  Everything else
//! is a typed failure: no input makes evaluation panic.

use vstd::prelude::*;

use crate::lexer::{LexingError, LexingErrorM, Token, TokenM};
use crate::number::{add_bits, diff_bits, negate_bits, sub_bits, sum_bits, SIGN_MASK};
use crate::parser::{
    chain_expr, is_chain_tokens, lemma_chain_parse, literal_view, produce_ast, spec_expression,
    spec_produce_ast, AstErrM, AstError, Expr, ExprM, Literal, LiteralM, ParseErrM, ParseError,
};

verus! {

/// A runtime bool type.
#[derive(Debug, Clone, Copy, PartialEq, Eq, Structural)]
pub enum RuntimeBool {
    True,
    False,
}

/// A runtime value.
#[derive(Debug)]
pub enum RuntimeVal {
    String(String),
    /// A number, as the IEEE-754 binary64 bit pattern it is.
    Number(u64),
    Bool(RuntimeBool),
    Nil,
}

impl Clone for RuntimeVal {
    /// Cloning a runtime value yields an equal value.
    fn clone(&self) -> (res: Self)
        ensures
            res == *self,
    {
        match self {
            RuntimeVal::String(s) => RuntimeVal::String(s.clone()),
            RuntimeVal::Number(n) => RuntimeVal::Number(*n),
            RuntimeVal::Bool(b) => RuntimeVal::Bool(*b),
            RuntimeVal::Nil => RuntimeVal::Nil,
        }
    }
}

/// The mathematical shape of a runtime value.
pub enum RuntimeValM {
    String(Seq<char>),
    Number(u64),
    Bool(RuntimeBool),
    Nil,
}

impl View for RuntimeVal {
    type V = RuntimeValM;

    open spec fn view(&self) -> RuntimeValM {
        match self {
            RuntimeVal::String(s) => RuntimeValM::String(s@),
            RuntimeVal::Number(n) => RuntimeValM::Number(*n),
            RuntimeVal::Bool(b) => RuntimeValM::Bool(*b),
            RuntimeVal::Nil => RuntimeValM::Nil,
        }
    }
}

/// An error that can be returned from the interpreter.  Each failure
/// carries the operator and the offending value or values.
#[derive(Debug)]
pub enum InterpError {
    /// A literal holding a boxed expression reached evaluation: an internal
    /// invariant violation, since the parser never builds one.
    LiteralIsExpr,
    InvalidUnaryOperator(Token, RuntimeVal),
    UnaryOperatorOnNonNumber(Token),
    InvalidBinaryOperator(Token, RuntimeVal, RuntimeVal),
    BinaryOperatorOnNonNumber(Token, RuntimeVal, RuntimeVal),
}

impl Clone for InterpError {
    /// Cloning a failure yields an equal failure.
    fn clone(&self) -> (res: Self)
        ensures
            res == *self,
    {
        match self {
            InterpError::LiteralIsExpr => InterpError::LiteralIsExpr,
            InterpError::InvalidUnaryOperator(t, v) => InterpError::InvalidUnaryOperator(
                t.clone(),
                v.clone(),
            ),
            InterpError::UnaryOperatorOnNonNumber(t) => InterpError::UnaryOperatorOnNonNumber(
                t.clone(),
            ),
            InterpError::InvalidBinaryOperator(t, l, r) => InterpError::InvalidBinaryOperator(
                t.clone(),
                l.clone(),
                r.clone(),
            ),
            InterpError::BinaryOperatorOnNonNumber(t, l, r) => InterpError::BinaryOperatorOnNonNumber(
                t.clone(),
                l.clone(),
                r.clone(),
            ),
        }
    }
}

/// The mathematical shape of an interpreter failure.
pub enum InterpErrM {
    LiteralIsExpr,
    InvalidUnaryOperator(TokenM, RuntimeValM),
    UnaryOperatorOnNonNumber(TokenM),
    InvalidBinaryOperator(TokenM, RuntimeValM, RuntimeValM),
    BinaryOperatorOnNonNumber(TokenM, RuntimeValM, RuntimeValM),
}

impl View for InterpError {
    type V = InterpErrM;

    open spec fn view(&self) -> InterpErrM {
        match self {
            InterpError::LiteralIsExpr => InterpErrM::LiteralIsExpr,
            InterpError::InvalidUnaryOperator(t, v) => InterpErrM::InvalidUnaryOperator(t@, v@),
            InterpError::UnaryOperatorOnNonNumber(t) => InterpErrM::UnaryOperatorOnNonNumber(t@),
            InterpError::InvalidBinaryOperator(t, l, r) => InterpErrM::InvalidBinaryOperator(
                t@,
                l@,
                r@,
            ),
            InterpError::BinaryOperatorOnNonNumber(t, l, r) => InterpErrM::BinaryOperatorOnNonNumber(
                t@,
                l@,
                r@,
            ),
        }
    }
}

/// What evaluating an expression yields: its runtime value, or the first
/// typed failure of the post-order walk.
pub open spec fn spec_eval(e: ExprM) -> Result<RuntimeValM, InterpErrM>
    decreases e,
{
    match e {
        ExprM::Literal(l) => match l {
            LiteralM::String(s) => Ok(RuntimeValM::String(s)),
            LiteralM::Number(n) => Ok(RuntimeValM::Number(n)),
            LiteralM::Nil => Ok(RuntimeValM::Nil),
            LiteralM::Expr(_) => Err(InterpErrM::LiteralIsExpr),
            LiteralM::True => Ok(RuntimeValM::Bool(RuntimeBool::True)),
            LiteralM::False => Ok(RuntimeValM::Bool(RuntimeBool::False)),
        },
        ExprM::Unary { op, right } => match spec_eval(*right) {
            Err(e2) => Err(e2),
            Ok(rv) => if op is Minus {
                match rv {
                    RuntimeValM::Number(n) => Ok(RuntimeValM::Number(n ^ SIGN_MASK)),
                    _ => Err(InterpErrM::UnaryOperatorOnNonNumber(op)),
                }
            } else {
                Err(InterpErrM::InvalidUnaryOperator(op, rv))
            },
        },
        ExprM::Binary { left, op, right } => match spec_eval(*left) {
            Err(e2) => Err(e2),
            Ok(lv) => match spec_eval(*right) {
                Err(e2) => Err(e2),
                Ok(rv) => if op is Plus {
                    if lv is Number && rv is Number {
                        Ok(RuntimeValM::Number(sum_bits(lv->Number_0, rv->Number_0)))
                    } else {
                        Err(InterpErrM::BinaryOperatorOnNonNumber(op, lv, rv))
                    }
                } else if op is Minus {
                    if lv is Number && rv is Number {
                        Ok(RuntimeValM::Number(diff_bits(lv->Number_0, rv->Number_0)))
                    } else {
                        Err(InterpErrM::BinaryOperatorOnNonNumber(op, lv, rv))
                    }
                } else {
                    Err(InterpErrM::InvalidBinaryOperator(op, lv, rv))
                },
            },
        },
        ExprM::Grouping(g) => spec_eval(*g),
    }
}

/// The shape of one evaluation outcome.
pub open spec fn eval_res_view(r: Result<RuntimeVal, InterpError>) -> Result<
    RuntimeValM,
    InterpErrM,
> {
    match r {
        Ok(v) => Ok(v@),
        Err(e) => Err(e@),
    }
}

/// Interpreter that takes an AST and evaluates it.
pub struct Interpreter {
    /// The trees of the top-level expressions, one runtime value each.
    pub ast: Vec<Box<Expr>>,
}

impl Interpreter {
    /// Returns a new interpreter over the given AST.
    pub fn new(ast: Vec<Box<Expr>>) -> (s: Self)
        ensures
            s.ast@ == ast@,
    {
        Self { ast }
    }

    /// Evaluates every top-level expression, in order, yielding each one's
    /// value or failure.
    pub fn parse(self) -> (r: Vec<Result<RuntimeVal, InterpError>>)
        ensures
            r@.len() == self.ast@.len(),
            forall|k: int|
                0 <= k < r@.len() ==> eval_res_view(#[trigger] r@[k]) == spec_eval(self.ast@[k]@),
    {
        let mut runtime_vals: Vec<Result<RuntimeVal, InterpError>> = Vec::new();
        let n = self.ast.len();
        let mut i: usize = 0;
        while i < n
            invariant
                n == self.ast@.len(),
                i <= n,
                runtime_vals@.len() == i,
                forall|k: int|
                    0 <= k < i ==> eval_res_view(#[trigger] runtime_vals@[k]) == spec_eval(
                        self.ast@[k]@,
                    ),
            decreases n - i,
        {
            runtime_vals.push(Self::evaluate(&self.ast[i]));
            i = i + 1;
        }
        runtime_vals
    }

    /// Evaluates an Expr AST node to a runtime value or a typed failure.
    fn evaluate(expr: &Expr) -> (r: Result<RuntimeVal, InterpError>)
        ensures
            eval_res_view(r) == spec_eval(expr@),
        decreases *expr,
    {
        match expr {
            Expr::Literal(l) => {
                proof {
                    assert(expr@ == ExprM::Literal(literal_view(*l)));
                    assert(match *l {
                        Literal::Number(n) => literal_view(*l) == LiteralM::Number(n),
                        Literal::String(st) => literal_view(*l) == LiteralM::String(st@),
                        Literal::True => literal_view(*l) == LiteralM::True,
                        Literal::False => literal_view(*l) == LiteralM::False,
                        Literal::Nil => literal_view(*l) == LiteralM::Nil,
                        Literal::Expr(_) => literal_view(*l) is Expr,
                    });
                }
                match l {
                Literal::String(s) => Ok(RuntimeVal::String(s.clone())),
                Literal::Number(n) => Ok(RuntimeVal::Number(*n)),
                Literal::Nil => Ok(RuntimeVal::Nil),
                Literal::Expr(_) => Err(InterpError::LiteralIsExpr),
                Literal::True => Ok(RuntimeVal::Bool(RuntimeBool::True)),
                Literal::False => Ok(RuntimeVal::Bool(RuntimeBool::False)),
                }
            },
            Expr::Unary { op, right } => {
                proof {
                    assert(expr@ == (ExprM::Unary { op: op@, right: Box::new((**right)@) }));
                }
                let right_eval = match Self::evaluate(&**right) {
                    Ok(v) => v,
                    Err(e) => { return Err(e); },
                };
                match op {
                    Token::Minus => match right_eval {
                        RuntimeVal::Number(n) => Ok(RuntimeVal::Number(negate_bits(n))),
                        _ => Err(InterpError::UnaryOperatorOnNonNumber(op.clone())),
                    },
                    _ => Err(InterpError::InvalidUnaryOperator(op.clone(), right_eval)),
                }
            },
            Expr::Binary { left, op, right } => {
                proof {
                    assert(expr@ == (ExprM::Binary {
                        left: Box::new((**left)@),
                        op: op@,
                        right: Box::new((**right)@),
                    }));
                }
                let left_eval = match Self::evaluate(&**left) {
                    Ok(v) => v,
                    Err(e) => { return Err(e); },
                };
                let right_eval = match Self::evaluate(&**right) {
                    Ok(v) => v,
                    Err(e) => { return Err(e); },
                };
                match op {
                    Token::Plus => match (left_eval, right_eval) {
                        (RuntimeVal::Number(a), RuntimeVal::Number(b)) => Ok(
                            RuntimeVal::Number(add_bits(a, b)),
                        ),
                        (lv, rv) => Err(
                            InterpError::BinaryOperatorOnNonNumber(op.clone(), lv, rv),
                        ),
                    },
                    Token::Minus => match (left_eval, right_eval) {
                        (RuntimeVal::Number(a), RuntimeVal::Number(b)) => Ok(
                            RuntimeVal::Number(sub_bits(a, b)),
                        ),
                        (lv, rv) => Err(
                            InterpError::BinaryOperatorOnNonNumber(op.clone(), lv, rv),
                        ),
                    },
                    _ => Err(
                        InterpError::InvalidBinaryOperator(op.clone(), left_eval, right_eval),
                    ),
                }
            },
            Expr::Grouping(g) => {
                proof {
                    assert(expr@ == ExprM::Grouping(Box::new((**g)@)));
                }
                Self::evaluate(&**g)
            },
        }
    }
}

/// A failure of running a piece of source text end to end: the first
/// failure of whichever stage met one.
#[derive(Debug)]
pub enum RunError {
    Lexing(LexingError),
    Parsing(ParseError),
    Interp(InterpError),
}

/// The mathematical shape of such a failure.
pub enum RunErrM {
    Lexing(LexingErrorM),
    Parsing(ParseErrM),
    Interp(InterpErrM),
}

impl View for RunError {
    type V = RunErrM;

    open spec fn view(&self) -> RunErrM {
        match self {
            RunError::Lexing(e) => RunErrM::Lexing(e@),
            RunError::Parsing(e) => RunErrM::Parsing(e@),
            RunError::Interp(e) => RunErrM::Interp(e@),
        }
    }
}

/// The shape of a sequence of runtime values.
pub open spec fn vals_view(s: Seq<RuntimeVal>) -> Seq<RuntimeValM> {
    s.map_values(|v: RuntimeVal| v@)
}

/// What lexing, parsing and interpreting a piece of source text yields:
/// the values of its top-level expressions, in order, or the first failure.
pub open spec fn spec_interp_code(code: Seq<char>) -> Result<Seq<RuntimeValM>, RunErrM> {
    match spec_produce_ast(code) {
        Err(AstErrM::Lexing(le)) => Err(RunErrM::Lexing(le)),
        Err(AstErrM::Parsing(pe)) => Err(RunErrM::Parsing(pe)),
        Ok(e) => match spec_eval(e) {
            Ok(v) => Ok(seq![v]),
            Err(ie) => Err(RunErrM::Interp(ie)),
        },
    }
}

/// Takes a piece of code and lexes, parses and interprets it, yielding the
/// value of each top-level expression, or the first failure met.
pub fn interp_code(code: &str) -> (r: Result<Vec<RuntimeVal>, RunError>)
    ensures
        match (r, spec_interp_code(code@)) {
            (Ok(v), Ok(vm)) => vals_view(v@) == vm,
            (Err(e), Err(em)) => e@ == em,
            _ => false,
        },
{
    let ast = match produce_ast(code) {
        Ok(a) => a,
        Err(AstError::Lexing(le)) => {
            return Err(RunError::Lexing(le));
        },
        Err(AstError::Parsing(pe)) => {
            return Err(RunError::Parsing(pe));
        },
    };
    let interp = Interpreter::new(ast);
    // The grammar holds exactly one top-level expression per program.
    let results = interp.parse();
    match &results[0] {
        Ok(v) => {
            let mut vals: Vec<RuntimeVal> = Vec::new();
            vals.push(v.clone());
            proof {
                assert(vals_view(vals@) =~= seq![v@]);
            }
            Ok(vals)
        },
        Err(e) => Err(RunError::Interp(e.clone())),
    }
}

// ---------------------------------------------------------------------------
// Laws of evaluation
// ---------------------------------------------------------------------------
/// Unary negation is involutive over numbers: where an expression
/// evaluates to a number, wrapping it in two unary minuses evaluates to
/// the same number.
pub proof fn lemma_double_negation(e: ExprM)
    requires
        spec_eval(e) matches Ok(v) && v is Number,
    ensures
        spec_eval(
            ExprM::Unary {
                op: TokenM::Minus,
                right: Box::new(ExprM::Unary { op: TokenM::Minus, right: Box::new(e) }),
            },
        ) == spec_eval(e),
{
    reveal_with_fuel(spec_eval, 3);
    let n = spec_eval(e)->Ok_0->Number_0;
    assert((n ^ SIGN_MASK) ^ SIGN_MASK == n) by (bit_vector);
}

/// Parenthesized grouping is transparent: a grouped expression evaluates
/// to exactly the value of the expression inside it.
pub proof fn lemma_grouping_transparent(e: ExprM)
    ensures
        spec_eval(ExprM::Grouping(Box::new(e))) == spec_eval(e),
{
}

/// A `+` or `-` whose operands evaluate but are not both numbers fails
/// with `BinaryOperatorOnNonNumber`, carrying the operator and both
/// values; it never panics and never yields a value.
pub proof fn lemma_binary_type_error(
    l: ExprM,
    op: TokenM,
    r: ExprM,
    lv: RuntimeValM,
    rv: RuntimeValM,
)
    requires
        op is Plus || op is Minus,
        spec_eval(l) == Ok::<RuntimeValM, InterpErrM>(lv),
        spec_eval(r) == Ok::<RuntimeValM, InterpErrM>(rv),
        !(lv is Number && rv is Number),
    ensures
        spec_eval(ExprM::Binary { left: Box::new(l), op, right: Box::new(r) }) == Err::<
            RuntimeValM,
            InterpErrM,
        >(InterpErrM::BinaryOperatorOnNonNumber(op, lv, rv)),
{
}

/// The standard left-to-right combination of the same chain.
pub open spec fn chain_fold(b0: u64, rest: Seq<(bool, u64)>) -> u64
    decreases rest.len(),
{
    if rest.len() == 0 {
        b0
    } else {
        let acc = chain_fold(b0, rest.drop_last());
        if rest.last().0 {
            sum_bits(acc, rest.last().1)
        } else {
            diff_bits(acc, rest.last().1)
        }
    }
}

/// For every expression made of only `+`/`-` and numeric literals, shaped
/// left-associatively as the parser shapes it, interpreting yields the
/// standard left-to-right numeric result.
pub proof fn lemma_chain_eval(b0: u64, rest: Seq<(bool, u64)>)
    ensures
        spec_eval(chain_expr(b0, rest)) == Ok::<RuntimeValM, InterpErrM>(
            RuntimeValM::Number(chain_fold(b0, rest)),
        ),
    decreases rest.len(),
{
    if rest.len() > 0 {
        lemma_chain_eval(b0, rest.drop_last());
        assert(spec_eval(ExprM::Literal(LiteralM::Number(rest.last().1))) == Ok::<
            RuntimeValM,
            InterpErrM,
        >(RuntimeValM::Number(rest.last().1)));
    }
}

/// For every token sequence of only `+`/`-` operators and numeric
/// literals, parsing yields the left-associative chain and interpreting
/// that tree yields the standard left-to-right numeric result.
pub proof fn lemma_chain_interpretation(s: Seq<TokenM>, b0: u64, rest: Seq<(bool, u64)>)
    requires
        is_chain_tokens(s, b0, rest),
    ensures
        spec_expression(s, 0).0 == Ok::<ExprM, ParseErrM>(chain_expr(b0, rest)),
        spec_eval(chain_expr(b0, rest)) == Ok::<RuntimeValM, InterpErrM>(
            RuntimeValM::Number(chain_fold(b0, rest)),
        ),
{
    lemma_chain_parse(s, b0, rest);
    lemma_chain_eval(b0, rest);
}

} // verus!
