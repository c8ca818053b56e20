//! Bytecode compilation: an AST lowers to an ordered chunk sequence for
//! the register machine, with a constant table.
//!
//! Code for an expression leaves its value in a destination register and
//! may scratch the registers above it: a literal becomes a load-constant
//! chunk, unary minus negates in place, and a binary operator computes its
//! left side into the destination, its right side one register higher, and
//! combines the two.  With eight registers and no spill path, an
//! expression whose live registers would pass the eighth fails with
//! `RegisterExhausted` rather than alias two live values.

use vstd::prelude::*;

use crate::number::{diff_bits, sum_bits, SIGN_MASK};
use crate::interpreter::{spec_eval, vals_view, InterpErrM, RuntimeBool, RuntimeVal, RuntimeValM};
use crate::lexer::{Token, TokenM};
use crate::parser::{literal_view, Expr, ExprM, Literal, LiteralM};
use crate::vm::{chunk_views, lemma_run_concat, spec_nil_regs, spec_run, Chunk};

verus! {

/// A failure of compilation.
#[derive(Debug)]
pub enum CompileError {
    /// The expression needs more than the eight registers at once.
    RegisterExhausted,
    /// An operator the machine has no opcode for: anything but `+`, `-`
    /// and unary minus.
    UnsupportedOperator(Token),
    /// More literals than the one-byte constant index can name.
    ConstantPoolExhausted,
    /// A literal holding a boxed expression: an internal invariant
    /// violation, since the parser never builds one.
    LiteralIsExpr,
}

/// The mathematical shape of a compilation failure.
pub enum CompileErrM {
    RegisterExhausted,
    UnsupportedOperator(TokenM),
    ConstantPoolExhausted,
    LiteralIsExpr,
}

impl View for CompileError {
    type V = CompileErrM;

    open spec fn view(&self) -> CompileErrM {
        match self {
            CompileError::RegisterExhausted => CompileErrM::RegisterExhausted,
            CompileError::UnsupportedOperator(t) => CompileErrM::UnsupportedOperator(t@),
            CompileError::ConstantPoolExhausted => CompileErrM::ConstantPoolExhausted,
            CompileError::LiteralIsExpr => CompileErrM::LiteralIsExpr,
        }
    }
}

/// The runtime value a literal denotes in the constant table.
pub open spec fn spec_const_of(l: LiteralM) -> RuntimeValM {
    match l {
        LiteralM::Number(n) => RuntimeValM::Number(n),
        LiteralM::String(s) => RuntimeValM::String(s),
        LiteralM::True => RuntimeValM::Bool(RuntimeBool::True),
        LiteralM::False => RuntimeValM::Bool(RuntimeBool::False),
        LiteralM::Nil => RuntimeValM::Nil,
        LiteralM::Expr(_) => RuntimeValM::Nil,
    }
}

/// What emitting code for one expression into the given destination
/// register does to the chunk sequence and constant table, or the failure
/// it stops with.
pub open spec fn spec_emit(
    e: ExprM,
    dst: int,
    chunks: Seq<Seq<u8>>,
    consts: Seq<RuntimeValM>,
) -> Result<(Seq<Seq<u8>>, Seq<RuntimeValM>), CompileErrM>
    decreases e,
{
    if dst > 7 {
        Err(CompileErrM::RegisterExhausted)
    } else {
        match e {
            ExprM::Literal(l) => if l is Expr {
                Err(CompileErrM::LiteralIsExpr)
            } else if consts.len() >= 256 {
                Err(CompileErrM::ConstantPoolExhausted)
            } else {
                Ok(
                    (
                        chunks.push(seq![3u8, dst as u8, consts.len() as u8]),
                        consts.push(spec_const_of(l)),
                    ),
                )
            },
            ExprM::Grouping(g) => spec_emit(*g, dst, chunks, consts),
            ExprM::Unary { op, right } => if op is Minus {
                match spec_emit(*right, dst, chunks, consts) {
                    Ok((c2, k2)) => Ok((c2.push(seq![2u8, dst as u8, dst as u8]), k2)),
                    Err(err) => Err(err),
                }
            } else {
                Err(CompileErrM::UnsupportedOperator(op))
            },
            ExprM::Binary { left, op, right } => if op is Plus || op is Minus {
                match spec_emit(*left, dst, chunks, consts) {
                    Ok((c2, k2)) => match spec_emit(*right, dst + 1, c2, k2) {
                        Ok((c3, k3)) => Ok(
                            (
                                c3.push(
                                    seq![
                                        if op is Plus {
                                            0u8
                                        } else {
                                            1u8
                                        },
                                        dst as u8,
                                        (dst + 1) as u8,
                                    ],
                                ),
                                k3,
                            ),
                        ),
                        Err(err) => Err(err),
                    },
                    Err(err) => Err(err),
                }
            } else {
                Err(CompileErrM::UnsupportedOperator(op))
            },
        }
    }
}

/// What compiling the expressions from index `i` on does, each one into
/// register zero, growing one chunk sequence and one constant table.
pub open spec fn spec_compile_seq(
    asts: Seq<ExprM>,
    i: int,
    chunks: Seq<Seq<u8>>,
    consts: Seq<RuntimeValM>,
) -> Result<(Seq<Seq<u8>>, Seq<RuntimeValM>), CompileErrM>
    decreases asts.len() - i,
{
    if i < 0 || i >= asts.len() {
        Ok((chunks, consts))
    } else {
        match spec_emit(asts[i], 0, chunks, consts) {
            Ok((c2, k2)) => spec_compile_seq(asts, i + 1, c2, k2),
            Err(err) => Err(err),
        }
    }
}

/// The shape of an AST sequence.
pub open spec fn asts_view(s: Seq<Box<Expr>>) -> Seq<ExprM> {
    s.map_values(|e: Box<Expr>| e@)
}

/// What compiling a whole AST yields.
pub open spec fn spec_compile(asts: Seq<ExprM>) -> Result<
    (Seq<Seq<u8>>, Seq<RuntimeValM>),
    CompileErrM,
> {
    spec_compile_seq(asts, 0, Seq::empty(), Seq::empty())
}

/// A compiled program: the ordered instruction sequence and the constant
/// table its load-constant chunks index.
pub struct Program {
    pub chunks: Vec<Chunk>,
    pub constants: Vec<RuntimeVal>,
}

/// Compiler that takes an AST and lowers it to bytecode.
pub struct Compiler {
    /// The AST the compiler parses into bytecode.
    pub ast: Vec<Box<Expr>>,
}

/// The runtime value a literal denotes, as a value.
fn const_of(l: &Literal) -> (r: RuntimeVal)
    requires
        !(l is Expr),
    ensures
        r@ == spec_const_of(literal_view(*l)),
{
    match l {
        Literal::Number(n) => RuntimeVal::Number(*n),
        Literal::String(s) => RuntimeVal::String(s.clone()),
        Literal::True => RuntimeVal::Bool(RuntimeBool::True),
        Literal::False => RuntimeVal::Bool(RuntimeBool::False),
        Literal::Nil => RuntimeVal::Nil,
        Literal::Expr(_) => RuntimeVal::Nil,
    }
}

/// Emits the code computing `expr` into register `dst`, growing the chunk
/// sequence and the constant table.
fn emit(expr: &Expr, dst: u8, chunks: &mut Vec<Chunk>, constants: &mut Vec<RuntimeVal>) -> (r:
    Result<(), CompileError>)
    ensures
        match (r, spec_emit(expr@, dst as int, chunk_views(old(chunks)@), vals_view(
            old(constants)@,
        ))) {
            (Ok(_), Ok((c2, k2))) => chunk_views(final(chunks)@) == c2 && vals_view(
                final(constants)@,
            ) == k2,
            (Err(e), Err(em)) => e@ == em,
            _ => false,
        },
    decreases *expr,
{
    if dst > 7 {
        return Err(CompileError::RegisterExhausted);
    }
    match expr {
        Expr::Literal(l) => {
            proof {
                assert(expr@ == ExprM::Literal(literal_view(*l)));
            }
            if let Literal::Expr(_) = l {
                return Err(CompileError::LiteralIsExpr);
            }
            if constants.len() >= 256 {
                return Err(CompileError::ConstantPoolExhausted);
            }
            let idx = constants.len() as u8;
            let c = Chunk::new([3u8, dst, idx]);
            proof {
                assert(c.bytes@ =~= seq![3u8, dst, idx]);
            }
            chunks.push(c);
            constants.push(const_of(l));
            proof {
                assert(chunk_views(chunks@) =~= chunk_views(chunks@.drop_last()).push(
                    chunks@.last().bytes@,
                ));
                assert(vals_view(constants@) =~= vals_view(constants@.drop_last()).push(
                    constants@.last()@,
                ));
            }
            Ok(())
        },
        Expr::Grouping(g) => {
            proof {
                assert(expr@ == ExprM::Grouping(Box::new((**g)@)));
            }
            emit(&**g, dst, chunks, constants)
        },
        Expr::Unary { op, right } => {
            proof {
                assert(expr@ == (ExprM::Unary { op: op@, right: Box::new((**right)@) }));
            }
            match op {
                Token::Minus => {
                    match emit(&**right, dst, chunks, constants) {
                        Ok(_) => {},
                        Err(e) => {
                            return Err(e);
                        },
                    }
                    let c = Chunk::new([2u8, dst, dst]);
                    proof {
                        assert(c.bytes@ =~= seq![2u8, dst, dst]);
                    }
                    chunks.push(c);
                    proof {
                        assert(chunk_views(chunks@) =~= chunk_views(chunks@.drop_last()).push(
                            chunks@.last().bytes@,
                        ));
                    }
                    Ok(())
                },
                _ => Err(CompileError::UnsupportedOperator(op.clone())),
            }
        },
        Expr::Binary { left, op, right } => {
            proof {
                assert(expr@ == (ExprM::Binary {
                    left: Box::new((**left)@),
                    op: op@,
                    right: Box::new((**right)@),
                }));
            }
            let opb: u8 = match op {
                Token::Plus => 0,
                Token::Minus => 1,
                _ => {
                    return Err(CompileError::UnsupportedOperator(op.clone()));
                },
            };
            match emit(&**left, dst, chunks, constants) {
                Ok(_) => {},
                Err(e) => {
                    return Err(e);
                },
            }
            match emit(&**right, dst + 1, chunks, constants) {
                Ok(_) => {},
                Err(e) => {
                    return Err(e);
                },
            }
            let c = Chunk::new([opb, dst, dst + 1]);
            proof {
                assert(c.bytes@ =~= seq![opb, dst, (dst + 1) as u8]);
            }
            chunks.push(c);
            proof {
                assert(chunk_views(chunks@) =~= chunk_views(chunks@.drop_last()).push(
                    chunks@.last().bytes@,
                ));
            }
            Ok(())
        },
    }
}

impl Compiler {
    /// Returns a new compiler using the given AST.
    pub fn new(ast: Vec<Box<Expr>>) -> (s: Self)
        ensures
            s.ast@ == ast@,
    {
        Self { ast }
    }

    /// Parses the AST into a sequence of VM chunks with its constant
    /// table: each top-level expression compiles to code leaving its value
    /// in register zero.
    pub fn parse(&mut self) -> (r: Result<Program, CompileError>)
        ensures
            final(self).ast@ == old(self).ast@,
            match (r, spec_compile(asts_view(old(self).ast@))) {
                (Ok(p), Ok((c2, k2))) => chunk_views(p.chunks@) == c2 && vals_view(p.constants@)
                    == k2,
                (Err(e), Err(em)) => e@ == em,
                _ => false,
            },
    {
        let ghost av = asts_view(self.ast@);
        let mut chunks: Vec<Chunk> = Vec::new();
        let mut constants: Vec<RuntimeVal> = Vec::new();
        let n = self.ast.len();
        let mut i: usize = 0;
        proof {
            assert(chunk_views(chunks@) =~= Seq::<Seq<u8>>::empty());
            assert(vals_view(constants@) =~= Seq::<RuntimeValM>::empty());
        }
        while i < n
            invariant
                n == self.ast@.len(),
                av == asts_view(self.ast@),
                self.ast@ == old(self).ast@,
                i <= n,
                spec_compile(av) == spec_compile_seq(
                    av,
                    i as int,
                    chunk_views(chunks@),
                    vals_view(constants@),
                ),
            decreases n - i,
        {
            proof {
                assert(av[i as int] == self.ast@[i as int]@);
            }
            match emit(&self.ast[i], 0, &mut chunks, &mut constants) {
                Ok(_) => {},
                Err(e) => {
                    return Err(e);
                },
            }
            i = i + 1;
        }
        Ok(Program { chunks, constants })
    }
}

// ---------------------------------------------------------------------------
// Laws of compilation
// ---------------------------------------------------------------------------
/// How many registers evaluating an expression needs under this scheme:
/// one for its own value, and, at a binary node, one more to keep the left
/// value live while the right side computes.
pub open spec fn reg_need(e: ExprM) -> int
    decreases e,
{
    match e {
        ExprM::Literal(_) => 1,
        ExprM::Grouping(g) => reg_need(*g),
        ExprM::Unary { right, .. } => reg_need(*right),
        ExprM::Binary { left, right, .. } => {
            let l = reg_need(*left);
            let r = 1 + reg_need(*right);
            if l >= r {
                l
            } else {
                r
            }
        },
    }
}

/// Whether every operator of the expression has an opcode, and no literal
/// holds a boxed expression.
pub open spec fn compilable_ops(e: ExprM) -> bool
    decreases e,
{
    match e {
        ExprM::Literal(l) => !(l is Expr),
        ExprM::Grouping(g) => compilable_ops(*g),
        ExprM::Unary { op, right } => op is Minus && compilable_ops(*right),
        ExprM::Binary { left, op, right } => (op is Plus || op is Minus) && compilable_ops(*left)
            && compilable_ops(*right),
    }
}

/// How many literals the expression holds: one constant-table entry each.
pub open spec fn literal_count(e: ExprM) -> int
    decreases e,
{
    match e {
        ExprM::Literal(_) => 1,
        ExprM::Grouping(g) => literal_count(*g),
        ExprM::Unary { right, .. } => literal_count(*right),
        ExprM::Binary { left, right, .. } => literal_count(*left) + literal_count(*right),
    }
}

/// Emitting succeeds exactly where the expression's register need fits
/// the file from its destination on, every operator has an opcode, and
/// the constant table stays within one-byte indices; and where only the
/// register need fails it, the failure is `RegisterExhausted`, never a
/// silently aliased register.
pub proof fn lemma_emit_success(e: ExprM, dst: int, chunks: Seq<Seq<u8>>, consts: Seq<RuntimeValM>)
    requires
        0 <= dst,
    ensures
        spec_emit(e, dst, chunks, consts) is Ok <==> (dst + reg_need(e) <= 8 && compilable_ops(e)
            && consts.len() + literal_count(e) <= 256),
        spec_emit(e, dst, chunks, consts) matches Ok((c2, k2)) ==> k2.len() == consts.len()
            + literal_count(e),
        (compilable_ops(e) && consts.len() + literal_count(e) <= 256 && dst + reg_need(e) > 8)
            ==> spec_emit(e, dst, chunks, consts) == Err::<
            (Seq<Seq<u8>>, Seq<RuntimeValM>),
            CompileErrM,
        >(CompileErrM::RegisterExhausted),
    decreases e,
{
    lemma_literal_count_nonneg(e);
    if dst > 7 {
    } else {
        match e {
            ExprM::Literal(_) => {},
            ExprM::Grouping(g) => {
                lemma_emit_success(*g, dst, chunks, consts);
            },
            ExprM::Unary { op, right } => {
                if op is Minus {
                    lemma_emit_success(*right, dst, chunks, consts);
                }
            },
            ExprM::Binary { left, op, right } => {
                lemma_literal_count_nonneg(*left);
                lemma_literal_count_nonneg(*right);
                if op is Plus || op is Minus {
                    lemma_emit_success(*left, dst, chunks, consts);
                    match spec_emit(*left, dst, chunks, consts) {
                        Ok((c2, k2)) => {
                            lemma_emit_success(*right, dst + 1, c2, k2);
                        },
                        Err(_) => {},
                    }
                }
            },
        }
    }
}

/// Compiling a one-expression program succeeds exactly where the
/// expression's register need stays within the eight registers, every
/// operator has an opcode, and its literals fit the constant table; where
/// only the register need fails it, the failure is `RegisterExhausted`.
pub proof fn lemma_compile_single(e: ExprM)
    ensures
        spec_compile(seq![e]) is Ok <==> (reg_need(e) <= 8 && compilable_ops(e) && literal_count(
            e,
        ) <= 256),
        (compilable_ops(e) && literal_count(e) <= 256 && reg_need(e) > 8) ==> spec_compile(
            seq![e],
        ) == Err::<(Seq<Seq<u8>>, Seq<RuntimeValM>), CompileErrM>(CompileErrM::RegisterExhausted),
{
    lemma_emit_success(e, 0, Seq::empty(), Seq::empty());
    match spec_emit(e, 0, Seq::empty(), Seq::empty()) {
        Ok((c2, k2)) => {
            assert(spec_compile_seq(seq![e], 1, c2, k2) == Ok::<
                (Seq<Seq<u8>>, Seq<RuntimeValM>),
                CompileErrM,
            >((c2, k2)));
        },
        Err(_) => {},
    }
}

/// A literal count is at least zero (and at least one).
proof fn lemma_literal_count_nonneg(e: ExprM)
    ensures
        literal_count(e) >= 1,
        reg_need(e) >= 1,
    decreases e,
{
    match e {
        ExprM::Literal(_) => {},
        ExprM::Grouping(g) => {
            lemma_literal_count_nonneg(*g);
        },
        ExprM::Unary { right, .. } => {
            lemma_literal_count_nonneg(*right);
        },
        ExprM::Binary { left, right, .. } => {
            lemma_literal_count_nonneg(*left);
            lemma_literal_count_nonneg(*right);
        },
    }
}

/// Emitting only appends: the grown chunk sequence and constant table
/// keep what they started with as a prefix.
proof fn lemma_emit_extends(e: ExprM, dst: int, chunks0: Seq<Seq<u8>>, consts0: Seq<RuntimeValM>)
    requires
        spec_emit(e, dst, chunks0, consts0) is Ok,
    ensures
        ({
            let (c1, k1) = spec_emit(e, dst, chunks0, consts0)->Ok_0;
            &&& c1.len() >= chunks0.len()
            &&& c1.take(chunks0.len() as int) == chunks0
            &&& k1.len() >= consts0.len()
            &&& k1.take(consts0.len() as int) == consts0
        }),
    decreases e,
{
    let (c1, k1) = spec_emit(e, dst, chunks0, consts0)->Ok_0;
    match e {
        ExprM::Literal(_) => {
            assert(c1.take(chunks0.len() as int) =~= chunks0);
            assert(k1.take(consts0.len() as int) =~= consts0);
        },
        ExprM::Grouping(g) => {
            lemma_emit_extends(*g, dst, chunks0, consts0);
        },
        ExprM::Unary { op, right } => {
            lemma_emit_extends(*right, dst, chunks0, consts0);
            let (c2, k2) = spec_emit(*right, dst, chunks0, consts0)->Ok_0;
            assert(c1.take(chunks0.len() as int) =~= c2.take(chunks0.len() as int));
        },
        ExprM::Binary { left, op, right } => {
            lemma_emit_extends(*left, dst, chunks0, consts0);
            let (cl, kl) = spec_emit(*left, dst, chunks0, consts0)->Ok_0;
            lemma_emit_extends(*right, dst + 1, cl, kl);
            let (cr, kr) = spec_emit(*right, dst + 1, cl, kl)->Ok_0;
            assert(cr.take(chunks0.len() as int) =~= chunks0);
            assert(kr.take(consts0.len() as int) =~= consts0);
            assert(c1.take(chunks0.len() as int) =~= cr.take(chunks0.len() as int));
        },
    }
}

/// Emitted code computes the interpreted value: where compilation of an
/// expression succeeds and its evaluation yields a value, running exactly
/// the emitted chunks, against any extension of the grown constant table
/// and from any full register file, halts without failure, leaves that
/// value in the destination register, and leaves every register below the
/// destination untouched.
pub proof fn lemma_emit_correct(
    e: ExprM,
    dst: int,
    chunks0: Seq<Seq<u8>>,
    consts0: Seq<RuntimeValM>,
    tail: Seq<RuntimeValM>,
    regs: Seq<RuntimeValM>,
    v: RuntimeValM,
)
    requires
        spec_emit(e, dst, chunks0, consts0) is Ok,
        spec_eval(e) == Ok::<RuntimeValM, InterpErrM>(v),
        regs.len() == 8,
        0 <= dst <= 7,
    ensures
        ({
            let (c1, k1) = spec_emit(e, dst, chunks0, consts0)->Ok_0;
            let (err, regs2) = spec_run(c1.skip(chunks0.len() as int), k1 + tail, regs);
            &&& err is None
            &&& regs2.len() == 8
            &&& regs2[dst] == v
            &&& forall|k: int| 0 <= k < dst ==> regs2[k] == regs[k]
        }),
    decreases e,
{
    let n0 = chunks0.len() as int;
    let (c1, k1) = spec_emit(e, dst, chunks0, consts0)->Ok_0;
    lemma_emit_extends(e, dst, chunks0, consts0);
    match e {
        ExprM::Literal(l) => {
            let ch = seq![3u8, dst as u8, consts0.len() as u8];
            assert(c1.skip(n0) =~= seq![ch]);
            assert((k1 + tail)[consts0.len() as int] == spec_const_of(l));
            assert(v == spec_const_of(l));
            let regs2 = regs.update(dst, v);
            assert(spec_run(c1.skip(n0), k1 + tail, regs) == spec_run(
                seq![ch].drop_first(),
                k1 + tail,
                regs2,
            ));
            assert(seq![ch].drop_first() =~= Seq::<Seq<u8>>::empty());
        },
        ExprM::Grouping(g) => {
            lemma_emit_correct(*g, dst, chunks0, consts0, tail, regs, v);
        },
        ExprM::Unary { op, right } => {
            let rv = spec_eval(*right)->Ok_0;
            let x = rv->Number_0;
            lemma_emit_correct(*right, dst, chunks0, consts0, tail, regs, rv);
            let (c2, k2) = spec_emit(*right, dst, chunks0, consts0)->Ok_0;
            lemma_emit_extends(*right, dst, chunks0, consts0);
            let negch = seq![2u8, dst as u8, dst as u8];
            assert(c1.skip(n0) =~= c2.skip(n0) + seq![negch]);
            lemma_run_concat(c2.skip(n0), seq![negch], k1 + tail, regs);
            let r2 = spec_run(c2.skip(n0), k1 + tail, regs).1;
            assert(r2[dst] == RuntimeValM::Number(x));
            let r3 = r2.update(dst, RuntimeValM::Number(x ^ SIGN_MASK));
            assert(spec_run(seq![negch], k1 + tail, r2) == spec_run(
                seq![negch].drop_first(),
                k1 + tail,
                r3,
            ));
            assert(seq![negch].drop_first() =~= Seq::<Seq<u8>>::empty());
            assert(v == RuntimeValM::Number(x ^ SIGN_MASK));
        },
        ExprM::Binary { left, op, right } => {
            let lv = spec_eval(*left)->Ok_0;
            let rv = spec_eval(*right)->Ok_0;
            let x = lv->Number_0;
            let y = rv->Number_0;
            let (cl, kl) = spec_emit(*left, dst, chunks0, consts0)->Ok_0;
            let (cr, kr) = spec_emit(*right, dst + 1, cl, kl)->Ok_0;
            lemma_emit_extends(*left, dst, chunks0, consts0);
            lemma_emit_extends(*right, dst + 1, cl, kl);
            // The right side's register fits too, else its emit had failed.
            assert(dst + 1 <= 7);
            // The left side's code runs against the final table.
            let tail_l = kr.skip(kl.len() as int) + tail;
            assert(kl + tail_l =~= kr + tail);
            lemma_emit_correct(*left, dst, chunks0, consts0, tail_l, regs, lv);
            let rl = spec_run(cl.skip(n0), kr + tail, regs).1;
            lemma_emit_correct(*right, dst + 1, cl, kl, tail, rl, rv);
            let rr = spec_run(cr.skip(cl.len() as int), kr + tail, rl).1;
            assert(rr[dst] == rl[dst]);
            let opb: u8 = if op is Plus {
                0u8
            } else {
                1u8
            };
            let opch = seq![opb, dst as u8, (dst + 1) as u8];
            let part_a = cl.skip(n0);
            let part_b = cr.skip(cl.len() as int);
            assert(cr.skip(n0) =~= part_a + part_b);
            assert(c1.skip(n0) =~= (part_a + part_b).push(opch));
            assert((part_a + part_b).push(opch) =~= part_a + (part_b + seq![opch]));
            lemma_run_concat(part_a, part_b + seq![opch], kr + tail, regs);
            lemma_run_concat(part_b, seq![opch], kr + tail, rl);
            let z = if op is Plus {
                sum_bits(x, y)
            } else {
                diff_bits(x, y)
            };
            let r3 = rr.update(dst, RuntimeValM::Number(z));
            assert(spec_run(seq![opch], kr + tail, rr) == spec_run(
                seq![opch].drop_first(),
                kr + tail,
                r3,
            ));
            assert(seq![opch].drop_first() =~= Seq::<Seq<u8>>::empty());
            assert(v == RuntimeValM::Number(z));
        },
    }
}

/// The two execution paths agree: where a one-expression program compiles
/// and the tree-walking interpreter yields a value for it, the machine
/// runs the compiled chunks without failure and halts with that value in
/// register zero.
pub proof fn lemma_compiled_agrees_with_interpreter(e: ExprM, v: RuntimeValM)
    requires
        spec_compile(seq![e]) is Ok,
        spec_eval(e) == Ok::<RuntimeValM, InterpErrM>(v),
    ensures
        ({
            let (chunks, consts) = spec_compile(seq![e])->Ok_0;
            let (err, regs2) = spec_run(chunks, consts, spec_nil_regs());
            err is None && regs2[0] == v
        }),
{
    let r0 = spec_emit(e, 0, Seq::empty(), Seq::empty());
    assert(r0 is Ok);
    let (c, k) = r0->Ok_0;
    assert(spec_compile_seq(seq![e], 1, c, k) == Ok::<
        (Seq<Seq<u8>>, Seq<RuntimeValM>),
        CompileErrM,
    >((c, k)));
    lemma_emit_correct(e, 0, Seq::empty(), Seq::empty(), Seq::empty(), spec_nil_regs(), v);
    assert(c.skip(0) =~= c);
    assert(k + Seq::<RuntimeValM>::empty() =~= k);
}

} // verus!
