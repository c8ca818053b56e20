//! The bytecode virtual machine: a fixed instruction sequence over a bank
//! of eight registers.
//!
//! Each chunk is one 3-byte instruction: an opcode byte and two operand
//! bytes.  The first operand names the destination register, which is also
//! the left operand; the second names the source register, except for the
//! load-constant instruction, where it indexes the constant table.  Control
//! flow is strictly linear: the machine executes the chunks in order and
//! halts after the last one.

use vstd::prelude::*;
use vstd::string::StringExecFns;

use crate::interpreter::{vals_view, RuntimeVal, RuntimeValM};
use crate::number::{add_bits, diff_bits, negate_bits, sub_bits, sum_bits, SIGN_MASK};

verus! {

/// An operation code for the VM.
///
/// Bytecode example: `Add [reg_name] [reg_name]`
#[derive(Debug, Clone, Copy, PartialEq, Eq, Structural)]
pub enum OpCode {
    /// Add the source register into the destination register.
    Add,
    /// Subtract the source register from the destination register.
    Sub,
    /// Negate the destination register; the second operand is unused.
    Neg,
    /// Copy the constant-table entry named by the second operand into the
    /// destination register.
    LoadConst,
}

/// The byte encoding an opcode.
pub open spec fn opcode_byte(op: OpCode) -> u8 {
    match op {
        OpCode::Add => 0,
        OpCode::Sub => 1,
        OpCode::Neg => 2,
        OpCode::LoadConst => 3,
    }
}

impl From<OpCode> for u8 {
    fn from(op: OpCode) -> (b: u8)
        ensures
            b == opcode_byte(op),
    {
        match op {
            OpCode::Add => 0,
            OpCode::Sub => 1,
            OpCode::Neg => 2,
            OpCode::LoadConst => 3,
        }
    }
}

impl vstd::std_specs::convert::FromSpecImpl<OpCode> for u8 {
    open spec fn obeys_from_spec() -> bool {
        true
    }

    open spec fn from_spec(op: OpCode) -> u8 {
        opcode_byte(op)
    }
}

/// A register for the VM.
///
/// Bytecode example: `Mov [register] [operand_one]`
#[derive(Debug, Clone, Copy, PartialEq, Eq, Structural)]
pub enum Register {
    R0,
    R1,
    R2,
    R3,
    R4,
    R5,
    R6,
    R7,
}

/// The byte naming a register.
pub open spec fn register_byte(r: Register) -> u8 {
    match r {
        Register::R0 => 0,
        Register::R1 => 1,
        Register::R2 => 2,
        Register::R3 => 3,
        Register::R4 => 4,
        Register::R5 => 5,
        Register::R6 => 6,
        Register::R7 => 7,
    }
}

impl From<Register> for u8 {
    fn from(r: Register) -> (b: u8)
        ensures
            b == register_byte(r),
    {
        match r {
            Register::R0 => 0,
            Register::R1 => 1,
            Register::R2 => 2,
            Register::R3 => 3,
            Register::R4 => 4,
            Register::R5 => 5,
            Register::R6 => 6,
            Register::R7 => 7,
        }
    }
}

impl vstd::std_specs::convert::FromSpecImpl<Register> for u8 {
    open spec fn obeys_from_spec() -> bool {
        true
    }

    open spec fn from_spec(r: Register) -> u8 {
        register_byte(r)
    }
}

/// The register name a raw operand byte denotes: `R0` to `R7`, or empty
/// for a byte outside the register file.
pub open spec fn spec_operand_name(b: u8) -> Seq<char> {
    if b == 0 {
        "R0"@
    } else if b == 1 {
        "R1"@
    } else if b == 2 {
        "R2"@
    } else if b == 3 {
        "R3"@
    } else if b == 4 {
        "R4"@
    } else if b == 5 {
        "R5"@
    } else if b == 6 {
        "R6"@
    } else if b == 7 {
        "R7"@
    } else {
        ""@
    }
}

/// The mnemonic a raw opcode byte denotes, or empty for an unknown byte.
pub open spec fn spec_mnemonic(b: u8) -> Seq<char> {
    if b == 0 {
        "Add"@
    } else if b == 1 {
        "Sub"@
    } else if b == 2 {
        "Neg"@
    } else if b == 3 {
        "LoadConst"@
    } else {
        ""@
    }
}

/// The text line of one chunk: the mnemonic and the two operand names,
/// space-separated, purely from the raw bytes.
pub open spec fn spec_disassembly(bytes: Seq<u8>) -> Seq<char> {
    spec_mnemonic(bytes[0]) + " "@ + spec_operand_name(bytes[1]) + " "@ + spec_operand_name(
        bytes[2],
    )
}

/// A chunk that the VM can read.
#[derive(Debug)]
pub struct Chunk {
    /// Each VM instruction is 3 bytes long: one byte for the opcode, two
    /// bytes for the operands.
    pub bytes: [u8; 3],
}

impl Chunk {
    /// Create new chunk from bytes.
    pub fn new(bytes: [u8; 3]) -> (c: Self)
        ensures
            c.bytes@ == bytes@,
    {
        Self { bytes }
    }

    /// Parses an operand into a string.  Operand index `0` is one index
    /// after the opcode.  A byte outside the register file renders empty.
    pub fn parse_operand(&self, operand_index: usize) -> (r: &'static str)
        requires
            operand_index < 2,
        ensures
            r@ == spec_operand_name(self.bytes@[operand_index as int + 1]),
    {
        let b = self.bytes[operand_index + 1];
        if b == 0 {
            "R0"
        } else if b == 1 {
            "R1"
        } else if b == 2 {
            "R2"
        } else if b == 3 {
            "R3"
        } else if b == 4 {
            "R4"
        } else if b == 5 {
            "R5"
        } else if b == 6 {
            "R6"
        } else if b == 7 {
            "R7"
        } else {
            ""
        }
    }

    /// Returns a representation of this chunk as plain text, such as
    /// `Add R1 R2`.
    pub fn dissasemble(&self) -> (r: String)
        ensures
            r@ == spec_disassembly(self.bytes@),
    {
        let b = self.bytes[0];
        let opcode_str = if b == 0 {
            "Add"
        } else if b == 1 {
            "Sub"
        } else if b == 2 {
            "Neg"
        } else if b == 3 {
            "LoadConst"
        } else {
            ""
        };
        let mut out: String = opcode_str.to_owned();
        out.append(" ");
        out.append(self.parse_operand(0));
        out.append(" ");
        out.append(self.parse_operand(1));
        out
    }
}

/// A failure of executing a chunk.
#[derive(Debug, Clone, Copy, PartialEq, Eq, Structural)]
pub enum ExecError {
    /// The opcode byte names no instruction.
    UnknownOpcode,
    /// A register operand byte lies outside the file of eight, or a
    /// constant index lies outside the table.
    OperandOutOfRange,
    /// Arithmetic met a register that does not hold a number.
    TypeMismatch,
}

/// The shape of a chunk sequence: each chunk as its raw bytes.
pub open spec fn chunk_views(chunks: Seq<Chunk>) -> Seq<Seq<u8>> {
    chunks.map_values(|c: Chunk| c.bytes@)
}

/// One instruction's effect on the register file: the updated registers,
/// or the failure it stops with.
pub open spec fn spec_step(
    bytes: Seq<u8>,
    consts: Seq<RuntimeValM>,
    regs: Seq<RuntimeValM>,
) -> Result<Seq<RuntimeValM>, ExecError> {
    let op = bytes[0];
    let a = bytes[1];
    let b = bytes[2];
    if op == 0 || op == 1 {
        if a >= 8 || b >= 8 {
            Err(ExecError::OperandOutOfRange)
        } else if regs[a as int] is Number && regs[b as int] is Number {
            let x = regs[a as int]->Number_0;
            let y = regs[b as int]->Number_0;
            let v = if op == 0 {
                sum_bits(x, y)
            } else {
                diff_bits(x, y)
            };
            Ok(regs.update(a as int, RuntimeValM::Number(v)))
        } else {
            Err(ExecError::TypeMismatch)
        }
    } else if op == 2 {
        if a >= 8 {
            Err(ExecError::OperandOutOfRange)
        } else if regs[a as int] is Number {
            Ok(regs.update(a as int, RuntimeValM::Number(regs[a as int]->Number_0 ^ SIGN_MASK)))
        } else {
            Err(ExecError::TypeMismatch)
        }
    } else if op == 3 {
        if a >= 8 || b as int >= consts.len() {
            Err(ExecError::OperandOutOfRange)
        } else {
            Ok(regs.update(a as int, consts[b as int]))
        }
    } else {
        Err(ExecError::UnknownOpcode)
    }
}

/// Running a chunk sequence from the given register state: the failure met
/// first, if any, and the registers as they stand when the machine halts.
pub open spec fn spec_run(
    chunks: Seq<Seq<u8>>,
    consts: Seq<RuntimeValM>,
    regs: Seq<RuntimeValM>,
) -> (Option<ExecError>, Seq<RuntimeValM>)
    decreases chunks.len(),
{
    if chunks.len() == 0 {
        (None, regs)
    } else {
        match spec_step(chunks[0], consts, regs) {
            Ok(regs2) => spec_run(chunks.drop_first(), consts, regs2),
            Err(e) => (Some(e), regs),
        }
    }
}

/// Running two chunk sequences in a row is running the first, then the
/// second from the registers the first left behind; a failure in the
/// first stops the whole run there.
pub proof fn lemma_run_concat(
    c1: Seq<Seq<u8>>,
    c2: Seq<Seq<u8>>,
    consts: Seq<RuntimeValM>,
    regs: Seq<RuntimeValM>,
)
    ensures
        ({
            let (e1, r1) = spec_run(c1, consts, regs);
            spec_run(c1 + c2, consts, regs) == (match e1 {
                None => spec_run(c2, consts, r1),
                Some(err) => (Some(err), r1),
            })
        }),
    decreases c1.len(),
{
    if c1.len() == 0 {
        assert(c1 + c2 =~= c2);
    } else {
        assert((c1 + c2)[0] == c1[0]);
        match spec_step(c1[0], consts, regs) {
            Ok(regs2) => {
                assert((c1 + c2).drop_first() =~= c1.drop_first() + c2);
                lemma_run_concat(c1.drop_first(), c2, consts, regs2);
            },
            Err(_) => {
                assert((c1 + c2).len() > 0);
            },
        }
    }
}

/// The register file a fresh machine starts with: eight nil slots.
pub open spec fn spec_nil_regs() -> Seq<RuntimeValM> {
    Seq::new(8, |i: int| RuntimeValM::Nil)
}

/// The VM that performs actions based on given bytecode chunks.
pub struct VM {
    /// The instruction sequence, executed strictly in order.
    pub chunks: Vec<Chunk>,
    /// The constant table that load-constant instructions index.
    pub constants: Vec<RuntimeVal>,
    /// The file of eight registers.
    pub registers: Vec<RuntimeVal>,
}

impl VM {
    pub open spec fn wf(&self) -> bool {
        self.registers@.len() == 8
    }

    /// The shape of the register file.
    pub open spec fn regs_view(&self) -> Seq<RuntimeValM> {
        vals_view(self.registers@)
    }

    /// Returns a new VM given a list of chunks, with an empty constant
    /// table and every register nil.
    pub fn new(chunks: Vec<Chunk>) -> (vm: VM)
        ensures
            vm.wf(),
            vm.chunks@ == chunks@,
            vm.constants@.len() == 0,
            vm.regs_view() == spec_nil_regs(),
    {
        VM::with_constants(chunks, Vec::new())
    }

    /// Returns a new VM given a list of chunks and its constant table,
    /// with every register nil.
    pub fn with_constants(chunks: Vec<Chunk>, constants: Vec<RuntimeVal>) -> (vm: VM)
        ensures
            vm.wf(),
            vm.chunks@ == chunks@,
            vm.constants@ == constants@,
            vm.regs_view() == spec_nil_regs(),
    {
        let mut registers: Vec<RuntimeVal> = Vec::new();
        let mut i: usize = 0;
        while i < 8
            invariant
                i <= 8,
                registers@.len() == i,
                forall|k: int| 0 <= k < i ==> registers@[k] is Nil,
            decreases 8 - i,
        {
            registers.push(RuntimeVal::Nil);
            i = i + 1;
        }
        let vm = VM { chunks, constants, registers };
        proof {
            assert(vm.regs_view() =~= spec_nil_regs());
        }
        vm
    }

    /// The value a register holds.
    pub fn register(&self, i: usize) -> (v: &RuntimeVal)
        requires
            self.wf(),
            i < 8,
        ensures
            v@ == self.regs_view()[i as int],
    {
        &self.registers[i]
    }

    /// Renders every chunk as its text line, in order, purely from the raw
    /// bytes and independent of any execution state.
    pub fn dissasemble(&self) -> (r: Vec<String>)
        ensures
            r@.len() == self.chunks@.len(),
            forall|k: int|
                0 <= k < r@.len() ==> #[trigger] r@[k]@ == spec_disassembly(
                    self.chunks@[k].bytes@,
                ),
    {
        let mut out: Vec<String> = Vec::new();
        let n = self.chunks.len();
        let mut i: usize = 0;
        while i < n
            invariant
                n == self.chunks@.len(),
                i <= n,
                out@.len() == i,
                forall|k: int|
                    0 <= k < i ==> #[trigger] out@[k]@ == spec_disassembly(
                        self.chunks@[k].bytes@,
                    ),
            decreases n - i,
        {
            out.push(self.chunks[i].dissasemble());
            i = i + 1;
        }
        out
    }

    /// The number a register holds, if it holds one.
    fn reg_num(&self, i: usize) -> (r: Option<u64>)
        requires
            self.wf(),
            i < 8,
        ensures
            match r {
                Some(x) => self.regs_view()[i as int] == RuntimeValM::Number(x),
                None => !(self.regs_view()[i as int] is Number),
            },
    {
        match &self.registers[i] {
            RuntimeVal::Number(x) => Some(*x),
            _ => None,
        }
    }

    /// The sequential fetch-decode-execute loop: performs each chunk on
    /// the register file in order and halts after the last one, or stops
    /// at the first failing chunk, leaving the registers as they stood.
    pub fn execute(&mut self) -> (r: Result<(), ExecError>)
        requires
            old(self).wf(),
        ensures
            final(self).wf(),
            final(self).chunks@ == old(self).chunks@,
            final(self).constants@ == old(self).constants@,
            ({
                let (err, regs2) = spec_run(
                    chunk_views(old(self).chunks@),
                    vals_view(old(self).constants@),
                    old(self).regs_view(),
                );
                final(self).regs_view() == regs2 && (match r {
                    Ok(_) => err is None,
                    Err(e) => err == Some(e),
                })
            }),
    {
        let ghost cv = chunk_views(old(self).chunks@);
        let ghost cons = vals_view(old(self).constants@);
        let ghost regs0 = old(self).regs_view();
        let n = self.chunks.len();
        let mut pc: usize = 0;
        proof {
            assert(cv.skip(0) =~= cv);
        }
        while pc < n
            invariant
                self.wf(),
                pc <= n,
                n == self.chunks@.len(),
                self.chunks@ == old(self).chunks@,
                self.constants@ == old(self).constants@,
                cv == chunk_views(old(self).chunks@),
                cons == vals_view(old(self).constants@),
                regs0 == old(self).regs_view(),
                spec_run(cv, cons, regs0) == spec_run(
                    cv.skip(pc as int),
                    cons,
                    self.regs_view(),
                ),
            decreases n - pc,
        {
            let ghost regs_now = self.regs_view();
            proof {
                assert(cv.skip(pc as int).drop_first() =~= cv.skip(pc as int + 1));
                assert(cv.skip(pc as int)[0] == cv[pc as int]);
                assert(cv[pc as int] == self.chunks@[pc as int].bytes@);
            }
            let op = self.chunks[pc].bytes[0];
            let a = self.chunks[pc].bytes[1];
            let b = self.chunks[pc].bytes[2];
            if op == 0 || op == 1 {
                if a >= 8 || b >= 8 {
                    return Err(ExecError::OperandOutOfRange);
                }
                match (self.reg_num(a as usize), self.reg_num(b as usize)) {
                    (Some(x), Some(y)) => {
                        let v = if op == 0 {
                            add_bits(x, y)
                        } else {
                            sub_bits(x, y)
                        };
                        self.registers.set(a as usize, RuntimeVal::Number(v));
                        proof {
                            assert(self.regs_view() =~= regs_now.update(
                                a as int,
                                RuntimeValM::Number(v),
                            ));
                            assert(spec_step(cv[pc as int], cons, regs_now) == Ok::<
                                Seq<RuntimeValM>,
                                ExecError,
                            >(self.regs_view()));
                        }
                    },
                    _ => {
                        return Err(ExecError::TypeMismatch);
                    },
                }
            } else if op == 2 {
                if a >= 8 {
                    return Err(ExecError::OperandOutOfRange);
                }
                match self.reg_num(a as usize) {
                    Some(x) => {
                        let v = negate_bits(x);
                        self.registers.set(a as usize, RuntimeVal::Number(v));
                        proof {
                            assert(self.regs_view() =~= regs_now.update(
                                a as int,
                                RuntimeValM::Number(v),
                            ));
                            assert(spec_step(cv[pc as int], cons, regs_now) == Ok::<
                                Seq<RuntimeValM>,
                                ExecError,
                            >(self.regs_view()));
                        }
                    },
                    None => {
                        return Err(ExecError::TypeMismatch);
                    },
                }
            } else if op == 3 {
                if a >= 8 || b as usize >= self.constants.len() {
                    return Err(ExecError::OperandOutOfRange);
                }
                let value = self.constants[b as usize].clone();
                self.registers.set(a as usize, value);
                proof {
                    assert(self.regs_view() =~= regs_now.update(a as int, cons[b as int]));
                    assert(spec_step(cv[pc as int], cons, regs_now) == Ok::<
                        Seq<RuntimeValM>,
                        ExecError,
                    >(self.regs_view()));
                }
            } else {
                return Err(ExecError::UnknownOpcode);
            }
            pc = pc + 1;
        }
        proof {
            assert(cv.skip(n as int) =~= Seq::<Seq<u8>>::empty());
        }
        Ok(())
    }
}

} // verus!
