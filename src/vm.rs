//! The machine: registers, memory, a loaded program and the position in it,
//! advanced one instruction at a time.
use vstd::prelude::*;
use crate::alu::{BinOp, apply, compute};
use crate::instruction::{Fault, Instr, Operand, decode, decode_instruction};
use crate::memory::{read_word, with_word, word_at, word_fits, write_word};
use crate::registers::RegisterFile;
use crate::text::texts;

verus! {

/// What can be observed of a machine.
pub struct VmState {
    pub registers: Map<Seq<char>, i32>,
    pub memory: Seq<u8>,
    pub pc: nat,
    pub program: Seq<Seq<char>>,
}

/// The value of a register; reading one that was never written is a fault.
pub open spec fn read_register(regs: Map<Seq<char>, i32>, name: Seq<char>) -> Result<
    i32,
    Fault<Seq<char>>,
> {
    if regs.contains_key(name) {
        Ok(regs[name])
    } else {
        Err(Fault::UnknownRegister(name))
    }
}

/// The value of an operand: a register's, or the constant itself.
pub open spec fn operand_value(regs: Map<Seq<char>, i32>, o: Operand<Seq<char>>) -> Result<
    i32,
    Fault<Seq<char>>,
> {
    match o {
        Operand::Reg(n) => read_register(regs, n),
        Operand::Imm(v) => Ok(v),
    }
}

/// Registers and memory after a decoded instruction, or the fault it raises.
/// A faulting instruction changes nothing; a memory access whose word does
/// not lie in memory changes nothing and is no fault.
pub open spec fn perform(regs: Map<Seq<char>, i32>, mem: Seq<u8>, i: Instr<Seq<char>>) -> Result<
    (Map<Seq<char>, i32>, Seq<u8>),
    Fault<Seq<char>>,
> {
    match i {
        Instr::Nop => Ok((regs, mem)),
        Instr::Binary { op, lhs, rhs, dest } => match operand_value(regs, lhs) {
            Err(f) => Err(f),
            Ok(a) => match operand_value(regs, rhs) {
                Err(f) => Err(f),
                Ok(b) => if op == BinOp::Div && b == 0 {
                    Err(Fault::DivisionByZero)
                } else {
                    Ok((regs.insert(dest, apply(op, a, b)), mem))
                },
            },
        },
        Instr::LoadImm { value, dest } => Ok((regs.insert(dest, value), mem)),
        Instr::Load { base, offset, dest } => match read_register(regs, base) {
            Err(f) => Err(f),
            Ok(a) => match operand_value(regs, offset) {
                Err(f) => Err(f),
                Ok(o) => if word_fits(mem.len() as int, a + o) {
                    Ok((regs.insert(dest, word_at(mem, a + o)), mem))
                } else {
                    Ok((regs, mem))
                },
            },
        },
        Instr::Store { src, base, offset } => match read_register(regs, src) {
            Err(f) => Err(f),
            Ok(v) => match read_register(regs, base) {
                Err(f) => Err(f),
                Ok(a) => match operand_value(regs, offset) {
                    Err(f) => Err(f),
                    Ok(o) => if word_fits(mem.len() as int, a + o) {
                        Ok((regs, with_word(mem, a + o, v)))
                    } else {
                        Ok((regs, mem))
                    },
                },
            },
        },
    }
}

/// Registers and memory after the instruction written `text`.
pub open spec fn execute(regs: Map<Seq<char>, i32>, mem: Seq<u8>, text: Seq<char>) -> Result<
    (Map<Seq<char>, i32>, Seq<u8>),
    Fault<Seq<char>>,
> {
    match decode(text) {
        Err(f) => Err(f),
        Ok(i) => perform(regs, mem, i),
    }
}

/// One step: `None` once the program has ended, else the next state.
pub open spec fn step_state(s: VmState) -> Result<Option<VmState>, Fault<Seq<char>>> {
    if s.pc >= s.program.len() {
        Ok(None)
    } else {
        match execute(s.registers, s.memory, s.program[s.pc as int]) {
            Err(f) => Err(f),
            Ok((r, m)) => Ok(Some(VmState { registers: r, memory: m, pc: s.pc + 1, ..s })),
        }
    }
}

/// The state in which the program ends, or the fault that stops it together
/// with the state just before the faulting instruction.
pub open spec fn run_state(s: VmState) -> Result<VmState, (Fault<Seq<char>>, VmState)>
    decreases s.program.len() - s.pc,
{
    if s.pc >= s.program.len() {
        Ok(s)
    } else {
        match step_state(s) {
            Err(f) => Err((f, s)),
            Ok(Some(n)) => run_state(n),
            Ok(None) => Ok(s),
        }
    }
}

/// The machine.
pub struct VM {
    registers: RegisterFile,
    memory: Vec<u8>,
    pc: usize,
    program: Vec<String>,
}

impl View for VM {
    type V = VmState;

    closed spec fn view(&self) -> VmState {
        VmState {
            registers: self.registers@,
            memory: self.memory@,
            pc: self.pc as nat,
            program: texts(self.program@),
        }
    }
}

impl VM {
    /// The register file is well formed.
    pub closed spec fn wf(&self) -> bool {
        self.registers.wf()
    }

    /// A machine with `memory_size` zero bytes of memory, no registers and no
    /// program.
    pub fn new(memory_size: usize) -> (r: VM)
        ensures
            r.wf(),
            r@.registers == Map::<Seq<char>, i32>::empty(),
            r@.memory == Seq::new(memory_size as nat, |i: int| 0u8),
            r@.pc == 0,
            r@.program == Seq::<Seq<char>>::empty(),
    {
        let memory: Vec<u8> = vec![0u8; memory_size];
        let r = VM { registers: RegisterFile::new(), memory, pc: 0, program: Vec::new() };
        assert(r@.memory =~= Seq::new(memory_size as nat, |i: int| 0u8));
        assert(r@.program =~= Seq::<Seq<char>>::empty());
        r
    }

    /// Replaces the program; registers, memory and the position stay.
    pub fn load_program(&mut self, program: Vec<String>)
        requires
            old(self).wf(),
        ensures
            final(self).wf(),
            final(self)@ == (VmState { program: texts(program@), ..old(self)@ }),
    {
        self.program = program;
    }

    fn read(&self, name: &String) -> (r: Result<i32, Fault<String>>)
        requires
            self.wf(),
        ensures
            match read_register(self@.registers, name@) {
                Ok(v) => r == Ok::<i32, Fault<String>>(v),
                Err(f) => r matches Err(g) && g@ == f,
            },
    {
        match self.registers.lookup(name) {
            Some(v) => Ok(v),
            None => Err(Fault::UnknownRegister(name.clone())),
        }
    }

    fn operand(&self, o: &Operand<String>) -> (r: Result<i32, Fault<String>>)
        requires
            self.wf(),
        ensures
            match operand_value(self@.registers, o@) {
                Ok(v) => r == Ok::<i32, Fault<String>>(v),
                Err(f) => r matches Err(g) && g@ == f,
            },
    {
        match o {
            Operand::Reg(n) => self.read(n),
            Operand::Imm(v) => Ok(*v),
        }
    }

    /// Where the word at `a + o` starts, if it lies in memory.
    fn word_address(&self, a: i32, o: i32) -> (r: Option<usize>)
        ensures
            r matches Some(addr) ==> addr == a + o && word_fits(self@.memory.len() as int, a + o),
            r is None ==> !word_fits(self@.memory.len() as int, a + o),
    {
        let addr = a as i64 + o as i64;
        if addr < 0 {
            return None;
        }
        let at = addr as u64;
        let len = self.memory.len() as u64;
        if at + 3 < len {
            Some(at as usize)
        } else {
            None
        }
    }

    /// Carries out a decoded instruction.
    fn perform(&mut self, i: Instr<String>) -> (r: Result<(), Fault<String>>)
        requires
            old(self).wf(),
        ensures
            final(self).wf(),
            final(self)@.pc == old(self)@.pc,
            final(self)@.program == old(self)@.program,
            match perform(old(self)@.registers, old(self)@.memory, i@) {
                Ok((regs, mem)) => r is Ok && final(self)@.registers == regs
                    && final(self)@.memory == mem,
                Err(f) => r matches Err(g) && g@ == f && final(self)@ == old(self)@,
            },
    {
        match i {
            Instr::Nop => Ok(()),
            Instr::Binary { op, lhs, rhs, dest } => {
                let a = self.operand(&lhs)?;
                let b = self.operand(&rhs)?;
                if op == BinOp::Div && b == 0 {
                    return Err(Fault::DivisionByZero);
                }
                let v = compute(op, a, b);
                self.registers.set(dest, v);
                Ok(())
            },
            Instr::LoadImm { value, dest } => {
                self.registers.set(dest, value);
                Ok(())
            },
            Instr::Load { base, offset, dest } => {
                let a = self.read(&base)?;
                let o = self.operand(&offset)?;
                if let Some(addr) = self.word_address(a, o) {
                    let v = read_word(self.memory.as_slice(), addr);
                    self.registers.set(dest, v);
                }
                Ok(())
            },
            Instr::Store { src, base, offset } => {
                let v = self.read(&src)?;
                let a = self.read(&base)?;
                let o = self.operand(&offset)?;
                if let Some(addr) = self.word_address(a, o) {
                    write_word(&mut self.memory, addr, v);
                }
                Ok(())
            },
        }
    }

    /// Carries out the instruction written `text`.
    fn execute(&mut self, text: &str) -> (r: Result<(), Fault<String>>)
        requires
            old(self).wf(),
        ensures
            final(self).wf(),
            final(self)@.pc == old(self)@.pc,
            final(self)@.program == old(self)@.program,
            match execute(old(self)@.registers, old(self)@.memory, text@) {
                Ok((regs, mem)) => r is Ok && final(self)@.registers == regs
                    && final(self)@.memory == mem,
                Err(f) => r matches Err(g) && g@ == f && final(self)@ == old(self)@,
            },
    {
        let i = decode_instruction(text)?;
        self.perform(i)
    }

    /// Carries out the instruction at the current position and moves past it.
    /// Returns `Ok(false)`, changing nothing, once the program has ended; a
    /// fault leaves the machine as it was.
    pub fn step(&mut self) -> (r: Result<bool, Fault<String>>)
        requires
            old(self).wf(),
        ensures
            final(self).wf(),
            match step_state(old(self)@) {
                Ok(None) => r == Ok::<bool, Fault<String>>(false) && final(self)@ == old(self)@,
                Ok(Some(n)) => r == Ok::<bool, Fault<String>>(true) && final(self)@ == n,
                Err(f) => r matches Err(g) && g@ == f && final(self)@ == old(self)@,
            },
    {
        if self.pc >= self.program.len() {
            return Ok(false);
        }
        let text = self.program[self.pc].clone();
        self.execute(text.as_str())?;
        self.pc = self.pc + 1;
        Ok(true)
    }

    /// Steps until the program ends or an instruction faults.
    pub fn run(&mut self) -> (r: Result<(), Fault<String>>)
        requires
            old(self).wf(),
        ensures
            final(self).wf(),
            match run_state(old(self)@) {
                Ok(s) => r is Ok && final(self)@ == s,
                Err((f, s)) => r matches Err(g) && g@ == f && final(self)@ == s,
            },
    {
        loop
            invariant
                self.wf(),
                run_state(self@) == run_state(old(self)@),
            decreases self@.program.len() - self@.pc,
        {
            match self.step() {
                Ok(true) => {},
                Ok(false) => return Ok(()),
                Err(e) => return Err(e),
            }
        }
    }

    /// The registers, the memory and the current position.
    pub fn get_state(&self) -> (r: (&RegisterFile, &[u8], usize))
        requires
            self.wf(),
        ensures
            r.0.wf(),
            r.0@ == self@.registers,
            r.1@ == self@.memory,
            r.2 == self@.pc,
    {
        (&self.registers, self.memory.as_slice(), self.pc)
    }

    /// The loaded program, one instruction per line.
    pub fn get_program(&self) -> (r: Vec<String>)
        ensures
            texts(r@) == self@.program,
    {
        let mut r: Vec<String> = Vec::new();
        let mut i: usize = 0;
        while i < self.program.len()
            invariant
                i <= self.program@.len(),
                r@ == self.program@.take(i as int),
            decreases self.program@.len() - i,
        {
            r.push(self.program[i].clone());
            assert(r@ =~= self.program@.take(i + 1));
            i = i + 1;
        }
        assert(self.program@.take(i as int) =~= self.program@);
        r
    }
}

} // verus!
