//! The virtual machine: eight 8-bit registers and 256 bytes of memory that
//! hold the program from address 0, run one instruction at a time.
//!
//! Each tick fetches the instruction at the program counter and executes it.
//! An unknown opcode (or an unknown comparison) is skipped. An instruction
//! that would read past the end of memory leaves the counter at the end. An
//! instruction that names a register outside `0..=7` does nothing, as do the
//! reserved multiplications and divisions. The machine stops when it halts
//! or when the counter reaches the end of memory.
use crate::shared::{arity, assemble_op, decode_op, operand_count, Case, Op, MEMORY_SIZE};
use vstd::prelude::*;

verus! {

/// The number of registers.
pub const REGISTERS: usize = 8;

/// The register whose value is the exit code on halt (register C).
pub const EXIT_REGISTER: usize = 6;

#[derive(Debug, PartialEq, Eq, Structural, Clone, Copy)]
pub enum State {
    Running { pc: usize },
    Halted(u8),
    Null,
}

/// Why a run ended.
#[derive(Debug, PartialEq, Eq, Structural, Clone, Copy)]
pub enum Stop {
    /// The machine halted with this exit code.
    Halted(u8),
    /// The program counter reached the end of memory.
    EndOfMemory,
}

/// The machine as values: registers, memory and state.
pub struct Model {
    pub regs: Seq<u8>,
    pub mem: Seq<u8>,
    pub state: State,
}

pub struct Machine {
    registers: Vec<u8>,
    memory: Vec<u8>,
    state: State,
}

impl View for Machine {
    type V = Model;

    closed spec fn view(&self) -> Model {
        Model { regs: self.registers@, mem: self.memory@, state: self.state }
    }
}

/// Eight registers, 256 bytes of memory, and a counter within memory.
pub open spec fn model_wf(m: Model) -> bool {
    &&& m.regs.len() == REGISTERS
    &&& m.mem.len() == MEMORY_SIZE
    &&& m.state matches State::Running { pc } ==> pc <= MEMORY_SIZE
}

/// The machine runs, with its counter inside memory.
pub open spec fn can_step(m: Model) -> bool {
    m.state matches State::Running { pc } && pc < MEMORY_SIZE
}

/// The instruction at `pc` and the counter after it. The result is `None`
/// for an unknown opcode or comparison, and for an instruction that does
/// not fit in what is left of memory, whose counter is then the end of memory.
pub open spec fn fetch_at(mem: Seq<u8>, pc: int) -> (Option<Op>, int) {
    let opcode = mem[pc];
    match arity(opcode) {
        None => (None, pc + 1),
        Some(k) => if pc + 1 + k > mem.len() {
            (None, mem.len() as int)
        } else {
            (assemble_op(opcode, mem.subrange(pc + 1, pc + 1 + k)), pc + 1 + k)
        },
    }
}

/// Every register index that the operation reads or writes is below eight.
pub open spec fn regs_valid(op: Op) -> bool {
    match op {
        Op::MOVRN(d, _) | Op::MOVRA(d, _) | Op::MOVXN(d, _) | Op::MOVXA(d, _) | Op::ADDRN(d, _)
        | Op::SUBRN(d, _) | Op::MULRN(d, _) | Op::DIVRN(d, _) | Op::ANDRN(d, _) | Op::XORRN(d, _)
        | Op::ORRN(d, _) | Op::SHR(d) | Op::SHL(d) | Op::PRINT(d) => d < REGISTERS,
        Op::MOVAR(_, s) | Op::MOVAX(_, s) => s < REGISTERS,
        Op::MOVRR(d, s) | Op::MOVRX(d, s) | Op::MOVXR(d, s) | Op::MOVXX(d, s) | Op::ADDRR(d, s)
        | Op::SUBRR(d, s) | Op::MULRR(d, s) | Op::DIVRR(d, s) | Op::ANDRR(d, s) | Op::XORRR(d, s)
        | Op::ORRR(d, s) => d < REGISTERS && s < REGISTERS,
        Op::JMPIF(c, _) => c.operands().0 < REGISTERS && c.operands().1 < REGISTERS,
        _ => true,
    }
}

pub open spec fn set_reg(m: Model, r: u8, v: u8) -> Model {
    Model { regs: m.regs.update(r as int, v), ..m }
}

pub open spec fn set_mem(m: Model, a: u8, v: u8) -> Model {
    Model { mem: m.mem.update(a as int, v), ..m }
}

pub open spec fn jump_to(m: Model, to: u8) -> Model {
    Model { state: State::Running { pc: to as usize }, ..m }
}

/// Whether the comparison holds of the registers, as unsigned bytes.
pub open spec fn holds(regs: Seq<u8>, c: Case) -> bool {
    match c {
        Case::EQ(a, b) => regs[a as int] == regs[b as int],
        Case::NEQ(a, b) => regs[a as int] != regs[b as int],
        Case::LSR(a, b) => regs[a as int] < regs[b as int],
        Case::GRT(a, b) => regs[a as int] > regs[b as int],
        Case::LSREQ(a, b) => regs[a as int] <= regs[b as int],
        Case::GRTEQ(a, b) => regs[a as int] >= regs[b as int],
    }
}

pub open spec fn wrapping_add(x: u8, y: u8) -> u8 {
    ((x + y) % 256) as u8
}

pub open spec fn wrapping_sub(x: u8, y: u8) -> u8 {
    ((x - y + 256) % 256) as u8
}

/// The machine after executing `op`, and the byte it prints, if any.
pub open spec fn execute_op(m: Model, op: Op) -> (Model, Option<u8>) {
    let r = m.regs;
    if !regs_valid(op) {
        (m, None)
    } else {
        match op {
            Op::MOVRN(d, n) => (set_reg(m, d, n), None),
            Op::MOVRR(d, s) => (set_reg(m, d, r[s as int]), None),
            Op::MOVRA(d, a) => (set_reg(m, d, m.mem[a as int]), None),
            Op::MOVRX(d, s) => (set_reg(m, d, m.mem[r[s as int] as int]), None),
            Op::MOVAN(a, n) => (set_mem(m, a, n), None),
            Op::MOVAR(a, s) => (set_mem(m, a, r[s as int]), None),
            Op::MOVAA(a, b) => (set_mem(m, a, m.mem[b as int]), None),
            Op::MOVAX(a, s) => (set_mem(m, a, m.mem[r[s as int] as int]), None),
            Op::MOVXN(d, n) => (set_mem(m, r[d as int], n), None),
            Op::MOVXR(d, s) => (set_mem(m, r[d as int], r[s as int]), None),
            Op::MOVXA(d, a) => (set_mem(m, r[d as int], m.mem[a as int]), None),
            Op::MOVXX(d, s) => (set_mem(m, r[d as int], m.mem[r[s as int] as int]), None),
            Op::ADDRN(d, n) => (set_reg(m, d, wrapping_add(r[d as int], n)), None),
            Op::ADDRR(d, s) => (set_reg(m, d, wrapping_add(r[d as int], r[s as int])), None),
            Op::SUBRN(d, n) => (set_reg(m, d, wrapping_sub(r[d as int], n)), None),
            Op::SUBRR(d, s) => (set_reg(m, d, wrapping_sub(r[d as int], r[s as int])), None),
            Op::ANDRR(d, s) => (set_reg(m, d, r[d as int] & r[s as int]), None),
            Op::ANDRN(d, n) => (set_reg(m, d, r[d as int] & n), None),
            Op::XORRR(d, s) => (set_reg(m, d, r[d as int] ^ r[s as int]), None),
            Op::XORRN(d, n) => (set_reg(m, d, r[d as int] ^ n), None),
            Op::ORRR(d, s) => (set_reg(m, d, r[d as int] | r[s as int]), None),
            Op::ORRN(d, n) => (set_reg(m, d, r[d as int] | n), None),
            Op::SHR(d) => (set_reg(m, d, r[d as int] / 2), None),
            Op::SHL(d) => (set_reg(m, d, ((r[d as int] * 2) % 256) as u8), None),
            Op::PRINT(d) => (m, Some(r[d as int])),
            Op::JMP(to) => (jump_to(m, to), None),
            Op::JMPIF(c, to) => (
                if holds(r, c) {
                    jump_to(m, to)
                } else {
                    m
                },
                None,
            ),
            Op::HALT => (Model { state: State::Halted(r[EXIT_REGISTER as int]), ..m }, None),
            _ => (m, None),
        }
    }
}

/// One tick: fetch the instruction at the counter and execute it. Returns
/// the machine after it and the byte printed, if any.
pub open spec fn step_model(m: Model) -> (Model, Option<u8>)
    recommends
        can_step(m),
{
    let pc = m.state->pc;
    let (fetched, next) = fetch_at(m.mem, pc as int);
    let m1 = Model { state: State::Running { pc: next as usize }, ..m };
    match fetched {
        Some(op) => execute_op(m1, op),
        None => (m1, None),
    }
}

/// Why the machine has stopped, if it has.
pub open spec fn stop_of(m: Model) -> Option<Stop> {
    match m.state {
        State::Halted(e) => Some(Stop::Halted(e)),
        State::Running { pc } => if pc == MEMORY_SIZE {
            Some(Stop::EndOfMemory)
        } else {
            None
        },
        State::Null => None,
    }
}

/// At most `n` ticks from `m`, stopping early when the machine stops:
/// the machine after them and every byte printed.
pub open spec fn run_model(m: Model, n: nat) -> (Model, Seq<u8>)
    decreases n,
{
    if n == 0 || !can_step(m) {
        (m, seq![])
    } else {
        let (m1, out) = step_model(m);
        let (m2, rest) = run_model(m1, (n - 1) as nat);
        (
            m2,
            match out {
                Some(b) => seq![b] + rest,
                None => rest,
            },
        )
    }
}

impl Machine {
    pub open spec fn wf(&self) -> bool {
        model_wf(self@)
    }

    /// A machine with `code` at address 0, the rest of memory and every
    /// register zero, not yet started.
    pub fn new(code: Vec<u8>) -> (r: Self)
        requires
            code@.len() <= MEMORY_SIZE,
        ensures
            r.wf(),
            r@.regs == Seq::new(REGISTERS as nat, |i: int| 0u8),
            r@.mem == code@ + Seq::new((MEMORY_SIZE - code@.len()) as nat, |i: int| 0u8),
            r@.state == State::Null,
    {
        let mut memory: Vec<u8> = Vec::new();
        let mut i: usize = 0;
        while i < MEMORY_SIZE
            invariant
                i <= MEMORY_SIZE,
                code@.len() <= MEMORY_SIZE,
                memory@.len() == i,
                forall|j: int|
                    0 <= j < i ==> #[trigger] memory@[j] == if j < code@.len() {
                        code@[j]
                    } else {
                        0u8
                    },
            decreases MEMORY_SIZE - i,
        {
            if i < code.len() {
                memory.push(code[i]);
            } else {
                memory.push(0);
            }
            i = i + 1;
        }
        let machine = Machine { registers: vec![0u8; REGISTERS], memory, state: State::Null };
        assert(machine@.regs =~= Seq::new(REGISTERS as nat, |i: int| 0u8));
        assert(machine@.mem =~= code@ + Seq::new((MEMORY_SIZE - code@.len()) as nat, |i: int| 0u8));
        machine
    }

    /// Puts the counter at address 0.
    pub fn start(&mut self)
        requires
            old(self).wf(),
        ensures
            final(self).wf(),
            final(self)@ == (Model { state: State::Running { pc: 0 }, ..old(self)@ }),
    {
        self.state = State::Running { pc: 0 };
    }

    pub fn state(&self) -> (r: State)
        ensures
            r == self@.state,
    {
        self.state
    }

    /// The value of register `r`.
    pub fn register(&self, r: usize) -> (v: u8)
        requires
            self.wf(),
            r < REGISTERS,
        ensures
            v == self@.regs[r as int],
    {
        self.registers[r]
    }

    /// The byte at memory address `a`.
    pub fn memory_at(&self, a: u8) -> (v: u8)
        requires
            self.wf(),
        ensures
            v == self@.mem[a as int],
    {
        self.memory[a as usize]
    }

    /// All the registers, by index.
    pub fn registers(&self) -> (r: &Vec<u8>)
        ensures
            r@ == self@.regs,
    {
        &self.registers
    }

    /// Reads the byte at the counter and moves the counter past it.
    pub fn next_byte(&mut self) -> (b: u8)
        requires
            old(self).wf(),
            can_step(old(self)@),
        ensures
            final(self).wf(),
            b == old(self)@.mem[old(self)@.state->pc as int],
            final(self)@ == (Model {
                state: State::Running { pc: (old(self)@.state->pc + 1) as usize },
                ..old(self)@
            }),
    {
        match self.state {
            State::Running { pc } => {
                let b = self.memory[pc];
                self.state = State::Running { pc: pc + 1 };
                b
            },
            _ => {
                proof {
                    assert(false);
                }
                0
            },
        }
    }

    /// Reads the instruction at the counter, as `fetch_at` gives it, and
    /// moves the counter past it.
    pub fn fetch(&mut self) -> (r: Option<Op>)
        requires
            old(self).wf(),
            can_step(old(self)@),
        ensures
            final(self).wf(),
            ({
                let (op, next) = fetch_at(old(self)@.mem, old(self)@.state->pc as int);
                &&& r == op
                &&& final(self)@ == (Model { state: State::Running { pc: next as usize }, ..old(self)@ })
            }),
    {
        let ghost m = self@;
        let pc = match self.state {
            State::Running { pc } => pc,
            _ => 0,
        };
        let opcode = self.next_byte();
        match operand_count(opcode) {
            None => None,
            Some(k) => {
                if pc + 1 + k > MEMORY_SIZE {
                    self.state = State::Running { pc: MEMORY_SIZE };
                    return None;
                }
                let mut args: Vec<u8> = Vec::new();
                let mut j: usize = 0;
                while j < k
                    invariant
                        j <= k,
                        pc + 1 + k <= MEMORY_SIZE,
                        self.wf(),
                        self@.regs == m.regs,
                        self@.mem == m.mem,
                        self@.state == (State::Running { pc: (pc + 1 + j) as usize }),
                        args@ == m.mem.subrange(pc + 1, pc + 1 + j),
                    decreases k - j,
                {
                    let b = self.next_byte();
                    args.push(b);
                    j = j + 1;
                    assert(args@ =~= m.mem.subrange(pc + 1, pc + 1 + j));
                }
                decode_op(opcode, &args)
            },
        }
    }
}

fn regs_ok(op: Op) -> (r: bool)
    ensures
        r == regs_valid(op),
{
    let r = match op {
        Op::MOVRN(d, _) | Op::MOVRA(d, _) | Op::MOVXN(d, _) | Op::MOVXA(d, _) | Op::ADDRN(d, _)
        | Op::SUBRN(d, _) | Op::MULRN(d, _) | Op::DIVRN(d, _) | Op::ANDRN(d, _) | Op::XORRN(d, _)
        | Op::ORRN(d, _) | Op::SHR(d) | Op::SHL(d) | Op::PRINT(d) => (d as usize) < REGISTERS,
        Op::MOVAR(_, s) | Op::MOVAX(_, s) => (s as usize) < REGISTERS,
        Op::MOVRR(d, s) | Op::MOVRX(d, s) | Op::MOVXR(d, s) | Op::MOVXX(d, s) | Op::ADDRR(d, s)
        | Op::SUBRR(d, s) | Op::MULRR(d, s) | Op::DIVRR(d, s) | Op::ANDRR(d, s) | Op::XORRR(d, s)
        | Op::ORRR(d, s) => (d as usize) < REGISTERS && (s as usize) < REGISTERS,
        Op::JMPIF(c, _) => match c {
            Case::EQ(a, b) | Case::NEQ(a, b) | Case::LSR(a, b) | Case::GRT(a, b) | Case::LSREQ(a, b)
            | Case::GRTEQ(a, b) => (a as usize) < REGISTERS && (b as usize) < REGISTERS,
        },
        _ => true,
    };
    r
}

fn holds_exec(regs: &Vec<u8>, c: Case) -> (r: bool)
    requires
        regs@.len() == REGISTERS,
        (c.operands().0 as usize) < REGISTERS,
        (c.operands().1 as usize) < REGISTERS,
    ensures
        r == holds(regs@, c),
{
    match c {
        Case::EQ(a, b) => regs[a as usize] == regs[b as usize],
        Case::NEQ(a, b) => regs[a as usize] != regs[b as usize],
        Case::LSR(a, b) => regs[a as usize] < regs[b as usize],
        Case::GRT(a, b) => regs[a as usize] > regs[b as usize],
        Case::LSREQ(a, b) => regs[a as usize] <= regs[b as usize],
        Case::GRTEQ(a, b) => regs[a as usize] >= regs[b as usize],
    }
}

impl Machine {
    /// Whether the machine runs with its counter inside memory.
    pub fn is_running(&self) -> (r: bool)
        ensures
            r == can_step(self@),
    {
        match self.state {
            State::Running { pc } => pc < MEMORY_SIZE,
            _ => false,
        }
    }

    /// Why the machine has stopped: it halted, or its counter is at the end
    /// of memory. `None` while it can go on.
    pub fn finished(&self) -> (r: Option<Stop>)
        ensures
            r == stop_of(self@),
    {
        match self.state {
            State::Halted(e) => Some(Stop::Halted(e)),
            State::Running { pc } => if pc == MEMORY_SIZE {
                Some(Stop::EndOfMemory)
            } else {
                None
            },
            State::Null => None,
        }
    }

    fn set_register(&mut self, r: u8, v: u8)
        requires
            old(self).wf(),
            (r as usize) < REGISTERS,
        ensures
            final(self).wf(),
            final(self)@ == set_reg(old(self)@, r, v),
    {
        self.registers.set(r as usize, v);
    }

    fn store(&mut self, a: u8, v: u8)
        requires
            old(self).wf(),
        ensures
            final(self).wf(),
            final(self)@ == set_mem(old(self)@, a, v),
    {
        self.memory.set(a as usize, v);
    }

    /// Executes `ins`; returns the byte it prints, if any.
    pub fn execute(&mut self, ins: Op) -> (r: Option<u8>)
        requires
            old(self).wf(),
            old(self)@.state is Running,
        ensures
            final(self).wf(),
            (final(self)@, r) == execute_op(old(self)@, ins),
    {
        if !regs_ok(ins) {
            return None;
        }
        match ins {
            Op::MOVRN(d, n) => self.set_register(d, n),
            Op::MOVRR(d, s) => {
                let v = self.registers[s as usize];
                self.set_register(d, v);
            },
            Op::MOVRA(d, a) => {
                let v = self.memory[a as usize];
                self.set_register(d, v);
            },
            Op::MOVRX(d, s) => {
                let v = self.memory[self.registers[s as usize] as usize];
                self.set_register(d, v);
            },
            Op::MOVAN(a, n) => self.store(a, n),
            Op::MOVAR(a, s) => {
                let v = self.registers[s as usize];
                self.store(a, v);
            },
            Op::MOVAA(a, b) => {
                let v = self.memory[b as usize];
                self.store(a, v);
            },
            Op::MOVAX(a, s) => {
                let v = self.memory[self.registers[s as usize] as usize];
                self.store(a, v);
            },
            Op::MOVXN(d, n) => {
                let a = self.registers[d as usize];
                self.store(a, n);
            },
            Op::MOVXR(d, s) => {
                let a = self.registers[d as usize];
                let v = self.registers[s as usize];
                self.store(a, v);
            },
            Op::MOVXA(d, b) => {
                let a = self.registers[d as usize];
                let v = self.memory[b as usize];
                self.store(a, v);
            },
            Op::MOVXX(d, s) => {
                let a = self.registers[d as usize];
                let v = self.memory[self.registers[s as usize] as usize];
                self.store(a, v);
            },
            Op::ADDRN(d, n) => {
                let x = self.registers[d as usize];
                self.set_register(d, ((x as u16 + n as u16) % 256) as u8);
            },
            Op::ADDRR(d, s) => {
                let x = self.registers[d as usize];
                let y = self.registers[s as usize];
                self.set_register(d, ((x as u16 + y as u16) % 256) as u8);
            },
            Op::SUBRN(d, n) => {
                let x = self.registers[d as usize];
                self.set_register(d, ((x as u16 + 256 - n as u16) % 256) as u8);
            },
            Op::SUBRR(d, s) => {
                let x = self.registers[d as usize];
                let y = self.registers[s as usize];
                self.set_register(d, ((x as u16 + 256 - y as u16) % 256) as u8);
            },
            Op::ANDRR(d, s) => {
                let v = self.registers[d as usize] & self.registers[s as usize];
                self.set_register(d, v);
            },
            Op::ANDRN(d, n) => {
                let v = self.registers[d as usize] & n;
                self.set_register(d, v);
            },
            Op::XORRR(d, s) => {
                let v = self.registers[d as usize] ^ self.registers[s as usize];
                self.set_register(d, v);
            },
            Op::XORRN(d, n) => {
                let v = self.registers[d as usize] ^ n;
                self.set_register(d, v);
            },
            Op::ORRR(d, s) => {
                let v = self.registers[d as usize] | self.registers[s as usize];
                self.set_register(d, v);
            },
            Op::ORRN(d, n) => {
                let v = self.registers[d as usize] | n;
                self.set_register(d, v);
            },
            Op::SHR(d) => {
                let v = self.registers[d as usize] / 2;
                self.set_register(d, v);
            },
            Op::SHL(d) => {
                let x = self.registers[d as usize];
                self.set_register(d, ((x as u16 * 2) % 256) as u8);
            },
            Op::PRINT(d) => {
                return Some(self.registers[d as usize]);
            },
            Op::JMP(to) => {
                self.state = State::Running { pc: to as usize };
            },
            Op::JMPIF(c, to) => {
                if holds_exec(&self.registers, c) {
                    self.state = State::Running { pc: to as usize };
                }
            },
            Op::HALT => {
                self.state = State::Halted(self.registers[EXIT_REGISTER]);
            },
            _ => {},
        }
        None
    }

    /// One tick: fetches the instruction at the counter and executes it.
    /// Returns the byte it prints, if any.
    pub fn step(&mut self) -> (r: Option<u8>)
        requires
            old(self).wf(),
            can_step(old(self)@),
        ensures
            final(self).wf(),
            (final(self)@, r) == step_model(old(self)@),
    {
        match self.fetch() {
            Some(op) => self.execute(op),
            None => None,
        }
    }

    /// Runs at most `max_steps` ticks, stopping early when the machine stops.
    /// Returns every byte printed.
    pub fn run(&mut self, max_steps: usize) -> (out: Vec<u8>)
        requires
            old(self).wf(),
        ensures
            final(self).wf(),
            (final(self)@, out@) == run_model(old(self)@, max_steps as nat),
    {
        let ghost m0 = self@;
        let mut out: Vec<u8> = Vec::new();
        let mut n = max_steps;
        while n > 0 && self.is_running()
            invariant
                self.wf(),
                run_model(m0, max_steps as nat) == (
                run_model(self@, n as nat).0,
                out@ + run_model(self@, n as nat).1,
                ),
            decreases n,
        {
            let ghost before = out@;
            let ghost m1 = step_model(self@).0;
            let ghost rest = run_model(m1, (n - 1) as nat).1;
            if let Some(b) = self.step() {
                out.push(b);
                assert(before + (seq![b] + rest) =~= out@ + rest);
            }
            n = n - 1;
        }
        assert(out@ + seq![] =~= out@);
        out
    }
}

/// Adding one to a register that holds 255 leaves 0 in it, and subtracting
/// one from a register that holds 0 leaves 255 in it.
pub proof fn lemma_arithmetic_wraps(m: Model, r: u8)
    requires
        model_wf(m),
        r < REGISTERS,
    ensures
        m.regs[r as int] == 255 ==> execute_op(m, Op::ADDRN(r, 1)).0.regs[r as int] == 0,
        m.regs[r as int] == 0 ==> execute_op(m, Op::SUBRN(r, 1)).0.regs[r as int] == 255,
{
}

/// An instruction written into memory is fetched back as itself, with the
/// counter moved past all of its bytes.
pub proof fn lemma_fetch_encoded(mem: Seq<u8>, pc: int, op: Op)
    requires
        0 <= pc,
        pc + op.spec_size() <= mem.len(),
        mem.subrange(pc, pc + op.spec_size()) == op.bytes(),
    ensures
        fetch_at(mem, pc) == (Some(op), pc + op.spec_size()),
{
    crate::shared::lemma_decode_inverts_encode(op);
    let n = op.spec_size() as int;
    assert(mem[pc] == mem.subrange(pc, pc + n)[0]);
    assert(mem.subrange(pc + 1, pc + n) =~= mem.subrange(pc, pc + n).subrange(1, n));
}

} // verus!
