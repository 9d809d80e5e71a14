//! The host runtime: the tape, the data pointer, the program counter and the
//! two byte streams of one program execution, with the effect of every kind
//! of instruction on them.

use vstd::prelude::*;
use crate::error::{pointer_out_of_range, pointer_text, short_read, short_read_text, BfError, BfResult};
use crate::math::{unbalanced_wrapping_add, unbalanced_wrapping_sub, wrap_add, wrap_sub};

verus! {

/// The number of cells of the tape.
pub const MEMORY_SIZE: usize = 30000;

/// What an execution has reached: the model of a `Runtime`.
pub struct State {
    /// The cells.
    pub tape: Seq<u8>,
    /// The index of the current cell.
    pub dp: int,
    /// The index of the next instruction.
    pub pc: int,
    /// The input that has not been read yet.
    pub input: Seq<u8>,
    /// All output written so far.
    pub output: Seq<u8>,
}

/// Why an instruction could not be carried out.
pub enum Fault {
    /// The data pointer would have left the tape.
    Pointer,
    /// A byte was asked for at the end of the input.
    ShortRead,
}

/// What carrying out one instruction leads to.
pub enum Step {
    Next(State),
    Fault(Fault),
}

/// How a bounded run ended.
pub enum Status {
    /// The program counter ran past the last instruction.
    Halted,
    /// The step budget was used up first.
    Paused,
    /// An instruction could not be carried out.
    Faulted(Fault),
}

impl State {
    /// The tape has its full length and the data pointer is on it.
    pub open spec fn wf(self) -> bool {
        &&& self.tape.len() == MEMORY_SIZE
        &&& 0 <= self.dp < MEMORY_SIZE
        &&& 0 <= self.pc
    }

    /// The state in which every execution starts.
    pub open spec fn initial(input: Seq<u8>) -> State {
        State { tape: Seq::new(MEMORY_SIZE as nat, |i: int| 0u8), dp: 0, pc: 0, input, output: Seq::empty() }
    }

    /// The current cell.
    pub open spec fn cell(self) -> u8 {
        self.tape[self.dp]
    }

    /// The same state with another program counter.
    pub open spec fn at(self, pc: int) -> State {
        State { pc, ..self }
    }

    /// The data pointer moved by `offset` cells, unless that leaves the tape.
    pub open spec fn move_ptr(self, offset: int) -> Step {
        if 0 <= self.dp + offset < MEMORY_SIZE {
            Step::Next(State { dp: self.dp + offset, ..self })
        } else {
            Step::Fault(Fault::Pointer)
        }
    }

    /// The current cell raised `n` times, wrapping.
    pub open spec fn inc_data(self, n: nat) -> State {
        State { tape: self.tape.update(self.dp, wrap_add(self.cell(), n)), ..self }
    }

    /// The current cell lowered `n` times, wrapping.
    pub open spec fn dec_data(self, n: nat) -> State {
        State { tape: self.tape.update(self.dp, wrap_sub(self.cell(), n)), ..self }
    }

    /// `n` bytes read into the current cell one after the other, so that the
    /// last one stays.
    pub open spec fn read(self, n: nat) -> Step {
        if n == 0 {
            Step::Next(self)
        } else if self.input.len() < n {
            Step::Fault(Fault::ShortRead)
        } else {
            Step::Next(
                State {
                    tape: self.tape.update(self.dp, self.input[n - 1]),
                    input: self.input.skip(n as int),
                    ..self
                },
            )
        }
    }

    /// What a read leaves that finds too little input: all of the input is
    /// consumed, and its last byte, if it had one, stands in the current
    /// cell.
    pub open spec fn drained(self) -> State {
        if self.input.len() == 0 {
            self
        } else {
            State {
                tape: self.tape.update(self.dp, self.input.last()),
                input: Seq::empty(),
                ..self
            }
        }
    }

    /// The current cell written `n` times.
    pub open spec fn write(self, n: nat) -> State {
        State { output: self.output + Seq::new(n, |i: int| self.cell()), ..self }
    }

    /// The current cell cleared.
    pub open spec fn set_zero(self) -> State {
        State { tape: self.tape.update(self.dp, 0u8), ..self }
    }

    /// How many more strides a scan can take before it leaves the tape.
    pub open spec fn room(self, stride: int) -> int {
        if stride > 0 {
            MEMORY_SIZE - self.dp
        } else {
            self.dp + 1
        }
    }

    /// The data pointer moved by `stride` again and again until it stands on
    /// a zero cell, unless it leaves the tape first.
    pub open spec fn scan(self, stride: int) -> Step
        decreases self.room(stride),
        when self.wf() && stride != 0
    {
        if self.cell() == 0 {
            Step::Next(self)
        } else {
            match self.move_ptr(stride) {
                Step::Next(s) => s.scan(stride),
                Step::Fault(f) => Step::Fault(f),
            }
        }
    }

    /// Where a scan comes to rest: on the first zero cell that it meets, or
    /// on the cell from which it cannot move on without leaving the tape.
    pub open spec fn scan_reach(self, stride: int) -> State
        decreases self.room(stride),
        when self.wf() && stride != 0
    {
        if self.cell() == 0 {
            self
        } else {
            match self.move_ptr(stride) {
                Step::Next(s) => s.scan_reach(stride),
                Step::Fault(_) => self,
            }
        }
    }

    /// `count` scans, one after the other.
    pub open spec fn scans(self, count: nat, stride: int) -> Step
        decreases count,
    {
        if count == 0 {
            Step::Next(self)
        } else {
            match self.scan(stride) {
                Step::Next(s) => s.scans((count - 1) as nat, stride),
                Step::Fault(f) => Step::Fault(f),
            }
        }
    }

    /// Where the current cell is not zero: it is added, wrapping, to the cell
    /// `offset` away and then cleared, unless that cell is off the tape.
    pub open spec fn move_data(self, offset: int) -> Step {
        if self.cell() == 0 {
            Step::Next(self)
        } else if 0 <= self.dp + offset < MEMORY_SIZE {
            let target = self.dp + offset;
            let sum = wrap_add(self.tape[target], self.cell() as nat);
            Step::Next(State { tape: self.tape.update(target, sum).update(self.dp, 0u8), ..self })
        } else {
            Step::Fault(Fault::Pointer)
        }
    }

    /// `count` such moves, one after the other.
    pub open spec fn move_datas(self, count: nat, offset: int) -> Step
        decreases count,
    {
        if count == 0 {
            Step::Next(self)
        } else {
            match self.move_data(offset) {
                Step::Next(s) => s.move_datas((count - 1) as nat, offset),
                Step::Fault(f) => Step::Fault(f),
            }
        }
    }
}

impl Step {
    /// The same outcome with the program counter set, where there is a state.
    pub open spec fn at(self, pc: int) -> Step {
        match self {
            Step::Next(s) => Step::Next(s.at(pc)),
            Step::Fault(f) => Step::Fault(f),
        }
    }
}

/// A scan comes to rest on the tape, and has moved nothing but the data
/// pointer.
pub proof fn lemma_scan_reach(s: State, stride: int)
    requires
        s.wf(),
        stride != 0,
    ensures
        s.scan_reach(stride).wf(),
        s.scan_reach(stride) == (State { dp: s.scan_reach(stride).dp, ..s }),
    decreases s.room(stride),
{
    if s.cell() != 0 {
        match s.move_ptr(stride) {
            Step::Next(t) => lemma_scan_reach(t, stride),
            Step::Fault(_) => {},
        }
    }
}

/// Whether `e` is the error that reports the fault `f`.
pub open spec fn reports(e: BfError, f: Fault) -> bool {
    match f {
        Fault::Pointer => e.is_numeric(pointer_text()),
        Fault::ShortRead => e.is_io(short_read_text()),
    }
}

/// Whether the result of a bounded run tells the status `status`: `Ok(true)`
/// for a program that ended, `Ok(false)` for one that was paused, and the
/// error of the fault otherwise.
pub open spec fn tells(r: BfResult<bool>, status: Status) -> bool {
    match status {
        Status::Halted => r == Ok::<bool, BfError>(true),
        Status::Paused => r == Ok::<bool, BfError>(false),
        Status::Faulted(f) => r is Err && reports(r->Err_0, f),
    }
}

/// The tape, the data pointer, the program counter and the byte streams of
/// one execution.
pub struct Runtime {
    pub memory: Vec<u8>,
    pub data_pointer: usize,
    pub pc: usize,
    pub stdin: Vec<u8>,
    pub consumed: usize,
    pub stdout: Vec<u8>,
}

impl View for Runtime {
    type V = State;

    open spec fn view(&self) -> State {
        State {
            tape: self.memory@,
            dp: self.data_pointer as int,
            pc: self.pc as int,
            input: self.stdin@.skip(self.consumed as int),
            output: self.stdout@,
        }
    }
}

impl Runtime {
    /// The tape has its full length, the data pointer is on it, and no more
    /// input was consumed than there is.
    pub open spec fn wf(&self) -> bool {
        &&& self@.wf()
        &&& self.consumed <= self.stdin@.len()
    }

    /// A runtime with a zeroed tape, at the start of the given input.
    pub fn new(stdin: Vec<u8>) -> (r: Runtime)
        ensures
            r.wf(),
            r@ == State::initial(stdin@),
            r.stdin == stdin,
            r.consumed == 0,
    {
        let memory: Vec<u8> = vec![0u8; MEMORY_SIZE];
        let r = Runtime { memory, data_pointer: 0, pc: 0, stdin, consumed: 0, stdout: Vec::new() };
        proof {
            assert(r@.tape =~= State::initial(stdin@).tape);
            assert(r@.input =~= stdin@);
        }
        r
    }

    /// The current cell.
    pub fn cell(&self) -> (b: u8)
        requires
            self.wf(),
        ensures
            b == self@.cell(),
    {
        self.memory[self.data_pointer]
    }

    /// Makes more input available behind what is there.
    pub fn feed(&mut self, byte: u8)
        requires
            old(self).wf(),
        ensures
            final(self).wf(),
            final(self)@ == (State { input: old(self)@.input.push(byte), ..old(self)@ }),
    {
        self.stdin.push(byte);
        proof {
            assert(self@.input =~= old(self)@.input.push(byte));
        }
    }

    /// Takes out the output written so far.
    pub fn take_output(&mut self) -> (out: Vec<u8>)
        requires
            old(self).wf(),
        ensures
            final(self).wf(),
            out@ == old(self)@.output,
            final(self)@ == (State { output: Seq::empty(), ..old(self)@ }),
    {
        let mut out: Vec<u8> = Vec::new();
        out.append(&mut self.stdout);
        proof {
            assert(out@ =~= old(self)@.output);
        }
        out
    }

    /// Reads the next byte of the input; fails with `Io` at its end.
    pub fn read(&mut self) -> (r: BfResult<u8>)
        requires
            old(self).wf(),
        ensures
            final(self).wf(),
            old(self)@.input.len() > 0 ==> r == Ok::<u8, BfError>(old(self)@.input[0])
                && final(self)@ == (State { input: old(self)@.input.skip(1), ..old(self)@ }),
            old(self)@.input.len() == 0 ==> r is Err && r->Err_0.is_io(short_read_text())
                && final(self)@ == old(self)@,
    {
        if self.consumed < self.stdin.len() {
            let b = self.stdin[self.consumed];
            self.consumed += 1;
            proof {
                assert(self@.input =~= old(self)@.input.skip(1));
            }
            Ok(b)
        } else {
            proof {
                assert(old(self)@.input.len() == 0);
            }
            Err(short_read())
        }
    }

    /// Writes one byte to the output.
    pub fn write(&mut self, byte: u8)
        requires
            old(self).wf(),
        ensures
            final(self).wf(),
            final(self)@ == (State { output: old(self)@.output.push(byte), ..old(self)@ }),
    {
        self.stdout.push(byte);
    }

    /// Moves the data pointer `count` cells up or down the tape; fails with
    /// `Numeric` where that leaves the tape.
    pub fn move_ptr(&mut self, forward: bool, count: usize) -> (r: BfResult<()>)
        requires
            old(self).wf(),
        ensures
            final(self).wf(),
            match old(self)@.move_ptr(if forward { count as int } else { -(count as int) }) {
                Step::Next(s) => r is Ok && final(self)@ == s,
                Step::Fault(f) => r is Err && reports(r->Err_0, f) && final(self)@ == old(self)@,
            },
    {
        if forward {
            if count < MEMORY_SIZE - self.data_pointer {
                self.data_pointer += count;
                Ok(())
            } else {
                Err(pointer_out_of_range())
            }
        } else {
            if count <= self.data_pointer {
                self.data_pointer -= count;
                Ok(())
            } else {
                Err(pointer_out_of_range())
            }
        }
    }

    /// Raises the current cell `count` times, wrapping.
    pub fn inc_data(&mut self, count: usize)
        requires
            old(self).wf(),
        ensures
            final(self).wf(),
            final(self)@ == old(self)@.inc_data(count as nat),
    {
        let dp = self.data_pointer;
        let v = unbalanced_wrapping_add(self.memory[dp], count);
        self.memory[dp] = v;
    }

    /// Lowers the current cell `count` times, wrapping.
    pub fn dec_data(&mut self, count: usize)
        requires
            old(self).wf(),
        ensures
            final(self).wf(),
            final(self)@ == old(self)@.dec_data(count as nat),
    {
        let dp = self.data_pointer;
        let v = unbalanced_wrapping_sub(self.memory[dp], count);
        self.memory[dp] = v;
    }

    /// Reads `count` bytes into the current cell, so that the last one
    /// stays; fails with `Io` where the input ends first, and has then read
    /// what there was.
    pub fn read_many(&mut self, count: usize) -> (r: BfResult<()>)
        requires
            old(self).wf(),
        ensures
            final(self).wf(),
            match old(self)@.read(count as nat) {
                Step::Next(s) => r is Ok && final(self)@ == s,
                Step::Fault(f) => r is Err && reports(r->Err_0, f) && final(self)@ == old(
                    self,
                )@.drained(),
            },
    {
        let mut i: usize = 0;
        while i < count
            invariant
                self.wf(),
                0 <= i <= count,
                i <= old(self)@.input.len(),
                old(self).wf(),
                old(self)@.read(i as nat) == Step::Next(self@),
            decreases count - i,
        {
            let ghost before = self@;
            match self.read() {
                Ok(b) => {
                    let dp = self.data_pointer;
                    self.memory[dp] = b;
                    proof {
                        let s0 = old(self)@;
                        assert(before.input.len() > 0);
                        assert(before.input == s0.input.skip(i as int));
                        assert(b == s0.input[i as int]);
                        assert(self@.input =~= s0.input.skip(i + 1));
                        assert(self@.tape =~= s0.tape.update(s0.dp, s0.input[i as int]));
                    }
                },
                Err(e) => {
                    proof {
                        let s0 = old(self)@;
                        assert(before.input == s0.input.skip(i as int));
                        assert(s0.input.len() == i);
                        assert(self@.input =~= Seq::<u8>::empty());
                        assert(self@ == s0.drained());
                    }
                    return Err(e);
                },
            }
            i += 1;
        }
        Ok(())
    }

    /// Writes the current cell `count` times.
    pub fn write_many(&mut self, count: usize)
        requires
            old(self).wf(),
        ensures
            final(self).wf(),
            final(self)@ == old(self)@.write(count as nat),
    {
        let b = self.cell();
        let mut i: usize = 0;
        while i < count
            invariant
                self.wf(),
                old(self).wf(),
                0 <= i <= count,
                b == old(self)@.cell(),
                self@ == old(self)@.write(i as nat),
            decreases count - i,
        {
            self.write(b);
            proof {
                assert(self@.output =~= old(self)@.write((i + 1) as nat).output);
            }
            i += 1;
        }
        proof {
            assert(old(self)@.write(0).output =~= old(self)@.output);
        }
    }

    /// Clears the current cell.
    pub fn set_data_to_zero(&mut self)
        requires
            old(self).wf(),
        ensures
            final(self).wf(),
            final(self)@ == old(self)@.set_zero(),
    {
        let dp = self.data_pointer;
        self.memory[dp] = 0;
    }

    /// Moves the data pointer by `amount` cells at a time until it stands on
    /// a zero cell, `count` times over; fails with `Numeric` where it would
    /// leave the tape, and stays on the cell that it has reached.
    pub fn move_ptr_until_zero(&mut self, count: usize, forward: bool, amount: usize) -> (r:
        BfResult<()>)
        requires
            old(self).wf(),
            amount > 0,
        ensures
            final(self).wf(),
            final(self).pc == old(self).pc,
            match old(self)@.scans(
                count as nat,
                if forward { amount as int } else { -(amount as int) },
            ) {
                Step::Next(s) => r is Ok && final(self)@ == s,
                Step::Fault(f) => r is Err && reports(r->Err_0, f) && final(self)@ == old(
                    self,
                )@.scan_reach(if forward { amount as int } else { -(amount as int) }),
            },
    {
        let ghost stride = if forward { amount as int } else { -(amount as int) };
        let mut i: usize = 0;
        while i < count
            invariant
                self.wf(),
                old(self).wf(),
                amount > 0,
                stride == if forward { amount as int } else { -(amount as int) },
                0 <= i <= count,
                self.pc == old(self).pc,
                self@.output == old(self)@.output,
                i == 0 ==> self@ == old(self)@,
                i > 0 ==> self@.cell() == 0,
                old(self)@.scans(count as nat, stride) == self@.scans((count - i) as nat, stride),
            decreases count - i,
        {
            let ghost start = self@;
            while self.cell() != 0
                invariant
                    self.wf(),
                    start.wf(),
                    amount > 0,
                    stride == if forward { amount as int } else { -(amount as int) },
                    self@.output == start.output,
                    self.pc == old(self).pc,
                    start.output == old(self)@.output,
                    start.scan(stride) == self@.scan(stride),
                    start.scan_reach(stride) == self@.scan_reach(stride),
                    self@.cell() != 0 ==> i == 0,
                    i == 0 ==> start == old(self)@,
                    i < count,
                    old(self)@.scans(count as nat, stride) == start.scans(
                        (count - i) as nat,
                        stride,
                    ),
                decreases self@.room(stride),
            {
                let ghost here = self@;
                match self.move_ptr(forward, amount) {
                    Ok(()) => {},
                    Err(e) => {
                        proof {
                            assert(here.scan(stride) is Fault);
                            assert(start.scans((count - i) as nat, stride) is Fault);
                            assert(here.scan_reach(stride) == here);
                        }
                        return Err(e);
                    },
                }
            }
            i += 1;
        }
        Ok(())
    }

    /// Where the current cell is not zero, adds it to the cell `amount` away
    /// and clears it, `count` times over; fails with `Numeric` where that
    /// cell is off the tape, and changes nothing then.
    pub fn move_data(&mut self, count: usize, forward: bool, amount: usize) -> (r: BfResult<()>)
        requires
            old(self).wf(),
        ensures
            final(self).wf(),
            final(self).pc == old(self).pc,
            match old(self)@.move_datas(
                count as nat,
                if forward { amount as int } else { -(amount as int) },
            ) {
                Step::Next(s) => r is Ok && final(self)@ == s,
                Step::Fault(f) => r is Err && reports(r->Err_0, f) && final(self)@ == old(self)@,
            },
    {
        let ghost offset = if forward { amount as int } else { -(amount as int) };
        let mut i: usize = 0;
        while i < count
            invariant
                self.wf(),
                old(self).wf(),
                offset == if forward { amount as int } else { -(amount as int) },
                0 <= i <= count,
                self.pc == old(self).pc,
                self@.output == old(self)@.output,
                i == 0 ==> self@ == old(self)@,
                i > 0 ==> self@.cell() == 0,
                old(self)@.move_datas(count as nat, offset) == self@.move_datas(
                    (count - i) as nat,
                    offset,
                ),
            decreases count - i,
        {
            let dp = self.data_pointer;
            let value = self.memory[dp];
            if value != 0 {
                let in_range = if forward {
                    amount < MEMORY_SIZE - dp
                } else {
                    amount <= dp
                };
                if !in_range {
                    return Err(pointer_out_of_range());
                }
                let target = if forward {
                    dp + amount
                } else {
                    dp - amount
                };
                let sum = self.memory[target].wrapping_add(value);
                self.memory[target] = sum;
                self.memory[dp] = 0;
            }
            i += 1;
        }
        Ok(())
    }
}

} // verus!
