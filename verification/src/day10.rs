//! Cathode-ray tube: a processor with one register, and the picture that
//! the register draws on a screen of forty columns.

use crate::text::{chars_of, lines, parse_isize, signed_of, spells, split_lines, split_words, views, words};
use vstd::prelude::*;
use vstd::string::StringExecFns;

verus! {

/// Why a program has no answer.
#[derive(Clone, Copy, Debug, PartialEq, Eq)]
pub enum Error {
    /// A line is neither `noop` nor `addx` and a number.
    InvalidInstruction,
    /// A number leaves the range of its type.
    Overflow,
}

/// An instruction: `AddX` takes two cycles and then adds its number to the
/// register, `NoOp` takes one cycle and does nothing.
#[derive(Clone, Copy, Debug, PartialEq, Eq)]
pub enum Inst {
    AddX(isize),
    NoOp,
}

/// The processor with its program and the picture drawn so far.
#[derive(Debug)]
pub struct CPU {
    pub program: Vec<Inst>,
    pub cycle: usize,
    pub icycles: usize,
    pub pc: usize,
    pub x: isize,
    pub cur: Option<Inst>,
    pub display: String,
}

/// The mathematical model of the processor.
pub struct State {
    pub program: Seq<Inst>,
    pub cycle: usize,
    pub icycles: usize,
    pub pc: usize,
    pub x: isize,
    pub cur: Option<Inst>,
    pub display: Seq<char>,
}

impl View for CPU {
    type V = State;

    open spec fn view(&self) -> State {
        State {
            program: self.program@,
            cycle: self.cycle,
            icycles: self.icycles,
            pc: self.pc,
            x: self.x,
            cur: self.cur,
            display: self.display@,
        }
    }
}

impl State {
    /// The state before the first cycle of `program`.
    pub open spec fn start(program: Seq<Inst>) -> State {
        State {
            program,
            cycle: 0,
            icycles: 0,
            pc: 0,
            x: 1,
            cur: None,
            display: Seq::empty(),
        }
    }

    /// Whether the current instruction ends with the next cycle, so that
    /// the next instruction is loaded.
    pub open spec fn loads(self) -> bool {
        match self.cur {
            Some(Inst::AddX(_)) => self.icycles != 0,
            _ => true,
        }
    }

    /// The register after the next cycle.
    pub open spec fn next_x(self) -> int {
        match self.cur {
            Some(Inst::AddX(dx)) => if self.icycles != 0 {
                self.x + dx
            } else {
                self.x as int
            },
            _ => self.x as int,
        }
    }

    /// Whether the next cycle keeps every number within the range of its
    /// type.
    pub open spec fn can_tick(self) -> bool {
        &&& self.cycle < usize::MAX
        &&& self.pc < usize::MAX
        &&& self.icycles < usize::MAX
        &&& isize::MIN <= self.next_x() <= isize::MAX
    }

    /// What the next cycle draws: a lit pixel if the column of the cycle is
    /// the register or next to it, a dark one if not, and a newline after
    /// the last column.
    pub open spec fn drawn(self) -> Seq<char> {
        let pos = self.cycle as int % 40;
        let d = pos - self.next_x();
        let pixel = if -1 <= d <= 1 {
            seq!['#']
        } else {
            seq!['.']
        };
        if pos == 39 {
            pixel.push('\n')
        } else {
            pixel
        }
    }

    /// The state after the next cycle.
    pub open spec fn ticked(self) -> State {
        State {
            program: self.program,
            cycle: (self.cycle + 1) as usize,
            icycles: if self.loads() {
                0
            } else {
                (self.icycles + 1) as usize
            },
            pc: if self.loads() {
                (self.pc + 1) as usize
            } else {
                self.pc
            },
            x: self.next_x() as isize,
            cur: if self.loads() {
                if self.pc < self.program.len() {
                    Some(self.program[self.pc as int])
                } else {
                    None
                }
            } else {
                self.cur
            },
            display: self.display + self.drawn(),
        }
    }

    /// The state after `n` more cycles, or `None` if one of them takes a
    /// number out of the range of its type.
    pub open spec fn after(self, n: nat) -> Option<State>
        decreases n,
    {
        if n == 0 {
            Some(self)
        } else {
            match self.after((n - 1) as nat) {
                Some(s) => if s.can_tick() {
                    Some(s.ticked())
                } else {
                    None
                },
                None => None,
            }
        }
    }
}

/// The instruction that a line gives.
pub open spec fn inst_of(line: Seq<char>) -> Result<Inst, Error> {
    let w = words(line);
    if w.len() == 2 && w[0] == "addx"@ {
        match signed_of(w[1], isize::MIN as int, isize::MAX as int) {
            Some(dx) => Ok(Inst::AddX(dx as isize)),
            None => Err(Error::InvalidInstruction),
        }
    } else if w.len() == 1 && w[0] == "noop"@ {
        Ok(Inst::NoOp)
    } else {
        Err(Error::InvalidInstruction)
    }
}

/// The program that the first `n` of `rows` give, or the error of the
/// first line that gives no instruction.
pub open spec fn program_of(rows: Seq<Seq<char>>, n: nat) -> Result<Seq<Inst>, Error>
    decreases n,
{
    if n == 0 {
        Ok(Seq::empty())
    } else {
        match program_of(rows, (n - 1) as nat) {
            Err(e) => Err(e),
            Ok(p) => match inst_of(rows[n - 1]) {
                Err(e) => Err(e),
                Ok(i) => Ok(p.push(i)),
            },
        }
    }
}

/// The sum, over the first `k` of the cycles 20, 60, 100 and so on, of the
/// number of the cycle times the register after it; `None` if a number
/// leaves the range of `isize`.
pub open spec fn strength(start: State, k: nat) -> Option<isize>
    decreases k,
{
    if k == 0 {
        Some(0isize)
    } else {
        let t = 40 * k - 20;
        match (strength(start, (k - 1) as nat), start.after(t as nat)) {
            (Some(sum), Some(s)) => if isize::MIN <= s.x * t <= isize::MAX && isize::MIN <= sum
                + s.x * t <= isize::MAX {
                Some((sum + s.x * t) as isize)
            } else {
                None
            },
            _ => None,
        }
    }
}

/// An error among the first lines is the error of all lines.
pub proof fn lemma_program_error(rows: Seq<Seq<char>>, k: nat, n: nat)
    requires
        k <= n,
        program_of(rows, k) is Err,
    ensures
        program_of(rows, n) == program_of(rows, k),
    decreases n,
{
    if k < n {
        lemma_program_error(rows, k, (n - 1) as nat);
    }
}

/// A cycle that cannot be run stops all later ones.
pub proof fn lemma_stuck(s: State, k: nat, n: nat)
    requires
        k <= n,
        s.after(k) is None,
    ensures
        s.after(n) is None,
    decreases n,
{
    if k < n {
        lemma_stuck(s, k, (n - 1) as nat);
    }
}

/// A sum that has left the range fails all later sums.
pub proof fn lemma_strength_stuck(s: State, k: nat, n: nat)
    requires
        k <= n,
        strength(s, k) is None,
    ensures
        strength(s, n) is None,
    decreases n,
{
    if k < n {
        lemma_strength_stuck(s, k, (n - 1) as nat);
    }
}

impl CPU {
    /// The processor before the first cycle of the program `p`.
    pub fn new(p: Vec<Inst>) -> (r: Self)
        ensures
            r@ == State::start(p@),
    {
        CPU { program: p, cycle: 0, icycles: 0, cur: None, pc: 0, x: 1, display: String::new() }
    }

    /// Whether the next cycle keeps every number within the range of its
    /// type.
    pub fn can_tick(&self) -> (r: bool)
        ensures
            r == self@.can_tick(),
    {
        if self.cycle == usize::MAX || self.pc == usize::MAX || self.icycles == usize::MAX {
            return false;
        }
        match self.cur {
            Some(Inst::AddX(dx)) => self.icycles == 0 || self.x.checked_add(dx).is_some(),
            _ => true,
        }
    }

    /// Loads the next instruction, if the program has one.
    fn load(&mut self)
        requires
            old(self).pc < usize::MAX,
        ensures
            *final(self) == (CPU {
                cur: if old(self).pc < old(self).program.len() {
                    Some(old(self).program[old(self).pc as int])
                } else {
                    None
                },
                pc: (old(self).pc + 1) as usize,
                icycles: 0,
                ..*old(self)
            }),
    {
        self.cur = if self.pc < self.program.len() {
            Some(self.program[self.pc])
        } else {
            None
        };
        self.pc = self.pc + 1;
        self.icycles = 0;
    }

    /// Runs one cycle.
    pub fn tick(&mut self)
        requires
            old(self)@.can_tick(),
        ensures
            final(self)@ == old(self)@.ticked(),
    {
        match self.cur {
            None => {
                self.load();
            },
            Some(inst) => match inst {
                Inst::AddX(dx) => {
                    if self.icycles == 0 {
                        self.icycles = self.icycles + 1;
                    } else {
                        self.x = self.x + dx;
                        self.load();
                    }
                },
                Inst::NoOp => {
                    self.load();
                },
            },
        }
        let pos = (self.cycle % 40) as isize;
        self.cycle = self.cycle + 1;
        let lit = pos - 1 <= self.x && self.x <= pos + 1;
        let ghost before = self.display@;
        assert(before == old(self).display@);
        assert(pos == old(self).cycle as int % 40);
        assert(self.x == old(self)@.next_x());
        proof {
            reveal_strlit("#");
            reveal_strlit(".");
            reveal_strlit("\n");
            assert("#"@ =~= seq!['#']);
            assert("."@ =~= seq!['.']);
            assert("\n"@ =~= seq!['\n']);
        }
        if lit {
            self.display.append("#");
        } else {
            self.display.append(".");
        }
        if pos == 39 {
            self.display.append("\n");
        }
        assert(self.display@ =~= before + old(self)@.drawn());
    }
}

/// Reads the instruction that a line gives.
pub fn parse(line: &Vec<char>) -> (r: Result<Inst, Error>)
    ensures
        r == inst_of(line@),
{
    let w = split_words(line);
    assert(w@.len() == words(line@).len());
    assert(forall|k: int| 0 <= k < w.len() ==> (#[trigger] w[k])@ == words(line@)[k]);
    if w.len() == 2 && spells(&w[0], "addx") {
        match parse_isize(&w[1]) {
            Some(dx) => Ok(Inst::AddX(dx)),
            None => Err(Error::InvalidInstruction),
        }
    } else if w.len() == 1 && spells(&w[0], "noop") {
        Ok(Inst::NoOp)
    } else {
        Err(Error::InvalidInstruction)
    }
}

/// Reads the program that `input` gives, one instruction to a line.
pub fn load_program(input: &str) -> (r: Result<Vec<Inst>, Error>)
    ensures
        match r {
            Ok(p) => program_of(lines(input@), lines(input@).len()) == Ok::<Seq<Inst>, Error>(p@),
            Err(e) => program_of(lines(input@), lines(input@).len()) == Err::<Seq<Inst>, Error>(
                e,
            ),
        },
{
    let text = chars_of(input);
    let rows = split_lines(&text);
    let ghost all = lines(input@);
    let mut out: Vec<Inst> = Vec::new();
    let mut i: usize = 0;
    while i < rows.len()
        invariant
            i <= rows.len(),
            views(rows@) == all,
            all == lines(input@),
            program_of(all, i as nat) == Ok::<Seq<Inst>, Error>(out@),
        decreases rows.len() - i,
    {
        assert(all[i as int] == rows[i as int]@);
        match parse(&rows[i]) {
            Err(e) => {
                proof {
                    lemma_program_error(all, (i + 1) as nat, all.len());
                }
                return Err(e);
            },
            Ok(inst) => {
                out.push(inst);
            },
        }
        i += 1;
    }
    Ok(out)
}

/// Runs the processor until cycle `until` is over. Returns whether it got
/// there; if not, a number would have left the range of its type.
fn run(cpu: &mut CPU, until: usize, Ghost(start): Ghost<State>) -> (ok: bool)
    requires
        old(cpu).cycle <= until,
        start.after(old(cpu).cycle as nat) == Some(old(cpu)@),
    ensures
        ok ==> start.after(until as nat) == Some(final(cpu)@) && final(cpu).cycle == until,
        !ok ==> start.after(until as nat) is None,
{
    while cpu.cycle < until
        invariant
            cpu.cycle <= until,
            start.after(cpu.cycle as nat) == Some(cpu@),
        decreases until - cpu.cycle,
    {
        if !cpu.can_tick() {
            proof {
                lemma_stuck(start, (cpu.cycle + 1) as nat, until as nat);
            }
            return false;
        }
        cpu.tick();
    }
    true
}

/// The sum of the signal strengths after the cycles 20, 60, 100, 140, 180
/// and 220 of the program that `input` gives: the number of the cycle times
/// the register.
pub fn compute1(input: &str) -> (r: Result<isize, Error>)
    ensures
        match program_of(lines(input@), lines(input@).len()) {
            Err(e) => r == Err::<isize, Error>(e),
            Ok(p) => match strength(State::start(p), 6) {
                Some(v) => r == Ok::<isize, Error>(v),
                None => r == Err::<isize, Error>(Error::Overflow),
            },
        },
{
    let program = match load_program(input) {
        Ok(p) => p,
        Err(e) => {
            return Err(e);
        },
    };
    let ghost start = State::start(program@);
    let mut cpu = CPU::new(program);
    let mut sum: isize = 0;
    let mut k: usize = 0;
    while k < 6
        invariant
            k <= 6,
            cpu.cycle == if k == 0 { 0int } else { 40 * k - 20 },
            start.after(cpu.cycle as nat) == Some(cpu@),
            strength(start, k as nat) == Some(sum),
            program_of(lines(input@), lines(input@).len()) == Ok::<Seq<Inst>, Error>(
                start.program,
            ),
            start == State::start(start.program),
        decreases 6 - k,
    {
        let t: usize = 40 * (k + 1) - 20;
        let ok = run(&mut cpu, t, Ghost(start));
        let add = if ok {
            cpu.x.checked_mul(t as isize)
        } else {
            None
        };
        let next = match add {
            Some(a) => sum.checked_add(a),
            None => None,
        };
        match next {
            Some(s) => {
                sum = s;
            },
            None => {
                proof {
                    assert(strength(start, (k + 1) as nat) is None);
                    lemma_strength_stuck(start, (k + 1) as nat, 6);
                }
                return Err(Error::Overflow);
            },
        }
        k += 1;
    }
    Ok(sum)
}

/// The picture that the program that `input` gives draws in 240 cycles: six
/// lines of forty pixels.
pub fn compute2(input: &str) -> (r: Result<String, Error>)
    ensures
        match program_of(lines(input@), lines(input@).len()) {
            Err(e) => r matches Err(f) && f == e,
            Ok(p) => match State::start(p).after(240) {
                Some(s) => r matches Ok(picture) && picture@ == s.display,
                None => r matches Err(f) && f == Error::Overflow,
            },
        },
{
    let program = match load_program(input) {
        Ok(p) => p,
        Err(e) => {
            return Err(e);
        },
    };
    let ghost start = State::start(program@);
    let mut cpu = CPU::new(program);
    if run(&mut cpu, 240, Ghost(start)) {
        Ok(cpu.display)
    } else {
        Err(Error::Overflow)
    }
}

} // verus!
