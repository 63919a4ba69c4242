use crate::program::{wf_at, wf_program, Key, Program};
use crate::push_char;
use crate::tape::Tape;
use crate::Overflow;
use vstd::arithmetic::div_mod::{
    lemma_mod_add_multiples_vanish, lemma_mod_bound, lemma_small_mod,
};
use vstd::prelude::*;

verus! {

/// Result of one engine step: more instructions follow, the run has ended,
/// or a fatal condition with its message.
pub enum Step {
    Next,
    Error(String),
    End,
}

/// Mathematical state of the execution engine.
#[verifier::ext_equal]
pub ghost struct EngineModel {
    pub code: Seq<Key>,
    pub pc: int,
    pub tape: Seq<u8>,
    pub vp: int,
    pub phys: int,
    pub input: Seq<char>,
    pub output: Seq<char>,
    pub steps: int,
    pub policy: Overflow,
    pub as_int: bool,
}

/// What a step reports, before an error message is attached.
pub ghost enum StepOutcome {
    Next,
    End,
    ErrOverflow,
    ErrInput,
}

pub open spec fn overflow_exit_msg() -> Seq<char> {
    "Overflow exit."@
}

pub open spec fn no_input_msg() -> Seq<char> {
    "No input event available."@
}

pub open spec fn matches_outcome(r: Step, o: StepOutcome) -> bool {
    match o {
        StepOutcome::Next => r is Next,
        StepOutcome::End => r is End,
        StepOutcome::ErrOverflow => (r matches Step::Error(m) && m@ == overflow_exit_msg()),
        StepOutcome::ErrInput => (r matches Step::Error(m) && m@ == no_input_msg()),
    }
}

/// Cell increment with wraparound: 255 becomes 0.
pub open spec fn wrap_inc(v: u8) -> u8 {
    if v == 255 {
        0
    } else {
        (v + 1) as u8
    }
}

/// Cell decrement with wraparound: 0 becomes 255.
pub open spec fn wrap_dec(v: u8) -> u8 {
    if v == 0 {
        255
    } else {
        (v - 1) as u8
    }
}

/// The wraparound cell operations are exactly arithmetic modulo 256.
pub proof fn lemma_wrap_mod(v: u8)
    ensures
        wrap_inc(v) == (v + 1) % 256,
        wrap_dec(v) == (v + 255) % 256,
{
}

/// The step counter grows by one until it would no longer fit its word.
pub open spec fn bump(steps: int) -> int {
    if steps < u64::MAX {
        steps + 1
    } else {
        steps
    }
}

/// One move of the virtual pointer, pinned at the representable extremes.
pub open spec fn vp_after_move(vp: int, to_right: bool) -> int {
    if to_right {
        if vp < i64::MAX {
            vp + 1
        } else {
            vp
        }
    } else {
        if vp > i64::MIN {
            vp - 1
        } else {
            vp
        }
    }
}

/// Maps a virtual pointer to (virtual pointer, physical pointer) under a
/// policy. An in-range pointer maps to itself whatever the policy; an
/// out-of-range one is pinned at the nearest bound (`Block`), kept but
/// redirected to the boundary cell (`Overflow`), wrapped by true modulo into
/// range (`Loop`), or refused (`Exit`).
pub open spec fn policy_map(policy: Overflow, vp: int, len: int) -> Option<(int, int)> {
    if 0 <= vp < len {
        Some((vp, vp))
    } else {
        match policy {
            Overflow::Block => if vp < 0 {
                Some((0, 0))
            } else {
                Some((len - 1, len - 1))
            },
            Overflow::Overflow => if vp < 0 {
                Some((vp, 0))
            } else {
                Some((vp, len - 1))
            },
            Overflow::Loop => Some((vp % len, vp % len)),
            Overflow::Exit => None,
        }
    }
}

/// A pointer move: adjust the virtual pointer, then apply the policy. On
/// success the program counter advances; on refusal it does not, and the
/// physical pointer is left untouched.
pub open spec fn spec_move(m: EngineModel, to_right: bool) -> (EngineModel, StepOutcome) {
    let vp2 = vp_after_move(m.vp, to_right);
    match policy_map(m.policy, vp2, m.tape.len() as int) {
        Some(pp) => (
            EngineModel { pc: m.pc + 1, vp: pp.0, phys: pp.1, steps: bump(m.steps), ..m },
            StepOutcome::Next,
        ),
        None => (EngineModel { vp: vp2, steps: bump(m.steps), ..m }, StepOutcome::ErrOverflow),
    }
}

/// The display character of decimal digit `d`.
pub open spec fn digit_char(d: int) -> char {
    ((d + 0x30) as u8) as char
}

/// Decimal representation of a cell value, without leading zeros.
pub open spec fn decimal_chars(v: u8) -> Seq<char> {
    if v >= 100 {
        seq![digit_char(v as int / 100), digit_char((v as int / 10) % 10), digit_char(v as int % 10)]
    } else if v >= 10 {
        seq![digit_char((v as int / 10) % 10), digit_char(v as int % 10)]
    } else {
        seq![digit_char(v as int % 10)]
    }
}

/// Fixed-width three-digit representation of a cell value, for the tape line
/// of the display.
pub open spec fn cell_chars(v: u8) -> Seq<char> {
    seq![digit_char(v as int / 100), digit_char((v as int % 100) / 10), digit_char(v as int % 10)]
}

/// What the output accumulator gains when a cell value is printed.
pub open spec fn output_of(v: u8, as_int: bool) -> Seq<char> {
    if as_int {
        decimal_chars(v) + seq![' ']
    } else {
        seq![v as char]
    }
}

/// The transition of one engine step: `End` at the end of the program with
/// nothing changed; otherwise the instruction under the program counter is
/// dispatched and the step counter grows.
pub open spec fn spec_step(m: EngineModel, input: Option<char>) -> (EngineModel, StepOutcome) {
    if m.pc >= m.code.len() {
        (m, StepOutcome::End)
    } else {
        let cell = m.tape[m.phys];
        match m.code[m.pc] {
            Key::Right => spec_move(m, true),
            Key::Left => spec_move(m, false),
            Key::Add => (
                EngineModel {
                    tape: m.tape.update(m.phys, wrap_inc(cell)),
                    pc: m.pc + 1,
                    steps: bump(m.steps),
                    ..m
                },
                StepOutcome::Next,
            ),
            Key::Sub => (
                EngineModel {
                    tape: m.tape.update(m.phys, wrap_dec(cell)),
                    pc: m.pc + 1,
                    steps: bump(m.steps),
                    ..m
                },
                StepOutcome::Next,
            ),
            Key::Out => (
                EngineModel {
                    output: m.output + output_of(cell, m.as_int),
                    pc: m.pc + 1,
                    steps: bump(m.steps),
                    ..m
                },
                StepOutcome::Next,
            ),
            Key::In => match input {
                None => (EngineModel { steps: bump(m.steps), ..m }, StepOutcome::ErrInput),
                Some(c) => (
                    EngineModel {
                        tape: m.tape.update(m.phys, c as u8),
                        input: m.input.push(c),
                        pc: m.pc + 1,
                        steps: bump(m.steps),
                        ..m
                    },
                    StepOutcome::Next,
                ),
            },
            Key::If(t) => (
                EngineModel {
                    pc: if cell == 0 {
                        t as int
                    } else {
                        m.pc + 1
                    },
                    steps: bump(m.steps),
                    ..m
                },
                StepOutcome::Next,
            ),
            Key::Back(t) => (
                EngineModel {
                    pc: if cell != 0 {
                        t as int
                    } else {
                        m.pc + 1
                    },
                    steps: bump(m.steps),
                    ..m
                },
                StepOutcome::Next,
            ),
        }
    }
}

/// A live engine state: the program is well formed, the program counter is
/// on the program or just past it, the physical pointer is on the tape, and
/// under the policies that keep the virtual pointer in range it is in range.
pub open spec fn model_wf(m: EngineModel) -> bool {
    &&& wf_program(m.code)
    &&& 0 <= m.pc <= m.code.len()
    &&& 1 <= m.tape.len()
    &&& m.tape.len() <= i64::MAX
    &&& 0 <= m.phys < m.tape.len()
    &&& i64::MIN <= m.vp <= i64::MAX
    &&& 0 <= m.steps <= u64::MAX
    &&& (match m.policy {
        Overflow::Block => 0 <= m.vp < m.tape.len(),
        Overflow::Loop => 0 <= m.vp < m.tape.len(),
        _ => true,
    })
}

/// The initial engine state over a fresh zeroed tape.
pub open spec fn init_model(code: Seq<Key>, len: int, policy: Overflow, as_int: bool) -> EngineModel {
    EngineModel {
        code,
        pc: 0,
        tape: Seq::new(len as nat, |i: int| 0u8),
        vp: 0,
        phys: 0,
        input: Seq::empty(),
        output: Seq::empty(),
        steps: 0,
        policy,
        as_int,
    }
}

proof fn lemma_move_preserves_wf(m: EngineModel, to_right: bool)
    requires
        model_wf(m),
        m.pc < m.code.len(),
    ensures
        model_wf(spec_move(m, to_right).0),
{
    let len = m.tape.len() as int;
    let vp2 = vp_after_move(m.vp, to_right);
    if !(0 <= vp2 < len) && m.policy is Loop {
        lemma_mod_bound(vp2, len);
    }
}

/// Every step from a live state leads to a live state.
pub proof fn lemma_step_preserves_wf(m: EngineModel, input: Option<char>)
    requires
        model_wf(m),
    ensures
        model_wf(spec_step(m, input).0),
{
    if m.pc < m.code.len() {
        assert(wf_at(m.code, m.pc));
        match m.code[m.pc] {
            Key::Right => lemma_move_preserves_wf(m, true),
            Key::Left => lemma_move_preserves_wf(m, false),
            _ => {},
        }
    }
}

/// Under the `Loop` policy, stepping a move left from position zero lands
/// both pointers on the last cell, and stepping a move right from the last
/// cell lands them on cell zero.
pub proof fn lemma_loop_policy_wraps(m: EngineModel, input: Option<char>)
    requires
        model_wf(m),
        m.policy is Loop,
        m.pc < m.code.len(),
    ensures
        m.code[m.pc] is Left && m.vp == 0 ==> spec_step(m, input).0.vp == m.tape.len() - 1
            && spec_step(m, input).0.phys == m.tape.len() - 1 && spec_step(m, input).1 is Next,
        m.code[m.pc] is Right && m.vp == m.tape.len() - 1 ==> spec_step(m, input).0.vp == 0
            && spec_step(m, input).0.phys == 0 && spec_step(m, input).1 is Next,
{
    let len = m.tape.len() as int;
    if m.code[m.pc] is Left && m.vp == 0 {
        lemma_mod_add_multiples_vanish(-1, len);
        lemma_small_mod((len - 1) as nat, len as nat);
    }
    if m.code[m.pc] is Right && m.vp == len - 1 {
        lemma_mod_add_multiples_vanish(0, len);
        lemma_small_mod(0nat, len as nat);
    }
}

/// Under the `Block` policy, stepping a move left from position zero leaves
/// both pointers at zero, so however often it is repeated neither pointer
/// ever changes.
pub proof fn lemma_block_policy_pins(m: EngineModel, input: Option<char>)
    requires
        model_wf(m),
        m.policy is Block,
        m.pc < m.code.len(),
        m.code[m.pc] is Left,
        m.vp == 0,
    ensures
        spec_step(m, input).0.vp == 0,
        spec_step(m, input).0.phys == 0,
        spec_step(m, input).0.tape == m.tape,
        spec_step(m, input).1 is Next,
{
}

/// Under the `Exit` policy, a move that would leave the tape reports the
/// overflow error; the program counter, the physical pointer, the tape and
/// the accumulators stay as they were, so the engine does not go on.
pub proof fn lemma_exit_policy_stops(m: EngineModel, input: Option<char>)
    requires
        model_wf(m),
        m.policy is Exit,
        m.pc < m.code.len(),
        m.code[m.pc] is Left || m.code[m.pc] is Right,
        !(0 <= vp_after_move(m.vp, m.code[m.pc] is Right) && vp_after_move(
            m.vp,
            m.code[m.pc] is Right,
        ) < m.tape.len()),
    ensures
        spec_step(m, input).1 is ErrOverflow,
        spec_step(m, input).0.pc == m.pc,
        spec_step(m, input).0.phys == m.phys,
        spec_step(m, input).0.tape == m.tape,
        spec_step(m, input).0.output == m.output,
        spec_step(m, input).0.input == m.input,
{
}

/// All fields of the two states agree except the two pointers.
pub open spec fn same_but_pointers(a: EngineModel, b: EngineModel) -> bool {
    &&& a.code == b.code
    &&& a.pc == b.pc
    &&& a.tape == b.tape
    &&& a.input == b.input
    &&& a.output == b.output
    &&& a.steps == b.steps
    &&& a.policy == b.policy
    &&& a.as_int == b.as_int
}

/// The execution engine: a program, a tape, the two pointers, the two text
/// accumulators and the step counter, driven one instruction at a time.
pub struct Context {
    program: Program,
    program_counter: usize,
    tape: Tape,
    pointer: usize,
    virtual_pointer: i64,
    input: String,
    output: String,
    steps: u64,
    overflow: Overflow,
    output_as_int: bool,
}

impl View for Context {
    type V = EngineModel;

    closed spec fn view(&self) -> EngineModel {
        EngineModel {
            code: self.program@,
            pc: self.program_counter as int,
            tape: self.tape@,
            vp: self.virtual_pointer as int,
            phys: self.pointer as int,
            input: self.input@,
            output: self.output@,
            steps: self.steps as int,
            policy: self.overflow,
            as_int: self.output_as_int,
        }
    }
}

impl Context {
    pub open spec fn wf(self) -> bool {
        model_wf(self@)
    }

    /// Builds the engine over a fresh zeroed tape of `tape_length` cells,
    /// with the program counter and both pointers at zero.
    pub fn new(program: Program, tape_length: usize, overflow: Overflow, output_as_int: bool) -> (c:
        Context)
        requires
            program.wf(),
            1 <= tape_length,
            tape_length as int <= i64::MAX as int,
        ensures
            c.wf(),
            c@ == init_model(program@, tape_length as int, overflow, output_as_int),
    {
        let tape = Tape::new(tape_length);
        let c = Context {
            program,
            program_counter: 0,
            tape,
            pointer: 0,
            virtual_pointer: 0,
            input: String::new(),
            output: String::new(),
            steps: 0,
            overflow,
            output_as_int,
        };
        proof {
            let init = init_model(program@, tape_length as int, overflow, output_as_int);
            assert(c@.tape =~= init.tape);
            assert(c@ =~= init);
        }
        c
    }

    /// Applies the configured policy to the virtual pointer, updating the
    /// pointers; refuses, changing nothing, under `Exit` out of range.
    fn fix_pointer(&mut self) -> (r: Result<(), ()>)
        requires
            1 <= old(self)@.tape.len(),
            old(self)@.tape.len() <= i64::MAX,
            old(self)@.policy is Loop ==> -(old(self)@.tape.len() as int) <= old(self)@.vp < 2 * (
            old(self)@.tape.len() as int),
        ensures
            match policy_map(old(self)@.policy, old(self)@.vp, old(self)@.tape.len() as int) {
                Some(pp) => r is Ok && final(self)@.vp == pp.0 && final(self)@.phys == pp.1
                    && same_but_pointers(final(self)@, old(self)@),
                None => r is Err && final(self)@ == old(self)@,
            },
    {
        let len = self.tape.len();
        let len_i = len as i64;
        let ghost leni = len as int;
        if self.virtual_pointer < 0 {
            match self.overflow {
                Overflow::Block => {
                    self.virtual_pointer = 0;
                    self.pointer = 0;
                },
                Overflow::Overflow => {
                    self.pointer = 0;
                },
                Overflow::Loop => {
                    let np = self.virtual_pointer + len_i;
                    proof {
                        lemma_mod_add_multiples_vanish(old(self)@.vp, leni);
                        lemma_small_mod(np as nat, leni as nat);
                        assert(old(self)@.vp % leni == np as int);
                    }
                    self.virtual_pointer = np;
                    self.pointer = np as usize;
                },
                Overflow::Exit => {
                    return Err(());
                },
            }
        } else if self.virtual_pointer >= len_i {
            match self.overflow {
                Overflow::Block => {
                    self.virtual_pointer = len_i - 1;
                    self.pointer = len - 1;
                },
                Overflow::Overflow => {
                    self.pointer = len - 1;
                },
                Overflow::Loop => {
                    let np = self.virtual_pointer - len_i;
                    proof {
                        lemma_mod_add_multiples_vanish(np as int, leni);
                        lemma_small_mod(np as nat, leni as nat);
                        assert(old(self)@.vp % leni == np as int);
                    }
                    self.virtual_pointer = np;
                    self.pointer = np as usize;
                },
                Overflow::Exit => {
                    return Err(());
                },
            }
        } else {
            self.pointer = self.virtual_pointer as usize;
        }
        Ok(())
    }

    /// Reads the cell under the physical pointer.
    fn cell(&self) -> (v: u8)
        requires
            self.wf(),
        ensures
            v == self@.tape[self@.phys],
    {
        match self.tape.read(self.pointer) {
            Some(v) => v,
            None => {
                proof {
                    assert(false);
                }
                0
            },
        }
    }

    /// Executes one instruction and reports what happened: `End` with nothing
    /// changed when the program counter is at the program's end; under the
    /// `Exit` policy a move off the tape reports an error and does not
    /// advance; an `In` instruction consumes the supplied character and
    /// fails when none is supplied. Everything else advances and reports
    /// `Next`.
    pub fn step(&mut self, input: Option<char>) -> (r: Step)
        requires
            old(self).wf(),
        ensures
            final(self).wf(),
            final(self)@ == spec_step(old(self)@, input).0,
            matches_outcome(r, spec_step(old(self)@, input).1),
    {
        let ghost m0 = self@;
        proof {
            lemma_step_preserves_wf(m0, input);
        }
        let pc = self.program_counter;
        if pc == self.program.len() {
            return Step::End;
        }
        proof {
            assert(wf_at(m0.code, m0.pc));
        }
        let key = match self.program.get(pc) {
            Some(key_ref) => *key_ref,
            None => {
                proof {
                    assert(false);
                }
                Key::Right
            },
        };
        if self.steps < u64::MAX {
            self.steps = self.steps + 1;
        }
        match key {
            Key::Right => {
                if self.virtual_pointer < i64::MAX {
                    self.virtual_pointer = self.virtual_pointer + 1;
                }
                match self.fix_pointer() {
                    Ok(_) => {
                        self.program_counter = pc + 1;
                        proof {
                            assert(self@ =~= spec_step(m0, input).0);
                        }
                        Step::Next
                    },
                    Err(_) => {
                        proof {
                            assert(self@ =~= spec_step(m0, input).0);
                        }
                        Step::Error(String::from_str("Overflow exit."))
                    },
                }
            },
            Key::Left => {
                if self.virtual_pointer > i64::MIN {
                    self.virtual_pointer = self.virtual_pointer - 1;
                }
                match self.fix_pointer() {
                    Ok(_) => {
                        self.program_counter = pc + 1;
                        proof {
                            assert(self@ =~= spec_step(m0, input).0);
                        }
                        Step::Next
                    },
                    Err(_) => {
                        proof {
                            assert(self@ =~= spec_step(m0, input).0);
                        }
                        Step::Error(String::from_str("Overflow exit."))
                    },
                }
            },
            Key::Add => {
                let v = self.cell();
                let nv: u8 = if v == 255 {
                    0
                } else {
                    v + 1
                };
                let _ = self.tape.write(self.pointer, nv);
                self.program_counter = pc + 1;
                proof {
                    assert(self@ =~= spec_step(m0, input).0);
                }
                Step::Next
            },
            Key::Sub => {
                let v = self.cell();
                let nv: u8 = if v == 0 {
                    255
                } else {
                    v - 1
                };
                let _ = self.tape.write(self.pointer, nv);
                self.program_counter = pc + 1;
                proof {
                    assert(self@ =~= spec_step(m0, input).0);
                }
                Step::Next
            },
            Key::Out => {
                let v = self.cell();
                if self.output_as_int {
                    if v >= 100 {
                        push_char(&mut self.output, (v / 100 + 48) as char);
                    }
                    if v >= 10 {
                        push_char(&mut self.output, ((v / 10) % 10 + 48) as char);
                    }
                    push_char(&mut self.output, (v % 10 + 48) as char);
                    push_char(&mut self.output, ' ');
                } else {
                    push_char(&mut self.output, v as char);
                }
                self.program_counter = pc + 1;
                proof {
                    assert(self@.output =~= m0.output + output_of(m0.tape[m0.phys], m0.as_int));
                    assert(self@ =~= spec_step(m0, input).0);
                }
                Step::Next
            },
            Key::In => {
                match input {
                    None => {
                        proof {
                            assert(self@ =~= spec_step(m0, input).0);
                        }
                        Step::Error(String::from_str("No input event available."))
                    },
                    Some(c) => {
                        let _ = self.tape.write(self.pointer, c as u8);
                        push_char(&mut self.input, c);
                        self.program_counter = pc + 1;
                        proof {
                            assert(self@ =~= spec_step(m0, input).0);
                        }
                        Step::Next
                    },
                }
            },
            Key::If(t) => {
                let v = self.cell();
                if v == 0 {
                    self.program_counter = t;
                } else {
                    self.program_counter = pc + 1;
                }
                proof {
                    assert(self@ =~= spec_step(m0, input).0);
                }
                Step::Next
            },
            Key::Back(t) => {
                let v = self.cell();
                if v != 0 {
                    self.program_counter = t;
                } else {
                    self.program_counter = pc + 1;
                }
                proof {
                    assert(self@ =~= spec_step(m0, input).0);
                }
                Step::Next
            },
        }
    }

    /// Whether the next step will dispatch an `In` instruction and therefore
    /// needs a character.
    pub fn needs_input(&self) -> (b: bool)
        ensures
            b == (self@.pc < self@.code.len() && self@.code[self@.pc] matches Key::In),
    {
        match self.program.get(self.program_counter) {
            Some(key_ref) => match *key_ref {
                Key::In => true,
                _ => false,
            },
            None => false,
        }
    }

    pub fn program(&self) -> (p: &Program)
        ensures
            p@ == self@.code,
    {
        &self.program
    }

    pub fn tape(&self) -> (t: &Tape)
        ensures
            t@ == self@.tape,
    {
        &self.tape
    }

    pub fn program_counter(&self) -> (n: usize)
        ensures
            n == self@.pc,
    {
        self.program_counter
    }

    pub fn pointer(&self) -> (n: usize)
        ensures
            n == self@.phys,
    {
        self.pointer
    }

    pub fn virtual_pointer(&self) -> (n: i64)
        ensures
            n == self@.vp,
    {
        self.virtual_pointer
    }

    pub fn steps(&self) -> (n: u64)
        ensures
            n == self@.steps,
    {
        self.steps
    }

    pub fn input(&self) -> (s: &String)
        ensures
            s@ == self@.input,
    {
        &self.input
    }

    pub fn output(&self) -> (s: &String)
        ensures
            s@ == self@.output,
    {
        &self.output
    }

    /// Renders the window of `width` tape cells starting at virtual position
    /// `left`, for the tape line of the display: three-digit decimal triples
    /// separated by spaces, `---` where the window lies off the tape.
    pub fn slice_tape(&self, left: i64, width: i64) -> (out: String)
        requires
            0 <= width,
            left + width <= i64::MAX,
            self@.tape.len() <= i64::MAX,
        ensures
            out@ == tape_window(self@.tape, left as int, width as int),
    {
        let len = self.tape.len();
        let len_i = len as i64;
        let mut out = String::new();
        let mut off: i64 = 0;
        while off < width
            invariant
                0 <= off <= width,
                left + width <= i64::MAX,
                len == self@.tape.len(),
                len_i == len as i64,
                self@.tape.len() <= i64::MAX,
                out@ == tape_window(self@.tape, left as int, off as int),
            decreases width - off,
        {
            let p = left + off;
            if off > 0 {
                push_char(&mut out, ' ');
            }
            if 0 <= p && p < len_i {
                let v = match self.tape.read(p as usize) {
                    Some(v) => v,
                    None => {
                        proof {
                            assert(false);
                        }
                        0
                    },
                };
                proof {
                    assert(p as usize as int == p as int);
                    assert(v == self@.tape[p as int]);
                }
                push_char(&mut out, (v / 100 + 48) as char);
                push_char(&mut out, ((v % 100) / 10 + 48) as char);
                push_char(&mut out, (v % 10 + 48) as char);
            } else {
                push_char(&mut out, '-');
                push_char(&mut out, '-');
                push_char(&mut out, '-');
            }
            proof {
                assert(out@ =~= tape_window(self@.tape, left as int, off + 1));
            }
            off = off + 1;
        }
        out
    }
}

/// The three display characters for column `p` of a tape window.
pub open spec fn window_cell(tape: Seq<u8>, p: int) -> Seq<char> {
    if 0 <= p < tape.len() {
        cell_chars(tape[p])
    } else {
        seq!['-', '-', '-']
    }
}

/// A window of `width` tape cells starting at `left`, separated by spaces.
pub open spec fn tape_window(tape: Seq<u8>, left: int, width: int) -> Seq<char>
    decreases width,
{
    if width <= 0 {
        Seq::empty()
    } else if width == 1 {
        window_cell(tape, left)
    } else {
        tape_window(tape, left, width - 1) + seq![' '] + window_cell(tape, left + width - 1)
    }
}

} // verus!
