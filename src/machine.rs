use vstd::prelude::*;
use std::collections::HashMap;
use crate::error::ExecError;
use crate::loops::{balanced, build_brace_list, is_jump_table, matching, unmatched_close_at, unmatched_open_at};
use crate::token::Token;

verus! {

broadcast use vstd::std_specs::hash::group_hash_axioms;

/// Number of cells on the tape.
pub const DATA_SIZE: usize = 30000;

/// A cell plus `n`, modulo 256.
pub open spec fn wrap_add(c: u8, n: u8) -> u8 {
    ((c as int + n as int) % 256) as u8
}

/// A cell minus `n`, modulo 256.
pub open spec fn wrap_sub(c: u8, n: u8) -> u8 {
    ((c as int - n as int + 256) % 256) as u8
}

/// The tape of one run and the pointer into it.
#[derive(Debug)]
pub struct Program {
    data: Vec<u8>,
    ptr: usize,
}

impl Program {
    /// The cells of the tape.
    pub closed spec fn tape(&self) -> Seq<u8> {
        self.data@
    }

    /// The index of the current cell.
    pub closed spec fn pointer(&self) -> int {
        self.ptr as int
    }

    /// The tape has its fixed length and the pointer lies on it.
    pub open spec fn wf(&self) -> bool {
        &&& self.tape().len() == DATA_SIZE
        &&& 0 <= self.pointer() < DATA_SIZE
    }

    /// A zeroed tape with the pointer on cell 0.
    pub fn new() -> (r: Program)
        ensures
            r.wf(),
            r.tape() == Seq::new(DATA_SIZE as nat, |i: int| 0u8),
            r.pointer() == 0,
    {
        let data = vec![0u8; DATA_SIZE];
        assert(data@ == Seq::new(DATA_SIZE as nat, |i: int| 0u8));
        Program { data, ptr: 0 }
    }

    /// The index of the current cell.
    pub fn ptr(&self) -> (r: usize)
        ensures
            r as int == self.pointer(),
    {
        self.ptr
    }

    /// The value of cell `i`.
    pub fn cell(&self, i: usize) -> (r: u8)
        requires
            self.wf(),
            i < DATA_SIZE,
        ensures
            r == self.tape()[i as int],
    {
        self.data[i]
    }

    /// The value of the current cell.
    pub fn current(&self) -> (r: u8)
        requires
            self.wf(),
        ensures
            r == self.tape()[self.pointer()],
    {
        self.data[self.ptr]
    }

    /// Stores `v` in the current cell.
    pub fn set_current(&mut self, v: u8)
        requires
            old(self).wf(),
        ensures
            final(self).wf(),
            final(self).pointer() == old(self).pointer(),
            final(self).tape() == old(self).tape().update(old(self).pointer(), v),
    {
        self.data.set(self.ptr, v);
    }

    /// Adds `n` to the current cell, wrapping modulo 256.
    pub fn increment(&mut self, n: u8)
        requires
            old(self).wf(),
        ensures
            final(self).wf(),
            final(self).pointer() == old(self).pointer(),
            final(self).tape() == old(self).tape().update(
                old(self).pointer(),
                wrap_add(old(self).tape()[old(self).pointer()], n),
            ),
    {
        let c = self.data[self.ptr];
        let v = c.wrapping_add(n);
        assert(v == wrap_add(c, n));
        self.data.set(self.ptr, v);
    }

    /// Subtracts `n` from the current cell, wrapping modulo 256.
    pub fn decrement(&mut self, n: u8)
        requires
            old(self).wf(),
        ensures
            final(self).wf(),
            final(self).pointer() == old(self).pointer(),
            final(self).tape() == old(self).tape().update(
                old(self).pointer(),
                wrap_sub(old(self).tape()[old(self).pointer()], n),
            ),
    {
        let c = self.data[self.ptr];
        let v = c.wrapping_sub(n);
        assert(v == wrap_sub(c, n));
        self.data.set(self.ptr, v);
    }

    /// Moves the pointer `n` cells right. Fails, with nothing changed, when
    /// the pointer would reach past the last cell.
    pub fn move_right(&mut self, n: u8) -> (moved: bool)
        requires
            old(self).wf(),
        ensures
            final(self).wf(),
            final(self).tape() == old(self).tape(),
            moved == (old(self).pointer() + n < DATA_SIZE),
            final(self).pointer() == if moved {
                old(self).pointer() + n
            } else {
                old(self).pointer()
            },
    {
        if self.ptr < DATA_SIZE - n as usize {
            self.ptr = self.ptr + n as usize;
            true
        } else {
            false
        }
    }

    /// Moves the pointer `n` cells left. Fails, with nothing changed, when
    /// the pointer would go below cell 0.
    pub fn move_left(&mut self, n: u8) -> (moved: bool)
        requires
            old(self).wf(),
        ensures
            final(self).wf(),
            final(self).tape() == old(self).tape(),
            moved == (old(self).pointer() >= n),
            final(self).pointer() == if moved {
                old(self).pointer() - n
            } else {
                old(self).pointer()
            },
    {
        if self.ptr >= n as usize {
            self.ptr = self.ptr - n as usize;
            true
        } else {
            false
        }
    }
}

/// The whole state of a run as the step relation sees it.
pub struct MachineState {
    pub tape: Seq<u8>,
    pub ptr: int,
    pub ip: int,
}

/// What a step asks of the one who drives the run.
#[derive(Debug, PartialEq, Eq, Clone, Copy, Structural)]
pub enum Action {
    /// The step changed only the state.
    Continue,
    /// The step wrote this byte to the output.
    Output(u8),
    /// The token at `ip` is a comma: a byte must be supplied with `feed`.
    NeedInput,
    /// The instruction pointer is past the last token.
    Halted,
}

/// A fresh run: zeroed tape, pointer and instruction pointer at 0.
pub open spec fn initial_state() -> MachineState {
    MachineState { tape: Seq::new(DATA_SIZE as nat, |i: int| 0u8), ptr: 0, ip: 0 }
}

/// The tape has its fixed length and the pointer lies on it.
pub open spec fn state_ok(s: MachineState) -> bool {
    s.tape.len() == DATA_SIZE && 0 <= s.ptr < DATA_SIZE
}

/// The state with the instruction pointer moved to `ip`.
pub open spec fn goto(s: MachineState, ip: int) -> MachineState {
    MachineState { tape: s.tape, ptr: s.ptr, ip }
}

/// One step of the token at `s.ip`, for all tokens but the comma, whose
/// byte comes through `feed_spec`.
pub open spec fn step_spec(ts: Seq<Token>, jumps: Map<usize, usize>, s: MachineState) -> Result<
    (MachineState, Action),
    ExecError,
> {
    if s.ip < 0 || s.ip >= ts.len() {
        Ok((s, Action::Halted))
    } else {
        let cell = s.tape[s.ptr];
        let next = goto(s, s.ip + 1);
        match ts[s.ip] {
            Token::Plus(n) => Ok(
                (
                    MachineState {
                        tape: s.tape.update(s.ptr, wrap_add(cell, n)),
                        ptr: s.ptr,
                        ip: s.ip + 1,
                    },
                    Action::Continue,
                ),
            ),
            Token::Minus(n) => Ok(
                (
                    MachineState {
                        tape: s.tape.update(s.ptr, wrap_sub(cell, n)),
                        ptr: s.ptr,
                        ip: s.ip + 1,
                    },
                    Action::Continue,
                ),
            ),
            Token::RightAngle(n) => if s.ptr + n < DATA_SIZE {
                Ok((MachineState { tape: s.tape, ptr: s.ptr + n, ip: s.ip + 1 }, Action::Continue))
            } else {
                Err(ExecError::TapeOverflow { ip: s.ip as usize, ptr: s.ptr as usize, by: n })
            },
            Token::LeftAngle(n) => if s.ptr >= n {
                Ok((MachineState { tape: s.tape, ptr: s.ptr - n, ip: s.ip + 1 }, Action::Continue))
            } else {
                Err(ExecError::TapeUnderflow { ip: s.ip as usize, ptr: s.ptr as usize, by: n })
            },
            Token::Dot => Ok((next, Action::Output(cell))),
            Token::Comma => Ok((s, Action::NeedInput)),
            Token::OpenBrace => if cell == 0 {
                Ok((goto(s, jumps[s.ip as usize] + 1), Action::Continue))
            } else {
                Ok((next, Action::Continue))
            },
            Token::CloseBrace => if cell != 0 {
                Ok((goto(s, jumps[s.ip as usize] + 1), Action::Continue))
            } else {
                Ok((next, Action::Continue))
            },
        }
    }
}

/// A comma given the first byte of an input line, or `None` when the input
/// is exhausted.
pub open spec fn feed_spec(s: MachineState, byte: Option<u8>) -> Result<MachineState, ExecError> {
    match byte {
        Some(b) => Ok(MachineState { tape: s.tape.update(s.ptr, b), ptr: s.ptr, ip: s.ip + 1 }),
        None => Err(ExecError::InputExhausted { ip: s.ip as usize }),
    }
}

/// A run seen from outside: the machine state, the input bytes not read yet,
/// the bytes written so far, and whether a step has failed.
pub struct Config {
    pub state: MachineState,
    pub input: Seq<u8>,
    pub output: Seq<u8>,
    pub failed: bool,
}

/// A fresh run that will read `input`, one byte per comma.
pub open spec fn start_config(input: Seq<u8>) -> Config {
    Config { state: initial_state(), input, output: Seq::empty(), failed: false }
}

/// The run stopped by a failed step; nothing else changes.
pub open spec fn fail_config(c: Config) -> Config {
    Config { state: c.state, input: c.input, output: c.output, failed: true }
}

/// One step of a whole run: a comma reads the next input byte, a dot
/// writes one. A failed or halted run stays as it is.
pub open spec fn run_step(ts: Seq<Token>, jumps: Map<usize, usize>, c: Config) -> Config {
    if c.failed {
        c
    } else {
        match step_spec(ts, jumps, c.state) {
            Err(_) => fail_config(c),
            Ok((s, a)) => match a {
                Action::Output(b) => Config {
                    state: s,
                    input: c.input,
                    output: c.output.push(b),
                    failed: false,
                },
                Action::NeedInput => {
                    let byte = if c.input.len() > 0 {
                        Some(c.input[0])
                    } else {
                        None
                    };
                    match feed_spec(s, byte) {
                        Ok(s2) => Config {
                            state: s2,
                            input: c.input.drop_first(),
                            output: c.output,
                            failed: false,
                        },
                        Err(_) => fail_config(c),
                    }
                },
                _ => Config { state: s, input: c.input, output: c.output, failed: false },
            },
        }
    }
}

/// `n` steps of a whole run.
pub open spec fn run_n(ts: Seq<Token>, jumps: Map<usize, usize>, c: Config, n: nat) -> Config
    decreases n,
{
    if n == 0 {
        c
    } else {
        run_n(ts, jumps, run_step(ts, jumps, c), (n - 1) as nat)
    }
}

/// Running `a + b` steps is running `a`, then `b`.
pub proof fn lemma_run_split(ts: Seq<Token>, m: Map<usize, usize>, c: Config, a: nat, b: nat)
    ensures
        run_n(ts, m, c, a + b) == run_n(ts, m, run_n(ts, m, c, a), b),
    decreases a,
{
    if a > 0 {
        lemma_run_split(ts, m, run_step(ts, m, c), (a - 1) as nat, b);
        assert((a + b - 1) as nat == (a - 1) as nat + b);
    }
}

/// One step of `run_n` is `run_step`.
pub proof fn lemma_run_one(ts: Seq<Token>, m: Map<usize, usize>, c: Config)
    ensures
        run_n(ts, m, c, 1) == run_step(ts, m, c),
{
    assert(run_n(ts, m, c, 1) == run_n(ts, m, run_step(ts, m, c), 0));
}

/// A run that has failed or reached the end of its tokens.
pub open spec fn stopped(ts: Seq<Token>, c: Config) -> bool {
    c.failed || c.state.ip == ts.len()
}

/// A stopped run stays as it is.
pub proof fn lemma_stopped_stays(ts: Seq<Token>, m: Map<usize, usize>, c: Config, n: nat)
    requires
        stopped(ts, c),
    ensures
        run_n(ts, m, c, n) == c,
    decreases n,
{
    if n > 0 {
        assert(run_step(ts, m, c) == c);
        lemma_stopped_stays(ts, m, c, (n - 1) as nat);
    }
}

/// Once a run has stopped, more steps change nothing.
pub proof fn lemma_stopped_later(ts: Seq<Token>, m: Map<usize, usize>, c: Config, a: nat, b: nat)
    requires
        stopped(ts, run_n(ts, m, c, a)),
        a <= b,
    ensures
        run_n(ts, m, c, b) == run_n(ts, m, c, a),
{
    lemma_run_split(ts, m, c, a, (b - a) as nat);
    assert(b == a + (b - a) as nat);
    lemma_stopped_stays(ts, m, run_n(ts, m, c, a), (b - a) as nat);
}

/// What a bounded run gave back: the bytes written, how many input bytes
/// were read, how many steps were taken, and the error that stopped it.
#[derive(Debug)]
pub struct RunReport {
    pub output: Vec<u8>,
    pub consumed: usize,
    pub steps: usize,
    pub error: Option<ExecError>,
}

/// Runs a token sequence one step at a time against a tape of its own.
#[derive(Debug)]
pub struct Executor {
    tokens: Vec<Token>,
    jumps: HashMap<usize, usize>,
    program: Program,
    ip: usize,
}

impl Executor {
    /// The program being run.
    pub closed spec fn tokens(&self) -> Seq<Token> {
        self.tokens@
    }

    /// Its jump table.
    pub closed spec fn jumps(&self) -> Map<usize, usize> {
        self.jumps@
    }

    /// Tape, pointer and instruction pointer.
    pub closed spec fn state(&self) -> MachineState {
        MachineState { tape: self.program.tape(), ptr: self.program.pointer(), ip: self.ip as int }
    }

    /// The tokens are balanced, the table is theirs, and the state is in range.
    pub open spec fn wf(&self) -> bool {
        &&& state_ok(self.state())
        &&& balanced(self.tokens())
        &&& is_jump_table(self.tokens(), self.jumps())
        &&& 0 <= self.state().ip <= self.tokens().len()
    }

    /// Resolves the loops of `tokens` and sets up a fresh tape. Fails with
    /// `BracketMismatch` exactly when the braces are not balanced.
    pub fn new(tokens: Vec<Token>) -> (r: Result<Executor, ExecError>)
        ensures
            match r {
                Ok(e) => balanced(tokens@) && e.wf() && e.tokens() == tokens@ && e.state()
                    == initial_state(),
                Err(e) => !balanced(tokens@) && match e {
                    ExecError::BracketMismatch { position } => unmatched_close_at(
                        tokens@,
                        position as int,
                    ) || unmatched_open_at(tokens@, position as int),
                    _ => false,
                },
            },
    {
        match build_brace_list(&tokens) {
            Ok(jumps) => {
                let program = Program::new();
                Ok(Executor { tokens, jumps, program, ip: 0 })
            },
            Err(e) => Err(e),
        }
    }

    /// The tape and pointer.
    pub fn program(&self) -> (r: &Program)
        ensures
            r.tape() == self.state().tape,
            r.pointer() == self.state().ptr,
    {
        &self.program
    }

    /// The index of the next token to run.
    pub fn ip(&self) -> (r: usize)
        ensures
            r as int == self.state().ip,
    {
        self.ip
    }

    /// Whether the run has reached the end of the tokens.
    pub fn is_halted(&self) -> (r: bool)
        requires
            self.wf(),
        ensures
            r == (self.state().ip == self.tokens().len()),
    {
        self.ip == self.tokens.len()
    }

    /// Runs the token at the instruction pointer. A failed step changes nothing.
    pub fn step(&mut self) -> (r: Result<Action, ExecError>)
        requires
            old(self).wf(),
        ensures
            final(self).wf(),
            final(self).tokens() == old(self).tokens(),
            final(self).jumps() == old(self).jumps(),
            match step_spec(old(self).tokens(), old(self).jumps(), old(self).state()) {
                Ok((s, a)) => r == Ok::<Action, ExecError>(a) && final(self).state() == s,
                Err(e) => r == Err::<Action, ExecError>(e) && final(self).state() == old(self).state(),
            },
    {
        if self.ip >= self.tokens.len() {
            return Ok(Action::Halted);
        }
        let ip = self.ip;
        match self.tokens[ip] {
            Token::Plus(n) => {
                self.program.increment(n);
                self.ip = ip + 1;
                Ok(Action::Continue)
            },
            Token::Minus(n) => {
                self.program.decrement(n);
                self.ip = ip + 1;
                Ok(Action::Continue)
            },
            Token::RightAngle(n) => {
                let ptr = self.program.ptr();
                if self.program.move_right(n) {
                    self.ip = ip + 1;
                    Ok(Action::Continue)
                } else {
                    Err(ExecError::TapeOverflow { ip, ptr, by: n })
                }
            },
            Token::LeftAngle(n) => {
                let ptr = self.program.ptr();
                if self.program.move_left(n) {
                    self.ip = ip + 1;
                    Ok(Action::Continue)
                } else {
                    Err(ExecError::TapeUnderflow { ip, ptr, by: n })
                }
            },
            Token::Dot => {
                let c = self.program.current();
                self.ip = ip + 1;
                Ok(Action::Output(c))
            },
            Token::Comma => Ok(Action::NeedInput),
            Token::OpenBrace => {
                if self.program.current() == 0 {
                    self.ip = self.jump_from(ip);
                } else {
                    self.ip = ip + 1;
                }
                Ok(Action::Continue)
            },
            Token::CloseBrace => {
                if self.program.current() != 0 {
                    self.ip = self.jump_from(ip);
                } else {
                    self.ip = ip + 1;
                }
                Ok(Action::Continue)
            },
        }
    }

    /// The token just past the partner of the brace at `ip`.
    fn jump_from(&self, ip: usize) -> (r: usize)
        requires
            self.wf(),
            ip < self.tokens().len(),
            self.tokens()[ip as int] == Token::OpenBrace || self.tokens()[ip as int]
                == Token::CloseBrace,
        ensures
            r == self.jumps()[ip] + 1,
            r <= self.tokens().len(),
    {
        let n = self.tokens.len();
        assert(self.jumps@.contains_key(ip));
        assert(matching(self.tokens@, ip as int, self.jumps@[ip] as int) || matching(
            self.tokens@,
            self.jumps@[ip] as int,
            ip as int,
        ));
        let t = self.jumps.get(&ip);
        match t {
            Some(t) => *t + 1,
            None => ip + 1,
        }
    }

    /// Stores the first byte of an input line in the current cell and moves
    /// past the comma; `None`, for no more input, fails with `InputExhausted`.
    pub fn feed(&mut self, byte: Option<u8>) -> (r: Result<(), ExecError>)
        requires
            old(self).wf(),
            0 <= old(self).state().ip < old(self).tokens().len(),
            old(self).tokens()[old(self).state().ip] == Token::Comma,
        ensures
            final(self).wf(),
            final(self).tokens() == old(self).tokens(),
            final(self).jumps() == old(self).jumps(),
            match feed_spec(old(self).state(), byte) {
                Ok(s) => r == Ok::<(), ExecError>(()) && final(self).state() == s,
                Err(e) => r == Err::<(), ExecError>(e) && final(self).state() == old(self).state(),
            },
    {
        match byte {
            Some(b) => {
                let n = self.tokens.len();
                self.program.set_current(b);
                self.ip = self.ip + 1;
                Ok(())
            },
            None => Err(ExecError::InputExhausted { ip: self.ip }),
        }
    }

    /// Runs at most `max_steps` steps of the whole run: a comma reads the
    /// next byte of `input`, a dot adds a byte to the output. Stops early at
    /// the end of the tokens or at the first error.
    pub fn run_steps(&mut self, input: &Vec<u8>, max_steps: usize) -> (r: RunReport)
        requires
            old(self).wf(),
        ensures
            final(self).wf(),
            final(self).tokens() == old(self).tokens(),
            final(self).jumps() == old(self).jumps(),
            r.steps <= max_steps,
            r.consumed <= input.len(),
            ({
                let c = run_n(
                    old(self).tokens(),
                    old(self).jumps(),
                    Config { state: old(self).state(), input: input@, output: Seq::empty(), failed: false },
                    r.steps as nat,
                );
                &&& final(self).state() == c.state
                &&& input@.skip(r.consumed as int) == c.input
                &&& r.output@ == c.output
                &&& (r.error is Some) == c.failed
                &&& r.steps < max_steps ==> stopped(old(self).tokens(), c)
            }),
    {
        let ghost ts = self.tokens();
        let ghost m = self.jumps();
        let ghost c0 = Config {
            state: self.state(),
            input: input@,
            output: Seq::empty(),
            failed: false,
        };
        let mut output: Vec<u8> = Vec::new();
        let mut consumed: usize = 0;
        let mut steps: usize = 0;
        let mut error: Option<ExecError> = None;
        let mut done = false;
        proof {
            assert(input@.skip(0) == input@);
        }
        while !done && steps < max_steps
            invariant
                self.wf(),
                self.tokens() == ts,
                self.jumps() == m,
                steps <= max_steps,
                consumed <= input.len(),
                self.state() == run_n(ts, m, c0, steps as nat).state,
                input@.skip(consumed as int) == run_n(ts, m, c0, steps as nat).input,
                output@ == run_n(ts, m, c0, steps as nat).output,
                (error is Some) == run_n(ts, m, c0, steps as nat).failed,
                done ==> stopped(ts, run_n(ts, m, c0, steps as nat)),
                !done ==> !run_n(ts, m, c0, steps as nat).failed,
            decreases max_steps - steps + (if done { 0int } else { 1int }),
        {
            if self.is_halted() {
                done = true;
            } else {
                proof {
                    lemma_run_split(ts, m, c0, steps as nat, 1);
                    lemma_run_one(ts, m, run_n(ts, m, c0, steps as nat));
                }
                match self.step() {
                    Ok(Action::Output(b)) => {
                        output.push(b);
                    },
                    Ok(Action::NeedInput) => {
                        let byte = if consumed < input.len() {
                            Some(input[consumed])
                        } else {
                            None
                        };
                        match self.feed(byte) {
                            Ok(()) => {
                                proof {
                                    assert(input@.skip(consumed + 1) == input@.skip(
                                        consumed as int,
                                    ).drop_first());
                                }
                                consumed = consumed + 1;
                            },
                            Err(e) => {
                                error = Some(e);
                                done = true;
                            },
                        }
                    },
                    Ok(_) => {},
                    Err(e) => {
                        error = Some(e);
                        done = true;
                    },
                }
                steps = steps + 1;
            }
        }
        RunReport { output, consumed, steps, error }
    }
}

} // verus!
