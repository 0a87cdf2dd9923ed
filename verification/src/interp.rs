//! The direct interpreter: executes the source text character by character
//! over a fixed 100-cell byte tape, with a position stack for loop re-entry
//! and a nesting counter for skipping over loop bodies whose guard cell is
//! zero. Output bytes are accumulated and returned at the end.
//!
//! Cell arithmetic wraps in the 8-bit range. Moving the pointer below zero,
//! or touching a cell outside the tape, is outside the language's safety
//! contract: it is reported as [`InterpError::PointerOutOfRange`] rather than
//! clamped or grown away. Read operations take one byte each from a supplied
//! input sequence; once it is exhausted the cell is left unchanged.

use vstd::prelude::*;

verus! {

/// Number of tape cells, all zero at the start of a run.
pub const TAPE_LEN: usize = 100;

/// Why a run stopped without finishing: the tape pointer out of range, a
/// loop-close re-tested with no loop position to jump back to, or the
/// caller's step budget spent before the program ended (the language allows
/// programs that never do).
#[derive(PartialEq, Eq, Structural, Copy, Clone, Debug)]
pub enum InterpError {
    PointerOutOfRange,
    UnmatchedClose,
    StepLimit,
}

/// The interpreter's whole state: program text and reading position, tape and
/// pointer, the positions of loop-opens entered, skip mode with its bracket
/// nesting count, the input bytes not yet read, and the output so far.
#[verifier::ext_equal]
pub struct Machine {
    pub prog: Seq<char>,
    pub i: int,
    pub tape: Seq<u8>,
    pub ptr: int,
    pub stack: Seq<usize>,
    pub skipping: bool,
    pub skip_depth: int,
    pub input: Seq<u8>,
    pub out: Seq<u8>,
}

/// What one step yields: the next state, the final output, or a fault.
pub enum StepResult {
    Next(Machine),
    Done(Seq<u8>),
    Fault(InterpError),
}

/// An 8-bit increment, wrapping 255 back to 0.
pub open spec fn wrap_inc(v: u8) -> u8 {
    if v == 255 {
        0
    } else {
        (v + 1) as u8
    }
}

/// An 8-bit decrement, wrapping 0 back to 255.
pub open spec fn wrap_dec(v: u8) -> u8 {
    if v == 0 {
        255
    } else {
        (v - 1) as u8
    }
}

/// The machine a run starts from: position and pointer at 0, a zeroed tape,
/// no loop entered, normal mode, nothing yet read or written.
pub open spec fn init_machine(prog: Seq<char>, input: Seq<u8>) -> Machine {
    Machine {
        prog,
        i: 0,
        tape: Seq::new(TAPE_LEN as nat, |k: int| 0u8),
        ptr: 0,
        stack: Seq::empty(),
        skipping: false,
        skip_depth: 0,
        input,
        out: Seq::empty(),
    }
}

/// One interpreter step. Past the end of the text the run is done. In skip
/// mode brackets only adjust the nesting count, leaving skip mode at a
/// loop-close at relative depth zero. In normal mode: pointer moves fault at
/// the machine-word bounds; every other operation addresses the tape and
/// faults outside it; cell arithmetic wraps; a read takes the next input byte
/// or leaves the cell unchanged without input; a loop-open over a zero cell
/// enters skip mode and otherwise records its position; a loop-close over a
/// nonzero cell jumps back past the innermost recorded position (faulting if
/// there is none) and otherwise discards it. Unrecognized characters are
/// skipped.
pub open spec fn step(m: Machine) -> StepResult {
    if m.i >= m.prog.len() {
        StepResult::Done(m.out)
    } else {
        let c = m.prog[m.i];
        if m.skipping {
            if c == '[' {
                StepResult::Next(Machine { i: m.i + 1, skip_depth: m.skip_depth + 1, ..m })
            } else if c == ']' {
                if m.skip_depth == 0 {
                    StepResult::Next(Machine { i: m.i + 1, skipping: false, ..m })
                } else {
                    StepResult::Next(Machine { i: m.i + 1, skip_depth: m.skip_depth - 1, ..m })
                }
            } else {
                StepResult::Next(Machine { i: m.i + 1, ..m })
            }
        } else if c == '>' {
            if m.ptr >= usize::MAX {
                StepResult::Fault(InterpError::PointerOutOfRange)
            } else {
                StepResult::Next(Machine { i: m.i + 1, ptr: m.ptr + 1, ..m })
            }
        } else if c == '<' {
            if m.ptr <= 0 {
                StepResult::Fault(InterpError::PointerOutOfRange)
            } else {
                StepResult::Next(Machine { i: m.i + 1, ptr: m.ptr - 1, ..m })
            }
        } else if c == '+' || c == '-' || c == '.' || c == ',' || c == '[' || c == ']' {
            if !(0 <= m.ptr < TAPE_LEN as int) {
                StepResult::Fault(InterpError::PointerOutOfRange)
            } else {
                let cell = m.tape[m.ptr];
                if c == '+' {
                    StepResult::Next(
                        Machine { i: m.i + 1, tape: m.tape.update(m.ptr, wrap_inc(cell)), ..m },
                    )
                } else if c == '-' {
                    StepResult::Next(
                        Machine { i: m.i + 1, tape: m.tape.update(m.ptr, wrap_dec(cell)), ..m },
                    )
                } else if c == '.' {
                    StepResult::Next(Machine { i: m.i + 1, out: m.out.push(cell), ..m })
                } else if c == ',' {
                    if m.input.len() == 0 {
                        StepResult::Next(Machine { i: m.i + 1, ..m })
                    } else {
                        StepResult::Next(
                            Machine {
                                i: m.i + 1,
                                tape: m.tape.update(m.ptr, m.input.first()),
                                input: m.input.drop_first(),
                                ..m
                            },
                        )
                    }
                } else if c == '[' {
                    if cell == 0 {
                        StepResult::Next(
                            Machine { i: m.i + 1, skipping: true, skip_depth: 0, ..m },
                        )
                    } else {
                        StepResult::Next(
                            Machine { i: m.i + 1, stack: m.stack.push(m.i as usize), ..m },
                        )
                    }
                } else {
                    if cell != 0 {
                        if m.stack.len() == 0 {
                            StepResult::Fault(InterpError::UnmatchedClose)
                        } else {
                            StepResult::Next(Machine { i: m.stack.last() + 1, ..m })
                        }
                    } else {
                        StepResult::Next(
                            Machine {
                                i: m.i + 1,
                                stack: if m.stack.len() == 0 {
                                    m.stack
                                } else {
                                    m.stack.drop_last()
                                },
                                ..m
                            },
                        )
                    }
                }
            }
        } else {
            StepResult::Next(Machine { i: m.i + 1, ..m })
        }
    }
}

/// The machine after `n` steps, or the final output or fault met on the way
/// (both of which are absorbing).
pub open spec fn run_to(m: Machine, n: nat) -> StepResult
    decreases n,
{
    if n == 0 {
        StepResult::Next(m)
    } else {
        match run_to(m, (n - 1) as nat) {
            StepResult::Next(m2) => step(m2),
            r => r,
        }
    }
}

/// The state the interpreter's variables stand for: the input position marks
/// off what is already consumed.
spec fn mach(
    prog: Seq<char>,
    i: usize,
    tape: Seq<u8>,
    ptr: usize,
    stack: Seq<usize>,
    skipping: bool,
    depth: usize,
    input: Seq<u8>,
    in_pos: usize,
    out: Seq<u8>,
) -> Machine {
    Machine {
        prog,
        i: i as int,
        tape,
        ptr: ptr as int,
        stack,
        skipping,
        skip_depth: depth as int,
        input: input.skip(in_pos as int),
        out,
    }
}

/// Runs the source text over a fresh zero tape, reading from `input` and
/// returning the accumulated output bytes, the fault that stopped the run, or
/// `StepLimit` when the program is still running after `max_steps` steps of
/// [`step`]. Whatever comes back is what stepping from [`init_machine`]
/// yields.
pub fn interpret(program: &str, input: &[u8], max_steps: u64) -> (r: Result<
    Vec<u8>,
    InterpError,
>)
    ensures
        r matches Ok(out) ==> exists|n: nat|
            run_to(init_machine(program@, input@), n) == StepResult::Done(out@),
        r matches Err(e) ==> if e == InterpError::StepLimit {
            run_to(init_machine(program@, input@), max_steps as nat) is Next
        } else {
            exists|n: nat| run_to(init_machine(program@, input@), n) == StepResult::Fault(e)
        },
{
    let prog_len = program.unicode_len();
    let mut tape: Vec<u8> = Vec::new();
    let mut j: usize = 0;
    while j < TAPE_LEN
        invariant
            j <= TAPE_LEN,
            tape@ == Seq::new(j as nat, |k: int| 0u8),
        decreases TAPE_LEN - j,
    {
        tape.push(0);
        proof {
            assert(tape@ =~= Seq::new((j + 1) as nat, |k: int| 0u8));
        }
        j += 1;
    }
    let mut ptr: usize = 0;
    let mut stack: Vec<usize> = Vec::new();
    let mut is_looping = false;
    let mut inner_loops: usize = 0;
    let mut i: usize = 0;
    let mut output: Vec<u8> = Vec::new();
    let mut in_pos: usize = 0;
    let mut fuel: u64 = max_steps;
    let ghost m0 = init_machine(program@, input@);
    let ghost mut steps: nat = 0;
    proof {
        assert(mach(program@, 0, tape@, 0, stack@, false, 0, input@, 0, output@) =~= m0);
    }
    while fuel > 0 && i < prog_len
        invariant
            m0 == init_machine(program@, input@),
            prog_len == program@.len(),
            i <= prog_len,
            tape@.len() == TAPE_LEN,
            in_pos <= input@.len(),
            inner_loops <= i,
            !is_looping ==> inner_loops == 0,
            fuel <= max_steps,
            steps == max_steps - fuel,
            forall|k: int| #![trigger stack@[k]] 0 <= k < stack@.len() ==> stack@[k] < prog_len,
            run_to(m0, steps) == StepResult::Next(
                mach(
                    program@,
                    i,
                    tape@,
                    ptr,
                    stack@,
                    is_looping,
                    inner_loops,
                    input@,
                    in_pos,
                    output@,
                ),
            ),
        decreases fuel,
    {
        let ghost pre = mach(
            program@,
            i,
            tape@,
            ptr,
            stack@,
            is_looping,
            inner_loops,
            input@,
            in_pos,
            output@,
        );
        let c = program.get_char(i);
        if is_looping {
            if c == '[' {
                inner_loops += 1;
            } else if c == ']' {
                if inner_loops == 0 {
                    is_looping = false;
                } else {
                    inner_loops -= 1;
                }
            }
            i += 1;
            proof {
                let post = mach(
                    program@,
                    i,
                    tape@,
                    ptr,
                    stack@,
                    is_looping,
                    inner_loops,
                    input@,
                    in_pos,
                    output@,
                );
                assert(step(pre) matches StepResult::Next(m2) && m2 =~= post);
            }
        } else if c == '>' {
            if ptr == usize::MAX {
                proof {
                    assert(run_to(init_machine(program@, input@), steps + 1)
                        == StepResult::Fault(InterpError::PointerOutOfRange));
                }
                return Err(InterpError::PointerOutOfRange);
            }
            ptr += 1;
            i += 1;
            proof {
                let post = mach(
                    program@,
                    i,
                    tape@,
                    ptr,
                    stack@,
                    is_looping,
                    inner_loops,
                    input@,
                    in_pos,
                    output@,
                );
                assert(step(pre) matches StepResult::Next(m2) && m2 =~= post);
            }
        } else if c == '<' {
            if ptr == 0 {
                proof {
                    assert(run_to(init_machine(program@, input@), steps + 1)
                        == StepResult::Fault(InterpError::PointerOutOfRange));
                }
                return Err(InterpError::PointerOutOfRange);
            }
            ptr -= 1;
            i += 1;
            proof {
                let post = mach(
                    program@,
                    i,
                    tape@,
                    ptr,
                    stack@,
                    is_looping,
                    inner_loops,
                    input@,
                    in_pos,
                    output@,
                );
                assert(step(pre) matches StepResult::Next(m2) && m2 =~= post);
            }
        } else if c == '+' || c == '-' || c == '.' || c == ',' || c == '[' || c == ']' {
            if ptr >= TAPE_LEN {
                proof {
                    assert(run_to(init_machine(program@, input@), steps + 1)
                        == StepResult::Fault(InterpError::PointerOutOfRange));
                }
                return Err(InterpError::PointerOutOfRange);
            }
            let cell = tape[ptr];
            if c == '+' {
                tape[ptr] = if cell == 255 {
                    0
                } else {
                    cell + 1
                };
                i += 1;
                proof {
                    let post = mach(
                        program@,
                        i,
                        tape@,
                        ptr,
                        stack@,
                        is_looping,
                        inner_loops,
                        input@,
                        in_pos,
                        output@,
                    );
                    assert(step(pre) matches StepResult::Next(m2) && m2 =~= post);
                }
            } else if c == '-' {
                tape[ptr] = if cell == 0 {
                    255
                } else {
                    cell - 1
                };
                i += 1;
                proof {
                    let post = mach(
                        program@,
                        i,
                        tape@,
                        ptr,
                        stack@,
                        is_looping,
                        inner_loops,
                        input@,
                        in_pos,
                        output@,
                    );
                    assert(step(pre) matches StepResult::Next(m2) && m2 =~= post);
                }
            } else if c == '.' {
                output.push(cell);
                i += 1;
                proof {
                    let post = mach(
                        program@,
                        i,
                        tape@,
                        ptr,
                        stack@,
                        is_looping,
                        inner_loops,
                        input@,
                        in_pos,
                        output@,
                    );
                    assert(step(pre) matches StepResult::Next(m2) && m2 =~= post);
                }
            } else if c == ',' {
                if in_pos < input.len() {
                    tape[ptr] = input[in_pos];
                    in_pos += 1;
                    proof {
                        assert(pre.input.first() == input@[in_pos - 1]);
                        assert(input@.skip(in_pos as int) =~= pre.input.drop_first());
                    }
                }
                i += 1;
                proof {
                    let post = mach(
                        program@,
                        i,
                        tape@,
                        ptr,
                        stack@,
                        is_looping,
                        inner_loops,
                        input@,
                        in_pos,
                        output@,
                    );
                    assert(step(pre) matches StepResult::Next(m2) && m2 =~= post);
                }
            } else if c == '[' {
                if cell == 0 {
                    is_looping = true;
                    inner_loops = 0;
                } else {
                    stack.push(i);
                }
                i += 1;
                proof {
                    let post = mach(
                        program@,
                        i,
                        tape@,
                        ptr,
                        stack@,
                        is_looping,
                        inner_loops,
                        input@,
                        in_pos,
                        output@,
                    );
                    assert(step(pre) matches StepResult::Next(m2) && m2 =~= post);
                }
            } else {
                if cell != 0 {
                    if stack.len() == 0 {
                        proof {
                            assert(run_to(init_machine(program@, input@), steps + 1)
                                == StepResult::Fault(InterpError::UnmatchedClose));
                        }
                        return Err(InterpError::UnmatchedClose);
                    }
                    i = stack[stack.len() - 1] + 1;
                } else {
                    if stack.len() > 0 {
                        stack.pop();
                        proof {
                            assert(stack@ =~= pre.stack.drop_last());
                        }
                    }
                    i += 1;
                }
                proof {
                    let post = mach(
                        program@,
                        i,
                        tape@,
                        ptr,
                        stack@,
                        is_looping,
                        inner_loops,
                        input@,
                        in_pos,
                        output@,
                    );
                    assert(step(pre) matches StepResult::Next(m2) && m2 =~= post);
                }
            }
        } else {
            i += 1;
            proof {
                let post = mach(
                    program@,
                    i,
                    tape@,
                    ptr,
                    stack@,
                    is_looping,
                    inner_loops,
                    input@,
                    in_pos,
                    output@,
                );
                assert(step(pre) matches StepResult::Next(m2) && m2 =~= post);
            }
        }
        fuel -= 1;
        proof {
            steps = steps + 1;
        }
    }
    if i < prog_len {
        return Err(InterpError::StepLimit);
    }
    proof {
        assert(run_to(init_machine(program@, input@), steps + 1) == StepResult::Done(output@));
    }
    Ok(output)
}

/// The cell value after `n` wrapping increments.
pub open spec fn inc_n(v: u8, n: nat) -> u8
    decreases n,
{
    if n == 0 {
        v
    } else {
        wrap_inc(inc_n(v, (n - 1) as nat))
    }
}

proof fn lemma_inc_n_mod(v: u8, n: nat)
    ensures
        inc_n(v, n) == ((v + n) % 256) as u8,
    decreases n,
{
    if n > 0 {
        lemma_inc_n_mod(v, (n - 1) as nat);
    }
}

/// 8-bit wraparound: 256 wrapping increments return any cell to its starting
/// value; in particular a cell incremented 256 times from 0 is 0 again.
pub proof fn lemma_wraparound_256(v: u8)
    ensures
        inc_n(v, 256) == v,
{
    lemma_inc_n_mod(v, 256);
}

} // verus!
