//! The evaluator: a tree-walking interpreter that runs an instruction
//! tree against a fixed-size tape of 8-bit cells and a movable data
//! pointer, pulling characters from an input source and pushing bytes to
//! an output sink.
//!
//! The semantics is stated once, as the total spec functions
//! [`spec_exec_instr`] and [`spec_exec_seq`]; the executable [`execute`]
//! is proved to leave the machine in exactly the state they assign.
//! Every run carries a step budget: each instruction, and each loop
//! condition check, costs one unit, and a run whose budget reaches zero
//! stops with `Cancelled` — the only defense against the language's
//! inherent non-termination.

use vstd::prelude::*;

use crate::ast::{lemma_view_prog_index, view_prog, ExecError, InstrView, Instruction};

verus! {

/// The mathematical state of one run: the tape cells, the data pointer,
/// the remaining input characters, and the output accumulated so far.
#[verifier::ext_equal]
pub struct MState {
    pub cells: Seq<u8>,
    pub ptr: int,
    pub inp: Seq<char>,
    pub out: Seq<u8>,
}

impl MState {
    /// The pointer addresses a cell.
    pub open spec fn wf(self) -> bool {
        0 <= self.ptr < self.cells.len()
    }
}

/// Cell increment, modulo 256: wraparound is defined behavior, not an
/// error.
pub open spec fn wrap_inc(v: u8) -> u8 {
    if v == 255 {
        0
    } else {
        (v + 1) as u8
    }
}

/// Cell decrement, modulo 256.
pub open spec fn wrap_dec(v: u8) -> u8 {
    if v == 0 {
        255
    } else {
        (v - 1) as u8
    }
}

/// One instruction of the semantics: the final state, the budget left,
/// and the error if one struck. A loop re-checks its condition strictly
/// after each full pass through its body, and each check costs one unit
/// of budget.
pub open spec fn spec_exec_instr(ins: InstrView, st: MState, fuel: nat) -> (
    MState,
    nat,
    Option<ExecError>,
)
    decreases fuel, 0int,
{
    if fuel == 0 {
        (st, 0, Some(ExecError::Cancelled))
    } else {
        let f1 = (fuel - 1) as nat;
        match ins {
            InstrView::Increment => (
                MState { cells: st.cells.update(st.ptr, wrap_inc(st.cells[st.ptr])), ..st },
                f1,
                None,
            ),
            InstrView::Decrement => (
                MState { cells: st.cells.update(st.ptr, wrap_dec(st.cells[st.ptr])), ..st },
                f1,
                None,
            ),
            InstrView::PointerRight => {
                if st.ptr + 1 < st.cells.len() {
                    (MState { ptr: st.ptr + 1, ..st }, f1, None)
                } else {
                    (st, f1, Some(ExecError::TapeOverflow))
                }
            },
            InstrView::PointerLeft => {
                if st.ptr >= 1 {
                    (MState { ptr: st.ptr - 1, ..st }, f1, None)
                } else {
                    (st, f1, Some(ExecError::TapeUnderflow))
                }
            },
            InstrView::Output => (MState { out: st.out.push(st.cells[st.ptr]), ..st }, f1, None),
            InstrView::Input => {
                if st.inp.len() == 0 {
                    (st, f1, Some(ExecError::InputExhausted))
                } else if st.inp[0] as u32 >= 256 {
                    (st, f1, Some(ExecError::InvalidInputCharacter { value: st.inp[0] as u32 }))
                } else {
                    (
                        MState {
                            cells: st.cells.update(st.ptr, st.inp[0] as u8),
                            inp: st.inp.subrange(1, st.inp.len() as int),
                            ..st
                        },
                        f1,
                        None,
                    )
                }
            },
            InstrView::Loop(body) => {
                if st.cells[st.ptr] == 0 {
                    (st, f1, None)
                } else {
                    let (st2, f2, e) = spec_exec_seq(body, st, f1);
                    if e is Some {
                        (st2, f2, e)
                    } else if f2 < fuel {
                        spec_exec_instr(ins, st2, f2)
                    } else {
                        // never reached: a pass through the body cannot
                        // grow the budget
                        (st2, f2, Some(ExecError::Cancelled))
                    }
                }
            },
            InstrView::Comment => (st, f1, None),
        }
    }
}

/// A statement sequence: the instructions run left to right against the
/// one shared state; the first error stops the run in the state it
/// struck in.
pub open spec fn spec_exec_seq(prog: Seq<InstrView>, st: MState, fuel: nat) -> (
    MState,
    nat,
    Option<ExecError>,
)
    decreases fuel, prog.len(),
{
    if prog.len() == 0 {
        (st, fuel, None)
    } else {
        let (st1, f1, e) = spec_exec_instr(prog[0], st, fuel);
        if e is Some {
            (st1, f1, e)
        } else if f1 <= fuel {
            spec_exec_seq(prog.subrange(1, prog.len() as int), st1, f1)
        } else {
            // never reached: an instruction cannot grow the budget
            (st1, f1, Some(ExecError::Cancelled))
        }
    }
}

/// Running one instruction never grows the budget, never changes the
/// tape length, and keeps the pointer on the tape — even when it fails.
pub proof fn lemma_exec_instr_frame(ins: InstrView, st: MState, fuel: nat)
    requires
        st.wf(),
    ensures
        ({
            let (st2, f2, e) = spec_exec_instr(ins, st, fuel);
            st2.wf() && st2.cells.len() == st.cells.len() && f2 <= fuel && (fuel > 0 ==> f2 < fuel)
        }),
    decreases fuel, 0int,
{
    if fuel > 0 {
        match ins {
            InstrView::Loop(body) => {
                if st.cells[st.ptr] != 0 {
                    let f1 = (fuel - 1) as nat;
                    lemma_exec_seq_frame(body, st, f1);
                    let (st2, f2, e) = spec_exec_seq(body, st, f1);
                    if e is None && f2 < fuel {
                        lemma_exec_instr_frame(ins, st2, f2);
                    }
                }
            },
            _ => {},
        }
    }
}

/// Running a sequence never grows the budget, never changes the tape
/// length, and keeps the pointer on the tape — even when it fails.
pub proof fn lemma_exec_seq_frame(prog: Seq<InstrView>, st: MState, fuel: nat)
    requires
        st.wf(),
    ensures
        ({
            let (st2, f2, e) = spec_exec_seq(prog, st, fuel);
            st2.wf() && st2.cells.len() == st.cells.len() && f2 <= fuel
        }),
    decreases fuel, prog.len(),
{
    if prog.len() > 0 {
        lemma_exec_instr_frame(prog[0], st, fuel);
        let (st1, f1, e) = spec_exec_instr(prog[0], st, fuel);
        if e is None && f1 <= fuel {
            lemma_exec_seq_frame(prog.subrange(1, prog.len() as int), st1, f1);
        }
    }
}

/// Sequential composition: running `p + q` runs `p`, and then runs `q`
/// from the state and budget `p` left — unless an error struck inside
/// `p`, which ends the whole run right there.
pub proof fn lemma_exec_seq_concat(p: Seq<InstrView>, q: Seq<InstrView>, st: MState, fuel: nat)
    requires
        st.wf(),
    ensures
        ({
            let (st1, f1, e1) = spec_exec_seq(p, st, fuel);
            &&& (e1 is Some ==> spec_exec_seq(p + q, st, fuel) == (st1, f1, e1))
            &&& (e1 is None ==> spec_exec_seq(p + q, st, fuel) == spec_exec_seq(q, st1, f1))
        }),
    decreases fuel, p.len(),
{
    if p.len() == 0 {
        assert(p + q =~= q);
    } else {
        assert((p + q)[0] == p[0]);
        lemma_exec_instr_frame(p[0], st, fuel);
        let (st1, f1, e) = spec_exec_instr(p[0], st, fuel);
        if e is None {
            assert((p + q).subrange(1, (p + q).len() as int) =~= p.subrange(1, p.len() as int)
                + q);
            lemma_exec_seq_concat(p.subrange(1, p.len() as int), q, st1, f1);
        } else {
            assert(spec_exec_seq(p + q, st, fuel) == (st1, f1, e));
        }
    }
}

/// A loop whose cell is zero on entry runs zero iterations: the state is
/// untouched, and only the one condition check is charged to the budget.
pub proof fn lemma_loop_zero_skips(body: Seq<InstrView>, st: MState, fuel: nat)
    requires
        st.wf(),
        st.cells[st.ptr] == 0,
        fuel >= 1,
    ensures
        spec_exec_instr(InstrView::Loop(body), st, fuel) == (
            st,
            (fuel - 1) as nat,
            None::<ExecError>,
        ),
{
}

/// A loop whose cell is non-zero on entry runs its body once against the
/// shared state and then resumes as the same loop — the condition is
/// re-checked strictly after the full pass, on whatever the pass (nested
/// loops included) left in the cell. An error inside the pass ends the
/// whole run right there.
pub proof fn lemma_loop_unfolds_once(body: Seq<InstrView>, st: MState, fuel: nat)
    requires
        st.wf(),
        st.cells[st.ptr] != 0,
        fuel >= 1,
    ensures
        ({
            let (st2, f2, e) = spec_exec_seq(body, st, (fuel - 1) as nat);
            &&& (e is Some ==> spec_exec_instr(InstrView::Loop(body), st, fuel) == (st2, f2, e))
            &&& (e is None ==> spec_exec_instr(InstrView::Loop(body), st, fuel)
                == spec_exec_instr(InstrView::Loop(body), st2, f2))
        }),
{
    lemma_exec_seq_frame(body, st, (fuel - 1) as nat);
}

/// Pointer motion past either tape boundary is a reported error: moving
/// right off the last cell is `TapeOverflow`, moving left off the first
/// is `TapeUnderflow`, and in both cases the state is left exactly as it
/// was — never wrapped or clamped. (That the pointer stays on the tape
/// through every run, whatever it holds, is `lemma_exec_seq_frame`.)
pub proof fn lemma_pointer_bounds(st: MState, fuel: nat)
    requires
        st.wf(),
        fuel >= 1,
    ensures
        st.ptr == st.cells.len() - 1 ==> spec_exec_instr(InstrView::PointerRight, st, fuel) == (
            st,
            (fuel - 1) as nat,
            Some(ExecError::TapeOverflow),
        ),
        st.ptr == 0 ==> spec_exec_instr(InstrView::PointerLeft, st, fuel) == (
            st,
            (fuel - 1) as nat,
            Some(ExecError::TapeUnderflow),
        ),
{
}

/// `n` increment instructions in a row.
pub open spec fn repeat_inc(n: nat) -> Seq<InstrView> {
    Seq::new(n, |k: int| InstrView::Increment)
}

/// What a run of `n` increments does to the current cell: add `n`,
/// modulo 256, and nothing else.
proof fn lemma_increments_add(n: nat, st: MState, fuel: nat)
    requires
        st.wf(),
        fuel >= n,
    ensures
        ({
            let (st2, f2, e) = spec_exec_seq(repeat_inc(n), st, fuel);
            &&& e is None
            &&& f2 == fuel - n
            &&& st2.cells == st.cells.update(st.ptr, (((st.cells[st.ptr] + n) % 256) as u8))
            &&& st2.ptr == st.ptr
            &&& st2.inp == st.inp
            &&& st2.out == st.out
        }),
    decreases n,
{
    let c0 = st.cells[st.ptr] as int;
    if n == 0 {
        vstd::arithmetic::div_mod::lemma_small_mod(c0 as nat, 256);
        assert(st.cells.update(st.ptr, ((c0 % 256) as u8)) =~= st.cells);
    } else {
        let st1 = MState { cells: st.cells.update(st.ptr, wrap_inc(st.cells[st.ptr])), ..st };
        assert(spec_exec_instr(repeat_inc(n)[0], st, fuel) == (
            st1,
            (fuel - 1) as nat,
            None::<ExecError>,
        ));
        assert(repeat_inc(n).subrange(1, n as int) =~= repeat_inc((n - 1) as nat));
        lemma_increments_add((n - 1) as nat, st1, (fuel - 1) as nat);
        let a = st1.cells[st.ptr] as int;
        assert(a == (c0 + 1) % 256);
        vstd::arithmetic::div_mod::lemma_mod_bound(c0 + 1, 256);
        vstd::arithmetic::div_mod::lemma_small_mod(a as nat, 256);
        vstd::arithmetic::div_mod::lemma_add_mod_noop(a, n - 1, 256);
        vstd::arithmetic::div_mod::lemma_add_mod_noop(c0 + 1, n - 1, 256);
        assert((a + (n - 1)) % 256 == (c0 + n) % 256);
        let (st2, f2, e) = spec_exec_seq(repeat_inc(n), st, fuel);
        assert(st2.cells =~= st.cells.update(st.ptr, (((st.cells[st.ptr] + n) % 256) as u8)));
    }
}

/// Running `n` increment instructions and then one output instruction on
/// a zeroed tape emits exactly one byte, `n` modulo 256: each `n` in
/// [0, 255] prints itself, and 256 increments wrap back to zero.
pub proof fn lemma_increments_then_output(n: nat, st: MState, fuel: nat)
    requires
        st.wf(),
        forall|k: int| 0 <= k < st.cells.len() ==> st.cells[k] == 0,
        st.out == Seq::<u8>::empty(),
        fuel >= n + 1,
    ensures
        ({
            let (st2, f2, e) = spec_exec_seq(repeat_inc(n).push(InstrView::Output), st, fuel);
            &&& e is None
            &&& st2.out == seq![((n % 256) as u8)]
        }),
{
    assert(repeat_inc(n).push(InstrView::Output) =~= repeat_inc(n) + seq![InstrView::Output]);
    lemma_increments_add(n, st, fuel);
    let (st1, f1, e1) = spec_exec_seq(repeat_inc(n), st, fuel);
    lemma_exec_seq_concat(repeat_inc(n), seq![InstrView::Output], st, fuel);
    assert(st1.cells[st1.ptr] == ((n % 256) as u8));
    assert(f1 == fuel - n && f1 >= 1);
    let (st2, f2, e2) = spec_exec_instr(InstrView::Output, st1, f1);
    assert(st2 == (MState { out: st1.out.push(st1.cells[st1.ptr]), ..st1 }) && e2 is None && f2
        == f1 - 1);
    assert(seq![InstrView::Output].subrange(1, 1) =~= Seq::<InstrView>::empty());
    assert(seq![InstrView::Output][0] == InstrView::Output);
    assert(spec_exec_seq(Seq::<InstrView>::empty(), st2, f2) == (st2, f2, None::<ExecError>));
    assert(spec_exec_seq(seq![InstrView::Output], st1, f1) == (st2, f2, None::<ExecError>));
    assert(st2.out =~= seq![((n % 256) as u8)]);
}

/// The tape length used when the host does not configure one.
pub const DEFAULT_TAPE_LEN: usize = 32000;

/// One execution context: the fixed-length tape of cells, the data
/// pointer, the pull-based input source, and the push-based output sink.
/// Tape and pointer belong to this one run exclusively; a host running
/// several interpreters gives each its own machine.
pub struct Machine {
    pub cells: Vec<u8>,
    pub pointer: usize,
    pub input: Vec<char>,
    pub next_input: usize,
    pub output: Vec<u8>,
}

impl Machine {
    /// The pointer addresses a cell and the input cursor has not run
    /// past the input.
    pub open spec fn wf(self) -> bool {
        self.pointer < self.cells@.len() && self.next_input <= self.input@.len()
    }

    /// The mathematical state this machine stands in.
    pub open spec fn st(self) -> MState {
        MState {
            cells: self.cells@,
            ptr: self.pointer as int,
            inp: self.input@.subrange(self.next_input as int, self.input@.len() as int),
            out: self.output@,
        }
    }

    /// A fresh machine: `tape_len` zeroed cells, the pointer on the
    /// first cell, the whole input still ahead, no output yet. A
    /// zero-length tape would leave the pointer with no cell to address;
    /// that is API misuse and is ruled out here rather than reported at
    /// run time.
    pub fn new(tape_len: usize, input: Vec<char>) -> (m: Machine)
        requires
            1 <= tape_len,
        ensures
            m.wf(),
            m.st() == (MState {
                cells: Seq::new(tape_len as nat, |k: int| 0u8),
                ptr: 0,
                inp: input@,
                out: Seq::<u8>::empty(),
            }),
    {
        let mut cells: Vec<u8> = Vec::new();
        let mut n: usize = 0;
        while n < tape_len
            invariant
                n <= tape_len,
                cells@.len() == n,
                forall|k: int| 0 <= k < n ==> cells@[k] == 0u8,
            decreases tape_len - n,
        {
            cells.push(0);
            n = n + 1;
        }
        let m = Machine { cells, pointer: 0, input, next_input: 0, output: Vec::new() };
        proof {
            assert(m.st().cells =~= Seq::new(tape_len as nat, |k: int| 0u8));
            assert(m.st().inp =~= m.input@);
            assert(m.st() =~= (MState {
                cells: Seq::new(tape_len as nat, |k: int| 0u8),
                ptr: 0,
                inp: m.input@,
                out: Seq::<u8>::empty(),
            }));
        }
        m
    }
}

/// Runs one instruction against the machine.
fn exec_instr(ins: &Instruction, m: &mut Machine, fuel: u64) -> (res: (u64, Result<(), ExecError>))
    requires
        old(m).wf(),
    ensures
        ({
            let (st2, f2, e) = spec_exec_instr(ins.deep(), old(m).st(), fuel as nat);
            &&& final(m).wf()
            &&& final(m).st() == st2
            &&& res.0 as nat == f2
            &&& res.0 <= fuel
            &&& res.1 == (match e {
                None => Ok::<(), ExecError>(()),
                Some(err) => Err::<(), ExecError>(err),
            })
        }),
    decreases fuel, 0int,
{
    let ghost st0 = m.st();
    if fuel == 0 {
        return (0, Err(ExecError::Cancelled));
    }
    let f1 = fuel - 1;
    match ins {
        Instruction::Increment => {
            let v = m.cells[m.pointer];
            let nv = if v == 255 {
                0
            } else {
                v + 1
            };
            m.cells.set(m.pointer, nv);
            proof {
                assert(m.st() =~= (MState {
                    cells: st0.cells.update(st0.ptr, wrap_inc(st0.cells[st0.ptr])),
                    ..st0
                }));
            }
            (f1, Ok(()))
        },
        Instruction::Decrement => {
            let v = m.cells[m.pointer];
            let nv = if v == 0 {
                255
            } else {
                v - 1
            };
            m.cells.set(m.pointer, nv);
            proof {
                assert(m.st() =~= (MState {
                    cells: st0.cells.update(st0.ptr, wrap_dec(st0.cells[st0.ptr])),
                    ..st0
                }));
            }
            (f1, Ok(()))
        },
        Instruction::PointerRight => {
            let len = m.cells.len();
            if m.pointer + 1 < len {
                m.pointer = m.pointer + 1;
                proof {
                    assert(m.st() =~= (MState { ptr: st0.ptr + 1, ..st0 }));
                }
                (f1, Ok(()))
            } else {
                (f1, Err(ExecError::TapeOverflow))
            }
        },
        Instruction::PointerLeft => {
            if m.pointer >= 1 {
                m.pointer = m.pointer - 1;
                proof {
                    assert(m.st() =~= (MState { ptr: st0.ptr - 1, ..st0 }));
                }
                (f1, Ok(()))
            } else {
                (f1, Err(ExecError::TapeUnderflow))
            }
        },
        Instruction::Output => {
            let v = m.cells[m.pointer];
            m.output.push(v);
            proof {
                assert(m.st() =~= (MState { out: st0.out.push(st0.cells[st0.ptr]), ..st0 }));
            }
            (f1, Ok(()))
        },
        Instruction::Input => {
            if m.next_input >= m.input.len() {
                proof {
                    assert(st0.inp.len() == 0);
                }
                (f1, Err(ExecError::InputExhausted))
            } else {
                let c = m.input[m.next_input];
                let v = c as u32;
                proof {
                    assert(st0.inp[0] == c);
                }
                if v >= 256 {
                    (f1, Err(ExecError::InvalidInputCharacter { value: v }))
                } else {
                    m.cells.set(m.pointer, c as u8);
                    m.next_input = m.next_input + 1;
                    proof {
                        assert(m.st().inp =~= st0.inp.subrange(1, st0.inp.len() as int));
                        assert(m.st() =~= (MState {
                            cells: st0.cells.update(st0.ptr, st0.inp[0] as u8),
                            inp: st0.inp.subrange(1, st0.inp.len() as int),
                            ..st0
                        }));
                    }
                    (f1, Ok(()))
                }
            }
        },
        Instruction::Loop(body) => {
            let ghost iv = ins.deep();
            let mut curf = fuel;
            loop
                invariant
                    m.wf(),
                    iv == ins.deep(),
                    iv == InstrView::Loop(view_prog(body@)),
                    curf <= fuel,
                    spec_exec_instr(iv, old(m).st(), fuel as nat) == spec_exec_instr(
                        iv,
                        m.st(),
                        curf as nat,
                    ),
                decreases curf,
            {
                if curf == 0 {
                    return (0, Err(ExecError::Cancelled));
                }
                let cf1 = curf - 1;
                if m.cells[m.pointer] == 0 {
                    return (cf1, Ok(()));
                }
                let ghost stb = m.st();
                let (f2, r) = exec_seq(body, m, cf1);
                proof {
                    lemma_exec_seq_frame(view_prog(body@), stb, cf1 as nat);
                }
                match r {
                    Ok(()) => {
                        curf = f2;
                    },
                    Err(e) => {
                        return (f2, Err(e));
                    },
                }
            }
        },
        Instruction::Comment => (f1, Ok(())),
    }
}

/// Runs a statement sequence left to right against the machine.
fn exec_seq(prog: &Vec<Instruction>, m: &mut Machine, fuel: u64) -> (res: (
    u64,
    Result<(), ExecError>,
))
    requires
        old(m).wf(),
    ensures
        ({
            let (st2, f2, e) = spec_exec_seq(view_prog(prog@), old(m).st(), fuel as nat);
            &&& final(m).wf()
            &&& final(m).st() == st2
            &&& res.0 as nat == f2
            &&& res.0 <= fuel
            &&& res.1 == (match e {
                None => Ok::<(), ExecError>(()),
                Some(err) => Err::<(), ExecError>(err),
            })
        }),
    decreases fuel, prog@.len(),
{
    let ghost pv = view_prog(prog@);
    proof {
        lemma_view_prog_index(prog@);
    }
    let mut i: usize = 0;
    let mut f = fuel;
    proof {
        assert(pv.subrange(0, pv.len() as int) =~= pv);
    }
    loop
        invariant
            i <= prog@.len(),
            f <= fuel,
            m.wf(),
            pv == view_prog(prog@),
            pv.len() == prog@.len(),
            spec_exec_seq(pv, old(m).st(), fuel as nat) == spec_exec_seq(
                pv.subrange(i as int, pv.len() as int),
                m.st(),
                f as nat,
            ),
        decreases pv.len() - i,
    {
        if i >= prog.len() {
            proof {
                assert(pv.subrange(i as int, pv.len() as int) =~= Seq::<InstrView>::empty());
            }
            return (f, Ok(()));
        }
        let ghost sub = pv.subrange(i as int, pv.len() as int);
        proof {
            lemma_view_prog_index(prog@);
            assert(sub[0] == prog@[i as int].deep());
            assert(sub.subrange(1, sub.len() as int) =~= pv.subrange(i as int + 1, pv.len() as int));
        }
        let (f2, r) = exec_instr(&prog[i], m, f);
        match r {
            Ok(()) => {
                f = f2;
                i = i + 1;
            },
            Err(e) => {
                return (f2, Err(e));
            },
        }
    }
}

/// Executes a program against a machine, within a step budget.
///
/// The run is exactly what the semantics says: the machine ends in the
/// state that `spec_exec_seq` assigns, the first component of the result
/// is the budget left, and the second is `Ok` precisely when the
/// semantics finishes without an error — otherwise it carries that
/// error, and everything emitted before the failure stays in the
/// machine's output.
pub fn execute(program: &Vec<Instruction>, m: &mut Machine, fuel: u64) -> (res: (
    u64,
    Result<(), ExecError>,
))
    requires
        old(m).wf(),
    ensures
        ({
            let (st2, f2, e) = spec_exec_seq(view_prog(program@), old(m).st(), fuel as nat);
            &&& final(m).wf()
            &&& final(m).st() == st2
            &&& res.0 as nat == f2
            &&& res.0 <= fuel
            &&& res.1 == (match e {
                None => Ok::<(), ExecError>(()),
                Some(err) => Err::<(), ExecError>(err),
            })
        }),
{
    exec_seq(program, m, fuel)
}

} // verus!
