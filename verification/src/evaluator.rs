use vstd::prelude::*;

use crate::helper::safe_add;
use crate::instruction::Instruction;

verus! {

/// Failures of evaluation. A `false` match result is a successful
/// computation that found no match; these are computations that could not be
/// completed. `PCOverFlow` reports an exhausted counter: either a program
/// counter that cannot be advanced any further, or a search that has used up
/// the whole representable step budget without settling. `InvalidPC` is a
/// fetch outside the instruction sequence.
#[derive(Clone, Copy, Debug, PartialEq, Eq, Structural)]
pub enum EvalError {
    PCOverFlow,
    SPOverFlow,
    InvalidPC,
    InvalidContext,
}

/// What a depth-first backtracking search settles to.
pub enum SearchOutcome {
    /// Some path reached `Match`.
    Found,
    /// Every path was explored and none reached `Match`.
    Exhausted,
    /// The path being explored fetched an instruction outside the sequence.
    BadPc,
    /// The step budget ran out before the search settled.
    OutOfSteps,
}

/// One backtracking search, small-step. `cfgs` is the depth-first work list
/// of `(pc, sp)` configurations, most urgent first: the head is the machine
/// state being run, and the tail holds the untried second branches of every
/// `Split` passed on the way here, innermost first. Each step costs one unit
/// of `fuel`, so the definition is total; an evaluation that does not settle
/// within the budget is `OutOfSteps`.
///
/// The order of the work list is the whole story of match priority: a
/// `Split` puts its first address at the head and its second address right
/// behind, so the first branch is explored to success or exhaustion before
/// the second is touched.
pub open spec fn search(
    code: Seq<Instruction>,
    line: Seq<char>,
    cfgs: Seq<(int, int)>,
    fuel: nat,
) -> SearchOutcome
    decreases fuel,
{
    if cfgs.len() == 0 {
        SearchOutcome::Exhausted
    } else if fuel == 0 {
        SearchOutcome::OutOfSteps
    } else {
        let pc = cfgs[0].0;
        let sp = cfgs[0].1;
        let rest = cfgs.drop_first();
        if !(0 <= pc < code.len()) {
            SearchOutcome::BadPc
        } else {
            match code[pc] {
                Instruction::Char(c) => {
                    if 0 <= sp < line.len() && (c == '.' || line[sp] == c) {
                        search(code, line, seq![(pc + 1, sp + 1)] + rest, (fuel - 1) as nat)
                    } else {
                        search(code, line, rest, (fuel - 1) as nat)
                    }
                },
                Instruction::Hat => search(code, line, seq![(pc + 1, sp)] + rest, (fuel - 1) as nat),
                Instruction::Dollar => {
                    if 0 <= sp < line.len() {
                        search(code, line, rest, (fuel - 1) as nat)
                    } else {
                        search(code, line, seq![(pc + 1, sp)] + rest, (fuel - 1) as nat)
                    }
                },
                Instruction::Match => SearchOutcome::Found,
                Instruction::Jump(a) => search(
                    code,
                    line,
                    seq![(a as int, sp)] + rest,
                    (fuel - 1) as nat,
                ),
                Instruction::Split(a1, a2) => search(
                    code,
                    line,
                    seq![(a1 as int, sp), (a2 as int, sp)] + rest,
                    (fuel - 1) as nat,
                ),
            }
        }
    }
}

/// The result that `eval` reports for a settled search.
pub open spec fn search_result(o: SearchOutcome) -> Result<bool, EvalError> {
    match o {
        SearchOutcome::Found => Ok(true),
        SearchOutcome::Exhausted => Ok(false),
        SearchOutcome::BadPc => Err(EvalError::InvalidPC),
        SearchOutcome::OutOfSteps => Err(EvalError::PCOverFlow),
    }
}

/// The work-list configurations that a saved backtrack stack stands for,
/// most recently saved first.
pub open spec fn stack_cfgs(st: Seq<(usize, usize)>) -> Seq<(int, int)>
    decreases st.len(),
{
    if st.len() == 0 {
        Seq::empty()
    } else {
        seq![(st.last().0 as int, st.last().1 as int)] + stack_cfgs(st.drop_last())
    }
}

proof fn lemma_stack_cfgs_push(st: Seq<(usize, usize)>, x: (usize, usize))
    ensures
        stack_cfgs(st.push(x)) == seq![(x.0 as int, x.1 as int)] + stack_cfgs(st),
{
    assert(st.push(x).last() == x);
    assert(st.push(x).drop_last() =~= st);
}

/// A search that settles within some budget settles to the same outcome
/// under any larger budget: what `eval` reports is a property of the
/// program, the input and the anchor alone, not of the step budget.
pub proof fn lemma_search_fuel_monotone(
    code: Seq<Instruction>,
    line: Seq<char>,
    cfgs: Seq<(int, int)>,
    f1: nat,
    f2: nat,
)
    requires
        f1 <= f2,
        search(code, line, cfgs, f1) != SearchOutcome::OutOfSteps,
    ensures
        search(code, line, cfgs, f2) == search(code, line, cfgs, f1),
    decreases f1,
{
    if cfgs.len() == 0 {
    } else {
        assert(f1 > 0);
        let pc = cfgs[0].0;
        let sp = cfgs[0].1;
        let rest = cfgs.drop_first();
        if 0 <= pc < code.len() {
            match code[pc] {
                Instruction::Char(c) => {
                    if 0 <= sp < line.len() && (c == '.' || line[sp] == c) {
                        lemma_search_fuel_monotone(
                            code,
                            line,
                            seq![(pc + 1, sp + 1)] + rest,
                            (f1 - 1) as nat,
                            (f2 - 1) as nat,
                        );
                    } else {
                        lemma_search_fuel_monotone(code, line, rest, (f1 - 1) as nat, (f2 - 1) as nat);
                    }
                },
                Instruction::Hat => {
                    lemma_search_fuel_monotone(
                        code,
                        line,
                        seq![(pc + 1, sp)] + rest,
                        (f1 - 1) as nat,
                        (f2 - 1) as nat,
                    );
                },
                Instruction::Dollar => {
                    if 0 <= sp < line.len() {
                        lemma_search_fuel_monotone(code, line, rest, (f1 - 1) as nat, (f2 - 1) as nat);
                    } else {
                        lemma_search_fuel_monotone(
                            code,
                            line,
                            seq![(pc + 1, sp)] + rest,
                            (f1 - 1) as nat,
                            (f2 - 1) as nat,
                        );
                    }
                },
                Instruction::Match => {},
                Instruction::Jump(a) => {
                    lemma_search_fuel_monotone(
                        code,
                        line,
                        seq![(a as int, sp)] + rest,
                        (f1 - 1) as nat,
                        (f2 - 1) as nat,
                    );
                },
                Instruction::Split(a1, a2) => {
                    lemma_search_fuel_monotone(
                        code,
                        line,
                        seq![(a1 as int, sp), (a2 as int, sp)] + rest,
                        (f1 - 1) as nat,
                        (f2 - 1) as nat,
                    );
                },
            }
        }
    }
}

/// A search that finds a match from the front of the work list reports it
/// whatever configurations wait behind: the untried alternatives are never
/// consulted.
pub proof fn lemma_found_ignores_waiting(
    code: Seq<Instruction>,
    line: Seq<char>,
    cfgs: Seq<(int, int)>,
    rest: Seq<(int, int)>,
    fuel: nat,
)
    requires
        search(code, line, cfgs, fuel) == SearchOutcome::Found,
    ensures
        search(code, line, cfgs + rest, fuel) == SearchOutcome::Found,
    decreases fuel,
{
    assert(cfgs.len() > 0);
    assert(fuel > 0);
    let pc = cfgs[0].0;
    let sp = cfgs[0].1;
    let combined = cfgs + rest;
    assert(combined[0] == cfgs[0]);
    assert(combined.drop_first() =~= cfgs.drop_first() + rest);
    assert(0 <= pc < code.len());
    match code[pc] {
        Instruction::Char(c) => {
            if 0 <= sp < line.len() && (c == '.' || line[sp] == c) {
                assert(seq![(pc + 1, sp + 1)] + combined.drop_first() =~= (seq![(pc + 1, sp + 1)]
                    + cfgs.drop_first()) + rest);
                lemma_found_ignores_waiting(
                    code,
                    line,
                    seq![(pc + 1, sp + 1)] + cfgs.drop_first(),
                    rest,
                    (fuel - 1) as nat,
                );
            } else {
                lemma_found_ignores_waiting(code, line, cfgs.drop_first(), rest, (fuel - 1) as nat);
            }
        },
        Instruction::Hat => {
            assert(seq![(pc + 1, sp)] + combined.drop_first() =~= (seq![(pc + 1, sp)]
                + cfgs.drop_first()) + rest);
            lemma_found_ignores_waiting(
                code,
                line,
                seq![(pc + 1, sp)] + cfgs.drop_first(),
                rest,
                (fuel - 1) as nat,
            );
        },
        Instruction::Dollar => {
            if 0 <= sp < line.len() {
                lemma_found_ignores_waiting(code, line, cfgs.drop_first(), rest, (fuel - 1) as nat);
            } else {
                assert(seq![(pc + 1, sp)] + combined.drop_first() =~= (seq![(pc + 1, sp)]
                    + cfgs.drop_first()) + rest);
                lemma_found_ignores_waiting(
                    code,
                    line,
                    seq![(pc + 1, sp)] + cfgs.drop_first(),
                    rest,
                    (fuel - 1) as nat,
                );
            }
        },
        Instruction::Match => {},
        Instruction::Jump(a) => {
            assert(seq![(a as int, sp)] + combined.drop_first() =~= (seq![(a as int, sp)]
                + cfgs.drop_first()) + rest);
            lemma_found_ignores_waiting(
                code,
                line,
                seq![(a as int, sp)] + cfgs.drop_first(),
                rest,
                (fuel - 1) as nat,
            );
        },
        Instruction::Split(a1, a2) => {
            assert(seq![(a1 as int, sp), (a2 as int, sp)] + combined.drop_first() =~= (seq![
                (a1 as int, sp),
                (a2 as int, sp),
            ] + cfgs.drop_first()) + rest);
            lemma_found_ignores_waiting(
                code,
                line,
                seq![(a1 as int, sp), (a2 as int, sp)] + cfgs.drop_first(),
                rest,
                (fuel - 1) as nat,
            );
        },
    }
}

/// Alternation priority: at a `Split` whose first branch alone finds a
/// match, the search reports that match, and the second branch — and
/// anything else waiting in the work list — is never consulted.
pub proof fn lemma_split_first_branch_wins(
    code: Seq<Instruction>,
    line: Seq<char>,
    pc: int,
    sp: int,
    rest: Seq<(int, int)>,
    fuel: nat,
)
    requires
        0 <= pc < code.len(),
        code[pc] is Split,
        search(code, line, seq![(code[pc]->Split_0 as int, sp)], fuel) == SearchOutcome::Found,
    ensures
        search(code, line, seq![(pc, sp)] + rest, fuel + 1) == SearchOutcome::Found,
{
    let a1 = code[pc]->Split_0 as int;
    let a2 = code[pc]->Split_1 as int;
    let start = seq![(pc, sp)] + rest;
    assert(start[0] == (pc, sp));
    assert(start.drop_first() =~= rest);
    lemma_found_ignores_waiting(
        code,
        line,
        seq![(a1, sp)],
        seq![(a2, sp)] + rest,
        fuel,
    );
    assert(seq![(a1, sp)] + (seq![(a2, sp)] + rest) =~= seq![(a1, sp), (a2, sp)] + rest);
}

/// Depth-first backtracking evaluation of the compiled program against the
/// input characters, anchored at `(pc, sp)`. The explicit stack carries the
/// untried second branches of the `Split` instructions passed so far, and is
/// popped when the current path fails; exploration order is exactly the
/// depth-first, left-first order of `search`. Every counter is advanced
/// through the overflow-checked increment, and a search that uses up the
/// whole representable step budget reports `PCOverFlow` rather than running
/// unbounded.
fn eval_depth(inst: &[Instruction], line: &[char], pc: usize, sp: usize) -> (r: Result<
    bool,
    EvalError,
>)
    ensures
        r == search_result(
            search(inst@, line@, seq![(pc as int, sp as int)], usize::MAX as nat),
        ),
{
    let ghost target = search(inst@, line@, seq![(pc as int, sp as int)], usize::MAX as nat);
    let mut cur_pc = pc;
    let mut cur_sp = sp;
    let mut stack: Vec<(usize, usize)> = Vec::new();
    let mut steps: usize = 0;
    proof {
        assert(seq![(pc as int, sp as int)] + stack_cfgs(stack@) =~= seq![
            (pc as int, sp as int),
        ]);
    }
    loop
        invariant
            steps <= usize::MAX,
            target == search(inst@, line@, seq![(pc as int, sp as int)], usize::MAX as nat),
            search(
                inst@,
                line@,
                seq![(cur_pc as int, cur_sp as int)] + stack_cfgs(stack@),
                (usize::MAX - steps) as nat,
            ) == target,
        decreases usize::MAX - steps,
    {
        let ghost cfgs_pre = seq![(cur_pc as int, cur_sp as int)] + stack_cfgs(stack@);
        let ghost fuel_pre = (usize::MAX - steps) as nat;
        proof {
            assert(cfgs_pre.len() > 0);
            assert(cfgs_pre[0] == (cur_pc as int, cur_sp as int));
            assert(cfgs_pre.drop_first() =~= stack_cfgs(stack@));
        }
        match safe_add(&mut steps, 1, EvalError::PCOverFlow) {
            Ok(()) => {},
            Err(e) => {
                return Err(e);
            },
        }
        let next = if cur_pc < inst.len() {
            inst[cur_pc]
        } else {
            return Err(EvalError::InvalidPC);
        };
        match next {
            Instruction::Char(c) => {
                let matched = if cur_sp < line.len() {
                    let ch = line[cur_sp];
                    c == '.' || ch == c
                } else {
                    false
                };
                if matched {
                    safe_add(&mut cur_pc, 1, EvalError::PCOverFlow)?;
                    safe_add(&mut cur_sp, 1, EvalError::SPOverFlow)?;
                    proof {
                        assert(seq![(cur_pc as int, cur_sp as int)] + stack_cfgs(stack@)
                            =~= seq![(cfgs_pre[0].0 + 1, cfgs_pre[0].1 + 1)]
                            + cfgs_pre.drop_first());
                    }
                } else {
                    let ghost st_pre = stack@;
                    match stack.pop() {
                        Some(top) => {
                            cur_pc = top.0;
                            cur_sp = top.1;
                            proof {
                                assert(seq![(cur_pc as int, cur_sp as int)] + stack_cfgs(stack@)
                                    =~= stack_cfgs(st_pre));
                            }
                        },
                        None => {
                            proof {
                                assert(stack_cfgs(stack@) =~= Seq::<(int, int)>::empty());
                                assert(search(
                                    inst@,
                                    line@,
                                    cfgs_pre.drop_first(),
                                    (fuel_pre - 1) as nat,
                                ) == SearchOutcome::Exhausted);
                            }
                            return Ok(false);
                        },
                    }
                }
            },
            Instruction::Hat => {
                safe_add(&mut cur_pc, 1, EvalError::PCOverFlow)?;
                proof {
                    assert(seq![(cur_pc as int, cur_sp as int)] + stack_cfgs(stack@) =~= seq![
                        (cfgs_pre[0].0 + 1, cfgs_pre[0].1),
                    ] + cfgs_pre.drop_first());
                }
            },
            Instruction::Dollar => {
                if cur_sp < line.len() {
                    let ghost st_pre = stack@;
                    match stack.pop() {
                        Some(top) => {
                            cur_pc = top.0;
                            cur_sp = top.1;
                            proof {
                                assert(seq![(cur_pc as int, cur_sp as int)] + stack_cfgs(stack@)
                                    =~= stack_cfgs(st_pre));
                            }
                        },
                        None => {
                            proof {
                                assert(stack_cfgs(stack@) =~= Seq::<(int, int)>::empty());
                                assert(search(
                                    inst@,
                                    line@,
                                    cfgs_pre.drop_first(),
                                    (fuel_pre - 1) as nat,
                                ) == SearchOutcome::Exhausted);
                            }
                            return Ok(false);
                        },
                    }
                } else {
                    safe_add(&mut cur_pc, 1, EvalError::PCOverFlow)?;
                    proof {
                        assert(seq![(cur_pc as int, cur_sp as int)] + stack_cfgs(stack@) =~= seq![
                            (cfgs_pre[0].0 + 1, cfgs_pre[0].1),
                        ] + cfgs_pre.drop_first());
                    }
                }
            },
            Instruction::Match => {
                return Ok(true);
            },
            Instruction::Jump(addr) => {
                cur_pc = addr;
                proof {
                    assert(seq![(cur_pc as int, cur_sp as int)] + stack_cfgs(stack@) =~= seq![
                        (addr as int, cfgs_pre[0].1),
                    ] + cfgs_pre.drop_first());
                }
            },
            Instruction::Split(addr1, addr2) => {
                let ghost st_pre = stack@;
                let saved_sp = cur_sp;
                stack.push((addr2, saved_sp));
                cur_pc = addr1;
                proof {
                    lemma_stack_cfgs_push(st_pre, (addr2, saved_sp));
                    assert(seq![(cur_pc as int, cur_sp as int)] + stack_cfgs(stack@) =~= seq![
                        (addr1 as int, cfgs_pre[0].1),
                        (addr2 as int, cfgs_pre[0].1),
                    ] + cfgs_pre.drop_first());
                }
            },
        }
    }
}

/// The reserved breadth-first mode: not implemented, and specified to report
/// no match rather than alias the depth-first strategy.
fn eval_width(inst: &[Instruction], line: &[char]) -> (r: Result<bool, EvalError>)
    ensures
        r == Ok::<bool, EvalError>(false),
{
    Ok(false)
}

/// Run the compiled program against `line`, anchored at `start`. With
/// `is_depth` the result is exactly what the depth-first backtracking search
/// settles to within the representable step budget: `Ok(true)` when a path
/// reaches `Match`, `Ok(false)` when every path is exhausted, `InvalidPC`
/// for a fetch outside the program, and `PCOverFlow` when a counter cannot
/// be advanced. Without `is_depth` the reserved mode reports no match.
pub fn eval(inst: &[Instruction], start: usize, line: &[char], is_depth: bool) -> (r: Result<
    bool,
    EvalError,
>)
    ensures
        is_depth ==> r == search_result(
            search(inst@, line@, seq![(0int, start as int)], usize::MAX as nat),
        ),
        !is_depth ==> r == Ok::<bool, EvalError>(false),
{
    if is_depth {
        eval_depth(inst, line, 0, start)
    } else {
        eval_width(inst, line)
    }
}

} // verus!
