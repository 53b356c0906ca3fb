use vstd::prelude::*;

use crate::ast::{
    AST, AstView, ast_size, ast_size_seq, ast_view, lemma_ast_size_elem, lemma_views_index, views,
};
use crate::helper::safe_add;
use crate::instruction::Instruction;

verus! {

/// Failures of code generation. `PCOverFlow` is a genuine resource limit:
/// the program counter would leave the representable address space. The
/// three `Fail*` variants report a backpatch target that was not found where
/// it was emitted; they are unreachable for a well-formed tree, and
/// `get_code` is proved never to return them.
#[derive(Clone, Copy, Debug, PartialEq, Eq, Structural)]
pub enum CodeGenError {
    PCOverFlow,
    FailStar,
    FailOr,
    FailQuestion,
}

/// How many instructions a tree compiles to.
pub open spec fn code_len(a: AstView) -> nat
    decreases a, 0nat,
{
    match a {
        AstView::Char(_) => 1,
        AstView::Plus(e) => code_len(*e) + 1,
        AstView::Star(e) => code_len(*e) + 2,
        AstView::Question(e) => code_len(*e) + 1,
        AstView::Or(e1, e2) => code_len(*e1) + code_len(*e2) + 2,
        AstView::Concat(s) => code_len_seq(s),
        AstView::Hat => 1,
        AstView::Dollar(e) => code_len(*e) + 1,
    }
}

/// How many instructions a concatenation list compiles to.
pub open spec fn code_len_seq(s: Seq<AstView>) -> nat
    decreases s, 1nat,
{
    if s.len() == 0 {
        0
    } else {
        code_len(s.first()) + code_len_seq(s.drop_first())
    }
}

/// The instruction sequence a tree compiles to when its first instruction
/// stands at address `pc`. This is the emission table of the generator:
/// every `Jump`/`Split` address is already resolved to its final value.
pub open spec fn code_of(a: AstView, pc: int) -> Seq<Instruction>
    decreases a, 0nat,
{
    match a {
        AstView::Char(c) => seq![Instruction::Char(c)],
        AstView::Plus(e) => code_of(*e, pc) + seq![
            Instruction::Split(pc as usize, (pc + code_len(*e) + 1) as usize),
        ],
        AstView::Star(e) => seq![
            Instruction::Split((pc + 1) as usize, (pc + code_len(*e) + 2) as usize),
        ] + code_of(*e, pc + 1) + seq![Instruction::Jump(pc as usize)],
        AstView::Question(e) => seq![
            Instruction::Split((pc + 1) as usize, (pc + code_len(*e) + 1) as usize),
        ] + code_of(*e, pc + 1),
        AstView::Or(e1, e2) => seq![
            Instruction::Split((pc + 1) as usize, (pc + code_len(*e1) + 2) as usize),
        ] + code_of(*e1, pc + 1) + seq![
            Instruction::Jump((pc + code_len(*e1) + code_len(*e2) + 2) as usize),
        ] + code_of(*e2, pc + code_len(*e1) + 2),
        AstView::Concat(s) => code_of_seq(s, pc),
        AstView::Hat => seq![Instruction::Hat],
        AstView::Dollar(e) => code_of(*e, pc) + seq![Instruction::Dollar],
    }
}

/// The instruction sequence of a concatenation list: each child in order,
/// each at the address where the previous child ends.
pub open spec fn code_of_seq(s: Seq<AstView>, pc: int) -> Seq<Instruction>
    decreases s, 1nat,
{
    if s.len() == 0 {
        Seq::empty()
    } else {
        code_of(s.first(), pc) + code_of_seq(s.drop_first(), pc + code_len(s.first()))
    }
}

pub proof fn lemma_code_of_len(a: AstView, pc: int)
    ensures
        code_of(a, pc).len() == code_len(a),
    decreases a, 0nat,
{
    match a {
        AstView::Char(_) => {},
        AstView::Plus(e) => lemma_code_of_len(*e, pc),
        AstView::Star(e) => lemma_code_of_len(*e, pc + 1),
        AstView::Question(e) => lemma_code_of_len(*e, pc + 1),
        AstView::Or(e1, e2) => {
            lemma_code_of_len(*e1, pc + 1);
            lemma_code_of_len(*e2, pc + code_len(*e1) + 2);
        },
        AstView::Concat(s) => lemma_code_of_seq_len(s, pc),
        AstView::Hat => {},
        AstView::Dollar(e) => lemma_code_of_len(*e, pc),
    }
}

pub proof fn lemma_code_of_seq_len(s: Seq<AstView>, pc: int)
    ensures
        code_of_seq(s, pc).len() == code_len_seq(s),
    decreases s, 1nat,
{
    if s.len() > 0 {
        lemma_code_of_len(s.first(), pc);
        lemma_code_of_seq_len(s.drop_first(), pc + code_len(s.first()));
    }
}

/// Appending one more child to a concatenation list appends its code at the
/// address where the list's code ends.
pub proof fn lemma_code_of_seq_snoc(s: Seq<AstView>, x: AstView, pc: int)
    ensures
        code_len_seq(s.push(x)) == code_len_seq(s) + code_len(x),
        code_of_seq(s.push(x), pc) == code_of_seq(s, pc) + code_of(x, pc + code_len_seq(s)),
    decreases s.len(),
{
    if s.len() == 0 {
        assert(s.push(x).first() == x);
        assert(s.push(x).drop_first() =~= Seq::<AstView>::empty());
        assert(code_of_seq(s.push(x).drop_first(), pc + code_len(x)) =~= Seq::<Instruction>::empty());
        assert(code_len_seq(s.push(x).drop_first()) == 0);
        assert(code_len_seq(s.push(x)) == code_len(x));
        assert(code_of_seq(s.push(x), pc) =~= code_of(x, pc));
        assert(code_of_seq(s, pc) + code_of(x, pc + code_len_seq(s)) =~= code_of(x, pc));
    } else {
        assert(s.push(x).first() == s.first());
        assert(s.push(x).drop_first() =~= s.drop_first().push(x));
        lemma_code_of_seq_snoc(s.drop_first(), x, pc + code_len(s.first()));
        assert(code_len_seq(s.push(x)) == code_len(s.first()) + code_len_seq(
            s.drop_first().push(x),
        ));
        assert(code_of_seq(s.push(x), pc) =~= code_of_seq(s, pc) + code_of(
            x,
            pc + code_len_seq(s),
        ));
    }
}

/// The code of a whole list is at least the code of any prefix plus the code
/// of the element that follows it.
pub proof fn lemma_code_len_seq_prefix_elem(s: Seq<AstView>, i: int)
    requires
        0 <= i < s.len(),
    ensures
        code_len_seq(s) >= code_len_seq(s.subrange(0, i)) + code_len(s[i]),
    decreases i,
{
    if i == 0 {
        assert(s.subrange(0, 0) =~= Seq::<AstView>::empty());
    } else {
        lemma_code_len_seq_prefix_elem(s.drop_first(), i - 1);
        assert(s.subrange(0, i).first() == s.first());
        assert(s.subrange(0, i).drop_first() =~= s.drop_first().subrange(0, i - 1));
        assert(s.drop_first()[i - 1] == s[i]);
    }
}

/// Every address an instruction carries lies between `lo` and `hi`.
pub open spec fn addrs_within(inst: Instruction, lo: int, hi: int) -> bool {
    match inst {
        Instruction::Jump(t) => lo <= t as int <= hi,
        Instruction::Split(t1, t2) => lo <= t1 as int <= hi && lo <= t2 as int <= hi,
        _ => true,
    }
}

/// Every `Jump`/`Split` address in the code is a valid index into the code.
pub open spec fn valid_addresses(code: Seq<Instruction>) -> bool {
    forall|k: int|
        0 <= k < code.len() ==> addrs_within(#[trigger] code[k], 0, code.len() - 1)
}

proof fn lemma_code_of_targets(a: AstView, pc: int)
    requires
        0 <= pc,
        pc + code_len(a) <= usize::MAX,
    ensures
        forall|k: int|
            0 <= k < code_len(a) ==> addrs_within(
                #[trigger] code_of(a, pc)[k],
                pc,
                pc + code_len(a),
            ),
    decreases a, 0nat,
{
    lemma_code_of_len(a, pc);
    let code = code_of(a, pc);
    let n = code_len(a) as int;
    match a {
        AstView::Char(c) => {
            assert(code[0] == Instruction::Char(c));
        },
        AstView::Hat => {
            assert(code[0] == Instruction::Hat);
        },
        AstView::Plus(e) => {
            lemma_code_of_len(*e, pc);
            lemma_code_of_targets(*e, pc);
            let m = code_len(*e) as int;
            assert forall|k: int| 0 <= k < n implies addrs_within(#[trigger] code[k], pc, pc + n) by {
                if k < m {
                    assert(code[k] == code_of(*e, pc)[k]);
                } else {
                    assert(code[k] == Instruction::Split(pc as usize, (pc + m + 1) as usize));
                }
            }
        },
        AstView::Dollar(e) => {
            lemma_code_of_len(*e, pc);
            lemma_code_of_targets(*e, pc);
            let m = code_len(*e) as int;
            assert forall|k: int| 0 <= k < n implies addrs_within(#[trigger] code[k], pc, pc + n) by {
                if k < m {
                    assert(code[k] == code_of(*e, pc)[k]);
                }
            }
        },
        AstView::Star(e) => {
            lemma_code_of_len(*e, pc + 1);
            lemma_code_of_targets(*e, pc + 1);
            let m = code_len(*e) as int;
            assert forall|k: int| 0 <= k < n implies addrs_within(#[trigger] code[k], pc, pc + n) by {
                if k == 0 {
                    assert(code[0] == Instruction::Split((pc + 1) as usize, (pc + m + 2) as usize));
                } else if k < m + 1 {
                    assert(code[k] == code_of(*e, pc + 1)[k - 1]);
                } else {
                    assert(code[k] == Instruction::Jump(pc as usize));
                }
            }
        },
        AstView::Question(e) => {
            lemma_code_of_len(*e, pc + 1);
            lemma_code_of_targets(*e, pc + 1);
            let m = code_len(*e) as int;
            assert forall|k: int| 0 <= k < n implies addrs_within(#[trigger] code[k], pc, pc + n) by {
                if k == 0 {
                    assert(code[0] == Instruction::Split((pc + 1) as usize, (pc + m + 1) as usize));
                } else {
                    assert(code[k] == code_of(*e, pc + 1)[k - 1]);
                }
            }
        },
        AstView::Or(e1, e2) => {
            lemma_code_of_len(*e1, pc + 1);
            lemma_code_of_len(*e2, pc + code_len(*e1) + 2);
            lemma_code_of_targets(*e1, pc + 1);
            lemma_code_of_targets(*e2, pc + code_len(*e1) + 2);
            let m1 = code_len(*e1) as int;
            let m2 = code_len(*e2) as int;
            assert forall|k: int| 0 <= k < n implies addrs_within(#[trigger] code[k], pc, pc + n) by {
                if k == 0 {
                    assert(code[0] == Instruction::Split((pc + 1) as usize, (pc + m1 + 2) as usize));
                } else if k < m1 + 1 {
                    assert(code[k] == code_of(*e1, pc + 1)[k - 1]);
                } else if k == m1 + 1 {
                    assert(code[k] == Instruction::Jump((pc + m1 + m2 + 2) as usize));
                } else {
                    assert(code[k] == code_of(*e2, pc + m1 + 2)[k - (m1 + 2)]);
                }
            }
        },
        AstView::Concat(s) => {
            lemma_code_of_seq_targets(s, pc);
            assert forall|k: int| 0 <= k < n implies addrs_within(#[trigger] code[k], pc, pc + n) by {
                assert(code[k] == code_of_seq(s, pc)[k]);
            }
        },
    }
    assert forall|k: int| 0 <= k < code_len(a) implies addrs_within(
        #[trigger] code_of(a, pc)[k],
        pc,
        pc + code_len(a),
    ) by {
        assert(addrs_within(code[k], pc, pc + n));
    }
}

proof fn lemma_code_of_seq_targets(s: Seq<AstView>, pc: int)
    requires
        0 <= pc,
        pc + code_len_seq(s) <= usize::MAX,
    ensures
        forall|k: int|
            0 <= k < code_len_seq(s) ==> addrs_within(
                #[trigger] code_of_seq(s, pc)[k],
                pc,
                pc + code_len_seq(s),
            ),
    decreases s, 1nat,
{
    lemma_code_of_seq_len(s, pc);
    if s.len() > 0 {
        lemma_code_of_len(s.first(), pc);
        lemma_code_of_seq_len(s.drop_first(), pc + code_len(s.first()));
        lemma_code_of_targets(s.first(), pc);
        lemma_code_of_seq_targets(s.drop_first(), pc + code_len(s.first()));
        let code = code_of_seq(s, pc);
        let n = code_len_seq(s) as int;
        let m = code_len(s.first()) as int;
        assert forall|k: int| 0 <= k < n implies addrs_within(#[trigger] code[k], pc, pc + n) by {
            if k < m {
                assert(code[k] == code_of(s.first(), pc)[k]);
            } else {
                assert(code[k] == code_of_seq(s.drop_first(), pc + m)[k - m]);
            }
        }
    }
}

/// Generation is deterministic: any two instruction sequences that
/// successful generation runs produce for the same tree are identical,
/// because `get_code` pins its result to `code_of` exactly.
pub proof fn lemma_get_code_deterministic(a: AstView, v1: Seq<Instruction>, v2: Seq<Instruction>)
    requires
        v1 == code_of(a, 0).push(Instruction::Match),
        v2 == code_of(a, 0).push(Instruction::Match),
    ensures
        v1 == v2,
{
}

/// No dangling placeholder survives generation: in the finished program of
/// any tree, every `Jump`/`Split` address is a valid index into the program.
pub proof fn lemma_no_dangling_addresses(a: AstView)
    requires
        code_len(a) + 1 <= usize::MAX,
    ensures
        valid_addresses(code_of(a, 0).push(Instruction::Match)),
{
    lemma_code_of_len(a, 0);
    lemma_code_of_targets(a, 0);
    let full = code_of(a, 0).push(Instruction::Match);
    assert forall|k: int| 0 <= k < full.len() implies addrs_within(
        #[trigger] full[k],
        0,
        full.len() - 1,
    ) by {
        if k < code_len(a) {
            assert(full[k] == code_of(a, 0)[k]);
        } else {
            assert(full[k] == Instruction::Match);
        }
    }
}

/// Transient state of one compilation pass: the instructions emitted so far
/// and the program counter that numbers the next address to be assigned.
struct Generator {
    pc: usize,
    insts: Vec<Instruction>,
}

impl Generator {
    fn new() -> (r: Self)
        ensures
            r.pc == 0,
            r.insts@ == Seq::<Instruction>::empty(),
    {
        Generator { pc: 0, insts: Vec::new() }
    }

    /// The counter always equals the number of instructions emitted, so it
    /// is also the address of the next instruction.
    spec fn wf(self) -> bool {
        self.pc == self.insts@.len()
    }

    fn inc_pc(&mut self) -> (r: Result<(), CodeGenError>)
        ensures
            (match r {
                Ok(()) => old(self).pc + 1 <= usize::MAX && final(self).pc == old(self).pc + 1,
                Err(e) => e == CodeGenError::PCOverFlow && old(self).pc == usize::MAX && final(self).pc == old(self).pc,
            }),
            final(self).insts == old(self).insts,
    {
        safe_add(&mut self.pc, 1, CodeGenError::PCOverFlow)
    }

    fn gen_expr(&mut self, ast: &AST) -> (r: Result<(), CodeGenError>)
        requires
            old(self).wf(),
        ensures
            final(self).wf(),
            (match r {
                Ok(()) => final(self).pc == old(self).pc + code_len(ast@) && final(self).insts@
                    == old(self).insts@ + code_of(ast@, old(self).pc as int),
                Err(e) => e == CodeGenError::PCOverFlow && old(self).pc + code_len(ast@)
                    > usize::MAX,
            }),
        decreases ast_size(*ast), 0nat,
    {
        match ast {
            AST::Char(c) => self.gen_char(*c),
            AST::Or(e1, e2) => self.gen_or(e1, e2),
            AST::Plus(e) => self.gen_plus(e),
            AST::Star(e) => self.gen_star(e),
            AST::Question(e) => self.gen_question(e),
            AST::Concat(v) => self.gen_seq(v),
            AST::Hat => self.gen_hat(),
            AST::Dollar(e) => self.gen_dollar(e),
        }
    }

    fn gen_char(&mut self, c: char) -> (r: Result<(), CodeGenError>)
        requires
            old(self).wf(),
        ensures
            final(self).wf(),
            (match r {
                Ok(()) => final(self).pc == old(self).pc + 1 && final(self).insts@ == old(self).insts@ + code_of(AstView::Char(c), old(self).pc as int),
                Err(e) => e == CodeGenError::PCOverFlow && old(self).pc + 1 > usize::MAX,
            }),
    {
        let inst = Instruction::Char(c);
        self.insts.push(inst);
        // the new length is a usize, so the counter has room to follow it
        let n = self.insts.len();
        self.inc_pc()?;
        proof {
            assert(self.insts@ =~= old(self).insts@ + code_of(
                AstView::Char(c),
                old(self).pc as int,
            ));
        }
        Ok(())
    }

    fn gen_hat(&mut self) -> (r: Result<(), CodeGenError>)
        requires
            old(self).wf(),
        ensures
            final(self).wf(),
            (match r {
                Ok(()) => final(self).pc == old(self).pc + 1 && final(self).insts@ == old(self).insts@ + code_of(AstView::Hat, old(self).pc as int),
                Err(e) => e == CodeGenError::PCOverFlow && old(self).pc + 1 > usize::MAX,
            }),
    {
        let inst = Instruction::Hat;
        self.insts.push(inst);
        // the new length is a usize, so the counter has room to follow it
        let n = self.insts.len();
        self.inc_pc()?;
        proof {
            assert(self.insts@ =~= old(self).insts@ + code_of(AstView::Hat, old(self).pc as int));
        }
        Ok(())
    }

    fn gen_dollar(&mut self, expr: &AST) -> (r: Result<(), CodeGenError>)
        requires
            old(self).wf(),
        ensures
            final(self).wf(),
            (match r {
                Ok(()) => final(self).pc == old(self).pc + code_len(expr@) + 1 && final(self).insts@ == old(self).insts@ + code_of(
                    AstView::Dollar(Box::new(expr@)),
                    old(self).pc as int,
                ),
                Err(e) => e == CodeGenError::PCOverFlow && old(self).pc + code_len(expr@) + 1
                    > usize::MAX,
            }),
        decreases ast_size(*expr), 1nat,
    {
        self.gen_expr(expr)?;
        let inst = Instruction::Dollar;
        self.insts.push(inst);
        // the new length is a usize, so the counter has room to follow it
        let n = self.insts.len();
        self.inc_pc()?;
        proof {
            assert(self.insts@ =~= old(self).insts@ + code_of(
                AstView::Dollar(Box::new(ast_view(*expr))),
                old(self).pc as int,
            ));
        }
        Ok(())
    }

    fn gen_plus(&mut self, expr: &AST) -> (r: Result<(), CodeGenError>)
        requires
            old(self).wf(),
        ensures
            final(self).wf(),
            (match r {
                Ok(()) => final(self).pc == old(self).pc + code_len(expr@) + 1 && final(self).insts@ == old(self).insts@ + code_of(
                    AstView::Plus(Box::new(expr@)),
                    old(self).pc as int,
                ),
                Err(e) => e == CodeGenError::PCOverFlow && old(self).pc + code_len(expr@) + 1
                    > usize::MAX,
            }),
        decreases ast_size(*expr), 1nat,
    {
        let l1_addr = self.pc;
        self.gen_expr(expr)?;
        self.inc_pc()?;
        let split = Instruction::Split(l1_addr, self.pc);
        self.insts.push(split);
        proof {
            assert(self.insts@ =~= old(self).insts@ + code_of(
                AstView::Plus(Box::new(ast_view(*expr))),
                old(self).pc as int,
            ));
        }
        Ok(())
    }

    fn gen_star(&mut self, expr: &AST) -> (r: Result<(), CodeGenError>)
        requires
            old(self).wf(),
        ensures
            final(self).wf(),
            (match r {
                Ok(()) => final(self).pc == old(self).pc + code_len(expr@) + 2 && final(self).insts@ == old(self).insts@ + code_of(
                    AstView::Star(Box::new(expr@)),
                    old(self).pc as int,
                ),
                Err(e) => e == CodeGenError::PCOverFlow && old(self).pc + code_len(expr@) + 2
                    > usize::MAX,
            }),
        decreases ast_size(*expr), 1nat,
    {
        let l1_addr = self.pc;
        let split = Instruction::Split(0, 0);
        self.insts.push(split);
        // the new length is a usize, so the counter has room to follow it
        let n = self.insts.len();
        self.inc_pc()?;
        let l2_addr = self.pc;
        self.gen_expr(expr)?;
        let jmp = Instruction::Jump(l1_addr);
        self.insts.push(jmp);
        // the new length is a usize, so the counter has room to follow it
        let n2 = self.insts.len();
        self.inc_pc()?;
        let l3_addr = self.pc;
        let placed = self.insts[l1_addr];
        match placed {
            Instruction::Split(_, _) => {
                self.insts[l1_addr] = Instruction::Split(l2_addr, l3_addr);
            },
            _ => {
                return Err(CodeGenError::FailStar);
            },
        }
        proof {
            lemma_code_of_len(ast_view(*expr), l2_addr as int);
            assert(self.insts@ =~= old(self).insts@ + code_of(
                AstView::Star(Box::new(ast_view(*expr))),
                old(self).pc as int,
            ));
        }
        Ok(())
    }

    fn gen_question(&mut self, expr: &AST) -> (r: Result<(), CodeGenError>)
        requires
            old(self).wf(),
        ensures
            final(self).wf(),
            (match r {
                Ok(()) => final(self).pc == old(self).pc + code_len(expr@) + 1 && final(self).insts@ == old(self).insts@ + code_of(
                    AstView::Question(Box::new(expr@)),
                    old(self).pc as int,
                ),
                Err(e) => e == CodeGenError::PCOverFlow && old(self).pc + code_len(expr@) + 1
                    > usize::MAX,
            }),
        decreases ast_size(*expr), 1nat,
    {
        let split_addr = self.pc;
        let split = Instruction::Split(0, 0);
        self.insts.push(split);
        // the new length is a usize, so the counter has room to follow it
        let n = self.insts.len();
        self.inc_pc()?;
        let l1_addr = self.pc;
        self.gen_expr(expr)?;
        let l2_addr = self.pc;
        let placed = self.insts[split_addr];
        match placed {
            Instruction::Split(_, _) => {
                self.insts[split_addr] = Instruction::Split(l1_addr, l2_addr);
            },
            _ => {
                return Err(CodeGenError::FailQuestion);
            },
        }
        proof {
            lemma_code_of_len(ast_view(*expr), l1_addr as int);
            assert(self.insts@ =~= old(self).insts@ + code_of(
                AstView::Question(Box::new(ast_view(*expr))),
                old(self).pc as int,
            ));
        }
        Ok(())
    }

    fn gen_or(&mut self, e1: &AST, e2: &AST) -> (r: Result<(), CodeGenError>)
        requires
            old(self).wf(),
        ensures
            final(self).wf(),
            (match r {
                Ok(()) => final(self).pc == old(self).pc + code_len(e1@) + code_len(e2@) + 2
                    && final(self).insts@ == old(self).insts@ + code_of(
                    AstView::Or(Box::new(e1@), Box::new(e2@)),
                    old(self).pc as int,
                ),
                Err(e) => e == CodeGenError::PCOverFlow && old(self).pc + code_len(e1@) + code_len(
                    e2@,
                ) + 2 > usize::MAX,
            }),
        decreases ast_size(*e1) + ast_size(*e2), 1nat,
    {
        let split_addr = self.pc;
        self.inc_pc()?;
        let split = Instruction::Split(self.pc, 0);
        self.insts.push(split);
        self.gen_expr(e1)?;
        let jmp_addr = self.pc;
        self.insts.push(Instruction::Jump(0));
        // the new length is a usize, so the counter has room to follow it
        let n = self.insts.len();
        self.inc_pc()?;
        let placed = self.insts[split_addr];
        match placed {
            Instruction::Split(a1, _) => {
                self.insts[split_addr] = Instruction::Split(a1, self.pc);
            },
            _ => {
                return Err(CodeGenError::FailOr);
            },
        }
        self.gen_expr(e2)?;
        let placed_jmp = self.insts[jmp_addr];
        match placed_jmp {
            Instruction::Jump(_) => {
                self.insts[jmp_addr] = Instruction::Jump(self.pc);
            },
            _ => {
                return Err(CodeGenError::FailOr);
            },
        }
        proof {
            lemma_code_of_len(ast_view(*e1), split_addr + 1 as int);
            lemma_code_of_len(ast_view(*e2), split_addr + code_len(ast_view(*e1)) + 2 as int);
            assert(self.insts@ =~= old(self).insts@ + code_of(
                AstView::Or(Box::new(ast_view(*e1)), Box::new(ast_view(*e2))),
                old(self).pc as int,
            ));
        }
        Ok(())
    }

    fn gen_seq(&mut self, exprs: &Vec<AST>) -> (r: Result<(), CodeGenError>)
        requires
            old(self).wf(),
        ensures
            final(self).wf(),
            (match r {
                Ok(()) => final(self).pc == old(self).pc + code_len_seq(views(exprs@)) && final(self).insts@ == old(self).insts@ + code_of_seq(views(exprs@), old(self).pc as int),
                Err(e) => e == CodeGenError::PCOverFlow && old(self).pc + code_len_seq(
                    views(exprs@),
                ) > usize::MAX,
            }),
        decreases ast_size_seq(exprs@), 1nat,
    {
        let ghost vs = views(exprs@);
        proof {
            crate::ast::lemma_views_len(exprs@);
        }
        let n = exprs.len();
        let mut i: usize = 0;
        while i < n
            invariant
                i <= n,
                n == exprs@.len(),
                vs == views(exprs@),
                vs.len() == n,
                self.wf(),
                self.pc == old(self).pc + code_len_seq(vs.subrange(0, i as int)),
                self.insts@ == old(self).insts@ + code_of_seq(
                    vs.subrange(0, i as int),
                    old(self).pc as int,
                ),
            decreases n - i,
        {
            proof {
                lemma_ast_size_elem(exprs@, i as int);
                lemma_views_index(exprs@, i as int);
            }
            match self.gen_expr(&exprs[i]) {
                Ok(()) => {},
                Err(e) => {
                    proof {
                        lemma_code_len_seq_prefix_elem(vs, i as int);
                    }
                    return Err(e);
                },
            }
            proof {
                lemma_code_of_seq_snoc(vs.subrange(0, i as int), vs[i as int], old(self).pc as int);
                assert(vs.subrange(0, i + 1 as int) =~= vs.subrange(0, i as int).push(
                    vs[i as int],
                ));
            }
            i = i + 1;
        }
        proof {
            assert(vs.subrange(0, n as int) =~= vs);
        }
        Ok(())
    }

    fn gen_code(&mut self, ast: &AST) -> (r: Result<(), CodeGenError>)
        requires
            old(self).wf(),
        ensures
            (match r {
                Ok(()) => old(self).pc + code_len(ast@) + 1 <= usize::MAX && final(self).insts@
                    == old(self).insts@ + code_of(ast@, old(self).pc as int).push(
                    Instruction::Match,
                ),
                Err(e) => e == CodeGenError::PCOverFlow && old(self).pc + code_len(ast@) + 1
                    > usize::MAX,
            }),
    {
        self.gen_expr(ast)?;
        self.inc_pc()?;
        self.insts.push(Instruction::Match);
        proof {
            assert(self.insts@ =~= old(self).insts@ + code_of(
                ast_view(*ast),
                old(self).pc as int,
            ).push(Instruction::Match));
        }
        Ok(())
    }
}

/// Compile a tree into the flat instruction sequence of the matching
/// machine: the code of the tree, then one trailing `Match`. Generation
/// succeeds exactly when the whole program fits in the address space; the
/// only error it can return is `PCOverFlow`.
pub fn get_code(ast: &AST) -> (r: Result<Vec<Instruction>, CodeGenError>)
    ensures
        (match r {
            Ok(v) => code_len(ast@) + 1 <= usize::MAX && v@ == code_of(ast@, 0).push(
                Instruction::Match,
            ),
            Err(e) => e == CodeGenError::PCOverFlow && code_len(ast@) + 1 > usize::MAX,
        }),
{
    let mut generator = Generator::new();
    let r = generator.gen_code(ast);
    match r {
        Ok(()) => {
            proof {
                assert(Seq::<Instruction>::empty() + code_of(ast@, 0).push(Instruction::Match)
                    =~= code_of(ast@, 0).push(Instruction::Match));
            }
            Ok(generator.insts)
        },
        Err(e) => Err(e),
    }
}

} // verus!
