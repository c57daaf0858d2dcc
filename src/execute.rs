use vstd::prelude::*;
use crate::scope::{
    write_var, AssignmentMethod, ConditionBlock, ConditionStructure, Expr, InstructionEnum,
    ScopeManager, ScopeView, cond_ptrs_ok, lemma_var_owner_range, instr_ptrs_ok,
};
use crate::semantics::{
    combine, eval_all, eval_expr, exec_block, exec_loop, exec_seq, repeat_times, select_arm,
    select_elif, truthy, trunc_div, abs, fit, BlockOutput, ErrorKind, Fault,
};

verus! {

/// A failure while running, with the name it concerns (empty when none does).
#[derive(Debug)]
pub struct RunError {
    pub kind: ErrorKind,
    pub name: String,
}

impl RunError {
    pub open spec fn view(&self) -> Fault {
        Fault { kind: self.kind, name: self.name@ }
    }
}

/// `r` is the executable counterpart of the specified result `s`.
pub open spec fn agrees<T>(r: Result<T, RunError>, s: Result<T, Fault>) -> bool {
    match s {
        Ok(v) => r == Ok::<T, RunError>(v),
        Err(f) => r is Err && r->Err_0.view() == f,
    }
}

/// What the printed lines say, as values.
pub open spec fn printed(o: Seq<Vec<i64>>) -> Seq<Seq<i64>> {
    o.map_values(|v: Vec<i64>| v@)
}

/// Running only ever changes variable bindings: blocks, parents, categories, opening
/// actions and functions (bodies and parameter names) stay.
pub open spec fn same_shape(m1: Seq<ScopeView>, m2: Seq<ScopeView>) -> bool {
    &&& m1.len() == m2.len()
    &&& forall|i: int|
        0 <= i < m1.len() ==> (#[trigger] m2[i]).parent == m1[i].parent && m2[i].block == m1[i].block
            && m2[i].funcs == m1[i].funcs && m2[i].params == m1[i].params && m2[i].category == m1[i].category
            && m2[i].action == m1[i].action
}

pub proof fn lemma_shape_trans(a: Seq<ScopeView>, b: Seq<ScopeView>, c: Seq<ScopeView>)
    requires
        same_shape(a, b),
        same_shape(b, c),
    ensures
        same_shape(a, c),
{
    assert forall|i: int| 0 <= i < a.len() implies (#[trigger] c[i]).parent == a[i].parent && c[i].block
        == a[i].block && c[i].funcs == a[i].funcs && c[i].params == a[i].params && c[i].category == a[i].category
        && c[i].action == a[i].action by {
        assert(b[i] == b[i]);
    }
}

pub proof fn lemma_write_var_shape(m: Seq<ScopeView>, s: int, name: Seq<char>, v: i64)
    requires
        0 <= s < m.len(),
    ensures
        same_shape(m, write_var(m, s, name, v)),
{
    lemma_var_owner_range(m, s, name);
}

fn fail(kind: ErrorKind, name: &String) -> (r: RunError)
    ensures
        r.kind == kind,
        r.name@ == name@,
{
    RunError { kind, name: name.clone() }
}

/// Value of an expression as seen from scope `s`.
pub fn evaluate(e: &Expr, s: usize, manager: &ScopeManager) -> (r: Result<i64, RunError>)
    requires
        manager.wf(),
        s < manager@.len(),
    ensures
        agrees(r, eval_expr(manager@, s as int, *e)),
{
    match e {
        Expr::Num(n) => Ok(*n),
        Expr::Var(x) => match manager.get_var(s, x) {
            Some(v) => Ok(v),
            None => Err(fail(ErrorKind::UnresolvedName, x)),
        },
    }
}

/// Whether a guard holds (its value is non-zero).
pub fn is_truthy(e: &Expr, s: usize, manager: &ScopeManager) -> (r: Result<bool, RunError>)
    requires
        manager.wf(),
        s < manager@.len(),
    ensures
        agrees(r, truthy(manager@, s as int, *e)),
{
    match evaluate(e, s, manager) {
        Ok(v) => Ok(v != 0),
        Err(x) => Err(x),
    }
}

proof fn lemma_eval_all_err(m: Seq<ScopeView>, s: int, es: Seq<Expr>, j: int, k: Fault)
    requires
        0 <= j <= es.len(),
        eval_all(m, s, es.take(j)) == Err::<Seq<i64>, Fault>(k),
    ensures
        eval_all(m, s, es) == Err::<Seq<i64>, Fault>(k),
    decreases es.len() - j,
{
    if j < es.len() {
        assert(es.take(j + 1).drop_last() =~= es.take(j));
        lemma_eval_all_err(m, s, es, j + 1, k);
    } else {
        assert(es.take(j) =~= es);
    }
}

/// Values of a print's arguments, left to right.
pub fn evaluate_all(es: &Vec<Expr>, s: usize, manager: &ScopeManager) -> (r: Result<Vec<i64>, RunError>)
    requires
        manager.wf(),
        s < manager@.len(),
    ensures
        match eval_all(manager@, s as int, es@) {
            Ok(vs) => r is Ok && r->Ok_0@ == vs,
            Err(f) => r is Err && r->Err_0.view() == f,
        },
{
    let mut vals: Vec<i64> = Vec::new();
    let mut j: usize = 0;
    assert(es@.take(0) =~= Seq::<Expr>::empty());
    while j < es.len()
        invariant
            manager.wf(),
            s < manager@.len(),
            j <= es@.len(),
            eval_all(manager@, s as int, es@.take(j as int)) == Ok::<Seq<i64>, Fault>(vals@),
        decreases es@.len() - j,
    {
        assert(es@.take(j + 1).drop_last() =~= es@.take(j as int));
        assert(es@.take(j + 1).last() == es@[j as int]);
        match evaluate(&es[j], s, manager) {
            Ok(v) => {
                vals.push(v);
            },
            Err(x) => {
                proof {
                    lemma_eval_all_err(manager@, s as int, es@, j + 1, x.view());
                }
                return Err(x);
            },
        }
        j = j + 1;
    }
    assert(es@.take(j as int) =~= es@);
    Ok(vals)
}

/// Keeps a wide result when it fits in 64 bits.
fn narrow(r: i128, name: &String) -> (res: Result<i64, RunError>)
    ensures
        agrees(res, fit(r as int, name@)),
{
    if r < i64::MIN as i128 || r > i64::MAX as i128 {
        Err(fail(ErrorKind::Overflow, name))
    } else {
        Ok(r as i64)
    }
}

/// The value an assignment to `name` stores.
pub fn combine_values(prev: Option<i64>, v: i64, method: AssignmentMethod, name: &String) -> (r: Result<i64, RunError>)
    ensures
        agrees(r, combine(prev, v, method, name@)),
{
    match method {
        AssignmentMethod::Replace => Ok(v),
        _ => match prev {
            None => Err(fail(ErrorKind::MissingPriorValue, name)),
            Some(p) => match method {
                AssignmentMethod::Add => narrow(p as i128 + v as i128, name),
                AssignmentMethod::Sub => narrow(p as i128 - v as i128, name),
                AssignmentMethod::Mul => {
                    proof {
                        let (a, b) = (p as int, v as int);
                        assert(-0x8000_0000_0000_0000 <= a < 0x8000_0000_0000_0000);
                        assert(-0x8000_0000_0000_0000 <= b < 0x8000_0000_0000_0000);
                        assert(-0x4000_0000_0000_0000_0000_0000_0000_0000 <= a * b
                            <= 0x4000_0000_0000_0000_0000_0000_0000_0000) by (nonlinear_arith)
                            requires
                                -0x8000_0000_0000_0000 <= a < 0x8000_0000_0000_0000,
                                -0x8000_0000_0000_0000 <= b < 0x8000_0000_0000_0000,
                        ;
                    }
                    narrow(p as i128 * v as i128, name)
                },
                _ => {
                    if v == 0 {
                        Err(fail(ErrorKind::DivisionByZero, name))
                    } else {
                        let na: u128 = if p < 0 { (-(p as i128)) as u128 } else { p as u128 };
                        let nb: u128 = if v < 0 { (-(v as i128)) as u128 } else { v as u128 };
                        assert(na as int == abs(p as int) && nb as int == abs(v as int));
                        let q: u128 = na / nb;
                        assert(q <= na) by (nonlinear_arith)
                            requires
                                nb >= 1,
                                q == na / nb,
                        ;
                        let r: i128 = if (p < 0) == (v < 0) { q as i128 } else { -(q as i128) };
                        assert(r as int == trunc_div(p as int, v as int));
                        narrow(r, name)
                    }
                },
            },
        },
    }
}

/// Which arm of a conditional to run, evaluating guards in order up to the first true one.
pub fn choose_arm(c: &ConditionBlock, s: usize, manager: &ScopeManager) -> (r: Result<Option<usize>, RunError>)
    requires
        manager.wf(),
        s < manager@.len(),
        cond_ptrs_ok(*c, manager@.len()),
    ensures
        agrees(r, select_arm(manager@, s as int, *c)),
        r matches Ok(Some(b)) ==> b < manager@.len(),
{
    match is_truthy(&c.if_arm.condition, s, manager) {
        Err(x) => {
            return Err(x);
        },
        Ok(true) => {
            return Ok(Some(c.if_arm.scope_pointer));
        },
        Ok(false) => {},
    }
    let mut j: usize = 0;
    while j < c.elif_arms.len()
        invariant
            manager.wf(),
            s < manager@.len(),
            cond_ptrs_ok(*c, manager@.len()),
            j <= c.elif_arms@.len(),
            select_arm(manager@, s as int, *c) == select_elif(manager@, s as int, c.elif_arms@, j as int, c.else_arm),
        decreases c.elif_arms@.len() - j,
    {
        let arm: &ConditionStructure = &c.elif_arms[j];
        assert(arm.scope_pointer < manager@.len());
        match is_truthy(&arm.condition, s, manager) {
            Err(x) => {
                return Err(x);
            },
            Ok(true) => {
                return Ok(Some(arm.scope_pointer));
            },
            Ok(false) => {},
        }
        j = j + 1;
    }
    Ok(c.else_arm)
}

/// Runs scope `scope_id` and hands back its control signal; printed lines go to `out`.
/// `fuel` bounds how deeply blocks may nest while running (calls included).
#[verifier::rlimit(50)]
pub fn ExecuteBlock(scope_id: usize, manager: &mut ScopeManager, out: &mut Vec<Vec<i64>>, fuel: u64) -> (r: Result<
    BlockOutput,
    RunError,
>)
    requires
        old(manager).wf(),
        scope_id < old(manager)@.len(),
    ensures
        final(manager).wf(),
        same_shape(old(manager)@, final(manager)@),
        match exec_block(old(manager)@, printed(old(out)@), scope_id as int, fuel as nat) {
            Ok((m2, o2, sig)) => r == Ok::<BlockOutput, RunError>(sig) && final(manager)@ == m2
                && printed(final(out)@) == o2,
            Err(f) => r is Err && r->Err_0.view() == f,
        },
    decreases fuel,
{
    if fuel == 0 {
        return Err(RunError { kind: ErrorKind::DepthExceeded, name: String::new() });
    }
    let f: u64 = fuel - 1;
    let ghost m0 = manager@;
    let ghost o0 = printed(out@);
    let ghost instrs = manager@[scope_id as int].block;
    let n: usize = manager.scopes[scope_id].block.len();
    let mut i: usize = 0;
    while i < n
        invariant
            manager.wf(),
            m0 == old(manager)@,
            o0 == printed(old(out)@),
            f as int == fuel - 1,
            same_shape(m0, manager@),
            scope_id < manager@.len(),
            instrs == manager@[scope_id as int].block,
            n == instrs.len(),
            i <= n,
            exec_block(m0, o0, scope_id as int, fuel as nat) == exec_seq(
                manager@,
                printed(out@),
                scope_id as int,
                instrs,
                i as int,
                f as nat,
            ),
        decreases n - i,
    {
        let ghost m1 = manager@;
        let ghost o1 = printed(out@);
        assert(manager.scopes@[scope_id as int].block@ == instrs);
        let instr: &InstructionEnum = &manager.scopes[scope_id].block[i];
        assert(*instr == instrs[i as int]);
        assert(instr_ptrs_ok(*instr, manager@.len()));
        match instr {
            InstructionEnum::Print(es) => {
                match evaluate_all(es, scope_id, manager) {
                    Ok(vals) => {
                        out.push(vals);
                        assert(printed(out@) =~= o1.push(vals@));
                    },
                    Err(x) => {
                        return Err(x);
                    },
                }
            },
            InstructionEnum::VariableDeclaration(name, e, method) => {
                let v = match evaluate(e, scope_id, manager) {
                    Ok(v) => v,
                    Err(x) => {
                        return Err(x);
                    },
                };
                let prev = manager.get_var(scope_id, name);
                let nv = match combine_values(prev, v, *method, name) {
                    Ok(nv) => nv,
                    Err(x) => {
                        return Err(x);
                    },
                };
                let nm = name.clone();
                proof {
                    lemma_write_var_shape(m1, scope_id as int, nm@, nv);
                }
                manager.set_var(scope_id, nm, nv);
                proof {
                    lemma_shape_trans(m0, m1, manager@);
                }
            },
            InstructionEnum::Repeat { repeat_count, scope_pointer } => {
                let count: i64 = *repeat_count;
                let body: usize = *scope_pointer;
                let mut k: i64 = 0;
                let mut broke = false;
                while k < count && !broke
                    invariant
                        manager.wf(),
                        m0 == old(manager)@,
                        o0 == printed(old(out)@),
                        f as int == fuel - 1,
                        same_shape(m0, manager@),
                        scope_id < manager@.len(),
                        body < manager@.len(),
                        instrs == manager@[scope_id as int].block,
                        0 <= k,
                        i < n,
                        n == instrs.len(),
                        instrs[i as int] == (InstructionEnum::Repeat { repeat_count: count, scope_pointer: body }),
                        exec_block(m0, o0, scope_id as int, fuel as nat) == exec_seq(
                            m1,
                            o1,
                            scope_id as int,
                            instrs,
                            i as int,
                            f as nat,
                        ),
                        count < 0 ==> k == 0,
                        count >= 0 ==> k <= count,
                        exec_loop(m1, o1, body as int, repeat_times(count), f as nat) == (if broke {
                            Ok::<(Seq<ScopeView>, Seq<Seq<i64>>), Fault>((manager@, printed(out@)))
                        } else {
                            exec_loop(
                                manager@,
                                printed(out@),
                                body as int,
                                (repeat_times(count) - k) as nat,
                                f as nat,
                            )
                        }),
                    decreases count - k + if broke { 0int } else { 1int },
                {
                    let ghost m2 = manager@;
                    let r = ExecuteBlock(body, manager, out, f);
                    proof {
                        lemma_shape_trans(m0, m2, manager@);
                    }
                    match r {
                        Err(x) => {
                            return Err(x);
                        },
                        Ok(BlockOutput::Break) => {
                            broke = true;
                        },
                        Ok(_) => {
                            k = k + 1;
                        },
                    }
                }
            },
            InstructionEnum::CallFunction { name, .. } => {
                match manager.get_function(scope_id, name) {
                    None => {
                        return Err(fail(ErrorKind::UnknownFunction, name));
                    },
                    Some(b) => {
                        let r = ExecuteBlock(b, manager, out, f);
                        proof {
                            lemma_shape_trans(m0, m1, manager@);
                        }
                        match r {
                            Err(x) => {
                                return Err(x);
                            },
                            Ok(_) => {},
                        }
                    },
                }
            },
            InstructionEnum::Break => {
                return Ok(BlockOutput::Break);
            },
            InstructionEnum::Continue => {
                return Ok(BlockOutput::Continue);
            },
            InstructionEnum::Condition(c) => {
                match choose_arm(c, scope_id, manager) {
                    Err(x) => {
                        return Err(x);
                    },
                    Ok(None) => {},
                    Ok(Some(b)) => {
                        let r = ExecuteBlock(b, manager, out, f);
                        proof {
                            lemma_shape_trans(m0, m1, manager@);
                        }
                        match r {
                            Err(x) => {
                                return Err(x);
                            },
                            Ok(BlockOutput::Normal) => {},
                            Ok(sig) => {
                                return Ok(sig);
                            },
                        }
                    },
                }
            },
            _ => {},
        }
        i = i + 1;
    }
    Ok(BlockOutput::Normal)
}

} // verus!
