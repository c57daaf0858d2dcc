use vstd::prelude::*;
use crate::scope::{
    find_name, lemma_find_update, lemma_var_owner_range, parent_of, read_var, resolve_function, var_owner,
    write_var, ConditionBlock, InstructionEnum, ScopeView,
};
use crate::semantics::{
    combine, eval_all, eval_expr, exec_block, exec_loop, exec_seq, select_arm, select_elif, truthy,
    BlockOutput, ErrorKind, Fault,
};
use crate::execute::{lemma_shape_trans, lemma_write_var_shape, same_shape};

verus! {

/// Running a block never changes the shape of the tree (blocks, parents, functions).
pub proof fn lemma_block_shape(m: Seq<ScopeView>, out: Seq<Seq<i64>>, s: int, fuel: nat)
    ensures
        exec_block(m, out, s, fuel) matches Ok((m2, _, _)) ==> same_shape(m, m2),
    decreases fuel, 0int, 0int,
{
    if fuel > 0 && 0 <= s < m.len() {
        lemma_seq_shape(m, out, s, m[s].block, 0, (fuel - 1) as nat);
    }
}

pub proof fn lemma_loop_shape(m: Seq<ScopeView>, out: Seq<Seq<i64>>, body: int, count: nat, fuel: nat)
    ensures
        exec_loop(m, out, body, count, fuel) matches Ok((m2, _)) ==> same_shape(m, m2),
    decreases fuel, 1int, count,
{
    if count > 0 {
        lemma_block_shape(m, out, body, fuel);
        if let Ok((m2, o2, sig)) = exec_block(m, out, body, fuel) {
            if sig != BlockOutput::Break {
                lemma_loop_shape(m2, o2, body, (count - 1) as nat, fuel);
                if let Ok((m3, _)) = exec_loop(m2, o2, body, (count - 1) as nat, fuel) {
                    lemma_shape_trans(m, m2, m3);
                }
            }
        }
    }
}

pub proof fn lemma_seq_shape(
    m: Seq<ScopeView>,
    out: Seq<Seq<i64>>,
    s: int,
    instrs: Seq<InstructionEnum>,
    i: int,
    fuel: nat,
)
    requires
        0 <= s < m.len(),
    ensures
        exec_seq(m, out, s, instrs, i, fuel) matches Ok((m2, _, _)) ==> same_shape(m, m2),
    decreases fuel, 2int, instrs.len() - i,
{
    if 0 <= i < instrs.len() {
        match instrs[i] {
            InstructionEnum::Print(es) => {
                if let Ok(vs) = eval_all(m, s, es@) {
                    lemma_seq_shape(m, out.push(vs), s, instrs, i + 1, fuel);
                }
            },
            InstructionEnum::VariableDeclaration(name, e, method) => {
                if let Ok(v) = eval_expr(m, s, e) {
                    if let Ok(nv) = combine(read_var(m, s, name@), v, method, name@) {
                        let m1 = write_var(m, s, name@, nv);
                        lemma_write_var_shape(m, s, name@, nv);
                        lemma_seq_shape(m1, out, s, instrs, i + 1, fuel);
                        if let Ok((m2, _, _)) = exec_seq(m1, out, s, instrs, i + 1, fuel) {
                            lemma_shape_trans(m, m1, m2);
                        }
                    }
                }
            },
            InstructionEnum::Repeat { repeat_count, scope_pointer } => {
                let c = crate::semantics::repeat_times(repeat_count);
                lemma_loop_shape(m, out, scope_pointer as int, c, fuel);
                if let Ok((m1, o1)) = exec_loop(m, out, scope_pointer as int, c, fuel) {
                    lemma_seq_shape(m1, o1, s, instrs, i + 1, fuel);
                    if let Ok((m2, _, _)) = exec_seq(m1, o1, s, instrs, i + 1, fuel) {
                        lemma_shape_trans(m, m1, m2);
                    }
                }
            },
            InstructionEnum::CallFunction { name, .. } => {
                if let Some(b) = resolve_function(m, s, name@) {
                    lemma_block_shape(m, out, b as int, fuel);
                    if let Ok((m1, o1, _)) = exec_block(m, out, b as int, fuel) {
                        lemma_seq_shape(m1, o1, s, instrs, i + 1, fuel);
                        if let Ok((m2, _, _)) = exec_seq(m1, o1, s, instrs, i + 1, fuel) {
                            lemma_shape_trans(m, m1, m2);
                        }
                    }
                }
            },
            InstructionEnum::Condition(c) => {
                if let Ok(Some(b)) = select_arm(m, s, c) {
                    lemma_block_shape(m, out, b as int, fuel);
                    if let Ok((m1, o1, sig)) = exec_block(m, out, b as int, fuel) {
                        if sig == BlockOutput::Normal {
                            lemma_seq_shape(m1, o1, s, instrs, i + 1, fuel);
                            if let Ok((m2, _, _)) = exec_seq(m1, o1, s, instrs, i + 1, fuel) {
                                lemma_shape_trans(m, m1, m2);
                            }
                        }
                    }
                } else if let Ok(None) = select_arm(m, s, c) {
                    lemma_seq_shape(m, out, s, instrs, i + 1, fuel);
                }
            },
            InstructionEnum::Break => {},
            InstructionEnum::Continue => {},
            _ => {
                lemma_seq_shape(m, out, s, instrs, i + 1, fuel);
            },
        }
    }
}

/// Function lookup depends only on the tree's shape.
pub proof fn lemma_resolve_shape(m1: Seq<ScopeView>, m2: Seq<ScopeView>, s: int, name: Seq<char>)
    requires
        same_shape(m1, m2),
    ensures
        resolve_function(m2, s, name) == resolve_function(m1, s, name),
    decreases s,
{
    if 0 <= s < m1.len() {
        assert(m2[s].parent == m1[s].parent && m2[s].funcs == m1[s].funcs);
        if let Some(p) = parent_of(m1, s) {
            if 0 <= p < s {
                lemma_resolve_shape(m1, m2, p, name);
            }
        }
    }
}

/// Two calls in a row of the same function run its body twice, on the same scope handle,
/// the second run starting from the variables the first one left.
pub proof fn lemma_call_twice(
    m: Seq<ScopeView>,
    out: Seq<Seq<i64>>,
    s: int,
    instrs: Seq<InstructionEnum>,
    i: int,
    fuel: nat,
)
    requires
        0 <= s < m.len(),
        0 <= i,
        i + 1 < instrs.len(),
        instrs[i] is CallFunction,
        instrs[i + 1] is CallFunction,
        instrs[i + 1]->CallFunction_name@ == instrs[i]->CallFunction_name@,
        resolve_function(m, s, instrs[i]->CallFunction_name@) is Some,
    ensures
        ({
            let b = resolve_function(m, s, instrs[i]->CallFunction_name@)->Some_0 as int;
            exec_seq(m, out, s, instrs, i, fuel) == match exec_block(m, out, b, fuel) {
                Err(k) => Err(k),
                Ok((m2, o2, _)) => match exec_block(m2, o2, b, fuel) {
                    Err(k) => Err(k),
                    Ok((m3, o3, _)) => exec_seq(m3, o3, s, instrs, i + 2, fuel),
                },
            }
        }),
{
    let name = instrs[i]->CallFunction_name@;
    let b = resolve_function(m, s, name)->Some_0 as int;
    lemma_block_shape(m, out, b, fuel);
    if let Ok((m2, o2, _)) = exec_block(m, out, b, fuel) {
        lemma_resolve_shape(m, m2, s, name);
        assert(exec_seq(m2, o2, s, instrs, i + 1, fuel) == match exec_block(m2, o2, b, fuel) {
            Err(k) => Err(k),
            Ok((m3, o3, _)) => exec_seq(m3, o3, s, instrs, i + 2, fuel),
        });
    }
}

proof fn lemma_owner_stable(m1: Seq<ScopeView>, m2: Seq<ScopeView>, s: int, name: Seq<char>)
    requires
        m1.len() == m2.len(),
        forall|i: int|
            0 <= i < m1.len() ==> (#[trigger] m2[i]).parent == m1[i].parent && find_name(m2[i].vars, name)
                == find_name(m1[i].vars, name),
    ensures
        var_owner(m2, s, name) == var_owner(m1, s, name),
    decreases s,
{
    if 0 <= s < m1.len() {
        assert(m2[s].parent == m1[s].parent);
        if let Some(p) = parent_of(m1, s) {
            if 0 <= p < s {
                lemma_owner_stable(m1, m2, p, name);
            }
        }
    }
}

/// Writes go through transparent blocks: assigning, inside a nested scope, a name that the
/// enclosing scope can already see updates that binding, so the enclosing scope reads the new
/// value afterwards (no shadowing copy is made).
pub proof fn lemma_write_through(m: Seq<ScopeView>, p: int, c: int, name: Seq<char>, v: i64)
    requires
        0 <= c < m.len(),
        parent_of(m, c) == Some(p),
        find_name(m[c].vars, name) is None,
        var_owner(m, p, name) is Some,
    ensures
        read_var(write_var(m, c, name, v), p, name) == Some(v),
{
    let o = var_owner(m, p, name)->Some_0;
    lemma_var_owner_range(m, p, name);
    assert(var_owner(m, c, name) == Some(o));
    let k = find_name(m[o].vars, name)->Some_0;
    crate::scope::lemma_find_range(m[o].vars, name, 0);
    let m2 = write_var(m, c, name, v);
    lemma_find_update(m[o].vars, name, k, v, 0);
    assert forall|i: int| 0 <= i < m.len() implies (#[trigger] m2[i]).parent == m[i].parent && find_name(
        m2[i].vars,
        name,
    ) == find_name(m[i].vars, name) by {
        if i == o {
            assert(m2[i].vars == m[o].vars.update(k, (name, v)));
        }
    }
    lemma_owner_stable(m, m2, p, name);
}

/// Once the if guard holds, the if arm runs whatever the elif arms are: their guards are
/// not evaluated (a failing one changes nothing).
pub proof fn lemma_if_short_circuit(m: Seq<ScopeView>, s: int, c1: ConditionBlock, c2: ConditionBlock)
    requires
        c1.if_arm == c2.if_arm,
        truthy(m, s, c1.if_arm.condition) == Ok::<bool, Fault>(true),
    ensures
        select_arm(m, s, c1) == Ok::<Option<usize>, Fault>(Some(c1.if_arm.scope_pointer)),
        select_arm(m, s, c2) == select_arm(m, s, c1),
{
}

/// With a false if guard, the first elif whose guard holds (all earlier ones false) is chosen.
pub proof fn lemma_first_true_elif(m: Seq<ScopeView>, s: int, c: ConditionBlock, j: int)
    requires
        truthy(m, s, c.if_arm.condition) == Ok::<bool, Fault>(false),
        0 <= j < c.elif_arms@.len(),
        forall|t: int| 0 <= t < j ==> truthy(m, s, (#[trigger] c.elif_arms@[t]).condition) == Ok::<bool, Fault>(false),
        truthy(m, s, c.elif_arms@[j].condition) == Ok::<bool, Fault>(true),
    ensures
        select_arm(m, s, c) == Ok::<Option<usize>, Fault>(Some(c.elif_arms@[j].scope_pointer)),
{
    lemma_elif_from(m, s, c, 0, j);
}

proof fn lemma_elif_from(m: Seq<ScopeView>, s: int, c: ConditionBlock, t: int, j: int)
    requires
        0 <= t <= j < c.elif_arms@.len(),
        forall|u: int| 0 <= u < j ==> truthy(m, s, (#[trigger] c.elif_arms@[u]).condition) == Ok::<bool, Fault>(false),
        truthy(m, s, c.elif_arms@[j].condition) == Ok::<bool, Fault>(true),
    ensures
        select_elif(m, s, c.elif_arms@, t, c.else_arm) == Ok::<Option<usize>, Fault>(Some(c.elif_arms@[j].scope_pointer)),
    decreases j - t,
{
    if t < j {
        lemma_elif_from(m, s, c, t + 1, j);
    }
}

/// With the if guard and every elif guard false, the else arm (if any) is chosen.
pub proof fn lemma_else_chosen(m: Seq<ScopeView>, s: int, c: ConditionBlock)
    requires
        truthy(m, s, c.if_arm.condition) == Ok::<bool, Fault>(false),
        forall|t: int| 0 <= t < c.elif_arms@.len() ==> truthy(m, s, (#[trigger] c.elif_arms@[t]).condition) == Ok::<bool, Fault>(false),
    ensures
        select_arm(m, s, c) == Ok::<Option<usize>, Fault>(c.else_arm),
{
    lemma_else_from(m, s, c, 0);
}

proof fn lemma_else_from(m: Seq<ScopeView>, s: int, c: ConditionBlock, t: int)
    requires
        0 <= t <= c.elif_arms@.len(),
        forall|u: int| 0 <= u < c.elif_arms@.len() ==> truthy(m, s, (#[trigger] c.elif_arms@[u]).condition) == Ok::<bool, Fault>(false),
    ensures
        select_elif(m, s, c.elif_arms@, t, c.else_arm) == Ok::<Option<usize>, Fault>(c.else_arm),
    decreases c.elif_arms@.len() - t,
{
    if t < c.elif_arms@.len() {
        lemma_else_from(m, s, c, t + 1);
    }
}

/// `continue` ends the current block at once: nothing after it runs.
pub proof fn lemma_continue_stops_block(
    m: Seq<ScopeView>,
    out: Seq<Seq<i64>>,
    s: int,
    instrs: Seq<InstructionEnum>,
    i: int,
    fuel: nat,
)
    requires
        0 <= i < instrs.len(),
        instrs[i] is Continue,
    ensures
        exec_seq(m, out, s, instrs, i, fuel) == Ok::<(Seq<ScopeView>, Seq<Seq<i64>>, BlockOutput), Fault>(
            (m, out, BlockOutput::Continue),
        ),
{
}

/// A body that ends with `continue` does not end its loop: the next iteration follows.
pub proof fn lemma_loop_continue(m: Seq<ScopeView>, out: Seq<Seq<i64>>, body: int, count: nat, fuel: nat)
    requires
        count > 0,
        exec_block(m, out, body, fuel) matches Ok((_, _, sig)) && sig == BlockOutput::Continue,
    ensures
        ({
            let (m2, o2, _) = exec_block(m, out, body, fuel)->Ok_0;
            exec_loop(m, out, body, count, fuel) == exec_loop(m2, o2, body, (count - 1) as nat, fuel)
        }),
{
}

/// A body that ends with `break` ends its loop after that run.
pub proof fn lemma_loop_break(m: Seq<ScopeView>, out: Seq<Seq<i64>>, body: int, count: nat, fuel: nat)
    requires
        count > 0,
        exec_block(m, out, body, fuel) matches Ok((_, _, sig)) && sig == BlockOutput::Break,
    ensures
        ({
            let (m2, o2, _) = exec_block(m, out, body, fuel)->Ok_0;
            exec_loop(m, out, body, count, fuel) == Ok::<(Seq<ScopeView>, Seq<Seq<i64>>), Fault>((m2, o2))
        }),
{
}

/// A compound assignment (`+=` and the like) to a name bound nowhere up the chain stops with
/// the missing-prior-value error naming it: no default value is taken.
pub proof fn lemma_missing_prior_value(
    m: Seq<ScopeView>,
    out: Seq<Seq<i64>>,
    s: int,
    instrs: Seq<InstructionEnum>,
    i: int,
    fuel: nat,
)
    requires
        0 <= i < instrs.len(),
        instrs[i] is VariableDeclaration,
        instrs[i]->VariableDeclaration_2 != crate::scope::AssignmentMethod::Replace,
        eval_expr(m, s, instrs[i]->VariableDeclaration_1) is Ok,
        read_var(m, s, instrs[i]->VariableDeclaration_0@) is None,
    ensures
        exec_seq(m, out, s, instrs, i, fuel) == Err::<(Seq<ScopeView>, Seq<Seq<i64>>, BlockOutput), Fault>(
            Fault { kind: ErrorKind::MissingPriorValue, name: instrs[i]->VariableDeclaration_0@ },
        ),
{
}

/// A scope holding one conditional runs exactly the arm the guards choose (one nesting level
/// of fuel is spent entering the scope), and hands back that arm's signal.
pub proof fn lemma_block_runs_chosen_arm(m: Seq<ScopeView>, out: Seq<Seq<i64>>, s: int, c: ConditionBlock, b: usize, fuel: nat)
    requires
        0 <= s < m.len(),
        m[s].block == seq![InstructionEnum::Condition(c)],
        select_arm(m, s, c) == Ok::<Option<usize>, Fault>(Some(b)),
    ensures
        exec_block(m, out, s, fuel + 1) == exec_block(m, out, b as int, fuel),
{
    assert(exec_seq(m, out, s, m[s].block, 1, fuel) == Ok::<(Seq<ScopeView>, Seq<Seq<i64>>, BlockOutput), Fault>(
        (m, out, BlockOutput::Normal),
    ));
    if let Ok((m2, o2, sig)) = exec_block(m, out, b as int, fuel) {
        assert(exec_seq(m2, o2, s, m[s].block, 1, fuel) == Ok::<(Seq<ScopeView>, Seq<Seq<i64>>, BlockOutput), Fault>(
            (m2, o2, BlockOutput::Normal),
        ));
    }
}

/// A scope holding one loop runs the loop and completes normally: a break or continue in the
/// body never escapes the loop.
pub proof fn lemma_block_runs_loop(m: Seq<ScopeView>, out: Seq<Seq<i64>>, s: int, count: i64, b: usize, fuel: nat)
    requires
        0 <= s < m.len(),
        m[s].block == seq![InstructionEnum::Repeat { repeat_count: count, scope_pointer: b }],
    ensures
        exec_block(m, out, s, fuel + 1) == match exec_loop(m, out, b as int, crate::semantics::repeat_times(count), fuel) {
            Ok((m2, o2)) => Ok((m2, o2, BlockOutput::Normal)),
            Err(k) => Err(k),
        },
{
    if let Ok((m2, o2)) = exec_loop(m, out, b as int, crate::semantics::repeat_times(count), fuel) {
        assert(exec_seq(m2, o2, s, m[s].block, 1, fuel) == Ok::<(Seq<ScopeView>, Seq<Seq<i64>>, BlockOutput), Fault>(
            (m2, o2, BlockOutput::Normal),
        ));
    }
}

} // verus!
