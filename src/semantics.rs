use vstd::prelude::*;
use crate::scope::{
    read_var, resolve_function, write_var, AssignmentMethod, ConditionBlock, ConditionStructure, Expr,
    InstructionEnum, ScopeView,
};

verus! {

/// The control signal a block hands back to whoever ran it.
#[derive(Clone, Copy, Debug, PartialEq, Eq, Structural)]
pub enum BlockOutput {
    Break,
    Continue,
    Normal,
}

/// Why running a program stopped early.
#[derive(Clone, Copy, Debug, PartialEq, Eq, Structural)]
pub enum ErrorKind {
    /// A compound assignment on a name with no binding anywhere up the chain.
    MissingPriorValue,
    /// A variable read of a name with no binding anywhere up the chain.
    UnresolvedName,
    /// A call of a function that no scope up the chain declares.
    UnknownFunction,
    /// An arithmetic result outside the 64-bit signed range.
    Overflow,
    DivisionByZero,
    /// Blocks nested (through calls or otherwise) deeper than the allowed depth.
    DepthExceeded,
}

/// Why a run stopped, and the name it concerns (empty when none does).
pub ghost struct Fault {
    pub kind: ErrorKind,
    pub name: Seq<char>,
}

pub open spec fn fault(kind: ErrorKind, name: Seq<char>) -> Fault {
    Fault { kind, name }
}

/// Result of running a block: the new scopes, everything printed so far, and the signal.
pub type Outcome = Result<(Seq<ScopeView>, Seq<Seq<i64>>, BlockOutput), Fault>;

pub open spec fn eval_expr(m: Seq<ScopeView>, s: int, e: Expr) -> Result<i64, Fault> {
    match e {
        Expr::Num(n) => Ok(n),
        Expr::Var(x) => match read_var(m, s, x@) {
            Some(v) => Ok(v),
            None => Err(fault(ErrorKind::UnresolvedName, x@)),
        },
    }
}

/// A guard holds when its value is non-zero.
pub open spec fn truthy(m: Seq<ScopeView>, s: int, e: Expr) -> Result<bool, Fault> {
    match eval_expr(m, s, e) {
        Ok(v) => Ok(v != 0),
        Err(k) => Err(k),
    }
}

/// Values of a print's arguments, left to right; the first failure wins.
pub open spec fn eval_all(m: Seq<ScopeView>, s: int, es: Seq<Expr>) -> Result<Seq<i64>, Fault>
    decreases es.len(),
{
    if es.len() == 0 {
        Ok(Seq::empty())
    } else {
        match eval_all(m, s, es.drop_last()) {
            Err(k) => Err(k),
            Ok(vs) => match eval_expr(m, s, es.last()) {
                Ok(v) => Ok(vs.push(v)),
                Err(k) => Err(k),
            },
        }
    }
}

pub open spec fn abs(a: int) -> int {
    if a < 0 { -a } else { a }
}

/// Division rounding toward zero.
pub open spec fn trunc_div(a: int, b: int) -> int {
    if (a < 0) == (b < 0) { abs(a) / abs(b) } else { -(abs(a) / abs(b)) }
}

pub open spec fn fit(r: int, name: Seq<char>) -> Result<i64, Fault> {
    if i64::MIN <= r <= i64::MAX { Ok(r as i64) } else { Err(fault(ErrorKind::Overflow, name)) }
}

/// The value an assignment stores, given the name's current value and the right-hand side.
pub open spec fn combine(prev: Option<i64>, v: i64, method: AssignmentMethod, name: Seq<char>) -> Result<i64, Fault> {
    match method {
        AssignmentMethod::Replace => Ok(v),
        _ => match prev {
            None => Err(fault(ErrorKind::MissingPriorValue, name)),
            Some(p) => match method {
                AssignmentMethod::Add => fit(p + v, name),
                AssignmentMethod::Sub => fit(p - v, name),
                AssignmentMethod::Mul => fit(p * v, name),
                _ => if v == 0 { Err(fault(ErrorKind::DivisionByZero, name)) } else { fit(trunc_div(p as int, v as int), name) },
            },
        },
    }
}

/// The elif arms from `j` on, then the else arm: the scope to run, if any.
pub open spec fn select_elif(
    m: Seq<ScopeView>,
    s: int,
    arms: Seq<ConditionStructure>,
    j: int,
    else_arm: Option<usize>,
) -> Result<Option<usize>, Fault>
    decreases arms.len() - j,
{
    if j < 0 || j >= arms.len() {
        Ok(else_arm)
    } else {
        match truthy(m, s, arms[j].condition) {
            Err(k) => Err(k),
            Ok(true) => Ok(Some(arms[j].scope_pointer)),
            Ok(false) => select_elif(m, s, arms, j + 1, else_arm),
        }
    }
}

/// Which arm of a conditional runs; guards after the first true one are never evaluated.
pub open spec fn select_arm(m: Seq<ScopeView>, s: int, c: ConditionBlock) -> Result<Option<usize>, Fault> {
    match truthy(m, s, c.if_arm.condition) {
        Err(k) => Err(k),
        Ok(true) => Ok(Some(c.if_arm.scope_pointer)),
        Ok(false) => select_elif(m, s, c.elif_arms@, 0, c.else_arm),
    }
}

pub open spec fn repeat_times(n: i64) -> nat {
    if n < 0 { 0 } else { n as nat }
}

/// Runs scope `s`; `fuel` bounds how deeply blocks may nest while running.
pub open spec fn exec_block(m: Seq<ScopeView>, out: Seq<Seq<i64>>, s: int, fuel: nat) -> Outcome
    decreases fuel, 0int, 0int,
{
    if fuel == 0 {
        Err(fault(ErrorKind::DepthExceeded, Seq::empty()))
    } else if !(0 <= s < m.len()) {
        Ok((m, out, BlockOutput::Normal))
    } else {
        exec_seq(m, out, s, m[s].block, 0, (fuel - 1) as nat)
    }
}

/// Runs a loop body `count` more times, stopping at the first break.
pub open spec fn exec_loop(
    m: Seq<ScopeView>,
    out: Seq<Seq<i64>>,
    body: int,
    count: nat,
    fuel: nat,
) -> Result<(Seq<ScopeView>, Seq<Seq<i64>>), Fault>
    decreases fuel, 1int, count,
{
    if count == 0 {
        Ok((m, out))
    } else {
        match exec_block(m, out, body, fuel) {
            Err(k) => Err(k),
            Ok((m2, o2, sig)) => if sig == BlockOutput::Break {
                Ok((m2, o2))
            } else {
                exec_loop(m2, o2, body, (count - 1) as nat, fuel)
            },
        }
    }
}

/// Runs the instructions of scope `s` from position `i` on.
pub open spec fn exec_seq(
    m: Seq<ScopeView>,
    out: Seq<Seq<i64>>,
    s: int,
    instrs: Seq<InstructionEnum>,
    i: int,
    fuel: nat,
) -> Outcome
    decreases fuel, 2int, instrs.len() - i,
{
    if i < 0 || i >= instrs.len() {
        Ok((m, out, BlockOutput::Normal))
    } else {
        match instrs[i] {
            InstructionEnum::Print(es) => match eval_all(m, s, es@) {
                Err(k) => Err(k),
                Ok(vs) => exec_seq(m, out.push(vs), s, instrs, i + 1, fuel),
            },
            InstructionEnum::VariableDeclaration(name, e, method) => match eval_expr(m, s, e) {
                Err(k) => Err(k),
                Ok(v) => match combine(read_var(m, s, name@), v, method, name@) {
                    Err(k) => Err(k),
                    Ok(nv) => exec_seq(write_var(m, s, name@, nv), out, s, instrs, i + 1, fuel),
                },
            },
            InstructionEnum::Repeat { repeat_count, scope_pointer } => match exec_loop(
                m,
                out,
                scope_pointer as int,
                repeat_times(repeat_count),
                fuel,
            ) {
                Err(k) => Err(k),
                Ok((m2, o2)) => exec_seq(m2, o2, s, instrs, i + 1, fuel),
            },
            InstructionEnum::CallFunction { name, .. } => match resolve_function(m, s, name@) {
                None => Err(fault(ErrorKind::UnknownFunction, name@)),
                Some(b) => match exec_block(m, out, b as int, fuel) {
                    Err(k) => Err(k),
                    Ok((m2, o2, _)) => exec_seq(m2, o2, s, instrs, i + 1, fuel),
                },
            },
            InstructionEnum::Break => Ok((m, out, BlockOutput::Break)),
            InstructionEnum::Continue => Ok((m, out, BlockOutput::Continue)),
            InstructionEnum::Condition(c) => match select_arm(m, s, c) {
                Err(k) => Err(k),
                Ok(None) => exec_seq(m, out, s, instrs, i + 1, fuel),
                Ok(Some(b)) => match exec_block(m, out, b as int, fuel) {
                    Err(k) => Err(k),
                    Ok((m2, o2, sig)) => if sig == BlockOutput::Normal {
                        exec_seq(m2, o2, s, instrs, i + 1, fuel)
                    } else {
                        Ok((m2, o2, sig))
                    },
                },
            },
            // declarations were registered while the tree was built; raw openers do nothing
            _ => exec_seq(m, out, s, instrs, i + 1, fuel),
        }
    }
}

} // verus!
