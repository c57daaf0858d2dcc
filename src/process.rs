use vstd::prelude::*;
use crate::scope::{
    args_view, bind, find_name, depth, parent_of, lemma_depth_stable, ConditionBlock, ConditionStructure,
    InstructionEnum, ScopeAction, ScopeCategory, ScopeManager, ScopeView, instr_ptrs_ok, view_wf,
};
use crate::execute::{printed, ExecuteBlock, RunError};
use crate::semantics::exec_block;

verus! {

/// What the grammar says of a line besides its instruction.
#[derive(Clone, Copy, Debug, PartialEq, Eq, Structural)]
pub struct ParserOutput {
    /// The line opens a nested block.
    pub indent: bool,
}

pub struct Runopts {
    pub verbose: bool,
    pub strict: bool,
}

#[derive(Clone, Copy, Debug, PartialEq, Eq, Structural)]
pub enum BuildErrorKind {
    /// Indentation that no block opener explains.
    Indentation,
    /// An elif with no conditional right before it in the same scope.
    DanglingElif,
    /// An else with no conditional right before it in the same scope.
    DanglingElse,
}

/// A structural error, with the line it was found on and the offending indentation span.
#[derive(Clone, Copy, Debug, PartialEq, Eq, Structural)]
pub struct BuildError {
    pub kind: BuildErrorKind,
    pub line: usize,
    pub offset: usize,
    pub length: usize,
}

/// The scope a line lands in after indentation is reconciled; `None` is an indentation error.
/// Any mismatch steps up exactly one level (a scope without a parent stays put), unless
/// strict mode refuses a deeper line.
pub open spec fn reconcile(m: Seq<ScopeView>, cur: int, tab: int, strict: bool) -> Option<int> {
    let d = depth(m, cur);
    if tab == d {
        Some(cur)
    } else if tab > d && strict {
        None
    } else {
        match parent_of(m, cur) {
            Some(p) => Some(p),
            None => Some(cur),
        }
    }
}

pub open spec fn fresh_scope(parent: int, category: ScopeCategory, action: Option<ScopeAction>) -> ScopeView {
    ScopeView {
        parent: Some(parent as usize),
        category,
        action,
        block: Seq::empty(),
        vars: Seq::empty(),
        funcs: Seq::empty(),
        params: Seq::empty(),
    }
}

/// `m2` is `m1` with one new scope appended and only scope `c`'s block or functions changed.
pub open spec fn grown(m1: Seq<ScopeView>, m2: Seq<ScopeView>, c: int, fresh: ScopeView) -> bool {
    &&& m2.len() == m1.len() + 1
    &&& m2[m1.len() as int] == fresh
    &&& forall|i: int| 0 <= i < m1.len() && i != c ==> #[trigger] m2[i] == m1[i]
    &&& m2[c].parent == m1[c].parent
    &&& m2[c].category == m1[c].category
    &&& m2[c].action == m1[c].action
    &&& m2[c].vars == m1[c].vars
}

/// The last instruction of `b2` is `b1`'s last conditional with one more elif arm.
pub open spec fn elif_added(b1: Seq<InstructionEnum>, b2: Seq<InstructionEnum>, arm: ConditionStructure) -> bool {
    &&& b1.len() > 0 && b2.len() == b1.len()
    &&& b2.drop_last() == b1.drop_last()
    &&& b1.last() matches InstructionEnum::Condition(c1)
    &&& b2.last() matches InstructionEnum::Condition(c2)
    &&& c2.if_arm == c1.if_arm && c2.else_arm == c1.else_arm && c2.elif_arms@ == c1.elif_arms@.push(arm)
}

/// The last instruction of `b2` is `b1`'s last conditional with its else arm set to `e`.
pub open spec fn else_set(b1: Seq<InstructionEnum>, b2: Seq<InstructionEnum>, e: usize) -> bool {
    &&& b1.len() > 0 && b2.len() == b1.len()
    &&& b2.drop_last() == b1.drop_last()
    &&& b1.last() matches InstructionEnum::Condition(c1)
    &&& b2.last() matches InstructionEnum::Condition(c2)
    &&& c2.if_arm == c1.if_arm && c2.elif_arms@ == c1.elif_arms@ && c2.else_arm == Some(e)
}

/// A conditional holding only its if arm.
pub open spec fn new_condition(i: InstructionEnum, arm: ConditionStructure) -> bool {
    &&& i matches InstructionEnum::Condition(cb)
    &&& cb.if_arm == arm && cb.elif_arms@.len() == 0 && cb.else_arm is None
}

pub open spec fn ends_with_condition(b: Seq<InstructionEnum>) -> bool {
    b.len() > 0 && b.last() is Condition
}

/// The instruction a generic block opener leaves in its parent, pointing at body `n`.
pub open spec fn with_body(i: InstructionEnum, n: usize) -> InstructionEnum {
    match i {
        InstructionEnum::Repeat { repeat_count, .. } => InstructionEnum::Repeat { repeat_count, scope_pointer: n },
        _ => i,
    }
}

pub open spec fn generic_action(i: InstructionEnum) -> Option<ScopeAction> {
    match i {
        InstructionEnum::Repeat { .. } => Some(ScopeAction::Loop),
        _ => None,
    }
}

/// One line filed into the tree: `m2` and cursor `cur2` are what filing `instr` (indented by
/// `tab` tokens, opening a block when `indent`) into tree `m` at cursor `cur` leaves.
#[verifier::opaque]
pub open spec fn filed(
    m: Seq<ScopeView>,
    cur: int,
    tab: int,
    indent: bool,
    instr: InstructionEnum,
    strict: bool,
    m2: Seq<ScopeView>,
    cur2: int,
) -> bool {
    let n = m.len() as int;
    match reconcile(m, cur, tab, strict) {
        None => false,
        Some(c) => if !indent {
            cur2 == c && m2 == m.update(c, ScopeView { block: m[c].block.push(instr), ..m[c] })
        } else {
            match instr {
                InstructionEnum::IfBlock { condition } => cur2 == n
                    && grown(m, m2, c, fresh_scope(c, ScopeCategory::Transparent, Some(ScopeAction::If)))
                    && m2[c].funcs == m[c].funcs && m2[c].params == m[c].params && m2[c].block.drop_last() == m[c].block
                    && m2[c].block.len() == m[c].block.len() + 1
                    && new_condition(m2[c].block.last(), ConditionStructure { scope_pointer: n as usize, condition }),
                InstructionEnum::ElifBlock { condition } => ends_with_condition(m[c].block) && cur2 == n
                    && grown(m, m2, c, fresh_scope(c, ScopeCategory::Transparent, Some(ScopeAction::Elif)))
                    && m2[c].funcs == m[c].funcs && m2[c].params == m[c].params
                    && elif_added(m[c].block, m2[c].block, ConditionStructure { scope_pointer: n as usize, condition }),
                InstructionEnum::ElseBlock => ends_with_condition(m[c].block) && cur2 == n
                    && grown(m, m2, c, fresh_scope(c, ScopeCategory::Transparent, Some(ScopeAction::Else)))
                    && m2[c].funcs == m[c].funcs && m2[c].params == m[c].params && else_set(m[c].block, m2[c].block, n as usize),
                InstructionEnum::Function { name, args, .. } => cur2 == n
                    && m2[c].params == (match find_name(m[c].funcs, name@) {
                        Some(k) => m[c].params.update(k, args_view(args@)),
                        None => m[c].params.push(args_view(args@)),
                    })
                    && grown(m, m2, c, fresh_scope(c, ScopeCategory::Isolated, Some(ScopeAction::Function)))
                    && m2[c].block == m[c].block && m2[c].funcs == bind(m[c].funcs, name@, n as usize),
                _ => cur2 == n && grown(m, m2, c, fresh_scope(c, ScopeCategory::Sequential, generic_action(instr)))
                    && m2[c].funcs == m[c].funcs && m2[c].params == m[c].params && m2[c].block == m[c].block.push(with_body(instr, n as usize)),
            }
        },
    }
}

/// Filing the line is refused: its indentation cannot be reconciled, or it is an elif or
/// else with no conditional right before it.
pub open spec fn refused(m: Seq<ScopeView>, cur: int, tab: int, indent: bool, instr: InstructionEnum, strict: bool) -> bool {
    match reconcile(m, cur, tab, strict) {
        None => true,
        Some(c) => indent && (instr is ElifBlock || instr is ElseBlock) && !ends_with_condition(m[c].block),
    }
}

/// The error a refused line is reported with: the unexplained indentation span (offset
/// and length within the line), or the dangling elif / else.
pub open spec fn refusal(m: Seq<ScopeView>, cur: int, tab: int, instr: InstructionEnum, strict: bool, line: usize) -> BuildError {
    let d = depth(m, cur);
    match reconcile(m, cur, tab, strict) {
        None => BuildError { kind: BuildErrorKind::Indentation, line, offset: d as usize, length: (tab - d) as usize },
        Some(_) => BuildError {
            kind: if instr is ElifBlock { BuildErrorKind::DanglingElif } else { BuildErrorKind::DanglingElse },
            line,
            offset: 0,
            length: 0,
        },
    }
}

/// Points a generic block opener at its body scope.
pub fn set_block_pointer(i: InstructionEnum, n: usize) -> (r: InstructionEnum)
    ensures
        r == with_body(i, n),
{
    match i {
        InstructionEnum::Repeat { repeat_count, .. } => InstructionEnum::Repeat { repeat_count, scope_pointer: n },
        other => other,
    }
}

fn as_block_action(i: &InstructionEnum) -> (r: Option<ScopeAction>)
    ensures
        r == generic_action(*i),
{
    match i {
        InstructionEnum::Repeat { .. } => Some(ScopeAction::Loop),
        _ => None,
    }
}

/// Files one parsed line into the scope tree: reconciles its indentation with the cursor,
/// then either appends the instruction to the cursor's scope or opens a new scope for it.
#[verifier::rlimit(60)]
pub fn ProcessLine(
    tab_count: usize,
    instr: (ParserOutput, InstructionEnum),
    current_scope_id: &mut usize,
    manager: &mut ScopeManager,
    opts: &Runopts,
    line: usize,
) -> (r: Result<(), BuildError>)
    requires
        old(manager).wf(),
        *old(current_scope_id) < old(manager)@.len(),
        instr_ptrs_ok(instr.1, old(manager)@.len()),
    ensures
        final(manager).wf(),
        *final(current_scope_id) < final(manager)@.len(),
        refused(old(manager)@, *old(current_scope_id) as int, tab_count as int, instr.0.indent, instr.1, opts.strict)
            ==> r == Err::<(), BuildError>(
            refusal(
                old(manager)@,
                *old(current_scope_id) as int,
                tab_count as int,
                instr.1,
                opts.strict,
                line,
            ),
        ) && final(manager)@ == old(manager)@ && *final(current_scope_id) == *old(current_scope_id),
        !refused(old(manager)@, *old(current_scope_id) as int, tab_count as int, instr.0.indent, instr.1, opts.strict)
            ==> r is Ok && filed(
            old(manager)@,
            *old(current_scope_id) as int,
            tab_count as int,
            instr.0.indent,
            instr.1,
            opts.strict,
            final(manager)@,
            *final(current_scope_id) as int,
        ),
        // a line whose indentation matches the cursor's depth, or one level less, lands at that depth
        r is Ok && tab_count <= depth(old(manager)@, *old(current_scope_id) as int) <= tab_count + 1
            ==> depth(final(manager)@, *final(current_scope_id) as int) == tab_count + if instr.0.indent { 1int } else { 0int },
{
    reveal(filed);
    let ghost m = manager@;
    let ghost cur0 = *current_scope_id as int;
    let d = manager.get_depth(*current_scope_id);
    let mut c: usize = *current_scope_id;
    if tab_count != d {
        if tab_count > d && opts.strict {
            return Err(BuildError { kind: BuildErrorKind::Indentation, line, offset: d, length: tab_count - d });
        }
        match manager.get_parent(c) {
            Some(p) => {
                c = p;
            },
            None => {},
        }
    }
    assert(reconcile(m, cur0, tab_count as int, opts.strict) == Some(c as int));
    proof {
        if tab_count <= d <= tab_count + 1 {
            assert(depth(m, c as int) == tab_count);
        }
    }
    let (po, ins) = instr;
    if !po.indent {
        *current_scope_id = c;
        manager.push_code_to_scope(c, ins);
        proof {
            lemma_depth_stable(m, manager@, c as int);
        }
        return Ok(());
    }
    let ghost ins0 = ins;
    match ins {
        InstructionEnum::IfBlock { condition } => {
            let n = manager.create_transparent_scope(c, Some(ScopeAction::If));
            let cb = ConditionBlock {
                if_arm: ConditionStructure { scope_pointer: n, condition },
                elif_arms: Vec::new(),
                else_arm: None,
            };
            manager.push_code_to_scope(c, InstructionEnum::Condition(cb));
            *current_scope_id = n;
            proof {
                lemma_depth_stable(m, manager@, c as int);
                assert(manager@[c as int].block.drop_last() =~= m[c as int].block);
            }
            Ok(())
        },
        InstructionEnum::ElifBlock { condition } => {
            match manager.pop_code_from_scope(c) {
                Some(InstructionEnum::Condition(cb)) => {
                    let ghost cb0 = cb;
                    let n = manager.create_transparent_scope(c, Some(ScopeAction::Elif));
                    let mut cb = cb;
                    cb.elif_arms.push(ConditionStructure { scope_pointer: n, condition });
                    proof {
                        assert forall|j: int| 0 <= j < cb.elif_arms@.len() implies #[trigger] cb.elif_arms@[j].scope_pointer
                            < manager@.len() by {
                            if j < cb0.elif_arms@.len() {
                                assert(cb.elif_arms@[j] == cb0.elif_arms@[j]);
                            }
                        }
                    }
                    manager.push_code_to_scope(c, InstructionEnum::Condition(cb));
                    *current_scope_id = n;
                    proof {
                        lemma_depth_stable(m, manager@, c as int);
                        assert(manager@[c as int].block.drop_last() =~= m[c as int].block.drop_last());
                    }
                    Ok(())
                },
                Some(other) => {
                    manager.push_code_to_scope(c, other);
                    proof {
                        assert(manager@[c as int].block =~= m[c as int].block);
                        assert(manager@ =~= m);
                    }
                    Err(BuildError { kind: BuildErrorKind::DanglingElif, line, offset: 0, length: 0 })
                },
                None => {
                    Err(BuildError { kind: BuildErrorKind::DanglingElif, line, offset: 0, length: 0 })
                },
            }
        },
        InstructionEnum::ElseBlock => {
            match manager.pop_code_from_scope(c) {
                Some(InstructionEnum::Condition(cb)) => {
                    let n = manager.create_transparent_scope(c, Some(ScopeAction::Else));
                    let mut cb = cb;
                    cb.else_arm = Some(n);
                    manager.push_code_to_scope(c, InstructionEnum::Condition(cb));
                    *current_scope_id = n;
                    proof {
                        lemma_depth_stable(m, manager@, c as int);
                        assert(manager@[c as int].block.drop_last() =~= m[c as int].block.drop_last());
                    }
                    Ok(())
                },
                Some(other) => {
                    manager.push_code_to_scope(c, other);
                    proof {
                        assert(manager@[c as int].block =~= m[c as int].block);
                        assert(manager@ =~= m);
                    }
                    Err(BuildError { kind: BuildErrorKind::DanglingElse, line, offset: 0, length: 0 })
                },
                None => {
                    Err(BuildError { kind: BuildErrorKind::DanglingElse, line, offset: 0, length: 0 })
                },
            }
        },
        InstructionEnum::Function { name, args, .. } => {
            let n = manager.create_isolated_scope(c, Some(ScopeAction::Function));
            manager.declare_function(c, name, args, n);
            *current_scope_id = n;
            proof {
                lemma_depth_stable(m, manager@, c as int);
            }
            Ok(())
        },
        other => {
            let action = as_block_action(&other);
            let n = manager.create_scope(Some(c), action);
            let placed = set_block_pointer(other, n);
            manager.push_code_to_scope(c, placed);
            *current_scope_id = n;
            proof {
                lemma_depth_stable(m, manager@, c as int);
            }
            Ok(())
        },
    }
}

/// `m` is a well-formed tree with a root at handle 0.
pub open spec fn rooted(m: Seq<ScopeView>) -> bool {
    view_wf(m) && m.len() >= 1 && m[0].parent is None
}

/// Running tree `m` from its root completes and prints exactly `o`.
pub open spec fn prints(m: Seq<ScopeView>, fuel: nat, o: Seq<Seq<i64>>) -> bool {
    &&& rooted(m)
    &&& exec_block(m, Seq::empty(), 0, fuel) is Ok
    &&& exec_block(m, Seq::empty(), 0, fuel)->Ok_0.1 == o
}

/// Running tree `m` from its root stops with fault `k` (its kind and the name it concerns).
pub open spec fn stops_with(m: Seq<ScopeView>, fuel: nat, k: crate::semantics::Fault) -> bool {
    &&& rooted(m)
    &&& exec_block(m, Seq::empty(), 0, fuel) == Err::<(Seq<ScopeView>, Seq<Seq<i64>>, crate::semantics::BlockOutput), crate::semantics::Fault>(k)
}

/// One logical line as the lexer and grammar hand it over.
pub struct ParsedLine {
    /// Leading indentation tokens.
    pub tab_count: usize,
    /// The line is only a comment.
    pub comment: bool,
    pub output: ParserOutput,
    pub instr: InstructionEnum,
}

#[derive(Debug)]
pub enum IndexError {
    Build(BuildError),
    Run(RunError),
}

/// The tree holding only an empty root scope.
pub open spec fn root_tree() -> Seq<ScopeView> {
    seq![
        ScopeView {
            parent: None,
            category: ScopeCategory::Root,
            action: None,
            block: Seq::empty(),
            vars: Seq::empty(),
            funcs: Seq::empty(),
            params: Seq::empty(),
        },
    ]
}

/// What one input line does to the tree and the cursor: comments nothing.
pub open spec fn step(
    l: ParsedLine,
    strict: bool,
    m: Seq<ScopeView>,
    cur: int,
    m2: Seq<ScopeView>,
    cur2: int,
) -> bool {
    if l.comment {
        m2 == m && cur2 == cur
    } else {
        filed(m, cur, l.tab_count as int, l.output.indent, l.instr, strict, m2, cur2)
    }
}

/// `ms[k]` and `cs[k]` are the tree and cursor after the first `k` of `lines`, up to `j`.
pub open spec fn built_upto(
    lines: Seq<ParsedLine>,
    j: int,
    strict: bool,
    ms: Seq<Seq<ScopeView>>,
    cs: Seq<int>,
) -> bool {
    &&& 0 <= j <= lines.len()
    &&& ms.len() == j + 1 && cs.len() == j + 1
    &&& ms[0] == root_tree() && cs[0] == 0
    &&& forall|k: int| 0 <= k < j ==> step(lines[k], strict, #[trigger] ms[k], cs[k], ms[k + 1], cs[k + 1])
}

/// Builds the scope tree from `input` line by line, then runs it from the root.
/// A structural error stops at the first refused line, with that line's error (lines are
/// numbered from 1), before anything runs; otherwise the result is what running
/// the tree built from every line prints, or the error that stops it.
#[verifier::rlimit(100)]
pub fn index(input: Vec<ParsedLine>, verbose: bool, strict: bool, fuel: u64) -> (r: Result<Vec<Vec<i64>>, IndexError>)
    requires
        input@.len() < usize::MAX,
        forall|k: int| 0 <= k < input@.len() ==> instr_ptrs_ok(#[trigger] input@[k].instr, 1),
    ensures
        match r {
            Ok(out) => exists|ms: Seq<Seq<ScopeView>>, cs: Seq<int>|
                #[trigger] built_upto(input@, input@.len() as int, strict, ms, cs) && prints(
                    ms.last(),
                    fuel as nat,
                    printed(out@),
                ),
            Err(IndexError::Run(e)) => exists|ms: Seq<Seq<ScopeView>>, cs: Seq<int>|
                #[trigger] built_upto(input@, input@.len() as int, strict, ms, cs) && stops_with(
                    ms.last(),
                    fuel as nat,
                    e.view(),
                ),
            Err(IndexError::Build(e)) => exists|ms: Seq<Seq<ScopeView>>, cs: Seq<int>|
                #[trigger] built_upto(input@, ms.len() - 1, strict, ms, cs) && ms.len() - 1 < input@.len()
                    && !input@[ms.len() - 1].comment && refused(
                    ms.last(),
                    cs.last(),
                    input@[ms.len() - 1].tab_count as int,
                    input@[ms.len() - 1].output.indent,
                    input@[ms.len() - 1].instr,
                    strict,
                ) && e == refusal(
                    ms.last(),
                    cs.last(),
                    input@[ms.len() - 1].tab_count as int,
                    input@[ms.len() - 1].instr,
                    strict,
                    ms.len() as usize,
                ),
        },
{
    let ghost all = input@;
    let mut manager = ScopeManager::new();
    let root = manager.create_scope(None, None);
    let mut current_scope = root;
    let opts = Runopts { verbose, strict };
    let mut rest = input;
    let mut line_index: usize = 0;
    let ghost mut ms: Seq<Seq<ScopeView>> = seq![manager@];
    let ghost mut cs: Seq<int> = seq![0int];
    let ghost mut j: int = 0;
    assert(manager@ =~= root_tree());
    assert(rest@ =~= all.skip(0));
    while rest.len() > 0
        invariant
            manager.wf(),
            manager@.len() >= 1,
            manager@[0].parent is None,
            root == 0,
            current_scope < manager@.len(),
            opts.strict == strict,
            forall|k: int| 0 <= k < all.len() ==> instr_ptrs_ok(#[trigger] all[k].instr, 1),
            0 <= j <= all.len(),
            all == input@,
            all.len() < usize::MAX,
            rest@ == all.skip(j),
            built_upto(all, j, strict, ms, cs),
            ms.last() == manager@,
            cs.last() == current_scope as int,
            line_index == j,
        decreases rest@.len(),
    {
        assert(j < all.len());
        let line = rest.remove(0);
        assert(line == all[j]);
        assert(rest@ =~= all.skip(j + 1));
        line_index = line_index + 1;
        if !line.comment {
            let ghost m1 = manager@;
            let ghost cur1 = current_scope as int;
            let ghost l = line;
            match ProcessLine(line.tab_count, (line.output, line.instr), &mut current_scope, &mut manager, &opts, line_index) {
                Ok(()) => {},
                Err(e) => {
                    assert(refused(m1, cur1, l.tab_count as int, l.output.indent, l.instr, strict));
                    assert(ms.len() - 1 == j && all[j] == l);
                    assert(e == refusal(m1, cur1, l.tab_count as int, l.instr, strict, line_index));
                    assert(line_index == ms.len() as usize);
                    assert(built_upto(all, ms.len() - 1, strict, ms, cs));
                    return Err(IndexError::Build(e));
                },
            }
            assert(manager@[0].parent == m1[0].parent);
        }
        proof {
            let ms0 = ms;
            let cs0 = cs;
            ms = ms.push(manager@);
            cs = cs.push(current_scope as int);
            assert forall|k: int| 0 <= k < j + 1 implies step(all[k], strict, #[trigger] ms[k], cs[k], ms[k + 1], cs[k + 1]) by {
                if k < j {
                    assert(ms[k] == ms0[k] && ms[k + 1] == ms0[k + 1] && cs[k] == cs0[k] && cs[k + 1] == cs0[k + 1]);
                }
            }
            j = j + 1;
        }
    }
    assert(j == all.len());
    let mut out: Vec<Vec<i64>> = Vec::new();
    let ghost m0 = manager@;
    assert(printed(out@) =~= Seq::<Seq<i64>>::empty());
    match ExecuteBlock(root, &mut manager, &mut out, fuel) {
        Ok(_) => {
            let res: Result<Vec<Vec<i64>>, IndexError> = Ok(out);
            assert(prints(m0, fuel as nat, printed(res->Ok_0@)));
            assert(built_upto(all, all.len() as int, strict, ms, cs));
            res
        },
        Err(e) => {
            assert(stops_with(m0, fuel as nat, e.view()));
            assert(built_upto(all, all.len() as int, strict, ms, cs));
            Err(IndexError::Run(e))
        },
    }
}

} // verus!
