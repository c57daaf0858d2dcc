use zen_core::execute::ExecuteBlock;
use zen_core::parsers::{count_tabs, parser, TokenTable};
use zen_core::process::{index, BuildErrorKind, IndexError, ParsedLine, ParserOutput, ProcessLine, Runopts};
use zen_core::scope::{AssignmentMethod, Expr, InstructionEnum, ScopeManager};
use zen_core::semantics::{BlockOutput, ErrorKind};

fn stmt(tab: usize, instr: InstructionEnum) -> ParsedLine {
    ParsedLine { tab_count: tab, comment: false, output: ParserOutput { indent: false }, instr }
}

fn opener(tab: usize, instr: InstructionEnum) -> ParsedLine {
    ParsedLine { tab_count: tab, comment: false, output: ParserOutput { indent: true }, instr }
}

fn num(n: i64) -> Expr {
    Expr::Num(n)
}

fn var(name: &str) -> Expr {
    Expr::Var(name.to_string())
}

fn assign(name: &str, e: Expr, m: AssignmentMethod) -> InstructionEnum {
    InstructionEnum::VariableDeclaration(name.to_string(), e, m)
}

fn print(es: Vec<Expr>) -> InstructionEnum {
    InstructionEnum::Print(es)
}

fn if_block(e: Expr) -> InstructionEnum {
    InstructionEnum::IfBlock { condition: e }
}

fn elif_block(e: Expr) -> InstructionEnum {
    InstructionEnum::ElifBlock { condition: e }
}

fn repeat(n: i64) -> InstructionEnum {
    InstructionEnum::Repeat { repeat_count: n, scope_pointer: 0 }
}

fn function(name: &str) -> InstructionEnum {
    InstructionEnum::Function { name: name.to_string(), args: Vec::new(), scope_pointer: 0 }
}

fn call(name: &str) -> InstructionEnum {
    InstructionEnum::CallFunction { name: name.to_string(), args: Vec::new() }
}

fn run(lines: Vec<ParsedLine>) -> Result<Vec<Vec<i64>>, IndexError> {
    index(lines, false, true, 64)
}

fn run_error(lines: Vec<ParsedLine>) -> ErrorKind {
    match run(lines) {
        Err(IndexError::Run(e)) => e.kind,
        other => panic!("expected a run error, got {:?}", other),
    }
}

fn build_error(lines: Vec<ParsedLine>) -> BuildErrorKind {
    match run(lines) {
        Err(IndexError::Build(e)) => e.kind,
        other => panic!("expected a build error, got {:?}", other),
    }
}

#[test]
fn write_chain_updates_outer_binding() {
    let out = run(vec![
        stmt(0, assign("x", num(1), AssignmentMethod::Replace)),
        opener(0, if_block(num(1))),
        stmt(1, assign("x", num(1), AssignmentMethod::Add)),
        stmt(0, print(vec![var("x")])),
    ])
    .unwrap();
    assert_eq!(out, vec![vec![2]]);
}

#[test]
fn first_assignment_in_nested_block_declares_there() {
    let mut manager = ScopeManager::new();
    let root = manager.create_scope(None, None);
    let child = manager.create_transparent_scope(root, None);
    manager.set_var(child, "y".to_string(), 5);
    assert_eq!(manager.get_var(child, &"y".to_string()), Some(5));
    assert_eq!(manager.get_var(root, &"y".to_string()), None);
    manager.set_var(root, "z".to_string(), 1);
    manager.set_var(child, "z".to_string(), 9);
    assert_eq!(manager.get_var(root, &"z".to_string()), Some(9));
    assert_eq!(manager.scopes[child].variables.len(), 1);
}

#[test]
fn elif_runs_when_if_is_false() {
    let out = run(vec![
        opener(0, if_block(num(0))),
        stmt(1, print(vec![num(1)])),
        opener(0, elif_block(num(1))),
        stmt(1, print(vec![num(2)])),
        opener(0, InstructionEnum::ElseBlock),
        stmt(1, print(vec![num(3)])),
    ])
    .unwrap();
    assert_eq!(out, vec![vec![2]]);
}

#[test]
fn else_runs_when_all_guards_are_false() {
    let out = run(vec![
        opener(0, if_block(num(0))),
        stmt(1, print(vec![num(1)])),
        opener(0, elif_block(num(0))),
        stmt(1, print(vec![num(2)])),
        opener(0, InstructionEnum::ElseBlock),
        stmt(1, print(vec![num(3)])),
    ])
    .unwrap();
    assert_eq!(out, vec![vec![3]]);
}

#[test]
fn true_if_never_evaluates_elif_guard() {
    // the elif guard names an unbound variable: evaluating it would fail
    let out = run(vec![
        opener(0, if_block(num(1))),
        stmt(1, print(vec![num(1)])),
        opener(0, elif_block(var("nowhere"))),
        stmt(1, print(vec![num(2)])),
    ])
    .unwrap();
    assert_eq!(out, vec![vec![1]]);
}

#[test]
fn missing_else_is_a_no_op() {
    let out = run(vec![
        opener(0, if_block(num(0))),
        stmt(1, print(vec![num(1)])),
        stmt(0, print(vec![num(7)])),
    ])
    .unwrap();
    assert_eq!(out, vec![vec![7]]);
}

#[test]
fn continue_skips_rest_of_iteration() {
    let out = run(vec![
        stmt(0, assign("n", num(0), AssignmentMethod::Replace)),
        opener(0, repeat(3)),
        stmt(1, assign("n", num(1), AssignmentMethod::Add)),
        stmt(1, InstructionEnum::Continue),
        stmt(1, print(vec![num(99)])),
        stmt(0, print(vec![var("n")])),
    ])
    .unwrap();
    assert_eq!(out, vec![vec![3]]);
}

#[test]
fn break_stops_loop_in_first_iteration() {
    let out = run(vec![
        stmt(0, assign("n", num(0), AssignmentMethod::Replace)),
        opener(0, repeat(5)),
        stmt(1, assign("n", num(1), AssignmentMethod::Add)),
        stmt(1, InstructionEnum::Break),
        stmt(0, print(vec![var("n")])),
    ])
    .unwrap();
    assert_eq!(out, vec![vec![1]]);
}

#[test]
fn break_inside_if_leaves_the_loop() {
    let out = run(vec![
        stmt(0, assign("n", num(0), AssignmentMethod::Replace)),
        opener(0, repeat(10)),
        stmt(1, assign("n", num(1), AssignmentMethod::Add)),
        opener(1, if_block(var("n"))),
        stmt(2, InstructionEnum::Break),
        stmt(1, print(vec![num(5)])),
        stmt(0, print(vec![var("n")])),
    ])
    .unwrap();
    assert_eq!(out, vec![vec![1]]);
}

#[test]
fn negative_repeat_count_runs_nothing() {
    let out = run(vec![opener(0, repeat(-2)), stmt(1, print(vec![num(1)])), stmt(0, print(vec![num(0)]))]).unwrap();
    assert_eq!(out, vec![vec![0]]);
}

#[test]
fn function_called_twice_accumulates() {
    let out = run(vec![
        stmt(0, assign("c", num(0), AssignmentMethod::Replace)),
        opener(0, function("f")),
        stmt(1, assign("c", num(1), AssignmentMethod::Add)),
        stmt(0, call("f")),
        stmt(0, call("f")),
        stmt(0, print(vec![var("c")])),
    ])
    .unwrap();
    assert_eq!(out, vec![vec![2]]);
}

#[test]
fn break_in_function_does_not_leave_callers_loop() {
    let out = run(vec![
        stmt(0, assign("c", num(0), AssignmentMethod::Replace)),
        opener(0, function("f")),
        stmt(1, InstructionEnum::Break),
        opener(0, repeat(3)),
        stmt(1, call("f")),
        stmt(1, assign("c", num(1), AssignmentMethod::Add)),
        stmt(0, print(vec![var("c")])),
    ])
    .unwrap();
    assert_eq!(out, vec![vec![3]]);
}

#[test]
fn compound_assignment_without_prior_value_fails() {
    assert_eq!(run_error(vec![stmt(0, assign("y", num(1), AssignmentMethod::Add))]), ErrorKind::MissingPriorValue);
}

#[test]
fn unresolved_variable_read_fails() {
    assert_eq!(run_error(vec![stmt(0, print(vec![num(1), var("z")]))]), ErrorKind::UnresolvedName);
}

#[test]
fn unknown_function_fails() {
    assert_eq!(run_error(vec![stmt(0, call("g"))]), ErrorKind::UnknownFunction);
}

#[test]
fn overflow_fails() {
    assert_eq!(
        run_error(vec![
            stmt(0, assign("x", num(i64::MAX), AssignmentMethod::Replace)),
            stmt(0, assign("x", num(1), AssignmentMethod::Add)),
        ]),
        ErrorKind::Overflow
    );
    assert_eq!(
        run_error(vec![
            stmt(0, assign("x", num(i64::MIN), AssignmentMethod::Replace)),
            stmt(0, assign("x", num(-1), AssignmentMethod::Div)),
        ]),
        ErrorKind::Overflow
    );
}

#[test]
fn division_by_zero_fails() {
    assert_eq!(
        run_error(vec![
            stmt(0, assign("x", num(1), AssignmentMethod::Replace)),
            stmt(0, assign("x", num(0), AssignmentMethod::Div)),
        ]),
        ErrorKind::DivisionByZero
    );
}

#[test]
fn unbounded_recursion_is_reported() {
    assert_eq!(
        run_error(vec![opener(0, function("f")), stmt(1, call("f")), stmt(0, call("f"))]),
        ErrorKind::DepthExceeded
    );
}

#[test]
fn arithmetic_operators() {
    let out = run(vec![
        stmt(0, assign("x", num(6), AssignmentMethod::Replace)),
        stmt(0, assign("x", num(7), AssignmentMethod::Mul)),
        stmt(0, print(vec![var("x")])),
        stmt(0, assign("x", num(50), AssignmentMethod::Sub)),
        stmt(0, print(vec![var("x")])),
        stmt(0, assign("x", num(3), AssignmentMethod::Div)),
        stmt(0, print(vec![var("x")])),
        stmt(0, assign("x", num(-7), AssignmentMethod::Replace)),
        stmt(0, assign("x", num(2), AssignmentMethod::Div)),
        stmt(0, print(vec![var("x"), num(4)])),
    ])
    .unwrap();
    assert_eq!(out, vec![vec![42], vec![-8], vec![-2], vec![-3, 4]]);
}

#[test]
fn dangling_elif_is_rejected() {
    assert_eq!(build_error(vec![opener(0, elif_block(num(1))), stmt(1, print(vec![num(1)]))]), BuildErrorKind::DanglingElif);
}

#[test]
fn dangling_elif_creates_no_condition() {
    let mut manager = ScopeManager::new();
    let root = manager.create_scope(None, None);
    let mut cursor = root;
    manager.push_code_to_scope(root, print(vec![num(1)]));
    let opts = Runopts { verbose: false, strict: true };
    let r = ProcessLine(0, (ParserOutput { indent: true }, elif_block(num(1))), &mut cursor, &mut manager, &opts, 2);
    let e = r.unwrap_err();
    assert_eq!(e.kind, BuildErrorKind::DanglingElif);
    assert_eq!(e.line, 2);
    assert_eq!(manager.scopes.len(), 1);
    assert_eq!(manager.scopes[root].block.len(), 1);
    assert!(matches!(manager.scopes[root].block[0], InstructionEnum::Print(_)));
}

#[test]
fn dangling_else_is_rejected() {
    assert_eq!(build_error(vec![opener(0, InstructionEnum::ElseBlock)]), BuildErrorKind::DanglingElse);
}

#[test]
fn structural_error_prevents_any_run() {
    let r = run(vec![stmt(0, print(vec![num(1)])), opener(0, elif_block(num(1)))]);
    assert!(matches!(r, Err(IndexError::Build(_))));
}

#[test]
fn strict_mode_rejects_unexplained_indent() {
    match run(vec![stmt(0, print(vec![num(1)])), stmt(2, print(vec![num(2)]))]) {
        Err(IndexError::Build(e)) => {
            assert_eq!(e.kind, BuildErrorKind::Indentation);
            assert_eq!(e.line, 2);
            assert_eq!(e.offset, 0);
            assert_eq!(e.length, 2);
        },
        other => panic!("unexpected {:?}", other),
    }
}

#[test]
fn lenient_mode_steps_up_one_level() {
    let mut manager = ScopeManager::new();
    let root = manager.create_scope(None, None);
    let mut cursor = root;
    let opts = Runopts { verbose: false, strict: false };
    ProcessLine(0, (ParserOutput { indent: true }, repeat(2)), &mut cursor, &mut manager, &opts, 1).unwrap();
    assert_eq!(manager.get_depth(cursor), 1);
    ProcessLine(3, (ParserOutput { indent: false }, print(vec![num(1)])), &mut cursor, &mut manager, &opts, 2).unwrap();
    assert_eq!(cursor, root);
    assert_eq!(manager.scopes[root].block.len(), 2);
}

#[test]
fn line_depth_matches_scope_depth() {
    let lines: Vec<(usize, bool, InstructionEnum)> = vec![
        (0, false, assign("a", num(1), AssignmentMethod::Replace)),
        (0, true, repeat(2)),
        (1, true, if_block(num(1))),
        (2, false, print(vec![num(1)])),
        (1, true, elif_block(num(0))),
        (2, false, print(vec![num(2)])),
        (1, false, print(vec![num(3)])),
        (0, false, print(vec![num(4)])),
    ];
    let mut manager = ScopeManager::new();
    let root = manager.create_scope(None, None);
    let mut cursor = root;
    let opts = Runopts { verbose: false, strict: true };
    for (k, (tab, opens, instr)) in lines.into_iter().enumerate() {
        ProcessLine(tab, (ParserOutput { indent: opens }, instr), &mut cursor, &mut manager, &opts, k + 1).unwrap();
        let expected = if opens { tab + 1 } else { tab };
        assert_eq!(manager.get_depth(cursor), expected);
    }
}

#[test]
fn elif_arm_is_attached_to_preceding_condition() {
    let mut manager = ScopeManager::new();
    let root = manager.create_scope(None, None);
    let mut cursor = root;
    let opts = Runopts { verbose: false, strict: true };
    ProcessLine(0, (ParserOutput { indent: true }, if_block(num(0))), &mut cursor, &mut manager, &opts, 1).unwrap();
    ProcessLine(0, (ParserOutput { indent: true }, elif_block(num(1))), &mut cursor, &mut manager, &opts, 2).unwrap();
    ProcessLine(0, (ParserOutput { indent: true }, InstructionEnum::ElseBlock), &mut cursor, &mut manager, &opts, 3).unwrap();
    assert_eq!(manager.scopes[root].block.len(), 1);
    match &manager.scopes[root].block[0] {
        InstructionEnum::Condition(c) => {
            assert_eq!(c.if_arm.scope_pointer, 1);
            assert_eq!(c.elif_arms.len(), 1);
            assert_eq!(c.elif_arms[0].scope_pointer, 2);
            assert_eq!(c.else_arm, Some(3));
        },
        _ => panic!("no condition"),
    }
    assert_eq!(cursor, 3);
}

#[test]
fn execute_block_runs_a_hand_built_tree() {
    let mut manager = ScopeManager::new();
    let root = manager.create_scope(None, None);
    let body = manager.create_scope(Some(root), None);
    manager.push_code_to_scope(body, print(vec![num(8)]));
    manager.push_code_to_scope(root, InstructionEnum::Repeat { repeat_count: 2, scope_pointer: body });
    let mut out: Vec<Vec<i64>> = Vec::new();
    let r = ExecuteBlock(root, &mut manager, &mut out, 8).unwrap();
    assert_eq!(r, BlockOutput::Normal);
    assert_eq!(out, vec![vec![8], vec![8]]);
    let mut out2: Vec<Vec<i64>> = Vec::new();
    assert!(ExecuteBlock(root, &mut manager, &mut out2, 1).is_err());
}

#[test]
fn comment_lines_are_skipped() {
    let mut c = stmt(5, print(vec![num(1)]));
    c.comment = true;
    let out = run(vec![c, stmt(0, print(vec![num(2)]))]).unwrap();
    assert_eq!(out, vec![vec![2]]);
}

#[test]
fn repeat_header_parses() {
    let toks = vec![TokenTable::NumberLiteral(3), TokenTable::KeywordNDefaTekrarla];
    match parser(&toks) {
        Some(InstructionEnum::Repeat { repeat_count, scope_pointer }) => {
            assert_eq!(repeat_count, 3);
            assert_eq!(scope_pointer, 0);
        },
        _ => panic!("not a repeat"),
    }
    assert!(parser(&vec![TokenTable::KeywordNDefaTekrarla, TokenTable::NumberLiteral(3)]).is_none());
    assert!(parser(&vec![TokenTable::NumberLiteral(3)]).is_none());
    assert!(parser(&vec![TokenTable::NumberLiteral(3), TokenTable::KeywordNDefaTekrarla, TokenTable::Comment]).is_none());
}

#[test]
fn leading_tabs_are_counted() {
    assert_eq!(count_tabs(&vec![TokenTable::Tab, TokenTable::Tab, TokenTable::NumberLiteral(1), TokenTable::Tab]), 2);
    assert_eq!(count_tabs(&vec![]), 0);
    assert_eq!(count_tabs(&vec![TokenTable::Comment]), 0);
}

#[test]
fn functions_resolve_up_the_chain() {
    let mut manager = ScopeManager::new();
    let root = manager.create_scope(None, None);
    let body = manager.create_isolated_scope(root, None);
    let inner = manager.create_transparent_scope(body, None);
    manager.declare_function(root, "f".to_string(), Vec::new(), body);
    assert_eq!(manager.get_function(inner, &"f".to_string()), Some(body));
    assert_eq!(manager.get_function(root, &"g".to_string()), None);
    assert_eq!(manager.get_parent(inner), Some(body));
    assert_eq!(manager.get_depth(inner), 2);
}

#[test]
fn lenient_mode_keeps_root_for_deeper_line() {
    let mut manager = ScopeManager::new();
    let root = manager.create_scope(None, None);
    let mut cursor = root;
    let opts = Runopts { verbose: false, strict: false };
    ProcessLine(1, (ParserOutput { indent: false }, print(vec![num(1)])), &mut cursor, &mut manager, &opts, 1).unwrap();
    assert_eq!(cursor, root);
    assert_eq!(manager.scopes[root].block.len(), 1);
    let out = index(vec![stmt(1, print(vec![num(4)]))], false, false, 8).unwrap();
    assert_eq!(out, vec![vec![4]]);
}

#[test]
fn strict_indentation_error_leaves_cursor_and_tree() {
    let mut manager = ScopeManager::new();
    let root = manager.create_scope(None, None);
    let mut cursor = root;
    let opts = Runopts { verbose: false, strict: true };
    let e = ProcessLine(1, (ParserOutput { indent: false }, print(vec![num(1)])), &mut cursor, &mut manager, &opts, 7)
        .unwrap_err();
    assert_eq!(e.kind, BuildErrorKind::Indentation);
    assert_eq!((e.line, e.offset, e.length), (7, 0, 1));
    assert_eq!(cursor, root);
    assert_eq!(manager.scopes[root].block.len(), 0);
}

#[test]
fn one_extra_indent_reports_span_of_one() {
    match run(vec![stmt(0, print(vec![num(1)])), stmt(1, print(vec![num(2)]))]) {
        Err(IndexError::Build(e)) => {
            assert_eq!(e.kind, BuildErrorKind::Indentation);
            assert_eq!((e.line, e.offset, e.length), (2, 0, 1));
        },
        other => panic!("unexpected {:?}", other),
    }
}

#[test]
fn dangling_elif_reports_its_line() {
    match run(vec![stmt(0, print(vec![num(1)])), opener(0, elif_block(num(1))), stmt(1, print(vec![num(2)]))]) {
        Err(IndexError::Build(e)) => {
            assert_eq!(e.kind, BuildErrorKind::DanglingElif);
            assert_eq!(e.line, 2);
        },
        other => panic!("unexpected {:?}", other),
    }
}

#[test]
fn redeclared_function_uses_new_body() {
    let out = run(vec![
        opener(0, function("f")),
        stmt(1, print(vec![num(1)])),
        opener(0, function("f")),
        stmt(1, print(vec![num(2)])),
        stmt(0, call("f")),
    ])
    .unwrap();
    assert_eq!(out, vec![vec![2]]);
    let mut manager = ScopeManager::new();
    let root = manager.create_scope(None, None);
    let a = manager.create_isolated_scope(root, None);
    let b = manager.create_isolated_scope(root, None);
    manager.declare_function(root, "g".to_string(), Vec::new(), a);
    manager.declare_function(root, "g".to_string(), vec!["p".to_string()], b);
    assert_eq!(manager.get_function(root, &"g".to_string()), Some(b));
    assert_eq!(manager.scopes[root].functions.len(), 1);
    assert_eq!(manager.scopes[root].functions[0].1.args, vec!["p".to_string()]);
}

#[test]
fn errors_name_what_failed() {
    match run(vec![stmt(0, assign("y", num(1), AssignmentMethod::Add))]) {
        Err(IndexError::Run(e)) => {
            assert_eq!(e.kind, ErrorKind::MissingPriorValue);
            assert_eq!(e.name, "y");
        },
        other => panic!("unexpected {:?}", other),
    }
    match run(vec![stmt(0, call("f"))]) {
        Err(IndexError::Run(e)) => {
            assert_eq!(e.kind, ErrorKind::UnknownFunction);
            assert_eq!(e.name, "f");
        },
        other => panic!("unexpected {:?}", other),
    }
    match run(vec![stmt(0, print(vec![var("q")]))]) {
        Err(IndexError::Run(e)) => {
            assert_eq!(e.kind, ErrorKind::UnresolvedName);
            assert_eq!(e.name, "q");
        },
        other => panic!("unexpected {:?}", other),
    }
}

// Known gap: call arguments are not bound to the callee's parameters.
#[test]
fn call_arguments_are_not_bound() {
    let decl = InstructionEnum::Function { name: "f".to_string(), args: vec!["a".to_string()], scope_pointer: 0 };
    let call_with_arg = InstructionEnum::CallFunction { name: "f".to_string(), args: vec![num(5)] };
    match run(vec![opener(0, decl), stmt(1, print(vec![var("a")])), stmt(0, call_with_arg)]) {
        Err(IndexError::Run(e)) => {
            assert_eq!(e.kind, ErrorKind::UnresolvedName);
            assert_eq!(e.name, "a");
        },
        other => panic!("unexpected {:?}", other),
    }
}
