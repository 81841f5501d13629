use toylang::analyzer::analyze;
use toylang::analyzer::Diagnostic;
use toylang::executor::execute;
use toylang::executor::Event;
use toylang::instr::classify;
use toylang::instr::parse_i32_token;
use toylang::instr::Instr;

const FUEL: u64 = 100_000;

fn toks(src: &str) -> Vec<Vec<String>> {
    src.trim()
        .lines()
        .map(|l| l.split_whitespace().map(|w| w.to_string()).collect())
        .collect()
}

#[test]
fn toplevel_declarations_get_dense_addresses() {
    let lines = toks("var x\nvar y\n\nvar z");
    let a = analyze(&lines);
    assert_eq!(a.globals, vec!["x".to_string(), "y".to_string(), "z".to_string()]);
    assert!(a.functions.is_empty());
    assert!(a.locals.is_empty());
    assert!(!a.in_function);
    assert!(a.diagnostics.is_empty());
    let r = execute(&lines, &a.globals, &a.functions, FUEL);
    assert_eq!(r.memory, vec![0, 0, 0]);
    assert!(r.call_stack.is_empty());
    assert!(r.frames.is_empty());
    assert!(r.events.is_empty());
    assert!(r.halted);
}

#[test]
fn global_redefinition_keeps_first_binding() {
    let lines = toks("var x\nvar x");
    let a = analyze(&lines);
    assert_eq!(a.globals, vec!["x".to_string()]);
    assert_eq!(
        a.diagnostics,
        vec![Diagnostic::VarRedefined { line: 1, name: "x".to_string() }]
    );
}

#[test]
fn local_redefinition_keeps_first_binding() {
    let lines = toks("func f() {\nvar a\nvar a\n}");
    let a = analyze(&lines);
    assert_eq!(
        a.diagnostics,
        vec![Diagnostic::VarRedefined { line: 2, name: "a".to_string() }]
    );
    assert!(a.globals.is_empty());
    assert!(a.locals.is_empty());
}

#[test]
fn local_shadowing_a_global_is_a_redefinition() {
    let lines = toks("var a\nfunc f() {\nvar a\n}");
    let a = analyze(&lines);
    assert_eq!(
        a.diagnostics,
        vec![Diagnostic::VarRedefined { line: 2, name: "a".to_string() }]
    );
}

#[test]
fn unknown_variable_is_diagnosed_and_memory_untouched() {
    let lines = toks("x = 5");
    let a = analyze(&lines);
    assert_eq!(
        a.diagnostics,
        vec![Diagnostic::VarUnknown { line: 0, name: "x".to_string() }]
    );
    let r = execute(&lines, &a.globals, &a.functions, FUEL);
    assert!(r.memory.is_empty());
    assert!(r.events.is_empty());
    assert!(r.halted);
}

#[test]
fn call_pushes_and_pops_one_frame_and_entry() {
    let lines = toks("func f() {\nvar a\na = 1\n}\nf()");
    let a = analyze(&lines);
    assert!(a.diagnostics.is_empty());
    let r = execute(&lines, &a.globals, &a.functions, FUEL);
    assert!(r.halted);
    assert!(r.call_stack.is_empty());
    assert!(r.frames.is_empty());
    // no globals, so after the call returns memory is back to zero cells
    assert!(r.memory.is_empty());
    assert_eq!(
        r.events,
        vec![
            Event::CallEnter { name: "f()".to_string(), caller_line: 4 },
            Event::LocalCreated { name: "a".to_string(), addr: 0 },
            Event::Write { name: "a".to_string(), addr: 0, value: 1 },
            Event::FrameDropped { cells: 1 },
            Event::Return { target_line: 5 },
        ]
    );
}

#[test]
fn locals_are_invisible_after_return_and_reassigned_fresh() {
    let lines = toks("func f() {\nvar a\na = 9\n}\nf()\nf()");
    let a = analyze(&lines);
    assert!(a.diagnostics.is_empty());
    // the local never reaches the global table
    assert!(a.globals.is_empty());
    assert!(a.locals.is_empty());
    let r = execute(&lines, &a.globals, &a.functions, FUEL);
    assert!(r.halted);
    assert!(r.frames.is_empty());
    assert!(r.memory.is_empty());
    // each call starts from an empty frame and hands out a fresh cell
    let created: Vec<&Event> = r
        .events
        .iter()
        .filter(|e| matches!(e, Event::LocalCreated { .. }))
        .collect();
    assert_eq!(
        created,
        vec![
            &Event::LocalCreated { name: "a".to_string(), addr: 0 },
            &Event::LocalCreated { name: "a".to_string(), addr: 0 },
        ]
    );
}

#[test]
fn nested_calls_scenario() {
    let lines = toks(
        "var a\n\
         func f() {\n\
         a = 5\n\
         var b\n\
         b = 6\n\
         }\n\
         func g() {\n\
         var c\n\
         c = 7\n\
         f()\n\
         }\n\
         g()",
    );
    let a = analyze(&lines);
    assert_eq!(a.globals, vec!["a".to_string()]);
    assert_eq!(a.functions.len(), 2);
    assert_eq!(a.functions[0].name, "f()");
    assert_eq!(a.functions[0].line, 1);
    assert_eq!(a.functions[1].name, "g()");
    assert_eq!(a.functions[1].line, 6);
    assert!(a.diagnostics.is_empty());
    let r = execute(&lines, &a.globals, &a.functions, FUEL);
    assert!(r.halted);
    assert_eq!(r.memory, vec![5]);
    assert!(r.call_stack.is_empty());
    assert!(r.frames.is_empty());
    assert_eq!(
        r.events,
        vec![
            Event::CallEnter { name: "g()".to_string(), caller_line: 11 },
            Event::LocalCreated { name: "c".to_string(), addr: 1 },
            Event::Write { name: "c".to_string(), addr: 1, value: 7 },
            Event::CallEnter { name: "f()".to_string(), caller_line: 9 },
            Event::Write { name: "a".to_string(), addr: 0, value: 5 },
            Event::LocalCreated { name: "b".to_string(), addr: 2 },
            Event::Write { name: "b".to_string(), addr: 2, value: 6 },
            Event::FrameDropped { cells: 1 },
            Event::Return { target_line: 10 },
            Event::FrameDropped { cells: 1 },
            Event::Return { target_line: 12 },
        ]
    );
}

#[test]
fn unknown_function_call_is_a_noop() {
    let lines = toks("h()");
    let a = analyze(&lines);
    assert_eq!(
        a.diagnostics,
        vec![Diagnostic::FuncUnknown { line: 0, name: "h()".to_string() }]
    );
    let r = execute(&lines, &a.globals, &a.functions, FUEL);
    assert!(r.halted);
    assert!(r.memory.is_empty());
    assert!(r.call_stack.is_empty());
    assert_eq!(
        r.events,
        vec![Event::UnknownFunction { name: "h()".to_string(), line: 0 }]
    );
}

#[test]
fn uncalled_function_body_never_runs() {
    let lines = toks("var g\nfunc f() {\ng = 5\n}");
    let a = analyze(&lines);
    assert!(a.diagnostics.is_empty());
    let r = execute(&lines, &a.globals, &a.functions, FUEL);
    assert!(r.halted);
    assert_eq!(r.memory, vec![0]);
    assert!(r.events.is_empty());
}

#[test]
fn function_redefinition_keeps_first_header() {
    let lines = toks("func f() {\n}\nfunc f() {\n}");
    let a = analyze(&lines);
    assert_eq!(
        a.diagnostics,
        vec![Diagnostic::FuncRedefined { line: 2, name: "f()".to_string() }]
    );
    assert_eq!(a.functions.len(), 1);
    assert_eq!(a.functions[0].line, 0);
}

#[test]
fn malformed_lines_are_diagnosed_and_skipped() {
    let lines = toks("this is not an instruction\nvar x");
    let a = analyze(&lines);
    assert_eq!(a.diagnostics, vec![Diagnostic::MalformedLine { line: 0 }]);
    assert_eq!(a.globals, vec!["x".to_string()]);
    let r = execute(&lines, &a.globals, &a.functions, FUEL);
    assert!(r.halted);
    assert_eq!(r.memory, vec![0]);
    assert!(r.events.is_empty());
}

#[test]
fn stray_block_end_is_unbalanced() {
    let lines = toks("}");
    let a = analyze(&lines);
    assert!(a.diagnostics.is_empty());
    let r = execute(&lines, &a.globals, &a.functions, FUEL);
    assert!(r.halted);
    assert_eq!(r.events, vec![Event::UnbalancedBlock { line: 0 }]);
}

#[test]
fn unclosed_function_body_is_unbalanced() {
    let lines = toks("func f() {");
    let a = analyze(&lines);
    assert!(a.in_function);
    let r = execute(&lines, &a.globals, &a.functions, FUEL);
    assert!(r.halted);
    assert_eq!(r.events, vec![Event::UnbalancedBlock { line: 0 }]);
}

#[test]
fn unclosed_body_leaves_the_local_set_behind() {
    let lines = toks("func f() {\nvar a");
    let a = analyze(&lines);
    assert!(a.in_function);
    assert_eq!(a.locals, vec!["a".to_string()]);
    assert!(a.globals.is_empty());
}

#[test]
fn runaway_recursion_exhausts_the_step_budget() {
    let lines = toks("func f() {\nf()\n}\nf()");
    let a = analyze(&lines);
    let r = execute(&lines, &a.globals, &a.functions, 50);
    assert!(!r.halted);
    assert!(!r.call_stack.is_empty());
}

#[test]
fn unparsable_literal_makes_the_write_a_noop() {
    let lines = toks("var x\nx = banana\nx = 3");
    let a = analyze(&lines);
    assert!(a.diagnostics.is_empty());
    let r = execute(&lines, &a.globals, &a.functions, FUEL);
    assert_eq!(r.memory, vec![3]);
    assert_eq!(
        r.events,
        vec![Event::Write { name: "x".to_string(), addr: 0, value: 3 }]
    );
}

#[test]
fn classification_of_line_shapes() {
    let t = |s: &str| -> Vec<String> { s.split_whitespace().map(|w| w.to_string()).collect() };
    assert_eq!(classify(&t("")), Instr::Blank);
    assert_eq!(classify(&t("var x")), Instr::DeclareVar { name: "x".to_string() });
    assert_eq!(
        classify(&t("x = 5")),
        Instr::Assign { name: "x".to_string(), literal: "5".to_string() }
    );
    assert_eq!(classify(&t("func f() {")), Instr::FuncDecl { name: "f()".to_string() });
    assert_eq!(classify(&t("f()")), Instr::Call { name: "f()".to_string() });
    assert_eq!(classify(&t("}")), Instr::BlockEnd);
    assert_eq!(classify(&t("var")), Instr::Malformed);
    assert_eq!(classify(&t("var x y")), Instr::Malformed);
    assert_eq!(classify(&t("plain")), Instr::Malformed);
    assert_eq!(classify(&t("a b c d")), Instr::Malformed);
    // an `=` in second position wins over a `func` header shape
    assert_eq!(
        classify(&t("func = {")),
        Instr::Assign { name: "func".to_string(), literal: "{".to_string() }
    );
}

#[test]
fn integer_literals_parse_like_signed_decimals() {
    let p = |s: &str| parse_i32_token(&s.to_string());
    assert_eq!(p("0"), Some(0));
    assert_eq!(p("42"), Some(42));
    assert_eq!(p("-7"), Some(-7));
    assert_eq!(p("+9"), Some(9));
    assert_eq!(p("2147483647"), Some(i32::MAX));
    assert_eq!(p("2147483648"), None);
    assert_eq!(p("-2147483648"), Some(i32::MIN));
    assert_eq!(p("-2147483649"), None);
    assert_eq!(p(""), None);
    assert_eq!(p("-"), None);
    assert_eq!(p("+"), None);
    assert_eq!(p("12a"), None);
    assert_eq!(p("a12"), None);
    assert_eq!(p("1 2"), None);
    assert_eq!(p("99999999999999999999"), None);
}
