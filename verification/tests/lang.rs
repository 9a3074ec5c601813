use scriptlang::ast::{
    Closure, LinkError, LinkedExpr, LinkedLambda, LinkedValue, RuntimeValue, UnlinkedExpr,
    UnlinkedValue,
};
use scriptlang::link::name_free_in_expr;
use scriptlang::model::EvalError;

fn name(s: &str) -> String {
    String::from(s)
}

fn lit(s: &str) -> UnlinkedExpr {
    UnlinkedExpr::literal(name(s))
}

fn var(s: &str) -> UnlinkedExpr {
    UnlinkedExpr::ident(name(s))
}

fn lam(p: &str, body: UnlinkedExpr) -> UnlinkedExpr {
    UnlinkedExpr::lambda(name(p), body)
}

fn app(t: UnlinkedExpr, a: UnlinkedExpr) -> UnlinkedExpr {
    UnlinkedExpr::apply(t, a)
}

fn tup(fields: Vec<UnlinkedExpr>) -> UnlinkedExpr {
    UnlinkedExpr::tuple(fields)
}

fn run(e: UnlinkedExpr) -> RuntimeValue {
    let linked = e.link().expect("program should link");
    linked.eval(100).expect("program should evaluate")
}

fn expect_prim(v: &RuntimeValue, want: &str) {
    match v {
        RuntimeValue::Primitive(s) => assert_eq!(s, want),
        _ => panic!("expected a primitive"),
    }
}

#[test]
fn identity_returns_the_literal() {
    let v = run(app(lam("x", var("x")), lit("payload")));
    expect_prim(&v, "payload");
}

#[test]
fn identity_with_empty_literal() {
    let v = run(app(lam("x", var("x")), lit("")));
    expect_prim(&v, "");
}

#[test]
fn duplication_yields_two_copies() {
    let v = run(app(lam("x", tup(vec![var("x"), var("x")])), lit("dup")));
    match v {
        RuntimeValue::Tuple(fields) => {
            assert_eq!(fields.len(), 2);
            expect_prim(&fields[0], "dup");
            expect_prim(&fields[1], "dup");
        },
        _ => panic!("expected a tuple"),
    }
}

#[test]
fn duplication_is_structural_not_shared() {
    let v = run(app(lam("x", tup(vec![var("x"), var("x")])), lit("dup")));
    let copy = v.duplicate();
    // Dismantle the original; the copy must be unaffected.
    match v {
        RuntimeValue::Tuple(mut fields) => {
            fields.clear();
        },
        _ => panic!("expected a tuple"),
    }
    match copy {
        RuntimeValue::Tuple(fields) => {
            assert_eq!(fields.len(), 2);
            expect_prim(&fields[0], "dup");
        },
        _ => panic!("expected a tuple"),
    }
}

#[test]
fn capture_list_has_one_entry_at_position_zero() {
    // x => y => {x, y}: the inner lambda must capture exactly x, found at
    // stack position 0 of its defining scope.
    let prog = app(
        app(lam("x", lam("y", tup(vec![var("x"), var("y")]))), lit("a")),
        lit("b"),
    );
    let linked = prog.link().expect("program should link");
    let outer_lambda = match &linked {
        LinkedExpr::Call { target, .. } => match target.as_ref() {
            LinkedExpr::Call { target, .. } => match target.as_ref() {
                LinkedExpr::Const(LinkedValue::Lambda(l)) => l,
                _ => panic!("expected the outer lambda literal"),
            },
            _ => panic!("expected the inner application"),
        },
        _ => panic!("expected the outer application"),
    };
    assert_eq!(outer_lambda.captures.len(), 0);
    let inner_lambda = match &outer_lambda.body {
        LinkedExpr::Const(LinkedValue::Lambda(l)) => l,
        _ => panic!("expected the inner lambda literal"),
    };
    assert_eq!(inner_lambda.captures, vec![0]);
}

#[test]
fn capture_ordering_evaluates_in_written_order() {
    let prog = app(
        app(lam("x", lam("y", tup(vec![var("x"), var("y")]))), lit("first")),
        lit("second"),
    );
    let v = run(prog);
    match v {
        RuntimeValue::Tuple(fields) => {
            assert_eq!(fields.len(), 2);
            expect_prim(&fields[0], "first");
            expect_prim(&fields[1], "second");
        },
        _ => panic!("expected a tuple"),
    }
}

#[test]
fn partial_application_yields_a_closure_carrying_the_capture() {
    // Applying x => y => {x, y} to one argument must produce a closure that
    // owns a copy of that argument, callable after the outer frame is gone.
    let prog = app(lam("x", lam("y", tup(vec![var("x"), var("y")]))), lit("kept"));
    let v = run(prog);
    let closure: Box<Closure> = match v {
        RuntimeValue::Lambda(c) => c,
        _ => panic!("expected a lambda value"),
    };
    assert_eq!(closure.captured.len(), 1);
    expect_prim(&closure.captured[0], "kept");
    // Call it on its own, against no surrounding stack at all.
    let out = closure
        .call(RuntimeValue::Primitive(name("later")), 10)
        .expect("closure call should succeed");
    match out {
        RuntimeValue::Tuple(fields) => {
            expect_prim(&fields[0], "kept");
            expect_prim(&fields[1], "later");
        },
        _ => panic!("expected a tuple"),
    }
}

#[test]
fn shadowing_resolves_to_the_inner_parameter() {
    // x => (x => x) x, applied to A: the inner x is the inner parameter.
    let prog = app(lam("x", app(lam("x", var("x")), var("x"))), lit("outer"));
    let v = run(prog);
    expect_prim(&v, "outer");
}

#[test]
fn unbound_top_level_identifier_fails_to_link() {
    match var("z").link() {
        Err(LinkError::UnboundIdentifier(n)) => assert_eq!(n, "z"),
        Ok(_) => panic!("a bare identifier must not link"),
    }
}

#[test]
fn unbound_name_inside_a_lambda_fails_to_link() {
    match lam("x", var("y")).link() {
        Err(LinkError::UnboundIdentifier(n)) => assert_eq!(n, "y"),
        Ok(_) => panic!("a lambda with an unbound free name must not link"),
    }
}

#[test]
fn tuple_fields_evaluate_left_to_right() {
    let prog = app(
        lam("x", tup(vec![lit("one"), var("x"), lit("three")])),
        lit("two"),
    );
    let v = run(prog);
    match v {
        RuntimeValue::Tuple(fields) => {
            assert_eq!(fields.len(), 3);
            expect_prim(&fields[0], "one");
            expect_prim(&fields[1], "two");
            expect_prim(&fields[2], "three");
        },
        _ => panic!("expected a tuple"),
    }
}

#[test]
fn empty_tuple_evaluates_to_empty_tuple() {
    let v = run(tup(vec![]));
    match v {
        RuntimeValue::Tuple(fields) => assert_eq!(fields.len(), 0),
        _ => panic!("expected a tuple"),
    }
}

#[test]
fn calling_a_primitive_is_a_type_mismatch() {
    let linked = app(lit("notafunction"), lit("arg")).link().expect("should link");
    assert!(matches!(linked.eval(100), Err(EvalError::TypeMismatch)));
}

#[test]
fn deep_call_nesting_exhausts_fuel() {
    let linked = app(lam("x", var("x")), lit("v")).link().expect("should link");
    assert!(matches!(linked.eval(0), Err(EvalError::ResourceExhausted)));
}

#[test]
fn out_of_range_offset_is_an_internal_consistency_failure() {
    // A tree that did not come from the linker may hold a bad offset.
    let bad = LinkedExpr::Ident(5);
    assert!(matches!(bad.eval(10), Err(EvalError::InternalConsistency)));
}

#[test]
fn linked_programs_never_fail_internal_consistency() {
    // The same programs as above, evaluated through the linker, never see
    // an out-of-range offset whatever the fuel.
    let progs = vec![
        app(lam("x", var("x")), lit("v")),
        app(lam("x", tup(vec![var("x"), var("x")])), lit("v")),
        app(
            app(lam("x", lam("y", tup(vec![var("x"), var("y")]))), lit("a")),
            lit("b"),
        ),
    ];
    for p in progs {
        let linked = p.link().expect("should link");
        for fuel in 0..4 {
            match linked.eval(fuel) {
                Ok(_) => {},
                Err(e) => assert_ne!(e, EvalError::InternalConsistency),
            }
        }
    }
}

#[test]
fn default_runtime_value_is_the_empty_tuple() {
    match RuntimeValue::default() {
        RuntimeValue::Tuple(fields) => assert_eq!(fields.len(), 0),
        _ => panic!("expected a tuple"),
    }
}

#[test]
fn default_unlinked_value_is_the_empty_tuple() {
    match UnlinkedValue::default() {
        UnlinkedValue::Tuple(fields) => assert_eq!(fields.len(), 0),
        _ => panic!("expected a tuple"),
    }
}

#[test]
fn applying_a_lambda_to_the_empty_tuple() {
    // The driver scenario: (x => y => {x, y}) {} yields a closure whose one
    // captured value is the empty tuple.
    let prog = app(lam("x", lam("y", tup(vec![var("x"), var("y")]))), tup(vec![]));
    let v = run(prog);
    match v {
        RuntimeValue::Lambda(c) => {
            assert_eq!(c.captured.len(), 1);
            match &c.captured[0] {
                RuntimeValue::Tuple(fields) => assert_eq!(fields.len(), 0),
                _ => panic!("expected the captured empty tuple"),
            }
        },
        _ => panic!("expected a lambda value"),
    }
}

#[test]
fn link_against_resolves_a_name_in_scope() {
    let scope = vec![name("a"), name("b")];
    match var("b").link_against(&scope) {
        Ok(LinkedExpr::Ident(i)) => assert_eq!(i, 1),
        _ => panic!("expected the innermost binding of b"),
    }
    match var("a").link_against(&scope) {
        Ok(LinkedExpr::Ident(i)) => assert_eq!(i, 0),
        _ => panic!("expected the binding of a"),
    }
}

#[test]
fn link_against_resolves_shadowed_names_innermost_wins() {
    let scope = vec![name("a"), name("a")];
    match var("a").link_against(&scope) {
        Ok(LinkedExpr::Ident(i)) => assert_eq!(i, 1),
        _ => panic!("expected the innermost binding of a"),
    }
}

#[test]
fn free_name_membership() {
    let e = lam("x", tup(vec![var("x"), var("y")]));
    assert!(!name_free_in_expr(&e, &name("x")));
    assert!(name_free_in_expr(&e, &name("y")));
    assert!(!name_free_in_expr(&e, &name("z")));
}

#[test]
fn linked_lambda_call_builds_an_independent_frame() {
    // A lambda capturing position 0, body {captured, argument}.
    let ll = LinkedLambda {
        captures: vec![0],
        body: LinkedExpr::Tuple(vec![LinkedExpr::Ident(0), LinkedExpr::Ident(1)]),
    };
    let outer = vec![RuntimeValue::Primitive(name("from_scope"))];
    let out = ll
        .call(&outer, RuntimeValue::Primitive(name("arg")), 10)
        .expect("call should succeed");
    match out {
        RuntimeValue::Tuple(fields) => {
            expect_prim(&fields[0], "from_scope");
            expect_prim(&fields[1], "arg");
        },
        _ => panic!("expected a tuple"),
    }
}

#[test]
fn linked_lambda_call_rejects_out_of_range_captures() {
    let ll = LinkedLambda { captures: vec![3], body: LinkedExpr::Ident(0) };
    let outer: Vec<RuntimeValue> = vec![];
    assert!(matches!(
        ll.call(&outer, RuntimeValue::Primitive(name("arg")), 10),
        Err(EvalError::InternalConsistency)
    ));
}

#[test]
fn three_level_captures_scan_nearest_binding_first() {
    // x => y => z => {x, y, z}: the innermost lambda needs x and y; the
    // scan walks its scope [x, y] from the innermost binding outward, so it
    // captures y (position 1) before x (position 0).
    let prog = lam(
        "x",
        lam("y", lam("z", tup(vec![var("x"), var("y"), var("z")]))),
    );
    let linked = prog.link().expect("program should link");
    let lam_x = match &linked {
        LinkedExpr::Const(LinkedValue::Lambda(l)) => l,
        _ => panic!("expected the outermost lambda literal"),
    };
    let lam_y = match &lam_x.body {
        LinkedExpr::Const(LinkedValue::Lambda(l)) => l,
        _ => panic!("expected the middle lambda literal"),
    };
    let lam_z = match &lam_y.body {
        LinkedExpr::Const(LinkedValue::Lambda(l)) => l,
        _ => panic!("expected the innermost lambda literal"),
    };
    assert_eq!(lam_x.captures.len(), 0);
    assert_eq!(lam_y.captures, vec![0]);
    assert_eq!(lam_z.captures, vec![1, 0]);
}

#[test]
fn three_level_application_keeps_written_order() {
    let prog = app(
        app(
            app(
                lam("x", lam("y", lam("z", tup(vec![var("x"), var("y"), var("z")])))),
                lit("a"),
            ),
            lit("b"),
        ),
        lit("c"),
    );
    let v = run(prog);
    match v {
        RuntimeValue::Tuple(fields) => {
            assert_eq!(fields.len(), 3);
            expect_prim(&fields[0], "a");
            expect_prim(&fields[1], "b");
            expect_prim(&fields[2], "c");
        },
        _ => panic!("expected a tuple"),
    }
}

#[test]
fn nested_tuples_keep_their_shape() {
    let v = run(tup(vec![tup(vec![lit("inner")]), tup(vec![])]));
    match v {
        RuntimeValue::Tuple(fields) => {
            assert_eq!(fields.len(), 2);
            match &fields[0] {
                RuntimeValue::Tuple(inner) => {
                    assert_eq!(inner.len(), 1);
                    expect_prim(&inner[0], "inner");
                },
                _ => panic!("expected the inner tuple"),
            }
            match &fields[1] {
                RuntimeValue::Tuple(inner) => assert_eq!(inner.len(), 0),
                _ => panic!("expected the empty tuple"),
            }
        },
        _ => panic!("expected a tuple"),
    }
}

#[test]
fn a_closure_can_be_called_repeatedly() {
    let prog = app(lam("x", lam("y", tup(vec![var("x"), var("y")]))), lit("base"));
    let v = run(prog);
    let closure = match v {
        RuntimeValue::Lambda(c) => c,
        _ => panic!("expected a lambda value"),
    };
    for arg in ["one", "two", "three"] {
        let out = closure
            .call(RuntimeValue::Primitive(name(arg)), 10)
            .expect("closure call should succeed");
        match out {
            RuntimeValue::Tuple(fields) => {
                expect_prim(&fields[0], "base");
                expect_prim(&fields[1], arg);
            },
            _ => panic!("expected a tuple"),
        }
    }
}
