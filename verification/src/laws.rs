//! The laws of the linker and evaluator: a program whose free names are all
//! bound links successfully; the linked tree's stack offsets are all in
//! range; evaluation of a well-formed tree never reports an internal
//! consistency failure; and tuple fields evaluate to their results in
//! left-to-right order.

use crate::model::{
    capture_value, capture_values, clos_wf, eval_expr, eval_exprs, free_of_expr, free_of_exprs,
    free_of_lambda, free_of_value, free_of_values, lemma_scope_lookup, lexpr_wf, link_expr,
    link_exprs, link_lambda, link_program, link_value, link_values, llam_wf, lvalue_wf, rstack_wf,
    rval_wf, scan_scope, scope_lookup, EvalError, SpecClosure, SpecLExpr, SpecLLambda, SpecLValue,
    SpecRValue, SpecUExpr, SpecULambda, SpecUValue,
};
use vstd::prelude::*;

verus! {

// ------------------------------------------------------------------
// Small helpers about sequence membership.
// ------------------------------------------------------------------

proof fn lemma_cons_contains<T>(x: T, t: Seq<T>, n: T)
    ensures
        (seq![x] + t).contains(n) <==> (n == x || t.contains(n)),
{
    let s = seq![x] + t;
    if s.contains(n) {
        let i = choose|i: int| 0 <= i < s.len() && s[i] == n;
        if i > 0 {
            assert(t[i - 1] == n);
        }
    }
    if t.contains(n) {
        let i = choose|i: int| 0 <= i < t.len() && t[i] == n;
        assert(s[i + 1] == n);
    }
    if n == x {
        assert(s[0] == n);
    }
}

proof fn lemma_unsnoc_contains<T>(s: Seq<T>, n: T)
    requires
        s.len() > 0,
    ensures
        s.contains(n) <==> (s.last() == n || s.drop_last().contains(n)),
{
    if s.contains(n) {
        let i = choose|i: int| 0 <= i < s.len() && s[i] == n;
        if i < s.len() - 1 {
            assert(s.drop_last()[i] == n);
        }
    }
    if s.drop_last().contains(n) {
        let i = choose|i: int| 0 <= i < s.drop_last().len() && s.drop_last()[i] == n;
        assert(s[i] == n);
    }
}

proof fn lemma_push_contains<T>(s: Seq<T>, x: T, n: T)
    ensures
        s.push(x).contains(n) <==> (n == x || s.contains(n)),
{
    lemma_unsnoc_contains(s.push(x), n);
    assert(s.push(x).drop_last() =~= s);
}

// ------------------------------------------------------------------
// What the capture scan produces.
// ------------------------------------------------------------------

/// The scan pairs each capture position with the name it found there, in
/// strictly decreasing position order (nearest enclosing binding first) and
/// without repeating a name; the captured names are exactly the wanted
/// names the scope binds; the leftover is exactly the wanted names the
/// scope does not bind.
proof fn lemma_scan_scope_props(scope: Seq<Seq<char>>, fs: Set<Seq<char>>)
    ensures
        ({
            let r = scan_scope(scope, fs);
            &&& r.0.len() == r.1.len()
            &&& forall|k: int|
                0 <= k < r.0.len() ==> 0 <= #[trigger] r.0[k] < scope.len() && scope[r.0[k]]
                    == r.1[k]
            &&& forall|k1: int, k2: int| 0 <= k1 < k2 < r.0.len() ==> r.0[k1] > r.0[k2]
            &&& r.1.no_duplicates()
            &&& forall|n: Seq<char>|
                #[trigger] r.2.contains(n) <==> (fs.contains(n) && !scope.contains(n))
            &&& forall|n: Seq<char>|
                #[trigger] r.1.contains(n) <==> (fs.contains(n) && scope.contains(n))
        }),
    decreases scope.len(),
{
    if scope.len() > 0 {
        let name = scope.last();
        let dl = scope.drop_last();
        assert forall|n: Seq<char>| true implies #[trigger] scope.contains(n) == (name == n
            || dl.contains(n)) by {
            lemma_unsnoc_contains(scope, n);
        }
        if fs.contains(name) {
            lemma_scan_scope_props(dl, fs.remove(name));
            let rest = scan_scope(dl, fs.remove(name));
            let r = scan_scope(scope, fs);
            assert(r.0 == seq![scope.len() - 1] + rest.0);
            assert forall|k: int| 0 <= k < r.0.len() implies 0 <= #[trigger] r.0[k] < scope.len()
                && scope[r.0[k]] == r.1[k] by {
                if k == 0 {
                    assert(r.0[0] == scope.len() - 1);
                    assert(r.1[0] == name);
                } else {
                    assert(r.0[k] == rest.0[k - 1]);
                    assert(r.1[k] == rest.1[k - 1]);
                    assert(dl[rest.0[k - 1]] == rest.1[k - 1]);
                    assert(scope[r.0[k]] == dl[rest.0[k - 1]]);
                }
            }
            assert forall|k1: int, k2: int| 0 <= k1 < k2 < r.0.len() implies r.0[k1]
                > r.0[k2] by {
                assert(r.0[k2] == rest.0[k2 - 1]);
                assert(rest.0[k2 - 1] < dl.len());
                if k1 > 0 {
                    assert(r.0[k1] == rest.0[k1 - 1]);
                } else {
                    assert(r.0[0] == scope.len() - 1);
                }
            }
            assert(!rest.1.contains(name));
            assert forall|i: int, j: int|
                0 <= i < r.1.len() && 0 <= j < r.1.len() && i != j implies r.1[i] != r.1[j] by {
                if i == 0 {
                    assert(r.1[j] == rest.1[j - 1]);
                    if rest.1[j - 1] == name {
                        assert(rest.1.contains(name));
                    }
                } else if j == 0 {
                    assert(r.1[i] == rest.1[i - 1]);
                    if rest.1[i - 1] == name {
                        assert(rest.1.contains(name));
                    }
                } else {
                    assert(r.1[i] == rest.1[i - 1]);
                    assert(r.1[j] == rest.1[j - 1]);
                }
            }
            assert forall|n: Seq<char>| true implies (#[trigger] r.1.contains(n) == (fs.contains(
                n,
            ) && scope.contains(n))) by {
                lemma_cons_contains(name, rest.1, n);
            }
        } else {
            lemma_scan_scope_props(dl, fs);
        }
    }
}

// ------------------------------------------------------------------
// Totality of the linker on programs whose free names are all bound,
// together with well-formedness of what it produces.
// ------------------------------------------------------------------

proof fn lemma_link_lambda_total(l: SpecULambda, scope: Seq<Seq<char>>)
    requires
        forall|n: Seq<char>| #[trigger] free_of_lambda(l).contains(n) ==> scope.contains(n),
    ensures
        link_lambda(l, scope) is Some,
        llam_wf(link_lambda(l, scope)->0, scope.len() as int),
    decreases l,
{
    let fs = free_of_lambda(l);
    lemma_scan_scope_props(scope, fs);
    let r = scan_scope(scope, fs);
    assert(r.2 =~= Set::<Seq<char>>::empty());
    let inner = r.1.push(l.param);
    assert forall|n: Seq<char>| #[trigger] free_of_expr(l.body).contains(n) implies inner.contains(
        n,
    ) by {
        lemma_push_contains(r.1, l.param, n);
        if n != l.param {
            assert(fs.contains(n));
            assert(r.1.contains(n));
        }
    }
    lemma_link_expr_total(l.body, inner);
}

proof fn lemma_link_expr_total(e: SpecUExpr, scope: Seq<Seq<char>>)
    requires
        forall|n: Seq<char>| #[trigger] free_of_expr(e).contains(n) ==> scope.contains(n),
    ensures
        link_expr(e, scope) is Some,
        lexpr_wf(link_expr(e, scope)->0, scope.len() as int),
    decreases e,
{
    match e {
        SpecUExpr::Const(v) => {
            assert forall|n: Seq<char>| #[trigger]
                free_of_value(v).contains(n) implies scope.contains(n) by {
                assert(free_of_expr(e).contains(n));
            }
            lemma_link_value_total(v, scope);
        },
        SpecUExpr::Ident(n) => {
            assert(free_of_expr(e).contains(n));
            lemma_scope_lookup(scope, n);
        },
        SpecUExpr::Call { target, argument } => {
            assert forall|n: Seq<char>| #[trigger]
                free_of_expr(*target).contains(n) implies scope.contains(n) by {
                assert(free_of_expr(e).contains(n));
            }
            assert forall|n: Seq<char>| #[trigger]
                free_of_expr(*argument).contains(n) implies scope.contains(n) by {
                assert(free_of_expr(e).contains(n));
            }
            lemma_link_expr_total(*target, scope);
            lemma_link_expr_total(*argument, scope);
        },
        SpecUExpr::Tuple(es) => {
            assert forall|n: Seq<char>| #[trigger]
                free_of_exprs(es).contains(n) implies scope.contains(n) by {
                assert(free_of_expr(e).contains(n));
            }
            lemma_link_exprs_total(es, scope);
        },
    }
}

proof fn lemma_link_exprs_total(es: Seq<SpecUExpr>, scope: Seq<Seq<char>>)
    requires
        forall|n: Seq<char>| #[trigger] free_of_exprs(es).contains(n) ==> scope.contains(n),
    ensures
        link_exprs(es, scope) is Some,
        link_exprs(es, scope)->0.len() == es.len(),
        forall|k: int|
            0 <= k < es.len() ==> lexpr_wf(
                #[trigger] link_exprs(es, scope)->0[k],
                scope.len() as int,
            ),
    decreases es,
{
    if es.len() > 0 {
        assert forall|n: Seq<char>| #[trigger]
            free_of_exprs(es.drop_last()).contains(n) implies scope.contains(n) by {
            assert(free_of_exprs(es).contains(n));
        }
        assert forall|n: Seq<char>| #[trigger]
            free_of_expr(es.last()).contains(n) implies scope.contains(n) by {
            assert(free_of_exprs(es).contains(n));
        }
        lemma_link_exprs_total(es.drop_last(), scope);
        lemma_link_expr_total(es.last(), scope);
    }
}

proof fn lemma_link_value_total(v: SpecUValue, scope: Seq<Seq<char>>)
    requires
        forall|n: Seq<char>| #[trigger] free_of_value(v).contains(n) ==> scope.contains(n),
    ensures
        link_value(v, scope) is Some,
        lvalue_wf(link_value(v, scope)->0, scope.len() as int),
    decreases v,
{
    match v {
        SpecUValue::Prim(_) => {},
        SpecUValue::Lam(l) => {
            assert forall|n: Seq<char>| #[trigger]
                free_of_lambda(*l).contains(n) implies scope.contains(n) by {
                assert(free_of_value(v).contains(n));
            }
            lemma_link_lambda_total(*l, scope);
        },
        SpecUValue::Tup(vs) => {
            assert forall|n: Seq<char>| #[trigger]
                free_of_values(vs).contains(n) implies scope.contains(n) by {
                assert(free_of_value(v).contains(n));
            }
            lemma_link_values_total(vs, scope);
        },
    }
}

proof fn lemma_link_values_total(vs: Seq<SpecUValue>, scope: Seq<Seq<char>>)
    requires
        forall|n: Seq<char>| #[trigger] free_of_values(vs).contains(n) ==> scope.contains(n),
    ensures
        link_values(vs, scope) is Some,
        link_values(vs, scope)->0.len() == vs.len(),
        forall|k: int|
            0 <= k < vs.len() ==> lvalue_wf(
                #[trigger] link_values(vs, scope)->0[k],
                scope.len() as int,
            ),
    decreases vs,
{
    if vs.len() > 0 {
        assert forall|n: Seq<char>| #[trigger]
            free_of_values(vs.drop_last()).contains(n) implies scope.contains(n) by {
            assert(free_of_values(vs).contains(n));
        }
        assert forall|n: Seq<char>| #[trigger]
            free_of_value(vs.last()).contains(n) implies scope.contains(n) by {
            assert(free_of_values(vs).contains(n));
        }
        lemma_link_values_total(vs.drop_last(), scope);
        lemma_link_value_total(vs.last(), scope);
    }
}

/// Law: a well-formed program with no free top-level identifiers always
/// links, and the linked tree contains no identifier whose offset is out of
/// range for the stack it will be evaluated against.
pub proof fn lemma_link_program_total(e: SpecUExpr)
    requires
        free_of_expr(e) == Set::<Seq<char>>::empty(),
    ensures
        link_program(e) is Some,
        lexpr_wf(link_program(e)->0, 0),
{
    lemma_link_expr_total(e, Seq::empty());
}


/// Law: the capture list is ordered by discovery while scanning the scope
/// from the innermost binding outward: its stack positions strictly
/// decrease, nearest enclosing binding first.
pub proof fn lemma_capture_positions_decrease(l: SpecULambda, scope: Seq<Seq<char>>)
    requires
        link_lambda(l, scope) is Some,
    ensures
        ({
            let c = link_lambda(l, scope)->0.captures;
            forall|k1: int, k2: int| 0 <= k1 < k2 < c.len() ==> c[k1] > c[k2]
        }),
{
    lemma_scan_scope_props(scope, free_of_lambda(l));
}

/// Law: a linked lambda carries exactly one capture for each distinct free
/// variable of the original lambda body, its own parameter excluded.
pub proof fn lemma_capture_count(l: SpecULambda, scope: Seq<Seq<char>>)
    requires
        link_lambda(l, scope) is Some,
    ensures
        link_lambda(l, scope)->0.captures.len() == free_of_lambda(l).len(),
        free_of_lambda(l).finite(),
{
    let fs = free_of_lambda(l);
    lemma_scan_scope_props(scope, fs);
    let r = scan_scope(scope, fs);
    assert forall|n: Seq<char>| #[trigger] fs.contains(n) implies scope.contains(n) by {
        if !scope.contains(n) {
            assert(r.2.contains(n));
            assert(!Set::<Seq<char>>::empty().contains(n));
        }
    }
    assert(r.1.to_set() =~= fs);
    r.1.unique_seq_to_set();
}


/// Law: linking a tuple preserves its field order: the i-th linked field is
/// exactly the linking of the i-th written field.
pub proof fn lemma_link_preserves_tuple_order(es: Seq<SpecUExpr>, scope: Seq<Seq<char>>)
    requires
        link_exprs(es, scope) is Some,
    ensures
        link_exprs(es, scope)->0.len() == es.len(),
        forall|k: int|
            0 <= k < es.len() ==> link_expr(#[trigger] es[k], scope) == Option::Some(
                link_exprs(es, scope)->0[k],
            ),
    decreases es,
{
    if es.len() > 0 {
        lemma_link_preserves_tuple_order(es.drop_last(), scope);
        let ls = link_exprs(es, scope)->0;
        let prev = link_exprs(es.drop_last(), scope)->0;
        assert forall|k: int| 0 <= k < es.len() implies link_expr(
            #[trigger] es[k],
            scope,
        ) == Option::Some(ls[k]) by {
            if k < es.len() - 1 {
                assert(es.drop_last()[k] == es[k]);
                assert(ls[k] == prev[k]);
            } else {
                assert(es.last() == es[k]);
                assert(ls[k] == link_expr(es.last(), scope)->0);
            }
        }
    }
}

// ------------------------------------------------------------------
// Evaluation preserves well-formedness and never reports an internal
// consistency failure on a well-formed tree: an out-of-range offset
// at run time can only mean the tree did not come from the linker.
// ------------------------------------------------------------------

proof fn lemma_capture_value_safe(v: SpecLValue, stack: Seq<SpecRValue>)
    requires
        lvalue_wf(v, stack.len() as int),
        rstack_wf(stack),
    ensures
        capture_value(v, stack) is Ok,
        rval_wf(capture_value(v, stack)->Ok_0),
    decreases v,
{
    match v {
        SpecLValue::Prim(_) => {},
        SpecLValue::Lam(l) => {
            assert(llam_wf(*l, stack.len() as int));
            let captured = Seq::new(l.captures.len(), |j: int| stack[l.captures[j]]);
            assert forall|k: int| 0 <= k < captured.len() implies rval_wf(
                #[trigger] captured[k],
            ) by {
                assert(0 <= l.captures[k] < stack.len());
                assert(rval_wf(stack[l.captures[k]]));
            }
            assert(clos_wf(SpecClosure { captured, body: l.body }));
        },
        SpecLValue::Tup(vs) => {
            lemma_capture_values_safe(vs, stack);
        },
    }
}

proof fn lemma_capture_values_safe(vs: Seq<SpecLValue>, stack: Seq<SpecRValue>)
    requires
        forall|k: int| 0 <= k < vs.len() ==> lvalue_wf(#[trigger] vs[k], stack.len() as int),
        rstack_wf(stack),
    ensures
        capture_values(vs, stack) is Ok,
        capture_values(vs, stack)->Ok_0.len() == vs.len(),
        forall|k: int|
            0 <= k < vs.len() ==> rval_wf(#[trigger] capture_values(vs, stack)->Ok_0[k]),
    decreases vs,
{
    if vs.len() > 0 {
        assert(lvalue_wf(vs[0], stack.len() as int));
        lemma_capture_value_safe(vs.first(), stack);
        assert forall|k: int| 0 <= k < vs.drop_first().len() implies lvalue_wf(
            #[trigger] vs.drop_first()[k],
            stack.len() as int,
        ) by {
            assert(lvalue_wf(vs[k + 1], stack.len() as int));
        }
        lemma_capture_values_safe(vs.drop_first(), stack);
    }
}

/// Law: evaluating a well-formed tree against a stack of well-formed values
/// yields a well-formed value or fails with a type mismatch or fuel
/// exhaustion — never with an internal consistency failure.
pub proof fn lemma_eval_safe(e: SpecLExpr, stack: Seq<SpecRValue>, fuel: nat)
    requires
        lexpr_wf(e, stack.len() as int),
        rstack_wf(stack),
    ensures
        match eval_expr(e, stack, fuel) {
            Result::Ok(v) => rval_wf(v),
            Result::Err(err) => err != EvalError::InternalConsistency,
        },
    decreases fuel, e,
{
    match e {
        SpecLExpr::Const(v) => {
            lemma_capture_value_safe(v, stack);
        },
        SpecLExpr::Ident(_) => {},
        SpecLExpr::Call { target, argument } => {
            lemma_eval_safe(*target, stack, fuel);
            match eval_expr(*target, stack, fuel) {
                Result::Ok(f) => match f {
                    SpecRValue::Clos(c) => {
                        assert(clos_wf(*c));
                        lemma_eval_safe(*argument, stack, fuel);
                        match eval_expr(*argument, stack, fuel) {
                            Result::Ok(a) => {
                                if fuel > 0 {
                                    let stack2 = c.captured.push(a);
                                    assert forall|k: int| 0 <= k < stack2.len() implies rval_wf(
                                        #[trigger] stack2[k],
                                    ) by {
                                        if k < c.captured.len() {
                                            assert(rval_wf(c.captured[k]));
                                        }
                                    }
                                    lemma_eval_safe(c.body, stack2, (fuel - 1) as nat);
                                }
                            },
                            Result::Err(_) => {},
                        }
                    },
                    _ => {},
                },
                Result::Err(_) => {},
            }
        },
        SpecLExpr::Tuple(es) => {
            lemma_eval_exprs_safe(es, stack, fuel);
        },
    }
}

proof fn lemma_eval_exprs_safe(es: Seq<SpecLExpr>, stack: Seq<SpecRValue>, fuel: nat)
    requires
        forall|k: int| 0 <= k < es.len() ==> lexpr_wf(#[trigger] es[k], stack.len() as int),
        rstack_wf(stack),
    ensures
        match eval_exprs(es, stack, fuel) {
            Result::Ok(rs) => rs.len() == es.len() && (forall|k: int|
                0 <= k < rs.len() ==> rval_wf(#[trigger] rs[k])),
            Result::Err(err) => err != EvalError::InternalConsistency,
        },
    decreases fuel, es,
{
    if es.len() > 0 {
        assert(lexpr_wf(es[0], stack.len() as int));
        lemma_eval_safe(es.first(), stack, fuel);
        assert forall|k: int| 0 <= k < es.drop_first().len() implies lexpr_wf(
            #[trigger] es.drop_first()[k],
            stack.len() as int,
        ) by {
            assert(lexpr_wf(es[k + 1], stack.len() as int));
        }
        lemma_eval_exprs_safe(es.drop_first(), stack, fuel);
    }
}

/// Law: linking a program with no free top-level identifiers and running it
/// on the empty stack never reports an internal consistency failure,
/// whatever the fuel: an out-of-range offset is unreachable given a correct
/// linker.
pub proof fn lemma_linked_never_inconsistent(e: SpecUExpr, fuel: nat)
    requires
        free_of_expr(e) == Set::<Seq<char>>::empty(),
    ensures
        link_program(e) is Some,
        eval_expr(link_program(e)->0, Seq::empty(), fuel) != Result::<
            SpecRValue,
            EvalError,
        >::Err(EvalError::InternalConsistency),
{
    lemma_link_program_total(e);
    lemma_eval_safe(link_program(e)->0, Seq::empty(), fuel);
}

// ------------------------------------------------------------------
// The behaviour of particular program shapes, for every literal that
// appears in them.
// ------------------------------------------------------------------

/// Law: linking and evaluating the identity lambda applied to any literal
/// value yields that value unchanged, with any fuel admitting one call.
#[verifier::rlimit(50)]
pub proof fn lemma_identity(x: Seq<char>, v: Seq<char>, fuel: nat)
    requires
        fuel >= 1,
    ensures
        ({
            let prog = SpecUExpr::Call {
                target: Box::new(
                    SpecUExpr::Const(
                        SpecUValue::Lam(
                            Box::new(SpecULambda { param: x, body: SpecUExpr::Ident(x) }),
                        ),
                    ),
                ),
                argument: Box::new(SpecUExpr::Const(SpecUValue::Prim(v))),
            };
            &&& link_program(prog) is Some
            &&& eval_expr(link_program(prog)->0, Seq::empty(), fuel) == Result::<
                SpecRValue,
                EvalError,
            >::Ok(SpecRValue::Prim(v))
        }),
{
    let lam = SpecULambda { param: x, body: SpecUExpr::Ident(x) };
    let prog = SpecUExpr::Call {
        target: Box::new(SpecUExpr::Const(SpecUValue::Lam(Box::new(lam)))),
        argument: Box::new(SpecUExpr::Const(SpecUValue::Prim(v))),
    };
    let scope0 = Seq::<Seq<char>>::empty();

    // Linking: the lambda has no free names, so nothing is captured.
    let fs = free_of_lambda(lam);
    assert(free_of_expr(SpecUExpr::Ident(x)) == set![x]);
    assert(fs =~= Set::<Seq<char>>::empty());
    assert(scan_scope(scope0, fs) == (Seq::<int>::empty(), Seq::<Seq<char>>::empty(), fs));
    let inner = Seq::<Seq<char>>::empty().push(x);
    assert(inner.last() == x);
    assert(scope_lookup(inner, x) == Option::Some(0int));
    assert(link_expr(SpecUExpr::Ident(x), inner) == Option::Some(SpecLExpr::Ident(0)));
    let ll = SpecLLambda { captures: Seq::empty(), body: SpecLExpr::Ident(0) };
    assert(link_lambda(lam, scope0) == Option::Some(ll));
    assert(link_value(SpecUValue::Lam(Box::new(lam)), scope0) == Option::Some(
        SpecLValue::Lam(Box::new(ll)),
    ));
    assert(link_value(SpecUValue::Prim(v), scope0) == Option::Some(SpecLValue::Prim(v)));
    let lt = SpecLExpr::Const(SpecLValue::Lam(Box::new(ll)));
    let la = SpecLExpr::Const(SpecLValue::Prim(v));
    assert(link_expr(SpecUExpr::Const(SpecUValue::Lam(Box::new(lam))), scope0) == Option::Some(
        lt,
    ));
    assert(link_expr(SpecUExpr::Const(SpecUValue::Prim(v)), scope0) == Option::Some(la));
    let linked = SpecLExpr::Call { target: Box::new(lt), argument: Box::new(la) };
    assert(link_program(prog) == Option::Some(linked));

    // Evaluation: the closure captures nothing; its stack is the argument.
    let stack0 = Seq::<SpecRValue>::empty();
    let cl = capture_value(SpecLValue::Lam(Box::new(ll)), stack0);
    assert(cl is Ok);
    let c = cl->Ok_0->Clos_0;
    assert(c.captured.len() == 0);
    assert(eval_expr(lt, stack0, fuel) == cl);
    assert(capture_value(SpecLValue::Prim(v), stack0) == Result::<SpecRValue, EvalError>::Ok(
        SpecRValue::Prim(v),
    ));
    assert(eval_expr(la, stack0, fuel) == Result::<SpecRValue, EvalError>::Ok(
        SpecRValue::Prim(v),
    ));
    let stack1 = c.captured.push(SpecRValue::Prim(v));
    assert(eval_expr(linked, stack0, fuel) == eval_expr(c.body, stack1, (fuel - 1) as nat));
    assert(stack1[0] == SpecRValue::Prim(v));
    assert(eval_expr(SpecLExpr::Ident(0), stack1, (fuel - 1) as nat) == Result::<
        SpecRValue,
        EvalError,
    >::Ok(SpecRValue::Prim(v)));
}

/// Law: duplication is structural. Applying `x => {x, x}` to any literal
/// value yields a tuple of two independent copies of it.
#[verifier::rlimit(50)]
pub proof fn lemma_duplication(x: Seq<char>, v: Seq<char>, fuel: nat)
    requires
        fuel >= 1,
    ensures
        ({
            let body = SpecUExpr::Tuple(seq![SpecUExpr::Ident(x), SpecUExpr::Ident(x)]);
            let prog = SpecUExpr::Call {
                target: Box::new(
                    SpecUExpr::Const(
                        SpecUValue::Lam(Box::new(SpecULambda { param: x, body })),
                    ),
                ),
                argument: Box::new(SpecUExpr::Const(SpecUValue::Prim(v))),
            };
            &&& link_program(prog) is Some
            &&& eval_expr(link_program(prog)->0, Seq::empty(), fuel) == Result::<
                SpecRValue,
                EvalError,
            >::Ok(SpecRValue::Tup(seq![SpecRValue::Prim(v), SpecRValue::Prim(v)]))
        }),
{
    let es = seq![SpecUExpr::Ident(x), SpecUExpr::Ident(x)];
    let body = SpecUExpr::Tuple(es);
    let lam = SpecULambda { param: x, body };
    let prog = SpecUExpr::Call {
        target: Box::new(SpecUExpr::Const(SpecUValue::Lam(Box::new(lam)))),
        argument: Box::new(SpecUExpr::Const(SpecUValue::Prim(v))),
    };
    let scope0 = Seq::<Seq<char>>::empty();

    // Free names of the body: just the parameter.
    let e1 = seq![SpecUExpr::Ident(x)];
    assert(es.drop_last() =~= e1);
    assert(e1.drop_last() =~= Seq::<SpecUExpr>::empty());
    assert(free_of_expr(SpecUExpr::Ident(x)) == set![x]);
    assert(e1.last() == SpecUExpr::Ident(x));
    assert(es.last() == SpecUExpr::Ident(x));
    assert(free_of_exprs(Seq::<SpecUExpr>::empty()) == Set::<Seq<char>>::empty());
    assert(free_of_exprs(e1) == free_of_exprs(e1.drop_last()) + free_of_expr(e1.last()));
    assert(free_of_exprs(e1) =~= set![x]);
    assert(free_of_exprs(es) == free_of_exprs(es.drop_last()) + free_of_expr(es.last()));
    assert(free_of_exprs(es) =~= set![x]);
    let fs = free_of_lambda(lam);
    assert(fs =~= Set::<Seq<char>>::empty());
    assert(scan_scope(scope0, fs) == (Seq::<int>::empty(), Seq::<Seq<char>>::empty(), fs));

    // Linking the body against the lambda's own scope.
    let inner = Seq::<Seq<char>>::empty().push(x);
    assert(inner.last() == x);
    assert(scope_lookup(inner, x) == Option::Some(0int));
    assert(link_expr(SpecUExpr::Ident(x), inner) == Option::Some(SpecLExpr::Ident(0)));
    let l1 = seq![SpecLExpr::Ident(0)];
    let l2 = seq![SpecLExpr::Ident(0), SpecLExpr::Ident(0)];
    assert(link_exprs(Seq::<SpecUExpr>::empty(), inner) == Option::Some(
        Seq::<SpecLExpr>::empty(),
    ));
    assert(link_exprs(e1, inner) is Some);
    assert(link_exprs(e1, inner)->0 =~= l1);
    assert(link_exprs(es, inner) is Some);
    assert(link_exprs(es, inner)->0 =~= l2);
    let lbody = SpecLExpr::Tuple(l2);
    assert(link_expr(body, inner) == Option::Some(lbody));
    let ll = SpecLLambda { captures: Seq::empty(), body: lbody };
    assert(link_lambda(lam, scope0) == Option::Some(ll));
    let lt = SpecLExpr::Const(SpecLValue::Lam(Box::new(ll)));
    let la = SpecLExpr::Const(SpecLValue::Prim(v));
    let linked = SpecLExpr::Call { target: Box::new(lt), argument: Box::new(la) };
    assert(link_value(SpecUValue::Lam(Box::new(lam)), scope0) == Option::Some(
        SpecLValue::Lam(Box::new(ll)),
    ));
    assert(link_expr(SpecUExpr::Const(SpecUValue::Lam(Box::new(lam))), scope0)
        == Option::Some(lt));
    assert(link_value(SpecUValue::Prim(v), scope0) == Option::Some(SpecLValue::Prim(v)));
    assert(link_expr(SpecUExpr::Const(SpecUValue::Prim(v)), scope0) == Option::Some(la));
    assert(link_program(prog) == Option::Some(linked));

    // Evaluation: the tuple reads the argument twice, as two copies.
    let stack0 = Seq::<SpecRValue>::empty();
    let cl = capture_value(SpecLValue::Lam(Box::new(ll)), stack0);
    assert(cl is Ok);
    let c = cl->Ok_0->Clos_0;
    assert(c.captured.len() == 0);
    assert(eval_expr(lt, stack0, fuel) == cl);
    assert(eval_expr(la, stack0, fuel) == Result::<SpecRValue, EvalError>::Ok(
        SpecRValue::Prim(v),
    ));
    let stack1 = c.captured.push(SpecRValue::Prim(v));
    assert(eval_expr(linked, stack0, fuel) == eval_expr(c.body, stack1, (fuel - 1) as nat));
    assert(stack1[0] == SpecRValue::Prim(v));
    let f1 = (fuel - 1) as nat;
    assert(eval_expr(SpecLExpr::Ident(0), stack1, f1) == Result::<SpecRValue, EvalError>::Ok(
        SpecRValue::Prim(v),
    ));
    assert(l2.first() == SpecLExpr::Ident(0));
    assert(l2.drop_first() =~= l1);
    assert(l1.first() == SpecLExpr::Ident(0));
    assert(l1.drop_first() =~= Seq::<SpecLExpr>::empty());
    assert(eval_exprs(Seq::<SpecLExpr>::empty(), stack1, f1) == Result::<
        Seq<SpecRValue>,
        EvalError,
    >::Ok(Seq::<SpecRValue>::empty()));
    assert(eval_exprs(l1, stack1, f1) is Ok);
    assert(eval_exprs(l1, stack1, f1)->Ok_0 =~= seq![SpecRValue::Prim(v)]);
    assert(eval_exprs(l2, stack1, f1) is Ok);
    assert(eval_exprs(l2, stack1, f1)->Ok_0 =~= seq![SpecRValue::Prim(v), SpecRValue::Prim(v)]);
    assert(eval_expr(lbody, stack1, f1) == Result::<SpecRValue, EvalError>::Ok(
        SpecRValue::Tup(seq![SpecRValue::Prim(v), SpecRValue::Prim(v)]),
    ));
}

/// Law: capture ordering. In `x => y => {x, y}` the inner lambda captures
/// exactly one value, the nearest enclosing binding of `x` at stack
/// position 0 of its defining scope; applying the whole program to two
/// literals yields their tuple in written order.
#[verifier::rlimit(50)]
pub proof fn lemma_capture_ordering(x: Seq<char>, y: Seq<char>, a: Seq<char>, b: Seq<char>, fuel: nat)
    requires
        x != y,
        fuel >= 1,
    ensures
        ({
            let inner_body = SpecUExpr::Tuple(seq![SpecUExpr::Ident(x), SpecUExpr::Ident(y)]);
            let lam_y = SpecULambda { param: y, body: inner_body };
            let lam_x = SpecULambda {
                param: x,
                body: SpecUExpr::Const(SpecUValue::Lam(Box::new(lam_y))),
            };
            let prog = SpecUExpr::Call {
                target: Box::new(
                    SpecUExpr::Call {
                        target: Box::new(SpecUExpr::Const(SpecUValue::Lam(Box::new(lam_x)))),
                        argument: Box::new(SpecUExpr::Const(SpecUValue::Prim(a))),
                    },
                ),
                argument: Box::new(SpecUExpr::Const(SpecUValue::Prim(b))),
            };
            let ll_y = SpecLLambda {
                captures: seq![0int],
                body: SpecLExpr::Tuple(seq![SpecLExpr::Ident(0), SpecLExpr::Ident(1)]),
            };
            let ll_x = SpecLLambda {
                captures: Seq::empty(),
                body: SpecLExpr::Const(SpecLValue::Lam(Box::new(ll_y))),
            };
            let linked = SpecLExpr::Call {
                target: Box::new(
                    SpecLExpr::Call {
                        target: Box::new(SpecLExpr::Const(SpecLValue::Lam(Box::new(ll_x)))),
                        argument: Box::new(SpecLExpr::Const(SpecLValue::Prim(a))),
                    },
                ),
                argument: Box::new(SpecLExpr::Const(SpecLValue::Prim(b))),
            };
            &&& link_program(prog) == Option::Some(linked)
            &&& eval_expr(linked, Seq::empty(), fuel) == Result::<SpecRValue, EvalError>::Ok(
                SpecRValue::Tup(seq![SpecRValue::Prim(a), SpecRValue::Prim(b)]),
            )
        }),
{
    let inner_body = SpecUExpr::Tuple(seq![SpecUExpr::Ident(x), SpecUExpr::Ident(y)]);
    let lam_y = SpecULambda { param: y, body: inner_body };
    let lam_x = SpecULambda {
        param: x,
        body: SpecUExpr::Const(SpecUValue::Lam(Box::new(lam_y))),
    };
    let scope0 = Seq::<Seq<char>>::empty();

    // Free names: the inner lambda needs x from outside; the outer needs
    // nothing.
    let es = seq![SpecUExpr::Ident(x), SpecUExpr::Ident(y)];
    let e1 = seq![SpecUExpr::Ident(x)];
    assert(es.drop_last() =~= e1);
    assert(e1.drop_last() =~= Seq::<SpecUExpr>::empty());
    assert(free_of_expr(SpecUExpr::Ident(x)) == set![x]);
    assert(free_of_expr(SpecUExpr::Ident(y)) == set![y]);
    assert(e1.last() == SpecUExpr::Ident(x));
    assert(es.last() == SpecUExpr::Ident(y));
    assert(free_of_exprs(Seq::<SpecUExpr>::empty()) == Set::<Seq<char>>::empty());
    assert(free_of_exprs(e1) == free_of_exprs(e1.drop_last()) + free_of_expr(e1.last()));
    assert(free_of_exprs(e1) =~= set![x]);
    assert(free_of_exprs(es) == free_of_exprs(es.drop_last()) + free_of_expr(es.last()));
    assert(free_of_exprs(es) =~= set![x].insert(y));
    let fs_y = free_of_lambda(lam_y);
    assert(fs_y =~= set![x]);
    let fs_x = free_of_lambda(lam_x);
    assert(fs_x =~= Set::<Seq<char>>::empty());

    // Linking the outer lambda: nothing captured, scope [x] for its body.
    assert(scan_scope(scope0, fs_x) == (Seq::<int>::empty(), Seq::<Seq<char>>::empty(), fs_x));
    let sx = Seq::<Seq<char>>::empty().push(x);

    // Linking the inner lambda against [x]: the scan finds x at position 0.
    assert(sx.last() == x);
    assert(fs_y.contains(x));
    assert(sx.drop_last() =~= Seq::<Seq<char>>::empty());
    assert(scan_scope(Seq::<Seq<char>>::empty(), fs_y.remove(x)) == (
        Seq::<int>::empty(),
        Seq::<Seq<char>>::empty(),
        fs_y.remove(x),
    ));
    let scanned_y = scan_scope(sx, fs_y);
    assert(scanned_y.0 =~= seq![0int]);
    assert(scanned_y.1 =~= seq![x]);
    assert(fs_y.remove(x) =~= Set::<Seq<char>>::empty());

    // The inner body against [x, y]: x is position 0, y position 1.
    let sxy = scanned_y.1.push(y);
    assert(sxy =~= seq![x, y]);
    assert(sxy.last() == y);
    assert(sxy.drop_last() =~= seq![x]);
    assert(seq![x].last() == x);
    assert(scope_lookup(seq![x], x) == Option::Some(0int));
    assert(scope_lookup(sxy, x) == Option::Some(0int));
    assert(scope_lookup(sxy, y) == Option::Some(1int));
    assert(link_expr(SpecUExpr::Ident(x), sxy) == Option::Some(SpecLExpr::Ident(0)));
    assert(link_expr(SpecUExpr::Ident(y), sxy) == Option::Some(SpecLExpr::Ident(1)));
    let l2 = seq![SpecLExpr::Ident(0), SpecLExpr::Ident(1)];
    assert(link_exprs(Seq::<SpecUExpr>::empty(), sxy) == Option::Some(Seq::<SpecLExpr>::empty()));
    assert(link_exprs(e1, sxy) is Some);
    assert(link_exprs(e1, sxy)->0 =~= seq![SpecLExpr::Ident(0)]);
    assert(link_exprs(es, sxy) is Some);
    assert(link_exprs(es, sxy)->0 =~= l2);
    let ll_y = SpecLLambda { captures: seq![0int], body: SpecLExpr::Tuple(l2) };
    assert(scanned_y.0 == seq![0int]);
    assert(link_lambda(lam_y, sx) == Option::Some(ll_y));

    // The outer lambda's body is the inner lambda literal.
    let ll_x = SpecLLambda {
        captures: Seq::empty(),
        body: SpecLExpr::Const(SpecLValue::Lam(Box::new(ll_y))),
    };
    assert(link_expr(lam_x.body, sx) == Option::Some(ll_x.body));
    assert(link_lambda(lam_x, scope0) == Option::Some(ll_x));
    let lt = SpecLExpr::Const(SpecLValue::Lam(Box::new(ll_x)));
    let la = SpecLExpr::Const(SpecLValue::Prim(a));
    let lb = SpecLExpr::Const(SpecLValue::Prim(b));
    let inner_call = SpecLExpr::Call { target: Box::new(lt), argument: Box::new(la) };
    let linked = SpecLExpr::Call { target: Box::new(inner_call), argument: Box::new(lb) };
    let prog = SpecUExpr::Call {
        target: Box::new(
            SpecUExpr::Call {
                target: Box::new(SpecUExpr::Const(SpecUValue::Lam(Box::new(lam_x)))),
                argument: Box::new(SpecUExpr::Const(SpecUValue::Prim(a))),
            },
        ),
        argument: Box::new(SpecUExpr::Const(SpecUValue::Prim(b))),
    };
    assert(link_value(SpecUValue::Lam(Box::new(lam_x)), scope0) == Option::Some(
        SpecLValue::Lam(Box::new(ll_x)),
    ));
    assert(link_expr(SpecUExpr::Const(SpecUValue::Lam(Box::new(lam_x))), scope0)
        == Option::Some(lt));
    assert(link_value(SpecUValue::Prim(a), scope0) == Option::Some(SpecLValue::Prim(a)));
    assert(link_value(SpecUValue::Prim(b), scope0) == Option::Some(SpecLValue::Prim(b)));
    assert(link_expr(SpecUExpr::Const(SpecUValue::Prim(a)), scope0) == Option::Some(la));
    assert(link_expr(SpecUExpr::Const(SpecUValue::Prim(b)), scope0) == Option::Some(lb));
    assert(link_expr(
        SpecUExpr::Call {
            target: Box::new(SpecUExpr::Const(SpecUValue::Lam(Box::new(lam_x)))),
            argument: Box::new(SpecUExpr::Const(SpecUValue::Prim(a))),
        },
        scope0,
    ) == Option::Some(inner_call));
    assert(link_program(prog) == Option::Some(linked));

    // Evaluation: applying to `a` builds a closure carrying a copy of `a`;
    // applying that to `b` reads the copy first and the argument second.
    let stack0 = Seq::<SpecRValue>::empty();
    let cl_x = capture_value(SpecLValue::Lam(Box::new(ll_x)), stack0);
    assert(cl_x is Ok);
    let c_x = cl_x->Ok_0->Clos_0;
    assert(c_x.captured.len() == 0);
    assert(eval_expr(lt, stack0, fuel) == cl_x);
    assert(eval_expr(la, stack0, fuel) == Result::<SpecRValue, EvalError>::Ok(
        SpecRValue::Prim(a),
    ));
    let stack1 = c_x.captured.push(SpecRValue::Prim(a));
    let f1 = (fuel - 1) as nat;
    assert(eval_expr(inner_call, stack0, fuel) == eval_expr(c_x.body, stack1, f1));
    assert(stack1.len() == 1);
    assert(stack1[0] == SpecRValue::Prim(a));
    let cl_y = capture_value(SpecLValue::Lam(Box::new(ll_y)), stack1);
    assert(ll_y.captures[0] == 0);
    assert(forall|j: int|
        0 <= j < ll_y.captures.len() ==> 0 <= #[trigger] ll_y.captures[j] < stack1.len());
    assert(cl_y is Ok);
    let c_y = cl_y->Ok_0->Clos_0;
    assert(c_y.captured =~= seq![SpecRValue::Prim(a)]);
    assert(eval_expr(c_x.body, stack1, f1) == cl_y);
    assert(eval_expr(inner_call, stack0, fuel) == cl_y);
    assert(eval_expr(lb, stack0, fuel) == Result::<SpecRValue, EvalError>::Ok(
        SpecRValue::Prim(b),
    ));
    let stack2 = c_y.captured.push(SpecRValue::Prim(b));
    assert(eval_expr(linked, stack0, fuel) == eval_expr(c_y.body, stack2, f1));
    assert(stack2.len() == 2);
    assert(stack2[0] == SpecRValue::Prim(a));
    assert(stack2[1] == SpecRValue::Prim(b));
    assert(eval_expr(SpecLExpr::Ident(0), stack2, f1) == Result::<SpecRValue, EvalError>::Ok(
        SpecRValue::Prim(a),
    ));
    assert(eval_expr(SpecLExpr::Ident(1), stack2, f1) == Result::<SpecRValue, EvalError>::Ok(
        SpecRValue::Prim(b),
    ));
    assert(l2.first() == SpecLExpr::Ident(0));
    assert(l2.drop_first() =~= seq![SpecLExpr::Ident(1)]);
    assert(seq![SpecLExpr::Ident(1)].first() == SpecLExpr::Ident(1));
    assert(seq![SpecLExpr::Ident(1)].drop_first() =~= Seq::<SpecLExpr>::empty());
    assert(eval_exprs(Seq::<SpecLExpr>::empty(), stack2, f1) == Result::<
        Seq<SpecRValue>,
        EvalError,
    >::Ok(Seq::<SpecRValue>::empty()));
    assert(eval_exprs(seq![SpecLExpr::Ident(1)], stack2, f1) is Ok);
    assert(eval_exprs(seq![SpecLExpr::Ident(1)], stack2, f1)->Ok_0 =~= seq![
        SpecRValue::Prim(b),
    ]);
    assert(eval_exprs(l2, stack2, f1) is Ok);
    assert(eval_exprs(l2, stack2, f1)->Ok_0 =~= seq![SpecRValue::Prim(a), SpecRValue::Prim(b)]);
    assert(eval_expr(c_y.body, stack2, f1) == Result::<SpecRValue, EvalError>::Ok(
        SpecRValue::Tup(seq![SpecRValue::Prim(a), SpecRValue::Prim(b)]),
    ));
}

/// Law: shadowing resolves innermost-wins. In `x => (x => x) x` the inner
/// `x` is the inner parameter, so applying the whole program to any literal
/// value yields that value.
#[verifier::rlimit(50)]
pub proof fn lemma_shadowing(x: Seq<char>, a: Seq<char>, fuel: nat)
    requires
        fuel >= 2,
    ensures
        ({
            let lam_in = SpecULambda { param: x, body: SpecUExpr::Ident(x) };
            let lam_out = SpecULambda {
                param: x,
                body: SpecUExpr::Call {
                    target: Box::new(SpecUExpr::Const(SpecUValue::Lam(Box::new(lam_in)))),
                    argument: Box::new(SpecUExpr::Ident(x)),
                },
            };
            let prog = SpecUExpr::Call {
                target: Box::new(SpecUExpr::Const(SpecUValue::Lam(Box::new(lam_out)))),
                argument: Box::new(SpecUExpr::Const(SpecUValue::Prim(a))),
            };
            &&& link_program(prog) is Some
            &&& eval_expr(link_program(prog)->0, Seq::empty(), fuel) == Result::<
                SpecRValue,
                EvalError,
            >::Ok(SpecRValue::Prim(a))
        }),
{
    let lam_in = SpecULambda { param: x, body: SpecUExpr::Ident(x) };
    let lam_out = SpecULambda {
        param: x,
        body: SpecUExpr::Call {
            target: Box::new(SpecUExpr::Const(SpecUValue::Lam(Box::new(lam_in)))),
            argument: Box::new(SpecUExpr::Ident(x)),
        },
    };
    let prog = SpecUExpr::Call {
        target: Box::new(SpecUExpr::Const(SpecUValue::Lam(Box::new(lam_out)))),
        argument: Box::new(SpecUExpr::Const(SpecUValue::Prim(a))),
    };
    let scope0 = Seq::<Seq<char>>::empty();

    // Free names: the inner lambda closes over nothing; the outer body
    // needs only its own parameter.
    let fs_in = free_of_lambda(lam_in);
    assert(fs_in =~= Set::<Seq<char>>::empty());
    let fs_out = free_of_lambda(lam_out);
    assert(free_of_value(SpecUValue::Lam(Box::new(lam_in))) == free_of_lambda(lam_in));
    assert(free_of_expr(SpecUExpr::Const(SpecUValue::Lam(Box::new(lam_in)))) == free_of_lambda(
        lam_in,
    ));
    assert(free_of_expr(SpecUExpr::Ident(x)) == set![x]);
    assert(free_of_expr(lam_out.body) =~= set![x]);
    assert(fs_out =~= Set::<Seq<char>>::empty());

    // Linking: both lambdas capture nothing; each body resolves x to the
    // last entry of its own scope.
    assert(scan_scope(scope0, fs_out) == (Seq::<int>::empty(), Seq::<Seq<char>>::empty(), fs_out));
    let sx = Seq::<Seq<char>>::empty().push(x);
    assert(sx.last() == x);
    assert(scope_lookup(sx, x) == Option::Some(0int));
    assert(scan_scope(sx, fs_in) == scan_scope(sx.drop_last(), fs_in));
    assert(sx.drop_last() =~= Seq::<Seq<char>>::empty());
    assert(scan_scope(Seq::<Seq<char>>::empty(), fs_in) == (
        Seq::<int>::empty(),
        Seq::<Seq<char>>::empty(),
        fs_in,
    ));
    let inner_scope = Seq::<Seq<char>>::empty().push(x);
    assert(link_expr(SpecUExpr::Ident(x), inner_scope) == Option::Some(SpecLExpr::Ident(0)));
    let ll_in = SpecLLambda { captures: Seq::empty(), body: SpecLExpr::Ident(0) };
    assert(link_lambda(lam_in, sx) == Option::Some(ll_in));
    let lbody = SpecLExpr::Call {
        target: Box::new(SpecLExpr::Const(SpecLValue::Lam(Box::new(ll_in)))),
        argument: Box::new(SpecLExpr::Ident(0)),
    };
    assert(link_value(SpecUValue::Lam(Box::new(lam_in)), sx) == Option::Some(
        SpecLValue::Lam(Box::new(ll_in)),
    ));
    assert(link_expr(SpecUExpr::Const(SpecUValue::Lam(Box::new(lam_in))), sx) == Option::Some(
        SpecLExpr::Const(SpecLValue::Lam(Box::new(ll_in))),
    ));
    assert(link_expr(lam_out.body, sx) == Option::Some(lbody));
    let ll_out = SpecLLambda { captures: Seq::empty(), body: lbody };
    assert(link_lambda(lam_out, scope0) == Option::Some(ll_out));
    let lt = SpecLExpr::Const(SpecLValue::Lam(Box::new(ll_out)));
    let la = SpecLExpr::Const(SpecLValue::Prim(a));
    let linked = SpecLExpr::Call { target: Box::new(lt), argument: Box::new(la) };
    assert(link_value(SpecUValue::Lam(Box::new(lam_out)), scope0) == Option::Some(
        SpecLValue::Lam(Box::new(ll_out)),
    ));
    assert(link_expr(SpecUExpr::Const(SpecUValue::Lam(Box::new(lam_out))), scope0)
        == Option::Some(lt));
    assert(link_value(SpecUValue::Prim(a), scope0) == Option::Some(SpecLValue::Prim(a)));
    assert(link_expr(SpecUExpr::Const(SpecUValue::Prim(a)), scope0) == Option::Some(la));
    assert(link_program(prog) == Option::Some(linked));

    // Evaluation: the outer frame holds `a`; the inner identity receives
    // `a` and returns it from its own frame.
    let stack0 = Seq::<SpecRValue>::empty();
    let cl_out = capture_value(SpecLValue::Lam(Box::new(ll_out)), stack0);
    assert(cl_out is Ok);
    let c_out = cl_out->Ok_0->Clos_0;
    assert(c_out.captured.len() == 0);
    assert(eval_expr(lt, stack0, fuel) == cl_out);
    assert(eval_expr(la, stack0, fuel) == Result::<SpecRValue, EvalError>::Ok(
        SpecRValue::Prim(a),
    ));
    let stack1 = c_out.captured.push(SpecRValue::Prim(a));
    let f1 = (fuel - 1) as nat;
    assert(eval_expr(linked, stack0, fuel) == eval_expr(c_out.body, stack1, f1));
    assert(stack1.len() == 1);
    assert(stack1[0] == SpecRValue::Prim(a));
    let cl_in = capture_value(SpecLValue::Lam(Box::new(ll_in)), stack1);
    assert(cl_in is Ok);
    let c_in = cl_in->Ok_0->Clos_0;
    assert(c_in.captured.len() == 0);
    assert(eval_expr(SpecLExpr::Const(SpecLValue::Lam(Box::new(ll_in))), stack1, f1) == cl_in);
    assert(eval_expr(SpecLExpr::Ident(0), stack1, f1) == Result::<SpecRValue, EvalError>::Ok(
        SpecRValue::Prim(a),
    ));
    let stack2 = c_in.captured.push(SpecRValue::Prim(a));
    let f2 = (f1 - 1) as nat;
    assert(eval_expr(c_out.body, stack1, f1) == eval_expr(c_in.body, stack2, f2));
    assert(stack2[0] == SpecRValue::Prim(a));
    assert(eval_expr(SpecLExpr::Ident(0), stack2, f2) == Result::<SpecRValue, EvalError>::Ok(
        SpecRValue::Prim(a),
    ));
}

/// Law: an unbound top-level identifier never links: a bare identifier
/// against the empty outer scope is an unbound-identifier error, never a
/// silent success.
pub proof fn lemma_unbound_top_level(z: Seq<char>)
    ensures
        link_program(SpecUExpr::Ident(z)) is None,
{
    assert(scope_lookup(Seq::<Seq<char>>::empty(), z) is None);
}

// ------------------------------------------------------------------
// Tuple evaluation order.
// ------------------------------------------------------------------

/// Law: tuple fields evaluate left to right and their results keep that
/// order: when a field sequence evaluates successfully, its i-th result is
/// exactly the evaluation of its i-th field.
pub proof fn lemma_tuple_order(es: Seq<SpecLExpr>, stack: Seq<SpecRValue>, fuel: nat)
    requires
        eval_exprs(es, stack, fuel) is Ok,
    ensures
        eval_exprs(es, stack, fuel)->Ok_0.len() == es.len(),
        forall|k: int|
            0 <= k < es.len() ==> eval_expr(#[trigger] es[k], stack, fuel) == Result::<
                SpecRValue,
                EvalError,
            >::Ok(eval_exprs(es, stack, fuel)->Ok_0[k]),
    decreases es,
{
    if es.len() > 0 {
        lemma_tuple_order(es.drop_first(), stack, fuel);
        let rs = eval_exprs(es, stack, fuel)->Ok_0;
        let rest = eval_exprs(es.drop_first(), stack, fuel)->Ok_0;
        assert forall|k: int| 0 <= k < es.len() implies eval_expr(
            #[trigger] es[k],
            stack,
            fuel,
        ) == Result::<SpecRValue, EvalError>::Ok(rs[k]) by {
            if k == 0 {
                assert(es.first() == es[0]);
                assert(rs[0] == eval_expr(es[0], stack, fuel)->Ok_0);
            } else {
                assert(es.drop_first()[k - 1] == es[k]);
                assert(rs[k] == rest[k - 1]);
            }
        }
    }
}

} // verus!
