//! The mathematical model of the language: ghost syntax trees for the three
//! phases (name-based, stack-resolved, runtime), the free-name analysis, the
//! linking algorithm and the fuelled evaluator, all as specification
//! functions. The executable code in the sibling modules is proved to agree
//! with these definitions.

use vstd::prelude::*;

verus! {

// ------------------------------------------------------------------
// Unresolved programs: identifiers are names, lambdas bind a name.
// ------------------------------------------------------------------

/// A lambda before scope resolution: one named parameter and a body that may
/// refer to names bound by enclosing lambdas.
pub struct SpecULambda {
    pub param: Seq<char>,
    pub body: SpecUExpr,
}

/// A literal value embedded in an unresolved program.
pub enum SpecUValue {
    Prim(Seq<char>),
    Lam(Box<SpecULambda>),
    Tup(Seq<SpecUValue>),
}

/// An unresolved expression: variable references carry names.
pub enum SpecUExpr {
    Const(SpecUValue),
    Ident(Seq<char>),
    Call { target: Box<SpecUExpr>, argument: Box<SpecUExpr> },
    Tuple(Seq<SpecUExpr>),
}

// ------------------------------------------------------------------
// Linked programs: identifiers are stack offsets, lambdas carry an
// ordered capture list of offsets into the defining scope's stack.
// ------------------------------------------------------------------

/// A closure-converted lambda: `captures` lists, for each free variable the
/// lambda needs, its position in the defining scope's runtime stack (base
/// index 0 = oldest entry), ordered by discovery while scanning that scope
/// from the innermost binding outward. The body refers to positions in the
/// lambda's own stack: the captured values followed by the bound argument.
pub struct SpecLLambda {
    pub captures: Seq<int>,
    pub body: SpecLExpr,
}

/// A literal value embedded in a linked program.
pub enum SpecLValue {
    Prim(Seq<char>),
    Lam(Box<SpecLLambda>),
    Tup(Seq<SpecLValue>),
}

/// A linked expression: variable references are in-range stack offsets.
pub enum SpecLExpr {
    Const(SpecLValue),
    Ident(int),
    Call { target: Box<SpecLExpr>, argument: Box<SpecLExpr> },
    Tuple(Seq<SpecLExpr>),
}

// ------------------------------------------------------------------
// Runtime values: a lambda literal evaluates to a closure that owns
// copies of the values it captured from the stack it was created on.
// ------------------------------------------------------------------

/// A closure: the captured values (in capture-list order) plus the body to
/// run. Calling it evaluates the body against the stack `captured + [arg]`,
/// independent of any other stack.
pub struct SpecClosure {
    pub captured: Seq<SpecRValue>,
    pub body: SpecLExpr,
}

/// A runtime value.
pub enum SpecRValue {
    Prim(Seq<char>),
    Clos(Box<SpecClosure>),
    Tup(Seq<SpecRValue>),
}

/// How evaluation fails. A program that the linker accepted only ever runs
/// out of fuel or calls a non-function; an out-of-range stack offset means
/// the tree did not come from the linker.
#[derive(Clone, Copy, Debug, PartialEq, Eq, Structural)]
pub enum EvalError {
    /// The target of a call evaluated to something other than a lambda.
    TypeMismatch,
    /// A stack offset was out of range for the stack it was read against.
    InternalConsistency,
    /// The nesting of lambda invocations exceeded the fuel given to `eval`.
    ResourceExhausted,
}

// ------------------------------------------------------------------
// Free-name analysis.
// ------------------------------------------------------------------

/// The names referenced inside `e` that no lambda within `e` binds.
pub open spec fn free_of_expr(e: SpecUExpr) -> Set<Seq<char>>
    decreases e,
{
    match e {
        SpecUExpr::Const(v) => free_of_value(v),
        SpecUExpr::Ident(n) => set![n],
        SpecUExpr::Call { target, argument } => free_of_expr(*target) + free_of_expr(*argument),
        SpecUExpr::Tuple(es) => free_of_exprs(es),
    }
}

pub open spec fn free_of_exprs(es: Seq<SpecUExpr>) -> Set<Seq<char>>
    decreases es,
{
    if es.len() == 0 {
        Set::empty()
    } else {
        free_of_exprs(es.drop_last()) + free_of_expr(es.last())
    }
}

pub open spec fn free_of_value(v: SpecUValue) -> Set<Seq<char>>
    decreases v,
{
    match v {
        SpecUValue::Prim(_) => Set::empty(),
        SpecUValue::Lam(l) => free_of_lambda(*l),
        SpecUValue::Tup(vs) => free_of_values(vs),
    }
}

pub open spec fn free_of_values(vs: Seq<SpecUValue>) -> Set<Seq<char>>
    decreases vs,
{
    if vs.len() == 0 {
        Set::empty()
    } else {
        free_of_values(vs.drop_last()) + free_of_value(vs.last())
    }
}

/// The free names of a lambda: the free names of its body, minus the name
/// the lambda itself binds.
pub open spec fn free_of_lambda(l: SpecULambda) -> Set<Seq<char>>
    decreases l,
{
    free_of_expr(l.body).remove(l.param)
}

// ------------------------------------------------------------------
// The linker.
//
// A scope is the ordered sequence of names currently bound, outermost
// first; position i in the scope is position i on the runtime stack
// the expression will be evaluated against.
// ------------------------------------------------------------------

/// The stack position of the innermost (rightmost) binding of `n`, if any:
/// shadowing resolves innermost-wins.
pub open spec fn scope_lookup(scope: Seq<Seq<char>>, n: Seq<char>) -> Option<int>
    decreases scope.len(),
{
    if scope.len() == 0 {
        Option::None
    } else if scope.last() == n {
        Option::Some(scope.len() - 1)
    } else {
        scope_lookup(scope.drop_last(), n)
    }
}

/// The capture scan of the linker: walk `scope` from the innermost binding
/// outward; each name still wanted by `fs` is removed from `fs`, its stack
/// position appended to the capture list and the name itself appended to the
/// captured-name list, both in discovery order (innermost binding first).
/// Returns the capture positions, the captured names and the names of `fs`
/// that the scope does not bind.
pub open spec fn scan_scope(scope: Seq<Seq<char>>, fs: Set<Seq<char>>) -> (Seq<int>, Seq<
    Seq<char>,
>, Set<Seq<char>>)
    decreases scope.len(),
{
    if scope.len() == 0 {
        (Seq::empty(), Seq::empty(), fs)
    } else {
        let n = scope.last();
        if fs.contains(n) {
            let rest = scan_scope(scope.drop_last(), fs.remove(n));
            (seq![scope.len() - 1] + rest.0, seq![n] + rest.1, rest.2)
        } else {
            scan_scope(scope.drop_last(), fs)
        }
    }
}

/// Links one lambda against the scope it appears in: captures every free
/// name from the enclosing scope, then resolves the body against the
/// lambda's own scope (the captured names followed by the parameter).
/// `None` means some free name has no binding in the scope.
pub open spec fn link_lambda(l: SpecULambda, scope: Seq<Seq<char>>) -> Option<SpecLLambda>
    decreases l,
{
    let scanned = scan_scope(scope, free_of_lambda(l));
    if scanned.2 != Set::<Seq<char>>::empty() {
        Option::None
    } else {
        match link_expr(l.body, scanned.1.push(l.param)) {
            Option::Some(b) => Option::Some(SpecLLambda { captures: scanned.0, body: b }),
            Option::None => Option::None,
        }
    }
}

/// Links one expression against a scope, resolving every identifier to the
/// position of its innermost binding.
pub open spec fn link_expr(e: SpecUExpr, scope: Seq<Seq<char>>) -> Option<SpecLExpr>
    decreases e,
{
    match e {
        SpecUExpr::Const(v) => match link_value(v, scope) {
            Option::Some(lv) => Option::Some(SpecLExpr::Const(lv)),
            Option::None => Option::None,
        },
        SpecUExpr::Ident(n) => match scope_lookup(scope, n) {
            Option::Some(i) => Option::Some(SpecLExpr::Ident(i)),
            Option::None => Option::None,
        },
        SpecUExpr::Call { target, argument } => match (
            link_expr(*target, scope),
            link_expr(*argument, scope),
        ) {
            (Option::Some(t), Option::Some(a)) => Option::Some(
                SpecLExpr::Call { target: Box::new(t), argument: Box::new(a) },
            ),
            _ => Option::None,
        },
        SpecUExpr::Tuple(es) => match link_exprs(es, scope) {
            Option::Some(ls) => Option::Some(SpecLExpr::Tuple(ls)),
            Option::None => Option::None,
        },
    }
}

pub open spec fn link_exprs(es: Seq<SpecUExpr>, scope: Seq<Seq<char>>) -> Option<Seq<SpecLExpr>>
    decreases es,
{
    if es.len() == 0 {
        Option::Some(Seq::empty())
    } else {
        match (link_exprs(es.drop_last(), scope), link_expr(es.last(), scope)) {
            (Option::Some(ls), Option::Some(le)) => Option::Some(ls.push(le)),
            _ => Option::None,
        }
    }
}

pub open spec fn link_value(v: SpecUValue, scope: Seq<Seq<char>>) -> Option<SpecLValue>
    decreases v,
{
    match v {
        SpecUValue::Prim(s) => Option::Some(SpecLValue::Prim(s)),
        SpecUValue::Lam(l) => match link_lambda(*l, scope) {
            Option::Some(ll) => Option::Some(SpecLValue::Lam(Box::new(ll))),
            Option::None => Option::None,
        },
        SpecUValue::Tup(vs) => match link_values(vs, scope) {
            Option::Some(ls) => Option::Some(SpecLValue::Tup(ls)),
            Option::None => Option::None,
        },
    }
}

pub open spec fn link_values(vs: Seq<SpecUValue>, scope: Seq<Seq<char>>) -> Option<
    Seq<SpecLValue>,
>
    decreases vs,
{
    if vs.len() == 0 {
        Option::Some(Seq::empty())
    } else {
        match (link_values(vs.drop_last(), scope), link_value(vs.last(), scope)) {
            (Option::Some(ls), Option::Some(lv)) => Option::Some(ls.push(lv)),
            _ => Option::None,
        }
    }
}

/// The top-level entry point: a whole program is linked against the empty
/// scope, so any remaining free identifier is an unbound-identifier error.
pub open spec fn link_program(e: SpecUExpr) -> Option<SpecLExpr> {
    link_expr(e, Seq::empty())
}

// ------------------------------------------------------------------
// The evaluator.
//
// Evaluation is a recursive walk of a linked tree against a runtime
// stack. Only lambda invocation consumes fuel: a program whose call
// nesting exceeds the fuel fails with ResourceExhausted, mirroring
// exhaustion of a real call stack.
// ------------------------------------------------------------------

/// Turns a literal from a linked tree into a runtime value against the
/// current stack: a lambda literal becomes a closure owning copies of the
/// values at its capture positions.
pub open spec fn capture_value(v: SpecLValue, stack: Seq<SpecRValue>) -> Result<
    SpecRValue,
    EvalError,
>
    decreases v,
{
    match v {
        SpecLValue::Prim(s) => Result::Ok(SpecRValue::Prim(s)),
        SpecLValue::Lam(l) => {
            if forall|j: int| 0 <= j < l.captures.len() ==> 0 <= #[trigger] l.captures[j]
                < stack.len() {
                Result::Ok(
                    SpecRValue::Clos(
                        Box::new(
                            SpecClosure {
                                captured: Seq::new(l.captures.len(), |j: int| stack[l.captures[j]]),
                                body: l.body,
                            },
                        ),
                    ),
                )
            } else {
                Result::Err(EvalError::InternalConsistency)
            }
        },
        SpecLValue::Tup(vs) => match capture_values(vs, stack) {
            Result::Ok(rs) => Result::Ok(SpecRValue::Tup(rs)),
            Result::Err(e) => Result::Err(e),
        },
    }
}

pub open spec fn capture_values(vs: Seq<SpecLValue>, stack: Seq<SpecRValue>) -> Result<
    Seq<SpecRValue>,
    EvalError,
>
    decreases vs,
{
    if vs.len() == 0 {
        Result::Ok(Seq::empty())
    } else {
        match capture_value(vs.first(), stack) {
            Result::Ok(r) => match capture_values(vs.drop_first(), stack) {
                Result::Ok(rs) => Result::Ok(seq![r] + rs),
                Result::Err(e) => Result::Err(e),
            },
            Result::Err(e) => Result::Err(e),
        }
    }
}

/// Evaluates a linked expression against a stack. `Const` duplicates the
/// literal (capturing for lambdas), `Ident` duplicates the stack entry at
/// its offset, `Call` requires the target to reduce to a closure and then
/// runs its body on a fresh stack of the captured values plus the argument,
/// and `Tuple` evaluates its fields left to right.
pub open spec fn eval_expr(e: SpecLExpr, stack: Seq<SpecRValue>, fuel: nat) -> Result<
    SpecRValue,
    EvalError,
>
    decreases fuel, e,
{
    match e {
        SpecLExpr::Const(v) => capture_value(v, stack),
        SpecLExpr::Ident(i) => {
            if 0 <= i < stack.len() {
                Result::Ok(stack[i])
            } else {
                Result::Err(EvalError::InternalConsistency)
            }
        },
        SpecLExpr::Call { target, argument } => match eval_expr(*target, stack, fuel) {
            Result::Ok(f) => match f {
                SpecRValue::Clos(c) => match eval_expr(*argument, stack, fuel) {
                    Result::Ok(a) => {
                        if fuel == 0 {
                            Result::Err(EvalError::ResourceExhausted)
                        } else {
                            eval_expr(c.body, c.captured.push(a), (fuel - 1) as nat)
                        }
                    },
                    Result::Err(err) => Result::Err(err),
                },
                _ => Result::Err(EvalError::TypeMismatch),
            },
            Result::Err(err) => Result::Err(err),
        },
        SpecLExpr::Tuple(es) => match eval_exprs(es, stack, fuel) {
            Result::Ok(rs) => Result::Ok(SpecRValue::Tup(rs)),
            Result::Err(err) => Result::Err(err),
        },
    }
}

/// Evaluates a sequence of fields left to right; the first failure wins.
pub open spec fn eval_exprs(es: Seq<SpecLExpr>, stack: Seq<SpecRValue>, fuel: nat) -> Result<
    Seq<SpecRValue>,
    EvalError,
>
    decreases fuel, es,
{
    if es.len() == 0 {
        Result::Ok(Seq::empty())
    } else {
        match eval_expr(es.first(), stack, fuel) {
            Result::Ok(r) => match eval_exprs(es.drop_first(), stack, fuel) {
                Result::Ok(rs) => Result::Ok(seq![r] + rs),
                Result::Err(err) => Result::Err(err),
            },
            Result::Err(err) => Result::Err(err),
        }
    }
}

/// Invokes a closure on an argument: its body runs against a fresh stack of
/// the captured values followed by the argument, independent of any caller.
pub open spec fn apply_closure(c: SpecClosure, arg: SpecRValue, fuel: nat) -> Result<
    SpecRValue,
    EvalError,
> {
    eval_expr(c.body, c.captured.push(arg), fuel)
}

/// Invokes a closure template directly against its defining stack: copies
/// the value at each capture position, appends the argument, and runs the
/// body on that fresh stack.
pub open spec fn apply_lambda(
    l: SpecLLambda,
    outer: Seq<SpecRValue>,
    arg: SpecRValue,
    fuel: nat,
) -> Result<SpecRValue, EvalError> {
    if forall|j: int| 0 <= j < l.captures.len() ==> 0 <= #[trigger] l.captures[j] < outer.len() {
        eval_expr(l.body, Seq::new(l.captures.len(), |j: int| outer[l.captures[j]]).push(arg), fuel)
    } else {
        Result::Err(EvalError::InternalConsistency)
    }
}

// ------------------------------------------------------------------
// Well-formedness of linked trees and runtime values: every stack
// offset is in range for the stack it will be read against. The
// linker establishes this and evaluation preserves it, which is what
// makes an out-of-range offset at run time a linker defect.
// ------------------------------------------------------------------

/// Every offset in `e` is in range for the stack it runs against: `n` slots
/// for `e` itself, and each lambda's own captures-plus-argument stack for
/// its body.
pub open spec fn lexpr_wf(e: SpecLExpr, n: int) -> bool
    decreases e,
{
    match e {
        SpecLExpr::Const(v) => lvalue_wf(v, n),
        SpecLExpr::Ident(i) => 0 <= i < n,
        SpecLExpr::Call { target, argument } => lexpr_wf(*target, n) && lexpr_wf(*argument, n),
        SpecLExpr::Tuple(es) => forall|k: int|
            0 <= k < es.len() ==> lexpr_wf(#[trigger] es[k], n),
    }
}

pub open spec fn lvalue_wf(v: SpecLValue, n: int) -> bool
    decreases v,
{
    match v {
        SpecLValue::Prim(_) => true,
        SpecLValue::Lam(l) => llam_wf(*l, n),
        SpecLValue::Tup(vs) => forall|k: int|
            0 <= k < vs.len() ==> lvalue_wf(#[trigger] vs[k], n),
    }
}

/// A lambda's captures point into its defining stack of `n` slots, and its
/// body runs against its own stack of the captures plus the argument.
pub open spec fn llam_wf(l: SpecLLambda, n: int) -> bool
    decreases l,
{
    &&& forall|k: int| 0 <= k < l.captures.len() ==> 0 <= #[trigger] l.captures[k] < n
    &&& lexpr_wf(l.body, l.captures.len() as int + 1)
}

/// A runtime value is well formed when every closure in it carries a body
/// whose offsets fit its own captured-plus-argument stack.
pub open spec fn rval_wf(v: SpecRValue) -> bool
    decreases v,
{
    match v {
        SpecRValue::Prim(_) => true,
        SpecRValue::Clos(c) => clos_wf(*c),
        SpecRValue::Tup(vs) => forall|k: int| 0 <= k < vs.len() ==> rval_wf(#[trigger] vs[k]),
    }
}

pub open spec fn clos_wf(c: SpecClosure) -> bool
    decreases c,
{
    &&& forall|k: int| 0 <= k < c.captured.len() ==> rval_wf(#[trigger] c.captured[k])
    &&& lexpr_wf(c.body, c.captured.len() as int + 1)
}

/// A whole runtime stack of well-formed values.
pub open spec fn rstack_wf(stack: Seq<SpecRValue>) -> bool {
    forall|k: int| 0 <= k < stack.len() ==> rval_wf(#[trigger] stack[k])
}

// ------------------------------------------------------------------
// Characterisations of the recursive definitions above, used both by
// the executable code and by the laws.
// ------------------------------------------------------------------

/// A name is free in a field sequence exactly when it is free in a field.
pub proof fn lemma_free_of_exprs_contains(es: Seq<SpecUExpr>, n: Seq<char>)
    ensures
        free_of_exprs(es).contains(n) <==> exists|i: int|
            0 <= i < es.len() && #[trigger] free_of_expr(es[i]).contains(n),
    decreases es,
{
    if es.len() > 0 {
        lemma_free_of_exprs_contains(es.drop_last(), n);
        if free_of_exprs(es).contains(n) {
            if free_of_expr(es.last()).contains(n) {
                assert(free_of_expr(es[es.len() - 1]).contains(n));
            }
        }
        if exists|i: int| 0 <= i < es.len() && #[trigger] free_of_expr(es[i]).contains(n) {
            let i = choose|i: int| 0 <= i < es.len() && #[trigger] free_of_expr(es[i]).contains(n);
            if i < es.len() - 1 {
                assert(free_of_expr(es.drop_last()[i]).contains(n));
            }
        }
    }
}

/// A name is free in a value sequence exactly when it is free in an element.
pub proof fn lemma_free_of_values_contains(vs: Seq<SpecUValue>, n: Seq<char>)
    ensures
        free_of_values(vs).contains(n) <==> exists|i: int|
            0 <= i < vs.len() && #[trigger] free_of_value(vs[i]).contains(n),
    decreases vs,
{
    if vs.len() > 0 {
        lemma_free_of_values_contains(vs.drop_last(), n);
        if free_of_values(vs).contains(n) {
            if free_of_value(vs.last()).contains(n) {
                assert(free_of_value(vs[vs.len() - 1]).contains(n));
            }
        }
        if exists|i: int| 0 <= i < vs.len() && #[trigger] free_of_value(vs[i]).contains(n) {
            let i = choose|i: int| 0 <= i < vs.len() && #[trigger] free_of_value(vs[i]).contains(n);
            if i < vs.len() - 1 {
                assert(free_of_value(vs.drop_last()[i]).contains(n));
            }
        }
    }
}

/// Scope lookup succeeds exactly on the names the scope binds, and returns
/// the position of the innermost binding.
pub proof fn lemma_scope_lookup(scope: Seq<Seq<char>>, n: Seq<char>)
    ensures
        (scope_lookup(scope, n) is Some) <==> scope.contains(n),
        scope_lookup(scope, n) matches Option::Some(i) ==> 0 <= i < scope.len() && scope[i] == n
            && (forall|j: int| i < j < scope.len() ==> scope[j] != n),
    decreases scope.len(),
{
    if scope.len() > 0 {
        lemma_scope_lookup(scope.drop_last(), n);
        if scope.last() != n {
            if scope.contains(n) {
                let i = choose|i: int| 0 <= i < scope.len() && scope[i] == n;
                assert(scope.drop_last()[i] == n);
                assert(scope.drop_last().contains(n));
            }
            if scope.drop_last().contains(n) {
                let i = choose|i: int| 0 <= i < scope.drop_last().len() && scope.drop_last()[i]
                    == n;
                assert(scope[i] == n);
            }
            if scope_lookup(scope.drop_last(), n) is Some {
                let i = scope_lookup(scope.drop_last(), n)->0;
                assert(scope.drop_last()[i] == n);
                assert(scope[i] == n);
                assert forall|j: int| i < j < scope.len() implies scope[j] != n by {
                    if j < scope.len() - 1 {
                        assert(scope.drop_last()[j] != n);
                    }
                }
            }
        }
    }
}

/// If any field fails to link, the field sequence fails to link.
pub proof fn lemma_link_exprs_none(es: Seq<SpecUExpr>, scope: Seq<Seq<char>>, i: int)
    requires
        0 <= i < es.len(),
        link_expr(es[i], scope) is None,
    ensures
        link_exprs(es, scope) is None,
    decreases es,
{
    if i < es.len() - 1 {
        assert(es.drop_last()[i] == es[i]);
        lemma_link_exprs_none(es.drop_last(), scope, i);
    }
}

/// If any element fails to link, the value sequence fails to link.
pub proof fn lemma_link_values_none(vs: Seq<SpecUValue>, scope: Seq<Seq<char>>, i: int)
    requires
        0 <= i < vs.len(),
        link_value(vs[i], scope) is None,
    ensures
        link_values(vs, scope) is None,
    decreases vs,
{
    if i < vs.len() - 1 {
        assert(vs.drop_last()[i] == vs[i]);
        lemma_link_values_none(vs.drop_last(), scope, i);
    }
}

/// Splits the left-to-right evaluation of fields at position `i`: once the
/// first `i` fields evaluate successfully, the whole sequence behaves as
/// those results followed by the evaluation of the rest.
pub proof fn lemma_eval_exprs_split(
    es: Seq<SpecLExpr>,
    stack: Seq<SpecRValue>,
    fuel: nat,
    i: int,
)
    requires
        0 <= i <= es.len(),
        eval_exprs(es.take(i), stack, fuel) is Ok,
    ensures
        eval_exprs(es, stack, fuel) == match eval_exprs(es.skip(i), stack, fuel) {
            Result::Ok(rs) => Result::Ok(eval_exprs(es.take(i), stack, fuel)->Ok_0 + rs),
            Result::Err(e) => Result::<Seq<SpecRValue>, EvalError>::Err(e),
        },
    decreases i,
{
    if i == 0 {
        assert(es.skip(0) =~= es);
        assert(es.take(0) =~= Seq::<SpecLExpr>::empty());
        match eval_exprs(es, stack, fuel) {
            Result::Ok(rs) => {
                assert(Seq::<SpecRValue>::empty() + rs =~= rs);
            },
            Result::Err(_) => {},
        }
    } else {
        let t = es.take(i);
        assert(t.first() == es[0]);
        assert(t.drop_first() =~= es.skip(1).take(i - 1));
        assert(es.skip(1).skip(i - 1) =~= es.skip(i));
        match eval_expr(es[0], stack, fuel) {
            Result::Ok(r) => {
                lemma_eval_exprs_split(es.skip(1), stack, fuel, i - 1);
                match eval_exprs(es.skip(i), stack, fuel) {
                    Result::Ok(rs) => {
                        assert(seq![r] + (eval_exprs(es.skip(1).take(i - 1), stack, fuel)->Ok_0
                            + rs) =~= (seq![r] + eval_exprs(es.skip(1).take(i - 1), stack,
                        fuel)->Ok_0) + rs);
                    },
                    Result::Err(_) => {},
                }
            },
            Result::Err(_) => {},
        }
    }
}

/// Splits the conversion of literal fields the same way.
pub proof fn lemma_capture_values_split(
    vs: Seq<SpecLValue>,
    stack: Seq<SpecRValue>,
    i: int,
)
    requires
        0 <= i <= vs.len(),
        capture_values(vs.take(i), stack) is Ok,
    ensures
        capture_values(vs, stack) == match capture_values(vs.skip(i), stack) {
            Result::Ok(rs) => Result::Ok(capture_values(vs.take(i), stack)->Ok_0 + rs),
            Result::Err(e) => Result::<Seq<SpecRValue>, EvalError>::Err(e),
        },
    decreases i,
{
    if i == 0 {
        assert(vs.skip(0) =~= vs);
        assert(vs.take(0) =~= Seq::<SpecLValue>::empty());
        match capture_values(vs, stack) {
            Result::Ok(rs) => {
                assert(Seq::<SpecRValue>::empty() + rs =~= rs);
            },
            Result::Err(_) => {},
        }
    } else {
        let t = vs.take(i);
        assert(t.first() == vs[0]);
        assert(t.drop_first() =~= vs.skip(1).take(i - 1));
        assert(vs.skip(1).skip(i - 1) =~= vs.skip(i));
        match capture_value(vs[0], stack) {
            Result::Ok(r) => {
                lemma_capture_values_split(vs.skip(1), stack, i - 1);
                match capture_values(vs.skip(i), stack) {
                    Result::Ok(rs) => {
                        assert(seq![r] + (capture_values(vs.skip(1).take(i - 1), stack)->Ok_0
                            + rs) =~= (seq![r] + capture_values(vs.skip(1).take(i - 1),
                        stack)->Ok_0) + rs);
                    },
                    Result::Err(_) => {},
                }
            },
            Result::Err(_) => {},
        }
    }
}

} // verus!
