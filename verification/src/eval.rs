//! The evaluator: a single-threaded, pure recursive walk of a linked tree
//! against a runtime value stack. Every read from the stack or from a
//! literal yields an independent duplicate; no runtime value is ever
//! mutated in place or shared between stacks. Lambda invocation consumes
//! fuel, so a program whose call nesting exceeds the fuel fails with
//! `ResourceExhausted` instead of exhausting the real call stack.

use crate::ast::{
    lemma_lexprs_view, lemma_lvals_view, lemma_rvals_view, lexpr_view, lexprs_view, lval_view,
    lvals_view, rval_view, rvals_view, Closure, LinkedExpr, LinkedLambda, LinkedValue,
    RuntimeValue,
};
use crate::model::{
    apply_closure, apply_lambda, capture_value, capture_values, eval_expr, eval_exprs,
    lemma_capture_values_split, lemma_eval_exprs_split, EvalError, SpecLExpr, SpecLValue,
    SpecRValue,
};
use vstd::prelude::*;

verus! {

/// The ghost reading of an evaluation outcome.
pub open spec fn res_view(r: Result<RuntimeValue, EvalError>) -> Result<SpecRValue, EvalError> {
    match r {
        Result::Ok(v) => Result::Ok(v@),
        Result::Err(e) => Result::Err(e),
    }
}

/// Turns a literal from a linked tree into a runtime value against the
/// current stack: primitives and tuples are duplicated, and a lambda
/// literal becomes a closure owning copies of the values at its capture
/// positions.
#[verifier::loop_isolation(false)]
fn capture_from(v: &LinkedValue, stack: &Vec<RuntimeValue>) -> (r: Result<
    RuntimeValue,
    EvalError,
>)
    ensures
        res_view(r) == capture_value(v@, rvals_view(stack@)),
    decreases v,
{
    match v {
        LinkedValue::Primitive(s) => Result::Ok(RuntimeValue::Primitive(s.clone())),
        LinkedValue::Lambda(l) => {
            let ghost sstack = rvals_view(stack@);
            let mut captured: Vec<RuntimeValue> = Vec::new();
            let mut i: usize = 0;
            proof {
                lemma_rvals_view(stack@);
            }
            while i < l.captures.len()
                invariant
                    i <= l.captures.len(),
                    captured@.len() == i,
                    forall|j: int| 0 <= j < i ==> 0 <= #[trigger] l@.captures[j] < sstack.len(),
                    forall|j: int|
                        0 <= j < i ==> #[trigger] rval_view(captured@[j]) == sstack[l@.captures[j]],
                decreases l.captures.len() - i,
            {
                let c = l.captures[i];
                if c >= stack.len() {
                    proof {
                        assert(l@.captures[i as int] == c as int);
                        assert(!(forall|j: int|
                            0 <= j < l@.captures.len() ==> 0 <= #[trigger] l@.captures[j]
                                < sstack.len()));
                    }
                    return Result::Err(EvalError::InternalConsistency);
                }
                captured.push(stack[c].duplicate());
                proof {
                    assert(l@.captures[i as int] == c as int);
                    assert(rval_view(captured@[i as int]) == rval_view(stack@[c as int]));
                }
                i += 1;
            }
            let body = l.body.duplicate();
            proof {
                lemma_rvals_view(captured@);
                assert(rvals_view(captured@) =~= Seq::new(
                    l@.captures.len(),
                    |j: int| sstack[l@.captures[j]],
                ));
            }
            Result::Ok(
                RuntimeValue::Lambda(Box::new(Closure { captured, body })),
            )
        },
        LinkedValue::Tuple(vs) => {
            let ghost sv = lvals_view(vs@);
            let ghost sstack = rvals_view(stack@);
            let mut out: Vec<RuntimeValue> = Vec::new();
            let mut i: usize = 0;
            proof {
                lemma_lvals_view(vs@);
                assert(sv.take(0) =~= Seq::<SpecLValue>::empty());
                assert(rvals_view(out@) =~= Seq::<SpecRValue>::empty());
            }
            while i < vs.len()
                invariant
                    i <= vs.len(),
                    out@.len() == i,
                    capture_values(sv.take(i as int), sstack) == Result::<_, EvalError>::Ok(
                        rvals_view(out@),
                    ),
                decreases vs.len() - i,
            {
                proof {
                    assert(decreases_to!(*v => *vs));
                    assert(decreases_to!(*vs => vs@[i as int]));
                }
                match capture_from(&vs[i], stack) {
                    Result::Ok(rv) => {
                        let ghost out0 = out@;
                        out.push(rv);
                        proof {
                            let t1 = sv.take(i as int + 1);
                            assert(t1.take(i as int) =~= sv.take(i as int));
                            lemma_capture_values_split(t1, sstack, i as int);
                            let s1 = t1.skip(i as int);
                            assert(s1.len() == 1);
                            assert(s1.first() == sv[i as int]);
                            assert(sv[i as int] == lval_view(vs@[i as int]));
                            assert(s1.drop_first() =~= Seq::<SpecLValue>::empty());
                            assert(capture_values(s1, sstack) == Result::<_, EvalError>::Ok(
                                seq![rv@] + Seq::<SpecRValue>::empty(),
                            ));
                            assert(out@.drop_last() =~= out0);
                            assert(rvals_view(out@) =~= rvals_view(out0) + (seq![rv@]
                                + Seq::<SpecRValue>::empty()));
                        }
                    },
                    Result::Err(e) => {
                        proof {
                            lemma_capture_values_split(sv, sstack, i as int);
                            let s1 = sv.skip(i as int);
                            assert(s1.first() == sv[i as int]);
                            assert(sv[i as int] == lval_view(vs@[i as int]));
                        }
                        return Result::Err(e);
                    },
                }
                i += 1;
            }
            proof {
                assert(sv.take(vs@.len() as int) =~= sv);
            }
            Result::Ok(RuntimeValue::Tuple(out))
        },
    }
}

impl LinkedExpr {
    /// Evaluates this expression against a stack. A literal is duplicated
    /// (lambdas capture from the stack), an identifier duplicates the stack
    /// entry at its offset, a call requires its target to reduce to a
    /// lambda and then invokes it, and a tuple evaluates its fields left to
    /// right, preserving their order.
    #[verifier::loop_isolation(false)]
    pub fn eval_on(&self, stack: &Vec<RuntimeValue>, fuel: u64) -> (r: Result<
        RuntimeValue,
        EvalError,
    >)
        ensures
            res_view(r) == eval_expr(self@, rvals_view(stack@), fuel as nat),
        decreases fuel, self, 0int,
    {
        match self {
            LinkedExpr::Const(v) => capture_from(v, stack),
            LinkedExpr::Ident(i) => {
                if *i < stack.len() {
                    proof {
                        lemma_rvals_view(stack@);
                    }
                    Result::Ok(stack[*i].duplicate())
                } else {
                    proof {
                        lemma_rvals_view(stack@);
                    }
                    Result::Err(EvalError::InternalConsistency)
                }
            },
            LinkedExpr::Call { target, argument } => match target.eval_on(stack, fuel) {
                Result::Ok(f) => match f {
                    RuntimeValue::Lambda(c) => match argument.eval_on(stack, fuel) {
                        Result::Ok(a) => {
                            if fuel == 0 {
                                Result::Err(EvalError::ResourceExhausted)
                            } else {
                                c.call(a, fuel - 1)
                            }
                        },
                        Result::Err(e) => Result::Err(e),
                    },
                    _ => Result::Err(EvalError::TypeMismatch),
                },
                Result::Err(e) => Result::Err(e),
            },
            LinkedExpr::Tuple(es) => {
                let ghost sv = lexprs_view(es@);
                let ghost sstack = rvals_view(stack@);
                let mut out: Vec<RuntimeValue> = Vec::new();
                let mut i: usize = 0;
                proof {
                    lemma_lexprs_view(es@);
                    assert(sv.take(0) =~= Seq::<SpecLExpr>::empty());
                    assert(rvals_view(out@) =~= Seq::<SpecRValue>::empty());
                }
                while i < es.len()
                    invariant
                        i <= es.len(),
                        out@.len() == i,
                        eval_exprs(sv.take(i as int), sstack, fuel as nat) == Result::<
                            _,
                            EvalError,
                        >::Ok(rvals_view(out@)),
                    decreases es.len() - i,
                {
                    proof {
                        assert(decreases_to!(*self => *es));
                        assert(decreases_to!(*es => es@[i as int]));
                    }
                    match es[i].eval_on(stack, fuel) {
                        Result::Ok(rv) => {
                            let ghost out0 = out@;
                            out.push(rv);
                            proof {
                                let t1 = sv.take(i as int + 1);
                                assert(t1.take(i as int) =~= sv.take(i as int));
                                lemma_eval_exprs_split(t1, sstack, fuel as nat, i as int);
                                let s1 = t1.skip(i as int);
                                assert(s1.len() == 1);
                                assert(s1.first() == sv[i as int]);
                                assert(sv[i as int] == lexpr_view(es@[i as int]));
                                assert(s1.drop_first() =~= Seq::<SpecLExpr>::empty());
                                assert(eval_exprs(s1, sstack, fuel as nat) == Result::<
                                    _,
                                    EvalError,
                                >::Ok(seq![rv@] + Seq::<SpecRValue>::empty()));
                                assert(out@.drop_last() =~= out0);
                                assert(rvals_view(out@) =~= rvals_view(out0) + (seq![rv@]
                                    + Seq::<SpecRValue>::empty()));
                            }
                        },
                        Result::Err(e) => {
                            proof {
                                lemma_eval_exprs_split(sv, sstack, fuel as nat, i as int);
                                let s1 = sv.skip(i as int);
                                assert(s1.first() == sv[i as int]);
                                assert(sv[i as int] == lexpr_view(es@[i as int]));
                            }
                            return Result::Err(e);
                        },
                    }
                    i += 1;
                }
                proof {
                    assert(sv.take(es@.len() as int) =~= sv);
                }
                Result::Ok(RuntimeValue::Tuple(out))
            },
        }
    }

    /// Evaluates a whole linked program: runs it against the empty stack.
    pub fn eval(&self, fuel: u64) -> (r: Result<RuntimeValue, EvalError>)
        ensures
            res_view(r) == eval_expr(self@, Seq::empty(), fuel as nat),
    {
        let empty: Vec<RuntimeValue> = Vec::new();
        proof {
            assert(rvals_view(empty@) =~= Seq::<SpecRValue>::empty());
        }
        self.eval_on(&empty, fuel)
    }
}

impl Closure {
    /// Invokes this closure on an argument: its body runs against a fresh
    /// stack holding duplicates of the captured values followed by the
    /// argument. The new stack shares nothing with any caller's stack, so
    /// a closure can be called repeatedly with no coordination.
    #[verifier::loop_isolation(false)]
    pub fn call(&self, argument: RuntimeValue, fuel: u64) -> (r: Result<RuntimeValue, EvalError>)
        ensures
            res_view(r) == apply_closure(self@, argument@, fuel as nat),
        decreases fuel, self.body, 1int,
    {
        let mut stack2: Vec<RuntimeValue> = Vec::new();
        let mut i: usize = 0;
        while i < self.captured.len()
            invariant
                i <= self.captured.len(),
                stack2@.len() == i,
                forall|j: int|
                    0 <= j < i ==> #[trigger] rval_view(stack2@[j]) == rval_view(
                        self.captured@[j],
                    ),
            decreases self.captured.len() - i,
        {
            stack2.push(self.captured[i].duplicate());
            i += 1;
        }
        let ghost arg_spec = argument@;
        stack2.push(argument);
        proof {
            lemma_rvals_view(stack2@);
            lemma_rvals_view(self.captured@);
            assert(rvals_view(stack2@) =~= rvals_view(self.captured@).push(arg_spec));
        }
        self.body.eval_on(&stack2, fuel)
    }
}

impl LinkedLambda {
    /// Invokes this closure template directly against its defining stack:
    /// builds a fresh stack by copying the value at each capture position
    /// (in stored order), appends the argument, and evaluates the body
    /// against it. The new stack is entirely independent of `outer_stack`.
    #[verifier::loop_isolation(false)]
    pub fn call(&self, outer_stack: &Vec<RuntimeValue>, argument: RuntimeValue, fuel: u64) -> (r:
        Result<RuntimeValue, EvalError>)
        ensures
            res_view(r) == apply_lambda(self@, rvals_view(outer_stack@), argument@, fuel as nat),
    {
        let ghost sstack = rvals_view(outer_stack@);
        let mut stack2: Vec<RuntimeValue> = Vec::new();
        let mut i: usize = 0;
        proof {
            lemma_rvals_view(outer_stack@);
        }
        while i < self.captures.len()
            invariant
                i <= self.captures.len(),
                stack2@.len() == i,
                forall|j: int| 0 <= j < i ==> 0 <= #[trigger] self@.captures[j] < sstack.len(),
                forall|j: int|
                    0 <= j < i ==> #[trigger] rval_view(stack2@[j]) == sstack[self@.captures[j]],
            decreases self.captures.len() - i,
        {
            let c = self.captures[i];
            if c >= outer_stack.len() {
                proof {
                    assert(self@.captures[i as int] == c as int);
                    assert(!(forall|j: int|
                        0 <= j < self@.captures.len() ==> 0 <= #[trigger] self@.captures[j]
                            < sstack.len()));
                }
                return Result::Err(EvalError::InternalConsistency);
            }
            stack2.push(outer_stack[c].duplicate());
            proof {
                assert(self@.captures[i as int] == c as int);
                assert(rval_view(stack2@[i as int]) == rval_view(outer_stack@[c as int]));
            }
            i += 1;
        }
        let ghost arg_spec = argument@;
        stack2.push(argument);
        proof {
            lemma_rvals_view(stack2@);
            assert(rvals_view(stack2@) =~= Seq::new(
                self@.captures.len(),
                |j: int| sstack[self@.captures[j]],
            ).push(arg_spec));
        }
        self.body.eval_on(&stack2, fuel)
    }
}

} // verus!
