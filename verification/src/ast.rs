//! The executable syntax trees of the three phases, their views onto the
//! ghost model, and deep duplication. Values are owned and duplicated, never
//! shared by reference: every read from a stack yields an independent copy.

use crate::model::{
    SpecClosure, SpecLExpr, SpecLLambda, SpecLValue, SpecRValue, SpecUExpr, SpecULambda,
    SpecUValue,
};
use vstd::prelude::*;

verus! {

// ------------------------------------------------------------------
// Unresolved programs, as the front-end builds them.
// ------------------------------------------------------------------

/// A lambda before scope resolution: a named parameter and a body that may
/// refer to names bound by enclosing lambdas.
pub struct UnlinkedLambda {
    pub parameter: String,
    pub body: UnlinkedExpr,
}

/// A literal value in an unresolved program.
pub enum UnlinkedValue {
    Primitive(String),
    Lambda(Box<UnlinkedLambda>),
    Tuple(Vec<UnlinkedValue>),
}

/// An unresolved expression: variable references carry names.
pub enum UnlinkedExpr {
    Const(UnlinkedValue),
    Ident(String),
    Call { target: Box<UnlinkedExpr>, argument: Box<UnlinkedExpr> },
    Tuple(Vec<UnlinkedExpr>),
}

// ------------------------------------------------------------------
// Linked programs, as the linker produces them.
// ------------------------------------------------------------------

/// A closure-converted lambda: `captures` lists the stack positions, in the
/// defining scope, of the values the lambda needs; the body refers to
/// positions in the lambda's own stack (captures, then the argument).
pub struct LinkedLambda {
    pub captures: Vec<usize>,
    pub body: LinkedExpr,
}

/// A literal value in a linked program.
pub enum LinkedValue {
    Primitive(String),
    Lambda(Box<LinkedLambda>),
    Tuple(Vec<LinkedValue>),
}

/// A linked expression: variable references are stack offsets.
pub enum LinkedExpr {
    Const(LinkedValue),
    Ident(usize),
    Call { target: Box<LinkedExpr>, argument: Box<LinkedExpr> },
    Tuple(Vec<LinkedExpr>),
}

// ------------------------------------------------------------------
// Runtime values, as the evaluator produces them.
// ------------------------------------------------------------------

/// A closure: the values captured when the lambda literal was evaluated,
/// plus the body to run when it is called.
pub struct Closure {
    pub captured: Vec<RuntimeValue>,
    pub body: LinkedExpr,
}

/// A runtime value: an opaque primitive, a closure, or an ordered tuple.
pub enum RuntimeValue {
    Primitive(String),
    Lambda(Box<Closure>),
    Tuple(Vec<RuntimeValue>),
}

/// How linking fails: a free variable with no binding in any enclosing
/// scope. The program is not well-formed; no partial result is produced.
#[derive(Debug)]
pub enum LinkError {
    UnboundIdentifier(String),
}

// ------------------------------------------------------------------
// Views onto the ghost model.
// ------------------------------------------------------------------

pub open spec fn ulam_view(l: UnlinkedLambda) -> SpecULambda
    decreases l,
{
    SpecULambda { param: l.parameter@, body: uexpr_view(l.body) }
}

pub open spec fn uval_view(v: UnlinkedValue) -> SpecUValue
    decreases v,
{
    match v {
        UnlinkedValue::Primitive(s) => SpecUValue::Prim(s@),
        UnlinkedValue::Lambda(l) => SpecUValue::Lam(Box::new(ulam_view(*l))),
        UnlinkedValue::Tuple(vs) => SpecUValue::Tup(uvals_view(vs@)),
    }
}

pub open spec fn uvals_view(vs: Seq<UnlinkedValue>) -> Seq<SpecUValue>
    decreases vs,
{
    if vs.len() == 0 {
        Seq::empty()
    } else {
        uvals_view(vs.drop_last()).push(uval_view(vs.last()))
    }
}

pub open spec fn uexpr_view(e: UnlinkedExpr) -> SpecUExpr
    decreases e,
{
    match e {
        UnlinkedExpr::Const(v) => SpecUExpr::Const(uval_view(v)),
        UnlinkedExpr::Ident(n) => SpecUExpr::Ident(n@),
        UnlinkedExpr::Call { target, argument } => SpecUExpr::Call {
            target: Box::new(uexpr_view(*target)),
            argument: Box::new(uexpr_view(*argument)),
        },
        UnlinkedExpr::Tuple(es) => SpecUExpr::Tuple(uexprs_view(es@)),
    }
}

pub open spec fn uexprs_view(es: Seq<UnlinkedExpr>) -> Seq<SpecUExpr>
    decreases es,
{
    if es.len() == 0 {
        Seq::empty()
    } else {
        uexprs_view(es.drop_last()).push(uexpr_view(es.last()))
    }
}

pub open spec fn caps_view(cs: Seq<usize>) -> Seq<int> {
    Seq::new(cs.len(), |i: int| cs[i] as int)
}

pub open spec fn llam_view(l: LinkedLambda) -> SpecLLambda
    decreases l,
{
    SpecLLambda { captures: caps_view(l.captures@), body: lexpr_view(l.body) }
}

pub open spec fn lval_view(v: LinkedValue) -> SpecLValue
    decreases v,
{
    match v {
        LinkedValue::Primitive(s) => SpecLValue::Prim(s@),
        LinkedValue::Lambda(l) => SpecLValue::Lam(Box::new(llam_view(*l))),
        LinkedValue::Tuple(vs) => SpecLValue::Tup(lvals_view(vs@)),
    }
}

pub open spec fn lvals_view(vs: Seq<LinkedValue>) -> Seq<SpecLValue>
    decreases vs,
{
    if vs.len() == 0 {
        Seq::empty()
    } else {
        lvals_view(vs.drop_last()).push(lval_view(vs.last()))
    }
}

pub open spec fn lexpr_view(e: LinkedExpr) -> SpecLExpr
    decreases e,
{
    match e {
        LinkedExpr::Const(v) => SpecLExpr::Const(lval_view(v)),
        LinkedExpr::Ident(i) => SpecLExpr::Ident(i as int),
        LinkedExpr::Call { target, argument } => SpecLExpr::Call {
            target: Box::new(lexpr_view(*target)),
            argument: Box::new(lexpr_view(*argument)),
        },
        LinkedExpr::Tuple(es) => SpecLExpr::Tuple(lexprs_view(es@)),
    }
}

pub open spec fn lexprs_view(es: Seq<LinkedExpr>) -> Seq<SpecLExpr>
    decreases es,
{
    if es.len() == 0 {
        Seq::empty()
    } else {
        lexprs_view(es.drop_last()).push(lexpr_view(es.last()))
    }
}

pub open spec fn clos_view(c: Closure) -> SpecClosure
    decreases c,
{
    SpecClosure { captured: rvals_view(c.captured@), body: lexpr_view(c.body) }
}

pub open spec fn rval_view(v: RuntimeValue) -> SpecRValue
    decreases v,
{
    match v {
        RuntimeValue::Primitive(s) => SpecRValue::Prim(s@),
        RuntimeValue::Lambda(c) => SpecRValue::Clos(Box::new(clos_view(*c))),
        RuntimeValue::Tuple(vs) => SpecRValue::Tup(rvals_view(vs@)),
    }
}

pub open spec fn rvals_view(vs: Seq<RuntimeValue>) -> Seq<SpecRValue>
    decreases vs,
{
    if vs.len() == 0 {
        Seq::empty()
    } else {
        rvals_view(vs.drop_last()).push(rval_view(vs.last()))
    }
}

impl View for UnlinkedLambda {
    type V = SpecULambda;

    open spec fn view(&self) -> SpecULambda {
        ulam_view(*self)
    }
}

impl View for UnlinkedValue {
    type V = SpecUValue;

    open spec fn view(&self) -> SpecUValue {
        uval_view(*self)
    }
}

impl View for UnlinkedExpr {
    type V = SpecUExpr;

    open spec fn view(&self) -> SpecUExpr {
        uexpr_view(*self)
    }
}

impl View for LinkedLambda {
    type V = SpecLLambda;

    open spec fn view(&self) -> SpecLLambda {
        llam_view(*self)
    }
}

impl View for LinkedValue {
    type V = SpecLValue;

    open spec fn view(&self) -> SpecLValue {
        lval_view(*self)
    }
}

impl View for LinkedExpr {
    type V = SpecLExpr;

    open spec fn view(&self) -> SpecLExpr {
        lexpr_view(*self)
    }
}

impl View for Closure {
    type V = SpecClosure;

    open spec fn view(&self) -> SpecClosure {
        clos_view(*self)
    }
}

impl View for RuntimeValue {
    type V = SpecRValue;

    open spec fn view(&self) -> SpecRValue {
        rval_view(*self)
    }
}

// ------------------------------------------------------------------
// Pointwise characterisation of the sequence views.
// ------------------------------------------------------------------

pub proof fn lemma_uvals_view(vs: Seq<UnlinkedValue>)
    ensures
        uvals_view(vs).len() == vs.len(),
        forall|i: int| 0 <= i < vs.len() ==> #[trigger] uvals_view(vs)[i] == uval_view(vs[i]),
    decreases vs,
{
    if vs.len() > 0 {
        lemma_uvals_view(vs.drop_last());
    }
}

pub proof fn lemma_uexprs_view(es: Seq<UnlinkedExpr>)
    ensures
        uexprs_view(es).len() == es.len(),
        forall|i: int| 0 <= i < es.len() ==> #[trigger] uexprs_view(es)[i] == uexpr_view(es[i]),
    decreases es,
{
    if es.len() > 0 {
        lemma_uexprs_view(es.drop_last());
    }
}

pub proof fn lemma_lvals_view(vs: Seq<LinkedValue>)
    ensures
        lvals_view(vs).len() == vs.len(),
        forall|i: int| 0 <= i < vs.len() ==> #[trigger] lvals_view(vs)[i] == lval_view(vs[i]),
    decreases vs,
{
    if vs.len() > 0 {
        lemma_lvals_view(vs.drop_last());
    }
}

pub proof fn lemma_lexprs_view(es: Seq<LinkedExpr>)
    ensures
        lexprs_view(es).len() == es.len(),
        forall|i: int| 0 <= i < es.len() ==> #[trigger] lexprs_view(es)[i] == lexpr_view(es[i]),
    decreases es,
{
    if es.len() > 0 {
        lemma_lexprs_view(es.drop_last());
    }
}

pub proof fn lemma_rvals_view(vs: Seq<RuntimeValue>)
    ensures
        rvals_view(vs).len() == vs.len(),
        forall|i: int| 0 <= i < vs.len() ==> #[trigger] rvals_view(vs)[i] == rval_view(vs[i]),
    decreases vs,
{
    if vs.len() > 0 {
        lemma_rvals_view(vs.drop_last());
    }
}

// ------------------------------------------------------------------
// Deep duplication. Every read from a stack yields an independent
// copy of the value: duplication is structural, never reference
// sharing, so no two stacks ever alias.
// ------------------------------------------------------------------

impl LinkedLambda {
    /// A structurally independent copy of this lambda.
    #[verifier::loop_isolation(false)]
    pub fn duplicate(&self) -> (r: Self)
        ensures
            r@ == self@,
        decreases self,
    {
        let mut caps: Vec<usize> = Vec::new();
        let mut i: usize = 0;
        while i < self.captures.len()
            invariant
                i <= self.captures.len(),
                caps@ == self.captures@.take(i as int),
            decreases self.captures.len() - i,
        {
            caps.push(self.captures[i]);
            proof {
                assert(caps@ =~= self.captures@.take(i as int + 1));
            }
            i += 1;
        }
        proof {
            assert(caps@ =~= self.captures@);
        }
        LinkedLambda { captures: caps, body: self.body.duplicate() }
    }
}

impl LinkedValue {
    /// A structurally independent copy of this literal.
    #[verifier::loop_isolation(false)]
    pub fn duplicate(&self) -> (r: Self)
        ensures
            r@ == self@,
        decreases self,
    {
        match self {
            LinkedValue::Primitive(s) => LinkedValue::Primitive(s.clone()),
            LinkedValue::Lambda(l) => LinkedValue::Lambda(Box::new(l.duplicate())),
            LinkedValue::Tuple(vs) => {
                let mut out: Vec<LinkedValue> = Vec::new();
                let mut i: usize = 0;
                while i < vs.len()
                    invariant
                        i <= vs.len(),
                        out@.len() == i,
                        forall|j: int|
                            0 <= j < i ==> #[trigger] lval_view(out@[j]) == lval_view(vs@[j]),
                    decreases vs.len() - i,
                {
                    proof {
                        assert(decreases_to!(*self => *vs));
                        assert(decreases_to!(*vs => vs@[i as int]));
                    }
                    out.push(vs[i].duplicate());
                    i += 1;
                }
                proof {
                    lemma_lvals_view(out@);
                    lemma_lvals_view(vs@);
                    assert(lvals_view(out@) =~= lvals_view(vs@));
                }
                LinkedValue::Tuple(out)
            },
        }
    }
}

impl LinkedExpr {
    /// A structurally independent copy of this expression.
    #[verifier::loop_isolation(false)]
    pub fn duplicate(&self) -> (r: Self)
        ensures
            r@ == self@,
        decreases self,
    {
        match self {
            LinkedExpr::Const(v) => LinkedExpr::Const(v.duplicate()),
            LinkedExpr::Ident(i) => LinkedExpr::Ident(*i),
            LinkedExpr::Call { target, argument } => LinkedExpr::Call {
                target: Box::new(target.duplicate()),
                argument: Box::new(argument.duplicate()),
            },
            LinkedExpr::Tuple(es) => {
                let mut out: Vec<LinkedExpr> = Vec::new();
                let mut i: usize = 0;
                while i < es.len()
                    invariant
                        i <= es.len(),
                        out@.len() == i,
                        forall|j: int|
                            0 <= j < i ==> #[trigger] lexpr_view(out@[j]) == lexpr_view(es@[j]),
                    decreases es.len() - i,
                {
                    proof {
                        assert(decreases_to!(*self => *es));
                        assert(decreases_to!(*es => es@[i as int]));
                    }
                    out.push(es[i].duplicate());
                    i += 1;
                }
                proof {
                    lemma_lexprs_view(out@);
                    lemma_lexprs_view(es@);
                    assert(lexprs_view(out@) =~= lexprs_view(es@));
                }
                LinkedExpr::Tuple(out)
            },
        }
    }
}

impl Closure {
    /// A structurally independent copy of this closure.
    #[verifier::loop_isolation(false)]
    pub fn duplicate(&self) -> (r: Self)
        ensures
            r@ == self@,
        decreases self,
    {
        let mut out: Vec<RuntimeValue> = Vec::new();
        let mut i: usize = 0;
        while i < self.captured.len()
            invariant
                i <= self.captured.len(),
                out@.len() == i,
                forall|j: int|
                    0 <= j < i ==> #[trigger] rval_view(out@[j]) == rval_view(self.captured@[j]),
            decreases self.captured.len() - i,
        {
            out.push(self.captured[i].duplicate());
            i += 1;
        }
        proof {
            lemma_rvals_view(out@);
            lemma_rvals_view(self.captured@);
            assert(rvals_view(out@) =~= rvals_view(self.captured@));
        }
        Closure { captured: out, body: self.body.duplicate() }
    }
}

impl RuntimeValue {
    /// A structurally independent copy of this value: mutating one copy can
    /// never affect the other.
    #[verifier::loop_isolation(false)]
    pub fn duplicate(&self) -> (r: Self)
        ensures
            r@ == self@,
        decreases self,
    {
        match self {
            RuntimeValue::Primitive(s) => RuntimeValue::Primitive(s.clone()),
            RuntimeValue::Lambda(c) => RuntimeValue::Lambda(Box::new(c.duplicate())),
            RuntimeValue::Tuple(vs) => {
                let mut out: Vec<RuntimeValue> = Vec::new();
                let mut i: usize = 0;
                while i < vs.len()
                    invariant
                        i <= vs.len(),
                        out@.len() == i,
                        forall|j: int|
                            0 <= j < i ==> #[trigger] rval_view(out@[j]) == rval_view(vs@[j]),
                    decreases vs.len() - i,
                {
                    proof {
                        assert(decreases_to!(*self => *vs));
                        assert(decreases_to!(*vs => vs@[i as int]));
                    }
                    out.push(vs[i].duplicate());
                    i += 1;
                }
                proof {
                    lemma_rvals_view(out@);
                    lemma_rvals_view(vs@);
                    assert(rvals_view(out@) =~= rvals_view(vs@));
                }
                RuntimeValue::Tuple(out)
            },
        }
    }
}

impl Default for RuntimeValue {
    /// The default value of the language is the empty tuple.
    fn default() -> (r: Self)
        ensures
            r@ == SpecRValue::Tup(Seq::empty()),
    {
        RuntimeValue::Tuple(Vec::new())
    }
}

impl Default for UnlinkedValue {
    /// The default value of the language is the empty tuple.
    fn default() -> (r: Self)
        ensures
            r@ == SpecUValue::Tup(Seq::empty()),
    {
        UnlinkedValue::Tuple(Vec::new())
    }
}

// ------------------------------------------------------------------
// Builders: the explicit construction API the front-end targets.
// ------------------------------------------------------------------

impl UnlinkedExpr {
    /// A variable reference by name.
    pub fn ident(name: String) -> (r: Self)
        ensures
            r@ == SpecUExpr::Ident(name@),
    {
        UnlinkedExpr::Ident(name)
    }

    /// A quoted-text literal.
    pub fn literal(text: String) -> (r: Self)
        ensures
            r@ == SpecUExpr::Const(SpecUValue::Prim(text@)),
    {
        let inner = UnlinkedValue::Primitive(text);
        proof {
            assert(uval_view(inner) == SpecUValue::Prim(inner->Primitive_0@));
        }
        UnlinkedExpr::Const(inner)
    }

    /// A lambda binding one named parameter over a body.
    pub fn lambda(parameter: String, body: UnlinkedExpr) -> (r: Self)
        ensures
            r@ == SpecUExpr::Const(
                SpecUValue::Lam(Box::new(SpecULambda { param: parameter@, body: body@ })),
            ),
    {
        let lam = UnlinkedLambda { parameter, body };
        let inner = UnlinkedValue::Lambda(Box::new(lam));
        proof {
            assert(uval_view(inner) == SpecUValue::Lam(Box::new(ulam_view(lam))));
        }
        UnlinkedExpr::Const(inner)
    }

    /// A left-associative function application.
    pub fn apply(target: UnlinkedExpr, argument: UnlinkedExpr) -> (r: Self)
        ensures
            r@ == (SpecUExpr::Call {
                target: Box::new(target@),
                argument: Box::new(argument@),
            }),
    {
        UnlinkedExpr::Call { target: Box::new(target), argument: Box::new(argument) }
    }

    /// An ordered tuple of field expressions.
    pub fn tuple(fields: Vec<UnlinkedExpr>) -> (r: Self)
        ensures
            r@ == SpecUExpr::Tuple(uexprs_view(fields@)),
    {
        UnlinkedExpr::Tuple(fields)
    }
}

} // verus!
