//! The linker: walks an unresolved expression tree, resolving every
//! identifier to a stack position and converting every lambda into a closure
//! template with an explicit, ordered capture list. Linking never mutates
//! its input; it produces a new, independent tree, or fails with
//! `UnboundIdentifier` when a free variable has no binding in any enclosing
//! scope.

use crate::ast::{
    caps_view, lemma_uexprs_view, lemma_uvals_view, lexprs_view, lvals_view, uexpr_view,
    uexprs_view, uval_view, uvals_view, LinkError, LinkedExpr, LinkedLambda, LinkedValue,
    UnlinkedExpr, UnlinkedLambda, UnlinkedValue,
};
use crate::model::{
    free_of_expr, free_of_exprs, free_of_lambda, free_of_value, free_of_values,
    lemma_free_of_exprs_contains, lemma_free_of_values_contains, lemma_link_exprs_none,
    lemma_link_values_none, link_expr, link_exprs, link_lambda, link_program, link_value,
    link_values, scan_scope, scope_lookup, SpecLExpr, SpecLValue,
};
use vstd::prelude::*;

verus! {

// ------------------------------------------------------------------
// Scopes. A scope is an ordered list of bound names, outermost
// first; position i in the scope is position i on the runtime stack
// that the expression will be evaluated against.
// ------------------------------------------------------------------

/// The ghost counterpart of an executable scope: its names as sequences.
pub open spec fn scope_view(s: Seq<String>) -> Seq<Seq<char>> {
    Seq::new(s.len(), |i: int| s[i]@)
}

/// The set of names a scope binds, positions forgotten.
pub open spec fn name_set(s: Seq<String>) -> Set<Seq<char>> {
    Set::new(|n: Seq<char>| scope_view(s).contains(n))
}

/// Appending a name to a scope appends its view.
pub proof fn lemma_scope_view_push(s: Seq<String>, x: String)
    ensures
        scope_view(s.push(x)) =~= scope_view(s).push(x@),
{
}

/// Appending a name to a scope adds it to the bound-name set.
pub proof fn lemma_name_set_push(s: Seq<String>, x: String)
    ensures
        name_set(s.push(x)) =~= name_set(s).insert(x@),
{
    lemma_scope_view_push(s, x);
    assert forall|n: Seq<char>|
        name_set(s.push(x)).contains(n) <==> name_set(s).insert(x@).contains(n) by {
        let pv = scope_view(s).push(x@);
        if pv.contains(n) {
            let i = choose|i: int| 0 <= i < pv.len() && pv[i] == n;
            if i < scope_view(s).len() {
                assert(scope_view(s)[i] == n);
            }
        }
        if scope_view(s).contains(n) {
            let i = choose|i: int| 0 <= i < scope_view(s).len() && scope_view(s)[i] == n;
            assert(pv[i] == n);
        }
        if n == x@ {
            assert(pv[scope_view(s).len() as int] == n);
        }
    }
}

/// Whether a scope binds the given name.
fn vec_contains_name(v: &Vec<String>, n: &String) -> (r: bool)
    ensures
        r == scope_view(v@).contains(n@),
{
    let mut i: usize = 0;
    while i < v.len()
        invariant
            i <= v.len(),
            forall|j: int| 0 <= j < i ==> v@[j]@ != n@,
        decreases v.len() - i,
    {
        if v[i].eq(n) {
            proof {
                assert(scope_view(v@)[i as int] == n@);
            }
            return true;
        }
        i += 1;
    }
    proof {
        if scope_view(v@).contains(n@) {
            let j = choose|j: int| 0 <= j < v@.len() && scope_view(v@)[j] == n@;
            assert(v@[j]@ == n@);
        }
    }
    false
}

// ------------------------------------------------------------------
// The free-variable analyzer, executable side: membership tests
// against the ghost free-name sets. Used only by the linker.
// ------------------------------------------------------------------

/// Whether `n` occurs free in `e`.
#[verifier::loop_isolation(false)]
pub fn name_free_in_expr(e: &UnlinkedExpr, n: &String) -> (r: bool)
    ensures
        r == free_of_expr(e@).contains(n@),
    decreases e,
{
    match e {
        UnlinkedExpr::Const(v) => name_free_in_value(v, n),
        UnlinkedExpr::Ident(m) => m.eq(n),
        UnlinkedExpr::Call { target, argument } => {
            if name_free_in_expr(target, n) {
                true
            } else {
                name_free_in_expr(argument, n)
            }
        },
        UnlinkedExpr::Tuple(es) => {
            let mut i: usize = 0;
            while i < es.len()
                invariant
                    i <= es.len(),
                    forall|j: int|
                        0 <= j < i ==> !(#[trigger] free_of_expr(uexpr_view(es@[j]))).contains(
                            n@,
                        ),
                decreases es.len() - i,
            {
                proof {
                    assert(decreases_to!(*e => *es));
                    assert(decreases_to!(*es => es@[i as int]));
                }
                if name_free_in_expr(&es[i], n) {
                    proof {
                        lemma_uexprs_view(es@);
                        lemma_free_of_exprs_contains(uexprs_view(es@), n@);
                        assert(free_of_expr(uexprs_view(es@)[i as int]).contains(n@));
                    }
                    return true;
                }
                i += 1;
            }
            proof {
                lemma_uexprs_view(es@);
                lemma_free_of_exprs_contains(uexprs_view(es@), n@);
            }
            false
        },
    }
}

/// Whether `n` occurs free in the literal `v`.
#[verifier::loop_isolation(false)]
pub fn name_free_in_value(v: &UnlinkedValue, n: &String) -> (r: bool)
    ensures
        r == free_of_value(v@).contains(n@),
    decreases v,
{
    match v {
        UnlinkedValue::Primitive(_) => false,
        UnlinkedValue::Lambda(l) => name_free_in_lambda(l, n),
        UnlinkedValue::Tuple(vs) => {
            let mut i: usize = 0;
            while i < vs.len()
                invariant
                    i <= vs.len(),
                    forall|j: int|
                        0 <= j < i ==> !(#[trigger] free_of_value(uval_view(vs@[j]))).contains(
                            n@,
                        ),
                decreases vs.len() - i,
            {
                proof {
                    assert(decreases_to!(*v => *vs));
                    assert(decreases_to!(*vs => vs@[i as int]));
                }
                if name_free_in_value(&vs[i], n) {
                    proof {
                        lemma_uvals_view(vs@);
                        lemma_free_of_values_contains(uvals_view(vs@), n@);
                        assert(free_of_value(uvals_view(vs@)[i as int]).contains(n@));
                    }
                    return true;
                }
                i += 1;
            }
            proof {
                lemma_uvals_view(vs@);
                lemma_free_of_values_contains(uvals_view(vs@), n@);
            }
            false
        },
    }
}

/// Whether `n` occurs free in the lambda `l`: free in its body and not the
/// name the lambda itself binds.
pub fn name_free_in_lambda(l: &UnlinkedLambda, n: &String) -> (r: bool)
    ensures
        r == free_of_lambda(l@).contains(n@),
    decreases l,
{
    if l.parameter.eq(n) {
        false
    } else {
        name_free_in_expr(&l.body, n)
    }
}

// ------------------------------------------------------------------
// The coverage check: find a free name that the given names do not
// cover, or show that none exists. The linker runs it after the
// capture scan to enforce that every free variable was found.
// ------------------------------------------------------------------

/// Finds a name free in `e` that `names` does not bind. `names` is used as
/// a working stack (parameters of nested lambdas are pushed while their
/// bodies are searched) and is returned unchanged.
#[verifier::loop_isolation(false)]
fn find_uncovered_expr(e: &UnlinkedExpr, names: &mut Vec<String>) -> (r: Option<String>)
    ensures
        final(names)@ == old(names)@,
        match r {
            Option::None => free_of_expr(e@) <= name_set(old(names)@),
            Option::Some(m) => free_of_expr(e@).contains(m@) && !name_set(old(names)@).contains(
                m@,
            ),
        },
    decreases e,
{
    match e {
        UnlinkedExpr::Const(v) => find_uncovered_value(v, names),
        UnlinkedExpr::Ident(m) => {
            if vec_contains_name(names, m) {
                Option::None
            } else {
                Option::Some(m.clone())
            }
        },
        UnlinkedExpr::Call { target, argument } => {
            let rt = find_uncovered_expr(target, names);
            if rt.is_some() {
                rt
            } else {
                find_uncovered_expr(argument, names)
            }
        },
        UnlinkedExpr::Tuple(es) => {
            let mut i: usize = 0;
            while i < es.len()
                invariant
                    i <= es.len(),
                    names@ == old(names)@,
                    forall|j: int|
                        0 <= j < i ==> #[trigger] free_of_expr(uexpr_view(es@[j])) <= name_set(
                            old(names)@,
                        ),
                decreases es.len() - i,
            {
                proof {
                    assert(decreases_to!(*e => *es));
                    assert(decreases_to!(*es => es@[i as int]));
                }
                let r = find_uncovered_expr(&es[i], names);
                if r.is_some() {
                    proof {
                        lemma_uexprs_view(es@);
                        let m = r->0;
                        assert(free_of_expr(uexprs_view(es@)[i as int]).contains(m@));
                        lemma_free_of_exprs_contains(uexprs_view(es@), m@);
                    }
                    return r;
                }
                i += 1;
            }
            proof {
                lemma_uexprs_view(es@);
                assert forall|n: Seq<char>|
                    free_of_exprs(uexprs_view(es@)).contains(n) implies name_set(
                    old(names)@,
                ).contains(n) by {
                    lemma_free_of_exprs_contains(uexprs_view(es@), n);
                    let j = choose|j: int|
                        0 <= j < uexprs_view(es@).len() && #[trigger] free_of_expr(
                            uexprs_view(es@)[j],
                        ).contains(n);
                    assert(free_of_expr(uexpr_view(es@[j])).contains(n));
                }
            }
            Option::None
        },
    }
}

/// Finds a name free in the literal `v` that `names` does not bind.
#[verifier::loop_isolation(false)]
fn find_uncovered_value(v: &UnlinkedValue, names: &mut Vec<String>) -> (r: Option<String>)
    ensures
        final(names)@ == old(names)@,
        match r {
            Option::None => free_of_value(v@) <= name_set(old(names)@),
            Option::Some(m) => free_of_value(v@).contains(m@) && !name_set(old(names)@).contains(
                m@,
            ),
        },
    decreases v,
{
    match v {
        UnlinkedValue::Primitive(_) => Option::None,
        UnlinkedValue::Lambda(l) => find_uncovered_lambda(l, names),
        UnlinkedValue::Tuple(vs) => {
            let mut i: usize = 0;
            while i < vs.len()
                invariant
                    i <= vs.len(),
                    names@ == old(names)@,
                    forall|j: int|
                        0 <= j < i ==> #[trigger] free_of_value(uval_view(vs@[j])) <= name_set(
                            old(names)@,
                        ),
                decreases vs.len() - i,
            {
                proof {
                    assert(decreases_to!(*v => *vs));
                    assert(decreases_to!(*vs => vs@[i as int]));
                }
                let r = find_uncovered_value(&vs[i], names);
                if r.is_some() {
                    proof {
                        lemma_uvals_view(vs@);
                        let m = r->0;
                        assert(free_of_value(uvals_view(vs@)[i as int]).contains(m@));
                        lemma_free_of_values_contains(uvals_view(vs@), m@);
                    }
                    return r;
                }
                i += 1;
            }
            proof {
                lemma_uvals_view(vs@);
                assert forall|n: Seq<char>|
                    free_of_values(uvals_view(vs@)).contains(n) implies name_set(
                    old(names)@,
                ).contains(n) by {
                    lemma_free_of_values_contains(uvals_view(vs@), n);
                    let j = choose|j: int|
                        0 <= j < uvals_view(vs@).len() && #[trigger] free_of_value(
                            uvals_view(vs@)[j],
                        ).contains(n);
                    assert(free_of_value(uval_view(vs@[j])).contains(n));
                }
            }
            Option::None
        },
    }
}

/// Finds a name free in the lambda `l` that `names` does not bind.
fn find_uncovered_lambda(l: &UnlinkedLambda, names: &mut Vec<String>) -> (r: Option<String>)
    ensures
        final(names)@ == old(names)@,
        match r {
            Option::None => free_of_lambda(l@) <= name_set(old(names)@),
            Option::Some(m) => free_of_lambda(l@).contains(m@) && !name_set(old(names)@).contains(
                m@,
            ),
        },
    decreases l,
{
    let ghost names0 = names@;
    names.push(l.parameter.clone());
    let r = find_uncovered_expr(&l.body, names);
    let _ = names.pop();
    proof {
        assert(names@ =~= names0);
        lemma_name_set_push(names0, l.parameter);
        if r is Some {
            let m = r->0;
            assert(free_of_expr(l@.body).contains(m@));
            assert(m@ != l@.param);
        } else {
            assert forall|n: Seq<char>| free_of_lambda(l@).contains(n) implies name_set(
                names0,
            ).contains(n) by {
                assert(free_of_expr(l@.body).contains(n));
                assert(name_set(names0.push(l.parameter)).contains(n));
            }
        }
    }
    r
}

// ------------------------------------------------------------------
// Scope lookup, executable side.
// ------------------------------------------------------------------

/// Names above position `k` that do not match `n` do not affect lookup.
proof fn lemma_scope_lookup_prefix(scope: Seq<Seq<char>>, n: Seq<char>, k: int)
    requires
        0 <= k <= scope.len(),
        forall|j: int| k <= j < scope.len() ==> scope[j] != n,
    ensures
        scope_lookup(scope, n) == scope_lookup(scope.take(k), n),
    decreases scope.len() - k,
{
    if k < scope.len() {
        assert(scope.last() != n);
        assert(scope.drop_last() =~= scope.take(scope.len() - 1));
        lemma_scope_lookup_prefix(scope.take(scope.len() - 1), n, k);
        assert(scope.take(scope.len() - 1).take(k) =~= scope.take(k));
    } else {
        assert(scope.take(k) =~= scope);
    }
}

/// The position of the innermost binding of `n` in `scope`, if any.
#[verifier::loop_isolation(false)]
fn lookup_name(scope: &Vec<String>, n: &String) -> (r: Option<usize>)
    ensures
        match r {
            Option::Some(i) => scope_lookup(scope_view(scope@), n@) == Option::Some(i as int),
            Option::None => scope_lookup(scope_view(scope@), n@) is None,
        },
{
    let ghost full = scope_view(scope@);
    let mut idx: usize = scope.len();
    while idx > 0
        invariant
            idx <= scope.len(),
            forall|j: int| idx <= j < full.len() ==> full[j] != n@,
        decreases idx,
    {
        idx -= 1;
        if scope[idx].eq(n) {
            proof {
                lemma_scope_lookup_prefix(full, n@, idx + 1);
                assert(full.take(idx + 1).last() == full[idx as int]);
                assert(full[idx as int] == n@);
            }
            return Option::Some(idx);
        }
    }
    proof {
        lemma_scope_lookup_prefix(full, n@, 0);
        assert(full.take(0) =~= Seq::<Seq<char>>::empty());
    }
    Option::None
}

// ------------------------------------------------------------------
// The linker proper.
// ------------------------------------------------------------------

impl UnlinkedLambda {
    /// Links this lambda against the scope it appears in: scans the scope
    /// from the innermost binding outward for the lambda's free names,
    /// recording each discovery's stack position in the capture list, then
    /// resolves the body against the lambda's own scope (the captured names
    /// followed by the parameter). Fails with `UnboundIdentifier` when some
    /// free name has no binding in the scope.
    #[verifier::loop_isolation(false)]
    pub fn link(&self, scope: &Vec<String>) -> (r: Result<LinkedLambda, LinkError>)
        ensures
            match r {
                Result::Ok(ll) => link_lambda(self@, scope_view(scope@)) == Option::Some(ll@),
                Result::Err(_) => link_lambda(self@, scope_view(scope@)) is None,
            },
        decreases self,
    {
        let ghost full = scope_view(scope@);
        let ghost fs0 = free_of_lambda(self@);
        let mut caps: Vec<usize> = Vec::new();
        let mut names: Vec<String> = Vec::new();
        let mut idx: usize = scope.len();
        proof {
            assert(full.take(idx as int) =~= full);
            assert(fs0.difference(name_set(names@)) =~= fs0);
            let rest = scan_scope(full.take(idx as int), fs0);
            assert(caps_view(caps@) + rest.0 =~= rest.0);
            assert(scope_view(names@) + rest.1 =~= rest.1);
        }
        while idx > 0
            invariant
                idx <= scope.len(),
                ({
                    let fs_now = fs0.difference(name_set(names@));
                    let rest = scan_scope(full.take(idx as int), fs_now);
                    scan_scope(full, fs0).0 == caps_view(caps@) + rest.0 && scan_scope(full, fs0).1
                        == scope_view(names@) + rest.1 && scan_scope(full, fs0).2 == rest.2
                }),
            decreases idx,
        {
            idx -= 1;
            let ghost fs_now = fs0.difference(name_set(names@));
            let name = &scope[idx];
            proof {
                assert(full.take(idx as int + 1).last() == full[idx as int]);
                assert(full.take(idx as int + 1).drop_last() =~= full.take(idx as int));
                assert(full[idx as int] == name@);
            }
            let captured_already = vec_contains_name(&names, name);
            let wanted = if captured_already {
                false
            } else {
                name_free_in_lambda(self, name)
            };
            proof {
                assert(wanted == fs_now.contains(name@));
            }
            if wanted {
                let ghost caps0 = caps@;
                let ghost names0 = names@;
                caps.push(idx);
                names.push(name.clone());
                proof {
                    assert(caps_view(caps@) =~= caps_view(caps0).push(idx as int));
                    lemma_scope_view_push(names0, *name);
                    lemma_name_set_push(names0, *name);
                    let rest0 = scan_scope(full.take(idx as int), fs_now.remove(name@));
                    assert(fs0.difference(name_set(names@)) =~= fs_now.remove(name@));
                    assert(caps_view(caps0) + (seq![idx as int] + rest0.0) =~= caps_view(caps@)
                        + rest0.0);
                    assert(scope_view(names0) + (seq![name@] + rest0.1) =~= scope_view(names@)
                        + rest0.1);
                }
            }
        }
        proof {
            assert(full.take(0) =~= Seq::<Seq<char>>::empty());
            let fs_now = fs0.difference(name_set(names@));
            assert(caps_view(caps@) + scan_scope(full.take(0), fs_now).0 =~= caps_view(caps@));
            assert(scope_view(names@) + scan_scope(full.take(0), fs_now).1 =~= scope_view(
                names@,
            ));
        }
        match find_uncovered_lambda(self, &mut names) {
            Option::Some(m) => {
                proof {
                    let fs_now = fs0.difference(name_set(names@));
                    assert(fs_now.contains(m@));
                    assert(!Set::<Seq<char>>::empty().contains(m@));
                }
                Result::Err(LinkError::UnboundIdentifier(m))
            },
            Option::None => {
                proof {
                    assert(fs0.difference(name_set(names@)) =~= Set::<Seq<char>>::empty());
                }
                let ghost names1 = names@;
                let mut inner = names;
                inner.push(self.parameter.clone());
                proof {
                    lemma_scope_view_push(names1, self.parameter);
                    assert(scope_view(inner@) =~= scan_scope(full, fs0).1.push(self@.param));
                }
                match self.body.link_against(&inner) {
                    Result::Ok(b) => Result::Ok(LinkedLambda { captures: caps, body: b }),
                    Result::Err(e) => Result::Err(e),
                }
            },
        }
    }
}

impl UnlinkedExpr {
    /// Links this expression against the given scope, resolving every
    /// identifier to the stack position of its innermost binding.
    #[verifier::loop_isolation(false)]
    pub fn link_against(&self, scope: &Vec<String>) -> (r: Result<LinkedExpr, LinkError>)
        ensures
            match r {
                Result::Ok(le) => link_expr(self@, scope_view(scope@)) == Option::Some(le@),
                Result::Err(_) => link_expr(self@, scope_view(scope@)) is None,
            },
        decreases self,
    {
        match self {
            UnlinkedExpr::Const(v) => match v.link_against(scope) {
                Result::Ok(lv) => Result::Ok(LinkedExpr::Const(lv)),
                Result::Err(e) => Result::Err(e),
            },
            UnlinkedExpr::Ident(n) => match lookup_name(scope, n) {
                Option::Some(i) => Result::Ok(LinkedExpr::Ident(i)),
                Option::None => Result::Err(LinkError::UnboundIdentifier(n.clone())),
            },
            UnlinkedExpr::Call { target, argument } => match target.link_against(scope) {
                Result::Ok(t) => match argument.link_against(scope) {
                    Result::Ok(a) => Result::Ok(
                        LinkedExpr::Call { target: Box::new(t), argument: Box::new(a) },
                    ),
                    Result::Err(e) => Result::Err(e),
                },
                Result::Err(e) => Result::Err(e),
            },
            UnlinkedExpr::Tuple(es) => {
                let ghost sv = uexprs_view(es@);
                let mut out: Vec<LinkedExpr> = Vec::new();
                let mut i: usize = 0;
                proof {
                    lemma_uexprs_view(es@);
                    assert(sv.take(0) =~= Seq::<crate::model::SpecUExpr>::empty());
                    assert(lexprs_view(out@) =~= Seq::<SpecLExpr>::empty());
                }
                while i < es.len()
                    invariant
                        i <= es.len(),
                        out@.len() == i,
                        link_exprs(sv.take(i as int), scope_view(scope@)) == Option::Some(
                            lexprs_view(out@),
                        ),
                    decreases es.len() - i,
                {
                    proof {
                        assert(decreases_to!(*self => *es));
                        assert(decreases_to!(*es => es@[i as int]));
                    }
                    match es[i].link_against(scope) {
                        Result::Ok(le) => {
                            let ghost out0 = out@;
                            out.push(le);
                            proof {
                                let t1 = sv.take(i as int + 1);
                                assert(t1.drop_last() =~= sv.take(i as int));
                                assert(t1.last() == sv[i as int]);
                                assert(sv[i as int] == uexpr_view(es@[i as int]));
                                assert(out@.drop_last() =~= out0);
                                assert(lexprs_view(out@) =~= lexprs_view(out0).push(le@));
                            }
                        },
                        Result::Err(e) => {
                            proof {
                                assert(sv[i as int] == uexpr_view(es@[i as int]));
                                lemma_link_exprs_none(sv, scope_view(scope@), i as int);
                            }
                            return Result::Err(e);
                        },
                    }
                    i += 1;
                }
                proof {
                    assert(sv.take(es@.len() as int) =~= sv);
                }
                Result::Ok(LinkedExpr::Tuple(out))
            },
        }
    }

    /// Links a whole program: resolves it against the empty outer scope, so
    /// any remaining free identifier is an unbound-identifier error.
    pub fn link(&self) -> (r: Result<LinkedExpr, LinkError>)
        ensures
            match r {
                Result::Ok(le) => link_program(self@) == Option::Some(le@),
                Result::Err(_) => link_program(self@) is None,
            },
    {
        let empty: Vec<String> = Vec::new();
        proof {
            assert(scope_view(empty@) =~= Seq::<Seq<char>>::empty());
        }
        self.link_against(&empty)
    }
}

impl UnlinkedValue {
    /// Links a literal against the given scope: lambdas inside it are
    /// closure-converted, everything else is copied.
    #[verifier::loop_isolation(false)]
    pub fn link_against(&self, scope: &Vec<String>) -> (r: Result<LinkedValue, LinkError>)
        ensures
            match r {
                Result::Ok(lv) => link_value(self@, scope_view(scope@)) == Option::Some(lv@),
                Result::Err(_) => link_value(self@, scope_view(scope@)) is None,
            },
        decreases self,
    {
        match self {
            UnlinkedValue::Primitive(s) => Result::Ok(LinkedValue::Primitive(s.clone())),
            UnlinkedValue::Lambda(l) => match l.link(scope) {
                Result::Ok(ll) => Result::Ok(LinkedValue::Lambda(Box::new(ll))),
                Result::Err(e) => Result::Err(e),
            },
            UnlinkedValue::Tuple(vs) => {
                let ghost sv = uvals_view(vs@);
                let mut out: Vec<LinkedValue> = Vec::new();
                let mut i: usize = 0;
                proof {
                    lemma_uvals_view(vs@);
                    assert(sv.take(0) =~= Seq::<crate::model::SpecUValue>::empty());
                    assert(lvals_view(out@) =~= Seq::<SpecLValue>::empty());
                }
                while i < vs.len()
                    invariant
                        i <= vs.len(),
                        out@.len() == i,
                        link_values(sv.take(i as int), scope_view(scope@)) == Option::Some(
                            lvals_view(out@),
                        ),
                    decreases vs.len() - i,
                {
                    proof {
                        assert(decreases_to!(*self => *vs));
                        assert(decreases_to!(*vs => vs@[i as int]));
                    }
                    match vs[i].link_against(scope) {
                        Result::Ok(lv) => {
                            let ghost out0 = out@;
                            out.push(lv);
                            proof {
                                let t1 = sv.take(i as int + 1);
                                assert(t1.drop_last() =~= sv.take(i as int));
                                assert(t1.last() == sv[i as int]);
                                assert(sv[i as int] == uval_view(vs@[i as int]));
                                assert(out@.drop_last() =~= out0);
                                assert(lvals_view(out@) =~= lvals_view(out0).push(lv@));
                            }
                        },
                        Result::Err(e) => {
                            proof {
                                assert(sv[i as int] == uval_view(vs@[i as int]));
                                lemma_link_values_none(sv, scope_view(scope@), i as int);
                            }
                            return Result::Err(e);
                        },
                    }
                    i += 1;
                }
                proof {
                    assert(sv.take(vs@.len() as int) =~= sv);
                }
                Result::Ok(LinkedValue::Tuple(out))
            },
        }
    }
}

} // verus!
