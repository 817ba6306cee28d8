//! What is proved of handlers whose clauses keep their continuation: the block that
//! one is rewritten to gives what the handled block means.
use crate::analysis::{clause_index, handles};
use crate::cps::{clause_with, cps, cps_from, cps_let, cps_ret, return_continuation};
use crate::error::CodegenError;
use crate::ir::{pointer_to, target, Atom, BinOp, Comp, Ir, IrBind, IrHandler, IrOpClause, Row};
use crate::programs::{atom_word, op_meaning, Meant};
use std::rc::Rc;
use vstd::prelude::*;

verus! {

// ── what blocks with functions and handlers mean ─────────────────────────
/// A value: a word, a function, or the rest of a handled block.
pub enum Value {
    Word(u64),
    Fun { param: Seq<char>, body: Ir, env: Env },
    /// What resumes a handled block: its rest takes the value of the operation that
    /// was performed, under the same handler.
    Resume { param: Seq<char>, rest: Rest, handler: IrHandler, env: Env },
}

/// Variables and their values, the innermost first.
pub enum Env {
    Empty,
    More { name: Seq<char>, value: Box<Value>, outer: Box<Env> },
}

/// The rest of a block: one of its parts, or its bindings from a position on and its
/// result.
pub enum Rest {
    Part(Ir),
    From { binds: Vec<IrBind>, i: nat, row: Rc<Row>, comp: Rc<Comp> },
}

/// What running a block leads to.
pub enum Got {
    Value(Value),
    Trap,
    /// It goes beyond what is spoken of, or applies functions too often.
    Open,
}

impl Env {
    pub open spec fn get(self, name: Seq<char>) -> Option<Value>
        decreases self,
    {
        match self {
            Env::Empty => None,
            Env::More { name: x, value, outer } => if x == name {
                Some(*value)
            } else {
                outer.get(name)
            },
        }
    }

    pub open spec fn with(self, name: Seq<char>, value: Value) -> Env {
        Env::More { name, value: Box::new(value), outer: Box::new(self) }
    }
}

/// The value of an operand.
pub open spec fn atom_value(a: Atom, env: Env) -> Got {
    match a {
        Atom::Var(x) => match env.get(x@) {
            Some(v) => Got::Value(v),
            None => Got::Open,
        },
        Atom::Str(_) => Got::Open,
        _ => Got::Value(Value::Word(atom_word(a, Map::empty()))),
    }
}

/// What an operation on two values gives.
pub open spec fn bin_value(op: BinOp, a: Got, b: Got) -> Got {
    match (a, b) {
        (Got::Value(Value::Word(x)), Got::Value(Value::Word(y))) => match op_meaning(op, x, y) {
            Meant::Word(w) => Got::Value(Value::Word(w)),
            Meant::Trap => Got::Trap,
            Meant::Open => Got::Open,
        },
        _ => Got::Open,
    }
}

/// What a computation gives, if it applies functions at most `fuel` times.
#[verifier::opaque]
pub open spec fn comp_value(comp: Comp, env: Env, fuel: nat) -> Got
    decreases fuel, 0int, comp, 0int,
{
    match comp {
        Comp::Atom(a) => atom_value(a, env),
        Comp::Bin(op, a, b) => bin_value(op, atom_value(a, env), atom_value(b, env)),
        Comp::If(c, yes, no) => match atom_value(c, env) {
            Got::Value(Value::Word(w)) => if w != 0 {
                ir_value(*yes, env, fuel)
            } else {
                ir_value(*no, env, fuel)
            },
            _ => Got::Open,
        },
        Comp::Lam { param, body, .. } => Got::Value(Value::Fun { param: param@, body: *body, env }),
        Comp::App { fun, arg, .. } => if fuel == 0 {
            Got::Open
        } else {
            match (atom_value(fun, env), atom_value(arg, env)) {
                (Got::Value(Value::Fun { param, body, env: own }), Got::Value(v)) => ir_value(
                    body,
                    own.with(param, v),
                    (fuel - 1) as nat,
                ),
                (Got::Value(Value::Resume { param, rest, handler, env: own }), Got::Value(v)) => rest_value(
                    rest,
                    handler,
                    own.with(param, v),
                    (fuel - 1) as nat,
                ),
                _ => Got::Open,
            }
        },
        _ => Got::Open,
    }
}

/// What a block gives.
#[verifier::opaque]
pub open spec fn ir_value(ir: Ir, env: Env, fuel: nat) -> Got
    decreases fuel, 0int, ir, 0int,
{
    match ir {
        Ir::Block { binds, comp, .. } => match binds_env(binds, 0, env, fuel) {
            Ok(env) => comp_value(*comp, env, fuel),
            Err(got) => got,
        },
        Ir::Let { name, comp, rest, .. } => match comp_value(*comp, env, fuel) {
            Got::Value(v) => ir_value(*rest, env.with(name@, v), fuel),
            other => other,
        },
        Ir::Ret { comp, .. } => comp_value(*comp, env, fuel),
    }
}

/// The variables behind the bindings from position `i` on, or what ended before.
#[verifier::opaque]
pub open spec fn binds_env(binds: Vec<IrBind>, i: nat, env: Env, fuel: nat) -> Result<Env, Got>
    decreases fuel, 0int, binds, binds.len() - i,
{
    if i >= binds.len() {
        Ok(env)
    } else {
        match comp_value(*binds[i as int].comp, env, fuel) {
            Got::Value(v) => binds_env(binds, i + 1, env.with(binds[i as int].name@, v), fuel),
            other => Err(other),
        }
    }
}

/// What a clause gives in the place of the operation it handles: its argument and
/// its continuation join the variables in scope there.
#[verifier::opaque]
pub open spec fn clause_value(c: IrOpClause, arg: Got, resume: Value, env: Env, fuel: nat) -> Got
    decreases fuel, 1int, c.body, 0int,
{
    match arg {
        Got::Value(v) => ir_value(*c.body, env.with(c.arg@, v).with(c.resume@, resume), fuel),
        other => other,
    }
}

/// The variables in scope of the continuation that a clause is given.
pub open spec fn kept_env(c: IrOpClause, arg: Got, env: Env) -> Env {
    match arg {
        Got::Value(v) => env.with(c.arg@, v),
        _ => env,
    }
}

/// The operation of the handler that a computation performs.
#[verifier::opaque]
pub open spec fn performed(comp: Comp, handler: IrHandler) -> Option<(IrOpClause, Atom)> {
    match comp {
        Comp::Perform(op, arg) => if handles(handler, op) {
            Some((handler.ops[clause_index(handler, op)], arg))
        } else {
            None
        },
        _ => None,
    }
}

/// What a block gives under a handler: an operation of the handler gives what its
/// clause does with the rest of the block as its continuation, and the block's own
/// value goes through the return clause.
#[verifier::opaque]
pub open spec fn handled_value(ir: Ir, handler: IrHandler, env: Env, fuel: nat) -> Got
    decreases fuel, 3int, ir, 0int,
{
    match ir {
        Ir::Block { binds, row, comp } => handled_from(binds, 0, row, comp, handler, env, fuel),
        Ir::Ret { comp, .. } => returned_value(*comp, handler, env, fuel),
        Ir::Let { name, comp, rest, .. } => match performed(*comp, handler) {
            Some((c, a)) => clause_value(
                c,
                atom_value(a, env),
                Value::Resume {
                    param: name@,
                    rest: Rest::Part(*rest),
                    handler,
                    env: kept_env(c, atom_value(a, env), env),
                },
                env,
                fuel,
            ),
            None => match comp_value(*comp, env, fuel) {
                Got::Value(v) => handled_value(*rest, handler, env.with(name@, v), fuel),
                other => other,
            },
        },
    }
}

/// What the bindings from position `i` on and the result give under a handler.
#[verifier::opaque]
pub open spec fn handled_from(
    binds: Vec<IrBind>,
    i: nat,
    row: Rc<Row>,
    comp: Rc<Comp>,
    handler: IrHandler,
    env: Env,
    fuel: nat,
) -> Got
    decreases fuel, 3int, binds, binds.len() - i,
{
    if i >= binds.len() {
        returned_value(*comp, handler, env, fuel)
    } else {
        match performed(*binds[i as int].comp, handler) {
            Some((c, a)) => clause_value(
                c,
                atom_value(a, env),
                Value::Resume {
                    param: binds[i as int].name@,
                    rest: Rest::From { binds, i: i + 1, row, comp },
                    handler,
                    env: kept_env(c, atom_value(a, env), env),
                },
                env,
                fuel,
            ),
            None => match comp_value(*binds[i as int].comp, env, fuel) {
                Got::Value(v) => handled_from(
                    binds,
                    i + 1,
                    row,
                    comp,
                    handler,
                    env.with(binds[i as int].name@, v),
                    fuel,
                ),
                other => other,
            },
        }
    }
}

/// What the result of a handled block gives.
#[verifier::opaque]
pub open spec fn returned_value(comp: Comp, handler: IrHandler, env: Env, fuel: nat) -> Got
    decreases fuel, 2int, comp, 0int,
{
    match performed(comp, handler) {
        Some((c, a)) => clause_value(
            c,
            atom_value(a, env),
            Value::Fun {
                param: handler.ret.var@,
                body: *handler.ret.body,
                env: kept_env(c, atom_value(a, env), env),
            },
            env,
            fuel,
        ),
        None => match comp_value(comp, env, fuel) {
            Got::Value(v) => ir_value(*handler.ret.body, env.with(handler.ret.var@, v), fuel),
            other => other,
        },
    }
}

/// What the rest of a handled block gives.
#[verifier::opaque]
pub open spec fn rest_value(rest: Rest, handler: IrHandler, env: Env, fuel: nat) -> Got
    decreases fuel, 4int, rest, 0int,
{
    match rest {
        Rest::Part(ir) => handled_value(ir, handler, env, fuel),
        Rest::From { binds, i, row, comp } => handled_from(binds, i, row, comp, handler, env, fuel),
    }
}

// ── rewritten values ─────────────────────────────────────────────────────
/// The rest of a handled block, rewritten for its handler.
#[verifier::opaque]
pub open spec fn rewritten(rest: Rest, handler: IrHandler, pure: Rc<Row>) -> Result<Ir, CodegenError> {
    match rest {
        Rest::Part(ir) => cps(ir, handler, pure),
        Rest::From { binds, i, row, comp } => cps_from(
            binds,
            i,
            cps_ret(row, comp, handler, pure),
            handler,
            pure,
        ),
    }
}

/// A value in which every rest of a handled block is a function.
pub open spec fn plain_value(v: Value, pure: Rc<Row>) -> Value
    decreases v,
{
    match v {
        Value::Word(w) => Value::Word(w),
        Value::Fun { param, body, env } => Value::Fun { param, body, env: plain_env(env, pure) },
        Value::Resume { param, rest, handler, env } => Value::Fun {
            param,
            body: rewritten(rest, handler, pure)->Ok_0,
            env: plain_env(env, pure),
        },
    }
}

pub open spec fn plain_env(env: Env, pure: Rc<Row>) -> Env
    decreases env,
{
    match env {
        Env::Empty => Env::Empty,
        Env::More { name, value, outer } => Env::More {
            name,
            value: Box::new(plain_value(*value, pure)),
            outer: Box::new(plain_env(*outer, pure)),
        },
    }
}

pub open spec fn plain_got(got: Got, pure: Rc<Row>) -> Got {
    match got {
        Got::Value(v) => Got::Value(plain_value(v, pure)),
        other => other,
    }
}

/// Every rest of a handled block in a value can be rewritten.
pub open spec fn sound(v: Value, pure: Rc<Row>) -> bool
    decreases v,
{
    match v {
        Value::Word(_) => true,
        Value::Fun { env, .. } => sound_env(env, pure),
        Value::Resume { rest, handler, env, .. } => rewritten(rest, handler, pure) is Ok && sound_env(
            env,
            pure,
        ),
    }
}

pub open spec fn sound_env(env: Env, pure: Rc<Row>) -> bool
    decreases env,
{
    match env {
        Env::Empty => true,
        Env::More { value, outer, .. } => sound(*value, pure) && sound_env(*outer, pure),
    }
}

pub open spec fn sound_got(got: Got, pure: Rc<Row>) -> bool {
    got matches Got::Value(v) ==> sound(v, pure)
}

proof fn lemma_get(env: Env, x: Seq<char>, pure: Rc<Row>)
    requires
        sound_env(env, pure),
    ensures
        plain_env(env, pure).get(x) == (match env.get(x) {
            Some(v) => Some(plain_value(v, pure)),
            None => None,
        }),
        env.get(x) matches Some(v) ==> sound(v, pure),
    decreases env,
{
    if let Env::More { name, value, outer } = env {
        if name != x {
            lemma_get(inner(outer), x, pure);
        }
    }
}

/// What a box holds.
pub open spec fn inner<T>(b: Box<T>) -> T {
    *b
}

proof fn lemma_atom_value(a: Atom, env: Env, pure: Rc<Row>)
    requires
        sound_env(env, pure),
    ensures
        atom_value(a, plain_env(env, pure)) == plain_got(atom_value(a, env), pure),
        sound_got(atom_value(a, env), pure),
{
    if let Atom::Var(x) = a {
        lemma_get(env, x@, pure);
    }
}

#[verifier::spinoff_prover]
proof fn lemma_comp_value(comp: Comp, env: Env, fuel: nat, pure: Rc<Row>)
    requires
        sound_env(env, pure),
    ensures
        comp_value(comp, plain_env(env, pure), fuel) == plain_got(comp_value(comp, env, fuel), pure),
        sound_got(comp_value(comp, env, fuel), pure),
    decreases fuel, 0int, comp, 0int,
{
    reveal(comp_value);
    reveal(ir_value);
    reveal(rest_value);
    match comp {
        Comp::Atom(a) => lemma_atom_value(a, env, pure),
        Comp::Bin(op, a, b) => {
            lemma_atom_value(a, env, pure);
            lemma_atom_value(b, env, pure);
        },
        Comp::If(c, yes, no) => {
            lemma_atom_value(c, env, pure);
            lemma_ir_value(target(yes), env, fuel, pure);
            lemma_ir_value(target(no), env, fuel, pure);
        },
        Comp::App { fun, arg, .. } => {
            lemma_atom_value(fun, env, pure);
            lemma_atom_value(arg, env, pure);
            if fuel > 0 {
                match (atom_value(fun, env), atom_value(arg, env)) {
                    (Got::Value(Value::Fun { param, body, env: own }), Got::Value(v)) => {
                        lemma_ir_value(body, own.with(param, v), (fuel - 1) as nat, pure);
                    },
                    (Got::Value(Value::Resume { param, rest, handler, env: own }), Got::Value(v)) => {
                        lemma_rest_value(rest, handler, own.with(param, v), (fuel - 1) as nat, pure);
                    },
                    _ => {},
                }
            }
        },
        _ => {},
    }
}

#[verifier::spinoff_prover]
proof fn lemma_ir_value(ir: Ir, env: Env, fuel: nat, pure: Rc<Row>)
    requires
        sound_env(env, pure),
    ensures
        ir_value(ir, plain_env(env, pure), fuel) == plain_got(ir_value(ir, env, fuel), pure),
        sound_got(ir_value(ir, env, fuel), pure),
    decreases fuel, 0int, ir, 0int,
{
    reveal(ir_value);
    reveal(comp_value);
    reveal(binds_env);
    match ir {
        Ir::Block { binds, comp, .. } => {
            lemma_binds_env(binds, 0, env, fuel, pure);
            if let Ok(later) = binds_env(binds, 0, env, fuel) {
                lemma_comp_value(target(comp), later, fuel, pure);
            }
        },
        Ir::Let { name, comp, rest, .. } => {
            lemma_comp_value(target(comp), env, fuel, pure);
            if let Got::Value(v) = comp_value(target(comp), env, fuel) {
                lemma_ir_value(target(rest), env.with(name@, v), fuel, pure);
            }
        },
        Ir::Ret { comp, .. } => lemma_comp_value(target(comp), env, fuel, pure),
    }
}

#[verifier::spinoff_prover]
proof fn lemma_binds_env(binds: Vec<IrBind>, i: nat, env: Env, fuel: nat, pure: Rc<Row>)
    requires
        sound_env(env, pure),
    ensures
        match binds_env(binds, i, env, fuel) {
            Ok(later) => sound_env(later, pure) && binds_env(binds, i, plain_env(env, pure), fuel)
                == Ok::<Env, Got>(plain_env(later, pure)),
            Err(got) => sound_got(got, pure) && binds_env(binds, i, plain_env(env, pure), fuel)
                == Err::<Env, Got>(plain_got(got, pure)),
        },
    decreases fuel, 0int, binds, binds.len() - i,
{
    reveal(binds_env);
    reveal(comp_value);
    if i < binds.len() {
        lemma_comp_value(target(binds[i as int].comp), env, fuel, pure);
        if let Got::Value(v) = comp_value(target(binds[i as int].comp), env, fuel) {
            lemma_binds_env(binds, i + 1, env.with(binds[i as int].name@, v), fuel, pure);
        }
    }
}

proof fn lemma_atom_comp(a: Atom, env: Env, fuel: nat)
    ensures
        comp_value(Comp::Atom(a), env, fuel) == atom_value(a, env),
{
    reveal(comp_value);
}

proof fn lemma_lam_comp(lam: Comp, env: Env, fuel: nat)
    requires
        lam is Lam,
    ensures
        comp_value(lam, env, fuel) == Got::Value(
            Value::Fun { param: lam->Lam_param@, body: *lam->Lam_body, env },
        ),
{
    reveal(comp_value);
}

#[verifier::spinoff_prover]
proof fn lemma_let(ir: Ir, env: Env, fuel: nat)
    requires
        ir is Let,
    ensures
        ir_value(ir, env, fuel) == match comp_value(*ir->Let_comp, env, fuel) {
            Got::Value(v) => ir_value(*ir->rest, env.with(ir->Let_name@, v), fuel),
            other => other,
        },
{
    reveal(ir_value);
    reveal(comp_value);
}

/// A clause in the place of its operation.
#[verifier::spinoff_prover]
proof fn lemma_clause_value(
    c: IrOpClause,
    a: Atom,
    cont: Comp,
    resume: Value,
    row: Rc<Row>,
    env: Env,
    fuel: nat,
    pure: Rc<Row>,
)
    requires
        sound_env(env, pure),
        sound(resume, pure),
        comp_value(cont, plain_env(kept_env(c, atom_value(a, env), env), pure), fuel) == Got::Value(
            plain_value(resume, pure),
        ),
    ensures
        ir_value(clause_with(c, a, cont, row, pure), plain_env(env, pure), fuel) == plain_got(
            clause_value(c, atom_value(a, env), resume, env, fuel),
            pure,
        ),
        sound_got(clause_value(c, atom_value(a, env), resume, env, fuel), pure),
    decreases fuel, 1int, c.body, 0int,
{
    reveal(clause_value);
    reveal(ir_value);
    lemma_atom_value(a, env, pure);
    let plain = plain_env(env, pure);
    let inside = Ir::Let {
        name: c.resume,
        ty: c.resume_ty,
        layout: c.resume_layout,
        row,
        comp: pointer_to(cont),
        rest: c.body,
    };
    lemma_let(clause_with(c, a, cont, row, pure), plain, fuel);
    lemma_atom_comp(a, plain, fuel);
    if let Got::Value(v) = atom_value(a, env) {
        let kept = plain.with(c.arg@, plain_value(v, pure));
        assert(kept == plain_env(kept_env(c, atom_value(a, env), env), pure));
        lemma_let(inside, kept, fuel);
        assert(sound_env(env.with(c.arg@, v), pure));
        assert(plain_env(env.with(c.arg@, v), pure) == kept);
        assert(sound_env(env.with(c.arg@, v).with(c.resume@, resume), pure));
        lemma_ir_value(
            target(c.body),
            env.with(c.arg@, v).with(c.resume@, resume),
            fuel,
            pure,
        );
    }
}

/// The result of a handled block, rewritten for its handler.
#[verifier::opaque]
pub open spec fn result_rewritten(row: Rc<Row>, comp: Rc<Comp>, handler: IrHandler, pure: Rc<Row>) -> Result<
    Ir,
    CodegenError,
> {
    cps_ret(row, comp, handler, pure)
}

/// The continuation of an operation in a rewritten block.
pub open spec fn continuation(b: IrBind, rest: Ir, handler: IrHandler) -> Comp {
    Comp::Lam {
        param: b.name,
        param_ty: Some(b.ty),
        param_layout: b.layout,
        ret_ty: handler.ret.body_ty,
        body: pointer_to(rest),
    }
}

/// A binding in front of a rewritten rest.
pub open spec fn in_front(b: IrBind, rest: Ir) -> Ir {
    Ir::Let {
        name: b.name,
        ty: b.ty,
        layout: b.layout,
        row: b.row,
        comp: b.comp,
        rest: pointer_to(rest),
    }
}

/// What one binding of a handled block is rewritten to.
pub open spec fn bind_rewritten(b: IrBind, rest: Ir, handler: IrHandler, pure: Rc<Row>) -> Ir {
    match performed(*b.comp, handler) {
        Some((c, a)) => clause_with(c, a, continuation(b, rest, handler), b.row, pure),
        None => in_front(b, rest),
    }
}

#[verifier::spinoff_prover]
proof fn lemma_bind_rewritten(b: IrBind, rest: Result<Ir, CodegenError>, handler: IrHandler, pure: Rc<Row>)
    requires
        cps_let(b, rest, handler, pure) is Ok,
    ensures
        rest is Ok,
        cps_let(b, rest, handler, pure)->Ok_0 == bind_rewritten(b, rest->Ok_0, handler, pure),
{
    reveal(performed);
}

#[verifier::spinoff_prover]
proof fn lemma_part_rewritten(ir: Ir, handler: IrHandler, pure: Rc<Row>)
    requires
        rewritten(Rest::Part(ir), handler, pure) is Ok,
    ensures
        match ir {
            Ir::Block { binds, row, comp } => rewritten(Rest::Part(ir), handler, pure) == rewritten(
                Rest::From { binds, i: 0, row, comp },
                handler,
                pure,
            ),
            Ir::Ret { row, comp } => rewritten(Rest::Part(ir), handler, pure) == result_rewritten(
                row,
                comp,
                handler,
                pure,
            ),
            Ir::Let { name, ty, layout, row, comp, rest } => {
                &&& rewritten(Rest::Part(*rest), handler, pure) is Ok
                &&& rewritten(Rest::Part(ir), handler, pure)->Ok_0 == bind_rewritten(
                    IrBind { name, ty, layout, row, comp },
                    rewritten(Rest::Part(*rest), handler, pure)->Ok_0,
                    handler,
                    pure,
                )
            },
        },
{
    reveal(rewritten);
    reveal(result_rewritten);
    if let Ir::Let { name, ty, layout, row, comp, rest } = ir {
        lemma_bind_rewritten(
            IrBind { name, ty, layout, row, comp },
            cps(target(rest), handler, pure),
            handler,
            pure,
        );
    }
}

#[verifier::spinoff_prover]
proof fn lemma_from_rewritten(
    binds: Vec<IrBind>,
    i: nat,
    row: Rc<Row>,
    comp: Rc<Comp>,
    handler: IrHandler,
    pure: Rc<Row>,
)
    requires
        rewritten(Rest::From { binds, i, row, comp }, handler, pure) is Ok,
    ensures
        i >= binds.len() ==> rewritten(Rest::From { binds, i, row, comp }, handler, pure)
            == result_rewritten(row, comp, handler, pure),
        i < binds.len() ==> {
            &&& rewritten(Rest::From { binds, i: i + 1, row, comp }, handler, pure) is Ok
            &&& rewritten(Rest::From { binds, i, row, comp }, handler, pure)->Ok_0 == bind_rewritten(
                binds[i as int],
                rewritten(Rest::From { binds, i: i + 1, row, comp }, handler, pure)->Ok_0,
                handler,
                pure,
            )
        },
{
    reveal(rewritten);
    reveal(result_rewritten);
    if i < binds.len() {
        lemma_bind_rewritten(
            binds[i as int],
            cps_from(binds, i + 1, cps_ret(row, comp, handler, pure), handler, pure),
            handler,
            pure,
        );
    }
}

#[verifier::spinoff_prover]
proof fn lemma_result_rewritten(row: Rc<Row>, comp: Rc<Comp>, handler: IrHandler, pure: Rc<Row>)
    requires
        result_rewritten(row, comp, handler, pure) is Ok,
    ensures
        result_rewritten(row, comp, handler, pure)->Ok_0 == match performed(*comp, handler) {
            Some((c, a)) => clause_with(c, a, return_continuation(handler), row, pure),
            None => Ir::Let {
                name: handler.ret.var,
                ty: handler.ret.var_ty,
                layout: handler.ret.var_layout,
                row,
                comp,
                rest: handler.ret.body,
            },
        },
{
    reveal(result_rewritten);
    reveal(performed);
}

/// One binding of a handled block: the operation's clause, or the value and what
/// follows.
#[verifier::spinoff_prover]
proof fn lemma_bind_value(
    b: IrBind,
    rest: Rest,
    handler: IrHandler,
    env: Env,
    fuel: nat,
    pure: Rc<Row>,
    next: Got,
)
    requires
        sound_env(env, pure),
        rewritten(rest, handler, pure) is Ok,
        performed(*b.comp, handler) is None ==> (comp_value(*b.comp, env, fuel) matches Got::Value(v)
            ==> {
            &&& ir_value(
                rewritten(rest, handler, pure)->Ok_0,
                plain_env(env.with(b.name@, v), pure),
                fuel,
            ) == plain_got(next, pure)
            &&& sound_got(next, pure)
        }),
    ensures
        ({
            let got = match performed(*b.comp, handler) {
                Some((c, a)) => clause_value(
                    c,
                    atom_value(a, env),
                    Value::Resume {
                        param: b.name@,
                        rest,
                        handler,
                        env: kept_env(c, atom_value(a, env), env),
                    },
                    env,
                    fuel,
                ),
                None => match comp_value(*b.comp, env, fuel) {
                    Got::Value(v) => next,
                    other => other,
                },
            };
            &&& ir_value(
                bind_rewritten(b, rewritten(rest, handler, pure)->Ok_0, handler, pure),
                plain_env(env, pure),
                fuel,
            ) == plain_got(got, pure)
            &&& sound_got(got, pure)
        }),
    decreases fuel, 2int, b.comp, 0int,
{
    let tail = rewritten(rest, handler, pure)->Ok_0;
    match performed(target(b.comp), handler) {
        Some((c, a)) => {
            let kept = kept_env(c, atom_value(a, env), env);
            let resume = Value::Resume { param: b.name@, rest, handler, env: kept };
            lemma_atom_value(a, env, pure);
            lemma_lam_comp(continuation(b, tail, handler), plain_env(kept, pure), fuel);
            lemma_clause_value(c, a, continuation(b, tail, handler), resume, b.row, env, fuel, pure);
        },
        None => {
            lemma_comp_value(target(b.comp), env, fuel, pure);
            lemma_let(in_front(b, tail), plain_env(env, pure), fuel);
        },
    }
}

#[verifier::spinoff_prover]
proof fn lemma_returned_value(
    row: Rc<Row>,
    comp: Rc<Comp>,
    handler: IrHandler,
    env: Env,
    fuel: nat,
    pure: Rc<Row>,
)
    requires
        sound_env(env, pure),
        result_rewritten(row, comp, handler, pure) is Ok,
    ensures
        ir_value(result_rewritten(row, comp, handler, pure)->Ok_0, plain_env(env, pure), fuel)
            == plain_got(returned_value(*comp, handler, env, fuel), pure),
        sound_got(returned_value(*comp, handler, env, fuel), pure),
    decreases fuel, 3int, comp, 0int,
{
    reveal(returned_value);
    reveal(clause_value);
    reveal(comp_value);
    reveal(ir_value);
    lemma_result_rewritten(row, comp, handler, pure);
    match performed(target(comp), handler) {
        Some((c, a)) => {
            let kept = kept_env(c, atom_value(a, env), env);
            lemma_atom_value(a, env, pure);
            lemma_lam_comp(return_continuation(handler), plain_env(kept, pure), fuel);
            lemma_clause_value(
                c,
                a,
                return_continuation(handler),
                Value::Fun { param: handler.ret.var@, body: target(handler.ret.body), env: kept },
                row,
                env,
                fuel,
                pure,
            );
        },
        None => {
            lemma_comp_value(target(comp), env, fuel, pure);
            lemma_let(
                result_rewritten(row, comp, handler, pure)->Ok_0,
                plain_env(env, pure),
                fuel,
            );
            if let Got::Value(v) = comp_value(target(comp), env, fuel) {
                lemma_ir_value(
                    target(handler.ret.body),
                    env.with(handler.ret.var@, v),
                    fuel,
                    pure,
                );
            }
        },
    }
}

#[verifier::spinoff_prover]
proof fn lemma_handled_from(
    binds: Vec<IrBind>,
    i: nat,
    row: Rc<Row>,
    comp: Rc<Comp>,
    handler: IrHandler,
    env: Env,
    fuel: nat,
    pure: Rc<Row>,
)
    requires
        sound_env(env, pure),
        rewritten(Rest::From { binds, i, row, comp }, handler, pure) is Ok,
    ensures
        ir_value(
            rewritten(Rest::From { binds, i, row, comp }, handler, pure)->Ok_0,
            plain_env(env, pure),
            fuel,
        ) == plain_got(handled_from(binds, i, row, comp, handler, env, fuel), pure),
        sound_got(handled_from(binds, i, row, comp, handler, env, fuel), pure),
    decreases fuel, 4int, binds, binds.len() - i,
{
    reveal(handled_from);
    reveal(returned_value);
    reveal(clause_value);
    reveal(comp_value);
    lemma_from_rewritten(binds, i, row, comp, handler, pure);
    if i >= binds.len() {
        lemma_returned_value(row, comp, handler, env, fuel, pure);
    } else {
        let b = binds[i as int];
        let rest = Rest::From { binds, i: i + 1, row, comp };
        lemma_comp_value(target(b.comp), env, fuel, pure);
        let next = match comp_value(target(b.comp), env, fuel) {
            Got::Value(v) => {
                lemma_handled_from(
                    binds,
                    i + 1,
                    row,
                    comp,
                    handler,
                    env.with(b.name@, v),
                    fuel,
                    pure,
                );
                handled_from(binds, i + 1, row, comp, handler, env.with(b.name@, v), fuel)
            },
            _ => Got::Open,
        };
        lemma_bind_value(b, rest, handler, env, fuel, pure, next);
    }
}

#[verifier::spinoff_prover]
proof fn lemma_handled_value(ir: Ir, handler: IrHandler, env: Env, fuel: nat, pure: Rc<Row>)
    requires
        sound_env(env, pure),
        rewritten(Rest::Part(ir), handler, pure) is Ok,
    ensures
        ir_value(rewritten(Rest::Part(ir), handler, pure)->Ok_0, plain_env(env, pure), fuel)
            == plain_got(handled_value(ir, handler, env, fuel), pure),
        sound_got(handled_value(ir, handler, env, fuel), pure),
    decreases fuel, 4int, ir, 0int,
{
    reveal(handled_value);
    reveal(handled_from);
    reveal(returned_value);
    reveal(clause_value);
    reveal(comp_value);
    lemma_part_rewritten(ir, handler, pure);
    match ir {
        Ir::Block { binds, row, comp } => {
            lemma_handled_from(binds, 0, row, comp, handler, env, fuel, pure);
        },
        Ir::Ret { row, comp } => lemma_returned_value(row, comp, handler, env, fuel, pure),
        Ir::Let { name, ty, layout, row, comp, rest } => {
            let b = IrBind { name, ty, layout, row, comp };
            lemma_comp_value(target(comp), env, fuel, pure);
            let next = match comp_value(target(comp), env, fuel) {
                Got::Value(v) => {
                    lemma_handled_value(target(rest), handler, env.with(name@, v), fuel, pure);
                    handled_value(target(rest), handler, env.with(name@, v), fuel)
                },
                _ => Got::Open,
            };
            lemma_bind_value(b, Rest::Part(target(rest)), handler, env, fuel, pure, next);
        },
    }
}

#[verifier::spinoff_prover]
proof fn lemma_rest_value(rest: Rest, handler: IrHandler, env: Env, fuel: nat, pure: Rc<Row>)
    requires
        sound_env(env, pure),
        rewritten(rest, handler, pure) is Ok,
    ensures
        ir_value(rewritten(rest, handler, pure)->Ok_0, plain_env(env, pure), fuel) == plain_got(
            rest_value(rest, handler, env, fuel),
            pure,
        ),
        sound_got(rest_value(rest, handler, env, fuel), pure),
    decreases fuel, 5int, rest, 0int,
{
    reveal(rest_value);
    reveal(handled_value);
    reveal(handled_from);
    match rest {
        Rest::Part(ir) => lemma_handled_value(ir, handler, env, fuel, pure),
        Rest::From { binds, i, row, comp } => lemma_handled_from(
            binds,
            i,
            row,
            comp,
            handler,
            env,
            fuel,
            pure,
        ),
    }
}

/// A handler whose clauses keep their continuation is rewritten to a block without
/// it. That block gives what the handled block means: the operations go to their
/// clauses, which may resume the rest of the block once, often or never, and its
/// value goes through the return clause. In the result, what resumes a block is a
/// function.
pub proof fn a_rewritten_block_gives_what_the_handled_block_means(
    ir: Ir,
    handler: IrHandler,
    env: Env,
    fuel: nat,
    pure: Rc<Row>,
)
    requires
        sound_env(env, pure),
        cps(ir, handler, pure) is Ok,
    ensures
        ir_value(cps(ir, handler, pure)->Ok_0, plain_env(env, pure), fuel) == plain_got(
            handled_value(ir, handler, env, fuel),
            pure,
        ),
{
    assert(rewritten(Rest::Part(ir), handler, pure) == cps(ir, handler, pure)) by {
        reveal(rewritten);
    }
    lemma_handled_value(ir, handler, env, fuel, pure);
}

} // verus!
