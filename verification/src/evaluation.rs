//! What programs mean that build functions, call them and themselves, and write to
//! mutable locals.
use crate::analysis::performs_gc;
use crate::blocks::{all_params, names_itself};
use crate::captures::{cells_of, RESERVED};
use crate::closures::passed_in_cell;
use crate::currying::plain_param;
use crate::freevars::occ_comp;
use crate::ir::{Atom, Comp, Ir, LoopVar, Type, ValueLayout};
use crate::programs::{atom_word, op_meaning, plain_var, Meant, Names};
use crate::tails::{lam_body, lam_param};
use std::rc::Rc;
use vstd::prelude::*;

verus! {

// ── values ───────────────────────────────────────────────────────────────
/// What a variable stands for.
pub enum Value {
    Word(u64),
    Fun(Closure),
}

/// A function: a lambda, the name that it calls itself by, and what the variables
/// around it stand for.
pub struct Closure {
    pub own: Option<String>,
    pub lam: Comp,
    pub env: Map<Seq<char>, Value>,
}

/// What variables stand for.
pub type Env = Map<Seq<char>, Value>;

/// What a program can still change and use up.
pub struct World {
    /// What the mutable locals in scope hold.
    pub cells: Env,
    /// The bytes that are left.
    pub left: nat,
}

/// How a program ends.
pub enum Ends {
    Value(Value, World),
    Trap,
    /// What is left open of integers, more calls than are looked at, more memory than
    /// there is, and what is no function but called, or no integer but computed with.
    Open,
}

impl Closure {
    /// What the variables around the function's parameter stand for.
    pub open spec fn around(self) -> Env {
        match self.own {
            Some(own) => self.env.insert(own@, Value::Fun(self)),
            None => self.env,
        }
    }

    /// What the variables inside the function stand for.
    pub open spec fn inside(self, arg: Value) -> Env {
        self.around().insert(lam_param(self.lam).name@, arg)
    }
}

impl World {
    /// So much less is left.
    pub open spec fn less(self, bytes: nat) -> World {
        World { cells: self.cells, left: (self.left - bytes) as nat }
    }

    /// The world inside a function that is called.
    pub open spec fn called(self) -> World {
        World { cells: Map::empty(), left: self.left }
    }

    /// The world behind a block: the mutable locals of the block are gone.
    pub open spec fn behind(self, block: World) -> World {
        World { cells: block.cells.restrict(self.cells.dom()), left: block.left }
    }
}

// ── what programs mean ───────────────────────────────────────────────────
/// What an operand stands for.
pub open spec fn atom_value(a: Atom, env: Env) -> Value {
    match a {
        Atom::Var(x) => env[x@],
        _ => Value::Word(atom_word(a, Map::empty())),
    }
}

/// The bytes that a closure takes at most.
pub open spec fn closure_bytes(lam: Comp) -> nat {
    ((RESERVED + occ_comp(lam, Set::empty()).len()) * 8) as nat
}

/// A lambda ends in a function.
pub open spec fn closes(own: Option<String>, lam: Comp, env: Env, w: World) -> Ends {
    if w.left < closure_bytes(lam) {
        Ends::Open
    } else {
        Ends::Value(Value::Fun(Closure { own, lam, env }), w.less(closure_bytes(lam)))
    }
}

/// What is left of a block when it is left.
pub open spec fn leaves(ends: Ends, w: World) -> Ends {
    match ends {
        Ends::Value(v, block) => Ends::Value(v, w.behind(block)),
        other => other,
    }
}

/// The arguments of a call.
pub open spec fn call_args(comp: Comp) -> Seq<Atom> {
    match comp {
        Comp::App { arg, .. } => seq![arg],
        Comp::Call { args, .. } => Seq::new(args@.len(), |i: int| args@[i].value),
        _ => Seq::empty(),
    }
}

/// What is called.
pub open spec fn callee(comp: Comp) -> Atom {
    match comp {
        Comp::App { fun, .. } => fun,
        Comp::Call { fun, .. } => fun,
        _ => Atom::Unit,
    }
}

/// What operands stand for.
pub open spec fn atom_values(args: Seq<Atom>, env: Env) -> Seq<Value> {
    Seq::new(args.len(), |i: int| atom_value(args[i], env))
}

/// How a computation ends, if calls nest and follow one another no deeper than `turns`
/// and no loop takes more turns.
pub open spec fn evaluate(comp: Comp, env: Env, w: World, turns: nat) -> Ends
    decreases turns, 1int, comp, turns + 2,
{
    match comp {
        Comp::Atom(a) => Ends::Value(atom_value(a, env), w),
        Comp::Bin(op, a, b) => match (atom_value(a, env), atom_value(b, env)) {
            (Value::Word(x), Value::Word(y)) => match op_meaning(op, x, y) {
                Meant::Word(z) => Ends::Value(Value::Word(z), w),
                Meant::Trap => Ends::Trap,
                Meant::Open => Ends::Open,
            },
            _ => Ends::Open,
        },
        Comp::If(c, yes, no) => match atom_value(c, env) {
            Value::Word(x) => if x != 0 {
                leaves(evaluate_block(*yes, env, w, turns), w)
            } else {
                leaves(evaluate_block(*no, env, w, turns), w)
            },
            _ => Ends::Open,
        },
        Comp::Loop { vars, .. } => evaluate_loop(
            comp,
            env,
            Seq::new(vars@.len(), |i: int| atom_value(vars@[i].init, env)),
            w,
            turns,
            turns,
        ),
        Comp::Lam { .. } => closes(None, comp, env, w),
        Comp::App { .. } => applies(
            atom_value(callee(comp), env),
            atom_values(call_args(comp), env),
            w,
            turns,
        ),
        Comp::Call { .. } => applies(
            atom_value(callee(comp), env),
            atom_values(call_args(comp), env),
            w,
            turns,
        ),
        Comp::SlotInit(name, a) => if w.left < 8 {
            Ends::Open
        } else {
            Ends::Value(
                Value::Word(0),
                World { cells: w.cells.insert(name@, atom_value(a, env)), ..w.less(8) },
            )
        },
        Comp::SlotLoad(name) => if w.cells.dom().contains(name@) {
            Ends::Value(w.cells[name@], w)
        } else {
            Ends::Open
        },
        Comp::SlotStore(name, a) => if w.cells.dom().contains(name@) {
            Ends::Value(
                Value::Word(0),
                World { cells: w.cells.insert(name@, atom_value(a, env)), ..w },
            )
        } else {
            Ends::Open
        },
        _ => Ends::Open,
    }
}

/// The variables once the first `n` names have these values.
pub open spec fn with_values(names: Seq<Seq<char>>, vals: Seq<Value>, n: nat, env: Env) -> Env
    decreases n,
{
    if n == 0 {
        env
    } else {
        with_values(names, vals, (n - 1) as nat, env).insert(names[n - 1], vals[n - 1])
    }
}

/// The names of accumulators.
pub open spec fn var_names(vars: Seq<LoopVar>) -> Seq<Seq<char>> {
    Seq::new(vars.len(), |i: int| vars[i].name@)
}

/// How a loop ends from its head on, where its accumulators have these values and `laps`
/// turns are looked at.
pub open spec fn evaluate_loop(
    comp: Comp,
    env: Env,
    vals: Seq<Value>,
    w: World,
    turns: nat,
    laps: nat,
) -> Ends
    decreases turns, 1int, comp, laps + 1,
{
    match comp {
        Comp::Loop { vars, cond, steps, result } => {
            let inside = with_values(var_names(vars@), vals, vars@.len(), env);
            match evaluate_block(*cond, inside, w, turns) {
                Ends::Value(Value::Word(c), tested) => {
                    let now = w.behind(tested);
                    if c == 0 {
                        leaves(evaluate_block(*result, inside, now, turns), now)
                    } else if laps == 0 {
                        Ends::Open
                    } else {
                        match evaluate_steps(steps, 0, inside, now, turns) {
                            Ok((next, later)) => evaluate_loop(
                                comp,
                                env,
                                next,
                                later,
                                turns,
                                (laps - 1) as nat,
                            ),
                            Err(ends) => ends,
                        }
                    }
                },
                Ends::Value(Value::Fun(_), _) => Ends::Open,
                other => other,
            }
        },
        _ => Ends::Open,
    }
}

/// The next values of the accumulators from position `i` on, and the world then; or what
/// ended before. Each step sees the values of the turn before.
pub open spec fn evaluate_steps(steps: Vec<Ir>, i: nat, env: Env, w: World, turns: nat) -> Result<
    (Seq<Value>, World),
    Ends,
>
    decreases turns, 1int, steps, steps.len() - i,
{
    if i >= steps.len() {
        Ok((Seq::empty(), w))
    } else {
        match evaluate_block(steps[i as int], env, w, turns) {
            Ends::Value(v, block) => match evaluate_steps(
                steps,
                i + 1,
                env,
                w.behind(block),
                turns,
            ) {
                Ok((vals, later)) => Ok((seq![v] + vals, later)),
                Err(ends) => Err(ends),
            },
            Ends::Trap => Err(Ends::Trap),
            Ends::Open => Err(Ends::Open),
        }
    }
}

/// How a function ends that is applied to arguments one by one.
pub open spec fn applies(f: Value, args: Seq<Value>, w: World, turns: nat) -> Ends
    decreases turns, 0int, f, 0nat,
{
    if args.len() == 0 {
        Ends::Value(f, w)
    } else if turns == 0 {
        Ends::Open
    } else {
        match f {
            Value::Word(_) => Ends::Open,
            Value::Fun(c) => match evaluate_block(
                lam_body(c.lam),
                c.inside(args[0]),
                w.called(),
                (turns - 1) as nat,
            ) {
                Ends::Value(v, body) => applies(
                    v,
                    args.drop_first(),
                    World { cells: w.cells, left: body.left },
                    (turns - 1) as nat,
                ),
                other => other,
            },
        }
    }
}

/// How a computation ends that is bound to a name. A lambda that refers to the name is
/// a function that calls itself.
pub open spec fn evaluate_bound(name: String, comp: Comp, env: Env, w: World, turns: nat) -> Ends
    decreases turns, 1int, comp, turns + 3,
{
    if names_itself(comp, name@) {
        closes(Some(name), comp, env, w)
    } else {
        evaluate(comp, env, w, turns)
    }
}

/// How many bindings a block lists.
pub open spec fn bind_count(ir: Ir) -> nat {
    match ir {
        Ir::Block { binds, .. } => binds.len() as nat,
        _ => 0,
    }
}

/// How a block ends.
pub open spec fn evaluate_block(ir: Ir, env: Env, w: World, turns: nat) -> Ends
    decreases turns, 1int, ir, bind_count(ir) + 1,
{
    match ir {
        Ir::Block { .. } => evaluate_rest(ir, 0, env, w, turns),
        Ir::Let { name, comp, rest, .. } => match evaluate_bound(name, *comp, env, w, turns) {
            Ends::Value(v, w) => evaluate_block(*rest, env.insert(name@, v), w, turns),
            other => other,
        },
        Ir::Ret { comp, .. } => evaluate(*comp, env, w, turns),
    }
}

/// How a block ends from binding `i` on.
pub open spec fn evaluate_rest(ir: Ir, i: nat, env: Env, w: World, turns: nat) -> Ends
    decreases turns, 1int, ir, bind_count(ir) - i,
{
    match ir {
        Ir::Block { binds, comp, .. } => if i >= binds.len() {
            evaluate(*comp, env, w, turns)
        } else {
            match evaluate_bound(binds[i as int].name, *binds[i as int].comp, env, w, turns) {
                Ends::Value(v, w) => evaluate_rest(
                    ir,
                    i + 1,
                    env.insert(binds[i as int].name@, v),
                    w,
                    turns,
                ),
                other => other,
            }
        },
        _ => Ends::Open,
    }
}

// ── the programs that are spoken of ──────────────────────────────────────
/// An operand that is no text.
pub open spec fn no_text(a: Atom) -> bool {
    !(a is Str)
}

/// A call whose arguments and result are cells.
pub open spec fn cell_call(comp: Comp) -> bool {
    &&& callee(comp) is Var
    &&& call_args(comp).len() > 0
    &&& forall|i: int| 0 <= i < call_args(comp).len() ==> no_text(#[trigger] call_args(comp)[i])
    &&& match comp {
        Comp::App { arg_ty, ret_ty, .. } => passed_in_cell(*arg_ty) && passed_in_cell(*ret_ty),
        Comp::Call { ret_ty, .. } => passed_in_cell(*ret_ty),
        _ => false,
    }
}

/// A computation of integers, functions and mutable locals; a loop builds no function.
/// No mutable local is declared that has one of the names `held`; those of the names
/// `seen` are declared already.
pub open spec fn spoken(comp: Comp, held: Names, seen: Names) -> bool
    decreases comp, 0nat,
{
    match comp {
        Comp::Atom(a) => no_text(a),
        Comp::Bin(_, a, b) => no_text(a) && no_text(b),
        Comp::Loop { vars, cond, steps, result } => {
            &&& forall|i: int| 0 <= i < vars@.len() ==> cell_accumulator(#[trigger] vars@[i])
            &&& spoken_block(*cond, seen, seen) && bare_block(*cond)
            &&& spoken_steps(steps, steps.len() as nat, seen)
            &&& spoken_block(*result, seen, seen) && bare_block(*result)
        },
        Comp::If(c, yes, no) => no_text(c) && spoken_block(*yes, seen, seen) && spoken_block(
            *no,
            seen,
            seen,
        ),
        Comp::Lam { body, ret_ty, .. } => {
            &&& plain_param(lam_param(comp))
            &&& passed_in_cell(*ret_ty)
            &&& !performs_gc(*body)
            &&& all_params(comp).len() < u32::MAX
            &&& spoken_block(*body, seen, seen)
        },
        Comp::App { .. } => cell_call(comp),
        Comp::Call { .. } => cell_call(comp),
        Comp::SlotInit(name, a) => no_text(a) && !held.contains(name@),
        Comp::SlotLoad(_) => true,
        Comp::SlotStore(_, a) => no_text(a),
        _ => false,
    }
}

/// An accumulator that is a cell and starts with no text.
pub open spec fn cell_accumulator(var: LoopVar) -> bool {
    plain_var(var) && cell_var(var.ty, var.layout)
}

/// The first `n` steps are such blocks.
pub open spec fn spoken_steps(steps: Vec<Ir>, n: nat, seen: Names) -> bool
    decreases steps, n,
{
    n == 0 || n > steps.len() || (spoken_steps(steps, (n - 1) as nat, seen) && spoken_block(
        steps[n - 1],
        seen,
        seen,
    ) && bare_block(steps[n - 1]))
}

/// A computation that builds no function.
pub open spec fn bare(comp: Comp) -> bool
    decreases comp, 0nat,
{
    match comp {
        Comp::Lam { .. } => false,
        Comp::If(_, yes, no) => bare_block(*yes) && bare_block(*no),
        _ => true,
    }
}

/// A block that builds no function.
pub open spec fn bare_block(ir: Ir) -> bool
    decreases ir, bind_count(ir) + 1,
{
    match ir {
        Ir::Block { .. } => bare_rest(ir, 0),
        Ir::Let { comp, rest, .. } => bare(*comp) && bare_block(*rest),
        Ir::Ret { comp, .. } => bare(*comp),
    }
}

/// Such a block from binding `i` on.
pub open spec fn bare_rest(ir: Ir, i: nat) -> bool
    decreases ir, bind_count(ir) - i,
{
    match ir {
        Ir::Block { binds, comp, .. } => if i >= binds.len() {
            bare(*comp)
        } else {
            bare(*binds[i as int].comp) && bare_rest(ir, i + 1)
        },
        _ => false,
    }
}

/// The names of the mutable locals that are declared behind a computation.
pub open spec fn seen_with(comp: Comp, seen: Names) -> Names {
    match comp {
        Comp::SlotInit(name, _) => seen.insert(name@),
        _ => seen,
    }
}

/// A variable that is a cell.
pub open spec fn cell_var(ty: Rc<Type>, layout: ValueLayout) -> bool {
    cells_of(layout) == 1 && passed_in_cell(*ty)
}

/// A block of such computations, bound to variables that are cells.
pub open spec fn spoken_block(ir: Ir, held: Names, seen: Names) -> bool
    decreases ir, bind_count(ir) + 1,
{
    match ir {
        Ir::Block { .. } => spoken_rest(ir, 0, held, seen),
        Ir::Let { ty, layout, comp, rest, .. } => {
            &&& spoken(*comp, held, seen)
            &&& cell_var(ty, layout)
            &&& spoken_block(*rest, held, seen_with(*comp, seen))
        },
        Ir::Ret { comp, .. } => spoken(*comp, held, seen),
    }
}

/// Such a block from binding `i` on.
pub open spec fn spoken_rest(ir: Ir, i: nat, held: Names, seen: Names) -> bool
    decreases ir, bind_count(ir) - i,
{
    match ir {
        Ir::Block { binds, comp, .. } => if i >= binds.len() {
            spoken(*comp, held, seen)
        } else {
            let b = binds[i as int];
            &&& spoken(*b.comp, held, seen)
            &&& cell_var(b.ty, b.layout)
            &&& spoken_rest(ir, i + 1, held, seen_with(*b.comp, seen))
        },
        _ => false,
    }
}

} // verus!
