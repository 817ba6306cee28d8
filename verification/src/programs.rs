//! Programs of integers and what they mean.
use crate::ir::{Atom, BinOp, Comp, Ir, IrBind, LoopVar};
use crate::meaning::gives;
use vstd::prelude::*;

verus! {

// ── what programs mean ───────────────────────────────────────────────────
/// The words that variables stand for.
pub type Vars = Map<Seq<char>, u64>;

/// What a program means.
pub enum Meant {
    Word(u64),
    /// It ends in a trap.
    Trap,
    /// It shifts by more than a word has bits, which has no meaning, or one of its
    /// loops takes more turns than are looked at.
    Open,
}

/// The word of an operand.
pub open spec fn atom_word(a: Atom, vars: Vars) -> u64 {
    match a {
        Atom::Int(n) => n as u64,
        Atom::Float(bits) => bits,
        Atom::Bool(b) => if b {
            1
        } else {
            0
        },
        Atom::Var(x) => vars[x@],
        _ => 0,
    }
}

/// What an operation on two words means.
pub open spec fn op_meaning(op: BinOp, a: u64, b: u64) -> Meant {
    if (op is Shl || op is Shr) && b >= 64 {
        Meant::Open
    } else {
        match gives(op, a, b) {
            Some(w) => Meant::Word(w),
            None => Meant::Trap,
        }
    }
}

/// The words that the accumulators of a loop start with.
pub open spec fn init_words(loop_vars: Seq<LoopVar>, vars: Vars) -> Seq<u64> {
    Seq::new(loop_vars.len(), |i: int| atom_word(loop_vars[i].init, vars))
}

/// The variables once the first `n` accumulators have these words.
pub open spec fn vars_with(loop_vars: Seq<LoopVar>, words: Seq<u64>, n: nat, vars: Vars) -> Vars
    decreases n,
{
    if n == 0 {
        vars
    } else {
        vars_with(loop_vars, words, (n - 1) as nat, vars).insert(
            loop_vars[n - 1].name@,
            words[n - 1],
        )
    }
}

/// What a computation means, if no loop takes more than `turns` turns.
pub open spec fn comp_meaning(comp: Comp, vars: Vars, turns: nat) -> Meant
    decreases comp, turns + 1,
{
    match comp {
        Comp::Atom(a) => Meant::Word(atom_word(a, vars)),
        Comp::Bin(op, a, b) => op_meaning(op, atom_word(a, vars), atom_word(b, vars)),
        Comp::If(c, yes, no) => if atom_word(c, vars) != 0 {
            ir_meaning(*yes, vars, turns)
        } else {
            ir_meaning(*no, vars, turns)
        },
        Comp::Loop { vars: loop_vars, .. } => loop_meaning(
            comp,
            vars,
            init_words(loop_vars@, vars),
            turns,
            turns,
        ),
        _ => Meant::Open,
    }
}

/// What a loop means from its head on, where its accumulators have these words and
/// `left` turns are looked at.
pub open spec fn loop_meaning(
    comp: Comp,
    vars: Vars,
    words: Seq<u64>,
    turns: nat,
    left: nat,
) -> Meant
    decreases comp, left,
{
    match comp {
        Comp::Loop { vars: loop_vars, cond, steps, result } => {
            let inside = vars_with(loop_vars@, words, loop_vars@.len(), vars);
            match ir_meaning(*cond, inside, turns) {
                Meant::Word(c) => if c == 0 {
                    ir_meaning(*result, inside, turns)
                } else if left == 0 {
                    Meant::Open
                } else {
                    match step_words(steps, 0, inside, turns) {
                        Ok(next) => loop_meaning(comp, vars, next, turns, (left - 1) as nat),
                        Err(m) => m,
                    }
                },
                other => other,
            }
        },
        _ => Meant::Open,
    }
}

/// The next words of the accumulators from position `i` on, or what ended before.
/// Each step sees the words of the turn before.
pub open spec fn step_words(steps: Vec<Ir>, i: nat, vars: Vars, turns: nat) -> Result<
    Seq<u64>,
    Meant,
>
    decreases steps, steps.len() - i,
{
    if i >= steps.len() {
        Ok(Seq::empty())
    } else {
        match ir_meaning(steps[i as int], vars, turns) {
            Meant::Word(w) => match step_words(steps, i + 1, vars, turns) {
                Ok(words) => Ok(seq![w] + words),
                Err(m) => Err(m),
            },
            other => Err(other),
        }
    }
}

/// What a block means.
pub open spec fn ir_meaning(ir: Ir, vars: Vars, turns: nat) -> Meant
    decreases ir, 0nat,
{
    match ir {
        Ir::Block { binds, comp, .. } => match vars_from(binds, 0, vars, turns) {
            Ok(vars) => comp_meaning(*comp, vars, turns),
            Err(m) => m,
        },
        Ir::Let { name, comp, rest, .. } => match comp_meaning(*comp, vars, turns) {
            Meant::Word(w) => ir_meaning(*rest, vars.insert(name@, w), turns),
            other => other,
        },
        Ir::Ret { comp, .. } => comp_meaning(*comp, vars, turns),
    }
}

/// The variables behind the bindings from position `i` on, or what ended before.
pub open spec fn vars_from(binds: Vec<IrBind>, i: nat, vars: Vars, turns: nat) -> Result<
    Vars,
    Meant,
>
    decreases binds, binds.len() - i,
{
    if i >= binds.len() {
        Ok(vars)
    } else {
        match comp_meaning(*binds[i as int].comp, vars, turns) {
            Meant::Word(w) => vars_from(
                binds,
                i + 1,
                vars.insert(binds[i as int].name@, w),
                turns,
            ),
            other => Err(other),
        }
    }
}

/// An accumulator that is one cell, whose starting value is no text.
pub open spec fn plain_var(var: LoopVar) -> bool {
    var.layout.scalar_only() && !(var.init is Str)
}

/// A computation of the programs that are spoken of: operands, integer operations,
/// branches and, where there is no collector, loops.
pub open spec fn plain_comp(comp: Comp, gc: bool) -> bool
    decreases comp, 0nat,
{
    match comp {
        Comp::Atom(a) => !(a is Str),
        Comp::Bin(_, a, b) => !(a is Str) && !(b is Str),
        Comp::If(c, yes, no) => !(c is Str) && plain_ir(*yes, gc) && plain_ir(*no, gc),
        Comp::Loop { vars, cond, steps, result } => {
            &&& !gc
            &&& forall|i: int| 0 <= i < vars.len() ==> plain_var(#[trigger] vars[i])
            &&& plain_ir(*cond, gc)
            &&& plain_steps(steps, steps.len() as nat, gc)
            &&& plain_ir(*result, gc)
        },
        _ => false,
    }
}

/// A block of such computations.
pub open spec fn plain_ir(ir: Ir, gc: bool) -> bool
    decreases ir, 0nat,
{
    match ir {
        Ir::Block { binds, comp, .. } => plain_binds(binds, binds.len() as nat, gc) && plain_comp(
            *comp,
            gc,
        ),
        Ir::Let { comp, rest, .. } => plain_comp(*comp, gc) && plain_ir(*rest, gc),
        Ir::Ret { comp, .. } => plain_comp(*comp, gc),
    }
}

/// The first `n` bindings are of such computations.
pub open spec fn plain_binds(binds: Vec<IrBind>, n: nat, gc: bool) -> bool
    decreases binds, n,
{
    n == 0 || n > binds.len() || (plain_binds(binds, (n - 1) as nat, gc) && plain_comp(
        *binds[n - 1].comp,
        gc,
    ))
}

/// The first `n` steps are such blocks.
pub open spec fn plain_steps(steps: Vec<Ir>, n: nat, gc: bool) -> bool
    decreases steps, n,
{
    n == 0 || n > steps.len() || (plain_steps(steps, (n - 1) as nat, gc) && plain_ir(
        steps[n - 1],
        gc,
    ))
}

// ── programs whose variables are in scope ────────────────────────────────
/// The names of variables in scope.
pub type Names = Set<Seq<char>>;

/// The operand is no text, and no variable out of scope.
pub open spec fn known_atom(a: Atom, names: Names) -> bool {
    match a {
        Atom::Str(_) => false,
        Atom::Var(x) => names.contains(x@),
        _ => true,
    }
}

/// A computation of integers over the variables in scope.
pub open spec fn known_comp(comp: Comp, names: Names, gc: bool) -> bool
    decreases comp, 0nat,
{
    match comp {
        Comp::Atom(a) => known_atom(a, names),
        Comp::Bin(_, a, b) => known_atom(a, names) && known_atom(b, names),
        Comp::If(c, yes, no) => {
            &&& known_atom(c, names)
            &&& known_ir(*yes, names, gc)
            &&& known_ir(*no, names, gc)
        },
        Comp::Loop { vars, cond, steps, result } => {
            let inside = names_with(vars@, vars@.len(), names);
            &&& !gc
            &&& vars@.len() == steps.len()
            &&& forall|i: int|
                0 <= i < vars.len() ==> plain_var(#[trigger] vars[i]) && known_atom(
                    vars[i].init,
                    names,
                )
            &&& known_ir(*cond, inside, gc)
            &&& known_steps(steps, steps.len() as nat, inside, gc)
            &&& known_ir(*result, inside, gc)
        },
        _ => false,
    }
}

/// A block of such computations.
pub open spec fn known_ir(ir: Ir, names: Names, gc: bool) -> bool
    decreases ir, 0nat,
{
    match ir {
        Ir::Block { binds, comp, .. } => known_binds(binds, 0, names, gc) && known_comp(
            *comp,
            names_from(binds, 0, names),
            gc,
        ),
        Ir::Let { name, comp, rest, .. } => known_comp(*comp, names, gc) && known_ir(
            *rest,
            names.insert(name@),
            gc,
        ),
        Ir::Ret { comp, .. } => known_comp(*comp, names, gc),
    }
}

/// The bindings from position `i` on are of such computations.
pub open spec fn known_binds(binds: Vec<IrBind>, i: nat, names: Names, gc: bool) -> bool
    decreases binds, binds.len() - i,
{
    i >= binds.len() || (known_comp(*binds[i as int].comp, names, gc) && known_binds(
        binds,
        i + 1,
        names.insert(binds[i as int].name@),
        gc,
    ))
}

/// The first `n` steps are such blocks.
pub open spec fn known_steps(steps: Vec<Ir>, n: nat, names: Names, gc: bool) -> bool
    decreases steps, n,
{
    n == 0 || n > steps.len() || (known_steps(steps, (n - 1) as nat, names, gc) && known_ir(
        steps[n - 1],
        names,
        gc,
    ))
}

/// The names in scope behind the bindings from position `i` on.
pub open spec fn names_from(binds: Vec<IrBind>, i: nat, names: Names) -> Names
    decreases binds.len() - i,
{
    if i >= binds.len() {
        names
    } else {
        names_from(binds, i + 1, names.insert(binds[i as int].name@))
    }
}

/// The names in scope with the first `n` accumulators.
pub open spec fn names_with(loop_vars: Seq<LoopVar>, n: nat, names: Names) -> Names
    decreases n,
{
    if n == 0 {
        names
    } else {
        names_with(loop_vars, (n - 1) as nat, names).insert(loop_vars[n - 1].name@)
    }
}

// ── functions that call themselves last ──────────────────────────────────
/// A function that may call itself in tail position.
pub struct Fun {
    /// Its own name.
    pub own: Seq<char>,
    pub params: Seq<Seq<char>>,
    /// Whether it is called with all its arguments at once.
    pub uncurried: bool,
    pub body: Ir,
}

/// The arguments of a call of the function itself.
pub open spec fn own_args(comp: Comp, f: Fun) -> Option<Seq<Atom>> {
    match comp {
        Comp::App { fun: Atom::Var(x), arg, .. } => if !f.uncurried && x@ == f.own {
            Some(seq![arg])
        } else {
            None
        },
        Comp::Call { fun: Atom::Var(x), args, .. } => if f.uncurried && x@ == f.own && args.len()
            == f.params.len() {
            Some(Seq::new(args@.len(), |i: int| args[i].value))
        } else {
            None
        },
        _ => None,
    }
}

/// The variables once the first `n` names have these words.
pub open spec fn with_words(names: Seq<Seq<char>>, words: Seq<u64>, n: nat, vars: Vars) -> Vars
    decreases n,
{
    if n == 0 {
        vars
    } else {
        with_words(names, words, (n - 1) as nat, vars).insert(names[n - 1], words[n - 1])
    }
}

/// The words of operands.
pub open spec fn atom_words(args: Seq<Atom>, vars: Vars) -> Seq<u64> {
    Seq::new(args.len(), |i: int| atom_word(args[i], vars))
}

/// What a function means on arguments, if it calls itself at most `depth` times.
/// What it finds in its surroundings has the words `vars`.
pub open spec fn fun_meaning(f: Fun, words: Seq<u64>, vars: Vars, turns: nat, depth: nat) -> Meant {
    tail_meaning(f, f.body, with_words(f.params, words, f.params.len(), vars), vars, turns, depth)
}

/// What a block in tail position means where its variables have the words `local`.
pub open spec fn tail_meaning(f: Fun, ir: Ir, local: Vars, vars: Vars, turns: nat, depth: nat) -> Meant
    decreases depth, ir,
{
    match ir {
        Ir::Block { binds, comp, .. } => match vars_from(binds, 0, local, turns) {
            Ok(local) => tail_comp_meaning(f, *comp, local, vars, turns, depth),
            Err(m) => m,
        },
        Ir::Let { name, comp, rest, .. } => match comp_meaning(*comp, local, turns) {
            Meant::Word(w) => tail_meaning(f, *rest, local.insert(name@, w), vars, turns, depth),
            other => other,
        },
        Ir::Ret { comp, .. } => tail_comp_meaning(f, *comp, local, vars, turns, depth),
    }
}

/// What a computation in tail position means: a call of the function itself means
/// what the function does on the arguments of the call.
pub open spec fn tail_comp_meaning(
    f: Fun,
    comp: Comp,
    local: Vars,
    vars: Vars,
    turns: nat,
    depth: nat,
) -> Meant
    decreases depth, comp,
{
    match own_args(comp, f) {
        Some(args) => if depth == 0 {
            Meant::Open
        } else {
            tail_meaning(
                f,
                f.body,
                with_words(f.params, atom_words(args, local), f.params.len(), vars),
                vars,
                turns,
                (depth - 1) as nat,
            )
        },
        None => match comp {
            Comp::If(c, yes, no) => if atom_word(c, local) != 0 {
                tail_meaning(f, *yes, local, vars, turns, depth)
            } else {
                tail_meaning(f, *no, local, vars, turns, depth)
            },
            _ => comp_meaning(comp, local, turns),
        },
    }
}

/// A block of integers in tail position, in which the function may call itself.
/// Its own name stands for the function throughout.
pub open spec fn plain_tail(f: Fun, ir: Ir) -> bool
    decreases ir,
{
    match ir {
        Ir::Block { binds, comp, .. } => {
            &&& plain_binds(binds, binds.len() as nat, false)
            &&& forall|i: int| 0 <= i < binds.len() ==> (#[trigger] binds[i]).name@ != f.own
            &&& plain_tail_comp(f, *comp)
        },
        Ir::Let { name, comp, rest, .. } => name@ != f.own && plain_comp(*comp, false) && plain_tail(
            f,
            *rest,
        ),
        Ir::Ret { comp, .. } => plain_tail_comp(f, *comp),
    }
}

/// A computation of integers in tail position.
pub open spec fn plain_tail_comp(f: Fun, comp: Comp) -> bool
    decreases comp,
{
    match own_args(comp, f) {
        Some(args) => forall|i: int| 0 <= i < args.len() ==> !(#[trigger] args[i] is Str),
        None => match comp {
            Comp::If(c, yes, no) => !(c is Str) && plain_tail(f, *yes) && plain_tail(f, *no),
            _ => plain_comp(comp, false),
        },
    }
}

/// A function of integers that may call itself in tail position.
pub open spec fn plain_fun(f: Fun) -> bool {
    &&& plain_tail(f, f.body)
    &&& !f.params.contains(f.own)
    &&& !f.uncurried ==> f.params.len() == 1
}

// ── clauses that resume last ─────────────────────────────────────────────
/// What a clause resumes with, if a computation is the call of its continuation.
pub open spec fn resumed_with(comp: Comp, resume: Seq<char>) -> Option<Atom> {
    match comp {
        Comp::App { fun: Atom::Var(x), arg, .. } => if x@ == resume {
            Some(arg)
        } else {
            None
        },
        _ => None,
    }
}

/// What the body of a clause that resumes last gives the operation it handles: the
/// word that it resumes with.
pub open spec fn resumed_meaning(resume: Seq<char>, ir: Ir, vars: Vars, turns: nat) -> Meant
    decreases ir,
{
    match ir {
        Ir::Block { binds, comp, .. } => match vars_from(binds, 0, vars, turns) {
            Ok(vars) => match resumed_with(*comp, resume) {
                Some(a) => Meant::Word(atom_word(a, vars)),
                None => comp_meaning(*comp, vars, turns),
            },
            Err(m) => m,
        },
        Ir::Let { name, comp, rest, .. } => match comp_meaning(*comp, vars, turns) {
            Meant::Word(w) => resumed_meaning(resume, *rest, vars.insert(name@, w), turns),
            other => other,
        },
        Ir::Ret { comp, .. } => match resumed_with(*comp, resume) {
            Some(a) => Meant::Word(atom_word(a, vars)),
            None => comp_meaning(*comp, vars, turns),
        },
    }
}

/// The body of a clause of integers that may resume at its end.
pub open spec fn plain_clause(resume: Seq<char>, ir: Ir, gc: bool) -> bool
    decreases ir,
{
    match ir {
        Ir::Block { binds, comp, .. } => plain_binds(binds, binds.len() as nat, gc) && plain_last(
            resume,
            *comp,
            gc,
        ),
        Ir::Let { comp, rest, .. } => plain_comp(*comp, gc) && plain_clause(resume, *rest, gc),
        Ir::Ret { comp, .. } => plain_last(resume, *comp, gc),
    }
}

/// The last computation of such a body.
pub open spec fn plain_last(resume: Seq<char>, comp: Comp, gc: bool) -> bool {
    match resumed_with(comp, resume) {
        Some(a) => !(a is Str),
        None => plain_comp(comp, gc),
    }
}

} // verus!
