//! What is proved of the indices that a loop guard holds in bounds: whenever the body
//! of the loop is entered, the index lies inside the array.
use crate::analysis::binds_name;
use crate::ir::{target, Atom, Comp, Ir, IrBind, LoopVar};
use crate::loops::{
    grows, guard_of, lens_after, lens_with, no_step_binds, nonnegative, nonnegative_at,
    not_less_than, proved_bound, stands_for, upper_bound, Lens, LONGEST,
};
use crate::meaning::{gives, signed};
use crate::programs::{atom_word, vars_with, Vars};
use vstd::prelude::*;

verus! {

/// The lengths of arrays, by their handles.
pub type Sizes = Map<u64, u64>;

/// No array is longer than memory allows.
pub open spec fn sizeable(sizes: Sizes) -> bool {
    forall|h: u64| #[trigger] sizes[h] <= LONGEST
}

/// The computation may have this word: that of an operand, of an integer operation
/// or of a length is known, any other is open.
pub open spec fn may(comp: Comp, env: Vars, sizes: Sizes, w: u64) -> bool {
    match comp {
        Comp::Atom(a) => a is Str || w == atom_word(a, env),
        Comp::Bin(op, a, b) => a is Str || b is Str || ((op is Shl || op is Shr) && atom_word(b, env)
            >= 64) || gives(op, atom_word(a, env), atom_word(b, env)) == Some(w),
        Comp::Len(Atom::Var(x)) => w == sizes[env[x@]],
        _ => true,
    }
}

/// The variables behind the first `n` bindings, which have these words.
pub open spec fn bound_to(binds: Seq<IrBind>, words: Seq<u64>, n: nat, env: Vars) -> Vars
    decreases n,
{
    if n == 0 {
        env
    } else {
        bound_to(binds, words, (n - 1) as nat, env).insert(binds[n - 1].name@, words[n - 1])
    }
}

/// The bindings may have these words.
pub open spec fn may_bind(binds: Seq<IrBind>, words: Seq<u64>, env: Vars, sizes: Sizes) -> bool {
    &&& words.len() == binds.len()
    &&& forall|i: int|
        0 <= i < binds.len() ==> may(
            *(#[trigger] binds[i]).comp,
            bound_to(binds, words, i as nat, env),
            sizes,
            words[i],
        )
}

/// The block may have this word.
pub open spec fn may_be(ir: Ir, env: Vars, sizes: Sizes, w: u64) -> bool
    decreases ir,
{
    match ir {
        Ir::Block { binds, comp, .. } => exists|words: Seq<u64>| #[trigger]
            may_bind(binds@, words, env, sizes) && may(
                *comp,
                bound_to(binds@, words, binds@.len(), env),
                sizes,
                w,
            ),
        Ir::Let { name, comp, rest, .. } => exists|x: u64| #[trigger]
            may(*comp, env, sizes, x) && may_be(*rest, env.insert(name@, x), sizes, w),
        Ir::Ret { comp, .. } => may(*comp, env, sizes, w),
    }
}

/// The body of a loop may be entered.
pub open spec fn enters(cond: Ir, env: Vars, sizes: Sizes) -> bool {
    exists|c: u64| c != 0 && #[trigger] may_be(cond, env, sizes, c)
}

/// The variables inside a loop whose accumulators have these words.
pub open spec fn inside(vars: Seq<LoopVar>, words: Seq<u64>, env: Vars) -> Vars {
    vars_with(vars, words, vars.len(), env)
}

/// The words of the accumulators in the turns of a loop: each turn but the last went
/// through the body, where each step gave the next word of its accumulator.
pub open spec fn turned(
    vars: Seq<LoopVar>,
    cond: Ir,
    steps: Seq<Ir>,
    env: Vars,
    sizes: Sizes,
    words: Seq<Seq<u64>>,
) -> bool {
    &&& words.len() > 0
    &&& forall|j: int|
        0 <= j < vars.len() ==> (#[trigger] vars[j]).init is Str || words[0][j] == atom_word(
            vars[j].init,
            env,
        )
    &&& forall|t: int|
        0 <= t < words.len() - 1 ==> enters(cond, #[trigger] inside(vars, words[t], env), sizes)
            && stepped(vars, steps, inside(vars, words[t], env), sizes, words[t + 1])
}

/// Each step may give the next word of its accumulator.
pub open spec fn stepped(
    vars: Seq<LoopVar>,
    steps: Seq<Ir>,
    env: Vars,
    sizes: Sizes,
    next: Seq<u64>,
) -> bool {
    forall|j: int| 0 <= j < vars.len() ==> may_be(#[trigger] steps[j], env, sizes, next[j])
}

// ── what a condition says ────────────────────────────────────────────────
/// Every name that is held to be the length of the array is.
pub open spec fn measured(lens: Lens, arr: Seq<char>, env: Vars, sizes: Sizes) -> bool {
    forall|x: Seq<char>| #[trigger]
        lens.dom().contains(x) && lens[x]@ == arr ==> env[x] == sizes[env[arr]]
}

proof fn lemma_measured(
    lens: Lens,
    arr: Seq<char>,
    name: Seq<char>,
    comp: Comp,
    env: Vars,
    sizes: Sizes,
    w: u64,
)
    requires
        measured(lens, arr, env, sizes),
        name != arr,
        may(comp, env, sizes, w),
    ensures
        measured(lens_with(lens, name, comp), arr, env.insert(name, w), sizes),
{
    let after = lens_with(lens, name, comp);
    let now = env.insert(name, w);
    assert forall|x: Seq<char>| #[trigger] after.dom().contains(x) && after[x]@ == arr implies now[x]
        == sizes[now[arr]] by {
        if x != name {
            assert(lens.dom().contains(x) && lens[x]@ == arr);
        }
    }
}

proof fn lemma_guard(comp: Comp, lens: Lens, env: Vars, sizes: Sizes, c: u64)
    requires
        guard_of(comp, lens) matches Some((arr, idx)) && measured(lens, arr@, env, sizes),
        may(comp, env, sizes, c),
        c != 0,
    ensures
        guard_of(comp, lens) matches Some((arr, idx)) && signed(env[idx@]) < signed(
            sizes[env[arr@]],
        ),
{
}

proof fn lemma_measured_binds(
    binds: Seq<IrBind>,
    n: nat,
    words: Seq<u64>,
    lens: Lens,
    arr: Seq<char>,
    idx: Seq<char>,
    env: Vars,
    sizes: Sizes,
)
    requires
        n <= binds.len(),
        may_bind(binds, words, env, sizes),
        measured(lens, arr, env, sizes),
        forall|i: int|
            0 <= i < binds.len() ==> (#[trigger] binds[i]).name@ != arr && binds[i].name@ != idx,
    ensures
        measured(lens_after(binds, n, lens), arr, bound_to(binds, words, n, env), sizes),
        bound_to(binds, words, n, env)[arr] == env[arr],
        bound_to(binds, words, n, env)[idx] == env[idx],
    decreases n,
{
    if n > 0 {
        lemma_measured_binds(binds, (n - 1) as nat, words, lens, arr, idx, env, sizes);
        lemma_measured(
            lens_after(binds, (n - 1) as nat, lens),
            arr,
            binds[n - 1].name@,
            target(binds[n - 1].comp),
            bound_to(binds, words, (n - 1) as nat, env),
            sizes,
            words[n - 1],
        );
    }
}

/// A condition that holds puts the index below the length.
proof fn lemma_condition(cond: Ir, lens: Lens, env: Vars, sizes: Sizes, c: u64)
    requires
        upper_bound(cond, lens) matches Some((arr, idx)) && measured(lens, arr@, env, sizes)
            && !binds_name(cond, arr@) && !binds_name(cond, idx@),
        may_be(cond, env, sizes, c),
        c != 0,
    ensures
        upper_bound(cond, lens) matches Some((arr, idx)) && signed(env[idx@]) < signed(
            sizes[env[arr@]],
        ),
    decreases cond,
{
    let (arr, idx) = upper_bound(cond, lens)->Some_0;
    match cond {
        Ir::Block { binds, comp, .. } => {
            let words = choose|words: Seq<u64>| #[trigger]
                may_bind(binds@, words, env, sizes) && may(
                    *comp,
                    bound_to(binds@, words, binds@.len(), env),
                    sizes,
                    c,
                );
            assert forall|i: int| 0 <= i < binds@.len() implies (#[trigger] binds@[i]).name@ != arr@
                && binds@[i].name@ != idx@ by {
                assert(binds[i].name@ != arr@ && binds[i].name@ != idx@);
            }
            lemma_measured_binds(binds@, binds@.len(), words, lens, arr@, idx@, env, sizes);
            lemma_guard(
                target(comp),
                lens_after(binds@, binds@.len(), lens),
                bound_to(binds@, words, binds@.len(), env),
                sizes,
                c,
            );
        },
        Ir::Let { name, comp, rest, .. } => {
            let x = choose|x: u64| #[trigger]
                may(*comp, env, sizes, x) && may_be(*rest, env.insert(name@, x), sizes, c);
            lemma_measured(lens, arr@, name@, target(comp), env, sizes, x);
            lemma_condition(
                target(rest),
                lens_with(lens, name@, target(comp)),
                env.insert(name@, x),
                sizes,
                c,
            );
        },
        Ir::Ret { comp, .. } => lemma_guard(target(comp), lens, env, sizes, c),
    }
}

// ── what a step does ─────────────────────────────────────────────────────
proof fn lemma_one_more(comp: Comp, name: Seq<char>, env: Vars, sizes: Sizes, w: u64)
    requires
        not_less_than(comp, name),
        may(comp, env, sizes, w),
        0 <= signed(env[name]) < LONGEST,
    ensures
        0 <= signed(w),
{
    assert(forall|n: i64| 0 <= n <= LONGEST ==> #[trigger] (n as u64) == n);
}

proof fn lemma_untouched(binds: Seq<IrBind>, words: Seq<u64>, n: nat, env: Vars, name: Seq<char>)
    requires
        n <= binds.len(),
        forall|i: int| 0 <= i < binds.len() ==> (#[trigger] binds[i]).name@ != name,
    ensures
        bound_to(binds, words, n, env)[name] == env[name],
    decreases n,
{
    if n > 0 {
        lemma_untouched(binds, words, (n - 1) as nat, env, name);
    }
}

/// A step of a counter does not make it negative where something is greater.
proof fn lemma_counts_up(step: Ir, name: Seq<char>, env: Vars, sizes: Sizes, w: u64)
    requires
        grows(name, step),
        may_be(step, env, sizes, w),
        0 <= signed(env[name]) < LONGEST,
    ensures
        0 <= signed(w),
    decreases step,
{
    match step {
        Ir::Block { binds, comp, .. } => {
            let words = choose|words: Seq<u64>| #[trigger]
                may_bind(binds@, words, env, sizes) && may(
                    *comp,
                    bound_to(binds@, words, binds@.len(), env),
                    sizes,
                    w,
                );
            assert forall|i: int| 0 <= i < binds@.len() implies (#[trigger] binds@[i]).name@
                != name by {
                assert(binds[i].name@ != name);
            }
            lemma_untouched(binds@, words, binds@.len(), env, name);
            lemma_one_more(
                target(comp),
                name,
                bound_to(binds@, words, binds@.len(), env),
                sizes,
                w,
            );
        },
        Ir::Let { name: bound, comp, rest, .. } => {
            let x = choose|x: u64| #[trigger]
                may(*comp, env, sizes, x) && may_be(*rest, env.insert(bound@, x), sizes, w);
            lemma_counts_up(target(rest), name, env.insert(bound@, x), sizes, w);
        },
        Ir::Ret { comp, .. } => lemma_one_more(target(comp), name, env, sizes, w),
    }
}

proof fn lemma_stands_for(vars: Seq<LoopVar>, words: Seq<u64>, n: nat, env: Vars, j: int)
    requires
        n <= vars.len(),
        0 <= j < n,
        stands_for(vars, vars[j].name@, j),
    ensures
        vars_with(vars, words, n, env)[vars[j].name@] == words[j],
    decreases n,
{
    if j < n - 1 {
        lemma_stands_for(vars, words, (n - 1) as nat, env, j);
        assert(vars[n - 1].name@ != vars[j].name@);
    }
}

/// The accumulator that the guard bounds is not negative in any turn.
proof fn lemma_never_negative(
    vars: Seq<LoopVar>,
    cond: Ir,
    steps: Seq<Ir>,
    env: Vars,
    sizes: Sizes,
    words: Seq<Seq<u64>>,
    t: int,
    j: int,
)
    requires
        proved_bound(vars, cond, steps) matches Some((arr, idx)) && stands_for(vars, idx@, j),
        nonnegative_at(vars, steps, j),
        turned(vars, cond, steps, env, sizes, words),
        sizeable(sizes),
        0 <= t < words.len(),
    ensures
        0 <= signed(words[t][j]),
    decreases t,
{
    let (arr, idx) = proved_bound(vars, cond, steps)->Some_0;
    if t == 0 {
        assert(vars[j].init matches Atom::Int(n) && n >= 0);
        let n = vars[j].init->Int_0;
        assert(words[0][j] == n as u64);
        assert(n >= 0 ==> (n as u64) == n);
    } else {
        lemma_never_negative(vars, cond, steps, env, sizes, words, t - 1, j);
        let now = inside(vars, words[t - 1], env);
        assert(enters(cond, now, sizes) && stepped(vars, steps, now, sizes, words[t - 1 + 1]));
        let c = choose|c: u64| c != 0 && #[trigger] may_be(cond, now, sizes, c);
        lemma_condition(cond, Map::empty(), now, sizes, c);
        lemma_stands_for(vars, words[t - 1], vars.len(), env, j);
        assert(may_be(steps[j], now, sizes, words[t][j]));
        lemma_counts_up(steps[j], vars[j].name@, now, sizes, words[t][j]);
    }
}

/// An index that a loop is said to hold in bounds lies inside its array whenever the
/// body is entered, in every turn of every run of the loop, whatever the computations
/// in it do that are no operand, integer operation or length.
pub proof fn a_proved_index_lies_inside_its_array(
    vars: Seq<LoopVar>,
    cond: Ir,
    steps: Seq<Ir>,
    env: Vars,
    sizes: Sizes,
    words: Seq<Seq<u64>>,
    t: int,
)
    requires
        proved_bound(vars, cond, steps) is Some,
        turned(vars, cond, steps, env, sizes, words),
        sizeable(sizes),
        0 <= t < words.len(),
        enters(cond, inside(vars, words[t], env), sizes),
    ensures
        proved_bound(vars, cond, steps) matches Some((arr, idx)) && 0 <= signed(
            inside(vars, words[t], env)[idx@],
        ) < signed(sizes[inside(vars, words[t], env)[arr@]]),
{
    let (arr, idx) = proved_bound(vars, cond, steps)->Some_0;
    let now = inside(vars, words[t], env);
    let c = choose|c: u64| c != 0 && #[trigger] may_be(cond, now, sizes, c);
    lemma_condition(cond, Map::empty(), now, sizes, c);
    let j = choose|j: int| #[trigger] stands_for(vars, idx@, j) && nonnegative_at(vars, steps, j);
    lemma_never_negative(vars, cond, steps, env, sizes, words, t, j);
    lemma_stands_for(vars, words[t], vars.len(), env, j);
}

/// An index that is rebound in the condition or a step, or whose accumulator does not
/// start at a constant that is not negative, is never said to be in bounds; no more is
/// one whose array is rebound.
pub proof fn only_settled_names_are_proved(vars: Seq<LoopVar>, cond: Ir, steps: Seq<Ir>)
    requires
        proved_bound(vars, cond, steps) is Some,
    ensures
        proved_bound(vars, cond, steps) matches Some((arr, idx)) && !binds_name(cond, arr@)
            && !binds_name(cond, idx@) && no_step_binds(steps, arr@) && no_step_binds(steps, idx@)
            && exists|j: int| #[trigger]
            stands_for(vars, idx@, j) && (vars[j].init matches Atom::Int(n) && n >= 0),
{
    let (arr, idx) = proved_bound(vars, cond, steps)->Some_0;
    assert(nonnegative(vars, steps, idx@));
    let j = choose|j: int| #[trigger] stands_for(vars, idx@, j) && nonnegative_at(vars, steps, j);
    assert(stands_for(vars, idx@, j));
}

} // verus!
