//! What is proved of functions that stand in memory, and of the computations that build
//! them or need none: their code does what they mean.
use crate::applying::{goes_on, lemma_goes_on};
use crate::blocks::all_params;
use crate::captures::RESERVED;
use crate::currying::{env_plain, lemma_passed_over, lemma_size, plain_param, speeds, Closed};
use crate::error::CodegenError;
use crate::evaluation::{
    atom_value, closes, closure_bytes, evaluate, no_text, seen_with, spoken, Closure, Ends, Env,
    Value, World,
};
use crate::freevars::occ_ir;
use crate::ir::{Atom, Comp, Type};
use crate::lambdas::{
    a_closure_holds_what_it_captured, cells_in_scope, closure_begun, closure_size, in_a_row,
    in_scope, lemma_row, of_script, ready_or_func, taken, takes_up,
};
use crate::layout::CaptureInfo;
use crate::meaning::{extends, ready, run, word, Machine, Room, Store};
use crate::programs::{Names, Vars};
use crate::running::{
    followed, leads_in, lemma_atom_word, lemma_comp_runs, lemma_run_leads, models, traps_in,
};
use crate::shape::{
    countable, env_ready, lemma_atom, lemma_atom_ready, lemma_bin, lemma_extends, lemma_of_atom,
    lemma_of_bin, lemma_opened, of_comp,
};
use crate::spreading::{fit, lemma_closing_woven, lemma_comp_woven, lemma_fun_woven, slots_ready};
use crate::state::St;
use crate::tails::{lam_body, lam_param};
use crate::target::{Cmd, Id, Ty, Val};
use crate::weaving::{
    behind_fun, caps_fit, caps_in_scope, closed_parts, closing, lemma_chain, lemma_closing_sized,
    lemma_comp_sized, lemma_fun_sized, lemma_lifting_is, lemma_slot_is, lemma_speeding_is, own_fits,
    spoken_lam,
};
use std::rc::Rc;
use vstd::prelude::*;

verus! {

// ── room ─────────────────────────────────────────────────────────────────
/// No cell of this place is in use.
pub open spec fn unused(mem: Map<u64, u64>, at: u64, size: u64) -> bool {
    forall|x: u64| at <= x < at + size ==> !(#[trigger] mem.dom().contains(x))
}

/// Cells came into use in this place alone.
pub open spec fn used_in(s: Store, next: Store, at: u64, size: u64) -> bool {
    &&& next.objects == s.objects
    &&& forall|x: u64|
        !(at <= x < at + size) ==> #[trigger] next.mem.dom().contains(x) == s.mem.dom().contains(x)
}

/// The same cells are in use.
pub open spec fn same_use(s: Store, now: Store) -> bool {
    now.objects == s.objects && now.mem.dom() == s.mem.dom()
}

/// There is room for so many bytes more, in whatever sizes they are asked for and
/// whatever the cells in use hold: each place that is found is in memory and not in use.
pub open spec fn spacious(room: Room, s: Store, left: nat) -> bool
    decreases left,
{
    forall|now: Store, size: u64|
        same_use(s, now) && 0 < size <= left ==> {
            let at = #[trigger] room(size, now);
            &&& at + size <= 0x1_0000_0000_0000_0000
            &&& unused(now.mem, at, size)
            &&& forall|next: Store| #[trigger]
                used_in(now, next, at, size) ==> spacious(room, next, (left - size) as nat)
        }
}

pub(crate) proof fn lemma_less(room: Room, s: Store, left: nat, less: nat)
    requires
        spacious(room, s, left),
        less <= left,
    ensures
        spacious(room, s, less),
    decreases left,
{
    assert forall|now: Store, size: u64| same_use(s, now) && 0 < size <= less implies ({
        let at = #[trigger] room(size, now);
        &&& at + size <= 0x1_0000_0000_0000_0000
        &&& unused(now.mem, at, size)
        &&& forall|next: Store| #[trigger]
            used_in(now, next, at, size) ==> spacious(room, next, (less - size) as nat)
    }) by {
        let at = room(size, now);
        assert forall|next: Store| #[trigger] used_in(now, next, at, size) implies spacious(
            room,
            next,
            (less - size) as nat,
        ) by {
            lemma_less(room, next, (left - size) as nat, (less - size) as nat);
        }
    }
}

pub(crate) proof fn lemma_same_room(room: Room, s: Store, now: Store, left: nat)
    requires
        spacious(room, s, left),
        same_use(s, now),
    ensures
        spacious(room, now, left),
{
    assert forall|then: Store, size: u64| same_use(now, then) && 0 < size <= left implies ({
        let at = #[trigger] room(size, then);
        &&& at + size <= 0x1_0000_0000_0000_0000
        &&& unused(then.mem, at, size)
        &&& forall|next: Store| #[trigger]
            used_in(then, next, at, size) ==> spacious(room, next, (left - size) as nat)
    }) by {
        assert(same_use(s, then));
    }
}

// ── functions that stand in memory ───────────────────────────────────────
/// What follows enters none of the blocks of this part, but for the one that it ends in.
pub open spec fn followed_by(script: Seq<Cmd>, st: St, end: St) -> bool {
    forall|i: int|
        end.script.len() <= i < script.len() ==> (#[trigger] script[i] matches Cmd::At { block }
            ==> block < st.script.len() || end.script.len() <= block || block == end.cx.block)
}

/// The code of a lambda lies in the script.
pub open spec fn code_of(
    st: St,
    fuel: nat,
    own: Option<String>,
    lam: Comp,
    p: Closed,
    seen: Names,
    script: Seq<Cmd>,
) -> bool {
    &&& fit(st)
    &&& spoken_lam(lam, seen)
    &&& own_fits(own, lam)
    &&& closing(st, fuel, own, lam) is Ok
    &&& closed_parts(st, fuel, own, lam, p)
    &&& countable(closing(st, fuel, own, lam)->Ok_0.0)
    &&& extends(script, closing(st, fuel, own, lam)->Ok_0.0.script)
    &&& followed_by(script, st, closing(st, fuel, own, lam)->Ok_0.0)
}

/// The reserved cells of a closure at `clos`, all of whose cells are among these.
pub open spec fn stands_at(
    st: St,
    lam: Comp,
    p: Closed,
    clos: u64,
    mem: Map<u64, u64>,
    cells: Set<u64>,
) -> bool {
    &&& mem[clos] == st.here()
    &&& speeds(p, lam, mem, clos)
    &&& in_a_row(p.caps)
    &&& closure_size(p.caps) == (RESERVED + p.caps.len()) * 8
    &&& clos + closure_size(p.caps) <= 0x1_0000_0000_0000_0000
    &&& forall|x: u64|
        taken(clos, (RESERVED + p.caps.len()) as nat, x) ==> #[trigger] cells.contains(x)
}

/// The word of a capture in the closure at `clos`.
pub open spec fn captured_word(cap: CaptureInfo, clos: u64, mem: Map<u64, u64>) -> u64 {
    mem[word(clos + cap.raw_slot * 8)]
}

/// The capture is of the function itself.
pub open spec fn of_itself(own: Option<String>, cap: CaptureInfo) -> bool {
    own matches Some(o) && o@ == cap.name@
}

/// The word stands for the value: a number is itself, a function the address of its
/// closure.
pub open spec fn stands_for(
    v: Value,
    w: u64,
    mem: Map<u64, u64>,
    cells: Set<u64>,
    script: Seq<Cmd>,
) -> bool
    decreases v,
{
    match v {
        Value::Word(x) => w == x,
        Value::Fun(c) => exists|st: St, fuel: nat, p: Closed, seen: Names|
            {
                &&& #[trigger] code_of(st, fuel, c.own, c.lam, p, seen, script)
                &&& stands_at(st, c.lam, p, w, mem, cells)
                &&& forall|k: int|
                    0 <= k < p.caps.len() ==> if of_itself(c.own, #[trigger] p.caps[k]) {
                        captured_word(p.caps[k], w, mem) == w
                    } else {
                        c.env.dom().contains(p.caps[k].name@) && stands_for(
                            c.env[p.caps[k].name@],
                            captured_word(p.caps[k], w, mem),
                            mem,
                            cells,
                            script,
                        )
                    }
            },
    }
}

pub(crate) proof fn lemma_cell_of(clos: u64, p: Closed, k: int)
    requires
        in_a_row(p.caps),
        closure_size(p.caps) == (RESERVED + p.caps.len()) * 8,
        clos + closure_size(p.caps) <= 0x1_0000_0000_0000_0000,
        0 <= k < p.caps.len(),
    ensures
        taken(
            clos,
            (RESERVED + p.caps.len()) as nat,
            word(clos + p.caps[k].raw_slot * 8),
        ),
        word(clos + p.caps[k].raw_slot * 8) == clos + (RESERVED + k) * 8,
{
    assert(p.caps[k].raw_slot == RESERVED + k);
}

/// A word goes on standing for a value where the cells of the closures are kept.
pub(crate) proof fn lemma_stands_kept(
    v: Value,
    w: u64,
    mem: Map<u64, u64>,
    cells: Set<u64>,
    now: Map<u64, u64>,
    more: Set<u64>,
    script: Seq<Cmd>,
)
    requires
        stands_for(v, w, mem, cells, script),
        cells.subset_of(more),
        forall|x: u64| cells.contains(x) ==> #[trigger] now[x] == mem[x],
    ensures
        stands_for(v, w, now, more, script),
    decreases v,
{
    if let Value::Fun(c) = v {
        let (st, fuel, p, seen) = choose|st: St, fuel: nat, p: Closed, seen: Names|
            {
                &&& #[trigger] code_of(st, fuel, c.own, c.lam, p, seen, script)
                &&& stands_at(st, c.lam, p, w, mem, cells)
                &&& forall|k: int|
                    0 <= k < p.caps.len() ==> if of_itself(c.own, #[trigger] p.caps[k]) {
                        captured_word(p.caps[k], w, mem) == w
                    } else {
                        c.env.dom().contains(p.caps[k].name@) && stands_for(
                            c.env[p.caps[k].name@],
                            captured_word(p.caps[k], w, mem),
                            mem,
                            cells,
                            script,
                        )
                    }
            };
        let n = (RESERVED + p.caps.len()) as nat;
        assert(taken(w, n, w) && taken(w, n, (w + 8) as u64) && taken(w, n, (w + 16) as u64));
        assert(word(w + 8) == w + 8 && word(w + 16) == w + 16);
        assert(cells.contains(w) && cells.contains((w + 8) as u64) && cells.contains((w + 16) as u64));
        assert(stands_at(st, c.lam, p, w, now, more));
        assert forall|k: int| 0 <= k < p.caps.len() implies if of_itself(c.own, #[trigger] p.caps[k]) {
            captured_word(p.caps[k], w, now) == w
        } else {
            c.env.dom().contains(p.caps[k].name@) && stands_for(
                c.env[p.caps[k].name@],
                captured_word(p.caps[k], w, now),
                now,
                more,
                script,
            )
        } by {
            lemma_cell_of(w, p, k);
            assert(cells.contains(word(w + p.caps[k].raw_slot * 8)));
            if !of_itself(c.own, p.caps[k]) {
                lemma_stands_kept(
                    c.env[p.caps[k].name@],
                    captured_word(p.caps[k], w, mem),
                    mem,
                    cells,
                    now,
                    more,
                    script,
                );
            }
        }
        assert(code_of(st, fuel, c.own, c.lam, p, seen, script));
    }
}

// ── what is kept ─────────────────────────────────────────────────────────
/// What was handed out: the cells of closures, and the slots of the mutable locals of
/// the function that runs.
pub struct Held {
    pub closures: Set<u64>,
    pub slots: Set<u64>,
}

impl Held {
    /// What was handed out is in use, and nothing is both.
    pub open spec fn sound(self, mem: Map<u64, u64>) -> bool {
        &&& self.closures.subset_of(mem.dom())
        &&& self.slots.subset_of(mem.dom())
        &&& forall|x: u64| #[trigger] self.slots.contains(x) ==> !self.closures.contains(x)
    }

    /// What is handed out where a function is called.
    pub open spec fn called(self) -> Held {
        Held { closures: self.closures, slots: Set::empty() }
    }

    /// What is handed out behind a call.
    pub open spec fn behind(self, callee: Held) -> Held {
        Held { closures: callee.closures, slots: self.slots }
    }
}

/// Only slots were written to, and what was handed out on the way was not in use.
pub open spec fn kept(s: Store, h: Held, next: Store, now: Held) -> bool {
    &&& next.objects == s.objects
    &&& now.sound(next.mem)
    &&& h.closures.subset_of(now.closures)
    &&& h.slots.subset_of(now.slots)
    &&& forall|x: u64| #[trigger]
        s.mem.dom().contains(x) ==> {
            &&& next.mem.dom().contains(x)
            &&& !h.slots.contains(x) ==> next.mem[x] == s.mem[x]
            &&& now.closures.contains(x) ==> h.closures.contains(x)
            &&& now.slots.contains(x) ==> h.slots.contains(x)
        }
}

pub(crate) proof fn lemma_kept(a: Store, ha: Held, b: Store, hb: Held, c: Store, hc: Held)
    requires
        kept(a, ha, b, hb),
        kept(b, hb, c, hc),
    ensures
        kept(a, ha, c, hc),
{
    assert forall|x: u64| #[trigger] a.mem.dom().contains(x) implies {
        &&& c.mem.dom().contains(x)
        &&& !ha.slots.contains(x) ==> c.mem[x] == a.mem[x]
        &&& hc.closures.contains(x) ==> ha.closures.contains(x)
        &&& hc.slots.contains(x) ==> ha.slots.contains(x)
    } by {
        assert(b.mem.dom().contains(x));
    }
}

pub(crate) proof fn lemma_kept_self(s: Store, h: Held)
    requires
        h.sound(s.mem),
    ensures
        kept(s, h, s, h),
{
}

/// What a word stands for is kept.
pub(crate) proof fn lemma_stands_on(v: Value, w: u64, s: Store, h: Held, next: Store, now: Held, script: Seq<Cmd>)
    requires
        h.sound(s.mem),
        kept(s, h, next, now),
        stands_for(v, w, s.mem, h.closures, script),
    ensures
        stands_for(v, w, next.mem, now.closures, script),
{
    assert forall|x: u64| h.closures.contains(x) implies #[trigger] next.mem[x] == s.mem[x] by {
        assert(s.mem.dom().contains(x));
    }
    lemma_stands_kept(v, w, s.mem, h.closures, next.mem, now.closures, script);
}

// ── what the variables in scope stand for ────────────────────────────────
/// The variables in scope have words that stand for their values.
pub open spec fn vars_hold(st: St, m: Machine, env: Env, h: Held, script: Seq<Cmd>) -> bool {
    forall|x: Seq<char>| #[trigger]
        st.cx.env.get(x) matches Some(e) ==> env.dom().contains(x) && stands_for(
            env[x],
            m.value(e.value),
            m.mem,
            h.closures,
            script,
        )
}

/// The slot of a mutable local.
pub open spec fn slot_of(st: St, x: Seq<char>) -> Val {
    st.cx.slots.get(x)->0
}

/// The address of a mutable local.
pub open spec fn slot_at(st: St, m: Machine, x: Seq<char>) -> u64 {
    m.value(slot_of(st, x))
}

/// The mutable locals have slots of their own, with words that stand for what they hold.
pub open spec fn slots_hold(st: St, m: Machine, cells: Env, h: Held, script: Seq<Cmd>) -> bool {
    &&& forall|x: Seq<char>| #[trigger]
        cells.dom().contains(x) ==> {
            &&& st.cx.slots.get(x) is Some
            &&& h.slots.contains(slot_at(st, m, x))
            &&& stands_for(cells[x], m.mem[slot_at(st, m, x)], m.mem, h.closures, script)
        }
    &&& forall|x: Seq<char>, y: Seq<char>|
        #![trigger cells.dom().contains(x), cells.dom().contains(y)]
        cells.dom().contains(x) && cells.dom().contains(y) && x != y ==> slot_at(st, m, x)
            != slot_at(st, m, y)
}

/// A state, a machine and what is in scope.
pub open spec fn in_force(
    st: St,
    m: Machine,
    env: Env,
    cells: Env,
    h: Held,
    seen: Names,
    script: Seq<Cmd>,
) -> bool {
    &&& fit(st)
    &&& m.args.len() == 0
    &&& vars_hold(st, m, env, h, script)
    &&& slots_hold(st, m, cells, h, script)
    &&& cells.dom().subset_of(seen)
    &&& h.sound(m.mem)
}

/// What running code led to.
pub struct Did {
    pub after: Machine,
    pub j: nat,
    pub h: Held,
}

/// What running a part of the code leads to.
pub open spec fn does(
    script: Seq<Cmd>,
    n: int,
    m: Machine,
    h: Held,
    end: St,
    v: Val,
    ends: Ends,
    seen: Names,
    r: Did,
) -> bool {
    match ends {
        Ends::Value(val, w) => {
            &&& leads_in(script, n, m, end.script.len() as int, r.after, r.j)
            &&& goes_on(m, r.after, n)
            &&& stands_for(val, r.after.value(v), r.after.mem, r.h.closures, script)
            &&& kept(m.store(), h, r.after.store(), r.h)
            &&& slots_hold(end, r.after, w.cells, r.h, script)
            &&& w.cells.dom().subset_of(seen)
            &&& spacious(m.room, r.after.store(), w.left)
        },
        Ends::Trap => traps_in(script, n, m, r.j),
        Ends::Open => true,
    }
}

/// The words of the variables in scope.
pub open spec fn words_in(st: St, m: Machine) -> Vars {
    Map::new(
        |x: Seq<char>| true,
        |x: Seq<char>| match st.cx.env.get(x) {
            Some(e) => m.value(e.value),
            None => 0,
        },
    )
}

pub(crate) proof fn lemma_words_in(st: St, m: Machine)
    requires
        m.args.len() == 0,
    ensures
        models(st, m, words_in(st, m)),
{
}

pub(crate) proof fn lemma_atom_stands(st: St, a: Atom, m: Machine, env: Env, h: Held, script: Seq<Cmd>)
    requires
        no_text(a),
        m.args.len() == 0,
        vars_hold(st, m, env, h, script),
        st.atom(a) is Ok,
    ensures
        stands_for(atom_value(a, env), m.value(st.atom(a)->Ok_0.1), m.mem, h.closures, script),
        atom_value(a, env) matches Value::Word(x) ==> m.value(st.atom(a)->Ok_0.1) == x,
{
    lemma_words_in(st, m);
    lemma_atom_word(st, a, m, words_in(st, m));
    if let Atom::Var(x) = a {
        assert(st.cx.env.get(x@) is Some);
    }
}

/// The variables in scope are kept.
pub(crate) proof fn lemma_vars_on(
    st: St,
    end: St,
    m: Machine,
    h: Held,
    after: Machine,
    now: Held,
    env: Env,
    script: Seq<Cmd>,
)
    requires
        env_ready(st),
        vars_hold(st, m, env, h, script),
        end.cx.env == st.cx.env,
        goes_on(m, after, st.script.len() as int),
        h.sound(m.mem),
        kept(m.store(), h, after.store(), now),
    ensures
        vars_hold(end, after, env, now, script),
{
    assert forall|x: Seq<char>| #[trigger]
        end.cx.env.get(x) matches Some(e) ==> env.dom().contains(x) && stands_for(
            env[x],
            after.value(e.value),
            after.mem,
            now.closures,
            script,
        ) by {
        if let Some(e) = st.cx.env.get(x) {
            assert(ready(st, e.value));
            assert(after.value(e.value) == m.value(e.value));
            lemma_stands_on(env[x], m.value(e.value), m.store(), h, after.store(), now, script);
        }
    }
}

/// The mutable locals are kept where nothing was written to them.
pub(crate) proof fn lemma_slots_on(
    st: St,
    end: St,
    m: Machine,
    h: Held,
    after: Machine,
    now: Held,
    cells: Env,
    script: Seq<Cmd>,
)
    requires
        slots_ready(st),
        slots_hold(st, m, cells, h, script),
        forall|x: Seq<char>|
            cells.dom().contains(x) ==> #[trigger] end.cx.slots.get(x) == st.cx.slots.get(x),
        goes_on(m, after, st.script.len() as int),
        h.sound(m.mem),
        kept(m.store(), h, after.store(), now),
        forall|x: u64| #[trigger] h.slots.contains(x) ==> after.mem[x] == m.mem[x],
    ensures
        slots_hold(end, after, cells, now, script),
{
    assert forall|x: Seq<char>| #[trigger] cells.dom().contains(x) implies {
        &&& end.cx.slots.get(x) is Some
        &&& slot_at(end, after, x) == slot_at(st, m, x)
        &&& now.slots.contains(slot_at(end, after, x))
        &&& stands_for(
            cells[x],
            after.mem[slot_at(end, after, x)],
            after.mem,
            now.closures,
            script,
        )
    } by {
        assert(end.cx.slots.get(x) == st.cx.slots.get(x));
        let v = slot_of(st, x);
        assert(ready(st, v));
        assert(after.value(v) == m.value(v));
        lemma_stands_on(
            cells[x],
            m.mem[slot_at(st, m, x)],
            m.store(),
            h,
            after.store(),
            now,
            script,
        );
    }
}

// ── computations ─────────────────────────────────────────────────────────
/// What is asked of the surroundings of code that runs.
pub open spec fn running(m: Machine, w: World, script: Seq<Cmd>) -> bool {
    &&& of_script(m.code, m.room, script)
    &&& spacious(m.room, m.store(), w.left)
}

pub(crate) proof fn lemma_bin_does(
    st: St,
    fuel: nat,
    comp: Comp,
    env: Env,
    w: World,
    turns: nat,
    held: Names,
    seen: Names,
    script: Seq<Cmd>,
    m: Machine,
    h: Held,
) -> (r: Did)
    requires
        in_force(st, m, env, w.cells, h, seen, script),
        comp is Atom || comp is Bin,
        spoken(comp, held, seen),
        held.subset_of(seen),
        of_comp(st, fuel, comp) is Ok,
        countable(of_comp(st, fuel, comp)->Ok_0.0),
        extends(script, of_comp(st, fuel, comp)->Ok_0.0.script),
        followed_by(script, st, of_comp(st, fuel, comp)->Ok_0.0),
        running(m, w, script),
    ensures
        does(
            script,
            st.script.len() as int,
            m,
            h,
            of_comp(st, fuel, comp)->Ok_0.0,
            of_comp(st, fuel, comp)->Ok_0.1,
            evaluate(comp, env, w, turns),
            seen,
            r,
        ),
{
    let n = st.script.len() as int;
    let (end, v) = of_comp(st, fuel, comp)->Ok_0;
    let raw = words_in(st, m);
    lemma_words_in(st, m);
    lemma_comp_sized(st, fuel, comp, held, seen);
    lemma_comp_woven(st, fuel, comp, held, seen, m);
    lemma_opened(script, end.script, end.script.len() as int);
    assert(followed(script, n, end.script.len() as int));
    let (after, j) = lemma_comp_runs(st, fuel, comp, raw, 0, script, m);
    let r = Did { after, j, h };
    match comp {
        Comp::Atom(a) => {
            lemma_of_atom(st, fuel, comp);
            lemma_atom(st, a);
            lemma_atom_stands(st, a, m, env, h, script);
            let r = Did { after: m, j: 0, h };
            lemma_kept_self(m.store(), h);
            lemma_run_leads(script, n, m, n, m);
            r
        },
        Comp::Bin(op, a, b) => {
            lemma_of_bin(st, fuel, comp);
            lemma_bin(st, op, a, b);
            lemma_atom_stands(st, a, m, env, h, script);
            lemma_atom_stands(st, b, m, env, h, script);
            lemma_atom_word(st, a, m, raw);
            lemma_atom_word(st, b, m, raw);
            if evaluate(comp, env, w, turns) is Value {
                assert(after.store() == m.store());
                lemma_kept_self(m.store(), h);
                lemma_slots_on(st, end, m, h, after, h, w.cells, script);
            }
            r
        },
        _ => r,
    }
}

pub(crate) proof fn lemma_load_does(
    st: St,
    fuel: nat,
    comp: Comp,
    env: Env,
    w: World,
    turns: nat,
    seen: Names,
    script: Seq<Cmd>,
    m: Machine,
    h: Held,
) -> (r: Did)
    requires
        in_force(st, m, env, w.cells, h, seen, script),
        comp is SlotLoad,
        of_comp(st, fuel, comp) is Ok,
        countable(of_comp(st, fuel, comp)->Ok_0.0),
        extends(script, of_comp(st, fuel, comp)->Ok_0.0.script),
        running(m, w, script),
    ensures
        does(
            script,
            st.script.len() as int,
            m,
            h,
            of_comp(st, fuel, comp)->Ok_0.0,
            of_comp(st, fuel, comp)->Ok_0.1,
            evaluate(comp, env, w, turns),
            seen,
            r,
        ),
{
    let n = st.script.len() as int;
    lemma_slot_is(st, fuel, comp);
    let (end, v) = of_comp(st, fuel, comp)->Ok_0;
    let name = comp->SlotLoad_0;
    let slot = slot_of(st, name@);
    assert(script[n] == end.script[n]);
    let after = m.set(n, m.mem[m.value(slot)]);
    assert(run(script, n, m) == run(script, n + 1, after));
    lemma_run_leads(script, n, m, n + 1, after);
    lemma_kept_self(m.store(), h);
    lemma_slots_on(st, end, m, h, after, h, w.cells, script);
    Did { after, j: 0, h }
}

pub(crate) proof fn lemma_store_does(
    st: St,
    fuel: nat,
    comp: Comp,
    env: Env,
    w: World,
    turns: nat,
    seen: Names,
    script: Seq<Cmd>,
    m: Machine,
    h: Held,
) -> (r: Did)
    requires
        in_force(st, m, env, w.cells, h, seen, script),
        comp is SlotStore,
        no_text(comp->SlotStore_1),
        of_comp(st, fuel, comp) is Ok,
        countable(of_comp(st, fuel, comp)->Ok_0.0),
        extends(script, of_comp(st, fuel, comp)->Ok_0.0.script),
        running(m, w, script),
    ensures
        does(
            script,
            st.script.len() as int,
            m,
            h,
            of_comp(st, fuel, comp)->Ok_0.0,
            of_comp(st, fuel, comp)->Ok_0.1,
            evaluate(comp, env, w, turns),
            seen,
            r,
        ),
{
    let n = st.script.len() as int;
    lemma_slot_is(st, fuel, comp);
    let (end, v) = of_comp(st, fuel, comp)->Ok_0;
    let name = comp->SlotStore_0;
    let a = comp->SlotStore_1;
    let slot = slot_of(st, name@);
    let val = st.atom(a)->Ok_0.1;
    let at = m.value(slot);
    lemma_atom_stands(st, a, m, env, h, script);
    assert(script[n] == end.script[n]);
    let after = Machine { mem: m.mem.insert(at, m.value(val)), ..m };
    assert(run(script, n, m) == run(script, n + 1, after));
    lemma_run_leads(script, n, m, n + 1, after);
    let r = Did { after, j: 0, h };
    if w.cells.dom().contains(name@) {
        let cells = w.cells.insert(name@, atom_value(a, env));
        assert(at == slot_at(st, m, name@));
        assert(m.mem.dom().contains(at));
        assert(after.mem.dom() =~= m.mem.dom());
        assert(same_use(m.store(), after.store()));
        lemma_same_room(m.room, m.store(), after.store(), w.left);
        assert(kept(m.store(), h, after.store(), h));
        assert forall|x: Seq<char>| #[trigger] cells.dom().contains(x) implies {
            &&& end.cx.slots.get(x) is Some
            &&& slot_at(end, after, x) == slot_at(st, m, x)
            &&& h.slots.contains(slot_at(end, after, x))
            &&& stands_for(
                cells[x],
                after.mem[slot_at(end, after, x)],
                after.mem,
                h.closures,
                script,
            )
        } by {
            assert(w.cells.dom().contains(x));
            assert(after.value(st.cx.slots.get(x)->0) == m.value(st.cx.slots.get(x)->0));
            if x == name@ {
                lemma_stands_on(cells[x], m.value(val), m.store(), h, after.store(), h, script);
            } else {
                assert(slot_at(st, m, x) != at);
                lemma_stands_on(
                    cells[x],
                    m.mem[slot_at(st, m, x)],
                    m.store(),
                    h,
                    after.store(),
                    h,
                    script,
                );
            }
        }
        assert(slots_hold(end, after, cells, h, script)) by {
            assert forall|x: Seq<char>, y: Seq<char>|
                #![trigger cells.dom().contains(x), cells.dom().contains(y)]
                cells.dom().contains(x) && cells.dom().contains(y) && x != y implies slot_at(end, after, x)
                != slot_at(end, after, y) by {
                assert(w.cells.dom().contains(x) && w.cells.dom().contains(y));
            }
        }
        assert(cells.dom().subset_of(seen));
    }
    r
}

#[verifier::rlimit(30)]
pub(crate) proof fn lemma_init_does(
    st: St,
    fuel: nat,
    comp: Comp,
    env: Env,
    w: World,
    turns: nat,
    seen: Names,
    script: Seq<Cmd>,
    m: Machine,
    h: Held,
) -> (r: Did)
    requires
        in_force(st, m, env, w.cells, h, seen, script),
        comp is SlotInit,
        no_text(comp->SlotInit_1),
        of_comp(st, fuel, comp) is Ok,
        countable(of_comp(st, fuel, comp)->Ok_0.0),
        extends(script, of_comp(st, fuel, comp)->Ok_0.0.script),
        running(m, w, script),
    ensures
        does(
            script,
            st.script.len() as int,
            m,
            h,
            of_comp(st, fuel, comp)->Ok_0.0,
            of_comp(st, fuel, comp)->Ok_0.1,
            evaluate(comp, env, w, turns),
            seen_with(comp, seen),
            r,
        ),
{
    let n = st.script.len() as int;
    lemma_slot_is(st, fuel, comp);
    let (end, v) = of_comp(st, fuel, comp)->Ok_0;
    let name = comp->SlotInit_0;
    let a = comp->SlotInit_1;
    let val = st.atom(a)->Ok_0.1;
    lemma_atom_stands(st, a, m, env, h, script);
    lemma_atom_ready(st, a);
    assert(script[n] == end.script[n]);
    assert(script[n + 1] == end.script[n + 1]);
    let at = (m.room)(8, m.store());
    let m1 = m.found(n);
    let after = Machine { mem: m1.mem.insert(at, m.value(val)), ..m1 };
    assert(run(script, n, m) == run(script, n + 1, m1));
    assert(m1.value(val) == m.value(val));
    assert(run(script, n + 1, m1) == run(script, n + 2, after));
    lemma_run_leads(script, n, m, n + 2, after);
    let now = Held { closures: h.closures, slots: h.slots.insert(at) };
    let r = Did { after, j: 0, h: now };
    if w.left >= 8 {
        let cells = w.cells.insert(name@, atom_value(a, env));
        let slot = Val { id: Id::Reg(n as u64), ty: Ty::Ptr };
        assert(same_use(m.store(), m.store()));
        assert(unused(m.mem, at, 8));
        assert(!m.mem.dom().contains(at));
        assert(used_in(m.store(), after.store(), at, 8));
        assert(spacious(m.room, after.store(), (w.left - 8) as nat));
        assert(now.sound(after.mem));
        assert(kept(m.store(), h, after.store(), now));
        assert(end.cx.slots.get(name@) == Some(slot));
        assert(after.value(slot) == at);
        assert forall|x: Seq<char>| #[trigger] cells.dom().contains(x) implies {
            &&& end.cx.slots.get(x) is Some
            &&& now.slots.contains(slot_at(end, after, x))
            &&& stands_for(
                cells[x],
                after.mem[slot_at(end, after, x)],
                after.mem,
                now.closures,
                script,
            )
            &&& x != name@ ==> slot_at(end, after, x) == slot_at(st, m, x) && slot_at(end, after, x)
                != at
        } by {
            if x == name@ {
                lemma_stands_on(cells[x], m.value(val), m.store(), h, after.store(), now, script);
            } else {
                assert(w.cells.dom().contains(x));
                assert(end.cx.slots.get(x) == st.cx.slots.get(x));
                assert(ready(st, st.cx.slots.get(x)->0));
                assert(m.mem.dom().contains(slot_at(st, m, x)));
                lemma_stands_on(
                    cells[x],
                    m.mem[slot_at(st, m, x)],
                    m.store(),
                    h,
                    after.store(),
                    now,
                    script,
                );
            }
        }
        assert(slots_hold(end, after, cells, now, script)) by {
            assert forall|x: Seq<char>, y: Seq<char>|
                #![trigger cells.dom().contains(x), cells.dom().contains(y)]
                cells.dom().contains(x) && cells.dom().contains(y) && x != y implies slot_at(end, after, x)
                != slot_at(end, after, y) by {
                if x != name@ && y != name@ {
                    assert(w.cells.dom().contains(x) && w.cells.dom().contains(y));
                }
            }
        }
    }
    r
}

// ── closures ─────────────────────────────────────────────────────────────
/// The functions of a closure are passed over, and their addresses taken.
#[verifier::rlimit(60)]
#[verifier::spinoff_prover]
pub(crate) proof fn lemma_entries_run(
    st: St,
    fuel: nat,
    own: Option<String>,
    lam: Comp,
    p: Closed,
    seen: Names,
    script: Seq<Cmd>,
    m: Machine,
) -> (after: Machine)
    requires
        fit(st),
        lam is Lam,
        spoken(lam, seen, seen),
        closing(st, fuel, own, lam) is Ok,
        countable(closing(st, fuel, own, lam)->Ok_0.0),
        closed_parts(st, fuel, own, lam, p),
        extends(script, p.last.script),
        m.args.len() == 0,
    ensures
        run(script, st.script.len() as int, m) == run(script, p.last.script.len() as int, after),
        goes_on(m, after, st.script.len() as int),
        after.store() == m.store(),
        ready(p.last, p.entry),
        ready_or_func(p.last, p.fast),
        ready_or_func(p.last, p.arity),
        after.value(p.entry) == st.here(),
        all_params(lam).len() < 2 ==> after.value(p.arity) == 0,
        all_params(lam).len() >= 2 ==> after.value(p.fast) == p.named.here() && after.value(p.arity)
            == all_params(lam).len() as u64,
{
    let n = st.script.len() as int;
    let e = p.made.script.len() as int;
    let c = lemma_closing_sized(st, fuel, own, lam, seen);
    assert(c.caps == p.caps && c.made == p.made && c.named == p.named && c.last == p.last);
    let c = lemma_closing_woven(st, fuel, own, lam, seen, m);
    lemma_chain(lam, seen);
    let q = lemma_lifting_is(st, fuel, own, lam, p.caps, seen);
    assert(plain_param(lam_param(lam)));
    lemma_fun_sized(st, fuel, own, p.caps, q, seen);
    lemma_fun_woven(st, fuel, own, p.caps, q, seen, m);
    lemma_extends(p.named.script, p.last.script, script);
    lemma_extends(p.made.script, p.named.script, script);
    lemma_passed_over(st, p.made, script, m);
    assert(p.named.script[e] is Convert);
    assert(script[e] == p.named.script[e]);
    let m1 = m.set(e, st.here());
    assert(run(script, e, m) == run(script, e + 1, m1));
    let r = lemma_speeding_is(p.named, fuel, own, lam, p.caps, seen);
    if all_params(lam).len() >= 2 {
        lemma_fun_sized(p.named, fuel, own, p.caps, r, seen);
        lemma_fun_woven(p.named, fuel, own, p.caps, r, seen, m);
        let done = behind_fun(p.named, r);
        let k = done.script.len() as int;
        assert(extends(p.last.script, done.script));
        lemma_extends(done.script, p.last.script, script);
        lemma_passed_over(p.named, done, script, m1);
        assert(script[k] == p.last.script[k]);
        let after = m1.set(k, p.named.here());
        assert(run(script, k, m1) == run(script, k + 1, after));
        assert(goes_on(m, after, n));
        after
    } else {
        assert(goes_on(m, m1, n));
        m1
    }
}

/// A closure was stored at a place that was not in use.
pub open spec fn new_closure(
    st: St,
    own: Option<String>,
    lam: Comp,
    p: Closed,
    m: Machine,
    at: u64,
    mem: Map<u64, u64>,
) -> bool {
    &&& mem[at] == st.here()
    &&& speeds(p, lam, mem, at)
    &&& forall|k: int|
        0 <= k < p.caps.len() ==> captured_word(#[trigger] p.caps[k], at, mem) == if of_itself(
            own,
            p.caps[k],
        ) {
            at
        } else {
            m.value(in_scope(st, p.caps[k].name@))
        }
    &&& forall|x: u64| x < at || x >= at + (RESERVED + p.caps.len()) * 8 ==> #[trigger] mem[x] == m.mem[x]
    &&& takes_up(at, (RESERVED + p.caps.len()) as nat, m.mem, mem)
}

#[verifier::rlimit(30)]
pub(crate) proof fn lemma_closing_runs(
    st: St,
    fuel: nat,
    own: Option<String>,
    lam: Comp,
    p: Closed,
    seen: Names,
    script: Seq<Cmd>,
    m: Machine,
) -> (after: Machine)
    requires
        fit(st),
        lam is Lam,
        spoken(lam, seen, seen),
        closing(st, fuel, own, lam) is Ok,
        countable(closing(st, fuel, own, lam)->Ok_0.0),
        closed_parts(st, fuel, own, lam, p),
        extends(script, closing(st, fuel, own, lam)->Ok_0.0.script),
        m.args.len() == 0,
        (m.room)(closure_size(p.caps), m.store()) + (RESERVED + p.caps.len()) * 8
            <= 0x1_0000_0000_0000_0000,
    ensures
        ({
            let (end, v) = closing(st, fuel, own, lam)->Ok_0;
            let at = (m.room)(closure_size(p.caps), m.store());
            &&& run(script, st.script.len() as int, m) == run(script, end.script.len() as int, after)
            &&& goes_on(m, after, st.script.len() as int)
            &&& after.value(v) == at
            &&& after.objects == m.objects
            &&& new_closure(st, own, lam, p, m, at, after.mem)
        }),
{
    let n = st.script.len() as int;
    let (end, v) = closing(st, fuel, own, lam)->Ok_0;
    let c = lemma_closing_sized(st, fuel, own, lam, seen);
    let d = lemma_closing_woven(st, fuel, own, lam, seen, m);
    assert(c.caps == p.caps && c.made == p.made && c.named == p.named && c.last == p.last);
    lemma_extends(p.last.script, end.script, script);
    let m2 = lemma_entries_run(st, fuel, own, lam, p, seen, script, m);
    let after = lemma_filled_runs(p.last, st, own, lam, p, end, v, script, m, m2);
    lemma_goes_on(m, m2, after, n, p.last.script.len() as int);
    after
}

/// The closure is filled, behind its functions.
#[verifier::rlimit(60)]
#[verifier::spinoff_prover]
pub(crate) proof fn lemma_filled_runs(
    last: St,
    st: St,
    own: Option<String>,
    lam: Comp,
    p: Closed,
    end: St,
    v: Val,
    script: Seq<Cmd>,
    m: Machine,
    m2: Machine,
) -> (after: Machine)
    requires
        last == p.last,
        !last.cx.gc,
        env_plain(last),
        env_ready(last),
        env_ready(st),
        last.cx.env == st.cx.env,
        caps_fit(st, own, lam, p.caps),
        caps_in_scope(st, own, p.caps),
        ready(last, p.entry),
        ready_or_func(last, p.fast),
        ready_or_func(last, p.arity),
        last.build_closure(own, p.fun_ty, p.caps, p.entry, p.fast, p.arity) == Ok::<
            (St, Val),
            CodegenError,
        >((end, v)),
        last.script.len() <= end.script.len(),
        countable(end),
        extends(script, end.script),
        m2.store() == m.store(),
        goes_on(m, m2, st.script.len() as int),
        m2.value(p.entry) == st.here(),
        all_params(lam).len() < 2 ==> m2.value(p.arity) == 0,
        all_params(lam).len() >= 2 ==> m2.value(p.fast) == p.named.here() && m2.value(p.arity)
            == all_params(lam).len() as u64,
        (m.room)(closure_size(p.caps), m.store()) + (RESERVED + p.caps.len()) * 8
            <= 0x1_0000_0000_0000_0000,
    ensures
        ({
            let at = (m.room)(closure_size(p.caps), m.store());
            &&& run(script, last.script.len() as int, m2) == run(
                script,
                end.script.len() as int,
                after,
            )
            &&& goes_on(m2, after, last.script.len() as int)
            &&& after.value(v) == at
            &&& after.objects == m.objects
            &&& new_closure(st, own, lam, p, m, at, after.mem)
        }),
{
    let at = (m.room)(closure_size(p.caps), m.store());
    lemma_begun_cells(last, own, p.fun_ty, p.caps, p.entry, p.fast, p.arity);
    let after = a_closure_holds_what_it_captured(
        last,
        own,
        p.fun_ty,
        p.caps,
        p.entry,
        p.fast,
        p.arity,
        script,
        m2,
    );
    assert(word(at + 8) == at + 8 && word(at + 16) == at + 16);
    assert forall|k: int| 0 <= k < p.caps.len() implies captured_word(#[trigger] p.caps[k], at, after.mem)
        == if of_itself(own, p.caps[k]) {
        at
    } else {
        m.value(in_scope(st, p.caps[k].name@))
    } by {
        let x = p.caps[k].name@;
        if !of_itself(own, p.caps[k]) {
            assert(st.cx.env.get(x) is Some);
            assert(last.cx.env.get(x) == st.cx.env.get(x));
            assert(ready(st, in_scope(st, x)));
            assert(m2.value(in_scope(last, x)) == m.value(in_scope(st, x)));
        }
    }
    after
}

/// What a new closure leaves in place, and the room that is left.
pub(crate) proof fn lemma_closure_kept(
    st: St,
    own: Option<String>,
    lam: Comp,
    p: Closed,
    m: Machine,
    after: Machine,
    h: Held,
    left: nat,
) -> (now: Held)
    requires
        h.sound(m.mem),
        closure_size(p.caps) == (RESERVED + p.caps.len()) * 8,
        closure_size(p.caps) <= closure_bytes(lam) <= left,
        spacious(m.room, m.store(), left),
        after.objects == m.objects,
        after.room == m.room,
        new_closure(
            st,
            own,
            lam,
            p,
            m,
            (m.room)(closure_size(p.caps), m.store()),
            after.mem,
        ),
    ensures
        kept(m.store(), h, after.store(), now),
        now.slots == h.slots,
        forall|x: u64| #[trigger] h.slots.contains(x) ==> after.mem[x] == m.mem[x],
        forall|x: u64|
            taken(
                (m.room)(closure_size(p.caps), m.store()),
                (RESERVED + p.caps.len()) as nat,
                x,
            ) ==> #[trigger] now.closures.contains(x),
        spacious(m.room, after.store(), (left - closure_bytes(lam)) as nat),
{
    let size = closure_size(p.caps);
    let at = (m.room)(size, m.store());
    let cells = (RESERVED + p.caps.len()) as nat;
    let now = Held {
        closures: Set::new(|x: u64| h.closures.contains(x) || taken(at, cells, x)),
        slots: h.slots,
    };
    assert(same_use(m.store(), m.store()));
    assert(unused(m.mem, at, size));
    assert(used_in(m.store(), after.store(), at, size)) by {
        assert forall|x: u64| !(at <= x < at + size) implies #[trigger] after.mem.dom().contains(x)
            == m.mem.dom().contains(x) by {
            assert(!taken(at, cells, x));
        }
    }
    lemma_less(m.room, after.store(), (left - size) as nat, (left - closure_bytes(lam)) as nat);
    assert forall|x: u64| #[trigger] m.mem.dom().contains(x) implies after.mem.dom().contains(x)
        && after.mem[x] == m.mem[x] && !taken(at, cells, x) by {
        assert(x < at || x >= at + size);
    }
    assert(now.sound(after.mem)) by {
        assert forall|x: u64| now.closures.contains(x) implies after.mem.dom().contains(x) by {
            if h.closures.contains(x) {
                assert(m.mem.dom().contains(x));
            }
        }
        assert forall|x: u64| #[trigger] now.slots.contains(x) implies !now.closures.contains(x)
            && after.mem.dom().contains(x) by {
            assert(m.mem.dom().contains(x));
        }
    }
    now
}

/// A lambda builds a closure of its function.
#[verifier::rlimit(30)]
pub(crate) proof fn lemma_closing_does(
    st: St,
    fuel: nat,
    own: Option<String>,
    lam: Comp,
    env: Env,
    w: World,
    seen: Names,
    script: Seq<Cmd>,
    m: Machine,
    h: Held,
) -> (r: Did)
    requires
        in_force(st, m, env, w.cells, h, seen, script),
        lam is Lam,
        spoken(lam, seen, seen),
        own_fits(own, lam),
        closing(st, fuel, own, lam) is Ok,
        countable(closing(st, fuel, own, lam)->Ok_0.0),
        extends(script, closing(st, fuel, own, lam)->Ok_0.0.script),
        followed_by(script, st, closing(st, fuel, own, lam)->Ok_0.0),
        running(m, w, script),
    ensures
        does(
            script,
            st.script.len() as int,
            m,
            h,
            closing(st, fuel, own, lam)->Ok_0.0,
            closing(st, fuel, own, lam)->Ok_0.1,
            closes(own, lam, env, w),
            seen,
            r,
        ),
{
    let n = st.script.len() as int;
    let (end, v) = closing(st, fuel, own, lam)->Ok_0;
    let p = lemma_closing_sized(st, fuel, own, lam, seen);
    let caps = p.caps;
    if w.left < closure_bytes(lam) {
        Did { after: m, j: 0, h }
    } else {
        lemma_fits(st, fuel, own, lam, p);
        lemma_bytes(lam, caps);
        let size = closure_size(caps);
        let at = (m.room)(size, m.store());
        assert(same_use(m.store(), m.store()));
        assert(0 < size <= w.left);
        assert(at + size <= 0x1_0000_0000_0000_0000);
        let after = lemma_closing_runs(st, fuel, own, lam, p, seen, script, m);
        let now = lemma_closure_kept(st, own, lam, p, m, after, h, w.left);
        lemma_run_leads(script, n, m, end.script.len() as int, after);
        assert forall|x: Seq<char>| w.cells.dom().contains(x) implies #[trigger] end.cx.slots.get(x)
            == st.cx.slots.get(x) by {
            assert(seen.contains(x));
        }
        lemma_slots_on(st, end, m, h, after, now, w.cells, script);
        lemma_closure_stands(st, fuel, own, lam, p, env, seen, script, m, h, after, now);
        Did { after, j: 0, h: now }
    }
}

pub(crate) proof fn lemma_fits(st: St, fuel: nat, own: Option<String>, lam: Comp, p: Closed)
    requires
        closed_parts(st, fuel, own, lam, p),
        !p.last.cx.gc,
        caps_fit(st, own, lam, p.caps),
    ensures
        in_a_row(p.caps),
        closure_size(p.caps) == (RESERVED + p.caps.len()) * 8,
{
    lemma_size(p.caps);
    assert forall|i: int| 0 <= i < p.caps.len() implies (#[trigger] p.caps[i]).raw_slot == RESERVED
        + i by {
        lemma_row(p.caps, i as nat);
    }
}

pub(crate) proof fn lemma_closure_stands(
    st: St,
    fuel: nat,
    own: Option<String>,
    lam: Comp,
    p: Closed,
    env: Env,
    seen: Names,
    script: Seq<Cmd>,
    m: Machine,
    h: Held,
    after: Machine,
    now: Held,
)
    requires
        code_of(st, fuel, own, lam, p, seen, script),
        vars_hold(st, m, env, h, script),
        h.sound(m.mem),
        kept(m.store(), h, after.store(), now),
        caps_in_scope(st, own, p.caps),
        in_a_row(p.caps),
        closure_size(p.caps) == (RESERVED + p.caps.len()) * 8,
        ({
            let at = (m.room)(closure_size(p.caps), m.store());
            &&& at + closure_size(p.caps) <= 0x1_0000_0000_0000_0000
            &&& new_closure(st, own, lam, p, m, at, after.mem)
            &&& forall|x: u64|
                taken(at, (RESERVED + p.caps.len()) as nat, x) ==> #[trigger] now.closures.contains(x)
        }),
    ensures
        stands_for(
            Value::Fun(Closure { own, lam, env }),
            (m.room)(closure_size(p.caps), m.store()),
            after.mem,
            now.closures,
            script,
        ),
{
    let caps = p.caps;
    let at = (m.room)(closure_size(caps), m.store());
    let f = Closure { own, lam, env };
    assert(stands_at(st, lam, p, at, after.mem, now.closures));
    assert forall|k: int| 0 <= k < caps.len() implies if of_itself(own, #[trigger] caps[k]) {
        captured_word(caps[k], at, after.mem) == at
    } else {
        env.dom().contains(caps[k].name@) && stands_for(
            env[caps[k].name@],
            captured_word(caps[k], at, after.mem),
            after.mem,
            now.closures,
            script,
        )
    } by {
        let x = caps[k].name@;
        if !of_itself(own, caps[k]) {
            assert(st.cx.env.get(x) is Some);
            lemma_stands_on(
                env[x],
                m.value(in_scope(st, x)),
                m.store(),
                h,
                after.store(),
                now,
                script,
            );
        }
    }
    assert(code_of(st, fuel, f.own, f.lam, p, seen, script));
}

pub(crate) proof fn lemma_bytes(lam: Comp, caps: Seq<CaptureInfo>)
    requires
        lam is Lam,
        caps.len() <= occ_ir(lam_body(lam), Set::empty().insert(lam_param(lam).name@)).len(),
    ensures
        (RESERVED + caps.len()) * 8 <= closure_bytes(lam),
{
    assert(Set::<Seq<char>>::empty().insert(lam_param(lam).name@) =~= Set::empty().insert(
        lam_param(lam).name@,
    ));
}

pub(crate) proof fn lemma_begun_cells(
    last: St,
    own: Option<String>,
    fun_ty: Rc<Type>,
    caps: Seq<CaptureInfo>,
    entry: Val,
    fast: Val,
    arity: Val,
)
    requires
        env_plain(last),
    ensures
        cells_in_scope(
            closure_begun(last, own, fun_ty, closure_size(caps), entry, fast, arity),
            caps,
        ),
{
    let begun = closure_begun(last, own, fun_ty, closure_size(caps), entry, fast, arity);
    assert forall|i: int| 0 <= i < caps.len() implies (begun.cx.env.get(
        (#[trigger] caps[i]).name@,
    ) matches Some(e) ==> e.value.ty is I64) by {
        if !of_itself(own, caps[i]) {
            assert(begun.cx.env.get(caps[i].name@) == last.cx.env.get(caps[i].name@));
        }
    }
}

} // verus!
