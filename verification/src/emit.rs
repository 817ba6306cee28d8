//! Whole modules: the entry of a program, and the exports of a library.
use crate::analysis::{block_performs_gc, performs_gc};
use crate::blocks::Param;
use crate::error::CodegenError;
use crate::ir::{share, Ir, Row, Type};
use crate::state::{agrees_unit, Cg, Cx, Frames, Inlined, Scope, St};
use crate::target::{Cmd, FuncName, Id, Module, Ty, Val};
use std::rc::Rc;
use vstd::prelude::*;

verus! {

/// How deeply handler clauses may be inlined into one another. No program comes
/// near it: a clause is not inlined into itself, whatever the depth.
pub const INLINE_LIMIT: u64 = 0xffff_ffff_ffff_ffff;

/// A function that a library exports: its body is closed but for its
/// parameters, and it is called with one cell for each of them.
pub struct LibExport {
    pub symbol: String,
    pub params: Vec<Param>,
    pub ret_ty: Rc<Type>,
    pub body: Ir,
}

impl St {
    /// The state in which a function of a module is begun.
    pub open spec fn fresh(script: Seq<Cmd>, gc: bool, pure: Rc<Row>) -> St {
        St {
            script,
            cx: Cx {
                func: script.len() as u64,
                block: 0,
                lifted: 0,
                env: Rc::new(Scope::Empty),
                handlers: Rc::new(Frames::Empty),
                inlined: Rc::new(Inlined::Empty),
                resume: None,
                gc,
                raws: Rc::new(Scope::Empty),
                bounds: Rc::new(Scope::Empty),
                slots: Rc::new(Scope::Empty),
                pure,
            },
        }
    }

    /// The head of a function that takes `n` cells and returns one.
    pub open spec fn open_func(self, name: FuncName, n: nat) -> St {
        let (st, entry) = self.put(Cmd::Func { name, ret: Ty::I64 }).cell_params(n).new_block(
            "entry",
        );
        st.at(entry)
    }

    pub open spec fn cell_params(self, n: nat) -> St
        decreases n,
    {
        if n == 0 {
            self
        } else {
            self.cell_params((n - 1) as nat).put(Cmd::Param { ty: Ty::I64 })
        }
    }

    /// Bind the parameters from position `i` on to the cells passed for them.
    pub open spec fn bind_cells(self, func: u64, params: Seq<Param>, i: nat) -> St
        decreases params.len() - i,
    {
        if i >= params.len() {
            self
        } else {
            let p = params[i as int];
            self.bind(
                p.name,
                Val { id: Id::Param { func, index: i as u32 }, ty: Ty::I64 },
                p.ty,
                p.layout,
            ).bind_cells(func, params, i + 1)
        }
    }

    /// The body of such a function: what it returns is a cell. A function that
    /// uses the managed heap has a handle scope.
    pub open spec fn func_body(self, fuel: nat, body: Ir, not_a_cell: CodegenError) -> Result<
        St,
        CodegenError,
    > {
        let (st, frame) = self.enter(self.cx.gc);
        match st.block(fuel, body) {
            Err(e) => Err(e),
            Ok((st, v)) => if v.ty is I64 {
                let (st, v) = st.leave(frame, v);
                Ok(st.put(Cmd::Ret { val: v }))
            } else {
                Err(not_a_cell)
            },
        }
    }
}

/// The commands of a program: its entry returns the exit code.
pub open spec fn program(ir: Ir, always_gc: bool, pure: Rc<Row>, depth: nat) -> Result<
    Seq<Cmd>,
    CodegenError,
> {
    match St::fresh(Seq::empty(), always_gc || performs_gc(ir), pure).open_func(
        FuncName::Main,
        0,
    ).func_body(depth, ir, CodegenError::NotAnExitCode) {
        Err(e) => Err(e),
        Ok(st) => Ok(st.script),
    }
}

/// The commands of one export, behind those in `script`.
pub open spec fn export(
    script: Seq<Cmd>,
    export: LibExport,
    always_gc: bool,
    pure: Rc<Row>,
    depth: nat,
) -> Result<Seq<Cmd>, CodegenError> {
    let func = script.len() as u64;
    match St::fresh(script, always_gc || performs_gc(export.body), pure).open_func(
        FuncName::Export(export.symbol),
        export.params@.len(),
    ).bind_cells(func, export.params@, 0).func_body(
        depth,
        export.body,
        CodegenError::NotACell("library export result"),
    ) {
        Err(e) => Err(e),
        Ok(st) => Ok(st.script),
    }
}

/// The commands of the exports from position `i` on.
pub open spec fn library(
    script: Seq<Cmd>,
    exports: Seq<LibExport>,
    i: nat,
    always_gc: bool,
    pure: Rc<Row>,
    depth: nat,
) -> Result<Seq<Cmd>, CodegenError>
    decreases exports.len() - i,
{
    if i >= exports.len() {
        Ok(script)
    } else {
        match export(script, exports[i as int], always_gc, pure, depth) {
            Err(e) => Err(e),
            Ok(script) => library(script, exports, i + 1, always_gc, pure, depth),
        }
    }
}

/// A row without effects.
pub open spec fn is_pure(row: Rc<Row>) -> bool {
    row.labels@.len() == 0
}

/// A module made of these commands, or the error's message.
pub open spec fn made(
    out: Result<Seq<Cmd>, CodegenError>,
    name: &'static str,
    r: Result<Module, String>,
) -> bool {
    match out {
        Ok(script) => r matches Ok(m) && m.name == name && m.script@ == script,
        Err(e) => r matches Err(message) && message@ == e.text(),
    }
}

fn pure_row() -> (r: Rc<Row>)
    ensures
        is_pure(r),
{
    Rc::new(Row { labels: Vec::new() })
}

impl Cg {
    fn fresh(script: Vec<Cmd>, gc: bool, pure: Rc<Row>) -> (r: Cg)
        ensures
            r@ == St::fresh(script@, gc, pure),
    {
        let func: u64 = script.len() as u64;
        Cg {
            script,
            cx: Cx {
                func,
                block: 0,
                lifted: 0,
                env: Rc::new(Scope::Empty),
                handlers: Rc::new(Frames::Empty),
                inlined: Rc::new(Inlined::Empty),
                resume: None,
                gc,
                raws: Rc::new(Scope::Empty),
                bounds: Rc::new(Scope::Empty),
                slots: Rc::new(Scope::Empty),
                pure,
            },
        }
    }

    fn open_func(&mut self, name: FuncName, n: usize)
        ensures
            final(self)@ == old(self)@.open_func(name, n as nat),
    {
        self.put(Cmd::Func { name, ret: Ty::I64 });
        let ghost start = self@;
        let mut i: usize = 0;
        while i < n
            invariant
                i <= n,
                self@ == start.cell_params(i as nat),
            decreases n - i,
        {
            self.put(Cmd::Param { ty: Ty::I64 });
            i = i + 1;
        }
        let entry: u64 = self.new_block("entry");
        self.at(entry);
    }

    fn bind_cells(&mut self, func: u64, params: &Vec<Param>)
        ensures
            final(self)@ == old(self)@.bind_cells(func, params@, 0),
    {
        let mut i: usize = 0;
        while i < params.len()
            invariant
                i <= params.len(),
                self@.bind_cells(func, params@, i as nat) == old(self)@.bind_cells(func, params@, 0),
            decreases params.len() - i,
        {
            self.bind(
                &params[i].name,
                Val { id: Id::Param { func, index: i as u32 }, ty: Ty::I64 },
                share(&params[i].ty),
                params[i].layout,
            );
            i = i + 1;
        }
    }

    fn func_body(&mut self, fuel: u64, body: &Ir, not_a_cell: CodegenError) -> (r: Result<
        (),
        CodegenError,
    >)
        ensures
            agrees_unit(old(self)@.func_body(fuel as nat, *body, not_a_cell), final(self)@, r),
    {
        let gc: bool = self.cx.gc;
        let frame = self.enter_if(gc);
        let v = match self.lower_block(fuel, body) {
            Err(e) => {
                return Err(e);
            },
            Ok(v) => v,
        };
        match v.ty {
            Ty::I64 => {
                let v = self.return_with_frame(frame, v);
                self.put(Cmd::Ret { val: v });
                Ok(())
            },
            _ => Err(not_a_cell),
        }
    }
}

fn lower_program(ir: &Ir, always_gc: bool, pure: Rc<Row>, depth: u64) -> (r: Result<
    Vec<Cmd>,
    CodegenError,
>)
    ensures
        match program(*ir, always_gc, pure, depth as nat) {
            Ok(script) => r matches Ok(v) && v@ == script,
            Err(e) => r == Err::<Vec<Cmd>, CodegenError>(e),
        },
{
    let gc: bool = always_gc || block_performs_gc(ir);
    let mut cg = Cg::fresh(Vec::new(), gc, pure);
    cg.open_func(FuncName::Main, 0);
    match cg.func_body(depth, ir, CodegenError::NotAnExitCode) {
        Err(e) => Err(e),
        Ok(_) => Ok(cg.script),
    }
}

fn lower_export(script: Vec<Cmd>, e: &LibExport, always_gc: bool, pure: Rc<Row>, depth: u64) -> (r: Result<
    Vec<Cmd>,
    CodegenError,
>)
    ensures
        match export(script@, *e, always_gc, pure, depth as nat) {
            Ok(script) => r matches Ok(v) && v@ == script,
            Err(e) => r == Err::<Vec<Cmd>, CodegenError>(e),
        },
{
    let func: u64 = script.len() as u64;
    let gc: bool = always_gc || block_performs_gc(&e.body);
    let mut cg = Cg::fresh(script, gc, pure);
    cg.open_func(FuncName::Export(e.symbol.clone()), e.params.len());
    cg.bind_cells(func, &e.params);
    match cg.func_body(depth, &e.body, CodegenError::NotACell("library export result")) {
        Err(e) => Err(e),
        Ok(_) => Ok(cg.script),
    }
}

fn lower_library(exports: &Vec<LibExport>, always_gc: bool, pure: &Rc<Row>, depth: u64) -> (r: Result<
    Vec<Cmd>,
    CodegenError,
>)
    ensures
        match library(Seq::empty(), exports@, 0, always_gc, *pure, depth as nat) {
            Ok(script) => r matches Ok(v) && v@ == script,
            Err(e) => r == Err::<Vec<Cmd>, CodegenError>(e),
        },
{
    let mut script: Vec<Cmd> = Vec::new();
    let mut i: usize = 0;
    while i < exports.len()
        invariant
            i <= exports.len(),
            library(script@, exports@, i as nat, always_gc, *pure, depth as nat) == library(
                Seq::empty(),
                exports@,
                0,
                always_gc,
                *pure,
                depth as nat,
            ),
        decreases exports.len() - i,
    {
        match lower_export(script, &exports[i], always_gc, share(pure), depth) {
            Err(e) => {
                return Err(e);
            },
            Ok(more) => {
                script = more;
            },
        }
        i = i + 1;
    }
    Ok(script)
}

/// The module of a program, with a bound on how deeply handler clauses are
/// inlined. `always_gc` puts the program on the managed heap even if nothing in
/// it needs that.
pub fn emit_module_within(ir: &Ir, always_gc: bool, depth: u64) -> (r: Result<Module, String>)
    ensures
        exists|pure: Rc<Row>|
            is_pure(pure) && #[trigger] made(
                program(*ir, always_gc, pure, depth as nat),
                "locus",
                r,
            ),
{
    let pure = pure_row();
    let ghost row = pure;
    let r = match lower_program(ir, always_gc, pure, depth) {
        Err(e) => Err(e.message()),
        Ok(script) => Ok(Module { name: "locus", script }),
    };
    assert(made(program(*ir, always_gc, row, depth as nat), "locus", r));
    r
}

/// The module of a program.
pub fn emit_module(ir: &Ir, always_gc: bool) -> (r: Result<Module, String>)
    ensures
        exists|pure: Rc<Row>|
            is_pure(pure) && #[trigger] made(
                program(*ir, always_gc, pure, INLINE_LIMIT as nat),
                "locus",
                r,
            ),
{
    emit_module_within(ir, always_gc, INLINE_LIMIT)
}

/// The module of a library: one function for each export, and no entry. Each
/// export decides for itself whether it uses the managed heap.
pub fn emit_library_module(exports: &Vec<LibExport>, always_gc: bool) -> (r: Result<Module, String>)
    ensures
        exists|pure: Rc<Row>|
            is_pure(pure) && #[trigger] made(
                library(Seq::empty(), exports@, 0, always_gc, pure, INLINE_LIMIT as nat),
                "locus_lib",
                r,
            ),
{
    let pure = pure_row();
    let r = match lower_library(exports, always_gc, &pure, INLINE_LIMIT) {
        Err(e) => Err(e.message()),
        Ok(script) => Ok(Module { name: "locus_lib", script }),
    };
    assert(made(
        library(Seq::empty(), exports@, 0, always_gc, pure, INLINE_LIMIT as nat),
        "locus_lib",
        r,
    ));
    r
}

} // verus!
