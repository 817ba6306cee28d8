//! Selective continuation-passing: a handler whose clauses keep their
//! continuation is rewritten into ordinary bindings and lambdas.
//!
//! `let x = perform op a in rest` becomes the clause for `op` with its argument
//! bound to `a` and its continuation bound to `fn x => rest`; a final value is
//! bound to the handler's return variable in front of the return clause.
use crate::analysis::{
    captured, captured_from, clause_index, comp_performs, find_clause, handles, hides_handled,
    lemma_perform_hides_nothing,
};
use crate::error::CodegenError;
use crate::ir::{allocate, pointer_to, share, target, Atom, Comp, Ir, IrBind, IrHandler, IrOpClause, Row};
use std::rc::Rc;
use vstd::prelude::*;

verus! {

/// The last `n` bindings of a block, nested, in front of `tail`.
pub open spec fn nest(binds: Seq<IrBind>, n: nat, tail: Ir) -> Ir
    decreases n,
{
    if n == 0 || n > binds.len() {
        tail
    } else {
        let bind = binds[binds.len() - n];
        Ir::Let {
            name: bind.name,
            ty: bind.ty,
            layout: bind.layout,
            row: bind.row,
            comp: bind.comp,
            rest: pointer_to(nest(binds, (n - 1) as nat, tail)),
        }
    }
}

/// A flat block as nested bindings.
pub open spec fn let_chain(binds: Seq<IrBind>, row: Rc<Row>, comp: Rc<Comp>) -> Ir {
    nest(binds, binds.len(), Ir::Ret { row, comp })
}

/// The clause with its argument and its continuation bound in front of it.
/// `pure` is the row of the argument's binding.
pub open spec fn clause_with(clause: IrOpClause, arg: Atom, cont: Comp, row: Rc<Row>, pure: Rc<Row>) -> Ir {
    Ir::Let {
        name: clause.arg,
        ty: clause.arg_ty,
        layout: clause.arg_layout,
        row: pure,
        comp: pointer_to(Comp::Atom(arg)),
        rest: pointer_to(
            Ir::Let {
                name: clause.resume,
                ty: clause.resume_ty,
                layout: clause.resume_layout,
                row,
                comp: pointer_to(cont),
                rest: clause.body,
            },
        ),
    }
}

/// Bind the operation's argument and the continuation, then run the clause.
fn perform_cps(clause: &IrOpClause, arg: &Atom, cont: Comp, row: &Rc<Row>, pure: &Rc<Row>) -> (r: Ir)
    ensures
        r == clause_with(*clause, *arg, cont, *row, *pure),
{
    Ir::Let {
        name: clause.arg.clone(),
        ty: share(&clause.arg_ty),
        layout: clause.arg_layout,
        row: share(pure),
        comp: allocate(Comp::Atom(arg.copy())),
        rest: allocate(
            Ir::Let {
                name: clause.resume.clone(),
                ty: share(&clause.resume_ty),
                layout: clause.resume_layout,
                row: share(row),
                comp: allocate(cont),
                rest: share(&clause.body),
            },
        ),
    }
}

/// The return clause as a continuation.
pub open spec fn return_continuation(handler: IrHandler) -> Comp {
    Comp::Lam {
        param: handler.ret.var,
        param_ty: Some(handler.ret.var_ty),
        param_layout: handler.ret.var_layout,
        ret_ty: handler.ret.body_ty,
        body: handler.ret.body,
    }
}

/// A block rewritten for the handler, or the refusal of one that performs a
/// handled operation where no continuation can be cut out: inside a branch, a
/// nested handler or a lambda.
pub open spec fn cps(block: Ir, handler: IrHandler, pure: Rc<Row>) -> Result<Ir, CodegenError>
    decreases block, 0nat,
{
    match block {
        Ir::Block { binds, row, comp } => cps_from(
            binds,
            0,
            cps_ret(row, comp, handler, pure),
            handler,
            pure,
        ),
        Ir::Ret { row, comp } => cps_ret(row, comp, handler, pure),
        Ir::Let { name, ty, layout, row, comp, rest } => cps_let(
            IrBind { name, ty, layout, row, comp },
            cps(*rest, handler, pure),
            handler,
            pure,
        ),
    }
}

/// The bindings from position `i` on, in front of the rewritten `tail`.
pub open spec fn cps_from(
    binds: Vec<IrBind>,
    i: nat,
    tail: Result<Ir, CodegenError>,
    handler: IrHandler,
    pure: Rc<Row>,
) -> Result<Ir, CodegenError>
    decreases binds, binds.len() - i,
{
    if i >= binds.len() {
        tail
    } else {
        cps_let(binds[i as int], cps_from(binds, i + 1, tail, handler, pure), handler, pure)
    }
}

/// One binding in front of the rewritten `rest`.
pub open spec fn cps_let(
    bind: IrBind,
    rest: Result<Ir, CodegenError>,
    handler: IrHandler,
    pure: Rc<Row>,
) -> Result<Ir, CodegenError> {
    if let Comp::Perform(op, arg) = *bind.comp {
        if handles(handler, op) {
            match rest {
                Err(e) => Err(e),
                Ok(rest) => Ok(
                    clause_with(
                        handler.ops[clause_index(handler, op)],
                        arg,
                        Comp::Lam {
                            param: bind.name,
                            param_ty: Some(bind.ty),
                            param_layout: bind.layout,
                            ret_ty: handler.ret.body_ty,
                            body: pointer_to(rest),
                        },
                        bind.row,
                        pure,
                    ),
                ),
            }
        } else {
            cps_keep(bind, rest, handler)
        }
    } else {
        cps_keep(bind, rest, handler)
    }
}

/// A binding that stays, in front of the rewritten `rest`.
pub open spec fn cps_keep(bind: IrBind, rest: Result<Ir, CodegenError>, handler: IrHandler) -> Result<
    Ir,
    CodegenError,
> {
    if hides_handled(*bind.comp, handler) {
        Err(CodegenError::PerformNotCaptured)
    } else {
        match rest {
            Err(e) => Err(e),
            Ok(rest) => Ok(
                Ir::Let {
                    name: bind.name,
                    ty: bind.ty,
                    layout: bind.layout,
                    row: bind.row,
                    comp: bind.comp,
                    rest: pointer_to(rest),
                },
            ),
        }
    }
}

/// The computation that gives the block's value, rewritten.
pub open spec fn cps_ret(row: Rc<Row>, comp: Rc<Comp>, handler: IrHandler, pure: Rc<Row>) -> Result<
    Ir,
    CodegenError,
> {
    if let Comp::Perform(op, arg) = *comp {
        if handles(handler, op) {
            Ok(
                clause_with(
                    handler.ops[clause_index(handler, op)],
                    arg,
                    return_continuation(handler),
                    row,
                    pure,
                ),
            )
        } else {
            cps_final(row, comp, handler)
        }
    } else {
        cps_final(row, comp, handler)
    }
}

/// A final value, bound in front of the return clause.
pub open spec fn cps_final(row: Rc<Row>, comp: Rc<Comp>, handler: IrHandler) -> Result<
    Ir,
    CodegenError,
> {
    if hides_handled(*comp, handler) {
        Err(CodegenError::PerformNotCaptured)
    } else {
        Ok(
            Ir::Let {
                name: handler.ret.var,
                ty: handler.ret.var_ty,
                layout: handler.ret.var_layout,
                row,
                comp,
                rest: handler.ret.body,
            },
        )
    }
}

/// The return clause as a continuation.
fn return_lambda(handler: &IrHandler) -> (r: Comp)
    ensures
        r == return_continuation(*handler),
{
    Comp::Lam {
        param: handler.ret.var.clone(),
        param_ty: Some(share(&handler.ret.var_ty)),
        param_layout: handler.ret.var_layout,
        ret_ty: share(&handler.ret.body_ty),
        body: share(&handler.ret.body),
    }
}

/// Refuse a computation that performs a handled operation in a nested block.
fn cps_guard(comp: &Comp, handler: &IrHandler) -> (r: Result<(), CodegenError>)
    ensures
        r == if hides_handled(*comp, *handler) {
            Err::<(), CodegenError>(CodegenError::PerformNotCaptured)
        } else {
            Ok(())
        },
{
    if comp_performs(comp, handler) {
        Err(CodegenError::PerformNotCaptured)
    } else {
        Ok(())
    }
}

/// The computation that gives the block's value, rewritten.
fn transform_ret(row: &Rc<Row>, comp: &Rc<Comp>, handler: &IrHandler, pure: &Rc<Row>) -> (r: Result<
    Ir,
    CodegenError,
>)
    ensures
        r == cps_ret(*row, *comp, *handler, *pure),
{
    if let Comp::Perform(op, arg) = &**comp {
        if let Some(i) = find_clause(handler, op) {
            return Ok(perform_cps(&handler.ops[i], arg, return_lambda(handler), row, pure));
        }
    }
    match cps_guard(comp, handler) {
        Err(e) => Err(e),
        Ok(()) => Ok(
            Ir::Let {
                name: handler.ret.var.clone(),
                ty: share(&handler.ret.var_ty),
                layout: handler.ret.var_layout,
                row: share(row),
                comp: share(comp),
                rest: share(&handler.ret.body),
            },
        ),
    }
}

/// One binding in front of the rewritten `rest`.
fn transform_let(
    bind: &IrBind,
    rest: Result<Ir, CodegenError>,
    handler: &IrHandler,
    pure: &Rc<Row>,
) -> (r: Result<Ir, CodegenError>)
    ensures
        r == cps_let(*bind, rest, *handler, *pure),
{
    if let Comp::Perform(op, arg) = &*bind.comp {
        if let Some(i) = find_clause(handler, op) {
            return match rest {
                Err(e) => Err(e),
                Ok(rest) => {
                    let cont = Comp::Lam {
                        param: bind.name.clone(),
                        param_ty: Some(share(&bind.ty)),
                        param_layout: bind.layout,
                        ret_ty: share(&handler.ret.body_ty),
                        body: allocate(rest),
                    };
                    Ok(perform_cps(&handler.ops[i], arg, cont, &bind.row, pure))
                },
            };
        }
    }
    match cps_guard(&bind.comp, handler) {
        Err(e) => Err(e),
        Ok(()) => match rest {
            Err(e) => Err(e),
            Ok(rest) => Ok(
                Ir::Let {
                    name: bind.name.clone(),
                    ty: share(&bind.ty),
                    layout: bind.layout,
                    row: share(&bind.row),
                    comp: share(&bind.comp),
                    rest: allocate(rest),
                },
            ),
        },
    }
}

/// A list of bindings in front of the rewritten `tail`.
fn transform_binds(
    binds: &Vec<IrBind>,
    tail: Result<Ir, CodegenError>,
    handler: &IrHandler,
    pure: &Rc<Row>,
) -> (r: Result<Ir, CodegenError>)
    ensures
        r == cps_from(*binds, 0, tail, *handler, *pure),
{
    let ghost end = tail;
    let mut out = tail;
    let mut i: usize = binds.len();
    while i > 0
        invariant
            i <= binds.len(),
            out == cps_from(*binds, i as nat, end, *handler, *pure),
        decreases i,
    {
        i = i - 1;
        out = transform_let(&binds[i], out, handler, pure);
    }
    out
}

/// Rewrite a handler's scrutinee into ordinary bindings and lambdas: each
/// handled operation that it performs at its top level becomes its clause, with
/// the rest of the block as the continuation.
pub fn cps_transform(block: &Ir, handler: &IrHandler, pure: &Rc<Row>) -> (r: Result<
    Ir,
    CodegenError,
>)
    ensures
        r == cps(*block, *handler, *pure),
    decreases block,
{
    match block {
        Ir::Block { binds, row, comp } => {
            let tail = transform_ret(row, comp, handler, pure);
            transform_binds(binds, tail, handler, pure)
        },
        Ir::Ret { row, comp } => transform_ret(row, comp, handler, pure),
        Ir::Let { name, ty, layout, row, comp, rest } => {
            let bind = IrBind {
                name: name.clone(),
                ty: share(ty),
                layout: *layout,
                row: share(row),
                comp: share(comp),
            };
            transform_let(&bind, cps_transform(rest, handler, pure), handler, pure)
        },
    }
}

/// A flat block and its nested spelling are rewritten to the same program.
pub proof fn flat_and_nested_blocks_agree(
    binds: Vec<IrBind>,
    row: Rc<Row>,
    comp: Rc<Comp>,
    handler: IrHandler,
    pure: Rc<Row>,
)
    ensures
        cps(Ir::Block { binds, row, comp }, handler, pure) == cps(
            let_chain(binds@, row, comp),
            handler,
            pure,
        ),
{
    lemma_nest(binds, row, comp, handler, pure, binds.len() as nat);
}

proof fn lemma_nest(
    binds: Vec<IrBind>,
    row: Rc<Row>,
    comp: Rc<Comp>,
    handler: IrHandler,
    pure: Rc<Row>,
    n: nat,
)
    requires
        n <= binds.len(),
    ensures
        cps(nest(binds@, n, Ir::Ret { row, comp }), handler, pure) == cps_from(
            binds,
            (binds.len() - n) as nat,
            cps_ret(row, comp, handler, pure),
            handler,
            pure,
        ),
    decreases n,
{
    if n > 0 {
        lemma_nest(binds, row, comp, handler, pure, (n - 1) as nat);
    }
}

/// The rewrite succeeds exactly on a block in which no handled operation is
/// performed inside a branch, a nested handler or a lambda.
pub proof fn rewrite_succeeds_iff_captured(block: Ir, handler: IrHandler, pure: Rc<Row>)
    ensures
        cps(block, handler, pure) is Ok <==> captured(block, handler),
    decreases block,
{
    match block {
        Ir::Block { binds, row, comp } => {
            lemma_from_succeeds(binds, 0, cps_ret(row, comp, handler, pure), handler, pure);
            if target(comp) is Perform {
                lemma_perform_hides_nothing(target(comp), handler);
            }
        },
        Ir::Let { comp, rest, .. } => {
            rewrite_succeeds_iff_captured(target(rest), handler, pure);
            if target(comp) is Perform {
                lemma_perform_hides_nothing(target(comp), handler);
            }
        },
        Ir::Ret { comp, .. } => {
            if target(comp) is Perform {
                lemma_perform_hides_nothing(target(comp), handler);
            }
        },
    }
}

proof fn lemma_from_succeeds(
    binds: Vec<IrBind>,
    i: nat,
    tail: Result<Ir, CodegenError>,
    handler: IrHandler,
    pure: Rc<Row>,
)
    requires
        i <= binds.len(),
    ensures
        cps_from(binds, i, tail, handler, pure) is Ok <==> tail is Ok && captured_from(
            binds@,
            i,
            handler,
        ),
    decreases binds.len() - i,
{
    if i < binds.len() {
        lemma_from_succeeds(binds, i + 1, tail, handler, pure);
        if target(binds[i as int].comp) is Perform {
            lemma_perform_hides_nothing(target(binds[i as int].comp), handler);
        }
    }
}

} // verus!
