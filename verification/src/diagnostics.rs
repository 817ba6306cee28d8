//! What the compiler's diagnostic codes mean.
use crate::json::{no_fields, Js, Json, ObjectBuilder};
use crate::text::{is_text, to_uppercase, trim, trimmed, uppercase};
use vstd::prelude::*;

verus! {

/// What is known of a diagnostic code: its family, its slug, a summary and what
/// to do about it.
pub type Explanation = (&'static str, &'static str, &'static str, &'static str);

/// What is known of a diagnostic code.
pub open spec fn explanation(code: Seq<char>) -> Explanation {
    if code == "RN-E0101"@ {
        (
            "scope",
            "scope.unbound",
            "A name is not in scope at the point it is used.",
            "Import or define the name, or check that a stdlib service exposing it was triggered.",
        )
    } else if code == "RN-E0201"@ {
        (
            "type",
            "type.not-a-function",
            "A value was applied as a function, but its type is not an arrow.",
            "Check the callee expression and add an annotation if inference picked the wrong shape.",
        )
    } else if code == "RN-E0203"@ {
        (
            "type",
            "type.mismatch",
            "Two types that must be equal do not unify.",
            "Read the expected/actual types in the diagnostic and adapt the expression or annotation.",
        )
    } else if code == "RN-E0227"@ {
        (
            "type",
            "kind.wide-into-traced-slot",
            "A representation-polymorphic value would enter a traced storage slot.",
            "Monomorphize the value or store it in a representation-known container.",
        )
    } else if code == "RN-E0230"@ {
        (
            "traits",
            "trait.no-instance",
            "No trait instance can satisfy a required constraint.",
            "Import or write the needed instance, or add a type annotation that selects one.",
        )
    } else if code == "RN-E0231"@ {
        (
            "traits",
            "trait.overlapping-instances",
            "Two trait instances overlap for the same obligation.",
            "Remove or narrow one instance; v1 requires coherence.",
        )
    } else if code == "RN-E0232"@ {
        (
            "traits",
            "trait.orphan-instance",
            "An instance is declared outside both the trait's module and the type's module.",
            "Move it to an owning module or wrap the type in a local newtype.",
        )
    } else if code == "RN-E0233"@ {
        (
            "traits",
            "trait.resolution-diverges",
            "Trait resolution is not structurally decreasing.",
            "Make each required constraint smaller than the instance head.",
        )
    } else if code == "RN-E0234"@ {
        (
            "traits",
            "trait.ambiguous",
            "A trait constraint has an undetermined type variable.",
            "Add a type annotation; Locus does not default ambiguous constraints.",
        )
    } else if code == "RN-E0235"@ {
        (
            "traits",
            "trait.no-method",
            "A name was used as a trait method, but no in-scope trait declares it.",
            "Import the trait or check the method spelling.",
        )
    } else if code == "RN-E0236"@ {
        (
            "traits",
            "trait.superclass-unsatisfied",
            "A superclass obligation for an instance is not satisfied.",
            "Provide the superclass instance before relying on the child trait.",
        )
    } else if code == "RN-E0237"@ {
        (
            "traits",
            "trait.duplicate-instance",
            "The same trait instance is declared twice.",
            "Delete or merge the duplicate instance.",
        )
    } else if code == "RN-E0238"@ {
        (
            "traits",
            "trait.method-row-violation",
            "An instance method performs effects beyond the trait method row.",
            "Widen the trait method row or remove the effect from the implementation.",
        )
    } else if code == "RN-E0239"@ {
        (
            "traits",
            "trait.missing-method",
            "An instance is missing a method or declares one the trait does not have.",
            "Implement exactly the trait's declared methods.",
        )
    } else if code == "RN-E0241"@ {
        (
            "mutability",
            "mut.escapes",
            "A mutable local would escape its scope.",
            "Keep the mutable cell local or move the state into an explicit managed structure.",
        )
    } else if code == "RN-E0244"@ {
        (
            "mutability",
            "mut.non-scalar",
            "A v1 mutable local was requested for a non-scalar value.",
            "Use scalar mutability today, or model the value through arrays/refs.",
        )
    } else if code == "RN-E0245"@ {
        (
            "mutability",
            "mut.assign-immutable",
            "An assignment targets a binding that is not mutable.",
            "Declare it with `let mut`, or stop assigning to it.",
        )
    } else if code == "RN-E0246"@ {
        (
            "traits",
            "trait.v1-unsupported",
            "A well-typed trait construct is outside the v1 lowering scope.",
            "Monomorphize or simplify the construct, or defer until recursive/generic instance lowering lands.",
        )
    } else if code == "RN-E0247"@ {
        (
            "mutability",
            "ref.pointer-content",
            "A Ref would contain GC-managed pointer data that needs a write barrier.",
            "Keep Ref contents scalar for now, or use a managed container surface.",
        )
    } else if code == "RN-E0301"@ {
        (
            "staging",
            "stage.escape",
            "A staged value escapes the phase where it is valid.",
            "Keep generated code inside the staging boundary that created it.",
        )
    } else if code == "RN-E0302"@ {
        (
            "staging",
            "stage.misuse",
            "A staging construct was used at the wrong phase or on the wrong kind of value.",
            "Move the quote/splice/genlet boundary or change the value to `Code`.",
        )
    } else if code == "RN-E0401"@ {
        (
            "capability",
            "extern.bare",
            "A bare extern reached the core checker without an oracle signature.",
            "Use `locusc` so the oracle can resolve it, or write an explicit extern type.",
        )
    } else if code == "RN-E0402"@ {
        (
            "capability",
            "cap.mint-outside-boundary",
            "Raw capability minting appeared outside an authorized boundary module.",
            "Move extern/raw-memory code to layer 0 and authorize that module in `locus.toml`.",
        )
    } else if code == "RN-E0403"@ {
        (
            "capability",
            "cap.seal-leak",
            "A sealed effect label escapes a seal/module boundary.",
            "Handle or discharge the effect before exposing the value.",
        )
    } else if code == "RN-E0404"@ {
        (
            "capability",
            "cap.unauthorized-boundary",
            "A module claims `at boundary` but is not authorized by the manifest.",
            "List the module under `[boundary].modules` or remove the boundary claim.",
        )
    } else if code == "RN-E0405"@ {
        (
            "capability",
            "cap.asm-gc-type / capability.level-out-of-layer",
            "Either: an extern-asm signature crosses a GC-managed type; OR a level-visibility OUT-OF-LAYER reference (a use site names a binding bound only at a layer it cannot reach — e.g. an app naming a boundary binding two layers down, or any upward reference).",
            "For asm: keep signatures GC-blind (scalars/raw pointers). For level: reach the binding through a sealed service that exposes a capability.",
        )
    } else if code == "RN-E0406"@ {
        (
            "capability",
            "capability.level-not-exposed",
            "A level-visibility NOT-EXPOSED reference: the named binding IS at a reachable layer but is private (not in its module's `exposing`).",
            "Add the name to its module's `exposing (…)`, or reach it through an exposed capability.",
        )
    } else if code == "RN-E0407"@ {
        (
            "capability",
            "capability.non-sealable-effect",
            "A never-sealable effect (`gc`, `exn`, or `Insert`) was named in a module `seals (…)` clause or a region `seal L { … }` — the inverted denylist; sealing one would hide a fault or break let-insertion.",
            "Drop `gc`/`exn`/`insert` from the seal; seal only native powers (`winapi`/`mem`/…) you actually discharge.",
        )
    } else if code == "RN-E0600"@ {
        (
            "module",
            "module.stale-interface",
            "An interface hash or shape does not match the consumer's expectation.",
            "Regenerate the interface and rebuild dependents.",
        )
    } else if code == "RN-E0601"@ {
        (
            "module",
            "module.missing-export",
            "A module import requests a name the interface does not export.",
            "Export the name or fix the import list.",
        )
    } else if code == "RN-E0603"@ {
        (
            "module",
            "module.abi-version",
            "An interface was built for a different ABI/representation version.",
            "Rebuild the producer interface with this compiler.",
        )
    } else if code == "RN-E0604"@ {
        (
            "module",
            "module.import-cycle",
            "Module imports form a cycle.",
            "Break the cycle by moving shared definitions to a lower module.",
        )
    } else {
        (
            "unknown",
            "unknown",
            "This diagnostic code is not in the MCP server's compact explanation table.",
            "Run `check` to get the full compiler message, then add this code to the catalog if it should be stable.",
        )
    }
}

/// What is known of a diagnostic code. A code that is not listed is unknown.
pub fn diagnostic_explanation(code: &str) -> (r: Explanation)
    ensures
        r == explanation(code@),
{
    if is_text(code, "RN-E0101") {
        (
            "scope",
            "scope.unbound",
            "A name is not in scope at the point it is used.",
            "Import or define the name, or check that a stdlib service exposing it was triggered.",
        )
    } else if is_text(code, "RN-E0201") {
        (
            "type",
            "type.not-a-function",
            "A value was applied as a function, but its type is not an arrow.",
            "Check the callee expression and add an annotation if inference picked the wrong shape.",
        )
    } else if is_text(code, "RN-E0203") {
        (
            "type",
            "type.mismatch",
            "Two types that must be equal do not unify.",
            "Read the expected/actual types in the diagnostic and adapt the expression or annotation.",
        )
    } else if is_text(code, "RN-E0227") {
        (
            "type",
            "kind.wide-into-traced-slot",
            "A representation-polymorphic value would enter a traced storage slot.",
            "Monomorphize the value or store it in a representation-known container.",
        )
    } else if is_text(code, "RN-E0230") {
        (
            "traits",
            "trait.no-instance",
            "No trait instance can satisfy a required constraint.",
            "Import or write the needed instance, or add a type annotation that selects one.",
        )
    } else if is_text(code, "RN-E0231") {
        (
            "traits",
            "trait.overlapping-instances",
            "Two trait instances overlap for the same obligation.",
            "Remove or narrow one instance; v1 requires coherence.",
        )
    } else if is_text(code, "RN-E0232") {
        (
            "traits",
            "trait.orphan-instance",
            "An instance is declared outside both the trait's module and the type's module.",
            "Move it to an owning module or wrap the type in a local newtype.",
        )
    } else if is_text(code, "RN-E0233") {
        (
            "traits",
            "trait.resolution-diverges",
            "Trait resolution is not structurally decreasing.",
            "Make each required constraint smaller than the instance head.",
        )
    } else if is_text(code, "RN-E0234") {
        (
            "traits",
            "trait.ambiguous",
            "A trait constraint has an undetermined type variable.",
            "Add a type annotation; Locus does not default ambiguous constraints.",
        )
    } else if is_text(code, "RN-E0235") {
        (
            "traits",
            "trait.no-method",
            "A name was used as a trait method, but no in-scope trait declares it.",
            "Import the trait or check the method spelling.",
        )
    } else if is_text(code, "RN-E0236") {
        (
            "traits",
            "trait.superclass-unsatisfied",
            "A superclass obligation for an instance is not satisfied.",
            "Provide the superclass instance before relying on the child trait.",
        )
    } else if is_text(code, "RN-E0237") {
        (
            "traits",
            "trait.duplicate-instance",
            "The same trait instance is declared twice.",
            "Delete or merge the duplicate instance.",
        )
    } else if is_text(code, "RN-E0238") {
        (
            "traits",
            "trait.method-row-violation",
            "An instance method performs effects beyond the trait method row.",
            "Widen the trait method row or remove the effect from the implementation.",
        )
    } else if is_text(code, "RN-E0239") {
        (
            "traits",
            "trait.missing-method",
            "An instance is missing a method or declares one the trait does not have.",
            "Implement exactly the trait's declared methods.",
        )
    } else if is_text(code, "RN-E0241") {
        (
            "mutability",
            "mut.escapes",
            "A mutable local would escape its scope.",
            "Keep the mutable cell local or move the state into an explicit managed structure.",
        )
    } else if is_text(code, "RN-E0244") {
        (
            "mutability",
            "mut.non-scalar",
            "A v1 mutable local was requested for a non-scalar value.",
            "Use scalar mutability today, or model the value through arrays/refs.",
        )
    } else if is_text(code, "RN-E0245") {
        (
            "mutability",
            "mut.assign-immutable",
            "An assignment targets a binding that is not mutable.",
            "Declare it with `let mut`, or stop assigning to it.",
        )
    } else if is_text(code, "RN-E0246") {
        (
            "traits",
            "trait.v1-unsupported",
            "A well-typed trait construct is outside the v1 lowering scope.",
            "Monomorphize or simplify the construct, or defer until recursive/generic instance lowering lands.",
        )
    } else if is_text(code, "RN-E0247") {
        (
            "mutability",
            "ref.pointer-content",
            "A Ref would contain GC-managed pointer data that needs a write barrier.",
            "Keep Ref contents scalar for now, or use a managed container surface.",
        )
    } else if is_text(code, "RN-E0301") {
        (
            "staging",
            "stage.escape",
            "A staged value escapes the phase where it is valid.",
            "Keep generated code inside the staging boundary that created it.",
        )
    } else if is_text(code, "RN-E0302") {
        (
            "staging",
            "stage.misuse",
            "A staging construct was used at the wrong phase or on the wrong kind of value.",
            "Move the quote/splice/genlet boundary or change the value to `Code`.",
        )
    } else if is_text(code, "RN-E0401") {
        (
            "capability",
            "extern.bare",
            "A bare extern reached the core checker without an oracle signature.",
            "Use `locusc` so the oracle can resolve it, or write an explicit extern type.",
        )
    } else if is_text(code, "RN-E0402") {
        (
            "capability",
            "cap.mint-outside-boundary",
            "Raw capability minting appeared outside an authorized boundary module.",
            "Move extern/raw-memory code to layer 0 and authorize that module in `locus.toml`.",
        )
    } else if is_text(code, "RN-E0403") {
        (
            "capability",
            "cap.seal-leak",
            "A sealed effect label escapes a seal/module boundary.",
            "Handle or discharge the effect before exposing the value.",
        )
    } else if is_text(code, "RN-E0404") {
        (
            "capability",
            "cap.unauthorized-boundary",
            "A module claims `at boundary` but is not authorized by the manifest.",
            "List the module under `[boundary].modules` or remove the boundary claim.",
        )
    } else if is_text(code, "RN-E0405") {
        (
            "capability",
            "cap.asm-gc-type / capability.level-out-of-layer",
            "Either: an extern-asm signature crosses a GC-managed type; OR a level-visibility OUT-OF-LAYER reference (a use site names a binding bound only at a layer it cannot reach — e.g. an app naming a boundary binding two layers down, or any upward reference).",
            "For asm: keep signatures GC-blind (scalars/raw pointers). For level: reach the binding through a sealed service that exposes a capability.",
        )
    } else if is_text(code, "RN-E0406") {
        (
            "capability",
            "capability.level-not-exposed",
            "A level-visibility NOT-EXPOSED reference: the named binding IS at a reachable layer but is private (not in its module's `exposing`).",
            "Add the name to its module's `exposing (…)`, or reach it through an exposed capability.",
        )
    } else if is_text(code, "RN-E0407") {
        (
            "capability",
            "capability.non-sealable-effect",
            "A never-sealable effect (`gc`, `exn`, or `Insert`) was named in a module `seals (…)` clause or a region `seal L { … }` — the inverted denylist; sealing one would hide a fault or break let-insertion.",
            "Drop `gc`/`exn`/`insert` from the seal; seal only native powers (`winapi`/`mem`/…) you actually discharge.",
        )
    } else if is_text(code, "RN-E0600") {
        (
            "module",
            "module.stale-interface",
            "An interface hash or shape does not match the consumer's expectation.",
            "Regenerate the interface and rebuild dependents.",
        )
    } else if is_text(code, "RN-E0601") {
        (
            "module",
            "module.missing-export",
            "A module import requests a name the interface does not export.",
            "Export the name or fix the import list.",
        )
    } else if is_text(code, "RN-E0603") {
        (
            "module",
            "module.abi-version",
            "An interface was built for a different ABI/representation version.",
            "Rebuild the producer interface with this compiler.",
        )
    } else if is_text(code, "RN-E0604") {
        (
            "module",
            "module.import-cycle",
            "Module imports form a cycle.",
            "Break the cycle by moving shared definitions to a lower module.",
        )
    } else {
        (
            "unknown",
            "unknown",
            "This diagnostic code is not in the MCP server's compact explanation table.",
            "Run `check` to get the full compiler message, then add this code to the catalog if it should be stable.",
        )
    }
}

/// A code as it is looked up: without white space around it, in upper case.
pub open spec fn canonical(code: Seq<char>) -> Seq<char> {
    uppercase(trimmed(code))
}

/// The explanation of a code.
pub open spec fn explained(code: Seq<char>) -> Js {
    let e = explanation(canonical(code));
    Js::Object(
        no_fields().push(("code"@, Js::Text(canonical(code)))).push(
            ("family"@, Js::Text(e.0@)),
        ).push(("slug"@, Js::Text(e.1@))).push(("summary"@, Js::Text(e.2@))).push(
            ("action"@, Js::Text(e.3@)),
        ),
    )
}

/// The explanation of a code, however it is written.
pub fn explain_diagnostic(code: &str) -> (r: Json)
    ensures
        r@ == explained(code@),
{
    let bare = trim(code);
    let code = to_uppercase(&bare);
    let e = diagnostic_explanation(&code);
    ObjectBuilder::new().text("code", &code).text("family", e.0).text("slug", e.1).text(
        "summary",
        e.2,
    ).text("action", e.3).finish()
}

} // verus!
