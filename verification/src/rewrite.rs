//! The module rewriter: turning an arbitrary wasm module into a
//! self-contained instance template.
//!
//! Importing a module removes its global and memory imports, replacing them
//! with locally defined globals (zero-initialized, inserted ahead of the
//! existing ones so that global indices stay valid) and locally defined
//! memories carrying the imported limits; exports every defined global and
//! the single memory under canonical names; and attaches the identifying
//! custom marker section. Modules relying on wasm features outside this
//! kernel's subset are refused.

use vstd::prelude::*;
use crate::{Errors, OthismoError, EncodeError};
use crate::wasm::{
    ValueType, GlobalType, Limits, ImportDesc, Import, ExportDesc, Export, InitExpr, GlobalDecl,
    Section, SectionV, WasmModule, spec_zero_init, init_matches, flat_of, lemma_flat_of_push,
    views_of, ImportV, ExportV, clone_imports, clone_exports, clone_limits_vec, clone_globals,
    clone_section, lemma_views_push,
};
use crate::decode::module_wf;

verus! {

/// All import entries of a module, in order.
pub open spec fn imports_in(ss: Seq<SectionV>) -> Seq<ImportV> {
    flat_of(
        ss,
        |s: SectionV|
            match s {
                SectionV::Import(v) => v,
                _ => Seq::<ImportV>::empty(),
            },
    )
}

/// All memory declarations of a module, in order.
pub open spec fn memories_in(ss: Seq<SectionV>) -> Seq<Limits> {
    flat_of(
        ss,
        |s: SectionV|
            match s {
                SectionV::Memory(v) => v,
                _ => Seq::<Limits>::empty(),
            },
    )
}

/// All global declarations of a module, in order.
pub open spec fn globals_in(ss: Seq<SectionV>) -> Seq<GlobalDecl> {
    flat_of(
        ss,
        |s: SectionV|
            match s {
                SectionV::Global(v) => v,
                _ => Seq::<GlobalDecl>::empty(),
            },
    )
}

/// All export entries of a module, in order.
pub open spec fn exports_in(ss: Seq<SectionV>) -> Seq<ExportV> {
    flat_of(
        ss,
        |s: SectionV|
            match s {
                SectionV::Export(v) => v,
                _ => Seq::<ExportV>::empty(),
            },
    )
}

/// All data segments of a module, in order.
pub open spec fn data_in(ss: Seq<SectionV>) -> Seq<crate::wasm::DataSegmentV> {
    flat_of(
        ss,
        |s: SectionV|
            match s {
                SectionV::Data(v) => v,
                _ => Seq::<crate::wasm::DataSegmentV>::empty(),
            },
    )
}

/// The name of the identifying custom section: the bytes of `othismo`.
pub open spec fn marker_name() -> Seq<u8> {
    seq![111u8, 116u8, 104u8, 105u8, 115u8, 109u8, 111u8]
}

/// Whether a section is the identifying custom marker.
pub open spec fn is_marker(s: SectionV) -> bool {
    match s {
        SectionV::Custom { name, .. } => name == marker_name(),
        _ => false,
    }
}

/// Whether the rewriter rebuilds this kind of section.
pub open spec fn touched(s: SectionV) -> bool {
    ||| s is Import
    ||| s is Memory
    ||| s is Global
    ||| s is Export
    ||| is_marker(s)
}

/// The sections the rewriter carries over unchanged, in order.
pub open spec fn others_in(ss: Seq<SectionV>) -> Seq<SectionV> {
    flat_of(
        ss,
        |s: SectionV|
            if touched(s) {
                Seq::<SectionV>::empty()
            } else {
                seq![s]
            },
    )
}

/// At most one element of `ss` satisfies `p`.
pub open spec fn at_most_one(ss: Seq<SectionV>, p: spec_fn(SectionV) -> bool) -> bool {
    forall|i: int, j: int| 0 <= i < j < ss.len() ==> !(p(#[trigger] ss[i]) && p(#[trigger] ss[j]))
}

/// The import entries that survive the rewrite: everything that is neither a
/// global nor a memory import.
pub open spec fn surviving_imports(s: Seq<ImportV>) -> Seq<ImportV> {
    flat_of(
        s,
        |i: ImportV|
            match i.desc {
                ImportDesc::Global(..) => Seq::<ImportV>::empty(),
                ImportDesc::Mem(..) => Seq::<ImportV>::empty(),
                _ => seq![i],
            },
    )
}

/// The zero-initialized local globals that replace the global imports,
/// in import order.
pub open spec fn extracted_globals(s: Seq<ImportV>) -> Seq<GlobalDecl> {
    flat_of(
        s,
        |i: ImportV|
            match i.desc {
                ImportDesc::Global(g) => seq![
                    GlobalDecl { ty: g, init: spec_zero_init(g.value_type) },
                ],
                _ => Seq::<GlobalDecl>::empty(),
            },
    )
}

/// The limits of the memory imports, in import order.
pub open spec fn imported_mem_limits(s: Seq<ImportV>) -> Seq<Limits> {
    flat_of(
        s,
        |i: ImportV|
            match i.desc {
                ImportDesc::Mem(l) => seq![l],
                _ => Seq::<Limits>::empty(),
            },
    )
}

/// The refusal tag of a global import's value type, if the kernel does not
/// support it.
pub open spec fn bad_tag(d: ImportDesc) -> Option<Seq<char>> {
    match d {
        ImportDesc::Global(g) => match g.value_type {
            ValueType::V128 => Some("simd_global"@),
            ValueType::FuncRef => Some("reference_type_global"@),
            ValueType::ExternRef => Some("reference_type_global"@),
            _ => None,
        },
        _ => None,
    }
}

/// The refusal tag of the first unsupported global import, if any.
pub open spec fn first_unsupported(s: Seq<ImportV>) -> Option<Seq<char>>
    decreases s.len(),
{
    if s.len() == 0 {
        None
    } else {
        match bad_tag(s[0].desc) {
            Some(t) => Some(t),
            None => first_unsupported(s.drop_first()),
        }
    }
}

/// The decimal digits of `n`, as ASCII bytes.
pub open spec fn dec_digits(n: nat) -> Seq<u8>
    decreases n,
{
    if n < 10 {
        seq![(48 + n) as u8]
    } else {
        dec_digits(n / 10) + seq![(48 + n % 10) as u8]
    }
}

/// The canonical export name of the defined global with index `idx`:
/// `othismo_global_<idx>`.
pub open spec fn global_export_name(idx: u32) -> Seq<u8> {
    seq![
        111u8, 116u8, 104u8, 105u8, 115u8, 109u8, 111u8, 95u8, 103u8, 108u8, 111u8, 98u8, 97u8,
        108u8, 95u8,
    ] + dec_digits(idx as nat)
}

/// The canonical export name of the single memory: `othismo_memory_0`.
pub open spec fn memory_export_name() -> Seq<u8> {
    seq![
        111u8, 116u8, 104u8, 105u8, 115u8, 109u8, 111u8, 95u8, 109u8, 101u8, 109u8, 111u8, 114u8,
        121u8, 95u8, 48u8,
    ]
}

/// Whether some export points at the defined global with index `idx`.
pub open spec fn global_exported(es: Seq<ExportV>, idx: u32) -> bool {
    exists|j: int| 0 <= j < es.len() && (#[trigger] es[j].desc) == ExportDesc::Global(idx)
}

/// Whether some export points at a memory.
pub open spec fn mem_exported(es: Seq<ExportV>) -> bool {
    exists|j: int| 0 <= j < es.len() && (#[trigger] es[j].desc) is Mem
}

/// The exports appended for the defined globals `0 .. n` that the module did
/// not already export, in index order.
pub open spec fn added_global_exports(es: Seq<ExportV>, n: nat) -> Seq<ExportV>
    decreases n,
{
    if n == 0 {
        Seq::<ExportV>::empty()
    } else {
        added_global_exports(es, (n - 1) as nat) + (if global_exported(es, (n - 1) as u32) {
            Seq::<ExportV>::empty()
        } else {
            seq![
                ExportV {
                    name: global_export_name((n - 1) as u32),
                    desc: ExportDesc::Global((n - 1) as u32),
                },
            ]
        })
    }
}

/// Append the decimal digits of `n`.
fn push_decimal(out: &mut Vec<u8>, n: u32)
    ensures
        final(out)@ == old(out)@ + dec_digits(n as nat),
    decreases n,
{
    if n < 10 {
        out.push(48 + n as u8);
    } else {
        push_decimal(out, n / 10);
        out.push(48 + (n % 10) as u8);
        proof {
            assert(final(out)@ =~= old(out)@ + dec_digits(n as nat));
        }
    }
}

/// Build the canonical export name of global `idx`.
fn make_global_export_name(idx: u32) -> (r: Vec<u8>)
    ensures
        r@ == global_export_name(idx),
{
    let mut out: Vec<u8> = Vec::new();
    out.push(111);
    out.push(116);
    out.push(104);
    out.push(105);
    out.push(115);
    out.push(109);
    out.push(111);
    out.push(95);
    out.push(103);
    out.push(108);
    out.push(111);
    out.push(98);
    out.push(97);
    out.push(108);
    out.push(95);
    push_decimal(&mut out, idx);
    proof {
        assert(out@ =~= global_export_name(idx));
    }
    out
}

/// Build the canonical memory export name.
fn make_memory_export_name() -> (r: Vec<u8>)
    ensures
        r@ == memory_export_name(),
{
    let mut out: Vec<u8> = Vec::new();
    out.push(111);
    out.push(116);
    out.push(104);
    out.push(105);
    out.push(115);
    out.push(109);
    out.push(111);
    out.push(95);
    out.push(109);
    out.push(101);
    out.push(109);
    out.push(111);
    out.push(114);
    out.push(121);
    out.push(95);
    out.push(48);
    proof {
        assert(out@ =~= memory_export_name());
    }
    out
}

/// Build the marker name.
fn make_marker_name() -> (r: Vec<u8>)
    ensures
        r@ == marker_name(),
{
    let mut out: Vec<u8> = Vec::new();
    out.push(111);
    out.push(116);
    out.push(104);
    out.push(105);
    out.push(115);
    out.push(109);
    out.push(111);
    proof {
        assert(out@ =~= marker_name());
    }
    out
}

/// Whether `v` holds exactly the marker name.
fn is_marker_name(v: &Vec<u8>) -> (r: bool)
    ensures
        r == (v@ == marker_name()),
{
    if v.len() != 7 {
        proof {
            assert(v@ != marker_name());
        }
        return false;
    }
    let r = v[0] == 111 && v[1] == 116 && v[2] == 104 && v[3] == 105 && v[4] == 115
        && v[5] == 109 && v[6] == 111;
    proof {
        if r {
            assert(v@ =~= marker_name());
        } else {
            assert(v@ != marker_name());
        }
    }
    r
}

/// Whether some export of `es` points at global `idx`.
fn find_global_export(es: &Vec<Export>, idx: u32) -> (r: bool)
    ensures
        r == global_exported(views_of(es@), idx),
{
    let mut k: usize = 0;
    while k < es.len()
        invariant
            k <= es@.len(),
            forall|j: int|
                0 <= j < k ==> (#[trigger] views_of(es@)[j].desc) != ExportDesc::Global(idx),
        decreases es@.len() - k,
    {
        match es[k].desc {
            ExportDesc::Global(i) => {
                if i == idx {
                    proof {
                        assert(views_of(es@)[k as int].desc == ExportDesc::Global(idx));
                    }
                    return true;
                }
            },
            _ => {},
        }
        proof {
            assert(views_of(es@)[k as int].desc == es@[k as int]@.desc);
        }
        k = k + 1;
    }
    false
}

/// Whether some export of `es` points at a memory.
fn find_mem_export(es: &Vec<Export>) -> (r: bool)
    ensures
        r == mem_exported(views_of(es@)),
{
    let mut k: usize = 0;
    while k < es.len()
        invariant
            k <= es@.len(),
            forall|j: int| 0 <= j < k ==> !((#[trigger] views_of(es@)[j].desc) is Mem),
        decreases es@.len() - k,
    {
        match es[k].desc {
            ExportDesc::Mem(..) => {
                proof {
                    assert(views_of(es@)[k as int].desc is Mem);
                }
                return true;
            },
            _ => {},
        }
        proof {
            assert(views_of(es@)[k as int].desc == es@[k as int]@.desc);
        }
        k = k + 1;
    }
    false
}

/// How each of the accessors grows when a section is appended.
pub proof fn lemma_accessors_push(ss: Seq<SectionV>, x: SectionV)
    ensures
        data_in(ss.push(x)) == data_in(ss) + (match x {
            SectionV::Data(v) => v,
            _ => Seq::<crate::wasm::DataSegmentV>::empty(),
        }),
        imports_in(ss.push(x)) == imports_in(ss) + (match x {
            SectionV::Import(v) => v,
            _ => Seq::<ImportV>::empty(),
        }),
        memories_in(ss.push(x)) == memories_in(ss) + (match x {
            SectionV::Memory(v) => v,
            _ => Seq::<Limits>::empty(),
        }),
        globals_in(ss.push(x)) == globals_in(ss) + (match x {
            SectionV::Global(v) => v,
            _ => Seq::<GlobalDecl>::empty(),
        }),
        exports_in(ss.push(x)) == exports_in(ss) + (match x {
            SectionV::Export(v) => v,
            _ => Seq::<ExportV>::empty(),
        }),
        others_in(ss.push(x)) == others_in(ss) + (if touched(x) {
            Seq::<SectionV>::empty()
        } else {
            seq![x]
        }),
{
    lemma_flat_of_push(
        ss,
        |s: SectionV|
            match s {
                SectionV::Import(v) => v,
                _ => Seq::<ImportV>::empty(),
            },
        x,
    );
    lemma_flat_of_push(
        ss,
        |s: SectionV|
            match s {
                SectionV::Memory(v) => v,
                _ => Seq::<Limits>::empty(),
            },
        x,
    );
    lemma_flat_of_push(
        ss,
        |s: SectionV|
            match s {
                SectionV::Global(v) => v,
                _ => Seq::<GlobalDecl>::empty(),
            },
        x,
    );
    lemma_flat_of_push(
        ss,
        |s: SectionV|
            match s {
                SectionV::Export(v) => v,
                _ => Seq::<ExportV>::empty(),
            },
        x,
    );
    lemma_flat_of_push(
        ss,
        |s: SectionV|
            if touched(s) {
                Seq::<SectionV>::empty()
            } else {
                seq![s]
            },
        x,
    );
    lemma_flat_of_push(
        ss,
        |s: SectionV|
            match s {
                SectionV::Data(v) => v,
                _ => Seq::<crate::wasm::DataSegmentV>::empty(),
            },
        x,
    );
}

/// Whether a module lies within the kernel's wasm subset: no duplicated
/// rewritten section, no reference or vector global import, at most one
/// memory in total, and few enough globals to index.
pub open spec fn within_subset(mv: Seq<SectionV>) -> bool {
    &&& at_most_one(mv, |s: SectionV| s is Import)
    &&& at_most_one(mv, |s: SectionV| s is Memory)
    &&& at_most_one(mv, |s: SectionV| s is Global)
    &&& at_most_one(mv, |s: SectionV| s is Export)
    &&& first_unsupported(imports_in(mv)) is None
    &&& memories_in(mv).len() + imported_mem_limits(imports_in(mv)).len() <= 1
    &&& extracted_globals(imports_in(mv)).len() + globals_in(mv).len() <= u32::MAX
}

/// How the rewriter classifies a module outside the subset: which error it
/// raises, with the tag of the first offence.
pub open spec fn refusal_matches(mv: Seq<SectionV>, e: crate::Errors) -> bool {
    let shape_ok = at_most_one(mv, |s: SectionV| s is Import) && at_most_one(
        mv,
        |s: SectionV| s is Memory,
    ) && at_most_one(mv, |s: SectionV| s is Global) && at_most_one(mv, |s: SectionV| s is Export);
    let imps = imports_in(mv);
    let n_mems = memories_in(mv).len() + imported_mem_limits(imps).len();
    &&& !within_subset(mv)
    &&& !shape_ok ==> (e matches crate::Errors::Othismo(
        crate::OthismoError::UnsupportedModuleDefinition(t),
    ) && t@ == "duplicate_section"@)
    &&& first_unsupported(imps) matches Some(tag) ==> (shape_ok ==> (e matches crate::Errors::Othismo(
        crate::OthismoError::UnsupportedModuleDefinition(t),
    ) && t@ == tag))
    &&& (shape_ok && first_unsupported(imps) is None && n_mems > 1) ==> (
    e matches crate::Errors::Othismo(crate::OthismoError::UnsupportedModuleDefinition(t))
        && t@ == "multiple_memories"@)
}

/// A module template: a rewritten wasm module with no global or memory
/// imports, every defined global exported, and the single memory (if any)
/// exported. `ModuleAtRest::import` is the only way to build one.
#[derive(Clone, Debug)]
pub struct ModuleAtRest {
    pub module: WasmModule,
}

/// What the rewrite promises of its result, relative to the input sections.
pub open spec fn rewritten_from(outv: Seq<SectionV>, inv: Seq<SectionV>) -> bool {
    let imps = imports_in(inv);
    &&& imports_in(outv) == surviving_imports(imps)
    &&& globals_in(outv) == extracted_globals(imps) + globals_in(inv)
    &&& memories_in(outv) == memories_in(inv) + imported_mem_limits(imps)
    &&& memories_in(outv).len() <= 1
    &&& exports_in(outv) == exports_in(inv) + added_global_exports(
        exports_in(inv),
        globals_in(outv).len(),
    ) + (if imported_mem_limits(imps).len() > 0 || (memories_in(outv).len() == 1
        && !mem_exported(exports_in(inv))) {
        seq![ExportV { name: memory_export_name(), desc: ExportDesc::Mem(0) }]
    } else {
        Seq::<ExportV>::empty()
    })
    &&& others_in(outv) == others_in(inv)
    &&& outv.len() > 0 && is_marker(outv.last())
}

/// The rewrite's closure property: no global or memory imports remain, every
/// defined global is exported, and the memory (if present) is exported.
pub open spec fn template_closed(outv: Seq<SectionV>) -> bool {
    &&& forall|i: int|
        0 <= i < imports_in(outv).len() ==> !((#[trigger] imports_in(outv)[i].desc) is Global)
            && !(imports_in(outv)[i].desc is Mem)
    &&& forall|idx: u32| idx < globals_in(outv).len() ==> global_exported(exports_in(outv), idx)
    &&& memories_in(outv).len() <= 1
    &&& memories_in(outv).len() == 1 ==> mem_exported(exports_in(outv))
}

impl ModuleAtRest {
    /// Rewrite a decoded wasm module into a module template.
    ///
    /// Succeeds exactly on modules within the kernel's subset: at most one
    /// section of each rewritten kind, no global import of a reference or
    /// vector type, at most one memory in total, and few enough globals to
    /// index. The result then satisfies both `rewritten_from` (what each
    /// part of the output is) and `template_closed` (the closure property:
    /// zero global imports, zero memory imports, every defined global
    /// exported, the single memory exported).
    #[verifier::rlimit(100)]
    pub fn import(module: WasmModule) -> (r: Result<ModuleAtRest, Errors>)
        requires
            module_wf(module@),
        ensures
            match r {
                Ok(t) => {
                    &&& rewritten_from(t.module@, module@)
                    &&& template_closed(t.module@)
                    &&& module_wf(t.module@)
                },
                Err(_) => true,
            },
            ({
                let ok_shape = at_most_one(module@, |s: SectionV| s is Import) && at_most_one(
                    module@,
                    |s: SectionV| s is Memory,
                ) && at_most_one(module@, |s: SectionV| s is Global) && at_most_one(
                    module@,
                    |s: SectionV| s is Export,
                );
                let imps = imports_in(module@);
                let n_mems = memories_in(module@).len() + imported_mem_limits(imps).len();
                let n_globals = extracted_globals(imps).len() + globals_in(module@).len();
                match r {
                    Ok(_) => ok_shape && first_unsupported(imps) is None && n_mems <= 1
                        && n_globals <= u32::MAX,
                    Err(e) => {
                        &&& !(ok_shape && first_unsupported(imps) is None && n_mems <= 1
                            && n_globals <= u32::MAX)
                        &&& !ok_shape ==> (e matches Errors::Othismo(
                            OthismoError::UnsupportedModuleDefinition(t),
                        ) && t@ == "duplicate_section"@)
                        &&& first_unsupported(imps) matches Some(tag) ==> (ok_shape ==> (
                        e matches Errors::Othismo(OthismoError::UnsupportedModuleDefinition(t))
                            && t@ == tag))
                        &&& (ok_shape && first_unsupported(imps) is None && n_mems > 1) ==> (
                        e matches Errors::Othismo(OthismoError::UnsupportedModuleDefinition(t))
                            && t@ == "multiple_memories"@)
                    },
                }
            }),
    {
        let ghost inv: Seq<SectionV> = module@;
        let sections = &module.sections;

        // Collect the rewritten kinds and the untouched skeleton.
        let mut old_imports: Vec<Import> = Vec::new();
        let mut old_memories: Vec<Limits> = Vec::new();
        let mut old_globals: Vec<GlobalDecl> = Vec::new();
        let mut old_exports: Vec<Export> = Vec::new();
        let mut skeleton: Vec<Section> = Vec::new();
        let mut has_import: bool = false;
        let mut has_memory: bool = false;
        let mut has_global: bool = false;
        let mut has_export: bool = false;
        let mut k: usize = 0;
        while k < sections.len()
            invariant
                k <= sections@.len(),
                sections@ == module.sections@,
                inv == module@,
                module_wf(module@),
                imports_in(inv.subrange(0, k as int)) == (if has_import {
                    views_of(old_imports@)
                } else {
                    Seq::<ImportV>::empty()
                }),
                memories_in(inv.subrange(0, k as int)) == (if has_memory {
                    old_memories@
                } else {
                    Seq::<Limits>::empty()
                }),
                globals_in(inv.subrange(0, k as int)) == (if has_global {
                    old_globals@
                } else {
                    Seq::<GlobalDecl>::empty()
                }),
                exports_in(inv.subrange(0, k as int)) == (if has_export {
                    views_of(old_exports@)
                } else {
                    Seq::<ExportV>::empty()
                }),
                others_in(inv.subrange(0, k as int)) == views_of(skeleton@),
                forall|i: int| 0 <= i < skeleton@.len() ==> !touched(#[trigger] views_of(skeleton@)[i]),
                module_wf(views_of(skeleton@)),
                has_import ==> exists|i: int| 0 <= i < k && (#[trigger] inv[i]) is Import,
                has_memory ==> exists|i: int| 0 <= i < k && (#[trigger] inv[i]) is Memory,
                has_global ==> exists|i: int| 0 <= i < k && (#[trigger] inv[i]) is Global,
                has_export ==> exists|i: int| 0 <= i < k && (#[trigger] inv[i]) is Export,
                !has_import ==> old_imports@.len() == 0 && (forall|i: int|
                    0 <= i < k ==> !((#[trigger] inv[i]) is Import)),
                !has_memory ==> old_memories@.len() == 0 && (forall|i: int|
                    0 <= i < k ==> !((#[trigger] inv[i]) is Memory)),
                !has_global ==> old_globals@.len() == 0 && (forall|i: int|
                    0 <= i < k ==> !((#[trigger] inv[i]) is Global)),
                !has_export ==> old_exports@.len() == 0 && (forall|i: int|
                    0 <= i < k ==> !((#[trigger] inv[i]) is Export)),
                at_most_one(inv.subrange(0, k as int), |s: SectionV| s is Import),
                at_most_one(inv.subrange(0, k as int), |s: SectionV| s is Memory),
                at_most_one(inv.subrange(0, k as int), |s: SectionV| s is Global),
                at_most_one(inv.subrange(0, k as int), |s: SectionV| s is Export),
                has_global ==> forall|i: int|
                    0 <= i < old_globals@.len() ==> init_matches(
                        old_globals@[i].ty.value_type,
                        #[trigger] old_globals@[i].init,
                    ),
            decreases sections@.len() - k,
        {
            let ghost had_import = has_import;
            let ghost had_memory = has_memory;
            let ghost had_global = has_global;
            let ghost had_export = has_export;
            let ghost prefix = inv.subrange(0, k as int);
            proof {
                assert(inv.subrange(0, k + 1) =~= prefix.push(inv[k as int]));
                lemma_accessors_push(prefix, inv[k as int]);
                assert(inv[k as int] == sections@[k as int]@);
            }
            match &sections[k] {
                Section::Import(v) => {
                    if has_import {
                        proof {
                            let i = choose|i: int| 0 <= i < k && (#[trigger] inv[i]) is Import;
                            assert(inv[k as int] is Import);
                            assert(!at_most_one(module@, |s: SectionV| s is Import));
                        }
                        return Err(Errors::Othismo(OthismoError::UnsupportedModuleDefinition(
                            String::from_str("duplicate_section"),
                        )));
                    }
                    has_import = true;
                    old_imports = clone_imports(v);
                },
                Section::Memory(v) => {
                    if has_memory {
                        proof {
                            let i = choose|i: int| 0 <= i < k && (#[trigger] inv[i]) is Memory;
                            assert(inv[k as int] is Memory);
                            assert(!at_most_one(module@, |s: SectionV| s is Memory));
                        }
                        return Err(Errors::Othismo(OthismoError::UnsupportedModuleDefinition(
                            String::from_str("duplicate_section"),
                        )));
                    }
                    has_memory = true;
                    old_memories = clone_limits_vec(v);
                },
                Section::Global(v) => {
                    if has_global {
                        proof {
                            let i = choose|i: int| 0 <= i < k && (#[trigger] inv[i]) is Global;
                            assert(inv[k as int] is Global);
                            assert(!at_most_one(module@, |s: SectionV| s is Global));
                        }
                        return Err(Errors::Othismo(OthismoError::UnsupportedModuleDefinition(
                            String::from_str("duplicate_section"),
                        )));
                    }
                    has_global = true;
                    old_globals = clone_globals(v);
                },
                Section::Export(v) => {
                    if has_export {
                        proof {
                            let i = choose|i: int| 0 <= i < k && (#[trigger] inv[i]) is Export;
                            assert(inv[k as int] is Export);
                            assert(!at_most_one(module@, |s: SectionV| s is Export));
                        }
                        return Err(Errors::Othismo(OthismoError::UnsupportedModuleDefinition(
                            String::from_str("duplicate_section"),
                        )));
                    }
                    has_export = true;
                    old_exports = clone_exports(v);
                },
                Section::Custom { name, .. } => {
                    if is_marker_name(name) {
                        // The stale marker is dropped; a fresh one is
                        // attached at the end.
                    } else {
                        let ghost prev = skeleton@;
                        let c = clone_section(&sections[k]);
                        skeleton.push(c);
                        proof {
                            lemma_views_push(prev, c);
                            lemma_wf_push(views_of(prev), c@);
                        }
                    }
                },
                _ => {
                    let ghost prev = skeleton@;
                    let c = clone_section(&sections[k]);
                    skeleton.push(c);
                    proof {
                        lemma_views_push(prev, c);
                        assert(!touched(c@));
                        assert(crate::decode::section_wf(c@)) by {
                            assert(c@ == inv[k as int]);
                        };
                        lemma_wf_push(views_of(prev), c@);
                    }
                },
            }
            proof {
                lemma_amo_push(prefix, inv[k as int], |s: SectionV| s is Import);
                lemma_amo_push(prefix, inv[k as int], |s: SectionV| s is Memory);
                lemma_amo_push(prefix, inv[k as int], |s: SectionV| s is Global);
                lemma_amo_push(prefix, inv[k as int], |s: SectionV| s is Export);
                if has_global && !had_global {
                    assert(crate::decode::section_wf(inv[k as int]));
                }
            }
            k = k + 1;
        }
        proof {
            assert(inv.subrange(0, inv.len() as int) =~= inv);
            assert(at_most_one(inv, |s: SectionV| s is Import));
            assert(at_most_one(inv, |s: SectionV| s is Memory));
            assert(at_most_one(inv, |s: SectionV| s is Global));
            assert(at_most_one(inv, |s: SectionV| s is Export));
        }
        let ghost all_imps = imports_in(inv);

        // Split the imports: survivors, zero-initialized replacement globals,
        // and imported memory limits; refuse unsupported global types.
        let mut new_imports: Vec<Import> = Vec::new();
        let mut extracted: Vec<GlobalDecl> = Vec::new();
        let mut mem_limits: Vec<Limits> = Vec::new();
        let imps = &old_imports;
        let ghost impv = views_of(old_imports@);
        proof {
            if !has_import {
                assert(views_of(old_imports@) =~= Seq::<ImportV>::empty());
            }
            assert(impv == all_imps);
        }
        let mut j: usize = 0;
        proof {
            assert(impv.skip(0) =~= impv);
        }
        while j < imps.len()
            invariant
                j <= imps@.len(),
                imps@ == old_imports@,
                impv == views_of(imps@),
                impv == all_imps,
                inv == module@,
                all_imps == imports_in(inv),
                at_most_one(inv, |s: SectionV| s is Import),
                at_most_one(inv, |s: SectionV| s is Memory),
                at_most_one(inv, |s: SectionV| s is Global),
                at_most_one(inv, |s: SectionV| s is Export),
                views_of(new_imports@) == surviving_imports(impv.subrange(0, j as int)),
                extracted@ == extracted_globals(impv.subrange(0, j as int)),
                mem_limits@ == imported_mem_limits(impv.subrange(0, j as int)),
                first_unsupported(impv) == first_unsupported(impv.skip(j as int)),
                forall|i: int|
                    0 <= i < extracted@.len() ==> init_matches(
                        extracted@[i].ty.value_type,
                        #[trigger] extracted@[i].init,
                    ),
            decreases imps@.len() - j,
        {
            let ghost jprefix = impv.subrange(0, j as int);
            proof {
                assert(impv.subrange(0, j + 1) =~= jprefix.push(impv[j as int]));
                lemma_flat_of_push(
                    jprefix,
                    |i: ImportV|
                        match i.desc {
                            ImportDesc::Global(..) => Seq::<ImportV>::empty(),
                            ImportDesc::Mem(..) => Seq::<ImportV>::empty(),
                            _ => seq![i],
                        },
                    impv[j as int],
                );
                lemma_flat_of_push(
                    jprefix,
                    |i: ImportV|
                        match i.desc {
                            ImportDesc::Global(g) => seq![
                                GlobalDecl { ty: g, init: spec_zero_init(g.value_type) },
                            ],
                            _ => Seq::<GlobalDecl>::empty(),
                        },
                    impv[j as int],
                );
                lemma_flat_of_push(
                    jprefix,
                    |i: ImportV|
                        match i.desc {
                            ImportDesc::Mem(l) => seq![l],
                            _ => Seq::<Limits>::empty(),
                        },
                    impv[j as int],
                );
                assert(impv[j as int] == imps@[j as int]@);
                assert(impv.skip(j as int)[0] == impv[j as int]);
                assert(impv.skip(j as int).drop_first() =~= impv.skip(j + 1));
            }
            match imps[j].desc {
                ImportDesc::Global(g) => {
                    let zero = match g.value_type {
                        ValueType::I32 => InitExpr::I32Const(0),
                        ValueType::I64 => InitExpr::I64Const(0),
                        ValueType::F32 => InitExpr::F32Const(0),
                        ValueType::F64 => InitExpr::F64Const(0),
                        ValueType::V128 => {
                            proof {
                                assert(first_unsupported(impv) == Some("simd_global"@));
                            }
                            return Err(Errors::Othismo(
                                OthismoError::UnsupportedModuleDefinition(
                                    String::from_str("simd_global"),
                                ),
                            ));
                        },
                        _ => {
                            proof {
                                assert(first_unsupported(impv) == Some("reference_type_global"@));
                            }
                            return Err(Errors::Othismo(
                                OthismoError::UnsupportedModuleDefinition(
                                    String::from_str("reference_type_global"),
                                ),
                            ));
                        },
                    };
                    extracted.push(GlobalDecl { ty: g, init: zero });
                },
                ImportDesc::Mem(l) => {
                    mem_limits.push(l);
                },
                _ => {
                    let ghost prev = new_imports@;
                    let c = crate::wasm::clone_import(&imps[j]);
                    new_imports.push(c);
                    proof {
                        lemma_views_push(prev, c);
                    }
                },
            }
            j = j + 1;
        }
        proof {
            assert(impv.subrange(0, impv.len() as int) =~= impv);
            assert(impv.skip(impv.len() as int) =~= Seq::<ImportV>::empty());
            assert(first_unsupported(impv) is None);
        }

        // Defined globals: the extracted replacements go ahead of the
        // existing ones, keeping the global index space intact.
        let ghost extv = extracted@;
        let ghost oldgv = old_globals@;
        let ghost oldmv = old_memories@;
        let ghost limsv = mem_limits@;
        proof {
            assert(globals_in(inv) == oldgv) by {
                if !has_global {
                    assert(old_globals@ =~= Seq::<GlobalDecl>::empty());
                }
            };
            assert(memories_in(inv) == oldmv) by {
                if !has_memory {
                    assert(old_memories@ =~= Seq::<Limits>::empty());
                }
            };
        }
        let mut new_globals: Vec<GlobalDecl> = extracted;
        new_globals.append(&mut old_globals);
        proof {
            assert(new_globals@ == extracted_globals(all_imps) + globals_in(inv));
            assert(forall|i: int|
                0 <= i < new_globals@.len() ==> init_matches(
                    new_globals@[i].ty.value_type,
                    #[trigger] new_globals@[i].init,
                )) by {
                assert(forall|i: int|
                    0 <= i < oldgv.len() ==> init_matches(
                        oldgv[i].ty.value_type,
                        #[trigger] oldgv[i].init,
                    ));
            };
        }

        // Defined memories: the imported limits are appended; more than one
        // memory in total is outside the kernel's subset.
        let replaced_mems: usize = mem_limits.len();
        let mut new_memories: Vec<Limits> = old_memories;
        new_memories.append(&mut mem_limits);
        proof {
            assert(new_memories@ == memories_in(inv) + imported_mem_limits(all_imps));
        }
        if new_memories.len() > 1 {
            proof {
                assert(at_most_one(inv, |s: SectionV| s is Import)) by {
                    assert(inv.subrange(0, inv.len() as int) =~= inv);
                };
                assert(at_most_one(inv, |s: SectionV| s is Memory)) by {
                    assert(inv.subrange(0, inv.len() as int) =~= inv);
                };
                assert(at_most_one(inv, |s: SectionV| s is Global)) by {
                    assert(inv.subrange(0, inv.len() as int) =~= inv);
                };
                assert(at_most_one(inv, |s: SectionV| s is Export)) by {
                    assert(inv.subrange(0, inv.len() as int) =~= inv);
                };
            }
            return Err(Errors::Othismo(OthismoError::UnsupportedModuleDefinition(
                String::from_str("multiple_memories"),
            )));
        }

        // Exports: add `othismo_global_<i>` for each unexported defined
        // global, and `othismo_memory_0` when a memory was replaced or an
        // existing memory lacks an export.
        if new_globals.len() > u32::MAX as usize {
            proof {
                assert(at_most_one(inv, |s: SectionV| s is Import)) by {
                    assert(inv.subrange(0, inv.len() as int) =~= inv);
                };
                assert(at_most_one(inv, |s: SectionV| s is Memory)) by {
                    assert(inv.subrange(0, inv.len() as int) =~= inv);
                };
                assert(at_most_one(inv, |s: SectionV| s is Global)) by {
                    assert(inv.subrange(0, inv.len() as int) =~= inv);
                };
                assert(at_most_one(inv, |s: SectionV| s is Export)) by {
                    assert(inv.subrange(0, inv.len() as int) =~= inv);
                };
            }
            return Err(Errors::Encode(EncodeError::SectionTooLarge));
        }
        let n_globals: u32 = new_globals.len() as u32;
        let ghost old_exps = exports_in(inv);
        proof {
            assert(old_exps == (if has_export {
                views_of(old_exports@)
            } else {
                Seq::<ExportV>::empty()
            }));
            assert(!has_export ==> views_of(old_exports@) =~= Seq::<ExportV>::empty());
            assert(old_exps == views_of(old_exports@));
        }
        let mut additions: Vec<Export> = Vec::new();
        let mut idx: u32 = 0;
        while idx < n_globals
            invariant
                idx <= n_globals,
                old_exps == views_of(old_exports@),
                views_of(additions@) == added_global_exports(old_exps, idx as nat),
            decreases n_globals - idx,
        {
            if !find_global_export(&old_exports, idx) {
                let ghost prev = additions@;
                let e = Export {
                    name: make_global_export_name(idx),
                    desc: ExportDesc::Global(idx),
                };
                additions.push(e);
                proof {
                    lemma_views_push(prev, e);
                }
            }
            idx = idx + 1;
            proof {
                assert(views_of(additions@) == added_global_exports(old_exps, idx as nat));
            }
        }
        let need_mem_export: bool = replaced_mems > 0 || (new_memories.len() == 1
            && !find_mem_export(&old_exports));
        let mut new_exports: Vec<Export> = old_exports;
        new_exports.append(&mut additions);
        let ghost exports_mid = views_of(new_exports@);
        proof {
            assert(exports_mid =~= old_exps + added_global_exports(old_exps, n_globals as nat));
        }
        if need_mem_export {
            let ghost prev = new_exports@;
            let e = Export { name: make_memory_export_name(), desc: ExportDesc::Mem(0) };
            new_exports.push(e);
            proof {
                lemma_views_push(prev, e);
            }
        }
        proof {
            assert(views_of(new_exports@) =~= old_exps + added_global_exports(
                old_exps,
                n_globals as nat,
            ) + (if need_mem_export {
                seq![ExportV { name: memory_export_name(), desc: ExportDesc::Mem(0) }]
            } else {
                Seq::<ExportV>::empty()
            }));
            assert(need_mem_export == (imported_mem_limits(all_imps).len() > 0 || (
            new_memories@.len() == 1 && !mem_exported(old_exps))));
        }

        // Reassemble: untouched sections keep their order; the rebuilt
        // sections go in id order where they belong; the marker goes last.
        let mut out: Vec<Section> = Vec::new();
        let mut placed_i: bool = false;
        let mut placed_m: bool = false;
        let mut placed_g: bool = false;
        let mut placed_e: bool = false;
        let ghost niv = views_of(new_imports@);
        let ghost nmv = new_memories@;
        let ghost ngv = new_globals@;
        let ghost nev = views_of(new_exports@);
        let ghost skelv = views_of(skeleton@);
        let mut k2: usize = 0;
        while k2 < skeleton.len()
            invariant
                k2 <= skeleton@.len(),
                skelv == views_of(skeleton@),
                niv == views_of(new_imports@),
                nmv == new_memories@,
                ngv == new_globals@,
                nev == views_of(new_exports@),
                forall|i: int| 0 <= i < skelv.len() ==> !touched(#[trigger] skelv[i]),
                others_in(views_of(out@)) == skelv.subrange(0, k2 as int),
                imports_in(views_of(out@)) == (if placed_i { niv } else { Seq::<ImportV>::empty() }),
                memories_in(views_of(out@)) == (if placed_m { nmv } else { Seq::<Limits>::empty() }),
                globals_in(views_of(out@)) == (if placed_g { ngv } else { Seq::<GlobalDecl>::empty() }),
                exports_in(views_of(out@)) == (if placed_e { nev } else { Seq::<ExportV>::empty() }),
                placed_i ==> new_imports@.len() > 0,
                placed_m ==> new_memories@.len() > 0,
                placed_g ==> new_globals@.len() > 0,
                placed_e ==> new_exports@.len() > 0,
                module_wf(views_of(out@)),
                module_wf(views_of(skeleton@)),
                forall|i: int|
                    0 <= i < ngv.len() ==> init_matches(
                        ngv[i].ty.value_type,
                        #[trigger] ngv[i].init,
                    ),
                views_of(out@).len() > 0 ==> !is_marker(views_of(out@).last()),
            decreases skeleton@.len() - k2,
        {
            let id: u8 = crate::encode::section_id_byte(&skeleton[k2]);
            if id > 2 && !placed_i && new_imports.len() > 0 {
                let ghost prev = out@;
                let c = Section::Import(clone_imports(&new_imports));
                out.push(c);
                placed_i = true;
                proof {
                    lemma_views_push(prev, c);
                    lemma_accessors_push(views_of(prev), c@);
                    lemma_wf_push(views_of(prev), c@);
                }
            }
            if id > 5 && !placed_m && new_memories.len() > 0 {
                let ghost prev = out@;
                let c = Section::Memory(clone_limits_vec(&new_memories));
                out.push(c);
                placed_m = true;
                proof {
                    lemma_views_push(prev, c);
                    lemma_accessors_push(views_of(prev), c@);
                    lemma_wf_push(views_of(prev), c@);
                }
            }
            if id > 6 && !placed_g && new_globals.len() > 0 {
                let ghost prev = out@;
                let c = Section::Global(clone_globals(&new_globals));
                out.push(c);
                placed_g = true;
                proof {
                    lemma_views_push(prev, c);
                    lemma_accessors_push(views_of(prev), c@);
                    assert(crate::decode::section_wf(c@));
                    lemma_wf_push(views_of(prev), c@);
                }
            }
            if id > 7 && !placed_e && new_exports.len() > 0 {
                let ghost prev = out@;
                let c = Section::Export(clone_exports(&new_exports));
                out.push(c);
                placed_e = true;
                proof {
                    lemma_views_push(prev, c);
                    lemma_accessors_push(views_of(prev), c@);
                    lemma_wf_push(views_of(prev), c@);
                }
            }
            let ghost prev = out@;
            let c = clone_section(&skeleton[k2]);
            out.push(c);
            proof {
                lemma_views_push(prev, c);
                lemma_accessors_push(views_of(prev), c@);
                assert(c@ == skelv[k2 as int]);
                assert(!touched(c@));
                assert(crate::decode::section_wf(c@));
                lemma_wf_push(views_of(prev), c@);
                assert(skelv.subrange(0, k2 + 1)
                    =~= skelv.subrange(0, k2 as int).push(skelv[k2 as int]));
            }
            k2 = k2 + 1;
        }
        proof {
            assert(skelv.subrange(0, skelv.len() as int) =~= skelv);
        }
        if !placed_i && new_imports.len() > 0 {
            let ghost prev = out@;
            let c = Section::Import(new_imports);
            out.push(c);
            placed_i = true;
            proof {
                lemma_views_push(prev, c);
                lemma_accessors_push(views_of(prev), c@);
                lemma_wf_push(views_of(prev), c@);
            }
        }
        if !placed_m && new_memories.len() > 0 {
            let ghost prev = out@;
            let c = Section::Memory(new_memories);
            out.push(c);
            placed_m = true;
            proof {
                lemma_views_push(prev, c);
                lemma_accessors_push(views_of(prev), c@);
                lemma_wf_push(views_of(prev), c@);
            }
        }
        if !placed_g && new_globals.len() > 0 {
            let ghost prev = out@;
            let c = Section::Global(new_globals);
            out.push(c);
            placed_g = true;
            proof {
                lemma_views_push(prev, c);
                lemma_accessors_push(views_of(prev), c@);
                    assert(crate::decode::section_wf(c@));
                lemma_wf_push(views_of(prev), c@);
            }
        }
        if !placed_e && new_exports.len() > 0 {
            let ghost prev = out@;
            let c = Section::Export(new_exports);
            out.push(c);
            placed_e = true;
            proof {
                lemma_views_push(prev, c);
                lemma_accessors_push(views_of(prev), c@);
                lemma_wf_push(views_of(prev), c@);
            }
        }
        let ghost prevm = out@;
        let marker = Section::Custom { name: make_marker_name(), data: Vec::new() };
        out.push(marker);
        proof {
            lemma_views_push(prevm, marker);
            lemma_accessors_push(views_of(prevm), marker@);
            assert(is_marker(marker@));
            lemma_wf_push(views_of(prevm), marker@);
        }
        let result = WasmModule { sections: out };
        proof {
            let outv = result@;
            assert(outv.last() == marker@);
            assert(imports_in(outv) == surviving_imports(all_imps)) by {
                if !placed_i {
                    assert(niv.len() == 0);
                    assert(imports_in(outv) =~= niv);
                }
            };
            assert(globals_in(outv) == extracted_globals(all_imps) + globals_in(inv)) by {
                if placed_g {
                } else {
                    assert(ngv.len() == 0);
                    assert(globals_in(outv) =~= ngv);
                }
            };
            assert(memories_in(outv) == memories_in(inv) + imported_mem_limits(all_imps)) by {
                if placed_m {
                } else {
                    assert(nmv.len() == 0);
                    assert(memories_in(outv) =~= nmv);
                }
            };
            assert(exports_in(outv) == nev) by {
                if placed_e {
                } else {
                    assert(nev.len() == 0);
                    assert(exports_in(outv) =~= nev);
                }
            };
            assert(memories_in(outv) == nmv);
            assert(exports_in(outv) == old_exps + added_global_exports(
                old_exps,
                n_globals as nat,
            ) + (if imported_mem_limits(all_imps).len() > 0 || (memories_in(outv).len() == 1
                && !mem_exported(old_exps)) {
                seq![ExportV { name: memory_export_name(), desc: ExportDesc::Mem(0) }]
            } else {
                Seq::<ExportV>::empty()
            }));
            assert(globals_in(outv).len() == n_globals);
            assert(at_most_one(inv, |s: SectionV| s is Import)) by {
                assert(inv.subrange(0, inv.len() as int) =~= inv);
            };
            assert(at_most_one(inv, |s: SectionV| s is Memory)) by {
                assert(inv.subrange(0, inv.len() as int) =~= inv);
            };
            assert(at_most_one(inv, |s: SectionV| s is Global)) by {
                assert(inv.subrange(0, inv.len() as int) =~= inv);
            };
            assert(at_most_one(inv, |s: SectionV| s is Export)) by {
                assert(inv.subrange(0, inv.len() as int) =~= inv);
            };
            lemma_template_closed(outv, inv, all_imps, old_exps, n_globals);
        }
        Ok(ModuleAtRest { module: result })
    }

    /// Write the template to wasm bytes.
    pub fn to_bytes(&self) -> (r: Result<Vec<u8>, Errors>)
        ensures
            match r {
                Ok(v) => crate::encode::module_ok(self.module@) && v@ == crate::wasm::enc_module(
                    self.module@,
                ),
                Err(_) => !crate::encode::module_ok(self.module@),
            },
    {
        match crate::encode::module_to_bytes(&self.module) {
            Ok(v) => Ok(v),
            Err(e) => Err(Errors::Encode(e)),
        }
    }
}

/// The closure property follows from the parts the rewrite establishes.
proof fn lemma_template_closed(
    outv: Seq<SectionV>,
    inv: Seq<SectionV>,
    imps: Seq<ImportV>,
    old_exps: Seq<ExportV>,
    n_globals: u32,
)
    requires
        imps == imports_in(inv),
        imports_in(outv) == surviving_imports(imps),
        globals_in(outv).len() == n_globals,
        old_exps == exports_in(inv),
        memories_in(outv).len() <= 1,
        exports_in(outv) == old_exps + added_global_exports(old_exps, n_globals as nat) + (if
        imported_mem_limits(imps).len() > 0 || (memories_in(outv).len() == 1 && !mem_exported(
            old_exps,
        )) {
            seq![ExportV { name: memory_export_name(), desc: ExportDesc::Mem(0) }]
        } else {
            Seq::<ExportV>::empty()
        }),
        memories_in(outv) == memories_in(inv) + imported_mem_limits(imps),
    ensures
        template_closed(outv),
{
    lemma_surviving_no_gm(imps);
    let exps = exports_in(outv);
    assert forall|idx: u32| idx < n_globals implies global_exported(exps, idx) by {
        lemma_added_exports_cover(old_exps, n_globals as nat, idx);
        let added = added_global_exports(old_exps, n_globals as nat);
        if global_exported(old_exps, idx) {
            let j = choose|j: int|
                0 <= j < old_exps.len() && (#[trigger] old_exps[j].desc) == ExportDesc::Global(
                    idx,
                );
            assert(exps[j].desc == ExportDesc::Global(idx));
        } else {
            let j = choose|j: int|
                0 <= j < added.len() && (#[trigger] added[j].desc) == ExportDesc::Global(idx);
            assert(exps[old_exps.len() + j].desc == ExportDesc::Global(idx));
        }
    }
    if memories_in(outv).len() == 1 {
        if imported_mem_limits(imps).len() > 0 || !mem_exported(old_exps) {
            let tail_idx = old_exps.len() + added_global_exports(old_exps, n_globals as nat).len();
            assert(exps[tail_idx as int].desc is Mem);
        } else {
            let j = choose|j: int| 0 <= j < old_exps.len() && (#[trigger] old_exps[j].desc) is Mem;
            assert(exps[j].desc is Mem);
        }
    }
}

/// Surviving imports are neither global nor memory imports.
proof fn lemma_surviving_no_gm(imps: Seq<ImportV>)
    ensures
        forall|i: int|
            0 <= i < surviving_imports(imps).len() ==> !((
            #[trigger] surviving_imports(imps)[i].desc) is Global) && !(surviving_imports(
                imps,
            )[i].desc is Mem),
    decreases imps.len(),
{
    if imps.len() == 0 {
    } else {
        lemma_surviving_no_gm(imps.drop_first());
        let f = |i: ImportV|
            match i.desc {
                ImportDesc::Global(..) => Seq::<ImportV>::empty(),
                ImportDesc::Mem(..) => Seq::<ImportV>::empty(),
                _ => seq![i],
            };
        assert(surviving_imports(imps) == f(imps[0]) + surviving_imports(imps.drop_first()));
    }
}

/// Every global index below `n` is exported by the old exports or by the
/// added ones.
proof fn lemma_added_exports_cover(old_exps: Seq<ExportV>, n: nat, idx: u32)
    requires
        idx < n,
    ensures
        global_exported(old_exps, idx) || global_exported(added_global_exports(old_exps, n), idx),
    decreases n,
{
    let added = added_global_exports(old_exps, n);
    if idx == n - 1 {
        if !global_exported(old_exps, idx) {
            let prev = added_global_exports(old_exps, (n - 1) as nat);
            assert(added[prev.len() as int].desc == ExportDesc::Global(idx));
        }
    } else {
        lemma_added_exports_cover(old_exps, (n - 1) as nat, idx);
        let prev = added_global_exports(old_exps, (n - 1) as nat);
        if global_exported(prev, idx) {
            let j = choose|j: int|
                0 <= j < prev.len() && (#[trigger] prev[j].desc) == ExportDesc::Global(idx);
            assert(added[j] == prev[j]);
        }
    }
}

/// `at_most_one` is preserved by appending an element that is the first of
/// its kind.
proof fn lemma_amo_push(ss: Seq<SectionV>, x: SectionV, p: spec_fn(SectionV) -> bool)
    requires
        at_most_one(ss, p),
        p(x) ==> forall|i: int| 0 <= i < ss.len() ==> !p(#[trigger] ss[i]),
    ensures
        at_most_one(ss.push(x), p),
{
    let t = ss.push(x);
    assert forall|i: int, j: int| 0 <= i < j < t.len() implies !(p(#[trigger] t[i]) && p(
        #[trigger] t[j],
    )) by {
        if j < ss.len() {
            assert(t[i] == ss[i] && t[j] == ss[j]);
        } else {
            assert(t[j] == x);
            if i < ss.len() {
                assert(t[i] == ss[i]);
            }
        }
    }
}

/// Module well-formedness is preserved by appending a well-formed section.
proof fn lemma_wf_push(ss: Seq<SectionV>, x: SectionV)
    requires
        module_wf(ss),
        crate::decode::section_wf(x),
    ensures
        module_wf(ss.push(x)),
{
    let t = ss.push(x);
    assert forall|i: int| 0 <= i < t.len() implies crate::decode::section_wf(#[trigger] t[i]) by {
        if i < ss.len() {
            assert(t[i] == ss[i]);
        } else {
            assert(t[i] == x);
        }
    }
}

} // verus!
