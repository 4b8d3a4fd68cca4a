//! The instance snapshot protocol: moving state between a stored instance
//! template and a live instance.
//!
//! Dehydration writes observed global values into the template's initializer
//! constants and replaces the data segments with the non-zero pages of the
//! live linear memory, sizing the memory section to cover it. Hydration reads
//! them back. The round-trip laws `lemma_global_round_trip` and
//! `lemma_memory_round_trip` state that nothing is lost either way.

use vstd::prelude::*;
use crate::{Errors, OthismoError};
use crate::wasm::{
    ValueType, Limits, InitExpr, GlobalDecl, DataSegment, Section, SectionV, WasmModule,
    init_matches, views_of, ExportV, DataSegmentV, ExportDesc, clone_section, clone_bytes,
    clone_globals, clone_data_segments, lemma_views_push,
};
use crate::rewrite::{
    ModuleAtRest, imports_in, memories_in, globals_in, exports_in, data_in, at_most_one,
    lemma_accessors_push,
};
use crate::decode::module_wf;

verus! {

/// The snapshot page granularity, in bytes. Any divisor of the wasm page
/// size in `[64, 65536]` would be correct; this one keeps sparse memories
/// small.
pub const PAGE_BYTES: usize = 4096;

/// A scalar value observed in (or destined for) a live global. Floating
/// point values are carried as their raw bits.
#[derive(Clone, Copy, Debug, PartialEq, Eq, Structural)]
pub enum GlobalValue {
    I32(i32),
    I64(i64),
    F32Bits(u32),
    F64Bits(u64),
}

/// The initializer constant that stores a value.
pub open spec fn init_of_value(v: GlobalValue) -> InitExpr {
    match v {
        GlobalValue::I32(x) => InitExpr::I32Const(x),
        GlobalValue::I64(x) => InitExpr::I64Const(x),
        GlobalValue::F32Bits(x) => InitExpr::F32Const(x),
        GlobalValue::F64Bits(x) => InitExpr::F64Const(x),
    }
}

/// The value a constant initializer holds.
pub open spec fn value_of_init(e: InitExpr) -> GlobalValue {
    match e {
        InitExpr::I32Const(x) => GlobalValue::I32(x),
        InitExpr::I64Const(x) => GlobalValue::I64(x),
        InitExpr::F32Const(x) => GlobalValue::F32Bits(x),
        InitExpr::F64Const(x) => GlobalValue::F64Bits(x),
    }
}

/// The descriptor of the first export with the given name, if any.
pub open spec fn find_export(es: Seq<ExportV>, name: Seq<u8>) -> Option<ExportDesc>
    decreases es.len(),
{
    if es.len() == 0 {
        None
    } else if es[0].name == name {
        Some(es[0].desc)
    } else {
        find_export(es.drop_first(), name)
    }
}

/// The value stored for the exported global `name`: what hydration installs
/// and what a reader of the template sees.
pub open spec fn read_exported_global(
    gs: Seq<GlobalDecl>,
    es: Seq<ExportV>,
    name: Seq<u8>,
) -> Option<GlobalValue> {
    match find_export(es, name) {
        Some(ExportDesc::Global(i)) => if i < gs.len() {
            Some(value_of_init(gs[i as int].init))
        } else {
            None
        },
        _ => None,
    }
}

/// Setting an exported global and reading it back yields the value written,
/// and no other global changes.
pub proof fn lemma_global_round_trip(
    gs: Seq<GlobalDecl>,
    es: Seq<ExportV>,
    name: Seq<u8>,
    v: GlobalValue,
    idx: u32,
)
    requires
        find_export(es, name) == Some(ExportDesc::Global(idx)),
        idx < gs.len(),
    ensures
        read_exported_global(
            gs.update(idx as int, GlobalDecl { ty: gs[idx as int].ty, init: init_of_value(v) }),
            es,
            name,
        ) == Some(v),
        forall|j: int|
            0 <= j < gs.len() && j != idx ==> gs.update(
                idx as int,
                GlobalDecl { ty: gs[idx as int].ty, init: init_of_value(v) },
            )[j] == gs[j],
{
}

/// The data segments that dehydration emits for a linear memory: one active
/// segment per page that holds a non-zero byte, in ascending page order,
/// starting at byte offset `off`. Zero pages are absent.
pub open spec fn page_segments(mem: Seq<u8>, off: nat) -> Seq<DataSegmentV>
    decreases mem.len() - off when off <= mem.len() && (mem.len() - off) % (PAGE_BYTES as int) == 0
{
    if off >= mem.len() {
        Seq::<DataSegmentV>::empty()
    } else {
        let chunk = mem.subrange(off as int, off + PAGE_BYTES);
        let rest = page_segments(mem, off + PAGE_BYTES as nat);
        if forall|i: int| 0 <= i < chunk.len() ==> chunk[i] == 0 {
            rest
        } else {
            seq![DataSegmentV { offset: off as u32 as i32, bytes: chunk }] + rest
        }
    }
}

/// The linear memory described by a segment list: zero everywhere except
/// where a segment writes, later segments last.
pub open spec fn mem_image(segs: Seq<DataSegmentV>, size: nat) -> Seq<u8>
    decreases segs.len(),
{
    if segs.len() == 0 {
        Seq::<u8>::new(size, |i: int| 0u8)
    } else {
        let rest = mem_image(segs.drop_first(), size);
        let s = segs[0];
        Seq::<u8>::new(
            size,
            |i: int|
                if s.offset as u32 <= i < s.offset as u32 + s.bytes.len() {
                    s.bytes[i - s.offset as u32]
                } else {
                    rest[i]
                },
        )
    }
}

/// Rehydrating the emitted segments reproduces the live memory byte for
/// byte: every written page reads back, and absent pages read as zero.
pub proof fn lemma_memory_round_trip(mem: Seq<u8>, off: nat)
    requires
        mem.len() <= 0x1_0000_0000,
        off <= mem.len(),
        (mem.len() - off) % (PAGE_BYTES as int) == 0,
        (off as int) % (PAGE_BYTES as int) == 0,
    ensures
        forall|i: int|
            0 <= i < mem.len() ==> mem_image(page_segments(mem, off), mem.len())[i] == (if i
                >= off {
                mem[i]
            } else {
                0u8
            }),
    decreases mem.len() - off,
{
    if off >= mem.len() {
    } else {
        assert(mem.len() - off >= PAGE_BYTES as nat) by {
            if mem.len() - off < PAGE_BYTES as nat {
                assert((mem.len() - off) % (PAGE_BYTES as int) == mem.len() - off);
            }
        };
        assert((mem.len() - (off + PAGE_BYTES as nat)) % (PAGE_BYTES as int) == 0) by {
            assert(((mem.len() - off) - PAGE_BYTES as nat) % (PAGE_BYTES as int) == (mem.len()
                - off) % (PAGE_BYTES as int)) by {
                vstd::arithmetic::div_mod::lemma_mod_sub_multiples_vanish(
                    (mem.len() - off) as int,
                    PAGE_BYTES as int,
                );
            };
        };
        assert(((off + PAGE_BYTES as nat) as int) % (PAGE_BYTES as int) == (off as int) % (PAGE_BYTES as int)) by {
            vstd::arithmetic::div_mod::lemma_mod_add_multiples_vanish(
                off as int,
                PAGE_BYTES as int,
            );
        };
        lemma_memory_round_trip(mem, off + PAGE_BYTES as nat);
        let chunk = mem.subrange(off as int, off + PAGE_BYTES);
        let rest = page_segments(mem, off + PAGE_BYTES as nat);
        if forall|i: int| 0 <= i < chunk.len() ==> chunk[i] == 0 {
            assert forall|i: int| 0 <= i < mem.len() implies mem_image(
                page_segments(mem, off),
                mem.len(),
            )[i] == (if i >= off {
                mem[i]
            } else {
                0u8
            }) by {
                if off <= i < off + PAGE_BYTES {
                    assert(chunk[i - off] == 0);
                    assert(mem[i] == 0);
                }
            }
        } else {
            let seg = DataSegmentV { offset: off as u32 as i32, bytes: chunk };
            let segs = page_segments(mem, off);
            assert(segs == seq![seg] + rest);
            assert(segs.drop_first() =~= rest);
            assert(segs[0] == seg);
            assert(seg.offset as u32 == off) by {
                assert(off < 0x1_0000_0000);
                assert(off as u32 == off);
                lemma_u32_i32_roundtrip(off as u32);
            };
            assert forall|i: int| 0 <= i < mem.len() implies mem_image(segs, mem.len())[i] == (
            if i >= off {
                mem[i]
            } else {
                0u8
            }) by {
                let rimg = mem_image(rest, mem.len());
                assert(mem_image(segs, mem.len()) == Seq::<u8>::new(
                    mem.len(),
                    |j: int|
                        if seg.offset as u32 <= j < seg.offset as u32 + seg.bytes.len() {
                            seg.bytes[j - seg.offset as u32]
                        } else {
                            rimg[j]
                        },
                ));
                if off <= i < off + PAGE_BYTES {
                    assert(mem_image(segs, mem.len())[i] == seg.bytes[i - off]);
                    assert(chunk[i - off] == mem[i]);
                } else {
                    assert(mem_image(segs, mem.len())[i] == rimg[i]);
                    assert(rimg[i] == (if i >= off + PAGE_BYTES as nat {
                        mem[i]
                    } else {
                        0u8
                    }));
                }
            }
        }
    }
}

/// A 32-bit pattern survives reinterpretation as a signed constant.
pub proof fn lemma_u32_i32_roundtrip(x: u32)
    ensures
        x as i32 as u32 == x,
{
    assert(x as i32 as u32 == x) by (bit_vector);
}

/// An instance template: a module template whose defined globals carry the
/// instance's current values and whose data segments encode its memory.
#[derive(Clone, Debug)]
pub struct InstanceAtRest {
    pub module: WasmModule,
}

/// Compare two byte strings.
pub fn bytes_eq(a: &[u8], b: &[u8]) -> (r: bool)
    ensures
        r == (a@ == b@),
{
    if a.len() != b.len() {
        proof {
            assert(a@ != b@);
        }
        return false;
    }
    let mut k: usize = 0;
    while k < a.len()
        invariant
            k <= a@.len(),
            a@.len() == b@.len(),
            forall|i: int| 0 <= i < k ==> a@[i] == b@[i],
        decreases a@.len() - k,
    {
        if a[k] != b[k] {
            proof {
                assert(a@[k as int] != b@[k as int]);
            }
            return false;
        }
        k = k + 1;
    }
    proof {
        assert(a@ =~= b@);
    }
    true
}

/// Reinterpret a byte offset as the bits of an `i32.const`.
#[verifier::truncate]
fn offset_to_i32(x: u32) -> (r: i32)
    ensures
        r == x as i32,
{
    x as i32
}

impl InstanceAtRest {
    /// Derive a fresh instance template from an imported module template.
    pub fn from_module(m: ModuleAtRest) -> (r: InstanceAtRest)
        ensures
            r.module@ == m.module@,
    {
        InstanceAtRest { module: m.module }
    }

    /// Wrap a decoded module as a stored instance template.
    pub fn from_wasm(m: WasmModule) -> (r: InstanceAtRest)
        ensures
            r.module@ == m@,
    {
        InstanceAtRest { module: m }
    }

    /// Write the template to wasm bytes.
    pub fn to_bytes(&self) -> (r: Result<Vec<u8>, Errors>)
        ensures
            match r {
                Ok(v) => crate::encode::module_ok(self.module@) && v@ == crate::wasm::enc_module(
                    self.module@,
                ),
                Err(_) => !crate::encode::module_ok(self.module@),
            },
    {
        match crate::encode::module_to_bytes(&self.module) {
            Ok(v) => Ok(v),
            Err(e) => Err(Errors::Encode(e)),
        }
    }

    /// Read the value stored for the exported global `name`.
    pub fn read_exported_global(&self, name: &[u8]) -> (r: Result<GlobalValue, Errors>)
        ensures
            match r {
                Ok(v) => read_exported_global(
                    globals_in(self.module@),
                    exports_in(self.module@),
                    name@,
                ) == Some(v) && at_most_one(self.module@, |s: SectionV| s is Global)
                    && at_most_one(self.module@, |s: SectionV| s is Export),
                Err(_) => !(at_most_one(self.module@, |s: SectionV| s is Global) && at_most_one(
                    self.module@,
                    |s: SectionV| s is Export,
                ) && read_exported_global(
                    globals_in(self.module@),
                    exports_in(self.module@),
                    name@,
                ) is Some),
            },
    {
        let (globals, exports) = self.collect_globals_exports()?;
        let desc = find_export_entry(&exports, name);
        match desc {
            Some(ExportDesc::Global(idx)) => {
                if (idx as usize) < globals.len() {
                    Ok(value_of_init_exec(globals[idx as usize].init))
                } else {
                    Err(Errors::Othismo(OthismoError::AbiViolation(
                        String::from_str("global_index_out_of_range"),
                    )))
                }
            },
            _ => Err(Errors::Othismo(OthismoError::AbiViolation(
                String::from_str("export_not_found"),
            ))),
        }
    }

    /// Gather the (single) global and export sections' contents, refusing a
    /// module with duplicated sections.
    fn collect_globals_exports(&self) -> (r: Result<(Vec<GlobalDecl>, Vec<crate::wasm::Export>), Errors>)
        ensures
            match r {
                Ok((gs, es)) => {
                    &&& gs@ == globals_in(self.module@)
                    &&& views_of(es@) == exports_in(self.module@)
                    &&& at_most_one(self.module@, |s: SectionV| s is Global)
                    &&& at_most_one(self.module@, |s: SectionV| s is Export)
                },
                Err(_) => !(at_most_one(self.module@, |s: SectionV| s is Global) && at_most_one(
                    self.module@,
                    |s: SectionV| s is Export,
                )),
            },
    {
        let ghost inv: Seq<SectionV> = self.module@;
        let sections = &self.module.sections;
        let mut globals: Vec<GlobalDecl> = Vec::new();
        let mut exports: Vec<crate::wasm::Export> = Vec::new();
        let mut has_global: bool = false;
        let mut has_export: bool = false;
        let mut k: usize = 0;
        while k < sections.len()
            invariant
                k <= sections@.len(),
                sections@ == self.module.sections@,
                inv == self.module@,
                globals_in(inv.subrange(0, k as int)) == (if has_global {
                    globals@
                } else {
                    Seq::<GlobalDecl>::empty()
                }),
                exports_in(inv.subrange(0, k as int)) == (if has_export {
                    views_of(exports@)
                } else {
                    Seq::<ExportV>::empty()
                }),
                has_global ==> exists|i: int| 0 <= i < k && (#[trigger] inv[i]) is Global,
                has_export ==> exists|i: int| 0 <= i < k && (#[trigger] inv[i]) is Export,
                !has_global ==> globals@.len() == 0 && (forall|i: int|
                    0 <= i < k ==> !((#[trigger] inv[i]) is Global)),
                !has_export ==> exports@.len() == 0 && (forall|i: int|
                    0 <= i < k ==> !((#[trigger] inv[i]) is Export)),
                at_most_one(inv.subrange(0, k as int), |s: SectionV| s is Global),
                at_most_one(inv.subrange(0, k as int), |s: SectionV| s is Export),
            decreases sections@.len() - k,
        {
            let ghost prefix = inv.subrange(0, k as int);
            let ghost had_global = has_global;
            let ghost had_export = has_export;
            proof {
                assert(inv.subrange(0, k + 1) =~= prefix.push(inv[k as int]));
                lemma_accessors_push(prefix, inv[k as int]);
                assert(inv[k as int] == sections@[k as int]@);
            }
            match &sections[k] {
                Section::Global(v) => {
                    if has_global {
                        proof {
                            let i = choose|i: int| 0 <= i < k && (#[trigger] inv[i]) is Global;
                            assert(inv[k as int] is Global);
                            assert(!at_most_one(inv, |s: SectionV| s is Global)) by {
                                assert(inv.subrange(0, inv.len() as int) =~= inv);
                            };
                        }
                        return Err(Errors::Othismo(OthismoError::UnsupportedModuleDefinition(
                            String::from_str("duplicate_section"),
                        )));
                    }
                    has_global = true;
                    globals = clone_globals(v);
                },
                Section::Export(v) => {
                    if has_export {
                        proof {
                            let i = choose|i: int| 0 <= i < k && (#[trigger] inv[i]) is Export;
                            assert(inv[k as int] is Export);
                            assert(!at_most_one(inv, |s: SectionV| s is Export)) by {
                                assert(inv.subrange(0, inv.len() as int) =~= inv);
                            };
                        }
                        return Err(Errors::Othismo(OthismoError::UnsupportedModuleDefinition(
                            String::from_str("duplicate_section"),
                        )));
                    }
                    has_export = true;
                    exports = crate::wasm::clone_exports(v);
                },
                _ => {},
            }
            proof {
                crate::snapshot::lemma_amo_push_local(prefix, inv[k as int], |s: SectionV| s is Global);
                crate::snapshot::lemma_amo_push_local(prefix, inv[k as int], |s: SectionV| s is Export);
            }
            k = k + 1;
        }
        proof {
            assert(inv.subrange(0, inv.len() as int) =~= inv);
            if !has_global {
                assert(globals@ =~= Seq::<GlobalDecl>::empty());
            }
            if !has_export {
                assert(views_of(exports@) =~= Seq::<ExportV>::empty());
            }
        }
        Ok((globals, exports))
    }
}

/// `at_most_one` is preserved by appending an element that is the first of
/// its kind.
pub proof fn lemma_amo_push_local(ss: Seq<SectionV>, x: SectionV, p: spec_fn(SectionV) -> bool)
    requires
        at_most_one(ss, p),
        p(x) ==> forall|i: int| 0 <= i < ss.len() ==> !p(#[trigger] ss[i]),
    ensures
        at_most_one(ss.push(x), p),
{
    let t = ss.push(x);
    assert forall|i: int, j: int| 0 <= i < j < t.len() implies !(p(#[trigger] t[i]) && p(
        #[trigger] t[j],
    )) by {
        if j < ss.len() {
            assert(t[i] == ss[i] && t[j] == ss[j]);
        } else {
            assert(t[j] == x);
            if i < ss.len() {
                assert(t[i] == ss[i]);
            }
        }
    }
}

/// Find the first export with the given name.
fn find_export_entry(es: &Vec<crate::wasm::Export>, name: &[u8]) -> (r: Option<ExportDesc>)
    ensures
        r == find_export(views_of(es@), name@),
{
    let ghost esv = views_of(es@);
    let mut k: usize = 0;
    proof {
        assert(esv.skip(0) =~= esv);
    }
    while k < es.len()
        invariant
            k <= es@.len(),
            esv == views_of(es@),
            find_export(esv, name@) == find_export(esv.skip(k as int), name@),
        decreases es@.len() - k,
    {
        proof {
            assert(esv.skip(k as int)[0] == esv[k as int]);
            assert(esv.skip(k as int).drop_first() =~= esv.skip(k + 1));
            assert(esv[k as int] == es@[k as int]@);
        }
        if bytes_eq(es[k].name.as_slice(), name) {
            return Some(es[k].desc);
        }
        k = k + 1;
    }
    proof {
        assert(esv.skip(esv.len() as int) =~= Seq::<ExportV>::empty());
    }
    None
}

/// The value a constant initializer holds.
fn value_of_init_exec(e: InitExpr) -> (r: GlobalValue)
    ensures
        r == value_of_init(e),
{
    match e {
        InitExpr::I32Const(x) => GlobalValue::I32(x),
        InitExpr::I64Const(x) => GlobalValue::I64(x),
        InitExpr::F32Const(x) => GlobalValue::F32Bits(x),
        InitExpr::F64Const(x) => GlobalValue::F64Bits(x),
    }
}

/// What a section becomes when the data segments are cleared.
pub open spec fn clear_sec(s: SectionV) -> SectionV {
    match s {
        SectionV::Data(..) => SectionV::Data(Seq::<DataSegmentV>::empty()),
        SectionV::DataCount(..) => SectionV::DataCount(0),
        _ => s,
    }
}

/// The sections of a module with every start section removed.
pub open spec fn strip_start(ss: Seq<SectionV>) -> Seq<SectionV> {
    crate::wasm::flat_of(
        ss,
        |s: SectionV|
            if s is Start {
                Seq::<SectionV>::empty()
            } else {
                seq![s]
            },
    )
}

/// A memory bound raised to cover at least `pages` pages.
pub open spec fn bump_limits(l: Limits, pages: u32) -> Limits {
    Limits { min: if l.min >= pages { l.min } else { pages }, max: l.max }
}

/// The index the first export named `name` points at, when it is a global
/// in range: the target of a global write-back.
pub open spec fn set_target(gs: Seq<GlobalDecl>, es: Seq<ExportV>, name: Seq<u8>) -> Option<u32> {
    match find_export(es, name) {
        Some(ExportDesc::Global(i)) => if i < gs.len() {
            Some(i)
        } else {
            None
        },
        _ => None,
    }
}

impl InstanceAtRest {
    /// Overwrite the initializer of the exported global `name` with a
    /// constant holding `value`: the per-global step of dehydration.
    ///
    /// Succeeds exactly when the template has at most one global and one
    /// export section, `name` resolves to a defined global, and `value` has
    /// the global's declared type; nothing but that global's initializer
    /// changes, which is the write half of the global round-trip law.
    pub fn set_exported_global(&mut self, name: &[u8], value: GlobalValue) -> (r: Result<
        (),
        Errors,
    >)
        ensures
            ({
                let gs = globals_in(old(self).module@);
                let es = exports_in(old(self).module@);
                let shape_ok = at_most_one(old(self).module@, |s: SectionV| s is Global)
                    && at_most_one(old(self).module@, |s: SectionV| s is Export);
                match r {
                    Ok(()) => {
                        &&& shape_ok
                        &&& set_target(gs, es, name@) matches Some(idx)
                        &&& set_target(gs, es, name@) matches Some(idx) ==> {
                            &&& init_matches(gs[idx as int].ty.value_type, init_of_value(value))
                            &&& globals_in(final(self).module@) == gs.update(
                                idx as int,
                                GlobalDecl { ty: gs[idx as int].ty, init: init_of_value(value) },
                            )
                            &&& read_exported_global(
                                globals_in(final(self).module@),
                                exports_in(final(self).module@),
                                name@,
                            ) == Some(value)
                        }
                        &&& exports_in(final(self).module@) == es
                        &&& imports_in(final(self).module@) == imports_in(old(self).module@)
                        &&& memories_in(final(self).module@) == memories_in(old(self).module@)
                        &&& data_in(final(self).module@) == data_in(old(self).module@)
                        &&& final(self).module@.len() == old(self).module@.len()
                        &&& forall|i: int|
                            0 <= i < old(self).module@.len() && !(old(self).module@[i] is Global)
                                ==> final(self).module@[i] == old(self).module@[i]
                    },
                    Err(_) => {
                        &&& final(self).module@ == old(self).module@
                        &&& !(shape_ok && (set_target(gs, es, name@) matches Some(idx)
                            && init_matches(gs[idx as int].ty.value_type, init_of_value(value))))
                    },
                }
            }),
    {
        let ghost oldv = self.module@;
        let (globals, exports) = match self.collect_globals_exports() {
            Ok(p) => p,
            Err(e) => {
                return Err(e);
            },
        };
        let idx: u32 = match find_export_entry(&exports, name) {
            Some(ExportDesc::Global(i)) => i,
            Some(_) => {
                return Err(Errors::Othismo(OthismoError::AbiViolation(
                    String::from_str("export_not_a_global"),
                )));
            },
            None => {
                return Err(Errors::Othismo(OthismoError::AbiViolation(
                    String::from_str("export_not_found"),
                )));
            },
        };
        if idx as usize >= globals.len() {
            return Err(Errors::Othismo(OthismoError::AbiViolation(
                String::from_str("global_index_out_of_range"),
            )));
        }
        let ty = globals[idx as usize].ty;
        let matches_ty = match (ty.value_type, value) {
            (ValueType::I32, GlobalValue::I32(..)) => true,
            (ValueType::I64, GlobalValue::I64(..)) => true,
            (ValueType::F32, GlobalValue::F32Bits(..)) => true,
            (ValueType::F64, GlobalValue::F64Bits(..)) => true,
            _ => false,
        };
        if !matches_ty {
            return Err(Errors::Othismo(OthismoError::AbiViolation(
                String::from_str("global_type_mismatch"),
            )));
        }
        let mut new_globals = globals;
        let init = match value {
            GlobalValue::I32(x) => InitExpr::I32Const(x),
            GlobalValue::I64(x) => InitExpr::I64Const(x),
            GlobalValue::F32Bits(x) => InitExpr::F32Const(x),
            GlobalValue::F64Bits(x) => InitExpr::F64Const(x),
        };
        new_globals.set(idx as usize, GlobalDecl { ty, init });
        let ghost ngv = new_globals@;

        // Rebuild the section list with the updated global section.
        let sections = &self.module.sections;
        let mut out: Vec<Section> = Vec::new();
        let mut k: usize = 0;
        while k < sections.len()
            invariant
                k <= sections@.len(),
                sections@ == self.module.sections@,
                oldv == self.module@,
                ngv == new_globals@,
                views_of(out@).len() == k,
                globals_in(views_of(out@)) == (if exists|i: int|
                    0 <= i < k && (#[trigger] oldv[i]) is Global {
                    ngv
                } else {
                    Seq::<GlobalDecl>::empty()
                }),
                imports_in(views_of(out@)) == imports_in(oldv.subrange(0, k as int)),
                memories_in(views_of(out@)) == memories_in(oldv.subrange(0, k as int)),
                exports_in(views_of(out@)) == exports_in(oldv.subrange(0, k as int)),
                data_in(views_of(out@)) == data_in(oldv.subrange(0, k as int)),
                forall|i: int|
                    0 <= i < k && !(oldv[i] is Global) ==> views_of(out@)[i] == oldv[i],
                at_most_one(oldv, |s: SectionV| s is Global),
            decreases sections@.len() - k,
        {
            let ghost prefix = oldv.subrange(0, k as int);
            let ghost outprev = views_of(out@);
            proof {
                assert(oldv.subrange(0, k + 1) =~= prefix.push(oldv[k as int]));
                lemma_accessors_push(prefix, oldv[k as int]);
                assert(oldv[k as int] == sections@[k as int]@);
            }
            match &sections[k] {
                Section::Global(v) => {
                    let ghost prev = out@;
                    let c = Section::Global(clone_globals(&new_globals));
                    out.push(c);
                    proof {
                        lemma_views_push(prev, c);
                        lemma_accessors_push(views_of(prev), c@);
                        assert(globals_in(views_of(out@)) =~= ngv) by {
                            if exists|i: int| 0 <= i < k && (#[trigger] oldv[i]) is Global {
                                let i = choose|i: int|
                                    0 <= i < k && (#[trigger] oldv[i]) is Global;
                                assert(!(oldv[i] is Global && oldv[k as int] is Global));
                            }
                        };
                    }
                },
                _ => {
                    let ghost prev = out@;
                    let c = clone_section(&sections[k]);
                    out.push(c);
                    proof {
                        lemma_views_push(prev, c);
                        lemma_accessors_push(views_of(prev), c@);
                    }
                },
            }
            k = k + 1;
        }
        proof {
            assert(oldv.subrange(0, oldv.len() as int) =~= oldv);
        }
        self.module = WasmModule { sections: out };
        proof {
            let finv = self.module@;
            assert(globals_in(finv) == globals_in(oldv).update(
                idx as int,
                GlobalDecl { ty: globals_in(oldv)[idx as int].ty, init: init_of_value(value) },
            )) by {
                if exists|i: int| 0 <= i < oldv.len() && (#[trigger] oldv[i]) is Global {
                    assert(ngv =~= globals_in(oldv).update(
                        idx as int,
                        GlobalDecl {
                            ty: globals_in(oldv)[idx as int].ty,
                            init: init_of_value(value),
                        },
                    ));
                } else {
                    assert(globals_in(oldv).len() == 0) by {
                        lemma_no_kind_empty_globals(oldv);
                    };
                }
            };
            lemma_global_round_trip(
                globals_in(oldv),
                exports_in(oldv),
                name@,
                value,
                idx,
            );
        }
        Ok(())
    }

    /// Clear every data segment and zero the data count: the first step of a
    /// memory snapshot.
    pub fn clear_data_segments(&mut self) -> (r: Result<(), Errors>)
        ensures
            r is Ok,
            final(self).module@ == old(self).module@.map_values(|s: SectionV| clear_sec(s)),
    {
        let ghost oldv = self.module@;
        let sections = &self.module.sections;
        let mut out: Vec<Section> = Vec::new();
        let mut k: usize = 0;
        while k < sections.len()
            invariant
                k <= sections@.len(),
                sections@ == self.module.sections@,
                oldv == self.module@,
                views_of(out@) =~= oldv.subrange(0, k as int).map_values(
                    |s: SectionV| clear_sec(s),
                ),
            decreases sections@.len() - k,
        {
            let ghost prev = out@;
            let c = match &sections[k] {
                Section::Data(..) => Section::Data(Vec::new()),
                Section::DataCount(..) => Section::DataCount(0),
                _ => clone_section(&sections[k]),
            };
            proof {
                if oldv[k as int] is Data {
                    assert(views_of(Seq::<DataSegment>::empty()) =~= Seq::<DataSegmentV>::empty());
                    assert(c@ == clear_sec(oldv[k as int]));
                } else {
                    assert(c@ == clear_sec(oldv[k as int]));
                }
            }
            out.push(c);
            proof {
                lemma_views_push(prev, c);
                assert(views_of(out@) =~= oldv.subrange(0, k + 1).map_values(
                    |s: SectionV| clear_sec(s),
                ));
            }
            k = k + 1;
        }
        proof {
            assert(oldv.subrange(0, oldv.len() as int) =~= oldv);
        }
        self.module = WasmModule { sections: out };
        Ok(())
    }

    /// Remove the start sections: a revived instance must not re-run module
    /// initialization meant for a fresh instantiation.
    pub fn strip_start_function(&mut self) -> (r: Result<(), Errors>)
        ensures
            r is Ok,
            final(self).module@ == strip_start(old(self).module@),
    {
        let ghost oldv = self.module@;
        let sections = &self.module.sections;
        let mut out: Vec<Section> = Vec::new();
        let mut k: usize = 0;
        while k < sections.len()
            invariant
                k <= sections@.len(),
                sections@ == self.module.sections@,
                oldv == self.module@,
                views_of(out@) == strip_start(oldv.subrange(0, k as int)),
            decreases sections@.len() - k,
        {
            let ghost prefix = oldv.subrange(0, k as int);
            proof {
                assert(oldv.subrange(0, k + 1) =~= prefix.push(oldv[k as int]));
                crate::wasm::lemma_flat_of_push(
                    prefix,
                    |s: SectionV|
                        if s is Start {
                            Seq::<SectionV>::empty()
                        } else {
                            seq![s]
                        },
                    oldv[k as int],
                );
                assert(oldv[k as int] == sections@[k as int]@);
            }
            match &sections[k] {
                Section::Start(..) => {
                    proof {
                        assert(views_of(out@) + Seq::<SectionV>::empty() =~= views_of(out@));
                    }
                },
                _ => {
                    let ghost prev = out@;
                    let c = clone_section(&sections[k]);
                    out.push(c);
                    proof {
                        lemma_views_push(prev, c);
                        assert(views_of(prev) + seq![c@] =~= views_of(out@));
                    }
                },
            }
            k = k + 1;
        }
        proof {
            assert(oldv.subrange(0, oldv.len() as int) =~= oldv);
        }
        self.module = WasmModule { sections: out };
        Ok(())
    }

    /// Raise the memory section's minimum so the instance rehydrates with at
    /// least `target_bytes` of address space, in whole 64 KiB pages.
    ///
    /// This is the sizing guarantee: afterwards every memory bound covers
    /// `target_bytes`, rounded up to pages.
    pub fn resize_memory(&mut self, target_bytes: u64) -> (r: Result<(), Errors>)
        ensures
            match r {
                Ok(()) => {
                    &&& memories_in(final(self).module@).len() == memories_in(
                        old(self).module@,
                    ).len()
                    &&& forall|i: int|
                        0 <= i < memories_in(final(self).module@).len() ==> (
                        #[trigger] memories_in(final(self).module@)[i]).min as int * 65536
                            >= target_bytes as int
                    &&& forall|i: int|
                        0 <= i < memories_in(final(self).module@).len()
                            ==> (#[trigger] memories_in(final(self).module@)[i]).min
                            >= memories_in(old(self).module@)[i].min && memories_in(
                            final(self).module@,
                        )[i].max == memories_in(old(self).module@)[i].max
                    &&& imports_in(final(self).module@) == imports_in(old(self).module@)
                    &&& globals_in(final(self).module@) == globals_in(old(self).module@)
                    &&& exports_in(final(self).module@) == exports_in(old(self).module@)
                    &&& data_in(final(self).module@) == data_in(old(self).module@)
                    &&& final(self).module@.len() == old(self).module@.len()
                    &&& forall|i: int|
                        0 <= i < old(self).module@.len() && !(old(self).module@[i] is Memory)
                            ==> final(self).module@[i] == old(self).module@[i]
                },
                Err(_) => final(self).module@ == old(self).module@ && target_bytes as int > (
                u32::MAX as int) * 65536,
            },
    {
        let pages64: u64 = target_bytes / 65536 + (if target_bytes % 65536 != 0 {
            1u64
        } else {
            0u64
        });
        if pages64 > u32::MAX as u64 {
            proof {
                assert(target_bytes as int > (u32::MAX as int) * 65536) by (nonlinear_arith)
                    requires
                        pages64 as int > u32::MAX as int,
                        pages64 as int == target_bytes as int / 65536 + (
                        if target_bytes as int % 65536 != 0 {
                            1int
                        } else {
                            0int
                        });
            }
            return Err(Errors::Othismo(OthismoError::UnsupportedModuleDefinition(
                String::from_str("memory_too_large"),
            )));
        }
        let pages: u32 = pages64 as u32;
        proof {
            assert(pages as int * 65536 >= target_bytes as int) by (nonlinear_arith)
                requires
                    pages as int == target_bytes as int / 65536 + (
                    if target_bytes as int % 65536 != 0 {
                        1int
                    } else {
                        0int
                    }),
                    target_bytes as int == 65536 * (target_bytes as int / 65536) + target_bytes as int % 65536,
                    0 <= target_bytes as int % 65536 < 65536;
        }
        let ghost oldv = self.module@;
        let sections = &self.module.sections;
        let mut out: Vec<Section> = Vec::new();
        let mut k: usize = 0;
        while k < sections.len()
            invariant
                k <= sections@.len(),
                sections@ == self.module.sections@,
                oldv == self.module@,
                views_of(out@).len() == k,
                pages as int * 65536 >= target_bytes as int,
                memories_in(views_of(out@)) == memories_in(oldv.subrange(0, k as int)).map_values(
                    |l: Limits| bump_limits(l, pages),
                ),
                imports_in(views_of(out@)) == imports_in(oldv.subrange(0, k as int)),
                globals_in(views_of(out@)) == globals_in(oldv.subrange(0, k as int)),
                exports_in(views_of(out@)) == exports_in(oldv.subrange(0, k as int)),
                data_in(views_of(out@)) == data_in(oldv.subrange(0, k as int)),
                forall|i: int|
                    0 <= i < k && !(oldv[i] is Memory) ==> views_of(out@)[i] == oldv[i],
            decreases sections@.len() - k,
        {
            let ghost prefix = oldv.subrange(0, k as int);
            proof {
                assert(oldv.subrange(0, k + 1) =~= prefix.push(oldv[k as int]));
                lemma_accessors_push(prefix, oldv[k as int]);
                assert(oldv[k as int] == sections@[k as int]@);
            }
            match &sections[k] {
                Section::Memory(v) => {
                    let mut bumped: Vec<Limits> = Vec::new();
                    let mut j: usize = 0;
                    while j < v.len()
                        invariant
                            j <= v@.len(),
                            bumped@ =~= v@.subrange(0, j as int).map_values(
                                |l: Limits| bump_limits(l, pages),
                            ),
                        decreases v@.len() - j,
                    {
                        let l = v[j];
                        let newmin: u32 = if l.min >= pages {
                            l.min
                        } else {
                            pages
                        };
                        bumped.push(Limits { min: newmin, max: l.max });
                        proof {
                            assert(bumped@ =~= v@.subrange(0, j + 1).map_values(
                                |l: Limits| bump_limits(l, pages),
                            ));
                        }
                        j = j + 1;
                    }
                    proof {
                        assert(v@.subrange(0, v@.len() as int) =~= v@);
                    }
                    let ghost prev = out@;
                    let c = Section::Memory(bumped);
                    out.push(c);
                    proof {
                        lemma_views_push(prev, c);
                        lemma_accessors_push(views_of(prev), c@);
                        assert(memories_in(views_of(out@)) =~= memories_in(
                            oldv.subrange(0, k + 1),
                        ).map_values(|l: Limits| bump_limits(l, pages)));
                    }
                },
                _ => {
                    let ghost prev = out@;
                    let c = clone_section(&sections[k]);
                    out.push(c);
                    proof {
                        lemma_views_push(prev, c);
                        lemma_accessors_push(views_of(prev), c@);
                        assert(memories_in(views_of(out@)) =~= memories_in(
                            oldv.subrange(0, k + 1),
                        ).map_values(|l: Limits| bump_limits(l, pages)));
                    }
                },
            }
            k = k + 1;
        }
        proof {
            assert(oldv.subrange(0, oldv.len() as int) =~= oldv);
        }
        self.module = WasmModule { sections: out };
        proof {
            let om = memories_in(oldv);
            let nm = memories_in(self.module@);
            assert(nm == om.map_values(|l: Limits| bump_limits(l, pages)));
            assert forall|i: int| 0 <= i < nm.len() implies (#[trigger] nm[i]).min as int * 65536
                >= target_bytes as int by {
                assert(nm[i] == bump_limits(om[i], pages));
                assert(nm[i].min >= pages);
                assert(nm[i].min as int * 65536 >= pages as int * 65536) by (nonlinear_arith)
                    requires
                        nm[i].min as int >= pages as int;
            }
        }
        Ok(())
    }
}

/// A module with no global sections has no globals.
proof fn lemma_no_kind_empty_globals(ss: Seq<SectionV>)
    requires
        forall|i: int| 0 <= i < ss.len() ==> !((#[trigger] ss[i]) is Global),
    ensures
        globals_in(ss).len() == 0,
    decreases ss.len(),
{
    if ss.len() == 0 {
    } else {
        assert(ss[0] == ss[0]);
        lemma_no_kind_empty_globals(ss.drop_first());
    }
}

impl InstanceAtRest {
    /// Append one active data segment to the template's data section (or
    /// start one), bumping the data count.
    pub fn add_data_segment(&mut self, offset: i32, bytes: &[u8]) -> (r: Result<(), Errors>)
        ensures
            match r {
                Ok(()) => {
                    &&& at_most_one(old(self).module@, |s: SectionV| s is Data) ==> data_in(
                        final(self).module@,
                    ) == data_in(old(self).module@) + seq![
                        DataSegmentV { offset: offset, bytes: bytes@ },
                    ]
                    &&& final(self).module@.len() >= old(self).module@.len()
                    &&& forall|i: int|
                        #![trigger old(self).module@[i]]
                        0 <= i < old(self).module@.len() ==> match old(self).module@[i] {
                            SectionV::DataCount(c) => final(self).module@[i]
                                == SectionV::DataCount((c + 1) as u32),
                            SectionV::Data(..) => true,
                            _ => final(self).module@[i] == old(self).module@[i],
                        }
                    &&& imports_in(final(self).module@) == imports_in(old(self).module@)
                    &&& globals_in(final(self).module@) == globals_in(old(self).module@)
                    &&& exports_in(final(self).module@) == exports_in(old(self).module@)
                    &&& memories_in(final(self).module@) == memories_in(old(self).module@)
                },
                Err(_) => final(self).module@ == old(self).module@,
            },
    {
        let ghost oldv = self.module@;
        let sections = &self.module.sections;
        // refuse a data count that can no longer be bumped
        let mut k0: usize = 0;
        while k0 < sections.len()
            invariant
                k0 <= sections@.len(),
                sections@ == self.module.sections@,
                oldv == self.module@,
                forall|j: int|
                    0 <= j < k0 ==> ((#[trigger] oldv[j]) matches SectionV::DataCount(c) ==> c
                        < u32::MAX),
            decreases sections@.len() - k0,
        {
            proof {
                assert(oldv[k0 as int] == sections@[k0 as int]@);
            }
            match &sections[k0] {
                Section::DataCount(c) => {
                    if *c == u32::MAX {
                        return Err(Errors::Encode(crate::EncodeError::SectionTooLarge));
                    }
                },
                _ => {},
            }
            k0 = k0 + 1;
        }
        let mut out: Vec<Section> = Vec::new();
        let mut placed: bool = false;
        let ghost segv = DataSegmentV { offset: offset, bytes: bytes@ };
        let mut k: usize = 0;
        while k < sections.len()
            invariant
                k <= sections@.len(),
                sections@ == self.module.sections@,
                oldv == self.module@,
                segv == (DataSegmentV { offset: offset, bytes: bytes@ }),
                at_most_one(oldv, |s: SectionV| s is Data) ==> data_in(views_of(out@)) == (
                if placed {
                    data_in(oldv.subrange(0, k as int)) + seq![segv]
                } else {
                    data_in(oldv.subrange(0, k as int))
                }),
                !placed ==> forall|i: int| 0 <= i < k ==> !((#[trigger] oldv[i]) is Data),
                placed ==> exists|i: int| 0 <= i < k && (#[trigger] oldv[i]) is Data,
                forall|j: int|
                    0 <= j < oldv.len() ==> ((#[trigger] oldv[j]) matches SectionV::DataCount(c)
                        ==> c < u32::MAX),
                views_of(out@).len() == k,
                forall|i: int|
                    #![trigger oldv[i]]
                    0 <= i < k ==> match oldv[i] {
                        SectionV::DataCount(c) => views_of(out@)[i] == SectionV::DataCount(
                            (c + 1) as u32,
                        ),
                        SectionV::Data(..) => true,
                        _ => views_of(out@)[i] == oldv[i],
                    },
                imports_in(views_of(out@)) == imports_in(oldv.subrange(0, k as int)),
                globals_in(views_of(out@)) == globals_in(oldv.subrange(0, k as int)),
                exports_in(views_of(out@)) == exports_in(oldv.subrange(0, k as int)),
                memories_in(views_of(out@)) == memories_in(oldv.subrange(0, k as int)),
            decreases sections@.len() - k,
        {
            let ghost prefix = oldv.subrange(0, k as int);
            proof {
                assert(oldv.subrange(0, k + 1) =~= prefix.push(oldv[k as int]));
                lemma_accessors_push(prefix, oldv[k as int]);
                assert(oldv[k as int] == sections@[k as int]@);
            }
            match &sections[k] {
                Section::Data(v) => {
                    if placed {
                        // a second data section: keep it as it stands
                        proof {
                            let i = choose|i: int| 0 <= i < k && (#[trigger] oldv[i]) is Data;
                            assert(!at_most_one(oldv, |s: SectionV| s is Data)) by {
                                assert(oldv.subrange(0, oldv.len() as int) =~= oldv);
                            };
                        }
                        let ghost prev = out@;
                        let c = clone_section(&sections[k]);
                        out.push(c);
                        proof {
                            lemma_views_push(prev, c);
                            lemma_accessors_push(views_of(prev), c@);
                        }
                    } else {
                        let mut nv = clone_data_segments(v);
                        let ghost nvprev = nv@;
                        let segx = DataSegment { offset, bytes: clone_bytes_slice(bytes) };
                        proof {
                            assert(segx@ == segv);
                        }
                        nv.push(segx);
                        proof {
                            lemma_views_push(nvprev, segx);
                            assert(views_of(nv@) =~= views_of(v@) + seq![segv]);
                        }
                        let ghost prev = out@;
                        let c = Section::Data(nv);
                        out.push(c);
                        placed = true;
                        proof {
                            lemma_views_push(prev, c);
                            lemma_accessors_push(views_of(prev), c@);
                            if at_most_one(oldv, |s: SectionV| s is Data) {
                                assert(data_in(views_of(out@)) =~= data_in(
                                    prefix.push(oldv[k as int]),
                                ) + seq![segv]);
                            }
                        }
                    }
                },
                Section::DataCount(c) => {
                    let ghost prev = out@;
                    let nc = Section::DataCount(*c + 1);
                    out.push(nc);
                    proof {
                        lemma_views_push(prev, nc);
                        lemma_accessors_push(views_of(prev), nc@);
                    }
                },
                _ => {
                    let ghost prev = out@;
                    let c = clone_section(&sections[k]);
                    out.push(c);
                    proof {
                        lemma_views_push(prev, c);
                        lemma_accessors_push(views_of(prev), c@);
                    }
                },
            }
            k = k + 1;
        }
        proof {
            assert(oldv.subrange(0, oldv.len() as int) =~= oldv);
        }
        if !placed {
            let mut nv: Vec<DataSegment> = Vec::new();
            nv.push(DataSegment { offset, bytes: clone_bytes_slice(bytes) });
            let ghost prev = out@;
            let c = Section::Data(nv);
            out.push(c);
            proof {
                lemma_views_push(prev, c);
                lemma_accessors_push(views_of(prev), c@);
                lemma_no_data_empty(oldv);
                assert(views_of(nv@) =~= seq![segv]);
                assert(data_in(views_of(out@)) =~= data_in(oldv) + seq![segv]);
            }
        }
        self.module = WasmModule { sections: out };
        Ok(())
    }

    /// Replace the template's data segments with a snapshot of a live linear
    /// memory and size the memory to cover it: the memory half of
    /// dehydration.
    ///
    /// The stored segments are exactly the non-zero pages
    /// (`page_segments`); `lemma_memory_round_trip` states that rehydrating
    /// them reproduces the memory, and the memory minimum afterwards covers
    /// the live size in whole 64 KiB pages.
    pub fn dehydrate_memory(&mut self, mem: &[u8]) -> (r: Result<(), Errors>)
        requires
            mem@.len() as int % (PAGE_BYTES as int) == 0,
            mem@.len() <= 0x1_0000_0000,
        ensures
            r is Ok,
            data_in(final(self).module@) == page_segments(mem@, 0),
            imports_in(final(self).module@) == imports_in(old(self).module@),
            globals_in(final(self).module@) == globals_in(old(self).module@),
            exports_in(final(self).module@) == exports_in(old(self).module@),
            memories_in(final(self).module@).len() == memories_in(old(self).module@).len(),
            forall|i: int|
                0 <= i < memories_in(final(self).module@).len() ==> (#[trigger] memories_in(
                    final(self).module@,
                )[i]).min as int * 65536 >= mem@.len(),
            forall|i: int|
                0 <= i < memories_in(final(self).module@).len() ==> (#[trigger] memories_in(
                    final(self).module@,
                )[i]).min >= memories_in(old(self).module@)[i].min && memories_in(
                    final(self).module@,
                )[i].max == memories_in(old(self).module@)[i].max,
    {
        let blen: usize = mem.len();
        // gather the non-zero pages
        let mut segs: Vec<DataSegment> = Vec::new();
        let mut off: usize = 0;
        while off < blen
            invariant
                off <= blen,
                blen == mem@.len(),
                mem@.len() <= 0x1_0000_0000,
                (off as int) % (PAGE_BYTES as int) == 0,
                (mem@.len() - off as int) % (PAGE_BYTES as int) == 0,
                page_segments(mem@, 0) == views_of(segs@) + page_segments(mem@, off as nat),
                segs@.len() * PAGE_BYTES <= off,
            decreases blen - off,
        {
            proof {
                assert(mem@.len() - off >= PAGE_BYTES as nat) by {
                    if mem@.len() - off < PAGE_BYTES as nat {
                        assert((mem@.len() - off as int) % (PAGE_BYTES as int) == mem@.len()
                            - off);
                    }
                };
                assert((mem@.len() - (off + PAGE_BYTES) as int) % (PAGE_BYTES as int) == 0) by {
                    vstd::arithmetic::div_mod::lemma_mod_sub_multiples_vanish(
                        mem@.len() - off as int,
                        PAGE_BYTES as int,
                    );
                };
                assert(((off + PAGE_BYTES) as int) % (PAGE_BYTES as int) == 0) by {
                    vstd::arithmetic::div_mod::lemma_mod_add_multiples_vanish(
                        off as int,
                        PAGE_BYTES as int,
                    );
                };
            }
            let ghost chunk = mem@.subrange(off as int, off + PAGE_BYTES);
            let mut z: bool = true;
            let mut i: usize = 0;
            while i < PAGE_BYTES
                invariant
                    i <= PAGE_BYTES,
                    blen == mem@.len(),
                    off + PAGE_BYTES <= mem@.len(),
                    chunk == mem@.subrange(off as int, off + PAGE_BYTES),
                    z == (forall|t: int| 0 <= t < i ==> chunk[t] == 0),
                decreases PAGE_BYTES - i,
            {
                if mem[off + i] != 0 {
                    proof {
                        assert(chunk[i as int] != 0);
                    }
                    z = false;
                }
                i = i + 1;
                proof {
                    assert(z == (forall|t: int| 0 <= t < i ==> chunk[t] == 0));
                }
            }
            if z {
                proof {
                    assert(page_segments(mem@, off as nat) == page_segments(
                        mem@,
                        (off + PAGE_BYTES) as nat,
                    ));
                }
            } else {
                let mut page: Vec<u8> = Vec::new();
                let mut t: usize = 0;
                while t < PAGE_BYTES
                    invariant
                        t <= PAGE_BYTES,
                        blen == mem@.len(),
                        off + PAGE_BYTES <= mem@.len(),
                        page@ == mem@.subrange(off as int, off + t),
                    decreases PAGE_BYTES - t,
                {
                    page.push(mem[off + t]);
                    t = t + 1;
                    proof {
                        assert(page@ =~= mem@.subrange(off as int, off + t));
                    }
                }
                let seg = DataSegment { offset: offset_to_i32(off as u32), bytes: page };
                let ghost prev = segs@;
                segs.push(seg);
                proof {
                    lemma_views_push(prev, seg);
                    assert(seg@ == (DataSegmentV { offset: (off as u32) as i32, bytes: chunk }));
                    assert(page_segments(mem@, off as nat) == seq![seg@] + page_segments(
                        mem@,
                        (off + PAGE_BYTES) as nat,
                    ));
                    assert(views_of(segs@) + page_segments(mem@, (off + PAGE_BYTES) as nat)
                        =~= views_of(prev) + page_segments(mem@, off as nat));
                }
            }
            off = off + PAGE_BYTES;
        }
        proof {
            assert(page_segments(mem@, off as nat) =~= Seq::<DataSegmentV>::empty());
            assert(views_of(segs@) + Seq::<DataSegmentV>::empty() =~= views_of(segs@));
            assert(page_segments(mem@, 0) == views_of(segs@));
        }
        let count: u32 = segs.len() as u32;
        let ghost segsv = views_of(segs@);

        // rebuild: the first data section carries the snapshot, any others
        // are emptied, and the data count is refreshed
        let ghost oldv = self.module@;
        let sections = &self.module.sections;
        let mut out: Vec<Section> = Vec::new();
        let mut placed: bool = false;
        let mut k: usize = 0;
        while k < sections.len()
            invariant
                k <= sections@.len(),
                sections@ == self.module.sections@,
                oldv == self.module@,
                segsv == views_of(segs@),
                data_in(views_of(out@)) == (if placed {
                    segsv
                } else {
                    Seq::<DataSegmentV>::empty()
                }),
                imports_in(views_of(out@)) == imports_in(oldv.subrange(0, k as int)),
                globals_in(views_of(out@)) == globals_in(oldv.subrange(0, k as int)),
                exports_in(views_of(out@)) == exports_in(oldv.subrange(0, k as int)),
                memories_in(views_of(out@)) == memories_in(oldv.subrange(0, k as int)),
            decreases sections@.len() - k,
        {
            let ghost prefix = oldv.subrange(0, k as int);
            proof {
                assert(oldv.subrange(0, k + 1) =~= prefix.push(oldv[k as int]));
                lemma_accessors_push(prefix, oldv[k as int]);
                assert(oldv[k as int] == sections@[k as int]@);
            }
            match &sections[k] {
                Section::Data(..) => {
                    let ghost prev = out@;
                    let c = if placed {
                        Section::Data(Vec::new())
                    } else {
                        Section::Data(clone_data_segments(&segs))
                    };
                    proof {
                        if placed {
                            assert(views_of(Seq::<DataSegment>::empty())
                                =~= Seq::<DataSegmentV>::empty());
                        }
                    }
                    out.push(c);
                    placed = true;
                    proof {
                        lemma_views_push(prev, c);
                        lemma_accessors_push(views_of(prev), c@);
                        assert(data_in(views_of(out@)) =~= segsv);
                    }
                },
                Section::DataCount(..) => {
                    let ghost prev = out@;
                    let c = Section::DataCount(count);
                    out.push(c);
                    proof {
                        lemma_views_push(prev, c);
                        lemma_accessors_push(views_of(prev), c@);
                    }
                },
                _ => {
                    let ghost prev = out@;
                    let c = clone_section(&sections[k]);
                    out.push(c);
                    proof {
                        lemma_views_push(prev, c);
                        lemma_accessors_push(views_of(prev), c@);
                    }
                },
            }
            k = k + 1;
        }
        proof {
            assert(oldv.subrange(0, oldv.len() as int) =~= oldv);
        }
        if !placed && segs.len() > 0 {
            let ghost prev = out@;
            let c = Section::Data(segs);
            out.push(c);
            proof {
                lemma_views_push(prev, c);
                lemma_accessors_push(views_of(prev), c@);
                assert(data_in(views_of(out@)) =~= segsv);
            }
        } else {
            proof {
                if !placed {
                    assert(segsv =~= Seq::<DataSegmentV>::empty());
                }
            }
        }
        self.module = WasmModule { sections: out };
        let target: u64 = blen as u64;
        match self.resize_memory(target) {
            Ok(()) => {},
            Err(e) => {
                proof {
                    assert(target as int <= 0x1_0000_0000int);
                    assert((u32::MAX as int) * 65536 == 0xFFFF_FFFF_0000int) by (nonlinear_arith);
                }
                return Err(e);
            },
        }
        Ok(())
    }
}

/// A module with no data sections has no data segments.
proof fn lemma_no_data_empty(ss: Seq<SectionV>)
    requires
        forall|i: int| 0 <= i < ss.len() ==> !((#[trigger] ss[i]) is Data),
    ensures
        data_in(ss).len() == 0,
    decreases ss.len(),
{
    if ss.len() == 0 {
    } else {
        assert(ss[0] == ss[0]);
        lemma_no_data_empty(ss.drop_first());
    }
}

/// Copy a byte slice into a fresh vector.
fn clone_bytes_slice(v: &[u8]) -> (r: Vec<u8>)
    ensures
        r@ == v@,
{
    let mut out: Vec<u8> = Vec::new();
    let mut k: usize = 0;
    while k < v.len()
        invariant
            k <= v@.len(),
            out@ == v@.subrange(0, k as int),
        decreases v@.len() - k,
    {
        out.push(v[k]);
        proof {
            assert(out@ =~= v@.subrange(0, k + 1));
        }
        k = k + 1;
    }
    proof {
        assert(v@.subrange(0, v@.len() as int) =~= v@);
    }
    out
}

} // verus!
