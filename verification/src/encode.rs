//! Writing a structured module back to its wasm binary form.
//!
//! The writer is proved to emit exactly the byte string the `enc_*` spec
//! functions describe. It fails only when a length no longer fits the
//! format's 32-bit size fields, which `module_ok` captures exactly.

use vstd::prelude::*;
use crate::EncodeError;
use crate::leb;
use crate::leb::enc_u32;
use crate::wasm::{
    ValueType, GlobalType, Limits, ImportDesc, Import, ExportDesc, Export, InitExpr, GlobalDecl,
    DataSegment, Section, SectionV, WasmModule, vt_byte, le_bytes, enc_limits, enc_global_type,
    enc_import, enc_export, enc_init, enc_global, enc_data, enc_all, section_id, section_payload,
    enc_section, magic, enc_module, lemma_enc_all_push, views_of, ImportV, ExportV, DataSegmentV,
};

verus! {

/// Whether a byte string fits a wasm length field.
pub open spec fn name_ok(s: Seq<u8>) -> bool {
    s.len() <= u32::MAX
}

/// Whether an import entry's names fit their length fields.
pub open spec fn import_ok(i: ImportV) -> bool {
    name_ok(i.module) && name_ok(i.name)
}

/// Whether the entries of a section fit their length fields.
pub open spec fn section_items_ok(s: SectionV) -> bool {
    match s {
        SectionV::Custom { name, .. } => name_ok(name),
        SectionV::Import(v) => v.len() <= u32::MAX && (forall|i: int|
            0 <= i < v.len() ==> import_ok(#[trigger] v[i])),
        SectionV::Memory(v) => v.len() <= u32::MAX,
        SectionV::Global(v) => v.len() <= u32::MAX,
        SectionV::Export(v) => v.len() <= u32::MAX && (forall|i: int|
            0 <= i < v.len() ==> name_ok(#[trigger] v[i].name)),
        SectionV::Data(v) => v.len() <= u32::MAX && (forall|i: int|
            0 <= i < v.len() ==> name_ok(#[trigger] v[i].bytes)),
        SectionV::Start(..) => true,
        SectionV::DataCount(..) => true,
        SectionV::Opaque { .. } => true,
    }
}

/// Whether a whole section, payload size included, fits the format.
pub open spec fn section_ok(s: SectionV) -> bool {
    section_items_ok(s) && section_payload(s).len() <= u32::MAX
}

/// Whether a module can be written at all: every section fits.
pub open spec fn module_ok(m: Seq<SectionV>) -> bool {
    forall|i: int| 0 <= i < m.len() ==> section_ok(#[trigger] m[i])
}

/// Append a length-prefixed byte string.
fn push_name(out: &mut Vec<u8>, s: &[u8]) -> (r: Result<(), EncodeError>)
    ensures
        match r {
            Ok(()) => name_ok(s@) && final(out)@ == old(out)@ + crate::wasm::enc_name(s@),
            Err(_) => !name_ok(s@),
        },
{
    if s.len() > u32::MAX as usize {
        return Err(EncodeError::SectionTooLarge);
    }
    leb::encode_u32(s.len() as u32, out);
    out.extend_from_slice(s);
    Ok(())
}

/// Append memory or table limits.
fn push_limits(out: &mut Vec<u8>, l: Limits)
    ensures
        final(out)@ == old(out)@ + enc_limits(l),
{
    match l.max {
        None => {
            out.push(0);
            leb::encode_u32(l.min, out);
        },
        Some(m) => {
            out.push(1);
            leb::encode_u32(l.min, out);
            leb::encode_u32(m, out);
        },
    }
}

/// The byte of a value type.
fn value_type_byte(t: ValueType) -> (r: u8)
    ensures
        r == vt_byte(t),
{
    match t {
        ValueType::I32 => 0x7F,
        ValueType::I64 => 0x7E,
        ValueType::F32 => 0x7D,
        ValueType::F64 => 0x7C,
        ValueType::V128 => 0x7B,
        ValueType::FuncRef => 0x70,
        ValueType::ExternRef => 0x6F,
    }
}

/// Append a global type.
fn push_global_type(out: &mut Vec<u8>, t: GlobalType)
    ensures
        final(out)@ == old(out)@ + enc_global_type(t),
{
    out.push(value_type_byte(t.value_type));
    match t.mutability {
        crate::wasm::GlobalMutability::Const => out.push(0),
        crate::wasm::GlobalMutability::Var => out.push(1),
    }
}

/// Append the little-endian bytes of a 32-bit pattern.
fn push_le4(out: &mut Vec<u8>, v: u32)
    ensures
        final(out)@ == old(out)@ + le_bytes(v as nat, 4),
{
    let b0: u8 = (v % 256) as u8;
    let x1: u32 = v / 256;
    let b1: u8 = (x1 % 256) as u8;
    let x2: u32 = x1 / 256;
    let b2: u8 = (x2 % 256) as u8;
    let x3: u32 = x2 / 256;
    let b3: u8 = (x3 % 256) as u8;
    out.push(b0);
    out.push(b1);
    out.push(b2);
    out.push(b3);
    proof {
        assert(le_bytes(x3 as nat / 256, 0) == Seq::<u8>::empty());
        assert(le_bytes(x3 as nat, 1) == seq![b3] + le_bytes(x3 as nat / 256, 0));
        assert(le_bytes(x2 as nat, 2) == seq![b2] + le_bytes(x3 as nat, 1));
        assert(le_bytes(x1 as nat, 3) == seq![b1] + le_bytes(x2 as nat, 2));
        assert(le_bytes(v as nat, 4) == seq![b0] + le_bytes(x1 as nat, 3));
        assert(le_bytes(v as nat, 4) =~= seq![b0, b1, b2, b3]);
        assert(final(out)@ =~= old(out)@ + seq![b0, b1, b2, b3]);
    }
}

/// Append the little-endian bytes of a 64-bit pattern.
fn push_le8(out: &mut Vec<u8>, v: u64)
    ensures
        final(out)@ == old(out)@ + le_bytes(v as nat, 8),
{
    let b0: u8 = (v % 256) as u8;
    let x1: u64 = v / 256;
    let b1: u8 = (x1 % 256) as u8;
    let x2: u64 = x1 / 256;
    let b2: u8 = (x2 % 256) as u8;
    let x3: u64 = x2 / 256;
    let b3: u8 = (x3 % 256) as u8;
    let x4: u64 = x3 / 256;
    let b4: u8 = (x4 % 256) as u8;
    let x5: u64 = x4 / 256;
    let b5: u8 = (x5 % 256) as u8;
    let x6: u64 = x5 / 256;
    let b6: u8 = (x6 % 256) as u8;
    let x7: u64 = x6 / 256;
    let b7: u8 = (x7 % 256) as u8;
    out.push(b0);
    out.push(b1);
    out.push(b2);
    out.push(b3);
    out.push(b4);
    out.push(b5);
    out.push(b6);
    out.push(b7);
    proof {
        assert(le_bytes(x7 as nat / 256, 0) == Seq::<u8>::empty());
        assert(le_bytes(x7 as nat, 1) == seq![b7] + le_bytes(x7 as nat / 256, 0));
        assert(le_bytes(x6 as nat, 2) == seq![b6] + le_bytes(x7 as nat, 1));
        assert(le_bytes(x5 as nat, 3) == seq![b5] + le_bytes(x6 as nat, 2));
        assert(le_bytes(x4 as nat, 4) == seq![b4] + le_bytes(x5 as nat, 3));
        assert(le_bytes(x3 as nat, 5) == seq![b3] + le_bytes(x4 as nat, 4));
        assert(le_bytes(x2 as nat, 6) == seq![b2] + le_bytes(x3 as nat, 5));
        assert(le_bytes(x1 as nat, 7) == seq![b1] + le_bytes(x2 as nat, 6));
        assert(le_bytes(v as nat, 8) == seq![b0] + le_bytes(x1 as nat, 7));
        assert(le_bytes(v as nat, 8) =~= seq![b0, b1, b2, b3, b4, b5, b6, b7]);
        assert(final(out)@ =~= old(out)@ + seq![b0, b1, b2, b3, b4, b5, b6, b7]);
    }
}

/// Append a constant initializer expression, `end` opcode included.
fn push_init(out: &mut Vec<u8>, e: InitExpr)
    ensures
        final(out)@ == old(out)@ + enc_init(e),
{
    match e {
        InitExpr::I32Const(v) => {
            out.push(0x41);
            leb::encode_s64(v as i64, out);
        },
        InitExpr::I64Const(v) => {
            out.push(0x42);
            leb::encode_s64(v, out);
        },
        InitExpr::F32Const(b) => {
            out.push(0x43);
            push_le4(out, b);
        },
        InitExpr::F64Const(b) => {
            out.push(0x44);
            push_le8(out, b);
        },
    }
    out.push(0x0B);
    proof {
        assert(final(out)@ =~= old(out)@ + enc_init(e));
    }
}

/// Append one import entry.
fn push_import(out: &mut Vec<u8>, im: &Import) -> (r: Result<(), EncodeError>)
    ensures
        match r {
            Ok(()) => import_ok(im@) && final(out)@ == old(out)@ + enc_import(im@),
            Err(_) => !import_ok(im@),
        },
{
    push_name(out, im.module.as_slice())?;
    push_name(out, im.name.as_slice())?;
    match im.desc {
        ImportDesc::Func(idx) => {
            out.push(0);
            leb::encode_u32(idx, out);
        },
        ImportDesc::Table(t) => {
            out.push(1);
            out.push(value_type_byte(t.element));
            push_limits(out, t.limits);
        },
        ImportDesc::Mem(l) => {
            out.push(2);
            push_limits(out, l);
        },
        ImportDesc::Global(g) => {
            out.push(3);
            push_global_type(out, g);
        },
    }
    proof {
        assert(final(out)@ =~= old(out)@ + enc_import(im@));
    }
    Ok(())
}

/// Append one export entry.
fn push_export(out: &mut Vec<u8>, ex: &Export) -> (r: Result<(), EncodeError>)
    ensures
        match r {
            Ok(()) => name_ok(ex@.name) && final(out)@ == old(out)@ + enc_export(ex@),
            Err(_) => !name_ok(ex@.name),
        },
{
    push_name(out, ex.name.as_slice())?;
    match ex.desc {
        ExportDesc::Func(i) => {
            out.push(0);
            leb::encode_u32(i, out);
        },
        ExportDesc::Table(i) => {
            out.push(1);
            leb::encode_u32(i, out);
        },
        ExportDesc::Mem(i) => {
            out.push(2);
            leb::encode_u32(i, out);
        },
        ExportDesc::Global(i) => {
            out.push(3);
            leb::encode_u32(i, out);
        },
    }
    proof {
        assert(final(out)@ =~= old(out)@ + enc_export(ex@));
    }
    Ok(())
}

/// Append one global entry.
fn push_global(out: &mut Vec<u8>, g: GlobalDecl)
    ensures
        final(out)@ == old(out)@ + enc_global(g),
{
    push_global_type(out, g.ty);
    push_init(out, g.init);
    proof {
        assert(final(out)@ =~= old(out)@ + enc_global(g));
    }
}

/// Append one data segment.
fn push_data(out: &mut Vec<u8>, d: &DataSegment) -> (r: Result<(), EncodeError>)
    ensures
        match r {
            Ok(()) => name_ok(d@.bytes) && final(out)@ == old(out)@ + enc_data(d@),
            Err(_) => !name_ok(d@.bytes),
        },
{
    leb::encode_u32(0, out);
    out.push(0x41);
    leb::encode_s64(d.offset as i64, out);
    out.push(0x0B);
    push_name(out, d.bytes.as_slice())?;
    proof {
        assert(final(out)@ =~= old(out)@ + enc_data(d@));
    }
    Ok(())
}

/// Build the payload bytes of a section.
#[verifier::loop_isolation(false)]
#[verifier::rlimit(60)]
fn encode_section_payload(s: &Section) -> (r: Result<Vec<u8>, EncodeError>)
    ensures
        match r {
            Ok(v) => section_items_ok(s@) && v@ == section_payload(s@),
            Err(_) => !section_items_ok(s@),
        },
{
    let mut out: Vec<u8> = Vec::new();
    match s {
        Section::Custom { name, data } => {
            push_name(&mut out, name.as_slice())?;
            out.extend_from_slice(data.as_slice());
            proof {
                assert(out@ =~= section_payload(s@));
            }
        },
        Section::Import(v) => {
            if v.len() > u32::MAX as usize {
                return Err(EncodeError::SectionTooLarge);
            }
            leb::encode_u32(v.len() as u32, &mut out);
            let ghost f = |i: ImportV| enc_import(i);
            let mut k: usize = 0;
            while k < v.len()
                invariant
                    k <= v@.len() <= u32::MAX,
                    out@ == enc_u32(v@.len()) + enc_all(views_of(v@).subrange(0, k as int), f),
                    forall|j: int| 0 <= j < k ==> import_ok(#[trigger] views_of(v@)[j]),
                decreases v@.len() - k,
            {
                match push_import(&mut out, &v[k]) {
                    Ok(()) => {},
                    Err(e) => {
                        proof {
                            assert(views_of(v@)[k as int] == v@[k as int]@);
                            assert(!import_ok(views_of(v@)[k as int]));
                            assert(!section_items_ok(s@));
                        }
                        return Err(e);
                    },
                }
                proof {
                    lemma_enc_all_push(views_of(v@).subrange(0, k as int), f, v@[k as int]@);
                    assert(views_of(v@).subrange(0, k + 1)
                        =~= views_of(v@).subrange(0, k as int).push(v@[k as int]@));
                }
                k = k + 1;
            }
            proof {
                assert(views_of(v@).subrange(0, views_of(v@).len() as int) =~= views_of(v@));
            }
        },
        Section::Memory(v) => {
            if v.len() > u32::MAX as usize {
                return Err(EncodeError::SectionTooLarge);
            }
            leb::encode_u32(v.len() as u32, &mut out);
            let ghost f = |l: Limits| enc_limits(l);
            let mut k: usize = 0;
            while k < v.len()
                invariant
                    k <= v@.len() <= u32::MAX,
                    out@ == enc_u32(v@.len()) + enc_all(v@.subrange(0, k as int), f),
                decreases v@.len() - k,
            {
                push_limits(&mut out, v[k]);
                proof {
                    lemma_enc_all_push(v@.subrange(0, k as int), f, v@[k as int]);
                    assert(v@.subrange(0, k + 1) =~= v@.subrange(0, k as int).push(v@[k as int]));
                }
                k = k + 1;
            }
            proof {
                assert(v@.subrange(0, v@.len() as int) =~= v@);
            }
        },
        Section::Global(v) => {
            if v.len() > u32::MAX as usize {
                return Err(EncodeError::SectionTooLarge);
            }
            leb::encode_u32(v.len() as u32, &mut out);
            let ghost f = |g: GlobalDecl| enc_global(g);
            let mut k: usize = 0;
            while k < v.len()
                invariant
                    k <= v@.len() <= u32::MAX,
                    out@ == enc_u32(v@.len()) + enc_all(v@.subrange(0, k as int), f),
                decreases v@.len() - k,
            {
                push_global(&mut out, v[k]);
                proof {
                    lemma_enc_all_push(v@.subrange(0, k as int), f, v@[k as int]);
                    assert(v@.subrange(0, k + 1) =~= v@.subrange(0, k as int).push(v@[k as int]));
                }
                k = k + 1;
            }
            proof {
                assert(v@.subrange(0, v@.len() as int) =~= v@);
            }
        },
        Section::Export(v) => {
            if v.len() > u32::MAX as usize {
                return Err(EncodeError::SectionTooLarge);
            }
            leb::encode_u32(v.len() as u32, &mut out);
            let ghost f = |e: ExportV| enc_export(e);
            let mut k: usize = 0;
            while k < v.len()
                invariant
                    k <= v@.len() <= u32::MAX,
                    out@ == enc_u32(v@.len()) + enc_all(views_of(v@).subrange(0, k as int), f),
                    forall|j: int| 0 <= j < k ==> name_ok(#[trigger] views_of(v@)[j].name),
                decreases v@.len() - k,
            {
                match push_export(&mut out, &v[k]) {
                    Ok(()) => {},
                    Err(e) => {
                        proof {
                            assert(views_of(v@)[k as int] == v@[k as int]@);
                            assert(!name_ok(views_of(v@)[k as int].name));
                            assert(!section_items_ok(s@));
                        }
                        return Err(e);
                    },
                }
                proof {
                    lemma_enc_all_push(views_of(v@).subrange(0, k as int), f, v@[k as int]@);
                    assert(views_of(v@).subrange(0, k + 1)
                        =~= views_of(v@).subrange(0, k as int).push(v@[k as int]@));
                }
                k = k + 1;
            }
            proof {
                assert(views_of(v@).subrange(0, views_of(v@).len() as int) =~= views_of(v@));
            }
        },
        Section::Start(i) => {
            leb::encode_u32(*i, &mut out);
        },
        Section::Data(v) => {
            if v.len() > u32::MAX as usize {
                return Err(EncodeError::SectionTooLarge);
            }
            leb::encode_u32(v.len() as u32, &mut out);
            let ghost f = |d: DataSegmentV| enc_data(d);
            let mut k: usize = 0;
            while k < v.len()
                invariant
                    k <= v@.len() <= u32::MAX,
                    out@ == enc_u32(v@.len()) + enc_all(views_of(v@).subrange(0, k as int), f),
                    forall|j: int| 0 <= j < k ==> name_ok(#[trigger] views_of(v@)[j].bytes),
                decreases v@.len() - k,
            {
                match push_data(&mut out, &v[k]) {
                    Ok(()) => {},
                    Err(e) => {
                        proof {
                            assert(views_of(v@)[k as int] == v@[k as int]@);
                            assert(!name_ok(views_of(v@)[k as int].bytes));
                            assert(!section_items_ok(s@));
                        }
                        return Err(e);
                    },
                }
                proof {
                    lemma_enc_all_push(views_of(v@).subrange(0, k as int), f, v@[k as int]@);
                    assert(views_of(v@).subrange(0, k + 1)
                        =~= views_of(v@).subrange(0, k as int).push(v@[k as int]@));
                }
                k = k + 1;
            }
            proof {
                assert(views_of(v@).subrange(0, views_of(v@).len() as int) =~= views_of(v@));
            }
        },
        Section::DataCount(c) => {
            leb::encode_u32(*c, &mut out);
        },
        Section::Opaque { data, .. } => {
            out.extend_from_slice(data.as_slice());
            proof {
                assert(out@ =~= section_payload(s@));
            }
        },
    }
    Ok(out)
}

/// The id byte of a section.
pub fn section_id_byte(s: &Section) -> (r: u8)
    ensures
        r == section_id(s@),
{
    match s {
        Section::Custom { .. } => 0,
        Section::Import(..) => 2,
        Section::Memory(..) => 5,
        Section::Global(..) => 6,
        Section::Export(..) => 7,
        Section::Start(..) => 8,
        Section::Data(..) => 11,
        Section::DataCount(..) => 12,
        Section::Opaque { id, .. } => *id,
    }
}

/// Write a whole module to bytes.
///
/// Succeeds exactly when every length in the module still fits the format's
/// 32-bit size fields, and then returns exactly the module's encoding, so a
/// module read by `decode_module` writes back byte-identically.
#[verifier::loop_isolation(false)]
pub fn module_to_bytes(m: &WasmModule) -> (r: Result<Vec<u8>, EncodeError>)
    ensures
        match r {
            Ok(v) => module_ok(m@) && v@ == enc_module(m@),
            Err(_) => !module_ok(m@),
        },
{
    let mut out: Vec<u8> = Vec::new();
    out.push(0x00);
    out.push(0x61);
    out.push(0x73);
    out.push(0x6D);
    out.push(0x01);
    out.push(0x00);
    out.push(0x00);
    out.push(0x00);
    proof {
        assert(out@ =~= magic());
    }
    let ghost g = |s: SectionV| enc_section(s);
    let sections = &m.sections;
    let mut k: usize = 0;
    while k < sections.len()
        invariant
            k <= sections@.len(),
            out@ == magic() + enc_all(views_of(sections@).subrange(0, k as int), g),
            forall|j: int| 0 <= j < k ==> section_ok(#[trigger] views_of(sections@)[j]),
        decreases sections@.len() - k,
    {
        let s = &sections[k];
        let mut payload = match encode_section_payload(s) {
            Ok(p) => p,
            Err(e) => {
                proof {
                    assert(views_of(sections@)[k as int] == sections@[k as int]@);
                    assert(!section_ok(views_of(sections@)[k as int]));
                    assert(!module_ok(m@));
                }
                return Err(e);
            },
        };
        if payload.len() > u32::MAX as usize {
            proof {
                assert(views_of(sections@)[k as int] == sections@[k as int]@);
                assert(!section_ok(views_of(sections@)[k as int]));
                assert(!module_ok(m@));
            }
            return Err(EncodeError::SectionTooLarge);
        }
        out.push(section_id_byte(s));
        leb::encode_u32(payload.len() as u32, &mut out);
        out.append(&mut payload);
        proof {
            lemma_enc_all_push(views_of(sections@).subrange(0, k as int), g, sections@[k as int]@);
            assert(views_of(sections@).subrange(0, k + 1)
                =~= views_of(sections@).subrange(0, k as int).push(sections@[k as int]@));
            assert(out@ =~= magic() + enc_all(views_of(sections@).subrange(0, k + 1), g));
        }
        k = k + 1;
    }
    proof {
        assert(views_of(sections@).subrange(0, views_of(sections@).len() as int)
            =~= views_of(sections@));
    }
    Ok(out)
}

} // verus!
