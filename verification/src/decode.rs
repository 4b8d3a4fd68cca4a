//! Reading a wasm binary into the structured module form.
//!
//! Every reader is proved sound against the `enc_*` spec functions: when it
//! accepts, the bytes it consumed are exactly the encoding of the value it
//! returns. Together with the writer this gives the codec's guarantee that a
//! decoded module writes back byte-identically; a byte string for which that
//! would fail is rejected with a `DecodeError` instead.

use vstd::prelude::*;
use crate::DecodeError;
use crate::leb;
use crate::leb::enc_u32;
use crate::wasm::{
    ValueType, GlobalMutability, GlobalType, Limits, TableType, ImportDesc, Import, ExportDesc,
    Export, InitExpr, GlobalDecl, DataSegment, Section, SectionV, WasmModule, vt_byte, enc_name,
    le_bytes, enc_limits, enc_global_type, enc_import, enc_export, enc_init, enc_global, enc_data,
    enc_all, section_payload, enc_section, magic, enc_module, init_matches, lemma_enc_all_push,
    views_of, ImportV, ExportV, DataSegmentV,
};

verus! {

/// Copy `bytes[from..to]` into a fresh vector.
fn copy_range(bytes: &[u8], from: usize, to: usize) -> (r: Vec<u8>)
    requires
        from <= to <= bytes@.len(),
    ensures
        r@ == bytes@.subrange(from as int, to as int),
{
    let mut out: Vec<u8> = Vec::new();
    let mut cur: usize = from;
    while cur < to
        invariant
            from <= cur <= to <= bytes@.len(),
            out@ == bytes@.subrange(from as int, cur as int),
        decreases to - cur,
    {
        out.push(bytes[cur]);
        cur = cur + 1;
        proof {
            assert(out@ =~= bytes@.subrange(from as int, cur as int));
        }
    }
    out
}

/// Read a length-prefixed byte string (a name or a blob) at `pos`.
fn decode_name(bytes: &[u8], pos: usize) -> (r: Result<(Vec<u8>, usize), DecodeError>)
    requires
        pos <= bytes@.len(),
    ensures
        match r {
            Ok((v, newpos)) => {
                &&& pos < newpos <= bytes@.len()
                &&& v@.len() <= u32::MAX
                &&& enc_name(v@) == bytes@.subrange(pos as int, newpos as int)
            },
            Err(_) => forall|v: Seq<u8>, nn: int|
                #![trigger enc_name(v), bytes@.subrange(pos as int, pos + nn)]
                0 <= nn && pos + nn <= bytes@.len() && v.len() <= u32::MAX ==> enc_name(v)
                    != bytes@.subrange(pos as int, pos + nn),
        },
{
    let blen: usize = bytes.len();
    let (len, n) = match leb::decode_u32(bytes, pos) {
        Ok(p) => p,
        Err(e) => {
            proof {
                assert forall|v: Seq<u8>, nn: int|
                    #![trigger enc_name(v), bytes@.subrange(pos as int, pos + nn)]
                    0 <= nn && pos + nn <= bytes@.len() && v.len() <= u32::MAX implies enc_name(v)
                    != bytes@.subrange(pos as int, pos + nn) by {
                    if enc_name(v) == bytes@.subrange(pos as int, pos + nn) {
                        let k = enc_u32(v.len()).len() as int;
                        assert(enc_name(v).len() == enc_u32(v.len()).len() + v.len());
                        assert(nn == k + v.len());
                        assert(enc_u32((v.len() as u32) as nat) == bytes@.subrange(
                            pos as int,
                            pos + k,
                        )) by {
                            assert((v.len() as u32) as nat == v.len());
                            assert(enc_u32(v.len()) =~= bytes@.subrange(pos as int, pos + k))
                                by {
                                assert forall|i: int| 0 <= i < k implies #[trigger] enc_u32(
                                    v.len(),
                                )[i] == bytes@.subrange(pos as int, pos + k)[i] by {
                                    assert(enc_name(v)[i] == enc_u32(v.len())[i]);
                                    assert(bytes@.subrange(pos as int, pos + nn)[i]
                                        == bytes@.subrange(pos as int, pos + k)[i]);
                                }
                            };
                        };
                    }
                }
            }
            return Err(e);
        },
    };
    let start: usize = pos + n;
    if (len as usize) > blen - start {
        proof {
            assert forall|v: Seq<u8>, nn: int|
                #![trigger enc_name(v), bytes@.subrange(pos as int, pos + nn)]
                0 <= nn && pos + nn <= bytes@.len() && v.len() <= u32::MAX implies enc_name(v)
                != bytes@.subrange(pos as int, pos + nn) by {
                if enc_name(v) == bytes@.subrange(pos as int, pos + nn) {
                    let k = enc_u32(v.len()).len() as int;
                    assert(enc_name(v).len() == enc_u32(v.len()).len() + v.len());
                    assert(nn == k + v.len());
                    assert(enc_u32(v.len()) =~= bytes@.subrange(pos as int, pos + k)) by {
                        assert forall|i: int| 0 <= i < k implies #[trigger] enc_u32(v.len())[i]
                            == bytes@.subrange(pos as int, pos + k)[i] by {
                            assert(enc_name(v)[i] == enc_u32(v.len())[i]);
                        }
                    };
                    crate::leb::lemma_enc_u32_det(
                        bytes@,
                        pos as int,
                        v.len(),
                        len as nat,
                        k,
                        n as int,
                    );
                    assert(nn == n + v.len());
                }
            }
        }
        return Err(DecodeError::UnexpectedEnd);
    }
    let newpos: usize = start + len as usize;
    let v = copy_range(bytes, start, newpos);
    proof {
        assert(enc_name(v@) =~= bytes@.subrange(pos as int, newpos as int)) by {
            assert(v@.len() == len as nat);
            assert(enc_u32(len as nat) == bytes@.subrange(pos as int, start as int));
            assert(bytes@.subrange(pos as int, newpos as int)
                =~= bytes@.subrange(pos as int, start as int)
                    + bytes@.subrange(start as int, newpos as int));
        };
    }
    Ok((v, newpos))
}

/// Read a value type byte at `pos`.
fn decode_value_type(bytes: &[u8], pos: usize) -> (r: Result<(ValueType, usize), DecodeError>)
    requires
        pos <= bytes@.len(),
    ensures
        match r {
            Ok((t, newpos)) => {
                &&& newpos == pos + 1 <= bytes@.len()
                &&& seq![vt_byte(t)] == bytes@.subrange(pos as int, newpos as int)
            },
            Err(_) => true,
        },
{
    if pos >= bytes.len() {
        return Err(DecodeError::UnexpectedEnd);
    }
    let b: u8 = bytes[pos];
    let t = match b {
        0x7F => ValueType::I32,
        0x7E => ValueType::I64,
        0x7D => ValueType::F32,
        0x7C => ValueType::F64,
        0x7B => ValueType::V128,
        0x70 => ValueType::FuncRef,
        0x6F => ValueType::ExternRef,
        _ => {
            return Err(DecodeError::BadTag);
        },
    };
    proof {
        assert(bytes@.subrange(pos as int, pos + 1) =~= seq![b]);
    }
    Ok((t, pos + 1))
}

/// Read memory or table limits at `pos`.
fn decode_limits(bytes: &[u8], pos: usize) -> (r: Result<(Limits, usize), DecodeError>)
    requires
        pos <= bytes@.len(),
    ensures
        match r {
            Ok((l, newpos)) => {
                &&& pos < newpos <= bytes@.len()
                &&& enc_limits(l) == bytes@.subrange(pos as int, newpos as int)
            },
            Err(_) => true,
        },
{
    if pos >= bytes.len() {
        return Err(DecodeError::UnexpectedEnd);
    }
    let flag: u8 = bytes[pos];
    if flag == 0 {
        let (min, n) = leb::decode_u32(bytes, pos + 1)?;
        let newpos: usize = pos + 1 + n;
        let l = Limits { min, max: None };
        proof {
            assert(enc_limits(l) =~= bytes@.subrange(pos as int, newpos as int)) by {
                assert(bytes@.subrange(pos as int, newpos as int)
                    =~= seq![flag] + bytes@.subrange(pos + 1, newpos as int));
            };
        }
        Ok((l, newpos))
    } else if flag == 1 {
        let (min, n) = leb::decode_u32(bytes, pos + 1)?;
        let mid: usize = pos + 1 + n;
        let (mx, n2) = leb::decode_u32(bytes, mid)?;
        let newpos: usize = mid + n2;
        let l = Limits { min, max: Some(mx) };
        proof {
            assert(enc_limits(l) =~= bytes@.subrange(pos as int, newpos as int)) by {
                assert(bytes@.subrange(pos as int, newpos as int)
                    =~= seq![flag] + bytes@.subrange(pos + 1, mid as int)
                        + bytes@.subrange(mid as int, newpos as int));
            };
        }
        Ok((l, newpos))
    } else {
        Err(DecodeError::BadTag)
    }
}

/// Read a global type (value type and mutability) at `pos`.
fn decode_global_type(bytes: &[u8], pos: usize) -> (r: Result<(GlobalType, usize), DecodeError>)
    requires
        pos <= bytes@.len(),
    ensures
        match r {
            Ok((t, newpos)) => {
                &&& pos < newpos <= bytes@.len()
                &&& enc_global_type(t) == bytes@.subrange(pos as int, newpos as int)
            },
            Err(_) => true,
        },
{
    let (vt, p1) = decode_value_type(bytes, pos)?;
    if p1 >= bytes.len() {
        return Err(DecodeError::UnexpectedEnd);
    }
    let mb: u8 = bytes[p1];
    let m = if mb == 0 {
        GlobalMutability::Const
    } else if mb == 1 {
        GlobalMutability::Var
    } else {
        return Err(DecodeError::BadTag);
    };
    let t = GlobalType { value_type: vt, mutability: m };
    proof {
        assert(enc_global_type(t) =~= bytes@.subrange(pos as int, p1 + 1));
    }
    Ok((t, p1 + 1))
}

/// Peeling one little-endian byte off `v == b + 256 * rest`.
proof fn lemma_le_step(v: nat, b: nat, rest: nat, n: nat)
    requires
        b < 256,
        v == b + 256 * rest,
    ensures
        le_bytes(v, n + 1) == seq![b as u8] + le_bytes(rest, n),
{
    vstd::arithmetic::div_mod::lemma_fundamental_div_mod_converse(
        v as int,
        256,
        rest as int,
        b as int,
    );
    assert(le_bytes(v, n + 1) == seq![(v % 256) as u8] + le_bytes(v / 256, n));
}

/// Read 4 little-endian bytes at `pos`.
fn decode_le4(bytes: &[u8], pos: usize) -> (r: Result<(u32, usize), DecodeError>)
    requires
        pos <= bytes@.len(),
    ensures
        match r {
            Ok((v, newpos)) => {
                &&& newpos == pos + 4 <= bytes@.len()
                &&& le_bytes(v as nat, 4) == bytes@.subrange(pos as int, newpos as int)
            },
            Err(_) => true,
        },
{
    if bytes.len() - pos < 4 {
        return Err(DecodeError::UnexpectedEnd);
    }
    let b0: u32 = bytes[pos] as u32;
    let b1: u32 = bytes[pos + 1] as u32;
    let b2: u32 = bytes[pos + 2] as u32;
    let b3: u32 = bytes[pos + 3] as u32;
    let x2: u32 = b2 + 256 * b3;
    let x1: u32 = b1 + 256 * x2;
    let v: u32 = b0 + 256 * x1;
    proof {
        lemma_le_step(b3 as nat, b3 as nat, 0, 0);
        lemma_le_step(x2 as nat, b2 as nat, b3 as nat, 1);
        lemma_le_step(x1 as nat, b1 as nat, x2 as nat, 2);
        lemma_le_step(v as nat, b0 as nat, x1 as nat, 3);
        assert(le_bytes(v as nat, 4) =~= bytes@.subrange(pos as int, pos + 4));
    }
    Ok((v, pos + 4))
}

/// Read 8 little-endian bytes at `pos`.
fn decode_le8(bytes: &[u8], pos: usize) -> (r: Result<(u64, usize), DecodeError>)
    requires
        pos <= bytes@.len(),
    ensures
        match r {
            Ok((v, newpos)) => {
                &&& newpos == pos + 8 <= bytes@.len()
                &&& le_bytes(v as nat, 8) == bytes@.subrange(pos as int, newpos as int)
            },
            Err(_) => true,
        },
{
    if bytes.len() - pos < 8 {
        return Err(DecodeError::UnexpectedEnd);
    }
    let b0: u64 = bytes[pos] as u64;
    let b1: u64 = bytes[pos + 1] as u64;
    let b2: u64 = bytes[pos + 2] as u64;
    let b3: u64 = bytes[pos + 3] as u64;
    let b4: u64 = bytes[pos + 4] as u64;
    let b5: u64 = bytes[pos + 5] as u64;
    let b6: u64 = bytes[pos + 6] as u64;
    let b7: u64 = bytes[pos + 7] as u64;
    let x6: u64 = b6 + 256 * b7;
    let x5: u64 = b5 + 256 * x6;
    let x4: u64 = b4 + 256 * x5;
    let x3: u64 = b3 + 256 * x4;
    let x2: u64 = b2 + 256 * x3;
    let x1: u64 = b1 + 256 * x2;
    let v: u64 = b0 + 256 * x1;
    proof {
        lemma_le_step(b7 as nat, b7 as nat, 0, 0);
        lemma_le_step(x6 as nat, b6 as nat, b7 as nat, 1);
        lemma_le_step(x5 as nat, b5 as nat, x6 as nat, 2);
        lemma_le_step(x4 as nat, b4 as nat, x5 as nat, 3);
        lemma_le_step(x3 as nat, b3 as nat, x4 as nat, 4);
        lemma_le_step(x2 as nat, b2 as nat, x3 as nat, 5);
        lemma_le_step(x1 as nat, b1 as nat, x2 as nat, 6);
        lemma_le_step(v as nat, b0 as nat, x1 as nat, 7);
        assert(le_bytes(v as nat, 8) =~= bytes@.subrange(pos as int, pos + 8));
    }
    Ok((v, pos + 8))
}

/// Read a constant initializer expression, including its `end` opcode.
fn decode_init(bytes: &[u8], pos: usize) -> (r: Result<(InitExpr, usize), DecodeError>)
    requires
        pos <= bytes@.len(),
    ensures
        match r {
            Ok((e, newpos)) => {
                &&& pos < newpos <= bytes@.len()
                &&& enc_init(e) == bytes@.subrange(pos as int, newpos as int)
            },
            Err(_) => true,
        },
{
    if pos >= bytes.len() {
        return Err(DecodeError::UnexpectedEnd);
    }
    let op: u8 = bytes[pos];
    let (e, vend): (InitExpr, usize) = if op == 0x41 {
        let (v, n) = leb::decode_s64(bytes, pos + 1)?;
        if v > i32::MAX as i64 || v < i32::MIN as i64 {
            return Err(DecodeError::IntegerTooLarge);
        }
        (InitExpr::I32Const(v as i32), pos + 1 + n)
    } else if op == 0x42 {
        let (v, n) = leb::decode_s64(bytes, pos + 1)?;
        (InitExpr::I64Const(v), pos + 1 + n)
    } else if op == 0x43 {
        let (v, p) = decode_le4(bytes, pos + 1)?;
        (InitExpr::F32Const(v), p)
    } else if op == 0x44 {
        let (v, p) = decode_le8(bytes, pos + 1)?;
        (InitExpr::F64Const(v), p)
    } else {
        return Err(DecodeError::BadTag);
    };
    if vend >= bytes.len() {
        return Err(DecodeError::UnexpectedEnd);
    }
    if bytes[vend] != 0x0B {
        return Err(DecodeError::BadTag);
    }
    let newpos: usize = vend + 1;
    proof {
        assert(enc_init(e) =~= bytes@.subrange(pos as int, newpos as int)) by {
            assert(bytes@.subrange(pos as int, newpos as int)
                =~= seq![op] + bytes@.subrange(pos + 1, vend as int) + seq![0x0Bu8]);
        };
    }
    Ok((e, newpos))
}

/// Read one import entry at `pos`.
fn decode_import(bytes: &[u8], pos: usize) -> (r: Result<(Import, usize), DecodeError>)
    requires
        pos <= bytes@.len(),
    ensures
        match r {
            Ok((im, newpos)) => {
                &&& pos < newpos <= bytes@.len()
                &&& enc_import(im@) == bytes@.subrange(pos as int, newpos as int)
            },
            Err(_) => true,
        },
{
    let (module, p1) = decode_name(bytes, pos)?;
    let (name, p2) = decode_name(bytes, p1)?;
    if p2 >= bytes.len() {
        return Err(DecodeError::UnexpectedEnd);
    }
    let tag: u8 = bytes[p2];
    let p3: usize = p2 + 1;
    let (desc, newpos): (ImportDesc, usize) = if tag == 0 {
        let (idx, n) = leb::decode_u32(bytes, p3)?;
        (ImportDesc::Func(idx), p3 + n)
    } else if tag == 1 {
        let (el, p4) = decode_value_type(bytes, p3)?;
        match el {
            ValueType::FuncRef | ValueType::ExternRef => {},
            _ => {
                return Err(DecodeError::BadTag);
            },
        }
        let (l, p5) = decode_limits(bytes, p4)?;
        (ImportDesc::Table(TableType { element: el, limits: l }), p5)
    } else if tag == 2 {
        let (l, p4) = decode_limits(bytes, p3)?;
        (ImportDesc::Mem(l), p4)
    } else if tag == 3 {
        let (g, p4) = decode_global_type(bytes, p3)?;
        (ImportDesc::Global(g), p4)
    } else {
        return Err(DecodeError::BadTag);
    };
    let im = Import { module, name, desc };
    proof {
        assert(crate::wasm::enc_import_desc(im@.desc)
            =~= bytes@.subrange(p2 as int, newpos as int)) by {
            assert(bytes@.subrange(p2 as int, newpos as int)
                =~= seq![tag] + bytes@.subrange(p3 as int, newpos as int));
        };
        assert(enc_import(im@) =~= bytes@.subrange(pos as int, newpos as int)) by {
            assert(bytes@.subrange(pos as int, newpos as int)
                =~= bytes@.subrange(pos as int, p1 as int) + bytes@.subrange(p1 as int, p2 as int)
                    + bytes@.subrange(p2 as int, newpos as int));
        };
    }
    Ok((im, newpos))
}

/// Read one export entry at `pos`.
fn decode_export(bytes: &[u8], pos: usize) -> (r: Result<(Export, usize), DecodeError>)
    requires
        pos <= bytes@.len(),
    ensures
        match r {
            Ok((ex, newpos)) => {
                &&& pos < newpos <= bytes@.len()
                &&& enc_export(ex@) == bytes@.subrange(pos as int, newpos as int)
            },
            Err(_) => true,
        },
{
    let (name, p1) = decode_name(bytes, pos)?;
    if p1 >= bytes.len() {
        return Err(DecodeError::UnexpectedEnd);
    }
    let tag: u8 = bytes[p1];
    let (idx, n) = leb::decode_u32(bytes, p1 + 1)?;
    let newpos: usize = p1 + 1 + n;
    let desc = if tag == 0 {
        ExportDesc::Func(idx)
    } else if tag == 1 {
        ExportDesc::Table(idx)
    } else if tag == 2 {
        ExportDesc::Mem(idx)
    } else if tag == 3 {
        ExportDesc::Global(idx)
    } else {
        return Err(DecodeError::BadTag);
    };
    let ex = Export { name, desc };
    proof {
        assert(enc_export(ex@) =~= bytes@.subrange(pos as int, newpos as int)) by {
            assert(bytes@.subrange(pos as int, newpos as int)
                =~= bytes@.subrange(pos as int, p1 as int) + seq![tag]
                    + bytes@.subrange(p1 + 1, newpos as int));
        };
    }
    Ok((ex, newpos))
}

/// Read one global entry at `pos`, refusing an initializer whose constant
/// does not have the global's declared value type.
fn decode_global(bytes: &[u8], pos: usize) -> (r: Result<(GlobalDecl, usize), DecodeError>)
    requires
        pos <= bytes@.len(),
    ensures
        match r {
            Ok((g, newpos)) => {
                &&& pos < newpos <= bytes@.len()
                &&& enc_global(g) == bytes@.subrange(pos as int, newpos as int)
                &&& init_matches(g.ty.value_type, g.init)
            },
            Err(_) => true,
        },
{
    let (ty, p1) = decode_global_type(bytes, pos)?;
    let (init, newpos) = decode_init(bytes, p1)?;
    let ok = match (ty.value_type, init) {
        (ValueType::I32, InitExpr::I32Const(..)) => true,
        (ValueType::I64, InitExpr::I64Const(..)) => true,
        (ValueType::F32, InitExpr::F32Const(..)) => true,
        (ValueType::F64, InitExpr::F64Const(..)) => true,
        _ => false,
    };
    if !ok {
        return Err(DecodeError::InitTypeMismatch);
    }
    let g = GlobalDecl { ty, init };
    proof {
        assert(enc_global(g) =~= bytes@.subrange(pos as int, newpos as int)) by {
            assert(bytes@.subrange(pos as int, newpos as int)
                =~= bytes@.subrange(pos as int, p1 as int)
                    + bytes@.subrange(p1 as int, newpos as int));
        };
    }
    Ok((g, newpos))
}

/// Read one data segment at `pos`. Only active segments on memory 0 with an
/// `i32.const` offset are supported; anything else is outside the kernel's
/// wasm subset.
fn decode_data_segment(bytes: &[u8], pos: usize) -> (r: Result<(DataSegment, usize), DecodeError>)
    requires
        pos <= bytes@.len(),
    ensures
        match r {
            Ok((d, newpos)) => {
                &&& pos < newpos <= bytes@.len()
                &&& enc_data(d@) == bytes@.subrange(pos as int, newpos as int)
            },
            Err(_) => true,
        },
{
    let blen: usize = bytes.len();
    let (tag, n) = leb::decode_u32(bytes, pos)?;
    if tag != 0 {
        return Err(DecodeError::BadTag);
    }
    let p1: usize = pos + n;
    if p1 >= blen {
        return Err(DecodeError::UnexpectedEnd);
    }
    if bytes[p1] != 0x41 {
        return Err(DecodeError::BadTag);
    }
    let (v, m) = leb::decode_s64(bytes, p1 + 1)?;
    if v > i32::MAX as i64 || v < i32::MIN as i64 {
        return Err(DecodeError::IntegerTooLarge);
    }
    let p2: usize = p1 + 1 + m;
    if p2 >= blen {
        return Err(DecodeError::UnexpectedEnd);
    }
    if bytes[p2] != 0x0B {
        return Err(DecodeError::BadTag);
    }
    let (blob, newpos) = decode_name(bytes, p2 + 1)?;
    let d = DataSegment { offset: v as i32, bytes: blob };
    proof {
        assert(enc_data(d@) =~= bytes@.subrange(pos as int, newpos as int)) by {
            assert(bytes@.subrange(pos as int, newpos as int)
                =~= bytes@.subrange(pos as int, p1 as int) + seq![0x41u8]
                    + bytes@.subrange(p1 + 1, p2 as int) + seq![0x0Bu8]
                    + bytes@.subrange(p2 + 1, newpos as int));
        };
    }
    Ok((d, newpos))
}

/// Read an import section payload spanning exactly `pos..end`.
fn decode_import_section(bytes: &[u8], pos: usize, end: usize) -> (r: Result<
    Vec<Import>,
    DecodeError,
>)
    requires
        pos <= end <= bytes@.len(),
    ensures
        match r {
            Ok(v) => section_payload(SectionV::Import(views_of(v@))) == bytes@.subrange(
                pos as int,
                end as int,
            ),
            Err(_) => true,
        },
{
    let blen: usize = bytes.len();
    let (count, n) = leb::decode_u32(bytes, pos)?;
    let start: usize = pos + n;
    let mut v: Vec<Import> = Vec::new();
    let mut cur: usize = start;
    let mut k: u32 = 0;
    while k < count
        invariant
            start <= cur <= bytes@.len(),
            v@.len() == k as nat,
            k <= count,
            enc_all(views_of(v@), |i: ImportV| enc_import(i)) == bytes@.subrange(
                start as int,
                cur as int,
            ),
        decreases count - k,
    {
        let (im, np) = decode_import(bytes, cur)?;
        proof {
            lemma_enc_all_push(views_of(v@), |i: ImportV| enc_import(i), im@);
            crate::wasm::lemma_views_push(v@, im);
            assert(bytes@.subrange(start as int, np as int)
                =~= bytes@.subrange(start as int, cur as int)
                    + bytes@.subrange(cur as int, np as int));
        }
        v.push(im);
        cur = np;
        k = k + 1;
    }
    if cur != end {
        return Err(DecodeError::SectionSizeMismatch);
    }
    proof {
        assert(section_payload(SectionV::Import(views_of(v@)))
            =~= bytes@.subrange(pos as int, end as int)) by {
            assert(views_of(v@).len() == count as nat);
            assert(bytes@.subrange(pos as int, end as int)
                =~= bytes@.subrange(pos as int, start as int)
                    + bytes@.subrange(start as int, end as int));
        };
    }
    Ok(v)
}

/// Read a memory section payload spanning exactly `pos..end`.
fn decode_memory_section(bytes: &[u8], pos: usize, end: usize) -> (r: Result<
    Vec<Limits>,
    DecodeError,
>)
    requires
        pos <= end <= bytes@.len(),
    ensures
        match r {
            Ok(v) => section_payload(SectionV::Memory(v@)) == bytes@.subrange(
                pos as int,
                end as int,
            ),
            Err(_) => true,
        },
{
    let blen: usize = bytes.len();
    let (count, n) = leb::decode_u32(bytes, pos)?;
    let start: usize = pos + n;
    let mut v: Vec<Limits> = Vec::new();
    let mut cur: usize = start;
    let mut k: u32 = 0;
    while k < count
        invariant
            start <= cur <= bytes@.len(),
            v@.len() == k as nat,
            k <= count,
            enc_all(v@, |l: Limits| enc_limits(l)) == bytes@.subrange(start as int, cur as int),
        decreases count - k,
    {
        let (l, np) = decode_limits(bytes, cur)?;
        proof {
            lemma_enc_all_push(v@, |l: Limits| enc_limits(l), l);
            assert(bytes@.subrange(start as int, np as int)
                =~= bytes@.subrange(start as int, cur as int)
                    + bytes@.subrange(cur as int, np as int));
        }
        v.push(l);
        cur = np;
        k = k + 1;
    }
    if cur != end {
        return Err(DecodeError::SectionSizeMismatch);
    }
    proof {
        assert(section_payload(SectionV::Memory(v@))
            =~= bytes@.subrange(pos as int, end as int)) by {
            assert(v@.len() == count as nat);
            assert(bytes@.subrange(pos as int, end as int)
                =~= bytes@.subrange(pos as int, start as int)
                    + bytes@.subrange(start as int, end as int));
        };
    }
    Ok(v)
}

/// Read a global section payload spanning exactly `pos..end`.
fn decode_global_section(bytes: &[u8], pos: usize, end: usize) -> (r: Result<
    Vec<GlobalDecl>,
    DecodeError,
>)
    requires
        pos <= end <= bytes@.len(),
    ensures
        match r {
            Ok(v) => {
                &&& section_payload(SectionV::Global(v@)) == bytes@.subrange(pos as int, end as int)
                &&& forall|i: int|
                    0 <= i < v@.len() ==> init_matches(
                        v@[i].ty.value_type,
                        #[trigger] v@[i].init,
                    )
            },
            Err(_) => true,
        },
{
    let blen: usize = bytes.len();
    let (count, n) = leb::decode_u32(bytes, pos)?;
    let start: usize = pos + n;
    let mut v: Vec<GlobalDecl> = Vec::new();
    let mut cur: usize = start;
    let mut k: u32 = 0;
    while k < count
        invariant
            start <= cur <= bytes@.len(),
            v@.len() == k as nat,
            k <= count,
            enc_all(v@, |g: GlobalDecl| enc_global(g)) == bytes@.subrange(
                start as int,
                cur as int,
            ),
            forall|i: int|
                0 <= i < v@.len() ==> init_matches(v@[i].ty.value_type, #[trigger] v@[i].init),
        decreases count - k,
    {
        let (g, np) = decode_global(bytes, cur)?;
        proof {
            lemma_enc_all_push(v@, |g: GlobalDecl| enc_global(g), g);
            assert(bytes@.subrange(start as int, np as int)
                =~= bytes@.subrange(start as int, cur as int)
                    + bytes@.subrange(cur as int, np as int));
        }
        v.push(g);
        cur = np;
        k = k + 1;
    }
    if cur != end {
        return Err(DecodeError::SectionSizeMismatch);
    }
    proof {
        assert(section_payload(SectionV::Global(v@))
            =~= bytes@.subrange(pos as int, end as int)) by {
            assert(v@.len() == count as nat);
            assert(bytes@.subrange(pos as int, end as int)
                =~= bytes@.subrange(pos as int, start as int)
                    + bytes@.subrange(start as int, end as int));
        };
    }
    Ok(v)
}

/// Read an export section payload spanning exactly `pos..end`.
fn decode_export_section(bytes: &[u8], pos: usize, end: usize) -> (r: Result<
    Vec<Export>,
    DecodeError,
>)
    requires
        pos <= end <= bytes@.len(),
    ensures
        match r {
            Ok(v) => section_payload(SectionV::Export(views_of(v@))) == bytes@.subrange(
                pos as int,
                end as int,
            ),
            Err(_) => true,
        },
{
    let blen: usize = bytes.len();
    let (count, n) = leb::decode_u32(bytes, pos)?;
    let start: usize = pos + n;
    let mut v: Vec<Export> = Vec::new();
    let mut cur: usize = start;
    let mut k: u32 = 0;
    while k < count
        invariant
            start <= cur <= bytes@.len(),
            v@.len() == k as nat,
            k <= count,
            enc_all(views_of(v@), |e: ExportV| enc_export(e)) == bytes@.subrange(
                start as int,
                cur as int,
            ),
        decreases count - k,
    {
        let (e, np) = decode_export(bytes, cur)?;
        proof {
            lemma_enc_all_push(views_of(v@), |e: ExportV| enc_export(e), e@);
            crate::wasm::lemma_views_push(v@, e);
            assert(bytes@.subrange(start as int, np as int)
                =~= bytes@.subrange(start as int, cur as int)
                    + bytes@.subrange(cur as int, np as int));
        }
        v.push(e);
        cur = np;
        k = k + 1;
    }
    if cur != end {
        return Err(DecodeError::SectionSizeMismatch);
    }
    proof {
        assert(section_payload(SectionV::Export(views_of(v@)))
            =~= bytes@.subrange(pos as int, end as int)) by {
            assert(views_of(v@).len() == count as nat);
            assert(bytes@.subrange(pos as int, end as int)
                =~= bytes@.subrange(pos as int, start as int)
                    + bytes@.subrange(start as int, end as int));
        };
    }
    Ok(v)
}

/// Read a data section payload spanning exactly `pos..end`.
fn decode_data_section(bytes: &[u8], pos: usize, end: usize) -> (r: Result<
    Vec<DataSegment>,
    DecodeError,
>)
    requires
        pos <= end <= bytes@.len(),
    ensures
        match r {
            Ok(v) => section_payload(SectionV::Data(views_of(v@))) == bytes@.subrange(
                pos as int,
                end as int,
            ),
            Err(_) => true,
        },
{
    let blen: usize = bytes.len();
    let (count, n) = leb::decode_u32(bytes, pos)?;
    let start: usize = pos + n;
    let mut v: Vec<DataSegment> = Vec::new();
    let mut cur: usize = start;
    let mut k: u32 = 0;
    while k < count
        invariant
            start <= cur <= bytes@.len(),
            v@.len() == k as nat,
            k <= count,
            enc_all(views_of(v@), |d: DataSegmentV| enc_data(d)) == bytes@.subrange(
                start as int,
                cur as int,
            ),
        decreases count - k,
    {
        let (d, np) = decode_data_segment(bytes, cur)?;
        proof {
            lemma_enc_all_push(views_of(v@), |d: DataSegmentV| enc_data(d), d@);
            crate::wasm::lemma_views_push(v@, d);
            assert(bytes@.subrange(start as int, np as int)
                =~= bytes@.subrange(start as int, cur as int)
                    + bytes@.subrange(cur as int, np as int));
        }
        v.push(d);
        cur = np;
        k = k + 1;
    }
    if cur != end {
        return Err(DecodeError::SectionSizeMismatch);
    }
    proof {
        assert(section_payload(SectionV::Data(views_of(v@)))
            =~= bytes@.subrange(pos as int, end as int)) by {
            assert(views_of(v@).len() == count as nat);
            assert(bytes@.subrange(pos as int, end as int)
                =~= bytes@.subrange(pos as int, start as int)
                    + bytes@.subrange(start as int, end as int));
        };
    }
    Ok(v)
}

/// The well-formedness the reader establishes for a section: globals carry
/// initializers of their declared type.
pub open spec fn section_wf(s: SectionV) -> bool {
    match s {
        SectionV::Global(v) => forall|i: int|
            0 <= i < v.len() ==> init_matches(v[i].ty.value_type, #[trigger] v[i].init),
        SectionV::Opaque { id, .. } => id == 1 || id == 3 || id == 4 || id == 9 || id == 10,
        _ => true,
    }
}

/// Whether every section of the module is well formed.
pub open spec fn module_wf(m: Seq<SectionV>) -> bool {
    forall|i: int| 0 <= i < m.len() ==> section_wf(#[trigger] m[i])
}

/// Read one section (id byte, size, payload) at `pos`.
fn decode_section(bytes: &[u8], pos: usize) -> (r: Result<(Section, usize), DecodeError>)
    requires
        pos <= bytes@.len(),
    ensures
        match r {
            Ok((s, newpos)) => {
                &&& pos < newpos <= bytes@.len()
                &&& enc_section(s@) == bytes@.subrange(pos as int, newpos as int)
                &&& section_wf(s@)
            },
            Err(_) => true,
        },
{
    let blen: usize = bytes.len();
    if pos >= blen {
        return Err(DecodeError::UnexpectedEnd);
    }
    let id: u8 = bytes[pos];
    if id > 12 {
        return Err(DecodeError::BadTag);
    }
    let (size, n) = leb::decode_u32(bytes, pos + 1)?;
    let start: usize = pos + 1 + n;
    if (size as usize) > blen - start {
        return Err(DecodeError::UnexpectedEnd);
    }
    let end: usize = start + size as usize;
    let s: Section = if id == 0 {
        let (name, p1) = decode_name(bytes, start)?;
        if p1 > end {
            return Err(DecodeError::SectionSizeMismatch);
        }
        let data = copy_range(bytes, p1, end);
        let s = Section::Custom { name, data };
        proof {
            assert(section_payload(s@) =~= bytes@.subrange(start as int, end as int)) by {
                assert(bytes@.subrange(start as int, end as int)
                    =~= bytes@.subrange(start as int, p1 as int)
                        + bytes@.subrange(p1 as int, end as int));
            };
        }
        s
    } else if id == 2 {
        Section::Import(decode_import_section(bytes, start, end)?)
    } else if id == 5 {
        Section::Memory(decode_memory_section(bytes, start, end)?)
    } else if id == 6 {
        Section::Global(decode_global_section(bytes, start, end)?)
    } else if id == 7 {
        Section::Export(decode_export_section(bytes, start, end)?)
    } else if id == 8 {
        let (idx, m) = leb::decode_u32(bytes, start)?;
        if start + m != end {
            return Err(DecodeError::SectionSizeMismatch);
        }
        Section::Start(idx)
    } else if id == 11 {
        Section::Data(decode_data_section(bytes, start, end)?)
    } else if id == 12 {
        let (c, m) = leb::decode_u32(bytes, start)?;
        if start + m != end {
            return Err(DecodeError::SectionSizeMismatch);
        }
        Section::DataCount(c)
    } else {
        let data = copy_range(bytes, start, end);
        Section::Opaque { id, data }
    };
    proof {
        assert(section_payload(s@) == bytes@.subrange(start as int, end as int));
        assert(crate::wasm::section_id(s@) == id);
        assert(enc_section(s@) =~= bytes@.subrange(pos as int, end as int)) by {
            assert(section_payload(s@).len() == size as nat);
            assert(enc_u32(size as nat) == bytes@.subrange(pos + 1, start as int));
            assert(bytes@.subrange(pos as int, end as int)
                =~= seq![id] + bytes@.subrange(pos + 1, start as int)
                    + bytes@.subrange(start as int, end as int));
        };
    }
    Ok((s, end))
}

/// Read a whole module.
///
/// On success the returned module's encoding is exactly the input: writing it
/// back with the encoder reproduces the bytes. Anything the codec could not
/// reproduce byte-identically is refused with an error.
pub fn decode_module(bytes: &[u8]) -> (r: Result<WasmModule, DecodeError>)
    ensures
        match r {
            Ok(m) => {
                &&& enc_module(m@) == bytes@
                &&& module_wf(m@)
                &&& forall|mv: Seq<SectionV>|
                    #![trigger enc_module(mv)]
                    module_wf(mv) && enc_module(mv) == bytes@ ==> mv == m@
            },
            Err(_) => true,
        },
{
    if bytes.len() < 8 {
        return Err(DecodeError::BadMagic);
    }
    if !(bytes[0] == 0x00 && bytes[1] == 0x61 && bytes[2] == 0x73 && bytes[3] == 0x6D
        && bytes[4] == 0x01 && bytes[5] == 0x00 && bytes[6] == 0x00 && bytes[7] == 0x00) {
        return Err(DecodeError::BadMagic);
    }
    let mut sections: Vec<Section> = Vec::new();
    let mut pos: usize = 8;
    proof {
        assert(bytes@.subrange(0, 8) =~= magic());
    }
    while pos < bytes.len()
        invariant
            8 <= pos <= bytes@.len(),
            enc_all(views_of(sections@), |s: SectionV| enc_section(s)) == bytes@.subrange(
                8,
                pos as int,
            ),
            forall|i: int|
                0 <= i < sections@.len() ==> section_wf(#[trigger] views_of(sections@)[i]),
        decreases bytes@.len() - pos,
    {
        let (s, np) = decode_section(bytes, pos)?;
        proof {
            lemma_enc_all_push(views_of(sections@), |s: SectionV| enc_section(s), s@);
            crate::wasm::lemma_views_push(sections@, s);
            assert(bytes@.subrange(8, np as int)
                =~= bytes@.subrange(8, pos as int) + bytes@.subrange(pos as int, np as int));
        }
        sections.push(s);
        pos = np;
    }
    let m = WasmModule { sections };
    proof {
        assert(enc_module(m@) =~= bytes@) by {
            assert(bytes@ =~= bytes@.subrange(0, 8) + bytes@.subrange(8, bytes@.len() as int));
        };
        assert(module_wf(m@));
        assert forall|mv: Seq<SectionV>|
            #![trigger enc_module(mv)]
            module_wf(mv) && enc_module(mv) == bytes@ implies mv == m@ by {
            lemma_enc_module_injective(mv, m@);
        }
    }
    Ok(m)
}

/// A byte string determines a length-prefixed byte string and its extent.
proof fn lemma_name_det(bytes: Seq<u8>, p: int, a: Seq<u8>, b: Seq<u8>, n1: int, n2: int)
    requires
        0 <= p,
        0 <= n1,
        0 <= n2,
        p + n1 <= bytes.len(),
        p + n2 <= bytes.len(),
        enc_name(a) == bytes.subrange(p, p + n1),
        enc_name(b) == bytes.subrange(p, p + n2),
    ensures
        a == b,
        n1 == n2,
{
    let ka = enc_u32(a.len()).len() as int;
    let kb = enc_u32(b.len()).len() as int;
    assert(enc_name(a).len() == enc_u32(a.len()).len() + a.len());
    assert(enc_name(b).len() == enc_u32(b.len()).len() + b.len());
    assert(n1 == ka + a.len() && n2 == kb + b.len());
    assert(enc_u32(a.len()) =~= bytes.subrange(p, p + ka)) by {
        assert forall|i: int| 0 <= i < ka implies #[trigger] enc_u32(a.len())[i]
            == bytes.subrange(p, p + ka)[i] by {
            assert(enc_name(a)[i] == enc_u32(a.len())[i]);
        }
    };
    assert(enc_u32(b.len()) =~= bytes.subrange(p, p + kb)) by {
        assert forall|i: int| 0 <= i < kb implies #[trigger] enc_u32(b.len())[i]
            == bytes.subrange(p, p + kb)[i] by {
            assert(enc_name(b)[i] == enc_u32(b.len())[i]);
        }
    };
    crate::leb::lemma_enc_u32_det(bytes, p, a.len(), b.len(), ka, kb);
    assert(a =~= b) by {
        assert forall|i: int| 0 <= i < a.len() implies a[i] == b[i] by {
            assert(enc_name(a)[ka + i] == a[i]);
            assert(enc_name(b)[ka + i] == b[i]);
            assert(bytes.subrange(p, p + n1)[ka + i] == bytes.subrange(p, p + n2)[ka + i]);
        }
    };
}

/// A byte determines a value type.
proof fn lemma_vt_det(a: ValueType, b: ValueType)
    requires
        vt_byte(a) == vt_byte(b),
    ensures
        a == b,
{
}

/// A byte string determines memory or table limits and their extent.
proof fn lemma_limits_det(bytes: Seq<u8>, p: int, a: Limits, b: Limits, n1: int, n2: int)
    requires
        0 <= p,
        0 <= n1,
        0 <= n2,
        p + n1 <= bytes.len(),
        p + n2 <= bytes.len(),
        enc_limits(a) == bytes.subrange(p, p + n1),
        enc_limits(b) == bytes.subrange(p, p + n2),
    ensures
        a == b,
        n1 == n2,
{
    let fb = bytes[p];
    match (a.max, b.max) {
        (None, None) => {
            assert(enc_limits(a) == seq![0u8] + enc_u32(a.min as nat));
            assert(enc_limits(b) == seq![0u8] + enc_u32(b.min as nat));
            assert(enc_u32(a.min as nat) =~= bytes.subrange(p + 1, p + n1)) by {
                assert forall|i: int| 0 <= i < n1 - 1 implies #[trigger] enc_u32(
                    a.min as nat,
                )[i] == bytes.subrange(p + 1, p + n1)[i] by {
                    assert(enc_limits(a)[i + 1] == enc_u32(a.min as nat)[i]);
                }
            };
            assert(enc_u32(b.min as nat) =~= bytes.subrange(p + 1, p + n2)) by {
                assert forall|i: int| 0 <= i < n2 - 1 implies #[trigger] enc_u32(
                    b.min as nat,
                )[i] == bytes.subrange(p + 1, p + n2)[i] by {
                    assert(enc_limits(b)[i + 1] == enc_u32(b.min as nat)[i]);
                }
            };
            crate::leb::lemma_enc_u32_det(
                bytes,
                p + 1,
                a.min as nat,
                b.min as nat,
                n1 - 1,
                n2 - 1,
            );
        },
        (Some(am), Some(bm)) => {
            assert(enc_limits(a) == seq![1u8] + enc_u32(a.min as nat) + enc_u32(am as nat));
            assert(enc_limits(b) == seq![1u8] + enc_u32(b.min as nat) + enc_u32(bm as nat));
            let ka = enc_u32(a.min as nat).len() as int;
            let kb = enc_u32(b.min as nat).len() as int;
            assert(enc_limits(a).len() == 1 + ka + enc_u32(am as nat).len()) by {
                assert((seq![1u8] + enc_u32(a.min as nat)).len() == 1 + ka);
            };
            assert(enc_limits(b).len() == 1 + kb + enc_u32(bm as nat).len()) by {
                assert((seq![1u8] + enc_u32(b.min as nat)).len() == 1 + kb);
            };
            assert(n1 == 1 + ka + enc_u32(am as nat).len());
            assert(n2 == 1 + kb + enc_u32(bm as nat).len());
            assert(enc_u32(a.min as nat) =~= bytes.subrange(p + 1, p + 1 + ka)) by {
                assert forall|i: int| 0 <= i < ka implies #[trigger] enc_u32(a.min as nat)[i]
                    == bytes.subrange(p + 1, p + 1 + ka)[i] by {
                    assert(enc_limits(a)[i + 1] == enc_u32(a.min as nat)[i]);
                }
            };
            assert(enc_u32(b.min as nat) =~= bytes.subrange(p + 1, p + 1 + kb)) by {
                assert forall|i: int| 0 <= i < kb implies #[trigger] enc_u32(b.min as nat)[i]
                    == bytes.subrange(p + 1, p + 1 + kb)[i] by {
                    assert(enc_limits(b)[i + 1] == enc_u32(b.min as nat)[i]);
                }
            };
            crate::leb::lemma_enc_u32_det(bytes, p + 1, a.min as nat, b.min as nat, ka, kb);
            assert(enc_u32(am as nat) =~= bytes.subrange(p + 1 + ka, p + n1)) by {
                assert forall|i: int| 0 <= i < n1 - 1 - ka implies #[trigger] enc_u32(
                    am as nat,
                )[i] == bytes.subrange(p + 1 + ka, p + n1)[i] by {
                    assert(enc_limits(a)[1 + ka + i] == enc_u32(am as nat)[i]);
                }
            };
            assert(enc_u32(bm as nat) =~= bytes.subrange(p + 1 + ka, p + n2)) by {
                assert forall|i: int| 0 <= i < n2 - 1 - ka implies #[trigger] enc_u32(
                    bm as nat,
                )[i] == bytes.subrange(p + 1 + ka, p + n2)[i] by {
                    assert(enc_limits(b)[1 + ka + i] == enc_u32(bm as nat)[i]);
                }
            };
            crate::leb::lemma_enc_u32_det(
                bytes,
                p + 1 + ka,
                am as nat,
                bm as nat,
                n1 - 1 - ka,
                n2 - 1 - ka,
            );
        },
        (None, Some(bm)) => {
            assert(enc_limits(a) == seq![0u8] + enc_u32(a.min as nat));
            assert(enc_limits(b) == seq![1u8] + enc_u32(b.min as nat) + enc_u32(bm as nat));
            assert(enc_limits(a).len() == n1 && enc_limits(b).len() == n2);
            assert(n1 >= 1 && n2 >= 1);
            assert(enc_limits(a)[0] == 0u8 && enc_limits(b)[0] == 1u8);
            assert(enc_limits(a)[0] == bytes.subrange(p, p + n1)[0]);
            assert(enc_limits(b)[0] == bytes.subrange(p, p + n2)[0]);
            assert(bytes.subrange(p, p + n1)[0] == bytes[p]);
            assert(bytes.subrange(p, p + n2)[0] == bytes[p]);
            assert(false);
        },
        (Some(am), None) => {
            assert(enc_limits(a) == seq![1u8] + enc_u32(a.min as nat) + enc_u32(am as nat));
            assert(enc_limits(b) == seq![0u8] + enc_u32(b.min as nat));
            assert(enc_limits(a).len() == n1 && enc_limits(b).len() == n2);
            assert(n1 >= 1 && n2 >= 1);
            assert(enc_limits(a)[0] == 1u8 && enc_limits(b)[0] == 0u8);
            assert(enc_limits(a)[0] == bytes.subrange(p, p + n1)[0]);
            assert(enc_limits(b)[0] == bytes.subrange(p, p + n2)[0]);
            assert(bytes.subrange(p, p + n1)[0] == bytes[p]);
            assert(bytes.subrange(p, p + n2)[0] == bytes[p]);
            assert(false);
        },
    }
}

/// Two bytes determine a global type.
proof fn lemma_gt_det(bytes: Seq<u8>, p: int, a: GlobalType, b: GlobalType)
    requires
        0 <= p,
        p + 2 <= bytes.len(),
        enc_global_type(a) == bytes.subrange(p, p + 2),
        enc_global_type(b) == bytes.subrange(p, p + 2),
    ensures
        a == b,
{
    assert(vt_byte(a.value_type) == bytes[p] && vt_byte(b.value_type) == bytes[p]) by {
        assert(enc_global_type(a)[0] == vt_byte(a.value_type));
        assert(enc_global_type(b)[0] == vt_byte(b.value_type));
    };
    lemma_vt_det(a.value_type, b.value_type);
    assert(crate::wasm::mut_byte(a.mutability) == bytes[p + 1] && crate::wasm::mut_byte(
        b.mutability,
    ) == bytes[p + 1]) by {
        assert(enc_global_type(a)[1] == crate::wasm::mut_byte(a.mutability));
        assert(enc_global_type(b)[1] == crate::wasm::mut_byte(b.mutability));
    };
}

/// Fixed-width little-endian bytes determine the value below the width's
/// bound.
proof fn lemma_le_det(a: nat, b: nat, k: nat, lim: nat)
    requires
        le_bytes(a, k) == le_bytes(b, k),
        a < lim,
        b < lim,
        lim == vstd::arithmetic::power::pow(256, k),
    ensures
        a == b,
    decreases k,
{
    vstd::arithmetic::power::lemma_pow_positive(256, k);
    if k == 0 {
        vstd::arithmetic::power::lemma_pow0(256);
    } else {
        let pm1 = vstd::arithmetic::power::pow(256, (k - 1) as nat);
        assert(vstd::arithmetic::power::pow(256, k) == 256 * vstd::arithmetic::power::pow(
            256,
            (k - 1) as nat,
        )) by {
            vstd::arithmetic::power::lemma_pow_adds(256, 1, (k - 1) as nat);
            vstd::arithmetic::power::lemma_pow1(256);
        };
        vstd::arithmetic::power::lemma_pow_positive(256, (k - 1) as nat);
        lemma_le_len(a, k);
        lemma_le_len(b, k);
        lemma_le_len(a / 256, (k - 1) as nat);
        lemma_le_len(b / 256, (k - 1) as nat);
        assert(le_bytes(a, k) == seq![(a % 256) as u8] + le_bytes(a / 256, (k - 1) as nat));
        assert(le_bytes(b, k) == seq![(b % 256) as u8] + le_bytes(b / 256, (k - 1) as nat));
        assert(a % 256 == b % 256) by {
            assert(le_bytes(a, k)[0] == (a % 256) as u8);
            assert(le_bytes(b, k)[0] == (b % 256) as u8);
        };
        assert(le_bytes(a / 256, (k - 1) as nat) =~= le_bytes(b / 256, (k - 1) as nat)) by {
            assert forall|i: int| 0 <= i < le_bytes(a / 256, (k - 1) as nat).len() implies
                #[trigger] le_bytes(a / 256, (k - 1) as nat)[i] == le_bytes(
                b / 256,
                (k - 1) as nat,
            )[i] by {
                assert(le_bytes(a, k)[i + 1] == le_bytes(a / 256, (k - 1) as nat)[i]);
                assert(le_bytes(b, k)[i + 1] == le_bytes(b / 256, (k - 1) as nat)[i]);
            }
        };
        assert(a / 256 < pm1 && b / 256 < pm1) by (nonlinear_arith)
            requires
                a < 256 * pm1,
                b < 256 * pm1,
                pm1 > 0;
        lemma_le_det(a / 256, b / 256, (k - 1) as nat, pm1 as nat);
        assert(a == 256 * (a / 256) + a % 256 && b == 256 * (b / 256) + b % 256);
    }
}

/// The signed payloads of two constant instructions at one position agree.
proof fn lemma_init_sleb_det(bytes: Seq<u8>, p: int, x: int, y: int, n1: int, n2: int)
    requires
        0 <= p,
        0 <= n1,
        0 <= n2,
        p + n1 <= bytes.len(),
        p + n2 <= bytes.len(),
        seq![bytes[p]] + crate::leb::enc_s64(x) + seq![0x0Bu8] == bytes.subrange(p, p + n1),
        seq![bytes[p]] + crate::leb::enc_s64(y) + seq![0x0Bu8] == bytes.subrange(p, p + n2),
    ensures
        x == y,
        n1 == n2,
{
    let kx = crate::leb::enc_s64(x).len() as int;
    let ky = crate::leb::enc_s64(y).len() as int;
    assert((seq![bytes[p]] + crate::leb::enc_s64(x) + seq![0x0Bu8]).len() == kx + 2);
    assert((seq![bytes[p]] + crate::leb::enc_s64(y) + seq![0x0Bu8]).len() == ky + 2);
    assert(n1 == kx + 2 && n2 == ky + 2);
    assert(crate::leb::enc_s64(x) =~= bytes.subrange(p + 1, p + 1 + kx)) by {
        assert forall|i: int| 0 <= i < kx implies #[trigger] crate::leb::enc_s64(x)[i]
            == bytes.subrange(p + 1, p + 1 + kx)[i] by {
            assert((seq![bytes[p]] + crate::leb::enc_s64(x) + seq![0x0Bu8])[i + 1]
                == crate::leb::enc_s64(x)[i]);
        }
    };
    assert(crate::leb::enc_s64(y) =~= bytes.subrange(p + 1, p + 1 + ky)) by {
        assert forall|i: int| 0 <= i < ky implies #[trigger] crate::leb::enc_s64(y)[i]
            == bytes.subrange(p + 1, p + 1 + ky)[i] by {
            assert((seq![bytes[p]] + crate::leb::enc_s64(y) + seq![0x0Bu8])[i + 1]
                == crate::leb::enc_s64(y)[i]);
        }
    };
    crate::leb::lemma_enc_s64_det(bytes, p + 1, x, y, kx, ky);
}

/// The length of a little-endian byte string is its width.
proof fn lemma_le_len(v: nat, k: nat)
    ensures
        le_bytes(v, k).len() == k,
    decreases k,
{
    if k == 0 {
    } else {
        lemma_le_len(v / 256, (k - 1) as nat);
    }
}

/// Every constant initializer starts with its opcode and spans at least
/// three bytes.
proof fn lemma_init_first(e: InitExpr)
    ensures
        enc_init(e).len() >= 3,
        enc_init(e)[0] == (match e {
            InitExpr::I32Const(..) => 0x41u8,
            InitExpr::I64Const(..) => 0x42u8,
            InitExpr::F32Const(..) => 0x43u8,
            InitExpr::F64Const(..) => 0x44u8,
        }),
    decreases 1int,
{
    match e {
        InitExpr::I32Const(v) => {
            assert(crate::leb::enc_s64(v as int).len() >= 1) by {
                let lv = (v as int) % 128;
                let rv = ((v as int) - lv) / 128;
                if (rv == 0 && lv < 64) || (rv == -1 && lv >= 64) {
                }
            };
        },
        InitExpr::I64Const(v) => {
            assert(crate::leb::enc_s64(v as int).len() >= 1) by {
                let lv = (v as int) % 128;
                let rv = ((v as int) - lv) / 128;
                if (rv == 0 && lv < 64) || (rv == -1 && lv >= 64) {
                }
            };
        },
        InitExpr::F32Const(b) => {
            lemma_le_len(b as nat, 4);
        },
        InitExpr::F64Const(b) => {
            lemma_le_len(b as nat, 8);
        },
    }
}

/// A byte string determines a constant initializer and its extent.
proof fn lemma_init_det(bytes: Seq<u8>, p: int, a: InitExpr, b: InitExpr, n1: int, n2: int)
    requires
        0 <= p,
        0 <= n1,
        0 <= n2,
        p + n1 <= bytes.len(),
        p + n2 <= bytes.len(),
        enc_init(a) == bytes.subrange(p, p + n1),
        enc_init(b) == bytes.subrange(p, p + n2),
    ensures
        a == b,
        n1 == n2,
{
    let fb = bytes[p];
    lemma_init_first(a);
    lemma_init_first(b);
    assert(enc_init(a)[0] == fb) by {
        assert(enc_init(a)[0] == bytes.subrange(p, p + n1)[0]);
    };
    assert(enc_init(b)[0] == fb) by {
        assert(enc_init(b)[0] == bytes.subrange(p, p + n2)[0]);
    };
    match (a, b) {
        (InitExpr::I32Const(x), InitExpr::I32Const(y)) => {
            lemma_init_sleb_det(bytes, p, x as int, y as int, n1, n2);
        },
        (InitExpr::I64Const(x), InitExpr::I64Const(y)) => {
            lemma_init_sleb_det(bytes, p, x as int, y as int, n1, n2);
        },
        (InitExpr::F32Const(x), InitExpr::F32Const(y)) => {
            lemma_le_len(x as nat, 4);
            lemma_le_len(y as nat, 4);
            assert(enc_init(a).len() == 6 && enc_init(b).len() == 6);
            assert(n1 == 6 && n2 == 6);
            assert(le_bytes(x as nat, 4) =~= le_bytes(y as nat, 4)) by {
                assert forall|i: int| 0 <= i < 4 implies #[trigger] le_bytes(x as nat, 4)[i]
                    == le_bytes(y as nat, 4)[i] by {
                    assert(enc_init(a)[i + 1] == le_bytes(x as nat, 4)[i]);
                    assert(enc_init(b)[i + 1] == le_bytes(y as nat, 4)[i]);
                    assert(bytes.subrange(p, p + 6)[i + 1] == bytes[p + 1 + i]);
                }
            };
            assert(vstd::arithmetic::power::pow(256, 4) == 0x1_0000_0000) by {
                vstd::arithmetic::power::lemma_pow0(256);
                assert(vstd::arithmetic::power::pow(256, 1) == 256) by {
                    vstd::arithmetic::power::lemma_pow1(256);
                };
                assert(vstd::arithmetic::power::pow(256, 2) == 0x1_0000) by {
                    vstd::arithmetic::power::lemma_pow_adds(256, 1, 1);
                    vstd::arithmetic::power::lemma_pow1(256);
                };
                assert(vstd::arithmetic::power::pow(256, 3) == 0x100_0000) by {
                    vstd::arithmetic::power::lemma_pow_adds(256, 1, 2);
                    vstd::arithmetic::power::lemma_pow1(256);
                };
                assert(vstd::arithmetic::power::pow(256, 4) == 0x1_0000_0000) by {
                    vstd::arithmetic::power::lemma_pow_adds(256, 1, 3);
                    vstd::arithmetic::power::lemma_pow1(256);
                };
            };
            lemma_le_det(x as nat, y as nat, 4, 0x1_0000_0000);
        },
        (InitExpr::F64Const(x), InitExpr::F64Const(y)) => {
            lemma_le_len(x as nat, 8);
            lemma_le_len(y as nat, 8);
            assert(enc_init(a).len() == 10 && enc_init(b).len() == 10);
            assert(n1 == 10 && n2 == 10);
            assert(le_bytes(x as nat, 8) =~= le_bytes(y as nat, 8)) by {
                assert forall|i: int| 0 <= i < 8 implies #[trigger] le_bytes(x as nat, 8)[i]
                    == le_bytes(y as nat, 8)[i] by {
                    assert(enc_init(a)[i + 1] == le_bytes(x as nat, 8)[i]);
                    assert(enc_init(b)[i + 1] == le_bytes(y as nat, 8)[i]);
                    assert(bytes.subrange(p, p + 10)[i + 1] == bytes[p + 1 + i]);
                }
            };
            assert(vstd::arithmetic::power::pow(256, 8) == 0x1_0000_0000_0000_0000) by {
                vstd::arithmetic::power::lemma_pow0(256);
                assert(vstd::arithmetic::power::pow(256, 1) == 256) by {
                    vstd::arithmetic::power::lemma_pow1(256);
                };
                assert(vstd::arithmetic::power::pow(256, 2) == 0x1_0000) by {
                    vstd::arithmetic::power::lemma_pow_adds(256, 1, 1);
                    vstd::arithmetic::power::lemma_pow1(256);
                };
                assert(vstd::arithmetic::power::pow(256, 3) == 0x100_0000) by {
                    vstd::arithmetic::power::lemma_pow_adds(256, 1, 2);
                    vstd::arithmetic::power::lemma_pow1(256);
                };
                assert(vstd::arithmetic::power::pow(256, 4) == 0x1_0000_0000) by {
                    vstd::arithmetic::power::lemma_pow_adds(256, 1, 3);
                    vstd::arithmetic::power::lemma_pow1(256);
                };
                assert(vstd::arithmetic::power::pow(256, 5) == 0x100_0000_0000) by {
                    vstd::arithmetic::power::lemma_pow_adds(256, 1, 4);
                    vstd::arithmetic::power::lemma_pow1(256);
                };
                assert(vstd::arithmetic::power::pow(256, 6) == 0x1_0000_0000_0000) by {
                    vstd::arithmetic::power::lemma_pow_adds(256, 1, 5);
                    vstd::arithmetic::power::lemma_pow1(256);
                };
                assert(vstd::arithmetic::power::pow(256, 7) == 0x100_0000_0000_0000) by {
                    vstd::arithmetic::power::lemma_pow_adds(256, 1, 6);
                    vstd::arithmetic::power::lemma_pow1(256);
                };
                assert(vstd::arithmetic::power::pow(256, 8) == 0x1_0000_0000_0000_0000) by {
                    vstd::arithmetic::power::lemma_pow_adds(256, 1, 7);
                    vstd::arithmetic::power::lemma_pow1(256);
                };
            };
            lemma_le_det(x as nat, y as nat, 8, 0x1_0000_0000_0000_0000);
        },
        _ => {
            assert(false);
        },
    }
}

/// A component of a byte string occupies its own subrange.
proof fn lemma_sub_at(bytes: Seq<u8>, p: int, n: int, w: Seq<u8>, off: int, part: Seq<u8>)
    requires
        0 <= p,
        0 <= n,
        p + n <= bytes.len(),
        w == bytes.subrange(p, p + n),
        0 <= off,
        off + part.len() <= n,
        forall|i: int| 0 <= i < part.len() ==> part[i] == w[off + i],
    ensures
        part == bytes.subrange(p + off, p + off + part.len()),
{
    assert(part =~= bytes.subrange(p + off, p + off + part.len())) by {
        assert forall|i: int| 0 <= i < part.len() implies part[i] == bytes.subrange(
            p + off,
            p + off + part.len(),
        )[i] by {
            assert(part[i] == w[off + i]);
            assert(w[off + i] == bytes.subrange(p, p + n)[off + i]);
        }
    };
}

/// Every import descriptor starts with its tag byte.
proof fn lemma_desc_first(d: ImportDesc)
    ensures
        crate::wasm::enc_import_desc(d).len() >= 1,
        crate::wasm::enc_import_desc(d)[0] == (match d {
            ImportDesc::Func(..) => 0u8,
            ImportDesc::Table(..) => 1u8,
            ImportDesc::Mem(..) => 2u8,
            ImportDesc::Global(..) => 3u8,
        }),
{
    match d {
        ImportDesc::Func(..) => {},
        ImportDesc::Table(..) => {},
        ImportDesc::Mem(..) => {},
        ImportDesc::Global(..) => {},
    }
}

/// A byte string determines an import descriptor and its extent.
proof fn lemma_desc_det(bytes: Seq<u8>, p: int, a: ImportDesc, b: ImportDesc, n1: int, n2: int)
    requires
        0 <= p,
        0 <= n1,
        0 <= n2,
        p + n1 <= bytes.len(),
        p + n2 <= bytes.len(),
        crate::wasm::enc_import_desc(a) == bytes.subrange(p, p + n1),
        crate::wasm::enc_import_desc(b) == bytes.subrange(p, p + n2),
    ensures
        a == b,
        n1 == n2,
{
    lemma_desc_first(a);
    lemma_desc_first(b);
    assert(crate::wasm::enc_import_desc(a).len() == n1 && crate::wasm::enc_import_desc(b).len() == n2);
    assert(crate::wasm::enc_import_desc(a)[0] == bytes[p]) by {
        assert(crate::wasm::enc_import_desc(a)[0] == bytes.subrange(p, p + n1)[0]);
    };
    assert(crate::wasm::enc_import_desc(b)[0] == bytes[p]) by {
        assert(crate::wasm::enc_import_desc(b)[0] == bytes.subrange(p, p + n2)[0]);
    };
    match (a, b) {
        (ImportDesc::Func(x), ImportDesc::Func(y)) => {
            lemma_sub_at(bytes, p, n1, crate::wasm::enc_import_desc(a), 1, enc_u32(x as nat));
            lemma_sub_at(bytes, p, n2, crate::wasm::enc_import_desc(b), 1, enc_u32(y as nat));
            crate::leb::lemma_enc_u32_det(
                bytes,
                p + 1,
                x as nat,
                y as nat,
                n1 - 1,
                n2 - 1,
            );
        },
        (ImportDesc::Table(x), ImportDesc::Table(y)) => {
            assert(crate::wasm::enc_import_desc(a)[1] == vt_byte(x.element));
            assert(crate::wasm::enc_import_desc(b)[1] == vt_byte(y.element));
            assert(crate::wasm::enc_import_desc(a)[1] == bytes.subrange(p, p + n1)[1]);
            assert(crate::wasm::enc_import_desc(b)[1] == bytes.subrange(p, p + n2)[1]);
            lemma_vt_det(x.element, y.element);
            lemma_sub_at(bytes, p, n1, crate::wasm::enc_import_desc(a), 2, enc_limits(x.limits));
            lemma_sub_at(bytes, p, n2, crate::wasm::enc_import_desc(b), 2, enc_limits(y.limits));
            lemma_limits_det(bytes, p + 2, x.limits, y.limits, n1 - 2, n2 - 2);
        },
        (ImportDesc::Mem(x), ImportDesc::Mem(y)) => {
            lemma_sub_at(bytes, p, n1, crate::wasm::enc_import_desc(a), 1, enc_limits(x));
            lemma_sub_at(bytes, p, n2, crate::wasm::enc_import_desc(b), 1, enc_limits(y));
            lemma_limits_det(bytes, p + 1, x, y, n1 - 1, n2 - 1);
        },
        (ImportDesc::Global(x), ImportDesc::Global(y)) => {
            lemma_sub_at(bytes, p, n1, crate::wasm::enc_import_desc(a), 1, enc_global_type(x));
            lemma_sub_at(bytes, p, n2, crate::wasm::enc_import_desc(b), 1, enc_global_type(y));
            lemma_gt_det(bytes, p + 1, x, y);
        },
        _ => {
            assert(false);
        },
    }
}

/// A byte string determines an import entry and its extent.
proof fn lemma_import_det(bytes: Seq<u8>, p: int, a: ImportV, b: ImportV, n1: int, n2: int)
    requires
        0 <= p,
        0 <= n1,
        0 <= n2,
        p + n1 <= bytes.len(),
        p + n2 <= bytes.len(),
        enc_import(a) == bytes.subrange(p, p + n1),
        enc_import(b) == bytes.subrange(p, p + n2),
    ensures
        a == b,
        n1 == n2,
{
    assert(enc_import(a).len() == n1 && enc_import(b).len() == n2);
    let ma = enc_name(a.module).len() as int;
    let mb = enc_name(b.module).len() as int;
    lemma_sub_at(bytes, p, n1, enc_import(a), 0, enc_name(a.module));
    lemma_sub_at(bytes, p, n2, enc_import(b), 0, enc_name(b.module));
    lemma_name_det(bytes, p, a.module, b.module, ma, mb);
    let na = enc_name(a.name).len() as int;
    let nb = enc_name(b.name).len() as int;
    lemma_sub_at(bytes, p, n1, enc_import(a), ma, enc_name(a.name));
    lemma_sub_at(bytes, p, n2, enc_import(b), ma, enc_name(b.name));
    lemma_name_det(bytes, p + ma, a.name, b.name, na, nb);
    lemma_sub_at(bytes, p, n1, enc_import(a), ma + na, crate::wasm::enc_import_desc(a.desc));
    lemma_sub_at(bytes, p, n2, enc_import(b), ma + na, crate::wasm::enc_import_desc(b.desc));
    lemma_desc_det(
        bytes,
        p + ma + na,
        a.desc,
        b.desc,
        n1 - ma - na,
        n2 - ma - na,
    );
    assert(a =~= b);
}

/// A byte string determines an export entry and its extent.
proof fn lemma_export_det(bytes: Seq<u8>, p: int, a: ExportV, b: ExportV, n1: int, n2: int)
    requires
        0 <= p,
        0 <= n1,
        0 <= n2,
        p + n1 <= bytes.len(),
        p + n2 <= bytes.len(),
        enc_export(a) == bytes.subrange(p, p + n1),
        enc_export(b) == bytes.subrange(p, p + n2),
    ensures
        a == b,
        n1 == n2,
{
    assert(enc_export(a).len() == n1 && enc_export(b).len() == n2);
    let ma = enc_name(a.name).len() as int;
    let mb = enc_name(b.name).len() as int;
    lemma_sub_at(bytes, p, n1, enc_export(a), 0, enc_name(a.name));
    lemma_sub_at(bytes, p, n2, enc_export(b), 0, enc_name(b.name));
    lemma_name_det(bytes, p, a.name, b.name, ma, mb);
    let tag_a: u8 = match a.desc {
        ExportDesc::Func(..) => 0,
        ExportDesc::Table(..) => 1,
        ExportDesc::Mem(..) => 2,
        ExportDesc::Global(..) => 3,
    };
    let tag_b: u8 = match b.desc {
        ExportDesc::Func(..) => 0,
        ExportDesc::Table(..) => 1,
        ExportDesc::Mem(..) => 2,
        ExportDesc::Global(..) => 3,
    };
    let xa: u32 = match a.desc {
        ExportDesc::Func(i) => i,
        ExportDesc::Table(i) => i,
        ExportDesc::Mem(i) => i,
        ExportDesc::Global(i) => i,
    };
    let xb: u32 = match b.desc {
        ExportDesc::Func(i) => i,
        ExportDesc::Table(i) => i,
        ExportDesc::Mem(i) => i,
        ExportDesc::Global(i) => i,
    };
    assert(crate::wasm::enc_export_desc(a.desc) == seq![tag_a] + enc_u32(xa as nat));
    assert(crate::wasm::enc_export_desc(b.desc) == seq![tag_b] + enc_u32(xb as nat));
    assert(tag_a == bytes[p + ma] && tag_b == bytes[p + ma]) by {
        assert(enc_export(a)[ma] == crate::wasm::enc_export_desc(a.desc)[0]);
        assert(enc_export(b)[ma] == crate::wasm::enc_export_desc(b.desc)[0]);
        assert(enc_export(a)[ma] == bytes.subrange(p, p + n1)[ma]);
        assert(enc_export(b)[ma] == bytes.subrange(p, p + n2)[ma]);
    };
    lemma_sub_at(bytes, p, n1, enc_export(a), ma + 1, enc_u32(xa as nat));
    lemma_sub_at(bytes, p, n2, enc_export(b), ma + 1, enc_u32(xb as nat));
    crate::leb::lemma_enc_u32_det(
        bytes,
        p + ma + 1,
        xa as nat,
        xb as nat,
        n1 - ma - 1,
        n2 - ma - 1,
    );
    assert(a =~= b);
}

/// A byte string determines a global declaration and its extent.
proof fn lemma_global_det(bytes: Seq<u8>, p: int, a: GlobalDecl, b: GlobalDecl, n1: int, n2: int)
    requires
        0 <= p,
        0 <= n1,
        0 <= n2,
        p + n1 <= bytes.len(),
        p + n2 <= bytes.len(),
        enc_global(a) == bytes.subrange(p, p + n1),
        enc_global(b) == bytes.subrange(p, p + n2),
    ensures
        a == b,
        n1 == n2,
{
    assert(enc_global(a).len() == n1 && enc_global(b).len() == n2);
    lemma_sub_at(bytes, p, n1, enc_global(a), 0, enc_global_type(a.ty));
    lemma_sub_at(bytes, p, n2, enc_global(b), 0, enc_global_type(b.ty));
    lemma_gt_det(bytes, p, a.ty, b.ty);
    lemma_sub_at(bytes, p, n1, enc_global(a), 2, enc_init(a.init));
    lemma_sub_at(bytes, p, n2, enc_global(b), 2, enc_init(b.init));
    lemma_init_det(bytes, p + 2, a.init, b.init, n1 - 2, n2 - 2);
}

/// A byte string determines a data segment and its extent.
proof fn lemma_data_det(bytes: Seq<u8>, p: int, a: DataSegmentV, b: DataSegmentV, n1: int, n2: int)
    requires
        0 <= p,
        0 <= n1,
        0 <= n2,
        p + n1 <= bytes.len(),
        p + n2 <= bytes.len(),
        enc_data(a) == bytes.subrange(p, p + n1),
        enc_data(b) == bytes.subrange(p, p + n2),
    ensures
        a == b,
        n1 == n2,
{
    assert(enc_data(a).len() == n1 && enc_data(b).len() == n2);
    assert(enc_u32(0) == seq![0u8]);
    let ka = crate::leb::enc_s64(a.offset as int).len() as int;
    let kb = crate::leb::enc_s64(b.offset as int).len() as int;
    lemma_sub_at(bytes, p, n1, enc_data(a), 2, crate::leb::enc_s64(a.offset as int));
    lemma_sub_at(bytes, p, n2, enc_data(b), 2, crate::leb::enc_s64(b.offset as int));
    crate::leb::lemma_enc_s64_det(
        bytes,
        p + 2,
        a.offset as int,
        b.offset as int,
        ka,
        kb,
    );
    lemma_sub_at(bytes, p, n1, enc_data(a), 2 + ka + 1, enc_name(a.bytes));
    lemma_sub_at(bytes, p, n2, enc_data(b), 2 + ka + 1, enc_name(b.bytes));
    lemma_name_det(
        bytes,
        p + 2 + ka + 1,
        a.bytes,
        b.bytes,
        n1 - 2 - ka - 1,
        n2 - 2 - ka - 1,
    );
    assert(a =~= b);
}

/// Equal byte strings hold equal import lists of equal length.
proof fn lemma_items_det_import(bytes: Seq<u8>, p: int, a: Seq<ImportV>, b: Seq<ImportV>, n: int)
    requires
        0 <= p,
        0 <= n,
        p + n <= bytes.len(),
        a.len() == b.len(),
        enc_all(a, |i: ImportV| enc_import(i)) == bytes.subrange(p, p + n),
        enc_all(b, |i: ImportV| enc_import(i)) == bytes.subrange(p, p + n),
    ensures
        a == b,
    decreases a.len(),
{
    let f = |i: ImportV| enc_import(i);
    if a.len() == 0 {
        assert(a =~= b);
    } else {
        assert(enc_all(a, f) == enc_import(a[0]) + enc_all(a.drop_first(), f));
        assert(enc_all(b, f) == enc_import(b[0]) + enc_all(b.drop_first(), f));
        let ka = enc_import(a[0]).len() as int;
        let kb = enc_import(b[0]).len() as int;
        lemma_sub_at(bytes, p, n, enc_all(a, f), 0, enc_import(a[0]));
        lemma_sub_at(bytes, p, n, enc_all(b, f), 0, enc_import(b[0]));
        lemma_import_det(bytes, p, a[0], b[0], ka, kb);
        lemma_sub_at(bytes, p, n, enc_all(a, f), ka, enc_all(a.drop_first(), f));
        lemma_sub_at(bytes, p, n, enc_all(b, f), ka, enc_all(b.drop_first(), f));
        lemma_items_det_import(bytes, p + ka, a.drop_first(), b.drop_first(), n - ka);
        assert(a =~= b) by {
            assert(a.drop_first() =~= b.drop_first());
            assert forall|i: int| 0 <= i < a.len() implies a[i] == b[i] by {
                if i > 0 {
                    assert(a.drop_first()[i - 1] == a[i]);
                    assert(b.drop_first()[i - 1] == b[i]);
                }
            }
        };
    }
}

/// Equal byte strings hold equal export lists of equal length.
proof fn lemma_items_det_export(bytes: Seq<u8>, p: int, a: Seq<ExportV>, b: Seq<ExportV>, n: int)
    requires
        0 <= p,
        0 <= n,
        p + n <= bytes.len(),
        a.len() == b.len(),
        enc_all(a, |e: ExportV| enc_export(e)) == bytes.subrange(p, p + n),
        enc_all(b, |e: ExportV| enc_export(e)) == bytes.subrange(p, p + n),
    ensures
        a == b,
    decreases a.len(),
{
    let f = |e: ExportV| enc_export(e);
    if a.len() == 0 {
        assert(a =~= b);
    } else {
        assert(enc_all(a, f) == enc_export(a[0]) + enc_all(a.drop_first(), f));
        assert(enc_all(b, f) == enc_export(b[0]) + enc_all(b.drop_first(), f));
        let ka = enc_export(a[0]).len() as int;
        let kb = enc_export(b[0]).len() as int;
        lemma_sub_at(bytes, p, n, enc_all(a, f), 0, enc_export(a[0]));
        lemma_sub_at(bytes, p, n, enc_all(b, f), 0, enc_export(b[0]));
        lemma_export_det(bytes, p, a[0], b[0], ka, kb);
        lemma_sub_at(bytes, p, n, enc_all(a, f), ka, enc_all(a.drop_first(), f));
        lemma_sub_at(bytes, p, n, enc_all(b, f), ka, enc_all(b.drop_first(), f));
        lemma_items_det_export(bytes, p + ka, a.drop_first(), b.drop_first(), n - ka);
        assert(a =~= b) by {
            assert(a.drop_first() =~= b.drop_first());
            assert forall|i: int| 0 <= i < a.len() implies a[i] == b[i] by {
                if i > 0 {
                    assert(a.drop_first()[i - 1] == a[i]);
                    assert(b.drop_first()[i - 1] == b[i]);
                }
            }
        };
    }
}

/// Equal byte strings hold equal global lists of equal length.
proof fn lemma_items_det_global(
    bytes: Seq<u8>,
    p: int,
    a: Seq<GlobalDecl>,
    b: Seq<GlobalDecl>,
    n: int,
)
    requires
        0 <= p,
        0 <= n,
        p + n <= bytes.len(),
        a.len() == b.len(),
        enc_all(a, |g: GlobalDecl| enc_global(g)) == bytes.subrange(p, p + n),
        enc_all(b, |g: GlobalDecl| enc_global(g)) == bytes.subrange(p, p + n),
    ensures
        a == b,
    decreases a.len(),
{
    let f = |g: GlobalDecl| enc_global(g);
    if a.len() == 0 {
        assert(a =~= b);
    } else {
        assert(enc_all(a, f) == enc_global(a[0]) + enc_all(a.drop_first(), f));
        assert(enc_all(b, f) == enc_global(b[0]) + enc_all(b.drop_first(), f));
        let ka = enc_global(a[0]).len() as int;
        let kb = enc_global(b[0]).len() as int;
        lemma_sub_at(bytes, p, n, enc_all(a, f), 0, enc_global(a[0]));
        lemma_sub_at(bytes, p, n, enc_all(b, f), 0, enc_global(b[0]));
        lemma_global_det(bytes, p, a[0], b[0], ka, kb);
        lemma_sub_at(bytes, p, n, enc_all(a, f), ka, enc_all(a.drop_first(), f));
        lemma_sub_at(bytes, p, n, enc_all(b, f), ka, enc_all(b.drop_first(), f));
        lemma_items_det_global(bytes, p + ka, a.drop_first(), b.drop_first(), n - ka);
        assert(a =~= b) by {
            assert(a.drop_first() =~= b.drop_first());
            assert forall|i: int| 0 <= i < a.len() implies a[i] == b[i] by {
                if i > 0 {
                    assert(a.drop_first()[i - 1] == a[i]);
                    assert(b.drop_first()[i - 1] == b[i]);
                }
            }
        };
    }
}

/// Equal byte strings hold equal limits lists of equal length.
proof fn lemma_items_det_limits(bytes: Seq<u8>, p: int, a: Seq<Limits>, b: Seq<Limits>, n: int)
    requires
        0 <= p,
        0 <= n,
        p + n <= bytes.len(),
        a.len() == b.len(),
        enc_all(a, |l: Limits| enc_limits(l)) == bytes.subrange(p, p + n),
        enc_all(b, |l: Limits| enc_limits(l)) == bytes.subrange(p, p + n),
    ensures
        a == b,
    decreases a.len(),
{
    let f = |l: Limits| enc_limits(l);
    if a.len() == 0 {
        assert(a =~= b);
    } else {
        assert(enc_all(a, f) == enc_limits(a[0]) + enc_all(a.drop_first(), f));
        assert(enc_all(b, f) == enc_limits(b[0]) + enc_all(b.drop_first(), f));
        let ka = enc_limits(a[0]).len() as int;
        let kb = enc_limits(b[0]).len() as int;
        lemma_sub_at(bytes, p, n, enc_all(a, f), 0, enc_limits(a[0]));
        lemma_sub_at(bytes, p, n, enc_all(b, f), 0, enc_limits(b[0]));
        lemma_limits_det(bytes, p, a[0], b[0], ka, kb);
        lemma_sub_at(bytes, p, n, enc_all(a, f), ka, enc_all(a.drop_first(), f));
        lemma_sub_at(bytes, p, n, enc_all(b, f), ka, enc_all(b.drop_first(), f));
        lemma_items_det_limits(bytes, p + ka, a.drop_first(), b.drop_first(), n - ka);
        assert(a =~= b) by {
            assert(a.drop_first() =~= b.drop_first());
            assert forall|i: int| 0 <= i < a.len() implies a[i] == b[i] by {
                if i > 0 {
                    assert(a.drop_first()[i - 1] == a[i]);
                    assert(b.drop_first()[i - 1] == b[i]);
                }
            }
        };
    }
}

/// Equal byte strings hold equal data-segment lists of equal length.
proof fn lemma_items_det_data(
    bytes: Seq<u8>,
    p: int,
    a: Seq<DataSegmentV>,
    b: Seq<DataSegmentV>,
    n: int,
)
    requires
        0 <= p,
        0 <= n,
        p + n <= bytes.len(),
        a.len() == b.len(),
        enc_all(a, |d: DataSegmentV| enc_data(d)) == bytes.subrange(p, p + n),
        enc_all(b, |d: DataSegmentV| enc_data(d)) == bytes.subrange(p, p + n),
    ensures
        a == b,
    decreases a.len(),
{
    let f = |d: DataSegmentV| enc_data(d);
    if a.len() == 0 {
        assert(a =~= b);
    } else {
        assert(enc_all(a, f) == enc_data(a[0]) + enc_all(a.drop_first(), f));
        assert(enc_all(b, f) == enc_data(b[0]) + enc_all(b.drop_first(), f));
        let ka = enc_data(a[0]).len() as int;
        let kb = enc_data(b[0]).len() as int;
        lemma_sub_at(bytes, p, n, enc_all(a, f), 0, enc_data(a[0]));
        lemma_sub_at(bytes, p, n, enc_all(b, f), 0, enc_data(b[0]));
        lemma_data_det(bytes, p, a[0], b[0], ka, kb);
        lemma_sub_at(bytes, p, n, enc_all(a, f), ka, enc_all(a.drop_first(), f));
        lemma_sub_at(bytes, p, n, enc_all(b, f), ka, enc_all(b.drop_first(), f));
        lemma_items_det_data(bytes, p + ka, a.drop_first(), b.drop_first(), n - ka);
        assert(a =~= b) by {
            assert(a.drop_first() =~= b.drop_first());
            assert forall|i: int| 0 <= i < a.len() implies a[i] == b[i] by {
                if i > 0 {
                    assert(a.drop_first()[i - 1] == a[i]);
                    assert(b.drop_first()[i - 1] == b[i]);
                }
            }
        };
    }
}

/// Equal payload bytes under one section id mean equal sections.
proof fn lemma_payload_det(bytes: Seq<u8>, p: int, n: int, s1: SectionV, s2: SectionV)
    requires
        0 <= p,
        0 <= n,
        p + n <= bytes.len(),
        section_payload(s1) == bytes.subrange(p, p + n),
        section_payload(s2) == bytes.subrange(p, p + n),
        crate::wasm::section_id(s1) == crate::wasm::section_id(s2),
        section_wf(s1),
        section_wf(s2),
    ensures
        s1 == s2,
{
    assert(section_payload(s1).len() == n && section_payload(s2).len() == n);
    match (s1, s2) {
        (SectionV::Custom { name: na, data: da }, SectionV::Custom { name: nb, data: db }) => {
            let ka = enc_name(na).len() as int;
            let kb = enc_name(nb).len() as int;
            lemma_sub_at(bytes, p, n, section_payload(s1), 0, enc_name(na));
            lemma_sub_at(bytes, p, n, section_payload(s2), 0, enc_name(nb));
            lemma_name_det(bytes, p, na, nb, ka, kb);
            lemma_sub_at(bytes, p, n, section_payload(s1), ka, da);
            lemma_sub_at(bytes, p, n, section_payload(s2), ka, db);
            assert(da == bytes.subrange(p + ka, p + ka + da.len()));
            assert(db == bytes.subrange(p + ka, p + ka + db.len()));
            assert(da.len() == n - ka && db.len() == n - ka);
        },
        (SectionV::Import(a), SectionV::Import(b)) => {
            let f = |i: ImportV| enc_import(i);
            let ka = enc_u32(a.len()).len() as int;
            let kb = enc_u32(b.len()).len() as int;
            lemma_sub_at(bytes, p, n, section_payload(s1), 0, enc_u32(a.len()));
            lemma_sub_at(bytes, p, n, section_payload(s2), 0, enc_u32(b.len()));
            crate::leb::lemma_enc_u32_det(bytes, p, a.len(), b.len(), ka, kb);
            lemma_sub_at(bytes, p, n, section_payload(s1), ka, enc_all(a, f));
            lemma_sub_at(bytes, p, n, section_payload(s2), ka, enc_all(b, f));
            lemma_items_det_import(bytes, p + ka, a, b, n - ka);
        },
        (SectionV::Memory(a), SectionV::Memory(b)) => {
            let f = |l: Limits| enc_limits(l);
            let ka = enc_u32(a.len()).len() as int;
            let kb = enc_u32(b.len()).len() as int;
            lemma_sub_at(bytes, p, n, section_payload(s1), 0, enc_u32(a.len()));
            lemma_sub_at(bytes, p, n, section_payload(s2), 0, enc_u32(b.len()));
            crate::leb::lemma_enc_u32_det(bytes, p, a.len(), b.len(), ka, kb);
            lemma_sub_at(bytes, p, n, section_payload(s1), ka, enc_all(a, f));
            lemma_sub_at(bytes, p, n, section_payload(s2), ka, enc_all(b, f));
            lemma_items_det_limits(bytes, p + ka, a, b, n - ka);
        },
        (SectionV::Global(a), SectionV::Global(b)) => {
            let f = |g: GlobalDecl| enc_global(g);
            let ka = enc_u32(a.len()).len() as int;
            let kb = enc_u32(b.len()).len() as int;
            lemma_sub_at(bytes, p, n, section_payload(s1), 0, enc_u32(a.len()));
            lemma_sub_at(bytes, p, n, section_payload(s2), 0, enc_u32(b.len()));
            crate::leb::lemma_enc_u32_det(bytes, p, a.len(), b.len(), ka, kb);
            lemma_sub_at(bytes, p, n, section_payload(s1), ka, enc_all(a, f));
            lemma_sub_at(bytes, p, n, section_payload(s2), ka, enc_all(b, f));
            lemma_items_det_global(bytes, p + ka, a, b, n - ka);
        },
        (SectionV::Export(a), SectionV::Export(b)) => {
            let f = |e: ExportV| enc_export(e);
            let ka = enc_u32(a.len()).len() as int;
            let kb = enc_u32(b.len()).len() as int;
            lemma_sub_at(bytes, p, n, section_payload(s1), 0, enc_u32(a.len()));
            lemma_sub_at(bytes, p, n, section_payload(s2), 0, enc_u32(b.len()));
            crate::leb::lemma_enc_u32_det(bytes, p, a.len(), b.len(), ka, kb);
            lemma_sub_at(bytes, p, n, section_payload(s1), ka, enc_all(a, f));
            lemma_sub_at(bytes, p, n, section_payload(s2), ka, enc_all(b, f));
            lemma_items_det_export(bytes, p + ka, a, b, n - ka);
        },
        (SectionV::Start(a), SectionV::Start(b)) => {
            crate::leb::lemma_enc_u32_det(bytes, p, a as nat, b as nat, n, n);
        },
        (SectionV::Data(a), SectionV::Data(b)) => {
            let f = |d: DataSegmentV| enc_data(d);
            let ka = enc_u32(a.len()).len() as int;
            let kb = enc_u32(b.len()).len() as int;
            lemma_sub_at(bytes, p, n, section_payload(s1), 0, enc_u32(a.len()));
            lemma_sub_at(bytes, p, n, section_payload(s2), 0, enc_u32(b.len()));
            crate::leb::lemma_enc_u32_det(bytes, p, a.len(), b.len(), ka, kb);
            lemma_sub_at(bytes, p, n, section_payload(s1), ka, enc_all(a, f));
            lemma_sub_at(bytes, p, n, section_payload(s2), ka, enc_all(b, f));
            lemma_items_det_data(bytes, p + ka, a, b, n - ka);
        },
        (SectionV::DataCount(a), SectionV::DataCount(b)) => {
            crate::leb::lemma_enc_u32_det(bytes, p, a as nat, b as nat, n, n);
        },
        (SectionV::Opaque { id: ia, data: da }, SectionV::Opaque { id: ib, data: db }) => {
            assert(da == bytes.subrange(p, p + n) && db == bytes.subrange(p, p + n));
        },
        _ => {
            assert(false);
        },
    }
}

/// A byte string determines a well-formed section and its extent.
proof fn lemma_section_det(bytes: Seq<u8>, p: int, s1: SectionV, s2: SectionV, n1: int, n2: int)
    requires
        0 <= p,
        0 <= n1,
        0 <= n2,
        p + n1 <= bytes.len(),
        p + n2 <= bytes.len(),
        enc_section(s1) == bytes.subrange(p, p + n1),
        enc_section(s2) == bytes.subrange(p, p + n2),
        section_wf(s1),
        section_wf(s2),
    ensures
        s1 == s2,
        n1 == n2,
{
    assert(enc_section(s1).len() == n1 && enc_section(s2).len() == n2);
    assert(crate::wasm::section_id(s1) == bytes[p]) by {
        assert(enc_section(s1)[0] == crate::wasm::section_id(s1));
        assert(enc_section(s1)[0] == bytes.subrange(p, p + n1)[0]);
    };
    assert(crate::wasm::section_id(s2) == bytes[p]) by {
        assert(enc_section(s2)[0] == crate::wasm::section_id(s2));
        assert(enc_section(s2)[0] == bytes.subrange(p, p + n2)[0]);
    };
    let k1 = enc_u32(section_payload(s1).len()).len() as int;
    let k2 = enc_u32(section_payload(s2).len()).len() as int;
    lemma_sub_at(bytes, p, n1, enc_section(s1), 1, enc_u32(section_payload(s1).len()));
    lemma_sub_at(bytes, p, n2, enc_section(s2), 1, enc_u32(section_payload(s2).len()));
    crate::leb::lemma_enc_u32_det(
        bytes,
        p + 1,
        section_payload(s1).len(),
        section_payload(s2).len(),
        k1,
        k2,
    );
    lemma_sub_at(bytes, p, n1, enc_section(s1), 1 + k1, section_payload(s1));
    lemma_sub_at(bytes, p, n2, enc_section(s2), 1 + k1, section_payload(s2));
    lemma_payload_det(
        bytes,
        p + 1 + k1,
        section_payload(s1).len() as int,
        s1,
        s2,
    );
}

/// Equal byte strings hold equal well-formed section lists.
proof fn lemma_sections_det(bytes: Seq<u8>, p: int, a: Seq<SectionV>, b: Seq<SectionV>, n: int)
    requires
        0 <= p,
        0 <= n,
        p + n <= bytes.len(),
        module_wf(a),
        module_wf(b),
        enc_all(a, |s: SectionV| enc_section(s)) == bytes.subrange(p, p + n),
        enc_all(b, |s: SectionV| enc_section(s)) == bytes.subrange(p, p + n),
    ensures
        a == b,
    decreases a.len() + b.len(),
{
    let f = |s: SectionV| enc_section(s);
    if a.len() == 0 {
        assert(n == 0);
        if b.len() > 0 {
            assert(enc_all(b, f) == enc_section(b[0]) + enc_all(b.drop_first(), f));
            assert(enc_section(b[0]).len() >= 1);
        }
        assert(a =~= b);
    } else if b.len() == 0 {
        assert(n == 0);
        assert(enc_all(a, f) == enc_section(a[0]) + enc_all(a.drop_first(), f));
        assert(enc_section(a[0]).len() >= 1);
        assert(false);
    } else {
        assert(enc_all(a, f) == enc_section(a[0]) + enc_all(a.drop_first(), f));
        assert(enc_all(b, f) == enc_section(b[0]) + enc_all(b.drop_first(), f));
        assert(enc_all(a, f).len() == n && enc_all(b, f).len() == n);
        let ka = enc_section(a[0]).len() as int;
        let kb = enc_section(b[0]).len() as int;
        lemma_sub_at(bytes, p, n, enc_all(a, f), 0, enc_section(a[0]));
        lemma_sub_at(bytes, p, n, enc_all(b, f), 0, enc_section(b[0]));
        assert(section_wf(a[0]) && section_wf(b[0]));
        lemma_section_det(bytes, p, a[0], b[0], ka, kb);
        lemma_sub_at(bytes, p, n, enc_all(a, f), ka, enc_all(a.drop_first(), f));
        lemma_sub_at(bytes, p, n, enc_all(b, f), ka, enc_all(b.drop_first(), f));
        assert(module_wf(a.drop_first()) && module_wf(b.drop_first())) by {
            assert forall|i: int| 0 <= i < a.drop_first().len() implies section_wf(
                #[trigger] a.drop_first()[i],
            ) by {
                assert(a.drop_first()[i] == a[i + 1]);
            }
            assert forall|i: int| 0 <= i < b.drop_first().len() implies section_wf(
                #[trigger] b.drop_first()[i],
            ) by {
                assert(b.drop_first()[i] == b[i + 1]);
            }
        };
        lemma_sections_det(bytes, p + ka, a.drop_first(), b.drop_first(), n - ka);
        assert(a =~= b) by {
            assert(a.drop_first() =~= b.drop_first());
            assert forall|i: int| 0 <= i < a.len() implies a[i] == b[i] by {
                if i > 0 {
                    assert(a.drop_first()[i - 1] == a[i]);
                    assert(b.drop_first()[i - 1] == b[i]);
                }
            }
        };
    }
}

/// Canonical module encodings are injective over well-formed modules: one
/// byte string is the encoding of at most one module.
pub proof fn lemma_enc_module_injective(a: Seq<SectionV>, b: Seq<SectionV>)
    requires
        enc_module(a) == enc_module(b),
        module_wf(a),
        module_wf(b),
    ensures
        a == b,
{
    let bytes = enc_module(a);
    let f = |s: SectionV| enc_section(s);
    assert(enc_all(a, f) == bytes.subrange(8, bytes.len() as int)) by {
        assert(enc_all(a, f) =~= bytes.subrange(8, bytes.len() as int));
    };
    assert(enc_all(b, f) == bytes.subrange(8, bytes.len() as int)) by {
        assert(enc_module(b).len() == bytes.len());
        assert(enc_all(b, f) =~= bytes.subrange(8, bytes.len() as int)) by {
            assert forall|i: int| 0 <= i < enc_all(b, f).len() implies #[trigger] enc_all(
                b,
                f,
            )[i] == bytes.subrange(8, bytes.len() as int)[i] by {
                assert(enc_module(b)[8 + i] == enc_all(b, f)[i]);
                assert(bytes[8 + i] == enc_module(b)[8 + i]);
            }
        };
    };
    lemma_sections_det(bytes, 8, a, b, bytes.len() - 8);
}

} // verus!






