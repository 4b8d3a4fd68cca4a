//! The structured form of a wasm module, at the granularity the kernel needs.
//!
//! A module is an ordered list of sections. The sections the rewriter and the
//! snapshot protocol edit (imports, memories, globals, exports, start, data,
//! data count, custom) are held with typed payloads; every other section is
//! held as its raw payload bytes, so that an unedited module writes back
//! byte-identically.
//!
//! Each executable type has a mathematical view (`ImportV`, `SectionV`, and so
//! on, with `Seq` in place of `Vec`); the `enc_*` spec functions give the
//! exact byte string each view stands for, and the executable codec in
//! `decode` and `encode` is proved against them.

use vstd::prelude::*;
use crate::leb::{enc_u32, enc_s64};

verus! {

/// A wasm value type. Floating-point and vector constants are carried as raw
/// bit patterns throughout the kernel, so every type is representable.
#[derive(Clone, Copy, Debug, PartialEq, Eq, Structural)]
pub enum ValueType {
    I32,
    I64,
    F32,
    F64,
    V128,
    FuncRef,
    ExternRef,
}

/// Whether a global may be written after instantiation.
#[derive(Clone, Copy, Debug, PartialEq, Eq, Structural)]
pub enum GlobalMutability {
    Const,
    Var,
}

/// The type of a global: a value type and a mutability flag.
#[derive(Clone, Copy, Debug, PartialEq, Eq, Structural)]
pub struct GlobalType {
    pub value_type: ValueType,
    pub mutability: GlobalMutability,
}

/// Memory or table size bounds, in units of the owning entity.
#[derive(Clone, Copy, Debug, PartialEq, Eq, Structural)]
pub struct Limits {
    pub min: u32,
    pub max: Option<u32>,
}

/// The type of a table: a reference type and its limits.
#[derive(Clone, Copy, Debug, PartialEq, Eq, Structural)]
pub struct TableType {
    pub element: ValueType,
    pub limits: Limits,
}

/// What an import brings in.
#[derive(Clone, Copy, Debug, PartialEq, Eq, Structural)]
pub enum ImportDesc {
    Func(u32),
    Table(TableType),
    Mem(Limits),
    Global(GlobalType),
}

/// One entry of the import section. Names are kept as their raw UTF-8 bytes.
#[derive(Clone, Debug)]
pub struct Import {
    pub module: Vec<u8>,
    pub name: Vec<u8>,
    pub desc: ImportDesc,
}

/// The mathematical value of an import entry.
pub ghost struct ImportV {
    pub module: Seq<u8>,
    pub name: Seq<u8>,
    pub desc: ImportDesc,
}

impl View for Import {
    type V = ImportV;

    open spec fn view(&self) -> ImportV {
        ImportV { module: self.module@, name: self.name@, desc: self.desc }
    }
}

/// What an export points at, by index into the respective index space.
#[derive(Clone, Copy, Debug, PartialEq, Eq, Structural)]
pub enum ExportDesc {
    Func(u32),
    Table(u32),
    Mem(u32),
    Global(u32),
}

/// One entry of the export section.
#[derive(Clone, Debug)]
pub struct Export {
    pub name: Vec<u8>,
    pub desc: ExportDesc,
}

/// The mathematical value of an export entry.
pub ghost struct ExportV {
    pub name: Seq<u8>,
    pub desc: ExportDesc,
}

impl View for Export {
    type V = ExportV;

    open spec fn view(&self) -> ExportV {
        ExportV { name: self.name@, desc: self.desc }
    }
}

/// A constant initializer expression: a single constant instruction.
/// `F32Const` and `F64Const` carry the raw bits of the constant.
#[derive(Clone, Copy, Debug, PartialEq, Eq, Structural)]
pub enum InitExpr {
    I32Const(i32),
    I64Const(i64),
    F32Const(u32),
    F64Const(u64),
}

/// One entry of the global section.
#[derive(Clone, Copy, Debug, PartialEq, Eq, Structural)]
pub struct GlobalDecl {
    pub ty: GlobalType,
    pub init: InitExpr,
}

/// An active data segment for memory 0 whose offset is an `i32.const`.
#[derive(Clone, Debug)]
pub struct DataSegment {
    pub offset: i32,
    pub bytes: Vec<u8>,
}

/// The mathematical value of a data segment.
pub ghost struct DataSegmentV {
    pub offset: i32,
    pub bytes: Seq<u8>,
}

impl View for DataSegment {
    type V = DataSegmentV;

    open spec fn view(&self) -> DataSegmentV {
        DataSegmentV { offset: self.offset, bytes: self.bytes@ }
    }
}

/// One section of a module.
#[derive(Clone, Debug)]
pub enum Section {
    Custom { name: Vec<u8>, data: Vec<u8> },
    Import(Vec<Import>),
    Memory(Vec<Limits>),
    Global(Vec<GlobalDecl>),
    Export(Vec<Export>),
    Start(u32),
    Data(Vec<DataSegment>),
    DataCount(u32),
    Opaque { id: u8, data: Vec<u8> },
}

/// The mathematical value of a section.
pub ghost enum SectionV {
    Custom { name: Seq<u8>, data: Seq<u8> },
    Import(Seq<ImportV>),
    Memory(Seq<Limits>),
    Global(Seq<GlobalDecl>),
    Export(Seq<ExportV>),
    Start(u32),
    Data(Seq<DataSegmentV>),
    DataCount(u32),
    Opaque { id: u8, data: Seq<u8> },
}

/// The views of a sequence of values.
pub open spec fn views_of<T: View>(s: Seq<T>) -> Seq<T::V> {
    s.map_values(|x: T| x@)
}

impl View for Section {
    type V = SectionV;

    open spec fn view(&self) -> SectionV {
        match self {
            Section::Custom { name, data } => SectionV::Custom { name: name@, data: data@ },
            Section::Import(v) => SectionV::Import(views_of(v@)),
            Section::Memory(v) => SectionV::Memory(v@),
            Section::Global(v) => SectionV::Global(v@),
            Section::Export(v) => SectionV::Export(views_of(v@)),
            Section::Start(i) => SectionV::Start(*i),
            Section::Data(v) => SectionV::Data(views_of(v@)),
            Section::DataCount(c) => SectionV::DataCount(*c),
            Section::Opaque { id, data } => SectionV::Opaque { id: *id, data: data@ },
        }
    }
}

/// A wasm module: its sections, in file order.
#[derive(Clone, Debug)]
pub struct WasmModule {
    pub sections: Vec<Section>,
}

impl View for WasmModule {
    type V = Seq<SectionV>;

    open spec fn view(&self) -> Seq<SectionV> {
        views_of(self.sections@)
    }
}

/// The byte that encodes a value type.
pub open spec fn vt_byte(t: ValueType) -> u8 {
    match t {
        ValueType::I32 => 0x7F,
        ValueType::I64 => 0x7E,
        ValueType::F32 => 0x7D,
        ValueType::F64 => 0x7C,
        ValueType::V128 => 0x7B,
        ValueType::FuncRef => 0x70,
        ValueType::ExternRef => 0x6F,
    }
}

/// The byte that encodes a mutability flag.
pub open spec fn mut_byte(m: GlobalMutability) -> u8 {
    match m {
        GlobalMutability::Const => 0x00,
        GlobalMutability::Var => 0x01,
    }
}

/// A length-prefixed byte string (a wasm name, or a data segment's blob).
pub open spec fn enc_name(s: Seq<u8>) -> Seq<u8> {
    enc_u32(s.len()) + s
}

/// `n` little-endian bytes of `v`.
pub open spec fn le_bytes(v: nat, n: nat) -> Seq<u8>
    decreases n,
{
    if n == 0 {
        Seq::<u8>::empty()
    } else {
        seq![(v % 256) as u8] + le_bytes(v / 256, (n - 1) as nat)
    }
}

pub open spec fn enc_limits(l: Limits) -> Seq<u8> {
    match l.max {
        None => seq![0u8] + enc_u32(l.min as nat),
        Some(m) => seq![1u8] + enc_u32(l.min as nat) + enc_u32(m as nat),
    }
}

pub open spec fn enc_global_type(t: GlobalType) -> Seq<u8> {
    seq![vt_byte(t.value_type), mut_byte(t.mutability)]
}

pub open spec fn enc_import_desc(d: ImportDesc) -> Seq<u8> {
    match d {
        ImportDesc::Func(i) => seq![0u8] + enc_u32(i as nat),
        ImportDesc::Table(t) => seq![1u8, vt_byte(t.element)] + enc_limits(t.limits),
        ImportDesc::Mem(l) => seq![2u8] + enc_limits(l),
        ImportDesc::Global(g) => seq![3u8] + enc_global_type(g),
    }
}

pub open spec fn enc_import(i: ImportV) -> Seq<u8> {
    enc_name(i.module) + enc_name(i.name) + enc_import_desc(i.desc)
}

pub open spec fn enc_export_desc(d: ExportDesc) -> Seq<u8> {
    match d {
        ExportDesc::Func(i) => seq![0u8] + enc_u32(i as nat),
        ExportDesc::Table(i) => seq![1u8] + enc_u32(i as nat),
        ExportDesc::Mem(i) => seq![2u8] + enc_u32(i as nat),
        ExportDesc::Global(i) => seq![3u8] + enc_u32(i as nat),
    }
}

pub open spec fn enc_export(e: ExportV) -> Seq<u8> {
    enc_name(e.name) + enc_export_desc(e.desc)
}

pub open spec fn enc_init(e: InitExpr) -> Seq<u8> {
    match e {
        InitExpr::I32Const(v) => seq![0x41u8] + enc_s64(v as int) + seq![0x0Bu8],
        InitExpr::I64Const(v) => seq![0x42u8] + enc_s64(v as int) + seq![0x0Bu8],
        InitExpr::F32Const(b) => seq![0x43u8] + le_bytes(b as nat, 4) + seq![0x0Bu8],
        InitExpr::F64Const(b) => seq![0x44u8] + le_bytes(b as nat, 8) + seq![0x0Bu8],
    }
}

pub open spec fn enc_global(g: GlobalDecl) -> Seq<u8> {
    enc_global_type(g.ty) + enc_init(g.init)
}

pub open spec fn enc_data(d: DataSegmentV) -> Seq<u8> {
    enc_u32(0) + seq![0x41u8] + enc_s64(d.offset as int) + seq![0x0Bu8] + enc_name(d.bytes)
}

/// The concatenation of `f` over the elements of `s`, for any element type.
/// With `f` returning a singleton or empty sequence this is a filter or a
/// projection; with `f` returning a section's entries it flattens a module.
pub open spec fn flat_of<T, U>(s: Seq<T>, f: spec_fn(T) -> Seq<U>) -> Seq<U>
    decreases s.len(),
{
    if s.len() == 0 {
        Seq::<U>::empty()
    } else {
        f(s[0]) + flat_of(s.drop_first(), f)
    }
}

/// Appending an element extends the flattened sequence on the right.
pub proof fn lemma_flat_of_push<T, U>(s: Seq<T>, f: spec_fn(T) -> Seq<U>, x: T)
    ensures
        flat_of(s.push(x), f) == flat_of(s, f) + f(x),
    decreases s.len(),
{
    if s.len() == 0 {
        assert(s.push(x)[0] == x);
        let ghost rest: Seq<T> = s.push(x).drop_first();
        assert(rest =~= Seq::<T>::empty());
        assert(flat_of(s.push(x), f) == f(x) + flat_of(rest, f));
        assert(flat_of(rest, f) == Seq::<U>::empty());
        assert(f(x) + Seq::<U>::empty() =~= f(x));
        assert(flat_of(s, f) + f(x) =~= f(x));
    } else {
        lemma_flat_of_push(s.drop_first(), f, x);
        assert(s.push(x)[0] == s[0]);
        assert(s.push(x).drop_first() =~= s.drop_first().push(x));
        assert(flat_of(s.push(x), f) == f(s[0]) + flat_of(s.drop_first().push(x), f));
        assert(f(s[0]) + (flat_of(s.drop_first(), f) + f(x))
            =~= (f(s[0]) + flat_of(s.drop_first(), f)) + f(x));
    }
}

/// The concatenation of `f` over the elements of `s`, as a byte string.
pub open spec fn enc_all<T>(s: Seq<T>, f: spec_fn(T) -> Seq<u8>) -> Seq<u8> {
    flat_of(s, f)
}

/// A count-prefixed wasm vector.
pub open spec fn enc_vector<T>(s: Seq<T>, f: spec_fn(T) -> Seq<u8>) -> Seq<u8> {
    enc_u32(s.len()) + enc_all(s, f)
}

/// The id byte of a section.
pub open spec fn section_id(s: SectionV) -> u8 {
    match s {
        SectionV::Custom { .. } => 0,
        SectionV::Import(..) => 2,
        SectionV::Memory(..) => 5,
        SectionV::Global(..) => 6,
        SectionV::Export(..) => 7,
        SectionV::Start(..) => 8,
        SectionV::Data(..) => 11,
        SectionV::DataCount(..) => 12,
        SectionV::Opaque { id, .. } => id,
    }
}

/// The payload bytes of a section, without the id byte and the size field.
pub open spec fn section_payload(s: SectionV) -> Seq<u8> {
    match s {
        SectionV::Custom { name, data } => enc_name(name) + data,
        SectionV::Import(v) => enc_vector(v, |i: ImportV| enc_import(i)),
        SectionV::Memory(v) => enc_vector(v, |l: Limits| enc_limits(l)),
        SectionV::Global(v) => enc_vector(v, |g: GlobalDecl| enc_global(g)),
        SectionV::Export(v) => enc_vector(v, |e: ExportV| enc_export(e)),
        SectionV::Start(i) => enc_u32(i as nat),
        SectionV::Data(v) => enc_vector(v, |d: DataSegmentV| enc_data(d)),
        SectionV::DataCount(c) => enc_u32(c as nat),
        SectionV::Opaque { data, .. } => data,
    }
}

/// The full encoding of a section: id byte, payload size, payload.
pub open spec fn enc_section(s: SectionV) -> Seq<u8> {
    seq![section_id(s)] + enc_u32(section_payload(s).len()) + section_payload(s)
}

/// The eight leading bytes of every wasm binary.
pub open spec fn magic() -> Seq<u8> {
    seq![0x00u8, 0x61u8, 0x73u8, 0x6Du8, 0x01u8, 0x00u8, 0x00u8, 0x00u8]
}

/// The byte string a module stands for.
pub open spec fn enc_module(m: Seq<SectionV>) -> Seq<u8> {
    magic() + enc_all(m, |s: SectionV| enc_section(s))
}

/// Whether an initializer is a constant of the given value type.
pub open spec fn init_matches(t: ValueType, e: InitExpr) -> bool {
    match e {
        InitExpr::I32Const(..) => t == ValueType::I32,
        InitExpr::I64Const(..) => t == ValueType::I64,
        InitExpr::F32Const(..) => t == ValueType::F32,
        InitExpr::F64Const(..) => t == ValueType::F64,
    }
}

/// The zero constant of a scalar value type; reference and vector types have
/// none that the kernel supports.
pub open spec fn spec_zero_init(t: ValueType) -> InitExpr {
    match t {
        ValueType::I32 => InitExpr::I32Const(0i32),
        ValueType::I64 => InitExpr::I64Const(0i64),
        ValueType::F32 => InitExpr::F32Const(0u32),
        ValueType::F64 => InitExpr::F64Const(0u64),
        _ => InitExpr::I32Const(0i32),
    }
}

/// Appending an element extends the concatenated encoding on the right.
pub proof fn lemma_enc_all_push<T>(s: Seq<T>, f: spec_fn(T) -> Seq<u8>, x: T)
    ensures
        enc_all(s.push(x), f) == enc_all(s, f) + f(x),
{
    lemma_flat_of_push(s, f, x);
}

/// Pushing an element commutes with taking views.
pub proof fn lemma_views_push<T: View>(s: Seq<T>, x: T)
    ensures
        views_of(s.push(x)) == views_of(s).push(x@),
{
    assert forall|i: int| 0 <= i < views_of(s.push(x)).len() implies
        views_of(s.push(x))[i] == views_of(s).push(x@)[i] by {
        if i < s.len() {
            assert(s.push(x)[i] == s[i]);
        } else {
            assert(s.push(x)[i] == x);
        }
    }
    assert(views_of(s.push(x)) =~= views_of(s).push(x@));
}

/// Copy a byte vector.
pub fn clone_bytes(v: &Vec<u8>) -> (r: Vec<u8>)
    ensures
        r@ == v@,
{
    let mut out: Vec<u8> = Vec::new();
    let mut k: usize = 0;
    while k < v.len()
        invariant
            k <= v@.len(),
            out@ == v@.subrange(0, k as int),
        decreases v@.len() - k,
    {
        out.push(v[k]);
        proof {
            assert(out@ =~= v@.subrange(0, k + 1));
        }
        k = k + 1;
    }
    proof {
        assert(v@.subrange(0, v@.len() as int) =~= v@);
    }
    out
}

/// Copy one import entry.
pub fn clone_import(i: &Import) -> (r: Import)
    ensures
        r@ == i@,
{
    Import { module: clone_bytes(&i.module), name: clone_bytes(&i.name), desc: i.desc }
}

/// Copy one export entry.
pub fn clone_export(e: &Export) -> (r: Export)
    ensures
        r@ == e@,
{
    Export { name: clone_bytes(&e.name), desc: e.desc }
}

/// Copy one data segment.
pub fn clone_data_segment(d: &DataSegment) -> (r: DataSegment)
    ensures
        r@ == d@,
{
    DataSegment { offset: d.offset, bytes: clone_bytes(&d.bytes) }
}

/// Copy a vector of import entries.
pub fn clone_imports(v: &Vec<Import>) -> (r: Vec<Import>)
    ensures
        views_of(r@) == views_of(v@),
{
    let mut out: Vec<Import> = Vec::new();
    let mut k: usize = 0;
    while k < v.len()
        invariant
            k <= v@.len(),
            views_of(out@) == views_of(v@.subrange(0, k as int)),
        decreases v@.len() - k,
    {
        let ghost prev = out@;
        let c = clone_import(&v[k]);
        out.push(c);
        proof {
            lemma_views_push(prev, c);
            lemma_views_push(v@.subrange(0, k as int), v[k as int]);
            assert(v@.subrange(0, k + 1) =~= v@.subrange(0, k as int).push(v@[k as int]));
            assert(views_of(out@) == views_of(v@.subrange(0, k + 1)));
        }
        k = k + 1;
    }
    proof {
        assert(views_of(v@.subrange(0, v@.len() as int)) =~= views_of(v@));
    }
    out
}

/// Copy a vector of export entries.
pub fn clone_exports(v: &Vec<Export>) -> (r: Vec<Export>)
    ensures
        views_of(r@) == views_of(v@),
{
    let mut out: Vec<Export> = Vec::new();
    let mut k: usize = 0;
    while k < v.len()
        invariant
            k <= v@.len(),
            views_of(out@) == views_of(v@.subrange(0, k as int)),
        decreases v@.len() - k,
    {
        let ghost prev = out@;
        let c = clone_export(&v[k]);
        out.push(c);
        proof {
            lemma_views_push(prev, c);
            lemma_views_push(v@.subrange(0, k as int), v[k as int]);
            assert(v@.subrange(0, k + 1) =~= v@.subrange(0, k as int).push(v@[k as int]));
            assert(views_of(out@) == views_of(v@.subrange(0, k + 1)));
        }
        k = k + 1;
    }
    proof {
        assert(views_of(v@.subrange(0, v@.len() as int)) =~= views_of(v@));
    }
    out
}

/// Copy a vector of limits.
pub fn clone_limits_vec(v: &Vec<Limits>) -> (r: Vec<Limits>)
    ensures
        r@ == v@,
{
    let mut out: Vec<Limits> = Vec::new();
    let mut k: usize = 0;
    while k < v.len()
        invariant
            k <= v@.len(),
            out@ == v@.subrange(0, k as int),
        decreases v@.len() - k,
    {
        out.push(v[k]);
        proof {
            assert(out@ =~= v@.subrange(0, k + 1));
        }
        k = k + 1;
    }
    proof {
        assert(v@.subrange(0, v@.len() as int) =~= v@);
    }
    out
}

/// Copy a vector of global declarations.
pub fn clone_globals(v: &Vec<GlobalDecl>) -> (r: Vec<GlobalDecl>)
    ensures
        r@ == v@,
{
    let mut out: Vec<GlobalDecl> = Vec::new();
    let mut k: usize = 0;
    while k < v.len()
        invariant
            k <= v@.len(),
            out@ == v@.subrange(0, k as int),
        decreases v@.len() - k,
    {
        out.push(v[k]);
        proof {
            assert(out@ =~= v@.subrange(0, k + 1));
        }
        k = k + 1;
    }
    proof {
        assert(v@.subrange(0, v@.len() as int) =~= v@);
    }
    out
}

/// Copy a vector of data segments.
pub fn clone_data_segments(v: &Vec<DataSegment>) -> (r: Vec<DataSegment>)
    ensures
        views_of(r@) == views_of(v@),
{
    let mut out: Vec<DataSegment> = Vec::new();
    let mut k: usize = 0;
    while k < v.len()
        invariant
            k <= v@.len(),
            views_of(out@) == views_of(v@.subrange(0, k as int)),
        decreases v@.len() - k,
    {
        let ghost prev = out@;
        let c = clone_data_segment(&v[k]);
        out.push(c);
        proof {
            lemma_views_push(prev, c);
            lemma_views_push(v@.subrange(0, k as int), v[k as int]);
            assert(v@.subrange(0, k + 1) =~= v@.subrange(0, k as int).push(v@[k as int]));
            assert(views_of(out@) == views_of(v@.subrange(0, k + 1)));
        }
        k = k + 1;
    }
    proof {
        assert(views_of(v@.subrange(0, v@.len() as int)) =~= views_of(v@));
    }
    out
}

/// Copy one section.
pub fn clone_section(s: &Section) -> (r: Section)
    ensures
        r@ == s@,
{
    match s {
        Section::Custom { name, data } => Section::Custom {
            name: clone_bytes(name),
            data: clone_bytes(data),
        },
        Section::Import(v) => Section::Import(clone_imports(v)),
        Section::Memory(v) => Section::Memory(clone_limits_vec(v)),
        Section::Global(v) => Section::Global(clone_globals(v)),
        Section::Export(v) => Section::Export(clone_exports(v)),
        Section::Start(i) => Section::Start(*i),
        Section::Data(v) => Section::Data(clone_data_segments(v)),
        Section::DataCount(c) => Section::DataCount(*c),
        Section::Opaque { id, data } => Section::Opaque { id: *id, data: clone_bytes(data) },
    }
}

/// Copy a whole module.
pub fn clone_module(m: &WasmModule) -> (r: WasmModule)
    ensures
        r@ == m@,
{
    let mut sections: Vec<Section> = Vec::new();
    let v = &m.sections;
    let mut k: usize = 0;
    while k < v.len()
        invariant
            k <= v@.len(),
            views_of(sections@) == views_of(v@.subrange(0, k as int)),
        decreases v@.len() - k,
    {
        let ghost prev = sections@;
        let c = clone_section(&v[k]);
        sections.push(c);
        proof {
            lemma_views_push(prev, c);
            lemma_views_push(v@.subrange(0, k as int), v[k as int]);
            assert(v@.subrange(0, k + 1) =~= v@.subrange(0, k as int).push(v@[k as int]));
            assert(views_of(sections@) == views_of(v@.subrange(0, k + 1)));
        }
        k = k + 1;
    }
    proof {
        assert(views_of(v@.subrange(0, v@.len() as int)) =~= views_of(v@));
    }
    WasmModule { sections }
}

} // verus!
