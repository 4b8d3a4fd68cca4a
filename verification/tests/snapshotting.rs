use othismo::snapshot::{InstanceAtRest, GlobalValue, PAGE_BYTES};
use othismo::image::Object;

// A module with a mutable i32 global `counter` (init 0, exported) and a
// one-page memory exported as `memory`.
fn counter_wasm() -> Vec<u8> {
    vec![
        0x00, 0x61, 0x73, 0x6D, 0x01, 0x00, 0x00, 0x00, // magic
        0x05, 0x03, 0x01, 0x00, 0x01, // memory, min 1 page
        0x06, 0x06, 0x01, 0x7F, 0x01, 0x41, 0x00, 0x0B, // global i32 mut, init 0
        0x07, 0x14, 0x02, // exports: counter -> global 0, memory -> mem 0
        0x07, 0x63, 0x6F, 0x75, 0x6E, 0x74, 0x65, 0x72, 0x03, 0x00,
        0x06, 0x6D, 0x65, 0x6D, 0x6F, 0x72, 0x79, 0x02, 0x00,
    ]
}

#[test]
fn global_write_back_reads_back() {
    let obj = Object::new_module(&counter_wasm()).unwrap();
    let module = match obj {
        Object::Module(m) => m,
        _ => panic!("expected a module"),
    };
    let mut inst = InstanceAtRest::from_module(module);
    inst.set_exported_global(b"counter", GlobalValue::I32(3)).unwrap();
    assert_eq!(inst.read_exported_global(b"counter").unwrap(), GlobalValue::I32(3));
    // writing a value of the wrong type is refused
    assert!(inst.set_exported_global(b"counter", GlobalValue::I64(1)).is_err());
}

#[test]
fn memory_snapshot_keeps_nonzero_pages_only() {
    let obj = Object::new_module(&counter_wasm()).unwrap();
    let module = match obj {
        Object::Module(m) => m,
        _ => panic!("expected a module"),
    };
    let mut inst = InstanceAtRest::from_module(module);
    let mut mem = vec![0u8; 65536];
    mem[PAGE_BYTES + 5] = 42; // second snapshot page is non-zero
    inst.dehydrate_memory(&mem).unwrap();
    let bytes = inst.to_bytes().unwrap();
    let decoded = othismo::decode::decode_module(&bytes).unwrap();
    let reencoded = othismo::encode::module_to_bytes(&decoded).unwrap();
    assert_eq!(reencoded, bytes);
    // dehydrating a 16-page memory keeps the one-page minimum raised
    let big = vec![1u8; 16 * 65536];
    inst.dehydrate_memory(&big).unwrap();
    let bytes2 = inst.to_bytes().unwrap();
    assert!(bytes2.len() > bytes.len());
}

#[test]
fn start_section_is_stripped() {
    let obj = Object::new_module(&counter_wasm()).unwrap();
    let module = match obj {
        Object::Module(m) => m,
        _ => panic!("expected a module"),
    };
    let mut inst = InstanceAtRest::from_module(module);
    inst.strip_start_function().unwrap();
    let _ = inst.clear_data_segments();
    let _ = inst.add_data_segment(0, b"abc");
    assert!(inst.to_bytes().is_ok());
}
