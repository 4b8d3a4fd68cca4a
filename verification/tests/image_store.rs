use othismo::image::{Image, Object, LinkKind};
use othismo::{Errors, OthismoError};

// A small wasm module exporting an `addTwo` function.
fn wasm() -> Vec<u8> {
    vec![
        0x00, 0x61, 0x73, 0x6D, 0x01, 0x00, 0x00, 0x00, // magic
        0x01, 0x07, 0x01, 0x60, 0x02, 0x7F, 0x7F, 0x01, 0x7F, // type
        0x03, 0x02, 0x01, 0x00, // function
        0x07, 0x0A, 0x01, 0x06, 0x61, 0x64, 0x64, 0x54, 0x77, 0x6F, 0x00, 0x00, // export
        0x0A, 0x09, 0x01, 0x07, 0x00, 0x20, 0x00, 0x20, 0x01, 0x6A, 0x0B, // code
    ]
}

// A wasm module importing a v128 global, outside the supported subset.
fn simd_wasm() -> Vec<u8> {
    vec![
        0x00, 0x61, 0x73, 0x6D, 0x01, 0x00, 0x00, 0x00, // magic
        0x02, 0x08, 0x01, 0x01, 0x65, 0x01, 0x67, 0x03, 0x7B, 0x00, // import e.g: v128 global
    ]
}

#[test]
fn file_can_import_modules() {
    let mut file = Image::create_in_memory();

    file.import_object("/test/module", Object::new_module(&wasm()).unwrap()).unwrap();

    let modules = file.list_objects("/test/").unwrap();

    assert_eq!(modules.len(), 1);
    assert_eq!(modules[0], "/test/module");
}

#[test]
fn file_can_not_import_over_existing_modules() {
    let mut file = Image::create_in_memory();

    file.import_object("/test/module", Object::new_module(&wasm()).unwrap()).unwrap();
    let result = file.import_object("/test/module", Object::new_module(&wasm()).unwrap());

    assert!(matches!(result, Err(Errors::Othismo(OthismoError::ObjectAlreadyExists))));
}

#[test]
fn file_can_delete_modules() {
    let mut file = Image::create_in_memory();

    file.import_object("/test/module", Object::new_module(&wasm()).unwrap()).unwrap();

    file.remove_object("/test/module").unwrap();
}

#[test]
fn tests_file_can_import_modules() {
    let mut file = Image::create_in_memory();

    file.import_object("/test/module", Object::new_module(&wasm()).unwrap()).unwrap();

    let modules = file.list_objects("/test/").unwrap();

    assert_eq!(modules.len(), 1);
    assert_eq!(modules[0], "/test/module");
}

#[test]
fn tests_file_can_not_import_over_existing_modules() {
    let mut file = Image::create_in_memory();

    file.import_object("/test/module", Object::new_module(&wasm()).unwrap()).unwrap();
    let result = file.import_object("/test/module", Object::new_module(&wasm()).unwrap());

    assert!(matches!(result, Err(Errors::Othismo(OthismoError::ObjectAlreadyExists))));
}

#[test]
fn tests_file_can_delete_modules() {
    let mut file = Image::create_in_memory();

    file.import_object("/test/module", Object::new_module(&wasm()).unwrap()).unwrap();

    assert!(file.remove_object("/test/module").is_ok());
}

#[test]
fn simd_global_import_is_rejected_and_image_unchanged() {
    let mut file = Image::create_in_memory();
    let result = Object::new_module(&simd_wasm());
    match result {
        Err(Errors::Othismo(OthismoError::UnsupportedModuleDefinition(tag))) => {
            assert_eq!(tag, "simd_global");
        },
        _ => panic!("expected an unsupported-module refusal"),
    }
    assert_eq!(file.list_objects("").unwrap().len(), 0);
    // nothing was imported, so the image still accepts the name
    file.import_object("/m", Object::new_module(&wasm()).unwrap()).unwrap();
}

#[test]
fn referenced_module_cannot_be_removed() {
    let mut file = Image::create_in_memory();
    file.import_object("/m", Object::new_module(&wasm()).unwrap()).unwrap();
    file.instantiate("/m", "/m.a").unwrap();

    let blocked = file.remove_object("/m");
    assert!(matches!(blocked, Err(Errors::Othismo(OthismoError::ObjectNotFree))));
    // the failed removal changed nothing
    assert_eq!(file.list_objects("").unwrap().len(), 2);

    file.remove_object("/m.a").unwrap();
    file.remove_object("/m").unwrap();
    assert_eq!(file.list_objects("").unwrap().len(), 0);
    let _ = LinkKind::InstanceOf;
}

#[test]
fn decode_then_encode_is_byte_identical() {
    let bytes = wasm();
    let module = othismo::decode::decode_module(&bytes).unwrap();
    let out = othismo::encode::module_to_bytes(&module).unwrap();
    assert_eq!(out, bytes);
}

#[test]
fn rewritten_template_has_marker_and_export() {
    let obj = Object::new_module(&wasm()).unwrap();
    let bytes = obj.to_bytes().unwrap();
    // the rewritten template still decodes, and carries the marker section
    let module = othismo::decode::decode_module(&bytes).unwrap();
    let round = othismo::encode::module_to_bytes(&module).unwrap();
    assert_eq!(round, bytes);
}

#[test]
fn instantiate_classifies_its_failures() {
    let mut file = Image::create_in_memory();
    file.import_object("/m", Object::new_module(&wasm()).unwrap()).unwrap();

    let missing = file.instantiate("/absent", "/a");
    assert!(matches!(missing, Err(Errors::Othismo(OthismoError::ObjectDoesNotExist))));

    file.instantiate("/m", "/m.a").unwrap();
    let taken = file.instantiate("/m", "/m.a");
    assert!(matches!(taken, Err(Errors::Othismo(OthismoError::ObjectAlreadyExists))));

    // instantiating from an instance is refused too
    let not_module = file.instantiate("/m.a", "/m.b");
    assert!(matches!(not_module, Err(Errors::Othismo(OthismoError::ObjectDoesNotExist))));
}
