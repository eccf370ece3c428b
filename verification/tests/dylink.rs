use wasm_dylink::dylink::Dylink;
use wasm_dylink::error::Error;

// wasm-objdump of a side module:
// Custom:
//  - name: "dylink"
//  - mem_size     : 5243072
//  - mem_p2align  : 4
//  - table_size   : 0
//  - table_p2align: 0
#[test]
fn check_with_no_dynamic_libraries() {
    let dylink = Dylink::check_dylink(&[
        0x00, 0x61, 0x73, 0x6d, 0x01, 0x00, 0x00, 0x00, 0x00, 0x0f, 0x06, 0x64, 0x79, 0x6c, 0x69,
        0x6e, 0x6b, 0xc0, 0x81, 0xc0, 0x02, 0x04, 0x00, 0x00, 0x00,
    ])
    .unwrap();

    assert_eq!(dylink.mem_size, 5243072);
    assert_eq!(dylink.mem_align, 4);
    assert_eq!(dylink.table_size, 0);
    assert_eq!(dylink.table_align, 0);
}

// wasm-objdump of a module with one needed library:
// Custom:
//  - name: "dylink"
//  - mem_size     : 30
//  - mem_p2align  : 0
//  - table_size   : 0
//  - table_p2align: 0
//  - needed_dynlibs[1]:
//   - dynamic_linking_example_side.wasm
#[test]
fn check_with_dynamic_library() {
    let dylink = Dylink::check_dylink(&[
        0x00, 0x61, 0x73, 0x6d, 0x01, 0x00, 0x00, 0x00, 0x00, 0x2e, 0x06, 0x64, 0x79, 0x6c, 0x69,
        0x6e, 0x6b, 0x1e, 0x00, 0x00, 0x00, 0x01, 0x21, 0x64, 0x79, 0x6e, 0x61, 0x6d, 0x69, 0x63,
        0x5f, 0x6c, 0x69, 0x6e, 0x6b, 0x69, 0x6e, 0x67, 0x5f, 0x65, 0x78, 0x61, 0x6d, 0x70, 0x6c,
        0x65, 0x5f, 0x73, 0x69, 0x64, 0x65, 0x2e, 0x77, 0x61, 0x73, 0x6d,
    ])
    .unwrap();

    assert_eq!(dylink.mem_size, 30);
    assert_eq!(dylink.mem_align, 0);
    assert_eq!(dylink.table_size, 0);
    assert_eq!(dylink.table_align, 0);
    assert_eq!(dylink.needed_dynlibs[0], "dynamic_linking_example_side.wasm");
}

// wasm-objdump of a module with several needed libraries:
// Custom:
//  - name: "dylink"
//  - mem_size     : 30
//  - mem_p2align  : 0
//  - table_size   : 0
//  - table_p2align: 0
//  - needed_dynlibs[4]:
//   - dynamic_linking_example_side.wasm
//   - dynamic_linking_example.wasm
//   - main.wasm
//   - bar.wasm
#[test]
fn check_with_dynamic_libraries() {
    let dylink = Dylink::check_dylink(&[
        0x00, 0x61, 0x73, 0x6d, 0x01, 0x00, 0x00, 0x00, 0x00, 0x2e, 0x06, 0x64, 0x79, 0x6c, 0x69,
        0x6e, 0x6b, 0x1e, 0x00, 0x00, 0x00, 0x04, 0x21, 0x64, 0x79, 0x6e, 0x61, 0x6d, 0x69, 0x63,
        0x5f, 0x6c, 0x69, 0x6e, 0x6b, 0x69, 0x6e, 0x67, 0x5f, 0x65, 0x78, 0x61, 0x6d, 0x70, 0x6c,
        0x65, 0x5f, 0x73, 0x69, 0x64, 0x65, 0x2e, 0x77, 0x61, 0x73, 0x6d, 0x1c, 0x64, 0x79, 0x6e,
        0x61, 0x6d, 0x69, 0x63, 0x5f, 0x6c, 0x69, 0x6e, 0x6b, 0x69, 0x6e, 0x67, 0x5f, 0x65, 0x78,
        0x61, 0x6d, 0x70, 0x6c, 0x65, 0x2e, 0x77, 0x61, 0x73, 0x6d, 0x09, 0x6d, 0x61, 0x69, 0x6e,
        0x2e, 0x77, 0x61, 0x73, 0x6d, 0x08, 0x62, 0x61, 0x72, 0x2e, 0x77, 0x61, 0x73, 0x6d,
    ])
    .unwrap();

    assert_eq!(dylink.mem_size, 30);
    assert_eq!(dylink.mem_align, 0);
    assert_eq!(dylink.table_size, 0);
    assert_eq!(dylink.table_align, 0);
    assert_eq!(dylink.needed_dynlibs[0], "dynamic_linking_example_side.wasm");
    assert_eq!(dylink.needed_dynlibs[1], "dynamic_linking_example.wasm");
    assert_eq!(dylink.needed_dynlibs[2], "main.wasm");
    assert_eq!(dylink.needed_dynlibs[3], "bar.wasm");
}

#[test]
fn leb128_five_byte_value() {
    // mem_size = u32::MAX, encoded over the full five bytes.
    let dylink = Dylink::check_dylink(&[
        0x00, 0x61, 0x73, 0x6d, 0x01, 0x00, 0x00, 0x00, 0x00, 0x10, 0x06, 0x64, 0x79, 0x6c, 0x69,
        0x6e, 0x6b, 0xff, 0xff, 0xff, 0xff, 0x0f, 0x00, 0x00, 0x00, 0x00,
    ])
    .unwrap();
    assert_eq!(dylink.mem_size, u32::MAX);
    assert_eq!(dylink.mem_align, 0);
}

#[test]
fn get_leb128_cursor_convention() {
    // The reader consumes from one byte past the cursor and rests on the
    // last byte consumed.
    let bytes = [0x00u8, 0xc0, 0x81, 0xc0, 0x02, 0x07];
    let mut position: usize = 0;
    let value = Dylink::get_leb128(&bytes, &mut position);
    assert_eq!(value, 5243072);
    assert_eq!(position, 4);
    let next = Dylink::get_leb128(&bytes, &mut position);
    assert_eq!(next, 7);
    assert_eq!(position, 5);
}

#[test]
fn iter_section_name_advances() {
    let bytes = [0x06u8, 0x64, 0x79, 0x6c, 0x69, 0x6e, 0x6b, 0x00];
    let mut position: usize = 0;
    Dylink::iter_section_name(&bytes, &mut position);
    assert_eq!(position, 6);
}

#[test]
fn empty_binary_is_malformed() {
    let r = Dylink::check_dylink(&[]);
    assert!(matches!(r, Err(Error::MalformedMetadataSection)));
}

#[test]
fn wrong_magic_is_malformed() {
    let r = Dylink::check_dylink(&[
        0x01, 0x61, 0x73, 0x6d, 0x01, 0x00, 0x00, 0x00, 0x00, 0x0f, 0x06, 0x64, 0x79, 0x6c, 0x69,
        0x6e, 0x6b, 0x00, 0x00, 0x00, 0x00, 0x00,
    ]);
    assert!(matches!(r, Err(Error::MalformedMetadataSection)));
}

#[test]
fn section_not_first_is_malformed() {
    // Byte 8 announces a non-custom section.
    let r = Dylink::check_dylink(&[
        0x00, 0x61, 0x73, 0x6d, 0x01, 0x00, 0x00, 0x00, 0x01, 0x0f, 0x06, 0x64, 0x79, 0x6c, 0x69,
        0x6e, 0x6b, 0x00, 0x00, 0x00, 0x00, 0x00,
    ]);
    assert!(matches!(r, Err(Error::MalformedMetadataSection)));
}

#[test]
fn wrong_tag_is_malformed() {
    let r = Dylink::check_dylink(&[
        0x00, 0x61, 0x73, 0x6d, 0x01, 0x00, 0x00, 0x00, 0x00, 0x0f, 0x06, 0x64, 0x79, 0x6c, 0x69,
        0x6e, 0x6a, 0x00, 0x00, 0x00, 0x00, 0x00,
    ]);
    assert!(matches!(r, Err(Error::MalformedMetadataSection)));
}

#[test]
fn truncated_fields_are_malformed() {
    // The section ends in the middle of the counted values.
    let r = Dylink::check_dylink(&[
        0x00, 0x61, 0x73, 0x6d, 0x01, 0x00, 0x00, 0x00, 0x00, 0x0f, 0x06, 0x64, 0x79, 0x6c, 0x69,
        0x6e, 0x6b, 0x00, 0x00,
    ]);
    assert!(matches!(r, Err(Error::MalformedMetadataSection)));
}

#[test]
fn overlong_leb128_is_malformed() {
    // Six continuation bytes: no 32-bit magnitude terminates within five.
    let r = Dylink::check_dylink(&[
        0x00, 0x61, 0x73, 0x6d, 0x01, 0x00, 0x00, 0x00, 0x00, 0x0f, 0x06, 0x64, 0x79, 0x6c, 0x69,
        0x6e, 0x6b, 0x80, 0x80, 0x80, 0x80, 0x80, 0x80, 0x00, 0x00, 0x00, 0x00,
    ]);
    assert!(matches!(r, Err(Error::MalformedMetadataSection)));
}

#[test]
fn non_utf8_name_is_malformed() {
    // One needed library whose single name byte is not valid UTF-8: were
    // the byte-to-text conversion to hand its input through unchecked,
    // this would wrongly parse.
    let r = Dylink::check_dylink(&[
        0x00, 0x61, 0x73, 0x6d, 0x01, 0x00, 0x00, 0x00, 0x00, 0x0f, 0x06, 0x64, 0x79, 0x6c, 0x69,
        0x6e, 0x6b, 0x00, 0x00, 0x00, 0x00, 0x01, 0x01, 0xff,
    ]);
    assert!(matches!(r, Err(Error::MalformedMetadataSection)));
}

#[test]
fn name_past_end_is_malformed() {
    // The single name claims three bytes but only one follows.
    let r = Dylink::check_dylink(&[
        0x00, 0x61, 0x73, 0x6d, 0x01, 0x00, 0x00, 0x00, 0x00, 0x0f, 0x06, 0x64, 0x79, 0x6c, 0x69,
        0x6e, 0x6b, 0x00, 0x00, 0x00, 0x00, 0x01, 0x03, 0x61,
    ]);
    assert!(matches!(r, Err(Error::MalformedMetadataSection)));
}
