use echo::process::{wide_to_string, Module};

#[test]
fn a_name_stops_at_the_terminator_and_ignores_the_garbage_after_it() {
    let mut buffer = [0u16; 8];
    for (slot, ch) in buffer.iter_mut().zip("cs2.exe".encode_utf16()) {
        *slot = ch;
    }
    buffer[7] = 0;
    assert_eq!(wide_to_string(&buffer), "cs2.exe");

    // Windows leaves whatever was in the buffer after the NUL.
    let mut dirty = buffer;
    dirty[4] = 0;
    dirty[5] = u16::from(b'X');
    assert_eq!(wide_to_string(&dirty), "cs2.");
}

#[test]
fn a_full_buffer_with_no_terminator_still_reads_as_a_whole_name() {
    let full: Vec<u16> = "client.dll".encode_utf16().collect();
    assert_eq!(wide_to_string(&full), "client.dll");
}

#[test]
fn an_empty_or_immediately_terminated_buffer_is_an_empty_name() {
    assert_eq!(wide_to_string(&[]), "");
    assert_eq!(wide_to_string(&[0, 65, 66]), "");
}

#[test]
fn a_name_outside_ascii_is_decoded_and_a_lone_surrogate_is_replaced() {
    let name: Vec<u16> = "é😀.dll".encode_utf16().chain([0, 90]).collect();
    assert_eq!(wide_to_string(&name), "é😀.dll");
    assert_eq!(wide_to_string(&[0xD800, 65, 0]), "\u{FFFD}A");
}

#[test]
fn a_module_is_its_base_and_size() {
    let module = Module {
        base: 0x7FF6_0000_0000,
        size: 0x0400_0000,
    };
    assert_eq!(module, Module { base: 0x7FF6_0000_0000, size: 0x0400_0000 });
    assert_ne!(module, Module { base: 0, size: 0x0400_0000 });
}

use echo::process::names_match;

fn wide(text: &str, len: usize) -> Vec<u16> {
    let mut buffer: Vec<u16> = text.encode_utf16().collect();
    buffer.resize(len, 0);
    buffer
}

#[test]
fn a_process_is_found_by_its_name_in_any_ascii_case() {
    assert!(names_match(&wide("cs2.exe", 260), "cs2.exe"));
    assert!(names_match(&wide("CS2.EXE", 260), "cs2.exe"));
    assert!(names_match(&wide("Client.DLL", 256), "client.dll"));
    assert!(!names_match(&wide("cs2.exe", 260), "cs2.ex"));
    assert!(!names_match(&wide("cs3.exe", 260), "cs2.exe"));
    assert!(!names_match(&wide("", 4), "cs2.exe"));
}

#[test]
fn only_ascii_letters_fold_their_case() {
    assert!(names_match(&wide("É.dll", 16), "É.DLL"));
    assert!(!names_match(&wide("é.dll", 16), "É.dll"));
    assert!(!names_match(&wide("a[", 8), "A{"));
}
