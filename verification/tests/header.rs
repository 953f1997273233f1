//! The redistributable header.
use metal_softfloat_core::header::{
    is_current, public_length, redistributable, TEST_SCAFFOLDING_ANCHOR,
};

fn chars(s: &str) -> Vec<char> {
    s.chars().collect()
}

fn made(preamble: &str, body: &str) -> String {
    redistributable(&chars(preamble), &chars(body)).into_iter().collect()
}

#[test]
fn stops_at_the_anchor() {
    let body = format!("ulong f();\n\n{TEST_SCAFFOLDING_ANCHOR} ---\nkernel void t() {{}}\n");
    assert_eq!(made("// notice\n", &body), "// notice\nulong f();\n");
}

#[test]
fn takes_the_first_anchor() {
    let body = format!("a\n{TEST_SCAFFOLDING_ANCHOR}\nb\n{TEST_SCAFFOLDING_ANCHOR}\nc\n");
    assert_eq!(made("", &body), "a\n");
}

#[test]
fn keeps_a_body_without_anchor() {
    assert_eq!(made("h", "x\u{2003}\t\r\n \u{3000}"), "hx\n");
    assert_eq!(made("h", "// --- Test / benchmark kernel"), "h// --- Test / benchmark kernel\n");
    assert_eq!(made("h", ""), "h\n");
    assert_eq!(made("h", " \n"), "h\n");
}

#[test]
fn white_space_is_what_the_standard_library_takes_it_for() {
    for n in 0..0x1_0000u32 {
        if let Some(c) = char::from_u32(n) {
            let text = ['x', c];
            let len = public_length(&text);
            assert_eq!(len == 1, c.is_whitespace(), "{n:x}");
        }
    }
}

#[test]
fn compares_the_whole_text() {
    assert!(is_current(&chars("abc"), &chars("abc")));
    assert!(!is_current(&chars("abd"), &chars("abc")));
    assert!(!is_current(&chars("ab"), &chars("abc")));
    assert!(!is_current(&chars(""), &chars("abc")));
}
