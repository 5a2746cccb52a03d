use jam::generate::compile;
use jam::generate::find_line_end;
use jam::generate::regenerate;
use jam::generate::PrimitiveType;
use jam::generate::ValueType;

const MARKER: &[u8] = b"\n// START OF GENERATED CODE\n";

#[test]
fn compile_gives_the_marker_text() {
    assert_eq!(compile(), "\n// START OF GENERATED CODE\n");
    assert_eq!(compile().as_bytes(), MARKER);
}

#[test]
fn primitive_strides() {
    let all = [
        (PrimitiveType::F32, 4),
        (PrimitiveType::F64, 8),
        (PrimitiveType::I8, 1),
        (PrimitiveType::I16, 2),
        (PrimitiveType::I32, 4),
        (PrimitiveType::I64, 8),
        (PrimitiveType::U8, 1),
        (PrimitiveType::U16, 2),
        (PrimitiveType::U32, 4),
        (PrimitiveType::U64, 8),
        (PrimitiveType::Bool, 1),
    ];
    for (ty, n) in all {
        assert_eq!(ty.stride(), n);
    }
}

#[test]
fn value_type_strides() {
    assert_eq!(ValueType::Primitive(PrimitiveType::I64).stride(), 8);
    assert_eq!(ValueType::Primitive(PrimitiveType::Bool).stride(), 1);
    assert_eq!(ValueType::Struct().stride(), 0);
}

#[test]
fn line_ends() {
    let text = b"ab\ncd\n\nef";
    assert_eq!(find_line_end(text, 0), 9);
    assert_eq!(find_line_end(text, 1), 3);
    assert_eq!(find_line_end(text, 2), 6);
    assert_eq!(find_line_end(text, 3), 7);
    assert_eq!(find_line_end(text, 4), 9);
    assert_eq!(find_line_end(text, 5), 9);
    assert_eq!(find_line_end(b"", 1), 0);
}

#[test]
fn regenerate_replaces_what_follows_the_line() {
    let file = b"fn a() {}\n::jam::include!();\nold stuff\n";
    let new = regenerate(file, 2, MARKER).unwrap();
    let mut want = b"fn a() {}\n::jam::include!();\n".to_vec();
    want.extend_from_slice(MARKER);
    assert_eq!(new, want);
}

#[test]
fn regenerate_leaves_an_up_to_date_file() {
    let mut file = b"x\ny\n".to_vec();
    file.extend_from_slice(MARKER);
    assert_eq!(regenerate(&file, 2, MARKER), None);
}

#[test]
fn regenerate_twice_changes_nothing_more() {
    let file = b"line one\nline two\nstale\n";
    let once = regenerate(file, 1, MARKER).unwrap();
    assert_eq!(regenerate(&once, 1, MARKER), None);
}

#[test]
fn regenerate_past_the_last_newline_appends() {
    // the first line has no newline, so the whole file is kept
    let file = b"abc";
    let once = regenerate(file, 1, MARKER).unwrap();
    let mut want = b"abc".to_vec();
    want.extend_from_slice(MARKER);
    assert_eq!(once, want);
    // and the marker's own newline now ends line one
    let twice = regenerate(&once, 1, MARKER).unwrap();
    let mut want2 = b"abc\n".to_vec();
    want2.extend_from_slice(MARKER);
    assert_eq!(twice, want2);
    assert_eq!(regenerate(&twice, 1, MARKER), None);
}

#[test]
fn regenerate_at_line_zero_always_appends() {
    let file = b"abc\n";
    let once = regenerate(file, 0, MARKER).unwrap();
    assert_eq!(once.len(), file.len() + MARKER.len());
    let twice = regenerate(&once, 0, MARKER).unwrap();
    assert_eq!(twice.len(), once.len() + MARKER.len());
}
