use ppbert::bertterm::{BertTerm, FloatEnc, PrettyPrinter};
use ppbert::bertterm::{DEFAULT_INDENT_WIDTH, DEFAULT_MAX_TERMS_PER_LINE};
use ppbert::bertterm::is_printable;
use ppbert::parser::Parser;

fn float_texts(p: &Parser) -> Vec<Vec<char>> {
    p.floats()
        .iter()
        .map(|f| match f {
            FloatEnc::Ieee(bits) => format!("{}", f64::from_bits(*bits)).chars().collect(),
            FloatEnc::Text(t) => {
                let s: String = t.iter().map(|&b| b as char).collect();
                let v: f64 = s.parse().unwrap();
                format!("{}", v).chars().collect()
            }
        })
        .collect()
}

fn render(bytes: Vec<u8>, iw: usize, mx: usize) -> String {
    let mut p = Parser::new(bytes);
    let t = p.parse().unwrap();
    let texts = float_texts(&p);
    assert!(t.is_wf(p.symtable().len(), texts.len()));
    let pp = PrettyPrinter::new(&t, iw, mx, p.symtable(), &texts);
    pp.format()
}

#[test]
fn test_render_small_integer() {
    assert_eq!(render(vec![131, 97, 42], 2, 4), "42");
}

#[test]
fn test_render_negative_integer() {
    assert_eq!(render(vec![131, 98, 0xff, 0xff, 0xff, 0xfe], 2, 4), "-2");
}

#[test]
fn test_render_integer_bounds() {
    assert_eq!(
        render(vec![131, 98, 0x7f, 0xff, 0xff, 0xff], 2, 4),
        "2147483647"
    );
    assert_eq!(
        render(vec![131, 98, 0x80, 0x00, 0x00, 0x00], 2, 4),
        "-2147483648"
    );
}

#[test]
fn test_render_bigint() {
    // digit bytes [2, 1]: 2 + 1*256 = 258, negated under sign byte 1
    assert_eq!(render(vec![131, 110, 2, 0, 2, 1], 2, 4), "258");
    assert_eq!(render(vec![131, 110, 2, 1, 2, 1], 2, 4), "-258");
}

#[test]
fn test_render_bigint_zero() {
    assert_eq!(render(vec![131, 110, 0, 0], 2, 4), "0");
}

#[test]
fn test_render_bigint_large() {
    // 2^64 = digits of 9 bytes, little endian
    assert_eq!(
        render(vec![131, 110, 9, 0, 0, 0, 0, 0, 0, 0, 0, 0, 1], 2, 4),
        "18446744073709551616"
    );
}

#[test]
fn test_render_atom() {
    assert_eq!(render(vec![131, 100, 0, 2, b'o', b'k'], 2, 4), "ok");
}

#[test]
fn test_render_nil() {
    assert_eq!(render(vec![131, 106], 2, 4), "[]");
}

#[test]
fn test_render_string_with_escape() {
    assert_eq!(render(vec![131, 107, 0, 2, 65, 10], 2, 4), "\"A\\x0a\"");
}

#[test]
fn test_render_binary() {
    assert_eq!(render(vec![131, 109, 0, 0, 0, 1, 0xff], 2, 4), "<<\"\\xff\">>");
}

#[test]
fn test_render_tuple_inline() {
    assert_eq!(render(vec![131, 104, 2, 97, 1, 97, 2], 2, 4), "{1, 2}");
}

#[test]
fn test_render_map_inline() {
    assert_eq!(
        render(vec![131, 116, 0, 0, 0, 1, 97, 1, 97, 2], 2, 4),
        "#{1 => 2}"
    );
}

#[test]
fn test_render_map_multiline() {
    let bytes = vec![
        131, 116, 0, 0, 0, 5, 97, 1, 97, 2, 97, 3, 97, 4, 97, 5, 97, 6, 97, 7, 97, 8, 97, 9, 97,
        10,
    ];
    assert_eq!(
        render(bytes, 2, 4),
        "#{\n  1 => 2, \n  3 => 4, \n  5 => 6, \n  7 => 8, \n  9 => 10\n}"
    );
}

#[test]
fn test_inline_boundary_at_max() {
    // exactly max_inline_elements basic integers stay on one line
    let bytes = vec![131, 108, 0, 0, 0, 4, 97, 1, 97, 2, 97, 3, 97, 4, 106];
    assert_eq!(render(bytes, 2, 4), "[1, 2, 3, 4]");
}

#[test]
fn test_inline_boundary_above_max() {
    // one element more goes multi-line, indented one level deeper
    let bytes = vec![131, 108, 0, 0, 0, 5, 97, 1, 97, 2, 97, 3, 97, 4, 97, 5, 106];
    assert_eq!(render(bytes, 2, 4), "[\n  1, \n  2, \n  3, \n  4, \n  5\n]");
}

#[test]
fn test_nested_collection_forces_multiline() {
    // a non-basic element makes the outer collection multi-line
    let bytes = vec![131, 104, 1, 104, 0];
    assert_eq!(render(bytes, 2, 4), "{\n  {}\n}");
}

#[test]
fn test_render_improper_list() {
    let bytes = vec![131, 108, 0, 0, 0, 1, 97, 1, 100, 0, 2, b'h', b'i'];
    assert_eq!(render(bytes, 2, 4), "[1, hi]");
}

#[test]
fn test_render_new_float() {
    let bits: u64 = (1.5f64).to_bits();
    let mut buf = vec![131, 70];
    buf.extend_from_slice(&bits.to_be_bytes());
    assert_eq!(render(buf, 2, 4), "1.5");
}

#[test]
fn test_render_old_float() {
    let text = b"1.50000000000000000000e+00";
    let mut buf = vec![131, 99];
    buf.extend_from_slice(text);
    buf.extend_from_slice(&[0, 0, 0]);
    assert_eq!(render(buf, 2, 4), "1.5");
}

#[test]
fn test_render_is_pure() {
    // rendering the same tree twice yields identical text
    let bytes = vec![131, 108, 0, 0, 0, 5, 97, 1, 97, 2, 97, 3, 97, 4, 97, 5, 106];
    let mut p = Parser::new(bytes);
    let t = p.parse().unwrap();
    let texts = float_texts(&p);
    let pp = PrettyPrinter::new(&t, 2, 4, p.symtable(), &texts);
    let first = pp.format();
    let second = pp.format();
    assert_eq!(first, second);
}

#[test]
fn test_indent_width_respected() {
    let bytes = vec![131, 108, 0, 0, 0, 5, 97, 1, 97, 2, 97, 3, 97, 4, 97, 5, 106];
    assert_eq!(render(bytes, 4, 4), "[\n    1, \n    2, \n    3, \n    4, \n    5\n]");
}

#[test]
fn test_defaults() {
    assert_eq!(DEFAULT_INDENT_WIDTH, 2);
    assert_eq!(DEFAULT_MAX_TERMS_PER_LINE, 4);
}

#[test]
fn test_is_printable() {
    assert!(is_printable(0x20));
    assert!(is_printable(0x7e));
    assert!(!is_printable(0x1f));
    assert!(!is_printable(0x7f));
    assert!(!is_printable(10));
}

#[test]
fn test_is_basic() {
    assert!(BertTerm::Int(1).is_basic());
    assert!(BertTerm::Nil.is_basic());
    assert!(!BertTerm::Tuple(vec![]).is_basic());
    assert!(!BertTerm::List(vec![]).is_basic());
    assert!(!BertTerm::Dict(vec![], vec![]).is_basic());
}
