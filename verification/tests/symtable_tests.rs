use ppbert::floatlit::is_float_text;
use ppbert::symtable::Symtable;

#[test]
fn test_symtable_add_and_get() {
    let mut t = Symtable::new();
    let (o1, l1) = t.add(&vec!['o', 'k']);
    let (o2, l2) = t.add(&vec!['h', 'i', '!']);
    assert_eq!((o1, l1), (0, 2));
    assert_eq!((o2, l2), (2, 3));
    assert_eq!(t.get(o1, l1), vec!['o', 'k']);
    assert_eq!(t.get(o2, l2), vec!['h', 'i', '!']);
    assert_eq!(t.len(), 5);
}

#[test]
fn test_symtable_no_dedup() {
    let mut t = Symtable::with_capacity(16);
    let h1 = t.add(&vec!['a']);
    let h2 = t.add(&vec!['a']);
    assert_ne!(h1, h2);
    assert_eq!(t.get(h1.0, h1.1), t.get(h2.0, h2.1));
}

#[test]
fn test_symtable_empty() {
    let t = Symtable::new();
    assert_eq!(t.len(), 0);
    assert_eq!(t.get(0, 0), Vec::<char>::new());
}

#[test]
fn test_float_literal_recognizer() {
    assert!(is_float_text(&b"1.5".to_vec()));
    assert!(is_float_text(&b"-2.25e10".to_vec()));
    assert!(is_float_text(&b"+.5".to_vec()));
    assert!(is_float_text(&b"3.".to_vec()));
    assert!(is_float_text(&b"inf".to_vec()));
    assert!(is_float_text(&b"-Infinity".to_vec()));
    assert!(is_float_text(&b"NaN".to_vec()));
    assert!(is_float_text(&b"1.50000000000000000000e+00".to_vec()));
    assert!(!is_float_text(&b"".to_vec()));
    assert!(!is_float_text(&b".".to_vec()));
    assert!(!is_float_text(&b"a".to_vec()));
    assert!(!is_float_text(&b"1.5e".to_vec()));
    assert!(!is_float_text(&b"1.5x".to_vec()));
    assert!(!is_float_text(&b"--1".to_vec()));
}
