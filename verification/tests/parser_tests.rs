use ppbert::bertterm::BertTerm;
use ppbert::error::BertError;
use ppbert::parser::Parser;

#[test]
fn test_varint() {
    assert_eq!(1, {
        match Parser::new(vec![1]).parse_varint() {
            Ok(x) => x,
            Err(_) => u64::max_value(),
        }
    });

    assert_eq!(300, {
        match Parser::new(vec![0b1010_1100, 0b0000_0010]).parse_varint() {
            Ok(x) => x,
            Err(_) => u64::max_value(),
        }
    });

    assert!(Parser::new(vec![0xff, 0xff, 0xff, 0xff, 0xff, 0xff, 0xff, 0x7f])
        .parse_varint()
        .is_ok());
    assert!(Parser::new(vec![0xff, 0xff, 0xff, 0xff, 0xff, 0xff, 0xff, 0x80])
        .parse_varint()
        .is_err());
}

#[test]
fn test_varint_three_byte_groups() {
    // groups are least significant first: 0x04 | 0x03<<7 | 0x02<<14
    let v = Parser::new(vec![0x84, 0x83, 0x02]).parse_varint().unwrap();
    assert_eq!(v, 0x04 + (0x03 << 7) + (0x02 << 14));
}

#[test]
fn test_small_integer() {
    let mut p = Parser::new(vec![131, 97, 42]);
    assert_eq!(p.parse().unwrap(), BertTerm::Int(42));
}

#[test]
fn test_integer_negative() {
    let mut p = Parser::new(vec![131, 98, 0xff, 0xff, 0xff, 0xfe]);
    assert_eq!(p.parse().unwrap(), BertTerm::Int(-2));
}

#[test]
fn test_integer_positive() {
    let mut p = Parser::new(vec![131, 98, 0x00, 0x01, 0x02, 0x03]);
    assert_eq!(p.parse().unwrap(), BertTerm::Int(0x010203));
}

#[test]
fn test_bigint_positive() {
    // digit bytes [2, 1] with sign byte 0 decode to 2 + 1*256 = 258
    let mut p = Parser::new(vec![131, 110, 2, 0, 2, 1]);
    match p.parse().unwrap() {
        BertTerm::BigInt { negative, digits } => {
            assert!(!negative);
            assert_eq!(digits, vec![2, 1]);
        }
        t => panic!("expected a big integer, got {:?}", t),
    }
}

#[test]
fn test_bigint_negative() {
    // the same digits with sign byte 1 decode to -258
    let mut p = Parser::new(vec![131, 110, 2, 1, 2, 1]);
    match p.parse().unwrap() {
        BertTerm::BigInt { negative, digits } => {
            assert!(negative);
            assert_eq!(digits, vec![2, 1]);
        }
        t => panic!("expected a big integer, got {:?}", t),
    }
}

#[test]
fn test_atom_roundtrip() {
    // an ASCII atom payload "ok" resolves to the text "ok"
    let mut p = Parser::new(vec![131, 100, 0, 2, b'o', b'k']);
    match p.parse().unwrap() {
        BertTerm::Atom { offset, length } => {
            assert_eq!(p.symtable().get(offset, length), vec!['o', 'k']);
        }
        t => panic!("expected an atom, got {:?}", t),
    }
}

#[test]
fn test_small_atom_latin1() {
    // a SMALL_ATOM payload with a high byte decodes as Latin-1
    let mut p = Parser::new(vec![131, 115, 2, 0xe9, b'a']);
    match p.parse().unwrap() {
        BertTerm::Atom { offset, length } => {
            assert_eq!(p.symtable().get(offset, length), vec!['\u{e9}', 'a']);
        }
        t => panic!("expected an atom, got {:?}", t),
    }
}

#[test]
fn test_atom_utf8() {
    let mut p = Parser::new(vec![131, 119, 2, 0xc3, 0xa9]);
    match p.parse().unwrap() {
        BertTerm::Atom { offset, length } => {
            assert_eq!(p.symtable().get(offset, length), vec!['\u{e9}']);
        }
        t => panic!("expected an atom, got {:?}", t),
    }
}

#[test]
fn test_atom_utf8_invalid() {
    let mut p = Parser::new(vec![131, 119, 2, 0xff, 0xff]);
    assert_eq!(p.parse().unwrap_err(), BertError::InvalidUTF8Atom(3));
}

#[test]
fn test_improper_list_tail_appended() {
    // a list [1 | hi] with a non-Nil atom tail appends the tail
    let mut p = Parser::new(vec![131, 108, 0, 0, 0, 1, 97, 1, 100, 0, 2, b'h', b'i']);
    match p.parse().unwrap() {
        BertTerm::List(elems) => {
            assert_eq!(elems.len(), 2);
            assert_eq!(elems[0], BertTerm::Int(1));
            match elems[1] {
                BertTerm::Atom { offset, length } => {
                    assert_eq!(p.symtable().get(offset, length), vec!['h', 'i']);
                }
                ref t => panic!("expected an atom tail, got {:?}", t),
            }
        }
        t => panic!("expected a list, got {:?}", t),
    }
}

#[test]
fn test_proper_list_drops_nil_tail() {
    let mut p = Parser::new(vec![131, 108, 0, 0, 0, 2, 97, 1, 97, 2, 106]);
    assert_eq!(
        p.parse().unwrap(),
        BertTerm::List(vec![BertTerm::Int(1), BertTerm::Int(2)])
    );
}

#[test]
fn test_invalid_marker_at_offset_zero() {
    let mut p = Parser::new(vec![0, 97, 1]);
    assert_eq!(p.parse().unwrap_err(), BertError::InvalidMagicNumber(0));
}

#[test]
fn test_empty_buffer_eof() {
    let mut p = Parser::new(vec![]);
    assert_eq!(p.parse().unwrap_err(), BertError::EOF(0));
}

#[test]
fn test_truncated_integer_eof() {
    // a well-formed 4-byte integer encoding cut one byte short
    let mut p = Parser::new(vec![131, 98, 0x00, 0x01, 0x02]);
    assert_eq!(p.parse().unwrap_err(), BertError::EOF(5));
}

#[test]
fn test_truncated_atom_eof() {
    let mut p = Parser::new(vec![131, 100, 0, 2, b'o']);
    assert_eq!(p.parse().unwrap_err(), BertError::EOF(5));
}

#[test]
fn test_truncated_list_eof() {
    // a proper list encoding cut one byte short (missing its Nil tail)
    let mut p = Parser::new(vec![131, 108, 0, 0, 0, 1, 97, 1]);
    assert_eq!(p.parse().unwrap_err(), BertError::EOF(8));
}

#[test]
fn test_invalid_tag() {
    let mut p = Parser::new(vec![131, 200, 1]);
    assert_eq!(p.parse().unwrap_err(), BertError::InvalidTag(1, 200));
}

#[test]
fn test_extra_data() {
    let mut p = Parser::new(vec![131, 97, 1, 0]);
    assert_eq!(p.parse().unwrap_err(), BertError::ExtraData(3));
}

#[test]
fn test_invalid_float_text() {
    let mut p = Parser::new(vec![131, 99, b'a', 0]);
    assert_eq!(p.parse().unwrap_err(), BertError::InvalidFloat(2));
}

#[test]
fn test_old_float_payload_kept() {
    let text = b"1.50000000000000000000e+00";
    let mut buf = vec![131, 99];
    buf.extend_from_slice(text);
    buf.extend_from_slice(&[0, 0, 0, 0, 0]);
    let mut p = Parser::new(buf);
    match p.parse().unwrap() {
        BertTerm::Float { idx } => {
            assert_eq!(idx, 0);
            match &p.floats()[0] {
                ppbert::bertterm::FloatEnc::Text(t) => assert_eq!(t.as_slice(), text),
                e => panic!("expected a text float payload, got {:?}", e),
            }
        }
        t => panic!("expected a float, got {:?}", t),
    }
}

#[test]
fn test_new_float_bits_kept() {
    let bits: u64 = (1.5f64).to_bits();
    let mut buf = vec![131, 70];
    buf.extend_from_slice(&bits.to_be_bytes());
    let mut p = Parser::new(buf);
    match p.parse().unwrap() {
        BertTerm::Float { idx } => {
            assert_eq!(idx, 0);
            assert_eq!(p.floats()[0], ppbert::bertterm::FloatEnc::Ieee(bits));
        }
        t => panic!("expected a float, got {:?}", t),
    }
}

#[test]
fn test_parse_bert2_records() {
    // two length-prefixed records, each a marker plus one small integer
    let mut p = Parser::new(vec![3, 131, 97, 1, 3, 131, 97, 2]);
    assert_eq!(
        p.parse_bert2().unwrap(),
        vec![BertTerm::Int(1), BertTerm::Int(2)]
    );
}

#[test]
fn test_parse_bert2_empty() {
    let mut p = Parser::new(vec![]);
    assert_eq!(p.parse_bert2().unwrap(), Vec::<BertTerm>::new());
}

#[test]
fn test_eof_fn() {
    let p = Parser::new(vec![]);
    assert!(p.eof());
    let q = Parser::new(vec![1]);
    assert!(!q.eof());
}
