use ternary_systems::opcode::{discrete_opcode_encode, discrete_opcode_validate};

#[test]
fn encode_appends_checksum() {
    assert_eq!(discrete_opcode_encode(5), "120");
    assert_eq!(discrete_opcode_encode(7), "210");
    assert_eq!(discrete_opcode_encode(4), "112");
    assert_eq!(discrete_opcode_encode(0), "00");
    assert_eq!(discrete_opcode_encode(-5), "-120");
}

#[test]
fn encoded_opcodes_validate() {
    for n in -300..300 {
        assert!(discrete_opcode_validate(&discrete_opcode_encode(n)));
    }
    assert!(discrete_opcode_validate(&discrete_opcode_encode(i32::MAX)));
    assert!(discrete_opcode_validate(&discrete_opcode_encode(i32::MIN)));
}

#[test]
fn changed_checksum_fails() {
    for n in -100..100 {
        let enc = discrete_opcode_encode(n);
        let (code, last) = enc.split_at(enc.len() - 1);
        for d in ['0', '1', '2'] {
            if last.chars().next() != Some(d) {
                let flipped = format!("{}{}", code, d);
                assert!(!discrete_opcode_validate(&flipped));
            }
        }
    }
}

#[test]
fn short_or_bad_checksum_rejected() {
    assert!(!discrete_opcode_validate(""));
    assert!(!discrete_opcode_validate("1"));
    assert!(!discrete_opcode_validate("12a"));
    assert!(!discrete_opcode_validate("123"));
}
