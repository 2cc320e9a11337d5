use lspci_json::code::CodeError;
use lspci_json::code::PciCode;

fn halves(code: &PciCode) -> (String, String) {
    (code.hex[0].clone(), code.hex[1].clone())
}

#[test]
fn decode_vendor_code() {
    let c = PciCode::try_from_code("8086").unwrap();
    assert_eq!(halves(&c), ("80".to_string(), "86".to_string()));
    assert_eq!(c.int, [128, 134]);
}

#[test]
fn decode_upper_and_lower_case() {
    let c = PciCode::try_from_code("9bC4").unwrap();
    assert_eq!(halves(&c), ("9b".to_string(), "C4".to_string()));
    assert_eq!(c.int, [155, 196]);
    let z = PciCode::try_from_code("0000").unwrap();
    assert_eq!(z.int, [0, 0]);
    let f = PciCode::try_from_code("ffFF").unwrap();
    assert_eq!(f.int, [255, 255]);
}

#[test]
fn decode_halves_give_back_the_code() {
    for s in ["0300", "8086", "9bc4", "10de", "abcd", "A0b1", "1af4"] {
        let c = PciCode::try_from_code(s).unwrap();
        assert_eq!(format!("{}{}", c.hex[0], c.hex[1]), s);
        for i in 0..2 {
            assert_eq!(c.int[i], u32::from_str_radix(&c.hex[i], 16).unwrap());
        }
    }
}

#[test]
fn decode_rejects_non_hex() {
    assert_eq!(PciCode::try_from_code("12G4").unwrap_err(), CodeError::NotHex);
    assert_eq!(PciCode::try_from_code("+1+2").unwrap_err(), CodeError::NotHex);
    assert_eq!(PciCode::try_from_code(" 123").unwrap_err(), CodeError::NotHex);
    assert_eq!(PciCode::try_from_code("030]").unwrap_err(), CodeError::NotHex);
}

#[test]
fn decode_rejects_wrong_length() {
    assert_eq!(PciCode::try_from_code("123").unwrap_err(), CodeError::Length);
    assert_eq!(PciCode::try_from_code("12345").unwrap_err(), CodeError::Length);
    assert_eq!(PciCode::try_from_code("").unwrap_err(), CodeError::Length);
    assert_eq!(PciCode::try_from_code("ab").unwrap_err(), CodeError::Length);
}

#[test]
fn decode_rejects_multibyte_text() {
    assert!(PciCode::try_from_code("ééé").is_err());
    assert_eq!(PciCode::try_from_code("12é4").unwrap_err(), CodeError::NotHex);
}
