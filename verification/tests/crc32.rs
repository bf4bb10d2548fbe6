use receptor::crc32::{append_crc32_poly, verify_crc32_poly};

fn flip_bit_at(s: String, idx: usize) -> String {
    let mut bytes: Vec<u8> = s.chars().map(|c| if c == '1' { 1 } else { 0 }).collect();
    if idx < bytes.len() {
        bytes[idx] ^= 1;
    }
    bytes.into_iter().map(|b| if b == 1 { '1' } else { '0' }).collect()
}

#[test]
fn crc_no_error_varias_longitudes() {
    let casos = vec!["1", "10101", "1110001110001"];
    for msg in casos {
        let codeword = append_crc32_poly(msg).expect("emisor crc");
        let v = verify_crc32_poly(&codeword).expect("verificar");
        assert!(v.valid, "debería ser válido");
        assert_eq!(v.original_message.unwrap(), msg);
    }
}

#[test]
fn crc_error_un_bit() {
    let casos = vec!["1", "10101", "1110001110001"];
    for msg in casos {
        let codeword = append_crc32_poly(msg).expect("emisor crc");
        let idx = codeword.len() / 2;
        let tampered = flip_bit_at(codeword, idx);
        let v = verify_crc32_poly(&tampered).expect("verificar");
        assert!(!v.valid, "debería ser inválido por 1 error");
    }
}

#[test]
fn crc_error_dos_o_mas_bits() {
    let casos = vec!["1", "10101", "1110001110001"];
    for msg in casos {
        let codeword = append_crc32_poly(msg).expect("emisor crc");
        let mut tampered = flip_bit_at(codeword.clone(), 0);
        tampered = flip_bit_at(tampered, codeword.len() - 1);
        let v = verify_crc32_poly(&tampered).expect("verificar");
        assert!(!v.valid, "debería ser inválido por 2+ errores");
    }
}
