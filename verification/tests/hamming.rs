use receptor::hamming::{decode_stream, encode_stream};

fn flip_bit(s: String, idx: usize) -> String {
    let mut v: Vec<u8> = s.chars().map(|c| if c == '1' { 1 } else { 0 }).collect();
    if idx < v.len() {
        v[idx] ^= 1;
    }
    v.into_iter().map(|b| if b == 1 { '1' } else { '0' }).collect()
}

#[test]
fn hamming_sin_errores_varias_longitudes() {
    let n = 7;
    let casos = vec!["1011", "10110010", "111000111000"];
    for data in casos {
        let codeword = encode_stream(data, n).expect("emisor hamming");
        let res = decode_stream(&codeword, n).expect("decodificar");
        assert!(res.corrected_positions.is_empty(), "no debería corregir");
        assert_eq!(res.data_bits, data);
    }
}

#[test]
fn hamming_un_error_corregible() {
    let n = 7;
    let casos = vec!["1011", "10110010", "111000111000"];
    for data in casos {
        let codeword = encode_stream(data, n).expect("emisor hamming");
        let tampered = flip_bit(codeword, 3);
        let res = decode_stream(&tampered, n).expect("decodificar");
        assert!(!res.corrected_positions.is_empty(), "debería corregir 1 error");
        assert_eq!(res.data_bits, data, "datos corregidos deben coincidir");
    }
}

#[test]
fn hamming_dos_errores_en_bloques_distintos() {
    let n = 7;
    let casos = vec!["10110010", "111000111000"];
    for data in casos {
        let codeword = encode_stream(data, n).expect("emisor hamming");
        let mut tampered = flip_bit(codeword.clone(), 2);
        tampered = flip_bit(tampered, 8);
        let res = decode_stream(&tampered, n).expect("decodificar");
        assert!(
            res.corrected_positions.len() >= 2,
            "debería corregir 2 errores en bloques distintos"
        );
        assert_eq!(res.data_bits, data, "datos corregidos deben coincidir");
    }
}
