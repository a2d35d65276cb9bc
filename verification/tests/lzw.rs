use bs::error::FormatError;
use bs::lzw::{decode, encode};

fn noise(n: usize) -> Vec<u8> {
    let mut x: u32 = 12345;
    let mut out = Vec::with_capacity(n);
    for _ in 0..n {
        x = x.wrapping_mul(1103515245).wrapping_add(12345) & 0x7fff_ffff;
        out.push((x >> 16) as u8);
    }
    out
}

fn codes(list: &[(u32, usize)]) -> Vec<u8> {
    let mut bits = Vec::new();
    for &(code, width) in list {
        for i in 0..width {
            bits.push((code >> i) & 1 == 1);
        }
    }
    let mut out = vec![0u8; (bits.len() + 7) / 8];
    for (i, b) in bits.iter().enumerate() {
        if *b {
            out[i / 8] |= 1 << (i % 8);
        }
    }
    out
}

#[test]
fn empty_input_is_the_end_code_alone() {
    assert_eq!(encode(&[]), vec![1, 1]);
    assert_eq!(decode(&[1, 1]), Ok(Vec::new()));
}

#[test]
fn known_streams() {
    assert_eq!(encode(b"A"), vec![65, 2, 2]);
    assert_eq!(encode(b"ABABABA"), vec![65, 132, 8, 36, 24, 16]);
    assert_eq!(encode(b"aaaaaaa"), vec![97, 4, 14, 12, 19, 16]);
    assert_eq!(
        encode(b"TOBEORNOTTOBEORTOBEORNOT"),
        vec![84, 158, 8, 41, 242, 68, 138, 147, 39, 84, 4, 18, 52, 184, 176, 224, 193, 132, 1, 1]
    );
    assert_eq!(encode(b"ABABABA"), codes(&[(65, 9), (66, 9), (258, 9), (260, 9), (257, 9)]));
}

#[test]
fn known_streams_are_decoded() {
    assert_eq!(decode(&[65, 2, 2]), Ok(b"A".to_vec()));
    assert_eq!(decode(&[65, 132, 8, 36, 24, 16]), Ok(b"ABABABA".to_vec()));
    assert_eq!(decode(&[97, 4, 14, 12, 19, 16]), Ok(b"aaaaaaa".to_vec()));
}

#[test]
fn a_code_not_yet_learnt_repeats_the_first_byte() {
    let file = codes(&[(97, 9), (258, 9), (259, 9), (257, 9)]);
    assert_eq!(decode(&file), Ok(b"aaaaaa".to_vec()));
}

#[test]
fn clear_code_starts_over() {
    let file = codes(&[(97, 9), (98, 9), (258, 9), (256, 9), (99, 9), (99, 9), (258, 9), (257, 9)]);
    assert_eq!(decode(&file), Ok(b"ababcccc".to_vec()));
    let file = codes(&[(256, 9), (256, 9), (120, 9), (256, 9), (257, 9)]);
    assert_eq!(decode(&file), Ok(b"x".to_vec()));
}

#[test]
fn whatever_follows_the_end_code_is_ignored() {
    let mut file = codes(&[(65, 9), (257, 9)]);
    file.extend_from_slice(&[0xff; 5]);
    assert_eq!(decode(&file), Ok(b"A".to_vec()));
}

#[test]
fn a_stream_that_ends_early_is_an_error() {
    assert_eq!(decode(&[]), Err(FormatError::TruncatedStream));
    assert_eq!(decode(&[65]), Err(FormatError::TruncatedStream));
    assert_eq!(decode(&codes(&[(65, 9), (66, 9)])), Err(FormatError::TruncatedStream));
    let mut file = encode(b"TOBEORNOTTOBEORTOBEORNOT");
    file.truncate(file.len() - 2);
    assert_eq!(decode(&file), Err(FormatError::TruncatedStream));
}

#[test]
fn a_code_out_of_range_is_an_error() {
    assert_eq!(decode(&codes(&[(300, 9), (257, 9)])), Err(FormatError::CodeOutOfRange));
    assert_eq!(decode(&codes(&[(258, 9), (257, 9)])), Err(FormatError::CodeOutOfRange));
    assert_eq!(decode(&codes(&[(65, 9), (259, 9), (257, 9)])), Err(FormatError::CodeOutOfRange));
    assert_eq!(
        decode(&codes(&[(65, 9), (256, 9), (258, 9), (257, 9)])),
        Err(FormatError::CodeOutOfRange)
    );
    assert_eq!(decode(&codes(&[(65, 9), (258, 9), (257, 9)])), Ok(b"AAA".to_vec()));
}

#[test]
fn codewords_grow_wider() {
    let input = noise(3000);
    let file = encode(&input);
    assert_eq!(decode(&file), Ok(input));
    let mut list = Vec::new();
    let mut input = Vec::new();
    for k in 0..254u32 {
        let b = (k % 200) as u8;
        list.push((b as u32, 9usize));
        input.push(b);
    }
    list.push((7, 10));
    input.push(7);
    list.push((257, 10));
    assert_eq!(decode(&codes(&list)), Ok(input));
}

#[test]
fn the_end_code_is_as_wide_as_the_next_code_would_be() {
    let mut input = Vec::new();
    let mut list = Vec::new();
    for k in 0..254u32 {
        input.push(k as u8);
        list.push((k, 9usize));
    }
    list.push((257, 10));
    let file = encode(&input);
    assert_eq!(file, codes(&list));
    assert_eq!(decode(&file), Ok(input));
}

#[test]
fn lzw_decode_inverts_encode() {
    for len in [1usize, 2, 3, 255, 256, 257, 1000, 70000] {
        let input = noise(len);
        assert_eq!(decode(&encode(&input)), Ok(input));
    }
    let text: Vec<u8> = b"to be or not to be, that is the question; ".iter().cycle().take(50000).cloned().collect();
    let file = encode(&text);
    assert!(file.len() < text.len() / 4);
    assert_eq!(decode(&file), Ok(text));
    assert_eq!(decode(&encode(&vec![0u8; 100000])), Ok(vec![0u8; 100000]));
}

#[test]
fn lzw_encoding_is_a_function_of_the_input() {
    let input = noise(20000);
    assert_eq!(encode(&input), encode(&input));
}

#[test]
fn a_full_dictionary_is_cleared() {
    let input = noise(9_200_000);
    let file = encode(&input);
    assert_eq!(decode(&file), Ok(input));
}
