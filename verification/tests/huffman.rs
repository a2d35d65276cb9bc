use bs::error::FormatError;
use bs::huffman::{
    build_freq_table, build_table_code, build_tree, decode, encode, read_freq_table,
    write_freq_table, HEADER_LEN,
};

fn head(counts: &[(u8, u32)], total: u32) -> Vec<u8> {
    let mut freq = vec![0u32; 256];
    for &(b, n) in counts {
        freq[b as usize] = n;
    }
    let mut out = Vec::new();
    for f in freq {
        out.extend_from_slice(&f.to_le_bytes());
    }
    out.extend_from_slice(&total.to_le_bytes());
    out
}

#[test]
fn empty_input_gives_the_head_alone() {
    let file = encode(&[]);
    assert_eq!(file, vec![0u8; 1028]);
    assert_eq!(decode(&file), Ok(Vec::new()));
}

#[test]
fn input_of_one_byte_value_has_codes_of_one_bit() {
    let file = encode(b"aaaa");
    let mut want = head(&[(b'a', 4)], 4);
    want.push(0);
    assert_eq!(file, want);
    assert_eq!(decode(&file), Ok(b"aaaa".to_vec()));
    let long = vec![7u8; 1000];
    let file = encode(&long);
    assert_eq!(file.len(), 1028 + 125);
    assert_eq!(decode(&file), Ok(long));
}

#[test]
fn known_files() {
    let file = encode(b"abracadabra");
    let mut want = head(&[(b'a', 5), (b'b', 2), (b'c', 1), (b'd', 1), (b'r', 2)], 11);
    want.extend_from_slice(&[118, 81, 59]);
    assert_eq!(file, want);
    assert_eq!(decode(&file), Ok(b"abracadabra".to_vec()));
    let file = encode(b"ab");
    let mut want = head(&[(b'a', 1), (b'b', 1)], 2);
    want.push(2);
    assert_eq!(file, want);
}

#[test]
fn counts_of_the_bytes() {
    let (freq, total) = build_freq_table(b"abracadabra");
    assert_eq!(total, 11);
    assert_eq!(freq.len(), 256);
    assert_eq!(freq[b'a' as usize], 5);
    assert_eq!(freq[b'r' as usize], 2);
    assert_eq!(freq.iter().sum::<u32>(), 11);
    let (freq, total) = build_freq_table(&[]);
    assert_eq!((freq, total), (vec![0u32; 256], 0));
}

#[test]
fn head_is_written_and_read() {
    let (freq, total) = build_freq_table(b"hello world");
    let bytes = write_freq_table(&freq, total);
    assert_eq!(bytes.len(), HEADER_LEN);
    assert_eq!(&bytes[4 * 108..4 * 108 + 4], &[3, 0, 0, 0]);
    assert_eq!(&bytes[1024..], &[11, 0, 0, 0]);
    assert_eq!(read_freq_table(&bytes), Ok((freq, total)));
    assert_eq!(write_freq_table(&[0x0102_0304, 5], 0x0a0b_0c0d), vec![4, 3, 2, 1, 5, 0, 0, 0, 13, 12, 11, 10]);
}

#[test]
fn tree_merges_the_two_least_nodes_first() {
    let mut freq = vec![0u32; 256];
    freq[97] = 5;
    freq[98] = 2;
    freq[99] = 1;
    freq[100] = 1;
    let tree = build_tree(&freq);
    assert_eq!(tree.len(), 259);
    let n = &tree[256];
    assert_eq!((n.left, n.right, n.parent, n.freq), (Some(99), Some(100), Some(257), 2));
    let n = &tree[257];
    assert_eq!((n.left, n.right, n.parent, n.freq), (Some(98), Some(256), Some(258), 4));
    let n = &tree[258];
    assert_eq!((n.left, n.right, n.parent, n.freq), (Some(257), Some(97), None, 9));
    let n = &tree[97];
    assert_eq!((n.left, n.right, n.parent, n.freq), (None, None, Some(258), 5));
    let n = &tree[0];
    assert_eq!((n.left, n.right, n.parent, n.freq), (None, None, None, 0));
    let table = build_table_code(&tree);
    assert_eq!(table.len(), 256);
    assert_eq!(table[97], (vec![1], 1));
    assert_eq!(table[98], (vec![0], 2));
    assert_eq!(table[99], (vec![2], 3));
    assert_eq!(table[100], (vec![6], 3));
    assert_eq!(table[0], (vec![], 0));
}

#[test]
fn equal_counts_are_taken_by_the_lower_place() {
    let mut freq = vec![0u32; 256];
    freq[10] = 1;
    freq[20] = 1;
    freq[30] = 1;
    let tree = build_tree(&freq);
    let n = &tree[256];
    assert_eq!((n.left, n.right, n.freq), (Some(10), Some(20), 2));
    let n = &tree[257];
    assert_eq!((n.left, n.right, n.freq), (Some(30), Some(256), 3));
}

#[test]
fn tree_without_bytes_and_with_one_byte() {
    let tree = build_tree(&vec![0u32; 256]);
    assert_eq!(tree.len(), 256);
    let mut freq = vec![0u32; 256];
    freq[65] = 3;
    let tree = build_tree(&freq);
    assert_eq!(tree.len(), 257);
    let n = &tree[256];
    assert_eq!((n.left, n.right, n.parent, n.freq), (Some(65), None, None, 3));
    assert_eq!(tree[65].parent, Some(256));
    assert_eq!(build_table_code(&tree)[65], (vec![0], 1));
}

#[test]
fn long_codes_take_several_bytes() {
    let mut input = Vec::new();
    let mut n: usize = 1;
    for b in 0..20u8 {
        for _ in 0..n {
            input.push(b);
        }
        n *= 2;
    }
    let (freq, _) = build_freq_table(&input);
    let table = build_table_code(&build_tree(&freq));
    assert_eq!(table[0].1, 19);
    assert_eq!(table[0].0.len(), 3);
    assert_eq!(table[19].1, 1);
    assert_eq!(decode(&encode(&input)), Ok(input));
}

#[test]
fn huffman_decode_inverts_encode() {
    let mut input = Vec::new();
    let mut x: u32 = 1;
    for _ in 0..70000 {
        x = x.wrapping_mul(1664525).wrapping_add(1013904223);
        let r = (x >> 24) as u8;
        input.push(if r < 128 { b'e' } else if r < 200 { r % 7 } else { r });
    }
    let file = encode(&input);
    assert!(file.len() < input.len() + 1028);
    assert_eq!(decode(&file), Ok(input));
    let all: Vec<u8> = (0..=255u8).collect();
    assert_eq!(decode(&encode(&all)), Ok(all));
}

#[test]
fn huffman_encoding_is_a_function_of_the_input() {
    let input = b"the quick brown fox jumps over the lazy dog".to_vec();
    assert_eq!(encode(&input), encode(&input));
}

#[test]
fn a_short_head_is_corrupt() {
    assert_eq!(decode(&[]), Err(FormatError::CorruptHeader));
    assert_eq!(decode(&vec![0u8; 1027]), Err(FormatError::CorruptHeader));
    assert_eq!(read_freq_table(&vec![0u8; 1027]), Err(FormatError::CorruptHeader));
}

#[test]
fn counts_that_do_not_add_up_are_corrupt() {
    let mut file = head(&[(b'a', 2), (b'b', 1)], 4);
    file.push(0);
    assert_eq!(decode(&file), Err(FormatError::CorruptHeader));
    let file = head(&[], 1);
    assert_eq!(decode(&file), Err(FormatError::CorruptHeader));
    let file = head(&[(1, u32::MAX), (2, 1)], 0);
    assert_eq!(decode(&file), Err(FormatError::CorruptHeader));
}

#[test]
fn bits_that_end_early_are_an_error() {
    let mut file = encode(b"abracadabra");
    file.pop();
    assert_eq!(decode(&file), Err(FormatError::TruncatedStream));
    let file = head(&[(b'a', 9)], 9);
    assert_eq!(decode(&file), Err(FormatError::TruncatedStream));
    let mut file = head(&[(b'a', 9)], 9);
    file.push(0);
    assert_eq!(decode(&file), Err(FormatError::TruncatedStream));
    file.push(0);
    assert_eq!(decode(&file), Ok(vec![b'a'; 9]));
}

#[test]
fn a_bit_without_a_child_is_an_error() {
    let mut file = head(&[(b'a', 2)], 2);
    file.push(0b10);
    assert_eq!(decode(&file), Err(FormatError::CodeOutOfRange));
}

#[test]
fn bits_behind_the_last_byte_are_ignored() {
    let mut file = encode(b"abracadabra");
    file.extend_from_slice(&[0xff, 0xff]);
    assert_eq!(decode(&file), Ok(b"abracadabra".to_vec()));
}

#[test]
fn codes_of_the_tree_take_the_fewest_bits() {
    let input = b"abracadabra";
    let (freq, _) = build_freq_table(input);
    let table = build_table_code(&build_tree(&freq));
    let bits: usize = input.iter().map(|&b| table[b as usize].1).sum();
    assert_eq!(bits, 23);
    let other = |b: u8| match b {
        b'a' => 2,
        b'b' => 2,
        b'r' => 2,
        _ => 3,
    };
    let other_bits: usize = input.iter().map(|&b| other(b)).sum();
    assert_eq!(other_bits, 24);
    let fixed_bits = 3 * input.len();
    assert!(bits <= other_bits && bits <= fixed_bits);
}
