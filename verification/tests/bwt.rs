use bs::bwt::{
    build_matrix, decode, decode_block, encode, encode_SA, encode_block, encode_naive,
    transform_block, BATCH_SIZE, BLOCK,
};
use bs::error::FormatError;

fn noise(n: usize, seed: u32) -> Vec<u8> {
    let mut x = seed;
    let mut out = Vec::with_capacity(n);
    for _ in 0..n {
        x = x.wrapping_mul(1103515245).wrapping_add(12345) & 0x7fff_ffff;
        out.push((x >> 16) as u8);
    }
    out
}

#[test]
fn banana_block_is_the_same_by_both_ways() {
    let block = b"banana  ";
    let naive = encode_naive(block);
    let suffix = encode_block(block);
    assert_eq!(naive, (vec![97, 32, 110, 110, 98, 32, 97, 97], 5));
    assert_eq!(suffix, naive);
}

#[test]
fn banana_file() {
    assert_eq!(encode(b"banana"), vec![110, 110, 98, 97, 97, 97, 3]);
    assert_eq!(encode_SA(b"banana"), vec![110, 110, 98, 97, 97, 97, 3]);
    assert_eq!(decode(&[110, 110, 98, 97, 97, 97, 3]), Ok(b"banana".to_vec()));
}

#[test]
fn matrix_rows_are_the_block_turned_to_the_left() {
    assert_eq!(
        build_matrix(b"abcX", 3),
        vec![vec![0, b'a', b'b', b'c'], vec![1, b'b', b'c', b'a'], vec![2, b'c', b'a', b'b']]
    );
    assert_eq!(build_matrix(b"", 0), Vec::<Vec<u8>>::new());
}

#[test]
fn a_block_that_repeats_itself_is_named_by_its_first_row() {
    assert_eq!(encode_naive(b"abab"), (b"bbaa".to_vec(), 0));
    assert_eq!(encode_block(b"abab"), (b"bbaa".to_vec(), 0));
    assert_eq!(decode_block(b"bbaa", 0), Ok(b"abab".to_vec()));
    assert_eq!(decode_block(b"bbaa", 1), Ok(b"abab".to_vec()));
    assert_eq!(encode_naive(b"aa"), (b"aa".to_vec(), 0));
    assert_eq!(encode_block(b"aa"), (b"aa".to_vec(), 0));
    assert_eq!(encode_naive(b"baba"), (b"bbaa".to_vec(), 2));
    assert_eq!(encode_block(b"baba"), (b"bbaa".to_vec(), 2));
    assert_eq!(encode_naive(b"cabcabcab"), encode_block(b"cabcabcab"));
    assert_eq!(encode_block(b"cabcabcab").1, 6);
    assert_eq!(decode(&encode(b"aaaaaa")), Ok(b"aaaaaa".to_vec()));
    assert_eq!(decode(&encode_SA(b"aaaaaa")), Ok(b"aaaaaa".to_vec()));
}

#[test]
fn both_ways_give_the_same_file_for_blocks_that_repeat_themselves() {
    assert_eq!(encode(&[97, 97]), vec![97, 97, 0]);
    assert_eq!(encode_SA(&[97, 97]), vec![97, 97, 0]);
    let mut input = Vec::new();
    for i in 0..700usize {
        input.push(b"xyz"[i % 3]);
    }
    for i in 0..300usize {
        input.push(if i % 64 == 0 { 1 } else { 0 });
    }
    input.extend_from_slice(&[9u8; 256]);
    let by_table = encode(&input);
    let by_suffixes = encode_SA(&input);
    assert_eq!(by_table, by_suffixes);
    assert_eq!(decode(&by_table), Ok(input));
    for len in 1..40usize {
        for period in 1..=len {
            let block: Vec<u8> = (0..len).map(|i| b"abac"[(i % period) % 4]).collect();
            assert_eq!(encode_naive(&block), encode_block(&block));
        }
    }
}

#[test]
fn empty_and_single_byte_blocks() {
    assert_eq!(encode_naive(b""), (vec![], 0));
    assert_eq!(encode_block(b""), (vec![], 0));
    assert_eq!(encode_naive(b"q"), (vec![b'q'], 0));
    assert_eq!(encode_block(b"q"), (vec![b'q'], 0));
    assert_eq!(decode_block(b"q", 0), Ok(vec![b'q']));
}

#[test]
fn empty_file_is_transformed_to_an_empty_file() {
    assert_eq!(encode(&[]), Vec::<u8>::new());
    assert_eq!(encode_SA(&[]), Vec::<u8>::new());
    assert_eq!(decode(&[]), Ok(Vec::new()));
}

#[test]
fn single_byte_file() {
    assert_eq!(encode(&[42]), vec![42, 0]);
    assert_eq!(encode_SA(&[42]), vec![42, 0]);
    assert_eq!(decode(&[42, 0]), Ok(vec![42]));
}

#[test]
fn a_primary_index_outside_the_block_is_an_error() {
    assert_eq!(decode_block(b"abc", 3), Err(FormatError::PrimaryIndexOutOfRange));
    assert_eq!(decode_block(b"", 0), Err(FormatError::PrimaryIndexOutOfRange));
    assert_eq!(decode(&[7]), Err(FormatError::PrimaryIndexOutOfRange));
    assert_eq!(decode(&[b'a', b'b', 2]), Err(FormatError::PrimaryIndexOutOfRange));
    let mut file = encode(&noise(600, 1));
    assert_eq!(file.len(), 603);
    let last = file.len() - 1;
    file[last] = 88;
    assert_eq!(decode(&file), Err(FormatError::PrimaryIndexOutOfRange));
    let mut file = encode(&noise(600, 1));
    file[256] = 0;
    assert!(decode(&file).is_ok());
}

#[test]
fn full_block_uses_the_whole_index_byte() {
    let block: Vec<u8> = (0..=255u8).rev().collect();
    let (permuted, primary) = encode_naive(&block);
    assert_eq!(primary, 255);
    assert_eq!(encode_block(&block), (permuted.clone(), 255));
    assert_eq!(decode_block(&permuted, primary), Ok(block));
}

#[test]
fn files_of_several_blocks_come_back() {
    for len in [255usize, 256, 257, 511, 512, 513, 1000] {
        let input = noise(len, len as u32);
        let naive = encode(&input);
        let suffix = encode_SA(&input);
        assert_eq!(naive.len(), len + (len + BLOCK - 1) / BLOCK);
        assert_eq!(naive, suffix);
        assert_eq!(decode(&naive), Ok(input));
    }
}

#[test]
fn encoding_twice_gives_the_same_file() {
    let input = noise(3000, 99);
    assert_eq!(encode(&input), encode(&input));
    assert_eq!(encode_SA(&input), encode_SA(&input));
}

#[test]
fn records_keep_the_order_of_the_blocks() {
    let mut input = Vec::new();
    for b in 0..40u8 {
        for i in 0..256usize {
            input.push(if i == 0 { b } else { 200 });
        }
    }
    let file = encode_SA(&input);
    for b in 0..40usize {
        let record = &file[257 * b..257 * b + 257];
        let block = input[256 * b..256 * b + 256].to_vec();
        let (permuted, primary) = transform_block(&block, true);
        assert_eq!(&record[..256], &permuted[..]);
        assert_eq!(record[256], primary);
        assert!(permuted != block);
    }
    assert_eq!(decode(&file), Ok(input));
}

#[test]
fn more_blocks_than_one_batch() {
    let input = noise(BLOCK * BATCH_SIZE + 700, 5);
    let file = encode_SA(&input);
    assert_eq!(file.len(), input.len() + BATCH_SIZE + 3);
    assert_eq!(decode(&file), Ok(input));
}
