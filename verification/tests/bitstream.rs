use bs::error::StreamError;
use bs::{BitStream, Mode, BUFFER_SIZE};

fn pattern(n: usize) -> Vec<u8> {
    let mut x: u32 = 2463534242;
    let mut out = Vec::with_capacity(n);
    for _ in 0..n {
        x ^= x << 13;
        x ^= x >> 17;
        x ^= x << 5;
        out.push((x >> 11) as u8);
    }
    out
}

fn low_bits(v: &[u8], n: usize) -> Vec<u8> {
    let mut out = vec![0u8; (n + 7) / 8];
    for i in 0..n {
        if (v[i / 8] >> (i % 8)) & 1 == 1 {
            out[i / 8] |= 1 << (i % 8);
        }
    }
    out
}

#[test]
fn bits_are_packed_from_the_lowest_bit_up() {
    let mut w = BitStream::new_file(Vec::new(), Mode::Write);
    w.write_bit_sequence(&[0b101], 3);
    w.write_bit_sequence(&[0xff], 5);
    w.close();
    assert_eq!(w.into_file(), vec![0b1111_1101]);
}

#[test]
fn bits_beyond_the_width_are_not_written() {
    let mut w = BitStream::new_file(Vec::new(), Mode::Write);
    w.write_bit_sequence(&[0xff, 0xff], 1);
    w.write_bit_sequence(&[0x00], 2);
    w.write_bit_sequence(&[0xff, 0xff], 9);
    w.close();
    assert_eq!(w.into_file(), vec![0b1111_1001, 0b0000_1111]);
}

#[test]
fn close_pads_the_last_byte_with_zero_bits() {
    let mut w = BitStream::new_file(Vec::new(), Mode::Write);
    w.write_bit_sequence(&[1], 1);
    w.close();
    assert_eq!(w.into_file(), vec![1]);
}

#[test]
fn close_of_a_stream_without_bits_writes_nothing() {
    let mut w = BitStream::new(&[9, 9, 9], Mode::Write);
    w.close();
    assert_eq!(w.into_file(), Vec::<u8>::new());
}

#[test]
fn read_returns_the_low_bits_written_for_every_width() {
    let v: [u8; 8] = [0xa5, 0x3c, 0xff, 0x01, 0x80, 0x7e, 0x55, 0xaa];
    for n in 0..=64usize {
        for lead in 0..8usize {
            let mut w = BitStream::new_file(Vec::new(), Mode::Write);
            w.write_bit_sequence(&[0xff], lead);
            w.write_bit_sequence(&v, n);
            w.close();
            let file = w.into_file();
            assert_eq!(file.len(), (lead + n + 7) / 8);
            let mut r = BitStream::new(&file, Mode::Read);
            assert_eq!(r.read_bit_sequence(lead), Ok(low_bits(&[0xff], lead)));
            assert_eq!(r.read_bit_sequence(n), Ok(low_bits(&v, n)));
        }
    }
}

#[test]
fn zero_bits_are_no_operation() {
    let mut w = BitStream::new_file(Vec::new(), Mode::Write);
    w.write_bit_sequence(&[], 0);
    w.write_bit_sequence(&[0x5a], 8);
    w.write_bit_sequence(&[0xff], 0);
    w.close();
    let file = w.into_file();
    assert_eq!(file, vec![0x5a]);
    let mut r = BitStream::new(&file, Mode::Read);
    assert_eq!(r.read_bit_sequence(0), Ok(vec![]));
    assert_eq!(r.read_bit_sequence(8), Ok(vec![0x5a]));
    assert_eq!(r.read_bit_sequence(0), Ok(vec![]));
}

#[test]
fn reading_past_the_end_fails_and_leaves_the_stream_in_place() {
    let mut r = BitStream::new(&[0xab], Mode::Read);
    assert_eq!(r.read_bit_sequence(9), Err(StreamError::UnexpectedEndOfStream));
    assert_eq!(r.read_bit_sequence(3), Ok(vec![0b011]));
    assert_eq!(r.read_bit_sequence(6), Err(StreamError::UnexpectedEndOfStream));
    assert_eq!(r.read_bit_sequence(5), Ok(vec![0b10101]));
    assert_eq!(r.read_bit_sequence(1), Err(StreamError::UnexpectedEndOfStream));
    assert_eq!(r.read_bit_sequence(0), Ok(vec![]));
}

#[test]
fn reading_an_empty_file_fails() {
    let mut r = BitStream::new(&[], Mode::Read);
    assert_eq!(r.read_bit_sequence(1), Err(StreamError::UnexpectedEndOfStream));
    let mut r = BitStream::new_file(Vec::new(), Mode::Read);
    assert_eq!(r.read_bit_sequence(8), Err(StreamError::UnexpectedEndOfStream));
}

#[test]
fn a_writer_on_an_open_file_appends() {
    let mut w = BitStream::new_file(vec![1, 2, 3], Mode::Write);
    w.write_bit_sequence(&[0xff], 8);
    w.close();
    assert_eq!(w.into_file(), vec![1, 2, 3, 0xff]);
}

#[test]
fn a_writer_by_name_empties_the_file() {
    let mut w = BitStream::new(&[1, 2, 3], Mode::Write);
    w.write_bit_sequence(&[0xff], 8);
    w.close();
    assert_eq!(w.into_file(), vec![0xff]);
}

#[test]
fn a_writer_reads_zero_bits_and_a_reader_writes_nothing() {
    let mut w = BitStream::new_file(Vec::new(), Mode::Write);
    w.write_bit_sequence(&[0x0f], 4);
    assert_eq!(w.read_bit_sequence(12), Ok(vec![0, 0]));
    w.write_bit_sequence(&[0x0f], 4);
    w.close();
    assert_eq!(w.into_file(), vec![0xff]);
    let mut r = BitStream::new(&[0x12, 0x34], Mode::Read);
    r.write_bit_sequence(&[0xff], 8);
    r.close();
    assert_eq!(r.read_bit_sequence(16), Ok(vec![0x12, 0x34]));
    assert_eq!(r.into_file(), vec![0x12, 0x34]);
}

#[test]
fn bits_cross_the_pages_of_the_buffer() {
    let data = pattern(2 * BUFFER_SIZE + 1234);
    let widths = [13usize, 1, 64, 7, 8, 31, 3, 16];
    let mut w = BitStream::new_file(Vec::new(), Mode::Write);
    let total_bits = data.len() * 8;
    let mut pos = 0usize;
    let mut k = 0usize;
    while pos < total_bits {
        let n = widths[k % widths.len()].min(total_bits - pos);
        let mut chunk = vec![0u8; (n + 7) / 8 + 1];
        for i in 0..n {
            if (data[(pos + i) / 8] >> ((pos + i) % 8)) & 1 == 1 {
                chunk[i / 8] |= 1 << (i % 8);
            }
        }
        chunk[(n + 7) / 8] = 0xff;
        w.write_bit_sequence(&chunk, n);
        pos += n;
        k += 1;
    }
    w.close();
    let file = w.into_file();
    assert_eq!(file, data);
    let mut r = BitStream::new(&file, Mode::Read);
    let mut pos = 0usize;
    let mut k = 3usize;
    while pos < total_bits {
        let n = widths[k % widths.len()].min(total_bits - pos);
        let got = r.read_bit_sequence(n).unwrap();
        let mut want = vec![0u8; (n + 7) / 8];
        for i in 0..n {
            if (data[(pos + i) / 8] >> ((pos + i) % 8)) & 1 == 1 {
                want[i / 8] |= 1 << (i % 8);
            }
        }
        assert_eq!(got, want);
        pos += n;
        k += 1;
    }
    assert_eq!(r.read_bit_sequence(1), Err(StreamError::UnexpectedEndOfStream));
}

#[test]
fn a_file_of_whole_pages_ends_at_its_last_bit() {
    let data = pattern(BUFFER_SIZE);
    let mut r = BitStream::new(&data, Mode::Read);
    let mut got = Vec::new();
    for _ in 0..BUFFER_SIZE / 8 {
        got.extend(r.read_bit_sequence(64).unwrap());
    }
    assert_eq!(got, data);
    assert_eq!(r.read_bit_sequence(1), Err(StreamError::UnexpectedEndOfStream));
    let mut w = BitStream::new_file(Vec::new(), Mode::Write);
    for chunk in data.chunks(8) {
        w.write_bit_sequence(chunk, 64);
    }
    w.close();
    assert_eq!(w.into_file(), data);
}
