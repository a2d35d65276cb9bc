use bs::mtf::{decode, encode, init_alphabet, LinkedList};

#[test]
fn encode_gives_the_place_and_moves_to_front() {
    assert_eq!(encode(&[0, 0, 1]), vec![255, 0, 255]);
}

#[test]
fn mtf_decode_inverts_encode() {
    let input: Vec<u8> = (0..2000u32).map(|i| ((i * 7919) % 251) as u8).collect();
    assert_eq!(decode(&encode(&input)), input);
}

#[test]
fn empty_input_gives_empty_output() {
    assert_eq!(encode(&[]), Vec::<u8>::new());
    assert_eq!(decode(&[]), Vec::<u8>::new());
}

#[test]
fn list_operations() {
    let mut list: LinkedList<u8> = LinkedList::new();
    list.push_front(3);
    list.push_front(5);
    list.push_front(7);
    assert_eq!(list.find_remove(&5), Some(1));
    assert_eq!(list.find_remove(&5), None);
    assert_eq!(list.index_remove(1), Some(3));
    assert_eq!(list.index_remove(1), None);
    assert_eq!(list.index_remove(0), Some(7));
    let mut alphabet = init_alphabet();
    assert_eq!(alphabet.find_remove(&255), Some(0));
    assert_eq!(alphabet.find_remove(&0), Some(254));
}

#[test]
fn list_holds_each_byte_once_after_every_step() {
    let mut alphabet = init_alphabet();
    let input: Vec<u8> = (0..600u32).map(|i| ((i * i + 3 * i) % 256) as u8).collect();
    for &b in &input {
        let place = alphabet.find_remove(&b).unwrap();
        assert!(place < 256);
        alphabet.push_front(b);
        assert_eq!(alphabet.find_remove(&b), Some(0));
        assert_eq!(alphabet.find_remove(&b), None);
        alphabet.push_front(b);
    }
    let mut seen = [false; 256];
    for _ in 0..256 {
        let b = alphabet.index_remove(0).unwrap();
        assert!(!seen[b as usize]);
        seen[b as usize] = true;
    }
    assert_eq!(alphabet.index_remove(0), None);
}

#[test]
fn known_places() {
    assert_eq!(encode(b"banana"), vec![157, 158, 147, 1, 1, 1]);
    assert_eq!(decode(&[157, 158, 147, 1, 1, 1]), b"banana".to_vec());
}
