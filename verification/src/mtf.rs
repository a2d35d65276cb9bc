//! Move-to-front coding.
//!
//! Both sides keep a list of the 256 byte values, the one used last in
//! front.  The encoder writes the place of each byte in the list and the
//! decoder reads the byte at that place; both then move it to the front.

use vstd::prelude::*;
use vstd::std_specs::cmp::PartialEqSpec;

verus! {

/// A list whose front is the place 0.
pub struct LinkedList<T> {
    items: Vec<T>,
}

impl<T> View for LinkedList<T> {
    type V = Seq<T>;

    closed spec fn view(&self) -> Seq<T> {
        self.items@
    }
}

impl<T: PartialEq> LinkedList<T> {
    /// The empty list.
    pub fn new() -> (list: Self)
        ensures
            list@ == Seq::<T>::empty(),
    {
        Self { items: Vec::new() }
    }

    /// Puts `val` in front of the list.
    pub fn push_front(&mut self, val: T)
        ensures
            final(self)@ == seq![val] + old(self)@,
    {
        self.items.insert(0, val);
        assert(self.items@ =~= seq![val] + old(self).items@);
    }

    /// Takes the first item equal to `val` out of the list and returns the
    /// place where it stood; `None`, and the list unchanged, if there is no
    /// such item.  What "equal" means is known only for a type whose `==`
    /// has a meaning in contracts.
    pub fn find_remove(&mut self, val: &T) -> (r: Option<usize>)
        ensures
            match r {
                Some(i) => i < old(self)@.len() && final(self)@ == old(self)@.remove(i as int),
                None => final(self)@ == old(self)@,
            },
            T::obeys_eq_spec() ==> match r {
                Some(i) => old(self)@[i as int].eq_spec(val) && forall|j: int|
                    0 <= j < i ==> !(#[trigger] old(self)@[j]).eq_spec(val),
                None => forall|j: int|
                    0 <= j < old(self)@.len() ==> !(#[trigger] old(self)@[j]).eq_spec(val),
            },
    {
        let mut index: usize = 0;
        while index < self.items.len()
            invariant
                index <= self.items.len(),
                self.items@ == old(self).items@,
                T::obeys_eq_spec() ==> forall|j: int|
                    0 <= j < index ==> !(#[trigger] self.items@[j]).eq_spec(val),
            decreases self.items.len() - index,
        {
            if self.items[index] == *val {
                self.items.remove(index);
                return Some(index);
            }
            index += 1;
        }
        None
    }

    /// Takes the item at the place `index` out of the list and returns it;
    /// `None`, and the list unchanged, if the list is not that long.
    pub fn index_remove(&mut self, index: usize) -> (r: Option<T>)
        ensures
            index < old(self)@.len() ==> r == Some(old(self)@[index as int]) && final(self)@ == old(
                self,
            )@.remove(index as int),
            index >= old(self)@.len() ==> r.is_none() && final(self)@ == old(self)@,
    {
        if index < self.items.len() {
            Some(self.items.remove(index))
        } else {
            None
        }
    }
}

/// The list with which both sides start: the bytes from 255 down to 0.
pub open spec fn initial_list() -> Seq<u8> {
    Seq::new(256, |i: int| (255 - i) as u8)
}

/// A list that holds each byte value once.
pub open spec fn is_alphabet(list: Seq<u8>) -> bool {
    &&& list.len() == 256
    &&& list.no_duplicates()
    &&& forall|b: u8| list.contains(b)
}

/// The list after the item at the place `i` has moved to the front.
pub open spec fn move_to_front(list: Seq<u8>, i: int) -> Seq<u8> {
    seq![list[i]] + list.remove(i)
}

/// The places that stand for `input`, for an encoder that starts with `list`.
pub open spec fn encoded_from(list: Seq<u8>, input: Seq<u8>) -> Seq<u8>
    decreases input.len(),
{
    if input.len() == 0 {
        Seq::empty()
    } else {
        let i = list.index_of(input[0]);
        seq![i as u8] + encoded_from(move_to_front(list, i), input.drop_first())
    }
}

/// The bytes that the places `input` stand for, for a decoder that starts
/// with `list`.
pub open spec fn decoded_from(list: Seq<u8>, input: Seq<u8>) -> Seq<u8>
    decreases input.len(),
{
    if input.len() == 0 {
        Seq::empty()
    } else {
        let i = input[0] as int;
        seq![list[i]] + decoded_from(move_to_front(list, i), input.drop_first())
    }
}

/// The encoder's list after `input`, for an encoder that starts with `list`.
pub open spec fn list_after(list: Seq<u8>, input: Seq<u8>) -> Seq<u8>
    decreases input.len(),
{
    if input.len() == 0 {
        list
    } else {
        list_after(move_to_front(list, list.index_of(input[0])), input.drop_first())
    }
}

/// The list with which both sides start.
pub fn init_alphabet() -> (alphabet: LinkedList<u8>)
    ensures
        alphabet@ == initial_list(),
{
    let mut alphabet: LinkedList<u8> = LinkedList::new();
    let mut i: usize = 0;
    while i < 256
        invariant
            i <= 256,
            alphabet@ == Seq::new(i as nat, |k: int| (i - 1 - k) as u8),
        decreases 256 - i,
    {
        alphabet.push_front(i as u8);
        i += 1;
        assert(alphabet@ =~= Seq::new(i as nat, |k: int| (i - 1 - k) as u8));
    }
    assert(alphabet@ =~= initial_list());
    alphabet
}

/// The list with which both sides start holds each byte value once.
pub proof fn lemma_initial_list_is_alphabet()
    ensures
        is_alphabet(initial_list()),
{
    let list = initial_list();
    assert forall|b: u8| list.contains(b) by {
        assert(list[255 - b as int] == b);
    }
}

/// A list that holds each byte value once still does so after a move to
/// the front.
pub proof fn lemma_move_keeps_alphabet(list: Seq<u8>, i: int)
    requires
        is_alphabet(list),
        0 <= i < 256,
    ensures
        is_alphabet(move_to_front(list, i)),
{
    let moved = move_to_front(list, i);
    assert forall|a: int, b: int| 0 <= a < b < 256 implies moved[a] != moved[b] by {
        let pa = if a == 0 {
            i
        } else if a - 1 < i {
            a - 1
        } else {
            a
        };
        let pb = if b - 1 < i {
            b - 1
        } else {
            b
        };
        assert(moved[a] == list[pa]);
        assert(moved[b] == list[pb]);
    }
    assert forall|b: u8| moved.contains(b) by {
        assert(list.contains(b));
        let p = choose|p: int| 0 <= p < list.len() && list[p] == b;
        let q = if p == i {
            0
        } else if p < i {
            p + 1
        } else {
            p
        };
        assert(moved[q] == b);
    }
}

/// One step of either side: the item at the place `index` moves to the
/// front.
fn step(alphabet: &mut LinkedList<u8>, index: usize) -> (byte: u8)
    requires
        old(alphabet)@.len() == 256,
        index < 256,
    ensures
        byte == old(alphabet)@[index as int],
        final(alphabet)@ == move_to_front(old(alphabet)@, index as int),
{
    let byte = alphabet.index_remove(index).unwrap();
    alphabet.push_front(byte);
    byte
}

/// Encodes `input`: each byte becomes its place in the list, which then
/// moves it to the front.
pub fn encode(input: &[u8]) -> (out: Vec<u8>)
    ensures
        out@ == encoded_from(initial_list(), input@),
{
    let mut alphabet = init_alphabet();
    let mut out: Vec<u8> = Vec::new();
    let mut n: usize = 0;
    proof {
        lemma_initial_list_is_alphabet();
        assert(input@.skip(0) =~= input@);
    }
    while n < input.len()
        invariant
            n <= input.len(),
            is_alphabet(alphabet@),
            encoded_from(initial_list(), input@) == out@ + encoded_from(alphabet@, input@.skip(n as int)),
        decreases input.len() - n,
    {
        let x = input[n];
        let ghost list = alphabet@;
        let ghost rest = input@.skip(n as int);
        proof {
            assert(list.contains(x));
            assert(rest[0] == x);
            assert(rest.drop_first() =~= input@.skip(n + 1));
        }
        let found = alphabet.find_remove(&x);
        let index = found.unwrap();
        assert(index as int == list.index_of(x));
        alphabet.push_front(x);
        proof {
            assert(alphabet@ =~= move_to_front(list, index as int));
            lemma_move_keeps_alphabet(list, index as int);
            assert(out@.push(index as u8) + encoded_from(alphabet@, input@.skip(n + 1)) =~= out@ + (
            seq![index as u8] + encoded_from(alphabet@, rest.drop_first())));
        }
        out.push(index as u8);
        n += 1;
    }
    assert(out@ + Seq::<u8>::empty() =~= out@);
    out
}

/// Decodes `input`: each place becomes the byte that stands there in the
/// list, which then moves it to the front.
pub fn decode(input: &[u8]) -> (out: Vec<u8>)
    ensures
        out@ == decoded_from(initial_list(), input@),
{
    let mut alphabet = init_alphabet();
    let mut out: Vec<u8> = Vec::new();
    let mut n: usize = 0;
    proof {
        assert(input@.skip(0) =~= input@);
    }
    while n < input.len()
        invariant
            n <= input.len(),
            alphabet@.len() == 256,
            decoded_from(initial_list(), input@) == out@ + decoded_from(alphabet@, input@.skip(n as int)),
        decreases input.len() - n,
    {
        let ghost rest = input@.skip(n as int);
        let byte = step(&mut alphabet, input[n] as usize);
        proof {
            assert(rest[0] == input@[n as int]);
            assert(rest.drop_first() =~= input@.skip(n + 1));
            assert(out@.push(byte) + decoded_from(alphabet@, input@.skip(n + 1)) =~= out@ + (seq![byte]
                + decoded_from(alphabet@, rest.drop_first())));
        }
        out.push(byte);
        n += 1;
    }
    assert(out@ + Seq::<u8>::empty() =~= out@);
    out
}

/// Decoding gives back what was encoded: for every `input` and every list
/// that holds each byte value once, the decoder that starts with the list
/// turns the places written by the encoder that started with it into
/// `input` again.
pub proof fn lemma_decode_encode(list: Seq<u8>, input: Seq<u8>)
    requires
        is_alphabet(list),
    ensures
        decoded_from(list, encoded_from(list, input)) == input,
    decreases input.len(),
{
    if input.len() == 0 {
        assert(decoded_from(list, encoded_from(list, input)) =~= input);
    } else {
        let i = list.index_of(input[0]);
        assert(list.contains(input[0]));
        let next = move_to_front(list, i);
        lemma_move_keeps_alphabet(list, i);
        lemma_decode_encode(next, input.drop_first());
        let places = encoded_from(list, input);
        let tail = encoded_from(next, input.drop_first());
        assert(places == seq![i as u8] + tail);
        assert(places[0] as int == i);
        assert(places.drop_first() =~= tail);
        assert(decoded_from(list, places) =~= seq![list[i]] + input.drop_first());
        assert(seq![input[0]] + input.drop_first() =~= input);
    }
}

/// The list holds each byte value once after every step: whatever `input`
/// the encoder has taken in, starting with a list that does.
pub proof fn lemma_list_stays_alphabet(list: Seq<u8>, input: Seq<u8>)
    requires
        is_alphabet(list),
    ensures
        is_alphabet(list_after(list, input)),
    decreases input.len(),
{
    if input.len() > 0 {
        let i = list.index_of(input[0]);
        assert(list.contains(input[0]));
        lemma_move_keeps_alphabet(list, i);
        lemma_list_stays_alphabet(move_to_front(list, i), input.drop_first());
    }
}

/// Encoding and then decoding a whole input, both from the initial list,
/// gives the input back.
pub proof fn lemma_round_trip(input: Seq<u8>)
    ensures
        decoded_from(initial_list(), encoded_from(initial_list(), input)) == input,
{
    lemma_initial_list_is_alphabet();
    lemma_decode_encode(initial_list(), input);
}

/// The places written are fixed by the input: equal inputs have equal
/// files.
pub proof fn lemma_same_input_same_file(first: Seq<u8>, second: Seq<u8>)
    requires
        first == second,
    ensures
        encoded_from(initial_list(), first) == encoded_from(initial_list(), second),
{
}

} // verus!
