use powerpointrs::bits::Bits;
use powerpointrs::bitvec::BitVec;
use powerpointrs::error::Error;

#[test]
fn new_bitvec_is_all_clear() {
    let bv: BitVec<u8> = BitVec::new(3);
    assert_eq!(bv.chunks.len(), 3);
    for i in 0..24 {
        assert!(!bv.get(i));
    }
}

#[test]
fn set_and_unset_touch_one_position() {
    let mut bv: BitVec<u8> = BitVec::new(2);
    bv.set(9);
    assert!(bv.get(9));
    assert_eq!(bv.chunks[1], 0b10);
    assert_eq!(bv.chunks[0], 0);
    bv.set(0);
    bv.unset(9);
    assert!(!bv.get(9));
    assert!(bv.get(0));
}

#[test]
fn checked_access_reports_out_of_range() {
    let mut bv: BitVec<u16> = BitVec::new(1);
    assert_eq!(bv.checked_get(16), Err(Error::IndexOutOfRange));
    assert_eq!(bv.checked_set(16), Err(Error::IndexOutOfRange));
    assert_eq!(bv.checked_unset(99), Err(Error::IndexOutOfRange));
    assert_eq!(bv.checked_set(15), Ok(()));
    assert_eq!(bv.checked_get(15), Ok(true));
    assert_eq!(bv.chunks[0], 0x8000);
}

#[test]
fn trailing_zeros_of_chunks() {
    assert_eq!(Bits::trailing_zeros(0u8), 8);
    assert_eq!(Bits::trailing_zeros(0b1000u32), 3);
    assert_eq!(Bits::trailing_zeros(1u64 << 63), 63);
}

#[test]
fn chunks_can_be_read_and_changed() {
    let mut bv: BitVec<u8> = BitVec::new(3);
    bv.set_chunk(2, 0b1000_0001);
    *bv.get_chunk_mut(1) |= 0b100;
    assert_eq!(bv.get_chunk(1), 0b100);
    assert_eq!(bv.chunks, vec![0, 0b100, 0b1000_0001]);
    assert_eq!(bv.cap(), 3);
    assert_eq!(bv.last_set(), Some(23));
    assert!(bv.get(10) && bv.get(16));
}

#[test]
fn copy_and_binop_work_on_the_first_chunks() {
    let mut a: BitVec<u8> = BitVec::new(3);
    a.chunks = vec![0b01, 0b10, 0b11];
    let mut b: BitVec<u8> = BitVec::new(2);
    b.chunks = vec![0b100, 0b1000];
    a.binop(&b, |x, y| x | y);
    assert_eq!(a.chunks, vec![0b101, 0b1010, 0b11]);
    a.binop(&b, |x, y| x & !y);
    assert_eq!(a.chunks, vec![0b01, 0b10, 0b11]);
    a.copy(&b);
    assert_eq!(a.chunks, vec![0b100, 0b1000, 0b11]);
    let c = a.clone();
    assert_eq!(c, a);
    a.clear();
    assert_eq!(a.chunks, vec![0, 0, 0]);
    assert_eq!(a.last_set(), None);
    assert_eq!(BitVec::<u64>::default().chunks.len(), 0);
}

#[test]
fn bit_operations_of_chunks() {
    let mut x = 0b0101u16;
    Bits::set(&mut x, 15);
    Bits::unset(&mut x, 0);
    assert_eq!(x, 0b1000_0000_0000_0100);
    assert!(Bits::get(x, 2) && !Bits::get(x, 0));
    assert_eq!(Bits::or(0b01u8, 0b10), 0b11);
    assert_eq!(Bits::and(0b011u8, 0b110), 0b010);
    assert_eq!(Bits::not(0b0000_1111u8), 0b1111_0000);
    assert_eq!(Bits::shr(0b1000_0000u8, 7), 1);
    assert_eq!(Bits::leading_zeros(1u32), 31);
    assert_eq!(Bits::leading_zeros(0u64), 64);
    assert!(Bits::same(7u8, 7u8) && !Bits::same(7u8, 8u8));
    assert_eq!(Bits::to_word(0xFFu8), 0xFF);
    assert_eq!(<u8 as Bits>::size() + <u16 as Bits>::size() + <u32 as Bits>::size() + <u64 as Bits>::size(), 120);
    assert_eq!(<u32 as Bits>::zero(), 0);
}

#[test]
fn with_count_rounds_up_to_whole_chunks() {
    assert_eq!(BitVec::<u8>::with_count(0).chunks.len(), 0);
    assert_eq!(BitVec::<u8>::with_count(1).chunks.len(), 1);
    assert_eq!(BitVec::<u8>::with_count(8).chunks.len(), 1);
    assert_eq!(BitVec::<u8>::with_count(9).chunks.len(), 2);
    assert_eq!(BitVec::<u64>::with_count(129).chunks, vec![0, 0, 0]);
}

#[test]
fn machine_words_are_chunks_too() {
    let w = <usize as Bits>::size();
    assert_eq!(w, usize::BITS as usize);
    assert_eq!(<usize as Bits>::zero(), 0);
    assert_eq!(Bits::trailing_zeros(0usize), w);
    assert_eq!(Bits::leading_zeros(0usize), w);
    assert_eq!(Bits::trailing_zeros(0b1010_0000usize), 5);
    assert_eq!(Bits::leading_zeros(0b1010_0000usize), w - 8);
    assert_eq!(Bits::trailing_zeros(usize::MAX), 0);
    assert_eq!(Bits::leading_zeros(usize::MAX), 0);
    assert_eq!(Bits::leading_zeros(1usize << (w - 1)), 0);
    assert_eq!(Bits::trailing_zeros(1usize << (w - 1)), w - 1);
    let mut x = 0b0101usize;
    Bits::set(&mut x, w - 1);
    Bits::unset(&mut x, 0);
    assert_eq!(x, (1usize << (w - 1)) | 0b0100);
    assert!(Bits::get(x, 2) && Bits::get(x, w - 1) && !Bits::get(x, 0));
    assert_eq!(Bits::or(0b01usize, 0b10), 0b11);
    assert_eq!(Bits::and(0b011usize, 0b110), 0b010);
    assert_eq!(Bits::not(0b1111usize), usize::MAX - 0b1111);
    assert_eq!(Bits::shr(x, w - 1), 1);
    assert_eq!(Bits::shr(0b1100usize, 2), 0b11);
    assert!(Bits::same(7usize, 7usize) && !Bits::same(7usize, 8usize));
    assert_eq!(Bits::to_word(usize::MAX), usize::MAX as u64);
    // a packed vector over machine words
    let mut v: BitVec<usize> = BitVec::with_count(w + 3);
    assert_eq!(v.chunks.len(), 2);
    v.set(w + 1);
    assert!(v.get(w + 1) && !v.get(w));
    assert_eq!(v.chunks[1], 0b10);
}
