use succinct::IntVec;

#[test]
fn create_empty() {
    let v: IntVec = IntVec::new(4, 0);
    assert!(v.is_empty());
}

#[test]
fn packed() {
    let mut v = IntVec::<u32>::new(32, 10);
    assert_eq!(10, v.len());

    assert_eq!(0, v.get(0));
    assert_eq!(0, v.get(9));

    v.set(0, 89);
    assert_eq!(89, v.get(0));
    assert_eq!(0, v.get(1));

    v.set(0, 56);
    v.set(1, 34);
    assert_eq!(56, v.get(0));
    assert_eq!(34, v.get(1));
    assert_eq!(0, v.get(2));

    v.set(9, 12);
    assert_eq!(12, v.get(9));
}

#[test]
fn aligned() {
    let mut v: IntVec = IntVec::new(4, 20);
    assert_eq!(20, v.len());

    assert_eq!(0, v.get(0));
    assert_eq!(0, v.get(9));

    v.set(0, 13);
    assert_eq!(13, v.get(0));
    assert_eq!(0, v.get(1));

    v.set(1, 15);
    assert_eq!(13, v.get(0));
    assert_eq!(15, v.get(1));
    assert_eq!(0, v.get(2));

    v.set(1, 4);
    v.set(19, 9);
    assert_eq!(13, v.get(0));
    assert_eq!(4, v.get(1));
    assert_eq!(0, v.get(2));
    assert_eq!(9, v.get(19));
}

#[test]
fn unaligned() {
    let mut v: IntVec = IntVec::new(5, 20);
    assert_eq!(20, v.len());

    assert_eq!(0, v.get(0));
    assert_eq!(0, v.get(9));

    v.set(0, 13);
    assert_eq!(13, v.get(0));
    assert_eq!(0, v.get(1));

    v.set(1, 15);
    assert_eq!(13, v.get(0));
    assert_eq!(15, v.get(1));
    assert_eq!(0, v.get(2));

    v.set(1, 4);
    v.set(19, 9);
    assert_eq!(13, v.get(0));
    assert_eq!(4, v.get(1));
    assert_eq!(0, v.get(2));
    assert_eq!(9, v.get(19));
}

#[test]
fn iter() {
    let mut v = IntVec::<u16>::new(13, 5);
    v.set(0, 1);
    v.set(1, 1);
    v.set(2, 2);
    v.set(3, 3);
    v.set(4, 5);

    let mut it = v.iter();
    let mut collected = Vec::new();
    while let Some(x) = it.next() {
        collected.push(x);
    }
    assert_eq!(vec![1, 1, 2, 3, 5], collected);
}

#[test]
fn debug() {
    let mut v = IntVec::<u16>::new(13, 5);
    v.set(0, 1);
    v.set(1, 1);
    v.set(2, 2);
    v.set(3, 3);
    v.set(4, 5);

    assert_eq!("IntVec { element_bits: 13, elements: { 1, 1, 2, 3, 5, } }".to_owned(),
               v.to_debug_string());
}

// A small deterministic generator for test values.
fn next_value(state: &mut u64) -> u64 {
    *state = state.wrapping_mul(6364136223846793005).wrapping_add(1442695040888963407);
    *state >> 11
}

fn round_trip_u8(k: usize, n: usize) {
    let mut v = IntVec::<u8>::new(k, n);
    let mut expect = vec![0u8; n];
    let mut state = 17u64 + k as u64;
    let limit = if k == 8 { 256u64 } else { 1u64 << k };
    for i in 0..n {
        let x = (next_value(&mut state) % limit) as u8;
        v.set(i, x);
        expect[i] = x;
    }
    for i in 0..n {
        assert_eq!(expect[i], v.get(i), "k = {}, i = {}", k, i);
    }
}

fn round_trip_u64(k: usize, n: usize) {
    let mut v = IntVec::<u64>::new(k, n);
    let mut expect = vec![0u64; n];
    let mut state = 99u64 + k as u64;
    for i in 0..n {
        let raw = next_value(&mut state) ^ (next_value(&mut state) << 40);
        let x = if k == 64 { raw } else { raw & ((1u64 << k) - 1) };
        v.set(i, x);
        expect[i] = x;
    }
    // Overwrite some elements a second time.
    for i in (0..n).step_by(3) {
        let raw = next_value(&mut state);
        let x = if k == 64 { raw } else { raw & ((1u64 << k) - 1) };
        v.set(i, x);
        expect[i] = x;
    }
    for i in 0..n {
        assert_eq!(expect[i], v.get(i), "k = {}, i = {}", k, i);
    }
}

#[test]
fn round_trip_every_width_u8() {
    for k in 1..=8 {
        round_trip_u8(k, 0);
        round_trip_u8(k, 1);
        round_trip_u8(k, 37);
    }
}

#[test]
fn round_trip_every_width_u64() {
    for k in 1..=64 {
        round_trip_u64(k, 0);
        round_trip_u64(k, 1);
        round_trip_u64(k, 101);
    }
}

#[test]
fn round_trip_packed_aligned_unaligned_u32() {
    for &k in &[32usize, 8, 16, 4, 1, 7, 13, 31] {
        let n = 50;
        let mut v = IntVec::<u32>::new(k, n);
        for i in 0..n {
            let x = ((i as u64 * 2654435761) % (1u64 << k)) as u32;
            v.set(i, x);
        }
        for i in 0..n {
            let x = ((i as u64 * 2654435761) % (1u64 << k)) as u32;
            assert_eq!(x, v.get(i));
        }
    }
}

#[test]
fn set_then_get_is_stable() {
    let mut v = IntVec::<u16>::new(11, 9);
    v.set(4, 2047);
    assert_eq!(2047, v.get(4));
    assert_eq!(2047, v.get(4));
    assert_eq!(0, v.get(3));
    assert_eq!(0, v.get(5));
    v.set(4, 1);
    assert_eq!(1, v.get(4));
}

#[test]
fn straddling_elements_keep_neighbours() {
    // With 16-bit words and 13-bit elements, elements 1 to 4 straddle words.
    let mut v = IntVec::<u16>::new(13, 5);
    for i in 0..5 {
        v.set(i, 8191);
    }
    v.set(2, 0);
    assert_eq!(8191, v.get(1));
    assert_eq!(0, v.get(2));
    assert_eq!(8191, v.get(3));
    assert_eq!("IntVec { element_bits: 13, elements: { 8191, 8191, 0, 8191, 8191, } }",
               v.to_debug_string());
}

#[test]
fn empty_debug_string() {
    let v = IntVec::<u8>::new(3, 0);
    assert_eq!("IntVec { element_bits: 3, elements: { } }", v.to_debug_string());
}

#[test]
fn widths_and_layout_queries() {
    let v = IntVec::<u32>::new(32, 3);
    assert!(v.is_packed());
    assert!(v.is_aligned());
    let w = IntVec::<u32>::new(8, 3);
    assert!(!w.is_packed());
    assert!(w.is_aligned());
    let u = IntVec::<u32>::new(5, 3);
    assert!(!u.is_aligned());
    assert_eq!(5, u.element_bits());
    assert_eq!(32, IntVec::<u32>::block_bits());
    assert_eq!(8, IntVec::<u8>::block_bits());
    assert_eq!(64, IntVec::<u64>::block_bits());
}

#[test]
fn bits_are_numbered_from_the_low_end() {
    let mut v = IntVec::<u8>::new(1, 16);
    v.set_bit(3, true);
    assert!(v.get_bit(3));
    assert!(!v.get_bit(2));
    assert_eq!(1, v.get(3));
    v.set(10, 1);
    assert!(v.get_bit(10));
    v.set_bit(3, false);
    assert_eq!(0, v.get(3));
    assert_eq!(1, v.get(10));

    let mut w = IntVec::<u8>::new(4, 2);
    w.set(0, 0b1010);
    assert!(w.get_bit(1));
    assert!(w.get_bit(3));
    assert!(!w.get_bit(0));
}

#[test]
fn zero_width_elements_are_zero() {
    let v = IntVec::<u16>::new(0, 7);
    assert_eq!(7, v.len());
    assert_eq!(0, v.get(6));
}

#[test]
fn iterator_from_both_ends() {
    let mut v = IntVec::<u32>::new(6, 6);
    for i in 0..6 {
        v.set(i, (i * 10) as u32);
    }
    let mut it = v.iter();
    assert_eq!(6, it.len());
    assert_eq!((6, Some(6)), it.size_hint());
    assert_eq!(Some(0), it.next());
    assert_eq!(Some(50), it.next_back());
    assert_eq!(Some(20), it.nth(1));
    assert_eq!(2, it.len());
    assert_eq!(Some(40), it.last());

    let mut it2 = v.iter();
    assert_eq!(None, it2.nth(6));
    assert_eq!(None, it2.next());
    assert_eq!(0, it2.count());
    assert_eq!(6, v.iter().count());
}
