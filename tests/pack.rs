use pixpack::{pixel_bit, Pack};

#[test]
fn test_all_true() {
    let mut p = Pack::new(Vec::new());
    for _ in 0..16 {
        p.add(1);
    }
    p.flush();
    assert_eq!(p.into_inner(), &[0xFF, 0xFF]);
}

#[test]
fn test_all_false() {
    let mut p = Pack::new(Vec::new());
    for _ in 0..16 {
        p.add(0);
    }
    p.flush();
    assert_eq!(p.into_inner(), &[0x00, 0x00]);
}

#[test]
fn test_some_true() {
    let mut p = Pack::new(Vec::new());
    for _ in 0..16 {
        p.add(1);
        p.add(0);
    }
    p.flush();
    assert_eq!(p.into_inner(), &[0xAA, 0xAA, 0xAA, 0xAA]);
}

#[test]
fn test_unaligned_pixels() {
    let mut p = Pack::new(Vec::new());
    for _ in 0..30 {
        p.add(1);
        p.add(0);
    }
    p.flush();
    assert_eq!(
        p.into_inner(),
        &[0xAA, 0xAA, 0xAA, 0xAA, 0xAA, 0xAA, 0xAA, 0xA0]
    );
}

#[test]
fn alternating_sixteen_bits_make_two_bytes() {
    let mut p = Pack::new(Vec::new());
    for _ in 0..8 {
        p.add(1);
        p.add(0);
    }
    p.flush();
    assert_eq!(p.into_inner(), vec![0xAA, 0xAA]);
}

#[test]
fn thirty_alternating_bits_pad_the_last_byte() {
    let mut p = Pack::new(Vec::new());
    for _ in 0..15 {
        p.add(1);
        p.add(0);
    }
    p.flush();
    assert_eq!(p.into_inner(), vec![0xAA, 0xAA, 0xAA, 0xA8]);
}

#[test]
fn partial_byte_is_padded_on_the_right() {
    let mut p = Pack::new(Vec::new());
    for bit in [1u8, 1, 0, 1, 1] {
        p.add(bit);
    }
    p.flush();
    assert_eq!(p.into_inner(), vec![0xD8]);
}

#[test]
fn lengths_are_ceil_of_bits_over_eight() {
    for n in 0..40usize {
        let mut p = Pack::new(Vec::new());
        for _ in 0..n {
            p.add(1);
        }
        p.flush();
        let out = p.into_inner();
        assert_eq!(out.len(), (n + 7) / 8);
        if n % 8 != 0 {
            let low_mask = (1u16 << (8 - n % 8)) - 1;
            assert_eq!(*out.last().unwrap() as u16 & low_mask, 0);
        }
    }
}

#[test]
fn flush_on_empty_writes_nothing() {
    let mut p = Pack::new(Vec::new());
    p.flush();
    p.flush();
    assert_eq!(p.into_inner(), Vec::<u8>::new());
}

#[test]
fn flush_twice_writes_one_byte() {
    let mut p = Pack::new(Vec::new());
    p.add(1);
    p.flush();
    p.flush();
    assert_eq!(p.into_inner(), vec![0x80]);
}

#[test]
fn no_bytes_without_flush_until_eight_bits() {
    let mut p = Pack::new(Vec::new());
    for _ in 0..7 {
        p.add(1);
    }
    assert_eq!(p.into_inner(), Vec::<u8>::new());
}

#[test]
fn existing_buffer_contents_are_kept() {
    let mut p = Pack::new(vec![0x42]);
    for _ in 0..8 {
        p.add(1);
    }
    p.add(1);
    p.flush();
    assert_eq!(p.into_inner(), vec![0x42, 0xFF, 0x80]);
}

#[test]
fn threshold_is_strict() {
    assert_eq!(pixel_bit(100, 100), 0);
    assert_eq!(pixel_bit(101, 100), 1);
    assert_eq!(pixel_bit(0, 0), 0);
    assert_eq!(pixel_bit(1, 0), 1);
    assert_eq!(pixel_bit(255, 255), 0);
}
