use static_collections::bitmap::{
    BitScan, CountScan, LoopScan, OutOfBitmapError, RefBitmap, WORD_BITS,
};

#[test]
fn test_reads_the_bit_at_a_position() {
    let words: [u64; 4] = [0, 1, 2, 4];
    let bmp: RefBitmap<256> = RefBitmap::new();
    assert_eq!(bmp.test(&words, 36), Ok(false));
    assert_eq!(bmp.test(&words, 64), Ok(true));
    assert_eq!(bmp.test(&words, 194), Ok(true));
    assert_eq!(bmp.test(&words, 288), Err(OutOfBitmapError::new(288, 256)));
}

#[test]
fn test_at_the_limit_is_out_of_range() {
    let words: [u64; 4] = [u64::MAX; 4];
    let bmp: RefBitmap<256> = RefBitmap::new();
    assert_eq!(bmp.test(&words, 255), Ok(true));
    assert_eq!(bmp.test(&words, 256), Err(OutOfBitmapError::new(256, 256)));
    assert_eq!(bmp.test(&words, usize::MAX), Err(OutOfBitmapError::new(usize::MAX, 256)));
}

#[test]
fn set_returns_previous_and_sets() {
    let mut words: [u64; 4] = [0; 4];
    let bmp: RefBitmap<256> = RefBitmap::new();
    assert_eq!(bmp.set(&mut words, 36), Ok(false));
    assert_eq!(bmp.test(&words, 36), Ok(true));
    assert_eq!(words, [1u64 << 36, 0, 0, 0]);
    assert_eq!(bmp.set(&mut words, 36), Ok(true));
    assert_eq!(words, [1u64 << 36, 0, 0, 0]);
}

#[test]
fn reset_returns_previous_and_clears() {
    let mut words: [u64; 4] = [u64::MAX; 4];
    let bmp: RefBitmap<256> = RefBitmap::new();
    assert_eq!(bmp.reset(&mut words, 236), Ok(true));
    assert_eq!(bmp.test(&words, 236), Ok(false));
    assert_eq!(words, [u64::MAX, u64::MAX, u64::MAX, !(1u64 << 44)]);
    assert_eq!(bmp.reset(&mut words, 236), Ok(false));
}

#[test]
fn complement_returns_previous_and_inverts() {
    let mut words: [u64; 4] = [0; 4];
    let bmp: RefBitmap<256> = RefBitmap::new();
    assert_eq!(bmp.complement(&mut words, 123), Ok(false));
    assert_eq!(bmp.test(&words, 123), Ok(true));
    assert_eq!(bmp.complement(&mut words, 123), Ok(true));
    assert_eq!(bmp.test(&words, 123), Ok(false));
    assert_eq!(words, [0u64; 4]);
}

#[test]
fn assign_returns_previous_and_writes() {
    let mut words: [u64; 4] = [0; 4];
    let bmp: RefBitmap<256> = RefBitmap::new();
    assert_eq!(bmp.assign(&mut words, 123, true), Ok(false));
    assert_eq!(bmp.assign(&mut words, 123, true), Ok(true));
    assert_eq!(bmp.assign(&mut words, 123, false), Ok(true));
    assert_eq!(bmp.test(&words, 123), Ok(false));
}

#[test]
fn writes_leave_every_other_bit_alone() {
    let start: [u64; 4] = [0x0123_4567_89AB_CDEF, 0xFFFF_0000_FFFF_0000, 0, u64::MAX];
    let bmp: RefBitmap<256> = RefBitmap::new();
    for position in [0usize, 1, 63, 64, 65, 127, 128, 200, 255] {
        let mut words = start;
        let before = bmp.test(&words, position).unwrap();
        assert_eq!(bmp.complement(&mut words, position), Ok(before));
        for other in 0..256usize {
            let expected = if other == position {
                !before
            } else {
                bmp.test(&start, other).unwrap()
            };
            assert_eq!(bmp.test(&words, other), Ok(expected));
        }
    }
}

#[test]
fn writes_out_of_range_change_nothing() {
    let mut words: [u64; 4] = [5, 6, 7, 8];
    let bmp: RefBitmap<200> = RefBitmap::new();
    assert_eq!(bmp.set(&mut words, 200), Err(OutOfBitmapError::new(200, 200)));
    assert_eq!(bmp.reset(&mut words, 201), Err(OutOfBitmapError::new(201, 200)));
    assert_eq!(bmp.complement(&mut words, 255), Err(OutOfBitmapError::new(255, 200)));
    assert_eq!(bmp.assign(&mut words, 4000, true), Err(OutOfBitmapError::new(4000, 200)));
    assert_eq!(words, [5, 6, 7, 8]);
}

#[test]
fn search_cleared_forward_finds_lowest() {
    let words: [u64; 4] = [u64::MAX, 0x7, 0, 0];
    let bmp: RefBitmap<256> = RefBitmap::new();
    assert_eq!(bmp.search_cleared_forward(&words), Some(67));
}

#[test]
fn search_set_forward_finds_lowest() {
    let words: [u64; 4] = [0, 0, 1, 0];
    let bmp: RefBitmap<256> = RefBitmap::new();
    assert_eq!(bmp.search_set_forward(&words), Some(128));
}

#[test]
fn search_cleared_backward_finds_highest() {
    let words: [u64; 4] = [u64::MAX, 0x7, 0, u64::MAX];
    let bmp: RefBitmap<256> = RefBitmap::new();
    assert_eq!(bmp.search_cleared_backward(&words), Some(191));
}

#[test]
fn search_set_backward_finds_highest() {
    let words: [u64; 4] = [0, 0, 1, 2];
    let bmp: RefBitmap<256> = RefBitmap::new();
    assert_eq!(bmp.search_set_backward(&words), Some(193));
}

#[test]
fn searches_on_all_set_region() {
    let words: [u64; 4] = [u64::MAX; 4];
    let full: RefBitmap<256> = RefBitmap::new();
    assert_eq!(full.search_cleared_forward(&words), None);
    assert_eq!(full.search_cleared_backward(&words), None);
    assert_eq!(full.search_set_forward(&words), Some(0));
    assert_eq!(full.search_set_backward(&words), Some(255));
    let part: RefBitmap<100> = RefBitmap::new();
    assert_eq!(part.search_cleared_forward(&words), None);
    assert_eq!(part.search_cleared_backward(&words), None);
    assert_eq!(part.search_set_backward(&words), Some(99));
}

#[test]
fn searches_on_all_clear_region() {
    let words: [u64; 4] = [0; 4];
    let full: RefBitmap<256> = RefBitmap::new();
    assert_eq!(full.search_set_forward(&words), None);
    assert_eq!(full.search_set_backward(&words), None);
    assert_eq!(full.search_cleared_forward(&words), Some(0));
    assert_eq!(full.search_cleared_backward(&words), Some(255));
    let part: RefBitmap<100> = RefBitmap::new();
    assert_eq!(part.search_set_forward(&words), None);
    assert_eq!(part.search_set_backward(&words), None);
    assert_eq!(part.search_cleared_backward(&words), Some(99));
}

#[test]
fn bits_beyond_the_limit_are_never_found() {
    let bmp: RefBitmap<100> = RefBitmap::new();
    // Bits 100 and above are set, all below are clear.
    let padding_set: [u64; 2] = [0, !((1u64 << 36) - 1)];
    assert_eq!(bmp.search_set_forward(&padding_set), None);
    assert_eq!(bmp.search_set_backward(&padding_set), None);
    assert_eq!(bmp.search_cleared_backward(&padding_set), Some(99));
    // Bits 100 and above are clear, all below are set.
    let padding_clear: [u64; 2] = [u64::MAX, (1u64 << 36) - 1];
    assert_eq!(bmp.search_cleared_forward(&padding_clear), None);
    assert_eq!(bmp.search_cleared_backward(&padding_clear), None);
    assert_eq!(bmp.search_set_backward(&padding_clear), Some(99));
    // A match below the limit is found although the padding matches too.
    let low_and_padding: [u64; 2] = [1 << 5, !((1u64 << 36) - 1)];
    assert_eq!(bmp.search_set_backward(&low_and_padding), Some(5));
    assert_eq!(bmp.search_set_forward(&low_and_padding), Some(5));
}

#[test]
fn searches_agree_with_a_scan_bit_by_bit() {
    let regions: [[u64; 3]; 5] = [
        [0, 0, 0],
        [u64::MAX, u64::MAX, u64::MAX],
        [0x8000_0000_0000_0000, 0, 1],
        [!1, u64::MAX, 0x7FFF_FFFF_FFFF_FFFF],
        [0xF0F0_F0F0_0000_0000, 0x0000_0000_0F0F_0F0F, 0xAAAA_AAAA_AAAA_AAAA],
    ];
    let bmp: RefBitmap<150> = RefBitmap::new();
    for words in regions {
        for target in [false, true] {
            let mut first = None;
            let mut last = None;
            for position in 0..150usize {
                if bmp.test(&words, position) == Ok(target) {
                    if first.is_none() {
                        first = Some(position);
                    }
                    last = Some(position);
                }
            }
            if target {
                assert_eq!(bmp.search_set_forward(&words), first);
                assert_eq!(bmp.search_set_backward(&words), last);
            } else {
                assert_eq!(bmp.search_cleared_forward(&words), first);
                assert_eq!(bmp.search_cleared_backward(&words), last);
            }
        }
    }
}

#[test]
fn empty_bitmap_has_no_bits() {
    let words: [u64; 0] = [];
    let bmp: RefBitmap<0> = RefBitmap::new();
    assert_eq!(bmp.word_count(), 0);
    assert_eq!(bmp.test(&words, 0), Err(OutOfBitmapError::new(0, 0)));
    assert_eq!(bmp.search_set_forward(&words), None);
    assert_eq!(bmp.search_cleared_forward(&words), None);
    assert_eq!(bmp.search_set_backward(&words), None);
    assert_eq!(bmp.search_cleared_backward(&words), None);
}

#[test]
fn word_count_rounds_up() {
    assert_eq!(WORD_BITS, 64);
    assert_eq!(RefBitmap::<1>::new().word_count(), 1);
    assert_eq!(RefBitmap::<64>::new().word_count(), 1);
    assert_eq!(RefBitmap::<65>::new().word_count(), 2);
    assert_eq!(RefBitmap::<256>::new().word_count(), 4);
}

#[test]
fn a_longer_region_is_accepted() {
    let mut words: [u64; 8] = [0; 8];
    words[7] = u64::MAX;
    let bmp: RefBitmap<70> = RefBitmap::new();
    assert_eq!(bmp.search_set_backward(&words), None);
    assert_eq!(bmp.set(&mut words, 69), Ok(false));
    assert_eq!(bmp.search_set_backward(&words), Some(69));
    assert_eq!(words[1], 1 << 5);
    assert_eq!(words[7], u64::MAX);
}

#[test]
fn out_of_bitmap_error_fields_and_message() {
    let e = OutOfBitmapError::new(288, 256);
    assert_eq!(e.position(), 288);
    assert_eq!(e.limit(), 256);
    assert_eq!(e.to_string(), "bit 288 is out of bitmap's limit 256");
    assert_eq!(OutOfBitmapError::new(0, 7).to_string(), "bit 0 is out of bitmap's limit 7");
    assert_eq!(
        OutOfBitmapError::new(1000000, 10).to_string(),
        "bit 1000000 is out of bitmap's limit 10"
    );
    assert_ne!(OutOfBitmapError::new(1, 2), OutOfBitmapError::new(2, 1));
}

#[test]
fn bit_scans_find_the_ends_of_a_word() {
    assert_eq!(CountScan::lowest_set_bit(0), None);
    assert_eq!(CountScan::highest_set_bit(0), None);
    assert_eq!(CountScan::lowest_set_bit(1), Some(0));
    assert_eq!(CountScan::highest_set_bit(1), Some(0));
    assert_eq!(CountScan::lowest_set_bit(0x8000_0000_0000_0000), Some(63));
    assert_eq!(CountScan::highest_set_bit(0x8000_0000_0000_0000), Some(63));
    assert_eq!(CountScan::lowest_set_bit(0b1011_0000), Some(4));
    assert_eq!(CountScan::highest_set_bit(0b1011_0000), Some(7));
    assert_eq!(CountScan::lowest_set_bit(u64::MAX), Some(0));
    assert_eq!(CountScan::highest_set_bit(u64::MAX), Some(63));
}

#[test]
fn both_scans_find_the_same_bits() {
    let mut word: u64 = 0x9E37_79B9_7F4A_7C15;
    for _ in 0..200 {
        for sample in [word, word & (word >> 7), word << 13, word >> 29, 1u64 << (word % 64)] {
            assert_eq!(LoopScan::lowest_set_bit(sample), CountScan::lowest_set_bit(sample));
            assert_eq!(LoopScan::highest_set_bit(sample), CountScan::highest_set_bit(sample));
        }
        word = word.wrapping_mul(6364136223846793005).wrapping_add(1442695040888963407);
    }
    assert_eq!(LoopScan::lowest_set_bit(0), None);
    assert_eq!(LoopScan::highest_set_bit(0), None);
    assert_eq!(LoopScan::lowest_set_bit(0b1011_0000), Some(4));
    assert_eq!(LoopScan::highest_set_bit(0b1011_0000), Some(7));
}

#[test]
fn searches_agree_whichever_scan_is_used() {
    let regions: [[u64; 3]; 6] = [
        [0, 0, 0],
        [u64::MAX, u64::MAX, u64::MAX],
        [0x8000_0000_0000_0000, 0, 1],
        [!1, u64::MAX, 0x7FFF_FFFF_FFFF_FFFF],
        [0, 0, 0xFFFF_FFFF_FFC0_0000],
        [u64::MAX, u64::MAX, 0x0000_0000_003F_FFFF],
    ];
    let bmp: RefBitmap<150> = RefBitmap::new();
    for words in regions {
        for target in [false, true] {
            assert_eq!(
                bmp.search_forward_with::<LoopScan>(&words, target),
                bmp.search_forward_with::<CountScan>(&words, target)
            );
            assert_eq!(
                bmp.search_backward_with::<LoopScan>(&words, target),
                bmp.search_backward_with::<CountScan>(&words, target)
            );
        }
        assert_eq!(bmp.search_set_forward(&words), bmp.search_forward_with::<LoopScan>(&words, true));
        assert_eq!(
            bmp.search_cleared_forward(&words),
            bmp.search_forward_with::<LoopScan>(&words, false)
        );
        assert_eq!(
            bmp.search_set_backward(&words),
            bmp.search_backward_with::<LoopScan>(&words, true)
        );
        assert_eq!(
            bmp.search_cleared_backward(&words),
            bmp.search_backward_with::<LoopScan>(&words, false)
        );
    }
    let backed: [u64; 4] = [0, 0, 1, 2];
    let wide: RefBitmap<256> = RefBitmap::new();
    assert_eq!(wide.search_backward_with::<LoopScan>(&backed, true), Some(193));
    assert_eq!(wide.search_forward_with::<LoopScan>(&backed, true), Some(128));
}
