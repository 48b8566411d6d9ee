use riscv_stack::{
    painted_word_count, repaint_stack, stack_painted, stack_painted_binary, StackRegion,
    STACK_PAINT_VALUE,
};

const BASE: usize = 0x4000;

fn region(size: usize) -> StackRegion {
    StackRegion { start: BASE + size, end: BASE }
}

#[test]
fn paint_covers_only_words_below_sp() {
    let r = region(32);
    let mut words = vec![1u32; 8];
    repaint_stack(&r, BASE + 16, &mut words);
    assert_eq!(words, vec![STACK_PAINT_VALUE, STACK_PAINT_VALUE, STACK_PAINT_VALUE, 1, 1, 1, 1, 1]);
}

#[test]
fn paint_with_unaligned_sp_covers_word_straddling_below() {
    let r = region(32);
    let mut words = vec![1u32; 8];
    repaint_stack(&r, BASE + 9, &mut words);
    assert_eq!(words, vec![STACK_PAINT_VALUE, STACK_PAINT_VALUE, 1, 1, 1, 1, 1, 1]);
}

#[test]
fn paint_of_overflowed_stack_writes_nothing() {
    let r = region(16);
    let mut words = vec![7u32; 4];
    repaint_stack(&r, BASE - 8, &mut words);
    assert_eq!(words, vec![7u32; 4]);
}

#[test]
fn fresh_paint_watermark_is_free_space() {
    let r = region(4096);
    let mut words = vec![0u32; 1024];
    let sp = BASE + 2048;
    repaint_stack(&r, sp, &mut words);
    assert_eq!(stack_painted(&r, sp, &words), 2048);
    assert_eq!(stack_painted_binary(&r, sp, &words), 2048);
}

#[test]
fn fresh_paint_of_full_stack_gives_zero() {
    let r = region(64);
    let mut words = vec![0u32; 16];
    repaint_stack(&r, BASE, &mut words);
    assert_eq!(stack_painted(&r, BASE, &words), 0);
    assert_eq!(stack_painted_binary(&r, BASE, &words), 0);
}

#[test]
fn overflowed_stack_gives_zero() {
    let r = region(64);
    let words = vec![STACK_PAINT_VALUE; 16];
    assert_eq!(stack_painted(&r, BASE - 16, &words), 0);
    assert_eq!(stack_painted_binary(&r, BASE - 16, &words), 0);
    assert_eq!(stack_painted_binary(&r, BASE - 16, &[]), 0);
}

#[test]
fn single_free_word_is_seen_by_both_scanners() {
    let r = region(64);
    let mut words = vec![0u32; 16];
    repaint_stack(&r, BASE + 4, &mut words);
    assert_eq!(words[0], 0);
    assert_eq!(stack_painted(&r, BASE + 4, &words), 4);
    assert_eq!(stack_painted_binary(&r, BASE + 4, &words), 4);
}

#[test]
fn painted_word_count_counts_words_below_sp() {
    let r = region(32);
    assert_eq!(painted_word_count(&r, BASE - 4), 0);
    assert_eq!(painted_word_count(&r, BASE), 0);
    assert_eq!(painted_word_count(&r, BASE + 4), 0);
    assert_eq!(painted_word_count(&r, BASE + 5), 1);
    assert_eq!(painted_word_count(&r, BASE + 16), 3);
    assert_eq!(painted_word_count(&r, BASE + 32), 7);
    assert_eq!(painted_word_count(&r, BASE + 64), 8);
}

#[test]
fn binary_scan_reads_only_painted_words() {
    let r = region(64);
    let sp = BASE + 32;
    let painted = vec![STACK_PAINT_VALUE, STACK_PAINT_VALUE, 9, 9, 9, 9, 9];
    let mut full = painted.clone();
    full.extend_from_slice(&[STACK_PAINT_VALUE; 9]);
    let mut other = painted.clone();
    other.extend_from_slice(&[1u32; 9]);
    assert_eq!(stack_painted_binary(&r, sp, &painted), 12);
    assert_eq!(stack_painted_binary(&r, sp, &full), 12);
    assert_eq!(stack_painted_binary(&r, sp, &other), 12);
}

#[test]
fn binary_scan_never_exceeds_free_space() {
    let r = region(64);
    for sp in (BASE..=BASE + 64).step_by(4) {
        for dirty in 0..16usize {
            let mut words = vec![0u32; 16];
            repaint_stack(&r, sp, &mut words);
            words[dirty] = 3;
            let b = stack_painted_binary(&r, sp, &words);
            assert_eq!(b % 4, 0);
            assert!(b <= sp - BASE);
        }
    }
}

#[test]
fn marked_word_is_found_at_its_offset() {
    let r = region(4096);
    let sp = BASE + 3000;
    for k in [4usize, 8, 100, 1024, 2996] {
        let mut words = vec![0u32; 1024];
        repaint_stack(&r, sp, &mut words);
        words[k / 4 - 1] = 0x1234_5678;
        assert_eq!(stack_painted(&r, sp, &words), k);
    }
}

#[test]
fn binary_scan_agrees_with_linear_on_contiguous_use() {
    let r = region(256);
    let sp = BASE + 200;
    for k in [4usize, 40, 128, 196, 200] {
        let mut words = vec![0u32; 64];
        repaint_stack(&r, sp, &mut words);
        for j in (k / 4 - 1)..64 {
            if BASE + 4 * (j + 1) >= sp {
                break;
            }
            words[j] = 0xdead_beef;
        }
        assert_eq!(stack_painted(&r, sp, &words), k);
        assert_eq!(stack_painted_binary(&r, sp, &words), k);
    }
}

#[test]
fn linear_scan_stops_at_first_hole_binary_at_some_boundary() {
    let r = region(64);
    let sp = BASE + 64;
    let mut words = vec![0u32; 16];
    repaint_stack(&r, sp, &mut words);
    words[2] = 5;
    words[10] = 5;
    assert_eq!(stack_painted(&r, sp, &words), 12);
    let b = stack_painted_binary(&r, sp, &words);
    let p = b / 4 - 1;
    assert_eq!(b % 4, 0);
    assert!(p == 0 || words[p - 1] == STACK_PAINT_VALUE);
    assert!(p >= 15 || words[p] != STACK_PAINT_VALUE);
}

#[test]
fn untouched_paint_scans_to_the_region_top() {
    let r = region(32);
    let words = vec![STACK_PAINT_VALUE; 8];
    assert_eq!(stack_painted(&r, BASE + 32, &words), 32);
    assert_eq!(stack_painted(&r, BASE + 40, &words), 36);
    assert_eq!(stack_painted_binary(&r, BASE + 40, &words), 36);
}
