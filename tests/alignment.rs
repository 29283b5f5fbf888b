use sandbox_bridge::align::{is_power_of_two, page_align};

#[test]
fn align_rounds_up_past_boundary() {
    assert_eq!(page_align(4100, 4096), 8192);
}

#[test]
fn align_keeps_aligned_pointer() {
    assert_eq!(page_align(4096, 4096), 4096);
    assert_eq!(page_align(8192, 4096), 8192);
}

#[test]
fn align_one_past_boundary() {
    assert_eq!(page_align(4097, 4096), 8192);
}

#[test]
fn align_small_pointer() {
    assert_eq!(page_align(1, 4096), 4096);
    assert_eq!(page_align(4095, 4096), 4096);
}

#[test]
fn align_other_page_sizes() {
    for &ps in &[1i64, 2, 64, 65536] {
        for ptr in 1i64..300 {
            let r = page_align(ptr, ps);
            assert_eq!(r % ps, 0);
            assert!(r >= ptr);
            assert!(r < ptr + ps);
            if ptr % ps == 0 {
                assert_eq!(r, ptr);
            }
        }
    }
}

#[test]
fn page_size_check() {
    assert!(is_power_of_two(4096));
    assert!(is_power_of_two(1));
    assert!(is_power_of_two(1 << 61));
    assert!(!is_power_of_two(1 << 62));
    assert!(!is_power_of_two(0));
    assert!(!is_power_of_two(-4096));
    assert!(!is_power_of_two(4097));
    assert!(!is_power_of_two(6144));
}
