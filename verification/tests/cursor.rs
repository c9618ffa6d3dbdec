//! The transparent pointer shape and its re-send cadence.

use hyperv_rdp_extras::cursor::{
    ResendCounter, TRANSPARENT_POINTER_SIZE, TransparentPointer, is_send_tick,
};

#[test]
fn shape_fields_follow_the_spec() {
    let p = TransparentPointer::new_32x32();
    assert_eq!(p.width, 32);
    assert_eq!(p.height, 32);
    assert_eq!(p.cache_index, 0);
    assert_eq!(p.hot_x, 0);
    assert_eq!(p.hot_y, 0);
}

#[test]
fn and_mask_is_one_bit_per_pixel_all_opaque() {
    let p = TransparentPointer::new_32x32();
    // 32 px/row → 4 bytes/row, no padding; 32 rows.
    assert_eq!(p.and_mask.len(), 32 * 4);
    assert!(p.and_mask.iter().all(|&b| b == 0xFF));
}

#[test]
fn xor_mask_is_24bpp_all_zero() {
    let p = TransparentPointer::new_32x32();
    // 3 bytes/px × 32 px = 96 bytes/row, no padding; 32 rows.
    assert_eq!(p.xor_mask.len(), 32 * 32 * 3);
    assert!(p.xor_mask.iter().all(|&b| b == 0x00));
}

#[test]
fn mask_bytes_matches_field_lengths() {
    let p = TransparentPointer::new_32x32();
    assert_eq!(p.mask_bytes(), 32 * 4 + 32 * 32 * 3);
}

#[test]
fn first_send_is_immediate_then_periodic() {
    let c = ResendCounter::new(60);
    // Frame 0: immediate send.
    assert!(c.should_send());
    // Frames 1..59: no send.
    for _ in 1..60 {
        assert!(!c.should_send(), "must not send inside the interval");
    }
    // Frame 60: periodic re-send.
    assert!(c.should_send());
    // Frames 61..119: no send; frame 120: re-send.
    for _ in 61..120 {
        assert!(!c.should_send());
    }
    assert!(c.should_send());
}

#[test]
fn counter_clones_share_state() {
    let a = ResendCounter::new(3);
    let b = a.clone();
    assert!(a.should_send()); // frame 0 (immediate)
    assert!(!b.should_send()); // frame 1
    assert!(!a.should_send()); // frame 2
    assert!(b.should_send()); // frame 3 → periodic
}

#[test]
fn every_pixel_keeps_its_screen_content() {
    let p = TransparentPointer::new_32x32();
    assert_eq!(p.width, TRANSPARENT_POINTER_SIZE);
    for y in 0..32usize {
        for x in 0..32usize {
            let keep = (p.and_mask[y * 4 + x / 8] >> (7 - x % 8)) & 1;
            assert_eq!(keep, 1);
            for channel in 0..3usize {
                let screen: u8 = 0x5A;
                assert_eq!(screen ^ p.xor_mask[y * 96 + 3 * x + channel], screen);
            }
        }
    }
}

#[test]
fn interval_is_reported() {
    assert_eq!(ResendCounter::new(60).interval(), 60);
    assert_eq!(ResendCounter::default().interval(), 0);
}

#[test]
fn default_counter_sends_once() {
    let c = ResendCounter::default();
    assert!(c.should_send());
    for _ in 0..200 {
        assert!(!c.should_send());
    }
}

#[test]
fn interval_one_sends_always() {
    let c = ResendCounter::new(1);
    for _ in 0..10 {
        assert!(c.should_send());
    }
}

#[test]
fn send_ticks_are_the_multiples_of_the_interval() {
    for interval in 1..10u32 {
        for tick in 0..100u32 {
            assert_eq!(is_send_tick(tick, interval), tick % interval == 0);
        }
    }
    assert!(is_send_tick(0, 0));
    assert!(!is_send_tick(7, 0));
}

#[test]
fn clones_keep_the_interval() {
    let a = ResendCounter::new(7);
    assert_eq!(a.clone().interval(), 7);
    assert!(a.should_send());
    // A clone made later goes on from the shared count.
    let b = a.clone();
    for _ in 1..7 {
        assert!(!b.should_send());
    }
    assert!(a.should_send());
}
