use rollsig::rollsum::{Rollsum, Window};

#[test]
pub fn default_value() {
    let rs = Window::new();
    assert_eq!(rs.count, 0);
    assert_eq!(rs.s1, 0);
    assert_eq!(rs.s2, 0);
    assert_eq!(rs.digest(), 0u32);
}

#[test]
pub fn rollsum() {
    let mut rs = Window::new();
    rs.roll_in(0u8);
    assert_eq!(rs.count, 1);
    assert_eq!(rs.digest(), 0x001f001f);

    rs.roll_in(1u8);
    rs.roll_in(2u8);
    rs.roll_in(3u8);
    assert_eq!(rs.count, 4);
    assert_eq!(rs.digest(), 0x01400082);

    rs.rotate(0, 4);
    assert_eq!(rs.count, 4);
    assert_eq!(rs.digest(), 0x014a0086);

    rs.rotate(1, 5);
    rs.rotate(2, 6);
    rs.rotate(3, 7);
    assert_eq!(rs.count, 4);
    assert_eq!(rs.digest(), 0x01680092);

    rs.roll_out(4);
    assert_eq!(rs.count, 3);
    assert_eq!(rs.digest(), 0x00dc006f);

    rs.roll_out(5);
    rs.roll_out(6);
    rs.roll_out(7);
    assert_eq!(rs.count, 0);
    assert_eq!(rs.digest(), 0);
}

#[test]
pub fn update() {
    let mut rs = Window::new();
    let mut buf = [0u8; 256];
    for i in 0..buf.len() {
        buf[i] = i as u8;
    }
    rs.update(&buf);
    assert_eq!(rs.digest(), 0x3a009e80);
}

#[test]
pub fn update_split_equivalence() {
    let mut buf = [0u8; 100];
    for i in 0..buf.len() {
        buf[i] = (i * 7 + 3) as u8;
    }
    for k in [0usize, 1, 37, 99, 100] {
        let mut whole = Window::new();
        whole.update(&buf);
        let mut parts = Window::new();
        parts.update(&buf[..k]);
        parts.update(&buf[k..]);
        assert_eq!(whole.digest(), parts.digest());
        assert_eq!(whole.count, parts.count);
    }
}

#[test]
pub fn roll_in_roll_out_inverse_from_zero() {
    let mut rs = Window::new();
    rs.roll_in(7);
    rs.roll_out(7);
    assert_eq!(rs.count, 0);
    assert_eq!(rs.s1, 0);
    assert_eq!(rs.s2, 0);
    assert_eq!(rs.digest(), 0);
}

#[test]
pub fn roll_in_roll_out_inverse_uniform_window() {
    // A window whose bytes all equal the rolled byte: tail insertion and
    // head removal coincide, so the pair of calls is an exact inverse.
    let mut rs = Window::new();
    rs.roll_in(5);
    rs.roll_in(5);
    rs.roll_in(5);
    let saved = rs.digest();
    let saved_count = rs.count;
    rs.roll_in(5);
    rs.roll_out(5);
    assert_eq!(rs.count, saved_count);
    assert_eq!(rs.digest(), saved);
}

#[test]
pub fn roll_out_removes_at_head_not_tail() {
    // Window [0]; rolling 1 in at the tail and then out "as the oldest"
    // restores count and s1, but moves s2: roll_out removes at the head.
    let mut rs = Window::new();
    rs.roll_in(0);
    let s1_before = rs.s1;
    let s2_before = rs.s2;
    rs.roll_in(1);
    rs.roll_out(1);
    assert_eq!(rs.count, 1);
    assert_eq!(rs.s1, s1_before);
    assert_ne!(rs.s2, s2_before);
}

#[test]
pub fn rotate_matches_recompute() {
    let window = [10u8, 20, 30, 40];
    let mut rs = Window::new();
    rs.update(&window);
    rs.rotate(10, 50);

    let mut fresh = Window::new();
    fresh.update(&[20u8, 30, 40, 50]);
    assert_eq!(rs.digest(), fresh.digest());
    assert_eq!(rs.count, fresh.count);
}

#[test]
pub fn rotate_count_tracking_differs_from_roll_pair() {
    // rotate never lets the window shrink; roll_out followed by roll_in
    // passes through a shorter window. The counts diverge mid-way even
    // though the final states agree.
    let mut rotated = Window::new();
    rotated.update(&[1u8, 2, 3, 4]);
    assert_eq!(rotated.count, 4);
    rotated.rotate(1, 5);
    assert_eq!(rotated.count, 4);

    let mut rolled = Window::new();
    rolled.update(&[1u8, 2, 3, 4]);
    rolled.roll_out(1);
    assert_eq!(rolled.count, 3);
    rolled.roll_in(5);
    assert_eq!(rolled.count, 4);
}

#[test]
pub fn digest_packs_s2_high_s1_low() {
    let mut rs = Window::new();
    rs.roll_in(9);
    rs.roll_in(200);
    assert_eq!(rs.digest(), ((rs.s2 as u32) << 16) | (rs.s1 as u32));
}
