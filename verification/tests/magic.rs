use rgssad::magic::{advance_magic, fixed_mask_of, mask_fixed, mask_rolling, TABLE_SEED};

#[test]
fn advance_emits_the_state_and_steps() {
    let mut magic = 0xdeadcafe_u32;
    assert_eq!(advance_magic(&mut magic), 0xdeadcafe);
    assert_eq!(magic, 0x16c08cf5);
    assert_eq!(advance_magic(&mut magic), 0x16c08cf5);
    assert_eq!(magic, 0x9f43dab6);
}

#[test]
fn advance_from_small_states() {
    let mut magic = 0_u32;
    assert_eq!(advance_magic(&mut magic), 0);
    assert_eq!(magic, 3);
    let mut magic = 1_u32;
    assert_eq!(advance_magic(&mut magic), 1);
    assert_eq!(magic, 10);
}

#[test]
fn advance_wraps_around() {
    let mut magic = u32::MAX;
    assert_eq!(advance_magic(&mut magic), u32::MAX);
    assert_eq!(magic, 0xffff_fffc);
}

#[test]
fn advance_agrees_with_the_formula() {
    let mut magic = 12345_u32;
    for _ in 0..1000 {
        let before = magic;
        let emitted = advance_magic(&mut magic);
        assert_eq!(emitted, before);
        assert_eq!(magic as u64, (before as u64 * 7 + 3) % (1u64 << 32));
    }
}

#[test]
fn table_seed_is_deadcafe() {
    assert_eq!(TABLE_SEED, 0xdeadcafe);
}

#[test]
fn fixed_mask_is_nine_times_plus_three() {
    assert_eq!(fixed_mask_of(0), 3);
    assert_eq!(fixed_mask_of(1), 12);
    assert_eq!(fixed_mask_of(0x12345678), 0xa3d70a3b);
    assert_eq!(fixed_mask_of(u32::MAX), 0xffff_fffa);
}

#[test]
fn rolling_mask_steps_once_for_each_byte() {
    let mut bytes = vec![0u8; 3];
    let mut magic = 0xdeadcafe_u32;
    mask_rolling(&mut bytes, &mut magic);
    assert_eq!(bytes, vec![0xfe, 0xf5, 0xb6]);
    let mut expected = 0xdeadcafe_u32;
    for _ in 0..3 {
        advance_magic(&mut expected);
    }
    assert_eq!(magic, expected);
}

#[test]
fn rolling_mask_of_nothing_keeps_the_state() {
    let mut bytes: Vec<u8> = Vec::new();
    let mut magic = 77_u32;
    mask_rolling(&mut bytes, &mut magic);
    assert_eq!(magic, 77);
}

#[test]
fn rolling_mask_is_its_own_inverse() {
    let plain: Vec<u8> = (0..=255u8).collect();
    let mut bytes = plain.clone();
    let mut magic = 0x0bad_f00d_u32;
    mask_rolling(&mut bytes, &mut magic);
    assert_ne!(bytes, plain);
    let mut magic = 0x0bad_f00d_u32;
    mask_rolling(&mut bytes, &mut magic);
    assert_eq!(bytes, plain);
}

#[test]
fn fixed_mask_repeats_the_four_bytes() {
    let mut bytes = vec![0u8; 6];
    mask_fixed(&mut bytes, 0xa3d70a3b);
    assert_eq!(bytes, vec![0x3b, 0x0a, 0xd7, 0xa3, 0x3b, 0x0a]);
}

#[test]
fn fixed_mask_is_its_own_inverse() {
    let plain: Vec<u8> = (0..100u8).collect();
    let mut bytes = plain.clone();
    mask_fixed(&mut bytes, 0x1357_9bdf);
    assert_ne!(bytes, plain);
    mask_fixed(&mut bytes, 0x1357_9bdf);
    assert_eq!(bytes, plain);
}
