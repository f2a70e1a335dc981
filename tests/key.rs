use toonmux::key::{
    canonicalize_key, KEY_ALT_L, KEY_ALT_R, KEY_CONTROL_L, KEY_CONTROL_R, KEY_HYPER_L,
    KEY_HYPER_R, KEY_SHIFT_L, KEY_SHIFT_R, KEY_SUPER_L, KEY_SUPER_R, KEY_UP,
};

#[test]
fn right_and_left_shift_canonicalize_identically() {
    let right = canonicalize_key(KEY_SHIFT_R, KEY_SHIFT_R);
    let left = canonicalize_key(KEY_SHIFT_L, KEY_SHIFT_L);
    assert_eq!(right, KEY_SHIFT_L);
    assert_eq!(left, KEY_SHIFT_L);
}

#[test]
fn every_right_modifier_folds_to_its_left_one() {
    assert_eq!(canonicalize_key(KEY_ALT_R, KEY_ALT_R), KEY_ALT_L);
    assert_eq!(canonicalize_key(KEY_CONTROL_R, KEY_CONTROL_R), KEY_CONTROL_L);
    assert_eq!(canonicalize_key(KEY_HYPER_R, KEY_HYPER_R), KEY_HYPER_L);
    assert_eq!(canonicalize_key(KEY_SUPER_R, KEY_SUPER_R), KEY_SUPER_L);
}

#[test]
fn letters_take_their_folded_form() {
    // 'G' folds to 'g'.
    assert_eq!(canonicalize_key(0x47, 0x67), 0x67);
    assert_eq!(canonicalize_key(KEY_UP, KEY_UP), KEY_UP);
}

#[test]
fn canonicalization_is_idempotent() {
    let once = canonicalize_key(0x47, 0x67);
    assert_eq!(canonicalize_key(once, 0x67), once);
    let once = canonicalize_key(KEY_CONTROL_R, KEY_CONTROL_R);
    assert_eq!(canonicalize_key(once, once), once);
}
