//! Key values and their canonical form.
//!
//! A key is an X keysym value; `NO_KEY` (zero) means "unbound".
use vstd::prelude::*;

verus! {

/// The "unbound" key.
pub const NO_KEY: u32 = 0;

pub const KEY_RETURN: u32 = 0xff0d;
pub const KEY_ESCAPE: u32 = 0xff1b;
pub const KEY_LEFT: u32 = 0xff51;
pub const KEY_UP: u32 = 0xff52;
pub const KEY_RIGHT: u32 = 0xff53;
pub const KEY_DOWN: u32 = 0xff54;
pub const KEY_INSERT: u32 = 0xff63;
pub const KEY_DELETE: u32 = 0xffff;
pub const KEY_SHIFT_L: u32 = 0xffe1;
pub const KEY_SHIFT_R: u32 = 0xffe2;
pub const KEY_CONTROL_L: u32 = 0xffe3;
pub const KEY_CONTROL_R: u32 = 0xffe4;
pub const KEY_ALT_L: u32 = 0xffe9;
pub const KEY_ALT_R: u32 = 0xffea;
pub const KEY_SUPER_L: u32 = 0xffeb;
pub const KEY_SUPER_R: u32 = 0xffec;
pub const KEY_HYPER_L: u32 = 0xffed;
pub const KEY_HYPER_R: u32 = 0xffee;

/// The right-hand variant of a modifier that has a left and a right key.
pub open spec fn is_right_modifier(key: u32) -> bool {
    key == KEY_ALT_R || key == KEY_CONTROL_R || key == KEY_HYPER_R || key == KEY_SHIFT_R
        || key == KEY_SUPER_R
}

/// The left-hand variant of a modifier that has a left and a right key.
pub open spec fn is_left_modifier(key: u32) -> bool {
    key == KEY_ALT_L || key == KEY_CONTROL_L || key == KEY_HYPER_L || key == KEY_SHIFT_L
        || key == KEY_SUPER_L
}

/// The left-hand counterpart of a right-hand modifier.
pub open spec fn left_counterpart(key: u32) -> u32 {
    if key == KEY_ALT_R {
        KEY_ALT_L
    } else if key == KEY_CONTROL_R {
        KEY_CONTROL_L
    } else if key == KEY_HYPER_R {
        KEY_HYPER_L
    } else if key == KEY_SHIFT_R {
        KEY_SHIFT_L
    } else {
        KEY_SUPER_L
    }
}

/// The canonical form of `key`, where `folded` is the key's lower-case form.
pub open spec fn canonical(key: u32, folded: u32) -> u32 {
    if is_right_modifier(key) {
        left_counterpart(key)
    } else {
        folded
    }
}

/// Gets the canonical version of a key: a right-hand modifier becomes its
/// left-hand counterpart; any other key becomes `folded`, its lower-case
/// form as the toolkit's case conversion gives it.
pub fn canonicalize_key(key: u32, folded: u32) -> (r: u32)
    ensures
        r == canonical(key, folded),
{
    if key == KEY_ALT_R {
        KEY_ALT_L
    } else if key == KEY_CONTROL_R {
        KEY_CONTROL_L
    } else if key == KEY_HYPER_R {
        KEY_HYPER_L
    } else if key == KEY_SHIFT_R {
        KEY_SHIFT_L
    } else if key == KEY_SUPER_R {
        KEY_SUPER_L
    } else {
        folded
    }
}

/// Canonicalization is idempotent, and both variants of a modifier get one
/// canonical value, for any case folding `fold` that is idempotent, leaves
/// modifiers alone and never yields a right-hand modifier.
pub proof fn lemma_canonical_idempotent(fold: spec_fn(u32) -> u32, key: u32)
    requires
        forall|k: u32| #[trigger] fold(fold(k)) == fold(k),
        forall|k: u32| is_left_modifier(k) ==> #[trigger] fold(k) == k,
        forall|k: u32| !is_right_modifier(k) ==> !is_right_modifier(#[trigger] fold(k)),
    ensures
        ({
            let c = canonical(key, fold(key));
            canonical(c, fold(c)) == c
        }),
        canonical(KEY_SHIFT_R, fold(KEY_SHIFT_R)) == canonical(KEY_SHIFT_L, fold(KEY_SHIFT_L)),
        canonical(KEY_CONTROL_R, fold(KEY_CONTROL_R)) == canonical(
            KEY_CONTROL_L,
            fold(KEY_CONTROL_L),
        ),
        canonical(KEY_ALT_R, fold(KEY_ALT_R)) == canonical(KEY_ALT_L, fold(KEY_ALT_L)),
        canonical(KEY_SUPER_R, fold(KEY_SUPER_R)) == canonical(KEY_SUPER_L, fold(KEY_SUPER_L)),
        canonical(KEY_HYPER_R, fold(KEY_HYPER_R)) == canonical(KEY_HYPER_L, fold(KEY_HYPER_L)),
{
    let c = canonical(key, fold(key));
    if is_right_modifier(key) {
        assert(is_left_modifier(c));
        assert(fold(c) == c);
    } else {
        assert(fold(fold(key)) == fold(key));
    }
    assert(fold(KEY_SHIFT_L) == KEY_SHIFT_L);
    assert(fold(KEY_CONTROL_L) == KEY_CONTROL_L);
    assert(fold(KEY_ALT_L) == KEY_ALT_L);
    assert(fold(KEY_SUPER_L) == KEY_SUPER_L);
    assert(fold(KEY_HYPER_L) == KEY_HYPER_L);
}

} // verus!
