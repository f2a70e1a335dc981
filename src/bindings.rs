//! Binding tables: the global ("main") keys of each logical action, and the
//! physical keys of each controller's local action slots.
use crate::key::{
    KEY_CONTROL_L, KEY_DELETE, KEY_DOWN, KEY_ESCAPE, KEY_INSERT, KEY_LEFT, KEY_RETURN, KEY_RIGHT,
    KEY_SHIFT_L, KEY_UP, NO_KEY,
};
use vstd::prelude::*;

verus! {

/// A controller's local action slot.
#[derive(Clone, Copy, Debug, PartialEq, Eq, Structural)]
pub enum Slot {
    Forward,
    Back,
    Left,
    Right,
    Jump,
    Dismount,
    Throw,
    LowThrow,
    Talk,
}

/// A slot of the main bindings.
#[derive(Clone, Copy, Debug, PartialEq, Eq, Structural)]
pub enum MainSlot {
    Forward,
    Back,
    Left,
    Right,
    Jump,
    Dismount,
    Throw,
    Talk,
    ToggleMirroring,
}

/// What a routed key press does for one controller. The payload is the main
/// key that is sent to the controller's window.
#[derive(Clone, Copy, Debug, PartialEq, Eq, Structural)]
pub enum Action {
    Simple(u32),
    LowThrow(u32),
    Talk(u32),
}

impl Action {
    pub open spec fn payload(self) -> u32 {
        match self {
            Action::Simple(k) => k,
            Action::LowThrow(k) => k,
            Action::Talk(k) => k,
        }
    }

    /// The same kind of action with another payload.
    pub open spec fn with_payload(self, key: u32) -> Action {
        match self {
            Action::Simple(_) => Action::Simple(key),
            Action::LowThrow(_) => Action::LowThrow(key),
            Action::Talk(_) => Action::Talk(key),
        }
    }

    pub fn key(&self) -> (r: u32)
        ensures
            r == self.payload(),
    {
        match self {
            Action::Simple(k) => *k,
            Action::LowThrow(k) => *k,
            Action::Talk(k) => *k,
        }
    }

    pub fn set_key(&mut self, key: u32)
        ensures
            *final(self) == old(self).with_payload(key),
    {
        match self {
            Action::Simple(k) => *k = key,
            Action::LowThrow(k) => *k = key,
            Action::Talk(k) => *k = key,
        }
    }
}

impl Slot {
    /// The main slot whose key a press of this slot sends: the low throw
    /// reuses the throw key.
    pub open spec fn main_slot(self) -> MainSlot {
        match self {
            Slot::Forward => MainSlot::Forward,
            Slot::Back => MainSlot::Back,
            Slot::Left => MainSlot::Left,
            Slot::Right => MainSlot::Right,
            Slot::Jump => MainSlot::Jump,
            Slot::Dismount => MainSlot::Dismount,
            Slot::Throw => MainSlot::Throw,
            Slot::LowThrow => MainSlot::Throw,
            Slot::Talk => MainSlot::Talk,
        }
    }

    /// The action of this slot's kind that sends `key`.
    pub open spec fn spec_action(self, key: u32) -> Action {
        match self {
            Slot::LowThrow => Action::LowThrow(key),
            Slot::Talk => Action::Talk(key),
            _ => Action::Simple(key),
        }
    }

    pub fn action(self, key: u32) -> (r: Action)
        ensures
            r == self.spec_action(key),
    {
        match self {
            Slot::LowThrow => Action::LowThrow(key),
            Slot::Talk => Action::Talk(key),
            _ => Action::Simple(key),
        }
    }
}

impl MainSlot {
    /// Whether the slot's key is sent to controllers (all but the mirroring
    /// toggle).
    pub open spec fn is_routed(self) -> bool {
        self != MainSlot::ToggleMirroring
    }
}

/// The physical key of each local action slot of one controller.
#[derive(Clone, Copy, Debug, PartialEq, Eq, Structural)]
pub struct Bindings {
    pub forward: u32,
    pub back: u32,
    pub left: u32,
    pub right: u32,
    pub jump: u32,
    pub dismount: u32,
    pub throw: u32,
    pub low_throw: u32,
    pub talk: u32,
}

impl Bindings {
    pub open spec fn spec_get(self, s: Slot) -> u32 {
        match s {
            Slot::Forward => self.forward,
            Slot::Back => self.back,
            Slot::Left => self.left,
            Slot::Right => self.right,
            Slot::Jump => self.jump,
            Slot::Dismount => self.dismount,
            Slot::Throw => self.throw,
            Slot::LowThrow => self.low_throw,
            Slot::Talk => self.talk,
        }
    }

    /// These bindings with slot `s` bound to `key`.
    pub open spec fn spec_with(self, s: Slot, key: u32) -> Bindings {
        match s {
            Slot::Forward => Bindings { forward: key, ..self },
            Slot::Back => Bindings { back: key, ..self },
            Slot::Left => Bindings { left: key, ..self },
            Slot::Right => Bindings { right: key, ..self },
            Slot::Jump => Bindings { jump: key, ..self },
            Slot::Dismount => Bindings { dismount: key, ..self },
            Slot::Throw => Bindings { throw: key, ..self },
            Slot::LowThrow => Bindings { low_throw: key, ..self },
            Slot::Talk => Bindings { talk: key, ..self },
        }
    }

    pub fn get(&self, s: Slot) -> (r: u32)
        ensures
            r == self.spec_get(s),
    {
        match s {
            Slot::Forward => self.forward,
            Slot::Back => self.back,
            Slot::Left => self.left,
            Slot::Right => self.right,
            Slot::Jump => self.jump,
            Slot::Dismount => self.dismount,
            Slot::Throw => self.throw,
            Slot::LowThrow => self.low_throw,
            Slot::Talk => self.talk,
        }
    }

    /// A plain store: the routing table is not touched.
    pub fn set(&mut self, s: Slot, key: u32)
        ensures
            *final(self) == old(self).spec_with(s, key),
    {
        match s {
            Slot::Forward => self.forward = key,
            Slot::Back => self.back = key,
            Slot::Left => self.left = key,
            Slot::Right => self.right = key,
            Slot::Jump => self.jump = key,
            Slot::Dismount => self.dismount = key,
            Slot::Throw => self.throw = key,
            Slot::LowThrow => self.low_throw = key,
            Slot::Talk => self.talk = key,
        }
    }
}

/// Arrow keys to move, left Ctrl to jump, Escape to dismount, Delete to
/// throw, Insert to throw low and Return to talk.
pub open spec fn default_bindings() -> Bindings {
    Bindings {
        forward: KEY_UP,
        back: KEY_DOWN,
        left: KEY_LEFT,
        right: KEY_RIGHT,
        jump: KEY_CONTROL_L,
        dismount: KEY_ESCAPE,
        throw: KEY_DELETE,
        low_throw: KEY_INSERT,
        talk: KEY_RETURN,
    }
}

/// As the default local bindings, with left Shift to toggle mirroring.
pub open spec fn default_main_bindings() -> MainBindings {
    MainBindings {
        forward: KEY_UP,
        back: KEY_DOWN,
        left: KEY_LEFT,
        right: KEY_RIGHT,
        jump: KEY_CONTROL_L,
        dismount: KEY_ESCAPE,
        throw: KEY_DELETE,
        talk: KEY_RETURN,
        toggle_mirroring: KEY_SHIFT_L,
    }
}

impl Default for Bindings {
    fn default() -> (r: Self)
        ensures
            r == default_bindings(),
    {
        Bindings {
            forward: KEY_UP,
            back: KEY_DOWN,
            left: KEY_LEFT,
            right: KEY_RIGHT,
            jump: KEY_CONTROL_L,
            dismount: KEY_ESCAPE,
            throw: KEY_DELETE,
            low_throw: KEY_INSERT,
            talk: KEY_RETURN,
        }
    }
}

/// The main key of each logical action: the key that is actually sent to a
/// controller's window. The low throw has no key of its own: it reuses the
/// throw key.
#[derive(Clone, Copy, Debug, PartialEq, Eq, Structural)]
pub struct MainBindings {
    pub forward: u32,
    pub back: u32,
    pub left: u32,
    pub right: u32,
    pub jump: u32,
    pub dismount: u32,
    pub throw: u32,
    pub talk: u32,
    pub toggle_mirroring: u32,
}

impl MainBindings {
    pub open spec fn spec_get(self, s: MainSlot) -> u32 {
        match s {
            MainSlot::Forward => self.forward,
            MainSlot::Back => self.back,
            MainSlot::Left => self.left,
            MainSlot::Right => self.right,
            MainSlot::Jump => self.jump,
            MainSlot::Dismount => self.dismount,
            MainSlot::Throw => self.throw,
            MainSlot::Talk => self.talk,
            MainSlot::ToggleMirroring => self.toggle_mirroring,
        }
    }

    /// These bindings with main slot `s` bound to `key`.
    pub open spec fn spec_with(self, s: MainSlot, key: u32) -> MainBindings {
        match s {
            MainSlot::Forward => MainBindings { forward: key, ..self },
            MainSlot::Back => MainBindings { back: key, ..self },
            MainSlot::Left => MainBindings { left: key, ..self },
            MainSlot::Right => MainBindings { right: key, ..self },
            MainSlot::Jump => MainBindings { jump: key, ..self },
            MainSlot::Dismount => MainBindings { dismount: key, ..self },
            MainSlot::Throw => MainBindings { throw: key, ..self },
            MainSlot::Talk => MainBindings { talk: key, ..self },
            MainSlot::ToggleMirroring => MainBindings { toggle_mirroring: key, ..self },
        }
    }

    /// The main key that a press of local slot `s` sends.
    pub open spec fn key_for(self, s: Slot) -> u32 {
        self.spec_get(s.main_slot())
    }

    /// Whether `key` is the key of one of the routed main slots.
    pub open spec fn spec_is_bound(self, key: u32) -> bool {
        exists|s: MainSlot| s.is_routed() && #[trigger] self.spec_get(s) == key
    }

    /// Every routed main slot is bound, each to a key of its own.
    pub open spec fn routable(self) -> bool {
        &&& forall|s: MainSlot| s.is_routed() ==> #[trigger] self.spec_get(s) != NO_KEY
        &&& forall|s: MainSlot, t: MainSlot|
            s.is_routed() && t.is_routed() && s != t ==> #[trigger] self.spec_get(s)
                != #[trigger] self.spec_get(t)
    }

    pub fn get(&self, s: MainSlot) -> (r: u32)
        ensures
            r == self.spec_get(s),
    {
        match s {
            MainSlot::Forward => self.forward,
            MainSlot::Back => self.back,
            MainSlot::Left => self.left,
            MainSlot::Right => self.right,
            MainSlot::Jump => self.jump,
            MainSlot::Dismount => self.dismount,
            MainSlot::Throw => self.throw,
            MainSlot::Talk => self.talk,
            MainSlot::ToggleMirroring => self.toggle_mirroring,
        }
    }

    /// A plain store: the routing table is not touched.
    pub fn set(&mut self, s: MainSlot, key: u32)
        ensures
            *final(self) == old(self).spec_with(s, key),
    {
        match s {
            MainSlot::Forward => self.forward = key,
            MainSlot::Back => self.back = key,
            MainSlot::Left => self.left = key,
            MainSlot::Right => self.right = key,
            MainSlot::Jump => self.jump = key,
            MainSlot::Dismount => self.dismount = key,
            MainSlot::Throw => self.throw = key,
            MainSlot::Talk => self.talk = key,
            MainSlot::ToggleMirroring => self.toggle_mirroring = key,
        }
    }

    /// The main key that a press of local slot `s` sends.
    pub fn key_for_slot(&self, s: Slot) -> (r: u32)
        ensures
            r == self.key_for(s),
    {
        match s {
            Slot::Forward => self.forward,
            Slot::Back => self.back,
            Slot::Left => self.left,
            Slot::Right => self.right,
            Slot::Jump => self.jump,
            Slot::Dismount => self.dismount,
            Slot::Throw => self.throw,
            Slot::LowThrow => self.throw,
            Slot::Talk => self.talk,
        }
    }

    /// Whether `key` is already the key of a routed main slot (every slot but
    /// the mirroring toggle).
    pub fn is_bound_main(&self, key: u32) -> (r: bool)
        ensures
            r == self.spec_is_bound(key),
    {
        let r = self.forward == key || self.back == key || self.left == key || self.right == key
            || self.jump == key || self.dismount == key || self.throw == key || self.talk == key;
        proof {
            if r {
                if self.forward == key {
                    assert(self.spec_get(MainSlot::Forward) == key);
                } else if self.back == key {
                    assert(self.spec_get(MainSlot::Back) == key);
                } else if self.left == key {
                    assert(self.spec_get(MainSlot::Left) == key);
                } else if self.right == key {
                    assert(self.spec_get(MainSlot::Right) == key);
                } else if self.jump == key {
                    assert(self.spec_get(MainSlot::Jump) == key);
                } else if self.dismount == key {
                    assert(self.spec_get(MainSlot::Dismount) == key);
                } else if self.throw == key {
                    assert(self.spec_get(MainSlot::Throw) == key);
                } else {
                    assert(self.spec_get(MainSlot::Talk) == key);
                }
            }
        }
        r
    }

    pub fn forward(&self) -> (r: u32)
        ensures
            r == self.forward,
    {
        self.forward
    }

    pub fn back(&self) -> (r: u32)
        ensures
            r == self.back,
    {
        self.back
    }

    pub fn left(&self) -> (r: u32)
        ensures
            r == self.left,
    {
        self.left
    }

    pub fn right(&self) -> (r: u32)
        ensures
            r == self.right,
    {
        self.right
    }

    pub fn jump(&self) -> (r: u32)
        ensures
            r == self.jump,
    {
        self.jump
    }

    pub fn dismount(&self) -> (r: u32)
        ensures
            r == self.dismount,
    {
        self.dismount
    }

    pub fn throw(&self) -> (r: u32)
        ensures
            r == self.throw,
    {
        self.throw
    }

    pub fn talk(&self) -> (r: u32)
        ensures
            r == self.talk,
    {
        self.talk
    }

    pub fn toggle_mirroring(&self) -> (r: u32)
        ensures
            r == self.toggle_mirroring,
    {
        self.toggle_mirroring
    }

    /// The low throw sends the throw key.
    pub fn low_throw(&self) -> (r: u32)
        ensures
            r == self.throw,
    {
        self.throw
    }
}

impl Default for MainBindings {
    fn default() -> (r: Self)
        ensures
            r == default_main_bindings(),
    {
        MainBindings {
            forward: KEY_UP,
            back: KEY_DOWN,
            left: KEY_LEFT,
            right: KEY_RIGHT,
            jump: KEY_CONTROL_L,
            dismount: KEY_ESCAPE,
            throw: KEY_DELETE,
            talk: KEY_RETURN,
            toggle_mirroring: KEY_SHIFT_L,
        }
    }
}

} // verus!
