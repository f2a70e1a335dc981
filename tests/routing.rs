use toonmux::bindings::{Action, Bindings, MainBindings, MainSlot, Slot};
use toonmux::json;
use toonmux::key::{
    KEY_CONTROL_L, KEY_DELETE, KEY_DOWN, KEY_ESCAPE, KEY_INSERT, KEY_LEFT, KEY_RETURN, KEY_RIGHT,
    KEY_SHIFT_L, KEY_UP, NO_KEY,
};
use toonmux::routes::Route;
use toonmux::state::{State, NO_MIRROR, NO_WINDOW};

const KEY_W: u32 = 0x77;
const KEY_I: u32 = 0x69;
const KEY_F1: u32 = 0xffbe;

/// The routes under `key`, sorted, so that tables can be compared as sets.
fn routes_at(state: &State, key: u32) -> Vec<Route> {
    let mut v: Vec<Route> = state.routes.get(&key).cloned().unwrap_or_default();
    v.sort_by_key(|(c, a)| (*c, format!("{:?}", a)));
    v
}

/// Every key with at least one route.
fn routed_keys(state: &State) -> Vec<u32> {
    let mut keys: Vec<u32> = state
        .routes
        .iter()
        .filter(|(_, v)| !v.is_empty())
        .map(|(k, _)| *k)
        .collect();
    keys.sort();
    keys
}

/// The table equals a from-scratch build over the current bindings.
fn assert_matches_rebuild(state: &State) {
    let rebuilt = State::from_config(&json::State::from_state_ref(state));
    assert_eq!(routed_keys(state), routed_keys(&rebuilt));
    for key in routed_keys(state) {
        assert_eq!(routes_at(state, key), routes_at(&rebuilt, key));
    }
}

#[test]
fn new_state_routes_every_bound_slot() {
    let state = State::new();
    assert_eq!(state.controllers.len(), 3);
    assert!(state.mirroring);
    assert!(state.talking.is_empty());
    assert_eq!(
        routes_at(&state, KEY_UP),
        vec![
            (0, Action::Simple(KEY_UP)),
            (1, Action::Simple(KEY_UP)),
            (2, Action::Simple(KEY_UP)),
        ]
    );
    assert_eq!(
        routes_at(&state, KEY_INSERT),
        vec![
            (0, Action::LowThrow(KEY_DELETE)),
            (1, Action::LowThrow(KEY_DELETE)),
            (2, Action::LowThrow(KEY_DELETE)),
        ]
    );
    assert_eq!(
        routes_at(&state, KEY_RETURN),
        vec![
            (0, Action::Talk(KEY_RETURN)),
            (1, Action::Talk(KEY_RETURN)),
            (2, Action::Talk(KEY_RETURN)),
        ]
    );
    assert_eq!(routed_keys(&state).len(), 9);
    // Order of a fresh build: controller index, then slot order.
    let built: Vec<Route> = state.routes.get(&KEY_UP).cloned().unwrap();
    assert_eq!(built[0].0, 0);
    assert_eq!(built[2].0, 2);
}

#[test]
fn rebinding_to_the_same_key_changes_nothing() {
    let mut state = State::new();
    let before = state.routes.clone();
    assert!(!state.set_binding(0, Slot::Forward, KEY_UP));
    assert_eq!(state.routes, before);
    assert_eq!(state.controllers[0].bindings.forward, KEY_UP);
}

#[test]
fn rebinding_moves_one_route() {
    let mut state = State::new();
    assert!(state.set_binding(1, Slot::Forward, KEY_W));
    assert_eq!(state.controllers[1].bindings.forward, KEY_W);
    assert_eq!(
        routes_at(&state, KEY_UP),
        vec![(0, Action::Simple(KEY_UP)), (2, Action::Simple(KEY_UP))]
    );
    assert_eq!(routes_at(&state, KEY_W), vec![(1, Action::Simple(KEY_UP))]);
    assert_matches_rebuild(&state);
}

#[test]
fn clearing_a_slot_removes_its_route() {
    let mut state = State::new();
    assert!(state.set_binding(2, Slot::Talk, NO_KEY));
    assert_eq!(state.controllers[2].bindings.talk, NO_KEY);
    assert_eq!(
        routes_at(&state, KEY_RETURN),
        vec![(0, Action::Talk(KEY_RETURN)), (1, Action::Talk(KEY_RETURN))]
    );
    assert!(state.routes.get(&NO_KEY).is_none());
    assert_matches_rebuild(&state);
}

#[test]
fn reroute_removes_only_the_matching_route() {
    let mut state = State::new();
    state.reroute(1, KEY_UP, KEY_F1, KEY_UP, Some(Action::Simple(KEY_UP)));
    assert_eq!(
        routes_at(&state, KEY_UP),
        vec![(0, Action::Simple(KEY_UP)), (2, Action::Simple(KEY_UP))]
    );
    assert_eq!(routes_at(&state, KEY_F1), vec![(1, Action::Simple(KEY_UP))]);
    state.reroute(1, KEY_F1, NO_KEY, KEY_UP, None);
    assert_eq!(routes_at(&state, KEY_F1), vec![]);
}

#[test]
fn reroute_main_to_none_removes_every_route_sending_the_key() {
    let mut state = State::new();
    state.reroute_main(KEY_UP, NO_KEY);
    assert_eq!(routes_at(&state, KEY_UP), vec![]);
    for key in routed_keys(&state) {
        for (_, action) in routes_at(&state, key) {
            assert_ne!(action.key(), KEY_UP);
        }
    }
    assert_eq!(
        routes_at(&state, KEY_DOWN),
        vec![
            (0, Action::Simple(KEY_DOWN)),
            (1, Action::Simple(KEY_DOWN)),
            (2, Action::Simple(KEY_DOWN)),
        ]
    );
    assert_eq!(routed_keys(&state).len(), 8);
}

#[test]
fn reroute_main_renames_the_payload_in_place() {
    let mut state = State::new();
    state.reroute_main(KEY_DELETE, KEY_F1);
    assert_eq!(
        routes_at(&state, KEY_DELETE),
        vec![
            (0, Action::Simple(KEY_F1)),
            (1, Action::Simple(KEY_F1)),
            (2, Action::Simple(KEY_F1)),
        ]
    );
    assert_eq!(
        routes_at(&state, KEY_INSERT),
        vec![
            (0, Action::LowThrow(KEY_F1)),
            (1, Action::LowThrow(KEY_F1)),
            (2, Action::LowThrow(KEY_F1)),
        ]
    );
}

#[test]
fn main_rebinding_keeps_the_table_consistent() {
    let mut state = State::new();
    assert!(state.set_binding(1, Slot::Forward, KEY_W));
    assert!(state.set_main_binding(MainSlot::Throw, KEY_F1));
    assert_eq!(state.main_bindings.throw(), KEY_F1);
    assert_eq!(state.main_bindings.low_throw(), KEY_F1);
    assert_matches_rebuild(&state);
    assert!(state.set_main_binding(MainSlot::Forward, KEY_I));
    assert_eq!(routes_at(&state, KEY_W), vec![(1, Action::Simple(KEY_I))]);
    assert_matches_rebuild(&state);
    assert!(state.set_binding(0, Slot::Jump, KEY_W));
    assert_matches_rebuild(&state);
}

#[test]
fn main_rebinding_refuses_a_bound_key_and_the_same_key() {
    let mut state = State::new();
    let before = state.routes.clone();
    assert!(state.is_bound_main(KEY_DOWN));
    assert!(!state.set_main_binding(MainSlot::Forward, KEY_DOWN));
    assert!(!state.set_main_binding(MainSlot::Forward, KEY_UP));
    assert_eq!(state.main_bindings.forward(), KEY_UP);
    assert_eq!(state.routes, before);
}

#[test]
fn mirroring_toggle_key_is_not_routed() {
    let mut state = State::new();
    let before = state.routes.clone();
    assert!(!state.is_bound_main(KEY_SHIFT_L));
    assert!(state.set_main_binding(MainSlot::ToggleMirroring, KEY_F1));
    assert_eq!(state.main_bindings.toggle_mirroring(), KEY_F1);
    assert_eq!(state.routes, before);
}

#[test]
fn clearing_a_main_key_drops_its_routes() {
    let mut state = State::new();
    assert!(state.set_main_binding(MainSlot::Jump, NO_KEY));
    assert_eq!(state.main_bindings.jump(), NO_KEY);
    assert_eq!(routes_at(&state, KEY_CONTROL_L), vec![]);
}

#[test]
fn remove_controller_purges_its_routes_and_mirror_links() {
    let mut state = State::new();
    state.set_mirror(0, 2);
    state.set_mirror(2, 1);
    state.talking.insert(2);
    state.remove_controller();
    assert_eq!(state.controllers.len(), 2);
    assert_eq!(state.controllers[0].mirror, NO_MIRROR);
    assert!(!state.controllers[0].has_mirror());
    assert!(state.controllers[1].mirrored.is_empty());
    assert!(state.talking.is_empty());
    for key in routed_keys(&state) {
        for (c, _) in routes_at(&state, key) {
            assert!(c < 2);
        }
    }
    assert_eq!(
        routes_at(&state, KEY_UP),
        vec![(0, Action::Simple(KEY_UP)), (1, Action::Simple(KEY_UP))]
    );
    assert_matches_rebuild(&state);
}

#[test]
fn remove_controller_on_empty_registry_does_nothing() {
    let mut state = State::new();
    state.remove_controller();
    state.remove_controller();
    state.remove_controller();
    assert!(state.controllers.is_empty());
    assert!(routed_keys(&state).is_empty());
    state.remove_controller();
    assert!(state.controllers.is_empty());
}

#[test]
fn add_controller_copies_the_last_bindings_and_routes_them() {
    let mut state = State::new();
    assert!(state.set_binding(2, Slot::Left, KEY_W));
    state.controllers[2].window = 42;
    state.set_mirror(2, 0);
    state.add_controller();
    assert_eq!(state.controllers.len(), 4);
    let added = &state.controllers[3];
    assert_eq!(added.bindings.left, KEY_W);
    assert_eq!(added.window, NO_WINDOW);
    assert_eq!(added.mirror, NO_MIRROR);
    assert!(added.mirrored.is_empty());
    assert_eq!(
        routes_at(&state, KEY_W),
        vec![(2, Action::Simple(KEY_LEFT)), (3, Action::Simple(KEY_LEFT))]
    );
    assert_matches_rebuild(&state);
}

#[test]
fn add_controller_to_empty_registry_uses_defaults() {
    let mut state = State::new();
    state.remove_controller();
    state.remove_controller();
    state.remove_controller();
    state.add_controller();
    assert_eq!(state.controllers[0].bindings, Bindings::default());
    assert_eq!(routes_at(&state, KEY_ESCAPE), vec![(0, Action::Simple(KEY_ESCAPE))]);
}

#[test]
fn set_mirror_keeps_both_directions_in_step() {
    let mut state = State::new();
    state.set_mirror(1, 0);
    assert!(state.controllers[1].has_mirror());
    assert_eq!(state.controllers[1].mirror, 0);
    let mut it = state.controllers[0].mirrored.iter();
    assert_eq!(it.next(), Some(1));
    assert_eq!(it.next(), None);
    state.set_mirror(1, 2);
    assert!(state.controllers[0].mirrored.is_empty());
    assert_eq!(state.controllers[2].mirrored.iter().next(), Some(1));
    state.set_mirror(1, NO_MIRROR);
    assert!(state.controllers[2].mirrored.is_empty());
    assert!(!state.controllers[1].has_mirror());
}

#[test]
fn default_bindings_are_the_arrow_layout() {
    let b = Bindings::default();
    assert_eq!(
        (b.forward, b.back, b.left, b.right, b.jump),
        (KEY_UP, KEY_DOWN, KEY_LEFT, KEY_RIGHT, KEY_CONTROL_L)
    );
    assert_eq!((b.dismount, b.throw, b.low_throw, b.talk), (KEY_ESCAPE, KEY_DELETE, KEY_INSERT, KEY_RETURN));
    let m = MainBindings::default();
    assert_eq!(m.toggle_mirroring(), KEY_SHIFT_L);
    assert_eq!(m.talk(), KEY_RETURN);
    assert_eq!(m.dismount(), KEY_ESCAPE);
    assert_eq!(m.back(), KEY_DOWN);
    assert_eq!(m.left(), KEY_LEFT);
    assert_eq!(m.right(), KEY_RIGHT);
    assert_eq!(m.low_throw(), m.throw());
}

#[test]
fn bindings_get_and_set_by_slot() {
    let mut b = Bindings::default();
    b.set(Slot::LowThrow, KEY_F1);
    assert_eq!(b.get(Slot::LowThrow), KEY_F1);
    assert_eq!(b.low_throw, KEY_F1);
    assert_eq!(b.get(Slot::Throw), KEY_DELETE);
    let mut m = MainBindings::default();
    m.set(MainSlot::Talk, KEY_F1);
    assert_eq!(m.get(MainSlot::Talk), KEY_F1);
    assert_eq!(m.key_for_slot(Slot::LowThrow), KEY_DELETE);
    assert_eq!(m.key_for_slot(Slot::Talk), KEY_F1);
}

#[test]
fn action_key_and_set_key() {
    let mut a = Action::LowThrow(KEY_DELETE);
    assert_eq!(a.key(), KEY_DELETE);
    a.set_key(KEY_F1);
    assert_eq!(a, Action::LowThrow(KEY_F1));
    assert_eq!(Slot::Talk.action(KEY_RETURN), Action::Talk(KEY_RETURN));
    assert_eq!(Slot::Jump.action(KEY_F1), Action::Simple(KEY_F1));
}

#[test]
fn new_state_lists_follow_controller_then_slot_order() {
    let state = State::new();
    let list = |k: u32| state.routes.get(&k).cloned().unwrap();
    assert_eq!(
        list(KEY_UP),
        vec![(0, Action::Simple(KEY_UP)), (1, Action::Simple(KEY_UP)), (2, Action::Simple(KEY_UP))]
    );
    assert_eq!(
        list(KEY_INSERT),
        vec![
            (0, Action::LowThrow(KEY_DELETE)),
            (1, Action::LowThrow(KEY_DELETE)),
            (2, Action::LowThrow(KEY_DELETE)),
        ]
    );
    assert_eq!(
        list(KEY_RETURN),
        vec![(0, Action::Talk(KEY_RETURN)), (1, Action::Talk(KEY_RETURN)), (2, Action::Talk(KEY_RETURN))]
    );
    assert_eq!(state.routes.len(), 9);
    assert!(state.routes.get(&KEY_SHIFT_L).is_none());
}

#[test]
fn one_key_for_two_slots_lists_them_in_slot_order() {
    let mut b = Bindings::default();
    b.set(Slot::Back, KEY_W);
    b.set(Slot::Forward, KEY_W);
    let rec = json::State {
        main_bindings: MainBindings::default(),
        controllers: vec![json::Controller { mirror: NO_MIRROR, bindings: b }],
    };
    let state = State::from_config(&rec);
    assert_eq!(
        state.routes.get(&KEY_W).cloned().unwrap(),
        vec![(0, Action::Simple(KEY_UP)), (0, Action::Simple(KEY_DOWN))]
    );
}

#[test]
fn clearing_up_keeps_other_lists_in_order() {
    let mut state = State::new();
    state.reroute_main(KEY_UP, NO_KEY);
    assert!(state.routes.get(&KEY_UP).map_or(true, |v| v.is_empty()));
    assert_eq!(
        state.routes.get(&KEY_DOWN).cloned().unwrap(),
        vec![(0, Action::Simple(KEY_DOWN)), (1, Action::Simple(KEY_DOWN)), (2, Action::Simple(KEY_DOWN))]
    );
    assert_eq!(
        state.routes.get(&KEY_INSERT).cloned().unwrap(),
        vec![
            (0, Action::LowThrow(KEY_DELETE)),
            (1, Action::LowThrow(KEY_DELETE)),
            (2, Action::LowThrow(KEY_DELETE)),
        ]
    );
}
