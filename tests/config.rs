use toonmux::bindings::{Bindings, MainBindings, Slot};
use toonmux::json;
use toonmux::key::{KEY_UP, NO_KEY};
use toonmux::state::{State, NO_MIRROR, NO_WINDOW};

const KEY_W: u32 = 0x77;

fn record(mirrors: &[usize]) -> json::State {
    json::State {
        main_bindings: MainBindings::default(),
        controllers: mirrors
            .iter()
            .map(|m| json::Controller { mirror: *m, bindings: Bindings::default() })
            .collect(),
    }
}

#[test]
fn loading_fills_mirrored_sets_and_drops_bad_links() {
    let state = State::from_config(&record(&[2, NO_MIRROR, NO_MIRROR, 3, 9]));
    assert_eq!(state.controllers.len(), 5);
    assert_eq!(state.controllers[0].mirror, 2);
    // A link to itself and a link past the end are dropped.
    assert_eq!(state.controllers[3].mirror, NO_MIRROR);
    assert_eq!(state.controllers[4].mirror, NO_MIRROR);
    let mut it = state.controllers[2].mirrored.iter();
    assert_eq!(it.next(), Some(0));
    assert_eq!(it.next(), None);
    assert!(state.controllers[3].mirrored.is_empty());
    assert!(state.controllers.iter().all(|c| c.window == NO_WINDOW));
    assert!(state.mirroring);
    assert!(state.talking.is_empty());
    assert_eq!(state.routes.get(&KEY_UP).map(|v| v.len()), Some(5));
}

#[test]
fn record_round_trip() {
    let mut state = State::new();
    assert!(state.set_binding(1, Slot::Forward, KEY_W));
    assert!(state.set_binding(2, Slot::Jump, NO_KEY));
    state.set_mirror(2, 0);
    let rec = json::State::from_state_ref(&state);
    assert_eq!(rec.main_bindings, state.main_bindings);
    assert_eq!(rec.controllers.len(), 3);
    assert_eq!(rec.controllers[1].bindings.forward, KEY_W);
    assert_eq!(rec.controllers[2].bindings.jump, NO_KEY);
    assert_eq!(rec.controllers[2].mirror, 0);
    let loaded = State::from_config(&rec);
    for i in 0..3 {
        assert_eq!(loaded.controllers[i].bindings, state.controllers[i].bindings);
        assert_eq!(loaded.controllers[i].mirror, state.controllers[i].mirror);
    }
    assert_eq!(loaded.controllers[0].mirrored.iter().next(), Some(2));
}

#[test]
fn empty_record_gives_empty_registry() {
    let state = State::from_config(&record(&[]));
    assert!(state.controllers.is_empty());
    assert!(state.routes.values().all(|v| v.is_empty()));
}
