//! The persisted configuration record: main bindings, and each controller's
//! mirror and bindings. Reading and writing it as JSON is the caller's part.
use crate::bindings::{Bindings, MainBindings};
use crate::bitset::{AtomicBitSet, BITSET_CAPACITY};
use crate::state;
use crate::state::{NO_MIRROR, NO_WINDOW};
use rustc_hash::FxHashMap;
use vstd::prelude::*;

verus! {

/// One controller of the configuration record.
#[derive(Clone, Copy, Debug, PartialEq, Eq, Structural)]
pub struct Controller {
    /// `NO_MIRROR` for none.
    pub mirror: usize,
    pub bindings: Bindings,
}

/// The configuration record.
#[derive(Clone, Debug)]
pub struct State {
    pub main_bindings: MainBindings,
    pub controllers: Vec<Controller>,
}

/// The mirror that controller `i` of `n` keeps when loaded: one that names
/// another existing controller, else none.
pub open spec fn loaded_mirror(mirror: usize, i: int, n: int) -> usize {
    if mirror < n && mirror != i {
        mirror
    } else {
        NO_MIRROR
    }
}

impl Controller {
    fn from_state_ref(c: &state::Controller) -> (r: Controller)
        ensures
            r.mirror == c.mirror,
            r.bindings == c.bindings,
    {
        Controller { mirror: c.mirror, bindings: c.bindings }
    }
}

impl State {
    /// The record of a live state.
    pub fn from_state_ref(s: &state::State) -> (r: State)
        ensures
            r.main_bindings == s.main_bindings,
            r.controllers.len() == s.controllers.len(),
            forall|i: int|
                0 <= i < s.controllers.len() ==> (#[trigger] r.controllers@[i]).mirror
                    == s.controllers@[i].mirror && r.controllers@[i].bindings
                    == s.controllers@[i].bindings,
    {
        let n = s.controllers.len();
        let mut controllers: Vec<Controller> = Vec::new();
        let mut i: usize = 0;
        while i < n
            invariant
                n == s.controllers.len(),
                i <= n,
                controllers.len() == i,
                forall|j: int|
                    0 <= j < i ==> (#[trigger] controllers@[j]).mirror == s.controllers@[j].mirror
                        && controllers@[j].bindings == s.controllers@[j].bindings,
            decreases n - i,
        {
            controllers.push(Controller::from_state_ref(&s.controllers[i]));
            i = i + 1;
        }
        State { main_bindings: s.main_bindings, controllers }
    }
}

impl state::State {
    /// A live state from a configuration record: no windows, mirroring on,
    /// nobody talking, mirror links that name no other existing controller
    /// dropped, the `mirrored` sets filled from the mirror links, and the
    /// routing table built.
    pub fn from_config(cfg: &State) -> (r: state::State)
        requires
            cfg.controllers.len() <= BITSET_CAPACITY,
        ensures
            r.wf(),
            r.routes_built(),
            r.routes_consistent(),
            r.mirroring,
            r.main_bindings == cfg.main_bindings,
            r.talking@ == Set::<usize>::empty(),
            r.controllers.len() == cfg.controllers.len(),
            forall|i: int|
                0 <= i < cfg.controllers.len() ==> (#[trigger] r.controllers@[i]).window == NO_WINDOW
                    && r.controllers@[i].bindings == cfg.controllers@[i].bindings
                    && r.controllers@[i].mirror == loaded_mirror(
                    cfg.controllers@[i].mirror,
                    i,
                    cfg.controllers.len() as int,
                ),
    {
        let n = cfg.controllers.len();
        let mut ctls: Vec<state::Controller> = Vec::new();
        let mut i: usize = 0;
        while i < n
            invariant
                n == cfg.controllers.len(),
                n <= BITSET_CAPACITY,
                i <= n,
                ctls.len() == i,
                forall|j: int|
                    0 <= j < i ==> (#[trigger] ctls@[j]).window == NO_WINDOW && ctls@[j].bindings
                        == cfg.controllers@[j].bindings && ctls@[j].mirror == loaded_mirror(
                        cfg.controllers@[j].mirror,
                        j,
                        n as int,
                    ) && ctls@[j].mirrored@ == Set::<usize>::empty(),
            decreases n - i,
        {
            let c = cfg.controllers[i];
            let mirror = if c.mirror < n && c.mirror != i {
                c.mirror
            } else {
                NO_MIRROR
            };
            ctls.push(
                state::Controller {
                    window: NO_WINDOW,
                    mirror,
                    mirrored: AtomicBitSet::new(),
                    bindings: c.bindings,
                },
            );
            i = i + 1;
        }
        let mut i: usize = 0;
        while i < n
            invariant
                n == cfg.controllers.len(),
                n <= BITSET_CAPACITY,
                i <= n,
                ctls.len() == n,
                forall|j: int|
                    0 <= j < n ==> (#[trigger] ctls@[j]).window == NO_WINDOW && ctls@[j].bindings
                        == cfg.controllers@[j].bindings && ctls@[j].mirror == loaded_mirror(
                        cfg.controllers@[j].mirror,
                        j,
                        n as int,
                    ),
                forall|c: int, m: usize|
                    0 <= c < n ==> ((#[trigger] ctls@[c].mirrored@.contains(m)) <==> (m < i
                        && ctls@[m as int].mirror as int == c)),
            decreases n - i,
        {
            let m = ctls[i].mirror;
            if m != NO_MIRROR {
                ctls[m].mirrored.insert(i);
            }
            i = i + 1;
        }
        let mut r = state::State {
            mirroring: true,
            main_bindings: cfg.main_bindings,
            controllers: ctls,
            routes: FxHashMap::default(),
            talking: AtomicBitSet::new(),
        };
        r.init();
        r
    }
}

} // verus!
