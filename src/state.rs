//! The engine's state: main bindings, the controller registry and the routing
//! table, with the operations that keep them consistent.
use crate::bindings::{
    default_bindings, default_main_bindings, Action, Bindings, MainBindings, MainSlot, Slot,
};
use crate::bitset::{AtomicBitSet, BITSET_CAPACITY};
use crate::consistency::{
    lemma_first_match_at, lemma_first_match_found, lemma_rebuilt_has, lemma_rebuilt_renamed,
    lemma_rebuilt_source, lemma_rebuilt_update, lemma_renamed_routes_count,
    lemma_controller_route_source, lemma_routes_not_of_below, lemma_routes_not_of_count,
    lemma_routes_not_sending_below,
};
use crate::key::NO_KEY;
use crate::routes::{
    built_routes, controller_routes, first_match, lemma_built_routes, no_empty_lists, push_route,
    rebuilt_routes, renamed, renamed_routes, route_controller, route_is, routes_below, routes_match,
    routes_not_of, routes_not_sending, routes_under, slot_route, table_keys, table_put, table_take, without_first_match, Route, RouteTable,
};
use rustc_hash::FxHashMap;
use vstd::prelude::*;

verus! {

/// `mirror` value of a controller that mirrors no other.
pub const NO_MIRROR: usize = usize::MAX;

/// `window` value of a controller with no window assigned.
pub const NO_WINDOW: u64 = 0;

/// One target: a window, an optional controller whose routed actions it also
/// receives, the set of controllers that mirror it, and its local bindings.
#[derive(Debug)]
pub struct Controller {
    pub window: u64,
    pub mirror: usize,
    pub mirrored: AtomicBitSet,
    pub bindings: Bindings,
}

impl Controller {
    /// A fresh controller with a copy of `template`'s bindings.
    pub fn from_template(template: &Controller) -> (r: Controller)
        ensures
            r.window == NO_WINDOW,
            r.mirror == NO_MIRROR,
            r.mirrored@ == Set::<usize>::empty(),
            r.bindings == template.bindings,
    {
        Controller {
            window: NO_WINDOW,
            mirror: NO_MIRROR,
            mirrored: AtomicBitSet::new(),
            bindings: template.bindings,
        }
    }

    pub fn has_mirror(&self) -> (r: bool)
        ensures
            r == (self.mirror != NO_MIRROR),
    {
        self.mirror != NO_MIRROR
    }
}

impl Default for Controller {
    fn default() -> (r: Controller)
        ensures
            r.window == NO_WINDOW,
            r.mirror == NO_MIRROR,
            r.mirrored@ == Set::<usize>::empty(),
            r.bindings == default_bindings(),
    {
        Controller {
            window: NO_WINDOW,
            mirror: NO_MIRROR,
            mirrored: AtomicBitSet::new(),
            bindings: Bindings::default(),
        }
    }
}

/// The local bindings of each controller, in index order.
pub open spec fn bindings_of(ctls: Seq<Controller>) -> Seq<Bindings> {
    ctls.map_values(|c: Controller| c.bindings)
}

/// The routes under `k` after `reroute(ctl_ix, old_key, new_key, main_key,
/// action)` on a table that held `l` under `k`.
pub open spec fn rerouted(
    l: Seq<Route>,
    k: u32,
    ctl_ix: usize,
    old_key: u32,
    new_key: u32,
    main_key: u32,
    action: Option<Action>,
) -> Seq<Route> {
    let removed = if old_key != NO_KEY && k == old_key {
        without_first_match(l, ctl_ix, main_key)
    } else {
        l
    };
    match action {
        Some(a) => if k == new_key {
            removed.push((ctl_ix, a))
        } else {
            removed
        },
        None => removed,
    }
}

/// The whole engine state.
#[derive(Debug)]
pub struct State {
    /// Whether routed actions fan out to mirroring controllers.
    pub mirroring: bool,
    pub main_bindings: MainBindings,
    pub controllers: Vec<Controller>,
    pub routes: RouteTable,
    /// The controllers in the "talking" state.
    pub talking: AtomicBitSet,
}

impl State {
    /// The routing table holds exactly the routes of a from-scratch build over
    /// the current bindings.
    pub open spec fn routes_consistent(&self) -> bool {
        routes_match(self.routes@, bindings_of(self.controllers@), self.main_bindings)
    }

    /// The routing table is exactly a from-scratch build over the current
    /// bindings: the same lists, in controller index order then slot order,
    /// under exactly the keys that some bound slot has.
    pub open spec fn routes_built(&self) -> bool {
        let bs = bindings_of(self.controllers@);
        forall|k: u32|
            #![trigger routes_under(self.routes@, k)]
            #![trigger self.routes@.contains_key(k)]
            routes_under(self.routes@, k) == built_routes(bs, self.main_bindings, k) && (
            self.routes@.contains_key(k) <==> built_routes(bs, self.main_bindings, k).len() > 0)
    }

    /// The registry's invariants: few enough controllers for the bit sets,
    /// mirror links in range and kept in step with the `mirrored` sets, talking
    /// controllers and routes naming existing controllers.
    pub open spec fn wf(&self) -> bool {
        let ctls = self.controllers@;
        let n = ctls.len();
        &&& n <= BITSET_CAPACITY
        &&& forall|c: int|
            0 <= c < n ==> (#[trigger] ctls[c]).mirror == NO_MIRROR || (ctls[c].mirror < n
                && ctls[c].mirror != c)
        &&& forall|c: int, m: usize|
            0 <= c < n ==> ((#[trigger] ctls[c].mirrored@.contains(m)) <==> (m < n
                && ctls[m as int].mirror as int == c))
        &&& forall|m: usize| #[trigger] self.talking@.contains(m) ==> m < n
        &&& routes_below(self.routes@, n)
    }

    /// Three controllers with the default bindings, default main bindings,
    /// mirroring on, nobody talking, and the routing table built.
    pub fn new() -> (r: State)
        ensures
            r.wf(),
            r.routes_built(),
            r.routes_consistent(),
            r.mirroring,
            r.main_bindings == default_main_bindings(),
            r.controllers.len() == 3,
            forall|i: int|
                0 <= i < 3 ==> (#[trigger] r.controllers@[i]).window == NO_WINDOW
                    && r.controllers@[i].mirror == NO_MIRROR && r.controllers@[i].mirrored@
                    == Set::<usize>::empty() && r.controllers@[i].bindings == default_bindings(),
            r.talking@ == Set::<usize>::empty(),
    {
        let mut controllers: Vec<Controller> = Vec::new();
        controllers.push(Controller::default());
        controllers.push(Controller::default());
        controllers.push(Controller::default());
        let mut state = State {
            mirroring: true,
            main_bindings: MainBindings::default(),
            controllers,
            routes: FxHashMap::default(),
            talking: AtomicBitSet::new(),
        };
        state.init();
        state
    }

    /// Builds the routing table from scratch: for each controller in index
    /// order, a route for each bound slot in slot order.
    pub(crate) fn init(&mut self)
        requires
            old(self).routes@ == Map::<u32, Vec<Route>>::empty(),
        ensures
            final(self).routes_built(),
            final(self).routes_consistent(),
            routes_below(final(self).routes@, final(self).controllers.len() as nat),
            final(self).controllers == old(self).controllers,
            final(self).main_bindings == old(self).main_bindings,
            final(self).mirroring == old(self).mirroring,
            final(self).talking == old(self).talking,
    {
        let n = self.controllers.len();
        let ghost bs = bindings_of(self.controllers@);
        proof {
            assert forall|k: u32| #[trigger]
                routes_under(self.routes@, k) == built_routes(bs.take(0), self.main_bindings, k) by {
                assert(routes_under(self.routes@, k) =~= built_routes(
                    bs.take(0),
                    self.main_bindings,
                    k,
                ));
            }
        }
        let mut c: usize = 0;
        while c < n
            invariant
                n == self.controllers.len(),
                c <= n,
                bs == bindings_of(self.controllers@),
                self.controllers == old(self).controllers,
                self.main_bindings == old(self).main_bindings,
                self.mirroring == old(self).mirroring,
                self.talking == old(self).talking,
                forall|k: u32| #[trigger]
                    routes_under(self.routes@, k) == built_routes(
                        bs.take(c as int),
                        self.main_bindings,
                        k,
                    ),
                no_empty_lists(self.routes@),
                routes_below(self.routes@, n as nat),
            decreases n - c,
        {
            let ghost t0 = self.routes@;
            route_controller(&mut self.routes, c, &self.controllers[c].bindings, &self.main_bindings);
            proof {
                let p = bs.take(c as int);
                let q = bs.take(c + 1);
                assert(q.drop_last() =~= p);
                assert(q.last() == self.controllers@[c as int].bindings);
                assert forall|k: u32| #[trigger]
                    routes_under(self.routes@, k) == built_routes(q, self.main_bindings, k) by {
                    assert(routes_under(t0, k) == built_routes(p, self.main_bindings, k));
                }
            }
            c = c + 1;
        }
        proof {
            assert(bs.take(n as int) =~= bs);
            assert forall|k: u32| #[trigger]
                routes_under(self.routes@, k).to_multiset() == rebuilt_routes(
                    bs,
                    self.main_bindings,
                    k,
                ) by {
                lemma_built_routes(bs, self.main_bindings, k);
            }
            assert forall|k: u32|
                #[trigger] self.routes@.contains_key(k) <==> built_routes(
                    bs,
                    self.main_bindings,
                    k,
                ).len() > 0 by {
                assert(routes_under(self.routes@, k) == built_routes(bs, self.main_bindings, k));
            }
        }
    }

    /// Binds slot `slot` of controller `ctl_ix` to `key` (`NO_KEY` clears it)
    /// and reroutes the slot's route from its old key to `key`. Rebinding a
    /// slot to the key it already has changes nothing. Returns whether the
    /// binding changed.
    pub fn set_binding(&mut self, ctl_ix: usize, slot: Slot, key: u32) -> (changed: bool)
        requires
            old(self).wf(),
            ctl_ix < old(self).controllers.len(),
        ensures
            final(self).wf(),
            changed == (old(self).controllers@[ctl_ix as int].bindings.spec_get(slot) != key),
            !changed ==> *final(self) == *old(self),
            changed ==> {
                let ctl = old(self).controllers@[ctl_ix as int];
                let mk = old(self).main_bindings.key_for(slot);
                &&& final(self).controllers@ == old(self).controllers@.update(
                    ctl_ix as int,
                    Controller { bindings: ctl.bindings.spec_with(slot, key), ..ctl },
                )
                &&& final(self).main_bindings == old(self).main_bindings
                &&& final(self).mirroring == old(self).mirroring
                &&& final(self).talking == old(self).talking
                &&& forall|k: u32| #[trigger]
                    routes_under(final(self).routes@, k) == rerouted(
                        routes_under(old(self).routes@, k),
                        k,
                        ctl_ix,
                        ctl.bindings.spec_get(slot),
                        key,
                        mk,
                        if key == NO_KEY {
                            None
                        } else {
                            Some(slot.spec_action(mk))
                        },
                    )
            },
            old(self).routes_consistent() && old(self).main_bindings.routable() && throws_apart(
                old(self).controllers@[ctl_ix as int].bindings,
            ) ==> final(self).routes_consistent(),
    {
        let old_key = self.controllers[ctl_ix].bindings.get(slot);
        if old_key == key {
            return false;
        }
        let ghost t0 = self.routes@;
        let ghost bs = bindings_of(self.controllers@);
        self.controllers[ctl_ix].bindings.set(slot, key);
        let main_key = self.main_bindings.key_for_slot(slot);
        let action = if key == NO_KEY {
            None
        } else {
            Some(slot.action(main_key))
        };
        self.reroute(ctl_ix, old_key, key, main_key, action);
        proof {
            assert(bindings_of(self.controllers@) =~= bs.update(
                ctl_ix as int,
                bs[ctl_ix as int].spec_with(slot, key),
            ));
            if old(self).routes_consistent() && old(self).main_bindings.routable() && throws_apart(
                bs[ctl_ix as int],
            ) {
                lemma_reroute_consistent(t0, self.routes@, bs, self.main_bindings, ctl_ix, slot, key);
            }
        }
        true
    }

    /// Whether `key` is already the key of a routed main slot.
    pub fn is_bound_main(&self, key: u32) -> (r: bool)
        ensures
            r == self.main_bindings.spec_is_bound(key),
    {
        self.main_bindings.is_bound_main(key)
    }

    /// Patches the routing table after a main key changed from `old_key` to
    /// `new_key`: every route that sent `old_key` now sends `new_key`; if
    /// `new_key` is `NO_KEY`, every route that sent `old_key` is removed.
    pub fn reroute_main(&mut self, old_key: u32, new_key: u32)
        requires
            old(self).wf(),
        ensures
            final(self).wf(),
            final(self).controllers == old(self).controllers,
            final(self).main_bindings == old(self).main_bindings,
            final(self).mirroring == old(self).mirroring,
            final(self).talking == old(self).talking,
            forall|k: u32| #[trigger]
                routes_under(final(self).routes@, k) == (if new_key != NO_KEY {
                    renamed_routes(routes_under(old(self).routes@, k), old_key, new_key)
                } else {
                    routes_not_sending(routes_under(old(self).routes@, k), old_key)
                }),
    {
        let ghost t0 = self.routes@;
        let ghost n = self.controllers.len();
        let keys = table_keys(&self.routes);
        let len = keys.len();
        let mut i: usize = 0;
        while i < len
            invariant
                len == keys.len(),
                i <= len,
                keys@.to_set() == t0.dom(),
                keys@.no_duplicates(),
                self.routes@.dom() == t0.dom(),
                self.controllers == old(self).controllers,
                self.main_bindings == old(self).main_bindings,
                self.mirroring == old(self).mirroring,
                self.talking == old(self).talking,
                n == self.controllers.len(),
                t0 == old(self).routes@,
                old(self).wf(),
                forall|k: u32| #[trigger]
                    routes_under(self.routes@, k) == (if keys@.take(i as int).contains(k) {
                        if new_key != NO_KEY {
                            renamed_routes(routes_under(t0, k), old_key, new_key)
                        } else {
                            routes_not_sending(routes_under(t0, k), old_key)
                        }
                    } else {
                        routes_under(t0, k)
                    }),
            decreases len - i,
        {
            let key = keys[i];
            let ghost before = self.routes@;
            proof {
                assert(!keys@.take(i as int).contains(key)) by {
                    if keys@.take(i as int).contains(key) {
                        let j = choose|j: int| 0 <= j < i && keys@.take(i as int)[j] == key;
                        assert(keys@[j] == keys@[i as int]);
                    }
                }
                assert(keys@.to_set().contains(key));
            }
            match table_take(&mut self.routes, key) {
                Some(mut v) => {
                    if new_key != NO_KEY {
                        rename_routes(&mut v, old_key, new_key);
                        table_put(&mut self.routes, key, v);
                    } else {
                        let kept = drop_routes_sending(&v, old_key);
                        table_put(&mut self.routes, key, kept);
                    }
                },
                None => {},
            }
            proof {
                assert(self.routes@.dom() =~= t0.dom());
                assert forall|k: u32| #[trigger]
                    routes_under(self.routes@, k) == (if keys@.take(i + 1).contains(k) {
                        if new_key != NO_KEY {
                            renamed_routes(routes_under(t0, k), old_key, new_key)
                        } else {
                            routes_not_sending(routes_under(t0, k), old_key)
                        }
                    } else {
                        routes_under(t0, k)
                    }) by {
                    assert(keys@.take(i + 1) =~= keys@.take(i as int).push(key));
                    assert(routes_under(before, k) == (if keys@.take(i as int).contains(k) {
                        if new_key != NO_KEY {
                            renamed_routes(routes_under(t0, k), old_key, new_key)
                        } else {
                            routes_not_sending(routes_under(t0, k), old_key)
                        }
                    } else {
                        routes_under(t0, k)
                    }));
                    if k == key {
                        assert(keys@.take(i + 1)[i as int] == key);
                        assert(keys@.take(i + 1).contains(k));
                    } else {
                        assert(keys@.take(i + 1).contains(k) == keys@.take(i as int).contains(k));
                    }
                }
            }
            i = i + 1;
        }
        proof {
            broadcast use vstd::seq_lib::group_filter_ensures;

            reveal(Seq::filter);
            assert(keys@.take(len as int) =~= keys@);
            assert forall|k: u32| #[trigger]
                routes_under(self.routes@, k) == (if new_key != NO_KEY {
                    renamed_routes(routes_under(t0, k), old_key, new_key)
                } else {
                    routes_not_sending(routes_under(t0, k), old_key)
                }) by {
                if !t0.contains_key(k) {
                    assert(!keys@.contains(k)) by {
                        if keys@.contains(k) {
                            assert(keys@.to_set().contains(k));
                        }
                    }
                    assert(renamed_routes(Seq::<Route>::empty(), old_key, new_key) =~= Seq::<
                        Route,
                    >::empty());
                    assert(routes_not_sending(Seq::<Route>::empty(), old_key) =~= Seq::<
                        Route,
                    >::empty());
                } else {
                    assert(keys@.to_set().contains(k));
                }
            }
            assert forall|k: u32, j: int| 0 <= j < routes_under(self.routes@, k).len() implies #[trigger]
                routes_under(self.routes@, k)[j].0 < n by {
                let l = routes_under(t0, k);
                let fl = routes_under(self.routes@, k);
                if new_key != NO_KEY {
                    assert(fl[j] == renamed(l[j], old_key, new_key));
                    assert(l[j].0 < n);
                } else {
                    assert forall|i: int| 0 <= i < l.len() implies (#[trigger] l[i]).0 < n by {}
                    lemma_routes_not_sending_below(l, old_key, n as nat);
                }
            }
        }
    }

    /// Binds main slot `ms` to `key` (`NO_KEY` clears it) and, for a routed
    /// slot, reroutes every route that sent the old key. A key that a routed
    /// main slot already has is refused, as is rebinding to the same key; both
    /// change nothing. Returns whether the binding changed.
    pub fn set_main_binding(&mut self, ms: MainSlot, key: u32) -> (changed: bool)
        requires
            old(self).wf(),
        ensures
            final(self).wf(),
            changed == (old(self).main_bindings.spec_get(ms) != key && (key == NO_KEY
                || !old(self).main_bindings.spec_is_bound(key))),
            !changed ==> *final(self) == *old(self),
            changed ==> {
                let old_key = old(self).main_bindings.spec_get(ms);
                &&& final(self).main_bindings == old(self).main_bindings.spec_with(ms, key)
                &&& final(self).controllers == old(self).controllers
                &&& final(self).mirroring == old(self).mirroring
                &&& final(self).talking == old(self).talking
                &&& forall|k: u32| #[trigger]
                    routes_under(final(self).routes@, k) == (if !ms.is_routed() {
                        routes_under(old(self).routes@, k)
                    } else if key != NO_KEY {
                        renamed_routes(routes_under(old(self).routes@, k), old_key, key)
                    } else {
                        routes_not_sending(routes_under(old(self).routes@, k), old_key)
                    })
            },
            changed && key != NO_KEY && old(self).routes_consistent()
                && old(self).main_bindings.routable() ==> final(self).routes_consistent()
                && final(self).main_bindings.routable(),
    {
        let old_key = self.main_bindings.get(ms);
        if old_key == key {
            return false;
        }
        if key != NO_KEY && self.main_bindings.is_bound_main(key) {
            return false;
        }
        let ghost t0 = self.routes@;
        let ghost main0 = self.main_bindings;
        let ghost bs = bindings_of(self.controllers@);
        self.main_bindings.set(ms, key);
        if ms != MainSlot::ToggleMirroring {
            self.reroute_main(old_key, key);
        }
        proof {
            if key != NO_KEY && old(self).routes_consistent() && main0.routable() {
                let main1 = self.main_bindings;
                assert forall|s: MainSlot| s.is_routed() implies #[trigger] main1.spec_get(s)
                    != NO_KEY by {
                    if s != ms {
                        assert(main1.spec_get(s) == main0.spec_get(s));
                    }
                }
                assert forall|s: MainSlot, t: MainSlot|
                    s.is_routed() && t.is_routed() && s != t implies #[trigger] main1.spec_get(s)
                    != #[trigger] main1.spec_get(t) by {
                    if s == ms {
                        if main0.spec_get(t) == key {
                            assert(main0.spec_is_bound(key));
                        }
                    } else if t == ms {
                        if main0.spec_get(s) == key {
                            assert(main0.spec_is_bound(key));
                        }
                    } else {
                        assert(main1.spec_get(s) == main0.spec_get(s));
                        assert(main1.spec_get(t) == main0.spec_get(t));
                    }
                }
                if ms == MainSlot::ToggleMirroring {
                    assert forall|k: u32| #[trigger]
                        routes_under(self.routes@, k).to_multiset() == rebuilt_routes(
                            bs,
                            main1,
                            k,
                        ) by {
                        lemma_rebuilt_same_keys(bs, main0, main1, k);
                    }
                } else {
                    assert(bs.len() == self.controllers.len());
                    lemma_reroute_main_consistent(t0, self.routes@, bs, main0, ms, key);
                }
            }
        }
        true
    }

    /// Removes the last controller: mirror links to it are reset, it leaves
    /// every `mirrored` set and the talking set, and its routes are purged.
    /// With no controller, nothing changes.
    pub fn remove_controller(&mut self)
        requires
            old(self).wf(),
        ensures
            final(self).wf(),
            old(self).controllers.len() == 0 ==> *final(self) == *old(self),
            old(self).controllers.len() > 0 ==> {
                let n = (old(self).controllers.len() - 1) as usize;
                &&& final(self).controllers.len() == n
                &&& forall|i: int|
                    0 <= i < n ==> {
                        let o = old(self).controllers@[i];
                        let f = #[trigger] final(self).controllers@[i];
                        &&& f.window == o.window
                        &&& f.bindings == o.bindings
                        &&& f.mirror == (if o.mirror == n {
                            NO_MIRROR
                        } else {
                            o.mirror
                        })
                        &&& f.mirrored@ == o.mirrored@.remove(n)
                    }
                &&& final(self).talking@ == old(self).talking@.remove(n)
                &&& final(self).main_bindings == old(self).main_bindings
                &&& final(self).mirroring == old(self).mirroring
                &&& forall|k: u32| #[trigger]
                    routes_under(final(self).routes@, k) == routes_not_of(
                        routes_under(old(self).routes@, k),
                        n,
                    )
            },
            old(self).routes_consistent() ==> final(self).routes_consistent(),
    {
        let len = self.controllers.len();
        if len == 0 {
            return;
        }
        let removed = len - 1;
        let ghost old_ctls = self.controllers@;
        let ghost bs = bindings_of(self.controllers@);
        self.controllers.pop();
        let mut i: usize = 0;
        while i < removed
            invariant
                removed == self.controllers.len(),
                removed + 1 == old_ctls.len(),
                removed < BITSET_CAPACITY,
                i <= removed,
                self.routes == old(self).routes,
                self.talking == old(self).talking,
                self.main_bindings == old(self).main_bindings,
                self.mirroring == old(self).mirroring,
                forall|j: int|
                    0 <= j < removed ==> {
                        let o = old_ctls[j];
                        let f = #[trigger] self.controllers@[j];
                        &&& f.window == o.window
                        &&& f.bindings == o.bindings
                        &&& j < i ==> f.mirror == (if o.mirror == removed {
                            NO_MIRROR
                        } else {
                            o.mirror
                        }) && f.mirrored@ == o.mirrored@.remove(removed)
                        &&& j >= i ==> f == o
                    },
            decreases removed - i,
        {
            if self.controllers[i].mirror == removed {
                self.controllers[i].mirror = NO_MIRROR;
            }
            self.controllers[i].mirrored.remove(removed);
            i = i + 1;
        }
        self.talking.remove(removed);
        let ghost t0 = self.routes@;
        purge_controller(&mut self.routes, removed);
        proof {
            let n = removed;
            assert forall|k: u32, j: int| 0 <= j < routes_under(self.routes@, k).len() implies #[trigger]
                routes_under(self.routes@, k)[j].0 < n by {
                let l = routes_under(t0, k);
                assert forall|x: int| 0 <= x < l.len() implies (#[trigger] l[x]).0 < n + 1 by {}
                lemma_routes_not_of_below(l, n, (n + 1) as nat);
            }
            assert forall|c: int, m: usize|
                0 <= c < n implies ((#[trigger] self.controllers@[c].mirrored@.contains(m)) <==> (m
                < n && self.controllers@[m as int].mirror as int == c)) by {
                assert(old_ctls[c].mirrored@.contains(m) <==> (m < n + 1 && old_ctls[m as int].mirror as int == c));
            }
            let bs2 = bindings_of(self.controllers@);
            assert(bs2 =~= bs.drop_last());
            if old(self).routes_consistent() {
                assert forall|k: u32| #[trigger]
                    routes_under(self.routes@, k).to_multiset() == rebuilt_routes(
                        bs2,
                        self.main_bindings,
                        k,
                    ) by {
                    let main = self.main_bindings;
                    assert forall|e: Route|
                        routes_under(self.routes@, k).to_multiset().count(e)
                            == #[trigger] rebuilt_routes(bs2, main, k).count(e) by {
                        lemma_routes_not_of_count(routes_under(t0, k), n, e);
                        assert(routes_under(t0, k).to_multiset() == rebuilt_routes(bs, main, k));
                        assert(rebuilt_routes(bs, main, k) == rebuilt_routes(bs2, main, k).add(
                            controller_routes(n, bs.last(), main, k),
                        ));
                        if e.0 == n {
                            if rebuilt_routes(bs2, main, k).count(e) > 0 {
                                let src = lemma_rebuilt_source(bs2, main, k, e);
                            }
                        } else {
                            if controller_routes(n, bs.last(), main, k).count(e) > 0 {
                                let s = lemma_controller_route_source(n, bs.last(), main, k, e);
                            }
                        }
                    }
                    assert(routes_under(self.routes@, k).to_multiset() =~= rebuilt_routes(
                        bs2,
                        main,
                        k,
                    ));
                }
            }
        }
    }

    /// Appends a controller with a copy of the last controller's bindings
    /// (the default bindings if there is none), no window and no mirror, and
    /// routes its bound slots.
    pub fn add_controller(&mut self)
        requires
            old(self).wf(),
            old(self).controllers.len() < BITSET_CAPACITY,
        ensures
            final(self).wf(),
            ({
                let n = old(self).controllers.len();
                let f = final(self).controllers@[n as int];
                let b = if n > 0 {
                    old(self).controllers@[n - 1].bindings
                } else {
                    default_bindings()
                };
                &&& final(self).controllers.len() == n + 1
                &&& forall|i: int| 0 <= i < n ==> #[trigger] final(self).controllers@[i] == old(self).controllers@[i]
                &&& f.window == NO_WINDOW
                &&& f.mirror == NO_MIRROR
                &&& f.mirrored@ == Set::<usize>::empty()
                &&& f.bindings == b
                &&& final(self).main_bindings == old(self).main_bindings
                &&& final(self).mirroring == old(self).mirroring
                &&& final(self).talking == old(self).talking
                &&& forall|k: u32| #[trigger]
                    routes_under(final(self).routes@, k).to_multiset() == routes_under(
                        old(self).routes@,
                        k,
                    ).to_multiset().add(controller_routes(n, b, old(self).main_bindings, k))
            }),
            old(self).routes_consistent() ==> final(self).routes_consistent(),
    {
        let n = self.controllers.len();
        let ctl = if n > 0 {
            Controller::from_template(&self.controllers[n - 1])
        } else {
            Controller::default()
        };
        let b = ctl.bindings;
        let ghost bs = bindings_of(self.controllers@);
        let ghost t0 = self.routes@;
        self.controllers.push(ctl);
        proof {
            assert(routes_below(t0, (n + 1) as nat)) by {
                assert forall|k: u32, j: int| 0 <= j < routes_under(t0, k).len() implies #[trigger]
                    routes_under(t0, k)[j].0 < n + 1 by {}
            }
        }
        route_controller(&mut self.routes, n, &b, &self.main_bindings);
        proof {
            let ctls = self.controllers@;
            assert forall|c: int, m: usize|
                0 <= c < n + 1 implies ((#[trigger] ctls[c].mirrored@.contains(m)) <==> (m < n + 1
                && ctls[m as int].mirror as int == c)) by {
                if c < n {
                    assert(ctls[c] == old(self).controllers@[c]);
                    if m < n {
                        assert(ctls[m as int] == old(self).controllers@[m as int]);
                    }
                }
            }
            let bs2 = bindings_of(ctls);
            assert(bs2.drop_last() =~= bs);
            if old(self).routes_consistent() {
                assert forall|k: u32| #[trigger]
                    routes_under(self.routes@, k).to_multiset() == rebuilt_routes(
                        bs2,
                        self.main_bindings,
                        k,
                    ) by {}
            }
        }
    }

    /// Makes controller `ctl_ix` mirror `target` (`NO_MIRROR` for none): it
    /// leaves the old target's `mirrored` set and joins the new one's.
    pub fn set_mirror(&mut self, ctl_ix: usize, target: usize)
        requires
            old(self).wf(),
            ctl_ix < old(self).controllers.len(),
            target == NO_MIRROR || (target < old(self).controllers.len() && target != ctl_ix),
        ensures
            final(self).wf(),
            final(self).controllers.len() == old(self).controllers.len(),
            final(self).controllers@[ctl_ix as int].mirror == target,
            forall|i: int|
                0 <= i < old(self).controllers.len() ==> {
                    let o = old(self).controllers@[i];
                    let f = #[trigger] final(self).controllers@[i];
                    &&& f.window == o.window
                    &&& f.bindings == o.bindings
                    &&& i != ctl_ix ==> f.mirror == o.mirror
                    &&& f.mirrored@ == (if i == target as int {
                        o.mirrored@.insert(ctl_ix)
                    } else if i == old(self).controllers@[ctl_ix as int].mirror as int {
                        o.mirrored@.remove(ctl_ix)
                    } else {
                        o.mirrored@
                    })
                },
            final(self).routes == old(self).routes,
            final(self).main_bindings == old(self).main_bindings,
            final(self).mirroring == old(self).mirroring,
            final(self).talking == old(self).talking,
    {
        let old_mirror = self.controllers[ctl_ix].mirror;
        self.controllers[ctl_ix].mirror = target;
        if old_mirror != NO_MIRROR {
            self.controllers[old_mirror].mirrored.remove(ctl_ix);
        }
        if target != NO_MIRROR {
            self.controllers[target].mirrored.insert(ctl_ix);
        }
        proof {
            let n = self.controllers.len();
            let ctls = self.controllers@;
            let octls = old(self).controllers@;
            if target != NO_MIRROR && target == old_mirror {
                assert(octls[target as int].mirrored@.contains(ctl_ix));
                assert(ctls[target as int].mirrored@ =~= octls[target as int].mirrored@.insert(
                    ctl_ix,
                ));
            }
            assert forall|c: int, m: usize|
                0 <= c < n implies ((#[trigger] ctls[c].mirrored@.contains(m)) <==> (m < n
                && ctls[m as int].mirror as int == c)) by {
                assert(octls[c].mirrored@.contains(m) <==> (m < n && octls[m as int].mirror as int
                    == c));
            }
        }
    }

    /// Patches the routing table after controller `ctl_ix` rebound one slot:
    /// under `old_key` (unless unbound) the first route of `ctl_ix` that sends
    /// `main_key` is removed; then `action`, if any, is appended for `ctl_ix`
    /// under `new_key`.
    pub fn reroute(
        &mut self,
        ctl_ix: usize,
        old_key: u32,
        new_key: u32,
        main_key: u32,
        action: Option<Action>,
    )
        requires
            old(self).wf(),
            ctl_ix < old(self).controllers.len(),
        ensures
            final(self).wf(),
            final(self).controllers == old(self).controllers,
            final(self).main_bindings == old(self).main_bindings,
            final(self).mirroring == old(self).mirroring,
            final(self).talking == old(self).talking,
            forall|k: u32| #[trigger]
                routes_under(final(self).routes@, k) == rerouted(
                    routes_under(old(self).routes@, k),
                    k,
                    ctl_ix,
                    old_key,
                    new_key,
                    main_key,
                    action,
                ),
    {
        let ghost n = self.controllers.len();
        let ghost t0 = self.routes@;
        if old_key != NO_KEY {
            match table_take(&mut self.routes, old_key) {
                Some(mut v) => {
                    let ghost l = v@;
                    let len = v.len();
                    let mut j: usize = 0;
                    while j < len && !(v[j].0 == ctl_ix && v[j].1.key() == main_key)
                        invariant
                            len == v.len(),
                            v@ == l,
                            j <= len,
                            forall|i: int| 0 <= i < j ==> !route_is(#[trigger] l[i], ctl_ix, main_key),
                        decreases len - j,
                    {
                        j = j + 1;
                    }
                    proof {
                        lemma_first_match_at(l, ctl_ix, main_key, j as int);
                    }
                    if j < len {
                        v.remove(j);
                    }
                    proof {
                        assert(v@ == without_first_match(l, ctl_ix, main_key));
                        assert forall|i: int| 0 <= i < v@.len() implies (#[trigger] v@[i]).0 < n by {
                            if i < j {
                                assert(v@[i] == l[i]);
                            } else {
                                assert(v@[i] == l[i + 1]);
                            }
                            assert(routes_under(t0, old_key)[i] == l[i]);
                        }
                    }
                    table_put(&mut self.routes, old_key, v);
                },
                None => {},
            }
        }
        let ghost t1 = self.routes@;
        proof {
            assert forall|k: u32| #[trigger] routes_under(t1, k) == (if old_key != NO_KEY && k
                == old_key {
                without_first_match(routes_under(t0, k), ctl_ix, main_key)
            } else {
                routes_under(t0, k)
            }) by {
                if old_key != NO_KEY && k == old_key && !t0.contains_key(k) {
                    assert(without_first_match(Seq::<Route>::empty(), ctl_ix, main_key) == Seq::<Route>::empty());
                }
            }
            assert(routes_below(t1, n as nat)) by {
                assert forall|k: u32, i: int| 0 <= i < routes_under(t1, k).len() implies #[trigger]
                    routes_under(t1, k)[i].0 < n by {
                    if k != old_key || old_key == NO_KEY {
                        assert(routes_under(t1, k) == routes_under(t0, k));
                    }
                }
            }
        }
        match action {
            Some(a) => {
                push_route(&mut self.routes, new_key, (ctl_ix, a));
                proof {
                    assert forall|k: u32, i: int| 0 <= i < routes_under(self.routes@, k).len() implies #[trigger]
                        routes_under(self.routes@, k)[i].0 < n by {
                        if k == new_key && i < routes_under(t1, k).len() {
                            assert(routes_under(self.routes@, k)[i] == routes_under(t1, k)[i]);
                        }
                    }
                }
            },
            None => {},
        }
    }
}


/// The route list without controller `c`'s routes, in order.
fn drop_controller_routes(v: &Vec<Route>, c: usize) -> (r: Vec<Route>)
    ensures
        r@ == routes_not_of(v@, c),
{
    let mut out: Vec<Route> = Vec::new();
    let len = v.len();
    let mut j: usize = 0;
    proof {
        reveal(Seq::filter);
        assert(v@.take(0) =~= Seq::<Route>::empty());
    }
    while j < len
        invariant
            len == v.len(),
            j <= len,
            out@ == routes_not_of(v@.take(j as int), c),
        decreases len - j,
    {
        proof {
            reveal(Seq::filter);
            assert(v@.take(j + 1).drop_last() =~= v@.take(j as int));
        }
        if v[j].0 != c {
            out.push(v[j]);
        }
        j = j + 1;
    }
    proof {
        assert(v@.take(len as int) =~= v@);
    }
    out
}

/// Removes every route of controller `c` from every list of the table.
fn purge_controller(t: &mut RouteTable, c: usize)
    ensures
        forall|k: u32| #[trigger]
            routes_under(final(t)@, k) == routes_not_of(routes_under(old(t)@, k), c),
{
    let ghost t0 = t@;
    let keys = table_keys(t);
    let len = keys.len();
    let mut i: usize = 0;
    while i < len
        invariant
            len == keys.len(),
            i <= len,
            keys@.to_set() == t0.dom(),
            keys@.no_duplicates(),
            t@.dom() == t0.dom(),
            forall|k: u32| #[trigger]
                routes_under(t@, k) == (if keys@.take(i as int).contains(k) {
                    routes_not_of(routes_under(t0, k), c)
                } else {
                    routes_under(t0, k)
                }),
        decreases len - i,
    {
        let key = keys[i];
        let ghost before = t@;
        proof {
            assert(!keys@.take(i as int).contains(key)) by {
                if keys@.take(i as int).contains(key) {
                    let j = choose|j: int| 0 <= j < i && keys@.take(i as int)[j] == key;
                    assert(keys@[j] == keys@[i as int]);
                }
            }
            assert(keys@.to_set().contains(key));
        }
        match table_take(t, key) {
            Some(v) => {
                let kept = drop_controller_routes(&v, c);
                table_put(t, key, kept);
            },
            None => {},
        }
        proof {
            assert(t@.dom() =~= t0.dom());
            assert forall|k: u32| #[trigger]
                routes_under(t@, k) == (if keys@.take(i + 1).contains(k) {
                    routes_not_of(routes_under(t0, k), c)
                } else {
                    routes_under(t0, k)
                }) by {
                assert(keys@.take(i + 1) =~= keys@.take(i as int).push(key));
                assert(routes_under(before, k) == (if keys@.take(i as int).contains(k) {
                    routes_not_of(routes_under(t0, k), c)
                } else {
                    routes_under(t0, k)
                }));
                if k == key {
                    assert(keys@.take(i + 1)[i as int] == key);
                } else {
                    assert(keys@.take(i + 1).contains(k) == keys@.take(i as int).contains(k));
                }
            }
        }
        i = i + 1;
    }
    proof {
        reveal(Seq::filter);
        assert(keys@.take(len as int) =~= keys@);
        assert forall|k: u32| #[trigger]
            routes_under(t@, k) == routes_not_of(routes_under(t0, k), c) by {
            if !t0.contains_key(k) {
                assert(!keys@.contains(k)) by {
                    if keys@.contains(k) {
                        assert(keys@.to_set().contains(k));
                    }
                }
                assert(routes_not_of(Seq::<Route>::empty(), c) =~= Seq::<Route>::empty());
            } else {
                assert(keys@.to_set().contains(k));
            }
        }
    }
}

/// A controller's throw and low throw are not bound to one physical key (a
/// route removal could not tell their routes apart).
pub open spec fn throws_apart(b: Bindings) -> bool {
    b.throw == NO_KEY || b.throw != b.low_throw
}

/// The route list's actions that send `old_key` made to send `new_key`.
fn rename_routes(v: &mut Vec<Route>, old_key: u32, new_key: u32)
    ensures
        final(v)@ == renamed_routes(old(v)@, old_key, new_key),
{
    let ghost l = v@;
    let len = v.len();
    let mut j: usize = 0;
    while j < len
        invariant
            len == v.len(),
            len == l.len(),
            j <= len,
            forall|i: int| 0 <= i < j ==> #[trigger] v@[i] == renamed(l[i], old_key, new_key),
            forall|i: int| j <= i < len ==> #[trigger] v@[i] == l[i],
        decreases len - j,
    {
        let (c, mut a) = v[j];
        if a.key() == old_key {
            a.set_key(new_key);
            v[j] = (c, a);
        }
        j = j + 1;
    }
    assert(v@ =~= renamed_routes(l, old_key, new_key));
}

/// The route list without the actions that send `key`, in order.
fn drop_routes_sending(v: &Vec<Route>, key: u32) -> (r: Vec<Route>)
    ensures
        r@ == routes_not_sending(v@, key),
{
    let mut out: Vec<Route> = Vec::new();
    let len = v.len();
    let mut j: usize = 0;
    proof {
        reveal(Seq::filter);
        assert(v@.take(0) =~= Seq::<Route>::empty());
    }
    while j < len
        invariant
            len == v.len(),
            j <= len,
            out@ == routes_not_sending(v@.take(j as int), key),
        decreases len - j,
    {
        proof {
            reveal(Seq::filter);
            assert(v@.take(j + 1).drop_last() =~= v@.take(j as int));
        }
        if v[j].1.key() != key {
            out.push(v[j]);
        }
        j = j + 1;
    }
    proof {
        assert(v@.take(len as int) =~= v@);
    }
    out
}

/// Rerouting keeps the table equal to a from-scratch build. If table `t0`
/// matches a from-scratch build over bindings `bs`, slot `slot` of controller
/// `c` is rebound to a new `key`, and `t1` is what `State::reroute` makes of
/// `t0` for that change (old key, new key, the slot's main key, and the
/// slot's action unless the slot was cleared), then `t1` matches a
/// from-scratch build over the updated bindings. This holds when every routed
/// main key is bound and distinct, and the controller's throw and low throw
/// are not on one physical key (a removal by payload could not tell their
/// routes apart).
pub proof fn lemma_reroute_consistent(
    t0: Map<u32, Vec<Route>>,
    t1: Map<u32, Vec<Route>>,
    bs: Seq<Bindings>,
    main: MainBindings,
    c: usize,
    slot: Slot,
    key: u32,
)
    requires
        bs.len() <= usize::MAX,
        c < bs.len(),
        routes_match(t0, bs, main),
        main.routable(),
        throws_apart(bs[c as int]),
        bs[c as int].spec_get(slot) != key,
        forall|k: u32| #[trigger]
            routes_under(t1, k) == rerouted(
                routes_under(t0, k),
                k,
                c,
                bs[c as int].spec_get(slot),
                key,
                main.key_for(slot),
                if key == NO_KEY {
                    None
                } else {
                    Some(slot.spec_action(main.key_for(slot)))
                },
            ),
    ensures
        routes_match(t1, bs.update(c as int, bs[c as int].spec_with(slot, key)), main),
{
    broadcast use vstd::seq_lib::group_to_multiset_ensures;

    let b = bs[c as int];
    let old_key = b.spec_get(slot);
    let mk = main.key_for(slot);
    let r = slot_route(c, slot, main);
    let bs2 = bs.update(c as int, b.spec_with(slot, key));
    assert forall|k: u32| #[trigger]
        routes_under(t1, k).to_multiset() == rebuilt_routes(bs2, main, k) by {
        let l = routes_under(t0, k);
        assert(l.to_multiset() == rebuilt_routes(bs, main, k));
        let removed = if old_key != NO_KEY && k == old_key {
            without_first_match(l, c, mk)
        } else {
            l
        };
        if old_key != NO_KEY && k == old_key {
            lemma_rebuilt_has(bs, main, k, c, slot);
            assert(l.contains(r));
            let i = choose|i: int| 0 <= i < l.len() && l[i] == r;
            lemma_first_match_found(l, c, mk, i);
            let j = first_match(l, c, mk);
            assert(l.to_multiset().count(l[j]) > 0);
            let src = lemma_rebuilt_source(bs, main, k, l[j]);
            let s2 = src.1;
            assert(src.0 == c);
            if s2.main_slot() != slot.main_slot() {
                assert(main.spec_get(s2.main_slot()) != main.spec_get(slot.main_slot()));
            }
            assert(s2 == slot);
            assert(l[j] == r);
            assert(removed.to_multiset() == l.to_multiset().remove(r));
        }
        assert forall|e: Route|
            routes_under(t1, k).to_multiset().count(e) == #[trigger] rebuilt_routes(bs2, main, k).count(
                e,
            ) by {
            lemma_rebuilt_update(bs, main, k, e, c, slot, key);
        }
        assert(routes_under(t1, k).to_multiset() =~= rebuilt_routes(bs2, main, k));
    }
}

/// Two main bindings that send the same key for every slot give the same
/// from-scratch build.
proof fn lemma_rebuilt_same_keys(bs: Seq<Bindings>, m1: MainBindings, m2: MainBindings, key: u32)
    requires
        forall|s: Slot| #[trigger] m1.key_for(s) == m2.key_for(s),
    ensures
        rebuilt_routes(bs, m1, key) == rebuilt_routes(bs, m2, key),
    decreases bs.len(),
{
    if bs.len() > 0 {
        lemma_rebuilt_same_keys(bs.drop_last(), m1, m2, key);
        let c = (bs.len() - 1) as usize;
        assert(controller_routes(c, bs.last(), m1, key) == controller_routes(c, bs.last(), m2, key))
            by {
            assert(m1.key_for(Slot::Forward) == m2.key_for(Slot::Forward));
            assert(m1.key_for(Slot::Back) == m2.key_for(Slot::Back));
            assert(m1.key_for(Slot::Left) == m2.key_for(Slot::Left));
            assert(m1.key_for(Slot::Right) == m2.key_for(Slot::Right));
            assert(m1.key_for(Slot::Jump) == m2.key_for(Slot::Jump));
            assert(m1.key_for(Slot::Dismount) == m2.key_for(Slot::Dismount));
            assert(m1.key_for(Slot::Throw) == m2.key_for(Slot::Throw));
            assert(m1.key_for(Slot::LowThrow) == m2.key_for(Slot::LowThrow));
            assert(m1.key_for(Slot::Talk) == m2.key_for(Slot::Talk));
        }
    }
}

/// Rerouting a main key keeps the table equal to a from-scratch build. If
/// table `t0` matches a from-scratch build over bindings `bs` and main
/// bindings `main`, routed main slot `ms` changes to a `new_key` that no
/// routed main slot has, and `t1` is what `State::reroute_main` makes of `t0`
/// for that change, then `t1` matches a from-scratch build over the new main
/// bindings. This holds when every routed main key is bound and distinct.
pub proof fn lemma_reroute_main_consistent(
    t0: Map<u32, Vec<Route>>,
    t1: Map<u32, Vec<Route>>,
    bs: Seq<Bindings>,
    main: MainBindings,
    ms: MainSlot,
    new_key: u32,
)
    requires
        bs.len() <= usize::MAX,
        routes_match(t0, bs, main),
        main.routable(),
        ms.is_routed(),
        new_key != NO_KEY,
        !main.spec_is_bound(new_key),
        forall|k: u32| #[trigger]
            routes_under(t1, k) == renamed_routes(routes_under(t0, k), main.spec_get(ms), new_key),
    ensures
        routes_match(t1, bs, main.spec_with(ms, new_key)),
{
    let main1 = main.spec_with(ms, new_key);
    let old_key = main.spec_get(ms);
    assert forall|k: u32| #[trigger]
        routes_under(t1, k).to_multiset() == rebuilt_routes(bs, main1, k) by {
        let l = routes_under(t0, k);
        assert forall|i: int| 0 <= i < l.len() implies (#[trigger] l[i]).1.payload() != new_key by {
            assert(l.to_multiset().count(l[i]) > 0) by {
                broadcast use vstd::seq_lib::group_to_multiset_ensures;

                assert(l.contains(l[i]));
            }
            let src = lemma_rebuilt_source(bs, main, k, l[i]);
            assert(main.spec_get(src.1.main_slot()) != new_key);
        }
        assert forall|e: Route|
            routes_under(t1, k).to_multiset().count(e) == #[trigger] rebuilt_routes(
                bs,
                main1,
                k,
            ).count(e) by {
            lemma_renamed_routes_count(l, old_key, new_key, e);
            lemma_rebuilt_renamed(bs, main, ms, new_key, k, e);
        }
        assert(routes_under(t1, k).to_multiset() =~= rebuilt_routes(bs, main1, k));
    }
}

} // verus!
