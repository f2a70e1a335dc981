//! The routing table: physical key → list of (controller index, action), with
//! the model of a from-scratch build that the incremental edits keep to.
use crate::bindings::{Action, Bindings, MainBindings, Slot};
use crate::key::NO_KEY;
use rustc_hash::{FxBuildHasher, FxHashMap};
use vstd::multiset::Multiset;
use vstd::prelude::*;

verus! {

#[verifier::external_type_specification]
#[verifier::external_body]
pub struct ExFxBuildHasher(FxBuildHasher);

/// One routing entry: the controller to act on, and the action.
pub type Route = (usize, Action);

/// The routing table, keyed by physical key.
pub type RouteTable = FxHashMap<u32, Vec<Route>>;

/// Relies on `HashMap::get` under rustc-hash's `FxBuildHasher`, whose hashing
/// is deterministic: the list stored under `key`, if any.
#[verifier::external_body]
pub(crate) fn table_get(t: &RouteTable, key: u32) -> (r: Option<&Vec<Route>>)
    ensures
        match r {
            Some(v) => t@.contains_key(key) && *v == t@[key],
            None => !t@.contains_key(key),
        },
{
    t.get(&key)
}

/// Relies on `HashMap::remove` under `FxBuildHasher`: takes the list stored
/// under `key` out of the table.
#[verifier::external_body]
pub(crate) fn table_take(t: &mut RouteTable, key: u32) -> (r: Option<Vec<Route>>)
    ensures
        final(t)@ == old(t)@.remove(key),
        match r {
            Some(v) => old(t)@.contains_key(key) && v == old(t)@[key],
            None => !old(t)@.contains_key(key),
        },
{
    t.remove(&key)
}

/// Relies on `HashMap::insert` under `FxBuildHasher`: stores `v` under `key`.
#[verifier::external_body]
pub(crate) fn table_put(t: &mut RouteTable, key: u32, v: Vec<Route>)
    ensures
        final(t)@ == old(t)@.insert(key, v),
{
    t.insert(key, v);
}

/// Relies on `HashMap::keys` under `FxBuildHasher`: every key of the table,
/// once each, in the table's own order.
#[verifier::external_body]
pub(crate) fn table_keys(t: &RouteTable) -> (r: Vec<u32>)
    ensures
        r@.to_set() == t@.dom(),
        r@.no_duplicates(),
{
    t.keys().copied().collect()
}

/// The routes under `key`; none where the table has no entry for it.
pub open spec fn routes_under(t: Map<u32, Vec<Route>>, key: u32) -> Seq<Route> {
    if t.contains_key(key) {
        t[key]@
    } else {
        Seq::empty()
    }
}

/// Every route of the table names a controller below `n`.
pub open spec fn routes_below(t: Map<u32, Vec<Route>>, n: nat) -> bool {
    forall|key: u32, j: int|
        0 <= j < routes_under(t, key).len() ==> #[trigger] routes_under(t, key)[j].0 < n
}

/// The route that local slot `s` of controller `c` contributes.
pub open spec fn slot_route(c: usize, s: Slot, main: MainBindings) -> Route {
    (c, s.spec_action(main.key_for(s)))
}

/// What slot `s` of controller `c`, bound as `b`, contributes under `key`.
pub open spec fn slot_routes(
    c: usize,
    b: Bindings,
    main: MainBindings,
    key: u32,
    s: Slot,
) -> Multiset<Route> {
    if key != NO_KEY && b.spec_get(s) == key {
        Multiset::singleton(slot_route(c, s, main))
    } else {
        Multiset::empty()
    }
}

/// What controller `c`, bound as `b`, contributes under `key`.
pub open spec fn controller_routes(c: usize, b: Bindings, main: MainBindings, key: u32) -> Multiset<
    Route,
> {
    slot_routes(c, b, main, key, Slot::Forward).add(slot_routes(c, b, main, key, Slot::Back)).add(
        slot_routes(c, b, main, key, Slot::Left),
    ).add(slot_routes(c, b, main, key, Slot::Right)).add(
        slot_routes(c, b, main, key, Slot::Jump),
    ).add(slot_routes(c, b, main, key, Slot::Dismount)).add(
        slot_routes(c, b, main, key, Slot::Throw),
    ).add(slot_routes(c, b, main, key, Slot::LowThrow)).add(
        slot_routes(c, b, main, key, Slot::Talk),
    )
}

/// The routes under `key` of a table built from scratch over the controllers'
/// bindings `bs`: one route per bound slot of each controller.
pub open spec fn rebuilt_routes(bs: Seq<Bindings>, main: MainBindings, key: u32) -> Multiset<Route>
    decreases bs.len(),
{
    if bs.len() == 0 {
        Multiset::empty()
    } else {
        rebuilt_routes(bs.drop_last(), main, key).add(
            controller_routes((bs.len() - 1) as usize, bs.last(), main, key),
        )
    }
}

/// The table holds, under every key, exactly the routes of a from-scratch
/// build (in any order).
pub open spec fn routes_match(t: Map<u32, Vec<Route>>, bs: Seq<Bindings>, main: MainBindings) -> bool {
    forall|key: u32| #[trigger] routes_under(t, key).to_multiset() == rebuilt_routes(bs, main, key)
}

/// Whether route `r` is controller `c`'s and sends `key`.
pub open spec fn route_is(r: Route, c: usize, key: u32) -> bool {
    r.0 == c && r.1.payload() == key
}

/// Index of the first route of `l` that is controller `c`'s and sends `key`;
/// -1 if there is none.
pub open spec fn first_match(l: Seq<Route>, c: usize, key: u32) -> int
    decreases l.len(),
{
    if l.len() == 0 {
        -1
    } else if route_is(l[0], c, key) {
        0
    } else if first_match(l.drop_first(), c, key) < 0 {
        -1
    } else {
        first_match(l.drop_first(), c, key) + 1
    }
}

/// `l` without its first route that is controller `c`'s and sends `key`.
pub open spec fn without_first_match(l: Seq<Route>, c: usize, key: u32) -> Seq<Route> {
    let j = first_match(l, c, key);
    if j < 0 {
        l
    } else {
        l.remove(j)
    }
}

/// A route that sent `old_key`, made to send `new_key`; others unchanged.
pub open spec fn renamed(r: Route, old_key: u32, new_key: u32) -> Route {
    if r.1.payload() == old_key {
        (r.0, r.1.with_payload(new_key))
    } else {
        r
    }
}

pub open spec fn renamed_routes(l: Seq<Route>, old_key: u32, new_key: u32) -> Seq<Route> {
    l.map_values(|r: Route| renamed(r, old_key, new_key))
}

/// The routes of `l` that do not send `key`, in order.
pub open spec fn routes_not_sending(l: Seq<Route>, key: u32) -> Seq<Route> {
    l.filter(|r: Route| r.1.payload() != key)
}

/// The routes of `l` that are not controller `c`'s, in order.
pub open spec fn routes_not_of(l: Seq<Route>, c: usize) -> Seq<Route> {
    l.filter(|r: Route| r.0 != c)
}

/// What slot `s` of controller `c`, bound as `b`, contributes under `key`,
/// as a list.
pub open spec fn slot_routes_seq(
    c: usize,
    b: Bindings,
    main: MainBindings,
    key: u32,
    s: Slot,
) -> Seq<Route> {
    if key != NO_KEY && b.spec_get(s) == key {
        seq![slot_route(c, s, main)]
    } else {
        Seq::empty()
    }
}

/// What controller `c`, bound as `b`, contributes under `key`, in slot order.
pub open spec fn controller_routes_seq(c: usize, b: Bindings, main: MainBindings, key: u32) -> Seq<
    Route,
> {
    slot_routes_seq(c, b, main, key, Slot::Forward) + slot_routes_seq(c, b, main, key, Slot::Back)
        + slot_routes_seq(c, b, main, key, Slot::Left) + slot_routes_seq(
        c,
        b,
        main,
        key,
        Slot::Right,
    ) + slot_routes_seq(c, b, main, key, Slot::Jump) + slot_routes_seq(
        c,
        b,
        main,
        key,
        Slot::Dismount,
    ) + slot_routes_seq(c, b, main, key, Slot::Throw) + slot_routes_seq(
        c,
        b,
        main,
        key,
        Slot::LowThrow,
    ) + slot_routes_seq(c, b, main, key, Slot::Talk)
}

/// The list under `key` of a table built from scratch over the controllers'
/// bindings `bs`: controller index order, then slot order.
pub open spec fn built_routes(bs: Seq<Bindings>, main: MainBindings, key: u32) -> Seq<Route>
    decreases bs.len(),
{
    if bs.len() == 0 {
        Seq::empty()
    } else {
        built_routes(bs.drop_last(), main, key) + controller_routes_seq(
            (bs.len() - 1) as usize,
            bs.last(),
            main,
            key,
        )
    }
}

/// Every key that the table holds has at least one route.
pub open spec fn no_empty_lists(t: Map<u32, Vec<Route>>) -> bool {
    forall|k: u32| #[trigger] t.contains_key(k) ==> t[k]@.len() > 0
}

/// The list of a controller's routes holds the routes of its multiset.
pub proof fn lemma_controller_routes_seq(c: usize, b: Bindings, main: MainBindings, key: u32)
    ensures
        controller_routes_seq(c, b, main, key).to_multiset() == controller_routes(c, b, main, key),
{
    broadcast use vstd::seq_lib::lemma_multiset_commutative;
    broadcast use vstd::seq_lib::group_to_multiset_ensures;

    assert forall|s: Slot| #[trigger]
        slot_routes_seq(c, b, main, key, s).to_multiset() == slot_routes(c, b, main, key, s) by {
        if key != NO_KEY && b.spec_get(s) == key {
            assert(seq![slot_route(c, s, main)] =~= Seq::<Route>::empty().push(
                slot_route(c, s, main),
            ));
            assert(Seq::<Route>::empty().to_multiset() =~= Multiset::<Route>::empty());
            assert(slot_routes_seq(c, b, main, key, s).to_multiset() =~= slot_routes(
                c,
                b,
                main,
                key,
                s,
            ));
        } else {
            assert(Seq::<Route>::empty().to_multiset() =~= Multiset::<Route>::empty());
        }
    }
    assert(controller_routes_seq(c, b, main, key).to_multiset() =~= controller_routes(
        c,
        b,
        main,
        key,
    ));
}

/// The from-scratch build, as lists, holds the routes of its multisets.
pub proof fn lemma_built_routes(bs: Seq<Bindings>, main: MainBindings, key: u32)
    ensures
        built_routes(bs, main, key).to_multiset() == rebuilt_routes(bs, main, key),
    decreases bs.len(),
{
    broadcast use vstd::seq_lib::lemma_multiset_commutative;
    broadcast use vstd::seq_lib::group_to_multiset_ensures;

    if bs.len() == 0 {
        assert(Seq::<Route>::empty().to_multiset() =~= Multiset::<Route>::empty());
    } else {
        lemma_built_routes(bs.drop_last(), main, key);
        lemma_controller_routes_seq((bs.len() - 1) as usize, bs.last(), main, key);
    }
}

/// Appends `r` to the list under `key`.
pub(crate) fn push_route(t: &mut RouteTable, key: u32, r: Route)
    ensures
        routes_under(final(t)@, key) == routes_under(old(t)@, key).push(r),
        forall|k: u32| k != key ==> #[trigger] routes_under(final(t)@, k) == routes_under(old(t)@, k),
        final(t)@.dom() == old(t)@.dom().insert(key),
        no_empty_lists(old(t)@) ==> no_empty_lists(final(t)@),
{
    let mut v = match table_take(t, key) {
        Some(v) => v,
        None => Vec::new(),
    };
    v.push(r);
    table_put(t, key, v);
    proof {
        assert forall|k: u32| k != key implies #[trigger] routes_under(t@, k) == routes_under(
            old(t)@,
            k,
        ) by {
            assert(t@.contains_key(k) == old(t)@.contains_key(k));
        }
        assert(t@.dom() =~= old(t)@.dom().insert(key));
    }
}

/// Appends the route of slot `s` of controller `c` under its physical key,
/// if the slot is bound.
pub(crate) fn route_slot(t: &mut RouteTable, c: usize, b: &Bindings, main: &MainBindings, s: Slot)
    ensures
        forall|k: u32| #[trigger]
            routes_under(final(t)@, k) == routes_under(old(t)@, k) + slot_routes_seq(
                c,
                *b,
                *main,
                k,
                s,
            ),
        forall|n: nat| routes_below(old(t)@, n) && c < n ==> routes_below(final(t)@, n),
        no_empty_lists(old(t)@) ==> no_empty_lists(final(t)@),
{
    let key = b.get(s);
    if key != NO_KEY {
        let r = (c, s.action(main.key_for_slot(s)));
        push_route(t, key, r);
        proof {
            assert forall|k: u32| #[trigger]
                routes_under(t@, k) == routes_under(old(t)@, k) + slot_routes_seq(
                    c,
                    *b,
                    *main,
                    k,
                    s,
                ) by {
                assert(routes_under(t@, k) =~= routes_under(old(t)@, k) + slot_routes_seq(
                    c,
                    *b,
                    *main,
                    k,
                    s,
                ));
            }
            assert forall|n: nat| routes_below(old(t)@, n) && c < n implies routes_below(t@, n) by {
                assert forall|k: u32, j: int| 0 <= j < routes_under(t@, k).len() implies #[trigger]
                    routes_under(t@, k)[j].0 < n by {
                    if k == key && j == routes_under(old(t)@, k).len() {
                    } else {
                        assert(routes_under(t@, k)[j] == routes_under(old(t)@, k)[j]);
                    }
                }
            }
        }
    } else {
        proof {
            assert forall|k: u32| #[trigger]
                routes_under(t@, k) == routes_under(old(t)@, k) + slot_routes_seq(
                    c,
                    *b,
                    *main,
                    k,
                    s,
                ) by {
                assert(routes_under(t@, k) =~= routes_under(old(t)@, k) + slot_routes_seq(
                    c,
                    *b,
                    *main,
                    k,
                    s,
                ));
            }
        }
    }
}

/// Appends the routes of every bound slot of controller `c`, in slot order.
pub(crate) fn route_controller(t: &mut RouteTable, c: usize, b: &Bindings, main: &MainBindings)
    ensures
        forall|k: u32| #[trigger]
            routes_under(final(t)@, k) == routes_under(old(t)@, k) + controller_routes_seq(
                c,
                *b,
                *main,
                k,
            ),
        forall|k: u32| #[trigger]
            routes_under(final(t)@, k).to_multiset() == routes_under(old(t)@, k).to_multiset().add(
                controller_routes(c, *b, *main, k),
            ),
        forall|n: nat| routes_below(old(t)@, n) && c < n ==> routes_below(final(t)@, n),
        no_empty_lists(old(t)@) ==> no_empty_lists(final(t)@),
{
    let ghost t0 = t@;
    route_slot(t, c, b, main, Slot::Forward);
    route_slot(t, c, b, main, Slot::Back);
    route_slot(t, c, b, main, Slot::Left);
    route_slot(t, c, b, main, Slot::Right);
    route_slot(t, c, b, main, Slot::Jump);
    route_slot(t, c, b, main, Slot::Dismount);
    route_slot(t, c, b, main, Slot::Throw);
    route_slot(t, c, b, main, Slot::LowThrow);
    route_slot(t, c, b, main, Slot::Talk);
    proof {
        broadcast use vstd::seq_lib::lemma_multiset_commutative;

        assert forall|k: u32| #[trigger]
            routes_under(t@, k) == routes_under(t0, k) + controller_routes_seq(c, *b, *main, k) by {
            assert(routes_under(t@, k) =~= routes_under(t0, k) + controller_routes_seq(
                c,
                *b,
                *main,
                k,
            ));
        }
        assert forall|k: u32| #[trigger]
            routes_under(t@, k).to_multiset() == routes_under(t0, k).to_multiset().add(
                controller_routes(c, *b, *main, k),
            ) by {
            lemma_controller_routes_seq(c, *b, *main, k);
            assert(routes_under(t@, k) == routes_under(t0, k) + controller_routes_seq(
                c,
                *b,
                *main,
                k,
            ));
        }
    }
}

} // verus!
