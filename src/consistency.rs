//! Facts about the from-scratch build of the routing table, used to show that
//! the incremental edits keep the table equal to it.
use crate::bindings::{Bindings, MainBindings, MainSlot, Slot};
use crate::key::NO_KEY;
use crate::routes::{
    controller_routes, first_match, rebuilt_routes, renamed, renamed_routes, route_is,
    routes_not_of, routes_not_sending, slot_route, slot_routes, Route,
};
use vstd::multiset::Multiset;
use vstd::prelude::*;

verus! {

/// How often `e` occurs in the image of `m` under renaming `old_key` to
/// `new_key`, for a multiset in which no route sends `new_key`.
pub open spec fn renamed_count(m: Multiset<Route>, e: Route, old_key: u32, new_key: u32) -> nat {
    if e.1.payload() == new_key {
        m.count((e.0, e.1.with_payload(old_key)))
    } else if e.1.payload() == old_key {
        0
    } else {
        m.count(e)
    }
}

/// Each route that a controller contributes comes from one of its bound slots.
pub(crate) proof fn lemma_controller_route_source(
    c: usize,
    b: Bindings,
    main: MainBindings,
    key: u32,
    e: Route,
) -> (s: Slot)
    requires
        controller_routes(c, b, main, key).count(e) > 0,
    ensures
        key != NO_KEY,
        b.spec_get(s) == key,
        e == slot_route(c, s, main),
{
    if slot_routes(c, b, main, key, Slot::Forward).count(e) > 0 {
        Slot::Forward
    } else if slot_routes(c, b, main, key, Slot::Back).count(e) > 0 {
        Slot::Back
    } else if slot_routes(c, b, main, key, Slot::Left).count(e) > 0 {
        Slot::Left
    } else if slot_routes(c, b, main, key, Slot::Right).count(e) > 0 {
        Slot::Right
    } else if slot_routes(c, b, main, key, Slot::Jump).count(e) > 0 {
        Slot::Jump
    } else if slot_routes(c, b, main, key, Slot::Dismount).count(e) > 0 {
        Slot::Dismount
    } else if slot_routes(c, b, main, key, Slot::Throw).count(e) > 0 {
        Slot::Throw
    } else if slot_routes(c, b, main, key, Slot::LowThrow).count(e) > 0 {
        Slot::LowThrow
    } else {
        Slot::Talk
    }
}

/// Each route of a from-scratch build comes from a bound slot of one of the
/// controllers.
pub(crate) proof fn lemma_rebuilt_source(
    bs: Seq<Bindings>,
    main: MainBindings,
    key: u32,
    e: Route,
) -> (cs: (usize, Slot))
    requires
        bs.len() <= usize::MAX,
        rebuilt_routes(bs, main, key).count(e) > 0,
    ensures
        cs.0 < bs.len(),
        key != NO_KEY,
        bs[cs.0 as int].spec_get(cs.1) == key,
        e == slot_route(cs.0, cs.1, main),
    decreases bs.len(),
{
    if bs.len() == 0 {
        assert(false);
        (0, Slot::Forward)
    } else if rebuilt_routes(bs.drop_last(), main, key).count(e) > 0 {
        let cs = lemma_rebuilt_source(bs.drop_last(), main, key, e);
        assert(bs.drop_last()[cs.0 as int] == bs[cs.0 as int]);
        cs
    } else {
        let n = (bs.len() - 1) as usize;
        let s = lemma_controller_route_source(n, bs.last(), main, key, e);
        (n, s)
    }
}

/// A bound slot's route is in the from-scratch build.
pub(crate) proof fn lemma_rebuilt_has(bs: Seq<Bindings>, main: MainBindings, key: u32, c: usize, s: Slot)
    requires
        bs.len() <= usize::MAX,
        c < bs.len(),
        key != NO_KEY,
        bs[c as int].spec_get(s) == key,
    ensures
        rebuilt_routes(bs, main, key).count(slot_route(c, s, main)) > 0,
    decreases bs.len(),
{
    let n = (bs.len() - 1) as usize;
    if c == n {
        let b = bs.last();
        assert(slot_routes(c, b, main, key, s).count(slot_route(c, s, main)) > 0);
        match s {
            Slot::Forward => {},
            Slot::Back => {},
            Slot::Left => {},
            Slot::Right => {},
            Slot::Jump => {},
            Slot::Dismount => {},
            Slot::Throw => {},
            Slot::LowThrow => {},
            Slot::Talk => {},
        }
    } else {
        assert(bs.drop_last()[c as int] == bs[c as int]);
        lemma_rebuilt_has(bs.drop_last(), main, key, c, s);
    }
}

/// Rebinding slot `s` of a controller to `new` moves that slot's route from
/// under the old key to under `new`.
pub(crate) proof fn lemma_controller_update(
    c: usize,
    b: Bindings,
    main: MainBindings,
    key: u32,
    e: Route,
    s: Slot,
    new: u32,
)
    ensures
        controller_routes(c, b.spec_with(s, new), main, key).count(e) as int == controller_routes(
            c,
            b,
            main,
            key,
        ).count(e) as int - (if key != NO_KEY && b.spec_get(s) == key && e == slot_route(c, s, main) {
            1int
        } else {
            0int
        }) + (if key != NO_KEY && new == key && e == slot_route(c, s, main) {
            1int
        } else {
            0int
        }),
{
    match s {
        Slot::Forward => {},
        Slot::Back => {},
        Slot::Left => {},
        Slot::Right => {},
        Slot::Jump => {},
        Slot::Dismount => {},
        Slot::Throw => {},
        Slot::LowThrow => {},
        Slot::Talk => {},
    }
}

/// Rebinding slot `s` of controller `c` to `new` moves that slot's route in the
/// from-scratch build from under the old key to under `new`.
pub(crate) proof fn lemma_rebuilt_update(
    bs: Seq<Bindings>,
    main: MainBindings,
    key: u32,
    e: Route,
    c: usize,
    s: Slot,
    new: u32,
)
    requires
        bs.len() <= usize::MAX,
        c < bs.len(),
    ensures
        rebuilt_routes(bs.update(c as int, bs[c as int].spec_with(s, new)), main, key).count(
            e,
        ) as int == rebuilt_routes(bs, main, key).count(e) as int - (if key != NO_KEY
            && bs[c as int].spec_get(s) == key && e == slot_route(c, s, main) {
            1int
        } else {
            0int
        }) + (if key != NO_KEY && new == key && e == slot_route(c, s, main) {
            1int
        } else {
            0int
        }),
    decreases bs.len(),
{
    let b2 = bs[c as int].spec_with(s, new);
    let bs2 = bs.update(c as int, b2);
    let n = (bs.len() - 1) as usize;
    if c == n {
        assert(bs2.drop_last() =~= bs.drop_last());
        lemma_controller_update(c, bs[c as int], main, key, e, s, new);
    } else {
        assert(bs2.drop_last() =~= bs.drop_last().update(c as int, b2));
        assert(bs.drop_last()[c as int] == bs[c as int]);
        lemma_rebuilt_update(bs.drop_last(), main, key, e, c, s, new);
    }
}

proof fn lemma_renamed_eq(x: Route, e: Route, old_key: u32, new_key: u32)
    requires
        x.1.payload() != new_key,
        old_key != new_key,
    ensures
        (renamed(x, old_key, new_key) == e) == (if e.1.payload() == new_key {
            x == (e.0, e.1.with_payload(old_key))
        } else if e.1.payload() == old_key {
            false
        } else {
            x == e
        }),
{
}

/// Renaming a list of routes renames its multiset, when no route of the list
/// sends the new key.
pub(crate) proof fn lemma_renamed_routes_count(l: Seq<Route>, old_key: u32, new_key: u32, e: Route)
    requires
        old_key != new_key,
        forall|i: int| 0 <= i < l.len() ==> (#[trigger] l[i]).1.payload() != new_key,
    ensures
        renamed_routes(l, old_key, new_key).to_multiset().count(e) == renamed_count(
            l.to_multiset(),
            e,
            old_key,
            new_key,
        ),
    decreases l.len(),
{
    broadcast use vstd::seq_lib::group_to_multiset_ensures;

    if l.len() == 0 {
        assert(renamed_routes(l, old_key, new_key) =~= Seq::<Route>::empty());
        assert(l =~= Seq::<Route>::empty());
    } else {
        let p = l.drop_last();
        let x = l.last();
        assert forall|i: int| 0 <= i < p.len() implies (#[trigger] p[i]).1.payload() != new_key by {
            assert(p[i] == l[i]);
        }
        lemma_renamed_routes_count(p, old_key, new_key, e);
        assert(l =~= p.push(x));
        assert(renamed_routes(l, old_key, new_key) =~= renamed_routes(p, old_key, new_key).push(
            renamed(x, old_key, new_key),
        ));
        lemma_renamed_eq(x, e, old_key, new_key);
    }
}

/// Changing routed main slot `ms` to a key that no routed main slot has yet
/// renames the routes of the from-scratch build.
pub(crate) proof fn lemma_rebuilt_renamed(
    bs: Seq<Bindings>,
    main: MainBindings,
    ms: MainSlot,
    new_key: u32,
    key: u32,
    e: Route,
)
    requires
        main.routable(),
        ms.is_routed(),
        !main.spec_is_bound(new_key),
    ensures
        rebuilt_routes(bs, main.spec_with(ms, new_key), key).count(e) == renamed_count(
            rebuilt_routes(bs, main, key),
            e,
            main.spec_get(ms),
            new_key,
        ),
    decreases bs.len(),
{
    let main2 = main.spec_with(ms, new_key);
    let old_key = main.spec_get(ms);
    assert(old_key != new_key);
    if bs.len() > 0 {
        lemma_rebuilt_renamed(bs.drop_last(), main, ms, new_key, key, e);
        let c = (bs.len() - 1) as usize;
        let b = bs.last();
        assert forall|s: Slot|
            slot_routes(c, b, main2, key, s).count(e) == renamed_count(
                #[trigger] slot_routes(c, b, main, key, s),
                e,
                old_key,
                new_key,
            ) by {
            let x = slot_route(c, s, main);
            assert(main.spec_get(s.main_slot()) != new_key);
            if s.main_slot() == ms {
                assert(slot_route(c, s, main2) == renamed(x, old_key, new_key));
            } else {
                assert(main.spec_get(s.main_slot()) != main.spec_get(ms));
                assert(slot_route(c, s, main2) == renamed(x, old_key, new_key));
            }
            lemma_renamed_eq(x, e, old_key, new_key);
        }
        assert(controller_routes(c, b, main2, key).count(e) == renamed_count(
            controller_routes(c, b, main, key),
            e,
            old_key,
            new_key,
        ));
    }
}

/// Dropping a controller's routes from a list drops them from its multiset.
pub(crate) proof fn lemma_routes_not_of_count(l: Seq<Route>, c: usize, e: Route)
    ensures
        routes_not_of(l, c).to_multiset().count(e) == (if e.0 != c {
            l.to_multiset().count(e)
        } else {
            0
        }),
    decreases l.len(),
{
    broadcast use vstd::seq_lib::group_to_multiset_ensures;

    reveal(Seq::filter);
    if l.len() == 0 {
        assert(routes_not_of(l, c) =~= Seq::<Route>::empty());
        assert(l =~= Seq::<Route>::empty());
    } else {
        lemma_routes_not_of_count(l.drop_last(), c, e);
        assert(l =~= l.drop_last().push(l.last()));
    }
}

/// The first match of a list lies at or before any match.
pub(crate) proof fn lemma_first_match_found(l: Seq<Route>, c: usize, key: u32, i: int)
    requires
        0 <= i < l.len(),
        route_is(l[i], c, key),
    ensures
        0 <= first_match(l, c, key) <= i,
        route_is(l[first_match(l, c, key)], c, key),
    decreases i,
{
    if !route_is(l[0], c, key) {
        assert(l.drop_first()[i - 1] == l[i]);
        lemma_first_match_found(l.drop_first(), c, key, i - 1);
        assert(l.drop_first()[first_match(l.drop_first(), c, key)] == l[first_match(l, c, key)]);
    }
}

/// A scan that passed `j` routes without a match finds the first match at `j`.
pub(crate) proof fn lemma_first_match_at(l: Seq<Route>, c: usize, key: u32, j: int)
    requires
        0 <= j <= l.len(),
        forall|i: int| 0 <= i < j ==> !route_is(#[trigger] l[i], c, key),
        j == l.len() || route_is(l[j], c, key),
    ensures
        first_match(l, c, key) == (if j == l.len() {
            -1
        } else {
            j
        }),
    decreases j,
{
    if j > 0 {
        assert(!route_is(l[0], c, key));
        let d = l.drop_first();
        assert forall|i: int| 0 <= i < j - 1 implies !route_is(#[trigger] d[i], c, key) by {
            assert(d[i] == l[i + 1]);
        }
        if j < l.len() {
            assert(d[j - 1] == l[j]);
        }
        lemma_first_match_at(d, c, key, j - 1);
    }
}

/// Dropping routes keeps every remaining route's controller below `n`.
pub(crate) proof fn lemma_routes_not_sending_below(l: Seq<Route>, key: u32, n: nat)
    requires
        forall|i: int| 0 <= i < l.len() ==> (#[trigger] l[i]).0 < n,
    ensures
        forall|i: int|
            0 <= i < routes_not_sending(l, key).len() ==> (#[trigger] routes_not_sending(
                l,
                key,
            )[i]).0 < n,
    decreases l.len(),
{
    reveal(Seq::filter);
    if l.len() > 0 {
        let p = l.drop_last();
        assert forall|i: int| 0 <= i < p.len() implies (#[trigger] p[i]).0 < n by {
            assert(p[i] == l[i]);
        }
        lemma_routes_not_sending_below(p, key, n);
        let f = routes_not_sending(l, key);
        let fp = routes_not_sending(p, key);
        if l.last().1.payload() != key {
            assert(f == fp.push(l.last()));
        } else {
            assert(f == fp);
        }
        assert forall|i: int| 0 <= i < f.len() implies (#[trigger] f[i]).0 < n by {
            if i < fp.len() {
                assert(f[i] == fp[i]);
            } else {
                assert(f[i] == l[l.len() - 1]);
            }
        }
    }
}

/// Dropping controller `c`'s routes keeps every remaining route's controller
/// below `n`, and none of them is `c`.
pub(crate) proof fn lemma_routes_not_of_below(l: Seq<Route>, c: usize, n: nat)
    requires
        forall|i: int| 0 <= i < l.len() ==> (#[trigger] l[i]).0 < n,
    ensures
        forall|i: int|
            0 <= i < routes_not_of(l, c).len() ==> (#[trigger] routes_not_of(l, c)[i]).0 < n
                && routes_not_of(l, c)[i].0 != c,
    decreases l.len(),
{
    reveal(Seq::filter);
    if l.len() > 0 {
        let p = l.drop_last();
        assert forall|i: int| 0 <= i < p.len() implies (#[trigger] p[i]).0 < n by {
            assert(p[i] == l[i]);
        }
        lemma_routes_not_of_below(p, c, n);
        let f = routes_not_of(l, c);
        let fp = routes_not_of(p, c);
        if l.last().0 != c {
            assert(f == fp.push(l.last()));
        } else {
            assert(f == fp);
        }
        assert forall|i: int| 0 <= i < f.len() implies (#[trigger] f[i]).0 < n && f[i].0 != c by {
            if i < fp.len() {
                assert(f[i] == fp[i]);
            } else {
                assert(f[i] == l[l.len() - 1]);
            }
        }
    }
}

} // verus!
