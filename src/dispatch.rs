//! The dispatch algorithm: what a key press or release sends to which window.
//!
//! The decisions are made here; sending the keys is left to the caller, which
//! performs the returned sends in order. A send to window `NO_WINDOW` is a
//! silent no-op for the caller.
use crate::bindings::Action;
use crate::bitset::{AtomicBitSet, BITSET_CAPACITY};
use crate::routes::{routes_under, table_get, Route};
use crate::state::{Controller, State, NO_MIRROR};
use vstd::prelude::*;

verus! {

/// How a key is sent to a window.
#[derive(Clone, Copy, Debug, PartialEq, Eq, Structural)]
pub enum SendKind {
    /// Key down only.
    Down,
    /// Key up only.
    Up,
    /// A full press and release.
    Press,
}

/// One key event to inject into a window.
#[derive(Clone, Copy, Debug, PartialEq, Eq, Structural)]
pub struct KeySend {
    pub window: u64,
    pub key: u32,
    pub kind: SendKind,
}

/// `key` sent as `kind` to the window of each controller of `ids`, in order.
pub open spec fn raw_sends(ctls: Seq<Controller>, ids: Seq<usize>, key: u32, kind: SendKind) -> Seq<
    KeySend,
>
    decreases ids.len(),
{
    if ids.len() == 0 {
        Seq::empty()
    } else {
        raw_sends(ctls, ids.drop_last(), key, kind).push(
            KeySend { window: ctls[ids.last() as int].window, key, kind },
        )
    }
}

/// The controllers a route of controller `c` acts on: `c` itself, then, with
/// mirroring on, the controllers that mirror `c`, in index order (one level
/// only: their own mirrors are not followed).
pub open spec fn route_targets(ctls: Seq<Controller>, c: usize, mirroring: bool) -> Seq<usize> {
    seq![c] + if mirroring {
        ctls[c as int].mirrored.members()
    } else {
        Seq::empty()
    }
}

/// Pressing: what action `a` of a route of controller `c` does to target `t`,
/// given the talking set; `any_talking` tells whether anybody was talking when
/// the key went down. Yields the new talking set and the sends.
pub open spec fn press_target(
    ctls: Seq<Controller>,
    any_talking: bool,
    c: usize,
    a: Action,
    t: usize,
    talking: Set<usize>,
) -> (Set<usize>, Seq<KeySend>) {
    let w = ctls[t as int].window;
    match a {
        Action::Simple(k) => (
            talking,
            if any_talking {
                Seq::empty()
            } else {
                seq![KeySend { window: w, key: k, kind: SendKind::Down }]
            },
        ),
        Action::LowThrow(k) => (
            talking,
            if any_talking {
                Seq::empty()
            } else {
                seq![KeySend { window: w, key: k, kind: SendKind::Press }]
            },
        ),
        Action::Talk(k) => if t != c || ctls[t as int].mirror == NO_MIRROR {
            if talking.contains(t) {
                (talking.remove(t), seq![KeySend { window: w, key: k, kind: SendKind::Up }])
            } else {
                (talking.insert(t), seq![KeySend { window: w, key: k, kind: SendKind::Press }])
            }
        } else {
            (talking, Seq::empty())
        },
    }
}

/// Pressing: action `a` of a route of controller `c` applied to targets `ts`
/// in order, from talking set and sends `st`.
pub open spec fn press_targets(
    ctls: Seq<Controller>,
    any_talking: bool,
    c: usize,
    a: Action,
    ts: Seq<usize>,
    st: (Set<usize>, Seq<KeySend>),
) -> (Set<usize>, Seq<KeySend>)
    decreases ts.len(),
{
    if ts.len() == 0 {
        st
    } else {
        let prev = press_targets(ctls, any_talking, c, a, ts.drop_last(), st);
        let r = press_target(ctls, any_talking, c, a, ts.last(), prev.0);
        (r.0, prev.1 + r.1)
    }
}

/// Pressing: the routes `rs` applied in order, from talking set and sends `st`.
pub open spec fn press_routes(
    ctls: Seq<Controller>,
    any_talking: bool,
    mirroring: bool,
    rs: Seq<Route>,
    st: (Set<usize>, Seq<KeySend>),
) -> (Set<usize>, Seq<KeySend>)
    decreases rs.len(),
{
    if rs.len() == 0 {
        st
    } else {
        let prev = press_routes(ctls, any_talking, mirroring, rs.drop_last(), st);
        let r = rs.last();
        press_targets(ctls, any_talking, r.0, r.1, route_targets(ctls, r.0, mirroring), prev)
    }
}

/// Releasing: the key-ups that action `a` sends to targets `ts`.
pub open spec fn release_targets(ctls: Seq<Controller>, a: Action, ts: Seq<usize>) -> Seq<KeySend>
    decreases ts.len(),
{
    if ts.len() == 0 {
        Seq::empty()
    } else {
        release_targets(ctls, a, ts.drop_last()) + match a {
            Action::Simple(k) => seq![
                KeySend { window: ctls[ts.last() as int].window, key: k, kind: SendKind::Up },
            ],
            _ => Seq::empty(),
        }
    }
}

/// Releasing: the key-ups of the routes `rs`, in order.
pub open spec fn release_routes(ctls: Seq<Controller>, mirroring: bool, rs: Seq<Route>) -> Seq<
    KeySend,
>
    decreases rs.len(),
{
    if rs.len() == 0 {
        Seq::empty()
    } else {
        let r = rs.last();
        release_routes(ctls, mirroring, rs.drop_last()) + release_targets(
            ctls,
            r.1,
            route_targets(ctls, r.0, mirroring),
        )
    }
}

impl State {
    /// What pressing `key` leads to: the new mirroring flag, the new talking
    /// set, and the sends in order.
    pub open spec fn pressed(&self, key: u32) -> (bool, Set<usize>, Seq<KeySend>) {
        let ctls = self.controllers@;
        let any = self.talking@ != Set::<usize>::empty();
        let raw = if any {
            raw_sends(ctls, self.talking.members(), key, SendKind::Down)
        } else {
            Seq::empty()
        };
        let mirroring = if !any && key == self.main_bindings.toggle_mirroring {
            !self.mirroring
        } else {
            self.mirroring
        };
        let r = press_routes(ctls, any, mirroring, routes_under(self.routes@, key), (self.talking@, raw));
        (mirroring, r.0, r.1)
    }

    /// The sends that releasing `key` leads to, in order.
    pub open spec fn released(&self, key: u32) -> Seq<KeySend> {
        if self.talking@ != Set::<usize>::empty() {
            raw_sends(self.controllers@, self.talking.members(), key, SendKind::Up)
        } else {
            release_routes(self.controllers@, self.mirroring, routes_under(self.routes@, key))
        }
    }
}

/// The members of `set` in increasing order.
fn members_vec(set: &AtomicBitSet) -> (r: Vec<usize>)
    ensures
        r@ == set.members(),
{
    let mut it = set.iter();
    let mut out: Vec<usize> = Vec::new();
    let mut more = true;
    while more
        invariant
            set.members() == out@ + it.remaining(),
            more || it.remaining().len() == 0,
        decreases it.remaining().len() + (if more {
            1int
        } else {
            0int
        }),
    {
        let ghost rem = it.remaining();
        match it.next() {
            Some(i) => {
                out.push(i);
                assert(out@ + it.remaining() =~= out@.drop_last() + rem);
            },
            None => {
                more = false;
            },
        }
    }
    assert(out@ + it.remaining() =~= out@);
    out
}

/// `key` sent as `kind` to the window of each controller of `ids`, in order.
fn send_raw(ctls: &Vec<Controller>, ids: &Vec<usize>, key: u32, kind: SendKind, out: &mut Vec<KeySend>)
    requires
        forall|j: int| 0 <= j < ids.len() ==> (#[trigger] ids@[j]) < ctls.len(),
    ensures
        final(out)@ == old(out)@ + raw_sends(ctls@, ids@, key, kind),
{
    let len = ids.len();
    let mut j: usize = 0;
    while j < len
        invariant
            len == ids.len(),
            j <= len,
            forall|x: int| 0 <= x < ids.len() ==> (#[trigger] ids@[x]) < ctls.len(),
            out@ == old(out)@ + raw_sends(ctls@, ids@.take(j as int), key, kind),
        decreases len - j,
    {
        let i = ids[j];
        out.push(KeySend { window: ctls[i].window, key, kind });
        proof {
            assert(ids@.take(j + 1).drop_last() =~= ids@.take(j as int));
        }
        j = j + 1;
    }
    proof {
        assert(ids@.take(len as int) =~= ids@);
    }
}

/// The targets of a route of controller `c`.
fn targets_of(ctls: &Vec<Controller>, c: usize, mirroring: bool) -> (r: Vec<usize>)
    requires
        c < ctls.len(),
    ensures
        r@ == route_targets(ctls@, c, mirroring),
{
    let mut ts: Vec<usize> = Vec::new();
    ts.push(c);
    if mirroring {
        let mut ms = members_vec(&ctls[c].mirrored);
        ts.append(&mut ms);
    }
    assert(ts@ =~= route_targets(ctls@, c, mirroring));
    ts
}


/// Pressing: applies action `a` of a route of controller `c` to target `t`.
fn press_target_exec(
    ctls: &Vec<Controller>,
    any_talking: bool,
    c: usize,
    a: Action,
    t: usize,
    talking: &mut AtomicBitSet,
    out: &mut Vec<KeySend>,
)
    requires
        t < ctls.len(),
        ctls.len() <= BITSET_CAPACITY,
        forall|m: usize| #[trigger] old(talking)@.contains(m) ==> m < ctls.len(),
    ensures
        ({
            let r = press_target(ctls@, any_talking, c, a, t, old(talking)@);
            final(talking)@ == r.0 && final(out)@ == old(out)@ + r.1
        }),
        forall|m: usize| #[trigger] final(talking)@.contains(m) ==> m < ctls.len(),
{
    let ghost r = press_target(ctls@, any_talking, c, a, t, talking@);
    let w = ctls[t].window;
    match a {
        Action::Simple(k) => {
            if !any_talking {
                out.push(KeySend { window: w, key: k, kind: SendKind::Down });
            }
        },
        Action::LowThrow(k) => {
            if !any_talking {
                out.push(KeySend { window: w, key: k, kind: SendKind::Press });
            }
        },
        Action::Talk(k) => {
            if t != c || !ctls[t].has_mirror() {
                let was_talking = talking.toggle(t);
                if was_talking {
                    out.push(KeySend { window: w, key: k, kind: SendKind::Up });
                } else {
                    out.push(KeySend { window: w, key: k, kind: SendKind::Press });
                }
            }
        },
    }
    assert(out@ =~= old(out)@ + r.1);
}

/// Pressing: applies action `a` of a route of controller `c` to each of the
/// route's targets in order.
fn press_route(
    ctls: &Vec<Controller>,
    any_talking: bool,
    mirroring: bool,
    c: usize,
    a: Action,
    talking: &mut AtomicBitSet,
    out: &mut Vec<KeySend>,
)
    requires
        c < ctls.len(),
        ctls.len() <= BITSET_CAPACITY,
        forall|m: usize| #[trigger] ctls@[c as int].mirrored@.contains(m) ==> m < ctls.len(),
        forall|m: usize| #[trigger] old(talking)@.contains(m) ==> m < ctls.len(),
    ensures
        ({
            let r = press_targets(
                ctls@,
                any_talking,
                c,
                a,
                route_targets(ctls@, c, mirroring),
                (old(talking)@, old(out)@),
            );
            final(talking)@ == r.0 && final(out)@ == r.1
        }),
        forall|m: usize| #[trigger] final(talking)@.contains(m) ==> m < ctls.len(),
{
    let ts = targets_of(ctls, c, mirroring);
    proof {
        ctls@[c as int].mirrored.lemma_members();
        assert forall|j: int| 0 <= j < ts.len() implies (#[trigger] ts@[j]) < ctls.len() by {
            if j > 0 {
                assert(ctls@[c as int].mirrored.members().contains(ts@[j]));
            }
        }
    }
    let len = ts.len();
    let mut j: usize = 0;
    while j < len
        invariant
            len == ts.len(),
            j <= len,
            ts@ == route_targets(ctls@, c, mirroring),
            ctls.len() <= BITSET_CAPACITY,
            forall|x: int| 0 <= x < ts.len() ==> (#[trigger] ts@[x]) < ctls.len(),
            forall|m: usize| #[trigger] talking@.contains(m) ==> m < ctls.len(),
            ({
                let r = press_targets(
                    ctls@,
                    any_talking,
                    c,
                    a,
                    ts@.take(j as int),
                    (old(talking)@, old(out)@),
                );
                talking@ == r.0 && out@ == r.1
            }),
        decreases len - j,
    {
        press_target_exec(ctls, any_talking, c, a, ts[j], talking, out);
        proof {
            assert(ts@.take(j + 1).drop_last() =~= ts@.take(j as int));
        }
        j = j + 1;
    }
    proof {
        assert(ts@.take(len as int) =~= ts@);
    }
}

/// Releasing: the key-ups of action `a` for each target of a route of
/// controller `c`.
fn release_route(ctls: &Vec<Controller>, mirroring: bool, c: usize, a: Action, out: &mut Vec<KeySend>)
    requires
        c < ctls.len(),
        forall|m: usize| #[trigger] ctls@[c as int].mirrored@.contains(m) ==> m < ctls.len(),
    ensures
        final(out)@ == old(out)@ + release_targets(ctls@, a, route_targets(ctls@, c, mirroring)),
{
    let ts = targets_of(ctls, c, mirroring);
    proof {
        ctls@[c as int].mirrored.lemma_members();
        assert forall|j: int| 0 <= j < ts.len() implies (#[trigger] ts@[j]) < ctls.len() by {
            if j > 0 {
                assert(ctls@[c as int].mirrored.members().contains(ts@[j]));
            }
        }
    }
    let len = ts.len();
    let mut j: usize = 0;
    while j < len
        invariant
            len == ts.len(),
            j <= len,
            forall|x: int| 0 <= x < ts.len() ==> (#[trigger] ts@[x]) < ctls.len(),
            out@ == old(out)@ + release_targets(ctls@, a, ts@.take(j as int)),
        decreases len - j,
    {
        proof {
            assert(ts@.take(j + 1).drop_last() =~= ts@.take(j as int));
        }
        match a {
            Action::Simple(k) => {
                out.push(KeySend { window: ctls[ts[j]].window, key: k, kind: SendKind::Up });
            },
            _ => {},
        }
        proof {
            assert(out@ =~= old(out)@ + release_targets(ctls@, a, ts@.take(j + 1)));
        }
        j = j + 1;
    }
    proof {
        assert(ts@.take(len as int) =~= ts@);
    }
}

impl State {
    /// Handles a press of the (canonical) `key`. While any controller is
    /// talking, every talking controller's window first gets a raw key-down of
    /// `key`; otherwise a press of the mirroring-toggle main key flips
    /// mirroring. Then each route under `key` acts on its controller and, with
    /// mirroring on, on the controllers mirroring it. Returns the sends, in
    /// order, for the caller to perform.
    pub fn press(&mut self, key: u32) -> (sends: Vec<KeySend>)
        requires
            old(self).wf(),
        ensures
            final(self).wf(),
            (final(self).mirroring, final(self).talking@, sends@) == old(self).pressed(key),
            final(self).controllers == old(self).controllers,
            final(self).routes == old(self).routes,
            final(self).main_bindings == old(self).main_bindings,
    {
        let any = !self.talking.is_empty();
        let mut sends: Vec<KeySend> = Vec::new();
        if any {
            let ids = members_vec(&self.talking);
            proof {
                self.talking.lemma_members();
                assert forall|j: int| 0 <= j < ids.len() implies (#[trigger] ids@[j])
                    < self.controllers.len() by {
                    assert(self.talking.members().contains(ids@[j]));
                }
            }
            send_raw(&self.controllers, &ids, key, SendKind::Down, &mut sends);
            assert(sends@ =~= raw_sends(self.controllers@, self.talking.members(), key, SendKind::Down));
        }
        let mirroring = if !any && key == self.main_bindings.toggle_mirroring {
            !self.mirroring
        } else {
            self.mirroring
        };
        self.mirroring = mirroring;
        let ghost raw = sends@;
        let ghost talking0 = self.talking@;
        match table_get(&self.routes, key) {
            Some(rs) => {
                let len = rs.len();
                let mut r: usize = 0;
                while r < len
                    invariant
                        len == rs.len(),
                        r <= len,
                        rs@ == routes_under(self.routes@, key),
                        self.controllers == old(self).controllers,
                        self.routes == old(self).routes,
                        self.main_bindings == old(self).main_bindings,
                        self.mirroring == mirroring,
                        old(self).wf(),
                        forall|m: usize| #[trigger] self.talking@.contains(m) ==> m < self.controllers.len(),
                        ({
                            let p = press_routes(
                                self.controllers@,
                                any,
                                mirroring,
                                rs@.take(r as int),
                                (talking0, raw),
                            );
                            self.talking@ == p.0 && sends@ == p.1
                        }),
                    decreases len - r,
                {
                    let (c, a) = rs[r];
                    proof {
                        assert(routes_under(self.routes@, key)[r as int].0 < self.controllers.len());
                    }
                    press_route(&self.controllers, any, mirroring, c, a, &mut self.talking, &mut sends);
                    proof {
                        assert(rs@.take(r + 1).drop_last() =~= rs@.take(r as int));
                    }
                    r = r + 1;
                }
                proof {
                    assert(rs@.take(len as int) =~= rs@);
                }
            },
            None => {
                assert(routes_under(self.routes@, key) =~= Seq::<Route>::empty());
            },
        }
        sends
    }

    /// Handles a release of the (canonical) `key`: while any controller is
    /// talking, every talking controller's window gets a raw key-up of `key`;
    /// otherwise each route under `key` with a simple action sends a key-up of
    /// its main key to its controller and, with mirroring on, to the
    /// controllers mirroring it.
    pub fn release(&self, key: u32) -> (sends: Vec<KeySend>)
        requires
            self.wf(),
        ensures
            sends@ == self.released(key),
    {
        let mut sends: Vec<KeySend> = Vec::new();
        if !self.talking.is_empty() {
            let ids = members_vec(&self.talking);
            proof {
                self.talking.lemma_members();
                assert forall|j: int| 0 <= j < ids.len() implies (#[trigger] ids@[j])
                    < self.controllers.len() by {
                    assert(self.talking.members().contains(ids@[j]));
                }
            }
            send_raw(&self.controllers, &ids, key, SendKind::Up, &mut sends);
            assert(sends@ =~= self.released(key));
        } else {
            match table_get(&self.routes, key) {
                Some(rs) => {
                    let len = rs.len();
                    let mut r: usize = 0;
                    while r < len
                        invariant
                            len == rs.len(),
                            r <= len,
                            rs@ == routes_under(self.routes@, key),
                            self.wf(),
                            sends@ == release_routes(
                                self.controllers@,
                                self.mirroring,
                                rs@.take(r as int),
                            ),
                        decreases len - r,
                    {
                        let (c, a) = rs[r];
                        proof {
                            assert(routes_under(self.routes@, key)[r as int].0
                                < self.controllers.len());
                        }
                        release_route(&self.controllers, self.mirroring, c, a, &mut sends);
                        proof {
                            assert(rs@.take(r + 1).drop_last() =~= rs@.take(r as int));
                        }
                        r = r + 1;
                    }
                    proof {
                        assert(rs@.take(len as int) =~= rs@);
                    }
                },
                None => {},
            }
        }
        sends
    }
}

} // verus!
