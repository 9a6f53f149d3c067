//! The protocol model: gateway state as a whole, one step per inbound
//! signal, and the laws that hold of every run.
//!
//! The exec operations of `Gateway` each ensure that the new state is
//! `step` of the old one, so everything proved here about `run` holds of
//! any sequence of calls on a gateway that started empty.

use vstd::prelude::*;
use crate::registry::not_conn;
use crate::seq_facts::lemma_filter_contains_iff;
use crate::seq_facts::lemma_filter_no_duplicates;

verus! {

/// One inbound signal, as the gateway sees it: the two transport-level
/// lifecycle signals and the two event kinds of the wire contract.
pub enum Event {
    /// Transport-level connect of a connection.
    Connect(u64),
    /// Inbound `join` event: the connection and the room name.
    Join(u64, Seq<char>),
    /// Inbound `message` event: sender, target room, text. Leaves
    /// membership unchanged.
    Message(u64, Seq<char>, Seq<char>),
    /// Transport-level disconnect of a connection.
    Disconnect(u64),
}

/// The abstract gateway state: the live connections and the membership
/// relation, both in registration/join order.
pub struct GatewayState {
    pub conns: Seq<u64>,
    pub mem: Seq<(u64, Seq<char>)>,
}

/// Predicate on connection identifiers: different from `conn`.
pub open spec fn other_conn(conn: u64) -> spec_fn(u64) -> bool {
    |x: u64| x != conn
}

/// The state of a gateway that has seen nothing yet.
pub open spec fn init() -> GatewayState {
    GatewayState { conns: Seq::empty(), mem: Seq::empty() }
}

/// Whether `conn` is currently a member of `room`.
pub open spec fn is_member(s: GatewayState, conn: u64, room: Seq<char>) -> bool {
    s.mem.contains((conn, room))
}

/// The gateway's internal consistency: live connections are distinct, no
/// connection appears in the membership relation twice (the router's
/// single-room policy), and every member is a live connection (the
/// registry holds references only to connections the lifecycle manager
/// still owns).
pub open spec fn inv(s: GatewayState) -> bool {
    &&& s.conns.no_duplicates()
    &&& forall|i: int, j: int|
        0 <= i < s.mem.len() && 0 <= j < s.mem.len() && i != j
            ==> (#[trigger] s.mem[i]).0 != (#[trigger] s.mem[j]).0
    &&& forall|i: int| 0 <= i < s.mem.len() ==> s.conns.contains((#[trigger] s.mem[i]).0)
}

/// How one inbound signal transforms the state. A `join` from a live
/// connection leaves every room and then joins the named one; signals
/// from or about unknown connections are no-ops; a disconnect removes the
/// connection and all its memberships.
pub open spec fn step(s: GatewayState, e: Event) -> GatewayState {
    match e {
        Event::Connect(c) => if s.conns.contains(c) {
            s
        } else {
            GatewayState { conns: s.conns.push(c), mem: s.mem }
        },
        Event::Join(c, room) => if s.conns.contains(c) {
            GatewayState { conns: s.conns, mem: s.mem.filter(not_conn(c)).push((c, room)) }
        } else {
            s
        },
        Event::Message(_c, _room, _text) => s,
        Event::Disconnect(c) => GatewayState {
            conns: s.conns.filter(other_conn(c)),
            mem: s.mem.filter(not_conn(c)),
        },
    }
}

/// The state after a whole sequence of signals, starting from nothing.
pub open spec fn run(es: Seq<Event>) -> GatewayState
    decreases es.len(),
{
    if es.len() == 0 {
        init()
    } else {
        step(run(es.drop_last()), es.last())
    }
}

/// Distinct membership conns survive filtering.
proof fn lemma_filter_keeps_distinct_conns(
    mem: Seq<(u64, Seq<char>)>,
    pred: spec_fn((u64, Seq<char>)) -> bool,
)
    requires
        forall|i: int, j: int|
            0 <= i < mem.len() && 0 <= j < mem.len() && i != j
                ==> (#[trigger] mem[i]).0 != (#[trigger] mem[j]).0,
    ensures
        forall|i: int, j: int|
            0 <= i < mem.filter(pred).len() && 0 <= j < mem.filter(pred).len() && i != j
                ==> (#[trigger] mem.filter(pred)[i]).0 != (#[trigger] mem.filter(pred)[j]).0,
{
    let f = mem.filter(pred);
    assert(mem.no_duplicates());
    lemma_filter_no_duplicates(mem, pred);
    assert forall|i: int, j: int|
        0 <= i < f.len() && 0 <= j < f.len() && i != j
        implies (#[trigger] f[i]).0 != (#[trigger] f[j]).0 by {
        if f[i].0 == f[j].0 {
            assert(f[i] != f[j]);
            assert(f.contains(f[i]));
            assert(f.contains(f[j]));
            Seq::lemma_filter_contains_rev(mem, pred, f[i]);
            Seq::lemma_filter_contains_rev(mem, pred, f[j]);
            let a = choose|a: int| 0 <= a < mem.len() && mem[a] == f[i];
            let b = choose|b: int| 0 <= b < mem.len() && mem[b] == f[j];
            assert(a != b);
        }
    }
}

/// A member of any room is a live connection.
pub proof fn lemma_member_live(s: GatewayState, conn: u64, room: Seq<char>)
    requires
        inv(s),
        is_member(s, conn, room),
    ensures
        s.conns.contains(conn),
{
    let i = choose|i: int| 0 <= i < s.mem.len() && s.mem[i] == (conn, room);
    assert(s.conns.contains(s.mem[i].0));
}

/// Every step preserves the gateway invariant.
pub proof fn lemma_step_preserves_inv(s: GatewayState, e: Event)
    requires
        inv(s),
    ensures
        inv(step(s, e)),
{
    let s1 = step(s, e);
    match e {
        Event::Connect(c) => {
            if !s.conns.contains(c) {
                assert forall|i: int, j: int|
                    0 <= i < s1.conns.len() && 0 <= j < s1.conns.len() && i != j
                    implies s1.conns[i] != s1.conns[j] by {
                    if i < s.conns.len() && j < s.conns.len() {
                        assert(s1.conns[i] == s.conns[i] && s1.conns[j] == s.conns[j]);
                    } else if j == s.conns.len() {
                        assert(s1.conns[j] == c && s1.conns[i] == s.conns[i]);
                        if s.conns[i] == c {
                            assert(s.conns.contains(c));
                        }
                    } else {
                        assert(s1.conns[i] == c && s1.conns[j] == s.conns[j]);
                        if s.conns[j] == c {
                            assert(s.conns.contains(c));
                        }
                    }
                }
                assert forall|i: int| 0 <= i < s1.mem.len()
                    implies s1.conns.contains((#[trigger] s1.mem[i]).0) by {
                    assert(s.conns.contains(s.mem[i].0));
                    let k = choose|k: int| 0 <= k < s.conns.len() && s.conns[k] == s.mem[i].0;
                    assert(s1.conns[k] == s.mem[i].0);
                }
            }
        },
        Event::Join(c, room) => {
            if s.conns.contains(c) {
                let f = s.mem.filter(not_conn(c));
                lemma_filter_keeps_distinct_conns(s.mem, not_conn(c));
                assert forall|i: int, j: int|
                    0 <= i < s1.mem.len() && 0 <= j < s1.mem.len() && i != j
                    implies (#[trigger] s1.mem[i]).0 != (#[trigger] s1.mem[j]).0 by {
                    if i < f.len() && j < f.len() {
                        assert(s1.mem[i] == f[i] && s1.mem[j] == f[j]);
                    } else if j == f.len() {
                        assert(s1.mem[j] == (c, room) && s1.mem[i] == f[i]);
                        Seq::lemma_filter_pred(s.mem, not_conn(c), i);
                    } else {
                        assert(s1.mem[i] == (c, room) && s1.mem[j] == f[j]);
                        Seq::lemma_filter_pred(s.mem, not_conn(c), j);
                    }
                }
                assert forall|i: int| 0 <= i < s1.mem.len()
                    implies s1.conns.contains((#[trigger] s1.mem[i]).0) by {
                    if i < f.len() {
                        assert(s1.mem[i] == f[i]);
                        assert(f.contains(f[i]));
                        Seq::lemma_filter_contains_rev(s.mem, not_conn(c), f[i]);
                        let a = choose|a: int| 0 <= a < s.mem.len() && s.mem[a] == f[i];
                        assert(s.conns.contains(s.mem[a].0));
                    } else {
                        assert(s1.mem[i] == (c, room));
                    }
                }
            }
        },
        Event::Message(_c, _room, _text) => {},
        Event::Disconnect(c) => {
            lemma_filter_no_duplicates(s.conns, other_conn(c));
            lemma_filter_keeps_distinct_conns(s.mem, not_conn(c));
            let f = s.mem.filter(not_conn(c));
            assert forall|i: int| 0 <= i < s1.mem.len()
                implies s1.conns.contains((#[trigger] s1.mem[i]).0) by {
                assert(s1.mem[i] == f[i]);
                assert(f.contains(f[i]));
                Seq::lemma_filter_pred(s.mem, not_conn(c), i);
                Seq::lemma_filter_contains_rev(s.mem, not_conn(c), f[i]);
                let a = choose|a: int| 0 <= a < s.mem.len() && s.mem[a] == f[i];
                assert(s.conns.contains(s.mem[a].0));
                lemma_filter_contains_iff(s.conns, other_conn(c), f[i].0);
            }
        },
    }
}

/// The invariant holds after any run.
pub proof fn lemma_run_inv(es: Seq<Event>)
    ensures
        inv(run(es)),
    decreases es.len(),
{
    if es.len() == 0 {
    } else {
        lemma_run_inv(es.drop_last());
        lemma_step_preserves_inv(run(es.drop_last()), es.last());
    }
}

/// Single-room policy: after any sequence of signals, a connection is a
/// member of at most one room.
pub proof fn lemma_single_room(es: Seq<Event>, conn: u64, room1: Seq<char>, room2: Seq<char>)
    requires
        is_member(run(es), conn, room1),
        is_member(run(es), conn, room2),
    ensures
        room1 == room2,
{
    lemma_run_inv(es);
    let s = run(es);
    let i = choose|i: int| 0 <= i < s.mem.len() && s.mem[i] == (conn, room1);
    let j = choose|j: int| 0 <= j < s.mem.len() && s.mem[j] == (conn, room2);
    if i != j {
        assert(s.mem[i].0 != s.mem[j].0);
    }
}

/// Filtering twice by the same predicate filters once.
proof fn lemma_filter_idempotent<A>(s: Seq<A>, pred: spec_fn(A) -> bool)
    ensures
        s.filter(pred).filter(pred) == s.filter(pred),
    decreases s.len(),
{
    reveal(Seq::filter);
    if s.len() > 0 {
        let rest = s.drop_last();
        lemma_filter_idempotent(rest, pred);
        if pred(s.last()) {
            Seq::lemma_filter_push(rest.filter(pred), s.last(), pred);
        }
    }
}

/// Idempotent join: joining the same room twice in succession leaves the
/// state exactly as joining it once does.
pub proof fn lemma_idempotent_join(s: GatewayState, conn: u64, room: Seq<char>)
    ensures
        step(step(s, Event::Join(conn, room)), Event::Join(conn, room))
            == step(s, Event::Join(conn, room)),
{
    if s.conns.contains(conn) {
        let f = s.mem.filter(not_conn(conn));
        let s1 = step(s, Event::Join(conn, room));
        assert(s1.mem == f.push((conn, room)));
        Seq::lemma_filter_push(f, (conn, room), not_conn(conn));
        lemma_filter_idempotent(s.mem, not_conn(conn));
        assert(s1.mem.filter(not_conn(conn)) == f);
    }
}

/// Whether `e` keeps an existing membership of `conn` in `room` intact:
/// anything but a disconnect of `conn` or a join by `conn` to some other
/// room.
pub open spec fn keeps(e: Event, conn: u64, room: Seq<char>) -> bool {
    match e {
        Event::Disconnect(c2) => c2 != conn,
        Event::Join(c2, r2) => c2 != conn || r2 == room,
        _ => true,
    }
}

/// Index `i` witnesses the membership of `conn` in `room` after `es`: a
/// successful join of `room` there (the connection was live when it was
/// processed) that no later signal has undone.
pub open spec fn witnessed_join(es: Seq<Event>, conn: u64, room: Seq<char>, i: int) -> bool {
    &&& 0 <= i < es.len()
    &&& es[i] == Event::Join(conn, room)
    &&& run(es.take(i)).conns.contains(conn)
    &&& forall|j: int| i < j < es.len() ==> keeps(#[trigger] es[j], conn, room)
}

/// Appending a signal that is no join by `conn` and keeps its membership
/// neither adds nor removes witnesses.
proof fn lemma_witness_unchanged(es: Seq<Event>, conn: u64, room: Seq<char>)
    requires
        es.len() > 0,
        keeps(es[es.len() - 1], conn, room),
        forall|r2: Seq<char>| es[es.len() - 1] != Event::Join(conn, r2),
    ensures
        (exists|i: int| witnessed_join(es, conn, room, i))
            <==> (exists|i: int| witnessed_join(es.drop_last(), conn, room, i)),
{
    let es0 = es.drop_last();
    let n0 = es0.len() as int;
    assert forall|i: int| 0 <= i <= n0 implies es.take(i) == es0.take(i) by {
        assert(es.take(i) =~= es0.take(i));
    }
    if exists|i: int| witnessed_join(es, conn, room, i) {
        let i = choose|i: int| witnessed_join(es, conn, room, i);
        assert(es[n0] != Event::Join(conn, room));
        assert(i < n0);
        assert forall|j: int| i < j < n0 implies keeps(#[trigger] es0[j], conn, room) by {
            assert(es0[j] == es[j]);
            assert(keeps(es[j], conn, room));
        }
        assert(witnessed_join(es0, conn, room, i));
    }
    if exists|i: int| witnessed_join(es0, conn, room, i) {
        let i = choose|i: int| witnessed_join(es0, conn, room, i);
        assert forall|j: int| i < j < es.len() implies keeps(#[trigger] es[j], conn, room) by {
            if j < n0 {
                assert(es[j] == es0[j]);
                assert(keeps(es0[j], conn, room));
            }
        }
        assert(es[i] == es0[i]);
        assert(witnessed_join(es, conn, room, i));
    }
}

/// No witness survives a signal that undoes the membership.
proof fn lemma_witness_killed(es: Seq<Event>, conn: u64, room: Seq<char>)
    requires
        es.len() > 0,
        !keeps(es[es.len() - 1], conn, room),
    ensures
        !(exists|i: int| witnessed_join(es, conn, room, i)),
{
    let n0 = es.len() - 1;
    assert forall|i: int| !witnessed_join(es, conn, room, i) by {
        if 0 <= i < es.len() {
            if i < n0 {
                assert(!keeps(es[n0], conn, room));
            } else {
                assert(es[i] == es[n0]);
                if es[i] == Event::Join(conn, room) {
                    assert(keeps(es[n0], conn, room));
                }
            }
        }
    }
}

/// Membership consistency: after any sequence of signals, `conn` is a
/// member of `room` exactly when its last join was a successful join of
/// `room` and no later disconnect (or join elsewhere) has undone it.
pub proof fn lemma_membership_consistency(es: Seq<Event>, conn: u64, room: Seq<char>)
    ensures
        is_member(run(es), conn, room)
            <==> exists|i: int| witnessed_join(es, conn, room, i),
    decreases es.len(),
{
    if es.len() == 0 {
        assert(!init().mem.contains((conn, room)));
    } else {
        let es0 = es.drop_last();
        let e = es.last();
        let n0 = es0.len() as int;
        let s0 = run(es0);
        let s1 = run(es);
        lemma_membership_consistency(es0, conn, room);
        lemma_run_inv(es0);
        assert(s1 == step(s0, e));
        assert(es.take(n0) == es0) by {
            assert(es.take(n0) =~= es0);
        }
        match e {
            Event::Join(c2, r2) => {
                if c2 == conn {
                    if s0.conns.contains(conn) {
                        if r2 == room {
                            // the new join is itself a witness, and membership holds
                            assert(s1.mem[s1.mem.len() - 1] == (conn, room));
                            assert(s1.mem.contains((conn, room)));
                            assert(witnessed_join(es, conn, room, n0));
                        } else {
                            // joined elsewhere: membership gone, witnesses killed
                            let f = s0.mem.filter(not_conn(conn));
                            lemma_filter_contains_iff(s0.mem, not_conn(conn), (conn, room));
                            if s1.mem.contains((conn, room)) {
                                let k = choose|k: int|
                                    0 <= k < s1.mem.len() && s1.mem[k] == (conn, room);
                                if k < f.len() {
                                    assert(f.contains((conn, room)));
                                } else {
                                    assert(s1.mem[k] == (conn, r2));
                                }
                            }
                            assert(!keeps(es[n0], conn, room));
                            lemma_witness_killed(es, conn, room);
                        }
                    } else {
                        // join from a dead connection: no-op, and membership
                        // would contradict the invariant
                        if is_member(s0, conn, room) {
                            lemma_member_live(s0, conn, room);
                        }
                        assert(!is_member(s1, conn, room));
                        assert forall|i: int| !witnessed_join(es, conn, room, i) by {
                            if 0 <= i < es.len() {
                                if i == n0 {
                                    assert(run(es.take(n0)) == s0);
                                    assert(!run(es.take(i)).conns.contains(conn));
                                } else if witnessed_join(es, conn, room, i) {
                                    assert(es.take(i) == es0.take(i)) by {
                                        assert(es.take(i) =~= es0.take(i));
                                    }
                                    assert forall|j: int| i < j < n0
                                        implies keeps(#[trigger] es0[j], conn, room) by {
                                        assert(es0[j] == es[j]);
                                        assert(keeps(es[j], conn, room));
                                    }
                                    assert(es0[i] == es[i]);
                                    assert(witnessed_join(es0, conn, room, i));
                                    assert(is_member(s0, conn, room));
                                }
                            }
                        }
                    }
                } else {
                    // someone else's join: c2's memberships change, conn's don't
                    if s0.conns.contains(c2) {
                        let f = s0.mem.filter(not_conn(c2));
                        lemma_filter_contains_iff(s0.mem, not_conn(c2), (conn, room));
                        assert(is_member(s1, conn, room) <==> is_member(s0, conn, room)) by {
                            if f.contains((conn, room)) {
                                let k = choose|k: int| 0 <= k < f.len() && f[k] == (conn, room);
                                assert(s1.mem[k] == (conn, room));
                            }
                            if s1.mem.contains((conn, room)) {
                                let k = choose|k: int|
                                    0 <= k < s1.mem.len() && s1.mem[k] == (conn, room);
                                if k < f.len() {
                                    assert(f.contains((conn, room)));
                                } else {
                                    assert(s1.mem[k] == (c2, r2));
                                }
                            }
                        }
                    }
                    assert(keeps(es[n0], conn, room));
                    assert forall|r3: Seq<char>| es[n0] != Event::Join(conn, r3) by {}
                    lemma_witness_unchanged(es, conn, room);
                }
            },
            Event::Connect(_c2) => {
                assert(s1.mem == s0.mem);
                assert(keeps(es[n0], conn, room));
                lemma_witness_unchanged(es, conn, room);
            },
            Event::Message(_c2, _r2, _t2) => {
                assert(keeps(es[n0], conn, room));
                lemma_witness_unchanged(es, conn, room);
            },
            Event::Disconnect(c2) => {
                if c2 == conn {
                    lemma_filter_contains_iff(s0.mem, not_conn(conn), (conn, room));
                    assert(!is_member(s1, conn, room));
                    assert(!keeps(es[n0], conn, room));
                    lemma_witness_killed(es, conn, room);
                } else {
                    lemma_filter_contains_iff(s0.mem, not_conn(c2), (conn, room));
                    assert(is_member(s1, conn, room) <==> is_member(s0, conn, room));
                    assert(keeps(es[n0], conn, room));
                    lemma_witness_unchanged(es, conn, room);
                }
            },
        }
    }
}

/// Disconnect cleanup: after a connection disconnects it is a member of no
/// room, and no later fan-out in the new state addresses it.
pub proof fn lemma_disconnect_cleanup(
    s: GatewayState,
    conn: u64,
    sender: u64,
    room: Seq<char>,
    text: Seq<char>,
    date_millis: i64,
)
    ensures
        !is_member(step(s, Event::Disconnect(conn)), conn, room),
        forall|i: int|
            0 <= i < crate::router::fanout(
                step(s, Event::Disconnect(conn)).mem,
                sender,
                room,
                text,
                date_millis,
            ).len() ==> crate::router::fanout(
                step(s, Event::Disconnect(conn)).mem,
                sender,
                room,
                text,
                date_millis,
            )[i].target != conn,
{
    let m1 = step(s, Event::Disconnect(conn)).mem;
    lemma_filter_contains_iff(s.mem, not_conn(conn), (conn, room));
    let f2 = m1.filter(crate::registry::in_room(room));
    assert forall|i: int|
        0 <= i < crate::router::fanout(m1, sender, room, text, date_millis).len()
        implies crate::router::fanout(m1, sender, room, text, date_millis)[i].target != conn by {
        assert(crate::router::fanout(m1, sender, room, text, date_millis)[i].target == f2[i].0);
        assert(f2.contains(f2[i]));
        Seq::lemma_filter_contains_rev(m1, crate::registry::in_room(room), f2[i]);
        let k = choose|k: int| 0 <= k < m1.len() && m1[k] == f2[i];
        Seq::lemma_filter_pred(s.mem, not_conn(conn), k);
    }
}

} // verus!
