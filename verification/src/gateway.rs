//! The connection lifecycle manager, wired to the router and the registry.
//!
//! A `Gateway` owns the room registry and the set of live connections. The
//! transport layer reports connects and disconnects and hands over inbound
//! `join` and `message` events; the gateway mutates membership and computes
//! fan-outs. Every operation ensures that the new state is `step` of the
//! old one, so the laws proved in `model` hold of any sequence of calls.

use vstd::prelude::*;
use crate::clock::now_millis;
use crate::model::Event;
use crate::model::GatewayState;
use crate::model::init;
use crate::model::inv;
use crate::model::lemma_step_preserves_inv;
use crate::model::other_conn;
use crate::model::step;
use crate::registry::RoomRegistry;
use crate::registry::members_seq;
use crate::router::Emit;
use crate::router::fanout;
use crate::router::route_join;
use crate::router::route_message;

verus! {

/// Tracks the live connections and owns the room registry.
pub struct Gateway {
    conns: Vec<u64>,
    reg: RoomRegistry,
}

impl View for Gateway {
    type V = GatewayState;

    closed spec fn view(&self) -> GatewayState {
        GatewayState { conns: self.conns@, mem: self.reg@ }
    }
}

impl Gateway {
    /// Well-formed: the gateway invariant of the model.
    pub open spec fn wf(&self) -> bool {
        inv(self@)
    }

    /// A gateway with no connections and no rooms.
    pub fn new() -> (g: Gateway)
        ensures
            g@ == init(),
            g.wf(),
    {
        let g = Gateway { conns: Vec::new(), reg: RoomRegistry::new() };
        proof {
            assert(g@.conns =~= init().conns);
            assert(g@.mem =~= init().mem);
        }
        g
    }

    /// Whether `conn` is currently registered as live.
    pub fn is_connected(&self, conn: u64) -> (r: bool)
        ensures
            r == self@.conns.contains(conn),
    {
        let n = self.conns.len();
        let mut i: usize = 0;
        while i < n
            invariant
                n == self.conns.len(),
                i <= n,
                forall|j: int| 0 <= j < i ==> self@.conns[j] != conn,
            decreases n - i,
        {
            if self.conns[i] == conn {
                return true;
            }
            i += 1;
        }
        false
    }

    /// Whether `conn` is currently a member of `room`.
    pub fn is_member(&self, conn: u64, room: &String) -> (r: bool)
        ensures
            r == crate::model::is_member(self@, conn, room@),
    {
        self.reg.is_member(conn, room)
    }

    /// The current members of `room`, in join order.
    pub fn members_of(&self, room: &String) -> (r: Vec<u64>)
        ensures
            r@ == members_seq(self@.mem, room@),
    {
        self.reg.members_of(room)
    }

    /// Transport-level connect: registers the connection. Registering an
    /// already-live identifier changes nothing.
    pub fn on_connect(&mut self, conn: u64)
        requires
            old(self).wf(),
        ensures
            final(self).wf(),
            final(self)@ == step(old(self)@, Event::Connect(conn)),
    {
        if !self.is_connected(conn) {
            self.conns.push(conn);
        }
        proof {
            lemma_step_preserves_inv(old(self)@, Event::Connect(conn));
        }
    }

    /// Inbound `join` event from a live connection: leave every room, then
    /// join the named one. A join from an unregistered identifier is a
    /// no-op.
    pub fn on_join(&mut self, conn: u64, room: String)
        requires
            old(self).wf(),
        ensures
            final(self).wf(),
            final(self)@ == step(old(self)@, Event::Join(conn, room@)),
    {
        if self.is_connected(conn) {
            proof {
                assert(self.reg@.no_duplicates());
            }
            route_join(&mut self.reg, conn, room);
        }
        proof {
            lemma_step_preserves_inv(old(self)@, Event::Join(conn, room@));
        }
    }

    /// Inbound `message` event: computes the fan-out from the target
    /// room's current membership, stamping each record with the present
    /// wall-clock time. Membership does not change; delivery itself is the
    /// transport's job, fire-and-forget per recipient.
    pub fn on_message(&self, sender: u64, room: &String, text: &String) -> (r: Vec<Emit>)
        ensures
            exists|d: i64|
                r@.map_values(|e: Emit| e@) == fanout(self@.mem, sender, room@, text@, d),
    {
        let date_millis = now_millis();
        let out = route_message(&self.reg, sender, room, text, date_millis);
        proof {
            assert(out@.map_values(|e: Emit| e@)
                == fanout(self@.mem, sender, room@, text@, date_millis));
        }
        out
    }

    /// Transport-level disconnect: removes the connection from every room
    /// it belonged to, then discards its record. The only point at which
    /// membership is cleaned up for a connection that never left.
    pub fn on_disconnect(&mut self, conn: u64)
        requires
            old(self).wf(),
        ensures
            final(self).wf(),
            final(self)@ == step(old(self)@, Event::Disconnect(conn)),
    {
        let ghost pred = other_conn(conn);
        let n = self.conns.len();
        let mut kept: Vec<u64> = Vec::new();
        let mut i: usize = 0;
        while i < n
            invariant
                n == self.conns.len(),
                i <= n,
                self@.conns == old(self)@.conns,
                pred == other_conn(conn),
                kept@ == self@.conns.take(i as int).filter(pred),
            decreases n - i,
        {
            let c = self.conns[i];
            if !(c == conn) {
                kept.push(c);
            }
            proof {
                Seq::lemma_take_succ_push(self@.conns, i as int);
                Seq::lemma_filter_push(self@.conns.take(i as int), self@.conns[i as int], pred);
            }
            i += 1;
        }
        proof {
            assert(self@.conns.take(n as int) =~= self@.conns);
        }
        self.conns = kept;
        proof {
            assert forall|a: int, b: int|
                0 <= a < self.reg@.len() && 0 <= b < self.reg@.len() && a != b
                implies self.reg@[a] != self.reg@[b] by {
                assert(old(self)@.mem[a].0 != old(self)@.mem[b].0);
            }
        }
        self.reg.leave_all(conn);
        proof {
            lemma_step_preserves_inv(old(self)@, Event::Disconnect(conn));
        }
    }
}

} // verus!
