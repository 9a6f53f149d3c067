//! The room registry: the single source of truth for room membership.
//!
//! Membership is a finite relation between connection identifiers and room
//! names, held as a sequence of (connection, room) entries in join order.
//! All operations are defensive: leaving a room one is not in, or reading an
//! unknown room, is a no-op / empty result, never an error. A room exists
//! exactly while it has members: an empty room and an absent room are
//! indistinguishable through this interface.

use vstd::prelude::*;
use crate::seq_facts::lemma_filter_contains_iff;
use crate::seq_facts::lemma_filter_no_duplicates;

verus! {

/// One membership entry: a connection that is a member of a room.
pub struct MemberEntry {
    pub conn: u64,
    pub room: String,
}

/// The (connection, room name) pair that an entry stands for.
pub open spec fn entry_pair(e: MemberEntry) -> (u64, Seq<char>) {
    (e.conn, e.room@)
}

/// Predicate on membership pairs: the pair does not belong to `conn`.
pub open spec fn not_conn(conn: u64) -> spec_fn((u64, Seq<char>)) -> bool {
    |p: (u64, Seq<char>)| p.0 != conn
}

/// Predicate on membership pairs: the pair differs from (`conn`, `room`).
pub open spec fn not_pair(conn: u64, room: Seq<char>) -> spec_fn((u64, Seq<char>)) -> bool {
    |p: (u64, Seq<char>)| p != (conn, room)
}

/// Predicate on membership pairs: the pair's room is `room`.
pub open spec fn in_room(room: Seq<char>) -> spec_fn((u64, Seq<char>)) -> bool {
    |p: (u64, Seq<char>)| p.1 == room
}

/// Projection of a membership pair to its connection.
pub open spec fn pair_conn() -> spec_fn((u64, Seq<char>)) -> u64 {
    |p: (u64, Seq<char>)| p.0
}

/// The member connections of `room` in `v`, in entry (join) order.
pub open spec fn members_seq(v: Seq<(u64, Seq<char>)>, room: Seq<char>) -> Seq<u64> {
    v.filter(in_room(room)).map_values(pair_conn())
}

/// Maps room names to the set of member connections, kept as a flat
/// sequence of pairs.
pub struct RoomRegistry {
    entries: Vec<MemberEntry>,
}

impl View for RoomRegistry {
    type V = Seq<(u64, Seq<char>)>;

    closed spec fn view(&self) -> Seq<(u64, Seq<char>)> {
        self.entries@.map_values(|e: MemberEntry| entry_pair(e))
    }
}

impl RoomRegistry {
    /// Well-formed: no (connection, room) pair occurs twice.
    pub open spec fn wf(&self) -> bool {
        self@.no_duplicates()
    }

    /// A fresh registry with no members anywhere.
    pub fn new() -> (r: RoomRegistry)
        ensures
            r@ == Seq::<(u64, Seq<char>)>::empty(),
            r.wf(),
    {
        let r = RoomRegistry { entries: Vec::new() };
        proof {
            assert(r@ =~= Seq::<(u64, Seq<char>)>::empty());
        }
        r
    }

    /// Whether `conn` is currently a member of `room`.
    pub fn is_member(&self, conn: u64, room: &String) -> (r: bool)
        ensures
            r == self@.contains((conn, room@)),
    {
        let n = self.entries.len();
        let mut i: usize = 0;
        while i < n
            invariant
                n == self.entries.len(),
                i <= n,
                forall|j: int| 0 <= j < i ==> self@[j] != (conn, room@),
            decreases n - i,
        {
            let e = &self.entries[i];
            if e.conn == conn && e.room == *room {
                proof {
                    assert(self@[i as int] == (conn, room@));
                }
                return true;
            }
            i += 1;
        }
        proof {
            assert(forall|j: int| 0 <= j < self@.len() ==> self@[j] != (conn, room@));
            assert(!self@.contains((conn, room@)));
        }
        false
    }

    /// Adds `conn` to `room`, creating the room implicitly. Idempotent:
    /// joining a room the connection already belongs to changes nothing.
    pub fn join(&mut self, conn: u64, room: String)
        requires
            old(self).wf(),
        ensures
            final(self).wf(),
            final(self)@ == if old(self)@.contains((conn, room@)) {
                old(self)@
            } else {
                old(self)@.push((conn, room@))
            },
    {
        if !self.is_member(conn, &room) {
            let ghost prev = self@;
            let ghost x = (conn, room@);
            self.entries.push(MemberEntry { conn, room });
            proof {
                assert(self@ =~= prev.push(x));
                assert forall|i: int, j: int|
                    0 <= i < self@.len() && 0 <= j < self@.len() && i != j
                    implies self@[i] != self@[j] by {
                    if i < prev.len() && j < prev.len() {
                        assert(self@[i] == prev[i] && self@[j] == prev[j]);
                    } else if j == prev.len() {
                        assert(self@[j] == x && self@[i] == prev[i]);
                        if prev[i] == x {
                            assert(prev.contains(x));
                        }
                    } else {
                        assert(self@[i] == x && self@[j] == prev[j]);
                        if prev[j] == x {
                            assert(prev.contains(x));
                        }
                    }
                }
            }
        }
    }

    /// Removes `conn` from `room`. A no-op if the connection is not a
    /// member or the room does not exist.
    pub fn leave(&mut self, conn: u64, room: &String)
        requires
            old(self).wf(),
        ensures
            final(self).wf(),
            final(self)@ == old(self)@.filter(not_pair(conn, room@)),
    {
        let ghost pred = not_pair(conn, room@);
        let n = self.entries.len();
        let mut kept: Vec<MemberEntry> = Vec::new();
        let mut i: usize = 0;
        while i < n
            invariant
                n == self.entries.len(),
                i <= n,
                self@ == old(self)@,
                pred == not_pair(conn, room@),
                kept@.map_values(|e: MemberEntry| entry_pair(e))
                    == self@.take(i as int).filter(pred),
            decreases n - i,
        {
            let ghost kept_pairs = kept@.map_values(|e: MemberEntry| entry_pair(e));
            let e = &self.entries[i];
            proof {
                assert(self@[i as int] == entry_pair(self.entries@[i as int]));
            }
            if !(e.conn == conn && e.room == *room) {
                kept.push(MemberEntry { conn: e.conn, room: e.room.clone() });
                proof {
                    assert(kept@.map_values(|e: MemberEntry| entry_pair(e))
                        =~= kept_pairs.push(self@[i as int]));
                }
            }
            proof {
                Seq::lemma_take_succ_push(self@, i as int);
                Seq::lemma_filter_push(self@.take(i as int), self@[i as int], pred);
            }
            i += 1;
        }
        proof {
            assert(self@.take(n as int) =~= self@);
        }
        self.entries = kept;
        proof {
            lemma_filter_no_duplicates(old(self)@, pred);
        }
    }

    /// Removes `conn` from every room it belongs to; used both to switch
    /// rooms and for disconnect cleanup.
    pub fn leave_all(&mut self, conn: u64)
        requires
            old(self).wf(),
        ensures
            final(self).wf(),
            final(self)@ == old(self)@.filter(not_conn(conn)),
    {
        let ghost pred = not_conn(conn);
        let n = self.entries.len();
        let mut kept: Vec<MemberEntry> = Vec::new();
        let mut i: usize = 0;
        while i < n
            invariant
                n == self.entries.len(),
                i <= n,
                self@ == old(self)@,
                pred == not_conn(conn),
                kept@.map_values(|e: MemberEntry| entry_pair(e))
                    == self@.take(i as int).filter(pred),
            decreases n - i,
        {
            let ghost kept_pairs = kept@.map_values(|e: MemberEntry| entry_pair(e));
            let e = &self.entries[i];
            proof {
                assert(self@[i as int] == entry_pair(self.entries@[i as int]));
            }
            if !(e.conn == conn) {
                kept.push(MemberEntry { conn: e.conn, room: e.room.clone() });
                proof {
                    assert(kept@.map_values(|e: MemberEntry| entry_pair(e))
                        =~= kept_pairs.push(self@[i as int]));
                }
            }
            proof {
                Seq::lemma_take_succ_push(self@, i as int);
                Seq::lemma_filter_push(self@.take(i as int), self@[i as int], pred);
            }
            i += 1;
        }
        proof {
            assert(self@.take(n as int) =~= self@);
        }
        self.entries = kept;
        proof {
            lemma_filter_no_duplicates(old(self)@, pred);
        }
    }

    /// The current members of `room`, in join order: a snapshot that does
    /// not stay valid across later mutation. Unknown rooms give an empty
    /// result.
    pub fn members_of(&self, room: &String) -> (r: Vec<u64>)
        ensures
            r@ == members_seq(self@, room@),
    {
        let ghost pred = in_room(room@);
        let n = self.entries.len();
        let mut found: Vec<u64> = Vec::new();
        let mut i: usize = 0;
        while i < n
            invariant
                n == self.entries.len(),
                i <= n,
                pred == in_room(room@),
                found@ == members_seq(self@.take(i as int), room@),
            decreases n - i,
        {
            let e = &self.entries[i];
            proof {
                assert(self@[i as int] == entry_pair(self.entries@[i as int]));
            }
            if e.room == *room {
                found.push(e.conn);
                proof {
                    Seq::lemma_push_map_commute(
                        self@.take(i as int).filter(pred),
                        pair_conn(),
                        self@[i as int],
                    );
                }
            }
            proof {
                Seq::lemma_take_succ_push(self@, i as int);
                Seq::lemma_filter_push(self@.take(i as int), self@[i as int], pred);
            }
            i += 1;
        }
        proof {
            assert(self@.take(n as int) =~= self@);
        }
        found
    }
}

/// Membership in a filtered relation: kept exactly when the predicate
/// admits the pair. Restated here over registry pairs for the callers of
/// `leave` and `leave_all`.
pub proof fn lemma_member_after_filter(
    v: Seq<(u64, Seq<char>)>,
    pred: spec_fn((u64, Seq<char>)) -> bool,
    p: (u64, Seq<char>),
)
    ensures
        v.filter(pred).contains(p) <==> v.contains(p) && pred(p),
{
    lemma_filter_contains_iff(v, pred, p);
}

} // verus!
