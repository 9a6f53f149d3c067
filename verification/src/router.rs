//! The message router: interprets inbound `join` and `message` events.
//!
//! A `join` switches the sender to the named room (leave everything, then
//! join), enforcing the single-room-at-a-time policy on top of the
//! multi-room-capable registry. A `message` computes the fan-out set from
//! the room's current membership snapshot and produces one outbound record
//! per member — including the sender, if the sender is a member.

use vstd::prelude::*;
use crate::label::label_chars;
use crate::label::user_label;
use crate::registry::RoomRegistry;
use crate::registry::in_room;
use crate::registry::members_seq;
use crate::registry::not_conn;
use crate::registry::lemma_member_after_filter;
use crate::seq_facts::lemma_filter_contains_iff;
use crate::seq_facts::lemma_filter_no_duplicates;

verus! {

/// One outbound delivery: the record every member of the target room
/// receives, addressed to one member.
pub struct Emit {
    /// The connection this record is delivered to.
    pub target: u64,
    /// The message body, relayed verbatim.
    pub text: String,
    /// Synthetic sender label; never authenticated.
    pub user: String,
    /// Wall-clock time at which the router processed the event, in
    /// milliseconds since the Unix epoch.
    pub date_millis: i64,
}

/// The mathematical content of an `Emit`.
pub struct EmitModel {
    pub target: u64,
    pub text: Seq<char>,
    pub user: Seq<char>,
    pub date_millis: i64,
}

impl View for Emit {
    type V = EmitModel;

    open spec fn view(&self) -> EmitModel {
        EmitModel {
            target: self.target,
            text: self.text@,
            user: self.user@,
            date_millis: self.date_millis,
        }
    }
}

/// The full fan-out for a message: one record per current member of
/// `room`, in join order, each carrying the verbatim text, the sender's
/// synthetic label and the processing timestamp.
pub open spec fn fanout(
    mem: Seq<(u64, Seq<char>)>,
    sender: u64,
    room: Seq<char>,
    text: Seq<char>,
    date_millis: i64,
) -> Seq<EmitModel> {
    members_seq(mem, room).map_values(
        |c: u64|
            EmitModel {
                target: c,
                text: text,
                user: label_chars(sender),
                date_millis: date_millis,
            },
    )
}

/// Handles an inbound `join` event: leave every room, then join the named
/// one. No outbound event results.
pub fn route_join(reg: &mut RoomRegistry, conn: u64, room: String)
    requires
        old(reg).wf(),
    ensures
        final(reg).wf(),
        final(reg)@ == old(reg)@.filter(not_conn(conn)).push((conn, room@)),
{
    reg.leave_all(conn);
    proof {
        lemma_member_after_filter(old(reg)@, not_conn(conn), (conn, room@));
    }
    reg.join(conn, room);
}

/// Handles an inbound `message` event: computes the fan-out from the
/// room's current membership. Emission itself is the transport's job; a
/// single recipient's delivery failure is its own affair and cannot
/// disturb the rest of the fan-out.
pub fn route_message(
    reg: &RoomRegistry,
    sender: u64,
    room: &String,
    text: &String,
    date_millis: i64,
) -> (r: Vec<Emit>)
    ensures
        r@.map_values(|e: Emit| e@) == fanout(reg@, sender, room@, text@, date_millis),
{
    let members = reg.members_of(room);
    let label = user_label(sender);
    let n = members.len();
    let mut out: Vec<Emit> = Vec::new();
    let mut i: usize = 0;
    while i < n
        invariant
            n == members.len(),
            members@ == members_seq(reg@, room@),
            i <= n,
            label@ == label_chars(sender),
            out@.len() == i,
            forall|j: int|
                0 <= j < i ==> (#[trigger] out@[j])@ == (EmitModel {
                    target: members@[j],
                    text: text@,
                    user: label_chars(sender),
                    date_millis: date_millis,
                }),
        decreases n - i,
    {
        out.push(
            Emit {
                target: members[i],
                text: text.clone(),
                user: label.clone(),
                date_millis: date_millis,
            },
        );
        i += 1;
    }
    proof {
        assert(out@.map_values(|e: Emit| e@)
            =~= fanout(reg@, sender, room@, text@, date_millis));
    }
    out
}

/// Echo inclusion: a sender that is a member of the target room is among
/// the recipients of its own broadcast.
pub proof fn lemma_echo_inclusion(
    mem: Seq<(u64, Seq<char>)>,
    sender: u64,
    room: Seq<char>,
    text: Seq<char>,
    date_millis: i64,
)
    requires
        mem.contains((sender, room)),
    ensures
        exists|i: int|
            0 <= i < fanout(mem, sender, room, text, date_millis).len()
                && fanout(mem, sender, room, text, date_millis)[i].target == sender,
{
    lemma_filter_contains_iff(mem, in_room(room), (sender, room));
    let f = mem.filter(in_room(room));
    let i = choose|i: int| 0 <= i < f.len() && f[i] == (sender, room);
    assert(members_seq(mem, room)[i] == sender);
    assert(fanout(mem, sender, room, text, date_millis)[i].target == sender);
}

/// Empty-room no-op: a message targeting a room with no members produces
/// no outbound records at all.
pub proof fn lemma_empty_room_no_op(
    mem: Seq<(u64, Seq<char>)>,
    sender: u64,
    room: Seq<char>,
    text: Seq<char>,
    date_millis: i64,
)
    requires
        forall|c: u64| !mem.contains((c, room)),
    ensures
        fanout(mem, sender, room, text, date_millis).len() == 0,
{
    let f = mem.filter(in_room(room));
    if f.len() > 0 {
        let p = f[0];
        assert(f.contains(p));
        Seq::lemma_filter_pred(mem, in_room(room), 0);
        Seq::lemma_filter_contains_rev(mem, in_room(room), p);
        assert(p == (p.0, p.1));
        assert(mem.contains((p.0, room)));
    }
}

/// At-most-once delivery: in a well-formed registry a fan-out addresses no
/// connection twice.
pub proof fn lemma_at_most_once_delivery(
    mem: Seq<(u64, Seq<char>)>,
    sender: u64,
    room: Seq<char>,
    text: Seq<char>,
    date_millis: i64,
)
    requires
        mem.no_duplicates(),
    ensures
        Seq::new(
            fanout(mem, sender, room, text, date_millis).len(),
            |i: int| fanout(mem, sender, room, text, date_millis)[i].target,
        ).no_duplicates(),
{
    lemma_filter_no_duplicates(mem, in_room(room));
    let f = mem.filter(in_room(room));
    let targets = Seq::new(
        fanout(mem, sender, room, text, date_millis).len(),
        |i: int| fanout(mem, sender, room, text, date_millis)[i].target,
    );
    assert forall|i: int, j: int|
        0 <= i < targets.len() && 0 <= j < targets.len() && i != j
        implies targets[i] != targets[j] by {
        Seq::lemma_filter_pred(mem, in_room(room), i);
        Seq::lemma_filter_pred(mem, in_room(room), j);
        assert(targets[i] == f[i].0 && targets[j] == f[j].0);
        if f[i].0 == f[j].0 {
            assert(f[i].1 == room && f[j].1 == room);
            assert(f[i] == (f[i].0, f[i].1));
            assert(f[j] == (f[j].0, f[j].1));
            assert(f[i] == f[j]);
        }
    }
}

} // verus!
