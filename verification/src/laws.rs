//! Lifecycle laws of the dispatcher transition.
//!
//! Public proof functions stating, over [`crate::dispatch::table_after`]
//! and [`crate::dispatch::acts_of`], the guarantees the relay makes: a
//! login stays routed until its logout, running delivery tasks mirror the
//! routing table one to one, a user's deliveries arrive in dispatch order,
//! and logout is idempotent.

use vstd::prelude::*;

use crate::decoder::EventV;
use crate::dispatch::ActionV;
use crate::dispatch::acts_of;
use crate::dispatch::deliver_acts;
use crate::dispatch::message_line;
use crate::dispatch::table_after;

verus! {

/// The routing table after a sequence of events is consumed in order.
pub open spec fn table_after_seq(t: Map<Seq<char>, u64>, es: Seq<EventV>) -> Map<Seq<char>, u64>
    decreases es.len(),
{
    if es.len() == 0 {
        t
    } else {
        table_after_seq(table_after(t, es[0]), es.drop_first())
    }
}

/// All actions the dispatcher orders while consuming a sequence of events,
/// in order.
pub open spec fn acts_of_seq(t: Map<Seq<char>, u64>, es: Seq<EventV>) -> Seq<ActionV>
    decreases es.len(),
{
    if es.len() == 0 {
        Seq::empty()
    } else {
        acts_of(t, es[0]) + acts_of_seq(table_after(t, es[0]), es.drop_first())
    }
}

/// The names whose delivery task runs after a sequence of actions is
/// performed: `Spawn` starts one, `Stop` stops one.
pub open spec fn tasks_after(ts: Set<Seq<char>>, acts: Seq<ActionV>) -> Set<Seq<char>>
    decreases acts.len(),
{
    if acts.len() == 0 {
        ts
    } else {
        tasks_after(
            match acts[0] {
                ActionV::Spawn { name, .. } => ts.insert(name),
                ActionV::Stop { name } => ts.remove(name),
                ActionV::Deliver { .. } => ts,
            },
            acts.drop_first(),
        )
    }
}

/// The lines enqueued for user `u`, in order, by a sequence of actions.
pub open spec fn deliveries_to(u: Seq<char>, acts: Seq<ActionV>) -> Seq<Seq<char>>
    decreases acts.len(),
{
    if acts.len() == 0 {
        Seq::empty()
    } else {
        (match acts[0] {
            ActionV::Deliver { to, line } => if to == u {
                seq![line]
            } else {
                Seq::empty()
            },
            _ => Seq::empty(),
        }) + deliveries_to(u, acts.drop_first())
    }
}

/// How many times `u` occurs in a recipient list.
pub open spec fn count_of(s: Seq<Seq<char>>, u: Seq<char>) -> nat
    decreases s.len(),
{
    if s.len() == 0 {
        0
    } else {
        (if s[0] == u {
            1nat
        } else {
            0nat
        }) + count_of(s.drop_first(), u)
    }
}

/// A processed login routes the name: after a login event for an unrouted
/// name, the name maps to that session's connection; a login for a routed
/// name leaves the table exactly as it was.
pub proof fn lemma_login_routes(t: Map<Seq<char>, u64>, name: Seq<char>, conn: u64)
    ensures
        table_after(t, EventV::Login { name, conn }).contains_key(name),
        !t.contains_key(name) ==> table_after(t, EventV::Login { name, conn })[name] == conn,
        t.contains_key(name) ==> table_after(t, EventV::Login { name, conn }) == t,
{
}

/// A routed name stays routed, with its connection unchanged, under every
/// event that is not a logout for that name.
pub proof fn lemma_routed_until_logout(t: Map<Seq<char>, u64>, name: Seq<char>, e: EventV)
    requires
        t.contains_key(name),
        !(e matches EventV::Logout { name: n } && n == name),
    ensures
        table_after(t, e).contains_key(name),
        table_after(t, e)[name] == t[name],
{
}

/// A routed name stays routed, with its connection unchanged, across any
/// sequence of events that holds no logout for it.
pub proof fn lemma_routed_across_events(t: Map<Seq<char>, u64>, es: Seq<EventV>, name: Seq<char>)
    requires
        t.contains_key(name),
        forall|k: int|
            0 <= k < es.len() ==> !((#[trigger] es[k]) matches EventV::Logout { name: n }
                && n == name),
    ensures
        table_after_seq(t, es).contains_key(name),
        table_after_seq(t, es)[name] == t[name],
    decreases es.len(),
{
    if es.len() == 0 {
    } else {
        lemma_routed_until_logout(t, name, es[0]);
        assert(forall|k: int|
            0 <= k < es.drop_first().len() ==> (#[trigger] es.drop_first()[k]) == es[k + 1]);
        lemma_routed_across_events(table_after(t, es[0]), es.drop_first(), name);
    }
}

proof fn lemma_deliver_acts_all_deliver(
    t: Map<Seq<char>, u64>,
    from: Seq<char>,
    to: Seq<Seq<char>>,
    msg: Seq<char>,
)
    ensures
        forall|i: int|
            0 <= i < deliver_acts(t, from, to, msg).len() ==> (#[trigger] deliver_acts(
                t,
                from,
                to,
                msg,
            )[i]) is Deliver,
    decreases to.len(),
{
    if to.len() == 0 {
    } else {
        lemma_deliver_acts_all_deliver(t, from, to.drop_first(), msg);
    }
}

proof fn lemma_tasks_after_delivers(ts: Set<Seq<char>>, acts: Seq<ActionV>)
    requires
        forall|i: int| 0 <= i < acts.len() ==> (#[trigger] acts[i]) is Deliver,
    ensures
        tasks_after(ts, acts) == ts,
    decreases acts.len(),
{
    if acts.len() == 0 {
    } else {
        assert(acts[0] is Deliver);
        assert(forall|i: int|
            0 <= i < acts.drop_first().len() ==> (#[trigger] acts.drop_first()[i])
                == acts[i + 1]);
        lemma_tasks_after_delivers(ts, acts.drop_first());
    }
}

/// Routing entries and running delivery tasks stay in 1:1 correspondence:
/// if the running tasks are exactly the routed names, then performing one
/// event's actions leaves running exactly the names of the new table.
pub proof fn lemma_tasks_match_table(t: Map<Seq<char>, u64>, e: EventV)
    ensures
        tasks_after(t.dom(), acts_of(t, e)) == table_after(t, e).dom(),
{
    let ts = t.dom();
    let acts = acts_of(t, e);
    match e {
        EventV::Login { name, conn } => {
            if t.contains_key(name) {
            } else {
                let a1 = acts.drop_first();
                let a2 = a1.drop_first();
                assert(acts[0] == ActionV::Spawn { name, conn });
                assert(a1 =~= seq![
                    ActionV::Deliver { to: name, line: crate::dispatch::login_line(name) },
                ]);
                assert(a2 =~= Seq::<ActionV>::empty());
                assert(tasks_after(ts, acts) == tasks_after(ts.insert(name), a1));
                assert(tasks_after(ts.insert(name), a1) == tasks_after(ts.insert(name), a2));
                assert(tasks_after(ts.insert(name), a2) == ts.insert(name));
                assert(ts.insert(name) =~= t.insert(name, conn).dom());
            }
        },
        EventV::Message { from, to, msg } => {
            lemma_deliver_acts_all_deliver(t, from, to, msg);
            lemma_tasks_after_delivers(ts, acts);
        },
        EventV::Logout { name } => {
            if t.contains_key(name) {
                let a1 = acts.drop_first();
                assert(acts[0] == ActionV::Stop { name });
                assert(a1 =~= Seq::<ActionV>::empty());
                assert(tasks_after(ts, acts) == tasks_after(ts.remove(name), a1));
                assert(tasks_after(ts.remove(name), a1) == ts.remove(name));
                assert(ts.remove(name) =~= t.remove(name).dom());
            } else {
                assert(ts =~= t.remove(name).dom());
            }
        },
        EventV::Empty => {
        },
    }
}

proof fn lemma_tasks_after_concat(ts: Set<Seq<char>>, a: Seq<ActionV>, b: Seq<ActionV>)
    ensures
        tasks_after(ts, a + b) == tasks_after(tasks_after(ts, a), b),
    decreases a.len(),
{
    if a.len() == 0 {
        assert(a + b =~= b);
    } else {
        assert((a + b)[0] == a[0]);
        assert((a + b).drop_first() =~= a.drop_first() + b);
        let ts1 = match a[0] {
            ActionV::Spawn { name, .. } => ts.insert(name),
            ActionV::Stop { name } => ts.remove(name),
            ActionV::Deliver { .. } => ts,
        };
        lemma_tasks_after_concat(ts1, a.drop_first(), b);
    }
}

/// The 1:1 correspondence holds over any whole history: after any sequence
/// of events is consumed and its actions performed, the running delivery
/// tasks are exactly the names of the resulting routing table.
pub proof fn lemma_tasks_match_table_seq(t: Map<Seq<char>, u64>, es: Seq<EventV>)
    ensures
        tasks_after(t.dom(), acts_of_seq(t, es)) == table_after_seq(t, es).dom(),
    decreases es.len(),
{
    if es.len() == 0 {
    } else {
        let t1 = table_after(t, es[0]);
        lemma_tasks_match_table(t, es[0]);
        lemma_tasks_after_concat(t.dom(), acts_of(t, es[0]), acts_of_seq(t1, es.drop_first()));
        lemma_tasks_match_table_seq(t1, es.drop_first());
    }
}

proof fn lemma_deliveries_concat(u: Seq<char>, a: Seq<ActionV>, b: Seq<ActionV>)
    ensures
        deliveries_to(u, a + b) == deliveries_to(u, a) + deliveries_to(u, b),
    decreases a.len(),
{
    if a.len() == 0 {
        assert(a + b =~= b);
        assert(deliveries_to(u, a) + deliveries_to(u, b) =~= deliveries_to(u, b));
    } else {
        assert((a + b)[0] == a[0]);
        assert((a + b).drop_first() =~= a.drop_first() + b);
        lemma_deliveries_concat(u, a.drop_first(), b);
        let h = match a[0] {
            ActionV::Deliver { to, line } => if to == u {
                seq![line]
            } else {
                Seq::<Seq<char>>::empty()
            },
            _ => Seq::<Seq<char>>::empty(),
        };
        assert(deliveries_to(u, a + b) == h + (deliveries_to(u, a.drop_first()) + deliveries_to(
            u,
            b,
        )));
        assert(h + (deliveries_to(u, a.drop_first()) + deliveries_to(u, b)) =~= (h
            + deliveries_to(u, a.drop_first())) + deliveries_to(u, b));
    }
}

proof fn lemma_deliveries_count(
    u: Seq<char>,
    t: Map<Seq<char>, u64>,
    from: Seq<char>,
    to: Seq<Seq<char>>,
    msg: Seq<char>,
)
    requires
        t.contains_key(u),
    ensures
        count_of(to, u) == 0 ==> deliveries_to(u, deliver_acts(t, from, to, msg))
            == Seq::<Seq<char>>::empty(),
        count_of(to, u) == 1 ==> deliveries_to(u, deliver_acts(t, from, to, msg)) == seq![
            message_line(from, msg),
        ],
    decreases to.len(),
{
    if to.len() == 0 {
    } else {
        let h = if t.contains_key(to[0]) {
            seq![ActionV::Deliver { to: to[0], line: message_line(from, msg) }]
        } else {
            Seq::<ActionV>::empty()
        };
        let rest = deliver_acts(t, from, to.drop_first(), msg);
        lemma_deliveries_concat(u, h, rest);
        lemma_deliveries_count(u, t, from, to.drop_first(), msg);
        if to[0] == u {
            assert(h.drop_first() =~= Seq::<ActionV>::empty());
            assert(deliveries_to(u, h.drop_first()) == Seq::<Seq<char>>::empty());
            assert(deliveries_to(u, h) =~= seq![message_line(from, msg)]);
        } else {
            if t.contains_key(to[0]) {
                assert(h.drop_first() =~= Seq::<ActionV>::empty());
                assert(deliveries_to(u, h.drop_first()) == Seq::<Seq<char>>::empty());
            }
            assert(deliveries_to(u, h) =~= Seq::<Seq<char>>::empty());
        }
        assert(deliveries_to(u, h + rest) == deliveries_to(u, h) + deliveries_to(u, rest));
        if count_of(to, u) == 0 {
            assert(deliveries_to(u, h) + deliveries_to(u, rest) =~= Seq::<Seq<char>>::empty());
        } else if count_of(to, u) == 1 {
            assert(deliveries_to(u, h) + deliveries_to(u, rest) =~= seq![
                message_line(from, msg),
            ]);
        }
    }
}

/// Every event in `es` is a message listing `u` exactly once among its
/// recipients.
pub open spec fn all_message_to(es: Seq<EventV>, u: Seq<char>) -> bool {
    forall|k: int|
        0 <= k < es.len() ==> ((#[trigger] es[k]) matches EventV::Message { to, .. }
            && count_of(to, u) == 1)
}

/// Deliveries to a user preserve dispatch order: consuming a sequence of
/// message events, each listing routed user `u` exactly once among its
/// recipients, enqueues for `u` exactly one line per event, in event
/// order, each formatted from that event's sender and body.
pub proof fn lemma_message_order(t: Map<Seq<char>, u64>, es: Seq<EventV>, u: Seq<char>)
    requires
        t.contains_key(u),
        all_message_to(es, u),
    ensures
        deliveries_to(u, acts_of_seq(t, es)) == Seq::new(
            es.len(),
            |k: int| message_line(es[k]->from, es[k]->msg),
        ),
    decreases es.len(),
{
    let f = |k: int| message_line(es[k]->from, es[k]->msg);
    if es.len() == 0 {
        assert(deliveries_to(u, acts_of_seq(t, es)) =~= Seq::new(es.len(), f));
    } else {
        let e0 = es[0];
        assert(e0 matches EventV::Message { to, .. } && count_of(to, u) == 1);
        let from0 = e0->from;
        let to0 = e0->to;
        let msg0 = e0->msg;
        assert(table_after(t, e0) == t);
        lemma_deliveries_concat(u, acts_of(t, e0), acts_of_seq(t, es.drop_first()));
        lemma_deliveries_count(u, t, from0, to0, msg0);
        let tail = es.drop_first();
        assert(all_message_to(tail, u)) by {
            assert(forall|k: int|
                0 <= k < tail.len() ==> (#[trigger] tail[k]) == es[k + 1]);
        }
        lemma_message_order(t, tail, u);
        assert(deliveries_to(u, acts_of_seq(t, es)) =~= Seq::new(es.len(), f)) by {
            assert(forall|k: int|
                0 <= k < tail.len() ==> (#[trigger] tail[k]) == es[k + 1]);
        }
    }
}

/// Logout is idempotent: after one logout for a name, no entry for it
/// remains, and a second consecutive logout changes nothing and orders no
/// action.
pub proof fn lemma_logout_idempotent(t: Map<Seq<char>, u64>, name: Seq<char>)
    ensures
        !table_after(t, EventV::Logout { name }).contains_key(name),
        table_after(table_after(t, EventV::Logout { name }), EventV::Logout { name })
            == table_after(t, EventV::Logout { name }),
        acts_of(table_after(t, EventV::Logout { name }), EventV::Logout { name })
            == Seq::<ActionV>::empty(),
{
    assert(t.remove(name).remove(name) =~= t.remove(name));
}

} // verus!
