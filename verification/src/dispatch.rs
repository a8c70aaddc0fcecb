//! The event dispatcher's decision core.
//!
//! The dispatcher is the single serial consumer of decoded events and the
//! only owner of the routing table.  [`RoutingTable::handle_event`] is its
//! pure transition: it mutates the table and returns the ordered delivery
//! actions the surrounding I/O layer must perform — starting a delivery
//! task on a fresh login, enqueueing a formatted line for each routed
//! recipient of a message, and stopping the task on logout.  A second
//! login for a routed name is dropped, and a logout for an unknown name is
//! a no-op.

use vstd::prelude::*;

use crate::decoder::EventV;
use crate::decoder::Event;

verus! {

/// One row of the routing table: a logged-in name and the connection its
/// delivery task writes to.
pub struct RoutingEntry {
    pub name: String,
    pub conn: u64,
}

/// An action the dispatcher orders; the I/O layer performs the actions of
/// one event in the order given, so a fresh login's queue exists before
/// its confirmation line is enqueued.
pub enum Action {
    /// Start a delivery task for `name` with a fresh empty outbound queue,
    /// writing to connection `conn`.
    Spawn { name: String, conn: u64 },
    /// Enqueue `line` on the outbound queue of `to`.
    Deliver { to: String, line: String },
    /// Close the outbound queue of `name`; its delivery task drains what
    /// is queued and stops.
    Stop { name: String },
}

/// Mathematical view of an [`Action`].
pub enum ActionV {
    Spawn { name: Seq<char>, conn: u64 },
    Deliver { to: Seq<char>, line: Seq<char> },
    Stop { name: Seq<char> },
}

impl View for Action {
    type V = ActionV;

    open spec fn view(&self) -> ActionV {
        match self {
            Action::Spawn { name, conn } => ActionV::Spawn { name: name@, conn: *conn },
            Action::Deliver { to, line } => ActionV::Deliver { to: to@, line: line@ },
            Action::Stop { name } => ActionV::Stop { name: name@ },
        }
    }
}

impl DeepView for Action {
    type V = ActionV;

    open spec fn deep_view(&self) -> ActionV {
        self@
    }
}

/// The confirmation line a fresh login receives.
pub open spec fn login_line(name: Seq<char>) -> Seq<char> {
    "Logged in as: "@ + name + "\n"@
}

/// The line delivered to each routed recipient of a message.
pub open spec fn message_line(from: Seq<char>, msg: Seq<char>) -> Seq<char> {
    "from "@ + from + ": "@ + msg + "\n"@
}

/// Builds the login confirmation line.
pub fn format_login_line(name: &String) -> (r: String)
    ensures
        r@ == login_line(name@),
{
    let mut r = String::new();
    r.append("Logged in as: ");
    r.append(name.as_str());
    r.append("\n");
    proof {
        assert(r@ =~= login_line(name@));
    }
    r
}

/// Builds the line delivered for one message.
pub fn format_message_line(from: &String, msg: &String) -> (r: String)
    ensures
        r@ == message_line(from@, msg@),
{
    let mut r = String::new();
    r.append("from ");
    r.append(from.as_str());
    r.append(": ");
    r.append(msg.as_str());
    r.append("\n");
    proof {
        assert(r@ =~= message_line(from@, msg@));
    }
    r
}

/// No name occurs twice among the entries.
pub open spec fn unique_names(s: Seq<RoutingEntry>) -> bool {
    forall|i: int, j: int|
        0 <= i < j < s.len() ==> (#[trigger] s[i]).name@ != (#[trigger] s[j]).name@
}

spec fn entries_map(s: Seq<RoutingEntry>) -> Map<Seq<char>, u64>
    decreases s.len(),
{
    if s.len() == 0 {
        Map::empty()
    } else {
        entries_map(s.drop_last()).insert(s.last().name@, s.last().conn)
    }
}

proof fn lemma_entries_map_contains(s: Seq<RoutingEntry>, k: Seq<char>)
    ensures
        entries_map(s).contains_key(k) <==> exists|i: int|
            0 <= i < s.len() && (#[trigger] s[i]).name@ == k,
    decreases s.len(),
{
    if s.len() == 0 {
    } else {
        lemma_entries_map_contains(s.drop_last(), k);
        if entries_map(s).contains_key(k) {
            if s.last().name@ == k {
                assert(s[s.len() - 1].name@ == k);
            } else {
                let i = choose|i: int| 0 <= i < s.drop_last().len() && (#[trigger] s.drop_last()[i]).name@ == k;
                assert(s[i].name@ == k);
            }
        }
        if exists|i: int| 0 <= i < s.len() && (#[trigger] s[i]).name@ == k {
            let i = choose|i: int| 0 <= i < s.len() && (#[trigger] s[i]).name@ == k;
            if i < s.len() - 1 {
                assert(s.drop_last()[i].name@ == k);
            }
        }
    }
}

proof fn lemma_entries_map_get(s: Seq<RoutingEntry>, i: int)
    requires
        unique_names(s),
        0 <= i < s.len(),
    ensures
        entries_map(s).contains_key(s[i].name@),
        entries_map(s)[s[i].name@] == s[i].conn,
    decreases s.len(),
{
    if i == s.len() - 1 {
    } else {
        assert(s[i].name@ != s[s.len() - 1].name@);
        assert(s.drop_last()[i] == s[i]);
        lemma_entries_map_get(s.drop_last(), i);
    }
}

proof fn lemma_entries_map_remove(s: Seq<RoutingEntry>, i: int)
    requires
        unique_names(s),
        0 <= i < s.len(),
    ensures
        entries_map(s.remove(i)) == entries_map(s).remove(s[i].name@),
    decreases s.len(),
{
    let k = s[i].name@;
    if i == s.len() - 1 {
        assert(s.remove(i) =~= s.drop_last());
        lemma_entries_map_contains(s.drop_last(), k);
        assert(forall|j: int|
            0 <= j < s.drop_last().len() ==> (#[trigger] s.drop_last()[j]).name@ != k);
        assert(entries_map(s.drop_last()).insert(k, s[i].conn).remove(k) =~= entries_map(
            s.drop_last(),
        ));
    } else {
        let t = s.remove(i);
        assert(t.drop_last() =~= s.drop_last().remove(i));
        assert(t.last() == s.last());
        assert(forall|a: int, b: int|
            0 <= a < b < s.drop_last().len() ==> (#[trigger] s.drop_last()[a]).name@
                != (#[trigger] s.drop_last()[b]).name@);
        lemma_entries_map_remove(s.drop_last(), i);
        assert(s.drop_last()[i] == s[i]);
        assert(s.last().name@ != k);
        assert(entries_map(s.drop_last()).remove(k).insert(s.last().name@, s.last().conn)
            =~= entries_map(s.drop_last()).insert(s.last().name@, s.last().conn).remove(k));
    }
}

proof fn lemma_entries_map_finite(s: Seq<RoutingEntry>)
    ensures
        entries_map(s).dom().finite(),
    decreases s.len(),
{
    if s.len() == 0 {
    } else {
        lemma_entries_map_finite(s.drop_last());
    }
}

proof fn lemma_entries_map_len(s: Seq<RoutingEntry>)
    requires
        unique_names(s),
    ensures
        entries_map(s).dom().finite(),
        entries_map(s).dom().len() == s.len(),
    decreases s.len(),
{
    if s.len() == 0 {
        assert(entries_map(s).dom() =~= Set::<Seq<char>>::empty());
    } else {
        lemma_entries_map_len(s.drop_last());
        lemma_entries_map_contains(s.drop_last(), s.last().name@);
        assert(forall|j: int|
            0 <= j < s.drop_last().len() ==> (#[trigger] s.drop_last()[j]).name@
                != s.last().name@);
        assert(!entries_map(s.drop_last()).contains_key(s.last().name@));
        assert(entries_map(s).dom() =~= entries_map(s.drop_last()).dom().insert(s.last().name@));
    }
}

/// The routing table: at most one entry per logged-in name, owned and
/// mutated only by the dispatcher.  Its view is the map from each routed
/// name to the connection its delivery task writes to.
pub struct RoutingTable {
    entries: Vec<RoutingEntry>,
}

impl View for RoutingTable {
    type V = Map<Seq<char>, u64>;

    closed spec fn view(&self) -> Map<Seq<char>, u64> {
        entries_map(self.entries@)
    }
}

/// The routing table after the dispatcher consumes one event: a login for
/// an unrouted name inserts it, a logout removes it, everything else —
/// including a duplicate login, which is dropped — leaves the table as it
/// was.
pub open spec fn table_after(t: Map<Seq<char>, u64>, e: EventV) -> Map<Seq<char>, u64> {
    match e {
        EventV::Login { name, conn } => if t.contains_key(name) {
            t
        } else {
            t.insert(name, conn)
        },
        EventV::Logout { name } => t.remove(name),
        _ => t,
    }
}

/// The delivery actions of one message: one enqueue per routed recipient,
/// in recipient-list order; unrouted recipients are silently skipped.
pub open spec fn deliver_acts(
    t: Map<Seq<char>, u64>,
    from: Seq<char>,
    to: Seq<Seq<char>>,
    msg: Seq<char>,
) -> Seq<ActionV>
    decreases to.len(),
{
    if to.len() == 0 {
        Seq::empty()
    } else {
        (if t.contains_key(to[0]) {
            seq![ActionV::Deliver { to: to[0], line: message_line(from, msg) }]
        } else {
            Seq::empty()
        }) + deliver_acts(t, from, to.drop_first(), msg)
    }
}

/// The ordered actions the dispatcher emits for one event.
pub open spec fn acts_of(t: Map<Seq<char>, u64>, e: EventV) -> Seq<ActionV> {
    match e {
        EventV::Login { name, conn } => if t.contains_key(name) {
            Seq::empty()
        } else {
            seq![
                ActionV::Spawn { name, conn },
                ActionV::Deliver { to: name, line: login_line(name) },
            ]
        },
        EventV::Message { from, to, msg } => deliver_acts(t, from, to, msg),
        EventV::Logout { name } => if t.contains_key(name) {
            seq![ActionV::Stop { name }]
        } else {
            Seq::empty()
        },
        EventV::Empty => Seq::empty(),
    }
}

impl RoutingTable {
    /// No name occurs twice in the table.
    pub closed spec fn wf(&self) -> bool {
        unique_names(self.entries@)
    }

    /// An empty routing table: nobody is logged in.
    pub fn new() -> (t: RoutingTable)
        ensures
            t.wf(),
            t@ == Map::<Seq<char>, u64>::empty(),
    {
        RoutingTable { entries: Vec::new() }
    }

    /// Whether `name` is currently routed.
    pub fn contains(&self, name: &String) -> (r: bool)
        ensures
            r == self@.contains_key(name@),
    {
        match self.find_index(name) {
            Some(_) => true,
            None => false,
        }
    }

    /// The connection a routed name's delivery task writes to.
    pub fn lookup(&self, name: &String) -> (r: Option<u64>)
        requires
            self.wf(),
        ensures
            match r {
                Some(c) => self@.contains_key(name@) && self@[name@] == c,
                None => !self@.contains_key(name@),
            },
    {
        match self.find_index(name) {
            Some(i) => {
                proof {
                    lemma_entries_map_get(self.entries@, i as int);
                }
                Some(self.entries[i].conn)
            },
            None => None,
        }
    }

    /// How many names are routed.
    pub fn count(&self) -> (n: usize)
        requires
            self.wf(),
        ensures
            n == self@.dom().len(),
    {
        proof {
            lemma_entries_map_len(self.entries@);
        }
        self.entries.len()
    }

    fn find_index(&self, name: &String) -> (r: Option<usize>)
        ensures
            match r {
                Some(i) => i < self.entries@.len() && self.entries@[i as int].name@ == name@
                    && self@.contains_key(name@),
                None => !self@.contains_key(name@),
            },
    {
        proof {
            lemma_entries_map_contains(self.entries@, name@);
        }
        let n = self.entries.len();
        let mut i: usize = 0;
        while i < n
            invariant
                n == self.entries@.len(),
                0 <= i <= n,
                forall|j: int| 0 <= j < i ==> (#[trigger] self.entries@[j]).name@ != name@,
            decreases n - i,
        {
            if self.entries[i].name == *name {
                proof {
                    let s = self.entries@;
                    assert(0 <= (i as int) && (i as int) < s.len() && s[i as int].name@ == name@);
                    assert(exists|j: int| 0 <= j < s.len() && (#[trigger] s[j]).name@ == name@);
                    lemma_entries_map_contains(s, name@);
                }
                return Some(i);
            }
            i = i + 1;
        }
        None
    }

    /// Consumes one event: mutates the routing table as [`table_after`]
    /// says and returns the delivery actions of [`acts_of`], in order.
    pub fn handle_event(&mut self, ev: Event) -> (acts: Vec<Action>)
        requires
            old(self).wf(),
        ensures
            final(self).wf(),
            final(self)@ == table_after(old(self)@, ev@),
            acts.deep_view() == acts_of(old(self)@, ev@),
    {
        let mut acts: Vec<Action> = Vec::new();
        match ev {
            Event::Login { name, conn } => {
                match self.find_index(&name) {
                    Some(_) => {
                        proof {
                            assert(acts.deep_view() =~= acts_of(self@, ev@));
                        }
                    },
                    None => {
                        let line = format_login_line(&name);
                        acts.push(Action::Spawn { name: name.clone(), conn });
                        acts.push(Action::Deliver { to: name.clone(), line });
                        let ghost prev = self.entries@;
                        self.entries.push(RoutingEntry { name, conn });
                        proof {
                            assert(self.entries@.drop_last() =~= prev);
                            lemma_entries_map_contains(prev, self.entries@.last().name@);
                            assert(unique_names(self.entries@));
                            assert(acts.deep_view() =~= acts_of(old(self)@, ev@));
                        }
                    },
                }
            },
            Event::Message { from, to, msg } => {
                let line = format_message_line(&from, &msg);
                let n = to.len();
                let mut idx: usize = 0;
                proof {
                    assert(to.deep_view().skip(0) =~= to.deep_view());
                    assert(acts.deep_view() + deliver_acts(self@, from@, to.deep_view(), msg@)
                        =~= deliver_acts(self@, from@, to.deep_view(), msg@));
                }
                while idx < n
                    invariant
                        n == to@.len(),
                        0 <= idx <= n,
                        self.wf(),
                        *self == *old(self),
                        line@ == message_line(from@, msg@),
                        acts.deep_view() + deliver_acts(
                            self@,
                            from@,
                            to.deep_view().skip(idx as int),
                            msg@,
                        ) == deliver_acts(self@, from@, to.deep_view(), msg@),
                    decreases n - idx,
                {
                    let ghost rest = to.deep_view().skip(idx as int);
                    proof {
                        assert(rest[0] == to@[idx as int]@);
                        assert(rest.drop_first() =~= to.deep_view().skip(idx as int + 1));
                    }
                    let dest = &to[idx];
                    let ghost prev = acts.deep_view();
                    match self.find_index(dest) {
                        Some(_) => {
                            acts.push(Action::Deliver { to: dest.clone(), line: line.clone() });
                            proof {
                                assert(acts.deep_view() =~= prev.push(
                                    ActionV::Deliver { to: rest[0], line: message_line(from@, msg@) },
                                ));
                                assert(deliver_acts(self@, from@, rest, msg@) == seq![
                                    ActionV::Deliver { to: rest[0], line: message_line(from@, msg@) },
                                ] + deliver_acts(self@, from@, rest.drop_first(), msg@));
                                assert(acts.deep_view() + deliver_acts(
                                    self@,
                                    from@,
                                    rest.drop_first(),
                                    msg@,
                                ) =~= prev + deliver_acts(self@, from@, rest, msg@));
                            }
                        },
                        None => {
                            proof {
                                assert(deliver_acts(self@, from@, rest, msg@)
                                    == Seq::<ActionV>::empty() + deliver_acts(
                                    self@,
                                    from@,
                                    rest.drop_first(),
                                    msg@,
                                ));
                                assert(acts.deep_view() + deliver_acts(
                                    self@,
                                    from@,
                                    rest.drop_first(),
                                    msg@,
                                ) =~= prev + deliver_acts(self@, from@, rest, msg@));
                            }
                        },
                    }
                    idx = idx + 1;
                }
                proof {
                    assert(to.deep_view().skip(n as int) =~= Seq::<Seq<char>>::empty());
                    assert(acts.deep_view() + Seq::<ActionV>::empty() =~= acts.deep_view());
                }
            },
            Event::Logout { name } => {
                match self.find_index(&name) {
                    Some(i) => {
                        let ghost prev = self.entries@;
                        self.entries.remove(i);
                        acts.push(Action::Stop { name });
                        proof {
                            lemma_entries_map_remove(prev, i as int);
                            assert(forall|a: int, b: int|
                                0 <= a < b < self.entries@.len() ==> (#[trigger] self.entries@[a]).name@
                                    != (#[trigger] self.entries@[b]).name@);
                            assert(acts.deep_view() =~= acts_of(old(self)@, ev@));
                        }
                    },
                    None => {
                        proof {
                            assert(self@.remove(name@) =~= self@);
                            assert(acts.deep_view() =~= acts_of(self@, ev@));
                        }
                    },
                }
            },
            Event::Empty => {
                proof {
                    assert(acts.deep_view() =~= acts_of(self@, ev@));
                }
            },
        }
        acts
    }
}

} // verus!
