//! The timeline of recorded nodes, and the state of a project: the timeline
//! together with the information obtained.

use vstd::prelude::*;

use crate::action::Action;
use crate::consequences::Consequence;
use crate::event::Event;
use crate::text::{push_str, same_text};
use crate::information::{
    contains_index, first_index, lemma_first_index, lemma_index_list_push, lemma_no_duplicates_push, names_of, same_user, service_keys_of, Computer, Information,
    IpAddress, Service, Software, User, Vulnerability,
};

verus! {

/// A point in time: seconds since the Unix epoch (UTC) and the nanoseconds
/// within that second.
#[derive(Clone, Copy, Debug, Hash, PartialEq, Eq, Structural)]
pub struct TimeStamp {
    pub secs: i64,
    pub nanos: u32,
}

/// The current time, as seconds since the Unix epoch and nanoseconds within
/// the second: the system clock (`std::time::SystemTime::now`) read as a UTC
/// time by chrono's `From<SystemTime> for DateTime<Utc>`, which also takes
/// times before the epoch. Nothing is promised of the value: it is whatever
/// the system clock says. chrono's conversion still unwraps when the clock
/// lies outside the dates chrono represents (about 262,000 years either side
/// of 1970); nothing here can rule such a clock out.
#[verifier::external_body]
fn utc_now() -> (t: TimeStamp) {
    let now = chrono::DateTime::<chrono::Utc>::from(std::time::SystemTime::now());
    TimeStamp { secs: now.timestamp(), nanos: now.timestamp_subsec_nanos() }
}

/// Basic structure that stores a recorded fact, with the time it was recorded.
#[derive(Debug, Clone, Hash, PartialEq, Eq)]
pub struct Node {
    pub time_stamp: TimeStamp,
    pub category: Category,
}

/// The different classes of facts that can be recorded:
///  - `Action`: actions taken by the user.
///  - `Consequence`: the consequences of actions.
///  - `Event`: any other fact that cannot be directly attributed to an action.
#[derive(Debug, Clone, Hash, PartialEq, Eq)]
pub enum Category {
    Action(Action),
    Consequence(Consequence),
    Event(Event),
}

/// Commands whose output the tool knows how to read (`None` in the stored
/// format).
#[derive(Debug, Clone, Copy, Hash, PartialEq, Eq, Structural)]
pub enum KnownCommnad {
    NoCommand,
}

/// The recorded nodes, oldest first.
#[derive(Debug, Clone, Hash, PartialEq, Eq)]
pub struct Timeline(pub Vec<Node>);

/// Represents all the information known by the program.
#[derive(Debug, Clone, Hash, PartialEq, Eq)]
pub struct State {
    pub time_line: Timeline,
    pub information: Information,
}

impl Action {
    /// A copy of the action.
    pub fn duplicate(&self) -> (r: Action)
        ensures
            r == *self,
    {
        match self {
            Action::Custom(s) => Action::Custom(s.clone()),
            Action::Command(s) => Action::Command(s.clone()),
            Action::KnownCommnad(k) => Action::KnownCommnad(*k),
        }
    }
}

impl Consequence {
    /// A copy of the consequence.
    pub fn duplicate(&self) -> (r: Consequence)
        ensures
            r == *self,
    {
        match self {
            Consequence::Custom(s) => Consequence::Custom(s.clone()),
            Consequence::Command(o, e) => Consequence::Command(o.clone(), e.clone()),
            Consequence::NewInformation(r) => Consequence::NewInformation(*r),
            Consequence::Detection => Consequence::Detection,
            Consequence::NoConsequence => Consequence::NoConsequence,
        }
    }
}

impl Event {
    /// A copy of the event.
    pub fn duplicate(&self) -> (r: Event)
        ensures
            r == *self,
    {
        match self {
            Event::Custom(s) => Event::Custom(s.clone()),
            Event::Detection => Event::Detection,
        }
    }
}

impl Category {
    /// A copy of the category.
    pub fn duplicate(&self) -> (r: Category)
        ensures
            r == *self,
    {
        match self {
            Category::Action(a) => Category::Action(a.duplicate()),
            Category::Consequence(c) => Category::Consequence(c.duplicate()),
            Category::Event(e) => Category::Event(e.duplicate()),
        }
    }
}

impl Category {
    /// Whether the category has a summary (it is custom, and can be cut).
    pub open spec fn has_summary(&self) -> bool {
        match self {
            Category::Action(a) => a.has_summary(),
            Category::Consequence(c) => c.has_summary(),
            Category::Event(e) => e.has_summary(),
        }
    }

    /// The kind of the category followed by the summary of its content.
    pub open spec fn summary(&self) -> Seq<char> {
        match self {
            Category::Action(a) => "Action "@ + a.summary(),
            Category::Consequence(c) => "Consequence: "@ + c.summary(),
            Category::Event(e) => "Event: "@ + e.summary(),
        }
    }

    /// A one-line summary of the category (see `summary`).
    pub fn to_string(&self) -> (r: String)
        requires
            self.has_summary(),
        ensures
            r@ == self.summary(),
    {
        match self {
            Category::Action(a) => {
                let mut r = "Action ".to_owned();
                push_str(&mut r, a.to_string().as_str());
                r
            },
            Category::Consequence(c) => {
                let mut r = "Consequence: ".to_owned();
                push_str(&mut r, c.to_string().as_str());
                r
            },
            Category::Event(e) => {
                let mut r = "Event: ".to_owned();
                push_str(&mut r, e.to_string().as_str());
                r
            },
        }
    }
}

impl Node {
    /// A node of the given category, stamped with the current time.
    pub fn new(cat: Category) -> (n: Node)
        ensures
            n.category == cat,
    {
        Node { time_stamp: utc_now(), category: cat }
    }

    /// A copy of the node.
    pub fn duplicate(&self) -> (r: Node)
        ensures
            r == *self,
    {
        Node { time_stamp: self.time_stamp, category: self.category.duplicate() }
    }
}

impl Timeline {
    /// An empty timeline.
    pub fn new() -> (t: Timeline)
        ensures
            t.0@.len() == 0,
    {
        Timeline(Vec::new())
    }
}

impl Default for Timeline {
    fn default() -> (t: Timeline)
        ensures
            t.0@.len() == 0,
    {
        Timeline::new()
    }
}

impl Default for Information {
    fn default() -> (i: Information)
        ensures
            i.computers@.len() == 0,
            i.ips@.len() == 0,
            i.software@.len() == 0,
            i.services@.len() == 0,
            i.vulnerabilities@.len() == 0,
            i.domains@.len() == 0,
            i.users@.len() == 0,
            i.facts@.len() == 0,
    {
        Information::new()
    }
}

/// The fields of two computers other than their lists of addresses,
/// services and software are the same.
pub open spec fn same_identity(a: Computer, b: Computer) -> bool {
    &&& a.name@ == b.name@
    &&& a.ports@ == b.ports@
    &&& a.is_honeypot == b.is_honeypot
    &&& a.is_virtualized == b.is_virtualized
    &&& a.infection_level == b.infection_level
    &&& a.operating_system == b.operating_system
}

/// `b` is the list `a` with `x` appended.
pub open spec fn appended(a: Seq<usize>, b: Seq<usize>, x: int) -> bool {
    &&& b.len() == a.len() + 1
    &&& b.last() == x
    &&& forall|k: int| 0 <= k < a.len() ==> #[trigger] b[k] == a[k]
}

/// The list holds `x`.
pub open spec fn holds(s: Seq<usize>, x: int) -> bool {
    exists|k: int| 0 <= k < s.len() && s[k] == x
}

/// A list with one more element holds what the list held, and that element.
pub proof fn lemma_holds_push(s: Seq<usize>, v: usize)
    ensures
        forall|m: int| #[trigger] holds(s.push(v), m) <==> (holds(s, m) || m == v),
{
    assert forall|m: int| #[trigger] holds(s.push(v), m) <==> (holds(s, m) || m == v) by {
        if holds(s.push(v), m) {
            let k = choose|k: int| 0 <= k < s.len() + 1 && s.push(v)[k] == m;
            if k < s.len() {
                assert(s[k] == m);
            }
        }
        if holds(s, m) {
            let k = choose|k: int| 0 <= k < s.len() && s[k] == m;
            assert(s.push(v)[k] == m);
        }
        if m == v {
            assert(s.push(v)[s.len() as int] == m);
        }
    }
}

/// `b` is `a` with `x` appended to its list of addresses.
pub open spec fn ip_appended(a: Computer, b: Computer, x: int) -> bool {
    same_identity(a, b) && appended(a.ips@, b.ips@, x) && b.services@ == a.services@
        && b.software@ == a.software@
}

/// `b` is `a` with `x` appended to its list of services.
pub open spec fn service_appended(a: Computer, b: Computer, x: int) -> bool {
    same_identity(a, b) && b.ips@ == a.ips@ && appended(a.services@, b.services@, x)
        && b.software@ == a.software@
}

/// `b` is `a` with `x` appended to its list of software.
pub open spec fn software_appended(a: Computer, b: Computer, x: int) -> bool {
    same_identity(a, b) && b.ips@ == a.ips@ && b.services@ == a.services@
        && appended(a.software@, b.software@, x)
}

/// Only the computer at `id` differs between `a` and `b`, and it is `b[id]`.
pub open spec fn only_changed_at(a: Seq<Computer>, b: Seq<Computer>, id: int) -> bool {
    0 <= id < a.len() && b == a.update(id, b[id])
}

/// The addresses of `list` that are neither in `known` nor earlier in
/// `list`, in order.
pub open spec fn new_ips(known: Seq<IpAddress>, list: Seq<IpAddress>) -> Seq<IpAddress>
    decreases list.len(),
{
    if list.len() == 0 {
        Seq::empty()
    } else {
        let f = new_ips(known, list.drop_last());
        if (known + f).contains(list.last()) {
            f
        } else {
            f.push(list.last())
        }
    }
}

/// The list is `start, start + 1, ..., start + len - 1`.
pub open spec fn is_index_range(s: Seq<usize>, start: int, len: int) -> bool {
    s.len() == len && forall|k: int| 0 <= k < len ==> #[trigger] s[k] == start + k
}

/// The first computer named `name`, or the number of computers.
pub open spec fn computer_named(computers: Seq<Computer>, name: Seq<char>) -> int {
    first_index(names_of(computers), name)
}

/// What `computer_named` is: the first computer with that name, or the
/// number of computers when none has it.
pub proof fn lemma_computer_named(computers: Seq<Computer>, name: Seq<char>)
    ensures
        0 <= computer_named(computers, name) <= computers.len(),
        computer_named(computers, name) < computers.len() ==> computers[computer_named(
            computers,
            name,
        )].name@ == name,
        forall|j: int|
            0 <= j < computer_named(computers, name) ==> #[trigger] computers[j].name@ != name,
{
    lemma_first_index(names_of(computers), name);
    assert forall|j: int| 0 <= j < computer_named(computers, name) implies #[trigger] computers[j].name@ != name by {
        assert(names_of(computers)[j] == computers[j].name@);
    }
}

/// The first service equal to `s`, or the number of services.
pub open spec fn service_position(services: Seq<Service>, s: Service) -> int {
    first_index(service_keys_of(services), s.key())
}

impl State {
    /// The state is consistent (see `Information::wf`).
    pub open spec fn wf(&self) -> bool {
        self.information.wf()
    }

    /// What `add_computer` does.
    pub open spec fn adds_computer(old: State, new: State, c: Computer, r: Option<usize>) -> bool {
        if exists|i: int|
            0 <= i < old.information.computers@.len()
                && #[trigger] old.information.computers@[i].name@ == c.name@ {
            r is None && new == old
        } else {
            &&& r matches Some(k) && k == old.information.computers@.len()
            &&& new.information.computers@ == old.information.computers@.push(c)
            &&& new.time_line == old.time_line
            &&& new.information.ips == old.information.ips
            &&& new.information.software == old.information.software
            &&& new.information.services == old.information.services
            &&& new.information.vulnerabilities == old.information.vulnerabilities
            &&& new.information.domains == old.information.domains
            &&& new.information.users == old.information.users
            &&& new.information.facts == old.information.facts
        }
    }

    /// What `add_ip` does.
    pub open spec fn adds_ip(old: State, new: State, ip: IpAddress, id: usize, r: Option<usize>) -> bool {
        if old.information.ips@.contains(ip) || id >= old.information.computers@.len() {
            r is None && new == old
        } else {
            let n = old.information.ips@.len();
            &&& r matches Some(k) && k == n
            &&& new.information.ips@ == old.information.ips@.push(ip)
            &&& only_changed_at(old.information.computers@, new.information.computers@, id as int)
            &&& ip_appended(old.information.computers@[id as int], new.information.computers@[id as int], n as int)
            &&& new.time_line == old.time_line
            &&& new.information.software == old.information.software
            &&& new.information.services == old.information.services
            &&& new.information.vulnerabilities == old.information.vulnerabilities
            &&& new.information.domains == old.information.domains
            &&& new.information.users == old.information.users
            &&& new.information.facts == old.information.facts
        }
    }

    /// What `add_software` does.
    pub open spec fn adds_software(
        old: State,
        new: State,
        s: Software,
        computer: Option<usize>,
        r: Option<usize>,
    ) -> bool {
        if exists|i: int|
            0 <= i < old.information.software@.len()
                && #[trigger] old.information.software@[i].key() == s.key() {
            r is None && new == old
        } else {
            let n = old.information.software@.len();
            &&& r matches Some(k) && k == n
            &&& new.information.software@ == old.information.software@.push(s)
            &&& if computer is Some && computer->0 < old.information.computers@.len() {
                &&& only_changed_at(old.information.computers@, new.information.computers@, computer->0 as int)
                &&& software_appended(
                    old.information.computers@[computer->0 as int],
                    new.information.computers@[computer->0 as int],
                    n as int,
                )
            } else {
                new.information.computers == old.information.computers
            }
            &&& new.time_line == old.time_line
            &&& new.information.ips == old.information.ips
            &&& new.information.services == old.information.services
            &&& new.information.vulnerabilities == old.information.vulnerabilities
            &&& new.information.domains == old.information.domains
            &&& new.information.users == old.information.users
            &&& new.information.facts == old.information.facts
        }
    }

    /// What `add_service` does.
    pub open spec fn adds_service(old: State, new: State, s: Service, id: usize, r: Option<usize>) -> bool {
        if id >= old.information.computers@.len() {
            r is None && new == old
        } else {
            let f = service_position(old.information.services@, s);
            let c = old.information.computers@[id as int];
            &&& if f < old.information.services@.len() {
                new.information.services == old.information.services
            } else {
                new.information.services@ == old.information.services@.push(s)
            }
            &&& if holds(c.services@, f) {
                r is None && new.information.computers == old.information.computers
            } else {
                &&& r matches Some(k) && k == f
                &&& only_changed_at(old.information.computers@, new.information.computers@, id as int)
                &&& service_appended(c, new.information.computers@[id as int], f)
            }
            &&& new.time_line == old.time_line
            &&& new.information.ips == old.information.ips
            &&& new.information.software == old.information.software
            &&& new.information.vulnerabilities == old.information.vulnerabilities
            &&& new.information.domains == old.information.domains
            &&& new.information.users == old.information.users
            &&& new.information.facts == old.information.facts
        }
    }

    /// A state with an empty timeline and no information.
    pub fn empty() -> (s: State)
        ensures
            s.time_line.0@.len() == 0,
            s.information.computers@.len() == 0,
            s.information.ips@.len() == 0,
            s.information.software@.len() == 0,
            s.information.services@.len() == 0,
            s.information.vulnerabilities@.len() == 0,
            s.information.domains@.len() == 0,
            s.information.users@.len() == 0,
            s.information.facts@.len() == 0,
            s.wf(),
    {
        State { time_line: Timeline::new(), information: Information::new() }
    }

    /// Appends a copy of the node to the timeline.
    pub fn add_node(&mut self, node: &Node)
        ensures
            final(self).time_line.0@ == old(self).time_line.0@.push(*node),
            final(self).information == old(self).information,
    {
        self.time_line.0.push(node.duplicate());
    }

    /// Appends copies of the nodes to the timeline, in order.
    pub fn add_nodes(&mut self, nodes: &Vec<Node>)
        ensures
            final(self).time_line.0@ == old(self).time_line.0@ + nodes@,
            final(self).information == old(self).information,
    {
        let ghost t0 = self.time_line.0@;
        let mut i: usize = 0;
        while i < nodes.len()
            invariant
                i <= nodes.len(),
                self.time_line.0@ == t0 + nodes@.take(i as int),
                self.information == old(self).information,
            decreases nodes.len() - i,
        {
            self.add_node(&nodes[i]);
            assert(nodes@.take(i + 1) == nodes@.take(i as int).push(nodes@[i as int]));
            i += 1;
        }
        assert(nodes@.take(nodes.len() as int) == nodes@);
    }

    /// Adds a computer; returns its index, or `None` (and changes nothing) if
    /// a computer with the same name already exists.
    pub fn add_computer(&mut self, computer: Computer) -> (r: Option<usize>)
        ensures
            State::adds_computer(*old(self), *final(self), computer, r),
            old(self).wf() && old(self).information.computer_fits(computer) ==> final(self).wf(),
    {
        let n = self.information.computers.len();
        let mut i: usize = 0;
        while i < n
            invariant
                i <= n == self.information.computers@.len(),
                forall|k: int| 0 <= k < i ==> #[trigger] self.information.computers@[k].name@ != computer.name@,
            decreases n - i,
        {
            if self.information.computers[i].name == computer.name {
                return None;
            }
            i += 1;
        }
        let ghost old_info = self.information;
        self.information.computers.push(computer);
        proof {
            let new_info = self.information;
            if old_info.wf() && old_info.computer_fits(computer) {
                if old_info.computer_names().contains(computer.name@) {
                    let k = choose|k: int| 0 <= k < n && old_info.computer_names()[k] == computer.name@;
                    assert(old_info.computers@[k].name@ == computer.name@);
                }
                assert(new_info.computer_names() =~= old_info.computer_names().push(computer.name@));
                lemma_no_duplicates_push(old_info.computer_names(), computer.name@);
                assert forall|k: int| 0 <= k < new_info.computers@.len() implies new_info.computer_fits(
                    #[trigger] new_info.computers@[k],
                ) by {
                    if k < n {
                        assert(old_info.computer_fits(old_info.computers@[k]));
                    }
                }
            }
        }
        Some(n)
    }

    /// Adds an IP address and relates it to the computer `id_computer`;
    /// returns the address's index, or `None` (and changes nothing) if the
    /// address is already known or the computer does not exist.
    pub fn add_ip(&mut self, ip: IpAddress, id_computer: usize) -> (r: Option<usize>)
        ensures
            State::adds_ip(*old(self), *final(self), ip, id_computer, r),
            old(self).wf() ==> final(self).wf(),
    {
        let n = self.information.ips.len();
        let mut i: usize = 0;
        while i < n
            invariant
                i <= n == self.information.ips@.len(),
                forall|k: int| 0 <= k < i ==> self.information.ips@[k] != ip,
            decreases n - i,
        {
            if self.information.ips[i] == ip {
                assert(self.information.ips@[i as int] == ip);
                return None;
            }
            i += 1;
        }
        if id_computer >= self.information.computers.len() {
            return None;
        }
        let ghost old_info = self.information;
        self.information.ips.push(ip);
        self.information.computers[id_computer].ips.push(n);
        proof {
            let new_info = self.information;
            assert(!old_info.ips@.contains(ip));
            if old_info.wf() {
                assert(new_info.computer_names() =~= old_info.computer_names());
                lemma_no_duplicates_push(old_info.ips@, ip);
                assert forall|k: int| 0 <= k < new_info.computers@.len() implies new_info.computer_fits(
                    #[trigger] new_info.computers@[k],
                ) by {
                    assert(old_info.computer_fits(old_info.computers@[k]));
                    if k == id_computer {
                        lemma_index_list_push(old_info.computers@[k].ips@, n as int, n + 1, n);
                    }
                }
            }
        }
        Some(n)
    }

    /// Adds software, related to the computer `computer_id_opt` when that is
    /// the index of a computer; returns the software's index, or `None` (and
    /// changes nothing) if software with the same name and version exists.
    pub fn add_software(&mut self, software: Software, computer_id_opt: Option<usize>) -> (r: Option<usize>)
        ensures
            State::adds_software(*old(self), *final(self), software, computer_id_opt, r),
            old(self).wf() && old(self).information.software_fits(software) ==> final(self).wf(),
    {
        let n = self.information.software.len();
        let mut i: usize = 0;
        while i < n
            invariant
                i <= n == self.information.software@.len(),
                forall|k: int| 0 <= k < i ==> #[trigger] self.information.software@[k].key() != software.key(),
            decreases n - i,
        {
            if self.information.software[i] == software {
                return None;
            }
            i += 1;
        }
        let ghost old_info = self.information;
        match computer_id_opt {
            Some(computer_id) => {
                if computer_id < self.information.computers.len() {
                    self.information.computers[computer_id].software.push(n);
                }
            },
            None => {},
        }
        self.information.software.push(software);
        proof {
            let new_info = self.information;
            if old_info.wf() && old_info.software_fits(software) {
                assert(new_info.computer_names() =~= old_info.computer_names());
                if old_info.software_keys().contains(software.key()) {
                    let k = choose|k: int| 0 <= k < n && old_info.software_keys()[k] == software.key();
                    assert(old_info.software@[k].key() == software.key());
                }
                assert(new_info.software_keys() =~= old_info.software_keys().push(software.key()));
                lemma_no_duplicates_push(old_info.software_keys(), software.key());
                assert forall|k: int| 0 <= k < new_info.computers@.len() implies new_info.computer_fits(
                    #[trigger] new_info.computers@[k],
                ) by {
                    assert(old_info.computer_fits(old_info.computers@[k]));
                    if computer_id_opt matches Some(c) && c == k {
                        lemma_index_list_push(old_info.computers@[k].software@, n as int, n + 1, n);
                    }
                }
                assert forall|k: int| 0 <= k < new_info.services@.len() implies new_info.service_fits(
                    #[trigger] new_info.services@[k],
                ) by {
                    assert(old_info.service_fits(old_info.services@[k]));
                }
                assert forall|k: int| 0 <= k < new_info.software@.len() implies new_info.software_fits(
                    #[trigger] new_info.software@[k],
                ) by {
                    if k < n {
                        assert(old_info.software_fits(old_info.software@[k]));
                    }
                }
            }
        }
        Some(n)
    }

    /// Adds a service to the computer `computer_id`; the service is stored
    /// once, and an equal service already stored is reused. Returns the
    /// service's index, or `None` if the computer does not exist (nothing
    /// changes) or already has the service (the service stays stored).
    pub fn add_service(&mut self, service: Service, computer_id: usize) -> (r: Option<usize>)
        ensures
            State::adds_service(*old(self), *final(self), service, computer_id, r),
            old(self).wf() && old(self).information.service_fits(service) ==> final(self).wf(),
    {
        if computer_id >= self.information.computers.len() {
            return None;
        }
        let n = self.information.services.len();
        let mut idx: usize = 0;
        while idx < n && !self.information.services[idx].eq(&service)
            invariant
                idx <= n == self.information.services@.len(),
                forall|k: int| 0 <= k < idx ==> #[trigger] self.information.services@[k].key() != service.key(),
            decreases n - idx,
        {
            idx += 1;
        }
        let ghost old_info = self.information;
        proof {
            let ks = service_keys_of(old_info.services@);
            lemma_first_index(ks, service.key());
            let f = first_index(ks, service.key());
            if f < idx {
                assert(ks[f] == old_info.services@[f].key());
            }
            if f > idx {
                assert(ks[idx as int] == old_info.services@[idx as int].key());
            }
            assert(f == idx);
        }
        if idx == n {
            self.information.services.push(service);
        }
        if contains_index(&self.information.computers[computer_id].services, idx) {
            return None;
        }
        let ghost mid_info = self.information;
        self.information.computers[computer_id].services.push(idx);
        proof {
            let new_info = self.information;
            if old_info.wf() && old_info.service_fits(service) {
                assert(new_info.computer_names() =~= old_info.computer_names());
                if idx == n {
                    if old_info.service_keys().contains(service.key()) {
                        let k = choose|k: int| 0 <= k < n && old_info.service_keys()[k] == service.key();
                        assert(old_info.services@[k].key() == service.key());
                    }
                    assert(new_info.service_keys() =~= old_info.service_keys().push(service.key()));
                    lemma_no_duplicates_push(old_info.service_keys(), service.key());
                } else {
                    assert(new_info.service_keys() =~= old_info.service_keys());
                }
                assert forall|k: int| 0 <= k < new_info.computers@.len() implies new_info.computer_fits(
                    #[trigger] new_info.computers@[k],
                ) by {
                    assert(old_info.computer_fits(old_info.computers@[k]));
                    if k == computer_id {
                        lemma_index_list_push(
                            old_info.computers@[k].services@,
                            n as int,
                            new_info.services@.len() as int,
                            idx,
                        );
                    }
                }
                assert forall|k: int| 0 <= k < new_info.services@.len() implies new_info.service_fits(
                    #[trigger] new_info.services@[k],
                ) by {
                    if k < n {
                        assert(old_info.service_fits(old_info.services@[k]));
                    }
                }
                assert forall|k: int| 0 <= k < new_info.software@.len() implies new_info.software_fits(
                    #[trigger] new_info.software@[k],
                ) by {
                    assert(old_info.software_fits(old_info.software@[k]));
                }
            }
        }
        Some(idx)
    }

    /// Adds a vulnerability; returns its index, or `None` (and changes
    /// nothing) if a vulnerability with the same CVE exists.
    pub fn add_vulnerability(&mut self, vulnerability: Vulnerability) -> (r: Option<usize>)
        ensures
            (exists|i: int| 0 <= i < old(self).information.vulnerabilities@.len()
                && #[trigger] old(self).information.vulnerabilities@[i].cve@ == vulnerability.cve@)
                ==> r is None && *final(self) == *old(self),
            !(exists|i: int| 0 <= i < old(self).information.vulnerabilities@.len()
                && #[trigger] old(self).information.vulnerabilities@[i].cve@ == vulnerability.cve@)
                ==> {
                &&& r matches Some(k) && k == old(self).information.vulnerabilities@.len()
                &&& final(self).information.vulnerabilities@ == old(self).information.vulnerabilities@.push(vulnerability)
                &&& final(self).information.computers == old(self).information.computers
                &&& final(self).information.ips == old(self).information.ips
                &&& final(self).information.software == old(self).information.software
                &&& final(self).information.services == old(self).information.services
                &&& final(self).information.domains == old(self).information.domains
                &&& final(self).information.users == old(self).information.users
                &&& final(self).information.facts == old(self).information.facts
                &&& final(self).time_line == old(self).time_line
            },
            old(self).wf() && old(self).information.vulnerability_fits(vulnerability) ==> final(self).wf(),
    {
        let n = self.information.vulnerabilities.len();
        let mut i: usize = 0;
        while i < n
            invariant
                i <= n == self.information.vulnerabilities@.len(),
                forall|k: int| 0 <= k < i ==> #[trigger] self.information.vulnerabilities@[k].cve@ != vulnerability.cve@,
            decreases n - i,
        {
            if self.information.vulnerabilities[i].cve == vulnerability.cve {
                return None;
            }
            i += 1;
        }
        let ghost old_info = self.information;
        self.information.vulnerabilities.push(vulnerability);
        proof {
            let new_info = self.information;
            if old_info.wf() && old_info.vulnerability_fits(vulnerability) {
                assert(new_info.cves() =~= old_info.cves().push(vulnerability.cve@));
                lemma_no_duplicates_push(old_info.cves(), vulnerability.cve@);
                assert forall|k: int| 0 <= k < new_info.software@.len() implies new_info.software_fits(
                    #[trigger] new_info.software@[k],
                ) by {
                    assert(old_info.software_fits(old_info.software@[k]));
                }
                assert forall|k: int| 0 <= k < new_info.vulnerabilities@.len() implies new_info.vulnerability_fits(
                    #[trigger] new_info.vulnerabilities@[k],
                ) by {
                    if k < n {
                        assert(old_info.vulnerability_fits(old_info.vulnerabilities@[k]));
                    }
                }
            }
        }
        Some(n)
    }

    /// Adds a domain; returns its index, or `None` (and changes nothing) if
    /// the domain is already known.
    pub fn add_domain(&mut self, domain: String) -> (r: Option<usize>)
        ensures
            old(self).information.domain_names().contains(domain@) ==> r is None && *final(self) == *old(self),
            !old(self).information.domain_names().contains(domain@) ==> {
                &&& r matches Some(k) && k == old(self).information.domains@.len()
                &&& final(self).information.domains@ == old(self).information.domains@.push(domain)
                &&& final(self).information.computers == old(self).information.computers
                &&& final(self).information.ips == old(self).information.ips
                &&& final(self).information.software == old(self).information.software
                &&& final(self).information.services == old(self).information.services
                &&& final(self).information.vulnerabilities == old(self).information.vulnerabilities
                &&& final(self).information.users == old(self).information.users
                &&& final(self).information.facts == old(self).information.facts
                &&& final(self).time_line == old(self).time_line
            },
            old(self).wf() ==> final(self).wf(),
    {
        let n = self.information.domains.len();
        let mut i: usize = 0;
        while i < n
            invariant
                i <= n == self.information.domains@.len(),
                forall|k: int| 0 <= k < i ==> #[trigger] self.information.domains@[k]@ != domain@,
            decreases n - i,
        {
            if self.information.domains[i] == domain {
                assert(self.information.domain_names()[i as int] == domain@);
                return None;
            }
            i += 1;
        }
        let ghost old_info = self.information;
        assert(!old_info.domain_names().contains(domain@)) by {
            if old_info.domain_names().contains(domain@) {
                let k = choose|k: int| 0 <= k < n && old_info.domain_names()[k] == domain@;
                assert(old_info.domains@[k]@ == domain@);
            }
        }
        self.information.domains.push(domain);
        proof {
            let new_info = self.information;
            if old_info.wf() {
                assert(new_info.domain_names() =~= old_info.domain_names().push(domain@));
                lemma_no_duplicates_push(old_info.domain_names(), domain@);
            }
        }
        Some(n)
    }

    /// Adds a user; returns its index, or `None` (and changes nothing) if the
    /// same user (all fields equal) is already known.
    pub fn add_user(&mut self, user: User) -> (r: Option<usize>)
        ensures
            old(self).information.user_keys().contains(user.key()) ==> r is None && *final(self) == *old(self),
            !old(self).information.user_keys().contains(user.key()) ==> {
                &&& r matches Some(k) && k == old(self).information.users@.len()
                &&& final(self).information.users@ == old(self).information.users@.push(user)
                &&& final(self).information.computers == old(self).information.computers
                &&& final(self).information.ips == old(self).information.ips
                &&& final(self).information.software == old(self).information.software
                &&& final(self).information.services == old(self).information.services
                &&& final(self).information.vulnerabilities == old(self).information.vulnerabilities
                &&& final(self).information.domains == old(self).information.domains
                &&& final(self).information.facts == old(self).information.facts
                &&& final(self).time_line == old(self).time_line
            },
            old(self).wf() ==> final(self).wf(),
    {
        let n = self.information.users.len();
        let mut i: usize = 0;
        while i < n
            invariant
                i <= n == self.information.users@.len(),
                forall|k: int| 0 <= k < i ==> #[trigger] self.information.users@[k].key() != user.key(),
            decreases n - i,
        {
            if same_user(&self.information.users[i], &user) {
                assert(self.information.user_keys()[i as int] == user.key());
                return None;
            }
            i += 1;
        }
        let ghost old_info = self.information;
        assert(!old_info.user_keys().contains(user.key())) by {
            if old_info.user_keys().contains(user.key()) {
                let k = choose|k: int| 0 <= k < n && old_info.user_keys()[k] == user.key();
                assert(old_info.users@[k].key() == user.key());
            }
        }
        self.information.users.push(user);
        proof {
            let new_info = self.information;
            if old_info.wf() {
                assert(new_info.user_keys() =~= old_info.user_keys().push(user.key()));
                lemma_no_duplicates_push(old_info.user_keys(), user.key());
            }
        }
        Some(n)
    }

    /// Adds a fact; returns its index, or `None` (and changes nothing) if the
    /// fact is already known.
    pub fn add_fact(&mut self, fact: String) -> (r: Option<usize>)
        ensures
            old(self).information.fact_texts().contains(fact@) ==> r is None && *final(self) == *old(self),
            !old(self).information.fact_texts().contains(fact@) ==> {
                &&& r matches Some(k) && k == old(self).information.facts@.len()
                &&& final(self).information.facts@ == old(self).information.facts@.push(fact)
                &&& final(self).information.computers == old(self).information.computers
                &&& final(self).information.ips == old(self).information.ips
                &&& final(self).information.software == old(self).information.software
                &&& final(self).information.services == old(self).information.services
                &&& final(self).information.vulnerabilities == old(self).information.vulnerabilities
                &&& final(self).information.domains == old(self).information.domains
                &&& final(self).information.users == old(self).information.users
                &&& final(self).time_line == old(self).time_line
            },
            old(self).wf() ==> final(self).wf(),
    {
        let n = self.information.facts.len();
        let mut i: usize = 0;
        while i < n
            invariant
                i <= n == self.information.facts@.len(),
                forall|k: int| 0 <= k < i ==> #[trigger] self.information.facts@[k]@ != fact@,
            decreases n - i,
        {
            if self.information.facts[i] == fact {
                assert(self.information.fact_texts()[i as int] == fact@);
                return None;
            }
            i += 1;
        }
        let ghost old_info = self.information;
        assert(!old_info.fact_texts().contains(fact@)) by {
            if old_info.fact_texts().contains(fact@) {
                let k = choose|k: int| 0 <= k < n && old_info.fact_texts()[k] == fact@;
                assert(old_info.facts@[k]@ == fact@);
            }
        }
        self.information.facts.push(fact);
        proof {
            let new_info = self.information;
            if old_info.wf() {
                assert(new_info.fact_texts() =~= old_info.fact_texts().push(fact@));
                lemma_no_duplicates_push(old_info.fact_texts(), fact@);
            }
        }
        Some(n)
    }

    /// The index of the first computer named exactly `name`.
    pub fn get_computer_id(&self, name: &str) -> (r: Option<usize>)
        ensures
            computer_named(self.information.computers@, name@) < self.information.computers@.len()
                ==> (r matches Some(k) && k == computer_named(self.information.computers@, name@)),
            computer_named(self.information.computers@, name@) == self.information.computers@.len()
                ==> r is None,
    {
        let n = self.information.computers.len();
        let mut i: usize = 0;
        proof {
            lemma_computer_named(self.information.computers@, name@);
        }
        while i < n
            invariant
                i <= n == self.information.computers@.len(),
                forall|k: int| 0 <= k < i ==> #[trigger] self.information.computers@[k].name@ != name@,
            decreases n - i,
        {
            if same_text(self.information.computers[i].name.as_str(), name) {
                proof {
                    lemma_computer_named(self.information.computers@, name@);
                }
                return Some(i);
            }
            i += 1;
        }
        None
    }

    /// Relates the address `id_ip` to the computer `id_computer`; returns
    /// `false` (and changes nothing) if they are already related.
    pub fn relate_ip_computer(&mut self, id_computer: usize, id_ip: usize) -> (added: bool)
        requires
            id_ip < old(self).information.ips@.len(),
            id_computer < old(self).information.computers@.len(),
        ensures
            added == !old(self).information.computers@[id_computer as int].ips@.contains(id_ip),
            !added ==> *final(self) == *old(self),
            added ==> {
                &&& only_changed_at(old(self).information.computers@, final(self).information.computers@, id_computer as int)
                &&& ip_appended(
                    old(self).information.computers@[id_computer as int],
                    final(self).information.computers@[id_computer as int],
                    id_ip as int,
                )
                &&& final(self).information.ips == old(self).information.ips
                &&& final(self).information.software == old(self).information.software
                &&& final(self).information.services == old(self).information.services
                &&& final(self).information.vulnerabilities == old(self).information.vulnerabilities
                &&& final(self).information.domains == old(self).information.domains
                &&& final(self).information.users == old(self).information.users
                &&& final(self).information.facts == old(self).information.facts
                &&& final(self).time_line == old(self).time_line
            },
            old(self).wf() ==> final(self).wf(),
    {
        if contains_index(&self.information.computers[id_computer].ips, id_ip) {
            return false;
        }
        let ghost old_info = self.information;
        self.information.computers[id_computer].ips.push(id_ip);
        proof {
            let new_info = self.information;
            if old_info.wf() {
                assert(new_info.computer_names() =~= old_info.computer_names());
                assert forall|k: int| 0 <= k < new_info.computers@.len() implies new_info.computer_fits(
                    #[trigger] new_info.computers@[k],
                ) by {
                    assert(old_info.computer_fits(old_info.computers@[k]));
                    if k == id_computer {
                        let n = old_info.ips@.len() as int;
                        lemma_index_list_push(old_info.computers@[k].ips@, n, n, id_ip);
                    }
                }
            }
        }
        true
    }

    /// Adds the addresses of `ips` that are not known yet, in order and each
    /// once, and relates them to the computer `id`; returns their indices.
    pub fn add_ips(&mut self, ips: &Vec<IpAddress>, id: usize) -> (added: Vec<usize>)
        requires
            id < old(self).information.computers@.len(),
        ensures
            final(self).information.ips@ == old(self).information.ips@ + new_ips(old(self).information.ips@, ips@),
            is_index_range(added@, old(self).information.ips@.len() as int, new_ips(old(self).information.ips@, ips@).len() as int),
            only_changed_at(old(self).information.computers@, final(self).information.computers@, id as int),
            same_identity(old(self).information.computers@[id as int], final(self).information.computers@[id as int]),
            final(self).information.computers@[id as int].ips@ == old(self).information.computers@[id as int].ips@ + added@,
            final(self).information.computers@[id as int].services@ == old(self).information.computers@[id as int].services@,
            final(self).information.computers@[id as int].software@ == old(self).information.computers@[id as int].software@,
            final(self).time_line == old(self).time_line,
            final(self).information.software == old(self).information.software,
            final(self).information.services == old(self).information.services,
            final(self).information.vulnerabilities == old(self).information.vulnerabilities,
            final(self).information.domains == old(self).information.domains,
            final(self).information.users == old(self).information.users,
            final(self).information.facts == old(self).information.facts,
            old(self).wf() ==> final(self).wf(),
    {
        let ghost s0 = *self;
        let n = self.information.ips.len();
        let mut added: Vec<usize> = Vec::new();
        let mut i: usize = 0;
        assert(s0.information.computers@.update(id as int, s0.information.computers@[id as int]) == s0.information.computers@);
        while i < ips.len()
            invariant
                i <= ips.len(),
                id < s0.information.computers@.len(),
                n == s0.information.ips@.len(),
                self.information.ips@ == s0.information.ips@ + new_ips(s0.information.ips@, ips@.take(i as int)),
                is_index_range(added@, n as int, new_ips(s0.information.ips@, ips@.take(i as int)).len() as int),
                only_changed_at(s0.information.computers@, self.information.computers@, id as int),
                same_identity(s0.information.computers@[id as int], self.information.computers@[id as int]),
                self.information.computers@[id as int].ips@ == s0.information.computers@[id as int].ips@ + added@,
                self.information.computers@[id as int].services@ == s0.information.computers@[id as int].services@,
                self.information.computers@[id as int].software@ == s0.information.computers@[id as int].software@,
                self.time_line == s0.time_line,
                self.information.software == s0.information.software,
                self.information.services == s0.information.services,
                self.information.vulnerabilities == s0.information.vulnerabilities,
                self.information.domains == s0.information.domains,
                self.information.users == s0.information.users,
                self.information.facts == s0.information.facts,
                s0.wf() ==> self.wf(),
            decreases ips.len() - i,
        {
            let ghost before = *self;
            let ghost f = new_ips(s0.information.ips@, ips@.take(i as int));
            assert(ips@.take(i + 1).drop_last() == ips@.take(i as int));
            assert(ips@.take(i + 1).last() == ips@[i as int]);
            let r = self.add_ip(ips[i], id);
            match r {
                Some(x) => {
                    added.push(x);
                    assert(self.information.ips@ == s0.information.ips@ + f.push(ips@[i as int]));
                    assert(self.information.computers@[id as int].ips@ =~= s0.information.computers@[id as int].ips@ + added@);
                    assert(self.information.computers@ == s0.information.computers@.update(id as int, self.information.computers@[id as int]));
                },
                None => {},
            }
            i += 1;
        }
        assert(ips@.take(ips.len() as int) == ips@);
        added
    }
}


/// A computer that was added is found by its name, at the index returned.
pub proof fn law_added_computer_is_found(old: State, new: State, c: Computer, id: usize)
    requires
        State::adds_computer(old, new, c, Some(id)),
    ensures
        computer_named(new.information.computers@, c.name@) == id,
{
    let n = old.information.computers@.len();
    assert(!(exists|i: int| 0 <= i < n && #[trigger] old.information.computers@[i].name@ == c.name@));
    lemma_computer_named(new.information.computers@, c.name@);
    let f = computer_named(new.information.computers@, c.name@);
    assert(new.information.computers@[n as int] == c);
    if f < n {
        assert(new.information.computers@[f] == old.information.computers@[f]);
    }
}

/// A second computer with the name of one already added is refused, and
/// nothing changes.
pub proof fn law_computer_added_once(s1: State, s2: State, s3: State, c: Computer, d: Computer, r: Option<usize>, id: usize)
    requires
        State::adds_computer(s1, s2, c, Some(id)),
        d.name@ == c.name@,
        State::adds_computer(s2, s3, d, r),
    ensures
        r is None,
        s3 == s2,
{
    assert(s2.information.computers@[s1.information.computers@.len() as int].name@ == d.name@);
}

/// An address that was added once is refused the second time (for any
/// computer), and nothing changes.
pub proof fn law_ip_added_once(s1: State, s2: State, s3: State, ip: IpAddress, id1: usize, id2: usize, r: Option<usize>, k: usize)
    requires
        State::adds_ip(s1, s2, ip, id1, Some(k)),
        State::adds_ip(s2, s3, ip, id2, r),
    ensures
        r is None,
        s3 == s2,
{
    assert(s2.information.ips@[s1.information.ips@.len() as int] == ip);
}

/// Software that was added once (same name and version) is refused the
/// second time, and nothing changes.
pub proof fn law_software_added_once(
    s1: State,
    s2: State,
    s3: State,
    a: Software,
    b: Software,
    c1: Option<usize>,
    c2: Option<usize>,
    r: Option<usize>,
    k: usize,
)
    requires
        State::adds_software(s1, s2, a, c1, Some(k)),
        b.key() == a.key(),
        State::adds_software(s2, s3, b, c2, r),
    ensures
        r is None,
        s3 == s2,
{
    assert(s2.information.software@[s1.information.software@.len() as int].key() == b.key());
}

/// A service added to a computer is stored at the index returned, and
/// adding it to that computer again is refused without any change.
pub proof fn law_service_added_once(s1: State, s2: State, s3: State, sv: Service, id: usize, k: usize, r: Option<usize>)
    requires
        State::adds_service(s1, s2, sv, id, Some(k)),
        State::adds_service(s2, s3, sv, id, r),
    ensures
        s2.information.services@[k as int].key() == sv.key(),
        r is None,
        s3 == s2,
{
    let ks1 = service_keys_of(s1.information.services@);
    let ks2 = service_keys_of(s2.information.services@);
    lemma_first_index(ks1, sv.key());
    lemma_first_index(ks2, sv.key());
    let f1 = first_index(ks1, sv.key());
    let f2 = first_index(ks2, sv.key());
    if f1 < s1.information.services@.len() {
        assert(ks1 == ks2);
        assert(ks1[f1] == s1.information.services@[f1].key());
    } else {
        assert(ks2[f1] == sv.key());
        if f2 < f1 {
            assert(ks2[f2] == ks1[f2]);
        }
    }
    assert(f2 == k);
    let c2 = s2.information.computers@[id as int];
    assert(c2.services@[c2.services@.len() - 1] == k);
    assert(holds(c2.services@, f2));
}

/// A state that holds no information is consistent.
pub proof fn law_empty_state_is_consistent(s: State)
    requires
        s.information.computers@.len() == 0,
        s.information.ips@.len() == 0,
        s.information.software@.len() == 0,
        s.information.services@.len() == 0,
        s.information.vulnerabilities@.len() == 0,
        s.information.domains@.len() == 0,
        s.information.users@.len() == 0,
        s.information.facts@.len() == 0,
    ensures
        s.wf(),
{
}

} // verus!
