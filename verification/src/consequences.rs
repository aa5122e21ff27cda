//! Consequences of the actions taken.

use vstd::prelude::*;

use crate::action::{handle_general_custom, custom_content};
use crate::information::{
    names_of, opt_view, Computer, ComputerControl, InfoClass, InfoRef, IpAddress, Software, Virtualization,
};
use crate::node::{
    computer_named, is_index_range, lemma_computer_named, new_ips, only_changed_at, same_identity,
    software_appended, Category, Node, State,
};
use crate::node::{appended, holds, lemma_holds_push, service_appended, service_position};
use crate::information::{
    all_below, contains_index, first_index, lemma_first_index, lemma_index_list_push, lemma_no_duplicates_push,
    no_duplicates, service_keys_of,
    Information, Service,
};
use crate::text::{
    custom_summary, parse_unsigned, parse_unsigned_spec, standard_name, standardize_name,
    chars_of, same_text, summarize_custom, summary_defined,
};

verus! {

/// A consequence of an action.
#[derive(Debug, Clone, Hash, PartialEq, Eq)]
pub enum Consequence {
    Custom(String),
    /// Output of a command, and what it wrote to its error stream.
    Command(String, String),
    NewInformation(InfoRef),
    /// The Blue team (defenders) have discovered the activity.
    Detection,
    /// No consequence for the previous action (`None` in the stored format).
    NoConsequence,
}

impl Consequence {
    /// Only custom consequences have a summary, and only when it can be cut.
    pub open spec fn has_summary(&self) -> bool {
        match self {
            Consequence::Custom(c) => summary_defined(c@),
            _ => false,
        }
    }

    /// The summary of a custom consequence.
    pub open spec fn summary(&self) -> Seq<char> {
        match self {
            Consequence::Custom(c) => custom_summary(c@),
            _ => Seq::empty(),
        }
    }

    /// A one-line summary of a custom consequence (see `custom_summary`).
    pub fn to_string(&self) -> (r: String)
        requires
            self.has_summary(),
        ensures
            r@ == self.summary(),
    {
        match self {
            Consequence::Custom(content) => summarize_custom(content.as_str()),
            _ => String::new(),
        }
    }
}


/// A node that records new information of the given class at the given index.
pub open spec fn is_new_info(n: Node, class: InfoClass, index: int) -> bool {
    &&& n.category matches Category::Consequence(Consequence::NewInformation(r))
    &&& r.class == class
    &&& r.index == index
}

/// The node for new information of the given class at the given index.
fn new_info_node(class: InfoClass, index: usize) -> (n: Node)
    ensures
        is_new_info(n, class, index as int),
{
    Node::new(Category::Consequence(Consequence::NewInformation(InfoRef { index, class })))
}

/// A custom consequence: the text given as argument and/or through the
/// standard input (see `handle_general_custom`); no node when it is empty.
pub fn handle_subcommand_custom(content_arg: Option<&str>, stdin: &str) -> (nodes: Vec<Node>)
    ensures
        custom_content(opt_str_view(content_arg), stdin@).len() == 0 ==> nodes@.len() == 0,
        custom_content(opt_str_view(content_arg), stdin@).len() > 0 ==> {
            &&& nodes@.len() == 1
            &&& nodes@[0].category matches Category::Consequence(Consequence::Custom(c))
            &&& c@ == custom_content(opt_str_view(content_arg), stdin@)
        },
{
    let contents = handle_general_custom(content_arg, stdin);
    let mut nodes: Vec<Node> = Vec::new();
    if !contents.as_str().is_empty() {
        nodes.push(Node::new(Category::Consequence(Consequence::Custom(contents))));
    }
    nodes
}

/// Records a new computer with the standardised name and the given
/// addresses (known addresses are skipped). Nothing changes, and no node is
/// made, when a computer with that name exists.
pub fn handle_subcommand_computer(state: &mut State, name: &str, ips: &Vec<IpAddress>) -> (nodes: Vec<Node>)
    ensures
        names_of(old(state).information.computers@).contains(standard_name(name@)) ==> {
            nodes@.len() == 0 && *final(state) == *old(state)
        },
        !names_of(old(state).information.computers@).contains(standard_name(name@)) ==> {
            let n = old(state).information.computers@.len();
            let fresh = new_ips(old(state).information.ips@, ips@);
            let c = final(state).information.computers@[n as int];
            &&& nodes@.len() == 1
            &&& is_new_info(nodes@[0], InfoClass::Computer, n as int)
            &&& final(state).information.computers@.len() == n + 1
            &&& final(state).information.computers@.take(n as int) == old(state).information.computers@
            &&& c.name@ == standard_name(name@)
            &&& is_index_range(c.ips@, old(state).information.ips@.len() as int, fresh.len() as int)
            &&& c.ports@.len() == 0 && c.services@.len() == 0 && c.software@.len() == 0
            &&& !c.is_honeypot && c.is_virtualized == Virtualization(false, None)
            &&& c.infection_level == ComputerControl::NoControl && c.operating_system is None
            &&& final(state).information.ips@ == old(state).information.ips@ + fresh
            &&& final(state).time_line == old(state).time_line
            &&& final(state).information.software == old(state).information.software
            &&& final(state).information.services == old(state).information.services
            &&& final(state).information.vulnerabilities == old(state).information.vulnerabilities
            &&& final(state).information.domains == old(state).information.domains
            &&& final(state).information.users == old(state).information.users
            &&& final(state).information.facts == old(state).information.facts
        },
        old(state).wf() ==> final(state).wf(),
{
    let new_computer = Computer::new(name);
    let ghost s0 = *state;
    let id = match state.add_computer(new_computer) {
        Some(v) => v,
        None => {
            proof {
                let k = choose|i: int|
                    0 <= i < s0.information.computers@.len()
                        && #[trigger] s0.information.computers@[i].name@ == standard_name(name@);
                assert(names_of(s0.information.computers@)[k] == standard_name(name@));
            }
            return Vec::new();
        },
    };
    proof {
        if names_of(s0.information.computers@).contains(standard_name(name@)) {
            let k = choose|i: int|
                0 <= i < names_of(s0.information.computers@).len()
                    && names_of(s0.information.computers@)[i] == standard_name(name@);
            assert(s0.information.computers@[k].name@ == standard_name(name@));
        }
    }
    let ghost s1 = *state;
    assert(State::adds_computer(s0, s1, new_computer, Some(id)));
    assert(!(exists|i: int|
            0 <= i < s0.information.computers@.len()
                && #[trigger] s0.information.computers@[i].name@ == new_computer.name@));
    assert(id == s0.information.computers@.len());
    assert(s1.information.computers@ == s0.information.computers@.push(new_computer));
    assert(s1.information.computers@.take(id as int) == s0.information.computers@);
    state.add_ips(ips, id);
    assert(state.information.computers@.take(id as int) == s1.information.computers@.take(id as int));
    let mut nodes: Vec<Node> = Vec::new();
    nodes.push(new_info_node(InfoClass::Computer, id));
    nodes
}

/// Relates the given addresses (known addresses are skipped) to the first
/// computer named exactly `computer_tag`, with one node per new address.
/// Nothing changes when there is no such computer.
pub fn handle_subcommand_ip(state: &mut State, computer_tag: &str, ips: &Vec<IpAddress>) -> (nodes: Vec<Node>)
    ensures
        ({
            let id = computer_named(old(state).information.computers@, computer_tag@);
            let n = old(state).information.ips@.len();
            let fresh = new_ips(old(state).information.ips@, ips@);
            if id == old(state).information.computers@.len() {
                nodes@.len() == 0 && *final(state) == *old(state)
            } else {
                &&& nodes@.len() == fresh.len()
                &&& forall|k: int| 0 <= k < nodes@.len() ==> is_new_info(#[trigger] nodes@[k], InfoClass::IP, n + k)
                &&& final(state).information.ips@ == old(state).information.ips@ + fresh
                &&& only_changed_at(old(state).information.computers@, final(state).information.computers@, id)
                &&& same_identity(old(state).information.computers@[id], final(state).information.computers@[id])
                &&& is_index_range(final(state).information.computers@[id].ips@.skip(old(state).information.computers@[id].ips@.len() as int), n as int, fresh.len() as int)
                &&& final(state).information.computers@[id].ips@.take(old(state).information.computers@[id].ips@.len() as int) == old(state).information.computers@[id].ips@
                &&& final(state).information.computers@[id].services@ == old(state).information.computers@[id].services@
                &&& final(state).information.computers@[id].software@ == old(state).information.computers@[id].software@
                &&& final(state).time_line == old(state).time_line
                &&& final(state).information.software == old(state).information.software
                &&& final(state).information.services == old(state).information.services
                &&& final(state).information.vulnerabilities == old(state).information.vulnerabilities
                &&& final(state).information.domains == old(state).information.domains
                &&& final(state).information.users == old(state).information.users
                &&& final(state).information.facts == old(state).information.facts
            }
        }),
        old(state).wf() ==> final(state).wf(),
{
    let computer_id = match state.get_computer_id(computer_tag) {
        Some(v) => v,
        None => {
            return Vec::new();
        },
    };
    proof {
        lemma_computer_named(state.information.computers@, computer_tag@);
    }
    let added = state.add_ips(ips, computer_id);
    let mut nodes: Vec<Node> = Vec::new();
    let mut i: usize = 0;
    while i < added.len()
        invariant
            i <= added.len(),
            nodes@.len() == i,
            forall|k: int| 0 <= k < i ==> is_new_info(#[trigger] nodes@[k], InfoClass::IP, added@[k] as int),
        decreases added.len() - i,
    {
        nodes.push(new_info_node(InfoClass::IP, added[i]));
        i += 1;
    }
    nodes
}

/// The view of an optional string slice.
pub open spec fn opt_str_view(o: Option<&str>) -> Option<Seq<char>> {
    match o {
        Some(s) => Some(s@),
        None => None,
    }
}

/// Records new software, made by `Software::new` from the arguments, and
/// relates it to the computer whose name is the standardisation of
/// `computer_name`, if given. Nothing changes, and no node is made, when that
/// computer does not exist or the software (same name and version) does.
pub fn handle_subcommand_software(
    state: &mut State,
    name: &str,
    description: &str,
    computer_name: Option<&str>,
    version: Option<String>,
) -> (nodes: Vec<Node>)
    ensures
        ({
            let comp = match computer_name {
                Some(c) => Some(computer_named(old(state).information.computers@, standard_name(c@))),
                None => None,
            };
            let missing_computer = comp is Some && comp->0 == old(state).information.computers@.len();
            let key = (standard_name(name@), match opt_view(version) {
                Some(v) => Some(crate::text::standard_version(v)),
                None => None,
            });
            let exists_already = old(state).information.software_keys().contains(key);
            if missing_computer || exists_already {
                nodes@.len() == 0 && *final(state) == *old(state)
            } else {
                let n = old(state).information.software@.len();
                &&& nodes@.len() == 1
                &&& is_new_info(nodes@[0], InfoClass::Software, n as int)
                &&& final(state).information.software@.len() == n + 1
                &&& final(state).information.software@.take(n as int) == old(state).information.software@
                &&& final(state).information.software@[n as int].made_from(name@, description@, opt_view(version))
                &&& match comp {
                    Some(c) => only_changed_at(old(state).information.computers@, final(state).information.computers@, c)
                        && software_appended(old(state).information.computers@[c], final(state).information.computers@[c], n as int),
                    None => final(state).information.computers == old(state).information.computers,
                }
                &&& final(state).time_line == old(state).time_line
                &&& final(state).information.ips == old(state).information.ips
                &&& final(state).information.services == old(state).information.services
                &&& final(state).information.vulnerabilities == old(state).information.vulnerabilities
                &&& final(state).information.domains == old(state).information.domains
                &&& final(state).information.users == old(state).information.users
                &&& final(state).information.facts == old(state).information.facts
            }
        }),
        old(state).wf() ==> final(state).wf(),
{
    let computers_id_opt: Option<usize> = match computer_name {
        Some(comp_name) => {
            let std_name = standardize_name(comp_name);
            let comp_id = state.get_computer_id(std_name.as_str());
            if comp_id.is_none() {
                return Vec::new();
            }
            proof {
                lemma_computer_named(state.information.computers@, std_name@);
            }
            comp_id
        },
        None => None,
    };
    let ghost ver = opt_view(version);
    let new_software = Software::new(name, description, version);
    let ghost s0 = *state;
    let id = match state.add_software(new_software, computers_id_opt) {
        Some(id) => id,
        None => {
            proof {
                let k = choose|i: int|
                    0 <= i < s0.information.software@.len()
                        && #[trigger] s0.information.software@[i].key() == new_software.key();
                assert(s0.information.software_keys()[k] == new_software.key());
            }
            return Vec::new();
        },
    };
    proof {
        let key = new_software.key();
        if s0.information.software_keys().contains(key) {
            let k = choose|i: int|
                0 <= i < s0.information.software_keys().len() && s0.information.software_keys()[i] == key;
            assert(s0.information.software@[k].key() == key);
        }
        assert(state.information.software@.take(id as int) == s0.information.software@);
    }
    let mut nodes: Vec<Node> = Vec::new();
    nodes.push(new_info_node(InfoClass::Software, id));
    nodes
}


#[verifier::external_type_specification]
#[verifier::external_body]
pub struct ExRegex(regex::Regex);

#[verifier::external_type_specification]
#[verifier::external_body]
pub struct ExRegexError(regex::Error);

/// Whether `regex::Regex::new` accepts the pattern.
pub uninterp spec fn regex_compiles(pattern: Seq<char>) -> bool;

/// Whether the regular expression `pattern` matches somewhere in `haystack`
/// (`regex::Regex::is_match`).
pub uninterp spec fn regex_matches(pattern: Seq<char>, haystack: Seq<char>) -> bool;

/// A regular expression for computer names, with the text it was compiled from.
pub struct ComputerPattern {
    source: String,
    compiled: regex::Regex,
}

impl ComputerPattern {
    /// The text the pattern was compiled from.
    pub closed spec fn source(&self) -> Seq<char> {
        self.source@
    }

    /// Compiles a pattern with `regex::Regex::new`. The contract claims that
    /// the call succeeds exactly for the patterns that `regex_compiles` names,
    /// and that the result remembers the pattern's text; what `regex` accepts
    /// is not stated.
    #[verifier::external_body]
    fn compile(pattern: &str) -> (r: Result<ComputerPattern, regex::Error>)
        ensures
            r is Ok <==> regex_compiles(pattern@),
            r matches Ok(p) ==> p.source() == pattern@,
    {
        match regex::Regex::new(pattern) {
            Ok(re) => Ok(ComputerPattern { source: pattern.to_string(), compiled: re }),
            Err(e) => Err(e),
        }
    }

    /// `regex::Regex::is_match` on the compiled pattern. The contract claims
    /// that the answer is `regex_matches` of the pattern's text and the
    /// haystack (the pattern was compiled from that text, see `compile`).
    #[verifier::external_body]
    fn is_match(&self, haystack: &str) -> (b: bool)
        ensures
            b == regex_matches(self.source(), haystack@),
    {
        self.compiled.is_match(haystack)
    }
}

/// Why the computers of a service could not be found.
#[derive(Debug)]
pub enum ServiceError {
    /// The pattern is not a regular expression that `regex` accepts.
    InvalidPattern(regex::Error),
    /// No computer name matches the pattern.
    NoMatch,
    /// No computer has the (standardised) name.
    ComputerNotFound,
}

/// `v` is the ascending list of the indices of the computers whose name the
/// pattern matches.
pub open spec fn is_matching_list(v: Seq<usize>, computers: Seq<Computer>, pattern: Seq<char>) -> bool {
    &&& forall|k: int| 0 <= k < v.len() ==> #[trigger] v[k] < computers.len()
    &&& forall|j: int, k: int| 0 <= j < k < v.len() ==> v[j] < v[k]
    &&& forall|i: int| 0 <= i < computers.len() ==> (regex_matches(pattern, #[trigger] computers[i].name@) <==> holds(v, i))
}

/// The indices, in ascending order, of the computers whose name the
/// pattern matches.
pub fn computers_matching(info: &Information, pattern: &ComputerPattern) -> (v: Vec<usize>)
    ensures
        is_matching_list(v@, info.computers@, pattern.source()),
{
    let mut v: Vec<usize> = Vec::new();
    let mut i: usize = 0;
    while i < info.computers.len()
        invariant
            i <= info.computers.len(),
            forall|k: int| 0 <= k < v.len() ==> #[trigger] v@[k] < i,
            forall|j: int, k: int| 0 <= j < k < v.len() ==> v@[j] < v@[k],
            forall|m: int| 0 <= m < i ==> (regex_matches(pattern.source(), #[trigger] info.computers@[m].name@) <==> holds(v@, m)),
        decreases info.computers.len() - i,
    {
        if pattern.is_match(info.computers[i].name.as_str()) {
            let ghost old_v = v@;
            v.push(i);
            proof {
                lemma_holds_push(old_v, i);
            }
        } else {
            assert(!holds(v@, i as int));
        }
        i += 1;
    }
    v
}

/// The computers a service is added to: those whose names the pattern
/// `computer_name` matches (when `use_regex`), or the computer whose name is
/// the standardisation of `computer_name`.
pub fn service_computers(info: &Information, computer_name: &str, use_regex: bool) -> (r: Result<Vec<usize>, ServiceError>)
    ensures
        use_regex ==> {
            &&& (r matches Err(ServiceError::InvalidPattern(_))) <==> !regex_compiles(computer_name@)
            &&& r matches Ok(v) ==> v@.len() > 0 && is_matching_list(v@, info.computers@, computer_name@)
            &&& (r matches Err(ServiceError::NoMatch)) ==> regex_compiles(computer_name@)
                && forall|i: int| 0 <= i < info.computers@.len() ==> !regex_matches(computer_name@, #[trigger] info.computers@[i].name@)
            &&& !(r matches Err(ServiceError::ComputerNotFound))
        },
        !use_regex ==> {
            let k = computer_named(info.computers@, standard_name(computer_name@));
            &&& k < info.computers@.len() ==> (r matches Ok(v) && v@.len() == 1 && v@[0] == k)
            &&& k == info.computers@.len() ==> (r matches Err(ServiceError::ComputerNotFound))
        },
{
    if use_regex {
        let pattern = match ComputerPattern::compile(computer_name) {
            Ok(p) => p,
            Err(e) => {
                return Err(ServiceError::InvalidPattern(e));
            },
        };
        let v = computers_matching(info, &pattern);
        if v.len() == 0 {
            return Err(ServiceError::NoMatch);
        }
        Ok(v)
    } else {
        let std_name = standardize_name(computer_name);
        proof {
            lemma_computer_named(info.computers@, std_name@);
        }
        let n = info.computers.len();
        let mut i: usize = 0;
        while i < n
            invariant
                i <= n == info.computers@.len(),
                !use_regex,
                std_name@ == standard_name(computer_name@),
                forall|k: int| 0 <= k < i ==> #[trigger] info.computers@[k].name@ != std_name@,
            decreases n - i,
        {
            if info.computers[i].name == std_name {
                proof {
                    lemma_computer_named(info.computers@, std_name@);
                }
                let mut v: Vec<usize> = Vec::new();
                v.push(i);
                return Ok(v);
            }
            i += 1;
        }
        Err(ServiceError::ComputerNotFound)
    }
}

/// Reads a port number: an unsigned decimal number of at most 65535 (as
/// `str::parse::<u16>` reads it); `None` when the text is not one.
pub fn parse_port(s: &str) -> (r: Option<u16>)
    ensures
        match parse_unsigned_spec(s@, 65535) {
            Some(v) => r == Some(v as u16),
            None => r is None,
        },
{
    match parse_unsigned(s, 65535) {
        Some(v) => Some(v as u16),
        None => None,
    }
}


/// The computer has software named `name` among its software.
pub open spec fn has_software_named(info: Information, c: Computer, name: Seq<char>) -> bool {
    exists|k: int|
        0 <= k < c.software@.len() && #[trigger] info.software@[c.software@[k] as int].name@ == name
}

/// Whether the computer has software named `name` among its software.
fn computer_has_software_named(info: &Information, c: &Computer, name: &str) -> (b: bool)
    requires
        all_below(c.software@, info.software@.len() as int),
    ensures
        b == has_software_named(*info, *c, name@),
{
    let mut k: usize = 0;
    while k < c.software.len()
        invariant
            k <= c.software.len(),
            all_below(c.software@, info.software@.len() as int),
            forall|m: int| 0 <= m < k ==> #[trigger] info.software@[c.software@[m] as int].name@ != name@,
        decreases c.software.len() - k,
    {
        let id = c.software[k];
        assert(c.software@[k as int] < info.software@.len());
        if same_text(info.software[id].name.as_str(), name) {
            return true;
        }
        k += 1;
    }
    false
}

/// `v` is the ascending list of the indices of the software named `name`.
pub open spec fn is_named_list(v: Seq<usize>, software: Seq<Software>, name: Seq<char>) -> bool {
    &&& forall|k: int| 0 <= k < v.len() ==> #[trigger] v[k] < software.len()
    &&& forall|j: int, k: int| 0 <= j < k < v.len() ==> v[j] < v[k]
    &&& forall|i: int| 0 <= i < software.len() ==> ((#[trigger] software[i]).name@ == name <==> holds(v, i))
}

/// The first of the computers `cids` (in that order) without software named
/// `name`.
pub open spec fn first_lacking(info: Information, cids: Seq<usize>, name: Seq<char>) -> Option<usize>
    decreases cids.len(),
{
    if cids.len() == 0 {
        None
    } else {
        match first_lacking(info, cids.drop_last(), name) {
            Some(c) => Some(c),
            None => if !has_software_named(info, info.computers@[cids.last() as int], name) {
                Some(cids.last())
            } else {
                None
            },
        }
    }
}

/// The computers `cids` exist and their software lists point into the
/// software.
pub open spec fn software_refs_in_range(info: Information, cids: Seq<usize>) -> bool {
    forall|k: int| 0 <= k < cids.len() ==> {
        &&& #[trigger] cids[k] < info.computers@.len()
        &&& all_below(info.computers@[cids[k] as int].software@, info.software@.len() as int)
    }
}

/// Whether the computers `computers_id` exist and their software lists point
/// into the software (see `software_refs_in_range`).
pub fn check_software_refs(info: &Information, computers_id: &Vec<usize>) -> (b: bool)
    ensures
        b == software_refs_in_range(*info, computers_id@),
{
    let mut k: usize = 0;
    while k < computers_id.len()
        invariant
            k <= computers_id.len(),
            software_refs_in_range(*info, computers_id@.take(k as int)),
        decreases computers_id.len() - k,
    {
        let c = computers_id[k];
        if c >= info.computers.len() {
            assert(computers_id@[k as int] == c);
            return false;
        }
        let list = &info.computers[c].software;
        let mut j: usize = 0;
        while j < list.len()
            invariant
                j <= list.len(),
                k < computers_id@.len(),
                c == computers_id@[k as int],
                c < info.computers@.len(),
                list@ == info.computers@[c as int].software@,
                forall|m: int| 0 <= m < j ==> #[trigger] list@[m] < info.software@.len(),
            decreases list.len() - j,
        {
            if list[j] >= info.software.len() {
                assert(list@[j as int] >= info.software@.len());
                assert(!all_below(info.computers@[computers_id@[k as int] as int].software@, info.software@.len() as int));
                return false;
            }
            j += 1;
        }
        assert forall|m: int| 0 <= m < k + 1 implies {
            &&& #[trigger] computers_id@.take(k + 1)[m] < info.computers@.len()
            &&& all_below(info.computers@[computers_id@.take(k + 1)[m] as int].software@, info.software@.len() as int)
        } by {
            if m < k {
                assert(computers_id@.take(k + 1)[m] == computers_id@.take(k as int)[m]);
            }
        }
        k += 1;
    }
    assert(computers_id@.take(computers_id@.len() as int) == computers_id@);
    true
}

/// What the software named in a service is.
pub enum SoftwareResolution {
    /// No software has the name.
    NotFound,
    /// One piece of software has the name; `lacking` is the first of the
    /// computers that has no software of that name, if any.
    Single { id: usize, lacking: Option<usize> },
    /// Several versions have the name: their indices, ascending.
    Multiple { ids: Vec<usize> },
}

/// Finds the software named `name` (standardised) for a service offered by
/// the computers `computers_id`.
pub fn resolve_software(info: &Information, name: &str, computers_id: &Vec<usize>) -> (r: SoftwareResolution)
    requires
        software_refs_in_range(*info, computers_id@),
    ensures
        match r {
            SoftwareResolution::NotFound => forall|i: int| 0 <= i < info.software@.len() ==> (#[trigger] info.software@[i]).name@ != name@,
            SoftwareResolution::Single { id, lacking } => is_named_list(seq![id], info.software@, name@)
                && lacking == first_lacking(*info, computers_id@, name@),
            SoftwareResolution::Multiple { ids } => ids@.len() >= 2 && is_named_list(ids@, info.software@, name@),
        },
{
    let mut ids: Vec<usize> = Vec::new();
    let mut i: usize = 0;
    while i < info.software.len()
        invariant
            i <= info.software.len(),
            forall|k: int| 0 <= k < ids.len() ==> #[trigger] ids@[k] < i,
            forall|j: int, k: int| 0 <= j < k < ids.len() ==> ids@[j] < ids@[k],
            forall|m: int| 0 <= m < i ==> ((#[trigger] info.software@[m]).name@ == name@ <==> holds(ids@, m)),
        decreases info.software.len() - i,
    {
        if same_text(info.software[i].name.as_str(), name) {
            let ghost old_ids = ids@;
            ids.push(i);
            proof {
                lemma_holds_push(old_ids, i);
            }
        } else {
            assert(!holds(ids@, i as int));
        }
        i += 1;
    }
    if ids.len() == 0 {
        assert forall|m: int| 0 <= m < info.software@.len() implies (#[trigger] info.software@[m]).name@ != name@ by {
            assert(!holds(ids@, m));
        }
        return SoftwareResolution::NotFound;
    }
    if ids.len() >= 2 {
        return SoftwareResolution::Multiple { ids };
    }
    let id = ids[0];
    assert(ids@ == seq![id]);
    let mut lacking: Option<usize> = None;
    let mut k: usize = 0;
    while k < computers_id.len() && lacking.is_none()
        invariant
            k <= computers_id.len(),
            software_refs_in_range(*info, computers_id@),
            lacking == first_lacking(*info, computers_id@.take(k as int), name@),
            lacking is Some ==> lacking == first_lacking(*info, computers_id@, name@),
        decreases computers_id.len() - k,
    {
        assert(computers_id@.take(k + 1).drop_last() == computers_id@.take(k as int));
        let c = computers_id[k];
        if !computer_has_software_named(info, &info.computers[c], name) {
            lacking = Some(c);
            proof {
                lemma_first_lacking_prefix(*info, computers_id@, name@, k + 1);
            }
        }
        k += 1;
    }
    proof {
        assert(computers_id@.take(computers_id@.len() as int) == computers_id@);
    }
    SoftwareResolution::Single { id, lacking }
}

/// The computer lacking the software is the first of the listed computers
/// none of whose software has the name, whatever other software it has; when
/// there is none, every listed computer has software of that name.
pub proof fn law_first_lacking(info: Information, cids: Seq<usize>, name: Seq<char>)
    ensures
        first_lacking(info, cids, name) matches Some(c) ==> exists|k: int|
            0 <= k < cids.len() && cids[k] == c && !(exists|m: int|
                0 <= m < info.computers@[c as int].software@.len()
                    && #[trigger] info.software@[info.computers@[c as int].software@[m] as int].name@ == name)
                && forall|j: int| #![trigger cids[j]] 0 <= j < k ==> exists|m: int|
                    0 <= m < info.computers@[cids[j] as int].software@.len()
                        && #[trigger] info.software@[info.computers@[cids[j] as int].software@[m] as int].name@ == name,
        first_lacking(info, cids, name) is None ==> forall|k: int| #![trigger cids[k]] 0 <= k < cids.len() ==> exists|m: int|
            0 <= m < info.computers@[cids[k] as int].software@.len()
                && #[trigger] info.software@[info.computers@[cids[k] as int].software@[m] as int].name@ == name,
    decreases cids.len(),
{
    if cids.len() > 0 {
        let init = cids.drop_last();
        law_first_lacking(info, init, name);
        let last = cids.last();
        match first_lacking(info, init, name) {
            Some(c) => {
                let k = choose|k: int|
                    0 <= k < init.len() && init[k] == c && !(exists|m: int|
                        0 <= m < info.computers@[c as int].software@.len()
                            && #[trigger] info.software@[info.computers@[c as int].software@[m] as int].name@ == name)
                        && forall|j: int| #![trigger cids[j]] 0 <= j < k ==> exists|m: int|
                            0 <= m < info.computers@[init[j] as int].software@.len()
                                && #[trigger] info.software@[info.computers@[init[j] as int].software@[m] as int].name@
                                == name;
                assert(cids[k] == c);
                assert forall|j: int| #![trigger cids[j]] 0 <= j < k implies exists|m: int|
                    0 <= m < info.computers@[cids[j] as int].software@.len()
                        && #[trigger] info.software@[info.computers@[cids[j] as int].software@[m] as int].name@ == name by {
                    assert(cids[j] == init[j]);
                }
            },
            None => {
                assert forall|j: int| #![trigger cids[j]] 0 <= j < init.len() implies exists|m: int|
                    0 <= m < info.computers@[cids[j] as int].software@.len()
                        && #[trigger] info.software@[info.computers@[cids[j] as int].software@[m] as int].name@ == name by {
                    assert(cids[j] == init[j]);
                }
                if !has_software_named(info, info.computers@[last as int], name) {
                    assert(cids[cids.len() - 1] == last);
                }
            },
        }
    }
}

/// Once a prefix has a computer lacking the software, so has the whole list.
proof fn lemma_first_lacking_prefix(info: Information, cids: Seq<usize>, name: Seq<char>, k: int)
    requires
        0 <= k <= cids.len(),
        first_lacking(info, cids.take(k), name) is Some,
    ensures
        first_lacking(info, cids, name) == first_lacking(info, cids.take(k), name),
    decreases cids.len() - k,
{
    if k < cids.len() {
        assert(cids.drop_last().take(k) == cids.take(k));
        lemma_first_lacking_prefix(info, cids.drop_last(), name, k);
    } else {
        assert(cids.take(k) == cids);
    }
}


/// The computers of `cids` (in order, each once) without software named
/// `name`.
pub open spec fn lacking_in_order(info: Information, cids: Seq<usize>, name: Seq<char>) -> Seq<usize>
    decreases cids.len(),
{
    if cids.len() == 0 {
        Seq::empty()
    } else {
        let r = lacking_in_order(info, cids.drop_last(), name);
        let c = cids.last();
        if !has_software_named(info, info.computers@[c as int], name) && !r.contains(c) {
            r.push(c)
        } else {
            r
        }
    }
}

/// Besides the computers' lists of software, nothing differs between the
/// two states, and there are as many computers.
pub open spec fn only_software_lists_changed(old: State, new: State) -> bool {
    &&& new.information.computers@.len() == old.information.computers@.len()
    &&& new.time_line == old.time_line
    &&& new.information.ips == old.information.ips
    &&& new.information.software == old.information.software
    &&& new.information.services == old.information.services
    &&& new.information.vulnerabilities == old.information.vulnerabilities
    &&& new.information.domains == old.information.domains
    &&& new.information.users == old.information.users
    &&& new.information.facts == old.information.facts
}

/// `new` is `old` with the software `id` appended to the software of each
/// computer of `added`; nothing else changed.
pub open spec fn software_added_to(old: State, new: State, id: usize, added: Seq<usize>) -> bool {
    &&& only_software_lists_changed(old, new)
    &&& forall|c: int| 0 <= c < old.information.computers@.len() ==> if holds(added, c) {
        software_appended(old.information.computers@[c], #[trigger] new.information.computers@[c], id as int)
    } else {
        new.information.computers@[c] == old.information.computers@[c]
    }
}

/// `new` is `old` with the software `id` appended to the software of each
/// computer of `cids` that did not have it; nothing else changed.
pub open spec fn software_added_where_missing(old: State, new: State, id: usize, cids: Seq<usize>) -> bool {
    &&& only_software_lists_changed(old, new)
    &&& forall|c: int| 0 <= c < old.information.computers@.len() ==> if holds(cids, c)
        && !old.information.computers@[c].software@.contains(id) {
        software_appended(old.information.computers@[c], #[trigger] new.information.computers@[c], id as int)
    } else {
        new.information.computers@[c] == old.information.computers@[c]
    }
}

/// The computers that get the single software of the name are exactly the
/// listed computers none of whose software has that name (whatever other
/// software they have), each once.
pub proof fn law_lacking_in_order(info: Information, cids: Seq<usize>, name: Seq<char>)
    ensures
        forall|x: usize| #[trigger] lacking_in_order(info, cids, name).contains(x) <==> (cids.contains(x) && !(exists|m: int|
            0 <= m < info.computers@[x as int].software@.len()
                && #[trigger] info.software@[info.computers@[x as int].software@[m] as int].name@ == name)),
        no_duplicates(lacking_in_order(info, cids, name)),
    decreases cids.len(),
{
    if cids.len() > 0 {
        let init = cids.drop_last();
        law_lacking_in_order(info, init, name);
        let r = lacking_in_order(info, init, name);
        let c = cids.last();
        assert forall|x: usize| cids.contains(x) <==> (init.contains(x) || x == c) by {
            if cids.contains(x) {
                let k = choose|k: int| 0 <= k < cids.len() && cids[k] == x;
                if k < init.len() {
                    assert(init[k] == x);
                }
            }
            if init.contains(x) {
                let k = choose|k: int| 0 <= k < init.len() && init[k] == x;
                assert(cids[k] == x);
            }
            if x == c {
                assert(cids[cids.len() - 1] == x);
            }
        }
        let l = lacking_in_order(info, cids, name);
        if !has_software_named(info, info.computers@[c as int], name) && !r.contains(c) {
            lemma_push_contains(r, c);
            lemma_no_duplicates_push(r, c);
        }
        assert forall|x: usize| #[trigger] l.contains(x) <==> (cids.contains(x) && !has_software_named(
            info,
            info.computers@[x as int],
            name,
        )) by {
            assert(r.contains(x) <==> (init.contains(x) && !has_software_named(info, info.computers@[x as int], name)));
            if !has_software_named(info, info.computers@[c as int], name) && !r.contains(c) {
                assert(l == r.push(c));
            } else {
                assert(l == r);
            }
        }
    } else {
        assert forall|x: usize| !#[trigger] cids.contains(x) by {
        }
        assert(lacking_in_order(info, cids, name) == Seq::<usize>::empty());
    }
}

/// Adding the software `id` to the computers `added` appends it to the
/// software of each of them, and changes no other computer.
pub proof fn law_software_added_to(old: State, new: State, id: usize, added: Seq<usize>)
    requires
        software_added_to(old, new, id, added),
        forall|k: int| 0 <= k < added.len() ==> #[trigger] added[k] < old.information.computers@.len(),
    ensures
        forall|k: int|
            0 <= k < added.len() ==> new.information.computers@[#[trigger] added[k] as int].software@
                == old.information.computers@[added[k] as int].software@.push(id),
        forall|c: int|
            0 <= c < old.information.computers@.len() && !added.contains(c as usize)
                ==> #[trigger] new.information.computers@[c] == old.information.computers@[c],
{
    assert forall|k: int|
        0 <= k < added.len() implies new.information.computers@[#[trigger] added[k] as int].software@
            == old.information.computers@[added[k] as int].software@.push(id) by {
        let c = added[k] as int;
        assert(holds(added, c));
        assert(software_appended(old.information.computers@[c], new.information.computers@[c], id as int));
        assert(new.information.computers@[c].software@ =~= old.information.computers@[c].software@.push(id));
    }
    assert forall|c: int|
        0 <= c < old.information.computers@.len() && !added.contains(c as usize)
            implies #[trigger] new.information.computers@[c] == old.information.computers@[c] by {
        if holds(added, c) {
            let k = choose|k: int| 0 <= k < added.len() && added[k] == c;
            assert(added[k] == c as usize);
        }
    }
}

/// Adding the software `id` where it is missing appends it to the software
/// of every listed computer that did not have it, leaves the other listed
/// computers as they were, and changes no computer that is not listed.
pub proof fn law_software_added_where_missing(old: State, new: State, id: usize, cids: Seq<usize>)
    requires
        software_added_where_missing(old, new, id, cids),
        forall|k: int| 0 <= k < cids.len() ==> #[trigger] cids[k] < old.information.computers@.len(),
    ensures
        forall|k: int|
            0 <= k < cids.len() && !old.information.computers@[#[trigger] cids[k] as int].software@.contains(id)
                ==> new.information.computers@[cids[k] as int].software@
                == old.information.computers@[cids[k] as int].software@.push(id),
        forall|k: int|
            0 <= k < cids.len() && old.information.computers@[#[trigger] cids[k] as int].software@.contains(id)
                ==> new.information.computers@[cids[k] as int] == old.information.computers@[cids[k] as int],
        forall|c: int|
            0 <= c < old.information.computers@.len() && (forall|k: int| 0 <= k < cids.len() ==> cids[k] != c)
                ==> #[trigger] new.information.computers@[c] == old.information.computers@[c],
{
    assert forall|k: int|
        0 <= k < cids.len() && !old.information.computers@[#[trigger] cids[k] as int].software@.contains(id)
            implies new.information.computers@[cids[k] as int].software@
            == old.information.computers@[cids[k] as int].software@.push(id) by {
        let c = cids[k] as int;
        assert(holds(cids, c));
        let a = old.information.computers@[c].software@;
        let b = new.information.computers@[c].software@;
        assert(software_appended(old.information.computers@[c], new.information.computers@[c], id as int));
        assert(b =~= a.push(id));
    }
    assert forall|c: int|
        0 <= c < old.information.computers@.len() && (forall|k: int| 0 <= k < cids.len() ==> cids[k] != c)
            implies #[trigger] new.information.computers@[c] == old.information.computers@[c] by {
        if holds(cids, c) {
            let k = choose|k: int| 0 <= k < cids.len() && cids[k] == c;
            assert(cids[k] != c);
        }
    }
}

/// Adds the software `software_id`, named `name`, to each of the computers
/// `computers_id` that has no software of that name; returns those
/// computers, in order.
pub fn add_named_software_to_computers(
    state: &mut State,
    software_id: usize,
    name: &str,
    computers_id: &Vec<usize>,
) -> (added: Vec<usize>)
    requires
        software_refs_in_range(old(state).information, computers_id@),
        software_id < old(state).information.software@.len(),
        old(state).information.software@[software_id as int].name@ == name@,
    ensures
        added@ == lacking_in_order(old(state).information, computers_id@, name@),
        software_added_to(*old(state), *final(state), software_id, added@),
        forall|k: int|
            0 <= k < added@.len() ==> final(state).information.computers@[#[trigger] added@[k] as int].software@
                == old(state).information.computers@[added@[k] as int].software@.push(software_id),
        old(state).wf() ==> final(state).wf(),
{
    let ghost s0 = *state;
    let mut added: Vec<usize> = Vec::new();
    let mut i: usize = 0;
    while i < computers_id.len()
        invariant
            i <= computers_id.len(),
            s0.wf() ==> state.wf(),
            software_refs_in_range(s0.information, computers_id@),
            software_refs_in_range(state.information, computers_id@),
            software_id < s0.information.software@.len(),
            s0.information.software@[software_id as int].name@ == name@,
            added@ == lacking_in_order(s0.information, computers_id@.take(i as int), name@),
            state.information.computers@.len() == s0.information.computers@.len(),
            forall|c: int| 0 <= c < s0.information.computers@.len() ==> if holds(added@, c) {
                software_appended(s0.information.computers@[c], #[trigger] state.information.computers@[c], software_id as int)
            } else {
                state.information.computers@[c] == s0.information.computers@[c]
            },
            state.time_line == s0.time_line,
            state.information.ips == s0.information.ips,
            state.information.software == s0.information.software,
            state.information.services == s0.information.services,
            state.information.vulnerabilities == s0.information.vulnerabilities,
            state.information.domains == s0.information.domains,
            state.information.users == s0.information.users,
            state.information.facts == s0.information.facts,
        decreases computers_id.len() - i,
    {
        let c = computers_id[i];
        assert(computers_id@.take(i + 1).drop_last() == computers_id@.take(i as int));
        let present = computer_has_software_named(&state.information, &state.information.computers[c], name);
        proof {
            let cur = state.information.computers@[c as int];
            let orig = s0.information.computers@[c as int];
            if holds(added@, c as int) {
                assert(cur.software@.last() == software_id);
                assert(state.information.software@[cur.software@[cur.software@.len() - 1] as int].name@ == name@);
                assert(present);
            } else {
                assert(cur == orig);
            }
        }
        if !present {
            let ghost before = *state;
            let ghost old_added = added@;
            state.information.computers[c].software.push(software_id);
            added.push(c);
            proof {
                assert forall|x: int| 0 <= x < s0.information.computers@.len() implies if holds(added@, x) {
                    software_appended(s0.information.computers@[x], #[trigger] state.information.computers@[x], software_id as int)
                } else {
                    state.information.computers@[x] == s0.information.computers@[x]
                } by {
                    lemma_holds_push(old_added, c);
                }
                // the lists of software stay in range
                assert forall|k: int| 0 <= k < computers_id@.len() implies {
                    &&& #[trigger] computers_id@[k] < state.information.computers@.len()
                    &&& all_below(state.information.computers@[computers_id@[k] as int].software@, state.information.software@.len() as int)
                } by {
                    let d = computers_id@[k];
                    assert(all_below(before.information.computers@[d as int].software@, before.information.software@.len() as int));
                }
                if s0.wf() {
                    // the new list still fits
                    let ninfo = state.information;
                    let oinfo = before.information;
                    assert(oinfo.computer_fits(oinfo.computers@[c as int]));
                    assert(!has_software_named(oinfo, oinfo.computers@[c as int], name@));
                    let o = oinfo.computers@[c as int].software@;
                    if o.contains(software_id) {
                        let k = choose|k: int| 0 <= k < o.len() && o[k] == software_id;
                        assert(oinfo.software@[o[k] as int].name@ == name@);
                    }
                    let n = oinfo.software@.len() as int;
                    lemma_index_list_push(o, n, n, software_id);
                    assert(ninfo.computer_names() =~= oinfo.computer_names());
                    assert forall|k: int| 0 <= k < ninfo.computers@.len() implies ninfo.computer_fits(
                        #[trigger] ninfo.computers@[k],
                    ) by {
                        assert(oinfo.computer_fits(oinfo.computers@[k]));
                    }

                }
            }
        }
        i += 1;
    }
    assert(computers_id@.take(computers_id@.len() as int) == computers_id@);
    proof {
        law_lacking_in_order(s0.information, computers_id@, name@);
        assert forall|k: int| 0 <= k < added@.len() implies #[trigger] added@[k] < s0.information.computers@.len() by {
            assert(added@.contains(added@[k]));
            let j = choose|j: int| 0 <= j < computers_id@.len() && computers_id@[j] == added@[k];
        }
        law_software_added_to(s0, *state, software_id, added@);
    }
    added
}

/// Adds the software `selected_id` to each of the computers `computers_id`
/// that does not have it yet.
pub fn add_software_to_computers(state: &mut State, selected_id: usize, computers_id: &Vec<usize>)
    requires
        forall|k: int| 0 <= k < computers_id@.len() ==> #[trigger] computers_id@[k] < old(state).information.computers@.len(),
    ensures
        software_added_where_missing(*old(state), *final(state), selected_id, computers_id@),
        forall|k: int|
            0 <= k < computers_id@.len() && !old(state).information.computers@[#[trigger] computers_id@[k] as int].software@.contains(selected_id)
                ==> final(state).information.computers@[computers_id@[k] as int].software@
                == old(state).information.computers@[computers_id@[k] as int].software@.push(selected_id),
        old(state).wf() && selected_id < old(state).information.software@.len() ==> final(state).wf(),
{
    let ghost s0 = *state;
    let mut i: usize = 0;
    while i < computers_id.len()
        invariant
            i <= computers_id.len(),
            forall|k: int| 0 <= k < computers_id@.len() ==> #[trigger] computers_id@[k] < s0.information.computers@.len(),
            state.information.computers@.len() == s0.information.computers@.len(),
            forall|c: int| 0 <= c < s0.information.computers@.len() ==> if holds(computers_id@.take(i as int), c)
                && !s0.information.computers@[c].software@.contains(selected_id) {
                software_appended(s0.information.computers@[c], #[trigger] state.information.computers@[c], selected_id as int)
            } else {
                state.information.computers@[c] == s0.information.computers@[c]
            },
            state.time_line == s0.time_line,
            state.information.ips == s0.information.ips,
            state.information.software == s0.information.software,
            state.information.services == s0.information.services,
            state.information.vulnerabilities == s0.information.vulnerabilities,
            state.information.domains == s0.information.domains,
            state.information.users == s0.information.users,
            state.information.facts == s0.information.facts,
            s0.wf() && selected_id < s0.information.software@.len() ==> state.wf(),
        decreases computers_id.len() - i,
    {
        let c = computers_id[i];
        let ghost pre = computers_id@.take(i as int);
        let ghost post = computers_id@.take(i + 1);
        proof {
            assert(post == pre.push(c));
            lemma_holds_push(pre, c);
        }
        let contains = contains_index(&state.information.computers[c].software, selected_id);
        proof {
            let cur = state.information.computers@[c as int];
            let orig = s0.information.computers@[c as int];
            if holds(pre, c as int) && !orig.software@.contains(selected_id) {
                assert(cur.software@[cur.software@.len() - 1] == selected_id);
                assert(contains);
            }
        }
        if !contains {
            let ghost before = *state;
            state.information.computers[c].software.push(selected_id);
            proof {
                let ninfo = state.information;
                let oinfo = before.information;
                if s0.wf() && selected_id < s0.information.software@.len() {
                    assert(oinfo.computer_fits(oinfo.computers@[c as int]));
                    let n = oinfo.software@.len() as int;
                    lemma_index_list_push(oinfo.computers@[c as int].software@, n, n, selected_id);
                    assert(ninfo.computer_names() =~= oinfo.computer_names());
                    assert forall|k: int| 0 <= k < ninfo.computers@.len() implies ninfo.computer_fits(
                        #[trigger] ninfo.computers@[k],
                    ) by {
                        assert(oinfo.computer_fits(oinfo.computers@[k]));
                    }
                }
            }
        }
        i += 1;
    }
    assert(computers_id@.take(computers_id@.len() as int) == computers_id@);
    proof {
        law_software_added_where_missing(s0, *state, selected_id, computers_id@);
    }
}


/// The list is in strictly ascending order.
pub open spec fn ascending(s: Seq<usize>) -> bool {
    forall|j: int, k: int| 0 <= j < k < s.len() ==> s[j] < s[k]
}

/// Some computer of `cids` exists and has `x` among its software.
pub open spec fn in_some(info: Information, cids: Seq<usize>, x: usize) -> bool {
    exists|k: int|
        0 <= k < cids.len() && cids[k] < info.computers@.len()
            && #[trigger] info.computers@[cids[k] as int].software@.contains(x)
}

/// Some computer of `cids` exists, and every one of them that exists has `x`
/// among its software.
pub open spec fn in_all(info: Information, cids: Seq<usize>, x: usize) -> bool {
    &&& exists|k: int| 0 <= k < cids.len() && #[trigger] cids[k] < info.computers@.len()
    &&& forall|k: int|
        0 <= k < cids.len() && cids[k] < info.computers@.len()
            ==> #[trigger] info.computers@[cids[k] as int].software@.contains(x)
}

/// The elements of a longer prefix are those of the shorter one and the
/// next element.
proof fn lemma_take_next_contains(s: Seq<usize>, j: int)
    requires
        0 <= j < s.len(),
    ensures
        forall|x: usize| s.take(j + 1).contains(x) <==> (s.take(j).contains(x) || x == s[j]),
{
    assert(s.take(j + 1) == s.take(j).push(s[j]));
    assert forall|x: usize| s.take(j + 1).contains(x) <==> (s.take(j).contains(x) || x == s[j]) by {
        let t = s.take(j);
        if t.push(s[j]).contains(x) {
            let k = choose|k: int| 0 <= k < t.len() + 1 && #[trigger] t.push(s[j])[k] == x;
            if k < t.len() {
                assert(t[k] == x);
            }
        }
        if t.contains(x) {
            let k = choose|k: int| 0 <= k < t.len() && #[trigger] t[k] == x;
            assert(t.push(s[j])[k] == x);
        }
        if x == s[j] {
            assert(t.push(s[j])[j] == x);
        }
    }
}

/// The elements of a list with one more element.
proof fn lemma_push_contains(s: Seq<usize>, v: usize)
    ensures
        forall|x: usize| s.push(v).contains(x) <==> (s.contains(x) || x == v),
{
    assert forall|x: usize| s.push(v).contains(x) <==> (s.contains(x) || x == v) by {
        if s.push(v).contains(x) {
            let k = choose|k: int| 0 <= k < s.len() + 1 && #[trigger] s.push(v)[k] == x;
            if k < s.len() {
                assert(s[k] == x);
            }
        }
        if s.contains(x) {
            let k = choose|k: int| 0 <= k < s.len() && #[trigger] s[k] == x;
            assert(s.push(v)[k] == x);
        }
        if x == v {
            assert(s.push(v)[s.len() as int] == x);
        }
    }
}

/// Inserts `x` into an ascending list, unless it is there already.
fn insert_ascending(v: &mut Vec<usize>, x: usize)
    requires
        ascending(old(v)@),
    ensures
        ascending(final(v)@),
        forall|y: usize| final(v)@.contains(y) <==> (old(v)@.contains(y) || y == x),
{
    let mut p: usize = 0;
    while p < v.len() && v[p] < x
        invariant
            p <= v.len(),
            v@ == old(v)@,
            forall|k: int| 0 <= k < p ==> #[trigger] v@[k] < x,
        decreases v.len() - p,
    {
        p += 1;
    }
    if p < v.len() && v[p] == x {
        assert(v@[p as int] == x);
        assert(v@.contains(x));
        assert(forall|y: usize| v@.contains(y) <==> (old(v)@.contains(y) || y == x));
    } else {
        let ghost o = v@;
        v.insert(p, x);
        proof {
            lemma_insert_ascending(o, p as int, x);
            assert(v@ == o.insert(p as int, x));
            assert(o == old(v)@);
            assert forall|y: usize| v@.contains(y) <==> (old(v)@.contains(y) || y == x) by {
                assert(o.insert(p as int, x).contains(y) <==> (o.contains(y) || y == x));
            }
        }
    }
}

/// Inserting `x` at its place in an ascending list keeps it ascending, and
/// adds exactly `x` to its elements.
proof fn lemma_insert_ascending(o: Seq<usize>, p: int, x: usize)
    requires
        ascending(o),
        0 <= p <= o.len(),
        forall|k: int| 0 <= k < p ==> #[trigger] o[k] < x,
        p < o.len() ==> o[p] >= x && o[p] != x,
    ensures
        ascending(o.insert(p, x)),
        forall|y: usize| o.insert(p, x).contains(y) <==> (o.contains(y) || y == x),
{
    let v = o.insert(p, x);
    assert forall|j: int, k: int| 0 <= j < k < v.len() implies v[j] < v[k] by {
        if k < p {
            assert(v[j] == o[j] && v[k] == o[k]);
        } else if k == p {
            assert(v[j] == o[j]);
        } else if j > p {
            assert(v[j] == o[j - 1] && v[k] == o[k - 1]);
        } else if j == p {
            assert(v[k] == o[k - 1]);
            assert(o[p] <= o[k - 1]);
        } else {
            assert(v[j] == o[j] && v[k] == o[k - 1]);
        }
    }
    assert forall|y: usize| v.contains(y) <==> (o.contains(y) || y == x) by {
        if v.contains(y) {
            let k = choose|k: int| 0 <= k < v.len() && v[k] == y;
            if k < p {
                assert(o[k] == y);
            } else if k > p {
                assert(o[k - 1] == y);
            }
        }
        if o.contains(y) {
            let k = choose|k: int| 0 <= k < o.len() && o[k] == y;
            if k < p {
                assert(v[k] == y);
            } else {
                assert(v[k + 1] == y);
            }
        }
        if y == x {
            assert(v[p] == y);
        }
    }
}

/// The elements of the ascending list `v` that `ids` holds, in order.
fn keep_listed(v: &Vec<usize>, ids: &Vec<usize>) -> (r: Vec<usize>)
    requires
        ascending(v@),
    ensures
        ascending(r@),
        forall|x: usize| #[trigger] r@.contains(x) <==> (v@.contains(x) && ids@.contains(x)),
{
    let mut r: Vec<usize> = Vec::new();
    let mut i: usize = 0;
    while i < v.len()
        invariant
            i <= v.len(),
            ascending(v@),
            ascending(r@),
            forall|k: int, j: int| 0 <= k < r.len() && i <= j < v.len() ==> #[trigger] r@[k] < #[trigger] v@[j],
            forall|x: usize| #[trigger] r@.contains(x) <==> (v@.take(i as int).contains(x) && ids@.contains(x)),
        decreases v.len() - i,
    {
        let x = v[i];
        let ghost before = r@;
        proof {
            lemma_take_next_contains(v@, i as int);
        }
        if contains_index(ids, x) {
            r.push(x);
            proof {
                lemma_push_contains(before, x);
                assert forall|k: int, j: int| 0 <= k < r.len() && i + 1 <= j < v.len() implies #[trigger] r@[k] < #[trigger] v@[j] by {
                    if k < before.len() {
                        assert(before[k] == r@[k]);
                        assert(before[k] < v@[j]);
                    } else {
                        assert(r@[k] == v@[i as int]);
                    }
                }
                assert forall|a: int, b: int| 0 <= a < b < r.len() implies r@[a] < r@[b] by {
                    if b == before.len() {
                        assert(before[a] < v@[i as int]);
                    } else {
                        assert(before[a] < before[b]);
                    }
                }
            }
        }
        assert forall|y: usize| r@.contains(y) <==> (v@.take(i + 1).contains(y) && ids@.contains(y)) by {
            assert(v@.take(i + 1).contains(y) <==> (v@.take(i as int).contains(y) || y == v@[i as int]));
            assert(before.contains(y) <==> (v@.take(i as int).contains(y) && ids@.contains(y)));
            if ids@.contains(x) {
                assert(r@.contains(y) <==> (before.contains(y) || y == x));
            } else {
                assert(r@ == before);
            }
        }
        i += 1;
    }
    assert(v@.take(v.len() as int) == v@);
    r
}

/// The versions `ids` that all the computers `computers_id` (those that
/// exist) have, and those that any of them has, each as an ascending list
/// without repetitions.
pub fn software_intersection_union(info: &Information, computers_id: &Vec<usize>, ids: &Vec<usize>) -> (r: (Vec<usize>, Vec<usize>))
    ensures
        ascending(r.0@),
        ascending(r.1@),
        forall|x: usize| #[trigger] r.0@.contains(x) <==> (in_all(*info, computers_id@, x) && ids@.contains(x)),
        forall|x: usize| #[trigger] r.1@.contains(x) <==> (in_some(*info, computers_id@, x) && ids@.contains(x)),
{
    let (inter, union) = installed_intersection_union(info, computers_id);
    (keep_listed(&inter, ids), keep_listed(&union, ids))
}

/// The software of all the computers `computers_id` (those that exist), and
/// the software of any of them, each as an ascending list without repetitions.
fn installed_intersection_union(info: &Information, computers_id: &Vec<usize>) -> (r: (Vec<usize>, Vec<usize>))
    ensures
        ascending(r.0@),
        ascending(r.1@),
        forall|x: usize| r.0@.contains(x) <==> in_all(*info, computers_id@, x),
        forall|x: usize| r.1@.contains(x) <==> in_some(*info, computers_id@, x),
{
    let mut inter: Vec<usize> = Vec::new();
    let mut union: Vec<usize> = Vec::new();
    let mut seen = false;
    let mut i: usize = 0;
    while i < computers_id.len()
        invariant
            i <= computers_id.len(),
            ascending(inter@),
            ascending(union@),
            seen == exists|k: int| 0 <= k < i && #[trigger] computers_id@[k] < info.computers@.len(),
            forall|x: usize| inter@.contains(x) <==> in_all(*info, computers_id@.take(i as int), x),
            forall|x: usize| union@.contains(x) <==> in_some(*info, computers_id@.take(i as int), x),
        decreases computers_id.len() - i,
    {
        let ghost pre = computers_id@.take(i as int);
        let ghost post = computers_id@.take(i + 1);
        let c = computers_id[i];
        assert(post == pre.push(c));
        if c < info.computers.len() {
            let list = &info.computers[c].software;
            // union: every element of the computer's list
            let ghost u0 = union@;
            let mut j: usize = 0;
            while j < list.len()
                invariant
                    j <= list.len(),
                    ascending(union@),
                    forall|x: usize| union@.contains(x) <==> (u0.contains(x) || list@.take(j as int).contains(x)),
                decreases list.len() - j,
            {
                let ghost before = union@;
                assert(forall|x: usize| before.contains(x) <==> (u0.contains(x) || list@.take(j as int).contains(x)));
                insert_ascending(&mut union, list[j]);
                proof {
                    lemma_take_next_contains(list@, j as int);
                    assert forall|x: usize| union@.contains(x) <==> (u0.contains(x) || list@.take(j + 1).contains(x)) by {
                        assert(union@.contains(x) <==> (before.contains(x) || x == list@[j as int]));
                        assert(before.contains(x) <==> (u0.contains(x) || list@.take(j as int).contains(x)));
                        assert(list@.take(j + 1).contains(x) <==> (list@.take(j as int).contains(x) || x == list@[j as int]));
                    }
                }
                j += 1;
            }
            assert(list@.take(list@.len() as int) == list@);
            assert forall|x: usize| union@.contains(x) <==> in_some(*info, post, x) by {
                if in_some(*info, post, x) {
                    let k = choose|k: int| 0 <= k < post.len() && post[k] < info.computers@.len()
                        && #[trigger] info.computers@[post[k] as int].software@.contains(x);
                    if k < pre.len() {
                        assert(pre[k] == post[k]);
                        assert(in_some(*info, pre, x));
                    }
                }
                if in_some(*info, pre, x) {
                    let k = choose|k: int| 0 <= k < pre.len() && pre[k] < info.computers@.len()
                        && #[trigger] info.computers@[pre[k] as int].software@.contains(x);
                    assert(post[k] == pre[k]);
                }
                if list@.contains(x) {
                    assert(post[i as int] == c);
                    assert(info.computers@[post[i as int] as int].software@.contains(x));
                }
                assert(u0.contains(x) <==> in_some(*info, pre, x));
                assert(union@.contains(x) <==> (u0.contains(x) || list@.contains(x)));
                if in_some(*info, post, x) && !in_some(*info, pre, x) {
                    let k = choose|k: int| 0 <= k < post.len() && post[k] < info.computers@.len()
                        && #[trigger] info.computers@[post[k] as int].software@.contains(x);
                    if k < pre.len() {
                        assert(pre[k] == post[k]);
                        assert(info.computers@[pre[k] as int].software@.contains(x));
                    }
                    assert(k == i);
                    assert(list@.contains(x));
                }
            }
            // intersection
            let ghost i0 = inter@;
            if !seen {
                let mut fresh: Vec<usize> = Vec::new();
                let mut j: usize = 0;
                while j < list.len()
                    invariant
                        j <= list.len(),
                        ascending(fresh@),
                        forall|x: usize| fresh@.contains(x) <==> list@.take(j as int).contains(x),
                    decreases list.len() - j,
                {
                    insert_ascending(&mut fresh, list[j]);
                    proof {
                    lemma_take_next_contains(list@, j as int);
                }
                    j += 1;
                }
                inter = fresh;
            } else {
                let mut kept: Vec<usize> = Vec::new();
                let mut j: usize = 0;
                while j < inter.len()
                    invariant
                        j <= inter.len(),
                        inter@ == i0,
                        ascending(i0),
                        ascending(kept@),
                        forall|k: int| #![trigger kept@[k]] 0 <= k < kept.len() ==> exists|m: int| 0 <= m < j && #[trigger] i0[m] == kept@[k],
                        forall|x: usize| kept@.contains(x) <==> (i0.take(j as int).contains(x) && list@.contains(x)),
                    decreases inter.len() - j,
                {
                    let x = inter[j];
                    let ghost k0 = kept@;
                    proof {
                        lemma_take_next_contains(i0, j as int);
                    }
                    let inlist = contains_index(list, x);
                    if inlist {
                        kept.push(x);
                        proof {
                            lemma_push_contains(k0, x);
                        }
                        assert forall|a: int, b: int| 0 <= a < b < kept@.len() implies kept@[a] < kept@[b] by {
                            if b == k0.len() {
                                let m = choose|m: int| 0 <= m < j && #[trigger] i0[m] == kept@[a];
                                assert(i0[m] < i0[j as int]);
                            }
                        }
                        assert forall|k: int| #![trigger kept@[k]] 0 <= k < kept.len() implies exists|m: int| 0 <= m < j + 1 && #[trigger] i0[m] == kept@[k] by {
                            if k == k0.len() {
                                assert(i0[j as int] == kept@[k]);
                            } else {
                                let m = choose|m: int| 0 <= m < j && #[trigger] i0[m] == k0[k];
                                assert(i0[m] == kept@[k]);
                            }
                        }
                    }
                    proof {
                        assert forall|y: usize| kept@.contains(y) <==> (i0.take(j + 1).contains(y) && list@.contains(y)) by {
                            assert(i0.take(j + 1).contains(y) <==> (i0.take(j as int).contains(y) || y == i0[j as int]));
                            assert(k0.contains(y) <==> (i0.take(j as int).contains(y) && list@.contains(y)));
                            if inlist {
                                assert(kept@.contains(y) <==> (k0.contains(y) || y == x));
                            }
                        }
                    }
                    j += 1;
                }
                assert(i0.take(i0.len() as int) == i0);
                inter = kept;
            }
            assert forall|x: usize| inter@.contains(x) <==> in_all(*info, post, x) by {
                if in_all(*info, post, x) {
                    assert(post[i as int] == c);
                    assert(list@.contains(x));
                    if seen {
                        let k = choose|k: int| 0 <= k < i && #[trigger] computers_id@[k] < info.computers@.len();
                        assert(pre[k] == computers_id@[k]);
                        assert forall|m: int| 0 <= m < pre.len() && pre[m] < info.computers@.len()
                            implies #[trigger] info.computers@[pre[m] as int].software@.contains(x) by {
                            assert(post[m] == pre[m]);
                        }
                        assert(in_all(*info, pre, x));
                    }
                }
                if inter@.contains(x) {
                    assert(post[i as int] == c);
                    if seen {
                        assert(in_all(*info, pre, x));
                        let k = choose|k: int| 0 <= k < pre.len() && #[trigger] pre[k] < info.computers@.len();
                        assert(post[k] == pre[k]);
                        assert forall|m: int| 0 <= m < post.len() && post[m] < info.computers@.len()
                            implies #[trigger] info.computers@[post[m] as int].software@.contains(x) by {
                            if m < pre.len() {
                                assert(post[m] == pre[m]);
                            }
                        }
                    } else {
                        assert forall|m: int| 0 <= m < post.len() && post[m] < info.computers@.len()
                            implies #[trigger] info.computers@[post[m] as int].software@.contains(x) by {
                            if m < pre.len() {
                                assert(computers_id@[m] == post[m]);
                            }
                        }
                    }
                }
            }
            seen = true;
        } else {
            assert forall|x: usize| union@.contains(x) <==> in_some(*info, post, x) by {
                if in_some(*info, post, x) {
                    let k = choose|k: int| 0 <= k < post.len() && post[k] < info.computers@.len()
                        && #[trigger] info.computers@[post[k] as int].software@.contains(x);
                    assert(pre[k] == post[k]);
                }
                if in_some(*info, pre, x) {
                    let k = choose|k: int| 0 <= k < pre.len() && pre[k] < info.computers@.len()
                        && #[trigger] info.computers@[pre[k] as int].software@.contains(x);
                    assert(post[k] == pre[k]);
                }
            }
            assert forall|x: usize| inter@.contains(x) <==> in_all(*info, post, x) by {
                if in_all(*info, post, x) {
                    let k = choose|k: int| 0 <= k < post.len() && #[trigger] post[k] < info.computers@.len();
                    assert(pre[k] == post[k]);
                    assert forall|m: int| 0 <= m < pre.len() && pre[m] < info.computers@.len()
                        implies #[trigger] info.computers@[pre[m] as int].software@.contains(x) by {
                        assert(post[m] == pre[m]);
                    }
                }
                if in_all(*info, pre, x) {
                    let k = choose|k: int| 0 <= k < pre.len() && #[trigger] pre[k] < info.computers@.len();
                    assert(post[k] == pre[k]);
                    assert forall|m: int| 0 <= m < post.len() && post[m] < info.computers@.len()
                        implies #[trigger] info.computers@[post[m] as int].software@.contains(x) by {
                        assert(m < pre.len());
                        assert(post[m] == pre[m]);
                    }
                }
            }
        }
        i += 1;
    }
    assert(computers_id@.take(computers_id@.len() as int) == computers_id@);
    (inter, union)
}


/// The automatic choice among several versions: the first (lowest index)
/// version all the computers have; otherwise the first version any of them
/// has; otherwise the first version found. The second value tells whether the
/// choice may be missing from some computers (and the user is then asked
/// whether to add it).
pub fn autoselect_software(intersection: &Vec<usize>, union: &Vec<usize>, all_software_ids: &Vec<usize>) -> (r: (usize, bool))
    requires
        all_software_ids@.len() > 0,
    ensures
        intersection@.len() > 0 ==> r == (intersection@[0], false),
        intersection@.len() == 0 && union@.len() > 0 ==> r == (union@[0], true),
        intersection@.len() == 0 && union@.len() == 0 ==> r == (all_software_ids@[0], true),
{
    if intersection.len() > 0 {
        (intersection[0], false)
    } else if union.len() > 0 {
        (union[0], true)
    } else {
        (all_software_ids[0], true)
    }
}

/// Adding the service to the computers `cids` would find a computer that
/// does not exist, that is listed twice, or that already offers the service.
pub open spec fn service_add_fails(info: Information, service: Service, cids: Seq<usize>) -> bool {
    let f = service_position(info.services@, service);
    exists|k: int|
        0 <= k < cids.len() && {
            ||| cids[k] >= info.computers@.len()
            ||| holds(info.computers@[cids[k] as int].services@, f)
            ||| exists|j: int| 0 <= j < k && cids[j] == #[trigger] cids[k]
        }
}

/// The computer offers a service equal to `service` (same name, port and
/// software).
pub open spec fn offers_equal_service(info: Information, c: Computer, service: Service) -> bool {
    exists|m: int|
        0 <= m < c.services@.len() && #[trigger] info.services@[c.services@[m] as int].key() == service.key()
}

/// In consistent information, a computer lists the stored position of the
/// service exactly when it offers an equal service.
proof fn lemma_holds_position_offers(info: Information, c: Computer, service: Service)
    requires
        info.wf(),
        info.computer_fits(c),
    ensures
        holds(c.services@, service_position(info.services@, service)) <==> offers_equal_service(info, c, service),
{
    let ks = service_keys_of(info.services@);
    lemma_first_index(ks, service.key());
    let f = service_position(info.services@, service);
    if holds(c.services@, f) {
        let m = choose|m: int| 0 <= m < c.services@.len() && c.services@[m] == f;
        assert(c.services@[m] < info.services@.len());
        assert(ks[f] == info.services@[f].key());
        assert(info.services@[c.services@[m] as int].key() == service.key());
    }
    if offers_equal_service(info, c, service) {
        let m = choose|m: int|
            0 <= m < c.services@.len() && #[trigger] info.services@[c.services@[m] as int].key() == service.key();
        let i = c.services@[m] as int;
        assert(c.services@[m] < info.services@.len());
        assert(ks[i] == service.key());
        assert(ks.contains(service.key()));
        assert(ks[f] == service.key());
        assert(info.service_keys() == ks);
        assert(f == i);
        assert(holds(c.services@, f));
    }
}

/// In consistent information, adding a service to the computers `cids`
/// fails exactly when one of them does not exist, is listed twice, or
/// already offers an equal service (same name, port and software).
pub proof fn law_service_add_fails(info: Information, service: Service, cids: Seq<usize>)
    requires
        info.wf(),
    ensures
        service_add_fails(info, service, cids) <==> exists|k: int|
            0 <= k < cids.len() && {
                ||| cids[k] >= info.computers@.len()
                ||| exists|j: int| 0 <= j < k && cids[j] == #[trigger] cids[k]
                ||| offers_equal_service(info, info.computers@[cids[k] as int], service)
            },
{
    let f = service_position(info.services@, service);
    assert forall|k: int| 0 <= k < cids.len() && cids[k] < info.computers@.len() implies holds(
        info.computers@[cids[k] as int].services@,
        f,
    ) == offers_equal_service(info, #[trigger] info.computers@[cids[k] as int], service) by {
        lemma_holds_position_offers(info, info.computers@[cids[k] as int], service);
    }
}

/// Whether adding the service to the computers `computers_id` would fail
/// (see `service_add_fails`).
pub fn service_add_would_fail(info: &Information, service: &Service, computers_id: &Vec<usize>) -> (b: bool)
    ensures
        b == service_add_fails(*info, *service, computers_id@),
        info.wf() ==> (b <==> exists|k: int|
            0 <= k < computers_id@.len() && {
                ||| computers_id@[k] >= info.computers@.len()
                ||| exists|j: int| 0 <= j < k && computers_id@[j] == #[trigger] computers_id@[k]
                ||| offers_equal_service(*info, info.computers@[computers_id@[k] as int], *service)
            }),
{
    let b = service_add_check(info, service, computers_id);
    proof {
        if info.wf() {
            law_service_add_fails(*info, *service, computers_id@);
        }
    }
    b
}

/// Checks each computer in turn (see `service_add_fails`).
fn service_add_check(info: &Information, service: &Service, computers_id: &Vec<usize>) -> (b: bool)
    ensures
        b == service_add_fails(*info, *service, computers_id@),
{
    let n = info.services.len();
    let mut f: usize = 0;
    while f < n && !info.services[f].eq(service)
        invariant
            f <= n == info.services@.len(),
            forall|k: int| 0 <= k < f ==> #[trigger] info.services@[k].key() != service.key(),
        decreases n - f,
    {
        f += 1;
    }
    proof {
        let ks = service_keys_of(info.services@);
        lemma_first_index(ks, service.key());
        let p = first_index(ks, service.key());
        if p < f {
            assert(ks[p] == info.services@[p].key());
        }
        if p > f {
            assert(ks[f as int] == info.services@[f as int].key());
        }
        assert(p == f);
    }
    let mut k: usize = 0;
    while k < computers_id.len()
        invariant
            k <= computers_id.len(),
            f == service_position(info.services@, *service),
            !(exists|m: int|
                0 <= m < k && {
                    ||| computers_id@[m] >= info.computers@.len()
                    ||| holds(info.computers@[computers_id@[m] as int].services@, f as int)
                    ||| exists|j: int| 0 <= j < m && computers_id@[j] == #[trigger] computers_id@[m]
                }),
        decreases computers_id.len() - k,
    {
        let c = computers_id[k];
        if c >= info.computers.len() {
            return true;
        }
        if contains_index(&info.computers[c].services, f) {
            return true;
        }
        let mut j: usize = 0;
        while j < k
            invariant
                j <= k < computers_id.len(),
                c == computers_id@[k as int],
                forall|m: int| 0 <= m < j ==> computers_id@[m] != c,
            decreases k - j,
        {
            if computers_id[j] == c {
                return true;
            }
            j += 1;
        }
        k += 1;
    }
    false
}

/// Adds the service to each of the computers `computers_id` (the service is
/// stored once); returns one node per computer.
pub fn add_service_to_computers(state: &mut State, service: &Service, computers_id: &Vec<usize>) -> (nodes: Vec<Node>)
    requires
        !service_add_fails(old(state).information, *service, computers_id@),
    ensures
        ({
            let f = service_position(old(state).information.services@, *service);
            &&& f < old(state).information.services@.len() ==> final(state).information.services == old(state).information.services
            &&& f == old(state).information.services@.len() && computers_id@.len() > 0
                ==> final(state).information.services@ == old(state).information.services@.push(*service)
            &&& computers_id@.len() == 0 ==> final(state).information.services == old(state).information.services
            &&& nodes@.len() == computers_id@.len()
            &&& forall|k: int| 0 <= k < nodes@.len() ==> is_new_info(#[trigger] nodes@[k], InfoClass::Service, f)
            &&& final(state).information.computers@.len() == old(state).information.computers@.len()
            &&& forall|c: int| 0 <= c < old(state).information.computers@.len() ==> if holds(computers_id@, c) {
                service_appended(old(state).information.computers@[c], #[trigger] final(state).information.computers@[c], f)
            } else {
                final(state).information.computers@[c] == old(state).information.computers@[c]
            }
        }),
        final(state).time_line == old(state).time_line,
        final(state).information.ips == old(state).information.ips,
        final(state).information.software == old(state).information.software,
        final(state).information.vulnerabilities == old(state).information.vulnerabilities,
        final(state).information.domains == old(state).information.domains,
        final(state).information.users == old(state).information.users,
        final(state).information.facts == old(state).information.facts,
        old(state).wf() && old(state).information.service_fits(*service) ==> final(state).wf(),
{
    let ghost s0 = *state;
    let ghost f = service_position(s0.information.services@, *service);
    proof {
        let ks = service_keys_of(s0.information.services@);
        lemma_first_index(ks, service.key());
        assert forall|k: int| 0 <= k < f implies #[trigger] s0.information.services@[k].key() != service.key() by {
            assert(ks[k] == s0.information.services@[k].key());
        }
        if f < ks.len() {
            assert(ks[f] == s0.information.services@[f].key());
        }
    }
    let mut nodes: Vec<Node> = Vec::new();
    let mut i: usize = 0;
    while i < computers_id.len()
        invariant
            i <= computers_id.len(),
            !service_add_fails(s0.information, *service, computers_id@),
            f == service_position(s0.information.services@, *service),
            0 <= f <= s0.information.services@.len(),
            f < s0.information.services@.len() ==> s0.information.services@[f].key() == service.key(),
            forall|k: int| 0 <= k < f ==> #[trigger] s0.information.services@[k].key() != service.key(),
            f < s0.information.services@.len() || i == 0 ==> state.information.services == s0.information.services,
            f == s0.information.services@.len() && i > 0 ==> state.information.services@ == s0.information.services@.push(*service),
            nodes@.len() == i,
            forall|k: int| 0 <= k < nodes@.len() ==> is_new_info(#[trigger] nodes@[k], InfoClass::Service, f),
            state.information.computers@.len() == s0.information.computers@.len(),
            forall|c: int| 0 <= c < s0.information.computers@.len() ==> if holds(computers_id@.take(i as int), c) {
                service_appended(s0.information.computers@[c], #[trigger] state.information.computers@[c], f)
            } else {
                state.information.computers@[c] == s0.information.computers@[c]
            },
            state.time_line == s0.time_line,
            state.information.ips == s0.information.ips,
            state.information.software == s0.information.software,
            state.information.vulnerabilities == s0.information.vulnerabilities,
            state.information.domains == s0.information.domains,
            state.information.users == s0.information.users,
            state.information.facts == s0.information.facts,
            s0.wf() && s0.information.service_fits(*service) ==> state.wf(),
        decreases computers_id.len() - i,
    {
        let c = computers_id[i];
        let ghost before = *state;
        let ghost pre = computers_id@.take(i as int);
        let ghost post = computers_id@.take(i + 1);
        proof {
            // the computer exists, is listed once, and does not offer the service
            assert(!(c >= s0.information.computers@.len()));
            assert(!holds(s0.information.computers@[c as int].services@, f));
            assert(!holds(pre, c as int)) by {
                if holds(pre, c as int) {
                    let j = choose|j: int| 0 <= j < pre.len() && pre[j] == c;
                    assert(computers_id@[j] == computers_id@[i as int]);
                }
            }
            assert(before.information.computers@[c as int] == s0.information.computers@[c as int]);
            // the position of the service is still `f`
            let ks = service_keys_of(before.information.services@);
            lemma_first_index(ks, service.key());
            let p = first_index(ks, service.key());
            if f < s0.information.services@.len() || i == 0 {
                assert(ks == service_keys_of(s0.information.services@));
            } else {
                assert(ks.len() == f + 1);
                assert(ks[f] == service.key());
                if p < f {
                    assert(ks[p] == s0.information.services@[p].key());
                }
            }
            if p < f {
                assert(ks[p] == s0.information.services@[p].key());
            }
            if f < ks.len() && p > f {
                assert(ks[f] == service.key());
            }
            assert(p == f);
        }
        let r = state.add_service(service.duplicate(), c);
        proof {
            assert(post == pre.push(c));
            lemma_holds_push(pre, c);
        }
        nodes.push(new_info_node(InfoClass::Service, r.unwrap()));
        i += 1;
    }
    assert(computers_id@.take(computers_id@.len() as int) == computers_id@);
    nodes
}


/// `a` comes before `b` in the order of `str` (character by character, by
/// code point, a proper prefix first).
pub open spec fn text_lt(a: Seq<char>, b: Seq<char>) -> bool
    decreases a.len(),
{
    if a.len() == 0 {
        b.len() > 0
    } else if b.len() == 0 {
        false
    } else if a[0] != b[0] {
        (a[0] as u32) < (b[0] as u32)
    } else {
        text_lt(a.drop_first(), b.drop_first())
    }
}

/// Whether `a` comes before `b` (see `text_lt`).
fn text_less(a: &Vec<char>, b: &Vec<char>) -> (r: bool)
    ensures
        r == text_lt(a@, b@),
{
    let mut i: usize = 0;
    assert(a@.skip(0) == a@ && b@.skip(0) == b@);
    while i < a.len() && i < b.len() && a[i] == b[i]
        invariant
            i <= a.len(),
            i <= b.len(),
            text_lt(a@, b@) == text_lt(a@.skip(i as int), b@.skip(i as int)),
        decreases a.len() - i,
    {
        assert(a@.skip(i as int).drop_first() == a@.skip(i + 1));
        assert(b@.skip(i as int).drop_first() == b@.skip(i + 1));
        i += 1;
    }
    if i == a.len() {
        i < b.len()
    } else if i == b.len() {
        false
    } else {
        (a[i] as u32) < (b[i] as u32)
    }
}

/// A version and the text it is listed under.
pub open spec fn entries_view(v: Seq<(usize, String)>) -> Seq<(usize, Seq<char>)> {
    v.map_values(|e: (usize, String)| (e.0, e.1@))
}

/// The text a piece of software is listed under: its version, or `None`.
pub open spec fn version_text(s: Software) -> Seq<char> {
    match opt_view(s.version) {
        Some(v) => v,
        None => "None"@,
    }
}

/// Where a stable sort puts an entry with text `key` among sorted entries:
/// before the first entry whose text comes after `key`.
pub open spec fn insert_pos(sorted: Seq<(usize, Seq<char>)>, key: Seq<char>) -> int
    decreases sorted.len(),
{
    if sorted.len() == 0 {
        0
    } else {
        let f = insert_pos(sorted.drop_last(), key);
        if f < sorted.len() - 1 {
            f
        } else if text_lt(key, sorted.last().1) {
            sorted.len() - 1
        } else {
            sorted.len() as int
        }
    }
}

proof fn lemma_insert_pos(sorted: Seq<(usize, Seq<char>)>, key: Seq<char>)
    ensures
        0 <= insert_pos(sorted, key) <= sorted.len(),
        insert_pos(sorted, key) < sorted.len() ==> text_lt(key, sorted[insert_pos(sorted, key)].1),
        forall|j: int| 0 <= j < insert_pos(sorted, key) ==> !text_lt(key, #[trigger] sorted[j].1),
    decreases sorted.len(),
{
    if sorted.len() > 0 {
        lemma_insert_pos(sorted.drop_last(), key);
        assert forall|j: int| 0 <= j < insert_pos(sorted, key) implies !text_lt(key, #[trigger] sorted[j].1) by {
            if j < sorted.len() - 1 {
                assert(sorted[j] == sorted.drop_last()[j]);
            }
        }
    }
}

/// The entries sorted by their text, stably (entries with the same text
/// keep their order), as `slice::sort_by_key` sorts.
pub open spec fn sort_by_text(s: Seq<(usize, Seq<char>)>) -> Seq<(usize, Seq<char>)>
    decreases s.len(),
{
    if s.len() == 0 {
        Seq::empty()
    } else {
        let sorted = sort_by_text(s.drop_last());
        sorted.insert(insert_pos(sorted, s.last().1), s.last())
    }
}

/// Each software of `collection` with the text it is listed under.
pub open spec fn version_entries(info: Information, collection: Seq<usize>) -> Seq<(usize, Seq<char>)> {
    collection.map_values(|id: usize| (id, version_text(info.software@[id as int])))
}

/// The versions to choose from: each software of `collection` with the text
/// it is listed under, sorted by that text (stably).
pub fn version_options(info: &Information, collection: &Vec<usize>) -> (options: Vec<(usize, String)>)
    requires
        forall|k: int| 0 <= k < collection@.len() ==> #[trigger] collection@[k] < info.software@.len(),
    ensures
        entries_view(options@) == sort_by_text(version_entries(*info, collection@)),
{
    let ghost entries = version_entries(*info, collection@);
    let mut out: Vec<(usize, String)> = Vec::new();
    let mut i: usize = 0;
    while i < collection.len()
        invariant
            i <= collection.len(),
            forall|k: int| 0 <= k < collection@.len() ==> #[trigger] collection@[k] < info.software@.len(),
            entries == version_entries(*info, collection@),
            entries_view(out@) == sort_by_text(entries.take(i as int)),
        decreases collection.len() - i,
    {
        let id = collection[i];
        let text: String = match &info.software[id].version {
            Some(v) => v.clone(),
            None => "None".to_owned(),
        };
        let ghost e = (id, text@);
        assert(entries[i as int] == e);
        assert(entries.take(i + 1).drop_last() == entries.take(i as int));
        let key = chars_of(text.as_str());
        let ghost sorted = entries_view(out@);
        let mut p: usize = 0;
        while p < out.len() && !text_less(&key, &chars_of(out[p].1.as_str()))
            invariant
                p <= out.len(),
                sorted == entries_view(out@),
                key@ == text@,
                forall|j: int| 0 <= j < p ==> !text_lt(text@, #[trigger] sorted[j].1),
            decreases out.len() - p,
        {
            assert(sorted[p as int].1 == out@[p as int].1@);
            p += 1;
        }
        proof {
            lemma_insert_pos(sorted, text@);
            let q = insert_pos(sorted, text@);
            if q < p {
                assert(text_lt(text@, sorted[q].1));
            }
            if p < out.len() {
                assert(sorted[p as int].1 == out@[p as int].1@);
            }
            if q > p {
                assert(!text_lt(text@, sorted[p as int].1));
            }
            assert(q == p);
        }
        let ghost o = out@;
        out.insert(p, (id, text));
        assert(entries_view(out@) == sorted.insert(p as int, e));
        i += 1;
    }
    assert(entries.take(collection.len() as int) == entries);
    out
}


/// The software of all the computers is software of some of them.
pub proof fn law_intersection_within_union(info: Information, cids: Seq<usize>, x: usize)
    requires
        in_all(info, cids, x),
    ensures
        in_some(info, cids, x),
{
    let k = choose|k: int| 0 <= k < cids.len() && #[trigger] cids[k] < info.computers@.len();
    assert(info.computers@[cids[k] as int].software@.contains(x));
}


/// The order of texts is transitive.
proof fn lemma_text_lt_transitive(a: Seq<char>, b: Seq<char>, c: Seq<char>)
    requires
        text_lt(a, b),
        text_lt(b, c),
    ensures
        text_lt(a, c),
    decreases a.len(),
{
    if a.len() > 0 && b.len() > 0 && c.len() > 0 && a[0] == b[0] && b[0] == c[0] {
        lemma_text_lt_transitive(a.drop_first(), b.drop_first(), c.drop_first());
    }
}

/// No text comes before itself.
proof fn lemma_text_lt_irreflexive(a: Seq<char>)
    ensures
        !text_lt(a, a),
    decreases a.len(),
{
    if a.len() > 0 {
        lemma_text_lt_irreflexive(a.drop_first());
    }
}

/// Each entry's text comes after none of the texts of later entries.
pub open spec fn sorted_by_text(s: Seq<(usize, Seq<char>)>) -> bool {
    forall|i: int, j: int| 0 <= i < j < s.len() ==> !text_lt(s[j].1, s[i].1)
}

/// The versions offered for a manual choice are those of the collection,
/// each as often as it occurs there, listed in the order of their texts.
pub proof fn law_sort_by_text_sorted(s: Seq<(usize, Seq<char>)>)
    ensures
        sorted_by_text(sort_by_text(s)),
        sort_by_text(s).len() == s.len(),
        sort_by_text(s).to_multiset() == s.to_multiset(),
    decreases s.len(),
{
    if s.len() > 0 {
        let sorted = sort_by_text(s.drop_last());
        law_sort_by_text_sorted(s.drop_last());
        let e = s.last();
        lemma_insert_pos(sorted, e.1);
        let p = insert_pos(sorted, e.1);
        let r = sorted.insert(p, e);
        vstd::seq_lib::to_multiset_insert(sorted, p, e);
        vstd::seq_lib::to_multiset_build(s.drop_last(), e);
        assert(s.drop_last().push(e) == s);
        assert forall|i: int, j: int| 0 <= i < j < r.len() implies !text_lt(r[j].1, r[i].1) by {
            if j < p {
                assert(r[i] == sorted[i] && r[j] == sorted[j]);
            } else if j == p {
                assert(r[i] == sorted[i]);
            } else if i > p {
                assert(r[i] == sorted[i - 1] && r[j] == sorted[j - 1]);
            } else if i == p {
                assert(r[j] == sorted[j - 1]);
                assert(text_lt(e.1, sorted[p].1));
                if text_lt(sorted[j - 1].1, e.1) {
                    lemma_text_lt_transitive(sorted[j - 1].1, e.1, sorted[p].1);
                    if j - 1 > p {
                        assert(!text_lt(sorted[j - 1].1, sorted[p].1));
                    } else {
                        lemma_text_lt_irreflexive(sorted[p].1);
                    }
                }
            } else {
                assert(r[i] == sorted[i] && r[j] == sorted[j - 1]);
            }
        }
    } else {
        assert(s == Seq::<(usize, Seq<char>)>::empty());
    }
}

} // verus!
