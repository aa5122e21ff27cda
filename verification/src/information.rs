//! The information learnt about the target: computers, addresses, software,
//! services, vulnerabilities, domains, users and facts.

use vstd::prelude::*;
use vstd::std_specs::cmp::PartialEqSpecImpl;

use crate::text::{
    law_standard_name_idempotent, standard_name, standard_version, standardize_name, standardize_version,
};

verus! {

/// An IP address: version 4 as its 32 bits, version 6 as its 128 bits (both
/// in network order, most significant first).
#[derive(Clone, Copy, Debug, Hash, PartialEq, Eq, Structural)]
pub enum IpAddress {
    V4(u32),
    V6(u128),
}

/// Information that has been obtained.
#[derive(Debug, Clone, Hash, PartialEq, Eq)]
pub struct Information {
    pub computers: Vec<Computer>,
    pub ips: Vec<IpAddress>,
    pub software: Vec<Software>,
    pub services: Vec<Service>,
    pub vulnerabilities: Vec<Vulnerability>,
    pub domains: Vec<String>,
    pub users: Vec<User>,
    pub facts: Vec<String>,
}

/// What kind of information an [`InfoRef`] points to.
#[derive(Debug, Clone, Copy, Hash, PartialEq, Eq, Structural)]
pub enum InfoClass {
    Computer,
    IP,
    Software,
    Vulnerability,
    Service,
    Domain,
    User,
    Fact,
}

/// Reference to a particular element inside an [`Information`] struct.
#[derive(Debug, Clone, Copy, Hash, PartialEq, Eq, Structural)]
pub struct InfoRef {
    pub index: usize,
    pub class: InfoClass,
}

/// Information of a computer ("machine"); it need not be physical hardware.
#[derive(Debug, Clone, Hash, PartialEq, Eq)]
pub struct Computer {
    /// A name to quickly identify the computer (standardised).
    pub name: String,
    /// Indices of the IP addresses of this machine (`Information::ips`).
    pub ips: Vec<usize>,
    /// Open or relevant ports.
    pub ports: Vec<u16>,
    /// Indices into `Information::services`.
    pub services: Vec<usize>,
    /// Indices into `Information::software`.
    pub software: Vec<usize>,
    pub is_honeypot: bool,
    /// Whether virtualisation is used, and optionally the index of the
    /// virtualisation software (`(false, Some(..))` is invalid).
    pub is_virtualized: Virtualization,
    /// The highest level of control ever achieved.
    pub infection_level: ComputerControl,
    /// Index of the operating system in `Information::software`.
    pub operating_system: Option<usize>,
}

/// Whether a computer is virtualised (`.0`), and optionally the index of the
/// virtualisation software in `Information::software` (`.1`).
#[derive(Debug, Clone, Copy, Hash, PartialEq, Eq, Structural)]
pub struct Virtualization(pub bool, pub Option<usize>);

/// The level of control achieved over a computer.
#[derive(Debug, Clone, Copy, Hash, PartialEq, Eq, Structural)]
pub enum ComputerControl {
    /// Administrative privileges
    Root,
    /// User with normal privileges
    User,
    /// Very limited control
    Limited,
    /// No control (`None` in the stored format)
    NoControl,
}

/// Some software used somewhere. Two pieces of software are the same when
/// their names and versions are.
#[derive(Debug, Clone, Hash)]
pub struct Software {
    pub name: String,
    pub description: String,
    pub version: Option<String>,
    /// Indices into `Information::vulnerabilities`.
    pub vulnerabilities: Vec<usize>,
}

/// A known vulnerability, by its CVE identifier.
#[derive(Debug, Clone, Hash, PartialEq, Eq)]
pub struct Vulnerability {
    pub cve: String,
    pub description: String,
    /// From 0 to 1000, standing for 0.00 to 10.00.
    pub severity: Option<i16>,
    /// Code used to exploit this vulnerability (optional).
    pub exploit: String,
    pub known_vunlerable_versions: Vec<String>,
}

/// A service offered on a port, optionally by a piece of software.
#[derive(Debug, Clone, Hash)]
pub struct Service {
    /// Name of the service or protocol (standardised).
    pub name: String,
    /// The port at which the service is exposed.
    pub port: u16,
    /// Index into `Information::software`.
    pub software: Option<usize>,
}

/// A subject (possibly a person) related to the target.
#[derive(Debug, Clone, Hash, PartialEq, Eq)]
pub struct User {
    pub name: String,
    pub email: Vec<String>,
    pub phone_number: Vec<u64>,
    /// Where each credential is used, and the credential.
    pub credentials: Vec<(String, Credential)>,
}

/// A credential of a user.
#[derive(Debug, Clone, Hash, PartialEq, Eq)]
pub enum Credential {
    User(String),
    UserPassword(String, String),
    UserHashedPassword(String, String),
    Token(String),
    PrivateKey(String),
}

impl Credential {
    /// The view of a credential: its kind (in the order of the variants) and
    /// its texts (the second is empty for kinds with one text).
    pub open spec fn key(&self) -> (int, Seq<char>, Seq<char>) {
        match self {
            Credential::User(a) => (0, a@, Seq::empty()),
            Credential::UserPassword(a, b) => (1, a@, b@),
            Credential::UserHashedPassword(a, b) => (2, a@, b@),
            Credential::Token(a) => (3, a@, Seq::empty()),
            Credential::PrivateKey(a) => (4, a@, Seq::empty()),
        }
    }
}

/// The views of the texts.
pub open spec fn texts_of(v: Seq<String>) -> Seq<Seq<char>> {
    v.map_values(|s: String| s@)
}

/// The views of credentials with the place where each is used.
pub open spec fn credential_keys(v: Seq<(String, Credential)>) -> Seq<(Seq<char>, (int, Seq<char>, Seq<char>))> {
    v.map_values(|e: (String, Credential)| (e.0@, e.1.key()))
}

impl User {
    /// The view of a user: all of its fields. Two users are the same when
    /// their views are.
    pub open spec fn key(&self) -> (Seq<char>, Seq<Seq<char>>, Seq<u64>, Seq<(Seq<char>, (int, Seq<char>, Seq<char>))>) {
        (self.name@, texts_of(self.email@), self.phone_number@, credential_keys(self.credentials@))
    }
}

/// Whether two credentials are the same (same kind and texts).
fn same_credential(a: &Credential, b: &Credential) -> (r: bool)
    ensures
        r == (a.key() == b.key()),
{
    match (a, b) {
        (Credential::User(x), Credential::User(y)) => String::eq(x, y),
        (Credential::UserPassword(x1, x2), Credential::UserPassword(y1, y2)) => String::eq(x1, y1) && String::eq(x2, y2),
        (Credential::UserHashedPassword(x1, x2), Credential::UserHashedPassword(y1, y2)) => String::eq(x1, y1) && String::eq(x2, y2),
        (Credential::Token(x), Credential::Token(y)) => String::eq(x, y),
        (Credential::PrivateKey(x), Credential::PrivateKey(y)) => String::eq(x, y),
        _ => false,
    }
}

/// Whether two lists of texts are the same.
fn same_texts(a: &Vec<String>, b: &Vec<String>) -> (r: bool)
    ensures
        r == (texts_of(a@) == texts_of(b@)),
{
    if a.len() != b.len() {
        assert(texts_of(a@).len() != texts_of(b@).len());
        return false;
    }
    let mut i: usize = 0;
    while i < a.len()
        invariant
            i <= a.len() == b.len(),
            forall|k: int| 0 <= k < i ==> #[trigger] a@[k]@ == b@[k]@,
        decreases a.len() - i,
    {
        if !String::eq(&a[i], &b[i]) {
            assert(texts_of(a@)[i as int] != texts_of(b@)[i as int]);
            return false;
        }
        i += 1;
    }
    assert(texts_of(a@) =~= texts_of(b@));
    true
}

/// Whether two lists of phone numbers are the same.
fn same_numbers(a: &Vec<u64>, b: &Vec<u64>) -> (r: bool)
    ensures
        r == (a@ == b@),
{
    if a.len() != b.len() {
        return false;
    }
    let mut i: usize = 0;
    while i < a.len()
        invariant
            i <= a.len() == b.len(),
            forall|k: int| 0 <= k < i ==> a@[k] == b@[k],
        decreases a.len() - i,
    {
        if a[i] != b[i] {
            return false;
        }
        i += 1;
    }
    assert(a@ =~= b@);
    true
}

/// Whether two lists of credentials are the same.
fn same_credentials(a: &Vec<(String, Credential)>, b: &Vec<(String, Credential)>) -> (r: bool)
    ensures
        r == (credential_keys(a@) == credential_keys(b@)),
{
    if a.len() != b.len() {
        assert(credential_keys(a@).len() != credential_keys(b@).len());
        return false;
    }
    let mut i: usize = 0;
    while i < a.len()
        invariant
            i <= a.len() == b.len(),
            forall|k: int| 0 <= k < i ==> #[trigger] credential_keys(a@)[k] == credential_keys(b@)[k],
        decreases a.len() - i,
    {
        if !(String::eq(&a[i].0, &b[i].0) && same_credential(&a[i].1, &b[i].1)) {
            assert(credential_keys(a@)[i as int] != credential_keys(b@)[i as int]);
            return false;
        }
        i += 1;
    }
    assert(credential_keys(a@) =~= credential_keys(b@));
    true
}

/// Whether two users are the same (see `User::key`).
pub fn same_user(a: &User, b: &User) -> (r: bool)
    ensures
        r == (a.key() == b.key()),
{
    String::eq(&a.name, &b.name) && same_texts(&a.email, &b.email) && same_numbers(
        &a.phone_number,
        &b.phone_number,
    ) && same_credentials(&a.credentials, &b.credentials)
}

/// The view of an optional string.
pub open spec fn opt_view(o: Option<String>) -> Option<Seq<char>> {
    match o {
        Some(s) => Some(s@),
        None => None,
    }
}

/// Whether two optional strings hold the same text.
pub fn opt_string_eq(a: &Option<String>, b: &Option<String>) -> (r: bool)
    ensures
        r == (opt_view(*a) == opt_view(*b)),
{
    match (a, b) {
        (Some(x), Some(y)) => String::eq(x, y),
        (None, None) => true,
        _ => false,
    }
}

impl Software {
    /// The identity of a piece of software: its name and version.
    pub open spec fn key(&self) -> (Seq<char>, Option<Seq<char>>) {
        (self.name@, opt_view(self.version))
    }
}

impl PartialEq for Software {
    fn eq(&self, other: &Self) -> (r: bool) {
        self.name == other.name && opt_string_eq(&self.version, &other.version)
    }
}

impl PartialEqSpecImpl for Software {
    open spec fn obeys_eq_spec() -> bool {
        true
    }

    open spec fn eq_spec(&self, other: &Self) -> bool {
        self.key() == other.key()
    }
}

impl Eq for Software {

}

impl Service {
    /// The view of a service: name, port and software.
    pub open spec fn key(&self) -> (Seq<char>, u16, Option<usize>) {
        (self.name@, self.port, self.software)
    }

    /// A copy of the service.
    pub fn duplicate(&self) -> (r: Service)
        ensures
            r == *self,
    {
        Service { name: self.name.clone(), port: self.port, software: self.software }
    }
}

impl PartialEq for Service {
    fn eq(&self, other: &Self) -> (r: bool) {
        self.name == other.name && self.port == other.port && self.software == other.software
    }
}

impl PartialEqSpecImpl for Service {
    open spec fn obeys_eq_spec() -> bool {
        true
    }

    open spec fn eq_spec(&self, other: &Self) -> bool {
        self.key() == other.key()
    }
}

impl Eq for Service {

}

impl Computer {
    /// A computer with the standardised name and nothing known about it yet.
    pub fn new(name_: &str) -> (c: Computer)
        ensures
            c.name@ == standard_name(name_@),
            c.ips@.len() == 0,
            c.ports@.len() == 0,
            c.services@.len() == 0,
            c.software@.len() == 0,
            !c.is_honeypot,
            c.is_virtualized == Virtualization(false, None),
            c.infection_level == ComputerControl::NoControl,
            c.operating_system is None,
    {
        let std_name = standardize_name(name_);
        Computer {
            name: std_name,
            ips: Vec::new(),
            ports: Vec::new(),
            services: Vec::new(),
            software: Vec::new(),
            is_honeypot: false,
            is_virtualized: Virtualization(false, None),
            infection_level: ComputerControl::NoControl,
            operating_system: None,
        }
    }
}

impl Software {
    /// The software is what `Software::new` makes of these arguments.
    pub open spec fn made_from(
        &self,
        name: Seq<char>,
        description: Seq<char>,
        version: Option<Seq<char>>,
    ) -> bool {
        &&& self.name@ == standard_name(name)
        &&& self.description@ == description
        &&& opt_view(self.version) == match version {
            Some(v) => Some(standard_version(v)),
            None => None,
        }
        &&& self.vulnerabilities@.len() == 0
    }

    /// Software with the standardised name, the description as given, the
    /// standardised version if there is one, and no known vulnerability.
    pub fn new(name_: &str, description_: &str, version_: Option<String>) -> (s: Software)
        ensures
            s.made_from(name_@, description_@, opt_view(version_)),
    {
        let std_name = standardize_name(name_);
        let std_version = match version_ {
            Some(v) => Some(standardize_version(v.as_str())),
            None => None,
        };
        Software {
            name: std_name,
            description: description_.to_owned(),
            version: std_version,
            vulnerabilities: Vec::new(),
        }
    }
}

impl Service {
    /// A service with the standardised name on the given port, with no
    /// software attached.
    pub fn new(name: &str, port_: u16) -> (s: Service)
        ensures
            s.name@ == standard_name(name@),
            standard_name(s.name@) == s.name@,
            s.port == port_,
            s.software is None,
    {
        let std_name = standardize_name(name);
        proof {
            law_standard_name_idempotent(name@);
        }
        Service { name: std_name, software: None, port: port_ }
    }
}

/// The versions of the software named `name`, in the order the software is
/// stored (software without a version is skipped).
pub open spec fn versions_named(software: Seq<Software>, name: Seq<char>) -> Seq<Seq<char>>
    decreases software.len(),
{
    if software.len() == 0 {
        Seq::empty()
    } else {
        let rest = versions_named(software.drop_last(), name);
        let s = software.last();
        if s.name@ == name && s.version is Some {
            rest.push(s.version->0@)
        } else {
            rest
        }
    }
}

impl Information {
    /// No information.
    pub fn new() -> (i: Information)
        ensures
            i.computers@.len() == 0,
            i.ips@.len() == 0,
            i.software@.len() == 0,
            i.services@.len() == 0,
            i.vulnerabilities@.len() == 0,
            i.domains@.len() == 0,
            i.users@.len() == 0,
            i.facts@.len() == 0,
    {
        Information {
            computers: Vec::new(),
            ips: Vec::new(),
            software: Vec::new(),
            services: Vec::new(),
            vulnerabilities: Vec::new(),
            domains: Vec::new(),
            users: Vec::new(),
            facts: Vec::new(),
        }
    }

    /// The versions of the software whose name is the standardisation of `name`.
    pub fn get_sowtware_versions<'a>(&'a self, name: &str) -> (r: Vec<&'a str>)
        ensures
            r@.map_values(|v: &str| v@) == versions_named(self.software@, standard_name(name@)),
    {
        let curated_name = standardize_name(name);
        let mut ret: Vec<&'a str> = Vec::new();
        let mut i: usize = 0;
        while i < self.software.len()
            invariant
                i <= self.software.len(),
                curated_name@ == standard_name(name@),
                ret@.map_values(|v: &str| v@) == versions_named(
                    self.software@.take(i as int),
                    curated_name@,
                ),
            decreases self.software.len() - i,
        {
            let s = &self.software[i];
            assert(self.software@.take(i + 1).drop_last() == self.software@.take(i as int));
            if s.name == curated_name {
                match &s.version {
                    Some(v) => {
                        ret.push(v.as_str());
                        assert(ret@.map_values(|v: &str| v@) == versions_named(
                            self.software@.take(i as int),
                            curated_name@,
                        ).push(v@));
                    },
                    None => {},
                }
            }
            i += 1;
        }
        assert(self.software@.take(self.software.len() as int) == self.software@);
        ret
    }
}


/// The index of the first occurrence of `k` in `s`, or `s.len()` when it
/// does not occur.
pub open spec fn first_index<K>(s: Seq<K>, k: K) -> int
    decreases s.len(),
{
    if s.len() == 0 {
        0
    } else {
        let f = first_index(s.drop_last(), k);
        if f < s.len() - 1 {
            f
        } else if s.last() == k {
            s.len() - 1
        } else {
            s.len() as int
        }
    }
}

/// What `first_index` is: the first position holding `k`, or the length.
pub proof fn lemma_first_index<K>(s: Seq<K>, k: K)
    ensures
        0 <= first_index(s, k) <= s.len(),
        first_index(s, k) < s.len() ==> s[first_index(s, k)] == k,
        first_index(s, k) == s.len() <==> !s.contains(k),
        forall|j: int| 0 <= j < first_index(s, k) ==> #[trigger] s[j] != k,
    decreases s.len(),
{
    if s.len() > 0 {
        lemma_first_index(s.drop_last(), k);
        assert forall|j: int| 0 <= j < first_index(s, k) implies #[trigger] s[j] != k by {
            assert(j < s.len() - 1 ==> s[j] == s.drop_last()[j]);
        }
        if first_index(s, k) == s.len() && s.contains(k) {
            let j = choose|j: int| 0 <= j < s.len() && s[j] == k;
            assert(j == s.len() - 1 || s.drop_last()[j] == k);
        }
    }
}

/// The names of the computers.
pub open spec fn names_of(computers: Seq<Computer>) -> Seq<Seq<char>> {
    computers.map_values(|c: Computer| c.name@)
}

/// The keys (name, port, software) of the services.
pub open spec fn service_keys_of(services: Seq<Service>) -> Seq<(Seq<char>, u16, Option<usize>)> {
    services.map_values(|s: Service| s.key())
}

/// Whether `v` holds `x`.
pub fn contains_index(v: &Vec<usize>, x: usize) -> (b: bool)
    ensures
        b == v@.contains(x),
{
    let mut i: usize = 0;
    while i < v.len()
        invariant
            i <= v.len(),
            forall|k: int| 0 <= k < i ==> v@[k] != x,
        decreases v.len() - i,
    {
        if v[i] == x {
            assert(v@[i as int] == x);
            return true;
        }
        i += 1;
    }
    false
}

/// No element occurs twice.
pub open spec fn no_duplicates<T>(s: Seq<T>) -> bool {
    forall|i: int, j: int| 0 <= i < s.len() && 0 <= j < s.len() && i != j ==> s[i] != s[j]
}

/// Appending an element that the sequence does not hold keeps it free of
/// repetitions.
pub proof fn lemma_no_duplicates_push<T>(s: Seq<T>, x: T)
    requires
        no_duplicates(s),
        !s.contains(x),
    ensures
        no_duplicates(s.push(x)),
{
    let t = s.push(x);
    assert forall|i: int, j: int| 0 <= i < t.len() && 0 <= j < t.len() && i != j implies t[i] != t[j] by {
        if i == s.len() {
            if t[j] == x {
                assert(s[j] == x);
            }
        } else if j == s.len() {
            if t[i] == x {
                assert(s[i] == x);
            }
        } else {
            assert(t[i] == s[i] && t[j] == s[j]);
        }
    }
}

/// Every index is below `n`.
pub open spec fn all_below(s: Seq<usize>, n: int) -> bool {
    forall|i: int| 0 <= i < s.len() ==> #[trigger] s[i] < n
}

/// The lists of indices of a computer: in range and without repetitions.
pub open spec fn index_list_ok(s: Seq<usize>, n: int) -> bool {
    all_below(s, n) && no_duplicates(s)
}

/// Appending an index that is new to the list (it is not there, or not
/// below the old bound) keeps the list valid for a bound at least as large.
pub proof fn lemma_index_list_push(o: Seq<usize>, bound: int, new_bound: int, x: usize)
    requires
        index_list_ok(o, bound),
        bound <= new_bound,
        x < new_bound,
        x >= bound || !o.contains(x),
    ensures
        index_list_ok(o.push(x), new_bound),
{
    if o.contains(x) {
        let k = choose|k: int| 0 <= k < o.len() && o[k] == x;
        assert(o[k] < bound);
    }
    lemma_no_duplicates_push(o, x);
    assert forall|i: int| 0 <= i < o.push(x).len() implies #[trigger] o.push(x)[i] < new_bound by {
        if i < o.len() {
            assert(o.push(x)[i] == o[i]);
        }
    }
}

impl Information {
    /// The computer's references point into this information.
    pub open spec fn computer_fits(&self, c: Computer) -> bool {
        &&& index_list_ok(c.ips@, self.ips@.len() as int)
        &&& index_list_ok(c.services@, self.services@.len() as int)
        &&& index_list_ok(c.software@, self.software@.len() as int)
        &&& c.is_virtualized.1 is Some ==> c.is_virtualized.0 && c.is_virtualized.1->0
            < self.software@.len()
        &&& c.operating_system is Some ==> c.operating_system->0 < self.software@.len()
    }

    /// The service's software reference points into this information.
    pub open spec fn service_fits(&self, s: Service) -> bool {
        s.software is Some ==> s.software->0 < self.software@.len()
    }

    /// The vulnerability's severity, if known, is from 0 to 1000.
    pub open spec fn vulnerability_fits(&self, v: Vulnerability) -> bool {
        v.severity matches Some(x) ==> 0 <= x <= 1000
    }

    /// The software's vulnerability references point into this information.
    pub open spec fn software_fits(&self, s: Software) -> bool {
        all_below(s.vulnerabilities@, self.vulnerabilities@.len() as int)
    }

    /// The names of the computers.
    pub open spec fn computer_names(&self) -> Seq<Seq<char>> {
        names_of(self.computers@)
    }

    /// The names and versions of the software.
    pub open spec fn software_keys(&self) -> Seq<(Seq<char>, Option<Seq<char>>)> {
        self.software@.map_values(|s: Software| s.key())
    }

    /// The names, ports and software of the services.
    pub open spec fn service_keys(&self) -> Seq<(Seq<char>, u16, Option<usize>)> {
        service_keys_of(self.services@)
    }

    /// The CVE identifiers of the vulnerabilities.
    pub open spec fn cves(&self) -> Seq<Seq<char>> {
        self.vulnerabilities@.map_values(|v: Vulnerability| v.cve@)
    }

    /// The domains.
    pub open spec fn domain_names(&self) -> Seq<Seq<char>> {
        texts_of(self.domains@)
    }

    /// The views of the users.
    pub open spec fn user_keys(&self) -> Seq<(Seq<char>, Seq<Seq<char>>, Seq<u64>, Seq<(Seq<char>, (int, Seq<char>, Seq<char>))>)> {
        self.users@.map_values(|u: User| u.key())
    }

    /// The facts.
    pub open spec fn fact_texts(&self) -> Seq<Seq<char>> {
        texts_of(self.facts@)
    }

    /// The information is consistent: nothing is stored twice (computers by
    /// name, software by name and version, vulnerabilities by CVE, addresses,
    /// services, domains, users and facts by value), every index points to an
    /// element, and every severity is in its range.
    pub open spec fn wf(&self) -> bool {
        &&& no_duplicates(self.computer_names())
        &&& no_duplicates(self.ips@)
        &&& no_duplicates(self.software_keys())
        &&& no_duplicates(self.service_keys())
        &&& no_duplicates(self.cves())
        &&& no_duplicates(self.domain_names())
        &&& no_duplicates(self.user_keys())
        &&& no_duplicates(self.fact_texts())
        &&& forall|i: int| 0 <= i < self.computers@.len() ==> self.computer_fits(#[trigger] self.computers@[i])
        &&& forall|i: int| 0 <= i < self.services@.len() ==> self.service_fits(#[trigger] self.services@[i])
        &&& forall|i: int| 0 <= i < self.software@.len() ==> self.software_fits(#[trigger] self.software@[i])
        &&& forall|i: int| 0 <= i < self.vulnerabilities@.len() ==> self.vulnerability_fits(#[trigger] self.vulnerabilities@[i])
    }
}

} // verus!
