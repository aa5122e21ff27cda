use reddoc::action::Action;
use reddoc::information::{
    same_user, Computer, ComputerControl, Credential, InfoClass, InfoRef, Information, IpAddress,
    Service, Software, User, Virtualization, Vulnerability,
};
use reddoc::node::{Category, Node, State, TimeStamp, Timeline};
use reddoc::report::time_line_to_markdown;

fn vulnerability(cve: &str) -> Vulnerability {
    Vulnerability {
        cve: cve.to_string(),
        description: String::new(),
        severity: Some(750),
        exploit: String::new(),
        known_vunlerable_versions: Vec::new(),
    }
}

#[test]
fn new_computer_is_blank() {
    let c = Computer::new("  Web-01 ");
    assert_eq!(c.name, "web-01");
    assert!(c.ips.is_empty() && c.ports.is_empty() && c.services.is_empty() && c.software.is_empty());
    assert!(!c.is_honeypot);
    assert_eq!(c.is_virtualized, Virtualization(false, None));
    assert_eq!(c.infection_level, ComputerControl::NoControl);
    assert_eq!(c.operating_system, None);
}

#[test]
fn new_software_and_service() {
    let s = Software::new("OpenSSH ", "remote shell", Some(" 9.6P1 ".to_string()));
    assert_eq!(s.name, "openssh");
    assert_eq!(s.description, "remote shell");
    assert_eq!(s.version, Some("9.6P1".to_string()));
    assert!(s.vulnerabilities.is_empty());
    assert_eq!(Software::new("a", "x", None).version, None);
    let sv = Service::new(" SSH", 22);
    assert_eq!(sv.name, "ssh");
    assert_eq!(sv.port, 22);
    assert_eq!(sv.software, None);
    // software is the same when name and version are
    assert!(Software::new("a", "one", None) == Software::new("A", "two", None));
    assert!(Software::new("a", "", Some("1".to_string())) != Software::new("a", "", None));
}

#[test]
fn computers_are_unique_by_name() {
    let mut state = State::empty();
    assert_eq!(state.add_computer(Computer::new("alpha")), Some(0));
    assert_eq!(state.add_computer(Computer::new("beta")), Some(1));
    assert_eq!(state.add_computer(Computer::new("ALPHA")), None);
    assert_eq!(state.information.computers.len(), 2);
    assert_eq!(state.get_computer_id("beta"), Some(1));
    assert_eq!(state.get_computer_id("gamma"), None);
    // the name is compared as given
    assert_eq!(state.get_computer_id("Beta"), None);
}

#[test]
fn ips_are_unique_and_related() {
    let mut state = State::empty();
    state.add_computer(Computer::new("alpha"));
    state.add_computer(Computer::new("beta"));
    let a = IpAddress::V4(0x0a00_0001);
    let b = IpAddress::V6(1);
    assert_eq!(state.add_ip(a, 0), Some(0));
    assert_eq!(state.add_ip(a, 1), None);
    assert_eq!(state.add_ip(b, 7), None);
    assert_eq!(state.add_ip(b, 1), Some(1));
    assert_eq!(state.information.computers[0].ips, vec![0]);
    assert_eq!(state.information.computers[1].ips, vec![1]);
    assert!(state.relate_ip_computer(1, 0));
    assert!(!state.relate_ip_computer(1, 0));
    assert_eq!(state.information.computers[1].ips, vec![1, 0]);
}

#[test]
fn software_is_unique_by_name_and_version() {
    let mut state = State::empty();
    state.add_computer(Computer::new("alpha"));
    let s1 = Software::new("nginx", "", Some("1.24".to_string()));
    assert_eq!(state.add_software(s1, Some(0)), Some(0));
    let s2 = Software::new("NGINX", "other", Some("1.24".to_string()));
    assert_eq!(state.add_software(s2, None), None);
    let s3 = Software::new("nginx", "", Some("1.25".to_string()));
    assert_eq!(state.add_software(s3, Some(9)), Some(1));
    assert_eq!(state.information.computers[0].software, vec![0]);
    let versions = state.information.get_sowtware_versions(" NGINX");
    assert_eq!(versions, vec!["1.24", "1.25"]);
    assert!(state.information.get_sowtware_versions("apache").is_empty());
}

#[test]
fn services_are_stored_once() {
    let mut state = State::empty();
    state.add_computer(Computer::new("alpha"));
    state.add_computer(Computer::new("beta"));
    assert_eq!(state.add_service(Service::new("ssh", 22), 0), Some(0));
    assert_eq!(state.add_service(Service::new("ssh", 22), 1), Some(0));
    assert_eq!(state.information.services.len(), 1);
    assert_eq!(state.add_service(Service::new("ssh", 22), 1), None);
    assert_eq!(state.add_service(Service::new("http", 80), 5), None);
    assert_eq!(state.information.services.len(), 1);
    assert_eq!(state.add_service(Service::new("http", 80), 1), Some(1));
    assert_eq!(state.information.computers[1].services, vec![0, 1]);
}

#[test]
fn vulnerabilities_domains_users_facts() {
    let mut state = State::empty();
    assert_eq!(state.add_vulnerability(vulnerability("CVE-2024-1")), Some(0));
    assert_eq!(state.add_vulnerability(vulnerability("CVE-2024-1")), None);
    assert_eq!(state.add_vulnerability(vulnerability("CVE-2024-2")), Some(1));
    assert_eq!(state.add_domain("example.org".to_string()), Some(0));
    assert_eq!(state.add_domain("example.org".to_string()), None);
    let user = User { name: "ann".to_string(), email: Vec::new(), phone_number: Vec::new(), credentials: Vec::new() };
    assert_eq!(state.add_user(user.clone()), Some(0));
    assert_eq!(state.add_user(user.clone()), None);
    let mut other = user.clone();
    other.phone_number.push(5550100);
    assert_eq!(state.add_user(other), Some(1));
    assert_eq!(state.information.users.len(), 2);
    assert_eq!(state.add_fact("f".to_string()), Some(0));
    assert_eq!(state.add_fact("f".to_string()), None);
    assert_eq!(state.add_fact("g".to_string()), Some(1));
    assert_eq!(state.information.facts, vec!["f".to_string(), "g".to_string()]);
}

#[test]
fn users_compared_by_all_fields() {
    let base = User {
        name: "bob".to_string(),
        email: vec!["bob@example.org".to_string()],
        phone_number: vec![1, 2],
        credentials: vec![("ssh".to_string(), Credential::UserPassword("bob".to_string(), "pw".to_string()))],
    };
    assert!(same_user(&base, &base.clone()));
    let mut e = base.clone();
    e.email[0].push('x');
    assert!(!same_user(&base, &e));
    let mut c = base.clone();
    c.credentials[0].1 = Credential::UserHashedPassword("bob".to_string(), "pw".to_string());
    assert!(!same_user(&base, &c));
    let mut p = base.clone();
    p.credentials[0].0 = "web".to_string();
    assert!(!same_user(&base, &p));
    let mut state = State::empty();
    assert_eq!(state.add_user(base.clone()), Some(0));
    assert_eq!(state.add_user(c), Some(1));
    assert_eq!(state.add_user(base), None);
}

#[test]
fn timeline_grows_in_order() {
    let mut state = State::empty();
    let n1 = Node { time_stamp: TimeStamp { secs: 1, nanos: 0 }, category: Category::Action(Action::Custom("a".to_string())) };
    let n2 = Node { time_stamp: TimeStamp { secs: 2, nanos: 5 }, category: Category::Action(Action::Command("ls".to_string())) };
    state.add_node(&n1);
    state.add_nodes(&vec![n2.clone(), n1.clone()]);
    assert_eq!(state.time_line.0, vec![n1.clone(), n2, n1]);
    assert_eq!(state.information, Information::new());
    assert_eq!(time_line_to_markdown(&state.time_line), "");
    assert!(Timeline::new().0.is_empty());
    let fresh = Node::new(Category::Consequence(reddoc::consequences::Consequence::NewInformation(InfoRef { index: 3, class: InfoClass::Fact })));
    assert_eq!(fresh.category, Category::Consequence(reddoc::consequences::Consequence::NewInformation(InfoRef { index: 3, class: InfoClass::Fact })));
}

#[test]
fn new_nodes_are_stamped_with_the_clock() {
    let before = std::time::SystemTime::now()
        .duration_since(std::time::UNIX_EPOCH)
        .unwrap()
        .as_secs() as i64;
    let n = Node::new(Category::Action(Action::Custom("scan".to_string())));
    let after = std::time::SystemTime::now()
        .duration_since(std::time::UNIX_EPOCH)
        .unwrap()
        .as_secs() as i64;
    assert!(before <= n.time_stamp.secs && n.time_stamp.secs <= after);
    assert_eq!(n.category, Category::Action(Action::Custom("scan".to_string())));
}
