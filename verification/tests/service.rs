use reddoc::consequences::{
    add_named_software_to_computers, add_service_to_computers, add_software_to_computers,
    autoselect_software, handle_subcommand_computer, handle_subcommand_ip,
    handle_subcommand_software, parse_port, resolve_software, service_add_would_fail,
    service_computers, software_intersection_union, version_options, Consequence, ServiceError,
    SoftwareResolution,
};
use reddoc::information::{Computer, InfoClass, InfoRef, IpAddress, Service, Software};
use reddoc::node::{Category, State};

fn info_ref(n: &reddoc::node::Node) -> InfoRef {
    match &n.category {
        Category::Consequence(Consequence::NewInformation(r)) => *r,
        _ => panic!("not new information"),
    }
}

fn lab() -> State {
    let mut state = State::empty();
    handle_subcommand_computer(&mut state, "web-01", &vec![IpAddress::V4(1)]);
    handle_subcommand_computer(&mut state, "web-02", &Vec::new());
    handle_subcommand_computer(&mut state, "db", &Vec::new());
    state
}

#[test]
fn computer_consequence() {
    let mut state = State::empty();
    let ips = vec![IpAddress::V4(1), IpAddress::V4(2), IpAddress::V4(1)];
    let nodes = handle_subcommand_computer(&mut state, " Alpha ", &ips);
    assert_eq!(nodes.len(), 1);
    assert_eq!(info_ref(&nodes[0]), InfoRef { index: 0, class: InfoClass::Computer });
    assert_eq!(state.information.computers[0].name, "alpha");
    assert_eq!(state.information.computers[0].ips, vec![0, 1]);
    assert_eq!(state.information.ips, vec![IpAddress::V4(1), IpAddress::V4(2)]);
    // a second computer with the same name is refused
    assert!(handle_subcommand_computer(&mut state, "ALPHA", &Vec::new()).is_empty());
    assert_eq!(state.information.computers.len(), 1);
    // known addresses are skipped
    let nodes = handle_subcommand_computer(&mut state, "beta", &vec![IpAddress::V4(2), IpAddress::V6(9)]);
    assert_eq!(info_ref(&nodes[0]).index, 1);
    assert_eq!(state.information.computers[1].ips, vec![2]);
}

#[test]
fn ip_consequence() {
    let mut state = lab();
    let nodes = handle_subcommand_ip(&mut state, "db", &vec![IpAddress::V4(1), IpAddress::V4(7), IpAddress::V6(3)]);
    assert_eq!(nodes.len(), 2);
    assert_eq!(info_ref(&nodes[0]), InfoRef { index: 1, class: InfoClass::IP });
    assert_eq!(info_ref(&nodes[1]), InfoRef { index: 2, class: InfoClass::IP });
    assert_eq!(state.information.computers[2].ips, vec![1, 2]);
    // the tag is not standardised
    assert!(handle_subcommand_ip(&mut state, "DB", &vec![IpAddress::V4(8)]).is_empty());
    assert_eq!(state.information.ips.len(), 3);
}

#[test]
fn software_consequence() {
    let mut state = lab();
    let nodes = handle_subcommand_software(&mut state, "Nginx", "web server", Some("WEB-01"), Some("1.24".to_string()));
    assert_eq!(info_ref(&nodes[0]), InfoRef { index: 0, class: InfoClass::Software });
    assert_eq!(state.information.computers[0].software, vec![0]);
    assert!(handle_subcommand_software(&mut state, "nginx", "", None, Some("1.24".to_string())).is_empty());
    assert!(handle_subcommand_software(&mut state, "apache", "", Some("nowhere"), None).is_empty());
    assert_eq!(state.information.software.len(), 1);
    let nodes = handle_subcommand_software(&mut state, "apache", "", None, None);
    assert_eq!(info_ref(&nodes[0]).index, 1);
}

#[test]
fn service_computers_by_name_and_pattern() {
    let state = lab();
    assert_eq!(service_computers(&state.information, " Web-02", false).unwrap(), vec![1]);
    assert!(matches!(service_computers(&state.information, "mail", false), Err(ServiceError::ComputerNotFound)));
    assert_eq!(service_computers(&state.information, "^web-", true).unwrap(), vec![0, 1]);
    assert_eq!(service_computers(&state.information, "b", true).unwrap(), vec![0, 1, 2]);
    assert!(matches!(service_computers(&state.information, "^mail", true), Err(ServiceError::NoMatch)));
    assert!(matches!(service_computers(&state.information, "web-(", true), Err(ServiceError::InvalidPattern(_))));
}

#[test]
fn ports() {
    assert_eq!(parse_port("22"), Some(22));
    assert_eq!(parse_port("+443"), Some(443));
    assert_eq!(parse_port("65535"), Some(65535));
    assert_eq!(parse_port("65536"), None);
    assert_eq!(parse_port(" 22"), None);
    assert_eq!(parse_port(""), None);
}

#[test]
fn resolving_software() {
    let mut state = lab();
    state.add_software(Software::new("nginx", "", Some("1.24".to_string())), Some(0));
    let comps = vec![0, 1];
    match resolve_software(&state.information, "nginx", &comps) {
        SoftwareResolution::Single { id, lacking } => {
            assert_eq!(id, 0);
            assert_eq!(lacking, Some(1));
        }
        _ => panic!("one version expected"),
    }
    assert!(matches!(resolve_software(&state.information, "apache", &comps), SoftwareResolution::NotFound));
    let added = add_named_software_to_computers(&mut state, 0, "nginx", &vec![0, 1, 2, 1]);
    assert_eq!(added, vec![1, 2]);
    assert_eq!(state.information.computers[1].software, vec![0]);
    state.add_software(Software::new("nginx", "", Some("1.25".to_string())), Some(2));
    match resolve_software(&state.information, "nginx", &comps) {
        SoftwareResolution::Multiple { ids } => assert_eq!(ids, vec![0, 1]),
        _ => panic!("two versions expected"),
    }
}

#[test]
fn intersection_and_union() {
    let mut state = lab();
    for (name, comp) in [("a", 0), ("b", 0), ("c", 1)] {
        state.add_software(Software::new(name, "", None), Some(comp));
    }
    add_software_to_computers(&mut state, 0, &vec![1]);
    // web-01: [0, 1], web-02: [2, 0]
    let all = vec![0, 1, 2];
    let (inter, union) = software_intersection_union(&state.information, &vec![0, 1, 9], &all);
    assert_eq!(inter, vec![0]);
    assert_eq!(union, vec![0, 1, 2]);
    // only the listed versions count
    let (inter, union) = software_intersection_union(&state.information, &vec![0, 1], &vec![2, 1]);
    assert!(inter.is_empty());
    assert_eq!(union, vec![1, 2]);
    let (inter, union) = software_intersection_union(&state.information, &vec![2], &all);
    assert!(inter.is_empty() && union.is_empty());
    let (inter, union) = software_intersection_union(&state.information, &vec![], &all);
    assert!(inter.is_empty() && union.is_empty());
    assert_eq!(autoselect_software(&vec![4, 5], &vec![1], &vec![9]), (4, false));
    assert_eq!(autoselect_software(&vec![], &vec![1, 2], &vec![9]), (1, true));
    assert_eq!(autoselect_software(&vec![], &vec![], &vec![9, 3]), (9, true));
    // adding again changes nothing
    add_software_to_computers(&mut state, 0, &vec![1, 1]);
    assert_eq!(state.information.computers[1].software, vec![2, 0]);
}

#[test]
fn version_choices_are_sorted_stably() {
    let mut state = State::empty();
    state.add_software(Software::new("x", "", Some("2.0".to_string())), None);
    state.add_software(Software::new("x", "", None), None);
    state.add_software(Software::new("x", "", Some("10.1".to_string())), None);
    state.add_software(Software::new("y", "", None), None);
    let options = version_options(&state.information, &vec![0, 1, 2, 3]);
    let expected: Vec<(usize, String)> = vec![
        (1, "None".to_string()),
        (3, "None".to_string()),
        (2, "10.1".to_string()),
        (0, "2.0".to_string()),
    ];
    // "1" < "2" < "N": byte order
    assert_eq!(options, vec![expected[2].clone(), expected[3].clone(), expected[0].clone(), expected[1].clone()]);
}

#[test]
fn services_added_to_computers() {
    let mut state = lab();
    let ssh = Service::new("ssh", 22);
    assert!(!service_add_would_fail(&state.information, &ssh, &vec![0, 1]));
    assert!(service_add_would_fail(&state.information, &ssh, &vec![0, 0]));
    assert!(service_add_would_fail(&state.information, &ssh, &vec![7]));
    let nodes = add_service_to_computers(&mut state, &ssh, &vec![0, 1]);
    assert_eq!(nodes.len(), 2);
    assert_eq!(info_ref(&nodes[1]), InfoRef { index: 0, class: InfoClass::Service });
    assert_eq!(state.information.services.len(), 1);
    assert_eq!(state.information.computers[1].services, vec![0]);
    assert!(service_add_would_fail(&state.information, &ssh, &vec![2, 1]));
    assert!(!service_add_would_fail(&state.information, &ssh, &vec![2]));
    let _ = Computer::new("unused");
}
