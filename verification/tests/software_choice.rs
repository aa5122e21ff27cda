use reddoc::consequences::handle_subcommand_computer;
use reddoc::information::Software;
use reddoc::node::State;
use reddoc::software_choice::{software_choice_step, ChoiceAnswer, ChoiceStep, SoftwareChoice};

/// Three computers: web-01, web-02 and db.
fn lab() -> State {
    let mut state = State::empty();
    handle_subcommand_computer(&mut state, "web-01", &Vec::new());
    handle_subcommand_computer(&mut state, "web-02", &Vec::new());
    handle_subcommand_computer(&mut state, "db", &Vec::new());
    state
}

fn version(v: &str) -> Option<String> {
    Some(v.to_string())
}

#[test]
fn unknown_software_ends_the_choice() {
    let mut state = lab();
    let step = software_choice_step(&mut state, "nginx", &vec![0], SoftwareChoice::Start, ChoiceAnswer::Begin);
    assert!(matches!(step, ChoiceStep::NotFound));
}

#[test]
fn single_software_everywhere_is_chosen_at_once() {
    let mut state = lab();
    state.add_software(Software::new("nginx", "", version("1.24")), Some(0));
    let step = software_choice_step(&mut state, "nginx", &vec![0], SoftwareChoice::Start, ChoiceAnswer::Begin);
    assert!(matches!(step, ChoiceStep::Chosen(0)));
}

#[test]
fn single_software_missing_somewhere_is_offered() {
    let mut state = lab();
    state.add_software(Software::new("nginx", "", version("1.24")), Some(0));
    let before = state.clone();
    let cids = vec![0, 1, 2];
    let step = software_choice_step(&mut state, "nginx", &cids, SoftwareChoice::Start, ChoiceAnswer::Begin);
    let at = match step {
        ChoiceStep::Ask(at @ SoftwareChoice::ConfirmNamed { id: 0, lacking: 1 }) => at,
        other => panic!("unexpected {other:?}"),
    };
    assert_eq!(state, before);

    // declined: nothing changes
    let mut declined = state.clone();
    let step = software_choice_step(&mut declined, "nginx", &cids, SoftwareChoice::ConfirmNamed { id: 0, lacking: 1 }, ChoiceAnswer::YesNo(false));
    match step {
        ChoiceStep::ChosenAddedNamed { id, computers } => {
            assert_eq!(id, 0);
            assert!(computers.is_empty());
        }
        other => panic!("unexpected {other:?}"),
    }
    assert_eq!(declined, before);

    // accepted: added to the computers that lack it
    let step = software_choice_step(&mut state, "nginx", &cids, at, ChoiceAnswer::YesNo(true));
    match step {
        ChoiceStep::ChosenAddedNamed { id, computers } => {
            assert_eq!(id, 0);
            assert_eq!(computers, vec![1, 2]);
        }
        other => panic!("unexpected {other:?}"),
    }
    assert_eq!(state.information.computers[0].software, vec![0]);
    assert_eq!(state.information.computers[1].software, vec![0]);
    assert_eq!(state.information.computers[2].software, vec![0]);
}

/// web-01 runs nginx 1.24 (id 0), web-02 runs 1.24 and 1.25 (id 1); db runs
/// nothing; nginx 0.9 (id 2) runs nowhere.
fn versions() -> State {
    let mut state = lab();
    state.add_software(Software::new("nginx", "", version("1.24")), Some(0));
    state.add_software(Software::new("nginx", "", version("1.25")), Some(1));
    state.add_software(Software::new("nginx", "", version("0.9")), None);
    reddoc::consequences::add_software_to_computers(&mut state, 0, &vec![1]);
    state
}

#[test]
fn several_versions_ask_how_to_choose() {
    let mut state = versions();
    let before = state.clone();
    let cids = vec![0, 1];
    let step = software_choice_step(&mut state, "nginx", &cids, SoftwareChoice::Start, ChoiceAnswer::Begin);
    let (ids, intersection, union) = match step {
        ChoiceStep::Ask(SoftwareChoice::Behaviour { ids, intersection, union }) => (ids, intersection, union),
        other => panic!("unexpected {other:?}"),
    };
    assert_eq!(ids, vec![0, 1, 2]);
    assert_eq!(intersection, vec![0]);
    assert_eq!(union, vec![0, 1]);
    assert_eq!(state, before);

    // automatic: the version all computers have, without asking
    let at = SoftwareChoice::Behaviour { ids: ids.clone(), intersection: intersection.clone(), union: union.clone() };
    assert!(matches!(software_choice_step(&mut state, "nginx", &cids, at, ChoiceAnswer::Number(1)), ChoiceStep::Chosen(0)));

    // giving up
    let at = SoftwareChoice::Behaviour { ids: ids.clone(), intersection: intersection.clone(), union: union.clone() };
    assert!(matches!(software_choice_step(&mut state, "nginx", &cids, at, ChoiceAnswer::Number(3)), ChoiceStep::Aborted));
    assert_eq!(state, before);
}

#[test]
fn automatic_choice_without_common_version_asks_to_add() {
    let mut state = versions();
    // db (2) has nothing: the union is empty, the first version is offered
    let cids = vec![2];
    let at = match software_choice_step(&mut state, "nginx", &cids, SoftwareChoice::Start, ChoiceAnswer::Begin) {
        ChoiceStep::Ask(at) => at,
        other => panic!("unexpected {other:?}"),
    };
    let at = match software_choice_step(&mut state, "nginx", &cids, at, ChoiceAnswer::Number(1)) {
        ChoiceStep::Ask(at @ SoftwareChoice::ConfirmSelected { id: 0 }) => at,
        other => panic!("unexpected {other:?}"),
    };
    assert!(matches!(software_choice_step(&mut state, "nginx", &cids, at, ChoiceAnswer::YesNo(true)), ChoiceStep::Chosen(0)));
    assert_eq!(state.information.computers[2].software, vec![0]);
}

#[test]
fn manual_choice_lists_sorted_versions() {
    let mut state = versions();
    let cids = vec![0, 1];
    let at = match software_choice_step(&mut state, "nginx", &cids, SoftwareChoice::Start, ChoiceAnswer::Begin) {
        ChoiceStep::Ask(at) => at,
        other => panic!("unexpected {other:?}"),
    };
    let at = match software_choice_step(&mut state, "nginx", &cids, at, ChoiceAnswer::Number(2)) {
        ChoiceStep::Ask(at @ SoftwareChoice::Collection { .. }) => at,
        other => panic!("unexpected {other:?}"),
    };
    // all versions, sorted by their text
    let at = match software_choice_step(&mut state, "nginx", &cids, at, ChoiceAnswer::Number(3)) {
        ChoiceStep::Ask(SoftwareChoice::Version { options }) => {
            assert_eq!(
                options,
                vec![(2, "0.9".to_string()), (0, "1.24".to_string()), (1, "1.25".to_string())]
            );
            SoftwareChoice::Version { options }
        }
        other => panic!("unexpected {other:?}"),
    };
    let at = match software_choice_step(&mut state, "nginx", &cids, at, ChoiceAnswer::Number(3)) {
        ChoiceStep::Ask(at @ SoftwareChoice::ConfirmSelected { id: 1 }) => at,
        other => panic!("unexpected {other:?}"),
    };
    assert!(matches!(software_choice_step(&mut state, "nginx", &cids, at, ChoiceAnswer::YesNo(true)), ChoiceStep::Chosen(1)));
    // web-01 gets 1.25; web-02 already had it
    assert_eq!(state.information.computers[0].software, vec![0, 1]);
    assert_eq!(state.information.computers[1].software, vec![1, 0]);
}

#[test]
fn automatic_choice_ignores_software_of_other_names() {
    let mut state = lab();
    // db runs only "apache"; "nginx" has two versions that no computer runs
    state.add_software(Software::new("apache", "", version("2.4")), Some(2));
    state.add_software(Software::new("nginx", "", version("1.24")), None);
    state.add_software(Software::new("nginx", "", version("1.25")), None);
    let cids = vec![2];
    let at = match software_choice_step(&mut state, "nginx", &cids, SoftwareChoice::Start, ChoiceAnswer::Begin) {
        ChoiceStep::Ask(SoftwareChoice::Behaviour { ids, intersection, union }) => {
            assert_eq!(ids, vec![1, 2]);
            assert!(intersection.is_empty());
            assert!(union.is_empty());
            SoftwareChoice::Behaviour { ids, intersection, union }
        }
        other => panic!("unexpected {other:?}"),
    };
    let at = match software_choice_step(&mut state, "nginx", &cids, at, ChoiceAnswer::Number(1)) {
        ChoiceStep::Ask(at @ SoftwareChoice::ConfirmSelected { id: 1 }) => at,
        other => panic!("unexpected {other:?}"),
    };
    assert!(matches!(software_choice_step(&mut state, "nginx", &cids, at, ChoiceAnswer::YesNo(false)), ChoiceStep::Chosen(1)));
    assert_eq!(state.information.computers[2].software, vec![0]);
}
