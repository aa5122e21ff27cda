//! The choice of the software that offers a service, made with the user:
//! from where the choice stands and the user's answer to what happens next.
//!
//! The software is looked up by name. When one piece of software has the
//! name, it is used, and the user may add it to the computers that lack
//! software of that name. When several versions have the name, the user
//! chooses how to pick one (automatically or by hand, or gives up), and may
//! add the version picked to the computers of the service.

use vstd::prelude::*;

use crate::consequences::{
    add_named_software_to_computers, add_software_to_computers, ascending, autoselect_software,
    entries_view, first_lacking, in_all, in_some, is_named_list, lacking_in_order,
    law_sort_by_text_sorted, resolve_software, software_added_to,
    software_added_where_missing, software_intersection_union, software_refs_in_range, sort_by_text,
    version_entries, version_options, SoftwareResolution,
};
use crate::information::Information;
use crate::node::{holds, State};

verus! {

/// Where the choice stands: what was last asked of the user.
#[derive(Debug)]
pub enum SoftwareChoice {
    /// Nothing has been asked yet.
    Start,
    /// Whether to add the only software with the name, `id`, to the
    /// computers without software of that name (`lacking` is the first).
    ConfirmNamed { id: usize, lacking: usize },
    /// How to pick among the versions `ids` (ascending): 1 automatically,
    /// 2 by hand, 3 give up. `intersection` and `union` are the software of
    /// all and of any of the computers (see `software_intersection_union`).
    Behaviour { ids: Vec<usize>, intersection: Vec<usize>, union: Vec<usize> },
    /// Which set to pick by hand from: 1 `intersection`, 2 `union`, 3 `ids`.
    Collection { ids: Vec<usize>, intersection: Vec<usize>, union: Vec<usize> },
    /// Which of the `options` (numbered from 1) to use.
    Version { options: Vec<(usize, String)> },
    /// Whether to add the software `id` to the computers that lack it.
    ConfirmSelected { id: usize },
}

/// The user's answer to what was last asked.
#[derive(Debug)]
pub enum ChoiceAnswer {
    /// Nothing was asked yet.
    Begin,
    /// The answer to a yes/no question.
    YesNo(bool),
    /// The number of the option chosen, from 1.
    Number(usize),
}

/// What happens next.
#[derive(Debug)]
pub enum ChoiceStep {
    /// No software has the name: there is no choice.
    NotFound,
    /// The user gave up the choice.
    Aborted,
    /// The software chosen.
    Chosen(usize),
    /// The only software with the name was chosen; `computers` are those it
    /// was added to.
    ChosenAddedNamed { id: usize, computers: Vec<usize> },
    /// The choice goes on: the user is asked what `SoftwareChoice` says.
    Ask(SoftwareChoice),
}

/// Each index of the list is that of software named `name`.
pub open spec fn all_named(v: Seq<usize>, info: Information, name: Seq<char>) -> bool {
    forall|k: int| 0 <= k < v.len() ==> #[trigger] v[k] < info.software@.len()
        && info.software@[v[k] as int].name@ == name
}

/// `id` is the index of software named `name`.
pub open spec fn is_named(id: usize, info: Information, name: Seq<char>) -> bool {
    id < info.software@.len() && info.software@[id as int].name@ == name
}

/// Every index of software that the choice holds is that of a version of
/// the software named `name`.
pub open spec fn choice_fits(info: Information, name: Seq<char>, at: SoftwareChoice) -> bool {
    match at {
        SoftwareChoice::Start => true,
        SoftwareChoice::ConfirmNamed { id, lacking } => is_named(id, info, name),
        SoftwareChoice::Behaviour { ids, intersection, union } => ids@.len() > 0 && all_named(ids@, info, name)
            && all_named(intersection@, info, name) && all_named(union@, info, name),
        SoftwareChoice::Collection { ids, intersection, union } => ids@.len() > 0 && all_named(ids@, info, name)
            && all_named(intersection@, info, name) && all_named(union@, info, name),
        SoftwareChoice::Version { options } => forall|k: int|
            0 <= k < options@.len() ==> is_named(#[trigger] options@[k].0, info, name),
        SoftwareChoice::ConfirmSelected { id } => is_named(id, info, name),
    }
}

/// The answer is one to what was asked: none at the start, yes or no to a
/// confirmation, and the number of one of the options otherwise.
pub open spec fn answer_fits(at: SoftwareChoice, answer: ChoiceAnswer) -> bool {
    match at {
        SoftwareChoice::Start => answer is Begin,
        SoftwareChoice::ConfirmNamed { .. } => answer is YesNo,
        SoftwareChoice::ConfirmSelected { .. } => answer is YesNo,
        SoftwareChoice::Behaviour { .. } => answer matches ChoiceAnswer::Number(k) && 1 <= k <= 3,
        SoftwareChoice::Collection { .. } => answer matches ChoiceAnswer::Number(k) && 1 <= k <= 3,
        SoftwareChoice::Version { options } => answer matches ChoiceAnswer::Number(k) && 1 <= k
            <= options@.len(),
    }
}

/// The set picked by the answer `k` to `Collection`.
pub open spec fn picked_set(k: usize, ids: Seq<usize>, intersection: Seq<usize>, union: Seq<usize>) -> Seq<usize> {
    if k == 1 {
        intersection
    } else if k == 2 {
        union
    } else {
        ids
    }
}

/// The answers to `Collection` pick, in order, the versions that every
/// computer of the service has (1), those that some computer has (2), and
/// all the versions of the software (3).
pub proof fn law_collection_answers(ids: Seq<usize>, intersection: Seq<usize>, union: Seq<usize>)
    ensures
        picked_set(1, ids, intersection, union) == intersection,
        picked_set(2, ids, intersection, union) == union,
        picked_set(3, ids, intersection, union) == ids,
{
}

/// Sorting keeps the software of the entries: every option is a version of
/// the named software when every entry is.
proof fn lemma_options_named(info: Information, name: Seq<char>, coll: Seq<usize>, sorted: Seq<(usize, Seq<char>)>, k: int)
    requires
        all_named(coll, info, name),
        sorted == sort_by_text(version_entries(info, coll)),
        0 <= k < sorted.len(),
    ensures
        is_named(sorted[k].0, info, name),
{
    let entries = version_entries(info, coll);
    law_sort_by_text_sorted(entries);
    vstd::seq_lib::to_multiset_contains(sorted, sorted[k]);
    vstd::seq_lib::to_multiset_contains(entries, sorted[k]);
    assert(sorted.contains(sorted[k]));
    let j = choose|j: int| 0 <= j < entries.len() && entries[j] == sorted[k];
    assert(entries[j].0 == coll[j]);
}

/// Takes the choice one step further: from where it stands (`at`) and the
/// user's answer, to the next question or the end of the choice. The state
/// changes only when the user agrees to add software to computers.
pub fn software_choice_step(
    state: &mut State,
    name: &str,
    computers_id: &Vec<usize>,
    at: SoftwareChoice,
    answer: ChoiceAnswer,
) -> (step: ChoiceStep)
    requires
        software_refs_in_range(old(state).information, computers_id@),
        choice_fits(old(state).information, name@, at),
        answer_fits(at, answer),
    ensures
        step is Ask ==> *final(state) == *old(state),
        step matches ChoiceStep::Ask(next) ==> choice_fits(final(state).information, name@, next),
        step matches ChoiceStep::Chosen(id) ==> is_named(id, old(state).information, name@),
        step matches ChoiceStep::ChosenAddedNamed { id, .. } ==> is_named(id, old(state).information, name@),
        final(state).information.software == old(state).information.software,
        old(state).wf() ==> final(state).wf(),
        ({
            let info = old(state).information;
            let cids = computers_id@;
            match at {
                SoftwareChoice::Start => {
                    &&& *final(state) == *old(state)
                    &&& step is NotFound <==> forall|i: int|
                        0 <= i < info.software@.len() ==> (#[trigger] info.software@[i]).name@ != name@
                    &&& step matches ChoiceStep::Chosen(id) ==> is_named_list(seq![id], info.software@, name@)
                        && first_lacking(info, cids, name@) is None
                    &&& step matches ChoiceStep::Ask(SoftwareChoice::ConfirmNamed { id, lacking }) ==> is_named_list(
                        seq![id],
                        info.software@,
                        name@,
                    ) && first_lacking(info, cids, name@) == Some(lacking)
                    &&& step matches ChoiceStep::Ask(SoftwareChoice::Behaviour { ids, intersection, union }) ==> {
                        &&& ids@.len() >= 2 && is_named_list(ids@, info.software@, name@)
                        &&& ascending(intersection@) && ascending(union@)
                        &&& forall|x: usize| #[trigger] intersection@.contains(x) <==> (in_all(info, cids, x) && ids@.contains(x))
                        &&& forall|x: usize| #[trigger] union@.contains(x) <==> (in_some(info, cids, x) && ids@.contains(x))
                    }
                    &&& step is NotFound || step is Chosen || step matches ChoiceStep::Ask(
                        SoftwareChoice::ConfirmNamed { .. },
                    ) || step matches ChoiceStep::Ask(SoftwareChoice::Behaviour { .. })
                },
                SoftwareChoice::ConfirmNamed { id, lacking } => {
                    if answer == ChoiceAnswer::YesNo(true) {
                        &&& step matches ChoiceStep::ChosenAddedNamed { id: i, computers } && i == id
                            && computers@ == lacking_in_order(info, cids, name@)
                        &&& software_added_to(*old(state), *final(state), id, lacking_in_order(info, cids, name@))
                    } else {
                        &&& step matches ChoiceStep::ChosenAddedNamed { id: i, computers } && i == id
                            && computers@.len() == 0
                        &&& *final(state) == *old(state)
                    }
                },
                SoftwareChoice::Behaviour { ids, intersection, union } => {
                    &&& *final(state) == *old(state)
                    &&& answer == ChoiceAnswer::Number(1) && intersection@.len() > 0 ==> step
                        == ChoiceStep::Chosen(intersection@[0])
                    &&& answer == ChoiceAnswer::Number(1) && intersection@.len() == 0 && union@.len() > 0
                        ==> step == ChoiceStep::Ask(SoftwareChoice::ConfirmSelected { id: union@[0] })
                    &&& answer == ChoiceAnswer::Number(1) && intersection@.len() == 0 && union@.len() == 0
                        ==> step == ChoiceStep::Ask(SoftwareChoice::ConfirmSelected { id: ids@[0] })
                    &&& answer == ChoiceAnswer::Number(2) ==> (step matches ChoiceStep::Ask(
                        SoftwareChoice::Collection { ids: a, intersection: b, union: c },
                    ) && a@ == ids@ && b@ == intersection@ && c@ == union@)
                    &&& answer == ChoiceAnswer::Number(3) ==> step is Aborted
                },
                SoftwareChoice::Collection { ids, intersection, union } => {
                    &&& *final(state) == *old(state)
                    &&& answer matches ChoiceAnswer::Number(k) && step matches ChoiceStep::Ask(
                        SoftwareChoice::Version { options },
                    ) && entries_view(options@) == sort_by_text(
                        version_entries(info, picked_set(k, ids@, intersection@, union@)),
                    )
                    &&& answer == ChoiceAnswer::Number(1) ==> (step matches ChoiceStep::Ask(
                        SoftwareChoice::Version { options },
                    ) && entries_view(options@) == sort_by_text(version_entries(info, intersection@)))
                    &&& answer == ChoiceAnswer::Number(2) ==> (step matches ChoiceStep::Ask(
                        SoftwareChoice::Version { options },
                    ) && entries_view(options@) == sort_by_text(version_entries(info, union@)))
                    &&& answer == ChoiceAnswer::Number(3) ==> (step matches ChoiceStep::Ask(
                        SoftwareChoice::Version { options },
                    ) && entries_view(options@) == sort_by_text(version_entries(info, ids@)))
                },
                SoftwareChoice::Version { options } => {
                    &&& *final(state) == *old(state)
                    &&& answer matches ChoiceAnswer::Number(k) && step == ChoiceStep::Ask(
                        SoftwareChoice::ConfirmSelected { id: options@[k - 1].0 },
                    )
                },
                SoftwareChoice::ConfirmSelected { id } => {
                    &&& step == ChoiceStep::Chosen(id)
                    &&& answer == ChoiceAnswer::YesNo(true) ==> software_added_where_missing(
                        *old(state),
                        *final(state),
                        id,
                        cids,
                    )
                    &&& answer == ChoiceAnswer::YesNo(false) ==> *final(state) == *old(state)
                },
            }
        }),
{
    let number: usize = match answer {
        ChoiceAnswer::Number(k) => k,
        _ => 0,
    };
    let yes: bool = match answer {
        ChoiceAnswer::YesNo(b) => b,
        _ => false,
    };
    match at {
        SoftwareChoice::Start => match resolve_software(&state.information, name, computers_id) {
            SoftwareResolution::NotFound => ChoiceStep::NotFound,
            SoftwareResolution::Single { id, lacking } => {
                proof {
                    assert(seq![id][0] == id);
                    assert(holds(seq![id], id as int));
                    assert(state.information.software@[id as int].name@ == name@);
                }
                match lacking {
                    None => ChoiceStep::Chosen(id),
                    Some(c) => ChoiceStep::Ask(SoftwareChoice::ConfirmNamed { id, lacking: c }),
                }
            },
            SoftwareResolution::Multiple { ids } => {
                let (intersection, union) = software_intersection_union(&state.information, computers_id, &ids);
                proof {
                    let info = state.information;
                    assert forall|k: int| 0 <= k < ids@.len() implies #[trigger] ids@[k] < info.software@.len()
                        && info.software@[ids@[k] as int].name@ == name@ by {
                        assert(holds(ids@, ids@[k] as int));
                    }
                    assert forall|k: int| 0 <= k < union@.len() implies #[trigger] union@[k] < info.software@.len()
                        && info.software@[union@[k] as int].name@ == name@ by {
                        assert(union@.contains(union@[k]));
                        assert(in_some(info, computers_id@, union@[k]) && ids@.contains(union@[k]));
                        let j = choose|j: int| 0 <= j < ids@.len() && ids@[j] == union@[k];
                        assert(holds(ids@, ids@[j] as int));
                    }
                    assert forall|k: int| 0 <= k < intersection@.len() implies #[trigger] intersection@[k]
                        < info.software@.len() && info.software@[intersection@[k] as int].name@ == name@ by {
                        assert(intersection@.contains(intersection@[k]));
                        assert(in_all(info, computers_id@, intersection@[k]) && ids@.contains(intersection@[k]));
                        let j = choose|j: int| 0 <= j < ids@.len() && ids@[j] == intersection@[k];
                        assert(holds(ids@, ids@[j] as int));
                    }
                    assert(holds(ids@, ids@[0] as int));
                    assert(info.software@[ids@[0] as int].name@ == name@);
                }
                ChoiceStep::Ask(SoftwareChoice::Behaviour { ids, intersection, union })
            },
        },
        SoftwareChoice::ConfirmNamed { id, lacking } => {
            if yes {
                let computers = add_named_software_to_computers(state, id, name, computers_id);
                ChoiceStep::ChosenAddedNamed { id, computers }
            } else {
                ChoiceStep::ChosenAddedNamed { id, computers: Vec::new() }
            }
        },
        SoftwareChoice::Behaviour { ids, intersection, union } => {
            if number == 1 {
                let (selected, may_be_missing) = autoselect_software(&intersection, &union, &ids);
                if may_be_missing {
                    ChoiceStep::Ask(SoftwareChoice::ConfirmSelected { id: selected })
                } else {
                    ChoiceStep::Chosen(selected)
                }
            } else if number == 2 {
                ChoiceStep::Ask(SoftwareChoice::Collection { ids, intersection, union })
            } else {
                ChoiceStep::Aborted
            }
        },
        SoftwareChoice::Collection { ids, intersection, union } => {
            let collection = if number == 1 {
                intersection
            } else if number == 2 {
                union
            } else {
                ids
            };
            let options = version_options(&state.information, &collection);
            proof {
                let info = state.information;
                assert forall|k: int| 0 <= k < options@.len() implies is_named(#[trigger] options@[k].0, info, name@) by {
                    let sorted = sort_by_text(version_entries(info, collection@));
                    law_sort_by_text_sorted(version_entries(info, collection@));
                    assert(entries_view(options@)[k].0 == options@[k].0);
                    lemma_options_named(info, name@, collection@, sorted, k);
                }
            }
            ChoiceStep::Ask(SoftwareChoice::Version { options })
        },
        SoftwareChoice::Version { options } => {
            let id = options[number - 1].0;
            ChoiceStep::Ask(SoftwareChoice::ConfirmSelected { id })
        },
        SoftwareChoice::ConfirmSelected { id } => {
            if yes {
                add_software_to_computers(state, id, computers_id);
            }
            ChoiceStep::Chosen(id)
        },
    }
}

} // verus!
