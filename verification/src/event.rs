//! Events: facts without a cause among the recorded actions.

use vstd::prelude::*;

use crate::action::{custom_content, handle_general_custom};
use crate::consequences::opt_str_view;
use crate::node::{Category, Node};
use crate::text::{custom_summary, summarize_custom, summary_defined};

verus! {

/// A fact that cannot be directly attributed to an action.
#[derive(Debug, Clone, Hash, PartialEq, Eq)]
pub enum Event {
    Custom(String),
    /// The Blue team (defenders) have discovered the activity.
    Detection,
}

impl Event {
    /// Only custom events have a summary, and only when it can be cut.
    pub open spec fn has_summary(&self) -> bool {
        match self {
            Event::Custom(c) => summary_defined(c@),
            _ => false,
        }
    }

    /// The summary of a custom event.
    pub open spec fn summary(&self) -> Seq<char> {
        match self {
            Event::Custom(c) => custom_summary(c@),
            _ => Seq::empty(),
        }
    }

    /// A one-line summary of a custom event (see `custom_summary`).
    pub fn to_string(&self) -> (r: String)
        requires
            self.has_summary(),
        ensures
            r@ == self.summary(),
    {
        match self {
            Event::Custom(content) => summarize_custom(content.as_str()),
            _ => String::new(),
        }
    }
}


/// A custom event made of the text given as argument and/or through the
/// standard input; `None` when there is no text.
pub fn handle_subcommand_custom(content_arg: Option<&str>, stdin: &str) -> (node: Option<Node>)
    ensures
        custom_content(opt_str_view(content_arg), stdin@).len() == 0 ==> node is None,
        custom_content(opt_str_view(content_arg), stdin@).len() > 0 ==> {
            &&& node matches Some(n)
            &&& n.category matches Category::Event(Event::Custom(c))
            &&& c@ == custom_content(opt_str_view(content_arg), stdin@)
        },
{
    let contents = handle_general_custom(content_arg, stdin);
    if contents.as_str().is_empty() {
        None
    } else {
        Some(Node::new(Category::Event(Event::Custom(contents))))
    }
}

} // verus!
