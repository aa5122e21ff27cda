//! Reports of the recorded data.

use vstd::prelude::*;

use crate::node::Timeline;

verus! {

/// The Markdown text of a timeline (reports hold no text yet).
pub fn time_line_to_markdown(time_line: &Timeline) -> (r: String)
    ensures
        r@ == Seq::<char>::empty(),
{
    String::new()
}

} // verus!
