//! Command payloads consumed by the outer command-line shell: the listing
//! command with its default filter. Argument parsing and rendering live
//! outside; only the decisions are here.

use vstd::prelude::*;

use crate::changes::Identity;
use crate::filter::{FilterArgs, StatusFilter};

verus! {

/// How a command renders its result.
pub enum ViewMode {
    Id,
    Line,
    Detail,
    Json,
}

/// The listing command: a filter and a rendering mode.
pub struct ListCmd {
    pub filters: FilterArgs,
    pub view: ViewMode,
}

impl ListCmd {
    /// The default listing: open tasks assigned to the given identity,
    /// rendered one per line.
    pub fn mine(me: &Identity) -> (r: ListCmd)
        ensures
            r.filters@.team is None,
            r.filters@.assignee == Option::Some(me@.email),
            r.filters@.status == Option::Some(StatusFilter::Open),
            r.filters@.labels == Seq::<Seq<char>>::empty(),
            r.view is Line,
    {
        let mut filters = FilterArgs::new();
        filters.assignee = Some(me.email.clone());
        filters.status = Some(StatusFilter::Open);
        ListCmd { filters, view: ViewMode::Line }
    }
}

} // verus!
