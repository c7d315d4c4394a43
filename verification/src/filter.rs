//! Task status values and query filters: the structured filter a caller
//! builds, the SQL-style clause it compiles to for a relational backend, and
//! the exact predicate it denotes on index rows.

use vstd::prelude::*;

use crate::error::Error;
use crate::strutil::str_eq;
use crate::task::opt_view;

verus! {

// ---------------------------------------------------------------------------
// Status
// ---------------------------------------------------------------------------

/// Workflow state of a task.
#[derive(Clone, Copy)]
pub enum Status {
    Todo,
    InProgress,
    Done,
    Canceled,
    Duplicate,
}

/// The display form of each status.
pub open spec fn status_str(st: Status) -> Seq<char> {
    match st {
        Status::Todo => "Todo"@,
        Status::InProgress => "In Progress"@,
        Status::Done => "Done"@,
        Status::Canceled => "Canceled"@,
        Status::Duplicate => "Duplicate"@,
    }
}

/// The status a display form denotes, if any.
pub open spec fn status_of_str(s: Seq<char>) -> Option<Status> {
    if s == "Todo"@ {
        Option::Some(Status::Todo)
    } else if s == "In Progress"@ {
        Option::Some(Status::InProgress)
    } else if s == "Done"@ {
        Option::Some(Status::Done)
    } else if s == "Canceled"@ {
        Option::Some(Status::Canceled)
    } else if s == "Duplicate"@ {
        Option::Some(Status::Duplicate)
    } else {
        Option::None
    }
}

/// The one-character symbol of each status, for compact listings.
pub open spec fn status_sym(st: Status) -> char {
    match st {
        Status::Todo => '\u{25cb}',
        Status::InProgress => '\u{25d0}',
        Status::Done => '\u{2713}',
        Status::Canceled => '\u{10102}',
        Status::Duplicate => '=',
    }
}

impl Status {
    /// Parses a display form; any other string is an error.
    pub fn from_str(s: &str) -> (r: Result<Status, Error>)
        ensures
            r is Ok <==> status_of_str(s@) is Some,
            r matches Ok(st) ==> status_of_str(s@) == Option::Some(st),
            r matches Err(e) ==> e is Msg,
    {
        if str_eq(s, "Todo") {
            Ok(Status::Todo)
        } else if str_eq(s, "In Progress") {
            Ok(Status::InProgress)
        } else if str_eq(s, "Done") {
            Ok(Status::Done)
        } else if str_eq(s, "Canceled") {
            Ok(Status::Canceled)
        } else if str_eq(s, "Duplicate") {
            Ok(Status::Duplicate)
        } else {
            Err(Error::Msg(String::from_str("unknown status")))
        }
    }

    /// The display form of this status.
    pub fn as_str(&self) -> (r: &'static str)
        ensures
            r@ == status_str(*self),
    {
        match self {
            Status::Todo => "Todo",
            Status::InProgress => "In Progress",
            Status::Done => "Done",
            Status::Canceled => "Canceled",
            Status::Duplicate => "Duplicate",
        }
    }

    /// The one-character symbol of this status.
    pub fn to_sym(&self) -> (r: char)
        ensures
            r == status_sym(*self),
    {
        match self {
            Status::Todo => '\u{25cb}',
            Status::InProgress => '\u{25d0}',
            Status::Done => '\u{2713}',
            Status::Canceled => '\u{10102}',
            Status::Duplicate => '=',
        }
    }
}

// ---------------------------------------------------------------------------
// Filters
// ---------------------------------------------------------------------------

/// A coarse status filter over tasks.
#[derive(Clone, Copy)]
pub enum StatusFilter {
    Open,
    InProgress,
    Closed,
}

/// The clause each status filter compiles to.
pub open spec fn status_filter_clause(f: StatusFilter) -> Seq<char> {
    match f {
        StatusFilter::Open => "(status IS null OR status = 'Todo' OR status = 'In Progress')"@,
        StatusFilter::InProgress => "status = 'In Progress'"@,
        StatusFilter::Closed => "(status = 'Done' OR status = 'Canceled' OR status ='Duplicate')"@,
    }
}

/// The structured filter over the index: team prefix, assignee, and a
/// status class. Labels are kept on the filter for callers but are not part
/// of the compiled clause, since the index stores scalar columns only.
pub struct FilterArgs {
    pub team: Option<String>,
    pub assignee: Option<String>,
    pub status: Option<StatusFilter>,
    pub labels: Vec<String>,
}

/// Model of a filter.
pub struct FilterV {
    pub team: Option<Seq<char>>,
    pub assignee: Option<Seq<char>>,
    pub status: Option<StatusFilter>,
    pub labels: Seq<Seq<char>>,
}

impl View for FilterArgs {
    type V = FilterV;

    open spec fn view(&self) -> FilterV {
        FilterV {
            team: opt_view(self.team),
            assignee: opt_view(self.assignee),
            status: self.status,
            labels: self.labels@.map_values(|l: String| l@),
        }
    }
}

/// The conditions of a filter, one clause each, in a fixed order.
pub open spec fn clause_parts(f: FilterV) -> Seq<Seq<char>> {
    (match f.team {
        Option::Some(t) => seq!["id LIKE '"@ + t + "-%'"@],
        Option::None => Seq::<Seq<char>>::empty(),
    }) + (match f.assignee {
        Option::Some(a) => seq!["assignee = '"@ + a + "'"@],
        Option::None => Seq::<Seq<char>>::empty(),
    }) + (match f.status {
        Option::Some(sf) => seq![status_filter_clause(sf)],
        Option::None => Seq::<Seq<char>>::empty(),
    })
}

/// Clauses joined by the conjunction keyword.
pub open spec fn join_and(parts: Seq<Seq<char>>) -> Seq<char>
    decreases parts.len(),
{
    if parts.len() == 0 {
        Seq::empty()
    } else if parts.len() == 1 {
        parts[0]
    } else {
        parts[0] + " AND "@ + join_and(parts.drop_first())
    }
}

/// The whole compiled clause; a filter without conditions matches all rows.
pub open spec fn where_clause(f: FilterV) -> Seq<char> {
    let parts = clause_parts(f);
    if parts.len() == 0 {
        "1 = 1"@
    } else {
        join_and(parts)
    }
}

impl FilterArgs {
    /// A filter with no conditions.
    pub fn new() -> (r: FilterArgs)
        ensures
            r@.team is None,
            r@.assignee is None,
            r@.status is None,
            r@.labels == Seq::<Seq<char>>::empty(),
    {
        let r = FilterArgs { team: None, assignee: None, status: None, labels: Vec::new() };
        proof {
            assert(r@.labels =~= Seq::<Seq<char>>::empty());
        }
        r
    }

    /// Compiles the filter to a clause for the relational backend. The
    /// values are interpolated as given: the caller must not pass untrusted
    /// input through them.
    pub fn to_where_clause(&self) -> (r: String)
        ensures
            r@ == where_clause(self@),
    {
        let mut parts_done: usize = 0;
        let mut s = String::new();
        match &self.team {
            Some(t) => {
                s.append("id LIKE '");
                s.append(t.as_str());
                s.append("-%'");
                parts_done = 1;
            },
            None => {},
        }
        let ghost team_parts = (match self@.team {
            Option::Some(t) => seq!["id LIKE '"@ + t + "-%'"@],
            Option::None => Seq::<Seq<char>>::empty(),
        });
        proof {
            assert(parts_done == team_parts.len());
            assert(s@ =~= join_and(team_parts));
        }
        match &self.assignee {
            Some(a) => {
                if parts_done > 0 {
                    s.append(" AND ");
                }
                s.append("assignee = '");
                s.append(a.as_str());
                s.append("'");
                parts_done += 1;
            },
            None => {},
        }
        let ghost ta_parts = team_parts + (match self@.assignee {
            Option::Some(a) => seq!["assignee = '"@ + a + "'"@],
            Option::None => Seq::<Seq<char>>::empty(),
        });
        proof {
            assert(parts_done == ta_parts.len());
            assert(parts_done <= 2);
            match self@.assignee {
                Option::Some(a) => {
                    let part = "assignee = '"@ + a + "'"@;
                    if team_parts.len() == 0 {
                        assert(ta_parts =~= seq![part]);
                        assert(join_and(seq![part]) == part);
                        assert(s@ =~= part);
                    } else {
                        lemma_join_and_snoc(team_parts, part);
                        assert(team_parts.push(part) =~= ta_parts);
                        assert(s@ =~= join_and(team_parts) + " AND "@ + part);
                    }
                },
                Option::None => {
                    assert(ta_parts =~= team_parts);
                },
            }
            assert(s@ == join_and(ta_parts));
        }
        match &self.status {
            Some(sf) => {
                if parts_done > 0 {
                    s.append(" AND ");
                }
                match sf {
                    StatusFilter::Open => {
                        s.append(
                            "(status IS null OR status = 'Todo' OR status = 'In Progress')",
                        );
                    },
                    StatusFilter::InProgress => {
                        s.append("status = 'In Progress'");
                    },
                    StatusFilter::Closed => {
                        s.append(
                            "(status = 'Done' OR status = 'Canceled' OR status ='Duplicate')",
                        );
                    },
                }
                parts_done += 1;
            },
            None => {},
        }
        let ghost all_parts = clause_parts(self@);
        proof {
            assert(all_parts =~= ta_parts + (match self@.status {
                Option::Some(sf) => seq![status_filter_clause(sf)],
                Option::None => Seq::<Seq<char>>::empty(),
            }));
            assert(parts_done == all_parts.len());
            match self@.status {
                Option::Some(sf) => {
                    let part = status_filter_clause(sf);
                    if ta_parts.len() == 0 {
                        assert(all_parts =~= seq![part]);
                        assert(join_and(seq![part]) == part);
                        assert(s@ =~= part);
                    } else {
                        lemma_join_and_snoc(ta_parts, part);
                        assert(ta_parts.push(part) =~= all_parts);
                        assert(s@ =~= join_and(ta_parts) + " AND "@ + part);
                    }
                    assert(s@ == join_and(all_parts));
                },
                Option::None => {
                    assert(all_parts =~= ta_parts);
                    assert(s@ =~= join_and(all_parts));
                },
            }
        }
        if parts_done == 0 {
            let mut e = String::new();
            e.append("1 = 1");
            proof {
                assert(e@ =~= where_clause(self@));
            }
            return e;
        }
        proof {
            assert(s@ =~= where_clause(self@));
        }
        s
    }
}

/// Joining one more clause appends the conjunction keyword and the clause.
proof fn lemma_join_and_snoc(parts: Seq<Seq<char>>, x: Seq<char>)
    requires
        parts.len() >= 1,
    ensures
        join_and(parts.push(x)) == join_and(parts) + " AND "@ + x,
    decreases parts.len(),
{
    if parts.len() == 1 {
        assert(parts.push(x)[0] == parts[0]);
        assert(parts.push(x).drop_first() =~= seq![x]);
        assert(join_and(seq![x]) == x);
        assert(join_and(parts.push(x)) =~= join_and(parts) + " AND "@ + x);
    } else {
        assert(parts.push(x)[0] == parts[0]);
        assert(parts.push(x).drop_first() =~= parts.drop_first().push(x));
        lemma_join_and_snoc(parts.drop_first(), x);
        assert(join_and(parts.push(x)) =~= join_and(parts) + " AND "@ + x);
    }
}

} // verus!
