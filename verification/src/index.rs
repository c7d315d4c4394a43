//! The secondary index: a relational cache of one row per document id,
//! holding the scalar fields only. Rows are always written whole — insert
//! or full replacement, never a merge — and queries evaluate the structured
//! filter exactly.

use vstd::prelude::*;

use crate::error::Error;
use crate::filter::{FilterArgs, FilterV, StatusFilter};
use crate::strutil::{has_prefix, str_eq, str_has_prefix};
use crate::task::{opt_view, Task};

verus! {

// ---------------------------------------------------------------------------
// Rows
// ---------------------------------------------------------------------------

/// One index row: the scalar projection of a task. Labels and properties
/// are queryable only by reading the document, by design.
pub struct IndexRow {
    pub id: String,
    pub title: String,
    pub status: Option<String>,
    pub assignee: Option<String>,
    pub description: Option<String>,
}

/// Model of a row.
#[verifier::ext_equal]
pub struct RowV {
    pub id: Seq<char>,
    pub title: Seq<char>,
    pub status: Option<Seq<char>>,
    pub assignee: Option<Seq<char>>,
    pub description: Option<Seq<char>>,
}

impl View for IndexRow {
    type V = RowV;

    open spec fn view(&self) -> RowV {
        RowV {
            id: self.id@,
            title: self.title@,
            status: opt_view(self.status),
            assignee: opt_view(self.assignee),
            description: opt_view(self.description),
        }
    }
}

/// The row a task projects to. The id must be present: rows are only ever
/// built from documents read back from the repository.
pub open spec fn row_of_task(t: crate::task::TaskV) -> RowV {
    RowV {
        id: t.id->0,
        title: t.title,
        status: t.status,
        assignee: t.assignee,
        description: t.description,
    }
}

impl Task {
    /// Projects the task onto its index row. A task without an id cannot be
    /// indexed: that would be a contract violation, so it is excluded here.
    pub fn index_row(&self) -> (r: IndexRow)
        requires
            self@.id is Some,
        ensures
            r@ == row_of_task(self@),
    {
        let id = match &self.id {
            Some(s) => s.clone(),
            None => {
                proof {
                    assert(false);
                }
                String::new()
            },
        };
        IndexRow {
            id,
            title: self.title.clone(),
            status: clone_opt(&self.status),
            assignee: clone_opt(&self.assignee),
            description: clone_opt(&self.description),
        }
    }
}

/// Clones an optional string.
pub fn clone_opt(o: &Option<String>) -> (r: Option<String>)
    ensures
        opt_view(r) == opt_view(*o),
{
    match o {
        Some(s) => Some(s.clone()),
        None => None,
    }
}

// ---------------------------------------------------------------------------
// Filter semantics
// ---------------------------------------------------------------------------

/// What the compiled status clause means on one row.
pub open spec fn status_matches(status: Option<Seq<char>>, f: StatusFilter) -> bool {
    match f {
        StatusFilter::Open => status is None || status == Option::Some("Todo"@) || status
            == Option::Some("In Progress"@),
        StatusFilter::InProgress => status == Option::Some("In Progress"@),
        StatusFilter::Closed => status == Option::Some("Done"@) || status == Option::Some(
            "Canceled"@,
        ) || status == Option::Some("Duplicate"@),
    }
}

/// What the whole compiled clause means on one row: the team clause is an
/// id prefix match, the assignee clause an equality that a missing assignee
/// never satisfies.
pub open spec fn row_matches(row: RowV, f: FilterV) -> bool {
    &&& (match f.team {
        Option::Some(t) => has_prefix(row.id, t + "-"@),
        Option::None => true,
    })
    &&& (match f.assignee {
        Option::Some(a) => row.assignee == Option::Some(a),
        Option::None => true,
    })
    &&& (match f.status {
        Option::Some(sf) => status_matches(row.status, sf),
        Option::None => true,
    })
}

/// The rows of `rows` matching `f`, in order.
pub open spec fn matching_rows(rows: Seq<RowV>, f: FilterV) -> Seq<RowV>
    decreases rows.len(),
{
    if rows.len() == 0 {
        Seq::empty()
    } else {
        (if row_matches(rows[0], f) {
            seq![rows[0]]
        } else {
            Seq::<RowV>::empty()
        }) + matching_rows(rows.drop_first(), f)
    }
}

/// Appending one row extends the match list by that row or not at all.
proof fn lemma_matching_rows_snoc(rows: Seq<RowV>, x: RowV, f: FilterV)
    ensures
        matching_rows(rows.push(x), f) == if row_matches(x, f) {
            matching_rows(rows, f).push(x)
        } else {
            matching_rows(rows, f)
        },
    decreases rows.len(),
{
    if rows.len() == 0 {
        assert(rows.push(x).drop_first() =~= Seq::<RowV>::empty());
        assert(rows.push(x)[0] == x);
        assert(matching_rows(Seq::<RowV>::empty(), f) == Seq::<RowV>::empty());
        if row_matches(x, f) {
            assert(matching_rows(rows.push(x), f) =~= matching_rows(rows, f).push(x));
        } else {
            assert(matching_rows(rows.push(x), f) =~= matching_rows(rows, f));
        }
    } else {
        assert(rows.push(x).drop_first() =~= rows.drop_first().push(x));
        assert(rows.push(x)[0] == rows[0]);
        lemma_matching_rows_snoc(rows.drop_first(), x, f);
        if row_matches(x, f) {
            assert(matching_rows(rows.push(x), f) =~= matching_rows(rows, f).push(x));
        } else {
            assert(matching_rows(rows.push(x), f) =~= matching_rows(rows, f));
        }
    }
}

/// A filter that matches no row yields the empty list — never an error.
pub proof fn lemma_query_nothing(rows: Seq<RowV>, f: FilterV)
    requires
        forall|i: int| 0 <= i < rows.len() ==> !row_matches(#[trigger] rows[i], f),
    ensures
        matching_rows(rows, f) == Seq::<RowV>::empty(),
    decreases rows.len(),
{
    if rows.len() > 0 {
        assert forall|i: int|
            0 <= i < rows.drop_first().len() implies !row_matches(
            #[trigger] rows.drop_first()[i],
            f,
        ) by {
            assert(rows.drop_first()[i] == rows[i + 1]);
        }
        lemma_query_nothing(rows.drop_first(), f);
        assert(matching_rows(rows, f) =~= Seq::<RowV>::empty());
    }
}

// ---------------------------------------------------------------------------
// The table
// ---------------------------------------------------------------------------

/// Index of the first row bearing `id`, or -1.
pub open spec fn row_idx(rows: Seq<RowV>, id: Seq<char>) -> int
    decreases rows.len(),
{
    if rows.len() == 0 {
        -1
    } else if rows[0].id == id {
        0
    } else {
        let r = row_idx(rows.drop_first(), id);
        if r < 0 {
            -1
        } else {
            1 + r
        }
    }
}

/// What `row_idx` means: the least index bearing the id, or -1.
pub proof fn lemma_row_idx(rows: Seq<RowV>, id: Seq<char>)
    ensures
        row_idx(rows, id) >= 0 ==> {
            &&& row_idx(rows, id) < rows.len()
            &&& rows[row_idx(rows, id)].id == id
            &&& forall|j: int| 0 <= j < row_idx(rows, id) ==> (#[trigger] rows[j]).id != id
        },
        row_idx(rows, id) < 0 ==> forall|j: int|
            0 <= j < rows.len() ==> (#[trigger] rows[j]).id != id,
    decreases rows.len(),
{
    if rows.len() > 0 && rows[0].id != id {
        let t = rows.drop_first();
        lemma_row_idx(t, id);
        if row_idx(t, id) >= 0 {
            let r = row_idx(t, id);
            assert(rows[1 + r] == t[r]);
            assert forall|j: int| 0 <= j < 1 + r implies (#[trigger] rows[j]).id != id by {
                if j > 0 {
                    assert(rows[j] == t[j - 1]);
                }
            }
        } else {
            assert forall|j: int| 0 <= j < rows.len() implies (#[trigger] rows[j]).id != id by {
                if j > 0 {
                    assert(rows[j] == t[j - 1]);
                }
            }
        }
    }
}

/// The table after an upsert: the first row with the id is replaced whole,
/// or the row is appended.
pub open spec fn upsert_rows(rows: Seq<RowV>, row: RowV) -> Seq<RowV> {
    let i = row_idx(rows, row.id);
    if i < 0 {
        rows.push(row)
    } else {
        rows.update(i, row)
    }
}

/// The table after a delete: the first row with the id is removed, or
/// nothing changes.
pub open spec fn delete_rows(rows: Seq<RowV>, id: Seq<char>) -> Seq<RowV> {
    let i = row_idx(rows, id);
    if i < 0 {
        rows
    } else {
        rows.remove(i)
    }
}

/// The derived relational index, keyed by document id.
pub struct IndexTable {
    pub rows: Vec<IndexRow>,
}

impl View for IndexTable {
    type V = Seq<RowV>;

    open spec fn view(&self) -> Seq<RowV> {
        self.rows@.map_values(|r: IndexRow| r@)
    }
}

impl IndexTable {
    /// An empty index.
    pub fn new() -> (r: IndexTable)
        ensures
            r@ == Seq::<RowV>::empty(),
    {
        let r = IndexTable { rows: Vec::new() };
        proof {
            assert(r@ =~= Seq::<RowV>::empty());
        }
        r
    }

    /// Inserts the row or replaces the row with the same id, whole.
    pub fn upsert(&mut self, row: IndexRow)
        ensures
            final(self)@ == upsert_rows(old(self)@, row@),
    {
        proof {
            lemma_row_idx(self@, row@.id);
        }
        let mut i: usize = 0;
        while i < self.rows.len()
            invariant
                self@.len() == self.rows@.len(),
                self@ == self.rows@.map_values(|r: IndexRow| r@),
                i <= self.rows.len(),
                forall|j: int| 0 <= j < i ==> (#[trigger] self@[j]).id != row@.id,
                self == old(self),
            decreases self.rows.len() - i,
        {
            if str_eq(self.rows[i].id.as_str(), row.id.as_str()) {
                proof {
                    lemma_row_idx(self@, row@.id);
                    assert(self@[i as int].id == row@.id);
                    if row_idx(self@, row@.id) < 0 {
                        assert(false);
                    }
                    if row_idx(self@, row@.id) < i {
                        assert(self@[row_idx(self@, row@.id)].id != row@.id);
                        assert(false);
                    }
                    if row_idx(self@, row@.id) > i {
                        assert(self@[i as int].id != row@.id);
                        assert(false);
                    }
                }
                self.rows.set(i, row);
                proof {
                    assert(self@ =~= upsert_rows(old(self)@, row@));
                }
                return ;
            }
            i += 1;
        }
        proof {
            lemma_row_idx(self@, row@.id);
            if row_idx(self@, row@.id) >= 0 {
                assert(self@[row_idx(self@, row@.id)].id != row@.id);
            }
        }
        self.rows.push(row);
        proof {
            assert(self@ =~= upsert_rows(old(self)@, row@));
        }
    }

    /// Removes the row with the given id, if the index holds one.
    pub fn delete(&mut self, id: &str)
        ensures
            final(self)@ == delete_rows(old(self)@, id@),
    {
        proof {
            lemma_row_idx(self@, id@);
        }
        let mut i: usize = 0;
        while i < self.rows.len()
            invariant
                self@.len() == self.rows@.len(),
                self@ == self.rows@.map_values(|r: IndexRow| r@),
                i <= self.rows.len(),
                forall|j: int| 0 <= j < i ==> (#[trigger] self@[j]).id != id@,
                self == old(self),
            decreases self.rows.len() - i,
        {
            if str_eq(self.rows[i].id.as_str(), id) {
                proof {
                    lemma_row_idx(self@, id@);
                    assert(self@[i as int].id == id@);
                    if row_idx(self@, id@) < 0 {
                        assert(false);
                    }
                    if row_idx(self@, id@) < i {
                        assert(self@[row_idx(self@, id@)].id != id@);
                        assert(false);
                    }
                    if row_idx(self@, id@) > i {
                        assert(self@[i as int].id != id@);
                        assert(false);
                    }
                }
                self.rows.remove(i);
                proof {
                    assert(self@ =~= delete_rows(old(self)@, id@));
                }
                return ;
            }
            i += 1;
        }
        proof {
            lemma_row_idx(self@, id@);
            if row_idx(self@, id@) >= 0 {
                assert(self@[row_idx(self@, id@)].id != id@);
            }
        }
        proof {
            assert(self@ =~= delete_rows(old(self)@, id@));
        }
    }

    /// All rows matching the filter, in table order. A filter that matches
    /// nothing yields an empty list, not an error.
    pub fn query(&self, f: &FilterArgs) -> (r: Vec<IndexRow>)
        ensures
            r@.map_values(|row: IndexRow| row@) == matching_rows(self@, f@),
    {
        let mut out: Vec<IndexRow> = Vec::new();
        proof {
            assert(out@.map_values(|row: IndexRow| row@) =~= matching_rows(
                self@.take(0),
                f@,
            ));
        }
        let mut i: usize = 0;
        while i < self.rows.len()
            invariant
                self@.len() == self.rows@.len(),
                self@ == self.rows@.map_values(|r: IndexRow| r@),
                i <= self.rows.len(),
                out@.map_values(|row: IndexRow| row@) == matching_rows(self@.take(i as int), f@),
            decreases self.rows.len() - i,
        {
            let row = &self.rows[i];
            let matches = row_matches_exec(row, f);
            proof {
                lemma_matching_rows_snoc(self@.take(i as int), self@[i as int], f@);
                assert(self@.take(i + 1) =~= self@.take(i as int).push(self@[i as int]));
            }
            if matches {
                let copy = IndexRow {
                    id: row.id.clone(),
                    title: row.title.clone(),
                    status: clone_opt(&row.status),
                    assignee: clone_opt(&row.assignee),
                    description: clone_opt(&row.description),
                };
                proof {
                    assert(copy@ =~= self@[i as int]);
                }
                out.push(copy);
                proof {
                    assert(out@.map_values(|row: IndexRow| row@) =~= matching_rows(
                        self@.take(i + 1),
                        f@,
                    ));
                }
            } else {
                proof {
                    assert(out@.map_values(|row: IndexRow| row@) =~= matching_rows(
                        self@.take(i + 1),
                        f@,
                    ));
                }
            }
            i += 1;
        }
        proof {
            assert(self@.take(self.rows@.len() as int) =~= self@);
        }
        out
    }
}

/// Evaluates the filter on one row.
fn row_matches_exec(row: &IndexRow, f: &FilterArgs) -> (r: bool)
    ensures
        r == row_matches(row@, f@),
{
    match &f.team {
        Some(t) => {
            let mut pref = String::new();
            pref.append(t.as_str());
            pref.append("-");
            if !str_has_prefix(row.id.as_str(), pref.as_str()) {
                return false;
            }
        },
        None => {},
    }
    match &f.assignee {
        Some(a) => {
            match &row.assignee {
                Some(ra) => {
                    if !str_eq(ra.as_str(), a.as_str()) {
                        return false;
                    }
                },
                None => {
                    return false;
                },
            }
        },
        None => {},
    }
    match &f.status {
        Some(sf) => {
            let open_filter: bool = match sf {
                StatusFilter::Open => true,
                _ => false,
            };
            match &row.status {
                Some(st) => {
                    let stv = st.as_str();
                    match sf {
                        StatusFilter::Open => {
                            if !(str_eq(stv, "Todo") || str_eq(stv, "In Progress")) {
                                return false;
                            }
                        },
                        StatusFilter::InProgress => {
                            if !str_eq(stv, "In Progress") {
                                return false;
                            }
                        },
                        StatusFilter::Closed => {
                            if !(str_eq(stv, "Done") || str_eq(stv, "Canceled") || str_eq(
                                stv,
                                "Duplicate",
                            )) {
                                return false;
                            }
                        },
                    }
                },
                None => {
                    if !open_filter {
                        return false;
                    }
                },
            }
        },
        None => {},
    }
    true
}

} // verus!
