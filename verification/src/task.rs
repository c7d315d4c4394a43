//! The record type stored in the tracker: a typed payload whose id is derived
//! from the file name at read time and is never part of the serialized
//! content.

use vstd::prelude::*;

verus! {

/// Mathematical model of a task: every field as a sequence of characters.
#[verifier::ext_equal]
pub struct TaskV {
    pub id: Option<Seq<char>>,
    pub title: Seq<char>,
    pub status: Option<Seq<char>>,
    pub assignee: Option<Seq<char>>,
    pub labels: Seq<Seq<char>>,
    pub props: Seq<(Seq<char>, Seq<char>)>,
    pub description: Option<Seq<char>>,
}

/// A task record. The id is assigned at creation from the file name and is
/// not settable; all other fields are free-form.
pub struct Task {
    /// Derived from the file name when a document is read back; ignored by
    /// serialization, so it cannot be smuggled into stored content.
    pub id: Option<String>,
    pub title: String,
    pub status: Option<String>,
    pub assignee: Option<String>,
    pub labels: Vec<String>,
    pub props: Vec<(String, String)>,
    pub description: Option<String>,
}

/// View of an optional string.
pub open spec fn opt_view(o: Option<String>) -> Option<Seq<char>> {
    match o {
        Option::Some(s) => Option::Some(s@),
        Option::None => Option::None,
    }
}

impl View for Task {
    type V = TaskV;

    open spec fn view(&self) -> TaskV {
        TaskV {
            id: opt_view(self.id),
            title: self.title@,
            status: opt_view(self.status),
            assignee: opt_view(self.assignee),
            labels: self.labels@.map_values(|l: String| l@),
            props: self.props@.map_values(|p: (String, String)| (p.0@, p.1@)),
            description: opt_view(self.description),
        }
    }
}

impl Task {
    /// A fresh task with the given title and every other field absent.
    pub fn new(title: &str) -> (t: Task)
        ensures
            t@ == (TaskV {
                id: None,
                title: title@,
                status: None,
                assignee: None,
                labels: Seq::<Seq<char>>::empty(),
                props: Seq::<(Seq<char>, Seq<char>)>::empty(),
                description: None,
            }),
    {
        let t = Task {
            id: None,
            title: String::from_str(title),
            status: None,
            assignee: None,
            labels: Vec::new(),
            props: Vec::new(),
            description: None,
        };
        proof {
            assert(t.labels@.map_values(|l: String| l@) =~= Seq::<Seq<char>>::empty());
            assert(t.props@.map_values(|p: (String, String)| (p.0@, p.1@)) =~= Seq::<(
                Seq<char>,
                Seq<char>,
            )>::empty());
        }
        t
    }

    /// The id assigned from the file name, if the task has been read back
    /// from the repository.
    pub fn id(&self) -> (r: Option<String>)
        ensures
            opt_view(r) == self@.id,
    {
        match &self.id {
            Some(s) => Some(s.clone()),
            None => None,
        }
    }
}

} // verus!
