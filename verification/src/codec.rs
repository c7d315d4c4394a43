//! The document format: structured front matter between `---` delimiter
//! lines, followed by a free-text body. Serialization and parsing are both
//! defined here, first as mathematical functions on character sequences and
//! then as executable code proved against them, together with the round-trip
//! law for documents in canonical form.

use vstd::prelude::*;

use crate::error::Error;
use crate::ids::{file_stem, stem_of_path};
use crate::lines::{
    find_colon_sp, first_colon_sp, join_lines, lemma_join_split, next_line, split_lines, trim,
    trim_str,
};
use crate::strutil::{has_prefix, str_eq, str_has_prefix};
use crate::task::{opt_view, Task, TaskV};

verus! {

// ---------------------------------------------------------------------------
// Serialization model
// ---------------------------------------------------------------------------

/// The `- item` lines of the label list.
pub open spec fn label_items(ls: Seq<Seq<char>>) -> Seq<char>
    decreases ls.len(),
{
    if ls.len() == 0 {
        Seq::empty()
    } else {
        "- "@ + ls[0] + "\n"@ + label_items(ls.drop_first())
    }
}

/// The indented `key: value` lines of the property map.
pub open spec fn prop_items(ps: Seq<(Seq<char>, Seq<char>)>) -> Seq<char>
    decreases ps.len(),
{
    if ps.len() == 0 {
        Seq::empty()
    } else {
        "  "@ + ps[0].0 + ": "@ + ps[0].1 + "\n"@ + prop_items(ps.drop_first())
    }
}

/// The label block: absent when there are no labels.
pub open spec fn ser_labels(ls: Seq<Seq<char>>) -> Seq<char> {
    if ls.len() == 0 {
        Seq::empty()
    } else {
        "labels:\n"@ + label_items(ls)
    }
}

/// The property block: absent when there are no properties.
pub open spec fn ser_props(ps: Seq<(Seq<char>, Seq<char>)>) -> Seq<char> {
    if ps.len() == 0 {
        Seq::empty()
    } else {
        "props:\n"@ + prop_items(ps)
    }
}

/// The front-matter lines of a task: absent optional fields and empty
/// collections are consistently omitted; the id and the description are
/// never part of the front matter.
pub open spec fn ser_fields(t: TaskV) -> Seq<char> {
    "title: "@ + t.title + "\n"@ + (match t.status {
        Option::Some(v) => "status: "@ + v + "\n"@,
        Option::None => Seq::empty(),
    }) + (match t.assignee {
        Option::Some(v) => "assignee: "@ + v + "\n"@,
        Option::None => Seq::empty(),
    }) + ser_labels(t.labels) + ser_props(t.props)
}

/// A whole serialized document: delimited front matter, a blank line, then
/// the body, which is the description or nothing.
pub open spec fn ser_doc(t: TaskV) -> Seq<char> {
    "---\n"@ + ser_fields(t) + "\n---\n\n"@ + (match t.description {
        Option::Some(d) => d,
        Option::None => Seq::empty(),
    })
}

/// Appending one label appends one item line.
proof fn lemma_label_items_snoc(ls: Seq<Seq<char>>, x: Seq<char>)
    ensures
        label_items(ls.push(x)) == label_items(ls) + "- "@ + x + "\n"@,
    decreases ls.len(),
{
    if ls.len() == 0 {
        assert(ls.push(x).drop_first() =~= Seq::<Seq<char>>::empty());
        assert(label_items(Seq::<Seq<char>>::empty()) == Seq::<char>::empty());
        assert(label_items(ls) == Seq::<char>::empty());
        assert(ls.push(x)[0] == x);
        assert(label_items(ls.push(x)) =~= label_items(ls) + "- "@ + x + "\n"@);
    } else {
        assert(ls.push(x).drop_first() =~= ls.drop_first().push(x));
        lemma_label_items_snoc(ls.drop_first(), x);
        assert(ls.push(x)[0] == ls[0]);
        assert(label_items(ls.push(x)) =~= label_items(ls) + "- "@ + x + "\n"@);
    }
}

/// Appending one property appends one item line.
proof fn lemma_prop_items_snoc(ps: Seq<(Seq<char>, Seq<char>)>, k: Seq<char>, v: Seq<char>)
    ensures
        prop_items(ps.push((k, v))) == prop_items(ps) + "  "@ + k + ": "@ + v + "\n"@,
    decreases ps.len(),
{
    if ps.len() == 0 {
        assert(ps.push((k, v)).drop_first() =~= Seq::<(Seq<char>, Seq<char>)>::empty());
        assert(prop_items(Seq::<(Seq<char>, Seq<char>)>::empty()) == Seq::<char>::empty());
        assert(prop_items(ps) == Seq::<char>::empty());
        assert(ps.push((k, v))[0] == (k, v));
        assert(prop_items(ps.push((k, v))) =~= prop_items(ps) + "  "@ + k + ": "@ + v + "\n"@);
    } else {
        assert(ps.push((k, v)).drop_first() =~= ps.drop_first().push((k, v)));
        lemma_prop_items_snoc(ps.drop_first(), k, v);
        assert(ps.push((k, v))[0] == ps[0]);
        assert(prop_items(ps.push((k, v))) =~= prop_items(ps) + "  "@ + k + ": "@ + v + "\n"@);
    }
}

// ---------------------------------------------------------------------------
// Serialization as lines
// ---------------------------------------------------------------------------

/// The label item lines, one per label.
pub open spec fn label_lines(ls: Seq<Seq<char>>) -> Seq<Seq<char>>
    decreases ls.len(),
{
    if ls.len() == 0 {
        Seq::empty()
    } else {
        seq!["- "@ + ls[0]] + label_lines(ls.drop_first())
    }
}

/// The property item lines, one per property.
pub open spec fn prop_lines(ps: Seq<(Seq<char>, Seq<char>)>) -> Seq<Seq<char>>
    decreases ps.len(),
{
    if ps.len() == 0 {
        Seq::empty()
    } else {
        seq!["  "@ + ps[0].0 + ": "@ + ps[0].1] + prop_lines(ps.drop_first())
    }
}

/// The front matter of a task as a sequence of lines.
pub open spec fn field_lines(t: TaskV) -> Seq<Seq<char>> {
    seq!["title: "@ + t.title] + (match t.status {
        Option::Some(v) => seq!["status: "@ + v],
        Option::None => Seq::<Seq<char>>::empty(),
    }) + (match t.assignee {
        Option::Some(v) => seq!["assignee: "@ + v],
        Option::None => Seq::<Seq<char>>::empty(),
    }) + (if t.labels.len() == 0 {
        Seq::<Seq<char>>::empty()
    } else {
        seq!["labels:"@] + label_lines(t.labels)
    }) + (if t.props.len() == 0 {
        Seq::<Seq<char>>::empty()
    } else {
        seq!["props:"@] + prop_lines(t.props)
    })
}

// ---------------------------------------------------------------------------
// Parsing model
// ---------------------------------------------------------------------------

/// Mode of the front-matter state machine: at top level, inside the label
/// list, or inside the property map.
pub enum PMode {
    Top,
    InLabels,
    InProps,
}

/// State of the front-matter fold: fields seen so far.
#[verifier::ext_equal]
pub struct PState {
    pub mode: PMode,
    pub title: Option<Seq<char>>,
    pub status: Option<Seq<char>>,
    pub assignee: Option<Seq<char>>,
    pub desc: Option<Seq<char>>,
    pub labels: Seq<Seq<char>>,
    pub props: Seq<(Seq<char>, Seq<char>)>,
}

/// The state before any front-matter line.
pub open spec fn init_pstate() -> PState {
    PState {
        mode: PMode::Top,
        title: Option::None,
        status: Option::None,
        assignee: Option::None,
        desc: Option::None,
        labels: Seq::empty(),
        props: Seq::empty(),
    }
}

/// Whether the property list already holds the key.
pub open spec fn has_key(ps: Seq<(Seq<char>, Seq<char>)>, k: Seq<char>) -> bool {
    exists|i: int| 0 <= i < ps.len() && ps[i].0 == k
}

/// One front-matter line applied to the state: blank lines are skipped,
/// `labels:` and `props:` open their blocks, `- item` and indented
/// `key: value` lines extend the open block, and a top-level `key: value`
/// line sets a scalar field. Unknown keys are ignored; a duplicate key, a
/// stray block item, an empty key or an empty value is an error.
pub open spec fn step_line(st: PState, l: Seq<char>) -> Option<PState> {
    if l.len() == 0 {
        Option::Some(st)
    } else if l == "labels:"@ {
        if st.labels.len() == 0 {
            Option::Some(PState { mode: PMode::InLabels, ..st })
        } else {
            Option::None
        }
    } else if l == "props:"@ {
        if st.props.len() == 0 {
            Option::Some(PState { mode: PMode::InProps, ..st })
        } else {
            Option::None
        }
    } else if has_prefix(l, "- "@) {
        if st.mode is InLabels && l.len() > 2 {
            Option::Some(PState { labels: st.labels.push(l.skip(2)), ..st })
        } else {
            Option::None
        }
    } else if l[0] == ' ' {
        if st.mode is InProps && has_prefix(l, "  "@) {
            let body = l.skip(2);
            let i = first_colon_sp(body);
            if i > 0 && body.len() > i + 2 && !has_key(st.props, body.take(i)) {
                Option::Some(PState { props: st.props.push((body.take(i), body.skip(i + 2))), ..st })
            } else {
                Option::None
            }
        } else {
            Option::None
        }
    } else {
        let i = first_colon_sp(l);
        if i > 0 && l.len() > i + 2 {
            let k = l.take(i);
            let v = l.skip(i + 2);
            if k == "title"@ {
                if st.title is None {
                    Option::Some(PState { mode: PMode::Top, title: Option::Some(v), ..st })
                } else {
                    Option::None
                }
            } else if k == "status"@ {
                if st.status is None {
                    Option::Some(PState { mode: PMode::Top, status: Option::Some(v), ..st })
                } else {
                    Option::None
                }
            } else if k == "assignee"@ {
                if st.assignee is None {
                    Option::Some(PState { mode: PMode::Top, assignee: Option::Some(v), ..st })
                } else {
                    Option::None
                }
            } else if k == "description"@ {
                if st.desc is None {
                    Option::Some(PState { mode: PMode::Top, desc: Option::Some(v), ..st })
                } else {
                    Option::None
                }
            } else {
                // the id comes from the path, and unknown keys are ignored
                Option::Some(PState { mode: PMode::Top, ..st })
            }
        } else {
            Option::None
        }
    }
}

/// The whole front matter folded over the state, stopping at an error.
pub open spec fn fold_lines(st: PState, lines: Seq<Seq<char>>) -> Option<PState>
    decreases lines.len(),
{
    if lines.len() == 0 {
        Option::Some(st)
    } else {
        match step_line(st, lines[0]) {
            Option::Some(st2) => fold_lines(st2, lines.drop_first()),
            Option::None => Option::None,
        }
    }
}

/// Index of the first delimiter line at or after `from`, or -1.
pub open spec fn find_delim(lines: Seq<Seq<char>>, from: int) -> int
    decreases lines.len() - from,
{
    if from < 0 || from >= lines.len() {
        -1
    } else if lines[from] == "---"@ {
        from
    } else {
        find_delim(lines, from + 1)
    }
}

/// A document as lines: an opening delimiter, front matter up to the first
/// closing delimiter, then the body, trimmed; the body, when nonempty,
/// overrides a description given in the front matter. The title is required.
pub open spec fn parse_lines(lines: Seq<Seq<char>>) -> Option<TaskV> {
    if lines.len() == 0 || lines[0] != "---"@ {
        Option::None
    } else {
        let j = find_delim(lines, 1);
        if j < 0 {
            Option::None
        } else {
            match fold_lines(init_pstate(), lines.subrange(1, j)) {
                Option::None => Option::None,
                Option::Some(st) => match st.title {
                    Option::None => Option::None,
                    Option::Some(title) => {
                        let body = trim(join_lines(lines.skip(j + 1)));
                        Option::Some(
                            TaskV {
                                id: Option::None,
                                title: title,
                                status: st.status,
                                assignee: st.assignee,
                                labels: st.labels,
                                props: st.props,
                                description: if body.len() > 0 {
                                    Option::Some(body)
                                } else {
                                    st.desc
                                },
                            },
                        )
                    },
                },
            }
        }
    }
}

/// The stem that a given path argument contributes as the id.
pub open spec fn stem_view(path: Option<&str>) -> Option<Seq<char>> {
    match path {
        Option::Some(p) => stem_of_path(p@),
        Option::None => Option::None,
    }
}

/// A whole document parsed from text, with the id taken from the stem.
pub open spec fn parse_doc_spec(s: Seq<char>, stem: Option<Seq<char>>) -> Option<TaskV> {
    match parse_lines(split_lines(s)) {
        Option::None => Option::None,
        Option::Some(t) => Option::Some(TaskV { id: stem, ..t }),
    }
}

// ---------------------------------------------------------------------------
// Fold and delimiter lemmas
// ---------------------------------------------------------------------------

/// Folding one more line steps the state once.
pub proof fn lemma_fold_snoc(st: PState, lines: Seq<Seq<char>>, l: Seq<char>)
    ensures
        fold_lines(st, lines.push(l)) == (match fold_lines(st, lines) {
            Option::Some(m) => step_line(m, l),
            Option::None => Option::None,
        }),
    decreases lines.len(),
{
    if lines.len() == 0 {
        assert(lines.push(l).drop_first() =~= Seq::<Seq<char>>::empty());
        assert(lines.push(l)[0] == l);
        match step_line(st, l) {
            Option::Some(m) => {
                assert(fold_lines(m, Seq::<Seq<char>>::empty()) == Option::Some(m));
            },
            Option::None => {},
        }
    } else {
        assert(lines.push(l).drop_first() =~= lines.drop_first().push(l));
        assert(lines.push(l)[0] == lines[0]);
        match step_line(st, lines[0]) {
            Option::Some(m) => {
                lemma_fold_snoc(m, lines.drop_first(), l);
            },
            Option::None => {},
        }
    }
}

/// Folding a concatenation folds the parts in order.
pub proof fn lemma_fold_split(st: PState, a: Seq<Seq<char>>, b: Seq<Seq<char>>)
    ensures
        fold_lines(st, a + b) == (match fold_lines(st, a) {
            Option::Some(m) => fold_lines(m, b),
            Option::None => Option::None,
        }),
    decreases a.len(),
{
    if a.len() == 0 {
        assert(a + b =~= b);
    } else {
        assert((a + b)[0] == a[0]);
        assert((a + b).drop_first() =~= a.drop_first() + b);
        match step_line(st, a[0]) {
            Option::Some(m) => {
                lemma_fold_split(m, a.drop_first(), b);
            },
            Option::None => {},
        }
    }
}

/// A delimiter with none before it is the one `find_delim` finds.
pub proof fn lemma_find_delim_at(lines: Seq<Seq<char>>, k: int)
    requires
        1 <= k < lines.len(),
        lines[k] == "---"@,
        forall|j: int| 1 <= j < k ==> (#[trigger] lines[j]) != "---"@,
    ensures
        find_delim(lines, 1) == k,
{
    lemma_find_delim(lines, 1);
    let f = find_delim(lines, 1);
    if f < 0 {
        assert(lines[k] != "---"@);
    }
    if 0 <= f < k {
        assert(lines[f] != "---"@);
    }
    if f > k {
        assert(lines[k] != "---"@);
    }
}

/// What `find_delim` means: the least delimiter index at or after `from`.
pub proof fn lemma_find_delim(lines: Seq<Seq<char>>, from: int)
    requires
        from >= 0,
    ensures
        find_delim(lines, from) >= 0 ==> {
            &&& from <= find_delim(lines, from) < lines.len()
            &&& lines[find_delim(lines, from)] == "---"@
            &&& forall|j: int|
                from <= j < find_delim(lines, from) ==> (#[trigger] lines[j]) != "---"@
        },
        find_delim(lines, from) < 0 ==> forall|j: int|
            from <= j < lines.len() ==> (#[trigger] lines[j]) != "---"@,
    decreases lines.len() - from,
{
    if from < lines.len() && lines[from] != "---"@ {
        lemma_find_delim(lines, from + 1);
    }
}

// ---------------------------------------------------------------------------
// Executable front-matter machine
// ---------------------------------------------------------------------------

/// Executable counterpart of `PState`.
struct FmState {
    mode: PMode,
    title: Option<String>,
    status: Option<String>,
    assignee: Option<String>,
    desc: Option<String>,
    labels: Vec<String>,
    props: Vec<(String, String)>,
}

impl View for FmState {
    type V = PState;

    closed spec fn view(&self) -> PState {
        PState {
            mode: self.mode,
            title: opt_view(self.title),
            status: opt_view(self.status),
            assignee: opt_view(self.assignee),
            desc: opt_view(self.desc),
            labels: self.labels@.map_values(|l: String| l@),
            props: self.props@.map_values(|p: (String, String)| (p.0@, p.1@)),
        }
    }
}

/// Whether the collected properties already hold the key.
fn props_has_key(props: &Vec<(String, String)>, k: &str) -> (r: bool)
    ensures
        r == has_key(props@.map_values(|p: (String, String)| (p.0@, p.1@)), k@),
{
    let ghost pv = props@.map_values(|p: (String, String)| (p.0@, p.1@));
    let mut i: usize = 0;
    while i < props.len()
        invariant
            pv == props@.map_values(|p: (String, String)| (p.0@, p.1@)),
            pv.len() == props@.len(),
            i <= props.len(),
            forall|j: int| 0 <= j < i ==> (#[trigger] pv[j]).0 != k@,
        decreases props.len() - i,
    {
        if str_eq(props[i].0.as_str(), k) {
            proof {
                assert(pv[i as int].0 == k@);
            }
            return true;
        }
        i += 1;
    }
    false
}

/// Applies one front-matter line to the state; reports whether the line was
/// acceptable.
fn fm_step(st: &mut FmState, l: &str) -> (ok: bool)
    ensures
        ok ==> step_line(old(st)@, l@) == Option::Some(final(st)@),
        !ok ==> step_line(old(st)@, l@) is None,
{
    let llen = l.unicode_len();
    if llen == 0 {
        return true;
    }
    if str_eq(l, "labels:") {
        if st.labels.len() == 0 {
            st.mode = PMode::InLabels;
            return true;
        }
        return false;
    }
    if str_eq(l, "props:") {
        if st.props.len() == 0 {
            st.mode = PMode::InProps;
            return true;
        }
        return false;
    }
    if str_has_prefix(l, "- ") {
        let in_labels = match st.mode {
            PMode::InLabels => true,
            _ => false,
        };
        if in_labels && llen > 2 {
            proof {
                reveal_strlit("- ");
            }
            let lab = l.substring_char(2, llen);
            proof {
                assert(lab@ =~= l@.skip(2));
            }
            let ghost oldlabels = st.labels@.map_values(|x: String| x@);
            st.labels.push(String::from_str(lab));
            proof {
                assert(st.labels@.map_values(|x: String| x@) =~= oldlabels.push(l@.skip(2)));
            }
            return true;
        }
        return false;
    }
    if l.get_char(0) == ' ' {
        let in_props = match st.mode {
            PMode::InProps => true,
            _ => false,
        };
        if !(in_props && str_has_prefix(l, "  ")) {
            return false;
        }
        proof {
            reveal_strlit("  ");
        }
        let body = l.substring_char(2, llen);
        proof {
            assert(body@ =~= l@.skip(2));
        }
        let blen = body.unicode_len();
        let i = match find_colon_sp(body) {
            Some(i) => i,
            None => {
                return false;
            },
        };
        proof {
            crate::lines::lemma_first_colon_sp(body@);
            assert(crate::lines::colon_at(body@, i as int));
        }
        if !(i > 0 && blen > i + 2) {
            return false;
        }
        let key = body.substring_char(0, i);
        let val = body.substring_char(i + 2, blen);
        proof {
            assert(key@ =~= body@.take(i as int));
            assert(val@ =~= body@.skip(i + 2));
        }
        if props_has_key(&st.props, key) {
            return false;
        }
        let ghost oldprops = st.props@.map_values(|p: (String, String)| (p.0@, p.1@));
        st.props.push((String::from_str(key), String::from_str(val)));
        proof {
            assert(st.props@.map_values(|p: (String, String)| (p.0@, p.1@)) =~= oldprops.push(
                (body@.take(i as int), body@.skip(i + 2)),
            ));
        }
        return true;
    }
    let i = match find_colon_sp(l) {
        Some(i) => i,
        None => {
            return false;
        },
    };
    proof {
        crate::lines::lemma_first_colon_sp(l@);
        assert(crate::lines::colon_at(l@, i as int));
    }
    if !(i > 0 && llen > i + 2) {
        return false;
    }
    let key = l.substring_char(0, i);
    let val = l.substring_char(i + 2, llen);
    proof {
        assert(key@ =~= l@.take(i as int));
        assert(val@ =~= l@.skip(i + 2));
    }
    if str_eq(key, "title") {
        if st.title.is_none() {
            st.title = Some(String::from_str(val));
            st.mode = PMode::Top;
            return true;
        }
        return false;
    }
    if str_eq(key, "status") {
        if st.status.is_none() {
            st.status = Some(String::from_str(val));
            st.mode = PMode::Top;
            return true;
        }
        return false;
    }
    if str_eq(key, "assignee") {
        if st.assignee.is_none() {
            st.assignee = Some(String::from_str(val));
            st.mode = PMode::Top;
            return true;
        }
        return false;
    }
    if str_eq(key, "description") {
        if st.desc.is_none() {
            st.desc = Some(String::from_str(val));
            st.mode = PMode::Top;
            return true;
        }
        return false;
    }
    st.mode = PMode::Top;
    true
}

/// Renders the label block.
fn labels_block(labels: &Vec<String>) -> (r: String)
    ensures
        r@ == ser_labels(labels@.map_values(|l: String| l@)),
{
    let ghost lv: Seq<Seq<char>> = labels@.map_values(|l: String| l@);
    let mut s = String::new();
    if labels.len() == 0 {
        proof {
            assert(s@ =~= ser_labels(lv));
        }
        return s;
    }
    s.append("labels:\n");
    let mut i: usize = 0;
    while i < labels.len()
        invariant
            lv == labels@.map_values(|l: String| l@),
            lv.len() == labels@.len(),
            i <= labels.len(),
            s@ == "labels:\n"@ + label_items(lv.take(i as int)),
        decreases labels.len() - i,
    {
        s.append("- ");
        s.append(labels[i].as_str());
        s.append("\n");
        proof {
            lemma_label_items_snoc(lv.take(i as int), lv[i as int]);
            assert(lv.take(i + 1) =~= lv.take(i as int).push(lv[i as int]));
            assert(s@ =~= "labels:\n"@ + label_items(lv.take(i + 1)));
        }
        i += 1;
    }
    proof {
        assert(lv.take(labels@.len() as int) =~= lv);
    }
    s
}

/// Renders the property block.
fn props_block(props: &Vec<(String, String)>) -> (r: String)
    ensures
        r@ == ser_props(props@.map_values(|p: (String, String)| (p.0@, p.1@))),
{
    let ghost pv: Seq<(Seq<char>, Seq<char>)> = props@.map_values(
        |p: (String, String)| (p.0@, p.1@),
    );
    let mut s = String::new();
    if props.len() == 0 {
        proof {
            assert(s@ =~= ser_props(pv));
        }
        return s;
    }
    s.append("props:\n");
    let mut i: usize = 0;
    while i < props.len()
        invariant
            pv == props@.map_values(|p: (String, String)| (p.0@, p.1@)),
            pv.len() == props@.len(),
            i <= props.len(),
            s@ == "props:\n"@ + prop_items(pv.take(i as int)),
        decreases props.len() - i,
    {
        s.append("  ");
        s.append(props[i].0.as_str());
        s.append(": ");
        s.append(props[i].1.as_str());
        s.append("\n");
        proof {
            lemma_prop_items_snoc(pv.take(i as int), pv[i as int].0, pv[i as int].1);
            assert(pv.take(i + 1) =~= pv.take(i as int).push(pv[i as int]));
            assert((props@[i as int].0@, props@[i as int].1@) == pv[i as int]);
            assert(s@ =~= "props:\n"@ + prop_items(pv.take(i + 1)));
        }
        i += 1;
    }
    proof {
        assert(pv.take(props@.len() as int) =~= pv);
    }
    s
}

impl Task {
    /// Serializes the task to front matter plus body. The id is never
    /// written; an absent description leaves the body empty.
    #[verifier::rlimit(100)]
    pub fn to_doc_string(&self) -> (r: String)
        ensures
            r@ == ser_doc(self@),
    {
        let mut s = String::new();
        s.append("---\n");
        s.append("title: ");
        s.append(self.title.as_str());
        s.append("\n");
        match &self.status {
            Some(v) => {
                s.append("status: ");
                s.append(v.as_str());
                s.append("\n");
            },
            None => {},
        }
        match &self.assignee {
            Some(v) => {
                s.append("assignee: ");
                s.append(v.as_str());
                s.append("\n");
            },
            None => {},
        }
        let lb = labels_block(&self.labels);
        s.append(lb.as_str());
        let pb = props_block(&self.props);
        s.append(pb.as_str());
        s.append("\n---\n\n");
        match &self.description {
            Some(d) => {
                s.append(d.as_str());
            },
            None => {},
        }
        proof {
            assert(s@ =~= ser_doc(self@));
        }
        s
    }

    /// Parses a document: front matter into the schema, a nonempty trimmed
    /// body as the description, and the id derived from the path's file
    /// stem, never from the content. Malformed front matter is a
    /// deserialization error.
    pub fn parse_doc(s: &str, path: Option<&str>) -> (r: Result<Task, Error>)
        ensures
            r is Ok <==> parse_doc_spec(s@, stem_view(path)) is Some,
            r matches Ok(t) ==> parse_doc_spec(s@, stem_view(path)) == Option::Some(t@),
            r matches Err(e) ==> e is DeserError,
    {
        let ghost lines = split_lines(s@);
        let slen = s.unicode_len();
        proof {
            assert(s@.skip(0) =~= s@);
        }
        let (l0, next0) = next_line(s, 0);
        if !str_eq(l0, "---") {
            proof {
                lemma_split_lines_len_pub(s@);
                assert(lines[0] == l0@);
            }
            return Err(Error::DeserError(String::from_str("missing front matter delimiter")));
        }
        let mut pos: usize;
        match next0 {
            Some(p) => {
                pos = p;
            },
            None => {
                proof {
                    assert(lines =~= seq![l0@]);
                    assert(find_delim(lines, 1) == -1);
                }
                return Err(Error::DeserError(String::from_str("missing closing delimiter")));
            },
        }
        let mut st = FmState {
            mode: PMode::Top,
            title: None,
            status: None,
            assignee: None,
            desc: None,
            labels: Vec::new(),
            props: Vec::new(),
        };
        proof {
            assert(st@.labels =~= Seq::<Seq<char>>::empty());
            assert(st@.props =~= Seq::<(Seq<char>, Seq<char>)>::empty());
            assert(st@ =~= init_pstate());
            assert(lines.subrange(1, 1) =~= Seq::<Seq<char>>::empty());
        }
        let ghost mut k: int = 1;
        loop
            invariant
                slen == s@.len(),
                lines == split_lines(s@),
                pos <= slen,
                1 <= k,
                k + 1 <= lines.len(),
                lines[0] == "---"@,
                split_lines(s@.skip(pos as int)) == lines.skip(k),
                forall|j: int| 1 <= j < k ==> (#[trigger] lines[j]) != "---"@,
                fold_lines(init_pstate(), lines.subrange(1, k)) == Option::Some(st@),
            decreases lines.len() - k,
        {
            let (l, next) = next_line(s, pos);
            proof {
                assert(lines.skip(k)[0] == lines[k]);
                assert(l@ == lines[k]);
            }
            if str_eq(l, "---") {
                proof {
                    lemma_find_delim_at(lines, k);
                }
                let body: &str;
                match next {
                    Some(p) => {
                        let rest = s.substring_char(p, slen);
                        proof {
                            assert(rest@ =~= s@.skip(p as int));
                            lemma_join_split(s@.skip(p as int));
                            assert(lines.skip(k).drop_first() =~= lines.skip(k + 1));
                            assert(join_lines(lines.skip(k + 1)) == s@.skip(p as int));
                        }
                        body = trim_str(rest);
                    },
                    None => {
                        proof {
                            assert(lines.skip(k) =~= seq![l@]);
                            assert(lines.skip(k).len() == 1);
                            assert(k == lines.len() - 1);
                            assert(lines.skip(k + 1) =~= Seq::<Seq<char>>::empty());
                            assert(join_lines(Seq::<Seq<char>>::empty()) == Seq::<char>::empty());
                            lemma_trim_empty();
                            reveal_strlit("");
                            assert(""@ =~= Seq::<char>::empty());
                        }
                        body = "";
                    },
                }
                let ghost stv = st@;
                let FmState { mode: _, title, status, assignee, desc, labels, props } = st;
                let title_s: String;
                match title {
                    Some(t) => {
                        title_s = t;
                    },
                    None => {
                        return Err(
                            Error::DeserError(String::from_str("front matter must give a title")),
                        );
                    },
                }
                let blen = body.unicode_len();
                let description: Option<String> = if blen > 0 {
                    Some(String::from_str(body))
                } else {
                    desc
                };
                let id: Option<String> = match path {
                    Some(p) => file_stem(p),
                    None => None,
                };
                let t = Task { id, title: title_s, status, assignee, labels, props, description };
                proof {
                    let tv = parse_lines(lines)->0;
                    assert(t@ =~= TaskV { id: stem_view(path), ..tv });
                }
                return Ok(t);
            }
            let ghost prev = st@;
            let ok = fm_step(&mut st, l);
            if !ok {
                proof {
                    assert(lines.subrange(1, k + 1) =~= lines.subrange(1, k).push(lines[k]));
                    lemma_fold_snoc(init_pstate(), lines.subrange(1, k), lines[k]);
                    assert(fold_lines(init_pstate(), lines.subrange(1, k + 1)) is None);
                    lemma_find_delim(lines, 1);
                    let j = find_delim(lines, 1);
                    if j >= 0 {
                        if j <= k {
                            assert(lines[j] == "---"@);
                            assert(false);
                        }
                        assert(lines.subrange(1, j) =~= lines.subrange(1, k + 1) + lines.subrange(
                            k + 1,
                            j,
                        ));
                        lemma_fold_split(
                            init_pstate(),
                            lines.subrange(1, k + 1),
                            lines.subrange(k + 1, j),
                        );
                        assert(fold_lines(init_pstate(), lines.subrange(1, j)) is None);
                    }
                }
                return Err(Error::DeserError(String::from_str("malformed front matter")));
            }
            proof {
                assert(lines.subrange(1, k + 1) =~= lines.subrange(1, k).push(lines[k]));
                lemma_fold_snoc(init_pstate(), lines.subrange(1, k), lines[k]);
                assert(fold_lines(init_pstate(), lines.subrange(1, k + 1)) == Option::Some(st@));
            }
            match next {
                Some(p) => {
                    pos = p;
                    proof {
                        k = k + 1;
                    }
                },
                None => {
                    proof {
                        assert(lines.skip(k) =~= seq![l@]);
                        assert(k == lines.len() - 1);
                        lemma_find_delim(lines, 1);
                        let j = find_delim(lines, 1);
                        if j >= 0 {
                            assert(lines[j] == "---"@);
                            assert(false);
                        }
                    }
                    return Err(Error::DeserError(String::from_str("missing closing delimiter")));
                },
            }
        }
    }
}

/// Splitting always yields at least one line (restated here for callers).
proof fn lemma_split_lines_len_pub(s: Seq<char>)
    ensures
        split_lines(s).len() >= 1,
{
    crate::lines::lemma_split_lines_len(s);
}

/// The trim of the empty string is empty.
proof fn lemma_trim_empty()
    ensures
        trim(Seq::<char>::empty()) == Seq::<char>::empty(),
{
    assert(trim(Seq::<char>::empty()) =~= Seq::<char>::empty());
}

} // verus!
