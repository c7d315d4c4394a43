//! The round-trip law: parsing a serialized document yields the original
//! task, for any task in canonical form. Canonical means: nonempty
//! newline-free field values, property keys free of colons and repeated
//! keys, and a description that is nonempty and carries no surrounding
//! whitespace.

use vstd::prelude::*;

use crate::codec::{
    field_lines, find_delim, fold_lines, has_key, init_pstate, label_items, label_lines,
    lemma_find_delim_at, lemma_fold_split, parse_doc_spec, parse_lines, prop_items, prop_lines,
    ser_doc, ser_fields, ser_labels, ser_props, step_line, PMode, PState,
};
use crate::lines::{
    first_colon_sp, join_lines, lemma_first_colon_of_kv, lemma_join_split, lemma_split_concat,
    lemma_split_lines_len, lemma_trim_drop_leading_space, no_nl, split_lines, trim, trim_stable,
};
use crate::ids::stem_of_path;
use crate::strutil::has_prefix;
use crate::task::TaskV;

verus! {

// ---------------------------------------------------------------------------
// Canonical form
// ---------------------------------------------------------------------------

/// A scalar value that serialization can place on one line.
pub open spec fn plain_val(v: Seq<char>) -> bool {
    v.len() > 0 && no_nl(v)
}

/// A property key that the parser can recover from its line.
pub open spec fn prop_key_ok(k: Seq<char>) -> bool {
    k.len() > 0 && no_nl(k) && forall|i: int| 0 <= i < k.len() ==> (#[trigger] k[i]) != ':'
}

/// Canonical form: what serialization writes is exactly what parsing
/// recovers. Absent optional fields and empty collections are structurally
/// absent already; the remaining conditions keep every value on its line.
pub open spec fn canonical(t: TaskV) -> bool {
    &&& plain_val(t.title)
    &&& (match t.status {
        Option::Some(v) => plain_val(v),
        Option::None => true,
    })
    &&& (match t.assignee {
        Option::Some(v) => plain_val(v),
        Option::None => true,
    })
    &&& (forall|i: int| 0 <= i < t.labels.len() ==> plain_val(#[trigger] t.labels[i]))
    &&& (forall|i: int|
        0 <= i < t.props.len() ==> prop_key_ok((#[trigger] t.props[i]).0) && plain_val(
            t.props[i].1,
        ))
    &&& (forall|i: int, j: int|
        0 <= i < j < t.props.len() ==> (#[trigger] t.props[i]).0 != (#[trigger] t.props[j]).0)
    &&& (match t.description {
        Option::Some(d) => d.len() > 0 && trim_stable(d),
        Option::None => true,
    })
}

// ---------------------------------------------------------------------------
// How a serialized document splits into lines
// ---------------------------------------------------------------------------

/// The body a task serializes to.
pub open spec fn desc_of(t: TaskV) -> Seq<char> {
    match t.description {
        Option::Some(d) => d,
        Option::None => Seq::empty(),
    }
}

proof fn lemma_split_label_items(ls: Seq<Seq<char>>, suffix: Seq<char>)
    requires
        forall|i: int| 0 <= i < ls.len() ==> plain_val(#[trigger] ls[i]),
    ensures
        split_lines(label_items(ls) + suffix) == label_lines(ls) + split_lines(suffix),
    decreases ls.len(),
{
    if ls.len() == 0 {
        assert(label_items(ls) + suffix =~= suffix);
        assert(label_lines(ls) + split_lines(suffix) =~= split_lines(suffix));
    } else {
        let l = "- "@ + ls[0];
        reveal_strlit("- ");
        reveal_strlit("\n");
        assert(no_nl(l)) by {
            assert forall|i: int| 0 <= i < l.len() implies (#[trigger] l[i]) != '\n' by {
                if i >= 2 {
                    assert(l[i] == ls[0][i - 2]);
                }
            }
        }
        assert(label_items(ls) + suffix =~= l + seq!['\n'] + (label_items(ls.drop_first())
            + suffix));
        lemma_split_concat(l, label_items(ls.drop_first()) + suffix);
        lemma_split_label_items(ls.drop_first(), suffix);
        assert(split_lines(label_items(ls) + suffix) =~= label_lines(ls) + split_lines(suffix));
    }
}

proof fn lemma_split_prop_items(ps: Seq<(Seq<char>, Seq<char>)>, suffix: Seq<char>)
    requires
        forall|i: int|
            0 <= i < ps.len() ==> prop_key_ok((#[trigger] ps[i]).0) && plain_val(ps[i].1),
    ensures
        split_lines(prop_items(ps) + suffix) == prop_lines(ps) + split_lines(suffix),
    decreases ps.len(),
{
    if ps.len() == 0 {
        assert(prop_items(ps) + suffix =~= suffix);
        assert(prop_lines(ps) + split_lines(suffix) =~= split_lines(suffix));
    } else {
        let l = "  "@ + ps[0].0 + ": "@ + ps[0].1;
        reveal_strlit("  ");
        reveal_strlit(": ");
        reveal_strlit("\n");
        let k = ps[0].0;
        let v = ps[0].1;
        assert(no_nl(l)) by {
            assert forall|i: int| 0 <= i < l.len() implies (#[trigger] l[i]) != '\n' by {
                if 2 <= i < 2 + k.len() {
                    assert(l[i] == k[i - 2]);
                } else if 4 + k.len() <= i {
                    assert(l[i] == v[i - 4 - k.len()]);
                }
            }
        }
        assert(prop_items(ps) + suffix =~= l + seq!['\n'] + (prop_items(ps.drop_first()) + suffix));
        lemma_split_concat(l, prop_items(ps.drop_first()) + suffix);
        lemma_split_prop_items(ps.drop_first(), suffix);
        assert(split_lines(prop_items(ps) + suffix) =~= prop_lines(ps) + split_lines(suffix));
    }
}

#[verifier::rlimit(100)]
proof fn lemma_split_fields(t: TaskV, suffix: Seq<char>)
    requires
        canonical(t),
    ensures
        split_lines(ser_fields(t) + suffix) == field_lines(t) + split_lines(suffix),
{
    reveal_strlit("title: ");
    reveal_strlit("status: ");
    reveal_strlit("assignee: ");
    reveal_strlit("labels:\n");
    reveal_strlit("props:\n");
    reveal_strlit("labels:");
    reveal_strlit("props:");
    reveal_strlit("\n");
    // title line
    let l1 = "title: "@ + t.title;
    assert(no_nl(l1)) by {
        assert forall|i: int| 0 <= i < l1.len() implies (#[trigger] l1[i]) != '\n' by {
            if i >= 7 {
                assert(l1[i] == t.title[i - 7]);
            }
        }
    }
    let rest1 = (match t.status {
        Option::Some(v) => "status: "@ + v + "\n"@,
        Option::None => Seq::<char>::empty(),
    }) + (match t.assignee {
        Option::Some(v) => "assignee: "@ + v + "\n"@,
        Option::None => Seq::<char>::empty(),
    }) + ser_labels(t.labels) + ser_props(t.props) + suffix;
    assert(ser_fields(t) + suffix =~= l1 + seq!['\n'] + rest1);
    lemma_split_concat(l1, rest1);
    // status line
    let rest2 = (match t.assignee {
        Option::Some(v) => "assignee: "@ + v + "\n"@,
        Option::None => Seq::<char>::empty(),
    }) + ser_labels(t.labels) + ser_props(t.props) + suffix;
    let status_lines: Seq<Seq<char>> = match t.status {
        Option::Some(v) => seq!["status: "@ + v],
        Option::None => Seq::<Seq<char>>::empty(),
    };
    assert(split_lines(rest1) == status_lines + split_lines(rest2)) by {
        match t.status {
            Option::Some(v) => {
                let l2 = "status: "@ + v;
                assert(no_nl(l2)) by {
                    assert forall|i: int| 0 <= i < l2.len() implies (#[trigger] l2[i]) != '\n' by {
                        if i >= 8 {
                            assert(l2[i] == v[i - 8]);
                        }
                    }
                }
                assert(rest1 =~= l2 + seq!['\n'] + rest2);
                lemma_split_concat(l2, rest2);
                assert(split_lines(rest1) =~= status_lines + split_lines(rest2));
            },
            Option::None => {
                assert(rest1 =~= rest2);
                assert(split_lines(rest1) =~= status_lines + split_lines(rest2));
            },
        }
    }
    // assignee line
    let rest3 = ser_labels(t.labels) + ser_props(t.props) + suffix;
    let assignee_lines: Seq<Seq<char>> = match t.assignee {
        Option::Some(v) => seq!["assignee: "@ + v],
        Option::None => Seq::<Seq<char>>::empty(),
    };
    assert(split_lines(rest2) == assignee_lines + split_lines(rest3)) by {
        match t.assignee {
            Option::Some(v) => {
                let l3 = "assignee: "@ + v;
                assert(no_nl(l3)) by {
                    assert forall|i: int| 0 <= i < l3.len() implies (#[trigger] l3[i]) != '\n' by {
                        if i >= 10 {
                            assert(l3[i] == v[i - 10]);
                        }
                    }
                }
                assert(rest2 =~= l3 + seq!['\n'] + rest3);
                lemma_split_concat(l3, rest3);
                assert(split_lines(rest2) =~= assignee_lines + split_lines(rest3));
            },
            Option::None => {
                assert(rest2 =~= rest3);
                assert(split_lines(rest2) =~= assignee_lines + split_lines(rest3));
            },
        }
    }
    // label block
    let rest4 = ser_props(t.props) + suffix;
    let lab_lines: Seq<Seq<char>> = if t.labels.len() == 0 {
        Seq::<Seq<char>>::empty()
    } else {
        seq!["labels:"@] + label_lines(t.labels)
    };
    assert(split_lines(rest3) == lab_lines + split_lines(rest4)) by {
        if t.labels.len() == 0 {
            assert(rest3 =~= rest4);
            assert(split_lines(rest3) =~= lab_lines + split_lines(rest4));
        } else {
            let lh = "labels:"@;
            assert(no_nl(lh));
            assert(rest3 =~= lh + seq!['\n'] + (label_items(t.labels) + rest4));
            lemma_split_concat(lh, label_items(t.labels) + rest4);
            lemma_split_label_items(t.labels, rest4);
            assert(split_lines(rest3) =~= lab_lines + split_lines(rest4));
        }
    }
    // property block
    let prop_lines_s: Seq<Seq<char>> = if t.props.len() == 0 {
        Seq::<Seq<char>>::empty()
    } else {
        seq!["props:"@] + prop_lines(t.props)
    };
    assert(split_lines(rest4) == prop_lines_s + split_lines(suffix)) by {
        if t.props.len() == 0 {
            assert(rest4 =~= suffix);
            assert(split_lines(rest4) =~= prop_lines_s + split_lines(suffix));
        } else {
            let ph = "props:"@;
            assert(no_nl(ph));
            assert(rest4 =~= ph + seq!['\n'] + (prop_items(t.props) + suffix));
            lemma_split_concat(ph, prop_items(t.props) + suffix);
            lemma_split_prop_items(t.props, suffix);
            assert(split_lines(rest4) =~= prop_lines_s + split_lines(suffix));
        }
    }
    assert(field_lines(t) =~= seq![l1] + status_lines + assignee_lines + lab_lines + prop_lines_s);
    assert(split_lines(ser_fields(t) + suffix) =~= field_lines(t) + split_lines(suffix));
}

/// The full line structure of a serialized document.
#[verifier::rlimit(100)]
proof fn lemma_split_ser_doc(t: TaskV)
    requires
        canonical(t),
    ensures
        split_lines(ser_doc(t)) == seq!["---"@] + field_lines(t) + seq![
            Seq::<char>::empty(),
            "---"@,
            Seq::<char>::empty(),
        ] + split_lines(desc_of(t)),
{
    reveal_strlit("---\n");
    reveal_strlit("\n---\n\n");
    reveal_strlit("---");
    reveal_strlit("\n");
    let d = "---"@;
    assert(no_nl(d));
    let tail = "\n---\n\n"@ + desc_of(t);
    assert(ser_doc(t) =~= d + seq!['\n'] + (ser_fields(t) + tail));
    lemma_split_concat(d, ser_fields(t) + tail);
    lemma_split_fields(t, tail);
    // tail: blank line, delimiter, then the newline-led body
    assert(tail[0] == '\n');
    let tail2 = d + seq!['\n'] + (seq!['\n'] + desc_of(t));
    assert(tail.drop_first() =~= tail2);
    assert(split_lines(tail) == seq![Seq::<char>::empty()] + split_lines(tail2));
    lemma_split_concat(d, seq!['\n'] + desc_of(t));
    let tail3 = seq!['\n'] + desc_of(t);
    assert(tail3[0] == '\n');
    assert(tail3.drop_first() =~= desc_of(t));
    assert(split_lines(tail3) == seq![Seq::<char>::empty()] + split_lines(desc_of(t)));
    assert(split_lines(ser_doc(t)) =~= seq!["---"@] + field_lines(t) + seq![
        Seq::<char>::empty(),
        "---"@,
        Seq::<char>::empty(),
    ] + split_lines(desc_of(t)));
}

// ---------------------------------------------------------------------------
// No front-matter line is a delimiter
// ---------------------------------------------------------------------------

spec fn all_not_delim(lines: Seq<Seq<char>>) -> bool {
    forall|i: int| 0 <= i < lines.len() ==> (#[trigger] lines[i]) != "---"@
}

proof fn lemma_label_lines_not_delim(ls: Seq<Seq<char>>)
    requires
        forall|i: int| 0 <= i < ls.len() ==> plain_val(#[trigger] ls[i]),
    ensures
        all_not_delim(label_lines(ls)),
    decreases ls.len(),
{
    reveal_strlit("- ");
    reveal_strlit("---");
    if ls.len() > 0 {
        lemma_label_lines_not_delim(ls.drop_first());
        let l = "- "@ + ls[0];
        assert(l[1] == ' ');
        assert(l != "---"@) by {
            if l == "---"@ {
                assert(l[1] == '-');
            }
        }
        assert forall|i: int|
            0 <= i < label_lines(ls).len() implies (#[trigger] label_lines(ls)[i])
            != "---"@ by {
            if i > 0 {
                assert(label_lines(ls)[i] == label_lines(ls.drop_first())[i - 1]);
            }
        }
    }
}

proof fn lemma_prop_lines_not_delim(ps: Seq<(Seq<char>, Seq<char>)>)
    requires
        forall|i: int|
            0 <= i < ps.len() ==> prop_key_ok((#[trigger] ps[i]).0) && plain_val(ps[i].1),
    ensures
        all_not_delim(prop_lines(ps)),
    decreases ps.len(),
{
    reveal_strlit("  ");
    reveal_strlit(": ");
    reveal_strlit("---");
    if ps.len() > 0 {
        lemma_prop_lines_not_delim(ps.drop_first());
        let l = "  "@ + ps[0].0 + ": "@ + ps[0].1;
        assert(l[0] == ' ');
        assert(l != "---"@) by {
            if l == "---"@ {
                assert(l[0] == '-');
            }
        }
        assert forall|i: int|
            0 <= i < prop_lines(ps).len() implies (#[trigger] prop_lines(ps)[i]) != "---"@ by {
            if i > 0 {
                assert(prop_lines(ps)[i] == prop_lines(ps.drop_first())[i - 1]);
            }
        }
    }
}

proof fn lemma_concat_not_delim(a: Seq<Seq<char>>, b: Seq<Seq<char>>)
    requires
        all_not_delim(a),
        all_not_delim(b),
    ensures
        all_not_delim(a + b),
{
    assert forall|i: int| 0 <= i < (a + b).len() implies (#[trigger] (a + b)[i]) != "---"@ by {
        if i < a.len() {
            assert((a + b)[i] == a[i]);
        } else {
            assert((a + b)[i] == b[i - a.len()]);
        }
    }
}

proof fn lemma_field_lines_not_delim(t: TaskV)
    requires
        canonical(t),
    ensures
        all_not_delim(field_lines(t)),
{
    reveal_strlit("title: ");
    reveal_strlit("status: ");
    reveal_strlit("assignee: ");
    reveal_strlit("labels:");
    reveal_strlit("props:");
    reveal_strlit("---");
    let l1 = "title: "@ + t.title;
    assert(l1[0] == 't');
    assert(l1 != "---"@) by {
        if l1 == "---"@ {
            assert(l1[0] == '-');
        }
    }
    assert(all_not_delim(seq![l1]));
    let status_lines: Seq<Seq<char>> = match t.status {
        Option::Some(v) => seq!["status: "@ + v],
        Option::None => Seq::<Seq<char>>::empty(),
    };
    assert(all_not_delim(status_lines)) by {
        match t.status {
            Option::Some(v) => {
                let l = "status: "@ + v;
                assert(l[0] == 's');
                if l == "---"@ {
                    assert(l[0] == '-');
                }
            },
            Option::None => {},
        }
    }
    let assignee_lines: Seq<Seq<char>> = match t.assignee {
        Option::Some(v) => seq!["assignee: "@ + v],
        Option::None => Seq::<Seq<char>>::empty(),
    };
    assert(all_not_delim(assignee_lines)) by {
        match t.assignee {
            Option::Some(v) => {
                let l = "assignee: "@ + v;
                assert(l[0] == 'a');
                if l == "---"@ {
                    assert(l[0] == '-');
                }
            },
            Option::None => {},
        }
    }
    let lab_lines: Seq<Seq<char>> = if t.labels.len() == 0 {
        Seq::<Seq<char>>::empty()
    } else {
        seq!["labels:"@] + label_lines(t.labels)
    };
    assert(all_not_delim(lab_lines)) by {
        if t.labels.len() > 0 {
            assert("labels:"@ != "---"@) by {
                if "labels:"@ == "---"@ {
                    assert("labels:"@.len() == 3);
                }
            }
            lemma_label_lines_not_delim(t.labels);
            lemma_concat_not_delim(seq!["labels:"@], label_lines(t.labels));
        }
    }
    let prop_lines_s: Seq<Seq<char>> = if t.props.len() == 0 {
        Seq::<Seq<char>>::empty()
    } else {
        seq!["props:"@] + prop_lines(t.props)
    };
    assert(all_not_delim(prop_lines_s)) by {
        if t.props.len() > 0 {
            assert("props:"@ != "---"@) by {
                if "props:"@ == "---"@ {
                    assert("props:"@.len() == 3);
                }
            }
            lemma_prop_lines_not_delim(t.props);
            lemma_concat_not_delim(seq!["props:"@], prop_lines(t.props));
        }
    }
    lemma_concat_not_delim(seq![l1], status_lines);
    lemma_concat_not_delim(seq![l1] + status_lines, assignee_lines);
    lemma_concat_not_delim(seq![l1] + status_lines + assignee_lines, lab_lines);
    lemma_concat_not_delim(seq![l1] + status_lines + assignee_lines + lab_lines, prop_lines_s);
}

// ---------------------------------------------------------------------------
// How the machine steps on each serialized line shape
// ---------------------------------------------------------------------------

proof fn lemma_step_blank(st: PState)
    ensures
        step_line(st, Seq::<char>::empty()) == Option::Some(st),
{
}

proof fn lemma_step_title(st: PState, v: Seq<char>)
    requires
        plain_val(v),
        st.title is None,
    ensures
        step_line(st, "title: "@ + v) == Option::Some(
            PState { mode: PMode::Top, title: Option::Some(v), ..st },
        ),
{
    reveal_strlit("title: ");
    reveal_strlit("labels:");
    reveal_strlit("props:");
    reveal_strlit("- ");
    reveal_strlit("title");
    reveal_strlit(": ");
    let l = "title: "@ + v;
    assert(l[0] == 't');
    assert(l != "labels:"@) by {
        if l == "labels:"@ {
            assert(l[0] == 'l');
        }
    }
    assert(l != "props:"@) by {
        if l == "props:"@ {
            assert(l[0] == 'p');
        }
    }
    assert(!has_prefix(l, "- "@)) by {
        if has_prefix(l, "- "@) {
            assert(l.take(2)[0] == '-');
        }
    }
    assert forall|i: int| 0 <= i < "title"@.len() implies (#[trigger] "title"@[i]) != ':' by {}
    assert((": "@ + v)[0] == ':');
    assert((": "@ + v)[1] == ' ');
    lemma_first_colon_of_kv("title"@, ": "@ + v);
    assert(l =~= "title"@ + (": "@ + v));
    assert(first_colon_sp(l) == 5);
    assert(l.take(5) =~= "title"@);
    assert(l.skip(7) =~= v);
    let r = step_line(st, l);
    assert(r is Some);
    assert(r->0 =~= PState { mode: PMode::Top, title: Option::Some(v), ..st });
}

proof fn lemma_step_status(st: PState, v: Seq<char>)
    requires
        plain_val(v),
        st.status is None,
    ensures
        step_line(st, "status: "@ + v) == Option::Some(
            PState { mode: PMode::Top, status: Option::Some(v), ..st },
        ),
{
    reveal_strlit("status: ");
    reveal_strlit("labels:");
    reveal_strlit("props:");
    reveal_strlit("- ");
    reveal_strlit("title");
    reveal_strlit("status");
    reveal_strlit(": ");
    let l = "status: "@ + v;
    assert(l[0] == 's');
    assert(l != "labels:"@) by {
        if l == "labels:"@ {
            assert(l[0] == 'l');
        }
    }
    assert(l != "props:"@) by {
        if l == "props:"@ {
            assert(l[0] == 'p');
        }
    }
    assert(!has_prefix(l, "- "@)) by {
        if has_prefix(l, "- "@) {
            assert(l.take(2)[0] == '-');
        }
    }
    assert forall|i: int| 0 <= i < "status"@.len() implies (#[trigger] "status"@[i]) != ':' by {}
    assert((": "@ + v)[0] == ':');
    assert((": "@ + v)[1] == ' ');
    lemma_first_colon_of_kv("status"@, ": "@ + v);
    assert(l =~= "status"@ + (": "@ + v));
    assert(first_colon_sp(l) == 6);
    assert(l.take(6) =~= "status"@);
    assert(l.skip(8) =~= v);
    assert(l.take(6) != "title"@) by {
        if l.take(6) == "title"@ {
            assert("title"@.len() == 6);
        }
    }
    let r = step_line(st, l);
    assert(r is Some);
    assert(r->0 =~= PState { mode: PMode::Top, status: Option::Some(v), ..st });
}

proof fn lemma_step_assignee(st: PState, v: Seq<char>)
    requires
        plain_val(v),
        st.assignee is None,
    ensures
        step_line(st, "assignee: "@ + v) == Option::Some(
            PState { mode: PMode::Top, assignee: Option::Some(v), ..st },
        ),
{
    reveal_strlit("assignee: ");
    reveal_strlit("labels:");
    reveal_strlit("props:");
    reveal_strlit("- ");
    reveal_strlit("title");
    reveal_strlit("status");
    reveal_strlit("assignee");
    reveal_strlit(": ");
    let l = "assignee: "@ + v;
    assert(l[0] == 'a');
    assert(l != "labels:"@) by {
        if l == "labels:"@ {
            assert(l[0] == 'l');
        }
    }
    assert(l != "props:"@) by {
        if l == "props:"@ {
            assert(l[0] == 'p');
        }
    }
    assert(!has_prefix(l, "- "@)) by {
        if has_prefix(l, "- "@) {
            assert(l.take(2)[0] == '-');
        }
    }
    assert forall|i: int|
        0 <= i < "assignee"@.len() implies (#[trigger] "assignee"@[i]) != ':' by {}
    assert((": "@ + v)[0] == ':');
    assert((": "@ + v)[1] == ' ');
    lemma_first_colon_of_kv("assignee"@, ": "@ + v);
    assert(l =~= "assignee"@ + (": "@ + v));
    assert(first_colon_sp(l) == 8);
    assert(l.take(8) =~= "assignee"@);
    assert(l.skip(10) =~= v);
    assert(l.take(8) != "title"@) by {
        if l.take(8) == "title"@ {
            assert("title"@.len() == 8);
        }
    }
    assert(l.take(8) != "status"@) by {
        if l.take(8) == "status"@ {
            assert("status"@.len() == 8);
        }
    }
    let r = step_line(st, l);
    assert(r is Some);
    assert(r->0 =~= PState { mode: PMode::Top, assignee: Option::Some(v), ..st });
}

proof fn lemma_step_labels_header(st: PState)
    requires
        st.labels.len() == 0,
    ensures
        step_line(st, "labels:"@) == Option::Some(PState { mode: PMode::InLabels, ..st }),
{
    reveal_strlit("labels:");
    let r = step_line(st, "labels:"@);
    assert(r is Some);
    assert(r->0 =~= PState { mode: PMode::InLabels, ..st });
}

proof fn lemma_step_props_header(st: PState)
    requires
        st.props.len() == 0,
    ensures
        step_line(st, "props:"@) == Option::Some(PState { mode: PMode::InProps, ..st }),
{
    reveal_strlit("props:");
    reveal_strlit("labels:");
    let l = "props:"@;
    assert(l != "labels:"@) by {
        if l == "labels:"@ {
            assert(l.len() == 7);
        }
    }
    let r = step_line(st, l);
    assert(r is Some);
    assert(r->0 =~= PState { mode: PMode::InProps, ..st });
}

proof fn lemma_step_label_item(st: PState, x: Seq<char>)
    requires
        plain_val(x),
        st.mode is InLabels,
    ensures
        step_line(st, "- "@ + x) == Option::Some(PState { labels: st.labels.push(x), ..st }),
{
    reveal_strlit("- ");
    reveal_strlit("labels:");
    reveal_strlit("props:");
    let l = "- "@ + x;
    assert(l[0] == '-');
    assert(l != "labels:"@) by {
        if l == "labels:"@ {
            assert(l[0] == 'l');
        }
    }
    assert(l != "props:"@) by {
        if l == "props:"@ {
            assert(l[0] == 'p');
        }
    }
    assert(has_prefix(l, "- "@)) by {
        assert(l.take(2) =~= "- "@);
    }
    assert(l.skip(2) =~= x);
    let r = step_line(st, l);
    assert(r is Some);
    assert(r->0 =~= PState { labels: st.labels.push(x), ..st });
}

proof fn lemma_step_prop_item(st: PState, k: Seq<char>, v: Seq<char>)
    requires
        prop_key_ok(k),
        plain_val(v),
        st.mode is InProps,
        !has_key(st.props, k),
    ensures
        step_line(st, "  "@ + k + ": "@ + v) == Option::Some(
            PState { props: st.props.push((k, v)), ..st },
        ),
{
    reveal_strlit("  ");
    reveal_strlit(": ");
    reveal_strlit("- ");
    reveal_strlit("labels:");
    reveal_strlit("props:");
    let l = "  "@ + k + ": "@ + v;
    assert(l[0] == ' ');
    assert(l != "labels:"@) by {
        if l == "labels:"@ {
            assert(l[0] == 'l');
        }
    }
    assert(l != "props:"@) by {
        if l == "props:"@ {
            assert(l[0] == 'p');
        }
    }
    assert(!has_prefix(l, "- "@)) by {
        if has_prefix(l, "- "@) {
            assert(l.take(2)[0] == '-');
        }
    }
    assert(has_prefix(l, "  "@)) by {
        assert(l.take(2) =~= "  "@);
    }
    let body = l.skip(2);
    assert(body =~= k + (": "@ + v));
    assert((": "@ + v)[0] == ':');
    assert((": "@ + v)[1] == ' ');
    lemma_first_colon_of_kv(k, ": "@ + v);
    assert(first_colon_sp(body) == k.len());
    assert(body.take(k.len() as int) =~= k);
    assert(body.skip(k.len() as int + 2) =~= v);
    assert(body.len() > k.len() + 2);
    let r = step_line(st, l);
    assert(r is Some);
    assert(r->0 =~= PState { props: st.props.push((k, v)), ..st });
}

// ---------------------------------------------------------------------------
// Folding whole blocks
// ---------------------------------------------------------------------------

proof fn lemma_fold_one(st: PState, l: Seq<char>)
    ensures
        fold_lines(st, seq![l]) == step_line(st, l),
{
    assert(seq![l][0] == l);
    assert(seq![l].drop_first() =~= Seq::<Seq<char>>::empty());
    match step_line(st, l) {
        Option::Some(m) => {
            assert(fold_lines(m, Seq::<Seq<char>>::empty()) == Option::Some(m));
        },
        Option::None => {},
    }
}

proof fn lemma_fold_label_lines(st: PState, ls: Seq<Seq<char>>)
    requires
        st.mode is InLabels,
        forall|i: int| 0 <= i < ls.len() ==> plain_val(#[trigger] ls[i]),
    ensures
        fold_lines(st, label_lines(ls)) == Option::Some(PState { labels: st.labels + ls, ..st }),
    decreases ls.len(),
{
    if ls.len() == 0 {
        assert(st.labels + ls =~= st.labels);
        assert(PState { labels: st.labels + ls, ..st } =~= st);
    } else {
        lemma_step_label_item(st, ls[0]);
        let st2 = PState { labels: st.labels.push(ls[0]), ..st };
        assert(label_lines(ls)[0] == "- "@ + ls[0]);
        assert(label_lines(ls).drop_first() =~= label_lines(ls.drop_first()));
        lemma_fold_label_lines(st2, ls.drop_first());
        assert(st.labels.push(ls[0]) + ls.drop_first() =~= st.labels + ls);
        assert(PState { labels: st2.labels + ls.drop_first(), ..st2 } =~= PState {
            labels: st.labels + ls,
            ..st
        });
    }
}

proof fn lemma_fold_prop_lines(st: PState, ps: Seq<(Seq<char>, Seq<char>)>)
    requires
        st.mode is InProps,
        forall|i: int|
            0 <= i < ps.len() ==> prop_key_ok((#[trigger] ps[i]).0) && plain_val(ps[i].1),
        forall|i: int, j: int|
            0 <= i < j < ps.len() ==> (#[trigger] ps[i]).0 != (#[trigger] ps[j]).0,
        forall|i: int| 0 <= i < ps.len() ==> !has_key(st.props, (#[trigger] ps[i]).0),
    ensures
        fold_lines(st, prop_lines(ps)) == Option::Some(PState { props: st.props + ps, ..st }),
    decreases ps.len(),
{
    if ps.len() == 0 {
        assert(st.props + ps =~= st.props);
        assert(PState { props: st.props + ps, ..st } =~= st);
    } else {
        lemma_step_prop_item(st, ps[0].0, ps[0].1);
        assert((ps[0].0, ps[0].1) == ps[0]);
        let st2 = PState { props: st.props.push(ps[0]), ..st };
        assert(prop_lines(ps)[0] == "  "@ + ps[0].0 + ": "@ + ps[0].1);
        assert(prop_lines(ps).drop_first() =~= prop_lines(ps.drop_first()));
        assert forall|i: int|
            0 <= i < ps.drop_first().len() implies !has_key(
            st2.props,
            (#[trigger] ps.drop_first()[i]).0,
        ) by {
            assert(ps.drop_first()[i] == ps[i + 1]);
            assert(ps[0].0 != ps[i + 1].0);
            if has_key(st2.props, ps[i + 1].0) {
                let w = choose|w: int|
                    0 <= w < st2.props.len() && st2.props[w].0 == ps[i + 1].0;
                if w < st.props.len() {
                    assert(has_key(st.props, ps[i + 1].0));
                } else {
                    assert(st2.props[w] == ps[0]);
                }
            }
        }
        lemma_fold_prop_lines(st2, ps.drop_first());
        assert(st.props.push(ps[0]) + ps.drop_first() =~= st.props + ps);
        assert(PState { props: st2.props + ps.drop_first(), ..st2 } =~= PState {
            props: st.props + ps,
            ..st
        });
    }
}

// ---------------------------------------------------------------------------
// The whole front matter folds to the task's fields
// ---------------------------------------------------------------------------

/// The machine's mode after the last front-matter line.
pub open spec fn final_mode(t: TaskV) -> PMode {
    if t.props.len() > 0 {
        PMode::InProps
    } else if t.labels.len() > 0 {
        PMode::InLabels
    } else {
        PMode::Top
    }
}

/// The state the fold reaches on a canonical task's front matter.
pub open spec fn folded_state(t: TaskV) -> PState {
    PState {
        mode: final_mode(t),
        title: Option::Some(t.title),
        status: t.status,
        assignee: t.assignee,
        desc: Option::None,
        labels: t.labels,
        props: t.props,
    }
}

#[verifier::rlimit(100)]
proof fn lemma_fold_fields(t: TaskV)
    requires
        canonical(t),
    ensures
        fold_lines(init_pstate(), field_lines(t) + seq![Seq::<char>::empty()]) == Option::Some(
            folded_state(t),
        ),
{
    let st0 = init_pstate();
    let lt: Seq<Seq<char>> = seq!["title: "@ + t.title];
    let status_lines: Seq<Seq<char>> = match t.status {
        Option::Some(v) => seq!["status: "@ + v],
        Option::None => Seq::<Seq<char>>::empty(),
    };
    let assignee_lines: Seq<Seq<char>> = match t.assignee {
        Option::Some(v) => seq!["assignee: "@ + v],
        Option::None => Seq::<Seq<char>>::empty(),
    };
    let lab_lines: Seq<Seq<char>> = if t.labels.len() == 0 {
        Seq::<Seq<char>>::empty()
    } else {
        seq!["labels:"@] + label_lines(t.labels)
    };
    let prop_lines_s: Seq<Seq<char>> = if t.props.len() == 0 {
        Seq::<Seq<char>>::empty()
    } else {
        seq!["props:"@] + prop_lines(t.props)
    };
    let blank: Seq<Seq<char>> = seq![Seq::<char>::empty()];
    // title
    let st1 = PState { mode: PMode::Top, title: Option::Some(t.title), ..st0 };
    lemma_step_title(st0, t.title);
    lemma_fold_one(st0, lt[0]);
    assert(fold_lines(st0, lt) == Option::Some(st1)) by {
        assert(lt =~= seq![lt[0]]);
    }
    // status
    let st2 = PState { status: t.status, ..st1 };
    assert(fold_lines(st1, status_lines) == Option::Some(st2)) by {
        match t.status {
            Option::Some(v) => {
                lemma_step_status(st1, v);
                lemma_fold_one(st1, "status: "@ + v);
                assert(status_lines =~= seq!["status: "@ + v]);
                assert(PState { mode: PMode::Top, status: Option::Some(v), ..st1 } =~= st2);
            },
            Option::None => {
                assert(fold_lines(st1, status_lines) == Option::Some(st1));
                assert(st2 =~= st1);
            },
        }
    }
    // assignee
    let st3 = PState { assignee: t.assignee, ..st2 };
    assert(fold_lines(st2, assignee_lines) == Option::Some(st3)) by {
        match t.assignee {
            Option::Some(v) => {
                lemma_step_assignee(st2, v);
                lemma_fold_one(st2, "assignee: "@ + v);
                assert(assignee_lines =~= seq!["assignee: "@ + v]);
                assert(PState { mode: PMode::Top, assignee: Option::Some(v), ..st2 } =~= st3);
            },
            Option::None => {
                assert(fold_lines(st2, assignee_lines) == Option::Some(st2));
                assert(st3 =~= st2);
            },
        }
    }
    // labels
    let st4 = if t.labels.len() == 0 {
        st3
    } else {
        PState { mode: PMode::InLabels, labels: t.labels, ..st3 }
    };
    assert(fold_lines(st3, lab_lines) == Option::Some(st4)) by {
        if t.labels.len() == 0 {
            assert(fold_lines(st3, Seq::<Seq<char>>::empty()) == Option::Some(st3));
        } else {
            lemma_step_labels_header(st3);
            let sth = PState { mode: PMode::InLabels, ..st3 };
            lemma_fold_one(st3, "labels:"@);
            lemma_fold_split(st3, seq!["labels:"@], label_lines(t.labels));
            lemma_fold_label_lines(sth, t.labels);
            assert(sth.labels + t.labels =~= t.labels);
            assert(PState { labels: sth.labels + t.labels, ..sth } =~= st4);
        }
    }
    // props
    let st5 = if t.props.len() == 0 {
        st4
    } else {
        PState { mode: PMode::InProps, props: t.props, ..st4 }
    };
    assert(fold_lines(st4, prop_lines_s) == Option::Some(st5)) by {
        if t.props.len() == 0 {
            assert(fold_lines(st4, Seq::<Seq<char>>::empty()) == Option::Some(st4));
        } else {
            lemma_step_props_header(st4);
            let sth = PState { mode: PMode::InProps, ..st4 };
            lemma_fold_one(st4, "props:"@);
            lemma_fold_split(st4, seq!["props:"@], prop_lines(t.props));
            assert forall|i: int|
                0 <= i < t.props.len() implies !has_key(sth.props, (#[trigger] t.props[i]).0) by {}
            lemma_fold_prop_lines(sth, t.props);
            assert(sth.props + t.props =~= t.props);
            assert(PState { props: sth.props + t.props, ..sth } =~= st5);
        }
    }
    // trailing blank line
    lemma_step_blank(st5);
    lemma_fold_one(st5, Seq::<char>::empty());
    assert(fold_lines(st5, blank) == Option::Some(st5));
    // stitch the segments together
    let all = field_lines(t) + blank;
    assert(all =~= lt + (status_lines + (assignee_lines + (lab_lines + (prop_lines_s + blank)))));
    lemma_fold_split(st0, lt, status_lines + (assignee_lines + (lab_lines + (prop_lines_s
        + blank))));
    lemma_fold_split(st1, status_lines, assignee_lines + (lab_lines + (prop_lines_s + blank)));
    lemma_fold_split(st2, assignee_lines, lab_lines + (prop_lines_s + blank));
    lemma_fold_split(st3, lab_lines, prop_lines_s + blank);
    lemma_fold_split(st4, prop_lines_s, blank);
    assert(fold_lines(st0, all) == Option::Some(st5));
    assert(st5 =~= folded_state(t));
}

// ---------------------------------------------------------------------------
// The round-trip law
// ---------------------------------------------------------------------------

/// Parsing a serialized canonical task gives the task back, with the id
/// taken from wherever the document is read.
pub proof fn lemma_round_trip(t: TaskV, stem: Option<Seq<char>>)
    requires
        canonical(t),
    ensures
        parse_doc_spec(ser_doc(t), stem) == Option::Some(TaskV { id: stem, ..t }),
{
    lemma_split_ser_doc(t);
    let lines = split_lines(ser_doc(t));
    let fl = field_lines(t);
    let m = fl.len() as int;
    let mid: Seq<Seq<char>> = seq![Seq::<char>::empty(), "---"@, Seq::<char>::empty()];
    assert(lines == seq!["---"@] + fl + mid + split_lines(desc_of(t)));
    lemma_split_lines_len(desc_of(t));
    assert(lines.len() >= m + 5);
    assert(lines[0] == "---"@);
    let j = m + 2;
    assert(lines[j] == "---"@) by {
        assert(lines[j] == mid[1]);
    }
    reveal_strlit("---");
    lemma_field_lines_not_delim(t);
    assert forall|jj: int| 1 <= jj < j implies (#[trigger] lines[jj]) != "---"@ by {
        if jj <= m {
            assert(lines[jj] == fl[jj - 1]);
        } else {
            assert(lines[jj] == mid[0]);
            assert("---"@.len() == 3);
        }
    }
    lemma_find_delim_at(lines, j);
    assert(find_delim(lines, 1) == j);
    // the fold over the front matter
    assert(lines.subrange(1, j) =~= fl + seq![Seq::<char>::empty()]);
    lemma_fold_fields(t);
    assert(fold_lines(init_pstate(), lines.subrange(1, j)) == Option::Some(folded_state(t)));
    // the body
    let tail = lines.skip(j + 1);
    assert(tail =~= seq![Seq::<char>::empty()] + split_lines(desc_of(t)));
    lemma_join_split(desc_of(t));
    assert(tail.len() >= 2);
    assert(tail.drop_first() =~= split_lines(desc_of(t)));
    assert(join_lines(tail) == tail[0] + seq!['\n'] + join_lines(tail.drop_first()));
    assert(join_lines(tail) =~= seq!['\n'] + desc_of(t));
    lemma_trim_drop_leading_space(desc_of(t), '\n');
    let body = trim(join_lines(tail));
    assert(body == trim(desc_of(t)));
    match t.description {
        Option::Some(d) => {
            assert(body == d);
        },
        Option::None => {
            assert(desc_of(t) =~= Seq::<char>::empty());
            assert(trim(Seq::<char>::empty()) =~= Seq::<char>::empty());
            assert(body.len() == 0);
        },
    }
    // assemble the parse
    assert(parse_lines(lines) is Some);
    let tv = parse_lines(lines)->0;
    assert(tv =~= TaskV { id: Option::None, ..t });
    assert(parse_doc_spec(ser_doc(t), stem) == Option::Some(TaskV { id: stem, ..t })) by {
        assert(TaskV { id: stem, ..tv } =~= TaskV { id: stem, ..t });
    }
}

/// Reading after creating: the document `create` writes for a record
/// parses back, under the id assigned from the path's file stem, to the
/// record itself — the id attached, an absent description still absent —
/// for any record in canonical form.
pub proof fn lemma_create_then_read(t: TaskV, path: Seq<char>)
    requires
        canonical(t),
    ensures
        parse_doc_spec(ser_doc(t), stem_of_path(path)) == Option::Some(
            TaskV { id: stem_of_path(path), ..t },
        ),
{
    lemma_round_trip(t, stem_of_path(path));
}

} // verus!
