//! Id handling: deriving a document id from its file name, computing the
//! next free numeric id in a directory, and splitting a full id into its
//! team prefix and itself.

use vstd::prelude::*;

use crate::error::Error;
use crate::strutil::{
    all_digits, digits_val, find_char, first_idx, last_idx, lemma_first_idx, lemma_last_idx,
    parse_u32, rfind_char,
};

verus! {

// ---------------------------------------------------------------------------
// File stems
// ---------------------------------------------------------------------------

/// The file name without its extension: everything before the last dot,
/// unless the dot opens the name.
pub open spec fn stem_of_name(name: Seq<char>) -> Seq<char> {
    let d = last_idx(name, '.');
    if d <= 0 {
        name
    } else {
        name.take(d)
    }
}

/// The file-name component of a path: everything after the last slash.
pub open spec fn name_of_path(p: Seq<char>) -> Seq<char> {
    let sl = last_idx(p, '/');
    if sl < 0 {
        p
    } else {
        p.skip(sl + 1)
    }
}

/// The stem of a path's file name, absent when the path has no file name.
pub open spec fn stem_of_path(p: Seq<char>) -> Option<Seq<char>> {
    let n = name_of_path(p);
    if n.len() == 0 {
        Option::None
    } else {
        Option::Some(stem_of_name(n))
    }
}

/// The stem of a path's file name: the document id carrier.
pub fn file_stem(path: &str) -> (r: Option<String>)
    ensures
        match r {
            Some(s) => stem_of_path(path@) == Option::Some(s@),
            None => stem_of_path(path@) is None,
        },
{
    let len = path.unicode_len();
    proof {
        lemma_last_idx(path@, '/');
    }
    let name_start: usize = match rfind_char(path, '/') {
        Some(sl) => sl + 1,
        None => 0,
    };
    let name = path.substring_char(name_start, len);
    proof {
        assert(name@ =~= name_of_path(path@));
    }
    let name_len = name.unicode_len();
    if name_len == 0 {
        return None;
    }
    proof {
        lemma_last_idx(name@, '.');
    }
    let stem = match rfind_char(name, '.') {
        Some(d) => {
            if d == 0 {
                name
            } else {
                name.substring_char(0, d)
            }
        },
        None => name,
    };
    proof {
        assert(stem@ =~= stem_of_name(name_of_path(path@)));
    }
    Some(String::from_str(stem))
}

/// The file-name component of a path.
pub fn path_name(path: &str) -> (r: &str)
    ensures
        r@ == name_of_path(path@),
{
    let len = path.unicode_len();
    proof {
        lemma_last_idx(path@, '/');
    }
    let name_start: usize = match rfind_char(path, '/') {
        Some(sl) => sl + 1,
        None => 0,
    };
    let name = path.substring_char(name_start, len);
    proof {
        assert(name@ =~= name_of_path(path@));
    }
    name
}

// ---------------------------------------------------------------------------
// Numeric ids in file names
// ---------------------------------------------------------------------------

/// The segment of a stem between its first dash and the next dash or the
/// end; absent when the stem has no dash.
pub open spec fn second_dash_segment(stem: Seq<char>) -> Option<Seq<char>> {
    let d = first_idx(stem, '-');
    if d < 0 {
        Option::None
    } else {
        let rest = stem.skip(d + 1);
        let d2 = first_idx(rest, '-');
        if d2 < 0 {
            Option::Some(rest)
        } else {
            Option::Some(rest.take(d2))
        }
    }
}

/// The numeric id carried by a file name of the shape
/// `<prefix>-<number>.<ext>`; absent for names of any other shape.
pub open spec fn id_num_of_name(name: Seq<char>) -> Option<nat> {
    match second_dash_segment(stem_of_name(name)) {
        Option::None => Option::None,
        Option::Some(seg) => {
            if seg.len() > 0 && all_digits(seg) && digits_val(seg) <= u32::MAX {
                Option::Some(digits_val(seg))
            } else {
                Option::None
            }
        },
    }
}

/// The largest numeric id among the given file names, 0 when none matches.
pub open spec fn max_id_num(names: Seq<Seq<char>>) -> nat
    decreases names.len(),
{
    if names.len() == 0 {
        0
    } else {
        let rest = max_id_num(names.drop_first());
        match id_num_of_name(names[0]) {
            Option::None => rest,
            Option::Some(n) => if n > rest {
                n
            } else {
                rest
            },
        }
    }
}

/// The numeric id carried by one file name, if any.
pub fn id_num_of(name: &str) -> (r: Option<u32>)
    ensures
        match r {
            Some(n) => id_num_of_name(name@) == Option::Some(n as nat),
            None => id_num_of_name(name@) is None,
        },
{
    let len = name.unicode_len();
    proof {
        lemma_last_idx(name@, '.');
    }
    let stem_end: usize = match rfind_char(name, '.') {
        Some(d) => {
            if d == 0 {
                len
            } else {
                d
            }
        },
        None => len,
    };
    let stem = name.substring_char(0, stem_end);
    proof {
        lemma_last_idx(name@, '.');
        assert(stem@ =~= stem_of_name(name@));
    }
    let d = match find_char(stem, '-') {
        Some(d) => d,
        None => {
            return None;
        },
    };
    proof {
        lemma_first_idx(stem@, '-');
    }
    let stem_len = stem.unicode_len();
    let rest = stem.substring_char(d + 1, stem_len);
    proof {
        assert(rest@ =~= stem@.skip(d + 1));
    }
    let seg = match find_char(rest, '-') {
        Some(d2) => {
            proof {
                lemma_first_idx(rest@, '-');
            }
            rest.substring_char(0, d2)
        },
        None => rest,
    };
    proof {
        assert(second_dash_segment(stem@) == Option::Some(seg@));
    }
    parse_u32(seg)
}

/// The lemma behind the maximum: appending one name updates the maximum.
proof fn lemma_max_id_num_snoc(names: Seq<Seq<char>>, x: Seq<char>)
    ensures
        max_id_num(names.push(x)) == {
            let rest = max_id_num(names);
            match id_num_of_name(x) {
                Option::None => rest,
                Option::Some(n) => if n > rest {
                    n
                } else {
                    rest
                },
            }
        },
    decreases names.len(),
{
    if names.len() == 0 {
        assert(names.push(x).drop_first() =~= Seq::<Seq<char>>::empty());
        assert(names.push(x)[0] == x);
        assert(max_id_num(Seq::<Seq<char>>::empty()) == 0);
    } else {
        assert(names.push(x).drop_first() =~= names.drop_first().push(x));
        assert(names.push(x)[0] == names[0]);
        lemma_max_id_num_snoc(names.drop_first(), x);
    }
}

/// The next free numeric id for a directory listing: one more than the
/// largest id carried by any of the names, 1 when none matches. Fails only
/// when that id cannot be represented.
pub fn next_id_from_names(names: &Vec<String>) -> (r: Result<u32, Error>)
    ensures
        r is Ok <==> max_id_num(names@.map_values(|n: String| n@)) < u32::MAX,
        r matches Ok(n) ==> n == max_id_num(names@.map_values(|n: String| n@)) + 1,
{
    let ghost nv = names@.map_values(|n: String| n@);
    let mut best: u32 = 0;
    let mut i: usize = 0;
    while i < names.len()
        invariant
            nv == names@.map_values(|n: String| n@),
            nv.len() == names@.len(),
            i <= names.len(),
            best == max_id_num(nv.take(i as int)),
        decreases names.len() - i,
    {
        let cur = id_num_of(names[i].as_str());
        proof {
            lemma_max_id_num_snoc(nv.take(i as int), nv[i as int]);
            assert(nv.take(i + 1) =~= nv.take(i as int).push(nv[i as int]));
        }
        match cur {
            Some(n) => {
                if n > best {
                    best = n;
                }
            },
            None => {},
        }
        i += 1;
    }
    proof {
        assert(nv.take(names@.len() as int) =~= nv);
    }
    if best == u32::MAX {
        Err(Error::Msg(String::from_str("next id does not fit")))
    } else {
        Ok(best + 1)
    }
}

// ---------------------------------------------------------------------------
// Team prefixes
// ---------------------------------------------------------------------------

/// The team prefix of an id: everything before the first dash, or the whole
/// id when it has none.
pub open spec fn team_of(id: Seq<char>) -> Seq<char> {
    let d = first_idx(id, '-');
    if d < 0 {
        id
    } else {
        id.take(d)
    }
}

/// Splits an id into its team prefix and itself. The prefix of a dashless
/// id is the id itself, so this never fails.
pub fn team_and_id(id: &str) -> (r: Result<(String, String), Error>)
    ensures
        r is Ok,
        r matches Ok(p) ==> p.0@ == team_of(id@) && p.1@ == id@,
{
    let team = match find_char(id, '-') {
        Some(d) => {
            proof {
                lemma_first_idx(id@, '-');
            }
            let t = id.substring_char(0, d);
            proof {
                assert(t@ =~= team_of(id@));
            }
            t
        },
        None => id,
    };
    Ok((String::from_str(team), String::from_str(id)))
}

} // verus!
