//! The orchestrator: one document repository and one secondary index bound
//! to one repository root. Creation and update follow the write, track,
//! record, index-upsert sequence; a later step failing leaves the earlier
//! effects in place, recoverable by recording again or reindexing.

use vstd::prelude::*;

use crate::changes::{
    record_step, valid_rel_path, ChangeInfo, ChangeStore, Identity, StoreV,
};
use crate::codec::{parse_doc_spec, ser_doc};
use crate::error::Error;
use crate::filter::FilterArgs;
use crate::ids::{next_id_from_names, path_name, stem_of_path, max_id_num, name_of_path};
use crate::index::{matching_rows, row_of_task, upsert_rows, IndexRow, IndexTable};
use crate::kv::{kv_get, kv_set};
use crate::lines::lemma_trim_nonempty;
use crate::strutil::{find_char, first_idx, has_prefix, str_has_prefix};
use crate::task::Task;

verus! {

/// A handle to one document in the repository, named by its path relative
/// to the repository root.
pub struct Document {
    pub path: String,
}

impl View for Document {
    type V = Seq<char>;

    open spec fn view(&self) -> Seq<char> {
        self.path@
    }
}

impl Document {
    /// The path of this document relative to the repository root.
    pub fn repo_path(&self) -> (r: &str)
        ensures
            r@ == self@,
    {
        self.path.as_str()
    }
}

/// A document together with the change history that created and last
/// touched it; `updated` is absent when one change did both.
pub struct MetaDoc {
    pub created: ChangeInfo,
    pub updated: Option<ChangeInfo>,
    pub doc: Task,
}

/// The commit message a write records.
pub open spec fn update_msg(p: Seq<char>) -> Seq<char> {
    "Updated "@ + name_of_path(p)
}

/// The store after a tracked write: the file written, its path followed.
pub open spec fn written_store(s: StoreV, p: Seq<char>, content: Seq<char>) -> StoreV {
    StoreV {
        working: kv_set(s.working, p, content),
        paths: if s.paths.contains(p) {
            s.paths
        } else {
            s.paths.push(p)
        },
        ..s
    }
}

/// Whether a path lies directly inside a directory.
pub open spec fn in_dir(p: Seq<char>, dir: Seq<char>) -> bool {
    has_prefix(p, dir + "/"@) && first_idx(p.skip(dir.len() as int + 1), '/') < 0
}

/// The file names directly inside a directory, in working-copy order.
pub open spec fn dir_names(entries: Seq<(Seq<char>, Seq<char>)>, dir: Seq<char>) -> Seq<Seq<char>>
    decreases entries.len(),
{
    if entries.len() == 0 {
        Seq::empty()
    } else {
        (if in_dir(entries[0].0, dir) {
            seq![entries[0].0.skip(dir.len() as int + 1)]
        } else {
            Seq::<Seq<char>>::empty()
        }) + dir_names(entries.drop_first(), dir)
    }
}

/// The paths directly inside a directory, in working-copy order.
pub open spec fn dir_paths(entries: Seq<(Seq<char>, Seq<char>)>, dir: Seq<char>) -> Seq<Seq<char>>
    decreases entries.len(),
{
    if entries.len() == 0 {
        Seq::empty()
    } else {
        (if in_dir(entries[0].0, dir) {
            seq![entries[0].0]
        } else {
            Seq::<Seq<char>>::empty()
        }) + dir_paths(entries.drop_first(), dir)
    }
}

proof fn lemma_dir_names_snoc(
    entries: Seq<(Seq<char>, Seq<char>)>,
    x: (Seq<char>, Seq<char>),
    dir: Seq<char>,
)
    ensures
        dir_names(entries.push(x), dir) == if in_dir(x.0, dir) {
            dir_names(entries, dir).push(x.0.skip(dir.len() as int + 1))
        } else {
            dir_names(entries, dir)
        },
        dir_paths(entries.push(x), dir) == if in_dir(x.0, dir) {
            dir_paths(entries, dir).push(x.0)
        } else {
            dir_paths(entries, dir)
        },
    decreases entries.len(),
{
    if entries.len() == 0 {
        assert(entries.push(x).drop_first() =~= Seq::<(Seq<char>, Seq<char>)>::empty());
        assert(entries.push(x)[0] == x);
        assert(dir_names(Seq::<(Seq<char>, Seq<char>)>::empty(), dir) == Seq::<Seq<char>>::empty());
        assert(dir_paths(Seq::<(Seq<char>, Seq<char>)>::empty(), dir) == Seq::<Seq<char>>::empty());
        if in_dir(x.0, dir) {
            assert(dir_names(entries.push(x), dir) =~= dir_names(entries, dir).push(
                x.0.skip(dir.len() as int + 1),
            ));
            assert(dir_paths(entries.push(x), dir) =~= dir_paths(entries, dir).push(x.0));
        } else {
            assert(dir_names(entries.push(x), dir) =~= dir_names(entries, dir));
            assert(dir_paths(entries.push(x), dir) =~= dir_paths(entries, dir));
        }
    } else {
        assert(entries.push(x).drop_first() =~= entries.drop_first().push(x));
        assert(entries.push(x)[0] == entries[0]);
        lemma_dir_names_snoc(entries.drop_first(), x, dir);
        if in_dir(x.0, dir) {
            assert(dir_names(entries.push(x), dir) =~= dir_names(entries, dir).push(
                x.0.skip(dir.len() as int + 1),
            ));
            assert(dir_paths(entries.push(x), dir) =~= dir_paths(entries, dir).push(x.0));
        } else {
            assert(dir_names(entries.push(x), dir) =~= dir_names(entries, dir));
            assert(dir_paths(entries.push(x), dir) =~= dir_paths(entries, dir));
        }
    }
}

/// The system: the change store, the derived index, and the signing
/// identity with the cache of known identities, injected at construction.
pub struct System {
    pub store: ChangeStore,
    pub index: IndexTable,
    pub identity: Identity,
    pub known: Vec<Identity>,
}

impl System {
    /// A fresh system bound to an empty repository, owned by the given
    /// signing identity.
    pub fn init(identity: Identity) -> (s: System)
        ensures
            s.store@.paths == Seq::<Seq<char>>::empty(),
            s.store@.head == Seq::<(Seq<char>, Seq<char>)>::empty(),
            s.store@.working == Seq::<(Seq<char>, Seq<char>)>::empty(),
            s.store@.log == Seq::<crate::changes::ChangeRecordV>::empty(),
            s.index@ == Seq::<crate::index::RowV>::empty(),
            s.identity@ == identity@,
            s.known@.len() == 0,
    {
        System { store: ChangeStore::new(), index: IndexTable::new(), identity, known: Vec::new() }
    }

    /// A handle to the document at the given path.
    pub fn load(&self, path: &str) -> (d: Document)
        ensures
            d@ == path@,
    {
        Document { path: String::from_str(path) }
    }

    /// Reads and parses the document at the path; the id comes from the
    /// file stem. A missing file is not found; malformed front matter is a
    /// deserialization error.
    pub fn read_doc(&self, path: &str) -> (r: Result<Task, Error>)
        ensures
            match kv_get(self.store@.working, path@) {
                Option::Some(content) => {
                    &&& (r is Ok <==> parse_doc_spec(content, stem_of_path(path@)) is Some)
                    &&& (r matches Ok(t) ==> Option::Some(t@) == parse_doc_spec(
                        content,
                        stem_of_path(path@),
                    ))
                    &&& (r matches Err(e) ==> e is DeserError)
                },
                Option::None => r matches Err(e) && e is NotFound,
            },
    {
        match self.store.read_file(path) {
            Some(content) => Task::parse_doc(content.as_str(), Some(path)),
            None => Err(Error::NotFound(String::from_str(path))),
        }
    }

    /// Serializes the record and rewrites its file; when asked to, also
    /// tracks the path and records the change under an `Updated <file>`
    /// message signed by the system's identity. A failure after the write
    /// leaves the file written but unrecorded, recoverable by recording.
    pub fn write_doc(&mut self, path: &str, doc: &Task, track_and_record: bool, now_millis: u64)
        -> (r: Result<Option<String>, Error>)
        ensures
            !track_and_record ==> r is Ok && r->Ok_0 is None && final(self).store@ == (StoreV {
                working: kv_set(old(self).store@.working, path@, ser_doc(doc@)),
                ..old(self).store@
            }),
            track_and_record ==> {
                let written = written_store(old(self).store@, path@, ser_doc(doc@));
                &&& (r is Ok <==> valid_rel_path(path@))
                &&& (r matches Ok(h) ==> {
                    let (s2, rh) = record_step(
                        written,
                        update_msg(path@),
                        old(self).identity@.public_key,
                        now_millis,
                    );
                    final(self).store@ == s2 && crate::task::opt_view(h) == rh
                })
                &&& (r is Err ==> final(self).store@ == (StoreV {
                    working: kv_set(old(self).store@.working, path@, ser_doc(doc@)),
                    ..old(self).store@
                }))
                &&& (r matches Err(e) ==> e is Msg)
            },
            final(self).index == old(self).index,
            final(self).identity == old(self).identity,
            final(self).known == old(self).known,
    {
        let content = doc.to_doc_string();
        self.store.write_file(path, content);
        if !track_and_record {
            return Ok(None);
        }
        match self.store.track(path) {
            Ok(_) => {},
            Err(e) => {
                return Err(e);
            },
        }
        let mut msg = String::new();
        msg.append("Updated ");
        let name = path_name(path);
        msg.append(name);
        proof {
            assert(msg@ =~= update_msg(path@));
            reveal_strlit("Updated ");
            assert(!crate::lines::is_space(msg@[0]));
            lemma_trim_nonempty(msg@);
        }
        let key = self.identity.public_key.clone();
        match self.store.record(msg.as_str(), key.as_str(), now_millis) {
            Ok(h) => Ok(h),
            Err(_) => {
                proof {
                    // the message has a nonempty trim, so recording cannot
                    // have failed
                    assert(false);
                }
                Err(Error::Unknown)
            },
        }
    }

    /// Creates a document: fails if the file exists; otherwise writes it
    /// with tracking and recording, re-reads the committed file to obtain
    /// the id-bearing record, and upserts that record into the index.
    pub fn create_doc(&mut self, path: &str, doc: &Task, now_millis: u64) -> (r: Result<
        Document,
        Error,
    >)
        ensures
            kv_get(old(self).store@.working, path@) is Some ==> (r matches Err(e) && e
                is AlreadyExists && *final(self) == *old(self)),
            r matches Ok(d) ==> d@ == path@,
            ({
                let content = ser_doc(doc@);
                let written = written_store(old(self).store@, path@, content);
                let (s2, _) = record_step(
                    written,
                    update_msg(path@),
                    old(self).identity@.public_key,
                    now_millis,
                );
                let parsed = parse_doc_spec(content, stem_of_path(path@));
                kv_get(old(self).store@.working, path@) is None && valid_rel_path(path@) ==> {
                    &&& final(self).store@ == s2
                    &&& kv_get(final(self).store@.working, path@) == Option::Some(content)
                    &&& (r is Ok <==> parsed is Some && parsed->0.id is Some)
                    &&& (r is Ok ==> final(self).index@ == upsert_rows(
                        old(self).index@,
                        row_of_task(parsed->0),
                    ))
                    &&& (r is Err ==> final(self).index == old(self).index)
                }
            }),
            // reading after creating returns the record itself, normalized,
            // for any record in canonical form
            ({
                let stem = stem_of_path(path@);
                crate::roundtrip::canonical(doc@) && stem is Some && valid_rel_path(path@)
                    && kv_get(old(self).store@.working, path@) is None ==> {
                    &&& r is Ok
                    &&& kv_get(final(self).store@.working, path@) == Option::Some(ser_doc(doc@))
                    &&& parse_doc_spec(ser_doc(doc@), stem) == Option::Some(
                        crate::task::TaskV { id: stem, ..doc@ },
                    )
                    &&& final(self).index@ == upsert_rows(
                        old(self).index@,
                        row_of_task(crate::task::TaskV { id: stem, ..doc@ }),
                    )
                }
            }),
    {
        proof {
            if crate::roundtrip::canonical(doc@) {
                crate::roundtrip::lemma_round_trip(doc@, stem_of_path(path@));
            }
        }
        match self.store.read_file(path) {
            Some(_) => {
                return Err(Error::AlreadyExists(String::from_str(path)));
            },
            None => {},
        }
        match self.write_doc(path, doc, true, now_millis) {
            Ok(_) => {},
            Err(e) => {
                return Err(e);
            },
        }
        proof {
            crate::kv::lemma_kv_set_get(old(self).store@.working, path@, ser_doc(doc@), path@);
        }
        let record = match self.read_doc(path) {
            Ok(t) => t,
            Err(e) => {
                return Err(e);
            },
        };
        match &record.id {
            Some(_) => {},
            None => {
                return Err(Error::Msg(String::from_str("record has no id")));
            },
        }
        let row = record.index_row();
        self.index.upsert(row);
        Ok(Document { path: String::from_str(path) })
    }

    /// Updates a document: fails if the file is absent; otherwise the same
    /// write, re-read and index-upsert sequence as creation.
    pub fn update_doc(&mut self, path: &str, doc: &Task, now_millis: u64) -> (r: Result<
        Document,
        Error,
    >)
        ensures
            kv_get(old(self).store@.working, path@) is None ==> (r matches Err(e) && e
                is NotFound && *final(self) == *old(self)),
            r matches Ok(d) ==> d@ == path@,
            ({
                let content = ser_doc(doc@);
                let written = written_store(old(self).store@, path@, content);
                let (s2, _) = record_step(
                    written,
                    update_msg(path@),
                    old(self).identity@.public_key,
                    now_millis,
                );
                let parsed = parse_doc_spec(content, stem_of_path(path@));
                kv_get(old(self).store@.working, path@) is Some && valid_rel_path(path@) ==> {
                    &&& final(self).store@ == s2
                    &&& kv_get(final(self).store@.working, path@) == Option::Some(content)
                    &&& (r is Ok <==> parsed is Some && parsed->0.id is Some)
                    &&& (r is Ok ==> final(self).index@ == upsert_rows(
                        old(self).index@,
                        row_of_task(parsed->0),
                    ))
                    &&& (r is Err ==> final(self).index == old(self).index)
                }
            }),
    {
        match self.store.read_file(path) {
            Some(_) => {},
            None => {
                return Err(Error::NotFound(String::from_str(path)));
            },
        }
        match self.write_doc(path, doc, true, now_millis) {
            Ok(_) => {},
            Err(e) => {
                return Err(e);
            },
        }
        proof {
            crate::kv::lemma_kv_set_get(old(self).store@.working, path@, ser_doc(doc@), path@);
        }
        let record = match self.read_doc(path) {
            Ok(t) => t,
            Err(e) => {
                return Err(e);
            },
        };
        match &record.id {
            Some(_) => {},
            None => {
                return Err(Error::Msg(String::from_str("record has no id")));
            },
        }
        let row = record.index_row();
        self.index.upsert(row);
        Ok(Document { path: String::from_str(path) })
    }

    /// Re-reads a document and upserts it into the index, bypassing the
    /// change store: repairs index drift after out-of-band edits.
    pub fn reindex(&mut self, path: &str) -> (r: Result<(), Error>)
        ensures
            final(self).store == old(self).store,
            ({
                let parsed = match kv_get(old(self).store@.working, path@) {
                    Option::Some(content) => parse_doc_spec(content, stem_of_path(path@)),
                    Option::None => Option::None,
                };
                &&& (r is Ok <==> parsed is Some && parsed->0.id is Some)
                &&& (r is Ok ==> final(self).index@ == upsert_rows(
                    old(self).index@,
                    row_of_task(parsed->0),
                ))
                &&& (r is Err ==> final(self).index == old(self).index)
            }),
    {
        let record = match self.read_doc(path) {
            Ok(t) => t,
            Err(e) => {
                return Err(e);
            },
        };
        match &record.id {
            Some(_) => {},
            None => {
                return Err(Error::Msg(String::from_str("record has no id")));
            },
        }
        let row = record.index_row();
        self.index.upsert(row);
        Ok(())
    }

    /// Every indexed row matching the filter, in index order. A filter that
    /// matches nothing yields an empty list, not an error.
    pub fn query(&self, f: &FilterArgs) -> (r: Result<Vec<IndexRow>, Error>)
        ensures
            r is Ok,
            r matches Ok(v) ==> v@.map_values(|row: IndexRow| row@) == matching_rows(
                self.index@,
                f@,
            ),
    {
        Ok(self.index.query(f))
    }

    /// The file names directly inside a directory of the working copy.
    fn names_in_dir(&self, dir: &str) -> (r: Vec<String>)
        ensures
            r@.map_values(|n: String| n@) == dir_names(self.store@.working, dir@),
    {
        let mut prefix = String::new();
        prefix.append(dir);
        prefix.append("/");
        proof {
            reveal_strlit("/");
            assert(prefix@ =~= dir@ + "/"@);
            assert(prefix@.len() == dir@.len() + 1);
        }
        let plen = prefix.unicode_len();
        let mut out: Vec<String> = Vec::new();
        proof {
            assert(out@.map_values(|n: String| n@) =~= dir_names(
                self.store@.working.take(0),
                dir@,
            ));
        }
        let mut i: usize = 0;
        let n = self.store.working.len();
        while i < n
            invariant
                n == self.store@.working.len(),
                plen == dir@.len() + 1,
                plen == prefix@.len(),
                prefix@ == dir@ + "/"@,
                i <= n,
                out@.map_values(|x: String| x@) == dir_names(
                    self.store@.working.take(i as int),
                    dir@,
                ),
            decreases n - i,
        {
            let p = self.store.working.key_at(i);
            proof {
                lemma_dir_names_snoc(
                    self.store@.working.take(i as int),
                    self.store@.working[i as int],
                    dir@,
                );
                assert(self.store@.working.take(i + 1) =~= self.store@.working.take(
                    i as int,
                ).push(self.store@.working[i as int]));
            }
            let keep: bool;
            if str_has_prefix(p.as_str(), prefix.as_str()) {
                let pl = p.unicode_len();
                let name = p.as_str().substring_char(plen, pl);
                proof {
                    assert(name@ =~= self.store@.working[i as int].0.skip(dir@.len() as int + 1));
                }
                match find_char(name, '/') {
                    Some(_) => {
                        keep = false;
                        proof {
                            assert(!in_dir(self.store@.working[i as int].0, dir@));
                        }
                    },
                    None => {
                        keep = true;
                        out.push(String::from_str(name));
                        proof {
                            assert(in_dir(self.store@.working[i as int].0, dir@));
                            assert(out@.map_values(|x: String| x@) =~= dir_names(
                                self.store@.working.take(i + 1),
                                dir@,
                            ));
                        }
                    },
                }
            } else {
                keep = false;
                proof {
                    assert(!in_dir(self.store@.working[i as int].0, dir@));
                }
            }
            if !keep {
                proof {
                    assert(out@.map_values(|x: String| x@) =~= dir_names(
                        self.store@.working.take(i + 1),
                        dir@,
                    ));
                }
            }
            i += 1;
        }
        proof {
            assert(self.store@.working.take(n as int) =~= self.store@.working);
        }
        out
    }

    /// The next free numeric id in a directory: one more than the largest
    /// `<prefix>-<number>` among its file names, 1 when none matches. An
    /// absent directory simply has no files.
    pub fn next_id(&self, dir: &str) -> (r: Result<u32, Error>)
        ensures
            r is Ok <==> max_id_num(dir_names(self.store@.working, dir@)) < u32::MAX,
            r matches Ok(n) ==> n == max_id_num(dir_names(self.store@.working, dir@)) + 1,
    {
        let names = self.names_in_dir(dir);
        next_id_from_names(&names)
    }

    /// Handles to the documents directly inside a directory, non-recursive.
    pub fn read_dir(&self, dir: &str) -> (r: Result<Vec<Document>, Error>)
        ensures
            r is Ok,
            r matches Ok(v) ==> v@.map_values(|d: Document| d@) == dir_paths(
                self.store@.working,
                dir@,
            ),
    {
        let mut prefix = String::new();
        prefix.append(dir);
        prefix.append("/");
        proof {
            reveal_strlit("/");
            assert(prefix@ =~= dir@ + "/"@);
            assert(prefix@.len() == dir@.len() + 1);
        }
        let plen = prefix.unicode_len();
        let mut out: Vec<Document> = Vec::new();
        proof {
            assert(out@.map_values(|d: Document| d@) =~= dir_paths(
                self.store@.working.take(0),
                dir@,
            ));
        }
        let mut i: usize = 0;
        let n = self.store.working.len();
        while i < n
            invariant
                n == self.store@.working.len(),
                plen == dir@.len() + 1,
                plen == prefix@.len(),
                prefix@ == dir@ + "/"@,
                i <= n,
                out@.map_values(|d: Document| d@) == dir_paths(
                    self.store@.working.take(i as int),
                    dir@,
                ),
            decreases n - i,
        {
            let p = self.store.working.key_at(i);
            proof {
                lemma_dir_names_snoc(
                    self.store@.working.take(i as int),
                    self.store@.working[i as int],
                    dir@,
                );
                assert(self.store@.working.take(i + 1) =~= self.store@.working.take(
                    i as int,
                ).push(self.store@.working[i as int]));
            }
            let keep: bool;
            if str_has_prefix(p.as_str(), prefix.as_str()) {
                let pl = p.unicode_len();
                let name = p.as_str().substring_char(plen, pl);
                proof {
                    assert(name@ =~= self.store@.working[i as int].0.skip(dir@.len() as int + 1));
                }
                match find_char(name, '/') {
                    Some(_) => {
                        keep = false;
                        proof {
                            assert(!in_dir(self.store@.working[i as int].0, dir@));
                        }
                    },
                    None => {
                        keep = true;
                        out.push(Document { path: p.clone() });
                        proof {
                            assert(in_dir(self.store@.working[i as int].0, dir@));
                            assert(out@.map_values(|d: Document| d@) =~= dir_paths(
                                self.store@.working.take(i + 1),
                                dir@,
                            ));
                        }
                    },
                }
            } else {
                keep = false;
                proof {
                    assert(!in_dir(self.store@.working[i as int].0, dir@));
                }
            }
            if !keep {
                proof {
                    assert(out@.map_values(|d: Document| d@) =~= dir_paths(
                        self.store@.working.take(i + 1),
                        dir@,
                    ));
                }
            }
            i += 1;
        }
        proof {
            assert(self.store@.working.take(n as int) =~= self.store@.working);
        }
        Ok(out)
    }

    /// Reads a document together with who created it and who last touched
    /// it; `updated` is absent when a single change did both.
    pub fn read_doc_with_meta(&self, path: &str) -> (r: Result<MetaDoc, Error>)
        ensures
            r is Ok <==> (match kv_get(self.store@.working, path@) {
                Option::Some(content) => parse_doc_spec(content, stem_of_path(path@)) is Some,
                Option::None => false,
            }) && self.store@.paths.contains(path@) && crate::changes::first_touch_idx(
                self.store@.log,
                path@,
            ) >= 0,
            r matches Ok(md) ==> {
                let log = self.store@.log;
                &&& (match kv_get(self.store@.working, path@) {
                    Option::Some(content) => Option::Some(md.doc@) == parse_doc_spec(
                        content,
                        stem_of_path(path@),
                    ),
                    Option::None => false,
                })
                &&& Option::Some(md.created@.hash) == crate::changes::first_touch(log, path@)
                &&& (md.updated is None <==> crate::changes::first_touch(log, path@)
                    == crate::changes::last_touch(log, path@))
                &&& (md.updated matches Some(u) ==> Option::Some(u@.hash)
                    == crate::changes::last_touch(log, path@))
            },
    {
        let doc = match self.read_doc(path) {
            Ok(t) => t,
            Err(e) => {
                return Err(e);
            },
        };
        let (first, last) = match self.store.first_and_last_changes(path) {
            Ok(p) => p,
            Err(e) => {
                return Err(e);
            },
        };
        proof {
            // both endpoint hashes name records in the log, so resolving
            // their headers cannot fail
            crate::changes::lemma_first_touch_idx(self.store@.log, path@);
            crate::changes::lemma_last_touch_idx(self.store@.log, path@);
            crate::changes::lemma_hash_idx(self.store@.log, first@);
            crate::changes::lemma_hash_idx(self.store@.log, last@);
        }
        let created = match self.store.change_info(first.as_str(), &self.identity, &self.known) {
            Ok(ci) => ci,
            Err(_) => {
                proof {
                    assert(false);
                }
                return Err(Error::Unknown);
            },
        };
        let updated: Option<ChangeInfo>;
        if crate::strutil::str_eq(first.as_str(), last.as_str()) {
            updated = None;
        } else {
            match self.store.change_info(last.as_str(), &self.identity, &self.known) {
                Ok(ci) => {
                    updated = Some(ci);
                },
                Err(_) => {
                    proof {
                        assert(false);
                    }
                    return Err(Error::Unknown);
                },
            }
        }
        Ok(MetaDoc { created, updated, doc })
    }
}

} // verus!
