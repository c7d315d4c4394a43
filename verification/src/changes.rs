//! The change store: per-repository state made of the followed paths, the
//! committed tree (the pristine head), the working copy, and the append-only
//! log of content-addressed change records. Recording diffs the working copy
//! against the head; an empty diff is a deliberate no-op, which makes
//! recording idempotent.

use vstd::prelude::*;

use crate::error::Error;
use crate::kv::{kv_get, kv_set, lemma_kv_set_get, StrMap};
use crate::lines::{trim, trim_str};
use crate::strutil::{dec_seq, lemma_dec_seq_injective, str_eq, u64_to_dec};
use crate::task::opt_view;

verus! {

// ---------------------------------------------------------------------------
// Identities
// ---------------------------------------------------------------------------

/// A user identity: display name, email and key pair. The secret key is
/// present only for the local signing identity.
pub struct Identity {
    pub display_name: String,
    pub email: String,
    pub public_key: String,
    pub secret_key: Option<String>,
}

/// Model of an identity.
#[verifier::ext_equal]
pub struct IdentityV {
    pub display_name: Seq<char>,
    pub email: Seq<char>,
    pub public_key: Seq<char>,
    pub secret_key: Option<Seq<char>>,
}

impl View for Identity {
    type V = IdentityV;

    open spec fn view(&self) -> IdentityV {
        IdentityV {
            display_name: self.display_name@,
            email: self.email@,
            public_key: self.public_key@,
            secret_key: opt_view(self.secret_key),
        }
    }
}

impl Identity {
    /// A copy of this identity.
    pub fn duplicate(&self) -> (r: Identity)
        ensures
            r@ == self@,
    {
        Identity {
            display_name: self.display_name.clone(),
            email: self.email.clone(),
            public_key: self.public_key.clone(),
            secret_key: crate::index::clone_opt(&self.secret_key),
        }
    }
}

// ---------------------------------------------------------------------------
// Change records
// ---------------------------------------------------------------------------

/// One committed mutation: immutable, content-addressed, append-only.
pub struct ChangeRecord {
    pub hash: String,
    pub message: String,
    pub author_key: String,
    pub timestamp_millis: u64,
    pub touched: Vec<String>,
}

/// Model of a change record.
#[verifier::ext_equal]
pub struct ChangeRecordV {
    pub hash: Seq<char>,
    pub message: Seq<char>,
    pub author_key: Seq<char>,
    pub timestamp_millis: u64,
    pub touched: Seq<Seq<char>>,
}

impl View for ChangeRecord {
    type V = ChangeRecordV;

    open spec fn view(&self) -> ChangeRecordV {
        ChangeRecordV {
            hash: self.hash@,
            message: self.message@,
            author_key: self.author_key@,
            timestamp_millis: self.timestamp_millis,
            touched: self.touched@.map_values(|p: String| p@),
        }
    }
}

/// A change record's header with its author keys resolved to display
/// identities; derived, never stored.
pub struct ChangeInfo {
    pub hash: String,
    pub authors: Vec<String>,
    pub timestamp_millis: u64,
    pub message: String,
}

/// Model of a resolved header.
#[verifier::ext_equal]
pub struct ChangeInfoV {
    pub hash: Seq<char>,
    pub authors: Seq<Seq<char>>,
    pub timestamp_millis: u64,
    pub message: Seq<char>,
}

impl View for ChangeInfo {
    type V = ChangeInfoV;

    open spec fn view(&self) -> ChangeInfoV {
        ChangeInfoV {
            hash: self.hash@,
            authors: self.authors@.map_values(|a: String| a@),
            timestamp_millis: self.timestamp_millis,
            message: self.message@,
        }
    }
}

// ---------------------------------------------------------------------------
// The store and its model
// ---------------------------------------------------------------------------

/// Per-repository state: followed paths, committed tree, working copy, and
/// the change log in apply order.
pub struct ChangeStore {
    pub paths: Vec<String>,
    pub head: StrMap,
    pub working: StrMap,
    pub log: Vec<ChangeRecord>,
}

/// Model of a store.
#[verifier::ext_equal]
pub struct StoreV {
    pub paths: Seq<Seq<char>>,
    pub head: Seq<(Seq<char>, Seq<char>)>,
    pub working: Seq<(Seq<char>, Seq<char>)>,
    pub log: Seq<ChangeRecordV>,
}

impl View for ChangeStore {
    type V = StoreV;

    open spec fn view(&self) -> StoreV {
        StoreV {
            paths: self.paths@.map_values(|p: String| p@),
            head: self.head@,
            working: self.working@,
            log: self.log@.map_values(|c: ChangeRecord| c@),
        }
    }
}

/// A path the store accepts for tracking: relative and not hidden.
pub open spec fn valid_rel_path(p: Seq<char>) -> bool {
    p.len() > 0 && p[0] != '/' && p[0] != '.'
}

/// Whether the working copy of `p` differs from the committed tree: changed
/// in place or not yet committed. A path absent from the working copy is
/// never part of a diff.
pub open spec fn path_changed(
    working: Seq<(Seq<char>, Seq<char>)>,
    head: Seq<(Seq<char>, Seq<char>)>,
    p: Seq<char>,
) -> bool {
    match kv_get(working, p) {
        Option::Some(c) => kv_get(head, p) != Option::Some(c),
        Option::None => false,
    }
}

/// The followed paths whose working copy differs from the committed tree,
/// in tracking order: the diff a record commits.
pub open spec fn changed_list(
    paths: Seq<Seq<char>>,
    working: Seq<(Seq<char>, Seq<char>)>,
    head: Seq<(Seq<char>, Seq<char>)>,
) -> Seq<Seq<char>>
    decreases paths.len(),
{
    if paths.len() == 0 {
        Seq::empty()
    } else {
        (if path_changed(working, head, paths[0]) {
            seq![paths[0]]
        } else {
            Seq::<Seq<char>>::empty()
        }) + changed_list(paths.drop_first(), working, head)
    }
}

/// The committed tree after recording: every followed path present in the
/// working copy now holds its working content.
pub open spec fn commit_head(
    paths: Seq<Seq<char>>,
    working: Seq<(Seq<char>, Seq<char>)>,
    head: Seq<(Seq<char>, Seq<char>)>,
) -> Seq<(Seq<char>, Seq<char>)>
    decreases paths.len(),
{
    if paths.len() == 0 {
        head
    } else {
        let h2 = match kv_get(working, paths[0]) {
            Option::Some(c) => kv_set(head, paths[0], c),
            Option::None => head,
        };
        commit_head(paths.drop_first(), working, h2)
    }
}

/// The hash a record gets from its position in the log: content addressing
/// modeled as a unique, deterministic name.
pub open spec fn hash_of(n: nat) -> Seq<char> {
    "c"@ + dec_seq(n)
}

/// Distinct positions give distinct hashes.
pub proof fn lemma_hash_of_injective(a: nat, b: nat)
    requires
        hash_of(a) == hash_of(b),
    ensures
        a == b,
{
    reveal_strlit("c");
    assert(dec_seq(a) =~= hash_of(a).skip(1));
    assert(dec_seq(b) =~= hash_of(b).skip(1));
    lemma_dec_seq_injective(a, b);
}

/// The record one `record` call appends.
pub open spec fn new_record(s: StoreV, msg: Seq<char>, key: Seq<char>, now: u64) -> ChangeRecordV {
    ChangeRecordV {
        hash: hash_of(s.log.len()),
        message: msg,
        author_key: key,
        timestamp_millis: now,
        touched: changed_list(s.paths, s.working, s.head),
    }
}

/// What recording does to a store: nothing when the diff is empty, else one
/// appended record and the head advanced to the working copy.
pub open spec fn record_step(s: StoreV, msg: Seq<char>, key: Seq<char>, now: u64) -> (
    StoreV,
    Option<Seq<char>>,
) {
    let ch = changed_list(s.paths, s.working, s.head);
    if ch.len() == 0 {
        (s, Option::None)
    } else {
        (
            StoreV {
                head: commit_head(s.paths, s.working, s.head),
                log: s.log.push(new_record(s, msg, key, now)),
                ..s
            },
            Option::Some(hash_of(s.log.len())),
        )
    }
}

// ---------------------------------------------------------------------------
// Lemmas about the diff and the commit
// ---------------------------------------------------------------------------

/// Appending one paths path extends the diff by that path or not at all.
proof fn lemma_changed_list_snoc(
    paths: Seq<Seq<char>>,
    x: Seq<char>,
    working: Seq<(Seq<char>, Seq<char>)>,
    head: Seq<(Seq<char>, Seq<char>)>,
)
    ensures
        changed_list(paths.push(x), working, head) == if path_changed(working, head, x) {
            changed_list(paths, working, head).push(x)
        } else {
            changed_list(paths, working, head)
        },
    decreases paths.len(),
{
    if paths.len() == 0 {
        assert(paths.push(x).drop_first() =~= Seq::<Seq<char>>::empty());
        assert(paths.push(x)[0] == x);
        assert(changed_list(Seq::<Seq<char>>::empty(), working, head) == Seq::<Seq<char>>::empty());
        if path_changed(working, head, x) {
            assert(changed_list(paths.push(x), working, head) =~= changed_list(
                paths,
                working,
                head,
            ).push(x));
        } else {
            assert(changed_list(paths.push(x), working, head) =~= changed_list(
                paths,
                working,
                head,
            ));
        }
    } else {
        assert(paths.push(x).drop_first() =~= paths.drop_first().push(x));
        assert(paths.push(x)[0] == paths[0]);
        lemma_changed_list_snoc(paths.drop_first(), x, working, head);
        if path_changed(working, head, x) {
            assert(changed_list(paths.push(x), working, head) =~= changed_list(
                paths,
                working,
                head,
            ).push(x));
        } else {
            assert(changed_list(paths.push(x), working, head) =~= changed_list(
                paths,
                working,
                head,
            ));
        }
    }
}

/// Appending one paths path commits it after the others.
proof fn lemma_commit_head_snoc(
    paths: Seq<Seq<char>>,
    x: Seq<char>,
    working: Seq<(Seq<char>, Seq<char>)>,
    head: Seq<(Seq<char>, Seq<char>)>,
)
    ensures
        commit_head(paths.push(x), working, head) == (match kv_get(working, x) {
            Option::Some(c) => kv_set(commit_head(paths, working, head), x, c),
            Option::None => commit_head(paths, working, head),
        }),
    decreases paths.len(),
{
    if paths.len() == 0 {
        assert(paths.push(x).drop_first() =~= Seq::<Seq<char>>::empty());
        assert(paths.push(x)[0] == x);
        assert(commit_head(paths, working, head) == head);
        match kv_get(working, x) {
            Option::Some(c) => {
                assert(commit_head(Seq::<Seq<char>>::empty(), working, kv_set(head, x, c))
                    == kv_set(head, x, c));
            },
            Option::None => {
                assert(commit_head(Seq::<Seq<char>>::empty(), working, head) == head);
            },
        }
    } else {
        assert(paths.push(x).drop_first() =~= paths.drop_first().push(x));
        assert(paths.push(x)[0] == paths[0]);
        let h2 = match kv_get(working, paths[0]) {
            Option::Some(c) => kv_set(head, paths[0], c),
            Option::None => head,
        };
        lemma_commit_head_snoc(paths.drop_first(), x, working, h2);
    }
}

/// What the committed tree holds after recording: the working content for
/// every followed path the working copy has, the old content elsewhere.
pub proof fn lemma_commit_head_get(
    paths: Seq<Seq<char>>,
    working: Seq<(Seq<char>, Seq<char>)>,
    head: Seq<(Seq<char>, Seq<char>)>,
    p: Seq<char>,
)
    ensures
        kv_get(commit_head(paths, working, head), p) == if paths.contains(p) && kv_get(
            working,
            p,
        ) is Some {
            kv_get(working, p)
        } else {
            kv_get(head, p)
        },
    decreases paths.len(),
{
    if paths.len() == 0 {
        assert(!paths.contains(p));
    } else {
        let h2 = match kv_get(working, paths[0]) {
            Option::Some(c) => kv_set(head, paths[0], c),
            Option::None => head,
        };
        lemma_commit_head_get(paths.drop_first(), working, h2, p);
        match kv_get(working, paths[0]) {
            Option::Some(c) => {
                lemma_kv_set_get(head, paths[0], c, p);
            },
            Option::None => {},
        }
        // membership in the whole list versus its tail
        if paths.contains(p) {
            let w = choose|w: int| 0 <= w < paths.len() && paths[w] == p;
            if w > 0 {
                assert(paths.drop_first()[w - 1] == p);
                assert(paths.drop_first().contains(p));
            }
        }
        if paths.drop_first().contains(p) {
            let w = choose|w: int|
                0 <= w < paths.drop_first().len() && paths.drop_first()[w] == p;
            assert(paths[w + 1] == p);
            assert(paths.contains(p));
        }
    }
}

/// A diff over all-unchanged paths is empty.
proof fn lemma_changed_list_empty(
    paths: Seq<Seq<char>>,
    working: Seq<(Seq<char>, Seq<char>)>,
    head: Seq<(Seq<char>, Seq<char>)>,
)
    requires
        forall|i: int|
            0 <= i < paths.len() ==> !path_changed(working, head, #[trigger] paths[i]),
    ensures
        changed_list(paths, working, head) == Seq::<Seq<char>>::empty(),
    decreases paths.len(),
{
    if paths.len() > 0 {
        assert(!path_changed(working, head, paths[0]));
        assert forall|i: int|
            0 <= i < paths.drop_first().len() implies !path_changed(
            working,
            head,
            #[trigger] paths.drop_first()[i],
        ) by {
            assert(paths.drop_first()[i] == paths[i + 1]);
        }
        lemma_changed_list_empty(paths.drop_first(), working, head);
        assert(changed_list(paths, working, head) =~= Seq::<Seq<char>>::empty());
    }
}

/// After a commit, no followed path differs from the head: the diff of the
/// new state is empty.
pub proof fn lemma_commit_clears_diff(
    paths: Seq<Seq<char>>,
    working: Seq<(Seq<char>, Seq<char>)>,
    head: Seq<(Seq<char>, Seq<char>)>,
)
    ensures
        changed_list(paths, working, commit_head(paths, working, head))
            == Seq::<Seq<char>>::empty(),
{
    let h2 = commit_head(paths, working, head);
    assert forall|i: int|
        0 <= i < paths.len() implies !path_changed(working, h2, #[trigger] paths[i]) by {
        lemma_commit_head_get(paths, working, head, paths[i]);
        assert(paths.contains(paths[i]));
    }
    lemma_changed_list_empty(paths, working, h2);
}

// ---------------------------------------------------------------------------
// The idempotence law
// ---------------------------------------------------------------------------

/// Recording twice with no intervening file change commits exactly once:
/// the first call leaves an empty diff, so the second is a no-op that
/// leaves the store — and with it every per-path history — unchanged.
pub proof fn lemma_record_idempotent(
    s: StoreV,
    msg1: Seq<char>,
    msg2: Seq<char>,
    key1: Seq<char>,
    key2: Seq<char>,
    now1: u64,
    now2: u64,
)
    ensures
        ({
            let (s1, r1) = record_step(s, msg1, key1, now1);
            let (s2, r2) = record_step(s1, msg2, key2, now2);
            &&& s2 == s1
            &&& r2 is None
            &&& s1.log.len() <= s.log.len() + 1
        }),
{
    let (s1, r1) = record_step(s, msg1, key1, now1);
    let ch = changed_list(s.paths, s.working, s.head);
    if ch.len() == 0 {
    } else {
        lemma_commit_clears_diff(s.paths, s.working, s.head);
        assert(changed_list(s1.paths, s1.working, s1.head) == Seq::<Seq<char>>::empty());
    }
}

// ---------------------------------------------------------------------------
// Per-path history
// ---------------------------------------------------------------------------

/// Whether a change touched the file at `p`.
pub open spec fn touches(c: ChangeRecordV, p: Seq<char>) -> bool {
    c.touched.contains(p)
}

/// Hashes of the changes touching `p`, most recent first.
pub open spec fn rev_hashes(log: Seq<ChangeRecordV>, p: Seq<char>) -> Seq<Seq<char>>
    decreases log.len(),
{
    if log.len() == 0 {
        Seq::empty()
    } else {
        (if touches(log.last(), p) {
            seq![log.last().hash]
        } else {
            Seq::<Seq<char>>::empty()
        }) + rev_hashes(log.drop_last(), p)
    }
}

/// Index of the oldest change touching `p`, or -1.
pub open spec fn first_touch_idx(log: Seq<ChangeRecordV>, p: Seq<char>) -> int
    decreases log.len(),
{
    if log.len() == 0 {
        -1
    } else if touches(log[0], p) {
        0
    } else {
        let r = first_touch_idx(log.drop_first(), p);
        if r < 0 {
            -1
        } else {
            1 + r
        }
    }
}

/// Index of the newest change touching `p`, or -1.
pub open spec fn last_touch_idx(log: Seq<ChangeRecordV>, p: Seq<char>) -> int
    decreases log.len(),
{
    if log.len() == 0 {
        -1
    } else if touches(log.last(), p) {
        log.len() - 1
    } else {
        last_touch_idx(log.drop_last(), p)
    }
}

/// Hash of the change that created the file at `p`, if any.
pub open spec fn first_touch(log: Seq<ChangeRecordV>, p: Seq<char>) -> Option<Seq<char>> {
    let i = first_touch_idx(log, p);
    if i < 0 {
        Option::None
    } else {
        Option::Some(log[i].hash)
    }
}

/// Hash of the change that last touched the file at `p`, if any.
pub open spec fn last_touch(log: Seq<ChangeRecordV>, p: Seq<char>) -> Option<Seq<char>> {
    let i = last_touch_idx(log, p);
    if i < 0 {
        Option::None
    } else {
        Option::Some(log[i].hash)
    }
}

/// What `first_touch_idx` means: the least touching index, or -1.
pub proof fn lemma_first_touch_idx(log: Seq<ChangeRecordV>, p: Seq<char>)
    ensures
        first_touch_idx(log, p) >= 0 ==> {
            &&& first_touch_idx(log, p) < log.len()
            &&& touches(log[first_touch_idx(log, p)], p)
            &&& forall|j: int| 0 <= j < first_touch_idx(log, p) ==> !touches(#[trigger] log[j], p)
        },
        first_touch_idx(log, p) < 0 ==> forall|j: int|
            0 <= j < log.len() ==> !touches(#[trigger] log[j], p),
    decreases log.len(),
{
    if log.len() > 0 && !touches(log[0], p) {
        let t = log.drop_first();
        lemma_first_touch_idx(t, p);
        if first_touch_idx(t, p) >= 0 {
            let r = first_touch_idx(t, p);
            assert(log[1 + r] == t[r]);
            assert forall|j: int| 0 <= j < 1 + r implies !touches(#[trigger] log[j], p) by {
                if j > 0 {
                    assert(log[j] == t[j - 1]);
                }
            }
        } else {
            assert forall|j: int| 0 <= j < log.len() implies !touches(#[trigger] log[j], p) by {
                if j > 0 {
                    assert(log[j] == t[j - 1]);
                }
            }
        }
    }
}

/// What `last_touch_idx` means: the greatest touching index, or -1.
pub proof fn lemma_last_touch_idx(log: Seq<ChangeRecordV>, p: Seq<char>)
    ensures
        last_touch_idx(log, p) >= 0 ==> {
            &&& last_touch_idx(log, p) < log.len()
            &&& touches(log[last_touch_idx(log, p)], p)
            &&& forall|j: int|
                last_touch_idx(log, p) < j < log.len() ==> !touches(#[trigger] log[j], p)
        },
        last_touch_idx(log, p) < 0 ==> forall|j: int|
            0 <= j < log.len() ==> !touches(#[trigger] log[j], p),
    decreases log.len(),
{
    if log.len() > 0 && !touches(log.last(), p) {
        let t = log.drop_last();
        lemma_last_touch_idx(t, p);
        assert forall|j: int| 0 <= j < log.len() - 1 implies t[j] == log[j] by {}
    }
}

/// Prepending an older change appends its hash to the newest-first list.
proof fn lemma_rev_hashes_cons(x: ChangeRecordV, s: Seq<ChangeRecordV>, p: Seq<char>)
    ensures
        rev_hashes(seq![x] + s, p) == rev_hashes(s, p) + (if touches(x, p) {
            seq![x.hash]
        } else {
            Seq::<Seq<char>>::empty()
        }),
    decreases s.len(),
{
    if s.len() == 0 {
        assert(seq![x] + s =~= seq![x]);
        assert(rev_hashes(s, p) == Seq::<Seq<char>>::empty());
        assert((seq![x]).last() == x);
        assert((seq![x]).drop_last() =~= Seq::<ChangeRecordV>::empty());
        assert(rev_hashes(Seq::<ChangeRecordV>::empty(), p) == Seq::<Seq<char>>::empty());
        if touches(x, p) {
            assert(rev_hashes(seq![x] + s, p) =~= rev_hashes(s, p) + seq![x.hash]);
        } else {
            assert(rev_hashes(seq![x] + s, p) =~= rev_hashes(s, p));
        }
    } else {
        let w = seq![x] + s;
        assert(w.last() == s.last());
        assert(w.drop_last() =~= seq![x] + s.drop_last());
        lemma_rev_hashes_cons(x, s.drop_last(), p);
        if touches(x, p) {
            assert(rev_hashes(w, p) =~= rev_hashes(s, p) + seq![x.hash]);
        } else {
            assert(rev_hashes(w, p) =~= rev_hashes(s, p));
        }
    }
}

/// Well-formed log: every record is named by its position.
pub open spec fn wf_log(log: Seq<ChangeRecordV>) -> bool {
    forall|i: int| 0 <= i < log.len() ==> (#[trigger] log[i]).hash == hash_of(i as nat)
}

/// Recording preserves well-formedness of the log.
pub proof fn lemma_record_preserves_wf(s: StoreV, msg: Seq<char>, key: Seq<char>, now: u64)
    requires
        wf_log(s.log),
    ensures
        wf_log(record_step(s, msg, key, now).0.log),
{
    let s2 = record_step(s, msg, key, now).0;
    assert forall|i: int| 0 <= i < s2.log.len() implies (#[trigger] s2.log[i]).hash == hash_of(
        i as nat,
    ) by {
        if i < s.log.len() {
            assert(s2.log[i] == s.log[i]);
        }
    }
}

/// The history-endpoint law: a document touched by exactly one change has
/// equal endpoints; one touched by several has the creation strictly before
/// the latest change, under distinct hashes.
pub proof fn lemma_first_last_endpoints(log: Seq<ChangeRecordV>, p: Seq<char>)
    requires
        wf_log(log),
    ensures
        first_touch_idx(log, p) == last_touch_idx(log, p) ==> first_touch(log, p) == last_touch(
            log,
            p,
        ),
        first_touch_idx(log, p) >= 0 ==> last_touch_idx(log, p) >= first_touch_idx(log, p),
        first_touch_idx(log, p) >= 0 && first_touch_idx(log, p) != last_touch_idx(log, p) ==> {
            &&& first_touch_idx(log, p) < last_touch_idx(log, p)
            &&& first_touch(log, p) is Some
            &&& last_touch(log, p) is Some
            &&& first_touch(log, p) != last_touch(log, p)
        },
{
    lemma_first_touch_idx(log, p);
    lemma_last_touch_idx(log, p);
    let fi = first_touch_idx(log, p);
    let li = last_touch_idx(log, p);
    if fi >= 0 {
        if li < 0 {
            assert(!touches(log[fi], p));
        }
        if li < fi {
            assert(!touches(log[fi], p));
        }
        if fi != li {
            assert(log[fi].hash == hash_of(fi as nat));
            assert(log[li].hash == hash_of(li as nat));
            if log[fi].hash == log[li].hash {
                lemma_hash_of_injective(fi as nat, li as nat);
            }
        }
    }
}

// ---------------------------------------------------------------------------
// Author resolution
// ---------------------------------------------------------------------------

/// Index of the first known identity bearing the key, or -1.
pub open spec fn known_idx(known: Seq<IdentityV>, key: Seq<char>) -> int
    decreases known.len(),
{
    if known.len() == 0 {
        -1
    } else if known[0].public_key == key {
        0
    } else {
        let r = known_idx(known.drop_first(), key);
        if r < 0 {
            -1
        } else {
            1 + r
        }
    }
}

/// What `known_idx` means: the least index bearing the key, or -1.
pub proof fn lemma_known_idx(known: Seq<IdentityV>, key: Seq<char>)
    ensures
        known_idx(known, key) >= 0 ==> {
            &&& known_idx(known, key) < known.len()
            &&& known[known_idx(known, key)].public_key == key
            &&& forall|j: int|
                0 <= j < known_idx(known, key) ==> (#[trigger] known[j]).public_key != key
        },
        known_idx(known, key) < 0 ==> forall|j: int|
            0 <= j < known.len() ==> (#[trigger] known[j]).public_key != key,
    decreases known.len(),
{
    if known.len() > 0 && known[0].public_key != key {
        let t = known.drop_first();
        lemma_known_idx(t, key);
        if known_idx(t, key) >= 0 {
            let r = known_idx(t, key);
            assert(known[1 + r] == t[r]);
            assert forall|j: int|
                0 <= j < 1 + r implies (#[trigger] known[j]).public_key != key by {
                if j > 0 {
                    assert(known[j] == t[j - 1]);
                }
            }
        } else {
            assert forall|j: int|
                0 <= j < known.len() implies (#[trigger] known[j]).public_key != key by {
                if j > 0 {
                    assert(known[j] == t[j - 1]);
                }
            }
        }
    }
}

/// The display form a key resolves to: the current identity's email first,
/// then the per-repository cache of known keys, then the key itself as a
/// placeholder — a header is rendered rather than aborted on.
pub open spec fn resolve_email(cur: IdentityV, known: Seq<IdentityV>, key: Seq<char>) -> Seq<char> {
    if cur.public_key == key {
        cur.email
    } else {
        let i = known_idx(known, key);
        if i >= 0 {
            known[i].email
        } else {
            key
        }
    }
}

/// The resolved header of one change record.
pub open spec fn info_of(c: ChangeRecordV, cur: IdentityV, known: Seq<IdentityV>) -> ChangeInfoV {
    ChangeInfoV {
        hash: c.hash,
        authors: seq![resolve_email(cur, known, c.author_key)],
        timestamp_millis: c.timestamp_millis,
        message: c.message,
    }
}

/// Resolves a public key to an identity: the current identity first, then
/// the per-repository cache; a key known to neither is not found, and the
/// caller renders a placeholder rather than aborting.
pub fn resolve_author(current: &Identity, known: &Vec<Identity>, key: &str) -> (r: Result<
    Identity,
    Error,
>)
    ensures
        r is Ok <==> (current@.public_key == key@ || known_idx(
            known@.map_values(|x: Identity| x@),
            key@,
        ) >= 0),
        r matches Ok(ident) ==> ident@ == (if current@.public_key == key@ {
            current@
        } else {
            known@.map_values(|x: Identity| x@)[known_idx(
                known@.map_values(|x: Identity| x@),
                key@,
            )]
        }),
        r matches Err(e) ==> e is NotFound,
{
    let ghost kv = known@.map_values(|x: Identity| x@);
    if str_eq(current.public_key.as_str(), key) {
        return Ok(current.duplicate());
    }
    let mut i: usize = 0;
    while i < known.len()
        invariant
            kv == known@.map_values(|x: Identity| x@),
            kv.len() == known@.len(),
            i <= known.len(),
            current@.public_key != key@,
            forall|j: int| 0 <= j < i ==> (#[trigger] kv[j]).public_key != key@,
        decreases known.len() - i,
    {
        if str_eq(known[i].public_key.as_str(), key) {
            proof {
                lemma_known_idx(kv, key@);
                assert(kv[i as int].public_key == key@);
                if known_idx(kv, key@) < 0 {
                    assert(false);
                }
                if known_idx(kv, key@) < i {
                    assert(kv[known_idx(kv, key@)].public_key != key@);
                    assert(false);
                }
                if known_idx(kv, key@) > i {
                    assert(kv[i as int].public_key != key@);
                    assert(false);
                }
                assert(kv[i as int] == known@[i as int]@);
            }
            return Ok(known[i].duplicate());
        }
        i += 1;
    }
    proof {
        lemma_known_idx(kv, key@);
        if known_idx(kv, key@) >= 0 {
            assert(kv[known_idx(kv, key@)].public_key != key@);
        }
    }
    Err(Error::NotFound(String::from_str(key)))
}

/// Index of the first record bearing the hash, or -1.
pub open spec fn hash_idx(log: Seq<ChangeRecordV>, h: Seq<char>) -> int
    decreases log.len(),
{
    if log.len() == 0 {
        -1
    } else if log[0].hash == h {
        0
    } else {
        let r = hash_idx(log.drop_first(), h);
        if r < 0 {
            -1
        } else {
            1 + r
        }
    }
}

/// What `hash_idx` means: the least index bearing the hash, or -1.
pub proof fn lemma_hash_idx(log: Seq<ChangeRecordV>, h: Seq<char>)
    ensures
        hash_idx(log, h) >= 0 ==> {
            &&& hash_idx(log, h) < log.len()
            &&& log[hash_idx(log, h)].hash == h
            &&& forall|j: int| 0 <= j < hash_idx(log, h) ==> (#[trigger] log[j]).hash != h
        },
        hash_idx(log, h) < 0 ==> forall|j: int|
            0 <= j < log.len() ==> (#[trigger] log[j]).hash != h,
    decreases log.len(),
{
    if log.len() > 0 && log[0].hash != h {
        let t = log.drop_first();
        lemma_hash_idx(t, h);
        if hash_idx(t, h) >= 0 {
            let r = hash_idx(t, h);
            assert(log[1 + r] == t[r]);
            assert forall|j: int| 0 <= j < 1 + r implies (#[trigger] log[j]).hash != h by {
                if j > 0 {
                    assert(log[j] == t[j - 1]);
                }
            }
        } else {
            assert forall|j: int| 0 <= j < log.len() implies (#[trigger] log[j]).hash != h by {
                if j > 0 {
                    assert(log[j] == t[j - 1]);
                }
            }
        }
    }
}

/// Whether the change touched the path.
fn touches_exec(c: &ChangeRecord, p: &str) -> (r: bool)
    ensures
        r == touches(c@, p@),
{
    let mut i: usize = 0;
    while i < c.touched.len()
        invariant
            c@.touched.len() == c.touched@.len(),
            c@.touched == c.touched@.map_values(|x: String| x@),
            i <= c.touched.len(),
            forall|j: int| 0 <= j < i ==> c@.touched[j] != p@,
        decreases c.touched.len() - i,
    {
        if str_eq(c.touched[i].as_str(), p) {
            assert(c@.touched[i as int] == p@);
            return true;
        }
        i += 1;
    }
    proof {
        if c@.touched.contains(p@) {
            let w = choose|w: int| 0 <= w < c@.touched.len() && c@.touched[w] == p@;
            assert(c@.touched[w] != p@);
        }
    }
    false
}

// ---------------------------------------------------------------------------
// Executable store
// ---------------------------------------------------------------------------

impl ChangeStore {
    /// An empty repository: nothing paths, nothing committed, no changes.
    pub fn new() -> (r: ChangeStore)
        ensures
            r@.paths == Seq::<Seq<char>>::empty(),
            r@.head == Seq::<(Seq<char>, Seq<char>)>::empty(),
            r@.working == Seq::<(Seq<char>, Seq<char>)>::empty(),
            r@.log == Seq::<ChangeRecordV>::empty(),
    {
        let r = ChangeStore {
            paths: Vec::new(),
            head: StrMap::new(),
            working: StrMap::new(),
            log: Vec::new(),
        };
        proof {
            assert(r@.paths =~= Seq::<Seq<char>>::empty());
            assert(r@.log =~= Seq::<ChangeRecordV>::empty());
        }
        r
    }

    /// Writes a file in the working copy, truncating any earlier content.
    pub fn write_file(&mut self, path: &str, content: String)
        ensures
            final(self)@ == (StoreV { working: kv_set(old(self)@.working, path@, content@), ..old(
                self,
            )@ }),
    {
        self.working.set(path, content);
        proof {
            assert(final(self)@ =~= (StoreV {
                working: kv_set(old(self)@.working, path@, content@),
                ..old(self)@
            }));
        }
    }

    /// The working-copy content of a path, if the file exists.
    pub fn read_file(&self, path: &str) -> (r: Option<&String>)
        ensures
            match r {
                Some(c) => kv_get(self@.working, path@) == Option::Some(c@),
                None => kv_get(self@.working, path@) is None,
            },
    {
        self.working.get(path)
    }

    /// Whether the path is already under version control.
    fn has_path(&self, path: &str) -> (r: bool)
        ensures
            r == self@.paths.contains(path@),
    {
        let mut i: usize = 0;
        while i < self.paths.len()
            invariant
                self@.paths.len() == self.paths@.len(),
                self@.paths == self.paths@.map_values(|p: String| p@),
                i <= self.paths.len(),
                forall|j: int| 0 <= j < i ==> self@.paths[j] != path@,
            decreases self.paths.len() - i,
        {
            if str_eq(self.paths[i].as_str(), path) {
                assert(self@.paths[i as int] == path@);
                return true;
            }
            i += 1;
        }
        proof {
            if self@.paths.contains(path@) {
                let w = choose|w: int|
                    0 <= w < self@.paths.len() && self@.paths[w] == path@;
                assert(self@.paths[w] != path@);
            }
        }
        false
    }

    /// Starts following a path; an already-followed path is accepted again
    /// without effect. An absolute or hidden path is invalid.
    pub fn track(&mut self, path: &str) -> (r: Result<(), Error>)
        ensures
            r is Ok <==> valid_rel_path(path@),
            r is Ok ==> final(self)@ == (StoreV {
                paths: if old(self)@.paths.contains(path@) {
                    old(self)@.paths
                } else {
                    old(self)@.paths.push(path@)
                },
                ..old(self)@
            }),
            r matches Err(e) ==> e is Msg && *final(self) == *old(self),
    {
        let len = path.unicode_len();
        if len == 0 {
            return Err(Error::Msg(String::from_str("Invalid path")));
        }
        let c0 = path.get_char(0);
        if c0 == '/' || c0 == '.' {
            return Err(Error::Msg(String::from_str("Invalid path")));
        }
        if self.has_path(path) {
            proof {
                assert(final(self)@ =~= (StoreV { paths: old(self)@.paths, ..old(self)@ }));
            }
            return Ok(());
        }
        self.paths.push(String::from_str(path));
        proof {
            assert(final(self)@ =~= (StoreV {
                paths: old(self)@.paths.push(path@),
                ..old(self)@
            }));
        }
        Ok(())
    }

    /// The followed paths of the diff the next record would commit.
    fn diff_paths(&self) -> (r: Vec<String>)
        ensures
            r@.map_values(|p: String| p@) == changed_list(self@.paths, self@.working, self@.head),
    {
        let mut out: Vec<String> = Vec::new();
        proof {
            assert(out@.map_values(|p: String| p@) =~= changed_list(
                self@.paths.take(0),
                self@.working,
                self@.head,
            ));
        }
        let mut i: usize = 0;
        while i < self.paths.len()
            invariant
                self@.paths.len() == self.paths@.len(),
                self@.paths == self.paths@.map_values(|p: String| p@),
                i <= self.paths.len(),
                out@.map_values(|p: String| p@) == changed_list(
                    self@.paths.take(i as int),
                    self@.working,
                    self@.head,
                ),
            decreases self.paths.len() - i,
        {
            let p = &self.paths[i];
            let changed: bool = match self.working.get(p.as_str()) {
                Some(c) => {
                    match self.head.get(p.as_str()) {
                        Some(hc) => !str_eq(c.as_str(), hc.as_str()),
                        None => true,
                    }
                },
                None => false,
            };
            proof {
                assert(changed == path_changed(
                    self@.working,
                    self@.head,
                    self@.paths[i as int],
                ));
                lemma_changed_list_snoc(
                    self@.paths.take(i as int),
                    self@.paths[i as int],
                    self@.working,
                    self@.head,
                );
                assert(self@.paths.take(i + 1) =~= self@.paths.take(i as int).push(
                    self@.paths[i as int],
                ));
            }
            if changed {
                out.push(p.clone());
                proof {
                    assert(out@.map_values(|p: String| p@) =~= changed_list(
                        self@.paths.take(i + 1),
                        self@.working,
                        self@.head,
                    ));
                }
            } else {
                proof {
                    assert(out@.map_values(|p: String| p@) =~= changed_list(
                        self@.paths.take(i + 1),
                        self@.working,
                        self@.head,
                    ));
                }
            }
            i += 1;
        }
        proof {
            assert(self@.paths.take(self.paths@.len() as int) =~= self@.paths);
        }
        out
    }

    /// Records the working-copy diff as one signed change: a no-op when the
    /// diff is empty — recording is idempotent — and an error only when
    /// there is a diff but no message to name it.
    pub fn record(&mut self, msg: &str, author_key: &str, now_millis: u64) -> (r: Result<
        Option<String>,
        Error,
    >)
        ensures
            r is Ok <==> !(changed_list(old(self)@.paths, old(self)@.working, old(self)@.head).len()
                > 0 && trim(msg@).len() == 0),
            r matches Ok(h) ==> {
                let (s2, rh) = record_step(old(self)@, msg@, author_key@, now_millis);
                final(self)@ == s2 && opt_view(h) == rh
            },
            r is Err ==> *final(self) == *old(self),
            r matches Err(e) ==> e is Msg,
            r is Ok ==> changed_list(final(self)@.paths, final(self)@.working, final(self)@.head)
                == Seq::<Seq<char>>::empty(),
    {
        let changed = self.diff_paths();
        if changed.len() == 0 {
            proof {
                assert(changed_list(self@.paths, self@.working, self@.head)
                    =~= Seq::<Seq<char>>::empty());
            }
            return Ok(None);
        }
        let trimmed = trim_str(msg);
        if trimmed.unicode_len() == 0 {
            return Err(Error::Msg(String::from_str("No change message")));
        }
        // name the record after its position in the log
        let mut hash = String::new();
        hash.append("c");
        let dec = u64_to_dec(self.log.len() as u64);
        hash.append(dec.as_str());
        proof {
            assert(hash@ =~= hash_of(old(self)@.log.len()));
        }
        // advance the committed tree to the working copy
        let ghost w0 = self@.working;
        let ghost h0 = self@.head;
        let ghost t0 = self@.paths;
        let mut i: usize = 0;
        while i < self.paths.len()
            invariant
                self@.paths.len() == self.paths@.len(),
                self@.paths == self.paths@.map_values(|p: String| p@),
                self@.paths == t0,
                self@.working == w0,
                self@.log == old(self)@.log,
                i <= self.paths.len(),
                self@.head == commit_head(t0.take(i as int), w0, h0),
            decreases self.paths.len() - i,
        {
            let content: Option<String> = match self.working.get(self.paths[i].as_str()) {
                Some(c) => Some(c.clone()),
                None => None,
            };
            proof {
                lemma_commit_head_snoc(t0.take(i as int), t0[i as int], w0, h0);
                assert(t0.take(i + 1) =~= t0.take(i as int).push(t0[i as int]));
            }
            match content {
                Some(c) => {
                    let p = self.paths[i].clone();
                    self.head.set(p.as_str(), c);
                },
                None => {},
            }
            i += 1;
        }
        proof {
            assert(t0.take(self.paths@.len() as int) =~= t0);
        }
        // append the change record
        let rec = ChangeRecord {
            hash: hash.clone(),
            message: String::from_str(msg),
            author_key: String::from_str(author_key),
            timestamp_millis: now_millis,
            touched: changed,
        };
        self.log.push(rec);
        proof {
            let (s2, rh) = record_step(old(self)@, msg@, author_key@, now_millis);
            assert(self@.log =~= s2.log);
            assert(self@ =~= s2);
            lemma_commit_clears_diff(t0, w0, h0);
        }
        Ok(Some(hash))
    }

    /// The hashes of the changes that touched the file at `path`, most
    /// recent first; a path never put under version control is not found.
    pub fn changes_for_path(&self, path: &str) -> (r: Result<Vec<String>, Error>)
        ensures
            r is Ok <==> self@.paths.contains(path@),
            r matches Ok(v) ==> v@.map_values(|h: String| h@) == rev_hashes(self@.log, path@),
            r matches Err(e) ==> e is NotFound,
    {
        if !self.has_path(path) {
            return Err(Error::NotFound(String::from_str(path)));
        }
        let ghost lv = self@.log;
        let mut out: Vec<String> = Vec::new();
        let mut i: usize = self.log.len();
        proof {
            assert(lv.skip(i as int) =~= Seq::<ChangeRecordV>::empty());
            assert(out@.map_values(|h: String| h@) =~= rev_hashes(lv.skip(i as int), path@));
        }
        while i > 0
            invariant
                lv == self@.log,
                lv.len() == self.log@.len(),
                i <= self.log.len(),
                out@.map_values(|h: String| h@) == rev_hashes(lv.skip(i as int), path@),
            decreases i,
        {
            let t = touches_exec(&self.log[i - 1], path);
            proof {
                assert(lv.skip(i - 1) =~= seq![lv[i - 1]] + lv.skip(i as int));
                lemma_rev_hashes_cons(lv[i - 1], lv.skip(i as int), path@);
            }
            if t {
                out.push(self.log[i - 1].hash.clone());
                proof {
                    assert(out@.map_values(|h: String| h@) =~= rev_hashes(lv.skip(i - 1), path@));
                }
            } else {
                proof {
                    assert(out@.map_values(|h: String| h@) =~= rev_hashes(lv.skip(i - 1), path@));
                }
            }
            i -= 1;
        }
        proof {
            assert(lv.skip(0) =~= lv);
        }
        Ok(out)
    }

    /// The hashes of the oldest and the newest change touching `path`,
    /// equal when exactly one change touched it; not found for a path never
    /// put under version control or never committed.
    pub fn first_and_last_changes(&self, path: &str) -> (r: Result<(String, String), Error>)
        ensures
            r is Ok <==> self@.paths.contains(path@) && first_touch_idx(self@.log, path@) >= 0,
            r matches Ok(pair) ==> Option::Some(pair.0@) == first_touch(self@.log, path@)
                && Option::Some(pair.1@) == last_touch(self@.log, path@),
            r matches Err(e) ==> e is NotFound,
    {
        if !self.has_path(path) {
            return Err(Error::NotFound(String::from_str(path)));
        }
        let fi = match find_first_touch(&self.log, path) {
            Some(fi) => fi,
            None => {
                return Err(Error::NotFound(String::from_str(path)));
            },
        };
        let li = match find_last_touch(&self.log, path) {
            Some(li) => li,
            None => {
                proof {
                    lemma_first_touch_idx(self@.log, path@);
                    lemma_last_touch_idx(self@.log, path@);
                    assert(touches(self@.log[first_touch_idx(self@.log, path@)], path@));
                    assert(!touches(self@.log[first_touch_idx(self@.log, path@)], path@));
                }
                return Err(Error::NotFound(String::from_str(path)));
            },
        };
        Ok((self.log[fi].hash.clone(), self.log[li].hash.clone()))
    }

    /// The resolved header of the change with the given hash: author keys
    /// become display identities, an unknown key its own placeholder. An
    /// absent hash is not found.
    pub fn change_info(&self, hash: &str, current: &Identity, known: &Vec<Identity>) -> (r: Result<
        ChangeInfo,
        Error,
    >)
        ensures
            r is Ok <==> hash_idx(self@.log, hash@) >= 0,
            r matches Ok(ci) ==> ci@ == info_of(
                self@.log[hash_idx(self@.log, hash@)],
                current@,
                known@.map_values(|x: Identity| x@),
            ),
            r matches Err(e) ==> e is NotFound,
    {
        let ghost kv = known@.map_values(|x: Identity| x@);
        let i = match find_hash(&self.log, hash) {
            Some(i) => i,
            None => {
                return Err(Error::NotFound(String::from_str(hash)));
            },
        };
        let rec = &self.log[i];
        let email: String;
        if str_eq(current.public_key.as_str(), rec.author_key.as_str()) {
            email = current.email.clone();
        } else {
            match find_known(known, rec.author_key.as_str()) {
                Some(j) => {
                    proof {
                        assert(kv[j as int] == known@[j as int]@);
                    }
                    email = known[j].email.clone();
                },
                None => {
                    email = rec.author_key.clone();
                },
            }
        }
        let mut authors: Vec<String> = Vec::new();
        authors.push(email);
        let ci = ChangeInfo {
            hash: rec.hash.clone(),
            authors,
            timestamp_millis: rec.timestamp_millis,
            message: rec.message.clone(),
        };
        proof {
            assert(ci@.authors =~= seq![
                resolve_email(current@, kv, self@.log[i as int].author_key),
            ]);
            assert(ci@ =~= info_of(self@.log[i as int], current@, kv));
        }
        Ok(ci)
    }
}

/// Index of the oldest change touching the path, if any.
fn find_first_touch(log: &Vec<ChangeRecord>, path: &str) -> (r: Option<usize>)
    ensures
        ({
            let lv = log@.map_values(|c: ChangeRecord| c@);
            match r {
                Some(i) => first_touch_idx(lv, path@) == i && i < lv.len(),
                None => first_touch_idx(lv, path@) < 0,
            }
        }),
{
    let ghost lv = log@.map_values(|c: ChangeRecord| c@);
    let mut i: usize = 0;
    while i < log.len()
        invariant
            lv == log@.map_values(|c: ChangeRecord| c@),
            lv.len() == log@.len(),
            i <= log.len(),
            forall|j: int| 0 <= j < i ==> !touches(#[trigger] lv[j], path@),
        decreases log.len() - i,
    {
        if touches_exec(&log[i], path) {
            proof {
                lemma_first_touch_idx(lv, path@);
                assert(touches(lv[i as int], path@));
                if first_touch_idx(lv, path@) < 0 {
                    assert(false);
                }
                if first_touch_idx(lv, path@) < i {
                    assert(!touches(lv[first_touch_idx(lv, path@)], path@));
                    assert(false);
                }
                if first_touch_idx(lv, path@) > i {
                    assert(!touches(lv[i as int], path@));
                    assert(false);
                }
            }
            return Some(i);
        }
        i += 1;
    }
    proof {
        lemma_first_touch_idx(lv, path@);
        if first_touch_idx(lv, path@) >= 0 {
            assert(!touches(lv[first_touch_idx(lv, path@)], path@));
        }
    }
    None
}

/// Index of the newest change touching the path, if any.
fn find_last_touch(log: &Vec<ChangeRecord>, path: &str) -> (r: Option<usize>)
    ensures
        ({
            let lv = log@.map_values(|c: ChangeRecord| c@);
            match r {
                Some(i) => last_touch_idx(lv, path@) == i && i < lv.len(),
                None => last_touch_idx(lv, path@) < 0,
            }
        }),
{
    let ghost lv = log@.map_values(|c: ChangeRecord| c@);
    let mut i: usize = log.len();
    while i > 0
        invariant
            lv == log@.map_values(|c: ChangeRecord| c@),
            lv.len() == log@.len(),
            i <= log.len(),
            forall|j: int| i <= j < lv.len() ==> !touches(#[trigger] lv[j], path@),
        decreases i,
    {
        if touches_exec(&log[i - 1], path) {
            proof {
                lemma_last_touch_idx(lv, path@);
                assert(touches(lv[i - 1], path@));
                if last_touch_idx(lv, path@) < 0 {
                    assert(false);
                }
                if last_touch_idx(lv, path@) < i - 1 {
                    assert(!touches(lv[i - 1], path@));
                    assert(false);
                }
                if last_touch_idx(lv, path@) > i - 1 {
                    assert(!touches(lv[last_touch_idx(lv, path@)], path@));
                    assert(false);
                }
            }
            return Some(i - 1);
        }
        i -= 1;
    }
    proof {
        lemma_last_touch_idx(lv, path@);
        if last_touch_idx(lv, path@) >= 0 {
            assert(!touches(lv[last_touch_idx(lv, path@)], path@));
        }
    }
    None
}

/// Index of the first record bearing the hash, if any.
fn find_hash(log: &Vec<ChangeRecord>, h: &str) -> (r: Option<usize>)
    ensures
        ({
            let lv = log@.map_values(|c: ChangeRecord| c@);
            match r {
                Some(i) => hash_idx(lv, h@) == i && i < lv.len(),
                None => hash_idx(lv, h@) < 0,
            }
        }),
{
    let ghost lv = log@.map_values(|c: ChangeRecord| c@);
    let mut i: usize = 0;
    while i < log.len()
        invariant
            lv == log@.map_values(|c: ChangeRecord| c@),
            lv.len() == log@.len(),
            i <= log.len(),
            forall|j: int| 0 <= j < i ==> (#[trigger] lv[j]).hash != h@,
        decreases log.len() - i,
    {
        if str_eq(log[i].hash.as_str(), h) {
            proof {
                lemma_hash_idx(lv, h@);
                assert(lv[i as int].hash == h@);
                if hash_idx(lv, h@) < 0 {
                    assert(false);
                }
                if hash_idx(lv, h@) < i {
                    assert(lv[hash_idx(lv, h@)].hash != h@);
                    assert(false);
                }
                if hash_idx(lv, h@) > i {
                    assert(lv[i as int].hash != h@);
                    assert(false);
                }
            }
            return Some(i);
        }
        i += 1;
    }
    proof {
        lemma_hash_idx(lv, h@);
        if hash_idx(lv, h@) >= 0 {
            assert(lv[hash_idx(lv, h@)].hash != h@);
        }
    }
    None
}

/// Index of the first known identity bearing the key, if any.
fn find_known(known: &Vec<Identity>, key: &str) -> (r: Option<usize>)
    ensures
        ({
            let kv = known@.map_values(|x: Identity| x@);
            match r {
                Some(i) => known_idx(kv, key@) == i && i < kv.len(),
                None => known_idx(kv, key@) < 0,
            }
        }),
{
    let ghost kv = known@.map_values(|x: Identity| x@);
    let mut i: usize = 0;
    while i < known.len()
        invariant
            kv == known@.map_values(|x: Identity| x@),
            kv.len() == known@.len(),
            i <= known.len(),
            forall|j: int| 0 <= j < i ==> (#[trigger] kv[j]).public_key != key@,
        decreases known.len() - i,
    {
        if str_eq(known[i].public_key.as_str(), key) {
            proof {
                lemma_known_idx(kv, key@);
                assert(kv[i as int].public_key == key@);
                if known_idx(kv, key@) < 0 {
                    assert(false);
                }
                if known_idx(kv, key@) < i {
                    assert(kv[known_idx(kv, key@)].public_key != key@);
                    assert(false);
                }
                if known_idx(kv, key@) > i {
                    assert(kv[i as int].public_key != key@);
                    assert(false);
                }
            }
            return Some(i);
        }
        i += 1;
    }
    proof {
        lemma_known_idx(kv, key@);
        if known_idx(kv, key@) >= 0 {
            assert(kv[known_idx(kv, key@)].public_key != key@);
        }
    }
    None
}



} // verus!
