//! A small string-keyed association store with first-occurrence semantics:
//! the model of the working copy and of the committed tree, both of which
//! map repository paths to file contents.

use vstd::prelude::*;

verus! {

// ---------------------------------------------------------------------------
// Specification
// ---------------------------------------------------------------------------

/// Index of the first entry with key `k`, or -1.
pub open spec fn idx_of(v: Seq<(Seq<char>, Seq<char>)>, k: Seq<char>) -> int
    decreases v.len(),
{
    if v.len() == 0 {
        -1
    } else if v[0].0 == k {
        0
    } else {
        let r = idx_of(v.drop_first(), k);
        if r < 0 {
            -1
        } else {
            1 + r
        }
    }
}

/// The value stored under `k`, if any.
pub open spec fn kv_get(v: Seq<(Seq<char>, Seq<char>)>, k: Seq<char>) -> Option<Seq<char>> {
    let i = idx_of(v, k);
    if i < 0 {
        Option::None
    } else {
        Option::Some(v[i].1)
    }
}

/// The store after binding `k` to `val`: the first entry with key `k` is
/// replaced, or a new entry is appended.
pub open spec fn kv_set(v: Seq<(Seq<char>, Seq<char>)>, k: Seq<char>, val: Seq<char>) -> Seq<
    (Seq<char>, Seq<char>),
> {
    let i = idx_of(v, k);
    if i < 0 {
        v.push((k, val))
    } else {
        v.update(i, (k, val))
    }
}

/// What `idx_of` means: the least index bearing the key, or -1.
pub proof fn lemma_idx_of(v: Seq<(Seq<char>, Seq<char>)>, k: Seq<char>)
    ensures
        idx_of(v, k) >= 0 ==> {
            &&& idx_of(v, k) < v.len()
            &&& v[idx_of(v, k)].0 == k
            &&& forall|j: int| 0 <= j < idx_of(v, k) ==> (#[trigger] v[j]).0 != k
        },
        idx_of(v, k) < 0 ==> forall|j: int| 0 <= j < v.len() ==> (#[trigger] v[j]).0 != k,
    decreases v.len(),
{
    if v.len() > 0 && v[0].0 != k {
        let t = v.drop_first();
        lemma_idx_of(t, k);
        if idx_of(t, k) >= 0 {
            let r = idx_of(t, k);
            assert(v[1 + r] == t[r]);
            assert forall|j: int| 0 <= j < 1 + r implies (#[trigger] v[j]).0 != k by {
                if j > 0 {
                    assert(v[j] == t[j - 1]);
                }
            }
        } else {
            assert forall|j: int| 0 <= j < v.len() implies (#[trigger] v[j]).0 != k by {
                if j > 0 {
                    assert(v[j] == t[j - 1]);
                }
            }
        }
    }
}

/// Reading after writing: the written key returns the new value, any other
/// key is untouched.
pub proof fn lemma_kv_set_get(
    v: Seq<(Seq<char>, Seq<char>)>,
    k: Seq<char>,
    val: Seq<char>,
    k2: Seq<char>,
)
    ensures
        kv_get(kv_set(v, k, val), k2) == if k2 == k {
            Option::Some(val)
        } else {
            kv_get(v, k2)
        },
{
    lemma_idx_of(v, k);
    lemma_idx_of(v, k2);
    let w = kv_set(v, k, val);
    lemma_idx_of(w, k);
    lemma_idx_of(w, k2);
    let i = idx_of(v, k);
    if k2 == k {
        if i < 0 {
            // appended at the end; no earlier entry bears the key
            assert(w == v.push((k, val)));
            assert(w[v.len() as int] == (k, val));
            let wi = idx_of(w, k);
            if wi < 0 {
                assert(w[v.len() as int].0 != k);
            }
            assert(wi >= 0);
            if wi < v.len() {
                assert(w[wi] == v[wi]);
                assert(v[wi].0 != k);
            }
            assert(wi == v.len());
        } else {
            assert(w == v.update(i, (k, val)));
            assert(w[i] == (k, val));
            let wi = idx_of(w, k);
            if wi < 0 {
                assert(w[i].0 != k);
            }
            assert(wi >= 0);
            if wi < i {
                assert(w[wi] == v[wi]);
                assert(v[wi].0 != k);
            }
            if wi > i {
                assert(w[i].0 != k);
            }
            assert(wi == i);
        }
    } else {
        let j2 = idx_of(v, k2);
        let wj = idx_of(w, k2);
        if i < 0 {
            assert(w == v.push((k, val)));
            if j2 < 0 {
                if wj >= 0 {
                    if wj < v.len() {
                        assert(w[wj] == v[wj]);
                        assert(v[wj].0 != k2);
                    } else {
                        assert(w[wj] == (k, val));
                    }
                    assert(false);
                }
            } else {
                assert(w[j2] == v[j2]);
                if wj < 0 {
                    assert(w[j2].0 != k2);
                }
                assert(wj >= 0);
                if wj < j2 {
                    assert(w[wj] == v[wj]);
                    assert(v[wj].0 != k2);
                }
                if wj > j2 {
                    assert(w[j2].0 != k2);
                }
                assert(wj == j2);
                assert(w[wj].1 == v[j2].1);
            }
        } else {
            assert(w == v.update(i, (k, val)));
            if j2 < 0 {
                if wj >= 0 {
                    if wj == i {
                        assert(w[wj].0 == k);
                    } else {
                        assert(w[wj] == v[wj]);
                        assert(v[wj].0 != k2);
                    }
                    assert(false);
                }
            } else {
                assert(v[j2].0 == k2);
                assert(j2 != i) by {
                    if j2 == i {
                        assert(v[i].0 == k);
                    }
                }
                assert(w[j2] == v[j2]);
                if wj < 0 {
                    assert(w[j2].0 != k2);
                }
                assert(wj >= 0);
                if wj < j2 {
                    if wj == i {
                        assert(w[wj].0 == k);
                        assert(k != k2);
                    } else {
                        assert(w[wj] == v[wj]);
                        assert(v[wj].0 != k2);
                    }
                    assert(false);
                }
                if wj > j2 {
                    assert(w[j2].0 != k2);
                    assert(false);
                }
                assert(wj == j2);
                assert(w[wj].1 == v[j2].1);
            }
        }
    }
}

// ---------------------------------------------------------------------------
// Executable store
// ---------------------------------------------------------------------------

/// A path-to-content store backed by a vector of pairs.
pub struct StrMap {
    pub entries: Vec<(String, String)>,
}

impl View for StrMap {
    type V = Seq<(Seq<char>, Seq<char>)>;

    open spec fn view(&self) -> Seq<(Seq<char>, Seq<char>)> {
        self.entries@.map_values(|p: (String, String)| (p.0@, p.1@))
    }
}

impl StrMap {
    /// An empty store.
    pub fn new() -> (r: StrMap)
        ensures
            r@ == Seq::<(Seq<char>, Seq<char>)>::empty(),
    {
        let r = StrMap { entries: Vec::new() };
        proof {
            assert(r@ =~= Seq::<(Seq<char>, Seq<char>)>::empty());
        }
        r
    }

    /// The value stored under `k`, if any.
    pub fn get(&self, k: &str) -> (r: Option<&String>)
        ensures
            match r {
                Some(s) => kv_get(self@, k@) == Option::Some(s@),
                None => kv_get(self@, k@) is None,
            },
    {
        proof {
            lemma_idx_of(self@, k@);
        }
        let mut i: usize = 0;
        while i < self.entries.len()
            invariant
                self@.len() == self.entries@.len(),
                self@ == self.entries@.map_values(|p: (String, String)| (p.0@, p.1@)),
                i <= self.entries.len(),
                forall|j: int| 0 <= j < i ==> (#[trigger] self@[j]).0 != k@,
            decreases self.entries.len() - i,
        {
            if crate::strutil::str_eq(self.entries[i].0.as_str(), k) {
                proof {
                    lemma_idx_of(self@, k@);
                    assert(self@[i as int].0 == k@);
                    if idx_of(self@, k@) < 0 {
                        assert(false);
                    }
                    if idx_of(self@, k@) < i {
                        assert(self@[idx_of(self@, k@)].0 != k@);
                        assert(false);
                    }
                    if idx_of(self@, k@) > i {
                        assert(self@[i as int].0 != k@);
                        assert(false);
                    }
                }
                return Some(&self.entries[i].1);
            }
            i += 1;
        }
        proof {
            lemma_idx_of(self@, k@);
            if idx_of(self@, k@) >= 0 {
                assert(self@[idx_of(self@, k@)].0 != k@);
            }
        }
        None
    }

    /// Binds `k` to `val`, replacing any earlier binding.
    pub fn set(&mut self, k: &str, val: String)
        ensures
            final(self)@ == kv_set(old(self)@, k@, val@),
    {
        proof {
            lemma_idx_of(self@, k@);
        }
        let mut i: usize = 0;
        while i < self.entries.len()
            invariant
                self@.len() == self.entries@.len(),
                self@ == self.entries@.map_values(|p: (String, String)| (p.0@, p.1@)),
                i <= self.entries.len(),
                forall|j: int| 0 <= j < i ==> (#[trigger] self@[j]).0 != k@,
                self == old(self),
            decreases self.entries.len() - i,
        {
            if crate::strutil::str_eq(self.entries[i].0.as_str(), k) {
                proof {
                    lemma_idx_of(self@, k@);
                    assert(self@[i as int].0 == k@);
                    if idx_of(self@, k@) < 0 {
                        assert(false);
                    }
                    if idx_of(self@, k@) < i {
                        assert(self@[idx_of(self@, k@)].0 != k@);
                        assert(false);
                    }
                    if idx_of(self@, k@) > i {
                        assert(self@[i as int].0 != k@);
                        assert(false);
                    }
                }
                self.entries.set(i, (String::from_str(k), val));
                proof {
                    assert(self@ =~= kv_set(old(self)@, k@, val@));
                }
                return ;
            }
            i += 1;
        }
        proof {
            lemma_idx_of(self@, k@);
            if idx_of(self@, k@) >= 0 {
                assert(self@[idx_of(self@, k@)].0 != k@);
            }
        }
        self.entries.push((String::from_str(k), val));
        proof {
            assert(self@ =~= kv_set(old(self)@, k@, val@));
        }
    }

    /// How many entries the store holds.
    pub fn len(&self) -> (r: usize)
        ensures
            r == self@.len(),
    {
        self.entries.len()
    }

    /// The key of the entry at `i`.
    pub fn key_at(&self, i: usize) -> (r: &String)
        requires
            i < self@.len(),
        ensures
            r@ == self@[i as int].0,
    {
        &self.entries[i].0
    }
}

} // verus!
