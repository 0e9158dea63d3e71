//! A bounded memo of word tokenizations.
//!
//! Keys are the raw word strings as the caller passed them; values are
//! the computed id sequences.  At most `capacity` entries are resident:
//! an insert for a new key on a full cache is dropped, an insert for a
//! present key overwrites.  The cache lives only as long as the engine
//! that owns it, so entries never go stale.

use vstd::prelude::*;

verus! {

/// Value stored under key `w`, scanning `s` front to back.
pub open spec fn cache_lookup(s: Seq<(String, Vec<u32>)>, w: Seq<char>) -> Option<Seq<u32>>
    decreases s.len(),
{
    if s.len() == 0 {
        None
    } else if s[0].0@ == w {
        Some(s[0].1@)
    } else {
        cache_lookup(s.drop_first(), w)
    }
}

/// An entry with key `w` makes the lookup succeed.
pub proof fn lemma_cache_lookup_present(s: Seq<(String, Vec<u32>)>, w: Seq<char>, k: int)
    requires
        0 <= k < s.len(),
        s[k].0@ == w,
    ensures
        cache_lookup(s, w) is Some,
    decreases s.len(),
{
    if s[0].0@ != w {
        assert(s.drop_first()[k - 1] == s[k]);
        lemma_cache_lookup_present(s.drop_first(), w, k - 1);
    }
}

proof fn lemma_cache_lookup_push(s: Seq<(String, Vec<u32>)>, e: (String, Vec<u32>), w: Seq<char>)
    ensures
        cache_lookup(s.push(e), w) == (if cache_lookup(s, w) is Some {
            cache_lookup(s, w)
        } else if e.0@ == w {
            Some(e.1@)
        } else {
            None
        }),
    decreases s.len(),
{
    if s.len() == 0 {
        assert(s.push(e)[0] == e);
        assert(s.push(e).drop_first() =~= s);
    } else {
        assert(s.push(e)[0] == s[0]);
        assert(s.push(e).drop_first() =~= s.drop_first().push(e));
        lemma_cache_lookup_push(s.drop_first(), e, w);
    }
}

proof fn lemma_cache_lookup_update(
    s: Seq<(String, Vec<u32>)>,
    j: int,
    e: (String, Vec<u32>),
    w: Seq<char>,
)
    requires
        0 <= j < s.len(),
        e.0@ == s[j].0@,
        forall|i: int| 0 <= i < j ==> (#[trigger] s[i]).0@ != s[j].0@,
    ensures
        cache_lookup(s.update(j, e), w) == (if s[j].0@ == w {
            Some(e.1@)
        } else {
            cache_lookup(s, w)
        }),
    decreases s.len(),
{
    let su = s.update(j, e);
    if j == 0 {
        assert(su[0] == e);
        assert(su.drop_first() =~= s.drop_first());
    } else {
        assert(su[0] == s[0]);
        assert(su.drop_first() =~= s.drop_first().update(j - 1, e));
        assert(s.drop_first()[j - 1] == s[j]);
        assert forall|i: int| 0 <= i < j - 1 implies (#[trigger] s.drop_first()[i]).0@ != s.drop_first()[
            j - 1].0@ by {
            assert(s.drop_first()[i] == s[i + 1]);
        }
        lemma_cache_lookup_update(s.drop_first(), j - 1, e, w);
    }
}

/// The bounded word-to-ids memo.
pub struct Cache {
    pub capacity: usize,
    pub entries: Vec<(String, Vec<u32>)>,
}

impl Cache {
    /// Keys pairwise distinct, and no more than `capacity` entries.
    pub open spec fn wf(self) -> bool {
        self.entries@.len() <= self.capacity && (forall|i: int, j: int|
            0 <= i < j < self.entries@.len() ==> (#[trigger] self.entries@[i]).0@ != (
            #[trigger] self.entries@[j]).0@)
    }

    /// An empty cache that will hold at most `capacity` entries.
    pub fn new(capacity: usize) -> (r: Cache)
        ensures
            r.capacity == capacity,
            r.entries@.len() == 0,
            r.wf(),
    {
        Cache { capacity, entries: Vec::new() }
    }

    /// Number of resident entries.
    pub fn len(&self) -> (r: usize)
        ensures
            r == self.entries@.len(),
    {
        self.entries.len()
    }

    /// The entry stored under `word`, if any.
    pub fn get(&self, word: &str) -> (r: Option<&Vec<u32>>)
        ensures
            match r {
                Some(v) => cache_lookup(self.entries@, word@) == Some(v@),
                None => cache_lookup(self.entries@, word@) is None,
            },
    {
        let ghost s = self.entries@;
        let w = word.to_owned();
        let mut i: usize = 0;
        proof {
            assert(s.skip(0) =~= s);
        }
        while i < self.entries.len()
            invariant
                self.entries@ == s,
                0 <= i <= s.len(),
                w@ == word@,
                cache_lookup(s.skip(i as int), word@) == cache_lookup(s, word@),
            decreases s.len() - i,
        {
            proof {
                assert(s.skip(i as int)[0] == s[i as int]);
            }
            if self.entries[i].0 == w {
                return Some(&self.entries[i].1);
            }
            proof {
                assert(s.skip(i as int).drop_first() =~= s.skip(i as int + 1));
            }
            i += 1;
        }
        None
    }

    /// Stores `ids` under `word`: overwrites a present key, appends a
    /// new key while room is left, and drops the insert on a full
    /// cache.  Every other key keeps its value.
    pub fn insert(&mut self, word: &str, ids: Vec<u32>)
        requires
            old(self).wf(),
        ensures
            final (self).capacity == old(self).capacity,
            final (self).wf(),
            forall|w2: Seq<char>|
                #[trigger] cache_lookup(final (self).entries@, w2) == (if w2 == word@ && (
                cache_lookup(old(self).entries@, word@) is Some || old(self).entries@.len() < old(
                    self,
                ).capacity) {
                    Some(ids@)
                } else {
                    cache_lookup(old(self).entries@, w2)
                }),
    {
        let ghost s = self.entries@;
        let w = word.to_owned();
        let mut i: usize = 0;
        while i < self.entries.len()
            invariant
                self.entries@ == s,
                self.capacity == old(self).capacity,
                s == old(self).entries@,
                old(self).wf(),
                0 <= i <= s.len(),
                w@ == word@,
                forall|k: int| 0 <= k < i ==> (#[trigger] s[k]).0@ != word@,
            decreases s.len() - i,
        {
            if self.entries[i].0 == w {
                let entry = (w, ids);
                self.entries.set(i, entry);
                proof {
                    lemma_cache_lookup_present(s, word@, i as int);
                    assert forall|w2: Seq<char>|
                        #[trigger] cache_lookup(self.entries@, w2) == (if w2 == word@ {
                            Some(ids@)
                        } else {
                            cache_lookup(s, w2)
                        }) by {
                        lemma_cache_lookup_update(s, i as int, (entry.0, entry.1), w2);
                    }
                    assert forall|a: int, b: int|
                        0 <= a < b < self.entries@.len() implies (#[trigger] self.entries@[a]).0@
                        != (#[trigger] self.entries@[b]).0@ by {
                        assert(s[a].0@ != s[b].0@);
                    }
                }
                return ;
            }
            i += 1;
        }
        if self.entries.len() < self.capacity {
            let entry = (w, ids);
            self.entries.push(entry);
            proof {
                assert forall|w2: Seq<char>|
                    #[trigger] cache_lookup(self.entries@, w2) == (if w2 == word@ {
                        Some(ids@)
                    } else {
                        cache_lookup(s, w2)
                    }) by {
                    lemma_cache_lookup_push(s, (entry.0, entry.1), w2);
                    if cache_lookup(s, word@) is Some {
                        lemma_cache_lookup_no_match(s, word@);
                    }
                }
                assert forall|a: int, b: int|
                    0 <= a < b < self.entries@.len() implies (#[trigger] self.entries@[a]).0@ != (
                #[trigger] self.entries@[b]).0@ by {
                    if b < s.len() {
                        assert(s[a].0@ != s[b].0@);
                    } else {
                        assert(self.entries@[b].0@ == word@);
                        assert(self.entries@[a] == s[a]);
                    }
                }
            }
        } else {
            proof {
                if cache_lookup(s, word@) is Some {
                    lemma_cache_lookup_no_match(s, word@);
                }
            }
        }
    }

    /// Removes every entry.
    pub fn clear(&mut self)
        ensures
            final (self).capacity == old(self).capacity,
            final (self).entries@.len() == 0,
            final (self).wf(),
    {
        self.entries.clear();
    }
}

/// A lookup that no entry's key matches fails.
proof fn lemma_cache_lookup_no_match(s: Seq<(String, Vec<u32>)>, w: Seq<char>)
    requires
        forall|k: int| 0 <= k < s.len() ==> (#[trigger] s[k]).0@ != w,
    ensures
        cache_lookup(s, w) is None,
    decreases s.len(),
{
    if s.len() > 0 {
        assert forall|k: int| 0 <= k < s.drop_first().len() implies (#[trigger] s.drop_first()[k]).0@
            != w by {
            assert(s.drop_first()[k] == s[k + 1]);
        }
        lemma_cache_lookup_no_match(s.drop_first(), w);
    }
}

} // verus!
