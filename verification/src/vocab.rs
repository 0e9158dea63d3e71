//! The vocabulary: a bijection between token strings and 32-bit ids.
//!
//! Entries are kept as an ordered list of `(token, id)` pairs whose
//! tokens and ids are pairwise distinct.  Lookups are specified by the
//! recursive functions [`lookup_token`] and [`lookup_id`]; distinctness
//! makes the two directions inverse to each other
//! ([`lemma_token_then_id`]).

use vstd::prelude::*;

verus! {

/// First id paired with token `t`, scanning `s` front to back.
pub open spec fn lookup_token(s: Seq<(String, u32)>, t: Seq<char>) -> Option<u32>
    decreases s.len(),
{
    if s.len() == 0 {
        None
    } else if s[0].0@ == t {
        Some(s[0].1)
    } else {
        lookup_token(s.drop_first(), t)
    }
}

/// First token paired with id `id`, scanning `s` front to back.
pub open spec fn lookup_id(s: Seq<(String, u32)>, id: u32) -> Option<Seq<char>>
    decreases s.len(),
{
    if s.len() == 0 {
        None
    } else if s[0].1 == id {
        Some(s[0].0@)
    } else {
        lookup_id(s.drop_first(), id)
    }
}

/// The decoded text of `ids`: each id's token, concatenated in order,
/// or the first id that has no entry.
pub open spec fn spec_decode(s: Seq<(String, u32)>, ids: Seq<u32>) -> Result<
    Seq<char>,
    crate::errors::BpeError,
>
    decreases ids.len(),
{
    if ids.len() == 0 {
        Ok(Seq::empty())
    } else {
        match lookup_id(s, ids[0]) {
            None => Err(crate::errors::BpeError::UnknownId(ids[0])),
            Some(t) => match spec_decode(s, ids.drop_first()) {
                Err(e) => Err(e),
                Ok(rest) => Ok(t + rest),
            },
        }
    }
}

/// Tokens pairwise distinct and ids pairwise distinct: the invariant
/// that makes the entry list a bijection.
pub open spec fn entries_distinct(s: Seq<(String, u32)>) -> bool {
    forall|i: int, j: int|
        0 <= i < j < s.len() ==> (#[trigger] s[i]).0@ != (#[trigger] s[j]).0@ && s[i].1 != s[j].1
}

/// A bijective mapping between token strings and ids.
pub struct Vocab {
    pub entries: Vec<(String, u32)>,
}

impl View for Vocab {
    type V = Seq<(String, u32)>;

    open spec fn view(&self) -> Seq<(String, u32)> {
        self.entries@
    }
}

proof fn lemma_distinct_drop_first(s: Seq<(String, u32)>)
    requires
        entries_distinct(s),
        s.len() > 0,
    ensures
        entries_distinct(s.drop_first()),
{
    assert forall|i: int, j: int| 0 <= i < j < s.drop_first().len() implies (#[trigger] s.drop_first()[i]).0@
        != (#[trigger] s.drop_first()[j]).0@ && s.drop_first()[i].1 != s.drop_first()[j].1 by {
        assert(s.drop_first()[i] == s[i + 1]);
        assert(s.drop_first()[j] == s[j + 1]);
    }
}

/// A successful token lookup names an actual entry.
pub proof fn lemma_lookup_token_mem(s: Seq<(String, u32)>, t: Seq<char>)
    requires
        lookup_token(s, t) is Some,
    ensures
        exists|k: int|
            0 <= k < s.len() && (#[trigger] s[k]).0@ == t && s[k].1 == lookup_token(s, t)->Some_0,
    decreases s.len(),
{
    if s[0].0@ == t {
        assert(s[0].0@ == t && s[0].1 == lookup_token(s, t)->Some_0);
    } else {
        lemma_lookup_token_mem(s.drop_first(), t);
        let k = choose|k: int|
            0 <= k < s.drop_first().len() && (#[trigger] s.drop_first()[k]).0@ == t
                && s.drop_first()[k].1 == lookup_token(s.drop_first(), t)->Some_0;
        assert(s[k + 1] == s.drop_first()[k]);
    }
}

/// A successful id lookup names an actual entry.
pub proof fn lemma_lookup_id_mem(s: Seq<(String, u32)>, id: u32)
    requires
        lookup_id(s, id) is Some,
    ensures
        exists|k: int|
            0 <= k < s.len() && (#[trigger] s[k]).1 == id && s[k].0@ == lookup_id(s, id)->Some_0,
    decreases s.len(),
{
    if s[0].1 == id {
        assert(s[0].1 == id && s[0].0@ == lookup_id(s, id)->Some_0);
    } else {
        lemma_lookup_id_mem(s.drop_first(), id);
        let k = choose|k: int|
            0 <= k < s.drop_first().len() && (#[trigger] s.drop_first()[k]).1 == id
                && s.drop_first()[k].0@ == lookup_id(s.drop_first(), id)->Some_0;
        assert(s[k + 1] == s.drop_first()[k]);
    }
}

/// An entry with token `t` makes the token lookup succeed.
pub proof fn lemma_lookup_token_present(s: Seq<(String, u32)>, t: Seq<char>, k: int)
    requires
        0 <= k < s.len(),
        s[k].0@ == t,
    ensures
        lookup_token(s, t) is Some,
    decreases s.len(),
{
    if s[0].0@ != t {
        assert(s.drop_first()[k - 1] == s[k]);
        lemma_lookup_token_present(s.drop_first(), t, k - 1);
    }
}

/// On a distinct entry list, looking a token's id back up returns the
/// token: the two lookup directions are inverse.
pub proof fn lemma_token_then_id(s: Seq<(String, u32)>, t: Seq<char>)
    requires
        entries_distinct(s),
        lookup_token(s, t) is Some,
    ensures
        lookup_id(s, lookup_token(s, t)->Some_0) == Some(t),
    decreases s.len(),
{
    let id = lookup_token(s, t)->Some_0;
    if s[0].0@ == t {
        assert(lookup_id(s, id) == Some(s[0].0@));
    } else {
        lemma_distinct_drop_first(s);
        lemma_lookup_token_mem(s.drop_first(), t);
        let k = choose|k: int|
            0 <= k < s.drop_first().len() && (#[trigger] s.drop_first()[k]).0@ == t
                && s.drop_first()[k].1 == id;
        assert(s[k + 1] == s.drop_first()[k]);
        assert(s[0].1 != id);
        lemma_token_then_id(s.drop_first(), t);
    }
}

/// The inverse direction: looking an id's token back up returns the id.
pub proof fn lemma_id_then_token(s: Seq<(String, u32)>, id: u32)
    requires
        entries_distinct(s),
        lookup_id(s, id) is Some,
    ensures
        lookup_token(s, lookup_id(s, id)->Some_0) == Some(id),
    decreases s.len(),
{
    let t = lookup_id(s, id)->Some_0;
    if s[0].1 == id {
        assert(lookup_token(s, t) == Some(s[0].1));
    } else {
        lemma_distinct_drop_first(s);
        lemma_lookup_id_mem(s.drop_first(), id);
        let k = choose|k: int|
            0 <= k < s.drop_first().len() && (#[trigger] s.drop_first()[k]).1 == id
                && s.drop_first()[k].0@ == t;
        assert(s[k + 1] == s.drop_first()[k]);
        assert(s[0].0@ != t);
        lemma_id_then_token(s.drop_first(), id);
    }
}

proof fn lemma_lookup_token_push(s: Seq<(String, u32)>, e: (String, u32), t: Seq<char>)
    ensures
        lookup_token(s.push(e), t) == (if lookup_token(s, t) is Some {
            lookup_token(s, t)
        } else if e.0@ == t {
            Some(e.1)
        } else {
            None
        }),
    decreases s.len(),
{
    if s.len() == 0 {
        assert(s.push(e)[0] == e);
        assert(s.push(e).drop_first() =~= s);
    } else {
        assert(s.push(e)[0] == s[0]);
        assert(s.push(e).drop_first() =~= s.drop_first().push(e));
        lemma_lookup_token_push(s.drop_first(), e, t);
    }
}

proof fn lemma_lookup_id_push(s: Seq<(String, u32)>, e: (String, u32), id: u32)
    ensures
        lookup_id(s.push(e), id) == (if lookup_id(s, id) is Some {
            lookup_id(s, id)
        } else if e.1 == id {
            Some(e.0@)
        } else {
            None
        }),
    decreases s.len(),
{
    if s.len() == 0 {
        assert(s.push(e)[0] == e);
        assert(s.push(e).drop_first() =~= s);
    } else {
        assert(s.push(e)[0] == s[0]);
        assert(s.push(e).drop_first() =~= s.drop_first().push(e));
        lemma_lookup_id_push(s.drop_first(), e, id);
    }
}

/// A lookup for an id that no entry carries fails.
proof fn lemma_lookup_id_no_match(s: Seq<(String, u32)>, id: u32)
    requires
        forall|k: int| 0 <= k < s.len() ==> (#[trigger] s[k]).1 != id,
    ensures
        lookup_id(s, id) is None,
    decreases s.len(),
{
    if s.len() > 0 {
        assert forall|k: int| 0 <= k < s.drop_first().len() implies (#[trigger] s.drop_first()[k]).1
            != id by {
            assert(s.drop_first()[k] == s[k + 1]);
        }
        lemma_lookup_id_no_match(s.drop_first(), id);
    }
}

/// True exactly when `s` spells `prefix`, then `c`, then `suffix`.
fn str_eq_decorated(s: &str, prefix: &str, c: char, suffix: &str) -> (r: bool)
    ensures
        r == (s@ == prefix@ + seq![c] + suffix@),
{
    let ghost target = prefix@ + seq![c] + suffix@;
    let n = s.unicode_len();
    let p = prefix.unicode_len();
    let q = suffix.unicode_len();
    if n == 0 || p > n - 1 || q != n - 1 - p {
        proof {
            assert(target.len() == p + 1 + q);
        }
        return false;
    }
    let mut i: usize = 0;
    while i < p
        invariant
            n == s@.len(),
            p == prefix@.len(),
            q == suffix@.len(),
            n == p + 1 + q,
            target == prefix@ + seq![c] + suffix@,
            0 <= i <= p,
            forall|k: int| 0 <= k < i ==> s@[k] == prefix@[k],
        decreases p - i,
    {
        if s.get_char(i) != prefix.get_char(i) {
            proof {
                assert(target[i as int] == prefix@[i as int]);
            }
            return false;
        }
        i += 1;
    }
    if s.get_char(p) != c {
        proof {
            assert(target[p as int] == c);
        }
        return false;
    }
    let mut j: usize = 0;
    while j < q
        invariant
            n == s@.len(),
            p == prefix@.len(),
            q == suffix@.len(),
            n == p + 1 + q,
            target == prefix@ + seq![c] + suffix@,
            0 <= j <= q,
            forall|k: int| 0 <= k < j ==> s@[p + 1 + k] == suffix@[k],
        decreases q - j,
    {
        if s.get_char(p + 1 + j) != suffix.get_char(j) {
            proof {
                assert(target[p + 1 + j as int] == suffix@[j as int]);
            }
            return false;
        }
        j += 1;
    }
    proof {
        assert(s@[p as int] == c);
        assert forall|k: int| 0 <= k < p implies s@[k] == target[k] by {
            assert(target[k] == prefix@[k]);
        }
        assert forall|k: int| p + 1 <= k < n implies s@[k] == target[k] by {
            assert(target[k] == suffix@[k - p - 1]);
            assert(s@[p + 1 + (k - p - 1)] == suffix@[k - p - 1]);
        }
        assert(s@ =~= target);
    }
    true
}

impl Vocab {
    /// The bijection invariant.
    pub open spec fn wf(self) -> bool {
        entries_distinct(self@)
    }

    /// Builds a vocabulary from an entry list; rejects a list whose
    /// tokens or ids are not pairwise distinct.
    pub fn new(entries: Vec<(String, u32)>) -> (r: Option<Vocab>)
        ensures
            match r {
                Some(v) => v@ == entries@ && v.wf(),
                None => !entries_distinct(entries@),
            },
    {
        let n = entries.len();
        let mut i: usize = 0;
        while i < n
            invariant
                n == entries@.len(),
                0 <= i <= n,
                forall|a: int, b: int|
                    0 <= a < b < entries@.len() && a < i ==> (#[trigger] entries@[a]).0@ != (
                    #[trigger] entries@[b]).0@ && entries@[a].1 != entries@[b].1,
            decreases n - i,
        {
            let mut j: usize = i + 1;
            while j < n
                invariant
                    n == entries@.len(),
                    0 <= i < j <= n,
                    forall|b: int|
                        i < b < j ==> (#[trigger] entries@[b]).0@ != entries@[i as int].0@
                            && entries@[b].1 != entries@[i as int].1,
                decreases n - j,
            {
                if entries[i].0 == entries[j].0 || entries[i].1 == entries[j].1 {
                    return None;
                }
                j += 1;
            }
            i += 1;
        }
        Some(Vocab { entries })
    }

    /// Number of entries.
    pub fn len(&self) -> (r: usize)
        ensures
            r == self@.len(),
    {
        self.entries.len()
    }

    /// The id of `token`, if present.
    pub fn token_to_id(&self, token: &str) -> (r: Option<u32>)
        ensures
            r == lookup_token(self@, token@),
    {
        let ghost s = self@;
        let t = token.to_owned();
        let mut i: usize = 0;
        proof {
            assert(s.skip(0) =~= s);
        }
        while i < self.entries.len()
            invariant
                self@ == s,
                0 <= i <= s.len(),
                t@ == token@,
                lookup_token(s.skip(i as int), token@) == lookup_token(s, token@),
            decreases s.len() - i,
        {
            proof {
                assert(s.skip(i as int)[0] == s[i as int]);
            }
            if self.entries[i].0 == t {
                return Some(self.entries[i].1);
            }
            proof {
                assert(s.skip(i as int).drop_first() =~= s.skip(i as int + 1));
            }
            i += 1;
        }
        None
    }

    /// The id of the token spelling `prefix`, then `c`, then `suffix`,
    /// if present.  Looking a decorated form up this way avoids building
    /// the decorated string.
    pub fn token_id_decorated(&self, prefix: &str, c: char, suffix: &str) -> (r: Option<u32>)
        ensures
            r == lookup_token(self@, prefix@ + seq![c] + suffix@),
    {
        let ghost s = self@;
        let ghost target = prefix@ + seq![c] + suffix@;
        let mut i: usize = 0;
        proof {
            assert(s.skip(0) =~= s);
        }
        while i < self.entries.len()
            invariant
                self@ == s,
                0 <= i <= s.len(),
                target == prefix@ + seq![c] + suffix@,
                lookup_token(s.skip(i as int), target) == lookup_token(s, target),
            decreases s.len() - i,
        {
            proof {
                assert(s.skip(i as int)[0] == s[i as int]);
            }
            let entry_token: &str = self.entries[i].0.as_str();
            proof {
                assert(entry_token@ == s[i as int].0@);
            }
            if str_eq_decorated(entry_token, prefix, c, suffix) {
                proof {
                    assert(s[i as int].0@ == target);
                    assert(lookup_token(s.skip(i as int), target) == Some(s[i as int].1));
                }
                return Some(self.entries[i].1);
            }
            proof {
                assert(s[i as int].0@ != target);
                assert(s.skip(i as int).drop_first() =~= s.skip(i as int + 1));
            }
            i += 1;
        }
        None
    }

    /// Adds `token` under a fresh id, one past the greatest id in use.
    /// A token already present keeps its id; `None` only when the id
    /// space is exhausted, which leaves the vocabulary unchanged.
    pub fn add_token(&mut self, token: String) -> (r: Option<u32>)
        requires
            old(self).wf(),
        ensures
            final (self).wf(),
            match r {
                Some(id) => {
                    &&& lookup_token(final (self)@, token@) == Some(id)
                    &&& if lookup_token(old(self)@, token@) is Some {
                        final (self)@ == old(self)@ && Some(id) == lookup_token(
                            old(self)@,
                            token@,
                        )
                    } else {
                        final (self)@ == old(self)@.push((token, id)) && lookup_id(
                            old(self)@,
                            id,
                        ) is None
                    }
                },
                None => final (self)@ == old(self)@ && lookup_token(old(self)@, token@) is None
                    && exists|k: int|
                    0 <= k < old(self)@.len() && (#[trigger] old(self)@[k]).1 == u32::MAX,
            },
    {
        let ghost s = self@;
        if let Some(id) = self.token_to_id(token.as_str()) {
            return Some(id);
        }
        let mut max: u32 = 0;
        let mut i: usize = 0;
        while i < self.entries.len()
            invariant
                self@ == s,
                0 <= i <= s.len(),
                forall|k: int| 0 <= k < i ==> (#[trigger] s[k]).1 <= max,
                i > 0 ==> exists|k: int| 0 <= k < i && (#[trigger] s[k]).1 == max,
                i == 0 ==> max == 0,
            decreases s.len() - i,
        {
            if self.entries[i].1 > max {
                max = self.entries[i].1;
            }
            i += 1;
        }
        let id: u32 = if self.entries.len() == 0 {
            0
        } else {
            if max == u32::MAX {
                return None;
            }
            max + 1
        };
        proof {
            assert forall|k: int| 0 <= k < s.len() implies (#[trigger] s[k]).1 != id by {
                assert(s[k].1 <= max);
            }
            lemma_lookup_id_no_match(s, id);
            lemma_lookup_token_push(s, (token, id), token@);
            assert forall|a: int, b: int|
                0 <= a < b < s.push((token, id)).len() implies (#[trigger] s.push(
                (token, id),
            )[a]).0@ != (#[trigger] s.push((token, id))[b]).0@ && s.push((token, id))[a].1 != s.push(
                (token, id),
            )[b].1 by {
                if b < s.len() {
                    assert(s.push((token, id))[a] == s[a]);
                    assert(s.push((token, id))[b] == s[b]);
                } else {
                    assert(s.push((token, id))[b] == (token, id));
                    assert(s.push((token, id))[a] == s[a]);
                    if s[a].0@ == token@ {
                        lemma_lookup_token_present(s, token@, a);
                    }
                }
            }
        }
        self.entries.push((token, id));
        Some(id)
    }

    /// The token of `id`, if present; the stored string is cloned.
    pub fn id_to_token(&self, id: u32) -> (r: Option<String>)
        ensures
            match r {
                Some(t) => lookup_id(self@, id) == Some(t@),
                None => lookup_id(self@, id) is None,
            },
    {
        let ghost s = self@;
        let mut i: usize = 0;
        proof {
            assert(s.skip(0) =~= s);
        }
        while i < self.entries.len()
            invariant
                self@ == s,
                0 <= i <= s.len(),
                lookup_id(s.skip(i as int), id) == lookup_id(s, id),
            decreases s.len() - i,
        {
            proof {
                assert(s.skip(i as int)[0] == s[i as int]);
            }
            if self.entries[i].1 == id {
                return Some(self.entries[i].0.clone());
            }
            proof {
                assert(s.skip(i as int).drop_first() =~= s.skip(i as int + 1));
            }
            i += 1;
        }
        None
    }
}

} // verus!
