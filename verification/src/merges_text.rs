//! Parsing the merges text format: one rule per line as two
//! whitespace-separated tokens, with blank lines and `#`-prefixed
//! lines ignored, and any other shape rejected with the 1-based number
//! of the offending line.

use vstd::prelude::*;

verus! {

/// Line-internal whitespace: space, tab, and the carriage return that
/// a CRLF line ending leaves before the newline.
pub open spec fn is_ws(c: char) -> bool {
    c == ' ' || c == '\t' || c == '\r'
}

/// First position at or after `i` holding a non-whitespace character,
/// or the line's end.
pub open spec fn skip_ws(l: Seq<char>, i: int) -> int
    decreases l.len() - i,
{
    if i < 0 || i >= l.len() {
        l.len() as int
    } else if is_ws(l[i]) {
        skip_ws(l, i + 1)
    } else {
        i
    }
}

/// First position at or after `i` holding whitespace, or the line's
/// end.
pub open spec fn skip_word(l: Seq<char>, i: int) -> int
    decreases l.len() - i,
{
    if i < 0 || i >= l.len() {
        l.len() as int
    } else if !is_ws(l[i]) {
        skip_word(l, i + 1)
    } else {
        i
    }
}

/// What one line means: `None` for a malformed line, `Some(None)` for
/// a blank or comment line, and `Some(Some(pair))` for a rule.
pub open spec fn parse_line(l: Seq<char>) -> Option<Option<(Seq<char>, Seq<char>)>> {
    let a1 = skip_ws(l, 0);
    if a1 == l.len() {
        Some(None)
    } else if l[a1] == '#' {
        Some(None)
    } else {
        let b1 = skip_word(l, a1);
        let a2 = skip_ws(l, b1);
        if a2 == l.len() {
            None
        } else {
            let b2 = skip_word(l, a2);
            if skip_ws(l, b2) != l.len() {
                None
            } else {
                Some(Some((l.subrange(a1, b1), l.subrange(a2, b2))))
            }
        }
    }
}

/// Position of the newline that ends the line starting at `i`, or the
/// text's end.
pub open spec fn line_end(s: Seq<char>, i: int) -> int
    decreases s.len() - i,
{
    if i < 0 || i >= s.len() {
        s.len() as int
    } else if s[i] == '\n' {
        i
    } else {
        line_end(s, i + 1)
    }
}

proof fn lemma_line_end_bounds(s: Seq<char>, i: int)
    requires
        0 <= i <= s.len(),
    ensures
        i <= line_end(s, i) <= s.len(),
    decreases s.len() - i,
{
    if i < s.len() && s[i] != '\n' {
        lemma_line_end_bounds(s, i + 1);
    }
}

/// The rules of the text from position `i` on, whose first line is
/// line `lineno`, or the number of the first malformed line.
pub open spec fn parse_merges_from(s: Seq<char>, i: int, lineno: int) -> Result<
    Seq<(Seq<char>, Seq<char>)>,
    int,
>
    decreases s.len() + 1 - i,
    via parse_merges_from_decreases
{
    if i < 0 || i >= s.len() {
        Ok(Seq::empty())
    } else {
        let e = line_end(s, i);
        let rest = parse_merges_from(s, e + 1, lineno + 1);
        match parse_line(s.subrange(i, e)) {
            None => Err(lineno),
            Some(None) => rest,
            Some(Some(p)) => match rest {
                Err(n) => Err(n),
                Ok(ps) => Ok(seq![p] + ps),
            },
        }
    }
}

#[via_fn]
proof fn parse_merges_from_decreases(s: Seq<char>, i: int, lineno: int) {
    if !(i < 0 || i >= s.len()) {
        lemma_line_end_bounds(s, i);
    }
}

/// The rules of the whole text, or the number of the first malformed
/// line.
pub open spec fn parse_merges_spec(s: Seq<char>) -> Result<Seq<(Seq<char>, Seq<char>)>, int> {
    parse_merges_from(s, 0, 1)
}

/// The rule pairs' character sequences.
pub open spec fn pairs_viewed(v: Seq<(String, String)>) -> Seq<(Seq<char>, Seq<char>)> {
    Seq::new(v.len(), |i: int| (v[i].0@, v[i].1@))
}

fn ws_char(c: char) -> (r: bool)
    ensures
        r == is_ws(c),
{
    c == ' ' || c == '\t' || c == '\r'
}

fn skip_ws_exec(l: &str, i: usize) -> (r: usize)
    requires
        i <= l@.len(),
    ensures
        r == skip_ws(l@, i as int),
        i <= r <= l@.len(),
{
    let n = l.unicode_len();
    let mut k = i;
    while k < n
        invariant
            n == l@.len(),
            i <= k <= n,
            skip_ws(l@, k as int) == skip_ws(l@, i as int),
        decreases n - k,
    {
        if !ws_char(l.get_char(k)) {
            return k;
        }
        k += 1;
    }
    k
}

fn skip_word_exec(l: &str, i: usize) -> (r: usize)
    requires
        i <= l@.len(),
    ensures
        r == skip_word(l@, i as int),
        i <= r <= l@.len(),
{
    let n = l.unicode_len();
    let mut k = i;
    while k < n
        invariant
            n == l@.len(),
            i <= k <= n,
            skip_word(l@, k as int) == skip_word(l@, i as int),
        decreases n - k,
    {
        if ws_char(l.get_char(k)) {
            return k;
        }
        k += 1;
    }
    k
}

fn line_end_exec(s: &str, i: usize) -> (r: usize)
    requires
        i <= s@.len(),
    ensures
        r == line_end(s@, i as int),
        i <= r <= s@.len(),
{
    let n = s.unicode_len();
    let mut k = i;
    while k < n
        invariant
            n == s@.len(),
            i <= k <= n,
            line_end(s@, k as int) == line_end(s@, i as int),
        decreases n - k,
    {
        if s.get_char(k) == '\n' {
            return k;
        }
        k += 1;
    }
    k
}

/// Parses a merges text into its rule pairs, as [`parse_merges_spec`]
/// reads it: the `Err` value is the 1-based number of the first line
/// that is neither blank, a comment, nor exactly two
/// whitespace-separated tokens.
pub fn parse_merges(text: &str) -> (r: Result<Vec<(String, String)>, usize>)
    requires
        text@.len() < usize::MAX,
    ensures
        match r {
            Ok(v) => parse_merges_spec(text@) == Ok::<Seq<(Seq<char>, Seq<char>)>, int>(
                pairs_viewed(v@),
            ),
            Err(n) => parse_merges_spec(text@) == Err::<Seq<(Seq<char>, Seq<char>)>, int>(n as int),
        },
{
    let ghost s = text@;
    let n = text.unicode_len();
    let mut acc: Vec<(String, String)> = Vec::new();
    let mut i: usize = 0;
    let mut lineno: usize = 1;
    while i < n
        invariant
            s == text@,
            n == s.len(),
            s.len() < usize::MAX,
            0 <= i <= n + 1,
            1 <= lineno <= i + 1,
            match parse_merges_from(s, i as int, lineno as int) {
                Err(e) => parse_merges_spec(s) == Err::<Seq<(Seq<char>, Seq<char>)>, int>(e),
                Ok(rest) => parse_merges_spec(s) == Ok::<Seq<(Seq<char>, Seq<char>)>, int>(
                    pairs_viewed(acc@) + rest,
                ),
            },
        decreases n + 1 - i,
    {
        let e = line_end_exec(text, i);
        let line = text.substring_char(i, e);
        proof {
            assert(line@ == s.subrange(i as int, e as int));
        }
        let ln = line.unicode_len();
        let a1 = skip_ws_exec(line, 0);
        let ghost acc0 = acc@;
        if a1 == ln {
        } else if line.get_char(a1) == '#' {
        } else {
            let b1 = skip_word_exec(line, a1);
            let a2 = skip_ws_exec(line, b1);
            if a2 == ln {
                proof {
                    assert(parse_line(line@) is None);
                }
                return Err(lineno);
            }
            let b2 = skip_word_exec(line, a2);
            if skip_ws_exec(line, b2) != ln {
                proof {
                    assert(parse_line(line@) is None);
                }
                return Err(lineno);
            }
            let w1 = line.substring_char(a1, b1).to_owned();
            let w2 = line.substring_char(a2, b2).to_owned();
            acc.push((w1, w2));
            proof {
                let p = (line@.subrange(a1 as int, b1 as int), line@.subrange(
                    a2 as int,
                    b2 as int,
                ));
                assert(parse_line(line@) == Some(Some(p)));
                assert(pairs_viewed(acc@) =~= pairs_viewed(acc0).push(p));
                if parse_merges_from(s, e as int + 1, lineno as int + 1) is Ok {
                    let rest = parse_merges_from(s, e as int + 1, lineno as int + 1)->Ok_0;
                    assert(pairs_viewed(acc0) + (seq![p] + rest) =~= pairs_viewed(acc0).push(p)
                        + rest);
                }
            }
        }
        i = e + 1;
        lineno += 1;
    }
    proof {
        assert(parse_merges_from(s, i as int, lineno as int) == Ok::<
            Seq<(Seq<char>, Seq<char>)>,
            int,
        >(Seq::empty()));
        assert(pairs_viewed(acc@) + Seq::<(Seq<char>, Seq<char>)>::empty() =~= pairs_viewed(acc@));
    }
    Ok(acc)
}

} // verus!
