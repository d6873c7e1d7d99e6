//! Text normalization for the scraped sources: whitespace collapsing,
//! bracket-suffix stripping, and parsing of free-text English dates with
//! ordinal suffixes.

use vstd::prelude::*;

use crate::calendar::Month;
use crate::error::Error;

verus! {

// ---------------------------------------------------------------------------
// Whitespace
// ---------------------------------------------------------------------------

/// The Unicode `White_Space` characters: the set that `str::trim` and
/// `str::split_whitespace` treat as whitespace.
pub open spec fn is_space(c: char) -> bool {
    ||| c == ' '
    ||| c == '\t'
    ||| c == '\n'
    ||| c == '\u{0b}'
    ||| c == '\u{0c}'
    ||| c == '\r'
    ||| c == '\u{85}'
    ||| c == '\u{a0}'
    ||| c == '\u{1680}'
    ||| (0x2000 <= c as u32 && c as u32 <= 0x200a)
    ||| c == '\u{2028}'
    ||| c == '\u{2029}'
    ||| c == '\u{202f}'
    ||| c == '\u{205f}'
    ||| c == '\u{3000}'
}

/// Decides whether `c` is whitespace.
pub fn is_space_char(c: char) -> (r: bool)
    ensures
        r == is_space(c),
{
    let u = c as u32;
    u == 0x20 || u == 0x09 || u == 0x0a || u == 0x0b || u == 0x0c || u == 0x0d || u == 0x85
        || u == 0xa0 || u == 0x1680 || (0x2000 <= u && u <= 0x200a) || u == 0x2028 || u == 0x2029
        || u == 0x202f || u == 0x205f || u == 0x3000
}

// ---------------------------------------------------------------------------
// Trimming
// ---------------------------------------------------------------------------

/// `s` without its leading whitespace.
pub open spec fn ltrim(s: Seq<char>) -> Seq<char>
    decreases s.len(),
{
    if s.len() == 0 {
        s
    } else if is_space(s[0]) {
        ltrim(s.drop_first())
    } else {
        s
    }
}

/// `s` without its trailing whitespace.
pub open spec fn rtrim(s: Seq<char>) -> Seq<char>
    decreases s.len(),
{
    if s.len() == 0 {
        s
    } else if is_space(s[s.len() - 1]) {
        rtrim(s.drop_last())
    } else {
        s
    }
}

/// `s` without leading and trailing whitespace: what `str::trim` returns.
pub open spec fn trimmed(s: Seq<char>) -> Seq<char> {
    rtrim(ltrim(s))
}

proof fn lemma_ltrim_at(s: Seq<char>, i: int)
    requires
        0 <= i <= s.len(),
        forall|k: int| 0 <= k < i ==> is_space(s[k]),
        i == s.len() || !is_space(s[i]),
    ensures
        ltrim(s) == s.subrange(i, s.len() as int),
    decreases i,
{
    if i == 0 {
        assert(s.subrange(0, s.len() as int) =~= s);
    } else {
        lemma_ltrim_at(s.drop_first(), i - 1);
        assert(s.drop_first().subrange(i - 1, s.drop_first().len() as int) =~= s.subrange(
            i,
            s.len() as int,
        ));
    }
}

proof fn lemma_rtrim_at(s: Seq<char>, j: int)
    requires
        0 <= j <= s.len(),
        forall|k: int| j <= k < s.len() ==> is_space(s[k]),
        j == 0 || !is_space(s[j - 1]),
    ensures
        rtrim(s) == s.subrange(0, j),
    decreases s.len() - j,
{
    if j == s.len() {
        assert(s.subrange(0, j) =~= s);
    } else {
        lemma_rtrim_at(s.drop_last(), j);
        assert(s.drop_last().subrange(0, j) =~= s.subrange(0, j));
    }
}

/// `s` with surrounding whitespace removed, as a fresh slice of `s`.
pub fn trim_str<'a>(s: &'a str) -> (r: &'a str)
    ensures
        r@ == trimmed(s@),
{
    let n = s.unicode_len();
    let mut i: usize = 0;
    while i < n && is_space_char(s.get_char(i))
        invariant
            0 <= i <= n,
            n == s@.len(),
            forall|k: int| 0 <= k < i ==> is_space(s@[k]),
        decreases n - i,
    {
        i = i + 1;
    }
    proof {
        lemma_ltrim_at(s@, i as int);
    }
    let mut j: usize = n;
    while j > i && is_space_char(s.get_char(j - 1))
        invariant
            i <= j <= n,
            n == s@.len(),
            forall|k: int| j <= k < n ==> is_space(s@[k]),
        decreases j,
    {
        j = j - 1;
    }
    proof {
        let t = s@.subrange(i as int, n as int);
        lemma_rtrim_at(t, j - i);
        assert(t.subrange(0, j - i) =~= s@.subrange(i as int, j as int));
    }
    s.substring_char(i, j)
}

/// Compares two string slices character by character.
pub fn str_eq(a: &str, b: &str) -> (r: bool)
    ensures
        r == (a@ == b@),
{
    let na = a.unicode_len();
    let nb = b.unicode_len();
    if na != nb {
        return false;
    }
    let mut i: usize = 0;
    while i < na
        invariant
            0 <= i <= na,
            na == a@.len(),
            na == b@.len(),
            forall|k: int| 0 <= k < i ==> a@[k] == b@[k],
        decreases na - i,
    {
        if a.get_char(i) != b.get_char(i) {
            return false;
        }
        i = i + 1;
    }
    proof {
        assert(a@ =~= b@);
    }
    true
}

// ---------------------------------------------------------------------------
// Whitespace collapsing
// ---------------------------------------------------------------------------

/// The whitespace-separated words of `s` that follow the current partial
/// word `cur`: the model of `str::split_whitespace`.
pub open spec fn tokens_acc(s: Seq<char>, cur: Seq<char>) -> Seq<Seq<char>>
    decreases s.len(),
{
    if s.len() == 0 {
        if cur.len() == 0 {
            Seq::empty()
        } else {
            seq![cur]
        }
    } else if is_space(s[0]) {
        if cur.len() == 0 {
            tokens_acc(s.drop_first(), Seq::empty())
        } else {
            seq![cur] + tokens_acc(s.drop_first(), Seq::empty())
        }
    } else {
        tokens_acc(s.drop_first(), cur.push(s[0]))
    }
}

/// The whitespace-separated words of `s`.
pub open spec fn tokens(s: Seq<char>) -> Seq<Seq<char>> {
    tokens_acc(s, Seq::empty())
}

/// The words of `ts` joined by single spaces.
pub open spec fn join_spaced(ts: Seq<Seq<char>>) -> Seq<char>
    decreases ts.len(),
{
    if ts.len() == 0 {
        Seq::empty()
    } else if ts.len() == 1 {
        ts[0]
    } else {
        ts[0] + seq![' '] + join_spaced(ts.drop_first())
    }
}

/// The index of the first `[` in `s`, or `s.len()` if there is none.
pub open spec fn first_bracket(s: Seq<char>) -> int
    decreases s.len(),
{
    if s.len() == 0 {
        0
    } else if s[0] == '[' {
        0
    } else {
        1 + first_bracket(s.drop_first())
    }
}

/// A normalized album title: runs of whitespace collapsed to single spaces
/// and trimmed, then truncated at the first `[`, then trailing whitespace
/// trimmed again.
pub open spec fn normalized(s: Seq<char>) -> Seq<char> {
    let j = join_spaced(tokens(s));
    rtrim(j.subrange(0, first_bracket(j)))
}

proof fn lemma_tokens_word(w: Seq<char>, r: Seq<char>, cur: Seq<char>)
    requires
        forall|k: int| 0 <= k < w.len() ==> !is_space(w[k]),
    ensures
        tokens_acc(w + r, cur) == tokens_acc(r, cur + w),
    decreases w.len(),
{
    if w.len() == 0 {
        assert(w + r =~= r);
        assert(cur + w =~= cur);
    } else {
        assert((w + r)[0] == w[0]);
        assert((w + r).drop_first() =~= w.drop_first() + r);
        lemma_tokens_word(w.drop_first(), r, cur.push(w[0]));
        assert(cur.push(w[0]) + w.drop_first() =~= cur + w);
    }
}

proof fn lemma_tokens_flush(u: Seq<char>, cur: Seq<char>)
    requires
        cur.len() > 0,
        u.len() == 0 || is_space(u[0]),
    ensures
        tokens_acc(u, cur) == seq![cur] + tokens_acc(u, Seq::empty()),
{
    if u.len() == 0 {
        assert(seq![cur] + Seq::<Seq<char>>::empty() =~= seq![cur]);
    }
}

proof fn lemma_join_push(ts: Seq<Seq<char>>, w: Seq<char>)
    ensures
        join_spaced(ts.push(w)) == if ts.len() == 0 {
            w
        } else {
            join_spaced(ts) + seq![' '] + w
        },
    decreases ts.len(),
{
    if ts.len() == 0 {
        assert(ts.push(w)[0] == w);
    } else if ts.len() == 1 {
        assert(ts.push(w).drop_first() =~= seq![w]);
        assert(join_spaced(seq![w]) == w);
    } else {
        assert(ts.push(w).drop_first() =~= ts.drop_first().push(w));
        lemma_join_push(ts.drop_first(), w);
    }
}

proof fn lemma_first_bracket_at(s: Seq<char>, k: int)
    requires
        0 <= k <= s.len(),
        forall|m: int| 0 <= m < k ==> s[m] != '[',
        k == s.len() || s[k] == '[',
    ensures
        first_bracket(s) == k,
    decreases k,
{
    if k > 0 {
        lemma_first_bracket_at(s.drop_first(), k - 1);
    }
}

proof fn lemma_first_bracket_props(s: Seq<char>)
    ensures
        0 <= first_bracket(s) <= s.len(),
        forall|m: int| 0 <= m < first_bracket(s) ==> s[m] != '[',
    decreases s.len(),
{
    if s.len() > 0 && s[0] != '[' {
        lemma_first_bracket_props(s.drop_first());
        assert forall|m: int| 0 <= m < first_bracket(s) implies s[m] != '[' by {
            if m > 0 {
                assert(s.drop_first()[m - 1] == s[m]);
            }
        }
    }
}

/// Every whitespace character of `s` is a plain space followed by a
/// non-space character, and `s` does not start with a space: the shape that
/// collapsing and trimming produce.
spec fn spaced_mid(s: Seq<char>) -> bool {
    forall|i: int|
        0 <= i < s.len() && is_space(#[trigger] s[i]) ==> s[i] == ' ' && i + 1 < s.len()
            && !is_space(s[i + 1])
}

spec fn space_canonical(s: Seq<char>) -> bool {
    &&& s.len() > 0 ==> !is_space(s[0])
    &&& spaced_mid(s)
}

/// Every word of `ts` is non-empty and free of whitespace.
spec fn wordlike(ts: Seq<Seq<char>>) -> bool {
    &&& forall|i: int| 0 <= i < ts.len() ==> (#[trigger] ts[i]).len() > 0
    &&& forall|i: int, k: int|
        0 <= i < ts.len() && 0 <= k < ts[i].len() ==> !is_space(#[trigger] ts[i][k])
}

proof fn lemma_tokens_wordlike(s: Seq<char>, cur: Seq<char>)
    requires
        forall|k: int| 0 <= k < cur.len() ==> !is_space(cur[k]),
    ensures
        wordlike(tokens_acc(s, cur)),
    decreases s.len(),
{
    if s.len() == 0 {
    } else if is_space(s[0]) {
        lemma_tokens_wordlike(s.drop_first(), Seq::empty());
        if cur.len() > 0 {
            let ts = seq![cur] + tokens_acc(s.drop_first(), Seq::empty());
            assert forall|i: int| 0 <= i < ts.len() implies (#[trigger] ts[i]).len() > 0 by {
                if i > 0 {
                    assert(ts[i] == tokens_acc(s.drop_first(), Seq::empty())[i - 1]);
                }
            }
            assert forall|i: int, k: int|
                0 <= i < ts.len() && 0 <= k < ts[i].len() implies !is_space(
                #[trigger] ts[i][k],
            ) by {
                if i > 0 {
                    assert(ts[i] == tokens_acc(s.drop_first(), Seq::empty())[i - 1]);
                }
            }
        }
    } else {
        lemma_tokens_wordlike(s.drop_first(), cur.push(s[0]));
    }
}

proof fn lemma_join_canonical(ts: Seq<Seq<char>>)
    requires
        wordlike(ts),
    ensures
        space_canonical(join_spaced(ts)),
        ts.len() > 0 ==> join_spaced(ts).len() > 0 && !is_space(join_spaced(ts)[0]),
    decreases ts.len(),
{
    if ts.len() <= 1 {
    } else {
        let w = ts[0];
        let rest = ts.drop_first();
        assert(wordlike(rest)) by {
            assert forall|i: int| 0 <= i < rest.len() implies (#[trigger] rest[i]).len() > 0 by {
                assert(rest[i] == ts[i + 1]);
            }
            assert forall|i: int, k: int|
                0 <= i < rest.len() && 0 <= k < rest[i].len() implies !is_space(
                #[trigger] rest[i][k],
            ) by {
                assert(rest[i] == ts[i + 1]);
            }
        }
        lemma_join_canonical(rest);
        let jr = join_spaced(rest);
        let j = join_spaced(ts);
        assert(j == w + seq![' '] + jr);
        assert(jr.len() > 0 && !is_space(jr[0]));
        assert forall|i: int|
            0 <= i < j.len() && is_space(#[trigger] j[i]) implies j[i] == ' ' && i + 1 < j.len()
            && !is_space(j[i + 1]) by {
            if i < w.len() {
                assert(j[i] == w[i]);
            } else if i == w.len() {
                assert(j[i] == ' ');
                assert(j[i + 1] == jr[0]);
            } else {
                assert(j[i] == jr[i - w.len() - 1]);
                assert(j[i + 1] == jr[i - w.len()]);
            }
        }
        assert(j[0] == w[0]);
    }
}

proof fn lemma_join_tokens_mid(s: Seq<char>, cur: Seq<char>)
    requires
        spaced_mid(s),
        cur.len() > 0,
    ensures
        tokens_acc(s, cur).len() >= 1,
        join_spaced(tokens_acc(s, cur)) == cur + s,
    decreases s.len(),
{
    if s.len() == 0 {
        assert(cur + s =~= cur);
    } else if !is_space(s[0]) {
        assert(spaced_mid(s.drop_first())) by {
            assert forall|i: int|
                0 <= i < s.drop_first().len() && is_space(
                    #[trigger] s.drop_first()[i],
                ) implies s.drop_first()[i] == ' ' && i + 1 < s.drop_first().len() && !is_space(
                s.drop_first()[i + 1],
            ) by {
                assert(s.drop_first()[i] == s[i + 1]);
                assert(is_space(s[i + 1]));
                assert(s.drop_first()[i + 1] == s[i + 2]);
            }
        }
        lemma_join_tokens_mid(s.drop_first(), cur.push(s[0]));
        assert(cur.push(s[0]) + s.drop_first() =~= cur + s);
    } else {
        assert(s[0] == ' ' && 1 < s.len() && !is_space(s[1]));
        let s1 = s.drop_first();
        assert(spaced_mid(s1)) by {
            assert forall|i: int|
                0 <= i < s1.len() && is_space(#[trigger] s1[i]) implies s1[i] == ' ' && i + 1
                < s1.len() && !is_space(s1[i + 1]) by {
                assert(s1[i] == s[i + 1]);
                assert(is_space(s[i + 1]));
                assert(s1[i + 1] == s[i + 2]);
            }
        }
        let s2 = s1.drop_first();
        assert(spaced_mid(s2)) by {
            assert forall|i: int|
                0 <= i < s2.len() && is_space(#[trigger] s2[i]) implies s2[i] == ' ' && i + 1
                < s2.len() && !is_space(s2[i + 1]) by {
                assert(s2[i] == s1[i + 1]);
                assert(is_space(s1[i + 1]));
                assert(s2[i + 1] == s1[i + 2]);
            }
        }
        lemma_join_tokens_mid(s2, Seq::empty().push(s1[0]));
        let r = tokens_acc(s2, Seq::empty().push(s1[0]));
        assert(tokens_acc(s1, Seq::empty()) == r);
        assert(tokens_acc(s, cur) == seq![cur] + r);
        let ts = seq![cur] + r;
        assert(ts.len() >= 2);
        assert(ts[0] == cur);
        assert(ts.drop_first() =~= r);
        assert(join_spaced(ts) == cur + seq![' '] + join_spaced(r));
        assert(join_spaced(r) == Seq::empty().push(s1[0]) + s2);
        assert(Seq::empty().push(s1[0]) + s2 =~= s1);
        assert(cur + seq![' '] + s1 =~= cur + s);
    }
}

proof fn lemma_join_tokens_canonical(s: Seq<char>)
    requires
        space_canonical(s),
    ensures
        join_spaced(tokens(s)) == s,
{
    if s.len() == 0 {
        assert(join_spaced(tokens(s)) =~= s);
    } else {
        assert(spaced_mid(s.drop_first())) by {
            assert forall|i: int|
                0 <= i < s.drop_first().len() && is_space(
                    #[trigger] s.drop_first()[i],
                ) implies s.drop_first()[i] == ' ' && i + 1 < s.drop_first().len() && !is_space(
                s.drop_first()[i + 1],
            ) by {
                assert(s.drop_first()[i] == s[i + 1]);
                assert(is_space(s[i + 1]));
                assert(s.drop_first()[i + 1] == s[i + 2]);
            }
        }
        lemma_join_tokens_mid(s.drop_first(), Seq::empty().push(s[0]));
        assert(tokens(s) == tokens_acc(s.drop_first(), Seq::empty().push(s[0])));
        assert(Seq::empty().push(s[0]) + s.drop_first() =~= s);
    }
}

proof fn lemma_canonical_prefix_fixed(j: Seq<char>, k2: int)
    requires
        space_canonical(j),
        0 <= k2 <= j.len(),
        forall|m: int| 0 <= m < k2 ==> j[m] != '[',
        k2 > 0 ==> !is_space(j[k2 - 1]),
    ensures
        normalized(j.subrange(0, k2)) == j.subrange(0, k2),
{
    let y = j.subrange(0, k2);
    assert(space_canonical(y)) by {
        assert forall|i: int|
            0 <= i < y.len() && is_space(#[trigger] y[i]) implies y[i] == ' ' && i + 1 < y.len()
            && !is_space(y[i + 1]) by {
            assert(y[i] == j[i]);
            assert(i + 1 < k2) by {
                if i + 1 == k2 {
                    assert(is_space(j[k2 - 1]));
                }
            }
            assert(y[i + 1] == j[i + 1]);
        }
    }
    lemma_join_tokens_canonical(y);
    lemma_first_bracket_at(y, y.len() as int);
    assert(y.subrange(0, y.len() as int) =~= y);
    lemma_rtrim_at(y, y.len() as int);
}

/// Law: album-title normalization is idempotent — normalizing a title a
/// second time returns it unchanged.
pub proof fn lemma_normalized_idempotent(s: Seq<char>)
    ensures
        normalized(normalized(s)) == normalized(s),
{
    let j = join_spaced(tokens(s));
    lemma_tokens_wordlike(s, Seq::empty());
    lemma_join_canonical(tokens(s));
    lemma_first_bracket_props(j);
    let k = first_bracket(j);
    let p = j.subrange(0, k);
    let k2 = if k > 0 && is_space(j[k - 1]) {
        k - 1
    } else {
        k
    };
    if k > 0 && is_space(j[k - 1]) {
        assert(j[k - 1] == ' ');
        assert(!is_space(j[0]));
        assert(k - 1 > 0);
        assert(!is_space(j[k - 2])) by {
            if is_space(j[k - 2]) {
                assert(!is_space(j[k - 1]));
            }
        }
    }
    assert forall|m: int| k2 <= m < p.len() implies is_space(p[m]) by {
        assert(p[m] == j[m]);
    }
    lemma_rtrim_at(p, k2);
    assert(p.subrange(0, k2) =~= j.subrange(0, k2));
    lemma_canonical_prefix_fixed(j, k2);
}

/// Collapses every whitespace run in `s` to a single space and trims.
fn collapse(s: &str) -> (r: String)
    ensures
        r@ == join_spaced(tokens(s@)),
{
    let n = s.unicode_len();
    let ghost ts = tokens(s@);
    let mut out = String::new();
    let mut any = false;
    let mut i: usize = 0;
    let ghost mut t: int = 0;
    proof {
        assert(s@.skip(0) =~= s@);
        assert(ts.skip(0) =~= ts);
        assert(ts.take(0) =~= Seq::<Seq<char>>::empty());
    }
    while i < n
        invariant
            0 <= i <= n,
            n == s@.len(),
            ts == tokens(s@),
            0 <= t <= ts.len(),
            any == (t > 0),
            out@ == join_spaced(ts.take(t)),
            tokens_acc(s@.skip(i as int), Seq::empty()) == ts.skip(t),
        decreases n - i,
    {
        if is_space_char(s.get_char(i)) {
            proof {
                assert(s@.skip(i as int).drop_first() =~= s@.skip(i + 1));
            }
            i = i + 1;
        } else {
            let start = i;
            i = i + 1;
            while i < n && !is_space_char(s.get_char(i))
                invariant
                    start < i <= n,
                    n == s@.len(),
                    forall|k: int| start <= k < i ==> !is_space(s@[k]),
                decreases n - i,
            {
                i = i + 1;
            }
            proof {
                let w = s@.subrange(start as int, i as int);
                assert(w + s@.skip(i as int) =~= s@.skip(start as int));
                lemma_tokens_word(w, s@.skip(i as int), Seq::empty());
                assert(Seq::<char>::empty() + w =~= w);
                lemma_tokens_flush(s@.skip(i as int), w);
                // ts.skip(t) == seq![w] + tokens_acc(s@.skip(i), empty)
                assert(ts.skip(t).len() > 0);
                assert(t < ts.len());
                assert(ts.skip(t)[0] == ts[t]);
                assert(ts[t] == w);
                assert(ts.skip(t).drop_first() =~= ts.skip(t + 1));
                assert(tokens_acc(s@.skip(i as int), Seq::empty()) =~= ts.skip(t + 1));
                lemma_join_push(ts.take(t), w);
                assert(ts.take(t).push(ts[t]) =~= ts.take(t + 1));
            }
            if any {
                out.append(" ");
                proof {
                    reveal_strlit(" ");
                    assert(" "@ =~= seq![' ']);
                }
            }
            out.append(s.substring_char(start, i));
            any = true;
            proof {
                t = t + 1;
                if t == 1 {
                    assert(join_spaced(ts.take(0)) =~= Seq::<char>::empty());
                    assert(out@ =~= join_spaced(ts.take(t)));
                } else {
                    assert(out@ =~= join_spaced(ts.take(t)));
                }
            }
        }
    }
    proof {
        assert(s@.skip(n as int) =~= Seq::<char>::empty());
        assert(ts.skip(t).len() == 0);
        assert(ts.take(t) =~= ts);
    }
    out
}

/// Cleans an album title: collapses all whitespace runs (newlines and tabs
/// included) to single spaces, trims, and drops a trailing `[`-delimited
/// annotation together with the whitespace before it.
pub fn normalize_album_title(raw: &str) -> (r: String)
    ensures
        r@ == normalized(raw@),
{
    let c = collapse(raw);
    let cs = c.as_str();
    let n = cs.unicode_len();
    let mut k: usize = 0;
    while k < n && cs.get_char(k) != '['
        invariant
            0 <= k <= n,
            n == cs@.len(),
            forall|m: int| 0 <= m < k ==> cs@[m] != '[',
        decreases n - k,
    {
        k = k + 1;
    }
    proof {
        lemma_first_bracket_at(cs@, k as int);
    }
    let mut j: usize = k;
    while j > 0 && is_space_char(cs.get_char(j - 1))
        invariant
            0 <= j <= k,
            n == cs@.len(),
            k <= n,
            forall|m: int| j <= m < k ==> is_space(cs@[m]),
        decreases j,
    {
        j = j - 1;
    }
    proof {
        let p = cs@.subrange(0, k as int);
        lemma_rtrim_at(p, j as int);
        assert(p.subrange(0, j as int) =~= cs@.subrange(0, j as int));
    }
    String::from_str(cs.substring_char(0, j))
}

// ---------------------------------------------------------------------------
// Pattern removal
// ---------------------------------------------------------------------------

/// `s` with every occurrence of `pat` removed, scanning left to right over
/// non-overlapping matches: the model of `str::replace(pat, "")`.
pub open spec fn removed(s: Seq<char>, pat: Seq<char>) -> Seq<char>
    decreases s.len(),
{
    if s.len() == 0 {
        s
    } else if 1 <= pat.len() <= s.len() && s.subrange(0, pat.len() as int) == pat {
        removed(s.skip(pat.len() as int), pat)
    } else {
        seq![s[0]] + removed(s.drop_first(), pat)
    }
}

/// Removes every occurrence of `pat` from `s`, scanning left to right.
fn remove_pattern(s: &str, pat: &str) -> (r: String)
    requires
        pat@.len() >= 1,
    ensures
        r@ == removed(s@, pat@),
{
    let n = s.unicode_len();
    let np = pat.unicode_len();
    let mut out = String::new();
    let mut i: usize = 0;
    proof {
        assert(s@.skip(0) =~= s@);
    }
    while i < n
        invariant
            0 <= i <= n,
            n == s@.len(),
            np == pat@.len(),
            np >= 1,
            removed(s@, pat@) == out@ + removed(s@.skip(i as int), pat@),
        decreases n - i,
    {
        let ghost u = s@.skip(i as int);
        let mut is_match = false;
        if np <= n - i {
            let mut q: usize = 0;
            while q < np && s.get_char(i + q) == pat.get_char(q)
                invariant
                    0 <= q <= np,
                    i + np <= n,
                    n == s@.len(),
                    np == pat@.len(),
                    forall|k: int| 0 <= k < q ==> s@[i + k] == pat@[k],
                decreases np - q,
            {
                q = q + 1;
            }
            if q == np {
                is_match = true;
                proof {
                    assert(u.subrange(0, np as int) =~= pat@);
                }
            } else {
                proof {
                    assert(u.subrange(0, np as int)[q as int] == s@[i + q]);
                    assert(u.subrange(0, np as int) != pat@);
                }
            }
        } else {
            proof {
                assert(u.len() < np);
            }
        }
        if is_match {
            proof {
                assert(u.skip(np as int) =~= s@.skip(i + np));
            }
            i = i + np;
        } else {
            proof {
                assert(u[0] == s@[i as int]);
                assert(u.drop_first() =~= s@.skip(i + 1));
                assert(removed(u, pat@) == seq![s@[i as int]] + removed(s@.skip(i + 1), pat@));
            }
            out.append(s.substring_char(i, i + 1));
            proof {
                assert(s@.subrange(i as int, i + 1) =~= seq![s@[i as int]]);
            }
            i = i + 1;
        }
    }
    proof {
        assert(s@.skip(n as int) =~= Seq::<char>::empty());
    }
    out
}

// ---------------------------------------------------------------------------
// Splitting into words
// ---------------------------------------------------------------------------

/// The views of a list of strings.
pub open spec fn string_views(v: Seq<String>) -> Seq<Seq<char>> {
    v.map_values(|x: String| x@)
}

/// Splits `s` on whitespace, as `str::split_whitespace` does.
pub fn split_ws(s: &str) -> (v: Vec<String>)
    ensures
        string_views(v@) == tokens(s@),
{
    let n = s.unicode_len();
    let ghost ts = tokens(s@);
    let mut v: Vec<String> = Vec::new();
    let mut i: usize = 0;
    let ghost mut t: int = 0;
    proof {
        assert(s@.skip(0) =~= s@);
        assert(ts.skip(0) =~= ts);
        assert(string_views(v@) =~= ts.take(0));
    }
    while i < n
        invariant
            0 <= i <= n,
            n == s@.len(),
            ts == tokens(s@),
            0 <= t <= ts.len(),
            v@.len() == t,
            string_views(v@) == ts.take(t),
            tokens_acc(s@.skip(i as int), Seq::empty()) == ts.skip(t),
        decreases n - i,
    {
        if is_space_char(s.get_char(i)) {
            proof {
                assert(s@.skip(i as int).drop_first() =~= s@.skip(i + 1));
            }
            i = i + 1;
        } else {
            let start = i;
            i = i + 1;
            while i < n && !is_space_char(s.get_char(i))
                invariant
                    start < i <= n,
                    n == s@.len(),
                    forall|k: int| start <= k < i ==> !is_space(s@[k]),
                decreases n - i,
            {
                i = i + 1;
            }
            proof {
                let w = s@.subrange(start as int, i as int);
                assert(w + s@.skip(i as int) =~= s@.skip(start as int));
                lemma_tokens_word(w, s@.skip(i as int), Seq::empty());
                assert(Seq::<char>::empty() + w =~= w);
                lemma_tokens_flush(s@.skip(i as int), w);
                assert(ts.skip(t).len() > 0);
                assert(ts.skip(t)[0] == ts[t]);
                assert(ts[t] == w);
                assert(ts.skip(t).drop_first() =~= ts.skip(t + 1));
                assert(tokens_acc(s@.skip(i as int), Seq::empty()) =~= ts.skip(t + 1));
            }
            v.push(String::from_str(s.substring_char(start, i)));
            proof {
                t = t + 1;
                assert(string_views(v@) =~= ts.take(t));
            }
        }
    }
    proof {
        assert(s@.skip(n as int) =~= Seq::<char>::empty());
        assert(ts.skip(t).len() == 0);
        assert(ts.take(t) =~= ts);
    }
    v
}

// ---------------------------------------------------------------------------
// Integers
// ---------------------------------------------------------------------------

/// A decimal digit.
pub open spec fn is_digit(c: char) -> bool {
    48 <= c as u32 <= 57
}

/// The numeric value of a digit.
pub open spec fn digit_val(c: char) -> int {
    c as u32 - 48
}

/// The numeric value of a digit string, most significant digit first.
pub open spec fn digits_val(s: Seq<char>) -> int
    decreases s.len(),
{
    if s.len() == 0 {
        0
    } else {
        digits_val(s.drop_last()) * 10 + digit_val(s.last())
    }
}

/// A non-empty run of digits and nothing else.
pub open spec fn all_digits(s: Seq<char>) -> bool {
    forall|i: int| 0 <= i < s.len() ==> is_digit(#[trigger] s[i])
}

/// The number that `str::parse` reads from `s` for an unsigned type: an
/// optional `+`, then one or more digits.
pub open spec fn parse_unsigned_spec(s: Seq<char>) -> Option<int> {
    let ds = if s.len() >= 1 && s[0] == '+' {
        s.drop_first()
    } else {
        s
    };
    if ds.len() == 0 || !all_digits(ds) {
        None
    } else {
        Some(digits_val(ds))
    }
}

/// The number that `str::parse` reads from `s` for a signed type: an
/// optional `+` or `-`, then one or more digits.
pub open spec fn parse_signed_spec(s: Seq<char>) -> Option<int> {
    if s.len() >= 1 && s[0] == '-' {
        match parse_unsigned_spec(s.drop_first()) {
            Some(v) => if s.drop_first().len() >= 1 && s[1] == '+' {
                None
            } else {
                Some(-v)
            },
            None => None,
        }
    } else {
        parse_unsigned_spec(s)
    }
}

proof fn lemma_digits_val_nonneg(s: Seq<char>)
    requires
        forall|i: int| 0 <= i < s.len() ==> is_digit(#[trigger] s[i]),
    ensures
        digits_val(s) >= 0,
    decreases s.len(),
{
    if s.len() > 0 {
        assert forall|i: int| 0 <= i < s.drop_last().len() implies is_digit(
            #[trigger] s.drop_last()[i],
        ) by {
            assert(s.drop_last()[i] == s[i]);
        }
        lemma_digits_val_nonneg(s.drop_last());
    }
}

proof fn lemma_digits_val_monotone(s: Seq<char>, k: int)
    requires
        forall|i: int| 0 <= i < s.len() ==> is_digit(#[trigger] s[i]),
        0 <= k <= s.len(),
    ensures
        digits_val(s) >= digits_val(s.take(k)),
    decreases s.len() - k,
{
    if k < s.len() {
        lemma_digits_val_monotone(s, k + 1);
        assert(s.take(k + 1).drop_last() =~= s.take(k));
        assert(s.take(k + 1).last() == s[k]);
        assert forall|i: int| 0 <= i < s.take(k).len() implies is_digit(
            #[trigger] s.take(k)[i],
        ) by {
            assert(s.take(k)[i] == s[i]);
        }
        lemma_digits_val_nonneg(s.take(k));
    } else {
        assert(s.take(k) =~= s);
    }
}

/// Reads the digits of `s@.subrange(start, n)` into a number, giving up as
/// soon as the value passes `limit` or a non-digit appears.
fn parse_digits(s: &str, start: usize, limit: u32) -> (r: Option<u32>)
    requires
        start <= s@.len(),
        limit <= 100_000,
    ensures
        match r {
            Some(v) => {
                &&& s@.len() > start
                &&& all_digits(s@.skip(start as int))
                &&& v as int == digits_val(s@.skip(start as int))
                &&& v <= limit
            },
            None => s@.len() == start || !all_digits(s@.skip(start as int)) || digits_val(
                s@.skip(start as int),
            ) > limit,
        },
{
    let n = s.unicode_len();
    if start == n {
        return None;
    }
    let ghost ds = s@.skip(start as int);
    let mut acc: u32 = 0;
    let mut i = start;
    while i < n
        invariant
            start <= i <= n,
            n == s@.len(),
            start < n,
            limit <= 100_000,
            ds == s@.skip(start as int),
            forall|k: int| start <= k < i ==> is_digit(#[trigger] s@[k]),
            acc as int == digits_val(s@.subrange(start as int, i as int)),
            acc <= limit,
        decreases n - i,
    {
        let c = s.get_char(i);
        let u = c as u32;
        if u < 48 || u > 57 {
            proof {
                assert(ds[i - start] == s@[i as int]);
                assert(!is_digit(ds[i - start]));
            }
            return None;
        }
        proof {
            assert(s@.subrange(start as int, i + 1).drop_last() =~= s@.subrange(
                start as int,
                i as int,
            ));
            assert(s@.subrange(start as int, i + 1).last() == s@[i as int]);
        }
        acc = acc * 10 + (u - 48);
        if acc > limit {
            proof {
                if all_digits(ds) {
                    lemma_digits_val_monotone(ds, i + 1 - start);
                    assert(ds.take(i + 1 - start) =~= s@.subrange(start as int, i + 1));
                }
            }
            return None;
        }
        i = i + 1;
    }
    proof {
        assert(s@.subrange(start as int, n as int) =~= ds);
        assert forall|k: int| 0 <= k < ds.len() implies is_digit(#[trigger] ds[k]) by {
            assert(ds[k] == s@[start + k]);
        }
    }
    Some(acc)
}

// ---------------------------------------------------------------------------
// Dates
// ---------------------------------------------------------------------------

/// A leap year of the Gregorian calendar.
pub open spec fn is_leap_year(y: int) -> bool {
    y % 4 == 0 && (y % 100 != 0 || y % 400 == 0)
}

/// How many days month `m` has in year `y`.
pub open spec fn spec_days_in_month(y: int, m: int) -> int {
    if m == 2 {
        if is_leap_year(y) {
            29
        } else {
            28
        }
    } else if m == 4 || m == 6 || m == 9 || m == 11 {
        30
    } else {
        31
    }
}

/// A calendar date, valid only through [`from_calendar_date`].
#[derive(Clone, Copy, Debug, PartialEq, Eq, Structural)]
pub struct Date {
    pub year: i32,
    pub month: Month,
    pub day: u8,
}

impl Date {
    /// The day falls within the month, and the year within the range a date
    /// library covers.
    pub open spec fn wf(self) -> bool {
        &&& -9999 <= self.year <= 9999
        &&& 1 <= self.day as int <= spec_days_in_month(self.year as int, self.month.spec_number())
    }
}

/// How many days `month` has in `year`.
pub fn days_in_month(year: i32, month: Month) -> (n: u8)
    ensures
        n as int == spec_days_in_month(year as int, month.spec_number()),
    {
    let m = month.number();
    if m == 2 {
        let y = year as i64;
        let a: u64 = if y >= 0 {
            y as u64
        } else {
            (-y) as u64
        };
        proof {
            assert(a as int == y as int || a as int == -(y as int));
            assert((a as int) % 4 == 0 <==> (y as int) % 4 == 0) by (nonlinear_arith)
                requires
                    a as int == y as int || a as int == -(y as int),
            ;
            assert((a as int) % 100 == 0 <==> (y as int) % 100 == 0) by (nonlinear_arith)
                requires
                    a as int == y as int || a as int == -(y as int),
            ;
            assert((a as int) % 400 == 0 <==> (y as int) % 400 == 0) by (nonlinear_arith)
                requires
                    a as int == y as int || a as int == -(y as int),
            ;
        }
        if a % 4 == 0 && (a % 100 != 0 || a % 400 == 0) {
            29
        } else {
            28
        }
    } else if m == 4 || m == 6 || m == 9 || m == 11 {
        30
    } else {
        31
    }
}

/// Builds a date, failing when the year lies outside the supported range or
/// the day outside the month.
pub fn from_calendar_date(year: i32, month: Month, day: u8) -> (r: Option<Date>)
    ensures
        match r {
            Some(dt) => dt == (Date { year, month, day }) && dt.wf(),
            None => !(Date { year, month, day }).wf(),
        },
{
    if year < -9999 || year > 9999 {
        return None;
    }
    let dim = days_in_month(year, month);
    if day >= 1 && day <= dim {
        Some(Date { year, month, day })
    } else {
        None
    }
}

// ---------------------------------------------------------------------------
// Free-text dates
// ---------------------------------------------------------------------------

/// The month named by `s`, spelled out in full English, case-sensitively.
pub open spec fn month_of_name(s: Seq<char>) -> Option<Month> {
    if s == "January"@ {
        Some(Month::January)
    } else if s == "February"@ {
        Some(Month::February)
    } else if s == "March"@ {
        Some(Month::March)
    } else if s == "April"@ {
        Some(Month::April)
    } else if s == "May"@ {
        Some(Month::May)
    } else if s == "June"@ {
        Some(Month::June)
    } else if s == "July"@ {
        Some(Month::July)
    } else if s == "August"@ {
        Some(Month::August)
    } else if s == "September"@ {
        Some(Month::September)
    } else if s == "October"@ {
        Some(Month::October)
    } else if s == "November"@ {
        Some(Month::November)
    } else if s == "December"@ {
        Some(Month::December)
    } else {
        None
    }
}

/// Parses a full English month name.
pub fn month_from_name(s: &str) -> (r: Option<Month>)
    ensures
        r == month_of_name(s@),
{
    if str_eq(s, "January") {
        Some(Month::January)
    } else if str_eq(s, "February") {
        Some(Month::February)
    } else if str_eq(s, "March") {
        Some(Month::March)
    } else if str_eq(s, "April") {
        Some(Month::April)
    } else if str_eq(s, "May") {
        Some(Month::May)
    } else if str_eq(s, "June") {
        Some(Month::June)
    } else if str_eq(s, "July") {
        Some(Month::July)
    } else if str_eq(s, "August") {
        Some(Month::August)
    } else if str_eq(s, "September") {
        Some(Month::September)
    } else if str_eq(s, "October") {
        Some(Month::October)
    } else if str_eq(s, "November") {
        Some(Month::November)
    } else if str_eq(s, "December") {
        Some(Month::December)
    } else {
        None
    }
}

/// `s` with the ordinal-suffix fragments and commas removed, in the fixed
/// order the date cleaner applies them.
pub open spec fn stripped(s: Seq<char>) -> Seq<char> {
    removed(removed(removed(removed(removed(s, "nd"@), "st"@), "rd"@), "th"@), ","@)
}

/// The date that the free-text parser reads from `s`, if any: strip ordinal
/// suffixes and commas, split into exactly three words, read them as month
/// name, day and year, and check the day against the month.
pub open spec fn spec_parse_date(s: Seq<char>) -> Option<Date> {
    let ts = tokens(stripped(s));
    if ts.len() != 3 {
        None
    } else {
        match (month_of_name(ts[0]), parse_unsigned_spec(ts[1]), parse_signed_spec(ts[2])) {
            (Some(m), Some(d), Some(y)) => {
                if 0 <= d <= 255 && (Date {
                    year: y as i32,
                    month: m,
                    day: d as u8,
                }).wf() && -9999 <= y <= 9999 {
                    Some(Date { year: y as i32, month: m, day: d as u8 })
                } else {
                    None
                }
            },
            _ => None,
        }
    }
}

/// Parses a free-text English date such as `November 15th, 2024`: the
/// fragments `nd`, `st`, `rd`, `th` and `,` are stripped, the rest must be a
/// full month name, a day and a year, and the day must fall within the month.
pub fn parse_free_text_date(text: &str) -> (r: Result<Date, Error>)
    ensures
        match r {
            Ok(dt) => spec_parse_date(text@) == Some(dt),
            Err(e) => spec_parse_date(text@) is None && e == Error::ParseFail,
        },
{
    proof {
        reveal_strlit("nd");
        reveal_strlit("st");
        reveal_strlit("rd");
        reveal_strlit("th");
        reveal_strlit(",");
    }
    let s1 = remove_pattern(text, "nd");
    let s2 = remove_pattern(s1.as_str(), "st");
    let s3 = remove_pattern(s2.as_str(), "rd");
    let s4 = remove_pattern(s3.as_str(), "th");
    let s5 = remove_pattern(s4.as_str(), ",");
    let toks = split_ws(s5.as_str());
    let ghost ts = tokens(stripped(text@));
    proof {
        assert(string_views(toks@) == ts);
    }
    if toks.len() != 3 {
        return Err(Error::ParseFail);
    }
    proof {
        assert(toks@[0]@ == ts[0] && toks@[1]@ == ts[1] && toks@[2]@ == ts[2]);
    }
    let month = match month_from_name(toks[0].as_str()) {
        Some(m) => m,
        None => {
            return Err(Error::ParseFail);
        },
    };
    let day = match parse_day(toks[1].as_str()) {
        Some(d) => d,
        None => {
            return Err(Error::ParseFail);
        },
    };
    let year = match parse_year(toks[2].as_str()) {
        Some(y) => y,
        None => {
            return Err(Error::ParseFail);
        },
    };
    match from_calendar_date(year, month, day) {
        Some(dt) => Ok(dt),
        None => Err(Error::ParseFail),
    }
}

/// Reads a day-of-month token as `str::parse::<u8>` does.
pub fn parse_day(s: &str) -> (r: Option<u8>)
    ensures
        match r {
            Some(d) => parse_unsigned_spec(s@) == Some(d as int),
            None => match parse_unsigned_spec(s@) {
                Some(v) => !(0 <= v <= 255),
                None => true,
            },
        },
{
    let n = s.unicode_len();
    let start: usize = if n >= 1 && s.get_char(0) == '+' {
        1
    } else {
        0
    };
    let ghost ds = if s@.len() >= 1 && s@[0] == '+' {
        s@.drop_first()
    } else {
        s@
    };
    proof {
        assert(s@.skip(start as int) =~= ds);
    }
    match parse_digits(s, start, 255) {
        Some(v) => Some(v as u8),
        None => None,
    }
}

/// Reads a year token as `str::parse::<i32>` does, additionally rejecting
/// years outside the supported date range.
fn parse_year(s: &str) -> (r: Option<i32>)
    ensures
        match r {
            Some(y) => parse_signed_spec(s@) == Some(y as int) && -9999 <= y <= 9999,
            None => match parse_signed_spec(s@) {
                Some(v) => !(-9999 <= v <= 9999),
                None => true,
            },
        },
{
    let n = s.unicode_len();
    if n >= 1 && s.get_char(0) == '-' {
        let ghost rest = s@.drop_first();
        proof {
            assert(s@.skip(1) =~= rest);
        }
        if n >= 2 && s.get_char(1) == '+' {
            return None;
        }
        proof {
            if rest.len() >= 1 && rest[0] == '+' {
                assert(s@[1] == '+');
            }
        }
        match parse_digits(s, 1, 9999) {
            Some(v) => Some(-(v as i32)),
            None => None,
        }
    } else {
        let start: usize = if n >= 1 && s.get_char(0) == '+' {
            1
        } else {
            0
        };
        let ghost ds = if s@.len() >= 1 && s@[0] == '+' {
            s@.drop_first()
        } else {
            s@
        };
        proof {
            assert(s@.skip(start as int) =~= ds);
        }
        match parse_digits(s, start, 9999) {
            Some(v) => Some(v as i32),
            None => None,
        }
    }
}

} // verus!
