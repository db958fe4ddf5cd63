//! Shebang lines: reading them from the start of a file, normalizing their
//! whitespace, and matching them against configured keys.

use vstd::prelude::*;

use crate::text::{
    ascii_through, char_is_whitespace, chars_of, from_utf8_lossy, is_whitespace, join_with,
    lemma_join_concat, lemma_join_extend_last, lemma_join_push, utf8_lossy,
};

verus! {

/// The maximum number of bytes to read from the start of an extensionless file
/// when looking for a shebang. A shebang line is short in practice, so this is a
/// generous upper bound that keeps the read cheap while still capturing the full
/// line (only the leading portion is needed for prefix matching anyway).
pub const SHEBANG_READ_BYTES: usize = 1024;

/// The maximal runs of non-whitespace characters of `s`, in order
/// (what `str::split_whitespace` yields).
pub open spec fn whitespace_tokens(s: Seq<char>) -> Seq<Seq<char>>
    decreases s.len(),
{
    if s.len() == 0 {
        seq![]
    } else {
        let prev = whitespace_tokens(s.drop_last());
        let c = s.last();
        if is_whitespace(c) {
            prev
        } else if s.len() >= 2 && !is_whitespace(s[s.len() - 2]) {
            prev.update(prev.len() - 1, prev.last().push(c))
        } else {
            prev.push(seq![c])
        }
    }
}

/// The tokens of a shebang line joined by single spaces.
pub open spec fn normalized_shebang(s: Seq<char>) -> Seq<char> {
    join_with(whitespace_tokens(s), seq![' '])
}

/// A token: non-empty and free of whitespace.
pub open spec fn is_token(t: Seq<char>) -> bool {
    t.len() > 0 && forall|j: int| 0 <= j < t.len() ==> !is_whitespace(#[trigger] t[j])
}

/// Every element is a token.
pub open spec fn all_tokens(ts: Seq<Seq<char>>) -> bool {
    forall|i: int| 0 <= i < ts.len() ==> is_token(#[trigger] ts[i])
}

/// A normalized line: no whitespace at either end, and every whitespace
/// character is a single space between two non-whitespace characters.
pub open spec fn is_normalized_line(s: Seq<char>) -> bool {
    forall|i: int|
        0 <= i < s.len() && is_whitespace(#[trigger] s[i]) ==> {
            &&& s[i] == ' '
            &&& 0 < i < s.len() - 1
            &&& !is_whitespace(s[i - 1])
            &&& !is_whitespace(s[i + 1])
        }
}

/// Whether `line` starts with `key` at a whitespace boundary (or equals it).
pub open spec fn matches_key(line: Seq<char>, key: Seq<char>) -> bool {
    &&& key.len() <= line.len()
    &&& line.take(key.len() as int) == key
    &&& (line.len() == key.len() || line[key.len() as int] == ' ')
}

/// `e` is the end of the first line of `b`: the index of its first `\n`, or
/// its length when it holds none.
pub open spec fn is_first_line_end(b: Seq<u8>, e: int) -> bool {
    &&& 0 <= e <= b.len()
    &&& forall|j: int| 0 <= j < e ==> b[j] != 10u8
    &&& (e == b.len() || b[e] == 10u8)
}

/// The end of the first line of `b`.
pub open spec fn first_line_end(b: Seq<u8>) -> int {
    choose|e: int| is_first_line_end(b, e)
}

/// Whether `b` begins with the two bytes `#!`.
pub open spec fn starts_with_shebang(b: Seq<u8>) -> bool {
    b.len() >= 2 && b[0] == 0x23u8 && b[1] == 0x21u8
}

/// The normalized shebang line at the start of `b`, if `b` starts with `#!`.
pub open spec fn parsed_shebang(b: Seq<u8>) -> Option<Seq<char>> {
    if starts_with_shebang(b) {
        Some(normalized_shebang(utf8_lossy(b.take(first_line_end(b)))))
    } else {
        None
    }
}

proof fn lemma_first_line_end_unique(b: Seq<u8>, e: int)
    requires
        is_first_line_end(b, e),
    ensures
        first_line_end(b) == e,
{
    let f: int = first_line_end(b);
    assert(is_first_line_end(b, f));
    if f < e {
        assert(b[f] != 10u8);
    } else if e < f {
        assert(b[e] != 10u8);
    }
}

/// Every token of a string is non-empty and free of whitespace, and the last
/// one ends where the string ends when the string ends in non-whitespace.
pub proof fn lemma_tokens_are_tokens(s: Seq<char>)
    ensures
        all_tokens(whitespace_tokens(s)),
        s.len() > 0 && !is_whitespace(s.last()) ==> whitespace_tokens(s).len() > 0,
    decreases s.len(),
{
    if s.len() > 0 {
        lemma_tokens_are_tokens(s.drop_last());
        let prev = whitespace_tokens(s.drop_last());
        let c = s.last();
        if !is_whitespace(c) && s.len() >= 2 && !is_whitespace(s[s.len() - 2]) {
            assert(s.drop_last().last() == s[s.len() - 2]);
            let t = prev.last().push(c);
            assert(is_token(t)) by {
                assert(is_token(prev[prev.len() - 1]));
                assert forall|j: int| 0 <= j < t.len() implies !is_whitespace(#[trigger] t[j]) by {
                    if j < t.len() - 1 {
                        assert(t[j] == prev[prev.len() - 1][j]);
                    }
                }
            }
            let r = prev.update(prev.len() - 1, t);
            assert forall|i: int| 0 <= i < r.len() implies is_token(#[trigger] r[i]) by {
                if i < r.len() - 1 {
                    assert(r[i] == prev[i]);
                }
            }
        } else if !is_whitespace(c) {
            let r = prev.push(seq![c]);
            assert forall|i: int| 0 <= i < r.len() implies is_token(#[trigger] r[i]) by {
                if i < r.len() - 1 {
                    assert(r[i] == prev[i]);
                } else {
                    assert(r[i] == seq![c]);
                }
            }
        }
    }
}

/// A token, written after anything ending in whitespace, is one more token.
proof fn lemma_tokens_after_space(a: Seq<char>, x: Seq<char>)
    requires
        is_token(x),
        a.len() > 0,
        is_whitespace(a.last()),
    ensures
        whitespace_tokens(a + x) == whitespace_tokens(a).push(x),
    decreases x.len(),
{
    if x.len() == 1 {
        assert((a + x).drop_last() =~= a);
        assert(x =~= seq![x[0]]);
        assert((a + x)[(a + x).len() - 2] == a.last());
    } else {
        let y = x.drop_last();
        assert(is_token(y)) by {
            assert forall|j: int| 0 <= j < y.len() implies !is_whitespace(#[trigger] y[j]) by {
                assert(y[j] == x[j]);
            }
        }
        lemma_tokens_after_space(a, y);
        assert((a + x).drop_last() =~= a + y);
        assert((a + x)[(a + x).len() - 2] == y.last());
        assert(!is_whitespace(x[x.len() - 1]));
        let prev = whitespace_tokens(a).push(y);
        assert(y.push(x.last()) =~= x);
        assert(prev.update(prev.len() - 1, prev.last().push(x.last())) =~= whitespace_tokens(
            a,
        ).push(x));
    }
}

/// A lone token has itself as its only token.
proof fn lemma_tokens_of_token(x: Seq<char>)
    requires
        is_token(x),
    ensures
        whitespace_tokens(x) == seq![x],
    decreases x.len(),
{
    assert(!is_whitespace(x[x.len() - 1]));
    if x.len() == 1 {
        assert(x.drop_last() =~= Seq::<char>::empty());
        assert(whitespace_tokens(x.drop_last()) =~= Seq::<Seq<char>>::empty());
        assert(x =~= seq![x[0]]);
    } else {
        let y = x.drop_last();
        assert(is_token(y)) by {
            assert forall|j: int| 0 <= j < y.len() implies !is_whitespace(#[trigger] y[j]) by {
                assert(y[j] == x[j]);
            }
        }
        lemma_tokens_of_token(y);
        assert(x[x.len() - 2] == y.last());
        assert(!is_whitespace(x[x.len() - 2]));
        assert(!is_whitespace(x[x.len() - 1]));
        assert(y.push(x.last()) =~= x);
        assert(seq![y].update(0, y.push(x.last())) =~= seq![x]);
    }
}

/// Joining tokens by single spaces and splitting again gives the tokens back.
pub proof fn lemma_tokens_of_join(ts: Seq<Seq<char>>)
    requires
        all_tokens(ts),
    ensures
        whitespace_tokens(join_with(ts, seq![' '])) == ts,
    decreases ts.len(),
{
    if ts.len() == 0 {
        assert(whitespace_tokens(Seq::<char>::empty()) =~= Seq::<Seq<char>>::empty());
    } else if ts.len() == 1 {
        assert(is_token(ts[0]));
        lemma_tokens_of_token(ts[0]);
        assert(ts =~= seq![ts[0]]);
    } else {
        let dl = ts.drop_last();
        assert(all_tokens(dl)) by {
            assert forall|i: int| 0 <= i < dl.len() implies is_token(#[trigger] dl[i]) by {
                assert(dl[i] == ts[i]);
            }
        }
        lemma_tokens_of_join(dl);
        let j = join_with(dl, seq![' ']);
        let a = j + seq![' '];
        assert(a.last() == ' ');
        assert(is_token(ts[ts.len() - 1]));
        lemma_tokens_after_space(a, ts.last());
        assert(a.drop_last() =~= j);
        assert(whitespace_tokens(a) == whitespace_tokens(j));
        assert(ts =~= dl.push(ts.last()));
    }
}

/// The first and last characters of a join of tokens are not whitespace, and
/// the join is normalized.
proof fn lemma_join_tokens_normalized(ts: Seq<Seq<char>>)
    requires
        all_tokens(ts),
    ensures
        is_normalized_line(join_with(ts, seq![' '])),
        ts.len() > 0 ==> join_with(ts, seq![' ']).len() > 0,
        ts.len() > 0 ==> !is_whitespace(join_with(ts, seq![' '])[0]),
        ts.len() > 0 ==> !is_whitespace(join_with(ts, seq![' ']).last()),
    decreases ts.len(),
{
    let r = join_with(ts, seq![' ']);
    if ts.len() == 1 {
        assert(is_token(ts[0]));
        assert(is_normalized_line(r)) by {
            assert forall|i: int| 0 <= i < r.len() && is_whitespace(#[trigger] r[i]) implies false by {
                assert(r[i] == ts[0][i]);
            }
        }
    } else if ts.len() >= 2 {
        let dl = ts.drop_last();
        assert(all_tokens(dl)) by {
            assert forall|i: int| 0 <= i < dl.len() implies is_token(#[trigger] dl[i]) by {
                assert(dl[i] == ts[i]);
            }
        }
        lemma_join_tokens_normalized(dl);
        let j = join_with(dl, seq![' ']);
        let x = ts.last();
        assert(is_token(ts[ts.len() - 1]));
        assert(r == j + seq![' '] + x);
        assert forall|i: int| 0 <= i < r.len() && is_whitespace(#[trigger] r[i]) implies {
            &&& r[i] == ' '
            &&& 0 < i < r.len() - 1
            &&& !is_whitespace(r[i - 1])
            &&& !is_whitespace(r[i + 1])
        } by {
            if i < j.len() {
                assert(r[i] == j[i]);
                assert(is_whitespace(j[i]));
                assert(r[i - 1] == j[i - 1]);
                assert(r[i + 1] == j[i + 1]);
            } else if i == j.len() {
                assert(r[i - 1] == j.last());
                assert(r[i + 1] == x[0]);
            } else {
                assert(r[i] == x[i - j.len() - 1]);
            }
        }
        assert(r[0] == j[0]);
        assert(r.last() == x.last());
        assert(!is_whitespace(x[x.len() - 1]));
    }
}

/// Normalizing keeps the tokens of a line and yields a normalized line.
pub proof fn lemma_normalized_shebang(s: Seq<char>)
    ensures
        whitespace_tokens(normalized_shebang(s)) == whitespace_tokens(s),
        is_normalized_line(normalized_shebang(s)),
{
    lemma_tokens_are_tokens(s);
    lemma_tokens_of_join(whitespace_tokens(s));
    lemma_join_tokens_normalized(whitespace_tokens(s));
}

/// Normalizing a shebang line twice is the same as normalizing it once.
pub proof fn lemma_normalize_idempotent(s: Seq<char>)
    ensures
        normalized_shebang(normalized_shebang(s)) == normalized_shebang(s),
{
    lemma_normalized_shebang(s);
}

/// Reading only the start of a file finds the same shebang line as reading all
/// of it, when the start holds the whole first line: the parse looks no further
/// than the first line break.
pub proof fn lemma_parsed_shebang_prefix(bytes: Seq<u8>, n: int)
    requires
        0 <= n <= bytes.len(),
        n == bytes.len() || first_line_end(bytes) < n,
    ensures
        parsed_shebang(bytes.take(n)) == parsed_shebang(bytes),
{
    let t = bytes.take(n);
    if n < bytes.len() {
        let e = first_line_end(bytes);
        lemma_first_line_end_exists(bytes);
        if starts_with_shebang(bytes) {
            assert(e >= 2) by {
                assert(bytes[0] != 10u8 && bytes[1] != 10u8);
            }
        }
        assert(is_first_line_end(t, e)) by {
            assert(t[e] == bytes[e]);
        }
        lemma_first_line_end_unique(t, e);
        assert(t.take(e) =~= bytes.take(e));
        if starts_with_shebang(t) {
            assert(t[0] == bytes[0] && t[1] == bytes[1]);
        }
        if starts_with_shebang(bytes) {
            assert(t[0] == bytes[0] && t[1] == bytes[1]);
        }
    } else {
        assert(t =~= bytes);
    }
}

/// Every byte sequence has a first line end.
proof fn lemma_first_line_end_exists(b: Seq<u8>)
    ensures
        is_first_line_end(b, first_line_end(b)),
    decreases b.len(),
{
    if b.len() == 0 {
        assert(is_first_line_end(b, 0));
    } else if b[0] == 10u8 {
        assert(is_first_line_end(b, 0));
    } else {
        let r = b.skip(1);
        lemma_first_line_end_exists(r);
        let e = first_line_end(r);
        assert(is_first_line_end(b, e + 1)) by {
            assert forall|j: int| 0 <= j < e + 1 implies b[j] != 10u8 by {
                if j > 0 {
                    assert(b[j] == r[j - 1]);
                }
            }
            if e + 1 < b.len() {
                assert(b[e + 1] == r[e]);
            }
        }
    }
}

/// Tokens on either side of a whitespace character stay apart.
proof fn lemma_tokens_concat_space(a: Seq<char>, r: Seq<char>)
    ensures
        whitespace_tokens(a + seq![' '] + r) == whitespace_tokens(a) + whitespace_tokens(r),
    decreases r.len(),
{
    let s = a + seq![' '] + r;
    if r.len() == 0 {
        assert(s.drop_last() =~= a);
        assert(whitespace_tokens(r) =~= Seq::<Seq<char>>::empty());
        assert(whitespace_tokens(a) + whitespace_tokens(r) =~= whitespace_tokens(a));
    } else {
        let r1 = r.drop_last();
        let c = r.last();
        lemma_tokens_concat_space(a, r1);
        assert(s.drop_last() =~= a + seq![' '] + r1);
        assert(s.last() == c);
        let ta = whitespace_tokens(a);
        let tr1 = whitespace_tokens(r1);
        if !is_whitespace(c) {
            if r1.len() > 0 {
                assert(s[s.len() - 2] == r1.last());
                assert(r[r.len() - 2] == r1.last());
            } else {
                assert(s[s.len() - 2] == ' ');
            }
            if r1.len() > 0 && !is_whitespace(r1.last()) {
                lemma_tokens_are_tokens(r1);
                let p = ta + tr1;
                assert(p.update(p.len() - 1, p.last().push(c)) =~= ta + tr1.update(
                    tr1.len() - 1,
                    tr1.last().push(c),
                ));
            } else {
                assert((ta + tr1).push(seq![c]) =~= ta + tr1.push(seq![c]));
            }
        }
    }
}

/// `p` is a prefix of `s`.
pub open spec fn is_prefix_of<T>(p: Seq<T>, s: Seq<T>) -> bool {
    p.len() <= s.len() && s.take(p.len() as int) == p
}

/// A normalized line starts with a normalized key at a whitespace boundary
/// exactly when the key's tokens are the first tokens of the line.
pub proof fn lemma_matches_key_iff_token_prefix(line: Seq<char>, key: Seq<char>)
    requires
        whitespace_tokens(key).len() > 0,
    ensures
        matches_key(normalized_shebang(line), normalized_shebang(key)) <==> is_prefix_of(
            whitespace_tokens(key),
            whitespace_tokens(line),
        ),
{
    let lt = whitespace_tokens(line);
    let kt = whitespace_tokens(key);
    let l = normalized_shebang(line);
    let k = normalized_shebang(key);
    lemma_normalized_shebang(line);
    lemma_normalized_shebang(key);
    lemma_tokens_are_tokens(line);
    lemma_tokens_are_tokens(key);
    if is_prefix_of(kt, lt) {
        let rest = lt.skip(kt.len() as int);
        assert(lt =~= kt + rest);
        if rest.len() == 0 {
            assert(lt =~= kt);
            assert(l.take(k.len() as int) =~= k);
        } else {
            lemma_join_concat(kt, rest, seq![' ']);
            let j = join_with(rest, seq![' ']);
            assert(l == k + seq![' '] + j);
            assert(l.take(k.len() as int) =~= k);
            assert(l[k.len() as int] == ' ');
        }
    }
    if matches_key(l, k) {
        if l.len() == k.len() {
            assert(l =~= k) by {
                assert(l.take(k.len() as int) == k);
                assert(l.take(k.len() as int) =~= l);
            }
            assert(lt == kt);
            assert(lt.take(kt.len() as int) =~= kt);
        } else {
            let r = l.skip(k.len() + 1int);
            assert(l =~= k + seq![' '] + r) by {
                assert(l.take(k.len() as int) == k);
            }
            lemma_tokens_concat_space(k, r);
            assert(lt == kt + whitespace_tokens(r));
            assert(lt.take(kt.len() as int) =~= kt);
        }
    }
}

/// A text whose first two characters are not whitespace has a first token
/// that starts with them.
proof fn lemma_first_token_start(s: Seq<char>)
    requires
        s.len() >= 2,
        !is_whitespace(s[0]),
        !is_whitespace(s[1]),
    ensures
        whitespace_tokens(s).len() > 0,
        whitespace_tokens(s)[0].len() >= 2,
        whitespace_tokens(s)[0][0] == s[0],
        whitespace_tokens(s)[0][1] == s[1],
    decreases s.len(),
{
    if s.len() == 2 {
        let a = s.drop_last();
        assert(a.drop_last() =~= Seq::<char>::empty());
        assert(whitespace_tokens(a.drop_last()) =~= Seq::<Seq<char>>::empty());
        assert(a.last() == s[0]);
        let prev = whitespace_tokens(a);
        assert(prev == seq![seq![s[0]]]);
        assert(whitespace_tokens(s) == prev.update(0, prev[0].push(s[1])));
    } else {
        let a = s.drop_last();
        lemma_first_token_start(a);
        let prev = whitespace_tokens(a);
        let c = s.last();
        if !is_whitespace(c) && s.len() >= 2 && !is_whitespace(s[s.len() - 2]) {
            let t = prev.update(prev.len() - 1, prev.last().push(c));
            if prev.len() == 1 {
                assert(t[0] == prev[0].push(c));
            } else {
                assert(t[0] == prev[0]);
            }
        }
    }
}

/// A join starts with its first part.
proof fn lemma_join_starts_with_first(ts: Seq<Seq<char>>, sep: Seq<char>)
    requires
        ts.len() > 0,
    ensures
        is_prefix_of(ts[0], join_with(ts, sep)),
    decreases ts.len(),
{
    if ts.len() > 1 {
        lemma_join_starts_with_first(ts.drop_last(), sep);
        let j = join_with(ts.drop_last(), sep);
        assert(ts.drop_last()[0] == ts[0]);
        assert(join_with(ts, sep) == j + sep + ts.last());
        assert((j + sep + ts.last()).take(ts[0].len() as int) =~= j.take(ts[0].len() as int));
    } else {
        assert(ts[0].take(ts[0].len() as int) =~= ts[0]);
    }
}

/// Normalizing a line whose first two characters are not whitespace keeps
/// them as its first two characters.
proof fn lemma_normalized_start(s: Seq<char>)
    requires
        s.len() >= 2,
        !is_whitespace(s[0]),
        !is_whitespace(s[1]),
    ensures
        normalized_shebang(s).len() >= 2,
        normalized_shebang(s)[0] == s[0],
        normalized_shebang(s)[1] == s[1],
{
    lemma_first_token_start(s);
    let ts = whitespace_tokens(s);
    lemma_join_starts_with_first(ts, seq![' ']);
    let n = normalized_shebang(s);
    assert(n.take(ts[0].len() as int)[0] == n[0]);
    assert(n.take(ts[0].len() as int)[1] == n[1]);
}

/// Normalizes a shebang line for matching by trimming surrounding whitespace and
/// collapsing runs of inter-token whitespace down to a single space.
///
/// This lets a configured key like `#!/usr/bin/env -S deno run` match a file
/// whose shebang uses different spacing between tokens.
pub fn normalize_shebang_line(line: &str) -> (r: String)
    ensures
        r@ == normalized_shebang(line@),
        whitespace_tokens(r@) == whitespace_tokens(line@),
        is_normalized_line(r@),
{
    let cs = chars_of(line);
    let mut result = String::new();
    let mut in_token = false;
    let mut have_token = false;
    let mut i: usize = 0;
    while i < cs.len()
        invariant
            i <= cs@.len(),
            cs@ == line@,
            result@ == normalized_shebang(cs@.take(i as int)),
            in_token == (i > 0 && !is_whitespace(cs@[i - 1])),
            have_token == (whitespace_tokens(cs@.take(i as int)).len() > 0),
            in_token ==> have_token,
        decreases cs@.len() - i,
    {
        let c = cs[i];
        let ghost p = cs@.take(i as int);
        let ghost p2 = cs@.take(i + 1);
        proof {
            assert(p2.drop_last() =~= p);
            assert(p2.last() == c);
            if i > 0 {
                assert(p2[p2.len() - 2] == cs@[i - 1]);
            }
            lemma_tokens_are_tokens(p);
        }
        if char_is_whitespace(c) {
            in_token = false;
        } else {
            if !in_token {
                if have_token {
                    result.push(' ');
                }
                result.push(c);
                proof {
                    lemma_join_push(whitespace_tokens(p), seq![' '], seq![c]);
                    assert(whitespace_tokens(p2) == whitespace_tokens(p).push(seq![c]));
                    if have_token {
                        assert(result@ =~= normalized_shebang(p) + seq![' '] + seq![c]);
                    } else {
                        assert(result@ =~= seq![c]);
                    }
                }
                have_token = true;
            } else {
                result.push(c);
                proof {
                    let t = whitespace_tokens(p);
                    assert(t.last().push(c) =~= t.last() + seq![c]);
                    lemma_join_extend_last(t, seq![' '], seq![c]);
                    assert(result@ =~= normalized_shebang(p) + seq![c]);
                }
            }
            in_token = true;
        }
        i = i + 1;
    }
    proof {
        assert(cs@.take(cs@.len() as int) =~= cs@);
        lemma_normalized_shebang(line@);
    }
    result
}

/// Extracts and normalizes the shebang line from the start of a file's bytes.
///
/// Returns `None` when the content does not start with `#!`. Only the first line
/// is considered and it is normalized with [`normalize_shebang_line`]: the line
/// returned starts with `#!`, holds no line break, and normalizing it again
/// changes nothing.
pub fn parse_shebang_line(prefix: &[u8]) -> (r: Option<String>)
    ensures
        r is None <==> !starts_with_shebang(prefix@),
        r matches Some(line) ==> Some(line@) == parsed_shebang(prefix@),
        r matches Some(line) ==> {
            &&& line@.len() >= 2
            &&& line@[0] == '#'
            &&& line@[1] == '!'
            &&& !line@.contains('\n')
            &&& normalized_shebang(line@) == line@
        },
{
    if !(prefix.len() >= 2 && prefix[0] == 0x23u8 && prefix[1] == 0x21u8) {
        return None;
    }
    let mut line_end: usize = 0;
    while line_end < prefix.len() && prefix[line_end] != 10u8
        invariant
            line_end <= prefix@.len(),
            forall|j: int| 0 <= j < line_end ==> prefix@[j] != 10u8,
        decreases prefix@.len() - line_end,
    {
        line_end = line_end + 1;
    }
    proof {
        lemma_first_line_end_unique(prefix@, line_end as int);
    }
    let head = &prefix[0..line_end];
    proof {
        assert(prefix@.subrange(0, line_end as int) =~= prefix@.take(line_end as int));
        assert(line_end >= 2) by {
            assert(prefix@[0] != 10u8 && prefix@[1] != 10u8);
        }
        assert(ascii_through(head@, 0));
        assert(ascii_through(head@, 1));
    }
    let line = from_utf8_lossy(head);
    proof {
        assert(line@[0] == '#' && line@[1] == '!') by {
            assert(head@[0] == 0x23u8 && head@[1] == 0x21u8);
        }
        lemma_normalized_start(line@);
        lemma_normalize_idempotent(line@);
    }
    let normalized = normalize_shebang_line(line.as_str());
    proof {
        if normalized@.contains('\n') {
            let k = choose|k: int| 0 <= k < normalized@.len() && normalized@[k] == '\n';
            assert(is_whitespace(normalized@[k]));
        }
    }
    Some(normalized)
}

/// Returns whether a normalized shebang line starts with the given normalized
/// key at a whitespace boundary (or matches it exactly).
pub fn shebang_line_matches_key(normalized_line: &str, normalized_key: &str) -> (r: bool)
    ensures
        r == matches_key(normalized_line@, normalized_key@),
{
    let line = chars_of(normalized_line);
    let key = chars_of(normalized_key);
    if key.len() > line.len() {
        return false;
    }
    let mut i: usize = 0;
    while i < key.len()
        invariant
            i <= key@.len() <= line@.len(),
            line@ == normalized_line@,
            key@ == normalized_key@,
            forall|j: int| 0 <= j < i ==> line@[j] == key@[j],
        decreases key@.len() - i,
    {
        if line[i] != key[i] {
            proof {
                assert(normalized_line@.take(key@.len() as int)[i as int] != key@[i as int]);
            }
            return false;
        }
        i = i + 1;
    }
    proof {
        assert(line@.take(key@.len() as int) =~= key@);
    }
    line.len() == key.len() || line[key.len()] == ' '
}

} // verus!
