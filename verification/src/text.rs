//! Character-level helpers shared by the path and shebang modules.

use vstd::prelude::*;

verus! {

/// `String::push` appends the given character to the end of the string.
pub assume_specification[ String::push ](s: &mut String, ch: char)
    ensures
        final(s)@ == old(s)@.push(ch),
;

/// The characters of a string slice, in order.
pub fn chars_of(s: &str) -> (r: Vec<char>)
    ensures
        r@ == s@,
{
    let mut r: Vec<char> = Vec::new();
    for c in it: s.chars()
        invariant
            it.seq() == s@,
            r@ == it.seq().take(it.index()),
    {
        r.push(c);
    }
    r
}

/// A string made of the given characters.
pub fn string_from_chars(cs: &[char]) -> (r: String)
    ensures
        r@ == cs@,
{
    let mut r = String::new();
    let mut i: usize = 0;
    while i < cs.len()
        invariant
            i <= cs@.len(),
            r@ == cs@.take(i as int),
        decreases cs@.len() - i,
    {
        r.push(cs[i]);
        i = i + 1;
        assert(cs@.take(i as int) == cs@.take(i - 1).push(cs@[i - 1]));
    }
    assert(cs@.take(cs@.len() as int) == cs@);
    r
}

/// The lower-case form of a string, as `str::to_lowercase` computes it
/// (Unicode `Lowercase` mapping, context-sensitive for a final sigma).
pub uninterp spec fn lowercase(s: Seq<char>) -> Seq<char>;

/// Calls `str::to_lowercase`. Its result is named by `lowercase`; nothing more
/// is claimed of it.
#[verifier::external_body]
pub(crate) fn to_lowercase(s: &str) -> (r: String)
    ensures
        r@ == lowercase(s@),
{
    s.to_lowercase()
}

/// The characters that `String::from_utf8_lossy` decodes from a byte sequence:
/// each invalid UTF-8 sequence stands as one U+FFFD.
pub uninterp spec fn utf8_lossy(bytes: Seq<u8>) -> Seq<char>;

/// The bytes up to and including index `j` are all ASCII.
pub open spec fn ascii_through(bytes: Seq<u8>, j: int) -> bool {
    forall|q: int| 0 <= q <= j ==> bytes[q] < 0x80u8
}

/// Calls `String::from_utf8_lossy`. Its result is named by `utf8_lossy`. As the
/// documentation of the function says, valid sequences are decoded and only
/// invalid ones are replaced: so valid UTF-8 gives the decoded text, and a
/// leading run of ASCII bytes stands unchanged at the start of the result.
#[verifier::external_body]
pub(crate) fn from_utf8_lossy(bytes: &[u8]) -> (r: String)
    ensures
        r@ == utf8_lossy(bytes@),
        vstd::utf8::valid_utf8(bytes@) ==> r@ == vstd::utf8::decode_utf8(bytes@),
        forall|j: int|
            0 <= j < bytes@.len() && #[trigger] ascii_through(bytes@, j) ==> j < r@.len() && r@[j]
                == (bytes@[j] as char),
{
    String::from_utf8_lossy(bytes).into_owned()
}

/// Whether a character has the Unicode `White_Space` property, which is what
/// `char::is_whitespace` tests.
pub open spec fn is_whitespace(c: char) -> bool {
    ||| ('\u{9}' <= c && c <= '\u{d}')
    ||| c == ' '
    ||| c == '\u{85}'
    ||| c == '\u{a0}'
    ||| c == '\u{1680}'
    ||| ('\u{2000}' <= c && c <= '\u{200a}')
    ||| c == '\u{2028}'
    ||| c == '\u{2029}'
    ||| c == '\u{202f}'
    ||| c == '\u{205f}'
    ||| c == '\u{3000}'
}

/// Executable form of `is_whitespace`.
pub fn char_is_whitespace(c: char) -> (r: bool)
    ensures
        r == is_whitespace(c),
{
    ('\u{9}' <= c && c <= '\u{d}') || c == ' ' || c == '\u{85}' || c == '\u{a0}' || c
        == '\u{1680}' || ('\u{2000}' <= c && c <= '\u{200a}') || c == '\u{2028}' || c
        == '\u{2029}' || c == '\u{202f}' || c == '\u{205f}' || c == '\u{3000}'
}

/// The elements of `ts` joined by `sep`, as `[String]::join` does.
pub open spec fn join_with(ts: Seq<Seq<char>>, sep: Seq<char>) -> Seq<char>
    decreases ts.len(),
{
    if ts.len() == 0 {
        seq![]
    } else if ts.len() == 1 {
        ts[0]
    } else {
        join_with(ts.drop_last(), sep) + sep + ts.last()
    }
}

/// Joining where the last element grows by `x` grows the result by `x`.
pub proof fn lemma_join_extend_last(ts: Seq<Seq<char>>, sep: Seq<char>, x: Seq<char>)
    requires
        ts.len() >= 1,
    ensures
        join_with(ts.update(ts.len() - 1, ts.last() + x), sep) == join_with(ts, sep) + x,
{
    let ts2 = ts.update(ts.len() - 1, ts.last() + x);
    assert(ts2.drop_last() =~= ts.drop_last());
    if ts.len() >= 2 {
        assert(join_with(ts2, sep) =~= join_with(ts, sep) + x);
    }
}

/// Joining a sequence with one more element appends the separator and it.
pub proof fn lemma_join_push(ts: Seq<Seq<char>>, sep: Seq<char>, x: Seq<char>)
    ensures
        join_with(ts.push(x), sep) == if ts.len() == 0 {
            x
        } else {
            join_with(ts, sep) + sep + x
        },
{
    assert(ts.push(x).drop_last() =~= ts);
}

/// Joining two non-empty sequences of parts is joining each and putting the
/// separator between them.
pub proof fn lemma_join_concat(a: Seq<Seq<char>>, b: Seq<Seq<char>>, sep: Seq<char>)
    requires
        a.len() > 0,
        b.len() > 0,
    ensures
        join_with(a + b, sep) == join_with(a, sep) + sep + join_with(b, sep),
    decreases b.len(),
{
    assert((a + b).drop_last() =~= a + b.drop_last());
    assert((a + b).last() == b.last());
    if b.len() == 1 {
        assert(a + b.drop_last() =~= a);
    } else {
        lemma_join_concat(a, b.drop_last(), sep);
        assert(join_with(a + b, sep) =~= join_with(a, sep) + sep + join_with(b, sep));
    }
}

/// The texts of a sequence of strings.
pub open spec fn string_views(v: Seq<String>) -> Seq<Seq<char>> {
    v.map_values(|x: String| x@)
}

} // verus!
