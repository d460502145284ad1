//! Paths and patterns as byte strings: how they split into segments, how
//! segments join back into a path, and the order in which segments are kept.
//!
//! Every string is read through its UTF-8 bytes. `/` and `:` are single
//! bytes that never occur inside the encoding of another character, so
//! splitting on the byte is splitting on the character.

use vstd::prelude::*;
use vstd::string::{StringExecFns, StringSliceAdditionalSpecFns};
use vstd::utf8::*;

verus! {

/// The byte that separates the segments of a path.
pub const SLASH: u8 = 0x2f;

/// The byte that opens a parameter segment.
pub const COLON: u8 = 0x3a;

/// Index of the first `/` in `s`, or `s.len()` if `s` holds none.
pub open spec fn first_slash(s: Seq<u8>) -> int
    decreases s.len(),
{
    if s.len() == 0 || s[0] == SLASH {
        0
    } else {
        1 + first_slash(s.drop_first())
    }
}

/// The segments of `s`: the text before the first `/`, then the segments of
/// what follows that `/`. A text without `/` is one segment, so the result
/// is never empty, and `n` slashes give `n + 1` segments. Neighbouring
/// slashes give empty segments; nothing is merged or dropped.
pub open spec fn split(s: Seq<u8>) -> Seq<Seq<u8>>
    decreases s.len(),
{
    let i = first_slash(s);
    if 0 <= i < s.len() {
        seq![s.subrange(0, i)] + split(s.subrange(i + 1, s.len() as int))
    } else {
        seq![s]
    }
}

/// The path spelled by `segs`: a `/` before each segment.
pub open spec fn joined(segs: Seq<Seq<u8>>) -> Seq<u8>
    decreases segs.len(),
{
    if segs.len() == 0 {
        Seq::empty()
    } else {
        joined(segs.drop_last()) + seq![SLASH] + segs.last()
    }
}

/// The texts of a list of segments.
pub open spec fn texts(segs: Seq<&str>) -> Seq<Seq<u8>> {
    Seq::new(segs.len(), |i: int| segs[i].spec_bytes())
}

/// Whether a segment names a parameter: it begins with `:`.
pub open spec fn is_param(seg: Seq<u8>) -> bool {
    seg.len() > 0 && seg[0] == COLON
}

/// Whether `s` begins with `/`.
pub open spec fn starts_with_slash(s: Seq<u8>) -> bool {
    s.len() > 0 && s[0] == SLASH
}

/// Whether `s` ends with `/`.
pub open spec fn ends_with_slash(s: Seq<u8>) -> bool {
    s.len() > 0 && s.last() == SLASH
}

/// `s` without one trailing `/`, if it has one.
pub open spec fn strip_trailing_slash(s: Seq<u8>) -> Seq<u8> {
    if ends_with_slash(s) {
        s.drop_last()
    } else {
        s
    }
}

/// `s` without one leading `/`, if it has one.
pub open spec fn strip_leading_slash(s: Seq<u8>) -> Seq<u8> {
    if starts_with_slash(s) {
        s.drop_first()
    } else {
        s
    }
}

/// The segments of a route pattern. One trailing `/` is dropped, then the
/// leading `/`, and what is left is split. The pattern `/` has no segments.
pub open spec fn pattern_segments(pattern: Seq<u8>) -> Seq<Seq<u8>>
    recommends
        starts_with_slash(pattern),
{
    let trimmed = strip_trailing_slash(pattern);
    if trimmed.len() == 0 {
        Seq::empty()
    } else {
        split(trimmed.drop_first())
    }
}

/// The segments of a request path. One leading `/` is dropped and what is
/// left is split; a trailing `/` is kept and gives a last, empty segment.
/// The paths `/` and the empty path have no segments.
pub open spec fn path_segments(path: Seq<u8>) -> Seq<Seq<u8>> {
    let rest = strip_leading_slash(path);
    if rest.len() == 0 {
        Seq::empty()
    } else {
        split(rest)
    }
}

/// Strict lexicographic order on byte strings, the order in which a node
/// keeps its literal children.
pub open spec fn lex_lt(a: Seq<u8>, b: Seq<u8>) -> bool
    decreases a.len(),
{
    if a.len() == 0 {
        b.len() > 0
    } else if b.len() == 0 {
        false
    } else if a[0] == b[0] {
        lex_lt(a.drop_first(), b.drop_first())
    } else {
        a[0] < b[0]
    }
}

/// The first slash lies within the text or at its end, no `/` stands
/// before it, and a `/` stands at it unless it is the end.
pub proof fn lemma_first_slash(s: Seq<u8>)
    ensures
        0 <= first_slash(s) <= s.len(),
        forall|j: int| 0 <= j < first_slash(s) ==> s[j] != SLASH,
        first_slash(s) < s.len() ==> s[first_slash(s)] == SLASH,
    decreases s.len(),
{
    if s.len() == 0 || s[0] == SLASH {
    } else {
        let t = s.drop_first();
        lemma_first_slash(t);
        assert forall|j: int| 0 <= j < first_slash(s) implies s[j] != SLASH by {
            if j > 0 {
                assert(s[j] == t[j - 1]);
            }
        }
        assert(first_slash(s) < s.len() ==> s[first_slash(s)] == t[first_slash(t)]);
    }
}

/// An index with no `/` before it, and a `/` at it or the end of the text,
/// is the first slash.
pub proof fn lemma_first_slash_at(s: Seq<u8>, i: int)
    requires
        0 <= i <= s.len(),
        forall|j: int| 0 <= j < i ==> s[j] != SLASH,
        i < s.len() ==> s[i] == SLASH,
    ensures
        first_slash(s) == i,
    decreases s.len(),
{
    if i == 0 {
    } else {
        let t = s.drop_first();
        assert(s[0] != SLASH);
        assert forall|j: int| 0 <= j < i - 1 implies t[j] != SLASH by {
            assert(t[j] == s[j + 1]);
        }
        if i < s.len() {
            assert(t[i - 1] == s[i]);
        }
        lemma_first_slash_at(t, i - 1);
    }
}

/// A text without `/` is its own single segment.
pub proof fn lemma_split_plain(s: Seq<u8>)
    requires
        forall|j: int| 0 <= j < s.len() ==> s[j] != SLASH,
    ensures
        split(s) == seq![s],
{
    lemma_first_slash_at(s, s.len() as int);
}

/// Splitting at a `/` that no other `/` precedes.
pub proof fn lemma_split_at(s: Seq<u8>, i: int)
    requires
        0 <= i < s.len(),
        forall|j: int| 0 <= j < i ==> s[j] != SLASH,
        s[i] == SLASH,
    ensures
        split(s) == seq![s.subrange(0, i)] + split(s.subrange(i + 1, s.len() as int)),
        split(s).len() >= 2,
        split(s)[0] == s.subrange(0, i),
        split(s).drop_first() == split(s.subrange(i + 1, s.len() as int)),
{
    lemma_first_slash_at(s, i);
    let rest = split(s.subrange(i + 1, s.len() as int));
    lemma_split_nonempty(s.subrange(i + 1, s.len() as int));
    assert((seq![s.subrange(0, i)] + rest).drop_first() =~= rest);
}

/// A split always has a first segment.
pub proof fn lemma_split_nonempty(s: Seq<u8>)
    ensures
        split(s).len() >= 1,
{
}

/// A `/` appended to a text appends an empty segment.
pub proof fn lemma_split_push_slash(s: Seq<u8>)
    ensures
        split(s.push(SLASH)) == split(s).push(Seq::empty()),
    decreases s.len(),
{
    let i = first_slash(s);
    let e = s.push(SLASH);
    lemma_first_slash(s);
    if i < s.len() {
        assert forall|j: int| 0 <= j < i implies e[j] != SLASH by {
            assert(e[j] == s[j]);
        }
        assert(e[i] == s[i]);
        lemma_split_at(e, i);
        let tail = s.subrange(i + 1, s.len() as int);
        assert(e.subrange(i + 1, e.len() as int) =~= tail.push(SLASH));
        assert(e.subrange(0, i) =~= s.subrange(0, i));
        lemma_split_push_slash(tail);
        assert(split(e) =~= split(s).push(Seq::empty()));
    } else {
        assert forall|j: int| 0 <= j < s.len() implies e[j] != SLASH by {
            assert(e[j] == s[j]);
        }
        lemma_split_at(e, s.len() as int);
        assert(e.subrange(0, s.len() as int) =~= s);
        assert(e.subrange(s.len() as int + 1, e.len() as int) =~= Seq::<u8>::empty());
        assert(split(Seq::<u8>::empty()) =~= seq![Seq::<u8>::empty()]);
        assert(split(e) =~= split(s).push(Seq::empty()));
    }
}

/// Whether no segment of a list holds a `/`.
pub open spec fn plain(segs: Seq<Seq<u8>>) -> bool {
    forall|k: int, j: int|
        0 <= k < segs.len() && 0 <= j < segs[k].len() ==> #[trigger] segs[k][j] != SLASH
}

/// The segments of a text hold no `/`.
pub proof fn lemma_split_is_plain(s: Seq<u8>)
    ensures
        plain(split(s)),
    decreases s.len(),
{
    let i = first_slash(s);
    lemma_first_slash(s);
    if i < s.len() {
        let tail = s.subrange(i + 1, s.len() as int);
        lemma_split_is_plain(tail);
        let all = split(s);
        assert forall|k: int, j: int|
            0 <= k < all.len() && 0 <= j < all[k].len() implies #[trigger] all[k][j] != SLASH by {
            if k == 0 {
                assert(all[0][j] == s[j]);
            } else {
                assert(all[k] == split(tail)[k - 1]);
            }
        }
    }
}

/// Two texts with a `/` between them split into the segments of the one
/// followed by the segments of the other.
pub proof fn lemma_split_join(x: Seq<u8>, y: Seq<u8>)
    ensures
        split(x + seq![SLASH] + y) == split(x) + split(y),
    decreases x.len(),
{
    let whole = x + seq![SLASH] + y;
    let i = first_slash(x);
    lemma_first_slash(x);
    assert forall|j: int| 0 <= j < i implies whole[j] != SLASH by {
        assert(whole[j] == x[j]);
    }
    if i < x.len() {
        assert(whole[i] == x[i]);
        lemma_split_at(whole, i);
        let tail = x.subrange(i + 1, x.len() as int);
        assert(whole.subrange(i + 1, whole.len() as int) =~= tail + seq![SLASH] + y);
        assert(whole.subrange(0, i) =~= x.subrange(0, i));
        lemma_split_join(tail, y);
        assert(split(whole) =~= split(x) + split(y));
    } else {
        assert(whole[x.len() as int] == SLASH);
        lemma_split_at(whole, x.len() as int);
        assert(whole.subrange(0, x.len() as int) =~= x);
        assert(whole.subrange(x.len() as int + 1, whole.len() as int) =~= y);
        assert(split(whole) =~= split(x) + split(y));
    }
}

/// A path that is joined from segments without `/` begins with `/` and
/// splits, behind that `/`, into the same segments.
pub proof fn lemma_split_joined(segs: Seq<Seq<u8>>)
    requires
        segs.len() > 0,
        plain(segs),
    ensures
        starts_with_slash(joined(segs)),
        split(joined(segs).drop_first()) == segs,
    decreases segs.len(),
{
    let init = segs.drop_last();
    let last = segs.last();
    assert forall|j: int| 0 <= j < last.len() implies last[j] != SLASH by {
        assert(segs[segs.len() - 1][j] != SLASH);
    }
    lemma_split_plain(last);
    if init.len() == 0 {
        assert(joined(init) =~= Seq::<u8>::empty());
        assert(joined(segs).drop_first() =~= last);
        assert(seq![last] =~= segs);
    } else {
        assert forall|k: int, j: int|
            0 <= k < init.len() && 0 <= j < init[k].len() implies #[trigger] init[k][j]
            != SLASH by {
            assert(segs[k][j] != SLASH);
        }
        lemma_split_joined(init);
        let front = joined(init).drop_first();
        assert(joined(segs).drop_first() =~= front + seq![SLASH] + last);
        lemma_split_join(front, last);
        assert(init + seq![last] =~= segs);
    }
}

/// Joining with a segment in front.
pub proof fn lemma_joined_front(head: Seq<u8>, rest: Seq<Seq<u8>>)
    ensures
        joined(seq![head] + rest) == seq![SLASH] + head + joined(rest),
    decreases rest.len(),
{
    let all = seq![head] + rest;
    if rest.len() == 0 {
        assert(all.drop_last() =~= Seq::<Seq<u8>>::empty());
        assert(rest =~= Seq::<Seq<u8>>::empty());
        assert(joined(Seq::<Seq<u8>>::empty()) =~= Seq::<u8>::empty());
        assert(all.last() == head);
        assert(joined(all) =~= seq![SLASH] + head + joined(rest));
    } else {
        assert(all.drop_last() =~= seq![head] + rest.drop_last());
        assert(all.last() == rest.last());
        lemma_joined_front(head, rest.drop_last());
        assert(joined(all) =~= seq![SLASH] + head + joined(rest));
    }
}

/// Joining the segments of a text gives the text back, behind one `/`.
pub proof fn lemma_joined_split(s: Seq<u8>)
    ensures
        joined(split(s)) == seq![SLASH] + s,
    decreases s.len(),
{
    let i = first_slash(s);
    lemma_first_slash(s);
    if i < s.len() {
        let head = s.subrange(0, i);
        let tail = s.subrange(i + 1, s.len() as int);
        lemma_joined_split(tail);
        lemma_joined_front(head, split(tail));
        assert(head + (seq![SLASH] + tail) =~= s);
        assert(joined(split(s)) =~= seq![SLASH] + s);
    } else {
        assert(seq![s].drop_last() =~= Seq::<Seq<u8>>::empty());
        assert(joined(Seq::<Seq<u8>>::empty()) =~= Seq::<u8>::empty());
        assert(joined(seq![s]) =~= seq![SLASH] + s);
    }
}

/// Joining the segments of a pattern gives the pattern back, without its
/// trailing `/`.
pub proof fn lemma_joined_pattern(pattern: Seq<u8>)
    requires
        starts_with_slash(pattern),
    ensures
        joined(pattern_segments(pattern)) == strip_trailing_slash(pattern),
{
    let trimmed = strip_trailing_slash(pattern);
    if trimmed.len() > 0 {
        lemma_joined_split(trimmed.drop_first());
        assert(trimmed[0] == SLASH);
        assert(seq![SLASH] + trimmed.drop_first() =~= trimmed);
    }
}

/// How the segments of a pattern, read as a request path, relate to its
/// segments as a pattern: they are the same, but for one more, empty
/// segment where the pattern ends with a `/` that was dropped.
pub proof fn lemma_path_of_pattern(pattern: Seq<u8>)
    requires
        starts_with_slash(pattern),
    ensures
        pattern.len() > 1 && ends_with_slash(pattern) ==> path_segments(pattern)
            == pattern_segments(pattern).push(Seq::empty()),
        !(pattern.len() > 1 && ends_with_slash(pattern)) ==> path_segments(pattern)
            == pattern_segments(pattern),
{
    let rest = pattern.drop_first();
    if pattern.len() > 1 && ends_with_slash(pattern) {
        let trimmed = pattern.drop_last();
        assert(rest =~= trimmed.drop_first().push(SLASH));
        lemma_split_push_slash(trimmed.drop_first());
    } else if pattern.len() == 1 {
        assert(strip_trailing_slash(pattern).len() == 0);
    } else {
    }
}

/// No byte string comes before itself.
pub proof fn lemma_lex_irreflexive(a: Seq<u8>)
    ensures
        !lex_lt(a, a),
    decreases a.len(),
{
    if a.len() > 0 {
        lemma_lex_irreflexive(a.drop_first());
    }
}

/// What comes before a byte string comes before all that it comes before.
pub proof fn lemma_lex_transitive(a: Seq<u8>, b: Seq<u8>, c: Seq<u8>)
    requires
        lex_lt(a, b),
        lex_lt(b, c),
    ensures
        lex_lt(a, c),
    decreases a.len(),
{
    if a.len() > 0 && b.len() > 0 && c.len() > 0 && a[0] == b[0] && b[0] == c[0] {
        lemma_lex_transitive(a.drop_first(), b.drop_first(), c.drop_first());
    }
}

/// Two byte strings that agree on their first `i` bytes are ordered as
/// what follows those bytes.
pub proof fn lemma_lex_skip(a: Seq<u8>, b: Seq<u8>, i: int)
    requires
        0 <= i <= a.len(),
        i <= b.len(),
        forall|j: int| 0 <= j < i ==> a[j] == b[j],
    ensures
        lex_lt(a, b) == lex_lt(a.skip(i), b.skip(i)),
    decreases i,
{
    if i == 0 {
        assert(a.skip(0) =~= a);
        assert(b.skip(0) =~= b);
    } else {
        assert(a[0] == b[0]);
        let ta = a.drop_first();
        let tb = b.drop_first();
        assert forall|j: int| 0 <= j < i - 1 implies ta[j] == tb[j] by {
            assert(ta[j] == a[j + 1]);
            assert(tb[j] == b[j + 1]);
        }
        lemma_lex_skip(ta, tb, i - 1);
        assert(ta.skip(i - 1) =~= a.skip(i));
        assert(tb.skip(i - 1) =~= b.skip(i));
    }
}

/// The UTF-8 encoding of two texts, one after the other, is the encoding of
/// the first followed by that of the second.
pub proof fn lemma_encode_concat(a: Seq<char>, b: Seq<char>)
    ensures
        encode_utf8(a + b) == encode_utf8(a) + encode_utf8(b),
    decreases a.len(),
{
    if a.len() == 0 {
        assert(a + b =~= b);
        assert(encode_utf8(a) + encode_utf8(b) =~= encode_utf8(b));
    } else {
        assert((a + b).drop_first() =~= a.drop_first() + b);
        lemma_encode_concat(a.drop_first(), b);
        assert(encode_utf8(a + b) =~= encode_utf8(a) + encode_utf8(b));
    }
}

/// The bytes of the one-character texts that the tree writes itself.
pub proof fn lemma_marks()
    ensures
        "/".spec_bytes() == seq![SLASH],
        "*".spec_bytes() == seq![0x2au8],
{
    reveal_strlit("/");
    reveal_strlit("*");
    is_ascii_chars_encode_utf8("/"@);
    is_ascii_chars_encode_utf8("*"@);
    assert("/".spec_bytes() =~= seq![SLASH]);
    assert("*".spec_bytes() =~= seq![0x2au8]);
}

/// Appends `/` and a segment to a path.
pub fn push_segment(path: &mut String, seg: &str)
    ensures
        encode_utf8(final(path)@) == encode_utf8(old(path)@) + seq![SLASH] + seg.spec_bytes(),
{
    path.append("/");
    path.append(seg);
    proof {
        lemma_marks();
        lemma_encode_concat(old(path)@, "/"@);
        lemma_encode_concat(old(path)@ + "/"@, seg@);
    }
}

/// How two byte strings compare under [`lex_lt`].
pub enum Rank {
    Below,
    Same,
    Above,
}

/// Compares two byte strings lexicographically.
pub fn compare(a: &[u8], b: &[u8]) -> (r: Rank)
    ensures
        r is Below <==> lex_lt(a@, b@),
        r is Same <==> a@ == b@,
        r is Above <==> lex_lt(b@, a@),
{
    let n: usize = a.len();
    let m: usize = b.len();
    let mut i: usize = 0;
    while i < n && i < m && a[i] == b[i]
        invariant
            n == a@.len(),
            m == b@.len(),
            i <= n,
            i <= m,
            forall|j: int| 0 <= j < i ==> a@[j] == b@[j],
        decreases n - i,
    {
        i += 1;
    }
    proof {
        lemma_lex_skip(a@, b@, i as int);
        lemma_lex_skip(b@, a@, i as int);
        lemma_lex_irreflexive(a@);
        let ta = a@.skip(i as int);
        let tb = b@.skip(i as int);
        if i == n && i == m {
            assert(a@ =~= b@);
        } else if i < n && i < m {
            assert(ta[0] == a@[i as int]);
            assert(tb[0] == b@[i as int]);
        }
    }
    if i == n {
        if i == m {
            Rank::Same
        } else {
            Rank::Below
        }
    } else if i == m {
        Rank::Above
    } else if a[i] < b[i] {
        Rank::Below
    } else {
        Rank::Above
    }
}

/// Whether a segment names a parameter.
pub fn segment_is_param(seg: &str) -> (r: bool)
    ensures
        r == is_param(seg.spec_bytes()),
{
    let bytes = seg.as_bytes();
    bytes.len() > 0 && bytes[0] == COLON
}

/// Whether a text begins with `/`.
pub fn begins_with_slash(text: &str) -> (r: bool)
    ensures
        r == starts_with_slash(text.spec_bytes()),
{
    let bytes = text.as_bytes();
    bytes.len() > 0 && bytes[0] == SLASH
}

/// A `/` in a text stands at a character boundary, and so does the byte
/// after it.
proof fn lemma_slash_boundary(bytes: Seq<u8>, i: int)
    requires
        valid_utf8(bytes),
        0 <= i < bytes.len(),
        bytes[i] == SLASH,
    ensures
        is_char_boundary(bytes, i),
        valid_utf8(bytes.subrange(i, bytes.len() as int)),
        is_char_boundary(bytes.subrange(i, bytes.len() as int), 1),
{
    is_char_boundary_iff_not_is_continuation_byte(bytes, i);
    valid_utf8_split(bytes, i);
    let tail = bytes.subrange(i, bytes.len() as int);
    assert(tail[0] == SLASH);
    reveal_with_fuel(is_char_boundary, 2);
}

/// Cuts a text at the `/` at byte `i`: what stands before it, and what
/// stands after it.
pub fn cut_at_slash<'a>(text: &'a str, i: usize) -> (r: (&'a str, &'a str))
    requires
        i < text.spec_bytes().len(),
        text.spec_bytes()[i as int] == SLASH,
    ensures
        r.0.spec_bytes() == text.spec_bytes().subrange(0, i as int),
        r.1.spec_bytes() == text.spec_bytes().subrange(i + 1, text.spec_bytes().len() as int),
{
    proof {
        encode_utf8_valid_utf8(text@);
        lemma_slash_boundary(text.spec_bytes(), i as int);
    }
    let (head, tail) = text.split_at(i);
    let (_, after) = tail.split_at(1);
    proof {
        let b = text.spec_bytes();
        let t = b.subrange(i as int, b.len() as int);
        assert(t.subrange(1, t.len() as int) =~= b.subrange(i + 1, b.len() as int));
    }
    (head, after)
}

/// A text without one leading `/`, if it has one.
pub fn without_leading_slash<'a>(text: &'a str) -> (r: &'a str)
    ensures
        r.spec_bytes() == strip_leading_slash(text.spec_bytes()),
{
    if begins_with_slash(text) {
        let (_, rest) = cut_at_slash(text, 0);
        proof {
            let b = text.spec_bytes();
            assert(b.subrange(1, b.len() as int) =~= b.drop_first());
        }
        rest
    } else {
        text
    }
}

/// A text without one trailing `/`, if it has one.
pub fn without_trailing_slash<'a>(text: &'a str) -> (r: &'a str)
    ensures
        r.spec_bytes() == strip_trailing_slash(text.spec_bytes()),
{
    let bytes = text.as_bytes();
    let n: usize = bytes.len();
    if n > 0 && bytes[n - 1] == SLASH {
        let (head, _) = cut_at_slash(text, n - 1);
        proof {
            let b = text.spec_bytes();
            assert(b.subrange(0, n - 1) =~= b.drop_last());
        }
        head
    } else {
        text
    }
}

} // verus!
