//! Character-level text handling: splitting, line breaking, ASCII case folding,
//! substring search and small-number parsing, each stated over `Seq<char>`.
use vstd::prelude::*;

verus! {

// ---------------------------------------------------------------------------
// Specifications
// ---------------------------------------------------------------------------

/// ASCII lower-casing of one character: `'A'..='Z'` map to `'a'..='z'`,
/// every other character is left alone.
pub open spec fn lower_char(c: char) -> char {
    if 'A' <= c && c <= 'Z' {
        ((c as u32) + 32) as char
    } else {
        c
    }
}

/// ASCII lower-casing of a whole text.
pub open spec fn lower_seq(s: Seq<char>) -> Seq<char> {
    s.map_values(|c: char| lower_char(c))
}

/// Two texts are equal up to ASCII case.
pub open spec fn same_ignoring_case(a: Seq<char>, b: Seq<char>) -> bool {
    lower_seq(a) == lower_seq(b)
}

/// The pieces of `s` between occurrences of `sep`, in order, empty pieces
/// included (so there is always one piece more than there are separators).
pub open spec fn split_on(s: Seq<char>, sep: char) -> Seq<Seq<char>>
    decreases s.len(),
{
    if s.len() == 0 {
        seq![Seq::<char>::empty()]
    } else {
        let prev = split_on(s.drop_last(), sep);
        if s.last() == sep {
            prev.push(Seq::<char>::empty())
        } else {
            prev.update(prev.len() - 1, prev.last().push(s.last()))
        }
    }
}

/// The pieces that are not empty, in order.
pub open spec fn keep_non_empty(ws: Seq<Seq<char>>) -> Seq<Seq<char>>
    decreases ws.len(),
{
    if ws.len() == 0 {
        ws
    } else {
        let kept = keep_non_empty(ws.drop_last());
        if ws.last().len() > 0 {
            kept.push(ws.last())
        } else {
            kept
        }
    }
}

/// The non-empty pieces of `s` between occurrences of `sep`.
pub open spec fn fields(s: Seq<char>, sep: char) -> Seq<Seq<char>> {
    keep_non_empty(split_on(s, sep))
}

/// A line with one trailing carriage return removed, if it has one.
pub open spec fn strip_cr(l: Seq<char>) -> Seq<char> {
    if l.len() > 0 && l.last() == '\r' {
        l.drop_last()
    } else {
        l
    }
}

/// The lines of a text, as `str::lines` yields them: the text is cut at every
/// `'\n'`; a line that was ended by `"\r\n"` loses its `'\r'`; the text after
/// the last `'\n'` is a line of its own only when it is not empty, and keeps
/// any trailing `'\r'`.
pub open spec fn lines_of(s: Seq<char>) -> Seq<Seq<char>> {
    let p = split_on(s, '\n');
    let ended = p.drop_last().map_values(|l: Seq<char>| strip_cr(l));
    if p.last().len() == 0 {
        ended
    } else {
        ended.push(p.last())
    }
}

/// `p` occurs in `s` as a contiguous block.
pub open spec fn has_infix(s: Seq<char>, p: Seq<char>) -> bool {
    exists|i: int| 0 <= i && i + p.len() <= s.len() && #[trigger] s.subrange(i, i + p.len()) == p
}

/// A decimal digit.
pub open spec fn is_digit(c: char) -> bool {
    '0' <= c && c <= '9'
}

/// The value of a run of decimal digits (most significant first).
pub open spec fn digits_value(s: Seq<char>) -> nat
    decreases s.len(),
{
    if s.len() == 0 {
        0
    } else {
        digits_value(s.drop_last()) * 10 + ((s.last() as u32) - ('0' as u32)) as nat
    }
}

/// The digits part of a number: the text without one leading `'+'`.
pub open spec fn unsigned_part(s: Seq<char>) -> Seq<char> {
    if s.len() > 0 && s[0] == '+' {
        s.drop_first()
    } else {
        s
    }
}

/// Every character is a decimal digit.
pub open spec fn all_digits(s: Seq<char>) -> bool {
    forall|i: int| 0 <= i < s.len() ==> is_digit(#[trigger] s[i])
}

/// How `u8` reads itself from text: an optional `'+'`, then one or more
/// decimal digits whose value is at most 255; anything else is refused.
pub open spec fn parse_u8_spec(s: Seq<char>) -> Option<u8> {
    let d = unsigned_part(s);
    if d.len() > 0 && all_digits(d) && digits_value(d) <= 255 {
        Some(digits_value(d) as u8)
    } else {
        None
    }
}

/// `s` with every occurrence of `c` taken out.
pub open spec fn without(s: Seq<char>, c: char) -> Seq<char>
    decreases s.len(),
{
    if s.len() == 0 {
        s
    } else if s.last() == c {
        without(s.drop_last(), c)
    } else {
        without(s.drop_last(), c).push(s.last())
    }
}

/// The pieces of a sequence written one after the other.
pub open spec fn join_all(ps: Seq<Seq<char>>) -> Seq<char>
    decreases ps.len(),
{
    if ps.len() == 0 {
        Seq::<char>::empty()
    } else {
        join_all(ps.drop_last()) + ps.last()
    }
}

/// What `String::from_utf8_lossy` makes of a byte sequence.
pub uninterp spec fn utf8_lossy(bytes: Seq<u8>) -> Seq<char>;

/// The length in bytes of a text's UTF-8 encoding, as `str::len` reports it.
pub open spec fn byte_len(s: Seq<char>) -> usize {
    vstd::utf8::encode_utf8(s).len() as usize
}

/// The text of each string in a sequence.
pub open spec fn texts(v: Seq<String>) -> Seq<Seq<char>> {
    v.map_values(|x: String| x@)
}

// ---------------------------------------------------------------------------
// Lemmas about the specifications
// ---------------------------------------------------------------------------

/// Splitting always yields at least one piece.
pub proof fn lemma_split_nonempty(s: Seq<char>, sep: char)
    ensures
        split_on(s, sep).len() >= 1,
    decreases s.len(),
{
    if s.len() > 0 {
        lemma_split_nonempty(s.drop_last(), sep);
    }
}

/// Appending text without separators extends the last piece.
pub proof fn lemma_split_extend(a: Seq<char>, l: Seq<char>, sep: char)
    requires
        !l.contains(sep),
    ensures
        split_on(a + l, sep) == split_on(a, sep).drop_last().push(split_on(a, sep).last() + l),
    decreases l.len(),
{
    lemma_split_nonempty(a, sep);
    let p = split_on(a, sep);
    if l.len() == 0 {
        assert(a + l =~= a);
        assert(p.drop_last().push(p.last() + l) =~= p);
    } else {
        let l2 = l.drop_last();
        let c = l.last();
        assert(!l2.contains(sep)) by {
            if l2.contains(sep) {
                let i = choose|i: int| 0 <= i < l2.len() && l2[i] == sep;
                assert(l[i] == sep);
            }
        }
        assert(c != sep) by {
            assert(l[l.len() - 1] == c);
        }
        lemma_split_extend(a, l2, sep);
        assert((a + l).drop_last() =~= a + l2);
        assert((a + l).last() == c);
        let q = split_on(a + l2, sep);
        assert(q == p.drop_last().push(p.last() + l2));
        assert(l2.push(c) =~= l);
        assert((p.last() + l2).push(c) =~= p.last() + l);
        assert(q.last() == p.last() + l2);
        assert(q.update(q.len() - 1, q.last().push(c)) =~= p.drop_last().push(p.last() + l));
    }
}

/// Appending a separator starts a new, empty piece.
pub proof fn lemma_split_sep(a: Seq<char>, sep: char)
    ensures
        split_on(a.push(sep), sep) == split_on(a, sep).push(Seq::<char>::empty()),
{
    assert(a.push(sep).drop_last() =~= a);
}

/// A text without separators is a single piece.
pub proof fn lemma_split_plain(l: Seq<char>, sep: char)
    requires
        !l.contains(sep),
    ensures
        split_on(l, sep) == seq![l],
{
    let e = Seq::<char>::empty();
    lemma_split_extend(e, l, sep);
    assert(e + l =~= l);
    assert(split_on(e, sep) == seq![e]);
    assert(seq![e].drop_last().push(e + l) =~= seq![l]);
}

/// No piece of a split holds the separator.
pub proof fn lemma_split_pieces_lack_sep(s: Seq<char>, sep: char)
    ensures
        forall|k: int| 0 <= k < split_on(s, sep).len() ==> !(#[trigger] split_on(s, sep)[k]).contains(sep),
    decreases s.len(),
{
    if s.len() > 0 {
        lemma_split_pieces_lack_sep(s.drop_last(), sep);
        lemma_split_nonempty(s.drop_last(), sep);
        let prev = split_on(s.drop_last(), sep);
        let next = split_on(s, sep);
        assert forall|k: int| 0 <= k < next.len() implies !(#[trigger] next[k]).contains(sep) by {
            if s.last() == sep {
                if k < prev.len() {
                    assert(next[k] == prev[k]);
                } else {
                    assert(next[k] == Seq::<char>::empty());
                }
            } else if k < prev.len() - 1 {
                assert(next[k] == prev[k]);
            } else {
                let p = prev[prev.len() - 1];
                assert(next[k] == p.push(s.last()));
                if p.push(s.last()).contains(sep) {
                    let i = choose|i: int| 0 <= i < p.push(s.last()).len() && p.push(s.last())[i] == sep;
                    if i < p.len() {
                        assert(p[i] == sep);
                    }
                }
            }
        }
    }
}

/// What is kept of the non-empty pieces is non-empty and was there before.
pub proof fn lemma_keep_non_empty_from(ws: Seq<Seq<char>>)
    ensures
        forall|k: int|
            0 <= k < keep_non_empty(ws).len() ==> (#[trigger] keep_non_empty(ws)[k]).len() > 0
                && ws.contains(keep_non_empty(ws)[k]),
    decreases ws.len(),
{
    if ws.len() > 0 {
        let prev = ws.drop_last();
        lemma_keep_non_empty_from(prev);
        let kp = keep_non_empty(prev);
        let kept = keep_non_empty(ws);
        assert forall|k: int| 0 <= k < kept.len() implies (#[trigger] kept[k]).len() > 0
            && ws.contains(kept[k]) by {
            if k < kp.len() {
                assert(kept[k] == kp[k]);
                let j = choose|j: int| 0 <= j < prev.len() && prev[j] == kp[k];
                assert(ws[j] == prev[j]);
            } else {
                assert(kept[k] == ws.last());
                assert(ws[ws.len() - 1] == ws.last());
            }
        }
    }
}

/// Lower-casing twice is lower-casing once.
pub proof fn lemma_lower_idempotent(s: Seq<char>)
    ensures
        lower_seq(lower_seq(s)) == lower_seq(s),
{
    assert(lower_seq(lower_seq(s)) =~= lower_seq(s));
}

/// Equality up to ASCII case is an equivalence relation.
pub proof fn lemma_same_ignoring_case_equivalence(a: Seq<char>, b: Seq<char>, c: Seq<char>)
    ensures
        same_ignoring_case(a, a),
        same_ignoring_case(a, b) ==> same_ignoring_case(b, a),
        same_ignoring_case(a, b) && same_ignoring_case(b, c) ==> same_ignoring_case(a, c),
{
}

/// A text is the same as its lower-cased form up to ASCII case.
pub proof fn lemma_same_as_lower(s: Seq<char>)
    ensures
        same_ignoring_case(lower_seq(s), s),
{
    lemma_lower_idempotent(s);
}

/// Two characters are the same letter up to ASCII case: they are equal, or
/// one is an upper-case ASCII letter and the other lies 32 code points above
/// it.
pub open spec fn ascii_case_pair(x: char, y: char) -> bool {
    ||| x == y
    ||| ('A' <= x && x <= 'Z' && y as u32 == x as u32 + 32)
    ||| ('A' <= y && y <= 'Z' && x as u32 == y as u32 + 32)
}

/// ASCII lower-casing moves each upper-case letter `'A'..='Z'` 32 code points
/// up, onto `'a'..='z'`, and leaves every other character as it is; a text is
/// lower-cased character by character and keeps its length.
pub proof fn law_lower_case_shifts_upper_letters(s: Seq<char>)
    ensures
        lower_seq(s).len() == s.len(),
        forall|i: int|
            0 <= i < s.len() && 'A' <= s[i] && s[i] <= 'Z' ==> #[trigger] lower_seq(s)[i] as u32
                == s[i] as u32 + 32 && 'a' <= lower_seq(s)[i] && lower_seq(s)[i] <= 'z',
        forall|i: int|
            0 <= i < s.len() && !('A' <= s[i] && s[i] <= 'Z') ==> #[trigger] lower_seq(s)[i]
                == s[i],
{
}

/// Two texts are equal up to ASCII case exactly when they have the same
/// length and, place by place, the same letter up to ASCII case; any other
/// difference, a digit among them, tells them apart.
pub proof fn law_same_ignoring_case_by_chars(a: Seq<char>, b: Seq<char>)
    ensures
        same_ignoring_case(a, b) <==> (a.len() == b.len() && forall|i: int|
            0 <= i < a.len() ==> #[trigger] ascii_case_pair(a[i], b[i])),
{
    if same_ignoring_case(a, b) {
        assert(lower_seq(a).len() == a.len());
        assert(lower_seq(b).len() == b.len());
        assert forall|i: int| 0 <= i < a.len() implies #[trigger] ascii_case_pair(a[i], b[i]) by {
            assert(lower_seq(a)[i] == lower_seq(b)[i]);
            assert(lower_char(a[i]) == lower_char(b[i]));
        }
    }
    if a.len() == b.len() && forall|i: int| 0 <= i < a.len() ==> #[trigger] ascii_case_pair(a[i], b[i]) {
        assert forall|i: int| 0 <= i < a.len() implies lower_seq(a)[i] == lower_seq(b)[i] by {
            assert(ascii_case_pair(a[i], b[i]));
        }
        assert(lower_seq(a) =~= lower_seq(b));
    }
}

/// Writing the pieces of a split one after the other gives back the text
/// without its separators.
pub proof fn lemma_join_split(s: Seq<char>, sep: char)
    ensures
        join_all(split_on(s, sep)) == without(s, sep),
    decreases s.len(),
{
    if s.len() > 0 {
        lemma_join_split(s.drop_last(), sep);
        lemma_split_nonempty(s.drop_last(), sep);
        let prev = split_on(s.drop_last(), sep);
        if s.last() == sep {
            let next = prev.push(Seq::<char>::empty());
            assert(next.drop_last() =~= prev);
            assert(join_all(next) == join_all(prev) + Seq::<char>::empty());
            assert(join_all(prev) + Seq::<char>::empty() =~= join_all(prev));
        } else {
            let x = s.last();
            let next = prev.update(prev.len() - 1, prev.last().push(x));
            assert(next.drop_last() =~= prev.drop_last());
            assert(next.last() == prev.last().push(x));
            assert(join_all(next) == join_all(prev.drop_last()) + prev.last().push(x));
            assert(join_all(prev) == join_all(prev.drop_last()) + prev.last());
            assert(join_all(prev.drop_last()) + prev.last().push(x) =~= (join_all(
                prev.drop_last(),
            ) + prev.last()).push(x));
        }
    } else {
        let e = Seq::<char>::empty();
        assert(split_on(s, sep) == seq![e]);
        assert(seq![e].drop_last() =~= Seq::<Seq<char>>::empty());
        assert(join_all(seq![e]) == join_all(Seq::<Seq<char>>::empty()) + e);
        assert(join_all(seq![e]) =~= e);
    }
}

/// Taking out a character leaves none of it behind.
pub proof fn lemma_without_absent(s: Seq<char>, c: char)
    ensures
        !without(s, c).contains(c),
    decreases s.len(),
{
    if s.len() > 0 {
        lemma_without_absent(s.drop_last(), c);
        if s.last() != c {
            let w = without(s.drop_last(), c);
            assert forall|i: int| 0 <= i < w.push(s.last()).len() implies w.push(s.last())[i] != c by {
                if i < w.len() {
                    assert(w.push(s.last())[i] == w[i]);
                }
            }
        }
    }
}

/// Taking a character out of a text that lacks it leaves the text as it is.
pub proof fn lemma_without_missing(s: Seq<char>, c: char)
    requires
        !s.contains(c),
    ensures
        without(s, c) == s,
    decreases s.len(),
{
    if s.len() > 0 {
        assert(!s.drop_last().contains(c)) by {
            if s.drop_last().contains(c) {
                let j = choose|j: int| 0 <= j < s.drop_last().len() && s.drop_last()[j] == c;
                assert(s[j] == c);
            }
        }
        lemma_without_missing(s.drop_last(), c);
        assert(s.last() != c) by {
            assert(s[s.len() - 1] == s.last());
        }
        assert(s.drop_last().push(s.last()) =~= s);
    }
}

/// Taking a character out of two texts written one after the other is
/// taking it out of each.
pub proof fn lemma_without_concat(a: Seq<char>, b: Seq<char>, c: char)
    ensures
        without(a + b, c) == without(a, c) + without(b, c),
    decreases b.len(),
{
    if b.len() == 0 {
        assert(a + b =~= a);
        assert(without(a, c) + without(b, c) =~= without(a, c));
    } else {
        lemma_without_concat(a, b.drop_last(), c);
        assert((a + b).drop_last() =~= a + b.drop_last());
        assert((a + b).last() == b.last());
        if b.last() != c {
            assert(without(a, c) + without(b.drop_last(), c).push(b.last()) =~= (without(a, c)
                + without(b.drop_last(), c)).push(b.last()));
        }
    }
}

/// The characters that ASCII bytes stand for, one per byte.
pub open spec fn ascii_text(bytes: Seq<u8>) -> Seq<char> {
    bytes.map_values(|b: u8| b as char)
}

/// Bytes that are all ASCII are valid UTF-8 and read as one character per
/// byte; so a command's ASCII output, and its UTF-16 output of ASCII text
/// once the NULs are dropped, decodes to the text it holds.
pub proof fn law_ascii_bytes_decode(bytes: Seq<u8>)
    requires
        forall|i: int| 0 <= i < bytes.len() ==> #[trigger] bytes[i] < 128,
    ensures
        vstd::utf8::valid_utf8(bytes),
        vstd::utf8::decode_utf8(bytes) == ascii_text(bytes),
{
    let chars = ascii_text(bytes);
    assert(vstd::utf8::is_ascii_chars(chars)) by {
        assert forall|i: int| 0 <= i < chars.len() implies '\0' <= #[trigger] chars[i] <= '\u{7f}' by {
            assert(bytes[i] < 128);
        }
    }
    vstd::utf8::is_ascii_chars_encode_utf8(chars);
    let enc = vstd::utf8::encode_utf8(chars);
    assert forall|i: int| 0 <= i < enc.len() implies enc[i] == bytes[i] by {
        assert(chars[i] as u8 == enc[i]);
        let b = bytes[i];
        assert(b < 128);
        assert(((b as char) as u8) == b);
    }
    assert(enc =~= bytes);
    vstd::utf8::encode_utf8_valid_utf8(chars);
    vstd::utf8::encode_utf8_decode_utf8(chars);
}

// ---------------------------------------------------------------------------
// Trusted calls into std
// ---------------------------------------------------------------------------

/// Calls `String::from_utf8_lossy`. Trusted: the result is what that function
/// makes of the bytes (named [`utf8_lossy`]), and for valid UTF-8 it is the
/// decoded text unchanged, as its documentation states. How invalid sequences
/// are replaced by U+FFFD is not stated.
#[verifier::external_body]
fn from_utf8_lossy(bytes: &[u8]) -> (r: String)
    ensures
        r@ == utf8_lossy(bytes@),
        vstd::utf8::valid_utf8(bytes@) ==> r@ == vstd::utf8::decode_utf8(bytes@),
{
    String::from_utf8_lossy(bytes).into_owned()
}

// ---------------------------------------------------------------------------
// Executable functions
// ---------------------------------------------------------------------------

/// The characters of a text, one by one.
pub fn chars_of(s: &str) -> (v: Vec<char>)
    ensures
        v@ == s@,
{
    let mut v: Vec<char> = Vec::new();
    for c in it: s.chars()
        invariant
            it.seq() == s@,
            v@ == it.seq().take(it.index() as int),
    {
        v.push(c);
    }
    v
}


/// The positions `[start, end)` in `cs` of each piece between occurrences of
/// `sep`, in order.
fn piece_bounds(cs: &Vec<char>, sep: char) -> (r: Vec<(usize, usize)>)
    ensures
        r@.len() == split_on(cs@, sep).len(),
        forall|k: int|
            #![trigger r@[k]]
            0 <= k < r@.len() ==> r@[k].0 <= r@[k].1 && r@[k].1 <= cs@.len(),
        forall|k: int|
            0 <= k < r@.len() ==> cs@.subrange(r@[k].0 as int, r@[k].1 as int)
                == #[trigger] split_on(cs@, sep)[k],
{
    let mut r: Vec<(usize, usize)> = Vec::new();
    let mut start: usize = 0;
    let mut i: usize = 0;
    proof {
        assert(cs@.take(0) =~= Seq::<char>::empty());
    }
    while i < cs.len()
        invariant
            i <= cs@.len(),
            start <= i,
            split_on(cs@.take(i as int), sep).len() == r@.len() + 1,
            forall|k: int|
                #![trigger r@[k]]
                0 <= k < r@.len() ==> r@[k].0 <= r@[k].1 && r@[k].1 <= i,
            forall|k: int|
                0 <= k < r@.len() ==> cs@.subrange(r@[k].0 as int, r@[k].1 as int)
                    == #[trigger] split_on(cs@.take(i as int), sep)[k],
            split_on(cs@.take(i as int), sep)[r@.len() as int] == cs@.subrange(start as int, i as int),
        decreases cs@.len() - i,
    {
        let c = cs[i];
        let ghost prev = split_on(cs@.take(i as int), sep);
        let ghost old_r = r@;
        let ghost old_start = start;
        proof {
            let t = cs@.take(i + 1);
            assert(t.drop_last() =~= cs@.take(i as int));
            assert(t.last() == c);
            assert(cs@.subrange(start as int, i + 1) =~= cs@.subrange(start as int, i as int).push(c));
            assert(cs@.subrange(i + 1, i + 1) =~= Seq::<char>::empty());
        }
        if c == sep {
            r.push((start, i));
            start = i + 1;
        }
        i = i + 1;
        proof {
            let next = split_on(cs@.take(i as int), sep);
            assert forall|k: int| #![trigger r@[k]] 0 <= k < r@.len() implies r@[k].0 <= r@[k].1
                && r@[k].1 <= i by {
                if k < old_r.len() {
                    assert(r@[k] == old_r[k]);
                }
            }
            assert forall|k: int| 0 <= k < r@.len() implies cs@.subrange(
                r@[k].0 as int,
                r@[k].1 as int,
            ) == #[trigger] split_on(cs@.take(i as int), sep)[k] by {
                if k < old_r.len() {
                    assert(next[k] == prev[k]);
                } else {
                    assert(next[k] == prev[k]);
                    assert(r@[k] == (old_start, (i - 1) as usize));
                }
            }
        }
    }
    proof {
        assert(cs@.take(cs@.len() as int) =~= cs@);
    }
    r.push((start, cs.len()));
    r
}


/// The non-empty pieces of `s` between occurrences of `sep`, as `split`
/// followed by dropping the empty pieces gives them.
pub fn split_fields(s: &str, sep: char) -> (r: Vec<String>)
    ensures
        texts(r@) == fields(s@, sep),
{
    let cs = chars_of(s);
    let bounds = piece_bounds(&cs, sep);
    let ghost pieces = split_on(s@, sep);
    let mut r: Vec<String> = Vec::new();
    let mut k: usize = 0;
    proof {
        assert(pieces.take(0) =~= Seq::<Seq<char>>::empty());
        assert(texts(r@) =~= Seq::<Seq<char>>::empty());
    }
    while k < bounds.len()
        invariant
            cs@ == s@,
            pieces == split_on(s@, sep),
            bounds@.len() == pieces.len(),
            forall|j: int|
                #![trigger bounds@[j]]
                0 <= j < bounds@.len() ==> bounds@[j].0 <= bounds@[j].1 && bounds@[j].1 <= cs@.len(),
            forall|j: int|
                0 <= j < bounds@.len() ==> cs@.subrange(bounds@[j].0 as int, bounds@[j].1 as int)
                    == #[trigger] split_on(cs@, sep)[j],
            k <= bounds@.len(),
            texts(r@) == keep_non_empty(pieces.take(k as int)),
        decreases bounds@.len() - k,
    {
        let (a, b) = bounds[k];
        proof {
            assert(pieces.take(k + 1).drop_last() =~= pieces.take(k as int));
            assert(pieces.take(k + 1).last() == pieces[k as int]);
            assert(cs@.subrange(a as int, b as int) == pieces[k as int]);
        }
        let ghost old_r = r@;
        if a < b {
            let piece = s.substring_char(a, b).to_owned();
            r.push(piece);
            proof {
                assert(texts(r@) =~= texts(old_r).push(piece@));
            }
        }
        k = k + 1;
    }
    proof {
        assert(pieces.take(bounds@.len() as int) =~= pieces);
    }
    r
}


/// The lines of a text, as `str::lines` gives them (see [`lines_of`]).
pub fn lines(s: &str) -> (r: Vec<String>)
    ensures
        texts(r@) == lines_of(s@),
{
    let cs = chars_of(s);
    let bounds = piece_bounds(&cs, '\n');
    let ghost pieces = split_on(s@, '\n');
    proof {
        lemma_split_nonempty(s@, '\n');
    }
    let mut r: Vec<String> = Vec::new();
    let mut k: usize = 0;
    let last = bounds.len() - 1;
    while k < last
        invariant
            cs@ == s@,
            pieces == split_on(s@, '\n'),
            bounds@.len() == pieces.len(),
            last == bounds@.len() - 1,
            forall|j: int|
                #![trigger bounds@[j]]
                0 <= j < bounds@.len() ==> bounds@[j].0 <= bounds@[j].1 && bounds@[j].1 <= cs@.len(),
            forall|j: int|
                0 <= j < bounds@.len() ==> cs@.subrange(bounds@[j].0 as int, bounds@[j].1 as int)
                    == #[trigger] split_on(cs@, '\n')[j],
            k <= last,
            r@.len() == k,
            forall|j: int| 0 <= j < k ==> #[trigger] r@[j]@ == strip_cr(pieces[j]),
        decreases last - k,
    {
        let (a, b) = bounds[k];
        let ghost piece = pieces[k as int];
        proof {
            assert(cs@.subrange(a as int, b as int) == piece);
        }
        let end = if a < b && cs[b - 1] == '\r' {
            b - 1
        } else {
            b
        };
        proof {
            assert(cs@.subrange(a as int, end as int) =~= strip_cr(piece));
        }
        let line = s.substring_char(a, end).to_owned();
        r.push(line);
        k = k + 1;
    }
    let (a, b) = bounds[last];
    proof {
        assert(cs@.subrange(a as int, b as int) == pieces.last());
    }
    if a < b {
        let line = s.substring_char(a, b).to_owned();
        r.push(line);
    }
    proof {
        assert(texts(r@) =~= lines_of(s@));
    }
    r
}


/// `s` with every occurrence of `c` taken out.
pub fn remove_char(s: &str, c: char) -> (r: String)
    ensures
        r@ == without(s@, c),
{
    let cs = chars_of(s);
    let bounds = piece_bounds(&cs, c);
    let ghost pieces = split_on(s@, c);
    let mut r = String::new();
    let mut k: usize = 0;
    proof {
        assert(pieces.take(0) =~= Seq::<Seq<char>>::empty());
    }
    while k < bounds.len()
        invariant
            cs@ == s@,
            pieces == split_on(s@, c),
            bounds@.len() == pieces.len(),
            forall|j: int|
                #![trigger bounds@[j]]
                0 <= j < bounds@.len() ==> bounds@[j].0 <= bounds@[j].1 && bounds@[j].1 <= cs@.len(),
            forall|j: int|
                0 <= j < bounds@.len() ==> cs@.subrange(bounds@[j].0 as int, bounds@[j].1 as int)
                    == #[trigger] split_on(cs@, c)[j],
            k <= bounds@.len(),
            r@ == join_all(pieces.take(k as int)),
        decreases bounds@.len() - k,
    {
        let (a, b) = bounds[k];
        proof {
            assert(pieces.take(k + 1).drop_last() =~= pieces.take(k as int));
            assert(pieces.take(k + 1).last() == pieces[k as int]);
            assert(cs@.subrange(a as int, b as int) == pieces[k as int]);
        }
        r.append(s.substring_char(a, b));
        k = k + 1;
    }
    proof {
        assert(pieces.take(bounds@.len() as int) =~= pieces);
        lemma_join_split(s@, c);
    }
    r
}

/// Decodes the output of a command: the bytes are read as UTF-8, invalid
/// sequences replaced, and every NUL character is dropped (so UTF-16 output
/// of ASCII text reads as that text).
pub fn decode_output(output: &[u8]) -> (r: String)
    ensures
        r@ == without(utf8_lossy(output@), '\0'),
        vstd::utf8::valid_utf8(output@) ==> r@ == without(vstd::utf8::decode_utf8(output@), '\0'),
        !r@.contains('\0'),
{
    let s = from_utf8_lossy(output);
    let r = remove_char(s.as_str(), '\0');
    proof {
        lemma_without_absent(s@, '\0');
    }
    r
}


/// Whether `c` occurs in `s`.
pub fn contains_char(s: &str, c: char) -> (r: bool)
    ensures
        r == s@.contains(c),
{
    let cs = chars_of(s);
    let mut i: usize = 0;
    while i < cs.len()
        invariant
            cs@ == s@,
            i <= cs@.len(),
            forall|j: int| 0 <= j < i ==> cs@[j] != c,
        decreases cs@.len() - i,
    {
        if cs[i] == c {
            return true;
        }
        i = i + 1;
    }
    false
}

/// Whether `ps` occurs in `cs` starting at position `i`.
fn matches_at(cs: &Vec<char>, ps: &Vec<char>, i: usize) -> (r: bool)
    requires
        i + ps@.len() <= cs@.len(),
    ensures
        r == (cs@.subrange(i as int, i + ps@.len()) == ps@),
{
    let n = cs.len();
    let mut j: usize = 0;
    while j < ps.len()
        invariant
            n == cs@.len(),
            i + ps@.len() <= cs@.len(),
            j <= ps@.len(),
            forall|k: int| 0 <= k < j ==> cs@[i + k] == ps@[k],
        decreases ps@.len() - j,
    {
        proof {
            assert(i + j < n);
        }
        if cs[i + j] != ps[j] {
            proof {
                assert(cs@.subrange(i as int, i + ps@.len())[j as int] != ps@[j as int]);
            }
            return false;
        }
        j = j + 1;
    }
    proof {
        assert(cs@.subrange(i as int, i + ps@.len()) =~= ps@);
    }
    true
}

/// Whether the text `p` occurs in `s` as a contiguous block.
pub fn contains_str(s: &str, p: &str) -> (r: bool)
    ensures
        r == has_infix(s@, p@),
{
    let cs = chars_of(s);
    let ps = chars_of(p);
    if ps.len() > cs.len() {
        return false;
    }
    if ps.len() == 0 {
        proof {
            assert(s@.subrange(0int, 0int + p@.len()) =~= p@);
        }
        return true;
    }
    let n = cs.len();
    let last = n - ps.len();
    let mut i: usize = 0;
    while i <= last
        invariant
            cs@ == s@,
            ps@ == p@,
            last + ps@.len() == cs@.len(),
            last < n,
            ps@.len() > 0,
            forall|j: int| 0 <= j < i ==> #[trigger] cs@.subrange(j, j + ps@.len()) != ps@,
        decreases last + 1 - i,
    {
        if matches_at(&cs, &ps, i) {
            return true;
        }
        i = i + 1;
    }
    proof {
        assert forall|j: int| 0 <= j && j + p@.len() <= s@.len() implies #[trigger] s@.subrange(
            j,
            j + p@.len(),
        ) != p@ by {
            assert(j <= last);
        }
    }
    false
}

/// Whether every character of `cs` from position `start` on is a decimal digit.
fn all_digits_from(cs: &Vec<char>, start: usize) -> (r: bool)
    requires
        start <= cs@.len(),
    ensures
        r == forall|k: int| start <= k < cs@.len() ==> is_digit(#[trigger] cs@[k]),
{
    let mut i: usize = start;
    while i < cs.len()
        invariant
            start <= i <= cs@.len(),
            forall|k: int| start <= k < i ==> is_digit(#[trigger] cs@[k]),
        decreases cs@.len() - i,
    {
        let c = cs[i];
        if !('0' <= c && c <= '9') {
            proof {
                assert(!is_digit(cs@[i as int]));
            }
            return false;
        }
        i = i + 1;
    }
    true
}

/// The value of the digits of `cs` from position `start` on, or 256 when
/// that value exceeds 255.
fn capped_digits_value(cs: &Vec<char>, start: usize) -> (v: u32)
    requires
        start <= cs@.len(),
        forall|k: int| start <= k < cs@.len() ==> is_digit(#[trigger] cs@[k]),
    ensures
        v == if digits_value(cs@.subrange(start as int, cs@.len() as int)) <= 255 {
            digits_value(cs@.subrange(start as int, cs@.len() as int))
        } else {
            256
        },
{
    let mut acc: u32 = 0;
    let mut i: usize = start;
    proof {
        assert(cs@.subrange(start as int, start as int) =~= Seq::<char>::empty());
    }
    while i < cs.len()
        invariant
            start <= i <= cs@.len(),
            forall|k: int| start <= k < cs@.len() ==> is_digit(#[trigger] cs@[k]),
            acc == if digits_value(cs@.subrange(start as int, i as int)) <= 255 {
                digits_value(cs@.subrange(start as int, i as int))
            } else {
                256
            },
        decreases cs@.len() - i,
    {
        let c = cs[i];
        proof {
            assert(is_digit(cs@[i as int]));
        }
        let digit: u32 = (c as u32) - ('0' as u32);
        proof {
            let p = cs@.subrange(start as int, i + 1);
            assert(p.drop_last() =~= cs@.subrange(start as int, i as int));
            assert(p.last() == c);
        }
        if acc <= 255 {
            let next: u32 = acc * 10 + digit;
            acc = if next <= 255 {
                next
            } else {
                256
            };
        }
        i = i + 1;
    }
    acc
}

/// Reads a `u8` from text exactly as `str::parse::<u8>` does: an optional
/// `'+'`, then decimal digits only, at least one, of value at most 255.
pub fn parse_u8(s: &str) -> (r: Option<u8>)
    ensures
        r == parse_u8_spec(s@),
{
    let cs = chars_of(s);
    let start: usize = if cs.len() > 0 && cs[0] == '+' {
        1
    } else {
        0
    };
    let ghost d = unsigned_part(s@);
    proof {
        assert(d =~= cs@.subrange(start as int, cs@.len() as int));
    }
    if start == cs.len() {
        proof {
            assert(d.len() == 0);
        }
        return None;
    }
    if !all_digits_from(&cs, start) {
        proof {
            let k = choose|k: int| start <= k < cs@.len() && !is_digit(#[trigger] cs@[k]);
            assert(d[k - start] == cs@[k]);
            assert(!is_digit(d[k - start]));
            assert(!all_digits(d));
        }
        return None;
    }
    proof {
        assert forall|k: int| 0 <= k < d.len() implies is_digit(#[trigger] d[k]) by {
            assert(d[k] == cs@[start + k]);
        }
        assert(all_digits(d));
    }
    let v = capped_digits_value(&cs, start);
    if v <= 255 {
        Some(v as u8)
    } else {
        None
    }
}


/// Whether two characters are equal once ASCII lower-cased.
fn same_char_ignoring_case(x: char, y: char) -> (r: bool)
    ensures
        r == (lower_char(x) == lower_char(y)),
{
    let xv = x as u32;
    let yv = y as u32;
    let xl: u32 = if 65 <= xv && xv <= 90 {
        xv + 32
    } else {
        xv
    };
    let yl: u32 = if 65 <= yv && yv <= 90 {
        yv + 32
    } else {
        yv
    };
    proof {
        assert(xl == lower_char(x) as u32);
        assert(yl == lower_char(y) as u32);
    }
    xl == yl
}

/// Whether two texts are equal up to ASCII case, as `str::eq_ignore_ascii_case`
/// decides.
pub fn eq_ignore_ascii_case(a: &str, b: &str) -> (r: bool)
    ensures
        r == same_ignoring_case(a@, b@),
{
    let ac = chars_of(a);
    let bc = chars_of(b);
    if ac.len() != bc.len() {
        proof {
            assert(lower_seq(a@).len() != lower_seq(b@).len());
        }
        return false;
    }
    let mut i: usize = 0;
    while i < ac.len()
        invariant
            ac@ == a@,
            bc@ == b@,
            ac@.len() == bc@.len(),
            i <= ac@.len(),
            forall|j: int| 0 <= j < i ==> lower_char(#[trigger] ac@[j]) == lower_char(bc@[j]),
        decreases ac@.len() - i,
    {
        if !same_char_ignoring_case(ac[i], bc[i]) {
            proof {
                assert(lower_seq(a@)[i as int] != lower_seq(b@)[i as int]);
            }
            return false;
        }
        i = i + 1;
    }
    proof {
        assert(lower_seq(a@) =~= lower_seq(b@));
    }
    true
}


/// The lower-case ASCII letters in order.
pub open spec fn lower_alphabet() -> Seq<char> {
    seq![
        'a', 'b', 'c', 'd', 'e', 'f', 'g', 'h', 'i', 'j', 'k', 'l', 'm',
        'n', 'o', 'p', 'q', 'r', 's', 't', 'u', 'v', 'w', 'x', 'y', 'z',
    ]
}

/// The letter at each place of the alphabet is the lower-case form of the
/// upper-case letter at that place.
proof fn lemma_lower_alphabet(c: char)
    requires
        'A' <= c <= 'Z',
    ensures
        lower_alphabet()[(c as u32 - 65) as int] == lower_char(c),
{
    let k = (c as u32 - 65) as int;
    assert(0 <= k < 26);
    assert(lower_alphabet().len() == 26);
    assert(lower_alphabet()[k] as u32 == 97 + k) by {
        if k == 0 {} else if k == 1 {} else if k == 2 {} else if k == 3 {} else if k == 4 {}
        else if k == 5 {} else if k == 6 {} else if k == 7 {} else if k == 8 {} else if k == 9 {}
        else if k == 10 {} else if k == 11 {} else if k == 12 {} else if k == 13 {}
        else if k == 14 {} else if k == 15 {} else if k == 16 {} else if k == 17 {}
        else if k == 18 {} else if k == 19 {} else if k == 20 {} else if k == 21 {}
        else if k == 22 {} else if k == 23 {} else if k == 24 {} else {}
    }
}

/// ASCII lower-casing, as `str::to_ascii_lowercase` does it: every letter
/// `'A'..='Z'` becomes its lower-case form, every other character is kept.
pub fn to_ascii_lowercase(s: &str) -> (r: String)
    ensures
        r@ == lower_seq(s@),
{
    let alphabet = "abcdefghijklmnopqrstuvwxyz";
    proof {
        reveal_strlit("abcdefghijklmnopqrstuvwxyz");
        assert(alphabet@ =~= lower_alphabet());
    }
    let cs = chars_of(s);
    let mut r = String::new();
    let mut i: usize = 0;
    proof {
        assert(lower_seq(s@.take(0)) =~= Seq::<char>::empty());
    }
    while i < cs.len()
        invariant
            cs@ == s@,
            alphabet@ == lower_alphabet(),
            i <= cs@.len(),
            r@ == lower_seq(s@.take(i as int)),
        decreases cs@.len() - i,
    {
        let c = cs[i];
        let ghost before = r@;
        if 'A' <= c && c <= 'Z' {
            let k: usize = (c as u32 - 65) as usize;
            proof {
                lemma_lower_alphabet(c);
                assert(alphabet@.subrange(k as int, k + 1) =~= seq![lower_char(c)]);
            }
            r.append(alphabet.substring_char(k, k + 1));
        } else {
            proof {
                assert(s@.subrange(i as int, i + 1) =~= seq![lower_char(c)]);
            }
            r.append(s.substring_char(i, i + 1));
        }
        proof {
            assert(s@.take(i + 1) =~= s@.take(i as int).push(c));
            assert(lower_seq(s@.take(i + 1)) =~= lower_seq(s@.take(i as int)).push(lower_char(c)));
            assert(r@ =~= before + seq![lower_char(c)]);
        }
        i = i + 1;
    }
    proof {
        assert(s@.take(cs@.len() as int) =~= s@);
    }
    r
}

} // verus!
