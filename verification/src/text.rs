//! Character-level helpers: Unicode character classes, UTF-8 byte lengths,
//! splitting on whitespace, trimming symbols and splitting on case changes.

use vstd::prelude::*;
use vstd::string::StrSliceExecFns;
use vstd::utf8::encode_utf8;

verus! {

/// Whether `c` has the Unicode `White_Space` property (what `char::is_whitespace`
/// reports): tab, line feed, vertical tab, form feed, carriage return, space,
/// next line, no-break space, ogham space mark, the spaces U+2000 to U+200A,
/// line separator, paragraph separator, narrow no-break space, medium
/// mathematical space and ideographic space.
pub open spec fn char_is_whitespace(c: char) -> bool {
    let u = c as u32;
    ||| 0x09 <= u <= 0x0D
    ||| u == 0x20
    ||| u == 0x85
    ||| u == 0xA0
    ||| u == 0x1680
    ||| 0x2000 <= u <= 0x200A
    ||| u == 0x2028
    ||| u == 0x2029
    ||| u == 0x202F
    ||| u == 0x205F
    ||| u == 0x3000
}

/// Whether `c` is alphabetic or numeric in Unicode, as `char::is_alphanumeric` reports it.
pub uninterp spec fn char_is_alphanumeric(c: char) -> bool;

/// Whether `c` has the Unicode `Uppercase` property, as `char::is_uppercase` reports it.
pub uninterp spec fn char_is_uppercase(c: char) -> bool;

/// Whether `c` is a whitespace character (see [`char_is_whitespace`]).
pub fn is_whitespace(c: char) -> (r: bool)
    ensures
        r == char_is_whitespace(c),
{
    let u = c as u32;
    (0x09 <= u && u <= 0x0D) || u == 0x20 || u == 0x85 || u == 0xA0 || u == 0x1680 || (0x2000 <= u
        && u <= 0x200A) || u == 0x2028 || u == 0x2029 || u == 0x202F || u == 0x205F || u == 0x3000
}

/// Calls `char::is_alphanumeric`; its result is taken to be `char_is_alphanumeric(c)`.
#[verifier::external_body]
pub(crate) fn is_alphanumeric(c: char) -> (r: bool)
    ensures
        r == char_is_alphanumeric(c),
{
    c.is_alphanumeric()
}

/// Calls `char::is_uppercase`; its result is taken to be `char_is_uppercase(c)`.
#[verifier::external_body]
pub(crate) fn is_uppercase(c: char) -> (r: bool)
    ensures
        r == char_is_uppercase(c),
{
    c.is_uppercase()
}

/// `part` is a contiguous run of characters of `whole`.
pub open spec fn occurs_in(part: Seq<char>, whole: Seq<char>) -> bool {
    exists|a: int, b: int| 0 <= a <= b <= whole.len() && #[trigger] whole.subrange(a, b) == part
}

/// A part of a part of `whole` is a part of `whole`.
pub proof fn lemma_occurs_in_trans(a: Seq<char>, b: Seq<char>, c: Seq<char>)
    requires
        occurs_in(a, b),
        occurs_in(b, c),
    ensures
        occurs_in(a, c),
{
    let (i, j) = choose|i: int, j: int| 0 <= i <= j <= b.len() && #[trigger] b.subrange(i, j) == a;
    let (k, l) = choose|k: int, l: int| 0 <= k <= l <= c.len() && #[trigger] c.subrange(k, l) == b;
    assert(c.subrange(k + i, k + j) =~= a);
}

/// Every piece of a case split is a part of the word.
pub proof fn lemma_case_pieces_occur(w: Seq<char>)
    ensures
        forall|k: int| 0 <= k < case_pieces(w).len() ==> occurs_in(#[trigger] case_pieces(w)[k], w),
{
    lemma_case_pieces_from_occur(w, 0, 0);
}

proof fn lemma_case_pieces_from_occur(w: Seq<char>, start: int, i: int)
    requires
        0 <= start <= i,
        start <= w.len(),
    ensures
        forall|k: int|
            0 <= k < case_pieces_from(w, start, i).len() ==> occurs_in(
                #[trigger] case_pieces_from(w, start, i)[k],
                w,
            ),
    decreases w.len() - i,
{
    let ps = case_pieces_from(w, start, i);
    if i >= w.len() {
        assert(ps =~= seq![w.subrange(start, w.len() as int)]);
        assert forall|k: int| 0 <= k < ps.len() implies occurs_in(#[trigger] ps[k], w) by {
            assert(w.subrange(start, w.len() as int) == ps[k]);
        }
    } else if cuts_before(w, start, i) {
        lemma_case_pieces_from_occur(w, i, i + 1);
        let rest = case_pieces_from(w, i, i + 1);
        assert(ps =~= seq![w.subrange(start, i)] + rest);
        assert forall|k: int| 0 <= k < ps.len() implies occurs_in(#[trigger] ps[k], w) by {
            if k == 0 {
                assert(w.subrange(start, i) == ps[0]);
            } else {
                assert(ps[k] == rest[k - 1]);
            }
        }
    } else {
        lemma_case_pieces_from_occur(w, start, i + 1);
        assert(ps == case_pieces_from(w, start, i + 1));
    }
}

/// Number of bytes of the UTF-8 encoding of `s` (what `str::len` returns).
pub open spec fn byte_len(s: Seq<char>) -> nat {
    encode_utf8(s).len()
}

/// The encoding of a concatenation is the concatenation of the encodings.
pub proof fn lemma_encode_concat(a: Seq<char>, b: Seq<char>)
    ensures
        encode_utf8(a + b) == encode_utf8(a) + encode_utf8(b),
    decreases a.len(),
{
    if a.len() == 0 {
        assert(a + b =~= b);
        assert(encode_utf8(a) =~= Seq::<u8>::empty());
        assert(encode_utf8(a) + encode_utf8(b) =~= encode_utf8(b));
    } else {
        lemma_encode_concat(a.drop_first(), b);
        assert((a + b).drop_first() =~= a.drop_first() + b);
        assert((a + b)[0] == a[0]);
        let e = vstd::utf8::encode_scalar(a[0] as u32);
        assert(e + (encode_utf8(a.drop_first()) + encode_utf8(b)) =~= (e + encode_utf8(
            a.drop_first(),
        )) + encode_utf8(b));
    }
}

/// Every character takes at least one byte, so a text has at least as many
/// bytes as characters.
pub proof fn lemma_byte_len_at_least_len(s: Seq<char>)
    ensures
        byte_len(s) >= s.len(),
    decreases s.len(),
{
    if s.len() > 0 {
        lemma_byte_len_at_least_len(s.drop_first());
    }
}

/// Bytes of a prefix plus bytes of the following part give the bytes of the longer prefix.
pub proof fn lemma_byte_len_split(s: Seq<char>, i: int, j: int)
    requires
        0 <= i <= j <= s.len(),
    ensures
        byte_len(s.take(j)) == byte_len(s.take(i)) + byte_len(s.subrange(i, j)),
        byte_len(s.subrange(i, j)) >= j - i,
        byte_len(s.take(j)) <= byte_len(s),
{
    lemma_encode_concat(s.take(i), s.subrange(i, j));
    assert(s.take(i) + s.subrange(i, j) =~= s.take(j));
    lemma_byte_len_at_least_len(s.subrange(i, j));
    lemma_encode_concat(s.take(j), s.skip(j));
    assert(s.take(j) + s.skip(j) =~= s);
}

/// A part of a text has no more bytes than the text.
pub proof fn lemma_byte_len_subrange(s: Seq<char>, i: int, j: int)
    requires
        0 <= i <= j <= s.len(),
    ensures
        byte_len(s.subrange(i, j)) <= byte_len(s),
{
    lemma_byte_len_split(s, i, j);
}

/// Number of bytes of the UTF-8 encoding of `c` (what `char::len_utf8` returns).
pub fn char_byte_len(c: char) -> (n: usize)
    ensures
        n == byte_len(seq![c]),
{
    proof {
        vstd::utf8::char_is_scalar(c);
        assert(seq![c].drop_first() =~= Seq::<char>::empty());
        assert(encode_utf8(Seq::<char>::empty()) =~= Seq::<u8>::empty());
        assert(seq![c][0] == c);
        assert(encode_utf8(seq![c]) =~= vstd::utf8::encode_scalar(c as u32));
    }
    let u = c as u32;
    if u <= 0x7F {
        1
    } else if u <= 0x7FF {
        2
    } else if u <= 0xFFFF {
        3
    } else {
        4
    }
}

/// Prefixes of different lengths have different numbers of bytes.
pub proof fn lemma_prefix_bytes_distinct(s: Seq<char>, i: int, j: int)
    requires
        0 <= i < j <= s.len(),
    ensures
        byte_len(s.take(i)) < byte_len(s.take(j)),
{
    lemma_byte_len_split(s, i, j);
}

/// For each `i` from 0 to the number of characters, the number of bytes of the
/// first `i` characters of `s`.
pub fn prefix_byte_lens(s: &Vec<char>) -> (offs: Vec<usize>)
    requires
        byte_len(s@) <= usize::MAX,
    ensures
        offs@.len() == s@.len() + 1,
        forall|i: int| 0 <= i <= s@.len() ==> #[trigger] offs@[i] == byte_len(s@.take(i)),
{
    let mut offs: Vec<usize> = Vec::new();
    let mut total: usize = 0;
    offs.push(0);
    assert(s@.take(0) =~= Seq::<char>::empty());
    let mut i: usize = 0;
    while i < s.len()
        invariant
            i <= s@.len(),
            byte_len(s@) <= usize::MAX,
            offs@.len() == i + 1,
            total == byte_len(s@.take(i as int)),
            forall|j: int| 0 <= j <= i ==> #[trigger] offs@[j] == byte_len(s@.take(j)),
        decreases s@.len() - i,
    {
        let n = char_byte_len(s[i]);
        proof {
            lemma_encode_concat(s@.take(i as int), seq![s@[i as int]]);
            assert(s@.take(i as int) + seq![s@[i as int]] =~= s@.take(i + 1));
            lemma_byte_len_split(s@, 0, i + 1);
        }
        total = total + n;
        offs.push(total);
        i = i + 1;
    }
    offs
}

/// The characters of `s`, one by one.
pub fn chars_of(s: &str) -> (v: Vec<char>)
    ensures
        v@ == s@,
{
    let mut v: Vec<char> = Vec::new();
    for c in it: s.chars()
        invariant
            v@ == it.seq().take(it.index() as int),
            it.seq() == s@,
    {
        v.push(c);
    }
    v
}


/// Number of leading characters of `s` before the first whitespace character.
pub open spec fn word_len(s: Seq<char>) -> nat
    decreases s.len(),
{
    if s.len() == 0 || char_is_whitespace(s[0]) {
        0
    } else {
        1 + word_len(s.drop_first())
    }
}

/// A word never runs past the end of the text.
pub proof fn lemma_word_len_bound(s: Seq<char>)
    ensures
        word_len(s) <= s.len(),
    decreases s.len(),
{
    if s.len() > 0 {
        lemma_word_len_bound(s.drop_first());
    }
}

/// The maximal runs of non-whitespace characters of `s`, in order
/// (what `str::split_whitespace` yields).
pub open spec fn whitespace_chunks(s: Seq<char>) -> Seq<Seq<char>>
    decreases s.len(),
{
    if s.len() == 0 {
        seq![]
    } else if char_is_whitespace(s[0]) {
        whitespace_chunks(s.drop_first())
    } else {
        proof {
            lemma_word_len_bound(s);
        }
        seq![s.take(word_len(s) as int)] + whitespace_chunks(s.skip(word_len(s) as int))
    }
}

/// The part of `s` that a span designates.
pub open spec fn span_text(s: Seq<char>, span: (usize, usize)) -> Seq<char> {
    s.subrange(span.0 as int, span.1 as int)
}

/// Spans are nonempty, inside `s`, in order, and separated by at least one character.
pub open spec fn spans_ordered(s: Seq<char>, spans: Seq<(usize, usize)>) -> bool {
    &&& forall|k: int| 0 <= k < spans.len() ==> #[trigger] spans[k].0 < spans[k].1 <= s.len()
    &&& forall|k: int| 0 <= k < spans.len() - 1 ==> #[trigger] spans[k].1 < spans[k + 1].0
}

proof fn lemma_word_len_at(s: Seq<char>, start: int, end: int)
    requires
        0 <= start <= end <= s.len(),
        forall|k: int| start <= k < end ==> !char_is_whitespace(#[trigger] s[k]),
        end == s.len() || char_is_whitespace(s[end]),
    ensures
        word_len(s.skip(start)) == end - start,
    decreases end - start,
{
    if start < end {
        lemma_word_len_at(s, start + 1, end);
        assert(s.skip(start).drop_first() =~= s.skip(start + 1));
    } else if end < s.len() {
        assert(s.skip(start)[0] == s[end]);
    }
}

/// The spans of the maximal runs of non-whitespace characters of `s`.
pub fn whitespace_spans(s: &Vec<char>) -> (spans: Vec<(usize, usize)>)
    ensures
        spans@.map_values(|p: (usize, usize)| span_text(s@, p)) == whitespace_chunks(s@),
        spans_ordered(s@, spans@),
{
    let n = s.len();
    let mut spans: Vec<(usize, usize)> = Vec::new();
    let mut i: usize = 0;
    assert(s@.skip(0) =~= s@);
    while i < n
        invariant
            i <= n == s@.len(),
            spans@.map_values(|p: (usize, usize)| span_text(s@, p)) + whitespace_chunks(s@.skip(i as int))
                == whitespace_chunks(s@),
            spans_ordered(s@, spans@),
            spans@.len() > 0 ==> spans@.last().1 <= i,
            spans@.len() > 0 && spans@.last().1 == i ==> i == n,
        decreases n - i,
    {
        if is_whitespace(s[i]) {
            assert(s@.skip(i as int).drop_first() =~= s@.skip(i + 1));
            assert(whitespace_chunks(s@.skip(i as int)) == whitespace_chunks(s@.skip(i + 1)));
            i = i + 1;
        } else {
            let start = i;
            while i < n && !is_whitespace(s[i])
                invariant
                    start <= i <= n == s@.len(),
                    forall|k: int| start <= k < i ==> !char_is_whitespace(#[trigger] s@[k]),
                decreases n - i,
            {
                i = i + 1;
            }
            proof {
                lemma_word_len_at(s@, start as int, i as int);
                let rest = s@.skip(start as int);
                assert(rest.take((i - start) as int) =~= s@.subrange(start as int, i as int));
                assert(rest.skip((i - start) as int) =~= s@.skip(i as int));
                assert(rest[0] == s@[start as int]);
                assert(whitespace_chunks(rest) == seq![s@.subrange(start as int, i as int)]
                    + whitespace_chunks(s@.skip(i as int)));
            }
            let ghost old_spans = spans@;
            spans.push((start, i));
            assert(spans@.map_values(|p: (usize, usize)| span_text(s@, p)) =~= old_spans.map_values(
                |p: (usize, usize)| span_text(s@, p),
            ).push(s@.subrange(start as int, i as int)));
            let ghost done = spans@.map_values(|p: (usize, usize)| span_text(s@, p));
            assert(done + whitespace_chunks(s@.skip(i as int)) =~= old_spans.map_values(
                |p: (usize, usize)| span_text(s@, p),
            ) + whitespace_chunks(s@.skip(start as int)));
            if i < n {
                assert(s@.skip(i as int).drop_first() =~= s@.skip(i + 1));
                assert(whitespace_chunks(s@.skip(i as int)) == whitespace_chunks(s@.skip(i + 1)));
                i = i + 1;
            }
        }
    }
    assert(s@.skip(n as int) =~= Seq::<char>::empty());
    spans
}


/// A character that is stripped from the edges of a chunk: neither
/// alphanumeric nor an apostrophe.
pub open spec fn is_edge_symbol(c: char) -> bool {
    !char_is_alphanumeric(c) && c != '\''
}

/// `s` without its leading edge symbols (`str::trim_start_matches`).
pub open spec fn trim_start_symbols(s: Seq<char>) -> Seq<char>
    decreases s.len(),
{
    if s.len() > 0 && is_edge_symbol(s[0]) {
        trim_start_symbols(s.drop_first())
    } else {
        s
    }
}

/// `s` without its trailing edge symbols (`str::trim_end_matches`).
pub open spec fn trim_end_symbols(s: Seq<char>) -> Seq<char>
    decreases s.len(),
{
    if s.len() > 0 && is_edge_symbol(s.last()) {
        trim_end_symbols(s.drop_last())
    } else {
        s
    }
}

/// `s` without edge symbols at either end.
pub open spec fn trim_symbols(s: Seq<char>) -> Seq<char> {
    trim_end_symbols(trim_start_symbols(s))
}

proof fn lemma_trim_start_at(s: Seq<char>, a: int, b: int, i: int)
    requires
        0 <= a <= i <= b <= s.len(),
        forall|k: int| a <= k < i ==> is_edge_symbol(#[trigger] s[k]),
        i == b || !is_edge_symbol(s[i]),
    ensures
        trim_start_symbols(s.subrange(a, b)) == s.subrange(i, b),
    decreases i - a,
{
    if a < i {
        lemma_trim_start_at(s, a + 1, b, i);
        assert(s.subrange(a, b).drop_first() =~= s.subrange(a + 1, b));
    } else if i < b {
        assert(s.subrange(a, b)[0] == s[i]);
    }
}

proof fn lemma_trim_end_at(s: Seq<char>, a: int, b: int, j: int)
    requires
        0 <= a <= j <= b <= s.len(),
        forall|k: int| j <= k < b ==> is_edge_symbol(#[trigger] s[k]),
        j == a || !is_edge_symbol(s[j - 1]),
    ensures
        trim_end_symbols(s.subrange(a, b)) == s.subrange(a, j),
    decreases b - j,
{
    if j < b {
        lemma_trim_end_at(s, a, b - 1, j);
        assert(s.subrange(a, b).drop_last() =~= s.subrange(a, b - 1));
    } else if a < j {
        assert(s.subrange(a, b).last() == s[j - 1]);
    }
}

/// The span of `s[a..b]` that is left after removing edge symbols at both ends.
pub fn trim_span(s: &Vec<char>, a: usize, b: usize) -> (r: (usize, usize))
    requires
        a <= b <= s@.len(),
    ensures
        a <= r.0 <= r.1 <= b,
        span_text(s@, r) == trim_symbols(s@.subrange(a as int, b as int)),
{
    let mut i = a;
    while i < b && !is_alphanumeric(s[i]) && s[i] != '\''
        invariant
            a <= i <= b <= s@.len(),
            forall|k: int| a <= k < i ==> is_edge_symbol(#[trigger] s@[k]),
        decreases b - i,
    {
        i = i + 1;
    }
    proof {
        lemma_trim_start_at(s@, a as int, b as int, i as int);
    }
    let mut j = b;
    while j > i && !is_alphanumeric(s[j - 1]) && s[j - 1] != '\''
        invariant
            a <= i <= j <= b <= s@.len(),
            forall|k: int| j <= k < b ==> is_edge_symbol(#[trigger] s@[k]),
        decreases j - i,
    {
        j = j - 1;
    }
    proof {
        lemma_trim_end_at(s@, i as int, b as int, j as int);
    }
    (i, j)
}


/// Every character of `s` is uppercase.
pub open spec fn all_uppercase(s: Seq<char>) -> bool {
    forall|k: int| 0 <= k < s.len() ==> #[trigger] char_is_uppercase(s[k])
}

proof fn lemma_all_uppercase_push(s: Seq<char>, c: char)
    ensures
        all_uppercase(s.push(c)) == (all_uppercase(s) && char_is_uppercase(c)),
{
    if all_uppercase(s.push(c)) {
        assert(s.push(c)[s.len() as int] == c);
        assert forall|k: int| 0 <= k < s.len() implies #[trigger] char_is_uppercase(s[k]) by {
            assert(s.push(c)[k] == s[k]);
        }
    }
    if all_uppercase(s) && char_is_uppercase(c) {
        assert forall|k: int| 0 <= k < s.push(c).len() implies #[trigger] char_is_uppercase(
            s.push(c)[k],
        ) by {
            if k < s.len() {
                assert(s.push(c)[k] == s[k]);
            }
        }
    }
}

/// Whether the word is cut just before index `i`, when the current piece began at `start`:
/// `w[i]` is an uppercase character that is not the first one, and the piece
/// so far holds a character that is not uppercase.
pub open spec fn cuts_before(w: Seq<char>, start: int, i: int) -> bool {
    &&& i > 0
    &&& char_is_uppercase(w[i])
    &&& !all_uppercase(w.subrange(start, i))
}

/// The pieces of `w[start..]` when the scan for case changes has reached index `i`.
pub open spec fn case_pieces_from(w: Seq<char>, start: int, i: int) -> Seq<Seq<char>>
    decreases w.len() - i,
{
    if i >= w.len() {
        seq![w.subrange(start, w.len() as int)]
    } else if cuts_before(w, start, i) {
        seq![w.subrange(start, i)] + case_pieces_from(w, i, i + 1)
    } else {
        case_pieces_from(w, start, i + 1)
    }
}

/// `w` cut before each uppercase character that follows a piece holding a
/// non-uppercase character (camelCase and PascalCase words fall apart into
/// their parts, runs of capitals stay together).
pub open spec fn case_pieces(w: Seq<char>) -> Seq<Seq<char>> {
    case_pieces_from(w, 0, 0)
}

/// The pieces of `word` cut at its case changes, as [`case_pieces`] describes.
pub fn split_case_pieces(word: &str) -> (pieces: Vec<String>)
    ensures
        pieces@.map_values(|p: String| p@) == case_pieces(word@),
{
    let w = chars_of(word);
    let n = w.len();
    let mut pieces: Vec<String> = Vec::new();
    let mut start: usize = 0;
    let mut i: usize = 0;
    let mut piece_all_upper = true;
    while i < n
        invariant
            start <= i <= n == w@.len(),
            w@ == word@,
            i == 0 ==> start == 0,
            start < i || i == 0,
            piece_all_upper == all_uppercase(w@.subrange(start as int, i as int)),
            pieces@.map_values(|p: String| p@) + case_pieces_from(w@, start as int, i as int)
                == case_pieces(word@),
        decreases n - i,
    {
        let c = w[i];
        let upper = is_uppercase(c);
        let ghost before = pieces@.map_values(|p: String| p@);
        if i > 0 && upper && !piece_all_upper {
            let piece = word.substring_char(start, i).to_owned();
            pieces.push(piece);
            assert(pieces@.map_values(|p: String| p@) =~= before.push(w@.subrange(start as int, i as int)));
            start = i;
            piece_all_upper = true;
        }
        proof {
            assert(w@.subrange(start as int, i + 1) =~= w@.subrange(start as int, i as int).push(c));
            lemma_all_uppercase_push(w@.subrange(start as int, i as int), c);
            assert(all_uppercase(w@.subrange(i as int, i as int)));
        }
        piece_all_upper = piece_all_upper && upper;
        i = i + 1;
    }
    let ghost before = pieces@.map_values(|p: String| p@);
    let last = word.substring_char(start, n).to_owned();
    pieces.push(last);
    assert(pieces@.map_values(|p: String| p@) =~= before.push(w@.subrange(start as int, n as int)));
    pieces
}

} // verus!
