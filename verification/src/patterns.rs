//! The regular expressions that decide which chunks are ignored, how joined
//! words are split and which parts of a chunk are words.
//!
//! Matching is done by the `regex` crate. What it computes is named here
//! (`regex_compiles`, `regex_is_match`, `regex_find_all`) and the wrappers
//! around its calls tie each result to those names. Joined words are cut
//! between the separator matches, which keeps each piece's offset.

use vstd::prelude::*;
use crate::text::{byte_len, chars_of, occurs_in, prefix_byte_lens};
use vstd::string::StrSliceExecFns;

verus! {

/// Makes `regex::Regex` known to Verus as an opaque type.
#[verifier::external_type_specification]
#[verifier::external_body]
pub struct ExRegex(regex::Regex);

/// URLs.
pub const URL_PATTERN: &'static str = r"https?://\S+";

/// File paths.
pub const FILE_PATH_PATTERN: &'static str = r"[\w\-\.]+(/[\w\-\.]+)+";

/// Standalone numbers.
pub const NUMBER_PATTERN: &'static str = r"\b\d+\b";

/// Regular expressions (an escape such as `\d` or `\w`).
pub const REGEX_PATTERN: &'static str = r"\\[a-zA-Z]+[{[^()]+}]*";

/// E-mail addresses.
pub const EMAIL_PATTERN: &'static str = r"\b[A-Za-z0-9._%+-]+@[A-Za-z0-9.-]+\.[A-Za-z]{2,}\b";

/// Potential words.
pub const WORD_PATTERN: &'static str = r"[a-zA-Z]+[0-9]*[a-zA-Z]*";

/// Separators inside joined words (space, `_`, `-`, em dash).
pub const SPLIT_PATTERN: &'static str = r"[ _\-—]";

/// Whether `regex::Regex::new(pattern)` succeeds.
pub uninterp spec fn regex_compiles(pattern: Seq<char>) -> bool;

/// What `Regex::is_match` returns for the regex compiled from `pattern` on `haystack`.
pub uninterp spec fn regex_is_match(pattern: Seq<char>, haystack: Seq<char>) -> bool;

/// The matches that `Regex::find_iter` yields for the regex compiled from `pattern`
/// on `haystack`, each as (start byte offset, end byte offset, matched text).
pub uninterp spec fn regex_find_all(pattern: Seq<char>, haystack: Seq<char>) -> Seq<(usize, usize, Seq<char>)>;

/// The text of match `m` is the part of `haystack` between its byte offsets,
/// and those offsets fall on character boundaries.
pub open spec fn match_lies_in(m: (usize, usize, Seq<char>), haystack: Seq<char>) -> bool {
    exists|a: int, b: int|
        0 <= a <= b <= haystack.len() && #[trigger] haystack.subrange(a, b) == m.2 && byte_len(
            haystack.take(a),
        ) == m.0 && byte_len(haystack.take(b)) == m.1
}

/// A compiled regular expression together with the text it was compiled from.
#[derive(Debug)]
pub struct Pattern {
    source: String,
    compiled: regex::Regex,
}

impl View for Pattern {
    type V = Seq<char>;

    closed spec fn view(&self) -> Seq<char> {
        self.source@
    }
}

/// One match of a regular expression: its byte offsets in the haystack and its text.
#[derive(Debug)]
pub struct Found {
    pub start: usize,
    pub end: usize,
    pub text: String,
}

impl View for Found {
    type V = (usize, usize, Seq<char>);

    open spec fn view(&self) -> (usize, usize, Seq<char>) {
        (self.start, self.end, self.text@)
    }
}

impl Pattern {
    /// Calls `regex::Regex::new(source)`. Trusted to succeed exactly when
    /// `regex_compiles(source@)`; on success the pattern keeps `source` beside
    /// the compiled regex, which is what the other wrappers rely on.
    #[verifier::external_body]
    pub(crate) fn compile(source: &str) -> (r: Option<Pattern>)
        ensures
            r is Some <==> regex_compiles(source@),
            r matches Some(p) ==> p@ == source@,
    {
        match regex::Regex::new(source) {
            Ok(compiled) => Some(Pattern { source: source.to_string(), compiled }),
            Err(_) => None,
        }
    }

    /// Calls `Regex::is_match`. Trusted to return `regex_is_match` of the
    /// source and the haystack.
    #[verifier::external_body]
    pub(crate) fn is_match(&self, haystack: &str) -> (r: bool)
        ensures
            r == regex_is_match(self@, haystack@),
    {
        self.compiled.is_match(haystack)
    }

    /// Calls `Regex::split` and collects the pieces. Trusted to return the
    /// parts of the haystack before, between and after the matches that
    /// `Regex::find_iter` yields for the same regex (`regex_find_all`): the
    /// regex source builds `split` on the same match iterator and slices the
    /// haystack from the end of one match to the start of the next.
    #[verifier::external_body]
    pub(crate) fn split(&self, haystack: &str) -> (r: Vec<String>)
        ensures
            r@.map_values(|p: String| p@) == cut_between(
                haystack@,
                regex_find_all(self@, haystack@),
                0,
            ).map_values(|p: (usize, Seq<char>)| p.1),
    {
        self.compiled.split(haystack).map(|p| p.to_string()).collect()
    }

    /// Calls `Regex::find_iter` and collects the matches. Trusted to return
    /// `regex_find_all` of the source and the haystack; the regex documentation
    /// also gives that the matches are successive and do not overlap, that each
    /// lies in the haystack with `start <= end`, and that its text is the
    /// haystack between those byte offsets, which fall on character boundaries.
    #[verifier::external_body]
    pub(crate) fn find_all(&self, haystack: &str) -> (r: Vec<Found>)
        ensures
            r@.map_values(|m: Found| m@) == regex_find_all(self@, haystack@),
            forall|k: int|
                0 <= k < r@.len() ==> #[trigger] r@[k].start <= r@[k].end <= byte_len(haystack@),
            forall|k: int| 0 <= k < r@.len() ==> match_lies_in(#[trigger] r@[k]@, haystack@),
            forall|k: int| 0 <= k < r@.len() - 1 ==> #[trigger] r@[k].end <= r@[k + 1].start,
    {
        let mut found = Vec::new();
        for m in self.compiled.find_iter(haystack) {
            found.push(Found { start: m.start(), end: m.end(), text: m.as_str().to_string() });
        }
        found
    }
}


/// The character index at which byte `b` of `s` falls, for an offset on a
/// character boundary.
pub open spec fn char_index_at(s: Seq<char>, b: int) -> int {
    choose|i: int| 0 <= i <= s.len() && byte_len(s.take(i)) == b
}

/// The parts of `s` before, between and after the separator matches `seps`
/// (in order, not overlapping), each with the byte offset where it starts;
/// the first part starts at byte `from`.
pub open spec fn cut_between(s: Seq<char>, seps: Seq<(usize, usize, Seq<char>)>, from: usize) -> Seq<
    (usize, Seq<char>),
>
    decreases seps.len(),
{
    if seps.len() == 0 {
        seq![(from, s.subrange(char_index_at(s, from as int), s.len() as int))]
    } else {
        seq![(from, s.subrange(char_index_at(s, from as int), char_index_at(s, seps[0].0 as int)))]
            + cut_between(s, seps.drop_first(), seps[0].1)
    }
}

/// `text` cut at the matches of the separator pattern, each piece with its byte offset.
pub open spec fn split_pieces(text: Seq<char>) -> Seq<(usize, Seq<char>)> {
    cut_between(text, regex_find_all(SPLIT_PATTERN@, text), 0)
}

pub(crate) proof fn lemma_char_index_at(s: Seq<char>, i: int)
    requires
        0 <= i <= s.len(),
    ensures
        char_index_at(s, byte_len(s.take(i)) as int) == i,
{
    let j = char_index_at(s, byte_len(s.take(i)) as int);
    if j < i {
        crate::text::lemma_prefix_bytes_distinct(s, j, i);
    } else if i < j {
        crate::text::lemma_prefix_bytes_distinct(s, i, j);
    }
}

/// The index from `from` on at which `offs` holds `b`.
pub(crate) fn index_of_byte(offs: &Vec<usize>, from: usize, b: usize, Ghost(w): Ghost<int>) -> (i: usize)
    requires
        from <= w < offs@.len(),
        offs@[w] == b,
    ensures
        from <= i <= w,
        offs@[i as int] == b,
{
    let len = offs.len();
    assert(len == offs@.len());
    let mut i = from;
    while offs[i] != b
        invariant
            from <= i <= w < offs@.len(),
            offs@[w] == b,
            len == offs@.len(),
        decreases w - i,
    {
        i = i + 1;
    }
    i
}

/// `part` is the part of `s` that starts at byte offset `at`.
pub open spec fn part_lies_at(s: Seq<char>, at: int, part: Seq<char>) -> bool {
    exists|i: int, j: int|
        0 <= i <= j <= s.len() && #[trigger] s.subrange(i, j) == part && byte_len(s.take(i)) == at
}

/// A part of a part of `s` is a part of `s`, at the sum of the two offsets.
pub proof fn lemma_part_of_part(s: Seq<char>, x: int, p: Seq<char>, y: int, q: Seq<char>)
    requires
        part_lies_at(s, x, p),
        part_lies_at(p, y, q),
    ensures
        part_lies_at(s, x + y, q),
{
    let (i, j) = choose|i: int, j: int|
        0 <= i <= j <= s.len() && #[trigger] s.subrange(i, j) == p && byte_len(s.take(i)) == x;
    let (i2, j2) = choose|i2: int, j2: int|
        0 <= i2 <= j2 <= p.len() && #[trigger] p.subrange(i2, j2) == q && byte_len(p.take(i2)) == y;
    assert(s.subrange(i + i2, i + j2) =~= q);
    assert(s.take(i + i2) =~= s.take(i) + p.take(i2));
    crate::text::lemma_encode_concat(s.take(i), p.take(i2));
}

/// A part of `b` lies in `a + b + c`, shifted by the bytes of `a`.
pub proof fn lemma_part_in_concat(a: Seq<char>, b: Seq<char>, c: Seq<char>, x: int, w: Seq<char>)
    requires
        part_lies_at(b, x, w),
    ensures
        part_lies_at(a + b + c, byte_len(a) + x, w),
{
    let s = a + b + c;
    let (i, j) = choose|i: int, j: int|
        0 <= i <= j <= b.len() && #[trigger] b.subrange(i, j) == w && byte_len(b.take(i)) == x;
    let n = a.len() as int;
    assert(s.subrange(n + i, n + j) =~= w);
    assert(s.take(n + i) =~= a + b.take(i));
    crate::text::lemma_encode_concat(a, b.take(i));
}

/// The offsets and the number of the parts that [`cut_between`] gives.
pub(crate) proof fn lemma_cut_between_shape(s: Seq<char>, seps: Seq<(usize, usize, Seq<char>)>, from: usize)
    ensures
        cut_between(s, seps, from).len() == seps.len() + 1,
        cut_between(s, seps, from)[0].0 == from,
        forall|k: int|
            1 <= k <= seps.len() ==> #[trigger] cut_between(s, seps, from)[k].0 == seps[k - 1].1,
    decreases seps.len(),
{
    if seps.len() > 0 {
        let rest = seps.drop_first();
        lemma_cut_between_shape(s, rest, seps[0].1);
        let c = cut_between(s, seps, from);
        let tail = cut_between(s, rest, seps[0].1);
        assert forall|k: int| 1 <= k <= seps.len() implies #[trigger] c[k].0 == seps[k - 1].1 by {
            assert(c[k] == tail[k - 1]);
            if k > 1 {
                assert(rest[k - 2] == seps[k - 1]);
            }
        }
    }
}

/// The parts that [`cut_between`] gives lie in `s`, each at its byte offset.
pub(crate) proof fn lemma_cut_between_parts(
    s: Seq<char>,
    seps: Seq<(usize, usize, Seq<char>)>,
    from: usize,
    i: int,
)
    requires
        0 <= i <= s.len(),
        byte_len(s.take(i)) == from,
        forall|k: int| 0 <= k < seps.len() ==> match_lies_in(#[trigger] seps[k], s),
        forall|k: int| 0 <= k < seps.len() - 1 ==> #[trigger] seps[k].1 <= seps[k + 1].0,
        seps.len() > 0 ==> from <= seps[0].0,
    ensures
        forall|k: int|
            0 <= k < cut_between(s, seps, from).len() ==> {
                &&& #[trigger] cut_between(s, seps, from)[k].0 + byte_len(cut_between(s, seps, from)[k].1)
                    <= byte_len(s)
                &&& occurs_in(cut_between(s, seps, from)[k].1, s)
                &&& part_lies_at(s, cut_between(s, seps, from)[k].0 as int, cut_between(s, seps, from)[k].1)
            },
        forall|k: int|
            0 <= k < seps.len() ==> #[trigger] cut_between(s, seps, from)[k].0 + byte_len(
                cut_between(s, seps, from)[k].1,
            ) == seps[k].0,
        cut_between(s, seps, from)[seps.len() as int].0 + byte_len(
            cut_between(s, seps, from)[seps.len() as int].1,
        ) == byte_len(s),
    decreases seps.len(),
{
    lemma_char_index_at(s, i);
    let c = cut_between(s, seps, from);
    if seps.len() == 0 {
        crate::text::lemma_byte_len_split(s, i, s.len() as int);
        assert(s.take(s.len() as int) =~= s);
        assert(s.subrange(i, s.len() as int) == c[0].1);
        assert(c[seps.len() as int] == c[0]);
    } else {
        let m = seps[0];
        assert(match_lies_in(seps[0], s));
        let (a, b) = choose|a: int, b: int|
            0 <= a <= b <= s.len() && #[trigger] s.subrange(a, b) == m.2 && byte_len(s.take(a))
                == m.0 && byte_len(s.take(b)) == m.1;
        if a < i {
            crate::text::lemma_prefix_bytes_distinct(s, a, i);
        }
        lemma_char_index_at(s, a);
        crate::text::lemma_byte_len_split(s, i, a);
        assert(s.subrange(i, a) == c[0].1);
        let rest = seps.drop_first();
        assert forall|k: int| 0 <= k < rest.len() implies match_lies_in(#[trigger] rest[k], s) by {
            assert(rest[k] == seps[k + 1]);
        }
        assert forall|k: int| 0 <= k < rest.len() - 1 implies #[trigger] rest[k].1 <= rest[k + 1].0 by {
            assert(rest[k] == seps[k + 1]);
            assert(rest[k + 1] == seps[k + 2]);
        }
        if rest.len() > 0 {
            assert(seps[0].1 <= seps[1].0);
        }
        lemma_cut_between_parts(s, rest, m.1, b);
        let tail = cut_between(s, rest, m.1);
        lemma_cut_between_shape(s, rest, m.1);
        assert(c == seq![(from, s.subrange(char_index_at(s, from as int), char_index_at(s, m.0 as int)))] + tail);
        assert forall|k: int| 0 <= k < c.len() implies {
            &&& #[trigger] c[k].0 + byte_len(c[k].1) <= byte_len(s)
            &&& occurs_in(c[k].1, s)
            &&& part_lies_at(s, c[k].0 as int, c[k].1)
        } by {
            if k > 0 {
                assert(c[k] == tail[k - 1]);
            } else {
                assert(s.subrange(i, a) == c[0].1);
            }
        }
        assert forall|k: int| 0 <= k < seps.len() implies #[trigger] c[k].0 + byte_len(c[k].1) == seps[k].0 by {
            if k > 0 {
                assert(c[k] == tail[k - 1]);
                assert(rest[k - 1] == seps[k]);
            } else {
                assert(s.subrange(i, a) == c[0].1);
            }
        }
        assert(c[seps.len() as int] == tail[rest.len() as int]);
    }
}

/// The sources of the patterns whose matches make a chunk ignored, in the
/// order in which they are tried.
pub open spec fn ignore_sources() -> Seq<Seq<char>> {
    seq![URL_PATTERN@, FILE_PATH_PATTERN@, NUMBER_PATTERN@, REGEX_PATTERN@, EMAIL_PATTERN@]
}

/// Every pattern that the tokenizer uses compiles.
pub open spec fn all_patterns_compile() -> bool {
    &&& forall|k: int| 0 <= k < 5 ==> regex_compiles(#[trigger] ignore_sources()[k])
    &&& regex_compiles(WORD_PATTERN@)
    &&& regex_compiles(SPLIT_PATTERN@)
}

/// Some ignore pattern matches somewhere in `text`.
pub open spec fn is_ignored_text(text: Seq<char>) -> bool {
    exists|k: int| 0 <= k < 5 && #[trigger] regex_is_match(ignore_sources()[k], text)
}

/// The compiled patterns that the tokenizer works with.
#[derive(Debug)]
pub struct Patterns {
    ignore_patterns: Vec<Pattern>,
    word_pattern: Pattern,
    split_pattern: Pattern,
}

impl Patterns {
    /// Each field holds the pattern compiled from its fixed source.
    #[verifier::type_invariant]
    spec fn holds_sources(self) -> bool {
        &&& self.ignore_patterns@.map_values(|p: Pattern| p@) == ignore_sources()
        &&& self.word_pattern@ == WORD_PATTERN@
        &&& self.split_pattern@ == SPLIT_PATTERN@
    }

    /// Compiles the patterns; `None` when one of them does not compile.
    pub fn new() -> (r: Option<Patterns>)
        ensures
            r is Some <==> all_patterns_compile(),
    {
        let sources: [&'static str; 5] = [
            URL_PATTERN,
            FILE_PATH_PATTERN,
            NUMBER_PATTERN,
            REGEX_PATTERN,
            EMAIL_PATTERN,
        ];
        let mut ignore_patterns: Vec<Pattern> = Vec::new();
        let mut k: usize = 0;
        while k < 5
            invariant
                k <= 5,
                forall|j: int| 0 <= j < 5 ==> (#[trigger] sources@[j])@ == ignore_sources()[j],
                ignore_patterns@.map_values(|p: Pattern| p@) == ignore_sources().take(k as int),
                forall|j: int| 0 <= j < k ==> regex_compiles(#[trigger] ignore_sources()[j]),
            decreases 5 - k,
        {
            match Pattern::compile(sources[k]) {
                Some(p) => {
                    let ghost before = ignore_patterns@.map_values(|p: Pattern| p@);
                    ignore_patterns.push(p);
                    assert(ignore_patterns@.map_values(|p: Pattern| p@) =~= before.push(
                        ignore_sources()[k as int],
                    ));
                    assert(ignore_sources().take(k + 1) =~= ignore_sources().take(k as int).push(
                        ignore_sources()[k as int],
                    ));
                },
                None => {
                    return None;
                },
            }
            k = k + 1;
        }
        assert(ignore_sources().take(5) =~= ignore_sources());
        let word_pattern = match Pattern::compile(WORD_PATTERN) {
            Some(p) => p,
            None => {
                return None;
            },
        };
        let split_pattern = match Pattern::compile(SPLIT_PATTERN) {
            Some(p) => p,
            None => {
                return None;
            },
        };
        Some(Patterns { ignore_patterns, word_pattern, split_pattern })
    }

    /// Whether some ignore pattern matches in `text` (URLs, file paths,
    /// numbers, regular expressions, e-mail addresses).
    pub fn is_ignored(&self, text: &str) -> (r: bool)
        ensures
            r == is_ignored_text(text@),
            r == (exists|k: int| 0 <= k < 5 && #[trigger] regex_is_match(ignore_sources()[k], text@)),
    {
        proof {
            use_type_invariant(self);
        }
        let n = self.ignore_patterns.len();
        assert(ignore_sources().len() == 5);
        assert(self.ignore_patterns@.map_values(|p: Pattern| p@).len() == n);
        let mut k: usize = 0;
        while k < n
            invariant
                k <= n == 5,
                n == self.ignore_patterns@.len(),
                self.ignore_patterns@.map_values(|p: Pattern| p@) == ignore_sources(),
                forall|j: int| 0 <= j < k ==> !regex_is_match(ignore_sources()[j], text@),
            decreases n - k,
        {
            assert(self.ignore_patterns@.map_values(|p: Pattern| p@)[k as int]
                == self.ignore_patterns@[k as int]@);
            if self.ignore_patterns[k].is_match(text) {
                return true;
            }
            k = k + 1;
        }
        assert forall|j: int| 0 <= j < 5 implies !#[trigger] regex_is_match(ignore_sources()[j], text@) by {}
        false
    }

    /// Whether the word pattern matches somewhere in `text`.
    pub fn matches_word(&self, text: &str) -> (r: bool)
        ensures
            r == regex_is_match(WORD_PATTERN@, text@),
    {
        proof {
            use_type_invariant(self);
        }
        self.word_pattern.is_match(text)
    }

    /// The matches of the word pattern in `text`, in order.
    pub fn find_words(&self, text: &str) -> (r: Vec<Found>)
        ensures
            r@.map_values(|m: Found| m@) == regex_find_all(WORD_PATTERN@, text@),
            forall|k: int|
                0 <= k < r@.len() ==> #[trigger] r@[k].start <= r@[k].end <= byte_len(text@),
            forall|k: int| 0 <= k < r@.len() ==> match_lies_in(#[trigger] r@[k]@, text@),
            forall|k: int| 0 <= k < r@.len() - 1 ==> #[trigger] r@[k].end <= r@[k + 1].start,
    {
        proof {
            use_type_invariant(self);
        }
        self.word_pattern.find_all(text)
    }

    /// The matches of the separator pattern in `text`, in order.
    pub fn find_separators(&self, text: &str) -> (r: Vec<Found>)
        ensures
            r@.map_values(|m: Found| m@) == regex_find_all(SPLIT_PATTERN@, text@),
            forall|k: int|
                0 <= k < r@.len() ==> #[trigger] r@[k].start <= r@[k].end <= byte_len(text@),
            forall|k: int| 0 <= k < r@.len() ==> match_lies_in(#[trigger] r@[k]@, text@),
            forall|k: int| 0 <= k < r@.len() - 1 ==> #[trigger] r@[k].end <= r@[k + 1].start,
    {
        proof {
            use_type_invariant(self);
        }
        self.split_pattern.find_all(text)
    }

    /// `text` cut at the separators of joined words (`snake_case`, `Get-Item`,
    /// `run—but`), each piece with the byte offset where it starts: the first
    /// piece at 0, the others where the separator before them ends.
    pub fn split_joined(&self, text: &str) -> (r: Vec<(usize, String)>)
        ensures
            r@.map_values(|p: (usize, String)| (p.0, p.1@)) == split_pieces(text@),
            forall|k: int|
                0 <= k < r@.len() ==> #[trigger] r@[k].0 + byte_len(r@[k].1@) <= byte_len(text@),
            forall|k: int| 0 <= k < r@.len() ==> occurs_in(#[trigger] r@[k].1@, text@),
            forall|k: int| 0 <= k < r@.len() ==> part_lies_at(text@, #[trigger] r@[k].0 as int, r@[k].1@),
    {
        proof {
            use_type_invariant(self);
        }
        let separators = self.find_separators(text);
        let pieces = self.split_pattern.split(text);
        let ghost sv = separators@.map_values(|m: Found| m@);
        let ghost cut = split_pieces(text@);
        let ghost pv = pieces@.map_values(|p: String| p@);
        proof {
            assert(text@.take(0) =~= Seq::<char>::empty());
            lemma_cut_between_shape(text@, sv, 0);
            assert forall|k: int| 0 <= k < sv.len() implies match_lies_in(#[trigger] sv[k], text@) by {
                assert(sv[k] == separators@[k]@);
            }
            assert forall|k: int| 0 <= k < sv.len() - 1 implies #[trigger] sv[k].1 <= sv[k + 1].0 by {
                assert(sv[k] == separators@[k]@);
                assert(sv[k + 1] == separators@[k + 1]@);
            }
            if sv.len() > 0 {
                assert(sv[0] == separators@[0]@);
            }
            lemma_cut_between_parts(text@, sv, 0, 0);
            assert(pv.len() == cut.len());
        }
        let mut out: Vec<(usize, String)> = Vec::new();
        let mut k: usize = 0;
        while k < pieces.len()
            invariant
                k <= pieces@.len() == separators@.len() + 1,
                pv == pieces@.map_values(|p: String| p@),
                sv == separators@.map_values(|m: Found| m@),
                cut == split_pieces(text@),
                cut == cut_between(text@, sv, 0),
                pv == cut.map_values(|p: (usize, Seq<char>)| p.1),
                cut.len() == sv.len() + 1,
                cut[0].0 == 0,
                forall|j: int| 1 <= j <= sv.len() ==> #[trigger] cut[j].0 == sv[j - 1].1,
                out@.map_values(|p: (usize, String)| (p.0, p.1@)) == cut.take(k as int),
            decreases pieces@.len() - k,
        {
            let at = if k == 0 {
                0
            } else {
                separators[k - 1].end
            };
            assert(at == cut[k as int].0) by {
                if k > 0 {
                    assert(sv[k - 1] == separators@[k - 1]@);
                }
            }
            assert(pieces@[k as int]@ == cut[k as int].1) by {
                assert(pv[k as int] == pieces@[k as int]@);
            }
            let ghost before = out@.map_values(|p: (usize, String)| (p.0, p.1@));
            out.push((at, pieces[k].clone()));
            assert(out@.map_values(|p: (usize, String)| (p.0, p.1@)) =~= before.push(cut[k as int]));
            assert(cut.take(k + 1) =~= cut.take(k as int).push(cut[k as int]));
            k = k + 1;
        }
        assert(cut.take(k as int) =~= cut);
        assert forall|j: int| 0 <= j < out@.len() implies {
            &&& #[trigger] out@[j].0 + byte_len(out@[j].1@) <= byte_len(text@)
            &&& occurs_in(out@[j].1@, text@)
            &&& part_lies_at(text@, out@[j].0 as int, out@[j].1@)
        } by {
            assert(out@.map_values(|p: (usize, String)| (p.0, p.1@))[j] == (out@[j].0, out@[j].1@));
            assert(cut[j] == (out@[j].0, out@[j].1@));
            let c = cut_between(text@, sv, 0);
            assert(c[j].0 + byte_len(c[j].1) <= byte_len(text@));
            assert(occurs_in(c[j].1, text@));
            assert(part_lies_at(text@, c[j].0 as int, c[j].1));
        }
        assert forall|j: int| 0 <= j < out@.len() implies occurs_in(#[trigger] out@[j].1@, text@) by {
            assert(out@[j].0 + byte_len(out@[j].1@) <= byte_len(text@));
        }
        assert forall|j: int| 0 <= j < out@.len() implies part_lies_at(text@, #[trigger] out@[j].0 as int, out@[j].1@) by {
            assert(part_lies_at(text@, out@[j].0 as int, out@[j].1@));
        }
        out
    }
}

} // verus!
