//! # Tokenizer
//!
//! Turns lines of text into [`Token`]s for spell checking:
//!
//! - a line is cut into chunks at whitespace;
//! - symbols other than apostrophes are stripped from both ends of a chunk;
//! - chunks in which a URL, a file path, a number, a regular expression or an
//!   e-mail address is found are ignored;
//! - joined words are cut at `_`, `-`, spaces and em dashes;
//! - word matches that only symbols separate stay one word with those
//!   symbols (`sh🤬t`, `don't`);
//! - words are cut at their case changes (camelCase, PascalCase), and pieces
//!   of a single character are dropped.
//!
//! A token records the byte offsets of its own first and last byte. The
//! offset of a chunk counts the bytes of the kept chunks before it on the
//! line, each followed by one separator byte; within a chunk, a token is at
//! its place in the trimmed chunk.

use vstd::prelude::*;
use crate::patterns::{
    all_patterns_compile, char_index_at, index_of_byte, is_ignored_text, lemma_char_index_at,
    match_lies_in, part_lies_at, regex_find_all, split_pieces,
    Found, Patterns, WORD_PATTERN,
};
use crate::text::{
    byte_len, case_pieces, char_is_alphanumeric, chars_of, is_alphanumeric, occurs_in,
    prefix_byte_lens, lemma_byte_len_split, lemma_byte_len_subrange,
    spans_ordered, split_case_pieces, trim_span, trim_symbols, whitespace_chunks,
    whitespace_spans,
};
use vstd::string::StrSliceExecFns;

verus! {

/// Position of a [`Token`] in the input.
#[derive(Debug)]
pub struct Position {
    /// Byte offset where the token starts.
    start: usize,
    /// Byte offset of the last byte of the token.
    end: usize,
    /// 1-based line number of the token.
    line_no: usize,
}

impl View for Position {
    type V = (usize, usize, usize);

    closed spec fn view(&self) -> (usize, usize, usize) {
        (self.start, self.end, self.line_no)
    }
}

impl Position {
    /// Byte offset where the token starts.
    pub fn start(&self) -> (r: usize)
        ensures
            r == self@.0,
    {
        self.start
    }

    /// Byte offset of the last byte of the token.
    pub fn end(&self) -> (r: usize)
        ensures
            r == self@.1,
    {
        self.end
    }

    /// 1-based line number of the token.
    pub fn line_no(&self) -> (r: usize)
        ensures
            r == self@.2,
    {
        self.line_no
    }
}

/// What a token holds: its word and its position.
pub struct TokenView {
    pub word: Seq<char>,
    pub start: usize,
    pub end: usize,
    pub line_no: usize,
}

/// A word taken from the input, to be spell checked.
#[derive(Debug)]
pub struct Token {
    word: String,
    position: Position,
}

impl View for Token {
    type V = TokenView;

    closed spec fn view(&self) -> TokenView {
        TokenView {
            word: self.word@,
            start: self.position.start,
            end: self.position.end,
            line_no: self.position.line_no,
        }
    }
}

impl Token {
    /// A token for `word` at the given position.
    pub fn new(word: &str, start: usize, end: usize, line_no: usize) -> (t: Token)
        ensures
            t@ == (TokenView { word: word@, start, end, line_no }),
    {
        Token { word: word.to_owned(), position: Position { start, end, line_no } }
    }

    /// The word of the token.
    pub fn word(&self) -> (r: &str)
        ensures
            r@ == self@.word,
    {
        self.word.as_str()
    }

    /// The position of the token.
    pub fn position(&self) -> (r: &Position)
        ensures
            r@ == (self@.start, self@.end, self@.line_no),
    {
        &self.position
    }
}

/// The offset of the last byte of a match that ends at byte `end`: one less,
/// wrapping around below zero as `usize` arithmetic does.
pub open spec fn last_byte(end: int) -> usize {
    if end == 0 {
        usize::MAX
    } else {
        (end - 1) as usize
    }
}

/// The tokens of the case pieces of one match, the first piece starting at
/// byte `start`: each piece is positioned at its own bytes, and pieces of a
/// single character are dropped.
pub open spec fn piece_tokens(pieces: Seq<Seq<char>>, start: int, line_no: usize) -> Seq<
    TokenView,
>
    decreases pieces.len(),
{
    if pieces.len() == 0 {
        seq![]
    } else {
        let p = pieces[0];
        let here = if p.len() == 1 {
            seq![]
        } else {
            seq![
                TokenView {
                    word: p,
                    start: start as usize,
                    end: last_byte(start + byte_len(p)),
                    line_no,
                },
            ]
        };
        here + piece_tokens(pieces.drop_first(), start + byte_len(p), line_no)
    }
}

/// The tokens that one match contributes, for a piece at byte `offset`: one
/// per case piece of its text that is longer than a character.
pub open spec fn found_tokens(m: (usize, usize, Seq<char>), offset: int, line_no: usize) -> Seq<
    TokenView,
> {
    piece_tokens(case_pieces(m.2), offset + m.0, line_no)
}

/// The tokens of a sequence of matches, in order.
pub open spec fn founds_tokens(
    ms: Seq<(usize, usize, Seq<char>)>,
    offset: int,
    line_no: usize,
) -> Seq<TokenView>
    decreases ms.len(),
{
    if ms.len() == 0 {
        seq![]
    } else {
        founds_tokens(ms.drop_last(), offset, line_no) + found_tokens(ms.last(), offset, line_no)
    }
}

/// No character of `s` from index `i` up to index `j` is alphanumeric.
pub open spec fn symbols_only(s: Seq<char>, i: int, j: int) -> bool {
    forall|k: int| i <= k < j ==> !char_is_alphanumeric(#[trigger] s[k])
}

/// The word of `s` between byte offsets `a` and `b`, with those offsets.
pub open spec fn word_between(s: Seq<char>, a: usize, b: usize) -> (usize, usize, Seq<char>) {
    (a, b, s.subrange(char_index_at(s, a as int), char_index_at(s, b as int)))
}

/// The words of `s` from the current word, spanning bytes `cur`, on: a
/// following match that only symbols separate from it joins it.
pub open spec fn join_from(
    s: Seq<char>,
    cur: (usize, usize),
    rest: Seq<(usize, usize, Seq<char>)>,
) -> Seq<(usize, usize, Seq<char>)>
    decreases rest.len(),
{
    if rest.len() == 0 {
        seq![word_between(s, cur.0, cur.1)]
    } else if symbols_only(s, char_index_at(s, cur.1 as int), char_index_at(s, rest[0].0 as int)) {
        join_from(s, (cur.0, rest[0].1), rest.drop_first())
    } else {
        seq![word_between(s, cur.0, cur.1)] + join_from(s, (rest[0].0, rest[0].1), rest.drop_first())
    }
}

/// The words of `s` made from its word matches `ms`: matches that only
/// symbols (characters that are not alphanumeric) separate are one word,
/// with those symbols, so that `sh🤬t` stays whole.
pub open spec fn joined_words(s: Seq<char>, ms: Seq<(usize, usize, Seq<char>)>) -> Seq<
    (usize, usize, Seq<char>),
> {
    if ms.len() == 0 {
        seq![]
    } else {
        join_from(s, (ms[0].0, ms[0].1), ms.drop_first())
    }
}

/// The tokens of the pieces of a split chunk that starts at byte `offset`:
/// each piece comes with its own byte offset in the chunk; empty pieces give
/// none, the others give the tokens of their word matches.
pub open spec fn pieces_tokens(pieces: Seq<(usize, Seq<char>)>, offset: int, line_no: usize) -> Seq<
    TokenView,
>
    decreases pieces.len(),
{
    if pieces.len() == 0 {
        seq![]
    } else {
        let (at, piece) = pieces.last();
        pieces_tokens(pieces.drop_last(), offset, line_no) + if piece.len() == 0 {
            seq![]
        } else {
            founds_tokens(
                joined_words(piece, regex_find_all(WORD_PATTERN@, piece)),
                offset + at,
                line_no,
            )
        }
    }
}

/// A trimmed chunk is kept when it is not empty and no ignore pattern matches in it.
pub open spec fn chunk_kept(trimmed: Seq<char>) -> bool {
    trimmed.len() > 0 && !is_ignored_text(trimmed)
}

/// The tokens of a sequence of whitespace chunks of one line, and the byte
/// offset that follows them: each kept chunk advances the offset by its
/// trimmed length plus one.
pub open spec fn chunks_scan(chunks: Seq<Seq<char>>, line_no: usize) -> (Seq<TokenView>, int)
    decreases chunks.len(),
{
    if chunks.len() == 0 {
        (seq![], 0)
    } else {
        let (tokens, offset) = chunks_scan(chunks.drop_last(), line_no);
        let trimmed = trim_symbols(chunks.last());
        if chunk_kept(trimmed) {
            (
                tokens + pieces_tokens(split_pieces(trimmed), offset, line_no),
                offset + byte_len(trimmed) + 1,
            )
        } else {
            (tokens, offset)
        }
    }
}

/// The kept chunks of a sequence of whitespace chunks, each trimmed and
/// followed by one space: the text in which token offsets are counted.
pub open spec fn kept_text(chunks: Seq<Seq<char>>) -> Seq<char>
    decreases chunks.len(),
{
    if chunks.len() == 0 {
        seq![]
    } else {
        let trimmed = trim_symbols(chunks.last());
        if chunk_kept(trimmed) {
            kept_text(chunks.drop_last()) + trimmed + seq![' ']
        } else {
            kept_text(chunks.drop_last())
        }
    }
}

/// The tokens of one line.
pub open spec fn line_tokens(line: Seq<char>, line_no: usize) -> Seq<TokenView> {
    chunks_scan(whitespace_chunks(line), line_no).0
}

/// The tokens of a sequence of lines, numbered from 1.
pub open spec fn lines_tokens(lines: Seq<Seq<char>>) -> Seq<TokenView>
    decreases lines.len(),
{
    if lines.len() == 0 {
        seq![]
    } else {
        lines_tokens(lines.drop_last()) + line_tokens(lines.last(), lines.len() as usize)
    }
}

/// The word of every token is a contiguous part of `text`.
pub open spec fn words_occur_in(tokens: Seq<TokenView>, text: Seq<char>) -> bool {
    forall|k: int| 0 <= k < tokens.len() ==> occurs_in(#[trigger] tokens[k].word, text)
}

proof fn lemma_words_occur_concat(a: Seq<TokenView>, b: Seq<TokenView>, text: Seq<char>)
    requires
        words_occur_in(a, text),
        words_occur_in(b, text),
    ensures
        words_occur_in(a + b, text),
{
    assert forall|k: int| 0 <= k < (a + b).len() implies occurs_in(#[trigger] (a + b)[k].word, text) by {
        if k < a.len() {
            assert((a + b)[k] == a[k]);
        } else {
            assert((a + b)[k] == b[k - a.len()]);
        }
    }
}

proof fn lemma_words_occur_widen(tokens: Seq<TokenView>, part: Seq<char>, text: Seq<char>)
    requires
        words_occur_in(tokens, part),
        occurs_in(part, text),
    ensures
        words_occur_in(tokens, text),
{
    assert forall|k: int| 0 <= k < tokens.len() implies occurs_in(#[trigger] tokens[k].word, text) by {
        crate::text::lemma_occurs_in_trans(tokens[k].word, part, text);
    }
}

/// Every token with a word ends on the last byte of that word: its end is
/// its start plus the word's byte length, minus one.
pub open spec fn ends_match_words(tokens: Seq<TokenView>) -> bool {
    forall|k: int|
        0 <= k < tokens.len() && (#[trigger] tokens[k]).word.len() > 0 ==> tokens[k].end + 1
            == tokens[k].start + byte_len(tokens[k].word)
}

proof fn lemma_ends_match_concat(a: Seq<TokenView>, b: Seq<TokenView>)
    requires
        ends_match_words(a),
        ends_match_words(b),
    ensures
        ends_match_words(a + b),
{
    assert forall|k: int| 0 <= k < (a + b).len() && (#[trigger] (a + b)[k]).word.len() > 0 implies (a
        + b)[k].end + 1 == (a + b)[k].start + byte_len((a + b)[k].word) by {
        if k < a.len() {
            assert((a + b)[k] == a[k]);
        } else {
            assert((a + b)[k] == b[k - a.len()]);
        }
    }
}

/// No token's word is a single character.
pub open spec fn no_single_chars(tokens: Seq<TokenView>) -> bool {
    forall|k: int| 0 <= k < tokens.len() ==> (#[trigger] tokens[k]).word.len() != 1
}

/// Every token carries the line number `line_no`.
pub open spec fn all_on_line(tokens: Seq<TokenView>, line_no: usize) -> bool {
    forall|k: int| 0 <= k < tokens.len() ==> (#[trigger] tokens[k]).line_no == line_no
}

pub(crate) proof fn lemma_token_facts_concat(
    a: Seq<TokenView>,
    b: Seq<TokenView>,
    text: Seq<char>,
    line_no: usize,
)
    requires
        words_occur_in(a, text),
        words_occur_in(b, text),
        no_single_chars(a),
        no_single_chars(b),
        all_on_line(a, line_no),
        all_on_line(b, line_no),
    ensures
        words_occur_in(a + b, text),
        no_single_chars(a + b),
        all_on_line(a + b, line_no),
{
    lemma_words_occur_concat(a, b, text);
    assert forall|k: int| 0 <= k < (a + b).len() implies (#[trigger] (a + b)[k]).word.len() != 1
        && (a + b)[k].line_no == line_no by {
        if k < a.len() {
            assert((a + b)[k] == a[k]);
        } else {
            assert((a + b)[k] == b[k - a.len()]);
        }
    }
}

pub(crate) proof fn lemma_piece_tokens_facts(
    pieces: Seq<Seq<char>>,
    start: int,
    line_no: usize,
    text: Seq<char>,
)
    requires
        forall|j: int| 0 <= j < pieces.len() ==> occurs_in(#[trigger] pieces[j], text),
    ensures
        words_occur_in(piece_tokens(pieces, start, line_no), text),
        no_single_chars(piece_tokens(pieces, start, line_no)),
        all_on_line(piece_tokens(pieces, start, line_no), line_no),
    decreases pieces.len(),
{
    if pieces.len() > 0 {
        let p = pieces[0];
        let rest = pieces.drop_first();
        assert forall|j: int| 0 <= j < rest.len() implies occurs_in(#[trigger] rest[j], text) by {
            assert(rest[j] == pieces[j + 1]);
        }
        lemma_piece_tokens_facts(rest, start + byte_len(p), line_no, text);
        assert(occurs_in(pieces[0], text));
        let here: Seq<TokenView> = if p.len() == 1 {
            seq![]
        } else {
            seq![
                TokenView {
                    word: p,
                    start: start as usize,
                    end: last_byte(start + byte_len(p)),
                    line_no,
                },
            ]
        };
        assert(words_occur_in(here, text));
        lemma_token_facts_concat(here, piece_tokens(rest, start + byte_len(p), line_no), text, line_no);
    }
}

/// The tokens of a match are parts of its text, none a single character, all on the line.
pub(crate) proof fn lemma_found_tokens_facts(m: (usize, usize, Seq<char>), offset: int, line_no: usize)
    ensures
        words_occur_in(found_tokens(m, offset, line_no), m.2),
        no_single_chars(found_tokens(m, offset, line_no)),
        all_on_line(found_tokens(m, offset, line_no), line_no),
{
    crate::text::lemma_case_pieces_occur(m.2);
    lemma_piece_tokens_facts(case_pieces(m.2), offset + m.0, line_no, m.2);
}

proof fn lemma_founds_words(ms: Seq<(usize, usize, Seq<char>)>, offset: int, line_no: usize, text: Seq<char>)
    requires
        forall|j: int| 0 <= j < ms.len() ==> occurs_in(#[trigger] ms[j].2, text),
    ensures
        words_occur_in(founds_tokens(ms, offset, line_no), text),
    decreases ms.len(),
{
    if ms.len() > 0 {
        let m = ms.last();
        lemma_founds_words(ms.drop_last(), offset, line_no, text);
        assert(occurs_in(ms[ms.len() - 1].2, text));
        let ts = found_tokens(m, offset, line_no);
        lemma_found_tokens_facts(m, offset, line_no);
        lemma_words_occur_widen(ts, m.2, text);
        lemma_words_occur_concat(founds_tokens(ms.drop_last(), offset, line_no), ts, text);
    }
}

/// Each token's word is the part of `text` that starts `offset` bytes before
/// the token's start.
pub open spec fn tokens_lie_in(tokens: Seq<TokenView>, text: Seq<char>, offset: int) -> bool {
    forall|k: int| 0 <= k < tokens.len() ==> part_lies_at(text, (#[trigger] tokens[k]).start - offset, tokens[k].word)
}

proof fn lemma_tokens_lie_concat(a: Seq<TokenView>, b: Seq<TokenView>, text: Seq<char>, offset: int)
    requires
        tokens_lie_in(a, text, offset),
        tokens_lie_in(b, text, offset),
    ensures
        tokens_lie_in(a + b, text, offset),
{
    assert forall|k: int| 0 <= k < (a + b).len() implies part_lies_at(
        text,
        (#[trigger] (a + b)[k]).start - offset,
        (a + b)[k].word,
    ) by {
        if k < a.len() {
            assert((a + b)[k] == a[k]);
        } else {
            assert((a + b)[k] == b[k - a.len()]);
        }
    }
}

/// The tokens of case pieces that start at byte `start` lie in the pieces
/// put together, each at its own bytes.
proof fn lemma_piece_tokens_lie(pieces: Seq<Seq<char>>, start: int, line_no: usize)
    requires
        0 <= start,
        start + byte_len(pieces.flatten()) <= usize::MAX,
    ensures
        tokens_lie_in(piece_tokens(pieces, start, line_no), pieces.flatten(), start),
    decreases pieces.len(),
{
    if pieces.len() > 0 {
        let p = pieces[0];
        let rest = pieces.drop_first();
        let f = rest.flatten();
        assert(pieces.flatten() == p + f);
        crate::text::lemma_encode_concat(p, f);
        lemma_piece_tokens_lie(rest, start + byte_len(p), line_no);
        let here: Seq<TokenView> = if p.len() == 1 {
            seq![]
        } else {
            seq![
                TokenView {
                    word: p,
                    start: start as usize,
                    end: last_byte(start + byte_len(p)),
                    line_no,
                },
            ]
        };
        let there = piece_tokens(rest, start + byte_len(p), line_no);
        assert(piece_tokens(pieces, start, line_no) == here + there);
        assert(tokens_lie_in(here, p + f, start)) by {
            if p.len() != 1 {
                assert((p + f).subrange(0, p.len() as int) =~= p);
                assert((p + f).take(0) =~= Seq::<char>::empty());
                assert(part_lies_at(p + f, 0, p));
            }
        }
        assert(tokens_lie_in(there, p + f, start)) by {
            assert forall|k: int| 0 <= k < there.len() implies part_lies_at(
                p + f,
                (#[trigger] there[k]).start - start,
                there[k].word,
            ) by {
                crate::patterns::lemma_part_in_concat(
                    p,
                    f,
                    Seq::<char>::empty(),
                    there[k].start - (start + byte_len(p)),
                    there[k].word,
                );
                assert(p + f + Seq::<char>::empty() =~= p + f);
            }
        }
        lemma_tokens_lie_concat(here, there, p + f, start);
    }
}

/// The tokens of matches that lie in `text` lie in `text` too, each at its own bytes.
proof fn lemma_founds_tokens_lie(
    ms: Seq<(usize, usize, Seq<char>)>,
    offset: int,
    line_no: usize,
    text: Seq<char>,
)
    requires
        0 <= offset,
        forall|j: int| 0 <= j < ms.len() ==> part_lies_at(text, (#[trigger] ms[j]).0 as int, ms[j].2),
        forall|j: int| 0 <= j < ms.len() ==> offset + (#[trigger] ms[j]).0 + byte_len(ms[j].2) <= usize::MAX,
    ensures
        tokens_lie_in(founds_tokens(ms, offset, line_no), text, offset),
    decreases ms.len(),
{
    if ms.len() > 0 {
        let m = ms.last();
        let init = ms.drop_last();
        assert forall|j: int| 0 <= j < init.len() implies part_lies_at(text, (#[trigger] init[j]).0 as int, init[j].2)
            && offset + init[j].0 + byte_len(init[j].2) <= usize::MAX by {
            assert(init[j] == ms[j]);
        }
        lemma_founds_tokens_lie(init, offset, line_no, text);
        assert(m == ms[ms.len() - 1]);
        crate::laws::law_case_pieces_rejoin(m.2);
        lemma_piece_tokens_lie(case_pieces(m.2), offset + m.0, line_no);
        let ts = found_tokens(m, offset, line_no);
        assert forall|k: int| 0 <= k < ts.len() implies part_lies_at(text, (#[trigger] ts[k]).start - offset, ts[k].word) by {
            crate::patterns::lemma_part_of_part(text, m.0 as int, m.2, ts[k].start - (offset + m.0), ts[k].word);
        }
        lemma_tokens_lie_concat(founds_tokens(init, offset, line_no), ts, text, offset);
    }
}

/// Tokens of a chunk that follows `kept` lie in `kept`, the chunk and a
/// space, at their own offsets.
proof fn lemma_tokens_lie_after(
    before: Seq<TokenView>,
    added: Seq<TokenView>,
    kept: Seq<char>,
    chunk: Seq<char>,
    offset: int,
)
    requires
        tokens_lie_in(before, kept, 0),
        tokens_lie_in(added, chunk, offset),
        byte_len(kept) == offset,
    ensures
        tokens_lie_in(before + added, kept + chunk + seq![' '], 0),
{
    let text = kept + chunk + seq![' '];
    assert forall|k: int| 0 <= k < before.len() implies part_lies_at(text, (#[trigger] before[k]).start - 0, before[k].word) by {
        crate::patterns::lemma_part_in_concat(Seq::<char>::empty(), kept, chunk + seq![' '], before[k].start - 0, before[k].word);
        assert(Seq::<char>::empty() + kept + (chunk + seq![' ']) =~= text);
        assert(byte_len(Seq::<char>::empty()) == 0) by {
            assert(vstd::utf8::encode_utf8(Seq::<char>::empty()) =~= Seq::<u8>::empty());
        }
    }
    assert forall|k: int| 0 <= k < added.len() implies part_lies_at(text, (#[trigger] added[k]).start - 0, added[k].word) by {
        crate::patterns::lemma_part_in_concat(kept, chunk, seq![' '], added[k].start - offset, added[k].word);
    }
    lemma_tokens_lie_concat(before, added, text, 0);
}

/// Each token names a line of `lines` by its 1-based number, and its word
/// lies in that line's kept text at the token's start.
pub open spec fn tokens_placed_in_lines(tokens: Seq<TokenView>, lines: Seq<Seq<char>>) -> bool {
    forall|i: int|
        0 <= i < tokens.len() ==> {
            &&& 1 <= (#[trigger] tokens[i]).line_no <= lines.len()
            &&& part_lies_at(
                kept_text(whitespace_chunks(lines[tokens[i].line_no - 1])),
                tokens[i].start as int,
                tokens[i].word,
            )
        }
}

/// The views of a sequence of tokens.
pub open spec fn token_views(tokens: Seq<Token>) -> Seq<TokenView> {
    tokens.map_values(|t: Token| t@)
}

/// A tokenizer that collects the [`Token`]s of the lines it is given.
#[derive(Debug)]
pub struct Tokenizer {
    tokens: Vec<Token>,
    patterns: Patterns,
}

impl View for Tokenizer {
    type V = Seq<TokenView>;

    closed spec fn view(&self) -> Seq<TokenView> {
        token_views(self.tokens@)
    }
}

impl Tokenizer {
    /// The tokens collected so far.
    pub fn tokens(&self) -> (r: &[Token])
        ensures
            token_views(r@) == self@,
    {
        self.tokens.as_slice()
    }

    /// A tokenizer with no tokens.
    pub fn new() -> (t: Tokenizer)
        requires
            all_patterns_compile(),
        ensures
            t@ == Seq::<TokenView>::empty(),
    {
        Tokenizer::with_patterns(Patterns::new().unwrap())
    }

    /// A tokenizer with no tokens, or `None` when its patterns do not compile.
    pub fn try_new() -> (r: Option<Tokenizer>)
        ensures
            r is Some <==> all_patterns_compile(),
            r matches Some(t) ==> t@ == Seq::<TokenView>::empty(),
    {
        match Patterns::new() {
            Some(_) => Some(Tokenizer::new()),
            None => None,
        }
    }

    fn with_patterns(patterns: Patterns) -> (t: Tokenizer)
        ensures
            t@ == Seq::<TokenView>::empty(),
    {
        let t = Tokenizer { tokens: Vec::new(), patterns };
        assert(token_views(t.tokens@) =~= Seq::<TokenView>::empty());
        t
    }

    /// Forgets the tokens collected so far.
    pub fn clear_tokens(&mut self)
        ensures
            final(self)@ == Seq::<TokenView>::empty(),
    {
        self.tokens.clear();
        assert(token_views(self.tokens@) =~= Seq::<TokenView>::empty());
    }

    /// Cuts `word` at its case changes: `"camelCaseExample"` gives
    /// `["camel", "Case", "Example"]`, runs of capitals stay together
    /// (`"TITLECase"`), a word without case change stays whole.
    pub fn split_word_cases(word: &str) -> (r: Vec<String>)
        ensures
            r@.map_values(|p: String| p@) == case_pieces(word@),
    {
        split_case_pieces(word)
    }

    /// The tokens of the word matches `found` in a piece that starts at byte
    /// `offset` of its line: one token per case piece of a match, positioned at
    /// the piece's own bytes; pieces of a single character are dropped.
    pub fn match_tokens(found: &Vec<Found>, offset: usize, line_no: usize) -> (r: Vec<Token>)
        requires
            forall|k: int|
                0 <= k < found@.len() ==> {
                    &&& #[trigger] found@[k].start <= found@[k].end
                    &&& offset + found@[k].end <= usize::MAX
                    &&& byte_len(found@[k].text@) == found@[k].end - found@[k].start
                },
        ensures
            token_views(r@) == founds_tokens(
                found@.map_values(|m: Found| m@),
                offset as int,
                line_no,
            ),
            ends_match_words(token_views(r@)),
    {
        let ghost ms = found@.map_values(|m: Found| m@);
        let mut out: Vec<Token> = Vec::new();
        let mut k: usize = 0;
        while k < found.len()
            invariant
                k <= found@.len(),
                ms == found@.map_values(|m: Found| m@),
                forall|j: int|
                    0 <= j < found@.len() ==> {
                        &&& #[trigger] found@[j].start <= found@[j].end
                        &&& offset + found@[j].end <= usize::MAX
                        &&& byte_len(found@[j].text@) == found@[j].end - found@[j].start
                    },
                token_views(out@) == founds_tokens(ms.take(k as int), offset as int, line_no),
                ends_match_words(token_views(out@)),
            decreases found@.len() - k,
        {
            let m = &found[k];
            assert(ms.take(k + 1).drop_last() =~= ms.take(k as int));
            assert(ms.take(k + 1).last() == m@);
            let text = m.text.as_str();
            let words = Tokenizer::split_word_cases(text);
            let ghost before = token_views(out@);
            let ghost pieces = words@.map_values(|p: String| p@);
            proof {
                crate::laws::law_case_pieces_rejoin(text@);
                assert(pieces.skip(0) =~= pieces);
            }
            let mut pos = offset + m.start;
            let mut j: usize = 0;
            while j < words.len()
                invariant
                    j <= words@.len(),
                    pieces == words@.map_values(|p: String| p@),
                    offset + m.end <= usize::MAX,
                    pos + byte_len(pieces.skip(j as int).flatten()) == offset + m.end,
                    token_views(out@) + piece_tokens(pieces.skip(j as int), pos as int, line_no)
                        == before + found_tokens(m@, offset as int, line_no),
                    ends_match_words(token_views(out@)),
                decreases words@.len() - j,
            {
                let ghost rest = pieces.skip(j as int);
                proof {
                    assert(rest.first() == pieces[j as int]);
                    assert(rest.drop_first() =~= pieces.skip(j + 1));
                    crate::text::lemma_encode_concat(pieces[j as int], pieces.skip(j + 1).flatten());
                }
                let word = words[j].as_str();
                assert(word@ == pieces[j as int]);
                let word_bytes = word.len();
                if word.unicode_len() != 1 {
                    let ghost prev = token_views(out@);
                    let end = (pos + word_bytes).wrapping_sub(1);
                    let token = Token {
                        word: word.to_owned(),
                        position: Position { start: pos, end, line_no },
                    };
                    let ghost tv = TokenView {
                        word: pieces[j as int],
                        start: pos,
                        end: last_byte(pos + byte_len(pieces[j as int])),
                        line_no,
                    };
                    assert(token@ == tv);
                    out.push(token);
                    assert(token_views(out@) =~= prev.push(tv));
                    proof {
                        if pieces[j as int].len() > 0 {
                            crate::text::lemma_byte_len_at_least_len(pieces[j as int]);
                        }
                        lemma_ends_match_concat(prev, seq![tv]);
                        assert(prev.push(tv) =~= prev + seq![tv]);
                    }
                    assert(piece_tokens(rest, pos as int, line_no) =~= seq![tv] + piece_tokens(
                        pieces.skip(j + 1),
                        pos + byte_len(pieces[j as int]),
                        line_no,
                    ));
                } else {
                    assert(piece_tokens(rest, pos as int, line_no) =~= piece_tokens(
                        pieces.skip(j + 1),
                        pos + byte_len(pieces[j as int]),
                        line_no,
                    ));
                }
                pos = pos + word_bytes;
                j = j + 1;
            }
            assert(pieces.skip(j as int) =~= Seq::<Seq<char>>::empty());
            k = k + 1;
        }
        assert(ms.take(found@.len() as int) =~= ms);
        out
    }

    /// The words of `piece` made from its word matches `found`, as
    /// [`joined_words`] describes.
    pub fn join_words(piece: &str, found: &Vec<Found>) -> (r: Vec<Found>)
        requires
            forall|k: int| 0 <= k < found@.len() ==> #[trigger] found@[k].start <= found@[k].end,
            forall|k: int| 0 <= k < found@.len() ==> match_lies_in(#[trigger] found@[k]@, piece@),
            forall|k: int| 0 <= k < found@.len() - 1 ==> #[trigger] found@[k].end <= found@[k + 1].start,
        ensures
            r@.map_values(|m: Found| m@) == joined_words(piece@, found@.map_values(|m: Found| m@)),
            forall|k: int|
                0 <= k < r@.len() ==> {
                    &&& #[trigger] r@[k].start <= r@[k].end <= byte_len(piece@)
                    &&& byte_len(r@[k].text@) == r@[k].end - r@[k].start
                    &&& occurs_in(r@[k].text@, piece@)
                },
            forall|k: int| 0 <= k < r@.len() ==> part_lies_at(piece@, (#[trigger] r@[k]).start as int, r@[k].text@),
    {
        let ghost sv = found@.map_values(|m: Found| m@);
        if found.len() == 0 {
            return Vec::new();
        }
        let byte_count = piece.as_bytes().len();
        assert(byte_len(piece@) == byte_count);
        let chars = chars_of(piece);
        let offs = prefix_byte_lens(&chars);
        let n = chars.len();
        let first = &found[0];
        let ghost (a, b) = choose|a: int, b: int|
            0 <= a <= b <= piece@.len() && #[trigger] piece@.subrange(a, b) == first@.2 && byte_len(
                piece@.take(a),
            ) == first@.0 && byte_len(piece@.take(b)) == first@.1;
        proof {
            assert(match_lies_in(found@[0]@, piece@));
            assert(offs@[a] == first.start);
            assert(offs@[b] == first.end);
            assert(chars@.take(0) =~= Seq::<char>::empty());
            if b < a {
                crate::text::lemma_prefix_bytes_distinct(chars@, b, a);
            }
        }
        let mut ci = index_of_byte(&offs, 0, first.start, Ghost(a));
        proof {
            if b < ci {
                crate::text::lemma_prefix_bytes_distinct(chars@, b, ci as int);
            }
        }
        let mut cj = index_of_byte(&offs, ci, first.end, Ghost(b));
        let mut cs = first.start;
        let mut ce = first.end;
        let mut out: Vec<Found> = Vec::new();
        let mut k: usize = 1;
        assert(sv.drop_first() =~= sv.skip(1));
        while k < found.len()
            invariant
                1 <= k <= found@.len(),
                n == chars@.len() == piece@.len(),
                chars@ == piece@,
                byte_len(piece@) <= usize::MAX,
                offs@.len() == n + 1,
                forall|i: int| 0 <= i <= n ==> #[trigger] offs@[i] == byte_len(chars@.take(i)),
                sv == found@.map_values(|m: Found| m@),
                forall|j: int| 0 <= j < found@.len() ==> #[trigger] found@[j].start <= found@[j].end,
                forall|j: int| 0 <= j < found@.len() ==> match_lies_in(#[trigger] found@[j]@, piece@),
                forall|j: int|
                    0 <= j < found@.len() - 1 ==> #[trigger] found@[j].end <= found@[j + 1].start,
                ci <= cj <= n,
                offs@[ci as int] == cs,
                offs@[cj as int] == ce,
                ce == found@[k - 1].end,
                out@.map_values(|m: Found| m@) + join_from(piece@, (cs, ce), sv.skip(k as int))
                    == joined_words(piece@, sv),
                forall|j: int|
                    0 <= j < out@.len() ==> {
                        &&& #[trigger] out@[j].start <= out@[j].end <= byte_len(piece@)
                        &&& byte_len(out@[j].text@) == out@[j].end - out@[j].start
                        &&& occurs_in(out@[j].text@, piece@)
                    },
                forall|j: int| 0 <= j < out@.len() ==> part_lies_at(piece@, (#[trigger] out@[j]).start as int, out@[j].text@),
            decreases found@.len() - k,
        {
            let m = &found[k];
            let ghost (a, b) = choose|a: int, b: int|
                0 <= a <= b <= piece@.len() && #[trigger] piece@.subrange(a, b) == m@.2 && byte_len(
                    piece@.take(a),
                ) == m@.0 && byte_len(piece@.take(b)) == m@.1;
            proof {
                assert(match_lies_in(found@[k as int]@, piece@));
                assert(found@[k - 1].end <= found@[k as int].start);
                assert(offs@[a] == m.start);
                assert(offs@[b] == m.end);
                if a < cj {
                    crate::text::lemma_prefix_bytes_distinct(chars@, a, cj as int);
                }
            }
            let mi = index_of_byte(&offs, cj, m.start, Ghost(a));
            proof {
                if b < mi {
                    crate::text::lemma_prefix_bytes_distinct(chars@, b, mi as int);
                }
            }
            let mj = index_of_byte(&offs, mi, m.end, Ghost(b));
            let mut g = cj;
            while g < mi && !is_alphanumeric(chars[g])
                invariant
                    cj <= g <= mi <= n == chars@.len(),
                    forall|t: int| cj <= t < g ==> !char_is_alphanumeric(#[trigger] chars@[t]),
                decreases mi - g,
            {
                g = g + 1;
            }
            let ghost rest = sv.skip(k as int);
            proof {
                lemma_char_index_at(piece@, ci as int);
                lemma_char_index_at(piece@, cj as int);
                lemma_char_index_at(piece@, mi as int);
                assert(rest[0] == m@);
                assert(rest.drop_first() =~= sv.skip(k + 1));
                if g < mi {
                    assert(!symbols_only(piece@, cj as int, mi as int));
                }
            }
            if g == mi {
                ce = m.end;
                cj = mj;
            } else {
                let text = piece.substring_char(ci, cj).to_owned();
                proof {
                    crate::text::lemma_byte_len_split(piece@, ci as int, cj as int);
                    assert(piece@.subrange(ci as int, cj as int) == text@);
                    assert(byte_len(piece@.take(ci as int)) == cs);
                    assert(part_lies_at(piece@, cs as int, text@));
                }
                let word = Found { start: cs, end: ce, text };
                assert(word@ == word_between(piece@, cs, ce));
                let ghost before = out@.map_values(|m: Found| m@);
                out.push(word);
                assert(out@.map_values(|m: Found| m@) =~= before.push(word_between(piece@, cs, ce)));
                cs = m.start;
                ce = m.end;
                ci = mi;
                cj = mj;
            }
            k = k + 1;
        }
        let text = piece.substring_char(ci, cj).to_owned();
        proof {
            lemma_char_index_at(piece@, ci as int);
            lemma_char_index_at(piece@, cj as int);
            crate::text::lemma_byte_len_split(piece@, ci as int, cj as int);
            assert(chars@.take(n as int) =~= chars@);
            assert(piece@.subrange(ci as int, cj as int) == text@);
            assert(sv.skip(k as int) =~= Seq::<(usize, usize, Seq<char>)>::empty());
            assert(byte_len(piece@.take(ci as int)) == cs);
            assert(part_lies_at(piece@, cs as int, text@));
        }
        let word = Found { start: cs, end: ce, text };
        assert(word@ == word_between(piece@, cs, ce));
        let ghost before = out@.map_values(|m: Found| m@);
        let ghost prev = out@;
        out.push(word);
        assert(out@.map_values(|m: Found| m@) =~= before.push(word_between(piece@, cs, ce)));
        assert forall|j: int| 0 <= j < out@.len() implies part_lies_at(piece@, (#[trigger] out@[j]).start as int, out@[j].text@) by {
            if j < prev.len() {
                assert(out@[j] == prev[j]);
            }
        }
        out
    }

    /// Adds the tokens of a kept chunk that starts at byte `offset`.
    fn push_chunk_tokens(&mut self, chunk: &str, offset: usize, line_no: usize)
        requires
            offset + byte_len(chunk@) <= usize::MAX,
        ensures
            final(self)@ == old(self)@ + pieces_tokens(split_pieces(chunk@), offset as int, line_no),
            words_occur_in(pieces_tokens(split_pieces(chunk@), offset as int, line_no), chunk@),
            ends_match_words(pieces_tokens(split_pieces(chunk@), offset as int, line_no)),
            tokens_lie_in(pieces_tokens(split_pieces(chunk@), offset as int, line_no), chunk@, offset as int),
    {
        let pieces = self.patterns.split_joined(chunk);
        let ghost views = pieces@.map_values(|p: (usize, String)| (p.0, p.1@));
        let ghost start_tokens = self@;
        let mut k: usize = 0;
        while k < pieces.len()
            invariant
                k <= pieces@.len(),
                offset + byte_len(chunk@) <= usize::MAX,
                views == pieces@.map_values(|p: (usize, String)| (p.0, p.1@)),
                views == split_pieces(chunk@),
                forall|j: int|
                    0 <= j < pieces@.len() ==> #[trigger] pieces@[j].0 + byte_len(pieces@[j].1@)
                        <= byte_len(chunk@),
                forall|j: int| 0 <= j < pieces@.len() ==> occurs_in(#[trigger] pieces@[j].1@, chunk@),
                forall|j: int| 0 <= j < pieces@.len() ==> part_lies_at(chunk@, #[trigger] pieces@[j].0 as int, pieces@[j].1@),
                self@ == start_tokens + pieces_tokens(views.take(k as int), offset as int, line_no),
                tokens_lie_in(pieces_tokens(views.take(k as int), offset as int, line_no), chunk@, offset as int),
                words_occur_in(pieces_tokens(views.take(k as int), offset as int, line_no), chunk@),
                ends_match_words(pieces_tokens(views.take(k as int), offset as int, line_no)),
            decreases pieces@.len() - k,
        {
            assert(views.take(k + 1).drop_last() =~= views.take(k as int));
            assert(views.take(k + 1).last() == (pieces@[k as int].0, pieces@[k as int].1@));
            let at = pieces[k].0;
            let piece = pieces[k].1.as_str();
            assert(at + byte_len(piece@) <= byte_len(chunk@));
            assert(occurs_in(piece@, chunk@));
            if !piece.is_empty() {
                let found = self.patterns.find_words(piece);
                let words = Tokenizer::join_words(piece, &found);
                proof {
                    let ms = words@.map_values(|m: Found| m@);
                    assert forall|j: int| 0 <= j < words@.len() implies {
                        &&& #[trigger] words@[j].start <= words@[j].end
                        &&& offset + at + words@[j].end <= usize::MAX
                        &&& byte_len(words@[j].text@) == words@[j].end - words@[j].start
                    } by {}
                    assert forall|j: int| 0 <= j < ms.len() implies occurs_in(#[trigger] ms[j].2, chunk@) by {
                        assert(ms[j] == words@[j]@);
                        assert(occurs_in(words@[j].text@, piece@));
                        crate::text::lemma_occurs_in_trans(ms[j].2, piece@, chunk@);
                    }
                    lemma_founds_words(ms, offset + at, line_no, chunk@);
                    assert forall|j: int| 0 <= j < ms.len() implies part_lies_at(piece@, (#[trigger] ms[j]).0 as int, ms[j].2)
                        && offset + at + ms[j].0 + byte_len(ms[j].2) <= usize::MAX by {
                        assert(ms[j] == words@[j]@);
                    }
                    lemma_founds_tokens_lie(ms, offset + at, line_no, piece@);
                    let ts = founds_tokens(ms, offset + at, line_no);
                    assert(part_lies_at(chunk@, at as int, piece@));
                    assert forall|j: int| 0 <= j < ts.len() implies part_lies_at(chunk@, (#[trigger] ts[j]).start - offset, ts[j].word) by {
                        crate::patterns::lemma_part_of_part(chunk@, at as int, piece@, ts[j].start - (offset + at), ts[j].word);
                    }
                    lemma_tokens_lie_concat(
                        pieces_tokens(views.take(k as int), offset as int, line_no),
                        ts,
                        chunk@,
                        offset as int,
                    );
                    lemma_words_occur_concat(
                        pieces_tokens(views.take(k as int), offset as int, line_no),
                        founds_tokens(ms, offset + at, line_no),
                        chunk@,
                    );
                }
                let mut found_tokens = Tokenizer::match_tokens(&words, offset + at, line_no);
                let ghost before = self.tokens@;
                let ghost added = found_tokens@;
                self.tokens.append(&mut found_tokens);
                assert(token_views(self.tokens@) =~= token_views(before) + token_views(added));
                proof {
                    lemma_ends_match_concat(
                        pieces_tokens(views.take(k as int), offset as int, line_no),
                        token_views(added),
                    );
                }
            }
            proof {
                if piece@.len() == 0 {
                    assert(pieces_tokens(views.take(k + 1), offset as int, line_no) =~= pieces_tokens(
                        views.take(k as int),
                        offset as int,
                        line_no,
                    ));
                }
            }
            k = k + 1;
        }
        assert(views.take(pieces@.len() as int) =~= views);
    }

    /// Adds the tokens of `line`, whose 1-based number is `line_no`.
    pub fn tokenize_line(&mut self, line: &str, line_no: usize)
        ensures
            final(self)@ == old(self)@ + line_tokens(line@, line_no),
            words_occur_in(line_tokens(line@, line_no), line@),
            ends_match_words(line_tokens(line@, line_no)),
            tokens_lie_in(line_tokens(line@, line_no), kept_text(whitespace_chunks(line@)), 0),
    {
        let byte_count = line.as_bytes().len();
        assert(byte_len(line@) == byte_count);
        let chars = chars_of(line);
        let spans = whitespace_spans(&chars);
        let ghost chunks = whitespace_chunks(line@);
        let ghost start_tokens = self@;
        let mut offset: usize = 0;
        let mut k: usize = 0;
        while k < spans.len()
            invariant
                k <= spans@.len(),
                chars@ == line@,
                byte_len(line@) <= usize::MAX,
                spans@.map_values(|p: (usize, usize)| crate::text::span_text(line@, p)) == chunks,
                chunks == whitespace_chunks(line@),
                spans_ordered(line@, spans@),
                k < spans@.len() ==> offset == chunks_scan(chunks.take(k as int), line_no).1,
                self@ == start_tokens + chunks_scan(chunks.take(k as int), line_no).0,
                k < spans@.len() ==> offset <= byte_len(line@.take(spans@[k as int].0 as int)),
                words_occur_in(chunks_scan(chunks.take(k as int), line_no).0, line@),
                ends_match_words(chunks_scan(chunks.take(k as int), line_no).0),
                tokens_lie_in(chunks_scan(chunks.take(k as int), line_no).0, kept_text(chunks.take(k as int)), 0),
            decreases spans@.len() - k,
        {
            let (a, b) = spans[k];
            let (ta, tb) = trim_span(&chars, a, b);
            assert(chunks.take(k + 1).drop_last() =~= chunks.take(k as int));
            assert(chunks.take(k + 1).last() == line@.subrange(a as int, b as int));
            proof {
                lemma_byte_len_split(line@, a as int, b as int);
                lemma_byte_len_split(line@, ta as int, tb as int);
                lemma_byte_len_subrange(line@.subrange(a as int, b as int), (ta - a) as int, (tb - a) as int);
                assert(line@.subrange(a as int, b as int).subrange((ta - a) as int, (tb - a) as int)
                    =~= line@.subrange(ta as int, tb as int));
            }
            proof {
                if k + 1 < spans@.len() {
                    let a2 = spans@[k + 1].0 as int;
                    assert(spans@[k as int].1 < spans@[k + 1].0);
                    lemma_byte_len_split(line@, b as int, a2);
                    assert(byte_len(line@.take(a2)) == byte_len(line@.take(b as int))
                        + byte_len(line@.subrange(b as int, a2)));
                }
            }
            if ta < tb {
                let chunk = line.substring_char(ta, tb);
                if !self.patterns.is_ignored(chunk) {
                    self.push_chunk_tokens(chunk, offset, line_no);
                    proof {
                        assert(line@.subrange(ta as int, tb as int) == chunk@);
                        lemma_words_occur_widen(
                            pieces_tokens(split_pieces(chunk@), offset as int, line_no),
                            chunk@,
                            line@,
                        );
                        lemma_words_occur_concat(
                            chunks_scan(chunks.take(k as int), line_no).0,
                            pieces_tokens(split_pieces(chunk@), offset as int, line_no),
                            line@,
                        );
                        lemma_ends_match_concat(
                            chunks_scan(chunks.take(k as int), line_no).0,
                            pieces_tokens(split_pieces(chunk@), offset as int, line_no),
                        );
                        crate::laws::law_offset_counts_kept_text(chunks.take(k as int), line_no);
                        lemma_tokens_lie_after(
                            chunks_scan(chunks.take(k as int), line_no).0,
                            pieces_tokens(split_pieces(chunk@), offset as int, line_no),
                            kept_text(chunks.take(k as int)),
                            chunk@,
                            offset as int,
                        );
                    }
                    // The offset after the last chunk of the line is never read.
                    if k + 1 < spans.len() {
                        offset = offset + chunk.len() + 1;
                    }
                }
            }
            k = k + 1;
        }
        assert(chunks.take(spans@.len() as int) =~= chunks);
    }

    /// Adds the tokens of `lines`, numbering them from 1.
    pub fn tokenize_lines(&mut self, lines: &Vec<String>)
        ensures
            final(self)@ == old(self)@ + lines_tokens(lines@.map_values(|l: String| l@)),
            ends_match_words(lines_tokens(lines@.map_values(|l: String| l@))),
            tokens_placed_in_lines(
                lines_tokens(lines@.map_values(|l: String| l@)),
                lines@.map_values(|l: String| l@),
            ),
    {
        let ghost views = lines@.map_values(|l: String| l@);
        let ghost start_tokens = self@;
        let n = lines.len();
        let mut k: usize = 0;
        assert(views.take(0) =~= Seq::<Seq<char>>::empty());
        while k < n
            invariant
                k <= n == lines@.len(),
                views == lines@.map_values(|l: String| l@),
                self@ == start_tokens + lines_tokens(views.take(k as int)),
                ends_match_words(lines_tokens(views.take(k as int))),
                tokens_placed_in_lines(lines_tokens(views.take(k as int)), views),
            decreases n - k,
        {
            assert(views.take(k + 1).drop_last() =~= views.take(k as int));
            assert(views.take(k + 1).last() == lines@[k as int]@);
            let ghost before = self@;
            self.tokenize_line(lines[k].as_str(), k + 1);
            assert(self@ =~= start_tokens + lines_tokens(views.take(k + 1)));
            proof {
                lemma_ends_match_concat(
                    lines_tokens(views.take(k as int)),
                    line_tokens(lines@[k as int]@, (k + 1) as usize),
                );
                let a = lines_tokens(views.take(k as int));
                let b = line_tokens(lines@[k as int]@, (k + 1) as usize);
                crate::laws::law_tokens_carry_line_no(lines@[k as int]@, (k + 1) as usize);
                assert(views[k as int] == lines@[k as int]@);
                assert(lines_tokens(views.take(k + 1)) == a + b);
                assert forall|i: int| 0 <= i < (a + b).len() implies {
                    &&& 1 <= (#[trigger] (a + b)[i]).line_no <= views.len()
                    &&& part_lies_at(
                        kept_text(whitespace_chunks(views[(a + b)[i].line_no - 1])),
                        (a + b)[i].start as int,
                        (a + b)[i].word,
                    )
                } by {
                    if i < a.len() {
                        assert((a + b)[i] == a[i]);
                    } else {
                        assert((a + b)[i] == b[i - a.len()]);
                        assert(b[i - a.len()].line_no == k + 1);
                        assert(part_lies_at(
                            kept_text(whitespace_chunks(lines@[k as int]@)),
                            b[i - a.len()].start - 0,
                            b[i - a.len()].word,
                        ));
                    }
                }
            }
            k = k + 1;
        }
        assert(views.take(n as int) =~= views);
    }
}

} // verus!
