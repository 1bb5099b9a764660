//! Properties of the tokenizer that hold for every input.

use vstd::prelude::*;
use crate::patterns::{
    char_index_at, ignore_sources, is_ignored_text, lemma_cut_between_parts, lemma_cut_between_shape,
    match_lies_in, part_lies_at, regex_find_all, regex_is_match, split_pieces, SPLIT_PATTERN,
    EMAIL_PATTERN, FILE_PATH_PATTERN, NUMBER_PATTERN, REGEX_PATTERN, URL_PATTERN, WORD_PATTERN,
};
use crate::text::{
    all_uppercase, case_pieces, case_pieces_from, char_is_uppercase, char_is_whitespace,
    cuts_before, is_edge_symbol, occurs_in, trim_end_symbols, trim_start_symbols, trim_symbols,
    whitespace_chunks, word_len, lemma_word_len_bound,
};
use crate::tokenizer::{
    all_on_line, chunk_kept, chunks_scan, found_tokens, kept_text, founds_tokens, join_from, joined_words, line_tokens,
    lines_tokens, no_single_chars, piece_tokens, pieces_tokens, symbols_only, word_between, TokenView,
};

verus! {

proof fn lemma_case_pieces_from(w: Seq<char>, start: int, i: int)
    requires
        0 <= start < w.len(),
        start <= i,
        start < i || i == 0,
        start > 0 ==> char_is_uppercase(w[start]),
    ensures
        case_pieces_from(w, start, i).len() >= 1,
        case_pieces_from(w, start, i).flatten() == w.subrange(start, w.len() as int),
        case_pieces_from(w, start, i)[0][0] == w[start],
        forall|k: int|
            0 <= k < case_pieces_from(w, start, i).len() ==> #[trigger] case_pieces_from(
                w,
                start,
                i,
            )[k].len() > 0,
        forall|k: int|
            1 <= k < case_pieces_from(w, start, i).len() ==> char_is_uppercase(
                #[trigger] case_pieces_from(w, start, i)[k][0],
            ),
        forall|k: int|
            0 <= k < case_pieces_from(w, start, i).len() - 1 ==> !all_uppercase(
                #[trigger] case_pieces_from(w, start, i)[k],
            ),
    decreases w.len() - i,
{
    let ps = case_pieces_from(w, start, i);
    if i >= w.len() {
        let p = w.subrange(start, w.len() as int);
        assert(ps =~= seq![p]);
        ps.lemma_flatten_one_element();
    } else if cuts_before(w, start, i) {
        lemma_case_pieces_from(w, i, i + 1);
        let rest = case_pieces_from(w, i, i + 1);
        let p = w.subrange(start, i);
        assert(ps =~= seq![p] + rest);
        assert(ps.drop_first() =~= rest);
        assert(ps.flatten() =~= p + rest.flatten());
        assert(p + w.subrange(i, w.len() as int) =~= w.subrange(start, w.len() as int));
        assert forall|k: int| 1 <= k < ps.len() implies char_is_uppercase(#[trigger] ps[k][0]) by {
            if k == 1 {
                assert(ps[1] == rest[0]);
            } else {
                assert(ps[k] == rest[k - 1]);
            }
        }
        assert forall|k: int| 0 <= k < ps.len() - 1 implies !all_uppercase(#[trigger] ps[k]) by {
            if k > 0 {
                assert(ps[k] == rest[k - 1]);
            }
        }
        assert forall|k: int| 0 <= k < ps.len() implies #[trigger] ps[k].len() > 0 by {
            if k > 0 {
                assert(ps[k] == rest[k - 1]);
            }
        }
    } else {
        lemma_case_pieces_from(w, start, i + 1);
    }
}

/// Cutting a word at its case changes loses and adds nothing: the pieces,
/// put back together, give the word.
pub proof fn law_case_pieces_rejoin(w: Seq<char>)
    ensures
        case_pieces(w).flatten() == w,
{
    if w.len() == 0 {
        let ps = case_pieces(w);
        assert(w.subrange(0, 0) =~= w);
        assert(ps =~= seq![w]);
        ps.lemma_flatten_one_element();
    } else {
        lemma_case_pieces_from(w, 0, 0);
        assert(w.subrange(0, w.len() as int) =~= w);
    }
}

/// The pieces of a nonempty word are nonempty; every piece after the first
/// begins with an uppercase character; and a piece made only of uppercase
/// characters can only be the last one, so runs of capitals stay together.
pub proof fn law_case_pieces_shape(w: Seq<char>)
    requires
        w.len() > 0,
    ensures
        forall|k: int| 0 <= k < case_pieces(w).len() ==> #[trigger] case_pieces(w)[k].len() > 0,
        forall|k: int|
            1 <= k < case_pieces(w).len() ==> char_is_uppercase(#[trigger] case_pieces(w)[k][0]),
        forall|k: int|
            0 <= k < case_pieces(w).len() - 1 ==> !all_uppercase(#[trigger] case_pieces(w)[k]),
{
    lemma_case_pieces_from(w, 0, 0);
}

proof fn lemma_no_cut_from(w: Seq<char>, start: int, i: int)
    requires
        0 <= start <= i,
        start == 0,
        forall|k: int| 1 <= k < w.len() ==> !char_is_uppercase(#[trigger] w[k]),
    ensures
        case_pieces_from(w, start, i) == seq![w],
    decreases w.len() - i,
{
    if i < w.len() {
        lemma_no_cut_from(w, start, i + 1);
    } else {
        assert(w.subrange(0, w.len() as int) =~= w);
    }
}

/// A word with no uppercase character after its first one is not cut.
pub proof fn law_case_pieces_lowercase_tail(w: Seq<char>)
    requires
        forall|k: int| 1 <= k < w.len() ==> !char_is_uppercase(#[trigger] w[k]),
    ensures
        case_pieces(w) == seq![w],
{
    lemma_no_cut_from(w, 0, 0);
}

proof fn lemma_all_upper_from(w: Seq<char>, i: int)
    requires
        0 <= i,
        all_uppercase(w),
    ensures
        case_pieces_from(w, 0, i) == seq![w],
    decreases w.len() - i,
{
    if i < w.len() {
        if i > 0 {
            assert(all_uppercase(w.subrange(0, i)));
        }
        lemma_all_upper_from(w, i + 1);
    } else {
        assert(w.subrange(0, w.len() as int) =~= w);
    }
}

/// A word made only of uppercase characters is not cut.
pub proof fn law_case_pieces_all_uppercase(w: Seq<char>)
    requires
        all_uppercase(w),
    ensures
        case_pieces(w) == seq![w],
{
    lemma_all_upper_from(w, 0);
}


proof fn lemma_trim_start_shape(s: Seq<char>) -> (a: int)
    ensures
        0 <= a <= s.len(),
        trim_start_symbols(s) == s.skip(a),
        forall|k: int| 0 <= k < a ==> is_edge_symbol(#[trigger] s[k]),
        a < s.len() ==> !is_edge_symbol(s[a]),
    decreases s.len(),
{
    if s.len() > 0 && is_edge_symbol(s[0]) {
        let a = lemma_trim_start_shape(s.drop_first());
        assert(s.drop_first().skip(a) =~= s.skip(a + 1));
        assert forall|k: int| 0 <= k < a + 1 implies is_edge_symbol(#[trigger] s[k]) by {
            if k > 0 {
                assert(s[k] == s.drop_first()[k - 1]);
            }
        }
        a + 1
    } else {
        assert(s.skip(0) =~= s);
        0
    }
}

proof fn lemma_trim_end_shape(s: Seq<char>) -> (b: int)
    ensures
        0 <= b <= s.len(),
        trim_end_symbols(s) == s.take(b),
        forall|k: int| b <= k < s.len() ==> is_edge_symbol(#[trigger] s[k]),
        b > 0 ==> !is_edge_symbol(s[b - 1]),
    decreases s.len(),
{
    if s.len() > 0 && is_edge_symbol(s.last()) {
        let b = lemma_trim_end_shape(s.drop_last());
        assert(s.drop_last().take(b) =~= s.take(b));
        assert forall|k: int| b <= k < s.len() implies is_edge_symbol(#[trigger] s[k]) by {
            if k < s.len() - 1 {
                assert(s[k] == s.drop_last()[k]);
            }
        }
        b
    } else {
        assert(s.take(s.len() as int) =~= s);
        s.len() as int
    }
}

/// Trimming a chunk keeps a contiguous part of it; what is cut away at either
/// end is made of edge symbols only; a nonempty result neither starts nor ends
/// with an edge symbol, and an empty result means the chunk held nothing else.
pub proof fn law_trim_symbols(s: Seq<char>)
    ensures
        occurs_in(trim_symbols(s), s),
        trim_symbols(s).len() > 0 ==> !is_edge_symbol(trim_symbols(s)[0]) && !is_edge_symbol(
            trim_symbols(s).last(),
        ),
        trim_symbols(s).len() == 0 ==> forall|k: int| 0 <= k < s.len() ==> is_edge_symbol(#[trigger] s[k]),
{
    let a = lemma_trim_start_shape(s);
    let rest = s.skip(a);
    let b = lemma_trim_end_shape(rest);
    let t = trim_symbols(s);
    assert(t == rest.take(b));
    assert(s.subrange(a, a + b) =~= t);
    if t.len() > 0 {
        assert(t[0] == s[a]);
        assert(t.last() == rest[b - 1]);
    } else {
        assert forall|k: int| 0 <= k < s.len() implies is_edge_symbol(#[trigger] s[k]) by {
            if k >= a {
                assert(s[k] == rest[k - a]);
            }
        }
    }
}

/// Trimming strips exactly the characters that are neither alphanumeric nor
/// an apostrophe: a nonempty trimmed chunk begins and ends with an
/// alphanumeric character or an apostrophe, and every character cut away
/// before or after it is neither.
pub proof fn law_trim_strips_non_alphanumerics_but_apostrophes(s: Seq<char>)
    ensures
        trim_symbols(s).len() > 0 ==> (crate::text::char_is_alphanumeric(trim_symbols(s)[0])
            || trim_symbols(s)[0] == '\'') && (crate::text::char_is_alphanumeric(trim_symbols(s).last())
            || trim_symbols(s).last() == '\''),
        exists|a: int, b: int|
            0 <= a <= b <= s.len() && #[trigger] s.subrange(a, b) == trim_symbols(s) && (forall|k: int|
                (0 <= k < a || b <= k < s.len()) ==> !crate::text::char_is_alphanumeric(#[trigger] s[k])
                    && s[k] != '\''),
{
    law_trim_symbols(s);
    law_trim_removes_only_edge_symbols(s);
    let (a, b) = choose|a: int, b: int|
        0 <= a <= b <= s.len() && #[trigger] s.subrange(a, b) == trim_symbols(s) && (forall|k: int|
            0 <= k < a ==> is_edge_symbol(#[trigger] s[k])) && (forall|k: int|
            b <= k < s.len() ==> is_edge_symbol(#[trigger] s[k]));
    assert forall|k: int| (0 <= k < a || b <= k < s.len()) implies !crate::text::char_is_alphanumeric(#[trigger] s[k])
        && s[k] != '\'' by {
        assert(is_edge_symbol(s[k]));
    }
    assert(s.subrange(a, b) == trim_symbols(s));
}

/// Trimming removes edge symbols only: the chunk is what is kept, with a run
/// of edge symbols before it and a run of edge symbols after it.
pub proof fn law_trim_removes_only_edge_symbols(s: Seq<char>)
    ensures
        exists|a: int, b: int|
            0 <= a <= b <= s.len() && #[trigger] s.subrange(a, b) == trim_symbols(s) && (forall|k: int|
                0 <= k < a ==> is_edge_symbol(#[trigger] s[k])) && (forall|k: int|
                b <= k < s.len() ==> is_edge_symbol(#[trigger] s[k])),
{
    let a = lemma_trim_start_shape(s);
    let rest = s.skip(a);
    let b = lemma_trim_end_shape(rest);
    let t = trim_symbols(s);
    assert(t == rest.take(b));
    assert(s.subrange(a, a + b) =~= t);
    assert forall|k: int| a + b <= k < s.len() implies is_edge_symbol(#[trigger] s[k]) by {
        assert(s[k] == rest[k - a]);
    }
}

/// Cutting a line at whitespace gives nonempty chunks that hold no whitespace
/// and are contiguous parts of the line.
pub proof fn law_whitespace_chunks(s: Seq<char>)
    ensures
        forall|k: int|
            0 <= k < whitespace_chunks(s).len() ==> {
                &&& #[trigger] whitespace_chunks(s)[k].len() > 0
                &&& occurs_in(whitespace_chunks(s)[k], s)
                &&& forall|j: int|
                    0 <= j < whitespace_chunks(s)[k].len() ==> !char_is_whitespace(
                        #[trigger] whitespace_chunks(s)[k][j],
                    )
            },
    decreases s.len(),
{
    let cs = whitespace_chunks(s);
    if s.len() == 0 {
    } else if char_is_whitespace(s[0]) {
        law_whitespace_chunks(s.drop_first());
        assert(s.subrange(1, s.len() as int) == s.drop_first());
        let rest = whitespace_chunks(s.drop_first());
        assert(cs == rest);
        assert forall|k: int| 0 <= k < cs.len() implies {
            &&& #[trigger] cs[k].len() > 0
            &&& occurs_in(cs[k], s)
            &&& forall|j: int| 0 <= j < cs[k].len() ==> !char_is_whitespace(#[trigger] cs[k][j])
        } by {
            assert(rest[k].len() > 0);
            crate::text::lemma_occurs_in_trans(cs[k], s.drop_first(), s);
        }
    } else {
        lemma_word_len_bound(s);
        let n = word_len(s) as int;
        law_whitespace_chunks(s.skip(n));
        lemma_word_run(s);
        let rest = whitespace_chunks(s.skip(n));
        assert(cs =~= seq![s.take(n)] + rest);
        assert forall|k: int| 0 <= k < cs.len() implies {
            &&& #[trigger] cs[k].len() > 0
            &&& occurs_in(cs[k], s)
            &&& forall|j: int| 0 <= j < cs[k].len() ==> !char_is_whitespace(#[trigger] cs[k][j])
        } by {
            if k == 0 {
                assert(s.subrange(0, n) == s.take(n));
            } else {
                assert(cs[k] == rest[k - 1]);
                assert(s.subrange(n, s.len() as int) == s.skip(n));
                crate::text::lemma_occurs_in_trans(cs[k], s.skip(n), s);
            }
        }
    }
}

proof fn lemma_word_run(s: Seq<char>)
    requires
        s.len() > 0,
        !char_is_whitespace(s[0]),
    ensures
        word_len(s) > 0,
        forall|j: int| 0 <= j < word_len(s) ==> !char_is_whitespace(#[trigger] s[j]),
    decreases s.len(),
{
    lemma_word_len_bound(s);
    if s.len() > 1 && !char_is_whitespace(s[1]) {
        lemma_word_run(s.drop_first());
        assert forall|j: int| 0 <= j < word_len(s) implies !char_is_whitespace(#[trigger] s[j]) by {
            if j > 0 {
                assert(s[j] == s.drop_first()[j - 1]);
            }
        }
    } else {
        if s.len() > 1 {
            assert(s.drop_first()[0] == s[1]);
        }
        assert(word_len(s.drop_first()) == 0);
        assert(word_len(s) == 1);
    }
}

/// Every token is on line `line_no` and none is a single character.
spec fn line_well_formed(tokens: Seq<TokenView>, line_no: usize) -> bool {
    all_on_line(tokens, line_no) && no_single_chars(tokens)
}

proof fn lemma_well_formed_concat(a: Seq<TokenView>, b: Seq<TokenView>, line_no: usize)
    requires
        line_well_formed(a, line_no),
        line_well_formed(b, line_no),
    ensures
        line_well_formed(a + b, line_no),
{
    assert forall|k: int| 0 <= k < (a + b).len() implies (#[trigger] (a + b)[k]).line_no == line_no
        && (a + b)[k].word.len() != 1 by {
        if k < a.len() {
            assert((a + b)[k] == a[k]);
        } else {
            assert((a + b)[k] == b[k - a.len()]);
        }
    }
}

proof fn lemma_founds_well_formed(ms: Seq<(usize, usize, Seq<char>)>, offset: int, line_no: usize)
    ensures
        line_well_formed(founds_tokens(ms, offset, line_no), line_no),
    decreases ms.len(),
{
    if ms.len() > 0 {
        lemma_founds_well_formed(ms.drop_last(), offset, line_no);
        crate::tokenizer::lemma_found_tokens_facts(ms.last(), offset, line_no);
        lemma_well_formed_concat(
            founds_tokens(ms.drop_last(), offset, line_no),
            found_tokens(ms.last(), offset, line_no),
            line_no,
        );
    }
}

proof fn lemma_pieces_well_formed(pieces: Seq<(usize, Seq<char>)>, offset: int, line_no: usize)
    ensures
        line_well_formed(pieces_tokens(pieces, offset, line_no), line_no),
    decreases pieces.len(),
{
    if pieces.len() > 0 {
        lemma_pieces_well_formed(pieces.drop_last(), offset, line_no);
        let (at, p) = pieces.last();
        let ms = crate::tokenizer::joined_words(p, regex_find_all(WORD_PATTERN@, p));
        lemma_founds_well_formed(ms, offset + at, line_no);
        let added: Seq<TokenView> = if p.len() == 0 {
            seq![]
        } else {
            founds_tokens(ms, offset + at, line_no)
        };
        lemma_well_formed_concat(pieces_tokens(pieces.drop_last(), offset, line_no), added, line_no);
    }
}

proof fn lemma_scan_well_formed(chunks: Seq<Seq<char>>, line_no: usize)
    ensures
        line_well_formed(chunks_scan(chunks, line_no).0, line_no),
    decreases chunks.len(),
{
    if chunks.len() > 0 {
        lemma_scan_well_formed(chunks.drop_last(), line_no);
        let (tokens, offset) = chunks_scan(chunks.drop_last(), line_no);
        let t = trim_symbols(chunks.last());
        lemma_pieces_well_formed(split_pieces(t), offset, line_no);
        lemma_well_formed_concat(tokens, pieces_tokens(split_pieces(t), offset, line_no), line_no);
    }
}

/// Every token of a line carries that line's number.
pub proof fn law_tokens_carry_line_no(line: Seq<char>, line_no: usize)
    ensures
        all_on_line(line_tokens(line, line_no), line_no),
{
    lemma_scan_well_formed(whitespace_chunks(line), line_no);
}

/// Single-letter tokens are discarded: no token of a line is a single character.
pub proof fn law_no_single_letter_tokens(line: Seq<char>, line_no: usize)
    ensures
        no_single_chars(line_tokens(line, line_no)),
{
    lemma_scan_well_formed(whitespace_chunks(line), line_no);
}

/// A chunk that is empty once trimmed, or in which an ignore pattern matches
/// (a URL, a file path, a number, a regular expression, an e-mail address),
/// adds no token and leaves the offset of the following chunks unchanged.
pub proof fn law_ignored_chunk_adds_nothing(chunks: Seq<Seq<char>>, chunk: Seq<char>, line_no: usize)
    requires
        trim_symbols(chunk).len() == 0 || is_ignored_text(trim_symbols(chunk)),
    ensures
        chunks_scan(chunks.push(chunk), line_no) == chunks_scan(chunks, line_no),
{
    assert(chunks.push(chunk).drop_last() =~= chunks);
}

/// A chunk in which a standalone number is found is ignored.
pub proof fn law_numbers_are_ignored(chunks: Seq<Seq<char>>, chunk: Seq<char>, line_no: usize)
    requires
        regex_is_match(NUMBER_PATTERN@, trim_symbols(chunk)),
    ensures
        chunks_scan(chunks.push(chunk), line_no) == chunks_scan(chunks, line_no),
{
    assert(ignore_sources()[2] == NUMBER_PATTERN@);
    assert(is_ignored_text(trim_symbols(chunk)));
    law_ignored_chunk_adds_nothing(chunks, chunk, line_no);
}

/// The tokens of several lines are numbered from 1 to the number of lines,
/// in order, and none is a single character.
pub proof fn law_lines_tokens_numbered(lines: Seq<Seq<char>>)
    requires
        lines.len() <= usize::MAX,
    ensures
        forall|k: int|
            0 <= k < lines_tokens(lines).len() ==> 1 <= (#[trigger] lines_tokens(lines)[k]).line_no
                <= lines.len(),
        forall|i: int, j: int|
            0 <= i < j < lines_tokens(lines).len() ==> (#[trigger] lines_tokens(lines)[i]).line_no
                <= (#[trigger] lines_tokens(lines)[j]).line_no,
        no_single_chars(lines_tokens(lines)),
    decreases lines.len(),
{
    if lines.len() > 0 {
        let n = lines.len() as usize;
        let earlier = lines_tokens(lines.drop_last());
        let last = line_tokens(lines.last(), n);
        law_lines_tokens_numbered(lines.drop_last());
        lemma_scan_well_formed(whitespace_chunks(lines.last()), n);
        let all = lines_tokens(lines);
        assert(all == earlier + last);
        assert forall|k: int| 0 <= k < all.len() implies 1 <= (#[trigger] all[k]).line_no <= lines.len()
            && all[k].word.len() != 1 by {
            if k < earlier.len() {
                assert(all[k] == earlier[k]);
            } else {
                assert(all[k] == last[k - earlier.len()]);
            }
        }
        assert forall|i: int, j: int| 0 <= i < j < all.len() implies (#[trigger] all[i]).line_no
            <= (#[trigger] all[j]).line_no by {
            if j < earlier.len() {
                assert(all[i] == earlier[i]);
                assert(all[j] == earlier[j]);
            } else if i < earlier.len() {
                assert(all[i] == earlier[i]);
                assert(all[j] == last[j - earlier.len()]);
            } else {
                assert(all[i] == last[i - earlier.len()]);
                assert(all[j] == last[j - earlier.len()]);
            }
        }
    }
}

/// A chunk is kept whenever its trimmed text is nonempty and no ignore
/// pattern matches anywhere in it, whatever its length: its pieces' tokens
/// follow those of the chunks before it, at the offset they reached, and the
/// offset then advances by the trimmed text's bytes plus one separator byte.
pub proof fn law_kept_chunk_adds_its_words(chunks: Seq<Seq<char>>, chunk: Seq<char>, line_no: usize)
    requires
        trim_symbols(chunk).len() > 0,
        forall|k: int| 0 <= k < 5 ==> !regex_is_match(#[trigger] ignore_sources()[k], trim_symbols(chunk)),
    ensures
        ({
            let t = trim_symbols(chunk);
            let (before, offset) = chunks_scan(chunks, line_no);
            chunks_scan(chunks.push(chunk), line_no) == (
                before + pieces_tokens(split_pieces(t), offset, line_no),
                offset + crate::text::byte_len(t) + 1,
            )
        }),
{
    assert(chunks.push(chunk).drop_last() =~= chunks);
    assert(chunks.push(chunk).last() == chunk);
    assert(!is_ignored_text(trim_symbols(chunk)));
}

/// A chunk in which one of the ignore patterns (URL, file path, number,
/// regular expression, e-mail address) matches anywhere adds no token and
/// leaves the offset unchanged.
pub proof fn law_each_ignore_pattern_ignores(chunks: Seq<Seq<char>>, chunk: Seq<char>, line_no: usize, k: int)
    requires
        0 <= k < 5,
        regex_is_match(ignore_sources()[k], trim_symbols(chunk)),
    ensures
        chunks_scan(chunks.push(chunk), line_no) == chunks_scan(chunks, line_no),
{
    assert(is_ignored_text(trim_symbols(chunk)));
    law_ignored_chunk_adds_nothing(chunks, chunk, line_no);
}

/// A chunk in which the URL pattern matches anywhere (not only at its start)
/// is ignored; so are chunks holding a file path, a regular expression or an
/// e-mail address.
pub proof fn law_urls_paths_regexes_emails_are_ignored(
    chunks: Seq<Seq<char>>,
    chunk: Seq<char>,
    line_no: usize,
)
    requires
        regex_is_match(URL_PATTERN@, trim_symbols(chunk)) || regex_is_match(
            FILE_PATH_PATTERN@,
            trim_symbols(chunk),
        ) || regex_is_match(REGEX_PATTERN@, trim_symbols(chunk)) || regex_is_match(
            EMAIL_PATTERN@,
            trim_symbols(chunk),
        ),
    ensures
        chunks_scan(chunks.push(chunk), line_no) == chunks_scan(chunks, line_no),
{
    let t = trim_symbols(chunk);
    if regex_is_match(URL_PATTERN@, t) {
        law_each_ignore_pattern_ignores(chunks, chunk, line_no, 0);
    } else if regex_is_match(FILE_PATH_PATTERN@, t) {
        law_each_ignore_pattern_ignores(chunks, chunk, line_no, 1);
    } else if regex_is_match(REGEX_PATTERN@, t) {
        law_each_ignore_pattern_ignores(chunks, chunk, line_no, 3);
    } else {
        law_each_ignore_pattern_ignores(chunks, chunk, line_no, 4);
    }
}

/// No character of `s` from byte offset `end` up to byte offset `next_start` is alphanumeric.
spec fn gap_is_symbols(s: Seq<char>, end: usize, next_start: usize) -> bool {
    forall|t: int|
        char_index_at(s, end as int) <= t < char_index_at(s, next_start as int)
            ==> !crate::text::char_is_alphanumeric(#[trigger] s[t])
}

proof fn lemma_join_from_all_symbols(
    s: Seq<char>,
    cur: (usize, usize),
    rest: Seq<(usize, usize, Seq<char>)>,
)
    requires
        rest.len() > 0 ==> gap_is_symbols(s, cur.1, rest[0].0),
        forall|i: int| 0 <= i < rest.len() - 1 ==> gap_is_symbols(s, (#[trigger] rest[i]).1, rest[i + 1].0),
    ensures
        join_from(s, cur, rest) == seq![
            (
                cur.0,
                if rest.len() == 0 { cur.1 } else { rest.last().1 },
                s.subrange(
                    char_index_at(s, cur.0 as int),
                    char_index_at(s, (if rest.len() == 0 { cur.1 } else { rest.last().1 }) as int),
                ),
            ),
        ],
    decreases rest.len(),
{
    if rest.len() > 0 {
        assert(symbols_only(s, char_index_at(s, cur.1 as int), char_index_at(s, rest[0].0 as int)));
        let tail = rest.drop_first();
        assert forall|i: int| 0 <= i < tail.len() - 1 implies gap_is_symbols(
            s,
            (#[trigger] tail[i]).1,
            tail[i + 1].0,
        ) by {
            assert(tail[i] == rest[i + 1]);
            assert(tail[i + 1] == rest[i + 2]);
        }
        if tail.len() > 0 {
            assert(tail[0] == rest[1]);
            assert(gap_is_symbols(s, rest[0].1, rest[1].0));
            assert(tail.last() == rest.last());
        }
        lemma_join_from_all_symbols(s, (cur.0, rest[0].1), tail);
    }
}

/// Word matches that only symbols separate form one word, however many of
/// them follow one another: the word runs from the first match's start to the
/// last match's end and holds the text of the piece between them.
pub proof fn law_symbol_separated_matches_form_one_word(s: Seq<char>, ms: Seq<(usize, usize, Seq<char>)>)
    requires
        ms.len() > 0,
        forall|i: int|
            0 <= i < ms.len() - 1 ==> forall|t: int|
                char_index_at(s, (#[trigger] ms[i]).1 as int) <= t < char_index_at(s, ms[i + 1].0 as int)
                    ==> !crate::text::char_is_alphanumeric(#[trigger] s[t]),
    ensures
        joined_words(s, ms) == seq![
            (
                ms[0].0,
                ms.last().1,
                s.subrange(char_index_at(s, ms[0].0 as int), char_index_at(s, ms.last().1 as int)),
            ),
        ],
{
    let rest = ms.drop_first();
    assert forall|i: int| 0 <= i < rest.len() - 1 implies gap_is_symbols(s, (#[trigger] rest[i]).1, rest[i + 1].0) by {
        assert(rest[i] == ms[i + 1]);
        assert(rest[i + 1] == ms[i + 2]);
        assert(ms[i + 1] == rest[i]);
    }
    if rest.len() > 0 {
        assert(rest[0] == ms[1]);
        assert(gap_is_symbols(s, ms[0].1, ms[1].0));
        assert(rest.last() == ms.last());
    }
    lemma_join_from_all_symbols(s, (ms[0].0, ms[0].1), rest);
}

/// Between byte offsets `end` and `next_start` of `s` stands an alphanumeric character.
spec fn gap_has_alphanumeric(s: Seq<char>, end: usize, next_start: usize) -> bool {
    exists|t: int|
        char_index_at(s, end as int) <= t < char_index_at(s, next_start as int)
            && crate::text::char_is_alphanumeric(#[trigger] s[t])
}

proof fn lemma_join_from_separated(
    s: Seq<char>,
    cur: (usize, usize),
    rest: Seq<(usize, usize, Seq<char>)>,
)
    ensures
        ({
            let r = join_from(s, cur, rest);
            &&& r.len() > 0
            &&& r[0].0 == cur.0
            &&& r.last().1 == (if rest.len() == 0 { cur.1 } else { rest.last().1 })
            &&& forall|i: int| 0 <= i < r.len() ==> #[trigger] r[i] == word_between(s, r[i].0, r[i].1)
            &&& forall|i: int| 0 <= i < r.len() - 1 ==> gap_has_alphanumeric(s, (#[trigger] r[i]).1, r[i + 1].0)
        }),
    decreases rest.len(),
{
    let r = join_from(s, cur, rest);
    if rest.len() > 0 {
        let tail = rest.drop_first();
        if tail.len() > 0 {
            assert(tail.last() == rest.last());
        }
        if symbols_only(s, char_index_at(s, cur.1 as int), char_index_at(s, rest[0].0 as int)) {
            lemma_join_from_separated(s, (cur.0, rest[0].1), tail);
        } else {
            lemma_join_from_separated(s, (rest[0].0, rest[0].1), tail);
            let j = join_from(s, (rest[0].0, rest[0].1), tail);
            assert(r =~= seq![word_between(s, cur.0, cur.1)] + j);
            assert(r.last() == j.last());
            assert forall|i: int| 0 <= i < r.len() implies #[trigger] r[i] == word_between(s, r[i].0, r[i].1) by {
                if i > 0 {
                    assert(r[i] == j[i - 1]);
                }
            }
            assert forall|i: int| 0 <= i < r.len() - 1 implies gap_has_alphanumeric(s, (#[trigger] r[i]).1, r[i + 1].0) by {
                if i > 0 {
                    assert(r[i] == j[i - 1]);
                    assert(r[i + 1] == j[i]);
                } else {
                    assert(r[1] == j[0]);
                    let t = choose|t: int|
                        char_index_at(s, cur.1 as int) <= t < char_index_at(s, rest[0].0 as int)
                            && crate::text::char_is_alphanumeric(#[trigger] s[t]);
                    assert(crate::text::char_is_alphanumeric(s[t]));
                }
            }
        }
    }
}

/// Words are joined only across symbols: the words made from a piece's
/// matches run from the first match's start to the last match's end, each is
/// the text of the piece between its offsets, and between two consecutive
/// words stands at least one alphanumeric character.
pub proof fn law_joined_words_split_only_at_alphanumerics(s: Seq<char>, ms: Seq<(usize, usize, Seq<char>)>)
    requires
        ms.len() > 0,
    ensures
        ({
            let r = joined_words(s, ms);
            &&& r.len() > 0
            &&& r[0].0 == ms[0].0
            &&& r.last().1 == ms.last().1
            &&& forall|i: int|
                0 <= i < r.len() ==> #[trigger] r[i].2 == s.subrange(
                    char_index_at(s, r[i].0 as int),
                    char_index_at(s, r[i].1 as int),
                )
            &&& forall|i: int|
                0 <= i < r.len() - 1 ==> exists|t: int|
                    char_index_at(s, (#[trigger] r[i]).1 as int) <= t < char_index_at(s, r[i + 1].0 as int)
                        && crate::text::char_is_alphanumeric(#[trigger] s[t])
        }),
{
    let rest = ms.drop_first();
    lemma_join_from_separated(s, (ms[0].0, ms[0].1), rest);
    if rest.len() > 0 {
        assert(rest.last() == ms.last());
    }
    let r = joined_words(s, ms);
    assert forall|i: int| 0 <= i < r.len() implies #[trigger] r[i].2 == s.subrange(
        char_index_at(s, r[i].0 as int),
        char_index_at(s, r[i].1 as int),
    ) by {
        assert(r[i] == word_between(s, r[i].0, r[i].1));
    }
    assert forall|i: int| 0 <= i < r.len() - 1 implies exists|t: int|
        char_index_at(s, (#[trigger] r[i]).1 as int) <= t < char_index_at(s, r[i + 1].0 as int)
            && crate::text::char_is_alphanumeric(#[trigger] s[t]) by {
        assert(gap_has_alphanumeric(s, r[i].1, r[i + 1].0));
    }
}

proof fn lemma_filter_keeps_all(s: Seq<char>)
    requires
        forall|j: int| 0 <= j < s.len() ==> !char_is_whitespace(#[trigger] s[j]),
    ensures
        s.filter(|c: char| !char_is_whitespace(c)) == s,
    decreases s.len(),
{
    reveal(Seq::filter);
    if s.len() > 0 {
        let d = s.drop_last();
        assert forall|j: int| 0 <= j < d.len() implies !char_is_whitespace(#[trigger] d[j]) by {
            assert(d[j] == s[j]);
        }
        lemma_filter_keeps_all(d);
        assert(!char_is_whitespace(s[s.len() - 1]));
        assert(d.push(s.last()) =~= s);
    }
}

/// Cutting a line at whitespace loses no other character: the chunks, put
/// together, are the line without its whitespace.
pub proof fn law_whitespace_chunks_cover(s: Seq<char>)
    ensures
        whitespace_chunks(s).flatten() == s.filter(|c: char| !char_is_whitespace(c)),
    decreases s.len(),
{
    let p = |c: char| !char_is_whitespace(c);
    let cs = whitespace_chunks(s);
    if s.len() == 0 {
        reveal(Seq::filter);
        assert(cs =~= Seq::<Seq<char>>::empty());
        assert(s.filter(p) =~= s);
    } else {
        assert(s =~= seq![s[0]] + s.drop_first());
        s.drop_first().lemma_filter_prepend(s[0], p);
        if char_is_whitespace(s[0]) {
            law_whitespace_chunks_cover(s.drop_first());
        } else {
            lemma_word_len_bound(s);
            lemma_word_run(s);
            let n = word_len(s) as int;
            law_whitespace_chunks_cover(s.skip(n));
            let rest = whitespace_chunks(s.skip(n));
            assert(cs =~= seq![s.take(n)] + rest);
            assert(cs.first() == s.take(n));
            assert(cs.drop_first() =~= rest);
            assert(s =~= s.take(n) + s.skip(n));
            Seq::filter_distributes_over_add(s.take(n), s.skip(n), p);
            assert forall|j: int| 0 <= j < s.take(n).len() implies !char_is_whitespace(#[trigger] s.take(n)[j]) by {
                assert(s.take(n)[j] == s[j]);
            }
            lemma_filter_keeps_all(s.take(n));
        }
    }
}

/// `chunk` is a run of `s` bounded on each side by whitespace or by an end of `s`.
pub open spec fn bounded_run(s: Seq<char>, chunk: Seq<char>) -> bool {
    exists|a: int, b: int|
        0 <= a <= b <= s.len() && #[trigger] s.subrange(a, b) == chunk && (a == 0
            || char_is_whitespace(s[a - 1])) && (b == s.len() || char_is_whitespace(s[b]))
}

proof fn lemma_word_end(s: Seq<char>)
    ensures
        word_len(s) < s.len() ==> char_is_whitespace(s[word_len(s) as int]),
    decreases s.len(),
{
    if s.len() > 0 && !char_is_whitespace(s[0]) {
        lemma_word_end(s.drop_first());
        lemma_word_len_bound(s.drop_first());
        if word_len(s) < s.len() {
            assert(s[word_len(s) as int] == s.drop_first()[word_len(s.drop_first()) as int]);
        }
    }
}

/// Cutting a line at whitespace cuts it only at whitespace: each chunk is a
/// whole run, with whitespace or an end of the line on either side of it.
pub proof fn law_whitespace_chunks_are_whole_runs(s: Seq<char>)
    ensures
        forall|k: int| 0 <= k < whitespace_chunks(s).len() ==> bounded_run(s, #[trigger] whitespace_chunks(s)[k]),
    decreases s.len(),
{
    let cs = whitespace_chunks(s);
    if s.len() == 0 {
    } else if char_is_whitespace(s[0]) {
        let d = s.drop_first();
        law_whitespace_chunks_are_whole_runs(d);
        assert forall|k: int| 0 <= k < cs.len() implies bounded_run(s, #[trigger] cs[k]) by {
            assert(cs == whitespace_chunks(d));
            assert(bounded_run(d, whitespace_chunks(d)[k]));
            let (a, b) = choose|a: int, b: int|
                0 <= a <= b <= d.len() && #[trigger] d.subrange(a, b) == cs[k] && (a == 0
                    || char_is_whitespace(d[a - 1])) && (b == d.len() || char_is_whitespace(d[b]));
            assert(s.subrange(a + 1, b + 1) =~= d.subrange(a, b));
            if a > 0 {
                assert(s[a] == d[a - 1]);
            }
            if b < d.len() {
                assert(s[b + 1] == d[b]);
            }
        }
    } else {
        lemma_word_len_bound(s);
        lemma_word_run(s);
        lemma_word_end(s);
        let n = word_len(s) as int;
        let t = s.skip(n);
        law_whitespace_chunks_are_whole_runs(t);
        law_whitespace_chunks(t);
        let rest = whitespace_chunks(t);
        assert(cs =~= seq![s.take(n)] + rest);
        assert forall|k: int| 0 <= k < cs.len() implies bounded_run(s, #[trigger] cs[k]) by {
            if k == 0 {
                assert(s.subrange(0, n) =~= s.take(n));
            } else {
                assert(cs[k] == rest[k - 1]);
                assert(bounded_run(t, rest[k - 1]));
                let (a, b) = choose|a: int, b: int|
                    0 <= a <= b <= t.len() && #[trigger] t.subrange(a, b) == rest[k - 1] && (a == 0
                        || char_is_whitespace(t[a - 1])) && (b == t.len() || char_is_whitespace(t[b]));
                assert(s.subrange(a + n, b + n) =~= t.subrange(a, b));
                assert(rest[k - 1].len() > 0);
                assert(!char_is_whitespace(rest[k - 1][0]));
                assert(rest[k - 1][0] == t[a]);
                assert(t[a] == s[a + n]);
                if a == 0 {
                    assert(false);
                }
                assert(s[a + n - 1] == t[a - 1]);
                if b < t.len() {
                    assert(s[b + n] == t[b]);
                }
            }
        }
    }
}

/// The offset that follows a sequence of chunks is the number of bytes of
/// its kept chunks, each trimmed and followed by one separator byte.
pub proof fn law_offset_counts_kept_text(chunks: Seq<Seq<char>>, line_no: usize)
    ensures
        crate::text::byte_len(kept_text(chunks)) == chunks_scan(chunks, line_no).1,
    decreases chunks.len(),
{
    if chunks.len() > 0 {
        let init = chunks.drop_last();
        law_offset_counts_kept_text(init, line_no);
        let t = trim_symbols(chunks.last());
        if chunk_kept(t) {
            let k = kept_text(init);
            crate::text::lemma_encode_concat(k + t, seq![' ']);
            crate::text::lemma_encode_concat(k, t);
            assert(crate::text::byte_len(seq![' ']) == 1) by {
                assert(seq![' '].drop_first() =~= Seq::<char>::empty());
                assert(vstd::utf8::encode_utf8(Seq::<char>::empty()) =~= Seq::<u8>::empty());
                assert(seq![' '][0] == ' ');
                assert(vstd::utf8::encode_utf8(seq![' ']) =~= vstd::utf8::encode_scalar(' ' as u32));
            }
        }
    }
}

/// Joined words are cut exactly at the separator matches (`_`, `-`, space,
/// em dash): for separator matches that lie in the text in order, there is
/// one piece more than separators; the first piece starts at byte 0, each
/// following piece where a separator ends; each piece but the last ends where
/// the next separator starts, the last at the end of the text; and each piece
/// is the text found at its offset.
pub proof fn law_split_pieces_between_separators(s: Seq<char>)
    requires
        forall|k: int|
            0 <= k < regex_find_all(SPLIT_PATTERN@, s).len() ==> match_lies_in(
                #[trigger] regex_find_all(SPLIT_PATTERN@, s)[k],
                s,
            ),
        forall|k: int|
            0 <= k < regex_find_all(SPLIT_PATTERN@, s).len() - 1 ==> #[trigger] regex_find_all(
                SPLIT_PATTERN@,
                s,
            )[k].1 <= regex_find_all(SPLIT_PATTERN@, s)[k + 1].0,
    ensures
        ({
            let ps = split_pieces(s);
            let ms = regex_find_all(SPLIT_PATTERN@, s);
            &&& ps.len() == ms.len() + 1
            &&& ps[0].0 == 0
            &&& forall|k: int| 1 <= k <= ms.len() ==> #[trigger] ps[k].0 == ms[k - 1].1
            &&& forall|k: int|
                0 <= k < ms.len() ==> #[trigger] ps[k].0 + crate::text::byte_len(ps[k].1) == ms[k].0
            &&& ps[ms.len() as int].0 + crate::text::byte_len(ps[ms.len() as int].1)
                == crate::text::byte_len(s)
            &&& forall|k: int| 0 <= k < ps.len() ==> part_lies_at(s, (#[trigger] ps[k]).0 as int, ps[k].1)
        }),
{
    let ms = regex_find_all(SPLIT_PATTERN@, s);
    assert(s.take(0) =~= Seq::<char>::empty());
    assert(crate::text::byte_len(Seq::<char>::empty()) == 0) by {
        assert(vstd::utf8::encode_utf8(Seq::<char>::empty()) =~= Seq::<u8>::empty());
    }
    lemma_cut_between_shape(s, ms, 0);
    lemma_cut_between_parts(s, ms, 0, 0);
}

proof fn lemma_piece_tokens_words(pieces: Seq<Seq<char>>, start: int, line_no: usize)
    ensures
        piece_tokens(pieces, start, line_no).map_values(|t: TokenView| t.word) == pieces.filter(
            |p: Seq<char>| p.len() != 1,
        ),
    decreases pieces.len(),
{
    let f = |p: Seq<char>| p.len() != 1;
    if pieces.len() == 0 {
        reveal(Seq::filter);
        assert(piece_tokens(pieces, start, line_no).map_values(|t: TokenView| t.word) =~= Seq::<Seq<char>>::empty());
        assert(pieces.filter(f) =~= Seq::<Seq<char>>::empty());
    } else {
        let p = pieces[0];
        let rest = pieces.drop_first();
        lemma_piece_tokens_words(rest, start + crate::text::byte_len(p), line_no);
        assert(pieces =~= seq![p] + rest);
        rest.lemma_filter_prepend(p, f);
        let there = piece_tokens(rest, start + crate::text::byte_len(p), line_no);
        let here: Seq<TokenView> = if p.len() == 1 {
            seq![]
        } else {
            seq![
                TokenView {
                    word: p,
                    start: start as usize,
                    end: crate::tokenizer::last_byte(start + crate::text::byte_len(p)),
                    line_no,
                },
            ]
        };
        assert(piece_tokens(pieces, start, line_no) == here + there);
        assert((here + there).map_values(|t: TokenView| t.word) =~= here.map_values(|t: TokenView| t.word)
            + there.map_values(|t: TokenView| t.word));
        assert(here.map_values(|t: TokenView| t.word) =~= (if f(p) { seq![p] } else { Seq::empty() }));
    }
}

/// The tokens of a word match are its case pieces, in order, without those
/// of a single character: every longer piece gives a token.
pub proof fn law_match_tokens_are_its_longer_pieces(m: (usize, usize, Seq<char>), offset: int, line_no: usize)
    ensures
        found_tokens(m, offset, line_no).map_values(|t: TokenView| t.word) == case_pieces(m.2).filter(
            |p: Seq<char>| p.len() != 1,
        ),
{
    lemma_piece_tokens_words(case_pieces(m.2), offset + m.0, line_no);
}

/// Every nonempty piece of a split chunk adds the tokens of all its joined
/// words, in order, whatever its length, and an empty piece adds none; each
/// joined word adds the tokens of its case pieces.
pub proof fn law_each_piece_adds_its_words(
    pieces: Seq<(usize, Seq<char>)>,
    at: usize,
    piece: Seq<char>,
    offset: int,
    line_no: usize,
)
    ensures
        piece.len() > 0 ==> pieces_tokens(pieces.push((at, piece)), offset, line_no) == pieces_tokens(
            pieces,
            offset,
            line_no,
        ) + founds_tokens(joined_words(piece, regex_find_all(WORD_PATTERN@, piece)), offset + at, line_no),
        piece.len() == 0 ==> pieces_tokens(pieces.push((at, piece)), offset, line_no) == pieces_tokens(
            pieces,
            offset,
            line_no,
        ),
        forall|ms: Seq<(usize, usize, Seq<char>)>, m: (usize, usize, Seq<char>)|
            #[trigger] founds_tokens(ms.push(m), offset, line_no) == founds_tokens(ms, offset, line_no)
                + found_tokens(m, offset, line_no),
{
    assert(pieces.push((at, piece)).drop_last() =~= pieces);
    assert forall|ms: Seq<(usize, usize, Seq<char>)>, m: (usize, usize, Seq<char>)|
        #[trigger] founds_tokens(ms.push(m), offset, line_no) == founds_tokens(ms, offset, line_no)
            + found_tokens(m, offset, line_no) by {
        assert(ms.push(m).drop_last() =~= ms);
    }
}

/// A piece could be cut before its `j`-th character.
pub open spec fn could_cut(p: Seq<char>, j: int) -> bool {
    0 < j < p.len() && char_is_uppercase(p[j]) && !all_uppercase(p.take(j))
}

proof fn lemma_pieces_from_maximal(w: Seq<char>, start: int, i: int)
    requires
        0 <= start <= i <= w.len(),
        forall|j: int| start < j < i ==> !cuts_before(w, start, j),
    ensures
        forall|k: int, j: int|
            0 <= k < case_pieces_from(w, start, i).len() ==> !#[trigger] could_cut(
                case_pieces_from(w, start, i)[k],
                j,
            ),
    decreases w.len() - i,
{
    let ps = case_pieces_from(w, start, i);
    if i >= w.len() {
        let p = w.subrange(start, w.len() as int);
        assert(ps =~= seq![p]);
        assert forall|k: int, j: int| 0 <= k < ps.len() implies !#[trigger] could_cut(ps[k], j) by {
            if 0 < j < p.len() {
                assert(p[j] == w[start + j]);
                assert(p.take(j) =~= w.subrange(start, start + j));
                assert(!cuts_before(w, start, start + j));
            }
        }
    } else if cuts_before(w, start, i) {
        lemma_pieces_from_maximal(w, i, i + 1);
        let rest = case_pieces_from(w, i, i + 1);
        let p = w.subrange(start, i);
        assert(ps =~= seq![p] + rest);
        assert forall|k: int, j: int| 0 <= k < ps.len() implies !#[trigger] could_cut(ps[k], j) by {
            if k == 0 {
                if 0 < j < p.len() {
                    assert(p[j] == w[start + j]);
                    assert(p.take(j) =~= w.subrange(start, start + j));
                    assert(!cuts_before(w, start, start + j));
                }
            } else {
                assert(ps[k] == rest[k - 1]);
            }
        }
    } else {
        lemma_pieces_from_maximal(w, start, i + 1);
        assert(ps == case_pieces_from(w, start, i + 1));
    }
}

/// A word is cut at every case change and nowhere else: no piece could be
/// cut further (no piece holds, after its first character, an uppercase
/// character preceded within the piece by a character that is not uppercase),
/// while every cut stands before an uppercase character that follows a
/// piece holding a non-uppercase character.
pub proof fn law_case_pieces_cut_at_every_change(w: Seq<char>)
    ensures
        forall|k: int, j: int| 0 <= k < case_pieces(w).len() ==> !#[trigger] could_cut(case_pieces(w)[k], j),
{
    lemma_pieces_from_maximal(w, 0, 0);
}

} // verus!
