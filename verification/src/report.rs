//! Turning search results into a report: each reported line is split at
//! the occurrences of the query, so that a display layer can highlight
//! the matched pieces, and a result path can be shortened relative to
//! the directory the search was started from.
use vstd::prelude::*;
use vstd::string::StrSliceExecFns;

use crate::Config;
use crate::search::as_ints;
use crate::search::ci_hit_lines;
use crate::search::hit_lines;
use crate::search::lines_of;
use crate::search::lower_of;
use crate::search::lowercase;
use crate::search::match_positions;
use crate::search::match_positions_from;
use crate::search::search;
use crate::search::search_case_insensitive;

verus! {

broadcast use vstd::seq::group_seq_axioms;

/// One piece of a reported line: a run of text, marked when it is an
/// occurrence of the query.
#[derive(Clone, Copy, PartialEq, Eq, Debug)]
pub struct Span<'a> {
    /// The piece's text.
    pub text: &'a str,
    /// Whether this piece is an occurrence of the query.
    pub matched: bool,
}

/// Whether `indices` can split a line of `line.len()` characters into
/// pieces of `qlen` characters each: every occurrence lies within the
/// line, and successive occurrences do not overlap.
pub open spec fn valid_indices(line: Seq<char>, indices: Seq<int>, qlen: int) -> bool {
    &&& forall|k: int|
        #![trigger indices[k]]
        0 <= k < indices.len() ==> 0 <= indices[k] && indices[k] + qlen <= line.len()
    &&& forall|k: int|
        #![trigger indices[k]]
        0 < k < indices.len() ==> indices[k - 1] + qlen <= indices[k]
}

/// The pieces of `line` from position `start` on, split at the
/// occurrences listed in `indices` from index `k` on: the text before
/// each occurrence when there is any, the occurrence itself, and after
/// the last occurrence the rest of the line, kept even when empty.
pub open spec fn chunks_from(
    line: Seq<char>,
    indices: Seq<int>,
    qlen: int,
    k: int,
    start: int,
) -> Seq<(Seq<char>, bool)>
    decreases indices.len() - k,
{
    if k < 0 || k >= indices.len() {
        seq![(line.subrange(start, line.len() as int), false)]
    } else {
        let idx = indices[k];
        let pre = line.subrange(start, idx);
        let occurrence = line.subrange(idx, idx + qlen);
        if pre.len() == 0 {
            seq![(occurrence, true)] + chunks_from(line, indices, qlen, k + 1, idx + qlen)
        } else {
            seq![(pre, false), (occurrence, true)] + chunks_from(
                line,
                indices,
                qlen,
                k + 1,
                idx + qlen,
            )
        }
    }
}

/// The pieces of `line` split at the occurrences listed in `indices`.
pub open spec fn chunks_of(line: Seq<char>, indices: Seq<int>, qlen: int) -> Seq<(Seq<char>, bool)> {
    chunks_from(line, indices, qlen, 0, 0)
}

/// The texts of a run of pieces, joined in order.
pub open spec fn chunks_text(chunks: Seq<(Seq<char>, bool)>) -> Seq<char>
    decreases chunks.len(),
{
    if chunks.len() == 0 {
        Seq::empty()
    } else {
        chunks[0].0 + chunks_text(chunks.drop_first())
    }
}

/// Pieces from index `k` on reassemble the rest of the line.
proof fn lemma_chunks_from_reassemble(
    line: Seq<char>,
    indices: Seq<int>,
    qlen: int,
    k: int,
    start: int,
)
    requires
        valid_indices(line, indices, qlen),
        0 <= qlen,
        0 <= start <= line.len(),
        0 <= k,
        k < indices.len() ==> start <= indices[k],
    ensures
        chunks_text(chunks_from(line, indices, qlen, k, start)) == line.subrange(
            start,
            line.len() as int,
        ),
    decreases indices.len() - k,
{
    reveal_with_fuel(chunks_text, 4);
    if k >= indices.len() {
        let chunks = chunks_from(line, indices, qlen, k, start);
        assert(chunks.drop_first() =~= Seq::<(Seq<char>, bool)>::empty());
        assert(chunks_text(chunks) =~= line.subrange(start, line.len() as int));
    } else {
        let idx = indices[k];
        let pre = line.subrange(start, idx);
        let occurrence = line.subrange(idx, idx + qlen);
        if k + 1 < indices.len() {
            assert(indices[k] + qlen <= indices[k + 1]);
        }
        lemma_chunks_from_reassemble(line, indices, qlen, k + 1, idx + qlen);
        let rest = chunks_from(line, indices, qlen, k + 1, idx + qlen);
        let rest_text = line.subrange(idx + qlen, line.len() as int);
        if pre.len() == 0 {
            let chunks = seq![(occurrence, true)] + rest;
            assert(chunks.drop_first() =~= rest);
            assert(chunks_text(chunks) == occurrence + chunks_text(rest));
            assert(occurrence + rest_text =~= line.subrange(start, line.len() as int));
        } else {
            let chunks = seq![(pre, false), (occurrence, true)] + rest;
            assert(chunks.drop_first() =~= seq![(occurrence, true)] + rest);
            assert((seq![(occurrence, true)] + rest).drop_first() =~= rest);
            assert(chunks_text(chunks) == pre + (occurrence + chunks_text(rest)));
            assert(pre + (occurrence + rest_text) =~= line.subrange(start, line.len() as int));
        }
    }
}

/// Splitting loses nothing: the pieces of a line split at fitting
/// occurrence positions, joined in order, are the line itself.
pub proof fn lemma_chunks_reassemble(line: Seq<char>, indices: Seq<int>, qlen: int)
    requires
        valid_indices(line, indices, qlen),
        0 <= qlen,
    ensures
        chunks_text(chunks_of(line, indices, qlen)) == line,
{
    if indices.len() > 0 {
        assert(0 <= indices[0]);
    }
    lemma_chunks_from_reassemble(line, indices, qlen, 0, 0);
    assert(line.subrange(0, line.len() as int) =~= line);
}

/// Whether the spans carry exactly these pieces, in order.
pub open spec fn spans_match<'a>(spans: Seq<Span<'a>>, chunks: Seq<(Seq<char>, bool)>) -> bool {
    &&& spans.len() == chunks.len()
    &&& forall|k: int|
        #![trigger spans[k]]
        0 <= k < spans.len() ==> spans[k].text@ == chunks[k].0 && spans[k].matched == chunks[k].1
}

/// Splits `line` at the given occurrence positions into pieces of
/// `query_len` characters and the text between them, as `chunks_of`
/// describes. The positions must fit the line, as they do whenever they
/// came from a search over this same line.
pub fn split_by_matches<'a>(line: &'a str, indices: Vec<usize>, query_len: usize) -> (r: Vec<
    Span<'a>,
>)
    requires
        valid_indices(line@, as_ints(indices@), query_len as int),
    ensures
        spans_match(r@, chunks_of(line@, as_ints(indices@), query_len as int)),
{
    let n = line.unicode_len();
    let ghost ints = as_ints(indices@);
    let mut r: Vec<Span<'a>> = Vec::new();
    let ghost mut done: Seq<(Seq<char>, bool)> = Seq::empty();
    let mut start: usize = 0;
    let mut k: usize = 0;
    proof {
        assert(done + chunks_from(line@, ints, query_len as int, 0, 0) =~= chunks_of(
            line@,
            ints,
            query_len as int,
        ));
    }
    while k < indices.len()
        invariant
            n == line@.len(),
            ints == as_ints(indices@),
            valid_indices(line@, ints, query_len as int),
            k <= indices@.len(),
            ints.len() == indices@.len(),
            k == 0 ==> start == 0,
            k > 0 ==> start as int == ints[k - 1] + query_len,
            start <= n,
            k < indices@.len() ==> start as int <= ints[k as int],
            spans_match(r@, done),
            done + chunks_from(line@, ints, query_len as int, k as int, start as int)
                =~= chunks_of(line@, ints, query_len as int),
        decreases indices@.len() - k,
    {
        let idx = indices[k];
        proof {
            assert(ints[k as int] == idx as int);
            assert(idx + query_len <= n);
            if k + 1 < indices@.len() {
                assert(ints[k as int] + query_len <= ints[k + 1]);
            }
        }
        if idx > start {
            let pre = line.substring_char(start, idx);
            r.push(Span { text: pre, matched: false });
            proof {
                done = done.push((pre@, false));
            }
        }
        let occurrence = line.substring_char(idx, idx + query_len);
        r.push(Span { text: occurrence, matched: true });
        proof {
            done = done.push((occurrence@, true));
            assert(done + chunks_from(line@, ints, query_len as int, k + 1, idx + query_len)
                =~= chunks_of(line@, ints, query_len as int));
        }
        start = idx + query_len;
        k += 1;
    }
    let rest = line.substring_char(start, n);
    r.push(Span { text: rest, matched: false });
    proof {
        assert(chunks_from(line@, ints, query_len as int, k as int, start as int) =~= seq![
            (line@.subrange(start as int, n as int), false),
        ]);
        assert(spans_match(r@, done.push((rest@, false))));
        assert(done.push((rest@, false)) =~= chunks_of(line@, ints, query_len as int));
    }
    r
}

/// Positions at or after `i`: they lie at or after `i`, fit the line,
/// and do not overlap.
spec fn positions_fit_from(line: Seq<char>, query: Seq<char>, ps: Seq<int>, i: int) -> bool {
    &&& forall|k: int|
        #![trigger ps[k]]
        0 <= k < ps.len() ==> i <= ps[k] && ps[k] + query.len() <= line.len()
    &&& forall|k: int| #![trigger ps[k]] 0 < k < ps.len() ==> ps[k - 1] + query.len() <= ps[k]
}

#[verifier::rlimit(30)]
proof fn lemma_match_positions_from_fit(line: Seq<char>, query: Seq<char>, i: int)
    requires
        0 <= i,
    ensures
        positions_fit_from(line, query, match_positions_from(line, query, i), i),
    decreases line.len() - i + 1,
{
    let ps = match_positions_from(line, query, i);
    if i > line.len() {
    } else if i + query.len() <= line.len() && line.subrange(i, i + query.len()) == query {
        let next = if query.len() == 0 {
            i + 1
        } else {
            i + query.len()
        };
        lemma_match_positions_from_fit(line, query, next);
        let rest = match_positions_from(line, query, next);
        assert(ps == seq![i] + rest);
        assert forall|k: int|
            0 <= k < ps.len() implies i <= #[trigger] ps[k] && ps[k] + query.len()
            <= line.len() by {
            if k > 0 {
                assert(ps[k] == rest[k - 1]);
            }
        }
        assert forall|k: int|
            0 < k < ps.len() implies ps[k - 1] + query.len() <= #[trigger] ps[k] by {
            assert(ps[k] == rest[k - 1]);
            if k > 1 {
                assert(ps[k - 1] == rest[k - 2]);
            } else {
                assert(ps[0] == i);
                assert(i + query.len() <= next);
                assert(next <= rest[0]);
            }
        }
    } else if i < line.len() {
        lemma_match_positions_from_fit(line, query, i + 1);
        let rest = match_positions_from(line, query, i + 1);
        assert(ps == rest);
        assert forall|k: int|
            0 <= k < ps.len() implies i <= #[trigger] ps[k] && ps[k] + query.len()
            <= line.len() by {
            assert(ps[k] == rest[k]);
        }
        assert forall|k: int|
            0 < k < ps.len() implies ps[k - 1] + query.len() <= #[trigger] ps[k] by {
            assert(ps[k] == rest[k]);
            assert(ps[k - 1] == rest[k - 1]);
        }
    }
}

/// The positions a search reports for a line always fit that line: each
/// occurrence lies within it and successive occurrences do not overlap,
/// so splitting a line at the positions of its own search is always
/// possible.
pub proof fn lemma_match_positions_fit(line: Seq<char>, query: Seq<char>)
    ensures
        valid_indices(line, match_positions(line, query), query.len() as int),
{
    lemma_match_positions_from_fit(line, query, 0);
}

/// Whether `indices` can split this line, as `valid_indices` describes.
pub fn indices_fit(line: &str, indices: &Vec<usize>, query_len: usize) -> (r: bool)
    ensures
        r == valid_indices(line@, as_ints(indices@), query_len as int),
{
    let n = line.unicode_len();
    let ghost ints = as_ints(indices@);
    let mut k: usize = 0;
    while k < indices.len()
        invariant
            n == line@.len(),
            ints == as_ints(indices@),
            ints.len() == indices@.len(),
            k <= indices@.len(),
            forall|j: int|
                #![trigger ints[j]]
                0 <= j < k ==> 0 <= ints[j] && ints[j] + query_len <= n,
            forall|j: int| #![trigger ints[j]] 0 < j < k ==> ints[j - 1] + query_len <= ints[j],
        decreases indices@.len() - k,
    {
        let idx = indices[k];
        proof {
            assert(ints[k as int] == idx as int);
        }
        if !(query_len <= n && idx <= n - query_len) {
            proof {
                assert(ints[k as int] + query_len > n);
                assert(!valid_indices(line@, ints, query_len as int));
            }
            return false;
        }
        if k > 0 {
            let prev = indices[k - 1];
            proof {
                assert(ints[k - 1] == prev as int);
            }
            if !(prev + query_len <= idx) {
                proof {
                    assert(ints[k - 1] + query_len > ints[k as int]);
                    assert(!valid_indices(line@, ints, query_len as int));
                }
                return false;
            }
        }
        k += 1;
    }
    true
}

/// One reported line of a file: the line's index and its pieces, the
/// occurrences of the query marked.
pub struct ReportLine<'a> {
    /// The line's index in the file, counting from zero.
    pub line_number: usize,
    /// The line's pieces, in order.
    pub spans: Vec<Span<'a>>,
}

/// The spans reported for one line with occurrences at `positions`:
/// split at them when they fit the line, and the whole line as one
/// unmarked piece when they do not. (Positions found in a lowered line
/// need not fit the original line, since lowering a text can change its
/// length.)
pub open spec fn report_spans_ok(
    spans: Seq<Span>,
    line: Seq<char>,
    positions: Seq<int>,
    qlen: int,
) -> bool {
    if valid_indices(line, positions, qlen) {
        spans_match(spans, chunks_of(line, positions, qlen))
    } else {
        spans_match(spans, seq![(line, false)])
    }
}

/// One row of a case-sensitive report: row `h` of the file's lines,
/// split at the occurrences of `query`.
pub open spec fn cs_report_row_ok(
    row: ReportLine,
    h: int,
    lines: Seq<Seq<char>>,
    query: Seq<char>,
) -> bool {
    &&& 0 <= h < lines.len()
    &&& row.line_number as int == h
    &&& report_spans_ok(row.spans@, lines[h], match_positions(lines[h], query), query.len() as int)
}

/// One row of a case-insensitive report: the occurrences are found in
/// the lowered line, the original line is reported.
pub open spec fn ci_report_row_ok(
    row: ReportLine,
    h: int,
    lines: Seq<Seq<char>>,
    lowered_query: Seq<char>,
) -> bool {
    &&& 0 <= h < lines.len()
    &&& row.line_number as int == h
    &&& report_spans_ok(
        row.spans@,
        lines[h],
        match_positions(lower_of(lines[h]), lowered_query),
        lowered_query.len() as int,
    )
}

/// The report printed for one file, computed from its contents alone:
/// one row per line in which the query occurs, under the
/// configuration's case policy, each row split at the occurrences.
#[verifier::rlimit(80)]
pub fn file_report<'a>(config: &Config, contents: &'a str) -> (r: Vec<ReportLine<'a>>)
    ensures
        !config.ignore_case ==> r@.len() == hit_lines(lines_of(contents@), config.query@).len(),
        !config.ignore_case ==> forall|k: int|
            #![trigger r@[k]]
            0 <= k < r@.len() ==> cs_report_row_ok(
                r@[k],
                hit_lines(lines_of(contents@), config.query@)[k],
                lines_of(contents@),
                config.query@,
            ),
        config.ignore_case ==> r@.len() == ci_hit_lines(
            lines_of(contents@),
            lower_of(config.query@),
        ).len(),
        config.ignore_case ==> forall|k: int|
            #![trigger r@[k]]
            0 <= k < r@.len() ==> ci_report_row_ok(
                r@[k],
                ci_hit_lines(lines_of(contents@), lower_of(config.query@))[k],
                lines_of(contents@),
                lower_of(config.query@),
            ),
{
    let ghost lines = lines_of(contents@);
    if !config.ignore_case {
        let rows = search(config.query.as_str(), contents);
        let qlen = config.query.as_str().unicode_len();
        let mut r: Vec<ReportLine<'a>> = Vec::new();
        let mut k: usize = 0;
        while k < rows.len()
            invariant
                lines == lines_of(contents@),
                k <= rows@.len(),
                r@.len() == k,
                rows@.len() == hit_lines(lines, config.query@).len(),
                qlen == config.query@.len(),
                forall|j: int|
                    #![trigger rows@[j]]
                    0 <= j < rows@.len() ==> crate::search::row_ok(
                        rows@[j],
                        hit_lines(lines, config.query@)[j],
                        lines,
                        config.query@,
                    ),
                forall|j: int|
                    #![trigger r@[j]]
                    0 <= j < k ==> cs_report_row_ok(
                        r@[j],
                        hit_lines(lines, config.query@)[j],
                        lines,
                        config.query@,
                    ),
            decreases rows@.len() - k,
        {
            let (indices, (line_number, line)) = &rows[k];
            let spans = if indices_fit(line, indices, qlen) {
                split_by_matches(line, indices.clone(), qlen)
            } else {
                let mut whole: Vec<Span<'a>> = Vec::new();
                whole.push(Span { text: line, matched: false });
                whole
            };
            r.push(ReportLine { line_number: *line_number, spans });
            k += 1;
        }
        r
    } else {
        let lowered_query = lowercase(config.query.as_str());
        let qlen = lowered_query.as_str().unicode_len();
        let rows = search_case_insensitive(config.query.as_str(), contents);
        let mut r: Vec<ReportLine<'a>> = Vec::new();
        let mut k: usize = 0;
        while k < rows.len()
            invariant
                lines == lines_of(contents@),
                k <= rows@.len(),
                r@.len() == k,
                rows@.len() == ci_hit_lines(lines, lower_of(config.query@)).len(),
                qlen == lower_of(config.query@).len(),
                forall|j: int|
                    #![trigger rows@[j]]
                    0 <= j < rows@.len() ==> crate::search::ci_row_ok(
                        rows@[j],
                        ci_hit_lines(lines, lower_of(config.query@))[j],
                        lines,
                        lower_of(config.query@),
                    ),
                forall|j: int|
                    #![trigger r@[j]]
                    0 <= j < k ==> ci_report_row_ok(
                        r@[j],
                        ci_hit_lines(lines, lower_of(config.query@))[j],
                        lines,
                        lower_of(config.query@),
                    ),
            decreases rows@.len() - k,
        {
            let (indices, (line_number, line)) = &rows[k];
            let spans = if indices_fit(line, indices, qlen) {
                split_by_matches(line, indices.clone(), qlen)
            } else {
                let mut whole: Vec<Span<'a>> = Vec::new();
                whole.push(Span { text: line, matched: false });
                whole
            };
            r.push(ReportLine { line_number: *line_number, spans });
            k += 1;
        }
        r
    }
}

/// The path shown for a result file: what follows the invocation root
/// in the file's path, when the root is a prefix of it; a caller falls
/// back to the full path otherwise.
pub fn relative_to<'a>(path: &'a str, root: &str) -> (r: Option<&'a str>)
    ensures
        root@.is_prefix_of(path@) ==> (r matches Some(s) && s@ == path@.subrange(
            root@.len() as int,
            path@.len() as int,
        )),
        !root@.is_prefix_of(path@) ==> r is None,
{
    let n = path.unicode_len();
    let m = root.unicode_len();
    if m > n {
        proof {
            assert(!root@.is_prefix_of(path@));
        }
        return None;
    }
    let mut k: usize = 0;
    while k < m
        invariant
            n == path@.len(),
            m == root@.len(),
            m <= n,
            k <= m,
            forall|j: int| 0 <= j < k ==> path@[j] == root@[j],
        decreases m - k,
    {
        if path.get_char(k) != root.get_char(k) {
            proof {
                assert(path@.subrange(0, m as int)[k as int] != root@[k as int]);
                assert(!root@.is_prefix_of(path@));
            }
            return None;
        }
        k += 1;
    }
    proof {
        assert(path@.subrange(0, m as int) =~= root@);
        assert(root@.is_prefix_of(path@));
    }
    Some(path.substring_char(m, n))
}

} // verus!
