//! The line matcher: splitting a text into lines and finding the
//! non-overlapping occurrences of a query in each line, case-sensitively
//! or after lowering both sides.
use vstd::prelude::*;

verus! {

broadcast use vstd::seq::group_seq_axioms;

/// A line as produced by splitting at a newline: a single carriage
/// return left at its end is dropped.
pub open spec fn strip_cr(l: Seq<char>) -> Seq<char> {
    if l.len() > 0 && l[l.len() - 1] == '\r' {
        l.drop_last()
    } else {
        l
    }
}

/// Accumulator form of line splitting: `cur` holds the characters of the
/// line begun so far, `i` the position the scan has reached.
pub open spec fn lines_acc(s: Seq<char>, i: int, cur: Seq<char>) -> Seq<Seq<char>>
    decreases s.len() - i,
{
    if i < 0 || i >= s.len() {
        if cur.len() == 0 {
            Seq::empty()
        } else {
            seq![cur]
        }
    } else if s[i] == '\n' {
        seq![strip_cr(cur)] + lines_acc(s, i + 1, Seq::empty())
    } else {
        lines_acc(s, i + 1, cur.push(s[i]))
    }
}

/// The lines of a text: pieces split at newlines, a carriage return
/// directly before a newline dropped, and no empty final piece after a
/// trailing newline.
pub open spec fn lines_of(s: Seq<char>) -> Seq<Seq<char>> {
    lines_acc(s, 0, Seq::empty())
}

/// Lines accumulated from a newline-free `cur` contain no newline.
proof fn lemma_lines_acc_no_newline(s: Seq<char>, i: int, cur: Seq<char>)
    requires
        !cur.contains('\n'),
    ensures
        forall|k: int|
            #![trigger lines_acc(s, i, cur)[k]]
            0 <= k < lines_acc(s, i, cur).len() ==> !lines_acc(s, i, cur)[k].contains('\n'),
    decreases s.len() - i,
{
    let ls = lines_acc(s, i, cur);
    if i < 0 || i >= s.len() {
        assert forall|k: int| 0 <= k < ls.len() implies !(#[trigger] ls[k]).contains('\n') by {
            assert(ls[k] == cur);
        }
    } else if s[i] == '\n' {
        assert(!strip_cr(cur).contains('\n')) by {
            if strip_cr(cur).contains('\n') {
                let j = choose|j: int|
                    0 <= j < strip_cr(cur).len() && strip_cr(cur)[j] == '\n';
                assert(cur[j] == '\n');
            }
        }
        lemma_lines_acc_no_newline(s, i + 1, Seq::empty());
        let rest = lines_acc(s, i + 1, Seq::empty());
        assert(ls == seq![strip_cr(cur)] + rest);
        assert forall|k: int| 0 <= k < ls.len() implies !(#[trigger] ls[k]).contains('\n') by {
            if k > 0 {
                assert(ls[k] == rest[k - 1]);
            }
        }
    } else {
        assert(!cur.push(s[i]).contains('\n')) by {
            if cur.push(s[i]).contains('\n') {
                let j = choose|j: int|
                    0 <= j < cur.push(s[i]).len() && cur.push(s[i])[j] == '\n';
                assert(j < cur.len() ==> cur[j] == '\n');
            }
        }
        lemma_lines_acc_no_newline(s, i + 1, cur.push(s[i]));
        let rest = lines_acc(s, i + 1, cur.push(s[i]));
        assert(ls == rest);
        assert forall|k: int| 0 <= k < ls.len() implies !(#[trigger] ls[k]).contains('\n') by {
            assert(ls[k] == rest[k]);
        }
    }
}

/// A line never contains a newline: the splitter consumes every newline
/// as a separator.
pub proof fn lemma_lines_have_no_newline(s: Seq<char>)
    ensures
        forall|k: int|
            #![trigger lines_of(s)[k]]
            0 <= k < lines_of(s).len() ==> !lines_of(s)[k].contains('\n'),
{
    assert(!Seq::<char>::empty().contains('\n'));
    lemma_lines_acc_no_newline(s, 0, Seq::empty());
}

/// Positions of the non-overlapping occurrences of `query` in `line` at
/// or after position `i`, scanning from the left; after a match the scan
/// resumes past it. An empty query matches at every position.
pub open spec fn match_positions_from(line: Seq<char>, query: Seq<char>, i: int) -> Seq<int>
    decreases line.len() - i + 1,
{
    if i < 0 || i > line.len() {
        Seq::empty()
    } else if i + query.len() <= line.len() && line.subrange(i, i + query.len()) == query {
        seq![i] + match_positions_from(
            line,
            query,
            if query.len() == 0 {
                i + 1
            } else {
                i + query.len()
            },
        )
    } else if i < line.len() {
        match_positions_from(line, query, i + 1)
    } else {
        Seq::empty()
    }
}

/// The positions as mathematical integers.
pub open spec fn as_ints(s: Seq<usize>) -> Seq<int> {
    s.map_values(|u: usize| u as int)
}

/// Positions of the non-overlapping occurrences of `query` in `line`.
pub open spec fn match_positions(line: Seq<char>, query: Seq<char>) -> Seq<int> {
    match_positions_from(line, query, 0)
}

/// Indices, at or after `i`, of the lines in which `query` occurs.
pub open spec fn hit_lines_from(lines: Seq<Seq<char>>, query: Seq<char>, i: int) -> Seq<int>
    decreases lines.len() - i,
{
    if i < 0 || i >= lines.len() {
        Seq::empty()
    } else if match_positions(lines[i], query).len() > 0 {
        seq![i] + hit_lines_from(lines, query, i + 1)
    } else {
        hit_lines_from(lines, query, i + 1)
    }
}

/// Indices of the lines in which `query` occurs.
pub open spec fn hit_lines(lines: Seq<Seq<char>>, query: Seq<char>) -> Seq<int> {
    hit_lines_from(lines, query, 0)
}

/// What `str::to_lowercase` returns for a given text; a function of the
/// characters alone.
pub uninterp spec fn lower_of(s: Seq<char>) -> Seq<char>;

/// Indices, at or after `i`, of the lines whose lowered form contains
/// `lowered_query`.
pub open spec fn ci_hit_lines_from(lines: Seq<Seq<char>>, lowered_query: Seq<char>, i: int) -> Seq<
    int,
>
    decreases lines.len() - i,
{
    if i < 0 || i >= lines.len() {
        Seq::empty()
    } else if match_positions(lower_of(lines[i]), lowered_query).len() > 0 {
        seq![i] + ci_hit_lines_from(lines, lowered_query, i + 1)
    } else {
        ci_hit_lines_from(lines, lowered_query, i + 1)
    }
}

/// Indices of the lines whose lowered form contains `lowered_query`.
pub open spec fn ci_hit_lines(lines: Seq<Seq<char>>, lowered_query: Seq<char>) -> Seq<int> {
    ci_hit_lines_from(lines, lowered_query, 0)
}

/// Relies on `str::to_lowercase`: the lowercase mapping of the text,
/// determined by the characters alone.
#[verifier::external_body]
pub(crate) fn lowercase(s: &str) -> (r: String)
    ensures
        r@ == lower_of(s@),
{
    s.to_lowercase()
}

/// Splits a text into its lines, as `lines_of` describes.
pub fn split_lines<'a>(s: &'a str) -> (r: Vec<&'a str>)
    ensures
        r.deep_view() == lines_of(s@),
{
    let n = s.unicode_len();
    let mut r: Vec<&'a str> = Vec::new();
    let mut start: usize = 0;
    let mut i: usize = 0;
    proof {
        assert(s@.subrange(0, 0) =~= Seq::<char>::empty());
        assert(r.deep_view() + lines_acc(s@, 0, Seq::empty()) =~= lines_of(s@));
    }
    while i < n
        invariant
            n == s@.len(),
            start <= i <= n,
            forall|k: int| start <= k < i ==> s@[k] != '\n',
            r.deep_view() + lines_acc(s@, i as int, s@.subrange(start as int, i as int))
                =~= lines_of(s@),
        decreases n - i,
    {
        let ghost cur = s@.subrange(start as int, i as int);
        let c = s.get_char(i);
        if c == '\n' {
            let end = if i > start && s.get_char(i - 1) == '\r' {
                i - 1
            } else {
                i
            };
            let piece = s.substring_char(start, end);
            proof {
                assert(piece@ =~= strip_cr(cur));
                let old_rdv = r.deep_view();
                assert(lines_acc(s@, i as int, cur) == seq![strip_cr(cur)] + lines_acc(
                    s@,
                    i + 1,
                    Seq::empty(),
                ));
                assert(old_rdv.push(strip_cr(cur)) + lines_acc(s@, i + 1, Seq::empty()) =~= old_rdv
                    + lines_acc(s@, i as int, cur));
            }
            let ghost old_r = r;
            r.push(piece);
            proof {
                assert(r.deep_view() =~= old_r.deep_view().push(piece@));
                assert(s@.subrange(i + 1, i + 1) =~= Seq::<char>::empty());
            }
            start = i + 1;
        } else {
            proof {
                assert(s@.subrange(start as int, i + 1) =~= cur.push(s@[i as int]));
            }
        }
        i += 1;
    }
    let ghost cur = s@.subrange(start as int, n as int);
    if start < n {
        let piece = s.substring_char(start, n);
        let ghost old_r = r;
        r.push(piece);
        proof {
            assert(lines_acc(s@, n as int, cur) =~= seq![cur]);
            assert(r.deep_view() =~= old_r.deep_view().push(piece@));
            assert(r.deep_view() =~= old_r.deep_view() + seq![cur]);
        }
    } else {
        proof {
            assert(cur =~= Seq::<char>::empty());
            assert(r.deep_view() + lines_acc(s@, n as int, cur) =~= r.deep_view());
        }
    }
    r
}

/// Finds the non-overlapping occurrences of `query` in `line`, as
/// `match_positions` describes.
pub fn match_positions_in(line: &str, query: &str) -> (r: Vec<usize>)
    ensures
        as_ints(r@) == match_positions(line@, query@),
{
    let n = line.unicode_len();
    let q = query.unicode_len();
    let mut r: Vec<usize> = Vec::new();
    let mut i: usize = 0;
    proof {
        assert(as_ints(r@) + match_positions_from(line@, query@, 0)
            =~= match_positions(line@, query@));
    }
    while i < n
        invariant
            n == line@.len(),
            q == query@.len(),
            i <= n,
            as_ints(r@) + match_positions_from(line@, query@, i as int)
                =~= match_positions(line@, query@),
        decreases n - i,
    {
        let ghost old_ints = as_ints(r@);
        let mut is_match = false;
        if q <= n - i {
            let mut j: usize = 0;
            let mut eq = true;
            while j < q && eq
                invariant
                    n == line@.len(),
                    q == query@.len(),
                    i + q <= n,
                    j <= q,
                    eq ==> forall|k: int| 0 <= k < j ==> line@[i + k] == query@[k],
                    !eq ==> line@.subrange(i as int, i + q) != query@,
                decreases q - j, if eq { 1int } else { 0int },
            {
                if line.get_char(i + j) != query.get_char(j) {
                    proof {
                        assert(line@.subrange(i as int, i + q)[j as int] != query@[j as int]);
                    }
                    eq = false;
                } else {
                    j += 1;
                }
            }
            if eq {
                proof {
                    assert(line@.subrange(i as int, i + q) =~= query@);
                }
                is_match = true;
            }
        } else {
            proof {
                assert(i + query@.len() > line@.len());
            }
        }
        if is_match {
            r.push(i);
            proof {
                assert(match_positions_from(line@, query@, i as int) == seq![i as int]
                    + match_positions_from(
                    line@,
                    query@,
                    if q == 0 {
                        i + 1
                    } else {
                        i + q
                    },
                ));
                assert(as_ints(r@) =~= old_ints.push(i as int));
            }
            if q == 0 {
                i += 1;
            } else {
                i += q;
            }
        } else {
            proof {
                assert(match_positions_from(line@, query@, i as int) == match_positions_from(
                    line@,
                    query@,
                    i + 1,
                ));
            }
            i += 1;
        }
    }
    let ghost old_ints = as_ints(r@);
    if q == 0 {
        proof {
            assert(line@.subrange(n as int, n as int) =~= query@);
            assert(match_positions_from(line@, query@, n as int) == seq![n as int]
                + match_positions_from(line@, query@, n + 1));
            assert(match_positions_from(line@, query@, n + 1) =~= Seq::<int>::empty());
        }
        r.push(n);
        proof {
            assert(as_ints(r@) =~= old_ints.push(n as int));
            assert(old_ints.push(n as int) =~= old_ints + (seq![n as int] + Seq::<int>::empty()));
        }
    } else {
        proof {
            assert(match_positions_from(line@, query@, n as int) =~= Seq::<int>::empty());
            assert(old_ints + Seq::<int>::empty() =~= old_ints);
        }
    }
    r
}

/// One reported row of a case-sensitive search: the occurrence
/// positions, the line's index, and the line itself.
pub open spec fn row_ok(
    row: (Vec<usize>, (usize, &str)),
    h: int,
    lines: Seq<Seq<char>>,
    query: Seq<char>,
) -> bool {
    &&& 0 <= h < lines.len()
    &&& row.1.0 as int == h
    &&& row.1.1@ == lines[h]
    &&& as_ints(row.0@) == match_positions(lines[h], query)
}

/// One reported row of a case-insensitive search: the positions are
/// found in the lowered line, the original line is reported.
pub open spec fn ci_row_ok(
    row: (Vec<usize>, (usize, &str)),
    h: int,
    lines: Seq<Seq<char>>,
    lowered_query: Seq<char>,
) -> bool {
    &&& 0 <= h < lines.len()
    &&& row.1.0 as int == h
    &&& row.1.1@ == lines[h]
    &&& as_ints(row.0@) == match_positions(lower_of(lines[h]), lowered_query)
}

/// Search for `query` (case sensitive) in `contents`: for every line in
/// which it occurs, the positions of its occurrences together with the
/// line's index and the line itself.
pub fn search<'a>(query: &str, contents: &'a str) -> (r: Vec<(Vec<usize>, (usize, &'a str))>)
    ensures
        r@.len() == hit_lines(lines_of(contents@), query@).len(),
        forall|k: int|
            #![trigger r@[k]]
            0 <= k < r@.len() ==> row_ok(
                r@[k],
                hit_lines(lines_of(contents@), query@)[k],
                lines_of(contents@),
                query@,
            ),
{
    let lines = split_lines(contents);
    let ghost ldv = lines.deep_view();
    let mut r: Vec<(Vec<usize>, (usize, &'a str))> = Vec::new();
    let ghost mut hits: Seq<int> = Seq::empty();
    let mut ln: usize = 0;
    proof {
        assert(hits + hit_lines_from(ldv, query@, 0) =~= hit_lines(ldv, query@));
    }
    while ln < lines.len()
        invariant
            ldv == lines.deep_view(),
            ldv == lines_of(contents@),
            ldv.len() == lines@.len(),
            ln <= lines@.len(),
            hits + hit_lines_from(ldv, query@, ln as int) =~= hit_lines(ldv, query@),
            r@.len() == hits.len(),
            forall|k: int|
                #![trigger r@[k]]
                0 <= k < r@.len() ==> row_ok(r@[k], hits[k], ldv, query@),
        decreases lines@.len() - ln,
    {
        let line: &'a str = lines[ln];
        proof {
            assert(line@ == ldv[ln as int]);
        }
        let ps = match_positions_in(line, query);
        if ps.len() > 0 {
            proof {
                assert(match_positions(ldv[ln as int], query@).len() > 0);
                assert(hit_lines_from(ldv, query@, ln as int) == seq![ln as int]
                    + hit_lines_from(ldv, query@, ln + 1));
            }
            r.push((ps, (ln, line)));
            proof {
                hits = hits.push(ln as int);
                assert(hits + hit_lines_from(ldv, query@, ln + 1) =~= hit_lines(ldv, query@));
            }
        } else {
            proof {
                assert(match_positions(ldv[ln as int], query@).len() == 0);
                assert(hit_lines_from(ldv, query@, ln as int) == hit_lines_from(
                    ldv,
                    query@,
                    ln + 1,
                ));
            }
        }
        ln += 1;
    }
    proof {
        assert(hit_lines_from(ldv, query@, ldv.len() as int) =~= Seq::<int>::empty());
        assert(hits =~= hit_lines(ldv, query@));
    }
    r
}

/// Search for `query` in `contents` without regard to case: the query
/// and each line are lowered, occurrences are found in the lowered line,
/// and the original line is reported.
pub fn search_case_insensitive<'a>(query: &str, contents: &'a str) -> (r: Vec<
    (Vec<usize>, (usize, &'a str)),
>)
    ensures
        r@.len() == ci_hit_lines(lines_of(contents@), lower_of(query@)).len(),
        forall|k: int|
            #![trigger r@[k]]
            0 <= k < r@.len() ==> ci_row_ok(
                r@[k],
                ci_hit_lines(lines_of(contents@), lower_of(query@))[k],
                lines_of(contents@),
                lower_of(query@),
            ),
{
    let lowered_query = lowercase(query);
    let lines = split_lines(contents);
    let ghost ldv = lines.deep_view();
    let ghost lq = lower_of(query@);
    let mut r: Vec<(Vec<usize>, (usize, &'a str))> = Vec::new();
    let ghost mut hits: Seq<int> = Seq::empty();
    let mut ln: usize = 0;
    proof {
        assert(hits + ci_hit_lines_from(ldv, lq, 0) =~= ci_hit_lines(ldv, lq));
    }
    while ln < lines.len()
        invariant
            ldv == lines.deep_view(),
            ldv == lines_of(contents@),
            ldv.len() == lines@.len(),
            ln <= lines@.len(),
            lq == lower_of(query@),
            lowered_query@ == lq,
            hits + ci_hit_lines_from(ldv, lq, ln as int) =~= ci_hit_lines(ldv, lq),
            r@.len() == hits.len(),
            forall|k: int|
                #![trigger r@[k]]
                0 <= k < r@.len() ==> ci_row_ok(r@[k], hits[k], ldv, lq),
        decreases lines@.len() - ln,
    {
        let line: &'a str = lines[ln];
        proof {
            assert(line@ == ldv[ln as int]);
        }
        let lowered_line = lowercase(line);
        let ps = match_positions_in(lowered_line.as_str(), lowered_query.as_str());
        if ps.len() > 0 {
            proof {
                assert(match_positions(lower_of(ldv[ln as int]), lq).len() > 0);
                assert(ci_hit_lines_from(ldv, lq, ln as int) == seq![ln as int]
                    + ci_hit_lines_from(ldv, lq, ln + 1));
            }
            r.push((ps, (ln, line)));
            proof {
                hits = hits.push(ln as int);
                assert(hits + ci_hit_lines_from(ldv, lq, ln + 1) =~= ci_hit_lines(ldv, lq));
            }
        } else {
            proof {
                assert(match_positions(lower_of(ldv[ln as int]), lq).len() == 0);
                assert(ci_hit_lines_from(ldv, lq, ln as int) == ci_hit_lines_from(
                    ldv,
                    lq,
                    ln + 1,
                ));
            }
        }
        ln += 1;
    }
    proof {
        assert(ci_hit_lines_from(ldv, lq, ldv.len() as int) =~= Seq::<int>::empty());
        assert(hits =~= ci_hit_lines(ldv, lq));
    }
    r
}

} // verus!
