//! The Match Finder: scanning one file's lines, looking candidates up in the
//! other file's store, expanding each new coincidence to its maximal run and
//! suppressing runs that were already discovered.

use vstd::prelude::*;
use crate::norm::{Options, line_eq_spec, key_spec, lines_equal};
use crate::chunks::{Chunks, bucket, matching_lines};

verus! {

/// A maximal run of position-aligned, content-equal lines, as positions:
/// the mathematical value of a `Match`.
pub ghost struct MatchSpec {
    pub start_pos_1: int,
    pub end_pos_1: int,
    pub start_pos_2: int,
    pub end_pos_2: int,
}

/// One maximal contiguous run where, for every offset `k`, line
/// `start_pos_1 + k` of the first file and line `start_pos_2 + k` of the
/// second satisfy the equality policy. All positions are zero-based and the
/// ends are inclusive.
#[derive(Clone, Copy, PartialEq, Eq, Structural, Debug)]
pub struct Match {
    start_pos_1: usize,
    end_pos_1: usize,
    start_pos_2: usize,
    end_pos_2: usize,
}

impl View for Match {
    type V = MatchSpec;

    closed spec fn view(&self) -> MatchSpec {
        MatchSpec {
            start_pos_1: self.start_pos_1 as int,
            end_pos_1: self.end_pos_1 as int,
            start_pos_2: self.start_pos_2 as int,
            end_pos_2: self.end_pos_2 as int,
        }
    }
}

impl Match {
    /// The first matching position in the first file.
    pub fn start_pos_1(&self) -> (r: usize)
        ensures
            r as int == self@.start_pos_1,
    {
        self.start_pos_1
    }

    /// The last matching position in the first file.
    pub fn end_pos_1(&self) -> (r: usize)
        ensures
            r as int == self@.end_pos_1,
    {
        self.end_pos_1
    }

    /// The first matching position in the second file.
    pub fn start_pos_2(&self) -> (r: usize)
        ensures
            r as int == self@.start_pos_2,
    {
        self.start_pos_2
    }

    /// The last matching position in the second file.
    pub fn end_pos_2(&self) -> (r: usize)
        ensures
            r as int == self@.end_pos_2,
    {
        self.end_pos_2
    }
}

/// The values of a sequence of match records.
pub open spec fn matches_view(s: Seq<Match>) -> Seq<MatchSpec> {
    s.map_values(|m: Match| m@)
}

/// Appending a record appends its value to the sequence of record values.
pub proof fn lemma_matches_view_push(s: Seq<Match>, m: Match)
    ensures
        matches_view(s.push(m)) == matches_view(s).push(m@),
{
    assert(matches_view(s.push(m)) =~= matches_view(s).push(m@));
}

/// The number of positions a run seeded at `(i, j)` extends forward: the
/// largest `t` such that every pair `(i + s, j + s)` with `1 <= s <= t` is
/// in bounds and equal under the policy.
pub open spec fn fwd_len(a: Seq<Seq<char>>, b: Seq<Seq<char>>, opts: Options, i: int, j: int) -> nat
    decreases a.len() - i,
{
    if 0 <= i && i + 1 < a.len() && j + 1 < b.len() && line_eq_spec(a[i + 1], b[j + 1], opts) {
        1 + fwd_len(a, b, opts, i + 1, j + 1)
    } else {
        0
    }
}

/// The number of positions a run seeded at `(i, j)` extends backward: the
/// largest `t` such that every pair `(i - s, j - s)` with `1 <= s <= t` is
/// in bounds and equal under the policy.
pub open spec fn bwd_len(a: Seq<Seq<char>>, b: Seq<Seq<char>>, opts: Options, i: int, j: int) -> nat
    decreases i,
{
    if 1 <= i && 1 <= j && i - 1 < a.len() && j - 1 < b.len() && line_eq_spec(
        a[i - 1],
        b[j - 1],
        opts,
    ) {
        1 + bwd_len(a, b, opts, i - 1, j - 1)
    } else {
        0
    }
}

/// The maximal run containing the seed pair `(i, j)`: the seed expanded as
/// far as adjacency equality holds in each direction.
pub open spec fn run_of(a: Seq<Seq<char>>, b: Seq<Seq<char>>, opts: Options, i: int, j: int) -> MatchSpec {
    MatchSpec {
        start_pos_1: i - bwd_len(a, b, opts, i, j),
        end_pos_1: i + fwd_len(a, b, opts, i, j),
        start_pos_2: j - bwd_len(a, b, opts, i, j),
        end_pos_2: j + fwd_len(a, b, opts, i, j),
    }
}

/// Whether the aligned position pair `(x, y)` lies inside the run `m`.
pub open spec fn in_run(m: MatchSpec, x: int, y: int) -> bool {
    m.start_pos_1 <= x <= m.end_pos_1 && y - x == m.start_pos_2 - m.start_pos_1
}

/// Whether the pair `(x, y)` is recorded in the covered-pairs list `s`.
pub open spec fn seen_has(s: Seq<(usize, usize)>, x: int, y: int) -> bool {
    exists|k: int| 0 <= k < s.len() && (#[trigger] s[k]).0 as int == x && s[k].1 as int == y
}

/// Recording one more pair extends the covered-pairs list by that pair alone.
pub proof fn lemma_seen_push(s: Seq<(usize, usize)>, p: (usize, usize))
    ensures
        forall|x: int, y: int|
            seen_has(s.push(p), x, y) <==> seen_has(s, x, y) || (p.0 as int == x && p.1 as int
                == y),
{
    assert forall|x: int, y: int|
        seen_has(s.push(p), x, y) <==> seen_has(s, x, y) || (p.0 as int == x && p.1 as int
            == y) by {
        if seen_has(s.push(p), x, y) {
            let k = choose|k: int|
                0 <= k < s.push(p).len() && (#[trigger] s.push(p)[k]).0 as int == x && s.push(
                    p,
                )[k].1 as int == y;
            if k < s.len() {
                assert(s[k] == s.push(p)[k]);
            }
        }
        if seen_has(s, x, y) {
            let k = choose|k: int|
                0 <= k < s.len() && (#[trigger] s[k]).0 as int == x && s[k].1 as int == y;
            assert(s.push(p)[k] == s[k]);
        }
        if p.0 as int == x && p.1 as int == y {
            assert(s.push(p)[s.len() as int] == p);
        }
    }
}

/// Whether the pair `(x, y)` is covered by one of the records of `acc`.
pub open spec fn covered(acc: Seq<MatchSpec>, x: int, y: int) -> bool {
    exists|k: int| 0 <= k < acc.len() && in_run(#[trigger] acc[k], x, y)
}

/// Appending one record to `acc` covers exactly the pairs of that record in
/// addition to what was covered before.
pub proof fn lemma_covered_push(acc: Seq<MatchSpec>, m: MatchSpec)
    ensures
        forall|x: int, y: int|
            covered(acc.push(m), x, y) <==> covered(acc, x, y) || in_run(m, x, y),
{
    assert forall|x: int, y: int|
        covered(acc.push(m), x, y) <==> covered(acc, x, y) || in_run(m, x, y) by {
        if covered(acc.push(m), x, y) {
            let k = choose|k: int| 0 <= k < acc.push(m).len() && in_run(#[trigger] acc.push(m)[k], x, y);
            if k < acc.len() {
                assert(in_run(acc[k], x, y));
            }
        }
        if covered(acc, x, y) {
            let k = choose|k: int| 0 <= k < acc.len() && in_run(#[trigger] acc[k], x, y);
            assert(in_run(acc.push(m)[k], x, y));
        }
        if in_run(m, x, y) {
            assert(in_run(acc.push(m)[acc.len() as int], x, y));
        }
    }
}

/// The records emitted while working through the candidate positions `js`
/// for position `i` of the first file, starting from the records `acc`: a
/// record is appended for each candidate pair not already covered.
pub open spec fn step_j(
    a: Seq<Seq<char>>,
    b: Seq<Seq<char>>,
    opts: Options,
    i: int,
    js: Seq<int>,
    acc: Seq<MatchSpec>,
) -> Seq<MatchSpec>
    decreases js.len(),
{
    if js.len() == 0 {
        acc
    } else {
        let j = js[0];
        let acc2 = if covered(acc, i, j) {
            acc
        } else {
            acc.push(run_of(a, b, opts, i, j))
        };
        step_j(a, b, opts, i, js.drop_first(), acc2)
    }
}

/// The records emitted from position `i` of the first file onward, starting
/// from the records `acc`: each line of the first file is looked up in the
/// second file's index and every uncovered candidate pair yields a record.
pub open spec fn step_i(
    a: Seq<Seq<char>>,
    b: Seq<Seq<char>>,
    opts: Options,
    i: int,
    acc: Seq<MatchSpec>,
) -> Seq<MatchSpec>
    decreases a.len() - i,
{
    if 0 <= i < a.len() {
        step_i(a, b, opts, i + 1, step_j(a, b, opts, i, bucket(b, opts, key_spec(a[i], opts)), acc))
    } else {
        acc
    }
}

/// The ordered sequence of match records the engine reports for line
/// sequences `a` and `b` under `opts`.
pub open spec fn spec_compare(a: Seq<Seq<char>>, b: Seq<Seq<char>>, opts: Options) -> Seq<MatchSpec> {
    step_i(a, b, opts, 0, Seq::empty())
}

/// The direction of one expansion pass from a seed pair.
#[derive(PartialEq, Eq, Structural)]
pub enum Direction {
    Forward,
    Reverse,
}

/// One expansion pass: starting from the seed pair, repeatedly step to the
/// neighbouring pair in the given direction while both positions exist and
/// the lines are equal under the policy, recording each pair stepped onto,
/// and return the last pair reached.
pub fn search_out(
    opts: Options,
    seen_matching_lines: &mut Vec<(usize, usize)>,
    chunks1: &Chunks,
    start_index_1: usize,
    chunks2: &Chunks,
    start_index_2: usize,
    direction: Direction,
) -> (r: (usize, usize))
    requires
        (start_index_1 as int) < chunks1.lines_view().len(),
        (start_index_2 as int) < chunks2.lines_view().len(),
    ensures
        direction == Direction::Forward ==> {
            let f = fwd_len(
                chunks1.lines_view(),
                chunks2.lines_view(),
                opts,
                start_index_1 as int,
                start_index_2 as int,
            );
            &&& r.0 == start_index_1 + f
            &&& r.1 == start_index_2 + f
            &&& forall|x: int, y: int|
                seen_has(final(seen_matching_lines)@, x, y) <==> seen_has(
                    old(seen_matching_lines)@,
                    x,
                    y,
                ) || (start_index_1 < x <= start_index_1 + f && y - x == start_index_2
                    - start_index_1)
        },
        direction == Direction::Reverse ==> {
            let w = bwd_len(
                chunks1.lines_view(),
                chunks2.lines_view(),
                opts,
                start_index_1 as int,
                start_index_2 as int,
            );
            &&& r.0 == start_index_1 - w
            &&& r.1 == start_index_2 - w
            &&& forall|x: int, y: int|
                seen_has(final(seen_matching_lines)@, x, y) <==> seen_has(
                    old(seen_matching_lines)@,
                    x,
                    y,
                ) || (start_index_1 - w <= x < start_index_1 && y - x == start_index_2
                    - start_index_1)
        },
{
    let ghost aa = chunks1.lines_view();
    let ghost bb = chunks2.lines_view();
    let ghost i0 = start_index_1 as int;
    let ghost j0 = start_index_2 as int;
    let n1: usize = chunks1.len();
    let n2: usize = chunks2.len();
    let mut search_index_1 = start_index_1;
    let mut search_index_2 = start_index_2;

    loop
        invariant
            aa == chunks1.lines_view(),
            bb == chunks2.lines_view(),
            n1 == aa.len(),
            n2 == bb.len(),
            0 <= i0 < aa.len(),
            0 <= j0 < bb.len(),
            (search_index_1 as int) < aa.len(),
            (search_index_2 as int) < bb.len(),
            direction == Direction::Forward || direction == Direction::Reverse,
            direction == Direction::Forward ==> {
                let t = search_index_1 - i0;
                &&& i0 <= search_index_1
                &&& search_index_1 - i0 == search_index_2 - j0
                &&& t <= fwd_len(aa, bb, opts, i0, j0)
                &&& fwd_len(aa, bb, opts, search_index_1 as int, search_index_2 as int) == fwd_len(
                    aa,
                    bb,
                    opts,
                    i0,
                    j0,
                ) - t
                &&& forall|x: int, y: int|
                    seen_has(seen_matching_lines@, x, y) <==> seen_has(
                        old(seen_matching_lines)@,
                        x,
                        y,
                    ) || (i0 < x <= i0 + t && y - x == j0 - i0)
            },
            direction == Direction::Reverse ==> {
                let t = i0 - search_index_1;
                &&& search_index_1 <= i0
                &&& i0 - search_index_1 == j0 - search_index_2
                &&& t <= bwd_len(aa, bb, opts, i0, j0)
                &&& bwd_len(aa, bb, opts, search_index_1 as int, search_index_2 as int) == bwd_len(
                    aa,
                    bb,
                    opts,
                    i0,
                    j0,
                ) - t
                &&& forall|x: int, y: int|
                    seen_has(seen_matching_lines@, x, y) <==> seen_has(
                        old(seen_matching_lines)@,
                        x,
                        y,
                    ) || (i0 - t <= x < i0 && y - x == j0 - i0)
            },
        ensures
            direction == Direction::Forward ==> search_index_1 - i0 == fwd_len(aa, bb, opts, i0, j0)
                && search_index_2 - j0 == fwd_len(aa, bb, opts, i0, j0),
            direction == Direction::Reverse ==> i0 - search_index_1 == bwd_len(aa, bb, opts, i0, j0)
                && j0 - search_index_2 == bwd_len(aa, bb, opts, i0, j0),
            direction == Direction::Forward ==> forall|x: int, y: int|
                seen_has(seen_matching_lines@, x, y) <==> seen_has(old(seen_matching_lines)@, x, y)
                    || (i0 < x <= i0 + fwd_len(aa, bb, opts, i0, j0) && y - x == j0 - i0),
            direction == Direction::Reverse ==> forall|x: int, y: int|
                seen_has(seen_matching_lines@, x, y) <==> seen_has(old(seen_matching_lines)@, x, y)
                    || (i0 - bwd_len(aa, bb, opts, i0, j0) <= x < i0 && y - x == j0 - i0),
        decreases (if direction == Direction::Forward {
            aa.len() - search_index_1
        } else {
            search_index_1 as int
        }),
    {
        if direction == Direction::Reverse && (search_index_1 == 0 || search_index_2 == 0) {
            break ;
        }

        let check_index_1 = match direction {
            Direction::Forward => search_index_1 + 1,
            Direction::Reverse => search_index_1 - 1,
        };
        let line_1 = match chunks1.get_line(check_index_1) {
            Some(l) => l,
            None => { break ; },
        };

        let check_index_2 = match direction {
            Direction::Forward => search_index_2 + 1,
            Direction::Reverse => search_index_2 - 1,
        };
        let line_2 = match chunks2.get_line(check_index_2) {
            Some(l) => l,
            None => { break ; },
        };

        if !lines_equal(line_1.as_str(), line_2.as_str(), opts) {
            break ;
        }

        search_index_1 = check_index_1;
        search_index_2 = check_index_2;

        let ghost seen_prev = seen_matching_lines@;
        let ghost pr = (search_index_1, search_index_2);
        seen_matching_lines.push((search_index_1, search_index_2));
        proof {
            lemma_seen_push(seen_prev, pr);
            assert(seen_matching_lines@ == seen_prev.push(pr));
            assert(forall|x: int, y: int|
                seen_has(seen_prev.push(pr), x, y) <==> seen_has(seen_prev, x, y) || (pr.0 as int
                    == x && pr.1 as int == y));
            if direction == Direction::Forward {
                assert(fwd_len(aa, bb, opts, search_index_1 - 1, search_index_2 - 1) == 1
                    + fwd_len(aa, bb, opts, search_index_1 as int, search_index_2 as int));
                let t2 = search_index_1 - i0;
                assert(t2 <= fwd_len(aa, bb, opts, i0, j0));
                assert(fwd_len(aa, bb, opts, search_index_1 as int, search_index_2 as int)
                    == fwd_len(aa, bb, opts, i0, j0) - t2);
                assert forall|x: int, y: int|
                    seen_has(seen_matching_lines@, x, y) <==> seen_has(
                        old(seen_matching_lines)@,
                        x,
                        y,
                    ) || (i0 < x <= i0 + t2 && y - x == j0 - i0) by {
                    assert(seen_has(seen_matching_lines@, x, y) <==> seen_has(seen_prev, x, y)
                        || (pr.0 as int == x && pr.1 as int == y));
                    assert(seen_has(seen_prev, x, y) <==> seen_has(old(seen_matching_lines)@, x, y)
                        || (i0 < x <= i0 + (t2 - 1) && y - x == j0 - i0));
                }
            } else {
                assert(bwd_len(aa, bb, opts, search_index_1 + 1, search_index_2 + 1) == 1
                    + bwd_len(aa, bb, opts, search_index_1 as int, search_index_2 as int));
                let t2 = i0 - search_index_1;
                assert(t2 <= bwd_len(aa, bb, opts, i0, j0));
                assert(bwd_len(aa, bb, opts, search_index_1 as int, search_index_2 as int)
                    == bwd_len(aa, bb, opts, i0, j0) - t2);
                assert forall|x: int, y: int|
                    seen_has(seen_matching_lines@, x, y) <==> seen_has(
                        old(seen_matching_lines)@,
                        x,
                        y,
                    ) || (i0 - t2 <= x < i0 && y - x == j0 - i0) by {
                    assert(seen_has(seen_matching_lines@, x, y) <==> seen_has(seen_prev, x, y)
                        || (pr.0 as int == x && pr.1 as int == y));
                    assert(seen_has(seen_prev, x, y) <==> seen_has(old(seen_matching_lines)@, x, y)
                        || (i0 - (t2 - 1) <= x < i0 && y - x == j0 - i0));
                }
            }
        }
    }

    (search_index_1, search_index_2)
}

/// Expand the seed pair `(index1, index2)` in both directions and build the
/// match record of its maximal run, recording every pair of the run other
/// than the seed itself.
pub fn make_match(
    opts: Options,
    seen_matching_lines: &mut Vec<(usize, usize)>,
    chunks1: &Chunks,
    index1: usize,
    chunks2: &Chunks,
    index2: usize,
) -> (m: Match)
    requires
        (index1 as int) < chunks1.lines_view().len(),
        (index2 as int) < chunks2.lines_view().len(),
    ensures
        m@ == run_of(
            chunks1.lines_view(),
            chunks2.lines_view(),
            opts,
            index1 as int,
            index2 as int,
        ),
        forall|x: int, y: int|
            seen_has(final(seen_matching_lines)@, x, y) <==> seen_has(
                old(seen_matching_lines)@,
                x,
                y,
            ) || (in_run(
                run_of(chunks1.lines_view(), chunks2.lines_view(), opts, index1 as int, index2 as int),
                x,
                y,
            ) && !(x == index1 as int && y == index2 as int)),
{
    let ghost aa = chunks1.lines_view();
    let ghost bb = chunks2.lines_view();
    let ghost i0 = index1 as int;
    let ghost j0 = index2 as int;
    let (match_end_1, match_end_2) = search_out(
        opts,
        seen_matching_lines,
        chunks1,
        index1,
        chunks2,
        index2,
        Direction::Forward,
    );
    let (match_start_1, match_start_2) = search_out(
        opts,
        seen_matching_lines,
        chunks1,
        index1,
        chunks2,
        index2,
        Direction::Reverse,
    );

    let m = Match {
        start_pos_1: match_start_1,
        start_pos_2: match_start_2,
        end_pos_1: match_end_1,
        end_pos_2: match_end_2,
    };
    proof {
        let f = fwd_len(aa, bb, opts, i0, j0) as int;
        let w = bwd_len(aa, bb, opts, i0, j0) as int;
        let run = run_of(aa, bb, opts, i0, j0);
        assert(run.start_pos_1 == i0 - w && run.end_pos_1 == i0 + f && run.start_pos_2 == j0 - w);
        assert forall|x: int, y: int|
            seen_has(seen_matching_lines@, x, y) <==> seen_has(old(seen_matching_lines)@, x, y)
                || (in_run(run, x, y) && !(x == i0 && y == j0)) by {
            assert(in_run(run, x, y) <==> (i0 - w <= x <= i0 + f && y - x == j0 - i0));
        }
    }
    m
}

/// Scan the first store's lines in order; for each line, look up its
/// candidate positions in the second store, and for each candidate pair not
/// yet covered, expand it to its maximal run, record the run, and mark every
/// pair of the run as covered.
pub fn compare(opts: Options, chunks1: &Chunks, chunks2: &Chunks) -> (matches: Vec<Match>)
    requires
        chunks1.wf(opts),
        chunks2.wf(opts),
    ensures
        matches_view(matches@) == spec_compare(chunks1.lines_view(), chunks2.lines_view(), opts),
{
    let ghost aa = chunks1.lines_view();
    let ghost bb = chunks2.lines_view();
    let mut matches: Vec<Match> = Vec::new();
    let mut seen_matching_lines: Vec<(usize, usize)> = Vec::new();

    let n1: usize = chunks1.len();
    let mut index1: usize = 0;
    proof {
        assert(matches_view(matches@) =~= Seq::<MatchSpec>::empty());
    }
    while index1 < n1
        invariant
            chunks1.wf(opts),
            chunks2.wf(opts),
            aa == chunks1.lines_view(),
            bb == chunks2.lines_view(),
            n1 == aa.len(),
            0 <= index1 <= n1,
            step_i(aa, bb, opts, index1 as int, matches_view(matches@)) == spec_compare(
                aa,
                bb,
                opts,
            ),
            forall|x: int, y: int|
                seen_has(seen_matching_lines@, x, y) <==> covered(matches_view(matches@), x, y),
        decreases n1 - index1,
    {
        let line = chunks1.line_ref(index1);
        let matched_lines = matching_lines(opts, line.as_str(), chunks2);
        let ghost key = key_spec(aa[index1 as int], opts);
        let ghost bkt = bucket(bb, opts, key);

        let m2: usize = matched_lines.len();
        let mut jdx: usize = 0;
        proof {
            assert(bkt.skip(0) =~= bkt);
        }
        while jdx < m2
            invariant
                chunks1.wf(opts),
                chunks2.wf(opts),
                aa == chunks1.lines_view(),
                bb == chunks2.lines_view(),
                n1 == aa.len(),
                0 <= index1 < n1,
                key == key_spec(aa[index1 as int], opts),
                bkt == bucket(bb, opts, key),
                m2 == matched_lines@.len(),
                matched_lines@.len() == bkt.len(),
                forall|k: int| 0 <= k < bkt.len() ==> #[trigger] matched_lines@[k] as int == bkt[k],
                0 <= jdx <= m2,
                step_i(
                    aa,
                    bb,
                    opts,
                    index1 + 1,
                    step_j(aa, bb, opts, index1 as int, bkt.skip(jdx as int), matches_view(matches@)),
                ) == spec_compare(aa, bb, opts),
                forall|x: int, y: int|
                    seen_has(seen_matching_lines@, x, y) <==> covered(matches_view(matches@), x, y),
            decreases m2 - jdx,
        {
            let index2 = matched_lines[jdx];
            proof {
                assert(index2 as int == bkt[jdx as int]);
                crate::chunks::lemma_bucket_elems(bb, opts, key);
                assert(bkt.contains(bkt[jdx as int]));
                assert((index2 as int) < bb.len());
                assert(bkt.skip(jdx as int)[0] == bkt[jdx as int]);
                assert(bkt.skip(jdx as int).drop_first() =~= bkt.skip(jdx + 1));
            }
            let ghost acc0 = matches_view(matches@);
            let ghost seen0 = seen_matching_lines@;
            if !contains_pair(&seen_matching_lines, index1, index2) {
                let this_match = make_match(
                    opts,
                    &mut seen_matching_lines,
                    chunks1,
                    index1,
                    chunks2,
                    index2,
                );
                let ghost seen_mid = seen_matching_lines@;
                let ghost matches_before = matches@;
                seen_matching_lines.push((index1, index2));
                matches.push(this_match);
                proof {
                    let run = run_of(aa, bb, opts, index1 as int, index2 as int);
                    let pair = (index1, index2);
                    lemma_seen_push(seen_mid, pair);
                    assert(seen_matching_lines@ == seen_mid.push(pair));
                    lemma_matches_view_push(matches_before, this_match);
                    assert(matches_view(matches@) == acc0.push(run));
                    lemma_covered_push(acc0, run);
                    assert(in_run(run, index1 as int, index2 as int));
                    assert(!covered(acc0, index1 as int, index2 as int));
                    assert forall|x: int, y: int|
                        seen_has(seen_matching_lines@, x, y) <==> covered(
                            matches_view(matches@),
                            x,
                            y,
                        ) by {
                        assert(seen_has(seen_matching_lines@, x, y) <==> seen_has(seen_mid, x, y)
                            || (pair.0 as int == x && pair.1 as int == y));
                        assert(seen_has(seen_mid, x, y) <==> seen_has(seen0, x, y) || (in_run(
                            run,
                            x,
                            y,
                        ) && !(x == index1 as int && y == index2 as int)));
                        assert(seen_has(seen0, x, y) <==> covered(acc0, x, y));
                        assert(covered(matches_view(matches@), x, y) <==> covered(acc0, x, y)
                            || in_run(run, x, y));
                    }
                    assert(step_j(aa, bb, opts, index1 as int, bkt.skip(jdx as int), acc0)
                        == step_j(
                        aa,
                        bb,
                        opts,
                        index1 as int,
                        bkt.skip(jdx + 1),
                        acc0.push(run),
                    ));
                }
            } else {
                proof {
                    assert(covered(acc0, index1 as int, index2 as int));
                    assert(step_j(aa, bb, opts, index1 as int, bkt.skip(jdx as int), acc0)
                        == step_j(aa, bb, opts, index1 as int, bkt.skip(jdx + 1), acc0));
                }
            }
            jdx = jdx + 1;
        }
        proof {
            assert(bkt.skip(m2 as int) =~= Seq::<int>::empty());
            assert(step_j(aa, bb, opts, index1 as int, bkt.skip(m2 as int), matches_view(matches@))
                == matches_view(matches@));
        }
        index1 = index1 + 1;
    }
    matches
}

/// Whether the pair `(x, y)` has been recorded in the covered-pairs list.
pub fn contains_pair(seen_matching_lines: &Vec<(usize, usize)>, x: usize, y: usize) -> (r: bool)
    ensures
        r == seen_has(seen_matching_lines@, x as int, y as int),
{
    let n: usize = seen_matching_lines.len();
    let mut k: usize = 0;
    while k < n
        invariant
            n == seen_matching_lines@.len(),
            0 <= k <= n,
            forall|q: int|
                0 <= q < k ==> !((#[trigger] seen_matching_lines@[q]).0 as int == x as int
                    && seen_matching_lines@[q].1 as int == y as int),
        decreases n - k,
    {
        let p = seen_matching_lines[k];
        if p.0 == x && p.1 == y {
            return true;
        }
        k = k + 1;
    }
    false
}

/// Build the two stores for the given line sequences and report every
/// maximal shared run between them under `opts`.
pub fn compare_files(opts: Options, lines1: Vec<String>, lines2: Vec<String>) -> (matches: Vec<
    Match,
>)
    ensures
        matches_view(matches@) == spec_compare(lines1.deep_view(), lines2.deep_view(), opts),
{
    let chunks1 = Chunks::new(opts, lines1);
    let chunks2 = Chunks::new(opts, lines2);
    compare(opts, &chunks1, &chunks2)
}

} // verus!
