//! Properties of the emitted match records, proved of `spec_compare`, the
//! function `compare` is verified against: well-formed shapes, in-run
//! equality and maximality, no double-counted pairs, determinism, and
//! symmetry under swapping the two files.

use vstd::prelude::*;
use crate::norm::{Options, line_eq_spec, key_spec, indexed_spec, lemma_key_blank};
use crate::chunks::{bucket, lemma_bucket_elems};
use crate::matching::{
    MatchSpec, fwd_len, bwd_len, run_of, in_run, covered, step_j, step_i, spec_compare,
};

verus! {

/// A record has its ends in range and in order, with the same run length in
/// both files.
pub open spec fn record_wf(a: Seq<Seq<char>>, b: Seq<Seq<char>>, m: MatchSpec) -> bool {
    &&& 0 <= m.start_pos_1 <= m.end_pos_1 < a.len()
    &&& 0 <= m.start_pos_2 <= m.end_pos_2 < b.len()
    &&& m.end_pos_1 - m.start_pos_1 == m.end_pos_2 - m.start_pos_2
}

/// Every aligned pair of lines inside the record's range is equal under the
/// equality policy.
pub open spec fn record_lines_equal(
    a: Seq<Seq<char>>,
    b: Seq<Seq<char>>,
    opts: Options,
    m: MatchSpec,
) -> bool {
    forall|x: int|
        m.start_pos_1 <= x <= m.end_pos_1 ==> line_eq_spec(
            #[trigger] a[x],
            b[x + m.start_pos_2 - m.start_pos_1],
            opts,
        )
}

/// The pairs just outside the record's range, where they exist, are not
/// equal under the equality policy.
pub open spec fn record_maximal(
    a: Seq<Seq<char>>,
    b: Seq<Seq<char>>,
    opts: Options,
    m: MatchSpec,
) -> bool {
    &&& (m.start_pos_1 == 0 || m.start_pos_2 == 0 || !line_eq_spec(
        a[m.start_pos_1 - 1],
        b[m.start_pos_2 - 1],
        opts,
    ))
    &&& (m.end_pos_1 + 1 >= a.len() || m.end_pos_2 + 1 >= b.len() || !line_eq_spec(
        a[m.end_pos_1 + 1],
        b[m.end_pos_2 + 1],
        opts,
    ))
}

/// A pair of positions whose lines are equal under the policy: what one
/// expansion starts from.
pub open spec fn valid_seed(a: Seq<Seq<char>>, b: Seq<Seq<char>>, opts: Options, i: int, j: int) -> bool {
    0 <= i < a.len() && 0 <= j < b.len() && line_eq_spec(a[i], b[j], opts)
}

/// A pair the scan can discover: the lines bear the same key and the second
/// file's line is in its index.
pub open spec fn is_seed(a: Seq<Seq<char>>, b: Seq<Seq<char>>, opts: Options, i: int, j: int) -> bool {
    valid_seed(a, b, opts, i, j) && indexed_spec(b[j], opts)
}

/// The forward expansion length stays in bounds, every pair it walks over is
/// equal under the policy, and the pair beyond it, if any, is not.
pub proof fn lemma_fwd_props(a: Seq<Seq<char>>, b: Seq<Seq<char>>, opts: Options, i: int, j: int)
    requires
        0 <= i < a.len(),
        0 <= j < b.len(),
    ensures
        i + fwd_len(a, b, opts, i, j) < a.len(),
        j + fwd_len(a, b, opts, i, j) < b.len(),
        forall|x: int|
            i < x <= i + fwd_len(a, b, opts, i, j) ==> line_eq_spec(
                #[trigger] a[x],
                b[x + (j - i)],
                opts,
            ),
        i + fwd_len(a, b, opts, i, j) + 1 >= a.len() || j + fwd_len(a, b, opts, i, j) + 1
            >= b.len() || !line_eq_spec(
            a[i + fwd_len(a, b, opts, i, j) + 1],
            b[j + fwd_len(a, b, opts, i, j) + 1],
            opts,
        ),
    decreases a.len() - i,
{
    if i + 1 < a.len() && j + 1 < b.len() && line_eq_spec(a[i + 1], b[j + 1], opts) {
        lemma_fwd_props(a, b, opts, i + 1, j + 1);
        assert(fwd_len(a, b, opts, i, j) == 1 + fwd_len(a, b, opts, i + 1, j + 1));
        assert forall|x: int|
            i < x <= i + fwd_len(a, b, opts, i, j) implies line_eq_spec(
            #[trigger] a[x],
            b[x + (j - i)],
            opts,
        ) by {
            if x == i + 1 {
            } else {
                assert(line_eq_spec(a[x], b[x + (j + 1 - (i + 1))], opts));
            }
        }
    } else {
        assert(fwd_len(a, b, opts, i, j) == 0);
    }
}

/// The backward expansion length stays in bounds, every pair it walks over
/// is equal under the policy, and the pair before it, if any, is not.
pub proof fn lemma_bwd_props(a: Seq<Seq<char>>, b: Seq<Seq<char>>, opts: Options, i: int, j: int)
    requires
        0 <= i < a.len(),
        0 <= j < b.len(),
    ensures
        i - bwd_len(a, b, opts, i, j) >= 0,
        j - bwd_len(a, b, opts, i, j) >= 0,
        forall|x: int|
            i - bwd_len(a, b, opts, i, j) <= x < i ==> line_eq_spec(
                #[trigger] a[x],
                b[x + (j - i)],
                opts,
            ),
        i - bwd_len(a, b, opts, i, j) == 0 || j - bwd_len(a, b, opts, i, j) == 0 || !line_eq_spec(
            a[i - bwd_len(a, b, opts, i, j) - 1],
            b[j - bwd_len(a, b, opts, i, j) - 1],
            opts,
        ),
    decreases i,
{
    if 1 <= i && 1 <= j && line_eq_spec(a[i - 1], b[j - 1], opts) {
        lemma_bwd_props(a, b, opts, i - 1, j - 1);
        assert(bwd_len(a, b, opts, i, j) == 1 + bwd_len(a, b, opts, i - 1, j - 1));
        assert forall|x: int|
            i - bwd_len(a, b, opts, i, j) <= x < i implies line_eq_spec(
            #[trigger] a[x],
            b[x + (j - i)],
            opts,
        ) by {
            if x == i - 1 {
            } else {
                assert(line_eq_spec(a[x], b[x + (j - 1 - (i - 1))], opts));
            }
        }
    } else {
        assert(bwd_len(a, b, opts, i, j) == 0);
    }
}

/// The run of a valid seed is a well-formed record whose in-range pairs are
/// all equal under the policy and which cannot be extended in either
/// direction; the seed itself lies inside it.
pub proof fn lemma_run_props(a: Seq<Seq<char>>, b: Seq<Seq<char>>, opts: Options, i: int, j: int)
    requires
        valid_seed(a, b, opts, i, j),
    ensures
        record_wf(a, b, run_of(a, b, opts, i, j)),
        record_lines_equal(a, b, opts, run_of(a, b, opts, i, j)),
        record_maximal(a, b, opts, run_of(a, b, opts, i, j)),
        in_run(run_of(a, b, opts, i, j), i, j),
        run_of(a, b, opts, i, j).start_pos_2 - run_of(a, b, opts, i, j).start_pos_1 == j - i,
{
    lemma_fwd_props(a, b, opts, i, j);
    lemma_bwd_props(a, b, opts, i, j);
    let m = run_of(a, b, opts, i, j);
    assert forall|x: int| m.start_pos_1 <= x <= m.end_pos_1 implies line_eq_spec(
        #[trigger] a[x],
        b[x + m.start_pos_2 - m.start_pos_1],
        opts,
    ) by {
        if x < i {
            assert(line_eq_spec(a[x], b[x + (j - i)], opts));
        } else if x > i {
            assert(line_eq_spec(a[x], b[x + (j - i)], opts));
        }
    }
}

/// Moving a seed one step forward along its run does not change the run.
pub proof fn lemma_shift_fwd(a: Seq<Seq<char>>, b: Seq<Seq<char>>, opts: Options, i: int, j: int)
    requires
        valid_seed(a, b, opts, i, j),
        i + 1 < a.len(),
        j + 1 < b.len(),
        line_eq_spec(a[i + 1], b[j + 1], opts),
    ensures
        run_of(a, b, opts, i + 1, j + 1) == run_of(a, b, opts, i, j),
{
    assert(fwd_len(a, b, opts, i, j) == 1 + fwd_len(a, b, opts, i + 1, j + 1));
    assert(bwd_len(a, b, opts, i + 1, j + 1) == 1 + bwd_len(a, b, opts, i, j));
}

/// Every pair inside a run is itself a valid seed of the very same run: the
/// run does not depend on which of its pairs seeded the expansion.
pub proof fn lemma_seed_move(
    a: Seq<Seq<char>>,
    b: Seq<Seq<char>>,
    opts: Options,
    i: int,
    j: int,
    x: int,
    y: int,
)
    requires
        valid_seed(a, b, opts, i, j),
        in_run(run_of(a, b, opts, i, j), x, y),
    ensures
        valid_seed(a, b, opts, x, y),
        run_of(a, b, opts, x, y) == run_of(a, b, opts, i, j),
    decreases (if x >= i {
        x - i
    } else {
        i - x
    }),
{
    lemma_fwd_props(a, b, opts, i, j);
    lemma_bwd_props(a, b, opts, i, j);
    if x == i {
        assert(y == j);
    } else if x > i {
        assert(x - i <= fwd_len(a, b, opts, i, j));
        assert(fwd_len(a, b, opts, i, j) >= 1);
        assert(line_eq_spec(a[i + 1], b[j + 1], opts));
        lemma_shift_fwd(a, b, opts, i, j);
        lemma_seed_move(a, b, opts, i + 1, j + 1, x, y);
    } else {
        assert(i - x <= bwd_len(a, b, opts, i, j));
        assert(bwd_len(a, b, opts, i, j) >= 1);
        assert(line_eq_spec(a[i - 1], b[j - 1], opts));
        assert(run_of(a, b, opts, i - 1, j - 1) == run_of(a, b, opts, i, j)) by {
            lemma_shift_fwd(a, b, opts, i - 1, j - 1);
        }
        lemma_seed_move(a, b, opts, i - 1, j - 1, x, y);
    }
}


/// No aligned position pair lies in both of two runs.
pub open spec fn runs_disjoint(m1: MatchSpec, m2: MatchSpec) -> bool {
    forall|x: int, y: int| #[trigger] in_run(m1, x, y) ==> !in_run(m2, x, y)
}

/// Every record of `acc` is the run of some discoverable seed.
pub open spec fn acc_sound(
    a: Seq<Seq<char>>,
    b: Seq<Seq<char>>,
    opts: Options,
    acc: Seq<MatchSpec>,
) -> bool {
    forall|k: int|
        0 <= k < acc.len() ==> exists|i: int, j: int|
            is_seed(a, b, opts, i, j) && #[trigger] acc[k] == run_of(a, b, opts, i, j)
}

/// The records of `acc` are pairwise disjoint: no two of them cover the
/// same aligned position pair.
pub open spec fn acc_disjoint(acc: Seq<MatchSpec>) -> bool {
    forall|k1: int, k2: int| #![trigger acc[k1], acc[k2]]
        0 <= k1 < k2 < acc.len() ==> runs_disjoint(acc[k1], acc[k2])
}

/// A covered pair's run is already among the records: the pair is a valid
/// seed, and its run was recorded by whichever seed covered it.
pub proof fn lemma_covered_run(
    a: Seq<Seq<char>>,
    b: Seq<Seq<char>>,
    opts: Options,
    acc: Seq<MatchSpec>,
    i: int,
    j: int,
)
    requires
        acc_sound(a, b, opts, acc),
        covered(acc, i, j),
    ensures
        valid_seed(a, b, opts, i, j),
        acc.contains(run_of(a, b, opts, i, j)),
{
    let k = choose|k: int| 0 <= k < acc.len() && in_run(#[trigger] acc[k], i, j);
    let (si, sj) = choose|si: int, sj: int|
        is_seed(a, b, opts, si, sj) && acc[k] == run_of(a, b, opts, si, sj);
    lemma_seed_move(a, b, opts, si, sj, i, j);
    assert(acc[k] == run_of(a, b, opts, i, j));
    assert(acc.contains(run_of(a, b, opts, i, j)));
}

/// Working through one row of candidates keeps the records sound, disjoint
/// and prefix-stable, and afterwards every candidate's run is recorded.
pub proof fn lemma_step_j_props(
    a: Seq<Seq<char>>,
    b: Seq<Seq<char>>,
    opts: Options,
    i: int,
    js: Seq<int>,
    acc: Seq<MatchSpec>,
)
    requires
        acc_sound(a, b, opts, acc),
        acc_disjoint(acc),
        forall|q: int| 0 <= q < js.len() ==> is_seed(a, b, opts, i, #[trigger] js[q]),
    ensures
        acc_sound(a, b, opts, step_j(a, b, opts, i, js, acc)),
        acc_disjoint(step_j(a, b, opts, i, js, acc)),
        step_j(a, b, opts, i, js, acc).len() >= acc.len(),
        forall|k: int| 0 <= k < acc.len() ==> step_j(a, b, opts, i, js, acc)[k] == #[trigger] acc[k],
        forall|q: int|
            0 <= q < js.len() ==> step_j(a, b, opts, i, js, acc).contains(
                run_of(a, b, opts, i, #[trigger] js[q]),
            ),
    decreases js.len(),
{
    let r = step_j(a, b, opts, i, js, acc);
    if js.len() == 0 {
    } else {
        let j = js[0];
        assert(is_seed(a, b, opts, i, j));
        let acc2 = if covered(acc, i, j) {
            acc
        } else {
            acc.push(run_of(a, b, opts, i, j))
        };
        if covered(acc, i, j) {
            lemma_covered_run(a, b, opts, acc, i, j);
        } else {
            assert(acc2[acc.len() as int] == run_of(a, b, opts, i, j));
            assert forall|k: int|
                0 <= k < acc2.len() implies exists|si: int, sj: int|
                is_seed(a, b, opts, si, sj) && #[trigger] acc2[k] == run_of(a, b, opts, si, sj) by {
                if k < acc.len() {
                    assert(acc2[k] == acc[k]);
                } else {
                    assert(is_seed(a, b, opts, i, j) && acc2[k] == run_of(a, b, opts, i, j));
                }
            }
            assert forall|k1: int, k2: int| #![trigger acc2[k1], acc2[k2]]
                0 <= k1 < k2 < acc2.len() implies runs_disjoint(acc2[k1], acc2[k2]) by {
                if k2 < acc.len() {
                    assert(acc2[k1] == acc[k1] && acc2[k2] == acc[k2]);
                } else {
                    assert(acc2[k1] == acc[k1] && acc2[k2] == run_of(a, b, opts, i, j));
                    assert forall|x: int, y: int| #[trigger] in_run(acc[k1], x, y) implies !in_run(
                        run_of(a, b, opts, i, j),
                        x,
                        y,
                    ) by {
                        if in_run(run_of(a, b, opts, i, j), x, y) {
                            let (si, sj) = choose|si: int, sj: int|
                                is_seed(a, b, opts, si, sj) && acc[k1] == run_of(
                                    a,
                                    b,
                                    opts,
                                    si,
                                    sj,
                                );
                            lemma_seed_move(a, b, opts, si, sj, x, y);
                            lemma_seed_move(a, b, opts, i, j, x, y);
                            assert(acc[k1] == run_of(a, b, opts, i, j));
                            lemma_run_props(a, b, opts, i, j);
                            assert(in_run(acc[k1], i, j));
                            assert(covered(acc, i, j));
                            assert(false);
                        }
                    }
                }
            }
        }
        assert forall|q: int|
            0 <= q < js.drop_first().len() implies is_seed(
            a,
            b,
            opts,
            i,
            #[trigger] js.drop_first()[q],
        ) by {
            assert(js.drop_first()[q] == js[q + 1]);
        }
        lemma_step_j_props(a, b, opts, i, js.drop_first(), acc2);
        assert(r == step_j(a, b, opts, i, js.drop_first(), acc2));
        assert forall|k: int| 0 <= k < acc.len() implies r[k] == #[trigger] acc[k] by {
            assert(acc2[k] == acc[k]);
            assert(r[k] == acc2[k]);
        }
        assert forall|q: int|
            0 <= q < js.len() implies r.contains(run_of(a, b, opts, i, #[trigger] js[q])) by {
            if q == 0 {
                if covered(acc, i, j) {
                    let w = choose|w: int|
                        0 <= w < acc.len() && acc[w] == run_of(a, b, opts, i, j);
                    assert(acc2[w] == run_of(a, b, opts, i, j));
                    assert(r[w] == run_of(a, b, opts, i, j));
                    assert(r.contains(run_of(a, b, opts, i, j)));
                } else {
                    assert(acc2[acc.len() as int] == run_of(a, b, opts, i, j));
                    assert(r[acc.len() as int] == run_of(a, b, opts, i, j));
                    assert(r.contains(run_of(a, b, opts, i, j)));
                }
            } else {
                assert(js.drop_first()[q - 1] == js[q]);
            }
        }
    }
}

/// Scanning the rows from `i` on keeps the records sound, disjoint and
/// prefix-stable; once every earlier row's seeds are recorded, afterwards
/// every seed's run is recorded.
pub proof fn lemma_step_i_props(
    a: Seq<Seq<char>>,
    b: Seq<Seq<char>>,
    opts: Options,
    i: int,
    acc: Seq<MatchSpec>,
)
    requires
        0 <= i,
        acc_sound(a, b, opts, acc),
        acc_disjoint(acc),
        forall|x: int, y: int|
            #[trigger] is_seed(a, b, opts, x, y) && x < i ==> acc.contains(run_of(a, b, opts, x, y)),
    ensures
        acc_sound(a, b, opts, step_i(a, b, opts, i, acc)),
        acc_disjoint(step_i(a, b, opts, i, acc)),
        step_i(a, b, opts, i, acc).len() >= acc.len(),
        forall|k: int| 0 <= k < acc.len() ==> step_i(a, b, opts, i, acc)[k] == #[trigger] acc[k],
        forall|x: int, y: int|
            #[trigger] is_seed(a, b, opts, x, y) ==> step_i(a, b, opts, i, acc).contains(
                run_of(a, b, opts, x, y),
            ),
    decreases a.len() - i,
{
    let r = step_i(a, b, opts, i, acc);
    if i < a.len() {
        let key = key_spec(a[i], opts);
        let js = bucket(b, opts, key);
        lemma_bucket_elems(b, opts, key);
        assert forall|q: int| 0 <= q < js.len() implies is_seed(a, b, opts, i, #[trigger] js[q]) by {
            assert(js.contains(js[q]));
        }
        lemma_step_j_props(a, b, opts, i, js, acc);
        let acc2 = step_j(a, b, opts, i, js, acc);
        assert forall|x: int, y: int|
            #[trigger] is_seed(a, b, opts, x, y) && x < i + 1 implies acc2.contains(
            run_of(a, b, opts, x, y),
        ) by {
            if x < i {
                let w = choose|w: int|
                    0 <= w < acc.len() && acc[w] == run_of(a, b, opts, x, y);
                assert(acc2[w] == acc[w]);
                assert(acc2.contains(run_of(a, b, opts, x, y)));
            } else {
                assert(x == i);
                assert(js.contains(y));
                let q = choose|q: int| 0 <= q < js.len() && js[q] == y;
                assert(acc2.contains(run_of(a, b, opts, i, js[q])));
            }
        }
        lemma_step_i_props(a, b, opts, i + 1, acc2);
        assert(r == step_i(a, b, opts, i + 1, acc2));
    } else {
        assert(r == acc);
        assert forall|x: int, y: int|
            #[trigger] is_seed(a, b, opts, x, y) implies r.contains(run_of(a, b, opts, x, y)) by {
            assert(x < i);
        }
    }
}

/// What the engine emits, characterized: a record is reported exactly when
/// it is the maximal run of some discoverable seed pair.
pub proof fn lemma_compare_characterization(a: Seq<Seq<char>>, b: Seq<Seq<char>>, opts: Options)
    ensures
        acc_sound(a, b, opts, spec_compare(a, b, opts)),
        acc_disjoint(spec_compare(a, b, opts)),
        forall|m: MatchSpec|
            #[trigger] spec_compare(a, b, opts).contains(m) <==> exists|i: int, j: int|
                is_seed(a, b, opts, i, j) && m == run_of(a, b, opts, i, j),
{
    let acc0 = Seq::<MatchSpec>::empty();
    lemma_step_i_props(a, b, opts, 0, acc0);
    let r = spec_compare(a, b, opts);
    assert(r == step_i(a, b, opts, 0, acc0));
    assert forall|m: MatchSpec|
        #[trigger] r.contains(m) <==> exists|i: int, j: int|
            is_seed(a, b, opts, i, j) && m == run_of(a, b, opts, i, j) by {
        if r.contains(m) {
            let k = choose|k: int| 0 <= k < r.len() && r[k] == m;
            let (si, sj) = choose|si: int, sj: int|
                is_seed(a, b, opts, si, sj) && r[k] == run_of(a, b, opts, si, sj);
            assert(is_seed(a, b, opts, si, sj) && m == run_of(a, b, opts, si, sj));
        }
        if exists|i: int, j: int| is_seed(a, b, opts, i, j) && m == run_of(a, b, opts, i, j) {
            let (i, j) = choose|i: int, j: int|
                is_seed(a, b, opts, i, j) && m == run_of(a, b, opts, i, j);
            assert(r.contains(run_of(a, b, opts, i, j)));
        }
    }
}


/// Every emitted record is well-formed — its ends are in range and ordered
/// and its run length is the same in both files — its in-range line pairs
/// are equal under the active policy, and it is maximal: the pairs just
/// outside it, where both exist, are not equal.
pub proof fn lemma_emitted_records(a: Seq<Seq<char>>, b: Seq<Seq<char>>, opts: Options)
    ensures
        forall|k: int|
            0 <= k < spec_compare(a, b, opts).len() ==> record_wf(
                a,
                b,
                #[trigger] spec_compare(a, b, opts)[k],
            ) && record_lines_equal(a, b, opts, spec_compare(a, b, opts)[k]) && record_maximal(
                a,
                b,
                opts,
                spec_compare(a, b, opts)[k],
            ),
{
    lemma_compare_characterization(a, b, opts);
    let r = spec_compare(a, b, opts);
    assert forall|k: int|
        0 <= k < r.len() implies record_wf(a, b, #[trigger] r[k]) && record_lines_equal(
        a,
        b,
        opts,
        r[k],
    ) && record_maximal(a, b, opts, r[k]) by {
        let (si, sj) = choose|si: int, sj: int|
            is_seed(a, b, opts, si, sj) && r[k] == run_of(a, b, opts, si, sj);
        lemma_run_props(a, b, opts, si, sj);
    }
}

/// No two emitted records double-count an aligned position pair: the
/// records are pairwise disjoint.
pub proof fn lemma_no_double_count(a: Seq<Seq<char>>, b: Seq<Seq<char>>, opts: Options)
    ensures
        forall|k1: int, k2: int|
            #![trigger spec_compare(a, b, opts)[k1], spec_compare(a, b, opts)[k2]]
            0 <= k1 < k2 < spec_compare(a, b, opts).len() ==> runs_disjoint(
                spec_compare(a, b, opts)[k1],
                spec_compare(a, b, opts)[k2],
            ),
{
    lemma_compare_characterization(a, b, opts);
}

/// Running the engine twice on the same inputs and options yields the same
/// records in the same order: the result is a function of the inputs alone.
pub proof fn lemma_compare_deterministic(
    a: Seq<Seq<char>>,
    b: Seq<Seq<char>>,
    opts: Options,
    r1: Seq<MatchSpec>,
    r2: Seq<MatchSpec>,
)
    requires
        r1 == spec_compare(a, b, opts),
        r2 == spec_compare(a, b, opts),
    ensures
        r1 == r2,
{
}

/// The record with the two files' roles exchanged.
pub open spec fn swap_record(m: MatchSpec) -> MatchSpec {
    MatchSpec {
        start_pos_1: m.start_pos_2,
        end_pos_1: m.end_pos_2,
        start_pos_2: m.start_pos_1,
        end_pos_2: m.end_pos_1,
    }
}

/// Forward expansion is symmetric in the two files.
pub proof fn lemma_fwd_swap(a: Seq<Seq<char>>, b: Seq<Seq<char>>, opts: Options, i: int, j: int)
    requires
        0 <= i,
        0 <= j,
    ensures
        fwd_len(b, a, opts, j, i) == fwd_len(a, b, opts, i, j),
    decreases a.len() - i,
{
    if i + 1 < a.len() && j + 1 < b.len() && line_eq_spec(a[i + 1], b[j + 1], opts) {
        lemma_fwd_swap(a, b, opts, i + 1, j + 1);
    }
}

/// Backward expansion is symmetric in the two files.
pub proof fn lemma_bwd_swap(a: Seq<Seq<char>>, b: Seq<Seq<char>>, opts: Options, i: int, j: int)
    ensures
        bwd_len(b, a, opts, j, i) == bwd_len(a, b, opts, i, j),
    decreases i,
{
    if 1 <= i && 1 <= j && i - 1 < a.len() && j - 1 < b.len() && line_eq_spec(
        a[i - 1],
        b[j - 1],
        opts,
    ) {
        lemma_bwd_swap(a, b, opts, i - 1, j - 1);
    }
}

/// The run of a swapped seed is the swapped run.
pub proof fn lemma_run_swap(a: Seq<Seq<char>>, b: Seq<Seq<char>>, opts: Options, i: int, j: int)
    requires
        0 <= i,
        0 <= j,
    ensures
        run_of(b, a, opts, j, i) == swap_record(run_of(a, b, opts, i, j)),
{
    lemma_fwd_swap(a, b, opts, i, j);
    lemma_bwd_swap(a, b, opts, i, j);
}

/// A pair is discoverable with the files in one order exactly when the
/// swapped pair is discoverable with the files in the other: lines with
/// equal keys are both blank or both not.
pub proof fn lemma_seed_swap(a: Seq<Seq<char>>, b: Seq<Seq<char>>, opts: Options, i: int, j: int)
    ensures
        is_seed(a, b, opts, i, j) == is_seed(b, a, opts, j, i),
{
    if valid_seed(a, b, opts, i, j) {
        lemma_key_blank(a[i], b[j], opts);
    }
}

/// Symmetry under swapping the two input files: a run is reported for
/// `(a, b)` exactly when its swapped form is reported for `(b, a)` — the
/// two scans discover the same set of runs.
pub proof fn lemma_swap_symmetry(a: Seq<Seq<char>>, b: Seq<Seq<char>>, opts: Options)
    ensures
        forall|m: MatchSpec|
            #[trigger] spec_compare(a, b, opts).contains(m) <==> spec_compare(b, a, opts).contains(
                swap_record(m),
            ),
{
    lemma_compare_characterization(a, b, opts);
    lemma_compare_characterization(b, a, opts);
    assert forall|m: MatchSpec|
        #[trigger] spec_compare(a, b, opts).contains(m) <==> spec_compare(b, a, opts).contains(
        swap_record(m),
    ) by {
        if spec_compare(a, b, opts).contains(m) {
            let (i, j) = choose|i: int, j: int|
                is_seed(a, b, opts, i, j) && m == run_of(a, b, opts, i, j);
            lemma_seed_swap(a, b, opts, i, j);
            lemma_run_swap(a, b, opts, i, j);
            assert(is_seed(b, a, opts, j, i) && swap_record(m) == run_of(b, a, opts, j, i));
            assert(spec_compare(b, a, opts).contains(swap_record(m)));
        }
        if spec_compare(b, a, opts).contains(swap_record(m)) {
            let (j2, i2) = choose|j2: int, i2: int|
                is_seed(b, a, opts, j2, i2) && swap_record(m) == run_of(b, a, opts, j2, i2);
            lemma_seed_swap(a, b, opts, i2, j2);
            lemma_run_swap(a, b, opts, i2, j2);
            assert(swap_record(m) == swap_record(run_of(a, b, opts, i2, j2)));
            assert(m == run_of(a, b, opts, i2, j2));
            assert(is_seed(a, b, opts, i2, j2) && m == run_of(a, b, opts, i2, j2));
            assert(spec_compare(a, b, opts).contains(m));
        }
    }
}

} // verus!
