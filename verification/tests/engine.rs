use rsame::chunks::{matching_lines, Chunks};
use rsame::matching::{compare, compare_files, Match};
use rsame::norm::Options;

fn lines(xs: &[&str]) -> Vec<String> {
    xs.iter().map(|s| s.to_string()).collect()
}

fn rec(m: &Match) -> (usize, usize, usize, usize) {
    (m.start_pos_1(), m.end_pos_1(), m.start_pos_2(), m.end_pos_2())
}

fn recs(ms: &[Match]) -> Vec<(usize, usize, usize, usize)> {
    ms.iter().map(rec).collect()
}

fn no_opts() -> Options {
    Options { ignore_whitespace: false, ignore_blank_lines: false }
}

#[test]
fn test_1() {
    let conf = no_opts();

    let file1 = lines(&["a", "b", "x", "c", "d"]);
    let file2 = lines(&["a", "b", "y", "c", "d"]);
    let res = compare_files(conf, file1, file2);

    if res.len() != 2 {
        panic!();
    }
}

#[test]
fn identical_files_one_record() {
    let res = compare_files(no_opts(), lines(&["x", "y", "z"]), lines(&["x", "y", "z"]));
    assert_eq!(recs(&res), vec![(0, 2, 0, 2)]);
}

#[test]
fn disjoint_files_no_record() {
    let res = compare_files(no_opts(), lines(&["a", "b"]), lines(&["c", "d"]));
    assert_eq!(res.len(), 0);
}

#[test]
fn whitespace_folding_boundaries() {
    let opts = Options { ignore_whitespace: true, ignore_blank_lines: false };
    let res = compare_files(opts, lines(&["a", " a ", "b"]), lines(&["a", "a", "b"]));
    // " a " folds to " a ", not to "a": runs of whitespace collapse but do
    // not disappear, so line 1 of the first file matches nothing and the
    // records are three single-line runs.
    assert_eq!(recs(&res), vec![(0, 0, 0, 0), (0, 0, 1, 1), (2, 2, 2, 2)]);
}

#[test]
fn duplicate_line_two_seeds() {
    // "L" stands at positions 1 and 4 of the first file and once at
    // position 2 of the second, whose neighbours match only the first
    // occurrence's neighbours: one seed grows to a three-line run, the
    // other stays a single-line run.
    let res = compare_files(
        no_opts(),
        lines(&["p", "L", "q", "z", "L"]),
        lines(&["w", "p", "L", "q"]),
    );
    assert_eq!(recs(&res), vec![(0, 2, 1, 3), (4, 4, 2, 2)]);
}

#[test]
fn blank_line_policy_expansion() {
    let opts = Options { ignore_whitespace: false, ignore_blank_lines: true };
    let res = compare_files(opts, lines(&["", "x"]), lines(&["", "x"]));
    // The blank line is not indexed and cannot seed a match, but the run
    // seeded at "x" extends backward over it: expansion compares raw line
    // content, and both files are blank at that offset.
    assert_eq!(recs(&res), vec![(0, 1, 0, 1)]);
}

#[test]
fn blank_lines_not_indexed() {
    let opts = Options { ignore_whitespace: false, ignore_blank_lines: true };
    let res = compare_files(opts, lines(&["", " \t"]), lines(&["", "  "]));
    // Whitespace-only lines never seed a match when the policy is on.
    assert_eq!(res.len(), 0);
}

#[test]
fn blank_lines_indexed_without_policy() {
    let res = compare_files(no_opts(), lines(&[""]), lines(&[""]));
    assert_eq!(recs(&res), vec![(0, 0, 0, 0)]);
}

#[test]
fn whitespace_option_changes_outcome() {
    let with = Options { ignore_whitespace: true, ignore_blank_lines: false };
    let a = lines(&["a \t b"]);
    let b = lines(&["a b"]);
    assert_eq!(compare_files(no_opts(), a.clone(), b.clone()).len(), 0);
    assert_eq!(recs(&compare_files(with, a, b)), vec![(0, 0, 0, 0)]);
}

#[test]
fn records_well_formed() {
    let res = compare_files(
        no_opts(),
        lines(&["m", "n", "m", "o", "n", "m"]),
        lines(&["n", "m", "o", "m", "m"]),
    );
    assert!(!res.is_empty());
    for m in &res {
        let (s1, e1, s2, e2) = rec(m);
        assert!(s1 <= e1);
        assert!(s2 <= e2);
        assert_eq!(e1 - s1, e2 - s2);
    }
}

#[test]
fn run_lines_equal_and_maximal() {
    let a = ["p", "L", "q", "z", "L"];
    let b = ["w", "p", "L", "q"];
    let res = compare_files(no_opts(), lines(&a), lines(&b));
    let (s1, e1, s2, e2) = rec(&res[0]);
    assert_eq!((s1, e1, s2, e2), (0, 2, 1, 3));
    for k in 0..=(e1 - s1) {
        assert_eq!(a[s1 + k], b[s2 + k]);
    }
    // The run cannot be extended: its start touches the first file's edge
    // and its end touches the second file's edge.
    assert_eq!(s1, 0);
    assert_eq!(e2, b.len() - 1);
}

#[test]
fn no_pair_double_counted() {
    let res = compare_files(
        no_opts(),
        lines(&["m", "n", "m", "o", "n", "m"]),
        lines(&["n", "m", "o", "m", "m"]),
    );
    let mut pairs: Vec<(usize, usize)> = Vec::new();
    for m in &res {
        let (s1, e1, s2, _) = rec(m);
        for k in 0..=(e1 - s1) {
            let p = (s1 + k, s2 + k);
            assert!(!pairs.contains(&p));
            pairs.push(p);
        }
    }
}

#[test]
fn rerun_gives_same_records() {
    let a = lines(&["u", "v", "u", "w"]);
    let b = lines(&["v", "u", "w", "u"]);
    let r1 = compare_files(no_opts(), a.clone(), b.clone());
    let r2 = compare_files(no_opts(), a, b);
    assert_eq!(r1, r2);
}

#[test]
fn swap_gives_swapped_runs() {
    let a = lines(&["u", "v", "u", "w"]);
    let b = lines(&["v", "u", "w", "u"]);
    let fwd = recs(&compare_files(no_opts(), a.clone(), b.clone()));
    let bwd = recs(&compare_files(no_opts(), b, a));
    let mut swapped: Vec<(usize, usize, usize, usize)> =
        bwd.iter().map(|&(s1, e1, s2, e2)| (s2, e2, s1, e1)).collect();
    let mut fwd_sorted = fwd.clone();
    fwd_sorted.sort();
    swapped.sort();
    assert_eq!(fwd_sorted, swapped);
}

#[test]
fn compare_on_built_stores() {
    let opts = no_opts();
    let c1 = Chunks::new(opts, lines(&["x", "y"]));
    let c2 = Chunks::new(opts, lines(&["y", "x"]));
    let res = compare(opts, &c1, &c2);
    assert_eq!(recs(&res), vec![(0, 0, 1, 1), (1, 1, 0, 0)]);
}

#[test]
fn matching_lines_ascending_positions() {
    let opts = no_opts();
    let store = Chunks::new(opts, lines(&["a", "b", "a", "a"]));
    assert_eq!(matching_lines(opts, "a", &store), vec![0, 2, 3]);
    assert_eq!(matching_lines(opts, "b", &store), vec![1]);
    assert_eq!(matching_lines(opts, "c", &store), Vec::<usize>::new());
}

#[test]
fn matching_lines_respects_blank_policy() {
    let opts = Options { ignore_whitespace: false, ignore_blank_lines: true };
    let store = Chunks::new(opts, lines(&["", "a", "  "]));
    assert_eq!(matching_lines(opts, "", &store), Vec::<usize>::new());
    assert_eq!(matching_lines(opts, "a", &store), vec![1]);
}

#[test]
fn get_line_in_and_out_of_range() {
    let store = Chunks::new(no_opts(), lines(&["only"]));
    assert_eq!(store.get_line(0).map(|s| s.as_str()), Some("only"));
    assert!(store.get_line(1).is_none());
}

#[test]
fn single_line_files() {
    let res = compare_files(no_opts(), lines(&["same"]), lines(&["same"]));
    assert_eq!(recs(&res), vec![(0, 0, 0, 0)]);
}

#[test]
fn empty_files() {
    let res = compare_files(no_opts(), lines(&[]), lines(&[]));
    assert_eq!(res.len(), 0);
}

#[test]
fn clone_keeps_positions() {
    let res = compare_files(no_opts(), lines(&["x"]), lines(&["x"]));
    let copy = res[0].clone();
    assert_eq!(rec(&copy), (0, 0, 0, 0));
}
