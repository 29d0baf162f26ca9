//! The Indexed Line Store: one file's line sequence together with a lookup
//! from normalization key to the ascending list of positions bearing it.

use vstd::prelude::*;
use crate::norm::{Options, key_spec, indexed_spec, key_of, line_is_blank, vec_chars_eq};

verus! {

/// The ascending list of positions in `lines` whose line is indexed under
/// `opts` and whose normalization key is `key`.
pub open spec fn bucket(lines: Seq<Seq<char>>, opts: Options, key: Seq<char>) -> Seq<int>
    decreases lines.len(),
{
    if lines.len() == 0 {
        Seq::empty()
    } else {
        let prefix = bucket(lines.drop_last(), opts, key);
        if indexed_spec(lines.last(), opts) && key_spec(lines.last(), opts) == key {
            prefix.push(lines.len() - 1)
        } else {
            prefix
        }
    }
}

/// A position stands in `bucket(lines, opts, key)` exactly when it is in
/// range, indexed under `opts`, and bears the key `key`; and the bucket
/// lists positions in strictly ascending order.
pub proof fn lemma_bucket_elems(lines: Seq<Seq<char>>, opts: Options, key: Seq<char>)
    ensures
        forall|p: int|
            #[trigger] bucket(lines, opts, key).contains(p) <==> (0 <= p < lines.len()
                && indexed_spec(lines[p], opts) && key_spec(lines[p], opts) == key),
        forall|k1: int, k2: int|
            0 <= k1 < k2 < bucket(lines, opts, key).len() ==> bucket(lines, opts, key)[k1]
                < bucket(lines, opts, key)[k2],
    decreases lines.len(),
{
    if lines.len() == 0 {
    } else {
        let sub = lines.drop_last();
        lemma_bucket_elems(sub, opts, key);
        let b = bucket(lines, opts, key);
        let bp = bucket(sub, opts, key);
        assert(forall|p: int| 0 <= p < sub.len() ==> sub[p] == lines[p]);
        assert(forall|p: int| #[trigger] bp.contains(p) ==> 0 <= p < sub.len());
        if indexed_spec(lines.last(), opts) && key_spec(lines.last(), opts) == key {
            assert(b == bp.push(lines.len() - 1));
            assert forall|p: int| #[trigger] b.contains(p) implies (0 <= p < lines.len()
                && indexed_spec(lines[p], opts) && key_spec(lines[p], opts) == key) by {
                let k = choose|k: int| 0 <= k < b.len() && b[k] == p;
                if k < bp.len() {
                    assert(bp.contains(p));
                } else {
                    assert(p == lines.len() - 1);
                }
            }
            assert forall|p: int|
                (0 <= p < lines.len() && indexed_spec(lines[p], opts) && key_spec(lines[p], opts)
                    == key) implies #[trigger] b.contains(p) by {
                if p < lines.len() - 1 {
                    assert(bp.contains(p));
                    let k = choose|k: int| 0 <= k < bp.len() && bp[k] == p;
                    assert(b[k] == p);
                } else {
                    assert(b[b.len() - 1] == p);
                }
            }
            assert forall|k1: int, k2: int| 0 <= k1 < k2 < b.len() implies b[k1] < b[k2] by {
                if k2 < bp.len() {
                } else {
                    assert(bp.contains(bp[k1]));
                    assert(b[k2] == lines.len() - 1);
                }
            }
        } else {
            assert(b == bp);
            assert forall|p: int|
                (0 <= p < lines.len() && indexed_spec(lines[p], opts) && key_spec(lines[p], opts)
                    == key) implies #[trigger] b.contains(p) by {
                assert(p != lines.len() - 1);
                assert(bp.contains(p));
            }
        }
    }
}

/// Whether `ps` lists exactly the positions of `bucket(lines, opts, key)`,
/// in the same order.
pub open spec fn entry_ok(key: Seq<char>, ps: Seq<usize>, lines: Seq<Seq<char>>, opts: Options) -> bool {
    &&& ps.len() == bucket(lines, opts, key).len()
    &&& forall|k: int| 0 <= k < ps.len() ==> ps[k] as int == bucket(lines, opts, key)[k]
}

/// One file's lines together with the key-to-positions lookup built from
/// them under a fixed option set.
pub struct Chunks {
    lines: Vec<String>,
    lookup: Vec<(Vec<char>, Vec<usize>)>,
}

impl Chunks {
    /// The line sequence the store was built from.
    pub closed spec fn lines_view(&self) -> Seq<Seq<char>> {
        self.lines.deep_view()
    }

    /// The number of entries in the store's lookup.
    pub closed spec fn lookup_len_spec(&self) -> nat {
        self.lookup@.len()
    }

    /// The key of lookup entry `e`.
    pub closed spec fn lookup_key_at(&self, e: int) -> Seq<char> {
        self.lookup@[e].0@
    }

    /// The position list of lookup entry `e`.
    pub closed spec fn lookup_ps_at(&self, e: int) -> Seq<usize> {
        self.lookup@[e].1@
    }

    /// Well-formedness under `opts`: the lookup holds exactly the buckets of
    /// the line sequence — each entry's positions are its key's bucket, keys
    /// are distinct, and every non-empty bucket has an entry.
    pub open spec fn wf(&self, opts: Options) -> bool {
        &&& forall|e: int|
            0 <= e < self.lookup_len_spec() ==> entry_ok(
                #[trigger] self.lookup_key_at(e),
                self.lookup_ps_at(e),
                self.lines_view(),
                opts,
            )
        &&& forall|e1: int, e2: int|
            0 <= e1 < e2 < self.lookup_len_spec() ==> #[trigger] self.lookup_key_at(e1)
                != #[trigger] self.lookup_key_at(e2)
        &&& forall|key: Seq<char>|
            bucket(self.lines_view(), opts, key).len() > 0 ==> exists|e: int|
                0 <= e < self.lookup_len_spec() && #[trigger] self.lookup_key_at(e) == key
    }

    /// Build the lookup for `lines` under `opts`: walk the lines in order,
    /// skip the ones excluded by the blank-line policy, and append each
    /// remaining position to its key's list.
    pub fn make_lookup(opts: Options, lines: &Vec<String>) -> (lookup: Vec<(Vec<char>, Vec<usize>)>)
        ensures
            forall|e: int|
                0 <= e < lookup@.len() ==> entry_ok(
                    (#[trigger] lookup@[e]).0@,
                    lookup@[e].1@,
                    lines.deep_view(),
                    opts,
                ),
            forall|e1: int, e2: int|
                0 <= e1 < e2 < lookup@.len() ==> (#[trigger] lookup@[e1]).0@ != (
                #[trigger] lookup@[e2]).0@,
            forall|key: Seq<char>|
                bucket(lines.deep_view(), opts, key).len() > 0 ==> exists|e: int|
                    0 <= e < lookup@.len() && (#[trigger] lookup@[e]).0@ == key,
    {
        let ghost all = lines.deep_view();
        let mut lookup: Vec<(Vec<char>, Vec<usize>)> = Vec::new();
        let n: usize = lines.len();
        let mut i: usize = 0;
        proof {
            assert(all.take(0) =~= Seq::<Seq<char>>::empty());
        }
        while i < n
            invariant
                n == lines@.len(),
                all == lines.deep_view(),
                0 <= i <= n,
                forall|e: int|
                    0 <= e < lookup@.len() ==> entry_ok(
                        (#[trigger] lookup@[e]).0@,
                        lookup@[e].1@,
                        all.take(i as int),
                        opts,
                    ),
                forall|e1: int, e2: int|
                    0 <= e1 < e2 < lookup@.len() ==> (#[trigger] lookup@[e1]).0@ != (
                    #[trigger] lookup@[e2]).0@,
                forall|key: Seq<char>|
                    bucket(all.take(i as int), opts, key).len() > 0 ==> exists|e: int|
                        0 <= e < lookup@.len() && (#[trigger] lookup@[e]).0@ == key,
            decreases n - i,
        {
            let ghost lookup0 = lookup@;
            let line: &String = &lines[i];
            proof {
                assert(line@ == all[i as int]);
                assert(all.take(i + 1).drop_last() =~= all.take(i as int));
                assert(all.take(i + 1).last() == all[i as int]);
            }
            let keep = if opts.ignore_blank_lines {
                !line_is_blank(line.as_str())
            } else {
                true
            };
            if keep {
                let key = key_of(line.as_str(), opts);
                let mut found: bool = false;
                let mut at: usize = 0;
                let m: usize = lookup.len();
                let mut e: usize = 0;
                while e < m && !found
                    invariant
                        m == lookup@.len(),
                        0 <= e <= m,
                        !found ==> forall|q: int| 0 <= q < e ==> (#[trigger] lookup@[q]).0@ != key@,
                        found ==> at < m && lookup@[at as int].0@ == key@,
                    decreases m - e, (if found { 0int } else { 1int }),
                {
                    if vec_chars_eq(&lookup[e].0, &key) {
                        found = true;
                        at = e;
                    } else {
                        e = e + 1;
                    }
                }
                proof {
                    assert forall|k: Seq<char>| #![trigger bucket(all.take(i as int), opts, k)]
                        bucket(all.take(i as int), opts, k).len() > 0 implies exists|q: int|
                        0 <= q < lookup0.len() && (#[trigger] lookup0[q]).0@ == k by {
                        let q = choose|q: int|
                            0 <= q < lookup@.len() && (#[trigger] lookup@[q]).0@ == k;
                        assert(lookup0[q].0@ == k);
                    }
                    if found {
                        assert(lookup0[at as int].0@ == key@);
                        assert forall|q: int|
                            0 <= q < lookup0.len() && q != at implies (#[trigger] lookup0[q]).0@
                            != key@ by {
                            if q < at {
                                assert(lookup0[q].0@ != lookup0[at as int].0@);
                            } else {
                                assert(lookup0[at as int].0@ != lookup0[q].0@);
                            }
                        }
                    } else {
                        assert forall|q: int| 0 <= q < lookup0.len() implies (
                        #[trigger] lookup0[q]).0@ != key@ by {
                            assert(lookup@[q].0@ != key@);
                        }
                    }
                    assert(bucket(all.take(i + 1), opts, key@) == bucket(
                        all.take(i as int),
                        opts,
                        key@,
                    ).push(i as int));
                    assert forall|k: Seq<char>| k != key@ implies bucket(all.take(i + 1), opts, k)
                        == bucket(all.take(i as int), opts, k) by {}
                }
                if found {
                    let entry = &mut lookup[at];
                    entry.1.push(i);
                    proof {
                        let done = all.take(i + 1);
                        assert(lookup@.len() == lookup0.len());
                        assert(forall|q: int|
                            0 <= q < lookup@.len() && q != at ==> lookup@[q] == lookup0[q]);
                        assert(lookup@[at as int].0 == lookup0[at as int].0);
                        assert(lookup@[at as int].1@ =~= lookup0[at as int].1@.push(i as usize));
                        assert forall|q: int| 0 <= q < lookup@.len() implies entry_ok(
                            (#[trigger] lookup@[q]).0@,
                            lookup@[q].1@,
                            done,
                            opts,
                        ) by {
                            if q == at {
                                let bprev = bucket(all.take(i as int), opts, key@);
                                let ps = lookup@[q].1@;
                                assert(entry_ok(key@, lookup0[q].1@, all.take(i as int), opts));
                                assert forall|k: int| 0 <= k < ps.len() implies ps[k] as int
                                    == bucket(done, opts, key@)[k] by {
                                    if k < ps.len() - 1 {
                                        assert(ps[k] == lookup0[q].1@[k]);
                                        assert(bucket(done, opts, key@)[k] == bprev[k]);
                                    } else {
                                        assert(ps[k] == i as usize);
                                        assert(bucket(done, opts, key@)[k] == i as int);
                                    }
                                }
                            } else {
                                assert(entry_ok(
                                    lookup0[q].0@,
                                    lookup0[q].1@,
                                    all.take(i as int),
                                    opts,
                                ));
                                assert(lookup@[q].0@ != key@);
                            }
                        }
                        assert forall|k: Seq<char>| bucket(done, opts, k).len() > 0 implies exists|
                            q: int,
                        | 0 <= q < lookup@.len() && (#[trigger] lookup@[q]).0@ == k by {
                            if k == key@ {
                                assert(lookup@[at as int].0@ == k);
                            } else {
                                assert(bucket(done, opts, k) == bucket(all.take(i as int), opts, k));
                                assert(bucket(all.take(i as int), opts, k).len() > 0);
                                let q = choose|q: int|
                                    0 <= q < lookup0.len() && (#[trigger] lookup0[q]).0@ == k;
                                assert(lookup@[q].0@ == k);
                            }
                        }
                    }
                } else {
                    let mut ps: Vec<usize> = Vec::new();
                    ps.push(i);
                    lookup.push((key, ps));
                    proof {
                        let done = all.take(i + 1);
                        let last = lookup0.len() as int;
                        assert(lookup@.len() == lookup0.len() + 1);
                        assert(forall|q: int| 0 <= q < lookup0.len() ==> lookup@[q] == lookup0[q]);
                        assert(lookup@[last].0@ == key@);
                        assert(lookup@[last].1@ =~= seq![i as usize]);
                        assert(bucket(all.take(i as int), opts, key@).len() == 0) by {
                            if bucket(all.take(i as int), opts, key@).len() > 0 {
                                let q = choose|q: int|
                                    0 <= q < lookup0.len() && (#[trigger] lookup0[q]).0@ == key@;
                                assert(false);
                            }
                        }
                        assert forall|q: int| 0 <= q < lookup@.len() implies entry_ok(
                            (#[trigger] lookup@[q]).0@,
                            lookup@[q].1@,
                            done,
                            opts,
                        ) by {
                            if q < last {
                                assert(entry_ok(
                                    lookup0[q].0@,
                                    lookup0[q].1@,
                                    all.take(i as int),
                                    opts,
                                ));
                                assert(lookup0[q].0@ != key@);
                            } else {
                                assert(bucket(done, opts, key@) =~= seq![i as int]);
                            }
                        }
                        assert forall|k: Seq<char>| bucket(done, opts, k).len() > 0 implies exists|
                            q: int,
                        | 0 <= q < lookup@.len() && (#[trigger] lookup@[q]).0@ == k by {
                            if k == key@ {
                                assert(lookup@[last].0@ == k);
                            } else {
                                assert(bucket(done, opts, k) == bucket(all.take(i as int), opts, k));
                                assert(bucket(all.take(i as int), opts, k).len() > 0);
                                let q = choose|q: int|
                                    0 <= q < lookup0.len() && (#[trigger] lookup0[q]).0@ == k;
                                assert(lookup@[q].0@ == k);
                            }
                        }
                        assert forall|e1: int, e2: int| 0 <= e1 < e2 < lookup@.len() implies (
                        #[trigger] lookup@[e1]).0@ != (#[trigger] lookup@[e2]).0@ by {
                            if e2 == last {
                                assert(lookup0[e1].0@ != key@);
                            }
                        }
                    }
                }
            } else {
                proof {
                    assert(!indexed_spec(all[i as int], opts));
                    assert forall|k: Seq<char>| #![trigger bucket(all.take(i + 1), opts, k)]
                        bucket(all.take(i + 1), opts, k) == bucket(all.take(i as int), opts, k)
                        && (bucket(all.take(i + 1), opts, k).len() > 0 ==> exists|e2: int|
                            0 <= e2 < lookup@.len() && (#[trigger] lookup@[e2]).0@ == k) by {
                        assert(bucket(all.take(i + 1), opts, k) == bucket(
                            all.take(i as int),
                            opts,
                            k,
                        ));
                    }
                }
            }
            i = i + 1;
        }
        proof {
            assert(all.take(n as int) =~= all);
        }
        lookup
    }

    /// The number of lines in the store.
    pub fn len(&self) -> (r: usize)
        ensures
            r == self.lines_view().len(),
    {
        self.lines.len()
    }

    /// The line at `index`, which must be in range.
    pub fn line_ref(&self, index: usize) -> (r: &String)
        requires
            index < self.lines_view().len(),
        ensures
            r@ == self.lines_view()[index as int],
    {
        &self.lines[index]
    }

    /// The line at `index`, or nothing when `index` is out of range.
    pub fn get_line(self: &Self, index: usize) -> (r: Option<&String>)
        ensures
            index < self.lines_view().len() ==> r is Some && r->0@ == self.lines_view()[
                index as int],
            index >= self.lines_view().len() ==> r is None,
    {
        if index < self.lines.len() {
            Some(&self.lines[index])
        } else {
            None
        }
    }

    /// Build the store for `lines` under `opts`.
    pub fn new(opts: Options, lines: Vec<String>) -> (r: Chunks)
        ensures
            r.wf(opts),
            r.lines_view() == lines.deep_view(),
    {
        let lookup = Chunks::make_lookup(opts, &lines);
        let r = Chunks { lookup, lines };
        proof {
            assert forall|e: int| 0 <= e < r.lookup_len_spec() implies entry_ok(
                #[trigger] r.lookup_key_at(e),
                r.lookup_ps_at(e),
                r.lines_view(),
                opts,
            ) by {
                assert(entry_ok(r.lookup@[e].0@, r.lookup@[e].1@, r.lines.deep_view(), opts));
            }
            assert forall|e1: int, e2: int|
                0 <= e1 < e2 < r.lookup_len_spec() implies #[trigger] r.lookup_key_at(e1)
                != #[trigger] r.lookup_key_at(e2) by {
                assert(r.lookup@[e1].0@ != r.lookup@[e2].0@);
            }
            assert forall|key: Seq<char>|
                bucket(r.lines_view(), opts, key).len() > 0 implies exists|e: int|
                0 <= e < r.lookup_len_spec() && #[trigger] r.lookup_key_at(e) == key by {
                assert(bucket(r.lines.deep_view(), opts, key).len() > 0);
                let q = choose|q: int|
                    0 <= q < r.lookup@.len() && (#[trigger] r.lookup@[q]).0@ == key;
                assert(r.lookup_key_at(q) == key);
            }
        }
        r
    }

    /// The number of entries in the lookup.
    pub fn lookup_len(&self) -> (r: usize)
        ensures
            r == self.lookup_len_spec(),
    {
        self.lookup.len()
    }

    /// Whether entry `e` of the lookup bears the key `key`.
    pub fn lookup_key_eq(&self, e: usize, key: &Vec<char>) -> (r: bool)
        requires
            e < self.lookup_len_spec(),
        ensures
            r == (self.lookup_key_at(e as int) == key@),
    {
        vec_chars_eq(&self.lookup[e].0, key)
    }

    /// A copy of the position list of entry `e` of the lookup.
    pub fn lookup_positions(&self, e: usize) -> (r: Vec<usize>)
        requires
            e < self.lookup_len_spec(),
        ensures
            r@ == self.lookup_ps_at(e as int),
    {
        let mut r: Vec<usize> = Vec::new();
        let src: &Vec<usize> = &self.lookup[e].1;
        let n: usize = src.len();
        let mut i: usize = 0;
        while i < n
            invariant
                n == src@.len(),
                0 <= i <= n,
                r@ == src@.take(i as int),
            decreases n - i,
        {
            r.push(src[i]);
            proof {
                assert(src@.take(i + 1) =~= src@.take(i as int).push(src@[i as int]));
            }
            i = i + 1;
        }
        proof {
            assert(src@.take(n as int) =~= src@);
        }
        r
    }
}

/// The positions listed in the store's lookup under `key`: the key's bucket,
/// or the empty list when no line bears the key.
pub fn chunk_lookup(chunks: &Chunks, key: &Vec<char>, opts: Options) -> (r: Vec<usize>)
    requires
        chunks.wf(opts),
    ensures
        r@.len() == bucket(chunks.lines_view(), opts, key@).len(),
        forall|k: int|
            0 <= k < r@.len() ==> r@[k] as int == bucket(chunks.lines_view(), opts, key@)[k],
{
    let m: usize = chunks.lookup_len();
    let mut e: usize = 0;
    while e < m
        invariant
            chunks.wf(opts),
            m == chunks.lookup_len_spec(),
            0 <= e <= m,
            forall|q: int| 0 <= q < e ==> #[trigger] chunks.lookup_key_at(q) != key@,
        decreases m - e,
    {
        if chunks.lookup_key_eq(e, key) {
            let r = chunks.lookup_positions(e);
            proof {
                assert(entry_ok(chunks.lookup_key_at(e as int), r@, chunks.lines_view(), opts));
            }
            return r;
        }
        e = e + 1;
    }
    proof {
        if bucket(chunks.lines_view(), opts, key@).len() > 0 {
            let q = choose|q: int|
                0 <= q < chunks.lookup_len_spec() && #[trigger] chunks.lookup_key_at(q) == key@;
            assert(false);
        }
    }
    Vec::new()
}

/// The candidate positions in `chunks` for the line `l` under `opts`: the
/// positions whose key equals the key of `l`.
pub fn matching_lines(opts: Options, l: &str, chunks: &Chunks) -> (r: Vec<usize>)
    requires
        chunks.wf(opts),
    ensures
        r@.len() == bucket(chunks.lines_view(), opts, key_spec(l@, opts)).len(),
        forall|k: int|
            0 <= k < r@.len() ==> r@[k] as int == bucket(
                chunks.lines_view(),
                opts,
                key_spec(l@, opts),
            )[k],
{
    let key = key_of(l, opts);
    chunk_lookup(chunks, &key, opts)
}

} // verus!
