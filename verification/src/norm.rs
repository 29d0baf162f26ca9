//! Line normalization: the whitespace-folding and blank-line policies that
//! govern both indexing and equality testing.

use vstd::prelude::*;

verus! {

/// The two line-normalization policies, independently selectable.
#[derive(Clone, Copy, PartialEq, Eq, Structural, Debug)]
pub struct Options {
    /// Collapse every maximal run of whitespace to a single space before
    /// indexing and before comparing lines.
    pub ignore_whitespace: bool,
    /// Exclude lines that are empty or all-whitespace from the index, so
    /// they can never seed a match.
    pub ignore_blank_lines: bool,
}

impl Options {
    /// A configuration with both policies disabled.
    pub fn none() -> (r: Options)
        ensures
            !r.ignore_whitespace,
            !r.ignore_blank_lines,
    {
        Options { ignore_whitespace: false, ignore_blank_lines: false }
    }
}

/// Whether `c` is a whitespace character (the Unicode `White_Space` set).
pub open spec fn is_space_char(c: char) -> bool {
    ||| c == ' '
    ||| ('\u{09}' <= c && c <= '\u{0d}')
    ||| c == '\u{85}'
    ||| c == '\u{a0}'
    ||| c == '\u{1680}'
    ||| ('\u{2000}' <= c && c <= '\u{200a}')
    ||| c == '\u{2028}'
    ||| c == '\u{2029}'
    ||| c == '\u{202f}'
    ||| c == '\u{205f}'
    ||| c == '\u{3000}'
}

/// Executable test for `is_space_char`.
pub fn char_is_space(c: char) -> (r: bool)
    ensures
        r == is_space_char(c),
{
    c == ' ' || ('\u{09}' <= c && c <= '\u{0d}') || c == '\u{85}' || c == '\u{a0}'
        || c == '\u{1680}' || ('\u{2000}' <= c && c <= '\u{200a}') || c == '\u{2028}'
        || c == '\u{2029}' || c == '\u{202f}' || c == '\u{205f}' || c == '\u{3000}'
}

/// The whitespace-folded form of a line: every maximal run of whitespace
/// characters collapsed to a single space, other characters unchanged.
pub open spec fn spec_squash(s: Seq<char>) -> Seq<char>
    decreases s.len(),
{
    if s.len() == 0 {
        Seq::empty()
    } else {
        let rest = spec_squash(s.drop_first());
        if is_space_char(s[0]) {
            if s.len() > 1 && is_space_char(s[1]) {
                rest
            } else {
                seq![' '].add(rest)
            }
        } else {
            seq![s[0]].add(rest)
        }
    }
}

/// Whether a line is blank: empty or consisting only of whitespace.
pub open spec fn is_blank_spec(s: Seq<char>) -> bool {
    forall|k: int| 0 <= k < s.len() ==> is_space_char(s[k])
}

/// The lookup key of a line under `opts`: its whitespace-folded form when
/// `ignore_whitespace` is set, the line itself otherwise.
pub open spec fn key_spec(s: Seq<char>, opts: Options) -> Seq<char> {
    if opts.ignore_whitespace {
        spec_squash(s)
    } else {
        s
    }
}

/// The equality policy: two lines are equal iff their keys under `opts`
/// coincide (whitespace-folded comparison when `ignore_whitespace` is set,
/// exact comparison otherwise).
pub open spec fn line_eq_spec(a: Seq<char>, b: Seq<char>, opts: Options) -> bool {
    key_spec(a, opts) == key_spec(b, opts)
}

/// Whether a line takes part in the index under `opts`: every line does,
/// unless `ignore_blank_lines` is set and the line is blank.
pub open spec fn indexed_spec(s: Seq<char>, opts: Options) -> bool {
    !opts.ignore_blank_lines || !is_blank_spec(s)
}

/// The characters of `s`, as a vector.
pub fn str_chars(s: &str) -> (r: Vec<char>)
    ensures
        r@ == s@,
{
    let n: usize = s.unicode_len();
    let mut r: Vec<char> = Vec::new();
    let mut i: usize = 0;
    while i < n
        invariant
            n == s@.len(),
            0 <= i <= n,
            r@ == s@.take(i as int),
        decreases n - i,
    {
        let c = s.get_char(i);
        r.push(c);
        proof {
            assert(s@.take(i + 1) =~= s@.take(i as int).push(s@[i as int]));
        }
        i = i + 1;
    }
    proof {
        assert(s@.take(n as int) =~= s@);
    }
    r
}

/// Collapse every maximal run of whitespace in `s` to a single space.
pub fn squash_whitespace(s: &str) -> (r: Vec<char>)
    ensures
        r@ == spec_squash(s@),
{
    let n: usize = s.unicode_len();
    let mut r: Vec<char> = Vec::new();
    let mut i: usize = 0;
    proof {
        assert(s@.skip(0) =~= s@);
        assert(r@.add(spec_squash(s@)) =~= spec_squash(s@));
    }
    while i < n
        invariant
            n == s@.len(),
            0 <= i <= n,
            r@.add(spec_squash(s@.skip(i as int))) == spec_squash(s@),
        decreases n - i,
    {
        let c = s.get_char(i);
        proof {
            assert(s@.skip(i as int).drop_first() =~= s@.skip(i + 1));
            assert(s@.skip(i as int)[0] == s@[i as int]);
        }
        if !char_is_space(c) {
            r.push(c);
            proof {
                assert(spec_squash(s@.skip(i as int)) == seq![s@[i as int]].add(
                    spec_squash(s@.skip(i + 1)),
                ));
                assert(r@.add(spec_squash(s@.skip(i + 1))) =~= spec_squash(s@));
            }
        } else if i + 1 < n && char_is_space(s.get_char(i + 1)) {
            proof {
                assert(s@.skip(i as int).len() > 1);
                assert(s@.skip(i as int)[1] == s@[i + 1]);
                assert(spec_squash(s@.skip(i as int)) == spec_squash(s@.skip(i + 1)));
            }
        } else {
            r.push(' ');
            proof {
                assert(spec_squash(s@.skip(i as int)) == seq![' '].add(
                    spec_squash(s@.skip(i + 1)),
                ));
                assert(r@.add(spec_squash(s@.skip(i + 1))) =~= spec_squash(s@));
            }
        }
        i = i + 1;
    }
    proof {
        assert(s@.skip(n as int) =~= Seq::<char>::empty());
        assert(r@.add(Seq::<char>::empty()) =~= r@);
    }
    r
}

/// Whether the line is empty or consists only of whitespace.
pub fn line_is_blank(s: &str) -> (r: bool)
    ensures
        r == is_blank_spec(s@),
{
    let n: usize = s.unicode_len();
    let mut i: usize = 0;
    while i < n
        invariant
            n == s@.len(),
            0 <= i <= n,
            forall|k: int| 0 <= k < i ==> is_space_char(s@[k]),
        decreases n - i,
    {
        if !char_is_space(s.get_char(i)) {
            return false;
        }
        i = i + 1;
    }
    true
}

/// Element-wise equality of two character vectors.
pub fn vec_chars_eq(a: &Vec<char>, b: &Vec<char>) -> (r: bool)
    ensures
        r == (a@ == b@),
{
    if a.len() != b.len() {
        return false;
    }
    let n: usize = a.len();
    let mut i: usize = 0;
    while i < n
        invariant
            n == a@.len(),
            a@.len() == b@.len(),
            0 <= i <= n,
            forall|k: int| 0 <= k < i ==> a@[k] == b@[k],
        decreases n - i,
    {
        if a[i] != b[i] {
            return false;
        }
        i = i + 1;
    }
    proof {
        assert(a@ =~= b@);
    }
    true
}

/// Whether the two lines have the same whitespace-folded form.
pub fn eq_ignoring_whitespace(str1: &str, str2: &str) -> (r: bool)
    ensures
        r == (spec_squash(str1@) == spec_squash(str2@)),
{
    let a = squash_whitespace(str1);
    let b = squash_whitespace(str2);
    vec_chars_eq(&a, &b)
}

/// The lookup key of a line under `opts`, as a vector of characters.
pub fn key_of(s: &str, opts: Options) -> (r: Vec<char>)
    ensures
        r@ == key_spec(s@, opts),
{
    if opts.ignore_whitespace {
        squash_whitespace(s)
    } else {
        str_chars(s)
    }
}

/// Whether two lines are equal under the equality policy of `opts`.
pub fn lines_equal(str1: &str, str2: &str, opts: Options) -> (r: bool)
    ensures
        r == line_eq_spec(str1@, str2@, opts),
{
    if opts.ignore_whitespace {
        eq_ignoring_whitespace(str1, str2)
    } else {
        let a = str_chars(str1);
        let b = str_chars(str2);
        vec_chars_eq(&a, &b)
    }
}

/// A non-empty line is blank exactly when its first character is whitespace
/// and the rest of it is blank.
pub proof fn lemma_blank_unfold(s: Seq<char>)
    requires
        s.len() > 0,
    ensures
        is_blank_spec(s) == (is_space_char(s[0]) && is_blank_spec(s.drop_first())),
{
    if is_space_char(s[0]) && is_blank_spec(s.drop_first()) {
        assert forall|k: int| 0 <= k < s.len() implies is_space_char(s[k]) by {
            if k > 0 {
                assert(s[k] == s.drop_first()[k - 1]);
            }
        }
    }
    if is_blank_spec(s) {
        assert forall|k: int| 0 <= k < s.drop_first().len() implies is_space_char(
            s.drop_first()[k],
        ) by {
            assert(s.drop_first()[k] == s[k + 1]);
        }
    }
}

/// Whitespace-folding does not change whether a line is blank: the folded
/// form has a non-space character exactly where the original does.
pub proof fn lemma_squash_blank(s: Seq<char>)
    ensures
        is_blank_spec(spec_squash(s)) == is_blank_spec(s),
    decreases s.len(),
{
    if s.len() == 0 {
    } else {
        lemma_squash_blank(s.drop_first());
        lemma_blank_unfold(s);
        let rest = spec_squash(s.drop_first());
        if is_space_char(s[0]) {
            if s.len() > 1 && is_space_char(s[1]) {
            } else {
                assert(spec_squash(s) == seq![' '].add(rest));
                lemma_blank_unfold(spec_squash(s));
                assert(spec_squash(s)[0] == ' ');
                assert(spec_squash(s).drop_first() =~= rest);
            }
        } else {
            assert(spec_squash(s) == seq![s[0]].add(rest));
            assert(!is_space_char(spec_squash(s)[0]));
            assert(!is_blank_spec(spec_squash(s)));
            assert(!is_blank_spec(s));
        }
    }
}

/// Two lines with the same key under `opts` are both blank or both not.
pub proof fn lemma_key_blank(a: Seq<char>, b: Seq<char>, opts: Options)
    requires
        key_spec(a, opts) == key_spec(b, opts),
    ensures
        is_blank_spec(a) == is_blank_spec(b),
{
    if opts.ignore_whitespace {
        lemma_squash_blank(a);
        lemma_squash_blank(b);
    }
}

} // verus!
