//! Edit distance between names, with common prefix and suffix skipped first.

use vstd::prelude::*;
use vstd::std_specs::iter::IteratorSpec;

verus! {

broadcast use vstd::string::axiom_spec_iter, vstd::string::next_postcondition;

/// The characters of `s`.
pub fn chars_of(s: &str) -> (r: Vec<char>)
    ensures
        r@ == s@,
{
    let mut it = s.chars();
    let mut out: Vec<char> = Vec::new();
    loop
        invariant
            out@ + it.remaining() == s@,
            it.decrease() is Some,
        ensures
            out@ == s@,
        decreases it.decrease()->0,
    {
        let ghost old_remaining = it.remaining();
        match it.next() {
            Some(c) => {
                let ghost before = out@;
                out.push(c);
                assert(out@ + it.remaining() =~= before + old_remaining);
            },
            None => {
                assert(out@ + old_remaining =~= out@);
                break;
            },
        }
    }
    out
}


/// Edit distance (insertions, deletions, substitutions of one character) between
/// `a` and `b`, by the last characters.
pub open spec fn lev(a: Seq<char>, b: Seq<char>) -> nat
    decreases a.len() + b.len(),
{
    if a.len() == 0 {
        b.len()
    } else if b.len() == 0 {
        a.len()
    } else {
        let del = lev(a.drop_last(), b) + 1;
        let ins = lev(a, b.drop_last()) + 1;
        let sub = lev(a.drop_last(), b.drop_last()) + if a.last() == b.last() {
            0nat
        } else {
            1nat
        };
        min_nat(min_nat(del, ins), sub)
    }
}

pub open spec fn min_nat(x: nat, y: nat) -> nat {
    if x <= y {
        x
    } else {
        y
    }
}

pub open spec fn max_nat(x: nat, y: nat) -> nat {
    if x >= y {
        x
    } else {
        y
    }
}

/// The distance is at least the difference of the lengths and at most the
/// longer length.
pub proof fn lemma_lev_bounds(a: Seq<char>, b: Seq<char>)
    ensures
        lev(a, b) >= a.len() - b.len(),
        lev(a, b) >= b.len() - a.len(),
        lev(a, b) <= max_nat(a.len(), b.len()),
    decreases a.len() + b.len(),
{
    if a.len() > 0 && b.len() > 0 {
        lemma_lev_bounds(a.drop_last(), b);
        lemma_lev_bounds(a, b.drop_last());
        lemma_lev_bounds(a.drop_last(), b.drop_last());
    }
}

/// The distance does not depend on the order of its arguments.
pub proof fn lemma_lev_symmetric(a: Seq<char>, b: Seq<char>)
    ensures
        lev(a, b) == lev(b, a),
    decreases a.len() + b.len(),
{
    if a.len() > 0 && b.len() > 0 {
        lemma_lev_symmetric(a.drop_last(), b);
        lemma_lev_symmetric(a, b.drop_last());
        lemma_lev_symmetric(a.drop_last(), b.drop_last());
    }
}

/// Dropping the last character of `b` moves the distance by at most one.
proof fn lemma_lev_drop_b(a: Seq<char>, b: Seq<char>)
    requires
        b.len() > 0,
    ensures
        lev(a, b.drop_last()) <= lev(a, b) + 1,
    decreases a.len() + b.len(),
{
    let bp = b.drop_last();
    if a.len() == 0 {
    } else if bp.len() == 0 {
        lemma_lev_bounds(a, b);
    } else {
        let ap = a.drop_last();
        lemma_lev_drop_b(ap, b);
        assert(lev(a, bp) <= lev(ap, bp) + 1);
    }
}

/// Dropping the last character of `a` moves the distance by at most one.
proof fn lemma_lev_drop_a(a: Seq<char>, b: Seq<char>)
    requires
        a.len() > 0,
    ensures
        lev(a.drop_last(), b) <= lev(a, b) + 1,
{
    lemma_lev_symmetric(a, b);
    lemma_lev_symmetric(a.drop_last(), b);
    lemma_lev_drop_b(b, a);
}

/// A common last character can be dropped.
proof fn lemma_lev_same_last(a: Seq<char>, b: Seq<char>)
    requires
        a.len() > 0,
        b.len() > 0,
        a.last() == b.last(),
    ensures
        lev(a, b) == lev(a.drop_last(), b.drop_last()),
{
    lemma_lev_drop_b(a.drop_last(), b);
    lemma_lev_drop_a(a, b.drop_last());
}

/// A common suffix can be dropped.
pub proof fn lemma_lev_suffix(a: Seq<char>, b: Seq<char>, c: Seq<char>)
    ensures
        lev(a + c, b + c) == lev(a, b),
    decreases c.len(),
{
    if c.len() == 0 {
        assert(a + c =~= a);
        assert(b + c =~= b);
    } else {
        let cp = c.drop_last();
        assert((a + c).drop_last() =~= a + cp);
        assert((b + c).drop_last() =~= b + cp);
        lemma_lev_same_last(a + c, b + c);
        lemma_lev_suffix(a, b, cp);
    }
}

/// The distance from `c` to `c + b` is the length of `b`.
proof fn lemma_lev_extend(c: Seq<char>, b: Seq<char>)
    ensures
        lev(c, c + b) == b.len(),
        lev(c + b, c) == b.len(),
    decreases b.len(),
{
    lemma_lev_symmetric(c, c + b);
    if b.len() == 0 {
        assert(c + b =~= c);
        lemma_lev_suffix(Seq::<char>::empty(), Seq::<char>::empty(), c);
        assert(Seq::<char>::empty() + c =~= c);
    } else if c.len() == 0 {
        assert(c + b =~= b);
    } else {
        let bp = b.drop_last();
        assert((c + b).drop_last() =~= c + bp);
        lemma_lev_extend(c, bp);
        lemma_lev_bounds(c.drop_last(), c + b);
        lemma_lev_bounds(c.drop_last(), c + bp);
    }
}

/// A common prefix can be dropped.
pub proof fn lemma_lev_prefix(c: Seq<char>, a: Seq<char>, b: Seq<char>)
    ensures
        lev(c + a, c + b) == lev(a, b),
    decreases a.len() + b.len(),
{
    if a.len() == 0 {
        assert(c + a =~= c);
        lemma_lev_extend(c, b);
    } else if b.len() == 0 {
        assert(c + b =~= c);
        lemma_lev_extend(c, a);
    } else {
        assert((c + a).drop_last() =~= c + a.drop_last());
        assert((c + b).drop_last() =~= c + b.drop_last());
        assert((c + a).last() == a.last());
        assert((c + b).last() == b.last());
        lemma_lev_prefix(c, a.drop_last(), b);
        lemma_lev_prefix(c, a, b.drop_last());
        lemma_lev_prefix(c, a.drop_last(), b.drop_last());
    }
}

/// Number of leading characters `a` and `b` share.
pub open spec fn common_prefix_len(a: Seq<char>, b: Seq<char>) -> nat
    decreases a.len(),
{
    if a.len() == 0 || b.len() == 0 || a[0] != b[0] {
        0
    } else {
        1 + common_prefix_len(a.drop_first(), b.drop_first())
    }
}

/// Number of trailing characters `a` and `b` share.
pub open spec fn common_suffix_len(a: Seq<char>, b: Seq<char>) -> nat
    decreases a.len(),
{
    if a.len() == 0 || b.len() == 0 || a.last() != b.last() {
        0
    } else {
        1 + common_suffix_len(a.drop_last(), b.drop_last())
    }
}

proof fn lemma_common_prefix(a: Seq<char>, b: Seq<char>)
    ensures
        common_prefix_len(a, b) <= a.len(),
        common_prefix_len(a, b) <= b.len(),
        a.take(common_prefix_len(a, b) as int) == b.take(common_prefix_len(a, b) as int),
    decreases a.len(),
{
    let k = common_prefix_len(a, b);
    if a.len() == 0 || b.len() == 0 || a[0] != b[0] {
        assert(a.take(0) =~= b.take(0));
    } else {
        lemma_common_prefix(a.drop_first(), b.drop_first());
        assert(a.take(k as int) =~= seq![a[0]] + a.drop_first().take(k - 1));
        assert(b.take(k as int) =~= seq![b[0]] + b.drop_first().take(k - 1));
    }
}

proof fn lemma_common_suffix(a: Seq<char>, b: Seq<char>)
    ensures
        common_suffix_len(a, b) <= a.len(),
        common_suffix_len(a, b) <= b.len(),
        a.skip(a.len() - common_suffix_len(a, b)) == b.skip(b.len() - common_suffix_len(a, b)),
    decreases a.len(),
{
    let k = common_suffix_len(a, b);
    if a.len() == 0 || b.len() == 0 || a.last() != b.last() {
        assert(a.skip(a.len() as int) =~= b.skip(b.len() as int));
    } else {
        lemma_common_suffix(a.drop_last(), b.drop_last());
        let ap = a.drop_last();
        let bp = b.drop_last();
        assert(a.skip(a.len() - k) =~= ap.skip(ap.len() - (k - 1)).push(a.last()));
        assert(b.skip(b.len() - k) =~= bp.skip(bp.len() - (k - 1)).push(b.last()));
    }
}

/// Number of leading characters `a` and `b` share.
pub fn count_eq(a: &[char], b: &[char]) -> (r: usize)
    ensures
        r == common_prefix_len(a@, b@),
{
    let mut i: usize = 0;
    proof {
        assert(a@.skip(0) =~= a@);
        assert(b@.skip(0) =~= b@);
    }
    while i < a.len() && i < b.len() && a[i] == b[i]
        invariant
            i <= a@.len(),
            i <= b@.len(),
            common_prefix_len(a@, b@) == i + common_prefix_len(a@.skip(i as int), b@.skip(i as int)),
        decreases a@.len() - i,
    {
        proof {
            assert(a@.skip(i as int).drop_first() =~= a@.skip(i + 1));
            assert(b@.skip(i as int).drop_first() =~= b@.skip(i + 1));
        }
        i = i + 1;
    }
    i
}

/// Number of trailing characters `a` and `b` share.
pub fn count_eq_from_end(a: &[char], b: &[char]) -> (r: usize)
    ensures
        r == common_suffix_len(a@, b@),
{
    let mut i: usize = 0;
    proof {
        assert(a@.take(a@.len() as int) =~= a@);
        assert(b@.take(b@.len() as int) =~= b@);
    }
    while i < a.len() && i < b.len() && a[a.len() - 1 - i] == b[b.len() - 1 - i]
        invariant
            i <= a@.len(),
            i <= b@.len(),
            common_suffix_len(a@, b@) == i + common_suffix_len(
                a@.take(a@.len() - i),
                b@.take(b@.len() - i),
            ),
        decreases a@.len() - i,
    {
        proof {
            assert(a@.take(a@.len() - i).drop_last() =~= a@.take(a@.len() - (i + 1)));
            assert(b@.take(b@.len() - i).drop_last() =~= b@.take(b@.len() - (i + 1)));
        }
        i = i + 1;
    }
    i
}

/// Two character sequences split into their common prefix, what differs, and
/// their common suffix.
pub struct DelimDistinct {
    /// Number of leading characters both share.
    pub prefix_len: usize,
    /// The characters of the first sequence between prefix and suffix.
    pub distinct_s1: Vec<char>,
    /// Number of those characters.
    pub s1_len: usize,
    /// The characters of the second sequence between prefix and suffix.
    pub distinct_s2: Vec<char>,
    /// Number of those characters.
    pub s2_len: usize,
    /// Number of trailing characters both share.
    pub suffix_len: usize,
}

/// The split of `a` and `b`: the common suffix is taken first, then the common
/// prefix of what is left.
pub open spec fn delim_spec(a: Seq<char>, b: Seq<char>) -> (nat, Seq<char>, Seq<char>, nat) {
    let suffix = common_suffix_len(a, b);
    let a1 = a.take(a.len() - suffix);
    let b1 = b.take(b.len() - suffix);
    let prefix = common_prefix_len(a1, b1);
    (prefix, a1.skip(prefix as int), b1.skip(prefix as int), suffix)
}

impl DelimDistinct {
    /// Well formed: the counts are the lengths of the distinct parts.
    pub open spec fn wf(&self) -> bool {
        &&& self.s1_len == self.distinct_s1@.len()
        &&& self.s2_len == self.distinct_s2@.len()
        &&& self.prefix_len + self.suffix_len <= usize::MAX
    }

    /// Number of characters both share at their ends.
    pub fn common(&self) -> (r: usize)
        requires
            self.wf(),
        ensures
            r == self.prefix_len + self.suffix_len,
    {
        self.prefix_len + self.suffix_len
    }

    /// Number of distinct characters of each sequence.
    pub fn remaining(&self) -> (r: (usize, usize))
        ensures
            r == (self.s1_len, self.s2_len),
    {
        (self.s1_len, self.s2_len)
    }

    /// Whether both sequences are identical.
    pub fn is_eq(&self) -> (r: bool)
        ensures
            r == (self.s1_len == 0 && self.s2_len == 0),
    {
        let (s1, s2) = self.remaining();
        s1 == 0 && s2 == 0
    }

    /// Number of distinct characters of the second sequence.
    pub fn remaining_s2(&self) -> (r: usize)
        ensures
            r == self.s2_len,
    {
        self.s2_len
    }

    /// Number of distinct characters of the first sequence.
    pub fn remaining_s1(&self) -> (r: usize)
        ensures
            r == self.s1_len,
    {
        self.s1_len
    }

    /// Splits `a` and `b` into their common prefix, their distinct middles and
    /// their common suffix.
    pub fn new_skip_take(a: &[char], b: &[char]) -> (r: DelimDistinct)
        ensures
            r.wf(),
            delim_spec(a@, b@) == (
                r.prefix_len as nat,
                r.distinct_s1@,
                r.distinct_s2@,
                r.suffix_len as nat,
            ),
            lev(r.distinct_s1@, r.distinct_s2@) == lev(a@, b@),
    {
        let suffix_len = count_eq_from_end(a, b);
        proof {
            lemma_common_suffix(a@, b@);
        }
        let a1 = vstd::slice::slice_subrange(a, 0, a.len() - suffix_len);
        let b1 = vstd::slice::slice_subrange(b, 0, b.len() - suffix_len);
        let prefix_len = count_eq(a1, b1);
        proof {
            lemma_common_prefix(a1@, b1@);
        }
        let mut distinct_s1: Vec<char> = Vec::new();
        let mut i: usize = prefix_len;
        while i < a1.len()
            invariant
                prefix_len <= i <= a1@.len(),
                distinct_s1@ == a1@.subrange(prefix_len as int, i as int),
            decreases a1@.len() - i,
        {
            distinct_s1.push(a1[i]);
            i = i + 1;
            assert(a1@.subrange(prefix_len as int, i as int) =~= a1@.subrange(
                prefix_len as int,
                i - 1,
            ).push(a1@[i - 1]));
        }
        let mut distinct_s2: Vec<char> = Vec::new();
        let mut j: usize = prefix_len;
        while j < b1.len()
            invariant
                prefix_len <= j <= b1@.len(),
                distinct_s2@ == b1@.subrange(prefix_len as int, j as int),
            decreases b1@.len() - j,
        {
            distinct_s2.push(b1[j]);
            j = j + 1;
            assert(b1@.subrange(prefix_len as int, j as int) =~= b1@.subrange(
                prefix_len as int,
                j - 1,
            ).push(b1@[j - 1]));
        }
        proof {
            let sa = a@.skip(a@.len() - suffix_len);
            let sb = b@.skip(b@.len() - suffix_len);
            assert(a1@ + sa =~= a@);
            assert(b1@ + sb =~= b@);
            lemma_lev_suffix(a1@, b1@, sa);
            let p = a1@.take(prefix_len as int);
            assert(a1@.subrange(prefix_len as int, a1@.len() as int) =~= a1@.skip(
                prefix_len as int,
            ));
            assert(b1@.subrange(prefix_len as int, b1@.len() as int) =~= b1@.skip(
                prefix_len as int,
            ));
            assert(p + a1@.skip(prefix_len as int) =~= a1@);
            assert(b1@.take(prefix_len as int) + b1@.skip(prefix_len as int) =~= b1@);
            lemma_lev_prefix(p, a1@.skip(prefix_len as int), b1@.skip(prefix_len as int));
        }
        let s1_len = distinct_s1.len();
        let s2_len = distinct_s2.len();
        DelimDistinct { prefix_len, distinct_s1, s1_len, distinct_s2, s2_len, suffix_len }
    }
}


/// Edit distance between strings, optionally cut off above a maximum.
#[derive(Debug, Clone, Copy)]
pub struct Levenshtein {
    /// The largest distance of interest: beyond it the exact value is not
    /// reported.
    max_distance: Option<usize>,
}

/// What `distance` reports for the distance `d` under the cut-off `max`.
pub open spec fn bounded(d: nat, max: Option<usize>) -> Option<usize> {
    match max {
        Some(m) => if d > m {
            None
        } else {
            Some(d as usize)
        },
        None => Some(d as usize),
    }
}

impl Default for Levenshtein {
    fn default() -> (r: Levenshtein)
        ensures
            r.max_spec() is None,
    {
        Levenshtein { max_distance: None }
    }
}

impl Levenshtein {
    pub closed spec fn max_spec(&self) -> Option<usize> {
        self.max_distance
    }

    /// A measure that reports no distance above `max_distance`.
    pub fn with_max_distance(max_distance: usize) -> (r: Levenshtein)
        ensures
            r.max_spec() == Some(max_distance),
    {
        Levenshtein { max_distance: Some(max_distance) }
    }

    /// Edit distance between the characters of `a` and of `b`, or `None` where
    /// it exceeds the maximum distance.
    pub fn str_distance(&self, a: &str, b: &str) -> (r: Option<usize>)
        ensures
            r == bounded(lev(a@, b@), self.max_spec()),
    {
        let ca = chars_of(a);
        let cb = chars_of(b);
        proof {
            lemma_lev_symmetric(a@, b@);
        }
        if ca.len() < cb.len() {
            self.distance(ca.as_slice(), cb.as_slice())
        } else {
            self.distance(cb.as_slice(), ca.as_slice())
        }
    }

    /// Edit distance between `a` and `b`, or `None` where it exceeds the
    /// maximum distance. The common prefix and suffix are skipped first; the
    /// rest is measured one row at a time.
    pub fn distance(&self, a: &[char], b: &[char]) -> (r: Option<usize>)
        ensures
            r == bounded(lev(a@, b@), self.max_spec()),
    {
        let delim = DelimDistinct::new_skip_take(a, b);
        let x = &delim.distinct_s1;
        let y = &delim.distinct_s2;
        proof {
            lemma_lev_bounds(a@, b@);
            lemma_lev_bounds(x@, y@);
        }
        if delim.remaining_s1() == 0 {
            assert(x@ =~= Seq::<char>::empty());
            return self.bounded_result(delim.remaining_s2(), Ghost(lev(a@, b@)));
        }
        if delim.remaining_s2() == 0 {
            assert(y@ =~= Seq::<char>::empty());
            return self.bounded_result(delim.remaining_s1(), Ghost(lev(a@, b@)));
        }
        if let Some(max) = self.max_distance {
            let s1 = delim.remaining_s1();
            let s2 = delim.remaining_s2();
            if (s2 > s1 && s2 - s1 > max) || (s1 > s2 && s1 - s2 > max) {
                return None;
            }
        }
        let d = row_distance(x, y);
        self.bounded_result(d, Ghost(lev(a@, b@)))
    }

    fn bounded_result(&self, d: usize, Ghost(exact): Ghost<nat>) -> (r: Option<usize>)
        requires
            d == exact,
        ensures
            r == bounded(exact, self.max_spec()),
    {
        match self.max_distance {
            Some(m) => if d > m {
                None
            } else {
                Some(d)
            },
            None => Some(d),
        }
    }
}

/// Edit distance between `x` and `y`, computed one row of the distance table
/// at a time: `row[j]` holds the distance from the characters of `x` read so
/// far to the first `j + 1` characters of `y`.
fn row_distance(x: &Vec<char>, y: &Vec<char>) -> (r: usize)
    requires
        x@.len() > 0,
        y@.len() > 0,
    ensures
        r == lev(x@, y@),
{
    let n = x.len();
    let m = y.len();
    let mut row: Vec<usize> = Vec::new();
    let mut k: usize = 0;
    while k < m
        invariant
            k <= m,
            m == y@.len(),
            row@.len() == k,
            forall|j: int| 0 <= j < k ==> row@[j] == lev(x@.take(0), y@.take(j + 1)),
        decreases m - k,
    {
        proof {
            assert(x@.take(0).len() == 0);
        }
        row.push(k + 1);
        k = k + 1;
    }
    let mut i: usize = 0;
    while i < n
        invariant
            i <= n,
            n == x@.len(),
            m == y@.len(),
            m > 0,
            row@.len() == m,
            forall|j: int| 0 <= j < m ==> row@[j] == lev(x@.take(i as int), y@.take(j + 1)),
        decreases n - i,
    {
        let c1 = x[i];
        let mut diag: usize = i;
        let mut left: usize = i + 1;
        proof {
            assert(y@.take(0).len() == 0);
            assert(lev(x@.take(i as int), y@.take(0)) == i);
            assert(lev(x@.take(i + 1), y@.take(0)) == i + 1);
        }
        let mut j: usize = 0;
        while j < m
            invariant
                i < n,
                n == x@.len(),
                m == y@.len(),
                c1 == x@[i as int],
                j <= m,
                row@.len() == m,
                diag == lev(x@.take(i as int), y@.take(j as int)),
                left == lev(x@.take(i + 1), y@.take(j as int)),
                forall|k: int| 0 <= k < j ==> row@[k] == lev(x@.take(i + 1), y@.take(k + 1)),
                forall|k: int| j <= k < m ==> row@[k] == lev(x@.take(i as int), y@.take(k + 1)),
            decreases m - j,
        {
            let ghost xi = x@.take(i + 1);
            let ghost yj = y@.take(j + 1);
            proof {
                assert(xi.drop_last() =~= x@.take(i as int));
                assert(yj.drop_last() =~= y@.take(j as int));
                assert(xi.last() == x@[i as int]);
                assert(yj.last() == y@[j as int]);
                lemma_lev_bounds(x@.take(i as int), yj);
                lemma_lev_bounds(xi, y@.take(j as int));
                lemma_lev_bounds(xi, yj);
            }
            let up = row[j];
            let cost: usize = if c1 == y[j] {
                0
            } else {
                1
            };
            let near: u128 = if up < left {
                up as u128
            } else {
                left as u128
            } + 1;
            let through: u128 = diag as u128 + cost as u128;
            let best128: u128 = if through < near {
                through
            } else {
                near
            };
            assert(best128 == lev(xi, yj));
            let best = best128 as usize;
            diag = up;
            row.set(j, best);
            left = best;
            j = j + 1;
        }
        i = i + 1;
    }
    proof {
        assert(x@.take(n as int) =~= x@);
        assert(y@.take(m as int) =~= y@);
    }
    row[m - 1]
}

} // verus!
