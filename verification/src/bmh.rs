//! Boyer-Moore-Horspool substring search.
use vstd::prelude::*;

verus! {

/// A byte in lower case, if it is an ASCII capital.
pub open spec fn lower(b: u8) -> u8 {
    if 65 <= b <= 90 {
        (b + 32) as u8
    } else {
        b
    }
}

/// A byte in upper case, if it is an ASCII small letter.
pub open spec fn upper(b: u8) -> u8 {
    if 97 <= b <= 122 {
        (b - 32) as u8
    } else {
        b
    }
}

/// A byte as it is compared.
pub open spec fn fold(b: u8, case_insensitive: bool) -> u8 {
    if case_insensitive {
        lower(b)
    } else {
        b
    }
}

/// A pattern as it is compared.
pub open spec fn fold_all(pattern: Seq<u8>, case_insensitive: bool) -> Seq<u8> {
    pattern.map_values(|b: u8| fold(b, case_insensitive))
}

/// Whether `needle` occurs in `haystack` at `i`.
pub open spec fn occurs_at(
    needle: Seq<u8>,
    haystack: Seq<u8>,
    case_insensitive: bool,
    i: int,
) -> bool {
    &&& 0 <= i
    &&& i + needle.len() <= haystack.len()
    &&& forall|j: int|
        0 <= j < needle.len() ==> fold(#[trigger] haystack[i + j], case_insensitive) == needle[j]
}

/// The first place at or after `start` where `needle` occurs. An empty needle
/// occurs everywhere.
pub open spec fn first_from(
    needle: Seq<u8>,
    haystack: Seq<u8>,
    case_insensitive: bool,
    start: int,
) -> Option<usize>
    decreases haystack.len() - start,
{
    if needle.len() == 0 {
        Some(start as usize)
    } else if start + needle.len() > haystack.len() {
        None
    } else if occurs_at(needle, haystack, case_insensitive, start) {
        Some(start as usize)
    } else {
        first_from(needle, haystack, case_insensitive, start + 1)
    }
}

/// All places at or after `start` where `needle` occurs, from left to right and
/// without overlap, as ranges of bytes. None for an empty needle.
pub open spec fn all_from(
    needle: Seq<u8>,
    haystack: Seq<u8>,
    case_insensitive: bool,
    start: int,
) -> Seq<(usize, usize)>
    decreases haystack.len() - start,
{
    if needle.len() == 0 || start < 0 {
        Seq::empty()
    } else {
        match first_from(needle, haystack, case_insensitive, start) {
            None => Seq::empty(),
            Some(p) => {
                if p < start || p + needle.len() > haystack.len() {
                    Seq::empty()
                } else {
                    seq![(p, (p + needle.len()) as usize)] + all_from(
                        needle,
                        haystack,
                        case_insensitive,
                        p + needle.len(),
                    )
                }
            },
        }
    }
}

/// `first_from` is the least occurrence.
pub proof fn law_first_from(
    needle: Seq<u8>,
    haystack: Seq<u8>,
    case_insensitive: bool,
    start: int,
)
    requires
        needle.len() > 0,
        0 <= start,
        haystack.len() <= usize::MAX,
    ensures
        match first_from(needle, haystack, case_insensitive, start) {
            Some(p) => {
                &&& start <= p
                &&& occurs_at(needle, haystack, case_insensitive, p as int)
                &&& forall|k: int|
                    start <= k < p ==> !occurs_at(needle, haystack, case_insensitive, k)
            },
            None => forall|k: int|
                start <= k ==> !occurs_at(needle, haystack, case_insensitive, k),
        },
    decreases haystack.len() - start,
{
    if start + needle.len() <= haystack.len() && !occurs_at(
        needle,
        haystack,
        case_insensitive,
        start,
    ) {
        law_first_from(needle, haystack, case_insensitive, start + 1);
    }
}

/// Places without an occurrence can be skipped.
proof fn lemma_skip(
    needle: Seq<u8>,
    haystack: Seq<u8>,
    case_insensitive: bool,
    from: int,
    to: int,
)
    requires
        needle.len() > 0,
        0 <= from <= to,
        forall|k: int| from <= k < to ==> !occurs_at(needle, haystack, case_insensitive, k),
    ensures
        first_from(needle, haystack, case_insensitive, from) == first_from(
            needle,
            haystack,
            case_insensitive,
            to,
        ),
    decreases to - from,
{
    if from < to {
        lemma_skip(needle, haystack, case_insensitive, from + 1, to);
        assert(!occurs_at(needle, haystack, case_insensitive, from));
    }
}

/// The listed ranges are occurrences in ascending order, none overlaps the next,
/// and every other occurrence overlaps one of them.
pub proof fn law_all_from(
    needle: Seq<u8>,
    haystack: Seq<u8>,
    case_insensitive: bool,
    start: int,
)
    requires
        needle.len() > 0,
        0 <= start,
        haystack.len() <= usize::MAX,
    ensures
        ({
            let all = all_from(needle, haystack, case_insensitive, start);
            &&& forall|i: int|
                #![trigger all[i]]
                0 <= i < all.len() ==> {
                    &&& start <= all[i].0
                    &&& all[i].1 == all[i].0 + needle.len()
                    &&& occurs_at(needle, haystack, case_insensitive, all[i].0 as int)
                }
            &&& forall|i: int, j: int|
                #![trigger all[i], all[j]]
                0 <= i < j < all.len() ==> all[i].1 <= all[j].0
            &&& forall|k: int|
                start <= k && #[trigger] occurs_at(needle, haystack, case_insensitive, k)
                    ==> exists|i: int|
                    0 <= i < all.len() && (#[trigger] all[i]).0 <= k < all[i].1
        }),
    decreases haystack.len() - start,
{
    let all = all_from(needle, haystack, case_insensitive, start);
    law_first_from(needle, haystack, case_insensitive, start);
    if let Some(p) = first_from(needle, haystack, case_insensitive, start) {
        let next = p + needle.len();
        let rest = all_from(needle, haystack, case_insensitive, next);
        law_all_from(needle, haystack, case_insensitive, next);
        assert(all[0] == (p, next as usize));
        assert(forall|i: int| #![trigger all[i]] 0 < i < all.len() ==> all[i] == rest[i - 1]);
        assert forall|k: int|
            start <= k && #[trigger] occurs_at(
                needle,
                haystack,
                case_insensitive,
                k,
            ) implies exists|i: int|
            0 <= i < all.len() && (#[trigger] all[i]).0 <= k < all[i].1 by {
            if k >= next {
                let i = choose|i: int|
                    0 <= i < rest.len() && (#[trigger] rest[i]).0 <= k < rest[i].1;
                assert(all[i + 1] == rest[i]);
            } else {
                assert(all[0].0 <= k < all[0].1);
            }
        }
    }
}

fn to_lower(b: u8) -> (r: u8)
    ensures
        r == lower(b),
{
    if 65 <= b && b <= 90 {
        b + 32
    } else {
        b
    }
}

fn to_upper(b: u8) -> (r: u8)
    ensures
        r == upper(b),
{
    if 97 <= b && b <= 122 {
        b - 32
    } else {
        b
    }
}

/// Substring searcher. When a byte does not match, a table of shifts tells how
/// far the needle can move without passing an occurrence.
pub struct Bmh {
    /// The needle bytes (lowercased if case-insensitive).
    pub needle: Vec<u8>,
    /// Shifts, indexed by the byte under the end of the needle.
    pub shift: [usize; 256],
    pub case_insensitive: bool,
}

impl Bmh {
    /// The shift for a byte moves the needle forward, and no further than to the
    /// next place where that byte fits.
    pub open spec fn wf(&self) -> bool {
        let n = self.needle@.len();
        n > 0 ==> forall|x: int|
            #![trigger self.shift@[x]]
            0 <= x < 256 ==> {
                &&& 1 <= self.shift@[x] <= n
                &&& forall|d: int|
                    #![trigger self.needle@[n - 1 - d]]
                    1 <= d < self.shift@[x] ==> fold(x as u8, self.case_insensitive)
                        != self.needle@[n - 1 - d]
            }
    }

    /// Prepare a search for `pattern`.
    pub fn new(pattern: &[u8], case_insensitive: bool) -> (r: Bmh)
        ensures
            r.wf(),
            r.needle@ == fold_all(pattern@, case_insensitive),
            r.case_insensitive == case_insensitive,
    {
        let n: usize = pattern.len();
        let mut needle: Vec<u8> = Vec::new();
        let mut k: usize = 0;
        while k < n
            invariant
                k <= n,
                n == pattern@.len(),
                needle@ =~= fold_all(pattern@, case_insensitive).take(k as int),
            decreases n - k,
        {
            let b: u8 = if case_insensitive {
                to_lower(pattern[k])
            } else {
                pattern[k]
            };
            needle.push(b);
            k = k + 1;
        }
        assert(needle@ =~= fold_all(pattern@, case_insensitive));
        let mut shift: [usize; 256] = [n; 256];
        let mut i: usize = 0;
        while i + 1 < n
            invariant
                i <= n,
                n > 0 ==> i < n,
                n == needle@.len(),
                needle@ == fold_all(pattern@, case_insensitive),
                n == pattern@.len(),
                n > 0 ==> forall|x: int|
                    #![trigger shift@[x]]
                    0 <= x < 256 ==> {
                        &&& n - i <= shift@[x] <= n
                        &&& forall|d: int|
                            #![trigger needle@[n - 1 - d]]
                            1 <= d < shift@[x] && n - 1 - d < i ==> fold(x as u8, case_insensitive)
                                != needle@[n - 1 - d]
                    },
            decreases n - i,
        {
            let b: u8 = needle[i];
            let ghost before = shift@;
            shift[b as usize] = n - 1 - i;
            if case_insensitive {
                shift[to_upper(b) as usize] = n - 1 - i;
            }
            assert forall|x: int|
                #![trigger shift@[x]]
                0 <= x < 256 implies {
                &&& n - 1 - i <= shift@[x] <= n
                &&& forall|d: int|
                    #![trigger needle@[n - 1 - d]]
                    1 <= d < shift@[x] && n - 1 - d < i + 1 ==> fold(x as u8, case_insensitive)
                        != needle@[n - 1 - d]
            } by {
                assert(before[x] >= n - i);
                assert forall|d: int|
                    #![trigger needle@[n - 1 - d]]
                    1 <= d < shift@[x] && n - 1 - d < i + 1 implies fold(
                    x as u8,
                    case_insensitive,
                ) != needle@[n - 1 - d] by {
                    if n - 1 - d == i {
                        assert(shift@[x] == before[x]);
                        assert(b == fold(pattern@[i as int], case_insensitive));
                    }
                }
            }
            i = i + 1;
        }
        Bmh { needle, shift, case_insensitive }
    }

    /// Find first occurrence starting at `start`. Returns byte offset in haystack.
    pub fn find_from(&self, haystack: &[u8], start: usize) -> (r: Option<usize>)
        requires
            self.wf(),
        ensures
            r == first_from(self.needle@, haystack@, self.case_insensitive, start as int),
            r matches Some(p) ==> self.needle@.len() > 0 ==> start <= p && p + self.needle@.len()
                <= haystack@.len(),
    {
        let ghost ci = self.case_insensitive;
        let n: usize = self.needle.len();
        if n == 0 {
            return Some(start);
        }
        let len: usize = haystack.len();
        if len < n || start > len - n {
            return None;
        }
        let last: usize = n - 1;
        let mut i: usize = start;
        while i <= len - n
            invariant
                self.wf(),
                ci == self.case_insensitive,
                n == self.needle@.len(),
                len == haystack@.len(),
                0 < n <= len,
                last == n - 1,
                start <= i <= len,
                first_from(self.needle@, haystack@, ci, start as int) == first_from(
                    self.needle@,
                    haystack@,
                    ci,
                    i as int,
                ),
            decreases len - i,
        {
            let mut j: usize = n;
            while j > 0 && self.same(haystack[i + j - 1], j - 1)
                invariant
                    ci == self.case_insensitive,
                    n == self.needle@.len(),
                    len == haystack@.len(),
                    i + n <= len,
                    j <= n,
                    forall|k: int|
                        j <= k < n ==> fold(#[trigger] haystack@[i + k], ci) == self.needle@[k],
                decreases j,
            {
                j = j - 1;
            }
            if j == 0 {
                assert(occurs_at(self.needle@, haystack@, ci, i as int));
                return Some(i);
            }
            proof {
                assert(fold(haystack@[i + (j - 1)], ci) != self.needle@[j - 1]);
                assert(!occurs_at(self.needle@, haystack@, ci, i as int));
            }
            let under: u8 = haystack[i + last];
            let step: usize = self.shift[under as usize];
            proof {
                assert forall|k: int| i <= k < i + step implies !occurs_at(
                    self.needle@,
                    haystack@,
                    ci,
                    k,
                ) by {
                    if k > i {
                        let d = k - i;
                        assert(fold(under, ci) != self.needle@[n - 1 - d]);
                        assert(haystack@[k + (n - 1 - d)] == under);
                    }
                }
                lemma_skip(self.needle@, haystack@, ci, i as int, i + step);
            }
            i = i + step;
        }
        None
    }

    /// Whether a byte of the haystack fits the needle at `j`.
    fn same(&self, b: u8, j: usize) -> (r: bool)
        requires
            j < self.needle@.len(),
        ensures
            r == (fold(b, self.case_insensitive) == self.needle@[j as int]),
    {
        let hb: u8 = if self.case_insensitive {
            to_lower(b)
        } else {
            b
        };
        hb == self.needle[j]
    }

    /// Whether the needle occurs in the haystack.
    pub fn is_match(&self, haystack: &[u8]) -> (r: bool)
        requires
            self.wf(),
        ensures
            r == first_from(self.needle@, haystack@, self.case_insensitive, 0) is Some,
    {
        self.find_from(haystack, 0).is_some()
    }

    /// All occurrences, from left to right and without overlap.
    pub fn find_all(&self, haystack: &[u8]) -> (r: Vec<(usize, usize)>)
        requires
            self.wf(),
        ensures
            r@ == all_from(self.needle@, haystack@, self.case_insensitive, 0),
    {
        let mut matches: Vec<(usize, usize)> = Vec::new();
        let n: usize = self.needle.len();
        if n == 0 {
            return matches;
        }
        let len: usize = haystack.len();
        let mut start: usize = 0;
        let mut done: bool = false;
        while !done
            invariant
                self.wf(),
                n == self.needle@.len(),
                n > 0,
                len == haystack@.len(),
                start <= len,
                !done ==> matches@ + all_from(
                    self.needle@,
                    haystack@,
                    self.case_insensitive,
                    start as int,
                ) =~= all_from(self.needle@, haystack@, self.case_insensitive, 0),
                done ==> matches@ =~= all_from(
                    self.needle@,
                    haystack@,
                    self.case_insensitive,
                    0,
                ),
            decreases
                len - start,
                (if done {
                    0int
                } else {
                    1int
                }),
        {
            match self.find_from(haystack, start) {
                Some(pos) => {
                    matches.push((pos, pos + n));
                    start = pos + n;
                },
                None => {
                    done = true;
                },
            }
        }
        matches
    }
}

/// An empty needle is found wherever it is looked for, but has no ranges.
pub proof fn law_empty_needle(haystack: Seq<u8>, case_insensitive: bool, start: usize)
    ensures
        first_from(Seq::empty(), haystack, case_insensitive, start as int) == Some(start),
        all_from(Seq::empty(), haystack, case_insensitive, start as int).len() == 0,
{
}

/// What bytes are taken for the same: equal ones and, where case makes no difference, an
/// ASCII letter and the same letter in the other case.
pub proof fn law_same_bytes(a: u8, b: u8)
    ensures
        fold(a, false) == fold(b, false) <==> a == b,
        fold(a, true) == fold(b, true) <==> a == b || (65 <= a <= 90 && b == a + 32) || (65 <= b
            <= 90 && a == b + 32),
{
}

} // verus!
