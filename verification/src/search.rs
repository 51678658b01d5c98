//! Full-content search: every line each session's terminals still hold.
//!
//! Matching, in [`Query`]: every term must hit the same line; a word matches
//! as a substring or, failing that, as a tight subsequence, and exact hits
//! rank above fuzzy ones; `"a phrase"` must appear verbatim; `/re/` is a
//! regular expression; and a query with no capital letters ignores case.
//!
//! Positions are character positions: a range `[start, end)` counts
//! characters of the line, so it means the same place in the line and in its
//! case-folded copy.
use vstd::prelude::*;
use vstd::relations::{sorted_by, total_ordering};
use crate::ranking::lemma_sorted_unique;
use crate::text::{
    to_chars, push_char, is_whitespace, is_alphanumeric, is_uppercase, fold, unicode_whitespace,
    unicode_alphanumeric, unicode_uppercase, fold_char, utf8_width, string_of,
};

verus! {

// ── Finding ─────────────────────────────────────────────────────────────────

/// `needle` occurs in `haystack` at `i`.
pub open spec fn occurs_at(haystack: Seq<char>, needle: Seq<char>, i: int) -> bool {
    0 <= i && i + needle.len() <= haystack.len() && haystack.subrange(i, i + needle.len()) == needle
}

/// The first place at or after `i` where `needle` occurs.
pub open spec fn occurrence_from(haystack: Seq<char>, needle: Seq<char>, i: int) -> Option<int>
    decreases haystack.len() - i,
{
    if i < 0 || i >= haystack.len() || i + needle.len() > haystack.len() {
        None
    } else if occurs_at(haystack, needle, i) {
        Some(i)
    } else {
        occurrence_from(haystack, needle, i + 1)
    }
}

/// How well an occurrence stands alone: `err` in `err: …` above `err` in
/// `stderr`. Thirty when neither side touches a letter or digit, fifteen when
/// one does, none when both do.
pub open spec fn standalone_bonus(haystack: Seq<char>, at: int, end: int) -> int {
    let open = at == 0 || !unicode_alphanumeric(haystack[at - 1]);
    let close = end >= haystack.len() || !unicode_alphanumeric(haystack[end]);
    if open && close {
        30
    } else if open || close {
        15
    } else {
        0
    }
}

/// Where `needle` first occurs in `haystack`, as a character range, with its
/// standalone bonus. An empty needle occurs nowhere.
pub open spec fn find_spec(haystack: Seq<char>, needle: Seq<char>) -> Option<(int, int, int)> {
    if needle.len() == 0 {
        None
    } else {
        match occurrence_from(haystack, needle, 0) {
            Some(at) => Some((at, at + needle.len(), standalone_bonus(haystack, at, at + needle.len()))),
            None => None,
        }
    }
}

/// Where no occurrence is found from `i` on, there is none there.
pub proof fn lemma_occurrence_missing(haystack: Seq<char>, needle: Seq<char>, i: int, at: int)
    requires
        0 <= i <= at,
        needle.len() > 0,
        occurrence_from(haystack, needle, i) is None,
    ensures
        !occurs_at(haystack, needle, at),
    decreases haystack.len() - i,
{
    if i < haystack.len() && i + needle.len() <= haystack.len() && i < at {
        lemma_occurrence_missing(haystack, needle, i + 1, at);
    }
}

pub proof fn lemma_occurrence_found(haystack: Seq<char>, needle: Seq<char>, i: int)
    requires
        0 <= i,
    ensures
        occurrence_from(haystack, needle, i) matches Some(at) ==> i <= at && occurs_at(haystack, needle, at),
    decreases haystack.len() - i,
{
    if i < haystack.len() && i + needle.len() <= haystack.len() && !occurs_at(haystack, needle, i) {
        lemma_occurrence_found(haystack, needle, i + 1);
    }
}

fn occurs_here(haystack: &[char], needle: &[char], i: usize) -> (r: bool)
    requires
        i + needle@.len() <= haystack.len(),
    ensures
        r == occurs_at(haystack@, needle@, i as int),
{
    let mut k: usize = 0;
    while k < needle.len()
        invariant
            i + needle@.len() <= haystack.len(),
            k <= needle@.len(),
            forall|m: int| 0 <= m < k ==> haystack@[i + m] == needle@[m],
        decreases needle.len() - k,
    {
        assert(i + k < haystack@.len());
        if haystack[i + k] != needle[k] {
            assert(haystack@.subrange(i as int, i + needle@.len())[k as int] != needle@[k as int]);
            return false;
        }
        k += 1;
    }
    assert(haystack@.subrange(i as int, i + needle@.len()) =~= needle@);
    true
}

/// Where `needle` first occurs in `haystack`, as a character range, with the
/// bonus for standing alone.
pub fn find_str(haystack: &[char], needle: &[char]) -> (r: Option<(usize, usize, i32)>)
    ensures
        match find_spec(haystack@, needle@) {
            Some((at, end, bonus)) => r == Some((at as usize, end as usize, bonus as i32)),
            None => r is None,
        },
{
    if needle.len() == 0 || needle.len() > haystack.len() {
        return None;
    }
    let mut i: usize = 0;
    let last = haystack.len() - needle.len();
    while i <= last
        invariant
            needle@.len() > 0,
            last + needle@.len() == haystack.len(),
            i <= last + 1,
            occurrence_from(haystack@, needle@, i as int) == occurrence_from(haystack@, needle@, 0),
        decreases last + 1 - i,
    {
        if occurs_here(haystack, needle, i) {
            let end = i + needle.len();
            let open = i == 0 || !is_alphanumeric(haystack[i - 1]);
            let close = end >= haystack.len() || !is_alphanumeric(haystack[end]);
            let bonus: i32 = if open && close {
                30
            } else if open || close {
                15
            } else {
                0
            };
            return Some((i, end, bonus));
        }
        i += 1;
    }
    None
}

// ── Subsequences ────────────────────────────────────────────────────────────

/// Whether the characters of `needle` from `k` on appear, in order, in
/// `haystack` from `j` on — taking each as early as it comes.
pub open spec fn in_order_from(haystack: Seq<char>, needle: Seq<char>, j: int, k: int) -> bool
    decreases haystack.len() - j,
{
    if k >= needle.len() {
        true
    } else if j >= haystack.len() || j < 0 {
        false
    } else if haystack[j] == needle[k] {
        in_order_from(haystack, needle, j + 1, k + 1)
    } else {
        in_order_from(haystack, needle, j + 1, k)
    }
}

/// Whether every character of `needle` appears in `haystack` in order — the
/// allocation-free check that turns most lines away before the subsequence
/// search has to build anything.
pub fn in_order(haystack: &[char], needle: &[char]) -> (r: bool)
    ensures
        r == in_order_from(haystack@, needle@, 0, 0),
{
    let mut k: usize = 0;
    let mut j: usize = 0;
    while j < haystack.len()
        invariant
            j <= haystack@.len(),
            k <= needle@.len(),
            in_order_from(haystack@, needle@, j as int, k as int) == in_order_from(haystack@, needle@, 0, 0),
        decreases haystack.len() - j,
    {
        if k >= needle.len() {
            return true;
        }
        if haystack[j] == needle[k] {
            k += 1;
        }
        j += 1;
    }
    k >= needle.len()
}

/// The first position in `[at, end)` holding `c`.
pub open spec fn first_in(haystack: Seq<char>, c: char, at: int, end: int) -> Option<int>
    decreases end - at,
{
    if at >= end || at < 0 || end > haystack.len() {
        None
    } else if haystack[at] == c {
        Some(at)
    } else {
        first_in(haystack, c, at + 1, end)
    }
}

/// Positions for `needle[k..]`, each the first after the one before, all
/// before `end`.
pub open spec fn greedy_rest(haystack: Seq<char>, needle: Seq<char>, k: int, at: int, end: int) -> Option<Seq<int>>
    decreases needle.len() - k,
{
    if k >= needle.len() {
        Some(seq![])
    } else {
        match first_in(haystack, needle[k], at, end) {
            Some(p) => match greedy_rest(haystack, needle, k + 1, p + 1, end) {
                Some(rest) => Some(seq![p] + rest),
                None => None,
            },
            None => None,
        }
    }
}

/// The window a match starting at `start` may use: twice the needle's
/// length, cut at the end of the haystack.
pub open spec fn window_end(haystack: Seq<char>, needle: Seq<char>, start: int) -> int {
    if start + 2 * needle.len() <= haystack.len() {
        start + 2 * needle.len()
    } else {
        haystack.len() as int
    }
}

/// The match of a non-empty needle that starts at `start`, if there is one
/// inside its window.
pub open spec fn candidate(haystack: Seq<char>, needle: Seq<char>, start: int) -> Option<Seq<int>> {
    if 0 <= start < haystack.len() && needle.len() > 0 && haystack[start] == needle[0] {
        match greedy_rest(haystack, needle, 1, start + 1, window_end(haystack, needle, start)) {
            Some(rest) => Some(seq![start] + rest),
            None => None,
        }
    } else {
        None
    }
}

/// How much of the haystack a match covers.
pub open spec fn span_of(positions: Seq<int>) -> int {
    positions.last() + 1 - positions[0]
}

/// The best match among those starting before `s`: the shortest span, the
/// earliest of equals.
pub open spec fn best_before(haystack: Seq<char>, needle: Seq<char>, s: int) -> Option<Seq<int>>
    decreases s,
{
    if s <= 0 {
        None
    } else {
        let prev = best_before(haystack, needle, s - 1);
        match candidate(haystack, needle, s - 1) {
            Some(c) => match prev {
                Some(b) => if span_of(c) < span_of(b) {
                    Some(c)
                } else {
                    Some(b)
                },
                None => Some(c),
            },
            None => prev,
        }
    }
}

/// The subsequence of `needle` in `haystack` with the shortest span, if that
/// span is at most twice the needle's length.
pub open spec fn tight_spec(haystack: Seq<char>, needle: Seq<char>) -> Option<Seq<int>> {
    if needle.len() == 0 {
        None
    } else {
        best_before(haystack, needle, haystack.len() as int)
    }
}

/// What a match is: one increasing position per needle character, each
/// holding that character, inside the window of the first.
pub open spec fn embeds(haystack: Seq<char>, needle: Seq<char>, positions: Seq<int>) -> bool {
    &&& positions.len() == needle.len()
    &&& positions.len() > 0
    &&& forall|m: int| 0 <= m < positions.len() ==> 0 <= #[trigger] positions[m] < haystack.len() && haystack[positions[m]] == needle[m]
    &&& forall|a: int, b: int| 0 <= a < b < positions.len() ==> positions[a] < positions[b]
    &&& positions.last() < window_end(haystack, needle, positions[0])
}

proof fn lemma_first_in(haystack: Seq<char>, c: char, at: int, end: int)
    ensures
        first_in(haystack, c, at, end) matches Some(p) ==> at <= p < end && haystack[p] == c,
    decreases end - at,
{
    if at < end && at >= 0 && end <= haystack.len() && haystack[at] != c {
        lemma_first_in(haystack, c, at + 1, end);
    }
}

proof fn lemma_greedy_rest(haystack: Seq<char>, needle: Seq<char>, k: int, at: int, end: int)
    requires
        0 <= k <= needle.len(),
    ensures
        greedy_rest(haystack, needle, k, at, end) matches Some(rest) ==> {
            &&& rest.len() == needle.len() - k
            &&& forall|m: int| 0 <= m < rest.len() ==> at <= #[trigger] rest[m] < end && haystack[rest[m]] == needle[k + m]
            &&& forall|a: int, b: int| 0 <= a < b < rest.len() ==> rest[a] < rest[b]
        },
    decreases needle.len() - k,
{
    if k < needle.len() {
        lemma_first_in(haystack, needle[k], at, end);
        if let Some(p) = first_in(haystack, needle[k], at, end) {
            lemma_greedy_rest(haystack, needle, k + 1, p + 1, end);
            if let Some(rest) = greedy_rest(haystack, needle, k + 1, p + 1, end) {
                let all = seq![p] + rest;
                assert forall|m: int| 0 <= m < all.len() implies at <= #[trigger] all[m] < end && haystack[all[m]] == needle[k + m] by {
                    if m > 0 {
                        assert(all[m] == rest[m - 1]);
                    }
                }
                assert forall|a: int, b: int| 0 <= a < b < all.len() implies all[a] < all[b] by {
                    if a > 0 {
                        assert(all[a] == rest[a - 1]);
                    }
                    assert(all[b] == rest[b - 1]);
                }
            }
        }
    }
}

proof fn lemma_candidate_embeds(haystack: Seq<char>, needle: Seq<char>, start: int)
    ensures
        candidate(haystack, needle, start) matches Some(c) ==> embeds(haystack, needle, c) && c[0] == start,
{
    if 0 <= start < haystack.len() && needle.len() > 0 && haystack[start] == needle[0] {
        let end = window_end(haystack, needle, start);
        lemma_greedy_rest(haystack, needle, 1, start + 1, end);
        if let Some(rest) = greedy_rest(haystack, needle, 1, start + 1, end) {
            let c = seq![start] + rest;
            assert forall|m: int| 0 <= m < c.len() implies 0 <= #[trigger] c[m] < haystack.len() && haystack[c[m]] == needle[m] by {
                if m > 0 {
                    assert(c[m] == rest[m - 1]);
                }
            }
            assert forall|a: int, b: int| 0 <= a < b < c.len() implies c[a] < c[b] by {
                if a > 0 {
                    assert(c[a] == rest[a - 1]);
                }
                assert(c[b] == rest[b - 1]);
            }
            if rest.len() > 0 {
                assert(c.last() == rest.last());
            }
        }
    }
}

proof fn lemma_best_before(haystack: Seq<char>, needle: Seq<char>, s: int)
    ensures
        best_before(haystack, needle, s) matches Some(b) ==> embeds(haystack, needle, b) && 0 <= b[0] < s,
        forall|t: int| 0 <= t < s ==> (#[trigger] candidate(haystack, needle, t) matches Some(c) ==> best_before(haystack, needle, s) matches Some(b) && span_of(b) <= span_of(c)),
    decreases s,
{
    if s > 0 {
        lemma_best_before(haystack, needle, s - 1);
        lemma_candidate_embeds(haystack, needle, s - 1);
    }
}

/// The tightest match is a match, and no match starting anywhere is tighter.
pub proof fn lemma_tightest_is_a_match(haystack: Seq<char>, needle: Seq<char>)
    ensures
        tight_spec(haystack, needle) matches Some(b) ==> embeds(haystack, needle, b),
        forall|t: int| #[trigger] candidate(haystack, needle, t) matches Some(c) ==> tight_spec(haystack, needle) matches Some(b) && span_of(b) <= span_of(c),
{
    lemma_best_before(haystack, needle, haystack.len() as int);
}

/// Positions that embed the needle from `k` on, each at or after `j`, are
/// found by the in-order scan from `j` and `k`.
proof fn lemma_embedded_in_order(haystack: Seq<char>, needle: Seq<char>, positions: Seq<int>, j: int, k: int)
    requires
        0 <= j,
        0 <= k <= needle.len(),
        positions.len() == needle.len(),
        forall|m: int| k <= m < positions.len() ==> j <= #[trigger] positions[m] < haystack.len() && haystack[positions[m]] == needle[m],
        forall|a: int, b: int| k <= a < b < positions.len() ==> positions[a] < positions[b],
    ensures
        in_order_from(haystack, needle, j, k),
    decreases haystack.len() - j,
{
    if k < needle.len() {
        assert(j <= positions[k] < haystack.len());
        if haystack[j] == needle[k] {
            assert forall|m: int| k + 1 <= m < positions.len() implies j + 1 <= #[trigger] positions[m] < haystack.len() && haystack[positions[m]] == needle[m] by {
                assert(positions[k] < positions[m]);
            }
            lemma_embedded_in_order(haystack, needle, positions, j + 1, k + 1);
        } else {
            assert forall|m: int| k <= m < positions.len() implies j + 1 <= #[trigger] positions[m] < haystack.len() && haystack[positions[m]] == needle[m] by {
                if m > k {
                    assert(positions[k] < positions[m]);
                }
            }
            lemma_embedded_in_order(haystack, needle, positions, j + 1, k);
        }
    }
}

/// A word found as a tight subsequence passes the in-order check, and its
/// span is at least its length and at most twice it.
pub proof fn lemma_tight_shape(haystack: Seq<char>, needle: Seq<char>)
    ensures
        tight_spec(haystack, needle) matches Some(b) ==> {
            &&& in_order_from(haystack, needle, 0, 0)
            &&& embeds(haystack, needle, b)
            &&& needle.len() <= span_of(b) <= 2 * needle.len()
        },
{
    lemma_tightest_is_a_match(haystack, needle);
    if let Some(b) = tight_spec(haystack, needle) {
        lemma_embedded_in_order(haystack, needle, b, 0, 0);
        lemma_increasing_spread(b, b.len() - 1);
    }
}

proof fn lemma_increasing_spread(s: Seq<int>, k: int)
    requires
        0 <= k < s.len(),
        forall|a: int, b: int| 0 <= a < b < s.len() ==> s[a] < s[b],
    ensures
        s[k] - s[0] >= k,
    decreases k,
{
    if k > 0 {
        lemma_increasing_spread(s, k - 1);
        assert(s[k - 1] < s[k]);
    }
}

pub open spec fn positions_view(v: Seq<usize>) -> Seq<int> {
    v.map_values(|p: usize| p as int)
}

/// The subsequence of `needle` in `haystack` with the shortest span, if that
/// span is at most twice the needle's length.
///
/// Bounded because a subsequence anywhere in a long terminal line is noise;
/// within twice its length it is a word with letters missing — `cnfg` for
/// `config` — which is the case subsequence matching is for.
pub fn tight_subsequence(haystack: &[char], needle: &[char]) -> (r: Option<Vec<usize>>)
    ensures
        match tight_spec(haystack@, needle@) {
            Some(b) => r matches Some(v) && positions_view(v@) == b,
            None => r is None,
        },
{
    if needle.len() == 0 {
        return None;
    }
    let first = needle[0];
    let limit: usize = if needle.len() <= (usize::MAX / 2) { needle.len() * 2 } else { usize::MAX };
    let mut best: Option<(usize, Vec<usize>)> = None;
    let mut start: usize = 0;
    while start < haystack.len()
        invariant
            needle@.len() > 0,
            needle@.len() <= needle.len(),
            first == needle@[0],
            limit == if needle@.len() <= usize::MAX / 2 { (needle@.len() * 2) as int } else { usize::MAX as int },
            start <= haystack@.len(),
            match best_before(haystack@, needle@, start as int) {
                Some(b) => best matches Some((sp, v)) && positions_view(v@) == b && sp == span_of(b),
                None => best is None,
            },
        decreases haystack.len() - start,
    {
        let ghost prev = best_before(haystack@, needle@, start as int);
        if haystack[start] == first {
            let end: usize = if limit <= haystack.len() - start {
                start + limit
            } else {
                haystack.len()
            };
            assert(end == window_end(haystack@, needle@, start as int));
            let mut positions: Vec<usize> = Vec::new();
            positions.push(start);
            let mut at: usize = start + 1;
            let mut k: usize = 1;
            let mut complete = true;
            while k < needle.len() && complete
                invariant
                    1 <= k <= needle@.len(),
                    start < haystack@.len(),
                    start + 1 <= at <= end,
                    end == window_end(haystack@, needle@, start as int),
                    end <= haystack@.len(),
                    positions@.len() == k,
                    !complete ==> greedy_rest(haystack@, needle@, 1, start + 1, end as int) is None,
                    positions@[0] == start,
                    complete ==> greedy_rest(haystack@, needle@, 1, start + 1, end as int) == match greedy_rest(haystack@, needle@, k as int, at as int, end as int) {
                        Some(rest) => Some(positions_view(positions@.subrange(1, k as int)) + rest),
                        None => None,
                    },
                    k > 1 ==> at == positions@[k - 1] + 1,
                    k == 1 ==> at == start + 1,
                decreases needle@.len() - k, if complete { 1int } else { 0int },
            {
                let wanted = needle[k];
                let mut p: usize = at;
                while p < end && haystack[p] != wanted
                    invariant
                        at <= p <= end,
                        end <= haystack@.len(),
                        first_in(haystack@, wanted, p as int, end as int) == first_in(haystack@, wanted, at as int, end as int),
                    decreases end - p,
                {
                    p += 1;
                }
                if p >= end {
                    complete = false;
                } else {
                let ghost before = positions@;
                positions.push(p);
                proof {
                    let pre = positions_view(before.subrange(1, k as int));
                    assert(positions_view(positions@.subrange(1, k + 1)) =~= pre.push(p as int));
                    assert(first_in(haystack@, wanted, p as int, end as int) == Some(p as int));
                    if let Some(rest) = greedy_rest(haystack@, needle@, k + 1, p + 1, end as int) {
                        assert(pre + (seq![p as int] + rest) =~= pre.push(p as int) + rest);
                    }
                }
                at = p + 1;
                k += 1;
                }
            }
            proof {
                lemma_candidate_embeds(haystack@, needle@, start as int);
            }
            if complete {
                let span = at - start;
                proof {
                    assert(greedy_rest(haystack@, needle@, k as int, at as int, end as int) == Some(Seq::<int>::empty()));
                    let c = seq![start as int] + positions_view(positions@.subrange(1, k as int));
                    assert(positions_view(positions@) =~= c);
                    assert(candidate(haystack@, needle@, start as int) == Some(c));
                    if k > 1 {
                        assert(span_of(c) == span);
                    } else {
                        assert(span_of(c) == 1);
                    }
                }
                let better = match &best {
                    Some((b, _)) => span < *b,
                    None => true,
                };
                if better {
                    best = Some((span, positions));
                }
            } else {
                assert(candidate(haystack@, needle@, start as int) is None);
            }
        } else {
            assert(candidate(haystack@, needle@, start as int) is None);
        }
        start += 1;
    }
    match best {
        Some((_, positions)) => Some(positions),
        None => None,
    }
}

// ── Ranges ──────────────────────────────────────────────────────────────────

/// Ranges ordered by start, then by end.
pub open spec fn range_le(a: (usize, usize), b: (usize, usize)) -> bool {
    a.0 < b.0 || (a.0 == b.0 && a.1 <= b.1)
}

pub open spec fn range_order() -> spec_fn((usize, usize), (usize, usize)) -> bool {
    |a: (usize, usize), b: (usize, usize)| range_le(a, b)
}

/// Sorted ranges with each one that starts inside (or right at the end of)
/// the one before folded into it.
pub open spec fn merge_sorted(s: Seq<(usize, usize)>) -> Seq<(usize, usize)>
    decreases s.len(),
{
    if s.len() == 0 {
        seq![]
    } else {
        let out = merge_sorted(s.drop_last());
        let (start, end) = s.last();
        if out.len() > 0 && start <= out.last().1 {
            out.update(out.len() - 1, (out.last().0, if end > out.last().1 { end } else { out.last().1 }))
        } else {
            out.push((start, end))
        }
    }
}

/// Ranges sorted and merged: what a line's hits are reported as.
pub open spec fn merged(ranges: Seq<(usize, usize)>) -> Seq<(usize, usize)> {
    merge_sorted(ranges.sort_by(range_order()))
}

proof fn lemma_range_order_total()
    ensures
        total_ordering(range_order()),
{
}

/// The ranges sorted by start, then by end.
fn sort_ranges(v: &Vec<(usize, usize)>) -> (r: Vec<(usize, usize)>)
    ensures
        r@ == v@.sort_by(range_order()),
{
    broadcast use vstd::seq_lib::group_to_multiset_ensures;
    let mut out: Vec<(usize, usize)> = Vec::new();
    let mut i: usize = 0;
    while i < v.len()
        invariant
            i <= v@.len(),
            sorted_by(out@, range_order()),
            out@.to_multiset() == v@.subrange(0, i as int).to_multiset(),
        decreases v.len() - i,
    {
        let x = v[i];
        let mut j: usize = 0;
        while j < out.len() && (out[j].0 < x.0 || (out[j].0 == x.0 && out[j].1 <= x.1))
            invariant
                j <= out@.len(),
                forall|m: int| 0 <= m < j ==> range_le(out@[m], x),
            decreases out.len() - j,
        {
            j += 1;
        }
        let ghost before = out@;
        out.insert(j, x);
        proof {
            assert(out@ == before.insert(j as int, x));
            assert forall|a: int, b: int| 0 <= a < b < out@.len() implies #[trigger] (range_order())(out@[a], out@[b]) by {
                if b < j {
                    assert((range_order())(before[a], before[b]));
                } else if b == j {
                    assert(range_le(before[a], x));
                } else if a < j {
                    assert(range_le(before[a], x));
                    assert(!range_le(before[j as int], x));
                    if b - 1 > j {
                        assert((range_order())(before[j as int], before[b - 1]));
                    }
                } else if a == j {
                    assert(!range_le(before[j as int], x));
                    if b - 1 > j {
                        assert((range_order())(before[j as int], before[b - 1]));
                    }
                } else {
                    assert((range_order())(before[a - 1], before[b - 1]));
                }
            }
            assert(v@.subrange(0, i + 1) =~= v@.subrange(0, i as int).push(x));
            vstd::seq_lib::to_multiset_insert(before, j as int, x);
            vstd::seq_lib::to_multiset_build(v@.subrange(0, i as int), x);
        }
        i += 1;
    }
    proof {
        assert(v@.subrange(0, i as int) =~= v@);
        lemma_range_order_total();
        v@.lemma_sort_by_ensures(range_order());
        lemma_sorted_unique(out@, v@.sort_by(range_order()), range_order());
    }
    out
}

/// Sort the ranges and fold together those that overlap or touch.
pub fn merge(ranges: Vec<(usize, usize)>) -> (r: Vec<(usize, usize)>)
    ensures
        r@ == merged(ranges@),
{
    let sorted = sort_ranges(&ranges);
    let mut out: Vec<(usize, usize)> = Vec::with_capacity(sorted.len());
    let mut i: usize = 0;
    while i < sorted.len()
        invariant
            i <= sorted@.len(),
            out@ == merge_sorted(sorted@.subrange(0, i as int)),
        decreases sorted.len() - i,
    {
        let (start, end) = sorted[i];
        proof {
            assert(sorted@.subrange(0, i + 1).drop_last() =~= sorted@.subrange(0, i as int));
        }
        let n = out.len();
        if n > 0 && start <= out[n - 1].1 {
            let last = out[n - 1];
            let wider = if end > last.1 { end } else { last.1 };
            out.set(n - 1, (last.0, wider));
        } else {
            out.push((start, end));
        }
        i += 1;
    }
    assert(sorted@.subrange(0, i as int) =~= sorted@);
    out
}

} // verus!
