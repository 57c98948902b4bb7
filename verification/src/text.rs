//! Dotted-name text model: dot positions, label splitting, and the fixed
//! two-label parent-domain suffix rule.

use vstd::prelude::*;

verus! {

/// Index of the last `'.'` strictly before position `end` of `s`, if any.
pub open spec fn last_dot_before(s: Seq<char>, end: int) -> Option<int>
    decreases end,
{
    if end <= 0 {
        None
    } else if s[end - 1] == '.' {
        Some(end - 1)
    } else {
        last_dot_before(s, end - 1)
    }
}

/// What `last_dot_before` returns: a dot with no later dot before `end`,
/// or a guarantee that no dot occurs before `end` at all.
pub proof fn lemma_last_dot_before_properties(s: Seq<char>, end: int)
    requires
        end <= s.len(),
    ensures
        match last_dot_before(s, end) {
            Some(i) => 0 <= i < end && s[i] == '.' && forall|j: int| i < j < end ==> s[j] != '.',
            None => forall|j: int| 0 <= j < end ==> s[j] != '.',
        },
    decreases end,
{
    if end > 0 && s[end - 1] != '.' {
        lemma_last_dot_before_properties(s, end - 1);
    }
}

/// If `i` is a dot and no later position before `end` is one, then `i` is the
/// last dot before `end`.
pub proof fn lemma_last_dot_before_at(s: Seq<char>, end: int, i: int)
    requires
        0 <= i < end,
        s[i] == '.',
        forall|j: int| i < j < end ==> s[j] != '.',
    ensures
        last_dot_before(s, end) == Some(i),
    decreases end,
{
    if i < end - 1 {
        lemma_last_dot_before_at(s, end - 1, i);
    }
}

/// If no position before `end` is a dot, there is no last dot before `end`.
pub proof fn lemma_last_dot_before_none(s: Seq<char>, end: int)
    requires
        forall|j: int| 0 <= j < end ==> s[j] != '.',
    ensures
        last_dot_before(s, end) is None,
    decreases end,
{
    if end > 0 {
        lemma_last_dot_before_none(s, end - 1);
    }
}

/// Number of dots strictly before position `end` of `s`.
pub open spec fn dots_before(s: Seq<char>, end: int) -> int
    decreases end,
{
    if end <= 0 {
        0
    } else if s[end - 1] == '.' {
        dots_before(s, end - 1) + 1
    } else {
        dots_before(s, end - 1)
    }
}

/// The dot count never decreases as the scanned prefix grows.
pub proof fn lemma_dots_before_monotonic(s: Seq<char>, lo: int, hi: int)
    requires
        lo <= hi,
    ensures
        dots_before(s, lo) <= dots_before(s, hi),
    decreases hi - lo,
{
    if lo < hi {
        lemma_dots_before_monotonic(s, lo, hi - 1);
    }
}

/// A dot-free stretch leaves the dot count unchanged.
pub proof fn lemma_dots_before_flat(s: Seq<char>, lo: int, hi: int)
    requires
        0 <= lo <= hi,
        forall|j: int| lo <= j < hi ==> s[j] != '.',
    ensures
        dots_before(s, hi) == dots_before(s, lo),
    decreases hi - lo,
{
    if lo < hi {
        lemma_dots_before_flat(s, lo, hi - 1);
    }
}

/// An unchanged dot count over a stretch means the stretch is dot-free.
pub proof fn lemma_dots_before_no_dots(s: Seq<char>, lo: int, hi: int)
    requires
        0 <= lo <= hi,
        dots_before(s, hi) == dots_before(s, lo),
    ensures
        forall|j: int| lo <= j < hi ==> s[j] != '.',
    decreases hi - lo,
{
    if lo < hi {
        lemma_dots_before_monotonic(s, lo, hi - 1);
        lemma_dots_before_no_dots(s, lo, hi - 1);
    }
}

/// The dot count of a prefix does not depend on the characters at or past `end`.
pub proof fn lemma_dots_before_prefix(s: Seq<char>, k: int, end: int)
    requires
        0 <= end <= k <= s.len(),
    ensures
        dots_before(s.subrange(0, k), end) == dots_before(s, end),
    decreases end,
{
    if end > 0 {
        lemma_dots_before_prefix(s, k, end - 1);
    }
}

/// The labels of `s`, in order: `s` split at every `'.'` (separators dropped,
/// empty labels kept).
pub open spec fn split_dots(s: Seq<char>) -> Seq<Seq<char>>
    decreases s.len(),
{
    match last_dot_before(s, s.len() as int) {
        None => seq![s],
        Some(i) => {
            proof {
                lemma_last_dot_before_properties(s, s.len() as int);
            }
            split_dots(s.subrange(0, i)).push(s.subrange(i + 1, s.len() as int))
        },
    }
}

/// Unfold `split_dots` at a known last dot.
pub proof fn lemma_split_dots_unfold(s: Seq<char>, i: int)
    requires
        0 <= i < s.len(),
        s[i] == '.',
        forall|j: int| i < j < s.len() ==> s[j] != '.',
    ensures
        split_dots(s) == split_dots(s.subrange(0, i)).push(s.subrange(i + 1, s.len() as int)),
{
    lemma_last_dot_before_at(s, s.len() as int, i);
}

/// A dot-free sequence is a single label.
pub proof fn lemma_split_dots_single(s: Seq<char>)
    requires
        forall|j: int| 0 <= j < s.len() ==> s[j] != '.',
    ensures
        split_dots(s) == seq![s],
{
    lemma_last_dot_before_none(s, s.len() as int);
}

/// A sequence with `k` dots splits into exactly `k + 1` labels.
pub proof fn lemma_split_dots_len(s: Seq<char>)
    ensures
        split_dots(s).len() == dots_before(s, s.len() as int) + 1,
    decreases s.len(),
{
    lemma_last_dot_before_properties(s, s.len() as int);
    match last_dot_before(s, s.len() as int) {
        None => {
            lemma_dots_before_flat(s, 0, s.len() as int);
        },
        Some(i) => {
            let pre = s.subrange(0, i);
            lemma_split_dots_len(pre);
            lemma_dots_before_prefix(s, i, i);
            lemma_dots_before_flat(s, i + 1, s.len() as int);
        },
    }
}

/// The inverse of `split_dots`: labels joined by single dots.
pub open spec fn join_dots(parts: Seq<Seq<char>>) -> Seq<char>
    decreases parts.len(),
{
    if parts.len() == 0 {
        Seq::empty()
    } else if parts.len() == 1 {
        parts[0]
    } else {
        join_dots(parts.drop_last()) + seq!['.'] + parts.last()
    }
}

/// Splitting loses nothing: joining the labels with dots gives `s` back.
pub proof fn lemma_join_split_dots(s: Seq<char>)
    ensures
        join_dots(split_dots(s)) == s,
    decreases s.len(),
{
    lemma_last_dot_before_properties(s, s.len() as int);
    match last_dot_before(s, s.len() as int) {
        None => {},
        Some(i) => {
            let pre = s.subrange(0, i);
            let suf = s.subrange(i + 1, s.len() as int);
            lemma_join_split_dots(pre);
            lemma_split_dots_len(pre);
            lemma_dots_before_monotonic(pre, 0, pre.len() as int);
            assert(split_dots(s).drop_last() =~= split_dots(pre));
            assert(pre + seq!['.'] + suf =~= s);
        },
    }
}

/// A fully-qualified name is well formed when it has at least two
/// dot-separated labels, that is, at least one dot.
pub open spec fn well_formed_fqdn(s: Seq<char>) -> bool {
    exists|i: int| 0 <= i < s.len() && s[i] == '.'
}

/// Start of the two-label parent suffix: the position just after the
/// second-to-last dot, or 0 when there are fewer than two dots.
pub open spec fn parent_start(s: Seq<char>) -> int {
    match last_dot_before(s, s.len() as int) {
        None => 0,
        Some(last) => match last_dot_before(s, last) {
            None => 0,
            Some(second_last) => second_last + 1,
        },
    }
}

/// The governing parent domain of a well-formed fully-qualified name: its
/// last two labels, joined by a single dot. All other labels are discarded,
/// so for names of more than three labels the result is the plain two-label
/// suffix, not a public-suffix-aware registrable domain.
pub open spec fn parent_of_spec(s: Seq<char>) -> Seq<char> {
    s.subrange(parent_start(s), s.len() as int)
}

/// Spec-level image of an `Option<usize>` scan state.
pub open spec fn opt_index(o: Option<usize>) -> Option<int> {
    match o {
        Some(v) => Some(v as int),
        None => None,
    }
}

/// Derive the governing parent domain of `fqdn` under the fixed two-label
/// suffix rule, or `None` when `fqdn` has no dot (fewer than two labels).
pub fn parent_of(fqdn: &str) -> (r: Option<String>)
    ensures
        match r {
            Some(p) => well_formed_fqdn(fqdn@) && p@ == parent_of_spec(fqdn@),
            None => !well_formed_fqdn(fqdn@),
        },
{
    let n = fqdn.unicode_len();
    let mut last: Option<usize> = None;
    let mut prev: Option<usize> = None;
    let mut i: usize = 0;
    while i < n
        invariant
            i <= n,
            n == fqdn@.len(),
            opt_index(last) == last_dot_before(fqdn@, i as int),
            opt_index(prev) == (match last {
                Some(l) => last_dot_before(fqdn@, l as int),
                None => None::<int>,
            }),
        decreases n - i,
    {
        let c = fqdn.get_char(i);
        if c == '.' {
            prev = last;
            last = Some(i);
        }
        i = i + 1;
    }
    match last {
        None => {
            proof {
                lemma_last_dot_before_properties(fqdn@, n as int);
            }
            None
        },
        Some(l) => {
            proof {
                lemma_last_dot_before_properties(fqdn@, n as int);
                lemma_last_dot_before_properties(fqdn@, l as int);
            }
            let start = match prev {
                None => 0,
                Some(p) => p + 1,
            };
            let suffix = fqdn.substring_char(start, n);
            Some(suffix.to_owned())
        },
    }
}

} // verus!
