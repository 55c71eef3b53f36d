use vstd::prelude::*;

use crate::dictionary::{
    lemma_lex_irreflexive,
    lemma_lex_total,
    lemma_lex_transitive,
    lex_less,
    lex_lt,
    sorted,
    words,
};
use crate::distance::{chars_of, edit_distance, lemma_lev_zero, lev, same_chars};

verus! {

/// A suggestion is made only for a dictionary word closer than this.
pub const MAX_DIFFERENCE: usize = 4;

/// How a word fares against the dictionary.
#[derive(Debug, Clone, Copy, PartialEq, Eq)]
pub enum Correction<'a> {
    /// The word is in the dictionary.
    Correct,
    /// The closest dictionary word, borrowed from the dictionary.
    Recommendation(&'a str),
    /// No dictionary word is close enough.
    Unknown,
}

/// The mathematical value of a `Correction`.
pub enum Outcome {
    Correct,
    Recommendation(Seq<char>),
    Unknown,
}

impl<'a> View for Correction<'a> {
    type V = Outcome;

    open spec fn view(&self) -> Outcome {
        match self {
            Correction::Correct => Outcome::Correct,
            Correction::Recommendation(w) => Outcome::Recommendation(w@),
            Correction::Unknown => Outcome::Unknown,
        }
    }
}

/// How many entries of `d` come strictly before `w`; for a sorted `d` this is
/// where `w` would be inserted.
pub open spec fn lower_count(d: Seq<Seq<char>>, w: Seq<char>) -> nat
    decreases d.len(),
{
    if d.len() == 0 {
        0
    } else {
        lower_count(d.drop_last(), w) + if lex_lt(d.last(), w) {
            1nat
        } else {
            0nat
        }
    }
}

/// The first index of the rightward walk; the leftward walk starts just below it.
pub open spec fn walk_start(d: Seq<Seq<char>>, w: Seq<char>) -> int {
    let p = lower_count(d, w) as int;
    if p < d.len() {
        p + 1
    } else {
        d.len() as int
    }
}

/// The position of index `i` in the walk that starts at `s`: each round looks
/// at the next entry to the right first, then at the next entry to the left.
pub open spec fn visit_rank(s: int, i: int) -> int {
    if i >= s {
        2 * (i - s)
    } else {
        2 * (s - 1 - i) + 1
    }
}

/// Entry `i` is the one to suggest for `w`: close enough, no entry closer, and
/// among equally close entries the first that the walk reaches.
pub open spec fn is_best(w: Seq<char>, d: Seq<Seq<char>>, i: int) -> bool {
    &&& 0 <= i < d.len()
    &&& lev(w, d[i]) < MAX_DIFFERENCE
    &&& forall|j: int|
        0 <= j < d.len() ==> lev(w, #[trigger] d[j]) > lev(w, d[i]) || (lev(w, d[j]) == lev(
            w,
            d[i],
        ) && visit_rank(walk_start(d, w), i) <= visit_rank(walk_start(d, w), j))
}

/// What `spellcheck` answers for `w` against the sorted dictionary `d`.
pub open spec fn search_outcome(w: Seq<char>, d: Seq<Seq<char>>) -> Outcome {
    if d.contains(w) {
        Outcome::Correct
    } else if exists|i: int| 0 <= i < d.len() && lev(w, #[trigger] d[i]) < MAX_DIFFERENCE {
        Outcome::Recommendation(d[choose|i: int| is_best(w, d, i)])
    } else {
        Outcome::Unknown
    }
}

/// The state of the walk over the visited entries `lo..hi`.
spec fn tracks(
    w: Seq<char>,
    d: Seq<Seq<char>>,
    s: int,
    lo: int,
    hi: int,
    found: bool,
    best: int,
    index: int,
) -> bool {
    &&& 0 <= lo <= hi <= d.len()
    &&& found ==> {
        &&& lo <= index < hi
        &&& lev(w, d[index]) == best
        &&& best < MAX_DIFFERENCE
        &&& forall|j: int|
            lo <= j < hi ==> lev(w, #[trigger] d[j]) > best || (lev(w, d[j]) == best
                && visit_rank(s, index) <= visit_rank(s, j))
    }
    &&& !found ==> {
        &&& best == MAX_DIFFERENCE
        &&& forall|j: int| lo <= j < hi ==> lev(w, #[trigger] d[j]) >= MAX_DIFFERENCE
    }
}

proof fn lemma_lower_count(d: Seq<Seq<char>>, w: Seq<char>, p: int)
    requires
        0 <= p <= d.len(),
        forall|j: int| 0 <= j < p ==> lex_lt(#[trigger] d[j], w),
        forall|j: int| p <= j < d.len() ==> !lex_lt(#[trigger] d[j], w),
    ensures
        lower_count(d, w) == p,
    decreases d.len(),
{
    if d.len() > 0 {
        let q = if p == d.len() {
            p - 1
        } else {
            p
        };
        assert(forall|j: int| 0 <= j < d.len() - 1 ==> #[trigger] d.drop_last()[j] == d[j]);
        lemma_lower_count(d.drop_last(), w, q);
    }
}

proof fn lemma_best_unique(w: Seq<char>, d: Seq<Seq<char>>, i: int, k: int)
    requires
        is_best(w, d, i),
        is_best(w, d, k),
    ensures
        i == k,
{
    assert(lev(w, d[k]) >= lev(w, d[i]));
    assert(lev(w, d[i]) >= lev(w, d[k]));
}

/// Binary search: whether `target` is in the dictionary and, if not, where it
/// would be inserted.
fn insertion_point(target: &Vec<char>, dictionary: &[String]) -> (res: (bool, usize))
    requires
        sorted(words(dictionary@)),
    ensures
        res.0 == words(dictionary@).contains(target@),
        !res.0 ==> res.1 == lower_count(words(dictionary@), target@),
{
    let ghost d = words(dictionary@);
    let ghost w = target@;
    let mut lo: usize = 0;
    let mut hi: usize = dictionary.len();
    while lo < hi
        invariant
            d == words(dictionary@),
            w == target@,
            sorted(d),
            lo <= hi <= dictionary.len(),
            forall|j: int| 0 <= j < lo ==> lex_lt(#[trigger] d[j], w),
            forall|j: int| hi <= j < d.len() ==> lex_lt(w, #[trigger] d[j]),
        decreases hi - lo,
    {
        let mid = lo + (hi - lo) / 2;
        let entry = chars_of(dictionary[mid].as_str());
        assert(entry@ == d[mid as int]);
        if same_chars(&entry, target) {
            return (true, mid);
        }
        if lex_less(&entry, target) {
            assert forall|j: int| 0 <= j <= mid implies lex_lt(#[trigger] d[j], w) by {
                if j < mid && d[j] != d[mid as int] {
                    lemma_lex_transitive(d[j], d[mid as int], w);
                }
            }
            lo = mid + 1;
        } else {
            proof {
                lemma_lex_total(entry@, w);
            }
            assert forall|j: int| mid <= j < d.len() implies lex_lt(w, #[trigger] d[j]) by {
                if mid < j && d[j] != d[mid as int] {
                    lemma_lex_transitive(w, d[mid as int], d[j]);
                }
            }
            hi = mid;
        }
    }
    proof {
        assert forall|j: int| 0 <= j < d.len() implies #[trigger] d[j] != w by {
            lemma_lex_irreflexive(w);
        }
        assert forall|j: int| lo <= j < d.len() implies !lex_lt(#[trigger] d[j], w) by {
            if lex_lt(d[j], w) {
                lemma_lex_transitive(w, d[j], w);
                lemma_lex_irreflexive(w);
            }
        }
        lemma_lower_count(d, w, lo as int);
    }
    (false, lo)
}

/// Looks at entry `x`, next in the walk, and keeps it if it beats the best so far.
fn consider(
    word: &str,
    dictionary: &[String],
    x: usize,
    best: usize,
    found: bool,
    index: usize,
    Ghost(s): Ghost<int>,
    Ghost(lo): Ghost<int>,
    Ghost(hi): Ghost<int>,
) -> (res: (usize, bool, usize))
    requires
        tracks(word@, words(dictionary@), s, lo, hi, found, best as int, index as int),
        x < dictionary.len(),
        x == hi || x + 1 == lo,
        forall|j: int| lo <= j < hi ==> visit_rank(s, j) < visit_rank(s, x as int),
    ensures
        tracks(
            word@,
            words(dictionary@),
            s,
            if x == hi {
                lo
            } else {
                x as int
            },
            if x == hi {
                hi + 1
            } else {
                hi
            },
            res.1,
            res.0 as int,
            res.2 as int,
        ),
{
    let ghost d = words(dictionary@);
    assert(dictionary[x as int]@ == d[x as int]);
    if let Some(dist) = edit_distance(word, dictionary[x].as_str(), Some(best)) {
        if dist < best {
            return (dist, true, x);
        }
    }
    (best, found, index)
}

/// Checks `word` against the sorted `dictionary`.
///
/// An exact match is `Correct`. Otherwise the search starts where `word` would
/// be inserted and walks outwards in both directions, keeping the closest entry
/// under `MAX_DIFFERENCE`; each distance is computed with the best distance so
/// far as its limit, so that hopeless entries are dropped early. A distance of
/// one cannot be beaten and ends the walk at once.
///
/// The walk prefers alphabetical neighbours of `word` for speed, not for
/// correctness: it goes on to the ends of the dictionary unless it meets an
/// entry one edit away, so the entry it suggests is always among the closest.
/// The order of the walk decides only between equally close entries.
pub fn spellcheck<'a>(word: &str, dictionary: &'a [String]) -> (r: Correction<'a>)
    requires
        sorted(words(dictionary@)),
    ensures
        r@ == search_outcome(word@, words(dictionary@)),
{
    let ghost d = words(dictionary@);
    let ghost w = word@;
    let target = chars_of(word);
    let (present, p) = insertion_point(&target, dictionary);
    if present {
        return Correction::Correct;
    }
    proof {
        assert forall|j: int| 0 <= j < d.len() implies lev(w, #[trigger] d[j]) >= 1 by {
            if lev(w, d[j]) == 0 {
                lemma_lev_zero(w, d[j]);
            }
        }
    }
    let n = dictionary.len();
    let start = if p < n {
        p + 1
    } else {
        n
    };
    let mut l = start;
    let mut r = start;
    let mut best = MAX_DIFFERENCE;
    let mut found = false;
    let mut index: usize = 0;
    let ghost mut t: int = 0;
    while l > 0 || r < n
        invariant
            d == words(dictionary@),
            w == word@,
            !d.contains(w),
            n == d.len(),
            start == walk_start(d, w),
            start <= n,
            t >= 0,
            r == if start + t <= n {
                start + t
            } else {
                n as int
            },
            l == if t <= start {
                start - t
            } else {
                0
            },
            tracks(w, d, start as int, l as int, r as int, found, best as int, index as int),
            forall|j: int| 0 <= j < d.len() ==> lev(w, #[trigger] d[j]) >= 1,
        decreases l + (n - r),
    {
        if r < n {
            let res = consider(
                word,
                dictionary,
                r,
                best,
                found,
                index,
                Ghost(start as int),
                Ghost(l as int),
                Ghost(r as int),
            );
            best = res.0;
            found = res.1;
            index = res.2;
            r = r + 1;
        }
        if l > 0 {
            let res = consider(
                word,
                dictionary,
                l - 1,
                best,
                found,
                index,
                Ghost(start as int),
                Ghost(l as int),
                Ghost(r as int),
            );
            best = res.0;
            found = res.1;
            index = res.2;
            l = l - 1;
        }
        proof {
            t = t + 1;
        }
        if found && best == 1 {
            proof {
                assert forall|j: int| 0 <= j < d.len() && !(l <= j < r) implies visit_rank(
                    start as int,
                    index as int,
                ) < visit_rank(start as int, j) by {}
                lemma_walk_result(w, d, start as int, l as int, r as int, index as int);
            }
            return Correction::Recommendation(dictionary[index].as_str());
        }
    }
    if found {
        proof {
            lemma_walk_result(w, d, start as int, l as int, r as int, index as int);
        }
        Correction::Recommendation(dictionary[index].as_str())
    } else {
        proof {
            assert(!exists|i: int| 0 <= i < d.len() && lev(w, #[trigger] d[i]) < MAX_DIFFERENCE);
        }
        Correction::Unknown
    }
}

/// The entry that the walk settled on is the one to suggest, when every entry it
/// has not visited is no closer and comes later in the walk.
proof fn lemma_walk_result(
    w: Seq<char>,
    d: Seq<Seq<char>>,
    s: int,
    lo: int,
    hi: int,
    index: int,
)
    requires
        s == walk_start(d, w),
        !d.contains(w),
        tracks(w, d, s, lo, hi, true, lev(w, d[index]) as int, index),
        forall|j: int|
            0 <= j < d.len() && !(lo <= j < hi) ==> lev(w, #[trigger] d[j]) >= lev(w, d[index])
                && visit_rank(s, index) < visit_rank(s, j),
    ensures
        search_outcome(w, d) == Outcome::Recommendation(d[index]),
{
    assert(is_best(w, d, index));
    assert(exists|i: int| 0 <= i < d.len() && lev(w, #[trigger] d[i]) < MAX_DIFFERENCE);
    let k = choose|i: int| is_best(w, d, i);
    lemma_best_unique(w, d, index, k);
}

proof fn lemma_best_among_first(w: Seq<char>, d: Seq<Seq<char>>, k: int) -> (i: int)
    requires
        1 <= k <= d.len(),
    ensures
        0 <= i < k,
        forall|j: int|
            0 <= j < k ==> lev(w, #[trigger] d[j]) > lev(w, d[i]) || (lev(w, d[j]) == lev(w, d[i])
                && visit_rank(walk_start(d, w), i) <= visit_rank(walk_start(d, w), j)),
    decreases k,
{
    if k == 1 {
        0
    } else {
        let s = walk_start(d, w);
        let i0 = lemma_best_among_first(w, d, k - 1);
        if lev(w, d[k - 1]) < lev(w, d[i0]) || (lev(w, d[k - 1]) == lev(w, d[i0]) && visit_rank(
            s,
            k - 1,
        ) < visit_rank(s, i0)) {
            k - 1
        } else {
            i0
        }
    }
}

/// Every word of the dictionary is reported as correct.
pub proof fn law_dictionary_words_are_correct(w: Seq<char>, d: Seq<Seq<char>>)
    requires
        d.contains(w),
    ensures
        search_outcome(w, d) == Outcome::Correct,
{
}

/// A suggestion is never `MAX_DIFFERENCE` or more edits away from the word.
pub proof fn law_suggestion_is_close(w: Seq<char>, d: Seq<Seq<char>>)
    ensures
        search_outcome(w, d) is Recommendation ==> lev(w, search_outcome(w, d)->Recommendation_0)
            < MAX_DIFFERENCE,
{
    if !d.contains(w) && exists|i: int| 0 <= i < d.len() && lev(w, #[trigger] d[i]) < MAX_DIFFERENCE {
        let i = lemma_best_among_first(w, d, d.len() as int);
        let k = choose|i: int| 0 <= i < d.len() && lev(w, #[trigger] d[i]) < MAX_DIFFERENCE;
        assert(lev(w, d[k]) >= lev(w, d[i]));
        assert(is_best(w, d, i));
    }
}

} // verus!
