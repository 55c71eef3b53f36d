use vstd::prelude::*;
use vstd::std_specs::iter::IteratorSpec;

verus! {

pub open spec fn min_nat(x: nat, y: nat) -> nat {
    if x <= y {
        x
    } else {
        y
    }
}

/// Levenshtein distance: the least number of single-character insertions,
/// deletions and substitutions that turn `a` into `b`.
pub open spec fn lev(a: Seq<char>, b: Seq<char>) -> nat
    decreases a.len() + b.len(),
{
    if a.len() == 0 {
        b.len()
    } else if b.len() == 0 {
        a.len()
    } else {
        let cost: nat = if a.last() == b.last() {
            0
        } else {
            1
        };
        min_nat(
            min_nat(lev(a.drop_last(), b) + 1, lev(a, b.drop_last()) + 1),
            lev(a.drop_last(), b.drop_last()) + cost,
        )
    }
}

/// The distance from `a` to `b` is the distance from `b` to `a`.
pub proof fn lemma_lev_symmetric(a: Seq<char>, b: Seq<char>)
    ensures
        lev(a, b) == lev(b, a),
    decreases a.len() + b.len(),
{
    if a.len() > 0 && b.len() > 0 {
        lemma_lev_symmetric(a.drop_last(), b);
        lemma_lev_symmetric(a, b.drop_last());
        lemma_lev_symmetric(a.drop_last(), b.drop_last());
    }
}

/// A word is at distance zero from itself, which is within any limit.
pub proof fn lemma_lev_self(a: Seq<char>)
    ensures
        lev(a, a) == 0,
    decreases a.len(),
{
    if a.len() > 0 {
        lemma_lev_self(a.drop_last());
    }
}

/// The distance is at least the difference of the lengths.
pub proof fn lemma_lev_len_gap(a: Seq<char>, b: Seq<char>)
    ensures
        lev(a, b) >= a.len() - b.len(),
        lev(a, b) >= b.len() - a.len(),
    decreases a.len() + b.len(),
{
    if a.len() > 0 && b.len() > 0 {
        lemma_lev_len_gap(a.drop_last(), b);
        lemma_lev_len_gap(a, b.drop_last());
        lemma_lev_len_gap(a.drop_last(), b.drop_last());
    }
}

/// The distance is at most the longer length.
pub proof fn lemma_lev_upper(a: Seq<char>, b: Seq<char>)
    ensures
        lev(a, b) <= a.len() || lev(a, b) <= b.len(),
        lev(a, b) <= a.len() + b.len(),
    decreases a.len() + b.len(),
{
    if a.len() > 0 && b.len() > 0 {
        lemma_lev_upper(a.drop_last(), b.drop_last());
        lemma_lev_upper(a.drop_last(), b);
    }
}

/// Only equal sequences are at distance zero.
pub proof fn lemma_lev_zero(a: Seq<char>, b: Seq<char>)
    requires
        lev(a, b) == 0,
    ensures
        a == b,
    decreases a.len() + b.len(),
{
    if a.len() > 0 && b.len() > 0 {
        lemma_lev_zero(a.drop_last(), b.drop_last());
        assert(a =~= a.drop_last().push(a.last()));
        assert(b =~= b.drop_last().push(b.last()));
    } else {
        assert(a =~= b);
    }
}

proof fn lemma_take_drop_last(s: Seq<char>, k: int)
    requires
        0 < k <= s.len(),
    ensures
        s.take(k).drop_last() == s.take(k - 1),
        s.take(k).last() == s[k - 1],
{
    assert(s.take(k).drop_last() =~= s.take(k - 1));
}

/// One step of the table: the cell at (`i`, `j`) from its three neighbours.
proof fn lemma_lev_step(a: Seq<char>, b: Seq<char>, i: int, j: int)
    requires
        0 < i <= a.len(),
        0 < j <= b.len(),
    ensures
        lev(a.take(i), b.take(j)) == min_nat(
            min_nat(lev(a.take(i - 1), b.take(j)) + 1, lev(a.take(i), b.take(j - 1)) + 1),
            lev(a.take(i - 1), b.take(j - 1)) + (if a[i - 1] == b[j - 1] {
                0nat
            } else {
                1nat
            }),
        ),
{
    lemma_take_drop_last(a, i);
    lemma_take_drop_last(b, j);
}

proof fn lemma_cell_at_least(a: Seq<char>, b: Seq<char>, i: int, lo: int, i2: int, j2: int)
    requires
        0 <= i <= i2 <= a.len(),
        0 <= j2 <= b.len(),
        forall|j: int| 0 <= j <= b.len() ==> lev(a.take(i), #[trigger] b.take(j)) >= lo,
    ensures
        lev(a.take(i2), b.take(j2)) >= lo,
    decreases i2 + j2,
{
    if i2 > i {
        if j2 == 0 {
            assert(lev(a.take(i), b.take(0)) >= lo);
            assert(lev(a.take(i), b.take(0)) == i);
        } else {
            lemma_lev_step(a, b, i2, j2);
            lemma_cell_at_least(a, b, i, lo, i2 - 1, j2);
            lemma_cell_at_least(a, b, i, lo, i2, j2 - 1);
            lemma_cell_at_least(a, b, i, lo, i2 - 1, j2 - 1);
        }
    }
}

/// A row of the table whose every cell is above `lo` puts the whole distance above `lo`.
proof fn lemma_row_bounds_distance(a: Seq<char>, b: Seq<char>, i: int, lo: int)
    requires
        0 <= i <= a.len(),
        forall|j: int| 0 <= j <= b.len() ==> lev(a.take(i), #[trigger] b.take(j)) >= lo,
    ensures
        lev(a, b) >= lo,
{
    lemma_cell_at_least(a, b, i, lo, a.len() as int, b.len() as int);
    assert(a.take(a.len() as int) =~= a);
    assert(b.take(b.len() as int) =~= b);
}

/// The characters of `s`, in order.
pub fn chars_of(s: &str) -> (r: Vec<char>)
    ensures
        r@ == s@,
{
    let mut out: Vec<char> = Vec::new();
    for c in it: s.chars()
        invariant
            out@ == it.seq().take(it.index() as int),
    {
        out.push(c);
    }
    out
}

/// Whether two character vectors hold the same characters.
pub fn same_chars(a: &Vec<char>, b: &Vec<char>) -> (r: bool)
    ensures
        r == (a@ == b@),
{
    if a.len() != b.len() {
        return false;
    }
    let mut i: usize = 0;
    while i < a.len()
        invariant
            a.len() == b.len(),
            i <= a.len(),
            forall|k: int| 0 <= k < i ==> a@[k] == b@[k],
        decreases a.len() - i,
    {
        if a[i] != b[i] {
            return false;
        }
        i = i + 1;
    }
    assert(a@ =~= b@);
    true
}

/// The first row of the table: the distance from the empty prefix of `longer`
/// to each prefix of `shorter`.
fn first_row(shorter: &Vec<char>, longer: &Vec<char>) -> (row: Vec<usize>)
    ensures
        row.len() == shorter.len() + 1,
        forall|j: int|
            0 <= j <= shorter.len() ==> #[trigger] row@[j] == lev(longer@.take(0), shorter@.take(j)),
{
    let n = shorter.len();
    let mut row: Vec<usize> = Vec::new();
    row.push(0);
    let mut j: usize = 0;
    while j < n
        invariant
            j <= n,
            n == shorter.len(),
            row.len() == j + 1,
            forall|k: int| 0 <= k <= j ==> #[trigger] row@[k] == k,
        decreases n - j,
    {
        row.push(j + 1);
        j = j + 1;
    }
    assert forall|k: int| 0 <= k <= n implies #[trigger] row@[k] == lev(
        longer@.take(0),
        shorter@.take(k),
    ) by {
        assert(longer@.take(0).len() == 0);
    }
    row
}

/// The row after `prev` (which is row `i`), together with its least cell.
fn next_row(shorter: &Vec<char>, longer: &Vec<char>, prev: &Vec<usize>, i: usize) -> (res: (
    Vec<usize>,
    usize,
))
    requires
        i < longer.len(),
        shorter.len() <= longer.len(),
        prev.len() == shorter.len() + 1,
        forall|j: int|
            0 <= j <= shorter.len() ==> #[trigger] prev@[j] == lev(
                longer@.take(i as int),
                shorter@.take(j),
            ),
    ensures
        res.0.len() == shorter.len() + 1,
        forall|j: int|
            0 <= j <= shorter.len() ==> #[trigger] res.0@[j] == lev(
                longer@.take(i + 1),
                shorter@.take(j),
            ),
        forall|j: int| 0 <= j <= shorter.len() ==> res.1 <= #[trigger] res.0@[j],
{
    let n = shorter.len();
    let mut row: Vec<usize> = Vec::new();
    // The first cell of a row is the length of the prefix of `longer`.
    row.push(i + 1);
    let mut min_value = i + 1;
    proof {
        assert(shorter@.take(0).len() == 0);
    }
    let mut j: usize = 0;
    while j < n
        invariant
            j <= n,
            n == shorter.len(),
            i < longer.len(),
            n <= longer.len(),
            prev.len() == n + 1,
            forall|k: int|
                0 <= k <= n ==> #[trigger] prev@[k] == lev(longer@.take(i as int), shorter@.take(k)),
            row.len() == j + 1,
            forall|k: int|
                0 <= k <= j ==> #[trigger] row@[k] == lev(longer@.take(i + 1), shorter@.take(k)),
            forall|k: int| 0 <= k <= j ==> min_value <= #[trigger] row@[k],
        decreases n - j,
    {
        let left = row[j];
        let up = prev[j + 1];
        let swap = prev[j];
        proof {
            lemma_lev_upper(longer@.take(i as int), shorter@.take(j as int));
            lemma_lev_step(longer@, shorter@, i + 1, j + 1);
        }
        let closer = if left < up {
            left
        } else {
            up
        };
        // Taking the diagonal only pays when it is no worse than the other two.
        let best = if swap <= closer {
            let cost: usize = if shorter[j] == longer[i] {
                0
            } else {
                1
            };
            swap + cost
        } else {
            closer + 1
        };
        row.push(best);
        if best < min_value {
            min_value = best;
        }
        j = j + 1;
    }
    (row, min_value)
}

/// The edit distance between `word1` and `word2`, counted in characters, or
/// `None` when a `limit` is given and the distance exceeds it.
///
/// The table is filled one row at a time; as soon as every cell of a row is
/// above the limit the work stops, since no later row can come back under it.
pub fn edit_distance(word1: &str, word2: &str, limit: Option<usize>) -> (r: Option<usize>)
    ensures
        r is Some <==> (limit is None || lev(word1@, word2@) <= limit->0),
        r is Some ==> r->0 == lev(word1@, word2@),
{
    let chars1 = chars_of(word1);
    let chars2 = chars_of(word2);
    if same_chars(&chars1, &chars2) {
        proof {
            lemma_lev_self(word1@);
        }
        return Some(0);
    }
    proof {
        lemma_lev_symmetric(word1@, word2@);
    }
    let (shorter, longer) = if chars1.len() < chars2.len() {
        (chars1, chars2)
    } else {
        (chars2, chars1)
    };
    let n = shorter.len();
    let m = longer.len();
    assert(lev(shorter@, longer@) == lev(word1@, word2@));
    proof {
        lemma_lev_symmetric(shorter@, longer@);
    }
    // The difference in length alone may already exceed the limit.
    if let Some(l) = limit {
        if m - n > l {
            proof {
                lemma_lev_len_gap(longer@, shorter@);
            }
            return None;
        }
    }
    let mut prev = first_row(&shorter, &longer);
    let mut i: usize = 0;
    while i < m
        invariant
            i <= m,
            n == shorter.len(),
            m == longer.len(),
            n <= m,
            prev.len() == n + 1,
            forall|j: int|
                0 <= j <= n ==> #[trigger] prev@[j] == lev(longer@.take(i as int), shorter@.take(j)),
            lev(longer@, shorter@) == lev(word1@, word2@),
        decreases m - i,
    {
        let (row, min_value) = next_row(&shorter, &longer, &prev, i);
        if let Some(l) = limit {
            if min_value > l {
                proof {
                    assert forall|j: int| 0 <= j <= n implies lev(
                        longer@.take(i + 1),
                        #[trigger] shorter@.take(j),
                    ) >= min_value by {
                        assert(row@[j] >= min_value);
                    }
                    lemma_row_bounds_distance(longer@, shorter@, i + 1, min_value as int);
                }
                return None;
            }
        }
        prev = row;
        i = i + 1;
    }
    let d = prev[n];
    proof {
        assert(longer@.take(m as int) =~= longer@);
        assert(shorter@.take(n as int) =~= shorter@);
    }
    if let Some(l) = limit {
        if d > l {
            return None;
        }
    }
    Some(d)
}

} // verus!
