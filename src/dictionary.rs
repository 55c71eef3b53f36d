use vstd::prelude::*;

use vstd::seq_lib::lemma_multiset_commutative;
use vstd::utf8::is_ascii_chars;

use crate::distance::chars_of;
use crate::text::{lower_of, lowercase, trim, trimmed};

verus! {

broadcast use vstd::seq_lib::group_to_multiset_ensures, vstd::multiset::group_multiset_axioms;

/// Strict lexicographic order on characters, by code point (which is also the
/// byte order of their UTF-8 encodings).
pub open spec fn lex_lt(a: Seq<char>, b: Seq<char>) -> bool
    decreases a.len(),
{
    if b.len() == 0 {
        false
    } else if a.len() == 0 {
        true
    } else if a[0] == b[0] {
        lex_lt(a.drop_first(), b.drop_first())
    } else {
        (a[0] as int) < (b[0] as int)
    }
}

pub open spec fn lex_le(a: Seq<char>, b: Seq<char>) -> bool {
    a == b || lex_lt(a, b)
}

/// The words of a dictionary, as character sequences.
pub open spec fn words(d: Seq<String>) -> Seq<Seq<char>> {
    d.map_values(|s: String| s@)
}

/// Ascending order: the invariant that every search relies on.
pub open spec fn sorted(d: Seq<Seq<char>>) -> bool {
    forall|i: int, j: int| 0 <= i < j < d.len() ==> lex_le(#[trigger] d[i], #[trigger] d[j])
}

pub proof fn lemma_lex_irreflexive(a: Seq<char>)
    ensures
        !lex_lt(a, a),
    decreases a.len(),
{
    if a.len() > 0 {
        lemma_lex_irreflexive(a.drop_first());
    }
}

pub proof fn lemma_lex_transitive(a: Seq<char>, b: Seq<char>, c: Seq<char>)
    requires
        lex_lt(a, b),
        lex_lt(b, c),
    ensures
        lex_lt(a, c),
    decreases a.len(),
{
    if a.len() > 0 && a[0] == b[0] && b[0] == c[0] {
        lemma_lex_transitive(a.drop_first(), b.drop_first(), c.drop_first());
    }
}

pub proof fn lemma_lex_total(a: Seq<char>, b: Seq<char>)
    requires
        a != b,
    ensures
        lex_lt(a, b) || lex_lt(b, a),
    decreases a.len(),
{
    if a.len() == 0 || b.len() == 0 {
        if a.len() == 0 && b.len() == 0 {
            assert(a =~= b);
        }
    } else if a[0] == b[0] {
        if a.drop_first() == b.drop_first() {
            assert(a =~= seq![a[0]] + a.drop_first());
            assert(b =~= seq![b[0]] + b.drop_first());
        }
        lemma_lex_total(a.drop_first(), b.drop_first());
    } else {
        assert(a[0] as int != b[0] as int);
    }
}

proof fn lemma_lex_skip(a: Seq<char>, b: Seq<char>, i: int)
    requires
        0 <= i <= a.len(),
        i <= b.len(),
        forall|k: int| 0 <= k < i ==> a[k] == b[k],
    ensures
        lex_lt(a, b) == lex_lt(a.skip(i), b.skip(i)),
    decreases i,
{
    if i > 0 {
        lemma_lex_skip(a.drop_first(), b.drop_first(), i - 1);
        assert(a.drop_first().skip(i - 1) =~= a.skip(i));
        assert(b.drop_first().skip(i - 1) =~= b.skip(i));
    } else {
        assert(a.skip(0) =~= a);
        assert(b.skip(0) =~= b);
    }
}

/// Whether `a` comes strictly before `b`.
pub fn lex_less(a: &Vec<char>, b: &Vec<char>) -> (r: bool)
    ensures
        r == lex_lt(a@, b@),
{
    let mut i: usize = 0;
    while i < a.len() && i < b.len()
        invariant
            i <= a.len(),
            i <= b.len(),
            forall|k: int| 0 <= k < i ==> a@[k] == b@[k],
        decreases a.len() - i,
    {
        if a[i] != b[i] {
            proof {
                lemma_lex_skip(a@, b@, i as int);
            }
            return a[i] < b[i];
        }
        i = i + 1;
    }
    proof {
        lemma_lex_skip(a@, b@, i as int);
    }
    a.len() < b.len()
}

/// The dictionary entry that a line of the word list gives: the line trimmed
/// and lowercased.
pub open spec fn entry_of(line: Seq<char>) -> Seq<char> {
    lower_of(trimmed(line))
}

/// The entries of a word list, in the order of its lines, without those that
/// hold a character outside ASCII.
pub open spec fn entries(lines: Seq<String>) -> Seq<Seq<char>> {
    ascii_only(lines.map_values(|l: String| entry_of(l@)))
}

pub open spec fn ascii_only(s: Seq<Seq<char>>) -> Seq<Seq<char>> {
    s.filter(|e: Seq<char>| is_ascii_chars(e))
}

proof fn lemma_entries_push(lines: Seq<String>, x: String)
    ensures
        entries(lines.push(x)) == if is_ascii_chars(entry_of(x@)) {
            entries(lines).push(entry_of(x@))
        } else {
            entries(lines)
        },
{
    let m = lines.map_values(|l: String| entry_of(l@));
    let m2 = lines.push(x).map_values(|l: String| entry_of(l@));
    assert(m2 =~= m.push(entry_of(x@)));
    assert(m2.drop_last() =~= m);
    reveal(Seq::filter);
}

proof fn lemma_words_push(s: Seq<String>, x: String)
    ensures
        words(s.push(x)) == words(s).push(x@),
{
    assert(words(s.push(x)) =~= words(s).push(x@));
}

/// Whether string `a` comes strictly before string `b`.
fn string_less(a: &String, b: &String) -> (r: bool)
    ensures
        r == lex_lt(a@, b@),
{
    let ca = chars_of(a.as_str());
    let cb = chars_of(b.as_str());
    lex_less(&ca, &cb)
}

/// Merges two sorted lists into one sorted list.
fn merge(a: Vec<String>, b: Vec<String>) -> (r: Vec<String>)
    requires
        sorted(words(a@)),
        sorted(words(b@)),
    ensures
        sorted(words(r@)),
        words(r@).to_multiset() == words(a@).to_multiset().add(words(b@).to_multiset()),
{
    let mut out: Vec<String> = Vec::new();
    let mut i: usize = 0;
    let mut j: usize = 0;
    proof {
        assert(words(a@.take(0)) =~= words(out@));
        assert(words(b@.take(0)) =~= words(out@));
        assert(words(out@).len() == 0);
        assert(words(out@).to_multiset() =~= words(out@).to_multiset().add(
            words(out@).to_multiset(),
        ));
    }
    while i < a.len() || j < b.len()
        invariant
            sorted(words(a@)),
            sorted(words(b@)),
            i <= a.len(),
            j <= b.len(),
            sorted(words(out@)),
            words(out@).to_multiset() == words(a@.take(i as int)).to_multiset().add(
                words(b@.take(j as int)).to_multiset(),
            ),
            out.len() > 0 && i < a.len() ==> lex_le(out@.last()@, a@[i as int]@),
            out.len() > 0 && j < b.len() ==> lex_le(out@.last()@, b@[j as int]@),
        decreases a.len() + b.len() - i - j,
    {
        let ghost before = out@;
        let take_a = if i >= a.len() {
            false
        } else if j >= b.len() {
            true
        } else {
            !string_less(&b[j], &a[i])
        };
        proof {
            if i < a.len() && j < b.len() && take_a && a@[i as int]@ != b@[j as int]@ {
                lemma_lex_total(a@[i as int]@, b@[j as int]@);
            }
        }
        if take_a {
            out.push(a[i].clone());
            proof {
                assert(a@.take(i + 1) =~= a@.take(i as int).push(a@[i as int]));
                lemma_words_push(a@.take(i as int), a@[i as int]);
                lemma_words_push(before, a@[i as int]);
                assert(words(a@)[i as int] == a@[i as int]@);
                if i + 1 < a.len() {
                    assert(words(a@)[i + 1] == a@[i + 1]@);
                }
                assert(words(out@).to_multiset() =~= words(a@.take(i + 1)).to_multiset().add(
                    words(b@.take(j as int)).to_multiset(),
                ));
            }
            i = i + 1;
        } else {
            out.push(b[j].clone());
            proof {
                assert(b@.take(j + 1) =~= b@.take(j as int).push(b@[j as int]));
                lemma_words_push(b@.take(j as int), b@[j as int]);
                lemma_words_push(before, b@[j as int]);
                assert(words(b@)[j as int] == b@[j as int]@);
                if j + 1 < b.len() {
                    assert(words(b@)[j + 1] == b@[j + 1]@);
                }
                assert(words(out@).to_multiset() =~= words(a@.take(i as int)).to_multiset().add(
                    words(b@.take(j + 1)).to_multiset(),
                ));
            }
            j = j + 1;
        }
        proof {
            let wo = words(out@);
            assert forall|p: int, q: int| 0 <= p < q < wo.len() implies lex_le(
                #[trigger] wo[p],
                #[trigger] wo[q],
            ) by {
                if q == wo.len() - 1 && p < q {
                    assert(wo[p] == words(before)[p]);
                    if p < wo.len() - 2 {
                        assert(lex_le(words(before)[p], words(before)[wo.len() - 2]));
                    }
                    if wo[p] != wo[wo.len() - 2] && wo[wo.len() - 2] != wo[q] {
                        lemma_lex_transitive(wo[p], wo[wo.len() - 2], wo[q]);
                    }
                } else {
                    assert(wo[p] == words(before)[p]);
                    assert(wo[q] == words(before)[q]);
                }
            }
        }
    }
    proof {
        assert(a@.take(a.len() as int) =~= a@);
        assert(b@.take(b.len() as int) =~= b@);
    }
    out
}

/// Sorts a list of words in ascending order.
fn merge_sort(v: Vec<String>) -> (r: Vec<String>)
    ensures
        sorted(words(r@)),
        words(r@).to_multiset() == words(v@).to_multiset(),
    decreases v.len(),
{
    if v.len() <= 1 {
        return v;
    }
    let mut left = v;
    let ghost whole = left@;
    let mid = left.len() / 2;
    let right = left.split_off(mid);
    proof {
        assert(words(whole) =~= words(left@) + words(right@));
        lemma_multiset_commutative(words(left@), words(right@));
    }
    let left_sorted = merge_sort(left);
    let right_sorted = merge_sort(right);
    merge(left_sorted, right_sorted)
}

/// Builds the dictionary from the lines of a word list: each line is trimmed
/// and lowercased, kept only if it is all ASCII, and the result is sorted.
pub fn load_dictionary(lines: Vec<String>) -> (r: Vec<String>)
    ensures
        sorted(words(r@)),
        words(r@).to_multiset() == entries(lines@).to_multiset(),
{
    let mut kept: Vec<String> = Vec::new();
    let mut i: usize = 0;
    while i < lines.len()
        invariant
            i <= lines.len(),
            words(kept@) == entries(lines@.take(i as int)),
        decreases lines.len() - i,
    {
        let entry = lowercase(trim(lines[i].as_str()));
        let ghost pre = lines@.take(i as int);
        proof {
            assert(lines@.take(i + 1) =~= pre.push(lines@[i as int]));
        }
        proof {
            lemma_entries_push(pre, lines@[i as int]);
        }
        if entry.as_str().is_ascii() {
            proof {
                lemma_words_push(kept@, entry);
            }
            kept.push(entry);
        }
        i = i + 1;
    }
    proof {
        assert(lines@.take(lines.len() as int) =~= lines@);
    }
    merge_sort(kept)
}

} // verus!
