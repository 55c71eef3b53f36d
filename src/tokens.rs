use vstd::prelude::*;
use vstd::string::{StrSliceExecFns, StringExecFns};

use crate::dictionary::{sorted, words};
use crate::distance::chars_of;
use crate::search::{search_outcome, spellcheck, Correction, Outcome};
use crate::text::{
    debug_str,
    debug_text,
    is_upper,
    is_upper_char,
    lower_of,
    lowercase,
    string_of,
    upper_of,
    uppercase,
};

verus! {

/// A word of the checked text, with the (zero-based) line it stands on.
pub struct Token {
    literal: String,
    line: usize,
}

impl View for Token {
    type V = (Seq<char>, nat);

    closed spec fn view(&self) -> (Seq<char>, nat) {
        (self.literal@, self.line as nat)
    }
}

/// The letter case of a word, to be carried over to a suggestion.
#[derive(Debug, Clone, Copy, PartialEq, Eq, Structural)]
pub enum Capitalization {
    LowerAll,
    UpperAll,
    First,
    Other,
}

/// The letter case of `s`. A capital followed only by non-capitals is `First`
/// (so a single capital letter is `First` too); no capital at all is
/// `LowerAll`; nothing but capitals is `UpperAll`.
pub open spec fn capitalization_of(s: Seq<char>) -> Capitalization {
    if s.len() == 0 {
        Capitalization::Other
    } else if is_upper_char(s[0]) && forall|i: int| 1 <= i < s.len() ==> !is_upper_char(#[trigger] s[i]) {
        Capitalization::First
    } else if forall|i: int| 0 <= i < s.len() ==> !is_upper_char(#[trigger] s[i]) {
        Capitalization::LowerAll
    } else if forall|i: int| 0 <= i < s.len() ==> is_upper_char(#[trigger] s[i]) {
        Capitalization::UpperAll
    } else {
        Capitalization::Other
    }
}

/// `s` written in the letter case `c`.
pub open spec fn applied(c: Capitalization, s: Seq<char>) -> Seq<char> {
    match c {
        Capitalization::Other => s,
        Capitalization::LowerAll => lower_of(s),
        Capitalization::UpperAll => upper_of(s),
        Capitalization::First => if s.len() == 0 {
            s
        } else {
            upper_of(s.take(1)) + lower_of(s.skip(1))
        },
    }
}

impl Capitalization {
    pub fn from(s: &str) -> (r: Self)
        ensures
            r == capitalization_of(s@),
    {
        let chars = chars_of(s);
        if chars.len() == 0 {
            return Capitalization::Other;
        }
        let mut first = true;
        let mut lowercase = true;
        let mut uppercase = true;
        let mut i: usize = 0;
        while i < chars.len()
            invariant
                chars@ == s@,
                0 < chars.len(),
                i <= chars.len(),
                lowercase == forall|k: int| 0 <= k < i ==> !is_upper_char(#[trigger] s@[k]),
                uppercase == forall|k: int| 0 <= k < i ==> is_upper_char(#[trigger] s@[k]),
                first == (i == 0 || (is_upper_char(s@[0]) && forall|k: int|
                    1 <= k < i ==> !is_upper_char(#[trigger] s@[k]))),
            decreases chars.len() - i,
        {
            if is_upper(chars[i]) {
                lowercase = false;
                if i > 0 {
                    first = false;
                }
            } else {
                uppercase = false;
                if i == 0 {
                    first = false;
                }
            }
            i = i + 1;
        }
        if first {
            return Capitalization::First;
        }
        if lowercase {
            return Capitalization::LowerAll;
        }
        if uppercase {
            return Capitalization::UpperAll;
        }
        Capitalization::Other
    }

    /// `s` written in this letter case. `First` capitalises the first
    /// character, whatever its width, and lowercases the rest; it leaves an
    /// empty string empty rather than failing on it.
    pub fn apply(&self, s: &str) -> (r: String)
        ensures
            r@ == applied(*self, s@),
    {
        match self {
            Capitalization::Other => s.to_owned(),
            Capitalization::LowerAll => lowercase(s),
            Capitalization::UpperAll => uppercase(s),
            Capitalization::First => {
                if s.is_empty() {
                    return String::new();
                }
                let len = s.unicode_len();
                let head = uppercase(s.substring_char(0, 1));
                let tail = lowercase(s.substring_char(1, len));
                head.concat(tail.as_str())
            },
        }
    }
}

/// Letters of the English alphabet and the apostrophe make up words; every
/// other character separates them.
pub open spec fn is_word_char(c: char) -> bool {
    ('a' <= c && c <= 'z') || ('A' <= c && c <= 'Z') || c == '\''
}

/// The number of line breaks in `s`.
pub open spec fn newlines(s: Seq<char>) -> nat
    decreases s.len(),
{
    if s.len() == 0 {
        0
    } else {
        newlines(s.drop_last()) + if s.last() == '\n' {
            1nat
        } else {
            0nat
        }
    }
}

/// The words of `s`: its maximal runs of word characters, in order, each with
/// a line number. Every word is on line `line`, unless `by_line` holds, in which
/// case each line break in `s` before a word moves it one line further.
pub open spec fn tokens_of(s: Seq<char>, line: nat, by_line: bool) -> Seq<(Seq<char>, nat)>
    decreases s.len(),
{
    if s.len() == 0 {
        seq![]
    } else {
        let prev = tokens_of(s.drop_last(), line, by_line);
        let c = s.last();
        if !is_word_char(c) {
            prev
        } else if s.len() > 1 && is_word_char(s[s.len() - 2]) {
            // The character extends the word that the previous one belongs to.
            prev.update(prev.len() - 1, (prev.last().0.push(c), prev.last().1))
        } else {
            prev.push(
                (
                    seq![c],
                    line + if by_line {
                        newlines(s.drop_last())
                    } else {
                        0
                    },
                ),
            )
        }
    }
}

pub open spec fn token_views(v: Seq<Token>) -> Seq<(Seq<char>, nat)> {
    v.map_values(|t: Token| t@)
}

proof fn lemma_token_views_push(v: Seq<Token>, t: Token)
    ensures
        token_views(v.push(t)) == token_views(v).push(t@),
{
    assert(token_views(v.push(t)) =~= token_views(v).push(t@));
}

proof fn lemma_newlines_bound(s: Seq<char>)
    ensures
        newlines(s) <= s.len(),
    decreases s.len(),
{
    if s.len() > 0 {
        lemma_newlines_bound(s.drop_last());
    }
}

impl Token {
    fn new(literal: &str, line: usize) -> (r: Self)
        ensures
            r@ == (literal@, line as nat),
    {
        Token { literal: literal.to_owned(), line }
    }

    /// The word as it stands in the text.
    pub fn literal(&self) -> (r: &str)
        ensures
            r@ == self@.0,
    {
        self.literal.as_str()
    }

    /// The zero-based line of the word.
    pub fn line(&self) -> (r: usize)
        ensures
            r == self@.1,
    {
        self.line
    }
}

/// Splits a text into its words, each with its zero-based line. Any character
/// other than an English letter or an apostrophe separates words, white space
/// and characters outside ASCII included.
pub fn tokenize(input: &str) -> (r: Vec<Token>)
    ensures
        token_views(r@) == tokens_of(input@, 0, true),
{
    let chars = chars_of(input);
    scan_words(&chars, 0, true)
}

/// Splits the ASCII text `word` into its words, all on line `line`.
pub fn tokenize_word(word: &str, line: usize) -> (r: Vec<Token>)
    requires
        word.is_ascii(),
    ensures
        token_views(r@) == tokens_of(word@, line as nat, false),
{
    if word.is_empty() {
        return Vec::new();
    }
    let chars = chars_of(word);
    scan_words(&chars, line, false)
}

/// The scan behind `tokenize` and `tokenize_word`.
fn scan_words(chars: &Vec<char>, line: usize, by_line: bool) -> (r: Vec<Token>)
    requires
        by_line ==> line == 0,
    ensures
        token_views(r@) == tokens_of(chars@, line as nat, by_line),
{
    let ghost s = chars@;
    let mut result: Vec<Token> = Vec::new();
    let n = chars.len();
    let mut letters: Vec<char> = Vec::new();
    let ghost mut start: int = 0;
    let mut in_word = false;
    let mut current = line;
    let mut word_line = line;
    let mut i: usize = 0;
    while i < n
        invariant
            s == chars@,
            n == s.len(),
            by_line ==> line == 0,
            i <= n,
            current == line + if by_line {
                newlines(s.take(i as int))
            } else {
                0
            },
            in_word ==> {
                &&& 0 <= start < i
                &&& letters@ == s.subrange(start, i as int)
                &&& word_line == line + if by_line {
                    newlines(s.take(start))
                } else {
                    0
                }
                &&& tokens_of(s.take(i as int), line as nat, by_line) == token_views(result@).push(
                    (letters@, word_line as nat),
                )
                &&& is_word_char(s[i - 1])
            },
            !in_word ==> {
                &&& tokens_of(s.take(i as int), line as nat, by_line) == token_views(result@)
                &&& (i == 0 || !is_word_char(s[i - 1]))
            },
        decreases n - i,
    {
        let c = chars[i];
        let ghost pre = s.take(i as int);
        proof {
            assert(s.take(i + 1).drop_last() =~= pre);
            assert(s.take(i + 1).last() == c);
            lemma_newlines_bound(pre);
        }
        let is_letter = ('a' <= c && c <= 'z') || ('A' <= c && c <= 'Z') || c == '\'';
        if is_letter {
            if !in_word {
                proof {
                    start = i as int;
                }
                letters = Vec::new();
                word_line = current;
                in_word = true;
                letters.push(c);
                proof {
                    assert(s.subrange(i as int, i + 1) =~= seq![c]);
                }
            } else {
                letters.push(c);
                proof {
                    assert(s.subrange(start, i + 1) =~= s.subrange(start, i as int).push(c));
                    assert(s.take(i + 1).len() > 1);
                    assert(s.take(i + 1)[i - 1] == s[i - 1]);
                }
            }
        } else {
            if in_word {
                let t = Token::new(string_of(&letters).as_str(), word_line);
                proof {
                    lemma_token_views_push(result@, t);
                }
                result.push(t);
                in_word = false;
            }
            if by_line && c == '\n' {
                current = current + 1;
            }
        }
        i = i + 1;
    }
    proof {
        assert(s.take(n as int) =~= s);
    }
    if in_word {
        let t = Token::new(string_of(&letters).as_str(), word_line);
        proof {
            lemma_token_views_push(result@, t);
        }
        result.push(t);
    }
    result
}

/// The decimal digit `d`.
pub open spec fn digit_char(d: nat) -> char {
    seq!['0', '1', '2', '3', '4', '5', '6', '7', '8', '9'][d as int]
}

/// `n` written in decimal, without leading zeros.
pub open spec fn decimal(n: nat) -> Seq<char>
    decreases n,
{
    if n < 10 {
        seq![digit_char(n)]
    } else {
        decimal(n / 10).push(digit_char(n % 10))
    }
}

fn digit(d: u128) -> (r: char)
    requires
        d < 10,
    ensures
        r == digit_char(d as nat),
{
    let digits: [char; 10] = ['0', '1', '2', '3', '4', '5', '6', '7', '8', '9'];
    proof {
        assert(digits@ =~= seq!['0', '1', '2', '3', '4', '5', '6', '7', '8', '9']);
    }
    digits[d as usize]
}

fn push_decimal(n: u128, out: &mut Vec<char>)
    ensures
        final(out)@ == old(out)@ + decimal(n as nat),
    decreases n,
{
    if n >= 10 {
        push_decimal(n / 10, out);
    }
    out.push(digit(n % 10));
    proof {
        if n >= 10 {
            assert(old(out)@ + decimal(n as nat) =~= old(out)@ + decimal((n / 10) as nat) + seq![
                digit_char((n % 10) as nat),
            ]);
        }
    }
}

/// `n` written in decimal.
pub fn decimal_string(n: u128) -> (r: String)
    ensures
        r@ == decimal(n as nat),
{
    let mut out: Vec<char> = Vec::new();
    push_decimal(n, &mut out);
    assert(out@ =~= decimal(n as nat));
    string_of(&out)
}

/// The report on a word with a suggestion.
pub open spec fn suggestion_text(line: nat, literal: Seq<char>, replacement: Seq<char>) -> Seq<
    char,
> {
    "line "@ + decimal(line) + ": "@ + debug_text(literal) + " => "@ + replacement
}

/// The report on a word without a suggestion.
pub open spec fn unknown_text(line: nat, literal: Seq<char>) -> Seq<char> {
    "line "@ + decimal(line) + ": "@ + literal + " (no match found)"@
}

impl Token {
    /// The report on this word against the sorted `dictionary`: nothing for a
    /// correct word; otherwise a line that gives the word's (one-based) line
    /// number and either the suggestion, written in the word's letter case, or
    /// the news that no match was found.
    pub fn format(&self, dictionary: &[String]) -> (r: Option<String>)
        requires
            sorted(words(dictionary@)),
        ensures
            match search_outcome(lower_of(self@.0), words(dictionary@)) {
                Outcome::Correct => r is None,
                Outcome::Recommendation(w) => r is Some && r->0@ == suggestion_text(
                    self@.1 + 1,
                    self@.0,
                    applied(capitalization_of(self@.0), w),
                ),
                Outcome::Unknown => r is Some && r->0@ == unknown_text(self@.1 + 1, self@.0),
            },
    {
        let lowered = lowercase(self.literal.as_str());
        let number = decimal_string((self.line as u128) + 1);
        match spellcheck(lowered.as_str(), dictionary) {
            Correction::Correct => None,
            Correction::Recommendation(w) => {
                let styled = Capitalization::from(self.literal.as_str()).apply(w);
                let quoted = debug_str(self.literal.as_str());
                let message = "line ".to_owned().concat(number.as_str()).concat(": ").concat(
                    quoted.as_str(),
                ).concat(" => ").concat(styled.as_str());
                Some(message)
            },
            Correction::Unknown => {
                let message = "line ".to_owned().concat(number.as_str()).concat(": ").concat(
                    self.literal.as_str(),
                ).concat(" (no match found)");
                Some(message)
            },
        }
    }
}

} // verus!
