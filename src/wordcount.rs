//! Frequencies of the characters, words or lines of a text.
use regex::Regex;
use vstd::prelude::*;
use vstd::string::StrSliceExecFns;

verus! {

broadcast use vstd::seq_lib::group_to_multiset_ensures, vstd::multiset::group_multiset_axioms;

/// The unit that `count` counts.
#[derive(Debug, Clone, Copy, PartialEq, Eq, Hash)]
pub enum CountOption {
    /// Each character.
    Char,
    /// Each run of word characters, as the pattern `\w+` finds them.
    Word,
    /// Each whole line.
    Line,
}

impl Default for CountOption {
    fn default() -> (r: Self)
        ensures
            r == CountOption::Word,
    {
        CountOption::Word
    }
}

/// The runs of word characters in `line`, in order.
pub uninterp spec fn words_of(line: Seq<char>) -> Seq<Seq<char>>;

/// Relies on regex: `\w+` is a valid pattern, so `Regex::new` succeeds, and
/// `find_iter` yields its successive non-overlapping matches, each at least
/// one character long, so there are no more of them than characters.
#[verifier::external_body]
fn find_words(line: &str) -> (r: Vec<String>)
    ensures
        r@.map_values(|w: String| w@) == words_of(line@),
        r@.len() <= line@.len(),
{
    let re = Regex::new(r"\w+").unwrap();
    re.find_iter(line).map(|m| m.as_str().to_string()).collect()
}

/// The texts of `lines`.
pub open spec fn texts(lines: Seq<String>) -> Seq<Seq<char>> {
    lines.map_values(|l: String| l@)
}

/// The items of one line that `option` counts.
pub open spec fn line_items(line: Seq<char>, option: CountOption) -> Seq<Seq<char>> {
    match option {
        CountOption::Char => line.map_values(|c: char| seq![c]),
        CountOption::Word => words_of(line),
        CountOption::Line => seq![line],
    }
}

/// The items of all `lines` that `option` counts, in order.
pub open spec fn items_of(lines: Seq<Seq<char>>, option: CountOption) -> Seq<Seq<char>>
    decreases lines.len(),
{
    if lines.len() == 0 {
        seq![]
    } else {
        items_of(lines.drop_last(), option) + line_items(lines.last(), option)
    }
}

/// The number of characters in all `lines`.
pub open spec fn total_chars(lines: Seq<Seq<char>>) -> nat
    decreases lines.len(),
{
    if lines.len() == 0 {
        0
    } else {
        total_chars(lines.drop_last()) + lines.last().len()
    }
}

/// `freqs` lists each distinct item of `items` once, with how often it occurs.
pub open spec fn tallies(freqs: Seq<(String, usize)>, items: Seq<Seq<char>>) -> bool {
    &&& forall|i: int, j: int| 0 <= i < j < freqs.len() ==> freqs[i].0@ != freqs[j].0@
    &&& forall|i: int|
        0 <= i < freqs.len() ==> freqs[i].1 as nat == #[trigger] items.to_multiset().count(
            freqs[i].0@,
        ) && freqs[i].1 > 0
    &&& forall|k: Seq<char>|
        #[trigger] items.to_multiset().count(k) > 0 ==> exists|i: int|
            0 <= i < freqs.len() && freqs[i].0@ == k
}

/// Counts one more occurrence of `item`.
fn add_one(freqs: &mut Vec<(String, usize)>, item: String, Ghost(items): Ghost<Seq<Seq<char>>>)
    requires
        tallies(old(freqs)@, items),
        items.len() < usize::MAX,
    ensures
        tallies(final(freqs)@, items.push(item@)),
{
    let ghost grown = items.push(item@);
    assert(grown.to_multiset() =~= items.to_multiset().insert(item@));
    let mut i: usize = 0;
    while i < freqs.len()
        invariant
            i <= freqs@.len(),
            freqs@ == old(freqs)@,
            tallies(freqs@, items),
            items.len() < usize::MAX,
            grown.to_multiset() == items.to_multiset().insert(item@),
            forall|j: int| 0 <= j < i ==> freqs@[j].0@ != item@,
        decreases freqs@.len() - i,
    {
        if freqs[i].0 == item {
            let key = freqs[i].0.clone();
            let n = freqs[i].1;
            assert(n as nat == items.to_multiset().count(item@));
            assert(items.to_multiset().count(item@) <= items.to_multiset().len());
            freqs[i] = (key, n + 1);
            proof {
                assert forall|k: Seq<char>| #[trigger] grown.to_multiset().count(k) > 0 implies exists|j: int|
                    0 <= j < freqs@.len() && freqs@[j].0@ == k by {
                    if k != item@ {
                        assert(items.to_multiset().count(k) > 0);
                        let j = choose|j: int| 0 <= j < old(freqs)@.len() && old(freqs)@[j].0@ == k;
                        assert(freqs@[j].0@ == k);
                    } else {
                        assert(freqs@[i as int].0@ == k);
                    }
                }
                assert forall|j: int| 0 <= j < freqs@.len() implies freqs@[j].1 as nat
                    == #[trigger] grown.to_multiset().count(freqs@[j].0@) && freqs@[j].1 > 0 by {
                    assert(items.to_multiset().count(old(freqs)@[j].0@) == old(freqs)@[j].1 as nat);
                }
            }
            return;
        }
        i = i + 1;
    }
    freqs.push((item, 1));
    proof {
        assert(items.to_multiset().count(item@) == 0) by {
            if items.to_multiset().count(item@) > 0 {
                let j = choose|j: int| 0 <= j < old(freqs)@.len() && old(freqs)@[j].0@ == item@;
                assert(old(freqs)@[j].0@ != item@);
            }
        }
        assert forall|k: Seq<char>| #[trigger] grown.to_multiset().count(k) > 0 implies exists|j: int|
            0 <= j < freqs@.len() && freqs@[j].0@ == k by {
            if k != item@ {
                assert(items.to_multiset().count(k) > 0);
                let j = choose|j: int| 0 <= j < old(freqs)@.len() && old(freqs)@[j].0@ == k;
                assert(freqs@[j].0@ == k);
            } else {
                assert(freqs@[old(freqs)@.len() as int].0@ == k);
            }
        }
        assert forall|j: int| 0 <= j < freqs@.len() implies freqs@[j].1 as nat
            == #[trigger] grown.to_multiset().count(freqs@[j].0@) && freqs@[j].1 > 0 by {
            if j < old(freqs)@.len() {
                assert(items.to_multiset().count(old(freqs)@[j].0@) == old(freqs)@[j].1 as nat);
            }
        }
    }
}

proof fn lemma_total_chars_prefix(t: Seq<Seq<char>>, j: int)
    requires
        0 <= j <= t.len(),
    ensures
        total_chars(t.subrange(0, j)) <= total_chars(t),
    decreases t.len(),
{
    if j == t.len() {
        assert(t.subrange(0, j) =~= t);
    } else {
        assert(t.subrange(0, j) =~= t.drop_last().subrange(0, j));
        lemma_total_chars_prefix(t.drop_last(), j);
    }
}

proof fn lemma_prefix_step(t: Seq<Seq<char>>, j: int, option: CountOption)
    requires
        0 <= j < t.len(),
    ensures
        items_of(t.subrange(0, j + 1), option) == items_of(t.subrange(0, j), option) + line_items(
            t[j],
            option,
        ),
        total_chars(t.subrange(0, j + 1)) == total_chars(t.subrange(0, j)) + t[j].len(),
{
    assert(t.subrange(0, j + 1).drop_last() =~= t.subrange(0, j));
}

/// How often each item that `option` names occurs in `lines`: each distinct
/// item once, with its number of occurrences.
pub fn count(lines: &Vec<String>, option: CountOption) -> (r: Vec<(String, usize)>)
    requires
        total_chars(texts(lines@)) + lines@.len() < usize::MAX,
    ensures
        tallies(r@, items_of(texts(lines@), option)),
{
    let mut freqs: Vec<(String, usize)> = Vec::new();
    let ghost t = texts(lines@);
    let mut j: usize = 0;
    proof {
        assert(items_of(t.subrange(0, 0), option) =~= Seq::<Seq<char>>::empty());
    }
    while j < lines.len()
        invariant
            j <= lines@.len(),
            t == texts(lines@),
            t.len() == lines@.len(),
            total_chars(t) + lines@.len() < usize::MAX,
            tallies(freqs@, items_of(t.subrange(0, j as int), option)),
            items_of(t.subrange(0, j as int), option).len() <= total_chars(t.subrange(0, j as int)) + j,
        decreases lines@.len() - j,
    {
        let line: &str = lines[j].as_str();
        let ghost before = items_of(t.subrange(0, j as int), option);
        let ghost here = line_items(line@, option);
        proof {
            assert(line@ == t[j as int]);
            lemma_prefix_step(t, j as int, option);
            lemma_total_chars_prefix(t, j + 1);
        }
        match option {
            CountOption::Char => {
                let n = line.unicode_len();
                let mut k: usize = 0;
                proof {
                    assert(before + here.subrange(0, 0) =~= before);
                }
                while k < n
                    invariant
                        k <= n,
                        n == line@.len(),
                        here == line_items(line@, option),
                        option == CountOption::Char,
                        before.len() + n < usize::MAX,
                        tallies(freqs@, before + here.subrange(0, k as int)),
                    decreases n - k,
                {
                    let c = line.substring_char(k, k + 1).to_owned();
                    proof {
                        assert(c@ =~= here[k as int]);
                        assert((before + here.subrange(0, k as int)).push(c@) =~= before
                            + here.subrange(0, k + 1));
                    }
                    add_one(&mut freqs, c, Ghost(before + here.subrange(0, k as int)));
                    k = k + 1;
                }
                proof {
                    assert(here.subrange(0, n as int) =~= here);
                }
            },
            CountOption::Word => {
                let words = find_words(line);
                let mut k: usize = 0;
                proof {
                    assert(before + here.subrange(0, 0) =~= before);
                    assert(words@.len() == here.len());
                }
                while k < words.len()
                    invariant
                        k <= words@.len(),
                        here == line_items(line@, option),
                        option == CountOption::Word,
                        words@.map_values(|w: String| w@) == here,
                        before.len() + words@.len() < usize::MAX,
                        tallies(freqs@, before + here.subrange(0, k as int)),
                    decreases words@.len() - k,
                {
                    let w = words[k].clone();
                    proof {
                        assert(w@ == here[k as int]);
                        assert((before + here.subrange(0, k as int)).push(w@) =~= before
                            + here.subrange(0, k + 1));
                    }
                    add_one(&mut freqs, w, Ghost(before + here.subrange(0, k as int)));
                    k = k + 1;
                }
                proof {
                    assert(here.subrange(0, words@.len() as int) =~= here);
                }
            },
            CountOption::Line => {
                let whole = lines[j].clone();
                proof {
                    assert(before.push(whole@) =~= before + here);
                }
                add_one(&mut freqs, whole, Ghost(before));
            },
        }
        j = j + 1;
    }
    proof {
        assert(t.subrange(0, t.len() as int) =~= t);
    }
    freqs
}

} // verus!
