//! The exclusion set: token strings loaded once from a newline-delimited
//! list and shared read-only by every worker.

use vstd::prelude::*;
use crate::text::str_eq;

verus! {

/// Index of the first newline in `s`, or `s.len()` if there is none.
pub open spec fn first_nl(s: Seq<char>) -> int
    decreases s.len(),
{
    if s.len() == 0 {
        0
    } else if s[0] == '\n' {
        0
    } else {
        1 + first_nl(s.drop_first())
    }
}

/// The segments of `s` between newline delimiters, in order.  A text with
/// k newlines has k + 1 segments; an empty text has one empty segment.
pub open spec fn split_lines(s: Seq<char>) -> Seq<Seq<char>>
    decreases s.len(),
{
    let i = first_nl(s);
    if 0 <= i < s.len() {
        seq![s.take(i)] + split_lines(s.skip(i + 1))
    } else {
        seq![s]
    }
}

proof fn lemma_first_nl_bounds(s: Seq<char>)
    ensures
        0 <= first_nl(s) <= s.len(),
        forall|j: int| 0 <= j < first_nl(s) ==> s[j] != '\n',
        first_nl(s) < s.len() ==> s[first_nl(s)] == '\n',
    decreases s.len(),
{
    if s.len() != 0 && s[0] != '\n' {
        lemma_first_nl_bounds(s.drop_first());
        assert forall|j: int| 0 <= j < first_nl(s) implies s[j] != '\n' by {
            if j > 0 {
                assert(s[j] == s.drop_first()[j - 1]);
            }
        }
    }
}

/// If the first `j` characters of `s` are newline-free, and either `j` is
/// the end of `s` or `s[j]` is a newline, then `j` is the first newline.
proof fn lemma_first_nl_at(s: Seq<char>, j: int)
    requires
        0 <= j <= s.len(),
        forall|k: int| 0 <= k < j ==> s[k] != '\n',
        j < s.len() ==> s[j] == '\n',
    ensures
        first_nl(s) == j,
    decreases j,
{
    if j > 0 {
        assert(s[0] != '\n');
        lemma_first_nl_at(s.drop_first(), j - 1);
    }
}

/// An immutable set of excluded tokens.
pub struct ExclusionSet {
    words: Vec<String>,
}

impl ExclusionSet {
    /// The set of excluded token strings.
    pub closed spec fn as_set(&self) -> Set<Seq<char>> {
        self.words.deep_view().to_set()
    }

    /// An exclusion set that excludes nothing.
    pub fn new() -> (r: Self)
        ensures
            r.as_set() == Set::<Seq<char>>::empty(),
    {
        let r = ExclusionSet { words: Vec::new() };
        proof {
            assert(r.words.deep_view() =~= Seq::<Seq<char>>::empty());
            assert(r.as_set() =~= Set::<Seq<char>>::empty());
        }
        r
    }

    /// Builds the set from a newline-delimited exclusion list.  Every
    /// segment becomes an excluded token, so a trailing newline yields a
    /// vacuous empty-string entry, which is accepted behavior.
    pub fn from_text(text: &str) -> (r: Self)
        ensures
            r.as_set() == split_lines(text@).to_set(),
    {
        let n = text.unicode_len();
        let mut words: Vec<String> = Vec::new();
        let mut start: usize = 0;
        let mut i: usize = 0;
        proof {
            assert(text@.skip(0) =~= text@);
        }
        while i < n
            invariant
                0 <= start <= i <= n,
                n == text@.len(),
                forall|k: int| start <= k < i ==> text@[k] != '\n',
                split_lines(text@) =~= words.deep_view() + split_lines(text@.skip(start as int)),
            decreases n - i,
        {
            let c = text.get_char(i);
            if c == '\n' {
                let word = text.substring_char(start, i);
                proof {
                    let rest = text@.skip(start as int);
                    assert forall|k: int| 0 <= k < i - start implies rest[k] != '\n' by {
                        assert(rest[k] == text@[start + k]);
                    }
                    assert(rest[i - start] == text@[i as int]);
                    lemma_first_nl_at(rest, i - start);
                    assert(rest.take(i - start) =~= text@.subrange(start as int, i as int));
                    assert(rest.skip(i - start + 1) =~= text@.skip(i as int + 1));
                    assert(split_lines(rest) =~= seq![text@.subrange(start as int, i as int)]
                        + split_lines(text@.skip(i as int + 1)));
                }
                let ghost old_words = words.deep_view();
                words.push(word.to_owned());
                proof {
                    assert(words.deep_view() =~= old_words.push(text@.subrange(start as int, i as int)));
                }
                start = i + 1;
            }
            i += 1;
        }
        let last = text.substring_char(start, n);
        proof {
            let rest = text@.skip(start as int);
            assert forall|k: int| 0 <= k < rest.len() implies rest[k] != '\n' by {
                assert(rest[k] == text@[start + k]);
            }
            lemma_first_nl_at(rest, rest.len() as int);
            assert(split_lines(rest) =~= seq![text@.subrange(start as int, n as int)]);
        }
        let ghost old_words = words.deep_view();
        words.push(last.to_owned());
        proof {
            assert(words.deep_view() =~= old_words.push(text@.subrange(start as int, n as int)));
            assert(words.deep_view() =~= split_lines(text@));
        }
        ExclusionSet { words }
    }

    /// Exact-match membership test.
    pub fn contains(&self, w: &str) -> (r: bool)
        ensures
            r == self.as_set().contains(w@),
    {
        let n = self.words.len();
        let mut i: usize = 0;
        while i < n
            invariant
                i <= n,
                n == self.words.len(),
                forall|j: int| 0 <= j < i ==> self.words.deep_view()[j] != w@,
            decreases n - i,
        {
            if str_eq(self.words[i].as_str(), w) {
                assert(self.words.deep_view()[i as int] == w@);
                return true;
            }
            i += 1;
        }
        assert(!self.words.deep_view().contains(w@));
        false
    }
}

} // verus!
