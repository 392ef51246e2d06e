use vstd::prelude::*;

use crate::dictionary::views_of;

verus! {

/// The words found in a grid, in the order they were found (a word reached
/// along two paths is listed twice), and the total score of all of them.
pub struct Solution {
    words_found: Vec<String>,
    score: u32,
}

impl Solution {
    /// The words found, as character sequences.
    pub closed spec fn words(&self) -> Seq<Seq<char>> {
        views_of(self.words_found@)
    }

    /// The total score.
    pub closed spec fn total(&self) -> int {
        self.score as int
    }

    /// A solution with the given words and total score.
    pub fn new(words_found: Vec<String>, score: u32) -> (s: Solution)
        ensures
            s.words() == views_of(words_found@),
            s.total() == score,
    {
        Solution { words_found, score }
    }

    /// Records `word`, found along a path worth `score`.
    pub fn found(&mut self, word: String, score: u32)
        requires
            old(self).total() + score <= u32::MAX,
        ensures
            final(self).words() == old(self).words().push(word@),
            final(self).total() == old(self).total() + score,
    {
        let ghost w = word@;
        self.words_found.push(word);
        self.score = self.score + score;
        assert(self.words() =~= old(self).words().push(w));
    }

    /// Appends the words of `other` after this solution's own and adds its
    /// score; `other` is left as it is.
    pub fn add_soln(&mut self, other: &Self)
        requires
            old(self).total() + other.total() <= u32::MAX,
        ensures
            final(self).words() == old(self).words() + other.words(),
            final(self).total() == old(self).total() + other.total(),
    {
        let ghost start = self.words();
        let mut i: usize = 0;
        while i < other.words_found.len()
            invariant
                i <= other.words_found@.len(),
                self.score == old(self).score,
                self.words() == start + other.words().subrange(0, i as int),
            decreases other.words_found@.len() - i,
        {
            let w = other.words_found[i].clone();
            let ghost before = self.words_found@;
            assert(w@ == other.words()[i as int]);
            self.words_found.push(w);
            assert(self.words_found@ == before.push(w));
            assert(self.words() =~= views_of(before).push(w@));
            assert(self.words() =~= start + other.words().subrange(0, i + 1));
            i = i + 1;
        }
        assert(other.words().subrange(0, i as int) =~= other.words());
        self.score = self.score + other.score;
    }

    /// The words found, in the order they were found.
    pub fn words_found(&self) -> (r: &Vec<String>)
        ensures
            views_of(r@) == self.words(),
    {
        &self.words_found
    }

    /// The total score.
    pub fn score(&self) -> (r: u32)
        ensures
            r == self.total(),
    {
        self.score
    }
}

impl Default for Solution {
    /// The empty solution: no words, score zero.
    fn default() -> (s: Solution)
        ensures
            s.words() == Seq::<Seq<char>>::empty(),
            s.total() == 0,
    {
        let s = Solution { words_found: Vec::new(), score: 0 };
        assert(s.words() =~= Seq::<Seq<char>>::empty());
        s
    }
}

} // verus!
