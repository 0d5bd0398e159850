//! The dictionary: an immutable, queryable set of known word strings.

use vstd::prelude::*;

verus! {

/// A set of distinct word strings. Membership testing is exact-string
/// equality: no case folding or normalization is performed. The dictionary is
/// populated once, before the first segmentation call, and never mutated
/// afterwards.
pub struct Dictionary {
    words: Vec<String>,
}

impl View for Dictionary {
    type V = Set<Seq<char>>;

    /// The mathematical model: the set of character sequences this dictionary
    /// recognizes as words.
    closed spec fn view(&self) -> Set<Seq<char>> {
        Set::new(
            |w: Seq<char>|
                exists|i: int| 0 <= i < self.words@.len() && #[trigger] self.words@[i]@ == w,
        )
    }
}

impl Dictionary {
    /// An empty dictionary: it recognizes no word at all.
    pub fn new() -> (d: Dictionary)
        ensures
            d@ == Set::<Seq<char>>::empty(),
    {
        let d = Dictionary { words: Vec::new() };
        proof {
            assert(d@ =~= Set::<Seq<char>>::empty());
        }
        d
    }

    /// Adds one word to the set of known words.
    pub fn add(&mut self, word: String)
        ensures
            final(self)@ == old(self)@.insert(word@),
    {
        let ghost w = word@;
        self.words.push(word);
        proof {
            assert forall|x: Seq<char>| self@.contains(x) implies old(self)@.insert(w).contains(
                x,
            ) by {
                let i = choose|i: int|
                    0 <= i < self.words@.len() && #[trigger] self.words@[i]@ == x;
                if i < old(self).words@.len() {
                    assert(old(self).words@[i]@ == x);
                }
            }
            assert forall|x: Seq<char>| old(self)@.insert(w).contains(x) implies self@.contains(
                x,
            ) by {
                if old(self)@.contains(x) {
                    let i = choose|i: int|
                        0 <= i < old(self).words@.len() && #[trigger] old(self).words@[i]@ == x;
                    assert(self.words@[i]@ == x);
                } else {
                    assert(self.words@[old(self).words@.len() as int]@ == x);
                }
            }
            assert(self@ =~= old(self)@.insert(w));
        }
    }

    /// Answers whether this exact character sequence is a known word.
    pub fn contains(&self, candidate: &str) -> (r: bool)
        ensures
            r == self@.contains(candidate@),
    {
        let owned = String::from_str(candidate);
        let mut i: usize = 0;
        while i < self.words.len()
            invariant
                i <= self.words@.len(),
                owned@ == candidate@,
                forall|j: int| 0 <= j < i ==> #[trigger] self.words@[j]@ != candidate@,
            decreases self.words@.len() - i,
        {
            if self.words[i].eq(&owned) {
                return true;
            }
            i += 1;
        }
        false
    }
}

} // verus!
