//! Word-addressed memory.

use vstd::prelude::*;

verus! {

/// A span of memory, as a sequence of 8-byte words.
pub struct Memory {
    pub(crate) words: Vec<u64>,
}

impl View for Memory {
    type V = Seq<u64>;

    open(crate) spec fn view(&self) -> Seq<u64> {
        self.words@
    }
}

impl Memory {
    /// Memory holding `words`.
    pub fn new(words: Vec<u64>) -> (r: Memory)
        ensures
            r@ == words@,
    {
        Memory { words }
    }

    pub(crate) proof fn lemma_len(&self)
        ensures
            self@.len() <= usize::MAX,
    {
        assert(self.words@.len() == self.words.len());
    }

    /// `n` words of zeroes.
    pub fn zeroed(n: usize) -> (r: Memory)
        ensures
            r@ == Seq::new(n as nat, |i: int| 0u64),
    {
        let words: Vec<u64> = vec![0; n];
        assert(words@ =~= Seq::new(n as nat, |i: int| 0u64));
        Memory { words }
    }

    /// Number of words.
    pub fn len(&self) -> (r: usize)
        ensures
            r == self@.len(),
    {
        self.words.len()
    }

    /// The word at index `i`.
    pub fn read(&self, i: usize) -> (r: u64)
        requires
            i < self@.len(),
        ensures
            r == self@[i as int],
    {
        self.words[i]
    }

    /// Replace the word at index `i`.
    pub fn write(&mut self, i: usize, value: u64)
        requires
            i < old(self)@.len(),
        ensures
            final(self)@ == old(self)@.update(i as int, value),
    {
        self.words[i] = value;
    }

    /// Zero the `n` words from index `first` on.
    pub fn zero(&mut self, first: usize, n: usize)
        requires
            first + n <= old(self)@.len(),
        ensures
            final(self)@.len() == old(self)@.len(),
            forall|i: int|
                0 <= i < final(self)@.len() ==> #[trigger] final(self)@[i] == (if first <= i < first
                    + n {
                    0
                } else {
                    old(self)@[i]
                }),
    {
        proof {
            self.lemma_len();
        }
        for k in 0..n
            invariant
                self@.len() <= usize::MAX,
                first + n <= self@.len(),
                self@.len() == old(self)@.len(),
                forall|i: int|
                    0 <= i < self@.len() ==> #[trigger] self@[i] == (if first <= i < first + k {
                        0
                    } else {
                        old(self)@[i]
                    }),
        {
            self.words[first + k] = 0;
        }
    }
}

} // verus!
