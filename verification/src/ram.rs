//! Physical memory, with the frame table in it.

use crate::frame::{FrameIndex, FrameInfo, FrameOwner, OwnerTag};
use crate::memory::Memory;
use vstd::prelude::*;

verus! {

/// Words of the frame table per frame.
pub const INFO_WORDS: usize = 3;

/// Word `j` of the frame-table entry that holds `info`: the owner, then the
/// mapping and the pin count, then the generation.
pub open(crate) spec fn entry_word(info: FrameInfo, j: int) -> u64 {
    if j == 0 {
        info.owner.raw
    } else if j == 1 {
        (info.mappings + info.pinned * 0x1_0000_0000) as u64
    } else {
        info.gen as u64
    }
}

/// True if the entry for frame `f` of the table that starts at word `first`
/// holds `info`.
spec fn entry_holds(words: Seq<u64>, first: int, f: int, info: FrameInfo) -> bool {
    &&& info.owner.valid()
    &&& words[first + f * INFO_WORDS] == entry_word(info, 0)
    &&& words[first + f * INFO_WORDS + 1] == entry_word(info, 1)
    &&& words[first + f * INFO_WORDS + 2] == entry_word(info, 2)
}

/// The words of RAM. Once the frame table has been placed, part of them hold
/// its entries, and change only with the metadata of frames.
pub struct Ram {
    mem: Memory,
    first: usize,
    count: usize,
    frames: Ghost<Seq<FrameInfo>>,
}

impl Ram {
    #[verifier::type_invariant]
    closed spec fn coded(self) -> bool {
        &&& self.frames@.len() == self.count
        &&& self.first + self.count * INFO_WORDS <= self.mem@.len()
        &&& forall|f: int|
            0 <= f < self.count ==> entry_holds(
                self.mem@,
                self.first as int,
                f,
                #[trigger] self.frames@[f],
            )
    }

    /// What the frame table says of each frame.
    pub closed spec fn frames(self) -> Seq<FrameInfo> {
        self.frames@
    }

    /// The words that the frame table takes up: from the first number on, up
    /// to the second.
    pub closed spec fn span(self) -> (int, int) {
        (self.first as int, self.first + self.count * INFO_WORDS)
    }

    /// True if word `i` is part of the frame table.
    pub open spec fn in_table(self, i: int) -> bool {
        self.span().0 <= i < self.span().1
    }

    /// The words of RAM, with zeroes in place of the frame table.
    pub closed spec fn words(self) -> Seq<u64> {
        Seq::new(
            self.mem@.len(),
            |i: int|
                if self.in_table(i) {
                    0
                } else {
                    self.mem@[i]
                },
        )
    }

    /// Word `i` of RAM, the frame table included.
    pub open(crate) spec fn shown(self, i: int) -> u64 {
        if self.in_table(i) {
            entry_word(
                self.frames()[(i - self.span().0) / INFO_WORDS as int],
                (i - self.span().0) % INFO_WORDS as int,
            )
        } else {
            self.words()[i]
        }
    }

    /// The same words, but for the frame table, which is at the same place.
    pub open spec fn same_words(self, other: Ram) -> bool {
        &&& self.words() == other.words()
        &&& self.span() == other.span()
    }

    pub(crate) proof fn lemma_len(&self)
        ensures
            self.words().len() <= usize::MAX,
    {
        self.mem.lemma_len();
    }

    /// RAM without a frame table.
    pub(crate) fn new(mem: Memory) -> (r: Ram)
        ensures
            r.words() == mem@,
            r.frames().len() == 0,
            r.span() == (0int, 0int),
    {
        let r = Ram { mem, first: 0, count: 0, frames: Ghost(Seq::empty()) };
        assert(r.words() =~= mem@);
        r
    }

    /// Number of frames in the frame table.
    pub(crate) fn count(&self) -> (r: usize)
        ensures
            r == self.frames().len(),
    {
        proof {
            use_type_invariant(self);
        }
        self.count
    }

    /// The word at index `i`.
    pub(crate) fn read(&self, i: usize) -> (r: u64)
        requires
            i < self.words().len(),
        ensures
            r == self.shown(i as int),
    {
        proof {
            use_type_invariant(self);
            if self.in_table(i as int) {
                let f = (i - self.first) / INFO_WORDS as int;
                assert(0 <= f < self.count);
                assert(entry_holds(self.mem@, self.first as int, f, self.frames@[f]));
            }
        }
        self.mem.read(i)
    }

    /// Replace the word at index `i`, which is not part of the frame table.
    pub(crate) fn write(&mut self, i: usize, value: u64)
        requires
            i < old(self).words().len(),
            !old(self).in_table(i as int),
        ensures
            final(self).words() == old(self).words().update(i as int, value),
            final(self).frames() == old(self).frames(),
            final(self).span() == old(self).span(),
    {
        let mut whole = Ram::new(Memory::new(Vec::new()));
        core::mem::swap(self, &mut whole);
        proof {
            use_type_invariant(&whole);
        }
        let Ram { mem, first, count, frames } = whole;
        let mut mem = mem;
        let ghost mem0 = mem@;
        mem.write(i, value);
        proof {
            assert forall|f: int| 0 <= f < count implies entry_holds(
                mem@,
                first as int,
                f,
                #[trigger] frames@[f],
            ) by {
                assert(entry_holds(mem0, first as int, f, frames@[f]));
            }
        }
        *self = Ram { mem, first, count, frames };
        assert(self.words() =~= old(self).words().update(i as int, value));
    }

    /// Zero the `n` words from index `from` on. They are not part of the frame
    /// table, unless that is zeroed still.
    pub(crate) fn zero(&mut self, from: usize, n: usize)
        requires
            from + n <= old(self).words().len(),
            (forall|i: int| from <= i < from + n ==> !old(self).in_table(i)) || forall|f: int|
                0 <= f < old(self).frames().len() ==> #[trigger] old(self).frames()[f]
                    == FrameInfo::zeroed_spec(),
        ensures
            final(self).words().len() == old(self).words().len(),
            forall|i: int|
                0 <= i < old(self).words().len() ==> #[trigger] final(self).words()[i] == (if from
                    <= i < from + n {
                    0
                } else {
                    old(self).words()[i]
                }),
            final(self).frames() == old(self).frames(),
            final(self).span() == old(self).span(),
    {
        let mut whole = Ram::new(Memory::new(Vec::new()));
        core::mem::swap(self, &mut whole);
        proof {
            use_type_invariant(&whole);
        }
        let Ram { mem, first, count, frames } = whole;
        let mut mem = mem;
        let ghost mem0 = mem@;
        mem.zero(from, n);
        proof {
            assert forall|f: int| 0 <= f < count implies entry_holds(
                mem@,
                first as int,
                f,
                #[trigger] frames@[f],
            ) by {
                assert(entry_holds(mem0, first as int, f, frames@[f]));
                assert(frames@[f] == old(self).frames()[f]);
                FrameOwner::law_encoding_round_trip(OwnerTag::Reserved, 0);
                let at = first + f * INFO_WORDS;
                assert(old(self).in_table(at) && old(self).in_table(at + 1) && old(self).in_table(
                    at + 2,
                ));
            }
        }
        *self = Ram { mem, first, count, frames };
    }

    /// Place a frame table of `n` zeroed entries at word `first`.
    pub(crate) fn place_table(&mut self, first: usize, n: usize)
        requires
            old(self).frames().len() == 0,
            first + n * INFO_WORDS <= old(self).words().len(),
        ensures
            final(self).frames() == Seq::new(n as nat, |f: int| FrameInfo::zeroed_spec()),
            final(self).span() == (first as int, first + n * INFO_WORDS),
            final(self).words().len() == old(self).words().len(),
            forall|i: int|
                0 <= i < old(self).words().len() ==> #[trigger] final(self).words()[i] == (if first
                    <= i < first + n * INFO_WORDS {
                    0
                } else {
                    old(self).words()[i]
                }),
    {
        let mut whole = Ram::new(Memory::new(Vec::new()));
        core::mem::swap(self, &mut whole);
        proof {
            use_type_invariant(&whole);
            whole.lemma_len();
        }
        let Ram { mem, .. } = whole;
        let mut mem = mem;
        let ghost frames = Seq::new(n as nat, |f: int| FrameInfo::zeroed_spec());
        mem.zero(first, n * INFO_WORDS);
        *self = Ram { mem, first, count: n, frames: Ghost(frames) };
    }

    /// The metadata of frame `idx`.
    pub(crate) fn info(&self, idx: FrameIndex) -> (r: FrameInfo)
        requires
            idx < self.frames().len(),
        ensures
            r == self.frames()[idx as int],
    {
        let ghost info = self.frames@[idx as int];
        proof {
            use_type_invariant(self);
            self.mem.lemma_len();
            assert(entry_holds(self.mem@, self.first as int, idx as int, info));
            lemma_counts(info.mappings, info.pinned);
        }
        let at = self.first + idx as usize * INFO_WORDS;
        let raw = self.mem.read(at);
        let counts = self.mem.read(at + 1);
        let gen = self.mem.read(at + 2);
        FrameInfo {
            owner: FrameOwner { raw },
            mappings: (counts % 0x1_0000_0000) as u32,
            pinned: (counts / 0x1_0000_0000) as u32,
            gen: gen as u32,
        }
    }

    /// Replace the metadata of frame `idx`.
    pub(crate) fn set_info(&mut self, idx: FrameIndex, info: FrameInfo)
        requires
            idx < old(self).frames().len(),
        ensures
            final(self).frames() == old(self).frames().update(idx as int, info),
            final(self).same_words(*old(self)),
    {
        let mut whole = Ram::new(Memory::new(Vec::new()));
        core::mem::swap(self, &mut whole);
        let owner = info.owner;
        proof {
            use_type_invariant(&whole);
            use_type_invariant(&owner);
            whole.lemma_len();
            lemma_counts(info.mappings, info.pinned);
        }
        let Ram { mem, first, count, frames } = whole;
        let mut mem = mem;
        let ghost mem0 = mem@;
        let ghost after = frames@.update(idx as int, info);
        let at = first + idx as usize * INFO_WORDS;
        mem.write(at, owner.raw());
        mem.write(at + 1, info.mappings as u64 + info.pinned as u64 * 0x1_0000_0000);
        mem.write(at + 2, info.gen as u64);
        proof {
            assert forall|f: int| 0 <= f < count implies entry_holds(
                mem@,
                first as int,
                f,
                #[trigger] after[f],
            ) by {
                if f != idx {
                    assert(entry_holds(mem0, first as int, f, frames@[f]));
                }
            }
        }
        *self = Ram { mem, first, count, frames: Ghost(after) };
        assert(self.words() =~= old(self).words());
    }
}

/// Two counts in one word.
proof fn lemma_counts(mappings: u32, pinned: u32)
    ensures
        0 <= mappings + pinned * 0x1_0000_0000 <= u64::MAX,
        (mappings + pinned * 0x1_0000_0000) % 0x1_0000_0000 == mappings,
        (mappings + pinned * 0x1_0000_0000) / 0x1_0000_0000 == pinned,
{
}

/// An entry of the frame table is three words: the owner, the mapping count
/// below the pin count, and the generation.
pub proof fn law_entry_layout(info: FrameInfo)
    ensures
        entry_word(info, 0) == info.owner().raw(),
        entry_word(info, 1) % 0x1_0000_0000 == info.mappings(),
        entry_word(info, 1) / 0x1_0000_0000 == info.pinned(),
        entry_word(info, 2) == info.gen(),
{
}

/// An entry loses nothing: metadata that differ are stored differently.
pub proof fn law_entries_differ(a: FrameInfo, b: FrameInfo)
    requires
        entry_word(a, 0) == entry_word(b, 0),
        entry_word(a, 1) == entry_word(b, 1),
        entry_word(a, 2) == entry_word(b, 2),
    ensures
        a.owner() == b.owner(),
        a.mappings() == b.mappings(),
        a.pinned() == b.pinned(),
        a.gen() == b.gen(),
{
    law_entry_layout(a);
    law_entry_layout(b);
}

} // verus!
