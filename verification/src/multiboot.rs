//! Multiboot v1 info parsing. The bootloader passes the address of an info
//! block; the memory map is copied out of it (the block may live in memory
//! that is handed to the memory manager).

use vstd::prelude::*;

verus! {

pub const MAGIC: u32 = 0x2BADB002;

/// Kind of a memory-map entry that is usable.
pub const MT_USABLE: u32 = 1;

/// Parsed from the bootloader: one e820-style entry.
#[derive(Clone, Copy, PartialEq, Eq, Debug, Structural)]
pub struct MemEntry {
    pub start: u64,
    pub len: u64,
    pub kind: u32,
}

/// A stretch of physical memory: its first address and its bytes.
pub struct Image<'a> {
    pub base: u64,
    pub bytes: &'a [u8],
}

impl<'a> Image<'a> {
    /// True if the `n` bytes at address `a` are in the image.
    pub open spec fn has(self, a: int, n: int) -> bool {
        self.base <= a && a + n <= self.base + self.bytes@.len()
    }

    /// The little-endian 32-bit word at address `a`.
    pub open spec fn word32(self, a: int) -> int {
        let i = a - self.base;
        self.bytes@[i] + self.bytes@[i + 1] * 0x100 + self.bytes@[i + 2] * 0x1_0000
            + self.bytes@[i + 3] * 0x100_0000
    }

    /// The little-endian 64-bit word at address `a`.
    pub open spec fn word64(self, a: int) -> int {
        self.word32(a) + self.word32(a + 4) * 0x1_0000_0000
    }

    /// The 32-bit word at `a`, if it is in the image.
    fn read32(&self, a: u64) -> (r: Option<u32>)
        ensures
            r is Some <==> self.has(a as int, 4),
            r matches Some(v) ==> v == self.word32(a as int),
    {
        if a < self.base {
            return None;
        }
        let off: u64 = a - self.base;
        let n: u64 = self.bytes.len() as u64;
        if n < 4 || off > n - 4 {
            return None;
        }
        let i = off as usize;
        Some(
            self.bytes[i] as u32 + self.bytes[i + 1] as u32 * 0x100 + self.bytes[i + 2] as u32
                * 0x1_0000 + self.bytes[i + 3] as u32 * 0x100_0000,
        )
    }

    /// The memory-map record at `p`, with its size, if it is in the image.
    fn record(&self, p: u64) -> (r: Option<(u32, MemEntry)>)
        requires
            p + 24 <= u64::MAX,
        ensures
            r is Some <==> self.has(p as int, 24),
            r matches Some((size, entry)) ==> size == self.word32(p as int) && entry == record_at(
                *self,
                p as int,
            ),
    {
        let size = self.read32(p);
        let base_low = self.read32(p + 4);
        let base_high = self.read32(p + 8);
        let len_low = self.read32(p + 12);
        let len_high = self.read32(p + 16);
        let kind = self.read32(p + 20);
        match (size, base_low, base_high, len_low, len_high, kind) {
            (Some(size), Some(bl), Some(bh), Some(ll), Some(lh), Some(kind)) => Some(
                (
                    size,
                    MemEntry {
                        start: bl as u64 + bh as u64 * 0x1_0000_0000,
                        len: ll as u64 + lh as u64 * 0x1_0000_0000,
                        kind,
                    },
                ),
            ),
            _ => None,
        }
    }
}

/// The entry in the record at address `p`: after its size come the start
/// (u64), the length (u64) and the kind (u32).
pub open spec fn record_at(image: Image<'_>, p: int) -> MemEntry {
    MemEntry {
        start: image.word64(p + 4) as u64,
        len: image.word64(p + 12) as u64,
        kind: image.word32(p + 20) as u32,
    }
}

/// The entries of the memory map from address `p` up to `end`, `room` of them
/// at most. Each record advances by `4 + size` (size excludes the size field
/// itself); a record outside the image ends the map, and so does one whose size
/// is too small for it.
pub open spec fn map_entries(image: Image<'_>, p: int, end: int, room: nat) -> Seq<MemEntry>
    decreases room,
{
    if p >= end || room == 0 || !image.has(p, 24) || image.word32(p) < 20 {
        Seq::empty()
    } else {
        seq![record_at(image, p)] + map_entries(
            image,
            p + 4 + image.word32(p),
            end,
            (room - 1) as nat,
        )
    }
}

/// True if a record of the memory map from address `p` up to `end`, one of
/// the `room` that there is room for, has a size that is too small for it.
pub open spec fn map_malformed(image: Image<'_>, p: int, end: int, room: nat) -> bool
    decreases room,
{
    &&& p < end
    &&& room > 0
    &&& image.has(p, 4)
    &&& image.word32(p) < 20 || image.has(p, 24) && map_malformed(
        image,
        p + 4 + image.word32(p),
        end,
        (room - 1) as nat,
    )
}

/// The memory that the info block at `info` says is above 1 MiB, in KiB; 0 if
/// it does not say.
pub open spec fn mem_upper(image: Image<'_>, info: int) -> int {
    if image.word32(info) % 2 == 1 {
        image.word32(info + 8)
    } else {
        0
    }
}

/// The entries of the memory map that the info block at `info` points to.
pub open spec fn info_entries(image: Image<'_>, info: int, room: nat) -> Seq<MemEntry> {
    if image.word32(info) / 64 % 2 == 1 {
        map_entries(
            image,
            image.word32(info + 48),
            image.word32(info + 48) + image.word32(info + 44),
            room,
        )
    } else {
        Seq::empty()
    }
}

/// True if the memory map that the info block at `info` points to is
/// malformed.
pub open spec fn info_malformed(image: Image<'_>, info: int, room: nat) -> bool {
    image.word32(info) / 64 % 2 == 1 && map_malformed(
        image,
        image.word32(info + 48),
        image.word32(info + 48) + image.word32(info + 44),
        room,
    )
}

/// What [`parse`] gives: nothing of a malformed map; otherwise the map's
/// entries or, where there are none, one entry for the memory above 1 MiB, if
/// the info block says how much.
pub open spec fn parsed_entries(image: Image<'_>, info: int, room: nat) -> Seq<MemEntry> {
    if info_malformed(image, info, room) {
        Seq::empty()
    } else if info_entries(image, info, room).len() > 0 {
        info_entries(image, info, room)
    } else if mem_upper(image, info) != 0 {
        seq![
            MemEntry {
                start: 0x10_0000,
                len: (mem_upper(image, info) * 1024) as u64,
                kind: MT_USABLE,
            },
        ]
    } else {
        Seq::empty()
    }
}

/// Parse the info block at `info` into memory-map entries, `out.len()` of
/// them at most.
///
/// Returns the number of entries written, or `None` on a malformed map, or if
/// there are no entries. The records before a malformed one have been written.
pub fn parse(image: &Image<'_>, info: u64, out: &mut [MemEntry]) -> (r: Option<usize>)
    requires
        image.has(info as int, 52),
        info + 52 <= u64::MAX,
        old(out)@.len() > 0 || mem_upper(*image, info as int) == 0,
    ensures
        final(out)@.len() == old(out)@.len(),
        ({
            let all = parsed_entries(*image, info as int, old(out)@.len());
            &&& r is None <==> all.len() == 0
            &&& r matches Some(n) ==> {
                &&& n == all.len() <= old(out)@.len()
                &&& forall|i: int| 0 <= i < n ==> #[trigger] final(out)@[i] == all[i]
                &&& forall|i: int|
                    n <= i < old(out)@.len() ==> #[trigger] final(out)@[i] == old(out)@[i]
            }
            &&& r is None ==> forall|i: int|
                0 <= i < old(out)@.len() ==> #[trigger] final(out)@[i] == (if i < info_entries(
                    *image,
                    info as int,
                    old(out)@.len(),
                ).len() {
                    info_entries(*image, info as int, old(out)@.len())[i]
                } else {
                    old(out)@[i]
                })
        }),
{
    let flags = read_info(image, info, 0);
    let mut count: usize = 0;
    // FLAG_MEM (bit 0): mem_upper at word 2. Fallback if no mmap present.
    let upper: u32 = if flags % 2 == 1 {
        read_info(image, info, 8)
    } else {
        0
    };
    let ghost all = info_entries(*image, info as int, old(out)@.len());
    let mut malformed = false;
    proof {
        lemma_map_len(
            *image,
            image.word32(info + 48),
            image.word32(info + 48) + image.word32(info + 44),
            old(out)@.len(),
        );
    }
    // FLAG_MMAP (bit 6): mmap_length at word 11, mmap_addr at word 12.
    if flags / 64 % 2 == 1 {
        let mmap_addr = read_info(image, info, 48) as u64;
        let mmap_len = read_info(image, info, 44) as u64;
        let mut p = mmap_addr;
        let end = mmap_addr + mmap_len;
        let ghost mut rest = all;
        proof {
            assert(out@.take(0) + rest =~= all);
        }
        while p < end && count < out.len()
            invariant_except_break
                !malformed,
                map_malformed(*image, p as int, end as int, (out@.len() - count) as nat)
                    == info_malformed(*image, info as int, out@.len()),
            invariant
                count <= out@.len(),
                out@.len() == old(out)@.len(),
                p <= 0x4_0000_0000,
                end <= 0x2_0000_0000,
                rest == map_entries(*image, p as int, end as int, (out@.len() - count) as nat),
                out@.take(count as int) + rest == all,
                forall|i: int| count <= i < out@.len() ==> #[trigger] out@[i] == old(out)@[i],
            ensures
                rest.len() == 0,
                malformed == info_malformed(*image, info as int, out@.len()),
            decreases out@.len() - count,
        {
            if let Some(size) = image.read32(p) {
                if size < 20 {
                    malformed = true;
                    break ;
                }
            }
            let (size, entry) = match image.record(p) {
                Some(record) => record,
                None => {
                    break ;
                },
            };
            let ghost before = out@;
            out[count] = entry;
            count = count + 1;
            p = p + 4 + size as u64;
            proof {
                let next = map_entries(*image, p as int, end as int, (out@.len() - count) as nat);
                assert(rest == seq![entry] + next);
                assert(out@.take(count as int) =~= before.take(count - 1).push(entry));
                assert(before.take(count - 1) + (seq![entry] + next) =~= before.take(
                    count - 1,
                ).push(entry) + next);
                rest = next;
            }
        }
        proof {
            assert(out@.take(count as int) + rest =~= out@.take(count as int));
            assert forall|i: int| 0 <= i < count implies #[trigger] out@[i] == all[i] by {
                assert(out@.take(count as int)[i] == out@[i]);
            }
        }
    }
    assert(count == all.len());
    if malformed {
        return None;
    }
    if count == 0 && upper != 0 {
        out[count] = MemEntry { start: 0x10_0000, len: upper as u64 * 1024, kind: MT_USABLE };
        count = count + 1;
    }
    if count == 0 {
        None
    } else {
        Some(count)
    }
}

/// The 32-bit word at offset `off` of the info block at `info`.
fn read_info(image: &Image<'_>, info: u64, off: u64) -> (r: u32)
    requires
        image.has(info as int, 52),
        off <= 48,
        info + 52 <= u64::MAX,
    ensures
        r == image.word32(info + off),
{
    match image.read32(info + off) {
        Some(v) => v,
        None => 0,
    }
}

proof fn lemma_map_len(image: Image<'_>, p: int, end: int, room: nat)
    ensures
        map_entries(image, p, end, room).len() <= room,
    decreases room,
{
    if !(p >= end || room == 0 || !image.has(p, 24) || image.word32(p) < 20) {
        lemma_map_len(image, p + 4 + image.word32(p), end, (room - 1) as nat);
    }
}

/// No more entries are given than there is room for.
pub proof fn lemma_entries_len(image: Image<'_>, info: int, room: nat)
    requires
        room > 0 || mem_upper(image, info) == 0,
    ensures
        parsed_entries(image, info, room).len() <= room,
{
    lemma_map_len(
        image,
        image.word32(info + 48),
        image.word32(info + 48) + image.word32(info + 44),
        room,
    );
}

/// The number that `b` holds, the first byte counting least.
pub open spec fn le_value(b: Seq<u8>) -> int
    decreases b.len(),
{
    if b.len() == 0 {
        0
    } else {
        b[0] + 256 * le_value(b.skip(1))
    }
}

/// Words are little-endian.
pub proof fn law_words_are_little_endian(image: Image<'_>, a: int)
    requires
        image.has(a, 4),
    ensures
        image.word32(a) == le_value(
            image.bytes@.subrange(a - image.base, a - image.base + 4),
        ),
        image.has(a, 8) ==> image.word64(a) == le_value(
            image.bytes@.subrange(a - image.base, a - image.base + 8),
        ),
        0 <= image.word32(a) <= u32::MAX,
        image.has(a, 8) ==> 0 <= image.word64(a) <= u64::MAX,
{
    let i = a - image.base;
    let b = image.bytes@;
    lemma_le_step(b, i, i + 4);
    lemma_le_step(b, i + 1, i + 4);
    lemma_le_step(b, i + 2, i + 4);
    lemma_le_step(b, i + 3, i + 4);
    assert(b.subrange(i + 4, i + 4) =~= Seq::empty());
    if image.has(a, 8) {
        lemma_le_step(b, i, i + 8);
        lemma_le_step(b, i + 1, i + 8);
        lemma_le_step(b, i + 2, i + 8);
        lemma_le_step(b, i + 3, i + 8);
        lemma_le_step(b, i + 4, i + 8);
        lemma_le_step(b, i + 5, i + 8);
        lemma_le_step(b, i + 6, i + 8);
        lemma_le_step(b, i + 7, i + 8);
        assert(b.subrange(i + 8, i + 8) =~= Seq::empty());
    }
}

proof fn lemma_le_step(b: Seq<u8>, i: int, end: int)
    requires
        0 <= i < end <= b.len(),
    ensures
        le_value(b.subrange(i, end)) == b[i] + 256 * le_value(b.subrange(i + 1, end)),
{
    assert(b.subrange(i, end).skip(1) =~= b.subrange(i + 1, end));
}

/// A record is 24 bytes: four for its size, eight for the start, eight for the
/// length, and four for the kind.
pub proof fn law_record_layout(image: Image<'_>, p: int)
    requires
        image.has(p, 24),
    ensures
        ({
            let b = image.bytes@.skip(p - image.base);
            let e = record_at(image, p);
            &&& e.start == le_value(b.subrange(4, 12))
            &&& e.len == le_value(b.subrange(12, 20))
            &&& e.kind == le_value(b.subrange(20, 24))
        }),
{
    let i = p - image.base;
    let b = image.bytes@.skip(i);
    assert(b.subrange(4, 12) =~= image.bytes@.subrange(i + 4, i + 12));
    assert(b.subrange(12, 20) =~= image.bytes@.subrange(i + 12, i + 20));
    assert(b.subrange(20, 24) =~= image.bytes@.subrange(i + 20, i + 24));
    law_words_are_little_endian(image, p + 4);
    law_words_are_little_endian(image, p + 12);
    law_words_are_little_endian(image, p + 20);
}

/// Records lie one behind the other at the addresses `at`: each is in the
/// image, says that it has 20 bytes or more behind its size, and ends where the
/// next begins.
pub open spec fn records_at(image: Image<'_>, at: Seq<int>) -> bool {
    &&& at.len() > 0
    &&& forall|i: int|
        0 <= i < at.len() - 1 ==> {
            &&& image.has(#[trigger] at[i], 24)
            &&& image.word32(at[i]) >= 20
            &&& at[i + 1] == at[i] + 4 + image.word32(at[i])
        }
}

/// A memory map is read record by record, in order, up to the last that begins
/// before its end, as far as there is room.
pub proof fn law_every_record_is_read(image: Image<'_>, at: Seq<int>, end: int, room: nat)
    requires
        records_at(image, at),
        at.len() > 1 ==> at[at.len() - 2] < end,
        end <= at.last(),
    ensures
        room >= at.len() - 1 ==> map_entries(image, at[0], end, room) == Seq::new(
            (at.len() - 1) as nat,
            |i: int| record_at(image, at[i]),
        ),
        room < at.len() - 1 ==> map_entries(image, at[0], end, room) == Seq::new(
            room,
            |i: int| record_at(image, at[i]),
        ),
        !map_malformed(image, at[0], end, room),
    decreases at.len(),
{
    let n = if room >= at.len() - 1 {
        (at.len() - 1) as nat
    } else {
        room
    };
    let all = Seq::new(n, |i: int| record_at(image, at[i]));
    if at.len() == 1 {
        assert(map_entries(image, at[0], end, room) =~= all);
    } else {
        let rest = at.skip(1);
        assert forall|i: int| 0 <= i < rest.len() - 1 implies {
            &&& image.has(#[trigger] rest[i], 24)
            &&& image.word32(rest[i]) >= 20
            &&& rest[i + 1] == rest[i] + 4 + image.word32(rest[i])
        } by {
            assert(image.has(at[i + 1], 24));
        }
        let before = at.drop_last();
        assert forall|i: int| 0 <= i < before.len() - 1 implies {
            &&& image.has(#[trigger] before[i], 24)
            &&& image.word32(before[i]) >= 20
            &&& before[i + 1] == before[i] + 4 + image.word32(before[i])
        } by {
            assert(image.has(at[i], 24));
        }
        lemma_records_ascend(image, before);
        assert(before.last() == at[at.len() - 2]);
        assert(at[0] < end);
        assert(image.has(at[0], 24));
        assert(at[1] == at[0] + 4 + image.word32(at[0]));
        assert(rest.last() == at.last());
        if room > 0 {
            law_every_record_is_read(image, rest, end, (room - 1) as nat);
            assert(map_entries(image, at[0], end, room) =~= all);
        } else {
            assert(map_entries(image, at[0], end, room) =~= all);
        }
    }
}

proof fn lemma_records_ascend(image: Image<'_>, at: Seq<int>)
    requires
        records_at(image, at),
    ensures
        at.len() > 1 ==> at[0] < at.last(),
    decreases at.len(),
{
    if at.len() > 1 {
        let rest = at.skip(1);
        assert forall|i: int| 0 <= i < rest.len() - 1 implies {
            &&& image.has(#[trigger] rest[i], 24)
            &&& image.word32(rest[i]) >= 20
            &&& rest[i + 1] == rest[i] + 4 + image.word32(rest[i])
        } by {
            assert(image.has(at[i + 1], 24));
        }
        assert(image.has(at[0], 24));
        lemma_records_ascend(image, rest);
        assert(rest.last() == at.last());
    }
}

/// A record that says it is shorter than a record spoils the map.
pub proof fn law_short_record_spoils_the_map(image: Image<'_>, at: Seq<int>, end: int, room: nat)
    requires
        records_at(image, at),
        at.last() < end,
        at.len() <= room,
        image.has(at.last(), 4),
        image.word32(at.last()) < 20,
    ensures
        map_malformed(image, at[0], end, room),
    decreases at.len(),
{
    lemma_records_ascend(image, at);
    if at.len() > 1 {
        let rest = at.skip(1);
        assert forall|i: int| 0 <= i < rest.len() - 1 implies {
            &&& image.has(#[trigger] rest[i], 24)
            &&& image.word32(rest[i]) >= 20
            &&& rest[i + 1] == rest[i] + 4 + image.word32(rest[i])
        } by {
            assert(image.has(at[i + 1], 24));
        }
        assert(image.has(at[0], 24));
        assert(rest.last() == at.last());
        law_short_record_spoils_the_map(image, rest, end, (room - 1) as nat);
    }
}

/// What is made of an info block: bit 6 of its flags says that there is a map,
/// whose length and address are words 11 and 12; its records are what is
/// parsed. Without records, bit 0 says that word 2 holds the KiB above 1 MiB,
/// and they are usable. A map that is spoiled gives nothing.
pub proof fn law_info_block(image: Image<'_>, info: int, room: nat)
    ensures
        ({
            let flags = image.word32(info);
            let mapped = (flags / 0x40) % 2 == 1;
            let from = image.word32(info + 12 * 4);
            let to = from + image.word32(info + 11 * 4);
            let upper = image.word32(info + 2 * 4);
            let entries = parsed_entries(image, info, room);
            &&& mapped && map_malformed(image, from, to, room) ==> entries.len() == 0
            &&& mapped && !map_malformed(image, from, to, room) && map_entries(
                image,
                from,
                to,
                room,
            ).len() > 0 ==> entries == map_entries(image, from, to, room)
            &&& !mapped && flags % 2 == 1 && 0 < upper <= u32::MAX ==> entries.len() == 1
                && entries[0].start == 1024 * 1024 && entries[0].len == upper * 1024
                && entries[0].kind == 1
            &&& !mapped && flags % 2 == 0 ==> entries.len() == 0
            &&& !mapped && upper == 0 ==> entries.len() == 0
        }),
{
}

} // verus!
