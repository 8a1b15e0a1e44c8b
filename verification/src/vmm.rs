//! Virtual memory: 4-level page tables over physical frames.
//!
//! A page table is a tree of frames. Individual pages are mapped and unmapped
//! at 4 KiB granularity, which counts as a reference to the mapped frame; the
//! kernel's windows onto all of RAM are built from uncounted 2 MiB pages.

use crate::allocator::{self, alloc_frame};
use crate::arch::{frame_phys, physmap_base, FRAME_SIZE, FRAME_WORDS};
use crate::frame::{self, add_mapping, remove_mapping, total_frames, FrameIndex, FrameInfo, FrameOwner, OwnerTag};
use crate::math::{self, align_up};
use crate::page_tree::{self, Nodes};
use crate::pmm::{self, Pmm};
use vstd::prelude::*;

verus! {

/// Entries per page-table level.
pub const TABLE_ENTRIES: usize = 512;

/// A 2 MiB huge page.
pub const LARGE_PAGE: u64 = 0x20_0000;

pub const PTE_PRESENT: u64 = 1;

pub const PTE_WRITABLE: u64 = 2;

pub const PTE_USER: u64 = 4;

/// Set by the processor in an entry that it has used.
pub const PTE_ACCESSED: u64 = 0x20;

pub const PTE_HUGE: u64 = 0x80;

pub const PTE_NO_EXEC: u64 = 0x8000_0000_0000_0000;

/// Every bit that a [`Flags`] value can hold.
pub const PTE_FLAG_BITS: u64 = 0x8000_0000_0000_0087;

/// Physical-address field masks (bits 12..51, offset by the page size).
pub const ADDR_MASK_4K: u64 = 0x000f_ffff_ffff_f000;

pub const ADDR_MASK_2M: u64 = 0x000f_ffff_ffe0_0000;

pub const ADDR_MASK_1G: u64 = 0x000f_ffff_c000_0000;

/// Number of 4 KiB pages in the 48-bit virtual address space.
pub const PAGES: u64 = 0x10_0000_0000;

/// The virtual address space wraps around after this many bytes.
pub const VA_SPAN: u64 = 0x1_0000_0000_0000;

// ---------------------------------------------------------------------------
// Entries
// ---------------------------------------------------------------------------

pub open spec fn present(entry: u64) -> bool {
    entry & PTE_PRESENT != 0
}

pub open spec fn huge(entry: u64) -> bool {
    entry & PTE_HUGE != 0
}

pub open spec fn user_ok(entry: u64) -> bool {
    entry & PTE_USER != 0
}

pub open spec fn write_ok(entry: u64) -> bool {
    entry & PTE_WRITABLE != 0
}

pub open spec fn exec_ok(entry: u64) -> bool {
    entry & PTE_NO_EXEC == 0
}

/// The frame a present, non-huge entry points to.
pub open spec fn frame_of(entry: u64) -> FrameIndex {
    ((entry >> 12) & 0xffff_ffff) as FrameIndex
}

/// `entry` refers to the table in frame `f`, and leaves it to the entries
/// there what may be done with a page: it holds that frame's address, is
/// present and writable, and has no other bit set but the user bit and the
/// processor's own mark.
pub open spec fn is_link(entry: u64, f: FrameIndex) -> bool {
    &&& present(entry)
    &&& !huge(entry)
    &&& frame_of(entry) == f
    &&& entry & !(PTE_USER | PTE_ACCESSED) == ((f * 4096) as u64) | PTE_PRESENT | PTE_WRITABLE
}

/// What a link says of access: writing and execution are open through it, and
/// its address field is that of the frame, with nothing left out.
pub proof fn law_link_is_open(entry: u64, f: FrameIndex)
    requires
        is_link(entry, f),
    ensures
        write_ok(entry),
        exec_ok(entry),
        entry & ADDR_MASK_4K == f * 4096,
{
    lemma_link_bits(entry, f);
}

proof fn lemma_link_bits(e: u64, f: FrameIndex)
    by (bit_vector)
    requires
        e & !(4u64 | 0x20u64) == ((f as u64 * 4096) as u64) | 1 | 2,
    ensures
        e & 2 != 0,
        e & 0x8000_0000_0000_0000 == 0,
        e & 0x000f_ffff_ffff_f000 == f as u64 * 4096,
{
}

proof fn lemma_link_entry(f: FrameIndex, user: u64)
    by (bit_vector)
    requires
        user == 0 || user == 4,
    ensures
        (((f as u64 * 4096) as u64) | 1 | 2 | user) & 1 != 0,
        (((f as u64 * 4096) as u64) | 1 | 2 | user) & 0x80 == 0,
        ((((((f as u64 * 4096) as u64) | 1 | 2 | user) >> 12) & 0xffff_ffff) as FrameIndex) == f,
        (((f as u64 * 4096) as u64) | 1 | 2 | user) & 4 == user,
        (((f as u64 * 4096) as u64) | 1 | 2 | user) & !(4u64 | 0x20u64) == ((f as u64
            * 4096) as u64) | 1 | 2,
{
}

proof fn lemma_promote(e: u64, user: u64)
    by (bit_vector)
    requires
        user == 0 || user == 4,
    ensures
        (e | user) & 1 == e & 1,
        (e | user) & 0x80 == e & 0x80,
        ((e | user) >> 12) & 0xffff_ffff == (e >> 12) & 0xffff_ffff,
        (e | user) & 0x000f_ffff_ffff_f000 == e & 0x000f_ffff_ffff_f000,
        (e | user) & 0x000f_ffff_ffe0_0000 == e & 0x000f_ffff_ffe0_0000,
        (e | user) & 0x000f_ffff_c000_0000 == e & 0x000f_ffff_c000_0000,
        e & 4 != 0 ==> (e | user) & 4 != 0,
        user == 4 ==> (e | user) & 4 != 0,
        user == 0 ==> (e | user) == e,
        (e | user) & !(4u64 | 0x20u64) == e & !(4u64 | 0x20u64),
{
}

proof fn lemma_page_entry(pa: u64, flags: u64)
    by (bit_vector)
    requires
        pa % 4096 == 0,
        pa < 0x10_0000_0000_0000,
        flags & !0x8000_0000_0000_0087u64 == 0,
    ensures
        (pa | flags | 1) & 1 != 0,
        (pa | flags | 1) & 0x000f_ffff_ffff_f000 == pa,
{
}

proof fn lemma_large_entry(pa: u64, flags: u64)
    by (bit_vector)
    requires
        pa % 0x20_0000 == 0,
        pa < 0x10_0000_0000_0000,
        flags & !0x8000_0000_0000_0087u64 == 0,
    ensures
        (pa | (flags | 1 | 0x80)) & 1 != 0,
        (pa | (flags | 1 | 0x80)) & 0x80 != 0,
        (pa | (flags | 1 | 0x80)) & 0x000f_ffff_ffe0_0000 == pa,
{
}

proof fn lemma_or_keeps_bits(a: u64, b: u64)
    by (bit_vector)
    ensures
        b & 1 != 0 ==> (a | b) & 1 != 0,
        b & 0x80 != 0 ==> (a | b) & 0x80 != 0,
        ((b | 1) | 0x80) & 1 != 0,
        ((b | 1) | 0x80) & 0x80 != 0,
{
}

proof fn lemma_masks(e: u64)
    by (bit_vector)
    ensures
        (0u64 & 1) == 0,
        (e & 0x000f_ffff_ffff_f000) % 4096 == 0,
        (e & 0x000f_ffff_ffff_f000) < 0x10_0000_0000_0000,
        (e & 0x000f_ffff_ffe0_0000) < 0x10_0000_0000_0000,
        (e & 0x000f_ffff_c000_0000) < 0x10_0000_0000_0000,
        e & 4 == 0 || e & 4 == 4,
{
}

// ---------------------------------------------------------------------------
// Addresses
// ---------------------------------------------------------------------------

/// True if `va` is a canonical 48-bit address.
pub open spec fn canonical(va: u64) -> bool {
    va < 0x8000_0000_0000 || va >= 0xffff_8000_0000_0000
}

/// Number of the page that `va` lies in, within the 48-bit address space.
pub open spec fn page_of(va: u64) -> int {
    (va % VA_SPAN) as int / 4096
}

/// Number of pages that one entry of a table at `level` covers.
pub open spec fn pages_per_entry(level: int) -> int {
    if level == 0 {
        1
    } else if level == 1 {
        512
    } else if level == 2 {
        0x4_0000
    } else {
        0x800_0000
    }
}

/// Index of page `n` within the table at `level` on its path.
pub open spec fn index_of(n: int, level: int) -> int {
    (n / pages_per_entry(level)) % 512
}

/// Number, among all tables at `level`, of the table on the path of page `n`.
pub open spec fn key_of(n: int, level: int) -> int {
    n / pages_per_entry(level) / 512
}

/// Every page is below the root.
proof fn lemma_root_key(n: int)
    requires
        0 <= n < PAGES,
    ensures
        key_of(n, 3) == 0,
{
}

proof fn lemma_va_bits(va: u64)
    by (bit_vector)
    ensures
        (va >> 12) & 0x1ff == ((va % 0x1_0000_0000_0000) / 4096) % 512,
        (va >> 21) & 0x1ff == ((va % 0x1_0000_0000_0000) / 0x20_0000) % 512,
        (va >> 30) & 0x1ff == ((va % 0x1_0000_0000_0000) / 0x4000_0000) % 512,
        (va >> 39) & 0x1ff == ((va % 0x1_0000_0000_0000) / 0x80_0000_0000) % 512,
        va & 0xfff == va % 4096,
        va & 0x1f_ffff == va % 0x20_0000,
        va & 0x3fff_ffff == va % 0x4000_0000,
        (va >> 47) & 1 == 0 ==> ((va >> 48) == 0 <==> va < 0x8000_0000_0000),
        (va >> 47) & 1 == 0 ==> va < 0xffff_8000_0000_0000,
        (va >> 47) & 1 != 0 ==> ((va >> 48) == 0xffff <==> va >= 0xffff_8000_0000_0000),
        (va >> 47) & 1 != 0 ==> va >= 0x8000_0000_0000,
{
}

/// A table's number is made of its parent's number and its index there.
proof fn lemma_key_below(n: int, level: int)
    requires
        1 <= level <= 3,
    ensures
        key_of(n, level - 1) == n / pages_per_entry(level),
        key_of(n, level - 1) == key_of(n, level) * 512 + index_of(n, level),
{
}

/// Index within a level's table for `va`. `level` 0 = PT (offset 12),
/// 3 = PML4 (offset 39).
fn index(va: u64, level: usize) -> (r: usize)
    requires
        level <= 3,
    ensures
        r == index_of(page_of(va), level as int),
        r < 512,
{
    proof {
        lemma_va_bits(va);
        let v = (va % VA_SPAN) as int;
        assert(v / 0x20_0000 == v / 4096 / 512);
        assert(v / 0x4000_0000 == v / 4096 / 0x4_0000);
        assert(v / 0x80_0000_0000 == v / 4096 / 0x800_0000);
    }
    if level == 0 {
        ((va >> 12) & 0x1ff) as usize
    } else if level == 1 {
        ((va >> 21) & 0x1ff) as usize
    } else if level == 2 {
        ((va >> 30) & 0x1ff) as usize
    } else {
        ((va >> 39) & 0x1ff) as usize
    }
}

/// The frame a present (non-huge) entry points to.
fn phys_of(entry: u64) -> (r: FrameIndex)
    ensures
        r == frame_of(entry),
{
    ((entry >> 12) & 0xffff_ffff) as FrameIndex
}

/// True if `va` is a canonical 48-bit address.
fn is_canonical(va: u64) -> (r: bool)
    ensures
        r == canonical(va),
        r <==> (va >> 47 == 0 || va >> 47 == 0x1ffff),
{
    proof {
        lemma_va_bits(va);
        law_canonical_is_sign_extension(va);
    }
    let sign: u64 = (va >> 47) & 1;
    let top: u64 = va >> 48;
    if sign == 0 {
        top == 0
    } else {
        top == 0xffff
    }
}

// ---------------------------------------------------------------------------
// Flags and errors
// ---------------------------------------------------------------------------

/// Page-table flags. Use [`Flags::with`] to combine.
#[derive(Clone, Copy, PartialEq, Eq, Debug, Structural)]
pub struct Flags {
    pub(crate) bits: u64,
}

impl Flags {
    /// Flags hold nothing but flag bits.
    #[verifier::type_invariant]
    pub open(crate) spec fn valid(self) -> bool {
        self.bits & !PTE_FLAG_BITS == 0
    }

    pub open(crate) spec fn bits_spec(self) -> u64 {
        self.bits
    }

    /// The entry is present.
    pub fn present() -> (r: Flags)
        ensures
            r.bits() == PTE_PRESENT,
    {
        proof {
            lemma_flag_bits();
        }
        Flags { bits: PTE_PRESENT }
    }

    /// The page may be written to.
    pub fn writable() -> (r: Flags)
        ensures
            r.bits() == PTE_WRITABLE,
    {
        proof {
            lemma_flag_bits();
        }
        Flags { bits: PTE_WRITABLE }
    }

    /// User code may use the page.
    pub fn user() -> (r: Flags)
        ensures
            r.bits() == PTE_USER,
    {
        proof {
            lemma_flag_bits();
        }
        Flags { bits: PTE_USER }
    }

    /// The entry is a huge page.
    pub fn huge() -> (r: Flags)
        ensures
            r.bits() == PTE_HUGE,
    {
        proof {
            lemma_flag_bits();
        }
        Flags { bits: PTE_HUGE }
    }

    /// The page does not hold code.
    pub fn no_exec() -> (r: Flags)
        ensures
            r.bits() == PTE_NO_EXEC,
    {
        proof {
            lemma_flag_bits();
        }
        Flags { bits: PTE_NO_EXEC }
    }

    /// The flags as bits of an entry.
    #[verifier::when_used_as_spec(bits_spec)]
    pub fn bits(self) -> (r: u64)
        ensures
            r == self.bits(),
    {
        self.bits
    }

    /// The flags of both.
    pub fn with(self, other: Flags) -> (r: Flags)
        ensures
            r.bits() == self.bits() | other.bits(),
    {
        proof {
            use_type_invariant(&self);
            use_type_invariant(&other);
            lemma_flags_union(self.bits, other.bits);
        }
        Flags { bits: self.bits | other.bits }
    }
}

proof fn lemma_flag_bits()
    by (bit_vector)
    ensures
        1u64 & !0x8000_0000_0000_0087u64 == 0,
        2u64 & !0x8000_0000_0000_0087u64 == 0,
        4u64 & !0x8000_0000_0000_0087u64 == 0,
        0x80u64 & !0x8000_0000_0000_0087u64 == 0,
        0x8000_0000_0000_0000u64 & !0x8000_0000_0000_0087u64 == 0,
{
}

proof fn lemma_flags_union(a: u64, b: u64)
    by (bit_vector)
    requires
        a & !0x8000_0000_0000_0087u64 == 0,
        b & !0x8000_0000_0000_0087u64 == 0,
    ensures
        (a | b) & !0x8000_0000_0000_0087u64 == 0,
{
}

/// Why a page-table operation failed.
#[derive(Clone, Copy, Debug, PartialEq, Eq, Structural)]
pub enum MapError {
    /// Address or length not aligned as required.
    NotAligned,
    /// Virtual address is not canonical.
    NonCanonical,
    /// Physical address is not backed by RAM.
    OutOfRange,
    /// Ran out of frames while growing the tree.
    AllocFailed,
    /// An incompatible mapping (e.g. huge vs. 4 KiB) is already present.
    Conflict,
    /// No mapping exists at the address.
    NotMapped,
}

// ---------------------------------------------------------------------------
// Page tables
// ---------------------------------------------------------------------------

/// Size in bytes of the page that an entry ending the walk at `level` maps.
pub open spec fn leaf_size(level: int) -> int {
    pages_per_entry(level) * 4096
}

/// Physical address of the page that entry `e` maps at `level`.
pub open spec fn leaf_phys(level: int, e: u64) -> u64 {
    if level == 0 {
        e & ADDR_MASK_4K
    } else if level == 1 {
        e & ADDR_MASK_2M
    } else {
        e & ADDR_MASK_1G
    }
}

/// The physical address that the tables under `root` map `va` to.
pub open spec fn translation(ram: Seq<u64>, root: FrameIndex, va: u64) -> Option<int> {
    if !canonical(va) {
        None
    } else {
        match page_tree::walk(ram, root, page_of(va)) {
            None => None,
            Some((level, e)) => Some(leaf_phys(level, e) + va as int % leaf_size(level)),
        }
    }
}

/// A 4-level page table rooted at a physical frame.
pub struct PageTable {
    pub(crate) root: FrameIndex,
    pub(crate) nodes: Ghost<Nodes>,
}

impl PageTable {
    pub open(crate) spec fn root_frame(self) -> FrameIndex {
        self.root
    }

    /// The tables, the root among them.
    pub open(crate) spec fn tables(self) -> Nodes {
        self.nodes@
    }

    /// The tables form a tree in kernel-owned frames of `pmm`.
    pub open spec fn wf(self, pmm: Pmm) -> bool {
        page_tree::tree_wf(self.root_frame(), self.tables(), pmm.ram_words(), pmm.frames())
    }

    /// The physical address that `va` is mapped to.
    pub open spec fn translates(self, pmm: Pmm, va: u64) -> Option<int> {
        translation(pmm.ram_words(), self.root_frame(), va)
    }

    /// The entry that maps page `n`, with its level.
    pub open spec fn leaf(self, pmm: Pmm, n: int) -> Option<(int, u64)> {
        page_tree::walk(pmm.ram_words(), self.root_frame(), n)
    }

    /// True if page `n` is mapped by a 4 KiB entry.
    pub open spec fn maps_page(self, pmm: Pmm, n: int) -> bool {
        self.leaf(pmm, n) matches Some((l, _)) && l == 0
    }

    /// The frame that page `n` is mapped to by a 4 KiB entry.
    pub open spec fn mapped_frame(self, pmm: Pmm, n: int) -> FrameIndex {
        match self.leaf(pmm, n) {
            Some((_, e)) => (leaf_phys(0, e) / 4096) as FrameIndex,
            None => 0,
        }
    }

    /// Allocate a frame for a table and zero it.
    fn new_table(pmm: &mut Pmm) -> (r: Option<FrameIndex>)
        requires
            old(pmm).wf(),
        ensures
            final(pmm).wf(),
            r == old(pmm).next_alloc(),
            r is None <==> old(pmm).free_count() == 0,
            r is None ==> *final(pmm) == *old(pmm),
            r matches Some(f) ==> {
                &&& old(pmm).free(f as int)
                &&& !final(pmm).free(f as int)
                &&& final(pmm).frames() == old(pmm).frames().update(
                    f as int,
                    old(pmm).frames()[f as int].with_owner(FrameOwner::of(OwnerTag::Kernel, 0)),
                )
                &&& final(pmm).free_count() + 1 == old(pmm).free_count()
                &&& final(pmm).pool() == old(pmm).pool().take_head()
                &&& forall|i: int|
                    0 <= i < 512 ==> #[trigger] page_tree::entry(final(pmm).ram_words(), f, i) == 0
            },
            final(pmm).physmap_at() == old(pmm).physmap_at(),
            final(pmm).table_at() == old(pmm).table_at(),
            final(pmm).ram_words().len() == old(pmm).ram_words().len(),
            forall|i: int|
                0 <= i < old(pmm).ram_words().len() && !old(pmm).free(i / FRAME_WORDS as int)
                    ==> #[trigger] final(pmm).ram_words()[i] == old(pmm).ram_words()[i],
    {
        proof {
            pmm.lemma_wf();
            pmm.lemma_no_free_frames();
            pmm.lemma_free_count();
        }
        match alloc_frame(pmm) {
            None => {
                assert(old(pmm).free_set() =~= Set::empty());
                None
            },
            Some(frame) => {
                let ghost mid = *pmm;
                assert(old(pmm).free_set().contains(frame as int));
                pmm.zero_frame(frame);
                proof {
                    allocator::law_free_count_steps(
                        *old(pmm),
                        *pmm,
                        frame,
                        mid.frames()[frame as int],
                    );
                    assert forall|i: int|
                        0 <= i < old(pmm).ram_words().len() && !old(pmm).free(
                            i / FRAME_WORDS as int,
                        ) implies #[trigger] pmm.ram_words()[i] == old(pmm).ram_words()[i] by {
                        assert(mid.ram_words()[i] == old(pmm).ram_words()[i]);
                    }
                }
                Some(frame)
            },
        }
    }

    /// Set entry `i` of the table in `frame`.
    fn write_entry(
        &self,
        pmm: &mut Pmm,
        frame: FrameIndex,
        i: usize,
        value: u64,
        Ghost(level): Ghost<int>,
        Ghost(key): Ghost<int>,
    )
        requires
            old(pmm).wf(),
            self.wf(*old(pmm)),
            self.tables().contains_key((level, key)),
            self.tables()[(level, key)] == frame,
            i < 512,
        ensures
            final(pmm).wf(),
            pmm::same_but_ram(*old(pmm), *final(pmm)),
            page_tree::one_entry_set(
                self.tables(),
                old(pmm).ram_words(),
                final(pmm).ram_words(),
                level,
                key,
                i as int,
                value,
            ),
            final(pmm).free_count() == old(pmm).free_count(),
            forall|w: int|
                0 <= w < old(pmm).ram_words().len() && w / FRAME_WORDS as int != frame
                    ==> #[trigger] final(pmm).ram_words()[w] == old(pmm).ram_words()[w],
    {
        proof {
            reveal(page_tree::tree_wf);
        }
        let ghost nodes = self.nodes@;
        proof {
            assert(page_tree::node_ok(nodes, pmm.ram_words(), pmm.frames(), level, key));
        }
        pmm.write_word(frame, i, value);
        proof {
            assert forall|a: (int, int), j: int|
                nodes.contains_key(a) && 0 <= j < 512 implies #[trigger] page_tree::entry(
                pmm.ram_words(),
                nodes[a],
                j,
            ) == (if a == (level, key) && j == i {
                value
            } else {
                page_tree::entry(old(pmm).ram_words(), nodes[a], j)
            }) by {
                assert(page_tree::node_ok(
                    nodes,
                    old(pmm).ram_words(),
                    old(pmm).frames(),
                    a.0,
                    a.1,
                ));
                if a != (level, key) {
                    assert(nodes[a] != nodes[(level, key)]);
                }
            }
            assert(pmm.free_set() =~= old(pmm).free_set());
        }
    }

    /// Allocate and zero a fresh, empty root. Nothing is mapped yet.
    pub fn new(pmm: &mut Pmm) -> (r: Option<PageTable>)
        requires
            old(pmm).wf(),
        ensures
            final(pmm).wf(),
            r is None <==> old(pmm).free_count() == 0,
            r is None ==> *final(pmm) == *old(pmm),
            r matches Some(pt) ==> {
                &&& Some(pt.root_frame()) == old(pmm).next_alloc()
                &&& pt.tables() == Map::<(int, int), FrameIndex>::empty().insert(
                    (3, 0),
                    pt.root_frame(),
                )
                &&& pt.wf(*final(pmm))
                &&& forall|n: int| 0 <= n < PAGES ==> #[trigger] pt.leaf(*final(pmm), n) is None
                &&& page_tree::grown(*old(pmm), *final(pmm), Map::empty(), pt.tables())
            },
    {
        proof {
            reveal(page_tree::tree_wf);
            reveal(page_tree::grown);
        }
        match PageTable::new_table(pmm) {
            None => None,
            Some(root) => {
                let ghost none = Map::<(int, int), FrameIndex>::empty();
                let ghost nodes = none.insert((3, 0), root);
                proof {
                    old(pmm).lemma_wf();
                    lemma_masks(0);
                    assert(none.dom().len() == 0);
                    assert(nodes.dom() =~= none.dom().insert((3, 0)));
                    old(pmm).pool().lemma_take_one();
                    assert(page_tree::user_bits_kept(none, old(pmm).ram_words(), pmm.ram_words()))
                        by {
                        reveal(page_tree::user_bits_kept);
                    }
                    assert forall|f: int| #[trigger] page_tree::uses(nodes, f) <==> f == root by {
                        assert(nodes[(3, 0)] == root);
                    }
                    assert(forall|f: int| !#[trigger] page_tree::uses(none, f));
                    assert forall|l: int, k: int, i: int|
                        nodes.contains_key((l, k)) && 0 <= i < 512 implies #[trigger] page_tree::slot_ok(
                        nodes,
                        pmm.ram_words(),
                        pmm.frames(),
                        l,
                        k,
                        i,
                    ) by {
                        assert(page_tree::entry(pmm.ram_words(), root, i) == 0);
                    }
                    assert(page_tree::tree_wf(root, nodes, pmm.ram_words(), pmm.frames()));
                    assert forall|n: int| 0 <= n < PAGES implies page_tree::walk(
                        pmm.ram_words(),
                        root,
                        n,
                    ) is None by {
                        reveal(page_tree::walk);
                        assert(page_tree::entry(pmm.ram_words(), root, index_of(n, 3)) == 0);
                    }
                }
                Some(PageTable { root, nodes: Ghost(nodes) })
            },
        }
    }

    /// Physical address of the root (for CR3).
    pub fn root_phys(&self) -> (r: u64)
        ensures
            r == self.root_frame() * FRAME_SIZE,
    {
        frame_phys(self.root)
    }

    /// Step from the table at `level` on the path of `va`, which is `frame`,
    /// to the one below it. A missing one is allocated, zeroed and linked. If
    /// `user` is the user bit, an existing link is opened to user code: it
    /// must be able to walk the upper levels to reach a user page, whose own
    /// entry still gates the memory.
    #[verifier::rlimit(40)]
    fn descend(
        &mut self,
        pmm: &mut Pmm,
        va: u64,
        level: usize,
        frame: FrameIndex,
        user: u64,
    ) -> (r: Result<FrameIndex, MapError>)
        requires
            old(pmm).wf(),
            old(self).wf(*old(pmm)),
            1 <= level <= 3,
            page_tree::on_path(old(self).tables(), page_of(va), level as int),
            frame == old(self).tables()[(level as int, key_of(page_of(va), level as int))],
            user == 0 || user == PTE_USER,
        ensures
            final(pmm).wf(),
            final(self).wf(*final(pmm)),
            final(self).root_frame() == old(self).root_frame(),
            page_tree::grown(*old(pmm), *final(pmm), old(self).tables(), final(self).tables()),
            opened_for(*old(self), *old(pmm), *final(self), *final(pmm), va, user),
            forall|n: int|
                0 <= n < PAGES ==> #[trigger] final(self).leaf(*final(pmm), n) == old(self).leaf(
                    *old(pmm),
                    n,
                ),
            ({
                let n = page_of(va);
                let l = level as int;
                let e = page_tree::entry(old(pmm).ram_words(), frame, index_of(n, l));
                &&& r == Err::<FrameIndex, MapError>(MapError::Conflict) <==> present(e) && huge(e)
                &&& r == Err::<FrameIndex, MapError>(MapError::AllocFailed) <==> !present(e) && old(pmm).free_count() == 0
                &&& r matches Err(err) ==> {
                    &&& err == MapError::Conflict || err == MapError::AllocFailed
                    &&& *final(pmm) == *old(pmm)
                    &&& final(self).tables() == old(self).tables()
                }
                &&& r matches Ok(f) ==> {
                    &&& f == final(self).tables()[(l - 1, key_of(n, l - 1))]
                    &&& final(self).tables() == (if present(e) {
                        old(self).tables()
                    } else {
                        old(self).tables().insert((l - 1, key_of(n, l - 1)), f)
                    })
                    &&& page_tree::on_path(final(self).tables(), n, l - 1)
                    &&& page_tree::on_path(old(self).tables(), n, l - 1) <==> present(e)
                    &&& user_ok(page_tree::entry(final(pmm).ram_words(), frame, index_of(n, l)))
                        || user == 0
                    &&& forall|a: (int, int), i: int|
                        old(self).tables().contains_key(a) && 0 <= i < 512 && (a != (
                            l,
                            key_of(n, l),
                        ) || i != index_of(n, l)) ==> #[trigger] page_tree::entry(
                            final(pmm).ram_words(),
                            old(self).tables()[a],
                            i,
                        ) == page_tree::entry(old(pmm).ram_words(), old(self).tables()[a], i)
                }
            }),
    {
        proof {
            reveal(page_tree::tree_wf);
            reveal(page_tree::grown);
        }
        let ghost n = page_of(va);
        let ghost l = level as int;
        let ghost key = key_of(n, l);
        let ghost nodes = self.nodes@;
        let ghost ram0 = pmm.ram_words();
        proof {
            pmm.lemma_wf();
            assert(page_tree::node_ok(nodes, ram0, pmm.frames(), l, key));
            lemma_key_below(n, l);
            page_tree::lemma_grown_refl(*pmm, nodes);
            page_tree::lemma_opened_none(nodes, ram0, ram0, n, user != 0);
        }
        let i = index(va, level);
        let entry = pmm.read_word(frame, i);
        proof {
            assert(page_tree::slot_ok(nodes, ram0, pmm.frames(), l, key, i as int));
            assert(page_tree::on_path(nodes, n, l - 1) ==> page_tree::node_ok(
                nodes,
                ram0,
                pmm.frames(),
                l - 1,
                key_of(n, l - 1),
            ));
        }
        if entry & PTE_PRESENT == 0 {
            let new = match PageTable::new_table(pmm) {
                None => {
                    return Err(MapError::AllocFailed);
                },
                Some(new) => new,
            };
            let ghost p1 = *pmm;
            proof {
                lemma_fresh_table(self.root, nodes, *old(pmm), p1, new);
            }
            let link = frame_phys(new) | PTE_PRESENT | PTE_WRITABLE | user;
            self.write_entry(pmm, frame, i, link, Ghost(l), Ghost(key));
            let ghost nodes1 = nodes.insert((l - 1, key_of(n, l - 1)), new);
            proof {
                lemma_link_entry(new, user);
                lemma_linked(self.root, nodes, *old(pmm), p1, *pmm, l, key, i as int, link, new);
                assert(page_tree::entry(pmm.ram_words(), nodes[(l, key)], i as int) == link);
                assert(page_tree::opened_only(
                    nodes,
                    nodes1,
                    ram0,
                    pmm.ram_words(),
                    n,
                    user != 0,
                )) by {
                    reveal(page_tree::opened_only);
                    lemma_masks(0);
                    let ram = pmm.ram_words();
                    assert forall|x: (int, int), j: int|
                        nodes1.contains_key(x) && x.0 >= 1 && 0 <= j < 512 && present(
                            #[trigger] page_tree::entry(ram, nodes1[x], j),
                        ) && user_ok(page_tree::entry(ram, nodes1[x], j)) implies {
                        ||| nodes.contains_key(x) && present(page_tree::entry(ram0, nodes[x], j))
                            && user_ok(page_tree::entry(ram0, nodes[x], j))
                        ||| user != 0 && x.1 == key_of(n, x.0) && j == index_of(n, x.0)
                    } by {
                        if x == (l - 1, key_of(n, l - 1)) {
                            assert(page_tree::entry(ram, new, j) == 0);
                        } else if x == (l, key) && j == i {
                            assert(page_tree::entry(ram, nodes[x], j) == link);
                        } else {
                            assert(page_tree::entry(ram, nodes[x], j) == page_tree::entry(
                                ram0,
                                nodes[x],
                                j,
                            ));
                        }
                    }
                }
            }
            self.nodes = Ghost(nodes1);
            Ok(new)
        } else {
            if entry & PTE_HUGE != 0 {
                return Err(MapError::Conflict);
            }
            let next = phys_of(entry);
            if user != 0 {
                self.write_entry(pmm, frame, i, entry | user, Ghost(l), Ghost(key));
                proof {
                    lemma_promote(entry, user);
                    lemma_promoted(self.root, nodes, *old(pmm), *pmm, l, key, i as int, entry | user);
                    assert(page_tree::entry(pmm.ram_words(), nodes[(l, key)], i as int) == entry
                        | user);
                    assert(page_tree::opened_only(
                        nodes,
                        nodes,
                        ram0,
                        pmm.ram_words(),
                        n,
                        user != 0,
                    )) by {
                        reveal(page_tree::opened_only);
                    }
                }
            }
            Ok(next)
        }
    }

    /// Walk from the root to the lowest table on the path of `va`, growing
    /// the tree where a table is missing.
    #[verifier::rlimit(40)]
    fn walk_down(&mut self, pmm: &mut Pmm, va: u64, user: u64) -> (r: Result<FrameIndex, MapError>)
        requires
            old(pmm).wf(),
            old(self).wf(*old(pmm)),
            user == 0 || user == PTE_USER,
        ensures
            final(pmm).wf(),
            final(self).wf(*final(pmm)),
            final(self).root_frame() == old(self).root_frame(),
            page_tree::grown(*old(pmm), *final(pmm), old(self).tables(), final(self).tables()),
            opened_for(*old(self), *old(pmm), *final(self), *final(pmm), va, user),
            forall|n: int|
                0 <= n < PAGES ==> #[trigger] final(self).leaf(*final(pmm), n) == old(self).leaf(
                    *old(pmm),
                    n,
                ),
            r matches Err(e) ==> {
                ||| e == MapError::Conflict && old(self).leaf(*old(pmm), page_of(va)) is Some
                ||| e == MapError::AllocFailed && old(self).leaf(*old(pmm), page_of(va)) is None
                    && final(pmm).free_count() == 0 && old(pmm).free_count() < page_tree::missing(
                    old(pmm).ram_words(),
                    old(self).root_frame(),
                    page_of(va),
                )
            },
            old(self).leaf(*old(pmm), page_of(va)) is Some ==> final(self).tables() == old(
                self).tables(),
            r matches Ok(f) ==> {
                let n = page_of(va);
                &&& page_tree::on_path(final(self).tables(), n, 0)
                &&& f == final(self).tables()[(0, key_of(n, 0))]
                &&& old(self).leaf(*old(pmm), n) is None ==> old(pmm).free_count()
                    >= page_tree::missing(old(pmm).ram_words(), old(self).root_frame(), n)
                &&& old(self).leaf(*old(pmm), n) is None ==> final(pmm).free_count()
                    + page_tree::missing(old(pmm).ram_words(), old(self).root_frame(), n) == old(
                    pmm).free_count()
                &&& forall|l: int|
                    1 <= l <= 3 && user != 0 ==> user_ok(
                        #[trigger] page_tree::entry(
                            final(pmm).ram_words(),
                            final(self).tables()[(l, key_of(n, l))],
                            index_of(n, l),
                        ),
                    )
                &&& forall|l: int|
                    0 <= l <= 3 ==> #[trigger] page_tree::on_path(final(self).tables(), n, l)
            },
    {
        proof {
            reveal(page_tree::tree_wf);
            reveal(page_tree::grown);
        }
        let ghost nodes0 = self.nodes@;
        let ghost n = page_of(va);
        let mut frame = self.root;
        let mut level: usize = 3;
        proof {
            assert(key_of(n, 3) == 0);
            page_tree::lemma_grown_refl(*pmm, nodes0);
            page_tree::lemma_opened_none(nodes0, pmm.ram_words(), pmm.ram_words(), n, user != 0);
            page_tree::lemma_walk(self.root, nodes0, pmm.ram_words(), pmm.frames(), n);
        }
        while level >= 1
            invariant
                level <= 3,
                n == page_of(va),
                nodes0 == old(self).tables(),
                opened_for(*old(self), *old(pmm), *self, *pmm, va, user),
                old(pmm).wf(),
                old(self).wf(*old(pmm)),
                pmm.wf(),
                self.wf(*pmm),
                self.root == old(self).root,
                user == 0 || user == PTE_USER,
                page_tree::grown(*old(pmm), *pmm, nodes0, self.tables()),
                forall|m: int|
                    0 <= m < PAGES ==> #[trigger] self.leaf(*pmm, m) == old(self).leaf(
                        *old(pmm),
                        m,
                    ),
                page_tree::on_path(self.tables(), n, level as int),
                frame == self.tables()[(level as int, key_of(n, level as int))],
                forall|l: int|
                    0 <= l < level ==> #[trigger] page_tree::on_path(self.tables(), n, l)
                        == page_tree::on_path(nodes0, n, l),
                page_tree::depth(nodes0, n) <= level ==> self.tables() == nodes0,
                old(self).leaf(*old(pmm), n) is Some ==> page_tree::depth(nodes0, n) <= level,
                self.tables().dom().len() == nodes0.dom().len() + (if page_tree::depth(nodes0, n)
                    > level {
                    page_tree::depth(nodes0, n) - level
                } else {
                    0
                }),
                forall|l: int|
                    level < l <= 3 && user != 0 ==> user_ok(
                        #[trigger] page_tree::entry(
                            pmm.ram_words(),
                            self.tables()[(l, key_of(n, l))],
                            index_of(n, l),
                        ),
                    ),
                forall|l: int| level <= l <= 3 ==> #[trigger] page_tree::on_path(self.tables(), n, l),
            decreases level,
        {
            let ghost before = *pmm;
            let ghost nodes1 = self.nodes@;
            proof {
                reveal(page_tree::tree_wf);
                reveal(page_tree::grown);
                page_tree::lemma_walk(self.root, nodes1, pmm.ram_words(), pmm.frames(), n);
                page_tree::lemma_walk(
                    self.root,
                    nodes0,
                    old(pmm).ram_words(),
                    old(pmm).frames(),
                    n,
                );
                assert(self.leaf(*pmm, n) == old(self).leaf(*old(pmm), n));
                let l = level as int;
                assert(page_tree::node_ok(nodes1, pmm.ram_words(), pmm.frames(), l, key_of(n, l)));
                assert(page_tree::slot_ok(
                    nodes1,
                    pmm.ram_words(),
                    pmm.frames(),
                    l,
                    key_of(n, l),
                    index_of(n, l),
                ));
                lemma_key_below(n, l);
                assert(page_tree::on_path(nodes1, n, l - 1) == page_tree::on_path(nodes0, n, l - 1));
                if page_tree::on_path(nodes1, n, l - 1) {
                    assert(page_tree::node_ok(
                        nodes1,
                        pmm.ram_words(),
                        pmm.frames(),
                        l - 1,
                        key_of(n, l - 1),
                    ));
                } else {
                    assert(forall|j: int| 0 <= j < l ==> !#[trigger] page_tree::on_path(nodes1, n, j)) by {
                        lemma_path_closed(
                            self.root,
                            nodes1,
                            pmm.ram_words(),
                            pmm.frames(),
                            n,
                            l - 1,
                        );
                    }
                }
            }
            match self.descend(pmm, va, level, frame, user) {
                Err(e) => {
                    return Err(e);
                },
                Ok(next) => {
                    proof {
                        page_tree::lemma_grown_trans(
                            *old(pmm),
                            before,
                            *pmm,
                            nodes0,
                            nodes1,
                            self.nodes@,
                        );
                        page_tree::lemma_opened_trans(
                            nodes0,
                            nodes1,
                            self.nodes@,
                            old(pmm).ram_words(),
                            before.ram_words(),
                            pmm.ram_words(),
                            n,
                            user != 0,
                        );
                        assert forall|l: int| level < l <= 3 && user != 0 implies user_ok(
                            #[trigger] page_tree::entry(
                                pmm.ram_words(),
                                self.tables()[(l, key_of(n, l))],
                                index_of(n, l),
                            ),
                        ) by {
                            assert(page_tree::on_path(nodes1, n, l));
                            assert(user_ok(
                                page_tree::entry(
                                    before.ram_words(),
                                    nodes1[(l, key_of(n, l))],
                                    index_of(n, l),
                                ),
                            ));
                        }
                    }
                    frame = next;
                },
            }
            level = level - 1;
        }
        proof {
            reveal(page_tree::grown);
            page_tree::lemma_walk(self.root, nodes0, old(pmm).ram_words(), old(pmm).frames(), n);
        }
        Ok(frame)
    }

    /// Map one 4 KiB page at `va` -> `pa`. `pa` must be RAM-backed and the
    /// physical frame's reference count is incremented.
    #[verifier::rlimit(40)]
    pub fn map(&mut self, pmm: &mut Pmm, va: u64, pa: u64, flags: Flags) -> (r: Result<
        (),
        MapError,
    >)
        requires
            old(pmm).wf(),
            old(self).wf(*old(pmm)),
        ensures
            final(pmm).wf(),
            final(self).wf(*final(pmm)),
            final(self).root_frame() == old(self).root_frame(),
            r == Err::<(), MapError>(MapError::NonCanonical) <==> !canonical(va),
            r == Err::<(), MapError>(MapError::NotAligned) <==> canonical(va) && (va % 4096 != 0
                || pa % 4096 != 0),
            r == Err::<(), MapError>(MapError::OutOfRange) <==> canonical(va) && va % 4096 == 0
                && pa % 4096 == 0 && pa >= old(pmm).frames().len() * FRAME_SIZE,
            r == Err::<(), MapError>(MapError::Conflict) <==> mappable(*old(pmm), va, pa) && old(self).translates(*old(pmm), va) is Some,
            r == Err::<(), MapError>(MapError::AllocFailed) <==> mappable(*old(pmm), va, pa) && old(self).translates(*old(pmm), va) is None && old(pmm).free_count() < page_tree::missing(
                old(pmm).ram_words(),
                old(self).root_frame(),
                page_of(va),
            ),
            r != Err::<(), MapError>(MapError::NotMapped),
            r matches Ok(_) ==> {
                &&& forall|n: int|
                    0 <= n < PAGES ==> #[trigger] final(self).leaf(*final(pmm), n) == (if n
                        == page_of(va) {
                        Some((0int, pa | flags.bits() | PTE_PRESENT))
                    } else {
                        old(self).leaf(*old(pmm), n)
                    })
                &&& flags.bits() & PTE_USER != 0 ==> page_tree::user_path(
                    final(pmm).ram_words(),
                    final(self).root_frame(),
                    page_of(va),
                )
                &&& mapped_from(
                    *old(pmm),
                    *final(pmm),
                    old(self).tables(),
                    final(self).tables(),
                    (pa / 4096) as FrameIndex,
                )
                &&& final(pmm).free_count() + page_tree::missing(
                    old(pmm).ram_words(),
                    old(self).root_frame(),
                    page_of(va),
                ) == old(pmm).free_count()
            },
            r is Err ==> {
                &&& forall|n: int|
                    0 <= n < PAGES ==> #[trigger] final(self).leaf(*final(pmm), n) == old(self).leaf(*old(pmm), n)
                &&& page_tree::grown(*old(pmm), *final(pmm), old(self).tables(), final(self).tables())
            },
            r is Err && !mappable(*old(pmm), va, pa) ==> *final(pmm) == *old(pmm) && *final(self)
                == *old(self),
            r == Err::<(), MapError>(MapError::Conflict) ==> {
                &&& final(self).tables() == old(self).tables()
                &&& final(pmm).pool() == old(pmm).pool()
            },
            r == Err::<(), MapError>(MapError::AllocFailed) ==> final(pmm).free_count() == 0,
            (va >> 47 == 0 || va >> 47 == 0x1ffff) && va % 4096 == 0 && pa % 4096 == 0 && pa
                < old(pmm).frames().len() * 4096 && old(self).leaf(*old(pmm), page_of(va)) is None
                && old(pmm).free_count() >= 3 ==> r is Ok,
            user_paths_kept(*old(self), *old(pmm), *final(self), *final(pmm)),
            opened_for(
                *old(self),
                *old(pmm),
                *final(self),
                *final(pmm),
                va,
                flags.bits() & PTE_USER,
            ),
    {
        let ghost nodes0 = self.nodes@;
        let ghost n = page_of(va);
        proof {
            law_canonical_is_sign_extension(va);
            pmm.lemma_wf();
            reveal(page_tree::tree_wf);
            reveal(page_tree::grown);
            page_tree::lemma_grown_refl(*pmm, nodes0);
            page_tree::lemma_opened_none(
                nodes0,
                pmm.ram_words(),
                pmm.ram_words(),
                n,
                flags.bits() & PTE_USER != 0,
            );
        }
        if !is_canonical(va) {
            return Err(MapError::NonCanonical);
        }
        if va % FRAME_SIZE != 0 || pa % FRAME_SIZE != 0 {
            return Err(MapError::NotAligned);
        }
        if pa >= total_frames(pmm) as u64 * FRAME_SIZE {
            return Err(MapError::OutOfRange);
        }
        let user = flags.bits() & PTE_USER;
        proof {
            use_type_invariant(&flags);
            lemma_masks(flags.bits);
        }
        let frame = match self.walk_down(pmm, va, user) {
            Err(e) => {
                proof {
                    lemma_paths_kept(*old(self), *old(pmm), *self, *pmm);
                }
                return Err(e);
            },
            Ok(frame) => frame,
        };
        let ghost mid = *pmm;
        let ghost nodes1 = self.nodes@;
        let ghost key = key_of(n, 0);
        let i = index(va, 0);
        proof {
            assert(page_tree::node_ok(nodes1, pmm.ram_words(), pmm.frames(), 0, key));
            page_tree::lemma_walk(self.root, nodes1, pmm.ram_words(), pmm.frames(), n);
            assert(self.leaf(*pmm, n) == old(self).leaf(*old(pmm), n));
        }
        let entry = pmm.read_word(frame, i);
        if entry & PTE_PRESENT != 0 {
            proof {
                lemma_paths_kept(*old(self), *old(pmm), *self, *pmm);
            }
            return Err(MapError::Conflict);
        }
        let page = pa | flags.bits() | PTE_PRESENT;
        self.write_entry(pmm, frame, i, page, Ghost(0), Ghost(key));
        let ghost late = *pmm;
        proof {
            lemma_page_entry(pa, flags.bits);
            lemma_page_set(self.root, nodes1, mid, late, n, page, user);
            page_tree::lemma_grown_trans(*old(pmm), mid, late, nodes0, nodes1, nodes1);
            page_tree::lemma_opened_none(
                nodes1,
                mid.ram_words(),
                late.ram_words(),
                n,
                user != 0,
            );
            page_tree::lemma_opened_trans(
                nodes0,
                nodes1,
                nodes1,
                old(pmm).ram_words(),
                mid.ram_words(),
                late.ram_words(),
                n,
                user != 0,
            );
        }
        let f = (pa / FRAME_SIZE) as FrameIndex;
        let _ = add_mapping(pmm, f);
        proof {
            lemma_counts_keep_tree(self.root, nodes1, late, *pmm, f);
            assert(mapped_between(*old(pmm), late, *pmm, nodes0, nodes1, f));
            assert(pmm.free_set() =~= late.free_set());
            assert forall|m: int| 0 <= m < PAGES implies #[trigger] self.leaf(*pmm, m) == (if m
                == n {
                Some((0int, page))
            } else {
                old(self).leaf(*old(pmm), m)
            }) by {
                assert(self.leaf(mid, m) == old(self).leaf(*old(pmm), m));
                assert(self.leaf(late, m) == page_tree::walk(late.ram_words(), self.root, m));
            }
            lemma_paths_kept(*old(self), *old(pmm), *self, *pmm);
        }
        Ok(())
    }

    /// Find the lowest table on the path of `va` without growing the tree.
    fn find_table(&self, pmm: &Pmm, va: u64) -> (r: Result<FrameIndex, MapError>)
        requires
            pmm.wf(),
            self.wf(*pmm),
        ensures
            r matches Err(e) ==> {
                ||| e == MapError::NotMapped && self.leaf(*pmm, page_of(va)) is None
                ||| e == MapError::Conflict && (self.leaf(*pmm, page_of(va)) matches Some(
                    (l, _),
                ) && l > 0)
            },
            r matches Ok(f) ==> {
                &&& page_tree::on_path(self.tables(), page_of(va), 0)
                &&& f == self.tables()[(0, key_of(page_of(va), 0))]
                &&& forall|l: int|
                    0 <= l <= 3 ==> #[trigger] page_tree::on_path(self.tables(), page_of(va), l)
            },
    {
        proof {
            reveal(page_tree::tree_wf);
        }
        let ghost n = page_of(va);
        let ghost nodes = self.nodes@;
        let mut frame = self.root;
        let mut level: usize = 3;
        proof {
            assert(key_of(n, 3) == 0);
            page_tree::lemma_walk(self.root, nodes, pmm.ram_words(), pmm.frames(), n);
        }
        while level >= 1
            invariant
                level <= 3,
                n == page_of(va),
                nodes == self.tables(),
                pmm.wf(),
                self.wf(*pmm),
                frame == nodes[(level as int, key_of(n, level as int))],
                forall|l: int| level <= l <= 3 ==> #[trigger] page_tree::on_path(nodes, n, l),
            decreases level,
        {
            let ghost l = level as int;
            proof {
                reveal(page_tree::tree_wf);
                page_tree::lemma_walk(self.root, nodes, pmm.ram_words(), pmm.frames(), n);
                assert(page_tree::on_path(nodes, n, l));
                assert(page_tree::node_ok(nodes, pmm.ram_words(), pmm.frames(), l, key_of(n, l)));
                lemma_key_below(n, l);
                if page_tree::on_path(nodes, n, l - 1) {
                    assert(page_tree::node_ok(
                        nodes,
                        pmm.ram_words(),
                        pmm.frames(),
                        l - 1,
                        key_of(n, l - 1),
                    ));
                } else {
                    lemma_path_closed(self.root, nodes, pmm.ram_words(), pmm.frames(), n, l - 1);
                    assert(!page_tree::on_path(nodes, n, 0));
                    assert(l > 1 ==> !page_tree::on_path(nodes, n, 1));
                    assert(l > 2 ==> !page_tree::on_path(nodes, n, 2));
                    assert(page_tree::depth(nodes, n) == l);
                }
            }
            let i = index(va, level);
            proof {
                assert(page_tree::slot_ok(
                    nodes,
                    pmm.ram_words(),
                    pmm.frames(),
                    l,
                    key_of(n, l),
                    i as int,
                ));
            }
            let entry = pmm.read_word(frame, i);
            if entry & PTE_PRESENT == 0 {
                return Err(MapError::NotMapped);
            }
            if entry & PTE_HUGE != 0 {
                return Err(MapError::Conflict);
            }
            frame = phys_of(entry);
            level = level - 1;
        }
        Ok(frame)
    }

    /// Remove the 4 KiB mapping at `va` and drop the physical frame's
    /// reference count. The caller invalidates the TLB entry before the
    /// address is used again.
    #[verifier::rlimit(40)]
    pub fn unmap(&mut self, pmm: &mut Pmm, va: u64) -> (r: Result<(), MapError>)
        requires
            old(pmm).wf(),
            old(self).wf(*old(pmm)),
            old(self).maps_page(*old(pmm), page_of(va)) ==> old(pmm).frames()[old(self).mapped_frame(*old(pmm), page_of(va)) as int].mappings() > 0,
        ensures
            final(pmm).wf(),
            final(self).wf(*final(pmm)),
            final(self).root_frame() == old(self).root_frame(),
            final(self).tables() == old(self).tables(),
            r == Err::<(), MapError>(MapError::NonCanonical) <==> !canonical(va),
            r == Err::<(), MapError>(MapError::NotAligned) <==> canonical(va) && va % 4096 != 0,
            r == Err::<(), MapError>(MapError::NotMapped) <==> canonical(va) && va % 4096 == 0
                && old(self).leaf(*old(pmm), page_of(va)) is None,
            r == Err::<(), MapError>(MapError::Conflict) <==> canonical(va) && va % 4096 == 0 && (
            old(self).leaf(*old(pmm), page_of(va)) matches Some((l, _)) && l > 0),
            r is Ok <==> canonical(va) && va % 4096 == 0 && old(self).maps_page(
                *old(pmm),
                page_of(va),
            ),
            (va >> 47 == 0 || va >> 47 == 0x1ffff) && va as int % 4096 == 0 && (old(self).leaf(
                *old(pmm),
                page_of(va),
            ) matches Some((l, _)) && l == 0) <==> r is Ok,
            r is Err ==> *final(pmm) == *old(pmm),
            r is Ok ==> {
                &&& forall|n: int|
                    0 <= n < PAGES ==> #[trigger] final(self).leaf(*final(pmm), n) == (if n
                        == page_of(va) {
                        None
                    } else {
                        old(self).leaf(*old(pmm), n)
                    })
                &&& unmapped_from(
                    *old(pmm),
                    *final(pmm),
                    old(self).tables(),
                    old(self).mapped_frame(*old(pmm), page_of(va)),
                )
            },
            user_paths_kept(*old(self), *old(pmm), *final(self), *final(pmm)),
            opened_for(*old(self), *old(pmm), *final(self), *final(pmm), va, 0),
    {
        let ghost nodes = self.nodes@;
        let ghost n = page_of(va);
        proof {
            law_canonical_is_sign_extension(va);
            pmm.lemma_wf();
            reveal(page_tree::tree_wf);
            reveal(page_tree::grown);
            page_tree::lemma_opened_none(nodes, pmm.ram_words(), pmm.ram_words(), n, false);
        }
        if !is_canonical(va) {
            return Err(MapError::NonCanonical);
        }
        if va % FRAME_SIZE != 0 {
            return Err(MapError::NotAligned);
        }
        let frame = match self.find_table(pmm, va) {
            Err(e) => {
                return Err(e);
            },
            Ok(frame) => frame,
        };
        let ghost key = key_of(n, 0);
        let i = index(va, 0);
        proof {
            assert(page_tree::node_ok(nodes, pmm.ram_words(), pmm.frames(), 0, key));
            page_tree::lemma_walk(self.root, nodes, pmm.ram_words(), pmm.frames(), n);
            assert(page_tree::slot_ok(nodes, pmm.ram_words(), pmm.frames(), 0, key, i as int));
        }
        let entry = pmm.read_word(frame, i);
        if entry & PTE_PRESENT == 0 {
            return Err(MapError::NotMapped);
        }
        let pa = entry & ADDR_MASK_4K;
        self.write_entry(pmm, frame, i, 0, Ghost(0), Ghost(key));
        let ghost mid = *pmm;
        proof {
            lemma_masks(0);
            lemma_page_set(self.root, nodes, *old(pmm), mid, n, 0, 0);
        }
        let f = (pa / FRAME_SIZE) as FrameIndex;
        let left = remove_mapping(pmm, f);
        proof {
            lemma_drain_keeps_tree(
                self.root,
                nodes,
                mid,
                *pmm,
                f,
                mid.frames()[f as int].with_mappings(left),
            );
            assert(unmapped_between(*old(pmm), mid, *pmm, nodes, f));
            assert forall|m: int| 0 <= m < PAGES implies #[trigger] self.leaf(*pmm, m) == (if m
                == n {
                None
            } else {
                old(self).leaf(*old(pmm), m)
            }) by {
                assert(page_tree::walk(pmm.ram_words(), self.root, m) == page_tree::walk(
                    mid.ram_words(),
                    self.root,
                    m,
                ));
            }
            page_tree::lemma_user_bits_kept_trans(
                nodes,
                nodes,
                old(pmm).ram_words(),
                mid.ram_words(),
                pmm.ram_words(),
            );
            page_tree::lemma_opened_none(nodes, old(pmm).ram_words(), mid.ram_words(), n, false);
            page_tree::lemma_opened_trans(
                nodes,
                nodes,
                nodes,
                old(pmm).ram_words(),
                mid.ram_words(),
                pmm.ram_words(),
                n,
                false,
            );
            lemma_paths_kept(*old(self), *old(pmm), *self, *pmm);
        }
        Ok(())
    }

    /// Software walk: physical address backing `va`, or `None`.
    #[verifier::rlimit(40)]
    pub fn translate(&self, pmm: &Pmm, va: u64) -> (r: Option<u64>)
        requires
            pmm.wf(),
            self.wf(*pmm),
        ensures
            r is None <==> self.translates(*pmm, va) is None,
            r matches Some(pa) ==> self.translates(*pmm, va) == Some(pa as int),
    {
        proof {
            reveal(page_tree::tree_wf);
        }
        if !is_canonical(va) {
            return None;
        }
        let ghost n = page_of(va);
        let ghost nodes = self.nodes@;
        let ghost ram = pmm.ram_words();
        proof {
            lemma_va_bits(va);
            page_tree::lemma_walk(self.root, nodes, ram, pmm.frames(), n);
            lemma_root_key(n);
            assert(page_tree::node_ok(nodes, ram, pmm.frames(), 3, 0));
            if page_tree::on_path(nodes, n, 2) {
                assert(page_tree::node_ok(nodes, ram, pmm.frames(), 2, key_of(n, 2)));
            }
            if page_tree::on_path(nodes, n, 1) {
                assert(page_tree::node_ok(nodes, ram, pmm.frames(), 1, key_of(n, 1)));
            }
            if page_tree::on_path(nodes, n, 0) {
                assert(page_tree::node_ok(nodes, ram, pmm.frames(), 0, key_of(n, 0)));
            }
            lemma_key_below(n, 3);
            lemma_key_below(n, 2);
            lemma_key_below(n, 1);
            assert(page_tree::slot_ok(nodes, ram, pmm.frames(), 3, 0, index_of(n, 3)));
        }
        let mut table = self.root;
        let e0 = pmm.read_word(table, index(va, 3));
        if e0 & PTE_PRESENT == 0 {
            return None;
        }
        table = phys_of(e0);
        proof {
            assert(page_tree::slot_ok(nodes, ram, pmm.frames(), 2, key_of(n, 2), index_of(n, 2)));
        }
        let e1 = pmm.read_word(table, index(va, 2));
        proof {
            lemma_masks(e1);
        }
        if e1 & PTE_PRESENT == 0 {
            return None;
        }
        if e1 & PTE_HUGE != 0 {
            return Some((e1 & ADDR_MASK_1G) + (va & 0x3fff_ffff));
        }
        table = phys_of(e1);
        proof {
            assert(page_tree::slot_ok(nodes, ram, pmm.frames(), 1, key_of(n, 1), index_of(n, 1)));
        }
        let e2 = pmm.read_word(table, index(va, 1));
        proof {
            lemma_masks(e2);
        }
        if e2 & PTE_PRESENT == 0 {
            return None;
        }
        if e2 & PTE_HUGE != 0 {
            return Some((e2 & ADDR_MASK_2M) + (va & 0x1f_ffff));
        }
        table = phys_of(e2);
        let e3 = pmm.read_word(table, index(va, 0));
        proof {
            lemma_masks(e3);
        }
        if e3 & PTE_PRESENT == 0 {
            return None;
        }
        Some((e3 & ADDR_MASK_4K) + (va & 0xfff))
    }

    /// Map a run of 2 MiB huge pages from `[base_pa, base_pa + bytes)` at
    /// `[base_va, base_va + bytes)`. `bytes` must be a multiple of
    /// [`LARGE_PAGE`]. These are uncounted window mappings.
    #[verifier::rlimit(40)]
    #[verifier::spinoff_prover]
    fn map_window(
        &mut self,
        pmm: &mut Pmm,
        base_va: u64,
        base_pa: u64,
        bytes: u64,
        flags: Flags,
    ) -> (r: Result<(), MapError>)
        requires
            old(pmm).wf(),
            old(self).wf(*old(pmm)),
            base_va + bytes <= u64::MAX,
            base_pa + bytes <= u64::MAX,
        ensures
            final(pmm).wf(),
            final(self).wf(*final(pmm)),
            final(self).root_frame() == old(self).root_frame(),
            page_tree::grown(*old(pmm), *final(pmm), old(self).tables(), final(self).tables()),
            r == Err::<(), MapError>(MapError::NotAligned) <==> bytes != 0 && (base_va % LARGE_PAGE
                != 0 || base_pa % LARGE_PAGE != 0 || bytes % LARGE_PAGE != 0),
            r matches Err(e) ==> {
                ||| e == MapError::NotAligned
                ||| e == MapError::Conflict && (bytes > VA_SPAN || exists|n: int|
                    0 <= n < PAGES && in_window(n, base_va, bytes as int) && #[trigger] occupied(
                        *old(self),
                        *old(pmm),
                        n,
                    ))
                ||| e == MapError::AllocFailed && final(pmm).free_count() == 0 && exists|
                    a: (int, int),
                |
                    window_tables(base_va, bytes as int).contains(a) && !(#[trigger] final(self).tables().contains_key(a))
            },
            final(self).tables().dom().subset_of(
                old(self).tables().dom() + window_tables(base_va, bytes as int),
            ),
            r matches Err(e) ==> exists|done: int| #[trigger]
                window_mapped(
                    *old(self),
                    *old(pmm),
                    *final(self),
                    *final(pmm),
                    base_va,
                    base_pa,
                    flags.bits(),
                    done,
                ) && window_stops(*old(self), *old(pmm), *final(self), base_va, bytes, done, e),
            r is Ok ==> {
                &&& bytes <= VA_SPAN
                &&& final(self).tables().dom() == old(self).tables().dom() + window_tables(
                    base_va,
                    bytes as int,
                )
                &&& forall|n: int|
                    0 <= n < PAGES && in_window(n, base_va, bytes as int) ==> !#[trigger] occupied(
                        *old(self),
                        *old(pmm),
                        n,
                    )
                &&& forall|n: int|
                    0 <= n < PAGES ==> #[trigger] final(self).leaf(*final(pmm), n) == (if in_window(
                        n,
                        base_va,
                        bytes as int,
                    ) {
                        Some((1int, window_entry(n, base_va, base_pa, flags.bits())))
                    } else {
                        old(self).leaf(*old(pmm), n)
                    })
            },
    {
        let ghost nodes0 = self.nodes@;
        proof {
            assert(forall|n: int| !#[trigger] in_window(n, base_va, 0)) by {
                reveal(window_offset);
            }
            assert(nodes0.dom().finite()) by {
                reveal(page_tree::tree_wf);
            }
            page_tree::lemma_grown_refl(*pmm, nodes0);
            assert(window_tables(base_va, 0) =~= Set::empty()) by {
                reveal(window_tables);
            }
            assert(nodes0.dom() + window_tables(base_va, 0) =~= nodes0.dom());
        }
        if bytes == 0 {
            return Ok(());
        }
        if base_va % LARGE_PAGE != 0 || base_pa % LARGE_PAGE != 0 || bytes % LARGE_PAGE != 0 {
            assert(window_mapped(
                *old(self),
                *old(pmm),
                *self,
                *pmm,
                base_va,
                base_pa,
                flags.bits(),
                0,
            ));
            return Err(MapError::NotAligned);
        }
        let leaf = flags.with(Flags::present()).with(Flags::huge());
        proof {
            use_type_invariant(&flags);
            lemma_or_keeps_bits(0, flags.bits);
        }
        let mut va = base_va;
        let mut pa = base_pa;
        let end = base_va + bytes;
        while va < end
            invariant
                nodes0 == old(self).tables(),
                old(pmm).wf(),
                old(self).wf(*old(pmm)),
                base_va + bytes == end,
                base_pa + bytes <= u64::MAX,
                base_va % LARGE_PAGE == 0,
                base_pa % LARGE_PAGE == 0,
                bytes % LARGE_PAGE == 0,
                base_va <= va <= end,
                va % LARGE_PAGE == 0,
                pa - base_pa == va - base_va,
                va - base_va <= VA_SPAN,
                flags.valid(),
                leaf.bits() == (flags.bits() | PTE_PRESENT) | PTE_HUGE,
                leaf.bits() & PTE_PRESENT != 0,
                leaf.bits() & PTE_HUGE != 0,
                pmm.wf(),
                self.wf(*pmm),
                self.root == old(self).root,
                page_tree::grown(*old(pmm), *pmm, nodes0, self.tables()),
                self.tables().dom() == nodes0.dom() + window_tables(base_va, va - base_va),
                forall|n: int|
                    0 <= n < PAGES && in_window(n, base_va, va - base_va) ==> !#[trigger] occupied(
                        *old(self),
                        *old(pmm),
                        n,
                    ),
                forall|n: int|
                    0 <= n < PAGES ==> #[trigger] self.leaf(*pmm, n) == (if in_window(
                        n,
                        base_va,
                        va - base_va,
                    ) {
                        Some((1int, window_entry(n, base_va, base_pa, flags.bits())))
                    } else {
                        old(self).leaf(*old(pmm), n)
                    }),
            decreases end - va,
        {
            let ghost n0 = page_of(va);
            let ghost done = va - base_va;
            let ghost start = *pmm;
            let ghost nodes1 = self.nodes@;
            proof {
                lemma_window_here(base_va, va);
                assert(self.leaf(start, n0) is Some <==> (done == VA_SPAN || old(self).leaf(
                    *old(pmm),
                    n0,
                ) is Some));
                lemma_no_page_tables(base_va, done);
                assert(forall|k: int| #[trigger]
                    self.tables().dom().contains((0, k)) <==> nodes0.dom().contains((0, k)));
                assert(occupied(*self, start, n0) <==> done == VA_SPAN || occupied(
                    *old(self),
                    *old(pmm),
                    n0,
                ));
                if done < VA_SPAN {
                    lemma_window_tables_step(base_va, va);
                    lemma_window_tables_mono(base_va, done + LARGE_PAGE, bytes as int);
                }
                lemma_window_tables_mono(base_va, done, bytes as int);
            }
            let ghost self1 = *self;
            let r = self.map_large(pmm, va, pa, leaf);
            proof {
                page_tree::lemma_grown_trans(*old(pmm), start, *pmm, nodes0, nodes1, self.nodes@);
            }
            match r {
                Err(e) => {
                    proof {
                        if e == MapError::AllocFailed {
                            assert(window_tables(base_va, bytes as int).contains(
                                (1, key_of(n0, 1)),
                            ));
                            assert(!self.tables().contains_key((1, key_of(n0, 1))));
                        }
                        assert forall|n: int| 0 <= n < PAGES implies #[trigger] self.leaf(*pmm, n)
                            == (if in_window(n, base_va, done) {
                            Some((1int, window_entry(n, base_va, base_pa, flags.bits())))
                        } else {
                            old(self).leaf(*old(pmm), n)
                        }) by {
                            assert(self1.leaf(start, n) == self1.leaf(start, n));
                        }
                        assert(window_mapped(
                            *old(self),
                            *old(pmm),
                            *self,
                            *pmm,
                            base_va,
                            base_pa,
                            flags.bits(),
                            done,
                        ));
                    }
                    return Err(e);
                },
                Ok(()) => {},
            }
            proof {
                assert(self.tables().dom() =~= nodes0.dom() + window_tables(
                    base_va,
                    done + LARGE_PAGE,
                ));
                assert forall|n: int| 0 <= n < PAGES implies #[trigger] self.leaf(*pmm, n) == (
                if in_window(n, base_va, done + LARGE_PAGE) {
                    Some((1int, window_entry(n, base_va, base_pa, flags.bits())))
                } else {
                    old(self).leaf(*old(pmm), n)
                }) by {
                    lemma_window_step(base_va, va, n);
                    assert(self1.leaf(start, n) == page_tree::walk(start.ram_words(), self.root, n));
                }
                assert forall|n: int|
                    0 <= n < PAGES && in_window(n, base_va, done + LARGE_PAGE) implies !(
                #[trigger] occupied(*old(self), *old(pmm), n)) by {
                    lemma_window_step(base_va, va, n);
                    assert(self1.leaf(start, n) == page_tree::walk(start.ram_words(), self.root, n));
                    if !in_window(n, base_va, done) {
                        assert(n / 512 == n0 / 512);
                        assert(!nodes0.dom().contains((0, n0 / 512)));
                    }
                }
                assert(va + LARGE_PAGE <= end);
            }
            va = va + LARGE_PAGE;
            pa = pa + LARGE_PAGE;
        }
        Ok(())
    }

    /// Map the 2 MiB page at `va` -> `pa`.
    #[verifier::rlimit(40)]
    fn map_large(&mut self, pmm: &mut Pmm, va: u64, pa: u64, leaf: Flags) -> (r: Result<
        (),
        MapError,
    >)
        requires
            old(pmm).wf(),
            old(self).wf(*old(pmm)),
            leaf.bits() & PTE_PRESENT != 0,
            leaf.bits() & PTE_HUGE != 0,
        ensures
            final(pmm).wf(),
            final(self).wf(*final(pmm)),
            final(self).root_frame() == old(self).root_frame(),
            page_tree::grown(*old(pmm), *final(pmm), old(self).tables(), final(self).tables()),
            r matches Err(e) ==> {
                ||| e == MapError::Conflict && occupied(*old(self), *old(pmm), page_of(va))
                ||| e == MapError::AllocFailed && !occupied(*old(self), *old(pmm), page_of(va))
                    && final(pmm).free_count() == 0 && !(final(self).tables().contains_key(
                    (1, key_of(page_of(va), 1)),
                ))
            },
            r is Err ==> forall|m: int|
                0 <= m < PAGES ==> #[trigger] final(self).leaf(*final(pmm), m) == old(self).leaf(
                    *old(pmm),
                    m,
                ),
            occupied(*old(self), *old(pmm), page_of(va)) ==> final(self).tables() == old(
                self).tables(),
            final(self).tables().dom().subset_of(
                old(self).tables().dom().insert((2, key_of(page_of(va), 2))).insert(
                    (1, key_of(page_of(va), 1)),
                ),
            ),
            r is Ok ==> {
                let n = page_of(va);
                &&& final(self).tables().dom() == old(self).tables().dom().insert(
                    (2, key_of(n, 2)),
                ).insert((1, key_of(n, 1)))
                &&& !occupied(*old(self), *old(pmm), n)
                &&& forall|m: int|
                    0 <= m < PAGES && m / 512 == n / 512 ==> (#[trigger] page_tree::walk(
                        old(pmm).ram_words(),
                        old(self).root_frame(),
                        m,
                    )) is None
                &&& forall|m: int|
                    0 <= m < PAGES ==> #[trigger] final(self).leaf(*final(pmm), m) == (if m / 512
                        == n / 512 {
                        Some((1int, pa | leaf.bits()))
                    } else {
                        old(self).leaf(*old(pmm), m)
                    })
            },
    {
        let ghost n = page_of(va);
        let ghost start = *pmm;
        let ghost nodes1 = self.nodes@;
        let frame = match self.large_page_table(pmm, va) {
            Err(e) => {
                return Err(e);
            },
            Ok(frame) => frame,
        };
        let ghost mid = *pmm;
        let ghost nodes2 = self.nodes@;
        let ghost key = key_of(n, 1);
        let i = index(va, 1);
        proof {
            page_tree::lemma_walk(self.root, nodes2, pmm.ram_words(), pmm.frames(), n);
            page_tree::lemma_node(
                self.root,
                nodes2,
                pmm.ram_words(),
                pmm.frames(),
                1,
                key,
                i as int,
            );
            lemma_key_below(n, 1);
            assert(self.leaf(mid, n) == page_tree::walk(start.ram_words(), self.root, n));
            assert(nodes2.dom().contains((0, n / 512)) <==> nodes1.dom().contains((0, n / 512)));
            if page_tree::on_path(nodes2, n, 0) {
                page_tree::lemma_node(
                    self.root,
                    nodes2,
                    pmm.ram_words(),
                    pmm.frames(),
                    0,
                    key_of(n, 0),
                    0,
                );
            }
        }
        let entry = pmm.read_word(frame, i);
        if entry & PTE_PRESENT != 0 {
            return Err(MapError::Conflict);
        }
        let page = pa | leaf.bits();
        self.write_entry(pmm, frame, i, page, Ghost(1), Ghost(key));
        proof {
            lemma_or_keeps_bits(pa, leaf.bits);
            lemma_large_page_set(self.root, nodes2, mid, *pmm, n, page);
            page_tree::lemma_grown_trans(start, mid, *pmm, nodes1, nodes2, nodes2);
            assert forall|m: int| 0 <= m < PAGES && m / 512 == n / 512 implies (
            #[trigger] page_tree::walk(start.ram_words(), self.root, m)) is None by {
                lemma_same_large_page(self.root, nodes2, mid, m, n);
                assert(page_tree::walk(mid.ram_words(), self.root, m) == page_tree::walk(
                    start.ram_words(),
                    self.root,
                    m,
                ));
            }
            assert forall|m: int| 0 <= m < PAGES implies #[trigger] self.leaf(*pmm, m) == (if m / 512
                == n / 512 {
                Some((1int, page))
            } else {
                old(self).leaf(*old(pmm), m)
            }) by {
                assert(page_tree::walk(mid.ram_words(), self.root, m) == page_tree::walk(
                    start.ram_words(),
                    self.root,
                    m,
                ));
            }
        }
        Ok(())
    }

    /// Walk to the table of 2 MiB pages on the path of `va`, growing the tree
    /// where one is missing.
    #[verifier::rlimit(40)]
    fn large_page_table(&mut self, pmm: &mut Pmm, va: u64) -> (r: Result<FrameIndex, MapError>)
        requires
            old(pmm).wf(),
            old(self).wf(*old(pmm)),
        ensures
            final(pmm).wf(),
            final(self).wf(*final(pmm)),
            final(self).root_frame() == old(self).root_frame(),
            page_tree::grown(*old(pmm), *final(pmm), old(self).tables(), final(self).tables()),
            forall|n: int|
                0 <= n < PAGES ==> #[trigger] page_tree::walk(
                    final(pmm).ram_words(),
                    final(self).root_frame(),
                    n,
                ) == page_tree::walk(old(pmm).ram_words(), old(self).root_frame(), n),
            r matches Err(e) ==> {
                ||| e == MapError::Conflict && old(self).leaf(*old(pmm), page_of(va)) is Some
                ||| e == MapError::AllocFailed && !occupied(*old(self), *old(pmm), page_of(va))
                    && final(pmm).free_count() == 0 && !(page_tree::on_path(
                    final(self).tables(),
                    page_of(va),
                    1,
                ))
            },
            r is Err ==> final(self).tables().dom().subset_of(
                old(self).tables().dom().insert((2, key_of(page_of(va), 2))),
            ),
            occupied(*old(self), *old(pmm), page_of(va)) ==> final(self).tables() == old(
                self).tables(),
            r matches Ok(f) ==> {
                let n = page_of(va);
                &&& page_tree::on_path(final(self).tables(), n, 1)
                &&& f == final(self).tables()[(1, key_of(n, 1))]
                &&& final(self).tables().dom() == old(self).tables().dom().insert(
                    (2, key_of(n, 2)),
                ).insert((1, key_of(n, 1)))
            },
    {
        let ghost n = page_of(va);
        let ghost nodes0 = self.nodes@;
        proof {
            assert(key_of(n, 3) == 0);
            reveal(page_tree::tree_wf);
            reveal(page_tree::grown);
            page_tree::lemma_walk(self.root, nodes0, pmm.ram_words(), pmm.frames(), n);
            page_tree::lemma_grown_refl(*pmm, nodes0);
            lemma_key_below(n, 3);
            lemma_key_below(n, 2);
            assert(page_tree::slot_ok(nodes0, pmm.ram_words(), pmm.frames(), 3, 0, index_of(n, 3)));
        }
        let upper = match self.descend(pmm, va, 3, self.root, 0) {
            Err(e) => {
                return Err(e);
            },
            Ok(f) => f,
        };
        let ghost p1 = *pmm;
        let ghost nodes1 = self.nodes@;
        proof {
            page_tree::lemma_walk(self.root, nodes1, p1.ram_words(), p1.frames(), n);
            assert(self.leaf(p1, n) == old(self).leaf(*old(pmm), n));
            assert(page_tree::slot_ok(
                nodes1,
                p1.ram_words(),
                p1.frames(),
                2,
                key_of(n, 2),
                index_of(n, 2),
            ));
            if page_tree::on_path(nodes1, n, 1) {
                assert(page_tree::node_ok(nodes1, p1.ram_words(), p1.frames(), 1, key_of(n, 1)));
            }
            assert(nodes1.dom() =~= nodes0.dom().insert((2, key_of(n, 2))));
            assert forall|m: int| 0 <= m < PAGES implies #[trigger] page_tree::walk(
                p1.ram_words(),
                self.root,
                m,
            ) == page_tree::walk(old(pmm).ram_words(), self.root, m) by {
                assert(self.leaf(p1, m) == old(self).leaf(*old(pmm), m));
            }
        }
        let r = self.descend(pmm, va, 2, upper, 0);
        proof {
            page_tree::lemma_grown_trans(*old(pmm), p1, *pmm, nodes0, nodes1, self.nodes@);
            assert forall|m: int| 0 <= m < PAGES implies #[trigger] page_tree::walk(
                pmm.ram_words(),
                self.root,
                m,
            ) == page_tree::walk(old(pmm).ram_words(), self.root, m) by {
                assert(self.leaf(*pmm, m) == page_tree::walk(p1.ram_words(), self.root, m));
            }
            if r is Ok {
                assert(self.nodes@.dom() =~= nodes1.dom().insert((1, key_of(n, 1))));
            }
        }
        r
    }

    /// Build the kernel address space: identity-map all of RAM and mirror it
    /// at the physmap base, both as 2 MiB huge pages (uncounted window
    /// mappings: these cover the whole of physical memory, not individual
    /// frames).
    #[verifier::rlimit(40)]
    pub fn new_kernel(pmm: &mut Pmm, ram_end: u64) -> (r: Option<PageTable>)
        requires
            old(pmm).wf(),
            old(pmm).physmap_at() != 0,
            old(pmm).physmap_at() + math::rounded_up(ram_end as int, LARGE_PAGE as int) <= u64::MAX,
        ensures
            final(pmm).wf(),
            ({
                let window = math::rounded_up(ram_end as int, LARGE_PAGE as int);
                let base = old(pmm).physmap_at();
                &&& r is Some <==> {
                    &&& windows_fit(base, window)
                    &&& old(pmm).free_count() >= 1 + kernel_tables(base, window).len()
                }
                &&& r matches Some(pt) ==> {
                    &&& pt.wf(*final(pmm))
                    &&& page_tree::grown(*old(pmm), *final(pmm), Map::empty(), pt.tables())
                    &&& forall|n: int|
                        0 <= n < PAGES ==> #[trigger] pt.leaf(*final(pmm), n) == kernel_leaf(
                            n,
                            base,
                            window,
                        )
                }
                &&& r is None ==> exists|tables: Nodes| #[trigger]
                    page_tree::grown(*old(pmm), *final(pmm), Map::empty(), tables) && (
                    final(pmm).free_count() == 0 || !windows_fit(base, window) && windows_stop(
                        base,
                        window,
                        tables.dom(),
                    ))
            }),
    {
        let ghost none = Map::<(int, int), FrameIndex>::empty();
        proof {
            math::law_rounded_up(ram_end as int, LARGE_PAGE as int);
            page_tree::lemma_grown_refl(*pmm, none);
        }
        let window = align_up(ram_end, LARGE_PAGE);
        let base = physmap_base(&pmm.physmap);
        let mut pt = match PageTable::new(pmm) {
            None => {
                return None;
            },
            Some(pt) => pt,
        };
        let ghost p1 = *pmm;
        let ghost pt1 = pt;
        let ghost nodes1 = pt.nodes@;
        let ghost all = kernel_tables(base, window as int);
        proof {
            lemma_kernel_tables_finite(base, window as int);
            assert(nodes1.dom() =~= Set::<(int, int)>::empty().insert((3, 0)));
            assert(all.insert((3, 0)).len() == all.len() + 1);
        }
        let kern = Flags::present().with(Flags::writable());
        match pt.map_window(pmm, 0, 0, window, kern) {
            Err(e) => {
                proof {
                    page_tree::lemma_grown_trans(*old(pmm), p1, *pmm, none, nodes1, pt.nodes@);
                    if e == MapError::AllocFailed {
                        lemma_out_of_frames(*old(pmm), *pmm, pt.nodes@, all);
                    } else {
                        lemma_first_window_stops(pt1, p1, pt, *pmm, base, window, e);
                    }
                }
                return None;
            },
            Ok(()) => {},
        }
        let ghost p2 = *pmm;
        let ghost pt2 = pt;
        let ghost nodes2 = pt.nodes@;
        proof {
            page_tree::lemma_grown_trans(*old(pmm), p1, p2, none, nodes1, nodes2);
        }
        match pt.map_window(pmm, base, 0, window, kern) {
            Err(e) => {
                proof {
                    page_tree::lemma_grown_trans(*old(pmm), p2, *pmm, none, nodes2, pt.nodes@);
                    if e == MapError::AllocFailed {
                        lemma_out_of_frames(*old(pmm), *pmm, pt.nodes@, all);
                    }
                    lemma_no_page_tables(0, window as int);
                    if e == MapError::Conflict {
                        let n = choose|n: int|
                            0 <= n < PAGES && in_window(n, base, window as int)
                                && #[trigger] occupied(pt2, p2, n);
                        assert(!nodes2.dom().contains((0, n / 512)));
                        assert(pt1.leaf(p1, n) is None);
                        assert(in_window(n, 0, window as int));
                    }
                    if e != MapError::AllocFailed {
                        lemma_second_window_stops(pt1, p1, pt2, p2, pt, *pmm, base, window, e);
                    }
                }
                return None;
            },
            Ok(()) => {},
        }
        proof {
            page_tree::lemma_grown_trans(*old(pmm), p2, *pmm, none, nodes2, pt.nodes@);
            assert(pt.nodes@.dom() =~= all.insert((3, 0)));
            assert(old(pmm).free_count() >= 1 + all.len()) by {
                reveal(page_tree::grown);
                assert(none.dom().len() == 0);
            }
            lemma_window_flags();
            assert forall|n: int|
                0 <= n < PAGES && in_window(n, base, window as int) implies !#[trigger] in_window(
                n,
                0,
                window as int,
            ) by {
                assert(!occupied(pt2, p2, n));
                assert(pt2.leaf(p2, n) is None);
            }
            assert forall|n: int| 0 <= n < PAGES implies #[trigger] pt.leaf(*pmm, n)
                == kernel_leaf(n, base, window as int) by {
                assert(pt2.leaf(p2, n) == pt2.leaf(p2, n));
                assert(pt1.leaf(p1, n) is None);
                if in_window(n, base, window as int) {
                    assert(!in_window(n, 0, window as int));
                }
            }
        }
        Some(pt)
    }
}

/// True if the 2 MiB page around page `n` cannot be mapped: a page is mapped
/// at `n`, or a table of 4 KiB pages is in its place.
pub open spec fn occupied(pt: PageTable, pmm: Pmm, n: int) -> bool {
    pt.leaf(pmm, n) is Some || pt.tables().dom().contains((0, n / 512))
}

/// A window needs no tables of 4 KiB pages, nor the root.
proof fn lemma_no_page_tables(base: u64, bytes: int)
    ensures
        forall|k: int| !#[trigger] window_tables(base, bytes).contains((0, k)),
        forall|k: int| !#[trigger] window_tables(base, bytes).contains((3, k)),
{
    reveal(window_tables);
}

/// Offset of page `n` from virtual address `base`, in an address space that
/// wraps around.
#[verifier::opaque]
pub open spec fn window_offset(n: int, base: u64) -> int {
    (n * 4096 - base) % VA_SPAN as int
}

/// True if page `n` lies in the `bytes` bytes from virtual address `base` on.
pub open spec fn in_window(n: int, base: u64, bytes: int) -> bool {
    window_offset(n, base) < bytes
}

/// The entry for the 2 MiB page around page `n` in the window that maps
/// virtual address `base` to `base_pa`.
pub open spec fn window_entry(n: int, base: u64, base_pa: u64, flags: u64) -> u64 {
    ((base_pa + math::rounded_down(window_offset(n, base), LARGE_PAGE as int)) as u64) | ((flags
        | PTE_PRESENT) | PTE_HUGE)
}

/// The tables below the root that the window needs.
#[verifier::opaque]
pub open spec fn window_tables(base: u64, bytes: int) -> Set<(int, int)> {
    Set::new(
        |a: (int, int)|
            1 <= a.0 <= 2 && exists|n: int|
                0 <= n < PAGES && in_window(n, base, bytes) && #[trigger] key_of(n, a.0) == a.1,
    )
}

/// The identity window and the physmap window can both be mapped.
pub open spec fn windows_fit(base: u64, window: int) -> bool {
    &&& window > 0 ==> base % LARGE_PAGE == 0
    &&& window <= VA_SPAN
    &&& forall|n: int|
        0 <= n < PAGES && in_window(n, base, window) ==> !#[trigger] in_window(n, 0, window)
}

/// With enough frames the two windows take `tables`, and then meet what they
/// cannot map: the physmap window at its start if it is not aligned or the
/// windows are too large, else at the first large page that the identity
/// window has mapped.
pub open spec fn windows_stop(base: u64, window: int, tables: Set<(int, int)>) -> bool {
    exists|done: int| #[trigger]
        stops_at(base, window, done) && tables == window_tables(0, window).insert((3, 0))
            + window_tables(base, done)
}

/// The physmap window stops behind its first `done` bytes.
pub open spec fn stops_at(base: u64, window: int, done: int) -> bool {
    if window > VA_SPAN || base % LARGE_PAGE != 0 {
        done == 0
    } else {
        &&& 0 <= done < window
        &&& done % LARGE_PAGE as int == 0
        &&& in_window(page_of((base + done) as u64), 0, window)
        &&& forall|n: int|
            0 <= n < PAGES && in_window(n, base, done) ==> !#[trigger] in_window(n, 0, window)
    }
}

/// The tables below the root that the two windows need.
pub open spec fn kernel_tables(base: u64, window: int) -> Set<(int, int)> {
    window_tables(0, window) + window_tables(base, window)
}

/// What the kernel address space maps page `n` to.
pub open spec fn kernel_leaf(n: int, base: u64, window: int) -> Option<(int, u64)> {
    if in_window(n, 0, window) {
        Some((1, window_entry(n, 0, 0, PTE_PRESENT | PTE_WRITABLE)))
    } else if in_window(n, base, window) {
        Some((1, window_entry(n, base, 0, PTE_PRESENT | PTE_WRITABLE)))
    } else {
        None
    }
}

proof fn lemma_window_flags()
    by (bit_vector)
    ensures
        1u64 | 2u64 == 3u64,
{
}

/// The page at the end of the part of a window that is done.
#[verifier::spinoff_prover]
proof fn lemma_window_here(base: u64, va: u64)
    requires
        base % LARGE_PAGE == 0,
        va % LARGE_PAGE == 0,
        base <= va,
        va - base <= VA_SPAN,
    ensures
        0 <= page_of(va) < PAGES,
        window_offset(page_of(va), base) == (va - base) % VA_SPAN as int,
        page_of(va) % 512 == 0,
{
    let span = VA_SPAN as int;
    let v = va as int % span;
    let q = va as int / span;
    assert(va == q * span + v);
    assert(v % 4096 == 0 && v % 0x20_0000 == 0);
    assert(page_of(va) * 4096 == v);
    assert(window_offset(page_of(va), base) == (v - base) % span) by {
        reveal(window_offset);
    }
    vstd::arithmetic::div_mod::lemma_mod_multiples_vanish(q, v - base, span);
    assert(span * q + (v - base) == va - base);
}

/// Advancing a window by one 2 MiB page adds the pages around the next one.
#[verifier::spinoff_prover]
#[verifier::rlimit(30)]
proof fn lemma_window_step(base: u64, va: u64, n: int)
    requires
        base % LARGE_PAGE == 0,
        va % LARGE_PAGE == 0,
        base <= va,
        va - base < VA_SPAN,
        0 <= n < PAGES,
    ensures
        in_window(n, base, va - base + LARGE_PAGE) <==> in_window(n, base, va - base) || n / 512
            == page_of(va) / 512,
        n / 512 == page_of(va) / 512 ==> !in_window(n, base, va - base) && math::rounded_down(
            window_offset(n, base),
            LARGE_PAGE as int,
        ) == va - base,
{
    reveal(math::rounded_down);
    reveal(window_offset);
    let span = VA_SPAN as int;
    let v = va as int % span;
    let b = base as int % span;
    let done = va - base;
    let r = n * 4096 - (n / 512) * LARGE_PAGE;
    lemma_window_here(base, va);
    assert(page_of(va) / 512 * LARGE_PAGE == v);
    assert(0 <= r < LARGE_PAGE);
    assert(v == b + done || v == b + done - span);
    assert(window_offset(n, base) == (n * 4096 - b) % span);
    let off = window_offset(n, base);
    assert(off == n * 4096 - b || off == n * 4096 - b + span);
    if n / 512 == page_of(va) / 512 {
        assert(off == done + r);
        assert((done + r) / LARGE_PAGE as int == done / LARGE_PAGE as int);
    }
}

/// A larger window needs at least the same tables.
proof fn lemma_window_tables_mono(base: u64, small: int, large: int)
    requires
        small <= large,
    ensures
        window_tables(base, small).subset_of(window_tables(base, large)),
{
    reveal(window_tables);
    assert forall|a: (int, int)| #[trigger]
        window_tables(base, small).contains(a) implies window_tables(base, large).contains(a) by {
        let n = choose|n: int|
            0 <= n < PAGES && in_window(n, base, small) && #[trigger] key_of(n, a.0) == a.1;
        assert(key_of(n, a.0) == a.1);
    }
}

/// Advancing a window by one 2 MiB page needs the tables on its path.
proof fn lemma_window_tables_step(base: u64, va: u64)
    requires
        base % LARGE_PAGE == 0,
        va % LARGE_PAGE == 0,
        base <= va,
        va - base < VA_SPAN,
    ensures
        window_tables(base, va - base + LARGE_PAGE) == window_tables(base, va - base).insert(
            (2, key_of(page_of(va), 2)),
        ).insert((1, key_of(page_of(va), 1))),
{
    reveal(window_tables);
    let n0 = page_of(va);
    let done = va - base;
    let after = window_tables(base, done + LARGE_PAGE);
    let before = window_tables(base, done);
    lemma_window_here(base, va);
    lemma_window_step(base, va, n0);
    lemma_window_tables_mono(base, done, done + LARGE_PAGE);
    let two = (2int, key_of(n0, 2));
    let one = (1int, key_of(n0, 1));
    assert(key_of(n0, two.0) == two.1);
    assert(key_of(n0, one.0) == one.1);
    assert(after.contains(two));
    assert(after.contains(one));
    assert forall|a: (int, int)| #[trigger] after.contains(a) implies before.contains(a) || a == (
        2int,
        key_of(n0, 2),
    ) || a == (1int, key_of(n0, 1)) by {
        let n = choose|n: int|
            0 <= n < PAGES && in_window(n, base, done + LARGE_PAGE) && #[trigger] key_of(n, a.0)
                == a.1;
        lemma_window_step(base, va, n);
        if in_window(n, base, done) {
            assert(key_of(n, a.0) == a.1);
        } else {
            assert(n / 512 == n0 / 512);
            assert(n / 0x4_0000 == n / 512 / 512);
            assert(n0 / 0x4_0000 == n0 / 512 / 512);
        }
    }
    assert(after =~= before.insert((2, key_of(n0, 2))).insert((1, key_of(n0, 1))));
}

/// There are finitely many tables.
proof fn lemma_kernel_tables_finite(base: u64, window: int)
    ensures
        kernel_tables(base, window).finite(),
        !kernel_tables(base, window).contains((3, 0)),
{
    reveal(window_tables);
    let low = vstd::set_lib::set_int_range(0, 0x4_0000);
    vstd::set_lib::lemma_int_range(0, 0x4_0000);
    let ones = low.map(|k: int| (1int, k));
    let twos = low.map(|k: int| (2int, k));
    low.lemma_map_finite(|k: int| (1int, k));
    low.lemma_map_finite(|k: int| (2int, k));
    assert forall|a: (int, int)| #[trigger] kernel_tables(base, window).contains(a) implies (ones
        + twos).contains(a) by {
        let b = if window_tables(0, window).contains(a) {
            0u64
        } else {
            base
        };
        let n = choose|n: int|
            0 <= n < PAGES && in_window(n, b, window) && #[trigger] key_of(n, a.0) == a.1;
        assert(0 <= a.1 < 0x4_0000);
        assert(low.contains(a.1));
        if a.0 == 1 {
            assert(ones.contains((1int, a.1)));
        } else {
            assert(twos.contains((2int, a.1)));
        }
    }
    vstd::set_lib::lemma_len_subset(kernel_tables(base, window), ones + twos);
}

/// Where the pool is exhausted before all of the tables are there, it held
/// fewer frames than the tables take.
proof fn lemma_out_of_frames(a: Pmm, b: Pmm, nodes: Nodes, all: Set<(int, int)>)
    requires
        page_tree::grown(a, b, Map::empty(), nodes),
        b.free_count() == 0,
        all.finite(),
        !all.contains((3, 0)),
        nodes.dom().subset_of(all.insert((3, 0))),
        exists|x: (int, int)| all.contains(x) && !(#[trigger] nodes.contains_key(x)),
    ensures
        a.free_count() < 1 + all.len(),
{
    reveal(page_tree::grown);
    let x = choose|x: (int, int)| all.contains(x) && !(#[trigger] nodes.contains_key(x));
    let full = all.insert((3, 0));
    vstd::set_lib::lemma_len_subset(nodes.dom(), full.remove(x));
    assert(Map::<(int, int), FrameIndex>::empty().dom().len() == 0);
}

/// The identity window is aligned and finds an empty table, so only its size
/// stops it.
proof fn lemma_first_window_stops(
    pt1: PageTable,
    p1: Pmm,
    pt: PageTable,
    p: Pmm,
    base: u64,
    window: u64,
    e: MapError,
)
    requires
        window % LARGE_PAGE == 0,
        e != MapError::AllocFailed,
        e == MapError::NotAligned ==> window % LARGE_PAGE != 0,
        pt1.tables().dom() == Set::<(int, int)>::empty().insert((3, 0)),
        forall|n: int| 0 <= n < PAGES ==> #[trigger] pt1.leaf(p1, n) is None,
        exists|done: int| #[trigger]
            window_mapped(pt1, p1, pt, p, 0, 0, PTE_PRESENT | PTE_WRITABLE, done) && window_stops(
                pt1,
                p1,
                pt,
                0,
                window,
                done,
                e,
            ),
        e == MapError::NotAligned || e == MapError::Conflict,
    ensures
        windows_stop(base, window as int, pt.tables().dom()),
{
    let done = choose|done: int| #[trigger]
        window_mapped(pt1, p1, pt, p, 0, 0, PTE_PRESENT | PTE_WRITABLE, done) && window_stops(
            pt1,
            p1,
            pt,
            0,
            window,
            done,
            e,
        );
    let n = page_of(done as u64);
    assert(pt1.leaf(p1, n) is None);
    assert(done == VA_SPAN);
    assert(stops_at(base, window as int, 0));
    assert(window_tables(0, done) =~= window_tables(0, window as int)) by {
        reveal(window_tables);
        reveal(window_offset);
    }
    assert(window_tables(base, 0) =~= Set::empty()) by {
        reveal(window_tables);
        reveal(window_offset);
    }
    assert(pt.tables().dom() =~= window_tables(0, window as int).insert((3, 0)) + window_tables(
        base,
        0,
    ));
}

/// The physmap window is stopped by its base or by the identity window.
proof fn lemma_second_window_stops(
    pt1: PageTable,
    p1: Pmm,
    pt2: PageTable,
    p2: Pmm,
    pt: PageTable,
    p: Pmm,
    base: u64,
    window: u64,
    e: MapError,
)
    requires
        window % LARGE_PAGE == 0,
        window <= VA_SPAN,
        base + window <= u64::MAX,
        e == MapError::NotAligned || e == MapError::Conflict,
        e == MapError::NotAligned <==> window != 0 && base % LARGE_PAGE != 0,
        pt1.tables().dom() == Set::<(int, int)>::empty().insert((3, 0)),
        pt2.tables().dom() == pt1.tables().dom() + window_tables(0, window as int),
        forall|n: int| 0 <= n < PAGES ==> #[trigger] pt1.leaf(p1, n) is None,
        forall|n: int|
            0 <= n < PAGES ==> #[trigger] pt2.leaf(p2, n) == (if in_window(n, 0, window as int) {
                Some((1int, window_entry(n, 0, 0, PTE_PRESENT | PTE_WRITABLE)))
            } else {
                pt1.leaf(p1, n)
            }),
        exists|done: int| #[trigger]
            window_mapped(pt2, p2, pt, p, base, 0, PTE_PRESENT | PTE_WRITABLE, done)
                && window_stops(pt2, p2, pt, base, window, done, e),
    ensures
        windows_stop(base, window as int, pt.tables().dom()),
{
    let done = choose|done: int| #[trigger]
        window_mapped(pt2, p2, pt, p, base, 0, PTE_PRESENT | PTE_WRITABLE, done) && window_stops(
            pt2,
            p2,
            pt,
            base,
            window,
            done,
            e,
        );
    let n = page_of((base + done) as u64);
    lemma_no_page_tables(0, window as int);
    assert(!pt2.tables().dom().contains((0, n / 512)));
    assert(pt2.leaf(p2, n) is Some ==> in_window(n, 0, window as int)) by {
        assert(pt1.leaf(p1, n) is None);
    }
    assert forall|m: int| 0 <= m < PAGES && in_window(m, base, done) implies !#[trigger] in_window(
        m,
        0,
        window as int,
    ) by {
        assert(!occupied(pt2, p2, m));
        assert(pt2.leaf(p2, m) is None);
    }
    assert(stops_at(base, window as int, done));
    assert(pt.tables().dom() =~= window_tables(0, window as int).insert((3, 0)) + window_tables(
        base,
        done,
    ));
}

/// Pages in the same 2 MiB have the same walk where they have no table of
/// 4 KiB pages.
proof fn lemma_same_large_page(root: FrameIndex, nodes: Nodes, pmm: Pmm, n: int, m: int)
    requires
        page_tree::tree_wf(root, nodes, pmm.ram_words(), pmm.frames()),
        !nodes.contains_key((0, n / 512)),
        0 <= n < PAGES,
        0 <= m < PAGES,
        n / 512 == m / 512,
    ensures
        page_tree::walk(pmm.ram_words(), root, n) == page_tree::walk(pmm.ram_words(), root, m),
{
    reveal(page_tree::tree_wf);
    page_tree::lemma_walk(root, nodes, pmm.ram_words(), pmm.frames(), n);
    page_tree::lemma_walk(root, nodes, pmm.ram_words(), pmm.frames(), m);
    assert(n / 0x4_0000 == n / 512 / 512);
    assert(m / 0x4_0000 == m / 512 / 512);
    assert(n / 0x800_0000 == n / 0x4_0000 / 512);
    assert(m / 0x800_0000 == m / 0x4_0000 / 512);
}

/// Setting the 2 MiB entry around page `n` maps the pages around it alone.
proof fn lemma_large_page_set(root: FrameIndex, nodes: Nodes, a: Pmm, b: Pmm, n: int, page: u64)
    requires
        page_tree::tree_wf(root, nodes, a.ram_words(), a.frames()),
        0 <= n < PAGES,
        page_tree::on_path(nodes, n, 1),
        !present(page_tree::entry(a.ram_words(), nodes[(1, key_of(n, 1))], index_of(n, 1))),
        present(page),
        huge(page),
        pmm::same_but_ram(a, b),
        b.free_count() == a.free_count(),
        page_tree::one_entry_set(
            nodes,
            a.ram_words(),
            b.ram_words(),
            1,
            key_of(n, 1),
            index_of(n, 1),
            page,
        ),
        forall|w: int|
            0 <= w < a.ram_words().len() && w / FRAME_WORDS as int != nodes[(1, key_of(n, 1))]
                ==> #[trigger] b.ram_words()[w] == a.ram_words()[w],
    ensures
        page_tree::tree_wf(root, nodes, b.ram_words(), b.frames()),
        page_tree::grown(a, b, nodes, nodes),
        forall|m: int|
            0 <= m < PAGES ==> #[trigger] page_tree::walk(b.ram_words(), root, m) == (if m / 512
                == n / 512 {
                Some((1int, page))
            } else {
                page_tree::walk(a.ram_words(), root, m)
            }),
{
    reveal(page_tree::tree_wf);
    reveal(page_tree::grown);
    let key = key_of(n, 1);
    let i = index_of(n, 1);
    lemma_key_below(n, 1);
    if nodes.contains_key((0, key_of(n, 0))) {
        assert(page_tree::node_ok(nodes, a.ram_words(), a.frames(), 0, key_of(n, 0)));
        assert(false);
    }
    page_tree::lemma_set_entry(
        root,
        nodes,
        a.ram_words(),
        b.ram_words(),
        a.frames(),
        1,
        key,
        i,
        page,
    );
    page_tree::lemma_user_bits_kept_set(nodes, a.ram_words(), b.ram_words(), 1, key, i, page);
    assert(page_tree::uses(nodes, nodes[(1, key)] as int));
    assert forall|m: int| 0 <= m < PAGES implies #[trigger] page_tree::walk(b.ram_words(), root, m)
        == (if m / 512 == n / 512 {
        Some((1int, page))
    } else {
        page_tree::walk(a.ram_words(), root, m)
    }) by {
        if m / 512 == n / 512 {
            assert(key_of(m, 1) == key);
            assert(page_tree::on_path(nodes, m, 1));
            assert(!page_tree::on_path(nodes, m, 0));
            assert(page_tree::depth(nodes, m) == 1);
        }
    }
}

/// The first `done` bytes of the window at `base_va` have been mapped, and
/// every other page is as it was.
pub open spec fn window_mapped(
    before: PageTable,
    a: Pmm,
    after: PageTable,
    b: Pmm,
    base_va: u64,
    base_pa: u64,
    bits: u64,
    done: int,
) -> bool {
    forall|n: int|
        0 <= n < PAGES ==> #[trigger] after.leaf(b, n) == (if in_window(n, base_va, done) {
            Some((1int, window_entry(n, base_va, base_pa, bits)))
        } else {
            before.leaf(a, n)
        })
}

/// Mapping a window stopped with `e` behind its first `done` bytes: at the
/// start if it is not aligned, else at the first large page whose place is
/// taken, with the tables of those before it, or that has no table.
pub open spec fn window_stops(
    before: PageTable,
    a: Pmm,
    after: PageTable,
    base_va: u64,
    bytes: u64,
    done: int,
    e: MapError,
) -> bool {
    let n = page_of((base_va + done) as u64);
    &&& 0 <= done < bytes
    &&& done % LARGE_PAGE as int == 0
    &&& forall|m: int|
        0 <= m < PAGES && in_window(m, base_va, done) ==> !#[trigger] occupied(before, a, m)
    &&& e == MapError::NotAligned ==> done == 0
    &&& e == MapError::Conflict ==> done == VA_SPAN || occupied(before, a, n)
    &&& e == MapError::AllocFailed ==> done < VA_SPAN && !occupied(before, a, n)
        && !after.tables().contains_key((1, key_of(n, 1)))
    &&& e != MapError::AllocFailed ==> after.tables().dom() == before.tables().dom()
        + window_tables(base_va, done)
}

/// Between `a` and `b`, through `mid`, a page of `frame` has been unmapped:
/// only tables were written to, and the frame was drained if it was waiting
/// for that.
pub open spec fn unmapped_between(
    a: Pmm,
    mid: Pmm,
    b: Pmm,
    tables: Nodes,
    frame: FrameIndex,
) -> bool {
    &&& page_tree::grown(a, mid, tables, tables)
    &&& pmm::same_but_ram(a, mid)
    &&& frame::counted(
        mid,
        b,
        frame,
        a.frames()[frame as int].with_mappings(
            (a.frames()[frame as int].mappings() - 1) as u32,
        ),
    )
}

/// A page of `frame` has been unmapped.
pub open spec fn unmapped_from(a: Pmm, b: Pmm, tables: Nodes, frame: FrameIndex) -> bool {
    exists|mid: Pmm| #[trigger] unmapped_between(a, mid, b, tables, frame)
}

/// Dropping a count of `f`, and draining it if it was waiting for that,
/// leaves the tree as it is: its frames are the kernel's.
proof fn lemma_drain_keeps_tree(
    root: FrameIndex,
    nodes: Nodes,
    a: Pmm,
    b: Pmm,
    f: FrameIndex,
    info: FrameInfo,
)
    requires
        page_tree::tree_wf(root, nodes, a.ram_words(), a.frames()),
        f < a.frames().len(),
        a.frames().len() * FRAME_WORDS <= a.ram_words().len(),
        info.owner() == a.frames()[f as int].owner(),
        frame::counted(a, b, f, info),
    ensures
        page_tree::tree_wf(root, nodes, b.ram_words(), b.frames()),
        page_tree::user_bits_kept(nodes, a.ram_words(), b.ram_words()),
        forall|n: int|
            #[trigger] page_tree::opened_only(
                nodes,
                nodes,
                a.ram_words(),
                b.ram_words(),
                n,
                false,
            ),
        forall|n: int|
            0 <= n < PAGES ==> #[trigger] page_tree::walk(b.ram_words(), root, n)
                == page_tree::walk(a.ram_words(), root, n),
{
    reveal(page_tree::tree_wf);
    assert forall|x: (int, int)| nodes.contains_key(x) implies b.frames()[(
    #[trigger] nodes[x]) as int].owner() == FrameOwner::of(OwnerTag::Kernel, 0) by {
        assert(page_tree::node_ok(nodes, a.ram_words(), a.frames(), x.0, x.1));
    }
    assert forall|x: (int, int), j: int|
        nodes.contains_key(x) && 0 <= j < 512 implies #[trigger] page_tree::entry(
        b.ram_words(),
        nodes[x],
        j,
    ) == page_tree::entry(a.ram_words(), nodes[x], j) by {
        assert(page_tree::node_ok(nodes, a.ram_words(), a.frames(), x.0, x.1));
    }
    page_tree::lemma_user_bits_kept_same(nodes, a.ram_words(), b.ram_words());
    assert forall|n: int|
        #[trigger] page_tree::opened_only(
            nodes,
            nodes,
            a.ram_words(),
            b.ram_words(),
            n,
            false,
        ) by {
        page_tree::lemma_opened_none(nodes, a.ram_words(), b.ram_words(), n, false);
    }
    page_tree::lemma_tree_frame(
        root,
        nodes,
        a.ram_words(),
        a.frames(),
        b.ram_words(),
        b.frames(),
    );
}

/// Setting the entry of page `n` in the lowest table maps that page alone.
proof fn lemma_page_set(
    root: FrameIndex,
    nodes: Nodes,
    a: Pmm,
    b: Pmm,
    n: int,
    page: u64,
    user: u64,
)
    requires
        page_tree::tree_wf(root, nodes, a.ram_words(), a.frames()),
        0 <= n < PAGES,
        page_tree::on_path(nodes, n, 0),
        present(page) ==> (page & ADDR_MASK_4K) as int / 4096 < a.frames().len(),
        pmm::same_but_ram(a, b),
        b.free_count() == a.free_count(),
        page_tree::one_entry_set(
            nodes,
            a.ram_words(),
            b.ram_words(),
            0,
            key_of(n, 0),
            index_of(n, 0),
            page,
        ),
        forall|w: int|
            0 <= w < a.ram_words().len() && w / FRAME_WORDS as int != nodes[(0, key_of(n, 0))]
                ==> #[trigger] b.ram_words()[w] == a.ram_words()[w],
        forall|l: int| 0 <= l <= 3 ==> #[trigger] page_tree::on_path(nodes, n, l),
        forall|l: int|
            1 <= l <= 3 && user != 0 ==> user_ok(
                #[trigger] page_tree::entry(
                    a.ram_words(),
                    nodes[(l, key_of(n, l))],
                    index_of(n, l),
                ),
            ),
    ensures
        page_tree::tree_wf(root, nodes, b.ram_words(), b.frames()),
        page_tree::grown(a, b, nodes, nodes),
        forall|m: int|
            0 <= m < PAGES ==> #[trigger] page_tree::walk(b.ram_words(), root, m) == (if m == n {
                if present(page) {
                    Some((0int, page))
                } else {
                    None
                }
            } else {
                page_tree::walk(a.ram_words(), root, m)
            }),
        user != 0 ==> page_tree::user_path(b.ram_words(), root, n),
{
    reveal(page_tree::tree_wf);
    reveal(page_tree::grown);
    let key = key_of(n, 0);
    page_tree::lemma_set_entry(
        root,
        nodes,
        a.ram_words(),
        b.ram_words(),
        a.frames(),
        0,
        key,
        index_of(n, 0),
        page,
    );
    page_tree::lemma_user_bits_kept_set(
        nodes,
        a.ram_words(),
        b.ram_words(),
        0,
        key,
        index_of(n, 0),
        page,
    );
    assert(page_tree::uses(nodes, nodes[(0, key)] as int));
    if user != 0 {
        assert forall|l: int| 1 <= l <= 3 implies user_ok(
            #[trigger] page_tree::entry(b.ram_words(), nodes[(l, key_of(n, l))], index_of(n, l)),
        ) by {
            assert(page_tree::on_path(nodes, n, l));
            assert(user_ok(
                page_tree::entry(a.ram_words(), nodes[(l, key_of(n, l))], index_of(n, l)),
            ));
        }
        lemma_user_path(root, nodes, b.ram_words(), b.frames(), n);
    }
}

/// Counting a mapping of `f` leaves the tree as it is.
proof fn lemma_counts_keep_tree(root: FrameIndex, nodes: Nodes, a: Pmm, b: Pmm, f: FrameIndex)
    requires
        page_tree::tree_wf(root, nodes, a.ram_words(), a.frames()),
        f < a.frames().len(),
        b.ram_words() == a.ram_words(),
        b.frames().len() == a.frames().len(),
        b.frames()[f as int].owner() == a.frames()[f as int].owner(),
        forall|g: int| 0 <= g < a.frames().len() && g != f ==> b.frames()[g] == a.frames()[g],
    ensures
        page_tree::tree_wf(root, nodes, b.ram_words(), b.frames()),
{
    reveal(page_tree::tree_wf);
    assert forall|x: (int, int)| nodes.contains_key(x) implies b.frames()[(
    #[trigger] nodes[x]) as int].owner() == FrameOwner::of(OwnerTag::Kernel, 0) by {
        assert(page_tree::node_ok(nodes, a.ram_words(), a.frames(), x.0, x.1));
    }
    page_tree::lemma_tree_frame(
        root,
        nodes,
        a.ram_words(),
        a.frames(),
        b.ram_words(),
        b.frames(),
    );
}

/// Links have been opened to user code on the path of `va` only, and only if
/// `user` is the user bit.
pub open spec fn opened_for(
    before: PageTable,
    a: Pmm,
    after: PageTable,
    b: Pmm,
    va: u64,
    user: u64,
) -> bool {
    page_tree::opened_only(
        before.tables(),
        after.tables(),
        a.ram_words(),
        b.ram_words(),
        page_of(va),
        user != 0,
    )
}

/// Every mapped page that user code could walk to, it can still walk to.
pub open spec fn user_paths_kept(before: PageTable, a: Pmm, after: PageTable, b: Pmm) -> bool {
    forall|n: int|
        0 <= n < PAGES && before.leaf(a, n) is Some && page_tree::user_path(
            a.ram_words(),
            before.root_frame(),
            n,
        ) ==> #[trigger] page_tree::user_path(b.ram_words(), after.root_frame(), n)
}

/// Where tables grow and no link is closed to user code, the paths stay open.
proof fn lemma_paths_kept(before: PageTable, a: Pmm, after: PageTable, b: Pmm)
    requires
        before.wf(a),
        after.wf(b),
        after.root_frame() == before.root_frame(),
        before.tables().submap_of(after.tables()),
        page_tree::user_bits_kept(before.tables(), a.ram_words(), b.ram_words()),
        forall|n: int|
            0 <= n < PAGES && (#[trigger] after.leaf(b, n)) != before.leaf(a, n) ==> (before.leaf(
                a,
                n,
            ) matches Some((l, _)) ==> l == 0),
    ensures
        user_paths_kept(before, a, after, b),
{
    assert forall|n: int|
        0 <= n < PAGES && before.leaf(a, n) is Some && page_tree::user_path(
            a.ram_words(),
            before.root_frame(),
            n,
        ) implies #[trigger] page_tree::user_path(b.ram_words(), after.root_frame(), n) by {
        page_tree::lemma_walk(
            before.root_frame(),
            before.tables(),
            a.ram_words(),
            a.frames(),
            n,
        );
        assert(after.leaf(b, n) == page_tree::walk(b.ram_words(), after.root_frame(), n));
        page_tree::lemma_user_path_kept(
            before.root_frame(),
            before.tables(),
            a.ram_words(),
            a.frames(),
            after.tables(),
            b.ram_words(),
            b.frames(),
            n,
        );
    }
}

/// Paths that stay open twice in a row stay open, if the pages stay mapped.
pub(crate) proof fn lemma_paths_kept_trans(
    pt0: PageTable,
    a: Pmm,
    pt1: PageTable,
    b: Pmm,
    pt2: PageTable,
    c: Pmm,
)
    requires
        user_paths_kept(pt0, a, pt1, b),
        user_paths_kept(pt1, b, pt2, c),
        forall|n: int|
            0 <= n < PAGES && pt0.leaf(a, n) is Some ==> (#[trigger] pt1.leaf(b, n)) is Some,
    ensures
        user_paths_kept(pt0, a, pt2, c),
{
    assert forall|n: int|
        0 <= n < PAGES && pt0.leaf(a, n) is Some && page_tree::user_path(
            a.ram_words(),
            pt0.root_frame(),
            n,
        ) implies #[trigger] page_tree::user_path(c.ram_words(), pt2.root_frame(), n) by {
        assert(pt1.leaf(b, n) is Some);
        assert(page_tree::user_path(b.ram_words(), pt1.root_frame(), n));
    }
}

/// The checks that [`PageTable::map`] makes on its arguments.
pub open spec fn mappable(pmm: Pmm, va: u64, pa: u64) -> bool {
    canonical(va) && va % 4096 == 0 && pa % 4096 == 0 && pa < pmm.frames().len() * FRAME_SIZE
}

/// `b` has grown from `a` through `mid`, and counts one mapping of `frame`
/// more.
pub open spec fn mapped_between(
    a: Pmm,
    mid: Pmm,
    b: Pmm,
    before: Nodes,
    after: Nodes,
    frame: FrameIndex,
) -> bool {
    &&& page_tree::grown(a, mid, before, after)
    &&& b.frames() == mid.frames().update(
        frame as int,
        mid.frames()[frame as int].with_mappings(
            frame::wrapping_inc(mid.frames()[frame as int].mappings()),
        ),
    )
    &&& frame::same_lists_and_ram(mid, b)
}

/// Tables have grown from `before` to `after`, and one mapping of `frame` has
/// been added.
pub open spec fn mapped_from(
    a: Pmm,
    b: Pmm,
    before: Nodes,
    after: Nodes,
    frame: FrameIndex,
) -> bool {
    exists|mid: Pmm| #[trigger] mapped_between(a, mid, b, before, after, frame)
}

/// Where a table is missing on a path, so are those below it.
proof fn lemma_path_closed(
    root: FrameIndex,
    nodes: Nodes,
    ram: Seq<u64>,
    frames: Seq<FrameInfo>,
    n: int,
    level: int,
)
    requires
        page_tree::tree_wf(root, nodes, ram, frames),
        0 <= n < PAGES,
        0 <= level <= 2,
        !page_tree::on_path(nodes, n, level),
    ensures
        forall|l: int| 0 <= l <= level ==> !#[trigger] page_tree::on_path(nodes, n, l),
{
    reveal(page_tree::tree_wf);
    page_tree::lemma_walk(root, nodes, ram, frames, n);
}

/// The links on the path of page `n` all have the user bit.
proof fn lemma_user_path(
    root: FrameIndex,
    nodes: Nodes,
    ram: Seq<u64>,
    frames: Seq<FrameInfo>,
    n: int,
)
    requires
        page_tree::tree_wf(root, nodes, ram, frames),
        0 <= n < PAGES,
        page_tree::on_path(nodes, n, 0),
        forall|l: int|
            1 <= l <= 3 ==> user_ok(
                #[trigger] page_tree::entry(ram, nodes[(l, key_of(n, l))], index_of(n, l)),
            ),
    ensures
        page_tree::user_path(ram, root, n),
{
    reveal(page_tree::walk);
    reveal(page_tree::tree_wf);
    reveal(page_tree::user_path);
    page_tree::lemma_walk(root, nodes, ram, frames, n);
    assert(is_link(page_tree::entry(ram, nodes[(3, key_of(n, 3))], index_of(n, 3)), nodes[(2, key_of(n, 2))]));
    assert(is_link(page_tree::entry(ram, nodes[(2, key_of(n, 2))], index_of(n, 2)), nodes[(1, key_of(n, 1))]));
    assert(is_link(page_tree::entry(ram, nodes[(1, key_of(n, 1))], index_of(n, 1)), nodes[(0, key_of(n, 0))]));
}

/// Taking a free frame for a new table leaves the tree as it is.
proof fn lemma_fresh_table(root: FrameIndex, nodes: Nodes, a: Pmm, b: Pmm, f: FrameIndex)
    requires
        page_tree::tree_wf(root, nodes, a.ram_words(), a.frames()),
        a.free(f as int),
        b.frames() == a.frames().update(
            f as int,
            a.frames()[f as int].with_owner(FrameOwner::of(OwnerTag::Kernel, 0)),
        ),
        b.ram_words().len() == a.ram_words().len(),
        forall|i: int|
            0 <= i < a.ram_words().len() && !a.free(i / FRAME_WORDS as int)
                ==> #[trigger] b.ram_words()[i] == a.ram_words()[i],
    ensures
        page_tree::tree_wf(root, nodes, b.ram_words(), b.frames()),
        !page_tree::uses(nodes, f as int),
        forall|x: (int, int), j: int|
            nodes.contains_key(x) && 0 <= j < 512 ==> #[trigger] page_tree::entry(
                b.ram_words(),
                nodes[x],
                j,
            ) == page_tree::entry(a.ram_words(), nodes[x], j),
        forall|n: int|
            0 <= n < PAGES ==> #[trigger] page_tree::walk(b.ram_words(), root, n)
                == page_tree::walk(a.ram_words(), root, n),
{
    reveal(page_tree::tree_wf);
    assert forall|x: (int, int)| nodes.contains_key(x) implies (#[trigger] nodes[x]) != f
        && b.frames()[nodes[x] as int].owner() == FrameOwner::of(OwnerTag::Kernel, 0) by {
        assert(page_tree::node_ok(nodes, a.ram_words(), a.frames(), x.0, x.1));
    }
    assert forall|x: (int, int), j: int|
        nodes.contains_key(x) && 0 <= j < 512 implies #[trigger] page_tree::entry(
        b.ram_words(),
        nodes[x],
        j,
    ) == page_tree::entry(a.ram_words(), nodes[x], j) by {
        assert(page_tree::node_ok(nodes, a.ram_words(), a.frames(), x.0, x.1));
        let w = nodes[x] as int * FRAME_WORDS + j;
        assert(w / FRAME_WORDS as int == nodes[x]);
        assert(b.ram_words()[w] == a.ram_words()[w]);
    }
    page_tree::lemma_tree_frame(
        root,
        nodes,
        a.ram_words(),
        a.frames(),
        b.ram_words(),
        b.frames(),
    );
}

/// Linking the fresh table `f` under entry `i` of table `(level, key)`.
proof fn lemma_linked(
    root: FrameIndex,
    nodes: Nodes,
    a: Pmm,
    b: Pmm,
    c: Pmm,
    level: int,
    key: int,
    i: int,
    link: u64,
    f: FrameIndex,
)
    requires
        page_tree::tree_wf(root, nodes, a.ram_words(), a.frames()),
        page_tree::tree_wf(root, nodes, b.ram_words(), b.frames()),
        a.frames().len() * FRAME_WORDS <= a.ram_words().len(),
        1 <= level <= 3,
        nodes.contains_key((level, key)),
        0 <= i < 512,
        !present(page_tree::entry(a.ram_words(), nodes[(level, key)], i)),
        is_link(link, f),
        a.free(f as int),
        !page_tree::uses(nodes, f as int),
        b.frames() == a.frames().update(
            f as int,
            a.frames()[f as int].with_owner(FrameOwner::of(OwnerTag::Kernel, 0)),
        ),
        b.free_count() + 1 == a.free_count(),
        b.pool() == a.pool().take_head(),
        b.physmap_at() == a.physmap_at(),
        b.table_at() == a.table_at(),
        b.ram_words().len() == a.ram_words().len(),
        forall|w: int|
            0 <= w < a.ram_words().len() && !a.free(w / FRAME_WORDS as int)
                ==> #[trigger] b.ram_words()[w] == a.ram_words()[w],
        forall|j: int| 0 <= j < 512 ==> #[trigger] page_tree::entry(b.ram_words(), f, j) == 0,
        forall|n: int|
            0 <= n < PAGES ==> #[trigger] page_tree::walk(b.ram_words(), root, n)
                == page_tree::walk(a.ram_words(), root, n),
        forall|x: (int, int), j: int|
            nodes.contains_key(x) && 0 <= j < 512 ==> #[trigger] page_tree::entry(
                b.ram_words(),
                nodes[x],
                j,
            ) == page_tree::entry(a.ram_words(), nodes[x], j),
        pmm::same_but_ram(b, c),
        c.free_count() == b.free_count(),
        page_tree::one_entry_set(nodes, b.ram_words(), c.ram_words(), level, key, i, link),
        forall|w: int|
            0 <= w < b.ram_words().len() && w / FRAME_WORDS as int != nodes[(level, key)]
                ==> #[trigger] c.ram_words()[w] == b.ram_words()[w],
    ensures
        !nodes.contains_key((level - 1, key * 512 + i)),
        page_tree::tree_wf(
            root,
            nodes.insert((level - 1, key * 512 + i), f),
            c.ram_words(),
            c.frames(),
        ),
        page_tree::grown(a, c, nodes, nodes.insert((level - 1, key * 512 + i), f)),
        forall|j: int| 0 <= j < 512 ==> #[trigger] page_tree::entry(c.ram_words(), f, j) == 0,
        forall|n: int|
            0 <= n < PAGES ==> #[trigger] page_tree::walk(c.ram_words(), root, n)
                == page_tree::walk(a.ram_words(), root, n),
        forall|x: (int, int), j: int|
            nodes.contains_key(x) && 0 <= j < 512 && (x != (level, key) || j != i)
                ==> #[trigger] page_tree::entry(c.ram_words(), nodes[x], j) == page_tree::entry(
                a.ram_words(),
                nodes[x],
                j,
            ),
{
    reveal(page_tree::tree_wf);
    reveal(page_tree::grown);
    let new = (level - 1, key * 512 + i);
    let nodes1 = nodes.insert(new, f);
    a.pool().lemma_take_one();
    assert(c.pool() == b.pool());
    let table = nodes[(level, key)];
    assert forall|x: (int, int)| nodes.contains_key(x) implies (#[trigger] nodes[x]) != f
        && c.frames()[nodes[x] as int].owner() == FrameOwner::of(OwnerTag::Kernel, 0) by {
        assert(page_tree::node_ok(nodes, b.ram_words(), b.frames(), x.0, x.1));
    }
    assert forall|j: int| 0 <= j < 512 implies #[trigger] page_tree::entry(c.ram_words(), f, j)
        == 0 by {
        let w = f as int * FRAME_WORDS + j;
        assert(w / FRAME_WORDS as int == f);
        assert(c.ram_words()[w] == b.ram_words()[w]);
        assert(page_tree::entry(b.ram_words(), f, j) == 0);
    }
    page_tree::lemma_link(
        root,
        nodes,
        b.ram_words(),
        b.frames(),
        c.ram_words(),
        c.frames(),
        level,
        key,
        i,
        link,
        f,
    );
    page_tree::lemma_user_bits_kept_same(nodes, a.ram_words(), b.ram_words());
    page_tree::lemma_user_bits_kept_set(nodes, b.ram_words(), c.ram_words(), level, key, i, link);
    page_tree::lemma_user_bits_kept_trans(
        nodes,
        nodes,
        a.ram_words(),
        b.ram_words(),
        c.ram_words(),
    );
    assert forall|g: int| #[trigger] page_tree::uses(nodes1, g) <==> (page_tree::uses(nodes, g) || g
        == f) by {
        assert(nodes1[new] == f);
        if page_tree::uses(nodes, g) {
            let x = choose|x: (int, int)| nodes.contains_key(x) && #[trigger] nodes[x] as int == g;
            assert(nodes1.contains_key(x) && nodes1[x] as int == g);
        }
        if page_tree::uses(nodes1, g) && g != f {
            let x = choose|x: (int, int)|
                nodes1.contains_key(x) && #[trigger] nodes1[x] as int == g;
            assert(nodes.contains_key(x) && nodes[x] as int == g);
        }
    }
    assert(page_tree::uses(nodes, table as int));
    assert forall|w: int|
        0 <= w < a.ram_words().len() && !a.free(w / FRAME_WORDS as int) && !page_tree::uses(
            nodes,
            w / FRAME_WORDS as int,
        ) implies #[trigger] c.ram_words()[w] == a.ram_words()[w] by {
        assert(b.ram_words()[w] == a.ram_words()[w]);
    }
}

/// Setting bits of a link that it is still a link with.
proof fn lemma_promoted(
    root: FrameIndex,
    nodes: Nodes,
    a: Pmm,
    b: Pmm,
    level: int,
    key: int,
    i: int,
    e: u64,
)
    requires
        page_tree::tree_wf(root, nodes, a.ram_words(), a.frames()),
        1 <= level <= 3,
        nodes.contains_key((level, key)),
        0 <= i < 512,
        ({
            let e0 = page_tree::entry(a.ram_words(), nodes[(level, key)], i);
            &&& present(e0) && !huge(e0)
            &&& present(e) && !huge(e) && frame_of(e) == frame_of(e0)
            &&& e & !(PTE_USER | PTE_ACCESSED) == e0 & !(PTE_USER | PTE_ACCESSED)
            &&& user_ok(e0) ==> user_ok(e)
        }),
        pmm::same_but_ram(a, b),
        b.free_count() == a.free_count(),
        page_tree::one_entry_set(nodes, a.ram_words(), b.ram_words(), level, key, i, e),
        forall|w: int|
            0 <= w < a.ram_words().len() && w / FRAME_WORDS as int != nodes[(level, key)]
                ==> #[trigger] b.ram_words()[w] == a.ram_words()[w],
    ensures
        page_tree::tree_wf(root, nodes, b.ram_words(), b.frames()),
        page_tree::grown(a, b, nodes, nodes),
        forall|n: int|
            0 <= n < PAGES ==> #[trigger] page_tree::walk(b.ram_words(), root, n)
                == page_tree::walk(a.ram_words(), root, n),
{
    reveal(page_tree::tree_wf);
    reveal(page_tree::grown);
    assert(page_tree::slot_ok(nodes, a.ram_words(), a.frames(), level, key, i));
    assert(page_tree::node_ok(nodes, a.ram_words(), a.frames(), level - 1, key * 512 + i));
    assert((key * 512 + i) / 512 == key && (key * 512 + i) % 512 == i);
    page_tree::lemma_set_entry(
        root,
        nodes,
        a.ram_words(),
        b.ram_words(),
        a.frames(),
        level,
        key,
        i,
        e,
    );
    page_tree::lemma_user_bits_kept_set(nodes, a.ram_words(), b.ram_words(), level, key, i, e);
    assert forall|m: int| 0 <= m < PAGES implies #[trigger] page_tree::walk(b.ram_words(), root, m)
        == page_tree::walk(a.ram_words(), root, m) by {
        if page_tree::depth(nodes, m) == level && m / pages_per_entry(level) == key * 512 + i {
            lemma_key_below(m, level);
            assert(page_tree::on_path(nodes, m, level - 1));
            assert(false);
        }
    }
    assert(page_tree::uses(nodes, nodes[(level, key)] as int));
}

// ---------------------------------------------------------------------------
// Laws
// ---------------------------------------------------------------------------

/// After `va` has been mapped to `pa`, every address in that page translates
/// to the address at the same offset from `pa`, and every other address to
/// what it did before.
pub proof fn law_map_then_translate(
    before: PageTable,
    p0: Pmm,
    after: PageTable,
    p1: Pmm,
    va: u64,
    pa: u64,
    flags: Flags,
    v: u64,
)
    requires
        mappable(p0, va, pa),
        p0.wf(),
        flags.valid(),
        forall|n: int|
            0 <= n < PAGES ==> #[trigger] after.leaf(p1, n) == (if n == page_of(va) {
                Some((0int, pa | flags.bits() | PTE_PRESENT))
            } else {
                before.leaf(p0, n)
            }),
    ensures
        canonical(v) && v / 4096 == va / 4096 ==> after.translates(p1, v) == Some(
            pa + v as int % 4096,
        ),
        v / 4096 != va / 4096 ==> after.translates(p1, v) == before.translates(p0, v),
{
    p0.lemma_wf();
    lemma_page_entry(pa, flags.bits);
    let n = page_of(v);
    assert(after.leaf(p1, n) == after.leaf(p1, n));
    assert(before.leaf(p0, n) == before.leaf(p0, n));
    if canonical(v) {
        lemma_page_identity(v, va);
    }
}

/// Canonical addresses are in the same page of the 48-bit address space only
/// if they are in the same page.
proof fn lemma_page_identity(v: u64, w: u64)
    requires
        canonical(v),
        canonical(w),
    ensures
        page_of(v) == page_of(w) <==> v / 4096 == w / 4096,
{
    assert(v % VA_SPAN == if v < 0x8000_0000_0000 { v as int } else { v - 0xffff_0000_0000_0000 });
    assert(w % VA_SPAN == if w < 0x8000_0000_0000 { w as int } else { w - 0xffff_0000_0000_0000 });
}

/// Unmapping the page that was mapped last gives back the translations from
/// before, all of them.
pub proof fn law_unmap_undoes_map(
    before: PageTable,
    p0: Pmm,
    mapped: PageTable,
    p1: Pmm,
    after: PageTable,
    p2: Pmm,
    va: u64,
    entry: u64,
    v: u64,
)
    requires
        before.translates(p0, va) is None,
        canonical(va),
        forall|n: int|
            0 <= n < PAGES ==> #[trigger] mapped.leaf(p1, n) == (if n == page_of(va) {
                Some((0int, entry))
            } else {
                before.leaf(p0, n)
            }),
        forall|n: int|
            0 <= n < PAGES ==> #[trigger] after.leaf(p2, n) == (if n == page_of(va) {
                None
            } else {
                mapped.leaf(p1, n)
            }),
    ensures
        after.translates(p2, v) == before.translates(p0, v),
{
    let n = page_of(v);
    assert(after.leaf(p2, n) == after.leaf(p2, n));
    assert(mapped.leaf(p1, n) == mapped.leaf(p1, n));
    assert(before.leaf(p0, n) == before.leaf(p0, n));
}

/// A page that has been mapped can be unmapped: it is mapped to the frame that
/// was asked for, and the frame counts one mapping more.
pub proof fn law_mapped_page_can_be_unmapped(
    before: PageTable,
    p0: Pmm,
    after: PageTable,
    p1: Pmm,
    va: u64,
    pa: u64,
    flags: Flags,
)
    requires
        mappable(p0, va, pa),
        p0.wf(),
        flags.valid(),
        after.leaf(p1, page_of(va)) == Some((0int, pa | flags.bits() | PTE_PRESENT)),
        mapped_from(p0, p1, before.tables(), after.tables(), (pa / 4096) as FrameIndex),
        p0.frames()[pa as int / 4096].mappings() < u32::MAX,
    ensures
        after.maps_page(p1, page_of(va)),
        after.mapped_frame(p1, page_of(va)) == pa / 4096,
        p1.frames()[pa as int / 4096].mappings() == p0.frames()[pa as int / 4096].mappings() + 1,
{
    p0.lemma_wf();
    lemma_page_entry(pa, flags.bits);
    reveal(page_tree::grown);
    let f = (pa / 4096) as FrameIndex;
    let mid = choose|mid: Pmm| #[trigger]
        mapped_between(p0, mid, p1, before.tables(), after.tables(), f);
    assert(mid.frames()[f as int].mappings() == p0.frames()[f as int].mappings());
}

/// A frame that was released while it was mapped goes back to the pool when
/// its last page is unmapped.
pub proof fn law_unmapping_releases(a: Pmm, b: Pmm, tables: Nodes, frame: FrameIndex)
    requires
        unmapped_from(a, b, tables, frame),
        frame < a.frames().len(),
        a.frames()[frame as int].owner_tag() == OwnerTag::Pending,
        a.frames()[frame as int].pinned() == 0,
        a.frames()[frame as int].mappings() == 1,
    ensures
        b.free(frame as int),
        b.next_alloc() == Some(frame),
{
    let mid = choose|mid: Pmm| #[trigger] unmapped_between(a, mid, b, tables, frame);
    let info = a.frames()[frame as int].with_mappings(0);
    frame::law_last_hold_releases(mid, b, frame, info);
}

/// The tables under `pt` map the same pages in `b` as in `a`, and the mapped
/// ones are within the reach of user code as before.
pub open spec fn same_pages(pt: PageTable, a: Pmm, b: Pmm) -> bool {
    &&& forall|n: int| 0 <= n < PAGES ==> #[trigger] pt.leaf(b, n) == pt.leaf(a, n)
    &&& forall|n: int|
        0 <= n < PAGES && pt.leaf(a, n) is Some ==> #[trigger] page_tree::user_path(
            b.ram_words(),
            pt.root_frame(),
            n,
        ) == page_tree::user_path(a.ram_words(), pt.root_frame(), n)
}

/// What the processor lets code do with a page.
#[verifier::ext_equal]
pub struct Access {
    pub write: bool,
    pub user: bool,
    pub execute: bool,
}

/// What code may do with page `n`: the entry that maps it and every link on
/// the way there have to agree.
pub open spec fn access(pt: PageTable, pmm: Pmm, n: int) -> Option<Access> {
    match pt.leaf(pmm, n) {
        None => None,
        Some((_, e)) => Some(
            Access {
                write: write_ok(e) && page_tree::on_links(
                    pmm.ram_words(),
                    pt.root_frame(),
                    n,
                    |l: u64| write_ok(l),
                ),
                user: user_ok(e) && page_tree::user_path(pmm.ram_words(), pt.root_frame(), n),
                execute: exec_ok(e) && page_tree::on_links(
                    pmm.ram_words(),
                    pt.root_frame(),
                    n,
                    |l: u64| exec_ok(l),
                ),
            },
        ),
    }
}

/// What `flags` let code do with a page.
pub open spec fn access_of(flags: u64) -> Access {
    Access {
        write: flags & PTE_WRITABLE != 0,
        user: flags & PTE_USER != 0,
        execute: flags & PTE_NO_EXEC == 0,
    }
}

/// No link takes back what the entry of a page allows, but for the reach of
/// user code.
pub proof fn law_links_are_open(pt: PageTable, pmm: Pmm, n: int)
    requires
        pt.wf(pmm),
        0 <= n < PAGES,
    ensures
        access(pt, pmm, n) == (match pt.leaf(pmm, n) {
            None => None,
            Some((_, e)) => Some(
                Access {
                    write: write_ok(e),
                    user: user_ok(e) && page_tree::user_path(pmm.ram_words(), pt.root_frame(), n),
                    execute: exec_ok(e),
                },
            ),
        }),
{
    let root = pt.root_frame();
    let nodes = pt.tables();
    let ram = pmm.ram_words();
    page_tree::lemma_walk(root, nodes, ram, pmm.frames(), n);
    if pt.leaf(pmm, n) is Some {
        page_tree::lemma_links(root, nodes, ram, pmm.frames(), n, |l: u64| write_ok(l));
        page_tree::lemma_links(root, nodes, ram, pmm.frames(), n, |l: u64| exec_ok(l));
        assert forall|l: int| page_tree::depth(nodes, n) < l <= 3 implies write_ok(
            #[trigger] page_tree::entry(ram, nodes[(l, key_of(n, l))], index_of(n, l)),
        ) && exec_ok(page_tree::entry(ram, nodes[(l, key_of(n, l))], index_of(n, l))) by {
            law_link_is_open(
                page_tree::entry(ram, nodes[(l, key_of(n, l))], index_of(n, l)),
                nodes[(l - 1, key_of(n, l - 1))],
            );
        }
    }
}

/// Mapping a page that is not for user code, or unmapping one, brings no other
/// page within the reach of user code.
pub proof fn law_kernel_pages_open_nothing(
    before: PageTable,
    a: Pmm,
    after: PageTable,
    b: Pmm,
    va: u64,
    n: int,
)
    requires
        before.wf(a),
        after.wf(b),
        after.root_frame() == before.root_frame(),
        opened_for(before, a, after, b, va, 0),
        0 <= n < PAGES,
        before.leaf(a, n) is Some,
        after.leaf(b, n) == before.leaf(a, n),
        page_tree::user_path(b.ram_words(), after.root_frame(), n),
    ensures
        page_tree::user_path(a.ram_words(), before.root_frame(), n),
{
    page_tree::lemma_user_path_closed(
        before.root_frame(),
        before.tables(),
        a.ram_words(),
        a.frames(),
        after.tables(),
        b.ram_words(),
        b.frames(),
        page_of(va),
        n,
    );
}

/// A page that has been mapped may be used as its flags say, and stays so
/// until it is unmapped, whatever else is mapped or unmapped: `tables[0]` and
/// `pmms[0]` are what mapping `va` leaves, and each step after that leaves its
/// page as it is and closes no path.
pub proof fn law_mapped_page_stays_usable(
    tables: Seq<PageTable>,
    pmms: Seq<Pmm>,
    va: u64,
    pa: u64,
    flags: Flags,
    k: int,
)
    requires
        tables.len() == pmms.len(),
        flags.valid(),
        pa % 4096 == 0,
        pa < 0x10_0000_0000_0000,
        tables.len() > 0,
        tables[0].leaf(pmms[0], page_of(va)) == Some((0int, pa | flags.bits() | PTE_PRESENT)),
        flags.bits() & PTE_USER != 0 ==> page_tree::user_path(
            pmms[0].ram_words(),
            tables[0].root_frame(),
            page_of(va),
        ),
        forall|i: int| 0 <= i < tables.len() ==> (#[trigger] tables[i]).wf(pmms[i]),
        forall|i: int|
            0 < i < tables.len() ==> (#[trigger] tables[i]).leaf(pmms[i], page_of(va)) == tables[i
                - 1].leaf(pmms[i - 1], page_of(va)) && user_paths_kept(
                tables[i - 1],
                pmms[i - 1],
                tables[i],
                pmms[i],
            ),
        0 <= k < tables.len(),
    ensures
        access(tables[k], pmms[k], page_of(va)) == Some(access_of(flags.bits())),
        tables[k].leaf(pmms[k], page_of(va)) == tables[0].leaf(pmms[0], page_of(va)),
        flags.bits() & PTE_USER != 0 ==> page_tree::user_path(
            pmms[k].ram_words(),
            tables[k].root_frame(),
            page_of(va),
        ),
    decreases k,
{
    let n = page_of(va);
    if k > 0 {
        law_mapped_page_stays_usable(tables, pmms, va, pa, flags, k - 1);
        assert(tables[k].leaf(pmms[k], n) == tables[k - 1].leaf(pmms[k - 1], n));
    }
    assert(tables[k].wf(pmms[k]));
    law_links_are_open(tables[k], pmms[k], n);
    lemma_page_access(pa, flags.bits);
}

proof fn lemma_page_access(pa: u64, bits: u64)
    by (bit_vector)
    requires
        pa % 4096 == 0,
        pa < 0x10_0000_0000_0000,
    ensures
        (pa | bits | 1u64) & 2u64 == bits & 2u64,
        (pa | bits | 1u64) & 4u64 == bits & 4u64,
        (pa | bits | 1u64) & 0x8000_0000_0000_0000u64 == bits & 0x8000_0000_0000_0000u64,
{
}

/// Mapping into one page table, or building one, leaves every other page
/// table as it is.
pub proof fn law_other_tables_unaffected(
    other: PageTable,
    a: Pmm,
    b: Pmm,
    before: Nodes,
    after: Nodes,
    v: u64,
)
    requires
        other.wf(a),
        page_tree::grown(a, b, before, after),
        forall|x: (int, int)|
            other.tables().contains_key(x) ==> !page_tree::uses(
                before,
                (#[trigger] other.tables()[x]) as int,
            ),
    ensures
        other.wf(b),
        other.translates(b, v) == other.translates(a, v),
        same_pages(other, a, b),
        forall|x: (int, int)|
            other.tables().contains_key(x) ==> !page_tree::uses(
                after,
                (#[trigger] other.tables()[x]) as int,
            ),
{
    reveal(page_tree::grown);
    let nodes = other.tables();
    let root = other.root_frame();
    assert forall|x: (int, int)| nodes.contains_key(x) implies !page_tree::uses(
        after,
        (#[trigger] nodes[x]) as int,
    ) && b.frames()[nodes[x] as int].owner() == FrameOwner::of(OwnerTag::Kernel, 0)
        && nodes[x] < a.frames().len() && (nodes[x] + 1) * FRAME_WORDS <= a.ram_words().len()
        && !a.free(nodes[x] as int) by {
        page_tree::lemma_node(root, nodes, a.ram_words(), a.frames(), x.0, x.1, 0);
        assert(!page_tree::uses(before, nodes[x] as int));
        assert(b.frames()[nodes[x] as int] == a.frames()[nodes[x] as int]);
    }
    assert forall|x: (int, int), j: int|
        nodes.contains_key(x) && 0 <= j < 512 implies #[trigger] page_tree::entry(
        b.ram_words(),
        nodes[x],
        j,
    ) == page_tree::entry(a.ram_words(), nodes[x], j) by {
        let w = nodes[x] as int * FRAME_WORDS + j;
        assert(w / FRAME_WORDS as int == nodes[x]);
        assert(b.ram_words()[w] == a.ram_words()[w]);
    }
    page_tree::lemma_tree_frame(
        root,
        nodes,
        a.ram_words(),
        a.frames(),
        b.ram_words(),
        b.frames(),
    );
}

/// A page table depends on nothing but its own frames: while they stay the
/// kernel's and are not written to, it stays a tree and translates as before.
pub proof fn law_table_depends_on_its_frames(pt: PageTable, a: Pmm, b: Pmm, v: u64)
    requires
        pt.wf(a),
        b.ram_words().len() == a.ram_words().len(),
        b.frames().len() == a.frames().len(),
        forall|x: (int, int)|
            pt.tables().contains_key(x) ==> b.frames()[(#[trigger] pt.tables()[x]) as int].owner()
                == FrameOwner::of(OwnerTag::Kernel, 0),
        forall|x: (int, int), j: int|
            pt.tables().contains_key(x) && 0 <= j < 512 ==> #[trigger] page_tree::entry(
                b.ram_words(),
                pt.tables()[x],
                j,
            ) == page_tree::entry(a.ram_words(), pt.tables()[x], j),
    ensures
        pt.wf(b),
        pt.translates(b, v) == pt.translates(a, v),
        same_pages(pt, a, b),
{
    page_tree::lemma_tree_frame(
        pt.root_frame(),
        pt.tables(),
        a.ram_words(),
        a.frames(),
        b.ram_words(),
        b.frames(),
    );
}

/// The kernel address space maps the first `window` bytes of the address
/// space, and the `window` bytes from the physmap base on, to physical memory
/// from 0 on, and nothing else.
pub proof fn law_kernel_windows(pt: PageTable, pmm: Pmm, base: u64, window: int, v: u64)
    requires
        windows_fit(base, window),
        window % LARGE_PAGE as int == 0,
        forall|n: int|
            0 <= n < PAGES ==> #[trigger] pt.leaf(pmm, n) == kernel_leaf(n, base, window),
        canonical(v),
    ensures
        pt.translates(pmm, v) == (if (v as int) % (VA_SPAN as int) < window {
            Some(v as int % VA_SPAN as int)
        } else if (v - base) % (VA_SPAN as int) < window {
            Some((v - base) % VA_SPAN as int)
        } else {
            None
        }),
{
    let n = page_of(v);
    assert(pt.leaf(pmm, n) == kernel_leaf(n, base, window));
    if window > 0 {
        lemma_window_translation(0, window, v);
        lemma_window_translation(base, window, v);
    } else {
        reveal(window_offset);
    }
}

/// The windows of the kernel address space may be written and executed, and
/// are not for user code.
pub proof fn law_kernel_windows_are_the_kernels(
    pt: PageTable,
    pmm: Pmm,
    base: u64,
    window: int,
    n: int,
)
    requires
        pt.wf(pmm),
        0 <= n < PAGES,
        pt.leaf(pmm, n) == kernel_leaf(n, base, window),
        in_window(n, 0, window) || in_window(n, base, window),
    ensures
        access(pt, pmm, n) == Some(Access { write: true, user: false, execute: true }),
{
    reveal(math::rounded_down);
    reveal(window_offset);
    law_links_are_open(pt, pmm, n);
    lemma_window_flags();
    let at = if in_window(n, 0, window) {
        0u64
    } else {
        base
    };
    let pa = (0 + math::rounded_down(window_offset(n, at), LARGE_PAGE as int)) as u64;
    lemma_window_bits(pa);
}

proof fn lemma_window_bits(pa: u64)
    by (bit_vector)
    requires
        pa % 0x20_0000 == 0,
        pa < 0x1_0000_0000_0000,
    ensures
        (pa | ((3u64 | 1u64) | 0x80u64)) & 2u64 != 0,
        (pa | ((3u64 | 1u64) | 0x80u64)) & 4u64 == 0,
        (pa | ((3u64 | 1u64) | 0x80u64)) & 0x8000_0000_0000_0000u64 == 0,
{
}

/// The offset of `v` from `base` in an address space that wraps around.
#[verifier::spinoff_prover]
proof fn lemma_wrapped_offset(base: int, v: int)
    ensures
        ({
            let b = base % 0x1_0000_0000_0000;
            let u = v % 0x1_0000_0000_0000;
            (v - base) % 0x1_0000_0000_0000 == if u >= b {
                u - b
            } else {
                u - b + 0x1_0000_0000_0000
            }
        }),
{
}

/// A multiple of the large page size stays one modulo the address space.
#[verifier::spinoff_prover]
proof fn lemma_large_mod(x: int)
    ensures
        x % 0x1_0000_0000_0000 % 0x20_0000 == x % 0x20_0000,
{
}

/// Moving within a page of 4 KiB does not leave the large page.
#[verifier::spinoff_prover]
proof fn lemma_same_large(off: int, rest: int, window: int)
    requires
        0 <= off,
        off % 4096 == 0,
        0 <= rest < 4096,
        window % 0x20_0000 == 0,
    ensures
        off / 0x20_0000 == (off + rest) / 0x20_0000,
        off < window <==> off + rest < window,
{
    let q = off / 0x20_0000;
    let r = off % 0x20_0000;
    assert(r % 4096 == 0);
    assert(r + rest < 0x20_0000);
}

#[verifier::spinoff_prover]
proof fn lemma_window_arith(base: int, v: int, window: int)
    requires
        0 <= base,
        0 <= v,
        base % 0x20_0000 == 0,
        window % 0x20_0000 == 0,
    ensures
        ({
            let n = v % 0x1_0000_0000_0000 / 4096;
            let off = (n * 4096 - base) % 0x1_0000_0000_0000;
            let exact = (v - base) % 0x1_0000_0000_0000;
            &&& 0 <= off <= exact < 0x1_0000_0000_0000
            &&& off / 0x20_0000 * 0x20_0000 + v % 0x20_0000 == exact
            &&& off < window <==> exact < window
        }),
{
    let b = base % 0x1_0000_0000_0000;
    let u = v % 0x1_0000_0000_0000;
    let n = u / 4096;
    let off = (n * 4096 - base) % 0x1_0000_0000_0000;
    let exact = (v - base) % 0x1_0000_0000_0000;
    lemma_wrapped_offset(base, v);
    lemma_wrapped_offset(base, n * 4096);
    lemma_large_mod(base);
    lemma_large_mod(v);
    lemma_window_steps(b, u, off, exact);
    lemma_same_large(off, u % 4096, window);
}

/// How the offset of an address and that of its page are related.
#[verifier::spinoff_prover]
proof fn lemma_window_steps(b: int, u: int, off: int, exact: int)
    requires
        0 <= u < 0x1_0000_0000_0000,
        0 <= b < 0x1_0000_0000_0000,
        b % 0x20_0000 == 0,
        off == if u / 4096 * 4096 % 0x1_0000_0000_0000 >= b {
            u / 4096 * 4096 % 0x1_0000_0000_0000 - b
        } else {
            u / 4096 * 4096 % 0x1_0000_0000_0000 - b + 0x1_0000_0000_0000
        },
        exact == if u >= b {
            u - b
        } else {
            u - b + 0x1_0000_0000_0000
        },
    ensures
        off % 4096 == 0,
        exact == off + u % 4096,
        exact % 0x20_0000 == u % 0x20_0000,
{
    let p = u / 4096;
    assert(p * 4096 % 0x1_0000_0000_0000 == p * 4096);
    let k = b / 0x20_0000;
    assert(b == k * 0x20_0000);
    assert(p * 4096 >= b <==> u >= b);
}

/// The entry of a window sends each address to its offset in the window.
proof fn lemma_window_translation(base: u64, window: int, v: u64)
    requires
        base % LARGE_PAGE == 0,
        0 <= window <= VA_SPAN,
        window % LARGE_PAGE as int == 0,
    ensures
        in_window(page_of(v), base, window) <==> (v - base) % (VA_SPAN as int) < window,
        in_window(page_of(v), base, window) ==> leaf_phys(
            1,
            window_entry(page_of(v), base, 0, PTE_PRESENT | PTE_WRITABLE),
        ) + v as int % LARGE_PAGE as int == (v - base) % VA_SPAN as int,
{
    reveal(math::rounded_down);
    let n = page_of(v);
    let off = window_offset(n, base);
    let down = math::rounded_down(off, LARGE_PAGE as int);
    lemma_window_arith(base as int, v as int, window);
    assert(off == (n * 4096 - base) % VA_SPAN as int) by {
        reveal(window_offset);
    }
    assert(3u64 & !0x8000_0000_0000_0087u64 == 0) by (bit_vector);
    lemma_window_flags();
    if off < window {
        lemma_large_entry(down as u64, 3);
    }
}

/// An address is canonical exactly when its upper 17 bits are all equal: it
/// lies in the lower or the upper 128 TiB of the address space.
pub proof fn law_canonical_is_sign_extension(va: u64)
    by (bit_vector)
    ensures
        canonical(va) <==> (va >> 47 == 0 || va >> 47 == 0x1ffff),
{
}

/// What stands in an entry: present, writable, user and huge are bits 0, 1, 2
/// and 7, and a set bit 63 forbids execution. The frame is named from bit 12
/// on.
pub proof fn law_entry_bits(e: u64)
    by (bit_vector)
    ensures
        present(e) <==> e % 2 == 1,
        write_ok(e) <==> (e / 2) % 2 == 1,
        user_ok(e) <==> (e / 4) % 2 == 1,
        huge(e) <==> (e / 0x80) % 2 == 1,
        exec_ok(e) <==> e < 0x8000_0000_0000_0000,
        frame_of(e) == (e / 4096) % 0x1_0000_0000,
        e & ADDR_MASK_4K == e % 0x10_0000_0000_0000 - e % 4096,
        e & ADDR_MASK_2M == e % 0x10_0000_0000_0000 - e % 0x20_0000,
        e & ADDR_MASK_1G == e % 0x10_0000_0000_0000 - e % 0x4000_0000,
{
}

/// A page of the 48-bit address space is 4 KiB, 2 MiB or 1 GiB, and starts
/// where the address bits of its entry say: those below bit 52, without those
/// that are the offset in the page.
pub proof fn law_entry_names_its_page(level: int, e: u64)
    requires
        0 <= level <= 2,
    ensures
        leaf_size(0) == 0x1000,
        leaf_size(1) == 0x20_0000,
        leaf_size(2) == 0x4000_0000,
        leaf_phys(level, e) == e % 0x10_0000_0000_0000 - e as int % leaf_size(level),
{
    law_entry_bits(e);
}

/// The indices on the path of a page are the digits of its number, with 512
/// entries in a table, and the page is where the address is: what is left of
/// the address is the offset in the page.
pub proof fn law_path_spells_the_page(va: u64)
    ensures
        ({
            let n = page_of(va);
            &&& 0 <= n < 0x10_0000_0000
            &&& n * 4096 + va % 4096 == va % 0x1_0000_0000_0000
            &&& n == ((index_of(n, 3) * 512 + index_of(n, 2)) * 512 + index_of(n, 1)) * 512
                + index_of(n, 0)
            &&& forall|l: int| 0 <= l <= 3 ==> 0 <= #[trigger] index_of(n, l) < 512
        }),
{
    let n = page_of(va);
    assert(va % VA_SPAN == va as int % 0x1_0000_0000_0000);
    assert(n / 512 / 512 == n / 0x4_0000);
    assert(n / 0x4_0000 / 512 == n / 0x800_0000);
}

/// A page anywhere in the lower or upper 128 TiB can be mapped to any frame of
/// RAM, and nothing else can be mapped.
pub proof fn law_every_page_can_be_mapped(pmm: Pmm, va: u64, pa: u64)
    ensures
        mappable(pmm, va, pa) <==> {
            &&& va >> 47 == 0 || va >> 47 == 0x1ffff
            &&& va % 4096 == 0
            &&& pa % 4096 == 0
            &&& pa as int / 4096 < pmm.frames().len()
        },
{
    law_canonical_is_sign_extension(va);
}

/// At most three tables are missing for a page.
pub proof fn law_three_tables_are_enough(ram: Seq<u64>, root: FrameIndex, n: int)
    ensures
        0 <= page_tree::missing(ram, root, n) <= 3,
        page_tree::missing(ram, root, n) > 0 ==> page_tree::walk(ram, root, n) is None,
{
    reveal(page_tree::walk);
}

/// The identity window and a physmap window in the upper half of the address
/// space can both be mapped, for as much RAM as there is room for.
pub proof fn law_upper_half_has_room_for_the_physmap(base: u64, window: int)
    requires
        base >= 0xffff_8000_0000_0000,
        base % 0x20_0000 == 0,
        0 <= window,
        base + window <= 0x1_0000_0000_0000_0000,
    ensures
        windows_fit(base, window),
{
    reveal(window_offset);
    assert forall|n: int| 0 <= n < PAGES && in_window(n, base, window) implies !#[trigger] in_window(
        n,
        0,
        window,
    ) by {
        let low = base - 0xffff_0000_0000_0000;
        let at = n * 4096;
        assert(window <= 0x8000_0000_0000);
        assert(window_offset(n, 0) == at);
        assert((at - base) % 0x1_0000_0000_0000 == (at - low) % 0x1_0000_0000_0000);
        if at < low {
            assert((at - low) % 0x1_0000_0000_0000 == at - low + 0x1_0000_0000_0000);
        }
    }
}

/// An address translates to the same offset in the page that its entry names,
/// whatever the size of the page, and does not translate where the walk ends
/// at no entry.
pub proof fn law_translation_keeps_the_offset(pt: PageTable, pmm: Pmm, va: u64)
    requires
        va >> 47 == 0 || va >> 47 == 0x1ffff,
    ensures
        pt.leaf(pmm, page_of(va)) is None ==> pt.translates(pmm, va) is None,
        pt.leaf(pmm, page_of(va)) matches Some((level, e)) ==> 0 <= level <= 2 && {
            let size = if level == 0 {
                0x1000int
            } else if level == 1 {
                0x20_0000
            } else {
                0x4000_0000
            };
            &&& pt.translates(pmm, va) == Some(
                e as int % 0x10_0000_0000_0000 - e as int % size + va as int % size,
            )
        },
{
    reveal(page_tree::walk);
    law_canonical_is_sign_extension(va);
    if pt.leaf(pmm, page_of(va)) is Some {
        let (level, e) = pt.leaf(pmm, page_of(va))->0;
        law_entry_names_its_page(level, e);
    }
}

/// An address that is not canonical translates to nothing.
pub proof fn law_only_canonical_addresses_translate(pt: PageTable, pmm: Pmm, va: u64)
    requires
        va >> 47 != 0 && va >> 47 != 0x1ffff,
    ensures
        pt.translates(pmm, va) is None,
{
    law_canonical_is_sign_extension(va);
}

/// Code may use a page as far as the entry that maps it says, and user code
/// only where every link on the way lets it.
pub proof fn law_access_goes_by_the_entry(pt: PageTable, pmm: Pmm, n: int)
    requires
        pt.wf(pmm),
        0 <= n < PAGES,
    ensures
        access(pt, pmm, n) is Some <==> pt.leaf(pmm, n) is Some,
        pt.leaf(pmm, n) matches Some((_, e)) ==> {
            &&& access(pt, pmm, n)->0.write <==> (e / 2) % 2 == 1
            &&& access(pt, pmm, n)->0.execute <==> e < 0x8000_0000_0000_0000
            &&& access(pt, pmm, n)->0.user ==> (e / 4) % 2 == 1
        },
{
    law_links_are_open(pt, pmm, n);
    if pt.leaf(pmm, n) is Some {
        law_entry_bits((pt.leaf(pmm, n)->0).1);
    }
}

} // verus!
