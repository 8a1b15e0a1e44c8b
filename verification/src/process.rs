//! Loading a program and starting it as a process.

use crate::allocator::{self, alloc_frame};
use crate::arch::{frame_phys, FRAME_SIZE, FRAME_WORDS};
use crate::frame::{self, FrameIndex, FrameInfo, FrameOwner, OwnerTag};
use crate::page_tree::{self, Nodes};
use crate::pmm::{self, Pmm};
use crate::sched::{self, free_slot, start_named, user_code_va, user_stack_top, Process, Scheduler};
use crate::text::{self, push_bytes, push_dec, push_hex, push_str};
use crate::vmm::{self, Flags, PageTable};
use vstd::prelude::*;

verus! {

/// Most bytes of code that fit below a process's stack.
pub const MAX_CODE: usize = 0x10_0000;

/// First page of process `pid`'s region.
pub open spec fn code_page(pid: u32) -> int {
    0x8_0000 + pid * 512
}

/// Page of process `pid`'s stack.
pub open spec fn stack_page(pid: u32) -> int {
    code_page(pid) + 256
}

/// Number of pages that `len` bytes of code take.
pub open spec fn code_pages(len: int) -> int {
    (len + 4095) / 4096
}

/// The flags of a process's pages: present, writable, user.
pub const USER_PAGE: u64 = 7;

/// The entry that maps frame `f` for a process.
pub open spec fn user_entry(f: FrameIndex) -> u64 {
    ((f * 4096) as u64) | USER_PAGE | vmm::PTE_PRESENT
}

/// What happened between `a` and `b` left alone every frame that was neither
/// free nor a table of the page table: it is not free and not a table now,
/// and holds the same words.
pub open spec fn untouched(a: Pmm, b: Pmm, before: Nodes, after: Nodes) -> bool {
    &&& b.frames().len() == a.frames().len()
    &&& b.ram_words().len() == a.ram_words().len()
    &&& forall|g: int| #[trigger]
        held(a, before, g) ==> held(b, after, g) && b.frames()[g] == a.frames()[g]
    &&& forall|g: int, j: int|
        held(a, before, g) && 0 <= j < 512 ==> #[trigger] b.ram_words()[g * FRAME_WORDS + j]
            == a.ram_words()[g * FRAME_WORDS + j]
}

/// Between `a` and `b` frames have been taken from the pool only: what is free
/// in `b` was free in `a`, with the same metadata.
pub open spec fn only_taken(a: Pmm, b: Pmm) -> bool {
    forall|g: int| #[trigger] b.free(g) ==> a.free(g) && b.frames()[g] == a.frames()[g]
}

/// The frames that have left the pool between `a` and `b` are those that came
/// first in it, in the order of allocation.
pub open spec fn taken_in_order(a: Pmm, b: Pmm) -> bool {
    let n = (a.free_count() - b.free_count()) as nat;
    &&& b.free_count() <= a.free_count()
    &&& b.pool().local == a.pool().take_heads(n).local
    &&& b.pool().global == a.pool().take_heads(n).global
}

proof fn lemma_taken_trans(a: Pmm, b: Pmm, c: Pmm)
    requires
        taken_in_order(a, b),
        taken_in_order(b, c),
    ensures
        taken_in_order(a, c),
{
    let m = (a.free_count() - b.free_count()) as nat;
    let n = (b.free_count() - c.free_count()) as nat;
    a.pool().lemma_take_heads_add(m, n);
    b.pool().lemma_same_lists(a.pool().take_heads(m), n);
}

/// Growing tables takes their frames from the pool in order.
proof fn lemma_grown_taken(a: Pmm, b: Pmm, before: Nodes, after: Nodes)
    requires
        page_tree::grown(a, b, before, after),
    ensures
        taken_in_order(a, b),
{
    reveal(page_tree::grown);
}

/// Frame `g` exists and is neither free nor a table.
pub open spec fn held(pmm: Pmm, tables: Nodes, g: int) -> bool {
    0 <= g < pmm.frames().len() && !pmm.free(g) && !page_tree::uses(tables, g)
}

pub(crate) proof fn lemma_untouched_trans(a: Pmm, b: Pmm, c: Pmm, n0: Nodes, n1: Nodes, n2: Nodes)
    requires
        untouched(a, b, n0, n1),
        untouched(b, c, n1, n2),
    ensures
        untouched(a, c, n0, n2),
{
    assert forall|g: int| #[trigger] held(a, n0, g) implies held(c, n2, g) && c.frames()[g]
        == a.frames()[g] by {
        assert(held(b, n1, g));
    }
    assert forall|g: int, j: int| held(a, n0, g) && 0 <= j < 512 implies #[trigger] c.ram_words()[g
        * FRAME_WORDS + j] == a.ram_words()[g * FRAME_WORDS + j] by {
        assert(held(b, n1, g));
        assert(b.ram_words()[g * FRAME_WORDS + j] == a.ram_words()[g * FRAME_WORDS + j]);
    }
}

/// Growing tables touches free frames and tables only.
pub(crate) proof fn lemma_grown_untouched(a: Pmm, b: Pmm, before: Nodes, after: Nodes)
    requires
        page_tree::grown(a, b, before, after),
        a.frames().len() * FRAME_WORDS <= a.ram_words().len(),
    ensures
        untouched(a, b, before, after),
        only_taken(a, b),
{
    reveal(page_tree::grown);
    FrameOwner::law_encoding_round_trip(OwnerTag::Kernel, 0);
    assert forall|g: int| #[trigger] b.free(g) implies a.free(g) && b.frames()[g]
        == a.frames()[g] by {
        assert(b.frames()[g] == b.frames()[g]);
    }
    assert forall|g: int| #[trigger] held(a, before, g) implies held(b, after, g)
        && b.frames()[g] == a.frames()[g] by {
        if page_tree::uses(after, g) {
            assert(a.free(g));
        }
        assert(b.frames()[g] == a.frames()[g]);
    }
    assert forall|g: int, j: int|
        held(a, before, g) && 0 <= j < 512 implies #[trigger] b.ram_words()[g * FRAME_WORDS + j]
        == a.ram_words()[g * FRAME_WORDS + j] by {
        assert((g * FRAME_WORDS + j) / FRAME_WORDS as int == g);
    }
}

/// Taking a frame out of the pool leaves every page table as it is: the frame
/// is none of its tables, and it maps each page as before.
pub proof fn law_allocation_keeps_tables(pt: PageTable, a: Pmm, b: Pmm, f: FrameIndex)
    requires
        pt.wf(a),
        a.wf(),
        a.free(f as int),
        b.frames() == a.frames().update(
            f as int,
            a.frames()[f as int].with_owner(FrameOwner::of(OwnerTag::Kernel, 0)),
        ),
        b.ram_words().len() == a.ram_words().len(),
        forall|i: int|
            0 <= i < a.ram_words().len() && !a.free(i / FRAME_WORDS as int)
                ==> #[trigger] b.ram_words()[i] == a.ram_words()[i],
    ensures
        pt.wf(b),
        !page_tree::uses(pt.tables(), f as int),
        untouched(a, b, pt.tables(), pt.tables()),
        only_taken(a, b),
        vmm::same_pages(pt, a, b),
{
    a.lemma_wf();
    FrameOwner::law_encoding_round_trip(OwnerTag::Kernel, 0);
    let nodes = pt.tables();
    assert forall|x: (int, int)| nodes.contains_key(x) implies (#[trigger] nodes[x]) != f
        && b.frames()[nodes[x] as int].owner() == FrameOwner::of(OwnerTag::Kernel, 0) && !a.free(
        nodes[x] as int,
    ) && nodes[x] < a.frames().len() by {
        page_tree::lemma_node(pt.root_frame(), nodes, a.ram_words(), a.frames(), x.0, x.1, 0);
    }
    assert forall|x: (int, int), j: int|
        nodes.contains_key(x) && 0 <= j < 512 implies #[trigger] page_tree::entry(
        b.ram_words(),
        nodes[x],
        j,
    ) == page_tree::entry(a.ram_words(), nodes[x], j) by {
        let w = nodes[x] as int * FRAME_WORDS + j;
        assert(w / FRAME_WORDS as int == nodes[x]);
        assert(b.ram_words()[w] == a.ram_words()[w]);
    }
    page_tree::lemma_tree_frame(
        pt.root_frame(),
        nodes,
        a.ram_words(),
        a.frames(),
        b.ram_words(),
        b.frames(),
    );
    assert forall|g: int, j: int|
        held(a, nodes, g) && 0 <= j < 512 implies #[trigger] b.ram_words()[g * FRAME_WORDS + j]
        == a.ram_words()[g * FRAME_WORDS + j] by {
        assert((g * FRAME_WORDS + j) / FRAME_WORDS as int == g);
    }
}

/// What happens to a frame that is not a table, and to its contents, leaves a
/// page table as it is.
pub(crate) proof fn lemma_other_frame(pt: PageTable, a: Pmm, b: Pmm, f: FrameIndex)
    requires
        pt.wf(a),
        !page_tree::uses(pt.tables(), f as int),
        b.frames().len() == a.frames().len(),
        b.ram_words().len() == a.ram_words().len(),
        forall|g: int|
            0 <= g < a.frames().len() && g != f ==> #[trigger] b.frames()[g] == a.frames()[g],
        forall|w: int|
            0 <= w < a.ram_words().len() && w / FRAME_WORDS as int != f
                ==> #[trigger] b.ram_words()[w] == a.ram_words()[w],
    ensures
        pt.wf(b),
        vmm::same_pages(pt, a, b),
{
    let nodes = pt.tables();
    assert forall|x: (int, int)| nodes.contains_key(x) implies (#[trigger] nodes[x]) != f
        && b.frames()[nodes[x] as int].owner() == FrameOwner::of(OwnerTag::Kernel, 0) && (nodes[x]
        + 1) * FRAME_WORDS <= a.ram_words().len() by {
        page_tree::lemma_node(pt.root_frame(), nodes, a.ram_words(), a.frames(), x.0, x.1, 0);
        assert(page_tree::uses(nodes, nodes[x] as int));
    }
    assert forall|x: (int, int), j: int|
        nodes.contains_key(x) && 0 <= j < 512 implies #[trigger] page_tree::entry(
        b.ram_words(),
        nodes[x],
        j,
    ) == page_tree::entry(a.ram_words(), nodes[x], j) by {
        let w = nodes[x] as int * FRAME_WORDS + j;
        assert(w / FRAME_WORDS as int == nodes[x]);
        assert(b.ram_words()[w] == a.ram_words()[w]);
    }
    page_tree::lemma_tree_frame(
        pt.root_frame(),
        nodes,
        a.ram_words(),
        a.frames(),
        b.ram_words(),
        b.frames(),
    );
}

/// Mapping a frame that is held leaves the other held frames alone.
pub(crate) proof fn lemma_mapped(a: Pmm, b: Pmm, before: Nodes, after: Nodes, f: FrameIndex)
    requires
        a.wf(),
        vmm::mapped_from(a, b, before, after, f),
        held(a, before, f as int),
    ensures
        held(b, after, f as int),
        b.frames()[f as int] == a.frames()[f as int].with_mappings(
            frame::wrapping_inc(a.frames()[f as int].mappings()),
        ),
        only_taken(a, b),
        taken_in_order(a, b),
        forall|g: int|
            #[trigger] held(a, before, g) && g != f ==> held(b, after, g) && b.frames()[g]
                == a.frames()[g],
        forall|g: int, j: int|
            held(a, before, g) && 0 <= j < 512 ==> #[trigger] b.ram_words()[g * FRAME_WORDS + j]
                == a.ram_words()[g * FRAME_WORDS + j],
        b.frames().len() == a.frames().len(),
        b.ram_words().len() == a.ram_words().len(),
{
    let mid = choose|mid: Pmm| #[trigger] vmm::mapped_between(a, mid, b, before, after, f);
    a.lemma_wf();
    lemma_grown_untouched(a, mid, before, after);
    assert(held(mid, after, f as int));
    assert forall|g: int| #[trigger] held(a, before, g) && g != f implies held(b, after, g)
        && b.frames()[g] == a.frames()[g] by {
        assert(held(mid, after, g));
    }
    assert forall|g: int| #[trigger] b.free(g) implies a.free(g) && b.frames()[g]
        == a.frames()[g] by {
        assert(mid.free(g));
    }
    lemma_grown_taken(a, mid, before, after);
    assert(b.free_set() =~= mid.free_set());
}

/// The metadata of a frame that was free with `info`, now that the kernel owns
/// it and it is mapped once more.
pub open spec fn mapped_once(info: FrameInfo) -> FrameInfo {
    info.with_owner(FrameOwner::of(OwnerTag::Kernel, 0)).with_mappings(
        frame::wrapping_inc(info.mappings()),
    )
}

/// Allocate a frame and map it at `va` for a process.
fn map_new_page(pmm: &mut Pmm, pt: &mut PageTable, va: u64) -> (r: Option<FrameIndex>)
    requires
        old(pmm).wf(),
        old(pt).wf(*old(pmm)),
        vmm::canonical(va),
        va % 4096 == 0,
    ensures
        final(pmm).wf(),
        final(pt).wf(*final(pmm)),
        final(pt).root_frame() == old(pt).root_frame(),
        r is Some <==> old(pt).leaf(*old(pmm), vmm::page_of(va)) is None && old(pmm).free_count()
            >= 1 + page_tree::missing(
            old(pmm).ram_words(),
            old(pt).root_frame(),
            vmm::page_of(va),
        ),
        untouched(*old(pmm), *final(pmm), old(pt).tables(), final(pt).tables()),
        only_taken(*old(pmm), *final(pmm)),
        taken_in_order(*old(pmm), *final(pmm)),
        vmm::user_paths_kept(*old(pt), *old(pmm), *final(pt), *final(pmm)),
        r is None && old(pt).leaf(*old(pmm), vmm::page_of(va)) is None ==> final(pmm).free_count()
            == 0,
        r is None ==> forall|n: int|
            0 <= n < vmm::PAGES ==> #[trigger] final(pt).leaf(*final(pmm), n) == old(pt).leaf(
                *old(pmm),
                n,
            ),
        r matches Some(f) ==> {
            &&& held(*final(pmm), final(pt).tables(), f as int)
            &&& old(pmm).free(f as int)
            &&& final(pmm).frames()[f as int] == mapped_once(old(pmm).frames()[f as int])
            &&& page_tree::user_path(
                final(pmm).ram_words(),
                final(pt).root_frame(),
                vmm::page_of(va),
            )
            &&& page_tree::on_path(final(pt).tables(), vmm::page_of(va), 0)
            &&& final(pmm).free_count() + 1 + page_tree::missing(
                old(pmm).ram_words(),
                old(pt).root_frame(),
                vmm::page_of(va),
            ) == old(pmm).free_count()
            &&& forall|n: int|
                0 <= n < vmm::PAGES ==> #[trigger] final(pt).leaf(*final(pmm), n) == (if n
                    == vmm::page_of(va) {
                    Some((0int, user_entry(f)))
                } else {
                    old(pt).leaf(*old(pmm), n)
                })
        },
{
    let ghost nodes0 = pt.tables();
    let ghost n = vmm::page_of(va);
    proof {
        pmm.lemma_wf();
        pmm.lemma_free_count();
        assert(page_tree::missing(pmm.ram_words(), pt.root_frame(), n) >= 0);
    }
    let f = match alloc_frame(pmm) {
        None => {
            proof {
                assert(pmm.free_set() =~= Set::empty());
                page_tree::lemma_grown_refl_wf(pt.root_frame(), nodes0, *pmm);
                lemma_grown_untouched(*pmm, *pmm, nodes0, nodes0);
                lemma_grown_taken(*pmm, *pmm, nodes0, nodes0);
            }
            return None;
        },
        Some(f) => f,
    };
    let ghost p1 = *pmm;
    proof {
        pmm.lemma_wf();
        law_allocation_keeps_tables(*pt, *old(pmm), p1, f);
        page_tree::lemma_walk(
            pt.root_frame(),
            nodes0,
            old(pmm).ram_words(),
            old(pmm).frames(),
            n,
        );
        page_tree::lemma_walk(pt.root_frame(), nodes0, p1.ram_words(), p1.frames(), n);
        assert(pt.leaf(p1, n) == pt.leaf(*old(pmm), n));
        assert(p1.free_count() + 1 == old(pmm).free_count()) by {
            allocator::law_free_count_steps(*old(pmm), p1, f, p1.frames()[f as int]);
            FrameOwner::law_encoding_round_trip(OwnerTag::Kernel, 0);
        }
        old(pmm).pool().lemma_take_one();
        assert(taken_in_order(*old(pmm), p1));
    }
    let flags = Flags::present().with(Flags::writable()).with(Flags::user());
    proof {
        assert((1u64 | 2u64) | 4u64 == 7u64 && 7u64 & 4u64 != 0) by (bit_vector);
    }
    let ghost pt1 = *pt;
    match pt.map(pmm, va, frame_phys(f), flags) {
        Err(e) => {
            proof {
                lemma_grown_untouched(p1, *pmm, nodes0, pt.tables());
                lemma_grown_taken(p1, *pmm, nodes0, pt.tables());
                lemma_taken_trans(*old(pmm), p1, *pmm);
                lemma_untouched_trans(*old(pmm), p1, *pmm, nodes0, nodes0, pt.tables());
                assert(pt1.leaf(p1, n) == old(pt).leaf(*old(pmm), n));
                assert forall|m: int| 0 <= m < vmm::PAGES implies #[trigger] pt.leaf(*pmm, m)
                    == old(pt).leaf(*old(pmm), m) by {
                    assert(pt1.leaf(p1, m) == old(pt).leaf(*old(pmm), m));
                }
                vmm::lemma_paths_kept_trans(*old(pt), *old(pmm), pt1, p1, *pt, *pmm);
            }
            None
        },
        Ok(()) => {
            proof {
                assert(pt1.leaf(p1, n) == old(pt).leaf(*old(pmm), n));
                assert(!p1.free(f as int)) by {
                    FrameOwner::law_encoding_round_trip(OwnerTag::Kernel, 0);
                }
                lemma_mapped(p1, *pmm, nodes0, pt.tables(), f);
                lemma_taken_trans(*old(pmm), p1, *pmm);
                assert(untouched(*old(pmm), *pmm, nodes0, pt.tables())) by {
                    assert forall|g: int| #[trigger] held(*old(pmm), nodes0, g) implies held(
                        *pmm,
                        pt.tables(),
                        g,
                    ) && pmm.frames()[g] == old(pmm).frames()[g] by {
                        assert(held(p1, nodes0, g));
                    }
                    assert forall|g: int, j: int|
                        held(*old(pmm), nodes0, g) && 0 <= j < 512 implies #[trigger] pmm.ram_words()[g
                        * FRAME_WORDS + j] == old(pmm).ram_words()[g * FRAME_WORDS + j] by {
                        assert(held(p1, nodes0, g));
                        assert(p1.ram_words()[g * FRAME_WORDS + j] == old(pmm).ram_words()[g
                            * FRAME_WORDS + j]);
                    }
                }
                assert(pt.leaf(*pmm, n) == Some((0int, user_entry(f))));
                page_tree::lemma_walk(
                    pt.root_frame(),
                    pt.tables(),
                    pmm.ram_words(),
                    pmm.frames(),
                    n,
                );
                assert forall|m: int| 0 <= m < vmm::PAGES implies #[trigger] pt.leaf(*pmm, m) == (
                if m == n {
                    Some((0int, user_entry(f)))
                } else {
                    old(pt).leaf(*old(pmm), m)
                }) by {
                    assert(pt1.leaf(p1, m) == old(pt).leaf(*old(pmm), m));
                }
                vmm::lemma_paths_kept_trans(*old(pt), *old(pmm), pt1, p1, *pt, *pmm);
            }
            Some(f)
        },
    }
}

/// Copy `n` bytes of `image`, from offset `from` on, into frame `f`.
fn copy_page(
    pmm: &mut Pmm,
    pt: &PageTable,
    f: FrameIndex,
    image: &[u8],
    from: usize,
    n: usize,
)
    requires
        old(pmm).wf(),
        pt.wf(*old(pmm)),
        held(*old(pmm), pt.tables(), f as int),
        old(pmm).frames()[f as int].owner() == FrameOwner::of(OwnerTag::Kernel, 0),
        n <= 4096,
        from + n <= image@.len(),
    ensures
        final(pmm).wf(),
        pt.wf(*final(pmm)),
        pmm::same_but_ram(*old(pmm), *final(pmm)),
        final(pmm).ram_words().len() == old(pmm).ram_words().len(),
        final(pmm).free_count() == old(pmm).free_count(),
        vmm::same_pages(*pt, *old(pmm), *final(pmm)),
        forall|w: int|
            0 <= w < old(pmm).ram_words().len() && w / FRAME_WORDS as int != f
                ==> #[trigger] final(pmm).ram_words()[w] == old(pmm).ram_words()[w],
        forall|o: int|
            0 <= o < n ==> #[trigger] pmm::byte_at(final(pmm).ram_words(), f, o) == image@[from
                + o],
{
    let total = image.len();
    let mut k: usize = 0;
    while k < n
        invariant
            k <= n <= 4096,
            from + n <= image@.len(),
            image@.len() == total,
            pmm.wf(),
            f < pmm.frames().len(),
            !pmm.free(f as int),
            pmm.frames()[f as int].owner() == FrameOwner::of(OwnerTag::Kernel, 0),
            pmm::same_but_ram(*old(pmm), *pmm),
            pmm.ram_words().len() == old(pmm).ram_words().len(),
            forall|w: int|
                0 <= w < old(pmm).ram_words().len() && w / FRAME_WORDS as int != f
                    ==> #[trigger] pmm.ram_words()[w] == old(pmm).ram_words()[w],
            forall|o: int|
                0 <= o < k ==> #[trigger] pmm::byte_at(pmm.ram_words(), f, o) == image@[from + o],
        decreases n - k,
    {
        pmm.write_byte(f, k, image[from + k]);
        k = k + 1;
    }
    proof {
        assert(pmm.free_set() =~= old(pmm).free_set());
        lemma_other_frame(*pt, *old(pmm), *pmm, f);
    }
}

/// The first bytes of frame `f` are those of page `k` of `image`.
pub open spec fn holds_page(ram: Seq<u64>, f: FrameIndex, image: Seq<u8>, k: int) -> bool {
    forall|o: int|
        0 <= o < 4096 && k * 4096 + o < image.len() ==> #[trigger] pmm::byte_at(ram, f, o)
            == image[k * 4096 + o]
}

/// The code of process `pid` is mapped, in the frames `code`, and holds
/// `image`.
pub open spec fn code_loaded(
    pt: PageTable,
    pmm: Pmm,
    pid: u32,
    image: Seq<u8>,
    code: Seq<FrameIndex>,
) -> bool {
    forall|k: int|
        0 <= k < code.len() ==> pt.leaf(pmm, code_page(pid) + k) == Some(
            (0int, user_entry(#[trigger] code[k])),
        ) && holds_page(pmm.ram_words(), code[k], image, k)
}

/// Process `pid` is mapped: its code in the frames `code`, its stack in the
/// frame `stack`.
pub open spec fn loaded(
    pt: PageTable,
    pmm: Pmm,
    pid: u32,
    image: Seq<u8>,
    code: Seq<FrameIndex>,
    stack: FrameIndex,
) -> bool {
    &&& code.len() == code_pages(image.len() as int)
    &&& code_loaded(pt, pmm, pid, image, code)
    &&& pt.leaf(pmm, stack_page(pid)) == Some((0int, user_entry(stack)))
}

/// Page `k` of process `pid`'s region is mapped to frame `f`, which is neither
/// free nor a table and holds that page of `image`, and is within the reach of
/// user code.
pub open spec fn own_page(
    pt: PageTable,
    pmm: Pmm,
    pid: u32,
    image: Seq<u8>,
    k: int,
    f: FrameIndex,
) -> bool {
    &&& pt.leaf(pmm, code_page(pid) + k) == Some((0int, user_entry(f)))
    &&& held(pmm, pt.tables(), f as int)
    &&& holds_page(pmm.ram_words(), f, image, k)
    &&& page_tree::user_path(pmm.ram_words(), pt.root_frame(), code_page(pid) + k)
}

/// Page `k` of process `pid`'s region has been mapped to frame `f`, which was
/// free, and the kernel owns it and counts the mapping.
pub open spec fn new_page(
    pmm0: Pmm,
    pt1: PageTable,
    pmm1: Pmm,
    pid: u32,
    image: Seq<u8>,
    k: int,
    f: FrameIndex,
) -> bool {
    &&& own_page(pt1, pmm1, pid, image, k, f)
    &&& pmm0.free(f as int)
    &&& pmm1.frames()[f as int] == mapped_once(pmm0.frames()[f as int])
}

/// Page `k` of process `pid`'s region is mapped now and was not before.
pub open spec fn newly_mapped(
    pt0: PageTable,
    pmm0: Pmm,
    pt1: PageTable,
    pmm1: Pmm,
    pid: u32,
    k: int,
) -> bool {
    pt0.leaf(pmm0, code_page(pid) + k) is None && pt1.leaf(pmm1, code_page(pid) + k) is Some
}

/// The pages of process `pid`'s region that have been mapped are mapped to
/// different frames.
pub open spec fn apart(
    pt0: PageTable,
    pmm0: Pmm,
    pt1: PageTable,
    pmm1: Pmm,
    pid: u32,
) -> bool {
    forall|k: int, l: int|
        0 <= k < 512 && 0 <= l < 512 && k != l && #[trigger] newly_mapped(
            pt0,
            pmm0,
            pt1,
            pmm1,
            pid,
            k,
        ) && #[trigger] newly_mapped(pt0, pmm0, pt1, pmm1, pid, l) ==> pt1.mapped_frame(
            pmm1,
            code_page(pid) + k,
        ) != pt1.mapped_frame(pmm1, code_page(pid) + l)
}

/// The frame behind an entry that maps it for a process.
proof fn lemma_user_entry(f: FrameIndex)
    ensures
        (vmm::leaf_phys(0, user_entry(f)) / 4096) as FrameIndex == f,
{
    let pa = (f * 4096) as u64;
    assert((pa | 7u64 | 1u64) & 0x000f_ffff_ffff_f000u64 == pa) by (bit_vector)
        requires
            pa % 4096 == 0,
            pa < 0x10_0000_0000_0000u64,
    ;
}

/// Page `k` of process `pid`'s region holds that page of `image`.
pub open spec fn page_loaded(pt: PageTable, pmm: Pmm, pid: u32, image: Seq<u8>, k: int) -> bool {
    exists|f: FrameIndex| #[trigger] own_page(pt, pmm, pid, image, k, f)
}

/// A process with `len` bytes of code uses page `k` of its region: for code,
/// or for its stack.
pub open spec fn process_page(len: int, k: int) -> bool {
    0 <= k < code_pages(len) || k == 256
}

/// What is mapped of process `pid`'s region was mapped for it and holds its
/// program.
pub open spec fn partly_loaded(pt: PageTable, pmm: Pmm, pid: u32, image: Seq<u8>) -> bool {
    forall|k: int|
        process_page(image.len() as int, k) && pt.leaf(pmm, code_page(pid) + k) is Some
            ==> #[trigger] page_loaded(pt, pmm, pid, image, k)
}

/// Page `k` of process `pid`'s region is mapped: as it was if it was, else to
/// a frame out of the pool that holds that page of `image`.
pub open spec fn page_done(
    pt0: PageTable,
    pmm0: Pmm,
    pt1: PageTable,
    pmm1: Pmm,
    pid: u32,
    image: Seq<u8>,
    k: int,
) -> bool {
    if pt0.leaf(pmm0, code_page(pid) + k) is Some {
        pt1.leaf(pmm1, code_page(pid) + k) == pt0.leaf(pmm0, code_page(pid) + k)
    } else {
        exists|f: FrameIndex| #[trigger] new_page(pmm0, pt1, pmm1, pid, image, k, f)
    }
}

/// Number of pages that are unmapped among the first `n` of process `pid`'s
/// region.
pub open spec fn unmapped(pt: PageTable, pmm: Pmm, pid: u32, n: int) -> nat
    decreases n,
{
    if n <= 0 {
        0
    } else if pt.leaf(pmm, code_page(pid) + n - 1) is None {
        unmapped(pt, pmm, pid, n - 1) + 1
    } else {
        unmapped(pt, pmm, pid, n - 1)
    }
}

/// Number of pages that are unmapped of those that process `pid` needs.
pub open spec fn pages_needed(pt: PageTable, pmm: Pmm, pid: u32, len: int) -> nat {
    unmapped(pt, pmm, pid, code_pages(len)) + if pt.leaf(pmm, stack_page(pid)) is None {
        1nat
    } else {
        0nat
    }
}

/// Number of frames that starting process `pid` takes: for the pages that are
/// unmapped and, if there are any, for the missing tables.
pub open spec fn frames_needed(pt: PageTable, pmm: Pmm, pid: u32, len: int) -> int {
    if pages_needed(pt, pmm, pid, len) == 0 {
        0
    } else {
        pages_needed(pt, pmm, pid, len) + page_tree::missing(
            pmm.ram_words(),
            pt.root_frame(),
            code_page(pid),
        )
    }
}

/// The pages of a process are under one table.
proof fn lemma_same_table(pid: u32, k: int, level: int)
    requires
        0 <= k < 512,
        0 <= level <= 3,
        pid < 16,
    ensures
        vmm::key_of(code_page(pid) + k, level) == vmm::key_of(code_page(pid), level),
        level > 0 ==> vmm::index_of(code_page(pid) + k, level) == vmm::index_of(
            code_page(pid),
            level,
        ),
        0 <= code_page(pid) + k < vmm::PAGES,
{
    let c = code_page(pid);
    assert((c + k) / 512 == c / 512);
    assert((c + k) / 0x4_0000 == (c + k) / 512 / 512);
    assert(c / 0x4_0000 == c / 512 / 512);
    assert((c + k) / 0x800_0000 == (c + k) / 0x4_0000 / 512);
    assert(c / 0x800_0000 == c / 0x4_0000 / 512);
}

/// The tables that are missing for a page of a process, if it is unmapped.
proof fn lemma_missing(pt: PageTable, pmm: Pmm, pid: u32, k: int)
    requires
        pt.wf(pmm),
        0 <= k < 512,
        pid < 16,
        pt.leaf(pmm, code_page(pid) + k) is None,
    ensures
        page_tree::missing(pmm.ram_words(), pt.root_frame(), code_page(pid) + k)
            == page_tree::missing(pmm.ram_words(), pt.root_frame(), code_page(pid)),
        page_tree::on_path(pt.tables(), code_page(pid), 0) ==> page_tree::missing(
            pmm.ram_words(),
            pt.root_frame(),
            code_page(pid) + k,
        ) == 0,
{
    let n = code_page(pid);
    lemma_same_table(pid, k, 0);
    lemma_same_table(pid, k, 1);
    lemma_same_table(pid, k, 2);
    lemma_same_table(pid, k, 3);
    lemma_same_table(pid, 0, 0);
    page_tree::lemma_walk(
        pt.root_frame(),
        pt.tables(),
        pmm.ram_words(),
        pmm.frames(),
        n + k,
    );
    page_tree::lemma_walk(pt.root_frame(), pt.tables(), pmm.ram_words(), pmm.frames(), n);
}

/// Address and number of a page of a process.
proof fn lemma_page_number(pid: u32, k: int)
    requires
        pid < 16,
        0 <= k < 512,
    ensures
        ({
            let va = (sched::PROC_BASE + pid * sched::PROC_STRIDE + k * 4096) as u64;
            &&& va == sched::PROC_BASE + pid * sched::PROC_STRIDE + k * 4096
            &&& vmm::page_of(va) == code_page(pid) + k
            &&& vmm::canonical(va)
            &&& va % 4096 == 0
        }),
{
}

/// What is in held frames stays there while other frames are written to.
proof fn lemma_page_kept(a: Seq<u64>, b: Seq<u64>, f: FrameIndex, image: Seq<u8>, k: int)
    requires
        holds_page(a, f, image, k),
        forall|j: int|
            0 <= j < 512 ==> #[trigger] b[f as int * FRAME_WORDS + j] == a[f as int * FRAME_WORDS
                + j],
    ensures
        holds_page(b, f, image, k),
{
    assert forall|o: int| 0 <= o < 4096 && k * 4096 + o < image.len() implies #[trigger] pmm::byte_at(
        b,
        f,
        o,
    ) == image[k * 4096 + o] by {
        assert(pmm::byte_at(a, f, o) == image[k * 4096 + o]);
        assert(b[f as int * FRAME_WORDS + o / 8] == a[f as int * FRAME_WORDS + o / 8]);
    }
}

/// A page that holds its part of a program does so as long as its frame is
/// left alone.
proof fn lemma_page_loaded_kept(
    pt0: PageTable,
    pmm0: Pmm,
    pt1: PageTable,
    pmm1: Pmm,
    pid: u32,
    image: Seq<u8>,
    k: int,
)
    requires
        page_loaded(pt0, pmm0, pid, image, k),
        untouched(pmm0, pmm1, pt0.tables(), pt1.tables()),
        vmm::user_paths_kept(pt0, pmm0, pt1, pmm1),
        pid < 16,
        0 <= k < 512,
        pt1.leaf(pmm1, code_page(pid) + k) == pt0.leaf(pmm0, code_page(pid) + k),
    ensures
        page_loaded(pt1, pmm1, pid, image, k),
{
    let f = choose|f: FrameIndex| #[trigger] own_page(pt0, pmm0, pid, image, k, f);
    lemma_own_page_kept(pt0, pmm0, pt1, pmm1, pid, image, k, f);
}

proof fn lemma_own_page_kept(
    pt0: PageTable,
    pmm0: Pmm,
    pt1: PageTable,
    pmm1: Pmm,
    pid: u32,
    image: Seq<u8>,
    k: int,
    f: FrameIndex,
)
    requires
        own_page(pt0, pmm0, pid, image, k, f),
        untouched(pmm0, pmm1, pt0.tables(), pt1.tables()),
        vmm::user_paths_kept(pt0, pmm0, pt1, pmm1),
        pid < 16,
        0 <= k < 512,
        pt1.leaf(pmm1, code_page(pid) + k) == pt0.leaf(pmm0, code_page(pid) + k),
    ensures
        own_page(pt1, pmm1, pid, image, k, f),
        pmm1.frames()[f as int] == pmm0.frames()[f as int],
{
    assert(held(pmm0, pt0.tables(), f as int));
    lemma_page_kept(pmm0.ram_words(), pmm1.ram_words(), f, image, k);
    lemma_same_table(pid, k, 0);
    assert(page_tree::user_path(pmm1.ram_words(), pt1.root_frame(), code_page(pid) + k));
}

/// Map page `k` of process `pid`'s region, unless it is mapped already, and
/// copy that page of `image` into it. False if there are not enough frames.
fn load_page(pmm: &mut Pmm, pt: &mut PageTable, pid: u32, image: &[u8], k: usize) -> (r: bool)
    requires
        old(pmm).wf(),
        old(pt).wf(*old(pmm)),
        pid < 16,
        k < 512,
        image@.len() <= MAX_CODE,
    ensures
        final(pmm).wf(),
        final(pt).wf(*final(pmm)),
        final(pt).root_frame() == old(pt).root_frame(),
        untouched(*old(pmm), *final(pmm), old(pt).tables(), final(pt).tables()),
        only_taken(*old(pmm), *final(pmm)),
        taken_in_order(*old(pmm), *final(pmm)),
        !r ==> final(pmm).free_count() == 0,
        vmm::user_paths_kept(*old(pt), *old(pmm), *final(pt), *final(pmm)),
        old(pt).leaf(*old(pmm), code_page(pid) + k) is Some ==> r && *final(pmm) == *old(pmm)
            && *final(pt) == *old(pt),
        old(pt).leaf(*old(pmm), code_page(pid) + k) is None ==> (r <==> old(pmm).free_count() >= 1
            + page_tree::missing(
            old(pmm).ram_words(),
            old(pt).root_frame(),
            code_page(pid) + k,
        )),
        r && old(pt).leaf(*old(pmm), code_page(pid) + k) is None ==> {
            &&& final(pmm).free_count() + 1 + page_tree::missing(
                old(pmm).ram_words(),
                old(pt).root_frame(),
                code_page(pid) + k,
            ) == old(pmm).free_count()
            &&& page_tree::on_path(final(pt).tables(), code_page(pid), 0)
        },
        r ==> page_done(*old(pt), *old(pmm), *final(pt), *final(pmm), pid, image@, k as int),
        forall|n: int|
            0 <= n < vmm::PAGES && (n != code_page(pid) + k || !r) ==> #[trigger] final(pt).leaf(
                *final(pmm),
                n,
            ) == old(pt).leaf(*old(pmm), n),
{
    let ghost c = code_page(pid);
    let ghost before = *pmm;
    let ghost ptb = *pt;
    let len = image.len();
    let va = user_code_va(pid) + k as u64 * FRAME_SIZE;
    proof {
        lemma_page_number(pid, k as int);
        lemma_same_table(pid, k as int, 0);
        lemma_same_table(pid, 0, 0);
        pmm.lemma_wf();
        page_tree::lemma_grown_refl_wf(pt.root_frame(), pt.tables(), *pmm);
        lemma_grown_untouched(*pmm, *pmm, pt.tables(), pt.tables());
        lemma_grown_taken(*pmm, *pmm, pt.tables(), pt.tables());
    }
    if pt.translate(pmm, va).is_some() {
        return true;
    }
    let f = match map_new_page(pmm, pt, va) {
        None => {
            return false;
        },
        Some(f) => f,
    };
    let ghost mid = *pmm;
    let ghost ptm = *pt;
    let from = if k * 4096 < len {
        k * 4096
    } else {
        len
    };
    let left = len - from;
    let n = if left < 4096 {
        left
    } else {
        4096
    };
    copy_page(pmm, pt, f, image, from, n);
    proof {
        assert(untouched(before, *pmm, ptb.tables(), pt.tables())) by {
            assert forall|g: int| #[trigger] held(before, ptb.tables(), g) implies held(
                *pmm,
                pt.tables(),
                g,
            ) && pmm.frames()[g] == before.frames()[g] by {
                assert(held(mid, ptm.tables(), g));
            }
            assert forall|g: int, j: int|
                held(before, ptb.tables(), g) && 0 <= j < 512 implies #[trigger] pmm.ram_words()[g
                * FRAME_WORDS + j] == before.ram_words()[g * FRAME_WORDS + j] by {
                assert(g != f);
                mid.lemma_wf();
                assert((g * FRAME_WORDS + j) / FRAME_WORDS as int == g);
                assert(mid.ram_words()[g * FRAME_WORDS + j] == before.ram_words()[g * FRAME_WORDS
                    + j]);
            }
        }
        assert(holds_page(pmm.ram_words(), f, image@, k as int)) by {
            assert forall|o: int|
                0 <= o < 4096 && k * 4096 + o < image@.len() implies #[trigger] pmm::byte_at(
                pmm.ram_words(),
                f,
                o,
            ) == image@[k * 4096 + o] by {
                assert(o < n);
            }
        }
        assert(pt.leaf(*pmm, c + k) == ptm.leaf(mid, c + k));
        assert(held(*pmm, pt.tables(), f as int));
        assert(page_tree::user_path(pmm.ram_words(), pt.root_frame(), c + k));
        assert(own_page(*pt, *pmm, pid, image@, k as int, f));
        assert(new_page(before, *pt, *pmm, pid, image@, k as int, f));
        assert forall|g: int| #[trigger] pmm.free(g) implies before.free(g) && pmm.frames()[g]
            == before.frames()[g] by {
            assert(mid.free(g));
        }
        vmm::lemma_paths_kept_trans(ptb, before, ptm, mid, *pt, *pmm);
        assert forall|m: int| 0 <= m < vmm::PAGES && m != c + k implies #[trigger] pt.leaf(*pmm, m)
            == ptb.leaf(before, m) by {
            assert(ptm.leaf(mid, m) == ptb.leaf(before, m));
        }
    }
    true
}

/// The state in which the pages up to number `i` of process `pid`'s region are
/// loaded, and `u` of them were not mapped before.
spec fn loading(
    pt0: PageTable,
    p0: Pmm,
    pt: PageTable,
    pmm: Pmm,
    pid: u32,
    image: Seq<u8>,
    i: int,
    u: nat,
) -> bool {
    &&& pmm.wf()
    &&& pt.wf(pmm)
    &&& pt.root_frame() == pt0.root_frame()
    &&& untouched(p0, pmm, pt0.tables(), pt.tables())
    &&& only_taken(p0, pmm)
    &&& taken_in_order(p0, pmm)
    &&& vmm::user_paths_kept(pt0, p0, pt, pmm)
    &&& apart(pt0, p0, pt, pmm, pid)
    &&& u == 0 ==> pmm == p0 && pt == pt0
    &&& u > 0 ==> pmm.free_count() + u + page_tree::missing(
        p0.ram_words(),
        pt0.root_frame(),
        code_page(pid),
    ) == p0.free_count() && page_tree::on_path(pt.tables(), code_page(pid), 0)
    &&& forall|k: int| 0 <= k < i ==> #[trigger] page_done(pt0, p0, pt, pmm, pid, image, k)
    &&& forall|n: int|
        0 <= n < vmm::PAGES && !(code_page(pid) <= n < code_page(pid) + i) ==> #[trigger] pt.leaf(
            pmm,
            n,
        ) == pt0.leaf(p0, n)
}

/// One more page, number `j`, has been loaded, or could not be.
proof fn lemma_loading(
    pt0: PageTable,
    p0: Pmm,
    pta: PageTable,
    a: Pmm,
    ptb: PageTable,
    b: Pmm,
    pid: u32,
    image: Seq<u8>,
    i: int,
    u: nat,
    j: int,
    r: bool,
)
    requires
        pt0.wf(p0),
        pid < 16,
        0 <= i <= j < 512,
        loading(pt0, p0, pta, a, pid, image, i, u),
        b.wf(),
        ptb.wf(b),
        ptb.root_frame() == pta.root_frame(),
        untouched(a, b, pta.tables(), ptb.tables()),
        only_taken(a, b),
        taken_in_order(a, b),
        vmm::user_paths_kept(pta, a, ptb, b),
        pta.leaf(a, code_page(pid) + j) is Some ==> r && b == a && ptb == pta,
        pta.leaf(a, code_page(pid) + j) is None ==> (r <==> a.free_count() >= 1
            + page_tree::missing(a.ram_words(), pta.root_frame(), code_page(pid) + j)),
        r && pta.leaf(a, code_page(pid) + j) is None ==> b.free_count() + 1 + page_tree::missing(
            a.ram_words(),
            pta.root_frame(),
            code_page(pid) + j,
        ) == a.free_count() && page_tree::on_path(ptb.tables(), code_page(pid), 0),
        r ==> page_done(pta, a, ptb, b, pid, image, j),
        forall|n: int|
            0 <= n < vmm::PAGES && (n != code_page(pid) + j || !r) ==> #[trigger] ptb.leaf(b, n)
                == pta.leaf(a, n),
    ensures
        untouched(p0, b, pt0.tables(), ptb.tables()),
        only_taken(p0, b),
        taken_in_order(p0, b),
        vmm::user_paths_kept(pt0, p0, ptb, b),
        apart(pt0, p0, ptb, b, pid),
        ({
            let next = if pt0.leaf(p0, code_page(pid) + j) is None {
                (u + 1) as nat
            } else {
                u
            };
            let need = next + page_tree::missing(
                p0.ram_words(),
                pt0.root_frame(),
                code_page(pid),
            );
            &&& r <==> pt0.leaf(p0, code_page(pid) + j) is Some || p0.free_count() >= need
            &&& r && j == i ==> loading(pt0, p0, ptb, b, pid, image, i + 1, next)
            &&& r && next == 0 ==> b == p0 && ptb == pt0
            &&& r && next > 0 ==> b.free_count() + need == p0.free_count()
        }),
        r ==> page_done(pt0, p0, ptb, b, pid, image, j),
        forall|k: int| 0 <= k < i ==> #[trigger] page_done(pt0, p0, ptb, b, pid, image, k),
        forall|n: int|
            0 <= n < vmm::PAGES && !(code_page(pid) <= n < code_page(pid) + i) && n != code_page(
                pid,
            ) + j ==> #[trigger] ptb.leaf(b, n) == pt0.leaf(p0, n),
        !r ==> ptb.leaf(b, code_page(pid) + j) == pt0.leaf(p0, code_page(pid) + j),
{
    let c = code_page(pid);
    lemma_same_table(pid, j, 0);
    assert(pta.leaf(a, c + j) == pt0.leaf(p0, c + j));
    lemma_untouched_trans(p0, a, b, pt0.tables(), pta.tables(), ptb.tables());
    lemma_taken_trans(p0, a, b);
    assert(page_tree::missing(p0.ram_words(), pt0.root_frame(), c) >= 0);
    if pt0.leaf(p0, c + j) is None {
        lemma_missing(pt0, p0, pid, j);
        lemma_missing(pta, a, pid, j);
    }
    assert forall|k: int| 0 <= k < i implies #[trigger] page_done(
        pt0,
        p0,
        ptb,
        b,
        pid,
        image,
        k,
    ) by {
        lemma_same_table(pid, k, 0);
        assert(page_done(pt0, p0, pta, a, pid, image, k));
        assert(ptb.leaf(b, c + k) == pta.leaf(a, c + k));
        if pt0.leaf(p0, c + k) is None {
            let f = choose|f: FrameIndex| #[trigger] new_page(p0, pta, a, pid, image, k, f);
            lemma_own_page_kept(pta, a, ptb, b, pid, image, k, f);
            assert(new_page(p0, ptb, b, pid, image, k, f));
        }
    }
    assert forall|g: int| #[trigger] b.free(g) implies p0.free(g) && b.frames()[g]
        == p0.frames()[g] by {
        assert(a.free(g));
    }
    assert forall|n: int| 0 <= n < vmm::PAGES && pt0.leaf(p0, n) is Some implies (
    #[trigger] pta.leaf(a, n)) is Some by {
        if c <= n < c + i {
            assert(page_done(pt0, p0, pta, a, pid, image, n - c));
        }
    }
    vmm::lemma_paths_kept_trans(pt0, p0, pta, a, ptb, b);
    if r && pt0.leaf(p0, c + j) is None {
        let f = choose|f: FrameIndex| #[trigger] new_page(a, ptb, b, pid, image, j, f);
        assert(a.free(f as int));
        assert(new_page(p0, ptb, b, pid, image, j, f));
        lemma_user_entry(f);
        assert(ptb.mapped_frame(b, c + j) == f);
        assert forall|k: int|
            0 <= k < 512 && k != j && newly_mapped(pt0, p0, ptb, b, pid, k) implies
            #[trigger] ptb.mapped_frame(b, c + k) != f by {
            lemma_same_table(pid, k, 0);
            assert(ptb.leaf(b, c + k) == pta.leaf(a, c + k));
            assert(k < i);
            assert(page_done(pt0, p0, pta, a, pid, image, k));
            let g = choose|g: FrameIndex| #[trigger] new_page(p0, pta, a, pid, image, k, g);
            lemma_user_entry(g);
            assert(held(a, pta.tables(), g as int));
        }
    }
    assert(apart(pt0, p0, ptb, b, pid)) by {
        assert forall|k: int, l: int|
            0 <= k < 512 && 0 <= l < 512 && k != l && #[trigger] newly_mapped(
                pt0,
                p0,
                ptb,
                b,
                pid,
                k,
            ) && #[trigger] newly_mapped(pt0, p0, ptb, b, pid, l) implies ptb.mapped_frame(
            b,
            c + k,
        ) != ptb.mapped_frame(b, c + l) by {
            lemma_same_table(pid, k, 0);
            lemma_same_table(pid, l, 0);
            if k != j && l != j {
                assert(ptb.leaf(b, c + k) == pta.leaf(a, c + k));
                assert(ptb.leaf(b, c + l) == pta.leaf(a, c + l));
                assert(newly_mapped(pt0, p0, pta, a, pid, k));
                assert(newly_mapped(pt0, p0, pta, a, pid, l));
            } else if !r {
                assert(ptb.leaf(b, c + k) == pta.leaf(a, c + k));
                assert(ptb.leaf(b, c + l) == pta.leaf(a, c + l));
                assert(false);
            }
        }
    }
    assert forall|n: int|
        0 <= n < vmm::PAGES && !(c <= n < c + i) && n != c + j implies #[trigger] ptb.leaf(b, n)
        == pt0.leaf(p0, n) by {
        assert(ptb.leaf(b, n) == pta.leaf(a, n));
    }
}

/// Map the pages of process `pid` that are unmapped and copy its code into
/// them. False if there are not enough frames.
fn load_program(pmm: &mut Pmm, pt: &mut PageTable, pid: u32, image: &[u8]) -> (r: bool)
    requires
        old(pmm).wf(),
        old(pt).wf(*old(pmm)),
        pid < 16,
        image@.len() <= MAX_CODE,
    ensures
        final(pmm).wf(),
        final(pt).wf(*final(pmm)),
        final(pt).root_frame() == old(pt).root_frame(),
        untouched(*old(pmm), *final(pmm), old(pt).tables(), final(pt).tables()),
        only_taken(*old(pmm), *final(pmm)),
        taken_in_order(*old(pmm), *final(pmm)),
        !r ==> final(pmm).free_count() == 0,
        vmm::user_paths_kept(*old(pt), *old(pmm), *final(pt), *final(pmm)),
        apart(*old(pt), *old(pmm), *final(pt), *final(pmm), pid),
        ({
            let need = frames_needed(*old(pt), *old(pmm), pid, image@.len() as int);
            &&& r <==> old(pmm).free_count() >= need
            &&& r ==> final(pmm).free_count() + need == old(pmm).free_count()
            &&& need == 0 ==> *final(pmm) == *old(pmm) && *final(pt) == *old(pt)
        }),
        r ==> forall|k: int|
            process_page(image@.len() as int, k) ==> #[trigger] page_done(
                *old(pt),
                *old(pmm),
                *final(pt),
                *final(pmm),
                pid,
                image@,
                k,
            ),
        region_kept(*old(pt), *old(pmm), *final(pt), *final(pmm), pid, image@),
{
    let ghost c = code_page(pid);
    let ghost p0 = *pmm;
    let ghost pt0 = *pt;
    let len = image.len();
    let pages = (len + 4095) / 4096;
    proof {
        page_tree::lemma_grown_refl_wf(pt.root_frame(), pt.tables(), *pmm);
        pmm.lemma_wf();
        lemma_grown_untouched(*pmm, *pmm, pt.tables(), pt.tables());
        lemma_grown_taken(*pmm, *pmm, pt.tables(), pt.tables());
        assert(page_tree::missing(p0.ram_words(), pt0.root_frame(), c) >= 0);
    }
    let mut i: usize = 0;
    while i < pages
        invariant
            p0 == *old(pmm),
            pt0 == *old(pt),
            pt0.wf(p0),
            c == code_page(pid),
            pid < 16,
            len == image@.len() <= MAX_CODE,
            pages == code_pages(len as int) <= 256,
            i <= pages,
            loading(
                pt0,
                p0,
                *pt,
                *pmm,
                pid,
                image@,
                i as int,
                unmapped(pt0, p0, pid, i as int),
            ),
        decreases pages - i,
    {
        let ghost a = *pmm;
        let ghost pta = *pt;
        let r = load_page(pmm, pt, pid, image, i);
        proof {
            lemma_loading(
                pt0,
                p0,
                pta,
                a,
                *pt,
                *pmm,
                pid,
                image@,
                i as int,
                unmapped(pt0, p0, pid, i as int),
                i as int,
                r,
            );
        }
        if !r {
            proof {
                lemma_unmapped_mono(pt0, p0, pid, i + 1, pages as int);
                lemma_region_kept(pt0, p0, *pt, *pmm, pid, image@, i as int, i as int);
            }
            return false;
        }
        i = i + 1;
    }
    let ghost a = *pmm;
    let ghost pta = *pt;
    let r = load_page(pmm, pt, pid, image, 256);
    proof {
        lemma_loading(
            pt0,
            p0,
            pta,
            a,
            *pt,
            *pmm,
            pid,
            image@,
            pages as int,
            unmapped(pt0, p0, pid, pages as int),
            256,
            r,
        );
        lemma_region_kept(pt0, p0, *pt, *pmm, pid, image@, pages as int, 256);
    }
    r
}

/// Every page of process `pid`'s region that was mapped is as it was, and
/// every one that was not is unmapped still or holds its part of `image`; all
/// pages outside the region are as they were.
pub open spec fn region_kept(
    pt0: PageTable,
    pmm0: Pmm,
    pt1: PageTable,
    pmm1: Pmm,
    pid: u32,
    image: Seq<u8>,
) -> bool {
    &&& forall|k: int|
        0 <= k < 512 ==> pt1.leaf(pmm1, code_page(pid) + k) is None && pt0.leaf(
            pmm0,
            code_page(pid) + k,
        ) is None || #[trigger] page_done(pt0, pmm0, pt1, pmm1, pid, image, k)
    &&& forall|n: int|
        0 <= n < vmm::PAGES && !(code_page(pid) <= n < code_page(pid) + 512)
            ==> #[trigger] pt1.leaf(pmm1, n) == pt0.leaf(pmm0, n)
}

proof fn lemma_region_kept(
    pt0: PageTable,
    pmm0: Pmm,
    pt1: PageTable,
    pmm1: Pmm,
    pid: u32,
    image: Seq<u8>,
    i: int,
    j: int,
)
    requires
        pid < 16,
        0 <= i <= j < 512,
        forall|k: int| 0 <= k < i ==> #[trigger] page_done(pt0, pmm0, pt1, pmm1, pid, image, k),
        page_done(pt0, pmm0, pt1, pmm1, pid, image, j) || pt1.leaf(pmm1, code_page(pid) + j)
            == pt0.leaf(pmm0, code_page(pid) + j),
        forall|n: int|
            0 <= n < vmm::PAGES && !(code_page(pid) <= n < code_page(pid) + i) && n != code_page(
                pid,
            ) + j ==> #[trigger] pt1.leaf(pmm1, n) == pt0.leaf(pmm0, n),
    ensures
        region_kept(pt0, pmm0, pt1, pmm1, pid, image),
{
    let c = code_page(pid);
    assert forall|k: int| 0 <= k < 512 implies pt1.leaf(pmm1, c + k) is None && pt0.leaf(
        pmm0,
        c + k,
    ) is None || #[trigger] page_done(pt0, pmm0, pt1, pmm1, pid, image, k) by {
        lemma_same_table(pid, k, 0);
        if k >= i && k != j {
            assert(pt1.leaf(pmm1, c + k) == pt0.leaf(pmm0, c + k));
        }
    }
}

proof fn lemma_unmapped_mono(pt: PageTable, pmm: Pmm, pid: u32, m: int, n: int)
    requires
        m <= n,
    ensures
        unmapped(pt, pmm, pid, m) <= unmapped(pt, pmm, pid, n),
    decreases n - m,
{
    if m < n {
        lemma_unmapped_mono(pt, pmm, pid, m, n - 1);
    }
}

/// Where what was mapped already holds the program, all of the process is
/// mapped and loaded.
proof fn lemma_loaded(
    pt0: PageTable,
    pmm0: Pmm,
    pt1: PageTable,
    pmm1: Pmm,
    pid: u32,
    image: Seq<u8>,
)
    requires
        partly_loaded(pt0, pmm0, pid, image),
        pid < 16,
        image.len() <= MAX_CODE,
        untouched(pmm0, pmm1, pt0.tables(), pt1.tables()),
        vmm::user_paths_kept(pt0, pmm0, pt1, pmm1),
        forall|k: int|
            process_page(image.len() as int, k) ==> #[trigger] page_done(
                pt0,
                pmm0,
                pt1,
                pmm1,
                pid,
                image,
                k,
            ),
    ensures
        exists|code: Seq<FrameIndex>, stack: FrameIndex| #[trigger]
            loaded(pt1, pmm1, pid, image, code, stack),
{
    let n = code_pages(image.len() as int);
    assert forall|k: int| process_page(image.len() as int, k) implies #[trigger] page_loaded(
        pt1,
        pmm1,
        pid,
        image,
        k,
    ) by {
        assert(page_done(pt0, pmm0, pt1, pmm1, pid, image, k));
        if pt0.leaf(pmm0, code_page(pid) + k) is Some {
            assert(page_loaded(pt0, pmm0, pid, image, k));
            lemma_page_loaded_kept(pt0, pmm0, pt1, pmm1, pid, image, k);
        } else {
            let f = choose|f: FrameIndex| #[trigger] new_page(pmm0, pt1, pmm1, pid, image, k, f);
            assert(own_page(pt1, pmm1, pid, image, k, f));
        }
    }
    let code = Seq::new(
        n as nat,
        |k: int| choose|f: FrameIndex| #[trigger] own_page(pt1, pmm1, pid, image, k, f),
    );
    assert forall|k: int| 0 <= k < code.len() implies own_page(
        pt1,
        pmm1,
        pid,
        image,
        k,
        #[trigger] code[k],
    ) by {
        assert(page_loaded(pt1, pmm1, pid, image, k));
    }
    assert(page_loaded(pt1, pmm1, pid, image, 256));
    let stack = choose|f: FrameIndex| #[trigger] own_page(pt1, pmm1, pid, image, 256, f);
    assert(loaded(pt1, pmm1, pid, image, code, stack));
}

/// Slot `pid` is the first that does not hold a live process.
pub open spec fn is_free_slot(table: Seq<Process>, pid: u32) -> bool {
    &&& 1 <= pid < 16
    &&& !table[pid as int].live()
    &&& forall|i: int| 1 <= i < pid ==> (#[trigger] table[i]).live()
}

/// Process `pid` can be started: there are frames for what is not mapped of
/// its region (a killed process leaves its slot without freeing frames, and
/// its image is still there).
pub open spec fn startable(pt: PageTable, pmm: Pmm, pid: u32, len: int) -> bool {
    pmm.free_count() >= frames_needed(pt, pmm, pid, len)
}

/// What spawning does: from `pmm0`, `pt0` and `sched0` to `pmm1`, `pt1` and
/// `sched1`, with result `r`.
pub open spec fn spawned(
    pmm0: Pmm,
    pt0: PageTable,
    sched0: Scheduler,
    name: Seq<u8>,
    image: Seq<u8>,
    pmm1: Pmm,
    pt1: PageTable,
    sched1: Scheduler,
    r: Option<u32>,
) -> bool {
    &&& pmm1.wf()
    &&& pt1.wf(pmm1)
    &&& pt1.root_frame() == pt0.root_frame()
    &&& sched1.wf()
    &&& untouched(pmm0, pmm1, pt0.tables(), pt1.tables())
    &&& only_taken(pmm0, pmm1)
    &&& taken_in_order(pmm0, pmm1)
    &&& vmm::user_paths_kept(pt0, pmm0, pt1, pmm1)
    &&& r is None ==> sched1 == sched0
    &&& (forall|i: int| 1 <= i < 16 ==> (#[trigger] sched0.table()[i]).live()) ==> r is None && pmm1
        == pmm0 && pt1 == pt0
    &&& forall|pid: u32| #[trigger]
        is_free_slot(sched0.table(), pid) ==> {
            &&& r is Some <==> startable(pt0, pmm0, pid, image.len() as int)
            &&& r is Some ==> r == Some(pid)
            &&& r is None ==> pmm1.free_count() == 0
            &&& r is Some ==> pmm1.free_count() + frames_needed(
                pt0,
                pmm0,
                pid,
                image.len() as int,
            ) == pmm0.free_count()
            &&& frames_needed(pt0, pmm0, pid, image.len() as int) == 0 ==> pmm1 == pmm0
            &&& region_kept(pt0, pmm0, pt1, pmm1, pid, image)
            &&& apart(pt0, pmm0, pt1, pmm1, pid)
            &&& r is Some ==> forall|k: int|
                process_page(image.len() as int, k) ==> #[trigger] page_done(
                    pt0,
                    pmm0,
                    pt1,
                    pmm1,
                    pid,
                    image,
                    k,
                )
            &&& r is Some && partly_loaded(pt0, pmm0, pid, image) ==> exists|
                code: Seq<FrameIndex>,
                stack: FrameIndex,
            | #[trigger]
                loaded(pt1, pmm1, pid, image, code, stack)
        }
    &&& r matches Some(pid) ==> {
        let p = sched1.table()[pid as int];
        &&& is_free_slot(sched0.table(), pid)
        &&& p.pid == pid
        &&& p.state == sched::State::Ready
        &&& p.kernel_stack_top == sched0.kstack_top(pid as int)
        &&& p.ctx == sched0.kstack_top(pid as int) - 192
        &&& p.name@ == sched::stored_name(name)
        &&& sched1.frame_words(p.ctx as int) == sched::initial_frame(
            pid,
            (sched::PROC_BASE + pid * sched::PROC_STRIDE) as u64,
        ).words()
        &&& sched1.cur() == sched0.cur()
        &&& sched1.enabled() == sched0.enabled()
        &&& sched1.kstacks_at() == sched0.kstacks_at()
        &&& forall|w: int|
            0 <= w < 16 * 2048 && !(p.ctx <= sched0.kstacks_at() + w * 8 < p.ctx
                + sched::FRAME_BYTES) ==> #[trigger] sched1.kstack_words()[w]
                == sched0.kstack_words()[w]
        &&& forall|i: int|
            0 <= i < 16 && i != pid ==> #[trigger] sched1.table()[i] == sched0.table()[i]
    }
}

/// Spawn a ring-3 process running the program `image`, mapped into its private
/// 2 MiB region (`user_code_va`/`user_stack_top`). Returns the pid, or `None`
/// if the table is full or a frame cannot be allocated. Call with interrupts
/// disabled, so that a tick can never observe a half-registered process.
pub fn spawn_process(
    pmm: &mut Pmm,
    pt: &mut PageTable,
    sched: &mut Scheduler,
    name: &[u8],
    image: &[u8],
) -> (r: Option<u32>)
    requires
        old(pmm).wf(),
        old(pt).wf(*old(pmm)),
        old(sched).wf(),
        image@.len() <= MAX_CODE,
    ensures
        spawned(
            *old(pmm),
            *old(pt),
            *old(sched),
            name@,
            image@,
            *final(pmm),
            *final(pt),
            *final(sched),
            r,
        ),
{
    proof {
        pmm.lemma_wf();
        page_tree::lemma_grown_refl_wf(pt.root_frame(), pt.tables(), *pmm);
        lemma_grown_untouched(*pmm, *pmm, pt.tables(), pt.tables());
        lemma_grown_taken(*pmm, *pmm, pt.tables(), pt.tables());
    }
    let pid = match free_slot(sched) {
        None => {
            assert forall|p: u32| !#[trigger] is_free_slot(sched.table(), p) by {
                if is_free_slot(sched.table(), p) {
                    assert(sched.table()[p as int].live());
                }
            }
            return None;
        },
        Some(pid) => pid,
    };
    proof {
        assert(is_free_slot(sched.table(), pid));
        assert forall|p: u32| #[trigger] is_free_slot(sched.table(), p) implies p == pid by {
            if p < pid {
                assert(sched.table()[p as int].live());
            } else if pid < p {
                assert(sched.table()[pid as int].live());
            }
        }
        lemma_page_number(pid, 0);
    }
    let code_va = user_code_va(pid);
    if !load_program(pmm, pt, pid, image) {
        return None;
    }
    proof {
        if partly_loaded(*old(pt), *old(pmm), pid, image@) {
            lemma_loaded(*old(pt), *old(pmm), *pt, *pmm, pid, image@);
        }
    }
    start_named(sched, pid, code_va, name);
    Some(pid)
}

/// What is said of a spawned process.
pub open spec fn spawn_notice_spec(pid: u32, name: Seq<u8>) -> Seq<u8> {
    text::text("spawned pid "@) + text::dec(pid as int) + text::text(" ('"@) + name + text::text(
        "') at "@,
    ) + text::hex(sched::PROC_BASE + pid * sched::PROC_STRIDE) + text::text(", stack "@)
        + text::hex(
        sched::PROC_BASE + pid * sched::PROC_STRIDE + sched::PROC_STACK_OFFSET,
    ) + text::text("\n"@)
}

/// What is said of a spawned process: its number, its name and where its code
/// and stack are.
pub fn spawn_notice(pid: u32, name: &[u8]) -> (r: Vec<u8>)
    ensures
        r@ == spawn_notice_spec(pid, name@),
{
    let mut out: Vec<u8> = Vec::new();
    push_str(&mut out, "spawned pid ");
    assert(out@ =~= text::text("spawned pid "@));
    push_dec(&mut out, pid as u64);
    push_str(&mut out, " ('");
    push_bytes(&mut out, name);
    push_str(&mut out, "') at ");
    push_hex(&mut out, user_code_va(pid));
    push_str(&mut out, ", stack ");
    push_hex(&mut out, user_stack_top(pid) - FRAME_SIZE);
    push_str(&mut out, "\n");
    out
}

/// Spawning a process leaves those that run already as they are: their pages
/// stay mapped to the same frames, the frames hold the same bytes, and what
/// was within the reach of user code still is.
pub proof fn law_spawning_leaves_others_loaded(
    pmm0: Pmm,
    pt0: PageTable,
    sched0: Scheduler,
    name: Seq<u8>,
    image: Seq<u8>,
    pmm1: Pmm,
    pt1: PageTable,
    sched1: Scheduler,
    r: Option<u32>,
    pid: u32,
    other: Seq<u8>,
    code: Seq<FrameIndex>,
    stack: FrameIndex,
)
    requires
        spawned(pmm0, pt0, sched0, name, image, pmm1, pt1, sched1, r),
        1 <= pid < 16,
        sched0.table()[pid as int].live(),
        other.len() <= MAX_CODE,
        loaded(pt0, pmm0, pid, other, code, stack),
        forall|k: int|
            0 <= k < code.len() ==> held(pmm0, pt0.tables(), (#[trigger] code[k]) as int),
    ensures
        loaded(pt1, pmm1, pid, other, code, stack),
        forall|n: int|
            code_page(pid) <= n < code_page(pid) + 512 && pt0.leaf(pmm0, n) is Some
                && page_tree::user_path(pmm0.ram_words(), pt0.root_frame(), n)
                ==> #[trigger] page_tree::user_path(pmm1.ram_words(), pt1.root_frame(), n),
{
    let first = code_page(pid);
    assert forall|n: int| first <= n < first + 512 implies #[trigger] pt1.leaf(pmm1, n) == pt0.leaf(
        pmm0,
        n,
    ) by {
        if !(forall|i: int| 1 <= i < 16 ==> (#[trigger] sched0.table()[i]).live()) {
            let i = choose|i: int| 1 <= i < 16 && !(#[trigger] sched0.table()[i]).live();
            let slot = lemma_first_free(sched0.table(), i);
            assert(is_free_slot(sched0.table(), slot));
            assert(!(code_page(slot) <= n < code_page(slot) + 512));
        }
    }
    assert forall|k: int| 0 <= k < code.len() implies pt1.leaf(pmm1, first + k) == Some(
        (0int, user_entry(#[trigger] code[k])),
    ) && holds_page(pmm1.ram_words(), code[k], other, k) by {
        assert(pt1.leaf(pmm1, first + k) == pt0.leaf(pmm0, first + k));
        assert(held(pmm0, pt0.tables(), code[k] as int));
        lemma_page_kept(pmm0.ram_words(), pmm1.ram_words(), code[k], other, k);
    }
    assert(pt1.leaf(pmm1, stack_page(pid)) == pt0.leaf(pmm0, stack_page(pid)));
}

/// As long as the pages of processes are mapped by spawning alone, and nothing
/// else writes to them, all that is mapped of a process holds the program,
/// whether a spawn succeeds or runs out of frames midway. So every process
/// that is started is loaded.
pub proof fn law_spawning_keeps_regions_loaded(
    pmm0: Pmm,
    pt0: PageTable,
    sched0: Scheduler,
    name: Seq<u8>,
    image: Seq<u8>,
    pmm1: Pmm,
    pt1: PageTable,
    sched1: Scheduler,
    r: Option<u32>,
    pid: u32,
)
    requires
        spawned(pmm0, pt0, sched0, name, image, pmm1, pt1, sched1, r),
        image.len() <= MAX_CODE,
        1 <= pid < 16,
        partly_loaded(pt0, pmm0, pid, image),
    ensures
        partly_loaded(pt1, pmm1, pid, image),
        r == Some(pid) ==> exists|code: Seq<FrameIndex>, stack: FrameIndex| #[trigger]
            loaded(pt1, pmm1, pid, image, code, stack),
{
    let c = code_page(pid);
    assert forall|k: int|
        process_page(image.len() as int, k) && pt1.leaf(pmm1, c + k) is Some
            implies #[trigger] page_loaded(pt1, pmm1, pid, image, k) by {
        if is_free_slot(sched0.table(), pid) {
            assert(page_done(pt0, pmm0, pt1, pmm1, pid, image, k));
            if pt0.leaf(pmm0, c + k) is None {
                let f = choose|f: FrameIndex| #[trigger]
                    new_page(pmm0, pt1, pmm1, pid, image, k, f);
                assert(own_page(pt1, pmm1, pid, image, k, f));
            }
        } else if !(forall|i: int| 1 <= i < 16 ==> (#[trigger] sched0.table()[i]).live()) {
            let i = choose|i: int| 1 <= i < 16 && !(#[trigger] sched0.table()[i]).live();
            let slot = lemma_first_free(sched0.table(), i);
            assert(is_free_slot(sched0.table(), slot));
            assert(!(code_page(slot) <= c + k < code_page(slot) + 512));
        }
        if pt0.leaf(pmm0, c + k) is Some {
            assert(pt1.leaf(pmm1, c + k) == pt0.leaf(pmm0, c + k));
            assert(page_loaded(pt0, pmm0, pid, image, k));
            lemma_page_loaded_kept(pt0, pmm0, pt1, pmm1, pid, image, k);
        }
    }
}

/// A process may read, write and execute each page that is loaded for it.
pub proof fn law_process_pages_are_usable(
    pt: PageTable,
    pmm: Pmm,
    pid: u32,
    image: Seq<u8>,
    k: int,
)
    requires
        pt.wf(pmm),
        pid < 16,
        0 <= k < 512,
        page_loaded(pt, pmm, pid, image, k),
    ensures
        vmm::access(pt, pmm, code_page(pid) + k) == Some(
            vmm::Access { write: true, user: true, execute: true },
        ),
{
    let f = choose|f: FrameIndex| #[trigger] own_page(pt, pmm, pid, image, k, f);
    lemma_same_table(pid, k, 0);
    vmm::law_links_are_open(pt, pmm, code_page(pid) + k);
    let pa = (f * 4096) as u64;
    assert((pa | 7u64 | 1u64) & 2u64 != 0 && (pa | 7u64 | 1u64) & 4u64 != 0 && (pa | 7u64 | 1u64)
        & 0x8000_0000_0000_0000u64 == 0) by (bit_vector)
        requires
            pa < 0x10_0000_0000_0000u64,
    ;
}

/// Page `n` lies in the region of some process.
pub open spec fn in_some_region(n: int) -> bool {
    code_page(1) <= n < code_page(16)
}

/// The processes' memory is their own: what is mapped in their regions is
/// mapped by 4 KiB pages to frames that are neither free nor tables, and no
/// frame is mapped there twice.
pub open spec fn private_pages(pt: PageTable, pmm: Pmm) -> bool {
    &&& forall|n: int|
        in_some_region(n) && (#[trigger] pt.leaf(pmm, n)) is Some ==> pt.maps_page(pmm, n) && held(
            pmm,
            pt.tables(),
            pt.mapped_frame(pmm, n) as int,
        )
    &&& forall|n: int, m: int|
        in_some_region(n) && in_some_region(m) && n != m && (#[trigger] pt.leaf(pmm, n)) is Some
            && (#[trigger] pt.leaf(pmm, m)) is Some ==> pt.mapped_frame(pmm, n) != pt.mapped_frame(
            pmm,
            m,
        )
}

/// As long as the pages of processes are mapped by spawning alone, no two of
/// them share a frame, whether a spawn succeeds or runs out of frames midway.
pub proof fn law_processes_share_no_frames(
    pmm0: Pmm,
    pt0: PageTable,
    sched0: Scheduler,
    name: Seq<u8>,
    image: Seq<u8>,
    pmm1: Pmm,
    pt1: PageTable,
    sched1: Scheduler,
    r: Option<u32>,
)
    requires
        spawned(pmm0, pt0, sched0, name, image, pmm1, pt1, sched1, r),
        private_pages(pt0, pmm0),
    ensures
        private_pages(pt1, pmm1),
{
    if !(forall|i: int| 1 <= i < 16 ==> (#[trigger] sched0.table()[i]).live()) {
        let i = choose|i: int| 1 <= i < 16 && !(#[trigger] sched0.table()[i]).live();
        let pid = lemma_first_free(sched0.table(), i);
        assert(is_free_slot(sched0.table(), pid));
        let c = code_page(pid);
        assert forall|n: int| in_some_region(n) && (#[trigger] pt1.leaf(pmm1, n)) is Some implies
            pt1.maps_page(pmm1, n) && held(pmm1, pt1.tables(), pt1.mapped_frame(pmm1, n) as int) && (
        if pt0.leaf(pmm0, n) is Some {
            pt1.leaf(pmm1, n) == pt0.leaf(pmm0, n)
        } else {
            newly_mapped(pt0, pmm0, pt1, pmm1, pid, n - c) && 0 <= n - c < 512 && pmm0.free(
                pt1.mapped_frame(pmm1, n) as int,
            )
        }) by {
            lemma_region_page(pmm0, pt0, pmm1, pt1, pid, image, n);
        }
        assert forall|n: int, m: int|
            in_some_region(n) && in_some_region(m) && n != m && (#[trigger] pt1.leaf(pmm1, n)) is Some
                && (#[trigger] pt1.leaf(pmm1, m)) is Some implies pt1.mapped_frame(pmm1, n)
            != pt1.mapped_frame(pmm1, m) by {
            let was_n = pt0.leaf(pmm0, n) is Some;
            let was_m = pt0.leaf(pmm0, m) is Some;
            assert(was_n ==> held(pmm0, pt0.tables(), pt0.mapped_frame(pmm0, n) as int));
            assert(was_m ==> held(pmm0, pt0.tables(), pt0.mapped_frame(pmm0, m) as int));
            if !was_n && !was_m {
                assert(newly_mapped(pt0, pmm0, pt1, pmm1, pid, n - c));
                assert(newly_mapped(pt0, pmm0, pt1, pmm1, pid, m - c));
                assert(c + (n - c) == n && c + (m - c) == m);
            }
        }
    }
}

/// A page of a process region after spawning process `pid`: as it was, or
/// newly mapped to a frame that was free.
proof fn lemma_region_page(
    pmm0: Pmm,
    pt0: PageTable,
    pmm1: Pmm,
    pt1: PageTable,
    pid: u32,
    image: Seq<u8>,
    n: int,
)
    requires
        1 <= pid < 16,
        region_kept(pt0, pmm0, pt1, pmm1, pid, image),
        untouched(pmm0, pmm1, pt0.tables(), pt1.tables()),
        private_pages(pt0, pmm0),
        in_some_region(n),
        pt1.leaf(pmm1, n) is Some,
    ensures
        pt1.maps_page(pmm1, n),
        held(pmm1, pt1.tables(), pt1.mapped_frame(pmm1, n) as int),
        if pt0.leaf(pmm0, n) is Some {
            pt1.leaf(pmm1, n) == pt0.leaf(pmm0, n)
        } else {
            newly_mapped(pt0, pmm0, pt1, pmm1, pid, n - code_page(pid)) && 0 <= n - code_page(pid)
                < 512 && pmm0.free(pt1.mapped_frame(pmm1, n) as int)
        },
{
    let c = code_page(pid);
    let k = n - c;
    assert(c + k == n);
    if c <= n < c + 512 {
        assert(page_done(pt0, pmm0, pt1, pmm1, pid, image, k));
    }
    if pt0.leaf(pmm0, n) is Some {
        assert(pt1.leaf(pmm1, n) == pt0.leaf(pmm0, n));
        assert(held(pmm0, pt0.tables(), pt0.mapped_frame(pmm0, n) as int));
    } else {
        let f = choose|f: FrameIndex| #[trigger] new_page(pmm0, pt1, pmm1, pid, image, k, f);
        lemma_user_entry(f);
        assert(own_page(pt1, pmm1, pid, image, k, f));
    }
}

/// Where a slot is free, there is a first one.
proof fn lemma_first_free(table: Seq<Process>, i: int) -> (slot: u32)
    requires
        1 <= i < 16,
        !table[i].live(),
    ensures
        is_free_slot(table, slot),
    decreases i,
{
    if forall|j: int| 1 <= j < i ==> (#[trigger] table[j]).live() {
        i as u32
    } else {
        let j = choose|j: int| 1 <= j < i && !(#[trigger] table[j]).live();
        lemma_first_free(table, j)
    }
}

/// Where a process is entered: its code starts in the first page of its own
/// region, its stack pointer is at the end of the page that is mapped for its
/// stack, and the code ends below the stack.
pub proof fn law_process_is_entered_in_its_pages(pid: u32, entry: u64, len: int)
    requires
        pid < 16,
        0 <= len <= MAX_CODE,
    ensures
        vmm::page_of((0x8000_0000 + pid * 0x20_0000) as u64) == code_page(pid),
        vmm::page_of((sched::initial_frame(pid, entry).user_rsp - 1) as u64) == stack_page(pid),
        vmm::page_of((sched::initial_frame(pid, entry).user_rsp - 4096) as u64) == stack_page(pid),
        code_page(pid) + code_pages(len) <= stack_page(pid) < code_page(pid) + 512,
        code_pages(len) * 4096 - 4096 < len <= code_pages(len) * 4096,
{
    let at = 0x8000_0000 + pid * 0x20_0000;
    assert(at / 4096 == 0x8_0000 + pid * 512);
    assert((at + 0x10_0000) / 4096 == 0x8_0000 + pid * 512 + 256);
    assert((at + 0x10_0fff) / 4096 == 0x8_0000 + pid * 512 + 256);
}

/// The regions of two processes have no page in common.
pub proof fn law_process_pages_are_apart(p: u32, q: u32, k: int, l: int)
    requires
        p != q,
        0 <= k < 512,
        0 <= l < 512,
    ensures
        code_page(p) + k != code_page(q) + l,
        stack_page(p) != stack_page(q),
{
}

/// A loaded process finds byte `o` of its program `o` bytes into its region,
/// and below its stack pointer a page of its own.
pub proof fn law_process_finds_its_program(
    pt: PageTable,
    pmm: Pmm,
    pid: u32,
    image: Seq<u8>,
    code: Seq<FrameIndex>,
    stack: FrameIndex,
    entry: u64,
    o: int,
    d: int,
)
    requires
        pid < 16,
        image.len() <= MAX_CODE,
        loaded(pt, pmm, pid, image, code, stack),
        0 <= o < image.len(),
        0 < d <= 4096,
    ensures
        pt.translates(pmm, (0x8000_0000 + pid * 0x20_0000 + o) as u64) matches Some(pa)
            && pmm::byte_at(pmm.ram_words(), (pa / 4096) as FrameIndex, pa % 4096) == image[o],
        pt.translates(pmm, (sched::initial_frame(pid, entry).user_rsp - d) as u64) == Some(
            stack * 4096 + 4096 - d,
        ),
{
    let k = o / 4096;
    let r = o % 4096;
    let at = 0x8000_0000 + pid * 0x20_0000;
    assert(k < code.len());
    let f = code[k];
    assert(pt.leaf(pmm, code_page(pid) + k) == Some((0int, user_entry(f))));
    assert(holds_page(pmm.ram_words(), f, image, k));
    lemma_user_entry_address(f);
    lemma_user_entry_address(stack);
    assert((at + o) / 4096 == 0x8_0000 + pid * 512 + k);
    assert((at + o) % 4096 == r);
    assert((at + 0x10_1000 - d) / 4096 == 0x8_0000 + pid * 512 + 256);
    assert((at + 0x10_1000 - d) % 4096 == 4096 - d);
    assert(pmm::byte_at(pmm.ram_words(), f, r) == image[k * 4096 + r]);
    assert((f * 4096 + r) / 4096 == f && (f * 4096 + r) % 4096 == r);
}

/// The address behind an entry that maps a frame for a process.
proof fn lemma_user_entry_address(f: FrameIndex)
    ensures
        vmm::leaf_phys(0, user_entry(f)) == f * 4096,
{
    let pa = (f * 4096) as u64;
    assert((pa | 7u64 | 1u64) & 0x000f_ffff_ffff_f000u64 == pa) by (bit_vector)
        requires
            pa % 4096 == 0,
            pa < 0x10_0000_0000_0000u64,
    ;
}

/// A program needs a frame for each 4 KiB of it that are begun, one for its
/// stack, and no more than three for tables: so many free frames start it, and
/// where nothing of it is mapped yet no fewer than the pages do.
pub proof fn law_frames_for_a_process(pt: PageTable, pmm: Pmm, pid: u32, len: int)
    requires
        0 <= len,
    ensures
        pmm.free_count() * 4096 >= len + 4095 + 4 * 4096 ==> startable(pt, pmm, pid, len),
        (forall|k: int|
            process_page(len, k) ==> (#[trigger] pt.leaf(pmm, code_page(pid) + k)) is None)
            && startable(pt, pmm, pid, len) ==> pmm.free_count() * 4096 >= len + 4096,
{
    lemma_unmapped_bound(pt, pmm, pid, code_pages(len));
    if forall|k: int|
        process_page(len, k) ==> (#[trigger] pt.leaf(pmm, code_page(pid) + k)) is None {
        lemma_unmapped_all(pt, pmm, pid, code_pages(len));
        assert(process_page(len, 256));
        assert(pt.leaf(pmm, code_page(pid) + 256) is None);
    }
}

proof fn lemma_unmapped_bound(pt: PageTable, pmm: Pmm, pid: u32, n: int)
    requires
        0 <= n,
    ensures
        unmapped(pt, pmm, pid, n) <= n,
    decreases n,
{
    if n > 0 {
        lemma_unmapped_bound(pt, pmm, pid, n - 1);
    }
}

proof fn lemma_unmapped_all(pt: PageTable, pmm: Pmm, pid: u32, n: int)
    requires
        0 <= n,
        forall|k: int| 0 <= k < n ==> (#[trigger] pt.leaf(pmm, code_page(pid) + k)) is None,
    ensures
        unmapped(pt, pmm, pid, n) == n,
    decreases n,
{
    if n > 0 {
        lemma_unmapped_all(pt, pmm, pid, n - 1);
        assert(pt.leaf(pmm, code_page(pid) + (n - 1)) is None);
    }
}

/// The notice of a spawned process gives its number, its name, the address
/// that it is entered at, and that of the page below its stack pointer.
pub proof fn law_notice_tells_where_the_process_is(pid: u32, name: Seq<u8>, entry: u64)
    requires
        pid < 16,
    ensures
        exists|a: Seq<u8>, b: Seq<u8>, c: Seq<u8>|
            spawn_notice_spec(pid, name) == #[trigger] (text::text("spawned pid "@) + text::dec(
                pid as int,
            ) + a + name + b + text::hex(0x8000_0000 + pid * 0x20_0000) + c + text::hex(
                sched::initial_frame(pid, entry).user_rsp - 4096,
            ) + text::text("\n"@)),
{
    let a = text::text(" ('"@);
    let b = text::text("') at "@);
    let c = text::text(", stack "@);
    assert(spawn_notice_spec(pid, name) =~= text::text("spawned pid "@) + text::dec(pid as int) + a
        + name + b + text::hex(0x8000_0000 + pid * 0x20_0000) + c + text::hex(
        sched::initial_frame(pid, entry).user_rsp - 4096,
    ) + text::text("\n"@));
}

/// A process is started in the lowest slot behind idle's that holds no live
/// process; the other slots are as they were. Where all of them hold one,
/// nothing is started.
pub proof fn law_spawn_takes_the_lowest_slot(
    pmm0: Pmm,
    pt0: PageTable,
    sched0: Scheduler,
    name: Seq<u8>,
    image: Seq<u8>,
    pmm1: Pmm,
    pt1: PageTable,
    sched1: Scheduler,
    r: Option<u32>,
    i: int,
)
    requires
        spawned(pmm0, pt0, sched0, name, image, pmm1, pt1, sched1, r),
        1 <= i < 16,
    ensures
        (forall|j: int| 1 <= j < 16 ==> (#[trigger] sched0.table()[j]).live()) ==> r is None,
        r matches Some(pid) ==> {
            &&& 1 <= pid <= 15
            &&& sched0.table()[pid as int].state != sched::State::Ready
            &&& sched0.table()[pid as int].state != sched::State::Running
            &&& sched1.table()[pid as int].state == sched::State::Ready
            &&& i < pid ==> sched0.table()[i].live()
            &&& i != pid ==> sched1.table()[i] == sched0.table()[i]
        },
        r is None ==> sched1.table() == sched0.table(),
{
}

/// Where a slot is free and there are frames for the program, its stack and
/// three tables, a process is started.
pub proof fn law_spawn_succeeds(
    pmm0: Pmm,
    pt0: PageTable,
    sched0: Scheduler,
    name: Seq<u8>,
    image: Seq<u8>,
    pmm1: Pmm,
    pt1: PageTable,
    sched1: Scheduler,
    r: Option<u32>,
    slot: int,
)
    requires
        spawned(pmm0, pt0, sched0, name, image, pmm1, pt1, sched1, r),
        1 <= slot < 16,
        !sched0.table()[slot].live(),
        pmm0.free_count() * 4096 >= image.len() + 4095 + 4 * 4096,
    ensures
        r is Some,
{
    let pid = lemma_first_free(sched0.table(), slot);
    assert(is_free_slot(sched0.table(), pid));
    law_frames_for_a_process(pt0, pmm0, pid, image.len() as int);
}

/// What a started process is entered with lies on its kernel stack, as the
/// processor takes it: the start of its region to run from, the end of its
/// stack, and its number.
pub proof fn law_started_process_has_its_frame(
    pmm0: Pmm,
    pt0: PageTable,
    sched0: Scheduler,
    name: Seq<u8>,
    image: Seq<u8>,
    pmm1: Pmm,
    pt1: PageTable,
    sched1: Scheduler,
    pid: u32,
)
    requires
        spawned(pmm0, pt0, sched0, name, image, pmm1, pt1, sched1, Some(pid)),
    ensures
        ({
            let p = sched1.table()[pid as int];
            let words = sched1.frame_words(p.ctx as int);
            &&& p.ctx + 192 == p.kernel_stack_top
            &&& p.kernel_stack_top == sched0.kstacks_at() + (pid + 1) * 0x4000
            &&& words[18] == 0x8000_0000 + pid * 0x20_0000
            &&& words[21] == 0x8000_0000 + pid * 0x20_0000 + 0x10_1000
            &&& words[10] == pid
            &&& words[19] == 0x33
            &&& words[22] == 0x3B
            &&& words[20] == 0x202
        }),
{
    let entry = (sched::PROC_BASE + pid * sched::PROC_STRIDE) as u64;
    sched::law_process_starts_on_its_own_stack(pid, entry);
}

} // verus!
