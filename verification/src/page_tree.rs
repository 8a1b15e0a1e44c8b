//! The tree of tables behind a page table, and what its changes do to the
//! pages that it maps.

use crate::arch::FRAME_WORDS;
use crate::frame::{FrameIndex, FrameInfo, FrameOwner, OwnerTag};
use crate::pmm::Pmm;
use crate::vmm;
use vstd::prelude::*;

verus! {

/// The tables of a page table: the frame of table number `key` at `level`,
/// under `(level, key)`. Level 3 holds the root alone.
pub type Nodes = Map<(int, int), FrameIndex>;

/// Entry `i` of the table in frame `f`.
pub open spec fn entry(ram: Seq<u64>, f: FrameIndex, i: int) -> u64 {
    ram[f as int * FRAME_WORDS + i]
}

/// Table `(level, key)` lies in a kernel-owned frame and hangs off its parent.
pub open spec fn node_ok(
    nodes: Nodes,
    ram: Seq<u64>,
    frames: Seq<FrameInfo>,
    level: int,
    key: int,
) -> bool {
    let f = nodes[(level, key)];
    &&& 0 <= level <= 3
    &&& 0 <= key
    &&& level == 3 ==> key == 0
    &&& f < frames.len()
    &&& (f + 1) * FRAME_WORDS <= ram.len()
    &&& frames[f as int].owner() == FrameOwner::of(OwnerTag::Kernel, 0)
    &&& level < 3 ==> nodes.contains_key((level + 1, key / 512)) && vmm::is_link(
        entry(ram, nodes[(level + 1, key / 512)], key % 512),
        f,
    )
}

/// What a present entry `e` in slot `i` of table `(level, key)` may be: a
/// page of RAM, a huge page, or a link to the table below.
pub open spec fn present_ok(
    nodes: Nodes,
    frames: Seq<FrameInfo>,
    level: int,
    key: int,
    i: int,
    e: u64,
) -> bool {
    if level == 0 {
        (e & vmm::ADDR_MASK_4K) as int / 4096 < frames.len()
    } else {
        ||| vmm::huge(e) && level < 3
        ||| !vmm::huge(e) && nodes.contains_key((level - 1, key * 512 + i)) && nodes[(
            level - 1,
            key * 512 + i,
        )] == vmm::frame_of(e)
    }
}

pub open spec fn slot_ok(
    nodes: Nodes,
    ram: Seq<u64>,
    frames: Seq<FrameInfo>,
    level: int,
    key: int,
    i: int,
) -> bool {
    let e = entry(ram, nodes[(level, key)], i);
    vmm::present(e) ==> present_ok(nodes, frames, level, key, i, e)
}

/// The tables form a tree rooted at `root`: no two share a frame, and the
/// links among them are exactly the present non-huge entries.
#[verifier::opaque]
pub open spec fn tree_wf(
    root: FrameIndex,
    nodes: Nodes,
    ram: Seq<u64>,
    frames: Seq<FrameInfo>,
) -> bool {
    &&& nodes.dom().finite()
    &&& nodes.contains_key((3, 0))
    &&& nodes[(3, 0)] == root
    &&& forall|l: int, k: int|
        nodes.contains_key((l, k)) ==> #[trigger] node_ok(nodes, ram, frames, l, k)
    &&& forall|l: int, k: int, i: int|
        nodes.contains_key((l, k)) && 0 <= i < 512 ==> #[trigger] slot_ok(
            nodes,
            ram,
            frames,
            l,
            k,
            i,
        )
    &&& forall|a: (int, int), b: (int, int)|
        nodes.contains_key(a) && nodes.contains_key(b) && #[trigger] nodes[a] == #[trigger] nodes[b]
            ==> a == b
}

/// The entry that ends the walk for page `n`, with its level, or `None` where
/// the walk meets an entry that is not present.
#[verifier::opaque]
pub open spec fn walk(ram: Seq<u64>, root: FrameIndex, n: int) -> Option<(int, u64)> {
    let e3 = entry(ram, root, vmm::index_of(n, 3));
    let e2 = entry(ram, vmm::frame_of(e3), vmm::index_of(n, 2));
    let e1 = entry(ram, vmm::frame_of(e2), vmm::index_of(n, 1));
    let e0 = entry(ram, vmm::frame_of(e1), vmm::index_of(n, 0));
    if !vmm::present(e3) || !vmm::present(e2) {
        None
    } else if vmm::huge(e2) {
        Some((2, e2))
    } else if !vmm::present(e1) {
        None
    } else if vmm::huge(e1) {
        Some((1, e1))
    } else if !vmm::present(e0) {
        None
    } else {
        Some((0, e0))
    }
}

/// Number of tables that are missing on the path of page `n`.
pub open spec fn missing(ram: Seq<u64>, root: FrameIndex, n: int) -> int {
    let e3 = entry(ram, root, vmm::index_of(n, 3));
    let e2 = entry(ram, vmm::frame_of(e3), vmm::index_of(n, 2));
    let e1 = entry(ram, vmm::frame_of(e2), vmm::index_of(n, 1));
    if !vmm::present(e3) {
        3
    } else if !vmm::present(e2) {
        2
    } else if !vmm::huge(e2) && !vmm::present(e1) {
        1
    } else {
        0
    }
}

/// True if `p` holds of every link that the processor follows on its way to
/// the entry that maps page `n`.
pub open spec fn on_links(
    ram: Seq<u64>,
    root: FrameIndex,
    n: int,
    p: spec_fn(u64) -> bool,
) -> bool {
    let e3 = entry(ram, root, vmm::index_of(n, 3));
    let e2 = entry(ram, vmm::frame_of(e3), vmm::index_of(n, 2));
    let e1 = entry(ram, vmm::frame_of(e2), vmm::index_of(n, 1));
    &&& p(e3)
    &&& vmm::huge(e2) || p(e2) && (vmm::huge(e1) || p(e1))
}

/// True if user code may walk all links to the entry that maps page `n`.
#[verifier::opaque]
pub open spec fn user_path(ram: Seq<u64>, root: FrameIndex, n: int) -> bool {
    on_links(ram, root, n, |e: u64| vmm::user_ok(e))
}

/// Between `ram0` and `ram1` no present entry above the lowest level has lost
/// its user bit.
#[verifier::opaque]
pub open spec fn user_bits_kept(nodes: Nodes, ram0: Seq<u64>, ram1: Seq<u64>) -> bool {
    forall|x: (int, int), i: int|
        nodes.contains_key(x) && x.0 >= 1 && 0 <= i < 512 && vmm::present(
            entry(ram0, nodes[x], i),
        ) && vmm::user_ok(entry(ram0, nodes[x], i)) ==> vmm::user_ok(
            #[trigger] entry(ram1, nodes[x], i),
        ) && vmm::present(entry(ram1, nodes[x], i))
}

pub proof fn lemma_user_bits_kept_trans(
    nodes0: Nodes,
    nodes1: Nodes,
    ram0: Seq<u64>,
    ram1: Seq<u64>,
    ram2: Seq<u64>,
)
    requires
        nodes0.submap_of(nodes1),
        user_bits_kept(nodes0, ram0, ram1),
        user_bits_kept(nodes1, ram1, ram2),
    ensures
        user_bits_kept(nodes0, ram0, ram2),
{
    reveal(user_bits_kept);
    assert forall|x: (int, int), i: int|
        nodes0.contains_key(x) && x.0 >= 1 && 0 <= i < 512 && vmm::present(
            entry(ram0, nodes0[x], i),
        ) && vmm::user_ok(entry(ram0, nodes0[x], i)) implies vmm::user_ok(
        #[trigger] entry(ram2, nodes0[x], i),
    ) && vmm::present(entry(ram2, nodes0[x], i)) by {
        assert(nodes0.dom().contains(x));
        assert(nodes1.dom().contains(x));
        assert(nodes1[x] == nodes0[x]);
        assert(vmm::user_ok(entry(ram1, nodes0[x], i)));
        assert(vmm::user_ok(entry(ram2, nodes1[x], i)));
    }
}

/// Where only entry `i` of table `(level, key)` is set, and above the lowest
/// level to one that keeps the user bit, none is lost.
pub proof fn lemma_user_bits_kept_set(
    nodes: Nodes,
    ram0: Seq<u64>,
    ram1: Seq<u64>,
    level: int,
    key: int,
    i: int,
    e: u64,
)
    requires
        nodes.contains_key((level, key)),
        one_entry_set(nodes, ram0, ram1, level, key, i, e),
        level >= 1 && vmm::present(entry(ram0, nodes[(level, key)], i)) && vmm::user_ok(
            entry(ram0, nodes[(level, key)], i),
        ) ==> vmm::present(e) && vmm::user_ok(e),
    ensures
        user_bits_kept(nodes, ram0, ram1),
{
    reveal(user_bits_kept);
}

/// Where the entries of all tables stay as they are, so do their user bits.
pub proof fn lemma_user_bits_kept_same(nodes: Nodes, ram0: Seq<u64>, ram1: Seq<u64>)
    requires
        forall|x: (int, int), i: int|
            nodes.contains_key(x) && 0 <= i < 512 ==> #[trigger] entry(ram1, nodes[x], i) == entry(
                ram0,
                nodes[x],
                i,
            ),
    ensures
        user_bits_kept(nodes, ram0, ram1),
{
    reveal(user_bits_kept);
}

/// A present entry above the lowest level is open to user code only if it was
/// before, or if `user` is set and it is on the path of page `n`.
#[verifier::opaque]
pub open spec fn opened_only(
    before: Nodes,
    after: Nodes,
    ram0: Seq<u64>,
    ram1: Seq<u64>,
    n: int,
    user: bool,
) -> bool {
    forall|x: (int, int), i: int|
        after.contains_key(x) && x.0 >= 1 && 0 <= i < 512 && vmm::present(
            #[trigger] entry(ram1, after[x], i),
        ) && vmm::user_ok(entry(ram1, after[x], i)) ==> {
            ||| before.contains_key(x) && vmm::present(entry(ram0, before[x], i)) && vmm::user_ok(
                entry(ram0, before[x], i),
            )
            ||| user && x.1 == vmm::key_of(n, x.0) && i == vmm::index_of(n, x.0)
        }
}

/// Where the entries above the lowest level stay as they are, none is opened.
pub proof fn lemma_opened_none(nodes: Nodes, ram0: Seq<u64>, ram1: Seq<u64>, n: int, user: bool)
    requires
        forall|x: (int, int), i: int|
            nodes.contains_key(x) && x.0 >= 1 && 0 <= i < 512 ==> #[trigger] entry(
                ram1,
                nodes[x],
                i,
            ) == entry(ram0, nodes[x], i),
    ensures
        opened_only(nodes, nodes, ram0, ram1, n, user),
{
    reveal(opened_only);
}

/// Opening no more than one path twice in a row opens no more than that path.
pub proof fn lemma_opened_trans(
    nodes0: Nodes,
    nodes1: Nodes,
    nodes2: Nodes,
    ram0: Seq<u64>,
    ram1: Seq<u64>,
    ram2: Seq<u64>,
    n: int,
    user: bool,
)
    requires
        opened_only(nodes0, nodes1, ram0, ram1, n, user),
        opened_only(nodes1, nodes2, ram1, ram2, n, user),
    ensures
        opened_only(nodes0, nodes2, ram0, ram2, n, user),
{
    reveal(opened_only);
    assert forall|x: (int, int), i: int|
        nodes2.contains_key(x) && x.0 >= 1 && 0 <= i < 512 && vmm::present(
            #[trigger] entry(ram2, nodes2[x], i),
        ) && vmm::user_ok(entry(ram2, nodes2[x], i)) implies {
        ||| nodes0.contains_key(x) && vmm::present(entry(ram0, nodes0[x], i)) && vmm::user_ok(
            entry(ram0, nodes0[x], i),
        )
        ||| user && x.1 == vmm::key_of(n, x.0) && i == vmm::index_of(n, x.0)
    } by {
        let e = entry(ram1, nodes1[x], i);
    }
}

/// Where nothing is opened, a page that is mapped as before is within the reach
/// of user code only if it was before.
pub proof fn lemma_user_path_closed(
    root: FrameIndex,
    nodes0: Nodes,
    ram0: Seq<u64>,
    frames0: Seq<FrameInfo>,
    nodes1: Nodes,
    ram1: Seq<u64>,
    frames1: Seq<FrameInfo>,
    n: int,
    m: int,
)
    requires
        tree_wf(root, nodes0, ram0, frames0),
        tree_wf(root, nodes1, ram1, frames1),
        opened_only(nodes0, nodes1, ram0, ram1, n, false),
        0 <= m < vmm::PAGES,
        walk(ram0, root, m) is Some,
        walk(ram1, root, m) == walk(ram0, root, m),
        user_path(ram1, root, m),
    ensures
        user_path(ram0, root, m),
{
    reveal(user_path);
    reveal(opened_only);
    let p = |e: u64| vmm::user_ok(e);
    lemma_walk(root, nodes0, ram0, frames0, m);
    lemma_walk(root, nodes1, ram1, frames1, m);
    lemma_links(root, nodes0, ram0, frames0, m, p);
    lemma_links(root, nodes1, ram1, frames1, m, p);
    assert forall|l: int| depth(nodes0, m) < l <= 3 implies p(
        #[trigger] entry(ram0, nodes0[(l, vmm::key_of(m, l))], vmm::index_of(m, l)),
    ) by {
        let x = (l, vmm::key_of(m, l));
        assert(on_path(nodes1, m, l));
        assert(p(entry(ram1, nodes1[x], vmm::index_of(m, l))));
        assert(vmm::is_link(
            entry(ram1, nodes1[x], vmm::index_of(m, l)),
            nodes1[(l - 1, vmm::key_of(m, l - 1))],
        ));
    }
}

/// The links on the way to a mapped page are links of the tree.
pub proof fn lemma_links(
    root: FrameIndex,
    nodes: Nodes,
    ram: Seq<u64>,
    frames: Seq<FrameInfo>,
    n: int,
    p: spec_fn(u64) -> bool,
)
    requires
        tree_wf(root, nodes, ram, frames),
        0 <= n < vmm::PAGES,
        walk(ram, root, n) is Some || depth(nodes, n) == 0,
    ensures
        on_links(ram, root, n, p) <==> forall|l: int|
            depth(nodes, n) < l <= 3 ==> p(
                #[trigger] entry(ram, nodes[(l, vmm::key_of(n, l))], vmm::index_of(n, l)),
            ),
{
    lemma_walk(root, nodes, ram, frames, n);
    reveal(tree_wf);
    let d = depth(nodes, n);
    assert(vmm::key_of(n, 3) == 0);
    let e3 = entry(ram, nodes[(3, vmm::key_of(n, 3))], vmm::index_of(n, 3));
    assert(vmm::is_link(e3, nodes[(2, vmm::key_of(n, 2))]));
    let e2 = entry(ram, nodes[(2, vmm::key_of(n, 2))], vmm::index_of(n, 2));
    if d < 2 {
        assert(vmm::is_link(e2, nodes[(1, vmm::key_of(n, 1))]));
        let e1 = entry(ram, nodes[(1, vmm::key_of(n, 1))], vmm::index_of(n, 1));
        if d < 1 {
            assert(vmm::is_link(e1, nodes[(0, vmm::key_of(n, 0))]));
        } else {
            reveal(walk);
        }
    } else {
        reveal(walk);
    }
}

/// Where tables grow and no entry loses its user bit, a page that user code
/// could reach stays within its reach, as long as it is mapped as before or
/// its tables go down to the lowest level.
pub proof fn lemma_user_path_kept(
    root: FrameIndex,
    nodes0: Nodes,
    ram0: Seq<u64>,
    frames0: Seq<FrameInfo>,
    nodes1: Nodes,
    ram1: Seq<u64>,
    frames1: Seq<FrameInfo>,
    n: int,
)
    requires
        tree_wf(root, nodes0, ram0, frames0),
        tree_wf(root, nodes1, ram1, frames1),
        nodes0.submap_of(nodes1),
        user_bits_kept(nodes0, ram0, ram1),
        0 <= n < vmm::PAGES,
        walk(ram0, root, n) is Some,
        walk(ram1, root, n) == walk(ram0, root, n) || depth(nodes0, n) == 0,
        user_path(ram0, root, n),
    ensures
        user_path(ram1, root, n),
{
    reveal(user_path);
    reveal(user_bits_kept);
    let p = |e: u64| vmm::user_ok(e);
    lemma_walk(root, nodes0, ram0, frames0, n);
    lemma_walk(root, nodes1, ram1, frames1, n);
    if depth(nodes0, n) == 0 {
        assert(nodes0.dom().contains((0, vmm::key_of(n, 0))));
        assert(nodes1.dom().contains((0, vmm::key_of(n, 0))));
    }
    lemma_links(root, nodes0, ram0, frames0, n, p);
    lemma_links(root, nodes1, ram1, frames1, n, p);
    assert(depth(nodes1, n) == depth(nodes0, n));
    assert forall|l: int| depth(nodes1, n) < l <= 3 implies p(
        #[trigger] entry(ram1, nodes1[(l, vmm::key_of(n, l))], vmm::index_of(n, l)),
    ) by {
        let x = (l, vmm::key_of(n, l));
        assert(on_path(nodes0, n, l));
        assert(nodes1[x] == nodes0[x]);
        assert(p(entry(ram0, nodes0[x], vmm::index_of(n, l))));
        assert(vmm::is_link(
            entry(ram0, nodes0[x], vmm::index_of(n, l)),
            nodes0[(l - 1, vmm::key_of(n, l - 1))],
        ));
        assert(vmm::user_ok(entry(ram1, nodes0[x], vmm::index_of(n, l))));
    }
}

/// Table on the path of page `n` at `level`.
pub open spec fn on_path(nodes: Nodes, n: int, level: int) -> bool {
    nodes.contains_key((level, vmm::key_of(n, level)))
}

/// Level of the lowest table on the path of page `n`.
pub open spec fn depth(nodes: Nodes, n: int) -> int {
    if on_path(nodes, n, 0) {
        0
    } else if on_path(nodes, n, 1) {
        1
    } else if on_path(nodes, n, 2) {
        2
    } else {
        3
    }
}

/// The entry for page `n` in the lowest table on its path.
pub open spec fn last_entry(nodes: Nodes, ram: Seq<u64>, n: int) -> u64 {
    let l = depth(nodes, n);
    entry(ram, nodes[(l, vmm::key_of(n, l))], vmm::index_of(n, l))
}

/// [`walk`], read off the tree.
pub open spec fn leaf(nodes: Nodes, ram: Seq<u64>, n: int) -> Option<(int, u64)> {
    if vmm::present(last_entry(nodes, ram, n)) {
        Some((depth(nodes, n), last_entry(nodes, ram, n)))
    } else {
        None
    }
}

/// A table of the tree, and the entry for its slot `i`.
pub proof fn lemma_node(
    root: FrameIndex,
    nodes: Nodes,
    ram: Seq<u64>,
    frames: Seq<FrameInfo>,
    level: int,
    key: int,
    i: int,
)
    requires
        tree_wf(root, nodes, ram, frames),
        nodes.contains_key((level, key)),
        0 <= i < 512,
    ensures
        node_ok(nodes, ram, frames, level, key),
        slot_ok(nodes, ram, frames, level, key, i),
        nodes.dom().finite(),
{
    reveal(tree_wf);
    assert(node_ok(nodes, ram, frames, level, key));
    assert(slot_ok(nodes, ram, frames, level, key, i));
}

/// Walking the tables in RAM and looking a page up in the tree agree.
pub proof fn lemma_walk(
    root: FrameIndex,
    nodes: Nodes,
    ram: Seq<u64>,
    frames: Seq<FrameInfo>,
    n: int,
)
    requires
        tree_wf(root, nodes, ram, frames),
        0 <= n < vmm::PAGES,
    ensures
        walk(ram, root, n) == leaf(nodes, ram, n),
        walk(ram, root, n) is None ==> missing(ram, root, n) == depth(nodes, n),
        depth(nodes, n) < 3 ==> on_path(nodes, n, 2),
        depth(nodes, n) < 2 ==> on_path(nodes, n, 1),
        depth(nodes, n) == 3 ==> leaf(nodes, ram, n) is None,
        on_path(nodes, n, 3),
        forall|l: int|
            depth(nodes, n) < l <= 3 ==> vmm::is_link(
                #[trigger] entry(
                    ram,
                    nodes[(l, vmm::key_of(n, l))],
                    vmm::index_of(n, l),
                ),
                nodes[(l - 1, vmm::key_of(n, l - 1))],
            ),
{
    reveal(walk);
    reveal(tree_wf);
    assert(vmm::key_of(n, 3) == 0);
    assert(vmm::key_of(n, 2) / 512 == 0);
    assert(vmm::key_of(n, 2) % 512 == vmm::index_of(n, 3));
    assert(vmm::key_of(n, 1) / 512 == vmm::key_of(n, 2));
    assert(vmm::key_of(n, 1) % 512 == vmm::index_of(n, 2));
    assert(vmm::key_of(n, 0) / 512 == vmm::key_of(n, 1));
    assert(vmm::key_of(n, 0) % 512 == vmm::index_of(n, 1));
    assert(slot_ok(nodes, ram, frames, 3, 0, vmm::index_of(n, 3)));
    assert(node_ok(nodes, ram, frames, 3, 0));
    if on_path(nodes, n, 0) {
        assert(node_ok(nodes, ram, frames, 0, vmm::key_of(n, 0)));
        assert(slot_ok(nodes, ram, frames, 0, vmm::key_of(n, 0), vmm::index_of(n, 0)));
    }
    if on_path(nodes, n, 1) {
        assert(node_ok(nodes, ram, frames, 1, vmm::key_of(n, 1)));
        assert(slot_ok(nodes, ram, frames, 1, vmm::key_of(n, 1), vmm::index_of(n, 1)));
    }
    if on_path(nodes, n, 2) {
        assert(node_ok(nodes, ram, frames, 2, vmm::key_of(n, 2)));
        assert(slot_ok(nodes, ram, frames, 2, vmm::key_of(n, 2), vmm::index_of(n, 2)));
    }
}

/// The tree depends only on its own frames: it is unchanged where their words
/// and owners are.
pub proof fn lemma_tree_frame(
    root: FrameIndex,
    nodes: Nodes,
    ram0: Seq<u64>,
    frames0: Seq<FrameInfo>,
    ram1: Seq<u64>,
    frames1: Seq<FrameInfo>,
)
    requires
        tree_wf(root, nodes, ram0, frames0),
        ram1.len() == ram0.len(),
        frames1.len() == frames0.len(),
        forall|a: (int, int)|
            nodes.contains_key(a) ==> frames1[(#[trigger] nodes[a]) as int].owner()
                == FrameOwner::of(OwnerTag::Kernel, 0),
        forall|a: (int, int), i: int|
            nodes.contains_key(a) && 0 <= i < 512 ==> #[trigger] entry(ram1, nodes[a], i) == entry(
                ram0,
                nodes[a],
                i,
            ),
    ensures
        tree_wf(root, nodes, ram1, frames1),
        forall|n: int| 0 <= n < vmm::PAGES ==> #[trigger] leaf(nodes, ram1, n) == leaf(nodes, ram0, n),
        forall|n: int| 0 <= n < vmm::PAGES ==> #[trigger] walk(ram1, root, n) == walk(ram0, root, n),
        forall|n: int|
            0 <= n < vmm::PAGES && walk(ram0, root, n) is Some ==> #[trigger] user_path(
                ram1,
                root,
                n,
            ) == user_path(ram0, root, n),
{
    reveal(tree_wf);
    assert forall|l: int, k: int| nodes.contains_key((l, k)) implies #[trigger] node_ok(
        nodes,
        ram1,
        frames1,
        l,
        k,
    ) by {
        assert(node_ok(nodes, ram0, frames0, l, k));
        if l < 3 {
            let e = entry(ram1, nodes[(l + 1, k / 512)], k % 512);
            assert(e == entry(ram0, nodes[(l + 1, k / 512)], k % 512));
        }
    }
    assert forall|l: int, k: int, i: int|
        nodes.contains_key((l, k)) && 0 <= i < 512 implies #[trigger] slot_ok(
        nodes,
        ram1,
        frames1,
        l,
        k,
        i,
    ) by {
        assert(slot_ok(nodes, ram0, frames0, l, k, i));
    }
    assert forall|n: int| 0 <= n < vmm::PAGES implies #[trigger] leaf(nodes, ram1, n) == leaf(
        nodes,
        ram0,
        n,
    ) by {
        lemma_walk(root, nodes, ram0, frames0, n);
    }
    assert forall|n: int| 0 <= n < vmm::PAGES implies #[trigger] walk(ram1, root, n) == walk(
        ram0,
        root,
        n,
    ) by {
        lemma_walk(root, nodes, ram0, frames0, n);
        lemma_walk(root, nodes, ram1, frames1, n);
        assert(leaf(nodes, ram1, n) == leaf(nodes, ram0, n));
    }
    lemma_user_bits_kept_same(nodes, ram0, ram1);
    lemma_user_bits_kept_same(nodes, ram1, ram0);
    assert forall|n: int|
        0 <= n < vmm::PAGES && walk(ram0, root, n) is Some implies #[trigger] user_path(
        ram1,
        root,
        n,
    ) == user_path(ram0, root, n) by {
        assert(walk(ram1, root, n) == walk(ram0, root, n));
        if user_path(ram0, root, n) {
            lemma_user_path_kept(root, nodes, ram0, frames0, nodes, ram1, frames1, n);
        }
        if user_path(ram1, root, n) {
            lemma_user_path_kept(root, nodes, ram1, frames1, nodes, ram0, frames0, n);
        }
    }
}

/// Only the entry in slot `i` of table `(level, key)` differs between `ram0`
/// and `ram1`, and there `ram1` has `e`.
pub open spec fn one_entry_set(
    nodes: Nodes,
    ram0: Seq<u64>,
    ram1: Seq<u64>,
    level: int,
    key: int,
    i: int,
    e: u64,
) -> bool {
    &&& ram1.len() == ram0.len()
    &&& forall|a: (int, int), j: int|
        nodes.contains_key(a) && 0 <= j < 512 ==> #[trigger] entry(ram1, nodes[a], j) == (if a == (
            level,
            key,
        ) && j == i {
            e
        } else {
            entry(ram0, nodes[a], j)
        })
}

/// Setting an entry that no table hangs off, or keeping its link, leaves the
/// tree whole; it changes the walk only of the pages that end there.
pub proof fn lemma_set_entry(
    root: FrameIndex,
    nodes: Nodes,
    ram0: Seq<u64>,
    ram1: Seq<u64>,
    frames: Seq<FrameInfo>,
    level: int,
    key: int,
    i: int,
    e: u64,
)
    requires
        tree_wf(root, nodes, ram0, frames),
        nodes.contains_key((level, key)),
        0 <= i < 512,
        one_entry_set(nodes, ram0, ram1, level, key, i, e),
        vmm::present(e) ==> present_ok(nodes, frames, level, key, i, e),
        level > 0 && nodes.contains_key((level - 1, key * 512 + i)) ==> vmm::is_link(
            e,
            nodes[(level - 1, key * 512 + i)],
        ),
    ensures
        tree_wf(root, nodes, ram1, frames),
        forall|n: int|
            0 <= n < vmm::PAGES ==> #[trigger] walk(ram1, root, n) == (if depth(nodes, n) == level
                && n / vmm::pages_per_entry(level) == key * 512 + i {
                if vmm::present(e) {
                    Some((level, e))
                } else {
                    None
                }
            } else {
                walk(ram0, root, n)
            }),
{
    reveal(tree_wf);
    assert forall|l: int, k: int| nodes.contains_key((l, k)) implies #[trigger] node_ok(
        nodes,
        ram1,
        frames,
        l,
        k,
    ) by {
        assert(node_ok(nodes, ram0, frames, l, k));
        if l < 3 {
            let e1 = entry(ram1, nodes[(l + 1, k / 512)], k % 512);
            if (l + 1, k / 512) == (level, key) && k % 512 == i {
                assert(key * 512 + i == k);
            }
        }
    }
    assert forall|l: int, k: int, j: int|
        nodes.contains_key((l, k)) && 0 <= j < 512 implies #[trigger] slot_ok(
        nodes,
        ram1,
        frames,
        l,
        k,
        j,
    ) by {
        assert(slot_ok(nodes, ram0, frames, l, k, j));
        let e1 = entry(ram1, nodes[(l, k)], j);
    }
    assert forall|n: int| 0 <= n < vmm::PAGES implies #[trigger] walk(ram1, root, n) == (if depth(
        nodes,
        n,
    ) == level && n / vmm::pages_per_entry(level) == key * 512 + i {
        if vmm::present(e) {
            Some((level, e))
        } else {
            None
        }
    } else {
        walk(ram0, root, n)
    }) by {
        lemma_walk(root, nodes, ram0, frames, n);
        lemma_walk(root, nodes, ram1, frames, n);
        let l = depth(nodes, n);
        let k = vmm::key_of(n, l);
        assert(nodes.contains_key((l, k)));
        assert(n / vmm::pages_per_entry(l) == k * 512 + vmm::index_of(n, l));
        assert(node_ok(nodes, ram0, frames, level, key));
    }
}

/// Hanging an empty table off an entry that was not present leaves the tree
/// whole and no page's walk changed.
pub proof fn lemma_link(
    root: FrameIndex,
    nodes: Nodes,
    ram0: Seq<u64>,
    frames0: Seq<FrameInfo>,
    ram1: Seq<u64>,
    frames1: Seq<FrameInfo>,
    level: int,
    key: int,
    i: int,
    e: u64,
    f: FrameIndex,
)
    requires
        tree_wf(root, nodes, ram0, frames0),
        1 <= level <= 3,
        nodes.contains_key((level, key)),
        0 <= i < 512,
        !vmm::present(entry(ram0, nodes[(level, key)], i)),
        vmm::is_link(e, f),
        one_entry_set(nodes, ram0, ram1, level, key, i, e),
        frames1.len() == frames0.len(),
        f < frames1.len(),
        (f + 1) * FRAME_WORDS <= ram1.len(),
        frames1[f as int].owner() == FrameOwner::of(OwnerTag::Kernel, 0),
        forall|a: (int, int)|
            nodes.contains_key(a) ==> (#[trigger] nodes[a]) != f && frames1[nodes[a] as int].owner()
                == FrameOwner::of(OwnerTag::Kernel, 0),
        forall|j: int| 0 <= j < 512 ==> #[trigger] entry(ram1, f, j) == 0,
    ensures
        !nodes.contains_key((level - 1, key * 512 + i)),
        nodes.insert((level - 1, key * 512 + i), f).dom().len() == nodes.dom().len() + 1,
        tree_wf(root, nodes.insert((level - 1, key * 512 + i), f), ram1, frames1),
        forall|n: int| 0 <= n < vmm::PAGES ==> #[trigger] walk(ram1, root, n) == walk(ram0, root, n),
{
    reveal(tree_wf);
    let c = (level - 1, key * 512 + i);
    let nodes1 = nodes.insert(c, f);
    assert(nodes1.dom() =~= nodes.dom().insert(c));
    assert(vmm::present(0) == false) by {
        assert(0u64 & 1 == 0) by (bit_vector);
    }
    assert(node_ok(nodes, ram0, frames0, level, key));
    if nodes.contains_key(c) {
        assert(node_ok(nodes, ram0, frames0, level - 1, key * 512 + i));
        assert((key * 512 + i) / 512 == key);
        assert((key * 512 + i) % 512 == i);
        assert(false);
    }
    assert forall|l: int, k: int| nodes1.contains_key((l, k)) implies #[trigger] node_ok(
        nodes1,
        ram1,
        frames1,
        l,
        k,
    ) by {
        if (l, k) == c {
            assert(k / 512 == key);
            assert(k % 512 == i);
            let ee = entry(ram1, nodes[(l + 1, k / 512)], k % 512);
        } else {
            assert(node_ok(nodes, ram0, frames0, l, k));
            if l < 3 {
                let e1 = entry(ram1, nodes[(l + 1, k / 512)], k % 512);
            }
        }
    }
    assert forall|l: int, k: int, j: int|
        nodes1.contains_key((l, k)) && 0 <= j < 512 implies #[trigger] slot_ok(
        nodes1,
        ram1,
        frames1,
        l,
        k,
        j,
    ) by {
        if (l, k) == c {
            let e1 = entry(ram1, f, j);
        } else {
            assert(slot_ok(nodes, ram0, frames0, l, k, j));
            let e1 = entry(ram1, nodes[(l, k)], j);
        }
    }
    assert forall|n: int| 0 <= n < vmm::PAGES implies #[trigger] walk(ram1, root, n) == walk(
        ram0,
        root,
        n,
    ) by {
        lemma_walk(root, nodes, ram0, frames0, n);
        lemma_walk(root, nodes1, ram1, frames1, n);
        let l = depth(nodes, n);
        let k = vmm::key_of(n, l);
        let e0 = entry(ram1, nodes[(l, k)], vmm::index_of(n, l));
        if depth(nodes1, n) != l {
            assert(vmm::key_of(n, level - 1) == key * 512 + i);
            assert(vmm::key_of(n, level) == key) by {
                assert((key * 512 + i) / 512 == key);
                assert(vmm::key_of(n, level) == vmm::key_of(n, level - 1) / 512);
            }
            assert(vmm::index_of(n, level) == i) by {
                assert((key * 512 + i) % 512 == i);
            }
            assert(l == level);
            let e1 = entry(ram1, f, vmm::index_of(n, level - 1));
        }
    }
}

/// True if some table lies in frame `f`.
pub open spec fn uses(nodes: Nodes, f: int) -> bool {
    exists|a: (int, int)| nodes.contains_key(a) && #[trigger] nodes[a] as int == f
}

/// Between `a` and `b` the tables `before` have grown into `after`: as many
/// frames have been allocated as there are new tables, each is one of them,
/// nothing but tables and free frames has been written to, and no entry of a
/// table that was there has been closed to user code.
#[verifier::opaque]
pub open spec fn grown(a: Pmm, b: Pmm, before: Nodes, after: Nodes) -> bool {
    &&& before.submap_of(after)
    &&& after.dom().finite()
    &&& b.physmap_at() == a.physmap_at()
    &&& b.table_at() == a.table_at()
    &&& b.frames().len() == a.frames().len()
    &&& b.ram_words().len() == a.ram_words().len()
    &&& b.free_count() + after.dom().len() == a.free_count() + before.dom().len()
    &&& before.dom().len() <= after.dom().len()
    &&& user_bits_kept(before, a.ram_words(), b.ram_words())
    &&& b.pool() == a.pool().take_heads((after.dom().len() - before.dom().len()) as nat)
    &&& forall|f: int|
        0 <= f < a.frames().len() ==> #[trigger] b.frames()[f] == (if uses(after, f) && !uses(
            before,
            f,
        ) {
            a.frames()[f].with_owner(FrameOwner::of(OwnerTag::Kernel, 0))
        } else {
            a.frames()[f]
        })
    &&& forall|f: int| #[trigger] uses(after, f) && !uses(before, f) ==> a.free(f)
    &&& forall|i: int|
        0 <= i < a.ram_words().len() && !a.free(i / FRAME_WORDS as int) && !uses(
            before,
            i / FRAME_WORDS as int,
        ) ==> #[trigger] b.ram_words()[i] == a.ram_words()[i]
}

pub proof fn lemma_grown_trans(a: Pmm, b: Pmm, c: Pmm, n0: Nodes, n1: Nodes, n2: Nodes)
    requires
        grown(a, b, n0, n1),
        grown(b, c, n1, n2),
    ensures
        grown(a, c, n0, n2),
{
    reveal(grown);
    lemma_user_bits_kept_trans(n0, n1, a.ram_words(), b.ram_words(), c.ram_words());
    a.pool().lemma_take_heads_add(
        (n1.dom().len() - n0.dom().len()) as nat,
        (n2.dom().len() - n1.dom().len()) as nat,
    );
    assert(n0.submap_of(n2)) by {
        assert forall|k: (int, int)| #[trigger] n0.contains_key(k) implies n2.contains_key(k)
            && n0[k] == n2[k] by {
            assert(n1.contains_key(k));
        }
    }
    assert forall|f: int| #[trigger] uses(n0, f) implies uses(n1, f) by {
        let k = choose|k: (int, int)| n0.contains_key(k) && #[trigger] n0[k] as int == f;
        assert(n1.contains_key(k) && n1[k] as int == f);
    }
    assert forall|f: int| #[trigger] uses(n1, f) implies uses(n2, f) by {
        let k = choose|k: (int, int)| n1.contains_key(k) && #[trigger] n1[k] as int == f;
        assert(n2.contains_key(k) && n2[k] as int == f);
    }
    assert forall|f: int| #[trigger] uses(n2, f) && !uses(n0, f) implies a.free(f) by {
        if !uses(n1, f) {
            assert(b.free(f));
            assert(b.frames()[f] == a.frames()[f]);
        }
    }
    assert forall|f: int| 0 <= f < a.frames().len() implies #[trigger] c.frames()[f] == (if uses(
        n2,
        f,
    ) && !uses(n0, f) {
        a.frames()[f].with_owner(FrameOwner::of(OwnerTag::Kernel, 0))
    } else {
        a.frames()[f]
    }) by {
        assert(b.frames()[f] == b.frames()[f]);
    }
    assert forall|i: int|
        0 <= i < a.ram_words().len() && !a.free(i / FRAME_WORDS as int) && !uses(
            n0,
            i / FRAME_WORDS as int,
        ) implies #[trigger] c.ram_words()[i] == a.ram_words()[i] by {
        let f = i / FRAME_WORDS as int;
        assert(!uses(n1, f));
        if 0 <= f < a.frames().len() {
            assert(b.frames()[f] == a.frames()[f]);
        }
        assert(!b.free(f));
        assert(b.ram_words()[i] == a.ram_words()[i]);
    }
}

pub proof fn lemma_grown_refl(a: Pmm, nodes: Nodes)
    requires
        nodes.dom().finite(),
    ensures
        grown(a, a, nodes, nodes),
{
    reveal(grown);
    lemma_user_bits_kept_same(nodes, a.ram_words(), a.ram_words());
}

/// The tables of a tree have not grown while nothing has happened.
pub proof fn lemma_grown_refl_wf(root: FrameIndex, nodes: Nodes, a: Pmm)
    requires
        tree_wf(root, nodes, a.ram_words(), a.frames()),
    ensures
        grown(a, a, nodes, nodes),
{
    reveal(tree_wf);
    lemma_grown_refl(a, nodes);
}

} // verus!
