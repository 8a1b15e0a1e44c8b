//! From the bootloader's memory map to the regions that the memory manager
//! is given.

use crate::arch::FRAME_SIZE;
use crate::boot::{self, MemoryRegion, RegionKind, UntypedSpec};
use crate::math::{self, checked_align_up, round_down};
use crate::multiboot::{self, parse, Image, MemEntry, MT_USABLE};
use vstd::prelude::*;

verus! {

/// Most regions that are taken over from the bootloader.
pub const MAX_REGIONS: usize = 64;

/// Memory that is set aside as an untyped region, at most.
pub const UNTYPED_LEN: u64 = 0x400_0000;

/// First whole frame in a usable entry.
pub open spec fn usable_start(e: MemEntry) -> int {
    math::rounded_up(e.start as int, 4096)
}

/// Behind the last whole frame in a usable entry. An entry that runs past the
/// end of the address space has none.
pub open spec fn usable_stop(e: MemEntry) -> int {
    math::rounded_down(
        if e.start + e.len <= u64::MAX {
            e.start + e.len
        } else {
            e.start as int
        },
        4096,
    )
}

/// The region that an entry gives, if any: only the whole frames inside a
/// usable entry, any other entry as it is.
pub open spec fn region_of(e: MemEntry) -> Option<MemoryRegion> {
    if e.kind != MT_USABLE {
        Some(MemoryRegion { start: e.start, len: e.len, kind: RegionKind::Reserved })
    } else if usable_stop(e) <= usable_start(e) {
        None
    } else {
        Some(
            MemoryRegion {
                start: usable_start(e) as u64,
                len: (usable_stop(e) - usable_start(e)) as u64,
                kind: RegionKind::Usable,
            },
        )
    }
}

/// The regions that the first `n` entries give, in order.
pub open spec fn regions_of(entries: Seq<MemEntry>, n: int) -> Seq<MemoryRegion>
    decreases n,
{
    if n <= 0 {
        Seq::empty()
    } else {
        match region_of(entries[n - 1]) {
            Some(region) => regions_of(entries, n - 1).push(region),
            None => regions_of(entries, n - 1),
        }
    }
}

/// `sorted` with `region` put in behind the regions that do not start after
/// it.
pub open spec fn put_in(sorted: Seq<MemoryRegion>, region: MemoryRegion) -> Seq<MemoryRegion>
    decreases sorted.len(),
{
    if sorted.len() == 0 || sorted.last().start <= region.start {
        sorted.push(region)
    } else {
        put_in(sorted.drop_last(), region).push(sorted.last())
    }
}

/// The first `n` regions, sorted by start address; regions that start at the
/// same address keep their order.
pub open spec fn sorted_by_start(regions: Seq<MemoryRegion>, n: int) -> Seq<MemoryRegion>
    decreases n,
{
    if n <= 0 {
        Seq::empty()
    } else {
        put_in(sorted_by_start(regions, n - 1), regions[n - 1])
    }
}

/// True if `regions` is sorted by start address.
pub open spec fn is_sorted(regions: Seq<MemoryRegion>) -> bool {
    forall|i: int, j: int|
        0 <= i < j < regions.len() ==> (#[trigger] regions[i]).start <= (
        #[trigger] regions[j]).start
}

/// Regions in order stay in order, and are the same ones, when one is put in.
proof fn lemma_put_in(sorted: Seq<MemoryRegion>, region: MemoryRegion)
    requires
        is_sorted(sorted),
    ensures
        is_sorted(put_in(sorted, region)),
        put_in(sorted, region).to_multiset() == sorted.to_multiset().insert(region),
        put_in(sorted, region).len() == sorted.len() + 1,
        forall|i: int|
            0 <= i < sorted.len() + 1 ==> (#[trigger] put_in(sorted, region)[i]) == region || exists|
                j: int,
            |
                0 <= j < sorted.len() && sorted[j] == put_in(sorted, region)[i],
    decreases sorted.len(),
{
    broadcast use vstd::seq_lib::group_to_multiset_ensures;

    let result = put_in(sorted, region);
    if sorted.len() == 0 || sorted.last().start <= region.start {
        assert forall|i: int|
            0 <= i < sorted.len() + 1 implies (#[trigger] result[i]) == region || exists|j: int|
            0 <= j < sorted.len() && sorted[j] == result[i] by {
            if i < sorted.len() {
                assert(sorted[i] == result[i]);
            }
        }
    } else {
        let rest = sorted.drop_last();
        lemma_put_in(rest, region);
        let inner = put_in(rest, region);
        assert forall|i: int|
            0 <= i < sorted.len() + 1 implies (#[trigger] result[i]) == region || exists|j: int|
            0 <= j < sorted.len() && sorted[j] == result[i] by {
            if i < inner.len() {
                assert(result[i] == inner[i]);
                if inner[i] != region {
                    let j = choose|j: int| 0 <= j < rest.len() && rest[j] == inner[i];
                    assert(sorted[j] == result[i]);
                }
            } else {
                assert(sorted[sorted.len() - 1] == result[i]);
            }
        }
        assert forall|i: int, j: int| 0 <= i < j < result.len() implies (#[trigger] result[i]).start
            <= (#[trigger] result[j]).start by {
            if j < inner.len() {
                assert(inner[i].start <= inner[j].start);
            } else {
                assert(result[i] == inner[i]);
                if inner[i] != region {
                    let k = choose|k: int| 0 <= k < rest.len() && rest[k] == inner[i];
                    assert(sorted[k].start <= sorted[sorted.len() - 1].start);
                }
            }
        }
        assert(sorted =~= rest.push(sorted.last()));
        assert(result.to_multiset() =~= sorted.to_multiset().insert(region));
    }
}

/// Sorting orders the regions by start address and neither loses nor invents
/// any.
pub proof fn law_sorting_permutes(regions: Seq<MemoryRegion>, n: int)
    requires
        0 <= n <= regions.len(),
    ensures
        is_sorted(sorted_by_start(regions, n)),
        sorted_by_start(regions, n).len() == n,
        sorted_by_start(regions, n).to_multiset() == regions.take(n).to_multiset(),
    decreases n,
{
    broadcast use vstd::seq_lib::group_to_multiset_ensures;

    if n > 0 {
        law_sorting_permutes(regions, n - 1);
        lemma_put_in(sorted_by_start(regions, n - 1), regions[n - 1]);
        assert(regions.take(n) =~= regions.take(n - 1).push(regions[n - 1]));
    } else {
        assert(regions.take(0) =~= Seq::empty());
    }
}

/// Where a region is put in.
proof fn lemma_put_in_at(sorted: Seq<MemoryRegion>, region: MemoryRegion, j: int)
    requires
        0 <= j <= sorted.len(),
        j > 0 ==> sorted[j - 1].start <= region.start,
        forall|k: int| j <= k < sorted.len() ==> (#[trigger] sorted[k]).start > region.start,
    ensures
        put_in(sorted, region) == sorted.take(j).push(region) + sorted.skip(j),
    decreases sorted.len(),
{
    if j == sorted.len() {
        assert(sorted.take(j) =~= sorted);
        assert(sorted.take(j).push(region) + sorted.skip(j) =~= sorted.push(region));
    } else {
        let rest = sorted.drop_last();
        lemma_put_in_at(rest, region, j);
        assert(rest.take(j) =~= sorted.take(j));
        assert(put_in(sorted, region) =~= sorted.take(j).push(region) + sorted.skip(j));
    }
}

/// Insertion sort by start address (multiboot maps are normally ordered; this
/// takes care of those that are not).
fn sort_by_start(out: &mut Vec<MemoryRegion>)
    ensures
        final(out)@ == sorted_by_start(old(out)@, old(out)@.len() as int),
{
    let ghost all = out@;
    let mut i: usize = 1;
    proof {
        reveal_with_fuel(sorted_by_start, 2);
        if all.len() >= 1 {
            assert(sorted_by_start(all, 1) =~= all.take(1));
        } else {
            assert(sorted_by_start(all, 0) =~= all);
        }
    }
    while i < out.len()
        invariant
            all == old(out)@,
            out@.len() == all.len(),
            1 <= i,
            i <= out@.len() || out@.len() == 0,
            out@.len() > 0 ==> out@.take(i as int) == sorted_by_start(all, i as int),
            forall|k: int| i <= k < out@.len() ==> #[trigger] out@[k] == all[k],
        decreases out@.len() - i,
    {
        let key = out[i];
        let ghost sorted = sorted_by_start(all, i as int);
        let ghost before = out@;
        proof {
            assert(forall|k: int| 0 <= k < i ==> before[k] == before.take(i as int)[k]);
        }
        let mut j = i;
        while j > 0 && out[j - 1].start > key.start
            invariant
                j <= i < out@.len(),
                out@.len() == all.len(),
                sorted.len() == i,
                forall|k: int| 0 <= k < j ==> #[trigger] out@[k] == sorted[k],
                forall|k: int| j < k <= i ==> #[trigger] out@[k] == sorted[k - 1],
                forall|k: int| i < k < out@.len() ==> #[trigger] out@[k] == all[k],
                forall|k: int| j <= k < i ==> (#[trigger] sorted[k]).start > key.start,
            decreases j,
        {
            out[j] = out[j - 1];
            j = j - 1;
        }
        out[j] = key;
        proof {
            lemma_put_in_at(sorted, key, j as int);
            assert(out@.take(i + 1) =~= sorted.take(j as int).push(key) + sorted.skip(j as int));
            assert(key == all[i as int]);
        }
        i = i + 1;
    }
    assert(out@.len() > 0 ==> out@.take(out@.len() as int) =~= out@);
}

/// The regions that the memory map at `info` gives.
pub open spec fn boot_regions(image: Image<'_>, info: int) -> Seq<MemoryRegion> {
    let entries = multiboot::parsed_entries(image, info, MAX_REGIONS as nat);
    let regions = regions_of(entries, entries.len() as int);
    sorted_by_start(regions, regions.len() as int)
}

/// Copy the multiboot map, frame-aligning usable entries and sorting by start
/// address. `None` if the bootloader provided no memory map, or a malformed one.
pub fn fill_regions(image: &Image<'_>, info: u64) -> (r: Option<Vec<MemoryRegion>>)
    requires
        image.has(info as int, 52),
        info + 52 <= u64::MAX,
    ensures
        r is None <==> multiboot::parsed_entries(*image, info as int, MAX_REGIONS as nat).len()
            == 0,
        r matches Some(regions) ==> regions@ == boot_regions(*image, info as int),
{
    let blank = MemEntry { start: 0, len: 0, kind: 0 };
    let mut raw: Vec<MemEntry> = vec![blank; MAX_REGIONS];
    let ghost entries = multiboot::parsed_entries(*image, info as int, MAX_REGIONS as nat);
    let n = match parse(image, info, raw.as_mut_slice()) {
        Some(n) => n,
        None => {
            return None;
        },
    };
    let mut out: Vec<MemoryRegion> = Vec::new();
    let mut i: usize = 0;
    while i < n
        invariant
            i <= n == entries.len() <= raw@.len(),
            forall|k: int| 0 <= k < n ==> #[trigger] raw@[k] == entries[k],
            out@ == regions_of(entries, i as int),
        decreases n - i,
    {
        let e = raw[i];
        proof {
            assert(e == entries[i as int]);
        }
        if let Some(region) = region_from(&e) {
            out.push(region);
        }
        i = i + 1;
    }
    sort_by_start(&mut out);
    Some(out)
}

/// The region that an entry gives, if any.
fn region_from(e: &MemEntry) -> (r: Option<MemoryRegion>)
    ensures
        r == region_of(*e),
        e.kind != 1 ==> r == Some(
            (MemoryRegion { start: e.start, len: e.len, kind: RegionKind::Reserved }),
        ),
        r matches Some(region) ==> region.kind == RegionKind::Usable ==> e.kind == 1 && e.start
            <= region.start && region.start + region.len <= e.start + e.len,
{
    if e.kind != MT_USABLE {
        return Some(MemoryRegion { start: e.start, len: e.len, kind: RegionKind::Reserved });
    }
    // Keep only whole frames inside the reported range.
    let stop = match e.start.checked_add(e.len) {
        Some(stop) => stop,
        None => e.start,
    };
    let end = round_down(stop, FRAME_SIZE);
    proof {
        math::law_rounded_up(e.start as int, 4096);
        math::law_rounded_down(stop as int, 4096);
    }
    match checked_align_up(e.start, FRAME_SIZE) {
        None => None,
        Some(start) => {
            if end <= start {
                None
            } else {
                Some(MemoryRegion { start, len: end - start, kind: RegionKind::Usable })
            }
        },
    }
}

/// What every region taken over satisfies: usable ones are whole frames
/// within the address space.
pub open spec fn region_ok(region: MemoryRegion) -> bool {
    region.usable() ==> region.start % 4096 == 0 && region.len % 4096 == 0 && region.end_at()
        <= u64::MAX && region.len > 0
}

proof fn lemma_regions_of_ok(entries: Seq<MemEntry>, n: int)
    requires
        0 <= n <= entries.len(),
    ensures
        forall|i: int|
            0 <= i < regions_of(entries, n).len() ==> region_ok(
                #[trigger] regions_of(entries, n)[i],
            ),
    decreases n,
{
    if n > 0 {
        lemma_regions_of_ok(entries, n - 1);
        let e = entries[n - 1];
        math::law_rounded_up(e.start as int, 4096);
        math::law_rounded_down(
            if e.start + e.len <= u64::MAX {
                e.start + e.len
            } else {
                e.start as int
            },
            4096,
        );
        let before = regions_of(entries, n - 1);
        if region_of(e) is Some {
            let region = region_of(e)->0;
            assert(region_ok(region));
            let all = regions_of(entries, n);
            assert forall|i: int| 0 <= i < all.len() implies region_ok(#[trigger] all[i]) by {
                if i < before.len() {
                    assert(all[i] == before[i]);
                }
            }
        }
    }
}

proof fn lemma_sorted_ok(regions: Seq<MemoryRegion>, n: int)
    requires
        0 <= n <= regions.len(),
        forall|i: int| 0 <= i < regions.len() ==> region_ok(#[trigger] regions[i]),
    ensures
        forall|i: int|
            0 <= i < sorted_by_start(regions, n).len() ==> region_ok(
                #[trigger] sorted_by_start(regions, n)[i],
            ),
    decreases n,
{
    if n > 0 {
        lemma_sorted_ok(regions, n - 1);
        law_sorting_permutes(regions, n - 1);
        let before = sorted_by_start(regions, n - 1);
        lemma_put_in(before, regions[n - 1]);
        let all = sorted_by_start(regions, n);
        assert forall|i: int| 0 <= i < all.len() implies region_ok(#[trigger] all[i]) by {
            if all[i] != regions[n - 1] {
                let j = choose|j: int| 0 <= j < before.len() && before[j] == all[i];
                assert(region_ok(before[j]));
            }
        }
    }
}

/// The regions taken over from a bootloader are sorted, and usable ones are
/// whole frames within the address space, so that the memory manager takes
/// them.
pub proof fn law_boot_regions_are_accepted(image: Image<'_>, info: int)
    ensures
        is_sorted(boot_regions(image, info)),
        boot::regions_ok(boot_regions(image, info)),
        boot::regions_aligned(boot_regions(image, info)),
        boot_regions(image, info).len() <= MAX_REGIONS,
{
    let entries = multiboot::parsed_entries(image, info, MAX_REGIONS as nat);
    let n = entries.len() as int;
    let regions = regions_of(entries, n);
    lemma_regions_of_ok(entries, n);
    law_sorting_permutes(regions, regions.len() as int);
    lemma_sorted_ok(regions, regions.len() as int);
    lemma_regions_of_len(entries, n);
    multiboot::lemma_entries_len(image, info, MAX_REGIONS as nat);
    let all = boot_regions(image, info);
    assert forall|i: int| 0 <= i < all.len() && (#[trigger] all[i]).usable() implies all[i].end_at()
        <= u64::MAX && all[i].start % 4096 == 0 && all[i].len % 4096 == 0 by {
        assert(region_ok(all[i]));
    }
}

proof fn lemma_regions_of_len(entries: Seq<MemEntry>, n: int)
    requires
        0 <= n <= entries.len(),
    ensures
        regions_of(entries, n).len() <= n,
    decreases n,
{
    if n > 0 {
        lemma_regions_of_len(entries, n - 1);
    }
}

/// Region `k` is the first of those that end highest.
pub open spec fn is_highest(regions: Seq<MemoryRegion>, k: int) -> bool {
    &&& 0 <= k < regions.len()
    &&& regions[k].usable()
    &&& forall|j: int|
        0 <= j < regions.len() && (#[trigger] regions[j]).usable() ==> regions[j].end_at()
            <= regions[k].end_at()
    &&& forall|j: int|
        0 <= j < k && (#[trigger] regions[j]).usable() ==> regions[j].end_at() < regions[k].end_at()
}

/// The untyped region that is taken off the top of `region`.
pub open spec fn untyped_of(region: MemoryRegion) -> UntypedSpec {
    let len = if UNTYPED_LEN < region.len {
        UNTYPED_LEN
    } else {
        region.len
    };
    UntypedSpec { base_phys: (region.end_at() - len) as u64, len }
}

/// Reserve [`UNTYPED_LEN`] bytes off the top of the highest usable region, so
/// the kernel pool keeps all the low memory it can see. `None` if there is no
/// usable region.
pub fn pick_untyped_spec(regions: &[MemoryRegion]) -> (r: Option<UntypedSpec>)
    requires
        boot::regions_ok(regions@),
    ensures
        r is None <==> forall|i: int|
            0 <= i < regions@.len() && (#[trigger] regions@[i]).usable() ==> regions@[i].end_at()
                == 0,
        r matches Some(spec) ==> exists|k: int| #[trigger]
            is_highest(regions@, k) && spec == untyped_of(regions@[k]),
{
    let mut best_start: u64 = 0;
    let mut best_end: u64 = 0;
    let mut i: usize = 0;
    let ghost mut best: int = -1;
    while i < regions.len()
        invariant
            i <= regions@.len(),
            boot::regions_ok(regions@),
            best_end == 0 ==> forall|j: int|
                0 <= j < i && (#[trigger] regions@[j]).usable() ==> regions@[j].end_at() == 0,
            best_end > 0 ==> {
                &&& 0 <= best < i
                &&& regions@[best].usable()
                &&& regions@[best].start == best_start
                &&& regions@[best].end_at() == best_end
                &&& forall|j: int|
                    0 <= j < i && (#[trigger] regions@[j]).usable() ==> regions@[j].end_at()
                        <= best_end
                &&& forall|j: int|
                    0 <= j < best && (#[trigger] regions@[j]).usable() ==> regions@[j].end_at()
                        < best_end
            },
        decreases regions@.len() - i,
    {
        let region = regions[i];
        if region.kind == RegionKind::Usable {
            let end = region.end();
            if end > best_end {
                best_start = region.start;
                best_end = end;
                proof {
                    best = i as int;
                }
            }
        }
        i = i + 1;
    }
    if best_end == 0 {
        return None;
    }
    let whole = best_end - best_start;
    let len = if UNTYPED_LEN < whole {
        UNTYPED_LEN
    } else {
        whole
    };
    let spec = UntypedSpec { base_phys: best_end - len, len };
    assert(is_highest(regions@, best));
    assert(spec == untyped_of(regions@[best]));
    Some(spec)
}

/// What sorting gives is what it was given.
proof fn lemma_sorted_contains(regions: Seq<MemoryRegion>, region: MemoryRegion)
    ensures
        sorted_by_start(regions, regions.len() as int).contains(region) <==> regions.contains(
            region,
        ),
{
    law_sorting_permutes(regions, regions.len() as int);
    assert(regions.take(regions.len() as int) =~= regions);
    vstd::seq_lib::to_multiset_contains(regions, region);
    vstd::seq_lib::to_multiset_contains(
        sorted_by_start(regions, regions.len() as int),
        region,
    );
}

/// The regions that entries give are those that each of them gives.
proof fn lemma_regions_of_contains(entries: Seq<MemEntry>, n: int, region: MemoryRegion)
    requires
        0 <= n <= entries.len(),
    ensures
        regions_of(entries, n).contains(region) <==> exists|i: int|
            0 <= i < n && region_of(#[trigger] entries[i]) == Some(region),
    decreases n,
{
    if n > 0 {
        lemma_regions_of_contains(entries, n - 1, region);
        let before = regions_of(entries, n - 1);
        let all = regions_of(entries, n);
        if region_of(entries[n - 1]) is Some {
            assert(all[all.len() - 1] == region_of(entries[n - 1])->0);
            assert(forall|j: int| 0 <= j < before.len() ==> all[j] == before[j]);
            if before.contains(region) {
                let j = choose|j: int| 0 <= j < before.len() && before[j] == region;
                assert(all[j] == region);
            }
            if all.contains(region) {
                let j = choose|j: int| 0 <= j < all.len() && all[j] == region;
                if j < before.len() {
                    assert(before[j] == region);
                } else {
                    assert(region_of(entries[n - 1]) == Some(region));
                }
            }
        }
    }
}

/// The regions taken over are those that the entries of the map give.
proof fn lemma_boot_regions_contain(image: Image<'_>, info: int, region: MemoryRegion)
    ensures
        boot_regions(image, info).contains(region) <==> exists|i: int|
            0 <= i < multiboot::parsed_entries(image, info, MAX_REGIONS as nat).len()
                && region_of(
                #[trigger] multiboot::parsed_entries(image, info, MAX_REGIONS as nat)[i],
            ) == Some(region),
{
    let entries = multiboot::parsed_entries(image, info, MAX_REGIONS as nat);
    lemma_regions_of_contains(entries, entries.len() as int, region);
    lemma_sorted_contains(regions_of(entries, entries.len() as int), region);
}

/// Region `region` lies within the memory that entry `e` reports as usable.
pub open spec fn reported_usable(e: MemEntry, region: MemoryRegion) -> bool {
    &&& e.kind == MT_USABLE
    &&& e.start <= region.start
    &&& region.start + region.len <= e.start + e.len
}

/// Only what the map reports as usable is used: every usable region taken over
/// lies within an entry of that kind.
pub proof fn law_usable_regions_are_reported_usable(image: Image<'_>, info: int, k: int)
    requires
        0 <= k < boot_regions(image, info).len(),
        boot_regions(image, info)[k].kind == RegionKind::Usable,
    ensures
        MT_USABLE == 1,
        exists|i: int|
            0 <= i < multiboot::parsed_entries(image, info, MAX_REGIONS as nat).len()
                && reported_usable(
                #[trigger] multiboot::parsed_entries(image, info, MAX_REGIONS as nat)[i],
                boot_regions(image, info)[k],
            ),
{
    let entries = multiboot::parsed_entries(image, info, MAX_REGIONS as nat);
    let region = boot_regions(image, info)[k];
    assert(boot_regions(image, info).contains(region));
    lemma_boot_regions_contain(image, info, region);
    let i = choose|i: int|
        0 <= i < entries.len() && region_of(#[trigger] entries[i]) == Some(region);
    let e = entries[i];
    let stop = if e.start + e.len <= u64::MAX {
        e.start + e.len
    } else {
        e.start as int
    };
    math::law_rounded_up(e.start as int, 4096);
    math::law_rounded_down(stop, 4096);
    assert(reported_usable(e, region));
}

/// Every entry of another kind is taken over as a reserved region, just as it
/// is, and no other region is reserved.
pub proof fn law_other_entries_are_reserved(image: Image<'_>, info: int, i: int, k: int)
    ensures
        ({
            let entries = multiboot::parsed_entries(image, info, MAX_REGIONS as nat);
            let regions = boot_regions(image, info);
            &&& 0 <= i < entries.len() && entries[i].kind != 1 ==> exists|j: int|
                0 <= j < regions.len() && #[trigger] regions[j] == (MemoryRegion {
                    start: entries[i].start,
                    len: entries[i].len,
                    kind: RegionKind::Reserved,
                })
            &&& 0 <= k < regions.len() && regions[k].kind != RegionKind::Usable ==> exists|j: int|
                0 <= j < entries.len() && (#[trigger] entries[j]).kind != 1 && entries[j].start
                    == regions[k].start && entries[j].len == regions[k].len
        }),
{
    let entries = multiboot::parsed_entries(image, info, MAX_REGIONS as nat);
    let regions = boot_regions(image, info);
    if 0 <= i < entries.len() && entries[i].kind != 1 {
        let region = MemoryRegion {
            start: entries[i].start,
            len: entries[i].len,
            kind: RegionKind::Reserved,
        };
        assert(region_of(entries[i]) == Some(region));
        lemma_boot_regions_contain(image, info, region);
        let j = choose|j: int| 0 <= j < regions.len() && regions[j] == region;
        assert(regions[j] == region);
    }
    if 0 <= k < regions.len() && regions[k].kind != RegionKind::Usable {
        assert(regions.contains(regions[k]));
        lemma_boot_regions_contain(image, info, regions[k]);
        let j = choose|j: int|
            0 <= j < entries.len() && region_of(#[trigger] entries[j]) == Some(regions[k]);
        assert(entries[j].kind != 1);
    }
}

/// No usable frame is given away: every whole frame within a usable entry that
/// ends in the address space lies within a usable region.
pub proof fn law_whole_usable_frames_are_used(image: Image<'_>, info: int, i: int, f: int)
    requires
        0 <= i < multiboot::parsed_entries(image, info, MAX_REGIONS as nat).len(),
        ({
            let e = multiboot::parsed_entries(image, info, MAX_REGIONS as nat)[i];
            &&& e.kind == 1
            &&& e.start + e.len <= u64::MAX
            &&& e.start <= f * 4096
            &&& (f + 1) * 4096 <= e.start + e.len
        }),
    ensures
        exists|k: int|
            0 <= k < boot_regions(image, info).len() && (#[trigger] boot_regions(
                image,
                info,
            )[k]).kind == RegionKind::Usable && boot_regions(image, info)[k].start <= f * 4096 && (
            f + 1) * 4096 <= boot_regions(image, info)[k].start + boot_regions(image, info)[k].len,
{
    let entries = multiboot::parsed_entries(image, info, MAX_REGIONS as nat);
    let regions = boot_regions(image, info);
    let e = entries[i];
    let start = usable_start(e);
    let stop = usable_stop(e);
    math::law_rounded_up(e.start as int, 4096);
    math::law_rounded_down(e.start + e.len, 4096);
    math::law_rounded_up_least(e.start as int, 4096, f * 4096);
    assert(stop >= (f + 1) * 4096);
    let region = region_of(e)->0;
    assert(region_of(e) == Some(region));
    lemma_boot_regions_contain(image, info, region);
    let k = choose|k: int| 0 <= k < regions.len() && regions[k] == region;
    assert(regions[k] == region);
}

/// A map that is in order is left as it is: regions that start at the same
/// address keep their order.
pub proof fn law_sorting_keeps_what_is_in_order(regions: Seq<MemoryRegion>, n: int)
    requires
        0 <= n <= regions.len(),
        is_sorted(regions),
    ensures
        sorted_by_start(regions, n) == regions.take(n),
    decreases n,
{
    if n > 0 {
        law_sorting_keeps_what_is_in_order(regions, n - 1);
        let before = regions.take(n - 1);
        if n > 1 {
            assert(before.last() == regions[n - 2]);
            assert(regions[n - 2].start <= regions[n - 1].start);
        }
        assert(before.push(regions[n - 1]) =~= regions.take(n));
    } else {
        assert(regions.take(0) =~= Seq::empty());
    }
}

/// The untyped memory is 64 MiB, or all of the region if that is less; it lies
/// at the top of a usable region, and no usable region reaches higher.
pub proof fn law_untyped_is_the_highest_memory(regions: Seq<MemoryRegion>, k: int)
    requires
        is_highest(regions, k),
        boot::regions_ok(regions),
    ensures
        ({
            let spec = untyped_of(regions[k]);
            let region = regions[k];
            &&& region.kind == RegionKind::Usable
            &&& spec.base_phys + spec.len == region.start + region.len
            &&& region.start <= spec.base_phys
            &&& spec.len <= 0x400_0000
            &&& spec.len == 0x400_0000 || spec.len == region.len
            &&& forall|j: int|
                0 <= j < regions.len() && (#[trigger] regions[j]).kind == RegionKind::Usable
                    ==> regions[j].start + regions[j].len <= spec.base_phys + spec.len
        }),
{
}

/// An entry that runs past the end of the address space, or holds no whole
/// frame, gives no usable region.
pub proof fn law_entries_without_frames_give_nothing(e: MemEntry)
    requires
        e.kind == 1,
        e.start + e.len > u64::MAX || forall|f: int|
            e.start <= #[trigger] (f * 4096) ==> (f + 1) * 4096 > e.start + e.len,
    ensures
        region_of(e) is None,
{
    let stop = if e.start + e.len <= u64::MAX {
        e.start + e.len
    } else {
        e.start as int
    };
    math::law_rounded_up(e.start as int, 4096);
    math::law_rounded_down(stop, 4096);
    if e.start + e.len <= u64::MAX {
        let f = usable_start(e) / 4096;
        assert(f * 4096 == usable_start(e));
        assert(e.start <= f * 4096);
    }
}

/// A region that an entry gives is as large as it can be: less than a frame of
/// the entry is left over on either side.
pub proof fn law_little_is_left_over(e: MemEntry)
    requires
        e.kind == 1,
        region_of(e) is Some,
    ensures
        ({
            let region = region_of(e)->0;
            &&& region.kind == RegionKind::Usable
            &&& e.start <= region.start < e.start + 4096
            &&& region.start + region.len <= e.start + e.len < region.start + region.len + 4096
            &&& region.start % 4096 == 0
            &&& region.len % 4096 == 0
        }),
{
    math::law_rounded_up(e.start as int, 4096);
    math::law_rounded_down(
        if e.start + e.len <= u64::MAX {
            e.start + e.len
        } else {
            e.start as int
        },
        4096,
    );
}

/// The first 64 records of a memory map are used, each as it stands, and those
/// behind them are not.
pub proof fn law_sixty_four_records_are_used(image: Image<'_>, info: int, at: Seq<int>, i: int)
    requires
        (image.word32(info) / 0x40) % 2 == 1,
        multiboot::records_at(image, at),
        at.len() > 1,
        at[0] == image.word32(info + 48),
        at[at.len() - 2] < image.word32(info + 48) + image.word32(info + 44) <= at.last(),
        0 <= i < at.len() - 1,
    ensures
        ({
            let entries = multiboot::parsed_entries(image, info, MAX_REGIONS as nat);
            &&& i < 64 <==> i < entries.len()
            &&& i < 64 ==> entries[i] == multiboot::record_at(image, at[i])
        }),
{
    let end = image.word32(info + 48) + image.word32(info + 44);
    multiboot::law_every_record_is_read(image, at, end, MAX_REGIONS as nat);
    multiboot::law_info_block(image, info, MAX_REGIONS as nat);
}

} // verus!
