use vstd::prelude::*;

use crate::error::Error;
use crate::header::{part_view, PartView, UpdateHeader, UpdatePart, MAX_FULL_PATH_LEN, MAX_PARTS};

verus! {

/// One complete 32-bit range: the period at which on-disk u32 size and
/// offset fields wrap.
pub open spec fn u32_range() -> int {
    0x1_0000_0000
}

/// The value `recover_true_size` returns: the stored value itself when the
/// bound does not exceed it, and otherwise the largest value congruent to
/// `stored` modulo 2^32 that is at most `available`.
pub open spec fn true_size_spec(stored: u32, available: u64) -> int {
    if available <= stored {
        stored as int
    } else {
        stored + ((available - stored) / u32_range()) * u32_range()
    }
}

/// Recover a true (possibly >4 GiB) length from an on-disk u32 field that
/// only stores the low 32 bits. `available` is an upper bound derived from the
/// actual file layout; the true length is the largest value congruent to
/// `stored` modulo 2^32 that still fits within it.
pub fn recover_true_size(stored: u32, available: u64) -> (size: u64)
    ensures
        size == true_size_spec(stored, available),
{
    let stored = stored as u64;
    if available <= stored {
        return stored;
    }
    let gap: u64 = available - stored;
    let whole: u64 = (gap >> 32u64) << 32u64;
    assert(whole == (gap / 0x1_0000_0000) * 0x1_0000_0000 && whole <= gap) by (bit_vector)
        requires
            whole == (gap >> 32u64) << 32u64,
    ;
    stored + whole
}


/// Size of one sector of an RKAF image.
pub const SECTOR_SIZE: u64 = 2048;

/// `x / d` rounded up.
pub open spec fn ceil_div(x: int, d: int) -> int {
    if x % d == 0 {
        x / d
    } else {
        x / d + 1
    }
}

/// A member whose physical place is already known: the stored low offset,
/// the stored path, and the recovered offset and byte count.
pub type KnownMember = (u32, Seq<u8>, u64, u64);

/// The recovered place of the first known member with this stored offset and path.
pub open spec fn find_known(known: Seq<KnownMember>, offset: u32, path: Seq<u8>) -> Option<
    (u64, u64),
>
    decreases known.len(),
{
    if known.len() == 0 {
        None
    } else if known[0].0 == offset && known[0].1 == path {
        Some((known[0].2, known[0].3))
    } else {
        find_known(known.drop_first(), offset, path)
    }
}

/// What the layout recovery has built after some entries: the recovered
/// `(offset, byte count)` pairs, the members placed so far, and the end of
/// the last allocation.
pub type LayoutState = (Seq<(u64, u64)>, Seq<KnownMember>, int);

/// The true byte count of an entry that does not alias an earlier member.
pub open spec fn entry_true_count(p: PartView) -> int {
    let padded = p.padded_size * 2048;
    if padded == 0 {
        p.part_byte_count as int
    } else {
        true_size_spec(p.part_byte_count, padded as u64)
    }
}

/// The space reserved in the image for an entry that does not alias an earlier member.
pub open spec fn entry_allocation(p: PartView) -> int {
    let padded = p.padded_size * 2048;
    if padded == 0 {
        ceil_div(entry_true_count(p), 2048) * 2048
    } else {
        padded
    }
}

/// The physical offset of an entry: its stored low 32 bits, raised by as
/// many whole 32-bit ranges as needed to start at or after `previous_end`.
pub open spec fn entry_offset(p: PartView, previous_end: int) -> int {
    if p.part_offset < previous_end {
        p.part_offset + ceil_div(previous_end - p.part_offset, u32_range()) * u32_range()
    } else {
        p.part_offset as int
    }
}

/// One step of layout recovery: place entry `p` after the state `st`.
pub open spec fn layout_step(st: LayoutState, p: PartView, container_end: u64) -> Result<
    LayoutState,
    Error,
> {
    let (entries, known, previous_end) = st;
    if p.part_offset == 0 {
        Ok((entries.push((0u64, p.part_byte_count as u64)), known, previous_end))
    } else if find_known(known, p.part_offset, p.full_path) is Some {
        Ok((entries.push(find_known(known, p.part_offset, p.full_path).unwrap()), known, previous_end))
    } else {
        let count = entry_true_count(p);
        let offset = entry_offset(p, previous_end);
        if offset > u64::MAX {
            Err(Error::PartitionOffsetOverflow)
        } else if offset + count > u64::MAX {
            Err(Error::PartitionDataOverflow)
        } else if offset + entry_allocation(p) > u64::MAX {
            Err(Error::PartitionAllocationOverflow)
        } else if offset + count > container_end {
            Err(Error::PartitionOutsideContainer(offset as u64, count as u64, container_end))
        } else {
            Ok(
                (
                    entries.push((offset as u64, count as u64)),
                    known.push((p.part_offset, p.full_path, offset as u64, count as u64)),
                    offset + entry_allocation(p),
                ),
            )
        }
    }
}

/// Layout recovery over the first `n` entries of `parts`.
pub open spec fn layout_fold(parts: Seq<PartView>, n: nat, container_end: u64) -> Result<
    LayoutState,
    Error,
>
    decreases n,
{
    if n == 0 {
        Ok((Seq::empty(), Seq::empty(), 0))
    } else {
        match layout_fold(parts, (n - 1) as nat, container_end) {
            Err(e) => Err(e),
            Ok(st) => layout_step(st, parts[n - 1], container_end),
        }
    }
}

/// The views of partition entries.
pub open spec fn parts_view(ps: Seq<UpdatePart>) -> Seq<PartView> {
    ps.map_values(|p: UpdatePart| part_view(p))
}

/// Number of header entries that layout recovery looks at.
pub open spec fn listed_parts(header: UpdateHeader) -> nat {
    if header.num_parts > 16 {
        16
    } else {
        header.num_parts as nat
    }
}

/// The result of layout recovery for a header and a container end.
pub open spec fn partition_layout_spec(header: UpdateHeader, container_end: u64) -> Result<
    Seq<(u64, u64)>,
    Error,
> {
    match layout_fold(parts_view(header.parts@), listed_parts(header), container_end) {
        Ok(st) => Ok(st.0),
        Err(e) => Err(e),
    }
}

/// Look up an already placed member with the same stored offset and path.
fn find_known_member(known: &Vec<(u32, [u8; MAX_FULL_PATH_LEN], u64, u64)>, offset: u32, path: &[u8; MAX_FULL_PATH_LEN]) -> (found: Option<(u64, u64)>)
    ensures
        found == find_known(known_view(known@), offset, path@),
{
    let mut i: usize = 0;
    assert(known_view(known@).subrange(0, known@.len() as int) =~= known_view(known@));
    while i < known.len()
        invariant
            0 <= i <= known@.len(),
            find_known(known_view(known@), offset, path@) == find_known(
                known_view(known@).subrange(i as int, known@.len() as int),
                offset,
                path@,
            ),
        decreases known@.len() - i,
    {
        let ghost rest = known_view(known@).subrange(i as int, known@.len() as int);
        let entry = &known[i];
        if entry.0 == offset && crate::bytes::bytes_equal(entry.1.as_slice(), path.as_slice()) {
            assert(rest[0] == known_view(known@)[i as int]);
            assert(entry.1@ == path@);
            return Some((entry.2, entry.3));
        }
        proof {
            assert(rest[0] == known_view(known@)[i as int]);
            if rest[0].1 == path@ {
                assert(entry.1@ == path@);
                assert(entry.1 =~= *path);
            }
            assert(rest.drop_first() =~= known_view(known@).subrange(i + 1, known@.len() as int));
        }
        i = i + 1;
    }
    None
}

/// The members placed so far, with paths taken by their views.
pub open spec fn known_view(known: Seq<(u32, [u8; MAX_FULL_PATH_LEN], u64, u64)>) -> Seq<KnownMember> {
    known.map_values(|k: (u32, [u8; MAX_FULL_PATH_LEN], u64, u64)| (k.0, k.1@, k.2, k.3))
}

/// Place one header entry after the members placed so far.
fn place_entry(
    layout: &mut Vec<(u64, u64)>,
    known: &mut Vec<(u32, [u8; MAX_FULL_PATH_LEN], u64, u64)>,
    previous_end: &mut u64,
    part: &UpdatePart,
    container_end: u64,
) -> (result: Result<(), Error>)
    ensures
        match layout_step(
            (old(layout)@, known_view(old(known)@), *old(previous_end) as int),
            part_view(*part),
            container_end,
        ) {
            Ok(st) => result is Ok && final(layout)@ == st.0 && known_view(final(known)@) == st.1
                && *final(previous_end) == st.2,
            Err(e) => result == Err::<(), Error>(e),
        },
{
    if part.part_offset == 0 {
        layout.push((0, part.part_byte_count as u64));
        return Ok(());
    }
    match find_known_member(known, part.part_offset, &part.full_path) {
        Some(place) => {
            layout.push(place);
            return Ok(());
        },
        None => {},
    }
    let padded_bytes: u64 = part.padded_size as u64 * SECTOR_SIZE;
    let true_count: u64 = if padded_bytes == 0 {
        part.part_byte_count as u64
    } else {
        recover_true_size(part.part_byte_count, padded_bytes)
    };
    let allocation_size: u64 = if padded_bytes == 0 {
        let sectors = if true_count % SECTOR_SIZE == 0 {
            true_count / SECTOR_SIZE
        } else {
            true_count / SECTOR_SIZE + 1
        };
        sectors * SECTOR_SIZE
    } else {
        padded_bytes
    };
    assert(true_count == entry_true_count(part_view(*part)));
    assert(allocation_size == entry_allocation(part_view(*part)));
    let mut offset = part.part_offset as u64;
    if offset < *previous_end {
        let gap = *previous_end - offset;
        let wraps: u64 = if gap % 0x1_0000_0000 == 0 {
            gap / 0x1_0000_0000
        } else {
            gap / 0x1_0000_0000 + 1
        };
        if wraps > (u64::MAX - offset) / 0x1_0000_0000 {
            assert(wraps * 0x1_0000_0000 > u64::MAX - offset) by (nonlinear_arith)
                requires
                    wraps > (u64::MAX - offset) / 0x1_0000_0000,
            ;
            return Err(Error::PartitionOffsetOverflow);
        }
        assert(wraps * 0x1_0000_0000 <= u64::MAX - offset) by (nonlinear_arith)
            requires
                wraps <= (u64::MAX - offset) / 0x1_0000_0000,
        ;
        offset = offset + wraps * 0x1_0000_0000;
    }
    assert(offset == entry_offset(part_view(*part), *old(previous_end) as int));
    if true_count > u64::MAX - offset {
        return Err(Error::PartitionDataOverflow);
    }
    let data_end = offset + true_count;
    if allocation_size > u64::MAX - offset {
        return Err(Error::PartitionAllocationOverflow);
    }
    let allocation_end = offset + allocation_size;
    if data_end > container_end {
        return Err(Error::PartitionOutsideContainer(offset, true_count, container_end));
    }
    layout.push((offset, true_count));
    known.push((part.part_offset, part.full_path, offset, true_count));
    *previous_end = allocation_end;
    assert(known_view(known@) =~= known_view(old(known)@).push(
        (part.part_offset, part.full_path@, offset, true_count),
    ));
    Ok(())
}

/// Once layout recovery fails on a prefix of the entries it fails with the
/// same error on every longer prefix.
proof fn lemma_layout_error_persists(parts: Seq<PartView>, n: nat, m: nat, container_end: u64)
    requires
        n <= m,
        layout_fold(parts, n, container_end) is Err,
    ensures
        layout_fold(parts, m, container_end) == layout_fold(parts, n, container_end),
    decreases m - n,
{
    if n < m {
        lemma_layout_error_persists(parts, n, (m - 1) as nat, container_end);
    }
}

/// Recover the 64-bit physical layout represented by RKAF's 32-bit offset
/// and byte-count fields, one `(offset, byte count)` pair per listed entry.
/// `padded_size` is a sector count and therefore retains the true
/// allocation size even when a partition crosses the 4 GiB boundary.
pub fn recover_partition_layout(header: &UpdateHeader, container_end: u64) -> (result: Result<
    Vec<(u64, u64)>,
    Error,
>)
    ensures
        match partition_layout_spec(*header, container_end) {
            Ok(entries) => result matches Ok(v) && v@ == entries,
            Err(e) => result == Err::<Vec<(u64, u64)>, Error>(e),
        },
{
    let count: usize = if header.num_parts as usize > MAX_PARTS {
        MAX_PARTS
    } else {
        header.num_parts as usize
    };
    let mut layout: Vec<(u64, u64)> = Vec::new();
    let mut known: Vec<(u32, [u8; MAX_FULL_PATH_LEN], u64, u64)> = Vec::new();
    let mut previous_end: u64 = 0;
    assert(layout@ =~= Seq::<(u64, u64)>::empty());
    assert(known_view(known@) =~= Seq::<KnownMember>::empty());
    let mut index: usize = 0;
    while index < count
        invariant
            0 <= index <= count,
            count == listed_parts(*header),
            count <= MAX_PARTS,
            layout_fold(parts_view(header.parts@), index as nat, container_end) == Ok::<LayoutState, Error>(
                (layout@, known_view(known@), previous_end as int),
            ),
        decreases count - index,
    {
        let part = header.parts[index];
        assert(header.parts@[index as int] == part);
        match place_entry(&mut layout, &mut known, &mut previous_end, &part, container_end) {
            Ok(()) => {},
            Err(e) => {
                proof {
                    lemma_layout_error_persists(
                        parts_view(header.parts@),
                        (index + 1) as nat,
                        count as nat,
                        container_end,
                    );
                }
                return Err(e);
            },
        }
        index = index + 1;
    }
    Ok(layout)
}


/// The recovered size keeps the stored low 32 bits, never exceeds the larger
/// of the stored value and the bound, and is the largest such value: any
/// size that agrees with the stored field modulo 2^32 and fits within the
/// bound is at most the recovered one. In particular, when the true size `t`
/// is known to satisfy `t <= available < t + 2^32`, it is recovered exactly.
pub proof fn law_recovered_size_is_largest_fit(stored: u32, available: u64, t: int)
    ensures
        true_size_spec(stored, available) % u32_range() == stored as int,
        true_size_spec(stored, available) >= stored,
        available > stored ==> true_size_spec(stored, available) <= available
            < true_size_spec(stored, available) + u32_range(),
        available <= stored ==> true_size_spec(stored, available) == stored,
        stored <= t <= available && t % u32_range() == stored as int ==> t <= true_size_spec(
            stored,
            available,
        ),
        stored <= t <= available < t + u32_range() && t % u32_range() == stored as int ==> t
            == true_size_spec(stored, available),
{
    let r = true_size_spec(stored, available);
    let s = stored as int;
    assert(s % u32_range() == s);
    if available > stored {
        let g = available - s;
        let q = g / u32_range();
        assert(r == s + q * u32_range());
        assert(0 <= g - q * u32_range() < u32_range()) by (nonlinear_arith)
            requires
                q == g / 0x1_0000_0000int,
                g >= 0,
        ;
        assert((s + q * u32_range()) % u32_range() == s) by (nonlinear_arith)
            requires
                0 <= s < 0x1_0000_0000int,
                q >= 0,
        ;
        if s <= t <= available && t % u32_range() == s {
            let d = (t - s) / u32_range();
            assert(t == s + d * u32_range()) by (nonlinear_arith)
                requires
                    t % 0x1_0000_0000int == s,
                    0 <= s < 0x1_0000_0000int,
                    t >= s,
                    d == (t - s) / 0x1_0000_0000int,
            ;
            assert(d <= q) by (nonlinear_arith)
                requires
                    d * 0x1_0000_0000int <= g,
                    q == g / 0x1_0000_0000int,
                    d >= 0,
            ;
            assert(d * u32_range() <= q * u32_range()) by (nonlinear_arith)
                requires
                    d <= q,
            ;
        }
    } else {
        if s <= t <= available && t % u32_range() == s {
        }
    }
}

/// The layout state after placing some entries is consistent: every placed
/// member keeps its stored low 32 bits and lies within the container, and
/// so does every recovered entry.
pub open spec fn layout_consistent(
    parts: Seq<PartView>,
    n: nat,
    st: LayoutState,
    container_end: u64,
) -> bool {
    &&& st.0.len() == n
    &&& forall|j: int|
        0 <= j < st.1.len() ==> (#[trigger] st.1[j]).2 as int % u32_range() == st.1[j].0 as int
            && st.1[j].2 + st.1[j].3 <= container_end && st.1[j].0 != 0
    &&& forall|i: int|
        0 <= i < n ==> (#[trigger] st.0[i]).0 as int % u32_range() == parts[i].part_offset as int
            && (parts[i].part_offset != 0 ==> st.0[i].0 + st.0[i].1 <= container_end)
}

/// A member found by stored offset and path is one of the placed members.
proof fn lemma_find_known_member(known: Seq<KnownMember>, offset: u32, path: Seq<u8>)
    requires
        find_known(known, offset, path) is Some,
    ensures
        exists|j: int|
            0 <= j < known.len() && known[j].0 == offset && (known[j].2, known[j].3) == find_known(
                known,
                offset,
                path,
            ).unwrap(),
    decreases known.len(),
{
    if known[0].0 == offset && known[0].1 == path {
        assert(known[0].0 == offset);
    } else {
        lemma_find_known_member(known.drop_first(), offset, path);
        let j = choose|j: int|
            0 <= j < known.drop_first().len() && known.drop_first()[j].0 == offset && (
            known.drop_first()[j].2,
            known.drop_first()[j].3,
        ) == find_known(known.drop_first(), offset, path).unwrap();
        assert(known[j + 1] == known.drop_first()[j]);
    }
}

/// Placing the entries keeps the layout state consistent.
proof fn lemma_layout_fold_consistent(parts: Seq<PartView>, n: nat, container_end: u64)
    requires
        n <= parts.len(),
        layout_fold(parts, n, container_end) is Ok,
    ensures
        layout_consistent(parts, n, layout_fold(parts, n, container_end).unwrap(), container_end),
    decreases n,
{
    if n > 0 {
        let m = (n - 1) as nat;
        lemma_layout_fold_consistent(parts, m, container_end);
        let st = layout_fold(parts, m, container_end).unwrap();
        let p = parts[m as int];
        let next = layout_fold(parts, n, container_end).unwrap();
        let (entries, known, prev) = st;
        if p.part_offset == 0 {
            assert(next.0[m as int].0 == 0);
        } else if find_known(known, p.part_offset, p.full_path) is Some {
            lemma_find_known_member(known, p.part_offset, p.full_path);
        } else {
            let off = entry_offset(p, prev);
            let po = p.part_offset as int;
            if po < prev {
                let c = ceil_div(prev - po, u32_range());
                assert(c >= 0) by (nonlinear_arith)
                    requires
                        prev - po > 0,
                        c == ceil_div(prev - po, 0x1_0000_0000int),
                ;
                assert((po + c * u32_range()) % u32_range() == po) by (nonlinear_arith)
                    requires
                        0 <= po < 0x1_0000_0000int,
                        c >= 0,
                ;
            }
            assert(off % u32_range() == po);
        }
        assert forall|i: int| 0 <= i < n implies (#[trigger] next.0[i]).0 as int % u32_range()
            == parts[i].part_offset as int && (parts[i].part_offset != 0 ==> next.0[i].0
            + next.0[i].1 <= container_end) by {
            if i < m {
                assert(next.0[i] == entries[i]);
            }
        }
    }
}

/// Every entry of a recovered layout keeps the stored low 32 bits of its
/// offset, and every entry with a nonzero stored offset lies within the
/// container; entries with a zero stored offset are reported at offset 0
/// with their stored byte count.
pub proof fn law_recovered_layout_within_container(header: UpdateHeader, container_end: u64)
    requires
        partition_layout_spec(header, container_end) is Ok,
    ensures
        ({
            let entries = partition_layout_spec(header, container_end).unwrap();
            &&& entries.len() == listed_parts(header)
            &&& forall|i: int|
                0 <= i < entries.len() ==> (#[trigger] entries[i]).0 as int % u32_range()
                    == header.parts@[i].part_offset as int
            &&& forall|i: int|
                0 <= i < entries.len() && header.parts@[i].part_offset != 0 ==> (
                #[trigger] entries[i]).0 + entries[i].1 <= container_end
            &&& forall|i: int|
                0 <= i < entries.len() && header.parts@[i].part_offset == 0 ==> #[trigger] entries[i]
                    == (0u64, header.parts@[i].part_byte_count as u64)
        }),
{
    let n = listed_parts(header);
    lemma_layout_fold_consistent(parts_view(header.parts@), n, container_end);
    lemma_zero_offset_entries(parts_view(header.parts@), n, container_end);
}

/// Entries with a zero stored offset are reported at offset 0 with their stored byte count.
proof fn lemma_zero_offset_entries(parts: Seq<PartView>, n: nat, container_end: u64)
    requires
        n <= parts.len(),
        layout_fold(parts, n, container_end) is Ok,
    ensures
        forall|i: int|
            0 <= i < n && parts[i].part_offset == 0 ==> #[trigger] layout_fold(
                parts,
                n,
                container_end,
            ).unwrap().0[i] == (0u64, parts[i].part_byte_count as u64),
    decreases n,
{
    if n > 0 {
        let m = (n - 1) as nat;
        lemma_zero_offset_entries(parts, m, container_end);
        lemma_layout_fold_consistent(parts, m, container_end);
        let st = layout_fold(parts, m, container_end).unwrap();
        let next = layout_fold(parts, n, container_end).unwrap();
        assert forall|i: int| 0 <= i < n && parts[i].part_offset == 0 implies #[trigger] next.0[i]
            == (0u64, parts[i].part_byte_count as u64) by {
            if i < m {
                assert(next.0[i] == st.0[i]);
                assert(st.0[i] == layout_fold(parts, m, container_end).unwrap().0[i]);
            }
        }
    }
}

} // verus!
