//! What unpacking reads back from a header that packing wrote.
use vstd::prelude::*;

use crate::crc::{parm_wrap_spec, rkcrc32_spec};
use crate::error::Error;
use crate::header::{
    header_bytes, header_image, le32_at, le32_bytes, lemma_header_bytes_len,
    lemma_header_image_iff_bytes, PartView, UpdateHeader,
};
use crate::layout::{
    ceil_div, entry_allocation, entry_offset, entry_true_count, find_known,
    law_recovered_size_is_largest_fit, layout_fold, listed_parts, partition_layout_spec,
    parts_view, u32_range, KnownMember, LayoutState,
};
use crate::rkaf::{
    cstr_spec, cstr_write_spec, emitting, entry_place, first_nul, header_view,
    header_view_of_bytes, lemma_first_nul_prefix, lemma_member_list_prefix, rkaf_start_spec,
    lemma_padded_at_least, lemma_padded_sum_grows, lemma_path_index_prefix,
    lemma_path_index_valid, member_list, packed_header_spec, padded, padded_sum, path_index,
    self_path, utf8_of, Entry, HeaderView,
};

verus! {

/// Where the data of member `k` of a packed image starts: right after the
/// 2048-byte header and the whole sectors of the members before it.
pub open spec fn member_start(sizes: Seq<u64>, k: nat) -> int {
    2048 + padded_sum(sizes, k)
}

/// A path that the 60-byte path field stores whole and tells apart from
/// every other: at most 59 UTF-8 bytes, none of them NUL.
pub open spec fn plain_path(p: Seq<char>) -> bool {
    &&& utf8_of(p).len() < 60
    &&& forall|i: int| 0 <= i < utf8_of(p).len() ==> utf8_of(p)[i] != 0
}

/// The inputs on which unpacking reads a packed layout back: at most 16
/// header slots; a size for every member, and all members ending within the
/// container; every member's size in sectors fits its 32-bit field; no
/// member starts at a multiple of 4 GiB (a stored offset of 0 marks an entry
/// without data); every stored path is plain; and the slots that name one
/// member held the same path field before packing, so that they still match.
pub open spec fn packed_layout_recoverable(
    base: Seq<PartView>,
    es: Seq<Entry>,
    sizes: Seq<u64>,
    container_end: u64,
) -> bool {
    let ems = emitting(es);
    let ml = member_list(ems);
    &&& ems.len() <= 16
    &&& sizes.len() >= ml.len()
    &&& member_start(sizes, ml.len()) <= container_end
    &&& forall|k: int| 0 <= k < ml.len() ==> ceil_div(#[trigger] sizes[k] as int, 2048) <= u32::MAX
    &&& forall|k: nat| k < ml.len() ==> #[trigger] member_start(sizes, k) % u32_range() != 0
    &&& forall|j: int| 0 <= j < ems.len() && ems[j].1 != self_path() ==> plain_path(#[trigger] ems[j].1)
    &&& forall|j1: int, j2: int|
        #![trigger ems[j1], ems[j2]]
        0 <= j1 < ems.len() && 0 <= j2 < ems.len() && ems[j1].1 == ems[j2].1 && ems[j1].1
            != self_path() ==> base[j1].full_path == base[j2].full_path
}

/// The members unpacking has placed after reading the first `c` members of
/// a packed header: stored low offset, stored path field, true offset, size.
spec fn read_back_known(base: Seq<PartView>, es: Seq<Entry>, sizes: Seq<u64>, c: nat) -> Seq<
    KnownMember,
> {
    let ems = emitting(es);
    let ml = member_list(ems);
    Seq::new(
        c,
        |k: int|
            {
                let p = ml[k].1;
                let s = member_start(sizes, k as nat) as u64;
                (
                    s as u32,
                    cstr_write_spec(base[path_index(ems, p).unwrap() as int].full_path, utf8_of(p)),
                    s,
                    sizes[k],
                )
            },
    )
}

/// The layout state after unpacking has read the first `n` slots of a packed header.
spec fn read_back_state(base: Seq<PartView>, es: Seq<Entry>, sizes: Seq<u64>, n: nat) -> LayoutState {
    let ems = emitting(es);
    let ml = member_list(ems);
    let c = member_list(ems.subrange(0, n as int)).len();
    (
        Seq::new(n, |j: int| entry_place(sizes, ml, ems[j])),
        read_back_known(base, es, sizes, c),
        if c == 0 {
            0
        } else {
            member_start(sizes, c)
        },
    )
}

/// Truncating a 64-bit value to 32 bits keeps it modulo 2^32.
proof fn lemma_low_bits(x: u64)
    ensures
        (x as u32) as int == x as int % u32_range(),
{
    assert(x as u32 == x % 0x1_0000_0000) by (bit_vector);
}

/// A path found in a list is found at or before any index that holds it.
proof fn lemma_path_index_some(s: Seq<Entry>, p: Seq<char>, j: int)
    requires
        0 <= j < s.len(),
        s[j].1 == p,
    ensures
        path_index(s, p) is Some,
        path_index(s, p).unwrap() <= j,
    decreases s.len(),
{
    if j < s.len() - 1 {
        assert(s.drop_last()[j] == s[j]);
        lemma_path_index_some(s.drop_last(), p, j);
    } else if path_index(s.drop_last(), p) is Some {
        lemma_path_index_valid(s.drop_last(), p);
    }
}

/// No entry before the found index holds the path.
proof fn lemma_path_index_first(s: Seq<Entry>, p: Seq<char>)
    requires
        path_index(s, p) is Some,
    ensures
        forall|m: int| 0 <= m < path_index(s, p).unwrap() ==> (#[trigger] s[m]).1 != p,
{
    assert forall|m: int| 0 <= m < path_index(s, p).unwrap() implies (#[trigger] s[m]).1 != p by {
        lemma_path_index_valid(s, p);
        if s[m].1 == p {
            lemma_path_index_some(s, p, m);
        }
    }
}

/// A path that is not found is held by no entry.
proof fn lemma_path_index_none(s: Seq<Entry>, p: Seq<char>)
    requires
        path_index(s, p) is None,
    ensures
        forall|m: int| 0 <= m < s.len() ==> (#[trigger] s[m]).1 != p,
{
    assert forall|m: int| 0 <= m < s.len() implies (#[trigger] s[m]).1 != p by {
        if s[m].1 == p {
            lemma_path_index_some(s, p, m);
        }
    }
}

/// Every member is a non-"SELF" path that some slot names, and no two
/// members share a path.
proof fn lemma_member_list_facts(ems: Seq<Entry>)
    ensures
        forall|k: int|
            0 <= k < member_list(ems).len() ==> (#[trigger] member_list(ems)[k]).1 != self_path()
                && path_index(ems, member_list(ems)[k].1) is Some,
        forall|k1: int, k2: int|
            0 <= k1 < k2 < member_list(ems).len() ==> (#[trigger] member_list(ems)[k1]).1
                != (#[trigger] member_list(ems)[k2]).1,
    decreases ems.len(),
{
    if ems.len() > 0 {
        let r = member_list(ems.drop_last());
        let e = ems.last();
        lemma_member_list_facts(ems.drop_last());
        let ml = member_list(ems);
        assert forall|k: int| 0 <= k < ml.len() implies (#[trigger] ml[k]).1 != self_path()
            && path_index(ems, ml[k].1) is Some by {
            if k < r.len() {
                assert(ml[k] == r[k]);
            } else {
                lemma_path_index_some(ems, e.1, ems.len() - 1);
            }
        }
        if !(e.1 == self_path() || path_index(r, e.1) is Some) {
            lemma_path_index_none(r, e.1);
            assert forall|k1: int, k2: int| 0 <= k1 < k2 < ml.len() implies (#[trigger] ml[k1]).1
                != (#[trigger] ml[k2]).1 by {
                assert(ml[k1] == r[k1]);
                if k2 < r.len() {
                    assert(ml[k2] == r[k2]);
                }
            }
        }
    }
}

/// NUL-terminated writes of two different plain byte strings differ.
proof fn lemma_cstr_writes_differ(f1: Seq<u8>, f2: Seq<u8>, v1: Seq<u8>, v2: Seq<u8>)
    requires
        f1.len() == 60,
        f2.len() == 60,
        v1.len() < 60,
        v2.len() < 60,
        v1 != v2,
        forall|i: int| 0 <= i < v1.len() ==> v1[i] != 0,
        forall|i: int| 0 <= i < v2.len() ==> v2[i] != 0,
    ensures
        cstr_write_spec(f1, v1) != cstr_write_spec(f2, v2),
{
    let w1 = cstr_write_spec(f1, v1);
    let w2 = cstr_write_spec(f2, v2);
    if v1.len() < v2.len() {
        assert(w1[v1.len() as int] != w2[v1.len() as int]);
    } else if v2.len() < v1.len() {
        assert(w1[v2.len() as int] != w2[v2.len() as int]);
    } else {
        if forall|i: int| 0 <= i < v1.len() ==> v1[i] == v2[i] {
            assert(v1 =~= v2);
        }
        let i = choose|i: int| 0 <= i < v1.len() && v1[i] != v2[i];
        assert(w1[i] != w2[i]);
    }
}

/// The first member with this stored offset and path is the one found.
proof fn lemma_find_known_first(known: Seq<KnownMember>, offset: u32, path: Seq<u8>, k: int)
    requires
        0 <= k < known.len(),
        known[k].0 == offset,
        known[k].1 == path,
        forall|m: int| 0 <= m < k ==> (#[trigger] known[m]).1 != path,
    ensures
        find_known(known, offset, path) == Some((known[k].2, known[k].3)),
    decreases k,
{
    if k > 0 {
        assert(known[0].1 != path);
        let rest = known.drop_first();
        assert forall|m: int| 0 <= m < k - 1 implies (#[trigger] rest[m]).1 != path by {
            assert(rest[m] == known[m + 1]);
        }
        lemma_find_known_first(rest, offset, path, k - 1);
    }
}

/// No member is found when none has the path.
proof fn lemma_find_known_absent(known: Seq<KnownMember>, offset: u32, path: Seq<u8>)
    requires
        forall|m: int| 0 <= m < known.len() ==> (#[trigger] known[m]).1 != path,
    ensures
        find_known(known, offset, path) is None,
    decreases known.len(),
{
    if known.len() > 0 {
        assert(known[0].1 != path);
        let rest = known.drop_first();
        assert forall|m: int| 0 <= m < rest.len() implies (#[trigger] rest[m]).1 != path by {
            assert(rest[m] == known[m + 1]);
        }
        lemma_find_known_absent(rest, offset, path);
    }
}

/// A member's stored low offset, raised past the end of the member before
/// it, gives back its true start.
proof fn lemma_offset_restored(p: PartView, t: int, prev: int)
    requires
        0 < t,
        p.part_offset as int == t % u32_range(),
        (prev == 0 && t < u32_range()) || prev == t,
    ensures
        entry_offset(p, prev) == t,
{
    let po = p.part_offset as int;
    if po < prev {
        let q = t / u32_range();
        assert(t == q * u32_range() + po && q >= 0) by (nonlinear_arith)
            requires
                po == t % 0x1_0000_0000int,
                q == t / 0x1_0000_0000int,
                t > 0,
        ;
        assert((prev - po) % u32_range() == 0 && (prev - po) / u32_range() == q) by (nonlinear_arith)
            requires
                prev - po == q * 0x1_0000_0000int,
                q >= 0,
        ;
    } else {
        assert(po <= t) by (nonlinear_arith)
            requires
                po == t % 0x1_0000_0000int,
                t > 0,
        ;
        if prev == 0 {
            assert(po == t) by (nonlinear_arith)
                requires
                    po == t % 0x1_0000_0000int,
                    0 < t < 0x1_0000_0000int,
            ;
        }
    }
}

/// A member stored with its size in sectors and the low 32 bits of its size
/// is read back with its true size and its whole-sector allocation.
proof fn lemma_size_restored(p: PartView, size: u64)
    requires
        ceil_div(size as int, 2048) <= u32::MAX,
        padded(size) <= u64::MAX,
        p.padded_size as int == ceil_div(size as int, 2048),
        p.part_byte_count == size as u32,
    ensures
        entry_true_count(p) == size,
        entry_allocation(p) == padded(size),
{
    lemma_low_bits(size);
    lemma_padded_at_least(size);
    assert(padded(size) < size + 2048) by (nonlinear_arith)
        requires
            padded(size) == ceil_div(size as int, 2048) * 2048,
            size >= 0,
    ;
    assert(p.padded_size * 2048 == padded(size));
    if padded(size) == 0 {
        assert(size == 0);
    } else {
        law_recovered_size_is_largest_fit(p.part_byte_count, padded(size) as u64, size as int);
    }
}

/// Reading back the first `n` slots of a packed header gives each slot's
/// true place and places each member once.
#[verifier::rlimit(40)]
proof fn lemma_read_back(
    base: HeaderView,
    es: Seq<Entry>,
    sizes: Seq<u64>,
    md: Seq<(Seq<char>, u32, u32)>,
    container_end: u64,
    n: nat,
)
    requires
        base.parts.len() == 16,
        forall|j: int| 0 <= j < 16 ==> (#[trigger] base.parts[j]).full_path.len() == 60,
        packed_layout_recoverable(base.parts, es, sizes, container_end),
        n <= emitting(es).len(),
    ensures
        layout_fold(packed_header_spec(base, es, sizes, md).parts, n, container_end) == Ok::<
            LayoutState,
            Error,
        >(read_back_state(base.parts, es, sizes, n)),
    decreases n,
{
    let ems = emitting(es);
    let ml = member_list(ems);
    let parts = packed_header_spec(base, es, sizes, md).parts;
    if n == 0 {
        assert(ems.subrange(0, 0) =~= Seq::<Entry>::empty());
        let st = read_back_state(base.parts, es, sizes, 0);
        assert(st.0 =~= Seq::<(u64, u64)>::empty());
        assert(st.1 =~= Seq::<KnownMember>::empty());
    } else {
        let m = (n - 1) as nat;
        lemma_read_back(base, es, sizes, md, container_end, m);
        lemma_read_back_step(base, es, sizes, md, container_end, m);
    }
}

/// One slot of the read-back: the slot at index `m` moves the state after
/// `m` slots to the state after `m + 1`.
#[verifier::rlimit(60)]
proof fn lemma_read_back_step(
    base: HeaderView,
    es: Seq<Entry>,
    sizes: Seq<u64>,
    md: Seq<(Seq<char>, u32, u32)>,
    container_end: u64,
    m: nat,
)
    requires
        base.parts.len() == 16,
        forall|j: int| 0 <= j < 16 ==> (#[trigger] base.parts[j]).full_path.len() == 60,
        packed_layout_recoverable(base.parts, es, sizes, container_end),
        m < emitting(es).len(),
    ensures
        crate::layout::layout_step(
            read_back_state(base.parts, es, sizes, m),
            packed_header_spec(base, es, sizes, md).parts[m as int],
            container_end,
        ) == Ok::<LayoutState, Error>(read_back_state(base.parts, es, sizes, m + 1)),
{
    let ems = emitting(es);
    let ml = member_list(ems);
    let n = m + 1;
    let st = read_back_state(base.parts, es, sizes, m);
    let next = read_back_state(base.parts, es, sizes, n);
    let pv = packed_header_spec(base, es, sizes, md).parts[m as int];
    let e = ems[m as int];
    let p = e.1;
    let pre = ems.subrange(0, m as int);
    let post = ems.subrange(0, n as int);
    assert(post.drop_last() =~= pre);
    assert(post.last() == e);
    let mlp = member_list(pre);
    let c = mlp.len();
    lemma_member_list_prefix(ems, m as int);
    lemma_member_list_prefix(ems, n as int);
    lemma_member_list_facts(ems);
    assert(mlp == ml.subrange(0, c as int));
    let place = entry_place(sizes, ml, e);
    assert(pv.part_offset == place.0 as u32);
    assert(pv.full_path == cstr_write_spec(base.parts[m as int].full_path, utf8_of(p)));
    assert(next.0 =~= st.0.push(place));
    if p == self_path() {
        assert(member_list(post) == mlp);
        assert(pv.part_offset == 0);
        assert(next.1 =~= st.1);
    } else if path_index(mlp, p) is Some {
        assert(member_list(post) == mlp);
        let k = path_index(mlp, p).unwrap();
        lemma_path_index_valid(mlp, p);
        lemma_path_index_prefix(ml, c as int, p);
        assert(path_index(ml, p) == Some(k));
        assert(place == ((member_start(sizes, k) as u64), sizes[k as int]));
        lemma_padded_sum_grows(sizes, k, ml.len());
        assert(member_start(sizes, k) % u32_range() != 0);
        lemma_low_bits(member_start(sizes, k) as u64);
        assert(pv.part_offset != 0);
        let known = st.1;
        let kf = known[k as int];
        assert(ml[k as int] == mlp[k as int]);
        assert(ml[k as int].1 == p);
        let jk = path_index(ems, p).unwrap();
        lemma_path_index_valid(ems, p);
        assert(ems[jk as int].1 == p);
        assert(base.parts[jk as int].full_path == base.parts[m as int].full_path);
        assert(kf.1 == pv.full_path);
        assert(kf.0 == pv.part_offset);
        lemma_path_index_first(mlp, p);
        assert forall|q: int| 0 <= q < k implies (#[trigger] known[q]).1 != pv.full_path by {
            let pq = ml[q].1;
            assert(ml[q] == mlp[q]);
            assert(pq != p);
            let jq = path_index(ems, pq).unwrap();
            lemma_path_index_valid(ems, pq);
            assert(ems[jq as int].1 == pq);
            if utf8_of(pq) == utf8_of(p) {
                crate::rkaf::lemma_utf8_injective(pq, p);
            }
            lemma_cstr_writes_differ(
                base.parts[jq as int].full_path,
                base.parts[m as int].full_path,
                utf8_of(pq),
                utf8_of(p),
            );
        }
        lemma_find_known_first(known, pv.part_offset, pv.full_path, k as int);
    } else {
        let mln = member_list(post);
        assert(mln == mlp.push(e));
        assert(mln.drop_last() =~= mlp);
        assert(ml[c as int] == mln[c as int]);
        assert(path_index(mln, p) == Some(c));
        lemma_path_index_prefix(ml, (c + 1) as int, p);
        assert(path_index(ml, p) == Some(c));
        let t = member_start(sizes, c);
        let size = sizes[c as int];
        assert(place == (t as u64, size));
        lemma_padded_sum_grows(sizes, c + 1, ml.len());
        lemma_padded_sum_grows(sizes, 0, c);
        assert(member_start(sizes, c + 1) == t + padded(size));
        lemma_padded_at_least(size);
        assert(t % u32_range() != 0);
        lemma_low_bits(t as u64);
        assert(pv.part_offset != 0);
        let known = st.1;
        lemma_path_index_none(mlp, p);
        assert forall|q: int| 0 <= q < known.len() implies (#[trigger] known[q]).1 != pv.full_path by {
            let pq = ml[q].1;
            assert(ml[q] == mlp[q]);
            assert(pq != p);
            let jq = path_index(ems, pq).unwrap();
            lemma_path_index_valid(ems, pq);
            assert(ems[jq as int].1 == pq);
            if utf8_of(pq) == utf8_of(p) {
                crate::rkaf::lemma_utf8_injective(pq, p);
            }
            lemma_cstr_writes_differ(
                base.parts[jq as int].full_path,
                base.parts[m as int].full_path,
                utf8_of(pq),
                utf8_of(p),
            );
        }
        lemma_find_known_absent(known, pv.part_offset, pv.full_path);
        assert(pv.padded_size as int == ceil_div(size as int, 2048));
        assert(pv.part_byte_count == size as u32);
        lemma_size_restored(pv, size);
        if c == 0 {
            assert(t == 2048);
        }
        lemma_offset_restored(pv, t, st.2);
        let jc = path_index(ems, p).unwrap();
        lemma_path_index_valid(ems, p);
        assert(base.parts[jc as int].full_path == base.parts[m as int].full_path);
        assert(next.1 =~= st.1.push((pv.part_offset, pv.full_path, t as u64, size)));
    }
}

/// Unpacking reads back what packing laid out: for a header that the RKAF
/// layout pass filled in from package-file entries `es`, member sizes
/// `sizes` and partition metadata `md`, layout recovery over a container
/// that holds all members returns, for every header slot, the true offset
/// and size of its data (0 and 0 for "SELF"), including members that lie
/// beyond 4 GiB and whose stored offsets and sizes wrapped; slots that name
/// one file get the same place.
pub proof fn law_unpacking_recovers_packed_layout(
    before: UpdateHeader,
    after: UpdateHeader,
    es: Seq<Entry>,
    sizes: Seq<u64>,
    md: Seq<(Seq<char>, u32, u32)>,
    container_end: u64,
)
    requires
        header_view(after) == packed_header_spec(header_view(before), es, sizes, md),
        packed_layout_recoverable(header_view(before).parts, es, sizes, container_end),
    ensures
        partition_layout_spec(after, container_end) == Ok::<Seq<(u64, u64)>, Error>(
            Seq::new(
                emitting(es).len(),
                |j: int| entry_place(sizes, member_list(emitting(es)), emitting(es)[j]),
            ),
        ),
{
    let base = header_view(before);
    assert forall|j: int| 0 <= j < 16 implies (#[trigger] base.parts[j]).full_path.len() == 60 by {
        assert(base.parts[j] == crate::header::part_view(before.parts@[j]));
    }
    let ems = emitting(es);
    lemma_read_back(base, es, sizes, md, container_end, ems.len());
    assert(parts_view(after.parts@) =~= header_view(after).parts);
    assert(listed_parts(after) == ems.len());
}

/// Writing the same NUL-terminated string twice leaves what writing it once left.
proof fn lemma_cstr_write_idempotent(f: Seq<u8>, v: Seq<u8>)
    ensures
        cstr_write_spec(cstr_write_spec(f, v), v) == cstr_write_spec(f, v),
{
    assert(cstr_write_spec(cstr_write_spec(f, v), v) =~= cstr_write_spec(f, v));
}

/// Filling in a slot a second time with the same entry, metadata and place
/// leaves it as the first time left it.
proof fn lemma_packed_slot_idempotent(
    p: PartView,
    e: Entry,
    meta: Option<(u32, u32)>,
    place: (u64, u64),
)
    ensures
        crate::rkaf::packed_slot(crate::rkaf::packed_slot(p, e, meta, place), e, meta, place)
            == crate::rkaf::packed_slot(p, e, meta, place),
{
    lemma_cstr_write_idempotent(p.name, utf8_of(e.0));
    lemma_cstr_write_idempotent(p.full_path, utf8_of(e.1));
}

/// Repacking from the saved header of an image that packing made, with the
/// same package-file entries, member sizes, partition metadata, model,
/// manufacturer and machine id, writes that header again byte for byte:
/// every field that packing sets gets the value it already holds, and every
/// other byte, the tails of the string fields included, is kept.
pub proof fn law_repacking_reproduces_header(
    template: Option<Seq<u8>>,
    model: Seq<u8>,
    manufacturer: Seq<u8>,
    machine_id: Seq<char>,
    es: Seq<Entry>,
    sizes: Seq<u64>,
    md: Seq<(Seq<char>, u32, u32)>,
    saved: Seq<u8>,
)
    requires
        emitting(es).len() <= 16,
        saved.len() >= 2048,
        rkaf_start_spec(template, model, manufacturer, machine_id) matches Some(first)
            && header_view_of_bytes(saved) == packed_header_spec(first, es, sizes, md),
    ensures
        rkaf_start_spec(Some(saved), model, manufacturer, machine_id) matches Some(again)
            && packed_header_spec(again, es, sizes, md) == header_view_of_bytes(saved),
{
    let first = rkaf_start_spec(template, model, manufacturer, machine_id).unwrap();
    let saved_view = header_view_of_bytes(saved);
    let base = if template matches Some(t) && t.len() >= 2048 {
        header_view_of_bytes(template.unwrap())
    } else {
        crate::rkaf::fresh_header_view()
    };
    assert(base.id.len() == 30);
    let again = rkaf_start_spec(Some(saved), model, manufacturer, machine_id).unwrap();
    lemma_cstr_write_idempotent(base.model, crate::rkaf::spaced(model));
    lemma_cstr_write_idempotent(base.manufacturer, crate::rkaf::spaced(manufacturer));
    if machine_id.len() > 0 {
        lemma_cstr_write_idempotent(base.id, seq![0x20u8] + utf8_of(machine_id));
    } else {
        assert(base.id.update(0, 0).update(0, 0) =~= base.id.update(0, 0));
    }
    assert(again.magic =~= first.magic);
    let ems = emitting(es);
    let ml = member_list(ems);
    let repacked = packed_header_spec(again, es, sizes, md);
    assert forall|j: int| 0 <= j < 16 implies #[trigger] repacked.parts[j] == saved_view.parts[j] by {
        if j < ems.len() {
            lemma_packed_slot_idempotent(
                first.parts[j],
                ems[j],
                crate::rkaf::metadata_lookup_spec(md, ems[j].0),
                entry_place(sizes, ml, ems[j]),
            );
        }
    }
    assert(repacked.parts =~= saved_view.parts);
}

/// The bytes before the first NUL of a field: the first `k` bytes when none
/// of them is NUL.
proof fn lemma_no_nul_before(s: Seq<u8>, k: int)
    requires
        0 <= k <= s.len(),
        forall|i: int| 0 <= i < k ==> s[i] != 0,
    ensures
        first_nul(s.subrange(0, k)) is None,
    decreases k,
{
    if k > 0 {
        assert(s.subrange(0, k).drop_last() =~= s.subrange(0, k - 1));
        lemma_no_nul_before(s, k - 1);
    }
}

/// Readers stop at the first NUL, so a value without NUL bytes written into
/// a field reads back as itself, cut to the field's length less one,
/// whatever bytes the field held before.
pub proof fn law_written_cstr_reads_back(field: Seq<u8>, value: Seq<u8>)
    requires
        field.len() >= 1,
        forall|i: int| 0 <= i < value.len() ==> value[i] != 0,
    ensures
        cstr_spec(cstr_write_spec(field, value)) == Some(
            value.subrange(
                0,
                if value.len() < field.len() - 1 {
                    value.len() as int
                } else {
                    field.len() - 1
                },
            ),
        ),
{
    let w = cstr_write_spec(field, value);
    let n = if value.len() < field.len() - 1 {
        value.len() as int
    } else {
        field.len() - 1
    };
    lemma_no_nul_before(w, n);
    assert(w.subrange(0, n + 1).drop_last() =~= w.subrange(0, n));
    assert(first_nul(w.subrange(0, n + 1)) == Some(n as nat));
    lemma_first_nul_prefix(w, n + 1);
    assert(w.subrange(0, n) =~= value.subrange(0, n));
}

/// `n` zero bytes.
pub open spec fn zeros(n: nat) -> Seq<u8> {
    Seq::new(n, |i: int| 0u8)
}

/// The members that packing writes after the header, in layout order:
/// the data of each of the first `n`, padded with zeros to whole sectors.
pub open spec fn members_image(datas: Seq<Seq<u8>>, n: nat) -> Seq<u8>
    decreases n,
{
    if n == 0 {
        Seq::empty()
    } else {
        let d = datas[n - 1];
        members_image(datas, (n - 1) as nat) + d + zeros((crate::layout::ceil_div(d.len() as int, 2048)
            * 2048 - d.len()) as nat)
    }
}

/// The RKAF image that packing writes for header `h` and member data
/// `datas` (in layout order): the encoded header, the members, and the
/// little-endian RockChip CRC-32 of everything before it.
pub open spec fn rkaf_image_spec(h: UpdateHeader, datas: Seq<Seq<u8>>) -> Seq<u8> {
    let body = header_bytes(h) + members_image(datas, datas.len());
    body + le32_bytes(rkcrc32_spec(0, body))
}

/// The members' bytes take their padded sizes, and each member's data
/// stands where the layout puts it.
proof fn lemma_members_image(datas: Seq<Seq<u8>>, sizes: Seq<u64>, n: nat)
    requires
        n <= datas.len(),
        n <= sizes.len(),
        forall|k: int| 0 <= k < n ==> (#[trigger] datas[k]).len() == sizes[k],
    ensures
        members_image(datas, n).len() == padded_sum(sizes, n),
        forall|k: int|
            0 <= k < n ==> members_image(datas, n).subrange(
                padded_sum(sizes, k as nat),
                padded_sum(sizes, k as nat) + sizes[k],
            ) == #[trigger] datas[k],
    decreases n,
{
    if n > 0 {
        let m = (n - 1) as nat;
        lemma_members_image(datas, sizes, m);
        lemma_padded_at_least(sizes[m as int]);
        let prev = members_image(datas, m);
        let whole = members_image(datas, n);
        assert(datas[m as int].len() == sizes[m as int]);
        assert(whole.len() == prev.len() + padded(sizes[m as int]));
        assert(padded_sum(sizes, n) == padded_sum(sizes, m) + padded(sizes[m as int]));
        assert forall|k: int| 0 <= k < n implies whole.subrange(
            padded_sum(sizes, k as nat),
            padded_sum(sizes, k as nat) + sizes[k],
        ) == #[trigger] datas[k] by {
            if k < m {
                lemma_padded_sum_grows(sizes, k as nat, (k + 1) as nat);
                lemma_padded_sum_grows(sizes, (k + 1) as nat, m);
                lemma_padded_at_least(sizes[k]);
                assert(padded_sum(sizes, (k + 1) as nat) == padded_sum(sizes, k as nat) + padded(sizes[k]));
                assert(padded_sum(sizes, k as nat) + sizes[k] <= prev.len());
                assert forall|i: int| 0 <= i < prev.len() implies whole[i] == prev[i] by {}
                assert(whole.subrange(padded_sum(sizes, k as nat), padded_sum(sizes, k as nat) + sizes[k])
                    =~= prev.subrange(padded_sum(sizes, k as nat), padded_sum(sizes, k as nat) + sizes[k]));
            } else {
                assert(whole.subrange(padded_sum(sizes, m), padded_sum(sizes, m) + sizes[k]) =~= datas[k]);
            }
        }
    }
}

/// The image that packing writes holds the header, then each member's data
/// at its place.
proof fn lemma_rkaf_image(after: UpdateHeader, datas: Seq<Seq<u8>>, sizes: Seq<u64>)
    requires
        datas.len() <= sizes.len(),
        forall|k: int| 0 <= k < datas.len() ==> (#[trigger] datas[k]).len() == sizes[k],
    ensures
        rkaf_image_spec(after, datas).len() == 2048 + padded_sum(sizes, datas.len()) + 4,
        header_image(rkaf_image_spec(after, datas), after),
        forall|k: int|
            0 <= k < datas.len() ==> rkaf_image_spec(after, datas).subrange(
                2048 + padded_sum(sizes, k as nat),
                2048 + padded_sum(sizes, k as nat) + sizes[k],
            ) == #[trigger] datas[k],
{
    let n = datas.len();
    let img = rkaf_image_spec(after, datas);
    let m = members_image(datas, n);
    lemma_members_image(datas, sizes, n);
    lemma_header_bytes_len(after);
    assert(img.subrange(0, 2048) =~= header_bytes(after));
    lemma_header_image_iff_bytes(img, after);
    assert(img.subrange(2048, 2048 + m.len() as int) =~= m);
    assert forall|k: int| 0 <= k < n implies img.subrange(
        2048 + padded_sum(sizes, k as nat),
        2048 + padded_sum(sizes, k as nat) + sizes[k],
    ) == #[trigger] datas[k] by {
        lemma_padded_sum_grows(sizes, k as nat, (k + 1) as nat);
        lemma_padded_sum_grows(sizes, (k + 1) as nat, n);
        lemma_padded_at_least(sizes[k]);
        assert(padded_sum(sizes, (k + 1) as nat) == padded_sum(sizes, k as nat) + padded(sizes[k]));
        lemma_window(img, 2048, m, padded_sum(sizes, k as nat), padded_sum(sizes, k as nat) + sizes[k]);
    }
}

/// Every slot whose path is not "SELF" names one of the members.
proof fn lemma_member_list_covers(ems: Seq<Entry>)
    ensures
        forall|j: int|
            0 <= j < ems.len() && (#[trigger] ems[j]).1 != self_path() ==> path_index(
                member_list(ems),
                ems[j].1,
            ) is Some,
    decreases ems.len(),
{
    if ems.len() > 0 {
        let r = member_list(ems.drop_last());
        let e = ems.last();
        let ml = member_list(ems);
        lemma_member_list_covers(ems.drop_last());
        assert forall|j: int| 0 <= j < ems.len() && (#[trigger] ems[j]).1 != self_path() implies path_index(
            ml,
            ems[j].1,
        ) is Some by {
            let p = ems[j].1;
            if j < ems.len() - 1 {
                assert(ems.drop_last()[j] == ems[j]);
                assert(path_index(r, p) is Some);
            }
            if ml != r {
                assert(ml == r.push(e));
                assert(ml.drop_last() =~= r);
            }
        }
    }
}

/// Unpacking extracts what packing wrote: in the RKAF image that packing
/// writes for the header that its layout pass filled in (from package-file
/// entries `es`, member sizes `sizes` and partition metadata `md`) and for
/// member data `datas` of those sizes, the header decodes to that header;
/// the container ends where the members end; layout recovery finds every
/// slot's place; the image holds, at the place of every slot other than
/// "SELF", exactly the data of its member, beyond 4 GiB too; and every such
/// slot's path field reads back its path.
pub proof fn law_unpacking_extracts_packed_members(
    before: UpdateHeader,
    after: UpdateHeader,
    es: Seq<Entry>,
    sizes: Seq<u64>,
    md: Seq<(Seq<char>, u32, u32)>,
    datas: Seq<Seq<u8>>,
)
    requires
        header_view(after) == packed_header_spec(header_view(before), es, sizes, md),
        packed_layout_recoverable(
            header_view(before).parts,
            es,
            sizes,
            member_start(sizes, member_list(emitting(es)).len()) as u64,
        ),
        datas.len() == member_list(emitting(es)).len(),
        forall|k: int| 0 <= k < datas.len() ==> (#[trigger] datas[k]).len() == sizes[k],
    ensures
        ({
            let ems = emitting(es);
            let ml = member_list(ems);
            let img = rkaf_image_spec(after, datas);
            let end = member_start(sizes, ml.len()) as u64;
            let places = Seq::new(ems.len(), |j: int| entry_place(sizes, ml, ems[j]));
            &&& header_image(img, after)
            &&& img.len() == end + 4
            &&& partition_layout_spec(after, end) == Ok::<Seq<(u64, u64)>, Error>(places)
            &&& forall|j: int|
                0 <= j < ems.len() && (#[trigger] ems[j]).1 != self_path() ==> img.subrange(
                    places[j].0 as int,
                    places[j].0 + places[j].1,
                ) == datas[path_index(ml, ems[j].1).unwrap() as int] && cstr_spec(
                    after.parts@[j].full_path@,
                ) == Some(utf8_of(ems[j].1))
        }),
{
    let ems = emitting(es);
    let ml = member_list(ems);
    let n = ml.len();
    let end = member_start(sizes, n) as u64;
    law_unpacking_recovers_packed_layout(before, after, es, sizes, md, end);
    lemma_rkaf_image(after, datas, sizes);
    lemma_member_list_covers(ems);
    let base = header_view(before);
    assert forall|j: int| 0 <= j < ems.len() && (#[trigger] ems[j]).1 != self_path() implies rkaf_image_spec(
        after,
        datas,
    ).subrange(
        entry_place(sizes, ml, ems[j]).0 as int,
        entry_place(sizes, ml, ems[j]).0 + entry_place(sizes, ml, ems[j]).1,
    ) == datas[path_index(ml, ems[j].1).unwrap() as int] && cstr_spec(after.parts@[j].full_path@)
        == Some(utf8_of(ems[j].1)) by {
        let p = ems[j].1;
        lemma_path_index_valid(ml, p);
        let k = path_index(ml, p).unwrap() as int;
        lemma_padded_sum_grows(sizes, (k + 1) as nat, n);
        lemma_padded_sum_grows(sizes, 0, k as nat);
        lemma_padded_at_least(sizes[k]);
        assert(padded_sum(sizes, (k + 1) as nat) == padded_sum(sizes, k as nat) + padded(sizes[k]));
        assert(datas[k] == datas[k]);
        assert(base.parts[j] == crate::header::part_view(before.parts@[j]));
        assert(header_view(after).parts[j] == crate::header::part_view(after.parts@[j]));
        law_written_cstr_reads_back(base.parts[j].full_path, utf8_of(p));
        assert(utf8_of(p).subrange(0, utf8_of(p).len() as int) =~= utf8_of(p));
    }
}

/// A window of a window is a window.
proof fn lemma_window(img: Seq<u8>, offset: int, w: Seq<u8>, a: int, b: int)
    requires
        0 <= offset,
        offset + w.len() <= img.len(),
        img.subrange(offset, offset + w.len()) == w,
        0 <= a <= b <= w.len(),
    ensures
        img.subrange(offset + a, offset + b) == w.subrange(a, b),
{
    assert(img.subrange(offset + a, offset + b) =~= w.subrange(a, b));
}

/// Unpacking gives back a parameter file bare: where the image holds the
/// PARM wrapping of a file of less than 4 GiB at `offset`, the length field
/// in its first 8 bytes (from which unpacking takes the content's range)
/// is the file's length, and the 8 bytes after them start the file itself.
#[verifier::rlimit(60)]
pub proof fn law_unpacking_returns_bare_parameter(img: Seq<u8>, offset: int, raw: Seq<u8>)
    requires
        raw.len() < 0x1_0000_0000 - 12,
        0 <= offset,
        offset + raw.len() + 12 <= img.len(),
        img.subrange(offset, offset + raw.len() + 12) == parm_wrap_spec(raw),
    ensures
        le32_at(img.subrange(offset, offset + 8), 4) == raw.len(),
        img.subrange(offset + 8, offset + 8 + raw.len()) == raw,
{
    let n = raw.len() as int;
    let w = parm_wrap_spec(raw);
    crate::crc::law_wrapped_parameter_is_valid_blob(raw);
    lemma_window(img, offset, w, 0, 8);
    lemma_window(img, offset, w, 8, 8 + n);
}

/// The bytes of a field after the NUL that writing `value` into it puts
/// there are the bytes `old` held.
pub open spec fn tail_kept(new: Seq<u8>, old: Seq<u8>, value: Seq<u8>) -> bool {
    let n = if value.len() < old.len() - 1 {
        value.len() as int
    } else {
        old.len() - 1
    };
    &&& new.len() == old.len()
    &&& forall|i: int| n < i < old.len() ==> new[i] == old[i]
}

/// Repacking from a saved header keeps every byte of it that packing does
/// not set, whatever is packed (within the 16 header slots): the unknown field, the version, the
/// reserved area, the bytes after the NUL of the model, manufacturer and
/// machine id (all but the first byte of the id when there is none), of the
/// name and path of every filled-in slot, and every slot left unused.
pub proof fn law_repacking_keeps_template_bytes(
    saved: Seq<u8>,
    model: Seq<u8>,
    manufacturer: Seq<u8>,
    machine_id: Seq<char>,
    es: Seq<Entry>,
    sizes: Seq<u64>,
    md: Seq<(Seq<char>, u32, u32)>,
)
    requires
        saved.len() >= 2048,
        le32_at(saved, 136) <= 16,
        emitting(es).len() <= 16,
    ensures
        rkaf_start_spec(Some(saved), model, manufacturer, machine_id) is Some,
        ({
            let t = header_view_of_bytes(saved);
            let h = packed_header_spec(
                rkaf_start_spec(Some(saved), model, manufacturer, machine_id).unwrap(),
                es,
                sizes,
                md,
            );
            let ems = emitting(es);
            &&& h.unknown1 == t.unknown1
            &&& h.version == t.version
            &&& h.reserved == t.reserved
            &&& tail_kept(h.model, t.model, crate::rkaf::spaced(model))
            &&& tail_kept(h.manufacturer, t.manufacturer, crate::rkaf::spaced(manufacturer))
            &&& machine_id.len() > 0 ==> tail_kept(h.id, t.id, seq![0x20u8] + utf8_of(machine_id))
            &&& machine_id.len() == 0 ==> h.id.len() == t.id.len() && forall|i: int|
                1 <= i < t.id.len() ==> h.id[i] == t.id[i]
            &&& forall|j: int|
                0 <= j < ems.len() ==> tail_kept(
                    (#[trigger] h.parts[j]).name,
                    t.parts[j].name,
                    utf8_of(ems[j].0),
                ) && tail_kept(h.parts[j].full_path, t.parts[j].full_path, utf8_of(ems[j].1))
            &&& forall|j: int| ems.len() <= j < 16 ==> #[trigger] h.parts[j] == t.parts[j]
        }),
{
    let t = header_view_of_bytes(saved);
    let tpl = Some(saved);
    assert(tpl matches Some(x) && x.len() >= 2048);
    assert(tpl.unwrap() == saved);
    let first = rkaf_start_spec(tpl, model, manufacturer, machine_id);
    assert(first == Some(crate::rkaf::HeaderView {
        magic: seq![0x52u8, 0x4bu8, 0x41u8, 0x46u8],
        model: cstr_write_spec(t.model, crate::rkaf::spaced(model)),
        manufacturer: cstr_write_spec(t.manufacturer, crate::rkaf::spaced(manufacturer)),
        id: if machine_id.len() > 0 {
            cstr_write_spec(t.id, seq![0x20u8] + utf8_of(machine_id))
        } else {
            t.id.update(0, 0)
        },
        ..t
    }));
    assert(t.model.len() == 34 && t.id.len() == 30 && t.manufacturer.len() == 56);
    let ems = emitting(es);
    let h = packed_header_spec(first.unwrap(), es, sizes, md);
    assert forall|j: int| 0 <= j < ems.len() implies tail_kept(
        (#[trigger] h.parts[j]).name,
        t.parts[j].name,
        utf8_of(ems[j].0),
    ) && tail_kept(h.parts[j].full_path, t.parts[j].full_path, utf8_of(ems[j].1)) by {
        assert(j < 16);
        assert(t.parts[j].name.len() == 32 && t.parts[j].full_path.len() == 60);
    }
}

} // verus!
