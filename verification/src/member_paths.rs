//! Member paths for repacking: a saved RKAF header stores the path of each
//! member as the image had it, which a package-file may name otherwise.
use vstd::prelude::*;

use crate::header::{PartView, UpdateHeader};
use crate::layout::listed_parts;
use crate::rkaf::{
    cstr_spec, entries_view, field_text, header_view, is_reserved_path, name_text_spec,
    reserved_path, strings_equal, Entry, PackageEntry,
};
use crate::text::utf8_lossy;

verus! {

/// The member path that the first of the first `n` slots that is named
/// `name` and whose path field holds a NUL stores, decoded leniently.
pub open spec fn stored_member_path(parts: Seq<PartView>, n: nat, name: Seq<char>) -> Option<
    Seq<char>,
>
    decreases n,
{
    if n == 0 {
        None
    } else if stored_member_path(parts, (n - 1) as nat, name) is Some {
        stored_member_path(parts, (n - 1) as nat, name)
    } else if name_text_spec(parts[n - 1].name) == name && cstr_spec(parts[n - 1].full_path) is Some {
        Some(utf8_lossy(cstr_spec(parts[n - 1].full_path).unwrap()))
    } else {
        None
    }
}

/// Package-file entries with the member paths of a header: every entry
/// other than a "RESERVED" one takes the path that the header stores for a
/// partition of its name, and keeps its own where the header has none.
pub open spec fn resolved_entries_spec(parts: Seq<PartView>, n: nat, es: Seq<Entry>) -> Seq<Entry> {
    Seq::new(
        es.len(),
        |i: int|
            if es[i].1 != reserved_path() && stored_member_path(parts, n, es[i].0) is Some {
                (es[i].0, stored_member_path(parts, n, es[i].0).unwrap())
            } else {
                es[i]
            },
    )
}

/// A path found among the first `m` slots is the one found among more.
proof fn lemma_stored_member_path_prefix(parts: Seq<PartView>, m: nat, n: nat, name: Seq<char>)
    requires
        m <= n,
        stored_member_path(parts, m, name) is Some,
    ensures
        stored_member_path(parts, n, name) == stored_member_path(parts, m, name),
    decreases n,
{
    if m < n {
        lemma_stored_member_path_prefix(parts, m, (n - 1) as nat, name);
    }
}

/// The path that a listed slot of `header` named `name` stores.
fn find_stored_path(header: &UpdateHeader, name: &String) -> (found: Option<String>)
    ensures
        match stored_member_path(header_view(*header).parts, listed_parts(*header), name@) {
            Some(p) => found matches Some(s) && s@ == p,
            None => found is None,
        },
{
    let ghost parts = header_view(*header).parts;
    let n: usize = if header.num_parts > 16 {
        16
    } else {
        header.num_parts as usize
    };
    let mut k: usize = 0;
    while k < n
        invariant
            0 <= k <= n,
            n == listed_parts(*header),
            n <= 16,
            parts == header_view(*header).parts,
            stored_member_path(parts, k as nat, name@) is None,
        decreases n - k,
    {
        let part = &header.parts[k];
        assert(parts[k as int] == crate::header::part_view(header.parts@[k as int]));
        let part_name = match field_text(part.name.as_slice()) {
            Some(t) => t,
            None => String::new(),
        };
        assert(part_name@ == name_text_spec(parts[k as int].name));
        if strings_equal(&part_name, name) {
            match field_text(part.full_path.as_slice()) {
                Some(path) => {
                    proof {
                        lemma_stored_member_path_prefix(parts, (k + 1) as nat, n as nat, name@);
                    }
                    return Some(path);
                },
                None => {},
            }
        }
        k = k + 1;
    }
    None
}

/// The entries of a package-file with the member paths that `header` (the
/// header packing starts from) stores for their partitions, so that
/// repacking an unpacked image keeps the member paths of the unpacked image
/// where its package-file names the files otherwise.
pub fn resolve_member_paths(header: &UpdateHeader, entries: &Vec<PackageEntry>) -> (resolved: Vec<
    PackageEntry,
>)
    ensures
        entries_view(resolved@) == resolved_entries_spec(
            header_view(*header).parts,
            listed_parts(*header),
            entries_view(entries@),
        ),
{
    let ghost target = resolved_entries_spec(
        header_view(*header).parts,
        listed_parts(*header),
        entries_view(entries@),
    );
    let mut out: Vec<PackageEntry> = Vec::new();
    let mut i: usize = 0;
    while i < entries.len()
        invariant
            0 <= i <= entries@.len(),
            target == resolved_entries_spec(
                header_view(*header).parts,
                listed_parts(*header),
                entries_view(entries@),
            ),
            entries_view(out@) == target.subrange(0, i as int),
        decreases entries@.len() - i,
    {
        let e = &entries[i];
        let path = if is_reserved_path(&e.path) {
            e.path.clone()
        } else {
            match find_stored_path(header, &e.name) {
                Some(p) => p,
                None => e.path.clone(),
            }
        };
        let ghost old_out = out@;
        let ghost path_view = path@;
        assert(old_out.len() == i) by {
            assert(entries_view(old_out).len() == old_out.len());
        }
        let name = e.name.clone();
        assert(entries_view(entries@)[i as int] == (e.name@, e.path@));
        assert(target[i as int] == (name@, path_view));
        out.push(PackageEntry { name, path });
        proof {
            assert forall|k: int| 0 <= k < i implies entries_view(out@)[k] == entries_view(old_out)[k] by {
                assert(out@[k] == old_out[k]);
            }
            assert(entries_view(out@) =~= target.subrange(0, i + 1));
        }
        i = i + 1;
    }
    assert(target.subrange(0, i as int) =~= target);
    out
}

/// Where the data of the member with path `path` may be read from when no
/// file has that path: the package-file path of the first entry that
/// resolved to it.
pub fn package_source(entries: &Vec<PackageEntry>, resolved: &Vec<PackageEntry>, path: &String) -> (source: Option<String>)
    requires
        entries@.len() == resolved@.len(),
    ensures
        match crate::rkaf::path_index(entries_view(resolved@), path@) {
            Some(i) => source matches Some(s) && s@ == entries@[i as int].path@,
            None => source is None,
        },
{
    let ghost rv = entries_view(resolved@);
    let mut i: usize = 0;
    while i < resolved.len()
        invariant
            0 <= i <= resolved@.len(),
            entries@.len() == resolved@.len(),
            rv == entries_view(resolved@),
            crate::rkaf::path_index(rv.subrange(0, i as int), path@) is None,
        decreases resolved@.len() - i,
    {
        assert(rv.subrange(0, i + 1).drop_last() =~= rv.subrange(0, i as int));
        if strings_equal(&resolved[i].path, path) {
            proof {
                assert(rv.subrange(0, i + 1).last() == rv[i as int]);
                assert(crate::rkaf::path_index(rv.subrange(0, i + 1), path@) == Some(i as nat));
                crate::rkaf::lemma_path_index_prefix(rv, i + 1, path@);
            }
            return Some(entries[i].path.clone());
        }
        i = i + 1;
    }
    assert(rv.subrange(0, i as int) =~= rv);
    None
}

} // verus!
