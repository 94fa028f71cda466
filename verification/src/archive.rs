use vstd::prelude::*;

use crate::bytes::push_u32_be;
use crate::bytes::u32_be_bytes;
use crate::content_map::ContentMap;
use crate::content_map::hash_lt;

verus! {

/// Why the archive could not be assembled: the designated root is absent or
/// unresolved, some entry never resolved, or a size field would not fit.
#[derive(Debug, PartialEq, Eq, Clone, Copy)]
pub enum ArchiveError {
    MissingRoot,
    UnresolvedEntry,
    TooLarge,
}

/// The bytes of entry `i` of the map, in ascending hash order.
pub open spec fn entry_bytes(m: ContentMap, i: int) -> Seq<u8> {
    match m@[m.keys()[i]] {
        Some(b) => b,
        None => seq![],
    }
}

/// The total length of the first `i` content blocks: entry `i` starts at
/// this offset inside the data section.
pub open spec fn spec_offset(m: ContentMap, i: int) -> int
    decreases i,
{
    if i <= 0 {
        0
    } else {
        spec_offset(m, i - 1) + entry_bytes(m, i - 1).len()
    }
}

/// The index: for each entry in ascending hash order, the 20 hash bytes,
/// the offset of its block inside the data section, and its length.
pub open spec fn spec_index(m: ContentMap, i: int) -> Seq<u8>
    decreases i,
{
    if i <= 0 {
        Seq::<u8>::empty()
    } else {
        spec_index(m, i - 1) + m.keys()[i - 1] + u32_be_bytes(spec_offset(m, i - 1) as u32)
            + u32_be_bytes(entry_bytes(m, i - 1).len() as u32)
    }
}

/// The concatenated content blocks, in ascending hash order.
pub open spec fn spec_blocks(m: ContentMap, i: int) -> Seq<u8>
    decreases i,
{
    if i <= 0 {
        Seq::<u8>::empty()
    } else {
        spec_blocks(m, i - 1) + entry_bytes(m, i - 1)
    }
}

/// The whole archive container: entry count, index, content blocks.
pub open spec fn spec_archive(m: ContentMap) -> Seq<u8> {
    u32_be_bytes(m.keys().len() as u32) + spec_index(m, m.keys().len() as int) + spec_blocks(
        m,
        m.keys().len() as int,
    )
}

/// Every entry of the map resolved to bytes.
pub open spec fn all_resolved(m: ContentMap) -> bool {
    forall|i: int| 0 <= i < m.keys().len() ==> m@[#[trigger] m.keys()[i]] is Some
}

/// The count and every offset and length fit their 4-byte fields.
pub open spec fn fits_u32(m: ContentMap) -> bool {
    m.keys().len() <= 0xFFFFFFFF && spec_offset(m, m.keys().len() as int) <= 0xFFFFFFFF
}

/// Contents no archive can pack: a well-formed map holding exactly these
/// hashes and bytes overflows a 4-byte count, offset or length field.
/// The sorted layout is a function of the contents alone — see
/// `lemma_view_overflows_iff` — so this speaks of the contents
/// themselves.
pub open spec fn view_overflows(v: Map<Seq<u8>, Option<Seq<u8>>>) -> bool {
    exists|m: ContentMap| #[trigger] m.wf() && m@ == v && !fits_u32(m)
}

proof fn lemma_offset_nonneg(m: ContentMap, i: int)
    ensures
        0 <= spec_offset(m, i),
    decreases i,
{
    if i > 0 {
        lemma_offset_nonneg(m, i - 1);
    }
}

proof fn lemma_offset_mono(m: ContentMap, i: int, j: int)
    requires
        0 <= i <= j,
    ensures
        spec_offset(m, i) <= spec_offset(m, j),
        0 <= spec_offset(m, i),
    decreases j,
{
    lemma_offset_nonneg(m, i);
    if i < j {
        lemma_offset_mono(m, i, j - 1);
    }
}

/// The index of the assembled archive is sorted strictly ascending by
/// content hash for every well-formed content map, regardless of the order
/// in which entries were inserted: entry `i` of the index carries the
/// map's `i`-th smallest hash.
pub proof fn lemma_archive_index_sorted(m: ContentMap)
    requires
        m.wf(),
    ensures
        forall|i: int, j: int|
            0 <= i < j < m.keys().len() ==> hash_lt(#[trigger] m.keys()[i], #[trigger] m.keys()[j]),
{
    m.lemma_keys_sorted();
}

/// Packs the resolved content map into the archive container. The root
/// must be present and resolved, and no entry may be unresolved: a missing
/// dependency is tolerated while resolving, but what is packed must be
/// complete.
pub fn make_savearchive(m: &ContentMap, root: &[u8; 20]) -> (r: Result<Vec<u8>, ArchiveError>)
    requires
        m.wf(),
    ensures
        (match r {
            Ok(out) => m@.contains_key(root@) && m@[root@] is Some && all_resolved(*m) && fits_u32(
                *m,
            ) && out@ == spec_archive(*m),
            Err(ArchiveError::MissingRoot) => !(m@.contains_key(root@) && m@[root@] is Some),
            Err(ArchiveError::UnresolvedEntry) => m@.contains_key(root@) && m@[root@] is Some
                && !all_resolved(*m),
            Err(ArchiveError::TooLarge) => m@.contains_key(root@) && m@[root@] is Some
                && !fits_u32(*m),
        }),
{
    match m.get(root) {
        Some(d) => {
            if d.is_none() {
                return Err(ArchiveError::MissingRoot);
            }
        },
        None => {
            return Err(ArchiveError::MissingRoot);
        },
    }
    let n = m.len();
    // First pass: every entry must be resolved, and the sizes must fit.
    let mut total: u64 = 0;
    let mut i: usize = 0;
    while i < n
        invariant
            m.wf(),
            n == m.keys().len(),
            0 <= i <= n,
            total == spec_offset(*m, i as int),
            total <= 0xFFFFFFFF,
            m@.contains_key(root@) && m@[root@] is Some,
            forall|k: int| 0 <= k < i ==> m@[#[trigger] m.keys()[k]] is Some,
        decreases n - i,
    {
        let d = m.data_at(i);
        match d {
            Some(b) => {
                let bl = b.len() as u64;
                if bl > 0xFFFFFFFFu64 || total > 0xFFFFFFFFu64 - bl {
                    proof {
                        lemma_offset_mono(*m, i + 1, n as int);
                    }
                    return Err(ArchiveError::TooLarge);
                }
                total = total + bl;
            },
            None => {
                return Err(ArchiveError::UnresolvedEntry);
            },
        }
        i = i + 1;
    }
    if n > 0xFFFFFFFFusize as usize {
        return Err(ArchiveError::TooLarge);
    }
    // Second pass: the index.
    let mut out: Vec<u8> = Vec::new();
    push_u32_be(&mut out, n as u32);
    let ghost base = u32_be_bytes(n as u32);
    let mut off: u64 = 0;
    let mut i: usize = 0;
    while i < n
        invariant
            m.wf(),
            n == m.keys().len(),
            n <= 0xFFFFFFFF,
            0 <= i <= n,
            off == spec_offset(*m, i as int),
            spec_offset(*m, n as int) <= 0xFFFFFFFF,
            all_resolved(*m),
            base == u32_be_bytes(n as u32),
            out@ == base + spec_index(*m, i as int),
        decreases n - i,
    {
        proof {
            lemma_offset_mono(*m, i as int, n as int);
            lemma_offset_mono(*m, i + 1, n as int);
        }
        let ghost out0 = out@;
        let h = m.hash_at(i);
        let mut j: usize = 0;
        while j < 20
            invariant
                0 <= j <= 20,
                h@.len() == 20,
                out@ == out0 + h@.subrange(0, j as int),
            decreases 20 - j,
        {
            out.push(h[j]);
            proof {
                assert(out@ =~= out0 + h@.subrange(0, j + 1));
            }
            j = j + 1;
        }
        proof {
            assert(h@.subrange(0, 20) =~= h@);
        }
        push_u32_be(&mut out, off as u32);
        let d = m.data_at(i);
        let dlen: usize = match d {
            Some(b) => b.len(),
            None => 0,
        };
        push_u32_be(&mut out, dlen as u32);
        proof {
            assert(dlen == entry_bytes(*m, i as int).len());
            assert(out@ =~= base + spec_index(*m, i + 1));
        }
        off = off + dlen as u64;
        i = i + 1;
    }
    // Third pass: the content blocks.
    let ghost hdr = out@;
    let mut i: usize = 0;
    while i < n
        invariant
            m.wf(),
            n == m.keys().len(),
            0 <= i <= n,
            all_resolved(*m),
            out@ == hdr + spec_blocks(*m, i as int),
        decreases n - i,
    {
        let ghost out0 = out@;
        let d = m.data_at(i);
        match d {
            Some(b) => {
                let bl = b.len();
                let mut j: usize = 0;
                while j < bl
                    invariant
                        0 <= j <= bl,
                        bl == b@.len(),
                        out@ == out0 + b@.subrange(0, j as int),
                    decreases bl - j,
                {
                    out.push(b[j]);
                    proof {
                        assert(out@ =~= out0 + b@.subrange(0, j + 1));
                    }
                    j = j + 1;
                }
                proof {
                    assert(b@.subrange(0, bl as int) =~= b@);
                    assert(out@ =~= hdr + spec_blocks(*m, i + 1));
                }
            },
            None => {
                proof {
                    assert(false);
                }
            },
        }
        i = i + 1;
    }
    proof {
        assert(out@ =~= spec_archive(*m));
    }
    Ok(out)
}

/// Over a well-formed map, "every entry resolved" is the same as "every
/// held key maps to bytes".
pub proof fn lemma_all_resolved_iff(m: ContentMap)
    requires
        m.wf(),
    ensures
        all_resolved(m) == (forall|k: Seq<u8>| m@.contains_key(k) ==> m@[k] is Some),
{
    if all_resolved(m) {
        assert forall|k: Seq<u8>| m@.contains_key(k) implies m@[k] is Some by {
            m.lemma_contains(k);
            let i = choose|i: int| 0 <= i < m.keys().len() && m.keys()[i] == k;
            assert(m@[m.keys()[i]] is Some);
        }
    } else {
        let i = choose|i: int| 0 <= i < m.keys().len() && !(m@[#[trigger] m.keys()[i]] is Some);
        m.lemma_contains(m.keys()[i]);
    }
}

proof fn lemma_offset_determined(m1: ContentMap, m2: ContentMap, i: int)
    requires
        m1.wf(),
        m2.wf(),
        m1@ == m2@,
        0 <= i,
    ensures
        spec_offset(m1, i) == spec_offset(m2, i),
    decreases i,
{
    m1.lemma_keys_determined(m2);
    if i > 0 {
        lemma_offset_determined(m1, m2, i - 1);
    }
}

/// Whether the contents fit their fields is a fact about the contents
/// alone: any two well-formed maps holding the same contents agree.
pub proof fn lemma_fits_determined(m1: ContentMap, m2: ContentMap)
    requires
        m1.wf(),
        m2.wf(),
        m1@ == m2@,
    ensures
        fits_u32(m1) == fits_u32(m2),
{
    m1.lemma_keys_determined(m2);
    lemma_offset_determined(m1, m2, m1.keys().len() as int);
}

/// For a well-formed map, overflowing contents are exactly contents that
/// do not fit.
pub proof fn lemma_view_overflows_iff(m: ContentMap)
    requires
        m.wf(),
    ensures
        view_overflows(m@) == !fits_u32(m),
{
    if view_overflows(m@) {
        let w = choose|w: ContentMap| #[trigger] w.wf() && w@ == m@ && !fits_u32(w);
        lemma_fits_determined(m, w);
    }
    if !fits_u32(m) {
        assert(m.wf() && m@ == m@ && !fits_u32(m));
        assert(view_overflows(m@));
    }
}

} // verus!
