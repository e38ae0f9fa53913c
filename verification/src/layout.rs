//! The physical layout of a KMP file: its header, the offset table of its
//! fifteen sections, and the byte-level application of field edits.
use vstd::prelude::*;
use crate::error::KmpError;

verus! {

/// Number of sections in the KMP offset table.
pub const SECTION_COUNT: usize = 15;
/// Length of the fixed part of the KMP header.
pub const MIN_HEADER_LEN: usize = 76;
/// Position of CAME in the offset table.
pub const CAME_SECTION: usize = 10;

/// Big-endian 16-bit word at `i`.
pub open spec fn be_u16(b: Seq<u8>, i: int) -> int {
    b[i] * 256 + b[i + 1]
}

/// Big-endian 32-bit word at `i`.
pub open spec fn be_u32(b: Seq<u8>, i: int) -> int {
    b[i] * 16777216 + b[i + 1] * 65536 + b[i + 2] * 256 + b[i + 3]
}

/// Declared header length, which may exceed the usual 76 bytes.
pub open spec fn header_len(b: Seq<u8>) -> int {
    be_u16(b, 10)
}

/// Absolute start of section `i`: header length plus its table offset.
pub open spec fn section_start(b: Seq<u8>, i: int) -> int {
    header_len(b) + be_u32(b, 16 + 4 * i)
}

/// The header is complete and declares a length inside the file.
pub open spec fn header_ok(b: Seq<u8>) -> bool {
    &&& b.len() >= 76
    &&& 76 <= header_len(b) <= b.len()
}

/// Every section has room for its 8-byte section header.
pub open spec fn offsets_ok(b: Seq<u8>) -> bool {
    forall|i: int| 0 <= i < 15 ==> #[trigger] section_start(b, i) + 8 <= b.len()
}

/// The file has a readable header and offset table.
pub open spec fn valid_layout(b: Seq<u8>) -> bool {
    header_ok(b) && offsets_ok(b)
}

/// Which refusal `section_starts` gives for a file without a valid layout.
pub open spec fn layout_error(b: Seq<u8>) -> KmpError {
    if b.len() < 76 {
        KmpError::TruncatedHeader
    } else if !header_ok(b) {
        KmpError::InvalidHeaderLength
    } else {
        KmpError::InvalidSectionOffset
    }
}

/// The starts of all fifteen sections, in table order.
pub open spec fn starts_of(b: Seq<u8>) -> Seq<int> {
    Seq::new(15, |i: int| section_start(b, i))
}

fn read_be_u16(bytes: &[u8], i: usize) -> (r: usize)
    requires
        i + 1 < bytes@.len(),
    ensures
        r == be_u16(bytes@, i as int),
{
    (bytes[i] as usize) * 256 + (bytes[i + 1] as usize)
}

fn read_be_u32(bytes: &[u8], i: usize) -> (r: u64)
    requires
        i + 3 < bytes@.len(),
    ensures
        r == be_u32(bytes@, i as int),
{
    (bytes[i] as u64) * 16777216 + (bytes[i + 1] as u64) * 65536 + (bytes[i + 2] as u64) * 256
        + (bytes[i + 3] as u64)
}

/// Read the fifteen absolute section starts. The header length is taken from
/// the file (it may exceed 76 bytes), and each section must leave room for
/// its 8-byte section header.
pub fn section_starts(bytes: &[u8]) -> (r: Result<Vec<usize>, KmpError>)
    ensures
        r is Ok <==> valid_layout(bytes@),
        r matches Ok(s) ==> s@.len() == 15 && forall|i: int|
            0 <= i < 15 ==> s@[i] == #[trigger] section_start(bytes@, i),
        r matches Err(e) ==> e == layout_error(bytes@),
{
    if bytes.len() < MIN_HEADER_LEN {
        return Err(KmpError::TruncatedHeader);
    }
    let header = read_be_u16(bytes, 10);
    if header < MIN_HEADER_LEN || header > bytes.len() {
        return Err(KmpError::InvalidHeaderLength);
    }
    let mut starts: Vec<usize> = Vec::new();
    let mut i: usize = 0;
    while i < SECTION_COUNT
        invariant
            header_ok(bytes@),
            header == header_len(bytes@),
            i <= 15,
            starts@.len() == i,
            forall|k: int| 0 <= k < i ==> starts@[k] == section_start(bytes@, k),
            forall|k: int| 0 <= k < i ==> #[trigger] section_start(bytes@, k) + 8 <= bytes@.len(),
        decreases 15 - i,
    {
        let relative = read_be_u32(bytes, 16 + i * 4);
        let len = bytes.len() as u64;
        if relative > len || (header as u64) + relative + 8 > len {
            assert(section_start(bytes@, i as int) + 8 > bytes@.len());
            return Err(KmpError::InvalidSectionOffset);
        }
        let start = header + (relative as usize);
        starts.push(start);
        i += 1;
    }
    Ok(starts)
}

/// Table-order sections never start before the previous one, as in the
/// packed encodings that field edits are compared on.
pub open spec fn starts_ordered(b: Seq<u8>) -> bool {
    forall|i: int| 0 <= i < 14 ==> #[trigger] section_start(b, i) <= section_start(b, i + 1)
}

/// End of section `i` in a packed encoding: the next section's start, or the
/// end of the file for the last one.
pub open spec fn section_end(b: Seq<u8>, i: int) -> int {
    if i < 14 {
        section_start(b, i + 1)
    } else {
        b.len() as int
    }
}

/// The physical extent of `len` bytes at the start of section `i` fits before
/// the next physical section (by position, not table order) and the file end.
pub open spec fn extent_fits(physical: Seq<u8>, i: int, len: int) -> bool {
    &&& section_start(physical, i) + len <= physical.len()
    &&& forall|k: int|
        0 <= k < 15 && #[trigger] section_start(physical, k) > section_start(physical, i) ==>
            section_start(physical, i) + len <= section_start(physical, k)
}

/// Copy into `r` the bytes of section `i` that differ between the packed
/// original and packed edited encodings, at the section's physical position:
/// payload offsets `8..upto`, and for CAME (when `header` is set) offset 6, the
/// sole editable header byte.
pub open spec fn section_edit(
    r: Seq<u8>,
    packed: Seq<u8>,
    edited: Seq<u8>,
    physical: Seq<u8>,
    i: int,
    upto: int,
    header: bool,
) -> Seq<u8> {
    Seq::new(
        r.len(),
        |j: int|
            {
                let off = j - section_start(physical, i);
                let src = section_start(packed, i) + off;
                if 8 <= off < upto && packed[src] != edited[src] {
                    edited[src]
                } else if header && i == 10 && off == 6 && packed[src] != edited[src] {
                    edited[src]
                } else {
                    r[j]
                }
            },
    )
}

/// The physical bytes after applying the edits of the first `n` sections.
pub open spec fn patched(physical: Seq<u8>, packed: Seq<u8>, edited: Seq<u8>, n: int) -> Seq<u8>
    decreases n,
{
    if n <= 0 {
        physical
    } else {
        section_edit(
            patched(physical, packed, edited, n - 1),
            packed,
            edited,
            physical,
            n - 1,
            section_end(packed, n - 1) - section_start(packed, n - 1),
            true,
        )
    }
}

/// What `patch_bytes` returns.
pub open spec fn patch_bytes_result(physical: Seq<u8>, packed: Seq<u8>, edited: Seq<u8>) -> Result<
    Seq<u8>,
    KmpError,
> {
    if edited.len() != packed.len() {
        Err(KmpError::LengthChanged)
    } else if !valid_layout(packed) {
        Err(layout_error(packed))
    } else if !valid_layout(edited) {
        Err(layout_error(edited))
    } else if starts_of(edited) != starts_of(packed) {
        Err(KmpError::SectionLengthsChanged)
    } else if !valid_layout(physical) {
        Err(layout_error(physical))
    } else if exists|i: int|
        0 <= i < 15 && !#[trigger] extent_fits(
            physical,
            i,
            section_end(packed, i) - section_start(packed, i),
        ) {
        Err(KmpError::SectionOutOfBounds)
    } else {
        Ok(patched(physical, packed, edited, 15))
    }
}

/// Byte `j` of the physical file lies in the payload of a section (offsets
/// 8 up to the section's packed length) or is CAME's editable header byte.
pub open spec fn editable_byte(physical: Seq<u8>, packed: Seq<u8>, j: int) -> bool {
    exists|i: int|
        0 <= i < 15 && {
            let off = j - #[trigger] section_start(physical, i);
            (8 <= off < section_end(packed, i) - section_start(packed, i)) || (i == 10 && off == 6)
        }
}

proof fn lemma_patched_identity(physical: Seq<u8>, packed: Seq<u8>, n: int)
    ensures
        patched(physical, packed, packed, n) == physical,
    decreases n,
{
    if n > 0 {
        lemma_patched_identity(physical, packed, n - 1);
        let len = section_end(packed, n - 1) - section_start(packed, n - 1);
        assert(section_edit(physical, packed, packed, physical, n - 1, len, true) =~= physical);
    }
}

/// When the merged document encodes exactly like the source (no field was
/// edited), patching writes nothing: every source byte is kept.
pub proof fn lemma_unedited_patch_keeps_every_byte(physical: Seq<u8>, packed: Seq<u8>)
    requires
        patch_bytes_result(physical, packed, packed) is Ok,
    ensures
        patch_bytes_result(physical, packed, packed) == Ok::<Seq<u8>, KmpError>(physical),
{
    lemma_patched_identity(physical, packed, 15);
}

proof fn lemma_patched_outside(physical: Seq<u8>, packed: Seq<u8>, edited: Seq<u8>, n: int, j: int)
    requires
        0 <= j < physical.len(),
        n <= 15,
        !editable_byte(physical, packed, j),
    ensures
        patched(physical, packed, edited, n)[j] == physical[j],
    decreases n,
{
    if n > 0 {
        lemma_patched_outside(physical, packed, edited, n - 1, j);
        lemma_patched_len(physical, packed, edited, n - 1);
        let i = n - 1;
        let off = j - section_start(physical, i);
        assert(!((8 <= off < section_end(packed, i) - section_start(packed, i)) || (i == 10 && off == 6)));
    }
}

/// Patching never writes outside section payloads and CAME's editable header
/// byte: the file header, section headers, gaps between sections, and
/// trailing data all survive byte for byte.
pub proof fn lemma_patch_keeps_unmodelled_bytes(physical: Seq<u8>, packed: Seq<u8>, edited: Seq<u8>, j: int)
    requires
        0 <= j < physical.len(),
        !editable_byte(physical, packed, j),
        patch_bytes_result(physical, packed, edited) is Ok,
    ensures
        patch_bytes_result(physical, packed, edited)->Ok_0[j] == physical[j],
{
    lemma_patched_outside(physical, packed, edited, 15, j);
}

/// After the first `n > i` sections are applied, the byte at payload offset
/// `off` of section `i` holds the edited value, when no two sections share a
/// physical start.
proof fn lemma_patched_edit(physical: Seq<u8>, packed: Seq<u8>, edited: Seq<u8>, n: int, i: int, off: int)
    requires
        0 <= i < n <= 15,
        forall|k: int| 0 <= k < 15 ==> #[trigger] extent_fits(physical, k, section_end(packed, k) - section_start(packed, k)),
        forall|k: int| 0 <= k < 15 && k != i ==> #[trigger] section_start(physical, k) != section_start(physical, i),
        8 <= off < section_end(packed, i) - section_start(packed, i),
        packed[section_start(packed, i) + off] != edited[section_start(packed, i) + off],
    ensures
        patched(physical, packed, edited, n)[section_start(physical, i) + off] == edited[section_start(packed, i) + off],
    decreases n,
{
    let j = section_start(physical, i) + off;
    assert(extent_fits(physical, i, section_end(packed, i) - section_start(packed, i)));
    lemma_patched_len(physical, packed, edited, n - 1);
    if n - 1 > i {
        lemma_patched_edit(physical, packed, edited, n - 1, i, off);
        let k = n - 1;
        assert(extent_fits(physical, k, section_end(packed, k) - section_start(packed, k)));
        assert(section_start(physical, k) != section_start(physical, i));
        let offk = j - section_start(physical, k);
        if section_start(physical, k) > section_start(physical, i) {
            assert(offk < 0);
        } else {
            assert(offk >= section_end(packed, k) - section_start(packed, k) + 8);
        }
    }
}

/// Every edited payload byte is written: for each of the fifteen sections
/// and each payload offset where the merged encoding differs from the
/// source's, the patched file holds the edited byte at that offset of the
/// section's physical position (when no two sections share a physical
/// start, as in any file whose sections are distinct).
pub proof fn lemma_patch_writes_every_edit(physical: Seq<u8>, packed: Seq<u8>, edited: Seq<u8>, i: int, off: int)
    requires
        patch_bytes_result(physical, packed, edited) is Ok,
        0 <= i < 15,
        forall|k: int| 0 <= k < 15 && k != i ==> #[trigger] section_start(physical, k) != section_start(physical, i),
        8 <= off < section_end(packed, i) - section_start(packed, i),
        packed[section_start(packed, i) + off] != edited[section_start(packed, i) + off],
    ensures
        patch_bytes_result(physical, packed, edited)->Ok_0[section_start(physical, i) + off] == edited[section_start(packed, i)
            + off],
{
    assert forall|k: int| 0 <= k < 15 implies #[trigger] extent_fits(physical, k, section_end(packed, k) - section_start(packed, k)) by {}
    lemma_patched_edit(physical, packed, edited, 15, i, off);
}

proof fn lemma_patched_len(physical: Seq<u8>, packed: Seq<u8>, edited: Seq<u8>, n: int)
    ensures
        patched(physical, packed, edited, n).len() == physical.len(),
    decreases n,
{
    if n > 0 {
        lemma_patched_len(physical, packed, edited, n - 1);
    }
}

/// The smallest physical section start above `place`, or the file length.
fn next_boundary(physical_starts: &Vec<usize>, place: usize, len: usize) -> (boundary: usize)
    requires
        physical_starts@.len() == 15,
    ensures
        boundary <= len,
        forall|m: int| 0 <= m < 15 && physical_starts@[m] > place ==> boundary <= physical_starts@[m],
        boundary == len || exists|m: int|
            0 <= m < 15 && physical_starts@[m] > place && boundary == physical_starts@[m],
{
    let mut boundary = len;
    let mut k: usize = 0;
    while k < SECTION_COUNT
        invariant
            k <= 15,
            physical_starts@.len() == 15,
            boundary <= len,
            forall|m: int| 0 <= m < k && physical_starts@[m] > place ==> boundary <= physical_starts@[m],
            boundary == len || exists|m: int|
                0 <= m < k && physical_starts@[m] > place && boundary == physical_starts@[m],
        decreases 15 - k,
    {
        if physical_starts[k] > place && physical_starts[k] < boundary {
            boundary = physical_starts[k];
        }
        k += 1;
    }
    boundary
}

/// Copy the changed bytes of one section onto its physical position.
fn apply_section(
    result: &mut Vec<u8>,
    physical: &[u8],
    packed: &[u8],
    edited: &[u8],
    i: usize,
    start: usize,
    n: usize,
    place: usize,
)
    requires
        i < 15,
        valid_layout(packed@),
        valid_layout(physical@),
        start == section_start(packed@, i as int),
        place == section_start(physical@, i as int),
        start + n <= packed@.len(),
        place + n <= physical@.len(),
        edited@.len() == packed@.len(),
        old(result)@.len() == physical@.len(),
        packed@.len() <= usize::MAX,
        physical@.len() <= usize::MAX,
    ensures
        final(result)@ == section_edit(old(result)@, packed@, edited@, physical@, i as int, n as int, true),
{
    let ghost before = result@;
    assert(section_start(packed@, i as int) + 8 <= packed@.len());
    assert(section_start(physical@, i as int) + 8 <= physical@.len());
    let mut off: usize = 8;
    while off < n
        invariant
            8 <= off,
            off <= n || off == 8,
            packed@.len() <= usize::MAX,
            physical@.len() <= usize::MAX,
            start + n <= packed@.len(),
            place + n <= physical@.len(),
            start == section_start(packed@, i as int),
            place == section_start(physical@, i as int),
            edited@.len() == packed@.len(),
            result@.len() == physical@.len(),
            result@ == section_edit(before, packed@, edited@, physical@, i as int, off as int, false),
        decreases n - off,
    {
        let a = packed[start + off];
        let b = edited[start + off];
        if a != b {
            result.set(place + off, b);
        }
        proof {
            assert(result@ =~= section_edit(before, packed@, edited@, physical@, i as int, off + 1, false));
        }
        off += 1;
    }
    proof {
        if n > 8 {
            assert(off == n);
        }
        assert(result@ =~= section_edit(before, packed@, edited@, physical@, i as int, n as int, false));
    }
    if i == CAME_SECTION {
        let a = packed[start + 6];
        let b = edited[start + 6];
        if a != b {
            result.set(place + 6, b);
        }
    }
    proof {
        assert(result@ =~= section_edit(before, packed@, edited@, physical@, i as int, n as int, true));
    }
}

/// Transfer the byte differences between two packed encodings (the source as
/// parsed, and the same document with its field edits merged) onto the
/// source's physical bytes. Sections may be shuffled, separated by gaps, or
/// followed by trailing data; only changed payload bytes, plus CAME's
/// editable header byte, are written, so headers, padding and unmodelled
/// data survive unchanged.
pub fn patch_bytes(physical: &[u8], packed: &[u8], edited: &[u8]) -> (r: Result<Vec<u8>, KmpError>)
    requires
        valid_layout(packed@) ==> starts_ordered(packed@),
    ensures
        match patch_bytes_result(physical@, packed@, edited@) {
            Ok(bytes) => r matches Ok(v) && v@ == bytes,
            Err(e) => r == Err::<Vec<u8>, KmpError>(e),
        },
{
    let packed_len = packed.len();
    let physical_len = physical.len();
    if edited.len() != packed_len {
        return Err(KmpError::LengthChanged);
    }
    let canonical_starts = match section_starts(packed) {
        Ok(s) => s,
        Err(e) => return Err(e),
    };
    let edited_starts = match section_starts(edited) {
        Ok(s) => s,
        Err(e) => return Err(e),
    };
    let mut k: usize = 0;
    while k < SECTION_COUNT
        invariant
            k <= 15,
            canonical_starts@.len() == 15,
            edited_starts@.len() == 15,
            valid_layout(packed@),
            valid_layout(edited@),
            edited@.len() == packed@.len(),
            forall|m: int| 0 <= m < 15 ==> canonical_starts@[m] == #[trigger] section_start(packed@, m),
            forall|m: int| 0 <= m < 15 ==> edited_starts@[m] == #[trigger] section_start(edited@, m),
            forall|m: int| 0 <= m < k ==> canonical_starts@[m] == edited_starts@[m],
        decreases 15 - k,
    {
        if canonical_starts[k] != edited_starts[k] {
            assert(starts_of(edited@)[k as int] != starts_of(packed@)[k as int]);
            assert(starts_of(edited@) != starts_of(packed@));
            return Err(KmpError::SectionLengthsChanged);
        }
        k += 1;
    }
    assert(starts_of(edited@) =~= starts_of(packed@));
    let physical_starts = match section_starts(physical) {
        Ok(s) => s,
        Err(e) => return Err(e),
    };
    let mut result = vstd::slice::slice_to_vec(physical);
    proof {
        lemma_patched_len(physical@, packed@, edited@, 0);
    }
    let mut i: usize = 0;
    while i < SECTION_COUNT
        invariant
            i <= 15,
            valid_layout(packed@),
            valid_layout(edited@),
            valid_layout(physical@),
            starts_ordered(packed@),
            edited@.len() == packed@.len(),
            starts_of(edited@) == starts_of(packed@),
            canonical_starts@.len() == 15,
            physical_starts@.len() == 15,
            forall|m: int| 0 <= m < 15 ==> canonical_starts@[m] == #[trigger] section_start(packed@, m),
            forall|m: int| 0 <= m < 15 ==> physical_starts@[m] == #[trigger] section_start(physical@, m),
            forall|m: int|
                0 <= m < i ==> #[trigger] extent_fits(
                    physical@,
                    m,
                    section_end(packed@, m) - section_start(packed@, m),
                ),
            result@ == patched(physical@, packed@, edited@, i as int),
            result@.len() == physical@.len(),
            packed_len == packed@.len(),
            physical_len == physical@.len(),
        decreases 15 - i,
    {
        let start = canonical_starts[i];
        let end = if i + 1 < SECTION_COUNT {
            canonical_starts[i + 1]
        } else {
            edited.len()
        };
        assert(start <= end) by {
            if i + 1 < 15 {
                assert(section_start(packed@, i as int) <= section_start(packed@, i + 1));
            } else {
                assert(section_start(packed@, 14) + 8 <= packed@.len());
            }
        }
        assert(end <= packed@.len()) by {
            if i + 1 < 15 {
                assert(section_start(packed@, i + 1) + 8 <= packed@.len());
            }
        }
        let n = end - start;
        assert(n == section_end(packed@, i as int) - section_start(packed@, i as int));
        let place = physical_starts[i];
        assert(place + 8 <= physical@.len()) by {
            assert(section_start(physical@, i as int) + 8 <= physical@.len());
        }
        let boundary = next_boundary(&physical_starts, place, physical.len());
        if n > physical.len() - place || place + n > boundary {
            assert(!extent_fits(physical@, i as int, n as int)) by {
                if place + n > boundary && boundary < physical@.len() {
                    let m = choose|m: int|
                        0 <= m < 15 && physical_starts@[m] > place && boundary == physical_starts@[m];
                    assert(section_start(physical@, m) > section_start(physical@, i as int));
                }
            }
            return Err(KmpError::SectionOutOfBounds);
        }
        assert(extent_fits(physical@, i as int, n as int)) by {
            assert forall|k: int|
                0 <= k < 15 && #[trigger] section_start(physical@, k) > section_start(physical@, i as int) implies
                section_start(physical@, i as int) + n <= section_start(physical@, k) by {
                assert(physical_starts@[k] == section_start(physical@, k));
            }
        }
        apply_section(&mut result, physical, packed, edited, i, start, n, place);
        proof {
            lemma_patched_len(physical@, packed@, edited@, i + 1);
        }
        i += 1;
    }
    proof {
        assert(!exists|m: int|
            0 <= m < 15 && !#[trigger] extent_fits(
                physical@,
                m,
                section_end(packed@, m) - section_start(packed@, m),
            ));
    }
    Ok(result)
}

} // verus!
