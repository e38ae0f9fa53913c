//! Field-only saving: merge editor changes section by section onto the
//! source values, then transfer the changed bytes onto the source layout.
use vstd::prelude::*;
use crate::error::KmpError;
use crate::json::{
    copy_json, json_eq, lemma_merge_without_edits_succeeds, merge, merged, models, no_op_mergeable, well_formed, FieldKey, Json,
    JsonValue, MergeContext,
};
use crate::layout::{layout_error, patch_bytes, patch_bytes_result, section_start, section_starts, starts_ordered, valid_layout};

verus! {

broadcast use vstd::std_specs::vec::group_vec_axioms;

/// Position of ITPT in the offset table.
pub const ITPT_SECTION: usize = 3;
/// Position of STGI in the offset table.
pub const STGI_SECTION: usize = 14;

/// Merge context of the record array of section `i` (offset-table order).
pub open spec fn section_context(i: int) -> MergeContext {
    MergeContext { itpt: i == 3, stgi: i == 14, entries_root: true, key: FieldKey::Other }
}

/// Merge the record arrays of sections `i..15` in table order, stopping at
/// the first refusal.
pub open spec fn merge_sections_from(o: Seq<Json>, b: Seq<Json>, c: Seq<Json>, i: int) -> Result<
    Seq<Json>,
    KmpError,
>
    decreases 15 - i,
{
    if i < 0 || i >= 15 {
        Ok(o)
    } else {
        match merged(o[i], b[i], c[i], section_context(i)) {
            Ok(v) => merge_sections_from(o.update(i, v), b, c, i + 1),
            Err(e) => Err(e),
        }
    }
}

/// The CAME additional value after a merge: its low byte (the track-select
/// camera) always comes from the source; its high byte (the intro camera)
/// comes from the editor only when the editor changed it.
pub open spec fn came_value(original: u16, baseline: u16, current: u16) -> u16 {
    if baseline / 256 != current / 256 {
        ((current / 256) * 256 + original % 256) as u16
    } else {
        original
    }
}

/// The outcome of merging a whole document.
pub struct DocumentMerge {
    /// Record arrays of the fifteen sections, in table order.
    pub sections: Vec<JsonValue>,
    /// The merged CAME additional value.
    pub came_additional: u16,
    /// Nothing differs from the source: its bytes are kept as they are.
    pub unchanged: bool,
}

fn section_context_exec(i: usize) -> (r: MergeContext)
    ensures
        r == section_context(i as int),
{
    MergeContext { itpt: i == ITPT_SECTION, stgi: i == STGI_SECTION, entries_root: true, key: FieldKey::Other }
}

/// Combine the CAME additional values; see `came_value`.
pub fn came_additional_value(original: u16, baseline: u16, current: u16) -> (r: u16)
    ensures
        r == came_value(original, baseline, current),
        r % 256 == original % 256,
        r / 256 == if baseline / 256 != current / 256 {
            current / 256
        } else {
            original / 256
        },
{
    if baseline & 0xff00 != current & 0xff00 {
        let r = (original & 0x00ff) | (current & 0xff00);
        assert(baseline & 0xff00 != current & 0xff00 ==> baseline / 256 != current / 256) by (bit_vector);
        assert((original & 0x00ff) | (current & 0xff00) == (current / 256) * 256 + original % 256)
            by (bit_vector);
        r
    } else {
        assert(baseline & 0xff00 == current & 0xff00 ==> baseline / 256 == current / 256) by (bit_vector);
        original
    }
}

/// Refuse a source snapshot whose packed encoding differs from that of the
/// file's own bytes as parsed again.
pub fn check_snapshot(reparsed_packed: &[u8], original_packed: &[u8]) -> (r: Result<(), KmpError>)
    ensures
        r is Ok <==> reparsed_packed@ == original_packed@,
        r matches Err(e) ==> e == KmpError::SnapshotMismatch,
{
    if reparsed_packed.len() != original_packed.len() {
        return Err(KmpError::SnapshotMismatch);
    }
    let mut i: usize = 0;
    while i < reparsed_packed.len()
        invariant
            reparsed_packed@.len() == original_packed@.len(),
            i <= reparsed_packed@.len(),
            forall|k: int| 0 <= k < i ==> reparsed_packed@[k] == original_packed@[k],
        decreases reparsed_packed@.len() - i,
    {
        if reparsed_packed[i] != original_packed[i] {
            return Err(KmpError::SnapshotMismatch);
        }
        i += 1;
    }
    assert(reparsed_packed@ =~= original_packed@);
    Ok(())
}

/// Three-way merge of a whole document: the record arrays of the fifteen
/// sections (table order) and CAME's additional value. Section headers are
/// not merged. `unchanged` tells whether the result equals the source, in
/// which case the source bytes are saved as they are (even where they hold
/// values that cannot be re-encoded).
pub fn merge_document(
    original: Vec<JsonValue>,
    baseline: &Vec<JsonValue>,
    current: &Vec<JsonValue>,
    original_came: u16,
    baseline_came: u16,
    current_came: u16,
) -> (r: Result<DocumentMerge, KmpError>)
    requires
        original@.len() == 15,
        baseline@.len() == 15,
        current@.len() == 15,
    ensures
        match merge_sections_from(models(original@), models(baseline@), models(current@), 0) {
            Ok(s) => r matches Ok(d) && models(d.sections@) == s && d.came_additional == came_value(
                original_came,
                baseline_came,
                current_came,
            ) && (d.unchanged <==> (s == models(original@) && d.came_additional == original_came)),
            Err(e) => r matches Err(f) && f == e,
        },
{
    let ghost om = models(original@);
    let ghost bm = models(baseline@);
    let ghost cm = models(current@);
    let mut rest = original;
    let mut out: Vec<JsonValue> = Vec::new();
    let mut same = true;
    let mut i: usize = 0;
    while i < 15
        invariant
            baseline@.len() == 15,
            current@.len() == 15,
            i <= 15,
            out@.len() == i,
            out@.len() + rest@.len() == 15,
            bm == models(baseline@),
            cm == models(current@),
            om.len() == 15,
            om == models(original@),
            merge_sections_from(om, bm, cm, 0) == merge_sections_from(
                models(out@) + models(rest@),
                bm,
                cm,
                i as int,
            ),
            same <==> forall|k: int| 0 <= k < i ==> out@[k].model() == om[k],
            forall|k: int| 0 <= k < rest@.len() ==> rest@[k].model() == om[i + k],
        decreases 15 - i,
    {
        let ghost cur = models(out@) + models(rest@);
        let item = rest.remove(0);
        let before = copy_json(&item);
        assert(cur[i as int] == item.model());
        assert(bm[i as int] == baseline@[i as int].model());
        assert(cm[i as int] == current@[i as int].model());
        let ctx = section_context_exec(i);
        let ghost im = item.model();
        let v = match merge(item, &baseline[i], &current[i], ctx) {
            Ok(v) => v,
            Err(e) => {
                assert(merged(im, bm[i as int], cm[i as int], section_context(i as int)) == Err::<Json, KmpError>(e));
                assert(merge_sections_from(cur, bm, cm, i as int) == Err::<Seq<Json>, KmpError>(e));
                assert(merge_sections_from(om, bm, cm, 0) == Err::<Seq<Json>, KmpError>(e));
                return Err(e);
            },
        };
        if !json_eq(&v, &before) {
            same = false;
        }
        out.push(v);
        proof {
            assert(models(out@) + models(rest@) =~= cur.update(i as int, v.model()));
        }
        i += 1;
    }
    assert(rest@.len() == 0);
    proof {
        assert(models(out@) + models(rest@) =~= models(out@));
    }
    let came = came_additional_value(original_came, baseline_came, current_came);
    let unchanged = same && came == original_came;
    proof {
        if same {
            assert(models(out@) =~= om);
        }
    }
    Ok(DocumentMerge { sections: out, came_additional: came, unchanged })
}

/// Merging an unedited document (the current snapshot equals the baseline)
/// onto a source of the baseline's shape succeeds and changes nothing, CAME
/// value included: a field-only save of it writes the source bytes back as
/// they are.
pub proof fn lemma_unedited_document_is_unchanged(o: Seq<Json>, b: Seq<Json>, came_o: u16, came_b: u16)
    requires
        o.len() == 15,
        b.len() == 15,
        forall|i: int| 0 <= i < 15 ==> well_formed(#[trigger] b[i]) && no_op_mergeable(o[i], b[i]),
    ensures
        merge_sections_from(o, b, b, 0) == Ok::<Seq<Json>, KmpError>(o),
        came_value(came_o, came_b, came_b) == came_o,
{
    lemma_sections_unchanged(o, b, 0);
}

proof fn lemma_sections_unchanged(o: Seq<Json>, b: Seq<Json>, i: int)
    requires
        o.len() == 15,
        b.len() == 15,
        0 <= i <= 15,
        forall|k: int| 0 <= k < 15 ==> well_formed(#[trigger] b[k]) && no_op_mergeable(o[k], b[k]),
    ensures
        merge_sections_from(o, b, b, i) == Ok::<Seq<Json>, KmpError>(o),
    decreases 15 - i,
{
    if i < 15 {
        lemma_merge_without_edits_succeeds(o[i], b[i], section_context(i));
        assert(o.update(i, o[i]) =~= o);
        lemma_sections_unchanged(o, b, i + 1);
    }
}

/// The first half of a field-only save: the source values must encode like
/// the file's own bytes parsed again (`reparsed_packed` against
/// `original_packed`); then the editor's changes are merged onto them.
pub fn begin_field_save(
    reparsed_packed: &[u8],
    original_packed: &[u8],
    original: Vec<JsonValue>,
    baseline: &Vec<JsonValue>,
    current: &Vec<JsonValue>,
    original_came: u16,
    baseline_came: u16,
    current_came: u16,
) -> (r: Result<DocumentMerge, KmpError>)
    requires
        original@.len() == 15,
        baseline@.len() == 15,
        current@.len() == 15,
    ensures
        reparsed_packed@ != original_packed@ ==> r == Err::<DocumentMerge, KmpError>(KmpError::SnapshotMismatch),
        reparsed_packed@ == original_packed@ ==> match merge_sections_from(
            models(original@),
            models(baseline@),
            models(current@),
            0,
        ) {
            Ok(s) => r matches Ok(d) && models(d.sections@) == s && d.came_additional == came_value(
                original_came,
                baseline_came,
                current_came,
            ) && (d.unchanged <==> (s == models(original@) && d.came_additional == original_came)),
            Err(e) => r matches Err(f) && f == e,
        },
{
    match check_snapshot(reparsed_packed, original_packed) {
        Err(e) => return Err(e),
        Ok(()) => {},
    }
    merge_document(original, baseline, current, original_came, baseline_came, current_came)
}

/// The second half of a field-only save: write the changed bytes of the
/// edited encoding onto the source bytes (see `patch_bytes`). The packed
/// source encoding must have a valid layout with its sections in table order.
pub fn transfer_edits(physical: &[u8], packed: &[u8], edited: &[u8]) -> (r: Result<Vec<u8>, KmpError>)
    ensures
        !valid_layout(packed@) ==> r == Err::<Vec<u8>, KmpError>(layout_error(packed@)),
        valid_layout(packed@) && !starts_ordered(packed@) ==> r == Err::<Vec<u8>, KmpError>(
            KmpError::SectionsOutOfOrder,
        ),
        valid_layout(packed@) && starts_ordered(packed@) ==> match patch_bytes_result(physical@, packed@, edited@) {
            Ok(bytes) => r matches Ok(v) && v@ == bytes,
            Err(e) => r == Err::<Vec<u8>, KmpError>(e),
        },
{
    let starts = match section_starts(packed) {
        Ok(s) => s,
        Err(e) => return Err(e),
    };
    let mut i: usize = 0;
    while i < 14
        invariant
            i <= 14,
            valid_layout(packed@),
            starts@.len() == 15,
            forall|k: int| 0 <= k < 15 ==> starts@[k] == #[trigger] section_start(packed@, k),
            forall|k: int| 0 <= k < i ==> #[trigger] section_start(packed@, k) <= section_start(packed@, k + 1),
        decreases 14 - i,
    {
        if starts[i] > starts[i + 1] {
            proof {
                assert(!starts_ordered(packed@)) by {
                    assert(section_start(packed@, i as int) > section_start(packed@, i + 1));
                }
            }
            return Err(KmpError::SectionsOutOfOrder);
        }
        i += 1;
    }
    patch_bytes(physical, packed, edited)
}

} // verus!
