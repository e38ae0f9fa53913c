//! The field-only save as one step: the refusals that come before any byte,
//! the placement of grouped points on their source rows, the merge of the
//! editor's values onto the source values, and the transfer of the changed
//! bytes onto the source file. An encoder for the merged values is handed in.
use vstd::prelude::*;
use crate::document::{LoadedKmp, PathGroup, SectionName, StructuralSignature, indices_upto, links_validation, validation};
use crate::error::KmpError;
use crate::graph::EntityId;
use crate::json::{Json, JsonValue, copy_json, lemma_array_model, models};
use crate::layout::{layout_error, patch_bytes_result, starts_ordered, valid_layout};
use crate::patch::{DocumentMerge, begin_field_save, came_value, merge_sections_from, transfer_edits};
use crate::snapshot::{ascending, first_clash, place_exported_points, placed, sorted_source_indices};

verus! {

broadcast use vstd::std_specs::vec::group_vec_axioms;

/// Position of ENPT in the offset table.
pub const ENPT_SECTION: usize = 1;
/// Position of ITPT in the offset table.
pub const ITPT_ROWS: usize = 3;
/// Position of CKPT in the offset table.
pub const CKPT_SECTION: usize = 5;

/// What a field-only save reads from the editor and from the source.
#[derive(Debug)]
pub struct FieldSaveInput {
    /// The structure of the editor now (see `StructuralSignature`).
    pub current: StructuralSignature,
    /// The first section where a point lacks its transform or order id.
    pub incomplete: Option<SectionName>,
    /// Every path point recorded at loading still has its path node.
    pub nodes_kept: bool,
    /// The route links now (entity, target).
    pub route: Vec<(EntityId, EntityId)>,
    /// The respawn links now (checkpoint, respawn point).
    pub respawn: Vec<(EntityId, EntityId)>,
    /// The entities that are objects.
    pub objects: Vec<EntityId>,
    /// The source parsed again and packed.
    pub reparsed_packed: Vec<u8>,
    /// The source values packed.
    pub original_packed: Vec<u8>,
    /// The record arrays of the fifteen sections of the source values.
    pub original: Vec<JsonValue>,
    /// The record arrays of the values as the editor loaded them.
    pub baseline: Vec<JsonValue>,
    /// The record arrays the editor exports now; the grouped sections
    /// (ENPT, ITPT, CKPT) are rebuilt from `enemy`, `item`, `checkpoint`.
    pub current_sections: Vec<JsonValue>,
    /// The records the enemy, item and checkpoint points export, in editor
    /// order.
    pub enemy: Vec<JsonValue>,
    pub item: Vec<JsonValue>,
    pub checkpoint: Vec<JsonValue>,
    /// The CAME additional values of the source, the loaded values and now.
    pub original_came: u16,
    pub baseline_came: u16,
    pub current_came: u16,
}

/// What a field-only save refuses before it looks at any value (see
/// `LoadedKmp::check_field_save`).
pub open spec fn field_check(d: LoadedKmp, input: FieldSaveInput) -> Result<(), KmpError> {
    match validation(d.signature, input.current) {
        Err(e) => Err(e),
        Ok(()) => match input.incomplete {
            Some(s) => Err(KmpError::IncompletePoint(s)),
            None => if !input.nodes_kept {
                Err(KmpError::PathNodeRemoved)
            } else {
                links_validation(d.links, input.route@, input.respawn@, input.objects@)
            },
        },
    }
}

/// `idx` is the list of source rows of the points spawned from `groups`, in
/// ascending order.
pub open spec fn sorted_for(groups: Seq<PathGroup>, count: int, idx: Seq<usize>) -> bool {
    &&& ascending(idx)
    &&& idx.to_multiset() == indices_upto(groups, count, groups.len() as int).to_multiset()
}

/// The record array of a grouped section in a snapshot: the exported
/// records written to their source rows (see `place_exported_points`).
pub open spec fn placed_rows(rows: Json, idx: Seq<usize>, exported: Seq<Json>, s: SectionName) -> Result<Json, KmpError> {
    match rows {
        Json::Array(rs) => if exists|k: int| 0 <= k < idx.len() && #[trigger] idx[k] >= rs.len() {
            Err(KmpError::SnapshotStructureMismatch)
        } else if exported.len() != idx.len() {
            Err(KmpError::SnapshotCountChanged(s))
        } else {
            match first_clash(idx, exported, idx.len() as int) {
                Some(k) => Err(KmpError::ConflictingSharedEdit(s, idx[k])),
                None => Ok(Json::Array(placed(rs, idx, exported, idx.len() as int))),
            }
        },
        _ => Err(KmpError::SnapshotStructureMismatch),
    }
}

/// The record arrays of the snapshot: the current arrays, with the enemy,
/// item and checkpoint sections placed on the source rows in that order.
pub open spec fn snapshot_sections(
    o: Seq<Json>,
    c: Seq<Json>,
    ie: Seq<usize>,
    ii: Seq<usize>,
    ic: Seq<usize>,
    en: Seq<Json>,
    it: Seq<Json>,
    ck: Seq<Json>,
) -> Result<Seq<Json>, KmpError> {
    match placed_rows(o[1], ie, en, SectionName::EnemyPathPoint) {
        Err(e) => Err(e),
        Ok(a) => match placed_rows(o[3], ii, it, SectionName::ItemPathPoint) {
            Err(e) => Err(e),
            Ok(b) => match placed_rows(o[5], ic, ck, SectionName::Checkpoint) {
                Err(e) => Err(e),
                Ok(cc) => Ok(c.update(1, a).update(3, b).update(5, cc)),
            },
        },
    }
}

/// What `transfer_edits` gives.
pub open spec fn transfer_result(physical: Seq<u8>, packed: Seq<u8>, edited: Seq<u8>) -> Result<Seq<u8>, KmpError> {
    if !valid_layout(packed) {
        Err(layout_error(packed))
    } else if !starts_ordered(packed) {
        Err(KmpError::SectionsOutOfOrder)
    } else {
        patch_bytes_result(physical, packed, edited)
    }
}

/// A byte result seen as a sequence.
pub open spec fn bytes_result(r: Result<Vec<u8>, KmpError>) -> Result<Seq<u8>, KmpError> {
    match r {
        Ok(v) => Ok(v@),
        Err(e) => Err(e),
    }
}

/// The outcome of a field-only patch of `physical` once the snapshot
/// (`current`) is known: the source values must encode like the file parsed
/// again; the merge must succeed; a merge that changes nothing keeps the
/// source bytes; otherwise the encoder packs the merged values and their
/// changed bytes are written onto the source bytes.
pub open spec fn patch_outcome<F: Fn(DocumentMerge) -> Result<Vec<u8>, KmpError>>(
    physical: Seq<u8>,
    reparsed_packed: Seq<u8>,
    original_packed: Seq<u8>,
    original: Seq<Json>,
    baseline: Seq<Json>,
    current: Seq<Json>,
    came: (u16, u16, u16),
    encode: F,
    res: Result<Seq<u8>, KmpError>,
) -> bool {
    if reparsed_packed != original_packed {
        res == Err::<Seq<u8>, KmpError>(KmpError::SnapshotMismatch)
    } else {
        match merge_sections_from(original, baseline, current, 0) {
            Err(e) => res == Err::<Seq<u8>, KmpError>(e),
            Ok(s) => {
                let merged_came = came_value(came.0, came.1, came.2);
                if s == original && merged_came == came.0 {
                    res == Ok::<Seq<u8>, KmpError>(physical)
                } else {
                    exists|m: DocumentMerge, out: Result<Vec<u8>, KmpError>|
                        #[trigger] call_ensures(encode, (m,), out) && models(m.sections@) == s && m.came_additional
                            == merged_came && !m.unchanged && res == match out {
                            Ok(e) => transfer_result(physical, original_packed, e@),
                            Err(x) => Err(x),
                        }
                }
            },
        }
    }
}

/// The outcome of a field-only save of document `d`: the refusals of
/// `field_check` come first, then the placement of the grouped sections
/// (a count change or conflicting edits to a shared row is refused), then
/// the patch (`patch_outcome`).
pub open spec fn field_save_outcome<F: Fn(DocumentMerge) -> Result<Vec<u8>, KmpError>>(
    d: LoadedKmp,
    input: FieldSaveInput,
    encode: F,
    res: Result<Seq<u8>, KmpError>,
) -> bool {
    match field_check(d, input) {
        Err(e) => res == Err::<Seq<u8>, KmpError>(e),
        Ok(()) => exists|ie: Seq<usize>, ii: Seq<usize>, ic: Seq<usize>|
            #[trigger] sorted_for(d.source.enph@, d.source.enpt_count as int, ie) && #[trigger] sorted_for(
                d.source.itph@,
                d.source.itpt_count as int,
                ii,
            ) && #[trigger] sorted_for(d.source.ckph@, d.source.ckpt_count as int, ic) && match snapshot_sections(
                models(input.original@),
                models(input.current_sections@),
                ie,
                ii,
                ic,
                models(input.enemy@),
                models(input.item@),
                models(input.checkpoint@),
            ) {
                Err(e) => res == Err::<Seq<u8>, KmpError>(e),
                Ok(cur) => patch_outcome(
                    d.original_bytes@,
                    input.reparsed_packed@,
                    input.original_packed@,
                    models(input.original@),
                    models(input.baseline@),
                    cur,
                    (input.original_came, input.baseline_came, input.current_came),
                    encode,
                    res,
                ),
            },
    }
}

/// A copy of record arrays.
pub fn copy_sections(v: &Vec<JsonValue>) -> (r: Vec<JsonValue>)
    ensures
        models(r@) == models(v@),
        r@.len() == v@.len(),
{
    let mut r: Vec<JsonValue> = Vec::new();
    let mut i: usize = 0;
    while i < v.len()
        invariant
            i <= v@.len(),
            r@.len() == i,
            forall|k: int| 0 <= k < i ==> (#[trigger] r@[k]).model() == v@[k].model(),
        decreases v@.len() - i,
    {
        r.push(copy_json(&v[i]));
        i += 1;
    }
    proof {
        assert(models(r@) =~= models(v@));
    }
    r
}

/// Place the exported records of a grouped section on the source rows
/// `indices` of its record array (see `placed_rows`).
fn place_grouped(section: &JsonValue, indices: &Vec<usize>, exported: &Vec<JsonValue>, s: SectionName) -> (r: Result<
    JsonValue,
    KmpError,
>)
    ensures
        match placed_rows(section.model(), indices@, models(exported@), s) {
            Ok(j) => r matches Ok(v) && v.model() == j,
            Err(e) => r == Err::<JsonValue, KmpError>(e),
        },
{
    match section {
        JsonValue::Array(rows) => {
            proof {
                lemma_array_model(*rows);
            }
            let mut k: usize = 0;
            while k < indices.len()
                invariant
                    k <= indices@.len(),
                    section.model() == Json::Array(models(rows@)),
                    forall|t: int| 0 <= t < k ==> #[trigger] indices@[t] < rows@.len(),
                decreases indices@.len() - k,
            {
                if indices[k] >= rows.len() {
                    proof {
                        assert(indices@[k as int] >= models(rows@).len());
                    }
                    return Err(KmpError::SnapshotStructureMismatch);
                }
                k += 1;
            }
            proof {
                assert(!exists|t: int| 0 <= t < indices@.len() && #[trigger] indices@[t] >= models(rows@).len());
            }
            match place_exported_points(rows, indices, exported, s) {
                Ok(out) => {
                    let v = JsonValue::Array(out);
                    proof {
                        lemma_array_model(out);
                    }
                    Ok(v)
                },
                Err(e) => Err(e),
            }
        },
        _ => Err(KmpError::SnapshotStructureMismatch),
    }
}

/// A field-only patch of `physical` (the source file's bytes): see
/// `patch_outcome`. The encoder packs merged values into the source's
/// canonical binary form.
pub fn patch_document<F: Fn(DocumentMerge) -> Result<Vec<u8>, KmpError>>(
    physical: &Vec<u8>,
    reparsed_packed: &Vec<u8>,
    original_packed: &Vec<u8>,
    original: &Vec<JsonValue>,
    baseline: &Vec<JsonValue>,
    current: &Vec<JsonValue>,
    came: (u16, u16, u16),
    encode: F,
) -> (r: Result<Vec<u8>, KmpError>)
    requires
        original@.len() == 15,
        baseline@.len() == 15,
        current@.len() == 15,
        forall|m: DocumentMerge| #[trigger] encode.requires((m,)),
    ensures
        patch_outcome(
            physical@,
            reparsed_packed@,
            original_packed@,
            models(original@),
            models(baseline@),
            models(current@),
            came,
            encode,
            bytes_result(r),
        ),
{
    let source = copy_sections(original);
    let merged = match begin_field_save(reparsed_packed, original_packed, source, baseline, current, came.0, came.1, came.2) {
        Ok(m) => m,
        Err(e) => {
            return Err(e);
        },
    };
    if merged.unchanged {
        let kept = physical.clone();
        proof {
            assert(kept@ =~= physical@);
        }
        return Ok(kept);
    }
    let ghost gm = merged;
    let encoded = encode(merged);
    let ghost genc = encoded;
    match encoded {
        Err(x) => {
            proof {
                assert(call_ensures(encode, (gm,), genc));
            }
            Err(x)
        },
        Ok(edited) => {
            let r = transfer_edits(physical, original_packed, &edited);
            proof {
                assert(call_ensures(encode, (gm,), genc));
                assert(bytes_result(r) == transfer_result(physical@, original_packed@, edited@));
            }
            r
        },
    }
}

impl LoadedKmp {
    /// A field-only save of this document: see `field_save_outcome`. Every
    /// refusal comes before any byte is produced; otherwise the result is
    /// the bytes to write.
    pub fn field_save<F: Fn(DocumentMerge) -> Result<Vec<u8>, KmpError>>(&self, input: &FieldSaveInput, encode: F) -> (r: Result<
        Vec<u8>,
        KmpError,
    >)
        requires
            input.original@.len() == 15,
            input.baseline@.len() == 15,
            input.current_sections@.len() == 15,
            forall|m: DocumentMerge| #[trigger] encode.requires((m,)),
        ensures
            field_save_outcome(*self, *input, encode, bytes_result(r)),
    {
        match self.check_field_save(&input.current, input.incomplete, input.nodes_kept, &input.route, &input.respawn, &input.objects) {
            Err(e) => {
                return Err(e);
            },
            Ok(()) => {},
        }
        let ie = sorted_source_indices(&self.source.enph, self.source.enpt_count);
        let ii = sorted_source_indices(&self.source.itph, self.source.itpt_count);
        let ic = sorted_source_indices(&self.source.ckph, self.source.ckpt_count);
        let ghost o = models(input.original@);
        let ghost c = models(input.current_sections@);
        proof {
            assert(sorted_for(self.source.enph@, self.source.enpt_count as int, ie@));
            assert(sorted_for(self.source.itph@, self.source.itpt_count as int, ii@));
            assert(sorted_for(self.source.ckph@, self.source.ckpt_count as int, ic@));
            assert(o[1] == input.original@[1].model());
            assert(o[3] == input.original@[3].model());
            assert(o[5] == input.original@[5].model());
        }
        let enemy = match place_grouped(&input.original[ENPT_SECTION], &ie, &input.enemy, SectionName::EnemyPathPoint) {
            Ok(v) => v,
            Err(e) => {
                return Err(e);
            },
        };
        let item = match place_grouped(&input.original[ITPT_ROWS], &ii, &input.item, SectionName::ItemPathPoint) {
            Ok(v) => v,
            Err(e) => {
                return Err(e);
            },
        };
        let checkpoint = match place_grouped(&input.original[CKPT_SECTION], &ic, &input.checkpoint, SectionName::Checkpoint) {
            Ok(v) => v,
            Err(e) => {
                return Err(e);
            },
        };
        let ghost ej = enemy.model();
        let ghost ij = item.model();
        let ghost cj = checkpoint.model();
        let mut current = copy_sections(&input.current_sections);
        current.set(ENPT_SECTION, enemy);
        current.set(ITPT_ROWS, item);
        current.set(CKPT_SECTION, checkpoint);
        proof {
            assert(models(current@) =~= c.update(1, ej).update(3, ij).update(5, cj));
        }
        let came = (input.original_came, input.baseline_came, input.current_came);
        patch_document(
            &self.original_bytes,
            &input.reparsed_packed,
            &input.original_packed,
            &input.original,
            &input.baseline,
            &current,
            came,
            encode,
        )
    }
}

} // verus!
