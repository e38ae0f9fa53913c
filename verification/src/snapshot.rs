//! Assembling the save snapshot of a grouped section: the points that the
//! editor exports go back to the source rows they were imported from.
use vstd::prelude::*;
use crate::document::{PathGroup, SectionName, indices_upto, source_indices};
use crate::error::KmpError;
use crate::export::CheckpointLinks;
use crate::graph::EntityId;
use crate::json::{Json, JsonValue, copy_json, json_eq, models};

verus! {

broadcast use vstd::std_specs::vec::group_vec_axioms;

/// `s` is in ascending order.
pub open spec fn ascending(s: Seq<usize>) -> bool {
    forall|i: int, j: int| 0 <= i < j < s.len() ==> s[i] <= s[j]
}

/// The source rows of the points that the importer spawned from `groups`, in
/// ascending row order (a row shared by overlapping groups repeats).
pub fn sorted_source_indices(groups: &Vec<PathGroup>, count: usize) -> (r: Vec<usize>)
    ensures
        ascending(r@),
        r@.to_multiset() == indices_upto(groups@, count as int, groups@.len() as int).to_multiset(),
{
    let input = source_indices(groups, count);
    let ghost src = input@;
    let mut r: Vec<usize> = Vec::new();
    let mut k: usize = 0;
    proof {
        assert(r@ =~= src.subrange(0, 0));
    }
    while k < input.len()
        invariant
            src == input@,
            k <= src.len(),
            ascending(r@),
            r@.to_multiset() == src.subrange(0, k as int).to_multiset(),
        decreases src.len() - k,
    {
        let x = input[k];
        let mut pos: usize = 0;
        while pos < r.len() && r[pos] <= x
            invariant
                pos <= r@.len(),
                forall|i: int| 0 <= i < pos ==> r@[i] <= x,
            decreases r@.len() - pos,
        {
            pos += 1;
        }
        let ghost before = r@;
        r.insert(pos, x);
        proof {
            assert(pos < before.len() ==> x < before[pos as int]);
            assert forall|i: int, j: int| 0 <= i < j < r@.len() implies r@[i] <= r@[j] by {
                if j < pos {
                } else if j == pos {
                    assert(r@[i] == before[i]);
                } else if i < pos {
                    assert(r@[j] == before[j - 1]);
                    assert(before[i] <= x);
                } else if i == pos {
                    assert(r@[j] == before[j - 1]);
                    assert(before[pos as int] <= before[j - 1]);
                } else {
                    assert(r@[i] == before[i - 1] && r@[j] == before[j - 1]);
                }
            }
            vstd::seq_lib::to_multiset_insert(before, pos as int, x);
            assert(src.subrange(0, k + 1) =~= src.subrange(0, k as int).push(x));
            vstd::seq_lib::to_multiset_build(src.subrange(0, k as int), x);
        }
        k += 1;
    }
    proof {
        assert(src.subrange(0, src.len() as int) =~= src);
    }
    r
}

/// The section's rows after the first `k` exported records are written to
/// their rows.
pub open spec fn placed(rows: Seq<Json>, indices: Seq<usize>, exported: Seq<Json>, k: int) -> Seq<Json>
    decreases k,
{
    if k <= 0 {
        rows
    } else {
        placed(rows, indices, exported, k - 1).update(indices[k - 1] as int, exported[k - 1])
    }
}

/// Record `k` goes to a row that an earlier record gave another value.
pub open spec fn clashes(indices: Seq<usize>, exported: Seq<Json>, k: int) -> bool {
    exists|j: int| 0 <= j < k && indices[j] == indices[k] && #[trigger] exported[j] != exported[k]
}

/// The first clashing record among the first `n`.
pub open spec fn first_clash(indices: Seq<usize>, exported: Seq<Json>, n: int) -> Option<int>
    decreases n,
{
    if n <= 0 {
        None
    } else {
        match first_clash(indices, exported, n - 1) {
            Some(k) => Some(k),
            None => if clashes(indices, exported, n - 1) {
                Some(n - 1)
            } else {
                None
            },
        }
    }
}

/// Write the records that a grouped section exports, in editor order, to the
/// source rows its points came from (`indices`, matched one to one), over a
/// copy of the source rows. The counts must match; a row that overlapping
/// groups share must get the same record each time.
pub fn place_exported_points(
    rows: &Vec<JsonValue>,
    indices: &Vec<usize>,
    exported: &Vec<JsonValue>,
    section: SectionName,
) -> (r: Result<Vec<JsonValue>, KmpError>)
    requires
        forall|k: int| 0 <= k < indices@.len() ==> indices@[k] < rows@.len(),
    ensures
        exported@.len() != indices@.len() ==> r == Err::<Vec<JsonValue>, KmpError>(
            KmpError::SnapshotCountChanged(section),
        ),
        exported@.len() == indices@.len() ==> match first_clash(indices@, models(exported@), indices@.len() as int) {
            Some(k) => r == Err::<Vec<JsonValue>, KmpError>(KmpError::ConflictingSharedEdit(section, indices@[k])),
            None => r matches Ok(out) && models(out@) == placed(
                models(rows@),
                indices@,
                models(exported@),
                indices@.len() as int,
            ),
        },
{
    if exported.len() != indices.len() {
        return Err(KmpError::SnapshotCountChanged(section));
    }
    let n = indices.len();
    let ghost ex = models(exported@);
    let mut out: Vec<JsonValue> = Vec::new();
    let mut i: usize = 0;
    while i < rows.len()
        invariant
            i <= rows@.len(),
            out@.len() == i,
            forall|t: int| 0 <= t < i ==> (#[trigger] out@[t]).model() == rows@[t].model(),
        decreases rows@.len() - i,
    {
        out.push(copy_json(&rows[i]));
        i += 1;
    }
    proof {
        assert(models(out@) =~= models(rows@));
    }
    let mut k: usize = 0;
    while k < n
        invariant
            n == indices@.len(),
            n == exported@.len(),
            ex == models(exported@),
            k <= n,
            out@.len() == rows@.len(),
            forall|t: int| 0 <= t < indices@.len() ==> indices@[t] < rows@.len(),
            first_clash(indices@, ex, k as int) is None,
            models(out@) == placed(models(rows@), indices@, ex, k as int),
        decreases n - k,
    {
        let mut j: usize = 0;
        while j < k
            invariant
                k < n,
                n == indices@.len(),
                n == exported@.len(),
                ex == models(exported@),
                first_clash(indices@, ex, k as int) is None,
                j <= k,
                forall|t: int| 0 <= t < j ==> !(indices@[t] == indices@[k as int] && #[trigger] ex[t] != ex[k as int]),
            decreases k - j,
        {
            if indices[j] == indices[k] && !json_eq(&exported[j], &exported[k]) {
                proof {
                    assert(ex[j as int] != ex[k as int]);
                    assert(clashes(indices@, ex, k as int));
                    assert(first_clash(indices@, ex, k + 1) == Some(k as int));
                    lemma_clash_stays(indices@, ex, k as int + 1, n as int);
                }
                return Err(KmpError::ConflictingSharedEdit(section, indices[k]));
            }
            j += 1;
        }
        let ghost before = out@;
        out.set(indices[k], copy_json(&exported[k]));
        proof {
            assert(!clashes(indices@, ex, k as int));
            assert(models(out@) =~= models(before).update(indices@[k as int] as int, ex[k as int]));
        }
        k += 1;
    }
    Ok(out)
}

/// Once a clash is found among the first `m` records it stays the first.
proof fn lemma_clash_stays(indices: Seq<usize>, exported: Seq<Json>, m: int, n: int)
    requires
        first_clash(indices, exported, m) is Some,
        m <= n,
    ensures
        first_clash(indices, exported, n) == first_clash(indices, exported, m),
    decreases n - m,
{
    if m < n {
        lemma_clash_stays(indices, exported, m, n - 1);
    }
}

/// The link fields a checkpoint record keeps in a snapshot: its neighbours
/// always come from the source record, since adjacency is structural; its
/// respawn target does too unless the respawn link differs from the one
/// loaded, so that an unresolved source byte is not replaced by a default.
pub fn snapshot_checkpoint_links(
    exported: CheckpointLinks,
    source: CheckpointLinks,
    current_link: Option<EntityId>,
    loaded_link: Option<EntityId>,
) -> (r: CheckpointLinks)
    ensures
        r == (CheckpointLinks {
            respawn_pos: if current_link == loaded_link {
                source.respawn_pos
            } else {
                exported.respawn_pos
            },
            prev_cp: source.prev_cp,
            next_cp: source.next_cp,
        }),
{
    let unchanged = match (current_link, loaded_link) {
        (Some(a), Some(b)) => a == b,
        (None, None) => true,
        _ => false,
    };
    CheckpointLinks {
        respawn_pos: if unchanged {
            source.respawn_pos
        } else {
            exported.respawn_pos
        },
        prev_cp: source.prev_cp,
        next_cp: source.next_cp,
    }
}

/// The loaded source ids among the first `n` that fit in 16 bits, in order.
pub open spec fn narrowed(ids: Seq<(EntityId, u32)>, n: int) -> Seq<(EntityId, u16)>
    decreases n,
{
    if n <= 0 {
        Seq::empty()
    } else if ids[n - 1].1 <= u16::MAX {
        narrowed(ids, n - 1).push((ids[n - 1].0, ids[n - 1].1 as u16))
    } else {
        narrowed(ids, n - 1)
    }
}

/// The source id lookup that point exporters use: the loaded ids that fit in
/// 16 bits (holes from empty routes are kept); others are left out.
pub fn narrow_source_ids(ids: &Vec<(EntityId, u32)>) -> (r: Vec<(EntityId, u16)>)
    ensures
        r@ == narrowed(ids@, ids@.len() as int),
{
    let mut r: Vec<(EntityId, u16)> = Vec::new();
    let mut i: usize = 0;
    while i < ids.len()
        invariant
            i <= ids@.len(),
            r@ == narrowed(ids@, i as int),
        decreases ids@.len() - i,
    {
        let (e, id) = ids[i];
        if id <= 0xffff {
            r.push((e, id as u16));
        }
        i += 1;
    }
    r
}

} // verus!
