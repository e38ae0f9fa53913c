use vstd::prelude::*;
use crate::document::SectionName;

verus! {

/// Every way in which loading, patching or rebuilding a KMP document can be
/// refused. Each refusal happens before any byte is written.
#[derive(Debug, Clone, Copy, PartialEq, Eq, Structural)]
pub enum KmpError {
    /// Fewer than 76 bytes: the fixed KMP header is incomplete.
    TruncatedHeader,
    /// The declared header length is below 76 or past the end of the file.
    InvalidHeaderLength,
    /// A section's offset leaves no room for its 8-byte section header.
    InvalidSectionOffset,
    /// A section payload would run into the next physical section or past the end.
    SectionOutOfBounds,
    /// The edited canonical encoding has a different total length.
    LengthChanged,
    /// The edited canonical encoding has different section lengths.
    SectionLengthsChanged,
    /// An edited rotation is not a triple of numbers.
    UnsupportedRotation,
    /// Records were added to or removed from an array.
    StructuralEdit,
    /// The source values do not have the shape of the editor snapshot.
    SnapshotStructureMismatch,
    /// Objects with different numbers of fields.
    ObjectStructureMismatch,
    /// The current snapshot lacks a field of the baseline.
    MissingCurrentField,
    /// The source values lack a field of the baseline.
    MissingOriginalField,
    /// A bitfield value is not a non-negative integer.
    InvalidFlags,
    /// The parsed source values do not encode to the source's own bytes.
    SnapshotMismatch,
    /// A scalar that cannot be merged (text, a type change, or a non-finite float).
    UnsupportedScalar,
    /// Points of this section were added, removed or reordered since loading.
    StructuralSectionChanged(SectionName),
    /// Path topology, checkpoint pairing or an overall start changed since loading.
    StructuralTopologyChanged,
    /// No destination was given and no file is open.
    NoDestination,
    /// The destination's extension is not `kmp`.
    NotKmpExtension,
    /// No loaded document is available to save.
    NoDocument,
    /// The active file has no record of the bytes saved to it.
    NoSavedVersion,
    /// A path point has no graph component.
    MissingGraphComponent,
    /// A path point has more links on one side than its path allows.
    TooManyLinks,
    /// A link leads outside the section or to a point that no longer exists.
    StaleEdge,
    /// A linked point has no graph component.
    LinkedPointMissingComponent,
    /// A link is recorded at only one of its ends.
    AsymmetricEdge,
    /// A path section has more than one overall start.
    MultipleStarts,
    /// Route points form a cycle.
    RouteCycle,
    /// The section needs more groups than its index width allows.
    TooManyGroups,
    /// A group would start past the 8-bit index range.
    GroupStartOutOfRange,
    /// A group links to more than six groups on one side.
    TooManyGroupLinks,
    /// A value does not fit the byte it is stored in.
    ByteOverflow,
    /// A checkpoint beside another would need an index past the 8-bit range.
    CheckpointAdjacencyOutOfRange,
    /// A point has no editor order id.
    MissingOrderId,
    /// A point has no transform.
    MissingTransform,
    /// A point's transform is not finite.
    NonFiniteTransform,
    /// A point's rotation is not a unit quaternion.
    InvalidRotation,
    /// A section has more points than its 16-bit count can hold.
    TooManyPoints,
    /// An edited index names no point of this section.
    EditedIndexMissing(SectionName, u8),
    /// A reference to this section would need an index past the 8-bit range.
    ReferenceOutOfRange(SectionName),
    /// The referenced point of this section was deleted or is unavailable.
    ReferenceUnavailable(SectionName),
    /// A route link targets a route that no longer exists.
    RouteTargetDeleted,
    /// A route link needs an id past its section's index width.
    RouteReferenceOutOfRange,
    /// A checkpoint has no right-side pair.
    MissingCheckpointPair,
    /// A checkpoint's right side does not name it as its left side.
    CheckpointPairNotReciprocal,
    /// A checkpoint's right side has no transform.
    MissingCheckpointRightTransform,
    /// A checkpoint's right side has a non-finite transform.
    NonFiniteCheckpointRight,
    /// A checkpoint has no respawn target.
    MissingRespawnLink,
    /// A checkpoint's respawn target was deleted.
    RespawnTargetDeleted,
    /// A checkpoint's respawn target needs an index past the 8-bit range.
    RespawnOutOfRange,
    /// A key checkpoint's id is outside 1 to 127.
    InvalidKeyId,
    /// A checkpoint right side has no matching left side.
    OrphanedCheckpointRight,
    /// More than one camera is marked as the intro start.
    MultipleIntroCameras,
    /// The intro marker is not on a camera.
    IntroNotCamera,
    /// The intro camera needs an index past the 8-bit range.
    IntroCameraOutOfRange,
    /// A route link was changed whose original route id is outside its section's range.
    RouteLinkOriginalOutOfRange,
    /// A checkpoint's respawn link was removed.
    RespawnLinkRemoved,
    /// A respawn link was changed whose original id is outside the 8-bit range.
    RespawnLinkOriginalOutOfRange,
    /// A changed route link targets an unknown route.
    RouteLinkUnknownTarget,
    /// A changed route link targets a route outside its section's range.
    RouteLinkTargetOutOfRange(u32),
    /// A changed respawn link targets an unknown point.
    RespawnLinkUnknownTarget,
    /// A changed respawn link targets a point outside the 8-bit range.
    RespawnLinkTargetOutOfRange(u32),
    /// A grouped section exports a different number of points than it imported.
    SnapshotCountChanged(SectionName),
    /// Two points of a section that share a source record (overlapping groups)
    /// were edited differently; the row is given.
    ConflictingSharedEdit(SectionName, usize),
    /// The packed encoding's sections are not in offset-table order.
    SectionsOutOfOrder,
    /// The loaded file has no STGI record.
    NoTrackInfo,
    /// The enemy or item section holds more than 255 points.
    TooManyPathPoints,
    /// A point of this section lacks its transform or its order id.
    IncompletePoint(SectionName),
    /// A path point recorded at loading lost its path node.
    PathNodeRemoved,
    /// The merged document could not be encoded.
    EncodingFailed,
}

/// The fixed part of the explanation of refusal `e`: the whole text of a
/// refusal that carries no values.
pub open spec fn fixed_text(e: KmpError) -> Seq<char> {
    match e {
        KmpError::TruncatedHeader => "truncated KMP header"@,
        KmpError::InvalidHeaderLength => "invalid KMP header length"@,
        KmpError::InvalidSectionOffset => "invalid section offset"@,
        KmpError::SectionOutOfBounds => "section payload is out of bounds"@,
        KmpError::LengthChanged => "KMP length changed"@,
        KmpError::SectionLengthsChanged => "KMP section lengths changed"@,
        KmpError::UnsupportedRotation => "unsupported rotation"@,
        KmpError::StructuralEdit => "structural edit"@,
        KmpError::SnapshotStructureMismatch => "snapshot structure mismatch"@,
        KmpError::ObjectStructureMismatch => "object structure mismatch"@,
        KmpError::MissingCurrentField => "missing current field"@,
        KmpError::MissingOriginalField => "missing original field"@,
        KmpError::InvalidFlags => "invalid ITPT flags"@,
        KmpError::SnapshotMismatch => "original KMP snapshot does not match the source bytes"@,
        KmpError::UnsupportedScalar => "unsupported or non-finite scalar"@,
        KmpError::StructuralSectionChanged(name) => match name {
            SectionName::StartPoint => "Structural saving is not supported in patch mode: StartPoint points were added, removed, or reordered. No file was written."@,
            SectionName::EnemyPathPoint => "Structural saving is not supported in patch mode: EnemyPathPoint points were added, removed, or reordered. No file was written."@,
            SectionName::ItemPathPoint => "Structural saving is not supported in patch mode: ItemPathPoint points were added, removed, or reordered. No file was written."@,
            SectionName::Checkpoint => "Structural saving is not supported in patch mode: Checkpoint points were added, removed, or reordered. No file was written."@,
            SectionName::CheckpointRight => "Structural saving is not supported in patch mode: CheckpointRight points were added, removed, or reordered. No file was written."@,
            SectionName::Object => "Structural saving is not supported in patch mode: Object points were added, removed, or reordered. No file was written."@,
            SectionName::RoutePoint => "Structural saving is not supported in patch mode: RoutePoint points were added, removed, or reordered. No file was written."@,
            SectionName::RouteSettings => "Structural saving is not supported in patch mode: RouteSettings points were added, removed, or reordered. No file was written."@,
            SectionName::AreaPoint => "Structural saving is not supported in patch mode: AreaPoint points were added, removed, or reordered. No file was written."@,
            SectionName::KmpCamera => "Structural saving is not supported in patch mode: KmpCamera points were added, removed, or reordered. No file was written."@,
            SectionName::RespawnPoint => "Structural saving is not supported in patch mode: RespawnPoint points were added, removed, or reordered. No file was written."@,
            SectionName::CannonPoint => "Structural saving is not supported in patch mode: CannonPoint points were added, removed, or reordered. No file was written."@,
            SectionName::BattleFinishPoint => "Structural saving is not supported in patch mode: BattleFinishPoint points were added, removed, or reordered. No file was written."@,
        },
        KmpError::StructuralTopologyChanged => "Structural saving is not supported in patch mode: path topology, checkpoint pairing, or overall start changed. No file was written."@,
        KmpError::NoDestination => "No KMP is loaded; open a file before saving"@,
        KmpError::NotKmpExtension => "Save destination must have the .kmp extension"@,
        KmpError::NoDocument => "No lossless document snapshot is available; reopen the KMP"@,
        KmpError::NoSavedVersion => "Active KMP has no saved-byte baseline"@,
        KmpError::MissingGraphComponent => "A path point is missing its graph component"@,
        KmpError::TooManyLinks => "Path point has too many links; routes cannot branch"@,
        KmpError::StaleEdge => "Stale or cross-section path edge; disconnect or relink it"@,
        KmpError::LinkedPointMissingComponent => "Linked point has no graph component"@,
        KmpError::AsymmetricEdge => "Asymmetric path edge; disconnect and relink it"@,
        KmpError::MultipleStarts => "Multiple overall starts in one path section"@,
        KmpError::RouteCycle => "Route cycle detected; disconnect the closing edge and use route loop settings"@,
        KmpError::TooManyGroups => "Too many path groups"@,
        KmpError::GroupStartOutOfRange => "Path group start exceeds the 8-bit range"@,
        KmpError::TooManyGroupLinks => "Path group has more than six links"@,
        KmpError::ByteOverflow => "value out of range for its byte"@,
        KmpError::CheckpointAdjacencyOutOfRange => "CKPT adjacency exceeds the 8-bit index range; split or shorten the checkpoint path"@,
        KmpError::MissingOrderId => "A point is missing OrderId; repair its editor ordering before rebuilding"@,
        KmpError::MissingTransform => "A point is missing its transform"@,
        KmpError::NonFiniteTransform => "A point has a non-finite transform"@,
        KmpError::InvalidRotation => "A point has an invalid rotation quaternion"@,
        KmpError::TooManyPoints => "Too many points for a KMP section"@,
        KmpError::EditedIndexMissing(_, _) => "An edited index does not exist; choose a valid row or 255 for no target"@,
        KmpError::ReferenceOutOfRange(_) => "A reference exceeds the 8-bit index range; relink it"@,
        KmpError::ReferenceUnavailable(_) => "A referenced point was deleted or is unavailable; relink the reference before rebuilding"@,
        KmpError::RouteTargetDeleted => "Route target was deleted; remove or relink the route reference"@,
        KmpError::RouteReferenceOutOfRange => "Route reference exceeds this section's index width; relink it"@,
        KmpError::MissingCheckpointPair => "Checkpoint has no right-side pair"@,
        KmpError::CheckpointPairNotReciprocal => "Checkpoint pair is not reciprocal"@,
        KmpError::MissingCheckpointRightTransform => "Checkpoint right side has no transform"@,
        KmpError::NonFiniteCheckpointRight => "Checkpoint right transform is non-finite"@,
        KmpError::MissingRespawnLink => "Checkpoint has no respawn target; relink it before rebuilding"@,
        KmpError::RespawnTargetDeleted => "Checkpoint respawn target was deleted; relink it before rebuilding"@,
        KmpError::RespawnOutOfRange => "Checkpoint respawn reference exceeds 8 bits; relink it"@,
        KmpError::InvalidKeyId => "Checkpoint key ID must be between 1 and 127"@,
        KmpError::OrphanedCheckpointRight => "Orphaned checkpoint right side; repair the pair before rebuilding"@,
        KmpError::MultipleIntroCameras => "Multiple intro camera starts cannot be rebuilt"@,
        KmpError::IntroNotCamera => "Intro marker is not on a camera"@,
        KmpError::IntroCameraOutOfRange => "Intro camera index exceeds 8 bits"@,
        KmpError::RouteLinkOriginalOutOfRange => "Cannot change a route link whose original ID is outside this section's supported range"@,
        KmpError::RespawnLinkRemoved => "Removing a checkpoint respawn link is not supported by field-only saving"@,
        KmpError::RespawnLinkOriginalOutOfRange => "Cannot change a respawn link whose original ID is outside the supported 8-bit range"@,
        KmpError::RouteLinkUnknownTarget => "Changed route link targets an unknown route"@,
        KmpError::RouteLinkTargetOutOfRange(_) => "Changed route link targets a route outside this section's supported range"@,
        KmpError::RespawnLinkUnknownTarget => "Changed respawn link targets an unknown point"@,
        KmpError::RespawnLinkTargetOutOfRange(_) => "Changed respawn link targets a point outside the supported 8-bit range"@,
        KmpError::SnapshotCountChanged(_) => "snapshot point count changed"@,
        KmpError::ConflictingSharedEdit(_, _) => "Conflicting edits to a shared point; no file was written"@,
        KmpError::SectionsOutOfOrder => "canonical KMP sections are out of table order"@,
        KmpError::NoTrackInfo => "Loaded KMP has no STGI record"@,
        KmpError::TooManyPathPoints => "ENPT and ITPT support at most 255 points"@,
        KmpError::IncompletePoint(_) => "Cannot save: a point is missing its transform or ordering component"@,
        KmpError::PathNodeRemoved => "Structural saving is not supported in patch mode: a path node component was removed"@,
        KmpError::EncodingFailed => "The edited KMP could not be encoded; no file was written"@,
    }
}

impl KmpError {
    fn fixed_message(&self) -> (r: &'static str)
        ensures
            r@ == fixed_text(*self),
    {
        match self {
            KmpError::TruncatedHeader => "truncated KMP header",
            KmpError::InvalidHeaderLength => "invalid KMP header length",
            KmpError::InvalidSectionOffset => "invalid section offset",
            KmpError::SectionOutOfBounds => "section payload is out of bounds",
            KmpError::LengthChanged => "KMP length changed",
            KmpError::SectionLengthsChanged => "KMP section lengths changed",
            KmpError::UnsupportedRotation => "unsupported rotation",
            KmpError::StructuralEdit => "structural edit",
            KmpError::SnapshotStructureMismatch => "snapshot structure mismatch",
            KmpError::ObjectStructureMismatch => "object structure mismatch",
            KmpError::MissingCurrentField => "missing current field",
            KmpError::MissingOriginalField => "missing original field",
            KmpError::InvalidFlags => "invalid ITPT flags",
            KmpError::SnapshotMismatch => "original KMP snapshot does not match the source bytes",
            KmpError::UnsupportedScalar => "unsupported or non-finite scalar",
            KmpError::StructuralSectionChanged(name) => match name {
                SectionName::StartPoint => "Structural saving is not supported in patch mode: StartPoint points were added, removed, or reordered. No file was written.",
                SectionName::EnemyPathPoint => "Structural saving is not supported in patch mode: EnemyPathPoint points were added, removed, or reordered. No file was written.",
                SectionName::ItemPathPoint => "Structural saving is not supported in patch mode: ItemPathPoint points were added, removed, or reordered. No file was written.",
                SectionName::Checkpoint => "Structural saving is not supported in patch mode: Checkpoint points were added, removed, or reordered. No file was written.",
                SectionName::CheckpointRight => "Structural saving is not supported in patch mode: CheckpointRight points were added, removed, or reordered. No file was written.",
                SectionName::Object => "Structural saving is not supported in patch mode: Object points were added, removed, or reordered. No file was written.",
                SectionName::RoutePoint => "Structural saving is not supported in patch mode: RoutePoint points were added, removed, or reordered. No file was written.",
                SectionName::RouteSettings => "Structural saving is not supported in patch mode: RouteSettings points were added, removed, or reordered. No file was written.",
                SectionName::AreaPoint => "Structural saving is not supported in patch mode: AreaPoint points were added, removed, or reordered. No file was written.",
                SectionName::KmpCamera => "Structural saving is not supported in patch mode: KmpCamera points were added, removed, or reordered. No file was written.",
                SectionName::RespawnPoint => "Structural saving is not supported in patch mode: RespawnPoint points were added, removed, or reordered. No file was written.",
                SectionName::CannonPoint => "Structural saving is not supported in patch mode: CannonPoint points were added, removed, or reordered. No file was written.",
                SectionName::BattleFinishPoint => "Structural saving is not supported in patch mode: BattleFinishPoint points were added, removed, or reordered. No file was written.",
            },
            KmpError::StructuralTopologyChanged => "Structural saving is not supported in patch mode: path topology, checkpoint pairing, or overall start changed. No file was written.",
            KmpError::NoDestination => "No KMP is loaded; open a file before saving",
            KmpError::NotKmpExtension => "Save destination must have the .kmp extension",
            KmpError::NoDocument => "No lossless document snapshot is available; reopen the KMP",
            KmpError::NoSavedVersion => "Active KMP has no saved-byte baseline",
            KmpError::MissingGraphComponent => "A path point is missing its graph component",
            KmpError::TooManyLinks => "Path point has too many links; routes cannot branch",
            KmpError::StaleEdge => "Stale or cross-section path edge; disconnect or relink it",
            KmpError::LinkedPointMissingComponent => "Linked point has no graph component",
            KmpError::AsymmetricEdge => "Asymmetric path edge; disconnect and relink it",
            KmpError::MultipleStarts => "Multiple overall starts in one path section",
            KmpError::RouteCycle => "Route cycle detected; disconnect the closing edge and use route loop settings",
            KmpError::TooManyGroups => "Too many path groups",
            KmpError::GroupStartOutOfRange => "Path group start exceeds the 8-bit range",
            KmpError::TooManyGroupLinks => "Path group has more than six links",
            KmpError::ByteOverflow => "value out of range for its byte",
            KmpError::CheckpointAdjacencyOutOfRange => "CKPT adjacency exceeds the 8-bit index range; split or shorten the checkpoint path",
            KmpError::MissingOrderId => "A point is missing OrderId; repair its editor ordering before rebuilding",
            KmpError::MissingTransform => "A point is missing its transform",
            KmpError::NonFiniteTransform => "A point has a non-finite transform",
            KmpError::InvalidRotation => "A point has an invalid rotation quaternion",
            KmpError::TooManyPoints => "Too many points for a KMP section",
            KmpError::EditedIndexMissing(_, _) => "An edited index does not exist; choose a valid row or 255 for no target",
            KmpError::ReferenceOutOfRange(_) => "A reference exceeds the 8-bit index range; relink it",
            KmpError::ReferenceUnavailable(_) => "A referenced point was deleted or is unavailable; relink the reference before rebuilding",
            KmpError::RouteTargetDeleted => "Route target was deleted; remove or relink the route reference",
            KmpError::RouteReferenceOutOfRange => "Route reference exceeds this section's index width; relink it",
            KmpError::MissingCheckpointPair => "Checkpoint has no right-side pair",
            KmpError::CheckpointPairNotReciprocal => "Checkpoint pair is not reciprocal",
            KmpError::MissingCheckpointRightTransform => "Checkpoint right side has no transform",
            KmpError::NonFiniteCheckpointRight => "Checkpoint right transform is non-finite",
            KmpError::MissingRespawnLink => "Checkpoint has no respawn target; relink it before rebuilding",
            KmpError::RespawnTargetDeleted => "Checkpoint respawn target was deleted; relink it before rebuilding",
            KmpError::RespawnOutOfRange => "Checkpoint respawn reference exceeds 8 bits; relink it",
            KmpError::InvalidKeyId => "Checkpoint key ID must be between 1 and 127",
            KmpError::OrphanedCheckpointRight => "Orphaned checkpoint right side; repair the pair before rebuilding",
            KmpError::MultipleIntroCameras => "Multiple intro camera starts cannot be rebuilt",
            KmpError::IntroNotCamera => "Intro marker is not on a camera",
            KmpError::IntroCameraOutOfRange => "Intro camera index exceeds 8 bits",
            KmpError::RouteLinkOriginalOutOfRange => "Cannot change a route link whose original ID is outside this section's supported range",
            KmpError::RespawnLinkRemoved => "Removing a checkpoint respawn link is not supported by field-only saving",
            KmpError::RespawnLinkOriginalOutOfRange => "Cannot change a respawn link whose original ID is outside the supported 8-bit range",
            KmpError::RouteLinkUnknownTarget => "Changed route link targets an unknown route",
            KmpError::RouteLinkTargetOutOfRange(_) => "Changed route link targets a route outside this section's supported range",
            KmpError::RespawnLinkUnknownTarget => "Changed respawn link targets an unknown point",
            KmpError::RespawnLinkTargetOutOfRange(_) => "Changed respawn link targets a point outside the supported 8-bit range",
            KmpError::SnapshotCountChanged(_) => "snapshot point count changed",
            KmpError::ConflictingSharedEdit(_, _) => "Conflicting edits to a shared point; no file was written",
            KmpError::SectionsOutOfOrder => "canonical KMP sections are out of table order",
            KmpError::NoTrackInfo => "Loaded KMP has no STGI record",
            KmpError::TooManyPathPoints => "ENPT and ITPT support at most 255 points",
            KmpError::IncompletePoint(_) => "Cannot save: a point is missing its transform or ordering component",
            KmpError::PathNodeRemoved => "Structural saving is not supported in patch mode: a path node component was removed",
            KmpError::EncodingFailed => "The edited KMP could not be encoded; no file was written",
        }
    }
}


/// The type name of a section's points.
pub open spec fn section_label(s: SectionName) -> Seq<char> {
    match s {
        SectionName::StartPoint => "StartPoint"@,
        SectionName::EnemyPathPoint => "EnemyPathPoint"@,
        SectionName::ItemPathPoint => "ItemPathPoint"@,
        SectionName::Checkpoint => "Checkpoint"@,
        SectionName::CheckpointRight => "CheckpointRight"@,
        SectionName::Object => "Object"@,
        SectionName::RoutePoint => "RoutePoint"@,
        SectionName::RouteSettings => "RouteSettings"@,
        SectionName::AreaPoint => "AreaPoint"@,
        SectionName::KmpCamera => "KmpCamera"@,
        SectionName::RespawnPoint => "RespawnPoint"@,
        SectionName::CannonPoint => "CannonPoint"@,
        SectionName::BattleFinishPoint => "BattleFinishPoint"@,
    }
}

/// The record section a grouped section's points are saved to (the type
/// name for the others).
pub open spec fn record_label(s: SectionName) -> Seq<char> {
    match s {
        SectionName::EnemyPathPoint => "enpt"@,
        SectionName::ItemPathPoint => "itpt"@,
        SectionName::Checkpoint => "ckpt"@,
        _ => section_label(s),
    }
}

/// A decimal digit.
pub open spec fn digit_text(d: nat) -> Seq<char> {
    if d == 0 {
        "0"@
    } else if d == 1 {
        "1"@
    } else if d == 2 {
        "2"@
    } else if d == 3 {
        "3"@
    } else if d == 4 {
        "4"@
    } else if d == 5 {
        "5"@
    } else if d == 6 {
        "6"@
    } else if d == 7 {
        "7"@
    } else if d == 8 {
        "8"@
    } else {
        "9"@
    }
}

/// `n` written in decimal.
pub open spec fn decimal_text(n: nat) -> Seq<char>
    decreases n,
{
    if n < 10 {
        digit_text(n)
    } else {
        decimal_text(n / 10) + digit_text(n % 10)
    }
}

/// The text of the user-facing explanation of refusal `e`, with the section,
/// row, index or id it is about.
pub open spec fn message_text(e: KmpError) -> Seq<char> {
    match e {
        KmpError::StructuralSectionChanged(s) => "Structural saving is not supported in patch mode: "@ + section_label(s)
            + " points were added, removed, or reordered. No file was written."@,
        KmpError::EditedIndexMissing(s, v) => "Edited "@ + section_label(s) + " index "@ + decimal_text(v as nat)
            + " does not exist; choose a valid row or 255 for no target"@,
        KmpError::ReferenceOutOfRange(s) => section_label(s) + " reference exceeds the 8-bit index range; relink it"@,
        KmpError::ReferenceUnavailable(s) => "Referenced "@ + section_label(s)
            + " point was deleted or is unavailable; relink the reference before rebuilding"@,
        KmpError::RouteLinkTargetOutOfRange(id) => "Changed route link targets route "@ + decimal_text(id as nat)
            + ", outside this section's supported range"@,
        KmpError::RespawnLinkTargetOutOfRange(id) => "Changed respawn link targets point "@ + decimal_text(id as nat)
            + ", outside the supported 8-bit range"@,
        KmpError::SnapshotCountChanged(s) => record_label(s) + " snapshot point count changed"@,
        KmpError::ConflictingSharedEdit(s, row) => "Conflicting edits to shared "@ + record_label(s) + " point "@
            + decimal_text(row as nat) + "; no file was written"@,
        KmpError::IncompletePoint(s) => "Cannot save "@ + section_label(s)
            + ": a point is missing its transform or ordering component"@,
        _ => fixed_text(e),
    }
}

fn section_label_str(s: SectionName) -> (r: &'static str)
    ensures
        r@ == section_label(s),
{
    match s {
        SectionName::StartPoint => "StartPoint",
        SectionName::EnemyPathPoint => "EnemyPathPoint",
        SectionName::ItemPathPoint => "ItemPathPoint",
        SectionName::Checkpoint => "Checkpoint",
        SectionName::CheckpointRight => "CheckpointRight",
        SectionName::Object => "Object",
        SectionName::RoutePoint => "RoutePoint",
        SectionName::RouteSettings => "RouteSettings",
        SectionName::AreaPoint => "AreaPoint",
        SectionName::KmpCamera => "KmpCamera",
        SectionName::RespawnPoint => "RespawnPoint",
        SectionName::CannonPoint => "CannonPoint",
        SectionName::BattleFinishPoint => "BattleFinishPoint",
    }
}

fn record_label_str(s: SectionName) -> (r: &'static str)
    ensures
        r@ == record_label(s),
{
    match s {
        SectionName::EnemyPathPoint => "enpt",
        SectionName::ItemPathPoint => "itpt",
        SectionName::Checkpoint => "ckpt",
        _ => section_label_str(s),
    }
}

fn digit_str(d: u64) -> (r: &'static str)
    requires
        d < 10,
    ensures
        r@ == digit_text(d as nat),
{
    if d == 0 {
        "0"
    } else if d == 1 {
        "1"
    } else if d == 2 {
        "2"
    } else if d == 3 {
        "3"
    } else if d == 4 {
        "4"
    } else if d == 5 {
        "5"
    } else if d == 6 {
        "6"
    } else if d == 7 {
        "7"
    } else if d == 8 {
        "8"
    } else {
        "9"
    }
}

/// `n` written in decimal.
pub fn decimal(n: u64) -> (r: String)
    ensures
        r@ == decimal_text(n as nat),
    decreases n,
{
    if n < 10 {
        String::from_str(digit_str(n))
    } else {
        let mut s = decimal(n / 10);
        s.append(digit_str(n % 10));
        s
    }
}

/// `a`, then the label, then `b`.
fn around(a: &str, label: &str, b: &str) -> (r: String)
    ensures
        r@ == a@ + label@ + b@,
{
    let mut m = String::from_str(a);
    m.append(label);
    m.append(b);
    m
}

/// `label`, then `b`.
fn label_then(label: &str, b: &str) -> (r: String)
    ensures
        r@ == label@ + b@,
{
    let mut m = String::from_str(label);
    m.append(b);
    m
}

/// `a`, then `n` in decimal, then `c`.
fn with_number(a: &str, n: u64, c: &str) -> (r: String)
    ensures
        r@ == a@ + decimal_text(n as nat) + c@,
{
    let mut m = String::from_str(a);
    let d = decimal(n);
    m.append(d.as_str());
    m.append(c);
    m
}

/// `a`, then `label`, then `b`, then `n` in decimal, then `c`.
fn around_number(a: &str, label: &str, b: &str, n: u64, c: &str) -> (r: String)
    ensures
        r@ == a@ + label@ + b@ + decimal_text(n as nat) + c@,
{
    let mut m = around(a, label, b);
    let d = decimal(n);
    m.append(d.as_str());
    m.append(c);
    m
}

impl KmpError {
    /// The user-facing explanation of this refusal.
    pub fn message(&self) -> (r: String)
        ensures
            r@ == message_text(*self),
    {
        match *self {
            KmpError::StructuralSectionChanged(s) => around(
                "Structural saving is not supported in patch mode: ",
                section_label_str(s),
                " points were added, removed, or reordered. No file was written.",
            ),
            KmpError::EditedIndexMissing(s, v) => around_number(
                "Edited ",
                section_label_str(s),
                " index ",
                v as u64,
                " does not exist; choose a valid row or 255 for no target",
            ),
            KmpError::ReferenceOutOfRange(s) => label_then(section_label_str(s), " reference exceeds the 8-bit index range; relink it"),
            KmpError::ReferenceUnavailable(s) => around(
                "Referenced ",
                section_label_str(s),
                " point was deleted or is unavailable; relink the reference before rebuilding",
            ),
            KmpError::RouteLinkTargetOutOfRange(id) => with_number(
                "Changed route link targets route ",
                id as u64,
                ", outside this section's supported range",
            ),
            KmpError::RespawnLinkTargetOutOfRange(id) => with_number(
                "Changed respawn link targets point ",
                id as u64,
                ", outside the supported 8-bit range",
            ),
            KmpError::SnapshotCountChanged(s) => label_then(record_label_str(s), " snapshot point count changed"),
            KmpError::ConflictingSharedEdit(s, row) => around_number(
                "Conflicting edits to shared ",
                record_label_str(s),
                " point ",
                row as u64,
                "; no file was written",
            ),
            KmpError::IncompletePoint(s) => around(
                "Cannot save ",
                section_label_str(s),
                ": a point is missing its transform or ordering component",
            ),
            _ => String::from_str(self.fixed_message()),
        }
    }
}

} // verus!
