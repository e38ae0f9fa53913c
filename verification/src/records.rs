//! Integer encodings of KMP record fields: the editor's typed settings and
//! the raw values the file stores for them, in both directions.
use vstd::prelude::*;

verus! {

/// What a checkpoint does: an ordinary checkpoint, a key checkpoint with its
/// id, or the lap-count line.
#[derive(Debug, Clone, Copy, PartialEq, Eq, Structural)]
pub enum CheckpointKind {
    Normal,
    Key(u8),
    LapCount,
}

/// The checkpoint kind a raw CKPT type byte stands for: -1 ordinary, 0 the
/// lap count, 1 to 127 a key id; anything else is invalid.
pub open spec fn kind_of_cp_type(t: i8) -> Option<CheckpointKind> {
    if t == -1 {
        Some(CheckpointKind::Normal)
    } else if t == 0 {
        Some(CheckpointKind::LapCount)
    } else if 1 <= t <= 127 {
        Some(CheckpointKind::Key(t as u8))
    } else {
        None
    }
}

/// The raw CKPT type byte of a kind (a key id above 127 wraps to a negative byte).
pub open spec fn cp_type_of(k: CheckpointKind) -> i8 {
    match k {
        CheckpointKind::Normal => -1i8,
        CheckpointKind::LapCount => 0i8,
        CheckpointKind::Key(id) => if id <= 127 {
            id as i8
        } else {
            (id - 256) as i8
        },
    }
}

impl CheckpointKind {
    pub fn from_cp_type(cp_type: i8) -> (r: Option<CheckpointKind>)
        ensures
            r == kind_of_cp_type(cp_type),
    {
        if cp_type == -1 {
            Some(CheckpointKind::Normal)
        } else if cp_type == 0 {
            Some(CheckpointKind::LapCount)
        } else if 1 <= cp_type {
            Some(CheckpointKind::Key(cp_type as u8))
        } else {
            None
        }
    }

    pub fn cp_type(&self) -> (r: i8)
        ensures
            r == cp_type_of(*self),
    {
        match self {
            CheckpointKind::Normal => -1,
            CheckpointKind::LapCount => 0,
            CheckpointKind::Key(id) => {
                if *id <= 127 {
                    *id as i8
                } else {
                    (*id as i16 - 256) as i8
                }
            },
        }
    }
}

/// Every valid CKPT type byte decodes to a kind that encodes back to it,
/// and every kind with a key id of at most 127 survives encoding.
pub proof fn lemma_cp_type_round_trip(t: i8, k: CheckpointKind)
    ensures
        kind_of_cp_type(t) matches Some(d) ==> cp_type_of(d) == t,
        (k matches CheckpointKind::Key(id) ==> 1 <= id <= 127) ==> kind_of_cp_type(cp_type_of(k)) == Some(k),
{
}

/// Enemy path setting 1: what CPU drivers do with mushrooms and wheelies.
#[derive(Debug, Clone, Copy, PartialEq, Eq, Structural)]
pub enum EnemyPathSetting1 {
    NoSetting,
    RequiresMushroom,
    UseMushroom,
    Wheelie,
    EndWheelie,
}

/// Enemy path setting 2: how CPU drivers drift.
#[derive(Debug, Clone, Copy, PartialEq, Eq, Structural)]
pub enum EnemyPathSetting2 {
    NoSetting,
    EndDrift,
    ForbidDrift,
    ForceDrift,
}

pub open spec fn enemy_setting_1_of(raw: u16) -> Option<EnemyPathSetting1> {
    if raw == 0 {
        Some(EnemyPathSetting1::NoSetting)
    } else if raw == 1 {
        Some(EnemyPathSetting1::RequiresMushroom)
    } else if raw == 2 {
        Some(EnemyPathSetting1::UseMushroom)
    } else if raw == 3 {
        Some(EnemyPathSetting1::Wheelie)
    } else if raw == 4 {
        Some(EnemyPathSetting1::EndWheelie)
    } else {
        None
    }
}

pub open spec fn enemy_setting_1_raw(s: EnemyPathSetting1) -> u16 {
    match s {
        EnemyPathSetting1::NoSetting => 0,
        EnemyPathSetting1::RequiresMushroom => 1,
        EnemyPathSetting1::UseMushroom => 2,
        EnemyPathSetting1::Wheelie => 3,
        EnemyPathSetting1::EndWheelie => 4,
    }
}

pub open spec fn enemy_setting_2_of(raw: u8) -> Option<EnemyPathSetting2> {
    if raw == 0 {
        Some(EnemyPathSetting2::NoSetting)
    } else if raw == 1 {
        Some(EnemyPathSetting2::EndDrift)
    } else if raw == 2 {
        Some(EnemyPathSetting2::ForbidDrift)
    } else if raw == 3 {
        Some(EnemyPathSetting2::ForceDrift)
    } else {
        None
    }
}

pub open spec fn enemy_setting_2_raw(s: EnemyPathSetting2) -> u8 {
    match s {
        EnemyPathSetting2::NoSetting => 0,
        EnemyPathSetting2::EndDrift => 1,
        EnemyPathSetting2::ForbidDrift => 2,
        EnemyPathSetting2::ForceDrift => 3,
    }
}

impl EnemyPathSetting1 {
    /// The setting a raw ENPT setting-1 word stands for, if any.
    pub fn from_raw(raw: u16) -> (r: Option<EnemyPathSetting1>)
        ensures
            r == enemy_setting_1_of(raw),
    {
        match raw {
            0 => Some(EnemyPathSetting1::NoSetting),
            1 => Some(EnemyPathSetting1::RequiresMushroom),
            2 => Some(EnemyPathSetting1::UseMushroom),
            3 => Some(EnemyPathSetting1::Wheelie),
            4 => Some(EnemyPathSetting1::EndWheelie),
            _ => None,
        }
    }

    /// The raw ENPT setting-1 word.
    pub fn raw(&self) -> (r: u16)
        ensures
            r == enemy_setting_1_raw(*self),
    {
        match self {
            EnemyPathSetting1::NoSetting => 0,
            EnemyPathSetting1::RequiresMushroom => 1,
            EnemyPathSetting1::UseMushroom => 2,
            EnemyPathSetting1::Wheelie => 3,
            EnemyPathSetting1::EndWheelie => 4,
        }
    }
}

impl EnemyPathSetting2 {
    /// The setting a raw ENPT setting-2 byte stands for, if any.
    pub fn from_raw(raw: u8) -> (r: Option<EnemyPathSetting2>)
        ensures
            r == enemy_setting_2_of(raw),
    {
        match raw {
            0 => Some(EnemyPathSetting2::NoSetting),
            1 => Some(EnemyPathSetting2::EndDrift),
            2 => Some(EnemyPathSetting2::ForbidDrift),
            3 => Some(EnemyPathSetting2::ForceDrift),
            _ => None,
        }
    }

    /// The raw ENPT setting-2 byte.
    pub fn raw(&self) -> (r: u8)
        ensures
            r == enemy_setting_2_raw(*self),
    {
        match self {
            EnemyPathSetting2::NoSetting => 0,
            EnemyPathSetting2::EndDrift => 1,
            EnemyPathSetting2::ForbidDrift => 2,
            EnemyPathSetting2::ForceDrift => 3,
        }
    }
}

/// Enemy settings survive encoding, and valid raw values survive decoding.
pub proof fn lemma_enemy_settings_round_trip(a: EnemyPathSetting1, b: EnemyPathSetting2, r1: u16, r2: u8)
    ensures
        enemy_setting_1_of(enemy_setting_1_raw(a)) == Some(a),
        enemy_setting_2_of(enemy_setting_2_raw(b)) == Some(b),
        enemy_setting_1_of(r1) matches Some(d) ==> enemy_setting_1_raw(d) == r1,
        enemy_setting_2_of(r2) matches Some(d) ==> enemy_setting_2_raw(d) == r2,
{
}

/// How shells follow an item path point's height.
#[derive(Debug, Clone, Copy, PartialEq, Eq, Structural)]
pub enum ItemPathBulletHeight {
    Auto,
    IgnorePointHeight,
    FollowPointHeight,
    MushroomPads,
}

pub open spec fn bullet_height_of(raw: u16) -> Option<ItemPathBulletHeight> {
    if raw == 0 {
        Some(ItemPathBulletHeight::IgnorePointHeight)
    } else if raw == 1 {
        Some(ItemPathBulletHeight::Auto)
    } else if raw == 2 {
        Some(ItemPathBulletHeight::FollowPointHeight)
    } else if raw == 3 {
        Some(ItemPathBulletHeight::MushroomPads)
    } else {
        None
    }
}

pub open spec fn bullet_height_raw(h: ItemPathBulletHeight) -> u16 {
    match h {
        ItemPathBulletHeight::IgnorePointHeight => 0,
        ItemPathBulletHeight::Auto => 1,
        ItemPathBulletHeight::FollowPointHeight => 2,
        ItemPathBulletHeight::MushroomPads => 3,
    }
}

impl ItemPathBulletHeight {
    /// The height mode a raw ITPT setting-1 word stands for, if any.
    pub fn from_raw(raw: u16) -> (r: Option<ItemPathBulletHeight>)
        ensures
            r == bullet_height_of(raw),
    {
        match raw {
            0 => Some(ItemPathBulletHeight::IgnorePointHeight),
            1 => Some(ItemPathBulletHeight::Auto),
            2 => Some(ItemPathBulletHeight::FollowPointHeight),
            3 => Some(ItemPathBulletHeight::MushroomPads),
            _ => None,
        }
    }

    /// The raw ITPT setting-1 word.
    pub fn raw(&self) -> (r: u16)
        ensures
            r == bullet_height_raw(*self),
    {
        match self {
            ItemPathBulletHeight::IgnorePointHeight => 0,
            ItemPathBulletHeight::Auto => 1,
            ItemPathBulletHeight::FollowPointHeight => 2,
            ItemPathBulletHeight::MushroomPads => 3,
        }
    }
}

/// The two item path flags of ITPT setting 2: bit 0 (shells cannot drop)
/// and bit 1 (low shell priority); other bits are not read.
pub fn decode_item_flags(setting_2: u16) -> (r: (bool, bool))
    ensures
        r.0 == (setting_2 & 1 != 0),
        r.1 == (setting_2 & 2 != 0),
{
    (setting_2 & 1 != 0, setting_2 & 2 != 0)
}

/// ITPT setting 2 for the two item path flags, with no other bit set.
pub fn encode_item_flags(bullet_cant_drop: bool, low_shell_priority: bool) -> (r: u16)
    ensures
        r == (if bullet_cant_drop { 1u16 } else { 0u16 }) + (if low_shell_priority { 2u16 } else { 0u16 }),
{
    match (bullet_cant_drop, low_shell_priority) {
        (true, true) => 3,
        (true, false) => 1,
        (false, true) => 2,
        (false, false) => 0,
    }
}

/// Item heights and flags survive encoding; decoding reads the flags apart
/// from every other bit.
pub proof fn lemma_item_settings_round_trip(h: ItemPathBulletHeight, raw: u16, a: bool, b: bool, other: u16)
    ensures
        bullet_height_of(bullet_height_raw(h)) == Some(h),
        bullet_height_of(raw) matches Some(d) ==> bullet_height_raw(d) == raw,
        ({
            let word = ((if a { 1u16 } else { 0u16 }) + (if b { 2u16 } else { 0u16 })) as u16 | (other & 0xfffc);
            &&& (word & 1 != 0) == a
            &&& (word & 2 != 0) == b
        }),
{
    let f: u16 = ((if a { 1u16 } else { 0u16 }) + (if b { 2u16 } else { 0u16 })) as u16;
    assert(f == 0 || f == 1 || f == 2 || f == 3);
    assert(f <= 3 ==> ((f | (other & 0xfffc)) & 1 == f & 1) && ((f | (other & 0xfffc)) & 2 == f & 2)) by (bit_vector);
    assert(f == 0 ==> f & 1 == 0 && f & 2 == 0) by (bit_vector);
    assert(f == 1 ==> f & 1 != 0 && f & 2 == 0) by (bit_vector);
    assert(f == 2 ==> f & 1 == 0 && f & 2 != 0) by (bit_vector);
    assert(f == 3 ==> f & 1 != 0 && f & 2 != 0) by (bit_vector);
}

/// How a route loops.
#[derive(Debug, Clone, Copy, PartialEq, Eq, Structural)]
pub enum RouteLoopStyle {
    Cyclic,
    Mirror,
}

/// The settings of a route (POTI record).
#[derive(Debug, Clone, Copy, PartialEq, Eq, Structural)]
pub struct RouteSettings {
    pub smooth_motion: bool,
    pub loop_style: RouteLoopStyle,
}

impl Default for RouteSettings {
    /// The settings of a new route: no smoothing, cyclic.
    fn default() -> (r: RouteSettings)
        ensures
            r == (RouteSettings { smooth_motion: false, loop_style: RouteLoopStyle::Cyclic }),
    {
        RouteSettings { smooth_motion: false, loop_style: RouteLoopStyle::Cyclic }
    }
}

impl RouteSettings {
    /// Decode POTI settings 1 and 2; an invalid byte reads as its default
    /// (no smoothing, cyclic) and is reported by the second result.
    pub fn from_raw(setting_1: u8, setting_2: u8) -> (r: (RouteSettings, bool))
        ensures
            r.0.smooth_motion == (setting_1 == 1),
            r.0.loop_style == (if setting_2 == 1 {
                RouteLoopStyle::Mirror
            } else {
                RouteLoopStyle::Cyclic
            }),
            r.1 == (setting_1 <= 1 && setting_2 <= 1),
    {
        let smooth_motion = setting_1 == 1;
        let loop_style = if setting_2 == 1 {
            RouteLoopStyle::Mirror
        } else {
            RouteLoopStyle::Cyclic
        };
        (RouteSettings { smooth_motion, loop_style }, setting_1 <= 1 && setting_2 <= 1)
    }

    /// POTI settings 1 and 2.
    pub fn raw(&self) -> (r: (u8, u8))
        ensures
            r.0 == (if self.smooth_motion { 1u8 } else { 0u8 }),
            r.1 == (if self.loop_style == RouteLoopStyle::Mirror { 1u8 } else { 0u8 }),
    {
        (
            if self.smooth_motion {
                1
            } else {
                0
            },
            match self.loop_style {
                RouteLoopStyle::Cyclic => 0,
                RouteLoopStyle::Mirror => 1,
            },
        )
    }
}

/// The shape of an area.
#[derive(Debug, Clone, Copy, PartialEq, Eq, Structural)]
pub enum AreaShape {
    Box,
    Cylinder,
}

/// The object an environment-effect area shows.
#[derive(Debug, Clone, Copy, PartialEq, Eq, Structural)]
pub enum AreaEnvEffectObject {
    EnvKareha,
    EnvKarehaUp,
}

/// What an area does, with the settings that its type uses.
#[derive(Debug, Clone, Copy, PartialEq, Eq, Structural)]
pub enum AreaKind {
    Camera { cam_index: u8 },
    EnvEffect(AreaEnvEffectObject),
    FogEffect { bfg_entry: u16, setting_2: u16 },
    MovingRoad,
    ForceRecalc { enemy_path_id: u8 },
    MinimapControl { setting_1: u16, setting_2: u16 },
    BloomEffect { bblm_file: u16, fade_time: u16 },
    EnableBoos,
    ObjectGroup { group_id: u16 },
    ObjectUnload { group_id: u16 },
    FallBoundary,
}

/// The raw AREA fields that carry an area's type and settings.
#[derive(Debug, Clone, Copy, PartialEq, Eq, Structural)]
pub struct AreaFields {
    pub kind: u8,
    pub came_index: u8,
    pub setting_1: u16,
    pub setting_2: u16,
    pub route: u8,
    pub enpt_id: u8,
}

/// The area kind raw AREA fields stand for: types 0 to 10, each reading the
/// fields it uses (an invalid environment object reads as the first one);
/// another type reads as a camera area with index 0.
pub open spec fn area_kind_of(f: AreaFields) -> AreaKind {
    if f.kind == 0 {
        AreaKind::Camera { cam_index: f.came_index }
    } else if f.kind == 1 {
        AreaKind::EnvEffect(
            if f.setting_1 == 1 {
                AreaEnvEffectObject::EnvKarehaUp
            } else {
                AreaEnvEffectObject::EnvKareha
            },
        )
    } else if f.kind == 2 {
        AreaKind::FogEffect { bfg_entry: f.setting_1, setting_2: f.setting_2 }
    } else if f.kind == 3 {
        AreaKind::MovingRoad
    } else if f.kind == 4 {
        AreaKind::ForceRecalc { enemy_path_id: f.enpt_id }
    } else if f.kind == 5 {
        AreaKind::MinimapControl { setting_1: f.setting_1, setting_2: f.setting_2 }
    } else if f.kind == 6 {
        AreaKind::BloomEffect { bblm_file: f.setting_1, fade_time: f.setting_2 }
    } else if f.kind == 7 {
        AreaKind::EnableBoos
    } else if f.kind == 8 {
        AreaKind::ObjectGroup { group_id: f.setting_1 }
    } else if f.kind == 9 {
        AreaKind::ObjectUnload { group_id: f.setting_1 }
    } else if f.kind == 10 {
        AreaKind::FallBoundary
    } else {
        AreaKind::Camera { cam_index: 0 }
    }
}

/// The raw fields are understood as they are: a known type, and for an
/// environment-effect area a known object.
pub open spec fn area_fields_valid(f: AreaFields) -> bool {
    f.kind <= 10 && (f.kind == 1 ==> f.setting_1 <= 1)
}

/// The raw AREA fields of an area kind; fields the kind does not use are 0,
/// except the camera index (255). A moving road stores the low byte of its
/// route id.
pub open spec fn area_fields_of(k: AreaKind, route: u16) -> AreaFields {
    let base = AreaFields { kind: 0, came_index: 255, setting_1: 0, setting_2: 0, route: 0, enpt_id: 0 };
    match k {
        AreaKind::Camera { cam_index } => AreaFields { came_index: cam_index, ..base },
        AreaKind::EnvEffect(o) => AreaFields {
            kind: 1,
            setting_1: if o == AreaEnvEffectObject::EnvKarehaUp {
                1
            } else {
                0
            },
            ..base
        },
        AreaKind::FogEffect { bfg_entry, setting_2 } => AreaFields {
            kind: 2,
            setting_1: bfg_entry,
            setting_2: setting_2,
            ..base
        },
        AreaKind::MovingRoad => AreaFields { kind: 3, route: (route % 256) as u8, ..base },
        AreaKind::ForceRecalc { enemy_path_id } => AreaFields { kind: 4, enpt_id: enemy_path_id, ..base },
        AreaKind::MinimapControl { setting_1, setting_2 } => AreaFields {
            kind: 5,
            setting_1: setting_1,
            setting_2: setting_2,
            ..base
        },
        AreaKind::BloomEffect { bblm_file, fade_time } => AreaFields {
            kind: 6,
            setting_1: bblm_file,
            setting_2: fade_time,
            ..base
        },
        AreaKind::EnableBoos => AreaFields { kind: 7, ..base },
        AreaKind::ObjectGroup { group_id } => AreaFields { kind: 8, setting_1: group_id, ..base },
        AreaKind::ObjectUnload { group_id } => AreaFields { kind: 9, setting_1: group_id, ..base },
        AreaKind::FallBoundary => AreaFields { kind: 10, ..base },
    }
}

impl AreaKind {
    /// Decode the area kind from raw AREA fields; the second result says
    /// whether the fields were valid (see `area_fields_valid`).
    pub fn from_raw(f: AreaFields) -> (r: (AreaKind, bool))
        ensures
            r.0 == area_kind_of(f),
            r.1 == area_fields_valid(f),
    {
        let valid = f.kind <= 10 && (f.kind != 1 || f.setting_1 <= 1);
        let kind = match f.kind {
            0 => AreaKind::Camera { cam_index: f.came_index },
            1 => AreaKind::EnvEffect(
                if f.setting_1 == 1 {
                    AreaEnvEffectObject::EnvKarehaUp
                } else {
                    AreaEnvEffectObject::EnvKareha
                },
            ),
            2 => AreaKind::FogEffect { bfg_entry: f.setting_1, setting_2: f.setting_2 },
            3 => AreaKind::MovingRoad,
            4 => AreaKind::ForceRecalc { enemy_path_id: f.enpt_id },
            5 => AreaKind::MinimapControl { setting_1: f.setting_1, setting_2: f.setting_2 },
            6 => AreaKind::BloomEffect { bblm_file: f.setting_1, fade_time: f.setting_2 },
            7 => AreaKind::EnableBoos,
            8 => AreaKind::ObjectGroup { group_id: f.setting_1 },
            9 => AreaKind::ObjectUnload { group_id: f.setting_1 },
            10 => AreaKind::FallBoundary,
            _ => AreaKind::Camera { cam_index: 0 },
        };
        (kind, valid)
    }

    /// Encode the area kind into raw AREA fields; `route` is the id of the
    /// route a moving road follows (0xffff for none).
    pub fn to_raw(&self, route: u16) -> (r: AreaFields)
        ensures
            r == area_fields_of(*self, route),
    {
        let base = AreaFields { kind: 0, came_index: 255, setting_1: 0, setting_2: 0, route: 0, enpt_id: 0 };
        match *self {
            AreaKind::Camera { cam_index } => AreaFields { came_index: cam_index, ..base },
            AreaKind::EnvEffect(o) => AreaFields {
                kind: 1,
                setting_1: match o {
                    AreaEnvEffectObject::EnvKareha => 0,
                    AreaEnvEffectObject::EnvKarehaUp => 1,
                },
                ..base
            },
            AreaKind::FogEffect { bfg_entry, setting_2 } => AreaFields {
                kind: 2,
                setting_1: bfg_entry,
                setting_2: setting_2,
                ..base
            },
            AreaKind::MovingRoad => AreaFields { kind: 3, route: (route % 256) as u8, ..base },
            AreaKind::ForceRecalc { enemy_path_id } => AreaFields { kind: 4, enpt_id: enemy_path_id, ..base },
            AreaKind::MinimapControl { setting_1, setting_2 } => AreaFields {
                kind: 5,
                setting_1: setting_1,
                setting_2: setting_2,
                ..base
            },
            AreaKind::BloomEffect { bblm_file, fade_time } => AreaFields {
                kind: 6,
                setting_1: bblm_file,
                setting_2: fade_time,
                ..base
            },
            AreaKind::EnableBoos => AreaFields { kind: 7, ..base },
            AreaKind::ObjectGroup { group_id } => AreaFields { kind: 8, setting_1: group_id, ..base },
            AreaKind::ObjectUnload { group_id } => AreaFields { kind: 9, setting_1: group_id, ..base },
            AreaKind::FallBoundary => AreaFields { kind: 10, ..base },
        }
    }
}

/// Every area kind survives encoding and decoding, and its encoding is valid.
pub proof fn lemma_area_kind_round_trip(k: AreaKind, route: u16)
    ensures
        area_kind_of(area_fields_of(k, route)) == k,
        area_fields_valid(area_fields_of(k, route)),
{
}

/// The shape of an area from its raw byte (0 box, 1 cylinder); another
/// value reads as a box and is reported by the second result.
pub fn area_shape_from_raw(raw: u8) -> (r: (AreaShape, bool))
    ensures
        r.0 == (if raw == 1 {
            AreaShape::Cylinder
        } else {
            AreaShape::Box
        }),
        r.1 == (raw <= 1),
{
    (
        if raw == 1 {
            AreaShape::Cylinder
        } else {
            AreaShape::Box
        },
        raw <= 1,
    )
}

/// The raw byte of an area shape.
pub fn area_shape_raw(s: AreaShape) -> (r: u8)
    ensures
        r == (if s == AreaShape::Cylinder {
            1u8
        } else {
            0u8
        }),
{
    match s {
        AreaShape::Box => 0,
        AreaShape::Cylinder => 1,
    }
}

/// The kind of a camera.
#[derive(Debug, Clone, Copy, PartialEq, Eq, Structural)]
pub enum KmpCameraKind {
    Goal,
    FixSearch,
    PathSearch,
    KartFollow,
    KartPathFollow,
    OpFixMoveAt,
    OpPathMoveAt,
    MiniGame,
    MissionSuccess,
    Unknown,
}

pub open spec fn camera_kind_raw(k: KmpCameraKind) -> u8 {
    match k {
        KmpCameraKind::Goal => 0,
        KmpCameraKind::FixSearch => 1,
        KmpCameraKind::PathSearch => 2,
        KmpCameraKind::KartFollow => 3,
        KmpCameraKind::KartPathFollow => 4,
        KmpCameraKind::OpFixMoveAt => 5,
        KmpCameraKind::OpPathMoveAt => 6,
        KmpCameraKind::MiniGame => 7,
        KmpCameraKind::MissionSuccess => 8,
        KmpCameraKind::Unknown => 9,
    }
}

impl KmpCameraKind {
    /// The camera kind a raw CAME type byte stands for (0 to 9), if any.
    pub fn from_raw(raw: u8) -> (r: Option<KmpCameraKind>)
        ensures
            r matches Some(k) ==> camera_kind_raw(k) == raw,
            r is None <==> raw > 9,
    {
        match raw {
            0 => Some(KmpCameraKind::Goal),
            1 => Some(KmpCameraKind::FixSearch),
            2 => Some(KmpCameraKind::PathSearch),
            3 => Some(KmpCameraKind::KartFollow),
            4 => Some(KmpCameraKind::KartPathFollow),
            5 => Some(KmpCameraKind::OpFixMoveAt),
            6 => Some(KmpCameraKind::OpPathMoveAt),
            7 => Some(KmpCameraKind::MiniGame),
            8 => Some(KmpCameraKind::MissionSuccess),
            9 => Some(KmpCameraKind::Unknown),
            _ => None,
        }
    }

    /// The raw CAME type byte.
    pub fn raw(&self) -> (r: u8)
        ensures
            r == camera_kind_raw(*self),
    {
        match self {
            KmpCameraKind::Goal => 0,
            KmpCameraKind::FixSearch => 1,
            KmpCameraKind::PathSearch => 2,
            KmpCameraKind::KartFollow => 3,
            KmpCameraKind::KartPathFollow => 4,
            KmpCameraKind::OpFixMoveAt => 5,
            KmpCameraKind::OpPathMoveAt => 6,
            KmpCameraKind::MiniGame => 7,
            KmpCameraKind::MissionSuccess => 8,
            KmpCameraKind::Unknown => 9,
        }
    }
}

/// Camera kinds have distinct raw bytes.
pub proof fn lemma_camera_kind_injective(a: KmpCameraKind, b: KmpCameraKind)
    ensures
        camera_kind_raw(a) == camera_kind_raw(b) ==> a == b,
        camera_kind_raw(a) <= 9,
{
}

/// How a cannon shoots.
#[derive(Debug, Clone, Copy, PartialEq, Eq, Structural)]
pub enum CannonShootEffect {
    Straight,
    Curved,
    CurvedSlow,
}

impl CannonShootEffect {
    /// The effect a raw CNPT effect word stands for (0 to 2), if any.
    pub fn from_raw(raw: i16) -> (r: Option<CannonShootEffect>)
        ensures
            r == (if raw == 0 {
                Some(CannonShootEffect::Straight)
            } else if raw == 1 {
                Some(CannonShootEffect::Curved)
            } else if raw == 2 {
                Some(CannonShootEffect::CurvedSlow)
            } else {
                None
            }),
    {
        match raw {
            0 => Some(CannonShootEffect::Straight),
            1 => Some(CannonShootEffect::Curved),
            2 => Some(CannonShootEffect::CurvedSlow),
            _ => None,
        }
    }

    /// The raw CNPT effect word.
    pub fn raw(&self) -> (r: i16)
        ensures
            r == match *self {
                CannonShootEffect::Straight => 0i16,
                CannonShootEffect::Curved => 1i16,
                CannonShootEffect::CurvedSlow => 2i16,
            },
    {
        match self {
            CannonShootEffect::Straight => 0,
            CannonShootEffect::Curved => 1,
            CannonShootEffect::CurvedSlow => 2,
        }
    }
}

/// On which side the first player starts.
#[derive(Debug, Clone, Copy, PartialEq, Eq, Structural)]
pub enum FirstPlayerPos {
    Left,
    Right,
}

impl FirstPlayerPos {
    /// The side a raw STGI pole-position byte stands for (0 left, 1 right), if any.
    pub fn from_pole_pos(raw: u8) -> (r: Option<FirstPlayerPos>)
        ensures
            r == (if raw == 0 {
                Some(FirstPlayerPos::Left)
            } else if raw == 1 {
                Some(FirstPlayerPos::Right)
            } else {
                None
            }),
    {
        match raw {
            0 => Some(FirstPlayerPos::Left),
            1 => Some(FirstPlayerPos::Right),
            _ => None,
        }
    }

    /// The raw STGI pole-position byte.
    pub fn pole_pos(&self) -> (r: u8)
        ensures
            r == (if *self == FirstPlayerPos::Right {
                1u8
            } else {
                0u8
            }),
    {
        match self {
            FirstPlayerPos::Left => 0,
            FirstPlayerPos::Right => 1,
        }
    }
}

} // verus!
