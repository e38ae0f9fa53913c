use kmpeek::records::{
    area_shape_from_raw, area_shape_raw, decode_item_flags, encode_item_flags, AreaEnvEffectObject, AreaFields, AreaKind,
    AreaShape, CannonShootEffect, CheckpointKind, EnemyPathSetting1, EnemyPathSetting2, FirstPlayerPos, ItemPathBulletHeight,
    KmpCameraKind, RouteLoopStyle, RouteSettings,
};

#[test]
fn checkpoint_type_raw_values_round_trip() {
    for cp_type in -1..=127i8 {
        let kind = CheckpointKind::from_cp_type(cp_type).unwrap();
        assert_eq!(kind.cp_type(), cp_type);
    }
    assert!(CheckpointKind::from_cp_type(-2).is_none());
    assert!(CheckpointKind::from_cp_type(i8::MIN).is_none());
    assert_eq!(CheckpointKind::from_cp_type(5), Some(CheckpointKind::Key(5)));
    assert_eq!(CheckpointKind::Key(200).cp_type(), -56);
}

#[test]
fn item_path_height_encoding_matches_kmp_values() {
    for (setting_1, bullet_height) in [
        (0, ItemPathBulletHeight::IgnorePointHeight),
        (1, ItemPathBulletHeight::Auto),
        (2, ItemPathBulletHeight::FollowPointHeight),
        (3, ItemPathBulletHeight::MushroomPads),
    ] {
        let decoded = ItemPathBulletHeight::from_raw(setting_1).unwrap();
        assert_eq!(decoded, bullet_height);
        assert_eq!(decoded.raw(), setting_1);
    }
    assert!(ItemPathBulletHeight::from_raw(4).is_none());
}

#[test]
fn item_path_flags_decode_independently_of_height_and_unknown_bits() {
    for unknown_bits in [0u16, 4, 0x8000, 0xfffc] {
        for flags in 0..=3u16 {
            let (cant_drop, low_priority) = decode_item_flags(unknown_bits | flags);
            assert_eq!(cant_drop, flags & 1 != 0);
            assert_eq!(low_priority, flags & 2 != 0);
            // unsupported bits belong to the preservation layer
            assert_eq!(encode_item_flags(cant_drop, low_priority), flags);
        }
    }
}

#[test]
fn object_unload_group_uses_setting_one_in_both_directions() {
    for group_id in [0u16, 1, 255, u16::MAX] {
        let raw = AreaFields { kind: 9, came_index: 0, setting_1: group_id, setting_2: group_id ^ u16::MAX, route: 0, enpt_id: 0 };
        let (kind, valid) = AreaKind::from_raw(raw);
        assert!(valid);
        assert_eq!(kind, AreaKind::ObjectUnload { group_id });
        let encoded = kind.to_raw(0xffff);
        assert_eq!(encoded.kind, 9);
        assert_eq!(encoded.setting_1, group_id);
        assert_eq!(encoded.setting_2, 0);
        assert_eq!(AreaKind::from_raw(encoded).0, kind);
    }
}

#[test]
fn area_kinds_decode_their_own_fields_and_flag_invalid_values() {
    let base = AreaFields { kind: 0, came_index: 7, setting_1: 3, setting_2: 4, route: 0, enpt_id: 9 };
    assert_eq!(AreaKind::from_raw(base), (AreaKind::Camera { cam_index: 7 }, true));
    assert_eq!(AreaKind::from_raw(AreaFields { kind: 4, ..base }), (AreaKind::ForceRecalc { enemy_path_id: 9 }, true));
    assert_eq!(
        AreaKind::from_raw(AreaFields { kind: 1, setting_1: 1, ..base }),
        (AreaKind::EnvEffect(AreaEnvEffectObject::EnvKarehaUp), true)
    );
    assert_eq!(
        AreaKind::from_raw(AreaFields { kind: 1, setting_1: 5, ..base }),
        (AreaKind::EnvEffect(AreaEnvEffectObject::EnvKareha), false)
    );
    assert_eq!(AreaKind::from_raw(AreaFields { kind: 11, ..base }), (AreaKind::Camera { cam_index: 0 }, false));
    let camera = AreaKind::Camera { cam_index: 3 }.to_raw(0);
    assert_eq!((camera.kind, camera.came_index, camera.setting_1), (0, 3, 0));
    let other = AreaKind::FallBoundary.to_raw(0);
    assert_eq!((other.kind, other.came_index), (10, 255));
    // a moving road keeps the low byte of its route id
    assert_eq!(AreaKind::MovingRoad.to_raw(0x1234).route, 0x34);
    assert_eq!(AreaKind::MovingRoad.to_raw(0xffff).route, 0xff);
    assert_eq!(area_shape_from_raw(1), (AreaShape::Cylinder, true));
    assert_eq!(area_shape_from_raw(2), (AreaShape::Box, false));
    assert_eq!(area_shape_raw(AreaShape::Cylinder), 1);
}

#[test]
fn enemy_route_camera_cannon_and_track_settings_round_trip() {
    for raw in 0..=4u16 {
        assert_eq!(EnemyPathSetting1::from_raw(raw).unwrap().raw(), raw);
    }
    assert!(EnemyPathSetting1::from_raw(5).is_none());
    for raw in 0..=3u8 {
        assert_eq!(EnemyPathSetting2::from_raw(raw).unwrap().raw(), raw);
    }
    assert!(EnemyPathSetting2::from_raw(4).is_none());
    for raw in 0..=9u8 {
        assert_eq!(KmpCameraKind::from_raw(raw).unwrap().raw(), raw);
    }
    assert!(KmpCameraKind::from_raw(10).is_none());
    for raw in 0..=2i16 {
        assert_eq!(CannonShootEffect::from_raw(raw).unwrap().raw(), raw);
    }
    assert!(CannonShootEffect::from_raw(-1).is_none());
    assert_eq!(FirstPlayerPos::from_pole_pos(1), Some(FirstPlayerPos::Right));
    assert_eq!(FirstPlayerPos::Right.pole_pos(), 1);
    assert!(FirstPlayerPos::from_pole_pos(2).is_none());
    let (settings, valid) = RouteSettings::from_raw(1, 1);
    assert!(valid);
    assert_eq!(settings, RouteSettings { smooth_motion: true, loop_style: RouteLoopStyle::Mirror });
    assert_eq!(settings.raw(), (1, 1));
    let (fallback, valid) = RouteSettings::from_raw(2, 7);
    assert!(!valid);
    assert_eq!(fallback, RouteSettings { smooth_motion: false, loop_style: RouteLoopStyle::Cyclic });
}
