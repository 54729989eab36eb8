use libks_ini::number::{parse_i32, parse_u32};
use libks_ini::world::{
    parse_animation_params, parse_custom_object_section, parse_custom_objects_sections,
    parse_ini, parse_screens_section, parse_world_section,
};
use libks_ini::Ini;

#[test]
fn parse_u32_reads_decimal() {
    assert_eq!(parse_u32("12"), Some(12));
    assert_eq!(parse_u32("+7"), Some(7));
    assert_eq!(parse_u32("4294967295"), Some(u32::MAX));
    assert_eq!(parse_u32("4294967296"), None);
    assert_eq!(parse_u32(""), None);
    assert_eq!(parse_u32("+"), None);
    assert_eq!(parse_u32("-1"), None);
    assert_eq!(parse_u32(" 1"), None);
    assert_eq!(parse_u32("1a"), None);
}

#[test]
fn parse_i32_reads_decimal() {
    assert_eq!(parse_i32("-12"), Some(-12));
    assert_eq!(parse_i32("+12"), Some(12));
    assert_eq!(parse_i32("-2147483648"), Some(i32::MIN));
    assert_eq!(parse_i32("2147483647"), Some(i32::MAX));
    assert_eq!(parse_i32("2147483648"), None);
    assert_eq!(parse_i32("-2147483649"), None);
    assert_eq!(parse_i32("-"), None);
    assert_eq!(parse_i32("--1"), None);
}

#[test]
fn custom_object_reads_settings() {
    let ini = Ini::new(
        "[Custom Object 3]\nImage=Rock.png\nTile Width=32\nOffset X=-4\nOffset Y=bad\nInit AnimTo=5\nHurts=False\n[custom object 3]\nTile Width=48\n",
    );
    let props = ini.section("Custom Object 3").unwrap();
    let object = parse_custom_object_section(&props);
    assert_eq!(object.image.as_deref(), Some("Rock.png"));
    assert_eq!(object.size, (48, 24));
    assert_eq!(object.offset, (-4, 24));
    assert_eq!(object.animation.anim_to, 5);
    assert_eq!(object.animation.anim_from, 0);
    assert!(object.is_harmless);
    assert!(object.override_object.is_none());
    assert!(object.color.is_none());
}

#[test]
fn custom_object_defaults() {
    let ini = Ini::new("[Custom Object 1]\nHurts=True\n");
    let props = ini.section("Custom Object 1").unwrap();
    let object = parse_custom_object_section(&props);
    assert!(object.image.is_none());
    assert_eq!(object.size, (24, 24));
    assert_eq!(object.offset, (24, 24));
    assert!(!object.is_harmless);
    let animation = parse_animation_params(&props);
    assert_eq!(
        (animation.anim_from, animation.anim_to, animation.anim_loop_back, animation.anim_repeat),
        (0, 0, 0, 0)
    );
}

#[test]
fn custom_objects_by_bank() {
    let ini = Ini::new(
        "[Custom Object 0]\nImage=a\n[Custom Object 12]\nImage=b\n[Custom Object B3]\nImage=c\n[Custom Object 255]\nImage=d\n[Custom Object 254]\n",
    );
    let a = parse_custom_objects_sections(&ini, false);
    let mut keys: Vec<u8> = a.keys().copied().collect();
    keys.sort();
    assert_eq!(keys, vec![0, 12, 254]);
    assert_eq!(a[&12].image.as_deref(), Some("b"));
    let b = parse_custom_objects_sections(&ini, true);
    let keys: Vec<u8> = b.keys().copied().collect();
    assert_eq!(keys, vec![3]);
    assert_eq!(b[&3].image.as_deref(), Some("c"));
}

#[test]
fn world_ini_reads_objects_only() {
    let ini = Ini::new("[World]\nName=Test\n[Custom Object 100]\nTile Height=10\n");
    let world = parse_ini(&ini);
    assert!(world.world.name.is_none());
    assert_eq!(world.custom_objects.len(), 1);
    assert_eq!(world.custom_objects[&100].size, (24, 10));
    assert!(world.custom_objects_b.is_empty());
    assert!(world.screens.is_empty());
    assert!(parse_world_section(&ini).fonts.font.is_none());
    assert!(parse_screens_section(&ini).is_empty());
}
