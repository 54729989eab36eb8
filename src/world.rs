use std::collections::HashMap;

use vstd::prelude::*;

use crate::group::group_get;
use crate::item::Item;
use crate::number::{decimal, i32_of, parse_i32, parse_u32, push_decimal, u32_of};
use crate::text::push_char;
use crate::{Ini, VirtualSection};

verus! {

/// Number of a tileset, a sound, a gradient or another asset.
pub type AssetId = u8;

/// A tile: the tileset it comes from and its place there.
pub struct Tile(pub u8, pub u8);

/// An RGB colour.
pub struct Color(pub u8, pub u8, pub u8);

pub enum Category {
    Tutorial,
    Challenge,
    Puzzle,
    Maze,
    Environmental,
    Playground,
    Misc,
    Unknown(String),
}

pub enum Difficulty {
    Easy,
    Normal,
    Hard,
    VeryHard,
    Lunatic,
    Unknown(String),
}

pub enum Size {
    Small,
    Medium,
    Large,
    Unknown(String),
}

pub enum Format {
    Vanilla1,
    Vanilla2,
    KsPlus,
    KsEx,
    Unknown(String),
}

pub struct FontParams {
    pub font: Option<String>,
    pub title: Option<String>,
    pub subtitle: Option<String>,
}

/// The `[World]` section.
pub struct WorldSection {
    pub name: Option<String>,
    pub author: Option<String>,
    pub description: Option<String>,
    pub categories: [Option<Category>; 2],
    pub difficulties: [Option<Difficulty>; 3],
    pub size: Option<Size>,
    pub format: Option<Format>,
    pub clothes: Option<Color>,
    pub skin: Option<Color>,
    pub holo_fix: Option<bool>,
    pub holo_limit: Option<bool>,
    pub new: Option<bool>,
    pub map: Option<bool>,
    pub ambi_fade: [Option<bool>; 2],
    pub fonts: FontParams,
    pub character: Option<String>,
    pub powers: Option<String>,
    pub coin: Option<String>,
    pub artifacts: [Option<String>; 7],
}

pub struct CutsceneMusicSection {
    pub cutscenes: HashMap<String, AssetId>,
}

pub struct LoopMusicSection {}

pub struct CutsceneColorSection {}

pub struct CustomCharacterSection {}

pub struct AnimationParams {
    pub anim_from: u32,
    pub anim_to: u32,
    pub anim_loop_back: u32,
    pub anim_repeat: u32,
}

/// A `[Custom Object N]` section.
pub struct CustomObjectSection {
    pub image: Option<String>,
    pub size: (u32, u32),
    pub offset: (i32, i32),
    pub animation: AnimationParams,
    pub override_object: Option<Tile>,
    pub is_harmless: bool,
    pub color: Option<Color>,
}

pub struct SignParams {}

pub struct WarpParams {}

pub enum ShiftType {
    Spot,
    Floor,
    Circle,
    Square,
}

pub enum ShiftSound {
    NoSound,
    Default,
    Switch,
    Door,
    Electronic,
    Custom(String),
}

pub struct ShiftParams {
    pub absolute_target: bool,
    pub invisible: bool,
    pub touch: bool,
    pub quantize: bool,
    pub autosave: bool,
    pub stop_music: bool,
    pub show_effect: bool,
    pub deny_hologram: bool,
    pub hide: bool,
    pub delay: u32,
    pub coin: u8,
    pub map: (i64, i64),
    pub position: (i64, i64),
    pub shift_type: Option<ShiftType>,
    pub sound: Option<ShiftSound>,
    pub cutscene: String,
    pub character: String,
}

pub struct TriggerParams {
    pub absolute_target: bool,
    pub invisible: bool,
    pub touch: bool,
    pub as_one: bool,
    pub repeatable: bool,
    pub show_effect: bool,
    pub deny_hologram: bool,
    pub object: Option<Tile>,
    pub spawn: (i64, i64),
    pub effect_offset: (i64, i64),
    pub trigger_type: Option<ShiftType>,
    pub sound: Option<ShiftSound>,
}

pub struct MapParams {
    pub visible: bool,
    pub color: Color,
    pub position: (i64, i64),
}

pub enum TintInk {
    Trans,
    Add,
    Sub,
    AND,
    OR,
    XOR,
}

pub struct TintParams {
    pub transparency: Option<u8>,
    pub ink: Option<TintInk>,
    pub color: Option<Color>,
}

/// An `[xXyY]` screen section.
pub struct ScreenSection {
    pub signs: [Option<SignParams>; 3],
    pub wraps: [Option<WarpParams>; 3],
    pub shifts: [Option<ShiftParams>; 3],
    pub triggers: [Option<TriggerParams>; 3],
    pub ending: Option<String>,
    pub map: Option<MapParams>,
    pub tint: Option<TintParams>,
    pub attachment: Option<String>,
    pub overlay: Option<bool>,
}

/// What a level's World.ini says.
pub struct WorldIni {
    pub world: WorldSection,
    pub cutscene_music: CutsceneMusicSection,
    pub loop_music: LoopMusicSection,
    pub cutscene_color: CutsceneColorSection,
    pub custom_characters: CustomCharacterSection,
    pub custom_objects: HashMap<AssetId, CustomObjectSection>,
    pub custom_objects_b: HashMap<AssetId, CustomObjectSection>,
    pub screens: HashMap<(i64, i64), ScreenSection>,
}

/// The number a group of sections gives for `key`, or `default` where it has none or it does not
/// read as a `u32`.
pub open spec fn u32_or(ms: Seq<Seq<Item>>, src: Seq<char>, key: Seq<char>, default: u32) -> u32 {
    match group_get(ms, src, key) {
        Some(v) => match u32_of(v) {
            Some(n) => n,
            None => default,
        },
        None => default,
    }
}

/// The number a group of sections gives for `key`, or `default` where it has none or it does not
/// read as an `i32`.
pub open spec fn i32_or(ms: Seq<Seq<Item>>, src: Seq<char>, key: Seq<char>, default: i32) -> i32 {
    match group_get(ms, src, key) {
        Some(v) => match i32_of(v) {
            Some(n) => n,
            None => default,
        },
        None => default,
    }
}

/// `a` holds the animation settings of a group of sections.
pub open spec fn animation_read(a: AnimationParams, ms: Seq<Seq<Item>>, src: Seq<char>) -> bool {
    &&& a.anim_from == u32_or(ms, src, "Init AnimFrom"@, 0)
    &&& a.anim_to == u32_or(ms, src, "Init AnimTo"@, 0)
    &&& a.anim_loop_back == u32_or(ms, src, "Init AnimLoopBack"@, 0)
    &&& a.anim_repeat == u32_or(ms, src, "Init AnimRepeat"@, 0)
}

/// `o` holds the settings of a custom object read from a group of sections.
pub open spec fn object_read(o: CustomObjectSection, ms: Seq<Seq<Item>>, src: Seq<char>) -> bool {
    &&& match (o.image, group_get(ms, src, "Image"@)) {
        (Some(s), Some(v)) => s@ == v,
        (None, None) => true,
        _ => false,
    }
    &&& o.size == (u32_or(ms, src, "Tile Width"@, 24), u32_or(ms, src, "Tile Height"@, 24))
    &&& o.offset == (i32_or(ms, src, "Offset X"@, 24), i32_or(ms, src, "Offset Y"@, 24))
    &&& animation_read(o.animation, ms, src)
    &&& o.override_object is None
    &&& o.is_harmless == (group_get(ms, src, "Hurts"@) == Some("False"@))
    &&& o.color is None
}

/// The key of the custom object section numbered `i`, in bank B where `b_bank`.
pub open spec fn object_key(i: u8, b_bank: bool) -> Seq<char> {
    "Custom Object "@ + (if b_bank {
        seq!['B']
    } else {
        Seq::<char>::empty()
    }) + decimal(i as nat)
}

fn prop_u32(props: &VirtualSection, key: &str, default: u32) -> (r: u32)
    requires
        props.wf(),
    ensures
        r == u32_or(props.members(), props.src(), key@, default),
{
    match props.get(key) {
        Some(v) => match parse_u32(v) {
            Some(n) => n,
            None => default,
        },
        None => default,
    }
}

fn prop_i32(props: &VirtualSection, key: &str, default: i32) -> (r: i32)
    requires
        props.wf(),
    ensures
        r == i32_or(props.members(), props.src(), key@, default),
{
    match props.get(key) {
        Some(v) => match parse_i32(v) {
            Some(n) => n,
            None => default,
        },
        None => default,
    }
}

/// Reads the `Init Anim...` settings, each 0 where missing or unreadable.
pub fn parse_animation_params(props: &VirtualSection) -> (r: AnimationParams)
    requires
        props.wf(),
    ensures
        animation_read(r, props.members(), props.src()),
{
    let anim_from = prop_u32(props, "Init AnimFrom", 0);
    let anim_to = prop_u32(props, "Init AnimTo", 0);
    let anim_loop_back = prop_u32(props, "Init AnimLoopBack", 0);
    let anim_repeat = prop_u32(props, "Init AnimRepeat", 0);
    AnimationParams { anim_from, anim_to, anim_loop_back, anim_repeat }
}

/// Reads a custom object: its image, tile size and offset (24 where missing or unreadable), its
/// animation, and whether `Hurts` is `False`.
pub fn parse_custom_object_section(props: &VirtualSection) -> (r: CustomObjectSection)
    requires
        props.wf(),
    ensures
        object_read(r, props.members(), props.src()),
{
    let image = match props.get("Image") {
        Some(v) => Some(v.to_owned()),
        None => None,
    };
    let size = (prop_u32(props, "Tile Width", 24), prop_u32(props, "Tile Height", 24));
    let offset = (prop_i32(props, "Offset X", 24), prop_i32(props, "Offset Y", 24));
    let animation = parse_animation_params(props);
    let is_harmless = match props.get("Hurts") {
        Some(v) => {
            let cs = crate::text::chars_of(v);
            let f = crate::text::chars_of("False");
            crate::item::chars_equal(cs.as_slice(), f.as_slice())
        },
        None => false,
    };
    CustomObjectSection {
        image,
        size,
        offset,
        animation,
        override_object: None,
        is_harmless,
        color: None,
    }
}

/// Reads every custom object section numbered 0 to 254 that the document has, in bank B where
/// `b_bank`.
pub fn parse_custom_objects_sections(ini: &Ini, b_bank: bool) -> (r: HashMap<AssetId, CustomObjectSection>)
    requires
        ini.wf(),
    ensures
        forall|i: u8|
            #[trigger] r@.contains_key(i) <==> i < 255 && ini.group_of(object_key(i, b_bank)).len()
                > 0,
        forall|i: u8|
            #[trigger] r@.contains_key(i) ==> object_read(
                r@[i],
                ini.members_of(object_key(i, b_bank)),
                ini.src(),
            ),
{
    broadcast use vstd::std_specs::hash::group_hash_axioms;

    let mut sections: HashMap<AssetId, CustomObjectSection> = HashMap::new();
    let mut i: u8 = 0;
    while i < 255
        invariant
            ini.wf(),
            forall|j: u8|
                #[trigger] sections@.contains_key(j) <==> j < i && ini.group_of(
                    object_key(j, b_bank),
                ).len() > 0,
            forall|j: u8|
                #[trigger] sections@.contains_key(j) ==> object_read(
                    sections@[j],
                    ini.members_of(object_key(j, b_bank)),
                    ini.src(),
                ),
        decreases 255 - i,
    {
        let mut key = "Custom Object ".to_owned();
        if b_bank {
            push_char(&mut key, 'B');
        }
        push_decimal(&mut key, i);
        proof {
            assert(key@ =~= object_key(i, b_bank));
        }
        match ini.section(key.as_str()) {
            Some(props) => {
                let object = parse_custom_object_section(&props);
                sections.insert(i, object);
            },
            None => {},
        }
        i = i + 1;
    }
    sections
}

/// The `[World]` section; none of its settings is read yet.
pub fn parse_world_section(_ini: &Ini) -> (r: WorldSection)
    ensures
        r.name is None && r.author is None && r.description is None,
        r.categories[0] is None && r.categories[1] is None,
        forall|i: int| 0 <= i < 3 ==> r.difficulties[i] is None,
        r.size is None && r.format is None && r.clothes is None && r.skin is None,
        r.holo_fix is None && r.holo_limit is None && r.new is None && r.map is None,
        r.ambi_fade[0] is None && r.ambi_fade[1] is None,
        r.fonts.font is None && r.fonts.title is None && r.fonts.subtitle is None,
        r.character is None && r.powers is None && r.coin is None,
        forall|i: int| 0 <= i < 7 ==> r.artifacts[i] is None,
{
    WorldSection {
        name: None,
        author: None,
        description: None,
        categories: [None, None],
        difficulties: [None, None, None],
        size: None,
        format: None,
        clothes: None,
        skin: None,
        holo_fix: None,
        holo_limit: None,
        new: None,
        map: None,
        ambi_fade: [None, None],
        fonts: FontParams { font: None, title: None, subtitle: None },
        character: None,
        powers: None,
        coin: None,
        artifacts: [None, None, None, None, None, None, None],
    }
}

/// The `[Cutscene Music]` section; none of it is read yet.
pub fn parse_cutscene_music_section(_ini: &Ini) -> (r: CutsceneMusicSection)
    ensures
        r.cutscenes@ == Map::<String, AssetId>::empty(),
{
    CutsceneMusicSection { cutscenes: HashMap::new() }
}

/// The `[Loop Music]` section.
pub fn parse_loop_music_section(_ini: &Ini) -> (r: LoopMusicSection) {
    LoopMusicSection {  }
}

/// The `[Cutscene Color]` section.
pub fn parse_cutscene_color_section(_ini: &Ini) -> (r: CutsceneColorSection) {
    CutsceneColorSection {  }
}

/// The `[Custom Character]` section.
pub fn parse_custom_character_section(_ini: &Ini) -> (r: CustomCharacterSection) {
    CustomCharacterSection {  }
}

/// The screen sections; none of them is read yet.
pub fn parse_screens_section(_ini: &Ini) -> (r: HashMap<(i64, i64), ScreenSection>)
    ensures
        r@ == Map::<(i64, i64), ScreenSection>::empty(),
{
    HashMap::new()
}

/// Reads what a World.ini document says: its custom objects in both banks; the other sections
/// are not read yet.
pub fn parse_ini(ini: &Ini) -> (r: WorldIni)
    requires
        ini.wf(),
    ensures
        forall|i: u8|
            #[trigger] r.custom_objects@.contains_key(i) <==> i < 255 && ini.group_of(
                object_key(i, false),
            ).len() > 0,
        forall|i: u8|
            #[trigger] r.custom_objects@.contains_key(i) ==> object_read(
                r.custom_objects@[i],
                ini.members_of(object_key(i, false)),
                ini.src(),
            ),
        forall|i: u8|
            #[trigger] r.custom_objects_b@.contains_key(i) <==> i < 255 && ini.group_of(
                object_key(i, true),
            ).len() > 0,
        forall|i: u8|
            #[trigger] r.custom_objects_b@.contains_key(i) ==> object_read(
                r.custom_objects_b@[i],
                ini.members_of(object_key(i, true)),
                ini.src(),
            ),
        r.screens@ == Map::<(i64, i64), ScreenSection>::empty(),
{
    WorldIni {
        world: parse_world_section(ini),
        cutscene_music: parse_cutscene_music_section(ini),
        loop_music: parse_loop_music_section(ini),
        cutscene_color: parse_cutscene_color_section(ini),
        custom_characters: parse_custom_character_section(ini),
        custom_objects: parse_custom_objects_sections(ini, false),
        custom_objects_b: parse_custom_objects_sections(ini, true),
        screens: parse_screens_section(ini),
    }
}

} // verus!
