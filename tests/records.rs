use darkest_dungeon_mod_bundler::chain::{linked_map, ChainError};
use darkest_dungeon_mod_bundler::darkest::DarkestEntry;
use darkest_dungeon_mod_bundler::diff::diff;
use darkest_dungeon_mod_bundler::error::{DeploymentError, ExtractionError};
use darkest_dungeon_mod_bundler::game_data::{GameData, GameDataItem, StructuredItem};
use darkest_dungeon_mod_bundler::loader::{ends_with, game, mods, rel_path, workshop, Mod, Project};
use darkest_dungeon_mod_bundler::map::{DataMap, Patch};
use darkest_dungeon_mod_bundler::mod_content::ModContent;
use darkest_dungeon_mod_bundler::records::{
    Binary, BinaryData, EventGuidOverrides, LoadOrder, Override,
};
use darkest_dungeon_mod_bundler::value::{change_from_answer, parse_i32, GameDataValue, ItemChange};

fn strings(items: &[&str]) -> Vec<String> {
    items.iter().map(|s| s.to_string()).collect()
}

#[test]
fn parse_replace_reads_the_same_kind() {
    let mut b = GameDataValue::Bool(false);
    assert_eq!(b.parse_replace("true"), Ok(()));
    assert_eq!(b, GameDataValue::Bool(true));
    assert_eq!(b.parse_replace("yes"), Err(()));
    assert_eq!(b, GameDataValue::Bool(true));
    let mut i = GameDataValue::Int(0);
    assert_eq!(i.parse_replace("-42"), Ok(()));
    assert_eq!(i, GameDataValue::Int(-42));
    assert_eq!(i.parse_replace("4x"), Err(()));
    assert_eq!(i, GameDataValue::Int(-42));
    let mut s = GameDataValue::String("a".into());
    assert_eq!(s.parse_replace("b c"), Ok(()));
    assert_eq!(s, GameDataValue::String("b c".into()));
}

#[test]
fn parse_i32_bounds() {
    assert_eq!(parse_i32("2147483647"), Some(i32::MAX));
    assert_eq!(parse_i32("-2147483648"), Some(i32::MIN));
    assert_eq!(parse_i32("2147483648"), None);
    assert_eq!(parse_i32("+7"), Some(7));
    assert_eq!(parse_i32("-"), None);
    assert_eq!(parse_i32(""), None);
    assert_eq!(parse_i32("99999999999999"), None);
}

#[test]
fn floats_compare_totally() {
    assert_eq!(GameDataValue::float_from_bits((-0.0f32).to_bits()), GameDataValue::float_from_bits(0.0f32.to_bits()));
    assert_eq!(
        GameDataValue::float_from_bits(f32::NAN.to_bits()),
        GameDataValue::float_from_bits((-f32::NAN).to_bits())
    );
    assert!(GameDataValue::float_from_bits(1.5f32.to_bits()).same_as(&GameDataValue::Float(1.5f32.to_bits())));
    assert!(!GameDataValue::Int(1).same_as(&GameDataValue::Bool(true)));
}

#[test]
fn unwrapping_values_and_changes() {
    assert_eq!(GameDataValue::Int(3).unwrap_i32(), 3);
    assert!(GameDataValue::Bool(true).unwrap_bool());
    assert_eq!(GameDataValue::String("s".into()).unwrap_string(), "s");
    assert_eq!(GameDataValue::Next(Some("n".into())).unwrap_list_next(), Some("n".to_string()));
    assert_eq!(ItemChange::SetTo(GameDataValue::Int(1)).unwrap_set(), GameDataValue::Int(1));
    assert_eq!(ItemChange::Removed.into_option(), None);
    assert_eq!(ItemChange::SetTo(GameDataValue::Int(1)).into_option(), Some(GameDataValue::Int(1)));
}

#[test]
fn load_order_follows_patches() {
    let base = LoadOrder { load_order: strings(&["a", "b", "c"]) };
    let target = LoadOrder { load_order: strings(&["c", "a"]) };
    let patch = diff(base.to_map(), target.to_map());
    let mut result = base.clone();
    assert_eq!(result.apply_patch(patch), Ok(()));
    assert_eq!(result, target);

    let broken = Patch { entries: vec![(strings(&["a"]), ItemChange::SetTo(GameDataValue::Next(Some("a".into()))))] };
    let mut result = base.clone();
    assert_eq!(result.apply_patch(broken), Err(ChainError::Cycle));
    assert_eq!(result, base);
}

#[test]
fn overrides_map_event_ids() {
    let o = EventGuidOverrides {
        event_guid_overrides: vec![
            Override { event_id: "e1".into(), guid_override: "g1".into() },
            Override { event_id: "e0".into(), guid_override: "g0".into() },
        ],
    };
    let m = o.to_map();
    assert_eq!(
        m.entries,
        vec![
            (strings(&["e0"]), GameDataValue::String("g0".into())),
            (strings(&["e1"]), GameDataValue::String("g1".into())),
        ]
    );
}

#[test]
fn binary_files_keep_their_path() {
    assert_eq!(BinaryData("fx/a.png".into()).into_path(), "fx/a.png");
}

#[test]
fn darkest_entry_lookup_and_removal() {
    let mut entry = DarkestEntry {
        items: vec![("id".into(), strings(&["smite"])), ("level".into(), strings(&["0"]))],
    };
    assert_eq!(entry.get("level"), Some(&strings(&["0"])));
    assert_eq!(entry.get("effect"), None);
    assert_eq!(entry.remove("id"), Some(strings(&["smite"])));
    assert_eq!(entry.remove("id"), None);
    assert_eq!(entry.items.len(), 1);
}

#[test]
fn installation_paths() {
    assert_eq!(workshop("/lib"), "/lib/steamapps/workshop/content/262060");
    assert_eq!(game("/lib/"), "/lib/steamapps/common/DarkestDungeon");
    assert_eq!(mods("/lib"), "/lib/steamapps/common/DarkestDungeon/mods");
    assert!(ends_with("heroes/crusader.info.darkest", ".info.darkest"));
    assert!(!ends_with("x", ".info.darkest"));
    assert_eq!(rel_path("/mods/a", "/mods/a/heroes/x"), Some("heroes/x".to_string()));
    assert_eq!(rel_path("/mods/a/", "/mods/a/heroes"), Some("heroes".to_string()));
    assert_eq!(rel_path("/mods/a", "/mods/ab/x"), None);
    assert_eq!(rel_path("/mods/a", "/other"), None);
}

#[test]
fn mod_name_is_its_title() {
    let m = Mod::new(true, "/mods/a".into(), Project { title: "Better Crusader".into() });
    assert_eq!(m.name(), "Better Crusader");
    assert!(!m.selected);
}

#[test]
fn errors_carry_path_and_message() {
    match ExtractionError::from_io("a/b".into(), "denied".into()) {
        ExtractionError::Io(m, p, c) => {
            assert_eq!((m.as_str(), p.as_str(), c), ("denied", "a/b", None));
        }
    }
    match DeploymentError::from_io("out".into(), "full".into()) {
        DeploymentError::Io(m, p) => assert_eq!((m.as_str(), p.as_str()), ("full", "out")),
        DeploymentError::AlreadyExists => panic!("wrong variant"),
    }
}

#[test]
fn added_files_become_patches() {
    let base = GameData {
        files: vec![(
            "audio/x.load_order.json".to_string(),
            GameDataItem::Structured(StructuredItem::LoadOrder(LoadOrder { load_order: strings(&["a"]) })),
        )],
    };
    let added = StructuredItem::LoadOrder(LoadOrder { load_order: strings(&["a", "b"]) });
    let mut content = ModContent::build(vec![], vec![("audio/x.load_order.json".to_string(), added)], vec![]);
    content.added_to_modified(&base);
    assert!(content.text_added_ref().is_empty());
    assert_eq!(content.text_modified_ref().len(), 1);
    let expected = diff(linked_map(&strings(&["a"])), linked_map(&strings(&["a", "b"])));
    assert_eq!(content.text_modified_ref()[0].1, expected);
    content.binary_mut().push(("fx/a.png".into(), "/mods/a/fx/a.png".into()));
    assert_eq!(content.binary_ref().len(), 1);
    let _ = DataMap::new();
}

#[test]
fn typed_answers_become_changes() {
    assert_eq!(change_from_answer(Some(GameDataValue::Int(1)), None), Ok(ItemChange::Removed));
    assert_eq!(
        change_from_answer(Some(GameDataValue::Int(1)), Some("12".into())),
        Ok(ItemChange::SetTo(GameDataValue::Int(12)))
    );
    assert_eq!(change_from_answer(Some(GameDataValue::Int(1)), Some("x".into())), Err(()));
    assert_eq!(
        change_from_answer(None, Some("text".into())),
        Ok(ItemChange::SetTo(GameDataValue::String("text".into())))
    );
}
