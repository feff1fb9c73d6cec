use darkest_dungeon_mod_bundler::assemble::{assemble_files, decide_binary};
use darkest_dungeon_mod_bundler::error::ApplyError;
use darkest_dungeon_mod_bundler::skills::skill_fields;
use darkest_dungeon_mod_bundler::skills::resolve_skill_field;
use darkest_dungeon_mod_bundler::regroup_files::regroup_files;
use darkest_dungeon_mod_bundler::chain::linked_map;
use darkest_dungeon_mod_bundler::diff::diff;
use darkest_dungeon_mod_bundler::game_data::{FileMerge, GameData, GameDataItem, StructuredItem};
use darkest_dungeon_mod_bundler::localization::StringsTable;
use darkest_dungeon_mod_bundler::map::{Conflicts, DataMap, Patch};
use darkest_dungeon_mod_bundler::merge::merge_resolved;
use darkest_dungeon_mod_bundler::mod_content::classify;
use darkest_dungeon_mod_bundler::records::LoadOrder;
use darkest_dungeon_mod_bundler::value::{GameDataValue, ItemChange};

fn strings(items: &[&str]) -> Vec<String> {
    items.iter().map(|s| s.to_string()).collect()
}

fn load_order(items: &[&str]) -> GameDataItem {
    GameDataItem::Structured(StructuredItem::LoadOrder(LoadOrder { load_order: strings(items) }))
}

#[test]
fn classify_sorts_a_mods_files() {
    let base = GameData {
        files: vec![
            ("fx/a.png".to_string(), GameDataItem::Binary("/game/fx/a.png".into())),
            ("loc/x.xml".to_string(), GameDataItem::Structured(StructuredItem::StringsTable(StringsTable::new()))),
            ("audio/o.json".to_string(), load_order(&["a", "b"])),
        ],
    };
    let content = GameData {
        files: vec![
            ("fx/a.png".to_string(), GameDataItem::Binary("/mod/fx/a.png".into())),
            ("audio/o.json".to_string(), load_order(&["b", "a"])),
            ("audio/new.json".to_string(), load_order(&["z"])),
            ("loc/x.xml".to_string(), GameDataItem::Binary("/mod/loc/x.xml".into())),
        ],
    };
    let (contribution, mismatched) = classify(&base, content);
    assert_eq!(
        contribution.binary_ref(),
        &vec![("fx/a.png".to_string(), "/mod/fx/a.png".to_string())]
    );
    assert_eq!(contribution.text_added_ref().len(), 1);
    assert_eq!(contribution.text_added_ref()[0].0, "audio/new.json");
    assert_eq!(contribution.text_modified_ref().len(), 1);
    assert_eq!(
        contribution.text_modified_ref()[0].1,
        diff(linked_map(&strings(&["a", "b"])), linked_map(&strings(&["b", "a"])))
    );
    assert_eq!(mismatched, strings(&["loc/x.xml"]));
}

#[test]
fn file_merge_asks_only_on_conflict() {
    let hero = StructuredItem::HeroInfo(DataMap::new());
    let p = strings(&["tags", "brave"]);
    let set = |v: i32| Patch { entries: vec![(p.clone(), ItemChange::SetTo(GameDataValue::Int(v)))] };
    match hero.merge_file(&vec![("a".to_string(), set(1)), ("b".to_string(), set(1))]) {
        FileMerge::Done(patch) => assert_eq!(patch, set(1)),
        FileMerge::NeedsResolution(..) => panic!("identical edits must merge"),
    }
    match hero.merge_file(&vec![("a".to_string(), set(1)), ("b".to_string(), set(2))]) {
        FileMerge::Done(_) => panic!("differing edits must conflict"),
        FileMerge::NeedsResolution(merged, conflicts) => {
            assert!(merged.entries.is_empty());
            let done = merge_resolved(&conflicts, merged, set(3)).unwrap();
            let mut record = hero;
            assert_eq!(record.apply_patch(done), Ok(()));
            match record {
                StructuredItem::HeroInfo(m) => assert_eq!(m.get(&p), Some(&GameDataValue::Int(3))),
                _ => panic!("record changed kind"),
            }
        }
    }
}

#[test]
fn files_group_by_path_in_mod_order() {
    let mods = vec![
        ("a".to_string(), vec![("fx/1".to_string(), "A1".to_string()), ("fx/2".to_string(), "A2".to_string())]),
        ("b".to_string(), vec![("fx/1".to_string(), "B1".to_string())]),
    ];
    let groups = regroup_files(mods);
    assert_eq!(
        groups,
        vec![
            ("fx/1".to_string(), vec![("a".to_string(), "A1".to_string()), ("b".to_string(), "B1".to_string())]),
            ("fx/2".to_string(), vec![("a".to_string(), "A2".to_string())]),
        ]
    );
}

#[test]
fn skill_field_answer_becomes_a_patch() {
    let level = |l: &str| strings(&["skills", "smite", l, "other", "dmg"]);
    let set = |v: &str| ItemChange::SetTo(GameDataValue::String(v.into()));
    let conflicts = Conflicts {
        entries: vec![
            (level("0"), vec![("a".to_string(), set("5")), ("b".to_string(), set("7"))]),
            (level("1"), vec![("a".to_string(), set("6"))]),
            (strings(&["tags", "brave"]), vec![("a".to_string(), ItemChange::Removed), ("b".to_string(), set("x"))]),
        ],
    };
    let field = strings(&["other", "dmg"]);
    // level 0 keeps its baseline value "1": it is still answered
    let answer = vec![("0".to_string(), "1".to_string()), ("1".to_string(), "6".to_string())];
    let patch = resolve_skill_field(&conflicts, &"smite".to_string(), &field, Some(answer));
    assert_eq!(patch.entries, vec![(level("0"), set("1")), (level("1"), set("6"))]);
    let partial = resolve_skill_field(&conflicts, &"smite".to_string(), &field, Some(vec![("1".to_string(), "9".to_string())]));
    assert_eq!(partial.entries, vec![(level("0"), ItemChange::Removed), (level("1"), set("9"))]);
    let removal = resolve_skill_field(&conflicts, &"smite".to_string(), &field, None);
    assert_eq!(
        removal.entries,
        vec![(level("0"), ItemChange::Removed), (level("1"), ItemChange::Removed)]
    );
}

#[test]
fn hero_rejects_unknown_paths() {
    let mut hero = StructuredItem::HeroInfo(DataMap::new());
    let bogus = Patch {
        entries: vec![
            (strings(&["bogus"]), ItemChange::SetTo(GameDataValue::Int(1))),
            (strings(&["tags", "brave"]), ItemChange::SetTo(GameDataValue::String("brave".into()))),
        ],
    };
    assert_eq!(hero.apply_patch(bogus), Err(ApplyError::UnknownPath));
    match &hero {
        StructuredItem::HeroInfo(m) => assert!(m.entries.is_empty()),
        _ => panic!("record changed kind"),
    }
    let empty_path = Patch { entries: vec![(vec![], ItemChange::Removed)] };
    assert_eq!(hero.apply_patch(empty_path), Err(ApplyError::UnknownPath));
}

#[test]
fn binary_choice() {
    let one = vec![("m1".to_string(), "/m1/fx/a.png".to_string())];
    assert_eq!(decide_binary(&one, false), Some("/m1/fx/a.png".to_string()));
    let two = vec![
        ("m1".to_string(), "/m1/fx/a.png".to_string()),
        ("m2".to_string(), "/m2/fx/a.png".to_string()),
    ];
    assert_eq!(decide_binary(&two, true), Some("/m1/fx/a.png".to_string()));
    assert_eq!(decide_binary(&two, false), None);
}

#[test]
fn assemble_applies_patches_per_file() {
    let base = GameData {
        files: vec![
            ("fx/a.png".to_string(), GameDataItem::Binary("/game/fx/a.png".into())),
            ("audio/o.json".to_string(), load_order(&["a", "b"])),
            ("heroes/h".to_string(), GameDataItem::Structured(StructuredItem::HeroInfo(DataMap::new()))),
        ],
    };
    let reorder = diff(linked_map(&strings(&["a", "b"])), linked_map(&strings(&["b", "a"])));
    let bad = Patch { entries: vec![(strings(&["bogus"]), ItemChange::Removed)] };
    let (files, errors) = assemble_files(
        &base,
        vec![("fx/a.png".to_string(), "/mod/fx/a.png".to_string())],
        vec![("audio/new.json".to_string(), StructuredItem::LoadOrder(LoadOrder { load_order: strings(&["z"]) }))],
        vec![
            ("audio/o.json".to_string(), reorder),
            ("heroes/h".to_string(), bad),
            ("fx/a.png".to_string(), Patch { entries: vec![] }),
            ("missing".to_string(), Patch { entries: vec![] }),
        ],
    );
    assert_eq!(files.files.len(), 3);
    assert_eq!(files.files[0].0, "fx/a.png");
    assert!(matches!(&files.files[0].1, GameDataItem::Binary(s) if s == "/mod/fx/a.png"));
    assert_eq!(files.files[1].0, "audio/new.json");
    assert_eq!(files.files[2].0, "audio/o.json");
    match &files.files[2].1 {
        GameDataItem::Structured(StructuredItem::LoadOrder(l)) => assert_eq!(l.load_order, strings(&["b", "a"])),
        _ => panic!("wrong file"),
    }
    assert_eq!(
        errors,
        vec![
            ("heroes/h".to_string(), ApplyError::UnknownPath),
            ("fx/a.png".to_string(), ApplyError::UnknownPath),
            ("missing".to_string(), ApplyError::UnknownPath),
        ]
    );
}

#[test]
fn skill_fields_are_listed_once() {
    let set = ItemChange::SetTo(GameDataValue::String("x".into()));
    let entry = |p: &[&str]| (strings(p), vec![("a".to_string(), set.clone()), ("b".to_string(), ItemChange::Removed)]);
    let conflicts = Conflicts {
        entries: vec![
            entry(&["skills", "smite", "0", "effects"]),
            entry(&["skills", "smite", "1", "effects"]),
            entry(&["skills", "stun", "0", "other", "atk"]),
            entry(&["tags", "brave"]),
        ],
    };
    assert_eq!(
        skill_fields(&conflicts),
        vec![
            ("smite".to_string(), strings(&["effects"])),
            ("stun".to_string(), strings(&["other", "atk"])),
        ]
    );
}
