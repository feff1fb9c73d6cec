use darkest_dungeon_mod_bundler::diff::diff;
use darkest_dungeon_mod_bundler::error::ApplyError;
use darkest_dungeon_mod_bundler::localization::{format_entries, format_text, StringsTable};
use darkest_dungeon_mod_bundler::map::{Conflicts, DataMap, Patch};
use darkest_dungeon_mod_bundler::merge::{merge_resolved, try_merge_patches, ResolveError};
use darkest_dungeon_mod_bundler::skills::try_merge_skill_patches;
use darkest_dungeon_mod_bundler::value::{GameDataValue, ItemChange};

fn path(items: &[&str]) -> Vec<String> {
    items.iter().map(|s| s.to_string()).collect()
}

fn float(x: f32) -> GameDataValue {
    GameDataValue::float_from_bits(x.to_bits())
}

fn single(p: &[&str], v: GameDataValue) -> DataMap {
    let mut m = DataMap::new();
    m.insert(path(p), v);
    m
}

#[test]
fn conflicting_scalar_is_resolved_by_the_resolver() {
    let crit = ["weapons", "0", "crit"];
    let base = single(&crit, float(0.10));
    let first = diff(base.clone(), single(&crit, float(0.15)));
    let second = diff(base.clone(), single(&crit, float(0.20)));
    let (merged, conflicts) =
        try_merge_patches(&vec![("first".to_string(), first), ("second".to_string(), second)]);
    assert_eq!(conflicts.entries.len(), 1);
    assert_eq!(conflicts.entries[0].0, path(&crit));
    assert_eq!(
        conflicts.entries[0].1,
        vec![
            ("first".to_string(), ItemChange::SetTo(float(0.15))),
            ("second".to_string(), ItemChange::SetTo(float(0.20))),
        ]
    );
    assert!(merged.entries.is_empty());

    let resolved = Patch { entries: vec![(path(&crit), ItemChange::SetTo(float(0.18)))] };
    let final_patch = merge_resolved(&conflicts, merged, resolved).unwrap();
    let mut result = base;
    result.apply_patch(final_patch);
    assert_eq!(result.get(&path(&crit)), Some(&float(0.18)));
}

#[test]
fn identical_localization_additions_merge() {
    let base = StringsTable::new();
    let mut added = StringsTable::new();
    added.set_texts("english".into(), "7".into(), vec!["Hello".to_string()]);
    let first = diff(base.to_map(), added.to_map());
    let second = diff(base.to_map(), added.to_map());
    let (merged, conflicts) = base
        .try_merge_patches(&vec![("first".to_string(), first), ("second".to_string(), second)]);
    assert!(conflicts.entries.is_empty());
    let mut result = base;
    assert_eq!(result.apply_patch(merged), Ok(()));
    assert_eq!(result.entries, vec![("english".to_string(), "7".to_string(), vec!["Hello".to_string()])]);
}

#[test]
fn localization_set_against_removal_conflicts() {
    let mut base = StringsTable::new();
    base.set_texts("english".into(), "7".into(), vec!["Hi".to_string()]);
    let mut changed = base.clone();
    changed.set_texts("english".into(), "7".into(), vec!["Hello".to_string()]);
    let removed = StringsTable::new();
    let set = diff(base.to_map(), changed.to_map());
    let drop = diff(base.to_map(), removed.to_map());
    let (merged, conflicts) = base.try_merge_patches(&vec![
        ("first".to_string(), set.clone()),
        ("second".to_string(), drop.clone()),
    ]);
    assert!(merged.entries.is_empty());
    assert_eq!(conflicts.entries.len(), 1);

    // two equal sets outnumber one removal
    let (merged, conflicts) = base.try_merge_patches(&vec![
        ("first".to_string(), set.clone()),
        ("second".to_string(), drop),
        ("third".to_string(), set.clone()),
    ]);
    assert!(conflicts.entries.is_empty());
    assert_eq!(merged, set);
}

#[test]
fn localization_apply_reads_entry_texts() {
    let mut table = StringsTable::new();
    let xml = format_entries(vec!["a < b".to_string(), "plain".to_string()]);
    let patch = Patch {
        entries: vec![(path(&["french", "greeting"]), ItemChange::SetTo(GameDataValue::String(xml)))],
    };
    assert_eq!(table.apply_patch(patch), Ok(()));
    assert_eq!(
        table.entries,
        vec![(
            "french".to_string(),
            "greeting".to_string(),
            vec!["a < b".to_string(), "plain".to_string()]
        )]
    );
}

#[test]
fn localization_apply_errors() {
    let mut table = StringsTable::new();
    table.set_texts("english".into(), "1".into(), vec!["x".to_string()]);
    let before = table.clone();
    let bad_path = Patch { entries: vec![(path(&["english"]), ItemChange::Removed)] };
    assert_eq!(table.apply_patch(bad_path), Err(ApplyError::UnknownPath));
    let bad_kind =
        Patch { entries: vec![(path(&["english", "1"]), ItemChange::SetTo(GameDataValue::Int(3)))] };
    assert_eq!(table.apply_patch(bad_kind), Err(ApplyError::WrongKind));
    let bad_xml = Patch {
        entries: vec![(
            path(&["english", "1"]),
            ItemChange::SetTo(GameDataValue::String("<root><entry>".to_string())),
        )],
    };
    assert_eq!(table.apply_patch(bad_xml), Err(ApplyError::Malformed));
    let bad_tag = Patch {
        entries: vec![(
            path(&["english", "1"]),
            ItemChange::SetTo(GameDataValue::String("<root><other>x</other></root>".to_string())),
        )],
    };
    assert_eq!(table.apply_patch(bad_tag), Err(ApplyError::Malformed));
    assert_eq!(table, before);
    let removal = Patch { entries: vec![(path(&["english", "1"]), ItemChange::Removed)] };
    assert_eq!(table.apply_patch(removal), Ok(()));
    assert!(table.entries.is_empty());
}

#[test]
fn format_text_wraps_markup() {
    assert_eq!(format_text("plain"), "plain");
    assert_eq!(format_text("a & b"), "<![CDATA[a & b]]>");
    assert_eq!(
        format_entries(vec!["x".to_string()]),
        "<?xml version=\"1.0\" encoding=\"UTF-8\"?>\n<root>\n<entry>x</entry>\n</root>"
    );
}

#[test]
fn skill_levels_conflict_together() {
    let level0 = ["skills", "smite", "0", "other", "dmg"];
    let level1 = ["skills", "smite", "1", "other", "dmg"];
    let mut base = DataMap::new();
    base.insert(path(&level0), GameDataValue::String("1".into()));
    base.insert(path(&level1), GameDataValue::String("2".into()));
    let mut a = base.clone();
    a.insert(path(&level0), GameDataValue::String("5".into()));
    a.insert(path(&level1), GameDataValue::String("6".into()));
    let mut b = base.clone();
    b.insert(path(&level0), GameDataValue::String("7".into()));
    let pa = diff(base.clone(), a);
    let pb = diff(base.clone(), b);
    let sources = vec![("a".to_string(), pa), ("b".to_string(), pb)];
    let (merged, conflicts) = try_merge_skill_patches(&sources);
    assert!(merged.entries.is_empty());
    assert_eq!(conflicts.entries.len(), 2);
    assert_eq!(conflicts.entries[1].0, path(&level1));
    assert_eq!(conflicts.entries[1].1.len(), 1);
    // the generic rule settles the level changed by one source only
    let (merged, conflicts) = try_merge_patches(&sources);
    assert_eq!(merged.entries.len(), 1);
    assert_eq!(conflicts.entries.len(), 1);
}

#[test]
fn resolution_errors() {
    let p = path(&["k"]);
    let conflicts = Conflicts {
        entries: vec![(
            p.clone(),
            vec![
                ("a".to_string(), ItemChange::Removed),
                ("b".to_string(), ItemChange::SetTo(GameDataValue::Int(1))),
            ],
        )],
    };
    let empty = Patch { entries: vec![] };
    assert_eq!(
        merge_resolved(&conflicts, empty.clone(), empty.clone()),
        Err(ResolveError::Unresolved)
    );
    let merged = Patch { entries: vec![(p.clone(), ItemChange::SetTo(GameDataValue::Int(2)))] };
    let answer = Patch { entries: vec![(p.clone(), ItemChange::SetTo(GameDataValue::Int(3)))] };
    assert_eq!(merge_resolved(&conflicts, merged, answer.clone()), Err(ResolveError::Disagreement));
    assert_eq!(merge_resolved(&conflicts, empty, answer.clone()), Ok(answer));
}

#[test]
fn merge_is_order_independent_for_disjoint_sources() {
    let a = Patch { entries: vec![(path(&["a"]), ItemChange::Removed)] };
    let b = Patch { entries: vec![(path(&["b"]), ItemChange::SetTo(GameDataValue::Bool(true)))] };
    let ab = try_merge_patches(&vec![("a".to_string(), a.clone()), ("b".to_string(), b.clone())]);
    let ba = try_merge_patches(&vec![("b".to_string(), b), ("a".to_string(), a)]);
    assert_eq!(ab, ba);
    assert_eq!(ab.0.entries.len(), 2);
}
