use darkest_dungeon_mod_bundler::chain::{linked_map, list_from_map, ChainError};
use darkest_dungeon_mod_bundler::diff::diff;
use darkest_dungeon_mod_bundler::map::{DataMap, Patch};
use darkest_dungeon_mod_bundler::merge::try_merge_patches;
use darkest_dungeon_mod_bundler::value::{GameDataValue, ItemChange};

fn list(items: &[&str]) -> Vec<String> {
    items.iter().map(|s| s.to_string()).collect()
}

fn path(items: &[&str]) -> Vec<String> {
    list(items)
}

#[test]
fn independent_insertions_merge_into_one_chain() {
    let base = linked_map(&list(&["a", "b", "c"]));
    let first = diff(base.clone(), linked_map(&list(&["a", "x", "b", "c"])));
    let second = diff(base.clone(), linked_map(&list(&["a", "b", "y", "c"])));
    let (merged, conflicts) =
        try_merge_patches(&vec![("first".to_string(), first), ("second".to_string(), second)]);
    assert!(conflicts.entries.is_empty());
    let mut result = base;
    result.apply_patch(merged);
    assert_eq!(list_from_map(&result), Ok(list(&["a", "x", "b", "y", "c"])));
}

#[test]
fn insertions_at_the_same_point_conflict() {
    let base = linked_map(&list(&["a", "b"]));
    let first = diff(base.clone(), linked_map(&list(&["a", "x", "b"])));
    let second = diff(base.clone(), linked_map(&list(&["a", "y", "b"])));
    let (merged, conflicts) =
        try_merge_patches(&vec![("first".to_string(), first), ("second".to_string(), second)]);
    assert_eq!(conflicts.entries.len(), 1);
    assert_eq!(conflicts.entries[0].0, path(&["a"]));
    assert_eq!(conflicts.entries[0].1.len(), 2);
    assert!(merged.entries.iter().all(|(p, _)| *p != path(&["a"])));
}

#[test]
fn chain_round_trip() {
    let items = list(&["tag1", "tag0", "z", "m"]);
    let map = linked_map(&items);
    assert_eq!(map.entries.len(), 5);
    assert_eq!(list_from_map(&map), Ok(items));
    assert_eq!(list_from_map(&linked_map(&Vec::new())), Ok(Vec::new()));
}

#[test]
fn chain_errors() {
    let mut cyclic = DataMap::new();
    cyclic.insert(path(&[]), GameDataValue::Next(Some("a".into())));
    cyclic.insert(path(&["a"]), GameDataValue::Next(Some("a".into())));
    assert_eq!(list_from_map(&cyclic), Err(ChainError::Cycle));

    let mut headless = DataMap::new();
    headless.insert(path(&["a"]), GameDataValue::Next(None));
    assert_eq!(list_from_map(&headless), Err(ChainError::MissingLink));

    let mut not_link = DataMap::new();
    not_link.insert(path(&[]), GameDataValue::Int(3));
    assert_eq!(list_from_map(&not_link), Err(ChainError::NotALink));

    let mut extra = linked_map(&list(&["a"]));
    extra.insert(path(&["b"]), GameDataValue::Next(None));
    assert_eq!(list_from_map(&extra), Err(ChainError::Unreachable));
}

#[test]
fn diff_of_map_with_itself_is_empty() {
    let map = linked_map(&list(&["a", "b"]));
    assert_eq!(diff(map.clone(), map), Patch { entries: Vec::new() });
}

#[test]
fn diff_then_apply_gives_target() {
    let mut base = DataMap::new();
    base.insert(path(&["a"]), GameDataValue::Int(1));
    base.insert(path(&["b"]), GameDataValue::Bool(true));
    base.insert(path(&["z"]), GameDataValue::String("old".into()));
    let mut target = DataMap::new();
    target.insert(path(&["a"]), GameDataValue::Int(2));
    target.insert(path(&["b"]), GameDataValue::Bool(true));
    target.insert(path(&["c", "d"]), GameDataValue::String("new".into()));
    let patch = diff(base.clone(), target.clone());
    assert_eq!(
        patch.entries,
        vec![
            (path(&["a"]), ItemChange::SetTo(GameDataValue::Int(2))),
            (path(&["c", "d"]), ItemChange::SetTo(GameDataValue::String("new".into()))),
            (path(&["z"]), ItemChange::Removed),
        ]
    );
    base.apply_patch(patch);
    assert_eq!(base, target);
}

