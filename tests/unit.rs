use unit_migrate::index::GlobalIndex;
use unit_migrate::unit::{attr_shard_dir, check_unit_dir, check_unit_refs, ShardListing, UnitEntry, UnitError};

fn p(s: &str) -> Vec<String> {
    if s.is_empty() {
        return Vec::new();
    }
    s.split('/').map(String::from).collect()
}

fn entry(name: &str) -> UnitEntry {
    UnitEntry { name: name.to_string(), is_dir: true, has_entry_file: true }
}

fn shard(name: &str, entries: Vec<UnitEntry>) -> ShardListing {
    ShardListing { name: name.to_string(), is_dir: true, entries }
}

#[test]
fn shard_names() {
    assert_eq!(attr_shard_dir(&"Hello".to_string()), "he");
    assert_eq!(attr_shard_dir(&"x".to_string()), "x");
    assert_eq!(attr_shard_dir(&"ABC-d".to_string()), "ab");
}

#[test]
fn well_formed_store_passes() {
    let listing = vec![shard("he", vec![entry("hello"), entry("Hex_2")]), shard("zs", vec![entry("zsh")])];
    assert!(check_unit_dir(&listing).is_ok());
}

#[test]
fn empty_shard_fails() {
    let listing = vec![shard("he", vec![entry("hello")]), shard("zs", vec![])];
    assert!(matches!(check_unit_dir(&listing), Err(UnitError::EmptyShard { shard }) if shard == "zs"));
}

#[test]
fn invalid_character_fails() {
    let listing = vec![shard("he", vec![entry("he@llo")])];
    assert!(matches!(
        check_unit_dir(&listing),
        Err(UnitError::InvalidCharacter { c: '@', .. })
    ));
}

#[test]
fn wrong_shard_fails() {
    let listing = vec![shard("ha", vec![entry("hello")])];
    assert!(matches!(
        check_unit_dir(&listing),
        Err(UnitError::WrongShard { shard, entry }) if shard == "ha" && entry == "hello"
    ));
}

#[test]
fn shape_errors() {
    let not_dir = vec![ShardListing { name: "he".to_string(), is_dir: false, entries: vec![] }];
    assert!(matches!(check_unit_dir(&not_dir), Err(UnitError::ShardNotDirectory { .. })));
    let file = vec![shard("he", vec![UnitEntry { name: "hello".to_string(), is_dir: false, has_entry_file: false }])];
    assert!(matches!(check_unit_dir(&file), Err(UnitError::NotDirectory { .. })));
    let missing = vec![shard("he", vec![UnitEntry { name: "hello".to_string(), is_dir: true, has_entry_file: false }])];
    assert!(matches!(check_unit_dir(&missing), Err(UnitError::MissingEntryFile { .. })));
}

#[test]
fn reference_across_the_unit_bound_fails() {
    let mut g = GlobalIndex::new(vec![
        p(""),
        p("pkgs"),
        p("pkgs/unit"),
        p("pkgs/unit/he"),
        p("pkgs/unit/he/hello"),
        p("pkgs/unit/he/hello/pkg-fun.nix"),
        p("pkgs/other.nix"),
    ]);
    let other = g.find(&p("pkgs/other.nix")).unwrap();
    g.add_source(other, &"import ./unit/he/hello/pkg-fun.nix".to_string());
    let listing = vec![shard("he", vec![entry("hello")])];
    assert!(check_unit_dir(&listing).is_ok());
    match check_unit_refs(&listing, &p("pkgs/unit"), &g) {
        Err(UnitError::CrossesBoundary { unit, by, index }) => {
            assert_eq!(unit, p("pkgs/unit/he/hello"));
            assert_eq!(by, other);
            assert_eq!(index, 0);
        }
        _ => panic!("the reference must be refused"),
    }
    let inner = g.find(&p("pkgs/unit/he/hello/pkg-fun.nix")).unwrap();
    let mut h = GlobalIndex::new(g.paths.clone());
    h.add_source(inner, &"import ./pkg-fun.nix".to_string());
    assert!(check_unit_refs(&listing, &p("pkgs/unit"), &h).is_ok());
}


