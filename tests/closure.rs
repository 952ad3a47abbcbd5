use unit_migrate::closure::{check_closure, Rejection};
use unit_migrate::index::{GlobalIndex, Note};
use unit_migrate::migrate::{claim_files, plan_migration, MigrationError};

fn p(s: &str) -> Vec<String> {
    if s.is_empty() {
        return Vec::new();
    }
    s.split('/').map(String::from).collect()
}

const CATALOG: &str = "pkgs/top-level/all-packages.nix";
const CATALOG_TEXT: &str = "{ callPackage }:\n{\n  hello = callPackage ../hello { };\n}\n";

fn build(files: &[(&str, &str)]) -> GlobalIndex {
    let mut paths: Vec<Vec<String>> = vec![p(""), p("pkgs"), p("pkgs/top-level"), p(CATALOG), p("pkgs/hello")];
    for (path, _) in files {
        paths.push(p(path));
    }
    let mut sources: Vec<(Vec<String>, String)> = vec![(p(CATALOG), CATALOG_TEXT.to_string())];
    for (path, text) in files {
        sources.push((p(path), text.to_string()));
    }
    let (g, notes) = GlobalIndex::from_sources(paths, &sources);
    assert_eq!(notes.len(), sources.len());
    assert!(notes.iter().all(|n| n.is_empty()));
    g
}

#[test]
fn self_contained_package_moves() {
    let g = build(&[
        ("pkgs/hello/default.nix", "{ }: import ./helper.nix"),
        ("pkgs/hello/helper.nix", "{ }"),
        ("pkgs/other.nix", "{ }"),
    ]);
    let catalog = g.find(&p(CATALOG)).unwrap();
    let (entry, moves) = plan_migration(&g, catalog, &"hello".to_string(), 3, &"../hello".to_string(), &p("pkgs/unit"))
        .ok()
        .unwrap();
    assert_eq!(g.paths[entry], p("pkgs/hello/default.nix"));
    assert_eq!(moves.len(), 2);
    assert_eq!(moves[0].from, p("pkgs/hello/default.nix"));
    assert_eq!(moves[0].to, p("pkgs/unit/he/hello/pkg-fun.nix"));
    assert_eq!(moves[1].from, p("pkgs/hello/helper.nix"));
    assert_eq!(moves[1].to, p("pkgs/unit/he/hello/helper.nix"));
}

#[test]
fn outside_reference_blocks_the_move() {
    let g = build(&[
        ("pkgs/hello/default.nix", "{ }: import ./helper.nix"),
        ("pkgs/hello/helper.nix", "{ }"),
        ("pkgs/other.nix", "{\n  x = import ./hello/helper.nix;\n}"),
    ]);
    let catalog = g.find(&p(CATALOG)).unwrap();
    let entry = g.find(&p("pkgs/hello/default.nix")).unwrap();
    let other = g.find(&p("pkgs/other.nix")).unwrap();
    match check_closure(&g, catalog, 3, entry) {
        Err(Rejection::ReferencedFromOutside { file, by, index }) => {
            assert_eq!(g.paths[file], p("pkgs/hello/helper.nix"));
            assert_eq!(by, other);
            assert_eq!(g.path_indices[by].references[index].line, 2);
        }
        _ => panic!("the move must be refused"),
    }
    match plan_migration(&g, catalog, &"hello".to_string(), 3, &"../hello".to_string(), &p("pkgs/unit")) {
        Err(MigrationError::Rejected(Rejection::ReferencedFromOutside { by, .. })) => assert_eq!(by, other),
        _ => panic!("the move must be refused"),
    }
}

#[test]
fn reference_leaving_the_directory_blocks_the_move() {
    let g = build(&[
        ("pkgs/hello/default.nix", "{ }: import ../other.nix"),
        ("pkgs/other.nix", "{ }"),
    ]);
    let catalog = g.find(&p(CATALOG)).unwrap();
    let entry = g.find(&p("pkgs/hello/default.nix")).unwrap();
    match check_closure(&g, catalog, 3, entry) {
        Err(Rejection::BreaksReference { file, index }) => {
            assert_eq!(file, entry);
            assert_eq!(index, 0);
        }
        _ => panic!("the move must be refused"),
    }
}

#[test]
fn declaration_on_another_line_is_not_found() {
    let g = build(&[("pkgs/hello/default.nix", "{ }")]);
    let catalog = g.find(&p(CATALOG)).unwrap();
    match plan_migration(&g, catalog, &"hello".to_string(), 7, &"../hello".to_string(), &p("pkgs/unit")) {
        Err(MigrationError::Unresolved) => {}
        _ => panic!("no declaration is on that line"),
    }
}

#[test]
fn graph_records_references_and_referrers() {
    let g = build(&[("pkgs/hello/default.nix", "{ }: import ./helper.nix"), ("pkgs/hello/helper.nix", "{ }")]);
    let catalog = g.find(&p(CATALOG)).unwrap();
    let entry = g.find(&p("pkgs/hello/default.nix")).unwrap();
    let helper = g.find(&p("pkgs/hello/helper.nix")).unwrap();
    let dir = g.find(&p("pkgs/hello")).unwrap();
    let top = g.find(&p("pkgs/top-level")).unwrap();
    let refs = &g.path_indices[catalog].references;
    assert_eq!(refs.len(), 1);
    assert_eq!(refs[0].line, 3);
    assert_eq!(refs[0].text, "../hello");
    assert_eq!(refs[0].movable_ancestor, p("pkgs"));
    assert_eq!(refs[0].rel_to_root, p("pkgs/hello/default.nix"));
    assert_eq!(g.path_indices[entry].referenced_by, vec![(catalog, 0), (entry, 0)]);
    assert_eq!(g.path_indices[helper].referenced_by, vec![(entry, 0)]);
    assert_eq!(g.path_indices[dir].referenced_by, vec![(catalog, 0), (entry, 0)]);
    assert_eq!(g.path_indices[top].referenced_by, vec![(catalog, 0), (catalog, 0)]);
}

#[test]
fn skipped_paths_are_noted() {
    let mut g = GlobalIndex::new(vec![p(""), p("a.nix")]);
    let id = g.find(&p("a.nix")).unwrap();
    let notes = g.add_source(id, &"[ ./x/${y} <nixpkgs> ./missing.nix ]".to_string());
    assert_eq!(notes.len(), 3);
    assert!(matches!(notes[0], Note::Interpolated { line: 1, .. }));
    assert!(matches!(notes[1], Note::SearchPath { line: 1, .. }));
    assert!(matches!(notes[2], Note::Unresolved { line: 1, .. }));
    assert!(g.path_indices[id].references.is_empty());
    let notes = g.add_source(id, &"{ ".to_string());
    assert!(matches!(notes[0], Note::Unparseable(_)));
}

#[test]
fn declaration_of_the_root_is_refused() {
    let mut g = GlobalIndex::new(vec![p(""), p("pkgs"), p("pkgs/top-level"), p(CATALOG)]);
    let catalog = g.find(&p(CATALOG)).unwrap();
    let notes = g.add_source(catalog, &"{\n  all = callPackage ../.. { };\n}\n".to_string());
    assert!(notes.is_empty());
    match plan_migration(&g, catalog, &"all".to_string(), 2, &"../..".to_string(), &p("pkgs/unit")) {
        Err(MigrationError::TargetIsRoot) => {}
        _ => panic!("the root cannot move"),
    }
}

#[test]
fn overlapping_closures_are_claimed_once() {
    let mut claimed = vec![false; 5];
    assert!(claim_files(&mut claimed, &vec![1, 3]));
    assert_eq!(claimed, vec![false, true, false, true, false]);
    assert!(!claim_files(&mut claimed, &vec![0, 3]));
    assert_eq!(claimed, vec![false, true, false, true, false]);
    assert!(claim_files(&mut claimed, &vec![0, 4]));
    assert_eq!(claimed, vec![true, true, false, true, true]);
}

#[test]
fn sources_outside_the_tree_are_skipped() {
    let (g, notes) = GlobalIndex::from_sources(
        vec![p(""), p("a.nix"), p("b.nix")],
        &vec![(p("missing.nix"), "./a.nix".to_string()), (p("b.nix"), "./a.nix".to_string())],
    );
    assert!(notes[0].is_empty());
    let a = g.find(&p("a.nix")).unwrap();
    let b = g.find(&p("b.nix")).unwrap();
    assert_eq!(g.path_indices[b].references.len(), 1);
    assert_eq!(g.path_indices[a].referenced_by, vec![(b, 0)]);
    assert_eq!(g.path_indices[b].referenced_by, vec![(b, 0)]);
}
