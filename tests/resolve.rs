use unit_migrate::index::{resolve_reference, GlobalIndex, ResolveFailure};
use unit_migrate::line_index::LineIndex;
use unit_migrate::path::split_pieces;

fn p(s: &str) -> Vec<String> {
    if s.is_empty() {
        return Vec::new();
    }
    s.split('/').map(String::from).collect()
}

fn tree(paths: &[&str]) -> GlobalIndex {
    GlobalIndex::new(paths.iter().map(|s| p(s)).collect())
}

fn sample() -> GlobalIndex {
    tree(&[
        "",
        "a",
        "a/b",
        "a/b/f.nix",
        "a/b/x.nix",
        "a/x.nix",
        "a/b/d",
        "a/b/d/default.nix",
        "a/b/e",
        "a/b/e/g.nix",
    ])
}

#[test]
fn resolve_beside_the_file() {
    let g = sample();
    let r = resolve_reference(&p("a/b/f.nix"), "./x.nix", &g).ok().unwrap();
    assert_eq!(r.movable_ancestor, p("a/b"));
    assert_eq!(r.rel_to_root, p("a/b/x.nix"));
    assert_eq!(g.paths[r.target], p("a/b/x.nix"));
}

#[test]
fn resolve_one_level_up() {
    let g = sample();
    let r = resolve_reference(&p("a/b/f.nix"), "../x.nix", &g).ok().unwrap();
    assert_eq!(r.movable_ancestor, p("a"));
    assert_eq!(r.rel_to_root, p("a/x.nix"));
}

#[test]
fn resolve_rejects_root_escape() {
    let g = sample();
    let e = resolve_reference(&p("a/b/f.nix"), "../../../x.nix", &g).err().unwrap();
    assert_eq!(e.failure, ResolveFailure::EscapesRoot);
    let e = resolve_reference(&p("a/f.nix"), "../../x.nix", &g).err().unwrap();
    assert_eq!(e.failure, ResolveFailure::EscapesRoot);
}

#[test]
fn resolve_rejects_interleaved_parent() {
    let g = sample();
    let e = resolve_reference(&p("a/b/f.nix"), "./e/../x.nix", &g).err().unwrap();
    assert_eq!(e.failure, ResolveFailure::InterleavedParent);
    let e = resolve_reference(&p("a/b/f.nix"), "./e/../missing.nix", &g).err().unwrap();
    assert_eq!(e.failure, ResolveFailure::InterleavedParent);
}

#[test]
fn resolve_substitutes_index_file() {
    let g = sample();
    let r = resolve_reference(&p("a/b/f.nix"), "./d", &g).ok().unwrap();
    assert_eq!(r.rel_to_root, p("a/b/d/default.nix"));
    assert_eq!(r.movable_ancestor, p("a/b"));
    assert_eq!(r.pieces, vec![".".to_string(), "d".to_string(), "default.nix".to_string()]);
    let r = resolve_reference(&p("a/b/f.nix"), "./e", &g).ok().unwrap();
    assert_eq!(r.rel_to_root, p("a/b/e"));
}

#[test]
fn resolve_rejects_absolute_and_unknown() {
    let g = sample();
    let e = resolve_reference(&p("a/b/f.nix"), "/etc/x.nix", &g).err().unwrap();
    assert_eq!(e.failure, ResolveFailure::Absolute);
    let e = resolve_reference(&p("a/b/f.nix"), "./missing/y.nix", &g).err().unwrap();
    assert_eq!(e.failure, ResolveFailure::Unknown);
    assert_eq!(e.path, p("a/b/missing"));
}

#[test]
fn resolve_to_the_root() {
    let g = sample();
    let r = resolve_reference(&p("a/b/f.nix"), "../..", &g).ok().unwrap();
    assert_eq!(r.rel_to_root, Vec::<String>::new());
    assert_eq!(r.movable_ancestor, Vec::<String>::new());
}

#[test]
fn index_holds_each_path_once() {
    let g = tree(&["", "a", "a", "a/b.nix"]);
    assert_eq!(g.paths.len(), 3);
    assert_eq!(g.find(&p("a/b.nix")), Some(2));
    assert_eq!(g.find(&p("a/c.nix")), None);
}

#[test]
fn pieces_split_at_slashes() {
    assert_eq!(split_pieces("./a//b/"), vec![".", "a", "", "b", ""]);
    assert_eq!(split_pieces(""), vec![""]);
    assert_eq!(split_pieces("../x"), vec!["..", "x"]);
}

#[test]
fn lines_of_offsets() {
    let text = String::from("ab\ncd\n\nef");
    let li = LineIndex::new(&text);
    assert_eq!(li.line(0), 1);
    assert_eq!(li.line(2), 1);
    assert_eq!(li.line(3), 2);
    assert_eq!(li.line(6), 3);
    assert_eq!(li.line(7), 4);
    assert_eq!(li.line(100), 4);
}
