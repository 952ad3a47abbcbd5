use unit_migrate::all_packages::{AllPackages, CatalogError, CatalogNote};
use unit_migrate::editor::merge_whitespace;

const TEXT: &str = "{ lib, callPackage }:\n\nwith lib;\n\n{\n  a = callPackage ./a { };\n\n  b = callPackage ../b { };\n  c = callPackage ./c { };\n  d = callPackage ./d { x = 1; };\n  e = import ./e;\n  f.g = callPackage ./f { };\n  \"h\" = callPackage ./h { };\n  i = callPackage ./i/${j} { };\n}\n";

fn catalog(text: &str) -> AllPackages {
    match AllPackages::new(&text.to_string()) {
        Ok((ap, _)) => ap,
        Err(_) => panic!("the file must parse"),
    }
}

fn names(ap: &AllPackages) -> Vec<String> {
    ap.names.clone()
}

#[test]
fn forwarding_declarations_are_collected() {
    let (ap, notes) = match AllPackages::new(&TEXT.to_string()) {
        Ok(r) => r,
        Err(_) => panic!("the file must parse"),
    };
    assert_eq!(names(&ap), vec!["a", "b", "c"]);
    let a = ap.entries.get("a").unwrap();
    assert_eq!(a.line, 6);
    assert_eq!(a.path, "./a");
    let b = ap.entries.get("b").unwrap();
    assert_eq!(b.line, 8);
    assert_eq!(b.path, "../b");
    assert!(ap.entries.get("d").is_none());
    assert!(ap.entries.get("e").is_none());
    assert_eq!(notes.len(), 2);
    assert!(matches!(&notes[0], CatalogNote::AttributePath { line: 12, text } if text == "f.g"));
    assert!(matches!(&notes[1], CatalogNote::NotIdentifier { line: 13, text } if text == "\"h\""));
}

#[test]
fn catalog_errors() {
    assert!(matches!(AllPackages::new(&"{ a = ".to_string()), Err(CatalogError::Unparseable(_))));
    assert!(matches!(AllPackages::new(&"[ 1 2 ]".to_string()), Err(CatalogError::NoAttributeSet)));
}

#[test]
fn removal_collapses_whitespace() {
    let mut ap = catalog(TEXT);
    assert!(ap.remove(&"b".to_string()));
    assert!(!ap.remove(&"zz".to_string()));
    let (out, unnormalised) = ap.render();
    assert!(unnormalised.is_empty());
    let expected = TEXT.replace("  b = callPackage ../b { };\n", "");
    assert_eq!(out, expected);
    let again = catalog(&out);
    assert_eq!(names(&again), vec!["a", "c"]);
    assert_eq!(again.entries.get("a").unwrap().path, "./a");
    assert_eq!(again.entries.get("c").unwrap().path, "./c");
}

#[test]
fn removal_keeps_the_larger_blank_run() {
    let mut ap = catalog(TEXT);
    ap.remove(&"a".to_string());
    let out = ap.render().0;
    let expected = TEXT.replace("{\n  a = callPackage ./a { };\n\n  b", "{\n\n  b");
    assert_eq!(out, expected);
}

#[test]
fn several_removals_apply_from_the_last() {
    let mut ap = catalog(TEXT);
    ap.remove(&"a".to_string());
    ap.remove(&"c".to_string());
    ap.remove(&"b".to_string());
    let out = ap.render().0;
    let expected = TEXT
        .replace("  a = callPackage ./a { };\n\n  b = callPackage ../b { };\n  c = callPackage ./c { };\n", "\n");
    assert_eq!(out, expected);
    assert!(names(&catalog(&out)).is_empty());
}

#[test]
fn adjacent_comment_leaves_a_placeholder() {
    let text = "{\n  a = callPackage ./a { }; # keep\n  b = callPackage ./b { };\n}\n";
    let mut ap = catalog(text);
    ap.remove(&"a".to_string());
    assert_eq!(ap.render().0, "{\n  /* a = <moved> */ # keep\n  b = callPackage ./b { };\n}\n");
}

#[test]
fn entry_without_whitespace_is_dropped() {
    let mut ap = catalog("{a = callPackage ./a { };}");
    ap.remove(&"a".to_string());
    let (text, unnormalised) = ap.render();
    assert_eq!(text, "{}");
    assert_eq!(unnormalised, vec!["a".to_string()]);
}

#[test]
fn nothing_queued_renders_the_same_text() {
    let ap = catalog(TEXT);
    assert_eq!(ap.render().0, TEXT);
}

#[test]
fn merged_whitespace_counts() {
    let m = merge_whitespace(&"\n\n  ".to_string(), &"\n  ".to_string());
    assert_eq!(m, "\n\n  ");
    let m = merge_whitespace(&"\n".to_string(), &"\n\n\n    ".to_string());
    assert_eq!(m, "\n\n\n    ");
    let m = merge_whitespace(&" \n \n ".to_string(), &" \n".to_string());
    assert_eq!(m, " \n \n");
}
