use hugr::dump::{split_name, ExtArgs};
use hugr::extension_set::ExtensionId;

#[test]
fn names_are_split_at_their_dots() {
    assert_eq!(split_name("foo.bar.baz"), vec!["foo", "bar", "baz"]);
    assert_eq!(split_name("prelude"), vec!["prelude"]);
    assert_eq!(split_name("a."), vec!["a", ""]);
    assert_eq!(split_name(""), vec![""]);
}

#[test]
fn extensions_go_to_files_by_their_names() {
    let args = ExtArgs::new("OUTPUT".to_string());
    let registry = vec![
        (ExtensionId::new("foo.bar.baz"), "{\n  \"v\": 1\n}".to_string()),
        (ExtensionId::new("prelude"), "{}".to_string()),
    ];
    let files = args.run_dump(&registry);
    assert_eq!(files.len(), 2);
    assert_eq!(files[0].directory, vec!["OUTPUT", "foo", "bar"]);
    assert_eq!(files[0].file_name, "baz.json");
    assert_eq!(files[0].contents, "{\n  \"v\": 1\n}\n");
    assert_eq!(files[1].directory, vec!["OUTPUT"]);
    assert_eq!(files[1].file_name, "prelude.json");
    assert_eq!(files[1].contents, "{}\n");
}

#[test]
fn different_names_go_to_different_files() {
    let args = ExtArgs::new(".".to_string());
    let registry = vec![
        (ExtensionId::new("a.b"), String::new()),
        (ExtensionId::new("a.c"), String::new()),
        (ExtensionId::new("b"), String::new()),
    ];
    let files = args.run_dump(&registry);
    let places: Vec<(Vec<String>, String)> = files
        .into_iter()
        .map(|f| (f.directory, f.file_name))
        .collect();
    assert!(places[0] != places[1] && places[1] != places[2] && places[0] != places[2]);
}
