use dupdirs::clones::file::{File, JsonValue, ReportError};

fn s(t: &str) -> JsonValue {
    JsonValue::Str(t.to_owned())
}

fn obj(entries: Vec<(&str, JsonValue)>) -> JsonValue {
    JsonValue::Object(entries.into_iter().map(|(k, v)| (k.to_owned(), v)).collect())
}

fn file(entries: Vec<(&str, JsonValue)>) -> File {
    File::new(
        "dups.json".to_owned(),
        entries.into_iter().map(|(k, v)| (k.to_owned(), v)).collect(),
    )
}

fn group(len: Option<u64>, files: Vec<&str>) -> JsonValue {
    obj(vec![
        ("file_len", JsonValue::Number(len)),
        ("files", JsonValue::Array(files.into_iter().map(s).collect())),
    ])
}

#[test]
fn groups_are_read_and_small_ones_dropped() {
    let f = file(vec![
        ("header", obj(vec![])),
        (
            "groups",
            JsonValue::Array(vec![
                group(Some(100), vec!["/a/x", "/b/x"]),
                group(Some(7), vec!["/only"]),
            ]),
        ),
    ]);
    let groups = f.clone_groups("/").unwrap();
    assert_eq!(groups.len(), 1);
    assert_eq!(groups[0].0, 100);
    let paths: Vec<&str> = groups[0].1.iter().map(|p| p.as_path()).collect();
    assert_eq!(paths, vec!["/a/x", "/b/x"]);
}

#[test]
fn missing_or_malformed_sections_are_errors() {
    assert_eq!(file(vec![]).clone_groups("/").unwrap_err(), ReportError::MissingGroups);
    assert_eq!(file(vec![]).scanned_paths("/").unwrap_err(), ReportError::MissingHeader);
    let bad = |g: JsonValue| file(vec![("groups", JsonValue::Array(vec![g]))]).clone_groups("/").unwrap_err();
    assert_eq!(bad(s("x")), ReportError::BadGroup);
    assert_eq!(bad(obj(vec![("files", JsonValue::Array(vec![]))])), ReportError::MissingFileLen);
    assert_eq!(bad(group(None, vec!["/a"])), ReportError::BadFileLen);
    assert_eq!(bad(obj(vec![("file_len", JsonValue::Number(Some(1)))])), ReportError::MissingFiles);
    assert_eq!(
        bad(obj(vec![
            ("file_len", JsonValue::Number(Some(1))),
            ("files", JsonValue::Array(vec![JsonValue::Null])),
        ])),
        ReportError::BadFile
    );
}

#[test]
fn scanned_paths_are_resolved_against_base_dir() {
    let f = file(vec![(
        "header",
        obj(vec![
            ("base_dir", s("/base")),
            ("paths", JsonValue::Array(vec![s("sub"), s("/abs/dir")])),
        ]),
    )]);
    let set = f.scanned_paths("/").unwrap().unwrap();
    let paths: Vec<&str> = set.paths().iter().map(|p| p.as_path()).collect();
    assert_eq!(paths, vec!["/abs/dir", "/base/sub"]);
    let no_paths = file(vec![("header", obj(vec![]))]);
    assert!(no_paths.scanned_paths("/").unwrap().is_none());
    let no_base = file(vec![("header", obj(vec![("paths", JsonValue::Array(vec![]))]))]);
    assert_eq!(no_base.scanned_paths("/").unwrap_err(), ReportError::MissingBaseDir);
    let bad_path = file(vec![(
        "header",
        obj(vec![("base_dir", s("/")), ("paths", JsonValue::Array(vec![JsonValue::Bool(true)]))]),
    )]);
    assert_eq!(bad_path.scanned_paths("/").unwrap_err(), ReportError::BadScannedPath);
}

#[test]
fn relative_base_dir_is_read_from_the_working_directory() {
    let f = file(vec![(
        "header",
        obj(vec![("base_dir", s("")), ("paths", JsonValue::Array(vec![s(".")]))]),
    )]);
    let set = f.scanned_paths("/work").unwrap().unwrap();
    let paths: Vec<&str> = set.paths().iter().map(|p| p.as_path()).collect();
    assert_eq!(paths, vec!["/work"]);
    let g = file(vec![(
        "header",
        obj(vec![("base_dir", s("x")), ("paths", JsonValue::Array(vec![s(".."), s("/abs")]))]),
    )]);
    let set = g.scanned_paths("/work").unwrap().unwrap();
    let paths: Vec<&str> = set.paths().iter().map(|p| p.as_path()).collect();
    assert_eq!(paths, vec!["/abs", "/work"]);
}

#[test]
fn relative_members_are_read_from_the_working_directory() {
    let f = file(vec![
        ("header", obj(vec![])),
        ("groups", JsonValue::Array(vec![group(Some(5), vec!["a/x", "/b/x"])])),
    ]);
    let groups = f.clone_groups("/work").unwrap();
    let paths: Vec<&str> = groups[0].1.iter().map(|p| p.as_path()).collect();
    assert_eq!(paths, vec!["/work/a/x", "/b/x"]);
}

#[test]
fn groups_with_one_distinct_member_are_dropped() {
    let f = file(vec![
        ("header", obj(vec![])),
        ("groups", JsonValue::Array(vec![group(Some(5), vec!["/a/x", "/a/./x"])])),
    ]);
    assert!(f.clone_groups("/").unwrap().is_empty());
}
