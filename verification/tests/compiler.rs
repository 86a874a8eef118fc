//! Tests for source trees, diagnostic collection, and the descriptor
//! database's transitive-closure resolution.

use protobuf_native::compiler::{
    DiskSourceTree, FileLoadError, Location, MultiFileErrorCollector, Severity,
    SimpleErrorCollector, SourceTree, SourceTreeDescriptorDatabase, VirtualSourceTree,
};

#[test]
fn test_virtual_tree_open() {
    let mut tree = VirtualSourceTree::new();
    tree.add_file(b"a.proto".to_vec(), b"syntax = \"proto3\";\n".to_vec());
    let content = tree.open(&b"a.proto".to_vec()).unwrap();
    assert_eq!(content, b"syntax = \"proto3\";\n".to_vec());
    let err = tree.open(&b"missing.proto".to_vec()).unwrap_err();
    assert_eq!(err.message().as_str(), "File not found.");
}

#[test]
fn test_virtual_tree_replaces() {
    let mut tree = VirtualSourceTree::new();
    tree.add_file(b"a.proto".to_vec(), b"old".to_vec());
    tree.add_file(b"a.proto".to_vec(), b"new".to_vec());
    assert_eq!(tree.open(&b"a.proto".to_vec()).unwrap(), b"new".to_vec());
}

/// Mapping precedence: with `bar -> foo/bar` added before `"" -> baz`,
/// opening `bar/qux` must try `foo/bar/qux` before `baz/bar/qux`.
#[test]
fn test_disk_tree_precedence() {
    let mut tree = DiskSourceTree::new();
    tree.map_path(b"bar".to_vec(), b"foo/bar".to_vec());
    tree.map_path(b"".to_vec(), b"baz".to_vec());
    let candidates = tree.candidates(&b"bar/qux".to_vec()).unwrap();
    assert_eq!(candidates.len(), 2);
    assert_eq!(candidates[0], b"foo/bar/qux".to_vec());
    assert_eq!(candidates[1], b"baz/bar/qux".to_vec());
}

#[test]
fn test_disk_tree_file_mapping() {
    let mut tree = DiskSourceTree::new();
    tree.map_path(b"x/y.proto".to_vec(), b"disk/yy.proto".to_vec());
    let candidates = tree.candidates(&b"x/y.proto".to_vec()).unwrap();
    assert_eq!(candidates, vec![b"disk/yy.proto".to_vec()]);
    // A prefix only matches at a slash boundary.
    let none = tree.candidates(&b"x/y.proto2".to_vec()).unwrap();
    assert_eq!(none.len(), 0);
}

/// A rejected path fails with the path-syntax error, distinct from the
/// not-found message, before any mapping is consulted.
#[test]
fn test_open_disallowed_path() {
    let tree = DiskSourceTree::new();
    let err = tree.candidates(&b"../protobuf/rejects/this".to_vec()).unwrap_err();
    assert_eq!(
        err.message().as_str(),
        r#"Backslashes, consecutive slashes, ".", or ".." are not allowed in the virtual path"#,
    );
}

#[test]
fn test_path_rejections() {
    let tree = DiskSourceTree::new();
    assert!(tree.candidates(&b"a\\b".to_vec()).is_err());
    assert!(tree.candidates(&b"a//b".to_vec()).is_err());
    assert!(tree.candidates(&b"a/./b".to_vec()).is_err());
    assert!(tree.candidates(&b"a/..".to_vec()).is_err());
    assert!(tree.candidates(&b".".to_vec()).is_err());
    assert!(tree.candidates(&b"ok/.hidden".to_vec()).is_ok());
    assert!(tree.candidates(&b"ok/a..b".to_vec()).is_ok());
}

/// Test the display format of `FileLoadError`.
#[test]
fn test_file_load_error_display() {
    struct TestCase {
        error: FileLoadError,
        expected: &'static str,
    }

    for test_case in [
        TestCase {
            error: FileLoadError {
                filename: b"test.proto".to_vec(),
                location: Some(Location { line: 1, column: 1 }),
                severity: Severity::Error,
                message: String::from("some error"),
            },
            expected: "test.proto:1:1: error: some error",
        },
        TestCase {
            error: FileLoadError {
                filename: b"test.proto".to_vec(),
                location: Some(Location { line: 1, column: 1 }),
                severity: Severity::Warning,
                message: String::from("some warning"),
            },
            expected: "test.proto:1:1: warning: some warning",
        },
        TestCase {
            error: FileLoadError {
                filename: b"test.proto".to_vec(),
                location: None,
                severity: Severity::Error,
                message: String::from("floating error"),
            },
            expected: "test.proto: error: floating error",
        },
    ] {
        assert_eq!(test_case.error.display_string().as_str(), test_case.expected);
    }
}

#[test]
fn test_collector_translates_positions() {
    let mut collector = SimpleErrorCollector::new();
    collector.add_error(&b"f.proto".to_vec(), 0, 4, String::from("bad"));
    collector.add_warning(&b"f.proto".to_vec(), -1, -1, String::from("odd"));
    let errors = collector.errors();
    assert_eq!(errors.len(), 2);
    assert_eq!(errors[0].severity, Severity::Error);
    assert_eq!(errors[0].location, Some(Location { line: 1, column: 5 }));
    assert_eq!(errors[1].severity, Severity::Warning);
    assert_eq!(errors[1].location, None);
}

/// Loading a malformed file fails and leaves an error diagnostic whose
/// position is 1-based and points at the malformed spot.
#[test]
fn test_load_parser_error() {
    let mut source_tree = VirtualSourceTree::new();
    source_tree.add_file(
        b"test.proto".to_vec(),
        b"\nsyntax = \"proto2\";\n\nmessage M {\n    f = 1;\n".to_vec(),
    );
    let mut db = SourceTreeDescriptorDatabase::new(source_tree);
    db.record_errors_to(SimpleErrorCollector::new());
    let res = db.find_file_by_name(&b"test.proto".to_vec());
    assert!(res.is_err());
    let collector = db.take_error_collector().unwrap();
    let errors = collector.errors();
    assert_eq!(errors.len(), 1);
    assert_eq!(errors[0].filename, b"test.proto".to_vec());
    assert_eq!(errors[0].severity, Severity::Error);
    assert_eq!(errors[0].location, Some(Location { line: 6, column: 1 }));
    assert_eq!(
        errors[0].message.as_str(),
        "Reached end of input in message definition (missing '}').",
    );
}

/// Loading a legal but badly styled file succeeds while leaving exactly one
/// warning diagnostic.
#[test]
fn test_load_warning() {
    let mut source_tree = VirtualSourceTree::new();
    source_tree.add_file(
        b"test.proto".to_vec(),
        b"\nsyntax = \"proto2\";\n\nmessage bad_to_the_bone {}\n".to_vec(),
    );
    let mut db = SourceTreeDescriptorDatabase::new(source_tree);
    db.record_errors_to(SimpleErrorCollector::new());
    let res = db.find_file_by_name(&b"test.proto".to_vec());
    assert!(res.is_ok());
    let fd = res.unwrap();
    assert_eq!(fd.message_type_size(), 1);
    assert_eq!(fd.message_type(0).name(), &b"bad_to_the_bone".to_vec());
    let collector = db.take_error_collector().unwrap();
    let errors = collector.errors();
    assert_eq!(errors.len(), 1);
    assert_eq!(errors[0].severity, Severity::Warning);
    assert_eq!(errors[0].location, Some(Location { line: 4, column: 9 }));
    assert_eq!(
        errors[0].message.as_str(),
        "Message name should be in UpperCamelCase.",
    );
}

#[test]
fn test_find_missing_file() {
    let source_tree = VirtualSourceTree::new();
    let mut db = SourceTreeDescriptorDatabase::new(source_tree);
    db.record_errors_to(SimpleErrorCollector::new());
    assert!(db.find_file_by_name(&b"absent.proto".to_vec()).is_err());
    let collector = db.take_error_collector().unwrap();
    let errors = collector.errors();
    assert_eq!(errors.len(), 1);
    assert_eq!(errors[0].severity, Severity::Error);
    assert_eq!(errors[0].location, None);
    assert_eq!(errors[0].message.as_str(), "File not found.");
}

#[test]
fn test_file_descriptor_set() {
    let mut source_tree = VirtualSourceTree::new();
    source_tree.add_file(
        b"imported.proto".to_vec(),
        b"\nsyntax = \"proto3\";\n\nmessage ImportMe {\n    int f = 1;\n}\n".to_vec(),
    );
    source_tree.add_file(
        b"root.proto".to_vec(),
        b"\nsyntax = \"proto3\";\n\nimport \"imported.proto\";\n\nmessage Test {\n    ImportMe im = 1;\n}\n"
            .to_vec(),
    );
    let mut db = SourceTreeDescriptorDatabase::new(source_tree);
    let fds = db.build_file_descriptor_set(&vec![b"root.proto".to_vec()]).unwrap();
    assert_eq!(fds.file_size(), 2);
    assert_eq!(fds.file(0).message_type_size(), 1);
    assert_eq!(fds.file(0).message_type(0).name(), &b"Test".to_vec());
    let out = fds.serialize().unwrap();
    assert!(out.len() > 0);
}

/// A diamond of imports yields each file exactly once, and every dependency
/// of an emitted file is itself in the set.
#[test]
fn test_resolution_dedup_and_closure() {
    let mut source_tree = VirtualSourceTree::new();
    source_tree.add_file(b"base.proto".to_vec(), b"message Base {}\n".to_vec());
    source_tree.add_file(
        b"left.proto".to_vec(),
        b"import \"base.proto\";\nmessage Left {}\n".to_vec(),
    );
    source_tree.add_file(
        b"right.proto".to_vec(),
        b"import \"base.proto\";\nmessage Right {}\n".to_vec(),
    );
    source_tree.add_file(
        b"top.proto".to_vec(),
        b"import \"left.proto\";\nimport \"right.proto\";\nmessage Top {}\n".to_vec(),
    );
    let mut db = SourceTreeDescriptorDatabase::new(source_tree);
    let fds = db
        .build_file_descriptor_set(&vec![b"top.proto".to_vec(), b"base.proto".to_vec()])
        .unwrap();
    assert_eq!(fds.file_size(), 4);
    let mut names: Vec<Vec<u8>> = Vec::new();
    for i in 0..fds.file_size() {
        names.push(fds.file(i).name().clone());
    }
    for i in 0..names.len() {
        for j in 0..names.len() {
            if i != j {
                assert_ne!(names[i], names[j]);
            }
        }
    }
    for i in 0..fds.file_size() {
        for k in 0..fds.file(i).dependency_size() {
            assert!(names.contains(fds.file(i).dependency(k)));
        }
    }
}

/// Duplicate roots still yield each file once.
#[test]
fn test_duplicate_roots() {
    let mut source_tree = VirtualSourceTree::new();
    source_tree.add_file(b"a.proto".to_vec(), b"message A {}\n".to_vec());
    let mut db = SourceTreeDescriptorDatabase::new(source_tree);
    let fds = db
        .build_file_descriptor_set(&vec![b"a.proto".to_vec(), b"a.proto".to_vec()])
        .unwrap();
    assert_eq!(fds.file_size(), 1);
}

/// Cyclic imports terminate and yield each file once.
#[test]
fn test_import_cycle() {
    let mut source_tree = VirtualSourceTree::new();
    source_tree.add_file(b"a.proto".to_vec(), b"import \"b.proto\";\n".to_vec());
    source_tree.add_file(b"b.proto".to_vec(), b"import \"a.proto\";\n".to_vec());
    let mut db = SourceTreeDescriptorDatabase::new(source_tree);
    let fds = db.build_file_descriptor_set(&vec![b"a.proto".to_vec()]).unwrap();
    assert_eq!(fds.file_size(), 2);
}

/// A missing transitive import aborts the whole call, but diagnostics
/// already collected persist.
#[test]
fn test_missing_import_aborts() {
    let mut source_tree = VirtualSourceTree::new();
    source_tree.add_file(b"root.proto".to_vec(), b"import \"gone.proto\";\n".to_vec());
    let mut db = SourceTreeDescriptorDatabase::new(source_tree);
    db.record_errors_to(SimpleErrorCollector::new());
    assert!(db.build_file_descriptor_set(&vec![b"root.proto".to_vec()]).is_err());
    let collector = db.take_error_collector().unwrap();
    let errors = collector.errors();
    assert_eq!(errors.len(), 1);
    assert_eq!(errors[0].filename, b"gone.proto".to_vec());
    assert_eq!(errors[0].message.as_str(), "File not found.");
}

/// The round trip holds for a descriptor set built by the resolver from
/// parsed files.
#[test]
fn test_resolved_set_round_trip() {
    let mut source_tree = VirtualSourceTree::new();
    source_tree.add_file(
        b"one.proto".to_vec(),
        b"import \"two.proto\";\nmessage One {}\n".to_vec(),
    );
    source_tree.add_file(b"two.proto".to_vec(), b"message Two {}\nmessage Blue {}\n".to_vec());
    let mut db = SourceTreeDescriptorDatabase::new(source_tree);
    let fds = db.build_file_descriptor_set(&vec![b"one.proto".to_vec()]).unwrap();
    let bytes = fds.serialize().unwrap();
    let back = protobuf_native::descriptor::FileDescriptorSet::deserialize(&bytes).unwrap();
    assert_eq!(back.file_size(), fds.file_size());
    for i in 0..fds.file_size() {
        assert_eq!(back.file(i).name(), fds.file(i).name());
        assert_eq!(back.file(i).dependency_size(), fds.file(i).dependency_size());
        assert_eq!(back.file(i).message_type_size(), fds.file(i).message_type_size());
    }
}

#[test]
fn test_severity_text() {
    assert_eq!(Severity::Error.as_text().as_str(), "error");
    assert_eq!(Severity::Warning.as_text().as_str(), "warning");
}

/// A missing root aborts resolution before any file is emitted.
#[test]
fn test_missing_root_aborts() {
    let source_tree = VirtualSourceTree::new();
    let mut db = SourceTreeDescriptorDatabase::new(source_tree);
    assert!(db.build_file_descriptor_set(&vec![b"noexist.proto".to_vec()]).is_err());
}

/// Resolution with no roots succeeds with an empty set.
#[test]
fn test_no_roots() {
    let source_tree = VirtualSourceTree::new();
    let mut db = SourceTreeDescriptorDatabase::new(source_tree);
    let fds = db.build_file_descriptor_set(&Vec::new()).unwrap();
    assert_eq!(fds.file_size(), 0);
}
