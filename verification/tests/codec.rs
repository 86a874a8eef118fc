//! Tests for the descriptor model and its wire codec: the round-trip law on
//! concrete descriptors, and rejection of malformed encodings.

use protobuf_native::descriptor::{DescriptorProto, FileDescriptorProto, FileDescriptorSet};

fn sample_file() -> FileDescriptorProto {
    let mut fd = FileDescriptorProto::new();
    fd.set_name(b"root.proto".to_vec());
    fd.add_dependency(b"a.proto".to_vec());
    fd.add_dependency(b"b/c.proto".to_vec());
    let mut m1 = DescriptorProto::new();
    m1.set_name(b"First".to_vec());
    fd.add_message_type(m1);
    let mut m2 = DescriptorProto::new();
    m2.set_name(b"Second".to_vec());
    fd.add_message_type(m2);
    fd
}

fn assert_files_equal(a: &FileDescriptorProto, b: &FileDescriptorProto) {
    assert_eq!(a.name(), b.name());
    assert_eq!(a.dependency_size(), b.dependency_size());
    for i in 0..a.dependency_size() {
        assert_eq!(a.dependency(i), b.dependency(i));
    }
    assert_eq!(a.message_type_size(), b.message_type_size());
    for i in 0..a.message_type_size() {
        assert_eq!(a.message_type(i).name(), b.message_type(i).name());
    }
}

#[test]
fn test_file_round_trip() {
    let fd = sample_file();
    let bytes = fd.serialize();
    let back = FileDescriptorProto::deserialize(&bytes).unwrap();
    assert_files_equal(&fd, &back);
}

#[test]
fn test_empty_file_round_trip() {
    let fd = FileDescriptorProto::new();
    let bytes = fd.serialize();
    let back = FileDescriptorProto::deserialize(&bytes).unwrap();
    assert_files_equal(&fd, &back);
}

#[test]
fn test_set_round_trip() {
    let mut set = FileDescriptorSet::new();
    set.push_file(sample_file());
    let mut other = FileDescriptorProto::new();
    other.set_name(b"a.proto".to_vec());
    set.push_file(other);
    let bytes = set.serialize().unwrap();
    assert!(bytes.len() > 0);
    let back = FileDescriptorSet::deserialize(&bytes).unwrap();
    assert_eq!(back.file_size(), 2);
    assert_files_equal(set.file(0), back.file(0));
    assert_files_equal(set.file(1), back.file(1));
}

#[test]
fn test_empty_set_round_trip() {
    let set = FileDescriptorSet::new();
    let bytes = set.serialize().unwrap();
    assert_eq!(bytes.len(), 0);
    let back = FileDescriptorSet::deserialize(&bytes).unwrap();
    assert_eq!(back.file_size(), 0);
}

#[test]
fn test_deserialize_rejects_garbage() {
    assert!(FileDescriptorProto::deserialize(&b"not a descriptor".to_vec()).is_err());
    assert!(FileDescriptorSet::deserialize(&vec![0xffu8, 0xff]).is_err());
}

#[test]
fn test_deserialize_rejects_truncation() {
    let fd = sample_file();
    let mut bytes = fd.serialize();
    bytes.pop();
    assert!(FileDescriptorProto::deserialize(&bytes).is_err());
}

#[test]
fn test_copy_from() {
    let fd = sample_file();
    let mut copy = FileDescriptorProto::new();
    copy.set_name(b"other.proto".to_vec());
    copy.copy_from(&fd);
    assert_files_equal(&fd, &copy);
}

#[test]
fn test_merge_from() {
    let mut base = FileDescriptorProto::new();
    base.set_name(b"base.proto".to_vec());
    base.add_dependency(b"one.proto".to_vec());
    let mut from = FileDescriptorProto::new();
    from.add_dependency(b"two.proto".to_vec());
    let mut m = DescriptorProto::new();
    m.set_name(b"Added".to_vec());
    from.add_message_type(m);
    base.merge_from(&from);
    // The empty incoming name leaves the name alone; repeated fields append.
    assert_eq!(base.name(), &b"base.proto".to_vec());
    assert_eq!(base.dependency_size(), 2);
    assert_eq!(base.dependency(0), &b"one.proto".to_vec());
    assert_eq!(base.dependency(1), &b"two.proto".to_vec());
    assert_eq!(base.message_type_size(), 1);
    assert_eq!(base.message_type(0).name(), &b"Added".to_vec());

    let mut renamer = FileDescriptorProto::new();
    renamer.set_name(b"new.proto".to_vec());
    base.merge_from(&renamer);
    assert_eq!(base.name(), &b"new.proto".to_vec());
}

#[test]
fn test_set_accessors() {
    let mut set = FileDescriptorSet::new();
    assert_eq!(set.file_size(), 0);
    set.push_file(sample_file());
    assert_eq!(set.file_size(), 1);
    set.file_mut(0).set_name(b"renamed.proto".to_vec());
    assert_eq!(set.file(0).name(), &b"renamed.proto".to_vec());
    let fresh = set.add_file();
    fresh.set_name(b"added.proto".to_vec());
    assert_eq!(set.file_size(), 2);
    assert_eq!(set.file(1).name(), &b"added.proto".to_vec());
    set.clear_file();
    assert_eq!(set.file_size(), 0);
}
