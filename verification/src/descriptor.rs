//! The structured representation of parsed schema files: message-type
//! descriptors, file descriptors with their import dependencies, and ordered
//! sets of file descriptors.

use vstd::prelude::*;

verus! {

/// Mathematical model of a [`DescriptorProto`]: the message type's name.
pub struct DescriptorProtoView {
    pub name: Seq<u8>,
}

/// Mathematical model of a [`FileDescriptorProto`].
pub struct FileDescriptorProtoView {
    pub name: Seq<u8>,
    pub dependency: Seq<Seq<u8>>,
    pub message_type: Seq<DescriptorProtoView>,
}

/// Mathematical model of a [`FileDescriptorSet`]: the ordered files.
pub struct FileDescriptorSetView {
    pub file: Seq<FileDescriptorProtoView>,
}

/// Describes a message type: for this library, its name.
pub struct DescriptorProto {
    name: Vec<u8>,
}

impl View for DescriptorProto {
    type V = DescriptorProtoView;

    closed spec fn view(&self) -> DescriptorProtoView {
        DescriptorProtoView { name: self.name@ }
    }
}

impl Clone for DescriptorProto {
    fn clone(&self) -> (r: Self)
        ensures
            r@ == self@,
    {
        DescriptorProto { name: clone_bytes(&self.name) }
    }
}

impl DescriptorProto {
    /// Creates a descriptor for a message type with an empty name.
    pub fn new() -> (r: DescriptorProto)
        ensures
            r@.name == Seq::<u8>::empty(),
    {
        DescriptorProto { name: Vec::new() }
    }

    /// Sets the name of this message type.
    pub fn set_name(&mut self, name: Vec<u8>)
        ensures
            final(self)@.name == name@,
    {
        self.name = name;
    }

    /// Returns the name of this message type.
    pub fn name(&self) -> (r: &Vec<u8>)
        ensures
            r@ == self@.name,
    {
        &self.name
    }
}

/// Describes a complete schema file: its virtual path, the virtual paths it
/// imports, and its top-level message types.
pub struct FileDescriptorProto {
    name: Vec<u8>,
    dependency: Vec<Vec<u8>>,
    message_type: Vec<DescriptorProto>,
}

impl View for FileDescriptorProto {
    type V = FileDescriptorProtoView;

    closed spec fn view(&self) -> FileDescriptorProtoView {
        FileDescriptorProtoView {
            name: self.name@,
            dependency: Seq::new(self.dependency@.len(), |i: int| self.dependency@[i]@),
            message_type: Seq::new(self.message_type@.len(), |i: int| self.message_type@[i]@),
        }
    }
}

/// What [`FileDescriptorProto::merge_from`] leaves behind: the name is
/// overwritten when the merged-in file has one, and the repeated fields are
/// appended.
pub open spec fn spec_merge_file(
    base: FileDescriptorProtoView,
    from: FileDescriptorProtoView,
) -> FileDescriptorProtoView {
    FileDescriptorProtoView {
        name: if from.name.len() > 0 {
            from.name
        } else {
            base.name
        },
        dependency: base.dependency + from.dependency,
        message_type: base.message_type + from.message_type,
    }
}

impl Clone for FileDescriptorProto {
    fn clone(&self) -> (r: Self)
        ensures
            r@ == self@,
    {
        let mut dependency: Vec<Vec<u8>> = Vec::new();
        let mut i: usize = 0;
        while i < self.dependency.len()
            invariant
                i <= self.dependency.len(),
                dependency@.len() == i,
                forall|k: int| 0 <= k < i ==> dependency@[k]@ == self.dependency@[k]@,
            decreases self.dependency.len() - i,
        {
            dependency.push(clone_bytes(&self.dependency[i]));
            i += 1;
        }
        let mut message_type: Vec<DescriptorProto> = Vec::new();
        let mut j: usize = 0;
        while j < self.message_type.len()
            invariant
                j <= self.message_type.len(),
                message_type@.len() == j,
                forall|k: int| 0 <= k < j ==> message_type@[k]@ == self.message_type@[k]@,
            decreases self.message_type.len() - j,
        {
            message_type.push(self.message_type[j].clone());
            j += 1;
        }
        let r = FileDescriptorProto { name: clone_bytes(&self.name), dependency, message_type };
        proof {
            assert(r@.dependency =~= self@.dependency);
            assert(r@.message_type =~= self@.message_type);
            assert(r@ =~= self@);
        }
        r
    }
}

impl FileDescriptorProto {
    /// Creates an empty file descriptor.
    pub fn new() -> (r: FileDescriptorProto)
        ensures
            r@.name == Seq::<u8>::empty(),
            r@.dependency == Seq::<Seq<u8>>::empty(),
            r@.message_type == Seq::<DescriptorProtoView>::empty(),
    {
        let r = FileDescriptorProto { name: Vec::new(), dependency: Vec::new(), message_type: Vec::new() };
        proof {
            assert(r@.dependency =~= Seq::<Seq<u8>>::empty());
            assert(r@.message_type =~= Seq::<DescriptorProtoView>::empty());
        }
        r
    }

    /// Sets the virtual path this file was parsed from.
    pub fn set_name(&mut self, name: Vec<u8>)
        ensures
            final(self)@ == (FileDescriptorProtoView { name: name@, ..old(self)@ }),
    {
        self.name = name;
    }

    /// Returns the virtual path this file was parsed from.
    pub fn name(&self) -> (r: &Vec<u8>)
        ensures
            r@ == self@.name,
    {
        &self.name
    }

    /// Makes this file descriptor into a copy of the given file descriptor.
    pub fn copy_from(&mut self, from: &FileDescriptorProto)
        ensures
            final(self)@ == from@,
    {
        *self = from.clone();
    }

    /// Merges the fields of the given file descriptor into this one: repeated
    /// fields are appended, and a non-empty name overwrites this one's name.
    pub fn merge_from(&mut self, from: &FileDescriptorProto)
        ensures
            final(self)@ == spec_merge_file(old(self)@, from@),
    {
        let from_copy = from.clone();
        if from_copy.name.len() > 0 {
            self.name = from_copy.name;
        }
        let mut deps = from_copy.dependency;
        let mut msgs = from_copy.message_type;
        let ghost old_deps = self@.dependency;
        let ghost old_msgs = self@.message_type;
        self.dependency.append(&mut deps);
        self.message_type.append(&mut msgs);
        proof {
            assert(self@.dependency =~= old_deps + from@.dependency);
            assert(self@.message_type =~= old_msgs + from@.message_type);
            assert(self@ =~= spec_merge_file(old(self)@, from@));
        }
    }

    /// Returns the number of entries in the `dependency` field.
    pub fn dependency_size(&self) -> (r: usize)
        ensures
            r == self@.dependency.len(),
    {
        self.dependency.len()
    }

    /// Returns the `i`th entry in the `dependency` field.
    pub fn dependency(&self, i: usize) -> (r: &Vec<u8>)
        requires
            i < self@.dependency.len(),
        ensures
            r@ == self@.dependency[i as int],
    {
        &self.dependency[i]
    }

    /// Appends a virtual path to the `dependency` field.
    pub fn add_dependency(&mut self, dep: Vec<u8>)
        ensures
            final(self)@ == (FileDescriptorProtoView {
                dependency: old(self)@.dependency.push(dep@),
                ..old(self)@
            }),
    {
        self.dependency.push(dep);
        proof {
            assert(self@.dependency =~= old(self)@.dependency.push(dep@));
        }
    }

    /// Returns the number of entries in the `message_type` field.
    pub fn message_type_size(&self) -> (r: usize)
        ensures
            r == self@.message_type.len(),
    {
        self.message_type.len()
    }

    /// Returns the `i`th entry in the `message_type` field.
    pub fn message_type(&self, i: usize) -> (r: &DescriptorProto)
        requires
            i < self@.message_type.len(),
        ensures
            r@ == self@.message_type[i as int],
    {
        &self.message_type[i]
    }

    /// Appends a message type to the `message_type` field.
    pub fn add_message_type(&mut self, m: DescriptorProto)
        ensures
            final(self)@ == (FileDescriptorProtoView {
                message_type: old(self)@.message_type.push(m@),
                ..old(self)@
            }),
    {
        self.message_type.push(m);
        proof {
            assert(self@.message_type =~= old(self)@.message_type.push(m@));
        }
    }
}

/// An insertion-ordered collection of file descriptors, as produced by one
/// resolution call.
pub struct FileDescriptorSet {
    file: Vec<FileDescriptorProto>,
}

impl View for FileDescriptorSet {
    type V = FileDescriptorSetView;

    closed spec fn view(&self) -> FileDescriptorSetView {
        FileDescriptorSetView {
            file: Seq::new(self.file@.len(), |i: int| self.file@[i]@),
        }
    }
}

impl FileDescriptorSet {
    /// Creates an empty file descriptor set.
    pub fn new() -> (r: FileDescriptorSet)
        ensures
            r@.file == Seq::<FileDescriptorProtoView>::empty(),
    {
        let r = FileDescriptorSet { file: Vec::new() };
        proof {
            assert(r@.file =~= Seq::<FileDescriptorProtoView>::empty());
        }
        r
    }

    /// Returns the number of file descriptors in the set.
    pub fn file_size(&self) -> (r: usize)
        ensures
            r == self@.file.len(),
    {
        self.file.len()
    }

    /// Removes every file descriptor from the set.
    pub fn clear_file(&mut self)
        ensures
            final(self)@.file == Seq::<FileDescriptorProtoView>::empty(),
    {
        self.file.clear();
        proof {
            assert(self@.file =~= Seq::<FileDescriptorProtoView>::empty());
        }
    }

    /// Returns a reference to the `i`th file descriptor.
    pub fn file(&self, i: usize) -> (r: &FileDescriptorProto)
        requires
            i < self@.file.len(),
        ensures
            r@ == self@.file[i as int],
    {
        &self.file[i]
    }

    /// Returns a mutable reference to the `i`th file descriptor.
    pub fn file_mut(&mut self, i: usize) -> (r: &mut FileDescriptorProto)
        requires
            i < old(self)@.file.len(),
        ensures
            r@ == old(self)@.file[i as int],
            final(self)@.file =~= old(self)@.file.update(i as int, final(r)@),
    {
        &mut self.file[i]
    }

    /// Appends a new empty file descriptor and returns a mutable reference to
    /// it.
    pub fn add_file(&mut self) -> (r: &mut FileDescriptorProto)
        ensures
            r@.name == Seq::<u8>::empty(),
            r@.dependency == Seq::<Seq<u8>>::empty(),
            r@.message_type == Seq::<DescriptorProtoView>::empty(),
            final(self)@.file =~= old(self)@.file.push(final(r)@),
    {
        let fresh = FileDescriptorProto::new();
        self.file.push(fresh);
        let n = self.file.len() - 1;
        &mut self.file[n]
    }

    /// Appends the given file descriptor to the set.
    pub fn push_file(&mut self, f: FileDescriptorProto)
        ensures
            final(self)@.file == old(self)@.file.push(f@),
    {
        self.file.push(f);
        proof {
            assert(self@.file =~= old(self)@.file.push(f@));
        }
    }
}

/// Marker for protocol message types: the types this library can serialize
/// and deserialize.
pub trait Message {

}

impl Message for DescriptorProto {

}

impl Message for FileDescriptorProto {

}

impl Message for FileDescriptorSet {

}

/// Clones a byte vector; the copy's contents equal the original's.
pub fn clone_bytes(v: &Vec<u8>) -> (r: Vec<u8>)
    ensures
        r@ == v@,
{
    let mut r: Vec<u8> = Vec::new();
    let mut i: usize = 0;
    while i < v.len()
        invariant
            i <= v.len(),
            r@ == v@.take(i as int),
        decreases v.len() - i,
    {
        r.push(v[i]);
        i += 1;
        proof {
            assert(r@ =~= v@.take(i as int));
        }
    }
    proof {
        assert(r@ =~= v@);
    }
    r
}

} // verus!

use crate::io::{CodedInputStream, CodedOutputStream, SliceInputStream};
use crate::wire;
use crate::OperationFailedError;

verus! {

impl DescriptorProto {
    /// Serializes this message type to its canonical wire encoding.
    pub fn serialize(&self) -> (r: Vec<u8>)
        ensures
            r@ == wire::enc_desc_payload(self@),
    {
        let mut out: Vec<u8> = Vec::new();
        wire::write_field(&mut out, 1, &self.name);
        proof {
            assert(out@ =~= wire::enc_desc_payload(self@));
        }
        out
    }

    /// Deserializes a message type from a complete payload; errs exactly when
    /// the payload is not a canonical encoding.
    pub fn deserialize(payload: &Vec<u8>) -> (r: Result<DescriptorProto, OperationFailedError>)
        ensures
            match r {
                Ok(d) => wire::dec_desc_payload(payload@) == Some(d@),
                Err(_) => wire::dec_desc_payload(payload@) is None,
            },
    {
        let input = SliceInputStream::new(payload.as_slice());
        let mut cis = CodedInputStream::new(input);
        proof {
            assert(cis@.data =~= payload@);
            assert(cis@.data.skip(0) =~= payload@);
        }
        let name = match cis.read_length_delimited(1) {
            Ok(n) => n,
            Err(e) => {
                return Err(e);
            },
        };
        if !cis.consumed_entire_message() {
            proof {
                assert(wire::dec_field(1, payload@)->Some_0.1.len() != 0);
            }
            return Err(OperationFailedError);
        }
        let mut d = DescriptorProto::new();
        d.set_name(name);
        Ok(d)
    }
}

impl FileDescriptorProto {
    /// Serializes this file descriptor to its canonical wire encoding.
    pub fn serialize(&self) -> (r: Vec<u8>)
        ensures
            r@ == wire::enc_file_payload(self@),
    {
        let mut out: Vec<u8> = Vec::new();
        wire::write_field(&mut out, 1, &self.name);
        let ghost head = wire::enc_field(1, self@.name);
        proof {
            assert(out@ =~= head);
            assert(self@.dependency.take(0) =~= Seq::<Seq<u8>>::empty());
            assert(out@ =~= head + wire::enc_deps(self@.dependency.take(0)));
        }
        let mut i: usize = 0;
        while i < self.dependency.len()
            invariant
                i <= self@.dependency.len(),
                self@.dependency.len() == self.dependency@.len(),
                head == wire::enc_field(1, self@.name),
                out@ == head + wire::enc_deps(self@.dependency.take(i as int)),
            decreases self.dependency@.len() - i,
        {
            wire::write_field(&mut out, 3, &self.dependency[i]);
            proof {
                wire::lemma_enc_deps_push(
                    self@.dependency.take(i as int),
                    self@.dependency[i as int],
                );
                assert(self@.dependency.take(i as int).push(self@.dependency[i as int])
                    =~= self@.dependency.take(i + 1));
                assert(out@ =~= head + wire::enc_deps(self@.dependency.take(i + 1)));
            }
            i += 1;
        }
        proof {
            assert(self@.dependency.take(self@.dependency.len() as int) =~= self@.dependency);
        }
        let ghost mid = head + wire::enc_deps(self@.dependency);
        proof {
            assert(self@.message_type.take(0) =~= Seq::<DescriptorProtoView>::empty());
            assert(out@ =~= mid + wire::enc_msgs(self@.message_type.take(0)));
        }
        let mut j: usize = 0;
        while j < self.message_type.len()
            invariant
                j <= self@.message_type.len(),
                self@.message_type.len() == self.message_type@.len(),
                mid == wire::enc_field(1, self@.name) + wire::enc_deps(self@.dependency),
                out@ == mid + wire::enc_msgs(self@.message_type.take(j as int)),
            decreases self.message_type@.len() - j,
        {
            let payload = self.message_type[j].serialize();
            wire::write_field(&mut out, 4, &payload);
            proof {
                wire::lemma_enc_msgs_push(
                    self@.message_type.take(j as int),
                    self@.message_type[j as int],
                );
                assert(self@.message_type.take(j as int).push(self@.message_type[j as int])
                    =~= self@.message_type.take(j + 1));
                assert(out@ =~= mid + wire::enc_msgs(self@.message_type.take(j + 1)));
            }
            j += 1;
        }
        proof {
            assert(self@.message_type.take(self@.message_type.len() as int)
                =~= self@.message_type);
            assert(out@ =~= wire::enc_file_payload(self@));
        }
        out
    }

    /// Deserializes a file descriptor from a complete payload; errs exactly
    /// when the payload is not a canonical encoding.
    pub fn deserialize(payload: &Vec<u8>) -> (r: Result<
        FileDescriptorProto,
        OperationFailedError,
    >)
        ensures
            match r {
                Ok(fd) => wire::dec_file_payload(payload@) == Some(fd@),
                Err(_) => wire::dec_file_payload(payload@) is None,
            },
    {
        let input = SliceInputStream::new(payload.as_slice());
        let mut cis = CodedInputStream::new(input);
        let ghost data = cis@.data;
        proof {
            assert(data =~= payload@);
            assert(data.skip(0) =~= data);
        }
        let name = match cis.read_length_delimited(1) {
            Ok(n) => n,
            Err(e) => {
                return Err(e);
            },
        };
        let ghost s1 = wire::dec_field(1, data)->Some_0.1;
        let mut fd = FileDescriptorProto::new();
        fd.set_name(name);
        let mut done = false;
        while !done
            invariant
                cis@.inv(),
                cis@.data == data,
                data == payload@,
                wire::dec_field(1, data) is Some,
                s1 == wire::dec_field(1, data)->Some_0.1,
                fd@.name == wire::dec_field(1, data)->Some_0.0,
                fd@.message_type.len() == 0,
                wire::dec_rep(3, s1).0 == fd@.dependency + wire::dec_rep(
                    3,
                    data.skip(cis@.pos),
                ).0,
                wire::dec_rep(3, s1).1 == wire::dec_rep(3, data.skip(cis@.pos)).1,
                done ==> wire::dec_field(3, data.skip(cis@.pos)) is None,
            decreases data.len() - cis@.pos + (if done {
                0int
            } else {
                1int
            }),
        {
            let ghost cur = data.skip(cis@.pos);
            match cis.read_length_delimited(3) {
                Ok(d) => {
                    proof {
                        let rest = wire::dec_field(3, cur)->Some_0.1;
                        assert(rest == data.skip(cis@.pos));
                        assert(rest.len() < cur.len());
                        assert(wire::dec_rep(3, cur).0 == seq![d@] + wire::dec_rep(3, rest).0);
                        assert(wire::dec_rep(3, cur).1 == wire::dec_rep(3, rest).1);
                        assert(fd@.dependency + (seq![d@] + wire::dec_rep(3, rest).0)
                            =~= fd@.dependency.push(d@) + wire::dec_rep(3, rest).0);
                    }
                    fd.add_dependency(d);
                },
                Err(_) => {
                    done = true;
                },
            }
        }
        let ghost s2 = wire::dec_rep(3, s1).1;
        proof {
            assert(wire::dec_rep(3, data.skip(cis@.pos)) == (
                Seq::<Seq<u8>>::empty(),
                data.skip(cis@.pos),
            ));
            assert(fd@.dependency + Seq::<Seq<u8>>::empty() =~= fd@.dependency);
            assert(wire::dec_rep(3, s1).0 == fd@.dependency);
            assert(s2 == data.skip(cis@.pos));
        }
        let ghost mut processed: Seq<Seq<u8>> = Seq::empty();
        proof {
            assert(wire::dec_descs(processed) == Some(Seq::<DescriptorProtoView>::empty()));
            assert(processed + wire::dec_rep(4, s2).0 =~= wire::dec_rep(4, s2).0);
        }
        let mut done4 = false;
        while !done4
            invariant
                cis@.inv(),
                cis@.data == data,
                data == payload@,
                wire::dec_field(1, data) is Some,
                s1 == wire::dec_field(1, data)->Some_0.1,
                fd@.name == wire::dec_field(1, data)->Some_0.0,
                wire::dec_rep(3, s1).0 == fd@.dependency,
                wire::dec_rep(3, s1).1 == s2,
                wire::dec_rep(4, s2).0 == processed + wire::dec_rep(4, data.skip(cis@.pos)).0,
                wire::dec_rep(4, s2).1 == wire::dec_rep(4, data.skip(cis@.pos)).1,
                wire::dec_descs(processed) == Some(fd@.message_type),
                done4 ==> wire::dec_field(4, data.skip(cis@.pos)) is None,
            decreases data.len() - cis@.pos + (if done4 {
                0int
            } else {
                1int
            }),
        {
            let ghost cur = data.skip(cis@.pos);
            match cis.read_length_delimited(4) {
                Ok(p) => {
                    proof {
                        let rest = wire::dec_field(4, cur)->Some_0.1;
                        assert(rest == data.skip(cis@.pos));
                        assert(rest.len() < cur.len());
                        assert(wire::dec_rep(4, cur).0 == seq![p@] + wire::dec_rep(4, rest).0);
                        assert(wire::dec_rep(4, cur).1 == wire::dec_rep(4, rest).1);
                    }
                    match DescriptorProto::deserialize(&p) {
                        Ok(desc) => {
                            proof {
                                wire::lemma_dec_descs_push(processed, p@);
                                assert(processed + (seq![p@] + wire::dec_rep(
                                    4,
                                    wire::dec_field(4, cur)->Some_0.1,
                                ).0) =~= processed.push(p@) + wire::dec_rep(
                                    4,
                                    wire::dec_field(4, cur)->Some_0.1,
                                ).0);
                                processed = processed.push(p@);
                            }
                            fd.add_message_type(desc);
                        },
                        Err(_) => {
                            proof {
                                let msgs = wire::dec_rep(4, s2).0;
                                assert(msgs == processed + (seq![p@] + wire::dec_rep(
                                    4,
                                    data.skip(cis@.pos),
                                ).0));
                                assert(msgs[processed.len() as int] == p@);
                                wire::lemma_dec_descs_elem_none(msgs, processed.len() as int);
                            }
                            return Err(OperationFailedError);
                        },
                    }
                },
                Err(_) => {
                    done4 = true;
                },
            }
        }
        proof {
            assert(wire::dec_rep(4, data.skip(cis@.pos)) == (
                Seq::<Seq<u8>>::empty(),
                data.skip(cis@.pos),
            ));
            assert(processed + Seq::<Seq<u8>>::empty() =~= processed);
            assert(wire::dec_rep(4, s2).0 == processed);
            assert(wire::dec_rep(4, s2).1 == data.skip(cis@.pos));
        }
        if !cis.consumed_entire_message() {
            return Err(OperationFailedError);
        }
        proof {
            assert(data.skip(cis@.pos).len() == 0);
            assert(wire::dec_file_payload(payload@) == Some(
                crate::descriptor::FileDescriptorProtoView {
                    name: fd@.name,
                    dependency: fd@.dependency,
                    message_type: fd@.message_type,
                },
            ));
        }
        Ok(fd)
    }
}


impl FileDescriptorSet {
    /// Serializes the whole set to its canonical wire encoding through the
    /// coded stream codec; errs only when the output stream's size cap would
    /// be passed.
    pub fn serialize(&self) -> (r: Result<Vec<u8>, OperationFailedError>)
        ensures
            match r {
                Ok(bytes) => bytes@ == wire::enc_set_payload(self@),
                Err(_) => wire::enc_set_payload(self@).len() > usize::MAX / 4,
            },
    {
        let mut cos = CodedOutputStream::new();
        proof {
            assert(self@.file.take(0) =~= Seq::<FileDescriptorProtoView>::empty());
            assert(cos.written() =~= wire::enc_files(self@.file.take(0)));
        }
        let mut i: usize = 0;
        while i < self.file.len()
            invariant
                i <= self@.file.len(),
                self@.file.len() == self.file@.len(),
                cos.inv(),
                cos.written() == wire::enc_files(self@.file.take(i as int)),
            decreases self.file@.len() - i,
        {
            let payload = self.file[i].serialize();
            match cos.write_length_delimited(1, &payload) {
                Ok(()) => {
                    proof {
                        wire::lemma_enc_files_push(self@.file.take(i as int), self@.file[i as int]);
                        assert(self@.file.take(i as int).push(self@.file[i as int])
                            =~= self@.file.take(i + 1));
                    }
                },
                Err(_) => {
                    proof {
                        wire::lemma_enc_files_split(self@.file, i as int);
                        assert(self@.file.skip(i as int)[0] == self@.file[i as int]);
                        assert(wire::enc_files(self@.file.skip(i as int)) == wire::enc_field(
                            1,
                            wire::enc_file_payload(self@.file[i as int]),
                        ) + wire::enc_files(self@.file.skip(i as int).skip(1)));
                    }
                    return Err(OperationFailedError);
                },
            }
            i += 1;
        }
        proof {
            assert(self@.file.take(self@.file.len() as int) =~= self@.file);
        }
        Ok(cos.finish())
    }

    /// Deserializes a set from a complete payload; errs exactly when the
    /// payload is not a canonical encoding.
    pub fn deserialize(bytes: &Vec<u8>) -> (r: Result<FileDescriptorSet, OperationFailedError>)
        ensures
            match r {
                Ok(s) => wire::dec_set_payload(bytes@) == Some(s@),
                Err(_) => wire::dec_set_payload(bytes@) is None,
            },
    {
        let input = SliceInputStream::new(bytes.as_slice());
        let mut cis = CodedInputStream::new(input);
        let ghost data = cis@.data;
        proof {
            assert(data =~= bytes@);
            assert(data.skip(0) =~= data);
        }
        let mut out = FileDescriptorSet::new();
        let ghost mut processed: Seq<Seq<u8>> = Seq::empty();
        proof {
            assert(wire::dec_files(processed) == Some(Seq::<FileDescriptorProtoView>::empty()));
            assert(processed + wire::dec_rep(1, data).0 =~= wire::dec_rep(1, data).0);
        }
        let mut done = false;
        while !done
            invariant
                cis@.inv(),
                cis@.data == data,
                data == bytes@,
                wire::dec_rep(1, data).0 == processed + wire::dec_rep(1, data.skip(cis@.pos)).0,
                wire::dec_rep(1, data).1 == wire::dec_rep(1, data.skip(cis@.pos)).1,
                wire::dec_files(processed) == Some(out@.file),
                done ==> wire::dec_field(1, data.skip(cis@.pos)) is None,
            decreases data.len() - cis@.pos + (if done {
                0int
            } else {
                1int
            }),
        {
            let ghost cur = data.skip(cis@.pos);
            match cis.read_length_delimited(1) {
                Ok(p) => {
                    proof {
                        let rest = wire::dec_field(1, cur)->Some_0.1;
                        assert(rest == data.skip(cis@.pos));
                        assert(rest.len() < cur.len());
                        assert(wire::dec_rep(1, cur).0 == seq![p@] + wire::dec_rep(1, rest).0);
                        assert(wire::dec_rep(1, cur).1 == wire::dec_rep(1, rest).1);
                    }
                    match FileDescriptorProto::deserialize(&p) {
                        Ok(fd) => {
                            proof {
                                wire::lemma_dec_files_push(processed, p@);
                                assert(processed + (seq![p@] + wire::dec_rep(
                                    1,
                                    data.skip(cis@.pos),
                                ).0) =~= processed.push(p@) + wire::dec_rep(
                                    1,
                                    data.skip(cis@.pos),
                                ).0);
                                processed = processed.push(p@);
                            }
                            out.push_file(fd);
                        },
                        Err(_) => {
                            proof {
                                let files = wire::dec_rep(1, data).0;
                                assert(files == processed + (seq![p@] + wire::dec_rep(
                                    1,
                                    data.skip(cis@.pos),
                                ).0));
                                assert(files[processed.len() as int] == p@);
                                wire::lemma_dec_files_elem_none(files, processed.len() as int);
                            }
                            return Err(OperationFailedError);
                        },
                    }
                },
                Err(_) => {
                    done = true;
                },
            }
        }
        proof {
            assert(wire::dec_rep(1, data.skip(cis@.pos)) == (
                Seq::<Seq<u8>>::empty(),
                data.skip(cis@.pos),
            ));
            assert(processed + Seq::<Seq<u8>>::empty() =~= processed);
            assert(wire::dec_rep(1, data).0 == processed);
            assert(wire::dec_rep(1, data).1 == data.skip(cis@.pos));
        }
        if !cis.consumed_entire_message() {
            return Err(OperationFailedError);
        }
        proof {
            assert(data.skip(cis@.pos).len() == 0);
            assert(wire::dec_set_payload(bytes@) == Some(FileDescriptorSetView { file: out@.file }));
        }
        Ok(out)
    }
}

} // verus!
