//! The wire format for file descriptors: base-128 variable-length integers,
//! length-delimited tagged fields, and the canonical encoding of
//! [`crate::descriptor::FileDescriptorProto`] and
//! [`crate::descriptor::FileDescriptorSet`] values, together with the
//! round-trip theorems relating encoding and decoding.
//!
//! A varint is a little-endian sequence of base-128 groups; bit 7 is set on
//! every byte but the last, and at most ten bytes encode one value (enough for
//! 64 bits). A length-delimited field is the varint of its tag (`field * 8 +
//! 2`), the varint of the payload length, then the payload bytes.

use vstd::prelude::*;

use crate::descriptor::{DescriptorProtoView, FileDescriptorProtoView, FileDescriptorSetView};
use crate::OperationFailedError;

verus! {

/// One more than the largest value a varint in this library may decode to.
pub open spec fn varint_limit() -> nat {
    0x1_0000_0000_0000_0000
}

/// The base-128 little-endian encoding of `n`.
pub open spec fn enc_varint(n: nat) -> Seq<u8>
    decreases n,
{
    if n < 128 {
        seq![n as u8]
    } else {
        seq![(128 + (n % 128)) as u8] + enc_varint(n / 128)
    }
}

/// Decodes a varint from the front of `s`, reading at most `fuel` bytes.
/// Returns the value and the number of bytes read.
pub open spec fn dec_varint_k(s: Seq<u8>, fuel: nat) -> Option<(nat, int)>
    decreases fuel,
{
    if fuel == 0 || s.len() == 0 {
        None
    } else if s[0] < 128 {
        Some((s[0] as nat, 1))
    } else {
        match dec_varint_k(s.skip(1), (fuel - 1) as nat) {
            Option::None => None,
            Option::Some((v, n)) => Some(((s[0] - 128) as nat + 128 * v, n + 1)),
        }
    }
}

/// Decodes a varint of at most ten bytes from the front of `s`.
pub open spec fn dec_varint(s: Seq<u8>) -> Option<(nat, int)> {
    dec_varint_k(s, 10)
}

/// The length-delimited encoding of field number `k` with the given payload.
pub open spec fn enc_field(k: nat, payload: Seq<u8>) -> Seq<u8> {
    enc_varint(k * 8 + 2) + enc_varint(payload.len()) + payload
}

/// Decodes one length-delimited field of number `k` from the front of `s`,
/// returning the payload and the remaining bytes.
pub open spec fn dec_field(k: nat, s: Seq<u8>) -> Option<(Seq<u8>, Seq<u8>)> {
    match dec_varint(s) {
        Option::None => None,
        Option::Some((tag, n1)) => {
            if tag != k * 8 + 2 {
                None
            } else {
                match dec_varint(s.skip(n1)) {
                    Option::None => None,
                    Option::Some((l, n2)) => {
                        if l + n1 + n2 <= s.len() {
                            Some(
                                (
                                    s.subrange(n1 + n2, n1 + n2 + l),
                                    s.skip(n1 + n2 + l),
                                ),
                            )
                        } else {
                            None
                        }
                    },
                }
            }
        },
    }
}

/// Decodes a run of consecutive fields numbered `k` from the front of `s`,
/// returning their payloads and the remaining bytes.
pub open spec fn dec_rep(k: nat, s: Seq<u8>) -> (Seq<Seq<u8>>, Seq<u8>)
    decreases s.len(),
{
    match dec_field(k, s) {
        Option::None => (Seq::empty(), s),
        Option::Some((payload, rest)) => {
            if rest.len() < s.len() {
                let (more, fin) = dec_rep(k, rest);
                (seq![payload] + more, fin)
            } else {
                (Seq::empty(), s)
            }
        },
    }
}

/// The canonical encoding of a message-type descriptor: its name as field 1.
pub open spec fn enc_desc_payload(d: DescriptorProtoView) -> Seq<u8> {
    enc_field(1, d.name)
}

/// Decodes a message-type descriptor from a complete payload.
pub open spec fn dec_desc_payload(s: Seq<u8>) -> Option<DescriptorProtoView> {
    match dec_field(1, s) {
        Option::None => None,
        Option::Some((name, rest)) => {
            if rest.len() == 0 {
                Some(DescriptorProtoView { name })
            } else {
                None
            }
        },
    }
}

/// The concatenated encodings of the dependency paths, each as field 3.
pub open spec fn enc_deps(deps: Seq<Seq<u8>>) -> Seq<u8>
    decreases deps.len(),
{
    if deps.len() == 0 {
        Seq::empty()
    } else {
        enc_field(3, deps[0]) + enc_deps(deps.skip(1))
    }
}

/// The concatenated encodings of the message types, each as field 4.
pub open spec fn enc_msgs(msgs: Seq<DescriptorProtoView>) -> Seq<u8>
    decreases msgs.len(),
{
    if msgs.len() == 0 {
        Seq::empty()
    } else {
        enc_field(4, enc_desc_payload(msgs[0])) + enc_msgs(msgs.skip(1))
    }
}

/// The canonical encoding of a file descriptor: its name as field 1, its
/// dependencies as field 3, and its message types as field 4.
pub open spec fn enc_file_payload(f: FileDescriptorProtoView) -> Seq<u8> {
    enc_field(1, f.name) + enc_deps(f.dependency) + enc_msgs(f.message_type)
}

/// Decodes every payload in `msgs` as a message-type descriptor.
pub open spec fn dec_descs(msgs: Seq<Seq<u8>>) -> Option<Seq<DescriptorProtoView>>
    decreases msgs.len(),
{
    if msgs.len() == 0 {
        Some(Seq::empty())
    } else {
        match dec_desc_payload(msgs[0]) {
            Option::None => None,
            Option::Some(d) => {
                match dec_descs(msgs.skip(1)) {
                    Option::None => None,
                    Option::Some(ds) => Some(seq![d] + ds),
                }
            },
        }
    }
}

/// Decodes a file descriptor from a complete payload.
pub open spec fn dec_file_payload(s: Seq<u8>) -> Option<FileDescriptorProtoView> {
    match dec_field(1, s) {
        Option::None => None,
        Option::Some((name, s1)) => {
            let (deps, s2) = dec_rep(3, s1);
            let (msgs, s3) = dec_rep(4, s2);
            if s3.len() == 0 {
                match dec_descs(msgs) {
                    Option::None => None,
                    Option::Some(ds) => Some(
                        FileDescriptorProtoView { name, dependency: deps, message_type: ds },
                    ),
                }
            } else {
                None
            }
        },
    }
}

/// The concatenated encodings of the files, each as field 1.
pub open spec fn enc_files(fs: Seq<FileDescriptorProtoView>) -> Seq<u8>
    decreases fs.len(),
{
    if fs.len() == 0 {
        Seq::empty()
    } else {
        enc_field(1, enc_file_payload(fs[0])) + enc_files(fs.skip(1))
    }
}

/// The canonical encoding of a file descriptor set.
pub open spec fn enc_set_payload(s: FileDescriptorSetView) -> Seq<u8> {
    enc_files(s.file)
}

/// Decodes every payload in `files` as a file descriptor.
pub open spec fn dec_files(files: Seq<Seq<u8>>) -> Option<Seq<FileDescriptorProtoView>>
    decreases files.len(),
{
    if files.len() == 0 {
        Some(Seq::empty())
    } else {
        match dec_file_payload(files[0]) {
            Option::None => None,
            Option::Some(f) => {
                match dec_files(files.skip(1)) {
                    Option::None => None,
                    Option::Some(fs) => Some(seq![f] + fs),
                }
            },
        }
    }
}

/// Decodes a file descriptor set from a complete payload.
pub open spec fn dec_set_payload(s: Seq<u8>) -> Option<FileDescriptorSetView> {
    let (files, rest) = dec_rep(1, s);
    if rest.len() == 0 {
        match dec_files(files) {
            Option::None => None,
            Option::Some(fs) => Some(FileDescriptorSetView { file: fs }),
        }
    } else {
        None
    }
}

/// 128 raised to the `k`th power.
pub open spec fn pow128(k: nat) -> nat
    decreases k,
{
    if k == 0 {
        1
    } else {
        128 * pow128((k - 1) as nat)
    }
}

/// A varint encoding never has more bytes than the power of 128 bounding its
/// value.
pub proof fn lemma_enc_varint_len_k(n: nat, k: nat)
    requires
        k >= 1,
        n < pow128(k),
    ensures
        1 <= enc_varint(n).len() <= k,
    decreases k,
{
    if n < 128 {
    } else {
        assert(pow128(k) == 128 * pow128((k - 1) as nat));
        vstd::arithmetic::div_mod::lemma_multiply_divide_lt(n as int, 128, pow128((k - 1) as nat) as int);
        assert(n / 128 < pow128((k - 1) as nat));
        assert(k >= 2) by {
            if k == 1 {
                reveal_with_fuel(pow128, 2);
                assert(pow128(1nat) == 128);
            }
        }
        lemma_enc_varint_len_k(n / 128, (k - 1) as nat);
    }
}

/// A value below the varint limit encodes in at most ten bytes.
pub proof fn lemma_enc_varint_len(n: nat)
    requires
        n < varint_limit(),
    ensures
        1 <= enc_varint(n).len() <= 10,
{
    assert(pow128(10nat) == 0x40_0000_0000_0000_0000) by {
        reveal_with_fuel(pow128, 11);
    }
    lemma_enc_varint_len_k(n, 10);
}

/// Decoding a varint encoding followed by anything yields the encoded value
/// and consumes exactly the encoding, given enough fuel.
pub proof fn lemma_varint_round_trip_k(n: nat, rest: Seq<u8>, fuel: nat)
    requires
        enc_varint(n).len() <= fuel,
        1 <= enc_varint(n).len(),
    ensures
        dec_varint_k(enc_varint(n) + rest, fuel) == Some((n, enc_varint(n).len() as int)),
    decreases n,
{
    let s = enc_varint(n) + rest;
    if n < 128 {
        assert(s[0] == n as u8);
        assert(s.len() >= 1);
        assert(dec_varint_k(s, fuel) == Some((n, 1int)));
    } else {
        let b: u8 = (128 + (n % 128)) as u8;
        let tail = enc_varint(n / 128);
        assert(enc_varint(n) == seq![b] + tail);
        assert(s[0] == b);
        assert(b >= 128);
        vstd::arithmetic::div_mod::lemma_div_decreases(n as int, 128);
        assert(tail.len() >= 1) by {
            lemma_enc_varint_pos(n / 128);
        }
        lemma_varint_round_trip_k(n / 128, rest, (fuel - 1) as nat);
        assert(s.skip(1) =~= tail + rest);
        vstd::arithmetic::div_mod::lemma_fundamental_div_mod(n as int, 128);
        assert((s[0] - 128) as nat + 128 * (n / 128) == n);
        assert(dec_varint_k(s, fuel) == Some((n, enc_varint(n).len() as int)));
    }
}

/// A varint encoding has at least one byte.
pub proof fn lemma_enc_varint_pos(n: nat)
    ensures
        enc_varint(n).len() >= 1,
    decreases n,
{
    if n >= 128 {
        vstd::arithmetic::div_mod::lemma_div_decreases(n as int, 128);
        lemma_enc_varint_pos(n / 128);
    }
}

/// Decoding the encoding of `n` followed by anything yields `n` and consumes
/// exactly the encoding.
pub proof fn lemma_varint_round_trip(n: nat, rest: Seq<u8>)
    requires
        n < varint_limit(),
    ensures
        1 <= enc_varint(n).len() <= 10,
        dec_varint(enc_varint(n) + rest) == Some((n, enc_varint(n).len() as int)),
{
    lemma_enc_varint_len(n);
    lemma_varint_round_trip_k(n, rest, 10);
}

/// Decoding a field encoding followed by anything yields the payload and the
/// following bytes.
pub proof fn lemma_field_round_trip(k: nat, payload: Seq<u8>, rest: Seq<u8>)
    requires
        k * 8 + 2 < 128,
        payload.len() < varint_limit(),
    ensures
        dec_field(k, enc_field(k, payload) + rest) == Some((payload, rest)),
        enc_field(k, payload).len() >= 2,
        (enc_field(k, payload) + rest)[0] == (k * 8 + 2) as u8,
    decreases 0nat,
{
    let tag = k * 8 + 2;
    let lenc = enc_varint(payload.len());
    let s = enc_field(k, payload) + rest;
    assert(enc_varint(tag) == seq![tag as u8]);
    lemma_enc_varint_len(payload.len());
    let n2 = lenc.len() as int;
    assert(s =~= enc_varint(tag) + (lenc + (payload + rest)));
    lemma_varint_round_trip(tag, lenc + (payload + rest));
    assert(dec_varint(s) == Some((tag, 1int)));
    assert(s.skip(1) =~= lenc + (payload + rest));
    lemma_varint_round_trip(payload.len(), payload + rest);
    assert(dec_varint(s.skip(1)) == Some((payload.len(), n2)));
    assert(payload.len() + 1 + n2 <= s.len());
    assert(s.subrange(1 + n2, 1 + n2 + payload.len()) =~= payload);
    assert(s.skip(1 + n2 + payload.len()) =~= rest);
    assert(s[0] == tag as u8);
}

/// A field of number `k` does not decode from an empty sequence, nor from one
/// whose first byte is a one-byte varint other than `k`'s tag.
pub proof fn lemma_dec_field_other(k: nat, s: Seq<u8>)
    requires
        s.len() == 0 || (s[0] < 128 && s[0] != k * 8 + 2),
    ensures
        dec_field(k, s) is None,
{
    if s.len() > 0 {
        assert(dec_varint(s) == Some((s[0] as nat, 1int)));
    }
}

/// The concatenated field encodings of each payload in `ps`, all numbered
/// `k`.
pub open spec fn enc_each(k: nat, ps: Seq<Seq<u8>>) -> Seq<u8>
    decreases ps.len(),
{
    if ps.len() == 0 {
        Seq::empty()
    } else {
        enc_field(k, ps[0]) + enc_each(k, ps.skip(1))
    }
}

/// Decoding a run of encoded fields followed by bytes that do not start a
/// field of the same number yields exactly the encoded payloads.
pub proof fn lemma_dec_rep_enc(k: nat, ps: Seq<Seq<u8>>, rest: Seq<u8>)
    requires
        k * 8 + 2 < 128,
        forall|i: int| 0 <= i < ps.len() ==> #[trigger] ps[i].len() < varint_limit(),
        dec_field(k, rest) is None,
    ensures
        dec_rep(k, enc_each(k, ps) + rest) == (ps, rest),
    decreases ps.len(),
{
    if ps.len() == 0 {
        assert(enc_each(k, ps) + rest =~= rest);
    } else {
        let s = enc_each(k, ps) + rest;
        let tail = enc_each(k, ps.skip(1)) + rest;
        lemma_field_round_trip(k, ps[0], tail);
        assert(s =~= enc_field(k, ps[0]) + tail);
        assert(dec_field(k, s) == Some((ps[0], tail)));
        assert(enc_field(k, ps[0]).len() >= 2);
        assert(tail.len() < s.len());
        lemma_dec_rep_enc(k, ps.skip(1), rest);
        assert(seq![ps[0]] + ps.skip(1) =~= ps);
    }
}

/// A field does not decode from the front of `enc_each` output for another
/// single-byte field number, nor from the empty tail.
pub proof fn lemma_dec_field_enc_each(k: nat, j: nat, ps: Seq<Seq<u8>>)
    requires
        k * 8 + 2 < 128,
        j * 8 + 2 < 128,
        j != k,
        forall|i: int| 0 <= i < ps.len() ==> #[trigger] ps[i].len() < varint_limit(),
    ensures
        dec_field(k, enc_each(j, ps)) is None,
{
    if ps.len() == 0 {
        lemma_dec_field_other(k, enc_each(j, ps));
    } else {
        lemma_field_round_trip(j, ps[0], enc_each(j, ps.skip(1)));
        assert(enc_each(j, ps) =~= enc_field(j, ps[0]) + enc_each(j, ps.skip(1)));
        assert(enc_each(j, ps)[0] == (j * 8 + 2) as u8);
        lemma_dec_field_other(k, enc_each(j, ps));
    }
}

/// Whether a file descriptor's fields are small enough for every length in
/// its encoding to be a valid varint.
pub open spec fn wire_wf_file(f: FileDescriptorProtoView) -> bool {
    &&& f.name.len() < varint_limit()
    &&& forall|i: int| 0 <= i < f.dependency.len() ==> #[trigger] f.dependency[i].len() < varint_limit()
    &&& forall|i: int|
        0 <= i < f.message_type.len() ==> #[trigger] enc_desc_payload(f.message_type[i]).len()
            < varint_limit()
    &&& forall|i: int|
        0 <= i < f.message_type.len() ==> #[trigger] f.message_type[i].name.len() < varint_limit()
}

/// Whether a file descriptor set is small enough for every length in its
/// encoding to be a valid varint.
pub open spec fn wire_wf_set(s: FileDescriptorSetView) -> bool {
    &&& forall|i: int| 0 <= i < s.file.len() ==> #[trigger] wire_wf_file(s.file[i])
    &&& forall|i: int|
        0 <= i < s.file.len() ==> #[trigger] enc_file_payload(s.file[i]).len() < varint_limit()
}

/// The dependency encoding is the run of field-3 encodings of the paths.
pub proof fn lemma_enc_deps_is_each(deps: Seq<Seq<u8>>)
    ensures
        enc_deps(deps) == enc_each(3, deps),
    decreases deps.len(),
{
    if deps.len() > 0 {
        lemma_enc_deps_is_each(deps.skip(1));
    }
}

/// The message-type encoding is the run of field-4 encodings of the
/// descriptor payloads.
pub proof fn lemma_enc_msgs_is_each(msgs: Seq<DescriptorProtoView>)
    ensures
        enc_msgs(msgs) == enc_each(4, msgs.map_values(|m: DescriptorProtoView| enc_desc_payload(m))),
    decreases msgs.len(),
{
    let ps = msgs.map_values(|m: DescriptorProtoView| enc_desc_payload(m));
    if msgs.len() > 0 {
        lemma_enc_msgs_is_each(msgs.skip(1));
        assert(msgs.skip(1).map_values(|m: DescriptorProtoView| enc_desc_payload(m)) =~= ps.skip(
            1,
        ));
        assert(ps[0] == enc_desc_payload(msgs[0]));
    } else {
        assert(ps.len() == 0);
    }
}

/// The file encoding is the run of field-1 encodings of the file payloads.
pub proof fn lemma_enc_files_is_each(fs: Seq<FileDescriptorProtoView>)
    ensures
        enc_files(fs) == enc_each(1, fs.map_values(|f: FileDescriptorProtoView| enc_file_payload(f))),
    decreases fs.len(),
{
    let ps = fs.map_values(|f: FileDescriptorProtoView| enc_file_payload(f));
    if fs.len() > 0 {
        lemma_enc_files_is_each(fs.skip(1));
        assert(fs.skip(1).map_values(|f: FileDescriptorProtoView| enc_file_payload(f)) =~= ps.skip(
            1,
        ));
        assert(ps[0] == enc_file_payload(fs[0]));
    } else {
        assert(ps.len() == 0);
    }
}

/// A message-type descriptor decodes back from its own encoding.
pub proof fn lemma_desc_round_trip(d: DescriptorProtoView)
    requires
        d.name.len() < varint_limit(),
    ensures
        dec_desc_payload(enc_desc_payload(d)) == Some(d),
{
    lemma_field_round_trip(1, d.name, Seq::empty());
    assert(enc_field(1, d.name) + Seq::<u8>::empty() =~= enc_field(1, d.name));
}

/// Every element of a run of encoded message types decodes back.
pub proof fn lemma_dec_descs_enc(msgs: Seq<DescriptorProtoView>)
    requires
        forall|i: int| 0 <= i < msgs.len() ==> #[trigger] msgs[i].name.len() < varint_limit(),
    ensures
        dec_descs(msgs.map_values(|m: DescriptorProtoView| enc_desc_payload(m))) == Some(msgs),
    decreases msgs.len(),
{
    let ps = msgs.map_values(|m: DescriptorProtoView| enc_desc_payload(m));
    if msgs.len() == 0 {
        assert(ps.len() == 0);
        assert(dec_descs(ps) == Some(Seq::<DescriptorProtoView>::empty()));
    } else {
        lemma_desc_round_trip(msgs[0]);
        lemma_dec_descs_enc(msgs.skip(1));
        assert(msgs.skip(1).map_values(|m: DescriptorProtoView| enc_desc_payload(m)) =~= ps.skip(
            1,
        ));
        assert(ps[0] == enc_desc_payload(msgs[0]));
        assert(seq![msgs[0]] + msgs.skip(1) =~= msgs);
    }
}

/// A file descriptor decodes back from its own encoding.
///
/// This is one half of the round-trip law; together with
/// [`lemma_set_round_trip`] it says that deserializing a serialized
/// descriptor yields a structurally equal descriptor.
pub proof fn lemma_file_round_trip(f: FileDescriptorProtoView)
    requires
        wire_wf_file(f),
    ensures
        dec_file_payload(enc_file_payload(f)) == Some(f),
{
    let msg_ps = f.message_type.map_values(|m: DescriptorProtoView| enc_desc_payload(m));
    let s = enc_file_payload(f);
    let after_name = enc_deps(f.dependency) + enc_msgs(f.message_type);
    lemma_field_round_trip(1, f.name, after_name);
    assert(s =~= enc_field(1, f.name) + after_name);
    assert(dec_field(1, s) == Some((f.name, after_name)));
    lemma_enc_deps_is_each(f.dependency);
    lemma_enc_msgs_is_each(f.message_type);
    lemma_dec_field_enc_each(3, 4, msg_ps);
    assert(forall|i: int| 0 <= i < msg_ps.len() ==> #[trigger] msg_ps[i].len() < varint_limit());
    lemma_dec_rep_enc(3, f.dependency, enc_msgs(f.message_type));
    assert(after_name =~= enc_each(3, f.dependency) + enc_msgs(f.message_type));
    assert(dec_rep(3, after_name) == (f.dependency, enc_msgs(f.message_type)));
    lemma_dec_field_other(4, Seq::empty());
    lemma_dec_rep_enc(4, msg_ps, Seq::empty());
    assert(enc_msgs(f.message_type) =~= enc_each(4, msg_ps) + Seq::<u8>::empty());
    assert(dec_rep(4, enc_msgs(f.message_type)) == (msg_ps, Seq::<u8>::empty()));
    lemma_dec_descs_enc(f.message_type);
    assert(dec_file_payload(s) == Some(f));
}

/// Every element of a run of encoded files decodes back.
pub proof fn lemma_dec_files_enc(fs: Seq<FileDescriptorProtoView>)
    requires
        forall|i: int| 0 <= i < fs.len() ==> #[trigger] wire_wf_file(fs[i]),
    ensures
        dec_files(fs.map_values(|f: FileDescriptorProtoView| enc_file_payload(f))) == Some(fs),
    decreases fs.len(),
{
    let ps = fs.map_values(|f: FileDescriptorProtoView| enc_file_payload(f));
    if fs.len() == 0 {
        assert(ps.len() == 0);
        assert(dec_files(ps) == Some(Seq::<FileDescriptorProtoView>::empty()));
    } else {
        lemma_file_round_trip(fs[0]);
        lemma_dec_files_enc(fs.skip(1));
        assert(fs.skip(1).map_values(|f: FileDescriptorProtoView| enc_file_payload(f)) =~= ps.skip(
            1,
        ));
        assert(ps[0] == enc_file_payload(fs[0]));
        assert(seq![fs[0]] + fs.skip(1) =~= fs);
    }
}

/// A file descriptor set decodes back from its own encoding: the round-trip
/// law for whole descriptor sets.
pub proof fn lemma_set_round_trip(s: FileDescriptorSetView)
    requires
        wire_wf_set(s),
    ensures
        dec_set_payload(enc_set_payload(s)) == Some(s),
{
    let ps = s.file.map_values(|f: FileDescriptorProtoView| enc_file_payload(f));
    lemma_enc_files_is_each(s.file);
    lemma_dec_field_other(1, Seq::empty());
    lemma_dec_rep_enc(1, ps, Seq::empty());
    assert(enc_set_payload(s) =~= enc_each(1, ps) + Seq::<u8>::empty());
    assert(dec_rep(1, enc_set_payload(s)) == (ps, Seq::<u8>::empty()));
    lemma_dec_files_enc(s.file);
    assert(dec_set_payload(enc_set_payload(s)) == Some(FileDescriptorSetView { file: s.file }));
    assert(FileDescriptorSetView { file: s.file } == s);
}

/// Appending one path extends the dependency encoding on the right.
pub proof fn lemma_enc_deps_push(deps: Seq<Seq<u8>>, d: Seq<u8>)
    ensures
        enc_deps(deps.push(d)) == enc_deps(deps) + enc_field(3, d),
    decreases deps.len(),
{
    if deps.len() == 0 {
        assert(deps.push(d)[0] == d);
        assert(deps.push(d).skip(1) =~= Seq::<Seq<u8>>::empty());
        assert(enc_deps(deps.push(d)) == enc_field(3, d) + enc_deps(deps.push(d).skip(1)));
        assert(deps.push(d).skip(1).len() == 0);
        assert(enc_deps(deps.push(d).skip(1)) == Seq::<u8>::empty());
        assert(enc_deps(deps) == Seq::<u8>::empty());
        assert(enc_deps(deps.push(d)) =~= enc_deps(deps) + enc_field(3, d));
    } else {
        assert(deps.push(d).skip(1) =~= deps.skip(1).push(d));
        assert(deps.push(d)[0] == deps[0]);
        lemma_enc_deps_push(deps.skip(1), d);
        assert(enc_deps(deps.push(d)) == enc_field(3, deps[0]) + enc_deps(deps.skip(1).push(d)));
        assert(enc_deps(deps) == enc_field(3, deps[0]) + enc_deps(deps.skip(1)));
        assert(enc_deps(deps.push(d)) =~= enc_deps(deps) + enc_field(3, d));
    }
}

/// Appending one message type extends the message encoding on the right.
pub proof fn lemma_enc_msgs_push(msgs: Seq<DescriptorProtoView>, m: DescriptorProtoView)
    ensures
        enc_msgs(msgs.push(m)) == enc_msgs(msgs) + enc_field(4, enc_desc_payload(m)),
    decreases msgs.len(),
{
    if msgs.len() == 0 {
        assert(msgs.push(m)[0] == m);
        assert(msgs.push(m).skip(1) =~= Seq::<DescriptorProtoView>::empty());
        assert(enc_msgs(msgs.push(m)) == enc_field(4, enc_desc_payload(m)) + enc_msgs(
            msgs.push(m).skip(1),
        ));
        assert(msgs.push(m).skip(1).len() == 0);
        assert(enc_msgs(msgs.push(m).skip(1)) == Seq::<u8>::empty());
        assert(enc_msgs(msgs) == Seq::<u8>::empty());
        assert(enc_msgs(msgs.push(m)) =~= enc_msgs(msgs) + enc_field(4, enc_desc_payload(m)));
    } else {
        assert(msgs.push(m).skip(1) =~= msgs.skip(1).push(m));
        assert(msgs.push(m)[0] == msgs[0]);
        lemma_enc_msgs_push(msgs.skip(1), m);
        assert(enc_msgs(msgs.push(m)) == enc_field(4, enc_desc_payload(msgs[0])) + enc_msgs(
            msgs.skip(1).push(m),
        ));
        assert(enc_msgs(msgs) == enc_field(4, enc_desc_payload(msgs[0])) + enc_msgs(msgs.skip(1)));
        assert(enc_msgs(msgs.push(m)) =~= enc_msgs(msgs) + enc_field(4, enc_desc_payload(m)));
    }
}

/// Appending one file extends the set encoding on the right.
pub proof fn lemma_enc_files_push(fs: Seq<FileDescriptorProtoView>, f: FileDescriptorProtoView)
    ensures
        enc_files(fs.push(f)) == enc_files(fs) + enc_field(1, enc_file_payload(f)),
    decreases fs.len(),
{
    if fs.len() == 0 {
        assert(fs.push(f)[0] == f);
        assert(fs.push(f).skip(1) =~= Seq::<FileDescriptorProtoView>::empty());
        assert(enc_files(fs.push(f)) == enc_field(1, enc_file_payload(f)) + enc_files(
            fs.push(f).skip(1),
        ));
        assert(fs.push(f).skip(1).len() == 0);
        assert(enc_files(fs.push(f).skip(1)) == Seq::<u8>::empty());
        assert(enc_files(fs) == Seq::<u8>::empty());
        assert(enc_files(fs.push(f)) =~= enc_files(fs) + enc_field(1, enc_file_payload(f)));
    } else {
        assert(fs.push(f).skip(1) =~= fs.skip(1).push(f));
        assert(fs.push(f)[0] == fs[0]);
        lemma_enc_files_push(fs.skip(1), f);
        assert(enc_files(fs.push(f)) == enc_field(1, enc_file_payload(fs[0])) + enc_files(
            fs.skip(1).push(f),
        ));
        assert(enc_files(fs) == enc_field(1, enc_file_payload(fs[0])) + enc_files(fs.skip(1)));
        assert(enc_files(fs.push(f)) =~= enc_files(fs) + enc_field(1, enc_file_payload(f)));
    }
}

} // verus!

use vstd::prelude::*;

verus! {

/// A varint whose first `min(fuel, len)` bytes all have the continuation bit
/// set does not decode.
proof fn lemma_dec_none_all_continuation(s: Seq<u8>, fuel: nat)
    requires
        forall|q: int| 0 <= q < fuel && q < s.len() ==> s[q] >= 128,
    ensures
        dec_varint_k(s, fuel) is None,
    decreases fuel,
{
    if fuel != 0 && s.len() != 0 {
        assert(s[0] >= 128);
        assert(forall|q: int|
            0 <= q < fuel - 1 && q < s.skip(1).len() ==> s.skip(1)[q] >= 128) by {
            assert(forall|q: int|
                0 <= q < fuel - 1 && q < s.skip(1).len() ==> s.skip(1)[q] == s[q + 1]);
        }
        lemma_dec_none_all_continuation(s.skip(1), (fuel - 1) as nat);
    }
}

/// For a buffer whose bytes `i..j` carry the continuation bit and whose byte
/// `j` ends the varint, decoding from position `i` succeeds and consumes the
/// bytes through `j`.
proof fn lemma_dec_some(s: Seq<u8>, i: int, j: int)
    requires
        0 <= i <= j < 10,
        j < s.len(),
        forall|q: int| i <= q < j ==> s[q] >= 128,
        s[j] < 128,
    ensures
        dec_varint_k(s.skip(i), (10 - i) as nat) is Some,
        dec_varint_k(s.skip(i), (10 - i) as nat)->Some_0.1 == j - i + 1,
        i < j ==> dec_varint_k(s.skip(i), (10 - i) as nat)->Some_0.0 == (s[i] - 128) as nat + 128
            * dec_varint_k(s.skip(i + 1), (10 - i - 1) as nat)->Some_0.0,
        i == j ==> dec_varint_k(s.skip(i), (10 - i) as nat)->Some_0.0 == s[j] as nat,
    decreases j - i,
{
    let t = s.skip(i);
    assert(t[0] == s[i]);
    if i == j {
    } else {
        lemma_dec_some(s, i + 1, j);
        assert(t.skip(1) =~= s.skip(i + 1));
    }
}

/// Along a varint's continuation bytes, the decoded value from an earlier
/// position is at least the decoded value from a later one.
proof fn lemma_dec_value_ge(s: Seq<u8>, a: int, b: int, j: int)
    requires
        0 <= a <= b <= j < 10,
        j < s.len(),
        forall|q: int| a <= q < j ==> s[q] >= 128,
        s[j] < 128,
    ensures
        dec_varint_k(s.skip(a), (10 - a) as nat)->Some_0.0 >= dec_varint_k(
            s.skip(b),
            (10 - b) as nat,
        )->Some_0.0,
    decreases b - a,
{
    lemma_dec_some(s, a, j);
    if a < b {
        lemma_dec_some(s, a + 1, j);
        lemma_dec_value_ge(s, a + 1, b, j);
        let v1 = dec_varint_k(s.skip(a + 1), (10 - a - 1) as nat)->Some_0.0;
        assert(128 * v1 >= v1) by (nonlinear_arith)
            requires
                v1 >= 0,
        ;
    }
}

/// Reads a varint from `s` at `pos`: the decoded value and the position just
/// past it, or an error when no varint of at most ten bytes starts there or
/// its value needs more than 64 bits.
pub fn read_varint_at(s: &[u8], pos: usize) -> (r: Result<(u64, usize), OperationFailedError>)
    requires
        pos <= s@.len(),
    ensures
        match r {
            Ok((v, newpos)) => {
                &&& dec_varint(s@.skip(pos as int)) is Some
                &&& dec_varint(s@.skip(pos as int))->Some_0.0 == v as nat
                &&& newpos == pos + dec_varint(s@.skip(pos as int))->Some_0.1
                &&& pos < newpos <= s@.len()
            },
            Err(_) => dec_varint(s@.skip(pos as int)) is None || dec_varint(
                s@.skip(pos as int),
            )->Some_0.0 >= varint_limit(),
        },
{
    let ghost t = s@.skip(pos as int);
    let len = s.len();
    let mut j: usize = 0;
    let mut term: usize = 0;
    let mut found = false;
    while j < 10 && !found
        invariant
            pos <= len == s@.len(),
            t == s@.skip(pos as int),
            j <= 10,
            !found ==> forall|q: int|
                0 <= q < j ==> pos + q < len && #[trigger] s@[pos as int + q] >= 128,
            found ==> {
                &&& term < 10
                &&& pos + term < len
                &&& s@[pos as int + term] < 128
                &&& forall|q: int| 0 <= q < term ==> #[trigger] s@[pos as int + q] >= 128
            },
        decreases 10 - j + (if found { 0int } else { 1int }),
    {
        if j >= len - pos {
            proof {
                assert(t.len() == len - pos);
                assert forall|q: int| 0 <= q < 10 && q < t.len() implies t[q] >= 128 by {
                    assert(t[q] == s@[pos as int + q]);
                    assert(q < j);
                }
                lemma_dec_none_all_continuation(t, 10);
            }
            return Err(OperationFailedError);
        }
        if s[pos + j] < 128 {
            term = j;
            found = true;
        } else {
            j += 1;
        }
    }
    if !found {
        proof {
            assert forall|q: int| 0 <= q < 10 && q < t.len() implies t[q] >= 128 by {
                assert(t[q] == s@[pos as int + q]);
                assert(q < j);
            }
            lemma_dec_none_all_continuation(t, 10);
        }
        return Err(OperationFailedError);
    }
    proof {
        assert(forall|q: int| 0 <= q <= term ==> #[trigger] t[q] == s@[pos as int + q]);
        lemma_dec_some(t, term as int, term as int);
    }
    let mut acc: u64 = s[pos + term] as u64;
    let mut i: usize = term;
    while i > 0
        invariant
            pos <= len == s@.len(),
            t == s@.skip(pos as int),
            term < 10,
            pos + term < len,
            i <= term,
            t[term as int] < 128,
            forall|q: int| 0 <= q < term ==> #[trigger] t[q] >= 128,
            forall|q: int| 0 <= q <= term ==> #[trigger] t[q] == s@[pos as int + q],
            dec_varint_k(t.skip(i as int), (10 - i) as nat) == Some(
                (acc as nat, term - i + 1int),
            ),
        decreases i,
    {
        let b = s[pos + i - 1];
        let low: u64 = (b % 128) as u64;
        if acc > (u64::MAX - low) / 128 {
            proof {
                let d = (u64::MAX - low) / 128;
                vstd::arithmetic::div_mod::lemma_fundamental_div_mod(
                    (u64::MAX - low) as int,
                    128,
                );
                assert(acc * 128 >= (d + 1) * 128) by (nonlinear_arith)
                    requires
                        acc >= d + 1,
                ;
                assert(acc * 128 + low >= varint_limit());
                lemma_dec_some(t, i - 1, term as int);
                assert(t[i - 1] >= 128);
                assert((t[i - 1] - 128) as nat == low as nat);
                assert(dec_varint_k(t.skip(i - 1), (10 - i + 1) as nat)->Some_0.0 == low as nat
                    + 128 * (acc as nat));
                assert(low as nat + 128 * (acc as nat) >= varint_limit());
                lemma_dec_value_ge(t, 0, i - 1, term as int);
                lemma_dec_some(t, 0, term as int);
                assert(t.skip(0) =~= t);
                assert(dec_varint(t)->Some_0.0 >= varint_limit());
            }
            return Err(OperationFailedError);
        }
        proof {
            let d = (u64::MAX - low) / 128;
            vstd::arithmetic::div_mod::lemma_fundamental_div_mod((u64::MAX - low) as int, 128);
            assert(acc * 128 <= d * 128) by (nonlinear_arith)
                requires
                    acc <= d,
            ;
            lemma_dec_some(t, i - 1, term as int);
            assert(t[i - 1] >= 128);
            assert(t.skip(i as int - 1).skip(1) =~= t.skip(i as int));
        }
        acc = acc * 128 + low;
        i -= 1;
    }
    proof {
        assert(t.skip(0) =~= t);
    }
    Ok((acc, pos + term + 1))
}

/// Reads one length-delimited field of number `k` from `s` at `pos`: the
/// copied payload and the position just past the field.
pub fn read_field_at(s: &[u8], pos: usize, k: u64) -> (r: Result<(Vec<u8>, usize), OperationFailedError>)
    requires
        pos <= s@.len(),
        k * 8 + 2 < 128,
    ensures
        match r {
            Ok((payload, newpos)) => {
                &&& dec_field(k as nat, s@.skip(pos as int)) is Some
                &&& dec_field(k as nat, s@.skip(pos as int))->Some_0.0 == payload@
                &&& dec_field(k as nat, s@.skip(pos as int))->Some_0.1 == s@.skip(newpos as int)
                &&& pos < newpos <= s@.len()
            },
            Err(_) => dec_field(k as nat, s@.skip(pos as int)) is None,
        },
{
    let ghost t = s@.skip(pos as int);
    let slen = s.len();
    let (tag, p1) = match read_varint_at(s, pos) {
        Ok(x) => x,
        Err(e) => {
            return Err(e);
        },
    };
    if tag != k * 8 + 2 {
        return Err(OperationFailedError);
    }
    let ghost n1 = dec_varint(t)->Some_0.1;
    let (l, p2) = match read_varint_at(s, p1) {
        Ok(x) => x,
        Err(e) => {
            proof {
                assert(t.skip(n1) =~= s@.skip(p1 as int));
                lemma_dec_varint_n(s@.skip(p1 as int), 10);
                assert(t.len() <= slen);
                assert((slen as nat) < varint_limit());
            }
            return Err(e);
        },
    };
    proof {
        assert(t.skip(n1) =~= s@.skip(p1 as int));
    }
    let ghost n2 = dec_varint(t.skip(n1))->Some_0.1;
    if l > (s.len() - p2) as u64 {
        return Err(OperationFailedError);
    }
    let lu = l as usize;
    let payload = read_bytes_at(s, p2, lu);
    let newpos = p2 + lu;
    proof {
        assert(t.subrange(n1 + n2, n1 + n2 + l as int) =~= s@.subrange(
            p2 as int,
            p2 as int + l as int,
        ));
        assert(t.skip(n1 + n2 + l as int) =~= s@.skip(newpos as int));
    }
    Ok((payload, newpos))
}

/// Copies `count` bytes of `s` starting at `pos` into a fresh vector.
pub fn read_bytes_at(s: &[u8], pos: usize, count: usize) -> (r: Vec<u8>)
    requires
        pos + count <= s@.len(),
    ensures
        r@ == s@.subrange(pos as int, pos as int + count as int),
{
    let n = s.len();
    let mut r: Vec<u8> = Vec::new();
    let mut i: usize = 0;
    while i < count
        invariant
            pos + count <= n == s@.len(),
            i <= count,
            r@ == s@.subrange(pos as int, pos as int + i as int),
        decreases count - i,
    {
        r.push(s[pos + i]);
        i += 1;
        proof {
            assert(r@ =~= s@.subrange(pos as int, pos as int + i as int));
        }
    }
    r
}

/// Appends the varint encoding of `v` to `out`.
pub fn write_varint(out: &mut Vec<u8>, v: u64)
    ensures
        final(out)@ == old(out)@ + enc_varint(v as nat),
{
    let ghost orig = out@;
    let ghost whole = enc_varint(v as nat);
    let mut n = v;
    while n >= 128
        invariant
            orig + whole == out@ + enc_varint(n as nat),
        decreases n,
    {
        let b: u8 = (128 + (n % 128) as u8) as u8;
        proof {
            assert(enc_varint(n as nat) == seq![(128 + (n as nat % 128)) as u8] + enc_varint(
                n as nat / 128,
            ));
            assert((128 + (n as nat % 128)) as u8 == b);
            assert(out@.push(b) + enc_varint(n as nat / 128) =~= out@ + enc_varint(n as nat));
            vstd::arithmetic::div_mod::lemma_div_decreases(n as int, 128);
        }
        out.push(b);
        n = n / 128;
    }
    out.push(n as u8);
    proof {
        assert(enc_varint(n as nat) == seq![n as u8]);
        assert(old(out)@ + enc_varint(v as nat) =~= out@);
    }
}

/// Appends the length-delimited encoding of field `k` with the given payload
/// to `out`.
pub fn write_field(out: &mut Vec<u8>, k: u64, payload: &Vec<u8>)
    requires
        k * 8 + 2 < 128,
    ensures
        final(out)@ == old(out)@ + enc_field(k as nat, payload@),
{
    write_varint(out, k * 8 + 2);
    write_varint(out, payload.len() as u64);
    let mut i: usize = 0;
    let ghost mid = out@;
    while i < payload.len()
        invariant
            i <= payload@.len(),
            out@ == mid + payload@.take(i as int),
        decreases payload@.len() - i,
    {
        out.push(payload[i]);
        i += 1;
        proof {
            assert(out@ =~= mid + payload@.take(i as int));
        }
    }
    proof {
        assert(payload@.take(payload@.len() as int) =~= payload@);
        assert(out@ =~= old(out)@ + enc_field(k as nat, payload@));
    }
}

} // verus!

use vstd::prelude::*;

verus! {

/// A decoded varint consumed between one byte and the available fuel.
proof fn lemma_dec_varint_n(s: Seq<u8>, fuel: nat)
    ensures
        dec_varint_k(s, fuel) is Some ==> 1 <= dec_varint_k(s, fuel)->Some_0.1 <= fuel,
    decreases fuel,
{
    if fuel != 0 && s.len() != 0 && s[0] >= 128 {
        lemma_dec_varint_n(s.skip(1), (fuel - 1) as nat);
    }
}

} // verus!

use vstd::prelude::*;

verus! {

/// Extending the run of message payloads by one decodable payload extends the
/// decoded descriptors by one.
pub proof fn lemma_dec_descs_push(ps: Seq<Seq<u8>>, p: Seq<u8>)
    requires
        dec_descs(ps) is Some,
        dec_desc_payload(p) is Some,
    ensures
        dec_descs(ps.push(p)) == Some(dec_descs(ps)->Some_0.push(dec_desc_payload(p)->Some_0)),
    decreases ps.len(),
{
    if ps.len() == 0 {
        assert(ps.push(p)[0] == p);
        assert(ps.push(p).skip(1) =~= Seq::<Seq<u8>>::empty());
        assert(dec_descs(ps.push(p).skip(1)) == Some(Seq::<DescriptorProtoView>::empty()));
        assert(dec_descs(ps.push(p)) == Some(
            seq![dec_desc_payload(p)->Some_0] + Seq::<DescriptorProtoView>::empty(),
        ));
        assert(seq![dec_desc_payload(p)->Some_0] + Seq::<DescriptorProtoView>::empty()
            =~= dec_descs(ps)->Some_0.push(dec_desc_payload(p)->Some_0));
    } else {
        assert(ps.push(p)[0] == ps[0]);
        assert(ps.push(p).skip(1) =~= ps.skip(1).push(p));
        assert(dec_descs(ps) == Some(
            seq![dec_desc_payload(ps[0])->Some_0] + dec_descs(ps.skip(1))->Some_0,
        ));
        lemma_dec_descs_push(ps.skip(1), p);
        assert(dec_descs(ps.push(p)) == Some(
            seq![dec_desc_payload(ps[0])->Some_0] + dec_descs(ps.skip(1).push(p))->Some_0,
        ));
        assert(seq![dec_desc_payload(ps[0])->Some_0] + dec_descs(ps.skip(1))->Some_0.push(
            dec_desc_payload(p)->Some_0,
        ) =~= dec_descs(ps)->Some_0.push(dec_desc_payload(p)->Some_0));
    }
}

/// A run of message payloads with one undecodable element does not decode.
pub proof fn lemma_dec_descs_elem_none(ps: Seq<Seq<u8>>, i: int)
    requires
        0 <= i < ps.len(),
        dec_desc_payload(ps[i]) is None,
    ensures
        dec_descs(ps) is None,
    decreases ps.len(),
{
    if i > 0 {
        lemma_dec_descs_elem_none(ps.skip(1), i - 1);
    }
}

/// Extending the run of file payloads by one decodable payload extends the
/// decoded files by one.
pub proof fn lemma_dec_files_push(ps: Seq<Seq<u8>>, p: Seq<u8>)
    requires
        dec_files(ps) is Some,
        dec_file_payload(p) is Some,
    ensures
        dec_files(ps.push(p)) == Some(dec_files(ps)->Some_0.push(dec_file_payload(p)->Some_0)),
    decreases ps.len(),
{
    if ps.len() == 0 {
        assert(ps.push(p)[0] == p);
        assert(ps.push(p).skip(1) =~= Seq::<Seq<u8>>::empty());
        assert(dec_files(ps.push(p).skip(1)) == Some(Seq::<FileDescriptorProtoView>::empty()));
        assert(dec_files(ps.push(p)) == Some(
            seq![dec_file_payload(p)->Some_0] + Seq::<FileDescriptorProtoView>::empty(),
        ));
        assert(seq![dec_file_payload(p)->Some_0] + Seq::<FileDescriptorProtoView>::empty()
            =~= dec_files(ps)->Some_0.push(dec_file_payload(p)->Some_0));
    } else {
        assert(ps.push(p)[0] == ps[0]);
        assert(ps.push(p).skip(1) =~= ps.skip(1).push(p));
        assert(dec_files(ps) == Some(
            seq![dec_file_payload(ps[0])->Some_0] + dec_files(ps.skip(1))->Some_0,
        ));
        lemma_dec_files_push(ps.skip(1), p);
        assert(dec_files(ps.push(p)) == Some(
            seq![dec_file_payload(ps[0])->Some_0] + dec_files(ps.skip(1).push(p))->Some_0,
        ));
        assert(seq![dec_file_payload(ps[0])->Some_0] + dec_files(ps.skip(1))->Some_0.push(
            dec_file_payload(p)->Some_0,
        ) =~= dec_files(ps)->Some_0.push(dec_file_payload(p)->Some_0));
    }
}

/// A run of file payloads with one undecodable element does not decode.
pub proof fn lemma_dec_files_elem_none(ps: Seq<Seq<u8>>, i: int)
    requires
        0 <= i < ps.len(),
        dec_file_payload(ps[i]) is None,
    ensures
        dec_files(ps) is None,
    decreases ps.len(),
{
    if i > 0 {
        lemma_dec_files_elem_none(ps.skip(1), i - 1);
    }
}

/// The set encoding splits at any index into the encodings of the prefix and
/// the suffix.
pub proof fn lemma_enc_files_split(fs: Seq<FileDescriptorProtoView>, i: int)
    requires
        0 <= i <= fs.len(),
    ensures
        enc_files(fs) == enc_files(fs.take(i)) + enc_files(fs.skip(i)),
    decreases i,
{
    if i == 0 {
        assert(fs.take(0) =~= Seq::<FileDescriptorProtoView>::empty());
        assert(fs.skip(0) =~= fs);
        assert(enc_files(fs.take(0)) + enc_files(fs) =~= enc_files(fs));
    } else {
        lemma_enc_files_split(fs, i - 1);
        lemma_enc_files_push(fs.take(i - 1), fs[i - 1]);
        assert(fs.take(i - 1).push(fs[i - 1]) =~= fs.take(i));
        assert(fs.skip(i - 1)[0] == fs[i - 1]);
        assert(fs.skip(i - 1).skip(1) =~= fs.skip(i));
        assert(enc_files(fs.skip(i - 1)) == enc_field(1, enc_file_payload(fs[i - 1])) + enc_files(
            fs.skip(i),
        ));
        assert((enc_files(fs.take(i - 1)) + enc_field(1, enc_file_payload(fs[i - 1])))
            + enc_files(fs.skip(i)) =~= enc_files(fs.take(i - 1)) + (enc_field(
            1,
            enc_file_payload(fs[i - 1]),
        ) + enc_files(fs.skip(i))));
    }
}

/// Every dependency's bytes fit inside the dependency encoding.
proof fn lemma_enc_deps_len_ge(deps: Seq<Seq<u8>>, i: int)
    requires
        0 <= i < deps.len(),
    ensures
        enc_deps(deps).len() >= deps[i].len(),
    decreases i,
{
    lemma_enc_varint_pos(deps[0].len());
    if i == 0 {
    } else {
        lemma_enc_deps_len_ge(deps.skip(1), i - 1);
        assert(deps.skip(1)[i - 1] == deps[i]);
    }
}

/// Every message type's encoding fits inside the message encoding.
proof fn lemma_enc_msgs_len_ge(msgs: Seq<DescriptorProtoView>, i: int)
    requires
        0 <= i < msgs.len(),
    ensures
        enc_msgs(msgs).len() >= enc_desc_payload(msgs[i]).len() >= msgs[i].name.len(),
    decreases i,
{
    lemma_enc_varint_pos(msgs[i].name.len());
    lemma_enc_varint_pos(enc_desc_payload(msgs[0]).len());
    if i == 0 {
    } else {
        lemma_enc_msgs_len_ge(msgs.skip(1), i - 1);
        assert(msgs.skip(1)[i - 1] == msgs[i]);
    }
}

/// A file descriptor whose whole encoding is below the varint limit is
/// wire-well-formed.
pub proof fn lemma_wire_wf_file_from_len(f: FileDescriptorProtoView)
    requires
        enc_file_payload(f).len() < varint_limit(),
    ensures
        wire_wf_file(f),
{
    lemma_enc_varint_pos(f.name.len());
    assert(f.name.len() < varint_limit());
    assert forall|i: int| 0 <= i < f.dependency.len() implies #[trigger] f.dependency[i].len()
        < varint_limit() by {
        lemma_enc_deps_len_ge(f.dependency, i);
    }
    assert forall|i: int| 0 <= i < f.message_type.len() implies #[trigger] enc_desc_payload(
        f.message_type[i],
    ).len() < varint_limit() by {
        lemma_enc_msgs_len_ge(f.message_type, i);
    }
    assert forall|i: int| 0 <= i < f.message_type.len() implies #[trigger] f.message_type[i].name.len()
        < varint_limit() by {
        lemma_enc_msgs_len_ge(f.message_type, i);
    }
}

/// Every file's encoding fits inside the set encoding.
proof fn lemma_enc_files_len_ge(fs: Seq<FileDescriptorProtoView>, i: int)
    requires
        0 <= i < fs.len(),
    ensures
        enc_files(fs).len() >= enc_file_payload(fs[i]).len(),
    decreases i,
{
    lemma_enc_varint_pos(enc_file_payload(fs[0]).len());
    if i == 0 {
    } else {
        lemma_enc_files_len_ge(fs.skip(1), i - 1);
        assert(fs.skip(1)[i - 1] == fs[i]);
    }
}

/// A file descriptor set whose whole encoding is below the varint limit is
/// wire-well-formed.
pub proof fn lemma_wire_wf_set_from_len(s: FileDescriptorSetView)
    requires
        enc_set_payload(s).len() < varint_limit(),
    ensures
        wire_wf_set(s),
{
    assert forall|i: int| 0 <= i < s.file.len() implies #[trigger] wire_wf_file(s.file[i]) by {
        lemma_enc_files_len_ge(s.file, i);
        lemma_wire_wf_file_from_len(s.file[i]);
    }
    assert forall|i: int| 0 <= i < s.file.len() implies #[trigger] enc_file_payload(
        s.file[i],
    ).len() < varint_limit() by {
        lemma_enc_files_len_ge(s.file, i);
    }
}

} // verus!

use vstd::prelude::*;

verus! {

/// The round-trip law, with only a size bound assumed: any file descriptor
/// whose encoding fits the varint limit decodes back from that encoding. In
/// particular it holds of every descriptor a parse can build, since their
/// encodings fit in memory.
pub proof fn lemma_file_round_trip_from_len(f: FileDescriptorProtoView)
    requires
        enc_file_payload(f).len() < varint_limit(),
    ensures
        dec_file_payload(enc_file_payload(f)) == Some(f),
{
    lemma_wire_wf_file_from_len(f);
    lemma_file_round_trip(f);
}

/// The round-trip law for whole sets, with only a size bound assumed.
pub proof fn lemma_set_round_trip_from_len(s: FileDescriptorSetView)
    requires
        enc_set_payload(s).len() < varint_limit(),
    ensures
        dec_set_payload(enc_set_payload(s)) == Some(s),
{
    lemma_wire_wf_set_from_len(s);
    lemma_set_round_trip(s);
}

} // verus!
