//! Keys, entries, inspection and retention of stored executables.
use crate::cache::{
    bytes_before, hex, hex_text, ArtifactId, ArtifactRecord, ArtifactScan, FileArtifactStore,
    Lookup,
};
use crate::compiler::{program_key, LoweredProgram};
use crate::envelope::{append_bytes, decoded, flags_view, Entry, EntryModel};
use crate::error::{err, invalid, Error};
use crate::image::same_text;
use crate::op::copied;
use crate::text::joined_text;
use vstd::bytes::{spec_u32_to_le_bytes, spec_u64_to_le_bytes, u32_to_le_bytes, u64_to_le_bytes};
use vstd::prelude::*;
use vstd::string::StringSliceAdditionalSpecFns;
use vstd::utf8::encode_utf8;

verus! {

/// The 32 bytes that `blake3::hash` gives for an input.
pub uninterp spec fn blake3(input: Seq<u8>) -> Seq<u8>;

/// The digest of an input, by `blake3::hash`: 32 bytes that depend on the input
/// alone.
#[verifier::external_body]
fn blake3_digest(input: &[u8]) -> (r: [u8; 32])
    ensures
        r@ == blake3(input@),
{
    *blake3::hash(input).as_bytes()
}

/// Whether two byte lists are the same.
pub(crate) fn same_bytes(a: &[u8], b: &[u8]) -> (r: bool)
    ensures
        r == (a@ == b@),
{
    if a.len() != b.len() {
        return false;
    }
    let mut i: usize = 0;
    while i < a.len()
        invariant
            a@.len() == b@.len(),
            i <= a@.len(),
            forall|k: int| 0 <= k < i ==> a@[k] == b@[k],
        decreases a@.len() - i,
    {
        if a[i] != b[i] {
            return false;
        }
        i += 1;
    }
    assert(a@ =~= b@);
    true
}

/// Whether two optional byte lists are the same.
fn same_flags(a: &Option<Vec<u8>>, b: &Option<Vec<u8>>) -> (r: bool)
    ensures
        r == (flags_view(*a) == flags_view(*b)),
{
    match (a, b) {
        (None, None) => true,
        (Some(x), Some(y)) => same_bytes(x.as_slice(), y.as_slice()),
        _ => false,
    }
}

/// The ASCII bytes of a tag.
pub open spec fn tag_bytes(tag: Seq<char>) -> Seq<u8> {
    encode_utf8(tag)
}

/// A length in front of bytes.
pub open spec fn prefixed(bytes: Seq<u8>) -> Seq<u8> {
    spec_u64_to_le_bytes(bytes.len() as u64) + bytes
}

/// What the flags contribute to an identity: unset and empty are different.
pub open spec fn flags_part(flags: Option<Seq<u8>>) -> Seq<u8> {
    match flags {
        None => seq![0u8],
        Some(bytes) => seq![1u8] + prefixed(bytes),
    }
}

/// The input of the digest that identifies an entry.
pub open spec fn identity_input(
    namespace: Seq<char>,
    flags: Option<Seq<u8>>,
    key: Seq<u8>,
) -> Seq<u8> {
    tag_bytes("rxla-core-disk-v2-selected-device-options-v2"@) + (prefixed(encode_utf8(namespace))
        + (flags_part(flags) + key))
}

/// Bytes behind their length tell where they end.
pub proof fn lemma_prefixed_apart(a: Seq<u8>, b: Seq<u8>, x: Seq<u8>, y: Seq<u8>)
    requires
        a.len() <= u64::MAX,
        b.len() <= u64::MAX,
        prefixed(a) + x == prefixed(b) + y,
    ensures
        a == b,
        x == y,
{
    vstd::bytes::lemma_auto_spec_u64_to_from_le_bytes();
    let left = prefixed(a) + x;
    let right = prefixed(b) + y;
    assert(left.take(8) =~= spec_u64_to_le_bytes(a.len() as u64));
    assert(right.take(8) =~= spec_u64_to_le_bytes(b.len() as u64));
    assert(a.len() == b.len());
    assert(left.subrange(8, 8 + a.len() as int) =~= a);
    assert(right.subrange(8, 8 + b.len() as int) =~= b);
    assert(left.skip(8 + a.len() as int) =~= x);
    assert(right.skip(8 + b.len() as int) =~= y);
}

/// Different programs, namespaces or flags have different inputs to the digest.
pub proof fn identities_tell_programs_apart(
    a: (Seq<char>, Option<Seq<u8>>, Seq<u8>),
    b: (Seq<char>, Option<Seq<u8>>, Seq<u8>),
)
    requires
        encode_utf8(a.0).len() <= u64::MAX,
        encode_utf8(b.0).len() <= u64::MAX,
        a.1 matches Some(flags) ==> flags.len() <= u64::MAX,
        b.1 matches Some(flags) ==> flags.len() <= u64::MAX,
        identity_input(a.0, a.1, a.2) == identity_input(b.0, b.1, b.2),
    ensures
        a == b,
{
    vstd::utf8::encode_utf8_decode_utf8(a.0);
    vstd::utf8::encode_utf8_decode_utf8(b.0);
    let tag = tag_bytes("rxla-core-disk-v2-selected-device-options-v2"@);
    let x = prefixed(encode_utf8(a.0)) + (flags_part(a.1) + a.2);
    let y = prefixed(encode_utf8(b.0)) + (flags_part(b.1) + b.2);
    assert((tag + x).skip(tag.len() as int) =~= x);
    assert((tag + y).skip(tag.len() as int) =~= y);
    lemma_prefixed_apart(
        encode_utf8(a.0),
        encode_utf8(b.0),
        flags_part(a.1) + a.2,
        flags_part(b.1) + b.2,
    );
    let p = flags_part(a.1) + a.2;
    let q = flags_part(b.1) + b.2;
    assert(p[0] == q[0]);
    match (a.1, b.1) {
        (Some(f), Some(g)) => {
            assert(p.skip(1) =~= prefixed(f) + a.2);
            assert(q.skip(1) =~= prefixed(g) + b.2);
            lemma_prefixed_apart(f, g, a.2, b.2);
        },
        (None, None) => {
            assert(p.skip(1) =~= a.2);
            assert(q.skip(1) =~= b.2);
        },
        _ => {
            assert(false);
        },
    }
}

/// Append bytes behind their length.
fn append_prefixed(out: &mut Vec<u8>, bytes: &[u8])
    ensures
        final(out)@ == old(out)@ + prefixed(bytes@),
{
    let length: usize = bytes.len();
    let prefix: Vec<u8> = u64_to_le_bytes(length as u64);
    append_bytes(out, prefix.as_slice());
    append_bytes(out, bytes);
    assert(out@ =~= old(out)@ + prefixed(bytes@));
}

/// What is known of a client's device.
#[derive(Debug)]
pub struct DeviceInfo {
    pub id: i32,
    pub kind: String,
    pub description: String,
    pub selected: bool,
}

/// What is known of a client.
#[derive(Debug)]
pub struct ClientInfo {
    pub api_major: i32,
    pub api_minor: i32,
    pub platform: String,
    pub platform_version: String,
    pub process_index: i32,
    pub addressable_devices: Vec<DeviceInfo>,
}

/// The bit pattern of an I32 value.
pub open spec fn bits_of(value: i32) -> u32 {
    if value >= 0 {
        value as u32
    } else {
        (value + 0x1_0000_0000) as u32
    }
}

/// The bit pattern of an I32 value.
fn pattern_of(value: i32) -> (r: u32)
    ensures
        r == bits_of(value),
{
    if value >= 0 {
        value as u32
    } else {
        let wide: i64 = value as i64 + 0x1_0000_0000;
        wide as u32
    }
}

/// The number of selected devices among the first `count`.
pub open spec fn selected_total(devices: Seq<DeviceInfo>, count: nat) -> nat
    decreases count,
{
    if count == 0 {
        0
    } else {
        selected_total(devices, (count - 1) as nat) + if devices[count - 1].selected {
            1nat
        } else {
            0
        }
    }
}

/// The text fields of a client and its selected device.
pub open spec fn client_texts(key: Seq<char>, info: ClientInfo, device: DeviceInfo) -> Seq<
    Seq<char>,
> {
    seq![
        key,
        info.platform@,
        info.platform_version@,
        device.kind@,
        device.description@,
    ]
}

/// The numbers of a client and its selected device.
pub open spec fn client_numbers(info: ClientInfo, device: DeviceInfo) -> Seq<u8> {
    let id = spec_u32_to_le_bytes(bits_of(device.id));
    let process = spec_u32_to_le_bytes(bits_of(info.process_index)) + id;
    let minor = spec_u32_to_le_bytes(bits_of(info.api_minor)) + process;
    spec_u32_to_le_bytes(bits_of(info.api_major)) + minor
}

/// The input of the digest that names the space of a client.
pub open spec fn namespace_input(key: Seq<char>, info: ClientInfo, device: DeviceInfo) -> Seq<u8> {
    let described = prefixed(encode_utf8(device.description@)) + client_numbers(info, device);
    let kind = prefixed(encode_utf8(device.kind@)) + described;
    let version = prefixed(encode_utf8(info.platform_version@)) + kind;
    let platform = prefixed(encode_utf8(info.platform@)) + version;
    tag_bytes("rxla-core-client-namespace-v1"@) + (prefixed(encode_utf8(key)) + platform)
}

/// Four bytes in front tell where they end.
proof fn lemma_number_apart(a: i32, b: i32, x: Seq<u8>, y: Seq<u8>)
    requires
        spec_u32_to_le_bytes(bits_of(a)) + x == spec_u32_to_le_bytes(bits_of(b)) + y,
    ensures
        a == b,
        x == y,
{
    vstd::bytes::lemma_auto_spec_u32_to_from_le_bytes();
    let left = spec_u32_to_le_bytes(bits_of(a)) + x;
    let right = spec_u32_to_le_bytes(bits_of(b)) + y;
    assert(left.take(4) =~= spec_u32_to_le_bytes(bits_of(a)));
    assert(right.take(4) =~= spec_u32_to_le_bytes(bits_of(b)));
    assert(left.skip(4) =~= x);
    assert(right.skip(4) =~= y);
}

/// Clients that differ in the compatibility key or in any field have different
/// inputs to the digest.
pub proof fn namespaces_tell_clients_apart(
    key: Seq<char>,
    info: ClientInfo,
    device: DeviceInfo,
    other_key: Seq<char>,
    other: ClientInfo,
    other_device: DeviceInfo,
)
    requires
        forall|k: int|
            0 <= k < 5 ==> encode_utf8(#[trigger] client_texts(key, info, device)[k]).len()
                <= u64::MAX,
        forall|k: int|
            0 <= k < 5 ==> encode_utf8(
                #[trigger] client_texts(other_key, other, other_device)[k],
            ).len() <= u64::MAX,
        namespace_input(key, info, device) == namespace_input(other_key, other, other_device),
    ensures
        client_texts(key, info, device) == client_texts(other_key, other, other_device),
        info.api_major == other.api_major,
        info.api_minor == other.api_minor,
        info.process_index == other.process_index,
        device.id == other_device.id,
{
    let a = client_texts(key, info, device);
    let b = client_texts(other_key, other, other_device);
    assert(encode_utf8(a[0]).len() <= u64::MAX && encode_utf8(b[0]).len() <= u64::MAX);
    assert(encode_utf8(a[1]).len() <= u64::MAX && encode_utf8(b[1]).len() <= u64::MAX);
    assert(encode_utf8(a[2]).len() <= u64::MAX && encode_utf8(b[2]).len() <= u64::MAX);
    assert(encode_utf8(a[3]).len() <= u64::MAX && encode_utf8(b[3]).len() <= u64::MAX);
    assert(encode_utf8(a[4]).len() <= u64::MAX && encode_utf8(b[4]).len() <= u64::MAX);
    let tag = tag_bytes("rxla-core-client-namespace-v1"@);
    let id = spec_u32_to_le_bytes(bits_of(device.id));
    let other_id = spec_u32_to_le_bytes(bits_of(other_device.id));
    let process = spec_u32_to_le_bytes(bits_of(info.process_index)) + id;
    let other_process = spec_u32_to_le_bytes(bits_of(other.process_index)) + other_id;
    let minor = spec_u32_to_le_bytes(bits_of(info.api_minor)) + process;
    let other_minor = spec_u32_to_le_bytes(bits_of(other.api_minor)) + other_process;
    let major = spec_u32_to_le_bytes(bits_of(info.api_major)) + minor;
    let other_major = spec_u32_to_le_bytes(bits_of(other.api_major)) + other_minor;
    let t4 = prefixed(encode_utf8(a[4])) + major;
    let u4 = prefixed(encode_utf8(b[4])) + other_major;
    let t3 = prefixed(encode_utf8(a[3])) + t4;
    let u3 = prefixed(encode_utf8(b[3])) + u4;
    let t2 = prefixed(encode_utf8(a[2])) + t3;
    let u2 = prefixed(encode_utf8(b[2])) + u3;
    let t1 = prefixed(encode_utf8(a[1])) + t2;
    let u1 = prefixed(encode_utf8(b[1])) + u2;
    let t0 = prefixed(encode_utf8(a[0])) + t1;
    let u0 = prefixed(encode_utf8(b[0])) + u1;
    assert((tag + t0).skip(tag.len() as int) =~= t0);
    assert((tag + u0).skip(tag.len() as int) =~= u0);
    lemma_prefixed_apart(encode_utf8(a[0]), encode_utf8(b[0]), t1, u1);
    lemma_prefixed_apart(encode_utf8(a[1]), encode_utf8(b[1]), t2, u2);
    lemma_prefixed_apart(encode_utf8(a[2]), encode_utf8(b[2]), t3, u3);
    lemma_prefixed_apart(encode_utf8(a[3]), encode_utf8(b[3]), t4, u4);
    lemma_prefixed_apart(encode_utf8(a[4]), encode_utf8(b[4]), major, other_major);
    lemma_number_apart(info.api_major, other.api_major, minor, other_minor);
    lemma_number_apart(info.api_minor, other.api_minor, process, other_process);
    lemma_number_apart(info.process_index, other.process_index, id, other_id);
    assert(id + Seq::<u8>::empty() =~= id);
    assert(other_id + Seq::<u8>::empty() =~= other_id);
    lemma_number_apart(device.id, other_device.id, Seq::empty(), Seq::empty());
    assert forall|k: int| 0 <= k < 5 implies a[k] == b[k] by {
        vstd::utf8::encode_utf8_decode_utf8(a[k]);
        vstd::utf8::encode_utf8_decode_utf8(b[k]);
        assert(encode_utf8(a[k]) == encode_utf8(b[k]));
    }
    assert(a =~= b);
}

/// The name of the space of a client.
pub open spec fn namespace_of(key: Seq<char>, info: ClientInfo, device: DeviceInfo) -> Seq<char> {
    "client-v1-"@ + hex(blake3(namespace_input(key, info, device)))
}

/// The refusal of a client for a derived namespace.
pub open spec fn client_refusal(key: Seq<char>, info: ClientInfo) -> Option<Error> {
    let total = selected_total(info.addressable_devices@, info.addressable_devices@.len());
    if key.len() == 0 {
        Some(invalid("client cache requires a nonempty compatibility key"))
    } else if total == 0 {
        Some(invalid("cache client has no selected device"))
    } else if total > 1 {
        Some(invalid("cache client has multiple selected devices"))
    } else {
        None
    }
}

/// The name of a client's space, from a compatibility key, the client and its
/// one selected device.
pub fn client_namespace(key: &str, info: &ClientInfo) -> (r: Result<String, Error>)
    ensures
        match r {
            Ok(name) => client_refusal(key@, *info) is None && exists|i: int|
                0 <= i < info.addressable_devices@.len() && (
                #[trigger] info.addressable_devices@[i]).selected && name@ == namespace_of(
                    key@,
                    *info,
                    info.addressable_devices@[i],
                ),
            Err(e) => client_refusal(key@, *info) == Some(e),
        },
{
    if key.is_empty() {
        return Err(err("client cache requires a nonempty compatibility key"));
    }
    let devices: &Vec<DeviceInfo> = &info.addressable_devices;
    let mut found: Option<usize> = None;
    let mut i: usize = 0;
    while i < devices.len()
        invariant
            devices@ == info.addressable_devices@,
            key@.len() > 0,
            i <= devices@.len(),
            match found {
                None => selected_total(devices@, i as nat) == 0,
                Some(at) => {
                    &&& at < i
                    &&& devices@[at as int].selected
                    &&& selected_total(devices@, i as nat) == 1
                },
            },
        decreases devices@.len() - i,
    {
        if devices[i].selected {
            if found.is_some() {
                proof {
                    lemma_selected_grows(devices@, (i + 1) as nat, devices@.len());
                }
                return Err(err("cache client has multiple selected devices"));
            }
            found = Some(i);
        }
        i += 1;
    }
    let at: usize = match found {
        None => {
            return Err(err("cache client has no selected device"));
        },
        Some(at) => at,
    };
    let device: &DeviceInfo = &devices[at];
    let mut input: Vec<u8> = Vec::new();
    append_bytes(&mut input, "rxla-core-client-namespace-v1".as_bytes());
    append_prefixed(&mut input, key.as_bytes());
    append_prefixed(&mut input, info.platform.as_str().as_bytes());
    append_prefixed(&mut input, info.platform_version.as_str().as_bytes());
    append_prefixed(&mut input, device.kind.as_str().as_bytes());
    append_prefixed(&mut input, device.description.as_str().as_bytes());
    append_bytes(&mut input, u32_to_le_bytes(pattern_of(info.api_major)).as_slice());
    append_bytes(&mut input, u32_to_le_bytes(pattern_of(info.api_minor)).as_slice());
    append_bytes(&mut input, u32_to_le_bytes(pattern_of(info.process_index)).as_slice());
    append_bytes(&mut input, u32_to_le_bytes(pattern_of(device.id)).as_slice());
    assert(input@ =~= namespace_input(key@, *info, *device));
    let digest: [u8; 32] = blake3_digest(input.as_slice());
    let id = ArtifactId::new(digest);
    let text: String = joined_text("client-v1-", digest_text(&id).as_str());
    assert(info.addressable_devices@[at as int].selected);
    Ok(text)
}

/// The hexadecimal text of an identity.
fn digest_text(id: &ArtifactId) -> (r: String)
    ensures
        r@ == hex(id@),
{
    let mut list: Vec<u8> = Vec::new();
    let bytes: &[u8; 32] = id.as_bytes();
    let mut i: usize = 0;
    while i < 32
        invariant
            bytes@ == id@,
            bytes@.len() == 32,
            i <= 32,
            list@ == bytes@.take(i as int),
        decreases 32 - i,
    {
        list.push(bytes[i]);
        assert(bytes@.take(i + 1) =~= bytes@.take(i as int).push(bytes@[i as int]));
        i += 1;
    }
    assert(bytes@.take(32) =~= bytes@);
    hex_text(list.as_slice())
}

/// More devices hold no fewer selected ones.
proof fn lemma_selected_grows(devices: Seq<DeviceInfo>, low: nat, high: nat)
    requires
        low <= high <= devices.len(),
    ensures
        selected_total(devices, low) <= selected_total(devices, high),
    decreases high - low,
{
    if low < high {
        lemma_selected_grows(devices, low + 1, high);
    }
}

/// What a scan of a directory found.
#[derive(Clone, Copy, PartialEq, Eq, Structural, Debug)]
pub struct DiskCacheInspection {
    pub entry_files: u64,
    pub encoded_bytes: u64,
    pub compatible: u64,
    pub incompatible: u64,
    pub corrupt: u64,
    pub oversized: u64,
    pub ignored: u64,
}

/// What a trim did.
#[derive(Clone, Copy, PartialEq, Eq, Structural, Debug)]
pub struct DiskCacheTrim {
    pub removed_files: u64,
    pub removed_bytes: u64,
    pub already_absent: u64,
    pub remaining_compatible_bytes: u64,
}

/// An entry that may be removed: its age, its identity and its size.
#[derive(Clone, Copy, Debug)]
pub struct TrimCandidate {
    pub modified: i128,
    pub id: ArtifactId,
    pub bytes: u64,
}

/// What an entry file is to a cache.
#[derive(Clone, Copy, PartialEq, Eq, Structural, Debug)]
pub enum Kind {
    Compatible,
    Incompatible,
    Corrupt,
    Oversized,
    Missing,
}

/// A cache of stored executables for one namespace and one set of flags.
pub struct DiskCache {
    store: FileArtifactStore,
    namespace: String,
    xla_flags: Option<Vec<u8>>,
    auto_trim_bytes: Option<u64>,
}

/// What an entry read from a file is to a cache.
pub open spec fn kind_of_entry(
    namespace: Seq<char>,
    flags: Option<Seq<u8>>,
    id: Seq<u8>,
    entry: Option<EntryModel>,
) -> Kind {
    match entry {
        None => Kind::Corrupt,
        Some(entry) => if entry.checksum != blake3(entry.artifact) {
            Kind::Corrupt
        } else if entry.version != 2 || entry.namespace != namespace || entry.xla_flags != flags {
            Kind::Incompatible
        } else if blake3(identity_input(namespace, flags, entry.key)) != id {
            Kind::Corrupt
        } else {
            Kind::Compatible
        },
    }
}

/// What the outcome of a lookup is to a cache.
pub open spec fn kind_of(
    namespace: Seq<char>,
    flags: Option<Seq<u8>>,
    id: Seq<u8>,
    lookup: Lookup,
) -> Kind {
    match lookup {
        Lookup::Missing => Kind::Missing,
        Lookup::Oversized => Kind::Oversized,
        Lookup::Hit(bytes) => kind_of_entry(namespace, flags, id, decoded(bytes@)),
    }
}

/// The kinds of the first `count` records.
pub open spec fn kinds(
    namespace: Seq<char>,
    flags: Option<Seq<u8>>,
    records: Seq<ArtifactRecord>,
    lookups: Seq<Lookup>,
    count: nat,
) -> Seq<Kind> {
    Seq::new(count, |k: int| kind_of(namespace, flags, records[k].id@, lookups[k]))
}

/// How many of the first `count` are of a kind.
pub open spec fn kind_total(kinds: Seq<Kind>, kind: Kind, count: nat) -> nat
    decreases count,
{
    if count == 0 {
        0
    } else {
        kind_total(kinds, kind, (count - 1) as nat) + if kinds[count - 1] == kind {
            1nat
        } else {
            0
        }
    }
}

/// The encoded sizes of the first `count` records together.
pub open spec fn size_total(records: Seq<ArtifactRecord>, count: nat) -> nat
    decreases count,
{
    if count == 0 {
        0
    } else {
        size_total(records, (count - 1) as nat) + records[count - 1].encoded_bytes as nat
    }
}

/// More records are no smaller together.
proof fn lemma_size_grows(records: Seq<ArtifactRecord>, low: nat, high: nat)
    requires
        low <= high <= records.len(),
    ensures
        size_total(records, low) <= size_total(records, high),
    decreases high - low,
{
    if low < high {
        lemma_size_grows(records, low + 1, high);
    }
}

/// Counts are bounded, and agree on a common prefix.
proof fn lemma_kind_total(a: Seq<Kind>, b: Seq<Kind>, kind: Kind, count: nat)
    requires
        count <= a.len(),
        count <= b.len(),
        forall|k: int| 0 <= k < count ==> a[k] == b[k],
    ensures
        kind_total(a, kind, count) == kind_total(b, kind, count),
        kind_total(a, kind, count) <= count,
    decreases count,
{
    if count > 0 {
        lemma_kind_total(a, b, kind, (count - 1) as nat);
    }
}

/// The compatible entries among the first `count` records.
pub open spec fn candidates(records: Seq<ArtifactRecord>, kinds: Seq<Kind>, count: nat) -> Seq<
    TrimCandidate,
>
    decreases count,
{
    if count == 0 {
        Seq::empty()
    } else {
        let rest = candidates(records, kinds, (count - 1) as nat);
        let record = records[count - 1];
        if kinds[count - 1] == Kind::Compatible {
            rest.push(
                TrimCandidate {
                    modified: record.modified,
                    id: record.id,
                    bytes: record.encoded_bytes,
                },
            )
        } else {
            rest
        }
    }
}

impl DiskCache {
    /// The storage limits.
    pub closed spec fn limits(self) -> FileArtifactStore {
        self.store
    }

    /// The namespace.
    pub closed spec fn space(self) -> Seq<char> {
        self.namespace@
    }

    /// The captured flags.
    pub closed spec fn flags(self) -> Option<Seq<u8>> {
        flags_view(self.xla_flags)
    }

    /// The size to trim to after each publication.
    pub closed spec fn budget(self) -> Option<u64> {
        self.auto_trim_bytes
    }

    /// The namespace is not empty, and the limits are limits.
    pub open spec fn wf(self) -> bool {
        self.limits().wf() && self.space().len() > 0
    }

    /// The identity of the entry of a key.
    pub open spec fn identity(self, key: Seq<u8>) -> Seq<u8> {
        blake3(identity_input(self.space(), self.flags(), key))
    }

    /// A cache for a namespace and the flags in force.
    pub fn new(namespace: &str, xla_flags: Option<Vec<u8>>, max_entry_bytes: usize) -> (r: Result<
        DiskCache,
        Error,
    >)
        ensures
            match r {
                Ok(cache) => {
                    &&& cache.wf()
                    &&& cache.space() == namespace@
                    &&& cache.flags() == flags_view(xla_flags)
                    &&& cache.limits().limit() == max_entry_bytes
                    &&& cache.limits().suffix() == "pb"@
                    &&& cache.budget() is None
                },
                Err(e) => {
                    &&& namespace@.len() == 0 || max_entry_bytes == 0 || max_entry_bytes
                        == usize::MAX
                    &&& e == invalid(
                        "disk cache requires namespace and bounded positive entry size",
                    )
                },
            },
    {
        if namespace.is_empty() || max_entry_bytes == 0 || max_entry_bytes == usize::MAX {
            return Err(err("disk cache requires namespace and bounded positive entry size"));
        }
        let store: FileArtifactStore = match FileArtifactStore::new(max_entry_bytes) {
            Ok(store) => store,
            Err(_) => {
                assert(false);
                return Err(err("disk cache requires namespace and bounded positive entry size"));
            },
        };
        proof {
            reveal_strlit("pb");
        }
        let store: FileArtifactStore = match store.with_extension("pb") {
            Ok(store) => store,
            Err(_) => {
                assert(false);
                return Err(err("disk cache requires namespace and bounded positive entry size"));
            },
        };
        Ok(
            DiskCache {
                store,
                namespace: namespace.to_owned(),
                xla_flags,
                auto_trim_bytes: None,
            },
        )
    }

    /// A cache for a client's space, derived from a compatibility key.
    pub fn new_for_client(
        compatibility_key: &str,
        info: &ClientInfo,
        xla_flags: Option<Vec<u8>>,
        max_entry_bytes: usize,
    ) -> (r: Result<DiskCache, Error>)
        ensures
            match client_refusal(compatibility_key@, *info) {
                Some(e) => r == Err::<DiskCache, Error>(e),
                None => match r {
                    Ok(cache) => {
                        &&& cache.wf()
                        &&& cache.flags() == flags_view(xla_flags)
                        &&& cache.limits().limit() == max_entry_bytes
                        &&& exists|i: int|
                            0 <= i < info.addressable_devices@.len() && (
                            #[trigger] info.addressable_devices@[i]).selected && cache.space()
                                == namespace_of(
                                compatibility_key@,
                                *info,
                                info.addressable_devices@[i],
                            )
                    },
                    Err(e) => (max_entry_bytes == 0 || max_entry_bytes == usize::MAX) && e
                        == invalid(
                        "disk cache requires namespace and bounded positive entry size",
                    ),
                },
            },
    {
        let namespace: String = client_namespace(compatibility_key, info)?;
        proof {
            reveal_strlit("client-v1-");
        }
        Self::new(namespace.as_str(), xla_flags, max_entry_bytes)
    }

    /// The cache with trimming after each publication.
    pub fn with_auto_trim_to_bytes(self, budget: u64) -> (r: DiskCache)
        ensures
            r.limits() == self.limits(),
            r.space() == self.space(),
            r.flags() == self.flags(),
            r.budget() == Some(budget),
    {
        DiskCache {
            store: self.store,
            namespace: self.namespace,
            xla_flags: self.xla_flags,
            auto_trim_bytes: Some(budget),
        }
    }

    /// The size to trim to after each publication.
    pub fn auto_trim_bytes(&self) -> (r: Option<u64>)
        ensures
            r == self.budget(),
    {
        self.auto_trim_bytes
    }

    /// The storage limits.
    pub fn store(&self) -> (r: &FileArtifactStore)
        ensures
            *r == self.limits(),
    {
        &self.store
    }

    /// The identity of the entry of a key.
    pub fn artifact_id(&self, key: &[u8]) -> (r: ArtifactId)
        ensures
            r@ == self.identity(key@),
    {
        let mut input: Vec<u8> = Vec::new();
        append_bytes(&mut input, "rxla-core-disk-v2-selected-device-options-v2".as_bytes());
        append_prefixed(&mut input, self.namespace.as_str().as_bytes());
        match &self.xla_flags {
            None => {
                input.push(0u8);
            },
            Some(flags) => {
                input.push(1u8);
                append_prefixed(&mut input, flags.as_slice());
            },
        }
        append_bytes(&mut input, key);
        assert(input@ =~= identity_input(self.space(), self.flags(), key@));
        ArtifactId::new(blake3_digest(input.as_slice()))
    }

    /// The identity of the entry of a program, whose removal makes the next
    /// request for it a miss.
    pub fn invalidate(&self, program: &LoweredProgram) -> (r: ArtifactId)
        ensures
            r@ == self.identity(program_key("mlir"@, program.source())),
    {
        let key: Vec<u8> = program.cache_key();
        self.artifact_id(key.as_slice())
    }

    /// The entry to store for a key and an executable.
    pub fn entry(&self, key: &[u8], artifact: Vec<u8>) -> (r: Entry)
        ensures
            r@ == (EntryModel {
                version: 2,
                namespace: self.space(),
                key: key@,
                artifact: artifact@,
                checksum: blake3(artifact@),
                xla_flags: self.flags(),
            }),
    {
        let digest = ArtifactId::new(blake3_digest(artifact.as_slice()));
        let flags: Option<Vec<u8>> = match &self.xla_flags {
            None => None,
            Some(flags) => Some(copied(flags)),
        };
        Entry {
            version: 2,
            namespace: self.namespace.as_str().to_owned(),
            key: vstd::slice::slice_to_vec(key),
            artifact,
            checksum: id_bytes(&digest),
            xla_flags: flags,
        }
    }

    /// The entry that bytes store for a key. Another version, namespace, key or
    /// set of flags, and a wrong checksum, are refused.
    pub fn decode_entry(&self, bytes: &[u8], key: &[u8]) -> (r: Result<Entry, Error>)
        ensures
            match r {
                Ok(entry) => decoded(bytes@) == Some(entry@) && matches_key(
                    self.space(),
                    self.flags(),
                    key@,
                    entry@,
                ),
                Err(e) => match decoded(bytes@) {
                    None => e == invalid("invalid cache envelope"),
                    Some(entry) => !matches_key(self.space(), self.flags(), key@, entry) && e
                        == invalid("cache key or checksum mismatch"),
                },
            },
    {
        let entry: Entry = Entry::decode(bytes)?;
        let digest = ArtifactId::new(blake3_digest(entry.artifact.as_slice()));
        let expected: Vec<u8> = id_bytes(&digest);
        if entry.version != 2 || !same_text(entry.namespace.as_str(), self.namespace.as_str())
            || !same_bytes(entry.key.as_slice(), key) || !same_flags(
            &entry.xla_flags,
            &self.xla_flags,
        ) || !same_bytes(entry.checksum.as_slice(), expected.as_slice()) {
            return Err(err("cache key or checksum mismatch"));
        }
        Ok(entry)
    }

    /// The executable that a lookup found for a key, or none where there is no
    /// entry.
    pub fn load(&self, key: &[u8], lookup: &Lookup) -> (r: Result<Option<Vec<u8>>, Error>)
        ensures
            match lookup {
                Lookup::Missing => r == Ok::<Option<Vec<u8>>, Error>(None),
                Lookup::Oversized => r == Err::<Option<Vec<u8>>, Error>(
                    invalid("cache entry exceeds size limit"),
                ),
                Lookup::Hit(bytes) => match decoded(bytes@) {
                    None => r == Err::<Option<Vec<u8>>, Error>(invalid("invalid cache envelope")),
                    Some(entry) => if matches_key(self.space(), self.flags(), key@, entry) {
                        r matches Ok(Some(artifact)) && artifact@ == entry.artifact
                    } else {
                        r == Err::<Option<Vec<u8>>, Error>(
                            invalid("cache key or checksum mismatch"),
                        )
                    },
                },
            },
    {
        match lookup {
            Lookup::Missing => Ok(None),
            Lookup::Oversized => Err(err("cache entry exceeds size limit")),
            Lookup::Hit(bytes) => {
                let entry: Entry = self.decode_entry(bytes.as_slice(), key)?;
                Ok(Some(entry.artifact))
            },
        }
    }

    /// What an entry file is to this cache.
    fn classify(&self, id: &ArtifactId, lookup: &Lookup) -> (r: Kind)
        ensures
            r == kind_of(self.space(), self.flags(), id@, *lookup),
    {
        let bytes: &Vec<u8> = match lookup {
            Lookup::Missing => {
                return Kind::Missing;
            },
            Lookup::Oversized => {
                return Kind::Oversized;
            },
            Lookup::Hit(bytes) => bytes,
        };
        let entry: Entry = match Entry::decode(bytes.as_slice()) {
            Ok(entry) => entry,
            Err(_) => {
                return Kind::Corrupt;
            },
        };
        let digest = ArtifactId::new(blake3_digest(entry.artifact.as_slice()));
        let expected: Vec<u8> = id_bytes(&digest);
        if !same_bytes(entry.checksum.as_slice(), expected.as_slice()) {
            Kind::Corrupt
        } else if entry.version != 2 || !same_text(
            entry.namespace.as_str(),
            self.namespace.as_str(),
        ) || !same_flags(&entry.xla_flags, &self.xla_flags) {
            Kind::Incompatible
        } else if !self.artifact_id(entry.key.as_slice()).same(id) {
            Kind::Corrupt
        } else {
            Kind::Compatible
        }
    }

    /// Classify the entry files of a directory, given what each lookup found.
    /// Compatible entries can be collected for trimming.
    pub fn scan(
        &self,
        scan: &ArtifactScan,
        lookups: &Vec<Lookup>,
        collect_trim_candidates: bool,
    ) -> (r: Result<(DiskCacheInspection, Vec<TrimCandidate>), Error>)
        requires
            lookups@.len() == scan.records@.len(),
        ensures
            ({
                let count = scan.records@.len();
                let found = kinds(self.space(), self.flags(), scan.records@, lookups@, count);
                match r {
                    Ok((inspection, list)) => {
                        &&& size_total(scan.records@, count) <= u64::MAX
                        &&& inspection.entry_files == count
                        &&& inspection.encoded_bytes == size_total(scan.records@, count)
                        &&& inspection.compatible == kind_total(found, Kind::Compatible, count)
                        &&& inspection.incompatible == kind_total(found, Kind::Incompatible, count)
                        &&& inspection.corrupt == kind_total(found, Kind::Corrupt, count)
                        &&& inspection.oversized == kind_total(found, Kind::Oversized, count)
                        &&& inspection.ignored == scan.ignored
                        &&& list@ == if collect_trim_candidates {
                            candidates(scan.records@, found, count)
                        } else {
                            Seq::empty()
                        }
                    },
                    Err(e) => size_total(scan.records@, count) > u64::MAX && e == invalid(
                        "cache size overflow",
                    ),
                }
            }),
    {
        let mut result = DiskCacheInspection {
            entry_files: 0,
            encoded_bytes: 0,
            compatible: 0,
            incompatible: 0,
            corrupt: 0,
            oversized: 0,
            ignored: scan.ignored,
        };
        let ghost records = scan.records@;
        let ghost found = kinds(self.space(), self.flags(), records, lookups@, records.len());
        let mut list: Vec<TrimCandidate> = Vec::new();
        let mut i: usize = 0;
        while i < scan.records.len()
            invariant
                records == scan.records@,
                lookups@.len() == records.len(),
                found == kinds(self.space(), self.flags(), records, lookups@, records.len()),
                i <= records.len(),
                result.entry_files == i,
                result.encoded_bytes == size_total(records, i as nat),
                result.compatible == kind_total(found, Kind::Compatible, i as nat),
                result.incompatible == kind_total(found, Kind::Incompatible, i as nat),
                result.corrupt == kind_total(found, Kind::Corrupt, i as nat),
                result.oversized == kind_total(found, Kind::Oversized, i as nat),
                result.ignored == scan.ignored,
                list@ == if collect_trim_candidates {
                    candidates(records, found, i as nat)
                } else {
                    Seq::empty()
                },
            decreases records.len() - i,
        {
            proof {
                lemma_kind_total(found, found, Kind::Compatible, i as nat);
                lemma_kind_total(found, found, Kind::Incompatible, i as nat);
                lemma_kind_total(found, found, Kind::Corrupt, i as nat);
                lemma_kind_total(found, found, Kind::Oversized, i as nat);
                lemma_size_grows(records, (i + 1) as nat, records.len());
            }
            let record: &ArtifactRecord = &scan.records[i];
            result.entry_files = result.entry_files + 1;
            result.encoded_bytes = match result.encoded_bytes.checked_add(record.encoded_bytes) {
                Some(total) => total,
                None => {
                    return Err(err("cache size overflow"));
                },
            };
            match self.classify(&record.id, &lookups[i]) {
                Kind::Compatible => {
                    result.compatible = result.compatible + 1;
                    if collect_trim_candidates {
                        list.push(
                            TrimCandidate {
                                modified: record.modified,
                                id: record.id,
                                bytes: record.encoded_bytes,
                            },
                        );
                    }
                },
                Kind::Incompatible => {
                    result.incompatible = result.incompatible + 1;
                },
                Kind::Corrupt => {
                    result.corrupt = result.corrupt + 1;
                },
                Kind::Oversized => {
                    result.oversized = result.oversized + 1;
                },
                Kind::Missing => {},
            }
            i += 1;
        }
        Ok((result, list))
    }

    /// The classification of the entry files of a directory.
    pub fn inspect(&self, scan: &ArtifactScan, lookups: &Vec<Lookup>) -> (r: Result<
        DiskCacheInspection,
        Error,
    >)
        requires
            lookups@.len() == scan.records@.len(),
        ensures
            ({
                let count = scan.records@.len();
                let found = kinds(self.space(), self.flags(), scan.records@, lookups@, count);
                match r {
                    Ok(inspection) => {
                        &&& size_total(scan.records@, count) <= u64::MAX
                        &&& inspection.entry_files == count
                        &&& inspection.encoded_bytes == size_total(scan.records@, count)
                        &&& inspection.compatible == kind_total(found, Kind::Compatible, count)
                        &&& inspection.incompatible == kind_total(found, Kind::Incompatible, count)
                        &&& inspection.corrupt == kind_total(found, Kind::Corrupt, count)
                        &&& inspection.oversized == kind_total(found, Kind::Oversized, count)
                        &&& inspection.ignored == scan.ignored
                    },
                    Err(e) => size_total(scan.records@, count) > u64::MAX && e == invalid(
                        "cache size overflow",
                    ),
                }
            }),
    {
        let (inspection, _) = self.scan(scan, lookups, false)?;
        Ok(inspection)
    }
}

/// The bytes of an identity as a vector.
fn id_bytes(id: &ArtifactId) -> (r: Vec<u8>)
    ensures
        r@ == id@,
{
    let bytes: &[u8; 32] = id.as_bytes();
    let mut list: Vec<u8> = Vec::new();
    let mut i: usize = 0;
    while i < 32
        invariant
            bytes@ == id@,
            bytes@.len() == 32,
            i <= 32,
            list@ == bytes@.take(i as int),
        decreases 32 - i,
    {
        list.push(bytes[i]);
        assert(bytes@.take(i + 1) =~= bytes@.take(i as int).push(bytes@[i as int]));
        i += 1;
    }
    assert(bytes@.take(32) =~= bytes@);
    list
}

/// Whether an entry is the one stored for a key, unharmed.
pub open spec fn matches_key(
    namespace: Seq<char>,
    flags: Option<Seq<u8>>,
    key: Seq<u8>,
    entry: EntryModel,
) -> bool {
    &&& entry.version == 2
    &&& entry.namespace == namespace
    &&& entry.key == key
    &&& entry.xla_flags == flags
    &&& entry.checksum == blake3(entry.artifact)
}

/// What is stored for a key is accepted for that key, and for no other.
pub proof fn stored_entries_match_their_key(
    namespace: Seq<char>,
    flags: Option<Seq<u8>>,
    key: Seq<u8>,
    other: Seq<u8>,
    artifact: Seq<u8>,
)
    requires
        encode_utf8(namespace).len() <= u64::MAX,
        key.len() <= u64::MAX,
        artifact.len() <= u64::MAX,
        flags matches Some(bytes) ==> bytes.len() <= u64::MAX,
    ensures
        blake3(artifact).len() <= u64::MAX ==> ({
            let entry = EntryModel {
                version: 2,
                namespace,
                key,
                artifact,
                checksum: blake3(artifact),
                xla_flags: flags,
            };
            let bytes = crate::envelope::encoded(entry);
            &&& decoded(bytes) == Some(entry)
            &&& matches_key(namespace, flags, other, entry) <==> other == key
            &&& kind_of_entry(
                namespace,
                flags,
                blake3(identity_input(namespace, flags, key)),
                decoded(bytes),
            ) == Kind::Compatible
        }),
{
    if blake3(artifact).len() <= u64::MAX {
        crate::envelope::stored_entries_are_read_back(
            EntryModel {
                version: 2,
                namespace,
                key,
                artifact,
                checksum: blake3(artifact),
                xla_flags: flags,
            },
        );
    }
}

/// Whether a candidate is older than another; identity and size break ties.
pub open spec fn older(a: TrimCandidate, b: TrimCandidate) -> bool {
    a.modified < b.modified || (a.modified == b.modified && (bytes_before(a.id@, b.id@, 0) || (
    a.id@ == b.id@ && a.bytes < b.bytes)))
}

/// Whether candidates are ordered from the oldest.
pub open spec fn ordered(list: Seq<TrimCandidate>) -> bool {
    forall|i: int, j: int|
        0 <= i < j < list.len() ==> !older(#[trigger] list[j], #[trigger] list[i])
}

/// Whether a candidate is older than another.
fn is_older(a: &TrimCandidate, b: &TrimCandidate) -> (r: bool)
    ensures
        r == older(*a, *b),
{
    if a.modified != b.modified {
        return a.modified < b.modified;
    }
    if a.id.before(&b.id) {
        return true;
    }
    a.id.same(&b.id) && a.bytes < b.bytes
}

/// Being no earlier carries through.
proof fn lemma_bytes_order(a: Seq<u8>, b: Seq<u8>, c: Seq<u8>, at: nat)
    requires
        a.len() == b.len(),
        b.len() == c.len(),
        at <= a.len(),
        forall|k: int| 0 <= k < at ==> a[k] == b[k] && b[k] == c[k],
    ensures
        bytes_before(a, b, at) && bytes_before(b, c, at) ==> bytes_before(a, c, at),
        !(bytes_before(a, b, at) && bytes_before(b, a, at)),
        bytes_before(a, b, at) || bytes_before(b, a, at) || a == b,
    decreases a.len() - at,
{
    if at < a.len() {
        if a[at as int] == b[at as int] && b[at as int] == c[at as int] {
            lemma_bytes_order(a, b, c, at + 1);
        } else if a[at as int] == b[at as int] {
            lemma_bytes_order(a, b, b, at + 1);
        }
    } else {
        assert(a =~= b);
    }
}

/// The order of candidates is transitive, and total.
proof fn lemma_older(a: TrimCandidate, b: TrimCandidate, c: TrimCandidate)
    ensures
        !older(b, a) && !older(c, b) ==> !older(c, a),
        !(older(a, b) && older(b, a)),
{
    a.id.lemma_length();
    b.id.lemma_length();
    c.id.lemma_length();
    lemma_bytes_order(a.id@, b.id@, c.id@, 0);
    lemma_bytes_order(c.id@, b.id@, a.id@, 0);
    lemma_bytes_order(c.id@, a.id@, b.id@, 0);
    lemma_bytes_order(a.id@, c.id@, b.id@, 0);
    lemma_bytes_order(b.id@, a.id@, c.id@, 0);
    lemma_bytes_order(b.id@, c.id@, a.id@, 0);
}

/// Candidates from the oldest to the newest.
pub fn oldest_first(list: &Vec<TrimCandidate>) -> (r: Vec<TrimCandidate>)
    ensures
        ordered(r@),
        r@.to_multiset() == list@.to_multiset(),
{
    broadcast use vstd::seq_lib::group_to_multiset_ensures;

    let mut sorted: Vec<TrimCandidate> = Vec::new();
    let mut i: usize = 0;
    assert(list@.take(0) =~= Seq::empty());
    while i < list.len()
        invariant
            i <= list@.len(),
            ordered(sorted@),
            sorted@.to_multiset() == list@.take(i as int).to_multiset(),
            sorted@.len() == i,
        decreases list@.len() - i,
    {
        let next: TrimCandidate = list[i];
        let mut at: usize = sorted.len();
        while at > 0 && is_older(&next, &sorted[at - 1])
            invariant
                at <= sorted@.len(),
                ordered(sorted@),
                forall|k: int| at <= k < sorted@.len() ==> older(next, #[trigger] sorted@[k]),
            decreases at,
        {
            at -= 1;
        }
        let ghost before = sorted@;
        proof {
            if at > 0 {
                assert(!older(next, before[at - 1]));
                assert forall|k: int| 0 <= k < at implies !older(next, #[trigger] before[k]) by {
                    if k < at - 1 {
                        assert(!older(before[at - 1], before[k]));
                        lemma_older(before[k], before[at - 1], next);
                    }
                }
            }
        }
        sorted.insert(at, next);
        proof {
            assert(sorted@ =~= before.insert(at as int, next));
            assert forall|x: int, y: int| 0 <= x < y < sorted@.len() implies !older(
                #[trigger] sorted@[y],
                #[trigger] sorted@[x],
            ) by {
                if y < at {
                    assert(sorted@[x] == before[x] && sorted@[y] == before[y]);
                } else if y == at {
                    assert(sorted@[x] == before[x]);
                } else if x < at {
                    assert(sorted@[x] == before[x] && sorted@[y] == before[y - 1]);
                } else if x == at {
                    assert(older(next, before[y - 1]));
                    lemma_older(next, before[y - 1], next);
                } else {
                    assert(sorted@[x] == before[x - 1] && sorted@[y] == before[y - 1]);
                }
            }
            vstd::seq_lib::to_multiset_insert(before, at as int, next);
            assert(list@.take(i + 1) =~= list@.take(i as int).push(next));
            vstd::seq_lib::to_multiset_build(list@.take(i as int), next);
            assert(sorted@.to_multiset() == list@.take(i + 1).to_multiset());
        }
        i += 1;
    }
    assert(list@.take(list@.len() as int) =~= list@);
    sorted
}

/// The sizes of the candidates from a position on.
pub open spec fn bytes_from(list: Seq<TrimCandidate>, at: nat) -> nat
    decreases list.len() - at,
{
    if at >= list.len() {
        0
    } else {
        list[at as int].bytes as nat + bytes_from(list, at + 1)
    }
}

/// How many candidates, from a position on, have to go until the rest fits a
/// budget.
pub open spec fn excess(list: Seq<TrimCandidate>, budget: u64, at: nat) -> nat
    decreases list.len() - at,
{
    if at >= list.len() || bytes_from(list, at) <= budget {
        0
    } else {
        1 + excess(list, budget, at + 1)
    }
}

/// What is left after the removals fits the budget, and with one removal less it
/// would not.
pub proof fn trimming_removes_just_enough(list: Seq<TrimCandidate>, budget: u64, at: nat)
    requires
        at <= list.len(),
    ensures
        bytes_from(list, at + excess(list, budget, at)) <= budget,
        at + excess(list, budget, at) <= list.len(),
        forall|k: int|
            0 <= k < excess(list, budget, at) ==> #[trigger] bytes_from(list, (at + k) as nat)
                > budget,
    decreases list.len() - at,
{
    if at < list.len() && bytes_from(list, at) > budget {
        trimming_removes_just_enough(list, budget, at + 1);
        assert forall|k: int| 0 <= k < excess(list, budget, at) implies #[trigger] bytes_from(
            list,
            (at + k) as nat,
        ) > budget by {
            if k > 0 {
                assert(bytes_from(list, (at + 1 + (k - 1)) as nat) > budget);
            }
        }
    }
}

/// A position nearer to the end holds no more bytes.
proof fn lemma_bytes_from(list: Seq<TrimCandidate>, low: nat, high: nat)
    requires
        low <= high,
    ensures
        bytes_from(list, high) <= bytes_from(list, low),
    decreases high - low,
{
    if low < high {
        lemma_bytes_from(list, low + 1, high);
        if low >= list.len() {
            lemma_bytes_from(list, list.len(), list.len());
        }
    }
}

/// How many of the oldest candidates have to go.
pub fn removals(list: &Vec<TrimCandidate>, budget: u64) -> (r: Result<usize, Error>)
    ensures
        match r {
            Ok(count) => bytes_from(list@, 0) <= u64::MAX && count == excess(list@, budget, 0),
            Err(e) => bytes_from(list@, 0) > u64::MAX && e == invalid("cache size overflow"),
        },
{
    let mut total: u64 = 0;
    let mut i: usize = list.len();
    while i > 0
        invariant
            i <= list@.len(),
            total == bytes_from(list@, i as nat),
        decreases i,
    {
        proof {
            lemma_bytes_from(list@, 0, (i - 1) as nat);
        }
        total = match total.checked_add(list[i - 1].bytes) {
            Some(total) => total,
            None => {
                return Err(err("cache size overflow"));
            },
        };
        i -= 1;
    }
    let mut count: usize = 0;
    while count < list.len() && total > budget
        invariant
            count <= list@.len(),
            bytes_from(list@, 0) <= u64::MAX,
            total == bytes_from(list@, count as nat),
            excess(list@, budget, 0) == count + excess(list@, budget, count as nat),
        decreases list@.len() - count,
    {
        total = total - list[count].bytes;
        count += 1;
    }
    Ok(count)
}

/// What the removals did, up to a failed one.
pub open spec fn trim_after(
    list: Seq<TrimCandidate>,
    outcomes: Seq<Result<bool, String>>,
    count: nat,
) -> DiskCacheTrim
    decreases count,
{
    if count == 0 {
        DiskCacheTrim {
            removed_files: 0,
            removed_bytes: 0,
            already_absent: 0,
            remaining_compatible_bytes: bytes_from(list, 0) as u64,
        }
    } else {
        let before = trim_after(list, outcomes, (count - 1) as nat);
        let bytes = list[count - 1].bytes;
        let remaining = (before.remaining_compatible_bytes - bytes) as u64;
        if outcomes[count - 1] == Ok::<bool, String>(true) {
            DiskCacheTrim {
                removed_files: (before.removed_files + 1) as u64,
                removed_bytes: (before.removed_bytes + bytes) as u64,
                already_absent: before.already_absent,
                remaining_compatible_bytes: remaining,
            }
        } else {
            DiskCacheTrim {
                removed_files: before.removed_files,
                removed_bytes: before.removed_bytes,
                already_absent: (before.already_absent + 1) as u64,
                remaining_compatible_bytes: remaining,
            }
        }
    }
}

/// The first failed removal among the first `count`.
pub open spec fn first_failure(outcomes: Seq<Result<bool, String>>, count: nat) -> Option<nat>
    decreases count,
{
    if count == 0 {
        None
    } else {
        match first_failure(outcomes, (count - 1) as nat) {
            Some(k) => Some(k),
            None => if outcomes[count - 1] is Err {
                Some((count - 1) as nat)
            } else {
                None
            },
        }
    }
}

/// A failure found early is the first failure.
proof fn lemma_first_failure(outcomes: Seq<Result<bool, String>>, early: nat, count: nat)
    requires
        early <= count,
        first_failure(outcomes, early) is Some,
    ensures
        first_failure(outcomes, count) == first_failure(outcomes, early),
    decreases count - early,
{
    if early < count {
        lemma_first_failure(outcomes, early + 1, count);
    }
}

/// What a trim of candidates, oldest first, comes to, given what each removal
/// came to.
pub open spec fn trimmed(
    list: Seq<TrimCandidate>,
    budget: u64,
    outcomes: Seq<Result<bool, String>>,
) -> Result<DiskCacheTrim, Error> {
    let count = excess(list, budget, 0);
    if bytes_from(list, 0) > u64::MAX {
        Err(invalid("cache size overflow"))
    } else {
        match first_failure(outcomes, count) {
            Some(k) => Err(
                Error::TrimFailed {
                    removed: trim_after(list, outcomes, k).removed_files,
                    reason: outcomes[k as int]->Err_0,
                },
            ),
            None => Ok(trim_after(list, outcomes, count)),
        }
    }
}

/// Whether every removal that a trim asks for has an outcome.
pub open spec fn outcomes_suffice(
    list: Seq<TrimCandidate>,
    budget: u64,
    outcomes: Seq<Result<bool, String>>,
) -> bool {
    bytes_from(list, 0) <= u64::MAX ==> outcomes.len() >= excess(list, budget, 0)
}

/// Whether a list holds the given candidates, oldest first.
pub open spec fn arranged(list: Seq<TrimCandidate>, from: Seq<TrimCandidate>) -> bool {
    ordered(list) && list.to_multiset() == from.to_multiset()
}

/// There is one arrangement of candidates from the oldest on: equal ages do not
/// leave the order open.
pub proof fn arrangements_are_unique(
    a: Seq<TrimCandidate>,
    b: Seq<TrimCandidate>,
    from: Seq<TrimCandidate>,
)
    requires
        arranged(a, from),
        arranged(b, from),
    ensures
        a == b,
{
    let leq = |x: TrimCandidate, y: TrimCandidate| !older(y, x);
    assert forall|x: TrimCandidate, y: TrimCandidate| #[trigger] leq(x, y) && #[trigger] leq(
        y,
        x,
    ) implies x == y by {
        x.id.lemma_length();
        y.id.lemma_length();
        lemma_bytes_order(x.id@, y.id@, x.id@, 0);
        x.id.lemma_same(y.id);
    }
    assert forall|x: TrimCandidate, y: TrimCandidate, z: TrimCandidate| #[trigger] leq(x, y)
        && #[trigger] leq(y, z) implies leq(x, z) by {
        lemma_older(x, y, z);
    }
    assert forall|x: TrimCandidate, y: TrimCandidate| #[trigger] leq(x, y) || leq(y, x) by {
        lemma_older(x, y, x);
    }
    assert forall|x: TrimCandidate| #[trigger] leq(x, x) by {
        lemma_older(x, x, x);
    }
    vstd::seq_lib::lemma_sorted_unique(a, b, leq);
}

impl DiskCache {
    /// Remove the oldest compatible entries until the rest fits a budget, given
    /// what the directory holds, what each lookup found, and what each removal
    /// came to: removed, already absent, or failed.
    pub fn trim_compatible_to_bytes(
        &self,
        scan: &ArtifactScan,
        lookups: &Vec<Lookup>,
        budget: u64,
        outcomes: &Vec<Result<bool, String>>,
    ) -> (r: Result<DiskCacheTrim, Error>)
        requires
            lookups@.len() == scan.records@.len(),
            forall|list: Seq<TrimCandidate>| #[trigger]
                arranged(list, self.trimmable(scan.records@, lookups@)) ==> outcomes_suffice(
                    list,
                    budget,
                    outcomes@,
                ),
        ensures
            if size_total(scan.records@, scan.records@.len()) > u64::MAX {
                r == Err::<DiskCacheTrim, Error>(invalid("cache size overflow"))
            } else {
                exists|list: Seq<TrimCandidate>| #[trigger]
                    arranged(list, self.trimmable(scan.records@, lookups@)) && r == trimmed(
                        list,
                        budget,
                        outcomes@,
                    )
            },
    {
        let (_inspection, list): (DiskCacheInspection, Vec<TrimCandidate>) = self.scan(
            scan,
            lookups,
            true,
        )?;
        let oldest: Vec<TrimCandidate> = oldest_first(&list);
        assert(arranged(oldest@, self.trimmable(scan.records@, lookups@)));
        trim_outcome(&oldest, budget, outcomes)
    }

    /// The compatible entries of a directory.
    pub open spec fn trimmable(self, records: Seq<ArtifactRecord>, lookups: Seq<Lookup>) -> Seq<
        TrimCandidate,
    > {
        candidates(
            records,
            kinds(self.space(), self.flags(), records, lookups, records.len()),
            records.len(),
        )
    }
}

/// Account for the removal of the oldest candidates, given what each removal
/// came to: removed, already absent, or failed.
pub fn trim_outcome(
    list: &Vec<TrimCandidate>,
    budget: u64,
    outcomes: &Vec<Result<bool, String>>,
) -> (r: Result<DiskCacheTrim, Error>)
    requires
        outcomes_suffice(list@, budget, outcomes@),
    ensures
        r == trimmed(list@, budget, outcomes@),
{
    let count: usize = removals(list, budget)?;
    proof {
        trimming_removes_just_enough(list@, budget, 0);
    }
    let mut total: u64 = 0;
    let mut i: usize = list.len();
    while i > 0
        invariant
            i <= list@.len(),
            bytes_from(list@, 0) <= u64::MAX,
            total == bytes_from(list@, i as nat),
        decreases i,
    {
        proof {
            lemma_bytes_from(list@, 0, (i - 1) as nat);
        }
        total = total + list[i - 1].bytes;
        i -= 1;
    }
    let mut result = DiskCacheTrim {
        removed_files: 0,
        removed_bytes: 0,
        already_absent: 0,
        remaining_compatible_bytes: total,
    };
    let mut k: usize = 0;
    while k < count
        invariant
            bytes_from(list@, 0) <= u64::MAX,
            count == excess(list@, budget, 0),
            count <= list@.len(),
            count <= outcomes@.len(),
            k <= count,
            first_failure(outcomes@, k as nat) is None,
            result == trim_after(list@, outcomes@, k as nat),
            result.remaining_compatible_bytes == bytes_from(list@, k as nat),
            result.removed_bytes + result.remaining_compatible_bytes <= bytes_from(list@, 0),
            result.removed_files <= k,
            result.already_absent <= k,
        decreases count - k,
    {
        let bytes: u64 = list[k].bytes;
        match &outcomes[k] {
            Ok(true) => {
                result.removed_files = result.removed_files + 1;
                result.removed_bytes = result.removed_bytes + bytes;
            },
            Ok(false) => {
                result.already_absent = result.already_absent + 1;
            },
            Err(reason) => {
                proof {
                    lemma_first_failure(outcomes@, (k + 1) as nat, count as nat);
                }
                return Err(
                    Error::TrimFailed { removed: result.removed_files, reason: reason.clone() },
                );
            },
        }
        result.remaining_compatible_bytes = result.remaining_compatible_bytes - bytes;
        k += 1;
    }
    Ok(result)
}

} // verus!
