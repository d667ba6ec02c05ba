//! The stored form of a cache entry: a message of tagged fields.
use crate::error::{err, invalid, Error};
use prost::encoding::{DecodeContext, WireType};
use vstd::prelude::*;
use vstd::utf8::{decode_utf8, encode_utf8, valid_utf8};

verus! {

/// One stored executable with what it was stored for.
pub struct Entry {
    pub version: u32,
    pub namespace: String,
    pub key: Vec<u8>,
    pub artifact: Vec<u8>,
    pub checksum: Vec<u8>,
    pub xla_flags: Option<Vec<u8>>,
}

/// The mathematical content of an entry.
#[verifier::ext_equal]
pub ghost struct EntryModel {
    pub version: u32,
    pub namespace: Seq<char>,
    pub key: Seq<u8>,
    pub artifact: Seq<u8>,
    pub checksum: Seq<u8>,
    pub xla_flags: Option<Seq<u8>>,
}

/// The bytes of an optional list.
pub open spec fn flags_view(flags: Option<Vec<u8>>) -> Option<Seq<u8>> {
    match flags {
        None => None,
        Some(bytes) => Some(bytes@),
    }
}

impl View for Entry {
    type V = EntryModel;

    open spec fn view(&self) -> EntryModel {
        EntryModel {
            version: self.version,
            namespace: self.namespace@,
            key: self.key@,
            artifact: self.artifact@,
            checksum: self.checksum@,
            xla_flags: flags_view(self.xla_flags),
        }
    }
}

/// A number in groups of seven bits, low group first; all but the last byte
/// carry the high bit.
pub open spec fn varint(n: nat) -> Seq<u8>
    decreases n,
{
    if n < 0x80 {
        seq![n as u8]
    } else {
        seq![(0x80 + n % 0x80) as u8] + varint(n / 0x80)
    }
}

/// The number at the front of bytes, and how many bytes it takes. It may take
/// `room` bytes; in the last of them only the lowest bit may be set.
pub open spec fn leb(bytes: Seq<u8>, room: nat) -> Option<(nat, nat)>
    decreases room,
{
    if bytes.len() == 0 || room == 0 {
        None
    } else if bytes[0] < 0x80 {
        if room == 1 && bytes[0] >= 2 {
            None
        } else {
            Some((bytes[0] as nat, 1))
        }
    } else {
        match leb(bytes.skip(1), (room - 1) as nat) {
            None => None,
            Some((value, used)) => Some(
                ((bytes[0] - 0x80) as nat + 0x80 * value, used + 1),
            ),
        }
    }
}

/// What `room` bytes can hold.
pub open spec fn leb_bound(room: nat) -> nat
    decreases room,
{
    if room == 0 {
        0
    } else if room == 1 {
        2
    } else {
        0x80 * leb_bound((room - 1) as nat)
    }
}

/// A number that was written is read back, whatever follows.
pub proof fn varint_is_read_back(n: nat, room: nat, rest: Seq<u8>)
    requires
        n < leb_bound(room),
    ensures
        leb(varint(n) + rest, room) == Some((n, varint(n).len())),
        varint(n).len() >= 1,
    decreases room,
{
    let bytes = varint(n) + rest;
    if n < 0x80 {
        assert(bytes[0] == n);
    } else {
        assert(room >= 2);
        varint_is_read_back(n / 0x80, (room - 1) as nat, rest);
        assert(bytes[0] == (0x80 + n % 0x80) as u8);
        assert(bytes.skip(1) =~= varint(n / 0x80) + rest);
    }
}

/// Ten bytes hold every 64-bit number, and no more.
proof fn lemma_ten_bytes()
    ensures
        leb_bound(10) == 0x1_0000_0000_0000_0000,
{
    reveal_with_fuel(leb_bound, 11);
}

/// Append a number. The bytes are those of `prost::encoding::encode_varint`:
/// groups of seven bits, low group first.
#[verifier::external_body]
pub(crate) fn put_varint(value: u64, out: &mut Vec<u8>)
    ensures
        final(out)@ == old(out)@ + varint(value as nat),
{
    prost::encoding::encode_varint(value, out);
}

/// The number at the front of the bytes and how many bytes are left after it, by
/// `prost::encoding::decode_varint`: at most ten bytes, and no more than 64
/// bits.
#[verifier::external_body]
pub(crate) fn take_varint(bytes: &[u8]) -> (r: Option<(u64, usize)>)
    ensures
        match r {
            Some((value, left)) => {
                &&& left < bytes@.len()
                &&& leb(bytes@, 10) == Some((value as nat, (bytes@.len() - left) as nat))
            },
            None => leb(bytes@, 10) is None,
        },
{
    let mut rest: &[u8] = bytes;
    let value: u64 = prost::encoding::decode_varint(&mut rest).ok()?;
    Some((value, rest.len()))
}

/// How many bytes `prost::encoding::skip_field` leaves after a field of the
/// given tag and wire type, if it accepts the field.
pub uninterp spec fn skipped(bytes: Seq<u8>, tag: u32, wire: u64) -> Option<nat>;

/// The bytes left after a field that the message does not know, by
/// `prost::encoding::skip_field` with the default nesting limit. Of its result
/// only that it is a function of the arguments and no longer than the bytes is
/// claimed.
#[verifier::external_body]
pub(crate) fn skip_unknown(bytes: &[u8], tag: u32, wire: u64) -> (r: Option<usize>)
    ensures
        match r {
            Some(left) => left <= bytes@.len() && skipped(bytes@, tag, wire) == Some(left as nat),
            None => skipped(bytes@, tag, wire) is None,
        },
{
    let mut rest: &[u8] = bytes;
    let kind: WireType = WireType::try_from(wire).ok()?;
    prost::encoding::skip_field(kind, tag, &mut rest, DecodeContext::default()).ok()?;
    Some(rest.len())
}

/// The text with the given UTF-8 bytes, by `String::from_utf8`: there is one
/// exactly where the bytes are valid UTF-8.
#[verifier::external_body]
fn text_from_utf8(bytes: Vec<u8>) -> (r: Option<String>)
    ensures
        match r {
            Some(text) => valid_utf8(bytes@) && encode_utf8(text@) == bytes@,
            None => !valid_utf8(bytes@),
        },
{
    String::from_utf8(bytes).ok()
}

/// A field of bytes: its tag, its length and its bytes.
pub open spec fn block(tag: nat, bytes: Seq<u8>) -> Seq<u8> {
    varint(tag * 8 + 2) + (varint(bytes.len()) + bytes)
}

/// A field of bytes that is left out where it is empty.
pub open spec fn plain_block(tag: nat, bytes: Seq<u8>) -> Seq<u8> {
    if bytes.len() == 0 {
        Seq::empty()
    } else {
        block(tag, bytes)
    }
}

/// The field of the version, left out where it is zero.
pub open spec fn version_field(version: u32) -> Seq<u8> {
    if version == 0 {
        Seq::empty()
    } else {
        varint(8) + varint(version as nat)
    }
}

/// The field of the flags, left out where there are none.
pub open spec fn flags_field(flags: Option<Seq<u8>>) -> Seq<u8> {
    match flags {
        None => Seq::empty(),
        Some(bytes) => block(6, bytes),
    }
}

/// The stored form of an entry.
pub open spec fn encoded(e: EntryModel) -> Seq<u8> {
    version_field(e.version) + (plain_block(2, encode_utf8(e.namespace)) + (plain_block(3, e.key)
        + (plain_block(4, e.artifact) + (plain_block(5, e.checksum) + flags_field(e.xla_flags)))))
}

/// An entry without contents.
pub open spec fn blank() -> EntryModel {
    EntryModel {
        version: 0,
        namespace: Seq::empty(),
        key: Seq::empty(),
        artifact: Seq::empty(),
        checksum: Seq::empty(),
        xla_flags: None,
    }
}

/// Bytes behind their length, and what follows them.
pub open spec fn taken_block(bytes: Seq<u8>) -> Option<(Seq<u8>, Seq<u8>)> {
    match leb(bytes, 10) {
        None => None,
        Some((length, used)) => {
            let rest = bytes.skip(used as int);
            if length > rest.len() {
                None
            } else {
                Some((rest.take(length as int), rest.skip(length as int)))
            }
        },
    }
}

/// An entry with one field of bytes replaced.
pub open spec fn with_block(e: EntryModel, tag: nat, bytes: Seq<u8>) -> EntryModel {
    if tag == 2 {
        EntryModel { namespace: decode_utf8(bytes), ..e }
    } else if tag == 3 {
        EntryModel { key: bytes, ..e }
    } else if tag == 4 {
        EntryModel { artifact: bytes, ..e }
    } else if tag == 5 {
        EntryModel { checksum: bytes, ..e }
    } else {
        EntryModel { xla_flags: Some(bytes), ..e }
    }
}

/// The field at the front of bytes read into an entry, and what follows it.
pub open spec fn field_read(e: EntryModel, tag: nat, wire: nat, bytes: Seq<u8>) -> Option<
    (EntryModel, Seq<u8>),
> {
    if tag == 1 {
        if wire != 0 {
            None
        } else {
            match leb(bytes, 10) {
                None => None,
                Some((value, used)) => Some(
                    (
                        EntryModel { version: (value % 0x1_0000_0000) as u32, ..e },
                        bytes.skip(used as int),
                    ),
                ),
            }
        }
    } else if tag <= 6 {
        if wire != 2 {
            None
        } else {
            match taken_block(bytes) {
                None => None,
                Some((contents, rest)) => if tag == 2 && !valid_utf8(contents) {
                    None
                } else {
                    Some((with_block(e, tag, contents), rest))
                },
            }
        }
    } else {
        match skipped(bytes, tag as u32, wire as u64) {
            None => None,
            Some(left) => Some((e, bytes.skip(bytes.len() - left))),
        }
    }
}

/// One tagged field read into an entry, and what follows it.
pub open spec fn step(e: EntryModel, bytes: Seq<u8>) -> Option<(EntryModel, Seq<u8>)> {
    match leb(bytes, 10) {
        None => None,
        Some((key, used)) => if key > u32::MAX || key % 8 > 5 || key / 8 == 0 {
            None
        } else {
            field_read(e, key / 8, key % 8, bytes.skip(used as int))
        },
    }
}

/// All fields read into an entry. The last of several fields of one tag counts.
pub open spec fn merged(e: EntryModel, bytes: Seq<u8>) -> Option<EntryModel>
    decreases bytes.len(),
{
    if bytes.len() == 0 {
        Some(e)
    } else {
        match step(e, bytes) {
            None => None,
            Some((next, rest)) => if rest.len() >= bytes.len() {
                None
            } else {
                merged(next, rest)
            },
        }
    }
}

/// The entry that bytes store, if they store one.
pub open spec fn decoded(bytes: Seq<u8>) -> Option<EntryModel> {
    merged(blank(), bytes)
}

/// A number in front of more bytes is read off.
pub(crate) proof fn lemma_front(n: nat, rest: Seq<u8>)
    requires
        n <= u64::MAX,
    ensures
        leb(varint(n) + rest, 10) == Some((n, varint(n).len())),
        varint(n).len() >= 1,
        (varint(n) + rest).skip(varint(n).len() as int) == rest,
{
    lemma_ten_bytes();
    varint_is_read_back(n, 10, rest);
    assert((varint(n) + rest).skip(varint(n).len() as int) =~= rest);
}

/// A field of bytes in front of more bytes is read off.
proof fn lemma_block_read(e: EntryModel, tag: nat, contents: Seq<u8>, rest: Seq<u8>)
    requires
        2 <= tag <= 6,
        contents.len() <= u64::MAX,
        tag == 2 ==> valid_utf8(contents),
    ensures
        merged(e, block(tag, contents) + rest) == merged(with_block(e, tag, contents), rest),
{
    let bytes = block(tag, contents) + rest;
    let after_key = varint(contents.len()) + (contents + rest);
    let key = tag * 8 + 2;
    assert(bytes =~= varint(key) + after_key);
    lemma_front(key, after_key);
    lemma_front(contents.len(), contents + rest);
    assert((contents + rest).take(contents.len() as int) =~= contents);
    assert((contents + rest).skip(contents.len() as int) =~= rest);
    assert(taken_block(after_key) == Some((contents, rest)));
    assert(key / 8 == tag && key % 8 == 2);
    assert(step(e, bytes) == Some((with_block(e, tag, contents), rest)));
    assert(bytes.len() > rest.len());
}

/// The version in front of more bytes is read off.
proof fn lemma_version_read(e: EntryModel, rest: Seq<u8>, version: u32)
    requires
        e.version == 0,
    ensures
        merged(e, version_field(version) + rest) == merged(EntryModel { version, ..e }, rest),
{
    if version == 0 {
        assert(version_field(version) + rest =~= rest);
        assert(EntryModel { version, ..e } == e);
    } else {
        let bytes = version_field(version) + rest;
        let after_key = varint(version as nat) + rest;
        assert(bytes =~= varint(8) + after_key);
        lemma_front(8, after_key);
        lemma_front(version as nat, rest);
        assert(step(e, bytes) == Some((EntryModel { version, ..e }, rest)));
    }
}

/// An optional field of bytes in front of more bytes is read off.
proof fn lemma_plain_read(e: EntryModel, tag: nat, contents: Seq<u8>, rest: Seq<u8>)
    requires
        2 <= tag <= 5,
        contents.len() <= u64::MAX,
        tag == 2 ==> valid_utf8(contents) && e.namespace.len() == 0,
        tag == 3 ==> e.key.len() == 0,
        tag == 4 ==> e.artifact.len() == 0,
        tag == 5 ==> e.checksum.len() == 0,
    ensures
        merged(e, plain_block(tag, contents) + rest) == merged(with_block(e, tag, contents), rest),
{
    if contents.len() == 0 {
        assert(plain_block(tag, contents) + rest =~= rest);
        assert(contents =~= Seq::empty());
        assert(with_block(e, tag, contents) =~= e);
    } else {
        lemma_block_read(e, tag, contents, rest);
    }
}

/// What an entry stores is read back.
pub proof fn stored_entries_are_read_back(e: EntryModel)
    requires
        encode_utf8(e.namespace).len() <= u64::MAX,
        e.key.len() <= u64::MAX,
        e.artifact.len() <= u64::MAX,
        e.checksum.len() <= u64::MAX,
        e.xla_flags matches Some(flags) ==> flags.len() <= u64::MAX,
    ensures
        decoded(encoded(e)) == Some(e),
{
    broadcast use vstd::utf8::encode_utf8_valid_utf8;
    broadcast use vstd::utf8::encode_utf8_decode_utf8;

    let name = encode_utf8(e.namespace);
    let flags = flags_field(e.xla_flags);
    let r5 = plain_block(5, e.checksum) + flags;
    let r4 = plain_block(4, e.artifact) + r5;
    let r3 = plain_block(3, e.key) + r4;
    let r2 = plain_block(2, name) + r3;
    lemma_version_read(blank(), r2, e.version);
    let e1 = EntryModel { version: e.version, ..blank() };
    lemma_plain_read(e1, 2, name, r3);
    let e2 = with_block(e1, 2, name);
    lemma_plain_read(e2, 3, e.key, r4);
    let e3 = with_block(e2, 3, e.key);
    lemma_plain_read(e3, 4, e.artifact, r5);
    let e4 = with_block(e3, 4, e.artifact);
    lemma_plain_read(e4, 5, e.checksum, flags);
    let e5 = with_block(e4, 5, e.checksum);
    match e.xla_flags {
        None => {
            assert(merged(e5, flags) == Some(e5));
            assert(e5 =~= e);
        },
        Some(bytes) => {
            assert(flags =~= flags + Seq::empty());
            lemma_block_read(e5, 6, bytes, Seq::empty());
            let e6 = with_block(e5, 6, bytes);
            assert(merged(e6, Seq::empty()) == Some(e6));
            assert(e6 =~= e);
        },
    }
}

/// Append bytes to others.
pub(crate) fn append_bytes(out: &mut Vec<u8>, bytes: &[u8])
    ensures
        final(out)@ == old(out)@ + bytes@,
{
    let mut i: usize = 0;
    while i < bytes.len()
        invariant
            i <= bytes@.len(),
            out@ == old(out)@ + bytes@.take(i as int),
        decreases bytes@.len() - i,
    {
        out.push(bytes[i]);
        assert(bytes@.take(i + 1) =~= bytes@.take(i as int).push(bytes@[i as int]));
        i += 1;
        assert(out@ =~= old(out)@ + bytes@.take(i as int));
    }
    assert(bytes@.take(bytes@.len() as int) =~= bytes@);
}

/// Append a field of bytes.
pub(crate) fn put_block(out: &mut Vec<u8>, tag: u64, bytes: &[u8])
    requires
        tag <= 6,
    ensures
        final(out)@ == old(out)@ + block(tag as nat, bytes@),
{
    put_varint(tag * 8 + 2, out);
    let length: usize = bytes.len();
    put_varint(length as u64, out);
    append_bytes(out, bytes);
    assert(out@ =~= old(out)@ + block(tag as nat, bytes@));
}

/// Append a field of bytes unless it is empty.
pub(crate) fn put_plain(out: &mut Vec<u8>, tag: u64, bytes: &[u8])
    requires
        tag <= 6,
    ensures
        final(out)@ == old(out)@ + plain_block(tag as nat, bytes@),
{
    if bytes.len() == 0 {
        assert(out@ + Seq::<u8>::empty() =~= out@);
    } else {
        put_block(out, tag, bytes);
    }
}

/// An entry being read.
struct Reading {
    entry: Entry,
    left: usize,
}

impl Entry {
    /// The stored form of the entry.
    pub fn encode(&self) -> (r: Vec<u8>)
        ensures
            r@ == encoded(self@),
    {
        let mut out: Vec<u8> = Vec::new();
        if self.version != 0 {
            put_varint(8, &mut out);
            put_varint(self.version as u64, &mut out);
        }
        assert(out@ =~= version_field(self.version));
        put_plain(&mut out, 2, self.namespace.as_str().as_bytes());
        put_plain(&mut out, 3, self.key.as_slice());
        put_plain(&mut out, 4, self.artifact.as_slice());
        put_plain(&mut out, 5, self.checksum.as_slice());
        match &self.xla_flags {
            Some(flags) => {
                put_block(&mut out, 6, flags.as_slice());
            },
            None => {},
        }
        assert(out@ =~= encoded(self@));
        out
    }

    /// The entry that bytes store.
    pub fn decode(bytes: &[u8]) -> (r: Result<Entry, Error>)
        ensures
            match r {
                Ok(entry) => decoded(bytes@) == Some(entry@),
                Err(e) => decoded(bytes@) is None && e == invalid("invalid cache envelope"),
            },
    {
        let mut entry = Entry {
            version: 0,
            namespace: String::new(),
            key: Vec::new(),
            artifact: Vec::new(),
            checksum: Vec::new(),
            xla_flags: None,
        };
        assert(entry@ =~= blank());
        let mut at: usize = 0;
        assert(bytes@.skip(0) =~= bytes@);
        while at < bytes.len()
            invariant
                at <= bytes@.len(),
                decoded(bytes@) == merged(entry@, bytes@.skip(at as int)),
            decreases bytes@.len() - at,
        {
            let ghost before = bytes@.skip(at as int);
            let ghost state = entry@;
            let front: &[u8] = vstd::slice::slice_subrange(bytes, at, bytes.len());
            assert(front@ =~= before);
            let (key, left) = match take_varint(front) {
                Some(found) => found,
                None => {
                    return Err(err("invalid cache envelope"));
                },
            };
            if key > u32::MAX as u64 || key % 8 > 5 || key / 8 == 0 {
                return Err(err("invalid cache envelope"));
            }
            let tag: u32 = (key / 8) as u32;
            let wire: u64 = key % 8;
            let start: usize = bytes.len() - left;
            let ghost rest = bytes@.skip(start as int);
            assert(before.skip(before.len() - left) =~= rest);
            match read_field(entry, tag, wire, vstd::slice::slice_subrange(bytes, start, bytes.len())) {
                None => {
                    proof {
                        assert(bytes@.subrange(start as int, bytes@.len() as int) =~= rest);
                    }
                    return Err(err("invalid cache envelope"));
                },
                Some(reading) => {
                    proof {
                        assert(bytes@.subrange(start as int, bytes@.len() as int) =~= rest);
                        assert(rest.skip(rest.len() - reading.left) =~= bytes@.skip(
                            bytes@.len() - reading.left,
                        ));
                    }
                    entry = reading.entry;
                    at = bytes.len() - reading.left;
                },
            }
        }
        assert(bytes@.skip(at as int).len() == 0);
        Ok(entry)
    }
}

/// Read the rest of a tagged field into an entry.
fn read_field(entry: Entry, tag: u32, wire: u64, bytes: &[u8]) -> (r: Option<Reading>)
    requires
        tag >= 1,
        wire <= 5,
    ensures
        match r {
            Some(reading) => {
                &&& reading.left <= bytes@.len()
                &&& field_read(entry@, tag as nat, wire as nat, bytes@) == Some(
                    (reading.entry@, bytes@.skip(bytes@.len() - reading.left)),
                )
            },
            None => field_read(entry@, tag as nat, wire as nat, bytes@) is None,
        },
{
    if tag == 1 {
        if wire != 0 {
            return None;
        }
        let (value, left) = take_varint(bytes)?;
        let version: u32 = (value % 0x1_0000_0000) as u32;
        let entry = Entry { version, ..entry };
        return Some(Reading { entry, left });
    }
    if tag > 6 {
        let left: usize = skip_unknown(bytes, tag, wire)?;
        return Some(Reading { entry, left });
    }
    if wire != 2 {
        return None;
    }
    let (length, left) = take_varint(bytes)?;
    let start: usize = bytes.len() - left;
    if length > left as u64 {
        return None;
    }
    let size: usize = length as usize;
    let ghost rest = bytes@.skip(start as int);
    let contents: Vec<u8> = vstd::slice::slice_to_vec(
        vstd::slice::slice_subrange(bytes, start, start + size),
    );
    proof {
        assert(contents@ =~= rest.take(size as int));
        assert(rest.skip(size as int) =~= bytes@.skip(bytes@.len() - (left - size)));
        assert(taken_block(bytes@) == Some((contents@, rest.skip(size as int))));
    }
    let ghost before = entry@;
    let entry = if tag == 2 {
        let namespace: String = text_from_utf8(contents)?;
        proof {
            broadcast use vstd::utf8::encode_utf8_decode_utf8;
            assert(decode_utf8(encode_utf8(namespace@)) == namespace@);
        }
        Entry { namespace, ..entry }
    } else if tag == 3 {
        Entry { key: contents, ..entry }
    } else if tag == 4 {
        Entry { artifact: contents, ..entry }
    } else if tag == 5 {
        Entry { checksum: contents, ..entry }
    } else {
        Entry { xla_flags: Some(contents), ..entry }
    };
    assert(entry@ =~= with_block(before, tag as nat, rest.take(size as int)));
    Some(Reading { entry, left: left - size })
}

} // verus!
