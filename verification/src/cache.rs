//! Identities, names and limits of stored compilation artifacts.
use vstd::prelude::*;

verus! {

/// Failures of artifact storage.
#[derive(PartialEq, Eq, Debug)]
pub enum Error {
    /// The artifact exceeds the configured entry limit.
    Oversized,
    /// The entry limit is zero or unbounded.
    InvalidEntryLimit,
    /// The filename extension is empty or not ASCII alphanumeric.
    InvalidExtension,
    /// An operation of the file system failed at a path.
    Io { operation: &'static str, path: String, reason: String },
}

/// Identity of an artifact, safe to use as a file name.
#[derive(Clone, Copy, PartialEq, Eq, PartialOrd, Ord, Hash, Debug)]
pub struct ArtifactId {
    bytes: [u8; 32],
}

impl View for ArtifactId {
    type V = Seq<u8>;

    closed spec fn view(&self) -> Seq<u8> {
        self.bytes@
    }
}

/// A lowercase hexadecimal digit.
pub open spec fn hex_digit(value: nat) -> char {
    if value < 10 {
        (0x30 + value) as char
    } else {
        (0x61 + (value - 10)) as char
    }
}

/// Bytes as lowercase hexadecimal digits, high digit first.
pub open spec fn hex(bytes: Seq<u8>) -> Seq<char> {
    Seq::new(
        2 * bytes.len(),
        |k: int|
            if k % 2 == 0 {
                hex_digit((bytes[k / 2] / 16) as nat)
            } else {
                hex_digit((bytes[k / 2] % 16) as nat)
            },
    )
}

/// The value of a lowercase hexadecimal digit.
pub open spec fn nibble(digit: char) -> Option<u8> {
    if '0' <= digit <= '9' {
        Some((digit as u32 - 0x30) as u8)
    } else if 'a' <= digit <= 'f' {
        Some((digit as u32 - 0x61 + 10) as u8)
    } else {
        None
    }
}

/// Every digit has its value, and only that value.
proof fn lemma_nibble(digit: char, value: nat)
    requires
        value < 16,
    ensures
        nibble(hex_digit(value)) == Some(value as u8),
        nibble(digit) == Some(value as u8) ==> digit == hex_digit(value),
        nibble(digit) matches Some(v) ==> v < 16,
{
}

/// The value of a lowercase hexadecimal digit.
fn nibble_of(digit: char) -> (r: Option<u8>)
    ensures
        r == nibble(digit),
{
    if digit == '0' {
        Some(0)
    } else if digit == '1' {
        Some(1)
    } else if digit == '2' {
        Some(2)
    } else if digit == '3' {
        Some(3)
    } else if digit == '4' {
        Some(4)
    } else if digit == '5' {
        Some(5)
    } else if digit == '6' {
        Some(6)
    } else if digit == '7' {
        Some(7)
    } else if digit == '8' {
        Some(8)
    } else if digit == '9' {
        Some(9)
    } else if digit == 'a' {
        Some(10)
    } else if digit == 'b' {
        Some(11)
    } else if digit == 'c' {
        Some(12)
    } else if digit == 'd' {
        Some(13)
    } else if digit == 'e' {
        Some(14)
    } else if digit == 'f' {
        Some(15)
    } else {
        None
    }
}

/// The text of a lowercase hexadecimal digit.
fn digit_text(value: u8) -> (r: &'static str)
    requires
        value < 16,
    ensures
        r@ == seq![hex_digit(value as nat)],
{
    proof {
        reveal_strlit("0");
        reveal_strlit("1");
        reveal_strlit("2");
        reveal_strlit("3");
        reveal_strlit("4");
        reveal_strlit("5");
        reveal_strlit("6");
        reveal_strlit("7");
        reveal_strlit("8");
        reveal_strlit("9");
        reveal_strlit("a");
        reveal_strlit("b");
        reveal_strlit("c");
        reveal_strlit("d");
        reveal_strlit("e");
        reveal_strlit("f");
    }
    let text: &'static str = match value {
        0 => "0",
        1 => "1",
        2 => "2",
        3 => "3",
        4 => "4",
        5 => "5",
        6 => "6",
        7 => "7",
        8 => "8",
        9 => "9",
        10 => "a",
        11 => "b",
        12 => "c",
        13 => "d",
        14 => "e",
        _ => "f",
    };
    assert(text@ =~= seq![hex_digit(value as nat)]);
    text
}

/// Bytes as lowercase hexadecimal digits.
pub fn hex_text(bytes: &[u8]) -> (r: String)
    ensures
        r@ == hex(bytes@),
{
    let mut text: String = String::new();
    let mut i: usize = 0;
    assert(text@ =~= hex(bytes@.take(0)));
    while i < bytes.len()
        invariant
            i <= bytes@.len(),
            text@ == hex(bytes@.take(i as int)),
        decreases bytes@.len() - i,
    {
        let ghost before = text@;
        let byte: u8 = bytes[i];
        text.append(digit_text(byte / 16));
        text.append(digit_text(byte % 16));
        assert(text@ =~= hex(bytes@.take(i + 1)));
        i += 1;
    }
    assert(bytes@.take(bytes@.len() as int) =~= bytes@);
    text
}

/// The file name of an artifact.
pub open spec fn file_name(id: Seq<u8>, extension: Seq<char>) -> Seq<char> {
    hex(id) + seq!['.'] + extension
}

/// Different artifacts have different file names.
pub proof fn file_names_tell_artifacts_apart(a: Seq<u8>, b: Seq<u8>, extension: Seq<char>)
    requires
        a.len() == b.len(),
        file_name(a, extension) == file_name(b, extension),
    ensures
        a == b,
{
    let x = file_name(a, extension);
    let y = file_name(b, extension);
    assert forall|i: int| 0 <= i < a.len() implies a[i] == b[i] by {
        assert(x[2 * i] == hex(a)[2 * i]);
        assert(y[2 * i] == hex(b)[2 * i]);
        assert(x[2 * i + 1] == hex(a)[2 * i + 1]);
        assert(y[2 * i + 1] == hex(b)[2 * i + 1]);
        assert((2 * i) / 2 == i && (2 * i + 1) / 2 == i);
        lemma_nibble(x[2 * i], (a[i] / 16) as nat);
        lemma_nibble(x[2 * i], (b[i] / 16) as nat);
        lemma_nibble(x[2 * i + 1], (a[i] % 16) as nat);
        lemma_nibble(x[2 * i + 1], (b[i] % 16) as nat);
    }
    assert(a =~= b);
}

/// Whether bytes come before others, compared from the front.
pub open spec fn bytes_before(a: Seq<u8>, b: Seq<u8>, at: nat) -> bool
    decreases a.len() - at,
{
    if at >= a.len() {
        at < b.len()
    } else if at >= b.len() {
        false
    } else if a[at as int] != b[at as int] {
        a[at as int] < b[at as int]
    } else {
        bytes_before(a, b, at + 1)
    }
}

impl ArtifactId {
    /// The identity with the given bytes.
    pub fn new(bytes: [u8; 32]) -> (r: ArtifactId)
        ensures
            r@ == bytes@,
    {
        ArtifactId { bytes }
    }

    /// The bytes of the identity.
    pub fn as_bytes(&self) -> (r: &[u8; 32])
        ensures
            r@ == self@,
    {
        &self.bytes
    }

    /// An identity has 32 bytes.
    pub proof fn lemma_length(self)
        ensures
            self@.len() == 32,
    {
    }

    /// Identities with the same bytes are the same.
    pub proof fn lemma_same(self, other: ArtifactId)
        requires
            self@ == other@,
        ensures
            self == other,
    {
        assert(self.bytes =~= other.bytes);
    }

    /// Whether two identities are the same.
    pub fn same(&self, other: &ArtifactId) -> (r: bool)
        ensures
            r == (self@ == other@),
    {
        let mut i: usize = 0;
        while i < 32
            invariant
                i <= 32,
                self@.len() == 32,
                other@.len() == 32,
                forall|k: int| 0 <= k < i ==> self@[k] == other@[k],
            decreases 32 - i,
        {
            if self.bytes[i] != other.bytes[i] {
                return false;
            }
            i += 1;
        }
        assert(self@ =~= other@);
        true
    }

    /// Whether an identity comes before another.
    pub fn before(&self, other: &ArtifactId) -> (r: bool)
        ensures
            r == bytes_before(self@, other@, 0),
    {
        let mut i: usize = 0;
        while i < 32
            invariant
                i <= 32,
                self@.len() == 32,
                other@.len() == 32,
                bytes_before(self@, other@, 0) == bytes_before(self@, other@, i as nat),
            decreases 32 - i,
        {
            if self.bytes[i] != other.bytes[i] {
                return self.bytes[i] < other.bytes[i];
            }
            i += 1;
        }
        false
    }

    /// The file name of the artifact.
    pub fn filename(&self, extension: &str) -> (r: String)
        ensures
            r@ == file_name(self@, extension@),
    {
        proof {
            reveal_strlit(".");
        }
        let digits: Vec<u8> = array_bytes(&self.bytes);
        let mut name: String = hex_text(digits.as_slice());
        name.append(".");
        name.append(extension);
        assert("."@ =~= seq!['.']);
        name
    }

    /// The artifact that a file name names.
    pub fn from_filename(name: &str, extension: &str) -> (r: Option<ArtifactId>)
        ensures
            match r {
                Some(id) => name@ == file_name(id@, extension@),
                None => forall|id: ArtifactId| name@ != #[trigger] file_name(id@, extension@),
            },
    {
        let count: usize = name.unicode_len();
        let tail: usize = extension.unicode_len();
        if count < 65 || count - 65 != tail {
            proof {
                assert forall|id: ArtifactId| name@ != #[trigger] file_name(
                    id@,
                    extension@,
                ) by {
                    id.lemma_length();
                    assert(file_name(id@, extension@).len() == 65 + extension@.len());
                }
            }
            return None;
        }
        if name.get_char(64) != '.' {
            proof {
                assert forall|id: ArtifactId| name@ != #[trigger] file_name(
                    id@,
                    extension@,
                ) by {
                    id.lemma_length();
                    assert(file_name(id@, extension@)[64] == '.');
                }
            }
            return None;
        }
        let mut k: usize = 0;
        while k < tail
            invariant
                count == name@.len(),
                tail == extension@.len(),
                count == 65 + tail,
                k <= tail,
                forall|j: int| 0 <= j < k ==> name@[65 + j] == #[trigger] extension@[j],
            decreases tail - k,
        {
            if name.get_char(65 + k) != extension.get_char(k) {
                proof {
                    assert forall|id: ArtifactId| name@ != #[trigger] file_name(
                        id@,
                        extension@,
                    ) by {
                        id.lemma_length();
                        assert(file_name(id@, extension@)[65 + k] == extension@[k as int]);
                    }
                }
                return None;
            }
            k += 1;
        }
        let mut bytes: [u8; 32] = [0u8; 32];
        let mut i: usize = 0;
        while i < 32
            invariant
                count == name@.len(),
                count >= 65,
                bytes@.len() == 32,
                i <= 32,
                forall|j: int|
                    0 <= j < i ==> name@[2 * j] == hex_digit((#[trigger] bytes@[j] / 16) as nat)
                        && name@[2 * j + 1] == hex_digit((bytes@[j] % 16) as nat),
            decreases 32 - i,
        {
            let high: Option<u8> = nibble_of(name.get_char(2 * i));
            let low: Option<u8> = nibble_of(name.get_char(2 * i + 1));
            proof {
                lemma_nibble(name@[2 * i as int], 0);
                lemma_nibble(name@[2 * i + 1], 0);
            }
            match (high, low) {
                (Some(high), Some(low)) => {
                    let byte: u8 = 16 * high + low;
                    bytes[i] = byte;
                    proof {
                        lemma_nibble(name@[2 * i as int], high as nat);
                        lemma_nibble(name@[2 * i + 1], low as nat);
                        assert(byte / 16 == high && byte % 16 == low);
                    }
                },
                _ => {
                    proof {
                        assert forall|id: ArtifactId| name@ != #[trigger] file_name(
                            id@,
                            extension@,
                        ) by {
                            id.lemma_length();
                            let expected = file_name(id@, extension@);
                            assert(expected[2 * i as int] == hex(id@)[2 * i as int]);
                            assert(expected[2 * i + 1] == hex(id@)[2 * i + 1]);
                            assert((2 * i) / 2 == i && (2 * i + 1) / 2 == i);
                            lemma_nibble(name@[2 * i as int], (id@[i as int] / 16) as nat);
                            lemma_nibble(name@[2 * i + 1], (id@[i as int] % 16) as nat);
                        }
                    }
                    return None;
                },
            }
            i += 1;
        }
        let id = ArtifactId { bytes };
        proof {
            let expected = file_name(id@, extension@);
            assert(expected.len() == name@.len());
            assert forall|k: int| 0 <= k < name@.len() implies name@[k] == expected[k] by {
                if k < 64 {
                    let j = k / 2;
                    assert(0 <= j < 32);
                    assert(id@[j] == bytes@[j]);
                    assert(expected[k] == hex(id@)[k]);
                } else if k > 64 {
                    assert(expected[k] == extension@[k - 65]);
                    assert(name@[65 + (k - 65)] == extension@[k - 65]);
                }
            }
            assert(name@ =~= expected);
        }
        Some(id)
    }
}

/// The bytes of an array as a vector.
fn array_bytes(array: &[u8; 32]) -> (r: Vec<u8>)
    ensures
        r@ == array@,
{
    let mut list: Vec<u8> = Vec::new();
    let mut i: usize = 0;
    while i < 32
        invariant
            i <= 32,
            array@.len() == 32,
            list@ == array@.take(i as int),
        decreases 32 - i,
    {
        list.push(array[i]);
        assert(array@.take(i + 1) =~= array@.take(i as int).push(array@[i as int]));
        i += 1;
    }
    assert(array@.take(32) =~= array@);
    list
}

/// What is known of a stored artifact without reading it.
#[derive(Clone, Copy, Debug)]
pub struct ArtifactRecord {
    pub id: ArtifactId,
    pub encoded_bytes: u64,
    /// The time of modification, in nanoseconds of the Unix epoch.
    pub modified: i128,
}

/// The artifacts of a directory, and how many of its items are none.
#[derive(Debug)]
pub struct ArtifactScan {
    pub records: Vec<ArtifactRecord>,
    pub ignored: u64,
}

/// The outcome of a bounded lookup.
#[derive(Debug)]
pub enum Lookup {
    Hit(Vec<u8>),
    Missing,
    Oversized,
}

/// One item of a directory: a name where it is Unicode, whether it is a regular
/// file, its size and its time of modification.
#[derive(Debug)]
pub struct DirectoryItem {
    pub name: Option<String>,
    pub is_file: bool,
    pub encoded_bytes: u64,
    pub modified: i128,
}

/// Synchronous storage of immutable artifacts that are already encoded.
pub trait ArtifactStore {
    /// The artifact of an identity, if it is there and not too large.
    fn lookup(&self, id: ArtifactId) -> Result<Lookup, Error>;

    /// Store an artifact under an identity.
    fn publish(&self, id: ArtifactId, bytes: &[u8]) -> Result<(), Error>;

    /// Remove an artifact; says whether it was there.
    fn remove(&self, id: ArtifactId) -> Result<bool, Error>;

    /// The artifacts of the store.
    fn scan(&self) -> Result<ArtifactScan, Error>;
}

/// Whether a character is an ASCII letter or digit.
pub open spec fn alphanumeric(c: char) -> bool {
    ('0' <= c <= '9') || ('a' <= c <= 'z') || ('A' <= c <= 'Z')
}

/// Whether a text can be a filename extension.
pub open spec fn extension_valid(extension: Seq<char>) -> bool {
    extension.len() > 0 && forall|i: int|
        0 <= i < extension.len() ==> alphanumeric(#[trigger] extension[i])
}

/// Whether an item of a directory is an artifact with the given record.
pub open spec fn recorded_as(item: DirectoryItem, extension: Seq<char>, record: ArtifactRecord) -> bool {
    &&& item.is_file
    &&& item.name matches Some(name)
    &&& name@ == file_name(record.id@, extension)
    &&& record.encoded_bytes == item.encoded_bytes
    &&& record.modified == item.modified
}

/// Whether an item of a directory is an artifact.
pub open spec fn is_artifact(item: DirectoryItem, extension: Seq<char>) -> bool {
    item.is_file && (item.name matches Some(name) && exists|id: ArtifactId|
        name@ == #[trigger] file_name(id@, extension))
}

/// The positions, among the first `count` items, of artifacts.
pub open spec fn artifact_positions(
    items: Seq<DirectoryItem>,
    extension: Seq<char>,
    count: nat,
) -> Seq<int>
    decreases count,
{
    if count == 0 {
        Seq::empty()
    } else {
        let rest = artifact_positions(items, extension, (count - 1) as nat);
        if is_artifact(items[count - 1], extension) {
            rest.push(count - 1)
        } else {
            rest
        }
    }
}

/// The limits and names of a flat directory of artifacts.
pub struct FileArtifactStore {
    max_entry_bytes: usize,
    extension: String,
}

impl FileArtifactStore {
    /// The size that no entry exceeds.
    pub closed spec fn limit(self) -> usize {
        self.max_entry_bytes
    }

    /// The extension of all file names.
    pub closed spec fn suffix(self) -> Seq<char> {
        self.extension@
    }

    /// The limit is positive and bounded, and the extension is safe.
    pub open spec fn wf(self) -> bool {
        0 < self.limit() < usize::MAX && extension_valid(self.suffix())
    }

    /// A store with an entry limit, and the extension `bin`.
    pub fn new(max_entry_bytes: usize) -> (r: Result<FileArtifactStore, Error>)
        ensures
            match r {
                Ok(store) => {
                    &&& store.wf()
                    &&& store.limit() == max_entry_bytes
                    &&& store.suffix() == "bin"@
                },
                Err(e) => e == Error::InvalidEntryLimit && (max_entry_bytes == 0 || max_entry_bytes
                    == usize::MAX),
            },
    {
        if max_entry_bytes == 0 || max_entry_bytes == usize::MAX {
            return Err(Error::InvalidEntryLimit);
        }
        proof {
            reveal_strlit("bin");
        }
        Ok(FileArtifactStore { max_entry_bytes, extension: "bin".to_owned() })
    }

    /// The store with another extension.
    pub fn with_extension(self, extension: &str) -> (r: Result<FileArtifactStore, Error>)
        requires
            self.wf(),
        ensures
            match r {
                Ok(store) => {
                    &&& store.wf()
                    &&& store.limit() == self.limit()
                    &&& store.suffix() == extension@
                },
                Err(e) => e == Error::InvalidExtension && !extension_valid(extension@),
            },
    {
        let count: usize = extension.unicode_len();
        if count == 0 {
            return Err(Error::InvalidExtension);
        }
        let mut i: usize = 0;
        while i < count
            invariant
                count == extension@.len(),
                i <= count,
                forall|k: int| 0 <= k < i ==> alphanumeric(#[trigger] extension@[k]),
            decreases count - i,
        {
            let c: char = extension.get_char(i);
            let letter: bool = (c >= 'a' && c <= 'z') || (c >= 'A' && c <= 'Z');
            if !letter && !(c >= '0' && c <= '9') {
                assert(!alphanumeric(extension@[i as int]));
                return Err(Error::InvalidExtension);
            }
            i += 1;
        }
        Ok(
            FileArtifactStore {
                max_entry_bytes: self.max_entry_bytes,
                extension: extension.to_owned(),
            },
        )
    }

    /// The size that no entry exceeds.
    pub fn max_entry_bytes(&self) -> (r: usize)
        ensures
            r == self.limit(),
    {
        self.max_entry_bytes
    }

    /// The file name of an artifact.
    pub fn path(&self, id: ArtifactId) -> (r: String)
        ensures
            r@ == file_name(id@, self.suffix()),
    {
        id.filename(self.extension.as_str())
    }

    /// Whether an artifact may be published.
    pub fn publish(&self, bytes: &[u8]) -> (r: Result<(), Error>)
        ensures
            match r {
                Ok(_) => bytes@.len() <= self.limit(),
                Err(e) => e == Error::Oversized && bytes@.len() > self.limit(),
            },
    {
        if bytes.len() > self.max_entry_bytes {
            return Err(Error::Oversized);
        }
        Ok(())
    }

    /// Whether an entry of the given size is read at all.
    pub fn reads(&self, encoded_bytes: u64) -> (r: bool)
        ensures
            r == (encoded_bytes <= self.limit()),
    {
        encoded_bytes <= self.max_entry_bytes as u64
    }

    /// The outcome of a lookup, from the size that the directory told and what
    /// was read, if the entry was still there.
    pub fn lookup(&self, encoded_bytes: u64, read: Option<Vec<u8>>) -> (r: Lookup)
        ensures
            if encoded_bytes > self.limit() {
                r is Oversized
            } else {
                match read {
                    None => r is Missing,
                    Some(bytes) => if bytes@.len() > self.limit() {
                        r is Oversized
                    } else {
                        r matches Lookup::Hit(hit) && hit@ == bytes@
                    },
                }
            },
    {
        if !self.reads(encoded_bytes) {
            return Lookup::Oversized;
        }
        match read {
            None => Lookup::Missing,
            Some(bytes) => {
                if bytes.len() > self.max_entry_bytes {
                    Lookup::Oversized
                } else {
                    Lookup::Hit(bytes)
                }
            },
        }
    }

    /// The artifacts among the items of a directory; the others are counted.
    pub fn scan(&self, items: &Vec<DirectoryItem>) -> (r: ArtifactScan)
        ensures
            ({
                let kept = artifact_positions(items@, self.suffix(), items@.len());
                &&& r.records@.len() == kept.len()
                &&& r.ignored == items@.len() - kept.len()
                &&& forall|k: int|
                    0 <= k < kept.len() ==> recorded_as(
                        items@[kept[k]],
                        self.suffix(),
                        #[trigger] r.records@[k],
                    )
            }),
    {
        let mut records: Vec<ArtifactRecord> = Vec::new();
        let mut ignored: u64 = 0;
        let mut i: usize = 0;
        let ghost extension = self.suffix();
        while i < items.len()
            invariant
                extension == self.suffix(),
                i <= items@.len(),
                records@.len() == artifact_positions(items@, extension, i as nat).len(),
                ignored + records@.len() == i,
                forall|k: int|
                    0 <= k < records@.len() ==> recorded_as(
                        items@[artifact_positions(items@, extension, i as nat)[k]],
                        extension,
                        #[trigger] records@[k],
                    ),
            decreases items@.len() - i,
        {
            let item: &DirectoryItem = &items[i];
            let found: Option<ArtifactId> = if !item.is_file {
                None
            } else {
                match &item.name {
                    None => None,
                    Some(name) => ArtifactId::from_filename(
                        name.as_str(),
                        self.extension.as_str(),
                    ),
                }
            };
            match found {
                None => {
                    ignored += 1;
                    assert(!is_artifact(*item, extension));
                },
                Some(id) => {
                    assert(is_artifact(*item, extension));
                    let record = ArtifactRecord {
                        id,
                        encoded_bytes: item.encoded_bytes,
                        modified: item.modified,
                    };
                    assert(recorded_as(*item, extension, record));
                    records.push(record);
                },
            }
            i += 1;
        }
        ArtifactScan { records, ignored }
    }
}

} // verus!
