use rxla_core::artifact::{restore_signature, Artifact, PrimitiveType, ShapeProto};
use rxla_core::cache::{
    ArtifactId, ArtifactScan, DirectoryItem, Error as CacheError, FileArtifactStore, Lookup,
};
use rxla_core::compiler::{
    key_with_options, BackendOutcome, CacheLimits, Compiler, DiskRead, Elapsed, LoweredProgram,
    LoweringTarget,
};
use rxla_core::disk_cache::{
    client_namespace, oldest_first, removals, trim_outcome, ClientInfo, DeviceInfo, DiskCache,
};
use rxla_core::dtype::DType;
use rxla_core::envelope::Entry;
use rxla_core::error::Error;
use rxla_core::executable::{decode_optimized_hlo, Executable, OptimizedProgram};
use rxla_core::graph::TensorType;
use rxla_core::session::Buffer;
use std::collections::BTreeMap;

#[test]
fn constructor_rejects_unbounded_or_empty_entries() {
    assert!(matches!(
        FileArtifactStore::new(0),
        Err(CacheError::InvalidEntryLimit)
    ));
    assert!(matches!(
        FileArtifactStore::new(usize::MAX),
        Err(CacheError::InvalidEntryLimit)
    ));
    assert!(matches!(
        FileArtifactStore::new(1).unwrap().with_extension("../pb"),
        Err(CacheError::InvalidExtension)
    ));
}

/// A directory in memory that publishes without overwriting, as the rules of a
/// store decide.
struct Directory {
    rules: FileArtifactStore,
    files: BTreeMap<String, Vec<u8>>,
}

impl Directory {
    fn lookup(&self, id: ArtifactId) -> Lookup {
        match self.files.get(&self.rules.path(id)) {
            None => Lookup::Missing,
            Some(bytes) => self.rules.lookup(bytes.len() as u64, Some(bytes.clone())),
        }
    }

    fn publish(&mut self, id: ArtifactId, bytes: &[u8]) -> Result<(), CacheError> {
        self.rules.publish(bytes)?;
        self.files.entry(self.rules.path(id)).or_insert(bytes.to_vec());
        Ok(())
    }

    fn remove(&mut self, id: ArtifactId) -> bool {
        self.files.remove(&self.rules.path(id)).is_some()
    }

    fn scan(&self) -> ArtifactScan {
        let mut items = Vec::new();
        for (name, bytes) in &self.files {
            items.push(DirectoryItem {
                name: Some(name.clone()),
                is_file: true,
                encoded_bytes: bytes.len() as u64,
                modified: 0,
            });
        }
        self.rules.scan(&items)
    }
}

fn hit(lookup: Lookup) -> Vec<u8> {
    match lookup {
        Lookup::Hit(bytes) => bytes,
        other => panic!("unexpected {other:?}"),
    }
}

#[test]
fn file_store_is_bounded_atomic_and_path_safe() {
    let mut store = Directory {
        rules: FileArtifactStore::new(4).unwrap(),
        files: BTreeMap::new(),
    };
    let id = ArtifactId::new([0xab; 32]);
    assert!(matches!(store.lookup(id), Lookup::Missing));
    store.publish(id, b"data").unwrap();
    store.publish(id, b"else").unwrap();
    assert_eq!(hit(store.lookup(id)), b"data".to_vec());
    assert_eq!(store.scan().records.len(), 1);
    assert!(store.scan().records[0].id.same(&id));
    assert!(matches!(
        store.publish(ArtifactId::new([1; 32]), b"large"),
        Err(CacheError::Oversized)
    ));
    assert!(store.remove(id));
    assert!(!store.remove(id));
    assert!(matches!(store.rules.lookup(0, None), Lookup::Missing));
    assert!(matches!(store.rules.lookup(5, None), Lookup::Oversized));
    assert_eq!(store.rules.path(id), format!("{}.bin", "ab".repeat(32)));
}

#[test]
fn scan_ignores_unrelated_files_and_symlinks() {
    let store = FileArtifactStore::new(16).unwrap();
    let id = ArtifactId::new([2; 32]);
    let item = |name: Option<String>, is_file: bool| DirectoryItem {
        name,
        is_file,
        encoded_bytes: 3,
        modified: 17,
    };
    let scan = store.scan(&vec![
        item(Some("unrelated".to_owned()), true),
        item(Some(store.path(id)), false),
        item(None, true),
    ]);
    assert!(scan.records.is_empty());
    assert_eq!(scan.ignored, 3);
    let scan = store.scan(&vec![item(Some(store.path(id)), true)]);
    assert_eq!(scan.records.len(), 1);
    assert!(scan.records[0].id.same(&id));
    assert_eq!(scan.records[0].encoded_bytes, 3);
    assert_eq!(scan.records[0].modified, 17);
    assert_eq!(scan.ignored, 0);
}

#[test]
fn file_names_give_identities_back() {
    let mut bytes = [0u8; 32];
    for (at, byte) in bytes.iter_mut().enumerate() {
        *byte = (7 * at) as u8;
    }
    let id = ArtifactId::new(bytes);
    let name = id.filename("pb");
    assert!(ArtifactId::from_filename(&name, "pb").unwrap().same(&id));
    assert!(ArtifactId::from_filename(&name, "bin").is_none());
    assert!(ArtifactId::from_filename(&name.to_uppercase(), "pb").is_none());
    assert!(ArtifactId::from_filename("ab.pb", "pb").is_none());
}

fn client() -> ClientInfo {
    ClientInfo {
        api_major: 0,
        api_minor: 115,
        platform: "cpu".into(),
        platform_version: "test-build".into(),
        process_index: 0,
        addressable_devices: vec![device()],
    }
}

fn device() -> DeviceInfo {
    DeviceInfo {
        id: 0,
        kind: "cpu".into(),
        description: "test device".into(),
        selected: true,
    }
}

#[test]
fn client_namespace_is_stable_and_separates_placement_and_compatibility() {
    let info = client();
    let original = client_namespace("build-A", &info).unwrap();
    assert_eq!(original, client_namespace("build-A", &client()).unwrap());
    assert_ne!(original, client_namespace("build-B", &info).unwrap());
    for change in [
        |i: &mut ClientInfo| i.api_major += 1,
        |i: &mut ClientInfo| i.api_minor += 1,
        |i: &mut ClientInfo| i.process_index += 1,
        |i: &mut ClientInfo| i.platform.push('x'),
        |i: &mut ClientInfo| i.platform_version.push('x'),
        |i: &mut ClientInfo| i.addressable_devices[0].id += 1,
        |i: &mut ClientInfo| i.addressable_devices[0].kind.push('x'),
        |i: &mut ClientInfo| i.addressable_devices[0].description.push('x'),
    ] {
        let mut changed = client();
        change(&mut changed);
        assert_ne!(original, client_namespace("build-A", &changed).unwrap());
    }
    assert!(client_namespace("", &info).is_err());
    let mut invalid = client();
    invalid.addressable_devices[0].selected = false;
    assert!(client_namespace("build-A", &invalid).is_err());
    let mut invalid = client();
    invalid.addressable_devices.push(device());
    assert!(client_namespace("build-A", &invalid).is_err());

    let mut input = b"rxla-core-client-namespace-v1".to_vec();
    for field in ["build-A", "cpu", "test-build", "cpu", "test device"] {
        input.extend_from_slice(&(field.len() as u64).to_le_bytes());
        input.extend_from_slice(field.as_bytes());
    }
    for value in [0i32, 115, 0, 0] {
        input.extend_from_slice(&value.to_le_bytes());
    }
    assert_eq!(
        original,
        format!("client-v1-{}", blake3::hash(&input).to_hex())
    );
}

fn flags_cache(flags: Option<Vec<u8>>) -> DiskCache {
    DiskCache::new("test", flags, 1024).unwrap()
}

#[test]
fn flag_values_partition_paths_and_envelopes() {
    let variants = [
        None,
        Some(vec![]),
        Some(b"--xla_gpu_enable_command_buffer=".to_vec()),
        Some(b"a\0b".to_vec()),
    ];
    let mut paths = std::collections::HashSet::new();
    for flags in &variants {
        let cache = flags_cache(flags.clone());
        assert!(paths.insert(cache.store().path(cache.artifact_id(&[1]))));
        let entry = Entry {
            version: 2,
            namespace: "test".into(),
            key: vec![1],
            artifact: vec![2],
            checksum: blake3::hash(&[2]).as_bytes().to_vec(),
            xla_flags: flags.clone(),
        }
        .encode();
        for other in &variants {
            let cache = flags_cache(other.clone());
            assert_eq!(cache.decode_entry(&entry, &[1]).is_ok(), flags == other);
        }
    }
}

fn test_entry() -> Entry {
    Entry {
        version: 2,
        namespace: "test".into(),
        key: vec![1],
        artifact: vec![2],
        checksum: blake3::hash(&[2]).as_bytes().to_vec(),
        xla_flags: None,
    }
}

#[test]
fn rejects_wrong_key_namespace_version_and_checksum_before_native_loading() {
    let cache = flags_cache(None);
    assert!(cache.decode_entry(&test_entry().encode(), &[1]).is_ok());
    for mutate in [
        (|e: &mut Entry| e.version = 1) as fn(&mut Entry),
        |e| e.namespace = "other".into(),
        |e| e.key = vec![3],
        |e| e.artifact = vec![3],
        |e| e.checksum.clear(),
    ] {
        let mut changed = test_entry();
        mutate(&mut changed);
        assert!(cache.decode_entry(&changed.encode(), &[1]).is_err());
    }
}

#[test]
fn entries_have_their_stored_form() {
    let mut entry = test_entry();
    entry.checksum = vec![9];
    entry.xla_flags = Some(vec![]);
    let mut expected = vec![8, 2, 18, 4];
    expected.extend_from_slice(b"test");
    expected.extend_from_slice(&[26, 1, 1, 34, 1, 2, 42, 1, 9, 50, 0]);
    assert_eq!(entry.encode(), expected);
    let back = Entry::decode(&expected).unwrap();
    assert_eq!(back.version, 2);
    assert_eq!(back.namespace, "test");
    assert_eq!(back.xla_flags, Some(vec![]));
    let mut unknown = vec![0x38, 0x96, 0x01];
    unknown.extend_from_slice(&expected);
    assert_eq!(Entry::decode(&unknown).unwrap().key, [1]);
    assert!(Entry::decode(&[255]).is_err());
    assert!(Entry::decode(&[18, 1, 255]).is_err());
    let mut large = test_entry();
    large.artifact = vec![7; 300];
    assert_eq!(Entry::decode(&large.encode()).unwrap().artifact.len(), 300);
}

#[test]
fn cache_entries_match_their_key() {
    let cache = flags_cache(Some(b"flags".to_vec()));
    let stored = cache.entry(b"key", vec![1, 2, 3]);
    assert_eq!(
        stored.checksum,
        blake3::hash(&[1, 2, 3]).as_bytes().to_vec()
    );
    let found = cache
        .load(b"key", &Lookup::Hit(stored.encode()))
        .unwrap()
        .unwrap();
    assert_eq!(found, [1, 2, 3]);
    assert!(cache.load(b"key", &Lookup::Missing).unwrap().is_none());
    assert!(cache.load(b"other", &Lookup::Hit(stored.encode())).is_err());
    assert!(cache.load(b"key", &Lookup::Oversized).is_err());
}

#[test]
fn inspection_classifies_without_native_loading_or_writes() {
    let cache = DiskCache::new("test", None, 512).unwrap();
    let make = |key: u8| Entry {
        version: 2,
        namespace: "test".into(),
        key: vec![key],
        artifact: vec![99],
        checksum: blake3::hash(&[99]).as_bytes().to_vec(),
        xla_flags: None,
    };
    let mut foreign = make(2);
    foreign.namespace = "other".into();
    let mut bad = make(3);
    bad.checksum.clear();
    let files = [
        (cache.artifact_id(&[1]), make(1).encode()),
        (cache.artifact_id(&[2]), foreign.encode()),
        (cache.artifact_id(&[3]), bad.encode()),
        (cache.artifact_id(&[4]), vec![255]),
        (cache.artifact_id(&[5]), make(6).encode()),
        (cache.artifact_id(&[7]), vec![0; 513]),
    ];
    let mut items = Vec::new();
    let mut lookups = Vec::new();
    for (id, bytes) in &files {
        items.push(DirectoryItem {
            name: Some(cache.store().path(*id)),
            is_file: true,
            encoded_bytes: bytes.len() as u64,
            modified: 0,
        });
        lookups.push(
            cache
                .store()
                .lookup(bytes.len() as u64, Some(bytes.clone())),
        );
    }
    for (name, is_file) in [("notes.txt", true), ("subdir", false)] {
        items.push(DirectoryItem {
            name: Some(name.to_owned()),
            is_file,
            encoded_bytes: 4,
            modified: 0,
        });
    }
    let scan = cache.store().scan(&items);
    let inspection = cache.inspect(&scan, &lookups).unwrap();
    assert_eq!(inspection.entry_files, 6);
    assert_eq!(
        inspection.encoded_bytes,
        files.iter().map(|(_, b)| b.len() as u64).sum::<u64>()
    );
    assert_eq!(inspection.compatible, 1);
    assert_eq!(inspection.incompatible, 1);
    assert_eq!(inspection.corrupt, 3);
    assert_eq!(inspection.oversized, 1);
    assert_eq!(inspection.ignored, 2);
}

#[test]
fn trimming_uses_modification_age_and_preserves_other_files() {
    let cache = DiskCache::new("trim", None, 512).unwrap();
    let make = |id: u8, namespace: &str| {
        Entry {
            version: 2,
            namespace: namespace.into(),
            key: vec![id],
            artifact: vec![99],
            checksum: blake3::hash(&[99]).as_bytes().to_vec(),
            xla_flags: None,
        }
        .encode()
    };
    let mut sizes = [0u64; 3];
    let mut items = Vec::new();
    let mut lookups = Vec::new();
    for id in [3u8, 1, 2] {
        let bytes = make(id, "trim");
        sizes[id as usize - 1] = bytes.len() as u64;
        items.push(DirectoryItem {
            name: Some(cache.store().path(cache.artifact_id(&[id]))),
            is_file: true,
            encoded_bytes: bytes.len() as u64,
            modified: (100 + id as i128) * 1_000_000_000,
        });
        lookups.push(Lookup::Hit(bytes));
    }
    for (id, bytes) in [
        (4u8, make(4, "other")),
        (5, b"invalid protobuf".to_vec()),
        (6, vec![0; 513]),
    ] {
        items.push(DirectoryItem {
            name: Some(cache.store().path(cache.artifact_id(&[id]))),
            is_file: true,
            encoded_bytes: bytes.len() as u64,
            modified: 0,
        });
        let size = bytes.len() as u64;
        lookups.push(cache.store().lookup(size, Some(bytes)));
    }
    for (name, is_file) in [
        ("notes.txt".to_owned(), true),
        (cache.store().path(cache.artifact_id(&[7])), false),
    ] {
        items.push(DirectoryItem {
            name: Some(name),
            is_file,
            encoded_bytes: 6,
            modified: 0,
        });
    }
    let scan = cache.store().scan(&items);
    let before = cache.inspect(&scan, &lookups).unwrap();
    assert_eq!(
        [before.entry_files, before.compatible, before.incompatible, before.corrupt],
        [6, 3, 1, 1]
    );
    assert_eq!([before.oversized, before.ignored], [1, 2]);
    let (inspection, candidates) = cache.scan(&scan, &lookups, true).unwrap();
    assert_eq!(inspection.compatible, 3);
    assert_eq!(candidates.len(), 3);
    let oldest = oldest_first(&candidates);
    for (at, key) in [1u8, 2, 3].iter().enumerate() {
        assert!(oldest[at].id.same(&cache.artifact_id(&[*key])));
    }
    assert_eq!(removals(&oldest, u64::MAX).unwrap(), 0);
    let untouched = cache
        .trim_compatible_to_bytes(&scan, &lookups, u64::MAX, &vec![])
        .unwrap();
    assert_eq!(untouched.removed_files, 0);
    assert_eq!(untouched.removed_bytes, 0);
    assert_eq!(untouched.already_absent, 0);
    assert_eq!(
        untouched.remaining_compatible_bytes,
        sizes.iter().sum::<u64>()
    );
    let budget = sizes[1] + sizes[2];
    assert_eq!(removals(&oldest, budget).unwrap(), 1);
    let trimmed = cache
        .trim_compatible_to_bytes(&scan, &lookups, budget, &vec![Ok(true)])
        .unwrap();
    assert_eq!(trimmed.removed_files, 1);
    assert_eq!(trimmed.removed_bytes, sizes[0]);
    assert_eq!(trimmed.already_absent, 0);
    assert_eq!(trimmed.remaining_compatible_bytes, sizes[1] + sizes[2]);
    let rest = oldest[1..].to_vec();
    assert_eq!(removals(&rest, 0).unwrap(), 2);
    let trimmed = trim_outcome(&rest, 0, &vec![Ok(true), Ok(true)]).unwrap();
    assert_eq!(trimmed.removed_files, 2);
    assert_eq!(trimmed.removed_bytes, sizes[1] + sizes[2]);
    assert_eq!(trimmed.remaining_compatible_bytes, 0);
    let absent = trim_outcome(&rest, 0, &vec![Ok(true), Ok(false)]).unwrap();
    assert_eq!(absent.removed_files, 1);
    assert_eq!(absent.already_absent, 1);
    assert!(matches!(
        trim_outcome(&rest, 0, &vec![Ok(true), Err("denied".to_owned())]),
        Err(Error::TrimFailed { removed: 1, reason }) if reason == "denied"
    ));
    let nothing = trim_outcome(&vec![], 0, &vec![]).unwrap();
    assert_eq!(nothing.removed_files, 0);
    assert_eq!(nothing.removed_bytes, 0);
    assert_eq!(nothing.already_absent, 0);
    assert_eq!(nothing.remaining_compatible_bytes, 0);
}

fn valid() -> (Artifact, Vec<ShapeProto>) {
    (
        Artifact {
            version: 1,
            native: vec![1],
            inputs: vec![vec![16, 11]],
            output_count: 2,
        },
        vec![ShapeProto {
            element_type: PrimitiveType::F32,
            dimensions: vec![2, 3],
            tuple_shapes: 0,
            is_dynamic_dimension: vec![],
        }],
    )
}

#[test]
fn envelope_validation_without_native_loading() {
    let (artifact, shapes) = valid();
    let decoded = Artifact::decode(&artifact.encode()).unwrap();
    assert_eq!(decoded.inputs, artifact.inputs);
    let (inputs, count) = restore_signature(&decoded, &shapes).unwrap();
    assert_eq!(inputs[0].dims, [2, 3]);
    assert_eq!(count, 2);
    assert!(Artifact::decode(&[0xff]).is_err());
    let empty = Artifact::decode(&[]).unwrap();
    assert!(restore_signature(&empty, &[]).is_err());
    for mutate in [
        (|a: &mut Artifact, _: &mut Vec<ShapeProto>| a.version = 2)
            as fn(&mut Artifact, &mut Vec<ShapeProto>),
        |a, _| a.native.clear(),
        |a, _| a.output_count = 0,
        |_, s| s[0].element_type = PrimitiveType::Other,
        |_, s| s[0].dimensions = vec![-1],
        |_, s| s[0].dimensions = vec![i64::MAX, i64::MAX],
        |_, s| s[0].is_dynamic_dimension = vec![true, false],
        |_, s| s[0].tuple_shapes = 1,
    ] {
        let (mut artifact, mut shapes) = valid();
        mutate(&mut artifact, &mut shapes);
        let decoded = Artifact::decode(&artifact.encode()).unwrap();
        assert!(restore_signature(&decoded, &shapes).is_err());
    }
}

#[test]
fn artifacts_have_their_exported_form() {
    let (artifact, shapes) = valid();
    let bytes = artifact.encode();
    assert_eq!(bytes, [8, 1, 18, 1, 1, 26, 2, 16, 11, 32, 2]);
    let restored = Executable::deserialize_with_metadata(
        &Artifact::decode(&bytes).unwrap(),
        &shapes,
        5,
        Ok((77, 1)),
    )
    .ok()
    .unwrap();
    assert_eq!(restored.handle(), 77);
    assert_eq!(restored.client(), 5);
    assert_eq!(restored.output_count(), 2);
    let again = restored.serialize_with_metadata();
    assert_eq!(again[0].element_type, PrimitiveType::F32);
    assert_eq!(again[0].dimensions, [2, 3]);
}

#[test]
fn optimized_program_format_decoding_is_explicit() {
    let module = "diagnostic".to_owned();
    let unreadable = || "invalid varint".to_owned();
    let program = |format: &str,
                   plain: Result<String, String>,
                   configured: Result<Option<String>, String>| {
        OptimizedProgram { format: format.to_owned(), plain, configured }
    };
    assert_eq!(
        decode_optimized_hlo(program("hlo", Ok(module.clone()), Err(unreadable()))).unwrap(),
        module
    );
    assert_eq!(
        decode_optimized_hlo(program(
            "hlo_with_config",
            Err(unreadable()),
            Ok(Some(module.clone()))
        ))
        .unwrap(),
        module
    );
    assert!(matches!(
        decode_optimized_hlo(program("hlo_with_config", Ok(String::new()), Ok(None))),
        Err(Error::MissingOptimizedHloModule)
    ));
    assert!(matches!(
        decode_optimized_hlo(program("unknown", Ok(module.clone()), Err(unreadable()))),
        Err(Error::UnsupportedOptimizedProgram { format }) if format == "unknown"
    ));
    for format in ["hlo", "hlo_with_config"] {
        assert!(matches!(
            decode_optimized_hlo(program(format, Err(unreadable()), Err(unreadable()))),
            Err(Error::OptimizedProgramDecode {
                format: actual,
                ..
            }) if actual == format
        ));
    }
    assert!(matches!(
        decode_optimized_hlo(program("hlo", Err(unreadable()), Ok(None))),
        Err(Error::OptimizedProgramDecode { reason, .. }) if reason == "invalid varint"
    ));
    let loaded = executable(1, DType::F32, 1);
    assert_eq!(
        loaded.optimized_hlo_proto(Ok(program("hlo", Ok(module.clone()), Ok(None)))).unwrap(),
        module
    );
    let failure = Error::InvalidArgument { message: "no program" };
    assert!(matches!(
        loaded.optimized_hlo_proto::<String>(Err(failure)),
        Err(Error::InvalidArgument { message: "no program" })
    ));
}

fn executable(devices: usize, dtype: DType, outputs: usize) -> Executable {
    Executable::new(
        1,
        5,
        devices,
        vec![TensorType {
            dims: vec![2],
            dtype,
        }],
        outputs,
    )
}

fn resident(dims: &[i64], dtype: DType) -> Buffer {
    Buffer {
        handle: 3,
        client: 5,
        dtype,
        dims: dims.to_vec(),
    }
}

#[test]
fn executions_check_their_inputs() {
    let program = executable(1, DType::F32, 1);
    assert!(program.validate_inputs(&[resident(&[2], DType::F32)]).is_ok());
    assert!(matches!(
        program.validate_inputs(&[]),
        Err(Error::ExecutableInputCount {
            expected: 1,
            actual: 0
        })
    ));
    assert!(matches!(
        program.validate_inputs(&[resident(&[3], DType::F32)]),
        Err(Error::ExecutableInputShape { index: 0, expected, actual })
            if expected.to_vec() == [2] && actual.to_vec() == [3]
    ));
    assert!(matches!(
        program.validate_inputs(&[resident(&[2], DType::I32)]),
        Err(Error::ExecutableInputDType {
            index: 0,
            expected: DType::F32,
            actual: DType::I32
        })
    ));
    assert!(program.submit(&[], Ok(())).is_err());
    let host = || Ok(vec![vec![1u32, 2]]);
    assert_eq!(program.run(1, host()).unwrap(), [1, 2]);
    assert!(matches!(
        program.run(2, host()),
        Err(Error::ExecutableInputCount {
            expected: 1,
            actual: 2
        })
    ));
    assert!(matches!(
        executable(1, DType::F32, 2).run(1, host()),
        Err(Error::SingleOutputRequired { actual: 2 })
    ));
    assert!(matches!(
        executable(1, DType::I32, 1).run_many(1, host()),
        Err(Error::F32InputRequired {
            index: 0,
            dtype: DType::I32
        })
    ));
}

#[test]
fn replicated_executions_return_the_first_complete_replica() {
    let inputs = [resident(&[2], DType::F32)];
    let list = || vec![resident(&[2], DType::F32)];
    let pair = executable(2, DType::F32, 1);
    assert_eq!(
        pair.execute_replicated(&inputs, Ok(vec![list(), list()]))
            .unwrap()
            .len(),
        1
    );
    assert!(matches!(
        pair.execute_replicated(&inputs, Ok(vec![list(), vec![]])),
        Err(Error::ShardedOutputCount {
            device: 1,
            expected: 1,
            actual: 0
        })
    ));
    let single = executable(1, DType::F32, 1);
    assert!(single
        .execute_replicated(&inputs, Ok(vec![vec![]]))
        .unwrap()
        .is_empty());
}

fn program(code: &str) -> LoweredProgram {
    LoweredProgram::from_stablehlo(code, vec![], vec![])
}

fn compiled(executable: u64) -> BackendOutcome {
    BackendOutcome {
        disk: DiskRead::Absent,
        elapsed: Elapsed {
            secs: 1,
            nanos: 600_000_000,
        },
        compiled: Ok(executable),
        store_failed: false,
    }
}

#[test]
fn program_keys_hold_the_format_and_the_source() {
    assert_eq!(program("abc").cache_key(), b"rxla-program\0mlir\0abc");
    let mut expected = b"rxla-options\0".to_vec();
    expected.extend_from_slice(&3u64.to_le_bytes());
    expected.extend_from_slice(b"keyopts");
    assert_eq!(key_with_options(b"key", b"opts"), expected);
}

#[test]
fn the_least_recently_used_program_leaves_first() {
    let mut compiler = Compiler::new(
        5,
        CacheLimits {
            max_entries: 2,
            max_key_bytes: 1024,
        },
    );
    let (a, b, c) = (program("a"), program("b"), program("c"));
    assert_eq!(compiler.compile_lowered(&a, compiled(1)).unwrap(), 1);
    assert_eq!(compiler.compile_lowered(&b, compiled(2)).unwrap(), 2);
    assert_eq!(compiler.compile_lowered(&a, compiled(9)).unwrap(), 1);
    assert_eq!(compiler.compile_lowered(&c, compiled(3)).unwrap(), 3);
    assert_eq!(compiler.compile_lowered(&a, compiled(9)).unwrap(), 1);
    assert_eq!(compiler.compile_lowered(&b, compiled(4)).unwrap(), 4);
    let stats = compiler.stats();
    assert_eq!(stats.hits, 2);
    assert_eq!(stats.misses, 4);
    assert_eq!(stats.evictions, 2);
    assert_eq!(stats.entries, 2);
    assert_eq!(stats.key_bytes, 2 * 19);
    assert_eq!(
        stats.compile_time,
        Elapsed {
            secs: 6,
            nanos: 400_000_000
        }
    );
    assert!(compiler.invalidate_memory(&a));
    assert!(!compiler.invalidate_memory(&a));
    compiler.clear();
    assert_eq!(compiler.stats().entries, 0);
    assert_eq!(compiler.stats().hits, 2);
}

#[test]
fn the_bytes_of_keys_are_bounded() {
    let mut compiler = Compiler::new(
        5,
        CacheLimits {
            max_entries: 8,
            max_key_bytes: 40,
        },
    );
    for (at, code) in ["a", "b", "c"].iter().enumerate() {
        compiler
            .compile_lowered(&program(code), compiled(at as u64))
            .unwrap();
    }
    assert_eq!(compiler.stats().entries, 2);
    assert_eq!(compiler.stats().evictions, 1);
    let long = program(&"x".repeat(50));
    assert_eq!(compiler.compile_lowered(&long, compiled(7)).unwrap(), 7);
    assert_eq!(compiler.stats().bypasses, 1);
    assert_eq!(compiler.stats().entries, 2);
}

#[test]
fn failures_and_the_disk_are_counted() {
    let mut compiler = Compiler::new(5, CacheLimits::default());
    let a = program("a");
    let failure = Error::InvalidArgument { message: "backend" };
    let failed = BackendOutcome {
        disk: DiskRead::Failed,
        compiled: Err(failure),
        ..compiled(0)
    };
    assert!(compiler.compile_lowered(&a, failed).is_err());
    let restored = BackendOutcome {
        disk: DiskRead::Hit(8),
        ..compiled(0)
    };
    assert_eq!(
        compiler
            .compile_lowered_with_options(&a, b"options", restored)
            .unwrap(),
        8
    );
    let unstored = BackendOutcome {
        store_failed: true,
        ..compiled(9)
    };
    assert_eq!(compiler.compile_lowered(&a, unstored).unwrap(), 9);
    let stats = compiler.stats();
    assert_eq!(stats.disk_read_errors, 1);
    assert_eq!(stats.compile_failures, 1);
    assert_eq!(stats.disk_hits, 1);
    assert_eq!(stats.disk_write_errors, 1);
    assert_eq!(stats.misses, 2);
    assert_eq!(stats.entries, 2);
    let longest = Elapsed {
        secs: u64::MAX,
        nanos: 5,
    };
    assert_eq!(
        longest.saturating_add(Elapsed { secs: 1, nanos: 0 }),
        Elapsed {
            secs: u64::MAX,
            nanos: 999_999_999
        }
    );
}

#[test]
fn precision_is_chosen_on_cuda_alone() {
    let plain = Compiler::new(5, CacheLimits::default());
    assert!(matches!(
        plain.lowering_target("cuda"),
        Ok(LoweringTarget::Portable)
    ));
    let attention = plain.with_f16_attention(true);
    assert!(matches!(
        attention.lowering_target("CuDa"),
        Ok(LoweringTarget::CudaF16Attention)
    ));
    let half = attention.with_compute_dtype(DType::BF16);
    assert!(matches!(
        half.lowering_target("cuda"),
        Ok(LoweringTarget::CudaBf16Compute)
    ));
    assert!(matches!(
        half.lowering_target("cpu"),
        Ok(LoweringTarget::Portable)
    ));
    assert!(matches!(
        half.with_compute_dtype(DType::F32).lowering_target("cuda"),
        Err(Error::ComputeDType { dtype: DType::F32 })
    ));
}

#[test]
fn invalidation_names_the_entry_of_the_program() {
    let cache = flags_cache(None);
    let other = DiskCache::new("other", None, 1024).unwrap();
    let a = program("a");
    assert!(cache
        .invalidate(&a)
        .same(&cache.artifact_id(&a.cache_key())));
    assert!(!cache.invalidate(&a).same(&other.invalidate(&a)));
    assert!(!cache.invalidate(&a).same(&cache.invalidate(&program("b"))));
    let compiler = Compiler::new(5, CacheLimits::default()).with_disk_cache(cache);
    assert!(compiler.disk_cache().is_some());
}

fn link(cache: &DiskCache, key: u8) -> DirectoryItem {
    DirectoryItem {
        name: Some(cache.store().path(cache.artifact_id(&[key]))),
        is_file: false,
        encoded_bytes: 7,
        modified: 0,
    }
}

#[test]
fn inspection_ignores_symlinks() {
    let cache = DiskCache::new("test", None, 512).unwrap();
    let scan = cache.store().scan(&vec![link(&cache, 1)]);
    let inspection = cache.inspect(&scan, &vec![]).unwrap();
    assert_eq!(inspection.ignored, 1);
    assert_eq!(inspection.entry_files, 0);
    assert_eq!(inspection.encoded_bytes, 0);
    assert_eq!(inspection.compatible, 0);
    assert_eq!(inspection.incompatible, 0);
    assert_eq!(inspection.corrupt, 0);
    assert_eq!(inspection.oversized, 0);
}

#[test]
fn trimming_ignores_symlinks_and_other_flag_namespaces() {
    let cache = DiskCache::new("trim", None, 512).unwrap();
    let other = DiskCache::new("trim", Some(vec![]), 512).unwrap();
    let entry = Entry {
        version: 2,
        namespace: "trim".into(),
        key: vec![1],
        artifact: vec![1],
        checksum: blake3::hash(&[1]).as_bytes().to_vec(),
        xla_flags: Some(vec![]),
    }
    .encode();
    let scan = cache.store().scan(&vec![
        link(&cache, 1),
        DirectoryItem {
            name: Some(other.store().path(other.artifact_id(&[1]))),
            is_file: true,
            encoded_bytes: entry.len() as u64,
            modified: 0,
        },
    ]);
    let lookups = vec![Lookup::Hit(entry)];
    let trimmed = cache
        .trim_compatible_to_bytes(&scan, &lookups, 0, &vec![])
        .unwrap();
    assert_eq!(trimmed.removed_files, 0);
    assert_eq!(trimmed.removed_bytes, 0);
    assert_eq!(trimmed.already_absent, 0);
    assert_eq!(trimmed.remaining_compatible_bytes, 0);
}
