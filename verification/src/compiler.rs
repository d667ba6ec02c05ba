//! Compiled programs: signatures, cache keys and a bounded cache that drops the
//! least recently used entry.
use crate::disk_cache::{prefixed, same_bytes, tag_bytes, DiskCache};
use crate::dtype::DType;
use crate::envelope::append_bytes;
use crate::error::{err, invalid, Error};
use crate::graph::{values_of, Graph, Tensor, TensorType, TypeModel};
use crate::interface::{
    all_local, ids_of, kept_positions, numbers_at, types_at, types_view, Interface,
};
use crate::plan::{InputSpec, OutputSpec};
use vstd::bytes::u64_to_le_bytes;
use vstd::prelude::*;
use vstd::string::StringSliceAdditionalSpecFns;
use vstd::utf8::encode_utf8;

verus! {

/// A lowered program: its source for the backend, and its signature.
pub struct LoweredProgram {
    code: Vec<u8>,
    inputs: Vec<TensorType>,
    outputs: Vec<TensorType>,
}

/// The cache key of a program: its format and its whole source.
pub open spec fn program_key(format: Seq<char>, code: Seq<u8>) -> Seq<u8> {
    tag_bytes("rxla-program\0"@) + (encode_utf8(format) + (seq![0u8] + code))
}

/// The cache key of a program with compile options.
pub open spec fn options_key(program: Seq<u8>, options: Seq<u8>) -> Seq<u8> {
    tag_bytes("rxla-options\0"@) + (prefixed(program) + options)
}

/// Different sources have different keys.
pub proof fn program_keys_tell_programs_apart(format: Seq<char>, a: Seq<u8>, b: Seq<u8>)
    requires
        program_key(format, a) == program_key(format, b),
    ensures
        a == b,
{
    let front = tag_bytes("rxla-program\0"@) + encode_utf8(format) + seq![0u8];
    assert(program_key(format, a) =~= front + a);
    assert(program_key(format, b) =~= front + b);
    assert((front + a).skip(front.len() as int) =~= a);
    assert((front + b).skip(front.len() as int) =~= b);
}

/// Different programs or options have different keys.
pub proof fn options_keys_tell_programs_apart(
    a: Seq<u8>,
    a_options: Seq<u8>,
    b: Seq<u8>,
    b_options: Seq<u8>,
)
    requires
        a.len() <= u64::MAX,
        b.len() <= u64::MAX,
        options_key(a, a_options) == options_key(b, b_options),
    ensures
        a == b,
        a_options == b_options,
{
    let tag = tag_bytes("rxla-options\0"@);
    let x = prefixed(a) + a_options;
    let y = prefixed(b) + b_options;
    assert((tag + x).skip(tag.len() as int) =~= x);
    assert((tag + y).skip(tag.len() as int) =~= y);
    crate::disk_cache::lemma_prefixed_apart(a, b, a_options, b_options);
}

/// The cache key of a program.
fn backend_key(format: &str, code: &[u8]) -> (r: Vec<u8>)
    ensures
        r@ == program_key(format@, code@),
{
    let mut key: Vec<u8> = Vec::new();
    append_bytes(&mut key, "rxla-program\0".as_bytes());
    append_bytes(&mut key, format.as_bytes());
    key.push(0u8);
    append_bytes(&mut key, code);
    assert(key@ =~= program_key(format@, code@));
    key
}

/// The cache key of a program with compile options.
pub fn key_with_options(program: &[u8], options: &[u8]) -> (r: Vec<u8>)
    ensures
        r@ == options_key(program@, options@),
{
    let mut key: Vec<u8> = Vec::new();
    append_bytes(&mut key, "rxla-options\0".as_bytes());
    let length: usize = program.len();
    let prefix: Vec<u8> = u64_to_le_bytes(length as u64);
    append_bytes(&mut key, prefix.as_slice());
    append_bytes(&mut key, program);
    append_bytes(&mut key, options);
    assert(key@ =~= options_key(program@, options@));
    key
}

impl LoweredProgram {
    /// The source of the program.
    pub closed spec fn source(self) -> Seq<u8> {
        self.code@
    }

    /// The types of its inputs.
    pub closed spec fn input_types(self) -> Seq<TypeModel> {
        types_view(self.inputs@)
    }

    /// The types of its outputs.
    pub closed spec fn output_types(self) -> Seq<TypeModel> {
        types_view(self.outputs@)
    }

    /// The format of the source.
    pub fn format(&self) -> (r: &'static str)
        ensures
            r@ == "mlir"@,
    {
        "mlir"
    }

    /// The source that the backend compiler takes.
    pub fn code(&self) -> (r: &[u8])
        ensures
            r@ == self.source(),
    {
        self.code.as_slice()
    }

    /// The cache key of the program.
    pub fn cache_key(&self) -> (r: Vec<u8>)
        ensures
            r@ == program_key("mlir"@, self.source()),
    {
        backend_key("mlir", self.code.as_slice())
    }

    /// The number of runtime parameters.
    pub fn input_count(&self) -> (r: usize)
        ensures
            r == self.input_types().len(),
    {
        self.inputs.len()
    }

    /// A parameter's static extents and element type.
    pub fn input_spec(&self, index: usize) -> (r: Option<InputSpec<'_>>)
        ensures
            match r {
                None => index >= self.input_types().len(),
                Some(spec) => index < self.input_types().len() && spec.shape@
                    == self.input_types()[index as int].dims && spec.dtype
                    == self.input_types()[index as int].dtype,
            },
    {
        if index >= self.inputs.len() {
            return None;
        }
        let ty: &TensorType = &self.inputs[index];
        assert(self.input_types()[index as int] == ty@);
        Some(InputSpec { shape: ty.dims.as_slice(), dtype: ty.dtype })
    }

    /// The number of ordered results.
    pub fn output_count(&self) -> (r: usize)
        ensures
            r == self.output_types().len(),
    {
        self.outputs.len()
    }

    /// A result's static extents and element type.
    pub fn output_spec(&self, index: usize) -> (r: Option<OutputSpec<'_>>)
        ensures
            match r {
                None => index >= self.output_types().len(),
                Some(spec) => index < self.output_types().len() && spec.shape@
                    == self.output_types()[index as int].dims && spec.dtype
                    == self.output_types()[index as int].dtype,
            },
    {
        if index >= self.outputs.len() {
            return None;
        }
        let ty: &TensorType = &self.outputs[index];
        assert(self.output_types()[index as int] == ty@);
        Some(OutputSpec { shape: ty.dims.as_slice(), dtype: ty.dtype })
    }

    /// The types of the parameters.
    pub(crate) fn inputs(&self) -> (r: &Vec<TensorType>)
        ensures
            types_view(r@) == self.input_types(),
    {
        &self.inputs
    }

    /// A program from verified source and its signature.
    pub fn from_stablehlo(code: &str, inputs: Vec<TensorType>, outputs: Vec<TensorType>) -> (r:
        LoweredProgram)
        ensures
            r.source() == encode_utf8(code@),
            r.input_types() == types_view(inputs@),
            r.output_types() == types_view(outputs@),
    {
        LoweredProgram {
            code: vstd::slice::slice_to_vec(code.as_bytes()),
            inputs,
            outputs,
        }
    }
}

/// Whether a result is the program with the given outputs and source, or the
/// reason why there is none.
pub open spec fn lowers_to(
    graph: Graph,
    outputs: Seq<Tensor>,
    preserve_all: bool,
    code: Seq<char>,
    r: Result<LoweredProgram, Error>,
) -> bool {
    let kept = kept_positions(
        graph.model(),
        graph.wires(),
        ids_of(outputs),
        preserve_all,
        graph.model().len(),
    );
    match r {
        Ok(program) => {
            &&& all_local(graph.key(), values_of(outputs))
            &&& program.source() == encode_utf8(code)
            &&& program.input_types() == types_at(graph.model(), kept)
            &&& program.output_types() == Seq::new(
                outputs.len(),
                |k: int| crate::graph::type_of(outputs[k]@),
            )
        },
        Err(e) => !all_local(graph.key(), values_of(outputs)) && e == invalid(
            "output belongs to another graph",
        ),
    }
}

/// Whether a result is a prepared program: like a lowered one, but with at least
/// one output.
pub open spec fn prepares_to(
    graph: Graph,
    outputs: Seq<Tensor>,
    preserve_all: bool,
    code: Seq<char>,
    r: Result<LoweredProgram, Error>,
) -> bool {
    if outputs.len() == 0 {
        r == Err::<LoweredProgram, Error>(invalid("program requires at least one output"))
    } else {
        lowers_to(graph, outputs, preserve_all, code, r)
    }
}

/// The program of a result that also lists parameters.
pub open spec fn program_of(r: Result<(LoweredProgram, Vec<usize>), Error>) -> Result<
    LoweredProgram,
    Error,
> {
    match r {
        Ok(pair) => Ok(pair.0),
        Err(e) => Err(e),
    }
}

impl Graph {
    /// The program with the given outputs and source, and the registration
    /// numbers of its parameters.
    pub(crate) fn lowered(&self, outputs: &[Tensor], preserve_all: bool, code: &str) -> (r: Result<
        (LoweredProgram, Vec<usize>),
        Error,
    >)
        requires
            self.wf(),
            self.admits_all(outputs@),
        ensures
            lowers_to(*self, outputs@, preserve_all, code@, program_of(r)),
            r matches Ok(pair) ==> pair.1@ == numbers_at(
                self.model(),
                kept_positions(
                    self.model(),
                    self.wires(),
                    ids_of(outputs@),
                    preserve_all,
                    self.model().len(),
                ),
            ),
    {
        let interface: Interface = self.interface(outputs, preserve_all)?;
        let program = LoweredProgram::from_stablehlo(code, interface.inputs, interface.outputs);
        Ok((program, interface.parameters))
    }

    /// The program with one output and all declared inputs.
    pub fn prepare(&self, output: &Tensor, code: &str) -> (r: Result<LoweredProgram, Error>)
        requires
            self.wf(),
            self.admits(*output),
        ensures
            exists|outputs: Seq<Tensor>|
                outputs.len() == 1 && outputs[0]@ == output@ && outputs[0].id() == output.id()
                    && #[trigger] prepares_to(*self, outputs, true, code@, r),
    {
        let outputs: Vec<Tensor> = vec![output.copy()];
        assert(self.admits(outputs@[0]));
        let result: Result<LoweredProgram, Error> = self.prepare_many(outputs.as_slice(), code);
        assert(prepares_to(*self, outputs@, true, code@, result));
        result
    }

    /// The program with all declared inputs, whether its outputs need them or
    /// not.
    pub fn prepare_many(&self, outputs: &[Tensor], code: &str) -> (r: Result<
        LoweredProgram,
        Error,
    >)
        requires
            self.wf(),
            self.admits_all(outputs@),
        ensures
            prepares_to(*self, outputs@, true, code@, r),
    {
        if outputs.len() == 0 {
            return Err(err("program requires at least one output"));
        }
        let lowered: (LoweredProgram, Vec<usize>) = self.lowered(outputs, true, code)?;
        Ok(lowered.0)
    }

    /// The program with the inputs that its outputs need, and their
    /// registration numbers in the order of the program's inputs.
    pub fn prepare_pruned(&self, outputs: &[Tensor], code: &str) -> (r: Result<
        (LoweredProgram, Vec<usize>),
        Error,
    >)
        requires
            self.wf(),
            self.admits_all(outputs@),
        ensures
            prepares_to(*self, outputs@, false, code@, program_of(r)),
            r matches Ok(pair) ==> pair.1@ == numbers_at(
                self.model(),
                kept_positions(
                    self.model(),
                    self.wires(),
                    ids_of(outputs@),
                    false,
                    self.model().len(),
                ),
            ),
    {
        if outputs.len() == 0 {
            return Err(err("program requires at least one output"));
        }
        self.lowered(outputs, false, code)
    }
}

impl Graph {
    /// The textual form of one output, unless it is refused.
    pub fn stablehlo(&self, output: &Tensor, text: Result<String, Error>) -> (r: Result<
        String,
        Error,
    >)
        requires
            self.wf(),
            self.admits(*output),
        ensures
            r == if output@.graph != self.key() {
                Err::<String, Error>(invalid("output belongs to another graph"))
            } else {
                text
            },
    {
        let outputs: Vec<Tensor> = vec![output.copy()];
        assert(self.admits(outputs@[0]));
        assert(values_of(outputs@) =~= seq![output@]);
        assert(values_of(outputs@)[0] == output@);
        self.stablehlo_many(outputs.as_slice(), text)
    }

    /// The textual form of several outputs, unless it is refused.
    pub fn stablehlo_many(&self, outputs: &[Tensor], text: Result<String, Error>) -> (r: Result<
        String,
        Error,
    >)
        requires
            self.wf(),
            self.admits_all(outputs@),
        ensures
            r == if outputs@.len() == 0 {
                Err::<String, Error>(invalid("at least one output is required"))
            } else if !all_local(self.key(), values_of(outputs@)) {
                Err(invalid("output belongs to another graph"))
            } else {
                text
            },
    {
        if outputs.len() == 0 {
            return Err(err("at least one output is required"));
        }
        let _signature: Interface = self.interface(outputs, true)?;
        text
    }
}

/// Bounds of a cache: entries, and bytes of keys.
#[derive(Clone, Copy, PartialEq, Eq, Structural, Debug)]
pub struct CacheLimits {
    pub max_entries: usize,
    pub max_key_bytes: usize,
}

impl Default for CacheLimits {
    fn default() -> (r: CacheLimits)
        ensures
            r.max_entries == 32,
            r.max_key_bytes == 16 * 1024 * 1024,
    {
        CacheLimits { max_entries: 32, max_key_bytes: 16 * 1024 * 1024 }
    }
}

/// A span of time.
#[derive(Clone, Copy, PartialEq, Eq, Structural, Debug)]
pub struct Elapsed {
    pub secs: u64,
    pub nanos: u32,
}

/// The sum of two spans of time, or the longest one where it is longer.
pub open spec fn sum_of(a: Elapsed, b: Elapsed) -> Elapsed {
    let nanos = a.nanos + b.nanos;
    let secs = a.secs + b.secs + nanos / 1_000_000_000;
    if secs > u64::MAX {
        Elapsed { secs: u64::MAX, nanos: 999_999_999 }
    } else {
        Elapsed { secs: secs as u64, nanos: (nanos % 1_000_000_000) as u32 }
    }
}

impl Elapsed {
    /// The sum of two spans of time, or the longest one where it is longer.
    pub fn saturating_add(self, other: Elapsed) -> (r: Elapsed)
        ensures
            r == sum_of(self, other),
    {
        let nanos: u64 = self.nanos as u64 + other.nanos as u64;
        let carry: u64 = nanos / 1_000_000_000;
        let rest: u32 = (nanos % 1_000_000_000) as u32;
        let longest = Elapsed { secs: u64::MAX, nanos: 999_999_999 };
        match self.secs.checked_add(other.secs) {
            None => longest,
            Some(secs) => match secs.checked_add(carry) {
                None => longest,
                Some(secs) => Elapsed { secs, nanos: rest },
            },
        }
    }
}

/// What a cache has counted.
#[derive(Clone, Copy, PartialEq, Eq, Structural, Debug)]
pub struct CacheStats {
    pub disk_hits: u64,
    pub disk_read_errors: u64,
    pub disk_write_errors: u64,
    pub hits: u64,
    /// Requests that reached the backend, failed ones included.
    pub misses: u64,
    pub compile_failures: u64,
    /// Time spent in the backend, failed attempts included.
    pub compile_time: Elapsed,
    pub evictions: u64,
    /// Executables that were not retained.
    pub bypasses: u64,
    pub entries: usize,
    pub key_bytes: usize,
}

/// A count that stays at its largest value.
pub open spec fn more(count: u64, by: nat) -> u64 {
    if count + by > u64::MAX {
        u64::MAX
    } else {
        (count + by) as u64
    }
}

/// One cached executable.
struct CacheEntry {
    key: Vec<u8>,
    executable: u64,
}

/// Keys with their executables, the least recently used first.
pub type Cached = Seq<(Seq<u8>, u64)>;

/// The bytes of all keys.
pub open spec fn key_total(cached: Cached) -> nat
    decreases cached.len(),
{
    if cached.len() == 0 {
        0
    } else {
        key_total(cached.drop_last()) + cached.last().0.len()
    }
}

/// Whether no two keys are the same.
pub open spec fn keys_distinct(cached: Cached) -> bool {
    forall|i: int, j: int|
        0 <= i < j < cached.len() ==> (#[trigger] cached[i]).0 != (#[trigger] cached[j]).0
}

/// The position of a key, among the first `count`.
pub open spec fn position_of(cached: Cached, key: Seq<u8>, count: nat) -> Option<int>
    decreases count,
{
    if count == 0 {
        None
    } else {
        match position_of(cached, key, (count - 1) as nat) {
            Some(k) => Some(k),
            None => if cached[count - 1].0 == key {
                Some(count - 1)
            } else {
                None
            },
        }
    }
}

/// What the position of a key says.
proof fn lemma_position(cached: Cached, key: Seq<u8>, count: nat)
    requires
        count <= cached.len(),
    ensures
        match position_of(cached, key, count) {
            Some(k) => 0 <= k < count && cached[k].0 == key && forall|j: int|
                0 <= j < k ==> (#[trigger] cached[j]).0 != key,
            None => forall|j: int| 0 <= j < count ==> (#[trigger] cached[j]).0 != key,
        },
    decreases count,
{
    if count > 0 {
        lemma_position(cached, key, (count - 1) as nat);
    }
}

/// The bytes of the keys without one of them.
proof fn lemma_key_total_remove(cached: Cached, k: int)
    requires
        0 <= k < cached.len(),
    ensures
        key_total(cached.remove(k)) + cached[k].0.len() == key_total(cached),
    decreases cached.len(),
{
    let rest = cached.remove(k);
    if k == cached.len() - 1 {
        assert(rest =~= cached.drop_last());
    } else {
        lemma_key_total_remove(cached.drop_last(), k);
        assert(rest.drop_last() =~= cached.drop_last().remove(k));
        assert(rest.last() == cached.last());
    }
}

/// The bytes of the keys with one more.
proof fn lemma_key_total_push(cached: Cached, entry: (Seq<u8>, u64))
    ensures
        key_total(cached.push(entry)) == key_total(cached) + entry.0.len(),
{
    assert(cached.push(entry).drop_last() =~= cached);
}

/// What remains when the least recently used entries go until there is room.
pub open spec fn evicted(cached: Cached, max_entries: nat, budget: nat) -> Cached
    decreases cached.len(),
{
    if cached.len() > 0 && (cached.len() >= max_entries || key_total(cached) > budget) {
        evicted(cached.drop_first(), max_entries, budget)
    } else {
        cached
    }
}

/// Only the least recently used entries go, and no more than needed.
pub proof fn eviction_drops_the_oldest(cached: Cached, max_entries: nat, budget: nat)
    requires
        max_entries > 0,
    ensures
        ({
            let kept = evicted(cached, max_entries, budget);
            let gone = cached.len() - kept.len();
            &&& kept.len() <= cached.len()
            &&& kept == cached.skip(gone)
            &&& kept.len() < max_entries
            &&& key_total(kept) <= budget
            &&& gone > 0 ==> {
                let one_more = cached.skip(gone - 1);
                one_more.len() >= max_entries || key_total(one_more) > budget
            }
        }),
    decreases cached.len(),
{
    let kept = evicted(cached, max_entries, budget);
    if cached.len() > 0 && (cached.len() >= max_entries || key_total(cached) > budget) {
        let rest = cached.drop_first();
        eviction_drops_the_oldest(rest, max_entries, budget);
        let gone = rest.len() - kept.len();
        assert(rest.skip(gone) =~= cached.skip(gone + 1));
        if gone > 0 {
            assert(rest.skip(gone - 1) =~= cached.skip(gone));
        } else {
            assert(cached.skip(0) =~= cached);
        }
    } else {
        assert(cached.skip(0) =~= cached);
    }
}

/// The contents and counts of a cache.
pub ghost struct CacheModel {
    pub cached: Cached,
    pub stats: CacheStats,
}

impl CacheModel {
    /// The counts of entries and key bytes agree with the contents.
    pub open spec fn counted(self) -> bool {
        &&& self.stats.entries == self.cached.len()
        &&& self.stats.key_bytes == key_total(self.cached)
    }

    /// The cache after a hit.
    pub open spec fn touched(self, k: int) -> CacheModel {
        CacheModel {
            cached: self.cached.remove(k).push(self.cached[k]),
            stats: CacheStats { hits: more(self.stats.hits, 1), ..self.stats },
        }
    }

    /// The cache after an attempt to read the stored executable.
    pub open spec fn read(self, read: DiskRead) -> CacheModel {
        match read {
            DiskRead::Absent => self,
            DiskRead::Hit(_) => CacheModel {
                stats: CacheStats { disk_hits: more(self.stats.disk_hits, 1), ..self.stats },
                ..self
            },
            DiskRead::Failed => CacheModel {
                stats: CacheStats {
                    disk_read_errors: more(self.stats.disk_read_errors, 1),
                    ..self.stats
                },
                ..self
            },
        }
    }

    /// The cache after a compilation.
    pub open spec fn built(self, elapsed: Elapsed, failed: bool) -> CacheModel {
        CacheModel {
            stats: CacheStats {
                misses: more(self.stats.misses, 1),
                compile_time: sum_of(self.stats.compile_time, elapsed),
                compile_failures: if failed {
                    more(self.stats.compile_failures, 1)
                } else {
                    self.stats.compile_failures
                },
                ..self.stats
            },
            ..self
        }
    }

    /// The cache after an attempt to store an executable.
    pub open spec fn published(self, failed: bool) -> CacheModel {
        if failed {
            CacheModel {
                stats: CacheStats {
                    disk_write_errors: more(self.stats.disk_write_errors, 1),
                    ..self.stats
                },
                ..self
            }
        } else {
            self
        }
    }

    /// The cache after an executable was offered to it.
    pub open spec fn retained(self, limits: CacheLimits, key: Seq<u8>, executable: u64) -> CacheModel {
        if limits.max_entries == 0 || key.len() > limits.max_key_bytes {
            CacheModel {
                stats: CacheStats { bypasses: more(self.stats.bypasses, 1), ..self.stats },
                ..self
            }
        } else {
            let kept = evicted(
                self.cached,
                limits.max_entries as nat,
                (limits.max_key_bytes - key.len()) as nat,
            );
            let cached = kept.push((key, executable));
            CacheModel {
                cached,
                stats: CacheStats {
                    evictions: more(self.stats.evictions, (self.cached.len() - kept.len()) as nat),
                    entries: cached.len() as usize,
                    key_bytes: key_total(cached) as usize,
                    ..self.stats
                },
            }
        }
    }

    /// The cache and the outcome after a request.
    pub open spec fn requested(
        self,
        limits: CacheLimits,
        key: Seq<u8>,
        backend: BackendOutcome,
    ) -> (CacheModel, Result<u64, Error>) {
        match position_of(self.cached, key, self.cached.len()) {
            Some(k) => (self.touched(k), Ok(self.cached[k].1)),
            None => {
                let read = self.read(backend.disk);
                match backend.disk {
                    DiskRead::Hit(executable) => (
                        read.retained(limits, key, executable),
                        Ok(executable),
                    ),
                    _ => match backend.compiled {
                        Err(e) => (read.built(backend.elapsed, true), Err(e)),
                        Ok(executable) => (
                            read.built(backend.elapsed, false).published(
                                backend.store_failed,
                            ).retained(limits, key, executable),
                            Ok(executable),
                        ),
                    },
                }
            },
        }
    }
}

/// The outcome of reading a stored executable.
#[derive(Clone, Copy, PartialEq, Eq, Structural, Debug)]
pub enum DiskRead {
    Absent,
    Hit(u64),
    Failed,
}

/// What the disk and the backend answer to a request that is no hit.
#[derive(Debug)]
pub struct BackendOutcome {
    pub disk: DiskRead,
    pub elapsed: Elapsed,
    pub compiled: Result<u64, Error>,
    pub store_failed: bool,
}

/// What an executable is compiled for.
#[derive(Clone, Copy, PartialEq, Eq, Structural, Debug)]
pub enum LoweringTarget {
    Portable,
    CudaF16Compute,
    CudaBf16Compute,
    CudaF16Attention,
}

/// Whether a text is `cuda` in any mixture of cases.
pub open spec fn is_cuda(platform: Seq<char>) -> bool {
    &&& platform.len() == 4
    &&& platform[0] == 'c' || platform[0] == 'C'
    &&& platform[1] == 'u' || platform[1] == 'U'
    &&& platform[2] == 'd' || platform[2] == 'D'
    &&& platform[3] == 'a' || platform[3] == 'A'
}

/// What programs are compiled for on a platform with a chosen precision.
pub open spec fn target_of(precision: (bool, Option<DType>), platform: Seq<char>) -> Result<
    LoweringTarget,
    Error,
> {
    if !is_cuda(platform) {
        Ok(LoweringTarget::Portable)
    } else {
        match precision.1 {
            Some(DType::F16) => Ok(LoweringTarget::CudaF16Compute),
            Some(DType::BF16) => Ok(LoweringTarget::CudaBf16Compute),
            Some(dtype) => Err(Error::ComputeDType { dtype }),
            None => if precision.0 {
                Ok(LoweringTarget::CudaF16Attention)
            } else {
                Ok(LoweringTarget::Portable)
            },
        }
    }
}

/// The content of a compiler.
pub ghost struct CompilerModel {
    pub cache: CacheModel,
    pub client: u64,
    pub disk: Option<DiskCache>,
    pub limits: CacheLimits,
    pub precision: (bool, Option<DType>),
}

impl CompilerModel {
    /// The cache stays within its bounds, and holds each key once.
    pub open spec fn wf(self) -> bool {
        &&& self.cache.counted()
        &&& keys_distinct(self.cache.cached)
        &&& self.cache.cached.len() <= self.limits.max_entries
        &&& key_total(self.cache.cached) <= self.limits.max_key_bytes
    }

    /// The compiler after its cache was cleared.
    pub open spec fn cleared(self) -> CompilerModel {
        CompilerModel {
            cache: CacheModel {
                cached: Seq::empty(),
                stats: CacheStats { entries: 0, key_bytes: 0, ..self.cache.stats },
            },
            ..self
        }
    }
}

/// Counters of a cache that was never used.
pub open spec fn no_stats() -> CacheStats {
    CacheStats {
        disk_hits: 0,
        disk_read_errors: 0,
        disk_write_errors: 0,
        hits: 0,
        misses: 0,
        compile_failures: 0,
        compile_time: Elapsed { secs: 0, nanos: 0 },
        evictions: 0,
        bypasses: 0,
        entries: 0,
        key_bytes: 0,
    }
}

/// A compiler that was never used.
pub open spec fn fresh_compiler(
    client: u64,
    disk: Option<DiskCache>,
    limits: CacheLimits,
) -> CompilerModel {
    CompilerModel {
        cache: CacheModel { cached: Seq::empty(), stats: no_stats() },
        client,
        disk,
        limits,
        precision: (false, None),
    }
}

/// A client-local compiler with a bounded cache.
pub struct Compiler {
    client: u64,
    disk: Option<DiskCache>,
    limits: CacheLimits,
    entries: Vec<CacheEntry>,
    stats: CacheStats,
    f16_attention: bool,
    compute_dtype: Option<DType>,
}

impl Compiler {
    /// The contents and counts of the cache.
    pub closed spec fn model(self) -> CacheModel {
        CacheModel {
            cached: Seq::new(
                self.entries@.len(),
                |k: int| (self.entries@[k].key@, self.entries@[k].executable),
            ),
            stats: self.stats,
        }
    }

    /// The client that programs are compiled for.
    pub closed spec fn device(self) -> u64 {
        self.client
    }

    /// The persistent cache behind the one in memory.
    pub closed spec fn persistent(self) -> Option<DiskCache> {
        self.disk
    }

    /// The bounds of the cache.
    pub closed spec fn bounds(self) -> CacheLimits {
        self.limits
    }

    /// The chosen precision.
    pub closed spec fn precision(self) -> (bool, Option<DType>) {
        (self.f16_attention, self.compute_dtype)
    }

    /// Whether two compilers differ in their caches alone.
    pub open spec fn same_settings(self, other: Compiler) -> bool {
        &&& self.device() == other.device()
        &&& self.persistent() == other.persistent()
        &&& self.bounds() == other.bounds()
        &&& self.precision() == other.precision()
    }

    /// The cache and the settings.
    pub open spec fn state(self) -> CompilerModel {
        CompilerModel {
            cache: self.model(),
            client: self.device(),
            disk: self.persistent(),
            limits: self.bounds(),
            precision: self.precision(),
        }
    }

    /// The cache stays within its bounds, and holds each key once.
    pub open spec fn wf(self) -> bool {
        self.state().wf()
    }

    /// A compiler with an empty cache.
    pub fn new(client: u64, limits: CacheLimits) -> (r: Compiler)
        ensures
            r.wf(),
            r.state() == fresh_compiler(client, None, limits),
    {
        let r = Compiler {
            client,
            disk: None,
            limits,
            entries: Vec::new(),
            stats: CacheStats {
                disk_hits: 0,
                disk_read_errors: 0,
                disk_write_errors: 0,
                hits: 0,
                misses: 0,
                compile_failures: 0,
                compile_time: Elapsed { secs: 0, nanos: 0 },
                evictions: 0,
                bypasses: 0,
                entries: 0,
                key_bytes: 0,
            },
            f16_attention: false,
            compute_dtype: None,
        };
        assert(r.model().cached =~= Seq::empty());
        r
    }

    /// The compiler with or without F16 attention on CUDA.
    pub fn with_f16_attention(self, enabled: bool) -> (r: Compiler)
        ensures
            r.model() == self.model(),
            r.device() == self.device(),
            r.persistent() == self.persistent(),
            r.bounds() == self.bounds(),
            r.precision() == (enabled, self.precision().1),
    {
        let r = Compiler {
            client: self.client,
            disk: self.disk,
            limits: self.limits,
            entries: self.entries,
            stats: self.stats,
            f16_attention: enabled,
            compute_dtype: self.compute_dtype,
        };
        assert(r.model().cached =~= self.model().cached);
        r
    }

    /// The compiler with another internal element type on CUDA.
    pub fn with_compute_dtype(self, dtype: DType) -> (r: Compiler)
        ensures
            r.model() == self.model(),
            r.device() == self.device(),
            r.persistent() == self.persistent(),
            r.bounds() == self.bounds(),
            r.precision() == (self.precision().0, Some(dtype)),
    {
        let r = Compiler {
            client: self.client,
            disk: self.disk,
            limits: self.limits,
            entries: self.entries,
            stats: self.stats,
            f16_attention: self.f16_attention,
            compute_dtype: Some(dtype),
        };
        assert(r.model().cached =~= self.model().cached);
        r
    }

    /// The compiler with a persistent cache.
    pub fn with_disk_cache(self, disk: DiskCache) -> (r: Compiler)
        ensures
            r.model() == self.model(),
            r.device() == self.device(),
            r.persistent() == Some(disk),
            r.bounds() == self.bounds(),
            r.precision() == self.precision(),
    {
        let r = Compiler {
            client: self.client,
            disk: Some(disk),
            limits: self.limits,
            entries: self.entries,
            stats: self.stats,
            f16_attention: self.f16_attention,
            compute_dtype: self.compute_dtype,
        };
        assert(r.model().cached =~= self.model().cached);
        r
    }

    /// The persistent cache behind the one in memory.
    pub fn disk_cache(&self) -> (r: Option<&DiskCache>)
        ensures
            match r {
                Some(disk) => self.persistent() == Some(*disk),
                None => self.persistent() is None,
            },
    {
        match &self.disk {
            Some(disk) => Some(disk),
            None => None,
        }
    }

    /// The client that programs are compiled for.
    pub fn client(&self) -> (r: u64)
        ensures
            r == self.device(),
    {
        self.client
    }

    /// What programs are compiled for on a platform.
    pub fn lowering_target(&self, platform: &str) -> (r: Result<LoweringTarget, Error>)
        ensures
            r == target_of(self.precision(), platform@),
    {
        let matching: bool = platform.unicode_len() == 4 && (platform.get_char(0) == 'c'
            || platform.get_char(0) == 'C') && (platform.get_char(1) == 'u' || platform.get_char(1)
            == 'U') && (platform.get_char(2) == 'd' || platform.get_char(2) == 'D') && (
        platform.get_char(3) == 'a' || platform.get_char(3) == 'A');
        if !matching {
            return Ok(LoweringTarget::Portable);
        }
        match self.compute_dtype {
            Some(DType::F16) => Ok(LoweringTarget::CudaF16Compute),
            Some(DType::BF16) => Ok(LoweringTarget::CudaBf16Compute),
            Some(dtype) => Err(Error::ComputeDType { dtype }),
            None => {
                if self.f16_attention {
                    Ok(LoweringTarget::CudaF16Attention)
                } else {
                    Ok(LoweringTarget::Portable)
                }
            },
        }
    }

    /// What the cache has counted.
    pub fn stats(&self) -> (r: CacheStats)
        ensures
            r == self.model().stats,
    {
        self.stats
    }

    /// The position of a key.
    fn find(&self, key: &[u8]) -> (r: Option<usize>)
        ensures
            match r {
                Some(k) => position_of(
                    self.model().cached,
                    key@,
                    self.model().cached.len(),
                ) == Some(k as int) && k < self.model().cached.len(),
                None => position_of(
                    self.model().cached,
                    key@,
                    self.model().cached.len(),
                ) is None,
            },
    {
        let ghost cached = self.model().cached;
        let mut found: Option<usize> = None;
        let mut i: usize = 0;
        while i < self.entries.len()
            invariant
                cached == self.model().cached,
                i <= self.entries@.len(),
                match found {
                    Some(k) => position_of(cached, key@, i as nat) == Some(k as int) && k < i,
                    None => position_of(cached, key@, i as nat) is None,
                },
            decreases self.entries@.len() - i,
        {
            assert(cached[i as int].0 == self.entries@[i as int].key@);
            if found.is_none() && same_bytes(self.entries[i].key.as_slice(), key) {
                found = Some(i);
            }
            i += 1;
        }
        found
    }

    /// Look a key up in memory. A hit makes it the most recently used.
    pub fn lookup(&mut self, key: &[u8]) -> (r: Option<u64>)
        requires
            old(self).wf(),
        ensures
            final(self).wf(),
            final(self).same_settings(*old(self)),
            match position_of(old(self).model().cached, key@, old(self).model().cached.len()) {
                Some(k) => r == Some(old(self).model().cached[k].1) && final(self).model() == old(
                    self,
                ).model().touched(k),
                None => r is None && final(self).model() == old(self).model(),
            },
    {
        let ghost before = self.model();
        match self.find(key) {
            None => None,
            Some(k) => {
                let executable: u64 = self.entries[k].executable;
                let entry: CacheEntry = self.entries.remove(k);
                self.entries.push(entry);
                self.stats.hits = self.stats.hits.saturating_add(1);
                proof {
                    let cached = before.cached;
                    assert(self.model().cached =~= cached.remove(k as int).push(cached[k as int]));
                    lemma_key_total_remove(cached, k as int);
                    lemma_key_total_push(cached.remove(k as int), cached[k as int]);
                    lemma_moved_distinct(cached, k as int);
                }
                Some(executable)
            },
        }
    }

    /// Account for an attempt to read a stored executable.
    pub fn restored(&mut self, read: DiskRead) -> (r: Option<u64>)
        requires
            old(self).wf(),
        ensures
            final(self).wf(),
            final(self).same_settings(*old(self)),
            final(self).model() == old(self).model().read(read),
            r == (match read {
                DiskRead::Hit(executable) => Some(executable),
                _ => None,
            }),
    {
        let ghost before = self.model();
        let result: Option<u64> = match read {
            DiskRead::Absent => None,
            DiskRead::Hit(executable) => {
                self.stats.disk_hits = self.stats.disk_hits.saturating_add(1);
                Some(executable)
            },
            DiskRead::Failed => {
                self.stats.disk_read_errors = self.stats.disk_read_errors.saturating_add(1);
                None
            },
        };
        assert(self.model().cached =~= before.cached);
        result
    }

    /// Account for a compilation. A failure keeps every entry.
    pub fn compiled(&mut self, elapsed: Elapsed, outcome: Result<u64, Error>) -> (r: Result<
        u64,
        Error,
    >)
        requires
            old(self).wf(),
        ensures
            final(self).wf(),
            final(self).same_settings(*old(self)),
            final(self).model() == old(self).model().built(elapsed, outcome is Err),
            r == outcome,
    {
        let ghost before = self.model();
        self.stats.misses = self.stats.misses.saturating_add(1);
        self.stats.compile_time = self.stats.compile_time.saturating_add(elapsed);
        match outcome {
            Ok(_) => {},
            Err(_) => {
                self.stats.compile_failures = self.stats.compile_failures.saturating_add(1);
            },
        }
        assert(self.model().cached =~= before.cached);
        outcome
    }

    /// Account for an attempt to store an executable.
    pub fn stored(&mut self, failed: bool)
        requires
            old(self).wf(),
        ensures
            final(self).wf(),
            final(self).same_settings(*old(self)),
            final(self).model() == old(self).model().published(failed),
    {
        let ghost before = self.model();
        if failed {
            self.stats.disk_write_errors = self.stats.disk_write_errors.saturating_add(1);
        }
        assert(self.model().cached =~= before.cached);
    }

    /// Retain an executable, dropping the least recently used ones until there
    /// is room. A key that cannot fit is passed over.
    pub fn retain(&mut self, key: &[u8], executable: u64)
        requires
            old(self).wf(),
            position_of(old(self).model().cached, key@, old(self).model().cached.len()) is None,
        ensures
            final(self).wf(),
            final(self).same_settings(*old(self)),
            final(self).model() == old(self).model().retained(old(self).bounds(), key@, executable),
    {
        let ghost before = self.model();
        let ghost limits = self.bounds();
        if self.limits.max_entries == 0 || key.len() > self.limits.max_key_bytes {
            self.stats.bypasses = self.stats.bypasses.saturating_add(1);
            assert(self.model().cached =~= before.cached);
            return;
        }
        let budget: usize = self.limits.max_key_bytes - key.len();
        let ghost room = limits.max_entries as nat;
        proof {
            lemma_position(before.cached, key@, before.cached.len());
            assert(before.cached.skip(0) =~= before.cached);
        }
        let mut gone: Ghost<nat> = Ghost(0);
        while self.entries.len() >= self.limits.max_entries || self.stats.key_bytes > budget
            invariant
                limits == self.limits,
                self.same_settings(*old(self)),
                limits == old(self).bounds(),
                room == limits.max_entries,
                room > 0,
                budget == limits.max_key_bytes - key@.len(),
                before == old(self).model(),
                before.counted(),
                keys_distinct(before.cached),
                before.cached.len() <= limits.max_entries,
                key_total(before.cached) <= limits.max_key_bytes,
                gone@ <= before.cached.len(),
                self.model().cached == before.cached.skip(gone@ as int),
                self.stats.key_bytes == key_total(self.model().cached),
                evicted(before.cached, room, budget as nat) == evicted(
                    self.model().cached,
                    room,
                    budget as nat,
                ),
                self.stats == (CacheStats {
                    evictions: more(before.stats.evictions, gone@),
                    key_bytes: self.stats.key_bytes,
                    ..before.stats
                }),
            decreases self.entries@.len(),
        {
            let ghost cached = self.model().cached;
            assert(cached.len() == self.entries@.len());
            assert(cached.len() > 0);
            let entry: CacheEntry = self.entries.remove(0);
            proof {
                assert(cached.remove(0) =~= cached.drop_first());
                lemma_key_total_remove(cached, 0);
                assert(self.model().cached =~= cached.drop_first());
                assert(cached.drop_first() =~= before.cached.skip(gone@ as int + 1));
            }
            self.stats.key_bytes = self.stats.key_bytes - entry.key.len();
            self.stats.evictions = self.stats.evictions.saturating_add(1);
            assert(self.model().cached =~= cached.drop_first());
            gone = Ghost(gone@ + 1);
        }
        let ghost kept = self.model().cached;
        proof {
            assert(kept.len() == self.entries@.len());
            assert(evicted(kept, room, budget as nat) == kept);
            lemma_key_total_push(kept, (key@, executable));
        }
        self.stats.key_bytes = self.stats.key_bytes + key.len();
        self.entries.push(CacheEntry { key: vstd::slice::slice_to_vec(key), executable });
        self.stats.entries = self.entries.len();
        proof {
            let cached = self.model().cached;
            assert(cached =~= kept.push((key@, executable)));
            assert(kept.len() == before.cached.len() - gone@);
            assert forall|i: int, j: int| 0 <= i < j < cached.len() implies (
            #[trigger] cached[i]).0 != (#[trigger] cached[j]).0 by {
                assert(cached[i] == before.cached[i + gone@]);
                if j < kept.len() {
                    assert(cached[j] == before.cached[j + gone@]);
                }
            }
        }
    }

    /// Answer a request: from memory, else from the stored executable, else by
    /// compilation, retaining what is new. The answers of the disk and the
    /// backend are used only where they are asked for.
    pub fn compile_encoded(&mut self, key: &[u8], backend: BackendOutcome) -> (r: Result<
        u64,
        Error,
    >)
        requires
            old(self).wf(),
        ensures
            final(self).wf(),
            final(self).same_settings(*old(self)),
            (final(self).model(), r) == old(self).model().requested(
                old(self).bounds(),
                key@,
                backend,
            ),
    {
        match self.lookup(key) {
            Some(executable) => {
                return Ok(executable);
            },
            None => {},
        }
        let executable: u64 = match self.restored(backend.disk) {
            Some(executable) => executable,
            None => {
                let executable: u64 = match self.compiled(backend.elapsed, backend.compiled) {
                    Ok(executable) => executable,
                    Err(e) => {
                        return Err(e);
                    },
                };
                self.stored(backend.store_failed);
                executable
            },
        };
        self.retain(key, executable);
        Ok(executable)
    }

    /// Answer a request for a program.
    pub fn compile_lowered(&mut self, program: &LoweredProgram, backend: BackendOutcome) -> (r:
        Result<u64, Error>)
        requires
            old(self).wf(),
        ensures
            final(self).wf(),
            final(self).same_settings(*old(self)),
            (final(self).model(), r) == old(self).model().requested(
                old(self).bounds(),
                program_key("mlir"@, program.source()),
                backend,
            ),
    {
        let key: Vec<u8> = program.cache_key();
        self.compile_encoded(key.as_slice(), backend)
    }

    /// Answer a request for a program with compile options.
    pub fn compile_lowered_with_options(
        &mut self,
        program: &LoweredProgram,
        options: &[u8],
        backend: BackendOutcome,
    ) -> (r: Result<u64, Error>)
        requires
            old(self).wf(),
        ensures
            final(self).wf(),
            final(self).same_settings(*old(self)),
            (final(self).model(), r) == old(self).model().requested(
                old(self).bounds(),
                options_key(program_key("mlir"@, program.source()), options@),
                backend,
            ),
    {
        let program: Vec<u8> = program.cache_key();
        let key: Vec<u8> = key_with_options(program.as_slice(), options);
        self.compile_encoded(key.as_slice(), backend)
    }

    /// Compile outputs of a graph with all its declared inputs, from the source
    /// that they lower to on a platform.
    pub fn compile_many(
        &mut self,
        platform: &str,
        graph: &Graph,
        outputs: &[Tensor],
        code: &str,
        backend: BackendOutcome,
    ) -> (r: Result<u64, Error>)
        requires
            old(self).wf(),
            graph.wf(),
            graph.admits_all(outputs@),
        ensures
            final(self).wf(),
            final(self).same_settings(*old(self)),
            match target_of(old(self).precision(), platform@) {
                Err(e) => r == Err::<u64, Error>(e) && final(self).model() == old(self).model(),
                Ok(_) => if all_local(graph.key(), values_of(outputs@)) {
                    (final(self).model(), r) == old(self).model().requested(
                        old(self).bounds(),
                        program_key("mlir"@, encode_utf8(code@)),
                        backend,
                    )
                } else {
                    &&& r == Err::<u64, Error>(invalid("output belongs to another graph"))
                    &&& final(self).model() == old(self).model()
                },
            },
    {
        let _target: LoweringTarget = self.lowering_target(platform)?;
        let lowered: (LoweredProgram, Vec<usize>) = graph.lowered(outputs, true, code)?;
        self.compile_lowered(&lowered.0, backend)
    }

    /// Compile one output of a graph, with all declared inputs.
    pub fn compile(
        &mut self,
        platform: &str,
        graph: &Graph,
        output: &Tensor,
        code: &str,
        backend: BackendOutcome,
    ) -> (r: Result<u64, Error>)
        requires
            old(self).wf(),
            graph.wf(),
            graph.admits(*output),
        ensures
            final(self).wf(),
            final(self).same_settings(*old(self)),
            match target_of(old(self).precision(), platform@) {
                Err(e) => r == Err::<u64, Error>(e) && final(self).model() == old(self).model(),
                Ok(_) => if output@.graph == graph.key() {
                    (final(self).model(), r) == old(self).model().requested(
                        old(self).bounds(),
                        program_key("mlir"@, encode_utf8(code@)),
                        backend,
                    )
                } else {
                    &&& r == Err::<u64, Error>(invalid("output belongs to another graph"))
                    &&& final(self).model() == old(self).model()
                },
            },
    {
        let outputs: Vec<Tensor> = vec![output.copy()];
        assert(graph.admits(outputs@[0]));
        assert(values_of(outputs@) =~= seq![output@]);
        assert(values_of(outputs@)[0] == output@);
        self.compile_many(platform, graph, outputs.as_slice(), code, backend)
    }

    /// Drop one program from memory; says whether it was there.
    pub fn invalidate_memory(&mut self, program: &LoweredProgram) -> (r: bool)
        requires
            old(self).wf(),
        ensures
            final(self).wf(),
            final(self).same_settings(*old(self)),
            match position_of(
                old(self).model().cached,
                program_key("mlir"@, program.source()),
                old(self).model().cached.len(),
            ) {
                None => !r && final(self).model() == old(self).model(),
                Some(k) => {
                    &&& r
                    &&& final(self).model().cached == old(self).model().cached.remove(k)
                    &&& final(self).model().stats == (CacheStats {
                        entries: final(self).model().stats.entries,
                        key_bytes: final(self).model().stats.key_bytes,
                        ..old(self).model().stats
                    })
                },
            },
    {
        let ghost before = self.model();
        let key: Vec<u8> = program.cache_key();
        match self.find(key.as_slice()) {
            None => false,
            Some(k) => {
                let entry: CacheEntry = self.entries.remove(k);
                proof {
                    lemma_key_total_remove(before.cached, k as int);
                }
                self.stats.key_bytes = self.stats.key_bytes - entry.key.len();
                self.stats.entries = self.entries.len();
                proof {
                    let cached = self.model().cached;
                    assert(cached =~= before.cached.remove(k as int));
                    assert forall|i: int, j: int| 0 <= i < j < cached.len() implies (
                    #[trigger] cached[i]).0 != (#[trigger] cached[j]).0 by {
                        let x = if i < k { i } else { i + 1 };
                        let y = if j < k { j } else { j + 1 };
                        assert(cached[i] == before.cached[x]);
                        assert(cached[j] == before.cached[y]);
                    }
                }
                true
            },
        }
    }

    /// Drop every entry, keeping the counters.
    pub fn clear(&mut self)
        requires
            old(self).wf(),
        ensures
            final(self).wf(),
            final(self).same_settings(*old(self)),
            final(self).state() == old(self).state().cleared(),
    {
        self.entries = Vec::new();
        self.stats.entries = 0;
        self.stats.key_bytes = 0;
        assert(self.model().cached =~= Seq::empty());
    }
}

/// Moving an entry to the end keeps the keys distinct.
proof fn lemma_moved_distinct(cached: Cached, k: int)
    requires
        keys_distinct(cached),
        0 <= k < cached.len(),
    ensures
        keys_distinct(cached.remove(k).push(cached[k])),
{
    let after = cached.remove(k).push(cached[k]);
    assert forall|i: int, j: int| 0 <= i < j < after.len() implies (#[trigger] after[i]).0 != (
    #[trigger] after[j]).0 by {
        let x = if i < k { i } else { i + 1 };
        assert(after[i] == cached[x]);
        if j < after.len() - 1 {
            let y = if j < k { j } else { j + 1 };
            assert(after[j] == cached[y]);
        } else {
            assert(after[j] == cached[k]);
        }
    }
}

/// A retained executable answers the next request for its key, without the disk
/// or the backend.
pub proof fn retained_executables_are_hits(
    m: CacheModel,
    limits: CacheLimits,
    key: Seq<u8>,
    executable: u64,
    backend: BackendOutcome,
)
    requires
        keys_distinct(m.cached),
        position_of(m.cached, key, m.cached.len()) is None,
        limits.max_entries > 0,
        key.len() <= limits.max_key_bytes,
    ensures
        m.retained(limits, key, executable).requested(limits, key, backend).1 == Ok::<u64, Error>(
            executable,
        ),
{
    let after = m.retained(limits, key, executable);
    let budget = (limits.max_key_bytes - key.len()) as nat;
    eviction_drops_the_oldest(m.cached, limits.max_entries as nat, budget);
    lemma_position(m.cached, key, m.cached.len());
    let kept = evicted(m.cached, limits.max_entries as nat, budget);
    let gone = m.cached.len() - kept.len();
    lemma_position(after.cached, key, after.cached.len());
    assert(after.cached.last().0 == key);
    match position_of(after.cached, key, after.cached.len()) {
        Some(k) => {
            if k < kept.len() {
                assert(after.cached[k] == m.cached[k + gone]);
            }
        },
        None => {
            assert(after.cached[after.cached.len() - 1].0 == key);
        },
    }
}

} // verus!
