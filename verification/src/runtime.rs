//! Runtimes: named backends with their devices and compilers, and the checks
//! around the execution of programs.
use crate::cache::bytes_before;
use crate::compile_options::{
    auto_spmd_config, first_selected, lemma_first_selected, local_options, selected_device,
    single_device_options, spmd_config, AutoSpmdConfig, CompileOptions, OptionsModel,
};
use crate::compiler::{
    fresh_compiler, options_key, program_key, BackendOutcome, CacheLimits, CacheStats, Compiler,
    CompilerModel,
};
use crate::disk_cache::{DeviceInfo, DiskCache};
use crate::dtype::DType;
use crate::error::{err, invalid, Error, NamedDevice};
use crate::executable::first_other;
use crate::graph::{TensorType, TypeModel};
use crate::image::same_text;
use crate::interface::types_view;
use crate::listing::{listed_text, listing};
use crate::planning::{
    fixes_some, planned, AutoShardingOptions, ExecutionPlan, FactsModel, Mesh, Placement,
    PlanningPolicy, PolicyModel,
};
use crate::shape::same_dims;
use crate::tracer::{Program, TensorFunction};
use vstd::prelude::*;
use vstd::utf8::encode_utf8;

verus! {

/// A device of a backend.
#[derive(Debug)]
pub struct Device {
    backend: String,
    ordinal: usize,
    id: i32,
    kind: String,
}

/// The content of a device.
pub ghost struct DeviceModel {
    pub backend: Seq<char>,
    pub ordinal: usize,
    pub id: i32,
    pub kind: Seq<char>,
}

impl View for Device {
    type V = DeviceModel;

    closed spec fn view(&self) -> DeviceModel {
        DeviceModel {
            backend: self.backend@,
            ordinal: self.ordinal,
            id: self.id,
            kind: self.kind@,
        }
    }
}

/// A device as a failure names it.
pub open spec fn named_device(device: DeviceModel) -> NamedDevice {
    NamedDevice {
        backend: listing(device.backend),
        ordinal: device.ordinal,
        id: device.id,
        kind: listing(device.kind),
    }
}

impl Device {
    /// The device as a failure names it.
    fn named(&self) -> (r: NamedDevice)
        ensures
            r == named_device(self@),
    {
        NamedDevice {
            backend: listed_text(self.backend.as_str()),
            ordinal: self.ordinal,
            id: self.id,
            kind: listed_text(self.kind.as_str()),
        }
    }

    /// The name of the backend.
    pub fn backend(&self) -> (r: &str)
        ensures
            r@ == self@.backend,
    {
        self.backend.as_str()
    }

    /// The position among the devices of the backend.
    pub fn ordinal(&self) -> (r: usize)
        ensures
            r == self@.ordinal,
    {
        self.ordinal
    }

    /// The identity that the client gives the device.
    pub fn id(&self) -> (r: i32)
        ensures
            r == self@.id,
    {
        self.id
    }

    /// The kind of the device.
    pub fn kind(&self) -> (r: &str)
        ensures
            r@ == self@.kind,
    {
        self.kind.as_str()
    }

    /// Whether two devices are the same.
    pub fn same(&self, other: &Device) -> (r: bool)
        ensures
            r == (self@ == other@),
    {
        let names: bool = same_text(self.backend.as_str(), other.backend.as_str());
        let kinds: bool = same_text(self.kind.as_str(), other.kind.as_str());
        names && kinds && self.ordinal == other.ordinal && self.id == other.id
    }

    /// A copy of the device.
    pub fn duplicate(&self) -> (r: Device)
        ensures
            r@ == self@,
    {
        Device {
            backend: self.backend.as_str().to_owned(),
            ordinal: self.ordinal,
            id: self.id,
            kind: self.kind.as_str().to_owned(),
        }
    }
}

/// What is known of a client: its handle and its addressable devices.
#[derive(Debug)]
pub struct Client {
    pub handle: u64,
    pub devices: Vec<DeviceInfo>,
}

/// A client registered under a name.
struct BackendRegistration {
    name: String,
    client: Client,
    disk_cache: Option<DiskCache>,
}

/// The content of a registration.
pub ghost struct RegistrationModel {
    pub name: Seq<char>,
    pub client: u64,
    pub devices: Seq<DeviceInfo>,
    pub disk_cache: Option<DiskCache>,
}

impl BackendRegistration {
    /// The content of the registration.
    spec fn model(self) -> RegistrationModel {
        RegistrationModel {
            name: self.name@,
            client: self.client.handle,
            devices: self.client.devices@,
            disk_cache: self.disk_cache,
        }
    }
}

/// A backend of a runtime.
struct Backend {
    name: String,
    compiler: Compiler,
    devices: Vec<Device>,
    infos: Vec<DeviceInfo>,
    default_ordinal: usize,
}

/// The content of a backend.
pub ghost struct BackendModel {
    pub name: Seq<char>,
    pub compiler: CompilerModel,
    pub devices: Seq<DeviceModel>,
    pub infos: Seq<DeviceInfo>,
    pub default_ordinal: usize,
}

/// The devices of a list.
pub open spec fn devices_view(devices: Seq<Device>) -> Seq<DeviceModel> {
    Seq::new(devices.len(), |k: int| devices[k]@)
}

impl Backend {
    /// The content of the backend.
    spec fn model(self) -> BackendModel {
        BackendModel {
            name: self.name@,
            compiler: self.compiler.state(),
            devices: devices_view(self.devices@),
            infos: self.infos@,
            default_ordinal: self.default_ordinal,
        }
    }
}

/// The devices of a backend, in the order of its client.
pub open spec fn devices_of(name: Seq<char>, infos: Seq<DeviceInfo>) -> Seq<DeviceModel> {
    Seq::new(
        infos.len(),
        |k: int|
            DeviceModel {
                backend: name,
                ordinal: k as usize,
                id: infos[k].id,
                kind: infos[k].kind@,
            },
    )
}

/// The backend of a registration with a selected device.
pub open spec fn backend_of(reg: RegistrationModel, limits: CacheLimits) -> BackendModel {
    BackendModel {
        name: reg.name,
        compiler: fresh_compiler(reg.client, reg.disk_cache, limits),
        devices: devices_of(reg.name, reg.devices),
        infos: reg.devices,
        default_ordinal: first_selected(reg.devices, reg.devices.len())->0 as usize,
    }
}

/// Whether a text comes before another, by the bytes of their encodings.
pub open spec fn text_before(a: Seq<char>, b: Seq<char>) -> bool {
    bytes_before(encode_utf8(a), encode_utf8(b), 0)
}

/// The order of bytes is transitive.
proof fn lemma_bytes_transitive(a: Seq<u8>, b: Seq<u8>, c: Seq<u8>, at: nat)
    requires
        bytes_before(a, b, at),
        bytes_before(b, c, at),
    ensures
        bytes_before(a, c, at),
    decreases a.len() - at,
{
    if at < a.len() && at < b.len() && at < c.len() && a[at as int] == b[at as int] && b[at as int]
        == c[at as int] {
        lemma_bytes_transitive(a, b, c, at + 1);
    }
}

/// Of two different lists of bytes one comes before the other.
proof fn lemma_bytes_total(a: Seq<u8>, b: Seq<u8>, at: nat)
    requires
        !bytes_before(a, b, at),
        !bytes_before(b, a, at),
        at <= a.len(),
        at <= b.len(),
        forall|k: int| 0 <= k < at ==> a[k] == b[k],
    ensures
        a == b,
    decreases a.len() - at,
{
    if at < a.len() && at < b.len() {
        assert(a[at as int] == b[at as int]);
        lemma_bytes_total(a, b, at + 1);
    } else {
        assert(a =~= b);
    }
}

/// No list of bytes comes before itself.
proof fn lemma_bytes_strict(a: Seq<u8>, at: nat)
    ensures
        !bytes_before(a, a, at),
    decreases a.len() - at,
{
    if at < a.len() {
        lemma_bytes_strict(a, at + 1);
    }
}

/// Whether names are in strictly ascending order.
pub open spec fn names_ascend(backends: Seq<BackendModel>) -> bool {
    forall|i: int, j: int|
        0 <= i < j < backends.len() ==> text_before(
            (#[trigger] backends[i]).name,
            (#[trigger] backends[j]).name,
        )
}

/// Names in ascending order are different.
pub proof fn ascending_names_are_distinct(backends: Seq<BackendModel>, i: int, j: int)
    requires
        names_ascend(backends),
        0 <= i < j < backends.len(),
    ensures
        backends[i].name != backends[j].name,
{
    assert(text_before(backends[i].name, backends[j].name));
    lemma_bytes_strict(encode_utf8(backends[i].name), 0);
}

/// How many of the first `count` backends come before a name, counted up to the
/// first that does not.
pub open spec fn rank_of(backends: Seq<BackendModel>, name: Seq<char>, at: nat) -> nat
    decreases backends.len() - at,
{
    if at >= backends.len() || !text_before(backends[at as int].name, name) {
        at
    } else {
        rank_of(backends, name, at + 1)
    }
}

/// The rank of a name lies within the list, and what is in front comes before.
proof fn lemma_rank(backends: Seq<BackendModel>, name: Seq<char>, at: nat)
    requires
        at <= backends.len(),
    ensures
        at <= rank_of(backends, name, at) <= backends.len(),
        forall|k: int|
            at <= k < rank_of(backends, name, at) ==> text_before(
                (#[trigger] backends[k]).name,
                name,
            ),
        rank_of(backends, name, at) < backends.len() ==> !text_before(
            backends[rank_of(backends, name, at) as int].name,
            name,
        ),
    decreases backends.len() - at,
{
    if at < backends.len() && text_before(backends[at as int].name, name) {
        lemma_rank(backends, name, at + 1);
    }
}

/// The backends with one more, in its place.
pub open spec fn inserted(backends: Seq<BackendModel>, backend: BackendModel) -> Seq<BackendModel> {
    backends.insert(rank_of(backends, backend.name, 0) as int, backend)
}

/// The backends of the first `count` registrations, ordered by name.
pub open spec fn registered(
    regs: Seq<RegistrationModel>,
    limits: CacheLimits,
    count: nat,
) -> Seq<BackendModel>
    decreases count,
{
    if count == 0 {
        Seq::empty()
    } else {
        inserted(
            registered(regs, limits, (count - 1) as nat),
            backend_of(regs[count - 1], limits),
        )
    }
}

/// The place of a name among the first `count` backends.
pub open spec fn place_of(backends: Seq<BackendModel>, name: Seq<char>, count: nat) -> Option<int>
    decreases count,
{
    if count == 0 {
        None
    } else {
        match place_of(backends, name, (count - 1) as nat) {
            Some(k) => Some(k),
            None => if backends[count - 1].name == name {
                Some(count - 1)
            } else {
                None
            },
        }
    }
}

/// What the place of a name says.
pub proof fn lemma_place(backends: Seq<BackendModel>, name: Seq<char>, count: nat)
    requires
        count <= backends.len(),
    ensures
        match place_of(backends, name, count) {
            Some(k) => 0 <= k < count && backends[k].name == name,
            None => forall|j: int| 0 <= j < count ==> (#[trigger] backends[j]).name != name,
        },
    decreases count,
{
    if count > 0 {
        lemma_place(backends, name, (count - 1) as nat);
    }
}

/// Inserting a backend with a new name keeps the order.
proof fn lemma_inserted(backends: Seq<BackendModel>, backend: BackendModel)
    requires
        names_ascend(backends),
        place_of(backends, backend.name, backends.len()) is None,
    ensures
        names_ascend(inserted(backends, backend)),
        inserted(backends, backend).len() == backends.len() + 1,
{
    broadcast use vstd::utf8::encode_utf8_decode_utf8;

    let name = backend.name;
    let rank = rank_of(backends, name, 0) as int;
    let after = inserted(backends, backend);
    lemma_rank(backends, name, 0);
    lemma_place(backends, name, backends.len());
    if rank < backends.len() {
        let next = backends[rank].name;
        if !text_before(name, next) {
            lemma_bytes_total(encode_utf8(next), encode_utf8(name), 0);
            assert(vstd::utf8::decode_utf8(encode_utf8(next)) == next);
            assert(vstd::utf8::decode_utf8(encode_utf8(name)) == name);
        }
    }
    assert forall|i: int, j: int| 0 <= i < j < after.len() implies text_before(
        (#[trigger] after[i]).name,
        (#[trigger] after[j]).name,
    ) by {
        let x = if i < rank { i } else { i - 1 };
        let y = if j < rank { j } else { j - 1 };
        if i == rank {
            assert(after[j] == backends[y]);
            if y > rank {
                assert(text_before(backends[rank].name, backends[y].name));
                lemma_bytes_transitive(
                    encode_utf8(name),
                    encode_utf8(backends[rank].name),
                    encode_utf8(backends[y].name),
                    0,
                );
            }
        } else if j == rank {
            assert(after[i] == backends[i]);
        } else {
            assert(after[i] == backends[x]);
            assert(after[j] == backends[y]);
        }
    }
}

/// Why a registration is refused, for the first reason among the first `count`.
pub open spec fn registration_refusal(regs: Seq<RegistrationModel>, count: nat) -> Option<Error>
    decreases count,
{
    if count == 0 {
        None
    } else {
        match registration_refusal(regs, (count - 1) as nat) {
            Some(e) => Some(e),
            None => {
                let reg = regs[count - 1];
                if reg.name.len() == 0 {
                    Some(invalid("runtime backend name must be nonempty"))
                } else if first_selected(reg.devices, reg.devices.len()) is None {
                    Some(invalid("PJRT client has no selected device"))
                } else if named_before(regs, count - 1) {
                    Some(Error::DuplicateBackend { name: listing(reg.name) })
                } else {
                    None
                }
            },
        }
    }
}

/// Whether an earlier registration has the same name.
pub open spec fn named_before(regs: Seq<RegistrationModel>, at: int) -> bool {
    exists|k: int| 0 <= k < at && (#[trigger] regs[k]).name == regs[at].name
}

/// An early refusal is the refusal of the whole list.
proof fn lemma_registration_refused(regs: Seq<RegistrationModel>, early: nat, count: nat)
    requires
        early <= count,
        registration_refusal(regs, early) is Some,
    ensures
        registration_refusal(regs, count) == registration_refusal(regs, early),
    decreases count - early,
{
    if early < count {
        lemma_registration_refused(regs, early + 1, count);
    }
}

/// Whether a backend is complete: it lists the devices of its client under its
/// name, one of them is its default, and its compiler keeps its bounds.
pub open spec fn complete(backend: BackendModel) -> bool {
    &&& backend.devices == devices_of(backend.name, backend.infos)
    &&& backend.default_ordinal < backend.devices.len()
    &&& backend.compiler.wf()
}

/// Whether every backend is complete.
pub open spec fn all_complete(backends: Seq<BackendModel>) -> bool {
    forall|k: int| 0 <= k < backends.len() ==> complete(#[trigger] backends[k])
}

/// Accepted registrations make complete backends in ascending order, one for
/// each name.
proof fn lemma_registered(regs: Seq<RegistrationModel>, limits: CacheLimits, count: nat)
    requires
        count <= regs.len(),
        registration_refusal(regs, count) is None,
    ensures
        registered(regs, limits, count).len() == count,
        names_ascend(registered(regs, limits, count)),
        all_complete(registered(regs, limits, count)),
        forall|name: Seq<char>|
            place_of(registered(regs, limits, count), name, count) is Some <==> (exists|k: int|
                0 <= k < count && (#[trigger] regs[k]).name == name),
    decreases count,
{
    let all = registered(regs, limits, count);
    if count > 0 {
        let before = (count - 1) as nat;
        lemma_registered(regs, limits, before);
        let rest = registered(regs, limits, before);
        let backend = backend_of(regs[count - 1], limits);
        lemma_first_selected(regs[count - 1].devices, regs[count - 1].devices.len());
        assert(place_of(rest, backend.name, before) is None) by {
            if place_of(rest, backend.name, before) is Some {
                assert(named_before(regs, count - 1));
            }
        }
        lemma_inserted(rest, backend);
        let rank = rank_of(rest, backend.name, 0) as int;
        lemma_rank(rest, backend.name, 0);
        assert(complete(backend));
        assert forall|k: int| 0 <= k < all.len() implies complete(#[trigger] all[k]) by {
            if k < rank {
                assert(all[k] == rest[k]);
            } else if k > rank {
                assert(all[k] == rest[k - 1]);
            }
        }
        assert forall|name: Seq<char>|
            place_of(all, name, count) is Some <==> (exists|k: int|
                0 <= k < count && (#[trigger] regs[k]).name == name) by {
            lemma_place(all, name, count);
            lemma_place(rest, name, before);
            if place_of(all, name, count) is Some {
                let k = place_of(all, name, count)->0;
                if k < rank {
                    assert(rest[k].name == name);
                } else if k > rank {
                    assert(rest[k - 1].name == name);
                } else {
                    assert(regs[count - 1].name == name);
                }
            }
            if exists|k: int| 0 <= k < count && (#[trigger] regs[k]).name == name {
                let k = choose|k: int| 0 <= k < count && (#[trigger] regs[k]).name == name;
                if k == count - 1 {
                    assert(all[rank].name == name);
                } else {
                    let j = place_of(rest, name, before)->0;
                    if j < rank {
                        assert(all[j] == rest[j]);
                    } else {
                        assert(all[j + 1] == rest[j]);
                    }
                }
            }
        }
    }
}

/// The name of the default backend, or why there is none.
pub open spec fn default_name(regs: Seq<RegistrationModel>, chosen: Option<Seq<char>>) -> Result<
    Seq<char>,
    Error,
> {
    match chosen {
        Some(name) => Ok(name),
        None => if regs.len() == 1 {
            Ok(regs[0].name)
        } else {
            Err(invalid("multiple backends require a default backend"))
        },
    }
}

/// Whether a result is the runtime of a configuration, or the reason why there
/// is none.
pub open spec fn builds_to(
    regs: Seq<RegistrationModel>,
    chosen: Option<Seq<char>>,
    limits: CacheLimits,
    policy: PolicyModel,
    r: Result<Runtime, Error>,
) -> bool {
    let backends = registered(regs, limits, regs.len());
    if regs.len() == 0 {
        r == Err::<Runtime, Error>(invalid("runtime builder requires a PJRT backend"))
    } else {
        match registration_refusal(regs, regs.len()) {
            Some(e) => r == Err::<Runtime, Error>(e),
            None => match default_name(regs, chosen) {
                Err(e) => r == Err::<Runtime, Error>(e),
                Ok(name) => match place_of(backends, name, backends.len()) {
                    None => r == Err::<Runtime, Error>(
                        Error::DefaultBackendMissing { name: listing(name) },
                    ),
                    Some(k) => {
                        &&& r matches Ok(runtime)
                        &&& runtime.wf()
                        &&& runtime.backends() == backends
                        &&& runtime.chosen() == backends[k].devices[backends[k].default_ordinal as int]
                        &&& runtime.policy() == policy
                    },
                },
            },
        }
    }
}

/// The text of an optional name.
pub open spec fn optional_view(name: Option<String>) -> Option<Seq<char>> {
    match name {
        Some(text) => Some(text@),
        None => None,
    }
}

/// The configuration of a runtime.
pub struct RuntimeBuilder {
    backends: Vec<BackendRegistration>,
    default_backend: Option<String>,
    cache_limits: CacheLimits,
    planning_policy: PlanningPolicy,
}

impl RuntimeBuilder {
    /// The registered clients, in order.
    pub closed spec fn registrations(self) -> Seq<RegistrationModel> {
        Seq::new(self.backends@.len(), |k: int| self.backends@[k].model())
    }

    /// The chosen default backend.
    pub closed spec fn chosen(self) -> Option<Seq<char>> {
        optional_view(self.default_backend)
    }

    /// The bounds of the compilation caches.
    pub closed spec fn limits(self) -> CacheLimits {
        self.cache_limits
    }

    /// The planning policy.
    pub closed spec fn policy(self) -> PolicyModel {
        self.planning_policy@
    }

    /// Register a client under a name.
    fn register(self, name: &str, client: Client, disk_cache: Option<DiskCache>) -> (r:
        RuntimeBuilder)
        ensures
            r.registrations() == self.registrations().push(
                RegistrationModel {
                    name: name@,
                    client: client.handle,
                    devices: client.devices@,
                    disk_cache,
                },
            ),
            r.chosen() == self.chosen(),
            r.limits() == self.limits(),
            r.policy() == self.policy(),
    {
        let ghost before = self.registrations();
        let mut r = self;
        let registration = BackendRegistration { name: name.to_owned(), client, disk_cache };
        let ghost model = registration.model();
        r.backends.push(registration);
        assert(r.registrations() =~= before.push(model));
        r
    }

    /// Register a client as the default backend.
    pub fn client(self, client: Client) -> (r: RuntimeBuilder)
        ensures
            r.registrations() == self.registrations().push(
                RegistrationModel {
                    name: "default"@,
                    client: client.handle,
                    devices: client.devices@,
                    disk_cache: None,
                },
            ),
            r.chosen() == Some("default"@),
            r.limits() == self.limits(),
            r.policy() == self.policy(),
    {
        self.register("default", client, None).default_backend("default")
    }

    /// Register a client as the default backend, with a persistent cache.
    pub fn cached_client(self, client: Client, disk_cache: DiskCache) -> (r: RuntimeBuilder)
        ensures
            r.registrations() == self.registrations().push(
                RegistrationModel {
                    name: "default"@,
                    client: client.handle,
                    devices: client.devices@,
                    disk_cache: Some(disk_cache),
                },
            ),
            r.chosen() == Some("default"@),
            r.limits() == self.limits(),
            r.policy() == self.policy(),
    {
        self.cached_backend("default", client, disk_cache).default_backend("default")
    }

    /// Register a client under a name.
    pub fn backend(self, name: &str, client: Client) -> (r: RuntimeBuilder)
        ensures
            r.registrations() == self.registrations().push(
                RegistrationModel {
                    name: name@,
                    client: client.handle,
                    devices: client.devices@,
                    disk_cache: None,
                },
            ),
            r.chosen() == self.chosen(),
            r.limits() == self.limits(),
            r.policy() == self.policy(),
    {
        self.register(name, client, None)
    }

    /// Register a client under a name, with a persistent cache.
    pub fn cached_backend(self, name: &str, client: Client, disk_cache: DiskCache) -> (r:
        RuntimeBuilder)
        ensures
            r.registrations() == self.registrations().push(
                RegistrationModel {
                    name: name@,
                    client: client.handle,
                    devices: client.devices@,
                    disk_cache: Some(disk_cache),
                },
            ),
            r.chosen() == self.chosen(),
            r.limits() == self.limits(),
            r.policy() == self.policy(),
    {
        self.register(name, client, Some(disk_cache))
    }

    /// Choose the default backend.
    pub fn default_backend(self, name: &str) -> (r: RuntimeBuilder)
        ensures
            r.registrations() == self.registrations(),
            r.chosen() == Some(name@),
            r.limits() == self.limits(),
            r.policy() == self.policy(),
    {
        let mut r = self;
        r.default_backend = Some(name.to_owned());
        r
    }

    /// Bound the compilation caches.
    pub fn cache_limits(self, limits: CacheLimits) -> (r: RuntimeBuilder)
        ensures
            r.registrations() == self.registrations(),
            r.chosen() == self.chosen(),
            r.limits() == limits,
            r.policy() == self.policy(),
    {
        let mut r = self;
        r.cache_limits = limits;
        r
    }

    /// Plan for a single device.
    pub fn single_device(self) -> (r: RuntimeBuilder)
        ensures
            r.registrations() == self.registrations(),
            r.chosen() == self.chosen(),
            r.limits() == self.limits(),
            r.policy() == PolicyModel::SingleDevice,
    {
        let mut r = self;
        r.planning_policy = PlanningPolicy::SingleDevice;
        r
    }

    /// Plan for a mesh.
    pub fn auto_sharding(self, mesh: Mesh, max_search_states: usize) -> (r: Result<
        RuntimeBuilder,
        Error,
    >)
        ensures
            match r {
                Ok(builder) => {
                    &&& max_search_states != 0
                    &&& builder.registrations() == self.registrations()
                    &&& builder.chosen() == self.chosen()
                    &&& builder.limits() == self.limits()
                    &&& builder.policy() == (PolicyModel::Auto {
                        mesh: mesh@,
                        budget: max_search_states,
                    })
                },
                Err(e) => max_search_states == 0 && e == invalid(
                    "auto-sharding search budget must be nonzero",
                ),
            },
    {
        let options: AutoShardingOptions = AutoShardingOptions::new(mesh, max_search_states)?;
        let mut r = self;
        r.planning_policy = PlanningPolicy::Auto(options);
        Ok(r)
    }

    /// The runtime of the configuration.
    pub fn build(self) -> (r: Result<Runtime, Error>)
        ensures
            builds_to(
                self.registrations(),
                self.chosen(),
                self.limits(),
                self.policy(),
                r,
            ),
    {
        let ghost regs = self.registrations();
        let ghost chosen = self.chosen();
        let limits: CacheLimits = self.cache_limits;
        let total: usize = self.backends.len();
        if total == 0 {
            return Err(err("runtime builder requires a PJRT backend"));
        }
        let only: Option<String> = if total == 1 {
            Some(self.backends[0].name.as_str().to_owned())
        } else {
            None
        };
        assert(total == 1 ==> (only matches Some(text) && text@ == regs[0].name));
        let planning_policy: PlanningPolicy = self.planning_policy;
        let default_backend: Option<String> = self.default_backend;
        let mut waiting: Vec<BackendRegistration> = self.backends;
        let mut backends: Vec<Backend> = Vec::new();
        let mut at: usize = 0;
        assert(backends_view(backends@) =~= registered(regs, limits, 0));
        while at < total
            invariant
                at <= total,
                regs == self.registrations(),
                total == regs.len(),
                waiting@.len() == total - at,
                forall|k: int|
                    0 <= k < waiting@.len() ==> (#[trigger] waiting@[k]).model() == regs[at + k],
                registration_refusal(regs, at as nat) is None,
                backends_view(backends@) == registered(regs, limits, at as nat),
                forall|k: int| 0 <= k < backends@.len() ==> (#[trigger] backends@[k]).compiler.wf(),
            decreases total - at,
        {
            let ghost old_waiting = waiting@;
            let registration: BackendRegistration = waiting.remove(0);
            proof {
                assert(old_waiting[0].model() == regs[at as int]);
                assert forall|k: int| 0 <= k < waiting@.len() implies (
                #[trigger] waiting@[k]).model() == regs[at + 1 + k] by {
                    assert(waiting@[k] == old_waiting[k + 1]);
                }
                if registration_refusal(regs, (at + 1) as nat) is Some {
                    lemma_registration_refused(regs, (at + 1) as nat, regs.len());
                }
                lemma_registered(regs, limits, at as nat);
            }
            if registration.name.as_str().unicode_len() == 0 {
                return Err(err("runtime backend name must be nonempty"));
            }
            let ghost reg = registration.model();
            let backend: Backend = match backend_from_client(registration, limits) {
                Ok(backend) => backend,
                Err(e) => {
                    return Err(e);
                },
            };
            let found: Option<usize> = find_backend(&backends, backend.name.as_str());
            if found.is_some() {
                proof {
                    let k = choose|k: int| 0 <= k < at && (#[trigger] regs[k]).name == reg.name;
                    assert(named_before(regs, at as int));
                }
                return Err(Error::DuplicateBackend { name: listed_text(backend.name.as_str()) });
            }
            proof {
                assert(!named_before(regs, at as int));
            }
            insert_backend(&mut backends, backend);
            at += 1;
        }
        proof {
            lemma_registered(regs, limits, regs.len());
        }
        let name: String = match default_backend {
            Some(name) => name,
            None => match only {
                Some(name) => name,
                None => {
                    return Err(err("multiple backends require a default backend"));
                },
            },
        };
        let ghost all = backends_view(backends@);
        match find_backend(&backends, name.as_str()) {
            None => Err(Error::DefaultBackendMissing { name: listed_text(name.as_str()) }),
            Some(k) => {
                proof {
                    lemma_place(all, name@, all.len());
                    assert(all[k as int] == backends@[k as int].model());
                    assert(complete(all[k as int]));
                }
                let ordinal: usize = backends[k].default_ordinal;
                let default_device: Device = backends[k].devices[ordinal].duplicate();
                let runtime = Runtime { backends, default_device, planning_policy };
                proof {
                    lemma_is_registered(all, k as int, ordinal as int);
                    assert(runtime.backends() == all);
                }
                Ok(runtime)
            },
        }
    }
}

impl Default for RuntimeBuilder {
    fn default() -> (r: RuntimeBuilder)
        ensures
            r.registrations().len() == 0,
            r.chosen() is None,
            r.limits() == (CacheLimits { max_entries: 32, max_key_bytes: 0x100_0000 }),
            r.policy() == PolicyModel::SingleDevice,
    {
        RuntimeBuilder {
            backends: Vec::new(),
            default_backend: None,
            cache_limits: CacheLimits::default(),
            planning_policy: PlanningPolicy::SingleDevice,
        }
    }
}

/// The backends of a list.
spec fn backends_view(backends: Seq<Backend>) -> Seq<BackendModel> {
    Seq::new(backends.len(), |k: int| backends[k].model())
}

/// The backend of a registration.
fn backend_from_client(registration: BackendRegistration, limits: CacheLimits) -> (r: Result<
    Backend,
    Error,
>)
    ensures
        match first_selected(
            registration.model().devices,
            registration.model().devices.len(),
        ) {
            None => r == Err::<Backend, Error>(invalid("PJRT client has no selected device")),
            Some(_) => r matches Ok(backend) && backend.model() == backend_of(
                registration.model(),
                limits,
            ) && complete(backend.model()),
        },
{
    let ghost reg = registration.model();
    let default_ordinal: usize = match selected_device(&registration.client.devices) {
        Some(k) => k,
        None => {
            return Err(err("PJRT client has no selected device"));
        },
    };
    let infos: Vec<DeviceInfo> = registration.client.devices;
    let name: String = registration.name;
    let mut devices: Vec<Device> = Vec::new();
    let mut i: usize = 0;
    while i < infos.len()
        invariant
            i <= infos@.len(),
            devices@.len() == i,
            forall|k: int|
                0 <= k < i ==> (#[trigger] devices@[k])@ == devices_of(name@, infos@)[k],
        decreases infos@.len() - i,
    {
        devices.push(
            Device {
                backend: name.as_str().to_owned(),
                ordinal: i,
                id: infos[i].id,
                kind: infos[i].kind.as_str().to_owned(),
            },
        );
        i += 1;
    }
    assert(devices_view(devices@) =~= devices_of(name@, infos@));
    let fresh: Compiler = Compiler::new(registration.client.handle, limits);
    let compiler: Compiler = match registration.disk_cache {
        Some(disk) => fresh.with_disk_cache(disk),
        None => fresh,
    };
    Ok(Backend { name, compiler, devices, infos, default_ordinal })
}

/// The place of a name.
fn find_backend(backends: &Vec<Backend>, name: &str) -> (r: Option<usize>)
    ensures
        match r {
            Some(k) => k < backends@.len() && place_of(
                backends_view(backends@),
                name@,
                backends@.len(),
            ) == Some(k as int),
            None => place_of(backends_view(backends@), name@, backends@.len()) is None,
        },
{
    let ghost all = backends_view(backends@);
    let mut found: Option<usize> = None;
    let mut i: usize = 0;
    while i < backends.len()
        invariant
            all == backends_view(backends@),
            i <= backends@.len(),
            match found {
                Some(k) => k < i && place_of(all, name@, i as nat) == Some(k as int),
                None => place_of(all, name@, i as nat) is None,
            },
        decreases backends@.len() - i,
    {
        assert(all[i as int].name == backends@[i as int].name@);
        if found.is_none() && same_text(backends[i].name.as_str(), name) {
            found = Some(i);
        }
        i += 1;
    }
    found
}

/// Whether bytes come before others.
fn comes_before(a: &[u8], b: &[u8]) -> (r: bool)
    ensures
        r == bytes_before(a@, b@, 0),
{
    let mut i: usize = 0;
    while i < a.len()
        invariant
            i <= a@.len(),
            bytes_before(a@, b@, 0) == bytes_before(a@, b@, i as nat),
        decreases a@.len() - i,
    {
        if i >= b.len() {
            return false;
        }
        if a[i] != b[i] {
            return a[i] < b[i];
        }
        i += 1;
    }
    i < b.len()
}

/// Insert a backend in its place.
fn insert_backend(backends: &mut Vec<Backend>, backend: Backend)
    requires
        backend.compiler.wf(),
        forall|k: int| 0 <= k < old(backends)@.len() ==> (#[trigger] old(backends)@[k]).compiler.wf(),
    ensures
        backends_view(final(backends)@) == inserted(backends_view(old(backends)@), backend.model()),
        forall|k: int|
            0 <= k < final(backends)@.len() ==> (#[trigger] final(backends)@[k]).compiler.wf(),
{
    let ghost before = backends_view(backends@);
    let ghost list = backends@;
    let ghost model = backend.model();
    let mut rank: usize = 0;
    while rank < backends.len()
        invariant
            backends@ == list,
            before == backends_view(list),
            model == backend.model(),
            rank <= list.len(),
            rank_of(before, model.name, 0) == rank_of(before, model.name, rank as nat),
        ensures
            rank <= list.len(),
            rank_of(before, model.name, 0) == rank,
        decreases list.len() - rank,
    {
        assert(before[rank as int].name == list[rank as int].name@);
        if !comes_before(
            backends[rank].name.as_str().as_bytes(),
            backend.name.as_str().as_bytes(),
        ) {
            break;
        }
        rank += 1;
    }
    backends.insert(rank, backend);
    proof {
        assert(backends_view(backends@) =~= before.insert(rank as int, model));
        assert forall|k: int| 0 <= k < backends@.len() implies (
        #[trigger] backends@[k]).compiler.wf() by {
            if k < rank {
                assert(backends@[k] == list[k]);
            } else if k > rank {
                assert(backends@[k] == list[k - 1]);
            }
        }
    }
}

/// The backend that a device belongs to, or why it belongs to none.
pub open spec fn device_place(backends: Seq<BackendModel>, device: DeviceModel) -> Result<
    int,
    Error,
> {
    match place_of(backends, device.backend, backends.len()) {
        None => Err(Error::BackendNotRegistered { name: listing(device.backend) }),
        Some(k) => if device.ordinal >= backends[k].devices.len()
            || backends[k].devices[device.ordinal as int] != device {
            Err(Error::ForeignDevice { device: named_device(device) })
        } else {
            Ok(k)
        },
    }
}

/// Every device of a complete backend is registered there.
proof fn lemma_is_registered(backends: Seq<BackendModel>, k: int, ordinal: int)
    requires
        names_ascend(backends),
        all_complete(backends),
        0 <= k < backends.len(),
        0 <= ordinal < backends[k].devices.len(),
        ordinal <= usize::MAX,
    ensures
        device_place(backends, backends[k].devices[ordinal]) == Ok::<int, Error>(k),
{
    assert(complete(backends[k]));
    let device = backends[k].devices[ordinal];
    lemma_place(backends, device.backend, backends.len());
    match place_of(backends, device.backend, backends.len()) {
        Some(j) => {
            if j < k {
                ascending_names_are_distinct(backends, j, k);
            } else if k < j {
                ascending_names_are_distinct(backends, k, j);
            }
        },
        None => {
            assert(backends[k].name == device.backend);
        },
    }
}

/// What a compilation asks of which backend.
#[derive(Debug)]
pub struct CompileRequest {
    pub backend: usize,
    pub options: CompileOptions,
}

/// What the compilation of a program for a device asks of which backend, or why
/// it is refused.
pub open spec fn request_of(
    backends: Seq<BackendModel>,
    policy: PolicyModel,
    device: DeviceModel,
    facts: FactsModel,
) -> Result<(int, OptionsModel), Error> {
    match planned(facts, policy) {
        Err(e) => Err(e),
        Ok(plan) => if plan.required() > 1 {
            match device_place(backends, device) {
                Err(e) => Err(e),
                Ok(k) => match spmd_config(
                    plan,
                    backends[k].infos,
                    fixes_some(plan.shardings),
                ) {
                    Err(e) => Err(e),
                    Ok(config) => Ok((k, config.0)),
                },
            }
        } else {
            match place_of(backends, device.backend, backends.len()) {
                None => Err(Error::DeviceNotRegistered { device: named_device(device) }),
                Some(k) => Ok((k, local_options(device.id))),
            }
        },
    }
}

/// Named backends with their devices and compilers, a default device and a
/// planning policy.
pub struct Runtime {
    backends: Vec<Backend>,
    default_device: Device,
    planning_policy: PlanningPolicy,
}

/// Where a buffer lives: its client, and the position of its device there.
#[derive(Clone, Copy, PartialEq, Eq, Structural, Debug)]
pub struct Residence {
    pub client: u64,
    pub ordinal: usize,
}

/// The first input among the first `count` that does not live on a device.
pub open spec fn first_foreign(inputs: Seq<Residence>, at: Residence, count: nat) -> Option<int>
    decreases count,
{
    if count == 0 {
        None
    } else {
        match first_foreign(inputs, at, (count - 1) as nat) {
            Some(k) => Some(k),
            None => if inputs[count - 1] != at {
                Some(count - 1)
            } else {
                None
            },
        }
    }
}

/// An early hit is the hit of the whole list.
proof fn lemma_first_foreign(inputs: Seq<Residence>, at: Residence, early: nat, count: nat)
    requires
        early <= count,
        first_foreign(inputs, at, early) is Some,
    ensures
        first_foreign(inputs, at, count) == first_foreign(inputs, at, early),
    decreases count - early,
{
    if early < count {
        lemma_first_foreign(inputs, at, early + 1, count);
    }
}

/// The first input among the first `count` whose type is not the declared one.
pub open spec fn first_unfit(types: Seq<TypeModel>, inputs: Seq<TypeModel>, count: nat) -> Option<
    int,
>
    decreases count,
{
    if count == 0 {
        None
    } else {
        match first_unfit(types, inputs, (count - 1) as nat) {
            Some(k) => Some(k),
            None => if inputs[count - 1].dims != types[count - 1].dims || inputs[count - 1].dtype
                != types[count - 1].dtype {
                Some(count - 1)
            } else {
                None
            },
        }
    }
}

/// An early hit is the hit of the whole list.
proof fn lemma_first_unfit(
    types: Seq<TypeModel>,
    inputs: Seq<TypeModel>,
    early: nat,
    count: nat,
)
    requires
        early <= count,
        first_unfit(types, inputs, early) is Some,
    ensures
        first_unfit(types, inputs, count) == first_unfit(types, inputs, early),
    decreases count - early,
{
    if early < count {
        lemma_first_unfit(types, inputs, early + 1, count);
    }
}

/// Why a run on F32 host data is refused.
pub open spec fn run_refusal(
    backends: Seq<BackendModel>,
    device: DeviceModel,
    types: Seq<TypeModel>,
    inputs: nat,
) -> Option<Error> {
    if inputs != types.len() {
        Some(invalid("input count mismatch"))
    } else {
        match device_place(backends, device) {
            Err(e) => Some(e),
            Ok(_) => match first_other(types, types.len()) {
                Some(_) => Some(invalid("non-F32 inputs require run_buffers")),
                None => None,
            },
        }
    }
}

/// Why a run on resident buffers is refused.
pub open spec fn run_buffers_refusal(
    backends: Seq<BackendModel>,
    device: DeviceModel,
    inputs: Seq<Residence>,
) -> Option<Error> {
    match device_place(backends, device) {
        Err(e) => Some(e),
        Ok(k) => {
            let at = Residence { client: backends[k].compiler.client, ordinal: device.ordinal };
            match first_foreign(inputs, at, inputs.len()) {
                Some(index) => Some(
                    Error::InputNotResident { index: index as usize, device: named_device(device) },
                ),
                None => None,
            }
        },
    }
}

/// Why a run on tensors is refused.
pub open spec fn run_tensors_refusal(
    backends: Seq<BackendModel>,
    device: DeviceModel,
    types: Seq<TypeModel>,
    inputs: Seq<TypeModel>,
) -> Option<Error> {
    if inputs.len() != types.len() {
        Some(invalid("input count mismatch"))
    } else {
        match first_unfit(types, inputs, types.len()) {
            Some(index) => Some(Error::InputMetadata { index: index as usize }),
            None => match device_place(backends, device) {
                Err(e) => Some(e),
                Ok(_) => None,
            },
        }
    }
}

/// Whether a runtime has compiled a program for a device: a refused request
/// changes nothing, any other goes to the compiler of one backend.
pub open spec fn compiles_to(
    before: Runtime,
    after: Runtime,
    device: DeviceModel,
    facts: FactsModel,
    program: Seq<u8>,
    options: Seq<u8>,
    outcome: BackendOutcome,
    r: Result<u64, Error>,
) -> bool {
    &&& after.chosen() == before.chosen()
    &&& after.policy() == before.policy()
    &&& match request_of(before.backends(), before.policy(), device, facts) {
        Err(e) => r == Err::<u64, Error>(e) && after.backends() == before.backends(),
        Ok((k, _)) => {
            let backend = before.backends()[k];
            let (cache, answer) = backend.compiler.cache.requested(
                backend.compiler.limits,
                options_key(program, options),
                outcome,
            );
            &&& r == answer
            &&& after.backends() == before.backends().update(
                k,
                BackendModel {
                    compiler: CompilerModel { cache, ..backend.compiler },
                    ..backend
                },
            )
        },
    }
}

/// The outcome of what was done, unless it is refused.
pub open spec fn unless_refused<T>(refusal: Option<Error>, outcome: Result<T, Error>) -> Result<
    T,
    Error,
> {
    match refusal {
        Some(e) => Err(e),
        None => outcome,
    }
}

impl Runtime {
    /// The backends, ordered by name.
    pub closed spec fn backends(self) -> Seq<BackendModel> {
        backends_view(self.backends@)
    }

    /// The default device.
    pub closed spec fn chosen(self) -> DeviceModel {
        self.default_device@
    }

    /// The planning policy.
    pub closed spec fn policy(self) -> PolicyModel {
        self.planning_policy@
    }

    /// Names ascend, backends are complete, and the default device is
    /// registered.
    pub open spec fn wf(self) -> bool {
        &&& names_ascend(self.backends())
        &&& all_complete(self.backends())
        &&& device_place(self.backends(), self.chosen()) is Ok
    }

    /// An empty configuration.
    pub fn builder() -> (r: RuntimeBuilder)
        ensures
            r.registrations().len() == 0,
            r.chosen() is None,
            r.limits() == (CacheLimits { max_entries: 32, max_key_bytes: 0x100_0000 }),
            r.policy() == PolicyModel::SingleDevice,
    {
        RuntimeBuilder::default()
    }

    /// The runtime of one client with a selected device.
    pub fn new(client: Client) -> (r: Runtime)
        requires
            first_selected(client.devices@, client.devices@.len()) is Some,
        ensures
            r.wf(),
            r.backends() == seq![
                backend_of(
                    RegistrationModel {
                        name: "default"@,
                        client: client.handle,
                        devices: client.devices@,
                        disk_cache: None,
                    },
                    CacheLimits { max_entries: 32, max_key_bytes: 0x100_0000 },
                ),
            ],
            r.policy() == PolicyModel::SingleDevice,
            r.chosen() == r.backends()[0].devices[r.backends()[0].default_ordinal as int],
    {
        Runtime::with_cache_limits(client, CacheLimits::default())
    }

    /// The runtime of one client with a selected device, and a bounded cache.
    pub fn with_cache_limits(client: Client, limits: CacheLimits) -> (r: Runtime)
        requires
            first_selected(client.devices@, client.devices@.len()) is Some,
        ensures
            r.wf(),
            r.backends() == seq![
                backend_of(
                    RegistrationModel {
                        name: "default"@,
                        client: client.handle,
                        devices: client.devices@,
                        disk_cache: None,
                    },
                    limits,
                ),
            ],
            r.policy() == PolicyModel::SingleDevice,
            r.chosen() == r.backends()[0].devices[r.backends()[0].default_ordinal as int],
    {
        Runtime::with_planning_policy(client, limits, PlanningPolicy::SingleDevice)
    }

    /// The runtime of one client with a selected device, a bounded cache and a
    /// planning policy.
    pub fn with_planning_policy(
        client: Client,
        limits: CacheLimits,
        planning_policy: PlanningPolicy,
    ) -> (r: Runtime)
        requires
            first_selected(client.devices@, client.devices@.len()) is Some,
        ensures
            r.wf(),
            r.backends() == seq![
                backend_of(
                    RegistrationModel {
                        name: "default"@,
                        client: client.handle,
                        devices: client.devices@,
                        disk_cache: None,
                    },
                    limits,
                ),
            ],
            r.policy() == planning_policy@,
            r.chosen() == r.backends()[0].devices[r.backends()[0].default_ordinal as int],
    {
        let ghost reg = RegistrationModel {
            name: "default"@,
            client: client.handle,
            devices: client.devices@,
            disk_cache: None,
        };
        let registration = BackendRegistration {
            name: "default".to_owned(),
            client,
            disk_cache: None,
        };
        let backend: Backend = match backend_from_client(registration, limits) {
            Ok(backend) => backend,
            Err(_) => vstd::pervasive::unreached(),
        };
        assert(complete(backend.model()));
        let ordinal: usize = backend.default_ordinal;
        let default_device: Device = backend.devices[ordinal].duplicate();
        let runtime = Runtime { backends: vec![backend], default_device, planning_policy };
        proof {
            let all = runtime.backends();
            assert(all =~= seq![backend_of(reg, limits)]);
            assert(complete(all[0]));
            lemma_is_registered(all, 0, ordinal as int);
        }
        runtime
    }

    /// The planning policy.
    pub fn planning_policy(&self) -> (r: &PlanningPolicy)
        ensures
            r@ == self.policy(),
    {
        &self.planning_policy
    }

    /// Plan a program under the policy.
    pub fn plan(&self, program: &Program) -> (r: Result<ExecutionPlan, Error>)
        ensures
            match r {
                Ok(plan) => planned(program.facts(), self.policy()) == Ok::<Placement, Error>(plan@),
                Err(e) => planned(program.facts(), self.policy()) == Err::<Placement, Error>(e),
            },
    {
        program.plan(self.planning_policy.duplicate())
    }

    /// The place of a device's backend.
    fn backend_for_device(&self, device: &Device) -> (r: Result<usize, Error>)
        ensures
            match r {
                Ok(k) => k < self.backends().len() && device_place(self.backends(), device@) == Ok::<
                    int,
                    Error,
                >(k as int),
                Err(e) => device_place(self.backends(), device@) == Err::<int, Error>(e),
            },
    {
        let k: usize = match find_backend(&self.backends, device.backend()) {
            Some(k) => k,
            None => {
                return Err(Error::BackendNotRegistered { name: listed_text(device.backend()) });
            },
        };
        let devices: &Vec<Device> = &self.backends[k].devices;
        proof {
            assert(self.backends()[k as int] == self.backends@[k as int].model());
        }
        if device.ordinal >= devices.len() || !devices[device.ordinal].same(device) {
            return Err(Error::ForeignDevice { device: device.named() });
        }
        Ok(k)
    }

    /// The client of a device.
    pub fn client_on(&self, device: &Device) -> (r: Result<u64, Error>)
        ensures
            match device_place(self.backends(), device@) {
                Ok(k) => r == Ok::<u64, Error>(self.backends()[k].compiler.client),
                Err(e) => r == Err::<u64, Error>(e),
            },
    {
        let k: usize = self.backend_for_device(device)?;
        assert(self.backends()[k as int] == self.backends@[k as int].model());
        Ok(self.backends[k].compiler.client())
    }

    /// The client of the default device.
    pub fn client(&self) -> (r: u64)
        requires
            self.wf(),
        ensures
            device_place(self.backends(), self.chosen()) matches Ok(k) && r
                == self.backends()[k].compiler.client,
    {
        match self.client_on(&self.default_device) {
            Ok(client) => client,
            Err(_) => vstd::pervasive::unreached(),
        }
    }

    /// The names of the backends, in ascending order.
    pub fn backend_names(&self) -> (r: Vec<String>)
        ensures
            r@.len() == self.backends().len(),
            forall|k: int|
                0 <= k < r@.len() ==> (#[trigger] r@[k])@ == self.backends()[k].name,
    {
        let mut names: Vec<String> = Vec::new();
        let mut i: usize = 0;
        while i < self.backends.len()
            invariant
                i <= self.backends@.len(),
                names@.len() == i,
                forall|k: int|
                    0 <= k < i ==> (#[trigger] names@[k])@ == self.backends()[k].name,
            decreases self.backends@.len() - i,
        {
            assert(self.backends()[i as int] == self.backends@[i as int].model());
            names.push(self.backends[i].name.as_str().to_owned());
            i += 1;
        }
        names
    }

    /// The devices of a backend.
    pub fn devices(&self, backend: &str) -> (r: Result<&[Device], Error>)
        ensures
            match place_of(self.backends(), backend@, self.backends().len()) {
                Some(k) => r matches Ok(devices) && devices_view(devices@)
                    == self.backends()[k].devices,
                None => r == Err::<&[Device], Error>(
                    Error::BackendNotRegistered { name: listing(backend@) },
                ),
            },
    {
        match find_backend(&self.backends, backend) {
            Some(k) => {
                assert(self.backends()[k as int] == self.backends@[k as int].model());
                Ok(self.backends[k].devices.as_slice())
            },
            None => Err(Error::BackendNotRegistered { name: listed_text(backend) }),
        }
    }

    /// The default device.
    pub fn default_device(&self) -> (r: &Device)
        ensures
            r@ == self.chosen(),
    {
        &self.default_device
    }

    /// Make a registered device the default.
    pub fn set_default_device(&mut self, device: &Device) -> (r: Result<(), Error>)
        requires
            old(self).wf(),
        ensures
            final(self).wf(),
            final(self).backends() == old(self).backends(),
            final(self).policy() == old(self).policy(),
            match device_place(old(self).backends(), device@) {
                Ok(_) => r is Ok && final(self).chosen() == device@,
                Err(e) => r == Err::<(), Error>(e) && final(self).chosen() == old(self).chosen(),
            },
    {
        let _place: usize = self.backend_for_device(device)?;
        self.default_device = device.duplicate();
        Ok(())
    }

    /// What the cache of a device's backend has counted.
    pub fn stats_on(&self, device: &Device) -> (r: Result<CacheStats, Error>)
        ensures
            match device_place(self.backends(), device@) {
                Ok(k) => r == Ok::<CacheStats, Error>(self.backends()[k].compiler.cache.stats),
                Err(e) => r == Err::<CacheStats, Error>(e),
            },
    {
        let k: usize = self.backend_for_device(device)?;
        assert(self.backends()[k as int] == self.backends@[k as int].model());
        Ok(self.backends[k].compiler.stats())
    }

    /// What the cache of the default device's backend has counted.
    pub fn stats(&self) -> (r: CacheStats)
        requires
            self.wf(),
        ensures
            device_place(self.backends(), self.chosen()) matches Ok(k) && r
                == self.backends()[k].compiler.cache.stats,
    {
        match self.stats_on(&self.default_device) {
            Ok(stats) => stats,
            Err(_) => vstd::pervasive::unreached(),
        }
    }

    /// What the compilation of a program for a device asks of which backend.
    pub fn compile_request(&self, device: &Device, program: &Program) -> (r: Result<
        CompileRequest,
        Error,
    >)
        ensures
            match r {
                Ok(request) => request.backend < self.backends().len() && request_of(
                    self.backends(),
                    self.policy(),
                    device@,
                    program.facts(),
                ) == Ok::<(int, OptionsModel), Error>((request.backend as int, request.options@)),
                Err(e) => request_of(
                    self.backends(),
                    self.policy(),
                    device@,
                    program.facts(),
                ) == Err::<(int, OptionsModel), Error>(e),
            },
    {
        let plan: ExecutionPlan = self.plan(program)?;
        if plan.requires_spmd_partitioning() {
            let use_shardy: bool = plan.has_constraints();
            let k: usize = self.backend_for_device(device)?;
            assert(self.backends()[k as int] == self.backends@[k as int].model());
            let config: AutoSpmdConfig = auto_spmd_config(
                &plan,
                &self.backends[k].infos,
                use_shardy,
            )?;
            let lowered: Result<&crate::compiler::LoweredProgram, Error> =
                program.planning().lower_spmd(
                program.lowered_program(),
                &plan,
                config.device_ids.as_slice(),
            );
            return match lowered {
                Ok(_) => Ok(CompileRequest { backend: k, options: config.options }),
                Err(e) => Err(e),
            };
        }
        match find_backend(&self.backends, device.backend()) {
            Some(k) => Ok(
                CompileRequest { backend: k, options: single_device_options(device.id()) },
            ),
            None => Err(Error::DeviceNotRegistered { device: device.named() }),
        }
    }

    /// Compile a program for a device with the encoded options of its request.
    pub fn compile_on(
        &mut self,
        device: &Device,
        program: &Program,
        options: &[u8],
        outcome: BackendOutcome,
    ) -> (r: Result<u64, Error>)
        requires
            old(self).wf(),
        ensures
            final(self).wf(),
            compiles_to(
                *old(self),
                *final(self),
                device@,
                program.facts(),
                program_key("mlir"@, program.form().source()),
                options@,
                outcome,
                r,
            ),
    {
        let request: CompileRequest = self.compile_request(device, program)?;
        let k: usize = request.backend;
        let ghost before = self.backends();
        let ghost list = self.backends@;
        let mut backend: Backend = self.backends.remove(k);
        proof {
            assert(before[k as int] == list[k as int].model());
            assert(complete(before[k as int]));
        }
        let r: Result<u64, Error> = backend.compiler.compile_lowered_with_options(
            program.lowered_program(),
            options,
            outcome,
        );
        let ghost model = backend.model();
        self.backends.insert(k, backend);
        proof {
            let after = self.backends();
            assert(after =~= before.update(k as int, model));
            lemma_same_places(before, after, k as int, self.chosen());
        }
        r
    }

    /// Compile a program for the default device.
    pub fn compile(&mut self, program: &Program, options: &[u8], outcome: BackendOutcome) -> (r:
        Result<u64, Error>)
        requires
            old(self).wf(),
        ensures
            final(self).wf(),
            compiles_to(
                *old(self),
                *final(self),
                old(self).chosen(),
                program.facts(),
                program_key("mlir"@, program.form().source()),
                options@,
                outcome,
                r,
            ),
    {
        let device: Device = self.default_device.duplicate();
        self.compile_on(&device, program, options, outcome)
    }

    /// Drop the compiled programs of every backend.
    pub fn clear(&mut self)
        requires
            old(self).wf(),
        ensures
            final(self).wf(),
            final(self).chosen() == old(self).chosen(),
            final(self).policy() == old(self).policy(),
            final(self).backends() == cleared(old(self).backends()),
    {
        let ghost before = self.backends();
        let ghost list = self.backends@;
        let mut waiting: Vec<Backend> = Vec::new();
        let mut done: Vec<Backend> = Vec::new();
        std::mem::swap(&mut waiting, &mut self.backends);
        let total: usize = waiting.len();
        let mut i: usize = 0;
        while i < total
            invariant
                i <= total,
                total == list.len(),
                before == backends_view(list),
                all_complete(before),
                waiting@ == list.skip(i as int),
                done@.len() == i,
                forall|k: int|
                    0 <= k < i ==> (#[trigger] done@[k]).model() == cleared(before)[k],
            decreases total - i,
        {
            let mut backend: Backend = waiting.remove(0);
            proof {
                assert(backend == list[i as int]);
                assert(complete(before[i as int]));
                assert(before[i as int] == list[i as int].model());
                assert(list.skip(i as int).remove(0) =~= list.skip(i + 1));
            }
            backend.compiler.clear();
            done.push(backend);
            i += 1;
        }
        self.backends = done;
        proof {
            let after = self.backends();
            assert(after =~= cleared(before));
            lemma_cleared(before, self.chosen());
        }
    }

    /// Check, before anything is uploaded or executed, that a program can run on
    /// so many F32 host inputs.
    pub fn check_run_on(&self, device: &Device, program: &Program, inputs: usize) -> (r: Result<
        (),
        Error,
    >)
        ensures
            r == unless_refused(
                run_refusal(
                    self.backends(),
                    device@,
                    program.form().input_types(),
                    inputs as nat,
                ),
                Ok(()),
            ),
    {
        if inputs != program.input_count() {
            return Err(err("input count mismatch"));
        }
        match self.backend_for_device(device) {
            Ok(_) => {},
            Err(e) => {
                return Err(e);
            },
        }
        if !program.takes_f32() {
            return Err(err("non-F32 inputs require run_buffers"));
        }
        Ok(())
    }

    /// Run a program on F32 host data: what was done counts only where the
    /// inputs are accepted.
    pub fn run_on<T>(
        &self,
        device: &Device,
        program: &Program,
        inputs: usize,
        outcome: Result<T, Error>,
    ) -> (r: Result<T, Error>)
        ensures
            r == unless_refused(
                run_refusal(
                    self.backends(),
                    device@,
                    program.form().input_types(),
                    inputs as nat,
                ),
                outcome,
            ),
    {
        self.check_run_on(device, program, inputs)?;
        outcome
    }

    /// Run a program on F32 host data on the default device.
    pub fn run<T>(&self, program: &Program, inputs: usize, outcome: Result<T, Error>) -> (r: Result<
        T,
        Error,
    >)
        ensures
            r == unless_refused(
                run_refusal(
                    self.backends(),
                    self.chosen(),
                    program.form().input_types(),
                    inputs as nat,
                ),
                outcome,
            ),
    {
        self.run_on(&self.default_device, program, inputs, outcome)
    }

    /// Check, before anything is executed, that every buffer lives on the device.
    pub fn check_run_buffers_on(&self, device: &Device, inputs: &[Residence]) -> (r: Result<
        (),
        Error,
    >)
        ensures
            r == unless_refused(
                run_buffers_refusal(self.backends(), device@, inputs@),
                Ok(()),
            ),
    {
        let client: u64 = self.client_on(device)?;
        let at = Residence { client, ordinal: device.ordinal };
        let mut i: usize = 0;
        while i < inputs.len()
            invariant
                i <= inputs@.len(),
                device_place(self.backends(), device@) matches Ok(k) && at == (Residence {
                    client: self.backends()[k].compiler.client,
                    ordinal: device@.ordinal,
                }),
                first_foreign(inputs@, at, i as nat) is None,
            decreases inputs@.len() - i,
        {
            if inputs[i].client != at.client || inputs[i].ordinal != at.ordinal {
                proof {
                    lemma_first_foreign(inputs@, at, (i + 1) as nat, inputs@.len());
                }
                return Err(Error::InputNotResident { index: i, device: device.named() });
            }
            i += 1;
        }
        Ok(())
    }

    /// Run a program on resident buffers: what was done counts only where every
    /// buffer lives on the device.
    pub fn run_buffers_on<T>(
        &self,
        device: &Device,
        inputs: &[Residence],
        outcome: Result<T, Error>,
    ) -> (r: Result<T, Error>)
        ensures
            r == unless_refused(
                run_buffers_refusal(self.backends(), device@, inputs@),
                outcome,
            ),
    {
        self.check_run_buffers_on(device, inputs)?;
        outcome
    }

    /// Run a program on resident buffers of the default device.
    pub fn run_buffers<T>(&self, inputs: &[Residence], outcome: Result<T, Error>) -> (r: Result<
        T,
        Error,
    >)
        ensures
            r == unless_refused(
                run_buffers_refusal(self.backends(), self.chosen(), inputs@),
                outcome,
            ),
    {
        self.run_buffers_on(&self.default_device, inputs, outcome)
    }

    /// Check, before anything is executed, that tensors have the types of a
    /// program's inputs.
    pub fn check_run_tensors_on(
        &self,
        device: &Device,
        program: &Program,
        inputs: &[TensorType],
    ) -> (r: Result<(), Error>)
        ensures
            r == unless_refused(
                run_tensors_refusal(
                    self.backends(),
                    device@,
                    program.form().input_types(),
                    types_view(inputs@),
                ),
                Ok(()),
            ),
    {
        let ghost types = program.form().input_types();
        let ghost models = types_view(inputs@);
        if inputs.len() != program.input_count() {
            return Err(err("input count mismatch"));
        }
        let mut i: usize = 0;
        while i < inputs.len()
            invariant
                types == program.form().input_types(),
                models == types_view(inputs@),
                types.len() == inputs@.len(),
                i <= inputs@.len(),
                first_unfit(types, models, i as nat) is None,
            decreases inputs@.len() - i,
        {
            assert(models[i as int] == inputs@[i as int]@);
            let fits: bool = match program.input_spec(i) {
                Some(expected) => inputs[i].dtype == expected.dtype && same_dims(
                    inputs[i].dims.as_slice(),
                    expected.shape,
                ),
                None => false,
            };
            if !fits {
                proof {
                    lemma_first_unfit(types, models, (i + 1) as nat, types.len());
                }
                return Err(Error::InputMetadata { index: i });
            }
            i += 1;
        }
        match self.backend_for_device(device) {
            Ok(_) => Ok(()),
            Err(e) => Err(e),
        }
    }

    /// Run a program on tensors: what was done counts only where they have the
    /// types of the inputs.
    pub fn run_tensors_on<T>(
        &self,
        device: &Device,
        program: &Program,
        inputs: &[TensorType],
        outcome: Result<T, Error>,
    ) -> (r: Result<T, Error>)
        ensures
            r == unless_refused(
                run_tensors_refusal(
                    self.backends(),
                    device@,
                    program.form().input_types(),
                    types_view(inputs@),
                ),
                outcome,
            ),
    {
        self.check_run_tensors_on(device, program, inputs)?;
        outcome
    }

    /// Run a program on tensors on the default device.
    pub fn run_tensors<T>(
        &self,
        program: &Program,
        inputs: &[TensorType],
        outcome: Result<T, Error>,
    ) -> (r: Result<T, Error>)
        ensures
            r == unless_refused(
                run_tensors_refusal(
                    self.backends(),
                    self.chosen(),
                    program.form().input_types(),
                    types_view(inputs@),
                ),
                outcome,
            ),
    {
        self.run_tensors_on(&self.default_device, program, inputs, outcome)
    }
}

/// The backends with cleared caches.
pub open spec fn cleared(backends: Seq<BackendModel>) -> Seq<BackendModel> {
    Seq::new(
        backends.len(),
        |k: int| BackendModel { compiler: backends[k].compiler.cleared(), ..backends[k] },
    )
}

/// Whether two lists of backends have the same names and devices.
spec fn alike(a: Seq<BackendModel>, b: Seq<BackendModel>) -> bool {
    a.len() == b.len() && forall|k: int|
        0 <= k < a.len() ==> (#[trigger] a[k]).name == b[k].name && a[k].devices == b[k].devices
            && a[k].infos == b[k].infos && a[k].default_ordinal == b[k].default_ordinal
}

/// Backends with the same names hold a name at the same place.
proof fn lemma_alike(a: Seq<BackendModel>, b: Seq<BackendModel>, name: Seq<char>, count: nat)
    requires
        alike(a, b),
        count <= a.len(),
    ensures
        place_of(a, name, count) == place_of(b, name, count),
    decreases count,
{
    if count > 0 {
        lemma_alike(a, b, name, (count - 1) as nat);
        assert(a[count - 1].name == b[count - 1].name);
    }
}

/// Backends with the same names and devices hold a device at the same place, in
/// the same order.
proof fn lemma_alike_devices(a: Seq<BackendModel>, b: Seq<BackendModel>, device: DeviceModel)
    requires
        alike(a, b),
    ensures
        device_place(a, device) == device_place(b, device),
        names_ascend(a) ==> names_ascend(b),
{
    lemma_alike(a, b, device.backend, a.len());
    lemma_place(a, device.backend, a.len());
    if names_ascend(a) {
        assert forall|i: int, j: int| 0 <= i < j < b.len() implies text_before(
            (#[trigger] b[i]).name,
            (#[trigger] b[j]).name,
        ) by {
            assert(a[i].name == b[i].name);
            assert(a[j].name == b[j].name);
        }
    }
}

/// A backend whose compiler changed keeps its place and its devices.
proof fn lemma_same_places(
    before: Seq<BackendModel>,
    after: Seq<BackendModel>,
    k: int,
    device: DeviceModel,
)
    requires
        0 <= k < before.len(),
        names_ascend(before),
        all_complete(before),
        after == before.update(k, after[k]),
        after[k].name == before[k].name,
        after[k].devices == before[k].devices,
        after[k].infos == before[k].infos,
        after[k].default_ordinal == before[k].default_ordinal,
        after[k].compiler.wf(),
    ensures
        names_ascend(after),
        all_complete(after),
        device_place(after, device) == device_place(before, device),
{
    lemma_alike_devices(before, after, device);
    assert forall|j: int| 0 <= j < after.len() implies complete(#[trigger] after[j]) by {
        assert(complete(before[j]));
    }
}

/// Clearing keeps names and devices.
proof fn lemma_cleared(before: Seq<BackendModel>, device: DeviceModel)
    requires
        names_ascend(before),
        all_complete(before),
    ensures
        names_ascend(cleared(before)),
        all_complete(cleared(before)),
        device_place(cleared(before), device) == device_place(before, device),
{
    let after = cleared(before);
    lemma_alike_devices(before, after, device);
    assert forall|j: int| 0 <= j < after.len() implies complete(#[trigger] after[j]) by {
        assert(complete(before[j]));
    }
}

impl Program {
    /// Whether every input is F32.
    pub fn takes_f32(&self) -> (r: bool)
        ensures
            r == (first_other(self.form().input_types(), self.form().input_types().len()) is None),
    {
        let ghost types = self.form().input_types();
        let total: usize = self.input_count();
        let mut i: usize = 0;
        while i < total
            invariant
                types == self.form().input_types(),
                total == types.len(),
                i <= total,
                first_other(types, i as nat) is None,
            decreases total - i,
        {
            let single: bool = match self.input_spec(i) {
                Some(spec) => spec.dtype == DType::F32,
                None => false,
            };
            if !single {
                proof {
                    crate::executable::lemma_first_other(types, (i + 1) as nat, types.len());
                }
                return false;
            }
            i += 1;
        }
        true
    }
}

impl TensorFunction {
    /// Check, before anything is executed, that the function can be called on a
    /// tensor of the given type.
    pub fn check_call(&self, runtime: &Runtime, input: &TensorType) -> (r: Result<(), Error>)
        ensures
            r == unless_refused(
                run_tensors_refusal(
                    runtime.backends(),
                    runtime.chosen(),
                    self.body().form().input_types(),
                    seq![input@],
                ),
                Ok(()),
            ),
    {
        let inputs: Vec<TensorType> = vec![input.duplicate()];
        assert(types_view(inputs@) =~= seq![input@]);
        runtime.check_run_tensors_on(&runtime.default_device, self.program(), inputs.as_slice())
    }

    /// Call the function on a tensor: what was done counts only where the tensor
    /// has the type of the input, and the first output comes back.
    pub fn call<T>(
        &self,
        runtime: &Runtime,
        input: &TensorType,
        outcome: Result<Vec<T>, Error>,
    ) -> (r: Result<T, Error>)
        ensures
            r == match unless_refused(
                run_tensors_refusal(
                    runtime.backends(),
                    runtime.chosen(),
                    self.body().form().input_types(),
                    seq![input@],
                ),
                outcome,
            ) {
                Err(e) => Err::<T, Error>(e),
                Ok(values) => if values@.len() == 0 {
                    Err(invalid("TensorFunction execution returned no output"))
                } else {
                    Ok(values@[0])
                },
            },
    {
        let inputs: Vec<TensorType> = vec![input.duplicate()];
        assert(types_view(inputs@) =~= seq![input@]);
        let mut values: Vec<T> = runtime.run_tensors(self.program(), inputs.as_slice(), outcome)?;
        if values.len() == 0 {
            return Err(err("TensorFunction execution returned no output"));
        }
        Ok(values.remove(0))
    }
}

/// What is known of a lazy tensor: its trace, and whether it has a value.
#[derive(Clone, Copy, PartialEq, Eq, Structural, Debug)]
pub struct LazyOutput {
    pub graph: u64,
    pub materialized: bool,
}

/// The positions, among the first `count`, of tensors without a value.
pub open spec fn pending_positions(outputs: Seq<LazyOutput>, count: nat) -> Seq<usize>
    decreases count,
{
    if count == 0 {
        Seq::empty()
    } else {
        let rest = pending_positions(outputs, (count - 1) as nat);
        if outputs[count - 1].materialized {
            rest
        } else {
            rest.push((count - 1) as usize)
        }
    }
}

/// Whether all the given tensors belong to the trace of the first of them.
pub open spec fn one_session(outputs: Seq<LazyOutput>, pending: Seq<usize>) -> bool {
    forall|k: int|
        0 <= k < pending.len() ==> outputs[#[trigger] pending[k] as int].graph
            == outputs[pending[0] as int].graph
}

/// The tensors that an evaluation has to compute together: those without a
/// value, which must belong to one trace.
pub fn pending_outputs(outputs: &[LazyOutput]) -> (r: Result<Vec<usize>, Error>)
    ensures
        ({
            let pending = pending_positions(outputs@, outputs@.len());
            match r {
                Ok(list) => list@ == pending && one_session(outputs@, pending),
                Err(e) => !one_session(outputs@, pending) && e == Error::LazySessionMismatch,
            }
        }),
{
    let mut list: Vec<usize> = Vec::new();
    let mut i: usize = 0;
    while i < outputs.len()
        invariant
            i <= outputs@.len(),
            list@ == pending_positions(outputs@, i as nat),
            forall|k: int| 0 <= k < list@.len() ==> #[trigger] list@[k] < i,
        decreases outputs@.len() - i,
    {
        if !outputs[i].materialized {
            list.push(i);
        }
        i += 1;
    }
    let mut k: usize = 0;
    while k < list.len()
        invariant
            k <= list@.len(),
            list@ == pending_positions(outputs@, outputs@.len()),
            forall|j: int| 0 <= j < list@.len() ==> #[trigger] list@[j] < outputs@.len(),
            forall|j: int|
                0 <= j < k ==> outputs@[#[trigger] list@[j] as int].graph
                    == outputs@[list@[0] as int].graph,
        decreases list@.len() - k,
    {
        assert(list@[0] < outputs@.len());
        assert(list@[k as int] < outputs@.len());
        if outputs[list[k]].graph != outputs[list[0]].graph {
            return Err(Error::LazySessionMismatch);
        }
        k += 1;
    }
    Ok(list)
}

/// A view of a runtime that routes operations to one device.
pub struct DeviceRuntime<'a> {
    pub runtime: &'a mut Runtime,
    pub device: Device,
}

impl Runtime {
    /// A view that routes operations to a registered device.
    pub fn on(&mut self, device: &Device) -> (r: Result<DeviceRuntime<'_>, Error>)
        requires
            old(self).wf(),
        ensures
            match r {
                Ok(view) => {
                    &&& view.wf()
                    &&& view.device@ == device@
                    &&& view.current() == *old(self)
                    &&& *final(view.runtime) == *final(self)
                },
                Err(e) => {
                    &&& device_place(old(self).backends(), device@) == Err::<int, Error>(e)
                    &&& *final(self) == *old(self)
                },
            },
    {
        match self.backend_for_device(device) {
            Ok(_) => {},
            Err(e) => {
                return Err(e);
            },
        }
        Ok(DeviceRuntime { runtime: self, device: device.duplicate() })
    }
}

impl<'a> DeviceRuntime<'a> {
    /// The runtime as it is now.
    pub open spec fn current(self) -> Runtime {
        *self.runtime
    }

    /// The device of the view is registered.
    pub open spec fn wf(self) -> bool {
        &&& self.current().wf()
        &&& device_place(self.current().backends(), self.device@) is Ok
    }

    /// The device.
    pub fn device(&self) -> (r: &Device)
        ensures
            *r == self.device,
    {
        &self.device
    }

    /// The client of the device.
    pub fn client(&self) -> (r: u64)
        requires
            self.wf(),
        ensures
            device_place(self.current().backends(), self.device@) matches Ok(k) && r
                == self.current().backends()[k].compiler.client,
    {
        match self.runtime.client_on(&self.device) {
            Ok(client) => client,
            Err(_) => vstd::pervasive::unreached(),
        }
    }

    /// What the cache of the device's backend has counted.
    pub fn stats(&self) -> (r: CacheStats)
        requires
            self.wf(),
        ensures
            device_place(self.current().backends(), self.device@) matches Ok(k) && r
                == self.current().backends()[k].compiler.cache.stats,
    {
        match self.runtime.stats_on(&self.device) {
            Ok(stats) => stats,
            Err(_) => vstd::pervasive::unreached(),
        }
    }

    /// Run a program on F32 host data.
    pub fn run<T>(&self, program: &Program, inputs: usize, outcome: Result<T, Error>) -> (r: Result<
        T,
        Error,
    >)
        ensures
            r == unless_refused(
                run_refusal(
                    self.current().backends(),
                    self.device@,
                    program.form().input_types(),
                    inputs as nat,
                ),
                outcome,
            ),
    {
        self.runtime.run_on(&self.device, program, inputs, outcome)
    }

    /// Run a program on resident buffers.
    pub fn run_buffers<T>(&self, inputs: &[Residence], outcome: Result<T, Error>) -> (r: Result<
        T,
        Error,
    >)
        ensures
            r == unless_refused(
                run_buffers_refusal(self.current().backends(), self.device@, inputs@),
                outcome,
            ),
    {
        self.runtime.run_buffers_on(&self.device, inputs, outcome)
    }

    /// Run a program on tensors.
    pub fn run_tensors<T>(
        &self,
        program: &Program,
        inputs: &[TensorType],
        outcome: Result<T, Error>,
    ) -> (r: Result<T, Error>)
        ensures
            r == unless_refused(
                run_tensors_refusal(
                    self.current().backends(),
                    self.device@,
                    program.form().input_types(),
                    types_view(inputs@),
                ),
                outcome,
            ),
    {
        self.runtime.run_tensors_on(&self.device, program, inputs, outcome)
    }

    /// Compile a program for the device.
    pub fn compile(&mut self, program: &Program, options: &[u8], outcome: BackendOutcome) -> (r:
        Result<u64, Error>)
        requires
            old(self).wf(),
        ensures
            final(self).device == old(self).device,
            final(self).wf(),
            compiles_to(
                old(self).current(),
                final(self).current(),
                old(self).device@,
                program.facts(),
                program_key("mlir"@, program.form().source()),
                options@,
                outcome,
                r,
            ),
    {
        let ghost before = self.current().backends();
        let r: Result<u64, Error> = self.runtime.compile_on(
            &self.device,
            program,
            options,
            outcome,
        );
        proof {
            let after = self.current().backends();
            lemma_place(before, self.device@.backend, before.len());
            assert(alike(before, after));
            lemma_alike_devices(before, after, self.device@);
        }
        r
    }
}

} // verus!
