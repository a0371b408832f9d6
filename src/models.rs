//! The infrastructure records that the replicated types hold.
use vstd::prelude::*;
use crate::list::{slot, List};

verus! {

/// How a GPU is attached.
#[derive(Debug, Clone, Copy, PartialEq, Eq)]
pub enum GPUBusType {
    PCIe,
    NVLink,
    ROCm,
    InfinityFabric,
}

/// A GPU.
#[derive(Debug, Clone, PartialEq, Eq)]
pub struct GPU {
    pub name: String,
    pub clock_ghz: i32,
    pub ram_gb: i32,
    pub bus_type: GPUBusType,
}

impl GPU {
    /// A GPU named `n` with clock rate `c` GHz, `r` GB of RAM and bus `b`.
    pub fn new(n: String, c: i32, r: i32, b: GPUBusType) -> (g: GPU)
        ensures
            g.name == n,
            g.clock_ghz == c,
            g.ram_gb == r,
            g.bus_type == b,
    {
        GPU { name: n, clock_ghz: c, ram_gb: r, bus_type: b }
    }
}

/// A network connection.
#[derive(Debug, PartialEq, Eq)]
pub struct InterConnect {
    pub name: String,
    pub speed_gb: i32,
    pub low_latency: bool,
}

impl InterConnect {
    /// An interconnect named `n` with speed `s` Gbps, low latency when `l`.
    pub fn new(n: String, s: i32, l: bool) -> (i: InterConnect)
        ensures
            i.name == n,
            i.speed_gb == s,
            i.low_latency == l,
    {
        InterConnect { name: n, speed_gb: s, low_latency: l }
    }

    /// A copy of this interconnect.
    pub fn clone(&self) -> (r: InterConnect)
        ensures
            r.name@ == self.name@,
            r.speed_gb == self.speed_gb,
            r.low_latency == self.low_latency,
    {
        InterConnect { name: self.name.clone(), speed_gb: self.speed_gb, low_latency: self.low_latency }
    }
}

impl Clone for InterConnect {
    fn clone(&self) -> (r: InterConnect)
        ensures
            r.name@ == self.name@,
            r.speed_gb == self.speed_gb,
            r.low_latency == self.low_latency,
    {
        InterConnect::clone(self)
    }
}

/// The kinds of disk.
#[derive(Debug, Clone, Copy, PartialEq, Eq)]
pub enum DiskType {
    Spinning,
    SolidState,
    NVMe,
}

impl DiskType {
    /// The disk type named `s`; an unknown name is a spinning disk.
    pub fn from_str(s: &str) -> (r: DiskType)
        ensures
            s@ == "solid_state"@ ==> r == DiskType::SolidState,
            s@ == "nvme"@ ==> r == DiskType::NVMe,
            s@ != "solid_state"@ && s@ != "nvme"@ ==> r == DiskType::Spinning,
    {
        proof {
            reveal_strlit("nvme");
            reveal_strlit("solid_state");
            assert("nvme"@.len() != "solid_state"@.len());
        }
        let name = s.to_owned();
        if name == "solid_state".to_owned() {
            DiskType::SolidState
        } else if name == "nvme".to_owned() {
            DiskType::NVMe
        } else {
            DiskType::Spinning
        }
    }
}

/// A disk.
#[derive(Debug, Clone, PartialEq, Eq)]
pub struct Disk {
    pub name: String,
    pub disk_type: DiskType,
    pub capacity_tb: i32,
    pub write_speed_mb: Option<i32>,
    pub read_speed_mb: Option<i32>,
    pub iops: Option<i32>,
}

impl Disk {
    /// A disk named `n` of type `t` holding `c` TB, with optional write and
    /// read speeds in MB/s and IOPS.
    pub fn new(
        n: String,
        t: DiskType,
        c: i32,
        w: Option<i32>,
        r: Option<i32>,
        i: Option<i32>,
    ) -> (d: Disk)
        ensures
            d.name == n,
            d.disk_type == t,
            d.capacity_tb == c,
            d.write_speed_mb == w,
            d.read_speed_mb == r,
            d.iops == i,
    {
        Disk { name: n, disk_type: t, capacity_tb: c, write_speed_mb: w, read_speed_mb: r, iops: i }
    }
}

/// A server.
#[derive(Debug, Clone, PartialEq, Eq)]
pub struct Compute {
    pub name: String,
    pub cores: i32,
    pub core_ghz: i32,
    pub ram_gb: i32,
    pub disks: Vec<Disk>,
    pub links: Vec<InterConnect>,
    pub gpus: Vec<GPU>,
}

impl Compute {
    /// A server named `n` with `c` cores at `g` GHz and `r` GB of RAM, and no
    /// disks, links or GPUs.
    pub fn new(n: String, c: i32, g: i32, r: i32) -> (s: Compute)
        ensures
            s.name == n,
            s.cores == c,
            s.core_ghz == g,
            s.ram_gb == r,
            s.disks@.len() == 0,
            s.links@.len() == 0,
            s.gpus@.len() == 0,
    {
        Compute { name: n, cores: c, core_ghz: g, ram_gb: r, disks: Vec::new(), links: Vec::new(), gpus: Vec::new() }
    }

    pub fn add_disk(&mut self, d: Disk)
        ensures
            final(self).disks@ == old(self).disks@.push(d),
            final(self).links == old(self).links,
            final(self).gpus == old(self).gpus,
    {
        self.disks.push(d);
    }

    pub fn add_link(&mut self, l: InterConnect)
        ensures
            final(self).links@ == old(self).links@.push(l),
            final(self).disks == old(self).disks,
            final(self).gpus == old(self).gpus,
    {
        self.links.push(l);
    }

    pub fn add_gpu(&mut self, g: GPU)
        ensures
            final(self).gpus@ == old(self).gpus@.push(g),
            final(self).disks == old(self).disks,
            final(self).links == old(self).links,
    {
        self.gpus.push(g);
    }
}

/// Storage, whose capacity is given or is that of its disks.
#[derive(Debug, Clone, PartialEq, Eq)]
pub struct Storage {
    pub name: String,
    pub disks: Option<Vec<Disk>>,
    pub capacity_gb: i32,
    pub links: Vec<InterConnect>,
}

impl Storage {
    /// Storage named `n` with optional disks `d` and capacity `c` GB.
    pub fn new(n: String, d: Option<Vec<Disk>>, c: i32) -> (s: Storage)
        ensures
            s.name == n,
            s.disks == d,
            s.capacity_gb == c,
            s.links@.len() == 0,
    {
        Storage { name: n, disks: d, capacity_gb: c, links: Vec::new() }
    }

    pub fn add_link(&mut self, l: InterConnect)
        ensures
            final(self).links@ == old(self).links@.push(l),
            final(self).disks == old(self).disks,
    {
        self.links.push(l);
    }
}

/// A Redis endpoint.
#[derive(Debug, Clone, PartialEq, Eq)]
pub struct RedisInstance {
    pub host: String,
    pub port: u16,
}

impl RedisInstance {
    pub fn new(host: String, port: u16) -> (r: RedisInstance)
        ensures
            r.host == host,
            r.port == port,
    {
        RedisInstance { host, port }
    }
}

/// The outcome of a claim.
#[derive(Debug, Clone, Copy, PartialEq, Eq)]
pub enum ResponseType {
    Success,
    ResourceFailure,
    PlannerFailure,
}

/// The response to a claim.
#[derive(Debug, Clone, PartialEq, Eq)]
pub struct ClaimResponse {
    pub result: ResponseType,
    pub message: String,
}

/// Logging settings.
#[derive(Debug, Clone, PartialEq, Eq)]
pub struct Log {
    pub level: String,
}

/// Loaded settings.
#[derive(Debug, Clone, PartialEq, Eq)]
pub struct Settings {
    pub log: Log,
}

/// A record with a name.
pub trait Named {
    spec fn name_view(&self) -> Seq<char>;

    fn name_ref(&self) -> (r: &String)
        ensures
            r@ == self.name_view(),
    ;
}

impl Named for Compute {
    open spec fn name_view(&self) -> Seq<char> {
        self.name@
    }

    fn name_ref(&self) -> (r: &String) {
        &self.name
    }
}

impl Named for Storage {
    open spec fn name_view(&self) -> Seq<char> {
        self.name@
    }

    fn name_ref(&self) -> (r: &String) {
        &self.name
    }
}

impl Named for InterConnect {
    open spec fn name_view(&self) -> Seq<char> {
        self.name@
    }

    fn name_ref(&self) -> (r: &String) {
        &self.name
    }
}

impl Named for DataCentre {
    open spec fn name_view(&self) -> Seq<char> {
        self.name@
    }

    fn name_ref(&self) -> (r: &String) {
        &self.name
    }
}

/// The position of the first element of `list` named `name`.
fn position_named<T: Named>(list: &List<T>, name: &str) -> (r: Option<usize>)
    ensures
        r matches Some(i) ==> i < list.elements().len() && list.elements()[i as int].name_view()
            == name@ && forall|j: int| 0 <= j < i ==> list.elements()[j].name_view() != name@,
        r is None ==> forall|j: int|
            0 <= j < list.elements().len() ==> list.elements()[j].name_view() != name@,
{
    let wanted = name.to_owned();
    let mut i: usize = 0;
    while i < list.len()
        invariant
            wanted@ == name@,
            i <= list.elements().len(),
            forall|j: int| 0 <= j < i ==> list.elements()[j].name_view() != name@,
        decreases list.elements().len() - i,
    {
        match list.pos(i) {
            Some(element) => {
                assert(*element == list.elements()[i as int]);
                if *element.name_ref() == wanted {
                    return Some(i);
                }
            },
            None => {},
        }
        i = i + 1;
    }
    None
}

/// The first element of `list` named `name`.
fn find_named<'a, T: Named>(list: &'a List<T>, name: &str) -> (r: Option<&'a T>)
    ensures
        r matches Some(e) ==> e.name_view() == name@ && exists|i: int|
            0 <= i < list.elements().len() && list.elements()[i] == *e,
        r is None ==> forall|j: int|
            0 <= j < list.elements().len() ==> list.elements()[j].name_view() != name@,
{
    match position_named(list, name) {
        Some(i) => {
            let e = list.pos(i);
            proof {
                assert(list.elements()[i as int] == list@[i as int].1);
            }
            e
        },
        None => None,
    }
}

/// Appends `element` to `list` as an event of `actor`, unless that actor's
/// counter is exhausted.
fn append_to<T>(list: &mut List<T>, element: T, actor: u64)
    requires
        old(list).wf(),
    ensures
        final(list).wf(),
        old(list).seen(actor) < u64::MAX ==> final(list).elements() == old(list).elements().push(
            element,
        ),
        old(list).seen(actor) == u64::MAX ==> final(list)@ == old(list)@,
{
    if list.counter(actor) < u64::MAX {
        let ghost before = list@;
        let op = list.append(element, actor);
        let ghost id = op->Insert_id;
        proof {
            assert(op.spec_version() == crate::version::Version { actor: id@.last().1.actor, counter: id@.last().1.counter });
            assert(op.spec_version().counter > crate::vector_clock::clock_get(list.spec_clock(), op.spec_version().actor));
            assert(slot(before, id@, before.len() as int));
        }
        list.apply(op);
        proof {
            assert(list@ == before.insert(before.len() as int, (id@, element)));
            assert(list.elements() =~= old(list).elements().push(element));
        }
    }
}

/// Deletes the first element of `list` named `name`, as an event of the
/// actor numbered by its position.
fn remove_named<T: Named>(list: &mut List<T>, name: &str)
    requires
        old(list).wf(),
    ensures
        final(list).wf(),
        (forall|j: int|
            0 <= j < old(list).elements().len() ==> old(list).elements()[j].name_view() != name@)
            ==> final(list)@ == old(list)@,
{
    if let Some(i) = position_named(list, name) {
        let actor = i as u64;
        if list.counter(actor) < u64::MAX {
            if let Some(op) = list.delete_index(i, actor) {
                list.apply(op);
            }
        }
    }
}

/// A data centre: its servers, storage and interconnects, each a replicated
/// list.
#[derive(Debug)]
pub struct DataCentre {
    pub name: String,
    pub compute: List<Compute>,
    pub storage: List<Storage>,
    pub interconnects: List<InterConnect>,
}

impl PartialEq for DataCentre {
    fn eq(&self, other: &DataCentre) -> (r: bool) {
        self.name == other.name
    }
}

impl vstd::std_specs::cmp::PartialEqSpecImpl for DataCentre {
    open spec fn obeys_eq_spec() -> bool {
        true
    }

    open spec fn eq_spec(&self, other: &DataCentre) -> bool {
        self.name@ == other.name@
    }
}

/// The next actor number after `n`, saturating.
fn next_actor(n: usize) -> (r: u64)
    ensures
        r == next_actor_spec(n as nat),
{
    if (n as u64) < u64::MAX {
        n as u64 + 1
    } else {
        u64::MAX
    }
}

impl DataCentre {
    pub open spec fn wf(&self) -> bool {
        self.compute.wf() && self.storage.wf() && self.interconnects.wf()
    }

    /// An empty data centre named `n`.
    pub fn new(n: String) -> (r: DataCentre)
        ensures
            r.wf(),
            r.name == n,
            r.compute@.len() == 0,
            r.storage@.len() == 0,
            r.interconnects@.len() == 0,
    {
        DataCentre { name: n, compute: List::new(), storage: List::new(), interconnects: List::new() }
    }

    /// Appends a server, as an event of the actor after the server count.
    pub fn add_compute(&mut self, c: Compute)
        requires
            old(self).wf(),
        ensures
            final(self).wf(),
            old(self).compute.seen(next_actor_spec(old(self).compute@.len())) < u64::MAX ==> final(self).compute.elements() == old(self).compute.elements().push(c),
    {
        let actor = next_actor(self.compute.len());
        append_to(&mut self.compute, c, actor);
    }

    /// Appends storage, as an event of the actor after the server count.
    pub fn add_storage(&mut self, s: Storage)
        requires
            old(self).wf(),
        ensures
            final(self).wf(),
            old(self).storage.seen(next_actor_spec(old(self).compute@.len())) < u64::MAX ==> final(self).storage.elements() == old(self).storage.elements().push(s),
    {
        let actor = next_actor(self.compute.len());
        append_to(&mut self.storage, s, actor);
    }

    /// Appends an interconnect, as an event of the actor after the server
    /// count.
    pub fn add_interconnect(&mut self, i: InterConnect)
        requires
            old(self).wf(),
        ensures
            final(self).wf(),
            old(self).interconnects.seen(next_actor_spec(old(self).compute@.len())) < u64::MAX
                ==> final(self).interconnects.elements() == old(self).interconnects.elements().push(
                i,
            ),
    {
        let actor = next_actor(self.compute.len());
        append_to(&mut self.interconnects, i, actor);
    }

    /// The first server named `name`.
    pub fn get_compute(&self, name: &str) -> (r: Option<&Compute>)
        ensures
            r matches Some(c) ==> c.name@ == name@,
            r is None ==> forall|j: int|
                0 <= j < self.compute.elements().len() ==> self.compute.elements()[j].name@ != name@,
    {
        find_named(&self.compute, name)
    }

    /// The first storage named `name`.
    pub fn get_storage(&self, name: &str) -> (r: Option<&Storage>)
        ensures
            r matches Some(c) ==> c.name@ == name@,
            r is None ==> forall|j: int|
                0 <= j < self.storage.elements().len() ==> self.storage.elements()[j].name@ != name@,
    {
        find_named(&self.storage, name)
    }

    /// The first interconnect named `name`.
    pub fn get_interconnect(&self, name: &str) -> (r: Option<&InterConnect>)
        ensures
            r matches Some(c) ==> c.name@ == name@,
            r is None ==> forall|j: int|
                0 <= j < self.interconnects.elements().len() ==> self.interconnects.elements()[j].name@
                    != name@,
    {
        find_named(&self.interconnects, name)
    }

    /// Deletes the first server named `name`.
    pub fn remove_compute(&mut self, name: &str)
        requires
            old(self).wf(),
        ensures
            final(self).wf(),
            (forall|j: int|
                0 <= j < old(self).compute.elements().len() ==> old(self).compute.elements()[j].name@
                    != name@) ==> final(self).compute@ == old(self).compute@,
    {
        remove_named(&mut self.compute, name);
    }

    /// Deletes the first storage named `name`.
    pub fn remove_storage(&mut self, name: &str)
        requires
            old(self).wf(),
        ensures
            final(self).wf(),
            (forall|j: int|
                0 <= j < old(self).storage.elements().len() ==> old(self).storage.elements()[j].name@
                    != name@) ==> final(self).storage@ == old(self).storage@,
    {
        remove_named(&mut self.storage, name);
    }

    /// Deletes the first interconnect named `name`.
    pub fn remove_interconnect(&mut self, name: &str)
        requires
            old(self).wf(),
        ensures
            final(self).wf(),
            (forall|j: int|
                0 <= j < old(self).interconnects.elements().len()
                    ==> old(self).interconnects.elements()[j].name@ != name@) ==> final(self).interconnects@ == old(self).interconnects@,
    {
        remove_named(&mut self.interconnects, name);
    }
}

/// The actor number after `n`, saturating.
pub open spec fn next_actor_spec(n: nat) -> u64 {
    if n < u64::MAX {
        (n + 1) as u64
    } else {
        u64::MAX
    }
}

/// The data centres of an infrastructure, as a replicated list.
#[derive(Debug)]
pub struct LogicalInfrastructure {
    pub data_centres: List<DataCentre>,
}

impl LogicalInfrastructure {
    pub fn new() -> (r: LogicalInfrastructure)
        ensures
            r.data_centres.wf(),
            r.data_centres@.len() == 0,
    {
        LogicalInfrastructure { data_centres: List::new() }
    }

    /// Appends a data centre, as an event of the actor after their count.
    pub fn add_data_centre(&mut self, dc: DataCentre)
        requires
            old(self).data_centres.wf(),
        ensures
            final(self).data_centres.wf(),
            old(self).data_centres.seen(next_actor_spec(old(self).data_centres@.len())) < u64::MAX
                ==> final(self).data_centres.elements() == old(self).data_centres.elements().push(
                dc,
            ),
    {
        let actor = next_actor(self.data_centres.len());
        append_to(&mut self.data_centres, dc, actor);
    }

    /// The first data centre named `name`.
    pub fn get_data_centre(&self, name: &str) -> (r: Option<&DataCentre>)
        ensures
            r matches Some(c) ==> c.name@ == name@,
            r is None ==> forall|j: int|
                0 <= j < self.data_centres.elements().len() ==> self.data_centres.elements()[j].name@
                    != name@,
    {
        find_named(&self.data_centres, name)
    }

    /// Deletes the first data centre named `name`.
    pub fn remove_data_centre(&mut self, name: &str)
        requires
            old(self).data_centres.wf(),
        ensures
            final(self).data_centres.wf(),
            (forall|j: int|
                0 <= j < old(self).data_centres.elements().len()
                    ==> old(self).data_centres.elements()[j].name@ != name@) ==> final(self).data_centres@ == old(self).data_centres@,
    {
        remove_named(&mut self.data_centres, name);
    }
}

} // verus!
