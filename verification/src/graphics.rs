//! The decisions the renderer makes while it sets up a Vulkan device and a
//! swapchain: which instance extensions to ask for, which device to use,
//! which queue families serve graphics, transfers and presentation, and how
//! large the swapchain images are.
use crate::vulkan::VkError;
use vstd::prelude::*;

verus! {

/// `VkPhysicalDeviceType` of a discrete GPU.
pub const VK_PHYSICAL_DEVICE_TYPE_DISCRETE_GPU: i32 = 2;

/// Queue family capability bits.
pub const VK_QUEUE_GRAPHICS_BIT: u32 = 1;

pub const VK_QUEUE_COMPUTE_BIT: u32 = 2;

pub const VK_QUEUE_TRANSFER_BIT: u32 = 4;

/// The current extent a surface reports when the swapchain decides its size.
pub const SURFACE_EXTENT_UNDEFINED: u32 = 0xFFFF_FFFF;

#[derive(Debug)]
pub enum GraphicsCreateError {
    VkError(VkError),
    RequredInstanceExtensionWasNotFound(String),
    NoCompatableVulkanDevice,
    MissingRequiredVulkanQueueType(&'static str),
}

impl From<VkError> for GraphicsCreateError {
    fn from(err: VkError) -> (r: Self) {
        GraphicsCreateError::VkError(err)
    }
}

impl vstd::std_specs::convert::FromSpecImpl<VkError> for GraphicsCreateError {
    open spec fn obeys_from_spec() -> bool {
        true
    }

    open spec fn from_spec(err: VkError) -> Self {
        GraphicsCreateError::VkError(err)
    }
}

#[derive(Debug, PartialEq, Eq, Structural)]
pub enum PipelineCreateError {
    VkError(VkError),
}

impl From<VkError> for PipelineCreateError {
    fn from(err: VkError) -> (r: Self) {
        PipelineCreateError::VkError(err)
    }
}

impl vstd::std_specs::convert::FromSpecImpl<VkError> for PipelineCreateError {
    open spec fn obeys_from_spec() -> bool {
        true
    }

    open spec fn from_spec(err: VkError) -> Self {
        PipelineCreateError::VkError(err)
    }
}

#[derive(Debug, PartialEq, Eq, Structural)]
pub enum WindowCreateError {
    FailedToCreateWindow,
}

/// State the window procedure of a window can reach.
pub struct WindowProcState {
    pub message: String,
}

/// Compiled shader code.
pub struct SpirvModule {
    pub bytecode: Vec<u8>,
}

/// The size of a surface or a swapchain image.
#[derive(Clone, Copy, Debug, PartialEq, Eq, Structural)]
pub struct Extent2D {
    pub width: u32,
    pub height: u32,
}

// ----- Instance extensions -----

/// `name` occurs in `names`.
pub open spec fn listed(names: Seq<String>, name: String) -> bool {
    exists|i: int| 0 <= i < names.len() && (#[trigger] names[i])@ == name@
}

/// Whether `name` occurs in `names`.
pub fn is_listed(names: &Vec<String>, name: &String) -> (r: bool)
    ensures
        r == listed(names@, *name),
{
    let mut i: usize = 0;
    while i < names.len()
        invariant
            i <= names@.len(),
            forall|j: int| 0 <= j < i ==> (#[trigger] names@[j])@ != name@,
        decreases names@.len() - i,
    {
        if names[i] == *name {
            return true;
        }
        i = i + 1;
    }
    false
}

/// The instance extensions the renderer asks for: in a debug build the
/// validation layer (only when it is offered) and the debug utilities; on
/// Windows the surface extensions.
pub open spec fn spec_instance_extensions(available: Seq<String>, debug_build: bool, windows: bool) -> Seq<Seq<char>> {
    let debug: Seq<Seq<char>> = if !debug_build {
        seq![]
    } else if exists|i: int| 0 <= i < available.len() && (#[trigger] available[i])@ == "VK_LAYER_KHRONOS_validation"@ {
        seq!["VK_LAYER_KHRONOS_validation"@, "VK_EXT_debug_utils"@]
    } else {
        seq!["VK_EXT_debug_utils"@]
    };
    let surface: Seq<Seq<char>> = if windows {
        seq!["VK_KHR_surface"@, "VK_KHR_win32_surface"@]
    } else {
        seq![]
    };
    debug + surface
}

/// The surface extensions are requested exactly on Windows, whatever the
/// build; the debug utilities exactly in a debug build; the validation layer
/// exactly in a debug build where the loader offers it; nothing else, and
/// nothing twice.
pub proof fn lemma_instance_extensions(available: Seq<String>, debug_build: bool, windows: bool)
    ensures
        ({
            let r = spec_instance_extensions(available, debug_build, windows);
            let offered = exists|i: int|
                0 <= i < available.len() && (#[trigger] available[i])@ == "VK_LAYER_KHRONOS_validation"@;
            &&& r.contains("VK_KHR_surface"@) <==> windows
            &&& r.contains("VK_KHR_win32_surface"@) <==> windows
            &&& r.contains("VK_EXT_debug_utils"@) <==> debug_build
            &&& r.contains("VK_LAYER_KHRONOS_validation"@) <==> debug_build && offered
            &&& r.len() == (if windows { 2int } else { 0int }) + (if debug_build { 1int } else { 0int }) + (if debug_build
                && offered { 1int } else { 0int })
            &&& r.no_duplicates()
            &&& windows ==> r[r.len() - 2] == "VK_KHR_surface"@ && r[r.len() - 1] == "VK_KHR_win32_surface"@
            &&& debug_build && offered ==> r[0] == "VK_LAYER_KHRONOS_validation"@ && r[1] == "VK_EXT_debug_utils"@
            &&& debug_build && !offered ==> r[0] == "VK_EXT_debug_utils"@
        }),
{
    reveal_strlit("VK_KHR_surface");
    reveal_strlit("VK_KHR_win32_surface");
    reveal_strlit("VK_EXT_debug_utils");
    reveal_strlit("VK_LAYER_KHRONOS_validation");
    let r = spec_instance_extensions(available, debug_build, windows);
    let surface = "VK_KHR_surface"@;
    let win32 = "VK_KHR_win32_surface"@;
    let debug = "VK_EXT_debug_utils"@;
    let validation = "VK_LAYER_KHRONOS_validation"@;
    assert(surface.len() == 14 && win32.len() == 20 && debug.len() == 18 && validation.len() == 27);
    let names = seq![surface, win32, debug, validation];
    assert forall|i: int| 0 <= i < r.len() implies names.contains(#[trigger] r[i]) by {
        assert(names[0] == surface && names[1] == win32 && names[2] == debug && names[3] == validation);
    }
    if windows {
        assert(r[r.len() - 2] == surface);
        assert(r[r.len() - 1] == win32);
    }
    if debug_build {
        if exists|i: int| 0 <= i < available.len() && (#[trigger] available[i])@ == validation {
            assert(r[0] == validation);
            assert(r[1] == debug);
        } else {
            assert(r[0] == debug);
        }
    }
}

/// The names of the instance extensions to request, given the extensions
/// the Vulkan loader offers.
pub fn instance_extensions(available: &Vec<String>, debug_build: bool, windows: bool) -> (r: Vec<String>)
    ensures
        r@.map_values(|e: String| e@) == spec_instance_extensions(available@, debug_build, windows),
{
    let mut extensions: Vec<String> = Vec::new();
    if debug_build {
        let validation = String::from_str("VK_LAYER_KHRONOS_validation");
        if is_listed(available, &validation) {
            extensions.push(validation);
        }
        extensions.push(String::from_str("VK_EXT_debug_utils"));
    }
    if windows {
        extensions.push(String::from_str("VK_KHR_surface"));
        extensions.push(String::from_str("VK_KHR_win32_surface"));
    }
    proof {
        assert(extensions@.map_values(|e: String| e@) =~= spec_instance_extensions(available@, debug_build, windows));
    }
    extensions
}

/// The first requested extension the loader does not offer, if any.
pub open spec fn first_missing(available: Seq<String>, requested: Seq<String>, k: int) -> bool {
    &&& 0 <= k < requested.len()
    &&& !listed(available, requested[k])
    &&& forall|j: int| 0 <= j < k ==> listed(available, #[trigger] requested[j])
}

/// Succeeds when every requested extension is offered; otherwise reports
/// the first one that is not.
pub fn check_instance_extensions(available: &Vec<String>, requested: &Vec<String>) -> (r: Result<(), GraphicsCreateError>)
    ensures
        r is Ok <==> forall|j: int| 0 <= j < requested@.len() ==> listed(available@, #[trigger] requested@[j]),
        r is Err ==> exists|k: int|
            first_missing(available@, requested@, k) && r == Err::<(), GraphicsCreateError>(
                GraphicsCreateError::RequredInstanceExtensionWasNotFound(requested@[k]),
            ),
{
    let mut k: usize = 0;
    while k < requested.len()
        invariant
            k <= requested@.len(),
            forall|j: int| 0 <= j < k ==> listed(available@, #[trigger] requested@[j]),
        decreases requested@.len() - k,
    {
        if !is_listed(available, &requested[k]) {
            let name = requested[k].clone();
            proof {
                assert(first_missing(available@, requested@, k as int));
            }
            return Err(GraphicsCreateError::RequredInstanceExtensionWasNotFound(name));
        }
        k = k + 1;
    }
    Ok(())
}

// ----- Physical device -----

/// How much the renderer wants a device of this type.
pub open spec fn device_score(device_type: i32) -> int {
    if device_type == VK_PHYSICAL_DEVICE_TYPE_DISCRETE_GPU {
        10001
    } else {
        1
    }
}

/// The device the renderer picks: the first one with the best score.
pub open spec fn best_device(device_types: Seq<i32>, i: int) -> bool {
    &&& 0 <= i < device_types.len()
    &&& forall|j: int| 0 <= j < device_types.len() ==> device_score(#[trigger] device_types[j]) <= device_score(device_types[i])
    &&& forall|j: int| 0 <= j < i ==> device_score(#[trigger] device_types[j]) < device_score(device_types[i])
}

/// The renderer takes the first discrete GPU (device type 2) when there is
/// one, whatever devices come before it; when there is none, it takes the
/// first device.
pub proof fn lemma_device_choice(device_types: Seq<i32>, i: int)
    requires
        best_device(device_types, i),
    ensures
        (exists|j: int| 0 <= j < device_types.len() && #[trigger] device_types[j] == 2) ==> {
            &&& device_types[i] == 2
            &&& forall|j: int| 0 <= j < i ==> #[trigger] device_types[j] != 2
        },
        (forall|j: int| 0 <= j < device_types.len() ==> #[trigger] device_types[j] != 2) ==> i == 0,
{
    if exists|j: int| 0 <= j < device_types.len() && #[trigger] device_types[j] == 2 {
        let j = choose|j: int| 0 <= j < device_types.len() && #[trigger] device_types[j] == 2;
        assert(device_score(device_types[j]) <= device_score(device_types[i]));
        assert forall|k: int| 0 <= k < i implies #[trigger] device_types[k] != 2 by {
            assert(device_score(device_types[k]) < device_score(device_types[i]));
        }
    }
    if forall|j: int| 0 <= j < device_types.len() ==> #[trigger] device_types[j] != 2 {
        if i > 0 {
            assert(device_score(device_types[0]) < device_score(device_types[i]));
        }
    }
}

/// Rates the devices by type and picks the first of the best; fails when
/// there is no device.
pub fn select_physical_device(device_types: &Vec<i32>) -> (r: Result<usize, GraphicsCreateError>)
    ensures
        r matches Ok(i) ==> best_device(device_types@, i as int),
        r is Err <==> device_types@.len() == 0,
        r is Err ==> r matches Err(GraphicsCreateError::NoCompatableVulkanDevice),
{
    let mut best_device: Option<usize> = None;
    let mut best_score: u32 = 0;
    let mut i: usize = 0;
    while i < device_types.len()
        invariant
            i <= device_types@.len(),
            i == 0 <==> best_device is None,
            best_device matches Some(b) ==> {
                &&& b < i
                &&& best_score == device_score(device_types@[b as int])
                &&& forall|j: int| 0 <= j < i ==> device_score(#[trigger] device_types@[j]) <= best_score
                &&& forall|j: int| 0 <= j < b ==> device_score(#[trigger] device_types@[j]) < best_score
            },
            best_device is None ==> best_score == 0,
        decreases device_types@.len() - i,
    {
        let mut score: u32 = 1;
        // If this is an actual graphics card we want it
        if device_types[i] == VK_PHYSICAL_DEVICE_TYPE_DISCRETE_GPU {
            score += 10000;
        }
        if score > best_score {
            best_device = Some(i);
            best_score = score;
        }
        i = i + 1;
    }
    match best_device {
        Some(gpu) => Ok(gpu),
        None => Err(GraphicsCreateError::NoCompatableVulkanDevice),
    }
}

// ----- Queue families -----

/// The family has any of the capability bits in `mask`.
pub open spec fn has_bits(flags: u32, mask: u32) -> bool {
    flags & mask != 0
}

/// The first family index in `families` for which `pred` holds.
pub open spec fn first_family(families: Seq<u32>, pred: spec_fn(u32) -> bool, i: int) -> bool {
    &&& 0 <= i < families.len()
    &&& pred(families[i])
    &&& forall|j: int| 0 <= j < i ==> !pred(#[trigger] families[j])
}

/// The family that runs graphics work: the first one with the graphics bit.
pub fn graphics_queue_family(queue_flags: &Vec<u32>) -> (r: Result<usize, GraphicsCreateError>)
    ensures
        r matches Ok(i) ==> first_family(queue_flags@, |f: u32| has_bits(f, VK_QUEUE_GRAPHICS_BIT), i as int),
        r is Err <==> forall|j: int| 0 <= j < queue_flags@.len() ==> !has_bits(#[trigger] queue_flags@[j], VK_QUEUE_GRAPHICS_BIT),
        r is Err ==> (r matches Err(GraphicsCreateError::MissingRequiredVulkanQueueType(t)) && t@ == "VK_QUEUE_GRAPHICS_BIT"@),
{
    let mut i: usize = 0;
    while i < queue_flags.len()
        invariant
            i <= queue_flags@.len(),
            forall|j: int| 0 <= j < i ==> !has_bits(#[trigger] queue_flags@[j], VK_QUEUE_GRAPHICS_BIT),
        decreases queue_flags@.len() - i,
    {
        if (queue_flags[i] & VK_QUEUE_GRAPHICS_BIT) > 0 {
            return Ok(i);
        }
        i = i + 1;
    }
    Err(GraphicsCreateError::MissingRequiredVulkanQueueType("VK_QUEUE_GRAPHICS_BIT"))
}

/// A family only for transfers: the transfer bit without the graphics or
/// compute bits.
pub open spec fn dedicated_transfer(flags: u32) -> bool {
    has_bits(flags, VK_QUEUE_TRANSFER_BIT) && !has_bits(flags, VK_QUEUE_COMPUTE_BIT | VK_QUEUE_GRAPHICS_BIT)
}

/// The family that runs transfers: the first dedicated transfer family, or
/// else the first family with the transfer bit.
pub fn transfer_queue_family(queue_flags: &Vec<u32>) -> (r: Result<usize, GraphicsCreateError>)
    ensures
        (exists|j: int| 0 <= j < queue_flags@.len() && dedicated_transfer(#[trigger] queue_flags@[j])) ==> (
        r matches Ok(i) && first_family(queue_flags@, |f: u32| dedicated_transfer(f), i as int)),
        !(exists|j: int| 0 <= j < queue_flags@.len() && dedicated_transfer(#[trigger] queue_flags@[j])) ==> (
        r matches Ok(i) ==> first_family(queue_flags@, |f: u32| has_bits(f, VK_QUEUE_TRANSFER_BIT), i as int)),
        r is Err <==> forall|j: int| 0 <= j < queue_flags@.len() ==> !has_bits(#[trigger] queue_flags@[j], VK_QUEUE_TRANSFER_BIT),
        r is Err ==> (r matches Err(GraphicsCreateError::MissingRequiredVulkanQueueType(t)) && t@ == "VK_QUEUE_TRANSFER_BIT"@),
{
    let mut i: usize = 0;
    while i < queue_flags.len()
        invariant
            i <= queue_flags@.len(),
            forall|j: int| 0 <= j < i ==> !dedicated_transfer(#[trigger] queue_flags@[j]),
        decreases queue_flags@.len() - i,
    {
        let supports_transfers = (queue_flags[i] & VK_QUEUE_TRANSFER_BIT) > 0;
        let has_other_functions = (queue_flags[i] & (VK_QUEUE_COMPUTE_BIT | VK_QUEUE_GRAPHICS_BIT)) > 0;
        if supports_transfers && !has_other_functions {
            return Ok(i);
        }
        i = i + 1;
    }
    let mut i: usize = 0;
    while i < queue_flags.len()
        invariant
            i <= queue_flags@.len(),
            forall|j: int| 0 <= j < queue_flags@.len() ==> !dedicated_transfer(#[trigger] queue_flags@[j]),
            forall|j: int| 0 <= j < i ==> !has_bits(#[trigger] queue_flags@[j], VK_QUEUE_TRANSFER_BIT),
        decreases queue_flags@.len() - i,
    {
        if (queue_flags[i] & VK_QUEUE_TRANSFER_BIT) > 0 {
            return Ok(i);
        }
        i = i + 1;
    }
    Err(GraphicsCreateError::MissingRequiredVulkanQueueType("VK_QUEUE_TRANSFER_BIT"))
}

/// The family that presents to the window: the first family whose support
/// query answers yes. A failed query before that fails the search.
pub fn present_queue_family(support: &Vec<Result<bool, VkError>>) -> (r: Result<usize, GraphicsCreateError>)
    ensures
        r matches Ok(i) ==> {
            &&& 0 <= i < support@.len()
            &&& support@[i as int] == Ok::<bool, VkError>(true)
            &&& forall|j: int| 0 <= j < i ==> (#[trigger] support@[j]) == Ok::<bool, VkError>(false)
        },
        r matches Err(GraphicsCreateError::VkError(e)) ==> exists|i: int|
            0 <= i < support@.len() && support@[i] == Err::<bool, VkError>(e) && forall|j: int|
                0 <= j < i ==> (#[trigger] support@[j]) == Ok::<bool, VkError>(false),
        r matches Err(GraphicsCreateError::MissingRequiredVulkanQueueType(t)) ==> (t@ == "present queue"@
            && forall|j: int| 0 <= j < support@.len() ==> (#[trigger] support@[j]) == Ok::<bool, VkError>(false)),
        r is Err ==> r matches Err(GraphicsCreateError::VkError(_)) || r matches Err(
            GraphicsCreateError::MissingRequiredVulkanQueueType(_),
        ),
{
    let mut i: usize = 0;
    while i < support.len()
        invariant
            i <= support@.len(),
            forall|j: int| 0 <= j < i ==> (#[trigger] support@[j]) == Ok::<bool, VkError>(false),
        decreases support@.len() - i,
    {
        match &support[i] {
            Err(err) => {
                let e = *err;
                return Err(GraphicsCreateError::VkError(e));
            },
            Ok(true) => {
                return Ok(i);
            },
            Ok(false) => {},
        }
        i = i + 1;
    }
    Err(GraphicsCreateError::MissingRequiredVulkanQueueType("present queue"))
}

// ----- Queues to create -----

/// Queues to create in one family.
#[derive(Clone, Copy, Debug, PartialEq, Eq, Structural)]
pub struct QueueRequest {
    pub family: usize,
    pub count: u32,
}

/// The queues the logical device is created with, and where the transfer
/// and present queues are found among them.
pub struct QueuePlan {
    pub requests: Vec<QueueRequest>,
    /// The index of the transfer queue within its family.
    pub transfer_queue_index: u32,
    /// The present family and the index of the present queue within it.
    pub present: Option<(usize, u32)>,
}

/// The requests for the graphics and transfer queues: one queue in each
/// family, or two in one family that does both.
pub open spec fn base_requests(graphics: usize, transfer: usize) -> Seq<QueueRequest> {
    if transfer != graphics {
        seq![QueueRequest { family: graphics, count: 1 }, QueueRequest { family: transfer, count: 1 }]
    } else {
        seq![QueueRequest { family: graphics, count: 2 }]
    }
}

/// The plan: a present family shares the graphics family if it can, else
/// the transfer family, else gets a request of its own; the present queue
/// takes the next free index in its family.
pub open spec fn spec_queue_plan(graphics: usize, transfer: usize, present: Option<usize>) -> (
    Seq<QueueRequest>,
    u32,
    Option<(usize, u32)>,
) {
    let base = base_requests(graphics, transfer);
    let transfer_queue_index: u32 = if transfer != graphics { 0 } else { 1 };
    match present {
        None => (base, transfer_queue_index, None),
        Some(f) => if f == graphics {
            (
                base.update(0, QueueRequest { family: graphics, count: (base[0].count + 1) as u32 }),
                transfer_queue_index,
                Some((f, base[0].count)),
            )
        } else if f == transfer {
            (
                base.update(1, QueueRequest { family: transfer, count: (base[1].count + 1) as u32 }),
                transfer_queue_index,
                Some((f, base[1].count)),
            )
        } else {
            (base.push(QueueRequest { family: f, count: 1 }), transfer_queue_index, Some((f, 0)))
        },
    }
}

/// How many of the graphics, transfer and present roles fall to family `f`.
pub open spec fn queue_roles(graphics: usize, transfer: usize, present: Option<usize>, f: usize) -> int {
    (if f == graphics { 1int } else { 0int }) + (if f == transfer { 1int } else { 0int }) + (if present == Some(f) {
        1int
    } else {
        0int
    })
}

/// Every queue the plan names exists, and no two roles share a queue: each
/// family is requested once, with one queue per role it serves and none
/// other; the graphics queue is queue 0 of its family, the transfer queue and
/// the present queue are queues of their families that the request covers,
/// each distinct from the queues the other roles use.
pub proof fn lemma_queue_plan_sound(graphics: usize, transfer: usize, present: Option<usize>)
    ensures
        ({
            let (requests, transfer_queue_index, present_queue) = spec_queue_plan(graphics, transfer, present);
            &&& forall|i: int, j: int|
                0 <= i < j < requests.len() ==> (#[trigger] requests[i]).family != (#[trigger] requests[j]).family
            &&& forall|i: int|
                0 <= i < requests.len() ==> (#[trigger] requests[i]).count == queue_roles(
                    graphics,
                    transfer,
                    present,
                    requests[i].family,
                )
            &&& exists|i: int| 0 <= i < requests.len() && (#[trigger] requests[i]).family == graphics
            &&& exists|i: int|
                0 <= i < requests.len() && (#[trigger] requests[i]).family == transfer && transfer_queue_index
                    < requests[i].count
            &&& transfer == graphics ==> transfer_queue_index != 0
            &&& present is None ==> present_queue is None
            &&& present matches Some(p) ==> {
                &&& present_queue matches Some((f, q)) && f == p
                &&& exists|i: int|
                    0 <= i < requests.len() && (#[trigger] requests[i]).family == p && present_queue.unwrap().1
                        < requests[i].count
                &&& p == graphics ==> present_queue.unwrap().1 != 0
                &&& p == transfer ==> present_queue.unwrap().1 != transfer_queue_index
            }
        }),
{
    let (requests, tqi, pq) = spec_queue_plan(graphics, transfer, present);
    assert(requests[0].family == graphics);
    if transfer != graphics {
        assert(requests[1].family == transfer);
    }
    if let Some(p) = present {
        if p != graphics && p != transfer {
            assert(requests[requests.len() - 1].family == p);
        }
    }
}

/// Plans the device queues for the chosen graphics, transfer and (when
/// there is a window) present families.
pub fn plan_queues(graphics: usize, transfer: usize, present: Option<usize>) -> (r: QueuePlan)
    ensures
        (r.requests@, r.transfer_queue_index, r.present) == spec_queue_plan(graphics, transfer, present),
{
    let mut requests: Vec<QueueRequest> = Vec::new();
    requests.push(QueueRequest { family: graphics, count: 1 });
    let mut transfer_queue_index: u32 = 0;
    if transfer != graphics {
        requests.push(QueueRequest { family: transfer, count: 1 });
    } else {
        transfer_queue_index += 1;
        let first = requests[0];
        requests.set(0, QueueRequest { family: first.family, count: first.count + 1 });
    }
    proof {
        assert(requests@ =~= base_requests(graphics, transfer));
    }
    let present_queue = match present {
        None => None,
        Some(family_index) => {
            let queue_index = if family_index == graphics {
                let first = requests[0];
                requests.set(0, QueueRequest { family: first.family, count: first.count + 1 });
                first.count
            } else if family_index == transfer {
                let second = requests[1];
                requests.set(1, QueueRequest { family: second.family, count: second.count + 1 });
                second.count
            } else {
                requests.push(QueueRequest { family: family_index, count: 1 });
                0
            };
            Some((family_index, queue_index))
        },
    };
    proof {
        assert(requests@ =~= spec_queue_plan(graphics, transfer, present).0);
    }
    QueuePlan { requests, transfer_queue_index, present: present_queue }
}

// ----- Swapchain -----

/// The swapchain extent: the surface's current extent, unless the surface
/// leaves the size to the swapchain, in which case the requested one.
pub open spec fn spec_swap_extent(current: Extent2D, requested: Extent2D) -> Extent2D {
    if current.width == SURFACE_EXTENT_UNDEFINED && current.height == SURFACE_EXTENT_UNDEFINED {
        requested
    } else {
        current
    }
}

pub fn choose_swap_extent(current: Extent2D, requested: Extent2D) -> (r: Extent2D)
    ensures
        r == spec_swap_extent(current, requested),
{
    if current.width == 0xFFFFFFFF && current.height == 0xFFFFFFFF {
        requested
    } else {
        current
    }
}

/// The number of swapchain images to ask for: one more than the surface's
/// minimum.
pub fn swap_image_count(min_image_count: u32) -> (r: u32)
    requires
        min_image_count < u32::MAX,
    ensures
        r == min_image_count + 1,
{
    min_image_count + 1
}

/// The semaphore of frame `frame` when there are `count` of them, used in
/// turn.
pub fn frame_semaphore_index(frame: usize, count: usize) -> (r: usize)
    requires
        count > 0,
    ensures
        r == frame % count,
        r < count,
{
    frame % count
}

/// What to do when acquiring or presenting a swapchain image fails.
#[derive(Clone, Copy, Debug, PartialEq, Eq, Structural)]
pub enum SwapchainFailure {
    /// The swapchain no longer fits the surface: wait for the device and
    /// recreate it, then skip this frame.
    Recreate,
    /// Any other error cannot be recovered from.
    Fatal(VkError),
}

pub fn on_swapchain_error(err: VkError) -> (r: SwapchainFailure)
    ensures
        err == VkError::OutOfDate ==> r == SwapchainFailure::Recreate,
        err != VkError::OutOfDate ==> r == SwapchainFailure::Fatal(err),
{
    match err {
        VkError::OutOfDate => SwapchainFailure::Recreate,
        err => SwapchainFailure::Fatal(err),
    }
}

} // verus!
