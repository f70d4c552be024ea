//! Choice of the GPU and its queue family.

use vstd::prelude::*;

use crate::gfx::version::{at_least, has_dynamic_rendering};

verus! {

/// Raw number of `VK_PHYSICAL_DEVICE_TYPE_INTEGRATED_GPU`.
pub const INTEGRATED_GPU: i32 = 1;

/// Raw number of `VK_PHYSICAL_DEVICE_TYPE_DISCRETE_GPU`.
pub const DISCRETE_GPU: i32 = 2;

/// Raw number of `VK_PHYSICAL_DEVICE_TYPE_VIRTUAL_GPU`.
pub const VIRTUAL_GPU: i32 = 3;

/// `VK_QUEUE_GRAPHICS_BIT`.
pub const QUEUE_GRAPHICS: u32 = 1;

/// The queue family that draws and presents.
#[derive(Clone, Copy, Debug, PartialEq, Eq, Structural)]
pub struct QueueFamilyIndices {
    pub graphics_present: u32,
}

/// What is known of a queue family.
#[derive(Clone, Copy, Debug)]
pub struct QueueFamily {
    pub flags: u32,
    /// Whether it can present to the surface.
    pub presents: bool,
}

/// The family can draw and present.
pub open spec fn family_fits(family: QueueFamily) -> bool {
    family.flags & QUEUE_GRAPHICS == QUEUE_GRAPHICS && family.presents
}

/// The first queue family that can draw and present.
pub fn find_queue_families(families: &[QueueFamily]) -> (found: Option<QueueFamilyIndices>)
    requires
        families@.len() <= u32::MAX,
    ensures
        match found {
            Some(q) => {
                &&& q.graphics_present < families@.len()
                &&& family_fits(families@[q.graphics_present as int])
                &&& forall|j: int|
                    0 <= j < q.graphics_present ==> !family_fits(#[trigger] families@[j])
            },
            None => forall|j: int|
                0 <= j < families@.len() ==> !family_fits(#[trigger] families@[j]),
        },
{
    let mut i: usize = 0;
    while i < families.len()
        invariant
            families@.len() <= u32::MAX,
            i <= families@.len(),
            forall|j: int| 0 <= j < i ==> !family_fits(#[trigger] families@[j]),
        decreases families@.len() - i,
    {
        let family: QueueFamily = families[i];
        if family.flags & QUEUE_GRAPHICS == QUEUE_GRAPHICS && family.presents {
            return Some(QueueFamilyIndices { graphics_present: i as u32 });
        }
        i += 1;
    }
    None
}

/// `name` is among `names`.
pub open spec fn names_hold(names: Seq<String>, name: Seq<char>) -> bool {
    exists|i: int| 0 <= i < names.len() && (#[trigger] names[i])@ == name
}

/// Whether every required extension is available.
pub fn supports_extensions(available: &[String], required: &[String]) -> (all: bool)
    ensures
        all <==> forall|r: int|
            0 <= r < required@.len() ==> names_hold(available@, (#[trigger] required@[r])@),
{
    let mut r: usize = 0;
    while r < required.len()
        invariant
            r <= required@.len(),
            forall|k: int|
                0 <= k < r ==> names_hold(available@, (#[trigger] required@[k])@),
        decreases required@.len() - r,
    {
        let mut found: bool = false;
        let mut i: usize = 0;
        while i < available.len() && !found
            invariant
                i <= available@.len(),
                r < required@.len(),
                found ==> names_hold(available@, required@[r as int]@),
                !found ==> forall|k: int|
                    0 <= k < i ==> (#[trigger] available@[k])@ != required@[r as int]@,
            decreases available@.len() - i,
        {
            if available[i] == required[r] {
                found = true;
            }
            i += 1;
        }
        if !found {
            assert(!names_hold(available@, required@[r as int]@));
            return false;
        }
        r += 1;
    }
    true
}

/// What is known of a GPU.
#[derive(Clone, Copy, Debug)]
pub struct DeviceCandidate {
    /// The queue family to use, if there is one.
    pub queues: Option<QueueFamilyIndices>,
    /// Whether it has the extensions that are needed.
    pub has_extensions: bool,
    pub api_version: u32,
    /// Raw device type.
    pub device_type: i32,
}

/// The GPU can be used at all.
pub open spec fn suitable(candidate: DeviceCandidate) -> bool {
    candidate.queues is Some && candidate.has_extensions && at_least(candidate.api_version, 1, 3)
}

/// How much a kind of GPU is preferred.
pub open spec fn type_score(device_type: i32) -> u32 {
    if device_type == DISCRETE_GPU {
        1000
    } else if device_type == INTEGRATED_GPU {
        100
    } else if device_type == VIRTUAL_GPU {
        10
    } else {
        1
    }
}

fn score_type(device_type: i32) -> (score: u32)
    ensures
        score == type_score(device_type),
{
    if device_type == DISCRETE_GPU {
        1000
    } else if device_type == INTEGRATED_GPU {
        100
    } else if device_type == VIRTUAL_GPU {
        10
    } else {
        1
    }
}

/// Why no GPU was chosen.
#[derive(Clone, Copy, Debug, PartialEq, Eq, Structural)]
pub enum DeviceError {
    /// There is none.
    NoDevices,
    /// None has Vulkan 1.3, the extensions and a queue family that presents.
    NoSuitableDevice,
}

/// Candidate `i` is the first of the best suitable ones.
pub open spec fn best_candidate(candidates: Seq<DeviceCandidate>, i: int) -> bool {
    &&& 0 <= i < candidates.len()
    &&& suitable(candidates[i])
    &&& forall|j: int|
        0 <= j < candidates.len() && suitable(#[trigger] candidates[j]) ==> {
            &&& type_score(candidates[j].device_type) <= type_score(candidates[i].device_type)
            &&& j < i ==> type_score(candidates[j].device_type) < type_score(
                candidates[i].device_type,
            )
        }
}

/// Picks the GPU: discrete before integrated before virtual before any other,
/// and the first of its kind.
pub fn pick_physical_device(candidates: &[DeviceCandidate]) -> (picked: Result<
    (usize, QueueFamilyIndices),
    DeviceError,
>)
    ensures
        match picked {
            Ok((i, queues)) => best_candidate(candidates@, i as int)
                && candidates@[i as int].queues == Some(queues),
            Err(DeviceError::NoDevices) => candidates@.len() == 0,
            Err(DeviceError::NoSuitableDevice) => candidates@.len() > 0 && forall|j: int|
                0 <= j < candidates@.len() ==> !suitable(#[trigger] candidates@[j]),
        },
{
    if candidates.len() == 0 {
        return Err(DeviceError::NoDevices);
    }
    let mut best: Option<(usize, QueueFamilyIndices, u32)> = None;
    let mut i: usize = 0;
    while i < candidates.len()
        invariant
            i <= candidates@.len(),
            match best {
                Some((b, queues, score)) => {
                    &&& b < i
                    &&& best_candidate(candidates@.take(i as int), b as int)
                    &&& candidates@[b as int].queues == Some(queues)
                    &&& score == type_score(candidates@[b as int].device_type)
                },
                None => forall|j: int| 0 <= j < i ==> !suitable(#[trigger] candidates@[j]),
            },
        decreases candidates@.len() - i,
    {
        let candidate: DeviceCandidate = candidates[i];
        let ghost before = candidates@.take(i as int);
        let ghost next = candidates@.take(i + 1);
        assert forall|j: int| 0 <= j < i implies #[trigger] next[j] == before[j] by {}
        if let Some(queues) = candidate.queues {
            if candidate.has_extensions && has_dynamic_rendering(candidate.api_version) {
                let score: u32 = score_type(candidate.device_type);
                let better: bool = match best {
                    Some((_, _, s)) => s < score,
                    None => true,
                };
                if better {
                    best = Some((i, queues, score));
                }
            }
        }
        proof {
            if let Some((b, queues, score)) = best {
                assert forall|j: int| 0 <= j < next.len() && suitable(#[trigger] next[j]) implies {
                    &&& type_score(next[j].device_type) <= type_score(next[b as int].device_type)
                    &&& j < b ==> type_score(next[j].device_type) < type_score(
                        next[b as int].device_type,
                    )
                } by {
                    if j < i {
                        assert(next[j] == before[j]);
                        assert(before[j] == candidates@[j]);
                    }
                }
                assert(best_candidate(next, b as int));
            }
        }
        i += 1;
    }
    assert(candidates@.take(i as int) =~= candidates@);
    match best {
        Some((b, queues, _)) => Ok((b, queues)),
        None => Err(DeviceError::NoSuitableDevice),
    }
}

/// A queue family will do if the lowest bit of its flags is set and it can
/// present; no other bit matters.
pub proof fn law_family_goes_by_lowest_flag(family: QueueFamily)
    ensures
        family_fits(family) <==> family.flags % 2 == 1 && family.presents,
{
    let flags: u32 = family.flags;
    assert((flags & 1 == 1) <==> flags % 2 == 1) by (bit_vector);
}

/// A GPU will do if it has a queue family and the extensions and its version is at
/// least 1.3.0, that is 4206592.
pub proof fn law_suitable_needs_all_three(candidate: DeviceCandidate)
    ensures
        suitable(candidate) <==> {
            &&& candidate.queues is Some
            &&& candidate.has_extensions
            &&& candidate.api_version >= 4206592
        },
{
}

/// Discrete GPUs, type 2, go before integrated ones, type 1, those before virtual
/// ones, type 3, and those before all others, which are alike.
pub proof fn law_types_are_ranked(other: i32, another: i32)
    requires
        other < 1 || other > 3,
        another < 1 || another > 3,
    ensures
        type_score(2) == 1000,
        type_score(1) == 100,
        type_score(3) == 10,
        type_score(other) == 1,
        type_score(2) > type_score(1) > type_score(3) > type_score(other),
        type_score(other) == type_score(another),
{
}

/// The picked GPU is suitable. No suitable one of a better type is passed over,
/// and no earlier one of the same type.
pub proof fn law_better_type_is_picked(candidates: Seq<DeviceCandidate>, i: int, j: int)
    requires
        best_candidate(candidates, i),
        0 <= j < candidates.len(),
        suitable(candidates[j]),
    ensures
        0 <= i < candidates.len(),
        suitable(candidates[i]),
        candidates[j].device_type == 2 ==> candidates[i].device_type == 2,
        candidates[j].device_type == 1 ==> candidates[i].device_type == 2
            || candidates[i].device_type == 1,
        candidates[j].device_type == 3 ==> 1 <= candidates[i].device_type <= 3,
        candidates[j].device_type == candidates[i].device_type ==> i <= j,
        !(1 <= candidates[j].device_type <= 3) && !(1 <= candidates[i].device_type <= 3) ==> i <= j,
{
}

/// At most one GPU is the one to pick.
pub proof fn law_best_candidate_is_unique(candidates: Seq<DeviceCandidate>, i: int, j: int)
    requires
        best_candidate(candidates, i),
        best_candidate(candidates, j),
    ensures
        i == j,
{
    assert(suitable(candidates[i]) && suitable(candidates[j]));
}

/// A name is held once it has been listed, wherever that was, and not before.
pub proof fn law_listed_names_are_held(names: Seq<String>, added: String, name: Seq<char>)
    ensures
        !names_hold(Seq::empty(), name),
        names_hold(names.push(added), name) <==> names_hold(names, name) || added@ == name,
{
    let more = names.push(added);
    assert(more[names.len() as int] == added);
    if names_hold(names, name) {
        let i = choose|i: int| 0 <= i < names.len() && (#[trigger] names[i])@ == name;
        assert(more[i]@ == name);
    }
    if names_hold(more, name) {
        let i = choose|i: int| 0 <= i < more.len() && (#[trigger] more[i])@ == name;
        if i < names.len() {
            assert(names[i] == more[i]);
        }
    }
}

} // verus!
