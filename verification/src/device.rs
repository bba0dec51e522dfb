//! Choice of the compute device and of its queue family.
use vstd::prelude::*;

verus! {

/// Kind of a physical device, as the driver reports it.
#[derive(Clone, Copy, Debug)]
pub enum DeviceKind {
    DiscreteGpu,
    IntegratedGpu,
    VirtualGpu,
    Cpu,
    Other,
    /// a kind this library does not know
    Unknown,
}

/// What the choice of a device reads of each candidate.
#[derive(Clone, Copy, Debug)]
pub struct DeviceCandidate {
    /// the device supports every extension the computation needs
    pub supports_extensions: bool,
    pub kind: DeviceKind,
}

/// Preference of a device kind: lower is better.
pub open spec fn kind_rank(kind: DeviceKind) -> nat {
    match kind {
        DeviceKind::DiscreteGpu => 0,
        DeviceKind::IntegratedGpu => 1,
        DeviceKind::VirtualGpu => 2,
        DeviceKind::Cpu => 3,
        DeviceKind::Other => 4,
        DeviceKind::Unknown => 5,
    }
}

/// Preference of a device kind: lower is better.
pub fn device_rank(kind: DeviceKind) -> (r: u32)
    ensures
        r == kind_rank(kind),
{
    match kind {
        DeviceKind::DiscreteGpu => 0,
        DeviceKind::IntegratedGpu => 1,
        DeviceKind::VirtualGpu => 2,
        DeviceKind::Cpu => 3,
        DeviceKind::Other => 4,
        DeviceKind::Unknown => 5,
    }
}

/// The device to compute on: among the candidates that support the needed
/// extensions, the first of the most preferred kind; `None` when no
/// candidate supports them.
pub fn select_physical_device(candidates: &[DeviceCandidate]) -> (r: Option<usize>)
    ensures
        r is None <==> forall|j: int|
            0 <= j < candidates@.len() ==> !#[trigger] candidates@[j].supports_extensions,
        r matches Some(i) ==> {
            &&& i < candidates@.len()
            &&& candidates@[i as int].supports_extensions
            &&& forall|j: int|
                0 <= j < candidates@.len() && #[trigger] candidates@[j].supports_extensions
                    ==> kind_rank(candidates@[i as int].kind) <= kind_rank(candidates@[j].kind)
            &&& forall|j: int|
                0 <= j < i && #[trigger] candidates@[j].supports_extensions ==> kind_rank(
                    candidates@[i as int].kind,
                ) < kind_rank(candidates@[j].kind)
        },
{
    let mut best: Option<usize> = None;
    let mut best_rank: u32 = 0;
    let mut j: usize = 0;
    while j < candidates.len()
        invariant
            j <= candidates@.len(),
            best is None <==> forall|k: int| 0 <= k < j ==> !#[trigger] candidates@[k].supports_extensions,
            best matches Some(i) ==> {
                &&& i < j
                &&& candidates@[i as int].supports_extensions
                &&& best_rank == kind_rank(candidates@[i as int].kind)
                &&& forall|k: int|
                    0 <= k < j && #[trigger] candidates@[k].supports_extensions ==> best_rank
                        <= kind_rank(candidates@[k].kind)
                &&& forall|k: int|
                    0 <= k < i && #[trigger] candidates@[k].supports_extensions ==> best_rank
                        < kind_rank(candidates@[k].kind)
            },
        decreases candidates@.len() - j,
    {
        let candidate = candidates[j];
        if candidate.supports_extensions {
            let rank = device_rank(candidate.kind);
            match best {
                None => {
                    best = Some(j);
                    best_rank = rank;
                },
                Some(_) => {
                    if rank < best_rank {
                        best = Some(j);
                        best_rank = rank;
                    }
                },
            }
        }
        j = j + 1;
    }
    best
}

/// The first queue family that supports compute work, given per family
/// whether it does; `None` when none does.
pub fn select_queue_family(supports_compute: &[bool]) -> (r: Option<usize>)
    ensures
        r is None <==> forall|j: int| 0 <= j < supports_compute@.len() ==> !supports_compute@[j],
        r matches Some(i) ==> i < supports_compute@.len() && supports_compute@[i as int] && forall|
            j: int,
        | 0 <= j < i ==> !supports_compute@[j],
{
    let mut j: usize = 0;
    while j < supports_compute.len()
        invariant
            j <= supports_compute@.len(),
            forall|k: int| 0 <= k < j ==> !supports_compute@[k],
        decreases supports_compute@.len() - j,
    {
        if supports_compute[j] {
            return Some(j);
        }
        j = j + 1;
    }
    None
}

} // verus!
