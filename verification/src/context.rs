//! Which queues to ask a compute device for.
//!
//! A device offers its queues in families, each with its own abilities. The
//! engine needs one queue for each of three purposes (graphics, compute,
//! transfer) and prefers a family that is given over to the purpose. What
//! the device reports is handed in as plain values; the plan that comes out
//! says which families to create a queue from, and which of the created
//! queues serves which purpose.

use vstd::prelude::*;
use crate::GolError;

verus! {

/// What the queues of one family can do.
#[derive(Clone, Copy, Debug, PartialEq, Eq, Structural)]
pub struct QueueFamily {
    pub graphics: bool,
    pub compute: bool,
    pub transfer: bool,
}

/// A purpose that a queue is wanted for.
#[derive(Clone, Copy, Debug, PartialEq, Eq, Structural)]
pub enum QueuePurpose {
    /// Any family that does graphics.
    Graphics,
    /// A family that computes and does no graphics.
    Compute,
    /// A family that transfers, and neither computes nor does graphics.
    Transfer,
}

/// The queues to create, and the place of the queue for each purpose among
/// them.
#[derive(Debug)]
pub struct QueuePlan {
    /// The family of each queue to create, in the order of creation.
    pub queue_family_indices: Vec<u32>,
    pub graphics_queue_index: usize,
    pub compute_queue_index: usize,
    pub transfer_queue_index: usize,
}

/// Whether a family is one to take a queue for `purpose` from.
pub open spec fn serves(family: QueueFamily, purpose: QueuePurpose) -> bool {
    match purpose {
        QueuePurpose::Graphics => family.graphics,
        QueuePurpose::Compute => family.compute && !family.graphics,
        QueuePurpose::Transfer => family.transfer && !family.compute && !family.graphics,
    }
}

/// The index of the first family from `from` on that serves `purpose`, or
/// the number of families where none does.
pub open spec fn first_family(families: Seq<QueueFamily>, purpose: QueuePurpose, from: int) -> int
    decreases families.len() - from,
{
    if from < 0 || from >= families.len() {
        families.len() as int
    } else if serves(families[from], purpose) {
        from
    } else {
        first_family(families, purpose, from + 1)
    }
}

/// Whether some family serves `purpose`.
pub open spec fn has_family(families: Seq<QueueFamily>, purpose: QueuePurpose) -> bool {
    first_family(families, purpose, 0) < families.len()
}

/// The families of the queues to create: the first graphics family, then the
/// first family given over to compute if there is one, then the first given
/// over to transfer if there is one.
pub open spec fn planned_families(families: Seq<QueueFamily>) -> Seq<u32> {
    let graphics = seq![first_family(families, QueuePurpose::Graphics, 0) as u32];
    let compute = if has_family(families, QueuePurpose::Compute) {
        seq![first_family(families, QueuePurpose::Compute, 0) as u32]
    } else {
        Seq::empty()
    };
    let transfer = if has_family(families, QueuePurpose::Transfer) {
        seq![first_family(families, QueuePurpose::Transfer, 0) as u32]
    } else {
        Seq::empty()
    };
    graphics + compute + transfer
}

/// Whether `plan` is the plan for `families`. The graphics queue is the
/// first one created. A purpose without a family of its own falls back on
/// the graphics queue.
pub open spec fn is_plan_for(families: Seq<QueueFamily>, plan: QueuePlan) -> bool {
    &&& plan.queue_family_indices@ == planned_families(families)
    &&& plan.graphics_queue_index == 0
    &&& plan.compute_queue_index == (if has_family(families, QueuePurpose::Compute) {
        1int
    } else {
        0int
    })
    &&& plan.transfer_queue_index == (if has_family(families, QueuePurpose::Transfer) {
        plan.queue_family_indices@.len() - 1
    } else {
        0int
    })
}

/// The first family is the first that serves: none before it does, and it
/// does itself, if it is a family at all.
pub proof fn lemma_first_family(families: Seq<QueueFamily>, purpose: QueuePurpose, from: int)
    requires
        0 <= from <= families.len(),
    ensures
        from <= first_family(families, purpose, from) <= families.len(),
        forall|j: int|
            from <= j < first_family(families, purpose, from) ==> !serves(
                #[trigger] families[j],
                purpose,
            ),
        first_family(families, purpose, from) < families.len() ==> serves(
            families[first_family(families, purpose, from)],
            purpose,
        ),
    decreases families.len() - from,
{
    if from < families.len() && !serves(families[from], purpose) {
        lemma_first_family(families, purpose, from + 1);
    }
}

/// The index of the first family that serves `purpose`, if there is one.
pub fn position(families: &[QueueFamily], purpose: QueuePurpose) -> (found: Option<usize>)
    ensures
        match found {
            Some(index) => index == first_family(families@, purpose, 0) && has_family(
                families@,
                purpose,
            ),
            None => !has_family(families@, purpose),
        },
{
    let mut i: usize = 0;
    while i < families.len()
        invariant
            0 <= i <= families@.len(),
            first_family(families@, purpose, 0) == first_family(families@, purpose, i as int),
        decreases families@.len() - i,
    {
        let family = families[i];
        let serves_it = match purpose {
            QueuePurpose::Graphics => family.graphics,
            QueuePurpose::Compute => family.compute && !family.graphics,
            QueuePurpose::Transfer => family.transfer && !family.compute && !family.graphics,
        };
        if serves_it {
            return Some(i);
        }
        i += 1;
    }
    None
}

/// Plans the queues for a device that offers `families`. A device without
/// a graphics family cannot be used.
pub fn plan_queues(families: &[QueueFamily]) -> (made: Result<QueuePlan, GolError>)
    requires
        families@.len() <= u32::MAX,
    ensures
        match made {
            Ok(plan) => has_family(families@, QueuePurpose::Graphics) && is_plan_for(
                families@,
                plan,
            ),
            Err(e) => e == GolError::DeviceUnavailable && !has_family(
                families@,
                QueuePurpose::Graphics,
            ),
        },
{
    let graphics = match position(families, QueuePurpose::Graphics) {
        Some(index) => index,
        None => {
            return Err(GolError::DeviceUnavailable);
        },
    };
    let mut queue_family_indices: Vec<u32> = Vec::new();
    queue_family_indices.push(graphics as u32);
    // a purpose without a family of its own is served by the graphics queue
    let graphics_queue_index: usize = 0;
    let mut compute_queue_index: usize = 0;
    let mut transfer_queue_index: usize = 0;
    if let Some(index) = position(families, QueuePurpose::Compute) {
        queue_family_indices.push(index as u32);
        compute_queue_index = queue_family_indices.len() - 1;
    }
    if let Some(index) = position(families, QueuePurpose::Transfer) {
        queue_family_indices.push(index as u32);
        transfer_queue_index = queue_family_indices.len() - 1;
    }
    assert(queue_family_indices@ =~= planned_families(families@));
    Ok(
        QueuePlan {
            queue_family_indices,
            graphics_queue_index,
            compute_queue_index,
            transfer_queue_index,
        },
    )
}

} // verus!
