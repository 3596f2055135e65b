//! Domain enumerations shared by the PTO screens.

use vstd::prelude::*;

verus! {

/// Where a PTO plan stands in its life: statuses move from planned through
/// requested and approved to completed.
#[derive(Clone, Copy, PartialEq, Eq, Structural, Debug)]
pub enum PtoStatus {
    Planned,
    Requested,
    Approved,
    Completed,
}

/// The status a stored name denotes; unknown names read as `Planned`, the
/// default state.
pub open spec fn status_of_name(s: Seq<char>) -> PtoStatus {
    if s == "Requested"@ {
        PtoStatus::Requested
    } else if s == "Approved"@ {
        PtoStatus::Approved
    } else if s == "Completed"@ {
        PtoStatus::Completed
    } else {
        PtoStatus::Planned
    }
}

impl PtoStatus {
    /// The name under which the status is stored and shown.
    pub open spec fn name_spec(self) -> Seq<char> {
        match self {
            PtoStatus::Planned => "Planned"@,
            PtoStatus::Requested => "Requested"@,
            PtoStatus::Approved => "Approved"@,
            PtoStatus::Completed => "Completed"@,
        }
    }

    /// Every status, in form order.
    pub fn all() -> (r: Vec<PtoStatus>)
        ensures
            r@ == seq![
                PtoStatus::Planned,
                PtoStatus::Requested,
                PtoStatus::Approved,
                PtoStatus::Completed,
            ],
    {
        let mut r: Vec<PtoStatus> = Vec::new();
        r.push(PtoStatus::Planned);
        r.push(PtoStatus::Requested);
        r.push(PtoStatus::Approved);
        r.push(PtoStatus::Completed);
        proof {
            assert(r@ =~= seq![
                PtoStatus::Planned,
                PtoStatus::Requested,
                PtoStatus::Approved,
                PtoStatus::Completed,
            ]);
        }
        r
    }

    /// The status's name.
    pub fn name(&self) -> (r: String)
        ensures
            r@ == self.name_spec(),
    {
        match self {
            PtoStatus::Planned => "Planned".to_owned(),
            PtoStatus::Requested => "Requested".to_owned(),
            PtoStatus::Approved => "Approved".to_owned(),
            PtoStatus::Completed => "Completed".to_owned(),
        }
    }

    /// The status stored under the given name; unknown names fall back to
    /// `Planned`.
    pub fn from_name(name: &String) -> (r: PtoStatus)
        ensures
            r == status_of_name(name@),
    {
        let requested = "Requested".to_owned();
        let approved = "Approved".to_owned();
        let completed = "Completed".to_owned();
        if *name == requested {
            PtoStatus::Requested
        } else if *name == approved {
            PtoStatus::Approved
        } else if *name == completed {
            PtoStatus::Completed
        } else {
            PtoStatus::Planned
        }
    }
}

} // verus!
