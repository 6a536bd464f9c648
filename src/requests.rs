use vstd::prelude::*;
use vstd::string::*;

use crate::schedule::ActionStatus;

verus! {

/// A request to set the status of a scheduled action.
#[derive(Clone, Debug)]
pub struct UpdateStatusRequest {
    pub status: String,
}

/// The kind of a device.
#[derive(Clone, Debug)]
pub enum DeviceType {
    Switch,
    Thermostat,
    Light,
    Other(String),
}

/// The name under which a status is stored.
pub open spec fn status_name(s: ActionStatus) -> Seq<char> {
    match s {
        ActionStatus::Pending => "pending"@,
        ActionStatus::Executed => "executed"@,
        ActionStatus::Failed => "failed"@,
        ActionStatus::Cancelled => "cancelled"@,
        ActionStatus::Missed => "missed"@,
    }
}

impl ActionStatus {
    pub fn as_str(&self) -> (r: &'static str)
        ensures
            r@ == status_name(*self),
    {
        match self {
            ActionStatus::Pending => "pending",
            ActionStatus::Executed => "executed",
            ActionStatus::Failed => "failed",
            ActionStatus::Cancelled => "cancelled",
            ActionStatus::Missed => "missed",
        }
    }
}

/// The statuses that the status-update surface may set: `executed`,
/// `failed` and `cancelled`. Nothing from outside may make an entry pending
/// again.
pub open spec fn settable_status(s: Seq<char>) -> Option<ActionStatus> {
    if s == "executed"@ {
        Some(ActionStatus::Executed)
    } else if s == "failed"@ {
        Some(ActionStatus::Failed)
    } else if s == "cancelled"@ {
        Some(ActionStatus::Cancelled)
    } else {
        None
    }
}

impl UpdateStatusRequest {
    /// The status asked for, if it is one that may be set.
    pub fn requested_status(&self) -> (r: Option<ActionStatus>)
        ensures
            r == settable_status(self.status@),
    {
        if self.status == String::from_str("executed") {
            Some(ActionStatus::Executed)
        } else if self.status == String::from_str("failed") {
            Some(ActionStatus::Failed)
        } else if self.status == String::from_str("cancelled") {
            Some(ActionStatus::Cancelled)
        } else {
            None
        }
    }
}

} // verus!
