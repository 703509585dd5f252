//! Runtime leak bookkeeping and the protection that a run asks for.

use vstd::prelude::*;

verus! {

/// Class of an ambient leak.
#[derive(Debug, Clone, Copy, PartialEq, Eq, PartialOrd, Ord, Hash, Structural)]
pub enum LeakClass {
    /// Wall-clock time was read.
    WallClock,
    /// An ambient random source was read.
    AmbientRng,
    /// A thread was started outside the executor.
    RawThread,
    /// Input or output bypassed the simulation.
    UnsimulatedIo,
    /// The environment was read.
    EnvVarEntropy,
}

/// Record of the leaks seen during a run.
#[derive(Debug)]
pub struct Sentinel {
    leaks: Vec<LeakClass>,
}

impl View for Sentinel {
    type V = Seq<LeakClass>;

    closed spec fn view(&self) -> Seq<LeakClass> {
        self.leaks@
    }
}

impl Sentinel {
    /// A record without leaks.
    pub fn new() -> (sentinel: Sentinel)
        ensures
            sentinel@ == Seq::<LeakClass>::empty(),
    {
        Sentinel { leaks: Vec::new() }
    }

    /// Record one leak.
    pub fn record_leak(&mut self, class: LeakClass)
        ensures
            final(self)@ == old(self)@.push(class),
    {
        self.leaks.push(class);
    }

    /// Whether anything leaked.
    pub fn has_leaks(&self) -> (yes: bool)
        ensures
            yes == (self@.len() > 0),
    {
        self.leaks.len() > 0
    }

    /// The leaks in the order in which they were recorded.
    pub fn leaks(&self) -> (leaks: &[LeakClass])
        ensures
            leaks@ == self@,
    {
        self.leaks.as_slice()
    }
}

impl Default for Sentinel {
    fn default() -> (sentinel: Sentinel)
        ensures
            sentinel@ == Seq::<LeakClass>::empty(),
    {
        Sentinel::new()
    }
}

/// State of the process belt.
#[derive(Debug, PartialEq, Eq)]
pub enum BeltStatus {
    /// The belt is in force.
    Active {
        /// Number of installed layers.
        layers: u32,
    },
    /// Nobody asked for the belt.
    NotArmed,
    /// The belt does not exist in this build.
    Unavailable,
    /// The belt could not be installed.
    Failed(String),
}

impl Clone for BeltStatus {
    fn clone(&self) -> (copy: BeltStatus)
        ensures
            copy == *self,
    {
        match self {
            BeltStatus::Active { layers } => BeltStatus::Active { layers: *layers },
            BeltStatus::NotArmed => BeltStatus::NotArmed,
            BeltStatus::Unavailable => BeltStatus::Unavailable,
            BeltStatus::Failed(error) => BeltStatus::Failed(error.clone()),
        }
    }
}

/// Install the process belt. The library has none to install.
pub fn activate_process_belt() -> (status: BeltStatus)
    ensures
        status == BeltStatus::Unavailable,
{
    BeltStatus::Unavailable
}

/// How much protection a run asks for.
#[derive(Debug, Clone, Copy, PartialEq, Eq, Structural)]
pub enum ProtectionMode {
    /// None.
    Disabled,
    /// As much as can be had.
    BestEffort,
    /// A run without it is rejected.
    Required,
}

/// The host's mode overrides the environment's.
pub open spec fn effective_mode(host: Option<ProtectionMode>, env: ProtectionMode) -> ProtectionMode {
    match host {
        Some(mode) => mode,
        None => env,
    }
}

/// Effective protection for a run: host if set, else environment.
pub fn effective_protection(host: Option<ProtectionMode>, env: ProtectionMode) -> (mode:
    ProtectionMode)
    ensures
        mode == effective_mode(host, env),
{
    match host {
        Some(mode) => mode,
        None => env,
    }
}

/// What was tried to protect a run, and what came of it.
#[derive(Debug)]
pub struct Protection {
    /// What the run asks for.
    pub mode: ProtectionMode,
    /// Why the time-stamp trap could not be armed, if it could not.
    pub trap_error: Option<String>,
    /// State of the process belt.
    pub status: BeltStatus,
}

/// A run starts unless it requires protection that is not in force; the error
/// is the status that kept it from starting.
pub open spec fn admitted(protection: Protection) -> Result<BeltStatus, BeltStatus> {
    if protection.mode != ProtectionMode::Required {
        Ok(protection.status)
    } else {
        match protection.trap_error {
            Some(error) => Err(BeltStatus::Failed(error)),
            None => if protection.status is Active {
                Ok(protection.status)
            } else {
                Err(protection.status)
            },
        }
    }
}

impl Protection {
    /// Decide whether a run with this protection starts.
    pub fn enforce(self) -> (r: Result<BeltStatus, BeltStatus>)
        ensures
            r == admitted(self),
    {
        if self.mode == ProtectionMode::Required {
            if let Some(error) = self.trap_error {
                return Err(BeltStatus::Failed(error));
            }
            let active: bool = match &self.status {
                BeltStatus::Active { .. } => true,
                _ => false,
            };
            if !active {
                return Err(self.status);
            }
        }
        Ok(self.status)
    }
}

} // verus!
