//! Choosing the device to grab, and waiting for it to appear.
//!
//! Nothing here touches a device. The caller lists the devices and sleeps;
//! this module decides which device is meant, whether a failed attempt ends
//! the search, and how long to wait before the next one.

use vstd::prelude::*;

verus! {

/// What is known of an input device.
#[derive(Debug, Clone, PartialEq, Eq)]
pub struct DeviceInfo {
    pub name: String,
    pub phys: String,
    pub path: String,
}

/// How the device to grab is named.
#[derive(Debug, Clone, PartialEq, Eq)]
pub enum DeviceQuery {
    /// By the path of its device node.
    Path(String),
    /// By its name, and by its `phys` where several devices share the name.
    Name { name: String, phys: Option<String> },
}

/// Why no device was chosen.
#[derive(Clone, Copy, Debug, PartialEq, Eq, Structural)]
pub enum DeviceError {
    /// Neither a path nor a name was given.
    SelectorMissing,
    /// No device answers the query.
    NotFound,
}

/// The query that the hints amount to: the path where there is one, else the
/// name with its `phys`.
pub open spec fn query_of(
    path: Option<String>,
    name: Option<String>,
    phys: Option<String>,
) -> Result<DeviceQuery, DeviceError> {
    match path {
        Some(p) => Ok(DeviceQuery::Path(p)),
        None => match name {
            Some(n) => Ok(DeviceQuery::Name { name: n, phys }),
            None => Err(DeviceError::SelectorMissing),
        },
    }
}

/// Turns the hints of the configuration and the command line into a query.
pub fn device_query(path: Option<String>, name: Option<String>, phys: Option<String>) -> (r: Result<
    DeviceQuery,
    DeviceError,
>)
    ensures
        r == query_of(path, name, phys),
{
    match path {
        Some(p) => Ok(DeviceQuery::Path(p)),
        None => match name {
            Some(n) => Ok(DeviceQuery::Name { name: n, phys }),
            None => Err(DeviceError::SelectorMissing),
        },
    }
}

/// The device has the name asked for, and the `phys` where one is asked for.
pub open spec fn answers(device: DeviceInfo, name: Seq<char>, phys: Option<Seq<char>>) -> bool {
    device.name@ == name && (phys matches Some(p) ==> device.phys@ == p)
}

/// The view of an optional string.
pub open spec fn text_of(s: Option<String>) -> Option<Seq<char>> {
    match s {
        Some(t) => Some(t@),
        None => None,
    }
}

/// The index of the first device of `devices` with the name `name`; where
/// `phys` is given, of the first one that has that `phys` as well.
pub fn select_by_name(devices: &Vec<DeviceInfo>, name: &String, phys: &Option<String>) -> (r:
    Result<usize, DeviceError>)
    ensures
        match r {
            Ok(i) => i < devices.len() && answers(devices[i as int], name@, text_of(*phys))
                && forall|j: int| 0 <= j < i ==> !answers(devices[j], name@, text_of(*phys)),
            Err(e) => e == DeviceError::NotFound && forall|j: int|
                0 <= j < devices.len() ==> !answers(devices[j], name@, text_of(*phys)),
        },
{
    let mut i: usize = 0;
    while i < devices.len()
        invariant
            i <= devices.len(),
            forall|j: int| 0 <= j < i ==> !answers(devices[j], name@, text_of(*phys)),
        decreases devices.len() - i,
    {
        let same_name = devices[i].name == *name;
        let same_phys = match phys {
            Some(p) => devices[i].phys == *p,
            None => true,
        };
        if same_name && same_phys {
            return Ok(i);
        }
        i += 1;
    }
    Err(DeviceError::NotFound)
}

/// The longest wait between two attempts, in seconds.
pub const MAX_SLEEP_SECS: u64 = 10;

/// The wait before the first new attempt, in seconds.
pub const FIRST_SLEEP_SECS: u64 = 1;

/// The wait that follows a wait of `secs` seconds: one second more, up to the longest.
pub open spec fn next_backoff(secs: u64) -> u64 {
    if secs < MAX_SLEEP_SECS {
        (secs + 1) as u64
    } else {
        MAX_SLEEP_SECS
    }
}

/// The wait before the `n`-th new attempt, in seconds: 1, 2, 3, ... up to 10, then 10.
pub open spec fn backoff(n: nat) -> u64
    decreases n,
{
    if n <= 1 {
        FIRST_SLEEP_SECS
    } else {
        next_backoff(backoff((n - 1) as nat))
    }
}

/// The waits grow by a second from one to ten seconds and stay there.
pub proof fn lemma_backoff(n: nat)
    requires
        n >= 1,
    ensures
        backoff(n) == if n <= 10 {
            n
        } else {
            10
        },
    decreases n,
{
    if n > 1 {
        lemma_backoff((n - 1) as nat);
    }
}

/// What to do after an attempt to find the device.
#[derive(Clone, Copy, Debug, PartialEq, Eq, Structural)]
pub enum SearchStep {
    /// The device is there: go on with it.
    Found,
    /// The device is not there and nobody asked to wait: report the failure.
    GiveUp,
    /// The device is not there: sleep for `secs` seconds and try again.
    SleepThenRetry { secs: u64 },
}

/// The search for a device that may not be attached yet.
#[derive(Clone, Copy, Debug, PartialEq, Eq)]
pub struct DeviceSearch {
    wait_for_device: bool,
    next_sleep: u64,
}

impl DeviceSearch {
    #[verifier::type_invariant]
    spec fn bounded(&self) -> bool {
        FIRST_SLEEP_SECS <= self.next_sleep <= MAX_SLEEP_SECS
    }

    /// Whether a failed attempt is followed by another.
    pub closed spec fn waits(&self) -> bool {
        self.wait_for_device
    }

    /// The length of the next wait, in seconds.
    pub closed spec fn next_sleep(&self) -> u64 {
        self.next_sleep
    }

    /// A search that has made no attempt yet.
    pub fn new(wait_for_device: bool) -> (s: DeviceSearch)
        ensures
            s.waits() == wait_for_device,
            s.next_sleep() == backoff(1),
    {
        DeviceSearch { wait_for_device, next_sleep: FIRST_SLEEP_SECS }
    }

    /// Takes the outcome of an attempt and says how the search goes on. A
    /// failed attempt of a search that waits is followed by a sleep, and each
    /// sleep is followed by the next one of `backoff`.
    pub fn on_attempt(&mut self, found: bool) -> (step: SearchStep)
        ensures
            final(self).waits() == old(self).waits(),
            step == if found {
                SearchStep::Found
            } else if old(self).waits() {
                SearchStep::SleepThenRetry { secs: old(self).next_sleep() }
            } else {
                SearchStep::GiveUp
            },
            final(self).next_sleep() == if !found && old(self).waits() {
                next_backoff(old(self).next_sleep())
            } else {
                old(self).next_sleep()
            },
    {
        proof {
            use_type_invariant(&*self);
        }
        if found {
            SearchStep::Found
        } else if self.wait_for_device {
            let secs = self.next_sleep;
            if secs < MAX_SLEEP_SECS {
                self.next_sleep = secs + 1;
            }
            SearchStep::SleepThenRetry { secs }
        } else {
            SearchStep::GiveUp
        }
    }
}

} // verus!
