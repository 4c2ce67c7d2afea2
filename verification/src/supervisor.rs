//! The decisions of the loop around the engine: what to do with each thing
//! that the source delivers, and how each kind of failure is answered.
//!
//! The loop itself reads the device, writes the virtual device and sleeps;
//! it asks this module what to do next.

use crate::engine::{step, Engine, SinkEvent};
use crate::keys::KeyEventType;
use crate::keyset::KeyCode;
use vstd::prelude::*;

verus! {

/// The kinds of failure.
#[derive(Clone, Copy, Debug, PartialEq, Eq, Structural)]
pub enum ErrorKind {
    /// The configuration names an unknown key or cannot be read.
    ConfigInvalid,
    /// The device asked for is not attached.
    DeviceNotFound,
    /// The device or the virtual device cannot be opened.
    PermissionDenied,
    /// The device disappeared while it was read.
    DeviceLost,
    /// The source lost events.
    SyncOverrun,
    /// A write to the virtual device failed for good.
    SinkWriteFailed,
}

/// The answer to a failure.
#[derive(Clone, Copy, Debug, PartialEq, Eq, Structural)]
pub enum Recovery {
    /// Report the failure and stop.
    Fatal,
    /// Poll until the device is attached.
    WaitForDevice,
    /// Look for the device again and start over with it.
    Reacquire,
    /// Read the keys that are down from the device and bring the sink in line.
    Resync,
    /// Release every key that is down on the sink, then report the failure and stop.
    ReleaseAllThenFatal,
}

/// How each kind of failure is answered.
pub open spec fn recovery_for(kind: ErrorKind, wait_for_device: bool) -> Recovery {
    match kind {
        ErrorKind::ConfigInvalid => Recovery::Fatal,
        ErrorKind::PermissionDenied => Recovery::Fatal,
        ErrorKind::DeviceNotFound => if wait_for_device {
            Recovery::WaitForDevice
        } else {
            Recovery::Fatal
        },
        ErrorKind::DeviceLost => if wait_for_device {
            Recovery::Reacquire
        } else {
            Recovery::Fatal
        },
        ErrorKind::SyncOverrun => Recovery::Resync,
        ErrorKind::SinkWriteFailed => Recovery::ReleaseAllThenFatal,
    }
}

pub fn recovery(kind: ErrorKind, wait_for_device: bool) -> (r: Recovery)
    ensures
        r == recovery_for(kind, wait_for_device),
{
    match kind {
        ErrorKind::ConfigInvalid => Recovery::Fatal,
        ErrorKind::PermissionDenied => Recovery::Fatal,
        ErrorKind::DeviceNotFound => if wait_for_device {
            Recovery::WaitForDevice
        } else {
            Recovery::Fatal
        },
        ErrorKind::DeviceLost => if wait_for_device {
            Recovery::Reacquire
        } else {
            Recovery::Fatal
        },
        ErrorKind::SyncOverrun => Recovery::Resync,
        ErrorKind::SinkWriteFailed => Recovery::ReleaseAllThenFatal,
    }
}

/// What a failed write to the virtual device leads to: another try where the
/// failure is transient, else the failure of the sink.
pub fn write_failure(transient: bool) -> (r: Option<ErrorKind>)
    ensures
        r == if transient {
            None::<ErrorKind>
        } else {
            Some(ErrorKind::SinkWriteFailed)
        },
{
    if transient {
        None
    } else {
        Some(ErrorKind::SinkWriteFailed)
    }
}

/// One thing read from the source.
#[derive(Clone, Copy, Debug, PartialEq, Eq, Structural)]
pub enum SourceItem {
    /// A key event, with the value that the device gave.
    Key { code: KeyCode, value: i32 },
    /// Any other event (a LED, a scan code, a report boundary).
    Other,
    /// The source reports that events were lost.
    Lost,
    /// The device is gone.
    Eof,
}

/// What the loop does with a thing read from the source.
#[derive(Debug, PartialEq, Eq)]
pub enum LoopAction {
    /// Write these events to the virtual device, in order.
    Write(Vec<SinkEvent>),
    /// Write the event to the virtual device as it came.
    Forward,
    /// Answer the failure as `recovery` says.
    Fail(ErrorKind),
}

/// Takes one thing read from the source: a key event goes through the
/// engine, any other event is forwarded as it came, and lost events or a
/// lost device are failures for `recovery` to answer.
pub fn on_source_item(engine: &mut Engine, item: SourceItem) -> (action: LoopAction)
    ensures
        final(engine).rules() == old(engine).rules(),
        match item {
            SourceItem::Key { code, value } => {
                &&& action matches LoopAction::Write(events)
                &&& (final(engine)@, events@) == step(
                    old(engine).rules(),
                    old(engine)@,
                    code,
                    KeyEventType::spec_from_value(value),
                )
            },
            SourceItem::Other => action == LoopAction::Forward && final(engine)@ == old(engine)@,
            SourceItem::Lost => {
                &&& action == LoopAction::Fail(ErrorKind::SyncOverrun)
                &&& final(engine)@ == old(engine)@
            },
            SourceItem::Eof => {
                &&& action == LoopAction::Fail(ErrorKind::DeviceLost)
                &&& final(engine)@ == old(engine)@
            },
        },
{
    match item {
        SourceItem::Key { code, value } => LoopAction::Write(engine.update_with_event(code, value)),
        SourceItem::Other => LoopAction::Forward,
        SourceItem::Lost => LoopAction::Fail(ErrorKind::SyncOverrun),
        SourceItem::Eof => LoopAction::Fail(ErrorKind::DeviceLost),
    }
}

/// What a listener that only shows events does with a thing read from the source.
#[derive(Clone, Copy, Debug, PartialEq, Eq, Structural)]
pub enum DebugAction {
    /// Show the key and the value of the event.
    Show { code: KeyCode, value: i32 },
    /// Nothing to show.
    Skip,
    /// Stop with this failure.
    Fail(ErrorKind),
}

/// Key events are shown, other events are passed over, and lost events or a
/// lost device end the listening.
pub open spec fn debug_action_for(item: SourceItem) -> DebugAction {
    match item {
        SourceItem::Key { code, value } => DebugAction::Show { code, value },
        SourceItem::Other => DebugAction::Skip,
        SourceItem::Lost => DebugAction::Fail(ErrorKind::SyncOverrun),
        SourceItem::Eof => DebugAction::Fail(ErrorKind::DeviceLost),
    }
}

pub fn debug_action(item: SourceItem) -> (action: DebugAction)
    ensures
        action == debug_action_for(item),
{
    match item {
        SourceItem::Key { code, value } => DebugAction::Show { code, value },
        SourceItem::Other => DebugAction::Skip,
        SourceItem::Lost => DebugAction::Fail(ErrorKind::SyncOverrun),
        SourceItem::Eof => DebugAction::Fail(ErrorKind::DeviceLost),
    }
}

} // verus!
