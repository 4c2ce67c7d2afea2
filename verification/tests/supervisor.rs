use evremap::device::{
    device_query, select_by_name, DeviceError, DeviceInfo, DeviceQuery, DeviceSearch, SearchStep,
    FIRST_SLEEP_SECS, MAX_SLEEP_SECS,
};
use evremap::engine::{Engine, SinkEvent};
use evremap::mapping::{Mapping, MappingTable};
use evremap::keyset::KeySet;
use evremap::supervisor::{
    debug_action, on_source_item, recovery, write_failure, DebugAction, ErrorKind, LoopAction,
    Recovery, SourceItem,
};

fn device(name: &str, phys: &str, path: &str) -> DeviceInfo {
    DeviceInfo { name: name.to_string(), phys: phys.to_string(), path: path.to_string() }
}

#[test]
fn the_path_goes_before_the_name() {
    assert_eq!(
        device_query(Some("/dev/input/event3".to_string()), Some("kbd".to_string()), None),
        Ok(DeviceQuery::Path("/dev/input/event3".to_string()))
    );
    assert_eq!(
        device_query(None, Some("kbd".to_string()), Some("usb-1".to_string())),
        Ok(DeviceQuery::Name { name: "kbd".to_string(), phys: Some("usb-1".to_string()) })
    );
    assert_eq!(
        device_query(None, Some("kbd".to_string()), None),
        Ok(DeviceQuery::Name { name: "kbd".to_string(), phys: None })
    );
}

#[test]
fn a_query_needs_a_path_or_a_name() {
    assert_eq!(device_query(None, None, None), Err(DeviceError::SelectorMissing));
    assert_eq!(
        device_query(None, None, Some("usb-1".to_string())),
        Err(DeviceError::SelectorMissing)
    );
}

#[test]
fn the_first_device_of_the_name_is_chosen() {
    let devices = vec![
        device("mouse", "usb-0", "/dev/input/event0"),
        device("kbd", "usb-1", "/dev/input/event1"),
        device("kbd", "usb-2", "/dev/input/event2"),
    ];
    assert_eq!(select_by_name(&devices, &"kbd".to_string(), &None), Ok(1));
    assert_eq!(select_by_name(&devices, &"mouse".to_string(), &None), Ok(0));
}

#[test]
fn phys_tells_devices_of_one_name_apart() {
    let devices = vec![
        device("mouse", "usb-2", "/dev/input/event0"),
        device("kbd", "usb-1", "/dev/input/event1"),
        device("kbd", "usb-2", "/dev/input/event2"),
    ];
    assert_eq!(
        select_by_name(&devices, &"kbd".to_string(), &Some("usb-2".to_string())),
        Ok(2)
    );
    assert_eq!(
        select_by_name(&devices, &"kbd".to_string(), &Some("usb-3".to_string())),
        Err(DeviceError::NotFound)
    );
}

#[test]
fn an_absent_device_is_not_found() {
    let devices = vec![device("mouse", "usb-0", "/dev/input/event0")];
    assert_eq!(
        select_by_name(&devices, &"kbd".to_string(), &None),
        Err(DeviceError::NotFound)
    );
    assert_eq!(select_by_name(&vec![], &"kbd".to_string(), &None), Err(DeviceError::NotFound));
}

#[test]
fn the_waits_grow_from_one_to_ten_seconds() {
    let mut search = DeviceSearch::new(true);
    let mut waits = Vec::new();
    for _ in 0..13 {
        match search.on_attempt(false) {
            SearchStep::SleepThenRetry { secs } => waits.push(secs),
            other => panic!("unexpected {:?}", other),
        }
    }
    assert_eq!(waits, vec![1, 2, 3, 4, 5, 6, 7, 8, 9, 10, 10, 10, 10]);
    assert_eq!(FIRST_SLEEP_SECS, 1);
    assert_eq!(MAX_SLEEP_SECS, 10);
    assert_eq!(search.on_attempt(true), SearchStep::Found);
}

#[test]
fn a_search_that_does_not_wait_gives_up() {
    let mut search = DeviceSearch::new(false);
    assert_eq!(search.on_attempt(false), SearchStep::GiveUp);
    assert_eq!(DeviceSearch::new(false).on_attempt(true), SearchStep::Found);
    assert_eq!(DeviceSearch::new(true).on_attempt(true), SearchStep::Found);
}

#[test]
fn answers_to_failures() {
    for wait in [false, true] {
        assert_eq!(recovery(ErrorKind::ConfigInvalid, wait), Recovery::Fatal);
        assert_eq!(recovery(ErrorKind::PermissionDenied, wait), Recovery::Fatal);
        assert_eq!(recovery(ErrorKind::SyncOverrun, wait), Recovery::Resync);
        assert_eq!(recovery(ErrorKind::SinkWriteFailed, wait), Recovery::ReleaseAllThenFatal);
    }
    assert_eq!(recovery(ErrorKind::DeviceNotFound, false), Recovery::Fatal);
    assert_eq!(recovery(ErrorKind::DeviceNotFound, true), Recovery::WaitForDevice);
    assert_eq!(recovery(ErrorKind::DeviceLost, false), Recovery::Fatal);
    assert_eq!(recovery(ErrorKind::DeviceLost, true), Recovery::Reacquire);
}

#[test]
fn transient_write_failures_are_tried_again() {
    assert_eq!(write_failure(true), None);
    assert_eq!(write_failure(false), Some(ErrorKind::SinkWriteFailed));
}

#[test]
fn what_the_loop_does_with_each_item() {
    let rules = vec![Mapping::Remap {
        input: KeySet::from_codes(&vec![58]),
        output: KeySet::from_codes(&vec![29]),
    }];
    let mut e = Engine::new(MappingTable::new(rules));
    assert_eq!(
        on_source_item(&mut e, SourceItem::Key { code: 58, value: 1 }),
        LoopAction::Write(vec![SinkEvent::Press(29), SinkEvent::Sync])
    );
    assert_eq!(on_source_item(&mut e, SourceItem::Other), LoopAction::Forward);
    assert_eq!(
        on_source_item(&mut e, SourceItem::Lost),
        LoopAction::Fail(ErrorKind::SyncOverrun)
    );
    assert_eq!(on_source_item(&mut e, SourceItem::Eof), LoopAction::Fail(ErrorKind::DeviceLost));
    assert_eq!(e.output_keys().to_vec(), vec![29]);
    assert_eq!(e.input_keys().to_vec(), vec![58]);
}

#[test]
fn what_a_listener_shows() {
    assert_eq!(
        debug_action(SourceItem::Key { code: 30, value: 2 }),
        DebugAction::Show { code: 30, value: 2 }
    );
    assert_eq!(debug_action(SourceItem::Other), DebugAction::Skip);
    assert_eq!(debug_action(SourceItem::Lost), DebugAction::Fail(ErrorKind::SyncOverrun));
    assert_eq!(debug_action(SourceItem::Eof), DebugAction::Fail(ErrorKind::DeviceLost));
}
