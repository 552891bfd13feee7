use tedge_core::fs_notify::{
    normalising_watch_dir_and_file, pipe_masks_into_watch_mask, Masks, NotifyStreamError,
    RawEvent, StreamAction, WatchDescriptor,
};

/// The registry accumulates kinds per (directory, target) pair:
/// re-adding `file_a` with an extra kind appends it, and the
/// per-directory union lists every registered kind once, in canonical
/// order.
#[test]
fn test_watch_descriptor_data_field() {
    let root = "/watch_root";
    let new_dir = "/watch_root/new_dir";

    let mut actual_data_structure = WatchDescriptor::new();
    actual_data_structure.insert(
        root.to_string(),
        String::from("file_a"),
        vec![Masks::Created],
    );
    actual_data_structure.insert(
        root.to_string(),
        String::from("file_b"),
        vec![Masks::Created, Masks::Modified],
    );
    actual_data_structure.insert(
        new_dir.to_string(),
        String::from("file_c"),
        vec![Masks::Modified],
    );
    // NOTE: re-adding `file_a` with an extra mask
    actual_data_structure.insert(
        root.to_string(),
        String::from("file_a"),
        vec![Masks::Deleted],
    );

    assert_eq!(
        actual_data_structure.get_masks(root, "file_a"),
        Some(vec![Masks::Created, Masks::Deleted])
    );
    assert_eq!(
        actual_data_structure.get_masks(root, "file_b"),
        Some(vec![Masks::Created, Masks::Modified])
    );
    assert_eq!(
        actual_data_structure.get_masks(new_dir, "file_c"),
        Some(vec![Masks::Modified])
    );

    assert_eq!(
        actual_data_structure
            .get_mask_set_for_directory(root.to_string())
            .unwrap(),
        vec![Masks::Modified, Masks::Deleted, Masks::Created]
    );

    assert_eq!(
        actual_data_structure
            .get_mask_set_for_directory(new_dir.to_string())
            .unwrap(),
        vec![Masks::Modified]
    );
}

#[test]
fn test_add_watcher() {
    let root = "/watch_root";
    let new_dir = "/watch_root/new_dir";

    let mut notify_service = WatchDescriptor::new();
    notify_service
        .add_watcher(root, "file_a", &vec![Masks::Created])
        .unwrap();
    notify_service
        .add_watcher(root, "file_a", &vec![Masks::Created, Masks::Deleted])
        .unwrap();
    notify_service
        .add_watcher(root, "file_b", &vec![Masks::Modified])
        .unwrap();
    notify_service
        .add_watcher(new_dir, "file_c", &vec![Masks::Deleted])
        .unwrap();
}

/// Registering the same kind twice leaves the kind-set a true set of
/// size one.
#[test]
fn idempotent_insertion() {
    let mut wd = WatchDescriptor::new();
    wd.insert("/dir".to_string(), "file_a".to_string(), vec![Masks::Created]);
    wd.insert("/dir".to_string(), "file_a".to_string(), vec![Masks::Created]);
    let masks = wd.get_masks("/dir", "file_a").unwrap();
    assert_eq!(masks, vec![Masks::Created]);
    assert_eq!(masks.len(), 1);
}

/// Registering `Created` on one target and `Created` with `Modified` on
/// another yields a directory mask of exactly those two kinds.
#[test]
fn mask_union_over_targets() {
    let mut wd = WatchDescriptor::new();
    wd.insert("/dir".to_string(), "a".to_string(), vec![Masks::Created]);
    wd.insert(
        "/dir".to_string(),
        "b".to_string(),
        vec![Masks::Created, Masks::Modified],
    );
    assert_eq!(
        wd.get_mask_set_for_directory("/dir".to_string()).unwrap(),
        vec![Masks::Modified, Masks::Created]
    );
    assert_eq!(wd.get_mask_set_for_directory("/elsewhere".to_string()), None);
}

/// An exact-name registration fires exactly once for a matching raw
/// event, and not at all for a kind nobody asked for.
#[test]
fn exact_target_matching() {
    let mut wd = WatchDescriptor::new();
    wd.add_watcher("/dir", "file_a", &vec![Masks::Created]).unwrap();
    let hits = wd.match_event("/dir", "file_a", Masks::Created);
    assert_eq!(hits, vec![("/dir/file_a".to_string(), Masks::Created)]);
    let misses = wd.match_event("/dir", "file_a", Masks::Deleted);
    assert!(misses.is_empty());
}

/// A wildcard registration fires once for file names unknown at
/// registration time, with the synthesized path.
#[test]
fn wildcard_matching() {
    let mut wd = WatchDescriptor::new();
    wd.add_watcher("/dir", "*", &vec![Masks::Created, Masks::Modified, Masks::Deleted])
        .unwrap();
    assert_eq!(
        wd.match_event("/dir", "file_x", Masks::Created),
        vec![("/dir/file_x".to_string(), Masks::Created)]
    );
    assert_eq!(
        wd.match_event("/dir", "file_y", Masks::Modified),
        vec![("/dir/file_y".to_string(), Masks::Modified)]
    );
    assert_eq!(
        wd.match_event("/dir", "file_z", Masks::Deleted),
        vec![("/dir/file_z".to_string(), Masks::Deleted)]
    );
}

/// An exact and a wildcard registration matching the same raw event
/// both fire: intended duplication.
#[test]
fn duplicate_emission() {
    let mut wd = WatchDescriptor::new();
    wd.add_watcher("/dir", "file_a", &vec![Masks::Created]).unwrap();
    wd.add_watcher("/dir", "*", &vec![Masks::Created]).unwrap();
    let hits = wd.match_event("/dir", "file_a", Masks::Created);
    assert_eq!(hits.len(), 2);
    for hit in &hits {
        assert_eq!(hit, &("/dir/file_a".to_string(), Masks::Created));
    }
}

fn emitted(action: StreamAction) -> Vec<(String, Masks)> {
    match action {
        StreamAction::Emit(v) => v,
        _ => panic!("expected events"),
    }
}

/// Registering `a` for `Created` and `b` for `Created` and `Modified`,
/// then creating `a`, creating `b` and modifying `b`, yields exactly
/// those three events in order.
#[test]
fn end_to_end_scenario() {
    let mut wd = WatchDescriptor::new();
    wd.add_watcher("/root_dir", "a", &vec![Masks::Created]).unwrap();
    wd.add_watcher("/root_dir", "b", &vec![Masks::Created, Masks::Modified])
        .unwrap();

    let raw = |name: &str, bits: u32| {
        Some(Ok((
            "/root_dir".to_string(),
            RawEvent {
                mask_bits: bits,
                name: Some(name.to_string()),
            },
        )))
    };

    let mut yielded: Vec<(String, Masks)> = Vec::new();
    yielded.extend(emitted(wd.handle_poll(raw("a", 0x100))));
    yielded.extend(emitted(wd.handle_poll(raw("b", 0x100))));
    yielded.extend(emitted(wd.handle_poll(raw("b", 0x2))));

    assert_eq!(
        yielded,
        vec![
            ("/root_dir/a".to_string(), Masks::Created),
            ("/root_dir/b".to_string(), Masks::Created),
            ("/root_dir/b".to_string(), Masks::Modified),
        ]
    );
}

/// An OS polling failure terminates the stream with exactly one error
/// item.
#[test]
fn stream_termination_on_error() {
    let mut wd = WatchDescriptor::new();
    wd.add_watcher("/dir", "*", &vec![Masks::Created]).unwrap();
    let action = wd.handle_poll(Some(Err("device gone".to_string())));
    match action {
        StreamAction::Terminate(NotifyStreamError::FromIOError(msg)) => {
            assert_eq!(msg, "device gone");
        }
        _ => panic!("expected the stream to terminate"),
    }
    let closed = wd.handle_poll(None);
    assert!(matches!(closed, StreamAction::Closed));
}

/// A raw event without a file name yields nothing.
#[test]
fn nameless_event_yields_nothing() {
    let mut wd = WatchDescriptor::new();
    wd.add_watcher("/dir", "*", &vec![Masks::Created]).unwrap();
    let action = wd.handle_poll(Some(Ok((
        "/dir".to_string(),
        RawEvent {
            mask_bits: 0x100,
            name: None,
        },
    ))));
    assert!(emitted(action).is_empty());
}

/// An event in a directory nobody watches yields nothing, also for a
/// name that is registered elsewhere.
#[test]
fn foreign_directory_yields_nothing() {
    let mut wd = WatchDescriptor::new();
    wd.add_watcher("/dir", "file_a", &vec![Masks::Created]).unwrap();
    assert!(wd.match_event("/other", "file_a", Masks::Created).is_empty());
}

/// Normalisation splits a nested file specification into the parent
/// directory the OS watch goes on and the bare file name.
#[test]
fn normalisation_splits_nested_paths() {
    let (dir, file) =
        normalising_watch_dir_and_file("/path/to/a/directory", "continued/path/to/a/file").unwrap();
    assert_eq!(dir, "/path/to/a/directory/continued/path/to/a");
    assert_eq!(file, "file");

    let (dir, file) = normalising_watch_dir_and_file("/tmp", "file_a").unwrap();
    assert_eq!(dir, "/tmp");
    assert_eq!(file, "file_a");

    let (dir, file) = normalising_watch_dir_and_file("/", "a").unwrap();
    assert_eq!(dir, "/");
    assert_eq!(file, "a");

    let (dir, file) = normalising_watch_dir_and_file("/a", "").unwrap();
    assert_eq!(dir, "/");
    assert_eq!(file, "a");
}

/// A root of `/` with an empty file specification has no extractable
/// final component and is rejected.
#[test]
fn normalisation_rejects_rootless_paths() {
    match normalising_watch_dir_and_file("/", "") {
        Err(NotifyStreamError::ErrorNormalisingWatcher { path }) => assert_eq!(path, "/"),
        _ => panic!("expected a normalisation error"),
    }
    assert!(matches!(
        normalising_watch_dir_and_file("", ""),
        Err(NotifyStreamError::ErrorNormalisingWatcher { .. })
    ));
}

/// Kinds fold into the OS bitmask word by bitwise union, and raw
/// bitmask words translate back to kinds; anything unrecognised is
/// `Undefined`.
#[test]
fn mask_bits_round_trip() {
    assert_eq!(pipe_masks_into_watch_mask(&vec![Masks::Modified]), 0x2);
    assert_eq!(pipe_masks_into_watch_mask(&vec![Masks::Deleted]), 0x200);
    assert_eq!(pipe_masks_into_watch_mask(&vec![Masks::Created]), 0x100);
    assert_eq!(
        pipe_masks_into_watch_mask(&vec![Masks::Created, Masks::Modified, Masks::Deleted]),
        0x302
    );
    assert_eq!(pipe_masks_into_watch_mask(&vec![Masks::Undefined]), 0x0);

    assert_eq!(Masks::from_event_mask_bits(0x2), Masks::Modified);
    assert_eq!(Masks::from_event_mask_bits(0x200), Masks::Deleted);
    assert_eq!(Masks::from_event_mask_bits(0x100), Masks::Created);
    assert_eq!(Masks::from_event_mask_bits(0x8), Masks::Undefined);
    assert_eq!(Masks::Created.watch_mask_bits(), 0x100);
}

/// A kind nobody recognises still flows through matching: a wildcard
/// registration that asks for `Undefined` fires on a raw event whose
/// bitmask translates to no supported kind, and one that does not ask
/// for it stays silent.
#[test]
fn undefined_kind_is_matchable() {
    let mut wd = WatchDescriptor::new();
    wd.add_watcher("/dir", "*", &vec![Masks::Undefined]).unwrap();
    assert_eq!(
        wd.get_mask_set_for_directory("/dir".to_string()).unwrap(),
        vec![Masks::Undefined]
    );
    assert_eq!(
        wd.match_event("/dir", "file_a", Masks::from_event_mask_bits(0x40)),
        vec![("/dir/file_a".to_string(), Masks::Undefined)]
    );

    let mut silent = WatchDescriptor::new();
    silent.add_watcher("/dir", "*", &vec![Masks::Created]).unwrap();
    assert!(silent
        .match_event("/dir", "file_a", Masks::from_event_mask_bits(0x40))
        .is_empty());
}

/// `add_watcher` reports the directory to register and the accumulated
/// union mask for it.
#[test]
fn add_watcher_reports_union_mask() {
    let mut wd = WatchDescriptor::new();
    let req = wd.add_watcher("/dir", "a", &vec![Masks::Created]).unwrap();
    assert_eq!(req.dir, "/dir");
    assert_eq!(req.mask_bits, 0x100);
    let req = wd.add_watcher("/dir", "b", &vec![Masks::Modified]).unwrap();
    assert_eq!(req.dir, "/dir");
    assert_eq!(req.mask_bits, 0x102);
}
