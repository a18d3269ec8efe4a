use einmo::{ArtifactLocation, EinmoDirectory, EinmoId, EinmoStorage, InMemoryStorage, Stage};

fn assert_round_trip(storage: &mut impl EinmoStorage, at: ArtifactLocation) {
    let id = EinmoId::from_input_rel("foop/23/sub_feature/test1.foo").unwrap();
    assert_eq!(storage.read(&id, at).unwrap(), None);
    storage.write(&id, at, b"hello world").unwrap();
    assert_eq!(storage.read(&id, at).unwrap(), Some(b"hello world".to_vec()));
    storage.write(&id, at, b"replaced").unwrap();
    assert_eq!(storage.read(&id, at).unwrap(), Some(b"replaced".to_vec()));
    storage.remove(&id, at).unwrap();
    assert_eq!(storage.read(&id, at).unwrap(), None);
    storage.remove(&id, at).unwrap();
}

#[test]
fn in_memory_storage_round_trips_input_and_every_stage() {
    let mut storage = InMemoryStorage::new();
    assert_round_trip(&mut storage, ArtifactLocation::Input);
    for stage in Stage::all() {
        assert_round_trip(&mut storage, ArtifactLocation::Stage(stage));
        assert_round_trip(&mut storage, ArtifactLocation::Flagged(stage));
    }
}

#[test]
fn in_memory_storage_list_ids_unions_independently_per_location() {
    let mut storage = InMemoryStorage::new();
    let a = EinmoId::from_input_rel("a.foo").unwrap();
    storage.write(&a, ArtifactLocation::Stage(Stage::Output), b"x").unwrap();
    assert_eq!(
        storage.list_ids(ArtifactLocation::Stage(Stage::Output)).unwrap(),
        vec![a.clone()]
    );
    assert_eq!(
        storage.list_ids(ArtifactLocation::Stage(Stage::Checked)).unwrap(),
        Vec::new()
    );
}

#[test]
fn flagged_sink_is_separate_from_its_stage() {
    let mut storage = InMemoryStorage::new();
    let a = EinmoId::from_input_rel("a.foo").unwrap();
    storage.write(&a, ArtifactLocation::Flagged(Stage::Checked), b"from checked").unwrap();
    assert_eq!(
        storage.read(&a, ArtifactLocation::Flagged(Stage::Checked)).unwrap(),
        Some(b"from checked".to_vec())
    );
    assert_eq!(storage.read(&a, ArtifactLocation::Flagged(Stage::Output)).unwrap(), None);
    assert_eq!(storage.read(&a, ArtifactLocation::Stage(Stage::Checked)).unwrap(), None);
}

#[test]
fn einmo_directory_lays_out_input_stages_and_flagged_sinks() {
    let dir = EinmoDirectory::new("/suite");
    let id = EinmoId::from_input_rel("foop/23/test1.foo").unwrap();
    assert_eq!(dir.artifact_path(&id, ArtifactLocation::Input), "/suite/input/foop/23/test1.foo");
    assert_eq!(dir.artifact_path(&id, ArtifactLocation::Stage(Stage::Checked)), "/suite/checked/foop/23/test1.foo.einmo");
    assert_eq!(
        dir.artifact_path(&id, ArtifactLocation::Flagged(Stage::Output)),
        "/suite/output/flagged/foop/23/test1.foo.einmo"
    );
    assert_eq!(EinmoDirectory::new("rel/").location_dir(ArtifactLocation::Stage(Stage::Verified)), "rel/verified");
    assert_eq!(EinmoDirectory::new("").location_dir(ArtifactLocation::Input), "input");
    assert_eq!(dir.root(), "/suite");
}
