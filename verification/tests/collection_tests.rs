use oxygen::collection::{HardCodedStorage, Storage};
use oxygen::storage::{index_storage, FsEntry};

fn file(name: &str) -> FsEntry {
    FsEntry::File { name: name.to_string() }
}

fn dir(name: &str, entries: Vec<FsEntry>) -> FsEntry {
    FsEntry::Directory { name: name.to_string(), entries }
}

/// The same fixed layout as in the storage tests.
fn test_tree() -> FsEntry {
    dir(
        "./test_storage",
        vec![dir(
            "collection 4",
            vec![
                dir(
                    "collection 3",
                    vec![
                        dir("collection 2", vec![file("f 3.md"), file("f_4.md")]),
                        dir("collection 1", vec![dir("collection_0", vec![])]),
                        file("f 2.md"),
                    ],
                ),
                file("f_1.md"),
            ],
        )],
    )
}

#[test]
fn collection_can_index_test_storage() {
    let handles = index_storage(Some(&test_tree())).expect("Indexing hardcoded storage must succeed");
    assert!(handles.len() == 10)
}

#[test]
fn hardcoded_storage_serves_five_collections() {
    let storage = HardCodedStorage::new();
    let collections = storage.get_collection_all();
    assert_eq!(collections.len(), 5);
    for (position, collection) in collections.iter().enumerate() {
        assert_eq!(collection.id, position as u64);
    }
    assert_eq!(collections[4].name, "collection 4");
    assert_eq!(collections[4].child_collections.len(), 1);
    assert_eq!(collections[4].child_collections[0].name, "collection 3");
    assert_eq!(collections[4].files.len(), 1);
    assert_eq!(collections[4].files[0].name, "f_1.md");
}

#[test]
fn hardcoded_storage_get_collection_by_id() {
    let storage = HardCodedStorage::new();
    let collection = storage.get_collection(2).expect("getting collection should not fail");
    assert_eq!(collection.name, "collection 2");
    assert_eq!(collection.id, 2);
    assert!(collection.child_collections.is_empty());
    let file_names: Vec<String> = collection.files.iter().map(|f| f.name.clone()).collect();
    assert_eq!(file_names, vec!["f 3.md".to_string(), "f_4.md".to_string()]);
    assert!(storage.get_collection(5).is_err());
    assert!(storage.get_collection(10000000).is_err());
}

#[test]
fn hardcoded_storage_get_file_by_id() {
    let storage = HardCodedStorage::new();
    // the stored file records carry the ids the layout was written with,
    // which differ from the positions the lookups use
    let file = storage.get_file(0).expect("getting file should not fail");
    assert_eq!(file.name, "f_1.md");
    assert_eq!(file.id, 3);
    let file = storage.get_file(3).expect("getting file should not fail");
    assert_eq!(file.name, "f_4.md");
    assert_eq!(file.id, 2);
    assert!(storage.get_file(4).is_err());
    assert!(storage.get_file(10000000).is_err());
}

#[test]
fn hardcoded_storage_synthesizes_content() {
    let storage = HardCodedStorage::new();
    for id in [0u64, 1, 2, 3] {
        let content = storage.get_file_content(id).expect("getting file content should not fail");
        let file = storage.get_file(id).expect("getting file should not fail");
        let expected = format!("# {} content", file.name);
        assert_eq!(content.body, expected.as_bytes());
    }
    let content = storage.get_file_content(0).expect("getting file content should not fail");
    assert_eq!(content.body, b"# f_1.md content");
    assert!(storage.get_file_content(4).is_err());
}
