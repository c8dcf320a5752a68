use std::collections::HashSet;

use oxygen::storage::{
    classify, index_storage, Classification, FsEntry, Handle, HandleType, Storage, StorageErr,
};
use oxygen::views::{Collection, File};

fn file(name: &str) -> FsEntry {
    FsEntry::File { name: name.to_string() }
}

fn dir(name: &str, entries: Vec<FsEntry>) -> FsEntry {
    FsEntry::Directory { name: name.to_string(), entries }
}

fn link(name: &str) -> FsEntry {
    FsEntry::Symlink { name: name.to_string() }
}

/// The fixed directory layout the storage tests run against:
///
/// test_storage
/// -- collection 4
/// -- -- collection 3
/// -- -- -- collection 2
/// -- -- -- -- f 3.md
/// -- -- -- -- f_4.md
/// -- -- -- collection 1
/// -- -- -- -- collection_0
/// -- -- -- f 2.md
/// -- -- f_1.md
fn test_tree() -> FsEntry {
    dir(
        "./test_storage",
        vec![dir(
            "collection 4",
            vec![
                dir(
                    "collection 3",
                    vec![
                        dir("collection 2", vec![file("f 3.md"), file("f_4.md")]),
                        dir("collection 1", vec![dir("collection_0", vec![])]),
                        file("f 2.md"),
                    ],
                ),
                file("f_1.md"),
            ],
        )],
    )
}

fn handles() -> Vec<Handle> {
    index_storage(Some(&test_tree())).expect("indexing hardcoded storage must succeed")
}

fn collection_handles() -> Vec<Handle> {
    handles()
        .into_iter()
        .filter(|handle| match handle.handle_type {
            HandleType::Directory => true,
            HandleType::File => false,
        })
        .collect()
}

fn file_handles() -> Vec<Handle> {
    handles()
        .into_iter()
        .filter(|handle| match handle.handle_type {
            HandleType::Directory => false,
            HandleType::File => true,
        })
        .collect()
}

fn test_storage() -> Storage {
    Storage::new(Some(&test_tree())).expect("expect storage initialization to succeed")
}

#[test]
fn storage_can_index_test_storage() {
    let handles = index_storage(Some(&test_tree())).expect("Indexing hardcoded storage must succeed");
    assert!(handles.len() == 10)
}

#[test]
fn can_get_all_collections() {
    let storage = test_storage();
    let collections = storage.get_collection_all();
    let mut unique_ids = HashSet::new();
    // assert all ids are unique
    assert!(collections
        .iter()
        .map(|collection| { collection.id })
        .all(|id| unique_ids.insert(id)));

    // assert we got all the collections and handle index is same as collection id
    assert!(collection_handles()
        .iter()
        .map(|handle| { handle.index as u64 })
        .all(|index| unique_ids.contains(&index)));
}

#[test]
fn can_get_individual_collection() {
    let storage = test_storage();
    let handles = handles();
    for handle in collection_handles() {
        let collection = storage
            .get_collection(handle.index as u64)
            .expect("getting collection should not fail");
        assert_eq!(handle.index as u64, collection.id);
        let expected = Collection::from_handle(&handle, &handles);
        assert_eq!(expected, collection);
    }
}

#[test]
fn can_get_individual_files() {
    let storage = test_storage();
    let handles = handles();
    for handle in file_handles() {
        let file = storage
            .get_file(handle.index as u64)
            .expect("getting file should not fail");
        assert_eq!(handle.index as u64, file.id);
        let expected = File::from_handle(&handle, &handles);
        assert_eq!(expected, file);
    }
}

#[test]
fn ids_are_dense_and_children_point_below() {
    let handles = handles();
    for (position, handle) in handles.iter().enumerate() {
        assert_eq!(handle.index, position);
        for child in &handle.child_indices {
            assert!(*child < handle.index);
        }
        if matches!(handle.handle_type, HandleType::File) {
            assert!(handle.child_indices.is_empty());
        }
    }
}

#[test]
fn file_and_directory_ids_match_fixture() {
    let handles = handles();
    let file_ids: Vec<usize> = handles
        .iter()
        .filter(|handle| matches!(handle.handle_type, HandleType::File))
        .map(|handle| handle.index)
        .collect();
    let dir_ids: Vec<usize> = handles
        .iter()
        .filter(|handle| matches!(handle.handle_type, HandleType::Directory))
        .map(|handle| handle.index)
        .collect();
    assert_eq!(file_ids, vec![0, 1, 5, 7]);
    assert_eq!(dir_ids, vec![2, 3, 4, 6, 8, 9]);
}

#[test]
fn all_collections_has_one_entry_per_directory() {
    let storage = test_storage();
    let collections = storage.get_collection_all();
    assert_eq!(collections.len(), collection_handles().len());
    assert_eq!(collections.len(), 6);
}

#[test]
fn names_are_last_path_segments() {
    let storage = test_storage();
    // the root path "./test_storage" names the root collection by its
    // last segment only
    let root = storage.get_collection(9).expect("root must resolve");
    assert_eq!(root.name, "test_storage");
    assert_eq!(root.id, 9);
    assert_eq!(root.child_collections.len(), 1);
    assert_eq!(root.child_collections[0].name, "collection 4");
    assert!(root.files.is_empty());

    let with_space = storage.get_collection(4).expect("collection 1 must resolve");
    assert_eq!(with_space.name, "collection 1");
    assert_eq!(with_space.child_collections.len(), 1);
    assert_eq!(with_space.child_collections[0].name, "collection_0");

    let file = storage.get_file(5).expect("f 2.md must resolve");
    assert_eq!(file.name, "f 2.md");
}

#[test]
fn get_collection_on_file_id_is_type_mismatch() {
    let storage = test_storage();
    for id in [0u64, 1, 5, 7] {
        let got = storage.get_collection(id);
        assert_eq!(got.unwrap_err(), StorageErr::TypeMismatch);
    }
}

#[test]
fn get_file_on_directory_id_is_type_mismatch() {
    let storage = test_storage();
    for id in [2u64, 3, 4, 6, 8, 9] {
        let got = storage.get_file(id);
        assert_eq!(got.unwrap_err(), StorageErr::TypeMismatch);
    }
}

#[test]
fn out_of_range_ids_are_not_found() {
    let storage = test_storage();
    for id in [10u64, 100, 10000000] {
        assert_eq!(storage.get_collection(id).unwrap_err(), StorageErr::NotFound);
        assert_eq!(storage.get_file(id).unwrap_err(), StorageErr::NotFound);
        assert_eq!(storage.get_file_path(id).unwrap_err(), StorageErr::NotFound);
    }
}

#[test]
fn repeated_lookups_return_equal_results() {
    let storage = test_storage();
    assert_eq!(storage.get_collection(6), storage.get_collection(6));
    assert_eq!(storage.get_file(5), storage.get_file(5));
    assert_eq!(storage.get_collection_all(), storage.get_collection_all());
}

#[test]
fn file_paths_are_the_indexed_paths() {
    let storage = test_storage();
    let expected = [
        (0u64, "./test_storage/collection 4/collection 3/collection 2/f 3.md"),
        (1u64, "./test_storage/collection 4/collection 3/collection 2/f_4.md"),
        (5u64, "./test_storage/collection 4/collection 3/f 2.md"),
        (7u64, "./test_storage/collection 4/f_1.md"),
    ];
    for (id, path) in expected {
        let got = storage.get_file_path(id).expect("getting file path should not fail");
        assert_eq!(got, path);
    }
    for handle in file_handles() {
        let got = storage
            .get_file_path(handle.index as u64)
            .expect("getting file path should not fail");
        assert_eq!(got, handle.path);
    }
}

#[test]
fn missing_root_is_invalid_path() {
    assert!(matches!(index_storage(None), Err(StorageErr::InvalidPath)));
    assert!(matches!(Storage::new(None), Err(StorageErr::InvalidPath)));
}

#[test]
fn non_directory_root_is_rejected() {
    let file_root = file("a.md");
    assert!(matches!(
        index_storage(Some(&file_root)),
        Err(StorageErr::NotADirectory)
    ));
    let link_root = link("a_link");
    assert!(matches!(
        Storage::new(Some(&link_root)),
        Err(StorageErr::NotADirectory)
    ));
}

#[test]
fn classification_follows_extension_rules() {
    assert_eq!(classify(&file("a.md")), Classification::IndexAsFile);
    assert_eq!(classify(&file("a.tar.md")), Classification::IndexAsFile);
    assert_eq!(classify(&file(".hidden.md")), Classification::IndexAsFile);
    assert_eq!(classify(&file("c.txt")), Classification::Skip);
    assert_eq!(classify(&file("README")), Classification::Skip);
    assert_eq!(classify(&file(".md")), Classification::Skip);
    assert_eq!(classify(&file("a.")), Classification::Skip);
    assert_eq!(classify(&file("md")), Classification::Skip);
    assert_eq!(classify(&dir("anything.txt", vec![])), Classification::IndexAsDirectory);
    assert_eq!(classify(&link("a.md")), Classification::Skip);
}

#[test]
fn symlinks_leave_no_trace_in_the_arena() {
    let tree = dir("root", vec![link("looping.md"), file("kept.md"), link("sub")]);
    let handles = index_storage(Some(&tree)).expect("indexing must succeed");
    assert_eq!(handles.len(), 2);
    assert_eq!(handles[0].path, "root/kept.md");
    assert!(matches!(handles[0].handle_type, HandleType::File));
    assert_eq!(handles[1].path, "root");
    assert_eq!(handles[1].child_indices, vec![0]);
}

#[test]
fn empty_directory_still_gets_a_handle() {
    let storage = Storage::new(Some(&dir("empty", vec![]))).expect("expect storage initialization to succeed");
    let collections = storage.get_collection_all();
    assert_eq!(collections.len(), 1);
    assert_eq!(collections[0].id, 0);
    assert_eq!(collections[0].name, "empty");
    assert!(collections[0].child_collections.is_empty());
    assert!(collections[0].files.is_empty());
}

#[test]
fn end_to_end_scenario() {
    // root holds a.md, a subdirectory sub with b.md, and c.txt of the
    // wrong extension; the root itself is indexed, last.
    let tree = dir("docs", vec![file("a.md"), dir("sub", vec![file("b.md")]), file("c.txt")]);
    let storage = Storage::new(Some(&tree)).expect("expect storage initialization to succeed");
    let handles = index_storage(Some(&tree)).expect("indexing must succeed");
    assert_eq!(handles.len(), 4);
    assert_eq!(handles[0].path, "docs/a.md");
    assert_eq!(handles[1].path, "docs/sub/b.md");
    assert_eq!(handles[2].path, "docs/sub");
    assert_eq!(handles[3].path, "docs");

    let collections = storage.get_collection_all();
    assert_eq!(collections.len(), 2);

    let sub = storage.get_collection(2).expect("sub must resolve");
    assert_eq!(sub.name, "sub");
    assert_eq!(sub.id, 2);
    assert!(sub.child_collections.is_empty());
    assert_eq!(sub.files.len(), 1);
    assert_eq!(sub.files[0].name, "b.md");
    assert_eq!(sub.files[0].id, 1);

    let root = storage.get_collection(3).expect("root must resolve");
    assert_eq!(root.name, "docs");
    assert_eq!(root.id, 3);
    assert_eq!(root.child_collections.len(), 1);
    assert_eq!(root.child_collections[0].name, "sub");
    assert_eq!(root.files.len(), 1);
    assert_eq!(root.files[0].name, "a.md");
    assert_eq!(root.files[0].id, 0);

    // c.txt was never indexed
    for handle in &handles {
        assert!(handle.path != "docs/c.txt");
    }
}
