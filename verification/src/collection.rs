//! A storage interface stated over abstract collection and file views,
//! with a hardcoded instance that serves a fixed layout and synthesizes
//! file content from file names.

use vstd::prelude::*;
use vstd::string::StrSliceExecFns;
use vstd::string::StringExecFns;
use vstd::utf8::encode_utf8;
use crate::views::{Collection, CollectionView, File, FileContent, FileView};
use crate::views::{collection_view, collections_view, file_view, files_view};
use crate::views::{clone_collections, lemma_collections_view};

verus! {

/// What can go wrong when a storage backend is built from a filesystem
/// root.
#[derive(Debug)]
pub enum StorageErr {
    NotADirectory,
    NotAFile,
    InvalidPath,
}

/// The synthesized content of a file: a heading derived from the file's
/// name alone.
pub open spec fn synthetic_content(name: Seq<char>) -> Seq<char> {
    "# "@ + name + " content"@
}

/// The bytes the synthesized content is served as.
pub open spec fn content_bytes(name: Seq<char>) -> Seq<u8> {
    encode_utf8(synthetic_content(name))
}

/// A read-only store of collections and files, addressed by dense numeric
/// ids.  The two sequences of views say, per id, exactly what each lookup
/// returns.
pub trait Storage: Sized {
    /// The collection views this storage serves, positioned by id.
    spec fn collections(&self) -> Seq<CollectionView>;

    /// The file views this storage serves, positioned by id.
    spec fn files(&self) -> Seq<FileView>;

    /// What a freshly created instance holds.
    spec fn is_initial(&self) -> bool;

    /// Create the storage with its promised initial contents.
    fn new() -> (s: Self)
        ensures
            s.is_initial(),
    ;

    /// Every collection served, in id order.
    fn get_collection_all(&self) -> (r: Vec<Collection>)
        ensures
            collections_view(r@) == self.collections(),
    ;

    /// The collection at `id`; `Err` exactly when `id` is out of range.
    fn get_collection(&self, id: u64) -> (r: Result<Collection, ()>)
        ensures
            match r {
                Ok(c) => id < self.collections().len() && collection_view(c)
                    == self.collections()[id as int],
                Err(_) => id >= self.collections().len(),
            },
    ;

    /// The file at `id`; `Err` exactly when `id` is out of range.
    fn get_file(&self, id: u64) -> (r: Result<File, ()>)
        ensures
            match r {
                Ok(f) => id < self.files().len() && file_view(f) == self.files()[id as int],
                Err(_) => id >= self.files().len(),
            },
    ;

    /// The synthesized content of the file at `id`; `Err` exactly when
    /// `id` is out of range.
    fn get_file_content(&self, id: u64) -> (r: Result<FileContent, ()>)
        ensures
            match r {
                Ok(fc) => id < self.files().len() && fc.body@ == content_bytes(
                    self.files()[id as int].name,
                ),
                Err(_) => id >= self.files().len(),
            },
    ;
}

/// The file views the hardcoded storage serves.  File ids are positions in
/// this sequence; the `id` field each view carries is the fixed value the
/// layout was written with.
pub open spec fn hardcoded_file_views() -> Seq<FileView> {
    seq![
        FileView { name: "f_1.md"@, id: 3 },
        FileView { name: "f 2.md"@, id: 0 },
        FileView { name: "f 3.md"@, id: 1 },
        FileView { name: "f_4.md"@, id: 2 },
    ]
}

/// The collection views the hardcoded storage serves, nested as in the
/// fixed layout:
///
/// ```text
/// collection 4
/// -- collection 3
/// -- -- collection 2
/// -- -- -- f 3.md
/// -- -- -- f_4.md
/// -- -- collection 1
/// -- -- -- collection_0
/// -- -- f 2.md
/// -- f_1.md
/// ```
pub open spec fn hardcoded_collection_views() -> Seq<CollectionView> {
    let c0 = CollectionView {
        name: "collection_1"@,
        id: 0,
        child_collections: Seq::empty(),
        files: Seq::empty(),
    };
    let f2 = FileView { name: "f 2.md"@, id: 0 };
    let c1 = CollectionView {
        name: "collection 1"@,
        id: 1,
        child_collections: seq![c0],
        files: seq![f2],
    };
    let f3 = FileView { name: "f 3.md"@, id: 1 };
    let f4 = FileView { name: "f_4.md"@, id: 2 };
    let c2 = CollectionView {
        name: "collection 2"@,
        id: 2,
        child_collections: Seq::empty(),
        files: seq![f3, f4],
    };
    let c3 = CollectionView {
        name: "collection 3"@,
        id: 3,
        child_collections: seq![c2, c1],
        files: seq![f2],
    };
    let f1 = FileView { name: "f_1.md"@, id: 3 };
    let c4 = CollectionView {
        name: "collection 4"@,
        id: 4,
        child_collections: seq![c3],
        files: seq![f1],
    };
    seq![c0, c1, c2, c3, c4]
}

/// A storage whose entire contents are fixed at construction time.
pub struct HardCodedStorage {
    hard_coded_collections: Vec<Collection>,
    hard_coded_files: Vec<File>,
}

impl Storage for HardCodedStorage {
    closed spec fn collections(&self) -> Seq<CollectionView> {
        collections_view(self.hard_coded_collections@)
    }

    closed spec fn files(&self) -> Seq<FileView> {
        files_view(self.hard_coded_files@)
    }

    open spec fn is_initial(&self) -> bool {
        self.collections() == hardcoded_collection_views() && self.files()
            == hardcoded_file_views()
    }

    fn new() -> (s: Self) {
        let ghost hc = hardcoded_collection_views();
        let collection_0 = Collection {
            name: "collection_1".to_owned(),
            id: 0,
            child_collections: Vec::new(),
            files: Vec::new(),
        };
        proof {
            assert(collections_view(collection_0.child_collections@) =~= Seq::<
                CollectionView,
            >::empty());
            assert(files_view(collection_0.files@) =~= Seq::<FileView>::empty());
            assert(collection_view(collection_0) =~~= hc[0]);
        }
        let f_2 = File { name: "f 2.md".to_owned(), id: 0 };
        let mut c1_children: Vec<Collection> = Vec::new();
        c1_children.push(collection_0.clone());
        let mut c1_files: Vec<File> = Vec::new();
        c1_files.push(f_2.clone());
        let collection_1 = Collection {
            name: "collection 1".to_owned(),
            id: 1,
            child_collections: c1_children,
            files: c1_files,
        };
        proof {
            lemma_collections_view(collection_1.child_collections@);
            assert(collections_view(collection_1.child_collections@) =~= seq![
                collection_view(collection_0),
            ]);
            assert(files_view(collection_1.files@) =~= seq![file_view(f_2)]);
            assert(collection_view(collection_1) =~~= hc[1]);
        }
        let f_3 = File { name: "f 3.md".to_owned(), id: 1 };
        let f_4 = File { name: "f_4.md".to_owned(), id: 2 };
        let mut c2_files: Vec<File> = Vec::new();
        c2_files.push(f_3.clone());
        c2_files.push(f_4.clone());
        let collection_2 = Collection {
            name: "collection 2".to_owned(),
            id: 2,
            child_collections: Vec::new(),
            files: c2_files,
        };
        proof {
            assert(collections_view(collection_2.child_collections@) =~= Seq::<
                CollectionView,
            >::empty());
            assert(files_view(collection_2.files@) =~= seq![file_view(f_3), file_view(f_4)]);
            assert(collection_view(collection_2) =~~= hc[2]);
        }
        let mut c3_children: Vec<Collection> = Vec::new();
        c3_children.push(collection_2.clone());
        c3_children.push(collection_1.clone());
        let mut c3_files: Vec<File> = Vec::new();
        c3_files.push(f_2.clone());
        let collection_3 = Collection {
            name: "collection 3".to_owned(),
            id: 3,
            child_collections: c3_children,
            files: c3_files,
        };
        proof {
            lemma_collections_view(collection_3.child_collections@);
            assert(collections_view(collection_3.child_collections@) =~= seq![
                collection_view(collection_2),
                collection_view(collection_1),
            ]);
            assert(files_view(collection_3.files@) =~= seq![file_view(f_2)]);
            assert(collection_view(collection_3) =~~= hc[3]);
        }
        let f_1 = File { name: "f_1.md".to_owned(), id: 3 };
        let mut c4_children: Vec<Collection> = Vec::new();
        c4_children.push(collection_3.clone());
        let mut c4_files: Vec<File> = Vec::new();
        c4_files.push(f_1.clone());
        let collection_4 = Collection {
            name: "collection 4".to_owned(),
            id: 4,
            child_collections: c4_children,
            files: c4_files,
        };
        proof {
            lemma_collections_view(collection_4.child_collections@);
            assert(collections_view(collection_4.child_collections@) =~= seq![
                collection_view(collection_3),
            ]);
            assert(files_view(collection_4.files@) =~= seq![file_view(f_1)]);
            assert(collection_view(collection_4) =~~= hc[4]);
        }
        let mut hard_coded_collections: Vec<Collection> = Vec::new();
        hard_coded_collections.push(collection_0);
        hard_coded_collections.push(collection_1);
        hard_coded_collections.push(collection_2);
        hard_coded_collections.push(collection_3);
        hard_coded_collections.push(collection_4);
        let mut hard_coded_files: Vec<File> = Vec::new();
        hard_coded_files.push(f_1);
        hard_coded_files.push(f_2);
        hard_coded_files.push(f_3);
        hard_coded_files.push(f_4);
        let s = HardCodedStorage { hard_coded_collections, hard_coded_files };
        proof {
            lemma_collections_view(s.hard_coded_collections@);
            assert(s.collections() =~= hardcoded_collection_views());
            assert(s.files() =~= hardcoded_file_views());
        }
        s
    }

    fn get_collection_all(&self) -> (r: Vec<Collection>) {
        clone_collections(&self.hard_coded_collections)
    }

    fn get_collection(&self, id: u64) -> (r: Result<Collection, ()>) {
        proof {
            lemma_collections_view(self.hard_coded_collections@);
        }
        if id < self.hard_coded_collections.len() as u64 {
            let index = id as usize;
            Ok(self.hard_coded_collections[index].clone())
        } else {
            Err(())
        }
    }

    fn get_file(&self, id: u64) -> (r: Result<File, ()>) {
        if id < self.hard_coded_files.len() as u64 {
            let index = id as usize;
            Ok(self.hard_coded_files[index].clone())
        } else {
            Err(())
        }
    }

    fn get_file_content(&self, id: u64) -> (r: Result<FileContent, ()>) {
        match self.get_file(id) {
            Ok(file) => {
                let mut text = "# ".to_owned();
                text.append(file.name.as_str());
                text.append(" content");
                proof {
                    assert(text@ == synthetic_content(self.files()[id as int].name));
                }
                let body = text.as_str().as_bytes_vec();
                Ok(FileContent { body })
            },
            Err(_) => Err(()),
        }
    }
}

} // verus!
