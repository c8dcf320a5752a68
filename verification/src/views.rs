//! The transient, request-scoped representations that the read accessors
//! hand to callers: a nested `Collection` for a directory handle, a flat
//! `File` for a file handle, raw `FileContent` bytes.

use vstd::prelude::*;

verus! {

/// Flat view of one indexed file: its display name and its handle id.
#[derive(Debug, PartialEq)]
pub struct File {
    pub name: String,
    pub id: u64,
}

/// Nested view of one indexed directory: child directories expanded
/// recursively into collections, child files as flat entries.
#[derive(Debug, PartialEq)]
pub struct Collection {
    pub name: String,
    pub id: u64,
    pub child_collections: Vec<Collection>,
    pub files: Vec<File>,
}

/// Raw bytes of one file.
#[derive(Debug, PartialEq)]
pub struct FileContent {
    pub body: Vec<u8>,
}

/// Mathematical image of a `File`.
#[verifier::ext_equal]
pub struct FileView {
    pub name: Seq<char>,
    pub id: int,
}

/// Mathematical image of a `Collection`.
#[verifier::ext_equal]
pub struct CollectionView {
    pub name: Seq<char>,
    pub id: int,
    pub child_collections: Seq<CollectionView>,
    pub files: Seq<FileView>,
}

pub open spec fn file_view(f: File) -> FileView {
    FileView { name: f.name@, id: f.id as int }
}

pub open spec fn files_view(fs: Seq<File>) -> Seq<FileView> {
    fs.map_values(|f: File| file_view(f))
}

pub open spec fn collection_view(c: Collection) -> CollectionView
    decreases c,
{
    CollectionView {
        name: c.name@,
        id: c.id as int,
        child_collections: collections_view(c.child_collections@),
        files: files_view(c.files@),
    }
}

pub open spec fn collections_view(cs: Seq<Collection>) -> Seq<CollectionView>
    decreases cs,
{
    if cs.len() == 0 {
        Seq::empty()
    } else {
        collections_view(cs.drop_last()).push(collection_view(cs.last()))
    }
}

/// `collections_view` maps the sequence element by element.
pub proof fn lemma_collections_view(cs: Seq<Collection>)
    ensures
        collections_view(cs).len() == cs.len(),
        forall|k: int|
            0 <= k < cs.len() ==> #[trigger] collections_view(cs)[k] == collection_view(cs[k]),
    decreases cs,
{
    if cs.len() > 0 {
        lemma_collections_view(cs.drop_last());
    }
}

impl Clone for File {
    /// An exact copy.
    fn clone(&self) -> (r: Self)
        ensures
            r == *self,
    {
        File { name: self.name.clone(), id: self.id }
    }
}

/// Copy a vector of files, element by element.
#[verifier::loop_isolation(false)]
pub fn clone_files(v: &Vec<File>) -> (r: Vec<File>)
    ensures
        r@ == v@,
{
    let mut r: Vec<File> = Vec::new();
    let n = v.len();
    let mut k: usize = 0;
    proof {
        assert(r@ =~= v@.subrange(0, 0));
    }
    while k < n
        invariant
            k <= n,
            r@ == v@.subrange(0, k as int),
        decreases n - k,
    {
        r.push(v[k].clone());
        proof {
            assert(v@.subrange(0, (k + 1) as int) =~= v@.subrange(0, k as int).push(
                v@[k as int],
            ));
        }
        k = k + 1;
    }
    proof {
        assert(v@.subrange(0, n as int) =~= v@);
    }
    r
}

/// Copy a vector of collections, element by element; the copy's view is
/// the view of the vector it was copied from.
#[verifier::loop_isolation(false)]
pub fn clone_collections(v: &Vec<Collection>) -> (r: Vec<Collection>)
    ensures
        collections_view(r@) == collections_view(v@),
    decreases *v,
{
    let mut r: Vec<Collection> = Vec::new();
    let n = v.len();
    let mut k: usize = 0;
    proof {
        assert(v@.subrange(0, 0) =~= Seq::<Collection>::empty());
        assert(collections_view(r@) =~= Seq::<CollectionView>::empty());
    }
    while k < n
        invariant
            k <= n,
            collections_view(r@) == collections_view(v@.subrange(0, k as int)),
        decreases n - k,
    {
        proof {
            assert(decreases_to!(*v => v@));
            assert(decreases_to!(v@ => v@[k as int]));
            assert(decreases_to!(*v => v@[k as int]));
        }
        let c = v[k].clone();
        let ghost old_r = r@;
        r.push(c);
        proof {
            assert((old_r.push(c)).drop_last() =~= old_r);
            let t = v@.subrange(0, (k + 1) as int);
            assert(t.drop_last() =~= v@.subrange(0, k as int));
            assert(t.last() == v@[k as int]);
        }
        k = k + 1;
    }
    proof {
        assert(v@.subrange(0, n as int) =~= v@);
    }
    r
}

impl Clone for Collection {
    /// A copy with the same view.
    fn clone(&self) -> (r: Self)
        ensures
            collection_view(r) == collection_view(*self),
        decreases *self,
    {
        proof {
            assert(decreases_to!(*self => self.child_collections));
        }
        let child_collections = clone_collections(&self.child_collections);
        let files = clone_files(&self.files);
        Collection { name: self.name.clone(), id: self.id, child_collections, files }
    }
}

} // verus!
