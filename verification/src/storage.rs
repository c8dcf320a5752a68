//! The indexing and lookup engine.
//!
//! `index_storage` converts a filesystem subtree, handed over as a plain
//! `FsEntry` tree, into an arena of numbered handles (post-order, children
//! before their parent), and `Storage` owns that arena and answers lookups
//! by handle id.

use vstd::prelude::*;
use vstd::string::StrSliceExecFns;
use vstd::string::StringExecFns;
use crate::views::{Collection, CollectionView, File, FileView};
use crate::views::{collection_view, collections_view, file_view, files_view};
use crate::views::lemma_collections_view;

verus! {

/// The kind of filesystem entry a handle stands for.
#[derive(Clone, Copy, Debug, PartialEq, Eq, Structural)]
pub enum HandleType {
    File,
    Directory,
}

/// One filesystem entry accepted into the index.  All storage APIs use the
/// `index` as the identifier for directories and files.
#[derive(Debug)]
pub struct Handle {
    pub handle_type: HandleType,
    pub path: String,
    pub index: usize,
    pub child_indices: Vec<usize>,
}

/// Mathematical image of a `Handle`.
#[verifier::ext_equal]
pub struct HandleView {
    pub handle_type: HandleType,
    pub path: Seq<char>,
    pub index: int,
    pub child_indices: Seq<int>,
}

impl View for Handle {
    type V = HandleView;

    open spec fn view(&self) -> HandleView {
        HandleView {
            handle_type: self.handle_type,
            path: self.path@,
            index: self.index as int,
            child_indices: self.child_indices@.map_values(|u: usize| u as int),
        }
    }
}

/// The arena as a sequence of handle images.
pub open spec fn arena_view(hs: Seq<Handle>) -> Seq<HandleView> {
    hs.map_values(|h: Handle| h@)
}

/// A filesystem subtree, read by the caller and handed to the indexer as
/// plain values.  Each entry carries the bare name the directory listing
/// produced for it, in listing order; the root entry carries the root path
/// itself.  An entry that is neither a regular file nor a directory is
/// handed over as `Symlink`.
pub enum FsEntry {
    File { name: String },
    Directory { name: String, entries: Vec<FsEntry> },
    Symlink { name: String },
}

/// How the indexer treats one filesystem entry.
#[derive(Clone, Copy, Debug, PartialEq, Eq, Structural)]
pub enum Classification {
    IndexAsFile,
    IndexAsDirectory,
    Skip,
}

/// What can go wrong when building or reading the index.  The first two
/// arise at construction and are fatal to startup; the last two answer a
/// single lookup and leave the storage serving.
#[derive(Clone, Copy, Debug, PartialEq, Eq, Structural)]
pub enum StorageErr {
    InvalidPath,
    NotADirectory,
    NotFound,
    TypeMismatch,
}

/// The name of a filesystem entry.
pub open spec fn entry_name(e: FsEntry) -> Seq<char> {
    match e {
        FsEntry::File { name } => name@,
        FsEntry::Directory { name, .. } => name@,
        FsEntry::Symlink { name } => name@,
    }
}

/// The last `/`-separated segment of a path: what stands after the final
/// slash, or the whole path when it holds no slash.
pub open spec fn last_segment(p: Seq<char>) -> Seq<char>
    decreases p.len(),
{
    if p.len() == 0 {
        Seq::empty()
    } else if p.last() == '/' {
        Seq::empty()
    } else {
        last_segment(p.drop_last()).push(p.last())
    }
}

/// The position of the last `.` in `name`, if it holds one.
pub open spec fn last_dot(name: Seq<char>) -> Option<int>
    decreases name.len(),
{
    if name.len() == 0 {
        None
    } else if name.last() == '.' {
        Some(name.len() - 1)
    } else {
        last_dot(name.drop_last())
    }
}

/// The extension of a file name: what stands after the final `.`, defined
/// only when that dot stands past the first character (a name whose only
/// dot opens it has no extension).
pub open spec fn extension_of(name: Seq<char>) -> Option<Seq<char>> {
    match last_dot(name) {
        None => None,
        Some(j) => if j == 0 {
            None
        } else {
            Some(name.subrange(j + 1, name.len() as int))
        },
    }
}

/// The one recognized extension.
pub open spec fn md_extension() -> Seq<char> {
    seq!['m', 'd']
}

/// Does the file name carry the recognized extension?
pub open spec fn is_md_name(name: Seq<char>) -> bool {
    extension_of(name) == Some(md_extension())
}

/// How the indexer classifies one entry: symbolic links are always skipped,
/// regular files are indexed only under the recognized extension, and
/// directories are always traversed.
pub open spec fn spec_classify(e: FsEntry) -> Classification {
    match e {
        FsEntry::Symlink { .. } => Classification::Skip,
        FsEntry::File { name } => if is_md_name(name@) {
            Classification::IndexAsFile
        } else {
            Classification::Skip
        },
        FsEntry::Directory { .. } => Classification::IndexAsDirectory,
    }
}

/// A suffix free of `/` and opened by a slash (or by the start of the
/// path) is exactly the last segment.
proof fn lemma_last_segment_suffix(p: Seq<char>, i: int)
    requires
        0 <= i <= p.len(),
        forall|m: int| i <= m < p.len() ==> p[m] != '/',
        i == 0 || p[i - 1] == '/',
    ensures
        last_segment(p) == p.subrange(i, p.len() as int),
    decreases p.len(),
{
    if p.len() == 0 {
        assert(last_segment(p) =~= p.subrange(i, p.len() as int));
    } else if p.last() == '/' {
        assert(i == p.len());
        assert(last_segment(p) =~= p.subrange(i, p.len() as int));
    } else {
        assert(i < p.len());
        lemma_last_segment_suffix(p.drop_last(), i);
        assert(p.drop_last().subrange(i, p.len() - 1) =~= p.subrange(i, p.len() - 1));
        assert(last_segment(p) =~= p.subrange(i, p.len() as int));
    }
}

/// A suffix free of `.` and opened by a dot pins down `last_dot`.
proof fn lemma_last_dot_suffix(p: Seq<char>, i: int)
    requires
        0 <= i <= p.len(),
        forall|m: int| i <= m < p.len() ==> p[m] != '.',
        i == 0 || p[i - 1] == '.',
    ensures
        last_dot(p) == if i == 0 { None } else { Some(i - 1) },
    decreases p.len(),
{
    if p.len() == 0 {
    } else if p.last() == '.' {
        assert(i == p.len());
    } else {
        assert(i < p.len());
        lemma_last_dot_suffix(p.drop_last(), i);
    }
}

/// Decide whether `name` carries the recognized extension.
pub fn name_has_md_extension(name: &str) -> (r: bool)
    ensures
        r == is_md_name(name@),
{
    let n = name.unicode_len();
    let mut i = n;
    while i > 0 && name.get_char(i - 1) != '.'
        invariant
            i <= n,
            n == name@.len(),
            forall|m: int| i <= m < n ==> name@[m] != '.',
        decreases i,
    {
        i = i - 1;
    }
    proof {
        lemma_last_dot_suffix(name@, i as int);
    }
    if i <= 1 {
        // no dot at all, or a name opened by its only dot: no extension
        false
    } else if n - i == 2 {
        let c1 = name.get_char(i);
        let c2 = name.get_char(i + 1);
        let r = c1 == 'm' && c2 == 'd';
        proof {
            if r {
                assert(name@.subrange(i as int, n as int) =~= md_extension());
            } else {
                assert(name@.subrange(i as int, n as int) != md_extension());
            }
        }
        r
    } else {
        proof {
            assert(name@.subrange(i as int, n as int).len() != md_extension().len());
        }
        false
    }
}

/// The last `/`-separated segment of `path`, as a fresh string.
pub fn last_segment_of(path: &str) -> (r: String)
    ensures
        r@ == last_segment(path@),
{
    let n = path.unicode_len();
    let mut i = n;
    while i > 0 && path.get_char(i - 1) != '/'
        invariant
            i <= n,
            n == path@.len(),
            forall|m: int| i <= m < n ==> path@[m] != '/',
        decreases i,
    {
        i = i - 1;
    }
    proof {
        lemma_last_segment_suffix(path@, i as int);
    }
    path.substring_char(i, n).to_owned()
}

/// The display name of a handle: the last segment of its stored path.
pub fn handle_name(handle: &Handle) -> (r: String)
    ensures
        r@ == last_segment(handle@.path),
{
    last_segment_of(handle.path.as_str())
}

/// Well-formedness of the handle at position `i` of the arena: its own id
/// is its position, every child id refers strictly below it, and a file
/// handle holds no children.
pub open spec fn handle_wf_at(a: Seq<HandleView>, i: int) -> bool {
    &&& a[i].index == i
    &&& forall|k: int|
        0 <= k < a[i].child_indices.len() ==> 0 <= #[trigger] a[i].child_indices[k] < i
    &&& (a[i].handle_type == HandleType::File ==> a[i].child_indices.len() == 0)
}

/// The arena invariant: ids are unique and dense (each handle sits at its
/// own id) and every child id is strictly smaller than its parent's id, so
/// the child graph is acyclic by construction.
pub open spec fn arena_wf(a: Seq<HandleView>) -> bool {
    forall|i: int| 0 <= i < a.len() ==> #[trigger] handle_wf_at(a, i)
}

/// One entry indexed onto the end of `arena`, post-order: the arena
/// afterwards, and the id of the entry's own handle when the classifier
/// admits the entry.  `path` is the entry's full path.
pub open spec fn spec_index_entry(e: FsEntry, path: Seq<char>, arena: Seq<HandleView>) -> (
    Seq<HandleView>,
    Option<int>,
)
    decreases e,
{
    match e {
        FsEntry::Symlink { .. } => (arena, None),
        FsEntry::File { name } => if is_md_name(name@) {
            (
                arena.push(
                    HandleView {
                        handle_type: HandleType::File,
                        path: path,
                        index: arena.len() as int,
                        child_indices: Seq::empty(),
                    },
                ),
                Some(arena.len() as int),
            )
        } else {
            (arena, None)
        },
        FsEntry::Directory { name, entries } => {
            let (a1, children) = spec_index_entries(entries@, path, arena);
            (
                a1.push(
                    HandleView {
                        handle_type: HandleType::Directory,
                        path: path,
                        index: a1.len() as int,
                        child_indices: children,
                    },
                ),
                Some(a1.len() as int),
            )
        },
    }
}

/// The entries of one directory at `dir_path`, indexed left to right: the
/// arena afterwards and the ids of the handles they produced, in order.
pub open spec fn spec_index_entries(
    s: Seq<FsEntry>,
    dir_path: Seq<char>,
    arena: Seq<HandleView>,
) -> (Seq<HandleView>, Seq<int>)
    decreases s,
{
    if s.len() == 0 {
        (arena, Seq::empty())
    } else {
        let (a1, ids1) = spec_index_entries(s.drop_last(), dir_path, arena);
        let e = s.last();
        let (a2, id) = spec_index_entry(e, dir_path + seq!['/'] + entry_name(e), a1);
        (
            a2,
            match id {
                Some(i) => ids1.push(i),
                None => ids1,
            },
        )
    }
}

/// The whole arena produced for a root entry: the root's path is the path
/// it was named by, and the root itself is indexed (last, as id
/// `len - 1`).
pub open spec fn spec_index_root(root: FsEntry) -> Seq<HandleView> {
    spec_index_entry(root, entry_name(root), Seq::empty()).0
}

/// Invariant law of the indexer: indexing one entry extends the arena
/// without touching what was already there, keeps it well-formed, and
/// hands back an id (if any) of a handle it appended.
pub proof fn lemma_index_entry_wf(e: FsEntry, path: Seq<char>, arena: Seq<HandleView>)
    requires
        arena_wf(arena),
    ensures
        ({
            let (a2, id) = spec_index_entry(e, path, arena);
            &&& arena_wf(a2)
            &&& arena.len() <= a2.len()
            &&& a2.subrange(0, arena.len() as int) == arena
            &&& match id {
                Some(i) => arena.len() <= i < a2.len(),
                None => a2 == arena,
            }
        }),
    decreases e,
{
    match e {
        FsEntry::Symlink { .. } => {},
        FsEntry::File { name } => {
            let (a2, id) = spec_index_entry(e, path, arena);
            if is_md_name(name@) {
                assert forall|i: int| 0 <= i < a2.len() implies #[trigger] handle_wf_at(a2, i) by {
                    if i < arena.len() {
                        assert(handle_wf_at(arena, i));
                        assert(a2[i] == arena[i]);
                    }
                }
                assert(a2.subrange(0, arena.len() as int) =~= arena);
            }
        },
        FsEntry::Directory { name, entries } => {
            lemma_index_entries_wf(entries@, path, arena);
            let (a1, children) = spec_index_entries(entries@, path, arena);
            let (a2, id) = spec_index_entry(e, path, arena);
            assert forall|i: int| 0 <= i < a2.len() implies #[trigger] handle_wf_at(a2, i) by {
                if i < a1.len() {
                    assert(handle_wf_at(a1, i));
                    assert(a2[i] == a1[i]);
                }
            }
            assert(a2.subrange(0, arena.len() as int) =~= a1.subrange(0, arena.len() as int));
        },
    }
}

/// Invariant law of the indexer over one directory listing: the produced
/// child ids all point at handles appended during the listing.
pub proof fn lemma_index_entries_wf(s: Seq<FsEntry>, dir_path: Seq<char>, arena: Seq<HandleView>)
    requires
        arena_wf(arena),
    ensures
        ({
            let (a2, ids) = spec_index_entries(s, dir_path, arena);
            &&& arena_wf(a2)
            &&& arena.len() <= a2.len()
            &&& a2.subrange(0, arena.len() as int) == arena
            &&& forall|k: int| 0 <= k < ids.len() ==> arena.len() <= #[trigger] ids[k] < a2.len()
        }),
    decreases s,
{
    if s.len() > 0 {
        lemma_index_entries_wf(s.drop_last(), dir_path, arena);
        let (a1, ids1) = spec_index_entries(s.drop_last(), dir_path, arena);
        let e = s.last();
        lemma_index_entry_wf(e, dir_path + seq!['/'] + entry_name(e), a1);
        let (a2, id) = spec_index_entry(e, dir_path + seq!['/'] + entry_name(e), a1);
        assert(a2.subrange(0, arena.len() as int) =~= a1.subrange(0, arena.len() as int));
    }
}

/// Invariant law of the whole index: the arena built for any root entry is
/// well-formed, so every child id lies strictly below its parent's id and
/// ids are dense from 0 to arena length - 1.
pub proof fn lemma_index_root_wf(root: FsEntry)
    ensures
        arena_wf(spec_index_root(root)),
{
    lemma_index_entry_wf(root, entry_name(root), Seq::empty());
}

/// Child id vectors as mathematical sequences.
pub open spec fn ids_view(s: Seq<usize>) -> Seq<int> {
    s.map_values(|u: usize| u as int)
}

proof fn lemma_arena_view_push(hs: Seq<Handle>, h: Handle)
    ensures
        arena_view(hs.push(h)) == arena_view(hs).push(h@),
{
    assert(arena_view(hs.push(h)) =~= arena_view(hs).push(h@));
}

proof fn lemma_ids_view_push(s: Seq<usize>, u: usize)
    ensures
        ids_view(s.push(u)) == ids_view(s).push(u as int),
{
    assert(ids_view(s.push(u)) =~= ids_view(s).push(u as int));
}

/// The name a filesystem entry was listed under.
pub fn entry_name_ref(e: &FsEntry) -> (r: &String)
    ensures
        r@ == entry_name(*e),
{
    match e {
        FsEntry::File { name } => name,
        FsEntry::Directory { name, .. } => name,
        FsEntry::Symlink { name } => name,
    }
}

/// Classify one entry, as the indexer does.
pub fn classify(e: &FsEntry) -> (r: Classification)
    ensures
        r == spec_classify(*e),
{
    match e {
        FsEntry::Symlink { .. } => Classification::Skip,
        FsEntry::File { name } => if name_has_md_extension(name.as_str()) {
            Classification::IndexAsFile
        } else {
            Classification::Skip
        },
        FsEntry::Directory { .. } => Classification::IndexAsDirectory,
    }
}

/// Index one entry (whose full path is `path`) onto the end of `handles`:
/// depth-first, post-order, children before their parent, skipped entries
/// leaving no trace.  Returns the id of the entry's own handle when the
/// classifier admitted it.
#[verifier::loop_isolation(false)]
pub fn index_storage_inner(entry: &FsEntry, path: String, handles: &mut Vec<Handle>) -> (r: Option<
    usize,
>)
    ensures
        ({
            let (a2, id) = spec_index_entry(*entry, path@, arena_view(old(handles)@));
            &&& arena_view(final(handles)@) == a2
            &&& match r {
                Some(u) => id == Some(u as int),
                None => id is None,
            }
        }),
    decreases *entry,
{
    match entry {
        FsEntry::Symlink { .. } => None,
        FsEntry::File { name } => {
            if name_has_md_extension(name.as_str()) {
                let index = handles.len();
                let h = Handle {
                    handle_type: HandleType::File,
                    path,
                    index,
                    child_indices: Vec::new(),
                };
                proof {
                    assert(h@.child_indices =~= Seq::<int>::empty());
                    lemma_arena_view_push(handles@, h);
                }
                handles.push(h);
                Some(index)
            } else {
                None
            }
        },
        FsEntry::Directory { name, entries } => {
            let ghost a0 = arena_view(handles@);
            let mut child_indices: Vec<usize> = Vec::new();
            let n = entries.len();
            let mut k: usize = 0;
            proof {
                assert(entries@.subrange(0, 0) =~= Seq::<FsEntry>::empty());
                assert(ids_view(child_indices@) =~= Seq::<int>::empty());
            }
            while k < n
                invariant
                    k <= n,
                    n == entries@.len(),
                    ({
                        let (a1, ids1) = spec_index_entries(
                            entries@.subrange(0, k as int),
                            path@,
                            a0,
                        );
                        &&& arena_view(handles@) == a1
                        &&& ids_view(child_indices@) == ids1
                    }),
                decreases n - k,
            {
                let e = &entries[k];
                let mut child_path = path.clone();
                child_path.append("/");
                child_path.append(entry_name_ref(e).as_str());
                proof {
                    reveal_strlit("/");
                    assert("/"@ =~= seq!['/']);
                    assert(child_path@ == path@ + seq!['/'] + entry_name(*e));
                    let de = FsEntry::Directory { name: *name, entries: *entries };
                    assert(*entry == de);
                    assert(decreases_to!(de => de->Directory_entries));
                    assert(de->Directory_entries == *entries);
                    assert(decreases_to!(*entries => entries@));
                    assert(decreases_to!(entries@ => entries@[k as int]));
                    assert(entries@[k as int] == *e);
                    assert(decreases_to!(*entry => *e));
                }
                let ghost a_before = arena_view(handles@);
                let ghost ids_before = ids_view(child_indices@);
                let idx = index_storage_inner(e, child_path, handles);
                if let Some(ix) = idx {
                    proof {
                        lemma_ids_view_push(child_indices@, ix);
                    }
                    child_indices.push(ix);
                }
                proof {
                    let t = entries@.subrange(0, (k + 1) as int);
                    assert(t.drop_last() =~= entries@.subrange(0, k as int));
                    assert(t.last() == entries@[k as int]);
                }
                k = k + 1;
            }
            proof {
                assert(entries@.subrange(0, n as int) =~= entries@);
            }
            let index = handles.len();
            let h = Handle {
                handle_type: HandleType::Directory,
                path,
                index,
                child_indices,
            };
            proof {
                lemma_arena_view_push(handles@, h);
            }
            handles.push(h);
            Some(index)
        },
    }
}

/// Starting from the root, create handles for every admitted file and
/// directory.  `root` is `None` when the root path did not resolve to any
/// filesystem entry; a root that resolves to anything but a directory is
/// rejected as `NotADirectory`.  On success the arena holds the whole
/// indexed subtree, root included, and is well-formed.
pub fn index_storage(root: Option<&FsEntry>) -> (r: Result<Vec<Handle>, StorageErr>)
    ensures
        match root {
            None => r == Result::<Vec<Handle>, StorageErr>::Err(StorageErr::InvalidPath),
            Some(e) => match *e {
                FsEntry::Directory { .. } => {
                    &&& r matches Ok(v)
                    &&& arena_view(r->Ok_0@) == spec_index_root(*e)
                    &&& arena_wf(arena_view(r->Ok_0@))
                },
                _ => r == Result::<Vec<Handle>, StorageErr>::Err(StorageErr::NotADirectory),
            },
        },
{
    match root {
        None => Err(StorageErr::InvalidPath),
        Some(e) => match e {
            FsEntry::Directory { .. } => {
                let mut handles: Vec<Handle> = Vec::new();
                let path = entry_name_ref(e).clone();
                proof {
                    assert(arena_view(handles@) =~= Seq::<HandleView>::empty());
                    lemma_index_entry_wf(*e, entry_name(*e), Seq::empty());
                }
                let _root_id = index_storage_inner(e, path, &mut handles);
                Ok(handles)
            },
            FsEntry::File { .. } => Err(StorageErr::NotADirectory),
            FsEntry::Symlink { .. } => Err(StorageErr::NotADirectory),
        },
    }
}

/// The files among `children` (ids into the arena `a`), as flat file
/// views, in child order.
pub open spec fn spec_child_files(a: Seq<HandleView>, children: Seq<int>) -> Seq<FileView>
    decreases children.len(),
{
    if children.len() == 0 {
        Seq::empty()
    } else {
        let rest = spec_child_files(a, children.drop_last());
        let c = children.last();
        if a[c].handle_type == HandleType::File {
            rest.push(FileView { name: last_segment(a[c].path), id: c })
        } else {
            rest
        }
    }
}

/// The directories among `children`, each expanded recursively, in child
/// order.  `bound` keeps every id strictly below the parent's, which is
/// what makes the recursion well-founded.
pub open spec fn spec_child_collections(
    a: Seq<HandleView>,
    children: Seq<int>,
    bound: int,
) -> Seq<CollectionView>
    decreases bound, 0int, children.len(),
    when 0 <= bound <= a.len() && arena_wf(a) && (forall|k: int|
        0 <= k < children.len() ==> 0 <= #[trigger] children[k] < bound)
{
    if children.len() == 0 {
        Seq::empty()
    } else {
        let rest = spec_child_collections(a, children.drop_last(), bound);
        let c = children.last();
        if a[c].handle_type == HandleType::Directory {
            rest.push(spec_collection_at(a, c))
        } else {
            rest
        }
    }
}

/// The fully expanded collection view of the Directory handle at id `i` of
/// the well-formed arena `a`.
pub open spec fn spec_collection_at(a: Seq<HandleView>, i: int) -> CollectionView
    decreases i, 1int, 0int,
    when 0 <= i < a.len() && arena_wf(a)
{
    CollectionView {
        name: last_segment(a[i].path),
        id: i,
        child_collections: spec_child_collections(a, a[i].child_indices, i),
        files: spec_child_files(a, a[i].child_indices),
    }
}

impl File {
    /// The flat view of the File handle `handle`.
    pub fn from_handle(handle: &Handle, _handles: &Vec<Handle>) -> (r: File)
        requires
            handle@.handle_type == HandleType::File,
        ensures
            file_view(r) == (FileView { name: last_segment(handle@.path), id: handle@.index }),
    {
        File { name: handle_name(handle), id: handle.index as u64 }
    }
}

impl Collection {
    /// Rebuild, fresh, the nested view of the Directory handle `handle`,
    /// which must sit at its own id in the well-formed arena `handles`.
    #[verifier::loop_isolation(false)]
    pub fn from_handle(handle: &Handle, handles: &Vec<Handle>) -> (r: Collection)
        requires
            arena_wf(arena_view(handles@)),
            handle@.index < handles@.len(),
            handle@ == arena_view(handles@)[handle@.index],
            handle@.handle_type == HandleType::Directory,
        ensures
            collection_view(r) == spec_collection_at(arena_view(handles@), handle@.index),
        decreases handle.index,
    {
        let ghost a = arena_view(handles@);
        let ghost ch = handle@.child_indices;
        proof {
            assert(handle_wf_at(a, handle@.index));
        }
        let mut child_collections: Vec<Collection> = Vec::new();
        let mut files: Vec<File> = Vec::new();
        let n = handle.child_indices.len();
        let mut k: usize = 0;
        proof {
            assert(ch.subrange(0, 0) =~= Seq::<int>::empty());
            assert(collections_view(child_collections@) =~= Seq::<CollectionView>::empty());
            assert(files_view(files@) =~= Seq::<FileView>::empty());
        }
        while k < n
            invariant
                k <= n,
                n == ch.len(),
                collections_view(child_collections@) == spec_child_collections(
                    a,
                    ch.subrange(0, k as int),
                    handle@.index,
                ),
                files_view(files@) == spec_child_files(a, ch.subrange(0, k as int)),
            decreases n - k,
        {
            let ci = handle.child_indices[k];
            proof {
                assert(ch[k as int] == ci as int);
                assert(handle_wf_at(a, ci as int));
                assert(a[ci as int] == handles@[ci as int]@);
            }
            let child = &handles[ci];
            let ghost old_cs = child_collections@;
            let ghost old_fs = files@;
            match child.handle_type {
                HandleType::Directory => {
                    let c = Collection::from_handle(child, handles);
                    proof {
                        assert((old_cs.push(c)).drop_last() =~= old_cs);
                    }
                    child_collections.push(c);
                },
                HandleType::File => {
                    let f = File::from_handle(child, handles);
                    proof {
                        assert(files_view(old_fs.push(f)) =~= files_view(old_fs).push(
                            file_view(f),
                        ));
                    }
                    files.push(f);
                },
            }
            proof {
                let t = ch.subrange(0, (k + 1) as int);
                assert(t.drop_last() =~= ch.subrange(0, k as int));
                assert(t.last() == ch[k as int]);
            }
            k = k + 1;
        }
        proof {
            assert(ch.subrange(0, n as int) =~= ch);
        }
        Collection {
            name: handle_name(handle),
            id: handle.index as u64,
            child_collections,
            files,
        }
    }
}

/// The Directory ids among arena positions `0 .. n`, in arena order.
pub open spec fn spec_dir_ids(a: Seq<HandleView>, n: int) -> Seq<int>
    decreases n,
{
    if n <= 0 {
        Seq::empty()
    } else {
        let rest = spec_dir_ids(a, n - 1);
        if a[n - 1].handle_type == HandleType::Directory {
            rest.push(n - 1)
        } else {
            rest
        }
    }
}

/// One fully expanded collection view per Directory handle, in arena
/// order.
pub open spec fn spec_all_collections(a: Seq<HandleView>) -> Seq<CollectionView> {
    spec_dir_ids(a, a.len() as int).map_values(|i: int| spec_collection_at(a, i))
}

/// Completeness law: `spec_dir_ids` holds exactly the Directory positions
/// below `n`, each once, in increasing order — so the listing of all
/// collections has exactly one entry per Directory handle.
pub proof fn lemma_dir_ids_complete(a: Seq<HandleView>, n: int)
    requires
        0 <= n,
    ensures
        forall|j: int|
            0 <= j < spec_dir_ids(a, n).len() ==> 0 <= #[trigger] spec_dir_ids(a, n)[j] < n
                && a[spec_dir_ids(a, n)[j]].handle_type == HandleType::Directory,
        forall|i: int|
            0 <= i < n && a[i].handle_type == HandleType::Directory ==> spec_dir_ids(
                a,
                n,
            ).contains(i),
        forall|j1: int, j2: int|
            0 <= j1 < j2 < spec_dir_ids(a, n).len() ==> spec_dir_ids(a, n)[j1] < spec_dir_ids(
                a,
                n,
            )[j2],
    decreases n,
{
    if n > 0 {
        lemma_dir_ids_complete(a, n - 1);
        let rest = spec_dir_ids(a, n - 1);
        let full = spec_dir_ids(a, n);
        assert forall|i: int|
            0 <= i < n && a[i].handle_type == HandleType::Directory implies full.contains(i) by {
            if i < n - 1 {
                assert(rest.contains(i));
                let j = choose|j: int| 0 <= j < rest.len() && rest[j] == i;
                assert(0 <= j < full.len() && full[j] == i);
            } else {
                assert(a[n - 1].handle_type == HandleType::Directory);
                assert(full[full.len() - 1] == i);
            }
        }
    }
}

/// Lookup outcome of `get_collection` on arena `a` for `id`: the fresh
/// Directory view exactly when `id` names a Directory handle, `NotFound`
/// past the arena, `TypeMismatch` on a File id.
pub open spec fn get_collection_post(
    a: Seq<HandleView>,
    id: u64,
    r: Result<Collection, StorageErr>,
) -> bool {
    match r {
        Ok(c) => id < a.len() && a[id as int].handle_type == HandleType::Directory
            && collection_view(c) == spec_collection_at(a, id as int),
        Err(e) => (id >= a.len() && e == StorageErr::NotFound) || (id < a.len() && a[
            id as int
        ].handle_type == HandleType::File && e == StorageErr::TypeMismatch),
    }
}

/// Lookup outcome of `get_file` on arena `a` for `id`, symmetric to
/// `get_collection_post`.
pub open spec fn get_file_post(a: Seq<HandleView>, id: u64, r: Result<File, StorageErr>) -> bool {
    match r {
        Ok(f) => id < a.len() && a[id as int].handle_type == HandleType::File && file_view(f) == (
        FileView { name: last_segment(a[id as int].path), id: id as int }),
        Err(e) => (id >= a.len() && e == StorageErr::NotFound) || (id < a.len() && a[
            id as int
        ].handle_type == HandleType::Directory && e == StorageErr::TypeMismatch),
    }
}

/// The immutable arena plus bounds- and kind-checked accessors by id.
/// Built once; never mutated afterwards.
pub struct Storage {
    handles: Vec<Handle>,
}

impl View for Storage {
    type V = Seq<HandleView>;

    closed spec fn view(&self) -> Seq<HandleView> {
        arena_view(self.handles@)
    }
}

impl Storage {
    /// The arena invariant holds of every storage ever handed out.
    #[verifier::type_invariant]
    pub open spec fn wf(self) -> bool {
        arena_wf(self@)
    }

    /// Index the given root into a fresh storage.  `root` is `None` when
    /// the root path resolved to nothing.
    pub fn new(root: Option<&FsEntry>) -> (r: Result<Storage, StorageErr>)
        ensures
            match root {
                None => r == Result::<Storage, StorageErr>::Err(StorageErr::InvalidPath),
                Some(e) => match *e {
                    FsEntry::Directory { .. } => {
                        &&& r matches Ok(s)
                        &&& r->Ok_0@ == spec_index_root(*e)
                        &&& arena_wf(r->Ok_0@)
                    },
                    _ => r == Result::<Storage, StorageErr>::Err(StorageErr::NotADirectory),
                },
            },
    {
        match index_storage(root) {
            Ok(handles) => Ok(Storage { handles }),
            Err(e) => Err(e),
        }
    }

    /// Validate `id` and rebuild the nested view of the Directory handle
    /// it names.
    pub fn get_collection(&self, id: u64) -> (r: Result<Collection, StorageErr>)
        ensures
            get_collection_post(self@, id, r),
    {
        proof {
            use_type_invariant(self);
        }
        if id < self.handles.len() as u64 {
            let index = id as usize;
            let handle = &self.handles[index];
            proof {
                assert(handle_wf_at(self@, index as int));
                assert(handle@ == self@[index as int]);
            }
            match handle.handle_type {
                HandleType::File => Err(StorageErr::TypeMismatch),
                HandleType::Directory => Ok(Collection::from_handle(handle, &self.handles)),
            }
        } else {
            Err(StorageErr::NotFound)
        }
    }

    /// Validate `id` and hand out the flat view of the File handle it
    /// names.
    pub fn get_file(&self, id: u64) -> (r: Result<File, StorageErr>)
        ensures
            get_file_post(self@, id, r),
    {
        proof {
            use_type_invariant(self);
        }
        if id < self.handles.len() as u64 {
            let index = id as usize;
            let handle = &self.handles[index];
            proof {
                assert(handle_wf_at(self@, index as int));
                assert(handle@ == self@[index as int]);
            }
            match handle.handle_type {
                HandleType::File => Ok(File::from_handle(handle, &self.handles)),
                HandleType::Directory => Err(StorageErr::TypeMismatch),
            }
        } else {
            Err(StorageErr::NotFound)
        }
    }

    /// Validate `id` as a File handle and hand out the stored path of the
    /// underlying file: the content reader opens exactly this path.
    pub fn get_file_path(&self, id: u64) -> (r: Result<String, StorageErr>)
        ensures
            match r {
                Ok(p) => id < self@.len() && self@[id as int].handle_type == HandleType::File && p@
                    == self@[id as int].path,
                Err(e) => (id >= self@.len() && e == StorageErr::NotFound) || (id < self@.len()
                    && self@[id as int].handle_type == HandleType::Directory && e
                    == StorageErr::TypeMismatch),
            },
    {
        proof {
            use_type_invariant(self);
        }
        if id < self.handles.len() as u64 {
            let index = id as usize;
            let handle = &self.handles[index];
            proof {
                assert(handle@ == self@[index as int]);
            }
            match handle.handle_type {
                HandleType::File => Ok(handle.path.clone()),
                HandleType::Directory => Err(StorageErr::TypeMismatch),
            }
        } else {
            Err(StorageErr::NotFound)
        }
    }

    /// One fully expanded Collection per Directory handle in the arena,
    /// nested directories included, each as its own top-level entry, in
    /// arena order.
    #[verifier::loop_isolation(false)]
    pub fn get_collection_all(&self) -> (r: Vec<Collection>)
        ensures
            collections_view(r@) == spec_all_collections(self@),
            r@.len() == spec_dir_ids(self@, self@.len() as int).len(),
    {
        proof {
            use_type_invariant(self);
        }
        let ghost a = self@;
        let mut out: Vec<Collection> = Vec::new();
        let n = self.handles.len();
        let mut k: usize = 0;
        proof {
            assert(collections_view(out@) =~= Seq::<CollectionView>::empty());
        }
        while k < n
            invariant
                k <= n,
                collections_view(out@) == spec_dir_ids(a, k as int).map_values(
                    |i: int| spec_collection_at(a, i),
                ),
            decreases n - k,
        {
            let handle = &self.handles[k];
            proof {
                assert(handle_wf_at(a, k as int));
                assert(handle@ == a[k as int]);
            }
            let ghost old_cs = out@;
            match handle.handle_type {
                HandleType::Directory => {
                    let c = Collection::from_handle(handle, &self.handles);
                    proof {
                        assert((old_cs.push(c)).drop_last() =~= old_cs);
                    }
                    out.push(c);
                },
                HandleType::File => {},
            }
            proof {
                let f = |i: int| spec_collection_at(a, i);
                assert(spec_dir_ids(a, k as int).push(k as int).map_values(f) =~= spec_dir_ids(
                    a,
                    k as int,
                ).map_values(f).push(f(k as int)));
            }
            k = k + 1;
        }
        proof {
            lemma_collections_view(out@);
        }
        out
    }
}

/// Idempotence law: any two results `get_collection` may return for the
/// same storage state and the same id are equal — same view on success,
/// same error on failure.
pub proof fn lemma_get_collection_idempotent(
    a: Seq<HandleView>,
    id: u64,
    r1: Result<Collection, StorageErr>,
    r2: Result<Collection, StorageErr>,
)
    requires
        get_collection_post(a, id, r1),
        get_collection_post(a, id, r2),
    ensures
        match (r1, r2) {
            (Ok(c1), Ok(c2)) => collection_view(c1) == collection_view(c2),
            (Err(e1), Err(e2)) => e1 == e2,
            _ => false,
        },
{
}

/// Idempotence law for `get_file`, symmetric to the collection law.
pub proof fn lemma_get_file_idempotent(
    a: Seq<HandleView>,
    id: u64,
    r1: Result<File, StorageErr>,
    r2: Result<File, StorageErr>,
)
    requires
        get_file_post(a, id, r1),
        get_file_post(a, id, r2),
    ensures
        match (r1, r2) {
            (Ok(f1), Ok(f2)) => file_view(f1) == file_view(f2),
            (Err(e1), Err(e2)) => e1 == e2,
            _ => false,
        },
{
}

} // verus!
