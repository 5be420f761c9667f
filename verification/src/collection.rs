//! The collection browser: lists and recursively flattens media entries
//! through the virtual file system. The embedding reads directories and
//! hands their listings (or a whole subtree snapshot) in as plain values;
//! every decision — classification, virtual-path construction, display
//! names, traversal — is made and verified here.

use vstd::prelude::*;
use vstd::string::*;
use crate::error::PError;
use crate::text::{views_of, join_segments, stem_of, file_stem, join_path, clone_strings};
use crate::vfs::{lemma_r2v_injective, Vfs, RealPath, VirtualPath};

verus! {

/// A media file, shown under its virtual path.
pub struct Song {
    pub path: String,
    pub display_name: String,
}

/// A directory of the collection, shown under its virtual path.
pub struct Directory {
    pub path: String,
    pub display_name: String,
}

/// One entry of a browsed directory: a closed variant type, so callers
/// handle both cases.
pub enum CollectionFile {
    Directory(Directory),
    Song(Song),
}

/// What the filesystem says an entry is.
#[derive(Clone, Copy, Debug, PartialEq, Eq, Structural)]
pub enum FileKind {
    File,
    Directory,
    /// Neither a plain file nor a directory (a socket, a device, an
    /// unreadable entry); browsing skips these.
    Other,
}

/// One immediate child of a real directory, as the embedding read it.
pub struct DirEntryInfo {
    pub name: String,
    pub kind: FileKind,
}

/// A snapshot of a real subtree, as the embedding read it.
pub enum FsTree {
    File,
    Directory(Vec<FsTreeEntry>),
    Other,
}

/// One named child in a subtree snapshot.
pub struct FsTreeEntry {
    pub name: String,
    pub tree: FsTree,
}

/// The (is_directory, path, display_name) view of one entry.
pub open spec fn file_entry_view(f: CollectionFile) -> (bool, Seq<char>, Seq<char>) {
    match f {
        CollectionFile::Directory(d) => (true, d.path@, d.display_name@),
        CollectionFile::Song(s) => (false, s.path@, s.display_name@),
    }
}

/// The views of a sequence of entries.
pub open spec fn entries_view(v: Seq<CollectionFile>) -> Seq<(bool, Seq<char>, Seq<char>)> {
    v.map_values(|f: CollectionFile| file_entry_view(f))
}

/// The (path, display_name) views of a sequence of songs.
pub open spec fn songs_view(v: Seq<Song>) -> Seq<(Seq<char>, Seq<char>)> {
    v.map_values(|s: Song| (s.path@, s.display_name@))
}

/// What the song built for one real entry looks like: its path is the
/// virtual path joined with `/`, its display name the file stem of the
/// final segment.
pub open spec fn song_view_of(vp: Seq<Seq<char>>) -> (Seq<char>, Seq<char>) {
    (join_segments(vp), stem_of(vp.last()))
}

/// What the directory entry built for one real entry looks like: its
/// display name is the final segment itself.
pub open spec fn dir_view_of(vp: Seq<Seq<char>>) -> (Seq<char>, Seq<char>) {
    (join_segments(vp), vp.last())
}

/// What browsing a listed directory yields: one entry per child in
/// listing order, files as songs and directories as directories, others
/// skipped; each child's path comes from translating its real path back
/// through the VFS, and the first translation failure aborts the browse.
pub open spec fn browse_entries_spec(vfs: Vfs, base: Seq<Seq<char>>, entries: Seq<DirEntryInfo>)
    -> Result<Seq<(bool, Seq<char>, Seq<char>)>, PError>
    decreases entries.len(),
{
    if entries.len() == 0 {
        Ok(Seq::empty())
    } else {
        match browse_entries_spec(vfs, base, entries.drop_last()) {
            Err(e) => Err(e),
            Ok(acc) => {
                let e = entries.last();
                match e.kind {
                    FileKind::Other => Ok(acc),
                    FileKind::File => match vfs.r2v(base.push(e.name@)) {
                        Err(er) => Err(er),
                        Ok(vp) => Ok(
                            acc.push((false, song_view_of(vp).0, song_view_of(vp).1)),
                        ),
                    },
                    FileKind::Directory => match vfs.r2v(base.push(e.name@)) {
                        Err(er) => Err(er),
                        Ok(vp) => Ok(acc.push((true, dir_view_of(vp).0, dir_view_of(vp).1))),
                    },
                }
            },
        }
    }
}

/// Browsing the collection root lists the mount names as directories.
pub open spec fn root_listing_spec(vfs: Vfs) -> Seq<(bool, Seq<char>, Seq<char>)> {
    Seq::new(vfs.mounts@.len(), |i: int| (true, vfs.mounts@[i].name@, vfs.mounts@[i].name@))
}

/// What flattening a subtree snapshot rooted at the real path `base`
/// yields: every reachable file as a song, in depth-first, listing order;
/// a non-directory at a point where a directory would be read is the
/// listing failure the filesystem would report.
pub open spec fn flatten_tree_spec(vfs: Vfs, base: Seq<Seq<char>>, tree: FsTree) -> Result<
    Seq<(Seq<char>, Seq<char>)>,
    PError,
>
    decreases tree,
{
    match tree {
        FsTree::Directory(entries) => flatten_entries_spec(vfs, base, entries@),
        FsTree::File => Err(PError::IOError),
        FsTree::Other => Err(PError::IOError),
    }
}

/// The songs of the children of one directory, left to right.
pub open spec fn flatten_entries_spec(
    vfs: Vfs,
    base: Seq<Seq<char>>,
    entries: Seq<FsTreeEntry>,
) -> Result<Seq<(Seq<char>, Seq<char>)>, PError>
    decreases entries,
{
    if entries.len() == 0 {
        Ok(Seq::empty())
    } else {
        match flatten_entries_spec(vfs, base, entries.drop_last()) {
            Err(e) => Err(e),
            Ok(acc) => {
                let e = entries.last();
                let child = base.push(e.name@);
                match e.tree {
                    FsTree::File => match vfs.r2v(child) {
                        Err(er) => Err(er),
                        Ok(vp) => Ok(acc.push(song_view_of(vp))),
                    },
                    FsTree::Directory(subs) => match flatten_tree_spec(vfs, child, e.tree) {
                        Err(er) => Err(er),
                        Ok(songs) => Ok(acc + songs),
                    },
                    FsTree::Other => Err(PError::IOError),
                }
            },
        }
    }
}

/// An error on an earlier entry settles the whole browse.
proof fn lemma_browse_err_extends(
    vfs: Vfs,
    base: Seq<Seq<char>>,
    entries: Seq<DirEntryInfo>,
    i: int,
    e: PError,
)
    requires
        0 <= i <= entries.len(),
        browse_entries_spec(vfs, base, entries.subrange(0, i)) == Err::<
            Seq<(bool, Seq<char>, Seq<char>)>,
            PError,
        >(e),
    ensures
        browse_entries_spec(vfs, base, entries) == Err::<
            Seq<(bool, Seq<char>, Seq<char>)>,
            PError,
        >(e),
    decreases entries.len() - i,
{
    if i < entries.len() {
        assert(entries.subrange(0, i + 1).drop_last() =~= entries.subrange(0, i));
        lemma_browse_err_extends(vfs, base, entries, i + 1, e);
    } else {
        assert(entries.subrange(0, entries.len() as int) =~= entries);
    }
}

/// The songs contributed by the children of one directory from position
/// `i` on: the front-to-back mirror of `flatten_entries_spec`, which the
/// iterative traversal follows frame by frame.
pub open spec fn flatten_from(vfs: Vfs, base: Seq<Seq<char>>, entries: Seq<FsTreeEntry>, i: int)
    -> Result<Seq<(Seq<char>, Seq<char>)>, PError>
    decreases entries, entries.len() - i,
{
    if i < 0 || i >= entries.len() {
        Ok(Seq::empty())
    } else {
        let e = entries[i];
        let child = base.push(e.name@);
        match e.tree {
            FsTree::File => match vfs.r2v(child) {
                Err(er) => Err(er),
                Ok(vp) => match flatten_from(vfs, base, entries, i + 1) {
                    Err(er) => Err(er),
                    Ok(rest) => Ok(seq![song_view_of(vp)] + rest),
                },
            },
            FsTree::Directory(subs) => match flatten_from(vfs, child, subs@, 0) {
                Err(er) => Err(er),
                Ok(songs) => match flatten_from(vfs, base, entries, i + 1) {
                    Err(er) => Err(er),
                    Ok(rest) => Ok(songs + rest),
                },
            },
            FsTree::Other => Err(PError::IOError),
        }
    }
}

/// `flatten_entries_spec` decomposes at any position into the processed
/// prefix plus the front-to-back remainder.
proof fn lemma_flatten_from_decomp(vfs: Vfs, base: Seq<Seq<char>>, entries: Seq<FsTreeEntry>, i: int)
    requires
        0 <= i <= entries.len(),
    ensures
        flatten_entries_spec(vfs, base, entries) == (match flatten_entries_spec(
            vfs,
            base,
            entries.subrange(0, i),
        ) {
            Err(e) => Err::<Seq<(Seq<char>, Seq<char>)>, PError>(e),
            Ok(acc) => match flatten_from(vfs, base, entries, i) {
                Err(e) => Err(e),
                Ok(rest) => Ok(acc + rest),
            },
        }),
    decreases entries, entries.len() - i,
{
    if i == entries.len() {
        assert(entries.subrange(0, i) =~= entries);
        match flatten_entries_spec(vfs, base, entries) {
            Ok(acc) => {
                assert(acc + Seq::<(Seq<char>, Seq<char>)>::empty() =~= acc);
            },
            Err(_) => {},
        }
    } else {
        lemma_flatten_from_decomp(vfs, base, entries, i + 1);
        let pre = entries.subrange(0, i);
        let pre1 = entries.subrange(0, i + 1);
        assert(pre1.drop_last() =~= pre);
        assert(pre1.last() == entries[i]);
        let e = entries[i];
        let child = base.push(e.name@);
        match e.tree {
            FsTree::Directory(subs) => {
                lemma_flatten_from_decomp(vfs, child, subs@, 0);
                assert(subs@.subrange(0, 0) =~= Seq::<FsTreeEntry>::empty());
                match flatten_from(vfs, child, subs@, 0) {
                    Ok(r) => {
                        assert(Seq::<(Seq<char>, Seq<char>)>::empty() + r =~= r);
                    },
                    Err(_) => {},
                }
                match flatten_entries_spec(vfs, base, pre) {
                    Ok(acc) => match flatten_tree_spec(vfs, child, e.tree) {
                        Ok(songs) => match flatten_from(vfs, base, entries, i + 1) {
                            Ok(rest) => {
                                assert((acc + songs) + rest =~= acc + (songs + rest));
                            },
                            Err(_) => {},
                        },
                        Err(_) => {},
                    },
                    Err(_) => {},
                }
            },
            FsTree::File => {
                match flatten_entries_spec(vfs, base, pre) {
                    Ok(acc) => match vfs.r2v(child) {
                        Ok(vp) => match flatten_from(vfs, base, entries, i + 1) {
                            Ok(rest) => {
                                assert(acc.push(song_view_of(vp)) + rest =~= acc + (seq![
                                    song_view_of(vp),
                                ] + rest));
                            },
                            Err(_) => {},
                        },
                        Err(_) => {},
                    },
                    Err(_) => {},
                }
            },
            FsTree::Other => {},
        }
    }
}

/// One suspended directory of the iterative traversal: the directory's
/// real path, its children, and the next child to process.
struct FlattenFrame<'a> {
    base: RealPath,
    entries: &'a Vec<FsTreeEntry>,
    next: usize,
}

/// The number of traversal steps a subtree still costs.
pub open spec fn tree_size(tree: FsTree) -> nat
    decreases tree,
{
    match tree {
        FsTree::Directory(es) => 2 + entries_size_from(es@, 0),
        FsTree::File => 1,
        FsTree::Other => 1,
    }
}

/// The number of traversal steps the children from position `i` on cost.
pub open spec fn entries_size_from(es: Seq<FsTreeEntry>, i: int) -> nat
    decreases es, es.len() - i,
{
    if i < 0 || i >= es.len() {
        0
    } else {
        tree_size(es[i].tree) + entries_size_from(es, i + 1)
    }
}

/// The number of traversal steps the whole stack still costs.
spec fn stack_work(stack: Seq<FlattenFrame>) -> nat
    decreases stack.len(),
{
    if stack.len() == 0 {
        0
    } else {
        stack_work(stack.drop_last()) + 1 + entries_size_from(
            stack.last().entries@,
            stack.last().next as int,
        )
    }
}

/// The songs the stack will still produce, innermost frame first.
spec fn stack_rest(vfs: Vfs, stack: Seq<FlattenFrame>) -> Result<
    Seq<(Seq<char>, Seq<char>)>,
    PError,
>
    decreases stack.len(),
{
    if stack.len() == 0 {
        Ok(Seq::empty())
    } else {
        let top = stack.last();
        match flatten_from(vfs, top.base@, top.entries@, top.next as int) {
            Err(e) => Err(e),
            Ok(s) => match stack_rest(vfs, stack.drop_last()) {
                Err(e) => Err(e),
                Ok(r) => Ok(s + r),
            },
        }
    }
}

/// One unfolding of `stack_rest` over a pushed frame.
proof fn lemma_stack_rest_push(vfs: Vfs, st: Seq<FlattenFrame>, f: FlattenFrame)
    ensures
        stack_rest(vfs, st.push(f)) == (match flatten_from(vfs, f.base@, f.entries@, f.next as int) {
            Err(e) => Err::<Seq<(Seq<char>, Seq<char>)>, PError>(e),
            Ok(s) => match stack_rest(vfs, st) {
                Err(e) => Err(e),
                Ok(r) => Ok(s + r),
            },
        }),
{
    assert(st.push(f).drop_last() =~= st);
    assert(st.push(f).last() == f);
}

/// One unfolding of `stack_work` over a pushed frame.
proof fn lemma_stack_work_push(st: Seq<FlattenFrame>, f: FlattenFrame)
    ensures
        stack_work(st.push(f)) == stack_work(st) + 1 + entries_size_from(
            f.entries@,
            f.next as int,
        ),
{
    assert(st.push(f).drop_last() =~= st);
    assert(st.push(f).last() == f);
}

impl RealPath {
    /// The real path of a named child of this directory.
    pub fn child(&self, name: &String) -> (r: RealPath)
        ensures
            r@ == self@.push(name@),
    {
        let mut segs = clone_strings(&self.segments);
        segs.push(name.clone());
        proof {
            assert(views_of(segs@) =~= self@.push(name@));
        }
        RealPath { segments: segs }
    }
}

impl Song {
    /// Builds the song for a real file entry: translates the real path
    /// back to virtual form; the song's path is that virtual path and its
    /// display name is the file stem of the entry's name.
    pub fn read(collection: &Collection, real_path: &RealPath) -> (r: Result<Song, PError>)
        ensures
            match r {
                Ok(s) => collection.vfs.r2v(real_path@) matches Ok(vp) && (s.path@, s.display_name@)
                    == song_view_of(vp),
                Err(e) => collection.vfs.r2v(real_path@) == Err::<Seq<Seq<char>>, PError>(e),
            },
    {
        let vp = match collection.vfs.real_to_virtual(real_path) {
            Ok(vp) => vp,
            Err(e) => {
                return Err(e);
            },
        };
        proof {
            assert(vp@.len() >= 1);
            assert(vp@.len() == vp.segments@.len());
            assert(vp@[vp@.len() - 1] == vp.segments@[vp@.len() - 1]@);
        }
        let path_string = join_path(&vp.segments);
        let last = &vp.segments[vp.segments.len() - 1];
        let display_name = file_stem(last);
        Ok(Song { path: path_string, display_name })
    }
}

impl Directory {
    /// Builds the directory entry for a real directory: translates the
    /// real path back to virtual form; the display name is the final
    /// segment of the virtual path.
    pub fn read(collection: &Collection, real_path: &RealPath) -> (r: Result<Directory, PError>)
        ensures
            match r {
                Ok(d) => collection.vfs.r2v(real_path@) matches Ok(vp) && (d.path@, d.display_name@)
                    == dir_view_of(vp),
                Err(e) => collection.vfs.r2v(real_path@) == Err::<Seq<Seq<char>>, PError>(e),
            },
    {
        let vp = match collection.vfs.real_to_virtual(real_path) {
            Ok(vp) => vp,
            Err(e) => {
                return Err(e);
            },
        };
        proof {
            assert(vp@.len() >= 1);
            assert(vp@.len() == vp.segments@.len());
            assert(vp@[vp@.len() - 1] == vp.segments@[vp@.len() - 1]@);
        }
        let path_string = join_path(&vp.segments);
        let display_name = vp.segments[vp.segments.len() - 1].clone();
        Ok(Directory { path: path_string, display_name })
    }
}

/// One mount directive of the configuration, with the filesystem facts
/// the embedding probed for it. A `None` field stands for a key that was
/// missing or not a string in the configuration.
pub struct MountDirConfig {
    pub name: Option<String>,
    pub source: Option<RealPath>,
    pub source_exists: bool,
    pub source_is_dir: bool,
}

/// Whether one mount directive can be applied.
pub open spec fn entry_ok(e: MountDirConfig) -> bool {
    e.name is Some && e.source is Some && e.source_exists && e.source_is_dir
}

/// The error an unusable mount directive produces.
pub open spec fn entry_err(e: MountDirConfig) -> PError {
    if e.name is None || e.source is None {
        PError::ConfigMountDirsParseError
    } else if !e.source_exists {
        PError::MountNotFound
    } else {
        PError::MountNotADirectory
    }
}

/// The mount name of a directive.
pub open spec fn entry_name_view(e: MountDirConfig) -> Seq<char> {
    match e.name {
        Some(n) => n@,
        None => Seq::empty(),
    }
}

/// The source path of a directive.
pub open spec fn entry_source_view(e: MountDirConfig) -> Seq<Seq<char>> {
    match e.source {
        Some(rp) => rp@,
        None => Seq::empty(),
    }
}

/// The index of the first unusable directive, or `-1` when all apply.
pub open spec fn first_bad(entries: Seq<MountDirConfig>) -> int
    decreases entries.len(),
{
    if entries.len() == 0 {
        -1
    } else if !entry_ok(entries[0]) {
        0
    } else {
        let r = first_bad(entries.drop_first());
        if r < 0 {
            -1
        } else {
            r + 1
        }
    }
}

/// The earliest unusable directive determines `first_bad`.
proof fn lemma_first_bad_at(entries: Seq<MountDirConfig>, at: int)
    requires
        0 <= at < entries.len(),
        !entry_ok(entries[at]),
        forall|j: int| 0 <= j < at ==> entry_ok(#[trigger] entries[j]),
    ensures
        first_bad(entries) == at,
    decreases at,
{
    if at > 0 {
        assert(entry_ok(entries[0]));
        assert(entries.drop_first()[at - 1] == entries[at]);
        assert forall|j: int| 0 <= j < at - 1 implies entry_ok(
            #[trigger] entries.drop_first()[j],
        ) by {
            assert(entries.drop_first()[j] == entries[j + 1]);
        }
        lemma_first_bad_at(entries.drop_first(), at - 1);
    }
}

/// When every directive applies, there is no first bad one.
proof fn lemma_first_bad_none(entries: Seq<MountDirConfig>)
    requires
        forall|j: int| 0 <= j < entries.len() ==> entry_ok(#[trigger] entries[j]),
    ensures
        first_bad(entries) == -1,
    decreases entries.len(),
{
    if entries.len() > 0 {
        assert forall|j: int| 0 <= j < entries.drop_first().len() implies entry_ok(
            #[trigger] entries.drop_first()[j],
        ) by {
            assert(entries.drop_first()[j] == entries[j + 1]);
        }
        lemma_first_bad_none(entries.drop_first());
    }
}

/// The last directive before position `upto` that names `n`, or `-1`.
pub open spec fn last_dir_for(entries: Seq<MountDirConfig>, upto: int, n: Seq<char>) -> int
    decreases upto,
{
    if upto <= 0 {
        -1
    } else if entry_name_view(entries[upto - 1]) == n {
        upto - 1
    } else {
        last_dir_for(entries, upto - 1, n)
    }
}

/// The collection: a mount table plus the browsing rules.
pub struct Collection {
    pub vfs: Vfs,
}

impl Collection {
    /// The mount table is well formed.
    pub open spec fn wf(self) -> bool {
        self.vfs.wf()
    }

    /// An empty collection.
    pub fn new() -> (r: Collection)
        ensures
            r.wf(),
            r.vfs.mounts@.len() == 0,
    {
        Collection { vfs: Vfs::new() }
    }

    /// Registers or replaces a mount point; delegates to the VFS and
    /// surfaces the same errors.
    pub fn mount(
        &mut self,
        name: &String,
        real_path: RealPath,
        path_exists: bool,
        path_is_dir: bool,
    ) -> (r: Result<(), PError>)
        requires
            old(self).wf(),
        ensures
            final(self).wf(),
            !path_exists ==> r == Err::<(), PError>(PError::MountNotFound)
                && final(self).vfs.mounts@ == old(self).vfs.mounts@,
            path_exists && !path_is_dir ==> r == Err::<(), PError>(PError::MountNotADirectory)
                && final(self).vfs.mounts@ == old(self).vfs.mounts@,
            path_exists && path_is_dir ==> {
                &&& r == Ok::<(), PError>(())
                &&& final(self).vfs.names() == (if old(self).vfs.has_mount(name@) {
                    old(self).vfs.names()
                } else {
                    old(self).vfs.names().push(name@)
                })
                &&& final(self).vfs.has_mount(name@)
                &&& final(self).vfs.root_of(name@) == real_path@
                &&& forall|n: Seq<char>|
                    n != name@ ==> final(self).vfs.has_mount(n) == old(self).vfs.has_mount(n)
                &&& forall|n: Seq<char>|
                    n != name@ && old(self).vfs.has_mount(n) ==> final(self).vfs.root_of(n)
                        == old(self).vfs.root_of(n)
            },
    {
        self.vfs.mount(name, real_path, path_exists, path_is_dir)
    }

    /// Applies the mount directives of a configuration, in order. The
    /// call succeeds exactly when every directive names a mount and an
    /// existing source directory. Each applied directive's name is bound
    /// to that directive's source — a later duplicate of a name
    /// overwrites an earlier one — and mounts the directives do not name
    /// are untouched. The first unusable directive aborts the run with
    /// its error, leaving exactly the directives before it applied.
    pub fn load_config_mount_points(&mut self, entries: &Vec<MountDirConfig>) -> (r: Result<
        (),
        PError,
    >)
        requires
            old(self).wf(),
        ensures
            final(self).wf(),
            r == Ok::<(), PError>(()) <==> (forall|j: int|
                0 <= j < entries@.len() ==> entry_ok(#[trigger] entries@[j])),
            ({
                let fb = first_bad(entries@);
                let applied = if fb < 0 {
                    entries@.len() as int
                } else {
                    fb
                };
                &&& (fb >= 0 ==> r == Err::<(), PError>(entry_err(entries@[fb])))
                &&& forall|m: Seq<char>| #![auto]
                    last_dir_for(entries@, applied, m) >= 0 ==> final(self).vfs.has_mount(m)
                        && final(self).vfs.root_of(m) == entry_source_view(
                        entries@[last_dir_for(entries@, applied, m)],
                    )
                &&& forall|m: Seq<char>| #![auto]
                    last_dir_for(entries@, applied, m) < 0 ==> final(self).vfs.has_mount(m) == old(
                        self,
                    ).vfs.has_mount(m) && (old(self).vfs.has_mount(m) ==> final(self).vfs.root_of(m)
                        == old(self).vfs.root_of(m))
            }),
    {
        let n = entries.len();
        let mut i: usize = 0;
        while i < n
            invariant
                i <= n,
                n == entries@.len(),
                self.wf(),
                forall|j: int| 0 <= j < i ==> entry_ok(#[trigger] entries@[j]),
                forall|m: Seq<char>| #![auto]
                    last_dir_for(entries@, i as int, m) >= 0 ==> self.vfs.has_mount(m)
                        && self.vfs.root_of(m) == entry_source_view(
                        entries@[last_dir_for(entries@, i as int, m)],
                    ),
                forall|m: Seq<char>| #![auto]
                    last_dir_for(entries@, i as int, m) < 0 ==> self.vfs.has_mount(m) == old(
                        self,
                    ).vfs.has_mount(m) && (old(self).vfs.has_mount(m) ==> self.vfs.root_of(m)
                        == old(self).vfs.root_of(m)),
            decreases n - i,
        {
            let entry = &entries[i];
            let name = match &entry.name {
                Some(nm) => nm,
                None => {
                    proof {
                        lemma_first_bad_at(entries@, i as int);
                    }
                    return Err(PError::ConfigMountDirsParseError);
                },
            };
            let source = match &entry.source {
                Some(s) => s,
                None => {
                    proof {
                        lemma_first_bad_at(entries@, i as int);
                    }
                    return Err(PError::ConfigMountDirsParseError);
                },
            };
            if !entry.source_exists {
                proof {
                    lemma_first_bad_at(entries@, i as int);
                }
                return Err(PError::MountNotFound);
            }
            if !entry.source_is_dir {
                proof {
                    lemma_first_bad_at(entries@, i as int);
                }
                return Err(PError::MountNotADirectory);
            }
            proof {
                assert(entry_name_view(entries@[i as int]) == name@);
                assert(entry_source_view(entries@[i as int]) == source@);
            }
            let root = RealPath { segments: clone_strings(&source.segments) };
            proof {
                assert(root@ =~= source@);
            }
            let res = self.mount(name, root, true, true);
            proof {
                assert(res is Ok);
                assert forall|m: Seq<char>| #![auto]
                    last_dir_for(entries@, i as int + 1, m) >= 0 implies self.vfs.has_mount(m)
                    && self.vfs.root_of(m) == entry_source_view(
                    entries@[last_dir_for(entries@, i as int + 1, m)],
                ) by {
                    if m != name@ {
                        assert(last_dir_for(entries@, i as int + 1, m) == last_dir_for(
                            entries@,
                            i as int,
                            m,
                        ));
                    }
                }
                assert forall|m: Seq<char>| #![auto]
                    last_dir_for(entries@, i as int + 1, m) < 0 implies self.vfs.has_mount(m)
                    == old(self).vfs.has_mount(m) && (old(self).vfs.has_mount(m)
                    ==> self.vfs.root_of(m) == old(self).vfs.root_of(m)) by {
                    assert(m != name@);
                    assert(last_dir_for(entries@, i as int + 1, m) == last_dir_for(
                        entries@,
                        i as int,
                        m,
                    ));
                }
            }
            i += 1;
        }
        proof {
            lemma_first_bad_none(entries@);
        }
        Ok(())
    }

    /// Lists one virtual directory: the collection root lists the mount
    /// names as directories; any other path is translated, and the given
    /// listing of its real directory is classified entry by entry.
    pub fn browse(&self, virtual_path: &VirtualPath, listing: &Vec<DirEntryInfo>) -> (r: Result<
        Vec<CollectionFile>,
        PError,
    >)
        requires
            self.wf(),
        ensures
            virtual_path@.len() == 0 ==> (r matches Ok(v) && entries_view(v@)
                == root_listing_spec(self.vfs)),
            virtual_path@.len() != 0 ==> match self.vfs.v2r(virtual_path@) {
                Err(e) => r == Err::<Vec<CollectionFile>, PError>(e),
                Ok(base) => match r {
                    Ok(v) => browse_entries_spec(self.vfs, base, listing@) == Ok::<
                        Seq<(bool, Seq<char>, Seq<char>)>,
                        PError,
                    >(entries_view(v@)),
                    Err(e) => browse_entries_spec(self.vfs, base, listing@) == Err::<
                        Seq<(bool, Seq<char>, Seq<char>)>,
                        PError,
                    >(e),
                },
            },
    {
        if virtual_path.segments.len() == 0 {
            let mut out: Vec<CollectionFile> = Vec::new();
            let nm = self.mounts_len();
            let mut m: usize = 0;
            proof {
                assert(entries_view(out@) =~= root_listing_spec(self.vfs).subrange(0, 0));
            }
            while m < nm
                invariant
                    m <= nm,
                    nm == self.vfs.mounts@.len(),
                    entries_view(out@) == root_listing_spec(self.vfs).subrange(0, m as int),
                decreases nm - m,
            {
                let ghost o0: Seq<(bool, Seq<char>, Seq<char>)> = entries_view(out@);
                let name = self.mount_name_at(m);
                let display = name.clone();
                out.push(CollectionFile::Directory(Directory { path: name, display_name: display }));
                proof {
                    assert(entries_view(out@) =~= o0.push(
                        (true, self.vfs.mounts@[m as int].name@, self.vfs.mounts@[m as int].name@),
                    ));
                    assert(root_listing_spec(self.vfs).subrange(0, m as int + 1)
                        =~= root_listing_spec(self.vfs).subrange(0, m as int).push(
                        root_listing_spec(self.vfs)[m as int],
                    ));
                }
                m += 1;
            }
            proof {
                assert(root_listing_spec(self.vfs).subrange(0, nm as int) =~= root_listing_spec(
                    self.vfs,
                ));
            }
            return Ok(out);
        }
        let base = match self.vfs.virtual_to_real(virtual_path) {
            Ok(rp) => rp,
            Err(e) => {
                return Err(e);
            },
        };
        let n = listing.len();
        let mut out: Vec<CollectionFile> = Vec::new();
        proof {
            assert(listing@.subrange(0, 0) =~= Seq::<DirEntryInfo>::empty());
            assert(entries_view(out@) =~= Seq::<(bool, Seq<char>, Seq<char>)>::empty());
        }
        let mut i: usize = 0;
        while i < n
            invariant
                i <= n,
                n == listing@.len(),
                self.wf(),
                virtual_path@.len() != 0,
                self.vfs.v2r(virtual_path@) == Ok::<Seq<Seq<char>>, PError>(base@),
                browse_entries_spec(self.vfs, base@, listing@.subrange(0, i as int)) == Ok::<
                    Seq<(bool, Seq<char>, Seq<char>)>,
                    PError,
                >(entries_view(out@)),
            decreases n - i,
        {
            proof {
                assert(listing@.subrange(0, i as int + 1).drop_last() =~= listing@.subrange(
                    0,
                    i as int,
                ));
                assert(listing@.subrange(0, i as int + 1).last() == listing@[i as int]);
            }
            let ghost o0: Seq<(bool, Seq<char>, Seq<char>)> = entries_view(out@);
            let e = &listing[i];
            let kind = e.kind;
            if kind == FileKind::File {
                let child = base.child(&e.name);
                match Song::read(self, &child) {
                    Ok(song) => {
                        out.push(CollectionFile::Song(song));
                        proof {
                            assert(entries_view(out@) =~= o0.push(
                                file_entry_view(out@[out@.len() - 1]),
                            ));
                        }
                    },
                    Err(er) => {
                        proof {
                            lemma_browse_err_extends(self.vfs, base@, listing@, i as int + 1, er);
                        }
                        return Err(er);
                    },
                }
            } else if kind == FileKind::Directory {
                let child = base.child(&e.name);
                match Directory::read(self, &child) {
                    Ok(dir) => {
                        out.push(CollectionFile::Directory(dir));
                        proof {
                            assert(entries_view(out@) =~= o0.push(
                                file_entry_view(out@[out@.len() - 1]),
                            ));
                        }
                    },
                    Err(er) => {
                        proof {
                            lemma_browse_err_extends(self.vfs, base@, listing@, i as int + 1, er);
                        }
                        return Err(er);
                    },
                }
            }
            i += 1;
        }
        proof {
            assert(listing@.subrange(0, n as int) =~= listing@);
        }
        Ok(out)
    }

    /// The number of mounts (a helper for the root listing).
    fn mounts_len(&self) -> (r: usize)
        ensures
            r == self.vfs.mounts@.len(),
    {
        self.vfs.mounts.len()
    }

    /// The name of the mount at one position.
    fn mount_name_at(&self, i: usize) -> (r: String)
        requires
            i < self.vfs.mounts@.len(),
        ensures
            r@ == self.vfs.mounts@[i as int].name@,
    {
        self.vfs.mounts[i].name.clone()
    }

    /// Flattens one directory level: files become songs, directories are
    /// descended into depth-first, in listing order. The walk keeps an
    /// explicit stack of suspended directories instead of recursing, so
    /// arbitrarily deep trees cannot exhaust the call stack.
    fn flatten_internal<'a>(&self, base: &RealPath, tree: &'a FsTree) -> (r: Result<
        Vec<Song>,
        PError,
    >)
        requires
            self.wf(),
        ensures
            match r {
                Ok(v) => flatten_tree_spec(self.vfs, base@, *tree) == Ok::<
                    Seq<(Seq<char>, Seq<char>)>,
                    PError,
                >(songs_view(v@)),
                Err(e) => flatten_tree_spec(self.vfs, base@, *tree) == Err::<
                    Seq<(Seq<char>, Seq<char>)>,
                    PError,
                >(e),
            },
    {
        let entries0: &'a Vec<FsTreeEntry> = match tree {
            FsTree::Directory(es) => es,
            FsTree::File => {
                return Err(PError::IOError);
            },
            FsTree::Other => {
                return Err(PError::IOError);
            },
        };
        let mut out: Vec<Song> = Vec::new();
        let mut stack: Vec<FlattenFrame<'a>> = Vec::new();
        let ghost st_empty: Seq<FlattenFrame> = stack@;
        let base0 = RealPath { segments: clone_strings(&base.segments) };
        proof {
            assert(base0@ =~= base@);
        }
        stack.push(FlattenFrame { base: base0, entries: entries0, next: 0 });
        proof {
            assert(*tree == FsTree::Directory(*entries0));
            lemma_flatten_from_decomp(self.vfs, base@, entries0@, 0);
            assert(stack@ =~= st_empty.push(stack@.last()));
            lemma_stack_rest_push(self.vfs, st_empty, stack@.last());
            assert(stack_rest(self.vfs, st_empty) == Ok::<Seq<(Seq<char>, Seq<char>)>, PError>(
                Seq::empty(),
            ));
            assert(stack@.last().base@ == base@);
            assert(stack@.last().entries@ == entries0@);
            assert(stack@.last().next == 0);
            match flatten_from(self.vfs, base@, entries0@, 0) {
                Ok(s) => {
                    assert(Seq::<(Seq<char>, Seq<char>)>::empty() + s =~= s);
                    assert(s + Seq::<(Seq<char>, Seq<char>)>::empty() =~= s);
                    assert(songs_view(out@) =~= Seq::<(Seq<char>, Seq<char>)>::empty());
                },
                Err(_) => {},
            }
        }
        while stack.len() > 0
            invariant
                self.wf(),
                flatten_tree_spec(self.vfs, base@, *tree) == (match stack_rest(
                    self.vfs,
                    stack@,
                ) {
                    Err(e) => Err::<Seq<(Seq<char>, Seq<char>)>, PError>(e),
                    Ok(rest) => Ok(songs_view(out@) + rest),
                }),
            decreases stack_work(stack@),
        {
            let ghost st0: Seq<FlattenFrame> = stack@;
            let ghost out0: Seq<Song> = out@;
            let fr = stack.pop().unwrap();
            let ghost es: Seq<FsTreeEntry> = fr.entries@;
            let ghost i: int = fr.next as int;
            let ghost base_v: Seq<Seq<char>> = fr.base@;
            proof {
                assert(st0.last() == fr);
                assert(st0.drop_last() =~= stack@);
                assert(st0 =~= stack@.push(fr));
                lemma_stack_rest_push(self.vfs, stack@, fr);
                lemma_stack_work_push(stack@, fr);
            }
            if fr.next >= fr.entries.len() {
                proof {
                    assert(flatten_from(self.vfs, base_v, es, i) == Ok::<
                        Seq<(Seq<char>, Seq<char>)>,
                        PError,
                    >(Seq::empty()));
                    match stack_rest(self.vfs, stack@) {
                        Ok(r2) => {
                            assert(Seq::<(Seq<char>, Seq<char>)>::empty() + r2 =~= r2);
                        },
                        Err(_) => {},
                    }
                }
            } else {
                let e: &FsTreeEntry = &fr.entries[fr.next];
                let child = fr.base.child(&e.name);
                let ghost child_v: Seq<Seq<char>> = base_v.push(es[i].name@);
                let ghost lower: Seq<FlattenFrame> = stack@;
                proof {
                    assert(es[i] == *e);
                    assert(child@ == child_v);
                }
                match &e.tree {
                    FsTree::File => {
                        match Song::read(self, &child) {
                            Ok(song) => {
                                out.push(song);
                                stack.push(
                                    FlattenFrame {
                                        base: fr.base,
                                        entries: fr.entries,
                                        next: fr.next + 1,
                                    },
                                );
                                proof {
                                    let vp = self.vfs.r2v(child_v)->Ok_0;
                                    assert(stack@ =~= lower.push(stack@.last()));
                                    lemma_stack_rest_push(self.vfs, lower, stack@.last());
                                    lemma_stack_work_push(lower, stack@.last());
                                    assert(stack@.last().base@ == base_v);
                                    assert(stack@.last().entries@ == es);
                                    assert(stack@.last().next as int == i + 1);
                                    assert(songs_view(out@) =~= songs_view(out0).push(
                                        song_view_of(vp),
                                    ));
                                    assert(entries_size_from(es, i) == tree_size(es[i].tree)
                                        + entries_size_from(es, i + 1));
                                    match flatten_from(self.vfs, base_v, es, i + 1) {
                                        Ok(r1) => {
                                            match stack_rest(self.vfs, lower) {
                                                Ok(r2) => {
                                                    assert(songs_view(out0) + ((seq![
                                                        song_view_of(vp),
                                                    ] + r1) + r2) =~= songs_view(out0).push(
                                                        song_view_of(vp),
                                                    ) + (r1 + r2));
                                                },
                                                Err(_) => {},
                                            }
                                        },
                                        Err(_) => {},
                                    }
                                }
                            },
                            Err(er) => {
                                proof {
                                    assert(self.vfs.r2v(child_v) == Err::<
                                        Seq<Seq<char>>,
                                        PError,
                                    >(er));
                                    assert(flatten_from(self.vfs, base_v, es, i) == Err::<
                                        Seq<(Seq<char>, Seq<char>)>,
                                        PError,
                                    >(er));
                                    assert(stack_rest(self.vfs, st0) == Err::<
                                        Seq<(Seq<char>, Seq<char>)>,
                                        PError,
                                    >(er));
                                }
                                return Err(er);
                            },
                        }
                    },
                    FsTree::Directory(subs) => {
                        stack.push(
                            FlattenFrame { base: fr.base, entries: fr.entries, next: fr.next + 1 },
                        );
                        let ghost st1: Seq<FlattenFrame> = stack@;
                        stack.push(FlattenFrame { base: child, entries: subs, next: 0 });
                        proof {
                            assert(es[i].tree == FsTree::Directory(*subs));
                            assert(st1 =~= lower.push(st1.last()));
                            lemma_stack_rest_push(self.vfs, lower, st1.last());
                            lemma_stack_work_push(lower, st1.last());
                            assert(st1.last().base@ == base_v);
                            assert(st1.last().entries@ == es);
                            assert(st1.last().next as int == i + 1);
                            assert(stack@ =~= st1.push(stack@.last()));
                            lemma_stack_rest_push(self.vfs, st1, stack@.last());
                            lemma_stack_work_push(st1, stack@.last());
                            assert(stack@.last().base@ == child_v);
                            assert(stack@.last().entries@ == subs@);
                            assert(stack@.last().next as int == 0);
                            match flatten_from(self.vfs, child_v, subs@, 0) {
                                Ok(s) => {
                                    match flatten_from(self.vfs, base_v, es, i + 1) {
                                        Ok(r1) => {
                                            match stack_rest(self.vfs, lower) {
                                                Ok(r2) => {
                                                    assert(songs_view(out0) + ((s + r1) + r2)
                                                        =~= songs_view(out0) + (s + (r1 + r2)));
                                                },
                                                Err(_) => {},
                                            }
                                        },
                                        Err(_) => {},
                                    }
                                },
                                Err(_) => {},
                            }
                            assert(entries_size_from(es, i) == tree_size(es[i].tree)
                                + entries_size_from(es, i + 1));
                            assert(tree_size(es[i].tree) == 2 + entries_size_from(subs@, 0));
                        }
                    },
                    FsTree::Other => {
                        proof {
                            assert(flatten_from(self.vfs, base_v, es, i) == Err::<
                                Seq<(Seq<char>, Seq<char>)>,
                                PError,
                            >(PError::IOError));
                            assert(stack_rest(self.vfs, st0) == Err::<
                                Seq<(Seq<char>, Seq<char>)>,
                                PError,
                            >(PError::IOError));
                        }
                        return Err(PError::IOError);
                    },
                }
            }
        }
        proof {
            assert(stack_rest(self.vfs, stack@) == Ok::<Seq<(Seq<char>, Seq<char>)>, PError>(
                Seq::empty(),
            ));
            assert(songs_view(out@) + Seq::<(Seq<char>, Seq<char>)>::empty() =~= songs_view(
                out@,
            ));
        }
        Ok(out)
    }

    /// Flattens a virtual directory: translates it, then collects every
    /// file of the given subtree snapshot as a song, depth-first, in
    /// listing order — each reachable file exactly once, directories
    /// themselves not emitted.
    pub fn flatten(&self, virtual_path: &VirtualPath, tree: &FsTree) -> (r: Result<
        Vec<Song>,
        PError,
    >)
        requires
            self.wf(),
        ensures
            match self.vfs.v2r(virtual_path@) {
                Err(e) => r == Err::<Vec<Song>, PError>(e),
                Ok(base) => match r {
                    Ok(v) => flatten_tree_spec(self.vfs, base, *tree) == Ok::<
                        Seq<(Seq<char>, Seq<char>)>,
                        PError,
                    >(songs_view(v@)),
                    Err(e) => flatten_tree_spec(self.vfs, base, *tree) == Err::<
                        Seq<(Seq<char>, Seq<char>)>,
                        PError,
                    >(e),
                },
            },
    {
        let base = match self.vfs.virtual_to_real(virtual_path) {
            Ok(rp) => rp,
            Err(e) => {
                return Err(e);
            },
        };
        self.flatten_internal(&base, tree)
    }

    /// A thin pass-through to VFS translation, so collaborators can
    /// obtain the real path of a virtual entry.
    pub fn locate(&self, virtual_path: &VirtualPath) -> (r: Result<RealPath, PError>)
        requires
            self.wf(),
        ensures
            match r {
                Ok(rp) => self.vfs.v2r(virtual_path@) == Ok::<Seq<Seq<char>>, PError>(rp@),
                Err(e) => self.vfs.v2r(virtual_path@) == Err::<Seq<Seq<char>>, PError>(e),
            },
    {
        self.vfs.virtual_to_real(virtual_path)
    }
}

/// The real paths of the files reachable from `base` through a subtree
/// snapshot: every file under any chain of subdirectories, depth-first,
/// children in listing order. Directories themselves are not listed.
pub open spec fn reachable_files_spec(base: Seq<Seq<char>>, tree: FsTree) -> Seq<Seq<Seq<char>>>
    decreases tree,
{
    match tree {
        FsTree::Directory(entries) => reachable_files_entries(base, entries@),
        FsTree::File => Seq::empty(),
        FsTree::Other => Seq::empty(),
    }
}

/// The reachable files contributed by the children of one directory.
pub open spec fn reachable_files_entries(
    base: Seq<Seq<char>>,
    entries: Seq<FsTreeEntry>,
) -> Seq<Seq<Seq<char>>>
    decreases entries,
{
    if entries.len() == 0 {
        Seq::empty()
    } else {
        let acc = reachable_files_entries(base, entries.drop_last());
        let e = entries.last();
        let child = base.push(e.name@);
        match e.tree {
            FsTree::File => acc.push(child),
            FsTree::Directory(subs) => acc + reachable_files_spec(child, e.tree),
            FsTree::Other => acc,
        }
    }
}

/// A flatten that succeeds returns one song per reachable file, in the
/// same depth-first order: the `k`-th song is exactly the translation of
/// the `k`-th reachable file — no omissions, no duplications, nothing
/// else.
pub proof fn lemma_flatten_exact(vfs: Vfs, base: Seq<Seq<char>>, tree: FsTree)
    requires
        flatten_tree_spec(vfs, base, tree) is Ok,
    ensures
        ({
            let songs = flatten_tree_spec(vfs, base, tree)->Ok_0;
            let files = reachable_files_spec(base, tree);
            &&& songs.len() == files.len()
            &&& forall|k: int|
                0 <= k < files.len() ==> vfs.r2v(#[trigger] files[k]) is Ok && songs[k]
                    == song_view_of(vfs.r2v(files[k])->Ok_0)
        }),
    decreases tree,
{
    match tree {
        FsTree::Directory(entries) => {
            lemma_flatten_exact_entries(vfs, base, entries@);
        },
        FsTree::File => {},
        FsTree::Other => {},
    }
}

proof fn lemma_flatten_exact_entries(vfs: Vfs, base: Seq<Seq<char>>, entries: Seq<FsTreeEntry>)
    requires
        flatten_entries_spec(vfs, base, entries) is Ok,
    ensures
        ({
            let songs = flatten_entries_spec(vfs, base, entries)->Ok_0;
            let files = reachable_files_entries(base, entries);
            &&& songs.len() == files.len()
            &&& forall|k: int|
                0 <= k < files.len() ==> vfs.r2v(#[trigger] files[k]) is Ok && songs[k]
                    == song_view_of(vfs.r2v(files[k])->Ok_0)
        }),
    decreases entries,
{
    if entries.len() > 0 {
        lemma_flatten_exact_entries(vfs, base, entries.drop_last());
        let e = entries.last();
        let child = base.push(e.name@);
        match e.tree {
            FsTree::File => {},
            FsTree::Directory(subs) => {
                lemma_flatten_exact(vfs, child, e.tree);
            },
            FsTree::Other => {},
        }
    }
}

/// Well-formed snapshot: within each directory the children's names are
/// distinct, as a real filesystem guarantees.
pub open spec fn tree_wf(tree: FsTree) -> bool
    decreases tree,
{
    match tree {
        FsTree::Directory(entries) => (forall|i: int, j: int|
            0 <= i < j < entries@.len() ==> entries@[i].name@ != entries@[j].name@) && (forall|
            i: int,
        |
            0 <= i < entries@.len() ==> tree_wf(#[trigger] entries@[i].tree)),
        FsTree::File => true,
        FsTree::Other => true,
    }
}

/// The names of a directory's children.
pub open spec fn entry_names(entries: Seq<FsTreeEntry>) -> Seq<Seq<char>> {
    Seq::new(entries.len(), |i: int| entries[i].name@)
}

/// The files reachable through a well-formed snapshot are pairwise
/// distinct real paths: flattening neither loses nor duplicates a file.
pub proof fn lemma_reachable_files_distinct(base: Seq<Seq<char>>, tree: FsTree)
    requires
        tree_wf(tree),
    ensures
        ({
            let files = reachable_files_spec(base, tree);
            &&& forall|k: int, l: int| 0 <= k < l < files.len() ==> files[k] != files[l]
            &&& forall|k: int|
                0 <= k < files.len() ==> (#[trigger] files[k]).len() > base.len() && files[k].subrange(
                    0,
                    base.len() as int,
                ) == base
        }),
    decreases tree,
{
    match tree {
        FsTree::Directory(entries) => {
            lemma_reachable_entries_distinct(base, entries@);
            assert(reachable_files_spec(base, tree) == reachable_files_entries(base, entries@));
        },
        FsTree::File => {},
        FsTree::Other => {},
    }
}

proof fn lemma_reachable_entries_distinct(base: Seq<Seq<char>>, entries: Seq<FsTreeEntry>)
    requires
        forall|i: int, j: int| 0 <= i < j < entries.len() ==> entries[i].name@ != entries[j].name@,
        forall|i: int| 0 <= i < entries.len() ==> tree_wf(#[trigger] entries[i].tree),
    ensures
        ({
            let files = reachable_files_entries(base, entries);
            &&& forall|k: int, l: int| 0 <= k < l < files.len() ==> files[k] != files[l]
            &&& forall|k: int|
                0 <= k < files.len() ==> (#[trigger] files[k]).len() > base.len() && files[k].subrange(
                    0,
                    base.len() as int,
                ) == base && entry_names(entries).contains(files[k][base.len() as int])
        }),
    decreases entries,
{
    if entries.len() > 0 {
        let pre = entries.drop_last();
        assert forall|i: int, j: int|
            0 <= i < j < pre.len() implies pre[i].name@ != pre[j].name@ by {
            assert(pre[i] == entries[i]);
            assert(pre[j] == entries[j]);
        }
        assert forall|i: int| 0 <= i < pre.len() implies tree_wf(#[trigger] pre[i].tree) by {
            assert(pre[i] == entries[i]);
        }
        lemma_reachable_entries_distinct(base, pre);
        let e = entries.last();
        let child = base.push(e.name@);
        let acc = reachable_files_entries(base, pre);
        let files = reachable_files_entries(base, entries);
        // An earlier child's files never carry the last child's name at
        // the branching position.
        assert forall|k: int|
            0 <= k < acc.len() implies (#[trigger] acc[k])[base.len() as int] != e.name@ by {
            let n = acc[k][base.len() as int];
            assert(entry_names(pre).contains(n));
            let i = choose|i: int| 0 <= i < entry_names(pre).len() && entry_names(pre)[i] == n;
            assert(pre[i] == entries[i]);
            assert(entries[i].name@ != entries[entries.len() - 1].name@);
        }
        // Names seen among earlier children are names of the whole list.
        assert forall|k: int|
            0 <= k < acc.len() implies entry_names(entries).contains(
            (#[trigger] acc[k])[base.len() as int],
        ) by {
            let n = acc[k][base.len() as int];
            let i = choose|i: int| 0 <= i < entry_names(pre).len() && entry_names(pre)[i] == n;
            assert(entry_names(entries)[i] == entry_names(pre)[i]);
        }
        match e.tree {
            FsTree::File => {
                assert(files =~= acc.push(child));
                assert(child[base.len() as int] == e.name@);
                assert(child.subrange(0, base.len() as int) =~= base);
                assert(entry_names(entries)[entries.len() - 1] == e.name@);
                assert(entry_names(entries).contains(e.name@));
            },
            FsTree::Directory(subs) => {
                lemma_reachable_files_distinct(child, e.tree);
                let sub = reachable_files_spec(child, e.tree);
                assert(files =~= acc + sub);
                assert forall|k: int|
                    0 <= k < sub.len() implies (#[trigger] sub[k]).len() > base.len() && sub[k].subrange(
                    0,
                    base.len() as int,
                ) == base && sub[k][base.len() as int] == e.name@ by {
                    assert(sub[k].subrange(0, child.len() as int) == child);
                    assert(sub[k].subrange(0, child.len() as int).subrange(0, base.len() as int)
                        =~= sub[k].subrange(0, base.len() as int));
                    assert(child.subrange(0, base.len() as int) =~= base);
                    assert(sub[k].subrange(0, child.len() as int)[base.len() as int]
                        == sub[k][base.len() as int]);
                    assert(child[base.len() as int] == e.name@);
                }
                assert(entry_names(entries)[entries.len() - 1] == e.name@);
                assert(entry_names(entries).contains(e.name@));
                assert forall|k: int, l: int|
                    0 <= k < l < files.len() implies files[k] != files[l] by {
                    if l < acc.len() {
                    } else if k >= acc.len() {
                        assert(files[k] == sub[k - acc.len()]);
                        assert(files[l] == sub[l - acc.len()]);
                    } else {
                        assert(files[k] == acc[k]);
                        assert(files[l] == sub[l - acc.len()]);
                        assert(acc[k][base.len() as int] != e.name@);
                        assert(sub[l - acc.len()][base.len() as int] == e.name@);
                    }
                }
            },
            FsTree::Other => {
                assert(files =~= acc);
            },
        }
    }
}

/// Flattening a well-formed snapshot never yields two songs for one
/// virtual path: the reachable files are pairwise distinct and
/// translation back through the VFS is injective.
pub proof fn lemma_flatten_no_duplicates(vfs: Vfs, base: Seq<Seq<char>>, tree: FsTree)
    requires
        vfs.wf(),
        tree_wf(tree),
        flatten_tree_spec(vfs, base, tree) is Ok,
    ensures
        ({
            let files = reachable_files_spec(base, tree);
            forall|k: int, l: int|
                0 <= k < l < files.len() ==> vfs.r2v(#[trigger] files[k])->Ok_0 != vfs.r2v(
                    #[trigger] files[l],
                )->Ok_0
        }),
{
    lemma_flatten_exact(vfs, base, tree);
    lemma_reachable_files_distinct(base, tree);
    let files = reachable_files_spec(base, tree);
    assert forall|k: int, l: int|
        0 <= k < l < files.len() implies vfs.r2v(#[trigger] files[k])->Ok_0 != vfs.r2v(
        #[trigger] files[l],
    )->Ok_0 by {
        if vfs.r2v(files[k])->Ok_0 == vfs.r2v(files[l])->Ok_0 {
            assert(vfs.r2v(files[k]) is Ok);
            assert(vfs.r2v(files[l]) is Ok);
            assert(vfs.r2v(files[k]) == vfs.r2v(files[l]));
            lemma_r2v_injective(vfs, files[k], files[l]);
        }
    }
}

} // verus!
