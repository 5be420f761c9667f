//! The virtual file system: a table of named mount points, each bound to
//! one real directory root, with bidirectional path translation and
//! containment checking.
//!
//! Paths are modelled as sequences of segments. A virtual path's first
//! segment selects a mount point; the remaining segments are resolved
//! lexically against that mount's real root, and a `..` segment may never
//! cross the mount boundary.

use vstd::prelude::*;
use vstd::string::*;
use crate::error::PError;
use crate::text::views_of;

verus! {

/// An absolute path on the host, as its segments from the filesystem root.
pub struct RealPath {
    pub segments: Vec<String>,
}

impl View for RealPath {
    type V = Seq<Seq<char>>;

    open spec fn view(&self) -> Seq<Seq<char>> {
        views_of(self.segments@)
    }
}

/// A user-facing path rooted at the collection; the first segment names a
/// mount point. A virtual path with no segments denotes the collection
/// root.
pub struct VirtualPath {
    pub segments: Vec<String>,
}

impl View for VirtualPath {
    type V = Seq<Seq<char>>;

    open spec fn view(&self) -> Seq<Seq<char>> {
        views_of(self.segments@)
    }
}

/// A named binding from a virtual root segment to a real directory.
pub struct MountPoint {
    pub name: String,
    pub real_root: RealPath,
}

/// The mount table: an insertion-ordered mapping from mount name to real
/// root. Mutation is configuration-time only; translation is read-only.
pub struct Vfs {
    pub mounts: Vec<MountPoint>,
}

/// Whether a segment is the current-directory marker `.`.
pub open spec fn is_dot(s: Seq<char>) -> bool {
    s.len() == 1 && s[0] == '.'
}

/// Whether a segment is the parent-directory marker `..`.
pub open spec fn is_dotdot(s: Seq<char>) -> bool {
    s.len() == 2 && s[0] == '.' && s[1] == '.'
}

/// Lexical resolution of a mount-relative suffix. `.` segments vanish,
/// `..` segments pop, and a pop past the mount boundary makes the whole
/// suffix an escape (`None`). Once escaped, always escaped.
pub open spec fn resolve_suffix(segs: Seq<Seq<char>>) -> Option<Seq<Seq<char>>>
    decreases segs.len(),
{
    if segs.len() == 0 {
        Some(Seq::empty())
    } else {
        match resolve_suffix(segs.drop_last()) {
            None => None,
            Some(st) => {
                let last = segs.last();
                if is_dot(last) {
                    Some(st)
                } else if is_dotdot(last) {
                    if st.len() == 0 {
                        None
                    } else {
                        Some(st.drop_last())
                    }
                } else {
                    Some(st.push(last))
                }
            },
        }
    }
}

/// The index of the first mount point named `name`, or `-1`.
pub open spec fn first_index(ms: Seq<MountPoint>, name: Seq<char>) -> int
    decreases ms.len(),
{
    if ms.len() == 0 {
        -1
    } else if ms[0].name@ == name {
        0
    } else {
        let r = first_index(ms.drop_first(), name);
        if r < 0 {
            -1
        } else {
            r + 1
        }
    }
}

/// Whether `p` is a (segment-wise) prefix of `q`.
pub open spec fn is_prefix_of(p: Seq<Seq<char>>, q: Seq<Seq<char>>) -> bool {
    p.len() <= q.len() && forall|k: int| 0 <= k < p.len() ==> p[k] == q[k]
}

/// The index of the longest-prefix match for `rp` in `ms`, the earliest on
/// equal length; `-1` when no mount root is a prefix of `rp`.
pub open spec fn best_in(ms: Seq<MountPoint>, rp: Seq<Seq<char>>) -> int
    decreases ms.len(),
{
    if ms.len() == 0 {
        -1
    } else {
        let i = ms.len() - 1;
        let prev = best_in(ms.drop_last(), rp);
        if !is_prefix_of(ms[i].real_root@, rp) {
            prev
        } else if prev == -1 {
            i
        } else if ms[i].real_root@.len() > ms[prev].real_root@.len() {
            i
        } else {
            prev
        }
    }
}

/// `first_index` finds a match exactly when one exists, and what it finds
/// is a match.
pub proof fn lemma_first_index(ms: Seq<MountPoint>, name: Seq<char>)
    ensures
        first_index(ms, name) >= -1,
        first_index(ms, name) == -1 ==> forall|j: int|
            0 <= j < ms.len() ==> ms[j].name@ != name,
        first_index(ms, name) >= 0 ==> 0 <= first_index(ms, name) < ms.len()
            && ms[first_index(ms, name)].name@ == name,
    decreases ms.len(),
{
    if ms.len() > 0 {
        if ms[0].name@ != name {
            lemma_first_index(ms.drop_first(), name);
            assert forall|j: int| first_index(ms, name) == -1 && 0 <= j < ms.len() implies ms[j].name@
                != name by {
                if j > 0 {
                    assert(ms.drop_first()[j - 1] == ms[j]);
                }
            }
            if first_index(ms, name) >= 0 {
                assert(ms.drop_first()[first_index(ms.drop_first(), name)]
                    == ms[first_index(ms, name)]);
            }
        }
    }
}

/// The earliest match determines `first_index`.
pub proof fn lemma_first_index_at(ms: Seq<MountPoint>, name: Seq<char>, at: int)
    requires
        0 <= at < ms.len(),
        ms[at].name@ == name,
        forall|j: int| 0 <= j < at ==> ms[j].name@ != name,
    ensures
        first_index(ms, name) == at,
    decreases at,
{
    if at > 0 {
        assert(ms[0].name@ != name);
        assert(ms.drop_first()[at - 1] == ms[at]);
        assert forall|j: int| 0 <= j < at - 1 implies ms.drop_first()[j].name@ != name by {
            assert(ms.drop_first()[j] == ms[j + 1]);
        }
        lemma_first_index_at(ms.drop_first(), name, at - 1);
    }
}

/// `first_index` depends only on the sequence of names.
pub proof fn lemma_first_index_congruence(ms0: Seq<MountPoint>, ms1: Seq<MountPoint>, n: Seq<char>)
    requires
        ms0.len() == ms1.len(),
        forall|k: int| 0 <= k < ms0.len() ==> ms0[k].name@ == ms1[k].name@,
    ensures
        first_index(ms0, n) == first_index(ms1, n),
    decreases ms0.len(),
{
    if ms0.len() > 0 {
        assert(ms0[0].name@ == ms1[0].name@);
        assert forall|k: int| 0 <= k < ms0.drop_first().len() implies ms0.drop_first()[k].name@
            == ms1.drop_first()[k].name@ by {
            assert(ms0.drop_first()[k] == ms0[k + 1]);
            assert(ms1.drop_first()[k] == ms1[k + 1]);
        }
        lemma_first_index_congruence(ms0.drop_first(), ms1.drop_first(), n);
    }
}

/// Appending a mount whose name is not `n` does not change where `n` is
/// found.
pub proof fn lemma_first_index_push_other(ms0: Seq<MountPoint>, mp: MountPoint, n: Seq<char>)
    requires
        mp.name@ != n,
    ensures
        first_index(ms0.push(mp), n) == first_index(ms0, n),
    decreases ms0.len(),
{
    let ms1 = ms0.push(mp);
    if ms0.len() == 0 {
        assert(ms1[0] == mp);
        assert(ms1.drop_first() =~= Seq::<MountPoint>::empty());
        assert(first_index(ms1.drop_first(), n) == -1);
    } else {
        assert(ms1[0] == ms0[0]);
        lemma_first_index_push_other(ms0.drop_first(), mp, n);
        assert(ms1.drop_first() =~= ms0.drop_first().push(mp));
    }
}

/// Whether a segment equals `.`.
fn seg_is_dot(s: &String) -> (r: bool)
    ensures
        r == is_dot(s@),
{
    let n = s.as_str().unicode_len();
    n == 1 && s.as_str().get_char(0) == '.'
}

/// Whether a segment equals `..`.
fn seg_is_dotdot(s: &String) -> (r: bool)
    ensures
        r == is_dotdot(s@),
{
    let n = s.as_str().unicode_len();
    n == 2 && s.as_str().get_char(0) == '.' && s.as_str().get_char(1) == '.'
}

/// Whether the segments of `p` are a prefix of those of `q`.
fn is_prefix_exec(p: &Vec<String>, q: &Vec<String>) -> (r: bool)
    ensures
        r == is_prefix_of(views_of(p@), views_of(q@)),
{
    if p.len() > q.len() {
        return false;
    }
    let mut k: usize = 0;
    while k < p.len()
        invariant
            k <= p@.len() <= q@.len(),
            forall|t: int| 0 <= t < k ==> views_of(p@)[t] == views_of(q@)[t],
        decreases p@.len() - k,
    {
        if !(p[k] == q[k]) {
            proof {
                assert(views_of(p@)[k as int] != views_of(q@)[k as int]);
            }
            return false;
        }
        k += 1;
    }
    true
}

/// An escape anywhere in a suffix makes the whole suffix an escape.
pub proof fn lemma_resolve_none_extends(segs: Seq<Seq<char>>, i: int)
    requires
        0 <= i <= segs.len(),
        resolve_suffix(segs.subrange(0, i)) == None::<Seq<Seq<char>>>,
    ensures
        resolve_suffix(segs) == None::<Seq<Seq<char>>>,
    decreases segs.len() - i,
{
    if i < segs.len() {
        assert(segs.subrange(0, i + 1).drop_last() =~= segs.subrange(0, i));
        lemma_resolve_none_extends(segs, i + 1);
    } else {
        assert(segs.subrange(0, segs.len() as int) =~= segs);
    }
}

/// A suffix without `.` or `..` segments resolves to itself.
pub proof fn lemma_resolve_clean(suffix: Seq<Seq<char>>)
    requires
        forall|k: int| 0 <= k < suffix.len() ==> !is_dot(#[trigger] suffix[k]) && !is_dotdot(
            suffix[k],
        ),
    ensures
        resolve_suffix(suffix) == Some(suffix),
    decreases suffix.len(),
{
    if suffix.len() > 0 {
        assert forall|k: int| 0 <= k < suffix.drop_last().len() implies !is_dot(
            #[trigger] suffix.drop_last()[k],
        ) && !is_dotdot(suffix.drop_last()[k]) by {
            assert(suffix.drop_last()[k] == suffix[k]);
        }
        lemma_resolve_clean(suffix.drop_last());
        assert(!is_dot(suffix.last()) && !is_dotdot(suffix.last()));
        assert(suffix.drop_last().push(suffix.last()) =~= suffix);
    }
}

/// A non-negative `best_in` result is in bounds and is a prefix match.
pub proof fn lemma_best_in_props(ms: Seq<MountPoint>, rp: Seq<Seq<char>>)
    ensures
        best_in(ms, rp) >= -1,
        best_in(ms, rp) >= 0 ==> best_in(ms, rp) < ms.len() && is_prefix_of(
            ms[best_in(ms, rp)].real_root@,
            rp,
        ),
    decreases ms.len(),
{
    if ms.len() > 0 {
        lemma_best_in_props(ms.drop_last(), rp);
        let prev = best_in(ms.drop_last(), rp);
        if prev >= 0 {
            assert(ms.drop_last()[prev] == ms[prev]);
        }
    }
}

/// When no mount root is a prefix of `rp`, there is no match.
proof fn lemma_best_none(ms: Seq<MountPoint>, rp: Seq<Seq<char>>)
    requires
        forall|j: int| 0 <= j < ms.len() ==> !(#[trigger] is_prefix_of(ms[j].real_root@, rp)),
    ensures
        best_in(ms, rp) == -1,
    decreases ms.len(),
{
    if ms.len() > 0 {
        assert forall|j: int| 0 <= j < ms.drop_last().len() implies !(#[trigger] is_prefix_of(
            ms.drop_last()[j].real_root@,
            rp,
        )) by {
            assert(ms.drop_last()[j] == ms[j]);
        }
        lemma_best_none(ms.drop_last(), rp);
        assert(!is_prefix_of(ms[ms.len() - 1].real_root@, rp));
    }
}

/// When exactly one mount root is a prefix of `rp`, it is the match.
proof fn lemma_best_only(ms: Seq<MountPoint>, rp: Seq<Seq<char>>, i: int)
    requires
        0 <= i < ms.len(),
        is_prefix_of(ms[i].real_root@, rp),
        forall|j: int|
            0 <= j < ms.len() && j != i ==> !(#[trigger] is_prefix_of(ms[j].real_root@, rp)),
    ensures
        best_in(ms, rp) == i,
    decreases ms.len(),
{
    if i == ms.len() - 1 {
        assert forall|j: int| 0 <= j < ms.drop_last().len() implies !(#[trigger] is_prefix_of(
            ms.drop_last()[j].real_root@,
            rp,
        )) by {
            assert(ms.drop_last()[j] == ms[j]);
        }
        lemma_best_none(ms.drop_last(), rp);
    } else {
        assert(ms.drop_last()[i] == ms[i]);
        assert forall|j: int|
            0 <= j < ms.drop_last().len() && j != i implies !(#[trigger] is_prefix_of(
            ms.drop_last()[j].real_root@,
            rp,
        )) by {
            assert(ms.drop_last()[j] == ms[j]);
        }
        lemma_best_only(ms.drop_last(), rp, i);
        assert(!is_prefix_of(ms[ms.len() - 1].real_root@, rp));
    }
}

impl Vfs {
    /// Mount names are unique within one table.
    pub open spec fn wf(self) -> bool {
        forall|i: int, j: int|
            0 <= i < j < self.mounts@.len() ==> self.mounts@[i].name@ != self.mounts@[j].name@
    }

    /// Mount roots are mutually disjoint: no root is a prefix of another
    /// (nor equal to it). Translation back from real paths is unambiguous
    /// exactly under this assumption.
    pub open spec fn roots_disjoint(self) -> bool {
        forall|i: int, j: int|
            0 <= i < self.mounts@.len() && 0 <= j < self.mounts@.len() && i != j ==> !(
            #[trigger] is_prefix_of(self.mounts@[i].real_root@, self.mounts@[j].real_root@))
    }

    /// The mount names, in insertion order.
    pub open spec fn names(self) -> Seq<Seq<char>> {
        Seq::new(self.mounts@.len(), |i: int| self.mounts@[i].name@)
    }

    /// Whether a mount of this name is registered.
    pub open spec fn has_mount(self, name: Seq<char>) -> bool {
        first_index(self.mounts@, name) >= 0
    }

    /// The real root bound to a mount name.
    pub open spec fn root_of(self, name: Seq<char>) -> Seq<Seq<char>> {
        self.mounts@[first_index(self.mounts@, name)].real_root@
    }

    /// What translating a virtual path yields: the first segment selects a
    /// mount; the rest resolves lexically under its root, and an escaping
    /// suffix is rejected.
    pub open spec fn v2r(self, vp: Seq<Seq<char>>) -> Result<Seq<Seq<char>>, PError> {
        if vp.len() == 0 {
            Err(PError::MountNotFound)
        } else if !self.has_mount(vp[0]) {
            Err(PError::MountNotFound)
        } else {
            match resolve_suffix(vp.drop_first()) {
                None => Err(PError::PathEscapesMount),
                Some(rel) => Ok(self.root_of(vp[0]) + rel),
            }
        }
    }

    /// What translating a real path back yields: the longest-prefix mount
    /// match, its name prepended to the remaining suffix.
    pub open spec fn r2v(self, rp: Seq<Seq<char>>) -> Result<Seq<Seq<char>>, PError> {
        let b = best_in(self.mounts@, rp);
        if b < 0 {
            Err(PError::PathNotMounted)
        } else {
            Ok(seq![self.mounts@[b].name@] + rp.skip(self.mounts@[b].real_root@.len() as int))
        }
    }

    /// An empty mount table.
    pub fn new() -> (r: Vfs)
        ensures
            r.mounts@.len() == 0,
            r.wf(),
    {
        Vfs { mounts: Vec::new() }
    }

    /// Registers or replaces a mount point. The caller reports whether the
    /// real root exists and is a directory (a filesystem fact); mounting
    /// fails unless both hold.
    pub fn mount(
        &mut self,
        name: &String,
        real_root: RealPath,
        root_exists: bool,
        root_is_dir: bool,
    ) -> (r: Result<(), PError>)
        requires
            old(self).wf(),
        ensures
            final(self).wf(),
            !root_exists ==> r == Err::<(), PError>(PError::MountNotFound) && final(self).mounts@
                == old(self).mounts@,
            root_exists && !root_is_dir ==> r == Err::<(), PError>(PError::MountNotADirectory)
                && final(self).mounts@ == old(self).mounts@,
            root_exists && root_is_dir ==> {
                &&& r == Ok::<(), PError>(())
                &&& final(self).names() == (if old(self).has_mount(name@) {
                    old(self).names()
                } else {
                    old(self).names().push(name@)
                })
                &&& final(self).has_mount(name@)
                &&& final(self).root_of(name@) == real_root@
                &&& forall|n: Seq<char>|
                    n != name@ ==> final(self).has_mount(n) == old(self).has_mount(n)
                &&& forall|n: Seq<char>|
                    n != name@ && old(self).has_mount(n) ==> final(self).root_of(n) == old(
                        self,
                    ).root_of(n)
            },
    {
        if !root_exists {
            return Err(PError::MountNotFound);
        }
        if !root_is_dir {
            return Err(PError::MountNotADirectory);
        }
        let n = self.mounts.len();
        let mut m: usize = 0;
        let mut found = false;
        let mut at: usize = 0;
        while m < n
            invariant
                n == self.mounts@.len(),
                m <= n,
                *self == *old(self),
                !found ==> forall|j: int| 0 <= j < m ==> self.mounts@[j].name@ != name@,
                found ==> at < m && self.mounts@[at as int].name@ == name@ && forall|j: int|
                    0 <= j < at ==> self.mounts@[j].name@ != name@,
            decreases n - m,
        {
            if !found && self.mounts[m].name == *name {
                found = true;
                at = m;
            }
            m += 1;
        }
        if found {
            let new_name = self.mounts[at].name.clone();
            self.mounts[at] = MountPoint { name: new_name, real_root };
            proof {
                let ms0 = old(self).mounts@;
                let ms1 = self.mounts@;
                assert(ms1[at as int].name@ == name@);
                assert forall|k: int| 0 <= k < ms0.len() implies ms0[k].name@ == ms1[k].name@ by {
                    if k != at as int {
                        assert(ms1[k] == ms0[k]);
                    }
                }
                lemma_first_index_at(ms0, name@, at as int);
                lemma_first_index_at(ms1, name@, at as int);
                assert(final(self).names() =~= old(self).names());
                assert forall|i: int, j: int|
                    0 <= i < j < ms1.len() implies ms1[i].name@ != ms1[j].name@ by {
                    assert(ms0[i].name@ != ms0[j].name@);
                }
                assert forall|n: Seq<char>| n != name@ implies final(self).has_mount(n) == old(
                    self,
                ).has_mount(n) && (old(self).has_mount(n) ==> final(self).root_of(n) == old(
                    self,
                ).root_of(n)) by {
                    lemma_first_index_congruence(ms0, ms1, n);
                    if first_index(ms0, n) >= 0 {
                        lemma_first_index(ms0, n);
                        assert(ms0[first_index(ms0, n)].name@ == n);
                        assert(first_index(ms0, n) != at as int);
                        assert(ms1[first_index(ms0, n)] == ms0[first_index(ms0, n)]);
                    }
                }
            }
            Ok(())
        } else {
            let new_name = name.clone();
            self.mounts.push(MountPoint { name: new_name, real_root });
            proof {
                let ms0 = old(self).mounts@;
                let ms1 = self.mounts@;
                let mp = ms1[ms0.len() as int];
                assert(ms1 == ms0.push(mp));
                assert(mp.name@ == name@);
                assert forall|j: int| 0 <= j < ms0.len() implies ms1[j].name@ != name@ by {
                    assert(ms1[j] == ms0[j]);
                }
                lemma_first_index_at(ms1, name@, ms0.len() as int);
                lemma_first_index(ms0, name@);
                assert(first_index(ms0, name@) == -1);
                assert(final(self).names() =~= old(self).names().push(name@));
                assert forall|i: int, j: int|
                    0 <= i < j < ms1.len() implies ms1[i].name@ != ms1[j].name@ by {
                    assert(ms1[i] == ms0[i]);
                    if j < ms0.len() {
                        assert(ms1[j] == ms0[j]);
                        assert(ms0[i].name@ != ms0[j].name@);
                    }
                }
                assert forall|n: Seq<char>| n != name@ implies final(self).has_mount(n) == old(
                    self,
                ).has_mount(n) && (old(self).has_mount(n) ==> final(self).root_of(n) == old(
                    self,
                ).root_of(n)) by {
                    lemma_first_index_push_other(ms0, mp, n);
                    if first_index(ms0, n) >= 0 {
                        lemma_first_index(ms0, n);
                        assert(ms1[first_index(ms0, n)] == ms0[first_index(ms0, n)]);
                    }
                }
            }
            Ok(())
        }
    }

    /// Translates a virtual path to the real path it denotes. The first
    /// segment selects a mount; the rest resolves lexically under that
    /// mount's root, and any path whose resolution would leave the root is
    /// rejected with `PathEscapesMount` — `..` never crosses the mount
    /// boundary.
    pub fn virtual_to_real(&self, vp: &VirtualPath) -> (r: Result<RealPath, PError>)
        requires
            self.wf(),
        ensures
            match r {
                Ok(rp) => self.v2r(vp@) == Ok::<Seq<Seq<char>>, PError>(rp@),
                Err(e) => self.v2r(vp@) == Err::<Seq<Seq<char>>, PError>(e),
            },
    {
        let nseg = vp.segments.len();
        if nseg == 0 {
            proof {
                assert(vp@.len() == 0);
                assert(self.v2r(vp@) == Err::<Seq<Seq<char>>, PError>(PError::MountNotFound));
            }
            return Err(PError::MountNotFound);
        }
        let name: &String = &vp.segments[0];
        proof {
            assert(vp@[0] == name@);
        }
        let nm = self.mounts.len();
        let mut m: usize = 0;
        let mut found = false;
        let mut at: usize = 0;
        while m < nm
            invariant
                nm == self.mounts@.len(),
                m <= nm,
                !found ==> forall|j: int| 0 <= j < m ==> self.mounts@[j].name@ != name@,
                found ==> at < m && self.mounts@[at as int].name@ == name@ && (forall|j: int|
                    0 <= j < at ==> self.mounts@[j].name@ != name@),
            decreases nm - m,
        {
            if !found && self.mounts[m].name == *name {
                found = true;
                at = m;
            }
            m += 1;
        }
        if !found {
            proof {
                lemma_first_index(self.mounts@, name@);
                assert(first_index(self.mounts@, name@) == -1);
                assert(!self.has_mount(vp@[0]));
                assert(self.v2r(vp@) == Err::<Seq<Seq<char>>, PError>(PError::MountNotFound));
            }
            return Err(PError::MountNotFound);
        }
        proof {
            lemma_first_index_at(self.mounts@, name@, at as int);
        }
        let mut rel: Vec<String> = Vec::new();
        let mut i: usize = 1;
        while i < nseg
            invariant
                1 <= i <= nseg,
                nseg == vp.segments@.len(),
                vp@.len() == nseg,
                self.has_mount(vp@[0]),
                resolve_suffix(vp@.subrange(1, i as int)) == Some(views_of(rel@)),
            decreases nseg - i,
        {
            let seg = &vp.segments[i];
            let ghost rel0: Seq<Seq<char>> = views_of(rel@);
            proof {
                assert(vp@[i as int] == seg@);
                assert(vp@.subrange(1, i as int + 1).drop_last() =~= vp@.subrange(1, i as int));
                assert(vp@.subrange(1, i as int + 1).last() == vp@[i as int]);
            }
            if seg_is_dot(seg) {
            } else if seg_is_dotdot(seg) {
                if rel.len() == 0 {
                    proof {
                        assert(rel0.len() == 0);
                        assert(resolve_suffix(vp@.subrange(1, i as int + 1))
                            == None::<Seq<Seq<char>>>);
                        let suffix = vp@.drop_first();
                        assert(suffix.subrange(0, i as int) =~= vp@.subrange(1, i as int + 1));
                        lemma_resolve_none_extends(suffix, i as int);
                    }
                    return Err(PError::PathEscapesMount);
                }
                rel.pop();
                proof {
                    assert(views_of(rel@) =~= rel0.drop_last());
                }
            } else {
                rel.push(seg.clone());
                proof {
                    assert(views_of(rel@) =~= rel0.push(seg@));
                }
            }
            i += 1;
        }
        proof {
            assert(vp@.subrange(1, nseg as int) =~= vp@.drop_first());
        }
        let root = &self.mounts[at].real_root;
        let rl = root.segments.len();
        let mut out: Vec<String> = Vec::new();
        proof {
            assert(views_of(out@) =~= root@.subrange(0, 0));
        }
        let mut k: usize = 0;
        while k < rl
            invariant
                k <= rl,
                rl == root.segments@.len(),
                root == &self.mounts@[at as int].real_root,
                views_of(out@) == root@.subrange(0, k as int),
            decreases rl - k,
        {
            let ghost out0: Seq<Seq<char>> = views_of(out@);
            out.push(root.segments[k].clone());
            proof {
                assert(views_of(out@) =~= out0.push(root@[k as int]));
                assert(root@.subrange(0, k as int + 1) =~= root@.subrange(0, k as int).push(
                    root@[k as int],
                ));
            }
            k += 1;
        }
        let ghost outroot: Seq<Seq<char>> = views_of(out@);
        let ghost relv: Seq<Seq<char>> = views_of(rel@);
        let mut rel2 = rel;
        out.append(&mut rel2);
        proof {
            assert(outroot =~= root@);
            assert(views_of(out@) =~= outroot + relv);
            assert(self.root_of(name@) == root@);
            assert(resolve_suffix(vp@.drop_first()) == Some(relv));
            assert(self.v2r(vp@) == Ok::<Seq<Seq<char>>, PError>(views_of(out@)));
        }
        Ok(RealPath { segments: out })
    }

    /// Translates a real path back to virtual form: the registered mount
    /// whose root is the longest prefix of the path gives the leading
    /// segment, and the remaining suffix is kept. A path under no mount is
    /// rejected with `PathNotMounted`.
    pub fn real_to_virtual(&self, rp: &RealPath) -> (r: Result<VirtualPath, PError>)
        ensures
            match r {
                Ok(vp) => self.r2v(rp@) == Ok::<Seq<Seq<char>>, PError>(vp@),
                Err(e) => self.r2v(rp@) == Err::<Seq<Seq<char>>, PError>(e),
            },
    {
        let nm = self.mounts.len();
        let mut m: usize = 0;
        let mut have = false;
        let mut best: usize = 0;
        while m < nm
            invariant
                nm == self.mounts@.len(),
                m <= nm,
                (if have {
                    best as int
                } else {
                    -1
                }) == best_in(self.mounts@.subrange(0, m as int), rp@),
                have ==> best < m,
            decreases nm - m,
        {
            proof {
                assert(self.mounts@.subrange(0, m as int + 1).drop_last() =~= self.mounts@.subrange(
                    0,
                    m as int,
                ));
                assert(self.mounts@.subrange(0, m as int + 1)[m as int] == self.mounts@[m as int]);
                if have {
                    assert(self.mounts@.subrange(0, m as int + 1)[best as int]
                        == self.mounts@[best as int]);
                }
            }
            let pref = is_prefix_exec(&self.mounts[m].real_root.segments, &rp.segments);
            if pref && (!have || self.mounts[m].real_root.segments.len()
                > self.mounts[best].real_root.segments.len()) {
                best = m;
                have = true;
            }
            m += 1;
        }
        proof {
            assert(self.mounts@.subrange(0, nm as int) =~= self.mounts@);
        }
        if !have {
            return Err(PError::PathNotMounted);
        }
        let bm = &self.mounts[best];
        let mut segs: Vec<String> = Vec::new();
        segs.push(bm.name.clone());
        let rl = bm.real_root.segments.len();
        proof {
            lemma_best_in_props(self.mounts@, rp@);
            assert(is_prefix_of(bm.real_root@, rp@));
            assert(rl <= rp@.len());
            assert(views_of(segs@) =~= seq![bm.name@] + rp@.subrange(rl as int, rl as int));
        }
        let mut k: usize = rl;
        while k < rp.segments.len()
            invariant
                rl <= k <= rp.segments@.len(),
                rp@.len() == rp.segments@.len(),
                bm == &self.mounts@[best as int],
                views_of(segs@) == seq![bm.name@] + rp@.subrange(rl as int, k as int),
            decreases rp.segments@.len() - k,
        {
            let ghost segs0: Seq<Seq<char>> = views_of(segs@);
            segs.push(rp.segments[k].clone());
            proof {
                assert(views_of(segs@) =~= segs0.push(rp@[k as int]));
                assert(seq![bm.name@] + rp@.subrange(rl as int, k as int + 1) =~= (seq![bm.name@]
                    + rp@.subrange(rl as int, k as int)).push(rp@[k as int]));
            }
            k += 1;
        }
        proof {
            assert(rp@.subrange(rl as int, rp@.len() as int) =~= rp@.skip(rl as int));
        }
        Ok(VirtualPath { segments: segs })
    }
}

/// The round trip through one mount: for a registered mount and any clean
/// relative suffix (no `.` or `..` segments), translating
/// `name / suffix` forward yields `root / suffix`, and translating
/// `root / suffix` back yields `name / suffix`, provided mount roots are
/// mutually disjoint (no root a prefix of another).
pub proof fn lemma_mount_round_trip(vfs: Vfs, i: int, suffix: Seq<Seq<char>>)
    requires
        vfs.wf(),
        vfs.roots_disjoint(),
        0 <= i < vfs.mounts@.len(),
        forall|k: int| 0 <= k < suffix.len() ==> !is_dot(#[trigger] suffix[k]) && !is_dotdot(
            suffix[k],
        ),
    ensures
        vfs.v2r(seq![vfs.mounts@[i].name@] + suffix) == Ok::<Seq<Seq<char>>, PError>(
            vfs.mounts@[i].real_root@ + suffix,
        ),
        vfs.r2v(vfs.mounts@[i].real_root@ + suffix) == Ok::<Seq<Seq<char>>, PError>(
            seq![vfs.mounts@[i].name@] + suffix,
        ),
{
    let ms = vfs.mounts@;
    let name = ms[i].name@;
    let root = ms[i].real_root@;
    let vp = seq![name] + suffix;
    assert(vp[0] == name);
    assert forall|j: int| 0 <= j < i implies ms[j].name@ != name by {}
    lemma_first_index_at(ms, name, i);
    assert(vp.drop_first() =~= suffix);
    lemma_resolve_clean(suffix);
    let rp = root + suffix;
    assert(is_prefix_of(root, rp));
    assert forall|j: int| 0 <= j < ms.len() && j != i implies !(#[trigger] is_prefix_of(
        ms[j].real_root@,
        rp,
    )) by {
        let rj = ms[j].real_root@;
        if is_prefix_of(rj, rp) {
            if rj.len() <= root.len() {
                assert forall|k: int| 0 <= k < rj.len() implies rj[k] == root[k] by {
                    assert(rp[k] == root[k]);
                }
                assert(is_prefix_of(rj, root));
            } else {
                assert forall|k: int| 0 <= k < root.len() implies root[k] == rj[k] by {
                    assert(rp[k] == root[k]);
                }
                assert(is_prefix_of(root, rj));
            }
        }
    }
    lemma_best_only(ms, rp, i);
    assert(rp.skip(root.len() as int) =~= suffix);
}

/// Translation back from real paths is injective: two real paths that
/// translate to the same virtual path are the same path. Together with
/// the distinctness of the reachable files this keeps flattened entries
/// distinct as virtual paths too.
pub proof fn lemma_r2v_injective(vfs: Vfs, a: Seq<Seq<char>>, b: Seq<Seq<char>>)
    requires
        vfs.wf(),
        vfs.r2v(a) is Ok,
        vfs.r2v(a) == vfs.r2v(b),
    ensures
        a == b,
{
    let ms = vfs.mounts@;
    let ia = best_in(ms, a);
    let ib = best_in(ms, b);
    lemma_best_in_props(ms, a);
    lemma_best_in_props(ms, b);
    let la = ms[ia].real_root@.len() as int;
    let lb = ms[ib].real_root@.len() as int;
    let va = seq![ms[ia].name@] + a.skip(la);
    let vb = seq![ms[ib].name@] + b.skip(lb);
    assert(va == vb);
    assert(va[0] == ms[ia].name@);
    assert(vb[0] == ms[ib].name@);
    if ia < ib {
        assert(ms[ia].name@ != ms[ib].name@);
    } else if ib < ia {
        assert(ms[ib].name@ != ms[ia].name@);
    }
    assert(ia == ib);
    let root = ms[ia].real_root@;
    assert(va.drop_first() =~= a.skip(la));
    assert(vb.drop_first() =~= b.skip(la));
    assert(a.skip(la) == b.skip(la));
    assert(is_prefix_of(root, a));
    assert(is_prefix_of(root, b));
    assert(a.len() == la + a.skip(la).len());
    assert(b.len() == la + b.skip(la).len());
    assert forall|k: int| 0 <= k < a.len() implies a[k] == b[k] by {
        if k < la {
            assert(a[k] == root[k]);
            assert(b[k] == root[k]);
        } else {
            assert(a[k] == a.skip(la)[k - la]);
            assert(b[k] == b.skip(la)[k - la]);
        }
    }
    assert(a =~= b);
}

} // verus!
