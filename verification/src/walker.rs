//! The directory-walk coordination logic, as a state machine independent of
//! any I/O framework: a shared list of pending directories, an idle-worker
//! count, and structural completion detection — all workers asleep over an
//! empty list means the walk is done. Symlink rejection and image-extension
//! classification are decided here; reading directories happens outside.
use vstd::prelude::*;
use crate::paths::{basename, basename_of};

verus! {

/// Why a walk could not start.
#[derive(Clone, Copy, Debug, PartialEq, Eq, Structural)]
pub enum WalkError {
    RootUnreadable,
}

/// The work-sharing traversal state: directories waiting to be read, and
/// how many of the pool's workers sleep on an empty list.
pub struct WalkScheduler {
    pending: Vec<String>,
    workers: usize,
    idle: usize,
}

impl WalkScheduler {
    pub closed spec fn pending_view(self) -> Seq<Seq<char>> {
        self.pending@.map_values(|s: String| s@)
    }

    pub closed spec fn workers_spec(self) -> int {
        self.workers as int
    }

    pub closed spec fn idle_spec(self) -> int {
        self.idle as int
    }

    /// Never more sleepers than workers, and nobody is ever left asleep
    /// beside undone work: all idle means the list is empty.
    pub closed spec fn inv(self) -> bool {
        &&& 1 <= self.workers
        &&& 0 <= self.idle <= self.workers
        &&& self.idle == self.workers ==> self.pending@.len() == 0
    }

    /// All workers of the pool awake, the root directory pending.
    pub fn new(root: String, workers: usize) -> (r: WalkScheduler)
        requires
            workers >= 1,
        ensures
            r.inv(),
            r.pending_view() == seq![root@],
            r.workers_spec() == workers,
            r.idle_spec() == 0,
    {
        let mut pending: Vec<String> = Vec::new();
        pending.push(root);
        let r = WalkScheduler { pending, workers, idle: 0 };
        proof {
            assert(r.pending_view() =~= seq![root@]);
        }
        r
    }

    /// An awake worker asks for a directory: it gets the most recently
    /// shared one, or joins the sleepers when nothing is pending.
    pub fn take_work(&mut self) -> (r: Option<String>)
        requires
            old(self).inv(),
            old(self).idle_spec() < old(self).workers_spec(),
        ensures
            final(self).inv(),
            final(self).workers_spec() == old(self).workers_spec(),
            match r {
                Some(d) => {
                    &&& old(self).pending_view().len() > 0
                    &&& d@ == old(self).pending_view().last()
                    &&& final(self).pending_view() == old(self).pending_view().drop_last()
                    &&& final(self).idle_spec() == old(self).idle_spec()
                },
                None => {
                    &&& old(self).pending_view().len() == 0
                    &&& final(self).pending_view() == old(self).pending_view()
                    &&& final(self).idle_spec() == old(self).idle_spec() + 1
                },
            },
    {
        match self.pending.pop() {
            Some(d) => {
                proof {
                    assert(self.pending_view() =~= old(self).pending_view().drop_last());
                }
                Some(d)
            },
            None => {
                self.idle = self.idle + 1;
                None
            },
        }
    }

    /// A sleeping worker is woken by a notification and re-checks the list
    /// before going back to work.
    pub fn wake(&mut self)
        requires
            old(self).inv(),
            old(self).idle_spec() >= 1,
        ensures
            final(self).inv(),
            final(self).workers_spec() == old(self).workers_spec(),
            final(self).pending_view() == old(self).pending_view(),
            final(self).idle_spec() == old(self).idle_spec() - 1,
    {
        self.idle = self.idle - 1;
    }

    /// An active worker shares a subdirectory it found — unless the entry
    /// is a symlink, which is never followed.
    pub fn add_dir(&mut self, path: String, is_symlink: bool)
        requires
            old(self).inv(),
            old(self).idle_spec() < old(self).workers_spec(),
        ensures
            final(self).inv(),
            final(self).workers_spec() == old(self).workers_spec(),
            final(self).idle_spec() == old(self).idle_spec(),
            final(self).pending_view() == if is_symlink {
                old(self).pending_view()
            } else {
                old(self).pending_view().push(path@)
            },
    {
        if is_symlink {
            return;
        }
        self.pending.push(path);
        proof {
            assert(self.pending_view() =~= old(self).pending_view().push(path@));
        }
    }

    /// How many workers currently sleep on the empty list.
    pub fn sleepers(&self) -> (r: usize)
        ensures
            r == self.idle_spec(),
    {
        self.idle
    }

    /// The structural termination signal: every worker of the pool sleeps
    /// on an empty list, so no work exists and none can appear.
    pub fn all_idle(&self) -> (r: bool)
        requires
            self.inv(),
        ensures
            r == (self.idle_spec() == self.workers_spec()),
            r ==> self.pending_view().len() == 0,
    {
        self.idle == self.workers
    }
}

/// A path is rejected as a symlink when the direct probe says so, when the
/// metadata probe failed, or when the metadata reports a symlink — a racing
/// filesystem can make the first probe lie, so both are consulted.
pub open spec fn symlink_verdict(direct_probe: bool, metadata_probe: Option<bool>) -> bool {
    direct_probe || match metadata_probe {
        None => true,
        Some(m) => m,
    }
}

/// The extension of a path: what follows the last `.` of its basename,
/// provided that dot is neither its first character nor absent.
pub open spec fn extension_of(p: Seq<char>) -> Option<Seq<char>> {
    let b = basename_of(p);
    if exists|k: int| ext_dot_at(b, k) {
        let k = choose|k: int| ext_dot_at(b, k);
        Some(b.subrange(k + 1, b.len() as int))
    } else {
        None
    }
}

/// `k` is the last dot of `b`, and not in leading position.
pub open spec fn ext_dot_at(b: Seq<char>, k: int) -> bool {
    &&& 0 < k < b.len()
    &&& b[k] == '.'
    &&& forall|j: int| k < j < b.len() ==> b[j] != '.'
}

pub proof fn lemma_ext_dot_unique(b: Seq<char>, k1: int, k2: int)
    requires
        ext_dot_at(b, k1),
        ext_dot_at(b, k2),
    ensures
        k1 == k2,
{
}

/// The walker's image test: the basename carries a `jpg`, `jpeg` or `png`
/// extension.
pub open spec fn is_image_path(p: Seq<char>) -> bool {
    match extension_of(p) {
        Some(e) => e == "jpg"@ || e == "jpeg"@ || e == "png"@,
        None => false,
    }
}

/// The walker itself holds the list of directories still to read; the pool
/// around it is built outside.
pub struct DirWalker {
    pub dirs: Vec<String>,
}

impl DirWalker {
    /// A walk over `path`: the root is the one pending directory.
    pub fn new(path: &str) -> (r: Result<DirWalker, WalkError>)
        ensures
            r.is_ok(),
            r.unwrap().dirs@.map_values(|s: String| s@) == seq![path@],
    {
        let mut dirs: Vec<String> = Vec::new();
        dirs.push(path.to_owned());
        let r = DirWalker { dirs };
        proof {
            assert(r.dirs@.map_values(|s: String| s@) =~= seq![path@]);
        }
        Ok(r)
    }

    /// Whether the decision logic rejects a path as a symlink, from the two
    /// filesystem probes.
    pub fn is_symlink(direct_probe: bool, metadata_probe: Option<bool>) -> (r: bool)
        ensures
            r == symlink_verdict(direct_probe, metadata_probe),
    {
        if direct_probe {
            return true;
        }
        match metadata_probe {
            None => true,
            Some(m) => m,
        }
    }

    /// Whether the path names an image file, by extension.
    pub fn is_image(path: &str) -> (r: bool)
        ensures
            r == is_image_path(path@),
    {
        let b = basename(path);
        let bs = b.as_str();
        let n = bs.unicode_len();
        let mut k = n;
        while k > 0 && bs.get_char(k - 1) != '.'
            invariant
                0 <= k <= n,
                n == b@.len(),
                bs@ == b@,
                forall|j: int| k <= j < n ==> b@[j] != '.',
            decreases k,
        {
            k = k - 1;
        }
        if k <= 1 {
            proof {
                if k == 1 {
                    assert(b@[0] == '.');
                }
                assert forall|kk: int| !ext_dot_at(b@, kk) by {
                    if 0 < kk < b@.len() && b@[kk] == '.' {
                        assert(kk < k);
                    }
                }
                assert(extension_of(path@).is_none());
            }
            return false;
        }
        proof {
            assert(b@[k - 1] == '.');
            assert(ext_dot_at(b@, k - 1));
            lemma_ext_dot_unique(b@, k - 1, choose|kk: int| ext_dot_at(b@, kk));
        }
        let ext = bs.substring_char(k, n);
        let e = ext.to_owned();
        proof {
            assert(e@ == b@.subrange(k as int, n as int));
        }
        let jpg: String = "jpg".to_owned();
        let jpeg: String = "jpeg".to_owned();
        let png: String = "png".to_owned();
        e == jpg || e == jpeg || e == png
    }
}

} // verus!
