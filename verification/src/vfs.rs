//! Pluggable VFS layer: paths are routed to the filesystem mounted at the
//! longest matching path prefix, or to the default filesystem.
use vstd::prelude::*;

use crate::fs::{child_names_from, read_spec, resolve_spec, write_effect, FileSystem};
use crate::text::copy_range;

verus! {

#[derive(Clone, Copy, Debug, PartialEq, Eq, Structural)]
pub struct OpenFlags {
    pub write: bool,
}

pub type FileHandle = u32;

#[derive(Clone, Copy, Debug, PartialEq, Eq, Structural)]
pub enum VfsError {
    NotFound,
    NotDir,
    NoSpace,
    Unsupported,
}

/// The operations every mounted filesystem offers.
pub trait Vfs {
    /// The filesystem's own consistency condition.
    spec fn ready(&self) -> bool;

    fn read_dir(&self, path: &[u8]) -> Result<Vec<Vec<u8>>, VfsError>
        requires
            self.ready(),
    ;

    fn read_file(&self, path: &[u8]) -> Result<Vec<u8>, VfsError>
        requires
            self.ready(),
    ;

    fn write_file(&mut self, path: &[u8], data: &[u8]) -> (r: Result<(), VfsError>)
        requires
            old(self).ready(),
        ensures
            final(self).ready(),
    ;
}

/// The in-RAM filesystem behind the VFS interface.
pub struct RamFs {
    pub fs: FileSystem,
}

impl Vfs for RamFs {
    open spec fn ready(&self) -> bool {
        self.fs.wf()
    }

    /// The directory listing; a path that names nothing lists as empty.
    fn read_dir(&self, path: &[u8]) -> (r: Result<Vec<Vec<u8>>, VfsError>)
        ensures
            r matches Ok(v) && ({
                let names = match resolve_spec(self.fs.nodes(), path@) {
                    Some(i) => child_names_from(self.fs.nodes(), i as int, 0),
                    None => seq![],
                };
                &&& v@.len() == names.len()
                &&& forall|k: int| 0 <= k < v@.len() ==> #[trigger] v@[k]@ == names[k]
            }),
    {
        Ok(self.fs.list_dir(path))
    }

    /// The file contents, or `NotFound` when the path names no file.
    fn read_file(&self, path: &[u8]) -> (r: Result<Vec<u8>, VfsError>)
        ensures
            match read_spec(self.fs.nodes(), path@) {
                Some(d) => r matches Ok(v) && v@ == d,
                None => r == Err::<Vec<u8>, VfsError>(VfsError::NotFound),
            },
    {
        match self.fs.read_file(path) {
            Some(d) => Ok(d),
            None => Err(VfsError::NotFound),
        }
    }

    /// Writes the file; `NoSpace` when the path names no file.
    fn write_file(&mut self, path: &[u8], data: &[u8]) -> (r: Result<(), VfsError>)
        ensures
            write_effect(
                old(self).fs.nodes(),
                old(self).fs.count(),
                path@,
                data@,
                final(self).fs.nodes(),
                final(self).fs.count(),
                r is Ok,
            ),
            (r is Ok <==> (resolve_spec(
                old(self).fs.nodes(),
                path@,
            ) matches Some(i) && old(self).fs.nodes()[i as int].kind == crate::fs::FsNodeKind::File)),
    {
        if self.fs.write_file(path, data) {
            Ok(())
        } else {
            Err(VfsError::NoSpace)
        }
    }
}

/// A disk filesystem that is not implemented yet: every operation is unsupported.
pub struct DiskFs;

impl Vfs for DiskFs {
    open spec fn ready(&self) -> bool {
        true
    }

    fn read_dir(&self, path: &[u8]) -> (r: Result<Vec<Vec<u8>>, VfsError>)
        ensures
            r == Err::<Vec<Vec<u8>>, VfsError>(VfsError::Unsupported),
    {
        Err(VfsError::Unsupported)
    }

    fn read_file(&self, path: &[u8]) -> (r: Result<Vec<u8>, VfsError>)
        ensures
            r == Err::<Vec<u8>, VfsError>(VfsError::Unsupported),
    {
        Err(VfsError::Unsupported)
    }

    fn write_file(&mut self, path: &[u8], data: &[u8]) -> (r: Result<(), VfsError>)
        ensures
            r == Err::<(), VfsError>(VfsError::Unsupported),
    {
        Err(VfsError::Unsupported)
    }
}

/// Which filesystem a mount point (or the default) routes to.
#[derive(Clone, Copy, Debug, PartialEq, Eq, Structural)]
pub enum MountedFs {
    Ram,
    Disk,
}

pub struct MountPoint {
    pub path: Vec<u8>,
    pub fs: MountedFs,
}

pub struct VfsLayer {
    pub mounts: Vec<MountPoint>,
    pub default: MountedFs,
    pub ram: RamFs,
    pub disk: DiskFs,
}

/// The mount point among the first `n` whose path is a prefix of `path` and
/// strictly longer than every earlier match; `None` when no mount point with
/// a non-empty path matches.
pub open spec fn best_mount(mounts: Seq<MountPoint>, path: Seq<u8>, n: int) -> Option<int>
    decreases n,
{
    if n <= 0 {
        None
    } else {
        let prev = best_mount(mounts, path, n - 1);
        let m = mounts[n - 1];
        let best_len = match prev {
            Some(b) => mounts[b].path@.len() as int,
            None => 0,
        };
        if m.path@.len() <= path.len() && path.subrange(0, m.path@.len() as int) == m.path@
            && best_len < m.path@.len() {
            Some(n - 1)
        } else {
            prev
        }
    }
}

/// The filesystem a path is routed to.
pub open spec fn route(layer: &VfsLayer, path: Seq<u8>) -> MountedFs {
    match best_mount(layer.mounts@, path, layer.mounts@.len() as int) {
        Some(i) => layer.mounts@[i].fs,
        None => layer.default,
    }
}

/// Whether `p` starts with `prefix`.
fn starts_with(p: &[u8], prefix: &[u8]) -> (r: bool)
    ensures
        r == (prefix@.len() <= p@.len() && p@.subrange(0, prefix@.len() as int) == prefix@),
{
    if prefix.len() > p.len() {
        return false;
    }
    let mut i: usize = 0;
    while i < prefix.len()
        invariant
            prefix@.len() <= p@.len(),
            i <= prefix@.len(),
            forall|j: int| 0 <= j < i ==> p@[j] == prefix@[j],
        decreases prefix@.len() - i,
    {
        if p[i] != prefix[i] {
            assert(p@.subrange(0, prefix@.len() as int)[i as int] != prefix@[i as int]);
            return false;
        }
        i = i + 1;
    }
    assert(p@.subrange(0, prefix@.len() as int) =~= prefix@);
    true
}

impl VfsLayer {
    /// A layer with no mount points, routing everything to `default`.
    pub fn new(default: MountedFs, ram: RamFs) -> (r: Self)
        ensures
            r.mounts@.len() == 0,
            r.default == default,
            r.ram == ram,
    {
        Self { mounts: Vec::new(), default, ram, disk: DiskFs }
    }

    /// Adds a mount point at `path`.
    pub fn mount(&mut self, path: &[u8], fs: MountedFs)
        ensures
            final(self).mounts@.len() == old(self).mounts@.len() + 1,
            final(self).mounts@.subrange(0, old(self).mounts@.len() as int) == old(self).mounts@,
            final(self).mounts@.last().path@ == path@,
            final(self).mounts@.last().fs == fs,
            final(self).default == old(self).default,
            final(self).ram == old(self).ram,
    {
        let p = copy_range(path, 0, path.len());
        assert(path@.subrange(0, path@.len() as int) =~= path@);
        self.mounts.push(MountPoint { path: p, fs });
        assert(self.mounts@.subrange(0, old(self).mounts@.len() as int) =~= old(self).mounts@);
    }

    /// The filesystem that `path` is routed to (see `route`).
    fn resolve(&self, path: &[u8]) -> (r: MountedFs)
        ensures
            r == route(self, path@),
    {
        let mut best: Option<usize> = None;
        let mut i: usize = 0;
        while i < self.mounts.len()
            invariant
                i <= self.mounts@.len(),
                best matches Some(b) ==> best_mount(self.mounts@, path@, i as int) == Some(b as int),
                best is None ==> best_mount(self.mounts@, path@, i as int) is None,
                best matches Some(b) ==> b < i,
            decreases self.mounts@.len() - i,
        {
            let m = &self.mounts[i];
            let best_len = match best {
                Some(b) => self.mounts[b].path.len(),
                None => 0,
            };
            if starts_with(path, m.path.as_slice()) && best_len < m.path.len() {
                best = Some(i);
            }
            i = i + 1;
        }
        match best {
            Some(b) => self.mounts[b].fs,
            None => self.default,
        }
    }

    pub fn read_dir(&self, path: &[u8]) -> (r: Result<Vec<Vec<u8>>, VfsError>)
        requires
            self.ram.fs.wf(),
        ensures
            route(self, path@) == MountedFs::Disk ==> r == Err::<Vec<Vec<u8>>, VfsError>(
                VfsError::Unsupported,
            ),
            route(self, path@) == MountedFs::Ram ==> (r matches Ok(v) && ({
                let names = match resolve_spec(self.ram.fs.nodes(), path@) {
                    Some(i) => child_names_from(self.ram.fs.nodes(), i as int, 0),
                    None => seq![],
                };
                &&& v@.len() == names.len()
                &&& forall|k: int| 0 <= k < v@.len() ==> #[trigger] v@[k]@ == names[k]
            })),
    {
        match self.resolve(path) {
            MountedFs::Ram => self.ram.read_dir(path),
            MountedFs::Disk => self.disk.read_dir(path),
        }
    }

    pub fn read_file(&self, path: &[u8]) -> (r: Result<Vec<u8>, VfsError>)
        requires
            self.ram.fs.wf(),
        ensures
            route(self, path@) == MountedFs::Disk ==> r == Err::<Vec<u8>, VfsError>(
                VfsError::Unsupported,
            ),
            route(self, path@) == MountedFs::Ram ==> match read_spec(
                self.ram.fs.nodes(),
                path@,
            ) {
                Some(d) => r matches Ok(v) && v@ == d,
                None => r == Err::<Vec<u8>, VfsError>(VfsError::NotFound),
            },
    {
        match self.resolve(path) {
            MountedFs::Ram => self.ram.read_file(path),
            MountedFs::Disk => self.disk.read_file(path),
        }
    }

    pub fn write_file(&mut self, path: &[u8], data: &[u8]) -> (r: Result<(), VfsError>)
        requires
            old(self).ram.fs.wf(),
        ensures
            final(self).ram.fs.wf(),
            final(self).mounts@ == old(self).mounts@,
            final(self).default == old(self).default,
            route(old(self), path@) == MountedFs::Ram ==> write_effect(
                old(self).ram.fs.nodes(),
                old(self).ram.fs.count(),
                path@,
                data@,
                final(self).ram.fs.nodes(),
                final(self).ram.fs.count(),
                r is Ok,
            ),
            route(old(self), path@) == MountedFs::Disk ==> r == Err::<(), VfsError>(
                VfsError::Unsupported,
            ) && final(self).ram == old(self).ram,
            route(old(self), path@) == MountedFs::Ram ==> (r is Ok <==> (resolve_spec(old(self).ram.fs.nodes(), path@) matches Some(
                i,
            ) && old(self).ram.fs.nodes()[i as int].kind == crate::fs::FsNodeKind::File)),
    {
        match self.resolve(path) {
            MountedFs::Ram => self.ram.write_file(path, data),
            MountedFs::Disk => self.disk.write_file(path, data),
        }
    }
}

} // verus!
