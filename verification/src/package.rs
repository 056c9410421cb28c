//! The resolved-package data model: everything the installer needs to know
//! about one selected package.
use vstd::prelude::*;

use crate::bytes::clone_bytes;
use crate::range::VersionRequirement;
use crate::version::Version;

verus! {

/// One dependency edge: a package name and the requirement written for it.
pub struct DepEntry {
    pub name: Vec<u8>,
    pub req: VersionRequirement,
}

/// One resolved package as selected from registry metadata or a workspace.
pub struct PackageInfo {
    pub name: Vec<u8>,
    pub version: Version,
    pub dependencies: Vec<DepEntry>,
    pub peer_dependencies: Vec<DepEntry>,
    pub optional_dependencies: Vec<DepEntry>,
    pub tarball_url: Vec<u8>,
    pub integrity: Option<Vec<u8>>,
    pub shasum: Option<Vec<u8>>,
    pub engines_node: Option<VersionRequirement>,
    pub os_constraints: Vec<Vec<u8>>,
    pub cpu_constraints: Vec<Vec<u8>>,
    pub preinstall: Option<Vec<u8>>,
    pub install_script: Option<Vec<u8>>,
    pub postinstall: Option<Vec<u8>>,
    pub bin_entries: Vec<(Vec<u8>, Vec<u8>)>,
    pub is_workspace: bool,
    pub workspace_path: Option<Vec<u8>>,
}

/// A package accepted into the graph: its metadata, its distance from the
/// root, and whether it was reached only through optional edges.
pub struct ResolvedPackage {
    pub info: PackageInfo,
    pub depth: usize,
    pub optional: bool,
}

/// Whether `name` appears among the package's regular, peer or optional
/// dependencies.
pub open spec fn info_has_dep(info: PackageInfo, name: Seq<u8>) -> bool {
    (exists|i: int|
        0 <= i < info.dependencies@.len() && (#[trigger] info.dependencies@[i]).name@ == name)
        || (exists|i: int|
        0 <= i < info.peer_dependencies@.len() && (#[trigger] info.peer_dependencies@[i]).name@
            == name) || (exists|i: int|
        0 <= i < info.optional_dependencies@.len()
            && (#[trigger] info.optional_dependencies@[i]).name@ == name)
}

impl PackageInfo {
    /// A minimal package record; the builders below fill in the rest.
    pub fn bare(name: Vec<u8>, version: Version) -> (r: PackageInfo)
        ensures
            r.name == name,
            r.version == version,
            r.dependencies@.len() == 0,
            r.peer_dependencies@.len() == 0,
            r.optional_dependencies@.len() == 0,
            r.tarball_url@.len() == 0,
            r.integrity is None,
            r.shasum is None,
            r.engines_node is None,
            r.os_constraints@.len() == 0,
            r.cpu_constraints@.len() == 0,
            r.preinstall is None,
            r.install_script is None,
            r.postinstall is None,
            r.bin_entries@.len() == 0,
            !r.is_workspace,
            r.workspace_path is None,
    {
        PackageInfo {
            name,
            version,
            dependencies: Vec::new(),
            peer_dependencies: Vec::new(),
            optional_dependencies: Vec::new(),
            tarball_url: Vec::new(),
            integrity: None,
            shasum: None,
            engines_node: None,
            os_constraints: Vec::new(),
            cpu_constraints: Vec::new(),
            preinstall: None,
            install_script: None,
            postinstall: None,
            bin_entries: Vec::new(),
            is_workspace: false,
            workspace_path: None,
        }
    }
}

impl DepEntry {
    pub fn duplicate(&self) -> (r: DepEntry)
        ensures
            r.name@ == self.name@,
            r.req@ == self.req@,
    {
        DepEntry { name: clone_bytes(self.name.as_slice()), req: self.req.duplicate() }
    }
}

} // verus!
