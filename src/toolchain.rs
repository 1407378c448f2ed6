//! Installations found on the machine, and the choice among them.

use vstd::prelude::*;
use crate::requirement::{exact_requirement, exact_requirement_text, pinning_content, pinning_file_content};
use crate::version::{cmp_version, lemma_cmp_version_refl, lemma_cmp_version_trans, Version};

verus! {

/// A requirement that no installation meets.
#[derive(Debug, Clone)]
pub struct ToolchainNotInstalled {
    pub version: String,
}

/// One installation: the directory that holds its executable, and its version.
#[derive(Debug, Clone, PartialEq, Eq)]
pub struct InstalledToolchain {
    pub location: String,
    pub version: Version,
}

/// What could not be resolved to an installation.
#[derive(Debug)]
pub struct NotInstalledToolchain {
    pub version: Option<String>,
    pub location: Option<String>,
}

impl InstalledToolchain {
    /// The installation of highest version among `versions_found`, the
    /// versions listed under a directory with where each one lives; nothing
    /// when the list is empty. Of tied versions any one may come.
    pub fn from_path(versions_found: Vec<(Version, String)>) -> (r: Option<InstalledToolchain>)
        ensures
            r is None <==> versions_found@.len() == 0,
            r matches Some(t) ==> exists|k: int|
                0 <= k < versions_found@.len() && #[trigger] versions_found@[k] == (
                t.version,
                t.location,
            ),
            r matches Some(t) ==> forall|j: int|
                0 <= j < versions_found@.len() ==> cmp_version(
                    t.version@,
                    #[trigger] versions_found@[j].0@,
                ) >= 0,
    {
        if versions_found.len() == 0 {
            return None;
        }
        let mut best: usize = 0;
        let mut i: usize = 1;
        proof {
            lemma_cmp_version_refl(versions_found@[0].0@);
        }
        while i < versions_found.len()
            invariant
                1 <= i <= versions_found@.len(),
                best < i,
                forall|j: int|
                    0 <= j < i ==> cmp_version(
                        versions_found@[best as int].0@,
                        #[trigger] versions_found@[j].0@,
                    ) >= 0,
            decreases versions_found@.len() - i,
        {
            if versions_found[best].0.compare(&versions_found[i].0) < 0 {
                proof {
                    let b = versions_found@[best as int].0@;
                    let x = versions_found@[i as int].0@;
                    lemma_cmp_version_refl(x);
                    assert forall|j: int| 0 <= j < i + 1 implies cmp_version(
                        x,
                        #[trigger] versions_found@[j].0@,
                    ) >= 0 by {
                        if j < i && cmp_version(x, versions_found@[j].0@) < 0 {
                            lemma_cmp_version_trans(b, x, versions_found@[j].0@);
                        }
                    }
                }
                best = i;
            }
            i = i + 1;
        }
        let ghost found = versions_found@;
        let mut versions_found = versions_found;
        let (version, location) = versions_found.remove(best);
        assert(found[best as int] == (version, location));
        Some(InstalledToolchain { location, version })
    }

    /// The content of a pinning file that asks for exactly this version.
    pub fn save_version(&self) -> (r: String)
        ensures
            r@ == pinning_content(exact_requirement_text(self.version@)),
    {
        let version = exact_requirement(&self.version);
        pinning_file_content(version.as_str())
    }

    /// The content of a pinning file that asks for this installation's path.
    pub fn save_path(&self) -> (r: String)
        ensures
            r@ == pinning_content(self.location@),
    {
        pinning_file_content(self.location.as_str())
    }
}

} // verus!
