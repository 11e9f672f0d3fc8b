//! `rbuild download <name> <dir>`: materialize a shared workspace locally.
//!
//! Registers `dir` as a code root under the given shared workspace name, and
//! runs one sync against an empty ancestor. Because the local tree is empty too,
//! the merge pulls the entire remote workspace down; after which `dir` is a
//! normal, two-way-synced code root.

use vstd::prelude::*;
use vstd::string::StringExecFns;

use crate::config::{registered, workspace_id, workspace_id_for_name, GlobalConfig};
use crate::merge::{
    content, decide, decided, law_first_sync_unions, local_after, remote_after, Decision, MergePlan,
    Tree,
};
use crate::proto::EntryView;
use crate::scan::Manifest;
use crate::text::{decimal, to_decimal, views};

verus! {

/// The logical stream that syncs run on.
pub const SYNC_STREAM: u32 = 1;

/// What a download's sync starts from.
#[derive(Debug)]
pub struct Download {
    /// The workspace to sync with.
    pub workspace_id: String,
    /// The ancestor to merge against: empty, whatever this machine may have
    /// recorded of the workspace before.
    pub ancestor: Manifest,
}

/// Registers the directory under the shared name, so future builds and syncs in
/// it address the same remote workspace, and says what the sync starts from.
pub fn run(config: &mut GlobalConfig, root: &str, name: &str) -> (start: Download)
    ensures
        start.workspace_id@ == workspace_id(name@),
        start.ancestor@ == Map::<Seq<char>, EntryView>::empty(),
        final(config).remote == old(config).remote,
        final(config).build == old(config).build,
        forall|k: int| #[trigger]
            registered(old(config).roots@, root@, k) ==> {
                &&& final(config).roots@.len() == old(config).roots@.len()
                &&& final(config).roots@[k].path == old(config).roots@[k].path
                &&& final(config).roots@[k].name@ == name@
                &&& forall|j: int|
                    0 <= j < old(config).roots@.len() && j != k
                        ==> #[trigger] final(config).roots@[j] == old(config).roots@[j]
            },
        (forall|k: int| !#[trigger] registered(old(config).roots@, root@, k)) ==> {
            let n = old(config).roots@.len() as int;
            &&& final(config).roots@.len() == n + 1
            &&& final(config).roots@.take(n) == old(config).roots@
            &&& final(config).roots@[n].path@ == root@
            &&& final(config).roots@[n].name@ == name@
        },
{
    config.add_root(root, name.to_owned());
    Download { workspace_id: workspace_id_for_name(name), ancestor: Manifest::new() }
}

/// A download fetches the whole workspace and takes nothing away: merged against
/// the ancestor that a download starts from, nothing is deleted on either side,
/// the remote keeps all its content, and every remote file arrives unless
/// another file stands in its place. Into an empty directory exactly the remote
/// tree comes down.
pub proof fn law_download_fetches_the_workspace(plan: MergePlan, local: Tree, remote: Tree)
    requires
        plan.reconciles(local, Map::empty(), remote),
    ensures
        plan.delete_local@.len() == 0,
        plan.delete_remote@.len() == 0,
        forall|p: Seq<char>|
            #![trigger remote.contains_key(p)]
            remote.contains_key(p) ==> {
                &&& content(remote_after(local, Map::empty(), remote), p) == content(remote, p)
                &&& content(local_after(local, Map::empty(), remote), p) == content(remote, p)
                    || views(plan.conflicts@).contains(p)
            },
        local == Map::<Seq<char>, EntryView>::empty() ==> local_after(local, Map::empty(), remote)
            == remote && plan.push@.len() == 0 && plan.conflicts@.len() == 0,
{
    let none = Map::<Seq<char>, EntryView>::empty();
    if plan.delete_local@.len() > 0 {
        let p = views(plan.delete_local@)[0];
        assert(views(plan.delete_local@).contains(p));
        assert(decided(local, none, remote, Decision::DeleteLocal)(p));
    }
    if plan.delete_remote@.len() > 0 {
        let p = views(plan.delete_remote@)[0];
        assert(views(plan.delete_remote@).contains(p));
        assert(decided(local, none, remote, Decision::DeleteRemote)(p));
    }
    assert forall|p: Seq<char>| #![trigger remote.contains_key(p)] remote.contains_key(p) implies {
        &&& content(remote_after(local, none, remote), p) == content(remote, p)
        &&& content(local_after(local, none, remote), p) == content(remote, p) || views(
            plan.conflicts@,
        ).contains(p)
    } by {
        law_first_sync_unions(local, remote, p);
        if decide(local, none, remote, p) == Decision::Conflict {
            assert(decided(local, none, remote, Decision::Conflict)(p));
        }
    }
    if local == none {
        assert(local_after(local, none, remote) =~= remote);
        if plan.push@.len() > 0 {
            let p = views(plan.push@)[0];
            assert(views(plan.push@).contains(p));
            assert(decided(local, none, remote, Decision::Push)(p));
        }
        if plan.conflicts@.len() > 0 {
            let p = views(plan.conflicts@)[0];
            assert(views(plan.conflicts@).contains(p));
            assert(decided(local, none, remote, Decision::Conflict)(p));
        }
    }
}

/// What is said before the download.
pub fn starting(name: &str, root: &str) -> (text: String)
    ensures
        text@ == "Downloading workspace '"@ + name@ + "' into "@ + root@ + " …"@,
{
    "Downloading workspace '".to_owned().concat(name).concat("' into ").concat(root).concat(" …")
}

/// What is said after it.
pub fn finished(pulled: usize, root: &str) -> (text: String)
    ensures
        text@ == "Downloaded "@ + decimal(pulled as nat) + " file(s) into "@ + root@ + "."@,
{
    "Downloaded ".to_owned().concat(to_decimal(pulled as u64).as_str()).concat(
        " file(s) into ",
    ).concat(root).concat(".")
}

} // verus!
