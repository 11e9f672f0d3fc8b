//! Client-side sync: three-way merge over a bidirectional protocol.
//!
//! The client sends its manifest, receives the daemon's, and merges both
//! against the ancestor snapshot from the last sync. It then pushes locally
//! changed files, pulls remotely changed ones, applies deletions on both
//! sides, and writes conflicts as sidecars (never overwriting). Small files go
//! whole (zstd); large files use a rolling-hash delta.

use vstd::prelude::*;
use vstd::string::StringExecFns;

use crate::chunk::{
    as_signature, base_offset, compress, decompress, delta_literals, delta_ops, file_signature,
    law_delta_reconstructs, make_delta, no_digest_collision, signed_len, zstd_decoded, zstd_encoded,
    ChunkRef, CodecError, COMPRESSION_LEVEL,
};
use crate::client::ancestor::{agreed, next_ancestor};
use crate::daemon::sync::{
    received, rebuilt, unpacks, FileWrite, IncomingView, PendingDelta, SyncError,
};
use crate::merge::{decide, plan, Decision, MergePlan, Tree};
use crate::path::{extend, extended, inside};
use crate::proto::{DeltaOpKind, Message};
use crate::scan::{keyed, lists, Manifest};
use crate::text::{copy_all, has_prefix, holds, views};

verus! {

/// Files at or below this size are compressed and sent in one data frame.
/// Larger files are sent in raw chunks so memory stays bounded.
pub const WHOLE_FILE_LIMIT: u64 = 4 * 1024 * 1024;

/// How much of a large file is read and sent at a time.
pub const RAW_CHUNK: usize = 1024 * 1024;

/// Threshold above which a rolling-hash delta against the daemon's existing
/// copy is attempted instead of resending the whole file. Below it the
/// round-trip to fetch a signature costs more than just sending the
/// (compressed) bytes.
pub const DELTA_THRESHOLD: u64 = 1024 * 1024;

#[derive(Debug, Clone, Copy, PartialEq, Eq, Structural)]
pub struct SyncStats {
    /// Files pushed to the remote.
    pub sent: usize,
    /// Files pulled from the remote.
    pub pulled: usize,
    /// Files deleted (either side).
    pub deleted: usize,
    /// Conflicts written as sidecars.
    pub conflicts: usize,
    /// Files the daemon reported applying.
    pub applied: u64,
}

/// Why a sync round was given up.
#[derive(Debug)]
pub enum RoundError {
    /// The daemon reported an error.
    Daemon(String),
    /// The daemon sent something else than its manifest.
    ExpectedRemoteManifest(Message),
    /// The daemon sent something else than a chunk signature.
    ExpectedDeltaSignature(Message),
    /// The daemon sent something that has no place among pulled files.
    UnexpectedDuringPull(Message),
    /// A payload could not be packed or unpacked.
    Codec(CodecError),
    /// The daemon's signature describes a file of more than 2^64 bytes.
    SignatureTooLong,
}

/// The message that opens a round on a stream.
pub fn opening(stream: u32, workspace: &str) -> (message: Message)
    ensures
        message matches Message::OpenSync { stream: s, workspace: w } && s == stream && w@
            == workspace@,
{
    Message::OpenSync { stream, workspace: workspace.to_owned() }
}

/// The message that announces the local manifest.
pub fn announcement(local: &Manifest) -> (message: Message)
    ensures
        message matches Message::SyncManifest { entries } && {
            &&& lists(local.paths(), |p: Seq<char>| local@.contains_key(p))
            &&& entries@.len() == local.paths().len()
            &&& forall|i: int|
                0 <= i < entries@.len() ==> #[trigger] entries@[i]@ == local@[local.paths()[i]]
        },
{
    Message::SyncManifest { entries: local.values() }
}

/// A message from the daemon, unless it reports an error.
pub fn next_message(msg: Message) -> (out: Result<Message, RoundError>)
    ensures
        match msg {
            Message::Error { message } => out == Err::<Message, RoundError>(
                RoundError::Daemon(message),
            ),
            _ => out == Ok::<Message, RoundError>(msg),
        },
{
    match msg {
        Message::Error { message } => Err(RoundError::Daemon(message)),
        other => Ok(other),
    }
}

/// The daemon's manifest, from its reply to the local one.
pub fn remote_manifest(reply: Message) -> (remote: Result<Manifest, RoundError>)
    ensures
        match reply {
            Message::RemoteManifest { entries } => remote matches Ok(m) && m@ == keyed(entries@),
            Message::Error { message } => remote matches Err(RoundError::Daemon(m)) && m == message,
            other => remote matches Err(RoundError::ExpectedRemoteManifest(m)) && m == other,
        },
{
    match next_message(reply) {
        Ok(Message::RemoteManifest { entries }) => Ok(Manifest::from_entries(entries.as_slice())),
        Ok(other) => Err(RoundError::ExpectedRemoteManifest(other)),
        Err(e) => Err(e),
    }
}

/// A sync round once both manifests are known.
#[derive(Debug)]
pub struct Round {
    pub local: Manifest,
    pub remote: Manifest,
    pub plan: MergePlan,
}

/// The files asked back from the daemon: those changed remotely, and the
/// remote copy of each conflict (saved as a sidecar so the user can reconcile
/// by hand).
pub open spec fn asked_back(plan: MergePlan) -> Seq<Seq<char>> {
    views(plan.pull@) + views(plan.conflicts@)
}

impl Round {
    /// Merges the two trees against the ancestor snapshot.
    pub fn new(local: Manifest, ancestor: &Manifest, remote: Manifest) -> (round: Round)
        ensures
            round.local == local,
            round.remote == remote,
            round.plan.reconciles(local@, ancestor@, remote@),
    {
        let plan = plan(&local, ancestor, &remote);
        Round { local, remote, plan }
    }

    /// The files to ask back.
    pub fn pulls(&self) -> (files: Vec<String>)
        ensures
            views(files@) == asked_back(self.plan),
            files@.len() == self.plan.pull@.len() + self.plan.conflicts@.len(),
            forall|i: int|
                0 <= i < self.plan.pull@.len() ==> (#[trigger] files@[i])@ == self.plan.pull@[i]@,
            forall|i: int|
                0 <= i < self.plan.conflicts@.len() ==> (
                #[trigger] files@[self.plan.pull@.len() + i])@ == self.plan.conflicts@[i]@,
    {
        let mut files = copy_all(self.plan.pull.as_slice());
        let mut i: usize = 0;
        let ghost all = views(self.plan.conflicts@);
        assert(views(files@) =~= asked_back(self.plan).take(views(self.plan.pull@).len() as int));
        while i < self.plan.conflicts.len()
            invariant
                i <= self.plan.conflicts@.len(),
                all == views(self.plan.conflicts@),
                views(files@) =~= views(self.plan.pull@) + all.take(i as int),
            decreases self.plan.conflicts@.len() - i,
        {
            let ghost before = files@;
            files.push(self.plan.conflicts[i].clone());
            assert(views(files@) =~= views(before).push(all[i as int]));
            i = i + 1;
        }
        assert(all.take(all.len() as int) =~= all);
        proof {
            let shown = views(files@);
            assert(shown.len() == files@.len());
            assert forall|i: int| 0 <= i < self.plan.pull@.len() implies (#[trigger] files@[i])@
                == self.plan.pull@[i]@ by {
                assert(shown[i] == views(self.plan.pull@)[i]);
            }
            assert forall|i: int| 0 <= i < self.plan.conflicts@.len() implies (
            #[trigger] files@[self.plan.pull@.len() + i])@ == self.plan.conflicts@[i]@ by {
                assert(shown[self.plan.pull@.len() + i] == all[i]);
            }
        }
        files
    }

    /// The new ancestor: the state both sides now agree on.
    pub fn next_ancestor(&self) -> (next: Manifest)
        ensures
            next@ == agreed(
                self.local@,
                self.remote@,
                views(self.plan.pull@),
                views(self.plan.delete_local@),
                views(self.plan.conflicts@),
            ),
    {
        next_ancestor(
            &self.local,
            &self.remote,
            self.plan.pull.as_slice(),
            self.plan.delete_local.as_slice(),
            self.plan.conflicts.as_slice(),
        )
    }

    /// What the round did, given how many files the daemon reports to have
    /// written.
    pub fn stats(&self, applied: u64) -> (stats: SyncStats)
        requires
            self.plan.delete_local@.len() + self.plan.delete_remote@.len() <= usize::MAX,
        ensures
            stats.sent == self.plan.push@.len(),
            stats.pulled == self.plan.pull@.len(),
            stats.deleted == self.plan.delete_local@.len() + self.plan.delete_remote@.len(),
            stats.conflicts == self.plan.conflicts@.len(),
            stats.applied == applied,
    {
        SyncStats {
            sent: self.plan.push.len(),
            pulled: self.plan.pull.len(),
            deleted: self.plan.delete_local.len() + self.plan.delete_remote.len(),
            conflicts: self.plan.conflicts.len(),
            applied,
        }
    }
}

/// What a round does between the two manifests and the pulled files.
#[derive(Debug)]
pub enum RoundStep {
    /// Push the file at this relative path.
    Push(String),
    /// Send a message.
    Send(Message),
    /// Delete the local file at this path.
    Delete(String),
}

/// The steps of a round: what is pushed, the two requests where there is
/// anything to ask, the end of the client's part, and what is deleted here.
pub open spec fn round_steps(plan: MergePlan, root: Seq<char>, steps: Seq<RoundStep>) -> bool {
    let pushes = plan.push@.len() as int;
    let deletes = plan.delete_remote@.len() > 0;
    let pulls = asked_back(plan).len() > 0;
    let d = pushes + if deletes {
        1int
    } else {
        0
    };
    let p = d + if pulls {
        1int
    } else {
        0
    };
    &&& steps.len() == p + 1 + plan.delete_local@.len()
    &&& forall|i: int| 0 <= i < pushes ==> #[trigger] steps[i] == RoundStep::Push(plan.push@[i])
    &&& deletes ==> (steps[pushes] matches RoundStep::Send(Message::RemoteDelete { files })
        && files@ == plan.delete_remote@)
    &&& pulls ==> (steps[d] matches RoundStep::Send(Message::PullRequest { files }) && views(files@)
        == asked_back(plan))
    &&& steps[p] == RoundStep::Send(Message::SyncComplete)
    &&& forall|i: int|
        p < i < steps.len() ==> (#[trigger] steps[i] matches RoundStep::Delete(path) && path@
            == extended(root, plan.delete_local@[i - p - 1]@))
}

impl Round {
    /// The steps of the round, in order: locally changed files are pushed, the
    /// daemon is told what to delete and what to send back, and local deletions
    /// are applied before any pulled file is written.
    pub fn steps(&self, root: &str) -> (steps: Vec<RoundStep>)
        ensures
            round_steps(self.plan, root@, steps@),
            ({
                let pushes = self.plan.push@.len() as int;
                let deletes = self.plan.delete_remote@.len() > 0;
                let pulls = asked_back(self.plan).len() > 0;
                let d = pushes + if deletes {
                    1int
                } else {
                    0
                };
                let p = d + if pulls {
                    1int
                } else {
                    0
                };
                &&& steps@.len() == p + 1 + self.plan.delete_local@.len()
                &&& forall|i: int|
                    0 <= i < pushes ==> #[trigger] steps@[i] == RoundStep::Push(self.plan.push@[i])
                &&& deletes ==> (steps@[pushes] matches RoundStep::Send(
                    Message::RemoteDelete { files },
                ) && files@ == self.plan.delete_remote@)
                &&& pulls ==> (steps@[d] matches RoundStep::Send(Message::PullRequest { files })
                    && views(files@) == asked_back(self.plan))
                &&& steps@[p] == RoundStep::Send(Message::SyncComplete)
                &&& forall|i: int|
                    0 <= i < self.plan.delete_local@.len() ==> (
                    #[trigger] steps@[p + 1 + i] matches RoundStep::Delete(path) && path@
                        == extended(root@, self.plan.delete_local@[i]@))
            }),
    {
        let mut steps: Vec<RoundStep> = Vec::new();
        let mut i: usize = 0;
        while i < self.plan.push.len()
            invariant
                i <= self.plan.push@.len(),
                steps@.len() == i,
                forall|j: int|
                    0 <= j < i ==> #[trigger] steps@[j] == RoundStep::Push(self.plan.push@[j]),
            decreases self.plan.push@.len() - i,
        {
            steps.push(RoundStep::Push(self.plan.push[i].clone()));
            i = i + 1;
        }
        if self.plan.delete_remote.len() > 0 {
            steps.push(
                RoundStep::Send(
                    Message::RemoteDelete { files: copy_all(self.plan.delete_remote.as_slice()) },
                ),
            );
        }
        let pull = self.pulls();
        assert(pull@.len() == views(pull@).len());
        if pull.len() > 0 {
            steps.push(RoundStep::Send(Message::PullRequest { files: pull }));
        }
        steps.push(RoundStep::Send(Message::SyncComplete));
        let ghost told = steps@;
        let mut k: usize = 0;
        while k < self.plan.delete_local.len()
            invariant
                k <= self.plan.delete_local@.len(),
                steps@.len() == told.len() + k,
                forall|j: int| 0 <= j < told.len() ==> #[trigger] steps@[j] == told[j],
                forall|j: int|
                    0 <= j < k ==> (
                    #[trigger] steps@[told.len() + j] matches RoundStep::Delete(path) && path@
                        == extended(root@, self.plan.delete_local@[j]@)),
            decreases self.plan.delete_local@.len() - k,
        {
            steps.push(RoundStep::Delete(extend(root, self.plan.delete_local[k].as_str())));
            k = k + 1;
        }
        proof {
            assert forall|i: int| told.len() <= i < steps@.len() implies (
            #[trigger] steps@[i] matches RoundStep::Delete(path) && path@ == extended(
                root@,
                self.plan.delete_local@[i - told.len()]@,
            )) by {
                assert(steps@[told.len() + (i - told.len())] is Delete);
            }
        }
        steps
    }
}

/// The name of this machine: what the environment says, else a stand-in.
pub fn hostname(host: Option<String>, computer: Option<String>) -> (name: String)
    ensures
        match (host, computer) {
            (Some(h), _) => name == h,
            (None, Some(c)) => name == c,
            (None, None) => name@ == "remote"@,
        },
{
    match host {
        Some(h) => h,
        None => match computer {
            Some(c) => c,
            None => "remote".to_owned(),
        },
    }
}

/// The place beside a file where the remote copy of a conflict goes.
pub open spec fn sidecar(path: Seq<char>, host: Seq<char>) -> Seq<char> {
    path + ".rbuild-conflict-"@ + host
}

/// A pulled file to be written.
#[derive(Debug)]
pub struct PullWrite {
    /// The path as the daemon sent it.
    pub path: String,
    /// The path below the root that it is written to.
    pub rel: String,
    /// Where that is.
    pub target: String,
    pub data: Vec<u8>,
    /// The mode to set, unless it is 0.
    pub mode: u32,
    /// Whether this is the remote copy of a conflict.
    pub conflict: bool,
}

/// A pulled file in transfer.
#[derive(Debug)]
pub struct IncomingFile {
    pub path: String,
    pub len: u64,
    pub mode: u32,
    pub compressed: bool,
    pub buf: Vec<u8>,
}

impl View for IncomingFile {
    type V = IncomingView;

    open spec fn view(&self) -> IncomingView {
        IncomingView {
            path: self.path@,
            len: self.len,
            mode: self.mode,
            compressed: self.compressed,
            buf: self.buf@,
        }
    }
}

/// What is written for a pulled file, given its content. The remote copy of a
/// conflict is written beside the local file, never over it, so no work is
/// lost; the user reconciles the two by hand.
pub open spec fn pull_write_of(
    inc: IncomingView,
    root: Seq<char>,
    conflicts: Seq<Seq<char>>,
    host: Seq<char>,
    data: Seq<u8>,
    w: PullWrite,
) -> bool {
    &&& w.path@ == inc.path
    &&& w.conflict == conflicts.contains(inc.path)
    &&& w.rel@ == if conflicts.contains(inc.path) {
        sidecar(inc.path, host)
    } else {
        inc.path
    }
    &&& w.target@ == extended(root, w.rel@)
    &&& w.data@ == data
    &&& w.mode == inc.mode
}

impl IncomingFile {
    /// Whether everything has arrived. Compressed payloads arrive in a single
    /// data frame; raw ones fill the length.
    pub fn complete(&self) -> (done: bool)
        ensures
            done == self@.complete(),
    {
        if self.compressed {
            true
        } else {
            self.buf.len() as u64 >= self.len
        }
    }

    /// The write for this file out of its unpacked content.
    pub fn write_unpacked(
        self,
        root: &str,
        conflicts: &[String],
        host: &str,
        unpacked: Result<Vec<u8>, CodecError>,
    ) -> (out: Result<PullWrite, RoundError>)
        ensures
            match unpacked {
                Ok(data) => out matches Ok(w) && pull_write_of(
                    self@,
                    root@,
                    views(conflicts@),
                    host@,
                    data@,
                    w,
                ),
                Err(e) => out == Err::<PullWrite, RoundError>(RoundError::Codec(e)),
            },
    {
        let data = match unpacked {
            Ok(d) => d,
            Err(e) => {
                return Err(RoundError::Codec(e));
            },
        };
        let conflict = holds(conflicts, self.path.as_str());
        let rel = if conflict {
            self.path.clone().concat(".rbuild-conflict-").concat(host)
        } else {
            self.path.clone()
        };
        let target = extend(root, rel.as_str());
        Ok(PullWrite { path: self.path, rel, target, data, mode: self.mode, conflict })
    }

    /// The write for this file once it is complete.
    pub fn write(self, root: &str, conflicts: &[String], host: &str) -> (out: Result<
        PullWrite,
        RoundError,
    >)
        ensures
            pull_outcome(self@, root@, views(conflicts@), host@, out),
    {
        let IncomingFile { path, len, mode, compressed, buf } = self;
        let data = if compressed {
            decompress(buf.as_slice())
        } else {
            Ok(buf)
        };
        let bare = IncomingFile { path, len, mode, compressed, buf: Vec::new() };
        bare.write_unpacked(root, conflicts, host, data)
    }
}

/// What comes of a pulled file that has arrived complete.
pub open spec fn pull_outcome(
    inc: IncomingView,
    root: Seq<char>,
    conflicts: Seq<Seq<char>>,
    host: Seq<char>,
    out: Result<PullWrite, RoundError>,
) -> bool {
    match out {
        Ok(w) => if inc.compressed {
            zstd_decoded(inc.buf) matches Some(data) && pull_write_of(
                inc,
                root,
                conflicts,
                host,
                data,
                w,
            )
        } else {
            pull_write_of(inc, root, conflicts, host, inc.buf, w)
        },
        Err(e) => inc.compressed && (e matches RoundError::Codec(c) && c is Decompress),
    }
}

/// Receives pulled files and conflict sidecars until the daemon acknowledges.
#[derive(Debug)]
pub struct Receiver {
    root: String,
    host: String,
    conflicts: Vec<String>,
    incoming: Option<IncomingFile>,
}

/// A receiver as contracts speak of it.
pub struct ReceiverView {
    pub root: Seq<char>,
    pub host: Seq<char>,
    pub conflicts: Seq<Seq<char>>,
    pub incoming: Option<IncomingView>,
}

impl View for Receiver {
    type V = ReceiverView;

    closed spec fn view(&self) -> ReceiverView {
        ReceiverView {
            root: self.root@,
            host: self.host@,
            conflicts: views(self.conflicts@),
            incoming: match self.incoming {
                Some(f) => Some(f@),
                None => None,
            },
        }
    }
}

impl Receiver {
    pub fn new(root: String, host: String, conflicts: Vec<String>) -> (receiver: Receiver)
        ensures
            receiver@ == (ReceiverView {
                root: root@,
                host: host@,
                conflicts: views(conflicts@),
                incoming: None,
            }),
    {
        Receiver { root, host, conflicts, incoming: None }
    }

    /// A data frame came in. Returns the write to carry out when a file is
    /// complete; bytes that no header announced are dropped.
    pub fn on_data(&mut self, bytes: &[u8]) -> (out: Result<Option<PullWrite>, RoundError>)
        ensures
            match old(self)@.incoming {
                None => out matches Ok(None) && final(self)@ == old(self)@,
                Some(i) => {
                    let inc = IncomingView { buf: i.buf + bytes@, ..i };
                    if !inc.complete() {
                        &&& out matches Ok(None)
                        &&& final(self)@ == (ReceiverView { incoming: Some(inc), ..old(self)@ })
                    } else {
                        &&& final(self)@ == (ReceiverView { incoming: None, ..old(self)@ })
                        &&& match out {
                            Ok(None) => false,
                            Ok(Some(w)) => pull_outcome(
                                inc,
                                old(self)@.root,
                                old(self)@.conflicts,
                                old(self)@.host,
                                Ok(w),
                            ),
                            Err(e) => pull_outcome(
                                inc,
                                old(self)@.root,
                                old(self)@.conflicts,
                                old(self)@.host,
                                Err(e),
                            ),
                        }
                    }
                },
            },
    {
        let mut incoming: Option<IncomingFile> = None;
        std::mem::swap(&mut self.incoming, &mut incoming);
        let mut f = match incoming {
            Some(f) => f,
            None => {
                return Ok(None);
            },
        };
        let ghost before = f.buf@;
        f.buf.extend_from_slice(bytes);
        assert(f.buf@ =~= before + bytes@);
        if f.complete() {
            match f.write(self.root.as_str(), self.conflicts.as_slice(), self.host.as_str()) {
                Ok(w) => Ok(Some(w)),
                Err(e) => Err(e),
            }
        } else {
            self.incoming = Some(f);
            Ok(None)
        }
    }

    /// A control message came in. Returns the daemon's count of written files
    /// once it acknowledges the round.
    pub fn on_message(&mut self, msg: Message) -> (out: Result<Option<u64>, RoundError>)
        ensures
            match msg {
                Message::FileHeader { path, len, mode, compressed } => {
                    &&& out matches Ok(None)
                    &&& final(self)@ == (ReceiverView {
                        incoming: Some(
                            IncomingView { path: path@, len, mode, compressed, buf: Seq::empty() },
                        ),
                        ..old(self)@
                    })
                },
                Message::SyncAck { applied, .. } => {
                    &&& out matches Ok(Some(n)) && n == applied
                    &&& final(self)@ == old(self)@
                },
                Message::Error { message } => {
                    &&& out matches Err(RoundError::Daemon(m)) && m == message
                    &&& final(self)@ == old(self)@
                },
                other => {
                    &&& out matches Err(RoundError::UnexpectedDuringPull(m)) && m == other
                    &&& final(self)@ == old(self)@
                },
            },
    {
        match msg {
            Message::FileHeader { path, len, mode, compressed } => {
                self.incoming = Some(
                    IncomingFile { path, len, mode, compressed, buf: Vec::new() },
                );
                Ok(None)
            },
            Message::SyncAck { applied, .. } => Ok(Some(applied)),
            Message::Error { message } => Err(RoundError::Daemon(message)),
            other => Err(RoundError::UnexpectedDuringPull(other)),
        }
    }
}

/// What goes out on a stream.
#[derive(Debug)]
pub enum Outgoing {
    Control(Message),
    Data(Vec<u8>),
}

/// How a push of one file begins.
#[derive(Debug)]
pub enum PushStart {
    /// Read the file and send it whole.
    Whole,
    /// Send this request and wait for the daemon's signature.
    AskSignature(Message),
    /// Send this header and then the file in pieces.
    Raw(Message),
}

/// How to push a file of this length.
pub fn push_start(rel: &str, len: u64, mode: u32) -> (start: PushStart)
    ensures
        len <= WHOLE_FILE_LIMIT <==> start is Whole,
        len <= 4194304 <==> start is Whole,
        len > WHOLE_FILE_LIMIT ==> (start matches PushStart::AskSignature(
            Message::DeltaRequest { path },
        ) && path@ == rel@),
{
    if len <= WHOLE_FILE_LIMIT {
        PushStart::Whole
    } else if len >= DELTA_THRESHOLD {
        PushStart::AskSignature(Message::DeltaRequest { path: rel.to_owned() })
    } else {
        PushStart::Raw(raw_header(rel, len, mode))
    }
}

/// The header of a file that follows in raw pieces.
pub fn raw_header(rel: &str, len: u64, mode: u32) -> (header: Message)
    ensures
        header matches Message::FileHeader { path, len: l, mode: m, compressed } && path@ == rel@
            && l == len && m == mode && !compressed,
{
    Message::FileHeader { path: rel.to_owned(), len, mode, compressed: false }
}

/// A file sent whole: its header, then its packed content in one data frame.
pub fn whole_frames(rel: &str, len: u64, mode: u32, packed: Result<Vec<u8>, CodecError>) -> (out:
    Result<(Message, Vec<u8>), RoundError>)
    ensures
        match packed {
            Ok(bytes) => out matches Ok((Message::FileHeader { path, len: l, mode: m, compressed }, sent))
                && path@ == rel@ && l == len && m == mode && compressed && sent == bytes,
            Err(e) => out == Err::<(Message, Vec<u8>), RoundError>(RoundError::Codec(e)),
        },
{
    match packed {
        Ok(bytes) => Ok(
            (Message::FileHeader { path: rel.to_owned(), len, mode, compressed: true }, bytes),
        ),
        Err(e) => Err(RoundError::Codec(e)),
    }
}

/// Sends a file whole.
pub fn push_whole(rel: &str, len: u64, mode: u32, data: &[u8]) -> (out: Result<
    (Message, Vec<u8>),
    RoundError,
>)
    ensures
        match out {
            Ok((Message::FileHeader { path, len: l, mode: m, compressed }, sent)) => {
                &&& path@ == rel@ && l == len && m == mode && compressed
                &&& sent@ == zstd_encoded(data@, COMPRESSION_LEVEL as int)
                &&& zstd_decoded(sent@) == Some(data@)
            },
            Ok(_) => false,
            Err(e) => e matches RoundError::Codec(c) && c is Compress,
        },
{
    whole_frames(rel, len, mode, compress(data))
}

/// How a push goes on once the daemon has sent its signature.
#[derive(Debug)]
pub enum PushNext {
    /// Read the file and send what [`push_delta`] makes of it.
    Delta(Vec<ChunkRef>),
    /// The daemon has no copy: send this header and then the file in pieces.
    Raw(Message),
}

/// Takes the daemon's reply to a delta request. If it has a copy only the
/// changed chunks are sent.
pub fn on_signature(rel: &str, len: u64, mode: u32, reply: Message) -> (next: Result<
    PushNext,
    RoundError,
>)
    ensures
        match reply {
            Message::DeltaSignature { chunks, .. } => if chunks@.len() > 0 {
                next matches Ok(PushNext::Delta(sig)) && sig == chunks
            } else {
                next matches Ok(PushNext::Raw(
                    Message::FileHeader { path, len: l, mode: m, compressed },
                )) && path@ == rel@ && l == len && m == mode && !compressed
            },
            Message::Error { message } => next matches Err(RoundError::Daemon(m)) && m == message,
            other => next matches Err(RoundError::ExpectedDeltaSignature(m)) && m == other,
        },
{
    match next_message(reply) {
        Ok(Message::DeltaSignature { chunks, .. }) => {
            if chunks.len() > 0 {
                Ok(PushNext::Delta(chunks))
            } else {
                Ok(PushNext::Raw(raw_header(rel, len, mode)))
            }
        },
        Ok(other) => Err(RoundError::ExpectedDeltaSignature(other)),
        Err(e) => Err(e),
    }
}

/// The frames of a delta: the instructions, the packed literal bytes if there
/// are any, and the end.
pub open spec fn delta_frames(
    rel: Seq<char>,
    len: u64,
    mode: u32,
    ops: Seq<DeltaOpKind>,
    packed: Option<Seq<u8>>,
    frames: Seq<Outgoing>,
) -> bool {
    &&& frames.len() == if packed is Some {
        3int
    } else {
        2
    }
    &&& frames[0] matches Outgoing::Control(
        Message::DeltaInstructions { path, len: l, mode: m, ops: o },
    ) && path@ == rel && l == len && m == mode && o@ == ops
    &&& packed matches Some(bytes) ==> (frames[1] matches Outgoing::Data(sent) && sent@ == bytes)
    &&& frames.last() matches Outgoing::Control(Message::DeltaEnd { path }) && path@ == rel
}

/// Puts the frames of a delta together.
pub fn frame_delta(
    rel: &str,
    len: u64,
    mode: u32,
    ops: Vec<DeltaOpKind>,
    packed: Option<Result<Vec<u8>, CodecError>>,
) -> (out: Result<Vec<Outgoing>, RoundError>)
    ensures
        match packed {
            None => out matches Ok(frames) && delta_frames(rel@, len, mode, ops@, None, frames@),
            Some(Ok(bytes)) => out matches Ok(frames) && delta_frames(
                rel@,
                len,
                mode,
                ops@,
                Some(bytes@),
                frames@,
            ),
            Some(Err(e)) => out == Err::<Vec<Outgoing>, RoundError>(RoundError::Codec(e)),
        },
{
    let mut frames: Vec<Outgoing> = Vec::new();
    frames.push(
        Outgoing::Control(Message::DeltaInstructions { path: rel.to_owned(), len, mode, ops }),
    );
    match packed {
        None => {},
        Some(Ok(bytes)) => {
            frames.push(Outgoing::Data(bytes));
        },
        Some(Err(e)) => {
            return Err(RoundError::Codec(e));
        },
    }
    frames.push(Outgoing::Control(Message::DeltaEnd { path: rel.to_owned() }));
    Ok(frames)
}

/// Sends the changed chunks of a file whose daemon copy has this signature.
pub fn push_delta(rel: &str, len: u64, mode: u32, data: &[u8], base_sig: &[ChunkRef]) -> (out:
    Result<Vec<Outgoing>, RoundError>)
    ensures
        ({
            let sig = as_signature(base_sig@);
            let literals = delta_literals(data@, sig);
            match out {
                Ok(frames) => {
                    &&& base_offset(sig, sig.len() as int) <= u64::MAX
                    &&& delta_frames(
                        rel@,
                        len,
                        mode,
                        delta_ops(data@, sig),
                        if literals.len() > 0 {
                            Some(zstd_encoded(literals, COMPRESSION_LEVEL as int))
                        } else {
                            None
                        },
                        frames@,
                    )
                    &&& literals.len() > 0 ==> {
                        let packed = zstd_encoded(literals, COMPRESSION_LEVEL as int);
                        packed.len() > 0 && zstd_decoded(packed) == Some(literals)
                    }
                },
                Err(RoundError::SignatureTooLong) => base_offset(sig, sig.len() as int) > u64::MAX,
                Err(e) => (e matches RoundError::Codec(c) && c is Compress) && literals.len() > 0,
            }
        }),
{
    assert(as_signature(base_sig@).len() == base_sig@.len());
    if signed_len(base_sig).is_none() {
        return Err(RoundError::SignatureTooLong);
    }
    let (ops, literals) = make_delta(data, base_sig);
    let packed = if literals.len() > 0 {
        Some(compress(literals.as_slice()))
    } else {
        None
    };
    frame_delta(rel, len, mode, ops, packed)
}

/// A file pushed whole arrives as it was: once the daemon has the header and
/// the data frame, it writes the client's bytes to the file's place in the
/// mirror. Unpacking may fail for want of memory.
pub proof fn law_whole_push_arrives(
    root: Seq<char>,
    rel: Seq<char>,
    len: u64,
    mode: u32,
    data: Seq<u8>,
    packed: Seq<u8>,
    out: Result<Option<FileWrite>, SyncError>,
)
    requires
        zstd_decoded(packed) == Some(data),
        received(
            IncomingView { path: rel, len, mode, compressed: true, buf: Seq::empty() + packed },
            root,
            out,
        ),
    ensures
        match out {
            Ok(None) => false,
            Ok(Some(w)) => inside(root, rel) == Some(w.target@) && w.data@ == data && w.mode
                == mode,
            Err(SyncError::Codec(_)) => true,
            Err(e) => inside(root, rel) is None,
        },
{
    assert(Seq::<u8>::empty() + packed =~= packed);
}

/// The bytes of several pieces, one after the other.
pub open spec fn pieced(pieces: Seq<Seq<u8>>) -> Seq<u8>
    decreases pieces.len(),
{
    if pieces.len() == 0 {
        Seq::empty()
    } else {
        pieced(pieces.drop_last()) + pieces.last()
    }
}

proof fn lemma_pieced_grows(pieces: Seq<Seq<u8>>, k: int)
    requires
        0 <= k <= pieces.len(),
        forall|i: int| 0 <= i < pieces.len() ==> (#[trigger] pieces[i]).len() > 0,
    ensures
        pieced(pieces.take(k)).len() + (pieces.len() - k) <= pieced(pieces).len(),
    decreases pieces.len(),
{
    if k == pieces.len() {
        assert(pieces.take(k) =~= pieces);
    } else {
        let init = pieces.drop_last();
        assert forall|i: int| 0 <= i < init.len() implies (#[trigger] init[i]).len() > 0 by {
            assert(pieces[i].len() > 0);
        }
        lemma_pieced_grows(init, k);
        assert(init.take(k) =~= pieces.take(k));
        assert(pieces[pieces.len() - 1].len() > 0);
    }
}

/// A file pushed in raw pieces arrives as it was, however it was cut: the
/// daemon waits through every piece but the last, and then writes the client's
/// bytes.
pub proof fn law_raw_push_arrives(
    root: Seq<char>,
    rel: Seq<char>,
    mode: u32,
    pieces: Seq<Seq<u8>>,
    k: int,
    out: Result<Option<FileWrite>, SyncError>,
)
    requires
        forall|i: int| 0 <= i < pieces.len() ==> (#[trigger] pieces[i]).len() > 0,
        pieced(pieces).len() <= u64::MAX,
        1 <= k <= pieces.len(),
        received(
            IncomingView {
                path: rel,
                len: pieced(pieces).len() as u64,
                mode,
                compressed: false,
                buf: pieced(pieces.take(k)),
            },
            root,
            out,
        ),
    ensures
        if k < pieces.len() {
            out matches Ok(None)
        } else {
            match out {
                Ok(None) => false,
                Ok(Some(w)) => inside(root, rel) == Some(w.target@) && w.data@ == pieced(pieces)
                    && w.mode == mode,
                Err(_) => inside(root, rel) is None,
            }
        },
{
    lemma_pieced_grows(pieces, k);
    assert(pieces.take(pieces.len() as int) =~= pieces);
}

/// A file pushed as a delta arrives as it was: from the frames that the client
/// made against the signature of the mirror's copy, the daemon rebuilds the
/// client's bytes. Unpacking may fail for want of memory. It rests on digests
/// telling the chunks of the two files apart.
pub proof fn law_delta_push_arrives(
    base: Seq<u8>,
    data: Seq<u8>,
    packed: Option<Seq<u8>>,
    pending: PendingDelta,
    out: Result<FileWrite, SyncError>,
)
    requires
        no_digest_collision(base, data),
        base.len() <= u64::MAX,
        pending.delta.len == data.len(),
        pending.delta.ops@ == delta_ops(data, file_signature(base)),
        match packed {
            Some(p) => p.len() > 0 && pending.delta.literals@ == p && zstd_decoded(p) == Some(
                delta_literals(data, file_signature(base)),
            ),
            None => pending.delta.literals@.len() == 0 && delta_literals(
                data,
                file_signature(base),
            ).len() == 0,
        },
        pending.rebuilds(base, out),
    ensures
        match out {
            Ok(w) => w.target == pending.target && w.data@ == data && w.mode == pending.delta.mode,
            Err(e) => e matches SyncError::Codec(c) && c is Decompress,
        },
{
    law_delta_reconstructs(base, data);
    let literals = delta_literals(data, file_signature(base));
    if !(out matches Err(SyncError::Codec(_))) {
        let lit = choose|lit: Seq<u8>|
            #![trigger pending.outcome(base, lit, out)]
            unpacks(pending.delta@, lit) && pending.outcome(base, lit, out);
        assert(lit =~= literals);
        assert(rebuilt(pending.delta@, base, lit) == Ok::<Seq<u8>, crate::chunk::DeltaError>(data));
    }
}

/// A pulled file arrives as it was: once the client has the header and the
/// data frame, it writes the mirror's bytes.
pub proof fn law_pull_arrives(
    root: Seq<char>,
    conflicts: Seq<Seq<char>>,
    host: Seq<char>,
    rel: Seq<char>,
    len: u64,
    mode: u32,
    data: Seq<u8>,
    packed: Seq<u8>,
    out: Result<PullWrite, RoundError>,
)
    requires
        zstd_decoded(packed) == Some(data),
        pull_outcome(
            IncomingView { path: rel, len, mode, compressed: true, buf: Seq::empty() + packed },
            root,
            conflicts,
            host,
            out,
        ),
    ensures
        match out {
            Ok(w) => w.data@ == data && w.mode == mode && w.target@ == extended(
                root,
                if conflicts.contains(rel) {
                    sidecar(rel, host)
                } else {
                    rel
                },
            ),
            Err(e) => e matches RoundError::Codec(c) && c is Decompress,
        },
{
    assert(Seq::<u8>::empty() + packed =~= packed);
}

/// A conflict never overwrites the local file: the remote copy goes to another
/// path, which begins with the file's own.
pub proof fn law_conflict_copy_is_beside(path: Seq<char>, host: Seq<char>)
    ensures
        sidecar(path, host) != path,
        has_prefix(sidecar(path, host), path),
{
    reveal_strlit(".rbuild-conflict-");
    assert(sidecar(path, host).len() > path.len());
    assert(sidecar(path, host).take(path.len() as int) =~= path);
}

proof fn lemma_views_contain(list: Seq<String>, path: Seq<char>)
    ensures
        views(list).contains(path) <==> exists|i: int|
            0 <= i < list.len() && (#[trigger] list[i])@ == path,
{
    if views(list).contains(path) {
        let k = views(list).index_of(path);
        assert(list[k]@ == path);
    }
    if exists|i: int| 0 <= i < list.len() && (#[trigger] list[i])@ == path {
        let k = choose|i: int| 0 <= i < list.len() && (#[trigger] list[i])@ == path;
        assert(views(list)[k] == path);
    }
}

/// A file is asked back just where the merge decides to take the remote copy, or
/// to keep it beside the local one.
pub proof fn law_pulls_and_conflicts_are_asked_back(
    plan: MergePlan,
    local: Tree,
    ancestor: Tree,
    remote: Tree,
    path: Seq<char>,
)
    requires
        plan.reconciles(local, ancestor, remote),
    ensures
        asked_back(plan).contains(path) <==> (decide(local, ancestor, remote, path)
            == Decision::Pull || decide(local, ancestor, remote, path) == Decision::Conflict),
{
    let pull = views(plan.pull@);
    let conflicts = views(plan.conflicts@);
    let all = asked_back(plan);
    assert(pull.contains(path) <==> decide(local, ancestor, remote, path) == Decision::Pull);
    assert(conflicts.contains(path) <==> decide(local, ancestor, remote, path)
        == Decision::Conflict);
    if pull.contains(path) {
        let k = pull.index_of(path);
        assert(all[k] == path);
    }
    if conflicts.contains(path) {
        let k = conflicts.index_of(path);
        assert(all[pull.len() + k] == path);
    }
    if all.contains(path) {
        let k = all.index_of(path);
        if k < pull.len() {
            assert(pull[k] == path);
        } else {
            assert(conflicts[k - pull.len()] == path);
        }
    }
}

/// The round carries out what the merge decides, for every file: it pushes the
/// files to be pushed, asks the daemon to delete those to be deleted there, asks
/// it to send the remote copy of every file that is to be pulled or is in
/// conflict, and deletes here the files to be deleted here. It does none of this
/// to any other file.
#[verifier::rlimit(40)]
pub proof fn law_round_carries_out_every_decision(
    plan: MergePlan,
    local: Tree,
    ancestor: Tree,
    remote: Tree,
    root: Seq<char>,
    steps: Seq<RoundStep>,
    path: Seq<char>,
)
    requires
        plan.reconciles(local, ancestor, remote),
        round_steps(plan, root, steps),
    ensures
        (exists|i: int|
            0 <= i < steps.len() && (#[trigger] steps[i] matches RoundStep::Push(p) && p@ == path))
            <==> decide(local, ancestor, remote, path) == Decision::Push,
        (exists|i: int|
            0 <= i < steps.len() && (#[trigger] steps[i] matches RoundStep::Send(
                Message::RemoteDelete { files },
            ) && views(files@).contains(path))) <==> decide(local, ancestor, remote, path)
            == Decision::DeleteRemote,
        (exists|i: int|
            0 <= i < steps.len() && (#[trigger] steps[i] matches RoundStep::Send(
                Message::PullRequest { files },
            ) && views(files@).contains(path))) <==> (decide(local, ancestor, remote, path)
            == Decision::Pull || decide(local, ancestor, remote, path) == Decision::Conflict),
        decide(local, ancestor, remote, path) == Decision::DeleteLocal ==> exists|i: int|
            0 <= i < steps.len() && (#[trigger] steps[i] matches RoundStep::Delete(p) && p@
                == extended(root, path)),
        forall|i: int|
            0 <= i < steps.len() && #[trigger] steps[i] is Delete ==> exists|q: Seq<char>|
                decide(local, ancestor, remote, q) == Decision::DeleteLocal && steps[i]->Delete_0@
                    == #[trigger] extended(root, q),
{
    let pushes = plan.push@.len() as int;
    let deletes = plan.delete_remote@.len() > 0;
    let pulls = asked_back(plan).len() > 0;
    let d = pushes + if deletes {
        1int
    } else {
        0
    };
    let p = d + if pulls {
        1int
    } else {
        0
    };
    let here = decide(local, ancestor, remote, path);
    assert(views(plan.push@).contains(path) <==> here == Decision::Push);
    assert(views(plan.delete_remote@).contains(path) <==> here == Decision::DeleteRemote);
    assert(views(plan.delete_local@).contains(path) <==> here == Decision::DeleteLocal);
    law_pulls_and_conflicts_are_asked_back(plan, local, ancestor, remote, path);
    lemma_views_contain(plan.push@, path);
    lemma_views_contain(plan.delete_remote@, path);
    lemma_views_contain(plan.delete_local@, path);
    // Every step is one of the five kinds.
    assert forall|i: int| 0 <= i < steps.len() implies {
        ||| i < pushes && #[trigger] steps[i] == RoundStep::Push(plan.push@[i])
        ||| deletes && i == pushes
        ||| pulls && i == d
        ||| i == p
        ||| p < i && steps[i] is Delete && steps[i]->Delete_0@ == extended(
            root,
            plan.delete_local@[i - p - 1]@,
        )
    } by {}
    if here == Decision::Push {
        let k = choose|k: int| 0 <= k < plan.push@.len() && (#[trigger] plan.push@[k])@ == path;
        assert(steps[k] == RoundStep::Push(plan.push@[k]));
    }
    if here == Decision::DeleteRemote {
        assert(steps[pushes] is Send);
    }
    if here == Decision::Pull || here == Decision::Conflict {
        assert(steps[d] is Send);
    }
    if here == Decision::DeleteLocal {
        let k = choose|k: int|
            0 <= k < plan.delete_local@.len() && (#[trigger] plan.delete_local@[k])@ == path;
        assert(steps[p + 1 + k] is Delete);
    }
    assert forall|i: int| 0 <= i < steps.len() && #[trigger] steps[i] is Delete implies exists|
        q: Seq<char>,
    |
        decide(local, ancestor, remote, q) == Decision::DeleteLocal && steps[i]->Delete_0@
            == #[trigger] extended(root, q) by {
        let q = plan.delete_local@[i - p - 1]@;
        assert(views(plan.delete_local@)[i - p - 1] == q);
        assert(views(plan.delete_local@).contains(q));
        assert(steps[i]->Delete_0@ == extended(root, q));
    }
}

/// The client says once that its part of the round is complete: after every push
/// and every request, and before it deletes anything of its own.
pub proof fn law_round_completes_before_it_deletes(
    plan: MergePlan,
    root: Seq<char>,
    steps: Seq<RoundStep>,
) -> (k: int)
    requires
        round_steps(plan, root, steps),
    ensures
        0 <= k < steps.len(),
        steps[k] == RoundStep::Send(Message::SyncComplete),
        forall|i: int|
            0 <= i < k ==> {
                ||| (#[trigger] steps[i]) is Push
                ||| steps[i] matches RoundStep::Send(Message::RemoteDelete { files })
                ||| steps[i] matches RoundStep::Send(Message::PullRequest { files })
            },
        forall|i: int| k < i < steps.len() ==> (#[trigger] steps[i]) is Delete,
{
    steps.len() - 1 - plan.delete_local@.len()
}

/// A file pulled in raw pieces arrives as it was, with its mode.
pub proof fn law_raw_pull_arrives(
    inc: IncomingView,
    root: Seq<char>,
    conflicts: Seq<Seq<char>>,
    host: Seq<char>,
    out: Result<PullWrite, RoundError>,
)
    requires
        !inc.compressed,
        pull_outcome(inc, root, conflicts, host, out),
    ensures
        out matches Ok(w) && w.data@ == inc.buf && w.mode == inc.mode && w.path@ == inc.path,
{
}

/// Where a pulled file goes, told by the merge: a file that is to be pulled goes to
/// its own place, and the remote copy of a conflict beside it, under the file's
/// name with the name of this machine behind it.
pub proof fn law_pulled_files_go_where_the_merge_says(
    plan: MergePlan,
    local: Tree,
    ancestor: Tree,
    remote: Tree,
    inc: IncomingView,
    root: Seq<char>,
    host: Seq<char>,
    w: PullWrite,
)
    requires
        plan.reconciles(local, ancestor, remote),
        pull_outcome(inc, root, views(plan.conflicts@), host, Ok(w)),
    ensures
        decide(local, ancestor, remote, inc.path) == Decision::Conflict ==> w.conflict && w.rel@
            == inc.path + ".rbuild-conflict-"@ + host && w.target@ == extended(
            root,
            inc.path + ".rbuild-conflict-"@ + host,
        ),
        decide(local, ancestor, remote, inc.path) == Decision::Pull ==> !w.conflict && w.rel@
            == inc.path && w.target@ == extended(root, inc.path),
{
    assert(views(plan.conflicts@).contains(inc.path) <==> decide(local, ancestor, remote, inc.path)
        == Decision::Conflict);
}

/// On one machine different files have different conflict copies, and of one file
/// different machines have.
pub proof fn law_conflict_copies_are_told_apart(
    path: Seq<char>,
    other: Seq<char>,
    host: Seq<char>,
    second: Seq<char>,
)
    ensures
        sidecar(path, host) == sidecar(other, host) ==> path == other,
        sidecar(path, host) == sidecar(path, second) ==> host == second,
{
    let mark = ".rbuild-conflict-"@;
    let a = sidecar(path, host);
    let b = sidecar(other, host);
    let c = sidecar(path, second);
    if a == b {
        assert(a.len() == path.len() + mark.len() + host.len());
        assert(b.len() == other.len() + mark.len() + host.len());
        assert(a.take(path.len() as int) =~= path);
        assert(b.take(other.len() as int) =~= other);
    }
    if a == c {
        let n = (path.len() + mark.len()) as int;
        assert(a.skip(n) =~= host);
        assert(c.skip(n) =~= second);
    }
}

/// The frames of a delta carry all of it: the instructions come first and the end
/// last, both under the file's path, and in between goes exactly one data frame
/// with the packed literals, if there are any.
pub proof fn law_delta_frames_carry_the_delta(
    rel: Seq<char>,
    len: u64,
    mode: u32,
    ops: Seq<DeltaOpKind>,
    packed: Option<Seq<u8>>,
    frames: Seq<Outgoing>,
)
    requires
        delta_frames(rel, len, mode, ops, packed, frames),
    ensures
        frames.len() >= 2,
        frames[0] matches Outgoing::Control(
            Message::DeltaInstructions { path, len: l, mode: m, ops: o },
        ) && path@ == rel && l == len && m == mode && o@ == ops,
        frames[frames.len() - 1] matches Outgoing::Control(Message::DeltaEnd { path }) && path@
            == rel,
        packed is None ==> frames.len() == 2,
        packed is Some ==> frames.len() == 3 && (frames[1] matches Outgoing::Data(sent)
            && Some(sent@) == packed),
{
}

} // verus!
