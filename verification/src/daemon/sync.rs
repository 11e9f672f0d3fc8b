//! Daemon-side sync: answer a client manifest, take incoming content for the
//! workspace mirror, and apply deletions and pulls. Every path that the client
//! sends is resolved inside the mirror before anything touches the disk.

use vstd::prelude::*;
use vstd::string::StringExecFns;

use crate::chunk::{
    apply_delta, as_signature, compress, decompress, file_signature, replay, signature, zstd_decoded,
    zstd_encoded, CodecError, DeltaError, COMPRESSION_LEVEL,
};
use crate::path::{inside, safe_join};
use crate::proto::{DeltaOpKind, Message};
use crate::scan::{lists, Manifest};
use crate::text::{
    contains, decimal, has_char, has_text, law_prefix_suffix_and_infix, occurs_at, quote, quoted,
    to_decimal, views,
};

verus! {

/// Why a sync step was refused.
#[derive(Debug)]
pub enum SyncError {
    /// The client sent a workspace id that could name another directory.
    InvalidWorkspace(String),
    /// A relative path would leave the workspace.
    Escapes(String),
    /// A data frame came with no transfer in progress.
    NoFileHeader,
    /// A delta was ended that was never begun.
    NoDelta,
    /// A payload could not be packed or unpacked.
    Codec(CodecError),
    /// A delta could not be replayed.
    Delta(DeltaError),
    /// A delta rebuilt a file of another length than announced.
    WrongLength { path: String, rebuilt: u64, expected: u64 },
}

impl SyncError {
    /// What went wrong, in words.
    pub open spec fn text(self) -> Seq<char> {
        match self {
            SyncError::InvalidWorkspace(id) => "invalid workspace id "@ + quoted(id@),
            SyncError::Escapes(rel) => "path "@ + quoted(rel@) + " escapes workspace"@,
            SyncError::NoFileHeader => "data frame with no FileHeader"@,
            SyncError::NoDelta => "DeltaEnd with no delta"@,
            SyncError::Codec(e) => e.text(),
            SyncError::Delta(e) => e.text(),
            SyncError::WrongLength { path, rebuilt, expected } => "delta for "@ + path@
                + " rebuilt "@ + decimal(rebuilt as nat) + " bytes, expected "@ + decimal(
                expected as nat,
            ),
        }
    }

    /// What went wrong, in words.
    pub fn message(&self) -> (text: String)
        ensures
            text@ == self.text(),
    {
        match self {
            SyncError::InvalidWorkspace(id) => "invalid workspace id ".to_owned().concat(
                quote(id.as_str()).as_str(),
            ),
            SyncError::Escapes(rel) => "path ".to_owned().concat(
                quote(rel.as_str()).as_str(),
            ).concat(" escapes workspace"),
            SyncError::NoFileHeader => "data frame with no FileHeader".to_owned(),
            SyncError::NoDelta => "DeltaEnd with no delta".to_owned(),
            SyncError::Codec(e) => e.message(),
            SyncError::Delta(e) => e.message(),
            SyncError::WrongLength { path, rebuilt, expected } => "delta for ".to_owned().concat(
                path.as_str(),
            ).concat(" rebuilt ").concat(to_decimal(*rebuilt).as_str()).concat(
                " bytes, expected ",
            ).concat(to_decimal(*expected).as_str()),
        }
    }
}

/// Whether a workspace id is a plain name: not empty, no separator, no `..`.
pub open spec fn plain_id(id: Seq<char>) -> bool {
    id.len() > 0 && !id.contains('/') && !id.contains('\\') && !has_text(id, ".."@)
}

/// The workspace mirror directory. The workspace volume is mounted directly at
/// the work root, so each daemon instance serves exactly one workspace; the id
/// is validated only as a safety check on the value the client sent.
pub fn workspace_dir(workspace_id: &str, workspace_root: &str) -> (dir: Result<String, SyncError>)
    ensures
        match dir {
            Ok(d) => plain_id(workspace_id@) && d@ == workspace_root@,
            Err(e) => !plain_id(workspace_id@) && (e matches SyncError::InvalidWorkspace(id) && id@
                == workspace_id@),
        },
{
    if workspace_id.is_empty() || has_char(workspace_id, '/') || has_char(workspace_id, '\\')
        || contains(workspace_id, "..") {
        return Err(SyncError::InvalidWorkspace(workspace_id.to_owned()));
    }
    Ok(workspace_root.to_owned())
}

/// A file to be written into the mirror.
#[derive(Debug)]
pub struct FileWrite {
    /// Where the file goes.
    pub target: String,
    pub data: Vec<u8>,
    /// The mode to set, unless it is 0.
    pub mode: u32,
    /// Whether the directory above it is to be made first.
    pub make_parent: bool,
}

/// The mode to set on a written file; the other side sends 0 for none.
pub fn set_mode(mode: u32) -> (set: Option<u32>)
    ensures
        set == if mode != 0 {
            Some(mode)
        } else {
            None
        },
{
    if mode != 0 {
        Some(mode)
    } else {
        None
    }
}

/// A file currently being received.
#[derive(Debug)]
pub struct Incoming {
    pub path: String,
    pub len: u64,
    pub mode: u32,
    pub compressed: bool,
    pub buf: Vec<u8>,
}

/// A delta currently being received for one large file.
#[derive(Debug)]
pub struct IncomingDelta {
    pub path: String,
    pub len: u64,
    pub mode: u32,
    pub ops: Vec<DeltaOpKind>,
    /// Compressed literal bytes accumulated from data frames.
    pub literals: Vec<u8>,
}

/// A file in transfer as contracts speak of it.
pub struct IncomingView {
    pub path: Seq<char>,
    pub len: u64,
    pub mode: u32,
    pub compressed: bool,
    pub buf: Seq<u8>,
}

/// A delta in transfer as contracts speak of it.
pub struct DeltaView {
    pub path: Seq<char>,
    pub len: u64,
    pub mode: u32,
    pub ops: Seq<DeltaOpKind>,
    pub literals: Seq<u8>,
}

impl View for Incoming {
    type V = IncomingView;

    open spec fn view(&self) -> IncomingView {
        IncomingView {
            path: self.path@,
            len: self.len,
            mode: self.mode,
            compressed: self.compressed,
            buf: self.buf@,
        }
    }
}

impl View for IncomingDelta {
    type V = DeltaView;

    open spec fn view(&self) -> DeltaView {
        DeltaView {
            path: self.path@,
            len: self.len,
            mode: self.mode,
            ops: self.ops@,
            literals: self.literals@,
        }
    }
}

impl IncomingView {
    /// Whether everything has arrived. Compressed payloads are sent as a single
    /// data frame; raw ones fill the announced length.
    pub open spec fn complete(self) -> bool {
        self.compressed || self.buf.len() >= self.len
    }
}

/// What is written for a received file, given its content.
pub open spec fn write_of(inc: IncomingView, root: Seq<char>, data: Seq<u8>, w: FileWrite) -> bool {
    &&& inside(root, inc.path) == Some(w.target@)
    &&& w.data@ == data
    &&& w.mode == inc.mode
    &&& w.make_parent
}

/// What comes of the data frame that leaves a file transfer at `inc`.
pub open spec fn received(
    inc: IncomingView,
    root: Seq<char>,
    out: Result<Option<FileWrite>, SyncError>,
) -> bool {
    if !inc.complete() {
        out matches Ok(None)
    } else {
        match out {
            Ok(None) => false,
            Ok(Some(w)) => if inc.compressed {
                zstd_decoded(inc.buf) matches Some(data) && write_of(inc, root, data, w)
            } else {
                write_of(inc, root, inc.buf, w)
            },
            Err(SyncError::Codec(e)) => inc.compressed && e is Decompress,
            Err(e) => {
                &&& inside(root, inc.path) is None
                &&& inc.compressed ==> zstd_decoded(inc.buf) is Some
                &&& e matches SyncError::Escapes(rel) && rel@ == inc.path
            },
        }
    }
}

/// Makes the write for a received file out of its unpacked content.
pub fn finish_file(inc: Incoming, root: &str, unpacked: Result<Vec<u8>, CodecError>) -> (out: Result<
    FileWrite,
    SyncError,
>)
    ensures
        match unpacked {
            Err(e) => out == Err::<FileWrite, SyncError>(SyncError::Codec(e)),
            Ok(data) => match out {
                Ok(w) => write_of(inc@, root@, data@, w),
                Err(e) => inside(root@, inc@.path) is None && e == SyncError::Escapes(inc.path),
            },
        },
{
    let data = match unpacked {
        Ok(d) => d,
        Err(e) => {
            return Err(SyncError::Codec(e));
        },
    };
    match safe_join(root, inc.path.as_str()) {
        Some(target) => Ok(FileWrite { target, data, mode: inc.mode, make_parent: true }),
        None => Err(SyncError::Escapes(inc.path)),
    }
}

/// What is written for a delta, given the file it starts from and its literal
/// bytes.
pub open spec fn rebuilt(delta: DeltaView, base: Seq<u8>, literals: Seq<u8>) -> Result<
    Seq<u8>,
    DeltaError,
> {
    match replay(base, delta.ops, literals) {
        Ok((bytes, _)) => Ok(bytes),
        Err(e) => Err(e),
    }
}

/// A received delta with the mirror file it applies to.
#[derive(Debug)]
pub struct PendingDelta {
    pub target: String,
    pub delta: IncomingDelta,
}

/// The literal bytes of a delta: those packed in its data frames, none if no
/// frame came.
pub open spec fn unpacks(delta: DeltaView, literals: Seq<u8>) -> bool {
    if delta.literals.len() == 0 {
        literals.len() == 0
    } else {
        zstd_decoded(delta.literals) == Some(literals)
    }
}

impl PendingDelta {
    /// What comes of rebuilding the file from the mirror's copy, given the
    /// unpacked literals.
    pub open spec fn outcome(
        self,
        base: Seq<u8>,
        literals: Seq<u8>,
        out: Result<FileWrite, SyncError>,
    ) -> bool {
        match rebuilt(self.delta@, base, literals) {
            Err(e) => out == Err::<FileWrite, SyncError>(SyncError::Delta(e)),
            Ok(bytes) => if bytes.len() != self.delta.len {
                out matches Err(SyncError::WrongLength { path, rebuilt, expected }) && path
                    == self.delta.path && rebuilt == bytes.len() && expected == self.delta.len
            } else {
                out matches Ok(w) && w.target == self.target && w.data@ == bytes && w.mode
                    == self.delta.mode && !w.make_parent
            },
        }
    }

    /// What comes of rebuilding the file from the mirror's copy. Unpacking the
    /// literals, where there are any, may fail.
    pub open spec fn rebuilds(self, base: Seq<u8>, out: Result<FileWrite, SyncError>) -> bool {
        match out {
            Err(SyncError::Codec(e)) => self.delta.literals@.len() > 0 && e is Decompress,
            _ => exists|literals: Seq<u8>|
                #![trigger self.outcome(base, literals, out)]
                unpacks(self.delta@, literals) && self.outcome(base, literals, out),
        }
    }

    /// Rebuilds the file from the mirror's copy and the unpacked literals.
    pub fn rebuild_with(self, base: &[u8], literals: Result<Vec<u8>, CodecError>) -> (out: Result<
        FileWrite,
        SyncError,
    >)
        ensures
            match literals {
                Err(e) => out == Err::<FileWrite, SyncError>(SyncError::Codec(e)),
                Ok(lit) => self.outcome(base@, lit@, out),
            },
    {
        let lit = match literals {
            Ok(l) => l,
            Err(e) => {
                return Err(SyncError::Codec(e));
            },
        };
        match apply_delta(base, self.delta.ops.as_slice(), lit.as_slice()) {
            Err(e) => Err(SyncError::Delta(e)),
            Ok(data) => {
                if data.len() as u64 != self.delta.len {
                    Err(
                        SyncError::WrongLength {
                            path: self.delta.path,
                            rebuilt: data.len() as u64,
                            expected: self.delta.len,
                        },
                    )
                } else {
                    Ok(
                        FileWrite {
                            target: self.target,
                            data,
                            mode: self.delta.mode,
                            make_parent: false,
                        },
                    )
                }
            },
        }
    }

    /// Rebuilds the file from the mirror's copy (empty if there is none) plus
    /// the received delta.
    pub fn rebuild(self, base: &[u8]) -> (out: Result<FileWrite, SyncError>)
        ensures
            self.rebuilds(base@, out),
    {
        let ghost pending = self;
        let literals = if self.delta.literals.len() == 0 {
            Ok(Vec::new())
        } else {
            decompress(self.delta.literals.as_slice())
        };
        let ghost lit = literals->Ok_0@;
        let out = self.rebuild_with(base, literals);
        proof {
            if !(out matches Err(SyncError::Codec(_))) {
                assert(pending.outcome(base@, lit, out));
            }
        }
        out
    }
}

/// State for one in-progress sync round on a stream.
#[derive(Debug)]
pub struct SyncSession {
    stream: u32,
    root: String,
    /// File currently being received, set by a FileHeader.
    incoming: Option<Incoming>,
    /// Delta currently being received, set by DeltaInstructions.
    incoming_delta: Option<IncomingDelta>,
    /// Files the client asked to delete from the mirror (applied at completion).
    pending_delete: Vec<String>,
    /// Files the client asked to pull back (streamed at completion).
    pending_pull: Vec<String>,
    applied: u64,
}

/// A session as contracts speak of it.
pub struct SessionView {
    pub stream: u32,
    pub root: Seq<char>,
    pub incoming: Option<IncomingView>,
    pub incoming_delta: Option<DeltaView>,
    pub pending_delete: Seq<Seq<char>>,
    pub pending_pull: Seq<Seq<char>>,
    pub applied: u64,
}

impl View for SyncSession {
    type V = SessionView;

    closed spec fn view(&self) -> SessionView {
        SessionView {
            stream: self.stream,
            root: self.root@,
            incoming: match self.incoming {
                Some(i) => Some(i@),
                None => None,
            },
            incoming_delta: match self.incoming_delta {
                Some(d) => Some(d@),
                None => None,
            },
            pending_delete: views(self.pending_delete@),
            pending_pull: views(self.pending_pull@),
            applied: self.applied,
        }
    }
}

/// A session with nothing in progress.
pub open spec fn fresh(stream: u32, root: Seq<char>) -> SessionView {
    SessionView {
        stream,
        root,
        incoming: None,
        incoming_delta: None,
        pending_delete: Seq::empty(),
        pending_pull: Seq::empty(),
        applied: 0,
    }
}

/// Where a list of files leads inside the mirror.
#[derive(Debug)]
pub struct Targets {
    /// Each file with its place in the mirror, up to the first that has none.
    pub files: Vec<(String, String)>,
    /// The refusal of the file after those, if there is one.
    pub refused: Option<SyncError>,
}

impl Targets {
    /// The first files of `files`, each with its place below `root`, and a
    /// refusal exactly when one of `files` would leave it.
    pub open spec fn resolve(self, root: Seq<char>, files: Seq<Seq<char>>) -> bool {
        let n = self.files@.len() as int;
        &&& n <= files.len()
        &&& forall|i: int|
            0 <= i < n ==> (#[trigger] self.files@[i]).0@ == files[i] && inside(root, files[i])
                == Some(self.files@[i].1@)
        &&& match self.refused {
            None => n == files.len(),
            Some(e) => n < files.len() && inside(root, files[n]) is None && (
            e matches SyncError::Escapes(rel) && rel@ == files[n]),
        }
    }
}

fn resolve_all(root: &str, files: &[String]) -> (out: Targets)
    ensures
        out.resolve(root@, views(files@)),
{
    let mut done: Vec<(String, String)> = Vec::new();
    let ghost all = views(files@);
    let mut i: usize = 0;
    while i < files.len()
        invariant
            i <= files@.len(),
            all == views(files@),
            done@.len() == i,
            forall|j: int|
                0 <= j < i ==> (#[trigger] done@[j]).0@ == all[j] && inside(root@, all[j]) == Some(
                    done@[j].1@,
                ),
        decreases files@.len() - i,
    {
        match safe_join(root, files[i].as_str()) {
            Some(t) => {
                done.push((files[i].clone(), t));
            },
            None => {
                return Targets {
                    files: done,
                    refused: Some(SyncError::Escapes(files[i].clone())),
                };
            },
        }
        i = i + 1;
    }
    Targets { files: done, refused: None }
}

/// How many of the outcomes are true.
pub open spec fn count_true(outcomes: Seq<bool>) -> nat
    decreases outcomes.len(),
{
    if outcomes.len() == 0 {
        0
    } else {
        count_true(outcomes.drop_last()) + if outcomes.last() {
            1nat
        } else {
            0
        }
    }
}

impl SyncSession {
    /// A session on a workspace whose directory has been made.
    pub fn open(stream: u32, root: String) -> (session: SyncSession)
        ensures
            session@ == fresh(stream, root@),
    {
        let session = SyncSession {
            stream,
            root,
            incoming: None,
            incoming_delta: None,
            pending_delete: Vec::new(),
            pending_pull: Vec::new(),
            applied: 0,
        };
        assert(session@.pending_delete =~= Seq::<Seq<char>>::empty());
        assert(session@.pending_pull =~= Seq::<Seq<char>>::empty());
        session
    }

    /// The stream that replies go out on.
    pub fn stream(&self) -> (stream: u32)
        ensures
            stream == self@.stream,
    {
        self.stream
    }

    /// The workspace directory.
    pub fn root(&self) -> (root: &str)
        ensures
            root@ == self@.root,
    {
        self.root.as_str()
    }

    /// Reply to the client's manifest with the daemon's own current manifest,
    /// so the client can compute the three-way merge.
    pub fn on_manifest(&self, remote: &Manifest) -> (reply: Message)
        ensures
            reply matches Message::RemoteManifest { entries } && {
                &&& lists(remote.paths(), |p: Seq<char>| remote@.contains_key(p))
                &&& entries@.len() == remote.paths().len()
                &&& forall|i: int|
                    0 <= i < entries@.len() ==> #[trigger] entries@[i]@
                        == remote@[remote.paths()[i]]
            },
    {
        Message::RemoteManifest { entries: remote.values() }
    }

    /// Record files the client wants deleted from the mirror.
    pub fn on_remote_delete(&mut self, files: Vec<String>)
        ensures
            final(self)@ == (SessionView { pending_delete: views(files@), ..old(self)@ }),
    {
        self.pending_delete = files;
    }

    /// Record files the client wants streamed back.
    pub fn on_pull_request(&mut self, files: Vec<String>)
        ensures
            final(self)@ == (SessionView { pending_pull: views(files@), ..old(self)@ }),
    {
        self.pending_pull = files;
    }

    /// Begin to receive a file. One that was incomplete is forgotten.
    pub fn on_file_header(&mut self, path: String, len: u64, mode: u32, compressed: bool)
        ensures
            final(self)@ == (SessionView {
                incoming: Some(
                    IncomingView { path: path@, len, mode, compressed, buf: Seq::empty() },
                ),
                ..old(self)@
            }),
    {
        self.incoming = Some(Incoming { path, len, mode, compressed, buf: Vec::new() });
    }

    /// Append a data frame's bytes to whatever transfer is in progress: a
    /// delta's literal payload or a whole-file receive. Returns the write to
    /// carry out when a file is complete.
    pub fn on_data(&mut self, bytes: &[u8]) -> (out: Result<Option<FileWrite>, SyncError>)
        ensures
            match (old(self)@.incoming_delta, old(self)@.incoming) {
                (Some(d), _) => {
                    &&& out matches Ok(None)
                    &&& final(self)@ == (SessionView {
                        incoming_delta: Some(DeltaView { literals: d.literals + bytes@, ..d }),
                        ..old(self)@
                    })
                },
                (None, None) => {
                    &&& out == Err::<Option<FileWrite>, SyncError>(SyncError::NoFileHeader)
                    &&& final(self)@ == old(self)@
                },
                (None, Some(i)) => {
                    let inc = IncomingView { buf: i.buf + bytes@, ..i };
                    &&& final(self)@ == (SessionView {
                        incoming: if inc.complete() {
                            None
                        } else {
                            Some(inc)
                        },
                        ..old(self)@
                    })
                    &&& received(inc, old(self)@.root, out)
                },
            },
    {
        let mut delta: Option<IncomingDelta> = None;
        std::mem::swap(&mut self.incoming_delta, &mut delta);
        if let Some(mut d) = delta {
            let ghost before = d.literals@;
            d.literals.extend_from_slice(bytes);
            assert(d.literals@ =~= before + bytes@);
            self.incoming_delta = Some(d);
            return Ok(None);
        }
        let mut incoming: Option<Incoming> = None;
        std::mem::swap(&mut self.incoming, &mut incoming);
        let mut inc = match incoming {
            Some(i) => i,
            None => {
                return Err(SyncError::NoFileHeader);
            },
        };
        let ghost before = inc.buf@;
        inc.buf.extend_from_slice(bytes);
        assert(inc.buf@ =~= before + bytes@);
        if inc.compressed || inc.buf.len() as u64 >= inc.len {
            match self.flush_incoming(inc) {
                Ok(w) => Ok(Some(w)),
                Err(e) => Err(e),
            }
        } else {
            self.incoming = Some(inc);
            Ok(None)
        }
    }

    /// The write for a file that has been received whole.
    fn flush_incoming(&self, inc: Incoming) -> (out: Result<FileWrite, SyncError>)
        ensures
            match out {
                Ok(w) => if inc.compressed {
                    zstd_decoded(inc.buf@) matches Some(data) && write_of(inc@, self@.root, data, w)
                } else {
                    write_of(inc@, self@.root, inc.buf@, w)
                },
                Err(SyncError::Codec(e)) => inc.compressed && e is Decompress,
                Err(e) => {
                    &&& inside(self@.root, inc.path@) is None
                    &&& inc.compressed ==> zstd_decoded(inc.buf@) is Some
                    &&& e == SyncError::Escapes(inc.path)
                },
            },
    {
        let Incoming { path, len, mode, compressed, buf } = inc;
        let data = if compressed {
            decompress(buf.as_slice())
        } else {
            Ok(buf)
        };
        let bare = Incoming { path, len, mode, compressed, buf: Vec::new() };
        finish_file(bare, self.root.as_str(), data)
    }

    /// Where the copy stands whose signature the client asks for.
    pub fn delta_base(&self, path: &str) -> (target: Result<String, SyncError>)
        ensures
            match target {
                Ok(t) => inside(self@.root, path@) == Some(t@),
                Err(e) => inside(self@.root, path@) is None && (e matches SyncError::Escapes(rel)
                    && rel@ == path@),
            },
    {
        match safe_join(self.root.as_str(), path) {
            Some(t) => Ok(t),
            None => Err(SyncError::Escapes(path.to_owned())),
        }
    }

    /// Reply to a DeltaRequest with the chunk signature of the mirror's current
    /// copy (empty if absent), so the client can send only changed chunks.
    pub fn on_delta_request(&self, path: String, copy: Option<&[u8]>) -> (reply: Message)
        ensures
            reply matches Message::DeltaSignature { path: p, chunks } && p == path && match copy {
                Some(data) => as_signature(chunks@) == file_signature(data@),
                None => chunks@.len() == 0,
            },
    {
        let chunks = match copy {
            Some(data) => signature(data),
            None => Vec::new(),
        };
        Message::DeltaSignature { path, chunks }
    }

    /// Begin to receive a delta.
    pub fn on_delta_instructions(
        &mut self,
        path: String,
        len: u64,
        mode: u32,
        ops: Vec<DeltaOpKind>,
    )
        ensures
            final(self)@ == (SessionView {
                incoming_delta: Some(
                    DeltaView { path: path@, len, mode, ops: ops@, literals: Seq::empty() },
                ),
                ..old(self)@
            }),
    {
        self.incoming_delta = Some(IncomingDelta { path, len, mode, ops, literals: Vec::new() });
    }

    /// Hand out the received delta with the mirror file that it applies to.
    pub fn on_delta_end(&mut self) -> (out: Result<PendingDelta, SyncError>)
        ensures
            final(self)@ == (SessionView { incoming_delta: None, ..old(self)@ }),
            match old(self)@.incoming_delta {
                None => out == Err::<PendingDelta, SyncError>(SyncError::NoDelta),
                Some(d) => match out {
                    Ok(p) => p.delta@ == d && inside(old(self)@.root, d.path) == Some(p.target@),
                    Err(e) => inside(old(self)@.root, d.path) is None && (
                    e matches SyncError::Escapes(rel) && rel@ == d.path),
                },
            },
    {
        let mut delta: Option<IncomingDelta> = None;
        std::mem::swap(&mut self.incoming_delta, &mut delta);
        match delta {
            None => Err(SyncError::NoDelta),
            Some(d) => match safe_join(self.root.as_str(), d.path.as_str()) {
                Some(target) => Ok(PendingDelta { target, delta: d }),
                None => Err(SyncError::Escapes(d.path)),
            },
        }
    }

    /// How many files this session has written.
    pub fn applied(&self) -> (applied: u64)
        ensures
            applied == self@.applied,
    {
        self.applied
    }

    /// Count a file that has been written to the mirror.
    pub fn on_written(&mut self)
        requires
            old(self)@.applied < u64::MAX,
        ensures
            final(self)@ == (SessionView {
                applied: (old(self)@.applied + 1) as u64,
                ..old(self)@
            }),
    {
        self.applied = self.applied + 1;
    }

    /// The first part of completing a round: the files to delete.
    pub fn take_deletes(&mut self) -> (out: Targets)
        ensures
            final(self)@ == (SessionView { pending_delete: Seq::empty(), ..old(self)@ }),
            out.resolve(old(self)@.root, old(self)@.pending_delete),
    {
        let mut files: Vec<String> = Vec::new();
        std::mem::swap(&mut self.pending_delete, &mut files);
        assert(self@.pending_delete =~= Seq::<Seq<char>>::empty());
        resolve_all(self.root.as_str(), files.as_slice())
    }

    /// The second part of completing a round: the files to stream back.
    pub fn take_pulls(&mut self) -> (out: Targets)
        ensures
            final(self)@ == (SessionView { pending_pull: Seq::empty(), ..old(self)@ }),
            out.resolve(old(self)@.root, old(self)@.pending_pull),
    {
        let mut files: Vec<String> = Vec::new();
        std::mem::swap(&mut self.pending_pull, &mut files);
        assert(self@.pending_pull =~= Seq::<Seq<char>>::empty());
        resolve_all(self.root.as_str(), files.as_slice())
    }

    /// The last part of completing a round: the acknowledgement, given for each
    /// file to delete whether there was one.
    pub fn complete(&self, found: &[bool]) -> (ack: Message)
        ensures
            ack == (Message::SyncAck {
                applied: self@.applied,
                deleted: count_true(found@) as u64,
            }),
            count_true(found@) <= u64::MAX,
    {
        let mut deleted: u64 = 0;
        let mut i: usize = 0;
        assert(found@.take(0) =~= Seq::<bool>::empty());
        while i < found.len()
            invariant
                i <= found@.len(),
                deleted <= i,
                deleted == count_true(found@.take(i as int)),
            decreases found@.len() - i,
        {
            assert(found@.take(i + 1).drop_last() =~= found@.take(i as int));
            if found[i] {
                deleted = deleted + 1;
            }
            i = i + 1;
        }
        assert(found@.take(found@.len() as int) =~= found@);
        Message::SyncAck { applied: self.applied, deleted }
    }
}

/// One mirror file on its way to the client: its header, and its packed
/// content for the data frame that follows.
pub fn file_frames(rel: &str, len: u64, mode: u32, packed: Result<Vec<u8>, CodecError>) -> (out: Result<
    (Message, Vec<u8>),
    SyncError,
>)
    ensures
        match packed {
            Err(e) => out == Err::<(Message, Vec<u8>), SyncError>(SyncError::Codec(e)),
            Ok(bytes) => out matches Ok((Message::FileHeader { path, len: l, mode: m, compressed }, sent))
                && path@ == rel@ && l == len && m == mode && compressed && sent == bytes,
        },
{
    match packed {
        Ok(bytes) => Ok(
            (Message::FileHeader { path: rel.to_owned(), len, mode, compressed: true }, bytes),
        ),
        Err(e) => Err(SyncError::Codec(e)),
    }
}

/// Streams one mirror file to the client as FileHeader + compressed data.
pub fn send_file(rel: &str, len: u64, mode: u32, data: &[u8]) -> (out: Result<
    (Message, Vec<u8>),
    SyncError,
>)
    ensures
        match out {
            Ok((Message::FileHeader { path, len: l, mode: m, compressed }, sent)) => {
                &&& path@ == rel@ && l == len && m == mode && compressed
                &&& sent@ == zstd_encoded(data@, COMPRESSION_LEVEL as int)
                &&& zstd_decoded(sent@) == Some(data@)
            },
            Ok(_) => false,
            Err(e) => e matches SyncError::Codec(c) && c is Compress,
        },
{
    file_frames(rel, len, mode, compress(data))
}

/// A directory of the mirror as it was found: whether it holds anything but
/// directories, and the directories in it.
#[derive(Debug)]
pub struct Dir {
    pub path: String,
    pub has_files: bool,
    pub dirs: Vec<Dir>,
}

/// Whether no file lies anywhere below a directory.
pub open spec fn bare(dir: Dir) -> bool
    decreases dir,
{
    !dir.has_files && forall|i: int| 0 <= i < dir.dirs@.len() ==> bare(#[trigger] dir.dirs@[i])
}

/// The directories to remove among the first `n` below `dir`: those that hold
/// no file, each after the ones inside it.
pub open spec fn doomed(dir: Dir, n: int) -> Seq<Seq<char>>
    decreases dir, n,
{
    if n <= 0 || n > dir.dirs@.len() {
        Seq::empty()
    } else {
        let child = dir.dirs@[n - 1];
        let before = doomed(dir, n - 1) + doomed(child, child.dirs@.len() as int);
        if bare(child) {
            before.push(child.path@)
        } else {
            before
        }
    }
}

fn recurse(dir: &Dir, out: &mut Vec<String>) -> (empty: bool)
    ensures
        empty == bare(*dir),
        views(final(out)@) == views(old(out)@) + doomed(*dir, dir.dirs@.len() as int),
    decreases dir,
{
    let mut empty = !dir.has_files;
    let mut i: usize = 0;
    let ghost start = views(out@);
    assert(start + doomed(*dir, 0) =~= start);
    while i < dir.dirs.len()
        invariant
            i <= dir.dirs@.len(),
            start == views(old(out)@),
            empty == (!dir.has_files && forall|j: int|
                0 <= j < i ==> bare(#[trigger] dir.dirs@[j])),
            views(out@) == start + doomed(*dir, i as int),
        decreases dir.dirs@.len() - i,
    {
        let child = &dir.dirs[i];
        if recurse(child, out) {
            let ghost before = views(out@);
            out.push(child.path.clone());
            assert(views(out@) =~= before.push(child.path@));
        } else {
            empty = false;
        }
        assert(views(out@) =~= start + doomed(*dir, i + 1));
        i = i + 1;
    }
    empty
}

/// The directories to remove so that none is left without a file in it,
/// innermost first. The root itself stays.
pub fn prune_empty_dirs(root: &Dir) -> (dirs: Vec<String>)
    ensures
        views(dirs@) == doomed(*root, root.dirs@.len() as int),
{
    let mut dirs: Vec<String> = Vec::new();
    assert(views(dirs@) =~= Seq::<Seq<char>>::empty());
    recurse(root, &mut dirs);
    assert(Seq::<Seq<char>>::empty() + doomed(*root, root.dirs@.len() as int) =~= doomed(
        *root,
        root.dirs@.len() as int,
    ));
    dirs
}

/// Whether `path` names a directory below `dir` that holds no file.
pub open spec fn bare_below(dir: Dir, path: Seq<char>) -> bool
    decreases dir,
{
    exists|i: int|
        #![trigger dir.dirs@[i]]
        0 <= i < dir.dirs@.len() && ((bare(dir.dirs@[i]) && dir.dirs@[i].path@ == path)
            || bare_below(dir.dirs@[i], path))
}

proof fn lemma_doomed(dir: Dir, n: int, path: Seq<char>)
    requires
        0 <= n <= dir.dirs@.len(),
    ensures
        doomed(dir, n).contains(path) <==> exists|i: int|
            #![trigger dir.dirs@[i]]
            0 <= i < n && ((bare(dir.dirs@[i]) && dir.dirs@[i].path@ == path) || bare_below(
                dir.dirs@[i],
                path,
            )),
    decreases dir, n,
{
    if n > 0 {
        let child = dir.dirs@[n - 1];
        let first = doomed(dir, n - 1);
        let inner = doomed(child, child.dirs@.len() as int);
        lemma_doomed(dir, n - 1, path);
        lemma_doomed(child, child.dirs@.len() as int, path);
        let all = doomed(dir, n);
        if first.contains(path) {
            assert(all[first.index_of(path)] == path);
        }
        if inner.contains(path) {
            assert(all[first.len() + inner.index_of(path)] == path);
        }
        if bare(child) && child.path@ == path {
            assert(all[all.len() - 1] == path);
        }
        if all.contains(path) {
            let k = all.index_of(path);
            if k < first.len() {
                assert(first[k] == path);
            } else if k < first.len() + inner.len() {
                assert(inner[k - first.len()] == path);
            }
        }
    }
}

/// Pruning removes exactly the directories that hold no file at any depth: none
/// with a file below it goes, and none without one stays. The root is not among
/// them.
pub proof fn law_pruning_removes_exactly_the_bare_directories(root: Dir, path: Seq<char>)
    ensures
        doomed(root, root.dirs@.len() as int).contains(path) <==> bare_below(root, path),
{
    lemma_doomed(root, root.dirs@.len() as int, path);
}

/// Which workspace ids are accepted, character by character: any that is not
/// empty and holds no slash, no backslash and no two dots in a row.
pub proof fn law_plain_ids_hold_no_path(id: Seq<char>)
    ensures
        plain_id(id) <==> {
            &&& id.len() > 0
            &&& forall|i: int| 0 <= i < id.len() ==> #[trigger] id[i] != '/' && id[i] != '\\'
            &&& forall|i: int|
                0 <= i < id.len() - 1 ==> !(#[trigger] id[i] == '.' && id[i + 1] == '.')
        },
{
    reveal_strlit("..");
    if id.contains('/') {
        let k = id.index_of('/');
        assert(id[k] == '/');
    }
    if id.contains('\\') {
        let k = id.index_of('\\');
        assert(id[k] == '\\');
    }
    if has_text(id, ".."@) {
        let i = choose|i: int| occurs_at(id, ".."@, i);
        assert(id.subrange(i, i + 2)[0] == '.' && id.subrange(i, i + 2)[1] == '.');
        assert(id[i] == '.' && id[i + 1] == '.');
    }
    if exists|i: int| 0 <= i < id.len() - 1 && (#[trigger] id[i] == '.' && id[i + 1] == '.') {
        let i = choose|i: int| 0 <= i < id.len() - 1 && (#[trigger] id[i] == '.' && id[i + 1] == '.');
        assert(id.subrange(i, i + 2) =~= ".."@);
        assert(occurs_at(id, ".."@, i));
    }
    if plain_id(id) {
        assert forall|i: int| 0 <= i < id.len() implies #[trigger] id[i] != '/' && id[i]
            != '\\' by {
            assert(id.contains(id[i]));
        }
    }
}

/// Counting goes one by one: every true outcome counts once, and no other.
pub proof fn law_every_true_outcome_counts_once(outcomes: Seq<bool>)
    ensures
        count_true(outcomes) == outcomes.filter(|b: bool| b).len(),
        count_true(outcomes) <= outcomes.len(),
        (forall|i: int| 0 <= i < outcomes.len() ==> #[trigger] outcomes[i]) ==> count_true(outcomes)
            == outcomes.len(),
    decreases outcomes.len(),
{
    reveal(Seq::filter);
    if outcomes.len() > 0 {
        let init = outcomes.drop_last();
        law_every_true_outcome_counts_once(init);
        if forall|i: int| 0 <= i < outcomes.len() ==> #[trigger] outcomes[i] {
            assert forall|i: int| 0 <= i < init.len() implies #[trigger] init[i] by {
                assert(outcomes[i]);
            }
            assert(outcomes[outcomes.len() - 1]);
        }
    }
}

/// Every file of a list gets its place in the mirror, in order, up to the first
/// that would leave it; if none would, all of them do and none is refused.
pub proof fn law_targets_cover_the_list(
    targets: Targets,
    root: Seq<char>,
    files: Seq<Seq<char>>,
    k: int,
)
    requires
        targets.resolve(root, files),
        0 <= k <= files.len(),
        forall|i: int| 0 <= i < k ==> inside(root, #[trigger] files[i]) is Some,
        k < files.len() ==> inside(root, files[k]) is None,
    ensures
        targets.files@.len() == k,
        targets.refused is Some <==> k < files.len(),
        forall|i: int|
            0 <= i < k ==> (#[trigger] targets.files@[i]).0@ == files[i] && inside(root, files[i])
                == Some(targets.files@[i].1@),
        targets.refused matches Some(e) ==> (e matches SyncError::Escapes(rel) && rel@ == files[k]),
{
    let n = targets.files@.len() as int;
    if n > k {
        assert(targets.files@[k].0@ == files[k]);
    }
    if n < k {
        assert(inside(root, files[n]) is Some);
    }
}

/// What is written for a file that has arrived in raw pieces: just its bytes, at
/// its place below the root, with its mode.
pub proof fn law_raw_file_is_written_as_it_came(
    inc: IncomingView,
    root: Seq<char>,
    out: Result<Option<FileWrite>, SyncError>,
)
    requires
        received(inc, root, out),
        !inc.compressed,
    ensures
        inc.buf.len() < inc.len <==> out matches Ok(None),
        out matches Ok(Some(w)) ==> w.data@ == inc.buf && w.mode == inc.mode && w.make_parent
            && Some(w.target@) == inside(root, inc.path),
        inc.buf.len() >= inc.len && inside(root, inc.path) is Some ==> out is Ok,
        out matches Err(e) ==> (e matches SyncError::Escapes(rel) && rel@ == inc.path),
{
}

/// A packed file is unpacked and written as soon as its one frame is there, or
/// refused.
pub proof fn law_packed_file_is_written_unpacked(
    inc: IncomingView,
    root: Seq<char>,
    out: Result<Option<FileWrite>, SyncError>,
)
    requires
        received(inc, root, out),
        inc.compressed,
    ensures
        !(out matches Ok(None)),
        out matches Ok(Some(w)) ==> zstd_decoded(inc.buf) == Some(w.data@) && w.mode == inc.mode
            && w.make_parent && Some(w.target@) == inside(root, inc.path),
        zstd_decoded(inc.buf) is Some && inside(root, inc.path) is Some ==> match out {
            Ok(_) => true,
            Err(e) => e matches SyncError::Codec(c) && c is Decompress,
        },
{
}

/// An error names what it is about: the id, the path, or the path with both
/// lengths.
pub proof fn law_sync_errors_name_their_subject(e: SyncError)
    ensures
        e matches SyncError::InvalidWorkspace(id) ==> has_text(e.text(), quoted(id@)),
        e matches SyncError::Escapes(rel) ==> has_text(e.text(), quoted(rel@)),
        e matches SyncError::WrongLength { path, rebuilt, expected } ==> has_text(e.text(), path@)
            && has_text(e.text(), decimal(rebuilt as nat)) && has_text(
            e.text(),
            decimal(expected as nat),
        ),
        e matches SyncError::Codec(c) ==> e.text() == c.text(),
        e matches SyncError::Delta(d) ==> e.text() == d.text(),
{
    let none = Seq::<char>::empty();
    match e {
        SyncError::InvalidWorkspace(id) => {
            assert(e.text() =~= "invalid workspace id "@ + quoted(id@) + none);
            law_prefix_suffix_and_infix(e.text(), quoted(id@));
        },
        SyncError::Escapes(rel) => {
            assert(e.text() =~= "path "@ + quoted(rel@) + " escapes workspace"@);
            law_prefix_suffix_and_infix(e.text(), quoted(rel@));
        },
        SyncError::WrongLength { path, rebuilt, expected } => {
            let a = "delta for "@;
            let b = " rebuilt "@;
            let r = decimal(rebuilt as nat);
            let c = " bytes, expected "@;
            let x = decimal(expected as nat);
            assert(e.text() =~= a + path@ + (b + r + c + x));
            assert(e.text() =~= (a + path@ + b) + r + (c + x));
            assert(e.text() =~= (a + path@ + b + r + c) + x + none);
            law_prefix_suffix_and_infix(e.text(), path@);
            law_prefix_suffix_and_infix(e.text(), r);
            law_prefix_suffix_and_infix(e.text(), x);
        },
        _ => {},
    }
}

/// A new session has nothing in progress, nothing asked for and nothing counted.
pub proof fn law_new_session_is_idle(stream: u32, root: Seq<char>)
    ensures
        ({
            let s = fresh(stream, root);
            &&& s.stream == stream && s.root == root
            &&& s.incoming is None && s.incoming_delta is None
            &&& s.pending_delete.len() == 0 && s.pending_pull.len() == 0
            &&& s.applied == 0
        }),
{
}

/// A rebuilt file is what the delta's steps make of the mirror's copy and of the
/// literals that were sent, it has the announced length, and it goes where the
/// delta belongs. A delta that makes something of another length is refused.
pub proof fn law_rebuilt_file_is_checked(
    pending: PendingDelta,
    base: Seq<u8>,
    out: Result<FileWrite, SyncError>,
)
    requires
        pending.rebuilds(base, out),
    ensures
        out matches Ok(w) ==> {
            &&& w.target == pending.target
            &&& w.mode == pending.delta.mode
            &&& !w.make_parent
            &&& w.data@.len() == pending.delta.len
            &&& exists|literals: Seq<u8>|
                {
                    &&& pending.delta.literals@.len() == 0 ==> literals.len() == 0
                    &&& pending.delta.literals@.len() > 0 ==> zstd_decoded(pending.delta.literals@)
                        == Some(literals)
                    &&& #[trigger] replay(base, pending.delta.ops@, literals) is Ok
                    &&& replay(base, pending.delta.ops@, literals)->Ok_0.0 == w.data@
                }
        },
        out matches Err(SyncError::WrongLength { path, rebuilt, expected }) ==> rebuilt != expected
            && expected == pending.delta.len && path == pending.delta.path,
{
    if !(out matches Err(SyncError::Codec(_))) {
        let lit = choose|lit: Seq<u8>|
            #![trigger pending.outcome(base, lit, out)]
            unpacks(pending.delta@, lit) && pending.outcome(base, lit, out);
        assert(pending.outcome(base, lit, out));
        assert(replay(base, pending.delta.ops@, lit) == replay(base, pending.delta.ops@, lit));
    }
}

/// The directory that a trail leads to, by the places of the directories on the way
/// among their parents'.
pub open spec fn reached(dir: Dir, trail: Seq<int>) -> Option<Dir>
    decreases trail.len(),
{
    if trail.len() == 0 {
        Some(dir)
    } else if 0 <= trail[0] < dir.dirs@.len() {
        reached(dir.dirs@[trail[0]], trail.skip(1))
    } else {
        None
    }
}

proof fn lemma_bare_at_the_end(dir: Dir, trail: Seq<int>)
    requires
        bare(dir),
        reached(dir, trail) is Some,
    ensures
        bare(reached(dir, trail)->0),
    decreases trail.len(),
{
    if trail.len() > 0 {
        assert(bare(dir.dirs@[trail[0]]));
        lemma_bare_at_the_end(dir.dirs@[trail[0]], trail.skip(1));
    }
}

proof fn lemma_trail_to_a_file(dir: Dir) -> (trail: Seq<int>)
    requires
        !bare(dir),
    ensures
        reached(dir, trail) is Some,
        reached(dir, trail)->0.has_files,
    decreases dir,
{
    if dir.has_files {
        Seq::empty()
    } else {
        let i = choose|i: int| 0 <= i < dir.dirs@.len() && !bare(#[trigger] dir.dirs@[i]);
        let more = lemma_trail_to_a_file(dir.dirs@[i]);
        let trail = seq![i] + more;
        assert(trail.skip(1) =~= more);
        trail
    }
}

/// A directory counts as empty just where no trail through it leads to a directory
/// with a file.
pub proof fn law_bare_directories_lead_to_no_file(dir: Dir)
    ensures
        bare(dir) <==> forall|trail: Seq<int>|
            (#[trigger] reached(dir, trail)) is Some ==> !reached(dir, trail)->0.has_files,
{
    if bare(dir) {
        assert forall|trail: Seq<int>| (#[trigger] reached(dir, trail)) is Some implies !reached(
            dir,
            trail,
        )->0.has_files by {
            lemma_bare_at_the_end(dir, trail);
        }
    } else {
        let trail = lemma_trail_to_a_file(dir);
        assert(reached(dir, trail) is Some);
    }
}

proof fn lemma_trail_to_the_bare(dir: Dir, path: Seq<char>) -> (trail: Seq<int>)
    requires
        bare_below(dir, path),
    ensures
        trail.len() > 0,
        reached(dir, trail) is Some,
        bare(reached(dir, trail)->0),
        reached(dir, trail)->0.path@ == path,
    decreases dir,
{
    let i = choose|i: int|
        #![trigger dir.dirs@[i]]
        0 <= i < dir.dirs@.len() && ((bare(dir.dirs@[i]) && dir.dirs@[i].path@ == path)
            || bare_below(dir.dirs@[i], path));
    let child = dir.dirs@[i];
    if bare(child) && child.path@ == path {
        let trail = seq![i];
        assert(trail.skip(1) =~= Seq::<int>::empty());
        assert(reached(child, trail.skip(1)) == Some(child));
        trail
    } else {
        let more = lemma_trail_to_the_bare(child, path);
        let trail = seq![i] + more;
        assert(trail.skip(1) =~= more);
        trail
    }
}

proof fn lemma_bare_below_on_a_trail(dir: Dir, trail: Seq<int>)
    requires
        trail.len() > 0,
        reached(dir, trail) is Some,
        bare(reached(dir, trail)->0),
    ensures
        bare_below(dir, reached(dir, trail)->0.path@),
    decreases trail.len(),
{
    let child = dir.dirs@[trail[0]];
    let more = trail.skip(1);
    if more.len() == 0 {
        assert(reached(child, more) == Some(child));
    } else {
        lemma_bare_below_on_a_trail(child, more);
    }
    assert(0 <= trail[0] < dir.dirs@.len());
}

/// What pruning removes, told by trails: a path goes just where some trail below the
/// root leads to a directory of that path from which no trail leads to a file.
pub proof fn law_pruning_is_told_by_trails(root: Dir, path: Seq<char>)
    ensures
        doomed(root, root.dirs@.len() as int).contains(path) <==> exists|trail: Seq<int>|
            {
                &&& trail.len() > 0
                &&& #[trigger] reached(root, trail) is Some
                &&& reached(root, trail)->0.path@ == path
                &&& forall|more: Seq<int>|
                    (#[trigger] reached(reached(root, trail)->0, more)) is Some ==> !reached(
                        reached(root, trail)->0,
                        more,
                    )->0.has_files
            },
{
    law_pruning_removes_exactly_the_bare_directories(root, path);
    if bare_below(root, path) {
        let trail = lemma_trail_to_the_bare(root, path);
        law_bare_directories_lead_to_no_file(reached(root, trail)->0);
        assert(reached(root, trail) is Some);
    }
    if exists|trail: Seq<int>|
        {
            &&& trail.len() > 0
            &&& #[trigger] reached(root, trail) is Some
            &&& reached(root, trail)->0.path@ == path
            &&& forall|more: Seq<int>|
                (#[trigger] reached(reached(root, trail)->0, more)) is Some ==> !reached(
                    reached(root, trail)->0,
                    more,
                )->0.has_files
        } {
        let trail = choose|trail: Seq<int>|
            {
                &&& trail.len() > 0
                &&& #[trigger] reached(root, trail) is Some
                &&& reached(root, trail)->0.path@ == path
                &&& forall|more: Seq<int>|
                    (#[trigger] reached(reached(root, trail)->0, more)) is Some ==> !reached(
                        reached(root, trail)->0,
                        more,
                    )->0.has_files
            };
        law_bare_directories_lead_to_no_file(reached(root, trail)->0);
        lemma_bare_below_on_a_trail(root, trail);
    }
}

/// The innermost directories go first: what goes inside a directory goes before the
/// directory itself, and after what goes inside and with those listed before it.
pub proof fn law_innermost_directories_go_first(dir: Dir, n: int)
    requires
        0 < n <= dir.dirs@.len(),
    ensures
        doomed(dir, 0) == Seq::<Seq<char>>::empty(),
        ({
            let child = dir.dirs@[n - 1];
            doomed(dir, n) == doomed(dir, n - 1) + doomed(child, child.dirs@.len() as int) + (
            if bare(child) {
                seq![child.path@]
            } else {
                Seq::<Seq<char>>::empty()
            })
        }),
{
    let child = dir.dirs@[n - 1];
    assert(doomed(dir, n) =~= doomed(dir, n - 1) + doomed(child, child.dirs@.len() as int) + (
    if bare(child) {
        seq![child.path@]
    } else {
        Seq::<Seq<char>>::empty()
    }));
}

} // verus!
