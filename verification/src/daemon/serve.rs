//! The serve loop's decisions.
//!
//! The reader hands every frame to a [`Server`], which keeps the state of each
//! logical stream and says what to do next. Sync runs inline (it's a tight
//! request/response), while each build runs on its own task that can
//! independently await a later `ArtifactNeed` from the client without blocking
//! the reader.

use vstd::prelude::*;
use vstd::string::StringExecFns;

use std::collections::HashMap;

use crate::chunk::zstd_decoded;
use crate::daemon::sync::{
    fresh, plain_id, workspace_dir, DeltaView, FileWrite, IncomingView,
    PendingDelta, received, SessionView, SyncError, SyncSession, Targets,
};
use crate::path::inside;
use crate::proto::{BuildRequest, Message, PROTOCOL_VERSION};
use crate::text::{decimal, to_decimal, views};
use crate::transport::{Frame, FrameKind};

verus! {

broadcast use vstd::std_specs::hash::group_hash_axioms;

/// The workspace mirror inside the daemon container, unless the environment
/// names another. The client mounts the workspace's Docker volume here, so the
/// mirror lives entirely in that volume.
pub fn workspace_root(configured: Option<String>) -> (root: String)
    ensures
        match configured {
            Some(dir) => root == dir,
            None => root@ == "/work"@,
        },
{
    match configured {
        Some(dir) => dir,
        None => "/work".to_owned(),
    }
}

/// What a logical stream is used for.
#[derive(Debug)]
enum Stream {
    Sync(SyncSession),
    /// A running build, which may await the client's `ArtifactNeed`.
    Build,
}

/// A stream as contracts speak of it.
pub enum StreamView {
    Sync(SessionView),
    Build,
}

impl View for Stream {
    type V = StreamView;

    closed spec fn view(&self) -> StreamView {
        match self {
            Stream::Sync(session) => StreamView::Sync(session@),
            Stream::Build => StreamView::Build,
        }
    }
}

/// The messages that only a sync stream takes.
#[derive(Debug, Clone, Copy, PartialEq, Eq, Structural)]
pub enum SyncStep {
    SyncManifest,
    FileHeader,
    DeltaRequest,
    DeltaInstructions,
    DeltaEnd,
    RemoteDelete,
    PullRequest,
    SyncComplete,
}

impl SyncStep {
    /// The message's name.
    pub open spec fn text(self) -> Seq<char> {
        match self {
            SyncStep::SyncManifest => "SyncManifest"@,
            SyncStep::FileHeader => "FileHeader"@,
            SyncStep::DeltaRequest => "DeltaRequest"@,
            SyncStep::DeltaInstructions => "DeltaInstructions"@,
            SyncStep::DeltaEnd => "DeltaEnd"@,
            SyncStep::RemoteDelete => "RemoteDelete"@,
            SyncStep::PullRequest => "PullRequest"@,
            SyncStep::SyncComplete => "SyncComplete"@,
        }
    }

    /// The message's name.
    pub fn name(self) -> (name: String)
        ensures
            name@ == self.text(),
    {
        match self {
            SyncStep::SyncManifest => "SyncManifest".to_owned(),
            SyncStep::FileHeader => "FileHeader".to_owned(),
            SyncStep::DeltaRequest => "DeltaRequest".to_owned(),
            SyncStep::DeltaInstructions => "DeltaInstructions".to_owned(),
            SyncStep::DeltaEnd => "DeltaEnd".to_owned(),
            SyncStep::RemoteDelete => "RemoteDelete".to_owned(),
            SyncStep::PullRequest => "PullRequest".to_owned(),
            SyncStep::SyncComplete => "SyncComplete".to_owned(),
        }
    }
}

/// Why a control message was refused.
#[derive(Debug)]
pub enum ServeError {
    /// A message of a sync round came on a stream that has none.
    NotSync { step: SyncStep, stream: u32 },
    /// The session refused the step.
    Sync(SyncError),
    /// A message that a client does not send.
    Unexpected(Message),
}

impl ServeError {
    /// What went wrong, in words, for the errors whose words the library has.
    pub fn message(&self) -> (text: Option<String>)
        ensures
            match *self {
                ServeError::NotSync { step, stream } => text matches Some(t) && t@ == step.text()
                    + " on non-sync stream "@ + decimal(stream as nat),
                ServeError::Sync(e) => text matches Some(t) && t@ == e.text(),
                ServeError::Unexpected(_) => text is None,
            },
    {
        match self {
            ServeError::NotSync { step, stream } => Some(
                step.name().concat(" on non-sync stream ").concat(
                    to_decimal(*stream as u64).as_str(),
                ),
            ),
            ServeError::Sync(e) => Some(e.message()),
            ServeError::Unexpected(_) => None,
        }
    }
}

/// What the loop has to do about a control message.
#[derive(Debug)]
pub enum Action {
    /// Nothing: the state has changed, no more.
    Nothing,
    /// Make the workspace directory, then call [`Server::opened`].
    OpenWorkspace { stream: u32, dir: String },
    /// Scan the mirror and send what [`SyncSession::on_manifest`] makes of it.
    SendManifest { dir: String },
    /// Read the mirror's copy and send its signature.
    SendSignature { path: String, target: String },
    /// Read the mirror's copy, rebuild the file from it and write it.
    Rebuild(PendingDelta),
    /// Carry out deletions and pulls, then acknowledge.
    Complete,
    /// Start a build on its own task.
    StartBuild {
        stream: u32,
        workspace: String,
        request: BuildRequest,
        artifact_globs: Vec<String>,
        linux_image: String,
        wine_image: String,
    },
    /// Tell the build on this stream which artifacts the client needs.
    DeliverNeed { files: Vec<String> },
}

/// The state of every open stream.
#[derive(Debug)]
pub struct Server {
    root: String,
    streams: HashMap<u32, Stream>,
}

/// The server's state as contracts speak of it.
pub struct ServerView {
    /// The workspace mirror.
    pub root: Seq<char>,
    pub streams: Map<u32, StreamView>,
}

impl View for Server {
    type V = ServerView;

    closed spec fn view(&self) -> ServerView {
        ServerView { root: self.root@, streams: self.streams@.map_values(|s: Stream| s@) }
    }
}

impl ServerView {
    /// The session on a stream, if it is a sync stream.
    pub open spec fn session(self, stream: u32) -> Option<SessionView> {
        if self.streams.contains_key(stream) {
            match self.streams[stream] {
                StreamView::Sync(session) => Some(session),
                StreamView::Build => None,
            }
        } else {
            None
        }
    }

    /// Whether a build runs on a stream.
    pub open spec fn builds(self, stream: u32) -> bool {
        self.streams.contains_key(stream) && self.streams[stream] == StreamView::Build
    }

    /// The state with another session on a stream.
    pub open spec fn with(self, stream: u32, session: SessionView) -> ServerView {
        ServerView { streams: self.streams.insert(stream, StreamView::Sync(session)), ..self }
    }

    /// Every session answers on the stream that it is on, and works in the one
    /// workspace.
    pub open spec fn wf(self) -> bool {
        forall|k: u32|
            #![trigger self.session(k)]
            self.session(k) matches Some(s) ==> s.stream == k && s.root == self.root
    }
}

/// How a message of a sync round changes the session on its stream, and what
/// is to be done about it.
pub open spec fn sync_step(session: SessionView, msg: Message) -> Option<SessionView> {
    match msg {
        Message::FileHeader { path, len, mode, compressed } => Some(
            SessionView {
                incoming: Some(
                    IncomingView { path: path@, len, mode, compressed, buf: Seq::empty() },
                ),
                ..session
            },
        ),
        Message::DeltaInstructions { path, len, mode, ops } => Some(
            SessionView {
                incoming_delta: Some(
                    DeltaView { path: path@, len, mode, ops: ops@, literals: Seq::empty() },
                ),
                ..session
            },
        ),
        Message::DeltaEnd { .. } => Some(SessionView { incoming_delta: None, ..session }),
        Message::RemoteDelete { files } => Some(
            SessionView { pending_delete: views(files@), ..session },
        ),
        Message::PullRequest { files } => Some(SessionView { pending_pull: views(files@), ..session }),
        Message::SyncManifest { .. } => Some(session),
        Message::DeltaRequest { .. } => Some(session),
        Message::SyncComplete => Some(session),
        _ => None,
    }
}

/// Which message of a sync round this is, if it is one.
pub open spec fn step_of(msg: Message) -> Option<SyncStep> {
    match msg {
        Message::SyncManifest { .. } => Some(SyncStep::SyncManifest),
        Message::FileHeader { .. } => Some(SyncStep::FileHeader),
        Message::DeltaRequest { .. } => Some(SyncStep::DeltaRequest),
        Message::DeltaInstructions { .. } => Some(SyncStep::DeltaInstructions),
        Message::DeltaEnd { .. } => Some(SyncStep::DeltaEnd),
        Message::RemoteDelete { .. } => Some(SyncStep::RemoteDelete),
        Message::PullRequest { .. } => Some(SyncStep::PullRequest),
        Message::SyncComplete => Some(SyncStep::SyncComplete),
        _ => None,
    }
}

/// What a sync stream's session answers to a message of the round.
pub open spec fn sync_outcome(
    session: SessionView,
    msg: Message,
    out: Result<Action, ServeError>,
) -> bool {
    match msg {
        Message::SyncManifest { .. } => out matches Ok(Action::SendManifest { dir }) && dir@
            == session.root,
        Message::DeltaRequest { path } => match out {
            Ok(Action::SendSignature { path: p, target }) => p == path && inside(session.root, path@)
                == Some(target@),
            Err(ServeError::Sync(SyncError::Escapes(rel))) => inside(session.root, path@) is None
                && rel@ == path@,
            _ => false,
        },
        Message::DeltaEnd { .. } => match (session.incoming_delta, out) {
            (None, _) => out == Err::<Action, ServeError>(ServeError::Sync(SyncError::NoDelta)),
            (Some(d), Ok(Action::Rebuild(p))) => p.delta@ == d && inside(session.root, d.path)
                == Some(p.target@),
            (Some(d), Err(ServeError::Sync(SyncError::Escapes(rel)))) => inside(
                session.root,
                d.path,
            ) is None && rel@ == d.path,
            _ => false,
        },
        Message::SyncComplete => out matches Ok(Action::Complete),
        _ => out matches Ok(Action::Nothing),
    }
}

/// What comes of a data frame: its bytes go to the session on the stream, if it
/// is a sync stream.
pub open spec fn data_outcome(
    before: ServerView,
    stream: u32,
    bytes: Seq<u8>,
    after: ServerView,
    out: Result<Option<FileWrite>, SyncError>,
) -> bool {
    match before.session(stream) {
        None => after == before && out matches Ok(None),
        Some(session) => match (session.incoming_delta, session.incoming) {
            (Some(d), _) => {
                &&& out matches Ok(None)
                &&& after == before.with(
                    stream,
                    SessionView {
                        incoming_delta: Some(DeltaView { literals: d.literals + bytes, ..d }),
                        ..session
                    },
                )
            },
            (None, None) => {
                &&& out == Err::<Option<FileWrite>, SyncError>(SyncError::NoFileHeader)
                &&& after == before.with(stream, session)
            },
            (None, Some(i)) => {
                let inc = IncomingView { buf: i.buf + bytes, ..i };
                &&& after == before.with(
                    stream,
                    SessionView {
                        incoming: if inc.complete() {
                            None
                        } else {
                            Some(inc)
                        },
                        ..session
                    },
                )
                &&& received(inc, session.root, out)
            },
        },
    }
}

/// What the loop has to do about a frame.
#[derive(Debug)]
pub enum FrameStep {
    /// Nothing more.
    Done,
    /// Write a file, then call [`Server::on_written`].
    Write(FileWrite),
    /// Decode the control message and hand it to [`Server::handle_control`].
    Decode,
}

impl Server {
    /// A server with no open stream.
    pub fn new(root: String) -> (server: Server)
        ensures
            server@.root == root@,
            server@.streams == Map::<u32, StreamView>::empty(),
            server@.wf(),
    {
        let server = Server { root, streams: HashMap::new() };
        assert(server@.streams =~= Map::<u32, StreamView>::empty());
        server
    }

    fn put(&mut self, stream: u32, state: Stream)
        ensures
            final(self)@ == (ServerView {
                streams: old(self)@.streams.insert(stream, state@),
                ..old(self)@
            }),
    {
        self.streams.insert(stream, state);
        assert(self@.streams =~= old(self)@.streams.insert(stream, state@));
    }

    /// Takes the session off a sync stream; any other stream stays as it is.
    fn take(&mut self, stream: u32) -> (session: Option<SyncSession>)
        ensures
            match session {
                Some(s) => old(self)@.session(stream) == Some(s@) && final(self)@ == (ServerView {
                    streams: old(self)@.streams.remove(stream),
                    ..old(self)@
                }),
                None => old(self)@.session(stream) is None && final(self)@ == old(self)@,
            },
    {
        match self.streams.remove(&stream) {
            Some(Stream::Sync(session)) => {
                assert(self@.streams =~= old(self)@.streams.remove(stream));
                Some(session)
            },
            Some(Stream::Build) => {
                self.streams.insert(stream, Stream::Build);
                assert(self@.streams =~= old(self)@.streams);
                None
            },
            None => {
                assert(self@.streams =~= old(self)@.streams);
                None
            },
        }
    }

    /// Puts a session back on the stream that it was taken off.
    fn restore(&mut self, stream: u32, session: SyncSession, Ghost(before): Ghost<ServerView>)
        requires
            before.streams.contains_key(stream),
            old(self)@ == (ServerView { streams: before.streams.remove(stream), ..before }),
        ensures
            final(self)@ == before.with(stream, session@),
    {
        self.put(stream, Stream::Sync(session));
        assert(self@.streams =~= before.with(stream, session@).streams);
    }

    /// Register the sync stream whose workspace directory has been made.
    pub fn opened(&mut self, stream: u32)
        requires
            old(self)@.wf(),
        ensures
            final(self)@ == old(self)@.with(stream, fresh(stream, old(self)@.root)),
            final(self)@.wf(),
    {
        let session = SyncSession::open(stream, self.root.clone());
        self.put(stream, Stream::Sync(session));
        assert(self@ == old(self)@.with(stream, fresh(stream, old(self)@.root)));
        proof {
            lemma_with_wf(old(self)@, stream, fresh(stream, old(self)@.root));
        }
    }

    /// A control message came in on a stream.
    pub fn handle_control(&mut self, stream: u32, msg: Message) -> (out: Result<Action, ServeError>)
        requires
            old(self)@.wf(),
        ensures
            final(self)@.wf(),
            match step_of(msg) {
                Some(step) => match old(self)@.session(stream) {
                    None => {
                        &&& out == Err::<Action, ServeError>(ServeError::NotSync { step, stream })
                        &&& final(self)@ == old(self)@
                    },
                    Some(session) => {
                        &&& sync_outcome(session, msg, out)
                        &&& final(self)@ == old(self)@.with(stream, sync_step(session, msg)->0)
                    },
                },
                None => match msg {
                    Message::OpenSync { stream: s, workspace } => {
                        &&& final(self)@ == old(self)@
                        &&& match out {
                            Ok(Action::OpenWorkspace { stream: t, dir }) => plain_id(workspace@) && t
                                == s && dir@ == old(self)@.root,
                            Err(ServeError::Sync(SyncError::InvalidWorkspace(id))) => !plain_id(
                                workspace@,
                            ) && id@ == workspace@,
                            _ => false,
                        }
                    },
                    Message::OpenBuild {
                        stream: s,
                        workspace,
                        request,
                        artifact_globs,
                        linux_image,
                        wine_image,
                    } => {
                        &&& out == Ok::<Action, ServeError>(
                            Action::StartBuild {
                                stream: s,
                                workspace,
                                request,
                                artifact_globs,
                                linux_image,
                                wine_image,
                            },
                        )
                        &&& final(self)@ == (ServerView {
                            streams: old(self)@.streams.insert(s, StreamView::Build),
                            ..old(self)@
                        })
                    },
                    Message::ArtifactNeed { files } => {
                        &&& final(self)@ == old(self)@
                        &&& out == Ok::<Action, ServeError>(
                            if old(self)@.builds(stream) {
                                Action::DeliverNeed { files }
                            } else {
                                Action::Nothing
                            },
                        )
                    },
                    other => {
                        &&& final(self)@ == old(self)@
                        &&& out == Err::<Action, ServeError>(ServeError::Unexpected(other))
                    },
                },
            },
    {
        let ghost before = self@;
        match msg {
            Message::OpenSync { stream: s, workspace } => match workspace_dir(
                workspace.as_str(),
                self.root.as_str(),
            ) {
                Ok(dir) => Ok(Action::OpenWorkspace { stream: s, dir }),
                Err(e) => Err(ServeError::Sync(e)),
            },
            Message::SyncManifest { .. } => {
                let session = match self.take(stream) {
                    Some(session) => session,
                    None => {
                        return Err(ServeError::NotSync { step: SyncStep::SyncManifest, stream });
                    },
                };
                let dir = session.root().to_owned();
                proof {
                    lemma_with_wf(before, stream, session@);
                }
                self.restore(stream, session, Ghost(before));
                Ok(Action::SendManifest { dir })
            },
            Message::FileHeader { path, len, mode, compressed } => {
                let mut session = match self.take(stream) {
                    Some(session) => session,
                    None => {
                        return Err(ServeError::NotSync { step: SyncStep::FileHeader, stream });
                    },
                };
                session.on_file_header(path, len, mode, compressed);
                proof {
                    lemma_with_wf(before, stream, session@);
                }
                self.restore(stream, session, Ghost(before));
                Ok(Action::Nothing)
            },
            Message::DeltaRequest { path } => {
                let session = match self.take(stream) {
                    Some(session) => session,
                    None => {
                        return Err(ServeError::NotSync { step: SyncStep::DeltaRequest, stream });
                    },
                };
                let target = session.delta_base(path.as_str());
                proof {
                    lemma_with_wf(before, stream, session@);
                }
                self.restore(stream, session, Ghost(before));
                match target {
                    Ok(target) => Ok(Action::SendSignature { path, target }),
                    Err(e) => Err(ServeError::Sync(e)),
                }
            },
            Message::DeltaInstructions { path, len, mode, ops } => {
                let mut session = match self.take(stream) {
                    Some(session) => session,
                    None => {
                        return Err(
                            ServeError::NotSync { step: SyncStep::DeltaInstructions, stream },
                        );
                    },
                };
                session.on_delta_instructions(path, len, mode, ops);
                proof {
                    lemma_with_wf(before, stream, session@);
                }
                self.restore(stream, session, Ghost(before));
                Ok(Action::Nothing)
            },
            Message::DeltaEnd { .. } => {
                let mut session = match self.take(stream) {
                    Some(session) => session,
                    None => {
                        return Err(ServeError::NotSync { step: SyncStep::DeltaEnd, stream });
                    },
                };
                let pending = session.on_delta_end();
                proof {
                    lemma_with_wf(before, stream, session@);
                }
                self.restore(stream, session, Ghost(before));
                match pending {
                    Ok(p) => Ok(Action::Rebuild(p)),
                    Err(e) => Err(ServeError::Sync(e)),
                }
            },
            Message::RemoteDelete { files } => {
                let mut session = match self.take(stream) {
                    Some(session) => session,
                    None => {
                        return Err(ServeError::NotSync { step: SyncStep::RemoteDelete, stream });
                    },
                };
                session.on_remote_delete(files);
                proof {
                    lemma_with_wf(before, stream, session@);
                }
                self.restore(stream, session, Ghost(before));
                Ok(Action::Nothing)
            },
            Message::PullRequest { files } => {
                let mut session = match self.take(stream) {
                    Some(session) => session,
                    None => {
                        return Err(ServeError::NotSync { step: SyncStep::PullRequest, stream });
                    },
                };
                session.on_pull_request(files);
                proof {
                    lemma_with_wf(before, stream, session@);
                }
                self.restore(stream, session, Ghost(before));
                Ok(Action::Nothing)
            },
            Message::SyncComplete => {
                let session = match self.take(stream) {
                    Some(session) => session,
                    None => {
                        return Err(ServeError::NotSync { step: SyncStep::SyncComplete, stream });
                    },
                };
                proof {
                    lemma_with_wf(before, stream, session@);
                }
                self.restore(stream, session, Ghost(before));
                Ok(Action::Complete)
            },
            Message::OpenBuild {
                stream: s,
                workspace,
                request,
                artifact_globs,
                linux_image,
                wine_image,
            } => {
                self.put(s, Stream::Build);
                proof {
                    lemma_without_wf(before, s, self@);
                }
                Ok(
                    Action::StartBuild {
                        stream: s,
                        workspace,
                        request,
                        artifact_globs,
                        linux_image,
                        wine_image,
                    },
                )
            },
            Message::ArtifactNeed { files } => {
                let building = match self.streams.get(&stream) {
                    Some(Stream::Build) => true,
                    _ => false,
                };
                if building {
                    Ok(Action::DeliverNeed { files })
                } else {
                    Ok(Action::Nothing)
                }
            },
            other => Err(ServeError::Unexpected(other)),
        }
    }

    /// A data frame came in: its bytes go to the session on the stream, if it
    /// is a sync stream. Returns the write to carry out when a file is complete.
    pub fn on_data(&mut self, stream: u32, bytes: &[u8]) -> (out: Result<
        Option<FileWrite>,
        SyncError,
    >)
        requires
            old(self)@.wf(),
        ensures
            final(self)@.wf(),
            data_outcome(old(self)@, stream, bytes@, final(self)@, out),
    {
        let ghost before = self@;
        match self.take(stream) {
            None => Ok(None),
            Some(mut session) => {
                let out = session.on_data(bytes);
                proof {
                    lemma_with_wf(before, stream, session@);
                }
                self.restore(stream, session, Ghost(before));
                out
            },
        }
    }

    /// A close frame came in: the stream is forgotten.
    pub fn on_close(&mut self, stream: u32)
        requires
            old(self)@.wf(),
        ensures
            final(self)@.wf(),
            final(self)@ == (ServerView {
                streams: old(self)@.streams.remove(stream),
                ..old(self)@
            }),
    {
        let ghost before = self@;
        self.streams.remove(&stream);
        assert(self@.streams =~= before.streams.remove(stream));
        proof {
            lemma_without_wf(before, stream, self@);
        }
    }

    /// A frame came in.
    pub fn on_frame(&mut self, frame: &Frame) -> (out: Result<FrameStep, SyncError>)
        requires
            old(self)@.wf(),
        ensures
            final(self)@.wf(),
            match frame.kind {
                FrameKind::Control => {
                    &&& out == Ok::<FrameStep, SyncError>(FrameStep::Decode)
                    &&& final(self)@ == old(self)@
                },
                FrameKind::Close => {
                    &&& out == Ok::<FrameStep, SyncError>(FrameStep::Done)
                    &&& final(self)@ == (ServerView {
                        streams: old(self)@.streams.remove(frame.stream),
                        ..old(self)@
                    })
                },
                FrameKind::Data => match out {
                    Ok(FrameStep::Decode) => false,
                    Ok(FrameStep::Done) => data_outcome(
                        old(self)@,
                        frame.stream,
                        frame.payload@,
                        final(self)@,
                        Ok(None),
                    ),
                    Ok(FrameStep::Write(w)) => data_outcome(
                        old(self)@,
                        frame.stream,
                        frame.payload@,
                        final(self)@,
                        Ok(Some(w)),
                    ),
                    Err(e) => data_outcome(
                        old(self)@,
                        frame.stream,
                        frame.payload@,
                        final(self)@,
                        Err(e),
                    ),
                },
            },
    {
        match frame.kind {
            FrameKind::Control => Ok(FrameStep::Decode),
            FrameKind::Close => {
                self.on_close(frame.stream);
                Ok(FrameStep::Done)
            },
            FrameKind::Data => match self.on_data(frame.stream, frame.payload.as_slice()) {
                Ok(Some(w)) => Ok(FrameStep::Write(w)),
                Ok(None) => Ok(FrameStep::Done),
                Err(e) => Err(e),
            },
        }
    }

    /// How many files the session on a stream has written.
    pub fn applied(&self, stream: u32) -> (applied: Option<u64>)
        ensures
            match applied {
                Some(n) => self@.session(stream) matches Some(s) && s.applied == n,
                None => self@.session(stream) is None,
            },
    {
        match self.streams.get(&stream) {
            Some(Stream::Sync(session)) => Some(session.applied()),
            _ => None,
        }
    }

    /// Count a file that has been written for a sync stream.
    pub fn on_written(&mut self, stream: u32)
        requires
            old(self)@.wf(),
            old(self)@.session(stream) matches Some(s) ==> s.applied < u64::MAX,
        ensures
            final(self)@.wf(),
            match old(self)@.session(stream) {
                None => final(self)@ == old(self)@,
                Some(s) => final(self)@ == old(self)@.with(
                    stream,
                    SessionView { applied: (s.applied + 1) as u64, ..s },
                ),
            },
    {
        let ghost before = self@;
        if let Some(mut session) = self.take(stream) {
            session.on_written();
            proof {
                lemma_with_wf(before, stream, session@);
            }
            self.restore(stream, session, Ghost(before));
        }
    }

    /// The files that a round on a sync stream deletes from the mirror.
    pub fn take_deletes(&mut self, stream: u32) -> (out: Option<Targets>)
        requires
            old(self)@.wf(),
        ensures
            final(self)@.wf(),
            match old(self)@.session(stream) {
                None => final(self)@ == old(self)@ && out is None,
                Some(s) => {
                    &&& final(self)@ == old(self)@.with(
                        stream,
                        SessionView { pending_delete: Seq::empty(), ..s },
                    )
                    &&& out matches Some(t) && t.resolve(s.root, s.pending_delete)
                },
            },
    {
        let ghost before = self@;
        match self.take(stream) {
            None => None,
            Some(mut session) => {
                let out = session.take_deletes();
                proof {
                    lemma_with_wf(before, stream, session@);
                }
                self.restore(stream, session, Ghost(before));
                Some(out)
            },
        }
    }

    /// The files that a round on a sync stream sends back.
    pub fn take_pulls(&mut self, stream: u32) -> (out: Option<Targets>)
        requires
            old(self)@.wf(),
        ensures
            final(self)@.wf(),
            match old(self)@.session(stream) {
                None => final(self)@ == old(self)@ && out is None,
                Some(s) => {
                    &&& final(self)@ == old(self)@.with(
                        stream,
                        SessionView { pending_pull: Seq::empty(), ..s },
                    )
                    &&& out matches Some(t) && t.resolve(s.root, s.pending_pull)
                },
            },
    {
        let ghost before = self@;
        match self.take(stream) {
            None => None,
            Some(mut session) => {
                let out = session.take_pulls();
                proof {
                    lemma_with_wf(before, stream, session@);
                }
                self.restore(stream, session, Ghost(before));
                Some(out)
            },
        }
    }

    /// The session on a sync stream, to read.
    pub fn session(&self, stream: u32) -> (session: Option<&SyncSession>)
        ensures
            match session {
                Some(s) => self@.session(stream) == Some(s@),
                None => self@.session(stream) is None,
            },
    {
        match self.streams.get(&stream) {
            Some(Stream::Sync(session)) => Some(session),
            _ => None,
        }
    }
}

proof fn lemma_with_wf(before: ServerView, stream: u32, session: SessionView)
    requires
        before.wf(),
        session.stream == stream,
        session.root == before.root,
    ensures
        before.with(stream, session).wf(),
{
    let after = before.with(stream, session);
    assert forall|k: u32| #![trigger after.session(k)] after.session(k) is Some implies
        after.session(k)->0.stream == k && after.session(k)->0.root == after.root by {
        if k != stream {
            assert(after.session(k) == before.session(k));
        }
    }
}

proof fn lemma_without_wf(before: ServerView, stream: u32, after: ServerView)
    requires
        before.wf(),
        after.root == before.root,
        after.streams == before.streams.insert(stream, StreamView::Build) || after.streams
            == before.streams.remove(stream),
    ensures
        after.wf(),
{
    assert forall|k: u32| #![trigger after.session(k)] after.session(k) is Some implies
        after.session(k)->0.stream == k && after.session(k)->0.root == after.root by {
        if k != stream {
            assert(after.session(k) == before.session(k));
        }
    }
}

/// Streams are independent: what happens to one stream's session leaves every
/// other stream as it is.
pub proof fn law_streams_are_independent(
    server: ServerView,
    stream: u32,
    session: SessionView,
    other: u32,
)
    requires
        other != stream,
    ensures
        server.with(stream, session).session(other) == server.session(other),
        server.with(stream, session).builds(other) == server.builds(other),
        server.with(stream, session).session(stream) == Some(session),
{
}

/// What the daemon answers to a client's first message, and whether it goes on.
pub open spec fn answers(first: Message, version: Seq<char>, answer: (Message, bool)) -> bool {
    let ok = first matches Message::Hello { protocol, .. } && protocol == PROTOCOL_VERSION;
    &&& answer.1 == ok
    &&& answer.0 matches Message::Welcome { protocol, daemon_version, ok: o, message } && protocol
        == PROTOCOL_VERSION && daemon_version@ == version && o == ok && message@ == if ok {
        "ok"@
    } else {
        "protocol version mismatch"@
    }
}

/// The answer to a client's first message: whether it is accepted, and what
/// it is told. A mismatch is refused rather than risk a silently corrupt
/// session.
pub fn handshake(first: &Message, version: &str) -> (answer: (Message, bool))
    ensures
        answers(*first, version@, answer),
{
    let ok = match first {
        Message::Hello { protocol, .. } => *protocol == PROTOCOL_VERSION,
        _ => false,
    };
    let message = if ok {
        "ok".to_owned()
    } else {
        "protocol version mismatch".to_owned()
    };
    (
        Message::Welcome {
            protocol: PROTOCOL_VERSION,
            daemon_version: version.to_owned(),
            ok,
            message,
        },
        ok,
    )
}

/// A compressed push over the wire: a header and then one data frame on a sync
/// stream make the server write the packed bytes' content to the file's place in
/// the mirror, and leave the stream with no transfer in progress. Unpacking may
/// fail for want of memory. While a delta is in progress, data belongs to it.
pub proof fn law_push_over_the_wire(
    before: ServerView,
    stream: u32,
    header: Message,
    packed: Seq<u8>,
    data: Seq<u8>,
    after: ServerView,
    out: Result<Option<FileWrite>, SyncError>,
)
    requires
        before.session(stream) is Some,
        before.session(stream)->0.incoming_delta is None,
        header matches Message::FileHeader { compressed, .. } && compressed,
        zstd_decoded(packed) == Some(data),
        data_outcome(
            before.with(stream, sync_step(before.session(stream)->0, header)->0),
            stream,
            packed,
            after,
            out,
        ),
    ensures
        ({
            let session = before.session(stream)->0;
            &&& after.session(stream) == Some(SessionView { incoming: None, ..session })
            &&& match out {
                Ok(None) => false,
                Ok(Some(w)) => inside(session.root, header->FileHeader_path@) == Some(w.target@)
                    && w.data@ == data && w.mode == header->FileHeader_mode,
                Err(SyncError::Codec(_)) => true,
                Err(_) => inside(session.root, header->FileHeader_path@) is None,
            }
        }),
{
    let session = before.session(stream)->0;
    let begun = before.with(stream, sync_step(session, header)->0);
    assert(begun.session(stream) == Some(sync_step(session, header)->0));
    assert(Seq::<u8>::empty() + packed =~= packed);
    let idle = SessionView { incoming: None, ..sync_step(session, header)->0 };
    assert(begun.with(stream, idle).session(stream) == Some(idle));
}

/// A delta over the wire: instructions, a data frame with the packed literals
/// and the end make the server hand out the delta just as the client sent it,
/// with the mirror file that it applies to.
pub proof fn law_delta_over_the_wire(
    before: ServerView,
    stream: u32,
    instructions: Message,
    packed: Seq<u8>,
    middle: ServerView,
    taken: Result<Option<FileWrite>, SyncError>,
    end: Message,
    out: Result<Action, ServeError>,
)
    requires
        before.session(stream) is Some,
        instructions is DeltaInstructions,
        end is DeltaEnd,
        data_outcome(
            before.with(stream, sync_step(before.session(stream)->0, instructions)->0),
            stream,
            packed,
            middle,
            taken,
        ),
        middle.session(stream) is Some ==> sync_outcome(middle.session(stream)->0, end, out),
    ensures
        taken matches Ok(None),
        ({
            let root = before.session(stream)->0.root;
            let path = instructions->DeltaInstructions_path@;
            match out {
                Ok(Action::Rebuild(p)) => {
                    &&& inside(root, path) == Some(p.target@)
                    &&& p.delta.ops@ == instructions->DeltaInstructions_ops@
                    &&& p.delta.len == instructions->DeltaInstructions_len
                    &&& p.delta.mode == instructions->DeltaInstructions_mode
                    &&& p.delta.literals@ == packed
                },
                Err(ServeError::Sync(SyncError::Escapes(_))) => inside(root, path) is None,
                _ => false,
            }
        }),
{
    let session = before.session(stream)->0;
    let begun = sync_step(session, instructions)->0;
    assert(before.with(stream, begun).session(stream) == Some(begun));
    assert(Seq::<u8>::empty() + packed =~= packed);
    let d = begun.incoming_delta->0;
    let filled = SessionView {
        incoming_delta: Some(DeltaView { literals: d.literals + packed, ..d }),
        ..begun
    };
    assert(middle == before.with(stream, begun).with(stream, filled));
    assert(middle.session(stream) == Some(filled));
}

/// What the messages of a round leave in the session: a header begins a file of
/// its own path, length and mode with no bytes yet, instructions begin a delta,
/// the two requests are kept file by file, and everything else stays as it was.
pub proof fn law_session_keeps_what_it_was_told(session: SessionView, msg: Message)
    requires
        sync_step(session, msg) is Some,
    ensures
        ({
            let s = sync_step(session, msg)->0;
            &&& s.stream == session.stream && s.root == session.root && s.applied == session.applied
            &&& match msg {
                Message::FileHeader { path, len, mode, compressed } => s.incoming matches Some(i)
                    && i.path == path@ && i.len == len && i.mode == mode && i.compressed == compressed
                    && i.buf.len() == 0,
                _ => s.incoming == session.incoming,
            }
            &&& match msg {
                Message::DeltaInstructions { path, len, mode, ops } => s.incoming_delta matches Some(
                    d,
                ) && d.path == path@ && d.len == len && d.mode == mode && d.ops == ops@
                    && d.literals.len() == 0,
                Message::DeltaEnd { .. } => s.incoming_delta is None,
                _ => s.incoming_delta == session.incoming_delta,
            }
            &&& match msg {
                Message::RemoteDelete { files } => s.pending_delete.len() == files@.len() && forall|
                    i: int,
                |
                    0 <= i < files@.len() ==> #[trigger] s.pending_delete[i] == files@[i]@,
                _ => s.pending_delete == session.pending_delete,
            }
            &&& match msg {
                Message::PullRequest { files } => s.pending_pull.len() == files@.len() && forall|
                    i: int,
                |
                    0 <= i < files@.len() ==> #[trigger] s.pending_pull[i] == files@[i]@,
                _ => s.pending_pull == session.pending_pull,
            }
        }),
{
}

/// The messages of a round are those that a session takes.
pub proof fn law_round_messages_are_taken(session: SessionView, msg: Message)
    ensures
        sync_step(session, msg) is Some <==> step_of(msg) is Some,
        sync_step(session, msg) is Some <==> (msg is SyncManifest || msg is FileHeader
            || msg is DeltaRequest || msg is DeltaInstructions || msg is DeltaEnd
            || msg is RemoteDelete || msg is PullRequest || msg is SyncComplete),
{
}

/// Raw data is gathered: each data frame's bytes go behind those that came before
/// it, until there are as many as the header said, and then all of them are
/// written.
pub proof fn law_raw_data_is_gathered(
    before: ServerView,
    stream: u32,
    bytes: Seq<u8>,
    after: ServerView,
    out: Result<Option<FileWrite>, SyncError>,
)
    requires
        before.session(stream) matches Some(s) && s.incoming_delta is None && (
        s.incoming matches Some(i) && !i.compressed),
        data_outcome(before, stream, bytes, after, out),
    ensures
        ({
            let s = before.session(stream)->0;
            let i = s.incoming->0;
            let whole = i.buf + bytes;
            &&& after.session(stream) matches Some(t) && t.root == s.root && t.applied == s.applied
                && t.pending_delete == s.pending_delete && t.pending_pull == s.pending_pull && if
            whole.len() < i.len {
                t.incoming matches Some(j) && j.buf == whole && j.path == i.path && j.len == i.len
                    && j.mode == i.mode && !j.compressed
            } else {
                t.incoming is None
            }
            &&& (whole.len() < i.len) == (out matches Ok(None))
            &&& (out matches Ok(Some(w)) ==> w.data@ == whole && w.mode == i.mode && inside(
                s.root,
                i.path,
            ) == Some(w.target@))
            &&& out is Err ==> inside(s.root, i.path) is None
        }),
{
    let s = before.session(stream)->0;
    let i = s.incoming->0;
    let inc = IncomingView { buf: i.buf + bytes, ..i };
    let t = SessionView {
        incoming: if inc.complete() {
            None
        } else {
            Some(inc)
        },
        ..s
    };
    assert(before.with(stream, t).session(stream) == Some(t));
}

/// What the server does about a round's requests, told by where they lead.
pub proof fn law_round_is_answered(
    session: SessionView,
    msg: Message,
    out: Result<Action, ServeError>,
)
    requires
        sync_outcome(session, msg, out),
    ensures
        msg is SyncManifest ==> (out matches Ok(Action::SendManifest { dir }) && dir@
            == session.root),
        msg matches Message::DeltaRequest { path } && inside(session.root, path@) is Some ==> (
        out matches Ok(Action::SendSignature { path: p, target }) && p@
            == msg->DeltaRequest_path@ && Some(target@) == inside(
            session.root,
            msg->DeltaRequest_path@,
        )),
        msg is DeltaEnd && session.incoming_delta is None ==> out is Err,
        msg is SyncComplete ==> (out matches Ok(Action::Complete)),
        msg is FileHeader || msg is DeltaInstructions || msg is RemoteDelete || msg is PullRequest
            ==> (out matches Ok(Action::Nothing)),
{
}

/// A stream is a sync stream, a build stream, or not there.
pub proof fn law_stream_has_one_role(server: ServerView, stream: u32)
    ensures
        server.streams.contains_key(stream) <==> server.session(stream) is Some || server.builds(
            stream,
        ),
        !(server.session(stream) is Some && server.builds(stream)),
        server.session(stream) matches Some(s) ==> server.streams[stream] == StreamView::Sync(s),
        server.builds(stream) ==> server.streams[stream] == StreamView::Build,
{
}

/// Data that belongs to no file: on a stream without a session it is dropped,
/// while a delta is in progress it is the delta's, and otherwise it is refused.
pub proof fn law_data_without_a_file(
    before: ServerView,
    stream: u32,
    bytes: Seq<u8>,
    after: ServerView,
    out: Result<Option<FileWrite>, SyncError>,
)
    requires
        data_outcome(before, stream, bytes, after, out),
    ensures
        before.session(stream) is None ==> after == before && (out matches Ok(None)),
        before.session(stream) matches Some(s) && s.incoming_delta is Some ==> (out matches Ok(None))
            && {
            let s = before.session(stream)->0;
            let d = s.incoming_delta->0;
            after.session(stream) == Some(
                SessionView {
                    incoming_delta: Some(DeltaView { literals: d.literals + bytes, ..d }),
                    ..s
                },
            )
        },
        before.session(stream) matches Some(s) && s.incoming_delta is None && s.incoming is None
            ==> out == Err::<Option<FileWrite>, SyncError>(SyncError::NoFileHeader)
            && after.session(stream) == before.session(stream),
        forall|k: u32|
            k != stream ==> #[trigger] after.session(k) == before.session(k) && after.builds(k)
                == before.builds(k),
{
}

/// The messages of a round are called by their own names.
pub proof fn law_round_messages_are_called_by_name(msg: Message)
    ensures
        step_of(msg) == Some(SyncStep::SyncManifest) <==> msg is SyncManifest,
        step_of(msg) == Some(SyncStep::FileHeader) <==> msg is FileHeader,
        step_of(msg) == Some(SyncStep::DeltaRequest) <==> msg is DeltaRequest,
        step_of(msg) == Some(SyncStep::DeltaInstructions) <==> msg is DeltaInstructions,
        step_of(msg) == Some(SyncStep::DeltaEnd) <==> msg is DeltaEnd,
        step_of(msg) == Some(SyncStep::RemoteDelete) <==> msg is RemoteDelete,
        step_of(msg) == Some(SyncStep::PullRequest) <==> msg is PullRequest,
        step_of(msg) == Some(SyncStep::SyncComplete) <==> msg is SyncComplete,
{
}

} // verus!
