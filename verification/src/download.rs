//! The decisions of a download session: which peers to connect to, when to save
//! a checkpoint, and when the download is over.

use vstd::prelude::*;

use crate::error::{Error, PeerError, Result};
use crate::metainfo::{piece_count_of, Metainfo, Torrent};
use crate::peer_task::all_done;
use crate::piece_manager::{count, PieceManager, PieceState, Pieces};
use crate::resume::{checkpoint_of, lemma_checkpoint_lists_done, ResumeState, Saved};
use crate::text::{after_prefix, chars_of, has_prefix, hex_text};
use crate::tracker::Event;
use crate::types::PeerAddr;

verus! {

/// High-level state of the download session.
#[derive(Debug, Clone, Copy, PartialEq, Eq, Structural)]
pub enum DownloadState {
    Connecting,
    Downloading,
    Complete,
}

/// How many seconds pass between two reports.
pub const REPORT_SECONDS: u64 = 1;

/// How many peers are asked for the metadata of a magnet link.
pub const METADATA_PEERS: usize = 20;

/// Whether the torrent is known from a magnet link only, so that its metadata
/// has to be fetched from peers before anything can be downloaded.
pub fn needs_metadata(meta: &Metainfo) -> (r: bool)
    ensures
        r == (piece_count_of(meta@) == 0),
{
    meta.piece_count() == 0
}

/// The first peers of a list, up to three times as many as may be connected at once.
pub open spec fn first_peers(peers: Seq<PeerAddr>, max_peers: int) -> Seq<PeerAddr> {
    peers.take(
        if peers.len() <= max_peers * 3 {
            peers.len() as int
        } else {
            max_peers * 3
        },
    )
}

/// The peers to connect to, of those that were found: up to three times as many
/// as may be connected at once.
pub fn peers_to_try(peers: &Vec<PeerAddr>, any_responded: bool, max_peers: usize) -> (r: Result<
    Vec<PeerAddr>,
>)
    requires
        max_peers * 3 <= usize::MAX,
    ensures
        match r {
            Ok(list) => peers@.len() > 0 && list@ == first_peers(peers@, max_peers as int),
            Err(Error::EmptySwarm) => peers@.len() == 0 && any_responded,
            Err(Error::NoTrackers) => peers@.len() == 0 && !any_responded,
            Err(_) => false,
        },
{
    if peers.len() == 0 {
        return Err(
            if any_responded {
                Error::EmptySwarm
            } else {
                Error::NoTrackers
            },
        );
    }
    let most: usize = max_peers * 3;
    let n: usize = if peers.len() <= most {
        peers.len()
    } else {
        most
    };
    let mut list: Vec<PeerAddr> = Vec::new();
    let mut i: usize = 0;
    while i < n
        invariant
            i <= n <= peers.len(),
            list@ == peers@.take(i as int),
        decreases n - i,
    {
        list.push(peers[i]);
        i = i + 1;
        assert(list@ =~= peers@.take(i as int));
    }
    Ok(list)
}

/// The peer to ask for metadata after `tried` of them could not give it.
pub fn metadata_peer(peers: &Vec<PeerAddr>, tried: usize) -> (r: Result<PeerAddr>)
    ensures
        match r {
            Ok(peer) => tried < peers@.len() && tried < METADATA_PEERS && peer
                == peers@[tried as int],
            Err(Error::NoTrackers) => peers@.len() == 0,
            Err(Error::Peer(PeerError::MetadataUnavailable)) => peers@.len() > 0 && (tried
                >= peers@.len() || tried >= METADATA_PEERS),
            Err(_) => false,
        },
{
    if peers.len() == 0 {
        return Err(Error::NoTrackers);
    }
    if tried < peers.len() && tried < METADATA_PEERS {
        Ok(peers[tried])
    } else {
        Err(Error::Peer(PeerError::MetadataUnavailable))
    }
}

/// Who can still be asked for the metadata of a magnet link.
pub struct MetadataSearch {
    peers: Vec<PeerAddr>,
    tried: usize,
}

/// The content of a [`MetadataSearch`].
#[verifier::ext_equal]
pub struct Candidates {
    pub peers: Seq<PeerAddr>,
    /// How many of them could not give the metadata.
    pub tried: int,
}

/// What to do next to get the metadata.
pub enum SearchAction {
    /// Look for peers in the DHT.
    AskDht,
    /// Ask a peer for the metadata.
    AskPeer(PeerAddr),
    Fail(Error),
}

impl View for MetadataSearch {
    type V = Candidates;

    closed spec fn view(&self) -> Candidates {
        Candidates { peers: self.peers@, tried: self.tried as int }
    }
}

impl Candidates {
    /// The next peer to ask, one after the other up to a limit.
    pub open spec fn next(self) -> SearchAction {
        if self.peers.len() == 0 {
            SearchAction::Fail(Error::NoTrackers)
        } else if self.tried < self.peers.len() && self.tried < METADATA_PEERS {
            SearchAction::AskPeer(self.peers[self.tried])
        } else {
            SearchAction::Fail(Error::Peer(PeerError::MetadataUnavailable))
        }
    }

    /// One more could not give the metadata.
    pub open spec fn after_failure(self) -> Candidates {
        Candidates {
            tried: if self.tried < METADATA_PEERS {
                self.tried + 1
            } else {
                self.tried
            },
            ..self
        }
    }
}

impl MetadataSearch {
    /// Begin with the peers that the announce found. Trackers might be missing:
    /// if it found none, the DHT is asked before the search fails.
    pub fn start(peers: Vec<PeerAddr>) -> (r: (MetadataSearch, SearchAction))
        ensures
            r.0@ == (Candidates { peers: peers@, tried: 0 }),
            r.1 == if peers@.len() == 0 {
                SearchAction::AskDht
            } else {
                r.0@.next()
            },
    {
        let search = MetadataSearch { peers, tried: 0 };
        let action = if search.peers.len() == 0 {
            SearchAction::AskDht
        } else {
            search.next()
        };
        (search, action)
    }

    fn next(&self) -> (a: SearchAction)
        ensures
            a == self@.next(),
    {
        match metadata_peer(&self.peers, self.tried) {
            Ok(peer) => SearchAction::AskPeer(peer),
            Err(e) => SearchAction::Fail(e),
        }
    }

    /// Go on with the peers that the DHT found.
    pub fn on_dht(&mut self, found: &Vec<PeerAddr>) -> (a: SearchAction)
        ensures
            final(self)@ == (Candidates {
                peers: old(self)@.peers + found@,
                ..old(self)@
            }),
            a == final(self)@.next(),
    {
        let mut i: usize = 0;
        while i < found.len()
            invariant
                i <= found.len(),
                self.tried == old(self).tried,
                self.peers@ == old(self).peers@ + found@.take(i as int),
            decreases found.len() - i,
        {
            self.peers.push(found[i]);
            i = i + 1;
            assert(self.peers@ =~= old(self).peers@ + found@.take(i as int));
        }
        assert(found@.take(i as int) =~= found@);
        self.next()
    }

    /// Go on after the peer that was asked could not give the metadata.
    pub fn on_failure(&mut self) -> (a: SearchAction)
        ensures
            final(self)@ == old(self)@.after_failure(),
            a == final(self)@.next(),
    {
        if self.tried < METADATA_PEERS {
            self.tried = self.tried + 1;
        }
        self.next()
    }
}

/// The next peer to connect to, unless nothing is missing any more.
pub fn peer_to_connect(peers: &Vec<PeerAddr>, next: usize, pm: &PieceManager) -> (r: Option<
    PeerAddr,
>)
    requires
        pm.wf(),
    ensures
        r == if next < peers@.len() && !all_done(pm@) {
            Some(peers@[next as int])
        } else {
            None
        },
{
    if next < peers.len() && !pm.is_complete() {
        Some(peers[next])
    } else {
        None
    }
}

/// What has been reported of a download.
pub struct Progress {
    saved_pieces: u32,
    downloaded: u64,
    uploaded: u64,
}

/// The content of a [`Progress`].
pub struct Reported {
    /// How many pieces the last checkpoint lists.
    pub saved_pieces: int,
    /// The totals of the last report.
    pub downloaded: u64,
    pub uploaded: u64,
}

/// A report on a download.
pub struct Tick {
    pub downloaded: u64,
    pub uploaded: u64,
    pub total: u64,
    /// Bytes downloaded and uploaded since the last report.
    pub received: u64,
    pub sent: u64,
    pub peers_active: usize,
    pub pieces_done: u32,
    pub pieces_total: u32,
    pub state: DownloadState,
    /// What to save, if pieces were completed since the last checkpoint.
    pub checkpoint: Option<ResumeState>,
}

/// The content of a [`Tick`].
#[verifier::ext_equal]
pub struct Report {
    pub downloaded: u64,
    pub uploaded: u64,
    pub total: u64,
    pub received: int,
    pub sent: int,
    pub peers_active: int,
    pub pieces_done: int,
    pub pieces_total: int,
    pub state: DownloadState,
    pub checkpoint: Option<Saved>,
}

impl View for Progress {
    type V = Reported;

    closed spec fn view(&self) -> Reported {
        Reported {
            saved_pieces: self.saved_pieces as int,
            downloaded: self.downloaded,
            uploaded: self.uploaded,
        }
    }
}

impl View for Tick {
    type V = Report;

    open spec fn view(&self) -> Report {
        Report {
            downloaded: self.downloaded,
            uploaded: self.uploaded,
            total: self.total,
            received: self.received as int,
            sent: self.sent as int,
            peers_active: self.peers_active as int,
            pieces_done: self.pieces_done as int,
            pieces_total: self.pieces_total as int,
            state: self.state,
            checkpoint: match self.checkpoint {
                Some(s) => Some(s@),
                None => None,
            },
        }
    }
}

/// How much a total has grown.
pub open spec fn grown(now: u64, before: u64) -> int {
    if now >= before {
        now - before
    } else {
        0
    }
}

/// How many pieces are done.
pub open spec fn pieces_done(p: Pieces) -> int {
    count(p.states, PieceState::Done) as int
}

/// The state of a download with a number of active peers.
pub open spec fn state_of(p: Pieces, peers_active: int) -> DownloadState {
    if all_done(p) {
        DownloadState::Complete
    } else if peers_active == 0 {
        DownloadState::Connecting
    } else {
        DownloadState::Downloading
    }
}

impl Reported {
    /// Nothing has been reported yet; what was resumed is saved already.
    pub open spec fn start(p: Pieces) -> Reported {
        Reported { saved_pieces: pieces_done(p), downloaded: 0, uploaded: 0 }
    }

    /// The next report.
    pub open spec fn report(
        self,
        t: Torrent,
        p: Pieces,
        uploaded: u64,
        peers_active: int,
    ) -> Report {
        Report {
            downloaded: p.downloaded,
            uploaded,
            total: t.total_length,
            received: grown(p.downloaded, self.downloaded),
            sent: grown(uploaded, self.uploaded),
            peers_active,
            pieces_done: pieces_done(p),
            pieces_total: p.states.len() as int,
            state: state_of(p, peers_active),
            checkpoint: if pieces_done(p) > self.saved_pieces {
                Some(checkpoint_of(t.info_hash, p, uploaded))
            } else {
                None
            },
        }
    }

    /// What has been reported after the next report.
    pub open spec fn after(self, p: Pieces, uploaded: u64) -> Reported {
        Reported {
            saved_pieces: if pieces_done(p) > self.saved_pieces {
                pieces_done(p)
            } else {
                self.saved_pieces
            },
            downloaded: p.downloaded,
            uploaded,
        }
    }
}

impl Progress {
    /// Begin to report on a download.
    pub fn start(pm: &PieceManager) -> (p: Progress)
        requires
            pm.wf(),
        ensures
            p@ == Reported::start(pm@),
    {
        Progress { saved_pieces: pm.done_count(), downloaded: 0, uploaded: 0 }
    }

    /// Report on a download.
    pub fn tick(
        &mut self,
        meta: &Metainfo,
        pm: &PieceManager,
        uploaded: u64,
        peers_active: usize,
    ) -> (t: Tick)
        requires
            pm.wf(),
        ensures
            t@ == old(self)@.report(meta@, pm@, uploaded, peers_active as int),
            final(self)@ == old(self)@.after(pm@, uploaded),
    {
        let pieces_done: u32 = pm.done_count();
        let downloaded: u64 = pm.downloaded();
        let checkpoint: Option<ResumeState> = if pieces_done > self.saved_pieces {
            Some(ResumeState::checkpoint(&meta.info_hash, pm, uploaded))
        } else {
            None
        };
        if checkpoint.is_some() {
            self.saved_pieces = pieces_done;
        }
        let received: u64 = downloaded.saturating_sub(self.downloaded);
        let sent: u64 = uploaded.saturating_sub(self.uploaded);
        self.downloaded = downloaded;
        self.uploaded = uploaded;
        let state = if pm.is_complete() {
            DownloadState::Complete
        } else if peers_active == 0 {
            DownloadState::Connecting
        } else {
            DownloadState::Downloading
        };
        Tick {
            downloaded,
            uploaded,
            total: meta.total_length,
            received,
            sent,
            peers_active,
            pieces_done,
            pieces_total: pm.piece_count(),
            state,
            checkpoint,
        }
    }
}

// The session

/// What happened in a download session.
pub enum SessionEvent {
    /// The metadata of a magnet link was fetched.
    MetadataFetched,
    ResumeLoaded,
    PiecesVerified,
    FilesPrepared,
    /// The announce found these peers; whether a tracker responded.
    Announced { peers: Vec<PeerAddr>, any_responded: bool },
    /// There is a connection, or an attempt at one, for each peer.
    Connected,
    /// It is time for a report.
    Woken { uploaded: u64, peers_active: usize },
    /// The report was given; whether no connection is left.
    ReportGiven { no_tasks_left: bool, uploaded: u64 },
    Saved,
    /// The connections were ended.
    Stopped { uploaded: u64 },
    SeedingEnded,
    ResumeRemoved,
    /// What was to be done failed.
    Failed,
}

/// What to do next in a download session.
pub enum SessionAction {
    /// Fetch the metadata of the magnet link.
    FetchMetadata,
    /// Load the saved state of the download.
    LoadResume,
    /// Verify the pieces that the saved state lists.
    VerifyPieces,
    /// Make ready the files to write to.
    PrepareFiles,
    Announce { event: Event, downloaded: u64, uploaded: u64 },
    Connect(Vec<PeerAddr>),
    /// Wait for [`REPORT_SECONDS`], until the next report is due.
    Sleep,
    /// Save the checkpoint, if there is one, and give the report.
    GiveReport(Tick),
    Save(ResumeState),
    /// End the connections that are left.
    StopPeers,
    Seed,
    RemoveResume,
    Done,
    Fail(Error),
    /// Give up because of what failed outside.
    Abort,
}

/// Where a session stands: what it waits for.
#[derive(Debug, Clone, Copy, PartialEq, Eq, Structural)]
pub enum Stage {
    Metadata,
    Loading,
    Verifying,
    Preparing,
    Announcing,
    Connecting,
    Sleeping,
    Reporting { complete: bool },
    Saving,
    Stopping,
    Completing,
    Seeding,
    Removing,
    Over,
}

/// A download session.
pub struct Session {
    stage: Stage,
    progress: Progress,
    max_peers: usize,
    seed: bool,
}

/// The content of a [`Session`].
pub struct Course {
    pub stage: Stage,
    pub reported: Reported,
    pub max_peers: int,
    pub seed: bool,
}

/// The content of a [`SessionEvent`].
pub enum Outcome {
    MetadataFetched,
    ResumeLoaded,
    PiecesVerified,
    FilesPrepared,
    Announced(Seq<PeerAddr>, bool),
    Connected,
    Woken(u64, int),
    ReportGiven(bool, u64),
    Saved,
    Stopped(u64),
    SeedingEnded,
    ResumeRemoved,
    Failed,
}

/// The content of a [`SessionAction`].
#[verifier::ext_equal]
pub enum Move {
    FetchMetadata,
    LoadResume,
    VerifyPieces,
    PrepareFiles,
    Announce(Event, u64, u64),
    Connect(Seq<PeerAddr>),
    Sleep,
    GiveReport(Report),
    Save(Saved),
    StopPeers,
    Seed,
    RemoveResume,
    Done,
    Fail(Error),
    Abort,
}

impl View for SessionEvent {
    type V = Outcome;

    open spec fn view(&self) -> Outcome {
        match *self {
            SessionEvent::MetadataFetched => Outcome::MetadataFetched,
            SessionEvent::ResumeLoaded => Outcome::ResumeLoaded,
            SessionEvent::PiecesVerified => Outcome::PiecesVerified,
            SessionEvent::FilesPrepared => Outcome::FilesPrepared,
            SessionEvent::Announced { peers, any_responded } => Outcome::Announced(
                peers@,
                any_responded,
            ),
            SessionEvent::Connected => Outcome::Connected,
            SessionEvent::Woken { uploaded, peers_active } => Outcome::Woken(
                uploaded,
                peers_active as int,
            ),
            SessionEvent::ReportGiven { no_tasks_left, uploaded } => Outcome::ReportGiven(
                no_tasks_left,
                uploaded,
            ),
            SessionEvent::Saved => Outcome::Saved,
            SessionEvent::Stopped { uploaded } => Outcome::Stopped(uploaded),
            SessionEvent::SeedingEnded => Outcome::SeedingEnded,
            SessionEvent::ResumeRemoved => Outcome::ResumeRemoved,
            SessionEvent::Failed => Outcome::Failed,
        }
    }
}

impl View for SessionAction {
    type V = Move;

    open spec fn view(&self) -> Move {
        match *self {
            SessionAction::FetchMetadata => Move::FetchMetadata,
            SessionAction::LoadResume => Move::LoadResume,
            SessionAction::VerifyPieces => Move::VerifyPieces,
            SessionAction::PrepareFiles => Move::PrepareFiles,
            SessionAction::Announce { event, downloaded, uploaded } => Move::Announce(
                event,
                downloaded,
                uploaded,
            ),
            SessionAction::Connect(peers) => Move::Connect(peers@),
            SessionAction::Sleep => Move::Sleep,
            SessionAction::GiveReport(t) => Move::GiveReport(t@),
            SessionAction::Save(s) => Move::Save(s@),
            SessionAction::StopPeers => Move::StopPeers,
            SessionAction::Seed => Move::Seed,
            SessionAction::RemoveResume => Move::RemoveResume,
            SessionAction::Done => Move::Done,
            SessionAction::Fail(e) => Move::Fail(e),
            SessionAction::Abort => Move::Abort,
        }
    }
}

impl View for Session {
    type V = Course;

    closed spec fn view(&self) -> Course {
        Course {
            stage: self.stage,
            reported: self.progress@,
            max_peers: self.max_peers as int,
            seed: self.seed,
        }
    }
}

impl Course {
    pub open spec fn at(self, stage: Stage) -> Course {
        Course { stage, ..self }
    }

    pub open spec fn over(self, m: Move) -> (Course, Move) {
        (self.at(Stage::Over), m)
    }

    /// Go on with the peers that an announce found.
    pub open spec fn with_peers(
        self,
        p: Pieces,
        peers: Seq<PeerAddr>,
        any_responded: bool,
    ) -> (Course, Move) {
        if peers.len() == 0 {
            self.over(
                Move::Fail(
                    if any_responded {
                        Error::EmptySwarm
                    } else {
                        Error::NoTrackers
                    },
                ),
            )
        } else {
            (
                Course {
                    stage: Stage::Connecting,
                    reported: Reported::start(p),
                    ..self
                },
                Move::Connect(first_peers(peers, self.max_peers)),
            )
        }
    }

    /// What comes of an event.
    pub open spec fn step(self, t: Torrent, p: Pieces, e: Outcome) -> (Course, Move) {
        match (self.stage, e) {
            (Stage::Metadata, Outcome::MetadataFetched) => (
                self.at(Stage::Loading),
                Move::LoadResume,
            ),
            (Stage::Loading, Outcome::ResumeLoaded) => (
                self.at(Stage::Verifying),
                Move::VerifyPieces,
            ),
            (Stage::Verifying, Outcome::PiecesVerified) => (
                self.at(Stage::Preparing),
                Move::PrepareFiles,
            ),
            (Stage::Preparing, Outcome::FilesPrepared) => (
                self.at(Stage::Announcing),
                Move::Announce(Event::Started, 0, 0),
            ),
            (Stage::Announcing, Outcome::Announced(peers, any_responded)) => self.with_peers(
                p,
                peers,
                any_responded,
            ),
            (Stage::Connecting, Outcome::Connected) => (self.at(Stage::Sleeping), Move::Sleep),
            (Stage::Sleeping, Outcome::Woken(uploaded, peers_active)) => (
                Course {
                    stage: Stage::Reporting { complete: all_done(p) },
                    reported: self.reported.after(p, uploaded),
                    ..self
                },
                Move::GiveReport(self.reported.report(t, p, uploaded, peers_active)),
            ),
            (Stage::Reporting { complete }, Outcome::ReportGiven(no_tasks_left, uploaded)) => {
                if complete {
                    (self.at(Stage::Saving), Move::Save(checkpoint_of(t.info_hash, p, uploaded)))
                } else if no_tasks_left {
                    self.over(Move::Fail(Error::Stalled))
                } else {
                    (self.at(Stage::Sleeping), Move::Sleep)
                }
            },
            (Stage::Saving, Outcome::Saved) => (self.at(Stage::Stopping), Move::StopPeers),
            (Stage::Stopping, Outcome::Stopped(uploaded)) => (
                self.at(Stage::Completing),
                Move::Announce(Event::Completed, p.downloaded, uploaded),
            ),
            (Stage::Completing, Outcome::Announced(_, _)) => if self.seed {
                (self.at(Stage::Seeding), Move::Seed)
            } else {
                (self.at(Stage::Removing), Move::RemoveResume)
            },
            (Stage::Seeding, Outcome::SeedingEnded) => (
                self.at(Stage::Removing),
                Move::RemoveResume,
            ),
            (Stage::Removing, Outcome::ResumeRemoved) => self.over(Move::Done),
            _ => self.over(Move::Abort),
        }
    }
}

impl Session {
    /// Begin a session: where it stands, and what to do first.
    pub fn start(meta: &Metainfo, max_peers: usize, seed: bool) -> (r: (Session, SessionAction))
        ensures
            r.0@.reported == (Reported { saved_pieces: 0, downloaded: 0, uploaded: 0 }),
            r.0@.max_peers == max_peers,
            r.0@.seed == seed,
            if piece_count_of(meta@) == 0 {
                r.0@.stage == Stage::Metadata && r.1@ == Move::FetchMetadata
            } else {
                r.0@.stage == Stage::Loading && r.1@ == Move::LoadResume
            },
    {
        let progress = Progress { saved_pieces: 0, downloaded: 0, uploaded: 0 };
        if needs_metadata(meta) {
            (
                Session { stage: Stage::Metadata, progress, max_peers, seed },
                SessionAction::FetchMetadata,
            )
        } else {
            (
                Session { stage: Stage::Loading, progress, max_peers, seed },
                SessionAction::LoadResume,
            )
        }
    }

    fn enter(&mut self, stage: Stage, action: SessionAction) -> (a: SessionAction)
        ensures
            final(self)@ == old(self)@.at(stage),
            a == action,
    {
        self.stage = stage;
        action
    }

    /// Go on after something happened.
    pub fn step(&mut self, meta: &Metainfo, pm: &PieceManager, event: SessionEvent) -> (a:
        SessionAction)
        requires
            pm.wf(),
            old(self)@.max_peers * 3 <= usize::MAX,
        ensures
            (final(self)@, a@) == old(self)@.step(meta@, pm@, event@),
    {
        match (self.stage, event) {
            (Stage::Metadata, SessionEvent::MetadataFetched) => self.enter(
                Stage::Loading,
                SessionAction::LoadResume,
            ),
            (Stage::Loading, SessionEvent::ResumeLoaded) => self.enter(
                Stage::Verifying,
                SessionAction::VerifyPieces,
            ),
            (Stage::Verifying, SessionEvent::PiecesVerified) => self.enter(
                Stage::Preparing,
                SessionAction::PrepareFiles,
            ),
            (Stage::Preparing, SessionEvent::FilesPrepared) => self.enter(
                Stage::Announcing,
                SessionAction::Announce { event: Event::Started, downloaded: 0, uploaded: 0 },
            ),
            (Stage::Announcing, SessionEvent::Announced { peers, any_responded }) => {
                match peers_to_try(&peers, any_responded, self.max_peers) {
                    Ok(list) => {
                        self.progress = Progress::start(pm);
                        self.enter(Stage::Connecting, SessionAction::Connect(list))
                    },
                    Err(e) => self.enter(Stage::Over, SessionAction::Fail(e)),
                }
            },
            (Stage::Connecting, SessionEvent::Connected) => self.enter(
                Stage::Sleeping,
                SessionAction::Sleep,
            ),
            (Stage::Sleeping, SessionEvent::Woken { uploaded, peers_active }) => {
                let tick = self.progress.tick(meta, pm, uploaded, peers_active);
                let complete = match tick.state {
                    DownloadState::Complete => true,
                    _ => false,
                };
                self.enter(Stage::Reporting { complete }, SessionAction::GiveReport(tick))
            },
            (
                Stage::Reporting { complete },
                SessionEvent::ReportGiven { no_tasks_left, uploaded },
            ) => if complete {
                let state = ResumeState::checkpoint(&meta.info_hash, pm, uploaded);
                self.enter(Stage::Saving, SessionAction::Save(state))
            } else if no_tasks_left {
                self.enter(Stage::Over, SessionAction::Fail(Error::Stalled))
            } else {
                self.enter(Stage::Sleeping, SessionAction::Sleep)
            },
            (Stage::Saving, SessionEvent::Saved) => self.enter(
                Stage::Stopping,
                SessionAction::StopPeers,
            ),
            (Stage::Stopping, SessionEvent::Stopped { uploaded }) => self.enter(
                Stage::Completing,
                SessionAction::Announce {
                    event: Event::Completed,
                    downloaded: pm.downloaded(),
                    uploaded,
                },
            ),
            (Stage::Completing, SessionEvent::Announced { .. }) => if self.seed {
                self.enter(Stage::Seeding, SessionAction::Seed)
            } else {
                self.enter(Stage::Removing, SessionAction::RemoveResume)
            },
            (Stage::Seeding, SessionEvent::SeedingEnded) => self.enter(
                Stage::Removing,
                SessionAction::RemoveResume,
            ),
            (Stage::Removing, SessionEvent::ResumeRemoved) => self.enter(
                Stage::Over,
                SessionAction::Done,
            ),
            _ => self.enter(Stage::Over, SessionAction::Abort),
        }
    }
}

// Sources

/// What names a torrent.
#[derive(Debug, Clone, Copy, PartialEq, Eq, Structural)]
pub enum Source {
    Magnet,
    Url,
    File,
}

pub open spec fn source(text: Seq<char>) -> Source {
    if has_prefix(text, "magnet:"@) {
        Source::Magnet
    } else if has_prefix(text, "http://"@) || has_prefix(text, "https://"@) {
        Source::Url
    } else {
        Source::File
    }
}

/// What a source string is: a magnet link, the URL of a torrent file, or the
/// path of one.
pub fn source_of(text: &str) -> (r: Source)
    ensures
        r == source(text@),
{
    let chars = chars_of(text);
    if after_prefix(&chars, "magnet:").is_some() {
        Source::Magnet
    } else if after_prefix(&chars, "http://").is_some() || after_prefix(
        &chars,
        "https://",
    ).is_some() {
        Source::Url
    } else {
        Source::File
    }
}

// Laws

impl Course {
    /// Whether the session goes by the download being complete.
    pub open spec fn is_past_end(self) -> bool {
        match self.stage {
            Stage::Reporting { complete } => complete,
            Stage::Saving => true,
            Stage::Stopping => true,
            Stage::Completing => true,
            Stage::Seeding => true,
            Stage::Removing => true,
            _ => false,
        }
    }
}

/// A session is finished, seeds, announces completion and removes its saved
/// state only when every piece is done.
pub proof fn lemma_only_complete_ends(c: Course, t: Torrent, p: Pieces, e: Outcome)
    requires
        c.is_past_end() ==> all_done(p),
    ensures
        ({
            let (next, m) = c.step(t, p, e);
            &&& next.is_past_end() ==> all_done(p)
            &&& m is Done || m is Seed || m is RemoveResume ==> all_done(p)
            &&& m matches Move::Announce(Event::Completed, downloaded, _) ==> all_done(p)
                && downloaded == p.downloaded
        }),
{
}

/// A session that stalls has no connection left and is not complete, and one
/// that finds no peer says whether a tracker responded.
pub proof fn lemma_failures(c: Course, t: Torrent, p: Pieces, e: Outcome)
    ensures
        c.step(t, p, e).1 matches Move::Fail(x) ==> match x {
            Error::Stalled => e matches Outcome::ReportGiven(idle, _) && idle && !c.is_past_end(),
            Error::EmptySwarm => e matches Outcome::Announced(peers, any) && peers.len() == 0
                && any,
            Error::NoTrackers => e matches Outcome::Announced(peers, any) && peers.len() == 0
                && !any,
            _ => false,
        },
{
}

/// A report saves a checkpoint exactly when pieces were completed since the
/// last one, the checkpoint lists exactly the pieces that are done, and after
/// the report no completed piece is left to be saved.
pub proof fn lemma_reports_save(
    r: Reported,
    t: Torrent,
    p: Pieces,
    uploaded: u64,
    peers_active: int,
    i: u32,
)
    requires
        p.states.len() <= u32::MAX,
    ensures
        r.report(t, p, uploaded, peers_active).checkpoint is Some <==> pieces_done(p)
            > r.saved_pieces,
        r.report(t, p, uploaded, peers_active).checkpoint matches Some(s) ==> (
        s.pieces_done.contains(i) <==> i < p.states.len() && p.states[i as int]
            == PieceState::Done),
        r.after(p, uploaded).saved_pieces >= pieces_done(p),
        pieces_done(p) >= r.saved_pieces ==> r.after(p, uploaded).saved_pieces == pieces_done(p),
        pieces_done(p) < r.saved_pieces ==> r.after(p, uploaded).saved_pieces == r.saved_pieces,
        r.report(t, p, uploaded, peers_active).checkpoint matches Some(s) ==> s == checkpoint_of(
            t.info_hash,
            p,
            uploaded,
        ),
{
    lemma_checkpoint_lists_done(p.states, p.states.len() as int, i);
}

/// A session keeps to what it was started with, and seeds only if it was asked
/// to: otherwise the announce of completion is followed by removing the saved
/// state.
pub proof fn lemma_seeds_only_if_asked(c: Course, t: Torrent, p: Pieces, e: Outcome)
    ensures
        c.step(t, p, e).0.seed == c.seed,
        c.step(t, p, e).0.max_peers == c.max_peers,
        c.step(t, p, e).1 is Seed ==> c.seed,
        c.stage == Stage::Completing && e is Announced && !c.seed ==> c.step(t, p, e).1
            == Move::RemoveResume,
        c.stage == Stage::Completing && e is Announced && c.seed ==> c.step(t, p, e).1
            == Move::Seed,
{
}

/// What fails ends the session, and a session that is over stays so.
pub proof fn lemma_failure_ends(c: Course, t: Torrent, p: Pieces, e: Outcome)
    requires
        e is Failed || c.stage == Stage::Over,
    ensures
        c.step(t, p, e).0.stage == Stage::Over,
        c.step(t, p, e).1 is Abort,
{
}

/// A download is prepared step by step: the metadata of a magnet link is
/// fetched first; then the saved state is loaded, its pieces are verified, the
/// files are made ready, the start is announced, and the first peers that were
/// found are connected to.
pub proof fn lemma_preparation(
    c: Course,
    t: Torrent,
    p: Pieces,
    peers: Seq<PeerAddr>,
    any_responded: bool,
)
    requires
        c.stage == Stage::Loading,
        peers.len() > 0,
        c.max_peers >= 0,
    ensures
        ({
            let (c1, m1) = c.step(t, p, Outcome::ResumeLoaded);
            let (c2, m2) = c1.step(t, p, Outcome::PiecesVerified);
            let (c3, m3) = c2.step(t, p, Outcome::FilesPrepared);
            let (c4, m4) = c3.step(t, p, Outcome::Announced(peers, any_responded));
            let (c5, m5) = c4.step(t, p, Outcome::Connected);
            &&& m1 is VerifyPieces
            &&& m2 is PrepareFiles
            &&& m3 == Move::Announce(Event::Started, 0, 0)
            &&& m4 matches Move::Connect(list) && {
                &&& list.len() <= peers.len()
                &&& list.len() == peers.len() || list.len() == 3 * c.max_peers
                &&& list.len() <= 3 * c.max_peers
                &&& forall|i: int| 0 <= i < list.len() ==> #[trigger] list[i] == peers[i]
            }
            &&& m5 is Sleep
            &&& c5.stage == Stage::Sleeping
            &&& c5.reported.saved_pieces == count(p.states, PieceState::Done)
            &&& c5.reported.downloaded == 0
            &&& c5.reported.uploaded == 0
        }),
        c.at(Stage::Metadata).step(t, p, Outcome::MetadataFetched) == (c, Move::LoadResume),
{
}

/// A session that finds no peer fails, and says whether a tracker responded.
pub proof fn lemma_no_peers(c: Course, t: Torrent, p: Pieces, any_responded: bool)
    requires
        c.stage == Stage::Announcing,
    ensures
        c.step(t, p, Outcome::Announced(seq![], any_responded)).1 == Move::Fail(
            if any_responded {
                Error::EmptySwarm
            } else {
                Error::NoTrackers
            },
        ),
{
}

/// Reports follow each other until every piece is done, which is then saved, or
/// until no connection is left.
pub proof fn lemma_rounds(
    c: Course,
    t: Torrent,
    p: Pieces,
    q: Pieces,
    uploaded: u64,
    peers_active: int,
    idle: bool,
    later: u64,
)
    requires
        c.stage == Stage::Sleeping,
    ensures
        ({
            let done = forall|i: int| 0 <= i < p.states.len() ==> p.states[i] == PieceState::Done;
            let (c1, m1) = c.step(t, p, Outcome::Woken(uploaded, peers_active));
            let (c2, m2) = c1.step(t, q, Outcome::ReportGiven(idle, later));
            &&& m1 matches Move::GiveReport(r) && {
                &&& r.downloaded == p.downloaded
                &&& r.uploaded == uploaded
                &&& r.total == t.total_length
                &&& r.peers_active == peers_active
                &&& r.pieces_done == count(p.states, PieceState::Done)
                &&& r.pieces_total == p.states.len()
                &&& r.state == DownloadState::Complete <==> done
                &&& r.state == DownloadState::Connecting <==> !done && peers_active == 0
                &&& p.downloaded >= c.reported.downloaded ==> c.reported.downloaded + r.received
                    == p.downloaded
                &&& uploaded >= c.reported.uploaded ==> c.reported.uploaded + r.sent == uploaded
                &&& p.downloaded < c.reported.downloaded ==> r.received == 0
                &&& uploaded < c.reported.uploaded ==> r.sent == 0
            }
            &&& c1.reported.downloaded == p.downloaded
            &&& c1.reported.uploaded == uploaded
            &&& c2.reported == c1.reported
            &&& if done {
                m2 matches Move::Save(s) && s == checkpoint_of(t.info_hash, q, later)
                    && c2.stage == Stage::Saving
            } else if idle {
                m2 == Move::Fail(Error::Stalled)
            } else {
                m2 is Sleep && c2.stage == Stage::Sleeping
            }
        }),
{
}

/// When everything is saved the connections are ended, completion is announced
/// with the totals, the torrent is seeded if that was asked for, the saved
/// state is removed, and the session is done.
pub proof fn lemma_completion(
    c: Course,
    t: Torrent,
    p: Pieces,
    uploaded: u64,
    peers: Seq<PeerAddr>,
    any_responded: bool,
)
    requires
        c.stage == Stage::Saving,
    ensures
        ({
            let (c1, m1) = c.step(t, p, Outcome::Saved);
            let (c2, m2) = c1.step(t, p, Outcome::Stopped(uploaded));
            let (c3, m3) = c2.step(t, p, Outcome::Announced(peers, any_responded));
            let (c4, m4) = c3.step(t, p, Outcome::SeedingEnded);
            let (c5, m5) = if c.seed {
                c4.step(t, p, Outcome::ResumeRemoved)
            } else {
                c3.step(t, p, Outcome::ResumeRemoved)
            };
            &&& m1 is StopPeers
            &&& m2 == Move::Announce(Event::Completed, p.downloaded, uploaded)
            &&& c.seed ==> m3 is Seed && m4 is RemoveResume
            &&& !c.seed ==> m3 is RemoveResume
            &&& m5 is Done
            &&& c5.stage == Stage::Over
        }),
{
}

/// A checkpoint names the torrent and holds the totals and the done pieces.
pub proof fn lemma_checkpoint(info_hash: Seq<u8>, p: Pieces, uploaded: u64, i: u32)
    requires
        p.states.len() <= u32::MAX,
    ensures
        checkpoint_of(info_hash, p, uploaded).info_hash == hex_text(info_hash),
        checkpoint_of(info_hash, p, uploaded).downloaded == p.downloaded,
        checkpoint_of(info_hash, p, uploaded).uploaded == uploaded,
        checkpoint_of(info_hash, p, uploaded).pieces_done.contains(i) <==> i < p.states.len()
            && p.states[i as int] == PieceState::Done,
{
    lemma_checkpoint_lists_done(p.states, p.states.len() as int, i);
}

/// The candidates after so many could not give the metadata.
pub open spec fn after_failures(c: Candidates, n: nat) -> Candidates
    decreases n,
{
    if n == 0 {
        c
    } else {
        after_failures(c, (n - 1) as nat).after_failure()
    }
}

/// The first twenty peers are asked for metadata in their order, and then the
/// search fails; without any peer it fails at once.
pub proof fn lemma_search(peers: Seq<PeerAddr>, n: nat)
    ensures
        ({
            let c = after_failures(Candidates { peers, tried: 0 }, n);
            &&& c.peers == peers
            &&& peers.len() == 0 ==> c.next() == SearchAction::Fail(Error::NoTrackers)
            &&& n < peers.len() && n < 20 ==> c.next() == SearchAction::AskPeer(peers[n as int])
            &&& peers.len() > 0 && (n >= peers.len() || n >= 20) ==> c.next()
                == SearchAction::Fail(Error::Peer(PeerError::MetadataUnavailable))
            &&& c.tried == if n <= 20 {
                n as int
            } else {
                20
            }
        }),
    decreases n,
{
    if n > 0 {
        lemma_search(peers, (n - 1) as nat);
    }
}

/// A source is told by how it begins.
pub proof fn lemma_source(rest: Seq<char>)
    ensures
        source("magnet:"@ + rest) == Source::Magnet,
        source("http://"@ + rest) == Source::Url,
        source("https://"@ + rest) == Source::Url,
        rest.len() > 0 && rest[0] != 'm' && rest[0] != 'h' ==> source(rest) == Source::File,
{
    reveal_strlit("magnet:");
    reveal_strlit("http://");
    reveal_strlit("https://");
    assert(("magnet:"@ + rest).take(7) =~= "magnet:"@);
    assert(("http://"@ + rest).take(7) =~= "http://"@);
    assert(("https://"@ + rest).take(8) =~= "https://"@);
    assert(("http://"@ + rest)[0] == 'h');
    assert(("https://"@ + rest)[0] == 'h');
    if has_prefix("http://"@ + rest, "magnet:"@) {
        assert(("http://"@ + rest).take(7)[0] == 'm');
    }
    if has_prefix("https://"@ + rest, "magnet:"@) {
        assert(("https://"@ + rest).take(7)[0] == 'm');
    }
    if rest.len() > 0 && rest[0] != 'm' && rest[0] != 'h' {
        if has_prefix(rest, "magnet:"@) {
            assert(rest.take(7)[0] == 'm');
        }
        if has_prefix(rest, "http://"@) {
            assert(rest.take(7)[0] == 'h');
        }
        if has_prefix(rest, "https://"@) {
            assert(rest.take(8)[0] == 'h');
        }
    }
}

} // verus!
