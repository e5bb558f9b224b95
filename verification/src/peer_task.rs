//! The course of a connection to one peer that we download from.
//!
//! After the handshake the peer tells which pieces it has. Then one piece after
//! the other is claimed, waited for until the peer lets us have it, downloaded
//! block by block, verified and written. Whatever goes wrong, the piece that
//! was claimed is returned so that it can be re-claimed for another peer.

use vstd::prelude::*;

use crate::buffer::bytes_slice;
use crate::digest::{sha1, sha1_digest};
use crate::error::{Error, PeerError};
use crate::metainfo::{
    is_addressable, lemma_piece_addressable, piece_count_of, piece_len_of, Metainfo, Torrent,
};
use crate::octets::same_bytes;
use crate::peer::message::{Message, Msg, BLOCK_SIZE};
use crate::piece_download::{
    agrees, block_count, block_of, lemma_blocks_assemble, set_flags, Blocks, PieceDownload,
    MAX_PIECE_LEN,
};
use crate::piece_manager::{
    has_piece, lemma_claim_tracks, lemma_mark_done_tracks, lemma_room_for_missing, tracks,
    PieceManager, PieceState, Pieces,
};

verus! {

/// How long to wait for the peer's bitfield, in seconds.
pub const GREETING_SECONDS: u64 = 3;

/// How long to wait for one message while the peer chokes us, in seconds.
pub const CHOKED_SECONDS: u64 = 5;

/// How long to wait for one message of a piece, in seconds.
pub const BLOCK_SECONDS: u64 = 30;

/// How long a peer may choke us in all, in nanoseconds.
pub const CHOKE_LIMIT: u128 = 60_000_000_000;

/// What happened on the connection or on disk.
pub enum PeerEvent {
    /// The message was sent.
    Sent,
    SendFailed,
    /// A message arrived.
    Message(Message),
    /// The peer closed the connection between messages.
    Closed,
    /// No message arrived in time, or none could be read.
    Failed,
    /// The piece was written.
    Written,
    WriteFailed,
}

/// What to do next.
pub enum PeerAction {
    /// Wait for a message.
    Read { seconds: u64 },
    Send(Message),
    /// Write a verified piece to its place in the stream.
    Write { piece: u32, offset: u64, data: Vec<u8> },
    /// There is nothing left to do with this peer.
    Done,
    Fail(Error),
    /// Give up because of what failed outside.
    Abort,
}

/// Where the connection stands.
enum Phase {
    Greeting,
    Interested,
    Waiting { piece: u32, since: u128 },
    Downloading(PieceDownload),
    Writing { piece: u32 },
    Finished,
}

/// The connection to one peer.
pub struct PeerTask {
    peer_bitfield: Vec<bool>,
    choked: bool,
    pipeline: usize,
    phase: Phase,
}

/// The content of a [`PeerEvent`].
pub enum Happened {
    Sent,
    SendFailed,
    Message(Msg),
    Closed,
    Failed,
    Written,
    WriteFailed,
}

/// The content of a [`PeerAction`].
#[verifier::ext_equal]
pub enum Next {
    Read(int),
    Send(Msg),
    Write(int, int, Seq<u8>),
    Done,
    Fail(Error),
    Abort,
}

/// Where a [`Task`] stands.
#[verifier::ext_equal]
pub enum Stage {
    /// The peer tells which pieces it has.
    Greeting,
    /// The peer is being told that we are interested.
    Interested,
    /// A piece is claimed, and the peer may still choke us.
    Waiting(int, int),
    Downloading(Blocks),
    Writing(int),
    Finished,
}

/// The content of a [`PeerTask`].
#[verifier::ext_equal]
pub struct Task {
    pub bitfield: Seq<bool>,
    pub choked: bool,
    pub pipeline: int,
    pub stage: Stage,
}

impl View for PeerEvent {
    type V = Happened;

    open spec fn view(&self) -> Happened {
        match *self {
            PeerEvent::Sent => Happened::Sent,
            PeerEvent::SendFailed => Happened::SendFailed,
            PeerEvent::Message(m) => Happened::Message(m@),
            PeerEvent::Closed => Happened::Closed,
            PeerEvent::Failed => Happened::Failed,
            PeerEvent::Written => Happened::Written,
            PeerEvent::WriteFailed => Happened::WriteFailed,
        }
    }
}

impl View for PeerAction {
    type V = Next;

    open spec fn view(&self) -> Next {
        match *self {
            PeerAction::Read { seconds } => Next::Read(seconds as int),
            PeerAction::Send(m) => Next::Send(m@),
            PeerAction::Write { piece, offset, data } => Next::Write(
                piece as int,
                offset as int,
                data@,
            ),
            PeerAction::Done => Next::Done,
            PeerAction::Fail(e) => Next::Fail(e),
            PeerAction::Abort => Next::Abort,
        }
    }
}

impl View for Phase {
    type V = Stage;

    closed spec fn view(&self) -> Stage {
        match *self {
            Phase::Greeting => Stage::Greeting,
            Phase::Interested => Stage::Interested,
            Phase::Waiting { piece, since } => Stage::Waiting(piece as int, since as int),
            Phase::Downloading(d) => Stage::Downloading(d@),
            Phase::Writing { piece } => Stage::Writing(piece as int),
            Phase::Finished => Stage::Finished,
        }
    }
}

impl View for PeerTask {
    type V = Task;

    closed spec fn view(&self) -> Task {
        Task {
            bitfield: self.peer_bitfield@,
            choked: self.choked,
            pipeline: self.pipeline as int,
            stage: self.phase@,
        }
    }
}

// The course of a connection

/// Whether the pieces of a torrent can be downloaded block by block.
pub open spec fn is_downloadable(t: Torrent) -> bool {
    &&& is_addressable(t)
    &&& forall|i: int|
        0 <= i < piece_count_of(t) ==> #[trigger] piece_len_of(t, i) <= MAX_PIECE_LEN
            && piece_len_of(t, i) <= usize::MAX
}

/// A bitfield after the peer said that it has a piece.
pub open spec fn with_have(bitfield: Seq<bool>, index: u32) -> Seq<bool> {
    if index < bitfield.len() {
        bitfield.update(index as int, true)
    } else {
        bitfield
    }
}

/// Whether the peer has a piece that is missing.
pub open spec fn is_useful(bitfield: Seq<bool>, p: Pieces) -> bool {
    exists|i: int| 0 <= i < bitfield.len() && #[trigger] bitfield[i] && p.missing(i)
}

/// The first piece from `from` on that can be claimed for the peer.
pub open spec fn first_claimable(p: Pieces, bitfield: Seq<bool>, from: int) -> Option<int>
    decreases p.states.len() - from,
{
    if from < 0 || from >= p.states.len() {
        None
    } else if p.claimable(bitfield, from) {
        Some(from)
    } else {
        first_claimable(p, bitfield, from + 1)
    }
}

/// The pieces after a claim was given up.
pub open spec fn released(p: Pieces, i: int) -> Pieces {
    if 0 <= i < p.states.len() && p.states[i] == PieceState::Claimed {
        p.with(i, PieceState::Needed)
    } else {
        p
    }
}

/// The pieces after one was written.
pub open spec fn marked_done(p: Pieces, i: int, len: int) -> Pieces {
    if p.missing(i) {
        Pieces { downloaded: (p.downloaded + len) as u64, ..p.with(i, PieceState::Done) }
    } else {
        p
    }
}

pub open spec fn all_done(p: Pieces) -> bool {
    forall|i: int| 0 <= i < p.states.len() ==> p.states[i] == PieceState::Done
}

impl Task {
    pub open spec fn at(self, stage: Stage) -> Task {
        Task { stage, ..self }
    }

    /// The piece that is claimed for this peer.
    pub open spec fn claim(self) -> Option<int> {
        match self.stage {
            Stage::Waiting(piece, _) => Some(piece),
            Stage::Downloading(b) => Some(b.index as int),
            Stage::Writing(piece) => Some(piece),
            _ => None,
        }
    }

    /// The connection ends, and its claim is given up.
    pub open spec fn ended(self, p: Pieces, next: Next) -> (Task, Pieces, Next) {
        (
            self.at(Stage::Finished),
            match self.claim() {
                Some(i) => released(p, i),
                None => p,
            },
            next,
        )
    }

    /// Claim the next piece, if there is one for this peer.
    pub open spec fn claim_next(self, p: Pieces, t: Torrent, now: int) -> (Task, Pieces, Next) {
        if all_done(p) {
            (self.at(Stage::Finished), p, Next::Done)
        } else {
            match first_claimable(p, self.bitfield, 0) {
                Some(i) => self.at(Stage::Waiting(i, now)).await_unchoke(
                    p.with(i, PieceState::Claimed),
                    t,
                    now,
                ),
                None => (self.at(Stage::Finished), p, Next::Done),
            }
        }
    }

    /// Go on with the claimed piece: wait while the peer chokes us, but not for
    /// too long, and download it otherwise.
    pub open spec fn await_unchoke(self, p: Pieces, t: Torrent, now: int) -> (Task, Pieces, Next) {
        match self.stage {
            Stage::Waiting(piece, since) => if !self.choked {
                self.at(
                    Stage::Downloading(Blocks::empty(piece as u32, piece_len_of(t, piece))),
                ).fetch(p, t)
            } else if now - since > CHOKE_LIMIT {
                self.ended(p, Next::Fail(Error::Peer(PeerError::ChokeTimeout)))
            } else {
                (self, p, Next::Read(CHOKED_SECONDS as int))
            },
            _ => self.ended(p, Next::Abort),
        }
    }

    /// Go on with the piece that is downloaded: ask for the next block, wait for
    /// one, or verify the piece.
    pub open spec fn fetch(self, p: Pieces, t: Torrent) -> (Task, Pieces, Next) {
        match self.stage {
            Stage::Downloading(b) => if b.complete() {
                self.judge(p, t, sha1(b.data))
            } else {
                match b.request(self.pipeline) {
                    Some((begin, length)) => (
                        self.at(Stage::Downloading(b.requested())),
                        p,
                        Next::Send(Msg::Request { index: b.index, begin, length }),
                    ),
                    None => (self, p, Next::Read(BLOCK_SECONDS as int)),
                }
            },
            _ => self.ended(p, Next::Abort),
        }
    }

    /// Go on with a complete piece that has the given digest: write it if that
    /// is the one of the torrent, and discard it otherwise.
    pub open spec fn judge(self, p: Pieces, t: Torrent, digest: Seq<u8>) -> (Task, Pieces, Next) {
        match self.stage {
            Stage::Downloading(b) => if digest == t.piece_hashes[b.index as int] {
                (
                    self.at(Stage::Writing(b.index as int)),
                    p,
                    Next::Write(b.index as int, b.index * t.piece_length, b.data),
                )
            } else {
                self.ended(p, Next::Fail(Error::PieceVerification(b.index)))
            },
            _ => self.ended(p, Next::Abort),
        }
    }

    /// The greeting is over: go on if the peer has something that we need.
    pub open spec fn greeted(self, p: Pieces) -> (Task, Pieces, Next) {
        if is_useful(self.bitfield, p) {
            (self.at(Stage::Interested), p, Next::Send(Msg::Interested))
        } else {
            (self.at(Stage::Finished), p, Next::Done)
        }
    }

    pub open spec fn on_greeting(self, p: Pieces, e: Happened) -> (Task, Pieces, Next) {
        match e {
            Happened::Message(Msg::Bitfield(bits)) => Task {
                bitfield: Seq::new(p.states.len(), |i: int| has_piece(bits, i)),
                ..self
            }.greeted(p),
            Happened::Message(Msg::Have(index)) => (
                Task { bitfield: with_have(self.bitfield, index), ..self },
                p,
                Next::Read(GREETING_SECONDS as int),
            ),
            Happened::Message(Msg::KeepAlive) => (self, p, Next::Read(GREETING_SECONDS as int)),
            Happened::Message(Msg::Extension { .. }) => (
                self,
                p,
                Next::Read(GREETING_SECONDS as int),
            ),
            Happened::Message(_) => self.greeted(p),
            Happened::Closed => self.greeted(p),
            Happened::Failed => self.greeted(p),
            _ => self.ended(p, Next::Abort),
        }
    }

    pub open spec fn on_choked(self, p: Pieces, t: Torrent, e: Happened, now: int) -> (
        Task,
        Pieces,
        Next,
    ) {
        match e {
            Happened::Message(Msg::Unchoke) => Task { choked: false, ..self }.await_unchoke(
                p,
                t,
                now,
            ),
            Happened::Message(Msg::Have(index)) => Task {
                bitfield: with_have(self.bitfield, index),
                ..self
            }.await_unchoke(p, t, now),
            Happened::Message(_) => self.await_unchoke(p, t, now),
            Happened::Closed => self.ended(
                p,
                Next::Fail(Error::Peer(PeerError::LostWhileChoked)),
            ),
            Happened::Failed => self.ended(
                p,
                Next::Fail(Error::Peer(PeerError::LostWhileChoked)),
            ),
            _ => self.ended(p, Next::Abort),
        }
    }

    pub open spec fn on_block(self, p: Pieces, t: Torrent, b: Blocks, e: Happened) -> (
        Task,
        Pieces,
        Next,
    ) {
        match e {
            Happened::Sent => self.fetch(p, t),
            Happened::Message(Msg::Piece { index, begin, data }) => if index != b.index {
                self.fetch(p, t)
            } else {
                match b.store(begin, data) {
                    Ok(next) => self.at(Stage::Downloading(next)).fetch(p, t),
                    Err(x) => self.ended(p, Next::Fail(Error::Peer(x))),
                }
            },
            Happened::Message(Msg::Choke) => Task { choked: true, ..self }.ended(
                p,
                Next::Fail(Error::Peer(PeerError::ChokedMidPiece)),
            ),
            Happened::Message(Msg::Have(index)) => Task {
                bitfield: with_have(self.bitfield, index),
                ..self
            }.fetch(p, t),
            Happened::Message(_) => self.fetch(p, t),
            Happened::Closed => self.ended(p, Next::Fail(Error::Peer(PeerError::ClosedMidPiece))),
            _ => self.ended(p, Next::Abort),
        }
    }

    /// What comes of an event.
    pub open spec fn step(self, p: Pieces, t: Torrent, e: Happened, now: int) -> (
        Task,
        Pieces,
        Next,
    ) {
        match self.stage {
            Stage::Greeting => self.on_greeting(p, e),
            Stage::Interested => match e {
                Happened::Sent => self.claim_next(p, t, now),
                _ => self.ended(p, Next::Abort),
            },
            Stage::Waiting(_, _) => self.on_choked(p, t, e, now),
            Stage::Downloading(b) => self.on_block(p, t, b, e),
            Stage::Writing(piece) => match e {
                Happened::Written => self.claim_next(
                    marked_done(p, piece, piece_len_of(t, piece)),
                    t,
                    now,
                ),
                _ => self.ended(p, Next::Abort),
            },
            Stage::Finished => (self, p, Next::Abort),
        }
    }
}

proof fn lemma_first_claimable(p: Pieces, bitfield: Seq<bool>, from: int, i: int)
    requires
        0 <= from <= i <= p.states.len(),
        forall|j: int| from <= j < i ==> !p.claimable(bitfield, j),
        i < p.states.len() ==> p.claimable(bitfield, i),
    ensures
        first_claimable(p, bitfield, from) == if i < p.states.len() {
            Some(i)
        } else {
            None
        },
    decreases i - from,
{
    if from < i {
        assert(!p.claimable(bitfield, from));
        lemma_first_claimable(p, bitfield, from + 1, i);
    }
}

impl Task {
    /// Whether a task is one of a torrent: it knows of each piece whether the
    /// peer has it, what it claims is a piece, and what it downloads has the
    /// length of the piece.
    pub open spec fn fits(self, t: Torrent) -> bool {
        &&& self.bitfield.len() == piece_count_of(t)
        &&& self.claim() matches Some(i) ==> 0 <= i < piece_count_of(t)
        &&& self.stage matches Stage::Downloading(b) ==> {
            &&& b.data.len() == piece_len_of(t, b.index as int)
            &&& b.received.len() == block_count(b.data.len() as int)
        }
    }
}

fn mark_have(bitfield: &mut Vec<bool>, index: u32)
    ensures
        final(bitfield)@ == with_have(old(bitfield)@, index),
{
    let at: usize = index as usize;
    if at < bitfield.len() {
        bitfield[at] = true;
    }
}

impl PeerTask {
    /// What is downloaded has consistent counts.
    pub closed spec fn wf(&self) -> bool {
        match self.phase {
            Phase::Downloading(d) => d.wf(),
            _ => true,
        }
    }

    /// A connection to a peer of which nothing is known yet. The first thing to
    /// do is to wait for a message, for [`GREETING_SECONDS`].
    pub fn new(meta: &Metainfo, pipeline: usize) -> (task: PeerTask)
        ensures
            task.wf(),
            task@.fits(meta@),
            task@ == (Task {
                bitfield: Seq::new(piece_count_of(meta@) as nat, |i: int| false),
                choked: true,
                pipeline: pipeline as int,
                stage: Stage::Greeting,
            }),
    {
        let count: u32 = meta.piece_count();
        let mut peer_bitfield: Vec<bool> = Vec::new();
        let mut i: u32 = 0;
        while i < count
            invariant
                i <= count,
                peer_bitfield@ == Seq::new(i as nat, |i: int| false),
            decreases count - i,
        {
            peer_bitfield.push(false);
            i = i + 1;
            assert(peer_bitfield@ =~= Seq::new(i as nat, |i: int| false));
        }
        PeerTask { peer_bitfield, choked: true, pipeline, phase: Phase::Greeting }
    }

    /// End the connection and give up its claim.
    fn finish(&mut self, pm: &mut PieceManager, meta: &Metainfo, action: PeerAction) -> (a:
        PeerAction)
        requires
            old(pm).wf(),
            tracks(old(pm)@, meta@),
            old(self)@.fits(meta@),
        ensures
            final(self).wf(),
            final(pm).wf(),
            tracks(final(pm)@, meta@),
            final(self)@.fits(meta@),
            (final(self)@, final(pm)@, a@) == old(self)@.ended(old(pm)@, action@),
    {
        let claimed: Option<u32> = match &self.phase {
            Phase::Waiting { piece, .. } => Some(*piece),
            Phase::Downloading(d) => Some(d.index()),
            Phase::Writing { piece } => Some(*piece),
            _ => None,
        };
        if let Some(i) = claimed {
            proof {
                if pm@.states[i as int] == PieceState::Claimed {
                    lemma_claim_tracks(pm@, meta@, i as int, PieceState::Needed);
                }
            }
            pm.return_piece(i);
        }
        self.phase = Phase::Finished;
        action
    }

    /// Go on with a complete piece that has the given digest: write it if that
    /// is the one of the torrent, and discard it otherwise.
    pub fn judge(&mut self, pm: &mut PieceManager, meta: &Metainfo, digest: &[u8]) -> (a:
        PeerAction)
        requires
            old(self).wf(),
            old(pm).wf(),
            tracks(old(pm)@, meta@),
            is_downloadable(meta@),
            old(self)@.fits(meta@),
        ensures
            final(self).wf(),
            final(pm).wf(),
            tracks(final(pm)@, meta@),
            final(self)@.fits(meta@),
            (final(self)@, final(pm)@, a@) == old(self)@.judge(old(pm)@, meta@, digest@),
    {
        let mut phase = Phase::Finished;
        std::mem::swap(&mut phase, &mut self.phase);
        match phase {
            Phase::Downloading(d) => {
                let index: u32 = d.index();
                assert(meta@.piece_hashes[index as int] == meta.piece_hashes@[index as int]@);
                if same_bytes(digest, meta.piece_hashes[index as usize].as_slice()) {
                    proof {
                        lemma_piece_addressable(meta@, index as int);
                    }
                    let offset: u64 = index as u64 * meta.piece_length;
                    self.phase = Phase::Writing { piece: index };
                    PeerAction::Write { piece: index, offset, data: d.into_data() }
                } else {
                    self.phase = Phase::Downloading(d);
                    self.finish(pm, meta, PeerAction::Fail(Error::PieceVerification(index)))
                }
            },
            other => {
                self.phase = other;
                self.finish(pm, meta, PeerAction::Abort)
            },
        }
    }

    /// Ask for the next block, wait for one, or verify the piece.
    fn fetch(&mut self, pm: &mut PieceManager, meta: &Metainfo) -> (a: PeerAction)
        requires
            old(self).wf(),
            old(pm).wf(),
            tracks(old(pm)@, meta@),
            is_downloadable(meta@),
            old(self)@.fits(meta@),
        ensures
            final(self).wf(),
            final(pm).wf(),
            tracks(final(pm)@, meta@),
            final(self)@.fits(meta@),
            (final(self)@, final(pm)@, a@) == old(self)@.fetch(old(pm)@, meta@),
    {
        let mut phase = Phase::Finished;
        std::mem::swap(&mut phase, &mut self.phase);
        match phase {
            Phase::Downloading(mut d) => {
                if d.is_complete() {
                    let digest = sha1_digest(d.data());
                    self.phase = Phase::Downloading(d);
                    return self.judge(pm, meta, digest.as_slice());
                }
                let index: u32 = d.index();
                let request: Option<(u32, u32)> = d.next_request(self.pipeline);
                self.phase = Phase::Downloading(d);
                match request {
                    Some((begin, length)) => PeerAction::Send(
                        Message::Request { index, begin, length },
                    ),
                    None => PeerAction::Read { seconds: BLOCK_SECONDS },
                }
            },
            other => {
                self.phase = other;
                self.finish(pm, meta, PeerAction::Abort)
            },
        }
    }

    /// Wait while the peer chokes us, and download the claimed piece otherwise.
    fn await_unchoke(&mut self, pm: &mut PieceManager, meta: &Metainfo, now: u128) -> (a:
        PeerAction)
        requires
            old(self).wf(),
            old(pm).wf(),
            tracks(old(pm)@, meta@),
            is_downloadable(meta@),
            old(self)@.fits(meta@),
        ensures
            final(self).wf(),
            final(pm).wf(),
            tracks(final(pm)@, meta@),
            final(self)@.fits(meta@),
            (final(self)@, final(pm)@, a@) == old(self)@.await_unchoke(
                old(pm)@,
                meta@,
                now as int,
            ),
    {
        match &self.phase {
            Phase::Waiting { piece, since } => {
                let piece: u32 = *piece;
                let since: u128 = *since;
                if !self.choked {
                    proof {
                        lemma_piece_addressable(meta@, piece as int);
                    }
                    let len: u64 = meta.piece_len(piece);
                    self.phase = Phase::Downloading(PieceDownload::new(piece, len as usize));
                    self.fetch(pm, meta)
                } else if now.saturating_sub(since) > CHOKE_LIMIT {
                    self.finish(pm, meta, PeerAction::Fail(Error::Peer(PeerError::ChokeTimeout)))
                } else {
                    PeerAction::Read { seconds: CHOKED_SECONDS }
                }
            },
            _ => self.finish(pm, meta, PeerAction::Abort),
        }
    }

    /// Claim the next piece, if there is one for this peer.
    fn claim_next(&mut self, pm: &mut PieceManager, meta: &Metainfo, now: u128) -> (a: PeerAction)
        requires
            old(pm).wf(),
            tracks(old(pm)@, meta@),
            is_downloadable(meta@),
            old(self)@.fits(meta@),
        ensures
            final(self).wf(),
            final(pm).wf(),
            tracks(final(pm)@, meta@),
            final(self)@.fits(meta@),
            (final(self)@, final(pm)@, a@) == old(self)@.claim_next(old(pm)@, meta@, now as int),
    {
        if pm.is_complete() {
            self.phase = Phase::Finished;
            return PeerAction::Done;
        }
        let ghost before = pm@;
        match pm.claim_piece(self.peer_bitfield.as_slice()) {
            Some(i) => {
                proof {
                    lemma_first_claimable(before, self@.bitfield, 0, i as int);
                    lemma_claim_tracks(before, meta@, i as int, PieceState::Claimed);
                }
                self.phase = Phase::Waiting { piece: i, since: now };
                self.await_unchoke(pm, meta, now)
            },
            None => {
                proof {
                    lemma_first_claimable(before, self@.bitfield, 0, before.states.len() as int);
                }
                self.phase = Phase::Finished;
                PeerAction::Done
            },
        }
    }
}

impl Metainfo {
    /// Whether the pieces of this torrent can be downloaded block by block.
    pub fn is_downloadable(&self) -> (r: bool)
        ensures
            r == is_downloadable(self@),
    {
        if !self.is_addressable() {
            return false;
        }
        if self.piece_count() == 0 {
            return true;
        }
        // No piece is longer than the first.
        let longest: u64 = self.piece_len(0);
        proof {
            assert forall|i: int| 0 <= i < piece_count_of(self@) implies #[trigger] piece_len_of(
                self@,
                i,
            ) <= longest by {
                lemma_piece_addressable(self@, i);
            }
            assert(piece_len_of(self@, 0) == longest);
        }
        longest <= MAX_PIECE_LEN && longest <= usize::MAX as u64
    }
}

impl PeerTask {
    /// Go on after the greeting if the peer has something that we need.
    fn greeted(&mut self, pm: &PieceManager, meta: &Metainfo) -> (a: PeerAction)
        requires
            pm.wf(),
            tracks(pm@, meta@),
            old(self)@.fits(meta@),
        ensures
            final(self).wf(),
            final(self)@.fits(meta@),
            (final(self)@, pm@, a@) == old(self)@.greeted(pm@),
    {
        let count: u32 = meta.piece_count();
        let mut i: u32 = 0;
        while i < count
            invariant
                *self == *old(self),
                i <= count,
                count == piece_count_of(meta@),
                self@.fits(meta@),
                forall|j: int|
                    0 <= j < i ==> !(#[trigger] self@.bitfield[j] && pm@.missing(j)),
            decreases count - i,
        {
            if self.peer_bitfield[i as usize] && pm.needs(i) {
                assert(self@.bitfield[i as int] && pm@.missing(i as int));
                self.phase = Phase::Interested;
                return PeerAction::Send(Message::Interested);
            }
            i = i + 1;
        }
        self.phase = Phase::Finished;
        PeerAction::Done
    }

    fn on_greeting(&mut self, pm: &mut PieceManager, meta: &Metainfo, event: PeerEvent) -> (a:
        PeerAction)
        requires
            old(self).wf(),
            old(pm).wf(),
            tracks(old(pm)@, meta@),
            old(self)@.fits(meta@),
            old(self)@.stage == Stage::Greeting,
        ensures
            final(self).wf(),
            final(pm).wf(),
            tracks(final(pm)@, meta@),
            final(self)@.fits(meta@),
            (final(self)@, final(pm)@, a@) == old(self)@.on_greeting(old(pm)@, event@),
    {
        match event {
            PeerEvent::Message(Message::Bitfield(bits)) => {
                self.peer_bitfield =
                PieceManager::bitfield_to_vec(bits.as_slice(), meta.piece_count());
                assert(self.peer_bitfield@ =~= Seq::new(
                    pm@.states.len(),
                    |i: int| has_piece(bits@, i),
                ));
                self.greeted(pm, meta)
            },
            PeerEvent::Message(Message::Have(index)) => {
                mark_have(&mut self.peer_bitfield, index);
                PeerAction::Read { seconds: GREETING_SECONDS }
            },
            PeerEvent::Message(Message::KeepAlive) => PeerAction::Read {
                seconds: GREETING_SECONDS,
            },
            PeerEvent::Message(Message::Extension { .. }) => PeerAction::Read {
                seconds: GREETING_SECONDS,
            },
            PeerEvent::Message(_) => self.greeted(pm, meta),
            PeerEvent::Closed => self.greeted(pm, meta),
            PeerEvent::Failed => self.greeted(pm, meta),
            _ => self.finish(pm, meta, PeerAction::Abort),
        }
    }

    fn on_choked(
        &mut self,
        pm: &mut PieceManager,
        meta: &Metainfo,
        event: PeerEvent,
        now: u128,
    ) -> (a: PeerAction)
        requires
            old(self).wf(),
            old(pm).wf(),
            tracks(old(pm)@, meta@),
            is_downloadable(meta@),
            old(self)@.fits(meta@),
            old(self)@.stage is Waiting,
        ensures
            final(self).wf(),
            final(pm).wf(),
            tracks(final(pm)@, meta@),
            final(self)@.fits(meta@),
            (final(self)@, final(pm)@, a@) == old(self)@.on_choked(
                old(pm)@,
                meta@,
                event@,
                now as int,
            ),
    {
        match event {
            PeerEvent::Message(Message::Unchoke) => {
                self.choked = false;
                self.await_unchoke(pm, meta, now)
            },
            PeerEvent::Message(Message::Have(index)) => {
                mark_have(&mut self.peer_bitfield, index);
                self.await_unchoke(pm, meta, now)
            },
            PeerEvent::Message(_) => self.await_unchoke(pm, meta, now),
            PeerEvent::Closed => self.finish(
                pm,
                meta,
                PeerAction::Fail(Error::Peer(PeerError::LostWhileChoked)),
            ),
            PeerEvent::Failed => self.finish(
                pm,
                meta,
                PeerAction::Fail(Error::Peer(PeerError::LostWhileChoked)),
            ),
            _ => self.finish(pm, meta, PeerAction::Abort),
        }
    }

    fn on_block(&mut self, pm: &mut PieceManager, meta: &Metainfo, event: PeerEvent) -> (a:
        PeerAction)
        requires
            old(self).wf(),
            old(pm).wf(),
            tracks(old(pm)@, meta@),
            is_downloadable(meta@),
            old(self)@.fits(meta@),
            old(self)@.stage is Downloading,
        ensures
            final(self).wf(),
            final(pm).wf(),
            tracks(final(pm)@, meta@),
            final(self)@.fits(meta@),
            (final(self)@, final(pm)@, a@) == old(self)@.on_block(
                old(pm)@,
                meta@,
                old(self)@.stage->Downloading_0,
                event@,
            ),
    {
        match event {
            PeerEvent::Sent => self.fetch(pm, meta),
            PeerEvent::Message(Message::Piece { index, begin, data }) => self.on_piece(
                pm,
                meta,
                index,
                begin,
                bytes_slice(&data),
            ),
            PeerEvent::Message(Message::Choke) => {
                self.choked = true;
                self.finish(pm, meta, PeerAction::Fail(Error::Peer(PeerError::ChokedMidPiece)))
            },
            PeerEvent::Message(Message::Have(index)) => {
                mark_have(&mut self.peer_bitfield, index);
                self.fetch(pm, meta)
            },
            PeerEvent::Message(_) => self.fetch(pm, meta),
            PeerEvent::Closed => self.finish(
                pm,
                meta,
                PeerAction::Fail(Error::Peer(PeerError::ClosedMidPiece)),
            ),
            _ => self.finish(pm, meta, PeerAction::Abort),
        }
    }

    fn on_piece(
        &mut self,
        pm: &mut PieceManager,
        meta: &Metainfo,
        index: u32,
        begin: u32,
        data: &[u8],
    ) -> (a: PeerAction)
        requires
            old(self).wf(),
            old(pm).wf(),
            tracks(old(pm)@, meta@),
            is_downloadable(meta@),
            old(self)@.fits(meta@),
            old(self)@.stage is Downloading,
        ensures
            final(self).wf(),
            final(pm).wf(),
            tracks(final(pm)@, meta@),
            final(self)@.fits(meta@),
            (final(self)@, final(pm)@, a@) == old(self)@.on_block(
                old(pm)@,
                meta@,
                old(self)@.stage->Downloading_0,
                Happened::Message(Msg::Piece { index, begin, data: data@ }),
            ),
    {
        let mut phase = Phase::Finished;
        std::mem::swap(&mut phase, &mut self.phase);
        match phase {
            Phase::Downloading(mut d) => {
                if index != d.index() {
                    self.phase = Phase::Downloading(d);
                    return self.fetch(pm, meta);
                }
                let stored = d.on_block(begin, data);
                self.phase = Phase::Downloading(d);
                match stored {
                    Ok(_) => self.fetch(pm, meta),
                    Err(e) => self.finish(pm, meta, PeerAction::Fail(Error::Peer(e))),
                }
            },
            other => {
                self.phase = other;
                PeerAction::Abort
            },
        }
    }

    /// Go on after something happened, at a time in nanoseconds.
    pub fn step(
        &mut self,
        pm: &mut PieceManager,
        meta: &Metainfo,
        event: PeerEvent,
        now: u128,
    ) -> (a: PeerAction)
        requires
            old(self).wf(),
            old(pm).wf(),
            tracks(old(pm)@, meta@),
            is_downloadable(meta@),
            old(self)@.fits(meta@),
        ensures
            final(self).wf(),
            final(pm).wf(),
            tracks(final(pm)@, meta@),
            final(self)@.fits(meta@),
            (final(self)@, final(pm)@, a@) == old(self)@.step(
                old(pm)@,
                meta@,
                event@,
                now as int,
            ),
    {
        match &self.phase {
            Phase::Greeting => self.on_greeting(pm, meta, event),
            Phase::Interested => match event {
                PeerEvent::Sent => self.claim_next(pm, meta, now),
                _ => self.finish(pm, meta, PeerAction::Abort),
            },
            Phase::Waiting { .. } => self.on_choked(pm, meta, event, now),
            Phase::Downloading(_) => self.on_block(pm, meta, event),
            Phase::Writing { piece } => match event {
                PeerEvent::Written => {
                    let piece: u32 = *piece;
                    proof {
                        if pm@.missing(piece as int) {
                            lemma_room_for_missing(pm@, meta@, piece as int);
                            lemma_mark_done_tracks(pm@, meta@, piece as int);
                        }
                    }
                    pm.mark_done(piece, meta.piece_len(piece));
                    self.claim_next(pm, meta, now)
                },
                _ => self.finish(pm, meta, PeerAction::Abort),
            },
            Phase::Finished => PeerAction::Abort,
        }
    }
}

// Laws

proof fn lemma_next_claim(p: Pieces, bitfield: Seq<bool>, from: int)
    requires
        0 <= from,
    ensures
        first_claimable(p, bitfield, from) matches Some(i) ==> from <= i && p.claimable(bitfield, i),
    decreases p.states.len() - from,
{
    if from < p.states.len() && !p.claimable(bitfield, from) {
        lemma_next_claim(p, bitfield, from + 1);
    }
}

/// A piece is never claimed twice, and never lost: a step of one task leaves the
/// pieces alone that others claim, what it claims is claimed, and when it gives
/// up its claim the piece is needed again, or done after it was written.
#[verifier::spinoff_prover]
#[verifier::rlimit(60)]
pub proof fn lemma_claims(task: Task, p: Pieces, t: Torrent, e: Happened, now: int)
    requires
        task.fits(t),
        tracks(p, t),
        is_downloadable(t),
        task.claim() matches Some(i) ==> p.states[i] == PieceState::Claimed,
    ensures
        ({
            let (next, q, action) = task.step(p, t, e, now);
            &&& q.states.len() == p.states.len()
            &&& forall|j: int|
                0 <= j < p.states.len() && p.states[j] == PieceState::Claimed && task.claim()
                    != Some(j) ==> #[trigger] q.states[j] == PieceState::Claimed && next.claim()
                    != Some(j)
            &&& forall|j: int|
                0 <= j < p.states.len() && p.states[j] == PieceState::Done
                    ==> #[trigger] q.states[j] == PieceState::Done
            &&& next.claim() matches Some(i) ==> 0 <= i < q.states.len() && q.states[i]
                == PieceState::Claimed
            &&& task.claim() matches Some(i) ==> next.claim() == Some(i) || q.states[i]
                == if task.stage is Writing && e is Written {
                PieceState::Done
            } else {
                PieceState::Needed
            }
            &&& action is Done || action is Fail || action is Abort ==> next.claim() is None
        }),
{
    lemma_next_claim(p, task.bitfield, 0);
    if let Stage::Writing(i) = task.stage {
        lemma_next_claim(marked_done(p, i, piece_len_of(t, i)), task.bitfield, 0);
    }
}

/// What is written is a piece of the torrent: it has the length and the digest
/// that the torrent states, and goes where the piece belongs.
pub proof fn lemma_only_verified_is_written(
    task: Task,
    p: Pieces,
    t: Torrent,
    e: Happened,
    now: int,
)
    requires
        task.fits(t),
        is_downloadable(t),
        tracks(p, t),
    ensures
        task.step(p, t, e, now).2 matches Next::Write(i, offset, data) ==> {
            &&& sha1(data) == t.piece_hashes[i]
            &&& data.len() == piece_len_of(t, i)
            &&& offset == i * t.piece_length
            &&& 0 <= i < piece_count_of(t)
        },
{
    lemma_next_claim(p, task.bitfield, 0);
    if let Stage::Writing(i) = task.stage {
        lemma_next_claim(marked_done(p, i, piece_len_of(t, i)), task.bitfield, 0);
    }
}

/// Every block that a peer sends as it was asked for brings a piece closer to
/// being written: either blocks are still missing, or the piece is written.
pub proof fn lemma_good_blocks_are_written(
    task: Task,
    p: Pieces,
    t: Torrent,
    piece: Seq<u8>,
    block: int,
    now: int,
)
    requires
        task.fits(t),
        is_downloadable(t),
        task.stage is Downloading,
        agrees(task.stage->Downloading_0, piece),
        0 <= block < task.stage->Downloading_0.received.len(),
        sha1(piece) == t.piece_hashes[task.stage->Downloading_0.index as int],
    ensures
        ({
            let b = task.stage->Downloading_0;
            let e = Happened::Message(
                Msg::Piece {
                    index: b.index,
                    begin: (block * BLOCK_SIZE) as u32,
                    data: block_of(piece, block),
                },
            );
            let (next, q, action) = task.step(p, t, e, now);
            &&& q == p
            &&& if forall|k: int|
                0 <= k < b.received.len() && k != block ==> #[trigger] b.received[k] {
                action == Next::Write(b.index as int, b.index * t.piece_length, piece)
            } else {
                &&& next.stage matches Stage::Downloading(c) && agrees(c, piece)
                    && c.received == b.received.update(block, true)
                &&& action is Send || action is Read
            }
        }),
{
    let b = task.stage->Downloading_0;
    lemma_piece_addressable(t, b.index as int);
    lemma_blocks_assemble(b, piece, block);
    let c = b.store((block * BLOCK_SIZE) as u32, block_of(piece, block)).unwrap();
    assert(c.received =~= b.received.update(block, true));
    lemma_blocks_assemble(c, piece, block);
    assert(c.complete() <==> forall|k: int|
        0 <= k < b.received.len() && k != block ==> #[trigger] b.received[k]) by {
        if c.complete() {
            assert forall|k: int| 0 <= k < b.received.len() && k != block implies #[trigger] b.received[k] by {
                assert(c.received[k]);
            }
        }
    }
}

// What a peer can count on

/// The task and the pieces after messages of the peer, one after the other.
pub open spec fn told(task: Task, p: Pieces, t: Torrent, messages: Seq<Msg>, now: int) -> (
    Task,
    Pieces,
    Next,
)
    decreases messages.len(),
{
    if messages.len() == 0 {
        (task, p, Next::Read(3))
    } else {
        let (u, q, _) = told(task, p, t, messages.drop_last(), now);
        u.step(q, t, Happened::Message(messages.last()), now)
    }
}

/// Whether a message leaves the peer time to tell more before we go on.
pub open spec fn is_prelude(m: Msg) -> bool {
    m is Have || m is KeepAlive || m is Extension
}

/// A peer takes its time to tell what it has: keep-alives, extension messages
/// and single pieces change nothing but what is known of the peer, and the next
/// message is awaited.
pub proof fn lemma_prelude(task: Task, p: Pieces, t: Torrent, messages: Seq<Msg>, now: int)
    requires
        task.stage is Greeting,
        forall|k: int| 0 <= k < messages.len() ==> is_prelude(#[trigger] messages[k]),
    ensures
        ({
            let (u, q, next) = told(task, p, t, messages, now);
            &&& q == p
            &&& next == Next::Read(3)
            &&& u.stage is Greeting
            &&& u.choked == task.choked
            &&& u.pipeline == task.pipeline
            &&& u.bitfield.len() == task.bitfield.len()
            &&& forall|i: int|
                0 <= i < task.bitfield.len() ==> (#[trigger] u.bitfield[i] <==> task.bitfield[i]
                    || exists|k: int|
                    0 <= k < messages.len() && (#[trigger] messages[k] matches Msg::Have(x) && x
                        == i))
            &&& (forall|k: int| 0 <= k < messages.len() ==> !(#[trigger] messages[k] is Have))
                ==> u == task
        }),
    decreases messages.len(),
{
    if messages.len() > 0 {
        let head = messages.drop_last();
        let last = messages.last();
        let n = messages.len() - 1;
        assert(messages[n] == last);
        assert forall|k: int| 0 <= k < head.len() implies is_prelude(#[trigger] head[k]) by {
            assert(is_prelude(messages[k]));
        }
        lemma_prelude(task, p, t, head, now);
        let u = told(task, p, t, head, now).0;
        let v = told(task, p, t, messages, now).0;
        assert forall|i: int| 0 <= i < task.bitfield.len() implies (#[trigger] v.bitfield[i] <==> (
        task.bitfield[i] || exists|k: int|
            0 <= k < messages.len() && (#[trigger] messages[k] matches Msg::Have(x) && x == i))) by {
            assert(u.bitfield[i] <==> task.bitfield[i] || exists|k: int|
                0 <= k < head.len() && (#[trigger] head[k] matches Msg::Have(x) && x == i));
            if exists|k: int|
                0 <= k < head.len() && (#[trigger] head[k] matches Msg::Have(x) && x == i) {
                let k = choose|k: int|
                    0 <= k < head.len() && (#[trigger] head[k] matches Msg::Have(x) && x == i);
                assert(messages[k] == head[k]);
            }
            if exists|k: int|
                0 <= k < messages.len() && (#[trigger] messages[k] matches Msg::Have(x) && x
                    == i) {
                let k = choose|k: int|
                    0 <= k < messages.len() && (#[trigger] messages[k] matches Msg::Have(x) && x
                        == i);
                if k < n {
                    assert(head[k] == messages[k]);
                }
            }
        }
        if forall|k: int| 0 <= k < messages.len() ==> !(#[trigger] messages[k] is Have) {
            assert forall|k: int| 0 <= k < head.len() implies !(#[trigger] head[k] is Have) by {
                assert(!(messages[k] is Have));
            }
            assert(!(messages[n] is Have));
        }
    }
}

/// Whatever a peer says before it, a bitfield tells what the peer has: we are
/// interested in it exactly if it shows a piece that is missing.
pub proof fn lemma_bitfield_decides(
    task: Task,
    p: Pieces,
    t: Torrent,
    messages: Seq<Msg>,
    bits: Seq<u8>,
    now: int,
)
    requires
        task.stage is Greeting,
        forall|k: int| 0 <= k < messages.len() ==> is_prelude(#[trigger] messages[k]),
    ensures
        ({
            let (u, q, next) = told(task, p, t, messages.push(Msg::Bitfield(bits)), now);
            &&& q == p
            &&& if exists|i: int| #[trigger] p.missing(i) && has_piece(bits, i) {
                &&& next == Next::Send(Msg::Interested)
                &&& u.stage is Interested
                &&& u.bitfield.len() == p.states.len()
                &&& forall|i: int|
                    0 <= i < p.states.len() ==> #[trigger] u.bitfield[i] == has_piece(bits, i)
            } else {
                next is Done && u.claim() is None
            }
        }),
{
    lemma_prelude(task, p, t, messages, now);
    let all = messages.push(Msg::Bitfield(bits));
    assert(all.drop_last() =~= messages);
    let u = told(task, p, t, all, now).0;
    let shown = Seq::new(p.states.len(), |i: int| has_piece(bits, i));
    if exists|i: int| #[trigger] p.missing(i) && has_piece(bits, i) {
        let i = choose|i: int| #[trigger] p.missing(i) && has_piece(bits, i);
        assert(shown[i] && p.missing(i));
    }
    if is_useful(shown, p) {
        let i = choose|i: int| 0 <= i < shown.len() && #[trigger] shown[i] && p.missing(i);
        assert(p.missing(i) && has_piece(bits, i));
    }
}

/// A greeting that ends without a bitfield, by another message, by silence or
/// by the end of the connection: we are interested exactly if one of the pieces
/// that the peer named is missing.
pub proof fn lemma_greeting_ends(
    task: Task,
    p: Pieces,
    t: Torrent,
    messages: Seq<Msg>,
    end: Happened,
    now: int,
)
    requires
        task.stage is Greeting,
        task.bitfield == Seq::new(p.states.len(), |i: int| false),
        forall|k: int| 0 <= k < messages.len() ==> is_prelude(#[trigger] messages[k]),
        end is Closed || end is Failed || (end matches Happened::Message(m) && !is_prelude(m) && !(
        m is Bitfield)),
    ensures
        ({
            let u = told(task, p, t, messages, now).0;
            let (v, q, next) = u.step(p, t, end, now);
            &&& q == p
            &&& if exists|k: int|
                0 <= k < messages.len() && (#[trigger] messages[k] matches Msg::Have(x)
                    && p.missing(x as int)) {
                next == Next::Send(Msg::Interested) && v.stage is Interested && v.bitfield
                    == u.bitfield
            } else {
                next is Done && v.claim() is None
            }
        }),
{
    lemma_prelude(task, p, t, messages, now);
    let u = told(task, p, t, messages, now).0;
    if exists|k: int|
        0 <= k < messages.len() && (#[trigger] messages[k] matches Msg::Have(x) && p.missing(
            x as int,
        )) {
        let k = choose|k: int|
            0 <= k < messages.len() && (#[trigger] messages[k] matches Msg::Have(x) && p.missing(
                x as int,
            ));
        let i = messages[k]->Have_0 as int;
        assert(u.bitfield[i]);
    }
    if is_useful(u.bitfield, p) {
        let i = choose|i: int| 0 <= i < u.bitfield.len() && #[trigger] u.bitfield[i] && p.missing(i);
        assert(u.bitfield[i]);
        assert(!task.bitfield[i]);
    }
}

/// How long the first block of a piece is.
pub open spec fn first_block(len: int) -> int {
    if len <= 16384 {
        len
    } else {
        16384
    }
}

/// Whether a step takes on the first needed piece that the peer has, and asks
/// for it unless the peer chokes us; or ends when there is none.
pub open spec fn takes_first(
    task: Task,
    states: Seq<PieceState>,
    t: Torrent,
    after: (Task, Pieces, Next),
) -> bool {
    let (u, q, next) = after;
    if forall|i: int|
        0 <= i < states.len() && #[trigger] states[i] == PieceState::Needed ==> !task.bitfield[i] {
        q.states == states && next is Done && u.claim() is None
    } else {
        &&& u.claim() matches Some(i) && {
            &&& 0 <= i < states.len() && states[i] == PieceState::Needed && task.bitfield[i]
            &&& forall|j: int|
                0 <= j < i && #[trigger] states[j] == PieceState::Needed ==> !task.bitfield[j]
            &&& q.states == states.update(i, PieceState::Claimed)
            &&& next == if task.choked {
                Next::Read(5)
            } else {
                Next::Send(
                    Msg::Request {
                        index: i as u32,
                        begin: 0,
                        length: first_block(piece_len_of(t, i)) as u32,
                    },
                )
            }
        }
        &&& u.choked == task.choked
        &&& u.bitfield == task.bitfield
        &&& u.pipeline == task.pipeline
    }
}

proof fn lemma_claim_next(task: Task, p: Pieces, t: Torrent, now: int)
    requires
        is_downloadable(t),
        task.pipeline > 0,
        p.states.len() == piece_count_of(t),
        task.bitfield.len() == piece_count_of(t),
    ensures
        takes_first(task, p.states, t, task.claim_next(p, t, now)),
        task.claim_next(p, t, now).1.downloaded == p.downloaded,
{
    lemma_next_claim(p, task.bitfield, 0);
    lemma_first_is_least(p, task.bitfield, 0);
    match first_claimable(p, task.bitfield, 0) {
        Some(i) => {
            assert(p.states[i] == PieceState::Needed);
            assert forall|j: int|
                0 <= j < i && #[trigger] p.states[j]
                    == PieceState::Needed implies !task.bitfield[j] by {
                assert(!p.claimable(task.bitfield, j));
            }
            lemma_first_request(task.at(Stage::Waiting(i, now)), i, t);
        },
        None => {
            assert forall|i: int|
                0 <= i < p.states.len() && #[trigger] p.states[i]
                    == PieceState::Needed implies !task.bitfield[i] by {
                assert(!p.claimable(task.bitfield, i));
            }
        },
    }
}

proof fn lemma_first_is_least(p: Pieces, bitfield: Seq<bool>, from: int)
    requires
        0 <= from,
    ensures
        match first_claimable(p, bitfield, from) {
            Some(i) => from <= i < p.states.len() && p.claimable(bitfield, i) && forall|j: int|
                from <= j < i ==> !#[trigger] p.claimable(bitfield, j),
            None => forall|j: int|
                from <= j < p.states.len() ==> !#[trigger] p.claimable(bitfield, j),
        },
    decreases p.states.len() - from,
{
    if from < p.states.len() && !p.claimable(bitfield, from) {
        lemma_first_is_least(p, bitfield, from + 1);
    }
}

/// The first thing to do for an unchoked piece is to ask for its first block.
proof fn lemma_first_request(task: Task, i: int, t: Torrent)
    requires
        is_downloadable(t),
        task.pipeline > 0,
        0 <= i < piece_count_of(t),
    ensures
        ({
            let b = Blocks::empty(i as u32, piece_len_of(t, i));
            &&& !b.complete()
            &&& b.request(task.pipeline) == Some(
                (0u32, first_block(piece_len_of(t, i)) as u32),
            )
        }),
{
    let len = piece_len_of(t, i);
    lemma_piece_addressable(t, i);
    let b = Blocks::empty(i as u32, len);
    assert(len <= MAX_PIECE_LEN);
    assert(b.received.len() > 0);
    assert(!b.received[0]);
    lemma_no_flags(b.received);
    assert(b.data.len() == len);
    if b.received.len() == 1 {
        assert(len <= 16384);
    } else {
        assert(len > 16384);
    }
}

proof fn lemma_no_flags(flags: Seq<bool>)
    requires
        forall|i: int| 0 <= i < flags.len() ==> !#[trigger] flags[i],
    ensures
        set_flags(flags) == 0,
    decreases flags.len(),
{
    if flags.len() > 0 {
        assert(!flags[flags.len() - 1]);
        assert forall|i: int| 0 <= i < flags.drop_last().len() implies !#[trigger] flags.drop_last()[i] by {
            assert(!flags[i]);
        }
        lemma_no_flags(flags.drop_last());
    }
}

/// Once the peer knows that we are interested, the first needed piece that the
/// peer has is claimed, and asked for unless the peer chokes us; when there is
/// none, we are done with the peer.
pub proof fn lemma_first_piece(task: Task, p: Pieces, t: Torrent, now: int)
    requires
        is_downloadable(t),
        task.pipeline > 0,
        task.fits(t),
        tracks(p, t),
        task.stage is Interested,
    ensures
        takes_first(task, p.states, t, task.step(p, t, Happened::Sent, now)),
        task.step(p, t, Happened::Sent, now).1.downloaded == p.downloaded,
{
    lemma_claim_next(task, p, t, now);
}

/// A piece that has been written is done and counted, and the next one is taken
/// on in the same way.
pub proof fn lemma_next_piece(task: Task, p: Pieces, t: Torrent, now: int)
    requires
        is_downloadable(t),
        task.pipeline > 0,
        task.fits(t),
        tracks(p, t),
        task.stage is Writing,
        p.states[task.stage->Writing_0] == PieceState::Claimed,
    ensures
        ({
            let i = task.stage->Writing_0;
            let after = task.step(p, t, Happened::Written, now);
            &&& takes_first(task, p.states.update(i, PieceState::Done), t, after)
            &&& after.1.downloaded == p.downloaded + piece_len_of(t, i)
        }),
{
    let i = task.stage->Writing_0;
    lemma_room_for_missing(p, t, i);
    lemma_claim_next(task, marked_done(p, i, piece_len_of(t, i)), t, now);
}

/// While the peer chokes us, every message but an unchoke is waited out, up to a
/// minute; an unchoke has the claimed piece asked for, and the end of the
/// connection or of the minute gives it back.
pub proof fn lemma_waiting(task: Task, p: Pieces, t: Torrent, e: Happened, now: int)
    requires
        is_downloadable(t),
        task.pipeline > 0,
        task.fits(t),
        tracks(p, t),
        task.stage is Waiting,
        task.choked,
        p.states[task.stage->Waiting_0] == PieceState::Claimed,
    ensures
        ({
            let i = task.stage->Waiting_0;
            let since = task.stage->Waiting_1;
            let (u, q, next) = task.step(p, t, e, now);
            &&& e matches Happened::Message(m) ==> if m is Unchoke {
                &&& q == p
                &&& u.claim() == Some(i)
                &&& !u.choked
                &&& next == Next::Send(
                    Msg::Request {
                        index: i as u32,
                        begin: 0,
                        length: first_block(piece_len_of(t, i)) as u32,
                    },
                )
            } else if now - since <= 60_000_000_000 {
                &&& q == p
                &&& u.stage == task.stage
                &&& u.choked
                &&& next == Next::Read(5)
                &&& forall|j: int|
                    0 <= j < task.bitfield.len() ==> (#[trigger] u.bitfield[j] <==> task.bitfield[j]
                        || (m matches Msg::Have(x) && x == j))
            } else {
                &&& next == Next::Fail(Error::Peer(PeerError::ChokeTimeout))
                &&& u.claim() is None
                &&& q.states == p.states.update(i, PieceState::Needed)
            }
            &&& e is Closed || e is Failed ==> {
                &&& next == Next::Fail(Error::Peer(PeerError::LostWhileChoked))
                &&& u.claim() is None
                &&& q.states == p.states.update(i, PieceState::Needed)
            }
        }),
{
    let i = task.stage->Waiting_0;
    lemma_first_request(task, i, t);
}

/// Whether a message brings data of a piece.
pub open spec fn brings(m: Msg, piece: u32) -> bool {
    m matches Msg::Piece { index, .. } && index == piece
}

/// While a piece is on its way, messages that bring nothing of it change nothing
/// of it, and we go on asking and waiting for its blocks; a choke, the end of the
/// connection or a failure gives the piece back.
pub proof fn lemma_not_distracted(task: Task, p: Pieces, t: Torrent, e: Happened, now: int)
    requires
        task.fits(t),
        task.stage is Downloading,
        !task.stage->Downloading_0.complete(),
        tracks(p, t),
        p.states[task.stage->Downloading_0.index as int] == PieceState::Claimed,
    ensures
        ({
            let b = task.stage->Downloading_0;
            let (u, q, next) = task.step(p, t, e, now);
            let goes_on = {
                &&& q == p
                &&& u.choked == task.choked
                &&& u.pipeline == task.pipeline
                &&& u.stage matches Stage::Downloading(c) && c.data == b.data && c.received
                    == b.received && c.index == b.index && c.next_request == b.next_request + if b.request(
                    task.pipeline,
                ) is Some {
                    1int
                } else {
                    0int
                }
                &&& match b.request(task.pipeline) {
                    Some((begin, length)) => next == Next::Send(
                        Msg::Request { index: b.index, begin, length },
                    ),
                    None => next == Next::Read(30),
                }
            };
            let given_back = {
                &&& u.claim() is None
                &&& q.states == p.states.update(b.index as int, PieceState::Needed)
            };
            &&& e is Sent ==> goes_on
            &&& e matches Happened::Message(m) ==> (!(m is Choke) && !brings(m, b.index) ==> {
                &&& goes_on
                &&& forall|j: int|
                    0 <= j < task.bitfield.len() ==> (#[trigger] u.bitfield[j] <==> task.bitfield[j]
                        || (m matches Msg::Have(x) && x == j))
            })
            &&& e matches Happened::Message(Msg::Choke) ==> given_back && next == Next::Fail(
                Error::Peer(PeerError::ChokedMidPiece),
            )
            &&& e is Closed ==> given_back && next == Next::Fail(
                Error::Peer(PeerError::ClosedMidPiece),
            )
            &&& e is Failed || e is SendFailed ==> given_back && next is Abort
        }),
{
}

/// A piece that is complete with wrong bytes is given back, and never written.
pub proof fn lemma_wrong_piece_is_given_back(
    task: Task,
    p: Pieces,
    t: Torrent,
    begin: u32,
    data: Seq<u8>,
    now: int,
)
    requires
        task.fits(t),
        task.stage is Downloading,
        tracks(p, t),
        p.states[task.stage->Downloading_0.index as int] == PieceState::Claimed,
    ensures
        ({
            let b = task.stage->Downloading_0;
            let e = Happened::Message(Msg::Piece { index: b.index, begin, data });
            b.store(begin, data) matches Ok(c) && c.complete() && sha1(c.data)
                != t.piece_hashes[b.index as int] ==> {
                let (u, q, next) = task.step(p, t, e, now);
                &&& next == Next::Fail(Error::PieceVerification(b.index))
                &&& u.claim() is None
                &&& q.states == p.states.update(b.index as int, PieceState::Needed)
            }
        }),
{
}

/// A piece that cannot be written is given back.
pub proof fn lemma_unwritten_is_given_back(task: Task, p: Pieces, t: Torrent, now: int)
    requires
        task.fits(t),
        task.stage is Writing,
        tracks(p, t),
        p.states[task.stage->Writing_0] == PieceState::Claimed,
    ensures
        ({
            let (u, q, next) = task.step(p, t, Happened::WriteFailed, now);
            &&& next is Abort
            &&& u.claim() is None
            &&& q.states == p.states.update(task.stage->Writing_0, PieceState::Needed)
        }),
{
}

/// What does not belong where the connection stands, such as a message that
/// could not be sent, ends it without a result; a claimed piece is given back,
/// and nothing else changes. After the end nothing happens any more.
pub proof fn lemma_out_of_turn(task: Task, p: Pieces, t: Torrent, e: Happened, now: int)
    requires
        ({
            let on_disk = e is Written || e is WriteFailed;
            match task.stage {
                Stage::Greeting => on_disk || e is Sent || e is SendFailed,
                Stage::Interested => !(e is Sent),
                Stage::Waiting(_, _) => on_disk || e is Sent || e is SendFailed,
                Stage::Downloading(_) => on_disk || e is SendFailed || e is Failed,
                Stage::Writing(_) => !(e is Written),
                Stage::Finished => true,
            }
        }),
    ensures
        ({
            let (u, q, next) = task.step(p, t, e, now);
            &&& next is Abort
            &&& u.stage is Finished
            &&& u.bitfield == task.bitfield && u.choked == task.choked && u.pipeline
                == task.pipeline
            &&& q.downloaded == p.downloaded && q.piece_length == p.piece_length && q.total_length
                == p.total_length
            &&& task.claim() is None ==> q == p
            &&& task.claim() matches Some(i) ==> q.states.len() == p.states.len() && forall|k: int|
                0 <= k < p.states.len() ==> #[trigger] q.states[k] == if k == i && p.states[k]
                    == PieceState::Claimed {
                    PieceState::Needed
                } else {
                    p.states[k]
                }
        }),
{
}

/// A block that begins behind the end of its piece ends the connection, and the
/// piece is given back.
pub proof fn lemma_block_out_of_bounds(
    task: Task,
    p: Pieces,
    t: Torrent,
    begin: u32,
    data: Seq<u8>,
    now: int,
)
    requires
        task.fits(t),
        task.stage is Downloading,
        tracks(p, t),
        p.states[task.stage->Downloading_0.index as int] == PieceState::Claimed,
        begin > task.stage->Downloading_0.data.len(),
        begin / BLOCK_SIZE < task.stage->Downloading_0.received.len(),
        !task.stage->Downloading_0.received[begin as int / BLOCK_SIZE as int],
    ensures
        ({
            let index = task.stage->Downloading_0.index;
            let e = Happened::Message(Msg::Piece { index, begin, data });
            let (u, q, next) = task.step(p, t, e, now);
            &&& next == Next::Fail(Error::Peer(PeerError::BlockOutOfBounds))
            &&& u.claim() is None
            &&& q.states == p.states.update(index as int, PieceState::Needed)
        }),
{
}

} // verus!
