//! Fast-resume: persist download state to disk and restore on restart.
//!
//! State file: `<download_dir>/.stormdrain/<info_hash_hex>.json`
//!
//! JSON schema:
//! ```json
//! {
//!   "info_hash": "aabb...",
//!   "pieces_done": [0, 1, 4, 5],
//!   "downloaded": 12345678,
//!   "uploaded": 0
//! }
//! ```

use vstd::prelude::*;

use crate::digest::{sha1, sha1_digest};
use crate::file_writer::{
    contiguous, ends_fit, lemma_read_gives_stream, max, min, plan, read, span_in, spans,
    stream_byte, stream_len, Disk, Segment, Span,
};
use crate::metainfo::{
    file_entries, is_addressable, is_last_piece, lemma_piece_addressable, piece_len_of, FileEntry,
    FileInfo, Metainfo, Torrent,
};
use crate::octets::same_bytes;
use crate::piece_manager::{
    lemma_mark_done_tracks, lemma_room_for_missing, tracks, PieceManager, PieceState, Pieces,
};
use crate::text::hex_text;
use crate::types::InfoHash;

verus! {

/// Persisted download state used for fast-resume across restarts.
#[derive(Debug)]
pub struct ResumeState {
    pub info_hash: String,
    pub pieces_done: Vec<u32>,
    pub downloaded: u64,
    pub uploaded: u64,
}

/// The content of a [`ResumeState`].
#[verifier::ext_equal]
pub struct Saved {
    pub info_hash: Seq<char>,
    pub pieces_done: Seq<u32>,
    pub downloaded: u64,
    pub uploaded: u64,
}

impl View for ResumeState {
    type V = Saved;

    open spec fn view(&self) -> Saved {
        Saved {
            info_hash: self.info_hash@,
            pieces_done: self.pieces_done@,
            downloaded: self.downloaded,
            uploaded: self.uploaded,
        }
    }
}

/// What there is to save of a download.
pub open spec fn checkpoint_of(info_hash: Seq<u8>, p: Pieces, uploaded: u64) -> Saved {
    Saved {
        info_hash: hex_text(info_hash),
        pieces_done: done_indices(p.states, p.states.len() as int),
        downloaded: p.downloaded,
        uploaded,
    }
}

impl Default for ResumeState {
    /// Nothing has been downloaded.
    fn default() -> (s: Self)
        ensures
            s.info_hash@ == Seq::<char>::empty(),
            s.pieces_done@ == Seq::<u32>::empty(),
            s.downloaded == 0,
            s.uploaded == 0,
    {
        ResumeState {
            info_hash: String::new(),
            pieces_done: Vec::new(),
            downloaded: 0,
            uploaded: 0,
        }
    }
}

/// The indices of the done pieces among the first `n`, in ascending order.
pub open spec fn done_indices(states: Seq<PieceState>, n: int) -> Seq<u32>
    decreases n,
{
    if n <= 0 {
        seq![]
    } else if states[n - 1] == PieceState::Done {
        done_indices(states, n - 1).push((n - 1) as u32)
    } else {
        done_indices(states, n - 1)
    }
}

impl ResumeState {
    /// The state of a torrent for which none was saved.
    pub fn fresh(info_hash: &InfoHash) -> (s: ResumeState)
        ensures
            s.info_hash@ == hex_text(info_hash.0@),
            s.pieces_done@ == Seq::<u32>::empty(),
            s.downloaded == 0,
            s.uploaded == 0,
    {
        ResumeState {
            info_hash: info_hash.to_hex(),
            pieces_done: Vec::new(),
            downloaded: 0,
            uploaded: 0,
        }
    }

    /// The state of a download as it is now.
    pub fn checkpoint(info_hash: &InfoHash, pm: &PieceManager, uploaded: u64) -> (s: ResumeState)
        requires
            pm.wf(),
        ensures
            s@ == checkpoint_of(info_hash.0@, pm@, uploaded),
    {
        let n: u32 = pm.piece_count();
        let mut done: Vec<u32> = Vec::new();
        let mut i: u32 = 0;
        while i < n
            invariant
                i <= n == pm@.states.len(),
                done@ == done_indices(pm@.states, i as int),
            decreases n - i,
        {
            if !pm.needs(i) {
                done.push(i);
            }
            i = i + 1;
        }
        ResumeState {
            info_hash: info_hash.to_hex(),
            pieces_done: done,
            downloaded: pm.downloaded(),
            uploaded,
        }
    }

    /// The name of the state file of a torrent with the given info hash text.
    pub fn file_name(info_hash: &str) -> (r: String)
        ensures
            r@ == info_hash@ + ".json"@,
    {
        let mut r = String::new();
        r.push_str(info_hash);
        r.push_str(".json");
        assert(r@ =~= info_hash@ + ".json"@);
        r
    }
}

// Reading a piece back

/// The parts of the files to read for the `remaining` bytes at `offset`, from
/// file `i` on, when `done` bytes have been read before.
pub open spec fn read_steps(
    files: Seq<FileEntry>,
    i: int,
    offset: int,
    remaining: int,
    done: int,
) -> Seq<Span>
    decreases files.len() - i,
{
    if i < 0 || i >= files.len() {
        seq![]
    } else {
        let f = files[i];
        if offset >= f.offset + f.length {
            read_steps(files, i + 1, offset, remaining, done)
        } else if f.offset >= offset + remaining {
            seq![]
        } else {
            let from = max(0, offset - f.offset);
            let n = min(offset + remaining - f.offset, f.length as int) - from;
            let here = Span { file: i, seek: from, start: done, end: done + n };
            if remaining == n {
                seq![here]
            } else {
                seq![here] + read_steps(files, i + 1, offset + n, remaining - n, done + n)
            }
        }
    }
}

/// The parts of the files that hold the `len` bytes at `flat_offset`, to be read
/// one after the other.
pub fn plan_read(files: &[FileInfo], flat_offset: u64, len: u64) -> (r: Vec<Segment>)
    requires
        flat_offset + len <= u64::MAX,
        ends_fit(file_entries(files@)),
    ensures
        spans(r@) == read_steps(file_entries(files@), 0, flat_offset as int, len as int, 0),
        forall|k: int|
            0 <= k < r@.len() ==> (#[trigger] r@[k]).file < files@.len() && r@[k].start <= r@[k].end
                <= len,
{
    let ghost entries = file_entries(files@);
    let ghost all = read_steps(entries, 0, flat_offset as int, len as int, 0);
    let mut out: Vec<Segment> = Vec::new();
    let mut remaining: u64 = len;
    let mut offset: u64 = flat_offset;
    let mut done: u64 = 0;
    let mut i: usize = 0;
    assert(all =~= spans(out@) + all);
    while i < files.len()
        invariant_except_break
            all == spans(out@) + read_steps(
                entries,
                i as int,
                offset as int,
                remaining as int,
                done as int,
            ),
        invariant
            i <= files.len(),
            entries == file_entries(files@),
            ends_fit(entries),
            flat_offset + len <= u64::MAX,
            offset + remaining == flat_offset + len,
            offset == flat_offset + done,
            done + remaining == len,
            forall|k: int|
                0 <= k < out@.len() ==> (#[trigger] out@[k]).file < files@.len() && out@[k].start
                    <= out@[k].end <= len,
        ensures
            all == spans(out@),
        decreases files.len() - i,
    {
        let file = &files[i];
        assert(entries[i as int] == file@);
        if offset >= file.offset + file.length {
            i = i + 1;
            if i == files.len() {
                assert(spans(out@) + seq![] =~= spans(out@));
            }
            continue ;
        }
        if file.offset >= offset + remaining {
            assert(spans(out@) + seq![] =~= spans(out@));
            break ;
        }
        let from: u64 = if offset >= file.offset {
            offset - file.offset
        } else {
            0
        };
        let reach: u64 = offset + remaining - file.offset;
        let to: u64 = if reach <= file.length {
            reach
        } else {
            file.length
        };
        let n: u64 = to - from;
        let ghost before = out@;
        let seg = Segment { file: i, seek: from, start: done, end: done + n };
        out.push(seg);
        assert(spans(out@) =~= spans(before).push(seg@));
        let ghost later = read_steps(
            entries,
            i + 1,
            offset + n,
            remaining - n,
            done + n,
        );
        assert(spans(before) + (seq![seg@] + later) =~= spans(out@) + later);
        if n == remaining {
            offset = offset + n;
            remaining = 0;
            done = done + n;
            assert(spans(before) + seq![seg@] =~= spans(out@));
            break ;
        }
        offset = offset + n;
        remaining = remaining - n;
        done = done + n;
        i = i + 1;
        if i == files.len() {
            assert(spans(out@) + seq![] =~= spans(out@));
        }
    }
    out
}

// Verifying pieces

/// A piece to be verified: where its bytes stand in the stream.
#[derive(Debug, Clone, Copy, PartialEq, Eq, Structural)]
pub struct PieceRange {
    pub offset: u64,
    pub len: u64,
}

/// Where the bytes of a piece stand in the stream, if there is such a piece.
pub fn piece_range(meta: &Metainfo, index: u32) -> (r: Option<PieceRange>)
    requires
        is_addressable(meta@),
    ensures
        match r {
            Some(range) => index < meta@.piece_hashes.len() && range.offset == index
                * meta@.piece_length && range.len == piece_len_of(meta@, index as int)
                && range.offset + range.len <= u64::MAX,
            None => index >= meta@.piece_hashes.len(),
        },
{
    if index as usize >= meta.piece_hashes.len() {
        return None;
    }
    proof {
        lemma_piece_addressable(meta@, index as int);
    }
    let offset: u64 = index as u64 * meta.piece_length;
    Some(PieceRange { offset, len: meta.piece_len(index) })
}

/// The pieces after one with the given digest was read: it is done if the
/// digest is that of the torrent.
pub open spec fn resumed(p: Pieces, t: Torrent, index: int, digest: Seq<u8>) -> Pieces {
    if p.missing(index) && digest == t.piece_hashes[index] {
        Pieces {
            downloaded: (p.downloaded + piece_len_of(t, index)) as u64,
            ..p.with(index, PieceState::Done)
        }
    } else {
        p
    }
}

/// Whether the length of a piece is defined, and can be added to what has been
/// downloaded if the piece is missing.
pub open spec fn has_room_for(p: Pieces, t: Torrent, index: int) -> bool {
    &&& is_last_piece(t, index) ==> t.piece_length != 0
    &&& p.missing(index) ==> p.downloaded + piece_len_of(t, index) <= u64::MAX
}

/// There is room for every missing piece of the torrent that the pieces are
/// those of, and verifying one keeps it so.
pub proof fn lemma_resumed_tracks(p: Pieces, t: Torrent, index: int, digest: Seq<u8>)
    requires
        tracks(p, t),
        is_addressable(t),
    ensures
        has_room_for(p, t, index),
        tracks(resumed(p, t, index, digest), t),
{
    if p.missing(index) {
        lemma_room_for_missing(p, t, index);
        lemma_mark_done_tracks(p, t, index);
    }
}

/// Mark a piece that was found on disk as done if its digest is right. Returns
/// whether it is.
pub fn accept_digest(pm: &mut PieceManager, meta: &Metainfo, index: u32, digest: &[u8; 20]) -> (r:
    bool)
    requires
        old(pm).wf(),
        has_room_for(old(pm)@, meta@, index as int),
        index < meta@.piece_hashes.len(),
    ensures
        final(pm).wf(),
        final(pm)@ == resumed(old(pm)@, meta@, index as int, digest@),
        r == (digest@ == meta@.piece_hashes[index as int]),
{
    assert(meta@.piece_hashes[index as int] == meta.piece_hashes@[index as int]@);
    if !same_bytes(digest.as_slice(), meta.piece_hashes[index as usize].as_slice()) {
        return false;
    }
    pm.mark_done(index, meta.piece_len(index));
    true
}

/// Verify the bytes of a piece that was found on disk, and mark it as done if
/// they are right. Returns whether they are.
pub fn verify_piece(pm: &mut PieceManager, meta: &Metainfo, index: u32, data: &[u8]) -> (r: bool)
    requires
        old(pm).wf(),
        has_room_for(old(pm)@, meta@, index as int),
        index < meta@.piece_hashes.len(),
    ensures
        final(pm).wf(),
        final(pm)@ == resumed(old(pm)@, meta@, index as int, sha1(data@)),
        r == (sha1(data@) == meta@.piece_hashes[index as int]),
{
    accept_digest(pm, meta, index, &sha1_digest(data))
}

/// The verification of the pieces that a saved state lists.
pub struct Verification {
    next: usize,
    verified: usize,
}

/// The content of a [`Verification`].
pub struct Checked {
    /// How many of the listed pieces have been looked at.
    pub next: int,
    /// How many of them were right.
    pub verified: int,
}

/// A piece to be read and verified.
pub struct PieceToRead {
    pub index: u32,
    pub range: PieceRange,
    /// Where to read it from: the parts of the files, one after the other.
    pub segments: Vec<Segment>,
}

impl View for Verification {
    type V = Checked;

    closed spec fn view(&self) -> Checked {
        Checked { next: self.next as int, verified: self.verified as int }
    }
}

/// Where the first index of an existing piece stands in a list, from a position
/// on; the length of the list if there is none.
pub open spec fn next_listed(listed: Seq<u32>, pieces: int, from: int) -> int
    decreases listed.len() - from,
{
    if from < 0 || from >= listed.len() {
        listed.len() as int
    } else if listed[from] < pieces {
        from
    } else {
        next_listed(listed, pieces, from + 1)
    }
}

impl Checked {
    /// What has been looked at, and the pieces, after a piece was read or could
    /// not be read.
    pub open spec fn read(self, p: Pieces, t: Torrent, index: int, data: Option<Seq<u8>>) -> (
        Checked,
        Pieces,
    ) {
        match data {
            Some(data) => (
                Checked {
                    verified: self.verified + if sha1(data) == t.piece_hashes[index] {
                        1int
                    } else {
                        0int
                    },
                    ..self
                },
                resumed(p, t, index, sha1(data)),
            ),
            None => (self, p),
        }
    }
}

impl Verification {
    pub fn start() -> (v: Verification)
        ensures
            v@ == (Checked { next: 0, verified: 0 }),
    {
        Verification { next: 0, verified: 0 }
    }

    /// The next piece to read, if there is one.
    pub fn next(&mut self, state: &ResumeState, meta: &Metainfo) -> (r: Option<PieceToRead>)
        requires
            is_addressable(meta@),
            ends_fit(meta@.files),
            old(self)@.next <= state.pieces_done@.len(),
        ensures
            final(self)@.next <= state.pieces_done@.len(),
            final(self)@.verified == old(self)@.verified,
            ({
                let at = next_listed(
                    state.pieces_done@,
                    meta@.piece_hashes.len() as int,
                    old(self)@.next,
                );
                if at < state.pieces_done@.len() {
                    &&& final(self)@.next == at + 1
                    &&& r is Some
                    &&& r->0.index == state.pieces_done@[at]
                    &&& r->0.index < meta@.piece_hashes.len()
                    &&& r->0.range.offset == r->0.index * meta@.piece_length
                    &&& r->0.range.len == piece_len_of(meta@, r->0.index as int)
                    &&& spans(r->0.segments@) == read_steps(
                        meta@.files,
                        0,
                        r->0.range.offset as int,
                        r->0.range.len as int,
                        0,
                    )
                } else {
                    r is None && final(self)@.next == state.pieces_done@.len()
                }
            }),
    {
        while self.next < state.pieces_done.len()
            invariant
                is_addressable(meta@),
                ends_fit(meta@.files),
                self.next <= state.pieces_done@.len(),
                self.verified == old(self).verified,
                next_listed(
                    state.pieces_done@,
                    meta@.piece_hashes.len() as int,
                    self@.next,
                ) == next_listed(
                    state.pieces_done@,
                    meta@.piece_hashes.len() as int,
                    old(self)@.next,
                ),
            decreases state.pieces_done.len() - self.next,
        {
            let index: u32 = state.pieces_done[self.next];
            self.next = self.next + 1;
            match piece_range(meta, index) {
                Some(range) => {
                    let segments = plan_read(
                        meta.files.as_slice(),
                        range.offset,
                        range.len,
                    );
                    return Some(PieceToRead { index, range, segments });
                },
                None => {},
            }
        }
        None
    }

    /// Take in what was read of a piece, or that it could not be read.
    pub fn on_read(
        &mut self,
        pm: &mut PieceManager,
        meta: &Metainfo,
        index: u32,
        data: &Option<Vec<u8>>,
    )
        requires
            old(pm).wf(),
            has_room_for(old(pm)@, meta@, index as int),
            index < meta@.piece_hashes.len(),
            old(self)@.verified < old(self)@.next,
        ensures
            final(pm).wf(),
            (final(self)@, final(pm)@) == old(self)@.read(
                old(pm)@,
                meta@,
                index as int,
                match data {
                    Some(data) => Some(data@),
                    None => None,
                },
            ),
    {
        match data {
            Some(data) => {
                if verify_piece(pm, meta, index, data.as_slice()) {
                    self.verified = self.verified + 1;
                }
            },
            None => {},
        }
    }

    /// How many pieces were right.
    pub fn verified(&self) -> (n: usize)
        ensures
            n == self@.verified,
    {
        self.verified
    }
}

// Laws

/// A checkpoint lists exactly the pieces that are done.
pub proof fn lemma_checkpoint_lists_done(states: Seq<PieceState>, n: int, i: u32)
    requires
        0 <= n <= states.len() <= u32::MAX,
    ensures
        done_indices(states, n).contains(i) <==> i < n && states[i as int] == PieceState::Done,
    decreases n,
{
    if n > 0 {
        lemma_checkpoint_lists_done(states, n - 1, i);
        let head = done_indices(states, n - 1);
        let all = done_indices(states, n);
        if states[n - 1] == PieceState::Done {
            assert(all == head.push((n - 1) as u32));
            if all.contains(i) {
                let k = choose|k: int| 0 <= k < all.len() && all[k] == i;
                if k < head.len() {
                    assert(head[k] == i);
                }
            }
            if head.contains(i) {
                let k = choose|k: int| 0 <= k < head.len() && head[k] == i;
                assert(all[k] == i);
            }
            assert(all[head.len() as int] == (n - 1) as u32);
        }
    }
}

/// Resuming from a checkpoint restores which pieces were done, if they are
/// still intact on disk; claims are not restored.
pub proof fn lemma_resume_restores(t: Torrent, fresh: Pieces, states: Seq<PieceState>)
    requires
        states.len() == fresh.states.len() <= u32::MAX,
        fresh.states == Seq::new(states.len(), |i: int| PieceState::Needed),
    ensures
        marked(fresh, t, done_indices(states, states.len() as int)).states == Seq::new(
            states.len(),
            |i: int|
                if states[i] == PieceState::Done {
                    PieceState::Done
                } else {
                    PieceState::Needed
                },
        ),
{
    let n = states.len() as int;
    let done = done_indices(states, n);
    let goal = Seq::new(
        states.len(),
        |i: int|
            if states[i] == PieceState::Done {
                PieceState::Done
            } else {
                PieceState::Needed
            },
    );
    lemma_marked_len(fresh, t, done);
    assert forall|i: int| 0 <= i < n implies marked(fresh, t, done).states[i] == goal[i] by {
        lemma_marked_states(fresh, t, done, i);
        lemma_checkpoint_lists_done(states, n, i as u32);
    }
    assert(marked(fresh, t, done).states =~= goal);
}

proof fn lemma_marked_len(p: Pieces, t: Torrent, done: Seq<u32>)
    ensures
        marked(p, t, done).states.len() == p.states.len(),
    decreases done.len(),
{
    if done.len() > 0 {
        let i = done[0] as int;
        lemma_marked_len(resumed(p, t, i, t.piece_hashes[i]), t, done.drop_first());
    }
}

/// The parts of a range from file `i` on.
spec fn plan_from(files: Seq<FileEntry>, i: int, flat: int, len: int) -> Seq<Span>
    decreases files.len() - i,
{
    if i < 0 || i >= files.len() {
        seq![]
    } else {
        match span_in(files[i], i, flat, len) {
            Some(s) => seq![s] + plan_from(files, i + 1, flat, len),
            None => plan_from(files, i + 1, flat, len),
        }
    }
}

proof fn lemma_plan_from(files: Seq<FileEntry>, i: int, flat: int, len: int)
    requires
        0 <= i <= files.len(),
    ensures
        plan(files, flat, len) == plan(files.take(i), flat, len) + plan_from(files, i, flat, len),
    decreases files.len() - i,
{
    let rest = plan_from(files, i, flat, len);
    if i == files.len() {
        assert(files.take(i) =~= files);
        assert(plan(files, flat, len) =~= plan(files.take(i), flat, len) + rest);
    } else {
        lemma_plan_from(files, i + 1, flat, len);
        assert(files.take(i + 1).drop_last() =~= files.take(i));
        assert(files.take(i + 1).last() == files[i]);
        assert(plan(files, flat, len) =~= plan(files.take(i), flat, len) + rest);
    }
}

proof fn lemma_nothing_beyond(files: Seq<FileEntry>, i: int, flat: int, len: int)
    requires
        contiguous(files),
        0 <= i <= files.len(),
        i < files.len() ==> files[i].offset >= flat + len,
    ensures
        plan_from(files, i, flat, len) == Seq::<Span>::empty(),
    decreases files.len() - i,
{
    if i < files.len() {
        if i + 1 < files.len() {
            assert(files[i + 1].offset == files[i + 1 - 1].offset + files[i + 1 - 1].length);
        }
        lemma_nothing_beyond(files, i + 1, flat, len);
    }
}

proof fn lemma_read_steps_from(files: Seq<FileEntry>, i: int, flat: int, len: int, done: int)
    requires
        contiguous(files),
        0 <= i <= files.len(),
        0 <= flat,
        0 <= done < len,
        i < files.len() ==> done == max(0, files[i].offset - flat) || files[i].offset >= flat + len,
        i < files.len() && done > 0 ==> files[i].offset == flat + done,
    ensures
        read_steps(files, i, flat + done, len - done, done) == plan_from(files, i, flat, len),
    decreases files.len() - i,
{
    if i < files.len() {
        let f = files[i];
        let offset = flat + done;
        if i + 1 < files.len() {
            assert(files[i + 1].offset == files[i + 1 - 1].offset + files[i + 1 - 1].length);
        }
        if offset >= f.offset + f.length {
            lemma_read_steps_from(files, i + 1, flat, len, done);
        } else if f.offset >= offset + (len - done) {
            lemma_nothing_beyond(files, i, flat, len);
        } else {
            let from = max(0, offset - f.offset);
            let n = min(offset + (len - done) - f.offset, f.length as int) - from;
            let here = Span { file: i, seek: from, start: done, end: done + n };
            assert(span_in(f, i, flat, len) == Some(here));
            if len - done == n {
                lemma_nothing_beyond(files, i + 1, flat, len);
                assert(seq![here] + Seq::<Span>::empty() =~= seq![here]);
            } else {
                lemma_read_steps_from(files, i + 1, flat, len, done + n);
            }
        }
    }
}

/// A piece is read back from where it was written.
pub proof fn lemma_read_where_written(files: Seq<FileEntry>, flat: int, len: int)
    requires
        contiguous(files),
        0 <= flat,
        0 < len,
    ensures
        read_steps(files, 0, flat, len, 0) == plan(files, flat, len),
{
    lemma_plan_from(files, 0, flat, len);
    assert(files.take(0) =~= seq![]);
    assert(plan(files.take(0), flat, len) + plan_from(files, 0, flat, len) =~= plan_from(
        files,
        0,
        flat,
        len,
    ));
    lemma_read_steps_from(files, 0, flat, len, 0);
}

// The whole verification

/// What the files hold of a piece.
pub open spec fn piece_on_disk(disk: Disk, t: Torrent, index: int) -> Seq<u8> {
    read(disk, plan(t.files, index * t.piece_length, piece_len_of(t, index)))
}

/// Whether a piece exists, can be read, and is right on disk.
pub open spec fn is_intact(
    disk: Disk,
    readable: spec_fn(int) -> bool,
    t: Torrent,
    index: int,
) -> bool {
    &&& 0 <= index < t.piece_hashes.len()
    &&& readable(index)
    &&& sha1(piece_on_disk(disk, t, index)) == t.piece_hashes[index]
}

/// The intact ones among listed pieces, in their order.
pub open spec fn intact_of(
    disk: Disk,
    readable: spec_fn(int) -> bool,
    t: Torrent,
    listed: Seq<u32>,
) -> Seq<u32>
    decreases listed.len(),
{
    if listed.len() == 0 {
        seq![]
    } else if is_intact(disk, readable, t, listed[0] as int) {
        seq![listed[0]] + intact_of(disk, readable, t, listed.drop_first())
    } else {
        intact_of(disk, readable, t, listed.drop_first())
    }
}

/// The pieces after some have been marked as done, one after the other.
pub open spec fn marked(p: Pieces, t: Torrent, done: Seq<u32>) -> Pieces
    decreases done.len(),
{
    if done.len() == 0 {
        p
    } else {
        let i = done[0] as int;
        marked(resumed(p, t, i, t.piece_hashes[i]), t, done.drop_first())
    }
}

/// Read and verify one listed piece after the other, from where `c` stands.
pub open spec fn verify_run(
    disk: Disk,
    readable: spec_fn(int) -> bool,
    t: Torrent,
    listed: Seq<u32>,
    c: Checked,
    p: Pieces,
) -> (Checked, Pieces)
    decreases listed.len() - c.next,
{
    proof {
        lemma_next_listed(listed, t.piece_hashes.len() as int, c.next);
    }
    let at = next_listed(listed, t.piece_hashes.len() as int, c.next);
    if at < listed.len() {
        let i = listed[at] as int;
        let data = if readable(i) {
            Some(read(disk, read_steps(t.files, 0, i * t.piece_length, piece_len_of(t, i), 0)))
        } else {
            None
        };
        let (d, q) = Checked { next: at + 1, ..c }.read(p, t, i, data);
        verify_run(disk, readable, t, listed, d, q)
    } else {
        (Checked { next: at, ..c }, p)
    }
}

/// The next listed piece does not come before those still to be looked at.
pub proof fn lemma_next_listed(listed: Seq<u32>, pieces: int, from: int)
    ensures
        next_listed(listed, pieces, from) <= listed.len(),
        next_listed(listed, pieces, from) < listed.len() ==> 0 <= from <= next_listed(
            listed,
            pieces,
            from,
        ) && listed[next_listed(listed, pieces, from)] < pieces,
    decreases listed.len() - from,
{
    if 0 <= from < listed.len() && listed[from] >= pieces {
        lemma_next_listed(listed, pieces, from + 1);
    }
}

/// What the files hold of a piece that lies within them is its part of the stream.
pub proof fn lemma_piece_on_disk(disk: Disk, t: Torrent, index: int)
    requires
        contiguous(t.files),
        is_addressable(t),
        0 <= index < t.piece_hashes.len(),
        index * t.piece_length + piece_len_of(t, index) <= stream_len(t.files),
    ensures
        piece_on_disk(disk, t, index) == Seq::new(
            piece_len_of(t, index) as nat,
            |k: int| stream_byte(disk, t.files, index * t.piece_length + k),
        ),
{
    lemma_piece_addressable(t, index);
    lemma_read_gives_stream(disk, t.files, index * t.piece_length, piece_len_of(t, index));
}

/// Verification looks at every listed piece: it counts those that exist, can be
/// read, and are right on disk, and marks exactly those as done.
pub proof fn lemma_verification(
    disk: Disk,
    readable: spec_fn(int) -> bool,
    t: Torrent,
    listed: Seq<u32>,
    c: Checked,
    p: Pieces,
)
    requires
        is_addressable(t),
        contiguous(t.files),
        0 <= c.next <= listed.len(),
    ensures
        ({
            let intact = intact_of(disk, readable, t, listed.skip(c.next));
            let (d, q) = verify_run(disk, readable, t, listed, c, p);
            &&& d.next == listed.len()
            &&& d.verified == c.verified + intact.len()
            &&& q == marked(p, t, intact)
            &&& tracks(p, t) ==> tracks(q, t)
        }),
    decreases listed.len() - c.next,
{
    let n = t.piece_hashes.len() as int;
    let rest = listed.skip(c.next);
    if c.next < listed.len() {
        let i = listed[c.next] as int;
        let next = Checked { next: c.next + 1, ..c };
        assert(rest.drop_first() =~= listed.skip(c.next + 1));
        assert(rest[0] == listed[c.next]);
        if i < n {
            lemma_piece_addressable(t, i);
            lemma_read_where_written(t.files, i * t.piece_length, piece_len_of(t, i));
            let data = if readable(i) {
                Some(piece_on_disk(disk, t, i))
            } else {
                None
            };
            let (d, q) = next.read(p, t, i, data);
            lemma_verification(disk, readable, t, listed, d, q);
            if data is Some && tracks(p, t) {
                lemma_resumed_tracks(p, t, i, sha1(data->0));
            }
            let tail = intact_of(disk, readable, t, listed.skip(c.next + 1));
            if is_intact(disk, readable, t, i) {
                let all = seq![listed[c.next]] + tail;
                assert(all.drop_first() =~= tail);
                assert(all[0] == listed[c.next]);
            }
        } else {
            lemma_verification(disk, readable, t, listed, next, p);
            assert(next_listed(listed, n, c.next) == next_listed(listed, n, c.next + 1));
        }
    } else {
        assert(rest =~= seq![]);
    }
}

/// Marking pieces as done leaves the others as they are.
pub proof fn lemma_marked_states(p: Pieces, t: Torrent, done: Seq<u32>, i: int)
    requires
        0 <= i < p.states.len(),
    ensures
        marked(p, t, done).states.len() == p.states.len(),
        marked(p, t, done).states[i] == if i <= u32::MAX && done.contains(i as u32) {
            PieceState::Done
        } else {
            p.states[i]
        },
    decreases done.len(),
{
    if done.len() > 0 {
        let first = done[0] as int;
        let rest = done.drop_first();
        lemma_marked_states(resumed(p, t, first, t.piece_hashes[first]), t, rest, i);
        if i <= u32::MAX {
            let x = i as u32;
            if rest.contains(x) {
                let k = choose|k: int| 0 <= k < rest.len() && rest[k] == x;
                assert(done[k + 1] == x);
            }
            if done.contains(x) && x != done[0] {
                let k = choose|k: int| 0 <= k < done.len() && done[k] == x;
                assert(rest[k - 1] == x);
            }
            assert(done.contains(done[0]));
        }
    }
}

/// A listed piece is among the intact ones if it is intact.
pub proof fn lemma_intact_of(
    disk: Disk,
    readable: spec_fn(int) -> bool,
    t: Torrent,
    listed: Seq<u32>,
    i: u32,
)
    ensures
        intact_of(disk, readable, t, listed).contains(i) <==> listed.contains(i) && is_intact(
            disk,
            readable,
            t,
            i as int,
        ),
    decreases listed.len(),
{
    if listed.len() > 0 {
        let rest = listed.drop_first();
        lemma_intact_of(disk, readable, t, rest, i);
        let tail = intact_of(disk, readable, t, rest);
        let all = intact_of(disk, readable, t, listed);
        if rest.contains(i) {
            let k = choose|k: int| 0 <= k < rest.len() && rest[k] == i;
            assert(listed[k + 1] == i);
        }
        if listed.contains(i) && i != listed[0] {
            let k = choose|k: int| 0 <= k < listed.len() && listed[k] == i;
            assert(rest[k - 1] == i);
        }
        if is_intact(disk, readable, t, listed[0] as int) {
            assert(all == seq![listed[0]] + tail);
            assert(all[0] == listed[0]);
            if tail.contains(i) {
                let k = choose|k: int| 0 <= k < tail.len() && tail[k] == i;
                assert(all[k + 1] == i);
            }
            if all.contains(i) && i != listed[0] {
                let k = choose|k: int| 0 <= k < all.len() && all[k] == i;
                assert(tail[k - 1] == i);
            }
        }
    }
}

/// A checkpoint lists no piece twice, and the pieces in ascending order.
pub proof fn lemma_checkpoint_ascends(states: Seq<PieceState>, n: int)
    requires
        0 <= n <= states.len() <= u32::MAX,
    ensures
        forall|i: int, j: int|
            0 <= i < j < done_indices(states, n).len() ==> #[trigger] done_indices(states, n)[i]
                < #[trigger] done_indices(states, n)[j],
        forall|i: int|
            0 <= i < done_indices(states, n).len() ==> #[trigger] done_indices(states, n)[i] < n,
    decreases n,
{
    if n > 0 {
        lemma_checkpoint_ascends(states, n - 1);
        let head = done_indices(states, n - 1);
        let all = done_indices(states, n);
        assert forall|i: int| 0 <= i < all.len() implies #[trigger] all[i] < n && (i < head.len()
            ==> all[i] == head[i]) by {
            if i < head.len() {
                assert(head[i] < n - 1);
            }
        }
        assert forall|i: int, j: int| 0 <= i < j < all.len() implies #[trigger] all[i]
            < #[trigger] all[j] by {
            assert(head[i] < n - 1);
            if j < head.len() {
                assert(head[i] < head[j]);
            }
        }
    }
}

/// A piece is taken from disk if and only if it is missing and what was read is
/// right; nothing else changes, and its bytes then count.
pub proof fn lemma_piece_resumed(p: Pieces, t: Torrent, index: int, digest: Seq<u8>)
    requires
        has_room_for(p, t, index),
    ensures
        ({
            let q = resumed(p, t, index, digest);
            &&& q.states.len() == p.states.len()
            &&& q.piece_length == p.piece_length && q.total_length == p.total_length
            &&& forall|i: int|
                0 <= i < p.states.len() && i != index ==> #[trigger] q.states[i] == p.states[i]
            &&& p.missing(index) && digest == t.piece_hashes[index] ==> !q.missing(index)
                && q.downloaded == p.downloaded + piece_len_of(t, index)
            &&& !(p.missing(index) && digest == t.piece_hashes[index]) ==> q == p
        }),
{
    if is_last_piece(t, index) {
        let n = t.total_length as int;
        let m = t.piece_length as int;
        assert(0 <= n % m) by (nonlinear_arith)
            requires
                m > 0,
        ;
    }
}

} // verus!
