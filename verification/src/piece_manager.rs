//! Piece state tracker shared across all peer tasks.
//!
//! Pieces move through these states:
//!   Needed → Claimed (by a single peer task) → Done
//!
//! If a peer task fails it *must* call [`PieceManager::return_piece`] so the
//! piece can be re-claimed by another peer.

use std::collections::HashSet;

use vstd::arithmetic::div_mod::{lemma_fundamental_div_mod, lemma_fundamental_div_mod_converse};
use vstd::prelude::*;

use crate::metainfo::{is_addressable, piece_count_of, piece_len_of, Torrent};

verus! {

/// Lifecycle state of a single piece.
#[derive(Debug, Clone, Copy, PartialEq, Eq, Structural)]
pub enum PieceState {
    /// Piece has not been started.
    Needed,
    /// Piece is being downloaded by a peer task.
    Claimed,
    /// Piece has been verified and written to disk.
    Done,
}

/// Tracks piece state across all peer tasks for a single torrent.
pub struct PieceManager {
    piece_count: u32,
    state: Vec<PieceState>,
    pub piece_length: u64,
    pub total_length: u64,
    pub downloaded: u64,
    /// Number of pieces marked Done.
    done_count: u32,
    /// Number of pieces in the `Needed` state (O(1) cache).
    needed_count: u32,
}

/// The content of a [`PieceManager`].
#[verifier::ext_equal]
pub struct Pieces {
    /// The state of each piece.
    pub states: Seq<PieceState>,
    pub piece_length: u64,
    pub total_length: u64,
    pub downloaded: u64,
}

impl Pieces {
    /// Whether a peer with the given pieces could be asked for piece `i` now.
    pub open spec fn claimable(self, peer_bitfield: Seq<bool>, i: int) -> bool {
        &&& 0 <= i < self.states.len()
        &&& self.states[i] == PieceState::Needed
        &&& i < peer_bitfield.len()
        &&& peer_bitfield[i]
    }

    /// The pieces after piece `i` changed its state.
    pub open spec fn with(self, i: int, state: PieceState) -> Pieces {
        Pieces { states: self.states.update(i, state), ..self }
    }

    /// Whether there is a piece `i` that is not done.
    pub open spec fn missing(self, i: int) -> bool {
        0 <= i < self.states.len() && self.states[i] != PieceState::Done
    }

    /// The length of piece `i`: the last one holds what is left.
    pub open spec fn len_of(self, i: int) -> int {
        if is_last(self.states.len() as int, i) && self.total_length as int
            % self.piece_length as int != 0 {
            self.total_length as int % self.piece_length as int
        } else {
            self.piece_length as int
        }
    }
}

impl View for PieceManager {
    type V = Pieces;

    closed spec fn view(&self) -> Pieces {
        Pieces {
            states: self.state@,
            piece_length: self.piece_length,
            total_length: self.total_length,
            downloaded: self.downloaded,
        }
    }
}

/// How many pieces are in a state.
pub open spec fn count(states: Seq<PieceState>, state: PieceState) -> nat
    decreases states.len(),
{
    if states.len() == 0 {
        0
    } else {
        count(states.drop_last(), state) + if states.last() == state {
            1nat
        } else {
            0nat
        }
    }
}

proof fn lemma_count_bound(states: Seq<PieceState>, state: PieceState)
    ensures
        count(states, state) <= states.len(),
    decreases states.len(),
{
    if states.len() > 0 {
        lemma_count_bound(states.drop_last(), state);
    }
}

proof fn lemma_count_all(states: Seq<PieceState>, state: PieceState)
    ensures
        count(states, state) == states.len() <==> forall|i: int|
            0 <= i < states.len() ==> states[i] == state,
        count(states, state) == 0 <==> forall|i: int|
            0 <= i < states.len() ==> states[i] != state,
    decreases states.len(),
{
    lemma_count_bound(states, state);
    if states.len() > 0 {
        let head = states.drop_last();
        lemma_count_all(head, state);
        lemma_count_bound(head, state);
        assert(forall|i: int| 0 <= i < head.len() ==> head[i] == states[i]);
        assert(states[states.len() - 1] == states.last());
    }
}

proof fn lemma_count_update(states: Seq<PieceState>, at: int, new: PieceState, state: PieceState)
    requires
        0 <= at < states.len(),
    ensures
        count(states.update(at, new), state) == count(states, state) - if states[at] == state {
            1int
        } else {
            0int
        } + if new == state {
            1int
        } else {
            0int
        },
    decreases states.len(),
{
    let head = states.drop_last();
    if at < states.len() - 1 {
        lemma_count_update(head, at, new, state);
        assert(states.update(at, new).drop_last() =~= head.update(at, new));
    } else {
        assert(states.update(at, new).drop_last() =~= head);
    }
}

/// Whether bit `i` of a bitfield is set; the first piece is the most significant bit.
pub open spec fn bit(bytes: Seq<u8>, i: int) -> bool {
    (bytes[i / 8] >> ((7 - i % 8) as u8)) & 1u8 == 1u8
}

/// Whether a bitfield says that a piece is there.
pub open spec fn has_piece(bytes: Seq<u8>, i: int) -> bool {
    i / 8 < bytes.len() && bit(bytes, i)
}

/// Whether a bitfield shows the done pieces, and has no other bit set.
pub open spec fn shows_done(bytes: Seq<u8>, states: Seq<PieceState>) -> bool {
    &&& bytes.len() == (states.len() + 7) / 8
    &&& forall|i: int|
        0 <= i < 8 * bytes.len() ==> #[trigger] bit(bytes, i) == (i < states.len() && states[i]
            == PieceState::Done)
}

/// Whether a piece of the stream is the last one.
pub open spec fn is_last(piece_count: int, index: int) -> bool {
    index == if piece_count > 0 {
        piece_count - 1
    } else {
        0
    }
}

fn read_bit(bytes: &[u8], i: usize) -> (r: bool)
    requires
        i / 8 < bytes.len(),
    ensures
        r == bit(bytes@, i as int),
{
    let shift: u8 = (7 - i % 8) as u8;
    (bytes[i / 8] >> shift) & 1 == 1
}

impl PieceManager {
    /// The cached counts are those of the states.
    pub closed spec fn wf(&self) -> bool {
        &&& self.state@.len() == self.piece_count
        &&& self.done_count == count(self.state@, PieceState::Done)
        &&& self.needed_count == count(self.state@, PieceState::Needed)
    }

    pub fn new(piece_count: u32, piece_length: u64, total_length: u64) -> (pm: Self)
        ensures
            pm.wf(),
            pm@ == (Pieces {
                states: Seq::new(piece_count as nat, |i: int| PieceState::Needed),
                piece_length,
                total_length,
                downloaded: 0,
            }),
    {
        let mut state: Vec<PieceState> = Vec::new();
        let mut i: u32 = 0;
        while i < piece_count
            invariant
                i <= piece_count,
                state@ == Seq::new(i as nat, |i: int| PieceState::Needed),
            decreases piece_count - i,
        {
            state.push(PieceState::Needed);
            i = i + 1;
            assert(state@ =~= Seq::new(i as nat, |i: int| PieceState::Needed));
        }
        proof {
            lemma_count_all(state@, PieceState::Done);
            lemma_count_all(state@, PieceState::Needed);
        }
        PieceManager {
            piece_count,
            state,
            piece_length,
            total_length,
            downloaded: 0,
            done_count: 0,
            needed_count: piece_count,
        }
    }

    pub fn piece_count(&self) -> (r: u32)
        requires
            self.wf(),
        ensures
            r == self@.states.len(),
    {
        self.piece_count
    }

    pub fn is_complete(&self) -> (r: bool)
        requires
            self.wf(),
        ensures
            r <==> forall|i: int| 0 <= i < self@.states.len() ==> self@.states[i] == PieceState::Done,
    {
        proof {
            lemma_count_all(self.state@, PieceState::Done);
        }
        self.done_count == self.piece_count
    }

    /// Claim the first needed piece that the peer has (simple sequential strategy).
    /// Returns the piece index, or `None` if nothing is available for this peer.
    pub fn claim_piece(&mut self, peer_bitfield: &[bool]) -> (r: Option<u32>)
        requires
            old(self).wf(),
        ensures
            final(self).wf(),
            match r {
                Some(i) => {
                    &&& old(self)@.claimable(peer_bitfield@, i as int)
                    &&& forall|j: int| 0 <= j < i ==> !old(self)@.claimable(peer_bitfield@, j)
                    &&& final(self)@ == old(self)@.with(i as int, PieceState::Claimed)
                },
                None => {
                    &&& forall|j: int| !old(self)@.claimable(peer_bitfield@, j)
                    &&& final(self)@ == old(self)@
                },
            },
    {
        let mut i: u32 = 0;
        while i < self.piece_count
            invariant
                *self == *old(self),
                self.wf(),
                i <= self.piece_count,
                forall|j: int| 0 <= j < i ==> !old(self)@.claimable(peer_bitfield@, j),
            decreases self.piece_count - i,
        {
            let at: usize = i as usize;
            if self.state[at] == PieceState::Needed && at < peer_bitfield.len()
                && peer_bitfield[at] {
                proof {
                    lemma_count_update(
                        self.state@,
                        at as int,
                        PieceState::Claimed,
                        PieceState::Needed,
                    );
                    lemma_count_update(
                        self.state@,
                        at as int,
                        PieceState::Claimed,
                        PieceState::Done,
                    );
                    assert(old(self)@.claimable(peer_bitfield@, i as int));
                    lemma_count_all(self.state@, PieceState::Needed);
                }
                self.state[at] = PieceState::Claimed;
                self.needed_count = self.needed_count - 1;
                return Some(i);
            }
            assert(!old(self)@.claimable(peer_bitfield@, i as int));
            i = i + 1;
        }
        None
    }

    /// Return a piece back to Needed (e.g. if a peer disconnected mid-download).
    pub fn return_piece(&mut self, index: u32)
        requires
            old(self).wf(),
        ensures
            final(self).wf(),
            final(self)@ == if index < old(self)@.states.len() && old(self)@.states[index as int]
                == PieceState::Claimed {
                old(self)@.with(index as int, PieceState::Needed)
            } else {
                old(self)@
            },
    {
        let at: usize = index as usize;
        if at < self.state.len() && self.state[at] == PieceState::Claimed {
            proof {
                lemma_count_update(self.state@, at as int, PieceState::Needed, PieceState::Needed);
                lemma_count_update(self.state@, at as int, PieceState::Needed, PieceState::Done);
                lemma_count_bound(
                    self.state@.update(at as int, PieceState::Needed),
                    PieceState::Needed,
                );
            }
            self.state[at] = PieceState::Needed;
            self.needed_count = self.needed_count + 1;
        }
    }

    /// Mark a piece as successfully verified and written to disk.
    pub fn mark_done(&mut self, index: u32, piece_len: u64)
        requires
            old(self).wf(),
            old(self)@.missing(index as int) ==> old(self)@.downloaded + piece_len <= u64::MAX,
        ensures
            final(self).wf(),
            final(self)@ == if old(self)@.missing(index as int) {
                Pieces {
                    downloaded: (old(self)@.downloaded + piece_len) as u64,
                    ..old(self)@.with(index as int, PieceState::Done)
                }
            } else {
                old(self)@
            },
    {
        let at: usize = index as usize;
        if at < self.state.len() {
            let before = self.state[at];
            if before != PieceState::Done {
                proof {
                    lemma_count_update(self.state@, at as int, PieceState::Done, PieceState::Needed);
                    lemma_count_update(self.state@, at as int, PieceState::Done, PieceState::Done);
                    lemma_count_bound(
                        self.state@.update(at as int, PieceState::Done),
                        PieceState::Done,
                    );
                }
                self.state[at] = PieceState::Done;
                if before == PieceState::Needed {
                    self.needed_count = self.needed_count - 1;
                }
                self.done_count = self.done_count + 1;
                self.downloaded = self.downloaded + piece_len;
            }
        }
    }

    /// True if we still need this piece.
    pub fn needs(&self, index: u32) -> (r: bool)
        ensures
            r == self@.missing(index as int),
    {
        let at: usize = index as usize;
        at < self.state.len() && self.state[at] != PieceState::Done
    }

    /// Length of a specific piece.
    pub fn piece_len(&self, index: u32) -> (r: u64)
        requires
            self.wf(),
            is_last(self@.states.len() as int, index as int) ==> self@.piece_length != 0,
        ensures
            r == self@.len_of(index as int),
    {
        let last: u32 = self.piece_count.saturating_sub(1);
        if index == last {
            let rem: u64 = self.total_length % self.piece_length;
            if rem == 0 {
                self.piece_length
            } else {
                rem
            }
        } else {
            self.piece_length
        }
    }

    /// Bytes of the pieces that are done.
    pub fn downloaded(&self) -> (r: u64)
        ensures
            r == self@.downloaded,
    {
        self.downloaded
    }

    /// Count of done pieces.
    pub fn done_count(&self) -> (r: u32)
        requires
            self.wf(),
        ensures
            r == count(self@.states, PieceState::Done),
    {
        self.done_count
    }

    /// Set of pieces the peer has, parsed from a bitfield.
    pub fn bitfield_to_vec(bitfield: &[u8], piece_count: u32) -> (has: Vec<bool>)
        ensures
            has@ == Seq::new(piece_count as nat, |i: int| has_piece(bitfield@, i)),
    {
        let mut has: Vec<bool> = Vec::new();
        let mut i: u32 = 0;
        while i < piece_count
            invariant
                i <= piece_count,
                has@ == Seq::new(i as nat, |i: int| has_piece(bitfield@, i)),
            decreases piece_count - i,
        {
            let at: usize = i as usize;
            has.push(at / 8 < bitfield.len() && read_bit(bitfield, at));
            i = i + 1;
            assert(has@ =~= Seq::new(i as nat, |i: int| has_piece(bitfield@, i)));
        }
        has
    }

    /// Build a bitfield of all completed pieces.
    pub fn build_bitfield(&self) -> (bits: Vec<u8>)
        requires
            self.wf(),
        ensures
            shows_done(bits@, self@.states),
    {
        let n: u32 = self.piece_count / 8 + if self.piece_count % 8 == 0 {
            0
        } else {
            1
        };
        let mut bits: Vec<u8> = Vec::new();
        let mut k: u32 = 0;
        while k < n
            invariant
                k <= n,
                bits@ == Seq::new(k as nat, |i: int| 0u8),
            decreases n - k,
        {
            bits.push(0);
            k = k + 1;
            assert(bits@ =~= Seq::new(k as nat, |i: int| 0u8));
        }
        proof {
            assert forall|j: int| 0 <= j < 8 * bits@.len() implies !#[trigger] bit(bits@, j) by {
                let s = (7 - j % 8) as u8;
                assert((0u8 >> s) & 1u8 != 1u8) by (bit_vector)
                    requires
                        s < 8,
                ;
            }
        }
        let mut i: u32 = 0;
        while i < self.piece_count
            invariant
                self.wf(),
                i <= self.piece_count,
                n == (self.piece_count + 7) / 8,
                bits@.len() == n,
                forall|j: int|
                    0 <= j < 8 * bits@.len() ==> #[trigger] bit(bits@, j) == (j < i
                        && self@.states[j] == PieceState::Done),
            decreases self.piece_count - i,
        {
            let at: usize = i as usize;
            if self.state[at] == PieceState::Done {
                let ghost before = bits@;
                let shift: u8 = (7 - at % 8) as u8;
                let old_byte: u8 = bits[at / 8];
                let new_byte: u8 = old_byte | (1u8 << shift);
                bits[at / 8] = new_byte;
                proof {
                    assert forall|j: int| 0 <= j < 8 * bits@.len() implies #[trigger] bit(bits@, j)
                        == (bit(before, j) || j == at) by {
                        if j / 8 == at / 8 {
                            let s = (7 - j % 8) as u8;
                            lemma_set_bit(old_byte, shift, s);
                            assert(s == shift <==> j == at);
                        }
                    }
                }
            }
            assert forall|j: int| 0 <= j < 8 * bits@.len() implies #[trigger] bit(bits@, j) == (j < i
                + 1 && self@.states[j] == PieceState::Done) by {}
            i = i + 1;
        }
        bits
    }

    pub fn needed_count(&self) -> (r: u32)
        requires
            self.wf(),
        ensures
            r == count(self@.states, PieceState::Needed),
    {
        self.needed_count
    }

    /// Indices of all pieces not yet done (for diagnostics).
    pub fn pending_set(&self) -> (r: HashSet<u32>)
        requires
            self.wf(),
        ensures
            r@ == Set::new(|i: u32| self@.missing(i as int)),
    {
        broadcast use vstd::std_specs::hash::group_hash_axioms;

        let mut out: HashSet<u32> = HashSet::new();
        let mut i: u32 = 0;
        while i < self.piece_count
            invariant
                self.wf(),
                i <= self.piece_count,
                out@ == Set::new(|j: u32| j < i && self@.states[j as int] != PieceState::Done),
            decreases self.piece_count - i,
        {
            if self.state[i as usize] != PieceState::Done {
                out.insert(i);
            }
            i = i + 1;
            assert(out@ =~= Set::new(
                |j: u32| j < i && self@.states[j as int] != PieceState::Done,
            ));
        }
        assert(out@ =~= Set::new(|i: u32| self@.missing(i as int)));
        out
    }
}

/// Setting a bit of a byte sets that bit and no other.
pub proof fn lemma_set_bit(b: u8, s: u8, k: u8)
    by (bit_vector)
    requires
        s < 8,
        k < 8,
    ensures
        (((b | (1u8 << s)) >> k) & 1u8 == 1u8) == (s == k || (b >> k) & 1u8 == 1u8),
{
}

// Laws

/// What a peer reads from our bitfield is which pieces are done.
pub proof fn lemma_bitfield_round_trip(bytes: Seq<u8>, states: Seq<PieceState>)
    requires
        shows_done(bytes, states),
    ensures
        Seq::new(states.len(), |i: int| has_piece(bytes, i)) == states.map_values(
            |s: PieceState| s == PieceState::Done,
        ),
{
    let read = Seq::new(states.len(), |i: int| has_piece(bytes, i));
    assert forall|i: int| 0 <= i < states.len() implies read[i] == (states[i]
        == PieceState::Done) by {
        assert(bit(bytes, i) == (states[i] == PieceState::Done));
    }
    assert(read =~= states.map_values(|s: PieceState| s == PieceState::Done));
}

/// Every piece is in exactly one of the three states.
pub proof fn lemma_counts_add_up(states: Seq<PieceState>)
    ensures
        count(states, PieceState::Needed) + count(states, PieceState::Claimed) + count(
            states,
            PieceState::Done,
        ) == states.len(),
    decreases states.len(),
{
    if states.len() > 0 {
        lemma_counts_add_up(states.drop_last());
    }
}

/// A claimed piece cannot be claimed again until it is returned, and returning
/// it undoes the claim.
pub proof fn lemma_claim_is_exclusive(p: Pieces, peer_bitfield: Seq<bool>, i: int)
    requires
        p.claimable(peer_bitfield, i),
    ensures
        !p.with(i, PieceState::Claimed).claimable(peer_bitfield, i),
        p.with(i, PieceState::Claimed).with(i, PieceState::Needed) == p,
{
    assert(p.states.update(i, PieceState::Claimed).update(i, PieceState::Needed) =~= p.states);
}

/// The bytes of the done pieces among the first `n`.
pub open spec fn done_bytes(p: Pieces, n: int) -> int
    decreases n,
{
    if n <= 0 {
        0
    } else {
        done_bytes(p, n - 1) + if p.states[n - 1] == PieceState::Done {
            p.len_of(n - 1)
        } else {
            0
        }
    }
}

/// Whether `downloaded` is the number of bytes of the done pieces.
pub open spec fn accounted(p: Pieces) -> bool {
    p.downloaded == done_bytes(p, p.states.len() as int)
}

/// Whether pieces are those of a torrent, and their bytes are accounted for.
pub open spec fn tracks(p: Pieces, t: Torrent) -> bool {
    &&& p.states.len() == piece_count_of(t)
    &&& p.piece_length == t.piece_length
    &&& p.total_length == t.total_length
    &&& accounted(p)
}

proof fn lemma_done_bytes_bound(p: Pieces, i: int, n: int)
    requires
        p.piece_length > 0,
        0 <= n <= p.states.len(),
        0 <= i < p.states.len(),
        p.states[i] != PieceState::Done,
    ensures
        0 <= done_bytes(p, n) <= n * p.piece_length,
        i < n ==> done_bytes(p, n) + p.len_of(i) <= n * p.piece_length,
    decreases n,
{
    let len = p.piece_length as int;
    assert(0 <= p.total_length as int % len < len);
    if n > 0 {
        lemma_done_bytes_bound(p, i, n - 1);
        assert((n - 1) * len + len == n * len) by (nonlinear_arith);
    } else {
        assert(n * len == 0) by (nonlinear_arith)
            requires
                n == 0,
        ;
    }
}

/// A piece of a torrent that is still missing can be accounted for.
pub proof fn lemma_room_for_missing(p: Pieces, t: Torrent, i: int)
    requires
        tracks(p, t),
        is_addressable(t),
        p.missing(i),
    ensures
        p.len_of(i) == piece_len_of(t, i),
        0 < p.len_of(i) <= p.piece_length,
        p.downloaded + p.len_of(i) <= u64::MAX,
{
    let n = p.states.len() as int;
    let len = p.piece_length as int;
    lemma_done_bytes_bound(p, i, n);
    assert(n * len <= t.piece_hashes.len() * len) by (nonlinear_arith)
        requires
            n <= t.piece_hashes.len(),
            len > 0,
    ;
}

/// Marking a piece of a torrent done keeps the accounts of the torrent.
pub proof fn lemma_mark_done_tracks(p: Pieces, t: Torrent, i: int)
    requires
        tracks(p, t),
        is_addressable(t),
        p.missing(i),
    ensures
        tracks(
            Pieces {
                downloaded: (p.downloaded + p.len_of(i)) as u64,
                ..p.with(i, PieceState::Done)
            },
            t,
        ),
{
    lemma_room_for_missing(p, t, i);
    lemma_mark_done_accounts(p, i);
}

/// Claiming or returning a piece keeps the accounts of the torrent.
pub proof fn lemma_claim_tracks(p: Pieces, t: Torrent, i: int, state: PieceState)
    requires
        tracks(p, t),
        0 <= i < p.states.len(),
        p.states[i] != PieceState::Done,
        state != PieceState::Done,
    ensures
        tracks(p.with(i, state), t),
{
    lemma_done_bytes_same(p, p.with(i, state), p.states.len() as int);
}

proof fn lemma_done_bytes_same(p: Pieces, q: Pieces, n: int)
    requires
        0 <= n <= p.states.len(),
        p.states.len() == q.states.len(),
        p.piece_length == q.piece_length,
        p.total_length == q.total_length,
        forall|i: int|
            0 <= i < n ==> (p.states[i] == PieceState::Done <==> #[trigger] q.states[i]
                == PieceState::Done),
    ensures
        done_bytes(q, n) == done_bytes(p, n),
    decreases n,
{
    if n > 0 {
        lemma_done_bytes_same(p, q, n - 1);
        assert(p.states[n - 1] == PieceState::Done <==> q.states[n - 1] == PieceState::Done);
    }
}

/// A new manager for a torrent tracks it.
pub proof fn lemma_new_tracks(p: Pieces, t: Torrent)
    requires
        p.states == Seq::new(piece_count_of(t) as nat, |i: int| PieceState::Needed),
        p.piece_length == t.piece_length,
        p.total_length == t.total_length,
        p.downloaded == 0,
    ensures
        tracks(p, t),
{
    lemma_nothing_done(p, p.states.len() as int);
}

proof fn lemma_nothing_done(p: Pieces, n: int)
    requires
        0 <= n <= p.states.len(),
        forall|i: int| 0 <= i < p.states.len() ==> p.states[i] == PieceState::Needed,
    ensures
        done_bytes(p, n) == 0,
    decreases n,
{
    if n > 0 {
        lemma_nothing_done(p, n - 1);
    }
}

proof fn lemma_done_bytes_update(p: Pieces, q: Pieces, i: int, n: int)
    requires
        0 <= n <= p.states.len(),
        0 <= i < p.states.len(),
        p.states[i] != PieceState::Done,
        q.states == p.states.update(i, PieceState::Done),
        q.piece_length == p.piece_length,
        q.total_length == p.total_length,
    ensures
        done_bytes(q, n) == done_bytes(p, n) + if i < n {
            p.len_of(i)
        } else {
            0
        },
    decreases n,
{
    if n > 0 {
        lemma_done_bytes_update(p, q, i, n - 1);
    }
}

/// Marking a piece done with its own length keeps `downloaded` the number of
/// bytes of the done pieces.
pub proof fn lemma_mark_done_accounts(p: Pieces, i: int)
    requires
        accounted(p),
        p.missing(i),
        is_last(p.states.len() as int, i) ==> p.piece_length > 0,
        p.downloaded + p.len_of(i) <= u64::MAX,
    ensures
        accounted(
            Pieces {
                downloaded: (p.downloaded + p.len_of(i)) as u64,
                ..p.with(i, PieceState::Done)
            },
        ),
{
    let q = Pieces {
        downloaded: (p.downloaded + p.len_of(i)) as u64,
        ..p.with(i, PieceState::Done)
    };
    lemma_done_bytes_update(p, q, i, p.states.len() as int);
}

proof fn lemma_done_bytes_full(p: Pieces, n: int)
    requires
        0 <= n < p.states.len(),
        forall|i: int| 0 <= i < p.states.len() ==> p.states[i] == PieceState::Done,
    ensures
        done_bytes(p, n) == n * p.piece_length,
    decreases n,
{
    if n > 0 {
        lemma_done_bytes_full(p, n - 1);
        assert(!is_last(p.states.len() as int, n - 1));
        assert((n - 1) * p.piece_length + p.piece_length == n * p.piece_length)
            by (nonlinear_arith);
    } else {
        assert(n * p.piece_length == 0) by (nonlinear_arith)
            requires
                n == 0,
        ;
    }
}

proof fn lemma_all_bytes(p: Pieces)
    requires
        p.piece_length > 0,
        p.total_length > 0,
        p.states.len() == (p.total_length + p.piece_length - 1) / p.piece_length as int,
        forall|i: int| 0 <= i < p.states.len() ==> p.states[i] == PieceState::Done,
    ensures
        done_bytes(p, p.states.len() as int) == p.total_length,
{
    let len = p.piece_length as int;
    let total = p.total_length as int;
    let n = p.states.len() as int;
    let q = total / len;
    let r = total % len;
    lemma_fundamental_div_mod(total, len);
    assert(len * q == q * len) by (nonlinear_arith);
    if r == 0 {
        assert(q > 0) by (nonlinear_arith)
            requires
                total == q * len,
                total > 0,
                len > 0,
        ;
        lemma_fundamental_div_mod_converse(total + len - 1, len, q, len - 1);
        assert((q - 1) * len + len == q * len) by (nonlinear_arith);
    } else {
        assert((q + 1) * len + (r - 1) == total + len - 1) by (nonlinear_arith)
            requires
                total == q * len + r,
        ;
        lemma_fundamental_div_mod_converse(total + len - 1, len, q + 1, r - 1);
        assert(q >= 0) by (nonlinear_arith)
            requires
                total == q * len + r,
                total > 0,
                r < len,
                len > 0,
        ;
    }
    lemma_done_bytes_full(p, n - 1);
}

proof fn lemma_done_bytes_below(p: Pieces, q: Pieces, n: int)
    requires
        0 <= n <= p.states.len(),
        p.piece_length > 0,
        q.states == Seq::new(p.states.len(), |i: int| PieceState::Done),
        q.piece_length == p.piece_length,
        q.total_length == p.total_length,
    ensures
        done_bytes(p, n) <= done_bytes(q, n),
        done_bytes(p, n) == done_bytes(q, n) <==> forall|i: int|
            0 <= i < n ==> p.states[i] == PieceState::Done,
    decreases n,
{
    if n > 0 {
        lemma_done_bytes_below(p, q, n - 1);
        assert(p.len_of(n - 1) == q.len_of(n - 1));
        assert(p.len_of(n - 1) > 0);
        if done_bytes(p, n) == done_bytes(q, n) {
            assert(p.states[n - 1] == PieceState::Done);
        }
    }
}

/// Everything has been downloaded exactly when every piece of the stream is
/// done; until then it is less.
pub proof fn lemma_complete_is_everything(p: Pieces)
    requires
        accounted(p),
        p.piece_length > 0,
        p.total_length > 0,
        p.states.len() == (p.total_length + p.piece_length - 1) / p.piece_length as int,
    ensures
        p.downloaded <= p.total_length,
        p.downloaded == p.total_length <==> forall|i: int|
            0 <= i < p.states.len() ==> p.states[i] == PieceState::Done,
{
    let q = Pieces { states: Seq::new(p.states.len(), |i: int| PieceState::Done), ..p };
    lemma_all_bytes(q);
    lemma_done_bytes_below(p, q, p.states.len() as int);
}

/// The weight of a bit in its byte; the first piece has the most significant one.
pub open spec fn weight(i: int) -> int {
    let k = i % 8;
    if k == 0 {
        128
    } else if k == 1 {
        64
    } else if k == 2 {
        32
    } else if k == 3 {
        16
    } else if k == 4 {
        8
    } else if k == 5 {
        4
    } else if k == 6 {
        2
    } else {
        1
    }
}

proof fn lemma_shifted(b: u8)
    by (bit_vector)
    ensures
        ((b >> 0u8) & 1u8 == 1u8) <==> b % 2 == 1,
        ((b >> 1u8) & 1u8 == 1u8) <==> (b / 2) % 2 == 1,
        ((b >> 2u8) & 1u8 == 1u8) <==> (b / 4) % 2 == 1,
        ((b >> 3u8) & 1u8 == 1u8) <==> (b / 8) % 2 == 1,
        ((b >> 4u8) & 1u8 == 1u8) <==> (b / 16) % 2 == 1,
        ((b >> 5u8) & 1u8 == 1u8) <==> (b / 32) % 2 == 1,
        ((b >> 6u8) & 1u8 == 1u8) <==> (b / 64) % 2 == 1,
        ((b >> 7u8) & 1u8 == 1u8) <==> (b / 128) % 2 == 1,
{
}

/// Eight pieces share a byte of a bitfield, the first of them its most
/// significant bit; beyond the bitfield no piece is there.
pub proof fn lemma_bit_weight(bytes: Seq<u8>, i: int)
    requires
        0 <= i,
    ensures
        has_piece(bytes, i) <==> i < 8 * bytes.len() && (bytes[i / 8] as int / weight(i)) % 2 == 1,
{
    if i / 8 < bytes.len() {
        lemma_shifted(bytes[i / 8]);
    }
}

} // verus!
