//! The piece manager: which peer has which piece, how many peers have each
//! piece, and which piece to ask of a peer next.

use vstd::prelude::*;
use vstd::set_lib::lemma_len_subset;
use std::collections::HashMap;
use crate::data::{Endpoint, GeneralError, Info};
use crate::hash::sha1;
use crate::piece_manager::{BitField, Block, PieceModel, PiecesWrapper, block_bytes, block_len, pending, pieces_view, wrote};
use crate::piece_map::{valid_bitfield, wire_bits};
use crate::pwp::{Message, MessageModel};

verus! {

/// Most peers whose pieces are tracked at a time: as many as the machine
/// can count.
pub const MAX_PEERS: usize = usize::MAX;

/// Most requests that wait for an answer from one peer.
pub const PIPELINE: usize = 4;

/// Seconds after which a request without answer is given up.
pub const REQUEST_TIMEOUT: u64 = 30;

/// The number that stands for a peer's address in maps.
pub open spec fn key_of(e: Endpoint) -> u64 {
    (e.ip as u64 * 0x1_0000 + e.port as u64) as u64
}

/// The number that stands for a peer's address in maps.
pub fn endpoint_key(e: &Endpoint) -> (k: u64)
    ensures
        k == key_of(*e),
{
    (e.ip as u64) * 0x1_0000 + (e.port as u64)
}

/// Two addresses have the same key only if they are the same.
pub proof fn lemma_key_injective(a: Endpoint, b: Endpoint)
    requires
        key_of(a) == key_of(b),
    ensures
        a == b,
{
}

/// The peers that have piece `i`.
pub open spec fn holders(m: Map<u64, BitField>, i: int) -> Set<u64> {
    Set::new(|k: u64| m.contains_key(k) && m[k]@[i])
}

/// The holders of a piece are among the peers known, so there are finitely
/// many and no more than peers.
pub proof fn lemma_holders_bounded(m: Map<u64, BitField>, i: int)
    requires
        m.dom().finite(),
    ensures
        holders(m, i).finite(),
        holders(m, i).len() <= m.dom().len(),
{
    assert(holders(m, i).subset_of(m.dom()));
    lemma_len_subset(holders(m, i), m.dom());
}

/// Giving peer `key` the pieces `bits` adds it to the holders of the pieces
/// it has and takes it from the holders of the others.
pub proof fn lemma_holders_insert(m: Map<u64, BitField>, key: u64, bits: BitField, i: int)
    requires
        m.dom().finite(),
    ensures
        holders(m.insert(key, bits), i) == if bits@[i] {
            holders(m, i).insert(key)
        } else {
            holders(m, i).remove(key)
        },
        holders(m.insert(key, bits), i).len() == holders(m, i).len() - (if holders(
            m,
            i,
        ).contains(key) {
            1int
        } else {
            0int
        }) + (if bits@[i] {
            1int
        } else {
            0int
        }),
{
    let before = holders(m, i);
    let after = holders(m.insert(key, bits), i);
    lemma_holders_bounded(m, i);
    if bits@[i] {
        assert(after =~= before.insert(key));
    } else {
        assert(after =~= before.remove(key));
    }
}

/// Forgetting peer `key` takes it from the holders of every piece.
pub proof fn lemma_holders_remove(m: Map<u64, BitField>, key: u64, i: int)
    requires
        m.dom().finite(),
    ensures
        holders(m.remove(key), i) == holders(m, i).remove(key),
        holders(m.remove(key), i).len() == holders(m, i).len() - (if holders(m, i).contains(
            key,
        ) {
            1int
        } else {
            0int
        }),
{
    lemma_holders_bounded(m, i);
    assert(holders(m.remove(key), i) =~= holders(m, i).remove(key));
}

/// The state of a download: the pieces, the bitfield of every peer, and for
/// every piece the number of peers that have it.
pub struct DataManager {
    pub bitfield_map: HashMap<u64, BitField>,
    pub availability: Vec<usize>,
    pub pieces: PiecesWrapper,
    pub piece_len: u64,
}

impl DataManager {
    /// The number of pieces.
    pub open spec fn count(&self) -> int {
        self.pieces.inner@.len() as int
    }

    /// Peer `k`, if known, has a bitfield over all pieces.
    pub open spec fn peer_ok(&self, k: u64) -> bool {
        self.bitfield_map@.contains_key(k) ==> self.bitfield_map@[k].wf()
            && self.bitfield_map@[k]@.len() == self.count()
    }

    /// The availability of piece `i` is the number of peers whose bitfield
    /// has bit `i` set.
    pub open spec fn counted(&self, i: int) -> bool {
        self.availability@[i] == holders(self.bitfield_map@, i).len()
    }

    /// The manager's invariant: the pieces are well formed, each peer's bitfield
    /// has one bit for each piece, and the availability of each piece counts the
    /// peers that hold it.
    pub open spec fn wf(&self) -> bool {
        &&& self.pieces.wf()
        &&& self.piece_len == self.pieces.piece_len
        &&& self.availability@.len() == self.count()
        &&& self.bitfield_map@.dom().len() <= MAX_PEERS
        &&& forall|k: u64| #[trigger] self.peer_ok(k)
        &&& forall|i: int| 0 <= i < self.count() ==> #[trigger] self.counted(i)
    }

    /// A download of `info` with nothing here and no peer known. `None`
    /// where `PiecesWrapper::new` gives none.
    pub fn new(info: Info) -> (r: Option<DataManager>)
        ensures
            r is Some <==> info@.valid() && info.piece_length <= u32::MAX && info.pieces@.len()
                <= u32::MAX,
            r matches Some(m) ==> m.wf() && m.bitfield_map@ == Map::<u64, BitField>::empty()
                && m.pieces.hashes@ == info.pieces@ && m.piece_len == info.piece_length
                && m.pieces.total == info@.mode.total_length() && m.pieces.mode == info.mode
                && m.pieces.layout.lays_out(info@.mode) && forall|
                i: int,
            |
                0 <= i < m.count() ==> (#[trigger] m.pieces.inner@[i])@ == PieceModel::missing(
                    crate::piece_manager::blocks_in(m.pieces.size_of(i)),
                ),
    {
        let pieces = match PiecesWrapper::new(info) {
            Some(p) => p,
            None => {
                return None;
            },
        };
        let n: usize = pieces.inner.len();
        let mut availability: Vec<usize> = Vec::new();
        let mut i: usize = 0;
        while i < n
            invariant
                i <= n,
                availability@.len() == i,
                forall|j: int| 0 <= j < i ==> availability@[j] == 0,
            decreases n - i,
        {
            availability.push(0);
            i += 1;
        }
        let piece_len: u64 = pieces.piece_len;
        let m = DataManager { bitfield_map: HashMap::new(), availability, pieces, piece_len };
        proof {
            assert(m.bitfield_map@.dom() =~= Set::<u64>::empty());
            assert forall|i: int| 0 <= i < m.count() implies #[trigger] m.counted(i) by {
                assert(holders(m.bitfield_map@, i) =~= Set::<u64>::empty());
            }
        }
        Some(m)
    }

    /// Whether peer `peer` is known to have piece `i`.
    pub open spec fn has(&self, peer: Endpoint, i: int) -> bool {
        self.bitfield_map@.contains_key(key_of(peer)) && self.bitfield_map@[key_of(peer)]@[i]
    }

    /// Takes `bits` as what `peer` has, in place of what was known of it. A
    /// bitfield over another number of pieces is refused as an invalid piece
    /// index. No number of peers is too great but one that the machine cannot
    /// count, `MAX_PEERS`: a new peer beyond it is refused with `Usage`.
    /// The pieces themselves are not touched.
    pub fn bitfield(&mut self, peer: Endpoint, bits: BitField) -> (r: Result<(), GeneralError>)
        requires
            old(self).wf(),
            bits.wf(),
        ensures
            final(self).wf(),
            final(self).pieces == old(self).pieces,
            bits@.len() != old(self).count() ==> r == Err::<(), GeneralError>(
                GeneralError::InvalidPieceIdx,
            ) && final(self).bitfield_map@ == old(self).bitfield_map@,
            bits@.len() == old(self).count() && !old(self).bitfield_map@.contains_key(
                key_of(peer),
            ) && old(self).bitfield_map@.dom().len() >= MAX_PEERS ==> r == Err::<
                (),
                GeneralError,
            >(GeneralError::Usage) && final(self).bitfield_map@ == old(self).bitfield_map@,
            bits@.len() == old(self).count() && (old(self).bitfield_map@.contains_key(
                key_of(peer),
            ) || old(self).bitfield_map@.dom().len() < MAX_PEERS) ==> r is Ok && final(self).bitfield_map@ == old(self).bitfield_map@.insert(key_of(peer), bits),
    {
        let n: usize = self.availability.len();
        if bits.len != n {
            return Err(GeneralError::InvalidPieceIdx);
        }
        let key: u64 = endpoint_key(&peer);
        let known: bool = self.bitfield_map.contains_key(&key);
        if !known && self.bitfield_map.len() >= MAX_PEERS {
            return Err(GeneralError::Usage);
        }
        let ghost before = self.bitfield_map@;
        let ghost after = before.insert(key, bits);
        proof {
            assert(after.dom() =~= before.dom().insert(key));
            assert(after.dom().len() <= MAX_PEERS);
            assert forall|j: int| 0 <= j < n implies #[trigger] self.availability@[j] == holders(
                before,
                j,
            ).len() by {
                assert(self.counted(j));
            }
        }
        let mut i: usize = 0;
        while i < n
            invariant
                i <= n,
                n == self.availability@.len(),
                n == bits@.len(),
                bits.wf(),
                self.bitfield_map@ == before,
                self.pieces == old(self).pieces,
                self.piece_len == old(self).piece_len,
                before.dom().finite(),
                after == before.insert(key, bits),
                after.dom().finite(),
                after.dom().len() <= MAX_PEERS,
                known == before.contains_key(key),
                forall|k: u64| #[trigger] old(self).peer_ok(k),
                old(self).bitfield_map@ == before,
                old(self).count() == n,
                forall|j: int| 0 <= j < i ==> #[trigger] self.availability@[j] == holders(
                    after,
                    j,
                ).len(),
                forall|j: int| i <= j < n ==> #[trigger] self.availability@[j] == holders(
                    before,
                    j,
                ).len(),
            decreases n - i,
        {
            let was: bool = match self.bitfield_map.get(&key) {
                Some(b) => {
                    assert(old(self).peer_ok(key));
                    b.get(i)
                },
                None => false,
            };
            let gets: bool = bits.get(i);
            proof {
                lemma_holders_insert(before, key, bits, i as int);
                lemma_holders_bounded(before, i as int);
                lemma_holders_bounded(after, i as int);
            }
            let c: usize = self.availability[i];
            if was && !gets {
                self.availability[i] = c - 1;
            } else if !was && gets {
                self.availability[i] = c + 1;
            }
            i += 1;
        }
        self.bitfield_map.insert(key, bits);
        proof {
            assert(self.bitfield_map@ == after);
            assert forall|k: u64| #[trigger] self.peer_ok(k) by {
                assert(old(self).peer_ok(k));
            }
            assert forall|j: int| 0 <= j < self.count() implies #[trigger] self.counted(j) by {
                assert(self.availability@[j] == holders(after, j).len());
            }
        }
        Ok(())
    }

    /// What is known of the pieces of peer `key`: its bitfield, or no piece
    /// at all while the peer is not known.
    pub open spec fn known_bits(&self, key: u64) -> Seq<bool> {
        if self.bitfield_map@.contains_key(key) {
            self.bitfield_map@[key]@
        } else {
            Seq::new(self.count() as nat, |i: int| false)
        }
    }

    /// Notes that `peer` has piece `index`. A peer that is not known yet is
    /// taken to have had nothing before. A number that names no piece is
    /// refused as an invalid piece index; a new peer beyond what the machine
    /// can count, with `Usage`. The pieces themselves are not touched.
    pub fn have(&mut self, peer: Endpoint, index: usize) -> (r: Result<(), GeneralError>)
        requires
            old(self).wf(),
        ensures
            final(self).wf(),
            final(self).pieces == old(self).pieces,
            r == (if index >= old(self).count() {
                Err::<(), GeneralError>(GeneralError::InvalidPieceIdx)
            } else if !old(self).bitfield_map@.contains_key(key_of(peer)) && old(self).bitfield_map@.dom().len() >= MAX_PEERS {
                Err::<(), GeneralError>(GeneralError::Usage)
            } else {
                Ok::<(), GeneralError>(())
            }),
            r is Err ==> final(self).bitfield_map@ == old(self).bitfield_map@,
            r is Ok ==> {
                &&& final(self).bitfield_map@.contains_key(key_of(peer))
                &&& final(self).bitfield_map@[key_of(peer)]@ == old(self).known_bits(
                    key_of(peer),
                ).update(index as int, true)
                &&& final(self).bitfield_map@.remove(key_of(peer)) == old(self).bitfield_map@.remove(key_of(peer))
            },
    {
        let n: usize = self.availability.len();
        if index >= n {
            return Err(GeneralError::InvalidPieceIdx);
        }
        let key: u64 = endpoint_key(&peer);
        let known: bool = self.bitfield_map.contains_key(&key);
        if !known && self.bitfield_map.len() >= MAX_PEERS {
            return Err(GeneralError::Usage);
        }
        let ghost before = self.bitfield_map@;
        let ghost prior = self.known_bits(key);
        assert(self.peer_ok(key));
        assert(self.counted(index as int));
        let mut bits: BitField = match self.bitfield_map.remove(&key) {
            Some(b) => b,
            None => BitField::empty(n),
        };
        assert(bits@ =~= prior);
        let was: bool = bits.get(index);
        bits.set(index);
        let ghost after = before.insert(key, bits);
        proof {
            assert(before.remove(key).insert(key, bits) =~= after);
            assert(after.dom() =~= before.dom().insert(key));
            assert(after.remove(key) =~= before.remove(key));
            lemma_holders_bounded(after, index as int);
            assert forall|j: int| 0 <= j < n implies holders(after, j).len() == holders(
                before,
                j,
            ).len() + (if j == index && !was {
                1int
            } else {
                0int
            }) by {
                lemma_holders_insert(before, key, bits, j);
            }
        }
        if !was {
            let c: usize = self.availability[index];
            self.availability[index] = c + 1;
        }
        self.bitfield_map.insert(key, bits);
        proof {
            assert(self.bitfield_map@ == after);
            assert forall|k: u64| #[trigger] self.peer_ok(k) by {
                assert(old(self).peer_ok(k));
            }
            assert forall|j: int| 0 <= j < self.count() implies #[trigger] self.counted(j) by {
                assert(old(self).counted(j));
            }
        }
        Ok(())
    }

    /// Forgets what `peer` has. The pieces themselves are not touched.
    pub fn remove_peer(&mut self, peer: Endpoint)
        requires
            old(self).wf(),
        ensures
            final(self).wf(),
            final(self).pieces == old(self).pieces,
            final(self).bitfield_map@ == old(self).bitfield_map@.remove(key_of(peer)),
    {
        let n: usize = self.availability.len();
        let key: u64 = endpoint_key(&peer);
        let ghost before = self.bitfield_map@;
        assert(self.peer_ok(key));
        if !self.bitfield_map.contains_key(&key) {
            assert(before.remove(key) =~= before);
            return ;
        }
        proof {
            assert forall|j: int| 0 <= j < n implies #[trigger] self.availability@[j] == holders(
                before,
                j,
            ).len() by {
                assert(self.counted(j));
            }
        }
        let bits: BitField = match self.bitfield_map.remove(&key) {
            Some(b) => b,
            None => BitField::empty(n),
        };
        let ghost after = before.remove(key);
        assert(self.bitfield_map@ =~= after);
        let mut i: usize = 0;
        while i < n
            invariant
                i <= n,
                n == self.availability@.len(),
                n == bits@.len(),
                bits.wf(),
                before.contains_key(key),
                before[key] == bits,
                before.dom().finite(),
                after == before.remove(key),
                self.bitfield_map@ == after,
                self.pieces == old(self).pieces,
                self.piece_len == old(self).piece_len,
                forall|j: int| 0 <= j < i ==> #[trigger] self.availability@[j] == holders(
                    after,
                    j,
                ).len(),
                forall|j: int| i <= j < n ==> #[trigger] self.availability@[j] == holders(
                    before,
                    j,
                ).len(),
            decreases n - i,
        {
            proof {
                lemma_holders_remove(before, key, i as int);
                lemma_holders_bounded(before, i as int);
            }
            if bits.get(i) {
                let c: usize = self.availability[i];
                self.availability[i] = c - 1;
            }
            i += 1;
        }
        proof {
            assert(after.dom() =~= before.dom().remove(key));
            assert forall|k: u64| #[trigger] self.peer_ok(k) by {
                assert(old(self).peer_ok(k));
            }
            assert forall|j: int| 0 <= j < self.count() implies #[trigger] self.counted(j) by {
                assert(self.availability@[j] == holders(after, j).len());
            }
        }
    }
}

impl DataManager {
    /// Piece `i` is one that `peer` has and of which a block is still to be
    /// asked for.
    pub open spec fn candidate(&self, peer: Endpoint, i: int) -> bool {
        0 <= i < self.count() && self.has(peer, i) && self.pieces.inner@[i]@.has_empty()
    }

    /// Piece `a` comes before piece `b` in rarest-first order: fewer peers
    /// have it, or as many and its index is no higher.
    pub open spec fn rarer(&self, a: int, b: int) -> bool {
        self.availability@[a] < self.availability@[b] || (self.availability@[a]
            == self.availability@[b] && a <= b)
    }

    /// Piece `p` is the one to ask of `peer`: the first of its candidates in
    /// rarest-first order.
    pub open spec fn chosen(&self, peer: Endpoint, p: int) -> bool {
        self.candidate(peer, p) && forall|j: int| self.candidate(peer, j) ==> self.rarer(p, j)
    }

    /// The piece to ask of `peer` next, rarest first and lowest index among
    /// equally rare ones; `None` where the peer has nothing that is wanted.
    pub fn select_piece(&self, peer: Endpoint) -> (r: Option<usize>)
        requires
            self.wf(),
        ensures
            r is Some <==> exists|i: int| self.candidate(peer, i),
            r matches Some(p) ==> self.chosen(peer, p as int),
    {
        let key: u64 = endpoint_key(&peer);
        let n: usize = self.availability.len();
        let bits: &BitField = match self.bitfield_map.get(&key) {
            Some(b) => b,
            None => {
                assert forall|i: int| !self.candidate(peer, i) by {}
                return None;
            },
        };
        assert(self.peer_ok(key));
        let mut best: Option<usize> = None;
        let mut i: usize = 0;
        while i < n
            invariant
                i <= n,
                n == self.count(),
                n == self.availability@.len(),
                bits.wf(),
                bits@.len() == n,
                self.bitfield_map@.contains_key(key),
                key == key_of(peer),
                self.bitfield_map@[key] == *bits,
                best is None ==> forall|j: int| 0 <= j < i ==> !self.candidate(peer, j),
                best matches Some(b) ==> b < i && self.candidate(peer, b as int) && forall|j: int|
                    0 <= j < i && self.candidate(peer, j) ==> self.rarer(b as int, j),
            decreases n - i,
        {
            if bits.get(i) && self.pieces.inner[i].first_empty().is_some() {
                match best {
                    None => {
                        best = Some(i);
                    },
                    Some(b) => {
                        if self.availability[i] < self.availability[b] {
                            best = Some(i);
                        }
                    },
                }
            }
            i += 1;
        }
        best
    }

    /// Whether we are interested in `peer`: it has a piece that is not here
    /// yet and has a block to ask for.
    pub fn wants(&self, peer: Endpoint) -> (r: bool)
        requires
            self.wf(),
        ensures
            r == exists|i: int| self.candidate(peer, i),
    {
        self.select_piece(peer).is_some()
    }

    /// Asks `peer` for one more block, unless `limit` requests to it wait
    /// for an answer already or it has nothing that is wanted: the first
    /// free block of the piece that `select_piece` names. The block counts as
    /// requested of `peer` at `now`.
    pub fn request_within(&mut self, peer: Endpoint, now: u64, limit: usize) -> (r: Option<
        Message,
    >)
        requires
            old(self).wf(),
        ensures
            final(self).wf(),
            final(self).bitfield_map@ == old(self).bitfield_map@,
            final(self).availability@ == old(self).availability@,
            final(self).pieces.hashes == old(self).pieces.hashes,
            final(self).pieces.layout == old(self).pieces.layout,
            final(self).pieces.total == old(self).pieces.total,
            final(self).pieces.mode == old(self).pieces.mode,
            r is Some <==> pending(
                pieces_view(old(self).pieces.inner@),
                peer,
                old(self).count(),
            ) < limit && exists|i: int| old(self).candidate(peer, i),
            r is None ==> pieces_view(final(self).pieces.inner@) == pieces_view(
                old(self).pieces.inner@,
            ),
            r matches Some(m) ==> {
                &&& m matches Message::Request { index, begin, length }
                &&& old(self).chosen(peer, index as int)
                &&& begin % 16384 == 0
                &&& old(self).pieces.inner@[index as int]@.first_empty_is(begin as int / 16384)
                &&& length == block_len(old(self).pieces.size_of(index as int), begin as int / 16384)
                &&& pieces_view(final(self).pieces.inner@) == pieces_view(
                    old(self).pieces.inner@,
                ).update(
                    index as int,
                    PieceModel {
                        blocks: old(self).pieces.inner@[index as int]@.blocks.update(
                            begin as int / 16384,
                            Block::Requested { peer, since: now },
                        ),
                        ..old(self).pieces.inner@[index as int]@
                    },
                )
            },
    {
        if self.pieces.busy(peer, limit) {
            return None;
        }
        let index: usize = match self.select_piece(peer) {
            Some(i) => i,
            None => {
                return None;
            },
        };
        let block: usize = match self.pieces.inner[index].first_empty() {
            Some(b) => b,
            None => {
                return None;
            },
        };
        assert(self.pieces.piece_ok(index as int));
        let size: usize = self.pieces.piece_bytes(index);
        let length: usize = block_bytes(size, block);
        self.pieces.request(index, block, peer, now);
        proof {
            assert forall|k: u64| #[trigger] self.peer_ok(k) by {
                assert(old(self).peer_ok(k));
            }
            assert forall|j: int| 0 <= j < self.count() implies #[trigger] self.counted(j) by {
                assert(old(self).counted(j));
            }
            assert((16384 * block) as int / 16384 == block as int);
        }
        Some(
            Message::Request {
                index: index as u32,
                begin: (16384 * block) as u32,
                length: length as u32,
            },
        )
    }

    /// `request_within` at the usual depth, `PIPELINE`.
    pub fn next_request(&mut self, peer: Endpoint, now: u64) -> (r: Option<Message>)
        requires
            old(self).wf(),
        ensures
            final(self).wf(),
            final(self).bitfield_map@ == old(self).bitfield_map@,
            final(self).availability@ == old(self).availability@,
            final(self).pieces.hashes == old(self).pieces.hashes,
            final(self).pieces.layout == old(self).pieces.layout,
            final(self).pieces.total == old(self).pieces.total,
            final(self).pieces.mode == old(self).pieces.mode,
            r is Some <==> pending(
                pieces_view(old(self).pieces.inner@),
                peer,
                old(self).count(),
            ) < PIPELINE && exists|i: int| old(self).candidate(peer, i),
            r is None ==> pieces_view(final(self).pieces.inner@) == pieces_view(
                old(self).pieces.inner@,
            ),
            r matches Some(m) ==> {
                &&& m matches Message::Request { index, begin, length }
                &&& old(self).chosen(peer, index as int)
                &&& begin % 16384 == 0
                &&& old(self).pieces.inner@[index as int]@.first_empty_is(begin as int / 16384)
                &&& length == block_len(old(self).pieces.size_of(index as int), begin as int / 16384)
                &&& pieces_view(final(self).pieces.inner@) == pieces_view(
                    old(self).pieces.inner@,
                ).update(
                    index as int,
                    PieceModel {
                        blocks: old(self).pieces.inner@[index as int]@.blocks.update(
                            begin as int / 16384,
                            Block::Requested { peer, since: now },
                        ),
                        ..old(self).pieces.inner@[index as int]@
                    },
                )
            },
    {
        self.request_within(peer, now, PIPELINE)
    }
}

/// Failures after which a peer is dropped.
pub const MAX_STRIKES: u8 = 2;

/// How often each peer has sent a block of a piece that failed its hash.
pub struct Suspects {
    pub strikes: HashMap<u64, u8>,
}

impl Suspects {
    /// The failures counted against peer `key`.
    pub open spec fn of(&self, key: u64) -> int {
        if self.strikes@.contains_key(key) {
            self.strikes@[key] as int
        } else {
            0
        }
    }

    /// No peer is suspected.
    pub fn new() -> (r: Suspects)
        ensures
            forall|k: u64| r.of(k) == 0,
    {
        Suspects { strikes: HashMap::new() }
    }

    /// Counts one more failure against `peer` and says whether the peer is
    /// to be dropped, which is from the second failure on.
    pub fn strike(&mut self, peer: Endpoint) -> (drop: bool)
        ensures
            final(self).of(key_of(peer)) == if old(self).of(key_of(peer)) < MAX_STRIKES {
                old(self).of(key_of(peer)) + 1
            } else {
                MAX_STRIKES as int
            },
            forall|k: u64| k != key_of(peer) ==> final(self).of(k) == old(self).of(k),
            drop == (old(self).of(key_of(peer)) + 1 >= MAX_STRIKES),
    {
        let key: u64 = endpoint_key(&peer);
        let before: u8 = match self.strikes.get(&key) {
            Some(n) => *n,
            None => 0,
        };
        let after: u8 = if before < MAX_STRIKES {
            before + 1
        } else {
            MAX_STRIKES
        };
        self.strikes.insert(key, after);
        after >= MAX_STRIKES
    }
}

/// What became of a block that a peer sent.
#[derive(Clone, Debug, PartialEq, Eq)]
pub enum Delivery {
    /// The block does not fit the torrent; the peer broke the protocol.
    Refused,
    /// The piece was verified before; the block is not needed.
    Duplicate,
    /// The block is in; the piece is not whole yet.
    Stored,
    /// The block made the piece whole and the hash is right: the piece is
    /// to be flushed.
    Verified,
    /// The block made the piece whole and the hash is wrong: the piece is
    /// missing again, and these peers have failed too often and are to be
    /// dropped.
    Failed(Vec<Endpoint>),
}

/// Whether `e` sent a block of the piece.
pub open spec fn contributed(p: PieceModel, e: Endpoint) -> bool {
    exists|b: int| 0 <= b < p.blocks.len() && #[trigger] p.blocks[b] == (Block::Received { peer: e })
}

/// What taking in a block does. `before` and `after` are the manager, and
/// `known` and `marked` the failures counted, before and after `peer` sent
/// `data` for position `begin` of piece `index`, and `r` is what is said of
/// it. A block that does not fit is refused. One that makes its piece whole
/// has the hash of the piece checked: with the right hash the piece counts
/// as verified; with a wrong one it is missing again, every peer that sent
/// a block of it has one more failure, and `r` names those that are to be
/// dropped for it. Nothing else changes.
pub open spec fn took(
    before: DataManager,
    after: DataManager,
    known: Suspects,
    marked: Suspects,
    peer: Endpoint,
    index: u32,
    begin: u32,
    data: Seq<u8>,
    r: Delivery,
) -> bool {
    &&& after.bitfield_map@ == before.bitfield_map@
    &&& after.availability@ == before.availability@
    &&& after.pieces.hashes == before.pieces.hashes
    &&& after.pieces.layout == before.pieces.layout
    &&& after.pieces.total == before.pieces.total
    &&& after.pieces.mode == before.pieces.mode
    &&& after.count() == before.count()
    &&& forall|i: int|
        0 <= i < before.count() && i != index ==> (#[trigger] after.pieces.inner@[i])@
            == before.pieces.inner@[i]@
    &&& !(r is Failed) ==> forall|k: u64| marked.of(k) == known.of(k)
    &&& !before.pieces.takes(index as int, begin as int, data.len() as int) ==> r
        == Delivery::Refused && pieces_view(after.pieces.inner@) == pieces_view(
        before.pieces.inner@,
    )
    &&& before.pieces.takes(index as int, begin as int, data.len() as int) ==> {
        let was = before.pieces.inner@[index as int]@;
        let got = wrote(was, before.pieces.size_of(index as int), begin as int, data, peer);
        let is_now = after.pieces.inner@[index as int]@;
        if was.verified {
            r == Delivery::Duplicate && is_now == was
        } else if !got.complete() {
            r == Delivery::Stored && is_now == got
        } else if sha1(got.bytes->Some_0) == before.pieces.hashes@[index as int]@ {
            r == Delivery::Verified && is_now == (PieceModel { verified: true, ..got })
        } else {
            &&& r is Failed
            &&& is_now == PieceModel::missing(got.blocks.len() as int)
            &&& forall|e: Endpoint|
                r->Failed_0@.contains(e) <==> contributed(got, e) && known.of(key_of(e)) + 1
                    >= MAX_STRIKES
            &&& forall|e: Endpoint|
                contributed(got, e) ==> marked.of(key_of(e)) == (if known.of(key_of(e))
                    < MAX_STRIKES {
                    known.of(key_of(e)) + 1
                } else {
                    MAX_STRIKES as int
                })
            &&& forall|k: u64|
                (forall|e: Endpoint| contributed(got, e) ==> key_of(e) != k) ==> marked.of(k)
                    == known.of(k)
        }
    }
}

impl DataManager {
    /// Takes in the block of `data` that `peer` sent for position `begin`
    /// of piece `index`. When the block makes the piece whole, its hash is
    /// checked: a piece with the right hash counts as verified; one with a
    /// wrong hash is forgotten, and every peer that sent a block of it gets
    /// a strike.
    pub fn receive(
        &mut self,
        peer: Endpoint,
        index: u32,
        begin: u32,
        data: &[u8],
        suspects: &mut Suspects,
    ) -> (r: Delivery)
        requires
            old(self).wf(),
        ensures
            final(self).wf(),
            took(
                *old(self),
                *final(self),
                *old(suspects),
                *final(suspects),
                peer,
                index,
                begin,
                data@,
                r,
            ),
    {
        let ghost was_map = self.bitfield_map@;
        let written = self.pieces.write(index as usize, begin as usize, data, peer);
        proof {
            assert forall|k: u64| #[trigger] self.peer_ok(k) by {
                assert(old(self).peer_ok(k));
            }
            assert forall|j: int| 0 <= j < self.count() implies #[trigger] self.counted(j) by {
                assert(old(self).counted(j));
            }
        }
        proof {
            assert forall|i: int| 0 <= i < old(self).count() implies pieces_view(
                self.pieces.inner@,
            )[i] == (#[trigger] self.pieces.inner@[i])@ && pieces_view(old(self).pieces.inner@)[i]
                == old(self).pieces.inner@[i]@ by {}
        }
        let whole: bool = match written {
            Err(GeneralError::AlreadyFlushed) => {
                return Delivery::Duplicate;
            },
            Err(_) => {
                return Delivery::Refused;
            },
            Ok(w) => w,
        };
        let ghost got = self.pieces.inner@[index as int]@;
        proof {
            assert(got == pieces_view(self.pieces.inner@)[index as int]);
            assert(got == wrote(
                old(self).pieces.inner@[index as int]@,
                old(self).pieces.size_of(index as int),
                begin as int,
                data@,
                peer,
            ));
            assert(!old(self).pieces.inner@[index as int]@.verified);
            assert forall|i: int| 0 <= i < old(self).count() && i != index implies self.pieces.inner@[i]@
                == old(self).pieces.inner@[i]@ by {
                assert(pieces_view(self.pieces.inner@)[i] == pieces_view(
                    old(self).pieces.inner@,
                )[i]);
            }
        }
        if !whole {
            proof {
                lemma_same_pieces(old(self).pieces.inner@, self.pieces.inner@, index as int);
            }
            return Delivery::Stored;
        }
        let who = self.pieces.contributors(index as usize);
        let ghost mid = self.pieces.inner@;
        let verdict = self.pieces.verify_piece(index as usize);
        proof {
            assert forall|k: u64| #[trigger] self.peer_ok(k) by {
                assert(old(self).peer_ok(k));
            }
            assert forall|j: int| 0 <= j < self.count() implies #[trigger] self.counted(j) by {
                assert(old(self).counted(j));
            }
            lemma_same_pieces(old(self).pieces.inner@, mid, index as int);
            assert forall|i: int|
                0 <= i < old(self).count() && i != index implies (
            #[trigger] self.pieces.inner@[i])@ == old(self).pieces.inner@[i]@ by {
                assert(self.pieces.inner@[i] == mid[i]);
            }
        }
        assert(mid[index as int]@ == got);
        assert(old(self).pieces.piece_ok(index as int));
        assert(got.complete() && !got.flushed && !got.verified);
        match verdict {
            Ok(()) => {
                assert(sha1(got.bytes->Some_0) == old(self).pieces.hashes@[index as int]@);
                assert(self.pieces.inner@[index as int]@ == (PieceModel { verified: true, ..got }));
                Delivery::Verified
            },
            Err(_) => {
                assert(verdict == Err::<(), GeneralError>(GeneralError::InvalidPieceHash));
                assert(self.pieces.inner@[index as int]@ == PieceModel::missing(
                    got.blocks.len() as int,
                ));
                let mut dropped: Vec<Endpoint> = Vec::new();
                let mut i: usize = 0;
                while i < who.len()
                    invariant
                        i <= who@.len(),
                        forall|a: int, b: int| 0 <= a < b < who@.len() ==> who@[a] != who@[b],
                        forall|e: Endpoint|
                            dropped@.contains(e) <==> (exists|j: int|
                                0 <= j < i && who@[j] == e) && old(suspects).of(key_of(e)) + 1
                                >= MAX_STRIKES,
                        forall|j: int|
                            0 <= j < i ==> suspects.of(key_of(#[trigger] who@[j])) == (if old(suspects).of(key_of(who@[j])) < MAX_STRIKES {
                                old(suspects).of(key_of(who@[j])) + 1
                            } else {
                                MAX_STRIKES as int
                            }),
                        forall|k: u64|
                            (forall|j: int| 0 <= j < i ==> key_of(#[trigger] who@[j]) != k)
                                ==> suspects.of(k) == old(suspects).of(k),
                    decreases who@.len() - i,
                {
                    let e: Endpoint = who[i];
                    let ghost before = *suspects;
                    let ghost listed = dropped@;
                    proof {
                        assert forall|j: int| 0 <= j < i implies key_of(#[trigger] who@[j])
                            != key_of(e) by {
                            if key_of(who@[j]) == key_of(e) {
                                lemma_key_injective(who@[j], e);
                            }
                        }
                        assert(before.of(key_of(e)) == old(suspects).of(key_of(e)));
                    }
                    if suspects.strike(e) {
                        dropped.push(e);
                    }
                    proof {
                        assert forall|e2: Endpoint|
                            dropped@.contains(e2) <==> (exists|j: int|
                                0 <= j < i + 1 && who@[j] == e2) && old(suspects).of(
                                key_of(e2),
                            ) + 1 >= MAX_STRIKES by {
                            if dropped@.contains(e2) {
                                let at = choose|at: int|
                                    0 <= at < dropped@.len() && dropped@[at] == e2;
                                if at < listed.len() {
                                    assert(listed[at] == e2);
                                    assert(listed.contains(e2));
                                    let j = choose|j: int| 0 <= j < i && who@[j] == e2;
                                    assert(0 <= j < i + 1 && who@[j] == e2);
                                } else {
                                    assert(e2 == e);
                                    assert(who@[i as int] == e2);
                                }
                            }
                            if (exists|j: int| 0 <= j < i + 1 && who@[j] == e2) && old(suspects).of(key_of(e2)) + 1 >= MAX_STRIKES {
                                let j = choose|j: int| 0 <= j < i + 1 && who@[j] == e2;
                                if j < i {
                                    assert(listed.contains(e2));
                                    let at = choose|at: int|
                                        0 <= at < listed.len() && listed[at] == e2;
                                    assert(dropped@[at] == e2);
                                } else {
                                    assert(e2 == e);
                                    assert(dropped@[dropped@.len() - 1] == e2);
                                }
                            }
                        }
                        assert forall|j: int| 0 <= j < i + 1 implies suspects.of(
                            key_of(#[trigger] who@[j]),
                        ) == (if old(suspects).of(key_of(who@[j])) < MAX_STRIKES {
                            old(suspects).of(key_of(who@[j])) + 1
                        } else {
                            MAX_STRIKES as int
                        }) by {
                            if j < i {
                                assert(key_of(who@[j]) != key_of(e));
                                assert(suspects.of(key_of(who@[j])) == before.of(key_of(who@[j])));
                            }
                        }
                        assert forall|k: u64|
                            (forall|j: int| 0 <= j < i + 1 ==> key_of(#[trigger] who@[j]) != k)
                                implies suspects.of(k) == old(suspects).of(k) by {
                            assert(key_of(who@[i as int]) != k);
                            assert(forall|j: int| 0 <= j < i ==> key_of(#[trigger] who@[j]) != k);
                        }
                    }
                    i += 1;
                }
                proof {
                    assert forall|e: Endpoint|
                        (exists|j: int| 0 <= j < who@.len() && who@[j] == e) <==> contributed(
                            got,
                            e,
                        ) by {
                        assert(who@.contains(e) <==> (exists|j: int|
                            0 <= j < who@.len() && who@[j] == e));
                    }
                    assert forall|e: Endpoint| contributed(got, e) implies suspects.of(
                        key_of(e),
                    ) == (if old(suspects).of(key_of(e)) < MAX_STRIKES {
                        old(suspects).of(key_of(e)) + 1
                    } else {
                        MAX_STRIKES as int
                    }) by {
                        let j = choose|j: int| 0 <= j < who@.len() && who@[j] == e;
                        assert(who@[j] == e);
                    }
                    assert forall|k: u64|
                        (forall|e: Endpoint| contributed(got, e) ==> key_of(e) != k)
                            implies suspects.of(k) == old(suspects).of(k) by {
                        assert forall|j: int| 0 <= j < who@.len() implies key_of(
                            #[trigger] who@[j],
                        ) != k by {
                            assert(contributed(got, who@[j]));
                        }
                    }
                }
                Delivery::Failed(dropped)
            },
        }
    }
}

/// Pieces that agree in their models everywhere but at one place agree as
/// lists of models there.
pub proof fn lemma_same_pieces(a: Seq<crate::piece_manager::Piece>, b: Seq<crate::piece_manager::Piece>, at: int)
    requires
        a.len() == b.len(),
        0 <= at < a.len(),
        pieces_view(b) == pieces_view(a).update(at, pieces_view(b)[at]) || pieces_view(b)
            == pieces_view(a),
    ensures
        forall|i: int| 0 <= i < a.len() && i != at ==> a[i]@ == b[i]@,
{
    assert forall|i: int| 0 <= i < a.len() && i != at implies a[i]@ == b[i]@ by {
        assert(pieces_view(a)[i] == a[i]@);
        assert(pieces_view(b)[i] == b[i]@);
    }
}

/// What is to be done after a message of a peer was taken in.
#[derive(Clone, Debug, PartialEq, Eq)]
pub enum Reaction {
    /// Nothing but to go on.
    Proceed,
    /// The peer broke the protocol: its connection is to be closed.
    Close,
    /// The peer sent a block, of which this became.
    Block(Delivery),
}

impl DataManager {
    /// Whether there is room to keep track of peer `key`: it is known, or
    /// fewer than `MAX_PEERS` are.
    pub open spec fn admits(&self, key: u64) -> bool {
        self.bitfield_map@.contains_key(key) || self.bitfield_map@.dom().len() < MAX_PEERS
    }

    /// Takes in a message that `peer` sent. A bitfield replaces what was
    /// known of the peer, and a `have` adds one piece to it; a bitfield that
    /// is not one for this torrent, a `have` for a piece that the torrent has
    /// not, and a peer too many have the connection closed. A block goes
    /// where `receive` puts it. No other message changes anything.
    pub fn on_message(&mut self, peer: Endpoint, message: &Message, suspects: &mut Suspects) -> (r:
        Reaction)
        requires
            old(self).wf(),
        ensures
            final(self).wf(),
            match message@ {
                MessageModel::BitField(payload) => {
                    let key = key_of(peer);
                    &&& final(self).pieces == old(self).pieces
                    &&& *final(suspects) == *old(suspects)
                    &&& if valid_bitfield(payload, old(self).count()) && old(self).admits(key) {
                        &&& r == Reaction::Proceed
                        &&& final(self).bitfield_map@.contains_key(key)
                        &&& final(self).bitfield_map@[key]@ == wire_bits(payload, old(self).count())
                        &&& final(self).bitfield_map@.remove(key) == old(self).bitfield_map@.remove(
                            key,
                        )
                    } else {
                        r == Reaction::Close && final(self).bitfield_map@ == old(self).bitfield_map@
                    }
                },
                MessageModel::Have(index) => {
                    let key = key_of(peer);
                    &&& final(self).pieces == old(self).pieces
                    &&& *final(suspects) == *old(suspects)
                    &&& if index < old(self).count() && old(self).admits(key) {
                        &&& r == Reaction::Proceed
                        &&& final(self).bitfield_map@.contains_key(key)
                        &&& final(self).bitfield_map@[key]@ == old(self).known_bits(key).update(
                            index as int,
                            true,
                        )
                        &&& final(self).bitfield_map@.remove(key) == old(self).bitfield_map@.remove(
                            key,
                        )
                    } else {
                        r == Reaction::Close && final(self).bitfield_map@ == old(self).bitfield_map@
                    }
                },
                MessageModel::Piece { index, begin, block } => r matches Reaction::Block(d) && took(
                    *old(self),
                    *final(self),
                    *old(suspects),
                    *final(suspects),
                    peer,
                    index,
                    begin,
                    block,
                    d,
                ),
                _ => r == Reaction::Proceed && *final(self) == *old(self) && *final(suspects)
                    == *old(suspects),
            },
    {
        match message {
            Message::BitField(payload) => {
                let pieces: usize = self.availability.len();
                match BitField::from_wire(payload.as_slice(), pieces) {
                    Ok(bits) => match self.bitfield(peer, bits) {
                        Ok(()) => {
                            proof {
                                let key = key_of(peer);
                                assert(old(self).bitfield_map@.insert(key, bits).remove(key)
                                    =~= old(self).bitfield_map@.remove(key));
                            }
                            Reaction::Proceed
                        },
                        Err(_) => Reaction::Close,
                    },
                    Err(_) => Reaction::Close,
                }
            },
            Message::Have(index) => match self.have(peer, *index as usize) {
                Ok(()) => Reaction::Proceed,
                Err(_) => Reaction::Close,
            },
            Message::Piece { index, begin, block } => Reaction::Block(
                self.receive(peer, *index, *begin, block.as_slice(), suspects),
            ),
            _ => Reaction::Proceed,
        }
    }
}

} // verus!
