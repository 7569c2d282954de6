//! Magnet links: `magnet:?xt=urn:btih:<hash>&dn=<name>&tr=<tracker>&x.pe=<peer>`.

use vstd::prelude::*;
use vstd::slice::slice_subrange;
use vstd::string::StringSliceAdditionalSpecFns;
use vstd::utf8::{encode_utf8, encode_utf8_decode_utf8};
use crate::bencode::fields::same_bytes;
use crate::data::{Announce, AnnounceModel, GeneralError, TorrentInfo, TorrentModel, has_prefix, starts_with, texts_view};
use crate::helpers::{base32_bytes, base32_hash, hex_bytes, hex_hash, is_base32_hash, is_hex_hash};
use crate::metainfo::{file_all, file_urls};
use crate::urls::{pairs_view, query_pairs, url_parses, url_query_pairs};

verus! {

/// What a magnet link says: the info-hash, and what else it names.
#[derive(Clone, Debug, Default, PartialEq, Eq)]
pub struct MagnetInfo {
    pub hash: [u8; 20],
    pub name: Option<String>,
    pub trackers: Option<Vec<String>>,
    pub peers: Option<Vec<String>>,
}

/// What a magnet link says, as plain values.
pub struct MagnetModel {
    pub hash: Option<Seq<u8>>,
    pub name: Option<Seq<char>>,
    pub trackers: Seq<Seq<char>>,
    pub peers: Seq<Seq<char>>,
}

/// A list as the record holds it: none where it is empty.
pub open spec fn listed(v: Option<Vec<String>>) -> Seq<Seq<char>> {
    match v {
        Some(l) => texts_view(l@),
        None => Seq::empty(),
    }
}

impl View for MagnetInfo {
    type V = MagnetModel;

    open spec fn view(&self) -> MagnetModel {
        MagnetModel {
            hash: Some(self.hash@),
            name: match self.name {
                Some(n) => Some(n@),
                None => None,
            },
            trackers: listed(self.trackers),
            peers: listed(self.peers),
        }
    }
}

/// The hash that the value of `xt` names: `urn:btih:` and then 40
/// hexadecimal or 32 base32 digits.
pub open spec fn xt_hash(value: Seq<u8>) -> Option<Seq<u8>> {
    if value.len() >= 9 && value.take(9) == "urn:btih:".spec_bytes() {
        let rest = value.skip(9);
        if is_hex_hash(rest) {
            Some(hex_bytes(rest))
        } else if is_base32_hash(rest) {
            Some(base32_bytes(rest))
        } else {
            None
        }
    } else {
        None
    }
}

/// What is known before any parameter was read.
pub open spec fn nothing() -> MagnetModel {
    MagnetModel { hash: None, name: None, trackers: Seq::empty(), peers: Seq::empty() }
}

/// What is known after one more parameter; the value of an `xt` that names
/// no hash is the error.
pub open spec fn magnet_step(m: MagnetModel, key: Seq<char>, value: Seq<char>) -> Result<
    MagnetModel,
    Seq<char>,
> {
    if key == "xt"@ {
        match xt_hash(encode_utf8(value)) {
            Some(h) => Ok(MagnetModel { hash: Some(h), ..m }),
            None => Err(value),
        }
    } else if key == "tr"@ {
        Ok(MagnetModel { trackers: m.trackers.push(value), ..m })
    } else if key == "dn"@ {
        Ok(MagnetModel { name: Some(value), ..m })
    } else if key == "x.pe"@ {
        Ok(MagnetModel { peers: m.peers.push(value), ..m })
    } else {
        Ok(m)
    }
}

/// What is known after the first `n` parameters.
pub open spec fn magnet_fold(pairs: Seq<(Seq<char>, Seq<char>)>, n: int) -> Result<
    MagnetModel,
    Seq<char>,
>
    decreases n,
{
    if n <= 0 {
        Ok(nothing())
    } else {
        match magnet_fold(pairs, n - 1) {
            Err(e) => Err(e),
            Ok(m) => magnet_step(m, pairs[n - 1].0, pairs[n - 1].1),
        }
    }
}

/// What the parameters of a magnet link say. A link without `xt` is refused
/// with an empty text.
pub open spec fn magnet_model(pairs: Seq<(Seq<char>, Seq<char>)>) -> Result<MagnetModel, Seq<char>> {
    match magnet_fold(pairs, pairs.len() as int) {
        Err(e) => Err(e),
        Ok(m) => if m.hash is Some {
            Ok(m)
        } else {
            Err(Seq::empty())
        },
    }
}

/// Whether two texts are the same.
pub fn same_text(a: &str, b: &str) -> (r: bool)
    ensures
        r == (a@ == b@),
{
    proof {
        encode_utf8_decode_utf8(a@);
        encode_utf8_decode_utf8(b@);
    }
    same_bytes(a.as_bytes(), b.as_bytes())
}

/// Reads the hash out of the value of `xt`.
pub fn read_xt(value: &str) -> (r: Option<[u8; 20]>)
    ensures
        match xt_hash(encode_utf8(value@)) {
            Some(h) => r matches Some(x) && x@ == h,
            None => r is None,
        },
{
    let bytes = value.as_bytes();
    if bytes.len() < 9 {
        return None;
    }
    let head = slice_subrange(bytes, 0, 9);
    assert(head@ =~= bytes@.take(9));
    if !same_bytes(head, "urn:btih:".as_bytes()) {
        return None;
    }
    let rest = slice_subrange(bytes, 9, bytes.len());
    assert(rest@ =~= bytes@.skip(9));
    match hex_hash(rest) {
        Some(h) => Some(h),
        None => base32_hash(rest),
    }
}

impl MagnetInfo {
    /// Reads the parameters of a magnet link. `xt` must be there and name a
    /// hash; `dn`, `tr` and `x.pe` are taken in, `tr` and `x.pe` as often as
    /// they come; every other parameter is passed over. A link that names
    /// no tracker has `None` for its trackers, never an empty list, and so
    /// for its peers.
    pub fn from_pairs(pairs: Vec<(String, String)>) -> (r: Result<MagnetInfo, GeneralError>)
        ensures
            match magnet_model(pairs_view(pairs@)) {
                Ok(m) => r matches Ok(x) && x@ == m && (x.trackers is None <==> m.trackers.len() == 0)
                    && (x.peers is None <==> m.peers.len() == 0),
                Err(e) => r matches Err(GeneralError::InvalidMagnet(t)) && t@ == e,
            },
    {
        let ghost all = pairs_view(pairs@);
        let mut rest = pairs;
        let n: usize = rest.len();
        let mut hash: Option<[u8; 20]> = None;
        let mut name: Option<String> = None;
        let mut trackers: Vec<String> = Vec::new();
        let mut peers: Vec<String> = Vec::new();
        let mut i: usize = 0;
        assert(texts_view(trackers@) =~= Seq::<Seq<char>>::empty());
        assert(texts_view(peers@) =~= Seq::<Seq<char>>::empty());
        while i < n
            invariant
                i <= n,
                n == all.len(),
                all == pairs_view(pairs@),
                rest@.len() == n - i,
                forall|j: int| 0 <= j < n - i ==> (#[trigger] rest@[j]).0@ == all[i + j].0
                    && rest@[j].1@ == all[i + j].1,
                magnet_fold(all, i as int) == Ok::<MagnetModel, Seq<char>>(
                    MagnetModel {
                        hash: match hash {
                            Some(h) => Some(h@),
                            None => None,
                        },
                        name: match name {
                            Some(t) => Some(t@),
                            None => None,
                        },
                        trackers: texts_view(trackers@),
                        peers: texts_view(peers@),
                    },
                ),
            decreases n - i,
        {
            let (key, value) = rest.remove(0);
            assert(key@ == all[i as int].0 && value@ == all[i as int].1);
            if same_text(key.as_str(), "xt") {
                match read_xt(value.as_str()) {
                    Some(h) => {
                        hash = Some(h);
                    },
                    None => {
                        proof {
                            assert(magnet_fold(all, i + 1) == Err::<MagnetModel, Seq<char>>(
                                value@,
                            ));
                            lemma_fold_error(all, i + 1, n as int);
                        }
                        return Err(GeneralError::InvalidMagnet(value));
                    },
                }
            } else if same_text(key.as_str(), "tr") {
                proof {
                    assert(texts_view(trackers@.push(value)) =~= texts_view(trackers@).push(
                        value@,
                    ));
                }
                trackers.push(value);
            } else if same_text(key.as_str(), "dn") {
                name = Some(value);
            } else if same_text(key.as_str(), "x.pe") {
                proof {
                    assert(texts_view(peers@.push(value)) =~= texts_view(peers@).push(value@));
                }
                peers.push(value);
            }
            i += 1;
        }
        match hash {
            None => Err(GeneralError::InvalidMagnet(String::new())),
            Some(hash) => {
                let trackers = if trackers.len() == 0 {
                    None
                } else {
                    Some(trackers)
                };
                let peers = if peers.len() == 0 {
                    None
                } else {
                    Some(peers)
                };
                let m = MagnetInfo { hash, name, trackers, peers };
                proof {
                    assert(m@.trackers =~= magnet_fold(all, n as int)->Ok_0.trackers);
                    assert(m@.peers =~= magnet_fold(all, n as int)->Ok_0.peers);
                }
                Ok(m)
            },
        }
    }

    /// Reads a magnet link. A text that does not start with `magnet:?`, or
    /// that the URL parser refuses, is no magnet link and is handed back as
    /// the error.
    pub fn try_from(uri: &str) -> (r: Result<MagnetInfo, GeneralError>)
        ensures
            starts_with(uri@, "magnet:?"@) && url_parses(uri@) ==> match magnet_model(
                url_query_pairs(uri@),
            ) {
                Ok(m) => r matches Ok(x) && x@ == m && (x.trackers is None <==> m.trackers.len() == 0)
                    && (x.peers is None <==> m.peers.len() == 0),
                Err(e) => r matches Err(GeneralError::InvalidMagnet(t)) && t@ == e,
            },
            !(starts_with(uri@, "magnet:?"@) && url_parses(uri@)) ==> (r matches Err(
                GeneralError::InvalidMagnet(t),
            ) && t@ == uri@),
    {
        if !has_prefix(uri, "magnet:?") {
            return Err(GeneralError::InvalidMagnet(uri.to_owned()));
        }
        match query_pairs(uri) {
            Some(pairs) => MagnetInfo::from_pairs(pairs),
            None => Err(GeneralError::InvalidMagnet(uri.to_owned())),
        }
    }
}

/// Once a parameter is refused, the rest does not matter.
pub proof fn lemma_fold_error(pairs: Seq<(Seq<char>, Seq<char>)>, at: int, n: int)
    requires
        0 <= at <= n,
        magnet_fold(pairs, at) is Err,
    ensures
        magnet_fold(pairs, n) == magnet_fold(pairs, at),
    decreases n - at,
{
    if at < n {
        lemma_fold_error(pairs, at, n - 1);
    }
}

/// The torrent that a magnet link names: its hash and trackers are known,
/// its `info` is not.
pub open spec fn magnet_torrent(m: MagnetModel) -> TorrentModel {
    TorrentModel {
        info: None,
        announce: file_all(
            AnnounceModel { udp: Seq::empty(), http: Seq::empty(), peers: m.peers },
            m.trackers,
        ),
        created: None,
        comment: match m.name {
            Some(n) => n,
            None => Seq::empty(),
        },
        author: None,
        hash: m.hash->Some_0,
    }
}

impl TorrentInfo {
    /// The torrent that a magnet link names.
    pub fn from_magnet(m: MagnetInfo) -> (t: TorrentInfo)
        ensures
            t@ == magnet_torrent(m@),
    {
        let mut announce = Announce::new();
        match m.peers {
            Some(p) => {
                announce.peers = p;
            },
            None => {},
        }
        proof {
            assert(announce@.udp =~= Seq::empty());
            assert(announce@.http =~= Seq::empty());
            assert(announce@.peers =~= m@.peers);
        }
        match m.trackers {
            Some(urls) => {
                file_urls(&mut announce, urls);
            },
            None => {},
        }
        let comment = match m.name {
            Some(n) => n,
            None => String::new(),
        };
        TorrentInfo { info: None, announce, created: None, comment, author: None, hash: m.hash }
    }
}

} // verus!
