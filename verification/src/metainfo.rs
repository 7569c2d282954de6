//! Torrent files: from bencoded bytes to `TorrentInfo`, with the info-hash
//! taken over the very bytes of the `info` dictionary.

use vstd::prelude::*;
use vstd::slice::slice_subrange;
use vstd::string::StringSliceAdditionalSpecFns;
use crate::bencode::{Bencode, DecodeError, Kind, Value, METAINFO_DEPTH, entries_view, find_entry, items_view, lookup, parse, parse_entries};
use crate::bencode::decoder::{decode, decode_bytes, decode_value};
use crate::bencode::fields::{as_dict, as_list, as_text, dict_of, field_bytes, field_text, field_u64, get, get_bytes, get_optional_bytes, get_optional_text, get_optional_u64, get_required, get_text, get_u64, list_of, optional_bytes, optional_text, optional_u64, required, same_bytes, text_of};
use crate::bencode::laws::lemma_find_entry;
use crate::data::{Announce, AnnounceModel, File, FileModel, Info, InfoModel, Mode, ModeModel, TorrentInfo, TorrentModel, announce_with, files_view, hashes_view, parsed_host, texts_view};
use crate::hash::{hashable, sha1, sha1_digest};
use crate::helpers::range_to_array;
use crate::urls::url_port;

verus! {

/// Smallest piece length that a torrent may name (16 KiB).
pub const MIN_PIECE_LENGTH: u64 = 16384;

/// Whether `n` is a power of two.
pub open spec fn is_power_of_two(n: nat) -> bool
    decreases n,
{
    n == 1 || (n > 1 && n % 2 == 0 && is_power_of_two(n / 2))
}

/// The 20-byte hashes that a `pieces` string holds, in order.
pub open spec fn chunks20(b: Seq<u8>) -> Seq<Seq<u8>> {
    Seq::new(b.len() / 20, |i: int| b.subrange(20 * i, 20 * i + 20))
}

/// How many pieces of `piece_length` bytes cover `total` bytes.
pub open spec fn pieces_needed(total: int, piece_length: int) -> int {
    (total + piece_length - 1) / piece_length
}

/// `f` applied to each item in turn; the first failure is the result.
pub open spec fn try_map<T>(
    l: Seq<Bencode>,
    f: spec_fn(Bencode) -> Result<T, DecodeError>,
) -> Result<Seq<T>, DecodeError>
    decreases l.len(),
{
    if l.len() == 0 {
        Ok(Seq::empty())
    } else {
        match f(l[0]) {
            Err(e) => Err(e),
            Ok(t) => match try_map(l.drop_first(), f) {
                Err(e) => Err(e),
                Ok(rest) => Ok(seq![t] + rest),
            },
        }
    }
}

/// Joins what a loop has mapped so far with what mapping the rest gives.
pub open spec fn mapped_after<T>(acc: Seq<T>, r: Result<Seq<T>, DecodeError>) -> Result<
    Seq<T>,
    DecodeError,
> {
    match r {
        Ok(rest) => Ok(acc + rest),
        Err(e) => Err(e),
    }
}

/// Before the first item nothing is mapped.
pub proof fn lemma_try_map_start<T>(l: Seq<Bencode>, f: spec_fn(Bencode) -> Result<T, DecodeError>)
    ensures
        try_map(l, f) == mapped_after(Seq::<T>::empty(), try_map(l.skip(0), f)),
{
    assert(l.skip(0) =~= l);
    if let Ok(rest) = try_map(l, f) {
        assert(Seq::<T>::empty() + rest =~= rest);
    }
}

/// One more item mapped: its result joins those before it, or its error
/// is the whole result.
pub proof fn lemma_try_map_step<T>(
    l: Seq<Bencode>,
    f: spec_fn(Bencode) -> Result<T, DecodeError>,
    i: int,
    acc: Seq<T>,
)
    requires
        0 <= i < l.len(),
    ensures
        f(l[i]) matches Ok(t) ==> mapped_after(acc, try_map(l.skip(i), f)) == mapped_after(
            acc.push(t),
            try_map(l.skip(i + 1), f),
        ),
        f(l[i]) matches Err(e) ==> try_map(l.skip(i), f) == Err::<Seq<T>, DecodeError>(e),
{
    let s = l.skip(i);
    assert(s[0] == l[i]);
    assert(s.drop_first() =~= l.skip(i + 1));
    if let Ok(t) = f(l[i]) {
        if let Ok(rest) = try_map(l.skip(i + 1), f) {
            assert(acc + (seq![t] + rest) =~= acc.push(t) + rest);
        }
    }
}

/// After the last item the results so far are the whole result.
pub proof fn lemma_try_map_end<T>(
    l: Seq<Bencode>,
    f: spec_fn(Bencode) -> Result<T, DecodeError>,
    acc: Seq<T>,
)
    ensures
        mapped_after(acc, try_map(l.skip(l.len() as int), f)) == Ok::<Seq<T>, DecodeError>(acc),
{
    assert(l.skip(l.len() as int).len() == 0);
    assert(acc + Seq::<T>::empty() =~= acc);
}

/// A list of byte strings, read as text.
pub open spec fn texts_model(l: Seq<Bencode>) -> Result<Seq<Seq<char>>, DecodeError> {
    try_map(l, |v: Bencode| as_text(v))
}

/// One entry of `files`: its length, its path of at least one segment, and
/// its checksum if it has one.
pub open spec fn file_model(v: Bencode) -> Result<FileModel, DecodeError> {
    match as_dict(v) {
        Err(e) => Err(e),
        Ok(d) => match field_u64(d, "length".spec_bytes()) {
            Err(e) => Err(e),
            Ok(length) => match optional_bytes(d, "md5sum".spec_bytes()) {
                Err(e) => Err(e),
                Ok(md5sum) => match required(d, "path".spec_bytes(), Kind::List) {
                    Err(e) => Err(e),
                    Ok(pv) => match as_list(pv) {
                        Err(e) => Err(e),
                        Ok(pl) => match texts_model(pl) {
                            Err(e) => Err(e),
                            Ok(path) => if path.len() == 0 {
                                Err(DecodeError::Unexpected(Kind::End, Kind::Bytes))
                            } else {
                                Ok(FileModel { length, md5sum, path })
                            },
                        },
                    },
                },
            },
        },
    }
}

/// Single-file where the dictionary has no `files`, multi-file where it has.
pub open spec fn mode_model(
    d: Seq<(Seq<u8>, Bencode)>,
    name: Seq<char>,
    md5sum: Option<Seq<u8>>,
) -> Result<ModeModel, DecodeError> {
    match lookup(d, "files".spec_bytes()) {
        None => match field_u64(d, "length".spec_bytes()) {
            Err(e) => Err(e),
            Ok(length) => Ok(ModeModel::Single { name, length, md5sum }),
        },
        Some(fv) => match as_list(fv) {
            Err(e) => Err(e),
            Ok(fl) => match try_map(fl, |v: Bencode| file_model(v)) {
                Err(e) => Err(e),
                Ok(files) => Ok(ModeModel::Multi { dir_name: name, files, md5sum }),
            },
        },
    }
}

impl InfoModel {
    /// The piece length is a power of two of at least 16 KiB, the content
    /// fits in 64 bits, and there is one 20-byte hash for each piece that
    /// the content takes.
    pub open spec fn valid(self) -> bool {
        &&& self.piece_length >= MIN_PIECE_LENGTH
        &&& is_power_of_two(self.piece_length as nat)
        &&& self.mode.total_length() <= u64::MAX
        &&& self.pieces.len() == pieces_needed(
            self.mode.total_length(),
            self.piece_length as int,
        )
        &&& forall|i: int| 0 <= i < self.pieces.len() ==> (#[trigger] self.pieces[i]).len() == 20
        &&& self.value.len() == 20
    }
}

/// What an `info` dictionary says, with `hash` as its info-hash. A piece
/// length that is no power of two of at least 16 KiB, or a content length
/// beyond 64 bits, is reported as an integer overflow; too few piece hashes
/// as a truncation, too many as trailing bytes.
pub open spec fn info_model(v: Bencode, hash: Seq<u8>) -> Result<InfoModel, DecodeError> {
    match as_dict(v) {
        Err(e) => Err(e),
        Ok(d) => match field_u64(d, "piece length".spec_bytes()) {
            Err(e) => Err(e),
            Ok(piece_length) => if piece_length < MIN_PIECE_LENGTH || !is_power_of_two(
                piece_length as nat,
            ) {
                Err(DecodeError::OverflowInteger)
            } else {
                match field_bytes(d, "pieces".spec_bytes()) {
                    Err(e) => Err(e),
                    Ok(pieces) => if pieces.len() % 20 != 0 {
                        Err(DecodeError::Truncated)
                    } else {
                        match field_text(d, "name".spec_bytes()) {
                            Err(e) => Err(e),
                            Ok(name) => match optional_bytes(d, "md5sum".spec_bytes()) {
                                Err(e) => Err(e),
                                Ok(md5sum) => match mode_model(d, name, md5sum) {
                                    Err(e) => Err(e),
                                    Ok(mode) => {
                                        let total = mode.total_length();
                                        let count = pieces.len() / 20;
                                        let needed = pieces_needed(total, piece_length as int);
                                        if total > u64::MAX {
                                            Err(DecodeError::OverflowInteger)
                                        } else if count < needed {
                                            Err(DecodeError::Truncated)
                                        } else if count > needed {
                                            Err(DecodeError::TrailingBytes)
                                        } else {
                                            Ok(
                                                InfoModel {
                                                    mode,
                                                    piece_length,
                                                    pieces: chunks20(pieces),
                                                    private: lookup(d, "private".spec_bytes())
                                                        is Some,
                                                    value: hash,
                                                },
                                            )
                                        }
                                    },
                                },
                            },
                        }
                    },
                }
            },
        },
    }
}

/// Whether `n` is a power of two.
pub fn power_of_two(n: u64) -> (r: bool)
    ensures
        r == is_power_of_two(n as nat),
{
    if n == 0 {
        return false;
    }
    let mut x: u64 = n;
    while x > 1 && x % 2 == 0
        invariant
            x >= 1,
            is_power_of_two(n as nat) == is_power_of_two(x as nat),
        decreases x,
    {
        x = x / 2;
    }
    x == 1
}

/// Reads a list of byte strings as text.
pub fn decode_texts(l: &Vec<Value>) -> (r: Result<Vec<String>, DecodeError>)
    ensures
        r matches Ok(t) ==> texts_model(items_view(l@)) == Ok::<Seq<Seq<char>>, DecodeError>(
            texts_view(t@),
        ),
        r matches Err(e) ==> texts_model(items_view(l@)) == Err::<Seq<Seq<char>>, DecodeError>(e),
{
    let ghost model = items_view(l@);
    let ghost f = |v: Bencode| as_text(v);
    let mut out: Vec<String> = Vec::new();
    let mut i: usize = 0;
    proof {
        lemma_try_map_start(model, f);
        assert(texts_view(out@) =~= Seq::<Seq<char>>::empty());
    }
    while i < l.len()
        invariant
            i <= l@.len(),
            model == items_view(l@),
            f == (|v: Bencode| as_text(v)),
            try_map(model, f) == mapped_after(texts_view(out@), try_map(model.skip(i as int), f)),
        decreases l@.len() - i,
    {
        proof {
            lemma_try_map_step(model, f, i as int, texts_view(out@));
            assert(model[i as int] == l@[i as int]@);
        }
        match text_of(&l[i]) {
            Err(e) => {
                return Err(e);
            },
            Ok(t) => {
                proof {
                    assert(texts_view(out@.push(t)) =~= texts_view(out@).push(t@));
                }
                out.push(t);
            },
        }
        i += 1;
    }
    proof {
        lemma_try_map_end(model, f, texts_view(out@));
    }
    Ok(out)
}

impl File {
    /// Reads one entry of `files`.
    pub fn decode_bencode_object(v: &Value) -> (r: Result<File, DecodeError>)
        ensures
            r matches Ok(f) ==> file_model(v@) == Ok::<FileModel, DecodeError>(f@),
            r matches Err(e) ==> file_model(v@) == Err::<FileModel, DecodeError>(e),
    {
        let d = dict_of(v)?;
        let length: u64 = get_u64(d, "length")?;
        let md5sum = get_optional_bytes(d, "md5sum")?;
        let pv = get_required(d, "path", Kind::List)?;
        let pl = list_of(pv)?;
        let path = decode_texts(pl)?;
        if path.len() == 0 {
            return Err(DecodeError::Unexpected(Kind::End, Kind::Bytes));
        }
        Ok(File { length, md5sum, path })
    }
}

/// Reads the entries of `files`.
pub fn decode_files(l: &Vec<Value>) -> (r: Result<Vec<File>, DecodeError>)
    ensures
        r matches Ok(t) ==> try_map(items_view(l@), |v: Bencode| file_model(v)) == Ok::<
            Seq<FileModel>,
            DecodeError,
        >(files_view(t@)),
        r matches Err(e) ==> try_map(items_view(l@), |v: Bencode| file_model(v)) == Err::<
            Seq<FileModel>,
            DecodeError,
        >(e),
{
    let ghost model = items_view(l@);
    let ghost f = |v: Bencode| file_model(v);
    let mut out: Vec<File> = Vec::new();
    let mut i: usize = 0;
    proof {
        lemma_try_map_start(model, f);
        assert(files_view(out@) =~= Seq::<FileModel>::empty());
    }
    while i < l.len()
        invariant
            i <= l@.len(),
            model == items_view(l@),
            f == (|v: Bencode| file_model(v)),
            try_map(model, f) == mapped_after(files_view(out@), try_map(model.skip(i as int), f)),
        decreases l@.len() - i,
    {
        proof {
            lemma_try_map_step(model, f, i as int, files_view(out@));
            assert(model[i as int] == l@[i as int]@);
        }
        match File::decode_bencode_object(&l[i]) {
            Err(e) => {
                return Err(e);
            },
            Ok(t) => {
                proof {
                    assert(files_view(out@.push(t)) =~= files_view(out@).push(t@));
                }
                out.push(t);
            },
        }
        i += 1;
    }
    proof {
        lemma_try_map_end(model, f, files_view(out@));
    }
    Ok(out)
}

/// Cuts a `pieces` string into its 20-byte hashes.
pub fn split_hashes(pieces: &[u8]) -> (r: Vec<[u8; 20]>)
    requires
        pieces@.len() % 20 == 0,
    ensures
        hashes_view(r@) == chunks20(pieces@),
{
    let len: usize = pieces.len();
    let count: usize = len / 20;
    let mut out: Vec<[u8; 20]> = Vec::new();
    let mut i: usize = 0;
    while i < count
        invariant
            i <= count,
            count == pieces@.len() / 20,
            pieces@.len() % 20 == 0,
            20 * count <= len == pieces@.len(),
            out@.len() == i,
            forall|j: int| 0 <= j < i ==> (#[trigger] out@[j])@ == pieces@.subrange(20 * j, 20 * j + 20),
        decreases count - i,
    {
        let chunk = slice_subrange(pieces, 20 * i, 20 * i + 20);
        let hash: [u8; 20] = range_to_array::<20>(chunk);
        proof {
            assert(chunk@.take(20) =~= pieces@.subrange(20 * i, 20 * i + 20));
        }
        out.push(hash);
        i += 1;
    }
    proof {
        assert(hashes_view(out@) =~= chunks20(pieces@));
    }
    out
}

impl Info {
    /// Reads an `info` dictionary; `hash` is the SHA-1 of its bytes.
    pub fn decode_bencode_object(v: &Value, hash: [u8; 20]) -> (r: Result<Info, DecodeError>)
        ensures
            r matches Ok(i) ==> info_model(v@, hash@) == Ok::<InfoModel, DecodeError>(i@)
                && i@.valid(),
            r matches Err(e) ==> info_model(v@, hash@) == Err::<InfoModel, DecodeError>(e),
    {
        let d = dict_of(v)?;
        let piece_length: u64 = get_u64(d, "piece length")?;
        if piece_length < MIN_PIECE_LENGTH || !power_of_two(piece_length) {
            return Err(DecodeError::OverflowInteger);
        }
        let pieces = get_bytes(d, "pieces")?;
        if pieces.len() % 20 != 0 {
            return Err(DecodeError::Truncated);
        }
        let name = get_text(d, "name")?;
        let md5sum = get_optional_bytes(d, "md5sum")?;
        let mode = match get(d, "files".as_bytes()) {
            None => {
                let length: u64 = get_u64(d, "length")?;
                Mode::Single { name, length, md5sum }
            },
            Some(fv) => {
                let fl = list_of(fv)?;
                let files = decode_files(fl)?;
                Mode::Multi { dir_name: name, files, md5sum }
            },
        };
        let total: u64 = match mode.total_length() {
            Some(t) => t,
            None => {
                return Err(DecodeError::OverflowInteger);
            },
        };
        let count: usize = pieces.len() / 20;
        assert(total / piece_length < u64::MAX) by (nonlinear_arith)
            requires
                piece_length >= 16384,
                0 <= total <= u64::MAX,
        ;
        let needed: u64 = total / piece_length + if total % piece_length == 0 {
            0
        } else {
            1
        };
        proof {
            lemma_pieces_needed(total as int, piece_length as int);
        }
        if (count as u64) < needed {
            return Err(DecodeError::Truncated);
        }
        if (count as u64) > needed {
            return Err(DecodeError::TrailingBytes);
        }
        let private: Option<()> = match get(d, "private".as_bytes()) {
            Some(_) => Some(()),
            None => None,
        };
        let hashes = split_hashes(pieces.as_slice());
        let info = Info { mode, piece_length, pieces: hashes, private, value: hash };
        proof {
            assert forall|i: int| 0 <= i < info@.pieces.len() implies (
            #[trigger] info@.pieces[i]).len() == 20 by {}
        }
        Ok(info)
    }
}

impl Info {
    /// Whether the record is one that a torrent file may hold.
    pub fn check(&self) -> (r: bool)
        ensures
            r == self@.valid(),
    {
        if self.piece_length < MIN_PIECE_LENGTH || !power_of_two(self.piece_length) {
            return false;
        }
        let total: u64 = match self.mode.total_length() {
            Some(t) => t,
            None => {
                return false;
            },
        };
        assert(total / self.piece_length < u64::MAX) by (nonlinear_arith)
            requires
                self.piece_length >= 16384,
                0 <= total <= u64::MAX,
        ;
        let needed: u64 = total / self.piece_length + if total % self.piece_length == 0 {
            0
        } else {
            1
        };
        proof {
            lemma_pieces_needed(total as int, self.piece_length as int);
            assert forall|i: int| 0 <= i < self@.pieces.len() implies (
            #[trigger] self@.pieces[i]).len() == 20 by {}
        }
        self.pieces.len() as u64 == needed
    }
}

/// Rounding the quotient up is the quotient, and one more where a remainder
/// is left.
pub proof fn lemma_pieces_needed(total: int, piece_length: int)
    requires
        total >= 0,
        piece_length > 0,
    ensures
        pieces_needed(total, piece_length) == total / piece_length + if total % piece_length
            == 0 {
            0int
        } else {
            1int
        },
{
    let q = total / piece_length;
    let r = total % piece_length;
    assert(total == q * piece_length + r) by (nonlinear_arith)
        requires
            q == total / piece_length,
            r == total % piece_length,
            piece_length > 0,
    ;
    if r == 0 {
        assert((q * piece_length + piece_length - 1) / piece_length == q) by (nonlinear_arith)
            requires
                piece_length > 0,
        ;
    } else {
        assert((q * piece_length + r + piece_length - 1) / piece_length == q + 1)
            by (nonlinear_arith)
            requires
                piece_length > 0,
                0 < r < piece_length,
        ;
    }
}

/// The tracker URLs of a list of tiers, one after the other.
pub open spec fn flatten_urls(l: Seq<Bencode>) -> Result<Seq<Seq<char>>, DecodeError>
    decreases l.len(),
{
    if l.len() == 0 {
        Ok(Seq::empty())
    } else {
        match as_list(l[0]) {
            Err(e) => Err(e),
            Ok(tier) => match texts_model(tier) {
                Err(e) => Err(e),
                Ok(urls) => match flatten_urls(l.drop_first()) {
                    Err(e) => Err(e),
                    Ok(rest) => Ok(urls + rest),
                },
            },
        }
    }
}

/// All tracker URLs of a torrent: `announce`, then `announce-list`.
pub open spec fn announce_urls(d: Seq<(Seq<u8>, Bencode)>) -> Result<Seq<Seq<char>>, DecodeError> {
    match optional_text(d, "announce".spec_bytes()) {
        Err(e) => Err(e),
        Ok(first) => {
            let head: Seq<Seq<char>> = match first {
                Some(u) => seq![u],
                None => Seq::empty(),
            };
            match lookup(d, "announce-list".spec_bytes()) {
                None => Ok(head),
                Some(lv) => match as_list(lv) {
                    Err(e) => Err(e),
                    Ok(l) => match flatten_urls(l) {
                        Err(e) => Err(e),
                        Ok(rest) => Ok(head + rest),
                    },
                },
            }
        },
    }
}

/// The tracker set after each of `urls` was filed in turn.
pub open spec fn file_all(a: AnnounceModel, urls: Seq<Seq<char>>) -> AnnounceModel
    decreases urls.len(),
{
    if urls.len() == 0 {
        a
    } else {
        file_all(
            announce_with(a, urls[0], parsed_host(urls[0]), url_port(urls[0])),
            urls.drop_first(),
        )
    }
}

/// No tracker and no peer.
pub open spec fn no_trackers() -> AnnounceModel {
    AnnounceModel { udp: Seq::empty(), http: Seq::empty(), peers: Seq::empty() }
}

/// The bytes of the `info` dictionary inside the torrent file `bytes`.
pub open spec fn raw_info(bytes: Seq<u8>) -> Seq<u8> {
    match find_entry(bytes.skip(1), "info".spec_bytes(), (METAINFO_DEPTH - 1) as nat) {
        Some((a, m)) => bytes.subrange(1 + a, 1 + a + m),
        None => Seq::empty(),
    }
}

/// What a torrent file says. Its info-hash is the SHA-1 of `raw_info`.
pub open spec fn torrent_model(bytes: Seq<u8>) -> Result<TorrentModel, DecodeError> {
    match parse(bytes, METAINFO_DEPTH as nat) {
        Err(e) => Err(e),
        Ok(v) => match as_dict(v) {
            Err(e) => Err(e),
            Ok(d) => match required(d, "info".spec_bytes(), Kind::Dict) {
                Err(e) => Err(e),
                Ok(iv) => match info_model(iv, sha1(raw_info(bytes))) {
                    Err(e) => Err(e),
                    Ok(info) => match announce_urls(d) {
                        Err(e) => Err(e),
                        Ok(urls) => match optional_u64(d, "creation date".spec_bytes()) {
                            Err(e) => Err(e),
                            Ok(created) => match optional_text(d, "comment".spec_bytes()) {
                                Err(e) => Err(e),
                                Ok(comment) => match optional_text(
                                    d,
                                    "created by".spec_bytes(),
                                ) {
                                    Err(e) => Err(e),
                                    Ok(author) => Ok(
                                        TorrentModel {
                                            info: Some(info),
                                            announce: file_all(no_trackers(), urls),
                                            created,
                                            comment: match comment {
                                                Some(c) => c,
                                                None => Seq::empty(),
                                            },
                                            author,
                                            hash: sha1(raw_info(bytes)),
                                        },
                                    ),
                                },
                            },
                        },
                    },
                },
            },
        },
    }
}

/// Where the value under `key` stands in the dictionary that `bytes` holds:
/// the positions of its first byte and just behind its last.
pub fn find_span(bytes: &[u8], key: &[u8], depth: usize) -> (r: Option<(usize, usize)>)
    requires
        bytes@.len() >= 1,
    ensures
        match find_entry(bytes@.skip(1), key@, depth as nat) {
            Some((a, m)) => r matches Some((start, end)) && start == 1 + a && end == 1 + a + m
                && start <= end <= bytes@.len(),
            None => r is None,
        },
{
    let len: usize = bytes.len();
    let ghost body = bytes@.skip(1);
    let mut cur: usize = 1;
    loop
        invariant
            1 <= cur <= len,
            len == bytes@.len(),
            body == bytes@.skip(1),
            match find_entry(bytes@.skip(cur as int), key@, depth as nat) {
                Some((a, m)) => find_entry(body, key@, depth as nat) == Some((cur - 1 + a, m)),
                None => find_entry(body, key@, depth as nat) is None,
            },
        decreases len - cur,
    {
        let ghost t = bytes@.skip(cur as int);
        if cur >= len {
            return None;
        }
        assert(t[0] == bytes@[cur as int]);
        let c: u8 = bytes[cur];
        if !(48 <= c && c <= 57) {
            return None;
        }
        match decode_bytes(bytes, cur) {
            Err(_) => {
                return None;
            },
            Ok((k, mid)) => {
                proof {
                    assert(t.skip(mid - cur) =~= bytes@.skip(mid as int));
                }
                match decode_value(bytes, mid, depth) {
                    Err(_) => {
                        return None;
                    },
                    Ok((_, end)) => {
                        proof {
                            assert(t.skip(end - cur) =~= bytes@.skip(end as int));
                        }
                        if same_bytes(k.as_slice(), key) {
                            return Some((mid, end));
                        }
                        cur = end;
                    },
                }
            },
        }
    }
}

/// Reads a list of tiers of tracker URLs.
pub fn decode_tiers(l: &Vec<Value>) -> (r: Result<Vec<String>, DecodeError>)
    ensures
        r matches Ok(t) ==> flatten_urls(items_view(l@)) == Ok::<Seq<Seq<char>>, DecodeError>(
            texts_view(t@),
        ),
        r matches Err(e) ==> flatten_urls(items_view(l@)) == Err::<Seq<Seq<char>>, DecodeError>(
            e,
        ),
{
    let ghost model = items_view(l@);
    let mut out: Vec<String> = Vec::new();
    let mut i: usize = 0;
    proof {
        assert(model.skip(0) =~= model);
        assert(texts_view(out@) =~= Seq::<Seq<char>>::empty());
        if let Ok(rest) = flatten_urls(model) {
            assert(Seq::<Seq<char>>::empty() + rest =~= rest);
        }
    }
    while i < l.len()
        invariant
            i <= l@.len(),
            model == items_view(l@),
            flatten_urls(model) == mapped_after(
                texts_view(out@),
                flatten_urls(model.skip(i as int)),
            ),
        decreases l@.len() - i,
    {
        proof {
            assert(model.skip(i as int)[0] == model[i as int]);
            assert(model.skip(i as int).drop_first() =~= model.skip(i + 1));
            assert(model[i as int] == l@[i as int]@);
        }
        let tier = list_of(&l[i])?;
        let mut urls = decode_texts(tier)?;
        proof {
            let before = texts_view(out@);
            let added = texts_view(urls@);
            assert(texts_view(out@ + urls@) =~= before + added);
            if let Ok(rest) = flatten_urls(model.skip(i + 1)) {
                assert(before + (added + rest) =~= (before + added) + rest);
            }
        }
        out.append(&mut urls);
        i += 1;
    }
    proof {
        assert(model.skip(l@.len() as int).len() == 0);
        assert(texts_view(out@) + Seq::<Seq<char>>::empty() =~= texts_view(out@));
    }
    Ok(out)
}

/// Files each of `urls` with `announce`.
pub fn file_urls(announce: &mut Announce, urls: Vec<String>)
    ensures
        final(announce)@ == file_all(old(announce)@, texts_view(urls@)),
{
    let ghost all = texts_view(urls@);
    let mut urls = urls;
    let ghost given = urls@;
    let mut i: usize = 0;
    let n: usize = urls.len();
    assert(all.skip(0) =~= all);
    while i < n
        invariant
            i <= n,
            n == given.len(),
            all == texts_view(given),
            urls@.len() == n - i,
            forall|j: int| 0 <= j < n - i ==> urls@[j] == given[i + j],
            file_all(old(announce)@, all) == file_all(announce@, all.skip(i as int)),
        decreases n - i,
    {
        proof {
            assert(all.skip(i as int)[0] == all[i as int]);
            assert(all.skip(i as int).drop_first() =~= all.skip(i + 1));
        }
        let url = urls.remove(0);
        assert(url@ == all[i as int]);
        announce.push(url);
        i += 1;
    }
}

impl TorrentInfo {
    /// Reads a torrent file.
    pub fn from_bencode(bytes: &[u8]) -> (r: Result<TorrentInfo, DecodeError>)
        requires
            hashable(bytes@),
        ensures
            r matches Ok(t) ==> torrent_model(bytes@) == Ok::<TorrentModel, DecodeError>(t@),
            r matches Err(e) ==> torrent_model(bytes@) == Err::<TorrentModel, DecodeError>(e),
    {
        let v = decode(bytes, METAINFO_DEPTH)?;
        let d = dict_of(&v)?;
        let iv = get_required(d, "info", Kind::Dict)?;
        assert(bytes@.len() >= 1 && bytes@[0] == 100 && parse_entries(
            bytes@.skip(1),
            (METAINFO_DEPTH - 1) as nat,
        ) is Ok);
        proof {
            lemma_find_entry(bytes@.skip(1), "info".spec_bytes(), (METAINFO_DEPTH - 1) as nat);
        }
        let hash: [u8; 20] = match find_span(bytes, "info".as_bytes(), METAINFO_DEPTH - 1) {
            Some((start, end)) => {
                let raw = slice_subrange(bytes, start, end);
                sha1_digest(raw)
            },
            None => {
                return Err(DecodeError::Truncated);
            },
        };
        assert(hash@ == sha1(raw_info(bytes@)));
        let info = Info::decode_bencode_object(iv, hash)?;
        let first = get_optional_text(d, "announce")?;
        let mut urls: Vec<String> = Vec::new();
        if let Some(u) = first {
            urls.push(u);
            assert(texts_view(urls@) =~= seq![u@]);
        } else {
            assert(texts_view(urls@) =~= Seq::<Seq<char>>::empty());
        }
        let ghost head = texts_view(urls@);
        match get(d, "announce-list".as_bytes()) {
            None => {},
            Some(lv) => {
                let l = list_of(lv)?;
                let mut rest = decode_tiers(l)?;
                proof {
                    assert(texts_view(urls@ + rest@) =~= head + texts_view(rest@));
                }
                urls.append(&mut rest);
            },
        }
        assert(announce_urls(entries_view(d@)) == Ok::<Seq<Seq<char>>, DecodeError>(
            texts_view(urls@),
        ));
        let created = get_optional_u64(d, "creation date")?;
        let comment = get_optional_text(d, "comment")?;
        let author = get_optional_text(d, "created by")?;
        let mut announce = Announce::new();
        proof {
            assert(announce@ == no_trackers()) by {
                assert(announce@.udp =~= Seq::empty());
                assert(announce@.http =~= Seq::empty());
                assert(announce@.peers =~= Seq::empty());
            }
        }
        file_urls(&mut announce, urls);
        let comment = match comment {
            Some(c) => c,
            None => String::new(),
        };
        Ok(TorrentInfo { info: Some(info), announce, created, comment, author, hash })
    }
}

} // verus!
