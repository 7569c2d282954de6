//! The records that the rest of the crate passes around: what a torrent is,
//! where its trackers and peers are, and what trackers answer.

use vstd::prelude::*;
use crate::urls::{host_and_port, text_option_view, url_host, url_parses, url_port};

verus! {

/// Magic number that opens a UDP tracker connection.
pub const PROTOCOL_ID: i64 = 0x41727101980;

/// Length of a SHA-1 digest in bytes.
pub const SHA1_LEN: usize = 20;

/// Port assumed for a UDP tracker whose URL names none.
pub const DEFAULT_TRACKER_PORT: u16 = 80;

/// What an announce tells the tracker about the download.
#[derive(Clone, Copy, Debug, Default, PartialEq, Eq, Structural)]
pub enum Event {
    #[default]
    Inactive,
    Completed,
    Started,
    Stopped,
}

impl Event {
    /// The number that stands for the event in a UDP announce.
    pub open spec fn code(self) -> i32 {
        match self {
            Event::Inactive => 0,
            Event::Completed => 1,
            Event::Started => 2,
            Event::Stopped => 3,
        }
    }

    /// The number that stands for the event in a packet.
    pub fn to_code(&self) -> (c: i32)
        ensures
            c == self.code(),
    {
        match self {
            Event::Inactive => 0,
            Event::Completed => 1,
            Event::Started => 2,
            Event::Stopped => 3,
        }
    }
}

/// An IPv4 address, as the number its four bytes spell, and a port.
#[derive(Clone, Copy, Debug, PartialEq, Eq, PartialOrd, Ord, Hash, Structural)]
pub struct Endpoint {
    pub ip: u32,
    pub port: u16,
}

/// A host that is still to be resolved, and a port.
#[derive(Clone, Debug, PartialEq, Eq)]
pub struct HostPort {
    pub host: String,
    pub port: u16,
}

/// What can go wrong outside the codecs.
#[derive(Clone, Debug, PartialEq, Eq)]
pub enum GeneralError {
    Usage,
    UninitializedNode,
    AlreadyFlushed,
    MissingInfo,
    NonExistentFile,
    InvalidPieceIdx,
    InvalidPieceHash,
    InvalidUdpTracker(String),
    InvalidMagnet(String),
    DeadUdpTrackers,
    Timeout(Option<Endpoint>),
    Reconnect,
    UnexpectedResponse(String),
    ParseFailure(String),
    BrokenPipe,
}

/// Where to ask for peers: UDP trackers by host and port, HTTP trackers by
/// URL, and peers that were named directly.
#[derive(Clone, Debug, Default, PartialEq, Eq)]
pub struct Announce {
    pub udp: Vec<HostPort>,
    pub http: Vec<String>,
    pub peers: Vec<String>,
}

/// A host and a port, as plain values.
pub struct HostPortModel {
    pub host: Seq<char>,
    pub port: u16,
}

impl View for HostPort {
    type V = HostPortModel;

    open spec fn view(&self) -> HostPortModel {
        HostPortModel { host: self.host@, port: self.port }
    }
}

/// The trackers and peers of a torrent, as plain values.
pub struct AnnounceModel {
    pub udp: Seq<HostPortModel>,
    pub http: Seq<Seq<char>>,
    pub peers: Seq<Seq<char>>,
}

/// Each text as its characters.
pub open spec fn texts_view(v: Seq<String>) -> Seq<Seq<char>> {
    Seq::new(v.len(), |i: int| v[i]@)
}

/// Each host and port as plain values.
pub open spec fn host_ports_view(v: Seq<HostPort>) -> Seq<HostPortModel> {
    Seq::new(v.len(), |i: int| v[i]@)
}

impl View for Announce {
    type V = AnnounceModel;

    open spec fn view(&self) -> AnnounceModel {
        AnnounceModel {
            udp: host_ports_view(self.udp@),
            http: texts_view(self.http@),
            peers: texts_view(self.peers@),
        }
    }
}

/// Whether `text` begins with `prefix`.
pub open spec fn starts_with(text: Seq<char>, prefix: Seq<char>) -> bool {
    text.len() >= prefix.len() && text.take(prefix.len() as int) == prefix
}

/// The tracker set after one more URL was filed: under HTTP if it starts
/// with `http`; under UDP, with its host and port, if it starts with `udp`
/// and has a host. `host` and `port` are what the URL parser found, `None`
/// for the host also where it did not accept the URL.
pub open spec fn announce_with(
    a: AnnounceModel,
    url: Seq<char>,
    host: Option<Seq<char>>,
    port: Option<u16>,
) -> AnnounceModel {
    let http = if starts_with(url, "http"@) {
        a.http.push(url)
    } else {
        a.http
    };
    let udp = if starts_with(url, "udp"@) && host is Some {
        a.udp.push(
            HostPortModel {
                host: host->Some_0,
                port: match port {
                    Some(p) => p,
                    None => DEFAULT_TRACKER_PORT,
                },
            },
        )
    } else {
        a.udp
    };
    AnnounceModel { udp, http, peers: a.peers }
}

/// The host that the URL parser finds in `url`, if it accepts it.
pub open spec fn parsed_host(url: Seq<char>) -> Option<Seq<char>> {
    if url_parses(url) {
        url_host(url)
    } else {
        None
    }
}

/// Whether `text` starts with the ASCII letters of `prefix`.
pub fn has_prefix(text: &str, prefix: &str) -> (r: bool)
    ensures
        r == starts_with(text@, prefix@),
{
    let n: usize = prefix.unicode_len();
    let m: usize = text.unicode_len();
    if m < n {
        return false;
    }
    let mut i: usize = 0;
    while i < n
        invariant
            i <= n <= m,
            n == prefix@.len(),
            m == text@.len(),
            forall|j: int| 0 <= j < i ==> text@[j] == prefix@[j],
        decreases n - i,
    {
        if text.get_char(i) != prefix.get_char(i) {
            proof {
                assert(text@.take(n as int)[i as int] != prefix@[i as int]);
            }
            return false;
        }
        i += 1;
    }
    proof {
        assert(text@.take(n as int) =~= prefix@);
    }
    true
}

impl Announce {
    /// No tracker and no peer.
    pub fn new() -> (a: Announce)
        ensures
            a@.udp.len() == 0,
            a@.http.len() == 0,
            a@.peers.len() == 0,
    {
        Announce { udp: Vec::new(), http: Vec::new(), peers: Vec::new() }
    }

    /// Files a tracker URL whose host and port were already read out.
    pub fn push_parsed(&mut self, s: String, host: Option<String>, port: Option<u16>)
        ensures
            final(self)@ == announce_with(old(self)@, s@, text_option_view(host), port),
    {
        let is_http: bool = has_prefix(s.as_str(), "http");
        let is_udp: bool = has_prefix(s.as_str(), "udp");
        if is_udp {
            if let Some(h) = host {
                let p: u16 = match port {
                    Some(p) => p,
                    None => DEFAULT_TRACKER_PORT,
                };
                let entry = HostPort { host: h, port: p };
                proof {
                    assert(host_ports_view(self.udp@.push(entry)) =~= host_ports_view(
                        self.udp@,
                    ).push(entry@));
                }
                self.udp.push(entry);
            }
        }
        if is_http {
            proof {
                assert(texts_view(self.http@.push(s)) =~= texts_view(self.http@).push(s@));
            }
            self.http.push(s);
        }
    }

    /// Files a tracker URL: under HTTP if it starts with `http`; under UDP,
    /// with the host and port that the URL parser finds in it, if it starts
    /// with `udp`. A UDP URL that the parser refuses or that has no host is
    /// left out.
    pub fn push(&mut self, s: String)
        ensures
            final(self)@ == announce_with(old(self)@, s@, parsed_host(s@), url_port(s@)),
    {
        if has_prefix(s.as_str(), "udp") {
            match host_and_port(s.as_str()) {
                Some((host, port)) => {
                    self.push_parsed(s, host, port);
                },
                None => {
                    self.push_parsed(s, None, None);
                },
            }
        } else {
            self.push_parsed(s, None, None);
        }
    }
}

/// One file of a multi-file torrent.
#[derive(Clone, Debug, Default, PartialEq, Eq)]
pub struct File {
    pub length: u64,
    pub md5sum: Option<Vec<u8>>,
    pub path: Vec<String>,
}

/// One file of a torrent, as plain values.
pub struct FileModel {
    pub length: u64,
    pub md5sum: Option<Seq<u8>>,
    pub path: Seq<Seq<char>>,
}

/// The bytes of an optional byte string.
pub open spec fn bytes_option_view(b: Option<Vec<u8>>) -> Option<Seq<u8>> {
    match b {
        Some(v) => Some(v@),
        None => None,
    }
}

impl View for File {
    type V = FileModel;

    open spec fn view(&self) -> FileModel {
        FileModel {
            length: self.length,
            md5sum: bytes_option_view(self.md5sum),
            path: texts_view(self.path@),
        }
    }
}

/// Each file as plain values.
pub open spec fn files_view(v: Seq<File>) -> Seq<FileModel> {
    Seq::new(v.len(), |i: int| v[i]@)
}

/// Whether the torrent is one file or a directory of files.
#[derive(Clone, Debug, PartialEq, Eq)]
pub enum Mode {
    Single { name: String, length: u64, md5sum: Option<Vec<u8>> },
    Multi { dir_name: String, files: Vec<File>, md5sum: Option<Vec<u8>> },
}

/// The files of a torrent, as plain values.
pub enum ModeModel {
    Single { name: Seq<char>, length: u64, md5sum: Option<Seq<u8>> },
    Multi { dir_name: Seq<char>, files: Seq<FileModel>, md5sum: Option<Seq<u8>> },
}

impl View for Mode {
    type V = ModeModel;

    open spec fn view(&self) -> ModeModel {
        match self {
            Mode::Single { name, length, md5sum } => ModeModel::Single {
                name: name@,
                length: *length,
                md5sum: bytes_option_view(*md5sum),
            },
            Mode::Multi { dir_name, files, md5sum } => ModeModel::Multi {
                dir_name: dir_name@,
                files: files_view(files@),
                md5sum: bytes_option_view(*md5sum),
            },
        }
    }
}

/// The sum of the lengths of the first `n` files.
pub open spec fn files_length(files: Seq<FileModel>, n: int) -> int
    decreases n,
{
    if n <= 0 {
        0
    } else {
        files_length(files, n - 1) + files[n - 1].length
    }
}

impl ModeModel {
    /// The name of the file, or of the directory.
    pub open spec fn name(self) -> Seq<char> {
        match self {
            ModeModel::Single { name, .. } => name,
            ModeModel::Multi { dir_name, .. } => dir_name,
        }
    }

    /// The number of bytes of content.
    pub open spec fn total_length(self) -> int {
        match self {
            ModeModel::Single { length, .. } => length as int,
            ModeModel::Multi { files, .. } => files_length(files, files.len() as int),
        }
    }
}

impl Default for Mode {
    fn default() -> (m: Mode)
        ensures
            m@ == (ModeModel::Single { name: Seq::empty(), length: 0, md5sum: None }),
    {
        Mode::Single { name: String::new(), length: 0, md5sum: None }
    }
}

impl Mode {
    /// The name of the file, or of the directory.
    pub fn name(&self) -> (r: String)
        ensures
            r@ == self@.name(),
    {
        match self {
            Mode::Single { name, .. } => name.clone(),
            Mode::Multi { dir_name, .. } => dir_name.clone(),
        }
    }

    /// The number of bytes of content, or `None` where the sum does not fit
    /// in 64 bits.
    pub fn total_length(&self) -> (r: Option<u64>)
        ensures
            r is Some <==> self@.total_length() <= u64::MAX,
            r matches Some(n) ==> n == self@.total_length(),
    {
        match self {
            Mode::Single { length, .. } => Some(*length),
            Mode::Multi { files, .. } => {
                let ghost model = files_view(files@);
                let mut sum: u64 = 0;
                let mut i: usize = 0;
                while i < files.len()
                    invariant
                        i <= files@.len(),
                        model == files_view(files@),
                        self@.total_length() == files_length(model, model.len() as int),
                        sum == files_length(model, i as int),
                    decreases files@.len() - i,
                {
                    let len: u64 = files[i].length;
                    assert(model[i as int].length == len);
                    if len > u64::MAX - sum {
                        proof {
                            assert(files_length(model, i + 1) == sum + len);
                            lemma_files_length_grows(model, i + 1, model.len() as int);
                        }
                        return None;
                    }
                    sum = sum + len;
                    i += 1;
                }
                Some(sum)
            },
        }
    }
}

/// The sum of file lengths only grows with more files.
pub proof fn lemma_files_length_grows(files: Seq<FileModel>, a: int, b: int)
    requires
        0 <= a <= b,
    ensures
        files_length(files, a) <= files_length(files, b),
    decreases b - a,
{
    if a < b {
        lemma_files_length_grows(files, a, b - 1);
    }
}

/// The `info` dictionary of a torrent: how the content is cut into pieces,
/// the hash of each piece, and the files. `value` is the info-hash.
#[derive(Clone, Debug, Default, PartialEq, Eq)]
pub struct Info {
    pub mode: Mode,
    pub piece_length: u64,
    pub pieces: Vec<[u8; 20]>,
    pub private: Option<()>,
    pub value: [u8; 20],
}

/// The `info` dictionary of a torrent, as plain values.
pub struct InfoModel {
    pub mode: ModeModel,
    pub piece_length: u64,
    pub pieces: Seq<Seq<u8>>,
    pub private: bool,
    pub value: Seq<u8>,
}

/// Each hash as its bytes.
pub open spec fn hashes_view(v: Seq<[u8; 20]>) -> Seq<Seq<u8>> {
    Seq::new(v.len(), |i: int| v[i]@)
}

impl View for Info {
    type V = InfoModel;

    open spec fn view(&self) -> InfoModel {
        InfoModel {
            mode: self.mode@,
            piece_length: self.piece_length,
            pieces: hashes_view(self.pieces@),
            private: self.private is Some,
            value: self.value@,
        }
    }
}

/// A torrent as the user named it: its trackers, and its `info` once that is
/// known (at once from a file, later from peers for a magnet link).
#[derive(Clone, Debug, Default, PartialEq, Eq)]
pub struct TorrentInfo {
    pub info: Option<Info>,
    pub announce: Announce,
    pub created: Option<u64>,
    pub comment: String,
    pub author: Option<String>,
    pub hash: [u8; 20],
}

/// A torrent, as plain values.
pub struct TorrentModel {
    pub info: Option<InfoModel>,
    pub announce: AnnounceModel,
    pub created: Option<u64>,
    pub comment: Seq<char>,
    pub author: Option<Seq<char>>,
    pub hash: Seq<u8>,
}

/// The `info` dictionary, where it is known.
pub open spec fn info_option_view(i: Option<Info>) -> Option<InfoModel> {
    match i {
        Some(info) => Some(info@),
        None => None,
    }
}

impl View for TorrentInfo {
    type V = TorrentModel;

    open spec fn view(&self) -> TorrentModel {
        TorrentModel {
            info: info_option_view(self.info),
            announce: self.announce@,
            created: self.created,
            comment: self.comment@,
            author: text_option_view(self.author),
            hash: self.hash@,
        }
    }
}

impl TorrentModel {
    /// The number of bytes of content; zero while `info` is unknown.
    pub open spec fn length(self) -> int {
        match self.info {
            Some(info) => info.mode.total_length(),
            None => 0,
        }
    }
}

impl TorrentInfo {
    /// The number of bytes of content; zero while `info` is unknown. A sum
    /// beyond 64 bits is given as the largest number.
    pub fn length(&self) -> (r: u64)
        ensures
            r == if self@.length() <= u64::MAX {
                self@.length()
            } else {
                u64::MAX as int
            },
    {
        match &self.info {
            Some(info) => match info.mode.total_length() {
                Some(n) => n,
                None => u64::MAX,
            },
            None => 0,
        }
    }

    /// How many 64-bit words a bitfield over the pieces takes.
    pub fn bitfield_size(&self) -> (r: usize)
        requires
            self.info is Some,
        ensures
            r == (self.info->Some_0.pieces@.len() + 63) / 64,
    {
        match &self.info {
            Some(info) => {
                let n: usize = info.pieces.len();
                n / 64 + if n % 64 == 0 {
                    0
                } else {
                    1
                }
            },
            None => 0,
        }
    }
}

/// A peer: its address, and its id where the tracker told it.
#[derive(Clone, Debug, PartialEq, Eq)]
pub struct Peer {
    pub id: Option<[u8; 20]>,
    pub addr: Endpoint,
}

pub type Peers = Vec<Peer>;

impl Peer {
    /// A peer known by its address alone.
    pub fn from(addr: &Endpoint) -> (p: Peer)
        ensures
            p.id is None,
            p.addr == *addr,
    {
        Peer { id: None, addr: *addr }
    }
}

/// What an HTTP tracker answers to an announce.
#[derive(Debug, Default, PartialEq)]
pub struct HttpResponse {
    pub failure_reason: Option<String>,
    pub warning: Option<String>,
    pub interval: u64,
    pub min_interval: Option<u64>,
    pub tracker_id: String,
    pub complete: u64,
    pub incomplete: u64,
    pub peers: Vec<Peer>,
}

/// Counts for one torrent in a scrape.
#[derive(Debug, Default, PartialEq)]
pub struct Status {
    pub seeders: u32,
    pub finished: u32,
    pub leechers: u32,
    pub name: Option<String>,
}

/// What an HTTP tracker answers to a scrape: counts by info-hash.
#[derive(Debug, Default)]
pub struct ScrapeResponse {
    pub files: Vec<(Vec<u8>, Status)>,
}

impl ScrapeResponse {
    /// A response that speaks of no torrent.
    pub fn new() -> (r: ScrapeResponse)
        ensures
            r.files@.len() == 0,
    {
        ScrapeResponse { files: Vec::new() }
    }
}

/// What an announce over HTTP carries.
#[derive(Clone, Debug, PartialEq, Eq)]
pub struct HttpRequest {
    pub hash: [u8; 20],
    pub id: [u8; 20],
    pub port: u16,
    pub uploaded: u64,
    pub downloaded: u64,
    pub compact: bool,
}

} // verus!
