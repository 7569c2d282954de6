//! Small building blocks: a deadline timer over caller-supplied clocks,
//! hexadecimal and URL encoding of hashes, fixed-size slices and big-endian
//! integers.

use vstd::prelude::*;
use vstd::string::StringSliceAdditionalSpecFns;
use crate::text::push_char;

verus! {

/// A deadline measured on a clock that the caller reads: `start` is the
/// reading at the last reset and `duration` the span after which the timer
/// counts as elapsed. Both are in the caller's unit (seconds throughout this
/// crate).
#[derive(Clone, Copy, Debug, PartialEq, Eq, Structural)]
pub struct Timer {
    pub start: u64,
    pub duration: u64,
}

impl Timer {
    /// Whether the timer's duration has passed at `now`.
    pub open spec fn elapsed_at(self, now: u64) -> bool {
        now >= self.start && now - self.start >= self.duration
    }

    /// A timer started at `now` that elapses `duration` later.
    pub fn new(now: u64, duration: u64) -> (t: Timer)
        ensures
            t.start == now,
            t.duration == duration,
    {
        Timer { start: now, duration }
    }

    /// Restarts the timer at `now`, keeping its duration.
    pub fn reset(&mut self, now: u64)
        ensures
            final(self).start == now,
            final(self).duration == old(self).duration,
    {
        self.start = now;
    }

    /// Whether at least `duration` has passed between the last reset and
    /// `now`. A clock reading before the reset counts as no time passed.
    pub fn elapsed(&self, now: u64) -> (r: bool)
        ensures
            r == self.elapsed_at(now),
    {
        now >= self.start && now - self.start >= self.duration
    }
}

/// What `prettier` puts in place of one character: a line break after an
/// opening bracket or a comma, and before a closing bracket.
pub open spec fn prettier_char(c: char) -> Seq<char> {
    if c == '(' || c == '{' || c == ',' {
        seq![c, '\n']
    } else if c == ')' || c == '}' {
        seq!['\n', c]
    } else {
        seq![c]
    }
}

/// The text with each character shown as `prettier` shows it.
pub open spec fn prettier_text(s: Seq<char>) -> Seq<char>
    decreases s.len(),
{
    if s.len() == 0 {
        Seq::empty()
    } else {
        prettier_text(s.drop_last()) + prettier_char(s.last())
    }
}

/// Breaks a one-line debug rendering into lines at brackets and commas.
pub fn prettier(s: String) -> (r: String)
    ensures
        r@ == prettier_text(s@),
{
    let text = s.as_str();
    let n: usize = text.unicode_len();
    let mut out = String::new();
    let mut i: usize = 0;
    while i < n
        invariant
            i <= n,
            n == text@.len(),
            out@ == prettier_text(text@.take(i as int)),
        decreases n - i,
    {
        let c = text.get_char(i);
        proof {
            assert(text@.take(i + 1).drop_last() == text@.take(i as int));
            assert(text@.take(i + 1).last() == c);
        }
        if c == '(' || c == '{' || c == ',' {
            push_char(&mut out, c);
            push_char(&mut out, '\n');
        } else if c == ')' || c == '}' {
            push_char(&mut out, '\n');
            push_char(&mut out, c);
        } else {
            push_char(&mut out, c);
        }
        i += 1;
    }
    proof {
        assert(text@.take(n as int) == text@);
    }
    out
}

/// The first `N` bytes of `v` as an array.
pub fn range_to_array<const N: usize>(v: &[u8]) -> (r: [u8; N])
    requires
        v@.len() >= N,
    ensures
        r@ == v@.take(N as int),
{
    let mut out: [u8; N] = [0u8; N];
    let mut i: usize = 0;
    while i < N
        invariant
            i <= N,
            v@.len() >= N,
            out@.len() == N,
            forall|j: int| 0 <= j < i ==> out@[j] == v@[j],
        decreases N - i,
    {
        out[i] = v[i];
        i += 1;
    }
    proof {
        assert(out@ =~= v@.take(N as int));
    }
    out
}

/// Whether `b` is an ASCII hexadecimal digit, in either case.
pub open spec fn is_hex_digit(b: u8) -> bool {
    (48 <= b <= 57) || (65 <= b <= 70) || (97 <= b <= 102)
}

/// The value of a hexadecimal digit.
pub open spec fn hex_value(b: u8) -> int {
    if 48 <= b <= 57 {
        b - 48
    } else if 65 <= b <= 70 {
        b - 55
    } else {
        b - 87
    }
}

/// Whether `s` is the hexadecimal spelling of a 20-byte hash.
pub open spec fn is_hex_hash(s: Seq<u8>) -> bool {
    s.len() == 40 && forall|i: int| 0 <= i < 40 ==> is_hex_digit(#[trigger] s[i])
}

/// The bytes that the hexadecimal text `s` spells, two digits each.
pub open spec fn hex_bytes(s: Seq<u8>) -> Seq<u8> {
    Seq::new((s.len() / 2) as nat, |i: int| (hex_value(s[2 * i]) * 16 + hex_value(s[2 * i + 1])) as u8)
}

fn hex_digit(b: u8) -> (r: Option<u8>)
    ensures
        r is Some <==> is_hex_digit(b),
        r matches Some(v) ==> v == hex_value(b),
{
    if 48 <= b && b <= 57 {
        Some(b - 48)
    } else if 65 <= b && b <= 70 {
        Some(b - 55)
    } else if 97 <= b && b <= 102 {
        Some(b - 87)
    } else {
        None
    }
}

/// Reads the 40 hexadecimal digits of an info-hash, or `None` where `b` is
/// anything else.
pub fn hex_hash(b: &[u8]) -> (r: Option<[u8; 20]>)
    ensures
        r is Some <==> is_hex_hash(b@),
        r matches Some(h) ==> h@ == hex_bytes(b@),
{
    if b.len() != 40 {
        return None;
    }
    let mut out: [u8; 20] = [0u8; 20];
    let mut i: usize = 0;
    while i < 20
        invariant
            i <= 20,
            b@.len() == 40,
            out@.len() == 20,
            forall|j: int| 0 <= j < 2 * i ==> is_hex_digit(#[trigger] b@[j]),
            forall|j: int| 0 <= j < i ==> out@[j] == (hex_value(b@[2 * j]) * 16 + hex_value(b@[2 * j + 1])) as u8,
        decreases 20 - i,
    {
        let hi = hex_digit(b[2 * i]);
        let lo = hex_digit(b[2 * i + 1]);
        match (hi, lo) {
            (Some(h), Some(l)) => {
                out[i] = h * 16 + l;
            },
            _ => {
                proof {
                    assert(!is_hex_digit(b@[2 * i as int]) || !is_hex_digit(b@[2 * i + 1]));
                }
                return None;
            },
        }
        i += 1;
    }
    proof {
        assert(out@ =~= hex_bytes(b@));
    }
    Some(out)
}

/// Reads the 40 hexadecimal digits of an info-hash, or `None` where `s` is
/// anything else.
pub fn try_decode(s: &str) -> (r: Option<[u8; 20]>)
    ensures
        r is Some <==> is_hex_hash(s.spec_bytes()),
        r matches Some(h) ==> h@ == hex_bytes(s.spec_bytes()),
{
    hex_hash(s.as_bytes())
}

/// Reads the 40 hexadecimal digits of an info-hash.
pub fn decode(s: &str) -> (r: [u8; 20])
    requires
        is_hex_hash(s.spec_bytes()),
    ensures
        r@ == hex_bytes(s.spec_bytes()),
{
    match try_decode(s) {
        Some(h) => h,
        None => [0u8; 20],
    }
}

/// Whether the URL encoding leaves `b` as it is.
pub open spec fn url_plain(b: u8) -> bool {
    (0x30 <= b <= 0x39) || (0x41 <= b <= 0x59) || (0x61 <= b <= 0x79)
}

/// The upper-case hexadecimal digit for a value below 16.
pub open spec fn upper_hex(n: int) -> char {
    if n < 10 {
        (48 + n) as u8 as char
    } else {
        (55 + n) as u8 as char
    }
}

/// The URL encoding of one byte: itself, or `%` and two upper-case digits.
pub open spec fn url_byte(b: u8) -> Seq<char> {
    if url_plain(b) {
        seq![b as char]
    } else {
        seq!['%', upper_hex(b as int / 16), upper_hex(b as int % 16)]
    }
}

/// The bytes as they stand in a URL's query.
pub open spec fn url_text(s: Seq<u8>) -> Seq<char>
    decreases s.len(),
{
    if s.len() == 0 {
        Seq::empty()
    } else {
        url_text(s.drop_last()) + url_byte(s.last())
    }
}

fn upper_hex_char(n: u8) -> (c: char)
    requires
        n < 16,
    ensures
        c == upper_hex(n as int),
{
    if n < 10 {
        (48 + n) as char
    } else {
        (55 + n) as char
    }
}

/// URL-encodes raw bytes for a tracker query.
pub fn encode(arr: &[u8]) -> (r: String)
    ensures
        r@ == url_text(arr@),
{
    let mut out = String::new();
    let mut i: usize = 0;
    while i < arr.len()
        invariant
            i <= arr@.len(),
            out@ == url_text(arr@.take(i as int)),
        decreases arr@.len() - i,
    {
        let b: u8 = arr[i];
        proof {
            assert(arr@.take(i + 1).drop_last() == arr@.take(i as int));
            assert(arr@.take(i + 1).last() == b);
        }
        if (0x30 <= b && b <= 0x39) || (0x41 <= b && b <= 0x59) || (0x61 <= b && b <= 0x79) {
            push_char(&mut out, b as char);
        } else {
            push_char(&mut out, '%');
            push_char(&mut out, upper_hex_char(b / 16));
            push_char(&mut out, upper_hex_char(b % 16));
        }
        i += 1;
    }
    proof {
        assert(arr@.take(arr@.len() as int) == arr@);
    }
    out
}

/// The value of a base32 digit: `A` to `Z` in either case, then `2` to `7`.
pub open spec fn base32_value(c: u8) -> Option<int> {
    if 65 <= c <= 90 {
        Some(c - 65)
    } else if 97 <= c <= 122 {
        Some(c - 97)
    } else if 50 <= c <= 55 {
        Some(c - 24)
    } else {
        None
    }
}

/// Whether `s` is the base32 spelling of a 20-byte hash.
pub open spec fn is_base32_hash(s: Seq<u8>) -> bool {
    s.len() == 32 && forall|i: int| 0 <= i < 32 ==> base32_value(#[trigger] s[i]) is Some
}

/// The 40 bits that the eight digits from `s[at]` on spell.
pub open spec fn base32_group(s: Seq<u8>, at: int) -> int {
    let v = |i: int| base32_value(s[at + i])->Some_0;
    ((((((v(0) * 32 + v(1)) * 32 + v(2)) * 32 + v(3)) * 32 + v(4)) * 32 + v(5)) * 32 + v(6)) * 32
        + v(7)
}

/// Byte `k` of five in a group of 40 bits, the most significant first.
pub open spec fn group_byte(g: int, k: int) -> u8 {
    if k == 0 {
        (g / 0x1_0000_0000 % 256) as u8
    } else if k == 1 {
        (g / 0x100_0000 % 256) as u8
    } else if k == 2 {
        (g / 0x1_0000 % 256) as u8
    } else if k == 3 {
        (g / 0x100 % 256) as u8
    } else {
        (g % 256) as u8
    }
}

/// The 20 bytes that 32 base32 digits spell.
pub open spec fn base32_bytes(s: Seq<u8>) -> Seq<u8> {
    Seq::new(20, |j: int| group_byte(base32_group(s, 8 * (j / 5)), j % 5))
}

fn base32_digit(c: u8) -> (r: Option<u8>)
    ensures
        r is Some <==> base32_value(c) is Some,
        r matches Some(v) ==> v == base32_value(c)->Some_0 && v < 32,
{
    if 65 <= c && c <= 90 {
        Some(c - 65)
    } else if 97 <= c && c <= 122 {
        Some(c - 97)
    } else if 50 <= c && c <= 55 {
        Some(c - 24)
    } else {
        None
    }
}

/// The 40 bits of group `g` of four, or `None` where one of its eight
/// digits is none.
fn read_group(b: &[u8], g: usize) -> (r: Option<u64>)
    requires
        b@.len() == 32,
        g < 4,
    ensures
        r is Some <==> forall|j: int| 0 <= j < 8 ==> base32_value(#[trigger] b@[8 * g + j]) is Some,
        r matches Some(acc) ==> acc == base32_group(b@, 8 * g as int) && acc < 0x100_0000_0000,
{
    let mut acc: u64 = 0;
    let mut i: usize = 0;
    let ghost mut vals: Seq<int> = Seq::empty();
    while i < 8
        invariant
            i <= 8,
            g < 4,
            b@.len() == 32,
            vals.len() == i,
            forall|j: int|
                0 <= j < i ==> base32_value(#[trigger] b@[8 * g + j]) == Some(vals[j]) && 0
                    <= vals[j] < 32,
            i == 0 ==> acc == 0,
            i == 1 ==> acc == vals[0],
            i == 2 ==> acc == vals[0] * 32 + vals[1],
            i == 3 ==> acc == (vals[0] * 32 + vals[1]) * 32 + vals[2],
            i == 4 ==> acc == ((vals[0] * 32 + vals[1]) * 32 + vals[2]) * 32 + vals[3],
            i == 5 ==> acc == (((vals[0] * 32 + vals[1]) * 32 + vals[2]) * 32 + vals[3]) * 32
                + vals[4],
            i == 6 ==> acc == ((((vals[0] * 32 + vals[1]) * 32 + vals[2]) * 32 + vals[3]) * 32
                + vals[4]) * 32 + vals[5],
            i == 7 ==> acc == (((((vals[0] * 32 + vals[1]) * 32 + vals[2]) * 32 + vals[3]) * 32
                + vals[4]) * 32 + vals[5]) * 32 + vals[6],
            i == 8 ==> acc == ((((((vals[0] * 32 + vals[1]) * 32 + vals[2]) * 32 + vals[3]) * 32
                + vals[4]) * 32 + vals[5]) * 32 + vals[6]) * 32 + vals[7],
            i == 1 ==> acc < 0x20,
            i == 2 ==> acc < 0x400,
            i == 3 ==> acc < 0x8000,
            i == 4 ==> acc < 0x10_0000,
            i == 5 ==> acc < 0x200_0000,
            i == 6 ==> acc < 0x4000_0000,
            i == 7 ==> acc < 0x8_0000_0000,
            i == 8 ==> acc < 0x100_0000_0000,
        decreases 8 - i,
    {
        let v: u8 = match base32_digit(b[8 * g + i]) {
            Some(v) => v,
            None => {
                return None;
            },
        };
        proof {
            vals = vals.push(v as int);
        }
        acc = acc * 32 + v as u64;
        i += 1;
    }
    proof {
        assert(acc == base32_group(b@, 8 * g as int));
    }
    Some(acc)
}

/// Writes the five bytes of group `g` of four.
fn write_group(out: &mut [u8; 20], g: usize, acc: u64)
    requires
        g < 4,
    ensures
        forall|k: int| 0 <= k < 5 ==> final(out)@[5 * g + k] == group_byte(acc as int, k),
        forall|j: int| 0 <= j < 20 && !(5 * g <= j < 5 * g + 5) ==> final(out)@[j] == old(out)@[j],
{
    out[5 * g] = (acc / 0x1_0000_0000 % 256) as u8;
    out[5 * g + 1] = (acc / 0x100_0000 % 256) as u8;
    out[5 * g + 2] = (acc / 0x1_0000 % 256) as u8;
    out[5 * g + 3] = (acc / 0x100 % 256) as u8;
    out[5 * g + 4] = (acc % 256) as u8;
}

/// Reads the 32 base32 digits of an info-hash, or `None` where `b` is
/// anything else.
pub fn base32_hash(b: &[u8]) -> (r: Option<[u8; 20]>)
    ensures
        r is Some <==> is_base32_hash(b@),
        r matches Some(h) ==> h@ == base32_bytes(b@),
{
    if b.len() != 32 {
        return None;
    }
    let mut out: [u8; 20] = [0u8; 20];
    let mut g: usize = 0;
    while g < 4
        invariant
            g <= 4,
            b@.len() == 32,
            forall|j: int| 0 <= j < 8 * g ==> base32_value(#[trigger] b@[j]) is Some,
            forall|j: int|
                0 <= j < 5 * g ==> out@[j] == group_byte(base32_group(b@, 8 * (j / 5)), j % 5),
        decreases 4 - g,
    {
        let acc: u64 = match read_group(b, g) {
            Some(acc) => acc,
            None => {
                proof {
                    let j = choose|j: int|
                        0 <= j < 8 && !(base32_value(#[trigger] b@[8 * g + j]) is Some);
                    assert(!(base32_value(b@[8 * g + j]) is Some));
                }
                return None;
            },
        };
        let ghost before = out@;
        write_group(&mut out, g, acc);
        proof {
            assert forall|j: int| 0 <= j < 8 * (g + 1) implies base32_value(
                #[trigger] b@[j],
            ) is Some by {
                if j >= 8 * g {
                    assert(base32_value(b@[8 * g + (j - 8 * g)]) is Some);
                }
            }
            assert forall|j: int| 0 <= j < 5 * (g + 1) implies out@[j] == group_byte(
                base32_group(b@, 8 * (j / 5)),
                j % 5,
            ) by {
                if j >= 5 * g {
                    let k = j - 5 * g;
                    assert(j / 5 == g && j % 5 == k);
                    assert(out@[5 * g + k] == group_byte(acc as int, k));
                } else {
                    assert(out@[j] == before[j]);
                }
            }
        }
        g += 1;
    }
    proof {
        assert(out@ =~= base32_bytes(b@));
    }
    Some(out)
}

/// What to do about something that is tried several times.
#[derive(Clone, Copy, Debug, PartialEq, Eq, Structural)]
pub enum Attempt {
    /// The last try succeeded.
    Done,
    /// Wait for `wait` seconds, then try.
    Try { wait: u8 },
    /// Every try failed: the time is out.
    GiveUp,
}

/// What to do after `made` tries of at most `count`, of which the last one
/// `failed`: nothing more after a success; else the next try, `interval`
/// seconds after a failure; after `count` failures, nothing more.
pub fn attempt(made: u8, count: u8, interval: u8, failed: bool) -> (r: Attempt)
    ensures
        r == if made > 0 && !failed {
            Attempt::Done
        } else if made < count {
            Attempt::Try {
                wait: if made == 0 {
                    0
                } else {
                    interval
                },
            }
        } else {
            Attempt::GiveUp
        },
{
    if made > 0 && !failed {
        Attempt::Done
    } else if made < count {
        if made == 0 {
            Attempt::Try { wait: 0 }
        } else {
            Attempt::Try { wait: interval }
        }
    } else {
        Attempt::GiveUp
    }
}

} // verus!
