//! The scrape URL of an HTTP tracker, made from its announce URL.

use vstd::prelude::*;
use crate::text::push_char;

verus! {

/// Whether `pat` stands in `s` at position `i`.
pub open spec fn occurs_at(s: Seq<char>, pat: Seq<char>, i: int) -> bool {
    0 <= i && i + pat.len() <= s.len() && s.subrange(i, i + pat.len()) == pat
}

/// Whether `pat` stands somewhere in `s`.
pub open spec fn contains(s: Seq<char>, pat: Seq<char>) -> bool {
    exists|i: int| occurs_at(s, pat, i)
}

/// `s` with every occurrence of `from` replaced by `to`, found from left to
/// right without overlap.
pub open spec fn replace_all(s: Seq<char>, from: Seq<char>, to: Seq<char>) -> Seq<char>
    decreases s.len(),
{
    if s.len() == 0 || from.len() == 0 {
        s
    } else if occurs_at(s, from, 0) {
        to + replace_all(s.skip(from.len() as int), from, to)
    } else {
        seq![s[0]] + replace_all(s.drop_first(), from, to)
    }
}

fn chars_of(text: &str) -> (r: Vec<char>)
    ensures
        r@ == text@,
{
    let n: usize = text.unicode_len();
    let mut out: Vec<char> = Vec::new();
    let mut i: usize = 0;
    while i < n
        invariant
            i <= n,
            n == text@.len(),
            out@ == text@.take(i as int),
        decreases n - i,
    {
        out.push(text.get_char(i));
        assert(out@ =~= text@.take(i + 1));
        i += 1;
    }
    assert(text@.take(n as int) =~= text@);
    out
}

fn matches_at(s: &Vec<char>, pat: &Vec<char>, i: usize) -> (r: bool)
    requires
        i <= s@.len(),
    ensures
        r == occurs_at(s@, pat@, i as int),
{
    if pat.len() > s.len() - i {
        return false;
    }
    let mut k: usize = 0;
    let n: usize = s.len();
    while k < pat.len()
        invariant
            k <= pat@.len(),
            n == s@.len(),
            i + pat@.len() <= s@.len(),
            forall|j: int| 0 <= j < k ==> s@[i + j] == pat@[j],
        decreases pat@.len() - k,
    {
        if s[i + k] != pat[k] {
            proof {
                assert(s@.subrange(i as int, i + pat@.len())[k as int] != pat@[k as int]);
            }
            return false;
        }
        k += 1;
    }
    proof {
        assert(s@.subrange(i as int, i + pat@.len()) =~= pat@);
    }
    true
}

/// `text` with every occurrence of `from` replaced by `to`, or `None` where
/// `from` does not occur.
pub fn replace(text: &str, from: &str, to: &str) -> (r: Option<String>)
    requires
        from@.len() > 0,
    ensures
        r is Some <==> contains(text@, from@),
        r matches Some(t) ==> t@ == replace_all(text@, from@, to@),
{
    let s = chars_of(text);
    let pat = chars_of(from);
    let new = chars_of(to);
    let n: usize = s.len();
    let mut out = String::new();
    let mut found: bool = false;
    let mut i: usize = 0;
    proof {
        assert(s@.skip(0) =~= s@);
        assert(out@ + replace_all(s@, pat@, new@) =~= replace_all(s@, pat@, new@));
    }
    while i < n
        invariant
            i <= n,
            n == s@.len(),
            pat@.len() > 0,
            replace_all(s@, pat@, new@) == out@ + replace_all(s@.skip(i as int), pat@, new@),
            found ==> contains(s@, pat@),
            !found ==> forall|j: int| 0 <= j < i ==> !occurs_at(s@, pat@, j),
        decreases n - i,
    {
        let ghost rest = s@.skip(i as int);
        let ghost before = out@;
        if matches_at(&s, &pat, i) {
            proof {
                assert(rest.subrange(0, pat@.len() as int) =~= s@.subrange(
                    i as int,
                    i + pat@.len(),
                ));
                assert(occurs_at(rest, pat@, 0));
                assert(rest.skip(pat@.len() as int) =~= s@.skip(i + pat@.len()));
            }
            let mut k: usize = 0;
            while k < new.len()
                invariant
                    k <= new@.len(),
                    out@ == before + new@.take(k as int),
                decreases new@.len() - k,
            {
                push_char(&mut out, new[k]);
                assert(out@ =~= before + new@.take(k + 1));
                k += 1;
            }
            proof {
                assert(new@.take(new@.len() as int) =~= new@);
                assert(before + (new@ + replace_all(
                    s@.skip(i + pat@.len()),
                    pat@,
                    new@,
                )) =~= (before + new@) + replace_all(s@.skip(i + pat@.len()), pat@, new@));
            }
            found = true;
            i += pat.len();
        } else {
            proof {
                if rest.len() >= pat@.len() {
                    assert(rest.subrange(0, pat@.len() as int) =~= s@.subrange(
                        i as int,
                        i + pat@.len(),
                    ));
                }
                assert(!occurs_at(rest, pat@, 0));
                assert(rest[0] == s@[i as int]);
                assert(rest.drop_first() =~= s@.skip(i + 1));
                assert(before + (seq![s@[i as int]] + replace_all(s@.skip(i + 1), pat@, new@))
                    =~= before.push(s@[i as int]) + replace_all(s@.skip(i + 1), pat@, new@));
            }
            push_char(&mut out, s[i]);
            i += 1;
        }
    }
    proof {
        assert(s@.skip(n as int).len() == 0);
        assert(out@ + Seq::<char>::empty() =~= out@);
        if !found {
            assert forall|j: int| !occurs_at(s@, pat@, j) by {
                if 0 <= j < n {
                } else if j == n {
                }
            }
        }
    }
    if found {
        Some(out)
    } else {
        None
    }
}

/// The announce URL of an HTTP tracker.
#[derive(Clone, Debug, PartialEq, Eq)]
pub struct Scraper(pub String);

impl Scraper {
    /// The scrape URL of the tracker: its announce URL with `scrape` in
    /// place of `announce`. A tracker whose URL does not hold `announce`
    /// has none.
    pub fn get(&self) -> (r: Option<String>)
        ensures
            r is Some <==> contains(self.0@, "announce"@),
            r matches Some(t) ==> t@ == replace_all(self.0@, "announce"@, "scrape"@),
    {
        proof {
            reveal_strlit("announce");
        }
        replace(self.0.as_str(), "announce", "scrape")
    }
}

} // verus!
