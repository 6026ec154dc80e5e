use vstd::prelude::*;
use vstd::string::StrSliceExecFns;

verus! {

/// Why a single fetch failed.  A transport failure, timeout, or exceeded
/// redirect cap is `RequestFailed`; an HTTP response outside the success
/// range is `StatusError` with its code; a limiter fault is
/// `RateLimitError`.  None of these fails the job that issued the fetch.
#[derive(Clone, Copy, Debug, PartialEq, Eq, Structural)]
pub enum FetchError {
    RequestFailed,
    StatusError(u16),
    RateLimitError,
}

/// ASCII lowering of one character; anything outside `A`..`Z` is kept.
pub open spec fn ascii_lower_char(c: char) -> char {
    match c {
        'A' => 'a',
        'B' => 'b',
        'C' => 'c',
        'D' => 'd',
        'E' => 'e',
        'F' => 'f',
        'G' => 'g',
        'H' => 'h',
        'I' => 'i',
        'J' => 'j',
        'K' => 'k',
        'L' => 'l',
        'M' => 'm',
        'N' => 'n',
        'O' => 'o',
        'P' => 'p',
        'Q' => 'q',
        'R' => 'r',
        'S' => 's',
        'T' => 't',
        'U' => 'u',
        'V' => 'v',
        'W' => 'w',
        'X' => 'x',
        'Y' => 'y',
        'Z' => 'z',
        _ => c,
    }
}

/// ASCII lowering of a whole character sequence.
pub open spec fn lower_seq(s: Seq<char>) -> Seq<char> {
    s.map_values(|c: char| ascii_lower_char(c))
}

/// Executable ASCII lowering of one character.
pub fn lower_char(c: char) -> (r: char)
    ensures
        r == ascii_lower_char(c),
{
    match c {
        'A' => 'a',
        'B' => 'b',
        'C' => 'c',
        'D' => 'd',
        'E' => 'e',
        'F' => 'f',
        'G' => 'g',
        'H' => 'h',
        'I' => 'i',
        'J' => 'j',
        'K' => 'k',
        'L' => 'l',
        'M' => 'm',
        'N' => 'n',
        'O' => 'o',
        'P' => 'p',
        'Q' => 'q',
        'R' => 'r',
        'S' => 's',
        'T' => 't',
        'U' => 'u',
        'V' => 'v',
        'W' => 'w',
        'X' => 'x',
        'Y' => 'y',
        'Z' => 'z',
        _ => c,
    }
}

/// Whether two strings are equal after ASCII lowering.
pub fn eq_ignore_ascii(a: &str, b: &str) -> (r: bool)
    ensures
        r == (lower_seq(a@) == lower_seq(b@)),
{
    let la = a.unicode_len();
    let lb = b.unicode_len();
    if la != lb {
        proof {
            assert(lower_seq(a@).len() != lower_seq(b@).len());
        }
        return false;
    }
    let mut i: usize = 0;
    while i < la
        invariant
            i <= la,
            la as nat == a@.len(),
            lb as nat == b@.len(),
            la == lb,
            forall|k: int| 0 <= k < i ==> lower_seq(a@)[k] == lower_seq(b@)[k],
        decreases la - i,
    {
        let ca = a.get_char(i);
        let cb = b.get_char(i);
        if lower_char(ca) != lower_char(cb) {
            proof {
                assert(lower_seq(a@)[i as int] != lower_seq(b@)[i as int]);
            }
            return false;
        }
        i += 1;
    }
    proof {
        assert(lower_seq(a@) =~= lower_seq(b@));
    }
    true
}

/// View of stored header pairs as character sequences.
pub open spec fn header_views(ps: Seq<(String, String)>) -> Seq<(Seq<char>, Seq<char>)> {
    ps.map_values(|p: (String, String)| (p.0@, p.1@))
}

/// The header mapping a pair list denotes: keys are ASCII-lowered, and on
/// a duplicate name the last value wins.
pub open spec fn headers_map(ps: Seq<(Seq<char>, Seq<char>)>) -> Map<Seq<char>, Seq<char>>
    decreases ps.len(),
{
    if ps.len() == 0 {
        Map::empty()
    } else {
        headers_map(ps.drop_last()).insert(lower_seq(ps.last().0), ps.last().1)
    }
}

proof fn lemma_headers_map_lookup(ps: Seq<(Seq<char>, Seq<char>)>, key: Seq<char>, j: int)
    requires
        0 <= j < ps.len(),
        lower_seq(ps[j].0) == key,
        forall|k: int| j < k < ps.len() ==> lower_seq((#[trigger] ps[k]).0) != key,
    ensures
        headers_map(ps).contains_key(key),
        headers_map(ps)[key] == ps[j].1,
    decreases ps.len(),
{
    if j < ps.len() - 1 {
        assert(forall|k: int| 0 <= k < ps.drop_last().len() ==> #[trigger] ps.drop_last()[k]
            == ps[k]);
        lemma_headers_map_lookup(ps.drop_last(), key, j);
    }
}

proof fn lemma_headers_map_absent(ps: Seq<(Seq<char>, Seq<char>)>, key: Seq<char>)
    requires
        forall|k: int| 0 <= k < ps.len() ==> lower_seq((#[trigger] ps[k]).0) != key,
    ensures
        !headers_map(ps).contains_key(key),
    decreases ps.len(),
{
    if ps.len() > 0 {
        assert(forall|k: int| 0 <= k < ps.drop_last().len() ==> #[trigger] ps.drop_last()[k]
            == ps[k]);
        lemma_headers_map_absent(ps.drop_last(), key);
    }
}

/// What one successful HTTP fetch produced: the status code, the body, the
/// response headers in arrival order, and the URL the request ended at
/// after redirects.
#[derive(Debug)]
pub struct FetchResult {
    pub status_code: u16,
    pub body: String,
    pub headers: Vec<(String, String)>,
    pub final_url: String,
}

impl FetchResult {
    /// The headers as a mapping with ASCII-lowered keys, last value
    /// winning on duplicate names.
    pub open spec fn header_map(self) -> Map<Seq<char>, Seq<char>> {
        headers_map(header_views(self.headers@))
    }

    /// Whether the response status is in the HTTP success range.
    pub fn is_success(&self) -> (r: bool)
        ensures
            r == (200 <= self.status_code < 300),
    {
        200 <= self.status_code && self.status_code < 300
    }

    /// Look a header up by name, case-insensitively; on duplicate names
    /// the value that arrived last is returned.
    pub fn header(&self, name: &str) -> (r: Option<&String>)
        ensures
            r is Some <==> self.header_map().contains_key(lower_seq(name@)),
            r matches Some(v) ==> self.header_map()[lower_seq(name@)] == v@,
    {
        let ghost ps = header_views(self.headers@);
        let ghost key = lower_seq(name@);
        let mut j: usize = self.headers.len();
        while j > 0
            invariant
                j <= self.headers@.len(),
                ps == header_views(self.headers@),
                key == lower_seq(name@),
                forall|k: int|
                    j <= k < ps.len() ==> lower_seq((#[trigger] ps[k]).0) != key,
            decreases j,
        {
            j = j - 1;
            if eq_ignore_ascii(self.headers[j].0.as_str(), name) {
                proof {
                    assert(ps[j as int].0 == self.headers@[j as int].0@);
                    lemma_headers_map_lookup(ps, key, j as int);
                }
                return Some(&self.headers[j].1);
            }
            proof {
                assert(lower_seq(ps[j as int].0) != key);
            }
        }
        proof {
            lemma_headers_map_absent(ps, key);
        }
        None
    }
}

} // verus!
