use vstd::prelude::*;

verus! {

/// A connection endpoint, such as `scheme://host:port/path` or `host:port`.
///
/// The text is stored as given: nothing is normalised or validated, the
/// queries below only read it.
#[derive(Debug, Clone)]
pub enum ServiceAddress {
    String(String),
}

/// Whether `s` holds the three characters `://` from index `i` on.
pub open spec fn scheme_separator_at(s: Seq<char>, i: int) -> bool {
    0 <= i && i + 3 <= s.len() && s[i] == ':' && s[i + 1] == '/' && s[i + 2] == '/'
}

/// The first index at or after `from` where `://` begins, or `s.len()` if
/// there is none.
pub open spec fn first_separator_from(s: Seq<char>, from: int) -> int
    decreases s.len() - from,
{
    if from < 0 || from >= s.len() {
        s.len() as int
    } else if scheme_separator_at(s, from) {
        from
    } else {
        first_separator_from(s, from + 1)
    }
}

/// The first index at or after `from` that holds `c`, or `s.len()`.
pub open spec fn first_char_from(s: Seq<char>, c: char, from: int) -> int
    decreases s.len() - from,
{
    if from < 0 || from >= s.len() {
        s.len() as int
    } else if s[from] == c {
        from
    } else {
        first_char_from(s, c, from + 1)
    }
}

/// The last index in `lo..hi` that holds `c`, or `-1`.
pub open spec fn last_char_between(s: Seq<char>, c: char, lo: int, hi: int) -> int
    decreases hi - lo,
{
    if hi <= lo {
        -1
    } else if s[hi - 1] == c {
        hi - 1
    } else {
        last_char_between(s, c, lo, hi - 1)
    }
}

/// Where the host part starts: just past the first `://`, or at 0.
pub open spec fn host_start(s: Seq<char>) -> int {
    let k = first_separator_from(s, 0);
    if k < s.len() {
        k + 3
    } else {
        0
    }
}

/// Where the host part ends: at the first `/` after its start, or at the end.
pub open spec fn host_end(s: Seq<char>) -> int {
    first_char_from(s, '/', host_start(s))
}

/// The text that follows the last `:` of the host part, if it has one.
pub open spec fn port_text(s: Seq<char>) -> Option<Seq<char>> {
    let colon = last_char_between(s, ':', host_start(s), host_end(s));
    if colon < 0 {
        None
    } else {
        Some(s.subrange(colon + 1, host_end(s)))
    }
}

pub open spec fn is_ascii_digit(c: char) -> bool {
    '0' <= c && c <= '9'
}

pub open spec fn all_digits(t: Seq<char>) -> bool {
    forall|i: int| 0 <= i < t.len() ==> is_ascii_digit(#[trigger] t[i])
}

/// The number that the decimal digits of `t` write.
pub open spec fn digits_value(t: Seq<char>) -> nat
    decreases t.len(),
{
    if t.len() == 0 {
        0
    } else {
        digits_value(t.drop_last()) * 10 + ((t.last() as u32 - '0' as u32) as nat)
    }
}

/// The digits of a port number: the text without one leading `+`, which a
/// decimal integer may carry.
pub open spec fn unsigned_digits(t: Seq<char>) -> Seq<char> {
    if t.len() > 0 && t[0] == '+' {
        t.subrange(1, t.len() as int)
    } else {
        t
    }
}

/// The 16-bit unsigned number that `t` writes in decimal, if it writes one.
pub open spec fn parse_port(t: Seq<char>) -> Option<u16> {
    let d = unsigned_digits(t);
    if d.len() > 0 && all_digits(d) && digits_value(d) <= u16::MAX {
        Some(digits_value(d) as u16)
    } else {
        None
    }
}

/// The port of an address: the number after the last `:` of its host part.
pub open spec fn port_of(s: Seq<char>) -> Option<u16> {
    match port_text(s) {
        Some(t) => parse_port(t),
        None => None,
    }
}

pub open spec fn has_prefix(s: Seq<char>, p: Seq<char>) -> bool {
    p.len() <= s.len() && s.subrange(0, p.len() as int) == p
}

/// Whether the address starts with the scheme of a secure protocol.
pub open spec fn secure_address(s: Seq<char>) -> bool {
    has_prefix(s, "https://"@) || has_prefix(s, "wss://"@) || has_prefix(s, "ftps://"@)
        || has_prefix(s, "sftp://"@) || has_prefix(s, "ssh://"@)
}

impl View for ServiceAddress {
    type V = Seq<char>;

    open spec fn view(&self) -> Seq<char> {
        match self {
            ServiceAddress::String(a) => a@,
        }
    }
}

fn starts_with_chars(s: &str, p: &str) -> (r: bool)
    ensures
        r == has_prefix(s@, p@),
{
    let n = s.unicode_len();
    let m = p.unicode_len();
    if m > n {
        return false;
    }
    let mut i: usize = 0;
    while i < m
        invariant
            n == s@.len(),
            m == p@.len(),
            m <= n,
            i <= m,
            forall|j: int| 0 <= j < i ==> s@[j] == p@[j],
        decreases m - i,
    {
        if s.get_char(i) != p.get_char(i) {
            assert(s@.subrange(0, m as int)[i as int] != p@[i as int]);
            return false;
        }
        i = i + 1;
    }
    assert(s@.subrange(0, m as int) =~= p@);
    true
}

/// The first `://` at or after `from`, or the length of `s`.
fn find_separator(s: &str, n: usize) -> (r: usize)
    requires
        n == s@.len(),
    ensures
        r == first_separator_from(s@, 0),
{
    let mut i: usize = 0;
    while i < n
        invariant
            n == s@.len(),
            i <= n,
            first_separator_from(s@, 0) == first_separator_from(s@, i as int),
        decreases n - i,
    {
        if n - i >= 3 && s.get_char(i) == ':' && s.get_char(i + 1) == '/' && s.get_char(i + 2)
            == '/' {
            return i;
        }
        i = i + 1;
    }
    i
}

/// The first `c` at or after `from`, or the length of `s`.
fn find_char(s: &str, n: usize, c: char, from: usize) -> (r: usize)
    requires
        n == s@.len(),
        from <= n,
    ensures
        r == first_char_from(s@, c, from as int),
        from <= r <= n,
{
    let mut i: usize = from;
    while i < n
        invariant
            n == s@.len(),
            from <= i <= n,
            first_char_from(s@, c, from as int) == first_char_from(s@, c, i as int),
        decreases n - i,
    {
        if s.get_char(i) == c {
            return i;
        }
        i = i + 1;
    }
    i
}

/// The last `c` in `lo..hi`, if there is one.
fn find_last_char(s: &str, c: char, lo: usize, hi: usize) -> (r: Option<usize>)
    requires
        lo <= hi <= s@.len(),
    ensures
        match r {
            Some(k) => lo <= k < hi && k as int == last_char_between(s@, c, lo as int, hi as int),
            None => last_char_between(s@, c, lo as int, hi as int) == -1,
        },
{
    let mut j: usize = hi;
    while j > lo
        invariant
            lo <= j <= hi <= s@.len(),
            last_char_between(s@, c, lo as int, hi as int) == last_char_between(
                s@,
                c,
                lo as int,
                j as int,
            ),
        decreases j - lo,
    {
        if s.get_char(j - 1) == c {
            return Some(j - 1);
        }
        j = j - 1;
    }
    None
}

/// Reads the characters `from..to` of `s` as a port number.
fn parse_port_between(s: &str, from: usize, to: usize) -> (r: Option<u16>)
    requires
        from <= to <= s@.len(),
    ensures
        r == parse_port(s@.subrange(from as int, to as int)),
{
    let ghost t = s@.subrange(from as int, to as int);
    let mut start: usize = from;
    if from < to && s.get_char(from) == '+' {
        start = from + 1;
    }
    let ghost d = s@.subrange(start as int, to as int);
    assert(d =~= unsigned_digits(t));
    if start == to {
        return None;
    }
    let mut value: u32 = 0;
    let mut i: usize = start;
    while i < to
        invariant
            from <= start <= i <= to <= s@.len(),
            t == s@.subrange(from as int, to as int),
            d == s@.subrange(start as int, to as int),
            d == unsigned_digits(t),
            start < to,
            all_digits(d.subrange(0, i - start)),
            value as nat == digits_value(d.subrange(0, i - start)),
            value <= u16::MAX,
        decreases to - i,
    {
        let c = s.get_char(i);
        let ghost k = i - start;
        assert(d.subrange(0, k + 1).drop_last() =~= d.subrange(0, k));
        assert(d.subrange(0, k + 1).last() == c);
        if c < '0' || c > '9' {
            assert(d[k] == c);
            return None;
        }
        let digit = (c as u32) - ('0' as u32);
        let next = value * 10 + digit;
        assert(next as nat == digits_value(d.subrange(0, k + 1)));
        if next > 65535 {
            proof {
                if all_digits(d) {
                    lemma_digits_value_prefix(d, k + 1);
                }
            }
            return None;
        }
        assert forall|j: int| 0 <= j < k + 1 implies is_ascii_digit(
            #[trigger] d.subrange(0, k + 1)[j],
        ) by {
            if j < k {
                assert(d.subrange(0, k + 1)[j] == d.subrange(0, k)[j]);
            }
        }
        value = next;
        i = i + 1;
    }
    assert(d.subrange(0, d.len() as int) =~= d);
    Some(value as u16)
}

/// A number written with more digits is at least the number its first
/// digits write.
proof fn lemma_digits_value_prefix(d: Seq<char>, k: int)
    requires
        0 <= k <= d.len(),
        all_digits(d),
    ensures
        digits_value(d.subrange(0, k)) <= digits_value(d),
    decreases d.len() - k,
{
    if k < d.len() {
        let e = d.subrange(0, k + 1);
        assert(e.drop_last() =~= d.subrange(0, k));
        assert(is_ascii_digit(d[k]));
        assert(e.last() == d[k]);
        lemma_digits_value_prefix(d, k + 1);
    } else {
        assert(d.subrange(0, k) =~= d);
    }
}

impl ServiceAddress {
    /// Wraps the given text as an address.
    pub fn from_string(address: String) -> (r: ServiceAddress)
        ensures
            r@ == address@,
    {
        ServiceAddress::String(address)
    }

    /// The address as text.
    pub fn as_str(&self) -> (r: &str)
        ensures
            r@ == self@,
    {
        match self {
            ServiceAddress::String(addr) => addr.as_str(),
        }
    }

    /// The port number written after the last `:` of the host part (the text
    /// after the first `://`, up to the first `/`), or `None` where there is
    /// no such `:` or what follows it is not a 16-bit number.
    pub fn extract_port(&self) -> (r: Option<u16>)
        ensures
            r == port_of(self@),
    {
        let s = self.as_str();
        let n = s.unicode_len();
        let k = find_separator(s, n);
        proof {
            lemma_first_separator_found(s@, 0);
        }
        let start = if k < n {
            k + 3
        } else {
            0
        };
        let end = find_char(s, n, '/', start);
        match find_last_char(s, ':', start, end) {
            None => None,
            Some(colon) => parse_port_between(s, colon + 1, end),
        }
    }

    /// Whether the address begins with `https://`, `wss://`, `ftps://`,
    /// `sftp://` or `ssh://`.
    pub fn is_secure(&self) -> (r: bool)
        ensures
            r == secure_address(self@),
    {
        let s = self.as_str();
        starts_with_chars(s, "https://") || starts_with_chars(s, "wss://") || starts_with_chars(
            s,
            "ftps://",
        ) || starts_with_chars(s, "sftp://") || starts_with_chars(s, "ssh://")
    }
}

/// A separator index below the length is where a separator stands.
proof fn lemma_first_separator_found(s: Seq<char>, from: int)
    requires
        0 <= from,
    ensures
        first_separator_from(s, from) < s.len() ==> scheme_separator_at(
            s,
            first_separator_from(s, from),
        ),
        from <= s.len() ==> from <= first_separator_from(s, from) <= s.len(),
    decreases s.len() - from,
{
    if from < s.len() && !scheme_separator_at(s, from) {
        lemma_first_separator_found(s, from + 1);
    }
}

} // verus!
