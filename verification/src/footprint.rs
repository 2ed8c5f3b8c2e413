//! The witness for the hot budget.
//!
//! The arena can promise what it *allocates*. Whether those bytes are
//! physically resident is the kernel's call — it may compress or swap frames
//! like any anonymous memory. So residency is never asserted; it is measured
//! with the same instrument the user has. On Linux that is
//! `/proc/self/status`: `RssAnon + RssShmem` (anonymous resident), with
//! `RssFile` reported separately so a page-cache leak is visible.
//!
//! A field the platform cannot report is `None`. It is never zero.

use vstd::prelude::*;
use vstd::string::*;

verus! {

/// What the operating system says of the process's memory.
#[derive(Debug, Clone, Copy, PartialEq, Eq)]
pub struct Footprint {
    /// Bytes the OS attributes to this process as its memory footprint.
    /// macOS: phys_footprint. Linux: RssAnon + RssShmem.
    pub footprint: u64,
    /// Bytes of this process currently held compressed by the OS (macOS
    /// memory compressor). `None` where the platform does not report it.
    pub compressed: Option<u64>,
    /// Resident file-backed pages (Linux RssFile). Nonzero growth here would
    /// mean the page cache is caching the pool behind the arena.
    pub file_resident: Option<u64>,
    /// Total resident set including file-backed pages (macOS resident_size,
    /// Linux VmRSS). phys_footprint on macOS excludes clean file-backed
    /// pages, so a mapped file can look "free" there; this number does not
    /// let it.
    pub resident: Option<u64>,
    /// Where the numbers came from, for the report.
    pub source: &'static str,
}

/// The four numbers read from a status file, in KiB, as far as they are
/// there.
#[derive(Debug, Clone, Copy, PartialEq, Eq, Structural)]
pub struct StatusKib {
    pub anon: Option<u64>,
    pub shmem: Option<u64>,
    pub file: Option<u64>,
    pub rss: Option<u64>,
}

// ---- lines --------------------------------------------------------------

/// A white space character of two bytes in UTF-8: U+0085 or U+00A0.
pub open spec fn is_space2(a: u8, b: u8) -> bool {
    a == 0xC2 && (b == 0x85 || b == 0xA0)
}

/// A white space character of three bytes in UTF-8: U+1680, U+2000 to U+200A,
/// U+2028, U+2029, U+202F, U+205F or U+3000.
pub open spec fn is_space3(a: u8, b: u8, c: u8) -> bool {
    ||| a == 0xE1 && b == 0x9A && c == 0x80
    ||| a == 0xE2 && b == 0x80 && (0x80 <= c <= 0x8A || c == 0xA8 || c == 0xA9 || c == 0xAF)
    ||| a == 0xE2 && b == 0x81 && c == 0x9F
    ||| a == 0xE3 && b == 0x80 && c == 0x80
}

/// How many bytes the white space character at `at` takes in UTF-8; zero if
/// there is none. White space is what Unicode calls so.
pub open spec fn space_at(line: Seq<u8>, at: int) -> int {
    if 9 <= line[at] <= 13 || line[at] == 32 {
        1
    } else if at + 1 < line.len() && is_space2(line[at], line[at + 1]) {
        2
    } else if at + 2 < line.len() && is_space3(line[at], line[at + 1], line[at + 2]) {
        3
    } else {
        0
    }
}

/// Where the line that starts at `from` ends: at the next line feed, or at
/// the end.
pub open spec fn line_end(text: Seq<u8>, from: int) -> int
    decreases text.len() - from,
{
    if from >= text.len() || from < 0 {
        text.len() as int
    } else if text[from] == 10 {
        from
    } else {
        line_end(text, from + 1)
    }
}

/// The first place from `at` on that is white space (`spaces`) or is not.
pub open spec fn scan(line: Seq<u8>, at: int, spaces: bool) -> int
    decreases line.len() - at,
{
    if at >= line.len() || at < 0 {
        line.len() as int
    } else if (space_at(line, at) > 0) == spaces {
        at
    } else if spaces {
        scan(line, at + 1, spaces)
    } else {
        scan(line, at + space_at(line, at), spaces)
    }
}

/// The second word of a line; empty if there is none.
pub open spec fn second_word(line: Seq<u8>) -> Seq<u8> {
    let a = scan(line, 0, false);
    let b = scan(line, a, true);
    let c = scan(line, b, false);
    let d = scan(line, c, true);
    line.subrange(c, d)
}

/// All bytes are decimal digits.
pub open spec fn all_digits(w: Seq<u8>) -> bool {
    forall|i: int| 0 <= i < w.len() ==> 48 <= #[trigger] w[i] <= 57
}

/// The number that digits denote.
pub open spec fn value_of(w: Seq<u8>) -> int
    decreases w.len(),
{
    if w.len() == 0 {
        0
    } else {
        10 * value_of(w.drop_last()) + (w.last() - 48)
    }
}

/// A word without its plus sign, if it has one.
pub open spec fn unsigned(w: Seq<u8>) -> Seq<u8> {
    if w.len() > 0 && w[0] == 43 {
        w.skip(1)
    } else {
        w
    }
}

/// The number a word denotes: digits, perhaps after a plus sign, that fit 64
/// bits.
pub open spec fn number(w: Seq<u8>) -> Option<u64> {
    let d = unsigned(w);
    if d.len() > 0 && all_digits(d) && value_of(d) <= u64::MAX {
        Some(value_of(d) as u64)
    } else {
        None
    }
}

/// The line starts with these bytes.
pub open spec fn starts_with(line: Seq<u8>, prefix: Seq<u8>) -> bool {
    line.len() >= prefix.len() && line.subrange(0, prefix.len() as int) == prefix
}

/// `RssAnon:`
pub const RSS_ANON: [u8; 8] = [82, 115, 115, 65, 110, 111, 110, 58];

/// `RssShmem:`
pub const RSS_SHMEM: [u8; 9] = [82, 115, 115, 83, 104, 109, 101, 109, 58];

/// `RssFile:`
pub const RSS_FILE: [u8; 8] = [82, 115, 115, 70, 105, 108, 101, 58];

/// `VmRSS:`
pub const VM_RSS: [u8; 6] = [86, 109, 82, 83, 83, 58];

impl StatusKib {
    /// Nothing read yet.
    pub open spec fn none() -> Self {
        StatusKib { anon: None, shmem: None, file: None, rss: None }
    }

    /// One more line read. Of several lines with the same name the last one
    /// counts.
    pub open spec fn with_line(self, line: Seq<u8>) -> Self {
        let n = number(second_word(line));
        if starts_with(line, RSS_ANON@) {
            StatusKib { anon: n, ..self }
        } else if starts_with(line, RSS_SHMEM@) {
            StatusKib { shmem: n, ..self }
        } else if starts_with(line, RSS_FILE@) {
            StatusKib { file: n, ..self }
        } else if starts_with(line, VM_RSS@) {
            StatusKib { rss: n, ..self }
        } else {
            self
        }
    }

    /// The lines from `from` on read.
    pub open spec fn with_text(self, text: Seq<u8>, from: int) -> Self
        decreases text.len() + 1 - from,
    {
        if from >= text.len() || from < 0 {
            self
        } else {
            proof {
                lemma_line_end(text, from);
            }
            let end = line_end(text, from);
            self.with_line(text.subrange(from, end)).with_text(text, end + 1)
        }
    }

    /// The sizes in bytes fit 64 bits.
    pub open spec fn fits(self) -> bool {
        &&& self.anon matches Some(v) ==> v * 1024 <= u64::MAX
        &&& self.shmem matches Some(v) ==> v * 1024 <= u64::MAX
        &&& self.file matches Some(v) ==> v * 1024 <= u64::MAX
        &&& self.rss matches Some(v) ==> v * 1024 <= u64::MAX
        &&& self.anon matches Some(a) ==> self.shmem matches Some(s) ==> (a + s) * 1024 <= u64::MAX
    }
}

/// KiB as bytes.
pub open spec fn in_bytes(kib: Option<u64>) -> Option<u64> {
    match kib {
        Some(v) => Some((v * 1024) as u64),
        None => None,
    }
}

fn to_bytes(kib: Option<u64>) -> (b: Option<u64>)
    requires
        kib matches Some(v) ==> v * 1024 <= u64::MAX,
    ensures
        b == in_bytes(kib),
{
    match kib {
        Some(v) => Some(v * 1024),
        None => None,
    }
}

/// A line ends where it ends.
pub proof fn lemma_line_end(text: Seq<u8>, from: int)
    requires
        0 <= from <= text.len(),
    ensures
        from <= line_end(text, from) <= text.len(),
    decreases text.len() - from,
{
    if from < text.len() && text[from] != 10 {
        lemma_line_end(text, from + 1);
    }
}

/// Scanning goes forward.
proof fn lemma_scan(line: Seq<u8>, at: int, spaces: bool)
    requires
        0 <= at <= line.len(),
    ensures
        at <= scan(line, at, spaces) <= line.len(),
    decreases line.len() - at,
{
    if at < line.len() && (space_at(line, at) > 0) != spaces {
        if spaces {
            lemma_scan(line, at + 1, spaces);
        } else {
            lemma_scan(line, at + space_at(line, at), spaces);
        }
    }
}

/// How many bytes the white space character at `at` takes, if there is one.
fn space_here(line: &[u8], at: usize) -> (k: usize)
    requires
        at < line@.len(),
    ensures
        k == space_at(line@, at as int),
        at + k <= line@.len(),
{
    let n: usize = line.len() - at;
    let a: u8 = line[at];
    if (9 <= a && a <= 13) || a == 32 {
        return 1;
    }
    if n < 2 {
        return 0;
    }
    let b: u8 = line[at + 1];
    if a == 0xC2 && (b == 0x85 || b == 0xA0) {
        return 2;
    }
    if n < 3 {
        return 0;
    }
    let c: u8 = line[at + 2];
    if (a == 0xE1 && b == 0x9A && c == 0x80) || (a == 0xE2 && b == 0x80 && ((0x80 <= c && c
        <= 0x8A) || c == 0xA8 || c == 0xA9 || c == 0xAF)) || (a == 0xE2 && b == 0x81 && c == 0x9F)
        || (a == 0xE3 && b == 0x80 && c == 0x80) {
        return 3;
    }
    0
}

fn find(line: &[u8], from: usize, spaces: bool) -> (at: usize)
    requires
        from <= line@.len(),
    ensures
        at == scan(line@, from as int, spaces),
        from <= at <= line@.len(),
{
    proof {
        lemma_scan(line@, from as int, spaces);
    }
    let mut at: usize = from;
    while at < line.len()
        invariant
            from <= at <= line@.len(),
            scan(line@, from as int, spaces) == scan(line@, at as int, spaces),
        decreases line@.len() - at,
    {
        let k: usize = space_here(line, at);
        if (k > 0) == spaces {
            return at;
        }
        at = if spaces {
            at + 1
        } else {
            at + k
        };
    }
    at
}

/// A longer run of digits denotes no smaller number.
proof fn lemma_value_prefix(w: Seq<u8>, n: int)
    requires
        all_digits(w),
        0 <= n <= w.len(),
    ensures
        0 <= value_of(w.take(n)) <= value_of(w),
    decreases w.len(),
{
    if n == w.len() {
        assert(w.take(n) =~= w);
        if w.len() > 0 {
            assert(all_digits(w.drop_last()));
            lemma_value_prefix(w.drop_last(), n - 1);
        }
    } else {
        assert(all_digits(w.drop_last()));
        assert(w.drop_last().take(n) =~= w.take(n));
        lemma_value_prefix(w.drop_last(), n);
    }
}

/// Read a number.
fn parse_number(w: &[u8]) -> (r: Option<u64>)
    ensures
        r == number(w@),
{
    let n: usize = w.len();
    let mut start: usize = 0;
    if n > 0 && w[0] == 43 {
        start = 1;
    }
    let ghost d = unsigned(w@);
    proof {
        if start == 0 {
            assert(d =~= w@);
        }
    }
    if start == n {
        return None;
    }
    let mut v: u64 = 0;
    let mut i: usize = start;
    while i < n
        invariant
            start <= i <= n,
            start <= 1,
            n == w@.len(),
            d == unsigned(w@),
            d.len() == n - start,
            d.len() > 0,
            forall|k: int| 0 <= k < d.len() ==> d[k] == w@[k + start],
            all_digits(d.take(i - start)),
            v == value_of(d.take(i - start)),
        decreases n - i,
    {
        let b: u8 = w[i];
        let ghost k = i - start;
        proof {
            assert(d.take(k + 1).drop_last() =~= d.take(k));
            assert(d[k] == b);
        }
        if b < 48 || b > 57 {
            assert(!all_digits(d));
            return None;
        }
        let x: u64 = (b - 48) as u64;
        proof {
            assert(all_digits(d.take(k + 1))) by {
                assert forall|j: int| 0 <= j < k + 1 implies 48 <= #[trigger] d.take(k + 1)[j]
                    <= 57 by {
                    if j < k {
                        assert(d.take(k)[j] == d[j]);
                    }
                }
            }
            if all_digits(d) {
                lemma_value_prefix(d, k + 1);
            }
        }
        if v > (u64::MAX - x) / 10 {
            return None;
        }
        v = 10 * v + x;
        i = i + 1;
    }
    assert(d.take(n - start) =~= d);
    Some(v)
}

/// Does a line start with these bytes?
fn has_prefix(line: &[u8], prefix: &[u8]) -> (b: bool)
    ensures
        b == starts_with(line@, prefix@),
{
    let n: usize = prefix.len();
    if line.len() < n {
        return false;
    }
    let mut i: usize = 0;
    while i < n
        invariant
            i <= n,
            n == prefix@.len(),
            n <= line@.len(),
            forall|k: int| 0 <= k < i ==> line@[k] == prefix@[k],
        decreases n - i,
    {
        if line[i] != prefix[i] {
            assert(line@.subrange(0, n as int)[i as int] != prefix@[i as int]);
            return false;
        }
        i = i + 1;
    }
    assert(line@.subrange(0, n as int) =~= prefix@);
    true
}

/// Read one line.
fn read_line(s: StatusKib, line: &[u8]) -> (r: StatusKib)
    ensures
        r == s.with_line(line@),
{
    let a: usize = find(line, 0, false);
    let b: usize = find(line, a, true);
    let c: usize = find(line, b, false);
    let d: usize = find(line, c, true);
    let n = parse_number(&line[c..d]);
    let anon = RSS_ANON;
    let shmem = RSS_SHMEM;
    let file = RSS_FILE;
    let rss = VM_RSS;
    if has_prefix(line, anon.as_slice()) {
        StatusKib { anon: n, ..s }
    } else if has_prefix(line, shmem.as_slice()) {
        StatusKib { shmem: n, ..s }
    } else if has_prefix(line, file.as_slice()) {
        StatusKib { file: n, ..s }
    } else if has_prefix(line, rss.as_slice()) {
        StatusKib { rss: n, ..s }
    } else {
        s
    }
}

/// Read a status file.
pub fn parse_status(text: &[u8]) -> (s: StatusKib)
    ensures
        s == StatusKib::none().with_text(text@, 0),
{
    let n: usize = text.len();
    let mut s = StatusKib { anon: None, shmem: None, file: None, rss: None };
    let mut from: usize = 0;
    while from < n
        invariant
            n == text@.len(),
            from <= n,
            StatusKib::none().with_text(text@, 0) == s.with_text(text@, from as int),
        decreases n - from,
    {
        let mut end: usize = from;
        proof {
            lemma_line_end(text@, from as int);
        }
        while end < n && text[end] != 10
            invariant
                n == text@.len(),
                from <= end <= n,
                line_end(text@, from as int) == line_end(text@, end as int),
            decreases n - end,
        {
            end = end + 1;
        }
        s = read_line(s, &text[from..end]);
        if end == n {
            from = n;
            assert(s.with_text(text@, n + 1) == s);
        } else {
            from = end + 1;
        }
    }
    s
}

impl StatusKib {
    /// Do the sizes in bytes fit 64 bits?
    pub fn sizes_fit(&self) -> (b: bool)
        ensures
            b == self.fits(),
    {
        let cap: u64 = u64::MAX / 1024;
        let anon: u64 = match self.anon {
            Some(v) => v,
            None => 0,
        };
        let shmem: u64 = match self.shmem {
            Some(v) => v,
            None => 0,
        };
        let file: u64 = match self.file {
            Some(v) => v,
            None => 0,
        };
        let rss: u64 = match self.rss {
            Some(v) => v,
            None => 0,
        };
        anon <= cap && shmem <= cap && file <= cap && rss <= cap && (self.anon.is_none()
            || self.shmem.is_none() || anon + shmem <= cap)
    }
}

impl Footprint {
    /// The footprint a status file reports, or why it reports none.
    pub fn from_status(s: StatusKib) -> (r: Result<Footprint, String>)
        requires
            s.fits(),
        ensures
            match r {
                Ok(f) => {
                    &&& s.anon is Some
                    &&& s.shmem is Some
                    &&& f.footprint == (s.anon->0 + s.shmem->0) * 1024
                    &&& f.compressed is None
                    &&& f.file_resident == in_bytes(s.file)
                    &&& f.resident == in_bytes(s.rss)
                    &&& f.source@ == "/proc/self/status RssAnon+RssShmem"@
                },
                Err(t) => {
                    &&& s.anon is None || s.shmem is None
                    &&& t@
                        == "RssAnon/RssShmem missing from /proc/self/status (kernel < 4.5?)"@
                },
            },
    {
        match (s.anon, s.shmem) {
            (Some(a), Some(m)) => Ok(
                Footprint {
                    footprint: a * 1024 + m * 1024,
                    compressed: None,
                    file_resident: to_bytes(s.file),
                    resident: to_bytes(s.rss),
                    source: "/proc/self/status RssAnon+RssShmem",
                },
            ),
            _ => Err(
                String::from_str(
                    "RssAnon/RssShmem missing from /proc/self/status (kernel < 4.5?)",
                ),
            ),
        }
    }
}

/// The larger of the largest footprint so far and another one.
pub open spec fn larger_of(max: Option<Footprint>, f: Footprint) -> Footprint {
    match max {
        Some(had) => if had.footprint >= f.footprint {
            had
        } else {
            f
        },
        None => f,
    }
}

/// It is one of the two and no smaller than either, and the one so far where
/// they are as large.
pub proof fn law_the_larger_footprint_is_kept(had: Footprint, f: Footprint)
    ensures
        larger_of(Some(had), f).footprint >= had.footprint,
        larger_of(Some(had), f).footprint >= f.footprint,
        larger_of(Some(had), f) == had || larger_of(Some(had), f) == f,
        had.footprint == f.footprint ==> larger_of(Some(had), f) == had,
        larger_of(None, f) == f,
{
}

/// The larger of the largest footprint so far and another one; a tie keeps
/// the first.
pub fn larger(max: Option<Footprint>, f: Footprint) -> (m: Footprint)
    ensures
        m == larger_of(max, f),
{
    match max {
        Some(had) => {
            if had.footprint >= f.footprint {
                had
            } else {
                f
            }
        },
        None => f,
    }
}

// ---- what is read -------------------------------------------------------

/// A number in decimal, as bytes.
pub open spec fn ascii_dec(n: nat) -> Seq<u8> {
    Seq::new(crate::text::dec(n).len(), |i: int| crate::text::dec(n)[i] as u8)
}

proof fn lemma_value_of_dec(s: Seq<char>, b: Seq<u8>)
    requires
        crate::text::digits_of(s, 10),
        b.len() == s.len(),
        forall|i: int| 0 <= i < s.len() ==> #[trigger] b[i] == s[i] as u8,
    ensures
        value_of(b) == crate::text::denoted(s, 10),
        all_digits(b),
    decreases s.len(),
{
    assert forall|i: int| 0 <= i < b.len() implies 48 <= #[trigger] b[i] <= 57 by {
        assert(0 <= crate::text::digit_value(s[i]) < 10);
        assert(b[i] == s[i] as u8);
    }
    if s.len() > 0 {
        let t = s.drop_last();
        let c = b.drop_last();
        assert forall|i: int| 0 <= i < t.len() implies 0 <= crate::text::digit_value(
            #[trigger] t[i],
        ) < 10 by {
            assert(t[i] == s[i]);
        }
        assert forall|i: int| 0 <= i < t.len() implies #[trigger] c[i] == t[i] as u8 by {
            assert(c[i] == b[i]);
        }
        lemma_value_of_dec(t, c);
        let k = s.len() - 1;
        assert(0 <= crate::text::digit_value(s[k]) < 10);
        assert(b[k] == s[k] as u8);
    }
}

/// A number that was written in decimal is read as that number, with or
/// without a plus sign; nothing is read where it does not fit 64 bits.
pub proof fn law_numbers_read_back(n: nat)
    ensures
        n <= u64::MAX ==> number(ascii_dec(n)) == Some(n as u64) && number(
            seq![43u8] + ascii_dec(n),
        ) == Some(n as u64),
        n > u64::MAX ==> number(ascii_dec(n)) is None && number(seq![43u8] + ascii_dec(n)) is None,
        number(Seq::empty()) is None,
        number(seq![43u8]) is None,
{
    let s = crate::text::dec(n);
    let b = ascii_dec(n);
    crate::text::law_numerals_denote(n, 10);
    lemma_value_of_dec(s, b);
    assert(48 <= b[0] <= 57);
    let p = seq![43u8] + b;
    assert(p[0] == 43);
    assert(p.skip(1) =~= b);
    assert(seq![43u8].skip(1) =~= Seq::empty());
}

/// A word with anything else in it than digits is no number.
pub proof fn law_other_words_are_no_numbers(w: Seq<u8>, i: int)
    requires
        0 < i < w.len(),
        !(48 <= w[i] <= 57),
    ensures
        number(w) is None,
{
    if w[0] == 43 {
        assert(w.skip(1)[i - 1] == w[i]);
    }
}

/// Plain white space: one byte of it.
pub open spec fn plain_space(b: u8) -> bool {
    9 <= b <= 13 || b == 32
}

/// Bytes of plain words: neither white space nor part of a longer character.
pub open spec fn plain(w: Seq<u8>) -> bool {
    forall|i: int| 0 <= i < w.len() ==> (#[trigger] w[i]) < 128 && !plain_space(w[i])
}

/// Only plain white space.
pub open spec fn blank(w: Seq<u8>) -> bool {
    forall|i: int| 0 <= i < w.len() ==> plain_space(#[trigger] w[i])
}

/// Scanning for white space passes a plain word.
proof fn lemma_scan_word(line: Seq<u8>, at: int, end: int)
    requires
        0 <= at <= end <= line.len(),
        forall|i: int| at <= i < end ==> (#[trigger] line[i]) < 128 && !plain_space(line[i]),
        end < line.len() ==> plain_space(line[end]),
    ensures
        scan(line, at, true) == end,
    decreases end - at,
{
    if at < end {
        assert(space_at(line, at) == 0);
        lemma_scan_word(line, at + 1, end);
    } else if at < line.len() {
        assert(space_at(line, at) == 1);
    }
}

/// Scanning for a word passes plain white space.
proof fn lemma_scan_blank(line: Seq<u8>, at: int, end: int)
    requires
        0 <= at <= end <= line.len(),
        forall|i: int| at <= i < end ==> plain_space(#[trigger] line[i]),
        end < line.len() ==> line[end] < 128 && !plain_space(line[end]),
    ensures
        scan(line, at, false) == end,
    decreases end - at,
{
    if at < end {
        assert(space_at(line, at) == 1);
        lemma_scan_blank(line, at + 1, end);
    } else if at < line.len() {
        assert(space_at(line, at) == 0);
    }
}

/// The second word of a line is the word behind the first white space,
/// whatever comes after it.
pub proof fn law_the_second_word_is_read(a: Seq<u8>, gap: Seq<u8>, w: Seq<u8>, rest: Seq<u8>)
    requires
        a.len() > 0,
        plain(a),
        gap.len() > 0,
        blank(gap),
        w.len() > 0,
        plain(w),
        rest.len() > 0 ==> plain_space(rest[0]),
    ensures
        second_word(a + gap + w + rest) == w,
{
    let line = a + gap + w + rest;
    let i = a.len() as int;
    let j = i + gap.len();
    let k = j + w.len();
    assert forall|x: int| 0 <= x < i implies (#[trigger] line[x]) < 128 && !plain_space(
        line[x],
    ) by {
        assert(line[x] == a[x]);
    }
    assert forall|x: int| i <= x < j implies plain_space(#[trigger] line[x]) by {
        assert(line[x] == gap[x - i]);
    }
    assert forall|x: int| j <= x < k implies (#[trigger] line[x]) < 128 && !plain_space(
        line[x],
    ) by {
        assert(line[x] == w[x - j]);
    }
    if rest.len() > 0 {
        assert(line[k] == rest[0]);
    }
    assert(line[0] < 128 && !plain_space(line[0]));
    assert(plain_space(line[i]));
    assert(line[j] < 128 && !plain_space(line[j]));
    lemma_scan_blank(line, 0, 0);
    lemma_scan_word(line, 0, i);
    lemma_scan_blank(line, i, j);
    lemma_scan_word(line, j, k);
    assert(line.subrange(j, k) =~= w);
}

/// A line sets the number it names and no other: `RssAnon:`, `RssShmem:`,
/// `RssFile:` and `VmRSS:`. Any other line sets none.
pub proof fn law_a_line_sets_what_it_names(s: StatusKib, line: Seq<u8>)
    ensures
        ({
            let t = s.with_line(line);
            let n = number(second_word(line));
            let anon = starts_with(line, seq![82u8, 115, 115, 65, 110, 111, 110, 58]);
            let shmem = starts_with(line, seq![82u8, 115, 115, 83, 104, 109, 101, 109, 58]);
            let file = starts_with(line, seq![82u8, 115, 115, 70, 105, 108, 101, 58]);
            let rss = starts_with(line, seq![86u8, 109, 82, 83, 83, 58]);
            &&& t.anon == if anon {
                n
            } else {
                s.anon
            }
            &&& t.shmem == if shmem {
                n
            } else {
                s.shmem
            }
            &&& t.file == if file {
                n
            } else {
                s.file
            }
            &&& t.rss == if rss {
                n
            } else {
                s.rss
            }
        }),
{
    assert(RSS_ANON@ =~= seq![82u8, 115, 115, 65, 110, 111, 110, 58]);
    assert(RSS_SHMEM@ =~= seq![82u8, 115, 115, 83, 104, 109, 101, 109, 58]);
    assert(RSS_FILE@ =~= seq![82u8, 115, 115, 70, 105, 108, 101, 58]);
    assert(VM_RSS@ =~= seq![86u8, 109, 82, 83, 83, 58]);
    let a = seq![82u8, 115, 115, 65, 110, 111, 110, 58];
    let b = seq![82u8, 115, 115, 83, 104, 109, 101, 109, 58];
    let c = seq![82u8, 115, 115, 70, 105, 108, 101, 58];
    let d = seq![86u8, 109, 82, 83, 83, 58];
    if starts_with(line, a) {
        assert(line.subrange(0, 8)[3] == line[3] && a[3] == 65);
        assert(line.subrange(0, 8)[0] == line[0] && a[0] == 82);
    }
    if starts_with(line, b) {
        assert(line.subrange(0, 9)[3] == line[3] && b[3] == 83);
        assert(line.subrange(0, 9)[0] == line[0] && b[0] == 82);
    }
    if starts_with(line, c) {
        assert(line.subrange(0, 8)[3] == line[3] && c[3] == 70);
        assert(line.subrange(0, 8)[0] == line[0] && c[0] == 82);
    }
    if starts_with(line, d) {
        assert(line.subrange(0, 6)[0] == line[0] && d[0] == 86);
    }
}

/// Where the first line ends.
proof fn lemma_first_line(text: Seq<u8>, from: int, end: int)
    requires
        0 <= from <= end <= text.len(),
        forall|i: int| from <= i < end ==> #[trigger] text[i] != 10,
        end < text.len() ==> text[end] == 10,
    ensures
        line_end(text, from) == end,
    decreases end - from,
{
    if from < end {
        lemma_first_line(text, from + 1, end);
    }
}

/// What was read before does not matter for where lines end.
proof fn lemma_line_end_shift(a: Seq<u8>, b: Seq<u8>, from: int)
    requires
        0 <= from <= b.len(),
    ensures
        line_end(a + b, a.len() + from) == a.len() + line_end(b, from),
    decreases b.len() - from,
{
    if from < b.len() {
        assert((a + b)[a.len() + from] == b[from]);
        if b[from] != 10 {
            lemma_line_end_shift(a, b, from + 1);
        }
    }
}

/// Nor for what is read from there on.
proof fn lemma_with_text_shift(s: StatusKib, a: Seq<u8>, b: Seq<u8>, from: int)
    requires
        0 <= from,
    ensures
        s.with_text(a + b, a.len() + from) == s.with_text(b, from),
    decreases b.len() + 1 - from,
{
    if from < b.len() {
        lemma_line_end_shift(a, b, from);
        lemma_line_end(b, from);
        let end = line_end(b, from);
        assert((a + b).subrange(a.len() + from, a.len() + end) =~= b.subrange(from, end));
        lemma_with_text_shift(s.with_line(b.subrange(from, end)), a, b, end + 1);
    }
}

/// A text is read line by line: first its first line, then what is behind the
/// line feed.
pub proof fn law_texts_are_read_line_by_line(s: StatusKib, line: Seq<u8>, rest: Seq<u8>)
    requires
        forall|i: int| 0 <= i < line.len() ==> #[trigger] line[i] != 10,
    ensures
        s.with_text(line.push(10) + rest, 0) == s.with_line(line).with_text(rest, 0),
        line.len() > 0 ==> s.with_text(line, 0) == s.with_line(line),
{
    let a = line.push(10);
    let text = a + rest;
    let n = line.len() as int;
    assert forall|i: int| 0 <= i < n implies #[trigger] text[i] != 10 by {
        assert(text[i] == line[i]);
    }
    assert(text[n] == 10);
    lemma_first_line(text, 0, n);
    assert(text.subrange(0, n) =~= line);
    lemma_with_text_shift(s.with_line(line), a, rest, 0);
    if n > 0 {
        lemma_first_line(line, 0, n);
        assert(line.subrange(0, n) =~= line);
        assert(s.with_line(line).with_text(line, n + 1) == s.with_line(line));
    }
}

/// The characters that Unicode calls white space.
pub open spec fn white_space(code: int) -> bool {
    ||| 9 <= code <= 13
    ||| code == 0x20
    ||| code == 0x85
    ||| code == 0xA0
    ||| code == 0x1680
    ||| 0x2000 <= code <= 0x200A
    ||| code == 0x2028
    ||| code == 0x2029
    ||| code == 0x202F
    ||| code == 0x205F
    ||| code == 0x3000
}

/// White space is recognised as what Unicode calls so, in every length that
/// UTF-8 has for it: one, two and three bytes.
pub proof fn law_white_space_is_unicodes(line: Seq<u8>, at: int)
    requires
        0 <= at < line.len(),
    ensures
        line[at] < 0x80 ==> (space_at(line, at) == 1 <==> white_space(line[at] as int)) && (
        space_at(line, at) == 0 <==> !white_space(line[at] as int)),
        at + 1 < line.len() && 0xC2 <= line[at] <= 0xDF && 0x80 <= line[at + 1] <= 0xBF ==> {
            let code = (line[at] - 0xC0) * 64 + (line[at + 1] - 0x80);
            space_at(line, at) == if white_space(code) {
                2int
            } else {
                0
            }
        },
        at + 2 < line.len() && 0xE0 <= line[at] <= 0xEF && 0x80 <= line[at + 1] <= 0xBF && 0x80
            <= line[at + 2] <= 0xBF && (line[at] == 0xE0 ==> line[at + 1] >= 0xA0) ==> {
            let code = (line[at] - 0xE0) * 4096 + (line[at + 1] - 0x80) * 64 + (line[at + 2]
                - 0x80);
            space_at(line, at) == if white_space(code) {
                3int
            } else {
                0
            }
        },
{
}

} // verus!
