//! Reading CIDR lists: one prefix or bare address per line, blank lines and
//! `#` comment lines skipped, an inline `# comment` kept, prefixes put in
//! canonical form.
use vstd::prelude::*;
use crate::prefix::{Prefix, IpPrefix, trunc};
use crate::types::{ParsedCidr, ExclusionEntry, PreferredEntry, InputEntry};
use crate::error::{OptimizeError, OptimizerError};
use crate::text::{decimal, text_from_chars, push_text, usize_text, chars_of};
use crate::ipnet_calls::{parse_net, parse_net_spec, parse_addr, parse_addr_spec, prefix_text, prefix_text_spec};

verus! {

/// Maximum bytes per line.
pub const MAX_LINE_BYTES: usize = 4096;

// ---------------------------------------------------------------------------
// Characters

/// Unicode `White_Space`: what `str::trim` removes.
pub open spec fn is_ws(c: char) -> bool {
    ||| ('\t' <= c <= '\r')
    ||| c == ' '
    ||| c == '\u{85}'
    ||| c == '\u{A0}'
    ||| c == '\u{1680}'
    ||| ('\u{2000}' <= c <= '\u{200A}')
    ||| c == '\u{2028}'
    ||| c == '\u{2029}'
    ||| c == '\u{202F}'
    ||| c == '\u{205F}'
    ||| c == '\u{3000}'
}

fn is_ws_exec(c: char) -> (r: bool)
    ensures
        r == is_ws(c),
{
    ('\t' <= c && c <= '\r') || c == ' ' || c == '\u{85}' || c == '\u{A0}' || c == '\u{1680}'
        || ('\u{2000}' <= c && c <= '\u{200A}') || c == '\u{2028}' || c == '\u{2029}' || c == '\u{202F}'
        || c == '\u{205F}' || c == '\u{3000}'
}

/// The number of bytes of a character in UTF-8.
pub open spec fn utf8_width(c: char) -> int {
    if (c as u32) < 0x80 {
        1
    } else if (c as u32) < 0x800 {
        2
    } else if (c as u32) < 0x10000 {
        3
    } else {
        4
    }
}

fn utf8_width_exec(c: char) -> (r: u128)
    ensures
        r as int == utf8_width(c),
{
    let v = c as u32;
    if v < 0x80 {
        1
    } else if v < 0x800 {
        2
    } else if v < 0x10000 {
        3
    } else {
        4
    }
}

/// The number of UTF-8 bytes of the first `n` characters.
pub open spec fn utf8_len(s: Seq<char>, n: int) -> int
    decreases n,
{
    if n <= 0 { 0 } else { utf8_len(s, n - 1) + utf8_width(s[n - 1]) }
}

proof fn lemma_utf8_len_mono(s: Seq<char>, a: int, b: int)
    requires
        0 <= a <= b <= s.len(),
    ensures
        utf8_len(s, a) <= utf8_len(s, b),
        utf8_len(s, b) - utf8_len(s, a) >= b - a,
    decreases b - a,
{
    if a < b {
        lemma_utf8_len_mono(s, a, b - 1);
    }
}

/// The number of UTF-8 bytes of the characters.
fn byte_len(s: &Vec<char>) -> (r: u128)
    ensures
        r as int == utf8_len(s@, s@.len() as int),
{
    let mut total: u128 = 0;
    let mut i: usize = 0;
    while i < s.len()
        invariant
            i <= s@.len(),
            total as int == utf8_len(s@, i as int),
            total <= 4 * i,
        decreases s@.len() - i,
    {
        total = total + utf8_width_exec(s[i]);
        i = i + 1;
    }
    total
}

// ---------------------------------------------------------------------------
// The parts of a line

/// The index of the first non-whitespace character at or after `i`, or the length.
pub open spec fn skip_ws(s: Seq<char>, i: int) -> int
    decreases s.len() - i,
{
    if i >= s.len() || i < 0 {
        s.len() as int
    } else if !is_ws(s[i]) {
        i
    } else {
        skip_ws(s, i + 1)
    }
}

/// The index just after the last non-whitespace character before `j`, or 0.
pub open spec fn end_ws(s: Seq<char>, j: int) -> int
    decreases j,
{
    if j <= 0 {
        0
    } else if !is_ws(s[j - 1]) {
        j
    } else {
        end_ws(s, j - 1)
    }
}

/// The text without leading and trailing whitespace (`str::trim`).
pub open spec fn trim(s: Seq<char>) -> Seq<char> {
    let a = skip_ws(s, 0);
    let b = end_ws(s, s.len() as int);
    if a < b { s.subrange(a, b) } else { Seq::empty() }
}

/// The index of the first `c` in `s`, if any.
pub open spec fn find_char(s: Seq<char>, c: char) -> Option<int> {
    if exists|i: int| 0 <= i < s.len() && s[i] == c {
        Some(choose|i: int| 0 <= i < s.len() && s[i] == c && forall|j: int| 0 <= j < i ==> s[j] != c)
    } else {
        None
    }
}

/// The prefix text of a (trimmed) line: before the first `#`, trimmed.
pub open spec fn cidr_part(t: Seq<char>) -> Seq<char> {
    match find_char(t, '#') {
        Some(h) => trim(t.subrange(0, h)),
        None => t,
    }
}

/// The inline comment of a (trimmed) line: after the first `#`, trimmed, if not empty.
pub open spec fn comment_part(t: Seq<char>) -> Option<Seq<char>> {
    match find_char(t, '#') {
        Some(h) => {
            let c = trim(t.subrange(h + 1, t.len() as int));
            if c.len() == 0 { None } else { Some(c) }
        },
        None => None,
    }
}

/// The prefix read from the text: a prefix if it holds a `/`, else an address.
pub open spec fn read_prefix(part: Seq<char>) -> Option<IpPrefix> {
    if part.contains('/') { parse_net_spec(part) } else { parse_addr_spec(part) }
}

/// A prefix in canonical form (host bits cleared).
pub open spec fn canonical_of(p: IpPrefix) -> IpPrefix {
    match p {
        IpPrefix::V4(q) => IpPrefix::V4(Prefix { bits: q.net(32) as u128, len: q.len }),
        IpPrefix::V6(q) => IpPrefix::V6(Prefix { bits: q.net(128) as u128, len: q.len }),
    }
}

/// The line is blank or a full-line comment.
pub open spec fn skipped(line: Seq<char>) -> bool {
    let t = trim(line);
    t.len() == 0 || t[0] == '#'
}

/// The line is too long, or holds neither a prefix nor an address.
pub open spec fn bad_line(line: Seq<char>) -> bool {
    ||| utf8_len(line, line.len() as int) > MAX_LINE_BYTES
    ||| (!skipped(line) && read_prefix(cidr_part(trim(line))) is None)
}

/// The number of characters of `s` that make up its first `bytes` UTF-8 bytes
/// (as a string slice `&s[..bytes]` would cut it), when that is a character boundary.
pub open spec fn chars_in_bytes(s: Seq<char>, bytes: int) -> int {
    choose|k: int| 0 <= k <= s.len() && utf8_len(s, k) == bytes
}

/// The text of an invalid prefix, as the error message quotes it: its first
/// 100 bytes.
pub open spec fn quoted(part: Seq<char>) -> Seq<char> {
    if utf8_len(part, part.len() as int) <= 100 { part } else { part.subrange(0, chars_in_bytes(part, 100)) }
}

/// The error message for a bad line.
pub open spec fn bad_line_message(line: Seq<char>) -> Seq<char> {
    if utf8_len(line, line.len() as int) > MAX_LINE_BYTES {
        "line exceeds "@ + decimal(MAX_LINE_BYTES as nat) + " byte limit"@
    } else {
        "invalid IP or CIDR: '"@ + quoted(cidr_part(trim(line))) + "'"@
    }
}

/// The prefix text of the line is at most 100 bytes long, or its first 100
/// bytes fall on a character boundary (slicing them out does not panic).
pub open spec fn cut_ok(line: Seq<char>) -> bool {
    let p = cidr_part(trim(line));
    utf8_len(p, p.len() as int) <= 100 || exists|k: int| 0 <= k <= p.len() && utf8_len(p, k) == 100
}

/// Reading the line does not need to cut a character: where the line is
/// within the byte limit and holds an invalid prefix text, that text can be
/// quoted in the error message.
pub open spec fn quotable(line: Seq<char>) -> bool {
    bad_line(line) && utf8_len(line, line.len() as int) <= MAX_LINE_BYTES ==> cut_ok(line)
}

/// The index of the first bad line among the first `n` lines, if any.
pub open spec fn first_bad(lines: Seq<Seq<char>>, n: int) -> Option<int>
    decreases n,
{
    if n <= 0 {
        None
    } else {
        match first_bad(lines, n - 1) {
            Some(i) => Some(i),
            None => if bad_line(lines[n - 1]) { Some(n - 1) } else { None },
        }
    }
}

/// One parsed entry: canonical prefix, prefix text, comment, line number.
pub type EntrySpec = (IpPrefix, Seq<char>, Option<Seq<char>>, int);

/// The entries of the first `n` lines (none bad among them).
pub open spec fn entries_of(lines: Seq<Seq<char>>, n: int) -> Seq<EntrySpec>
    decreases n,
{
    if n <= 0 {
        Seq::empty()
    } else {
        let rest = entries_of(lines, n - 1);
        let line = lines[n - 1];
        if skipped(line) {
            rest
        } else {
            let t = trim(line);
            let part = cidr_part(t);
            rest.push((canonical_of(read_prefix(part)->Some_0), part, comment_part(t), n))
        }
    }
}

/// The comment holds the given text, or is absent as it is.
pub open spec fn comment_is(c: Option<String>, m: Option<Seq<char>>) -> bool {
    match m {
        Some(t) => c matches Some(x) && x@ == t,
        None => c is None,
    }
}

/// A parsed entry holds the given entry data.
pub open spec fn parsed_is(c: ParsedCidr, e: EntrySpec) -> bool {
    &&& c.prefix == e.0
    &&& c.raw_text@ == e.1
    &&& comment_is(c.comment, e.2)
    &&& c.line_number == e.3
}

// ---------------------------------------------------------------------------
// Reading a line

proof fn lemma_end_ws_le(s: Seq<char>, j: int)
    ensures
        end_ws(s, j) <= if j < 0 { 0 } else { j },
        end_ws(s, j) >= 0,
    decreases j,
{
    if j > 0 && is_ws(s[j - 1]) {
        lemma_end_ws_le(s, j - 1);
    }
}

/// A copy of `s[a..b]`.
fn sub_chars(s: &Vec<char>, a: usize, b: usize) -> (r: Vec<char>)
    requires
        a <= b <= s@.len(),
    ensures
        r@ == s@.subrange(a as int, b as int),
{
    let mut r: Vec<char> = Vec::new();
    let mut i: usize = a;
    while i < b
        invariant
            a <= i <= b <= s@.len(),
            r@ == s@.subrange(a as int, i as int),
        decreases b - i,
    {
        r.push(s[i]);
        proof {
            assert(r@ =~= s@.subrange(a as int, i + 1));
        }
        i = i + 1;
    }
    r
}

/// The text without leading and trailing whitespace.
fn trim_chars(s: &Vec<char>) -> (r: Vec<char>)
    ensures
        r@ == trim(s@),
{
    let n = s.len();
    let mut i: usize = 0;
    while i < n && is_ws_exec(s[i])
        invariant
            i <= n == s@.len(),
            skip_ws(s@, 0) == skip_ws(s@, i as int),
        decreases n - i,
    {
        i = i + 1;
    }
    let mut j: usize = n;
    while j > i && is_ws_exec(s[j - 1])
        invariant
            i <= j <= n == s@.len(),
            end_ws(s@, n as int) == end_ws(s@, j as int),
        decreases j,
    {
        j = j - 1;
    }
    proof {
        assert(skip_ws(s@, i as int) == i);
        lemma_end_ws_le(s@, i as int);
        if j > i {
            assert(end_ws(s@, j as int) == j);
        } else {
            assert(end_ws(s@, j as int) <= j);
        }
    }
    if i < j {
        sub_chars(s, i, j)
    } else {
        proof {
            assert(trim(s@) =~= Seq::<char>::empty());
        }
        Vec::new()
    }
}

/// The index of the first `c`, if any.
fn find_first(s: &Vec<char>, c: char) -> (r: Option<usize>)
    ensures
        match r {
            Some(i) => find_char(s@, c) == Some(i as int) && i < s@.len() && s@[i as int] == c,
            None => find_char(s@, c) is None,
        },
{
    let mut i: usize = 0;
    while i < s.len()
        invariant
            i <= s@.len(),
            forall|j: int| 0 <= j < i ==> s@[j] != c,
        decreases s@.len() - i,
    {
        if s[i] == c {
            proof {
                let w = choose|k: int| 0 <= k < s@.len() && s@[k] == c && forall|j: int| 0 <= j < k ==> s@[j] != c;
                assert(0 <= i < s@.len() && s@[i as int] == c && forall|j: int| 0 <= j < i ==> s@[j] != c);
                if w < i {
                    assert(s@[w] != c);
                } else if w > i {
                    assert(s@[i as int] != c);
                }
            }
            return Some(i);
        }
        i = i + 1;
    }
    None
}

/// Whether the text holds `c`.
fn has_char(s: &Vec<char>, c: char) -> (r: bool)
    ensures
        r == s@.contains(c),
{
    let mut i: usize = 0;
    while i < s.len()
        invariant
            i <= s@.len(),
            forall|j: int| 0 <= j < i ==> s@[j] != c,
        decreases s@.len() - i,
    {
        if s[i] == c {
            proof {
                assert(s@[i as int] == c);
            }
            return true;
        }
        i = i + 1;
    }
    false
}

/// The prefix read from the text: a prefix if it holds a `/`, else an address.
fn read_prefix_exec(part: &Vec<char>) -> (r: Option<IpPrefix>)
    ensures
        r == read_prefix(part@),
        r matches Some(p) ==> p.wf(),
{
    if has_char(part, '/') {
        parse_net(part.as_slice())
    } else {
        parse_addr(part.as_slice())
    }
}

/// A prefix in canonical form.
fn canonical(p: IpPrefix) -> (r: IpPrefix)
    requires
        p.wf(),
    ensures
        r == canonical_of(p),
        r.wf(),
{
    match p {
        IpPrefix::V4(q) => IpPrefix::V4(trunc(q, 32)),
        IpPrefix::V6(q) => IpPrefix::V6(trunc(q, 128)),
    }
}

/// The characters of the first 100 bytes of an invalid prefix text.
fn quoted_chars(part: &Vec<char>) -> (r: Vec<char>)
    requires
        utf8_len(part@, part@.len() as int) <= 100 || exists|k: int| 0 <= k <= part@.len() && utf8_len(part@, k) == 100,
    ensures
        r@ == quoted(part@),
{
    let total = byte_len(part);
    if total <= 100 {
        return sub_chars(part, 0, part.len());
    }
    let mut k: usize = 0;
    let mut bytes: u128 = 0;
    while bytes < 100
        invariant
            k <= part@.len(),
            bytes as int == utf8_len(part@, k as int),
            bytes <= 100,
            exists|m: int| 0 <= m <= part@.len() && utf8_len(part@, m) == 100,
        decreases 100 - bytes,
    {
        proof {
            let m = choose|m: int| 0 <= m <= part@.len() && utf8_len(part@, m) == 100;
            if k >= m {
                lemma_utf8_len_mono(part@, m, k as int);
            }
            assert(k < part@.len());
            lemma_utf8_len_mono(part@, k as int, (k + 1) as int);
            if k + 1 > m {
                lemma_utf8_len_mono(part@, m, k + 1);
            } else {
                lemma_utf8_len_mono(part@, k + 1, m);
            }
        }
        bytes = bytes + utf8_width_exec(part[k]);
        proof {
            assert(k < part.len());
        }
        k = k + 1;
    }
    proof {
        let m = chars_in_bytes(part@, 100);
        assert(utf8_len(part@, k as int) == 100);
        if m < k {
            lemma_utf8_len_mono(part@, m + 1, k as int);
            lemma_utf8_len_mono(part@, m, m + 1);
        } else if m > k {
            lemma_utf8_len_mono(part@, k + 1, m);
            lemma_utf8_len_mono(part@, k as int, k + 1);
        }
    }
    sub_chars(part, 0, k)
}

/// Splits a trimmed line on its first `#`: the prefix text and the inline comment.
fn split_comment(trimmed: &Vec<char>) -> (r: (Vec<char>, Option<String>))
    ensures
        r.0@ == cidr_part(trimmed@),
        match comment_part(trimmed@) {
            Some(m) => r.1 matches Some(x) && x@ == m,
            None => r.1 is None,
        },
{
    match find_first(trimmed, '#') {
        Some(hash_pos) => {
            proof {
                assert(hash_pos < trimmed.len());
            }
            let before = sub_chars(trimmed, 0, hash_pos);
            let after = sub_chars(trimmed, hash_pos + 1, trimmed.len());
            let cidr = trim_chars(&before);
            let raw_comment = trim_chars(&after);
            let comment = if raw_comment.len() == 0 {
                None
            } else {
                Some(text_from_chars(raw_comment.as_slice()))
            };
            (cidr, comment)
        },
        None => {
            let cidr = sub_chars(trimmed, 0, trimmed.len());
            proof {
                assert(cidr@ =~= trimmed@);
            }
            (cidr, None)
        },
    }
}

/// Reads one line: `Ok(None)` for a blank or comment line, the entry for a
/// prefix or address, or the parse error with the line number.
fn parse_line(line: &Vec<char>, line_num: usize) -> (r: Result<Option<ParsedCidr>, OptimizerError>)
    requires
        quotable(line@),
    ensures
        bad_line(line@) ==> (r matches Err(OptimizerError::Parse { line: ln, message })
            && ln == line_num && message@ == bad_line_message(line@)),
        !bad_line(line@) && skipped(line@) ==> r matches Ok(None),
        !bad_line(line@) && !skipped(line@) ==> (r matches Ok(Some(c)) && c.prefix
            == canonical_of(read_prefix(cidr_part(trim(line@)))->Some_0)
            && c.raw_text@ == cidr_part(trim(line@))
            && match comment_part(trim(line@)) {
                Some(m) => c.comment matches Some(x) && x@ == m,
                None => c.comment is None,
            } && c.line_number == line_num && c.prefix.wf()),
{
    if byte_len(line) > 4096 {
        let mut message = String::new();
        push_text(&mut message, "line exceeds ");
        push_text(&mut message, usize_text(MAX_LINE_BYTES).as_str());
        push_text(&mut message, " byte limit");
        proof {
            assert(message@ =~= bad_line_message(line@));
        }
        return Err(OptimizerError::Parse { line: line_num, message });
    }
    let trimmed = trim_chars(line);
    if trimmed.len() == 0 || trimmed[0] == '#' {
        return Ok(None);
    }
    let (cidr, comment) = split_comment(&trimmed);
    match read_prefix_exec(&cidr) {
        Some(net) => {
            let raw_text = text_from_chars(cidr.as_slice());
            // Normalize non-canonical prefixes.
            let prefix = canonical(net);
            Ok(Some(ParsedCidr { prefix, raw_text, comment, line_number: line_num }))
        },
        None => {
            let q = quoted_chars(&cidr);
            let mut message = String::new();
            push_text(&mut message, "invalid IP or CIDR: '");
            push_text(&mut message, text_from_chars(q.as_slice()).as_str());
            push_text(&mut message, "'");
            proof {
                assert(message@ =~= bad_line_message(line@));
            }
            Err(OptimizerError::Parse { line: line_num, message })
        },
    }
}

// ---------------------------------------------------------------------------
// Reading lists

/// The texts of the lines.
pub open spec fn texts(lines: Seq<String>) -> Seq<Seq<char>> {
    Seq::new(lines.len(), |i: int| lines[i]@)
}

/// Reading the lines does not need to cut a character: the first bad line,
/// if any, is quotable (reading stops there).
pub open spec fn all_quotable(lines: Seq<String>) -> bool {
    match first_bad(texts(lines), lines.len() as int) {
        Some(i) => quotable(lines[i]@),
        None => true,
    }
}

/// The parsed entries hold the entries of the first `n` lines, in order.
pub open spec fn parsed_all(v: Seq<ParsedCidr>, lines: Seq<Seq<char>>, n: int) -> bool {
    &&& v.len() == entries_of(lines, n).len()
    &&& forall|k: int| 0 <= k < v.len() ==> parsed_is(#[trigger] v[k], entries_of(lines, n)[k])
    &&& forall|k: int| 0 <= k < v.len() ==> (#[trigger] v[k]).prefix.wf()
}

/// Reading the list fails: a line is bad, or reading stopped on an error.
pub open spec fn list_fails(lines: Seq<String>, read_error: Option<String>) -> bool {
    first_bad(texts(lines), lines.len() as int) is Some || read_error is Some
}

/// The error that reading the list gives: that of the first bad line
/// (numbered from one), else the read error.
pub open spec fn list_error(lines: Seq<String>, read_error: Option<String>, e: OptimizerError) -> bool {
    let t = texts(lines);
    match first_bad(t, t.len() as int) {
        Some(i) => e matches OptimizerError::Parse { line: ln, message }
            && ln == i + 1 && message@ == bad_line_message(t[i]),
        None => match read_error {
            Some(m) => e matches OptimizerError::Io { message } && message@ == m@,
            None => false,
        },
    }
}

/// The entries of all the lines.
pub open spec fn list_entries(lines: Seq<String>) -> Seq<EntrySpec> {
    entries_of(texts(lines), lines.len() as int)
}

/// What reading a list gives: its error, or its entries.
pub open spec fn list_outcome(lines: Seq<String>, read_error: Option<String>, r: Result<Vec<ParsedCidr>, OptimizerError>) -> bool {
    if list_fails(lines, read_error) {
        r matches Err(e) && list_error(lines, read_error, e)
    } else {
        r matches Ok(v) && parsed_all(v@, texts(lines), lines.len() as int)
    }
}

/// Parses a CIDR list, given as the lines read (each with its line ending, as
/// `BufRead::read_line` gives them) and the error that stopped reading, if any.
///
/// Blank lines and `#` full-line comments are skipped, an inline `# comment`
/// is kept, a bare address becomes a /32 or /128 prefix, and a non-canonical
/// prefix is put in canonical form. A line of more than `MAX_LINE_BYTES`
/// bytes, or one that holds neither a prefix nor an address, is an error.
pub fn parse_cidrs(lines: &Vec<String>, read_error: Option<String>) -> (r: Result<Vec<ParsedCidr>, OptimizerError>)
    requires
        all_quotable(lines@),
    ensures
        list_outcome(lines@, read_error, r),
{
    let ghost t = texts(lines@);
    let mut results: Vec<ParsedCidr> = Vec::new();
    let mut i: usize = 0;
    while i < lines.len()
        invariant
            i <= lines@.len(),
            t == texts(lines@),
            all_quotable(lines@),
            first_bad(t, i as int) is None,
            parsed_all(results@, t, i as int),
        decreases lines@.len() - i,
    {
        let chars = chars_of(lines[i].as_str());
        proof {
            assert(chars@ == t[i as int]);
            if bad_line(t[i as int]) {
                assert(first_bad(t, i + 1) == Some(i as int));
                lemma_first_bad_stays(t, i + 1, t.len() as int);
            }
            assert(quotable(lines@[i as int]@));
        }
        match parse_line(&chars, i + 1) {
            Err(e) => {
                proof {
                    assert(first_bad(t, i + 1) == Some(i as int));
                    lemma_first_bad_stays(t, i + 1, t.len() as int);
                }
                return Err(e);
            },
            Ok(None) => {
                proof {
                    assert(entries_of(t, i + 1) == entries_of(t, i as int));
                }
            },
            Ok(Some(c)) => {
                results.push(c);
                proof {
                    assert(entries_of(t, i + 1) == entries_of(t, i as int).push((c.prefix, c.raw_text@, comment_part(trim(t[i as int])), i + 1)));
                    assert forall|k: int| 0 <= k < results@.len() implies parsed_is(#[trigger] results@[k], entries_of(t, i + 1)[k]) by {
                        if k < i {
                        }
                    }
                }
            },
        }
        i = i + 1;
    }
    match read_error {
        Some(m) => Err(OptimizerError::Io { message: m }),
        None => Ok(results),
    }
}

/// Once a bad line has been found, it stays the first.
proof fn lemma_first_bad_stays(t: Seq<Seq<char>>, i: int, n: int)
    requires
        0 <= i <= n,
        first_bad(t, i) is Some,
    ensures
        first_bad(t, n) == first_bad(t, i),
    decreases n - i,
{
    if i < n {
        lemma_first_bad_stays(t, i, n - 1);
    }
}

/// The exclusion entries hold the given entries, each tagged with the source.
pub open spec fn exclusions_are(v: Seq<ExclusionEntry>, es: Seq<EntrySpec>, source: Seq<char>) -> bool {
    &&& v.len() == es.len()
    &&& forall|k: int| 0 <= k < v.len() ==> {
        &&& (#[trigger] v[k]).prefix == es[k].0
        &&& v[k].prefix.wf()
        &&& v[k].source@ == source
        &&& comment_is(v[k].comment, es[k].2)
    }
}

/// The preferred entries hold the given entries, each tagged with the source.
pub open spec fn preferred_are(v: Seq<PreferredEntry>, es: Seq<EntrySpec>, source: Seq<char>) -> bool {
    &&& v.len() == es.len()
    &&& forall|k: int| 0 <= k < v.len() ==> {
        &&& (#[trigger] v[k]).prefix == es[k].0
        &&& v[k].prefix.wf()
        &&& v[k].source@ == source
        &&& comment_is(v[k].comment, es[k].2)
    }
}

/// A copy of the comment.
fn copy_comment(c: &Option<String>) -> (r: Option<String>)
    ensures
        forall|m: Option<Seq<char>>| comment_is(*c, m) ==> comment_is(r, m),
{
    match c {
        Some(x) => Some(x.clone()),
        None => None,
    }
}

/// Parses a CIDR list into exclusion entries, tagging each with the source name.
pub fn parse_exclusions(lines: &Vec<String>, read_error: Option<String>, source: &str) -> (r: Result<Vec<ExclusionEntry>, OptimizerError>)
    requires
        all_quotable(lines@),
    ensures
        list_fails(lines@, read_error) ==> (r matches Err(e) && list_error(lines@, read_error, e)),
        !list_fails(lines@, read_error) ==> (r matches Ok(v) && exclusions_are(v@, list_entries(lines@), source@)),
{
    let cidrs = parse_cidrs(lines, read_error)?;
    let ghost es = list_entries(lines@);
    let mut out: Vec<ExclusionEntry> = Vec::new();
    let mut i: usize = 0;
    while i < cidrs.len()
        invariant
            i <= cidrs@.len(),
            parsed_all(cidrs@, texts(lines@), lines@.len() as int),
            es == list_entries(lines@),
            exclusions_are(out@, es.take(i as int), source@),
        decreases cidrs@.len() - i,
    {
        let c = &cidrs[i];
        proof {
            assert(parsed_is(cidrs@[i as int], es[i as int]));
        }
        out.push(ExclusionEntry { prefix: c.prefix, source: source.to_owned(), comment: copy_comment(&c.comment) });
        proof {
            assert(es.take(i + 1)[i as int] == es[i as int]);
            assert forall|k: int| 0 <= k < i implies es.take(i + 1)[k] == es.take(i as int)[k] by {}
        }
        i = i + 1;
    }
    proof {
        assert(es.take(cidrs@.len() as int) =~= es);
    }
    Ok(out)
}

/// Parses a CIDR list into preferred entries, tagging each with the source name.
pub fn parse_preferred(lines: &Vec<String>, read_error: Option<String>, source: &str) -> (r: Result<Vec<PreferredEntry>, OptimizerError>)
    requires
        all_quotable(lines@),
    ensures
        list_fails(lines@, read_error) ==> (r matches Err(e) && list_error(lines@, read_error, e)),
        !list_fails(lines@, read_error) ==> (r matches Ok(v) && preferred_are(v@, list_entries(lines@), source@)),
{
    let cidrs = parse_cidrs(lines, read_error)?;
    let ghost es = list_entries(lines@);
    let mut out: Vec<PreferredEntry> = Vec::new();
    let mut i: usize = 0;
    while i < cidrs.len()
        invariant
            i <= cidrs@.len(),
            parsed_all(cidrs@, texts(lines@), lines@.len() as int),
            es == list_entries(lines@),
            preferred_are(out@, es.take(i as int), source@),
        decreases cidrs@.len() - i,
    {
        let c = &cidrs[i];
        proof {
            assert(parsed_is(cidrs@[i as int], es[i as int]));
        }
        out.push(PreferredEntry { prefix: c.prefix, source: source.to_owned(), comment: copy_comment(&c.comment) });
        proof {
            assert(es.take(i + 1)[i as int] == es[i as int]);
            assert forall|k: int| 0 <= k < i implies es.take(i + 1)[k] == es.take(i as int)[k] by {}
        }
        i = i + 1;
    }
    proof {
        assert(es.take(cidrs@.len() as int) =~= es);
    }
    Ok(out)
}

// ---------------------------------------------------------------------------
// Input lists

/// The input, parsed and split by address family.
pub struct ParsedInput {
    /// The IPv4 prefixes, each with the index of its entry.
    pub ipv4: Vec<(usize, Prefix)>,
    /// The IPv6 prefixes, each with the index of its entry.
    pub ipv6: Vec<(usize, Prefix)>,
    /// The text and comment of each entry, when asked for.
    pub input_metadata: Vec<InputEntry>,
    /// The number of entries.
    pub total_entries: usize,
    /// Line numbers and texts of the non-canonical prefixes (at most 1000).
    pub parse_warnings: Vec<(usize, String)>,
}

/// The most warnings kept.
pub const MAX_WARNINGS: usize = 1000;

/// The IPv4 prefixes among the first `n` entries, each with its entry index.
pub open spec fn v4_entries(es: Seq<EntrySpec>, n: int) -> Seq<(usize, Prefix)>
    decreases n,
{
    if n <= 0 {
        Seq::empty()
    } else {
        let r = v4_entries(es, n - 1);
        match es[n - 1].0 {
            IpPrefix::V4(p) => r.push(((n - 1) as usize, p)),
            IpPrefix::V6(_) => r,
        }
    }
}

/// The IPv6 prefixes among the first `n` entries, each with its entry index.
pub open spec fn v6_entries(es: Seq<EntrySpec>, n: int) -> Seq<(usize, Prefix)>
    decreases n,
{
    if n <= 0 {
        Seq::empty()
    } else {
        let r = v6_entries(es, n - 1);
        match es[n - 1].0 {
            IpPrefix::V4(_) => r,
            IpPrefix::V6(p) => r.push(((n - 1) as usize, p)),
        }
    }
}

/// Every entry is IPv4 or IPv6: the two lists together are as long as the entries.
pub proof fn lemma_split_len(es: Seq<EntrySpec>, n: int)
    requires
        0 <= n,
    ensures
        v4_entries(es, n).len() + v6_entries(es, n).len() == n,
    decreases n,
{
    if n > 0 {
        lemma_split_len(es, n - 1);
    }
}

/// The prefix as written differs from its canonical form: its text holds a
/// `/` and reads as a prefix of the same family with host bits set. Gives the
/// prefix as written.
pub open spec fn non_canonical(e: EntrySpec) -> Option<IpPrefix> {
    if e.1.contains('/') {
        match (parse_net_spec(e.1), e.0) {
            (Some(IpPrefix::V4(o)), IpPrefix::V4(c)) => if o != c { Some(IpPrefix::V4(o)) } else { None },
            (Some(IpPrefix::V6(o)), IpPrefix::V6(c)) => if o != c { Some(IpPrefix::V6(o)) } else { None },
            _ => None,
        }
    } else {
        None
    }
}

/// The warning text for a prefix written in non-canonical form.
pub open spec fn warning_text(written: IpPrefix, canonical: IpPrefix) -> Seq<char> {
    "non-canonical CIDR '"@ + prefix_text_spec(written) + "' normalized to '"@ + prefix_text_spec(canonical) + "'"@
}

/// The warnings for the first `n` entries: one for each prefix written in
/// non-canonical form, with its line number, the first `MAX_WARNINGS` kept.
pub open spec fn warnings_of(es: Seq<EntrySpec>, n: int) -> Seq<(int, Seq<char>)>
    decreases n,
{
    if n <= 0 {
        Seq::empty()
    } else {
        let w = warnings_of(es, n - 1);
        let e = es[n - 1];
        match non_canonical(e) {
            Some(o) => if w.len() < MAX_WARNINGS { w.push((e.3, warning_text(o, e.0))) } else { w },
            None => w,
        }
    }
}

/// The warnings hold the given line numbers and texts.
pub open spec fn warnings_are(v: Seq<(usize, String)>, w: Seq<(int, Seq<char>)>) -> bool {
    &&& v.len() == w.len()
    &&& forall|k: int| 0 <= k < v.len() ==> (#[trigger] v[k]).0 == w[k].0 && v[k].1@ == w[k].1
}

/// The metadata holds the text and comment of each of the first `n` entries.
pub open spec fn metadata_are(v: Seq<InputEntry>, es: Seq<EntrySpec>, n: int) -> bool {
    &&& v.len() == n
    &&& forall|k: int| 0 <= k < n ==> (#[trigger] v[k]).original@ == es[k].1 && comment_is(v[k].comment, es[k].2)
}

/// The parsed input holds the entries: split by family, with the metadata
/// when asked for, and the warnings.
pub open spec fn input_is(r: ParsedInput, es: Seq<EntrySpec>, store_metadata: bool) -> bool {
    &&& r.ipv4@ == v4_entries(es, es.len() as int)
    &&& r.ipv6@ == v6_entries(es, es.len() as int)
    &&& (if store_metadata { metadata_are(r.input_metadata@, es, es.len() as int) } else { r.input_metadata@.len() == 0 })
    &&& r.total_entries == es.len()
    &&& warnings_are(r.parse_warnings@, warnings_of(es, es.len() as int))
    &&& forall|k: int| 0 <= k < r.ipv4@.len() ==> (#[trigger] r.ipv4@[k]).1.wf(32)
    &&& forall|k: int| 0 <= k < r.ipv6@.len() ==> (#[trigger] r.ipv6@[k]).1.wf(128)
}

/// The warning for an entry, if its prefix was written in non-canonical form.
fn entry_warning(c: &ParsedCidr) -> (r: Option<String>)
    requires
        c.prefix.wf(),
    ensures
        match non_canonical((c.prefix, c.raw_text@, None, 0)) {
            Some(o) => r matches Some(m) && m@ == warning_text(o, c.prefix),
            None => r is None,
        },
{
    let raw = chars_of(c.raw_text.as_str());
    if !has_char(&raw, '/') {
        return None;
    }
    let written = parse_net(raw.as_slice());
    let o = match (written, c.prefix) {
        (Some(IpPrefix::V4(o)), IpPrefix::V4(v)) => if o.bits != v.bits || o.len != v.len { IpPrefix::V4(o) } else { return None },
        (Some(IpPrefix::V6(o)), IpPrefix::V6(v)) => if o.bits != v.bits || o.len != v.len { IpPrefix::V6(o) } else { return None },
        _ => return None,
    };
    let mut m = String::new();
    push_text(&mut m, "non-canonical CIDR '");
    push_text(&mut m, prefix_text(&o).as_str());
    push_text(&mut m, "' normalized to '");
    push_text(&mut m, prefix_text(&c.prefix).as_str());
    push_text(&mut m, "'");
    proof {
        assert(m@ =~= warning_text(o, c.prefix));
    }
    Some(m)
}

/// Parses input lines into IPv4 and IPv6 prefixes with their entry indices,
/// the text of each entry when `store_metadata` is set, and a warning for each
/// prefix written in non-canonical form. More than `max_entries` entries is
/// an error.
pub fn parse_input(lines: &Vec<String>, read_error: Option<String>, store_metadata: bool, max_entries: usize)
    -> (r: Result<ParsedInput, OptimizerError>)
    requires
        all_quotable(lines@),
    ensures
        list_fails(lines@, read_error) ==> (r matches Err(e) && list_error(lines@, read_error, e)),
        !list_fails(lines@, read_error) && list_entries(lines@).len() > max_entries ==> (r matches Err(
            OptimizerError::Optimize(OptimizeError::InputTooLarge { count, limit }))
            && count == list_entries(lines@).len() && limit == max_entries),
        !list_fails(lines@, read_error) && list_entries(lines@).len() <= max_entries ==> (r matches Ok(p)
            && input_is(p, list_entries(lines@), store_metadata)),
{
    let cidrs = parse_cidrs(lines, read_error)?;
    let ghost es = list_entries(lines@);
    if cidrs.len() > max_entries {
        return Err(OptimizerError::Optimize(OptimizeError::InputTooLarge { count: cidrs.len(), limit: max_entries }));
    }
    let mut ipv4: Vec<(usize, Prefix)> = Vec::new();
    let mut ipv6: Vec<(usize, Prefix)> = Vec::new();
    let mut input_metadata: Vec<InputEntry> = Vec::new();
    let mut warnings: Vec<(usize, String)> = Vec::new();
    let mut i: usize = 0;
    while i < cidrs.len()
        invariant
            i <= cidrs@.len() == es.len(),
            parsed_all(cidrs@, texts(lines@), lines@.len() as int),
            es == list_entries(lines@),
            ipv4@ == v4_entries(es, i as int),
            ipv6@ == v6_entries(es, i as int),
            if store_metadata { metadata_are(input_metadata@, es, i as int) } else { input_metadata@.len() == 0 },
            warnings_are(warnings@, warnings_of(es, i as int)),
            forall|k: int| 0 <= k < ipv4@.len() ==> (#[trigger] ipv4@[k]).1.wf(32),
            forall|k: int| 0 <= k < ipv6@.len() ==> (#[trigger] ipv6@[k]).1.wf(128),
        decreases cidrs@.len() - i,
    {
        let c = &cidrs[i];
        proof {
            assert(parsed_is(cidrs@[i as int], es[i as int]));
            assert(c.prefix.wf());
        }
        if store_metadata {
            input_metadata.push(InputEntry { original: c.raw_text.clone(), comment: copy_comment(&c.comment) });
        }
        let w = entry_warning(c);
        proof {
            assert(non_canonical(es[i as int]) == non_canonical((c.prefix, c.raw_text@, None, 0)));
        }
        match w {
            Some(m) => {
                if warnings.len() < MAX_WARNINGS {
                    warnings.push((c.line_number, m));
                }
            },
            None => {},
        }
        match c.prefix {
            IpPrefix::V4(v4) => ipv4.push((i, v4)),
            IpPrefix::V6(v6) => ipv6.push((i, v6)),
        }
        i = i + 1;
    }
    Ok(ParsedInput { ipv4, ipv6, input_metadata, total_entries: cidrs.len(), parse_warnings: warnings })
}

// ---------------------------------------------------------------------------
// Checking lines before reading them

/// Whether the line can be quoted in an error message without cutting a character.
fn line_quotable(line: &Vec<char>) -> (r: bool)
    ensures
        r == cut_ok(line@),
{
    let t = trim_chars(line);
    let (p, _comment) = split_comment(&t);
    let total = byte_len(&p);
    if total <= 100 {
        return true;
    }
    let mut k: usize = 0;
    let mut bytes: u128 = 0;
    while bytes < 100 && k < p.len()
        invariant
            k <= p@.len(),
            bytes as int == utf8_len(p@, k as int),
            forall|m: int| 0 <= m <= k ==> utf8_len(p@, m) < 100 || m == k,
        decreases p@.len() - k,
    {
        proof {
            lemma_utf8_len_mono(p@, k as int, (k + 1) as int);
        }
        bytes = bytes + utf8_width_exec(p[k]);
        k = k + 1;
    }
    proof {
        if bytes != 100 {
            assert forall|m: int| 0 <= m <= p@.len() implies utf8_len(p@, m) != 100 by {
                if m < k {
                    lemma_utf8_len_mono(p@, m, k as int);
                    if utf8_len(p@, m) == 100 {
                        assert(utf8_len(p@, m) < 100 || m == k);
                    }
                } else if m > k {
                    lemma_utf8_len_mono(p@, k as int, m);
                }
            }
        }
    }
    bytes == 100
}

/// Whether the line is bad: too long, or neither a prefix nor an address.
fn line_bad(line: &Vec<char>) -> (r: bool)
    ensures
        r == bad_line(line@),
{
    if byte_len(line) > 4096 {
        return true;
    }
    let trimmed = trim_chars(line);
    if trimmed.len() == 0 || trimmed[0] == '#' {
        return false;
    }
    let (cidr, _comment) = split_comment(&trimmed);
    read_prefix_exec(&cidr).is_none()
}

/// Whether reading the lines needs no character cut: what `parse_cidrs` and
/// the functions built on it need of their lines.
pub fn lines_quotable(lines: &Vec<String>) -> (r: bool)
    ensures
        r == all_quotable(lines@),
{
    let ghost t = texts(lines@);
    let mut i: usize = 0;
    while i < lines.len()
        invariant
            i <= lines@.len(),
            t == texts(lines@),
            first_bad(t, i as int) is None,
        decreases lines@.len() - i,
    {
        let chars = chars_of(lines[i].as_str());
        proof {
            assert(chars@ == t[i as int]);
        }
        if line_bad(&chars) {
            proof {
                assert(first_bad(t, i + 1) == Some(i as int));
                lemma_first_bad_stays(t, i + 1, t.len() as int);
            }
            if byte_len(&chars) > 4096 {
                return true;
            }
            return line_quotable(&chars);
        }
        proof {
            assert(first_bad(t, i + 1) is None);
        }
        i = i + 1;
    }
    true
}

} // verus!
