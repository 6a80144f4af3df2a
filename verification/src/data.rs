use vstd::prelude::*;
use vstd::slice::{slice_subrange, slice_to_vec};
use vstd::utf8::{valid_utf8, decode_utf8};
use crate::address::{Address, AddressView, BlockType, spec_file_number};
use crate::error::{Error, ErrorView};
use crate::names::utf8_string;
use crate::store::BlockFiles;

verus! {

/// An HTTP response header recovered from a cache block. Every field is
/// optional: a field keeps its default when the header text does not carry
/// it, or carries it malformed. Times are Unix timestamps in seconds.
pub struct HttpHeader {
    /// The status line of the response.
    pub server_responce: String,
    pub content_type: String,
    pub content_length: u32,
    pub server_time: Option<i64>,
    pub server_last_modified: Option<i64>,
    pub etag: String,
    pub server_name: String,
}

/// The mathematical shape of an [`HttpHeader`].
pub ghost struct HttpHeaderView {
    pub server_responce: Seq<char>,
    pub content_type: Seq<char>,
    pub content_length: u32,
    pub server_time: Option<i64>,
    pub server_last_modified: Option<i64>,
    pub etag: Seq<char>,
    pub server_name: Seq<char>,
}

impl View for HttpHeader {
    type V = HttpHeaderView;

    open spec fn view(&self) -> HttpHeaderView {
        HttpHeaderView {
            server_responce: self.server_responce@,
            content_type: self.content_type@,
            content_length: self.content_length,
            server_time: self.server_time,
            server_last_modified: self.server_last_modified,
            etag: self.etag@,
            server_name: self.server_name@,
        }
    }
}

/// A header with every field at its default.
pub open spec fn spec_default_header() -> HttpHeaderView {
    HttpHeaderView {
        server_responce: Seq::empty(),
        content_type: Seq::empty(),
        content_length: 0,
        server_time: None,
        server_last_modified: None,
        etag: Seq::empty(),
        server_name: Seq::empty(),
    }
}

impl HttpHeader {
    /// A header with every field at its default.
    pub fn new() -> (r: Self)
        ensures
            r@ == spec_default_header(),
    {
        HttpHeader {
            server_responce: String::new(),
            content_type: String::new(),
            content_length: 0,
            server_time: None,
            server_last_modified: None,
            etag: String::new(),
            server_name: String::new(),
        }
    }
}

/// The timestamp in seconds of the RFC 2822 date spelled by `s`, when `s`
/// is a well-formed such date. The value is fixed by the characters alone.
pub uninterp spec fn rfc2822_secs(s: Seq<char>) -> Option<i64>;

/// Relies on chrono's `DateTime::parse_from_rfc2822`: whether the text is a
/// well-formed RFC 2822 date, and which Unix timestamp it denotes, depend on
/// the characters alone.
#[verifier::external_body]
fn parse_rfc2822_secs(s: &str) -> (r: Option<i64>)
    ensures
        r == rfc2822_secs(s@),
{
    match chrono::DateTime::parse_from_rfc2822(s) {
        Ok(d) => Some(d.timestamp()),
        Err(_) => None,
    }
}

/// The four bytes starting at `i` in `b` spell the marker `HTTP`.
pub open spec fn http_at(b: Seq<u8>, i: int) -> bool {
    &&& 0 <= i
    &&& i + 4 <= b.len()
    &&& b[i] == 0x48
    &&& b[i + 1] == 0x54
    &&& b[i + 2] == 0x54
    &&& b[i + 3] == 0x50
}

/// The first position at or after `i` where the marker `HTTP` stands.
pub open spec fn spec_find_http_from(b: Seq<u8>, i: int) -> Option<int>
    decreases b.len() - i,
{
    if i + 4 > b.len() {
        None
    } else if http_at(b, i) {
        Some(i)
    } else {
        spec_find_http_from(b, i + 1)
    }
}

/// Two null bytes stand at `i` in `b`.
pub open spec fn null_pair_at(b: Seq<u8>, i: int) -> bool {
    &&& 0 <= i
    &&& i + 2 <= b.len()
    &&& b[i] == 0
    &&& b[i + 1] == 0
}

/// The first position at or after `i` where a null pair stands.
pub open spec fn spec_find_null_pair_from(b: Seq<u8>, i: int) -> Option<int>
    decreases b.len() - i,
{
    if i + 2 > b.len() {
        None
    } else if null_pair_at(b, i) {
        Some(i)
    } else {
        spec_find_null_pair_from(b, i + 1)
    }
}

/// The first position at or after `i` holding the byte `v`.
pub open spec fn spec_find_byte_from(b: Seq<u8>, i: int, v: u8) -> Option<int>
    decreases b.len() - i,
{
    if i < 0 || i >= b.len() {
        None
    } else if b[i] == v {
        Some(i)
    } else {
        spec_find_byte_from(b, i + 1, v)
    }
}

/// The field separator `: ` stands at `j` in `line`.
pub open spec fn sep_at(line: Seq<u8>, j: int) -> bool {
    &&& 0 <= j
    &&& j + 2 <= line.len()
    &&& line[j] == 0x3a
    &&& line[j + 1] == 0x20
}

/// The first position at or after `j` where the field separator stands.
pub open spec fn spec_find_sep_from(line: Seq<u8>, j: int) -> Option<int>
    decreases line.len() - j,
{
    if j + 2 > line.len() {
        None
    } else if sep_at(line, j) {
        Some(j)
    } else {
        spec_find_sep_from(line, j + 1)
    }
}

/// The header text cut into lines at its single null bytes.
pub open spec fn spec_split_lines(t: Seq<u8>) -> Seq<Seq<u8>>
    decreases t.len(),
{
    match spec_find_byte_from(t, 0, 0) {
        None => seq![t],
        Some(k) => if 0 <= k < t.len() {
            seq![t.take(k)] + spec_split_lines(t.skip(k + 1))
        } else {
            seq![t]
        },
    }
}

/// Every byte of `b` is a decimal digit.
pub open spec fn all_digits(b: Seq<u8>) -> bool {
    forall|i: int| 0 <= i < b.len() ==> 0x30 <= #[trigger] b[i] <= 0x39
}

/// The number spelled by the digit bytes of `b`, most significant first.
pub open spec fn spec_digits_val(b: Seq<u8>) -> int
    decreases b.len(),
{
    if b.len() == 0 {
        0
    } else {
        spec_digits_val(b.drop_last()) * 10 + (b.last() - 0x30)
    }
}

/// The unsigned number a byte sequence spells in decimal: present exactly
/// when the sequence is nonempty, all digits, and the value fits.
pub open spec fn spec_dec_value(b: Seq<u8>) -> Option<u32> {
    if b.len() > 0 && all_digits(b) && spec_digits_val(b) <= u32::MAX {
        Some(spec_digits_val(b) as u32)
    } else {
        None
    }
}

pub open spec fn name_date() -> Seq<u8> {
    seq![0x44u8, 0x61, 0x74, 0x65]
}

pub open spec fn name_content_type() -> Seq<u8> {
    seq![0x43u8, 0x6f, 0x6e, 0x74, 0x65, 0x6e, 0x74, 0x2d, 0x54, 0x79, 0x70, 0x65]
}

pub open spec fn name_content_length() -> Seq<u8> {
    seq![0x43u8, 0x6f, 0x6e, 0x74, 0x65, 0x6e, 0x74, 0x2d, 0x4c, 0x65, 0x6e, 0x67, 0x74, 0x68]
}

pub open spec fn name_server() -> Seq<u8> {
    seq![0x53u8, 0x65, 0x72, 0x76, 0x65, 0x72]
}

pub open spec fn name_last_modified() -> Seq<u8> {
    seq![0x4cu8, 0x61, 0x73, 0x74, 0x2d, 0x4d, 0x6f, 0x64, 0x69, 0x66, 0x69, 0x65, 0x64]
}

pub open spec fn name_etag() -> Seq<u8> {
    seq![0x45u8, 0x54, 0x61, 0x67]
}

/// The date's timestamp when the text parses as an RFC 2822 date, and the
/// previous value otherwise: a malformed date leaves the field alone.
pub open spec fn spec_time_or(prev: Option<i64>, chars: Seq<char>) -> Option<i64> {
    match rfc2822_secs(chars) {
        Some(t) => Some(t),
        None => prev,
    }
}

/// The ETag value with one pair of wrapping quote characters removed.
pub open spec fn spec_strip_quotes(v: Seq<u8>) -> Seq<u8> {
    if v.len() >= 2 && v[0] == 0x22 && v[v.len() - 1] == 0x22 {
        v.subrange(1, v.len() - 1)
    } else {
        v
    }
}

/// How one header line changes the fields collected so far. A line without
/// the `: ` separator, or with an unrecognized field name, changes nothing;
/// a recognized field whose value is not well-formed text is a decode error.
pub open spec fn spec_apply_line(h: HttpHeaderView, line: Seq<u8>) -> Result<HttpHeaderView, ()> {
    match spec_find_sep_from(line, 0) {
        None => Ok(h),
        Some(j) => {
            let name = line.take(j);
            let value = line.skip(j + 2);
            if name == name_date() {
                if valid_utf8(value) {
                    Ok(HttpHeaderView { server_time: spec_time_or(h.server_time, decode_utf8(value)), ..h })
                } else {
                    Err(())
                }
            } else if name == name_content_type() {
                if valid_utf8(value) {
                    Ok(HttpHeaderView { content_type: decode_utf8(value), ..h })
                } else {
                    Err(())
                }
            } else if name == name_content_length() {
                Ok(HttpHeaderView {
                    content_length: match spec_dec_value(value) {
                        Some(n) => n,
                        None => h.content_length,
                    },
                    ..h
                })
            } else if name == name_server() {
                if valid_utf8(value) {
                    Ok(HttpHeaderView { server_name: decode_utf8(value), ..h })
                } else {
                    Err(())
                }
            } else if name == name_last_modified() {
                if valid_utf8(value) {
                    Ok(HttpHeaderView { server_last_modified: spec_time_or(h.server_last_modified, decode_utf8(value)), ..h })
                } else {
                    Err(())
                }
            } else if name == name_etag() {
                if valid_utf8(spec_strip_quotes(value)) {
                    Ok(HttpHeaderView { etag: decode_utf8(spec_strip_quotes(value)), ..h })
                } else {
                    Err(())
                }
            } else {
                Ok(h)
            }
        },
    }
}

/// The fields collected after applying every remaining line in order.
pub open spec fn spec_parse_fields(h: HttpHeaderView, rest: Seq<Seq<u8>>) -> Result<HttpHeaderView, ()>
    decreases rest.len(),
{
    if rest.len() == 0 {
        Ok(h)
    } else {
        match spec_apply_line(h, rest[0]) {
            Err(e) => Err(e),
            Ok(h2) => spec_parse_fields(h2, rest.drop_first()),
        }
    }
}

/// What scanning a raw block for an embedded HTTP header yields. A block
/// without the `HTTP` marker, or without a terminating null pair after it,
/// holds no header. Otherwise the text between the two markers is cut into
/// null-delimited lines; the first is the status line and the rest fill the
/// recognized fields. Text that is not well-formed UTF-8 is a decode error.
pub open spec fn spec_extract(b: Seq<u8>) -> Result<Option<HttpHeaderView>, ()> {
    match spec_find_http_from(b, 0) {
        None => Ok(None),
        Some(start) => match spec_find_null_pair_from(b, start) {
            None => Ok(None),
            Some(end) => {
                let t = b.subrange(start, end);
                if !valid_utf8(t) {
                    Err(())
                } else {
                    let lines = spec_split_lines(t);
                    if !valid_utf8(lines[0]) {
                        Err(())
                    } else {
                        match spec_parse_fields(
                            HttpHeaderView { server_responce: decode_utf8(lines[0]), ..spec_default_header() },
                            lines.drop_first(),
                        ) {
                            Ok(h) => Ok(Some(h)),
                            Err(e) => Err(e),
                        }
                    }
                }
            },
        },
    }
}

fn bytes_eq(a: &[u8], b: &[u8]) -> (r: bool)
    ensures
        r == (a@ == b@),
{
    if a.len() != b.len() {
        proof {
            assert(a@.len() != b@.len());
        }
        return false;
    }
    let mut i: usize = 0;
    while i < a.len()
        invariant
            i <= a@.len(),
            a@.len() == b@.len(),
            forall|j: int| 0 <= j < i ==> a@[j] == b@[j],
        decreases a@.len() - i,
    {
        if a[i] != b[i] {
            return false;
        }
        i = i + 1;
    }
    proof {
        assert(a@ =~= b@);
    }
    true
}

fn find_http(b: &[u8]) -> (r: Option<usize>)
    ensures
        match r {
            Some(i) => spec_find_http_from(b@, 0) == Some(i as int) && i + 4 <= b@.len(),
            None => spec_find_http_from(b@, 0) is None,
        },
{
    let mut i: usize = 0;
    loop
        invariant
            i <= b@.len(),
            spec_find_http_from(b@, 0) == spec_find_http_from(b@, i as int),
        decreases b@.len() - i,
    {
        if b.len() - i < 4 {
            return None;
        }
        if b[i] == 0x48 && b[i + 1] == 0x54 && b[i + 2] == 0x54 && b[i + 3] == 0x50 {
            return Some(i);
        }
        proof {
            assert(spec_find_http_from(b@, i as int) == spec_find_http_from(b@, i + 1));
        }
        i = i + 1;
    }
}

fn find_null_pair(b: &[u8], from: usize) -> (r: Option<usize>)
    requires
        from <= b@.len(),
    ensures
        match r {
            Some(i) => spec_find_null_pair_from(b@, from as int) == Some(i as int) && from <= i && i + 2 <= b@.len(),
            None => spec_find_null_pair_from(b@, from as int) is None,
        },
{
    let mut i: usize = from;
    loop
        invariant
            from <= i <= b@.len(),
            spec_find_null_pair_from(b@, from as int) == spec_find_null_pair_from(b@, i as int),
        decreases b@.len() - i,
    {
        if b.len() - i < 2 {
            return None;
        }
        if b[i] == 0 && b[i + 1] == 0 {
            return Some(i);
        }
        proof {
            assert(spec_find_null_pair_from(b@, i as int) == spec_find_null_pair_from(b@, i + 1));
        }
        i = i + 1;
    }
}

fn find_byte_from(b: &[u8], from: usize, v: u8) -> (r: Option<usize>)
    ensures
        match r {
            Some(i) => spec_find_byte_from(b@, from as int, v) == Some(i as int) && from <= i && i < b@.len(),
            None => spec_find_byte_from(b@, from as int, v) is None,
        },
{
    let mut i: usize = from;
    loop
        invariant
            from <= i,
            spec_find_byte_from(b@, from as int, v) == spec_find_byte_from(b@, i as int, v),
        decreases b@.len() - i,
    {
        if i >= b.len() {
            return None;
        }
        if b[i] == v {
            return Some(i);
        }
        proof {
            assert(spec_find_byte_from(b@, i as int, v) == spec_find_byte_from(b@, i + 1, v));
        }
        i = i + 1;
    }
}

fn find_sep(line: &[u8]) -> (r: Option<usize>)
    ensures
        match r {
            Some(j) => spec_find_sep_from(line@, 0) == Some(j as int) && j + 2 <= line@.len(),
            None => spec_find_sep_from(line@, 0) is None,
        },
{
    let mut j: usize = 0;
    loop
        invariant
            j <= line@.len(),
            spec_find_sep_from(line@, 0) == spec_find_sep_from(line@, j as int),
        decreases line@.len() - j,
    {
        if line.len() - j < 2 {
            return None;
        }
        if line[j] == 0x3a && line[j + 1] == 0x20 {
            return Some(j);
        }
        proof {
            assert(spec_find_sep_from(line@, j as int) == spec_find_sep_from(line@, j + 1));
        }
        j = j + 1;
    }
}

/// When every byte of `b` is a digit, the value spelled by any prefix is at
/// most the value spelled by the whole.
proof fn lemma_digits_prefix(b: Seq<u8>, j: int)
    requires
        all_digits(b),
        0 <= j <= b.len(),
    ensures
        0 <= spec_digits_val(b.take(j)),
        spec_digits_val(b.take(j)) <= spec_digits_val(b),
    decreases b.len(),
{
    if b.len() == 0 {
        assert(b.take(j) =~= b);
    } else if j == b.len() {
        assert(b.take(j) =~= b);
        lemma_digits_prefix(b.drop_last(), j - 1);
    } else {
        assert(b.drop_last().take(j) =~= b.take(j));
        lemma_digits_prefix(b.drop_last(), j);
        assert(spec_digits_val(b) == spec_digits_val(b.drop_last()) * 10 + (b.last() - 0x30));
        assert(spec_digits_val(b.drop_last()) * 10 >= spec_digits_val(b.drop_last())) by (nonlinear_arith)
            requires
                spec_digits_val(b.drop_last()) >= 0,
        ;
    }
}

fn parse_u32_dec(b: &[u8]) -> (r: Option<u32>)
    ensures
        r == spec_dec_value(b@),
{
    if b.len() == 0 {
        return None;
    }
    let mut acc: u32 = 0;
    let mut i: usize = 0;
    while i < b.len()
        invariant
            i <= b@.len(),
            b@.len() > 0,
            all_digits(b@.take(i as int)),
            acc == spec_digits_val(b@.take(i as int)),
        decreases b@.len() - i,
    {
        let c = b[i];
        if c < 0x30 || c > 0x39 {
            proof {
                assert(!all_digits(b@));
            }
            return None;
        }
        let d = (c - 0x30) as u32;
        if acc > (u32::MAX - d) / 10 {
            proof {
                if all_digits(b@) {
                    assert(b@.take(i + 1).drop_last() =~= b@.take(i as int));
                    assert(b@.take(i + 1).last() == b@[i as int]);
                    assert(spec_digits_val(b@.take(i + 1)) == acc * 10 + d);
                    assert(acc * 10 + d > u32::MAX);
                    lemma_digits_prefix(b@, i + 1);
                }
            }
            return None;
        }
        proof {
            assert(b@.take(i + 1).drop_last() =~= b@.take(i as int));
            assert(b@.take(i + 1).last() == b@[i as int]);
        }
        acc = acc * 10 + d;
        i = i + 1;
    }
    proof {
        assert(b@.take(i as int) =~= b@);
        lemma_digits_prefix(b@, i as int);
    }
    Some(acc)
}

fn apply_line(h: HttpHeader, line: &[u8]) -> (r: Result<HttpHeader, Error>)
    ensures
        match r {
            Ok(h2) => spec_apply_line(h@, line@) == Ok::<HttpHeaderView, ()>(h2@),
            Err(e) => spec_apply_line(h@, line@) is Err && e@ is BadString,
        },
{
    let j = match find_sep(line) {
        None => {
            return Ok(h);
        },
        Some(j) => j,
    };
    let n = line.len();
    let name = slice_subrange(line, 0, j);
    let value = slice_subrange(line, j + 2, n);
    proof {
        assert(name@ =~= line@.take(j as int));
        assert(value@ =~= line@.skip(j + 2));
    }
    if bytes_eq(name, &[0x44u8, 0x61, 0x74, 0x65]) {
        proof {
            assert(name@ == name_date());
        }
        match utf8_string(slice_to_vec(value)) {
            None => Err(Error::StringParseError),
            Some(s) => {
                let t = parse_rfc2822_secs(s.as_str());
                let server_time = match t {
                    Some(t) => Some(t),
                    None => h.server_time,
                };
                Ok(HttpHeader { server_time, ..h })
            },
        }
    } else if bytes_eq(name, &[0x43u8, 0x6f, 0x6e, 0x74, 0x65, 0x6e, 0x74, 0x2d, 0x54, 0x79, 0x70, 0x65]) {
        proof {
            assert(name@ == name_content_type());
        }
        match utf8_string(slice_to_vec(value)) {
            None => Err(Error::StringParseError),
            Some(s) => Ok(HttpHeader { content_type: s, ..h }),
        }
    } else if bytes_eq(name, &[0x43u8, 0x6f, 0x6e, 0x74, 0x65, 0x6e, 0x74, 0x2d, 0x4c, 0x65, 0x6e, 0x67, 0x74, 0x68]) {
        proof {
            assert(name@ == name_content_length());
        }
        let content_length = match parse_u32_dec(value) {
            Some(n) => n,
            None => h.content_length,
        };
        Ok(HttpHeader { content_length, ..h })
    } else if bytes_eq(name, &[0x53u8, 0x65, 0x72, 0x76, 0x65, 0x72]) {
        proof {
            assert(name@ == name_server());
        }
        match utf8_string(slice_to_vec(value)) {
            None => Err(Error::StringParseError),
            Some(s) => Ok(HttpHeader { server_name: s, ..h }),
        }
    } else if bytes_eq(name, &[0x4cu8, 0x61, 0x73, 0x74, 0x2d, 0x4d, 0x6f, 0x64, 0x69, 0x66, 0x69, 0x65, 0x64]) {
        proof {
            assert(name@ == name_last_modified());
        }
        match utf8_string(slice_to_vec(value)) {
            None => Err(Error::StringParseError),
            Some(s) => {
                let t = parse_rfc2822_secs(s.as_str());
                let server_last_modified = match t {
                    Some(t) => Some(t),
                    None => h.server_last_modified,
                };
                Ok(HttpHeader { server_last_modified, ..h })
            },
        }
    } else if bytes_eq(name, &[0x45u8, 0x54, 0x61, 0x67]) {
        proof {
            assert(name@ == name_etag());
        }
        let inner = if value.len() >= 2 && value[0] == 0x22 && value[value.len() - 1] == 0x22 {
            slice_subrange(value, 1, value.len() - 1)
        } else {
            value
        };
        proof {
            assert(inner@ =~= spec_strip_quotes(value@));
        }
        match utf8_string(slice_to_vec(inner)) {
            None => Err(Error::StringParseError),
            Some(s) => Ok(HttpHeader { etag: s, ..h }),
        }
    } else {
        proof {
            assert(name@ != name_date());
            assert(name@ != name_content_type());
            assert(name@ != name_content_length());
            assert(name@ != name_server());
            assert(name@ != name_last_modified());
            assert(name@ != name_etag());
        }
        Ok(h)
    }
}

/// Scans a raw block for an embedded HTTP header. A block without the
/// `HTTP` marker, or without a terminating null pair after it, holds no
/// header and yields nothing; malformed text between the markers is a
/// decode error. A malformed date or length value leaves its field at the
/// value collected so far instead of failing the block.
pub fn extract(block: &[u8]) -> (r: Result<Option<HttpHeader>, Error>)
    ensures
        match r {
            Ok(Some(h)) => spec_extract(block@) == Ok::<Option<HttpHeaderView>, ()>(Some(h@)),
            Ok(None) => spec_extract(block@) == Ok::<Option<HttpHeaderView>, ()>(None),
            Err(e) => spec_extract(block@) is Err && e@ is BadString,
        },
{
    let start = match find_http(block) {
        None => {
            return Ok(None);
        },
        Some(s) => s,
    };
    let end = match find_null_pair(block, start) {
        None => {
            return Ok(None);
        },
        Some(e) => e,
    };
    let text = slice_subrange(block, start, end);
    let ghost t = block@.subrange(start as int, end as int);
    proof {
        assert(text@ =~= t);
    }
    if utf8_string(slice_to_vec(text)).is_none() {
        return Err(Error::StringParseError);
    }
    let ghost lines = spec_split_lines(t);
    let first_null = find_byte_from(text, 0, 0);
    let line_end = match first_null {
        Some(k) => k,
        None => text.len(),
    };
    proof {
        match spec_find_byte_from(t, 0, 0) {
            None => {
                assert(lines =~= seq![t]);
                assert(t.take(line_end as int) =~= t);
            },
            Some(k) => {
                assert(lines == seq![t.take(k)] + spec_split_lines(t.skip(k + 1)));
            },
        }
        assert(lines[0] == t.take(line_end as int));
    }
    let status = match utf8_string(slice_to_vec(slice_subrange(text, 0, line_end))) {
        None => {
            proof {
                assert(block@.subrange(start as int, end as int).take(line_end as int) =~= text@.take(line_end as int));
            }
            return Err(Error::StringParseError);
        },
        Some(s) => s,
    };
    proof {
        assert(text@.take(line_end as int) =~= lines[0]);
    }
    let mut h = HttpHeader {
        server_responce: status,
        content_type: String::new(),
        content_length: 0,
        server_time: None,
        server_last_modified: None,
        etag: String::new(),
        server_name: String::new(),
    };
    let ghost target = spec_parse_fields(h@, lines.drop_first());
    let mut more = match first_null {
        Some(_) => true,
        None => false,
    };
    let mut p: usize = match first_null {
        Some(k) => k + 1,
        None => text.len(),
    };
    proof {
        if first_null is Some {
            let k = first_null->0 as int;
            assert(spec_split_lines(t.skip(k + 1)) =~= lines.drop_first());
        }
    }
    while more
        invariant
            p <= t.len(),
            text@ == t,
            more ==> spec_parse_fields(h@, spec_split_lines(t.skip(p as int))) == target,
            !more ==> Ok::<HttpHeaderView, ()>(h@) == target,
            spec_extract(block@) == (match target {
                Ok(hh) => Ok::<Option<HttpHeaderView>, ()>(Some(hh)),
                Err(e) => Err::<Option<HttpHeaderView>, ()>(e),
            }),
        decreases t.len() - p + 1, (if more { 1int } else { 0int }),
    {
        let ghost rest = spec_split_lines(t.skip(p as int));
        let tlen = text.len();
        let next_null = find_byte_from(text, p, 0);
        let this_end = match next_null {
            Some(k) => k,
            None => text.len(),
        };
        let line = slice_subrange(text, p, this_end);
        proof {
            let shifted = spec_find_byte_from(t, p as int, 0);
            lemma_find_byte_shift(t, p as int, 0);
            match shifted {
                None => {
                    assert(spec_find_byte_from(t.skip(p as int), 0, 0) is None);
                    assert(rest =~= seq![t.skip(p as int)]);
                    assert(line@ =~= t.skip(p as int));
                },
                Some(k) => {
                    assert(spec_find_byte_from(t.skip(p as int), 0, 0) == Some(k - p));
                    assert(rest == seq![t.skip(p as int).take(k - p)] + spec_split_lines(t.skip(p as int).skip(k - p + 1)));
                    assert(line@ =~= t.skip(p as int).take(k - p));
                    assert(t.skip(p as int).skip(k - p + 1) =~= t.skip(k + 1));
                },
            }
            assert(rest[0] == line@);
        }
        let ghost prev = h@;
        let h2 = match apply_line(h, line) {
            Ok(h2) => h2,
            Err(e) => {
                proof {
                    assert(rest.len() >= 1);
                    assert(spec_parse_fields(prev, rest) is Err);
                }
                return Err(e);
            },
        };
        h = h2;
        proof {
            assert(rest.len() >= 1);
            assert(spec_parse_fields(prev, rest) == spec_parse_fields(h@, rest.drop_first()));
            assert(rest.drop_first() =~= (match spec_find_byte_from(t, p as int, 0) {
                Some(k) => spec_split_lines(t.skip(k + 1)),
                None => Seq::<Seq<u8>>::empty(),
            }));
        }
        match next_null {
            Some(k) => {
                p = k + 1;
            },
            None => {
                p = text.len();
                more = false;
                proof {
                    assert(spec_parse_fields(h@, rest.drop_first()) == Ok::<HttpHeaderView, ()>(h@));
                }
            },
        }
    }
    Ok(Some(h))
}

/// What reading the single block named by an address and scanning it for a
/// header yields. An address into an external file never carries an
/// embedded header. A missing block file, or a block range past the end of
/// its file, fails the scan.
pub open spec fn spec_parse_http_header(files: BlockFiles, a: AddressView) -> Result<Option<HttpHeaderView>, ErrorView> {
    if a.blocktype is SeparateFile {
        Ok(None)
    } else {
        match files.spec_file(spec_file_number(a.addr)) {
            None => Err(ErrorView::Io),
            Some(f) => {
                let size = a.blocktype.spec_size();
                let off = 8192 + a.block_number * size;
                if off + size <= f.len() {
                    match spec_extract(f.subrange(off, off + size)) {
                        Ok(o) => Ok(o),
                        Err(_) => Err(ErrorView::BadString),
                    }
                } else {
                    Err(ErrorView::Eof)
                }
            },
        }
    }
}

/// Reads the single block an address points at out of the loaded block
/// files and scans it for an embedded HTTP header.
pub fn parse_http_header(addr: &Address, files: &BlockFiles) -> (r: Result<Option<HttpHeader>, Error>)
    ensures
        match r {
            Ok(Some(h)) => spec_parse_http_header(*files, addr@) == Ok::<Option<HttpHeaderView>, ErrorView>(Some(h@)),
            Ok(None) => spec_parse_http_header(*files, addr@) == Ok::<Option<HttpHeaderView>, ErrorView>(None),
            Err(e) => spec_parse_http_header(*files, addr@) == Err::<Option<HttpHeaderView>, ErrorView>(e@),
        },
{
    if matches!(addr.blocktype, BlockType::SeparateFile) {
        return Ok(None);
    }
    let f = match files.get(addr.file_number()) {
        None => {
            return Err(Error::IOError(addr.file_name.clone()));
        },
        Some(f) => f,
    };
    let size = addr.blocktype.get_size();
    let off64: u64 = 8192u64 + (addr.block_number as u64) * (size as u64);
    if off64 + (size as u64) > f.len() as u64 {
        return Err(Error::UnexpectedEOF(String::new()));
    }
    let off = off64 as usize;
    let block = slice_subrange(f.as_slice(), off, off + size);
    proof {
        assert(block@ =~= files.spec_file(spec_file_number(addr.addr))->0.subrange(
            8192 + addr@.block_number * addr@.blocktype.spec_size(),
            8192 + addr@.block_number * addr@.blocktype.spec_size() + addr@.blocktype.spec_size(),
        ));
    }
    extract(block)
}

proof fn lemma_find_http_none(b: Seq<u8>, i: int)
    requires
        forall|j: int| !http_at(b, j),
    ensures
        spec_find_http_from(b, i) is None,
    decreases b.len() - i,
{
    if i + 4 <= b.len() {
        lemma_find_http_none(b, i + 1);
    }
}

proof fn lemma_find_null_pair_none(b: Seq<u8>, i: int)
    requires
        forall|j: int| !null_pair_at(b, j),
    ensures
        spec_find_null_pair_from(b, i) is None,
    decreases b.len() - i,
{
    if i + 2 <= b.len() {
        lemma_find_null_pair_none(b, i + 1);
    }
}

/// A block in which the marker `HTTP` stands nowhere holds no header: the
/// scan always yields nothing.
pub proof fn lemma_extract_no_marker(b: Seq<u8>)
    requires
        forall|j: int| !http_at(b, j),
    ensures
        spec_extract(b) == Ok::<Option<HttpHeaderView>, ()>(None),
{
    lemma_find_http_none(b, 0);
}

/// A block in which no null pair stands holds no header either, even when
/// the marker `HTTP` does: the header text is never terminated.
pub proof fn lemma_extract_no_terminator(b: Seq<u8>)
    requires
        forall|j: int| !null_pair_at(b, j),
    ensures
        spec_extract(b) == Ok::<Option<HttpHeaderView>, ()>(None),
{
    match spec_find_http_from(b, 0) {
        None => {},
        Some(start) => {
            lemma_find_null_pair_none(b, start);
        },
    }
}

/// Shifting the start of a byte search out of a suffix: searching `b` from
/// `i` finds a byte exactly where searching the suffix `b.skip(i)` from its
/// start finds it.
proof fn lemma_find_byte_shift(b: Seq<u8>, i: int, v: u8)
    requires
        0 <= i <= b.len(),
    ensures
        match spec_find_byte_from(b, i, v) {
            None => spec_find_byte_from(b.skip(i), 0, v) is None,
            Some(k) => spec_find_byte_from(b.skip(i), 0, v) == Some(k - i),
        },
{
    lemma_find_byte_shift_general(b, i, i, v);
}

proof fn lemma_find_byte_shift_general(b: Seq<u8>, base: int, i: int, v: u8)
    requires
        0 <= base <= i <= b.len(),
    ensures
        match spec_find_byte_from(b, i, v) {
            None => spec_find_byte_from(b.skip(base), i - base, v) is None,
            Some(k) => spec_find_byte_from(b.skip(base), i - base, v) == Some(k - base),
        },
    decreases b.len() - i,
{
    if i >= b.len() {
    } else {
        assert(b.skip(base)[i - base] == b[i]);
        if b[i] == v {
        } else {
            lemma_find_byte_shift_general(b, base, i + 1, v);
        }
    }
}

} // verus!
