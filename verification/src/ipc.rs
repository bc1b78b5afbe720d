//! The messages between client and daemon, and their byte encoding: a tag byte, then
//! little-endian 64-bit integers, strings as a 64-bit byte length and their UTF-8 bytes, and
//! single bytes for flags and formats.
use crate::db::{le64, u64_at};
use crate::text::string_of;
use vstd::bytes::{spec_u64_from_le_bytes, spec_u64_to_le_bytes, u64_to_le_bytes};
use vstd::prelude::*;
use vstd::utf8::*;

verus! {

#[derive(Debug, Clone, Copy, PartialEq, Eq, Structural)]
pub enum OutputFormat {
    Default,
    Csv,
    Tsv,
    Txt,
    Efu,
}

#[derive(Debug, Clone, PartialEq, Eq)]
pub struct QueryRequest {
    pub id: u64,
    pub raw: String,
    pub max_results: usize,
    pub offset: usize,
    pub format: OutputFormat,
    pub highlight: bool,
}

#[derive(Debug, Clone, PartialEq, Eq)]
pub enum Request {
    Query(QueryRequest),
    Status,
    Flush,
    Reindex,
    Quit,
}

#[derive(Debug, Clone, PartialEq, Eq)]
pub struct ResultsResponse {
    pub id: u64,
    pub total_count: usize,
    pub total_size: u64,
    pub paths: Vec<String>,
}

#[derive(Debug, Clone, Copy, PartialEq, Eq)]
pub struct StatusResponse {
    pub indexed_count: usize,
    pub is_ready: bool,
    pub watcher_healthy: bool,
    pub watched_dir_count: usize,
    pub watch_failure_count: usize,
    pub watch_overflow_count: u64,
    pub last_updated_unix: i64,
    pub build_duration_ms: u64,
}

#[derive(Debug, Clone, PartialEq, Eq)]
pub enum Response {
    Results(ResultsResponse),
    Status(StatusResponse),
    Ack,
    Error(String),
}

/// A query request, its text as characters.
pub struct QueryView {
    pub id: u64,
    pub raw: Seq<char>,
    pub max_results: usize,
    pub offset: usize,
    pub format: OutputFormat,
    pub highlight: bool,
}

pub enum RequestView {
    Query(QueryView),
    Status,
    Flush,
    Reindex,
    Quit,
}

pub enum ResponseView {
    Results { id: u64, total_count: usize, total_size: u64, paths: Seq<Seq<char>> },
    Status(StatusResponse),
    Ack,
    Error(Seq<char>),
}

impl View for Request {
    type V = RequestView;

    open spec fn view(&self) -> RequestView {
        match self {
            Request::Query(q) => RequestView::Query(
                QueryView {
                    id: q.id,
                    raw: q.raw@,
                    max_results: q.max_results,
                    offset: q.offset,
                    format: q.format,
                    highlight: q.highlight,
                },
            ),
            Request::Status => RequestView::Status,
            Request::Flush => RequestView::Flush,
            Request::Reindex => RequestView::Reindex,
            Request::Quit => RequestView::Quit,
        }
    }
}

pub open spec fn strings_view(v: Seq<String>) -> Seq<Seq<char>> {
    Seq::new(v.len(), |i: int| v[i]@)
}

impl View for Response {
    type V = ResponseView;

    open spec fn view(&self) -> ResponseView {
        match self {
            Response::Results(r) => ResponseView::Results {
                id: r.id,
                total_count: r.total_count,
                total_size: r.total_size,
                paths: strings_view(r.paths@),
            },
            Response::Status(s) => ResponseView::Status(*s),
            Response::Ack => ResponseView::Ack,
            Response::Error(e) => ResponseView::Error(e@),
        }
    }
}

pub open spec fn format_byte(f: OutputFormat) -> u8 {
    match f {
        OutputFormat::Default => 0,
        OutputFormat::Csv => 1,
        OutputFormat::Tsv => 2,
        OutputFormat::Txt => 3,
        OutputFormat::Efu => 4,
    }
}

pub open spec fn format_of_byte(b: u8) -> Option<OutputFormat> {
    if b == 0 {
        Some(OutputFormat::Default)
    } else if b == 1 {
        Some(OutputFormat::Csv)
    } else if b == 2 {
        Some(OutputFormat::Tsv)
    } else if b == 3 {
        Some(OutputFormat::Txt)
    } else if b == 4 {
        Some(OutputFormat::Efu)
    } else {
        None
    }
}

impl OutputFormat {
    pub fn to_u8(&self) -> (r: u8)
        ensures
            r == format_byte(*self),
    {
        match self {
            OutputFormat::Default => 0,
            OutputFormat::Csv => 1,
            OutputFormat::Tsv => 2,
            OutputFormat::Txt => 3,
            OutputFormat::Efu => 4,
        }
    }

    pub fn from_u8(v: u8) -> (r: Option<OutputFormat>)
        ensures
            r == format_of_byte(v),
    {
        match v {
            0 => Some(OutputFormat::Default),
            1 => Some(OutputFormat::Csv),
            2 => Some(OutputFormat::Tsv),
            3 => Some(OutputFormat::Txt),
            4 => Some(OutputFormat::Efu),
            _ => None,
        }
    }
}

/// A string on the wire: its byte length, then its bytes.
pub open spec fn string_bytes(s: Seq<char>) -> Seq<u8> {
    le64(encode_utf8(s).len() as u64) + encode_utf8(s)
}

pub open spec fn flag_byte(b: bool) -> u8 {
    if b {
        1
    } else {
        0
    }
}

pub open spec fn request_bytes(r: RequestView) -> Seq<u8> {
    match r {
        RequestView::Query(q) => seq![1u8] + le64(q.id) + string_bytes(q.raw) + le64(q.max_results as u64)
            + le64(q.offset as u64) + seq![format_byte(q.format), flag_byte(q.highlight)],
        RequestView::Status => seq![2u8],
        RequestView::Flush => seq![3u8],
        RequestView::Reindex => seq![4u8],
        RequestView::Quit => seq![5u8],
    }
}

pub open spec fn strings_block(v: Seq<Seq<char>>) -> Seq<u8>
    decreases v.len(),
{
    if v.len() == 0 {
        Seq::empty()
    } else {
        strings_block(v.drop_last()) + string_bytes(v.last())
    }
}

pub open spec fn response_bytes(r: ResponseView) -> Seq<u8> {
    match r {
        ResponseView::Results { id, total_count, total_size, paths } => seq![1u8] + le64(id) + le64(
            total_count as u64,
        ) + le64(total_size) + le64(paths.len() as u64) + strings_block(paths),
        ResponseView::Status(s) => seq![2u8] + le64(s.indexed_count as u64) + seq![
            flag_byte(s.is_ready),
            flag_byte(s.watcher_healthy),
        ] + le64(s.watched_dir_count as u64) + le64(s.watch_failure_count as u64) + le64(
            s.watch_overflow_count,
        ) + le64(s.last_updated_unix as u64) + le64(s.build_duration_ms),
        ResponseView::Ack => seq![3u8],
        ResponseView::Error(e) => seq![4u8] + string_bytes(e),
    }
}

/// A 64-bit integer at `off`, and the offset after it.
pub open spec fn take_u64_spec(b: Seq<u8>, off: int) -> Option<(u64, int)> {
    if off + 8 > b.len() {
        None
    } else {
        Some((u64_at(b, off), off + 8))
    }
}

/// A string at `off` (length, then valid UTF-8 bytes), and the offset after it.
pub open spec fn take_string_spec(b: Seq<u8>, off: int) -> Option<(Seq<char>, int)> {
    if off + 8 > b.len() {
        None
    } else {
        let l = (u64_at(b, off) as usize) as int;
        let s = off + 8;
        if s + l > b.len() || !valid_utf8(b.subrange(s, s + l)) {
            None
        } else {
            Some((decode_utf8(b.subrange(s, s + l)), s + l))
        }
    }
}

fn append(v: &mut Vec<u8>, s: &[u8])
    ensures
        final(v)@ == old(v)@ + s@,
{
    let mut i: usize = 0;
    let ghost v0 = v@;
    while i < s.len()
        invariant
            i <= s@.len(),
            v@ == v0 + s@.subrange(0, i as int),
        decreases s.len() - i,
    {
        v.push(s[i]);
        assert(s@.subrange(0, i + 1) =~= s@.subrange(0, i as int).push(s@[i as int]));
        i += 1;
    }
    assert(s@.subrange(0, s@.len() as int) =~= s@);
}

fn push_u64(buf: &mut Vec<u8>, v: u64)
    ensures
        final(buf)@ == old(buf)@ + le64(v),
{
    let b = u64_to_le_bytes(v);
    append(buf, b.as_slice());
}

fn push_string(buf: &mut Vec<u8>, s: &str)
    ensures
        final(buf)@ == old(buf)@ + string_bytes(s@),
{
    let b = s.as_bytes();
    push_u64(buf, b.len() as u64);
    append(buf, b);
    assert(buf@ =~= old(buf)@ + string_bytes(s@));
}

fn take_u64(buf: &[u8], off: usize) -> (r: Option<(u64, usize)>)
    ensures
        match r {
            Some((v, o)) => take_u64_spec(buf@, off as int) == Some((v, o as int)),
            None => take_u64_spec(buf@, off as int) is None,
        },
{
    let n = buf.len();
    if off > n || n - off < 8 {
        return None;
    }
    let v = vstd::bytes::u64_from_le_bytes(vstd::slice::slice_subrange(buf, off, off + 8));
    Some((v, off + 8))
}

fn take_string(buf: &[u8], off: usize) -> (r: Option<(String, usize)>)
    ensures
        match r {
            Some((s, o)) => take_string_spec(buf@, off as int) == Some((s@, o as int)),
            None => take_string_spec(buf@, off as int) is None,
        },
{
    let (l, s) = match take_u64(buf, off) {
        Some(x) => x,
        None => {
            return None;
        },
    };
    let len = l as usize;
    let n = buf.len();
    if len > n - s {
        return None;
    }
    match crate::text::utf8_to_string(vstd::slice::slice_subrange(buf, s, s + len)) {
        Some(st) => Some((st, s + len)),
        None => None,
    }
}


/// `n` strings one after another from `off`, and the offset after the last.
pub open spec fn take_strings_spec(b: Seq<u8>, off: int, n: nat) -> Option<(Seq<Seq<char>>, int)>
    decreases n,
{
    if n == 0 {
        Some((Seq::empty(), off))
    } else {
        match take_strings_spec(b, off, (n - 1) as nat) {
            None => None,
            Some((ps, o)) => match take_string_spec(b, o) {
                None => None,
                Some((p, o2)) => Some((ps.push(p), o2)),
            },
        }
    }
}

/// What `Request::decode` gives for `b`: the message or the error text.
pub open spec fn decode_request_spec(b: Seq<u8>) -> Result<RequestView, Seq<char>> {
    if b.len() == 0 {
        Err("empty message"@)
    } else if b[0] == 1 {
        match take_u64_spec(b, 1) {
            None => Err("missing id"@),
            Some((id, o1)) => match take_string_spec(b, o1) {
                None => Err("missing raw"@),
                Some((raw, o2)) => match take_u64_spec(b, o2) {
                    None => Err("missing max_results"@),
                    Some((max_results, o3)) => match take_u64_spec(b, o3) {
                        None => Err("missing offset"@),
                        Some((offset, o4)) => if o4 >= b.len() || format_of_byte(b[o4]) is None {
                            Err("missing format"@)
                        } else {
                            Ok(
                                RequestView::Query(
                                    QueryView {
                                        id,
                                        raw,
                                        max_results: max_results as usize,
                                        offset: offset as usize,
                                        format: format_of_byte(b[o4])->0,
                                        highlight: o4 + 1 < b.len() && b[o4 + 1] == 1,
                                    },
                                ),
                            )
                        },
                    },
                },
            },
        }
    } else if b[0] == 2 {
        Ok(RequestView::Status)
    } else if b[0] == 3 {
        Ok(RequestView::Flush)
    } else if b[0] == 4 {
        Ok(RequestView::Reindex)
    } else if b[0] == 5 {
        Ok(RequestView::Quit)
    } else {
        Err("unknown request type"@)
    }
}

/// The results message after its tag byte.
pub open spec fn decode_results_spec(b: Seq<u8>) -> Result<ResponseView, Seq<char>> {
    match take_u64_spec(b, 1) {
        None => Err("missing id"@),
        Some((id, o1)) => match take_u64_spec(b, o1) {
            None => Err("missing total_count"@),
            Some((total_count, o2)) => {
                let (total_size, o3) = match take_u64_spec(b, o2) {
                    Some(x) => x,
                    None => (0u64, o2),
                };
                match take_u64_spec(b, o3) {
                    None => Err("missing path_count"@),
                    Some((count, o4)) => match take_strings_spec(b, o4, (count as usize) as nat) {
                        None => Err("missing path"@),
                        Some((paths, _)) => Ok(
                            ResponseView::Results {
                                id,
                                total_count: total_count as usize,
                                total_size,
                                paths,
                            },
                        ),
                    },
                }
            },
        },
    }
}

/// The status message after its tag byte; a missing flag byte reads as `false`.
pub open spec fn decode_status_spec(b: Seq<u8>) -> Result<ResponseView, Seq<char>> {
    match take_u64_spec(b, 1) {
        None => Err("missing indexed_count"@),
        Some((indexed_count, o1)) => {
            let is_ready = o1 < b.len() && b[o1] == 1;
            let watcher_healthy = o1 + 1 < b.len() && b[o1 + 1] == 1;
            match take_u64_spec(b, o1 + 2) {
                None => Err("missing watched_dir_count"@),
                Some((dirs, o3)) => match take_u64_spec(b, o3) {
                    None => Err("missing watch_failure_count"@),
                    Some((failures, o4)) => match take_u64_spec(b, o4) {
                        None => Err("missing watch_overflow_count"@),
                        Some((overflows, o5)) => match take_u64_spec(b, o5) {
                            None => Err("missing last_updated"@),
                            Some((updated, o6)) => match take_u64_spec(b, o6) {
                                None => Err("missing build_duration"@),
                                Some((duration, _)) => Ok(
                                    ResponseView::Status(
                                        StatusResponse {
                                            indexed_count: indexed_count as usize,
                                            is_ready,
                                            watcher_healthy,
                                            watched_dir_count: dirs as usize,
                                            watch_failure_count: failures as usize,
                                            watch_overflow_count: overflows,
                                            last_updated_unix: updated as i64,
                                            build_duration_ms: duration,
                                        },
                                    ),
                                ),
                            },
                        },
                    },
                },
            }
        },
    }
}

/// What `Response::decode` gives for `b`: the message or the error text.
pub open spec fn decode_response_spec(b: Seq<u8>) -> Result<ResponseView, Seq<char>> {
    if b.len() == 0 {
        Err("empty message"@)
    } else if b[0] == 1 {
        decode_results_spec(b)
    } else if b[0] == 2 {
        decode_status_spec(b)
    } else if b[0] == 3 {
        Ok(ResponseView::Ack)
    } else if b[0] == 4 {
        match take_string_spec(b, 1) {
            None => Err("missing error"@),
            Some((e, _)) => Ok(ResponseView::Error(e)),
        }
    } else {
        Err("unknown response type"@)
    }
}

impl Request {
    pub fn encode(&self) -> (r: Vec<u8>)
        ensures
            r@ == request_bytes(self@),
    {
        let mut buf: Vec<u8> = Vec::new();
        match self {
            Request::Query(q) => {
                buf.push(1);
                push_u64(&mut buf, q.id);
                push_string(&mut buf, q.raw.as_str());
                push_u64(&mut buf, q.max_results as u64);
                push_u64(&mut buf, q.offset as u64);
                buf.push(q.format.to_u8());
                buf.push(if q.highlight { 1 } else { 0 });
            },
            Request::Status => buf.push(2),
            Request::Flush => buf.push(3),
            Request::Reindex => buf.push(4),
            Request::Quit => buf.push(5),
        }
        assert(buf@ =~= request_bytes(self@));
        buf
    }

    pub fn decode(bytes: &[u8]) -> (r: Result<Request, String>)
        ensures
            match r {
                Ok(q) => decode_request_spec(bytes@) == Ok::<RequestView, Seq<char>>(q@),
                Err(e) => decode_request_spec(bytes@) == Err::<RequestView, Seq<char>>(e@),
            },
    {
        let n = bytes.len();
        if n == 0 {
            return Err(string_of("empty message"));
        }
        let tag = bytes[0];
        if tag == 1 {
            let (id, o1) = match take_u64(bytes, 1) {
                Some(x) => x,
                None => {
                    return Err(string_of("missing id"));
                },
            };
            let (raw, o2) = match take_string(bytes, o1) {
                Some(x) => x,
                None => {
                    return Err(string_of("missing raw"));
                },
            };
            let (max_results, o3) = match take_u64(bytes, o2) {
                Some(x) => x,
                None => {
                    return Err(string_of("missing max_results"));
                },
            };
            let (offset, o4) = match take_u64(bytes, o3) {
                Some(x) => x,
                None => {
                    return Err(string_of("missing offset"));
                },
            };
            if o4 >= n {
                return Err(string_of("missing format"));
            }
            let format = match OutputFormat::from_u8(bytes[o4]) {
                Some(f) => f,
                None => {
                    return Err(string_of("missing format"));
                },
            };
            let highlight = o4 + 1 < n && bytes[o4 + 1] == 1;
            Ok(
                Request::Query(
                    QueryRequest {
                        id,
                        raw,
                        max_results: max_results as usize,
                        offset: offset as usize,
                        format,
                        highlight,
                    },
                ),
            )
        } else if tag == 2 {
            Ok(Request::Status)
        } else if tag == 3 {
            Ok(Request::Flush)
        } else if tag == 4 {
            Ok(Request::Reindex)
        } else if tag == 5 {
            Ok(Request::Quit)
        } else {
            Err(string_of("unknown request type"))
        }
    }
}


/// Once `m` strings cannot be read, neither can more.
proof fn lemma_take_strings_stuck(b: Seq<u8>, off: int, m: nat, n: nat)
    requires
        m <= n,
        take_strings_spec(b, off, m) is None,
    ensures
        take_strings_spec(b, off, n) is None,
    decreases n - m,
{
    if m < n {
        lemma_take_strings_stuck(b, off, (m + 1) as nat, n);
    }
}

fn push_strings(buf: &mut Vec<u8>, v: &Vec<String>)
    ensures
        final(buf)@ == old(buf)@ + strings_block(strings_view(v@)),
{
    let ghost b0 = buf@;
    let mut i: usize = 0;
    while i < v.len()
        invariant
            i <= v@.len(),
            buf@ == b0 + strings_block(strings_view(v@.subrange(0, i as int))),
        decreases v.len() - i,
    {
        push_string(buf, v[i].as_str());
        proof {
            let a = strings_view(v@.subrange(0, i as int));
            let c = strings_view(v@.subrange(0, i + 1));
            assert(c.drop_last() =~= a);
            assert(c.last() == v@[i as int]@);
            assert(buf@ =~= b0 + strings_block(c));
        }
        i += 1;
    }
    assert(v@.subrange(0, v@.len() as int) =~= v@);
}

fn take_strings(buf: &[u8], off: usize, count: usize) -> (r: Option<(Vec<String>, usize)>)
    ensures
        match r {
            Some((v, o)) => take_strings_spec(buf@, off as int, count as nat) == Some((strings_view(v@), o as int)),
            None => take_strings_spec(buf@, off as int, count as nat) is None,
        },
{
    let mut paths: Vec<String> = Vec::new();
    let mut cur = off;
    let mut i: usize = 0;
    while i < count
        invariant
            i <= count,
            take_strings_spec(buf@, off as int, i as nat) == Some((strings_view(paths@), cur as int)),
        decreases count - i,
    {
        match take_string(buf, cur) {
            Some((p, o)) => {
                let ghost before = paths@;
                paths.push(p);
                assert(strings_view(paths@) =~= strings_view(before).push(p@));
                cur = o;
            },
            None => {
                proof {
                    lemma_take_strings_stuck(buf@, off as int, (i + 1) as nat, count as nat);
                }
                return None;
            },
        }
        i += 1;
    }
    Some((paths, cur))
}

impl Response {
    pub fn encode(&self) -> (r: Vec<u8>)
        ensures
            r@ == response_bytes(self@),
    {
        let mut buf: Vec<u8> = Vec::new();
        match self {
            Response::Results(r) => {
                buf.push(1);
                push_u64(&mut buf, r.id);
                push_u64(&mut buf, r.total_count as u64);
                push_u64(&mut buf, r.total_size);
                push_u64(&mut buf, r.paths.len() as u64);
                push_strings(&mut buf, &r.paths);
            },
            Response::Status(s) => {
                buf.push(2);
                push_u64(&mut buf, s.indexed_count as u64);
                buf.push(if s.is_ready { 1 } else { 0 });
                buf.push(if s.watcher_healthy { 1 } else { 0 });
                push_u64(&mut buf, s.watched_dir_count as u64);
                push_u64(&mut buf, s.watch_failure_count as u64);
                push_u64(&mut buf, s.watch_overflow_count);
                push_u64(&mut buf, s.last_updated_unix as u64);
                push_u64(&mut buf, s.build_duration_ms);
            },
            Response::Ack => buf.push(3),
            Response::Error(e) => {
                buf.push(4);
                push_string(&mut buf, e.as_str());
            },
        }
        assert(buf@ =~= response_bytes(self@));
        buf
    }

    pub fn decode(bytes: &[u8]) -> (r: Result<Response, String>)
        ensures
            match r {
                Ok(m) => decode_response_spec(bytes@) == Ok::<ResponseView, Seq<char>>(m@),
                Err(e) => decode_response_spec(bytes@) == Err::<ResponseView, Seq<char>>(e@),
            },
    {
        let n = bytes.len();
        if n == 0 {
            return Err(string_of("empty message"));
        }
        let tag = bytes[0];
        if tag == 1 {
            Self::decode_results(bytes)
        } else if tag == 2 {
            Self::decode_status(bytes)
        } else if tag == 3 {
            Ok(Response::Ack)
        } else if tag == 4 {
            match take_string(bytes, 1) {
                Some((e, _)) => Ok(Response::Error(e)),
                None => Err(string_of("missing error")),
            }
        } else {
            Err(string_of("unknown response type"))
        }
    }

    fn decode_results(bytes: &[u8]) -> (r: Result<Response, String>)
        ensures
            match r {
                Ok(m) => decode_results_spec(bytes@) == Ok::<ResponseView, Seq<char>>(m@),
                Err(e) => decode_results_spec(bytes@) == Err::<ResponseView, Seq<char>>(e@),
            },
    {
        let (id, o1) = match take_u64(bytes, 1) {
            Some(x) => x,
            None => {
                return Err(string_of("missing id"));
            },
        };
        let (total_count, o2) = match take_u64(bytes, o1) {
            Some(x) => x,
            None => {
                return Err(string_of("missing total_count"));
            },
        };
        let (total_size, o3) = match take_u64(bytes, o2) {
            Some(x) => x,
            None => (0u64, o2),
        };
        let (count, o4) = match take_u64(bytes, o3) {
            Some(x) => x,
            None => {
                return Err(string_of("missing path_count"));
            },
        };
        match take_strings(bytes, o4, count as usize) {
            Some((paths, _)) => Ok(
                Response::Results(
                    ResultsResponse { id, total_count: total_count as usize, total_size, paths },
                ),
            ),
            None => Err(string_of("missing path")),
        }
    }

    fn decode_status(bytes: &[u8]) -> (r: Result<Response, String>)
        requires
            bytes@.len() > 0,
        ensures
            match r {
                Ok(m) => decode_status_spec(bytes@) == Ok::<ResponseView, Seq<char>>(m@),
                Err(e) => decode_status_spec(bytes@) == Err::<ResponseView, Seq<char>>(e@),
            },
    {
        let n = bytes.len();
        let (indexed_count, o1) = match take_u64(bytes, 1) {
            Some(x) => x,
            None => {
                return Err(string_of("missing indexed_count"));
            },
        };
        let is_ready = o1 < n && bytes[o1] == 1;
        let watcher_healthy = o1 + 1 < n && bytes[o1 + 1] == 1;
        if n - o1 < 2 {
            return Err(string_of("missing watched_dir_count"));
        }
        let (dirs, o3) = match take_u64(bytes, o1 + 2) {
            Some(x) => x,
            None => {
                return Err(string_of("missing watched_dir_count"));
            },
        };
        let (failures, o4) = match take_u64(bytes, o3) {
            Some(x) => x,
            None => {
                return Err(string_of("missing watch_failure_count"));
            },
        };
        let (overflows, o5) = match take_u64(bytes, o4) {
            Some(x) => x,
            None => {
                return Err(string_of("missing watch_overflow_count"));
            },
        };
        let (updated, o6) = match take_u64(bytes, o5) {
            Some(x) => x,
            None => {
                return Err(string_of("missing last_updated"));
            },
        };
        let (duration, _) = match take_u64(bytes, o6) {
            Some(x) => x,
            None => {
                return Err(string_of("missing build_duration"));
            },
        };
        Ok(
            Response::Status(
                StatusResponse {
                    indexed_count: indexed_count as usize,
                    is_ready,
                    watcher_healthy,
                    watched_dir_count: dirs as usize,
                    watch_failure_count: failures as usize,
                    watch_overflow_count: overflows,
                    last_updated_unix: updated as i64,
                    build_duration_ms: duration,
                },
            ),
        )
    }
}


/// A string whose UTF-8 length fits the length field that a reader takes back as `usize`.
pub open spec fn fits_wire(s: Seq<char>) -> bool {
    encode_utf8(s).len() <= usize::MAX
}

proof fn lemma_take_u64_at(pre: Seq<u8>, v: u64, rest: Seq<u8>)
    ensures
        take_u64_spec(pre + le64(v) + rest, pre.len() as int) == Some((v, pre.len() + 8int)),
{
    crate::db::lemma_le_roundtrips();
    let d = pre + le64(v) + rest;
    assert(d.subrange(pre.len() as int, pre.len() + 8int) =~= le64(v));
}

proof fn lemma_take_string_at(pre: Seq<u8>, s: Seq<char>, rest: Seq<u8>)
    requires
        fits_wire(s),
    ensures
        take_string_spec(pre + string_bytes(s) + rest, pre.len() as int) == Some(
            (s, pre.len() + string_bytes(s).len() as int),
        ),
{
    broadcast use encode_utf8_valid_utf8, encode_utf8_decode_utf8;

    let e = encode_utf8(s);
    let d = pre + string_bytes(s) + rest;
    assert(d =~= pre + le64(e.len() as u64) + (e + rest));
    lemma_take_u64_at(pre, e.len() as u64, e + rest);
    crate::db::lemma_le_roundtrips();
    let st: int = pre.len() + 8int;
    assert(d.subrange(st, st + e.len() as int) =~= e);
}

proof fn lemma_take_strings_at(pre: Seq<u8>, v: Seq<Seq<char>>, rest: Seq<u8>)
    requires
        forall|i: int| 0 <= i < v.len() ==> fits_wire(#[trigger] v[i]),
    ensures
        take_strings_spec(pre + strings_block(v) + rest, pre.len() as int, v.len()) == Some(
            (v, pre.len() + strings_block(v).len() as int),
        ),
    decreases v.len(),
{
    if v.len() > 0 {
        let w = v.drop_last();
        let last = v.last();
        assert(fits_wire(v[v.len() - 1]));
        let d = pre + strings_block(v) + rest;
        assert(d =~= pre + strings_block(w) + (string_bytes(last) + rest));
        lemma_take_strings_at(pre, w, string_bytes(last) + rest);
        assert(d =~= (pre + strings_block(w)) + string_bytes(last) + rest);
        lemma_take_string_at(pre + strings_block(w), last, rest);
        assert(w.push(last) =~= v);
    } else {
        assert(v =~= Seq::<Seq<char>>::empty());
    }
}

/// Every request reads back as itself: decoding what `Request::encode` writes gives the same
/// request.
pub proof fn law_request_roundtrip(r: RequestView)
    requires
        r matches RequestView::Query(q) ==> fits_wire(q.raw),
    ensures
        decode_request_spec(request_bytes(r)) == Ok::<RequestView, Seq<char>>(r),
{
    if let RequestView::Query(q) = r {
        let b = request_bytes(r);
        let tail = seq![format_byte(q.format), flag_byte(q.highlight)];
        let sb = string_bytes(q.raw);
        let p1 = seq![1u8];
        let p2 = p1 + le64(q.id);
        let p3 = p2 + sb;
        let p4 = p3 + le64(q.max_results as u64);
        let p5 = p4 + le64(q.offset as u64);
        crate::db::lemma_le_roundtrips();
        assert(b =~= p1 + le64(q.id) + (sb + le64(q.max_results as u64) + le64(q.offset as u64) + tail));
        lemma_take_u64_at(p1, q.id, sb + le64(q.max_results as u64) + le64(q.offset as u64) + tail);
        assert(b =~= p2 + sb + (le64(q.max_results as u64) + le64(q.offset as u64) + tail));
        lemma_take_string_at(p2, q.raw, le64(q.max_results as u64) + le64(q.offset as u64) + tail);
        assert(b =~= p3 + le64(q.max_results as u64) + (le64(q.offset as u64) + tail));
        lemma_take_u64_at(p3, q.max_results as u64, le64(q.offset as u64) + tail);
        assert(b =~= p4 + le64(q.offset as u64) + tail);
        lemma_take_u64_at(p4, q.offset as u64, tail);
        assert(b =~= p5 + tail);
        assert(b[p5.len() as int] == format_byte(q.format));
        assert(b[p5.len() + 1int] == flag_byte(q.highlight));
        assert(b.len() == p5.len() + 2);
    }
}

/// Every response reads back as itself: decoding what `Response::encode` writes gives the same
/// response.
pub proof fn law_response_roundtrip(r: ResponseView)
    requires
        r matches ResponseView::Results { paths, .. } ==> paths.len() <= usize::MAX && forall|i: int|
            0 <= i < paths.len() ==> fits_wire(#[trigger] paths[i]),
        r matches ResponseView::Error(e) ==> fits_wire(e),
    ensures
        decode_response_spec(response_bytes(r)) == Ok::<ResponseView, Seq<char>>(r),
{
    let b = response_bytes(r);
    crate::db::lemma_le_roundtrips();
    match r {
        ResponseView::Results { id, total_count, total_size, paths } => {
            let blk = strings_block(paths);
            let p1 = seq![1u8];
            let p2 = p1 + le64(id);
            let p3 = p2 + le64(total_count as u64);
            let p4 = p3 + le64(total_size);
            let p5 = p4 + le64(paths.len() as u64);
            let e = Seq::<u8>::empty();
            assert(b =~= p1 + le64(id) + (le64(total_count as u64) + le64(total_size) + le64(
                paths.len() as u64,
            ) + blk));
            lemma_take_u64_at(p1, id, le64(total_count as u64) + le64(total_size) + le64(
                paths.len() as u64,
            ) + blk);
            assert(b =~= p2 + le64(total_count as u64) + (le64(total_size) + le64(
                paths.len() as u64,
            ) + blk));
            lemma_take_u64_at(p2, total_count as u64, le64(total_size) + le64(paths.len() as u64) + blk);
            assert(b =~= p3 + le64(total_size) + (le64(paths.len() as u64) + blk));
            lemma_take_u64_at(p3, total_size, le64(paths.len() as u64) + blk);
            assert(b =~= p4 + le64(paths.len() as u64) + blk);
            lemma_take_u64_at(p4, paths.len() as u64, blk);
            assert(b =~= p5 + blk + e);
            lemma_take_strings_at(p5, paths, e);
        },
        ResponseView::Status(s) => {
            let flags = seq![flag_byte(s.is_ready), flag_byte(s.watcher_healthy)];
            let rest = le64(s.watched_dir_count as u64) + le64(s.watch_failure_count as u64) + le64(
                s.watch_overflow_count,
            ) + le64(s.last_updated_unix as u64) + le64(s.build_duration_ms);
            let p1 = seq![2u8];
            let p2 = p1 + le64(s.indexed_count as u64) + flags;
            let p3 = p2 + le64(s.watched_dir_count as u64);
            let p4 = p3 + le64(s.watch_failure_count as u64);
            let p5 = p4 + le64(s.watch_overflow_count);
            let p6 = p5 + le64(s.last_updated_unix as u64);
            let e = Seq::<u8>::empty();
            assert(b =~= p1 + le64(s.indexed_count as u64) + (flags + rest));
            lemma_take_u64_at(p1, s.indexed_count as u64, flags + rest);
            assert(b[9] == flag_byte(s.is_ready));
            assert(b[10] == flag_byte(s.watcher_healthy));
            assert(b =~= p2 + le64(s.watched_dir_count as u64) + (le64(s.watch_failure_count as u64)
                + le64(s.watch_overflow_count) + le64(s.last_updated_unix as u64) + le64(
                s.build_duration_ms,
            )));
            lemma_take_u64_at(p2, s.watched_dir_count as u64, le64(s.watch_failure_count as u64)
                + le64(s.watch_overflow_count) + le64(s.last_updated_unix as u64) + le64(
                s.build_duration_ms,
            ));
            assert(b =~= p3 + le64(s.watch_failure_count as u64) + (le64(s.watch_overflow_count)
                + le64(s.last_updated_unix as u64) + le64(s.build_duration_ms)));
            lemma_take_u64_at(p3, s.watch_failure_count as u64, le64(s.watch_overflow_count) + le64(
                s.last_updated_unix as u64,
            ) + le64(s.build_duration_ms));
            assert(b =~= p4 + le64(s.watch_overflow_count) + (le64(s.last_updated_unix as u64)
                + le64(s.build_duration_ms)));
            lemma_take_u64_at(p4, s.watch_overflow_count, le64(s.last_updated_unix as u64) + le64(
                s.build_duration_ms,
            ));
            assert(b =~= p5 + le64(s.last_updated_unix as u64) + le64(s.build_duration_ms));
            lemma_take_u64_at(p5, s.last_updated_unix as u64, le64(s.build_duration_ms));
            assert(b =~= p6 + le64(s.build_duration_ms) + e);
            lemma_take_u64_at(p6, s.build_duration_ms, e);
            let t = s.last_updated_unix;
            assert((t as u64) as i64 == t) by (bit_vector);
        },
        ResponseView::Ack => {},
        ResponseView::Error(msg) => {
            let e = Seq::<u8>::empty();
            assert(b =~= seq![4u8] + string_bytes(msg) + e);
            lemma_take_string_at(seq![4u8], msg, e);
        },
    }
}

} // verus!
