//! The HTTP/1.1 that the RPC transport needs: request heads with the methods
//! `RPC_IN_DATA` and `RPC_OUT_DATA`, response heads, and the PDUs that stream
//! through the bodies.
use vstd::prelude::*;
use vstd::string::*;

use crate::error;
use crate::error::{ErrorView, GatewayError};
use crate::pdu;
use crate::pdu::CommonHeader;
use crate::text;

verus! {

/// A parsed response head, with the body where its length is declared.
#[derive(Debug)]
pub struct Response {
    pub status: u16,
    pub reason: String,
    pub headers: Vec<(String, String)>,
    pub body: Vec<u8>,
}

/// What names and values a list of headers holds.
pub open spec fn pairs(headers: Seq<(String, String)>) -> Seq<(Seq<char>, Seq<char>)> {
    Seq::new(headers.len(), |i: int| (headers[i].0@, headers[i].1@))
}

/// The value of the first header of that name, in whatever case it is written.
pub open spec fn found_header(headers: Seq<(Seq<char>, Seq<char>)>, name: Seq<char>) -> Option<
    Seq<char>,
>
    decreases headers.len(),
{
    if headers.len() == 0 {
        None
    } else if text::same_ignoring_case(headers[0].0, name) {
        Some(headers[0].1)
    } else {
        found_header(headers.skip(1), name)
    }
}

/// Whether a header offers NTLM.
pub open spec fn offers_ntlm(header: (Seq<char>, Seq<char>)) -> bool {
    text::same_ignoring_case(header.0, "WWW-Authenticate"@) && "NTLM"@.is_prefix_of(
        text::trimmed(header.1),
    )
}

/// What the first header that offers NTLM says behind that word.
pub open spec fn ntlm_token(headers: Seq<(Seq<char>, Seq<char>)>) -> Option<Seq<char>>
    decreases headers.len(),
{
    if headers.len() == 0 {
        None
    } else if offers_ntlm(headers[0]) {
        Some(text::trimmed(text::trimmed(headers[0].1).skip("NTLM"@.len() as int)))
    } else {
        ntlm_token(headers.skip(1))
    }
}

/// The length that a response declares for its body; zero where it declares none
/// that can be read.
pub open spec fn declared_length(headers: Seq<(Seq<char>, Seq<char>)>) -> usize {
    match found_header(headers, "Content-Length"@) {
        Some(v) => match text::number_up_to(v, usize::MAX as nat) {
            Some(n) => n as usize,
            None => 0,
        },
        None => 0,
    }
}

impl Response {
    /// Case-insensitive header lookup (first match).
    pub fn header<'a>(&'a self, name: &str) -> (r: Option<&'a str>)
        ensures
            match r {
                Some(v) => found_header(pairs(self.headers@), name@) == Some(v@),
                None => found_header(pairs(self.headers@), name@) is None,
            },
    {
        let ghost all = pairs(self.headers@);
        let mut i: usize = 0;
        assert(all.skip(0) =~= all);
        while i < self.headers.len()
            invariant
                i <= self.headers@.len(),
                all == pairs(self.headers@),
                found_header(all, name@) == found_header(all.skip(i as int), name@),
            decreases self.headers@.len() - i,
        {
            assert(all.skip(i as int)[0] == all[i as int]);
            assert(all.skip(i as int).skip(1) =~= all.skip(i + 1));
            if text::eq_ignore_case(self.headers[i].0.as_str(), name) {
                return Some(self.headers[i].1.as_str());
            }
            i = i + 1;
        }
        None
    }

    /// The base64 token of a `WWW-Authenticate: NTLM <token>` header, if any. A bare
    /// `NTLM` gives the empty text: the initial offer of the server.
    pub fn www_authenticate_ntlm<'a>(&'a self) -> (r: Option<&'a str>)
        ensures
            match r {
                Some(v) => ntlm_token(pairs(self.headers@)) == Some(v@),
                None => ntlm_token(pairs(self.headers@)) is None,
            },
    {
        let ghost all = pairs(self.headers@);
        let mut i: usize = 0;
        assert(all.skip(0) =~= all);
        while i < self.headers.len()
            invariant
                i <= self.headers@.len(),
                all == pairs(self.headers@),
                ntlm_token(all) == ntlm_token(all.skip(i as int)),
            decreases self.headers@.len() - i,
        {
            assert(all.skip(i as int)[0] == all[i as int]);
            assert(all.skip(i as int).skip(1) =~= all.skip(i + 1));
            if text::eq_ignore_case(self.headers[i].0.as_str(), "WWW-Authenticate") {
                match text::strip_prefix(text::trim(self.headers[i].1.as_str()), "NTLM") {
                    Some(rest) => {
                        return Some(text::trim(rest));
                    },
                    None => {},
                }
            }
            i = i + 1;
        }
        None
    }

    /// The length of the body that follows the head.
    pub fn content_length(&self) -> (n: usize)
        ensures
            n == declared_length(pairs(self.headers@)),
    {
        match self.header("Content-Length") {
            Some(v) => match text::parse_number(v, usize::MAX as u64) {
                Some(n) => n as usize,
                None => 0,
            },
            None => 0,
        }
    }
}

/// The header lines of a request.
pub open spec fn header_lines(headers: Seq<(Seq<char>, Seq<char>)>) -> Seq<char>
    decreases headers.len(),
{
    if headers.len() == 0 {
        Seq::empty()
    } else {
        header_lines(headers.drop_last()) + headers.last().0 + ": "@ + headers.last().1 + "\r\n"@
    }
}

/// The head of a request to the RPC proxy: the lines it expects, then `headers`,
/// then the length of the body.
pub open spec fn request_text(
    method: Seq<char>,
    uri: Seq<char>,
    host: Seq<char>,
    content_length: u64,
    headers: Seq<(Seq<char>, Seq<char>)>,
) -> Seq<char> {
    method + " "@ + uri + " HTTP/1.1\r\nHost: "@ + host
        + "\r\nAccept: application/rpc\r\nCache-Control: no-cache\r\nUser-Agent: MSRPC\r\nPragma: ResourceTypeUuid=44e265dd-7daf-42cd-8560-3cdb6e7a2729\r\n"@
        + header_lines(headers) + "Content-Length: "@ + text::dec(content_length as nat)
        + "\r\nConnection: keep-alive\r\n\r\n"@
}

/// The head of a request.
pub fn request_head(
    method: &str,
    uri: &str,
    host: &str,
    content_length: u64,
    headers: &[(String, String)],
) -> (head: String)
    ensures
        head@ == request_text(method@, uri@, host@, content_length, pairs(headers@)),
{
    let start = method.to_owned().concat(" ").concat(uri).concat(" HTTP/1.1\r\nHost: ").concat(
        host,
    ).concat(
        "\r\nAccept: application/rpc\r\nCache-Control: no-cache\r\nUser-Agent: MSRPC\r\nPragma: ResourceTypeUuid=44e265dd-7daf-42cd-8560-3cdb6e7a2729\r\n",
    );
    let mut lines = String::new();
    let ghost all = pairs(headers@);
    let mut i: usize = 0;
    assert(all.take(0) =~= Seq::empty());
    while i < headers.len()
        invariant
            i <= headers@.len(),
            all == pairs(headers@),
            lines@ == header_lines(all.take(i as int)),
        decreases headers@.len() - i,
    {
        assert(all.take(i + 1).drop_last() =~= all.take(i as int));
        lines = lines.concat(headers[i].0.as_str()).concat(": ").concat(
            headers[i].1.as_str(),
        ).concat("\r\n");
        i = i + 1;
    }
    assert(all.take(i as int) =~= all);
    start.concat(lines.as_str()).concat("Content-Length: ").concat(
        text::dec_string(content_length).as_str(),
    ).concat("\r\nConnection: keep-alive\r\n\r\n")
}

/// `text` as the `Debug` format of a string writes it: in quotes, with escapes.
pub uninterp spec fn quoted(text: Seq<char>) -> Seq<char>;

/// The `Debug` format of `str`, whose result is named [`quoted`]: it depends on
/// the text alone.
#[verifier::external_body]
fn quote(text: &str) -> (r: String)
    ensures
        r@ == quoted(text@),
{
    format!("{text:?}")
}

/// The error of a status line, given how it is quoted.
pub fn bad_status_line(line: &str) -> (e: GatewayError)
    ensures
        e@ == ErrorView::Protocol("bad status line: "@ + line@),
{
    GatewayError::Protocol("bad status line: ".to_owned().concat(line))
}

/// Status and reason of a status line such as `HTTP/1.1 401 Unauthorized`, whose
/// end has been trimmed.
pub open spec fn status_of(line: Seq<char>) -> Result<(u16, Seq<char>), ErrorView> {
    let bad = ErrorView::Protocol("bad status line: "@ + quoted(line));
    match text::split(line, ' ') {
        None => Err(bad),
        Some((_, rest)) => {
            let (code, reason) = match text::split(rest, ' ') {
                Some((code, reason)) => (code, reason),
                None => (rest, Seq::empty()),
            };
            match text::number_up_to(code, u16::MAX as nat) {
                Some(n) => Ok((n as u16, reason)),
                None => Err(bad),
            }
        },
    }
}

fn parse_status(line: &str) -> (r: Result<(u16, String), GatewayError>)
    ensures
        match r {
            Ok((status, reason)) => status_of(line@) == Ok::<_, ErrorView>((status, reason@)),
            Err(e) => status_of(line@) == Err::<(u16, Seq<char>), _>(e@),
        },
{
    match text::split_once(line, ' ') {
        None => {},
        Some((_, rest)) => {
            let (code, reason) = match text::split_once(rest, ' ') {
                Some((code, reason)) => (code, reason.to_owned()),
                None => (rest, String::new()),
            };
            match text::parse_number(code, u16::MAX as u64) {
                Some(n) => {
                    return Ok((n as u16, reason));
                },
                None => {},
            }
        },
    }
    Err(bad_status_line(quote(line).as_str()))
}

/// What is known of a response head so far.
pub struct HeadView {
    pub status: Option<(u16, Seq<char>)>,
    pub headers: Seq<(Seq<char>, Seq<char>)>,
}

/// A head of which nothing is known yet.
pub open spec fn fresh_head() -> HeadView {
    HeadView { status: None, headers: Seq::empty() }
}

/// What a line makes of a head.
pub enum HeadStep {
    More(HeadView),
    Complete(HeadView),
}

/// What `line` makes of a head: the first line is the status line, an empty line
/// ends the head, and a line without a colon counts for nothing. A line of no
/// characters at all, not even a line end, is the end of the stream.
pub open spec fn after_line(head: HeadView, line: Seq<char>) -> Result<HeadStep, ErrorView> {
    let l = text::trimmed_end(line);
    if line.len() == 0 {
        Err(ErrorView::Protocol("gateway closed the connection"@))
    } else {
        match head.status {
            None => match status_of(l) {
                Err(e) => Err(e),
                Ok(status) => Ok(
                    HeadStep::More(HeadView { status: Some(status), headers: head.headers }),
                ),
            },
            Some(_) => if l.len() == 0 {
                Ok(HeadStep::Complete(head))
            } else {
                match text::split(l, ':') {
                    None => Ok(HeadStep::More(head)),
                    Some((k, v)) => Ok(
                        HeadStep::More(
                            HeadView {
                                status: head.status,
                                headers: head.headers.push((text::trimmed(k), text::trimmed(v))),
                            },
                        ),
                    ),
                }
            },
        }
    }
}

/// A response head that is being read, line by line.
pub struct HeadReader {
    pub status: Option<(u16, String)>,
    pub headers: Vec<(String, String)>,
}

impl View for HeadReader {
    type V = HeadView;

    open spec fn view(&self) -> HeadView {
        HeadView {
            status: match self.status {
                Some((status, reason)) => Some((status, reason@)),
                None => None,
            },
            headers: pairs(self.headers@),
        }
    }
}

/// A head that needs more lines, or the response it announced.
pub enum Head {
    More(HeadReader),
    Complete(Response),
}

impl HeadReader {
    pub fn new() -> (h: Self)
        ensures
            h@ == fresh_head(),
    {
        let h = HeadReader { status: None, headers: Vec::new() };
        assert(h@.headers =~= Seq::empty());
        h
    }

    /// Take in one line as it was read, with its line end. The response that a
    /// finished head gives has no body yet.
    pub fn on_line(self, line: &str) -> (r: Result<Head, GatewayError>)
        ensures
            match after_line(self@, line@) {
                Err(e) => r is Err && r->Err_0@ == e,
                Ok(HeadStep::More(head)) => r matches Ok(Head::More(h)) && h@ == head,
                Ok(HeadStep::Complete(head)) => r matches Ok(Head::Complete(response)) && Some(
                    (response.status, response.reason@),
                ) == head.status && pairs(response.headers@) == head.headers
                    && response.body@.len() == 0,
            },
    {
        if line.is_empty() {
            return Err(error::protocol_error("gateway closed the connection"));
        }
        let l = text::trim_end(line);
        match self.status {
            None => {
                let status = parse_status(l)?;
                Ok(Head::More(HeadReader { status: Some(status), headers: self.headers }))
            },
            Some((status, reason)) => {
                let mut headers = self.headers;
                if l.is_empty() {
                    return Ok(
                        Head::Complete(Response { status, reason, headers, body: Vec::new() }),
                    );
                }
                match text::split_once(l, ':') {
                    None => {},
                    Some((k, v)) => {
                        let ghost before = pairs(headers@);
                        headers.push((text::trim(k).to_owned(), text::trim(v).to_owned()));
                        assert(pairs(headers@) =~= before.push(
                            (text::trimmed(k@), text::trimmed(v@)),
                        ));
                    },
                }
                Ok(Head::More(HeadReader { status: Some((status, reason)), headers }))
            },
        }
    }
}

/// The length that the header of a PDU gives, the header included.
pub open spec fn framed_length(header: Seq<u8>) -> Result<usize, ErrorView> {
    match pdu::decoded_header(header) {
        Err(e) => Err(e),
        Ok(h) => if h.frag_length < CommonHeader::LEN {
            Err(
                ErrorView::Protocol(
                    "PDU frag_length "@ + text::dec(h.frag_length as nat) + " < header "@
                        + text::dec(CommonHeader::LEN as nat),
                ),
            )
        } else {
            Ok(h.frag_length as usize)
        },
    }
}

/// How many bytes the PDU has whose first bytes are `header`.
pub fn fragment_length(header: &[u8]) -> (r: Result<usize, GatewayError>)
    ensures
        error::outcome(r) == framed_length(header@),
{
    let h = CommonHeader::decode(header)?;
    let frag: usize = h.frag_length as usize;
    if frag < CommonHeader::LEN {
        return Err(
            GatewayError::Protocol(
                "PDU frag_length ".to_owned().concat(text::dec_string(frag as u64).as_str()).concat(
                    " < header ",
                ).concat(text::dec_string(CommonHeader::LEN as u64).as_str()),
            ),
        );
    }
    Ok(frag)
}

/// The error of a host name that resolves to nothing.
pub fn no_address(host: &str, port: u16) -> (e: GatewayError)
    ensures
        e@ == ErrorView::Invalid("no address for "@ + host@ + ":"@ + text::dec(port as nat)),
{
    GatewayError::Invalid(
        "no address for ".to_owned().concat(host).concat(":").concat(
            text::dec_string(port as u64).as_str(),
        ),
    )
}

/// Two spellings of a name that differ only in case find the same header.
pub proof fn lookup_ignores_case(
    headers: Seq<(Seq<char>, Seq<char>)>,
    a: Seq<char>,
    b: Seq<char>,
)
    requires
        text::same_ignoring_case(a, b),
    ensures
        found_header(headers, a) == found_header(headers, b),
    decreases headers.len(),
{
    if headers.len() > 0 {
        let k = headers[0].0;
        assert(text::same_ignoring_case(k, a) == text::same_ignoring_case(k, b)) by {
            if k.len() == a.len() {
                assert forall|i: int| 0 <= i < k.len() implies (#[trigger] text::lower(k[i])
                    == text::lower(a[i])) == (text::lower(k[i]) == text::lower(b[i])) by {
                    assert(text::lower(a[i]) == text::lower(b[i]));
                }
            }
        }
        lookup_ignores_case(headers.skip(1), a, b);
    }
}

/// A PDU whose header gives its length is cut off right where it ends, whatever
/// follows it in the stream.
pub proof fn pdus_are_cut_where_they_end(pdu: Seq<u8>, rest: Seq<u8>)
    requires
        pdu::decoded_header(pdu) is Ok,
        pdu::decoded_header(pdu)->Ok_0.frag_length == pdu.len(),
    ensures
        framed_length((pdu + rest).take(CommonHeader::LEN as int)) == Ok::<usize, ErrorView>(
            pdu.len() as usize,
        ),
        (pdu + rest).take(pdu.len() as int) == pdu,
        (pdu + rest).skip(pdu.len() as int) == rest,
{
    pdu::header_needs_sixteen_bytes(pdu);
    assert((pdu + rest).take(CommonHeader::LEN as int) =~= pdu.take(CommonHeader::LEN as int));
    assert((pdu + rest).take(pdu.len() as int) =~= pdu);
    assert((pdu + rest).skip(pdu.len() as int) =~= rest);
}

proof fn lemma_leading(a: Seq<char>, c: char, b: Seq<char>)
    requires
        forall|i: int| 0 <= i < a.len() ==> #[trigger] a[i] != c,
    ensures
        text::leading(a + seq![c] + b, c) == a.len(),
    decreases a.len(),
{
    let s = a + seq![c] + b;
    if a.len() > 0 {
        assert(s[0] == a[0]);
        assert(s.skip(1) =~= a.skip(1) + seq![c] + b);
        lemma_leading(a.skip(1), c, b);
    } else {
        assert(s[0] == c);
    }
}

/// Behind a word without a space, the status and the reason of a status line read
/// back as they were written.
pub proof fn status_line_reads_back(version: Seq<char>, status: u16, reason: Seq<char>)
    requires
        !version.contains(' '),
    ensures
        status_of(version + seq![' '] + text::dec(status as nat) + seq![' '] + reason) == Ok::<
            (u16, Seq<char>),
            ErrorView,
        >((status, reason)),
{
    let code = text::dec(status as nat);
    let rest = code + seq![' '] + reason;
    let line = version + seq![' '] + code + seq![' '] + reason;
    assert(line =~= version + seq![' '] + rest);
    lemma_leading(version, ' ', rest);
    assert(line.skip(version.len() as int + 1) =~= rest);
    text::decimal_reads_back(status as nat);
    lemma_leading(code, ' ', reason);
    assert(rest.take(code.len() as int) =~= code);
    assert(rest.skip(code.len() as int + 1) =~= reason);
}

/// A header line gives its name and value as they were written, if neither has
/// white space around it and the name has no colon.
pub proof fn header_line_reads_back(head: HeadView, name: Seq<char>, value: Seq<char>)
    requires
        head.status is Some,
        !name.contains(':'),
        text::trimmed(name) == name,
        text::trimmed(value) == value,
    ensures
        after_line(head, name + seq![':', ' '] + value + seq!['\r', '\n']) == Ok::<
            HeadStep,
            ErrorView,
        >(
            HeadStep::More(
                HeadView { status: head.status, headers: head.headers.push((name, value)) },
            ),
        ),
{
    let line = name + seq![':', ' '] + value + seq!['\r', '\n'];
    let l = text::trimmed_end(line);
    text::trimmed_text_has_no_margin(value);
    assert(text::trimmed(value) == value);
    if value.len() > 0 {
        let kept = name + seq![':', ' '] + value;
        text::trailing_space_is_trimmed(kept, seq!['\r', '\n']);
        assert(kept.last() == value.last());
        assert(l == kept);
        let v = seq![' '] + value;
        assert(l =~= name + seq![':'] + v);
        lemma_leading(name, ':', v);
        assert(l.take(name.len() as int) =~= name);
        assert(l.skip(name.len() as int + 1) =~= v);
        assert(v.last() == value.last());
        assert(text::trimmed_end(v) == v);
        assert(v.skip(1) =~= value);
        assert(text::trimmed_start(v) == text::trimmed_start(value));
    } else {
        let kept = name + seq![':'];
        assert(line =~= kept + seq![' ', '\r', '\n']);
        text::trailing_space_is_trimmed(kept, seq![' ', '\r', '\n']);
        assert(kept.last() == ':');
        assert(l == kept);
        assert(l =~= name + seq![':'] + value);
        lemma_leading(name, ':', value);
        assert(l.take(name.len() as int) =~= name);
        assert(l.skip(name.len() as int + 1) =~= value);
    }
}

/// The step after reading some lines from the start of a head. Nothing is read behind a
/// complete head.
pub open spec fn after_lines(lines: Seq<Seq<char>>) -> Result<HeadStep, ErrorView>
    decreases lines.len(),
{
    if lines.len() == 0 {
        Ok(HeadStep::More(fresh_head()))
    } else {
        match after_lines(lines.drop_last()) {
            Ok(HeadStep::More(head)) => after_line(head, lines.last()),
            done => done,
        }
    }
}

/// The line end of HTTP.
pub open spec fn line_end() -> Seq<char> {
    seq!['\r', '\n']
}

/// The line of a header.
pub open spec fn header_line(header: (Seq<char>, Seq<char>)) -> Seq<char> {
    header.0 + seq![':', ' '] + header.1 + line_end()
}

/// The status line of a response.
pub open spec fn status_line(version: Seq<char>, status: u16, reason: Seq<char>) -> Seq<char> {
    version + seq![' '] + text::dec(status as nat) + seq![' '] + reason + line_end()
}

/// The lines of a response head, without the empty one that ends it.
pub open spec fn head_lines(
    version: Seq<char>,
    status: u16,
    reason: Seq<char>,
    headers: Seq<(Seq<char>, Seq<char>)>,
) -> Seq<Seq<char>>
    decreases headers.len(),
{
    if headers.len() == 0 {
        seq![status_line(version, status, reason)]
    } else {
        head_lines(version, status, reason, headers.drop_last()).push(header_line(headers.last()))
    }
}

/// Whether a header can be told from its line: no white space around name and value, and
/// no colon in the name.
pub open spec fn is_plain(header: (Seq<char>, Seq<char>)) -> bool {
    !header.0.contains(':') && text::trimmed(header.0) == header.0 && text::trimmed(header.1)
        == header.1
}

/// A response head reads back as its status, reason and headers, if the reason does not
/// end with white space and the headers are plain.
pub proof fn response_head_reads_back(
    version: Seq<char>,
    status: u16,
    reason: Seq<char>,
    headers: Seq<(Seq<char>, Seq<char>)>,
)
    requires
        !version.contains(' '),
        text::trimmed_end(reason) == reason,
        forall|i: int| 0 <= i < headers.len() ==> is_plain(#[trigger] headers[i]),
    ensures
        after_lines(head_lines(version, status, reason, headers).push(line_end())) == Ok::<
            HeadStep,
            ErrorView,
        >(HeadStep::Complete(HeadView { status: Some((status, reason)), headers })),
{
    let lines = head_lines(version, status, reason, headers);
    lemma_head_lines(version, status, reason, headers);
    assert(lines.push(line_end()).drop_last() =~= lines);
    text::trailing_space_is_trimmed(Seq::empty(), line_end());
    assert(Seq::<char>::empty() + line_end() =~= line_end());
}

proof fn lemma_head_lines(
    version: Seq<char>,
    status: u16,
    reason: Seq<char>,
    headers: Seq<(Seq<char>, Seq<char>)>,
)
    requires
        !version.contains(' '),
        text::trimmed_end(reason) == reason,
        forall|i: int| 0 <= i < headers.len() ==> is_plain(#[trigger] headers[i]),
    ensures
        after_lines(head_lines(version, status, reason, headers)) == Ok::<HeadStep, ErrorView>(
            HeadStep::More(HeadView { status: Some((status, reason)), headers }),
        ),
    decreases headers.len(),
{
    let lines = head_lines(version, status, reason, headers);
    if headers.len() == 0 {
        lemma_status_line(version, status, reason);
        assert(lines.drop_last() =~= Seq::empty());
        assert(headers =~= Seq::empty());
        reveal_with_fuel(after_lines, 2);
    } else {
        let front = headers.drop_last();
        assert forall|i: int| 0 <= i < front.len() implies is_plain(#[trigger] front[i]) by {
            assert(front[i] == headers[i]);
        }
        lemma_head_lines(version, status, reason, front);
        assert(lines.drop_last() =~= head_lines(version, status, reason, front));
        assert(is_plain(headers[headers.len() - 1]));
        header_line_reads_back(
            HeadView { status: Some((status, reason)), headers: front },
            headers.last().0,
            headers.last().1,
        );
        assert(front.push(headers.last()) =~= headers);
    }
}

proof fn lemma_status_line(version: Seq<char>, status: u16, reason: Seq<char>)
    requires
        !version.contains(' '),
        text::trimmed_end(reason) == reason,
    ensures
        after_line(
            HeadView { status: None, headers: Seq::empty() },
            status_line(version, status, reason),
        ) == Ok::<HeadStep, ErrorView>(
            HeadStep::More(HeadView { status: Some((status, reason)), headers: Seq::empty() }),
        ),
{
    let line = status_line(version, status, reason);
    let code = text::dec(status as nat);
    text::decimal_reads_back(status as nat);
    let front = version + seq![' '] + code;
    if reason.len() > 0 {
        let kept = front + seq![' '] + reason;
        text::trailing_space_is_trimmed(kept, line_end());
        lemma_no_space_at_end(reason);
        assert(kept.last() == reason.last());
        status_line_reads_back(version, status, reason);
    } else {
        assert(line =~= front + (seq![' '] + line_end()));
        text::trailing_space_is_trimmed(front, seq![' '] + line_end());
        assert(front.last() == code.last());
        assert(text::is_digit(code[code.len() - 1]));
        assert(text::trimmed_end(front) == front);
        lemma_leading(version, ' ', code);
        assert(front.skip(version.len() as int + 1) =~= code);
        lemma_all_leading(code, ' ');
        assert(reason =~= Seq::empty());
    }
}

proof fn lemma_no_space_at_end(s: Seq<char>)
    requires
        s.len() > 0,
        text::trimmed_end(s) == s,
    ensures
        !text::is_space(s.last()),
{
    if text::is_space(s.last()) {
        text::trimming_shortens(s.drop_last());
    }
}

proof fn lemma_all_leading(a: Seq<char>, c: char)
    requires
        forall|i: int| 0 <= i < a.len() ==> #[trigger] a[i] != c,
    ensures
        text::leading(a, c) == a.len(),
    decreases a.len(),
{
    if a.len() > 0 {
        lemma_all_leading(a.skip(1), c);
    }
}

/// A lookup finds the first header of that name, and fails only where there is none.
pub proof fn first_header_is_found(headers: Seq<(Seq<char>, Seq<char>)>, name: Seq<char>, i: int)
    requires
        0 <= i < headers.len(),
        text::same_ignoring_case(headers[i].0, name),
        forall|j: int| 0 <= j < i ==> !text::same_ignoring_case(#[trigger] headers[j].0, name),
    ensures
        found_header(headers, name) == Some(headers[i].1),
    decreases headers.len(),
{
    if i > 0 {
        let rest = headers.skip(1);
        assert(!text::same_ignoring_case(headers[0].0, name));
        assert(rest[i - 1] == headers[i]);
        assert forall|j: int| 0 <= j < i - 1 implies !text::same_ignoring_case(
            #[trigger] rest[j].0,
            name,
        ) by {
            assert(rest[j] == headers[j + 1]);
        }
        first_header_is_found(rest, name, i - 1);
    }
}

/// A header that is not there is not found.
pub proof fn missing_header_is_not_found(headers: Seq<(Seq<char>, Seq<char>)>, name: Seq<char>)
    requires
        forall|j: int|
            0 <= j < headers.len() ==> !text::same_ignoring_case(#[trigger] headers[j].0, name),
    ensures
        found_header(headers, name) is None,
    decreases headers.len(),
{
    if headers.len() > 0 {
        let rest = headers.skip(1);
        assert(!text::same_ignoring_case(headers[0].0, name));
        assert forall|j: int| 0 <= j < rest.len() implies !text::same_ignoring_case(
            #[trigger] rest[j].0,
            name,
        ) by {
            assert(rest[j] == headers[j + 1]);
        }
        missing_header_is_not_found(rest, name);
    }
}

/// The length that a response declares is read as it was written, in whatever case the name
/// of its header is; without the header it is zero.
pub proof fn declared_length_reads_back(
    headers: Seq<(Seq<char>, Seq<char>)>,
    name: Seq<char>,
    n: usize,
)
    requires
        text::same_ignoring_case(name, "Content-Length"@),
    ensures
        declared_length(seq![(name, text::dec(n as nat))] + headers) == n,
        declared_length(Seq::empty()) == 0,
{
    let all = seq![(name, text::dec(n as nat))] + headers;
    assert(all[0] == (name, text::dec(n as nat)));
    text::decimal_reads_back(n as nat);
}

/// The token of an NTLM offer is what stands behind the word and a blank; a bare offer has
/// the empty token, and headers that offer something else are passed over.
pub proof fn ntlm_token_reads_back(
    front: Seq<(Seq<char>, Seq<char>)>,
    name: Seq<char>,
    token: Seq<char>,
    rest: Seq<(Seq<char>, Seq<char>)>,
)
    requires
        forall|i: int| 0 <= i < front.len() ==> !offers_ntlm(#[trigger] front[i]),
        text::same_ignoring_case(name, "WWW-Authenticate"@),
        text::trimmed(token) == token,
    ensures
        ntlm_token(front + seq![(name, seq!['N', 'T', 'L', 'M', ' '] + token)] + rest) == Some(
            token,
        ),
        ntlm_token(front) is None,
    decreases front.len(),
{
    let offer = (name, seq!['N', 'T', 'L', 'M', ' '] + token);
    let all = front + seq![offer] + rest;
    if front.len() > 0 {
        let later = front.skip(1);
        assert(!offers_ntlm(front[0]));
        assert(all[0] == front[0]);
        assert forall|i: int| 0 <= i < later.len() implies !offers_ntlm(#[trigger] later[i]) by {
            assert(later[i] == front[i + 1]);
        }
        ntlm_token_reads_back(later, name, token, rest);
        assert(all.skip(1) =~= later + seq![offer] + rest);
    } else {
        assert(all[0] == offer);
        lemma_offer(token);
    }
}

proof fn lemma_offer(token: Seq<char>)
    requires
        text::trimmed(token) == token,
    ensures
        ({
            let value = text::trimmed(seq!['N', 'T', 'L', 'M', ' '] + token);
            &&& "NTLM"@.is_prefix_of(value)
            &&& text::trimmed(value.skip("NTLM"@.len() as int)) == token
        }),
{
    reveal_strlit("NTLM");
    let word = seq!['N', 'T', 'L', 'M'];
    let value = seq!['N', 'T', 'L', 'M', ' '] + token;
    assert("NTLM"@ =~= word);
    text::trimmed_text_has_no_margin(token);
    if token.len() > 0 {
        assert(value.last() == token.last());
        assert(text::trimmed_end(value) == value);
        assert(text::trimmed(value) == value);
        assert(word =~= value.subrange(0, 4));
        let behind = value.skip(4);
        assert(behind =~= seq![' '] + token);
        assert(behind.last() == token.last());
        assert(text::trimmed_end(behind) == behind);
        assert(behind.skip(1) =~= token);
        assert(text::trimmed_start(behind) == text::trimmed_start(token));
    } else {
        assert(value =~= word + seq![' ']);
        text::trailing_space_is_trimmed(word, seq![' ']);
        assert(word.last() == 'M');
        assert(text::trimmed_end(word) == word);
        assert(text::trimmed(value) == word);
        assert(word =~= word.subrange(0, 4));
        assert(word.skip(4) =~= Seq::<char>::empty());
        assert(token =~= Seq::<char>::empty());
    }
}

/// The lines that every request has behind its host: what it accepts, that nothing is to be
/// cached, who asks, and the interface that is asked for.
pub open spec fn fixed_lines() -> Seq<char> {
    "Accept: application/rpc"@ + line_end() + "Cache-Control: no-cache"@ + line_end()
        + "User-Agent: MSRPC"@ + line_end()
        + "Pragma: ResourceTypeUuid=44e265dd-7daf-42cd-8560-3cdb6e7a2729"@ + line_end()
}

/// A request head starts with the method, the URI, the host and the fixed lines, and ends
/// with its headers, the length of the body, a line that keeps the connection, and an empty
/// line; and there is nothing in between.
pub proof fn request_head_names_its_arguments(
    method: Seq<char>,
    uri: Seq<char>,
    host: Seq<char>,
    content_length: u64,
    headers: Seq<(Seq<char>, Seq<char>)>,
)
    ensures
        ({
            let head = request_text(method, uri, host, content_length, headers);
            let start = method + " "@ + uri + " HTTP/1.1\r\nHost: "@ + host + seq!['\r', '\n'];
            let end = "Content-Length: "@ + text::dec(content_length as nat)
                + "\r\nConnection: keep-alive\r\n\r\n"@;
            &&& start.is_prefix_of(head)
            &&& end.is_suffix_of(head)
            &&& head == start + fixed_lines() + header_lines(headers) + end
        }),
{
    let fixed =
        "\r\nAccept: application/rpc\r\nCache-Control: no-cache\r\nUser-Agent: MSRPC\r\nPragma: ResourceTypeUuid=44e265dd-7daf-42cd-8560-3cdb6e7a2729\r\n"@;
    let start = method + " "@ + uri + " HTTP/1.1\r\nHost: "@ + host;
    let length = "Content-Length: "@ + text::dec(content_length as nat)
        + "\r\nConnection: keep-alive\r\n\r\n"@;
    let all = request_text(method, uri, host, content_length, headers);
    lemma_fixed_lines();
    lemma_head_parts(start, header_lines(headers), length);
    assert(all =~= start + fixed + header_lines(headers) + length);
}

proof fn lemma_head_parts(start: Seq<char>, lines: Seq<char>, end: Seq<char>)
    ensures
        ({
            let head = start + (line_end() + fixed_lines()) + lines + end;
            &&& head == start + line_end() + fixed_lines() + lines + end
            &&& (start + line_end()).is_prefix_of(head)
            &&& end.is_suffix_of(head)
        }),
{
    let head = start + (line_end() + fixed_lines()) + lines + end;
    let front = start + line_end();
    assert(head =~= front + fixed_lines() + lines + end);
    assert(front =~= head.subrange(0, front.len() as int));
    lemma_suffix(start + (line_end() + fixed_lines()) + lines, end);
}

proof fn lemma_fixed_lines()
    ensures
        "\r\nAccept: application/rpc\r\nCache-Control: no-cache\r\nUser-Agent: MSRPC\r\nPragma: ResourceTypeUuid=44e265dd-7daf-42cd-8560-3cdb6e7a2729\r\n"@
            == line_end() + fixed_lines(),
{
    reveal_strlit(
        "\r\nAccept: application/rpc\r\nCache-Control: no-cache\r\nUser-Agent: MSRPC\r\nPragma: ResourceTypeUuid=44e265dd-7daf-42cd-8560-3cdb6e7a2729\r\n",
    );
    reveal_strlit("Accept: application/rpc");
    reveal_strlit("Cache-Control: no-cache");
    reveal_strlit("User-Agent: MSRPC");
    reveal_strlit("Pragma: ResourceTypeUuid=44e265dd-7daf-42cd-8560-3cdb6e7a2729");
    assert("\r\nAccept: application/rpc\r\nCache-Control: no-cache\r\nUser-Agent: MSRPC\r\nPragma: ResourceTypeUuid=44e265dd-7daf-42cd-8560-3cdb6e7a2729\r\n"@
        =~= line_end() + fixed_lines());
}

proof fn lemma_suffix(front: Seq<char>, end: Seq<char>)
    ensures
        end.is_suffix_of(front + end),
{
    assert(end =~= (front + end).subrange(front.len() as int, (front + end).len() as int));
}

/// The header lines of a request are its headers, each on a line of its own, in order.
pub proof fn header_lines_are_in_order(
    headers: Seq<(Seq<char>, Seq<char>)>,
    more: (Seq<char>, Seq<char>),
)
    ensures
        header_lines(Seq::empty()) == Seq::<char>::empty(),
        header_lines(headers.push(more)) == header_lines(headers) + header_line(more),
{
    reveal_strlit(": ");
    reveal_strlit("\r\n");
    assert(": "@ =~= seq![':', ' ']);
    assert("\r\n"@ =~= line_end());
    assert(headers.push(more).drop_last() =~= headers);
    assert(header_lines(headers) + more.0 + ": "@ + more.1 + "\r\n"@ =~= header_lines(headers)
        + header_line(more));
}

/// The stream may not end inside a head; a line without a colon counts for nothing, and
/// neither does anything but an empty line end a head.
pub proof fn odd_lines_are_passed_over(head: HeadView, line: Seq<char>)
    ensures
        line.len() == 0 ==> after_line(head, line) is Err,
        head.status is Some && line.len() > 0 && text::trimmed_end(line).len() > 0
            && !text::trimmed_end(line).contains(':') ==> after_line(head, line) == Ok::<
            HeadStep,
            ErrorView,
        >(HeadStep::More(head)),
        head.status is Some && line.len() > 0 ==> (after_line(head, line) matches Ok(
            HeadStep::Complete(_),
        ) <==> text::trimmed_end(line).len() == 0),
        head.status is None ==> !(after_line(head, line) matches Ok(HeadStep::Complete(_))),
{
    text::splitting_takes_out_one_character(text::trimmed_end(line), ':');
}

/// The length of a PDU is what its header says at bytes 8 and 9, and no less than the
/// header.
pub proof fn framed_length_is_read_at_its_place(header: Seq<u8>)
    ensures
        framed_length(header) is Ok <==> pdu::decoded_header(header) is Ok && header[8] + 256
            * header[9] >= 16,
        framed_length(header) matches Ok(n) ==> n == header[8] + 256 * header[9],
{
    pdu::header_is_read_at_its_places(header);
}

/// A PDU that claims to be shorter than its header is reported by that length.
pub proof fn short_frames_are_named(header: Seq<u8>)
    requires
        pdu::decoded_header(header) is Ok,
        header[8] + 256 * header[9] < 16,
    ensures
        framed_length(header) == Err::<usize, ErrorView>(
            ErrorView::Protocol(
                "PDU frag_length "@ + text::dec((header[8] + 256 * header[9]) as nat)
                    + " < header "@ + text::dec(16),
            ),
        ),
{
    pdu::header_is_read_at_its_places(header);
}

} // verus!
