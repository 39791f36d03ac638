//! The wire codec: the newline-delimited text protocol spoken between
//! client and server.
//!
//! A frame is one line of UTF-8 text ending in a newline byte. The first
//! word is the tag, the rest of the line the payload: requests are
//! `LIST`, `JOIN <room>`, `MSG <text>` and `PING`; responses are
//! `MSG <text>`, `JOINED <room>`, `ROOMS` followed by the names, and
//! `PING`. A frame with an unknown tag, a missing payload or bytes that are
//! not UTF-8 is a [`ProtocolError`], fatal to the connection. The decoder
//! supports partial reads: it consumes nothing until a full line is
//! buffered.

use vstd::prelude::*;
use vstd::string::StrSliceExecFns;
use vstd::string::StringExecFns;
use vstd::string::StringSliceAdditionalSpecFns;

verus! {

/// A request decoded from a client's frame.
#[derive(Debug, PartialEq, Eq)]
pub enum ChatRequest {
    /// Ask for the room listing.
    List,
    /// Enter the named room.
    Join(String),
    /// Broadcast the text to the sender's current room.
    Message(String),
    /// Liveness signal from the peer.
    Ping,
}

/// A response the server pushes to a peer.
#[derive(Debug, PartialEq, Eq)]
pub enum ChatResponse {
    /// A broadcast message from the room.
    Message(String),
    /// Local acknowledgement of a join.
    Joined(String),
    /// The room listing.
    Rooms(Vec<String>),
    /// Server-initiated liveness probe.
    Ping,
}

/// Why a frame was rejected. Either way the byte stream is no longer
/// trustworthy and the connection must be closed.
#[derive(PartialEq, Eq, Structural, Debug, Clone, Copy)]
pub enum ProtocolError {
    /// Unknown tag or missing required payload.
    MalformedFrame,
    /// The frame's bytes are not valid UTF-8.
    InvalidUtf8,
}

/// Spec-level twin of [`ChatRequest`].
pub enum ReqV {
    List,
    Join(Seq<char>),
    Message(Seq<char>),
    Ping,
}

/// Spec-level twin of [`ChatResponse`].
pub enum RespV {
    Message(Seq<char>),
    Joined(Seq<char>),
    Rooms(Seq<Seq<char>>),
    Ping,
}

impl View for ChatRequest {
    type V = ReqV;

    open spec fn view(&self) -> ReqV {
        match self {
            ChatRequest::List => ReqV::List,
            ChatRequest::Join(n) => ReqV::Join(n@),
            ChatRequest::Message(t) => ReqV::Message(t@),
            ChatRequest::Ping => ReqV::Ping,
        }
    }
}

impl View for ChatResponse {
    type V = RespV;

    open spec fn view(&self) -> RespV {
        match self {
            ChatResponse::Message(t) => RespV::Message(t@),
            ChatResponse::Joined(n) => RespV::Joined(n@),
            ChatResponse::Rooms(names) => RespV::Rooms(names.deep_view()),
            ChatResponse::Ping => RespV::Ping,
        }
    }
}

/// The request grammar, one decoded line at a time. `None` is a protocol
/// violation: an unknown tag or a missing payload.
pub open spec fn parse_req(line: Seq<char>) -> Option<ReqV> {
    if line == "LIST"@ {
        Some(ReqV::List)
    } else if line == "PING"@ {
        Some(ReqV::Ping)
    } else if line.len() > 5 && line.subrange(0, 5) == "JOIN "@ {
        Some(ReqV::Join(line.skip(5)))
    } else if line.len() > 4 && line.subrange(0, 4) == "MSG "@ {
        Some(ReqV::Message(line.skip(4)))
    } else {
        None
    }
}

/// How a request is written on the wire (without the newline).
pub open spec fn encode_req(r: ReqV) -> Seq<char> {
    match r {
        ReqV::List => "LIST"@,
        ReqV::Ping => "PING"@,
        ReqV::Join(n) => "JOIN "@ + n,
        ReqV::Message(t) => "MSG "@ + t,
    }
}

/// The room names of a listing, each preceded by one space.
pub open spec fn encode_names(names: Seq<Seq<char>>) -> Seq<char>
    decreases names.len(),
{
    if names.len() == 0 {
        Seq::empty()
    } else {
        encode_names(names.drop_last()) + " "@ + names.last()
    }
}

/// How a response is written on the wire (without the newline).
pub open spec fn encode_resp(r: RespV) -> Seq<char> {
    match r {
        RespV::Message(t) => "MSG "@ + t,
        RespV::Joined(n) => "JOINED "@ + n,
        RespV::Rooms(names) => "ROOMS"@ + encode_names(names),
        RespV::Ping => "PING"@,
    }
}

/// Splitting a listing payload at every space, front to back: `cur` is the
/// word being read, `acc` the words already read.
pub open spec fn split_acc(s: Seq<char>, cur: Seq<char>, acc: Seq<Seq<char>>) -> Seq<Seq<char>>
    decreases s.len(),
{
    if s.len() == 0 {
        acc.push(cur)
    } else if s[0] == ' ' {
        split_acc(s.drop_first(), Seq::empty(), acc.push(cur))
    } else {
        split_acc(s.drop_first(), cur.push(s[0]), acc)
    }
}

/// The words of a listing payload, split at single spaces.
pub open spec fn split_names(s: Seq<char>) -> Seq<Seq<char>> {
    split_acc(s, Seq::empty(), Seq::empty())
}

/// The response grammar, one decoded line at a time; the inverse direction
/// of [`encode_resp`], spoken by the client harness.
pub open spec fn parse_resp(line: Seq<char>) -> Option<RespV> {
    if line == "PING"@ {
        Some(RespV::Ping)
    } else if line.len() > 4 && line.subrange(0, 4) == "MSG "@ {
        Some(RespV::Message(line.skip(4)))
    } else if line.len() > 7 && line.subrange(0, 7) == "JOINED "@ {
        Some(RespV::Joined(line.skip(7)))
    } else if line == "ROOMS"@ {
        Some(RespV::Rooms(Seq::empty()))
    } else if line.len() > 6 && line.subrange(0, 6) == "ROOMS "@ {
        Some(RespV::Rooms(split_names(line.skip(6))))
    } else {
        None
    }
}

/// `line` is the first complete frame of `stream` and `rest` what follows
/// its newline byte.
pub open spec fn frame_of(stream: Seq<u8>, line: Seq<u8>, rest: Seq<u8>) -> bool {
    stream == line + seq![10u8] + rest && !line.contains(10u8)
}

/// True when `s` begins with `prefix`.
pub(crate) fn starts_with(s: &str, prefix: &str) -> (r: bool)
    ensures
        r == (s@.len() >= prefix@.len() && s@.subrange(0, prefix@.len() as int) == prefix@),
{
    let n = prefix.unicode_len();
    let m = s.unicode_len();
    if m < n {
        return false;
    }
    let mut i: usize = 0;
    while i < n
        invariant
            i <= n,
            n == prefix@.len(),
            m == s@.len(),
            n <= m,
            forall|j: int| 0 <= j < i ==> s@[j] == prefix@[j],
        decreases n - i,
    {
        if s.get_char(i) != prefix.get_char(i) {
            proof {
                if s@.subrange(0, n as int) == prefix@ {
                    assert(s@.subrange(0, n as int)[i as int] == prefix@[i as int]);
                }
            }
            return false;
        }
        i = i + 1;
    }
    proof {
        assert(s@.subrange(0, n as int) =~= prefix@);
    }
    true
}

/// True when the two string slices hold the same characters.
pub(crate) fn str_eq(a: &str, b: &str) -> (r: bool)
    ensures
        r == (a@ == b@),
{
    let la = a.unicode_len();
    let lb = b.unicode_len();
    if la != lb {
        proof {
            if a@ == b@ {
                assert(a@.len() == b@.len());
            }
        }
        return false;
    }
    let r = starts_with(a, b);
    proof {
        if r {
            assert(a@.subrange(0, lb as int) =~= a@);
        } else {
            if a@ == b@ {
                assert(a@.subrange(0, lb as int) =~= b@);
            }
        }
    }
    r
}

/// The characters of `s` from position `k` on, as an owned string.
pub(crate) fn tail_from(s: &str, k: usize) -> (r: String)
    requires
        k <= s@.len(),
    ensures
        r@ == s@.skip(k as int),
{
    let t = s.substring_char(k, s.unicode_len());
    let r = String::from_str(t);
    proof {
        assert(s@.subrange(k as int, s@.len() as int) =~= s@.skip(k as int));
    }
    r
}

/// Parse one decoded line as a request. Fails — with the connection to be
/// closed — exactly on the lines the grammar rejects.
pub fn parse_request(line: &str) -> (r: Result<ChatRequest, ProtocolError>)
    ensures
        (match r {
            Ok(req) => parse_req(line@) == Some(req@),
            Err(e) => parse_req(line@) is None && e == ProtocolError::MalformedFrame,
        }),
{
    proof {
        reveal_strlit("LIST");
        reveal_strlit("PING");
        reveal_strlit("JOIN ");
        reveal_strlit("MSG ");
    }
    if str_eq(line, "LIST") {
        Ok(ChatRequest::List)
    } else if str_eq(line, "PING") {
        Ok(ChatRequest::Ping)
    } else if line.unicode_len() > 5 && starts_with(line, "JOIN ") {
        let room = tail_from(line, 5);
        Ok(ChatRequest::Join(room))
    } else if line.unicode_len() > 4 && starts_with(line, "MSG ") {
        let text = tail_from(line, 4);
        Ok(ChatRequest::Message(text))
    } else {
        Err(ProtocolError::MalformedFrame)
    }
}

/// Write a request as its wire line (without the newline).
pub fn encode_request(req: &ChatRequest) -> (r: String)
    ensures
        r@ == encode_req(req@),
{
    match req {
        ChatRequest::List => String::from_str("LIST"),
        ChatRequest::Ping => String::from_str("PING"),
        ChatRequest::Join(n) => {
            let mut s = String::from_str("JOIN ");
            s.append(n.as_str());
            s
        },
        ChatRequest::Message(t) => {
            let mut s = String::from_str("MSG ");
            s.append(t.as_str());
            s
        },
    }
}

/// Write a response as its wire line (without the newline).
pub fn encode_response(resp: &ChatResponse) -> (r: String)
    ensures
        r@ == encode_resp(resp@),
{
    match resp {
        ChatResponse::Ping => String::from_str("PING"),
        ChatResponse::Message(t) => {
            let mut s = String::from_str("MSG ");
            s.append(t.as_str());
            s
        },
        ChatResponse::Joined(n) => {
            let mut s = String::from_str("JOINED ");
            s.append(n.as_str());
            s
        },
        ChatResponse::Rooms(names) => {
            let mut s = String::from_str("ROOMS");
            let mut i: usize = 0;
            proof {
                assert(names.deep_view().take(0) =~= Seq::<Seq<char>>::empty());
            }
            while i < names.len()
                invariant
                    i <= names@.len(),
                    names.deep_view().len() == names@.len(),
                    forall|j: int|
                        0 <= j < names@.len() ==> names.deep_view()[j] == (#[trigger] names@[j])@,
                    s@ == "ROOMS"@ + encode_names(names.deep_view().take(i as int)),
                decreases names@.len() - i,
            {
                s.append(" ");
                s.append(names[i].as_str());
                proof {
                    let dv = names.deep_view();
                    assert(dv.take(i as int + 1).drop_last() =~= dv.take(i as int));
                    assert(dv.take(i as int + 1).last() == dv[i as int]);
                    assert(s@ == "ROOMS"@ + encode_names(dv.take(i as int + 1)));
                }
                i = i + 1;
            }
            proof {
                assert(names.deep_view().take(names@.len() as int) =~= names.deep_view());
            }
            s
        },
    }
}

/// Append a line and its terminating newline to an outbound byte buffer.
pub fn frame_line(line: &str, out: &mut Vec<u8>)
    ensures
        final(out)@ == old(out)@ + line.spec_bytes() + seq![10u8],
{
    let mut bytes = line.as_bytes_vec();
    out.append(&mut bytes);
    out.push(10u8);
    proof {
        assert(out@ =~= old(out)@ + line.spec_bytes() + seq![10u8]);
    }
}

/// Take the first complete newline-terminated frame out of the inbound
/// buffer, or leave the buffer alone when no full frame has arrived yet.
pub fn take_frame(buf: &mut Vec<u8>) -> (r: Option<Vec<u8>>)
    ensures
        (match r {
            Some(line) => frame_of(old(buf)@, line@, final(buf)@),
            None => final(buf)@ == old(buf)@ && !old(buf)@.contains(10u8),
        }),
{
    let n = buf.len();
    let mut i: usize = 0;
    while i < n
        invariant
            i <= n,
            n == buf@.len(),
            buf@ == old(buf)@,
            forall|j: int| 0 <= j < i ==> buf@[j] != 10u8,
        decreases n - i,
    {
        if buf[i] == 10u8 {
            let mut line: Vec<u8> = Vec::new();
            let mut j: usize = 0;
            while j < i
                invariant
                    j <= i,
                    i < buf@.len(),
                    buf@ == old(buf)@,
                    line@ == buf@.subrange(0, j as int),
                decreases i - j,
            {
                line.push(buf[j]);
                proof {
                    assert(line@ =~= buf@.subrange(0, j as int + 1));
                }
                j = j + 1;
            }
            let mut rest: Vec<u8> = Vec::new();
            let mut k: usize = i + 1;
            while k < n
                invariant
                    i + 1 <= k <= n,
                    n == buf@.len(),
                    buf@ == old(buf)@,
                    rest@ == buf@.subrange(i as int + 1, k as int),
                decreases n - k,
            {
                rest.push(buf[k]);
                proof {
                    assert(rest@ =~= buf@.subrange(i as int + 1, k as int + 1));
                }
                k = k + 1;
            }
            proof {
                assert(buf@[i as int] == 10u8);
                assert(forall|j: int| 0 <= j < i ==> line@[j] == buf@[j]);
                if line@.contains(10u8) {
                    let w = choose|w: int| 0 <= w < line@.len() && line@[w] == 10u8;
                    assert(buf@[w] != 10u8);
                }
                assert(buf@ =~= line@ + seq![10u8] + buf@.subrange(i as int + 1, n as int));
            }
            let ghost orig = buf@;
            *buf = rest;
            proof {
                assert(old(buf)@ == orig);
                assert(buf@ == orig.subrange(i as int + 1, n as int));
                assert(old(buf)@ == line@ + seq![10u8] + buf@);
            }
            return Some(line);
        }
        i = i + 1;
    }
    proof {
        if buf@.contains(10u8) {
            let w = choose|w: int| 0 <= w < buf@.len() && buf@[w] == 10u8;
            assert(buf@[w] != 10u8);
        }
    }
    None
}

/// The words of `s`, split at every space, as owned strings.
fn split_spaces(s: &str) -> (r: Vec<String>)
    ensures
        r.deep_view() == split_names(s@),
{
    let n = s.unicode_len();
    let mut acc: Vec<String> = Vec::new();
    let mut cur = String::new();
    let mut i: usize = 0;
    proof {
        assert(s@.skip(0) =~= s@);
        assert(acc.deep_view() =~= Seq::<Seq<char>>::empty());
    }
    while i < n
        invariant
            i <= n,
            n == s@.len(),
            split_names(s@) == split_acc(s@.skip(i as int), cur@, acc.deep_view()),
        decreases n - i,
    {
        let ghost pre_acc = acc.deep_view();
        let ghost pre_cur = cur@;
        let c = s.get_char(i);
        if c == ' ' {
            acc.push(cur);
            cur = String::new();
            proof {
                assert(acc.deep_view() =~= pre_acc.push(pre_cur));
            }
        } else {
            let piece = s.substring_char(i, i + 1);
            cur.append(piece);
            proof {
                assert(s@.subrange(i as int, i as int + 1) =~= seq![s@[i as int]]);
                assert(cur@ =~= pre_cur.push(c));
            }
        }
        proof {
            let t = s@.skip(i as int);
            assert(t[0] == s@[i as int]);
            assert(t.drop_first() =~= s@.skip(i as int + 1));
        }
        i = i + 1;
    }
    acc.push(cur);
    proof {
        assert(s@.skip(n as int) =~= Seq::<char>::empty());
    }
    acc
}

/// Parse one decoded line as a response, as the client harness does. Fails
/// exactly on the lines the response grammar rejects.
pub fn parse_response(line: &str) -> (r: Result<ChatResponse, ProtocolError>)
    ensures
        (match r {
            Ok(resp) => parse_resp(line@) == Some(resp@),
            Err(e) => parse_resp(line@) is None && e == ProtocolError::MalformedFrame,
        }),
{
    proof {
        reveal_strlit("PING");
        reveal_strlit("MSG ");
        reveal_strlit("JOINED ");
        reveal_strlit("ROOMS");
        reveal_strlit("ROOMS ");
    }
    if str_eq(line, "PING") {
        Ok(ChatResponse::Ping)
    } else if line.unicode_len() > 4 && starts_with(line, "MSG ") {
        let text = tail_from(line, 4);
        Ok(ChatResponse::Message(text))
    } else if line.unicode_len() > 7 && starts_with(line, "JOINED ") {
        let room = tail_from(line, 7);
        Ok(ChatResponse::Joined(room))
    } else if str_eq(line, "ROOMS") {
        let names: Vec<String> = Vec::new();
        proof {
            assert(names.deep_view() =~= Seq::<Seq<char>>::empty());
        }
        Ok(ChatResponse::Rooms(names))
    } else if line.unicode_len() > 6 && starts_with(line, "ROOMS ") {
        let payload = tail_from(line, 6);
        let names = split_spaces(payload.as_str());
        Ok(ChatResponse::Rooms(names))
    } else {
        Err(ProtocolError::MalformedFrame)
    }
}

/// Encoding a request and parsing the wire line back yields the same
/// request, whenever the payload is non-empty (the grammar rejects empty
/// payloads by design).
pub proof fn lemma_request_round_trip(r: ReqV)
    requires
        (r matches ReqV::Join(n) ==> n.len() > 0),
        (r matches ReqV::Message(t) ==> t.len() > 0),
    ensures
        parse_req(encode_req(r)) == Some(r),
{
    reveal_strlit("LIST");
    reveal_strlit("PING");
    reveal_strlit("JOIN ");
    reveal_strlit("MSG ");
    match r {
        ReqV::List => {
        },
        ReqV::Ping => {
            if "PING"@ == "LIST"@ {
                assert("PING"@[0] == "LIST"@[0]);
            }
        },
        ReqV::Join(n) => {
            let line = "JOIN "@ + n;
            assert(line.len() == 5 + n.len());
            assert(line.subrange(0, 5) =~= "JOIN "@);
            assert(line.skip(5) =~= n);
        },
        ReqV::Message(t) => {
            let line = "MSG "@ + t;
            assert(line.len() == 4 + t.len());
            if line.len() > 5 && line.subrange(0, 5) == "JOIN "@ {
                assert(line.subrange(0, 5)[0] == line[0]);
                assert(line[0] == 'M');
            }
            assert(line.subrange(0, 4) =~= "MSG "@);
            assert(line.skip(4) =~= t);
        },
    }
}

/// Splitting a spaceless word yields the word appended to the current one.
proof fn lemma_split_word(w: Seq<char>, cur: Seq<char>, acc: Seq<Seq<char>>)
    requires
        !w.contains(' '),
    ensures
        split_acc(w, cur, acc) == acc.push(cur + w),
    decreases w.len(),
{
    if w.len() == 0 {
        assert(cur + w =~= cur);
    } else {
        assert(w[0] != ' ') by {
            assert(w.contains(w[0]));
        }
        assert(!w.drop_first().contains(' ')) by {
            if w.drop_first().contains(' ') {
                let k = choose|k: int| 0 <= k < w.drop_first().len() && w.drop_first()[k] == ' ';
                assert(w[k + 1] == ' ');
            }
        }
        lemma_split_word(w.drop_first(), cur.push(w[0]), acc);
        assert(cur.push(w[0]) + w.drop_first() =~= cur + w);
    }
}

/// A spaceless word appended behind a space splits off as one more name.
proof fn lemma_split_append(s: Seq<char>, w: Seq<char>, cur: Seq<char>, acc: Seq<Seq<char>>)
    requires
        !w.contains(' '),
    ensures
        split_acc(s + seq![' '] + w, cur, acc) == split_acc(s, cur, acc).push(w),
    decreases s.len(),
{
    let whole = s + seq![' '] + w;
    if s.len() == 0 {
        assert(whole =~= seq![' '] + w);
        assert(whole[0] == ' ');
        assert(whole.drop_first() =~= w);
        lemma_split_word(w, Seq::empty(), acc.push(cur));
        assert(Seq::<char>::empty() + w =~= w);
    } else {
        assert(whole[0] == s[0]);
        assert(whole.drop_first() =~= s.drop_first() + seq![' '] + w);
        if s[0] == ' ' {
            lemma_split_append(s.drop_first(), w, Seq::empty(), acc.push(cur));
        } else {
            lemma_split_append(s.drop_first(), w, cur.push(s[0]), acc);
        }
    }
}

/// A non-empty listing encodes to at least two characters, the first of
/// them the space before the first name.
proof fn lemma_encode_names_shape(names: Seq<Seq<char>>)
    requires
        names.len() > 0,
        forall|i: int| 0 <= i < names.len() ==> (#[trigger] names[i]).len() > 0,
    ensures
        encode_names(names).len() >= 2,
        encode_names(names)[0] == ' ',
    decreases names.len(),
{
    reveal_strlit(" ");
    assert(encode_names(names) == encode_names(names.drop_last()) + " "@ + names.last());
    assert(" "@ =~= seq![' ']);
    if names.len() == 1 {
        assert(encode_names(names.drop_last()) =~= Seq::<char>::empty());
        assert(names.last() == names[0]);
        assert(encode_names(names) =~= seq![' '] + names[0]);
    } else {
        lemma_encode_names_shape(names.drop_last());
        assert(encode_names(names)[0] == encode_names(names.drop_last())[0]);
    }
}

/// Splitting the payload of an encoded listing gives the names back,
/// provided each name is non-empty and holds no space.
proof fn lemma_split_encoded_names(names: Seq<Seq<char>>)
    requires
        names.len() > 0,
        forall|i: int|
            0 <= i < names.len() ==> (#[trigger] names[i]).len() > 0 && !names[i].contains(' '),
    ensures
        split_names(encode_names(names).skip(1)) == names,
    decreases names.len(),
{
    reveal_strlit(" ");
    assert(encode_names(names) == encode_names(names.drop_last()) + " "@ + names.last());
    assert(" "@ =~= seq![' ']);
    if names.len() == 1 {
        assert(encode_names(names.drop_last()) =~= Seq::<char>::empty());
        assert(names.last() == names[0]);
        assert(encode_names(names) =~= seq![' '] + names[0]);
        assert(encode_names(names).skip(1) =~= names[0]);
        lemma_split_word(names[0], Seq::empty(), Seq::empty());
        assert(Seq::<char>::empty() + names[0] =~= names[0]);
        assert(Seq::<Seq<char>>::empty().push(names[0]) =~= names);
    } else {
        let dl = names.drop_last();
        lemma_split_encoded_names(dl);
        lemma_encode_names_shape(dl);
        let payload_dl = encode_names(dl).skip(1);
        let payload = encode_names(names).skip(1);
        assert(encode_names(dl).len() >= 2);
        assert(payload =~= payload_dl + seq![' '] + names.last());
        lemma_split_append(payload_dl, names.last(), Seq::empty(), Seq::empty());
        assert(dl.push(names.last()) =~= names);
    }
}

/// Encoding a response and parsing the wire line back yields the same
/// response, whenever the payloads are non-empty and the listed room names
/// hold no spaces (a name with a space could not survive the
/// space-separated listing).
pub proof fn lemma_response_round_trip(r: RespV)
    requires
        (r matches RespV::Message(t) ==> t.len() > 0),
        (r matches RespV::Joined(n) ==> n.len() > 0),
        (r matches RespV::Rooms(names) ==> forall|i: int|
            0 <= i < names.len() ==> (#[trigger] names[i]).len() > 0 && !names[i].contains(' ')),
    ensures
        parse_resp(encode_resp(r)) == Some(r),
{
    reveal_strlit("PING");
    reveal_strlit("MSG ");
    reveal_strlit("JOINED ");
    reveal_strlit("ROOMS");
    reveal_strlit("ROOMS ");
    match r {
        RespV::Ping => {
        },
        RespV::Message(t) => {
            let line = "MSG "@ + t;
            assert(line.len() == 4 + t.len());
            assert(line.subrange(0, 4) =~= "MSG "@);
            assert(line.skip(4) =~= t);
        },
        RespV::Joined(n) => {
            let line = "JOINED "@ + n;
            assert(line.len() == 7 + n.len());
            if line.len() > 4 && line.subrange(0, 4) == "MSG "@ {
                assert(line.subrange(0, 4)[0] == line[0]);
                assert(line[0] == 'J');
            }
            assert(line.subrange(0, 7) =~= "JOINED "@);
            assert(line.skip(7) =~= n);
        },
        RespV::Rooms(names) => {
            if names.len() == 0 {
                let line = "ROOMS"@ + encode_names(names);
                assert(encode_names(names) =~= Seq::<char>::empty());
                assert(line =~= "ROOMS"@);
                if "ROOMS"@ == "PING"@ {
                    assert("ROOMS"@.len() == "PING"@.len());
                }
                if "ROOMS"@.len() > 4 && "ROOMS"@.subrange(0, 4) == "MSG "@ {
                    assert("ROOMS"@.subrange(0, 4)[0] == "ROOMS"@[0]);
                }
                assert(names =~= Seq::<Seq<char>>::empty());
            } else {
                let enc = encode_names(names);
                let line = "ROOMS"@ + enc;
                lemma_encode_names_shape(names);
                assert(line.len() >= 7);
                if line.subrange(0, 4) == "MSG "@ {
                    assert(line.subrange(0, 4)[0] == line[0]);
                    assert(line[0] == 'R');
                }
                if line.len() > 7 && line.subrange(0, 7) == "JOINED "@ {
                    assert(line.subrange(0, 7)[0] == line[0]);
                    assert(line[0] == 'R');
                }
                if line == "ROOMS"@ {
                    assert(line.len() == 5);
                }
                assert(line.subrange(0, 6) =~= "ROOMS "@) by {
                    assert(line[5] == enc[0]);
                }
                assert(line.skip(6) =~= enc.skip(1));
                lemma_split_encoded_names(names);
                assert(split_names(line.skip(6)) == names);
            }
        },
    }
}

/// Relies on `String::from_utf8` of std: it succeeds exactly on byte
/// sequences that are valid UTF-8, and then returns the text those bytes
/// encode (stated with vstd's model of UTF-8).
#[verifier::external_body]
fn utf8_to_string(bytes: Vec<u8>) -> (r: Option<String>)
    ensures
        r is Some <==> vstd::utf8::valid_utf8(bytes@),
        (r matches Some(s) ==> s@ == vstd::utf8::decode_utf8(bytes@)),
{
    match String::from_utf8(bytes) {
        Ok(s) => Some(s),
        Err(_) => None,
    }
}

/// Decode the next request frame from the inbound buffer.
///
/// `Ok(None)` means no complete frame has arrived yet and the buffer is
/// untouched; `Ok(Some(..))` means the first frame was removed and parsed;
/// an error means the first frame was removed and rejected — the connection
/// must be closed.
pub fn decode_request(buf: &mut Vec<u8>) -> (r: Result<Option<ChatRequest>, ProtocolError>)
    ensures
        (match r {
            Ok(None) => final(buf)@ == old(buf)@ && !old(buf)@.contains(10u8),
            Ok(Some(req)) => exists|line: Seq<u8>|
                #[trigger] frame_of(old(buf)@, line, final(buf)@) && vstd::utf8::valid_utf8(line)
                    && parse_req(vstd::utf8::decode_utf8(line)) == Some(req@),
            Err(e) => exists|line: Seq<u8>|
                #[trigger] frame_of(old(buf)@, line, final(buf)@) && (if !vstd::utf8::valid_utf8(
                    line,
                ) {
                    e == ProtocolError::InvalidUtf8
                } else {
                    parse_req(vstd::utf8::decode_utf8(line)) is None && e
                        == ProtocolError::MalformedFrame
                }),
        }),
{
    let line = take_frame(buf);
    match line {
        None => Ok(None),
        Some(raw) => {
            let ghost raw_bytes = raw@;
            match utf8_to_string(raw) {
                None => Err(ProtocolError::InvalidUtf8),
                Some(text) => {
                    match parse_request(text.as_str()) {
                        Ok(req) => Ok(Some(req)),
                        Err(e) => Err(e),
                    }
                },
            }
        },
    }
}

/// Decode the next response frame from the client harness's inbound
/// buffer, with the same buffering discipline as [`decode_request`].
pub fn decode_response(buf: &mut Vec<u8>) -> (r: Result<Option<ChatResponse>, ProtocolError>)
    ensures
        (match r {
            Ok(None) => final(buf)@ == old(buf)@ && !old(buf)@.contains(10u8),
            Ok(Some(resp)) => exists|line: Seq<u8>|
                #[trigger] frame_of(old(buf)@, line, final(buf)@) && vstd::utf8::valid_utf8(line)
                    && parse_resp(vstd::utf8::decode_utf8(line)) == Some(resp@),
            Err(e) => exists|line: Seq<u8>|
                #[trigger] frame_of(old(buf)@, line, final(buf)@) && (if !vstd::utf8::valid_utf8(
                    line,
                ) {
                    e == ProtocolError::InvalidUtf8
                } else {
                    parse_resp(vstd::utf8::decode_utf8(line)) is None && e
                        == ProtocolError::MalformedFrame
                }),
        }),
{
    let line = take_frame(buf);
    match line {
        None => Ok(None),
        Some(raw) => {
            match utf8_to_string(raw) {
                None => Err(ProtocolError::InvalidUtf8),
                Some(text) => {
                    match parse_response(text.as_str()) {
                        Ok(resp) => Ok(Some(resp)),
                        Err(e) => Err(e),
                    }
                },
            }
        },
    }
}

} // verus!
