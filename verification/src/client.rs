//! The console client's command mapping: how one line of operator input
//! becomes a wire request.
//!
//! The client harness shares the wire codec with the server and mirrors the
//! session's command-issuing half without any registry logic: `/list` asks
//! for the listing, `/join <name>` enters a room, any other non-blank line
//! is sent as a message. The mapping itself is pure string logic and lives
//! here, verified; reading the console and the socket stays outside the
//! crate.

use crate::codec::{starts_with, str_eq, tail_from, ChatRequest, ReqV};
use vstd::prelude::*;
use vstd::string::StrSliceExecFns;
use vstd::string::StringExecFns;

verus! {

/// What one line of operator input maps to.
#[derive(Debug, PartialEq, Eq)]
pub enum CommandOutcome {
    /// Send this request over the wire.
    Send(ChatRequest),
    /// `/join` without a room name: warn the operator, send nothing.
    MissingRoomName,
    /// An unknown `/` command: warn the operator, send nothing.
    UnknownCommand,
    /// Blank input: do nothing.
    Empty,
}

/// Spec-level twin of [`CommandOutcome`].
pub enum OutcomeV {
    Send(ReqV),
    MissingRoomName,
    UnknownCommand,
    Empty,
}

impl View for CommandOutcome {
    type V = OutcomeV;

    open spec fn view(&self) -> OutcomeV {
        match self {
            CommandOutcome::Send(req) => OutcomeV::Send(req@),
            CommandOutcome::MissingRoomName => OutcomeV::MissingRoomName,
            CommandOutcome::UnknownCommand => OutcomeV::UnknownCommand,
            CommandOutcome::Empty => OutcomeV::Empty,
        }
    }
}

/// The whitespace that input trimming removes.
pub open spec fn is_space(c: char) -> bool {
    c == ' ' || c == '\t' || c == '\r' || c == '\n'
}

/// `s` without leading whitespace.
pub open spec fn trim_front(s: Seq<char>) -> Seq<char>
    decreases s.len(),
{
    if s.len() > 0 && is_space(s.first()) {
        trim_front(s.drop_first())
    } else {
        s
    }
}

/// `s` without trailing whitespace.
pub open spec fn trim_back(s: Seq<char>) -> Seq<char>
    decreases s.len(),
{
    if s.len() > 0 && is_space(s.last()) {
        trim_back(s.drop_last())
    } else {
        s
    }
}

/// `s` without leading and trailing whitespace.
pub open spec fn trim_spec(s: Seq<char>) -> Seq<char> {
    trim_back(trim_front(s))
}

/// The command mapping, on the trimmed input: blank lines do nothing,
/// `/list` (with or without trailing words) asks for the listing,
/// `/join <name>` joins — the name being everything after the first space —
/// a bare `/join` and unknown `/` commands only warn, and anything else is
/// sent as a message.
pub open spec fn command_of(input: Seq<char>) -> OutcomeV {
    let m = trim_spec(input);
    if m.len() == 0 {
        OutcomeV::Empty
    } else if m == "/list"@ || (m.len() > 6 && m.subrange(0, 6) == "/list "@) {
        OutcomeV::Send(ReqV::List)
    } else if m.len() > 6 && m.subrange(0, 6) == "/join "@ {
        OutcomeV::Send(ReqV::Join(m.skip(6)))
    } else if m == "/join"@ {
        OutcomeV::MissingRoomName
    } else if m.first() == '/' {
        OutcomeV::UnknownCommand
    } else {
        OutcomeV::Send(ReqV::Message(m))
    }
}

/// Leading whitespace up to `k` means trimming the front is skipping `k`.
proof fn lemma_trim_front_skip(s: Seq<char>, k: int)
    requires
        0 <= k <= s.len(),
        forall|j: int| 0 <= j < k ==> is_space(#[trigger] s[j]),
        k < s.len() ==> !is_space(s[k]),
    ensures
        trim_front(s) == s.skip(k),
    decreases k,
{
    if k == 0 {
        assert(s.skip(0) =~= s);
    } else {
        assert(is_space(s.first()));
        let t = s.drop_first();
        assert forall|j: int| 0 <= j < k - 1 implies is_space(#[trigger] t[j]) by {
            assert(t[j] == s[j + 1]);
        }
        lemma_trim_front_skip(t, k - 1);
        assert(t.skip(k - 1) =~= s.skip(k));
    }
}

/// Trailing whitespace from `k` on means trimming the back is taking `k`.
proof fn lemma_trim_back_take(s: Seq<char>, k: int)
    requires
        0 <= k <= s.len(),
        forall|j: int| k <= j < s.len() ==> is_space(#[trigger] s[j]),
        k > 0 ==> !is_space(s[k - 1]),
    ensures
        trim_back(s) == s.take(k),
    decreases s.len(),
{
    if k == s.len() {
        if s.len() == 0 {
            assert(s.take(k) =~= s);
        } else {
            assert(!is_space(s.last()));
            assert(s.take(k) =~= s);
        }
    } else {
        assert(is_space(s.last()));
        let t = s.drop_last();
        lemma_trim_back_take(t, k);
        assert(t.take(k) =~= s.take(k));
    }
}

/// `input` without leading and trailing whitespace.
fn trim(s: &str) -> (r: String)
    ensures
        r@ == trim_spec(s@),
{
    let n = s.unicode_len();
    let mut a: usize = 0;
    while a < n && is_space_exec(s.get_char(a))
        invariant
            a <= n,
            n == s@.len(),
            forall|j: int| 0 <= j < a ==> is_space(#[trigger] s@[j]),
        decreases n - a,
    {
        a = a + 1;
    }
    let mut b: usize = n;
    while b > a && is_space_exec(s.get_char(b - 1))
        invariant
            a <= b <= n,
            n == s@.len(),
            forall|j: int| b <= j < n ==> is_space(#[trigger] s@[j]),
        decreases b,
    {
        b = b - 1;
    }
    let t = s.substring_char(a, b);
    let r = String::from_str(t);
    proof {
        lemma_trim_front_skip(s@, a as int);
        let f = s@.skip(a as int);
        assert forall|j: int| b - a <= j < f.len() implies is_space(#[trigger] f[j]) by {
            assert(f[j] == s@[j + a]);
        }
        if b > a {
            assert(f[b - a - 1] == s@[b - 1]);
        }
        lemma_trim_back_take(f, b - a);
        assert(f.take(b - a) =~= s@.subrange(a as int, b as int));
    }
    r
}

/// Exec twin of [`is_space`].
fn is_space_exec(c: char) -> (r: bool)
    ensures
        r == is_space(c),
{
    c == ' ' || c == '\t' || c == '\r' || c == '\n'
}

/// Map one line of operator input to the request to send, a warning, or
/// nothing, exactly as [`command_of`] says.
pub fn map_command(input: &str) -> (r: CommandOutcome)
    ensures
        r@ == command_of(input@),
{
    proof {
        reveal_strlit("/list");
        reveal_strlit("/list ");
        reveal_strlit("/join");
        reveal_strlit("/join ");
    }
    let trimmed = trim(input);
    let m = trimmed.as_str();
    if m.unicode_len() == 0 {
        CommandOutcome::Empty
    } else if str_eq(m, "/list") || (m.unicode_len() > 6 && starts_with(m, "/list ")) {
        CommandOutcome::Send(ChatRequest::List)
    } else if m.unicode_len() > 6 && starts_with(m, "/join ") {
        let room = tail_from(m, 6);
        CommandOutcome::Send(ChatRequest::Join(room))
    } else if str_eq(m, "/join") {
        CommandOutcome::MissingRoomName
    } else if m.get_char(0) == '/' {
        CommandOutcome::UnknownCommand
    } else {
        CommandOutcome::Send(ChatRequest::Message(trimmed))
    }
}

} // verus!
