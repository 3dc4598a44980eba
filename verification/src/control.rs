//! The control socket: what a client asks for, and what it is answered.
//!
//! A request is one line, `preload <path>`. The answer is one line, `ok <count>` or
//! `err <message>`.
use crate::text;
use vstd::prelude::*;
use vstd::string::*;
use vstd::utf8::*;

verus! {

/// Where the daemon listens unless told otherwise.
pub const DEFAULT_CONTROL_SOCKET: &'static str = "/run/closured/control";

/// How many bytes of a request are read.
pub const MAX_REQUEST: u64 = 4096;

/// How many seconds a preload is held unless told otherwise.
pub const DEFAULT_PRELOAD_TTL: u64 = 900;

/// The request to preload a path.
pub open spec fn request_text(path: Seq<char>) -> Seq<char> {
    "preload "@ + path + "\n"@
}

/// What a request asks to preload, or why it is refused: only root may ask.
pub open spec fn requested(uid: u32, line: Seq<char>) -> Result<Seq<char>, Seq<char>> {
    if uid != 0 {
        Err("permission denied"@)
    } else {
        match text::split_at_first(text::trimmed(line), ' ') {
            Some((command, path)) if command == "preload"@ => Ok(path),
            _ => Err("unknown command `"@ + text::trimmed(line) + "`"@),
        }
    }
}

/// The answer to a request: how many hashes are newly allowed, or why it was refused.
pub open spec fn reply_text(reply: Result<nat, Seq<char>>) -> Seq<char> {
    match reply {
        Ok(added) => "ok "@ + text::decimal(added) + "\n"@,
        Err(message) => "err "@ + message + "\n"@,
    }
}

/// What a client tells about the answer to its request to preload `path`.
pub open spec fn told(path: Seq<char>, reply: Seq<char>) -> Result<Seq<char>, Seq<char>> {
    match text::split_at_first(text::trimmed(reply), ' ') {
        Some((word, added)) if word == "ok"@ => Ok(
            "closured: preloaded "@ + path + " ("@ + added + " newly allowed)"@,
        ),
        Some((word, message)) if word == "err"@ => Err(
            "closured refused the preload: "@ + message,
        ),
        _ => Err("unexpected reply from closured: "@ + text::debug_text(text::trimmed(reply))),
    }
}

/// The first line of `s`, with its line feed: what is read of it.
pub open spec fn first_line(s: Seq<char>) -> Seq<char> {
    let i = text::find(s, '\n');
    if i < s.len() {
        s.take(i + 1)
    } else {
        s
    }
}

/// How a path is shown. Where it is not valid UTF-8, replacement characters stand in.
pub fn show_path(path: &[u8]) -> (s: String)
    ensures
        s@ == text::utf8_lossy(path@),
        valid_utf8(path@) ==> s@ == decode_utf8(path@),
{
    text::from_utf8_lossy(path)
}

/// Writes the request to preload a path.
pub fn request_line(path: &str) -> (line: String)
    ensures
        line@ == request_text(path@),
{
    let mut line = "preload ".to_owned();
    line.append(path);
    line.append("\n");
    line
}

/// Reads a request that came from the user `uid`.
pub fn parse_request(uid: u32, line: &str) -> (r: Result<String, String>)
    ensures
        match r {
            Ok(path) => requested(uid, line@) == Ok::<Seq<char>, Seq<char>>(path@),
            Err(e) => requested(uid, line@) == Err::<Seq<char>, Seq<char>>(e@),
        },
{
    if uid != 0 {
        return Err("permission denied".to_owned());
    }
    let asked = text::trim(line);
    if let Some((command, path)) = text::split_once(asked, 0x20) {
        if text::same_text(command, "preload") {
            return Ok(path.to_owned());
        }
    }
    let mut e = "unknown command `".to_owned();
    e.append(asked);
    e.append("`");
    Err(e)
}

/// What became of a request after it was read.
pub enum Outcome {
    /// The daemon no longer takes requests.
    ShuttingDown,
    /// The daemon took the request and never answered.
    Lost,
    /// The daemon answered.
    Answered(Result<u64, String>),
}

/// What a client is answered.
pub open spec fn settled(outcome: Outcome) -> Result<nat, Seq<char>> {
    match outcome {
        Outcome::ShuttingDown => Err("closured is shutting down"@),
        Outcome::Lost => Err("request dropped"@),
        Outcome::Answered(Ok(added)) => Ok(added as nat),
        Outcome::Answered(Err(e)) => Err(e@),
    }
}

/// Decides what a client is answered.
pub fn settle(outcome: Outcome) -> (r: Result<u64, String>)
    ensures
        match r {
            Ok(added) => settled(outcome) == Ok::<nat, Seq<char>>(added as nat),
            Err(e) => settled(outcome) == Err::<nat, Seq<char>>(e@),
        },
{
    match outcome {
        Outcome::ShuttingDown => Err("closured is shutting down".to_owned()),
        Outcome::Lost => Err("request dropped".to_owned()),
        Outcome::Answered(answer) => answer,
    }
}

/// Writes an answer.
pub fn reply_line(reply: &Result<u64, String>) -> (line: String)
    ensures
        line@ == reply_text(
            match reply {
                Ok(added) => Ok(*added as nat),
                Err(e) => Err(e@),
            },
        ),
{
    match reply {
        Ok(added) => {
            let mut line = "ok ".to_owned();
            line.append(text::to_decimal(*added).as_str());
            line.append("\n");
            line
        },
        Err(e) => {
            let mut line = "err ".to_owned();
            line.append(e.as_str());
            line.append("\n");
            line
        },
    }
}

/// Reads an answer, and tells the user about it.
pub fn report_reply(path: &str, reply: &str) -> (r: Result<String, String>)
    ensures
        match r {
            Ok(s) => told(path@, reply@) == Ok::<Seq<char>, Seq<char>>(s@),
            Err(e) => told(path@, reply@) == Err::<Seq<char>, Seq<char>>(e@),
        },
{
    let answer = text::trim(reply);
    proof {
        reveal_strlit("ok");
        reveal_strlit("err");
        assert("ok"@.len() != "err"@.len());
    }
    if let Some((word, rest)) = text::split_once(answer, 0x20) {
        if text::same_text(word, "ok") {
            let mut s = "closured: preloaded ".to_owned();
            s.append(path);
            s.append(" (");
            s.append(rest);
            s.append(" newly allowed)");
            return Ok(s);
        }
        if text::same_text(word, "err") {
            let mut e = "closured refused the preload: ".to_owned();
            e.append(rest);
            return Err(e);
        }
    }
    let mut e = "unexpected reply from closured: ".to_owned();
    e.append(text::to_debug(answer).as_str());
    Err(e)
}

/// A word without blanks, a blank and some text: what is before the first blank is the word.
proof fn lemma_word(word: Seq<char>, rest: Seq<char>)
    requires
        forall|i: int| 0 <= i < word.len() ==> word[i] != ' ',
    ensures
        text::split_at_first(word.push(' ') + rest, ' ') == Some((word, rest)),
{
    let s = word.push(' ') + rest;
    let n = word.len() as int;
    assert forall|i: int| 0 <= i < n implies s[i] != ' ' by {
        assert(s[i] == word[i]);
    }
    text::lemma_find_is(s, ' ', n);
    assert(s.take(n) =~= word);
    assert(s.skip(n + 1) =~= rest);
}

proof fn lemma_line(s: Seq<char>)
    requires
        s.len() > 0,
        !text::is_white_space(s[0]),
        !text::is_white_space(s.last()),
    ensures
        text::trimmed(s + "\n"@) == s,
{
    reveal_strlit("\n");
    assert(s + "\n"@ =~= s.push('\n'));
    text::lemma_trimmed_push(s, '\n');
    text::lemma_trimmed_id(s);
}

/// Text without line feeds, and a line feed at its end: all of it is the first line.
proof fn lemma_one_line(s: Seq<char>)
    requires
        forall|i: int| 0 <= i < s.len() ==> s[i] != '\n',
    ensures
        first_line(s + "\n"@) == s + "\n"@,
{
    reveal_strlit("\n");
    let line = s + "\n"@;
    assert(line[s.len() as int] == '\n');
    text::lemma_find_is(line, '\n', s.len() as int);
    assert(line.take(s.len() as int + 1) =~= line);
}

/// The daemon reads what the client writes: a request by root to preload a path that does not
/// end with white space is understood as that, if all of it is read. Only its first line is, so
/// the path must hold no line feed.
pub proof fn law_request_read_back(path: Seq<char>)
    requires
        path.len() > 0,
        !text::is_white_space(path.last()),
    ensures
        requested(0, request_text(path)) == Ok::<Seq<char>, Seq<char>>(path),
        !path.contains('\n') ==> first_line(request_text(path)) == request_text(path),
{
    reveal_strlit("preload ");
    reveal_strlit("preload");
    let s = "preload "@ + path;
    assert("preload "@ =~= "preload"@.push(' '));
    assert(s[0] == 'p');
    assert(s.last() == path.last());
    lemma_line(s);
    lemma_word("preload"@, path);
    if !path.contains('\n') {
        assert forall|i: int| 0 <= i < s.len() implies s[i] != '\n' by {
            if i >= 8 {
                assert(s[i] == path[i - 8]);
                assert(path.contains(path[i - 8]));
            }
        }
        lemma_one_line(s);
    }
}

/// Only root is served: whatever anybody else asks for is refused.
pub proof fn law_only_root(uid: u32, line: Seq<char>)
    requires
        uid != 0,
    ensures
        requested(uid, line) == Err::<Seq<char>, Seq<char>>("permission denied"@),
{
}

/// The client reads what the daemon answers: a confirmation is one line, and tells the count.
pub proof fn law_confirmation_read_back(path: Seq<char>, added: nat)
    ensures
        first_line(reply_text(Ok(added))) == reply_text(Ok(added)),
        told(path, reply_text(Ok(added))) == Ok::<Seq<char>, Seq<char>>(
            "closured: preloaded "@ + path + " ("@ + text::decimal(added) + " newly allowed)"@,
        ),
{
    reveal_strlit("ok ");
    reveal_strlit("ok");
    text::lemma_decimal_digits(added);
    let s = "ok "@ + text::decimal(added);
    assert("ok "@ =~= "ok"@.push(' '));
    assert(s[0] == 'o');
    assert(s.last() == text::decimal(added).last());
    lemma_line(s);
    lemma_word("ok"@, text::decimal(added));
    assert forall|i: int| 0 <= i < s.len() implies s[i] != '\n' by {
        if i >= 3 {
            assert(s[i] == text::decimal(added)[i - 3]);
        }
    }
    lemma_one_line(s);
}

/// The client reads what the daemon answers: a refusal tells its message, where that is one line
/// that does not end with white space.
pub proof fn law_refusal_read_back(path: Seq<char>, message: Seq<char>)
    requires
        message.len() > 0,
        !text::is_white_space(message.last()),
        !message.contains('\n'),
    ensures
        first_line(reply_text(Err(message))) == reply_text(Err(message)),
        told(path, reply_text(Err(message))) == Err::<Seq<char>, Seq<char>>(
            "closured refused the preload: "@ + message,
        ),
{
    reveal_strlit("err ");
    reveal_strlit("err");
    reveal_strlit("ok");
    reveal_strlit("\n");
    let s = "err "@ + message;
    assert("err "@ =~= "err"@.push(' '));
    assert(s[0] == 'e');
    assert(s.last() == message.last());
    lemma_line(s);
    lemma_word("err"@, message);
    assert("ok"@.len() != "err"@.len());
    assert forall|i: int| 0 <= i < s.len() implies s[i] != '\n' by {
        if i >= 4 {
            assert(s[i] == message[i - 4]);
            assert(message.contains(message[i - 4]));
        }
    }
    lemma_one_line(s);
}

/// A refusal is never taken for a success, whatever its message, even if only its first line is
/// read.
pub proof fn law_refusal_is_refusal(path: Seq<char>, message: Seq<char>)
    ensures
        told(path, first_line(reply_text(Err(message)))) is Err,
{
    reveal_strlit("err ");
    reveal_strlit("err");
    reveal_strlit("ok");
    reveal_strlit("\n");
    let whole = reply_text(Err(message));
    let line = first_line(whole);
    let n = text::find(whole, '\n');
    text::lemma_find_bounds(whole, '\n');
    assert(whole[0] == 'e' && whole[1] == 'r' && whole[2] == 'r' && whole[3] == ' ');
    assert(whole[whole.len() - 1] == '\n');
    assert(n >= 4);
    assert(line[0] == 'e');
    let s = text::trimmed(line);
    assert(text::trim_start(line) == line);
    lemma_trim_end_prefix(line);
    if let Some((word, rest)) = text::split_at_first(s, ' ') {
        text::lemma_find_bounds(s, ' ');
        let i = text::find(s, ' ');
        assert(s[0] == line[0]);
        assert(word =~= s.take(i));
        if word == "ok"@ {
            assert(word[0] == 'o');
            assert(word[0] == s[0]);
        }
    }
}

/// Trimming the end of text leaves a beginning of it.
proof fn lemma_trim_end_prefix(s: Seq<char>)
    ensures
        text::trim_end(s).is_prefix_of(s),
        s.len() > 0 && !text::is_white_space(s[0]) ==> text::trim_end(s).len() > 0
            && text::trim_end(s)[0] == s[0],
    decreases s.len(),
{
    if s.len() > 0 && text::is_white_space(s.last()) {
        lemma_trim_end_prefix(s.drop_last());
        let t = text::trim_end(s);
        assert(t =~= s.subrange(0, t.len() as int)) by {
            assert(t == s.drop_last().subrange(0, t.len() as int));
        }
    } else {
        assert(s =~= s.subrange(0, s.len() as int));
    }
}

proof fn lemma_split_parts(s: Seq<char>, word: Seq<char>, rest: Seq<char>)
    requires
        text::split_at_first(s, ' ') == Some((word, rest)),
    ensures
        s == word.push(' ') + rest,
{
    text::lemma_find_bounds(s, ' ');
    assert(s =~= word.push(' ') + rest);
}

proof fn lemma_starts(word: Seq<char>, s: Seq<char>)
    requires
        forall|i: int| 0 <= i < word.len() ==> word[i] != ' ',
    ensures
        word.push(' ').is_prefix_of(s) <==> text::split_at_first(s, ' ') is Some
            && (text::split_at_first(s, ' ')->0).0 == word,
        word.push(' ').is_prefix_of(s) ==> s == word.push(' ') + (text::split_at_first(s, ' ')->0).1,
{
    let start = word.push(' ');
    if start.is_prefix_of(s) {
        let rest = s.skip(start.len() as int);
        assert(s =~= start + rest) by {
            assert(s.subrange(0, start.len() as int) == start);
            assert forall|i: int| 0 <= i < s.len() implies s[i] == (start + rest)[i] by {
                if i < start.len() {
                    assert(s.subrange(0, start.len() as int)[i] == s[i]);
                }
            }
        }
        lemma_word(word, rest);
    }
    if let Some((w, rest)) = text::split_at_first(s, ' ') {
        lemma_split_parts(s, w, rest);
        if w == word {
            assert(start =~= s.subrange(0, start.len() as int));
        }
    }
}

/// What a request is taken for: `preload`, a blank and a path, with white space around that or
/// not. The path is all that follows the blank. Anything else is refused in its own words, and
/// whoever is not root is refused outright.
pub proof fn law_requested(uid: u32, line: Seq<char>)
    ensures
        uid != 0 ==> requested(uid, line) == Err::<Seq<char>, Seq<char>>("permission denied"@),
        uid == 0 ==> {
            let asked = text::trimmed(line);
            &&& requested(uid, line) is Ok <==> "preload "@.is_prefix_of(asked)
            &&& requested(uid, line) matches Ok(path) ==> asked == "preload "@ + path
            &&& requested(uid, line) matches Err(e) ==> e == "unknown command `"@ + asked + "`"@
        },
{
    reveal_strlit("preload ");
    reveal_strlit("preload");
    assert("preload "@ =~= "preload"@.push(' '));
    lemma_starts("preload"@, text::trimmed(line));
}

/// What the client makes of an answer: `ok`, a blank and a count is a success, `err`, a blank and
/// a message is a refusal, and anything else is not understood.
pub proof fn law_told(path: Seq<char>, reply: Seq<char>)
    ensures
        ({
            let answer = text::trimmed(reply);
            let ok = "ok "@.is_prefix_of(answer);
            let err = "err "@.is_prefix_of(answer);
            &&& told(path, reply) is Ok <==> ok
            &&& ok ==> told(path, reply) == Ok::<Seq<char>, Seq<char>>(
                "closured: preloaded "@ + path + " ("@ + answer.skip(3) + " newly allowed)"@,
            )
            &&& err ==> told(path, reply) == Err::<Seq<char>, Seq<char>>(
                "closured refused the preload: "@ + answer.skip(4),
            )
            &&& !ok && !err ==> told(path, reply) == Err::<Seq<char>, Seq<char>>(
                "unexpected reply from closured: "@ + text::debug_text(answer),
            )
        }),
{
    let answer = text::trimmed(reply);
    reveal_strlit("ok ");
    reveal_strlit("ok");
    reveal_strlit("err ");
    reveal_strlit("err");
    assert("ok "@ =~= "ok"@.push(' '));
    assert("err "@ =~= "err"@.push(' '));
    assert("ok"@.len() != "err"@.len());
    lemma_starts("ok"@, answer);
    lemma_starts("err"@, answer);
    if let Some((word, rest)) = text::split_at_first(answer, ' ') {
        lemma_split_parts(answer, word, rest);
        assert(answer.skip(word.len() as int + 1) =~= rest);
    }
}

/// What is written on the socket, in both directions, and what the daemon answers when it does
/// not get to decide.
pub proof fn law_wire(path: Seq<char>, added: u64, message: String)
    ensures
        request_text(path) == "preload "@ + path + "\n"@,
        reply_text(Ok(added as nat)) == "ok "@ + text::decimal(added as nat) + "\n"@,
        reply_text(Err(message@)) == "err "@ + message@ + "\n"@,
        settled(Outcome::Answered(Ok(added))) == Ok::<nat, Seq<char>>(added as nat),
        settled(Outcome::Answered(Err(message))) == Err::<nat, Seq<char>>(message@),
        settled(Outcome::ShuttingDown) == Err::<nat, Seq<char>>("closured is shutting down"@),
        settled(Outcome::Lost) == Err::<nat, Seq<char>>("request dropped"@),
{
}

/// Only what the daemon confirmed is told as a success, and with the count that it gave.
pub proof fn law_only_confirmed_is_success(path: Seq<char>, outcome: Outcome)
    ensures
        told(path, first_line(reply_text(settled(outcome)))) is Ok <==> outcome
            matches Outcome::Answered(Ok(_)),
        outcome matches Outcome::Answered(Ok(added)) ==> told(
            path,
            first_line(reply_text(settled(outcome))),
        ) == Ok::<Seq<char>, Seq<char>>(
            "closured: preloaded "@ + path + " ("@ + text::decimal(added as nat)
                + " newly allowed)"@,
        ),
{
    match settled(outcome) {
        Ok(added) => {
            law_confirmation_read_back(path, added);
        },
        Err(e) => {
            law_refusal_is_refusal(path, e);
        },
    }
}

} // verus!
