//! Events as they are shown: one line of text, or one ECS-shaped JSON object.
use crate::event::{Action, Classification, ExecEvent};
use crate::hook;
use crate::text;
use vstd::prelude::*;
use vstd::string::*;
use vstd::utf8::*;

verus! {

/// The version of the Elastic Common Schema that JSON events follow.
pub const ECS_VERSION: &'static str = "8.17";

/// The last second that a timestamp can be given for, counted from the Unix epoch.
pub const MAX_TIMESTAMP: i64 = 8_210_266_876_799;

/// How events are shown.
#[derive(Clone, Copy, PartialEq, Eq, Debug, Structural)]
pub enum Format {
    /// ECS-shaped NDJSON.
    Json,
    /// Human-readable text lines.
    Text,
}

/// An event in the shape of the Elastic Common Schema.
pub struct JsonEvent {
    pub timestamp: String,
    pub ecs: EcsMeta,
    pub event: EventMeta,
    pub process: ProcessFields,
    pub user: UserFields,
    pub closured: ClosuredFields,
}

pub struct EcsMeta {
    pub version: &'static str,
}

pub struct EventMeta {
    pub kind: &'static str,
    pub category: [&'static str; 1],
    pub event_type: [&'static str; 1],
    pub action: &'static str,
    pub outcome: &'static str,
    pub provider: &'static str,
}

pub struct ProcessFields {
    pub pid: u32,
    pub name: String,
    pub executable: String,
}

pub struct UserFields {
    pub id: String,
}

pub struct ClosuredFields {
    pub classification: &'static str,
    pub action: &'static str,
}

/// What is made of an event.
pub enum Shown {
    /// It makes no sense; this is what to say about it.
    Malformed(String),
    Text(String),
    Json(JsonEvent),
}

/// The part of a buffer before its first zero byte.
pub open spec fn before_zero(bytes: Seq<u8>) -> Seq<u8> {
    bytes.take(text::find(bytes, 0u8))
}

/// The text in a buffer that ends at its first zero byte. Where it is not valid UTF-8,
/// replacement characters stand in.
pub fn cstr(bytes: &[u8]) -> (s: String)
    ensures
        s@ == text::utf8_lossy(before_zero(bytes@)),
        valid_utf8(before_zero(bytes@)) ==> s@ == decode_utf8(before_zero(bytes@)),
{
    let mut end: usize = 0;
    while end < bytes.len() && bytes[end] != 0
        invariant
            end <= bytes@.len(),
            forall|j: int| 0 <= j < end ==> bytes@[j] != 0,
        decreases bytes.len() - end,
    {
        end = end + 1;
    }
    proof {
        text::lemma_find_is(bytes@, 0u8, end as int);
    }
    let kept = vstd::slice::slice_subrange(bytes, 0, end);
    assert(kept@ =~= before_zero(bytes@));
    text::from_utf8_lossy(kept)
}

/// How a line of text starts that is about a given classification.
pub open spec fn label(class: Classification) -> Seq<char> {
    match class {
        Classification::Closure => "closure"@,
        Classification::Store => "STORE  "@,
        Classification::Wrapper => "wrapper"@,
        Classification::Memory => "MEMORY "@,
        Classification::Deleted => "DELETED"@,
        Classification::Outside => "OUTSIDE"@,
    }
}

/// An event as a line of text.
pub open spec fn text_of(
    class: Classification,
    action: Action,
    pid: u32,
    uid: u32,
    comm: Seq<char>,
    path: Seq<char>,
) -> Seq<char> {
    let denied = if action == Action::Deny {
        " DENIED"@
    } else {
        ""@
    };
    "["@ + label(class) + "]"@ + denied + " pid="@ + text::decimal(pid as nat) + " uid="@
        + text::decimal(uid as nat) + " comm="@ + comm + " path="@ + path
}

/// Shows an event as a line of text.
pub fn text_line(
    class: Classification,
    action: Action,
    pid: u32,
    uid: u32,
    comm: &str,
    path: &str,
) -> (line: String)
    ensures
        line@ == text_of(class, action, pid, uid, comm@, path@),
{
    let mut line = "[".to_owned();
    line.append(
        match class {
            Classification::Closure => "closure",
            Classification::Store => "STORE  ",
            Classification::Wrapper => "wrapper",
            Classification::Memory => "MEMORY ",
            Classification::Deleted => "DELETED",
            Classification::Outside => "OUTSIDE",
        },
    );
    line.append("]");
    line.append(
        if action == Action::Deny {
            " DENIED"
        } else {
            ""
        },
    );
    line.append(" pid=");
    line.append(text::to_decimal(pid as u64).as_str());
    line.append(" uid=");
    line.append(text::to_decimal(uid as u64).as_str());
    line.append(" comm=");
    line.append(comm);
    line.append(" path=");
    line.append(path);
    line
}

/// Whether `json` is an event in the shape of the Elastic Common Schema.
pub open spec fn is_json_of(
    json: JsonEvent,
    class: Classification,
    action: Action,
    pid: u32,
    uid: u32,
    comm: Seq<char>,
    path: Seq<char>,
    timestamp: Seq<char>,
) -> bool {
    &&& json.timestamp@ == timestamp
    &&& json.ecs.version@ == ECS_VERSION@
    &&& json.event.kind@ == "event"@
    &&& json.event.category@[0]@ == "process"@
    &&& json.event.event_type@[0]@ == "start"@
    &&& json.event.action@ == "exec"@
    &&& json.event.outcome@ == if action == Action::Deny {
        "failure"@
    } else {
        "success"@
    }
    &&& json.event.provider@ == "closured"@
    &&& json.process.pid == pid
    &&& json.process.name@ == comm
    &&& json.process.executable@ == path
    &&& json.user.id@ == text::decimal(uid as nat)
    &&& json.closured.classification@ == class.name()
    &&& json.closured.action@ == action.name()
}

/// Shows an event in the shape of the Elastic Common Schema.
pub fn json_event(
    class: Classification,
    action: Action,
    pid: u32,
    uid: u32,
    comm: String,
    path: String,
    timestamp: String,
) -> (json: JsonEvent)
    ensures
        is_json_of(json, class, action, pid, uid, comm@, path@, timestamp@),
{
    JsonEvent {
        timestamp,
        ecs: EcsMeta { version: ECS_VERSION },
        event: EventMeta {
            kind: "event",
            category: ["process"],
            event_type: ["start"],
            action: "exec",
            outcome: if action == Action::Deny {
                "failure"
            } else {
                "success"
            },
            provider: "closured",
        },
        process: ProcessFields { pid, name: comm, executable: path },
        user: UserFields { id: text::to_decimal(uid as u64) },
        closured: ClosuredFields { classification: class.as_str(), action: action.as_str() },
    }
}

/// What is said about an event with a code that stands for nothing.
pub open spec fn complaint(
    classification: u8,
    action: u8,
    pid: u32,
    path: Seq<char>,
) -> Seq<char> {
    "dropping malformed event (classification "@ + text::decimal(classification as nat)
        + ", action "@ + text::decimal(action as nat) + "): pid="@ + text::decimal(pid as nat)
        + " path="@ + path
}

/// Says what is wrong with an event with a code that stands for nothing.
pub fn malformed_line(classification: u8, action: u8, pid: u32, path: &str) -> (line: String)
    ensures
        line@ == complaint(classification, action, pid, path@),
{
    let mut line = "dropping malformed event (classification ".to_owned();
    line.append(text::to_decimal(classification as u64).as_str());
    line.append(", action ");
    line.append(text::to_decimal(action as u64).as_str());
    line.append("): pid=");
    line.append(text::to_decimal(pid as u64).as_str());
    line.append(" path=");
    line.append(path);
    line
}

/// The timestamp of an instant, given in seconds since the Unix epoch and nanoseconds, as
/// `chrono` writes it in RFC 3339 with milliseconds and `Z`.
pub uninterp spec fn rfc3339_millis(secs: i64, nanos: u32) -> Seq<char>;

/// Calls chrono's `DateTime::to_rfc3339_opts`, on the UTC instant that the arguments stand for,
/// with milliseconds and with `Z` for the offset. The result depends on the arguments alone, and
/// is only named. Chrono has no instant for later seconds or for more nanoseconds than a second
/// has.
#[verifier::external_body]
fn format_timestamp(secs: i64, nanos: u32) -> (s: String)
    requires
        0 <= secs <= MAX_TIMESTAMP,
        nanos < 1_000_000_000,
    ensures
        s@ == rfc3339_millis(secs, nanos),
{
    chrono::DateTime::<chrono::Utc>::from_timestamp(secs, nanos).unwrap().to_rfc3339_opts(
        chrono::SecondsFormat::Millis,
        true,
    )
}

/// Whether `shown` is what is made of an event, with text that was decoded and an instant that
/// was read before.
pub open spec fn is_shown(
    shown: Shown,
    ev: ExecEvent,
    comm: Seq<char>,
    path: Seq<char>,
    format: Format,
    timestamp: Seq<char>,
) -> bool {
    match (Classification::coded(ev.classification), Action::coded(ev.action)) {
        (Some(class), Some(action)) => match format {
            Format::Text => shown matches Shown::Text(line) && line@ == text_of(
                class,
                action,
                ev.pid,
                ev.uid,
                comm,
                path,
            ),
            Format::Json => shown matches Shown::Json(json) && is_json_of(
                json,
                class,
                action,
                ev.pid,
                ev.uid,
                comm,
                path,
                timestamp,
            ),
        },
        _ => shown matches Shown::Malformed(line) && line@ == complaint(
            ev.classification,
            ev.action,
            ev.pid,
            path,
        ),
    }
}

/// Shows an event whose path is `path`, at an instant in seconds since the Unix epoch and
/// nanoseconds. Text has no timestamp.
pub fn handle_event(ev: &ExecEvent, path: &[u8], format: Format, secs: i64, nanos: u32) -> (shown:
    Shown)
    requires
        format == Format::Json ==> 0 <= secs <= MAX_TIMESTAMP && nanos < 1_000_000_000,
    ensures
        is_shown(
            shown,
            *ev,
            text::utf8_lossy(before_zero(ev.comm@)),
            text::utf8_lossy(before_zero(path@)),
            format,
            rfc3339_millis(secs, nanos),
        ),
        text::is_decoded(before_zero(ev.comm@)),
        text::is_decoded(before_zero(path@)),
{
    let path = cstr(path);
    let comm = cstr(ev.comm.as_slice());
    let (class, action) = match (
        Classification::from_u8(ev.classification),
        Action::from_u8(ev.action),
    ) {
        (Some(class), Some(action)) => (class, action),
        _ => {
            return Shown::Malformed(
                malformed_line(ev.classification, ev.action, ev.pid, path.as_str()),
            );
        },
    };
    match format {
        Format::Text => Shown::Text(
            text_line(class, action, ev.pid, ev.uid, comm.as_str(), path.as_str()),
        ),
        Format::Json => Shown::Json(
            json_event(
                class,
                action,
                ev.pid,
                ev.uid,
                comm,
                path,
                format_timestamp(secs, nanos),
            ),
        ),
    }
}

/// What a buffer holds ends at its first zero byte, whatever follows, or else at its end.
pub proof fn law_before_zero(held: Seq<u8>, rest: Seq<u8>)
    requires
        !held.contains(0),
    ensures
        before_zero(held.push(0) + rest) == held,
        before_zero(held) == held,
{
    let s = held.push(0) + rest;
    let n = held.len() as int;
    assert forall|i: int| 0 <= i < n implies s[i] != 0 && held[i] != 0 by {
        assert(held.contains(held[i]));
    }
    text::lemma_find_is(s, 0u8, n);
    text::lemma_find_is(held, 0u8, n);
    assert(s.take(n) =~= held);
    assert(held.take(n) =~= held);
}

/// The outcome of a JSON event says whether the exec was stopped: it is `failure` if and only if
/// the action is to deny, and else `success`, for every classification.
pub proof fn law_outcome(
    json: JsonEvent,
    class: Classification,
    action: Action,
    pid: u32,
    uid: u32,
    comm: Seq<char>,
    path: Seq<char>,
    timestamp: Seq<char>,
)
    requires
        is_json_of(json, class, action, pid, uid, comm, path, timestamp),
    ensures
        json.event.outcome@ == "failure"@ <==> action == Action::Deny,
        json.event.outcome@ == "success"@ <==> action != Action::Deny,
{
    reveal_strlit("failure");
    reveal_strlit("success");
    assert("failure"@[0] == 'f' && "success"@[0] == 's');
}

/// What is shown of an event does not say otherwise than the hook did: an exec that the hook
/// blocks is shown as a failure, or with the word `DENIED`, and one that it permits never is.
pub proof fn law_blocked_is_shown(
    verdict: hook::Verdict,
    ctx: hook::ExecContext,
    allowed: Set<Seq<u8>>,
    codes: Seq<u8>,
    ev: ExecEvent,
    shown: Shown,
    comm: Seq<char>,
    path: Seq<char>,
    format: Format,
    timestamp: Seq<char>,
)
    requires
        hook::is_outcome(verdict, ctx, allowed, codes),
        verdict.report == Some(ev),
        is_shown(shown, ev, comm, path, format, timestamp),
    ensures
        format == Format::Json ==> {
            &&& shown is Json
            &&& (shown->Json_0).event.outcome@ == "failure"@ <==> verdict.code != 0
            &&& (shown->Json_0).event.outcome@ == "success"@ <==> verdict.code == 0
        },
        format == Format::Text ==> {
            &&& shown is Text
            &&& (shown->Text_0)@.subrange(9, 16) == " DENIED"@ <==> verdict.code != 0
        },
{
    let class = hook::class_of(ctx, allowed);
    let action = hook::action_for(ctx, allowed, codes);
    hook::law_records_are_understood(ev, ctx, class, action);
    reveal_strlit("failure");
    reveal_strlit("success");
    assert("failure"@[0] == 'f' && "success"@[0] == 's');
    if format == Format::Text {
        let line = (shown->Text_0)@;
        let start = "["@ + label(class) + "]"@;
        let tail = text::decimal(ev.pid as nat) + " uid="@ + text::decimal(ev.uid as nat)
            + " comm="@ + comm + " path="@ + path;
        reveal_strlit("[");
        reveal_strlit("]");
        reveal_strlit("");
        reveal_strlit(" DENIED");
        reveal_strlit(" pid=");
        reveal_strlit(" uid=");
        lemma_label_len(class);
        if verdict.code != 0 {
            assert(line =~= start + " DENIED"@ + " pid="@ + tail);
            assert(line.subrange(9, 16) =~= " DENIED"@);
        } else {
            assert(line =~= start + " pid="@ + tail);
            assert(line[10] == " pid="@[1]);
            assert(line.subrange(9, 16)[1] == line[10]);
            assert(" DENIED"@[1] == 'D');
        }
    }
}

proof fn lemma_label_len(class: Classification)
    ensures
        label(class).len() == 7,
{
    reveal_strlit("closure");
    reveal_strlit("STORE  ");
    reveal_strlit("wrapper");
    reveal_strlit("MEMORY ");
    reveal_strlit("DELETED");
    reveal_strlit("OUTSIDE");
}

/// Which events are shown, and in which form: an event with a code that stands for nothing is
/// complained about, and any other is shown in the format that was asked for.
pub proof fn law_form(
    shown: Shown,
    ev: ExecEvent,
    comm: Seq<char>,
    path: Seq<char>,
    format: Format,
    timestamp: Seq<char>,
)
    requires
        is_shown(shown, ev, comm, path, format, timestamp),
    ensures
        shown is Malformed <==> ev.classification > 5 || ev.action > 2,
        shown is Json <==> ev.classification <= 5 && ev.action <= 2 && format == Format::Json,
        shown is Text <==> ev.classification <= 5 && ev.action <= 2 && format == Format::Text,
        shown matches Shown::Malformed(line) ==> line@
            == "dropping malformed event (classification "@ + text::decimal(
            ev.classification as nat,
        ) + ", action "@ + text::decimal(ev.action as nat) + "): pid="@ + text::decimal(
            ev.pid as nat,
        ) + " path="@ + path,
{
}

/// What a JSON event holds: the fields of the event it is about, the words for its codes, and
/// what is the same in every event.
pub proof fn law_json_fields(
    json: JsonEvent,
    ev: ExecEvent,
    comm: Seq<char>,
    path: Seq<char>,
    timestamp: Seq<char>,
)
    requires
        is_shown(Shown::Json(json), ev, comm, path, Format::Json, timestamp),
    ensures
        json.timestamp@ == timestamp,
        json.process.pid == ev.pid,
        json.process.name@ == comm,
        json.process.executable@ == path,
        json.user.id@ == text::decimal(ev.uid as nat),
        json.closured.classification@ == (if ev.classification == 0 {
            "closure"@
        } else if ev.classification == 1 {
            "store"@
        } else if ev.classification == 2 {
            "wrapper"@
        } else if ev.classification == 3 {
            "memory"@
        } else if ev.classification == 4 {
            "deleted"@
        } else {
            "outside"@
        }),
        json.closured.action@ == (if ev.action == 0 {
            "allow"@
        } else if ev.action == 1 {
            "audit"@
        } else {
            "deny"@
        }),
        json.ecs.version@ == "8.17"@,
        json.event.kind@ == "event"@,
        json.event.category@.len() == 1 && json.event.category@[0]@ == "process"@,
        json.event.event_type@.len() == 1 && json.event.event_type@[0]@ == "start"@,
        json.event.action@ == "exec"@,
        json.event.provider@ == "closured"@,
{
}

/// What a line of text holds: the label of the classification, the word `DENIED` if the exec was
/// stopped, and the fields of the event.
pub proof fn law_text_fields(
    line: String,
    ev: ExecEvent,
    comm: Seq<char>,
    path: Seq<char>,
    timestamp: Seq<char>,
)
    requires
        is_shown(Shown::Text(line), ev, comm, path, Format::Text, timestamp),
    ensures
        ({
            let start = if ev.classification == 0 {
                "[closure]"@
            } else if ev.classification == 1 {
                "[STORE  ]"@
            } else if ev.classification == 2 {
                "[wrapper]"@
            } else if ev.classification == 3 {
                "[MEMORY ]"@
            } else if ev.classification == 4 {
                "[DELETED]"@
            } else {
                "[OUTSIDE]"@
            };
            let fields = " pid="@ + text::decimal(ev.pid as nat) + " uid="@ + text::decimal(
                ev.uid as nat,
            ) + " comm="@ + comm + " path="@ + path;
            line@ == if ev.action == 2 {
                start + " DENIED"@ + fields
            } else {
                start + fields
            }
        }),
{
    reveal_strlit("[");
    reveal_strlit("]");
    reveal_strlit("");
    reveal_strlit("closure");
    reveal_strlit("STORE  ");
    reveal_strlit("wrapper");
    reveal_strlit("MEMORY ");
    reveal_strlit("DELETED");
    reveal_strlit("OUTSIDE");
    reveal_strlit("[closure]");
    reveal_strlit("[STORE  ]");
    reveal_strlit("[wrapper]");
    reveal_strlit("[MEMORY ]");
    reveal_strlit("[DELETED]");
    reveal_strlit("[OUTSIDE]");
    assert("["@ + "closure"@ + "]"@ =~= "[closure]"@);
    assert("["@ + "STORE  "@ + "]"@ =~= "[STORE  ]"@);
    assert("["@ + "wrapper"@ + "]"@ =~= "[wrapper]"@);
    assert("["@ + "MEMORY "@ + "]"@ =~= "[MEMORY ]"@);
    assert("["@ + "DELETED"@ + "]"@ =~= "[DELETED]"@);
    assert("["@ + "OUTSIDE"@ + "]"@ =~= "[OUTSIDE]"@);
    let class = Classification::coded(ev.classification)->0;
    let action = Action::coded(ev.action)->0;
    let start = "["@ + label(class) + "]"@;
    let fields = " pid="@ + text::decimal(ev.pid as nat) + " uid="@ + text::decimal(ev.uid as nat)
        + " comm="@ + comm + " path="@ + path;
    if action == Action::Deny {
        assert(line@ =~= start + " DENIED"@ + fields);
    } else {
        assert(line@ =~= start + fields);
    }
}

} // verus!
