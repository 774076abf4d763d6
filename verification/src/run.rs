//! Run admission rules, identities, limits, and the stream cursor.

use crate::text;
use vstd::prelude::*;

verus! {

pub const RUN_SCHEMA: &'static str = "canopy.run/v1alpha1";
pub const TRACE_SCHEMA: &'static str = "canopy.causal-trace/v1alpha1";
pub const QUEUE_PROFILE: &'static str = "eco-balanced/v1alpha1";
pub const MAX_NONTERMINAL_RUNS: usize = 64;
pub const MAX_HOT_RUNS: usize = 16;
pub const READY_QUEUE_COUNT: usize = 1024;
pub const READY_QUEUE_BYTES: usize = 4194304;
pub const RESULT_QUEUE_COUNT: usize = 256;
pub const RESULT_QUEUE_BYTES: usize = 16777216;
pub const WRITER_QUEUE_COUNT: usize = 32;
pub const WRITER_QUEUE_BYTES: usize = 8388608;
pub const LIVE_RING_COUNT: usize = 256;
pub const LIVE_RING_BYTES: usize = 1048576;
pub const MAX_SSE_SUBSCRIBERS: usize = 32;
pub const SUBSCRIBER_QUEUE_COUNT: usize = 64;
pub const SUBSCRIBER_QUEUE_BYTES: usize = 262144;
pub const MAX_INVOCATION_BYTES: usize = 8192;
pub const CHECKPOINT_MAX_OUTCOMES: usize = 1024;
pub const CHECKPOINT_MAX_BYTES: usize = 1048576;
pub const CHECKPOINT_MAX_LATENCY_MILLIS: u64 = 250;
/// The largest Server-Sent Events frame one subscriber mailbox slot holds.
pub const MAX_SSE_FRAME_BYTES: usize = 4096;
/// Room left for the data line after the event name, cursor, and framing.
pub const MAX_SSE_DATA_BYTES: usize = 3584;

/// A request to cancel a Run, identified for idempotent replay.
#[derive(Clone, Debug)]
pub struct CancelRunRequest {
    pub cancellation_request_id: String,
}

/// Durable progress of a Run as its projection row records it.
#[derive(Clone, Debug)]
pub struct DurableProgress {
    pub state: String,
    pub checkpoint_sequence: u64,
    pub logical_order: u64,
    pub terminal: bool,
    pub updated_at: i64,
}

/// Speculative progress announced on the live stream.
#[derive(Clone, Debug)]
pub struct LiveProgress {
    pub state: String,
    pub speculative: bool,
    pub boot_epoch: String,
    pub sequence: u64,
}

/// The Run's correctness digest and Activation counters.
#[derive(Clone, Debug)]
pub struct CorrectnessView {
    pub canonicalization: String,
    pub algorithm: String,
    pub digest: Option<String>,
    pub complete: bool,
    pub attempted: u64,
    pub succeeded: u64,
    pub cancelled: u64,
    pub failed: u64,
    pub output_count: u64,
}

/// A count and byte bound of one queue.
#[derive(Clone, Debug)]
pub struct QueueLimitView {
    pub count: usize,
    pub bytes: usize,
}

/// The subscriber bound and each subscriber's mailbox bound.
#[derive(Clone, Debug)]
pub struct SubscriberLimitView {
    pub count: usize,
    pub mailbox: QueueLimitView,
}

/// The governed queue profile every Run runs under.
#[derive(Clone, Debug)]
pub struct QueueProfileView {
    pub profile: String,
    pub maximum_nonterminal_runs: usize,
    pub maximum_hot_runs: usize,
    pub ready: QueueLimitView,
    pub results: QueueLimitView,
    pub writer: QueueLimitView,
    pub live_ring_per_run: QueueLimitView,
    pub subscribers: SubscriberLimitView,
    pub maximum_inline_invocation_bytes: usize,
}

/// The public view of one Run.
#[derive(Clone, Debug)]
pub struct RunView {
    pub schema: String,
    pub run_id: String,
    pub run_request_id: String,
    pub workflow_id: String,
    pub publication_event_id: String,
    pub revision_id: String,
    pub revision_digest: String,
    pub plan_id: String,
    pub plan_digest: String,
    pub durable: DurableProgress,
    pub live: Option<LiveProgress>,
    pub correctness: CorrectnessView,
    pub admitted_at: i64,
    pub started_at: Option<i64>,
    pub terminal_at: Option<i64>,
    pub queue_profile: QueueProfileView,
}

/// The reply to an admission request.
#[derive(Clone, Debug)]
pub struct AdmissionResult {
    pub created: bool,
    pub run: RunView,
}

/// The reply to a cancellation request.
#[derive(Clone, Debug)]
pub struct CancellationResult {
    pub accepted: bool,
    pub already_terminal: bool,
    pub run: RunView,
}

/// Identity of the Run a Causal Trace belongs to.
#[derive(Clone, Debug)]
pub struct TraceRunIdentity {
    pub run_id: String,
    pub workflow_id: String,
    pub publication_event_id: String,
    pub revision_id: String,
    pub revision_digest: String,
    pub plan_id: String,
    pub plan_digest: String,
}

/// When an Activation ran.
#[derive(Clone, Debug)]
pub struct TimingView {
    pub started_at: i64,
    pub completed_at: i64,
    pub elapsed_micros: u64,
}

/// Why a Run request was refused.
#[derive(Debug)]
pub enum RunError {
    NotFound,
    NoCurrentPublication,
    StalePublication,
    RequestIdentityConflict,
    AdmissionFull,
    SubscriberFull,
    Invalid(&'static str),
    TooLarge(&'static str),
    Integrity(String),
    Storage(String),
}

/// One Server-Sent Events frame.
#[derive(Clone, Debug)]
pub struct StreamFrame {
    pub event: String,
    pub id: String,
    pub data: String,
}

/// How one Activation ended.
#[derive(Clone, Copy, Debug, PartialEq, Eq)]
pub enum ActivationOutcome {
    Success,
    Cancelled,
    PermanentFailure,
}

/// Characters a Run-side identifier may hold.
pub open spec fn is_run_identifier_char(c: char) -> bool {
    text::is_ascii_alnum(c) || c == '-' || c == '_' || c == ':' || c == '.'
}

/// A Run-side identifier: one to 160 characters from the allowed set. (All of
/// them are ASCII, so the character count equals the byte count.)
pub open spec fn is_run_identifier(s: Seq<char>) -> bool {
    &&& 0 < s.len() <= 160
    &&& forall|i: int| 0 <= i < s.len() ==> is_run_identifier_char(#[trigger] s[i])
}

/// Accepts `value` when it is a Run-side identifier, else reports `field`.
pub fn validate_identifier(value: &str, field: &'static str) -> (r: Result<(), RunError>)
    ensures
        r is Ok <==> is_run_identifier(value@),
        r is Err ==> r == Err::<(), RunError>(RunError::Invalid(field)),
{
    let chars = text::chars_of(value);
    if chars.len() == 0 || chars.len() > 160 {
        return Err(RunError::Invalid(field));
    }
    let mut i: usize = 0;
    while i < chars.len()
        invariant
            chars@ == value@,
            0 <= i <= chars@.len(),
            forall|j: int| 0 <= j < i ==> is_run_identifier_char(#[trigger] chars@[j]),
        decreases chars@.len() - i,
    {
        let c = chars[i];
        if !(text::ascii_alnum(c) || c == '-' || c == '_' || c == ':' || c == '.') {
            return Err(RunError::Invalid(field));
        }
        i = i + 1;
    }
    Ok(())
}

/// The algorithm tag every digest carries.
pub open spec fn sha256_tag() -> Seq<char> {
    seq!['s', 'h', 'a', '2', '5', '6', ':']
}

/// An algorithm-tagged SHA-256 digest: `sha256:` and 64 hex digits.
pub open spec fn is_tagged_digest(s: Seq<char>) -> bool {
    &&& s.len() == 71
    &&& s.take(7) == sha256_tag()
    &&& forall|i: int| 7 <= i < 71 ==> text::is_ascii_hex(#[trigger] s[i])
}

/// Accepts `value` when it is a tagged SHA-256 digest, else reports `field`.
pub fn validate_tagged_digest(value: &str, field: &'static str) -> (r: Result<(), RunError>)
    ensures
        r is Ok <==> is_tagged_digest(value@),
        r is Err ==> r == Err::<(), RunError>(RunError::Invalid(field)),
{
    let chars = text::chars_of(value);
    if chars.len() != 71 {
        return Err(RunError::Invalid(field));
    }
    let ok_prefix = chars[0] == 's' && chars[1] == 'h' && chars[2] == 'a' && chars[3] == '2'
        && chars[4] == '5' && chars[5] == '6' && chars[6] == ':';
    if !ok_prefix {
        assert(chars@.take(7) != sha256_tag()) by {
            if chars@.take(7) == sha256_tag() {
                assert(chars@.take(7)[0] == 's');
                assert(chars@.take(7)[1] == 'h');
                assert(chars@.take(7)[2] == 'a');
                assert(chars@.take(7)[3] == '2');
                assert(chars@.take(7)[4] == '5');
                assert(chars@.take(7)[5] == '6');
                assert(chars@.take(7)[6] == ':');
            }
        }
        return Err(RunError::Invalid(field));
    }
    assert(chars@.take(7) =~= sha256_tag());
    let mut i: usize = 7;
    while i < 71
        invariant
            chars@ == value@,
            chars@.len() == 71,
            7 <= i <= 71,
            forall|j: int| 7 <= j < i ==> text::is_ascii_hex(#[trigger] chars@[j]),
        decreases 71 - i,
    {
        if !text::ascii_hex(chars[i]) {
            return Err(RunError::Invalid(field));
        }
        i = i + 1;
    }
    Ok(())
}

/// The states after which a Run never changes again.
pub open spec fn is_terminal_state(state: Seq<char>) -> bool {
    state == "succeeded"@ || state == "failed"@ || state == "cancelled"@
}

/// Whether `state` is terminal.
pub fn is_terminal(state: &str) -> (r: bool)
    ensures
        r == is_terminal_state(state@),
{
    text::str_eq(state, "succeeded") || text::str_eq(state, "failed") || text::str_eq(state, "cancelled")
}

/// The stored name of an Activation outcome.
pub open spec fn outcome_text(outcome: ActivationOutcome) -> Seq<char> {
    match outcome {
        ActivationOutcome::Success => "success"@,
        ActivationOutcome::Cancelled => "cancelled"@,
        ActivationOutcome::PermanentFailure => "permanent_failure"@,
    }
}

/// The stored name of `outcome`.
pub fn outcome_name(outcome: &ActivationOutcome) -> (name: &'static str)
    ensures
        name@ == outcome_text(*outcome),
{
    match outcome {
        ActivationOutcome::Success => "success",
        ActivationOutcome::Cancelled => "cancelled",
        ActivationOutcome::PermanentFailure => "permanent_failure",
    }
}

/// The queue profile with every bound the scheduler enforces.
pub fn queue_profile() -> (p: QueueProfileView)
    ensures
        p.profile@ == QUEUE_PROFILE@,
        p.maximum_nonterminal_runs == MAX_NONTERMINAL_RUNS,
        p.maximum_hot_runs == MAX_HOT_RUNS,
        p.ready.count == READY_QUEUE_COUNT && p.ready.bytes == READY_QUEUE_BYTES,
        p.results.count == RESULT_QUEUE_COUNT && p.results.bytes == RESULT_QUEUE_BYTES,
        p.writer.count == WRITER_QUEUE_COUNT && p.writer.bytes == WRITER_QUEUE_BYTES,
        p.live_ring_per_run.count == LIVE_RING_COUNT && p.live_ring_per_run.bytes
            == LIVE_RING_BYTES,
        p.subscribers.count == MAX_SSE_SUBSCRIBERS,
        p.subscribers.mailbox.count == SUBSCRIBER_QUEUE_COUNT && p.subscribers.mailbox.bytes
            == SUBSCRIBER_QUEUE_BYTES,
        p.maximum_inline_invocation_bytes == MAX_INVOCATION_BYTES,
{
    QueueProfileView {
        profile: text::owned(QUEUE_PROFILE),
        maximum_nonterminal_runs: MAX_NONTERMINAL_RUNS,
        maximum_hot_runs: MAX_HOT_RUNS,
        ready: QueueLimitView { count: READY_QUEUE_COUNT, bytes: READY_QUEUE_BYTES },
        results: QueueLimitView { count: RESULT_QUEUE_COUNT, bytes: RESULT_QUEUE_BYTES },
        writer: QueueLimitView { count: WRITER_QUEUE_COUNT, bytes: WRITER_QUEUE_BYTES },
        live_ring_per_run: QueueLimitView { count: LIVE_RING_COUNT, bytes: LIVE_RING_BYTES },
        subscribers: SubscriberLimitView {
            count: MAX_SSE_SUBSCRIBERS,
            mailbox: QueueLimitView { count: SUBSCRIBER_QUEUE_COUNT, bytes: SUBSCRIBER_QUEUE_BYTES },
        },
        maximum_inline_invocation_bytes: MAX_INVOCATION_BYTES,
    }
}

/// UTF-8 byte length of a string.
pub open spec fn byte_len(s: Seq<char>) -> nat {
    vstd::utf8::encode_utf8(s).len()
}

/// The UTF-8 length of two texts joined is the sum of their lengths.
pub proof fn lemma_byte_len_concat(a: Seq<char>, b: Seq<char>)
    ensures
        byte_len(a + b) == byte_len(a) + byte_len(b),
    decreases a.len(),
{
    if a.len() == 0 {
        assert(a + b =~= b);
    } else {
        lemma_byte_len_concat(a.drop_first(), b);
        assert((a + b).drop_first() =~= a.drop_first() + b);
        assert((a + b)[0] == a[0]);
    }
}

/// An ASCII text takes one byte per character.
pub proof fn lemma_byte_len_ascii(s: Seq<char>)
    requires
        vstd::utf8::is_ascii_chars(s),
    ensures
        byte_len(s) == s.len(),
{
    vstd::utf8::is_ascii_chars_encode_utf8(s);
}

/// A text with one more ASCII character takes one more byte.
proof fn lemma_byte_len_push_ascii(s: Seq<char>, c: char)
    requires
        '\0' <= c <= '\u{7f}',
    ensures
        byte_len(s.push(c)) == byte_len(s) + 1,
{
    assert(s.push(c) =~= s + seq![c]);
    lemma_byte_len_concat(s, seq![c]);
    lemma_byte_len_ascii(seq![c]);
}

/// A cursor takes at most 46 bytes more than its Run identifier and boot
/// epoch.
pub proof fn lemma_cursor_byte_len(run_id: Seq<char>, durable: u64, boot_epoch: Seq<char>, live: u64)
    ensures
        byte_len(cursor_text(run_id, durable as nat, boot_epoch, live as nat)) <= byte_len(run_id)
            + byte_len(boot_epoch) + 46,
{
    let d = text::decimal(durable as nat);
    let l = text::decimal(live as nat);
    text::lemma_decimal_u64(durable);
    text::lemma_decimal_u64(live);
    lemma_byte_len_ascii(d);
    lemma_byte_len_ascii(l);
    let p0 = seq!['v', '1'].push('.');
    assert(vstd::utf8::is_ascii_chars(p0));
    lemma_byte_len_ascii(p0);
    let p1 = p0 + run_id;
    lemma_byte_len_concat(p0, run_id);
    lemma_byte_len_push_ascii(p1, '.');
    let p2 = p1.push('.') + d;
    lemma_byte_len_concat(p1.push('.'), d);
    lemma_byte_len_push_ascii(p2, '.');
    let p3 = p2.push('.') + boot_epoch;
    lemma_byte_len_concat(p2.push('.'), boot_epoch);
    lemma_byte_len_push_ascii(p3, '.');
    lemma_byte_len_concat(p3.push('.'), l);
    assert(cursor_text(run_id, durable as nat, boot_epoch, live as nat) == p3.push('.') + l);
}

/// Bytes a frame occupies in a mailbox: its three texts plus framing.
pub open spec fn frame_size(frame: StreamFrame) -> int {
    (byte_len(frame.id@) + byte_len(frame.data@) + byte_len(frame.event@) + 32) as int
}

/// Bytes `frame` occupies in a mailbox.
pub fn frame_bytes(frame: &StreamFrame) -> (n: usize)
    requires
        frame_size(*frame) <= usize::MAX,
    ensures
        n == frame_size(*frame),
{
    frame.id.as_str().len() + frame.data.as_str().len() + frame.event.as_str().len() + 32
}

/// The writer-queue weight of a completed Activation: the length of its
/// canonical encoding (64 KiB when it could not be encoded) plus 4 KiB,
/// saturating at `usize::MAX`.
pub fn result_weight(encoded_len: Option<usize>) -> (w: usize)
    ensures
        w == (match encoded_len {
            Some(n) => if n + 4096 <= usize::MAX { n + 4096 } else { usize::MAX as int },
            None => 69632int,
        }),
{
    let base = match encoded_len {
        Some(n) => n,
        None => 65536,
    };
    base.saturating_add(4096)
}

/// The ready-queue weight of a queued Run: the length of its canonical
/// invocation (`MAX_INVOCATION_BYTES` when it could not be encoded) plus 8 KiB,
/// saturating at `usize::MAX`.
pub fn candidate_weight(encoded_len: Option<usize>) -> (w: usize)
    ensures
        w == (match encoded_len {
            Some(n) => if n + 8192 <= usize::MAX { n + 8192 } else { usize::MAX as int },
            None => (MAX_INVOCATION_BYTES + 8192) as int,
        }),
{
    let base = match encoded_len {
        Some(n) => n,
        None => MAX_INVOCATION_BYTES,
    };
    base.saturating_add(8192)
}

/// Keeps a stream data line that fits in one mailbox slot.
pub fn bounded_stream_data(data: String) -> (r: Result<String, RunError>)
    requires
        byte_len(data@) <= usize::MAX,
    ensures
        byte_len(data@) > MAX_SSE_DATA_BYTES ==> (r matches Err(RunError::TooLarge(f)) && f@
            == "sse_event"@),
        byte_len(data@) <= MAX_SSE_DATA_BYTES ==> r == Ok::<String, RunError>(data),
{
    if data.as_str().len() > MAX_SSE_DATA_BYTES {
        Err(RunError::TooLarge("sse_event"))
    } else {
        Ok(data)
    }
}

/// The text of a stream cursor:
/// `v1.{run_id}.{durable}.{boot_epoch}.{live}`.
pub open spec fn cursor_text(run_id: Seq<char>, durable: nat, boot_epoch: Seq<char>, live: nat) -> Seq<char> {
    ((((seq!['v', '1'].push('.') + run_id).push('.') + text::decimal(durable)).push('.') + boot_epoch).push(
        '.',
    ) + text::decimal(live))
}

/// The stream cursor of a Run at a durable checkpoint and a live sequence.
pub fn cursor(run_id: &str, durable: u64, boot_epoch: &str, live: u64) -> (c: String)
    ensures
        c@ == cursor_text(run_id@, durable as nat, boot_epoch@, live as nat),
{
    let mut s = String::new();
    text::push_char(&mut s, 'v');
    text::push_char(&mut s, '1');
    text::push_char(&mut s, '.');
    text::push_str(&mut s, run_id);
    text::push_char(&mut s, '.');
    let d = text::decimal_chars(durable);
    text::push_chars(&mut s, d.as_slice());
    text::push_char(&mut s, '.');
    text::push_str(&mut s, boot_epoch);
    text::push_char(&mut s, '.');
    let l = text::decimal_chars(live);
    text::push_chars(&mut s, l.as_slice());
    assert(s@ =~= cursor_text(run_id@, durable as nat, boot_epoch@, live as nat));
    s
}

/// The parts of a stream cursor.
#[derive(Clone, Debug)]
pub struct ParsedCursor {
    pub run_id: String,
    pub durable_sequence: u64,
    pub boot_epoch: String,
    pub live_sequence: u64,
}

/// What a cursor text parses to: exactly five dot-separated fields, the first
/// `v1`, the third and fifth readable as `u64`.
pub open spec fn parse_cursor_spec(s: Seq<char>) -> Option<(Seq<char>, u64, Seq<char>, u64)> {
    let fields = text::split_fields(s, '.');
    if fields.len() == 5 && fields[0] == seq!['v', '1'] && text::parse_u64_spec(fields[2]) is Some
        && text::parse_u64_spec(fields[4]) is Some {
        Some((fields[1], text::parse_u64_spec(fields[2])->0, fields[3], text::parse_u64_spec(fields[4])->0))
    } else {
        None
    }
}

/// Parses a stream cursor; `None` for any other shape.
pub fn parse_cursor(value: &str) -> (r: Option<ParsedCursor>)
    ensures
        r is Some <==> parse_cursor_spec(value@) is Some,
        r is Some ==> ({
            let p = r->0;
            let q = parse_cursor_spec(value@)->0;
            p.run_id@ == q.0 && p.durable_sequence == q.1 && p.boot_epoch@ == q.2
                && p.live_sequence == q.3
        }),
{
    let chars = text::chars_of(value);
    let fields = text::split_chars(chars.as_slice(), '.');
    if fields.len() != 5 {
        return None;
    }
    let first = &fields[0];
    if !(first.len() == 2 && first[0] == 'v' && first[1] == '1') {
        assert(fields@[0]@ != seq!['v', '1']) by {
            if fields@[0]@ == seq!['v', '1'] {
                assert(fields@[0]@[0] == 'v');
                assert(fields@[0]@[1] == '1');
            }
        }
        return None;
    }
    assert(fields@[0]@ =~= seq!['v', '1']);
    let durable = text::parse_u64(fields[2].as_slice());
    let live = text::parse_u64(fields[4].as_slice());
    match (durable, live) {
        (Some(d), Some(l)) => Some(
            ParsedCursor {
                run_id: text::string_of(fields[1].as_slice()),
                durable_sequence: d,
                boot_epoch: text::string_of(fields[3].as_slice()),
                live_sequence: l,
            },
        ),
        _ => None,
    }
}

/// A cursor reads back as the parts it was written from, as long as the Run
/// identity and the boot epoch hold no `.`.
pub proof fn lemma_cursor_roundtrip(run_id: Seq<char>, durable: u64, boot_epoch: Seq<char>, live: u64)
    requires
        text::lacks(run_id, '.'),
        text::lacks(boot_epoch, '.'),
    ensures
        parse_cursor_spec(cursor_text(run_id, durable as nat, boot_epoch, live as nat)) == Some(
            (run_id, durable, boot_epoch, live),
        ),
{
    let v1 = seq!['v', '1'];
    let dd = text::decimal(durable as nat);
    let dl = text::decimal(live as nat);
    text::lemma_decimal(durable as nat);
    text::lemma_decimal(live as nat);
    text::lemma_parse_decimal(durable);
    text::lemma_parse_decimal(live);
    assert(text::lacks(v1, '.')) by {
        assert forall|i: int| 0 <= i < v1.len() implies v1[i] != '.' by {}
    }
    assert(text::lacks(dd, '.')) by {
        assert forall|i: int| 0 <= i < dd.len() implies dd[i] != '.' by {
            assert(text::is_digit(dd[i]));
        }
    }
    assert(text::lacks(dl, '.')) by {
        assert forall|i: int| 0 <= i < dl.len() implies dl[i] != '.' by {
            assert(text::is_digit(dl[i]));
        }
    }
    text::lemma_split_plain(v1, '.');
    text::lemma_split_plain(run_id, '.');
    text::lemma_split_plain(dd, '.');
    text::lemma_split_plain(boot_epoch, '.');
    text::lemma_split_plain(dl, '.');
    let a = v1;
    let b = a.push('.') + run_id;
    let c = b.push('.') + dd;
    let d = c.push('.') + boot_epoch;
    let e = d.push('.') + dl;
    text::lemma_split_join(a, '.', run_id);
    text::lemma_split_join(b, '.', dd);
    text::lemma_split_join(c, '.', boot_epoch);
    text::lemma_split_join(d, '.', dl);
    let fields = text::split_fields(e, '.');
    assert(fields =~= seq![v1, run_id, dd, boot_epoch, dl]);
}

} // verus!
