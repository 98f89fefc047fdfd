//! The named pipes between the client program and the running service. Each
//! connection has a pair of them, named after its id. A message travels as one
//! frame: a 4-byte little-endian length, then that many bytes of UTF-8.
use crate::layout;
use crate::layout::{join_path, underscore_uuid, Platform};
use crate::number;
use crate::number::u64_text;
use crate::text;
use crate::text::{cat, cat3};
use vstd::prelude::*;
use vstd::slice::{slice_subrange, slice_to_vec};
use vstd::utf8;

verus! {

/// The most bytes a frame's payload may have.
pub const MAX_FRAME_BYTES: u32 = 16_777_216;

// ---------------------------------------------------------------------------
// Frames
// ---------------------------------------------------------------------------

/// The number that four bytes stand for, least significant first.
pub open spec fn length_of(bytes: Seq<u8>) -> nat {
    (bytes[0] + 256 * bytes[1] + 65536 * bytes[2] + 16777216 * bytes[3]) as nat
}

/// The four bytes that stand for a number, least significant first.
pub open spec fn length_bytes(n: nat) -> Seq<u8> {
    seq![
        (n % 256) as u8,
        (n / 256 % 256) as u8,
        (n / 65536 % 256) as u8,
        (n / 16777216 % 256) as u8,
    ]
}

/// The frame that carries a message.
pub open spec fn frame(message: Seq<char>) -> Seq<u8> {
    let payload = utf8::encode_utf8(message);
    length_bytes(payload.len()) + payload
}

/// Whether a message fits in a frame.
pub open spec fn fits(message: Seq<char>) -> bool {
    utf8::encode_utf8(message).len() <= MAX_FRAME_BYTES
}

/// What is said of a message that does not fit in a frame.
pub open spec fn message_too_long(len: nat) -> Seq<char> {
    "message of "@ + number::decimal(len) + " bytes exceeds the frame limit"@
}

/// What is said of a frame that announces too long a payload.
pub open spec fn frame_too_long(len: nat) -> Seq<char> {
    "frame of "@ + number::decimal(len) + " bytes exceeds the frame limit"@
}

/// What is said of a payload that is not UTF-8.
pub open spec fn not_utf8() -> Seq<char> {
    "pipe frame is not UTF-8"@
}

/// What is said where the bytes end inside a frame.
pub open spec fn cut_short() -> Seq<char> {
    "pipe read failed: failed to fill whole buffer"@
}

/// The text that bytes are, where they are UTF-8 (`String::from_utf8`):
/// exactly then it succeeds, and the text's encoding is those bytes.
#[verifier::external_body]
pub(crate) fn utf8_text(bytes: Vec<u8>) -> (r: Option<String>)
    ensures
        r is Some <==> utf8::valid_utf8(bytes@),
        r matches Some(message) ==> utf8::encode_utf8(message@) == bytes@,
{
    String::from_utf8(bytes).ok()
}

/// Four bytes that stand for a length give that length back.
proof fn length_reads_back(n: nat)
    requires
        n < 0x1_0000_0000,
    ensures
        length_of(length_bytes(n)) == n,
{
    assert(n % 256 + 256 * (n / 256 % 256) + 65536 * (n / 65536 % 256) + 16777216 * (n / 16777216
        % 256) == n) by (nonlinear_arith)
        requires
            0 <= n < 0x1_0000_0000,
    ;
}

/// Appends a message's frame to `out`; a message that does not fit is
/// refused and leaves `out` as it was.
pub fn write_frame(out: &mut Vec<u8>, message: &str) -> (r: Result<(), String>)
    ensures
        r is Ok <==> fits(message@),
        r is Ok ==> final(out)@ == old(out)@ + frame(message@),
        r matches Err(e) ==> {
            &&& e@ == message_too_long(utf8::encode_utf8(message@).len())
            &&& final(out)@ == old(out)@
        },
{
    let payload = message.as_bytes();
    let len: usize = payload.len();
    if len > MAX_FRAME_BYTES as usize {
        return Err(
            cat3("message of ", u64_text(len as u64).as_str(), " bytes exceeds the frame limit"),
        );
    }
    let n: u32 = len as u32;
    out.push((n % 256) as u8);
    out.push((n / 256 % 256) as u8);
    out.push((n / 65536 % 256) as u8);
    out.push((n / 16777216 % 256) as u8);
    out.extend_from_slice(payload);
    assert(out@ == old(out)@ + frame(message@));
    Ok(())
}

/// The payload length that a frame's first four bytes announce.
pub fn frame_length(head: &[u8]) -> (r: Result<u32, String>)
    requires
        head@.len() >= 4,
    ensures
        match r {
            Ok(n) => n == length_of(head@) && n <= MAX_FRAME_BYTES,
            Err(e) => length_of(head@) > MAX_FRAME_BYTES && e@ == frame_too_long(length_of(head@)),
        },
{
    let n: u32 = head[0] as u32 + 256 * (head[1] as u32) + 65536 * (head[2] as u32) + 16777216 * (
    head[3] as u32);
    if n > MAX_FRAME_BYTES {
        Err(cat3("frame of ", u64_text(n as u64).as_str(), " bytes exceeds the frame limit"))
    } else {
        Ok(n)
    }
}

/// The message that a frame's payload carries.
pub fn frame_text(payload: Vec<u8>) -> (r: Result<String, String>)
    ensures
        match r {
            Ok(message) => utf8::valid_utf8(payload@) && message@ == utf8::decode_utf8(payload@),
            Err(e) => !utf8::valid_utf8(payload@) && e@ == not_utf8(),
        },
{
    match utf8_text(payload) {
        Some(message) => {
            proof {
                utf8::encode_utf8_decode_utf8(message@);
            }
            Ok(message)
        },
        None => Err("pipe frame is not UTF-8".to_owned()),
    }
}

/// What reading one frame off the front of `bytes` gives.
pub open spec fn first_frame(bytes: Seq<u8>) -> Result<Seq<char>, Seq<char>> {
    if bytes.len() < 4 {
        Err(cut_short())
    } else if length_of(bytes) > MAX_FRAME_BYTES {
        Err(frame_too_long(length_of(bytes)))
    } else if bytes.len() < 4 + length_of(bytes) {
        Err(cut_short())
    } else {
        let payload = bytes.subrange(4, 4 + length_of(bytes) as int);
        if utf8::valid_utf8(payload) {
            Ok(utf8::decode_utf8(payload))
        } else {
            Err(not_utf8())
        }
    }
}

/// Reads one frame off the front of `bytes`.
pub fn read_frame(bytes: &[u8]) -> (r: Result<String, String>)
    ensures
        text::answer(r) == first_frame(bytes@),
{
    if bytes.len() < 4 {
        return Err("pipe read failed: failed to fill whole buffer".to_owned());
    }
    match frame_length(bytes) {
        Err(e) => Err(e),
        Ok(n) => {
            if bytes.len() - 4 < n as usize {
                Err("pipe read failed: failed to fill whole buffer".to_owned())
            } else {
                frame_text(slice_to_vec(slice_subrange(bytes, 4, 4 + n as usize)))
            }
        },
    }
}

/// What taking every complete frame off the front of a buffer gives: the
/// messages so far, what stays in the buffer, and what went wrong, if
/// anything did.
#[verifier::ext_equal]
pub struct Extraction {
    pub messages: Seq<Seq<char>>,
    pub rest: Seq<u8>,
    pub error: Option<Seq<char>>,
}

/// Takes complete frames off the front of `bytes` until none is left or one
/// cannot be read; the one that cannot be read stays.
pub open spec fn extraction(bytes: Seq<u8>) -> Extraction
    decreases bytes.len(),
{
    if bytes.len() < 4 {
        Extraction { messages: seq![], rest: bytes, error: None }
    } else if length_of(bytes) <= MAX_FRAME_BYTES && bytes.len() < 4 + length_of(bytes) {
        Extraction { messages: seq![], rest: bytes, error: None }
    } else {
        match first_frame(bytes) {
            Ok(message) => {
                let after = extraction(bytes.skip(4 + length_of(bytes) as int));
                Extraction {
                    messages: seq![message] + after.messages,
                    rest: after.rest,
                    error: after.error,
                }
            },
            Err(e) => Extraction { messages: seq![], rest: bytes, error: Some(e) },
        }
    }
}

/// Takes every complete frame off the front of `buffer`; a partial frame stays
/// for the next time. A frame that cannot be read stays too, and is the error
/// returned: the frames before it are gone from the buffer.
pub fn extract_frames(buffer: &mut Vec<u8>) -> (r: Result<Vec<String>, String>)
    ensures
        final(buffer)@ == extraction(old(buffer)@).rest,
        match r {
            Ok(messages) => {
                &&& extraction(old(buffer)@).error is None
                &&& text::texts(messages@) == extraction(old(buffer)@).messages
            },
            Err(e) => extraction(old(buffer)@).error == Some(e@),
        },
{
    let mut messages: Vec<String> = Vec::new();
    assert(text::texts(messages@) + extraction(buffer@).messages == extraction(buffer@).messages);
    loop
        invariant
            text::texts(messages@) + extraction(buffer@).messages == extraction(
                old(buffer)@,
            ).messages,
            extraction(buffer@).rest == extraction(old(buffer)@).rest,
            extraction(buffer@).error == extraction(old(buffer)@).error,
        decreases buffer@.len(),
    {
        if buffer.len() < 4 {
            assert(text::texts(messages@) + seq![] == text::texts(messages@));
            return Ok(messages);
        }
        let n = match frame_length(buffer) {
            Ok(n) => n,
            Err(e) => {
                return Err(e);
            },
        };
        if buffer.len() - 4 < n as usize {
            assert(text::texts(messages@) + seq![] == text::texts(messages@));
            return Ok(messages);
        }
        let payload = slice_to_vec(slice_subrange(buffer, 4, 4 + n as usize));
        let message = match frame_text(payload) {
            Ok(message) => message,
            Err(e) => {
                return Err(e);
            },
        };
        let ghost before = buffer@;
        let ghost so_far = messages@;
        let rest = slice_to_vec(slice_subrange(buffer, 4 + n as usize, buffer.len()));
        assert(rest@ == before.skip(4 + n as int));
        *buffer = rest;
        messages.push(message);
        proof {
            assert(text::texts(messages@) == text::texts(so_far).push(message@));
            assert(extraction(before).messages == seq![message@] + extraction(buffer@).messages);
            assert(text::texts(messages@) + extraction(buffer@).messages == text::texts(so_far)
                + extraction(before).messages);
        }
    }
}

/// The frames of a run of messages, one after the other.
pub open spec fn frames(messages: Seq<Seq<char>>) -> Seq<u8>
    decreases messages.len(),
{
    if messages.len() == 0 {
        seq![]
    } else {
        frame(messages.first()) + frames(messages.drop_first())
    }
}

/// Whether bytes are the beginning of a frame that may still be completed.
pub open spec fn partial(bytes: Seq<u8>) -> bool {
    bytes.len() < 4 || (length_of(bytes) <= MAX_FRAME_BYTES && bytes.len() < 4 + length_of(bytes))
}

/// Reading gives back what writing wrote, whatever follows it.
pub proof fn frame_reads_back(message: Seq<char>, after: Seq<u8>)
    requires
        fits(message),
    ensures
        first_frame(frame(message) + after) == Ok::<Seq<char>, Seq<char>>(message),
        !partial(frame(message) + after),
        length_of(frame(message) + after) + 4 == frame(message).len(),
{
    let payload = utf8::encode_utf8(message);
    let bytes = frame(message) + after;
    length_reads_back(payload.len());
    assert(length_of(bytes) == length_of(length_bytes(payload.len())));
    assert(bytes.subrange(4, 4 + payload.len() as int) == payload);
    utf8::encode_utf8_valid_utf8(message);
    utf8::encode_utf8_decode_utf8(message);
}

/// A frame of which something is still missing is left alone until the rest
/// arrives.
pub proof fn unfinished_frame_waits(message: Seq<char>, arrived: int)
    requires
        fits(message),
        0 <= arrived < frame(message).len(),
    ensures
        extraction(frame(message).take(arrived)) == (Extraction {
            messages: seq![],
            rest: frame(message).take(arrived),
            error: None,
        }),
{
    let payload = utf8::encode_utf8(message);
    length_reads_back(payload.len());
    let bytes = frame(message).take(arrived);
    if arrived >= 4 {
        assert(length_of(bytes) == length_of(length_bytes(payload.len())));
    }
}

/// Messages written one after the other come out whole and in that order,
/// and a partial frame behind them stays.
pub proof fn frames_come_out_in_order(messages: Seq<Seq<char>>, tail: Seq<u8>)
    requires
        forall|i: int| 0 <= i < messages.len() ==> fits(#[trigger] messages[i]),
        partial(tail),
    ensures
        extraction(frames(messages) + tail) == (Extraction { messages, rest: tail, error: None }),
    decreases messages.len(),
{
    if messages.len() == 0 {
        assert(frames(messages) + tail == tail);
        assert(messages == Seq::<Seq<char>>::empty());
    } else {
        let later = messages.drop_first();
        let after = frames(later) + tail;
        let bytes = frames(messages) + tail;
        assert(bytes == frame(messages[0]) + after);
        assert forall|i: int| 0 <= i < later.len() implies fits(#[trigger] later[i]) by {
            assert(later[i] == messages[i + 1]);
        }
        frame_reads_back(messages[0], after);
        frames_come_out_in_order(later, tail);
        assert(bytes.skip(frame(messages[0]).len() as int) == after);
        assert(seq![messages[0]] + later == messages);
    }
}

/// The frames of one message more.
pub proof fn one_frame_more(messages: Seq<Seq<char>>, message: Seq<char>)
    ensures
        frames(messages.push(message)) == frames(messages) + frame(message),
    decreases messages.len(),
{
    let all = messages.push(message);
    if messages.len() == 0 {
        assert(all.drop_first() == Seq::<Seq<char>>::empty());
        assert(frames(all.drop_first()) == Seq::<u8>::empty());
        assert(frame(message) + Seq::<u8>::empty() == frame(message));
        assert(frames(messages) + frame(message) == frame(message));
    } else {
        let later = messages.drop_first();
        one_frame_more(later, message);
        assert(all.drop_first() == later.push(message));
        assert(frame(messages[0]) + (frames(later) + frame(message)) == (frame(messages[0])
            + frames(later)) + frame(message));
    }
}

/// How the bytes of a stream are divided among arrivals does not matter:
/// taking frames out between arrivals gives the same messages in the same
/// order as taking them out at the end.
pub proof fn arrivals_may_be_split_anywhere(first: Seq<u8>, second: Seq<u8>)
    requires
        extraction(first).error is None,
    ensures
        ({
            let later = extraction(extraction(first).rest + second);
            extraction(first + second) == (Extraction {
                messages: extraction(first).messages + later.messages,
                rest: later.rest,
                error: later.error,
            })
        }),
    decreases first.len(),
{
    let later = extraction(extraction(first).rest + second);
    if partial(first) {
        assert(extraction(first).messages + later.messages == later.messages);
    } else {
        let n = 4 + length_of(first) as int;
        let whole = first + second;
        assert(length_of(whole) == length_of(first));
        assert(whole.subrange(4, n) == first.subrange(4, n));
        assert(whole.skip(n) == first.skip(n) + second);
        arrivals_may_be_split_anywhere(first.skip(n), second);
        let message = first_frame(first)->Ok_0;
        assert(seq![message] + (extraction(first.skip(n)).messages + later.messages) == (
        seq![message] + extraction(first.skip(n)).messages) + later.messages);
    }
}

// ---------------------------------------------------------------------------
// Names
// ---------------------------------------------------------------------------

/// The pair of pipes that serves one connection.
pub struct PipeNames {
    pub client_to_server: String,
    pub server_to_client: String,
}

impl Clone for PipeNames {
    fn clone(&self) -> (r: PipeNames)
        ensures
            r == *self,
    {
        PipeNames {
            client_to_server: self.client_to_server.clone(),
            server_to_client: self.server_to_client.clone(),
        }
    }
}

/// The name of one of a connection's pipes.
pub open spec fn pipe_name(
    platform: Platform,
    stadhouder_dir: Seq<char>,
    direction: Seq<char>,
    connection_id: Seq<char>,
) -> Seq<char> {
    let name = direction + layout::underscored(connection_id);
    match platform {
        Platform::Unix => layout::inside(
            platform,
            layout::inside(platform, stadhouder_dir, "pipes"@),
            name,
        ),
        Platform::Windows => "\\\\.\\pipe\\stadhouder\\"@ + name,
    }
}

/// The name of a connection's pipe in one direction.
fn named(platform: Platform, stadhouder_dir: &str, direction: &str, connection_id: &str) -> (r:
    String)
    ensures
        r@ == pipe_name(platform, stadhouder_dir@, direction@, connection_id@),
{
    let name = cat(direction, underscore_uuid(connection_id).as_str());
    match platform {
        Platform::Unix => {
            let pipes = join_path(platform, stadhouder_dir, "pipes");
            join_path(platform, pipes.as_str(), name.as_str())
        },
        Platform::Windows => cat("\\\\.\\pipe\\stadhouder\\", name.as_str()),
    }
}

/// The names of a connection's pipes. The folder matters only where pipes are
/// files.
pub fn pipe_names_for(platform: Platform, stadhouder_dir: &str, connection_id: &str) -> (r:
    PipeNames)
    ensures
        r.client_to_server@ == pipe_name(platform, stadhouder_dir@, "c2s_"@, connection_id@),
        r.server_to_client@ == pipe_name(platform, stadhouder_dir@, "s2c_"@, connection_id@),
{
    PipeNames {
        client_to_server: named(platform, stadhouder_dir, "c2s_", connection_id),
        server_to_client: named(platform, stadhouder_dir, "s2c_", connection_id),
    }
}

/// The two directions of one connection, and different connections whose ids
/// have no underscore, never share a pipe.
pub proof fn pipe_names_are_distinct(
    platform: Platform,
    stadhouder_dir: Seq<char>,
    a: Seq<char>,
    b: Seq<char>,
)
    requires
        !a.contains('_'),
        !b.contains('_'),
    ensures
        pipe_name(platform, stadhouder_dir, "c2s_"@, a) != pipe_name(
            platform,
            stadhouder_dir,
            "s2c_"@,
            b,
        ),
        a != b ==> pipe_name(platform, stadhouder_dir, "c2s_"@, a) != pipe_name(
            platform,
            stadhouder_dir,
            "c2s_"@,
            b,
        ),
        a != b ==> pipe_name(platform, stadhouder_dir, "s2c_"@, a) != pipe_name(
            platform,
            stadhouder_dir,
            "s2c_"@,
            b,
        ),
{
    reveal_strlit("c2s_");
    reveal_strlit("s2c_");
    let folder = layout::inside(platform, stadhouder_dir, "pipes"@);
    let prefix = match platform {
        Platform::Unix => layout::inside(platform, folder, seq![]),
        Platform::Windows => "\\\\.\\pipe\\stadhouder\\"@,
    };
    let in_a = "c2s_"@ + layout::underscored(a);
    let out_a = "s2c_"@ + layout::underscored(a);
    let in_b = "c2s_"@ + layout::underscored(b);
    let out_b = "s2c_"@ + layout::underscored(b);
    assert((prefix + in_a)[prefix.len() as int] == 'c');
    assert((prefix + out_b)[prefix.len() as int] == 's');
    let n = prefix.len() as int;
    if prefix + in_a == prefix + in_b || prefix + out_a == prefix + out_b {
        assert((prefix + in_a).skip(n + 4) == layout::underscored(a));
        assert((prefix + in_b).skip(n + 4) == layout::underscored(b));
        assert((prefix + out_a).skip(n + 4) == layout::underscored(a));
        assert((prefix + out_b).skip(n + 4) == layout::underscored(b));
        layout::dashes_come_back(a);
        layout::dashes_come_back(b);
    }
}

// ---------------------------------------------------------------------------
// The service's end
// ---------------------------------------------------------------------------

/// Something to be done to a pipe's file.
pub enum PipeStep {
    /// Remove the file, if it is there.
    Remove(String),
    /// Make a FIFO, and the folder it is in.
    Make(String),
}

/// What has to be done to make a connection's pipes.
pub open spec fn creation(platform: Platform, names: PipeNames) -> Seq<PipeStep> {
    match platform {
        Platform::Windows => seq![],
        Platform::Unix => seq![
            PipeStep::Remove(names.client_to_server),
            PipeStep::Make(names.client_to_server),
            PipeStep::Remove(names.server_to_client),
            PipeStep::Make(names.server_to_client),
        ],
    }
}

/// What has to be done to be rid of a connection's pipes.
pub open spec fn removal(platform: Platform, names: PipeNames) -> Seq<PipeStep> {
    match platform {
        Platform::Windows => seq![],
        Platform::Unix => seq![
            PipeStep::Remove(names.client_to_server),
            PipeStep::Remove(names.server_to_client),
        ],
    }
}

/// What has to be done before a connection's pipes can be served: where pipes
/// are files, each is removed, in case one was left over, and made anew.
pub fn create_serving_pipes(platform: Platform, names: &PipeNames) -> (steps: Vec<PipeStep>)
    ensures
        steps@ == creation(platform, *names),
{
    let mut steps: Vec<PipeStep> = Vec::new();
    match platform {
        Platform::Windows => {},
        Platform::Unix => {
            steps.push(PipeStep::Remove(names.client_to_server.clone()));
            steps.push(PipeStep::Make(names.client_to_server.clone()));
            steps.push(PipeStep::Remove(names.server_to_client.clone()));
            steps.push(PipeStep::Make(names.server_to_client.clone()));
        },
    }
    steps
}

/// What has to be done once a connection's pipes are served no longer: where
/// pipes are files, both are removed.
pub fn remove_serving_pipes(platform: Platform, names: &PipeNames) -> (steps: Vec<PipeStep>)
    ensures
        steps@ == removal(platform, *names),
{
    let mut steps: Vec<PipeStep> = Vec::new();
    match platform {
        Platform::Windows => {},
        Platform::Unix => {
            steps.push(PipeStep::Remove(names.client_to_server.clone()));
            steps.push(PipeStep::Remove(names.server_to_client.clone()));
        },
    }
    steps
}

/// The files there are once steps have been carried out, one after the other,
/// where none of them fails.
pub open spec fn carried_out(files: Set<Seq<char>>, steps: Seq<PipeStep>) -> Set<Seq<char>>
    decreases steps.len(),
{
    if steps.len() == 0 {
        files
    } else {
        let before = carried_out(files, steps.drop_last());
        match steps.last() {
            PipeStep::Remove(path) => before.remove(path@),
            PipeStep::Make(path) => before.insert(path@),
        }
    }
}

/// Once a connection's pipes have been made, their files are there; once they
/// have been removed, no file of theirs is left, whatever there was before. No
/// other file is touched, and to remove them again changes nothing. Where pipes
/// are no files, nothing is done to files at all.
pub proof fn removed_pipes_leave_no_file(
    platform: Platform,
    names: PipeNames,
    files: Set<Seq<char>>,
)
    ensures
        ({
            let inbound = names.client_to_server@;
            let outbound = names.server_to_client@;
            let made = carried_out(files, creation(platform, names));
            let gone = carried_out(files, removal(platform, names));
            &&& platform is Unix ==> {
                &&& made == files.insert(inbound).insert(outbound)
                &&& gone == files.remove(inbound).remove(outbound)
                &&& carried_out(made, removal(platform, names)) == gone
            }
            &&& platform is Windows ==> made == files && gone == files
            &&& carried_out(gone, removal(platform, names)) == gone
        }),
{
    let made = carried_out(files, creation(platform, names));
    let gone = carried_out(files, removal(platform, names));
    removed_are_gone(platform, names, files);
    removed_are_gone(platform, names, made);
    removed_are_gone(platform, names, gone);
    if platform is Unix {
        let inbound = names.client_to_server@;
        let outbound = names.server_to_client@;
        let steps = creation(platform, names);
        let third = steps.drop_last();
        let second = third.drop_last();
        let first = second.drop_last();
        assert(carried_out(files, first.drop_last()) == files);
        assert(carried_out(files, first) == files.remove(inbound));
        assert(carried_out(files, second) == files.insert(inbound));
        assert(carried_out(files, third) == files.insert(inbound).remove(outbound));
        assert(made == files.insert(inbound).insert(outbound));
        assert(made.remove(inbound).remove(outbound) == gone);
    }
}

/// What removing a connection's pipes does.
proof fn removed_are_gone(platform: Platform, names: PipeNames, files: Set<Seq<char>>)
    ensures
        carried_out(files, removal(platform, names)) == match platform {
            Platform::Unix => files.remove(names.client_to_server@).remove(
                names.server_to_client@,
            ),
            Platform::Windows => files,
        },
{
    if platform is Unix {
        let steps = removal(platform, names);
        let first = steps.drop_last();
        assert(carried_out(files, first.drop_last()) == files);
        assert(carried_out(files, first) == files.remove(names.client_to_server@));
    }
}

/// The service's end of a client-to-server pipe: the bytes that have arrived
/// and were not yet a complete frame.
pub struct InboundServerPipe {
    buffer: Vec<u8>,
}

impl View for InboundServerPipe {
    type V = Seq<u8>;

    closed spec fn view(&self) -> Seq<u8> {
        self.buffer@
    }
}

impl InboundServerPipe {
    /// A pipe on which nothing has arrived.
    pub fn create() -> (r: InboundServerPipe)
        ensures
            r@ == Seq::<u8>::empty(),
    {
        InboundServerPipe { buffer: Vec::new() }
    }

    /// Takes in bytes that have arrived.
    pub fn absorb(&mut self, chunk: &[u8])
        ensures
            final(self)@ == old(self)@ + chunk@,
    {
        self.buffer.extend_from_slice(chunk);
        assert(self.buffer@ == old(self).buffer@ + chunk@);
    }

    /// Every complete frame that has arrived since the last call; a partial
    /// one stays. `sender_gone` says that the client has closed its end: what
    /// is left over can then never be completed, and is dropped.
    pub fn drain_frames(&mut self, sender_gone: bool) -> (r: Result<Vec<String>, String>)
        ensures
            final(self)@ == if sender_gone {
                Seq::<u8>::empty()
            } else {
                extraction(old(self)@).rest
            },
            match r {
                Ok(messages) => {
                    &&& extraction(old(self)@).error is None
                    &&& text::texts(messages@) == extraction(old(self)@).messages
                },
                Err(e) => extraction(old(self)@).error == Some(e@),
            },
    {
        let r = extract_frames(&mut self.buffer);
        if sender_gone {
            self.buffer.clear();
        }
        r
    }
}

/// How opening a FIFO to write went.
pub enum FifoOpening {
    /// A reader is there, and the FIFO is open.
    Opened,
    /// Nobody reads the FIFO.
    NoReader,
    /// The FIFO is not there.
    NotFound(String),
    /// It could not be opened for another reason.
    Failed(String),
}

impl FifoOpening {
    /// The system's words where the FIFO is not there or cannot be opened.
    pub open spec fn error(self) -> Option<Seq<char>> {
        match self {
            FifoOpening::NotFound(e) => Some(e@),
            FifoOpening::Failed(e) => Some(e@),
            _ => None,
        }
    }
}

/// The service's end of a server-to-client pipe.
pub struct OutboundServerPipe {
    path: String,
}

impl View for OutboundServerPipe {
    type V = Seq<char>;

    closed spec fn view(&self) -> Seq<char> {
        self.path@
    }
}

impl OutboundServerPipe {
    /// The pipe of that name.
    pub fn create(pipe_name: &str) -> (r: OutboundServerPipe)
        ensures
            r@ == pipe_name@,
    {
        OutboundServerPipe { path: pipe_name.to_owned() }
    }

    /// The pipe's name.
    pub fn name(&self) -> (r: &str)
        ensures
            r@ == self@,
    {
        self.path.as_str()
    }

    /// Whether a waiting poll is to be answered: only then is the answer made.
    pub fn try_serve_poll(&self, opening: FifoOpening) -> (r: Result<bool, String>)
        ensures
            r == Ok::<bool, String>(true) <==> opening is Opened,
            r == Ok::<bool, String>(false) <==> opening is NoReader,
            opening.error() matches Some(e) ==> r is Err && r->Err_0@ == "failed to open "@ + self@
                + ": "@ + e,
    {
        match opening {
            FifoOpening::Opened => Ok(true),
            FifoOpening::NoReader => Ok(false),
            FifoOpening::NotFound(e) => Err(open_failure(self.path.as_str(), e.as_str())),
            FifoOpening::Failed(e) => Err(open_failure(self.path.as_str(), e.as_str())),
        }
    }
}

/// What is said of a pipe that could not be opened.
fn open_failure(pipe_name: &str, e: &str) -> (r: String)
    ensures
        r@ == "failed to open "@ + pipe_name@ + ": "@ + e@,
{
    cat3(cat("failed to open ", pipe_name).as_str(), ": ", e)
}

/// The Windows error codes that the pipe calls are told apart by.
pub const ERROR_BROKEN_PIPE: u32 = 109;

pub const ERROR_PIPE_BUSY: u32 = 231;

pub const ERROR_NO_DATA: u32 = 232;

pub const ERROR_PIPE_CONNECTED: u32 = 535;

pub const ERROR_PIPE_LISTENING: u32 = 536;

/// Whether a client is attached to a Windows pipe, from what `ConnectNamedPipe`
/// answered. A client that has come and gone since the last look still counts:
/// what it wrote is there to be read.
pub fn client_attached(ok: bool, error: u32) -> (r: Result<bool, String>)
    ensures
        r == Ok::<bool, String>(true) <==> ok || error == ERROR_PIPE_CONNECTED || error
            == ERROR_NO_DATA,
        r == Ok::<bool, String>(false) <==> !ok && error == ERROR_PIPE_LISTENING,
        r matches Err(e) ==> e@ == "ConnectNamedPipe failed (error "@ + number::decimal(
            error as nat,
        ) + ")"@,
{
    if ok || error == ERROR_PIPE_CONNECTED || error == ERROR_NO_DATA {
        Ok(true)
    } else if error == ERROR_PIPE_LISTENING {
        Ok(false)
    } else {
        Err(cat3("ConnectNamedPipe failed (error ", u64_text(error as u64).as_str(), ")"))
    }
}

/// How many bytes wait in a Windows pipe, from what `PeekNamedPipe` answered;
/// nothing once the client has closed its end and all it wrote was read.
pub fn bytes_waiting(ok: bool, waiting: u32, error: u32) -> (r: Result<Option<u32>, String>)
    ensures
        ok ==> r == Ok::<Option<u32>, String>(Some(waiting)),
        !ok && (error == ERROR_BROKEN_PIPE || error == ERROR_NO_DATA) ==> r == Ok::<
            Option<u32>,
            String,
        >(None),
        !ok && error != ERROR_BROKEN_PIPE && error != ERROR_NO_DATA ==> r is Err && r->Err_0@
            == "PeekNamedPipe failed (error "@ + number::decimal(error as nat) + ")"@,
{
    if ok {
        Ok(Some(waiting))
    } else if error == ERROR_BROKEN_PIPE || error == ERROR_NO_DATA {
        Ok(None)
    } else {
        Err(cat3("PeekNamedPipe failed (error ", u64_text(error as u64).as_str(), ")"))
    }
}

/// What to do about a poll on a Windows pipe.
#[derive(Clone, Copy, PartialEq, Eq, Structural)]
pub enum PollStep {
    /// Nobody is there.
    Leave,
    /// Whoever was there has gone: free the pipe, and answer nobody.
    Release,
    /// Somebody waits: answer.
    Serve,
}

/// What to do about a poll, given whether a client is attached and, if one is,
/// what waits in the pipe. A client that has gone is found out before anything
/// is taken out of the connection's outbox for it.
pub fn poll_step(attached: bool, waiting: Option<u32>) -> (r: PollStep)
    ensures
        r is Leave <==> !attached,
        r is Release <==> attached && waiting is None,
        r is Serve <==> attached && waiting is Some,
{
    if !attached {
        PollStep::Leave
    } else {
        match waiting {
            None => PollStep::Release,
            Some(_) => PollStep::Serve,
        }
    }
}

/// How often the service looks whether a poll client has read its answer.
pub const READ_LOOKS: u32 = 400;

/// Whether to look again if a poll client has read its answer: as long as it
/// holds its end open, a bounded number of times.
pub fn look_again(looks: u32, waiting: &Result<Option<u32>, String>) -> (r: bool)
    ensures
        r <==> looks < READ_LOOKS && *waiting is Ok && waiting->Ok_0 is Some,
{
    looks < READ_LOOKS && match waiting {
        Ok(Some(_)) => true,
        _ => false,
    }
}

// ---------------------------------------------------------------------------
// The client's end
// ---------------------------------------------------------------------------

/// How long a client pauses before it tries a pipe again, in engine
/// milliseconds.
pub const RETRY_MS: u64 = 50;

/// How long a client waits for a pipe to appear, in engine milliseconds.
pub const NOT_FOUND_MS: u64 = 6_000;

/// How long a client waits for a busy pipe, in engine milliseconds.
pub const BUSY_MS: u64 = 10_000;

/// How opening a Windows pipe went.
pub enum PipeOpening {
    /// It is open.
    Opened,
    /// Another client is using it.
    Busy,
    /// It is not there.
    NotFound,
    /// It could not be opened for another reason.
    Failed(String),
}

/// What a client does next about a pipe.
pub enum OpenStep {
    /// Use the pipe.
    Proceed,
    /// Pause, and try again.
    Retry,
    /// Give up.
    Fail(String),
}

/// What is said where a pipe never appears.
pub open spec fn no_pipe() -> Seq<char> {
    "stadhouder service is not running (pipe not found)"@
}

/// What is said where nobody comes to read a FIFO.
pub open spec fn no_reader() -> Seq<char> {
    "stadhouder service is not running (no reader on the pipe)"@
}

/// What is said where a pipe stays busy.
pub open spec fn stays_busy() -> Seq<char> {
    "stadhouder service is busy (pipe timeout)"@
}

/// What a client does next about a Windows pipe. A busy pipe and a missing one
/// each have a deadline of their own.
pub fn pipe_open_step(opening: PipeOpening, busy_over: bool, not_found_over: bool) -> (r: OpenStep)
    ensures
        r is Proceed <==> opening is Opened,
        r is Retry <==> (opening is Busy && !busy_over) || (opening is NotFound && !not_found_over),
        opening is Busy && busy_over ==> r is Fail && r->Fail_0@ == stays_busy(),
        opening is NotFound && not_found_over ==> r is Fail && r->Fail_0@ == no_pipe(),
        opening matches PipeOpening::Failed(e) ==> r is Fail && r->Fail_0@
            == "failed to open service pipe: "@ + e@,
{
    match opening {
        PipeOpening::Opened => OpenStep::Proceed,
        PipeOpening::Busy => if busy_over {
            OpenStep::Fail("stadhouder service is busy (pipe timeout)".to_owned())
        } else {
            OpenStep::Retry
        },
        PipeOpening::NotFound => if not_found_over {
            OpenStep::Fail("stadhouder service is not running (pipe not found)".to_owned())
        } else {
            OpenStep::Retry
        },
        PipeOpening::Failed(e) => OpenStep::Fail(cat("failed to open service pipe: ", e.as_str())),
    }
}

/// What a client that sends does next about a FIFO. One that is not there yet
/// and one that nobody reads yet are waited for alike.
pub fn fifo_send_step(pipe_name: &str, opening: FifoOpening, not_found_over: bool) -> (r: OpenStep)
    ensures
        r is Proceed <==> opening is Opened,
        r is Retry <==> (opening is NoReader || opening is NotFound) && !not_found_over,
        (opening is NoReader || opening is NotFound) && not_found_over ==> r is Fail && r->Fail_0@
            == no_reader(),
        opening matches FifoOpening::Failed(e) ==> r is Fail && r->Fail_0@ == "failed to open "@
            + pipe_name@ + ": "@ + e@,
{
    match opening {
        FifoOpening::Opened => OpenStep::Proceed,
        FifoOpening::NoReader | FifoOpening::NotFound(_) => if not_found_over {
            OpenStep::Fail("stadhouder service is not running (no reader on the pipe)".to_owned())
        } else {
            OpenStep::Retry
        },
        FifoOpening::Failed(e) => OpenStep::Fail(open_failure(pipe_name, e.as_str())),
    }
}

/// What a client that polls does next about a FIFO: wait until it is there.
pub fn fifo_receive_step(there: bool, not_found_over: bool) -> (r: OpenStep)
    ensures
        r is Proceed <==> there,
        r is Retry <==> !there && !not_found_over,
        !there && not_found_over ==> r is Fail && r->Fail_0@ == no_pipe(),
{
    if there {
        OpenStep::Proceed
    } else if not_found_over {
        OpenStep::Fail("stadhouder service is not running (pipe not found)".to_owned())
    } else {
        OpenStep::Retry
    }
}

/// A frame is the length of the payload in four bytes, least significant first, and
/// the payload: the message in UTF-8, and nothing else. A message fits where that is
/// at most 16 MiB.
pub proof fn a_frame_is_length_and_payload(message: Seq<char>)
    ensures
        frame(message).skip(4) == utf8::encode_utf8(message),
        frame(message).len() == 4 + utf8::encode_utf8(message).len(),
        fits(message) <==> utf8::encode_utf8(message).len() <= 16 * 1024 * 1024,
        fits(message) ==> frame(message)[0] + 256 * frame(message)[1] + 65536 * frame(message)[2]
            + 16777216 * frame(message)[3] == utf8::encode_utf8(message).len(),
{
    let payload = utf8::encode_utf8(message);
    assert(frame(message).skip(4) == payload);
    if fits(message) {
        length_reads_back(payload.len());
    }
}

/// A frame cannot be read exactly where it announces more than 16 MiB, where the
/// bytes end before it does, or where its payload is not UTF-8; and each of these is
/// called by its name.
pub proof fn frames_are_refused_for_a_reason(bytes: Seq<u8>)
    requires
        bytes.len() >= 4,
    ensures
        ({
            let n = bytes[0] + 256 * bytes[1] + 65536 * bytes[2] + 16777216 * bytes[3];
            &&& n > 16 * 1024 * 1024 ==> first_frame(bytes) == Err::<Seq<char>, Seq<char>>(
                "frame of "@ + number::decimal(n as nat) + " bytes exceeds the frame limit"@,
            )
            &&& n <= 16 * 1024 * 1024 && bytes.len() < 4 + n ==> first_frame(bytes) == Err::<
                Seq<char>,
                Seq<char>,
            >("pipe read failed: failed to fill whole buffer"@)
            &&& n <= 16 * 1024 * 1024 && bytes.len() >= 4 + n && !utf8::valid_utf8(
                bytes.subrange(4, 4 + n),
            ) ==> first_frame(bytes) == Err::<Seq<char>, Seq<char>>("pipe frame is not UTF-8"@)
            &&& n <= 16 * 1024 * 1024 && bytes.len() >= 4 + n && utf8::valid_utf8(
                bytes.subrange(4, 4 + n),
            ) ==> first_frame(bytes) == Ok::<Seq<char>, Seq<char>>(
                utf8::decode_utf8(bytes.subrange(4, 4 + n)),
            )
        }),
{
}

/// Frames before one that cannot be read come out all the same; that one stays, with
/// everything behind it, and is the error.
pub proof fn a_bad_frame_spoils_none_before_it(
    messages: Seq<Seq<char>>,
    tail: Seq<u8>,
    e: Seq<char>,
)
    requires
        forall|i: int| 0 <= i < messages.len() ==> fits(#[trigger] messages[i]),
        !partial(tail),
        first_frame(tail) == Err::<Seq<char>, Seq<char>>(e),
    ensures
        extraction(frames(messages) + tail) == (Extraction {
            messages,
            rest: tail,
            error: Some(e),
        }),
    decreases messages.len(),
{
    if messages.len() == 0 {
        assert(frames(messages) + tail == tail);
        assert(messages == Seq::<Seq<char>>::empty());
    } else {
        let later = messages.drop_first();
        let after = frames(later) + tail;
        let bytes = frames(messages) + tail;
        assert(bytes == frame(messages[0]) + after);
        assert forall|i: int| 0 <= i < later.len() implies fits(#[trigger] later[i]) by {
            assert(later[i] == messages[i + 1]);
        }
        frame_reads_back(messages[0], after);
        a_bad_frame_spoils_none_before_it(later, tail, e);
        assert(bytes.skip(frame(messages[0]).len() as int) == after);
        assert(seq![messages[0]] + later == messages);
    }
}

/// A pipe is called after its direction and its connection: a file in the folder
/// `pipes`, or a name in the pipes' own namespace.
pub proof fn pipes_are_called_after_their_connection(
    dir: Seq<char>,
    direction: Seq<char>,
    connection_id: Seq<char>,
)
    ensures
        pipe_name(Platform::Unix, dir, direction, connection_id) == layout::inside(
            Platform::Unix,
            layout::inside(Platform::Unix, dir, "pipes"@),
            direction + text::replaced(connection_id, '-', '_'),
        ),
        pipe_name(Platform::Windows, dir, direction, connection_id)
            == "\\\\.\\pipe\\stadhouder\\"@ + direction + text::replaced(connection_id, '-', '_'),
{
    let prefix = "\\\\.\\pipe\\stadhouder\\"@;
    let id = text::replaced(connection_id, '-', '_');
    assert(prefix + (direction + id) == prefix + direction + id);
}

/// What is said where a message is too long, where nobody serves a pipe, where nobody
/// reads it, and where it stays busy.
pub proof fn failures_have_their_words(len: nat)
    ensures
        message_too_long(len) == "message of "@ + number::decimal(len)
            + " bytes exceeds the frame limit"@,
        no_pipe() == "stadhouder service is not running (pipe not found)"@,
        no_reader() == "stadhouder service is not running (no reader on the pipe)"@,
        stays_busy() == "stadhouder service is busy (pipe timeout)"@,
{
}

/// A pipe that cannot be opened says why; one that is there, or busy, says nothing.
pub proof fn an_opening_fails_with_its_error(opening: FifoOpening)
    ensures
        match opening {
            FifoOpening::NotFound(e) => opening.error() == Some(e@),
            FifoOpening::Failed(e) => opening.error() == Some(e@),
            _ => opening.error() is None,
        },
{
}

/// How patient both ends are: a client tries again every 50 milliseconds, for six
/// seconds where there is no pipe and for ten where it is busy, and the service looks
/// 400 times whether an answer has been read. A frame holds 16 MiB at most.
pub proof fn patience_has_its_limits()
    ensures
        RETRY_MS == 50,
        NOT_FOUND_MS == 6_000,
        BUSY_MS == 10_000,
        READ_LOOKS == 400,
        MAX_FRAME_BYTES == 16 * 1024 * 1024,
{
}

} // verus!
