//! The IPC protocol: JSON envelopes separated by the EOT byte, requests
//! answered with the requester echoed, and events pushed in between.
use vstd::prelude::*;
use vstd::utf8::encode_utf8;
use crate::panel::copy_string;
use rand::Rng;

verus! {

/// The byte that ends every frame.
pub const EOT: u8 = 4;

/// One message on the wire: a request, a response or an event. `data` is
/// the payload as JSON text.
pub struct SocketPacket {
    pub ty: String,
    pub requester: Option<String>,
    pub data: Option<String>,
}

/// The abstract content of a packet.
pub struct PacketView {
    pub ty: Seq<char>,
    pub requester: Option<Seq<char>>,
    pub data: Option<Seq<char>>,
}

/// The view of an optional string.
pub open spec fn opt_view(s: Option<String>) -> Option<Seq<char>> {
    match s {
        Some(x) => Some(x@),
        None => None,
    }
}

impl View for SocketPacket {
    type V = PacketView;

    open spec fn view(&self) -> PacketView {
        PacketView { ty: self.ty@, requester: opt_view(self.requester), data: opt_view(self.data) }
    }
}

/// A lowercase hexadecimal digit.
pub open spec fn hex_digit(d: u8) -> u8 {
    if d < 10 { (48 + d) as u8 } else { (87 + d) as u8 }
}

/// How one byte of UTF-8 text is written inside a JSON string.
pub open spec fn escape_byte(b: u8) -> Seq<u8> {
    if b == 34 {
        seq![92u8, 34u8]
    } else if b == 92 {
        seq![92u8, 92u8]
    } else if b < 32 {
        seq![92u8, 117u8, 48u8, 48u8, hex_digit(b / 16), hex_digit(b % 16)]
    } else {
        seq![b]
    }
}

/// UTF-8 text escaped for a JSON string. Bytes of multi-byte characters
/// are all 0x80 or above and pass unchanged.
pub open spec fn escape_bytes(b: Seq<u8>) -> Seq<u8>
    decreases b.len(),
{
    if b.len() == 0 {
        Seq::empty()
    } else {
        escape_bytes(b.drop_last()) + escape_byte(b.last())
    }
}

/// A JSON string holding the text.
pub open spec fn json_string(s: Seq<char>) -> Seq<u8> {
    seq![34u8] + escape_bytes(encode_utf8(s)) + seq![34u8]
}

/// The JSON object a packet is written as: `ty`, then `requester` and
/// `data` where present.
pub open spec fn packet_bytes(p: PacketView) -> Seq<u8> {
    encode_utf8("{\"ty\":"@) + json_string(p.ty)
        + match p.requester {
            Some(r) => encode_utf8(",\"requester\":"@) + json_string(r),
            None => Seq::empty(),
        }
        + match p.data {
            Some(d) => encode_utf8(",\"data\":"@) + encode_utf8(d),
            None => Seq::empty(),
        }
        + encode_utf8("}"@)
}

fn push_text(out: &mut Vec<u8>, s: &str)
    ensures
        final(out)@ == old(out)@ + encode_utf8(s@),
{
    let mut b = s.as_bytes_vec();
    out.append(&mut b);
}

pub(crate) fn push_escaped(out: &mut Vec<u8>, s: &str)
    ensures
        final(out)@ == old(out)@ + escape_bytes(encode_utf8(s@)),
{
    let b = s.as_bytes_vec();
    let ghost o0 = out@;
    let mut i: usize = 0;
    while i < b.len()
        invariant
            i <= b@.len(),
            b@ == encode_utf8(s@),
            out@ == o0 + escape_bytes(b@.subrange(0, i as int)),
        decreases b@.len() - i,
    {
        let c = b[i];
        let ghost o1 = out@;
        if c == 34 {
            out.push(92);
            out.push(34);
        } else if c == 92 {
            out.push(92);
            out.push(92);
        } else if c < 32 {
            out.push(92);
            out.push(117);
            out.push(48);
            out.push(48);
            let hi = c / 16;
            let lo = c % 16;
            out.push(if hi < 10 { 48 + hi } else { 87 + hi });
            out.push(if lo < 10 { 48 + lo } else { 87 + lo });
        } else {
            out.push(c);
        }
        assert(out@ =~= o1 + escape_byte(c));
        assert(b@.subrange(0, i + 1).drop_last() =~= b@.subrange(0, i as int));
        i += 1;
    }
    assert(b@.subrange(0, i as int) =~= b@);
}

/// Writes a packet as a JSON object.
pub fn encode_packet(p: &SocketPacket) -> (r: Vec<u8>)
    ensures
        r@ == packet_bytes(p@),
{
    let mut out: Vec<u8> = Vec::new();
    push_text(&mut out, "{\"ty\":");
    out.push(34);
    push_escaped(&mut out, p.ty.as_str());
    out.push(34);
    match &p.requester {
        Some(r) => {
            push_text(&mut out, ",\"requester\":");
            out.push(34);
            push_escaped(&mut out, r.as_str());
            out.push(34);
        },
        None => {},
    }
    match &p.data {
        Some(d) => {
            push_text(&mut out, ",\"data\":");
            push_text(&mut out, d.as_str());
        },
        None => {},
    }
    push_text(&mut out, "}");
    assert(out@ =~= packet_bytes(p@));
    out
}

/// A packet as a frame: its JSON object followed by EOT.
pub fn encode_frame(p: &SocketPacket) -> (r: Vec<u8>)
    ensures
        r@ == packet_bytes(p@).push(EOT),
{
    let mut r = encode_packet(p);
    r.push(EOT);
    r
}

/// Bytes received on a connection that do not yet form a whole frame.
pub struct FrameReader {
    pub buffer: Vec<u8>,
}

impl FrameReader {
    /// A reader with nothing received.
    pub fn new() -> (r: FrameReader)
        ensures
            r.buffer@.len() == 0,
    {
        FrameReader { buffer: Vec::new() }
    }

    /// Adds bytes read from the connection.
    pub fn push_bytes(&mut self, data: &Vec<u8>)
        ensures
            final(self).buffer@ == old(self).buffer@ + data@,
    {
        let ghost b0 = self.buffer@;
        let mut i: usize = 0;
        while i < data.len()
            invariant
                i <= data@.len(),
                self.buffer@ == b0 + data@.subrange(0, i as int),
            decreases data@.len() - i,
        {
            self.buffer.push(data[i]);
            i += 1;
            assert(self.buffer@ =~= b0 + data@.subrange(0, i as int));
        }
        assert(data@.subrange(0, i as int) =~= data@);
    }

    /// Takes the next whole frame, without its EOT, where one has arrived.
    pub fn next_frame(&mut self) -> (r: Option<Vec<u8>>)
        ensures
            match old(self).buffer@.index_of_first(EOT) {
                Some(k) => r is Some && r.unwrap()@ == old(self).buffer@.subrange(0, k)
                    && final(self).buffer@ == old(self).buffer@.subrange(k + 1, old(self).buffer@.len() as int),
                None => r is None && final(self).buffer@ == old(self).buffer@,
            },
    {
        let ghost b0 = self.buffer@;
        proof { b0.index_of_first_ensures(EOT); }
        let mut i: usize = 0;
        while i < self.buffer.len()
            invariant
                self.buffer@ == b0,
                b0 == old(self).buffer@,
                i <= b0.len(),
                forall|j: int| 0 <= j < i ==> b0[j] != EOT,
            decreases b0.len() - i,
        {
            if self.buffer[i] == EOT {
                proof {
                    b0.index_of_first_ensures(EOT);
                    let f = b0.index_of_first(EOT);
                    assert(b0[i as int] == EOT);
                    assert(b0.contains(EOT));
                    if f is Some && f.unwrap() < i {
                        assert(b0[f.unwrap()] == EOT);
                    }
                    assert(f == Some(i as int));
                }
                let mut frame = self.buffer.split_off(0);
                assert(frame@ =~= b0);
                let rest = frame.split_off(i + 1);
                assert(rest@ =~= b0.subrange(i + 1, b0.len() as int));
                frame.pop();
                assert(frame@ =~= b0.subrange(0, i as int));
                self.buffer = rest;
                assert(self.buffer@ =~= b0.subrange(i + 1, b0.len() as int));
                assert(old(self).buffer@ == b0);
                return Some(frame);
            }
            i += 1;
        }
        proof {
            b0.index_of_first_ensures(EOT);
            let f = b0.index_of_first(EOT);
            if f is Some {
                assert(b0[f.unwrap()] == EOT);
            }
        }
        None
    }
}

/// A copy of an optional string.
fn copy_opt(s: &Option<String>) -> (r: Option<String>)
    ensures
        opt_view(r) == opt_view(*s),
{
    match s {
        Some(x) => Some(copy_string(x)),
        None => None,
    }
}

/// The response to a request: same type, requester echoed, with a payload.
pub fn response_to(request: &SocketPacket, data: Option<String>) -> (r: SocketPacket)
    ensures
        r@ == (PacketView { ty: request.ty@, requester: opt_view(request.requester), data: opt_view(data) }),
{
    SocketPacket { ty: copy_string(&request.ty), requester: copy_opt(&request.requester), data }
}

/// The response to a `socket_api_version` request.
pub fn socket_api_version_response(request: &SocketPacket) -> (r: SocketPacket)
    ensures
        r@ == (PacketView {
            ty: request.ty@,
            requester: opt_view(request.requester),
            data: Some("{\"version\":\""@ + "0.2"@ + "\"}"@),
        }),
{
    let mut d = String::from_str("{\"version\":\"");
    let v = crate::versions::socket_api_version();
    d.append(v.as_str());
    d.append("\"}");
    response_to(request, Some(d))
}

/// An event as a packet: type `event`, no requester.
pub fn event_packet(event_json: String) -> (r: SocketPacket)
    ensures
        r@ == (PacketView { ty: "event"@, requester: None, data: Some(event_json@) }),
{
    SocketPacket { ty: "event".to_owned(), requester: None, data: Some(event_json) }
}

/// Something that happens on a connection, server side: a request arrives
/// and is answered with a payload, or an event is pushed.
pub enum ConnectionStep {
    Request { request: PacketView, data: Option<Seq<char>> },
    Event { event: Seq<char> },
}

/// The frame a step writes.
pub open spec fn step_frame(s: ConnectionStep) -> PacketView {
    match s {
        ConnectionStep::Request { request, data } => PacketView { ty: request.ty, requester: request.requester, data },
        ConnectionStep::Event { event } => PacketView { ty: "event"@, requester: None, data: Some(event) },
    }
}

/// The frames written for a run of steps, in order.
pub open spec fn frames_written(steps: Seq<ConnectionStep>) -> Seq<PacketView> {
    steps.map_values(|s: ConnectionStep| step_frame(s))
}

/// Holds of frames that carry requester `r`.
pub open spec fn carries(r: Seq<char>) -> spec_fn(PacketView) -> bool {
    |p: PacketView| p.requester == Some(r)
}

/// Holds of steps that are requests with requester `r`.
pub open spec fn requested_by(r: Seq<char>) -> spec_fn(ConnectionStep) -> bool {
    |s: ConnectionStep| s matches ConnectionStep::Request { request, .. } && request.requester == Some(r)
}

/// However requests and events interleave on a connection, the frames
/// written with requester `r` are exactly as many as the requests that
/// carried `r`, one answer each, in the same order.
pub proof fn lemma_one_response_per_request(steps: Seq<ConnectionStep>, r: Seq<char>)
    ensures
        frames_written(steps).filter(carries(r)).len() == steps.filter(requested_by(r)).len(),
    decreases steps.len(),
{
    if steps.len() > 0 {
        let pre = steps.drop_last();
        lemma_one_response_per_request(pre, r);
        assert(steps == pre.push(steps.last()));
        assert(frames_written(steps) == frames_written(pre).push(step_frame(steps.last())));
        pre.lemma_filter_push(steps.last(), requested_by(r));
        frames_written(pre).lemma_filter_push(step_frame(steps.last()), carries(r));
    } else {
        assert(frames_written(steps).filter(carries(r)) =~= Seq::<PacketView>::empty()) by {
            reveal(Seq::filter);
        }
        assert(steps.filter(requested_by(r)) =~= Seq::<ConnectionStep>::empty()) by {
            reveal(Seq::filter);
        }
    }
}

/// The frames a server has written on one connection.
pub struct Connection {
    pub written: Vec<SocketPacket>,
}

/// The view of a list of packets.
pub open spec fn packets_view(s: Seq<SocketPacket>) -> Seq<PacketView> {
    s.map_values(|p: SocketPacket| p@)
}

impl Connection {
    /// A connection on which nothing was written.
    pub fn new() -> (r: Connection)
        ensures
            r.written@.len() == 0,
    {
        Connection { written: Vec::new() }
    }

    /// Answers a request: writes exactly one frame, which echoes its type
    /// and requester.
    pub fn respond(&mut self, request: &SocketPacket, data: Option<String>) -> (r: Vec<u8>)
        ensures
            packets_view(final(self).written@) == packets_view(old(self).written@).push(
                step_frame(ConnectionStep::Request { request: request@, data: opt_view(data) })),
            r@ == packet_bytes(step_frame(ConnectionStep::Request { request: request@, data: opt_view(data) })).push(EOT),
    {
        let p = response_to(request, data);
        let bytes = encode_frame(&p);
        let ghost w0 = self.written@;
        self.written.push(p);
        assert(packets_view(self.written@) =~= packets_view(w0).push(p@));
        bytes
    }

    /// Pushes an event to the client.
    pub fn push_event(&mut self, event_json: String) -> (r: Vec<u8>)
        ensures
            packets_view(final(self).written@) == packets_view(old(self).written@).push(
                step_frame(ConnectionStep::Event { event: event_json@ })),
            r@ == packet_bytes(step_frame(ConnectionStep::Event { event: event_json@ })).push(EOT),
    {
        let p = event_packet(event_json);
        let bytes = encode_frame(&p);
        let ghost w0 = self.written@;
        self.written.push(p);
        assert(packets_view(self.written@) =~= packets_view(w0).push(p@));
        bytes
    }
}

/// Tells whether an optional string holds the given text.
fn opt_is(s: &Option<String>, t: &String) -> (r: bool)
    ensures
        r == (opt_view(*s) == Some(t@)),
{
    match s {
        Some(x) => *x == *t,
        None => false,
    }
}

/// A frame is the response awaited by requester `id`.
pub open spec fn is_response(p: PacketView, id: Seq<char>) -> bool {
    p.ty != "event"@ && p.requester == Some(id)
}

/// The payloads of the event frames among `frames`, in order.
pub open spec fn event_data(frames: Seq<PacketView>) -> Seq<Seq<char>>
    decreases frames.len(),
{
    if frames.len() == 0 {
        Seq::empty()
    } else {
        let last = frames.last();
        event_data(frames.drop_last()) + if last.ty == "event"@ && last.data is Some {
            seq![last.data.unwrap()]
        } else {
            Seq::empty()
        }
    }
}

/// What a client does with a frame while it waits for a response.
pub enum ClientAction {
    /// It was the response awaited.
    Response(SocketPacket),
    /// It was an event, now in the event buffer, or a frame for another
    /// request: keep reading.
    Continue,
}

/// The client side of a connection: events that arrived while waiting for
/// responses, oldest first.
pub struct ClientState {
    pub event_buffer: Vec<String>,
}

impl ClientState {
    /// A client with no buffered events.
    pub fn new() -> (r: ClientState)
        ensures
            r.event_buffer@.len() == 0,
    {
        ClientState { event_buffer: Vec::new() }
    }

    /// Handles a frame read while waiting for the response to `requester`:
    /// events are buffered, the first frame with that requester is the
    /// response, anything else is skipped.
    pub fn on_frame(&mut self, packet: SocketPacket, requester: &String) -> (r: ClientAction)
        ensures
            packet.ty@ == "event"@ ==> r is Continue && match packet.data {
                Some(d) => crate::panel::strings_view(final(self).event_buffer@)
                    == crate::panel::strings_view(old(self).event_buffer@).push(d@),
                None => final(self).event_buffer@ == old(self).event_buffer@,
            },
            packet.ty@ != "event"@ ==> final(self).event_buffer@ == old(self).event_buffer@
                && if opt_view(packet.requester) == Some(requester@) {
                    r == ClientAction::Response(packet)
                } else {
                    r is Continue
                },
    {
        if crate::panel::text_eq(&packet.ty, "event") {
            match packet.data {
                Some(d) => {
                    let ghost b0 = self.event_buffer@;
                    let ghost dv = d;
                    self.event_buffer.push(d);
                    proof { crate::panel::lemma_strings_view_push(b0, dv); }
                },
                None => {},
            }
            ClientAction::Continue
        } else if opt_is(&packet.requester, requester) {
            ClientAction::Response(packet)
        } else {
            ClientAction::Continue
        }
    }

    /// Reads frames in order while waiting for the response to `id`: the
    /// response is the first frame that is not an event and carries `id`;
    /// the payloads of the events before it are buffered in order; the
    /// frames after it are left unread. `None` where no frame is the
    /// response, all event payloads then being buffered.
    pub fn await_response(&mut self, frames: Vec<SocketPacket>, id: &String) -> (r: Option<SocketPacket>)
        ensures
            match r {
                Some(p) => exists|i: int| 0 <= i < frames@.len() && #[trigger] is_response(packets_view(frames@)[i], id@)
                    && (forall|j: int| 0 <= j < i ==> !is_response(packets_view(frames@)[j], id@))
                    && p@ == packets_view(frames@)[i]
                    && crate::panel::strings_view(final(self).event_buffer@)
                        == crate::panel::strings_view(old(self).event_buffer@) + event_data(packets_view(frames@).subrange(0, i)),
                None => (forall|j: int| 0 <= j < frames@.len() ==> !is_response(packets_view(frames@)[j], id@))
                    && crate::panel::strings_view(final(self).event_buffer@)
                        == crate::panel::strings_view(old(self).event_buffer@) + event_data(packets_view(frames@)),
            },
    {
        let ghost fv = packets_view(frames@);
        let ghost n = frames@.len();
        let total = frames.len();
        let ghost b0 = crate::panel::strings_view(self.event_buffer@);
        let mut rest = frames;
        let mut k: usize = 0;
        assert(fv.subrange(0, 0) =~= Seq::<PacketView>::empty());
        while rest.len() > 0
            invariant
                fv == packets_view(frames@),
                n == frames@.len(),
                k + rest@.len() == n,
                n == total,
                b0 == crate::panel::strings_view(old(self).event_buffer@),
                forall|j: int| 0 <= j < rest@.len() ==> #[trigger] rest@[j]@ == fv[k + j],
                forall|j: int| 0 <= j < k ==> !is_response(fv[j], id@),
                crate::panel::strings_view(self.event_buffer@) == b0 + event_data(fv.subrange(0, k as int)),
            decreases rest@.len(),
        {
            let p = rest.remove(0);
            let ghost pv = p@;
            assert(pv == fv[k as int]);
            assert(fv.subrange(0, k + 1).drop_last() =~= fv.subrange(0, k as int));
            assert(fv.subrange(0, k + 1).last() == pv);
            let ghost buf = crate::panel::strings_view(self.event_buffer@);
            match self.on_frame(p, id) {
                ClientAction::Response(q) => {
                    assert(pv.ty != "event"@);
                    assert(q@ == pv);
                    assert(is_response(pv, id@));
                    assert(crate::panel::strings_view(self.event_buffer@) == buf);
                    assert(is_response(packets_view(frames@)[k as int], id@));
                    return Some(q);
                },
                ClientAction::Continue => {
                    proof {
                        if pv.ty == "event"@ {
                            match pv.data {
                                Some(d) => {
                                    assert(crate::panel::strings_view(self.event_buffer@) =~= b0 + event_data(fv.subrange(0, k + 1)));
                                },
                                None => {
                                    assert(crate::panel::strings_view(self.event_buffer@) =~= b0 + event_data(fv.subrange(0, k + 1)));
                                },
                            }
                        } else {
                            assert(crate::panel::strings_view(self.event_buffer@) =~= b0 + event_data(fv.subrange(0, k + 1)));
                        }
                    }
                },
            }
            k += 1;
        }
        assert(fv.subrange(0, k as int) =~= fv);
        None
    }

    /// The oldest buffered event, removed from the buffer.
    pub fn get_event(&mut self) -> (r: Option<String>)
        ensures
            old(self).event_buffer@.len() > 0 ==> r == Some(old(self).event_buffer@[0])
                && final(self).event_buffer@ == old(self).event_buffer@.drop_first(),
            old(self).event_buffer@.len() == 0 ==> r is None && final(self).event_buffer@.len() == 0,
    {
        if self.event_buffer.len() > 0 {
            Some(self.event_buffer.remove(0))
        } else {
            None
        }
    }
}

/// An ASCII letter or digit.
pub open spec fn is_alphanumeric(c: char) -> bool {
    ('0' <= c && c <= '9') || ('a' <= c && c <= 'z') || ('A' <= c && c <= 'Z')
}

/// Relies on rand's `thread_rng` sampled with `Alphanumeric`: twenty
/// characters, each an ASCII letter or digit.
#[verifier::external_body]
fn random_requester() -> (r: String)
    ensures
        r@.len() == 20,
        forall|i: int| 0 <= i < 20 ==> is_alphanumeric(#[trigger] r@[i]),
{
    rand::thread_rng().sample_iter(&rand::distributions::Alphanumeric).take(20).map(char::from).collect()
}

/// A request of the given type and payload with a fresh random requester.
pub fn new_request(ty: String, data: Option<String>) -> (r: SocketPacket)
    ensures
        r.ty@ == ty@,
        opt_view(r.data) == opt_view(data),
        r.requester is Some,
        r.requester.unwrap()@.len() == 20,
        forall|i: int| 0 <= i < 20 ==> is_alphanumeric(#[trigger] r.requester.unwrap()@[i]),
{
    SocketPacket { ty, requester: Some(random_requester()), data }
}

/// Event queues of the open client connections. A queue holds at most
/// `capacity` events; a full queue drops its oldest event to take a new one,
/// so a slow client never blocks the event bus.
pub struct SocketManager {
    pub queues: Vec<Vec<String>>,
    pub capacity: usize,
}

/// A queue after one more event: the oldest goes where it is full.
pub open spec fn enqueue(q: Seq<Seq<char>>, e: Seq<char>, capacity: nat) -> Seq<Seq<char>> {
    if q.len() >= capacity && q.len() > 0 {
        q.drop_first().push(e)
    } else {
        q.push(e)
    }
}

impl SocketManager {
    /// No connections yet; queues of `capacity` events, at least one.
    pub fn new(capacity: usize) -> (r: SocketManager)
        requires
            capacity > 0,
        ensures
            r.queues@.len() == 0,
            r.capacity == capacity,
    {
        SocketManager { queues: Vec::new(), capacity }
    }

    /// Opens a connection with an empty queue; returns its index.
    pub fn open_connection(&mut self) -> (r: usize)
        ensures
            r == old(self).queues@.len(),
            final(self).capacity == old(self).capacity,
            final(self).queues@.len() == old(self).queues@.len() + 1,
            final(self).queues@.drop_last() == old(self).queues@,
            final(self).queues@.last()@.len() == 0,
    {
        let r = self.queues.len();
        self.queues.push(Vec::new());
        assert(self.queues@.drop_last() =~= old(self).queues@);
        r
    }

    /// Sends an event to every open connection, in bus order.
    pub fn send_event(&mut self, event: &String)
        ensures
            final(self).capacity == old(self).capacity,
            final(self).queues@.len() == old(self).queues@.len(),
            forall|i: int| 0 <= i < old(self).queues@.len() ==>
                #[trigger] crate::panel::strings_view(final(self).queues@[i]@)
                    == enqueue(crate::panel::strings_view(old(self).queues@[i]@), event@, old(self).capacity as nat),
    {
        let n = self.queues.len();
        let mut i: usize = 0;
        while i < n
            invariant
                n == self.queues@.len(),
                n == old(self).queues@.len(),
                self.capacity == old(self).capacity,
                i <= n,
                forall|j: int| 0 <= j < i ==>
                    #[trigger] crate::panel::strings_view(self.queues@[j]@)
                        == enqueue(crate::panel::strings_view(old(self).queues@[j]@), event@, old(self).capacity as nat),
                forall|j: int| i <= j < n ==> #[trigger] self.queues@[j] == old(self).queues@[j],
            decreases n - i,
        {
            let mut q = self.queues.remove(i);
            let ghost q0 = q@;
            if q.len() >= self.capacity && q.len() > 0 {
                q.remove(0);
                assert(crate::panel::strings_view(q@) =~= crate::panel::strings_view(q0).drop_first());
            }
            let ghost q1 = q@;
            let e = copy_string(event);
            q.push(e);
            proof { crate::panel::lemma_strings_view_push(q1, e); }
            self.queues.insert(i, q);
            i += 1;
        }
    }

    /// Takes the oldest event queued for a connection.
    pub fn take_event(&mut self, connection: usize) -> (r: Option<String>)
        requires
            connection < old(self).queues@.len(),
        ensures
            final(self).capacity == old(self).capacity,
            final(self).queues@.len() == old(self).queues@.len(),
            old(self).queues@[connection as int]@.len() > 0 ==> r == Some(old(self).queues@[connection as int]@[0])
                && final(self).queues@[connection as int]@ == old(self).queues@[connection as int]@.drop_first(),
            old(self).queues@[connection as int]@.len() == 0 ==> r is None
                && final(self).queues@[connection as int]@ == old(self).queues@[connection as int]@,
            forall|j: int| 0 <= j < old(self).queues@.len() && j != connection ==>
                #[trigger] final(self).queues@[j] == old(self).queues@[j],
    {
        let mut q = self.queues.remove(connection);
        let r = if q.len() > 0 { Some(q.remove(0)) } else { None };
        self.queues.insert(connection, q);
        r
    }
}

} // verus!
