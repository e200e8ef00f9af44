use mqtt3::ConnectReturnCode::Accepted;
use mqtt3::SubscribeReturnCodes::{Failure, Success};
use mqtt3::QoS::AtMostOnce;
use mqtt3::{Connack, MqttRead, MqttWrite, Packet, PacketIdentifier, Publish, Suback};
use std::io::{Cursor, ErrorKind};
use std::sync::Arc;
use vstd::prelude::*;
use vstd::string::StringExecFns;
use vstd::utf8::encode_utf8;

verus! {

#[verifier::external_type_specification]
#[verifier::external_body]
pub struct ExPacket(mqtt3::Packet);

#[verifier::external_type_specification]
#[verifier::external_body]
pub struct ExMqttError(mqtt3::Error);

/// The fixed header is at least the packet type byte and one length byte.
pub const MQTT_MIN_HEADER_SIZE: usize = 2;

/// The remaining-length field takes at most this many bytes.
pub const MAX_LENGTH_BYTES: usize = 4;

/// Where the remaining-length field ends, reading from its byte `i` on
/// (byte `i` of the field is byte `1 + i` of the buffer): `n` when its
/// `n`-th byte is the last (high bit clear), `0` when the buffer ends first,
/// `5` when no byte among the first four ends it.
pub open spec fn length_field_end(buf: Seq<u8>, i: int) -> int
    decreases 4 - i,
{
    if i >= 4 {
        5
    } else if 1 + i >= buf.len() {
        0
    } else if buf[1 + i] < 128 {
        i + 1
    } else {
        length_field_end(buf, i + 1)
    }
}

pub open spec fn pow128(n: nat) -> nat
    decreases n,
{
    if n == 0 {
        1
    } else {
        128 * pow128((n - 1) as nat)
    }
}

/// The value of the first `n` bytes of the remaining-length field: seven
/// bits per byte, least significant group first.
pub open spec fn length_field_value(buf: Seq<u8>, n: nat) -> nat
    decreases n,
{
    if n == 0 {
        0
    } else {
        length_field_value(buf, (n - 1) as nat) + ((buf[n as int] % 128) as nat) * pow128(
            (n - 1) as nat,
        )
    }
}

/// The length of the whole packet that starts the buffer, once its header
/// is complete: type byte, length field, and the length it gives.
pub open spec fn frame_len(buf: Seq<u8>) -> int {
    let n = length_field_end(buf, 0);
    1 + n + length_field_value(buf, n as nat)
}

proof fn lemma_length_field_end(buf: Seq<u8>, i: int)
    requires
        0 <= i <= 4,
    ensures
        length_field_end(buf, i) == 0 || length_field_end(buf, i) == 5 || (i
            < length_field_end(buf, i) <= 4 && 1 + length_field_end(buf, i) <= buf.len()),
    decreases 4 - i,
{
    if i < 4 && 1 + i < buf.len() && buf[1 + i] >= 128 {
        lemma_length_field_end(buf, i + 1);
    }
}

proof fn lemma_value_bound(buf: Seq<u8>, n: nat)
    requires
        n <= 4,
        1 + n <= buf.len(),
    ensures
        length_field_value(buf, n) < pow128(n),
    decreases n,
{
    if n > 0 {
        lemma_value_bound(buf, (n - 1) as nat);
        let b = (buf[n as int] % 128) as nat;
        let p = pow128((n - 1) as nat);
        assert(b <= 127);
        assert(b * p <= 127 * p) by (nonlinear_arith)
            requires
                b <= 127,
        ;
    }
}

/// What the front of a buffer holds.
pub enum FrameLen {
    /// More bytes are needed to know, or to hold, the whole packet.
    Incomplete,
    /// The remaining-length field runs past four bytes.
    Malformed,
    /// A whole packet of this many bytes starts the buffer.
    Complete(usize),
}

/// Read the fixed header and decide whether a whole packet is there.
fn frame_len_of(buf: &[u8]) -> (r: FrameLen)
    ensures
        buf@.len() < MQTT_MIN_HEADER_SIZE ==> r is Incomplete,
        buf@.len() >= MQTT_MIN_HEADER_SIZE ==> match r {
            FrameLen::Malformed => length_field_end(buf@, 0) == 5,
            FrameLen::Incomplete => length_field_end(buf@, 0) == 0 || (length_field_end(buf@, 0)
                != 5 && buf@.len() < frame_len(buf@)),
            FrameLen::Complete(n) => length_field_end(buf@, 0) != 0 && length_field_end(buf@, 0)
                != 5 && n == frame_len(buf@) && n <= buf@.len(),
        },
{
    if buf.len() < MQTT_MIN_HEADER_SIZE {
        return FrameLen::Incomplete;
    }
    let mut i: usize = 0;
    let mut value: u64 = 0;
    let mut mult: u64 = 1;
    proof {
        lemma_length_field_end(buf@, 0);
    }
    while i < MAX_LENGTH_BYTES
        invariant
            i <= 4,
            1 + i <= buf@.len() || i == 0,
            length_field_end(buf@, 0) == length_field_end(buf@, i as int),
            value == length_field_value(buf@, i as nat),
            mult == pow128(i as nat),
            value < mult,
            mult <= 268435456,
        decreases 4 - i,
    {
        if 1 + i >= buf.len() {
            return FrameLen::Incomplete;
        }
        let b = buf[1 + i];
        proof {
            reveal_with_fuel(pow128, 5);
            assert(mult <= 2097152);
            lemma_value_bound(buf@, (i + 1) as nat);
            assert((b % 128) as nat * mult <= 127 * mult) by (nonlinear_arith)
                requires
                    (b % 128) as nat <= 127,
            ;
        }
        let v: u64 = value + ((b % 128) as u64) * mult;
        if b < 128 {
            proof {
                assert(length_field_end(buf@, i as int) == i + 1);
                assert(v == length_field_value(buf@, (i + 1) as nat));
            }
            let total: u64 = 1 + (i as u64 + 1) + v;
            if total > buf.len() as u64 {
                return FrameLen::Incomplete;
            }
            return FrameLen::Complete(total as usize);
        }
        value = v;
        mult = mult * 128;
        i = i + 1;
    }
    FrameLen::Malformed
}

/// The largest remaining length that MQTT can encode.
pub const MAX_REMAINING_LENGTH: usize = 268435455;

/// The packet type (high nibble of the first byte) is not one that MQTT
/// defines: 0 and 15 are reserved.
pub open spec fn bad_packet_type(buf: Seq<u8>) -> bool {
    buf.len() > 0 && (buf[0] / 16 == 0 || buf[0] / 16 == 15)
}

/// Two bytes at least, a defined packet type, and no PUBLISH with QoS 3.
pub open spec fn header_ok(buf: Seq<u8>) -> bool {
    buf.len() >= MQTT_MIN_HEADER_SIZE && !bad_packet_type(buf) && !publish_qos3(buf)
}

/// The packet is not all there: its length field or its body is cut short.
pub open spec fn incomplete(buf: Seq<u8>) -> bool {
    length_field_end(buf, 0) == 0 || (length_field_end(buf, 0) != 5 && buf.len() < frame_len(
        buf,
    ))
}

/// A PUBLISH whose QoS bits are both set, which no QoS level allows.
pub open spec fn publish_qos3(buf: Seq<u8>) -> bool {
    buf.len() > 0 && buf[0] / 16 == 3 && (buf[0] / 2) % 4 == 3
}

/// mqtt3's reader parsed a packet.
pub const READ_PARSED: u8 = 0;

/// mqtt3's reader ran out of input.
pub const READ_SHORT: u8 = 1;

/// mqtt3's reader found the bytes invalid.
pub const READ_INVALID: u8 = 2;

/// How mqtt3's reader ends on these bytes (`READ_PARSED`, `READ_SHORT` or
/// `READ_INVALID`); it depends on the bytes alone.
pub uninterp spec fn mqtt_read_status(bytes: Seq<u8>) -> u8;

/// The remaining-length field for `n`: seven bits per byte, least
/// significant group first, the high bit set on every byte but the last.
pub open spec fn remaining_length_bytes(n: nat) -> Seq<u8>
    decreases n,
{
    if n < 128 {
        seq![n as u8]
    } else {
        seq![((n % 128) + 128) as u8] + remaining_length_bytes(n / 128)
    }
}

/// A 16-bit number, most significant byte first, of `n` cut to 16 bits.
pub open spec fn be16(n: nat) -> Seq<u8> {
    seq![((n % 65536) / 256) as u8, (n % 256) as u8]
}

/// Why mqtt3's reader gave up.
#[derive(Debug, Clone, Copy, PartialEq, Eq, Structural)]
pub enum ReadFailure {
    /// The bytes ended before the packet did.
    Incomplete,
    /// The bytes are not a valid packet.
    Malformed,
}

/// Relies on mqtt3's `MqttRead::read_packet` on a cursor over the bytes: it
/// parses one packet from the front, and how it ends depends on the bytes
/// alone; running out of input is its `UnexpectedEof` error (or an I/O error
/// of that kind). It unwraps the QoS of a PUBLISH header, so a PUBLISH with
/// both QoS bits set is kept out.
#[verifier::external_body]
fn read_packet(bytes: &[u8]) -> (r: Result<Packet, ReadFailure>)
    requires
        !publish_qos3(bytes@),
    ensures
        r is Ok <==> mqtt_read_status(bytes@) == READ_PARSED,
        (r matches Err(ReadFailure::Incomplete)) <==> mqtt_read_status(bytes@) == READ_SHORT,
        (r matches Err(ReadFailure::Malformed)) <==> mqtt_read_status(bytes@) == READ_INVALID,
{
    let mut cursor = Cursor::new(bytes.to_vec());
    cursor.read_packet().map_err(|e| match e {
        mqtt3::Error::UnexpectedEof => ReadFailure::Incomplete,
        mqtt3::Error::Io(io) if io.kind() == ErrorKind::UnexpectedEof => ReadFailure::Incomplete,
        _ => ReadFailure::Malformed,
    })
}

/// A packet that the broker sends to a client.
pub enum Outbound {
    /// CONNACK with `session_present = false` and code Accepted.
    Connack,
    /// SUBACK for packet `pid`; for each filter, whether it was granted
    /// (at QoS 0) or refused.
    Suback(u16, Vec<bool>),
    /// UNSUBACK for packet `pid`.
    Unsuback(u16),
    /// PUBLISH at QoS 0 of a payload on a topic.
    Publish(String, Vec<u8>),
    /// PINGRESP.
    Pingresp,
}

/// Whether the packet's remaining length fits what MQTT can encode.
pub open spec fn encodable(o: Outbound) -> bool {
    match o {
        Outbound::Suback(_, g) => g@.len() + 2 <= MAX_REMAINING_LENGTH,
        Outbound::Publish(t, p) => encode_utf8(t@).len() + 2 + p@.len() <= MAX_REMAINING_LENGTH,
        _ => true,
    }
}

/// The packet reads back: a PUBLISH topic must fit the 16-bit length that
/// prefixes it on the wire.
pub open spec fn readable(o: Outbound) -> bool {
    match o {
        Outbound::Publish(t, _) => encode_utf8(t@).len() <= 65535,
        _ => true,
    }
}

/// The bytes hold exactly one whole frame with a valid fixed header.
pub open spec fn one_frame(b: Seq<u8>) -> bool {
    &&& header_ok(b)
    &&& length_field_end(b, 0) != 0
    &&& length_field_end(b, 0) != 5
    &&& frame_len(b) == b.len()
}

/// The bytes of a packet on the wire.
pub open spec fn wire(o: Outbound) -> Seq<u8> {
    match o {
        Outbound::Connack => seq![0x20u8, 0x02u8, 0x00u8, 0x00u8],
        Outbound::Suback(pid, g) => seq![0x90u8] + remaining_length_bytes((g@.len() + 2) as nat)
            + be16(pid as nat) + g@.map_values(|b: bool| if b { 0x00u8 } else { 0x80u8 }),
        Outbound::Unsuback(pid) => seq![0xB0u8, 0x02u8, (pid / 256) as u8, (pid % 256) as u8],
        Outbound::Publish(t, p) => seq![0x30u8] + remaining_length_bytes(
            (encode_utf8(t@).len() + 2 + p@.len()) as nat,
        ) + be16(encode_utf8(t@).len()) + encode_utf8(t@) + p@,
        Outbound::Pingresp => seq![0xD0u8, 0x00u8],
    }
}

/// Relies on mqtt3's `MqttWrite::write_packet` into an empty cursor: it
/// writes the bytes of `wire` (flags clear, QoS 0, code Accepted), fails
/// only when the remaining length exceeds what MQTT can encode, and what it
/// writes its reader reads back when a PUBLISH topic fits the 16-bit length.
#[verifier::external_body]
fn write_packet(o: Outbound) -> (r: Result<Vec<u8>, mqtt3::Error>)
    ensures
        r is Ok <==> encodable(o),
        r matches Ok(b) ==> b@ == wire(o),
        r matches Ok(b) ==> readable(o) ==> mqtt_read_status(b@) == READ_PARSED,
{
    let packet = match o {
        Outbound::Connack => Packet::Connack(Connack { session_present: false, code: Accepted }),
        Outbound::Suback(pid, g) => Packet::Suback(Box::new(Suback { pid: PacketIdentifier(pid),
            return_codes: g.into_iter().map(|b| if b { Success(AtMostOnce) } else { Failure }).collect() })),
        Outbound::Unsuback(pid) => Packet::Unsuback(PacketIdentifier(pid)),
        Outbound::Publish(t, p) => Packet::Publish(Box::new(Publish { dup: false, qos: AtMostOnce,
            retain: false, topic_name: t, pid: None, payload: Arc::new(p) })),
        Outbound::Pingresp => Packet::Pingresp,
    };
    let mut cursor = Cursor::new(vec![]);
    cursor.write_packet(&packet).map(|_| cursor.into_inner())
}

/// The MQTT framing: splits a byte stream into packets and back.
pub struct MqttCodec;

impl MqttCodec {
    /// Decode the packet at the front of `buf`: `Ok(None)` while the packet
    /// is not complete, else the packet and how many bytes it took. A first
    /// byte that names no packet, a PUBLISH with both QoS bits set, or bytes
    /// that the reader already finds invalid are an error at once. (A SUBACK,
    /// which a client never sends, is read only once complete: the reader
    /// sizes its buffer by the length it claims.)
    pub fn decode(&mut self, buf: &[u8]) -> (r: Result<Option<(Packet, usize)>, String>)
        ensures
            buf@.len() < MQTT_MIN_HEADER_SIZE ==> r == Ok::<Option<(Packet, usize)>, String>(
                None,
            ),
            buf@.len() >= MQTT_MIN_HEADER_SIZE && (bad_packet_type(buf@) || publish_qos3(buf@))
                ==> r is Err,
            header_ok(buf@) && length_field_end(buf@, 0) == 5 ==> r is Err,
            header_ok(buf@) && incomplete(buf@) && buf@[0] / 16 == 9 ==> r == Ok::<
                Option<(Packet, usize)>,
                String,
            >(None),
            header_ok(buf@) && incomplete(buf@) && buf@[0] / 16 != 9 ==> (r is Err
                <==> mqtt_read_status(buf@) == READ_INVALID) && (r is Ok ==> r == Ok::<
                Option<(Packet, usize)>,
                String,
            >(None)),
            header_ok(buf@) && length_field_end(buf@, 0) != 0 && length_field_end(buf@, 0) != 5
                && frame_len(buf@) <= buf@.len() ==> (r is Ok <==> mqtt_read_status(
                buf@.subrange(0, frame_len(buf@)),
            ) == READ_PARSED) && (r is Ok ==> (r matches Ok(Some((_, n))) && n == frame_len(
                buf@,
            ))),
    {
        if buf.len() < MQTT_MIN_HEADER_SIZE {
            return Ok(None);
        }
        let kind = buf[0] / 16;
        if kind == 0 || kind == 15 {
            return Err(String::from_str("reserved packet type"));
        }
        if kind == 3 && (buf[0] / 2) % 4 == 3 {
            return Err(String::from_str("PUBLISH with QoS 3"));
        }
        match frame_len_of(buf) {
            FrameLen::Incomplete => {
                if kind == 9 {
                    return Ok(None);
                }
                match read_packet(buf) {
                    Err(ReadFailure::Malformed) => Err(String::from_str("malformed packet")),
                    _ => Ok(None),
                }
            },
            FrameLen::Malformed => Err(String::from_str("malformed remaining length")),
            FrameLen::Complete(n) => {
                let frame = slice_prefix(buf, n);
                proof {
                    lemma_length_field_end(buf@, 0);
                    assert(frame@[0] == buf@[0]);
                }
                match read_packet(frame) {
                    Ok(p) => Ok(Some((p, n))),
                    Err(_) => Err(String::from_str("malformed packet")),
                }
            },
        }
    }

    /// Append the bytes of `packet` to `buf`. It fails, leaving `buf` as it
    /// was, exactly when the packet is too long for MQTT.
    pub fn encode(&mut self, packet: Outbound, buf: &mut Vec<u8>) -> (r: Result<(), String>)
        ensures
            r is Ok <==> encodable(packet),
            r is Ok ==> final(buf)@ == old(buf)@ + wire(packet),
            r is Ok ==> one_frame(wire(packet)),
            r is Ok && readable(packet) ==> mqtt_read_status(wire(packet)) == READ_PARSED,
            r is Err ==> final(buf)@ == old(buf)@,
    {
        match write_packet(packet) {
            Ok(bytes) => {
                proof {
                    lemma_wire_one_frame(packet);
                }
                let mut i: usize = 0;
                let ghost start = buf@;
                while i < bytes.len()
                    invariant
                        i <= bytes@.len(),
                        buf@ == start + bytes@.subrange(0, i as int),
                    decreases bytes@.len() - i,
                {
                    buf.push(bytes[i]);
                    proof {
                        assert(bytes@.subrange(0, i + 1) =~= bytes@.subrange(0, i as int).push(
                            bytes@[i as int],
                        ));
                    }
                    i = i + 1;
                }
                proof {
                    assert(bytes@.subrange(0, i as int) =~= bytes@);
                }
                Ok(())
            },
            Err(_) => Err(String::from_str("packet too long for MQTT")),
        }
    }
}

/// Reading back a remaining-length field written from byte `1 + i` on.
proof fn lemma_read_remaining_length(buf: Seq<u8>, i: int, n: nat)
    requires
        0 <= i < 4,
        n < pow128((4 - i) as nat),
        buf.len() >= 1 + i + remaining_length_bytes(n).len(),
        buf.subrange(1 + i, 1 + i + remaining_length_bytes(n).len()) == remaining_length_bytes(n),
    ensures
        i < i + remaining_length_bytes(n).len() <= 4,
        length_field_end(buf, i) == i + remaining_length_bytes(n).len(),
        length_field_value(buf, (i + remaining_length_bytes(n).len()) as nat) == length_field_value(
            buf,
            i as nat,
        ) + n * pow128(i as nat),
    decreases n,
{
    let e = remaining_length_bytes(n);
    assert(buf[1 + i] == buf.subrange(1 + i, 1 + i + e.len())[0]);
    if n < 128 {
        assert(buf[1 + i] == n as u8);
    } else {
        let m = n / 128;
        let rest = remaining_length_bytes(m);
        assert(e == seq![((n % 128) + 128) as u8] + rest);
        assert(buf[1 + i] == ((n % 128) + 128) as u8);
        assert(pow128((4 - i) as nat) == 128 * pow128((4 - i - 1) as nat));
        assert(m < pow128((4 - i - 1) as nat)) by (nonlinear_arith)
            requires
                n < 128 * pow128((4 - i - 1) as nat),
                m == n / 128,
        ;
        if i == 3 {
            assert(pow128(0) == 1);
            assert(false);
        }
        assert(buf.subrange(2 + i, 2 + i + rest.len()) =~= rest) by {
            assert forall|k: int| 0 <= k < rest.len() implies buf.subrange(2 + i, 2 + i + rest.len())[k] == rest[k] by {
                assert(buf[2 + i + k] == buf.subrange(1 + i, 1 + i + e.len())[k + 1]);
                assert(e[k + 1] == rest[k]);
            }
        }
        lemma_read_remaining_length(buf, i + 1, m);
        let p = pow128(i as nat);
        assert(pow128((i + 1) as nat) == 128 * p);
        assert((buf[1 + i] % 128) as nat == n % 128);
        assert(length_field_value(buf, (i + 1) as nat) == length_field_value(buf, i as nat) + (n
            % 128) * p);
        assert((n % 128) * p + m * (128 * p) == n * p) by (nonlinear_arith)
            requires
                m == n / 128,
        ;
    }
}

/// A type byte, the remaining-length field for `n`, then `n` more bytes
/// form one whole frame.
proof fn lemma_frame_of(w: Seq<u8>, n: nat)
    requires
        header_ok(w),
        n < pow128(4),
        w.len() == 1 + remaining_length_bytes(n).len() + n,
        w.subrange(1, 1 + remaining_length_bytes(n).len() as int) == remaining_length_bytes(n),
    ensures
        one_frame(w),
{
    let e = remaining_length_bytes(n).len();
    lemma_read_remaining_length(w, 0, n);
    assert(length_field_value(w, 0) == 0);
    assert(pow128(0) == 1);
    assert(n * pow128(0) == n) by (nonlinear_arith)
        requires
            pow128(0) == 1,
    ;
    assert(length_field_end(w, 0) == e);
    assert(length_field_value(w, e) == n);
    assert(frame_len(w) == 1 + e + n);
}

/// CONNACK, UNSUBACK and PINGRESP are whole frames.
proof fn lemma_fixed_frames(pid: u16)
    ensures
        one_frame(seq![0x20u8, 0x02u8, 0x00u8, 0x00u8]),
        one_frame(seq![0xB0u8, 0x02u8, (pid / 256) as u8, (pid % 256) as u8]),
        one_frame(seq![0xD0u8, 0x00u8]),
{
    reveal_with_fuel(length_field_end, 3);
    reveal_with_fuel(length_field_value, 2);
    reveal_with_fuel(pow128, 2);
    assert(one_frame(seq![0x20u8, 0x02u8, 0x00u8, 0x00u8]));
    assert(one_frame(seq![0xB0u8, 0x02u8, (pid / 256) as u8, (pid % 256) as u8]));
    assert(one_frame(seq![0xD0u8, 0x00u8]));
}

/// The bytes of every packet `encode` writes form one whole frame.
proof fn lemma_wire_one_frame(o: Outbound)
    requires
        encodable(o),
    ensures
        one_frame(wire(o)),
{
    reveal_with_fuel(length_field_end, 3);
    reveal_with_fuel(length_field_value, 2);
    reveal_with_fuel(pow128, 5);
    let w = wire(o);
    if o is Suback {
        let g = o->Suback_1;
        let n = (g@.len() + 2) as nat;
        let e = remaining_length_bytes(n);
        assert(w.subrange(1, 1 + e.len() as int) =~= e);
        assert(w[0] == 0x90u8);
        lemma_frame_of(w, n);
        assert(one_frame(w));
    } else if o is Publish {
        let t = o->Publish_0;
        let p = o->Publish_1;
        let n = (encode_utf8(t@).len() + 2 + p@.len()) as nat;
        let e = remaining_length_bytes(n);
        assert(w.subrange(1, 1 + e.len() as int) =~= e);
        assert(w[0] == 0x30u8);
        lemma_frame_of(w, n);
        assert(one_frame(w));
    } else if o is Unsuback {
        let pid = o->Unsuback_0;
        lemma_fixed_frames(pid);
        assert(w == seq![0xB0u8, 0x02u8, (pid / 256) as u8, (pid % 256) as u8]);
    } else if o is Connack {
        lemma_fixed_frames(0);
        assert(w == seq![0x20u8, 0x02u8, 0x00u8, 0x00u8]);
    } else {
        lemma_fixed_frames(0);
        assert(w == seq![0xD0u8, 0x00u8]);
    }
}

proof fn lemma_end_prefix(b: Seq<u8>, rest: Seq<u8>, i: int)
    requires
        0 <= i <= 4,
        length_field_end(b, i) != 0,
    ensures
        length_field_end(b + rest, i) == length_field_end(b, i),
    decreases 4 - i,
{
    if i < 4 {
        assert((b + rest)[1 + i] == b[1 + i]);
        if b[1 + i] >= 128 {
            lemma_end_prefix(b, rest, i + 1);
        }
    }
}

proof fn lemma_value_prefix(b: Seq<u8>, rest: Seq<u8>, n: nat)
    requires
        1 + n <= b.len(),
    ensures
        length_field_value(b + rest, n) == length_field_value(b, n),
    decreases n,
{
    if n > 0 {
        lemma_value_prefix(b, rest, (n - 1) as nat);
        assert((b + rest)[n as int] == b[n as int]);
    }
}

/// A whole frame followed by more bytes keeps its header and its length, so
/// `decode` reads exactly that frame from the front: what `encode` wrote
/// is decoded back, whatever follows it.
pub proof fn law_frame_then_more(b: Seq<u8>, rest: Seq<u8>)
    requires
        one_frame(b),
    ensures
        header_ok(b + rest),
        length_field_end(b + rest, 0) == length_field_end(b, 0),
        frame_len(b + rest) == b.len(),
        (b + rest).subrange(0, b.len() as int) == b,
{
    lemma_end_prefix(b, rest, 0);
    lemma_length_field_end(b, 0);
    lemma_value_prefix(b, rest, length_field_end(b, 0) as nat);
    assert((b + rest)[0] == b[0]);
    assert((b + rest).subrange(0, b.len() as int) =~= b);
}

/// The first `n` bytes of `buf`.
fn slice_prefix(buf: &[u8], n: usize) -> (r: &[u8])
    requires
        n <= buf@.len(),
    ensures
        r@ == buf@.subrange(0, n as int),
{
    vstd::slice::slice_subrange(buf, 0, n)
}

} // verus!
