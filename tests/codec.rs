use mqtt3::Packet;
use zqtt::codec::{MqttCodec, Outbound};

#[test]
fn decode_waits_for_a_header() {
    let mut codec = MqttCodec;
    assert!(matches!(codec.decode(&[]), Ok(None)));
    assert!(matches!(codec.decode(&[0xC0]), Ok(None)));
}

#[test]
fn decode_reads_pingreq() {
    let mut codec = MqttCodec;
    match codec.decode(&[0xC0, 0x00, 0xFF]) {
        Ok(Some((Packet::Pingreq, 2))) => {}
        _ => panic!("expected a PINGREQ of two bytes"),
    }
}

#[test]
fn decode_waits_for_the_whole_packet() {
    let mut codec = MqttCodec;
    // PUBLISH with remaining length 5, only 3 bytes of it present
    assert!(matches!(codec.decode(&[0x30, 0x05, 0x00, 0x01, b'a']), Ok(None)));
    // remaining length field not finished
    assert!(matches!(codec.decode(&[0x30, 0x80]), Ok(None)));
}

#[test]
fn decode_reads_publish() {
    let mut codec = MqttCodec;
    let bytes = [0x30, 0x06, 0x00, 0x01, b'a', b'x', b'y', b'z', 0x00];
    match codec.decode(&bytes) {
        Ok(Some((Packet::Publish(p), 8))) => {
            assert_eq!(p.topic_name, "a");
            assert_eq!(*p.payload, b"xyz".to_vec());
        }
        _ => panic!("expected a PUBLISH of eight bytes"),
    }
}

#[test]
fn decode_rejects_overlong_length_field() {
    let mut codec = MqttCodec;
    assert!(codec.decode(&[0x30, 0x80, 0x80, 0x80, 0x80, 0x01]).is_err());
}

#[test]
fn decode_reads_multi_byte_length() {
    let mut codec = MqttCodec;
    // remaining length 200 = 0xC8 0x01; only the header is here
    assert!(matches!(codec.decode(&[0x30, 0xC8, 0x01, 0x00]), Ok(None)));
}

#[test]
fn encode_appends_pingresp() {
    let mut codec = MqttCodec;
    let mut buf = vec![0xAA];
    codec.encode(Outbound::Pingresp, &mut buf).unwrap();
    assert_eq!(buf, vec![0xAA, 0xD0, 0x00]);
}

#[test]
fn encode_fixed_packets() {
    let mut codec = MqttCodec;
    let mut buf = Vec::new();
    codec.encode(Outbound::Connack, &mut buf).unwrap();
    codec.encode(Outbound::Unsuback(0x0102), &mut buf).unwrap();
    assert_eq!(buf, vec![0x20, 0x02, 0x00, 0x00, 0xB0, 0x02, 0x01, 0x02]);
}

#[test]
fn encode_suback_and_publish() {
    let mut codec = MqttCodec;
    let mut buf = Vec::new();
    codec.encode(Outbound::Suback(7, vec![true, false]), &mut buf).unwrap();
    assert_eq!(buf, vec![0x90, 0x04, 0x00, 0x07, 0x00, 0x80]);
    let mut buf = Vec::new();
    codec
        .encode(Outbound::Publish("a/b".to_string(), b"P".to_vec()), &mut buf)
        .unwrap();
    assert_eq!(buf, vec![0x30, 0x06, 0x00, 0x03, b'a', b'/', b'b', b'P']);
}

#[test]
fn encoded_publish_decodes_back() {
    let mut codec = MqttCodec;
    let mut buf = Vec::new();
    codec
        .encode(Outbound::Publish("x".to_string(), b"hello".to_vec()), &mut buf)
        .unwrap();
    match codec.decode(&buf) {
        Ok(Some((Packet::Publish(p), n))) => {
            assert_eq!(n, buf.len());
            assert_eq!(p.topic_name, "x");
            assert_eq!(*p.payload, b"hello".to_vec());
        }
        _ => panic!("expected the PUBLISH back"),
    }
}

#[test]
fn decode_rejects_reserved_packet_types_at_once() {
    let mut codec = MqttCodec;
    assert!(codec.decode(&[0xF0, 0x05]).is_err());
    assert!(codec.decode(&[0x00, 0x05]).is_err());
}

#[test]
fn decode_rejects_publish_with_qos_three() {
    let mut codec = MqttCodec;
    assert!(codec.decode(&[0x36, 0x01, 0x00]).is_err());
}

#[test]
fn decode_reports_packets_mqtt3_refuses() {
    let mut codec = MqttCodec;
    // PINGREQ must have no payload: a complete frame that does not parse
    assert!(codec.decode(&[0xC0, 0x01, 0x00]).is_err());
}

#[test]
fn decode_rejects_a_partial_packet_that_is_already_invalid() {
    let mut codec = MqttCodec;
    // CONNECT of 12 bytes whose protocol name is not MQTT; 9 are here
    let bytes = [0x10, 0x0A, 0x00, 0x04, b'X', b'X', b'X', b'X', 0x04];
    assert!(codec.decode(&bytes).is_err());
    // the same start with a valid protocol name waits for the rest
    let bytes = [0x10, 0x0A, 0x00, 0x04, b'M', b'Q', b'T', b'T', 0x04];
    assert!(matches!(codec.decode(&bytes), Ok(None)));
}

#[test]
fn encoded_frames_decode_back_with_more_bytes_behind() {
    let mut codec = MqttCodec;
    let mut buf = Vec::new();
    codec.encode(Outbound::Suback(3, vec![true]), &mut buf).unwrap();
    let first = buf.len();
    codec.encode(Outbound::Pingresp, &mut buf).unwrap();
    match codec.decode(&buf) {
        Ok(Some((Packet::Suback(s), n))) => {
            assert_eq!(n, first);
            assert_eq!(s.pid.0, 3);
        }
        _ => panic!("expected the SUBACK first"),
    }
    assert!(matches!(codec.decode(&buf[first..]), Ok(Some((Packet::Pingresp, 2)))));
}
