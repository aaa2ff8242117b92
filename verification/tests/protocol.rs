use divoom_ditoo::protocol::alarm::Alarm;
use divoom_ditoo::protocol::animation::{Animation, ControlWord};
use divoom_ditoo::protocol::command::Command;
use divoom_ditoo::protocol::datetime::{CalendarDateTime, DateTime, TimeOfDay};
use divoom_ditoo::protocol::packet::Packet;
use divoom_ditoo::{
    accept_response_byte, alarm_packet, create_network_packets_from, get_settings_packet,
    parse_settings_response, set_channel_packet, set_datetime_packet, DeviceState, ResponseError,
};

#[test]
fn command_values() {
    assert_eq!(Command::SetDateTime.value(), 0x18);
    assert_eq!(Command::Alarm.value(), 0x43);
    assert_eq!(Command::SetChannel.value(), 0x45);
    assert_eq!(Command::GetSettings.value(), 0x46);
    assert_eq!(Command::Animation.value(), 0x8b);
}

#[test]
fn set_channel_packet_bytes() {
    let packet = set_channel_packet(3);
    assert_eq!(packet.start, 1);
    assert_eq!(packet.length, 4);
    assert_eq!(packet.checksum, 0x04 + 0x45 + 0x03);
    assert_eq!(packet.serialize(), vec![0x01, 0x04, 0x00, 0x45, 0x03, 0x4c, 0x00, 0x02]);
}

#[test]
fn get_settings_packet_bytes() {
    let packet = get_settings_packet();
    assert_eq!(packet.serialize(), vec![0x01, 0x03, 0x00, 0x46, 0x49, 0x00, 0x02]);
}

#[test]
fn packet_length_field_keeps_low_16_bits() {
    let payload = vec![1u8; 70000];
    let packet = Packet::from(Command::Animation, &payload);
    assert_eq!(packet.length, ((70000u32 + 3) % 65536) as u16);
    let bytes = packet.serialize();
    assert_eq!(bytes.len(), 70007);
    assert_eq!(u16::from_le_bytes([bytes[1], bytes[2]]), 4467);
    let sum: u32 = bytes[1..bytes.len() - 3].iter().map(|b| *b as u32).sum();
    assert_eq!(packet.checksum as u32, sum % 65536);
}

#[test]
fn packet_layout_on_long_payload() {
    let payload = vec![0xffu8; 300];
    let packet = Packet::from(Command::Animation, &payload);
    let bytes = packet.serialize();
    let n = bytes.len();
    assert_eq!(n, payload.len() + 7);
    assert_eq!(bytes[0], 1);
    assert_eq!(bytes[n - 1], 2);
    assert_eq!(u16::from_le_bytes([bytes[1], bytes[2]]) as usize, n - 4);
    assert_eq!(bytes[3], 0x8b);
    assert_eq!(&bytes[4..n - 3], &payload[..]);
    // the sum wraps at 16 bits
    let sum: u32 = bytes[1..n - 3].iter().map(|b| *b as u32).sum();
    assert!(sum > 0xffff);
    assert_eq!(u16::from_le_bytes([bytes[n - 3], bytes[n - 2]]) as u32, sum % 65536);
}

#[test]
fn animation_payloads() {
    let start = Animation {
        control_word: ControlWord::StartSeeding,
        file_size: 0x01020304,
        offset_id: 7,
        image_part: vec![9],
    };
    assert_eq!(start.serialize(), vec![0, 4, 3, 2, 1]);
    let data = Animation {
        control_word: ControlWord::SendingData,
        file_size: 0x01020304,
        offset_id: 0x0105,
        image_part: vec![9, 8],
    };
    assert_eq!(data.serialize(), vec![1, 4, 3, 2, 1, 5, 1, 9, 8]);
    let end = Animation {
        control_word: ControlWord::TerminateSending,
        file_size: 0x01020304,
        offset_id: 7,
        image_part: vec![9],
    };
    assert_eq!(end.serialize(), vec![2]);
}

#[test]
fn alarm_serialization() {
    let alarm = Alarm {
        index: 2,
        enable: true,
        time: TimeOfDay::from_hms(7, 45, 10).unwrap(),
        repeat: 0b0111110,
        mode: 1,
        trigger_mode: 4,
        fm: [0x12, 0x34],
        volume: 55,
    };
    assert_eq!(alarm.serialize(), vec![2, 1, 7, 45, 0b0111110, 1, 4, 0x12, 0x34, 55]);
}

#[test]
fn alarm_packet_bytes() {
    let packet = alarm_packet(false).unwrap();
    let payload = vec![0u8, 0, 13, 37, 0, 0, 0, 0, 0, 100];
    assert_eq!(packet.payload, payload);
    let sum: u16 = 13 + 0x43 + 13 + 37 + 100;
    let mut expected = vec![1u8, 13, 0, 0x43];
    expected.extend_from_slice(&payload);
    expected.extend_from_slice(&sum.to_le_bytes());
    expected.push(2);
    assert_eq!(packet.serialize(), expected);
}

#[test]
fn alarm_packet_enabled() {
    let packet = alarm_packet(true).unwrap();
    let payload = vec![0u8, 1, 13, 37, 0, 0, 0, 0, 0, 100];
    assert_eq!(packet.payload, payload);
    let serialized = packet.serialize();
    assert_eq!(serialized[5], 1);
    let sum: u16 = 13 + 0x43 + 1 + 13 + 37 + 100;
    assert_eq!(&serialized[14..16], &sum.to_le_bytes());
}

#[test]
fn time_of_day_bounds() {
    assert!(TimeOfDay::from_hms(0, 0, 0).is_some());
    assert!(TimeOfDay::from_hms(23, 59, 59).is_some());
    assert!(TimeOfDay::from_hms(24, 0, 0).is_none());
    assert!(TimeOfDay::from_hms(23, 60, 0).is_none());
    assert!(TimeOfDay::from_hms(23, 59, 60).is_none());
}

#[test]
fn calendar_dates() {
    assert!(CalendarDateTime::from_ymd_hms(2024, 2, 29, 0, 0, 0).is_some());
    assert!(CalendarDateTime::from_ymd_hms(2023, 2, 29, 0, 0, 0).is_none());
    assert!(CalendarDateTime::from_ymd_hms(1900, 2, 29, 0, 0, 0).is_none());
    assert!(CalendarDateTime::from_ymd_hms(2000, 2, 29, 0, 0, 0).is_some());
    assert!(CalendarDateTime::from_ymd_hms(2025, 4, 31, 0, 0, 0).is_none());
    assert!(CalendarDateTime::from_ymd_hms(2025, 13, 1, 0, 0, 0).is_none());
    assert!(CalendarDateTime::from_ymd_hms(2025, 0, 1, 0, 0, 0).is_none());
    assert!(CalendarDateTime::from_ymd_hms(2025, 1, 0, 0, 0, 0).is_none());
    assert!(CalendarDateTime::from_ymd_hms(2025, 1, 1, 24, 0, 0).is_none());
    assert!(CalendarDateTime::from_ymd_hms(262142, 12, 31, 0, 0, 0).is_some());
    assert!(CalendarDateTime::from_ymd_hms(262143, 1, 1, 0, 0, 0).is_none());
    assert!(CalendarDateTime::from_ymd_hms(-262143, 1, 1, 0, 0, 0).is_some());
    assert!(CalendarDateTime::from_ymd_hms(-262144, 12, 31, 0, 0, 0).is_none());
    let dt = CalendarDateTime::from_ymd_hms(2025, 3, 25, 21, 22, 59).unwrap();
    assert_eq!((dt.year, dt.month, dt.day, dt.hour, dt.minute, dt.second), (2025, 3, 25, 21, 22, 59));
}

#[test]
fn datetime_serialization() {
    let datetime = CalendarDateTime::from_ymd_hms(2025, 3, 25, 21, 22, 59).unwrap();
    assert_eq!(DateTime { datetime }.serialize(), vec![25, 20, 3, 25, 21, 22, 59]);
    let ancient = CalendarDateTime::from_ymd_hms(-5, 1, 2, 3, 4, 5).unwrap();
    // Rust's remainder of -5 by 100 is -5, which is 251 as a byte.
    assert_eq!(DateTime { datetime: ancient }.serialize(), vec![251, 0, 1, 2, 3, 4, 5]);
    let far = CalendarDateTime::from_ymd_hms(30099, 1, 1, 0, 0, 0).unwrap();
    assert_eq!(DateTime { datetime: far }.serialize(), vec![99, 44, 1, 1, 0, 0, 0]);
}

#[test]
fn set_datetime_packet_bytes() {
    let datetime = CalendarDateTime::from_ymd_hms(2025, 3, 25, 21, 22, 59).unwrap();
    let packet = set_datetime_packet(datetime);
    let payload = vec![25u8, 20, 3, 25, 21, 22, 59];
    let sum: u16 = 10 + 0x18 + payload.iter().map(|b| *b as u16).sum::<u16>();
    let mut expected = vec![1u8, 10, 0, 0x18];
    expected.extend_from_slice(&payload);
    expected.extend_from_slice(&sum.to_le_bytes());
    expected.push(2);
    assert_eq!(packet.serialize(), expected);
}

fn settings_reply() -> Vec<u8> {
    let mut reply = vec![0x01, 0x14, 0x00, 0x04, 0x46, 0x55, 0x03];
    reply.extend_from_slice(&[0xaa; 12]);
    reply.push(80);
    reply.extend_from_slice(&[0x00, 0x00, 0x02]);
    reply
}

#[test]
fn settings_reply_parsed() {
    assert_eq!(parse_settings_response(&settings_reply()), Ok(DeviceState { channel: 3, brightness: 80 }));
}

#[test]
fn settings_reply_errors() {
    let reply = settings_reply();
    assert_eq!(parse_settings_response(&reply[..19]), Err(ResponseError::TooShort(19)));
    let mut bad = reply.clone();
    bad[0] = 0x07;
    assert_eq!(parse_settings_response(&bad), Err(ResponseError::BadStartByte(0x07)));
    let mut bad = reply.clone();
    bad[3] = 0x05;
    assert_eq!(parse_settings_response(&bad), Err(ResponseError::UnexpectedMarker(0x05)));
    let mut bad = reply.clone();
    bad[4] = 0x45;
    assert_eq!(parse_settings_response(&bad), Err(ResponseError::UnexpectedCommandEcho(0x45)));
    let mut bad = reply.clone();
    bad[5] = 0x56;
    assert_eq!(parse_settings_response(&bad), Err(ResponseError::UnexpectedFixedByte(0x56)));
}

#[test]
fn response_bytes_until_end() {
    let mut response = Vec::new();
    assert!(!accept_response_byte(&mut response, 0x01));
    assert!(!accept_response_byte(&mut response, 0x02));
    assert!(!accept_response_byte(&mut response, 0x00));
    assert!(!accept_response_byte(&mut response, 0x46));
    assert!(!accept_response_byte(&mut response, 0x02));
    assert!(accept_response_byte(&mut response, 0x02));
    assert_eq!(response, vec![0x01, 0x02, 0x00, 0x46, 0x02, 0x02]);
}

#[test]
fn settings_reply_on_equalizer_channel() {
    let mut reply = vec![0x01u8, 0x13, 0x00, 0x04, 0x46, 0x55, 0x02];
    reply.extend_from_slice(&[0u8; 12]);
    reply.push(0x50);
    reply.extend_from_slice(&[0x33, 0x01, 0x02]);
    let mut response = Vec::new();
    let mut done_at = None;
    for (i, byte) in reply.iter().enumerate() {
        if accept_response_byte(&mut response, *byte) {
            done_at = Some(i);
            break;
        }
    }
    assert_eq!(done_at, Some(reply.len() - 1));
    assert_eq!(response, reply);
    assert_eq!(
        parse_settings_response(&response),
        Ok(DeviceState { channel: 2, brightness: 80 })
    );
}

#[test]
fn settings_reply_ends_by_its_length_field() {
    let mut reply = vec![0x01u8, 0x11, 0x00, 0x04, 0x46, 0x55, 0x02];
    reply.extend_from_slice(&[0u8; 12]);
    reply.push(0x50);
    reply.extend_from_slice(&[0x33, 0x01, 0x02]);
    let mut response = Vec::new();
    for byte in reply.iter() {
        if accept_response_byte(&mut response, *byte) {
            break;
        }
    }
    assert_eq!(response.len(), 0x11 + 4);
    assert_eq!(
        parse_settings_response(&response),
        Ok(DeviceState { channel: 2, brightness: 80 })
    );
}

#[test]
fn upload_packets() {
    let data: Vec<u8> = (0..600u32).map(|i| (i % 251) as u8).collect();
    let packets = create_network_packets_from(&data);
    assert_eq!(packets.len(), 4);
    assert_eq!(packets[0].payload, vec![0, 0x58, 0x02, 0, 0]);
    let mut joined = Vec::new();
    for (i, packet) in packets[1..].iter().enumerate() {
        assert_eq!(packet.command, Command::Animation);
        assert_eq!(packet.payload[0], 1);
        assert_eq!(&packet.payload[1..5], &[0x58, 0x02, 0, 0]);
        assert_eq!(u16::from_le_bytes([packet.payload[5], packet.payload[6]]) as usize, i);
        joined.extend_from_slice(&packet.payload[7..]);
    }
    assert_eq!(packets[1].payload.len(), 7 + 256);
    assert_eq!(packets[3].payload.len(), 7 + 88);
    assert_eq!(joined, data);
}

#[test]
fn upload_of_nothing() {
    let packets = create_network_packets_from(&[]);
    assert_eq!(packets.len(), 1);
    assert_eq!(packets[0].payload, vec![0, 0, 0, 0, 0]);
    let exact: Vec<u8> = vec![7; 512];
    assert_eq!(create_network_packets_from(&exact).len(), 3);
}
