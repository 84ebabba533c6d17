use hl7_forge::hl7::identity::mint_control_id;
use hl7_forge::hl7::parser::{
    build_ack, default_nack, get_field_value, parse_delimiters, parse_message, parse_segment,
    parse_with, render_ack,
};
use hl7_forge::hl7::types::{Delimiters, Hl7Message, Hl7MessageSummary};

const SAMPLE_ADT: &str = "MSH|^~\\&|SENDING_APP|SENDING_FAC|REC_APP|REC_FAC|20240101120000||ADT^A01^ADT_A01|MSG00001|P|2.5\rPID|||12345^^^HOSP||Smith^John^Peter||19800515|M\rPV1||I|WARD1^ROOM1^BED1";

#[test]
fn test_parse_adt_a01() {
    let msg = parse_message(SAMPLE_ADT, "127.0.0.1:9999").unwrap();
    assert_eq!(msg.message_type, "ADT^A01");
    assert_eq!(msg.trigger_event, "A01");
    assert_eq!(msg.sending_application, "SENDING_APP");
    assert_eq!(msg.sending_facility, "SENDING_FAC");
    assert_eq!(msg.message_control_id, "MSG00001");
    assert_eq!(msg.version, "2.5");
    assert_eq!(msg.patient_id, Some("12345".into()));
    assert_eq!(msg.patient_name, Some("Smith, John".into()));
    assert_eq!(msg.segments.len(), 3);
}

#[test]
fn test_build_ack() {
    let msg = parse_message(SAMPLE_ADT, "127.0.0.1:9999").unwrap();
    let ack = build_ack(&msg, "AA");
    assert!(ack.starts_with("MSH|^~\\&|HL7Forge"));
    assert!(ack.contains("MSA|AA|MSG00001"));
}

#[test]
fn baseline_message_keeps_its_origin_and_text() {
    let msg = parse_message(SAMPLE_ADT, "127.0.0.1:9999").unwrap();
    assert_eq!(msg.source_addr, "127.0.0.1:9999");
    assert_eq!(msg.raw, SAMPLE_ADT);
    assert_eq!(msg.receiving_application, "REC_APP");
    assert_eq!(msg.receiving_facility, "REC_FAC");
    assert_eq!(msg.parse_error, None);
    assert_eq!(msg.id.len(), 36);
    assert_eq!(msg.segments[0].name, "MSH");
    assert_eq!(msg.segments[1].name, "PID");
    assert_eq!(msg.segments[2].name, "PV1");
    assert_eq!(msg.segments[2].raw, "PV1||I|WARD1^ROOM1^BED1");
}

#[test]
fn ack_shape() {
    let msg = parse_message(SAMPLE_ADT, "127.0.0.1:9999").unwrap();
    let ack = build_ack(&msg, "AA");
    assert!(ack.starts_with("MSH|^~\\&|HL7Forge|HL7Forge|SENDING_APP|SENDING_FAC|"));
    assert!(ack.contains("|ACK^A01|"));
    let segments: Vec<&str> = ack.split('\r').collect();
    assert_eq!(segments.len(), 2);
    assert_eq!(segments[1], "MSA|AA|MSG00001");
    assert!(ack.ends_with("|P|2.5\rMSA|AA|MSG00001"));
}

#[test]
fn rendered_ack_is_exact() {
    let msg = parse_message(SAMPLE_ADT, "127.0.0.1:9999").unwrap();
    let ack = render_ack(&msg, "AE", "20240102030405", "0123456789abcdef0123");
    assert_eq!(
        ack,
        "MSH|^~\\&|HL7Forge|HL7Forge|SENDING_APP|SENDING_FAC|20240102030405||ACK^A01|0123456789abcdef0123|P|2.5\rMSA|AE|MSG00001"
    );
}

#[test]
fn ack_parses_back_to_its_own_control_id() {
    let msg = parse_message(SAMPLE_ADT, "127.0.0.1:9999").unwrap();
    let ack = build_ack(&msg, "AA");
    let back = parse_message(&ack, "local").unwrap();
    assert_eq!(back.message_control_id.len(), 20);
    assert!(back.message_control_id.chars().all(|c| c.is_ascii_hexdigit()));
    assert_eq!(back.message_type, "ACK^A01");
    assert_eq!(back.version, "2.5");
    assert_eq!(back.sending_application, "HL7Forge");
    assert_eq!(back.receiving_application, "SENDING_APP");
    assert_eq!(get_field_value(&back.segments[1], 2), "MSG00001");
    assert_eq!(get_field_value(&back.segments[1], 1), "AA");
    let fixed = render_ack(&msg, "AA", "20240102030405", "0123456789abcdef0123");
    let again = parse_message(&fixed, "local").unwrap();
    assert_eq!(again.message_control_id, "0123456789abcdef0123");
}

#[test]
fn control_id_is_drawn_from_the_uuid() {
    assert_eq!(
        mint_control_id("123e4567-e89b-12d3-a456-426614174000"),
        "123e4567e89b12d3a456"
    );
    assert_eq!(mint_control_id("ab-cd"), "abcd");
    assert_eq!(mint_control_id(""), "");
}

#[test]
fn default_nack_is_exact() {
    assert_eq!(
        default_nack(),
        "MSH|^~\\&|HL7Forge|HL7Forge|||||ACK||P|2.5\rMSA|AE|UNKNOWN|Message parse error"
    );
}

#[test]
fn msh_field_one_is_the_separator() {
    let msg = parse_message(SAMPLE_ADT, "p").unwrap();
    let msh = &msg.segments[0];
    assert_eq!(msh.fields[0].index, 1);
    assert_eq!(msh.fields[0].value, "|");
    assert_eq!(msh.fields[0].components, vec!["|".to_string()]);
    assert_eq!(get_field_value(msh, 1), "|");
    assert_eq!(get_field_value(msh, 2), "^~\\&");
    assert_eq!(get_field_value(msh, 9), "ADT^A01^ADT_A01");
    assert_eq!(get_field_value(msh, 10), "MSG00001");
    assert_eq!(get_field_value(msh, 12), "2.5");
    assert_eq!(get_field_value(msh, 13), "");
    assert_eq!(msh.fields.len(), 12);

    let custom = parse_message("MSH#!~\\&#APP#FAC###20240101##ORU!R01#77#P#2.3", "p").unwrap();
    assert_eq!(get_field_value(&custom.segments[0], 1), "#");
    assert_eq!(custom.message_type, "ORU^R01");
    assert_eq!(custom.trigger_event, "R01");
    assert_eq!(custom.message_control_id, "77");
    assert_eq!(custom.version, "2.3");
    assert_eq!(custom.sending_application, "APP");
}

#[test]
fn other_segments_number_their_fields_from_one() {
    let seg = parse_segment("PID|||12345^^^HOSP||Smith^John", Delimiters::default());
    assert_eq!(seg.name, "PID");
    assert_eq!(seg.raw, "PID|||12345^^^HOSP||Smith^John");
    assert_eq!(seg.fields.len(), 5);
    assert_eq!(seg.fields[0].index, 1);
    assert_eq!(seg.fields[0].value, "");
    assert_eq!(seg.fields[0].components, vec!["".to_string()]);
    assert_eq!(seg.fields[2].index, 3);
    assert_eq!(seg.fields[2].value, "12345^^^HOSP");
    assert_eq!(
        seg.fields[2].components,
        vec!["12345".to_string(), "".to_string(), "".to_string(), "HOSP".to_string()]
    );
    assert_eq!(get_field_value(&seg, 5), "Smith^John");
    assert_eq!(get_field_value(&seg, 6), "");
    assert_eq!(get_field_value(&seg, 0), "");

    let bare = parse_segment("EVN", Delimiters::default());
    assert_eq!(bare.name, "EVN");
    assert_eq!(bare.fields.len(), 0);

    let empty = parse_segment("", Delimiters::default());
    assert_eq!(empty.name, "");
    assert_eq!(empty.fields.len(), 0);
}

#[test]
fn default_delimiters_are_the_recommended_ones() {
    let d = Delimiters::default();
    assert_eq!(d.field, '|');
    assert_eq!(d.component, '^');
    assert_eq!(d.repetition, '~');
    assert_eq!(d.escape, '\\');
    assert_eq!(d.subcomponent, '&');
}

#[test]
fn delimiters_are_read_from_the_header() {
    let d = parse_delimiters("MSH#!*?%#X").unwrap();
    assert_eq!(d.field, '#');
    assert_eq!(d.component, '!');
    assert_eq!(d.repetition, '*');
    assert_eq!(d.escape, '?');
    assert_eq!(d.subcomponent, '%');
    assert_eq!(
        parse_delimiters("MSH|^~\\"),
        Err("MSH segment too short to extract delimiters".to_string())
    );
    assert!(parse_delimiters("MSH|^~\\&").is_ok());
}

#[test]
fn each_refusal_has_its_text() {
    assert_eq!(parse_message("", "p").unwrap_err(), "Empty message");
    assert_eq!(parse_message(" \r\n\t ", "p").unwrap_err(), "Empty message");
    assert_eq!(parse_message("JUNK", "p").unwrap_err(), "Message does not start with MSH");
    assert_eq!(parse_message("MS", "p").unwrap_err(), "Message does not start with MSH");
    assert_eq!(
        parse_message("PID|||1\rMSH|^~\\&|A", "p").unwrap_err(),
        "Message does not start with MSH"
    );
    assert_eq!(
        parse_message("MSH|^~\\", "p").unwrap_err(),
        "MSH segment too short to extract delimiters"
    );
    assert_eq!(
        parse_message("  MSH|^~  ", "p").unwrap_err(),
        "MSH segment too short to extract delimiters"
    );
    assert!(parse_message("MSH|^~\\&", "p").is_ok());
}

#[test]
fn surrounding_whitespace_is_trimmed() {
    let msg = parse_message("\r\n  MSH|^~\\&|A|B\r\n\u{a0}", "p").unwrap();
    assert_eq!(msg.raw, "MSH|^~\\&|A|B");
    assert_eq!(msg.segments.len(), 1);
    assert_eq!(msg.sending_application, "A");
    assert_eq!(msg.sending_facility, "B");
}

#[test]
fn line_feeds_and_blank_lines_are_tolerated() {
    let msg =
        parse_message("MSH|^~\\&|A|B|||||ADT|9|P|2.4\r\nPID|||7\n\n  \rPV1||I\r", "p").unwrap();
    assert_eq!(msg.segments.len(), 3);
    assert_eq!(msg.segments[1].name, "PID");
    assert_eq!(msg.segments[2].name, "PV1");
    assert_eq!(msg.message_type, "ADT");
    assert_eq!(msg.trigger_event, "");
    assert_eq!(msg.patient_id, Some("7".to_string()));
    assert_eq!(msg.patient_name, None);
}

#[test]
fn patient_fields_follow_the_pid_segment() {
    let none = parse_message("MSH|^~\\&|A|B|||||ADT^A08|9|P|2.4\rPV1||I", "p").unwrap();
    assert_eq!(none.patient_id, None);
    assert_eq!(none.patient_name, None);

    let family = parse_message("MSH|^~\\&|A\rPID|||||Jones", "p").unwrap();
    assert_eq!(family.patient_id, None);
    assert_eq!(family.patient_name, Some("Jones".to_string()));

    let blank_given = parse_message("MSH|^~\\&|A\rPID|||^X||Jones^", "p").unwrap();
    assert_eq!(blank_given.patient_id, Some("".to_string()));
    assert_eq!(blank_given.patient_name, Some("Jones, ".to_string()));

    let first_pid = parse_message("MSH|^~\\&|A\rPID|||1\rPID|||2", "p").unwrap();
    assert_eq!(first_pid.patient_id, Some("1".to_string()));
}

#[test]
fn lossy_text_still_parses() {
    let msg = parse_message("MSH|^~\\&|A\u{FFFD}B|C", "p").unwrap();
    assert_eq!(msg.sending_application, "A\u{FFFD}B");
    assert_eq!(msg.sending_facility, "C");
}

#[test]
fn a_wide_character_in_the_header_is_read_byte_by_byte() {
    let msg = parse_message("MSH\u{e9}^~\\&", "p");
    let msg = msg.unwrap();
    assert_eq!(msg.segments.len(), 1);
    assert_eq!(msg.segments[0].name, "MSH\u{e9}^~\\&");
    let short = parse_message("MSH\u{e9}^~", "p");
    assert_eq!(short.unwrap_err(), "MSH segment too short to extract delimiters");
}

#[test]
fn identity_and_time_are_taken_as_given() {
    let msg = parse_with(SAMPLE_ADT, "peer", "my-id".to_string(), 1_700_000_000).unwrap();
    assert_eq!(msg.id, "my-id");
    assert_eq!(msg.received_at, 1_700_000_000);
    let again = parse_with(SAMPLE_ADT, "peer", "my-id".to_string(), 1_700_000_000).unwrap();
    assert_eq!(again.segments.len(), msg.segments.len());
    assert_eq!(again.message_type, msg.message_type);
}

#[test]
fn fresh_messages_differ_in_identity() {
    let a = Hl7Message::new_empty("raw".to_string(), "peer".to_string());
    let b = Hl7Message::new_empty("raw".to_string(), "peer".to_string());
    assert_ne!(a.id, b.id);
    assert_eq!(a.raw, "raw");
    assert_eq!(a.source_addr, "peer");
    assert_eq!(a.message_type, "");
    assert!(a.segments.is_empty());
    assert_eq!(a.patient_id, None);
    assert_eq!(a.id.len(), 36);
    assert_eq!(a.id.as_bytes()[8], b'-');
    assert_eq!(a.id.as_bytes()[23], b'-');
    assert!(a.received_at > 1_600_000_000);
}

#[test]
fn summary_projects_the_message() {
    let msg = parse_with(SAMPLE_ADT, "peer", "my-id".to_string(), 42).unwrap();
    let s = Hl7MessageSummary::of(&msg);
    assert_eq!(s.id, "my-id");
    assert_eq!(s.received_at, 42);
    assert_eq!(s.source_addr, "peer");
    assert_eq!(s.message_type, "ADT^A01");
    assert_eq!(s.trigger_event, "A01");
    assert_eq!(s.message_control_id, "MSG00001");
    assert_eq!(s.sending_facility, "SENDING_FAC");
    assert_eq!(s.patient_name, Some("Smith, John".to_string()));
    assert_eq!(s.patient_id, Some("12345".to_string()));
    assert_eq!(s.segment_count, 3);
    assert_eq!(s.parse_error, None);
    let copy = msg.clone();
    assert_eq!(copy.id, msg.id);
    assert_eq!(copy.segments.len(), 3);
    assert_eq!(copy.segments[1].fields[2].components[3], "HOSP");
}

#[test]
fn ack_carries_a_time_stamp_and_a_fresh_control_id() {
    let msg = parse_message(SAMPLE_ADT, "127.0.0.1:9999").unwrap();
    let ack = build_ack(&msg, "AA");
    let header: Vec<&str> = ack.split('\r').next().unwrap().split('|').collect();
    assert_eq!(header.len(), 12);
    assert_eq!(header[6].len(), 14);
    assert!(header[6].chars().all(|c| c.is_ascii_digit()));
    assert!(header[6].starts_with("20"));
    assert_eq!(header[7], "");
    assert_eq!(header[8], "ACK^A01");
    assert_eq!(header[9].len(), 20);
    assert_eq!(header[10], "P");
    assert_eq!(header[11], "2.5");
    let other = build_ack(&msg, "AR");
    let other_header: Vec<&str> = other.split('\r').next().unwrap().split('|').collect();
    assert_ne!(header[9], other_header[9]);
    assert!(other.ends_with("\rMSA|AR|MSG00001"));
}

#[test]
fn summary_comes_from_a_message_by_conversion() {
    let msg = parse_with(SAMPLE_ADT, "peer", "my-id".to_string(), 42).unwrap();
    let s = Hl7MessageSummary::from(&msg);
    assert_eq!(s.id, "my-id");
    assert_eq!(s.segment_count, 3);
    assert_eq!(s.patient_id, Some("12345".to_string()));
    let t = s.clone();
    assert_eq!(t.message_type, "ADT^A01");
    assert_eq!(t.received_at, 42);
}
