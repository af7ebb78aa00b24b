use pprz::messages::parse_dictionary;
use pprz::sim::{summarize_decoding, NameCount};
use pprz::protocol::Frame;
use pprz::sim::{frame_count, replay, MessageCount};

#[test]
fn counts_replayed_frames() {
    assert_eq!(frame_count(&[Frame::new(1, 1, vec![]), Frame::new(2, 2, vec![])]), 2);
}

#[test]
fn reports_valid_and_corrupt_recorded_frames() {
    let valid = Frame::new(1, 2, vec![3]).encode().expect("small frame encodes");
    let mut captured = valid.clone();
    captured.extend([0x99, 6, 4, 5, 0xaa, 0]);
    let report = replay(captured);
    assert_eq!(report.frames, vec![Frame::new(1, 2, vec![3])]);
    assert_eq!(report.rejected_frames, 1);
}

#[test]
fn groups_replayed_frames_by_message() {
    let bytes = [
        Frame::new(2, 5, vec![]).encode().expect("frame encodes"),
        Frame::new(1, 9, vec![]).encode().expect("frame encodes"),
        Frame::new(2, 5, vec![3]).encode().expect("frame encodes"),
    ]
    .concat();
    let report = replay(bytes);
    assert_eq!(
        report.message_counts(),
        vec![
            MessageCount { aircraft_id: 1, message_id: 9, count: 1 },
            MessageCount { aircraft_id: 2, message_id: 5, count: 2 },
        ]
    );
}

#[test]
fn replays_concatenated_frames_in_order() {
    let frames = vec![Frame::new(3, 1, vec![9, 8]), Frame::new(3, 1, vec![]), Frame::new(0, 255, vec![0x99; 5])];
    let bytes: Vec<u8> = frames.iter().flat_map(|f| f.encode().expect("frame encodes")).collect();
    let report = replay(bytes);
    assert_eq!(report.frames, frames);
    assert_eq!(report.rejected_frames, 0);
}

#[test]
fn replay_skips_noise_between_frames() {
    let mut bytes = vec![0x00, 0x42];
    bytes.extend(Frame::new(7, 7, vec![1]).encode().expect("frame encodes"));
    bytes.extend([0x99, 2]);
    bytes.extend(Frame::new(8, 8, vec![]).encode().expect("frame encodes"));
    let report = replay(bytes);
    assert_eq!(report.frames, vec![Frame::new(7, 7, vec![1]), Frame::new(8, 8, vec![])]);
    assert_eq!(report.rejected_frames, 1);
}

#[test]
fn message_counts_of_empty_replay() {
    assert_eq!(replay(vec![]).message_counts(), vec![]);
}

#[test]
fn summarizes_decoding_by_name() {
    let dictionary = parse_dictionary(
        r#"<class name="telemetry">
             <message name="ZULU" id="1"><field name="x" type="uint8"/></message>
             <message name="ALPHA" id="2"/>
           </class>"#,
        "telemetry",
    )
    .expect("dictionary parses");
    let frames = vec![
        Frame::new(1, 1, vec![5]),
        Frame::new(1, 2, vec![]),
        Frame::new(1, 9, vec![]),
        Frame::new(2, 1, vec![5, 6]),
        Frame::new(2, 1, vec![7]),
    ];
    let summary = summarize_decoding(&dictionary, &frames);
    assert_eq!(
        summary.decoded_by_name,
        vec![
            NameCount { name: "ALPHA".into(), count: 1 },
            NameCount { name: "ZULU".into(), count: 2 },
        ]
    );
    assert_eq!(summary.decoded, 3);
    assert_eq!(summary.unknown, 1);
    assert_eq!(summary.malformed, 1);
}
