use clip_cli::remux::{
    advance_offsets, retime_packet, ClipProgress, PacketAction, PacketDecision, PacketEvent,
};

fn event(stream: usize, is_video: bool, is_key: bool, before_reference: bool, past_end: bool) -> PacketEvent {
    PacketEvent { stream, is_video, is_key, before_reference, past_end }
}

#[test]
fn packets_are_moved_to_the_clip_offset() {
    assert_eq!(retime_packet(Some(1000), Some(1100), 1000, 500, -1), (Some(500), Some(600)));
    assert_eq!(retime_packet(Some(900), Some(950), 1000, 0, -1), (Some(0), Some(50)));
    assert_eq!(retime_packet(None, Some(1100), 1000, 0, 40), (None, Some(100)));
    assert_eq!(retime_packet(None, Some(900), 1000, 0, 40), (None, Some(0)));
    assert_eq!(retime_packet(None, None, 1000, 0, 40), (None, None));
}

#[test]
fn decoding_times_always_grow() {
    // A packet whose moved time is not above the last written one is pushed past it,
    // and its presentation time follows.
    assert_eq!(retime_packet(Some(10), Some(30), 0, 0, 20), (Some(21), Some(41)));
    assert_eq!(retime_packet(Some(10), Some(5), 0, 0, 20), (Some(21), Some(21)));
    let mut max = -1;
    for dts in [5, 3, 3, 8, 1] {
        let (d, _) = retime_packet(Some(dts), None, 0, 0, max);
        assert!(d.unwrap() > max);
        max = d.unwrap();
    }
    assert_eq!(max, 9);
}

#[test]
fn offsets_move_past_the_written_clip() {
    let mut offsets = vec![0, 100, 7];
    advance_offsets(&mut offsets, &[250, 0, -3, 99]);
    assert_eq!(offsets, vec![251, 100, 7]);
}

#[test]
fn video_waits_for_a_keyframe() {
    let mut p = ClipProgress::new(2, 2);
    let skip = PacketDecision { adopt_reference: false, action: PacketAction::Skip };
    assert_eq!(p.step(event(0, true, false, false, false)), skip);
    assert_eq!(
        p.step(event(0, true, true, false, false)),
        PacketDecision { adopt_reference: true, action: PacketAction::Write }
    );
    assert_eq!(
        p.step(event(0, true, false, false, false)),
        PacketDecision { adopt_reference: false, action: PacketAction::Write }
    );
    // Audio before the reference is left out, later audio is written.
    assert_eq!(p.step(event(1, false, true, true, false)), skip);
    assert_eq!(
        p.step(event(1, false, true, false, false)),
        PacketDecision { adopt_reference: false, action: PacketAction::Write }
    );
}

#[test]
fn clip_stops_when_every_stream_has_ended() {
    let mut p = ClipProgress::new(2, 2);
    p.step(event(0, true, true, false, false));
    let skip = PacketDecision { adopt_reference: false, action: PacketAction::Skip };
    assert_eq!(p.step(event(0, true, false, false, true)), skip);
    // The finished stream stays finished.
    assert_eq!(p.step(event(0, true, false, false, false)), skip);
    assert_eq!(
        p.step(event(1, false, false, false, true)),
        PacketDecision { adopt_reference: false, action: PacketAction::Stop }
    );
}

#[test]
fn unmapped_streams_are_left_out() {
    let mut p = ClipProgress::new(3, 2);
    assert_eq!(
        p.step(event(2, false, true, false, false)),
        PacketDecision { adopt_reference: false, action: PacketAction::Skip }
    );
}
