//! Taking transport streams apart.
use mpeg2toh264::container::mpegts::descriptors::AudioStream;
use mpeg2toh264::container::mpegts::packet::{payload_at, sync_offset};
use mpeg2toh264::container::mpegts::pes::{
    is_pes_start, pes_packet_length, pes_payload, pes_pts,
};
use mpeg2toh264::container::mpegts::section::SectionAssembler;
use mpeg2toh264::container::mpegts::{
    extract_mpeg2_video_es, first_pts, is_mpeg_transport_stream, last_pts, ElementaryKind,
    ElementaryPacket, MpegTsAvDemuxer,
};
use mpeg2toh264::error::Error;

/// One 188-byte packet: the payload behind an adaptation field that fills it up.
fn packet(pid: u16, start: bool, counter: u8, payload: &[u8]) -> Vec<u8> {
    let mut out = vec![
        0x47,
        (u8::from(start) << 6) | (pid >> 8) as u8,
        (pid & 0xff) as u8,
    ];
    let room = 184;
    if payload.len() == room {
        out.push(0x10 | counter);
    } else {
        out.push(0x30 | counter);
        let fill = room - payload.len() - 1;
        out.push(fill as u8);
        if fill > 0 {
            out.push(0);
            out.extend(vec![0xff; fill - 1]);
        }
    }
    out.extend_from_slice(payload);
    assert_eq!(out.len(), 188);
    out
}

/// A section behind its pointer field.
fn section(table_id: u8, body: &[u8]) -> Vec<u8> {
    let length = body.len() + 4;
    let mut out = vec![0, table_id, 0xb0 | (length >> 8) as u8, length as u8];
    out.extend_from_slice(body);
    out.extend_from_slice(&[0; 4]);
    out
}

fn association(programs: &[(u16, u16)]) -> Vec<u8> {
    let mut body = vec![0, 1, 0xc1, 0, 0];
    for &(service, pid) in programs {
        body.extend_from_slice(&service.to_be_bytes());
        body.extend_from_slice(&(0xe000 | pid).to_be_bytes());
    }
    section(0, &body)
}

fn program(service: u16, streams: &[(u8, u16)]) -> Vec<u8> {
    let mut body = service.to_be_bytes().to_vec();
    body.extend_from_slice(&[0xc1, 0, 0, 0xe1, 0x00, 0xf0, 0]);
    for &(kind, pid) in streams {
        body.push(kind);
        body.extend_from_slice(&(0xe000 | pid).to_be_bytes());
        body.extend_from_slice(&[0xf0, 0]);
    }
    section(2, &body)
}

fn pes(stream_id: u8, pts: u64, payload: &[u8]) -> Vec<u8> {
    let mut out = vec![0, 0, 1, stream_id, 0, 0, 0x80, 0x80, 5];
    out.push(0x21 | ((pts >> 29) & 0x0e) as u8);
    out.push((pts >> 22) as u8);
    out.push(0x01 | ((pts >> 14) & 0xfe) as u8);
    out.push((pts >> 7) as u8);
    out.push(0x01 | ((pts << 1) & 0xfe) as u8);
    out.extend_from_slice(payload);
    out
}

fn transport() -> Vec<u8> {
    let mut out = Vec::new();
    out.extend(packet(0, true, 0, &association(&[(1, 0x100)])));
    out.extend(packet(0x100, true, 0, &program(1, &[(2, 0x101), (0x0f, 0x102)])));
    out.extend(packet(0x101, true, 0, &pes(0xe0, 90_000, b"first")));
    out.extend(packet(0x102, true, 0, &pes(0xc0, 91_000, b"sound")));
    out.extend(packet(0x101, false, 1, b" and more"));
    out.extend(packet(0x101, true, 2, &pes(0xe0, 93_003, b"second")));
    out
}

fn drain(demuxer: &mut MpegTsAvDemuxer, data: &[u8], chunk: usize) -> Vec<ElementaryPacket> {
    let mut out = Vec::new();
    for piece in data.chunks(chunk) {
        out.extend(demuxer.push(piece).unwrap());
    }
    out.extend(demuxer.finish().unwrap());
    out
}

fn told(packets: &[ElementaryPacket]) -> Vec<(ElementaryKind, u16, Vec<u8>, Option<u64>)> {
    packets
        .iter()
        .map(|packet| (packet.kind, packet.pid, packet.data.clone(), packet.pts))
        .collect()
}

#[test]
fn a_service_is_found_and_its_packets_put_together() {
    let mut demuxer = MpegTsAvDemuxer::new();
    let packets = drain(&mut demuxer, &transport(), 4096);
    assert_eq!(demuxer.service_id(), Some(1));
    assert_eq!(demuxer.service_ids(), &[1]);
    assert!(demuxer.has_aac_audio());
    assert_eq!(demuxer.audio_pid(), Some(0x102));
    assert_eq!(demuxer.audio_streams().len(), 1);
    assert_eq!((demuxer.scrambled(), demuxer.dropped(), demuxer.errors()), (0, 0, 0));
    let video: Vec<_> = packets
        .iter()
        .filter(|packet| packet.kind == ElementaryKind::Video)
        .collect();
    assert_eq!(video[0].data, b"first and more");
    assert_eq!(video[0].pts, Some(90_000));
    assert_eq!(video[1].data, b"second");
    let sound = packets
        .iter()
        .find(|packet| packet.kind == ElementaryKind::Audio)
        .unwrap();
    assert_eq!(sound.data, b"sound");
    assert_eq!(sound.pts, Some(91_000));
}

#[test]
fn where_the_chunks_are_cut_does_not_matter() {
    let data = transport();
    let whole = told(&drain(&mut MpegTsAvDemuxer::new(), &data, data.len()));
    for chunk in [1, 7, 97, 188, 189, 400] {
        assert_eq!(
            told(&drain(&mut MpegTsAvDemuxer::new(), &data, chunk)),
            whole,
            "chunks of {chunk}"
        );
    }
}

#[test]
fn the_named_service_is_taken() {
    let mut data = Vec::new();
    data.extend(packet(0, true, 0, &association(&[(1, 0x100), (2, 0x200)])));
    data.extend(packet(0x100, true, 0, &program(1, &[(2, 0x101)])));
    data.extend(packet(0x200, true, 0, &program(2, &[(2, 0x201)])));
    data.extend(packet(0x101, true, 0, &pes(0xe0, 1, b"one")));
    data.extend(packet(0x201, true, 0, &pes(0xe0, 2, b"two")));
    let mut demuxer = MpegTsAvDemuxer::for_service(Some(2));
    let packets = drain(&mut demuxer, &data, 188);
    assert_eq!(packets.len(), 1);
    assert_eq!(packets[0].data, b"two");
    assert_eq!(packets[0].pid, 0x201);
    assert_eq!(demuxer.service_ids(), &[1, 2]);
}

#[test]
fn lost_scrambled_and_damaged_packets_are_counted() {
    let mut data = transport();
    let lost = packet(0x101, false, 7, b"behind a gap");
    let mut scrambled = packet(0x101, false, 8, b"x");
    scrambled[3] |= 0x80;
    let mut damaged = packet(0x101, false, 9, b"x");
    damaged[1] |= 0x80;
    data.extend(lost);
    data.extend(scrambled);
    data.extend(damaged);
    let mut demuxer = MpegTsAvDemuxer::new();
    drain(&mut demuxer, &data, 188);
    assert!(demuxer.dropped() > 0);
    assert_eq!(demuxer.scrambled(), 1);
    assert_eq!(demuxer.errors(), 1);
}

#[test]
fn the_sound_can_be_changed() {
    let mut head = Vec::new();
    head.extend(packet(0, true, 0, &association(&[(1, 0x100)])));
    head.extend(packet(
        0x100,
        true,
        0,
        &program(1, &[(2, 0x101), (0x0f, 0x102), (0x0f, 0x103)]),
    ));
    head.extend(packet(0x101, true, 0, &pes(0xe0, 9, b"v")));
    let mut demuxer = MpegTsAvDemuxer::new();
    demuxer.push(&head).unwrap();
    assert_eq!(demuxer.audio_pid(), Some(0x102));
    demuxer.select_audio(0x103);
    let mut tail = Vec::new();
    tail.extend(packet(0x103, true, 0, &pes(0xc0, 9, b"other")));
    tail.extend(packet(0x101, true, 1, &pes(0xe0, 10, b"w")));
    let packets = drain(&mut demuxer, &tail, 188);
    assert_eq!(demuxer.audio_pid(), Some(0x103));
    assert!(packets.iter().any(|packet| packet.data == b"other"));
}

#[test]
fn timestamps_are_found_without_taking_the_stream_apart() {
    let data = transport();
    assert!(is_mpeg_transport_stream(&data));
    assert_eq!(first_pts(&data), Some(90_000));
    assert_eq!(last_pts(&data), Some(93_003));
    assert_eq!(first_pts(b"nothing"), None);
}

#[test]
fn the_video_is_extracted() {
    assert_eq!(
        extract_mpeg2_video_es(&transport()).unwrap(),
        b"first and moresecond"
    );
}

#[test]
fn what_cannot_be_extracted_is_told_apart() {
    assert!(!is_mpeg_transport_stream(&[1; 2000]));
    assert_eq!(
        extract_mpeg2_video_es(&[1; 2000]).err(),
        Some(Error::NotTransportStream)
    );
    let mut without_program = Vec::new();
    for counter in 0..8 {
        without_program.extend(packet(0x1fff, false, counter, &[0; 10]));
    }
    assert_eq!(
        extract_mpeg2_video_es(&without_program).err(),
        Some(Error::NoProgram)
    );
    let mut without_video = Vec::new();
    without_video.extend(packet(0, true, 0, &association(&[(1, 0x100)])));
    for counter in 0..7 {
        without_video.extend(packet(0x100, true, counter, &program(1, &[(2, 0x101)])));
    }
    assert_eq!(
        extract_mpeg2_video_es(&without_video).err(),
        Some(Error::NoVideo)
    );
}

#[test]
fn sections_are_cut_by_their_lengths() {
    // Two sections in a row come out as two, however the bytes arrive.
    let mut bytes = section(2, &[1, 2, 3]);
    let other = section(2, &[4, 5]);
    bytes.extend_from_slice(&other[1..]);
    let mut assembler = SectionAssembler::new();
    let mut sections = Vec::new();
    assembler.push(&bytes, true, &mut sections);
    assert_eq!(sections.len(), 2);
    assert_eq!(sections[0].len(), 3 + 3 + 4);
    assert_eq!(sections[1].len(), 3 + 2 + 4);
}

#[test]
fn packets_are_found_behind_what_precedes_them() {
    let mut data = vec![0x47, 1, 2];
    for counter in 0..4 {
        data.extend(packet(0x101, counter == 0, counter, b"some payload"));
    }
    assert_eq!(sync_offset(&data, 4), Some(3));
    assert_eq!(sync_offset(&data, 5), None);
    assert_eq!(sync_offset(&data, 1), Some(0), "a lone sync byte is enough for one");

    let first = payload_at(&data, 3).unwrap();
    assert_eq!(first.pid, 0x101);
    assert!(first.payload_unit_start && !first.scrambled && !first.discontinuity);
    assert!(!first.transport_error_indicator);
    assert_eq!(first.continuity_counter, 0);
    assert_eq!(first.data, b"some payload");
    let third = payload_at(&data, 3 + 2 * 188).unwrap();
    assert!(!third.payload_unit_start);
    assert_eq!(third.continuity_counter, 2);
    assert!(payload_at(&data, 4).is_none(), "no sync byte there");
    data[3 + 3] = 0x20;
    assert!(payload_at(&data, 3).is_none(), "an adaptation field and nothing else");
}

#[test]
fn a_pes_packet_says_what_it_holds() {
    let mut video = pes(0xe0, 0x1_2345_6789, b"picture");
    assert_eq!(pes_pts(&video), Some(0x1_2345_6789));
    assert_eq!(pes_packet_length(&video), Some(0));
    assert!(is_pes_start(&video, ElementaryKind::Video));
    assert!(!is_pes_start(&video, ElementaryKind::Audio));
    assert!(!is_pes_start(&video[..3], ElementaryKind::Video));
    assert_eq!(pes_payload(&video, ElementaryKind::Video).unwrap(), b"picture");
    video[4..6].copy_from_slice(&[1, 2]);
    assert_eq!(pes_packet_length(&video), Some(0x102));
    video[7] = 0;
    assert_eq!(pes_pts(&video), None, "no timestamp flagged");
    for (kind, ids) in [
        (ElementaryKind::Video, [0xe0, 0xef]),
        (ElementaryKind::Audio, [0xc0, 0xdf]),
        (ElementaryKind::PrivateStream1, [0xbd, 0xbd]),
        (ElementaryKind::PrivateStream2, [0xbf, 0xbf]),
    ] {
        assert!(kind.accepts_stream_id(ids[0]) && kind.accepts_stream_id(ids[1]));
        assert!(!kind.accepts_stream_id(ids[0] - 1) && !kind.accepts_stream_id(ids[1] + 1));
    }
}

#[test]
fn descriptors_name_a_sound() {
    let mut named = vec![0x0a, 8];
    named.extend_from_slice(b"jpn\0eng\0");
    let plain = AudioStream::from_descriptors(0x110, &named);
    assert_eq!(plain.pid, 0x110);
    assert_eq!(plain.component_tag, None);
    assert!(!plain.dual_mono);
    assert_eq!(plain.languages, ["jpn", "eng"]);

    let mut bilingual = vec![0xc4, 12, 0xf2, 0x02, 0x10, 0x0f, 0xff, 0x80];
    bilingual.extend_from_slice(b"jpneng");
    let stream = AudioStream::from_descriptors(0x110, &bilingual);
    assert_eq!(stream.component_tag, Some(0x10));
    assert!(stream.dual_mono);
    assert_eq!(stream.languages, ["jpn", "eng"]);

    // The stream identifier's own tag counts for more.
    bilingual.extend_from_slice(&[0x52, 1, 0x11]);
    bilingual[7] = 0;
    let stream = AudioStream::from_descriptors(0x110, &bilingual);
    assert_eq!(stream.component_tag, Some(0x11));
    assert_eq!(stream.languages, ["jpn"]);
}

/// A service with a picture, two sounds, captions and superimposed text.
fn announced() -> Vec<u8> {
    let mut body = vec![0, 1, 0xc1, 0, 0, 0xe1, 0x00, 0xf0, 0];
    for (kind, pid, tag) in [
        (2u8, 0x101u16, 0u8),
        (0x0f, 0x102, 0x10),
        (0x0f, 0x103, 0x11),
        (6, 0x130, 0x30),
        (6, 0x138, 0x38),
    ] {
        body.push(kind);
        body.extend_from_slice(&(0xe000 | pid).to_be_bytes());
        body.extend_from_slice(&[0xf0, 3, 0x52, 1, tag]);
    }
    let mut out = packet(0, true, 0, &association(&[(1, 0x100)]));
    out.extend(packet(0x100, true, 0, &section(2, &body)));
    out
}

#[test]
fn the_end_hands_out_whatever_was_accumulating() {
    let mut data = announced();
    data.extend(packet(0x101, true, 0, &pes(0xe0, 90_000, b"picture")));
    data.extend(packet(0x102, true, 0, &pes(0xc0, 91_000, b"sound")));
    data.extend(packet(0x130, true, 0, &pes(0xbd, 92_000, b"caption")));
    let superimposed = [&[0, 0, 1, 0xbf, 0, 0][..], b"superimposed"].concat();
    data.extend(packet(0x138, true, 0, &superimposed));
    let mut demuxer = MpegTsAvDemuxer::new();
    assert!(demuxer.push(&data).unwrap().is_empty());
    assert_eq!(
        told(&demuxer.finish().unwrap()),
        [
            (ElementaryKind::Video, 0x101, b"picture".to_vec(), Some(90_000)),
            (ElementaryKind::Audio, 0x102, b"sound".to_vec(), Some(91_000)),
            (
                ElementaryKind::PrivateStream1,
                0x130,
                b"caption".to_vec(),
                Some(92_000)
            ),
            (
                ElementaryKind::PrivateStream2,
                0x138,
                b"superimposed".to_vec(),
                Some(91_000)
            ),
        ]
    );
    assert!(demuxer.finish().unwrap().is_empty(), "there is nothing left");
}

#[test]
fn the_tables_throw_away_captions_in_progress() {
    let mut data = announced();
    data.extend(packet(0x130, true, 0, &pes(0xbd, 92_000, b"caption")));
    data.extend(packet(0, true, 1, &association(&[(1, 0x100)])));
    let mut demuxer = MpegTsAvDemuxer::new();
    assert!(demuxer.push(&data).unwrap().is_empty());
    assert!(demuxer.finish().unwrap().is_empty());
}

#[test]
fn a_chosen_sound_is_read_from_the_next_chunk_on() {
    let mut demuxer = MpegTsAvDemuxer::new();
    assert!(!demuxer.has_aac_audio() && demuxer.audio_streams().is_empty());
    demuxer.push(&announced()).unwrap();
    assert!(demuxer.has_aac_audio());
    assert_eq!(demuxer.audio_pid(), Some(0x102));
    demuxer.select_audio(0x103);
    assert_eq!(demuxer.audio_pid(), Some(0x102), "not yet");
    assert!(demuxer.push(&[]).unwrap().is_empty());
    assert_eq!(demuxer.audio_pid(), Some(0x103));
    demuxer.select_audio(0x1ff);
    assert!(demuxer.push(&[]).unwrap().is_empty());
    assert_eq!(demuxer.audio_pid(), Some(0x103), "that one is not offered");
    assert_eq!(demuxer.audio_streams().len(), 2);
    assert_eq!(demuxer.service_ids(), [1]);
}

#[test]
fn a_jump_of_the_counter_counts_sixteen_more() {
    let mut data = announced();
    data.extend(packet(0x101, true, 3, &pes(0xe0, 90_000, b"one")));
    data.extend(packet(0x101, true, 6, &pes(0xe0, 93_003, b"two")));
    let mut demuxer = MpegTsAvDemuxer::new();
    demuxer.push(&data).unwrap();
    assert_eq!(demuxer.dropped(), 18);
}
