//! Which private streams of a service are carried.
use mpeg2toh264::container::mpegts::descriptors::{select_private_streams, PrivateStream};

#[test]
fn prefers_default_caption_and_superimpose_component_tags() {
    let streams = vec![
        (0x131, Some(0x31)),
        (0x139, Some(0x39)),
        (0x130, Some(0x30)),
        (0x138, Some(0x38)),
    ];
    assert_eq!(
        select_private_streams(streams),
        [
            PrivateStream {
                is_async: false,
                pid: 0x130
            },
            PrivateStream {
                is_async: true,
                pid: 0x138
            }
        ]
    );
}

#[test]
fn falls_back_to_the_first_component_of_each_kind() {
    let streams = vec![
        (0x132, Some(0x32)),
        (0x131, Some(0x31)),
        (0x13a, Some(0x3a)),
        (0x139, Some(0x39)),
    ];
    assert_eq!(
        select_private_streams(streams),
        [
            PrivateStream {
                is_async: false,
                pid: 0x132
            },
            PrivateStream {
                is_async: true,
                pid: 0x13a
            }
        ]
    );
}

#[test]
fn ignores_private_data_without_a_caption_or_superimpose_tag() {
    let streams = vec![(0x120, None), (0x121, Some(0x40))];
    assert!(select_private_streams(streams).is_empty());
}
