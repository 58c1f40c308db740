use bytes::Bytes;
use rtp::extension::abs_send_time_extension::AbsSendTimeExtension;
use rtp::extension::audio_level_extension::AudioLevelExtension;
use rtp::extension::playout_delay_extension::PlayoutDelayExtension;
use rtp::extension::transport_cc_extension::TransportCcExtension;
use rtp::extension::video_orientation_extension as orientation;
use rtp::extension::HeaderExtension as Outside;
use track_local::header_extension::{
    CameraDirection, ExtensionData, HeaderExtension, MarshalError, VideoRotation,
};

fn marshaled(extension: HeaderExtension) -> Vec<u8> {
    extension.marshal().unwrap().to_vec()
}

#[test]
fn extensions_are_marshaled_to_their_bytes() {
    assert_eq!(
        marshaled(HeaderExtension::AbsSendTime { timestamp: 0x12_3456 }),
        vec![0x12, 0x34, 0x56]
    );
    assert_eq!(
        marshaled(HeaderExtension::AbsSendTime { timestamp: 0xFF_0012_3456 }),
        vec![0x12, 0x34, 0x56]
    );
    assert_eq!(
        marshaled(HeaderExtension::AudioLevel { level: 8, voice: true }),
        vec![0x88]
    );
    assert_eq!(
        marshaled(HeaderExtension::AudioLevel { level: 127, voice: false }),
        vec![0x7F]
    );
    assert_eq!(
        marshaled(HeaderExtension::PlayoutDelay { min_delay: 0x123, max_delay: 0x456 }),
        vec![0x12, 0x34, 0x56]
    );
    assert_eq!(
        marshaled(HeaderExtension::TransportCc { transport_sequence: 0xABCD }),
        vec![0xAB, 0xCD]
    );
    assert_eq!(
        marshaled(HeaderExtension::VideoOrientation {
            direction: CameraDirection::Back,
            flip: true,
            rotation: VideoRotation::Degree270,
        }),
        vec![0b1111]
    );
    assert_eq!(
        marshaled(HeaderExtension::VideoOrientation {
            direction: CameraDirection::Front,
            flip: false,
            rotation: VideoRotation::Degree90,
        }),
        vec![0b0001]
    );
    assert_eq!(
        marshaled(HeaderExtension::VideoOrientation {
            direction: CameraDirection::Front,
            flip: true,
            rotation: VideoRotation::Degree180,
        }),
        vec![0b0110]
    );
    assert_eq!(
        marshaled(HeaderExtension::VideoOrientation {
            direction: CameraDirection::Back,
            flip: false,
            rotation: VideoRotation::Degree0,
        }),
        vec![0b1000]
    );
    assert_eq!(
        marshaled(HeaderExtension::Custom {
            uri: "x".to_owned(),
            marshaled: Ok(Bytes::from_static(&[7, 8])),
        }),
        vec![7, 8]
    );
}

#[test]
fn values_that_do_not_fit_are_refused() {
    assert!(matches!(
        HeaderExtension::AudioLevel { level: 128, voice: false }.marshal(),
        Err(MarshalError::AudioLevelOverflow)
    ));
    assert!(matches!(
        HeaderExtension::PlayoutDelay { min_delay: 0x1000, max_delay: 0 }.marshal(),
        Err(MarshalError::PlayoutDelayOverflow)
    ));
    assert!(matches!(
        HeaderExtension::PlayoutDelay { min_delay: 0, max_delay: 0x1000 }.marshal(),
        Err(MarshalError::PlayoutDelayOverflow)
    ));
    assert_eq!(
        marshaled(HeaderExtension::PlayoutDelay { min_delay: 0xFFF, max_delay: 0xFFF }),
        vec![0xFF, 0xFF, 0xFF]
    );
    match (HeaderExtension::Custom { uri: "x".to_owned(), marshaled: Err("no".to_owned()) }).marshal() {
        Err(MarshalError::Custom(message)) => assert_eq!(message, "no"),
        _ => panic!("the error was lost"),
    }
}

#[test]
fn uris_are_those_of_the_extension_crates() {
    assert_eq!(
        HeaderExtension::AbsSendTime { timestamp: 0 }.uri(),
        Outside::AbsSendTime(AbsSendTimeExtension { timestamp: 0 }).uri()
    );
    assert_eq!(
        HeaderExtension::AudioLevel { level: 0, voice: false }.uri(),
        Outside::AudioLevel(AudioLevelExtension { level: 0, voice: false }).uri()
    );
    assert_eq!(
        HeaderExtension::PlayoutDelay { min_delay: 0, max_delay: 0 }.uri(),
        Outside::PlayoutDelay(PlayoutDelayExtension { min_delay: 0, max_delay: 0 }).uri()
    );
    assert_eq!(
        HeaderExtension::TransportCc { transport_sequence: 0 }.uri(),
        Outside::TransportCc(TransportCcExtension { transport_sequence: 0 }).uri()
    );
    assert_eq!(
        HeaderExtension::VideoOrientation {
            direction: CameraDirection::Front,
            flip: false,
            rotation: VideoRotation::Degree0,
        }
        .uri(),
        Outside::VideoOrientation(orientation::VideoOrientationExtension {
            direction: orientation::CameraDirection::Front,
            flip: false,
            rotation: orientation::VideoRotation::Degree0,
        })
        .uri()
    );
    assert_eq!(
        HeaderExtension::Custom { uri: "x".to_owned(), marshaled: Err(String::new()) }.uri(),
        "x"
    );
}

#[test]
fn marshaling_a_list_collects_the_errors_in_order() {
    let (_, errors) = ExtensionData::marshal(&[
        HeaderExtension::AudioLevel { level: 200, voice: false },
        HeaderExtension::TransportCc { transport_sequence: 1 },
        HeaderExtension::Custom { uri: "x".to_owned(), marshaled: Err("no".to_owned()) },
    ]);
    assert_eq!(errors.len(), 2);
    assert!(matches!(errors[0], MarshalError::AudioLevelOverflow));
    assert!(matches!(errors[1], MarshalError::Custom(_)));
    let (_, errors) = ExtensionData::marshal(&[]);
    assert!(errors.is_empty());
}
