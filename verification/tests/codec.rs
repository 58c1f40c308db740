use track_local::codec::{
    find_negotiated_id, get_max_bitrate, is_supported, kind_of_mime_type, RTCPFeedback,
    RTCRtpCodecCapability, RTCRtpHeaderExtensionParameters, RTPCodecType,
};

#[test]
fn bitrates_follow_the_codec() {
    assert_eq!(get_max_bitrate("audio/opus"), 64_000);
    assert_eq!(get_max_bitrate("video/H264"), 1_000_000);
    assert_eq!(get_max_bitrate("video/VP8"), 1_000_000);
    assert!(is_supported("audio/opus"));
    assert!(is_supported("video/H264"));
    assert!(is_supported("video/VP8"));
    assert!(!is_supported("video/VP9"));
    assert!(!is_supported("video/vp8"));
    assert!(!is_supported(""));
}

#[test]
fn kind_follows_the_mime_type() {
    assert_eq!(kind_of_mime_type("audio/opus"), RTPCodecType::Audio);
    assert_eq!(kind_of_mime_type("audio/"), RTPCodecType::Audio);
    assert_eq!(kind_of_mime_type("video/VP8"), RTPCodecType::Video);
    assert_eq!(kind_of_mime_type("audio"), RTPCodecType::Unspecified);
    assert_eq!(kind_of_mime_type("text/plain"), RTPCodecType::Unspecified);
    assert_eq!(kind_of_mime_type(""), RTPCodecType::Unspecified);
}

#[test]
fn first_negotiated_id_counts_and_is_cut_to_a_byte() {
    let parameters = vec![
        RTCRtpHeaderExtensionParameters { uri: "a".to_owned(), id: 3 },
        RTCRtpHeaderExtensionParameters { uri: "b".to_owned(), id: 259 },
        RTCRtpHeaderExtensionParameters { uri: "a".to_owned(), id: 4 },
        RTCRtpHeaderExtensionParameters { uri: "c".to_owned(), id: -1 },
    ];
    assert_eq!(find_negotiated_id(&parameters, &"a".to_owned()), Some(3));
    assert_eq!(find_negotiated_id(&parameters, &"b".to_owned()), Some(3));
    assert_eq!(find_negotiated_id(&parameters, &"c".to_owned()), Some(255));
    assert_eq!(find_negotiated_id(&parameters, &"d".to_owned()), None);
}

#[test]
fn capabilities_are_copied_whole() {
    let capability = RTCRtpCodecCapability {
        mime_type: "video/VP8".to_owned(),
        clock_rate: 90_000,
        channels: 0,
        sdp_fmtp_line: "x=1".to_owned(),
        rtcp_feedback: vec![RTCPFeedback { typ: "nack".to_owned(), parameter: "pli".to_owned() }],
    };
    let copy = capability.clone();
    assert_eq!(copy.mime_type, "video/VP8");
    assert_eq!(copy.clock_rate, 90_000);
    assert_eq!(copy.channels, 0);
    assert_eq!(copy.sdp_fmtp_line, "x=1");
    assert_eq!(copy.rtcp_feedback.len(), 1);
    assert_eq!(copy.rtcp_feedback[0].typ, "nack");
    assert_eq!(copy.rtcp_feedback[0].parameter, "pli");
}
