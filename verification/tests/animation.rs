use lib::codec::animation::{check_animation_options, check_frame_sizes, AnimationEncodeError, AnimationEncodeOptions, BrowserCodec};

#[test]
fn frame_sizes_report_the_first_wrong_frame() {
    assert!(matches!(check_frame_sizes(&[], 16), Err(AnimationEncodeError::Empty)));
    assert!(check_frame_sizes(&[16, 16, 16], 16).is_ok());
    match check_frame_sizes(&[16, 12, 20], 16) {
        Err(AnimationEncodeError::FrameSize { frame, expected, got }) => {
            assert_eq!((frame, expected, got), (1, 16, 12));
        }
        other => panic!("expected FrameSize, got {other:?}"),
    }
}

#[test]
fn options_are_checked_before_any_frame() {
    let mut o = AnimationEncodeOptions::default();
    assert!(matches!(check_animation_options(&o), Err(AnimationEncodeError::Dimension)));
    o.width = 4;
    o.height = 2;
    assert_eq!(check_animation_options(&o).unwrap(), 32);
    o.codec = BrowserCodec::Webm;
    assert!(matches!(check_animation_options(&o), Err(AnimationEncodeError::Dimension)));
    o.codec = BrowserCodec::Apng;
    o.fps = 0;
    assert!(matches!(check_animation_options(&o), Err(AnimationEncodeError::Dimension)));
}
