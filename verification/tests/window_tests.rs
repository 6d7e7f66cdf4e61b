use pvz_overlay::window::{
    message_action, overlay_origin, MessageAction, FRAME_OFFSET_X, FRAME_OFFSET_Y, OVERLAY_HEIGHT,
    OVERLAY_WIDTH, WM_DESTROY, WM_PAINT,
};

#[test]
fn destroy_quits_and_paint_is_ignored() {
    assert_eq!(message_action(WM_DESTROY), MessageAction::QuitAndAnswerZero);
    assert_eq!(message_action(0x0002), MessageAction::QuitAndAnswerZero);
    assert_eq!(message_action(WM_PAINT), MessageAction::AnswerZero);
    assert_eq!(message_action(0x000F), MessageAction::AnswerZero);
    assert_eq!(message_action(0x0001), MessageAction::PassToDefault);
    assert_eq!(message_action(0x0010), MessageAction::PassToDefault);
}

#[test]
fn overlay_sits_on_the_client_area() {
    assert_eq!((FRAME_OFFSET_X, FRAME_OFFSET_Y), (3, 32));
    assert_eq!((OVERLAY_WIDTH, OVERLAY_HEIGHT), (800, 600));
    assert_eq!(overlay_origin(100, 50), Some((103, 82)));
    assert_eq!(overlay_origin(-3, -32), Some((0, 0)));
    assert_eq!(overlay_origin(i32::MIN, i32::MIN), Some((i32::MIN + 3, i32::MIN + 32)));
}

#[test]
fn overlay_origin_overflow() {
    assert_eq!(overlay_origin(i32::MAX - 3, 0), Some((i32::MAX, 32)));
    assert_eq!(overlay_origin(i32::MAX - 2, 0), None);
    assert_eq!(overlay_origin(0, i32::MAX - 31), None);
}
