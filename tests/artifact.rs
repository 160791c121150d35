use orca_bot::artifact::{frame_file_name, video_size_arg};

#[test]
fn frame_names_are_zero_padded() {
    assert_eq!(frame_file_name(0), "out_00000.rgba");
    assert_eq!(frame_file_name(42), "out_00042.rgba");
    assert_eq!(frame_file_name(599), "out_00599.rgba");
    assert_eq!(frame_file_name(99999), "out_99999.rgba");
    assert_eq!(frame_file_name(123456), "out_123456.rgba");
    assert_eq!(frame_file_name(0), format!("out_{:05}.rgba", 0));
}

#[test]
fn video_size_is_width_x_height() {
    assert_eq!(video_size_arg(640, 480), "640x480");
    assert_eq!(video_size_arg(0, 7), "0x7");
    assert_eq!(video_size_arg(65535, 10), "65535x10");
}
