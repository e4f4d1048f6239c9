use ghostdrive::transcode::{ffmpeg_args, TranscodeOptions};

#[test]
fn default_options_target_streamable_h264() {
    let opts = TranscodeOptions::default();
    assert_eq!(opts.video_codec, "libx264");
    assert_eq!(opts.video_bitrate, "2M");
    assert_eq!(opts.audio_codec, "aac");
    assert_eq!(opts.format, "mpegts");
    assert_eq!(opts.resolution.as_deref(), Some("1280x720"));
    assert_eq!(opts.frame_rate, Some(30));
}

#[test]
fn default_argument_list_is_exact() {
    let opts = TranscodeOptions::default();
    let args = ffmpeg_args(&opts, "/media/in.mkv");
    let expected: Vec<&str> = vec![
        "-hide_banner", "-loglevel", "error", "-i", "/media/in.mkv",
        "-c:v", "libx264", "-b:v", "2M",
        "-s", "1280x720", "-r", "30",
        "-preset", "veryfast", "-tune", "zerolatency",
        "-c:a", "aac", "-f", "mpegts", "pipe:1",
    ];
    assert_eq!(args, expected);
}

#[test]
fn optional_arguments_drop_out() {
    let opts = TranscodeOptions {
        video_codec: "libvpx".to_string(),
        video_bitrate: "1M".to_string(),
        audio_codec: "opus".to_string(),
        format: "webm".to_string(),
        resolution: None,
        frame_rate: None,
    };
    let args = ffmpeg_args(&opts, "in.mp4");
    let expected: Vec<&str> = vec![
        "-hide_banner", "-loglevel", "error", "-i", "in.mp4",
        "-c:v", "libvpx", "-b:v", "1M",
        "-c:a", "opus", "-f", "webm", "pipe:1",
    ];
    assert_eq!(args, expected);
}
