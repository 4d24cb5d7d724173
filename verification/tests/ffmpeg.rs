use exportsnap::export::ffmpeg::{argv, judged, FfmpegError};

fn spelled(main: &str, overlay: Option<&str>, output: &str) -> Vec<String> {
    argv(main, overlay, output)
}

#[test]
fn the_output_path_is_always_behind_an_end_of_options_terminator() {
    let args = spelled("/in/a.mp4", None, "-weird/out/x.mp4");
    let terminator = args.iter().position(|arg| arg == "--").expect("no -- in the argument vector");
    assert_eq!(args[terminator + 1], "-weird/out/x.mp4", "the output must be the argument straight after the terminator");
    assert_eq!(terminator + 2, args.len(), "nothing may follow the output, or it would be read as one more option");
}

#[test]
fn both_inputs_are_named_by_their_own_flag_rather_than_by_position() {
    let args = spelled("/in/main.mp4", Some("/in/over.png"), "/out/x.mp4");
    let inputs: Vec<&String> = args.iter().enumerate().filter(|(at, _)| *at > 0 && args[at - 1] == "-i").map(|(_, arg)| arg).collect();
    assert_eq!(inputs, ["/in/main.mp4", "/in/over.png"], "{args:?}");
    let graph = args.iter().find(|arg| arg.contains("scale2ref")).expect("no filter graph");
    assert!(graph.starts_with("[1:v][0:v]scale2ref"), "{graph}");
}

fn carries(args: &[String], flag: &str, value: &str) -> bool {
    args.windows(2).any(|window| window[0] == flag && window[1] == value)
}

#[test]
fn a_run_with_no_overlay_builds_no_filter_graph_at_all() {
    let args = spelled("/in/main.mp4", None, "/out/x.mp4");
    assert!(!args.iter().any(|arg| arg == "-filter_complex"), "{args:?}");
    assert!(carries(&args, "-map", "0:v:0"), "{args:?}");
    assert!(carries(&args, "-map", "0:a:0?"), "{args:?}");
}

#[test]
fn the_encode_is_pinned_to_what_the_transcode_exists_to_produce() {
    let args = spelled("/in/main.mp4", None, "/out/x.mp4");
    for (flag, value) in [("-c:v", "libx264"), ("-pix_fmt", "yuv420p"), ("-c:a", "copy"), ("-movflags", "+faststart")] {
        assert!(carries(&args, flag, value), "{flag} {value} missing from {args:?}");
    }
}

#[test]
fn an_encode_that_ended_badly_says_so() {
    assert_eq!(judged(true, "/in/main.mp4", "noise"), Ok(()));
    let failed: FfmpegError = judged(false, "/in/main.mp4", "noise\nmoov atom not found").unwrap_err();
    assert!(failed.message().contains("/in/main.mp4"), "{}", failed.message());
}
