use splitscreen::config::{Encoder, Input, SplitError};

#[test]
fn new_input_has_no_splits() {
    let inp = Input::new(String::from("run.mp4"));
    assert_eq!(inp.video_path, "run.mp4");
    assert!(inp.splits.is_empty());
}

#[test]
fn from_args_collects_split_lines_in_order() {
    let lines = vec![
        String::from("split 1:05"),
        String::from("title some run"),
        String::from("split 2"),
        String::from(""),
    ];
    let inp = Input::from_args(String::from("run.mp4"), &lines).unwrap();
    assert_eq!(inp.video_path, "run.mp4");
    assert_eq!(inp.splits, vec![65000, 2000]);
}

#[test]
fn from_args_rejects_a_bare_split_keyword() {
    let lines = vec![String::from("split")];
    assert!(matches!(
        Input::from_args(String::from("run.mp4"), &lines),
        Err(SplitError::MissingTime)
    ));
}

#[test]
fn from_args_rejects_an_unparsable_time() {
    let lines = vec![String::from("split nope")];
    assert!(matches!(
        Input::from_args(String::from("run.mp4"), &lines),
        Err(SplitError::InvalidTime)
    ));
}

#[test]
fn from_args_keeps_only_the_second_token() {
    let lines = vec![String::from("split 2.5 trailing words")];
    let inp = Input::from_args(String::from("run.mp4"), &lines).unwrap();
    assert_eq!(inp.splits, vec![2500]);
}

#[test]
fn the_first_failing_split_line_decides_the_error() {
    let lines = vec![String::from("split nope"), String::from("split")];
    assert!(matches!(
        Input::from_args(String::from("run.mp4"), &lines),
        Err(SplitError::InvalidTime)
    ));
    let lines = vec![String::from("split"), String::from("split nope")];
    assert!(matches!(
        Input::from_args(String::from("run.mp4"), &lines),
        Err(SplitError::MissingTime)
    ));
}

#[test]
fn encoder_args_list_the_command_line() {
    assert_eq!(
        Encoder::X264.args(),
        Some(vec!["-c:v", "libx264", "-crf", "23"])
    );
    assert_eq!(
        Encoder::NVENC.args(),
        Some(vec!["-c:v", "h264_nvenc", "-qp", "23"])
    );
    assert!(Encoder::VAAPI.args().is_some());
    assert_eq!(Encoder::AMF.args(), None);
    assert_eq!(Encoder::QSV.args(), None);
}

#[test]
fn all_encoders_in_order() {
    let all = Encoder::all();
    assert_eq!(all.len(), 5);
    assert_eq!(all[0].name(), "x264");
    assert_eq!(all[1].name(), "vaapi");
    assert_eq!(all[2].name(), "nvenc");
    assert_eq!(all[3].name(), "amf");
    assert_eq!(all[4].name(), "qsv");
}
