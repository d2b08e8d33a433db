//! The decisions of a session.

use cladst::decode::OutputFormat;
use cladst::session::{
    batch_size, choose_finish, choose_target, choose_task, output_format, shows_progress, Finish,
    Target, Task,
};

#[test]
fn tasks() {
    assert_eq!(choose_task(true, true, false, false), Ok(Task::Test));
    assert_eq!(choose_task(true, false, true, true), Ok(Task::Decode));
    assert_eq!(choose_task(true, false, false, false), Ok(Task::Reencode));
    assert_eq!(choose_task(false, false, false, true), Ok(Task::Encode));
    assert_eq!(
        choose_task(true, true, false, true),
        Err("Output file is not used in test mode".to_string())
    );
    assert_eq!(
        choose_task(false, true, false, false),
        Err("Test mode requires a DST-compressed DSDIFF file".to_string())
    );
    assert_eq!(
        choose_task(false, false, true, false),
        Err("Decode mode requires a DST-compressed DSDIFF file".to_string())
    );
}

#[test]
fn formats_by_extension() {
    assert_eq!(output_format(Some("dff")), OutputFormat::DsdiffUncompressed);
    assert_eq!(output_format(Some("DFF")), OutputFormat::Dsf);
    assert_eq!(output_format(Some("cladst")), OutputFormat::Dsf);
    assert_eq!(output_format(None), OutputFormat::Dsf);
}

#[test]
fn targets() {
    assert_eq!(choose_target(false, true, false), Target::Refused);
    assert_eq!(choose_target(false, true, true), Target::Refused);
    assert_eq!(choose_target(true, true, true), Target::Temporary);
    assert_eq!(choose_target(true, true, false), Target::Direct);
    assert_eq!(choose_target(false, false, false), Target::Direct);
    assert_eq!(choose_finish(true, true), Finish::Remove);
    assert_eq!(choose_finish(false, true), Finish::Rename);
    assert_eq!(choose_finish(false, false), Finish::Keep);
}

#[test]
fn progress_and_batches() {
    assert!(shows_progress(99, 1000));
    assert!(!shows_progress(100, 1000));
    assert!(shows_progress(41, 42));
    assert_eq!(batch_size(None), 1);
    assert_eq!(batch_size(Some(8)), 16);
}
