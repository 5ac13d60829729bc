use anim_splice::mode::{get_mode, Mode};

#[test]
fn any_batch_folder_selects_batch_mode() {
    assert_eq!(get_mode(false, false, false, true, false, false), Mode::Batch);
    assert_eq!(get_mode(false, false, false, false, true, false), Mode::Batch);
    assert_eq!(get_mode(false, false, false, false, false, true), Mode::Batch);
    // Batch folders dominate single-file arguments.
    assert_eq!(get_mode(true, true, true, true, true, true), Mode::Batch);
}

#[test]
fn single_file_arguments_select_single_mode() {
    assert_eq!(get_mode(true, false, false, false, false, false), Mode::Single);
    assert_eq!(get_mode(false, true, false, false, false, false), Mode::Single);
    assert_eq!(get_mode(false, false, true, false, false, false), Mode::Single);
}

#[test]
fn no_arguments_select_no_mode() {
    assert_eq!(get_mode(false, false, false, false, false, false), Mode::Unspecified);
}
