use omegat_core::file_progress::{calculate_file_progress, progress_color, sync_total_columns, update_progress_column, FileProgress};

#[test]
fn colours_follow_progress() {
    assert_eq!(progress_color(FileProgress::new(0, 10)), (240, 184, 180));
    assert_eq!(progress_color(FileProgress::new(10, 10)), (184, 204, 240));
    assert_eq!(progress_color(FileProgress::new(3, 10)), (183, 215, 183));
    assert_eq!(progress_color(FileProgress::new(0, 0)), (240, 184, 180));
}

#[test]
fn columns_and_counts() {
    assert_eq!(update_progress_column(true), (1, 2));
    assert_eq!(update_progress_column(false), (1, 1));
    assert_eq!(sync_total_columns(&[0, 1, 2]), vec![0, 1, 2, 6]);
    assert_eq!(sync_total_columns(&[6, 1]), vec![6, 1]);
    let p = calculate_file_progress(99, 4, 7);
    assert_eq!((p.translated, p.total), (4, 7));
}
