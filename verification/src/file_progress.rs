//! Translation progress of project files: counts, colours and columns.
use vstd::prelude::*;

verus! {

/// Translated and total unique segments of a file.
#[derive(Debug, Clone, Copy)]
pub struct FileProgress {
    pub translated: usize,
    pub total: usize,
}

impl FileProgress {
    pub fn new(translated: usize, total: usize) -> (r: Self)
        ensures
            r.translated == translated && r.total == total,
    {
        FileProgress { translated, total }
    }
}

/// The progress bar colour: red-ish when nothing is translated, blue-ish
/// when all is, green-ish in between.
pub fn progress_color(p: FileProgress) -> (r: (u8, u8, u8))
    ensures
        (p.total == 0 || p.translated == 0) ==> r == (240u8, 184u8, 180u8),
        (p.total != 0 && p.translated != 0 && p.translated == p.total) ==> r == (184u8, 204u8, 240u8),
        (p.total != 0 && p.translated != 0 && p.translated != p.total) ==> r == (183u8, 215u8, 183u8),
{
    if p.total == 0 || p.translated == 0 {
        (240, 184, 180)
    } else if p.translated == p.total {
        (184, 204, 240)
    } else {
        (183, 215, 183)
    }
}

/// A file's progress from its unique segment counts (the entry count is
/// not used).
pub fn calculate_file_progress(entries: usize, unique_translated: usize, unique_total: usize) -> (r: FileProgress)
    ensures
        r.translated == unique_translated && r.total == unique_total,
{
    FileProgress::new(unique_translated, unique_total)
}

/// The visible columns (file name, then progress when shown) as
/// (first, count).
pub fn update_progress_column(show_progress: bool) -> (r: (usize, usize))
    ensures
        r == (if show_progress { (1usize, 2usize) } else { (1usize, 1usize) }),
{
    if show_progress {
        (1, 2)
    } else {
        (1, 1)
    }
}

/// The total-row columns: the file columns in their order, then the
/// trailing margin column (6) where it is not there yet.
pub fn sync_total_columns(file_order: &[i32]) -> (r: Vec<i32>)
    ensures
        r@ == (if file_order@.contains(6) { file_order@ } else { file_order@.push(6) }),
{
    let mut out: Vec<i32> = Vec::new();
    let mut found = false;
    let mut i: usize = 0;
    while i < file_order.len()
        invariant
            i <= file_order@.len(),
            out@ == file_order@.subrange(0, i as int),
            found <==> out@.contains(6),
        decreases file_order@.len() - i,
    {
        let ghost before = out@;
        out.push(file_order[i]);
        proof {
            if before.contains(6) {
                let k = choose|k: int| 0 <= k < before.len() && before[k] == 6;
                assert(out@[k] == 6);
            }
            if out@.contains(6) && file_order@[i as int] != 6 {
                let k = choose|k: int| 0 <= k < out@.len() && out@[k] == 6;
                assert(k < before.len());
                assert(before[k] == 6);
            }
        }
        if file_order[i] == 6 {
            found = true;
            assert(out@[i as int] == 6);
        }
        i = i + 1;
    }
    assert(file_order@.subrange(0, file_order@.len() as int) =~= file_order@);
    if !found {
        out.push(6);
    }
    out
}

} // verus!
