use omegat_core::align::beads::{
    bead_rows, beads_to_pairs, can_move_bead_row_span_to, merge_beads, move_bead_side, selection_after_bead_status, set_bead_status,
    set_beads_enabled, split_bead_line, toggle_beads_enabled, BeadRow, BeadRowSelection, MutableBead,
};
use omegat_core::align::{AlignSide, BeadStatus};

fn lines(v: &[&str]) -> Vec<Option<String>> {
    v.iter().map(|s| Some(s.to_string())).collect()
}

fn bead(score: f32, source: &[&str], target: &[&str]) -> MutableBead {
    MutableBead::from_lines(score.to_bits(), lines(source), lines(target))
}

#[test]
fn mutable_bead_matches_java_state_and_language_joining() {
    let equal = MutableBead::new("同文", "同文");
    assert_eq!(equal.enabled, false);
    assert_eq!(equal.status, BeadStatus::Accepted);
    assert_eq!(equal.is_balanced(), true);
    assert_eq!(f32::from_bits(equal.score_bits), f32::MAX);

    let mut empty = MutableBead::empty();
    assert_eq!(empty.enabled, true);
    assert_eq!(empty.status, BeadStatus::Default);
    assert_eq!(empty.is_empty(), true);
    empty.source_lines = vec![Some("一".into()), Some("二".into())];
    empty.target_lines = vec![Some("one".into()), None, Some("two".into())];
    assert_eq!(empty.source_text("ja"), "一二");
    assert_eq!(empty.target_text("en"), "one null two");
    assert_eq!(empty.is_balanced(), false);
}

#[test]
fn bead_review_status_selection_toggle_and_split() {
    let beads = vec![
        MutableBead::new("one", "un"),
        bead(1.5, &["two words"], &["deux", "mots"]),
        MutableBead::new("three", "trois"),
    ];
    let reviewed = set_bead_status(&beads, &[1], BeadStatus::NeedsReview);
    assert_eq!(reviewed[1].status, BeadStatus::NeedsReview);
    assert_eq!(reviewed[0].status, BeadStatus::Default);
    assert_eq!(
        selection_after_bead_status(&reviewed, &[0, 1, 1]),
        Some(BeadRowSelection { anchor_row: 3, focus_row: 3 })
    );
    assert_eq!(selection_after_bead_status(&reviewed, &[2]), None);
    assert_eq!(selection_after_bead_status(&reviewed, &[]), None);
    let mixed = set_beads_enabled(&reviewed, Some(&[1]), false);
    let toggled = toggle_beads_enabled(&mixed, &[0, 1, 1]);
    assert_eq!(toggled.iter().map(|b| b.enabled).collect::<Vec<_>>(), vec![false, true, true]);
    let split = split_bead_line(&reviewed, 1, AlignSide::Source, 0, &["two".into(), "words".into()]);
    assert_eq!(split[1].source_lines, lines(&["two", "words"]));
    assert_eq!(split[1].status, BeadStatus::Default);
    assert_eq!(split_bead_line(&reviewed, 1, AlignSide::Both, 0, &["a".into(), "b".into()])[1].status,
        BeadStatus::NeedsReview);
    let disabled = set_beads_enabled(&split, None, false);
    assert!(beads_to_pairs(&disabled, "en", "fr").is_empty());
    let enabled = set_beads_enabled(&disabled, None, true);
    assert_eq!(
        beads_to_pairs(&enabled, "en", "fr"),
        vec![
            ("one".to_string(), "un".to_string()),
            ("two words".to_string(), "deux mots".to_string()),
            ("three".to_string(), "trois".to_string())
        ]
    );
}

#[test]
fn bead_rows_follow_the_longer_side() {
    let beads = vec![
        bead(1.0, &["s0a", "s0b"], &["t0"]),
        bead(2.0, &["s1"], &["t1a", "t1b"]),
        MutableBead::new("s2", "t2"),
    ];
    let row = |b: usize, r: usize, s: Option<usize>, t: Option<usize>| BeadRow {
        bead_index: b,
        row_in_bead: r,
        source_line_index: s,
        target_line_index: t,
    };
    assert_eq!(
        bead_rows(&beads),
        vec![
            row(0, 0, Some(0), Some(0)),
            row(0, 1, Some(1), None),
            row(1, 0, Some(0), Some(0)),
            row(1, 1, None, Some(1)),
            row(2, 0, Some(0), Some(0)),
        ]
    );
}

#[test]
fn merging_beads_joins_lines_and_drops_emptied_beads() {
    let beads = vec![bead(1.0, &["a"], &["A"]), bead(2.0, &["b"], &["B"]), bead(3.0, &["c"], &["C"])];
    let both = merge_beads(&beads, 0, AlignSide::Both);
    assert_eq!(both.len(), 2);
    assert_eq!(both[0].source_lines, lines(&["a", "b"]));
    assert_eq!(both[0].target_lines, lines(&["A", "B"]));
    assert_eq!(f32::from_bits(both[0].score_bits), 1.0);
    let source = merge_beads(&beads, 1, AlignSide::Source);
    assert_eq!(source.len(), 3);
    assert_eq!(source[1].source_lines, lines(&["b", "c"]));
    assert!(source[2].source_lines.is_empty());
    assert_eq!(source[2].target_lines, lines(&["C"]));
    let single = vec![bead(1.0, &["a"], &[]), bead(2.0, &[], &["B"])];
    let gone = merge_beads(&single, 0, AlignSide::Target);
    assert_eq!(gone.len(), 1);
    assert_eq!(gone[0].target_lines, lines(&["B"]));
    assert_eq!(merge_beads(&beads, 2, AlignSide::Both).len(), 3);
}

#[test]
fn moving_a_side_swaps_lines_between_beads() {
    let beads = vec![bead(1.0, &["a"], &["A"]), bead(2.0, &["b"], &["B"])];
    let swapped = move_bead_side(&beads, 0, 1, AlignSide::Source);
    assert_eq!(swapped[0].source_lines, lines(&["b"]));
    assert_eq!(swapped[0].target_lines, lines(&["A"]));
    assert_eq!(swapped[1].source_lines, lines(&["a"]));
    let whole = move_bead_side(&beads, 0, 1, AlignSide::Both);
    assert_eq!(f32::from_bits(whole[0].score_bits), 2.0);
    assert_eq!(whole[1].target_lines, lines(&["A"]));
    assert_eq!(move_bead_side(&beads, 0, 5, AlignSide::Target)[0].target_lines, lines(&["A"]));
}

#[test]
fn table_drops_follow_the_transfer_rules() {
    let mut first = bead(1.0, &["a", "b"], &["A"]);
    first.status = BeadStatus::Accepted;
    let mut second = bead(2.0, &["c"], &["C", "D"]);
    second.status = BeadStatus::NeedsReview;
    let beads = vec![first, second, MutableBead::new("e", "E")];
    assert_eq!(can_move_bead_row_span_to(&beads, 1, 2, AlignSide::Source, 4), true);
    assert_eq!(can_move_bead_row_span_to(&beads, 0, 0, AlignSide::Source, 1), false, "the drop target is in the same bead");
    assert_eq!(can_move_bead_row_span_to(&beads, 0, 0, AlignSide::Source, 4), false, "a non-edge line cannot cross a bead");
    assert_eq!(can_move_bead_row_span_to(&beads, 3, 3, AlignSide::Source, 4), false, "a nullable visual cell is not transferable");
    assert_eq!(can_move_bead_row_span_to(&beads, 2, 2, AlignSide::Target, 0), true);
    assert_eq!(can_move_bead_row_span_to(&beads, 1, 2, AlignSide::Both, 4), false);
    assert_eq!(can_move_bead_row_span_to(&beads, 1, 2, AlignSide::Source, 2), false, "inside the span");
    assert_eq!(can_move_bead_row_span_to(&beads, 0, 0, AlignSide::Source, -1), true, "a new bead above");
}

#[test]
fn toggling_twice_restores_the_beads() {
    let beads = vec![bead(1.0, &["a"], &["A"]), MutableBead::new("same", "same"), bead(2.0, &["b"], &["B"])];
    let twice = toggle_beads_enabled(&toggle_beads_enabled(&beads, &[0, 1, 1]), &[1, 0]);
    assert_eq!(twice.iter().map(|b| b.enabled).collect::<Vec<_>>(), beads.iter().map(|b| b.enabled).collect::<Vec<_>>());
    assert_eq!(toggle_beads_enabled(&beads, &[1])[1].enabled, true);
}
