use omegat_core::align::{edit_pairs, edit_pairs_sided, AlignSettings, AlignSide};
use omegat_core::store::StringMap;

fn p(a: &str, b: &str) -> (String, String) {
    (a.to_string(), b.to_string())
}

#[test]
fn edit_merge_split_move() {
    let pairs = vec![p("a", "A"), p("b", "B"), p("c", "C")];
    let merged = edit_pairs(&pairs, "merge", 0);
    assert_eq!(merged.len(), 2);
    assert_eq!(merged[0], p("a b", "A B"));
    let split = edit_pairs(&merged, "split", 0);
    assert_eq!(split.len(), 3);
    let down = edit_pairs(&pairs, "down", 0);
    assert_eq!(down[0].0, "b");
    let up = edit_pairs(&pairs, "up", 1);
    assert_eq!(up[0].0, "b");
}

#[test]
fn manual_edits_respect_the_selected_bitext_side() {
    let pairs = vec![p("one", "un"), p("two", "deux"), p("three four", "trois quatre")];
    assert_eq!(
        edit_pairs_sided(&pairs, "merge", 0, AlignSide::Source),
        vec![p("one two", "un"), p("", "deux"), p("three four", "trois quatre")]
    );
    assert_eq!(
        edit_pairs_sided(&pairs, "down", 0, AlignSide::Target),
        vec![p("one", "deux"), p("two", "un"), p("three four", "trois quatre")]
    );
    assert_eq!(
        edit_pairs_sided(&pairs, "split", 2, AlignSide::Source),
        vec![p("one", "un"), p("two", "deux"), p("three", "trois quatre"), p("four", "")]
    );
}

#[test]
fn unknown_action_leaves_pairs_alone() {
    let pairs = vec![p("a", "A"), p("b", "B")];
    assert_eq!(edit_pairs(&pairs, "nothing", 0), pairs);
    assert_eq!(edit_pairs(&pairs, "merge", 5), pairs);
}

#[test]
fn restore_after_persist_gives_settings_back() {
    let s = AlignSettings {
        algorithm: "forward-backward".into(),
        calculator: "poisson".into(),
        counter: "char".into(),
        segment: false,
        remove_tags: true,
    };
    let mut store = StringMap::new();
    store.insert("aligner_segment", "true");
    s.persist(&mut store);
    let r = AlignSettings::restore(&store);
    assert_eq!(r.algorithm, "forward-backward");
    assert_eq!(r.calculator, "poisson");
    assert_eq!(r.counter, "char");
    assert!(!r.segment);
    assert!(r.remove_tags);
    let d = AlignSettings::restore(&StringMap::new());
    assert_eq!(d.algorithm, "viterbi");
    assert_eq!(d.calculator, "normal");
    assert_eq!(d.counter, "word");
    assert!(d.segment);
    assert!(!d.remove_tags);
}
