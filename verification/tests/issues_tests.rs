use omegat_core::issues::{collect_project_issues, ProjectIssueEntry, ProjectIssueKind};

fn entries() -> Vec<ProjectIssueEntry> {
    vec![
        ProjectIssueEntry {
            file: "file1.txt".into(),
            entry_num: 1,
            source: "HELLO".into(),
            translation: "Bonjour".into(),
            duplicate: false,
        },
        ProjectIssueEntry {
            file: "file2.txt".into(),
            entry_num: 2,
            source: "DUP".into(),
            translation: "Dup1".into(),
            duplicate: false,
        },
        ProjectIssueEntry {
            file: "file2.txt".into(),
            entry_num: 3,
            source: "DUP".into(),
            translation: "Dup2".into(),
            duplicate: true,
        },
    ]
}

#[test]
fn filters_provider_duplicates_but_not_tag_issues() {
    let all = collect_project_issues(&entries(), ".*", false, Some("file2.txt")).ok().unwrap();
    let filtered = collect_project_issues(&entries(), ".*", true, Some("file2.txt")).ok().unwrap();
    assert_eq!(all.iter().filter(|issue| issue.kind == ProjectIssueKind::Provider).count(), 3);
    assert_eq!(filtered.iter().filter(|issue| issue.kind == ProjectIssueKind::Provider).count(), 2);
    assert_eq!(filtered.iter().filter(|issue| issue.kind == ProjectIssueKind::Tag).count(), 1);
}
