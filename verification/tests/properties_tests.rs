use omegat_core::project_file::parse_project_xml;
use omegat_core::properties::{
    project_properties_identical, repository_equals, root_repository_mapping, set_root_repository_mapping,
    ProjectProperties, RepositoryDef, RepositoryMapping,
};

fn mapping(local: &str, repository: &str) -> RepositoryMapping {
    RepositoryMapping { local: local.into(), repository: repository.into(), includes: vec![], excludes: vec![] }
}

fn repo(url: &str, maps: Vec<RepositoryMapping>) -> RepositoryDef {
    RepositoryDef { repo_type: "git".into(), url: url.into(), branch: None, mappings: maps }
}

fn props(root: &str) -> ProjectProperties {
    ProjectProperties {
        root: root.into(), source_dir: "source".into(), target_dir: "target".into(), tm_dir: "tm".into(),
        glossary_dir: "glossary".into(), glossary_file: "glossary/g.txt".into(), dictionary_dir: "dictionary".into(),
        export_tm_dir: ".".into(), export_tm_levels: "omegat level1 level2".into(), source_lang: "en".into(),
        target_lang: "fr".into(), source_tok: "t".into(), target_tok: "t".into(), sentence_seg: true,
        support_default_translations: true, remove_tags: false, external_command: String::new(),
        source_dir_excludes: vec![], repositories: vec![], raw_unknown: String::new(),
    }
}

#[test]
fn root_repository_is_found_and_repointed() {
    let mut repos = vec![repo("a", vec![mapping("sub", "x")]), repo("b", vec![mapping("/", "/")])];
    assert_eq!(root_repository_mapping(&repos).map(|r| r.url.clone()), Some("b".to_string()));
    let replacement = RepositoryDef { repo_type: "svn".into(), url: "c".into(), branch: Some("main".into()), mappings: vec![] };
    assert!(set_root_repository_mapping(&mut repos, &replacement));
    assert_eq!(repos[1].url, "c");
    assert_eq!(repos[1].mappings.len(), 1);
    assert!(repository_equals(&repos[1], &replacement));
    let mut none = vec![repo("a", vec![])];
    assert!(!set_root_repository_mapping(&mut none, &replacement));
}

#[test]
fn export_levels_and_team_projects() {
    let mut p = props("/p");
    assert_eq!(p.export_tm_level_list(), vec!["omegat", "level1", "level2"]);
    p.set_export_tm_levels_list(&["LEVEL2", "omegat"]);
    assert_eq!(p.export_tm_levels, "omegat level2");
    assert!(p.is_export_tm("Level2"));
    assert!(!p.is_export_tm("level1"));
    p.set_export_tm_levels(false, false, false);
    assert_eq!(p.export_tm_levels, "");
    assert!(!p.is_team_project());
    p.repositories = vec![repo("u", vec![mapping("", "/")])];
    assert!(p.is_team_project());
    assert_eq!(p.save_tmx_path(), "/p/omegat/project_save.tmx");
    assert_eq!(props("/p/").save_tmx_path(), "/p/omegat/project_save.tmx");
}

#[test]
fn identical_projects() {
    let a = props("/p");
    let mut b = props("/p");
    assert!(project_properties_identical(&a, &b));
    b.raw_unknown = "x".into();
    assert!(project_properties_identical(&a, &b));
    b.target_lang = "de".into();
    assert!(!project_properties_identical(&a, &b));
}

#[test]
fn parses_repository_mappings_and_filters() {
    let raw = r#"<?xml version="1.0" encoding="UTF-8" standalone="yes"?>
<omegat>
    <project version="1.0">
        <source_lang>en</source_lang>
        <target_lang>fr</target_lang>
        <repositories>
            <repository type="git" url="https://example.com/p.git" branch="main">
                <mapping local="/" repository="/">
                    <includes>**/*.tmx</includes>
                    <excludes>**/*.bak</excludes>
                </mapping>
                <mapping local="source/" repository="src/"/>
            </repository>
        </repositories>
    </project>
</omegat>
"#;
    let props = parse_project_xml("/tmp/proj", raw).unwrap();
    assert_eq!(props.repositories.len(), 1);
    assert_eq!(props.repositories[0].repo_type, "git");
    assert_eq!(props.repositories[0].branch.as_deref(), Some("main"));
    assert_eq!(props.repositories[0].mappings.len(), 2);
    assert_eq!(props.repositories[0].mappings[0].local, "/");
    assert_eq!(props.repositories[0].mappings[0].includes, vec!["**/*.tmx"]);
    assert_eq!(props.repositories[0].mappings[0].excludes, vec!["**/*.bak"]);
    assert_eq!(props.repositories[0].mappings[1].repository, "src/");
    assert!(props.is_team_project());
    let mut levels = ProjectProperties::create("/tmp/l", "en", "fr", false);
    levels.set_export_tm_levels_list(&["level2", "omegat"]);
    assert_eq!(levels.export_tm_level_list(), vec!["omegat", "level2"]);
    levels.set_export_tm_levels_list(&["foo"]);
    assert!(levels.export_tm_level_list().is_empty());
    let mut not_team = ProjectProperties::create("/tmp/n", "en", "fr", false);
    not_team.repositories.push(RepositoryDef {
        repo_type: "git".into(),
        url: "https://example.com/p.git".into(),
        branch: Some("master".into()),
        mappings: vec![RepositoryMapping {
            local: "source/foo".into(),
            repository: "doc_src/en".into(),
            includes: vec![],
            excludes: vec![],
        }],
    });
    assert!(!not_team.is_team_project());
}

#[test]
fn write_roundtrips_mapping_includes() {
    let mut props = ProjectProperties::create("/tmp/p", "en", "fr", true);
    props.repositories.push(RepositoryDef {
        repo_type: "http".into(),
        url: "https://example.com/mem.tmx".into(),
        branch: None,
        mappings: vec![RepositoryMapping {
            local: "omegat/project_save.tmx".into(),
            repository: "project_save.tmx".into(),
            includes: vec![],
            excludes: vec!["*.bak".into()],
        }],
    });
    let xml = props.to_xml();
    assert!(xml.contains("type=\"http\""));
    assert!(xml.contains("<excludes>*.bak</excludes>"));
    let again = parse_project_xml("/tmp/p", &xml).unwrap();
    assert_eq!(again.repositories[0].mappings[0].excludes, vec!["*.bak"]);
}

#[test]
fn new_project_writes_default_folders() {
    let props = ProjectProperties::create("/tmp/p", "en", "fr", true);
    assert_eq!(props.source_dir, "/tmp/p/source");
    assert_eq!(props.glossary_file, "/tmp/p/glossary/glossary.txt");
    let xml = props.to_xml();
    assert!(xml.contains("<source_dir>__DEFAULT__</source_dir>"));
    assert!(xml.contains("<export_tm_dir>__DEFAULT__</export_tm_dir>"));
    assert!(xml.contains("<glossary_file>glossary/glossary.txt</glossary_file>"));
    assert!(xml.contains("            <mask>**/.svn/**</mask>\n"));
    assert!(xml.contains("<sentence_seg>true</sentence_seg>"));
    assert!(!xml.contains("<repositories>"));
}

#[test]
fn stored_paths_relative_or_absolute() {
    let mut props = ProjectProperties::create("/tmp/p", "en", "fr", false);
    props.target_dir = "/tmp/other/out".into();
    props.tm_dir = "/x/y".into();
    props.source_lang = "a<b&\"c\"".into();
    let xml = props.to_xml();
    assert!(xml.contains("<target_dir>../other/out</target_dir>"));
    assert!(xml.contains("<tm_dir>../../x/y</tm_dir>"));
    assert!(xml.contains("<source_lang>a&lt;b&amp;&quot;c&quot;</source_lang>"));
    let again = parse_project_xml("/tmp/p", &xml).unwrap();
    assert_eq!(again.target_dir, "/tmp/p/../other/out");
    assert_eq!(again.source_lang, "a<b&\"c\"");
    assert!(!again.sentence_seg);
}

#[test]
fn parse_expands_entities_and_resolves_folders() {
    let raw = r#"<!DOCTYPE omegat [ <!ENTITY base "/data"> <!ENTITY tmx "&base;/tm"> ]>
<omegat><project version="1.0">
<source_dir>__DEFAULT__</source_dir><tm_dir>&tmx;</tm_dir><glossary_file>terms.txt</glossary_file>
<source_dir_excludes><mask>*.bak</mask></source_dir_excludes>
<sentence_seg>false</sentence_seg><remove_tags>true</remove_tags></project></omegat>"#;
    let p = parse_project_xml("/r", raw).unwrap();
    assert_eq!(p.source_dir, "/r/source");
    assert_eq!(p.tm_dir, "/data/tm");
    assert_eq!(p.glossary_file, "/r/glossary/terms.txt");
    assert_eq!(p.source_dir_excludes, vec!["*.bak"]);
    assert_eq!(p.source_lang, "en");
    assert_eq!(p.target_lang, "fr");
    assert!(!p.sentence_seg);
    assert!(p.remove_tags);
    assert!(p.support_default_translations);
}
