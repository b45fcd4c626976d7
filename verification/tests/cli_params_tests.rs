use omegat_core::cli_params::{construct_command_params, initialize_legacy, RuntimePrefs};

#[test]
fn legacy_parser_reads_back_the_command_line() {
    let mut p = RuntimePrefs::default();
    p.config_dir = Some("/cfg".to_string());
    p.config_file = Some("--quiet".to_string());
    p.resource_bundle = Some("bundle".to_string());
    p.project_locking = false;
    p.no_team = true;
    p.quiet = true;
    let args = construct_command_params(&p);
    let refs: Vec<&str> = args.iter().map(|s| s.as_str()).collect();
    let q = initialize_legacy(&refs, None);
    assert_eq!(q.config_dir, p.config_dir);
    assert_eq!(q.config_file, p.config_file);
    assert_eq!(q.resource_bundle, p.resource_bundle);
    assert_eq!(q.project_locking, p.project_locking);
    assert_eq!(q.location_save, p.location_save);
    assert_eq!(q.no_team, p.no_team);
    assert_eq!(q.quiet, p.quiet);
}
