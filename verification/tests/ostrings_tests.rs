use omegat_core::ostrings::dev_build_marker;

#[test]
fn branch_and_detached_markers() {
    assert_eq!(
        dev_build_marker("6d79ee8db", "master"),
        "[6d79ee8db @ master]"
    );
    assert_eq!(dev_build_marker("6d79ee8db", "HEAD"), "");
}
