use construct_core::discovery::installation::choose_installation;
use construct_core::discovery::Installation;
use construct_core::CoreError;

fn inst(name: &str) -> Installation {
    Installation {
        name: name.to_string(),
        dev_pack_root: format!("/{name}"),
        world_roots: Vec::new(),
    }
}

#[test]
fn a_sole_installation_needs_no_configuration() {
    let all = vec![inst("mcpelauncher")];
    assert_eq!(choose_installation(&all, None, None).unwrap().name, "mcpelauncher");
}

#[test]
fn two_installations_and_no_default_is_ambiguous_not_a_guess() {
    let all = vec![inst("release"), inst("preview")];
    let CoreError::AmbiguousInstallation { candidates } = choose_installation(&all, None, None).unwrap_err()
    else {
        panic!("expected AmbiguousInstallation");
    };
    assert_eq!(
        candidates,
        vec!["release".to_string(), "preview".to_string()]
    );
}

#[test]
fn the_configured_default_settles_it() {
    let all = vec![inst("release"), inst("preview")];
    assert_eq!(choose_installation(&all, None, Some("preview")).unwrap().name, "preview");
}

#[test]
fn an_explicit_request_beats_the_configured_default() {
    let all = vec![inst("release"), inst("preview")];
    assert_eq!(
        choose_installation(&all, Some("release"), Some("preview")).unwrap().name,
        "release"
    );
}

#[test]
fn a_request_naming_nothing_is_an_error_listing_what_exists() {
    let all = vec![inst("release")];
    let CoreError::InstallationNotFound { name, available } =
        choose_installation(&all, Some("nope"), None).unwrap_err()
    else {
        panic!("expected InstallationNotFound");
    };
    assert_eq!(name, "nope");
    assert_eq!(available, vec!["release".to_string()]);
}

#[test]
fn a_stale_default_pointing_at_nothing_is_an_error_not_a_silent_fallback() {
    // Falling back to the sole installation would quietly ignore what the
    // user configured, which is exactly the "never guess" case.
    let all = vec![inst("release")];
    assert!(matches!(
        choose_installation(&all, None, Some("preview")),
        Err(CoreError::InstallationNotFound { .. })
    ));
}

#[test]
fn no_installations_at_all_says_so() {
    assert!(matches!(
        choose_installation(&[], None, None),
        Err(CoreError::NoInstallations { .. })
    ));
}
