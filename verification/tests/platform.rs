use construct_core::discovery::platform::{candidates, resolve, Candidate, Installation};

fn names(installs: &[Installation]) -> Vec<String> {
    installs.iter().map(|i| i.name.clone()).collect()
}

#[test]
fn absent_roots_are_omitted_without_error() {
    let c = candidates("/home/u", None, None, vec![], vec![]);
    assert_eq!(c.len(), 2);
    assert!(resolve(c, vec![], vec![]).is_empty());
}

#[test]
fn gdk_release_has_shared_dev_packs_and_per_account_world_roots() {
    let c = candidates(
        "/home/u",
        Some("/A/AppData/Roaming"),
        None,
        vec!["Shared".to_string(), "2533274801234567".to_string()],
        vec![],
    );
    assert_eq!(c[0].name, "release");
    let n = c.len();
    let found = resolve(c, vec![true; n], vec![vec![true, true], vec![], vec![], vec![]]);
    let release = found.iter().find(|i| i.name == "release").expect("release installation");
    assert!(release.dev_pack_root.ends_with("Users/Shared/games/com.mojang"));
    assert_eq!(release.world_roots.len(), 2, "one world root per account");
    assert!(release.world_roots.iter().all(|r| r.account.is_some()));
}

#[test]
fn a_single_world_root_carries_no_account_segment() {
    let c = candidates("/home/u", None, None, vec![], vec![]);
    let found = resolve(c, vec![false, false], vec![vec![true], vec![false]]);
    let mcpe = found.iter().find(|i| i.name == "mcpelauncher").expect("mcpelauncher");
    assert_eq!(mcpe.world_roots.len(), 1);
    assert_eq!(mcpe.world_roots[0].account, None);
    assert_eq!(
        mcpe.world_roots[0].path,
        "/home/u/Library/Application Support/mcpelauncher/games/com.mojang/minecraftWorlds"
    );
}

#[test]
fn preview_and_release_are_separate_installations() {
    let c = candidates(
        "/h",
        Some("/A"),
        None,
        vec!["Shared".to_string()],
        vec!["Shared".to_string()],
    );
    let found = resolve(c, vec![true, true, false, false], vec![]);
    let n = names(&found);
    assert!(n.contains(&"release".to_string()));
    assert!(n.contains(&"preview".to_string()));
}

#[test]
fn legacy_uwp_is_probed_for_worlds() {
    let c = candidates("/h", None, Some("/L"), vec![], vec![]);
    assert_eq!(c[0].name, "legacy");
    let found = resolve(c, vec![false, false, false], vec![vec![true]]);
    assert_eq!(names(&found), vec!["legacy"]);
}

#[test]
fn same_named_candidates_get_distinct_stable_names() {
    let make = || {
        vec![
            Candidate {
                name: "mcpelauncher".to_string(),
                dev_pack_root: "/t/a/com.mojang".to_string(),
                world_root_parents: vec!["/t/a/com.mojang".to_string()],
                per_account: false,
            },
            Candidate {
                name: "mcpelauncher".to_string(),
                dev_pack_root: "/t/b/com.mojang".to_string(),
                world_root_parents: vec!["/t/b/com.mojang".to_string()],
                per_account: false,
            },
        ]
    };
    let first = resolve(make(), vec![true, true], vec![]);
    assert_eq!(names(&first), vec!["mcpelauncher", "mcpelauncher-2"]);
    let second = resolve(make(), vec![true, true], vec![]);
    assert_eq!(names(&second), names(&first));
}

#[test]
fn a_root_without_a_minecraft_worlds_dir_still_counts_for_dev_packs() {
    let c = candidates("/h", None, None, vec![], vec![]);
    let found = resolve(c, vec![true, false], vec![vec![false]]);
    assert_eq!(found.len(), 1);
    assert!(found[0].world_roots.is_empty());
}
