use construct_core::install::carry::{missing, plan_carry, written_count, Carry};
use construct_core::CoreError;

fn files(v: &[(&str, &[u8])]) -> Vec<(String, Vec<u8>)> {
    v.iter().map(|(p, b)| (p.to_string(), b.to_vec())).collect()
}

#[test]
fn an_upgrade_carries_only_what_the_new_copy_lacks() {
    let old = vec![
        "bomber.mcstructure".to_string(),
        "castle.mcstructure".to_string(),
        "construct.mcstructure".to_string(),
    ];
    let new = vec!["construct.mcstructure".to_string()];
    assert_eq!(
        missing(&old, &new),
        vec!["bomber.mcstructure".to_string(), "castle.mcstructure".to_string()]
    );
}

#[test]
fn a_differing_structure_is_kept_under_a_free_name() {
    let present = files(&[("house.mcstructure", b"the installed house")]);
    let incoming = files(&[("house.mcstructure", b"a different house")]);
    let plan = plan_carry("/dev/structures", &present, &incoming).unwrap();
    assert_eq!(plan.len(), 1);
    assert!(matches!(&plan[0], Carry::Rescue(n) if n == "house-1.mcstructure"));
    assert_eq!(written_count(&plan), 1);
}

#[test]
fn identical_files_are_skipped_and_new_ones_copied() {
    let present = files(&[("a.mcstructure", b"A")]);
    let incoming = files(&[("a.mcstructure", b"A"), ("sub/b.mcstructure", b"B")]);
    let plan = plan_carry("/d", &present, &incoming).unwrap();
    assert!(matches!(plan[0], Carry::Skip));
    assert!(matches!(plan[1], Carry::Copy));
    assert_eq!(written_count(&plan), 1);
}

#[test]
fn the_numbered_names_step_past_taken_ones() {
    let present = files(&[("h.mcstructure", b"1"), ("h-1.mcstructure", b"2")]);
    let incoming = files(&[("h.mcstructure", b"3"), ("h.mcstructure", b"4")]);
    let plan = plan_carry("/d", &present, &incoming).unwrap();
    assert!(matches!(&plan[0], Carry::Rescue(n) if n == "h-2.mcstructure"));
    assert!(matches!(&plan[1], Carry::Rescue(n) if n == "h-3.mcstructure"));
}

#[test]
fn folding_in_the_same_files_again_writes_nothing() {
    let present = files(&[("a.mcstructure", b"A"), ("b.mcstructure", b"B")]);
    let incoming = files(&[("b.mcstructure", b"B"), ("a.mcstructure", b"A")]);
    let plan = plan_carry("/d", &present, &incoming).unwrap();
    assert_eq!(written_count(&plan), 0);
}

#[test]
fn running_out_of_numbered_names_is_refused() {
    let mut present = vec![("h.mcstructure".to_string(), b"x".to_vec())];
    for n in 1..1000 {
        present.push((format!("h-{n}.mcstructure"), b"x".to_vec()));
    }
    let incoming = files(&[("h.mcstructure", b"y")]);
    match plan_carry("/d", &present, &incoming) {
        Err(CoreError::BadPack { path, reason }) => {
            assert_eq!(path, "/d/h.mcstructure");
            assert_eq!(reason, "no free name for it after 1000 tries");
        }
        _ => panic!("expected a refusal"),
    }
}
