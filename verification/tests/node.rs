use castavox_core::node::{
    candidates, find, interrogated, major_version, managers, may_know_system_ca, missing_message,
    places, status, system_ca_args, Managed, NodeRuntime, NodeStatus, MINIMUM_MAJOR,
};

#[test]
fn a_version_string_yields_its_major() {
    assert_eq!(major_version("v22.11.0"), Some(22));
    assert_eq!(major_version("v20.0.0\n"), Some(20));
    assert_eq!(major_version("24.1.2"), Some(24));
}

#[test]
fn nonsense_is_not_guessed_at() {
    assert_eq!(major_version("not a version"), None);
    assert_eq!(major_version(""), None);
    assert_eq!(major_version("vX.Y.Z"), None);
}

#[test]
fn a_missing_runtime_is_explained_rather_than_reported() {
    let message = missing_message(&NodeStatus::missing());
    assert!(message.contains("nodejs.org"), "no way forward given: {message}");
    assert!(message.contains("20"), "does not say which version: {message}");
    assert!(message.contains("works without it"), "overstates the damage: {message}");
}

#[test]
fn an_outdated_runtime_says_so_specifically() {
    let stale = NodeStatus {
        found: false,
        path: Some("/usr/local/bin/node".into()),
        version: Some("v16.20.0".into()),
        too_old: true,
        minimum: MINIMUM_MAJOR,
    };
    let message = missing_message(&stale);
    assert!(message.contains("v16.20.0"), "does not say what is installed: {message}");
}

fn runtime(path: &str, version: &str) -> NodeRuntime {
    interrogated(path, true, version).expect("a runtime")
}

#[test]
fn only_what_answers_like_node_is_a_runtime() {
    assert_eq!(interrogated("/x/node", false, "v22.0.0"), None);
    assert_eq!(interrogated("/x/node", true, "hello"), None);
    let node = runtime("/x/node", "v22.11.0\n");
    assert_eq!(node.version, "v22.11.0");
    assert_eq!(node.major, 22);
}

#[test]
fn the_first_runtime_that_is_new_enough_is_used() {
    let found = [runtime("/a", "v16.0.0"), runtime("/b", "v20.1.0"), runtime("/c", "v24.0.0")];
    assert_eq!(find(&found), Some(runtime("/b", "v20.1.0")));
    let shown = status(&found);
    assert!(shown.found && !shown.too_old);
    assert_eq!(shown.path.as_deref(), Some("/b"));
    assert_eq!(find(&found[..1]), None);
    let shown = status(&found[..1]);
    assert!(!shown.found && shown.too_old);
    assert_eq!(shown.version.as_deref(), Some("v16.0.0"));
    assert_eq!(status(&[]), NodeStatus::missing());
}

#[test]
fn no_place_is_asked_twice() {
    let looked = |path: &str, there: bool| (path.to_string(), there);
    assert_eq!(
        candidates(&[looked("/a", true), looked("/b", false), looked("/a", true), looked("/c", true)]),
        vec!["/a", "/c"]
    );
}

#[test]
fn the_option_is_offered_only_where_it_is_understood() {
    assert_eq!(system_ca_args(&runtime("/a", "v22.15.0"), true), vec!["--use-system-ca"]);
    assert!(system_ca_args(&runtime("/a", "v22.1.0"), false).is_empty());
    assert!(system_ca_args(&runtime("/a", "v20.0.0"), true).is_empty());
    assert!(may_know_system_ca(&runtime("/a", "v22.0.0")));
    assert!(!may_know_system_ca(&runtime("/a", "v21.9.9")));
}

fn text(list: &[&str]) -> Vec<String> {
    list.iter().map(|item| item.to_string()).collect()
}

#[test]
fn the_search_looks_beyond_path() {
    let looked_at: Vec<(String, bool)> = places(false, &[], &[], Vec::new())
        .into_iter()
        .map(|parts| (parts.join("/"), true))
        .collect();
    let names = candidates(&looked_at);
    assert!(
        names.is_empty() || names.iter().any(|n| n.starts_with('/') || n.contains(':')),
        "candidates should be absolute paths: {names:?}",
    );
    assert_eq!(names[0], "/opt/homebrew/bin/node");
    assert_eq!(names.len(), 4);
}

#[test]
fn a_shell_is_believed_first_and_the_newest_version_before_the_others() {
    let nvm = Managed { root: "/home/a/.nvm".into(), versions: text(&["v18.0.0", "v22.1.0"]) };
    let found = places(false, &text(&["/a", "/b"]), &[], vec![nvm]);
    assert_eq!(found[0], text(&["/a", "node"]));
    assert_eq!(found[1], text(&["/b", "node"]));
    assert_eq!(found[6], text(&["/home/a/.nvm", "v22.1.0", "bin", "node"]));
    assert_eq!(found[7], text(&["/home/a/.nvm", "v22.1.0", "installation", "bin", "node"]));
    assert_eq!(found[8], text(&["/home/a/.nvm", "v18.0.0", "bin", "node"]));
    assert_eq!(found.len(), 10);
    assert_eq!(managers().len(), 3);
}

#[test]
fn versions_are_compared_as_numbers() {
    let names = text(&["v9.11.2", "v20.1.0", "v20.10.0", "20.1.0", "latest"]);
    let nvm = Managed { root: "/r".into(), versions: names };
    let found = places(false, &[], &[], vec![nvm]);
    let order: Vec<&str> = found[4..].iter().step_by(2).map(|place| place[1].as_str()).collect();
    assert_eq!(order, ["v20.10.0", "v20.1.0", "20.1.0", "v9.11.2", "latest"]);
}

#[test]
fn windows_keeps_it_below_its_own_roots() {
    let found = places(true, &[], &text(&["C:\\Program Files"]), Vec::new());
    assert_eq!(found, vec![text(&["C:\\Program Files", "nodejs", "node.exe"])]);
}
