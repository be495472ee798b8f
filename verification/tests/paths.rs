use krkr_tools::paths::{absolute_to_relative, path_str_handle, starts_with_components};

#[test]
fn path_str_handle_turns_backslashes_and_drops_dot_slash() {
    assert_eq!(path_str_handle(String::from(".\\data\\scn\\a.ks")), "data/scn/a.ks");
    assert_eq!(path_str_handle(String::from("data\\b.txt")), "data/b.txt");
    assert_eq!(path_str_handle(String::from("./x")), "x");
    assert_eq!(path_str_handle(String::from(".\\.\\x")), "./x");
    assert_eq!(path_str_handle(String::from("ああ\\い")), "ああ/い");
    assert_eq!(path_str_handle(String::from(".")), ".");
    assert_eq!(path_str_handle(String::new()), "");
}

fn comps(parts: &[&str]) -> Vec<String> {
    parts.iter().map(|s| s.to_string()).collect()
}

#[test]
fn relative_path_is_what_follows_the_base() {
    let base = comps(&["/", "home", "user"]);
    let path = comps(&["/", "home", "user", "game", "data.xp3"]);
    assert!(starts_with_components(&path, &base));
    assert_eq!(absolute_to_relative(&base, &path), comps(&["game", "data.xp3"]));
    assert_eq!(absolute_to_relative(&base, &base), Vec::<String>::new());
}

#[test]
fn other_base_is_not_a_prefix() {
    let base = comps(&["/", "home", "other"]);
    let path = comps(&["/", "home", "user", "a"]);
    assert!(!starts_with_components(&path, &base));
    assert!(!starts_with_components(&base, &comps(&["/", "home", "other", "x"])));
}
