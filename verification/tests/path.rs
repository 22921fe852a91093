use historion::path::{is_within, normalize_path, path_components};

#[test]
fn paths_normalize_dots_and_empty_pieces() {
    assert_eq!(normalize_path("/a/./b//c/"), "/a/b/c");
    assert_eq!(normalize_path("/a/b/../c"), "/a/c");
    assert_eq!(normalize_path("/.."), "/");
    assert_eq!(normalize_path("//"), "/");
    assert_eq!(normalize_path("a/../.."), "..");
    assert_eq!(normalize_path("./"), ".");
    assert_eq!(normalize_path(""), ".");
    assert_eq!(normalize_path("../../x"), "../../x");
}

#[test]
fn components_leave_out_dots_and_empty_pieces() {
    let parts = path_components("/home//me/./src/");
    let parts: Vec<String> = parts.iter().map(|p| p.iter().collect()).collect();
    assert_eq!(parts, vec!["home", "me", "src"]);
    assert!(path_components("/").is_empty());
}

#[test]
fn within_compares_whole_components() {
    assert!(is_within("/home/me/src", "/home/me"));
    assert!(is_within("/home/me", "/home/me/"));
    assert!(is_within("/home/me/./src", "/home//me"));
    assert!(is_within("/anything", "/"));
    assert!(!is_within("/home/meet", "/home/me"));
    assert!(!is_within("/home", "/home/me"));
    assert!(!is_within("home/me", "/home/me"));
    assert!(is_within("a/b", "a"));
}
