use workspace::tilde_format_str;
use workspace::Tilde;

#[test]
fn home_prefix_becomes_tilde() {
    assert_eq!(tilde_format_str("/home/u/proj", "/home/u"), "~/proj");
}

#[test]
fn exact_home_becomes_bare_tilde() {
    assert_eq!(tilde_format_str("/home/u", "/home/u"), "~");
}

#[test]
fn unrelated_path_is_unchanged() {
    assert_eq!(tilde_format_str("/etc/hosts", "/home/u"), "/etc/hosts");
}

#[test]
fn partial_match_is_unchanged() {
    assert_eq!(tilde_format_str("/home/user2/x", "/home/user10"), "/home/user2/x");
}

#[test]
fn empty_home_prefixes_a_tilde() {
    assert_eq!(tilde_format_str("/a", ""), "~/a");
}

#[test]
fn the_trait_formats_a_string_path() {
    let p = "/home/u/deep/dir".to_string();
    assert_eq!(p.tilde_format("/home/u"), "~/deep/dir");
}
