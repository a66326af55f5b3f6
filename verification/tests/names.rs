//! Names and lines that every tool shares.
use nian_workspace::tools::{clip_line, is_generated_or_vcs_dir};

#[test]
fn clip_line_respects_char_boundaries() {
    let s = "héllo wörld ünïcode".to_string();
    let (clipped, was_clipped) = clip_line(&s, 5);
    assert!(was_clipped);
    assert!(clipped.ends_with("[…]"));
    assert!(clipped.len() <= 5 + "[…]".len());

    let (same, not_clipped) = clip_line(&s, 100);
    assert!(!not_clipped);
    assert_eq!(same, s);
}

#[test]
fn generated_dir_detection() {
    assert!(is_generated_or_vcs_dir(".git"));
    assert!(is_generated_or_vcs_dir("node_modules"));
    assert!(!is_generated_or_vcs_dir("src"));
}
