//! Versions and the update nag.
use snap::value::Value;
use snap::version::{cache, is_fresh, is_newer, nag, read_cache, release_tag, tuple, upgrade_hint, RELEASES_PAGE};

#[test]
fn tuple_parses_tag_forms() {
    assert_eq!(tuple("v0.1.0"), (0, 1, 0));
    assert_eq!(tuple("0.10.2"), (0, 10, 2));
    assert_eq!(tuple("v1"), (1, 0, 0));
    assert_eq!(tuple("1.2.3-rc.1"), (1, 2, 3));
    assert_eq!(tuple("junk"), (0, 0, 0));
    assert_eq!(tuple(" V2.+3.4+5 "), (2, 0, 0));
    assert_eq!(tuple("1.4294967296.7"), (1, 0, 7));
}

#[test]
fn tuples_read_back_what_was_written() {
    for (a, b, c) in [(0, 0, 0), (0, 2, 0), (1, 20, 300), (u32::MAX, 7, u32::MAX)] {
        let x = format!("{a}.{b}.{c}");
        for tag in [
            x.clone(),
            format!("v{x}"),
            format!("V{x}"),
            format!(" {x} "),
            format!("{x}-rc1"),
            format!("{x}+build.7"),
            format!("{x}.9"),
            format!("\t vV{x}-rc.1+b  \n"),
        ] {
            assert_eq!(tuple(&tag), (a, b, c), "{tag:?}");
        }
    }
}

#[test]
fn newer_only_on_real_upgrade() {
    assert!(is_newer("v0.2.0", "0.1.9"));
    assert!(!is_newer("v0.1.0", "0.1.0"));
    assert!(!is_newer("v0.1.0", "0.2.0")); // dev build ahead of any release
    assert!(!is_newer("garbage", "0.1.0"));
}

#[test]
fn caches_read_back() {
    assert_eq!(read_cache(&cache(7, Some("v9.9.9"))), Some((7, Some("v9.9.9".to_string()))));
    assert_eq!(read_cache(&cache(7, None)), Some((7, None))); // cached failure
    assert_eq!(read_cache(&Value::Null), None);
}

#[test]
fn a_cache_is_good_for_a_day() {
    assert!(is_fresh(86399, 0));
    assert!(!is_fresh(86400, 0));
    assert!(is_fresh(10, 20));
}

#[test]
fn nags_name_the_install_channel() {
    assert_eq!(upgrade_hint("/opt/homebrew/Cellar/snap/1/bin/snap"), "brew upgrade emnlmn/snap/snap");
    assert_eq!(upgrade_hint("/home/linuxbrew/.linuxbrew/bin/snap"), "brew upgrade emnlmn/snap/snap");
    assert_eq!(upgrade_hint("/usr/bin/snap"), RELEASES_PAGE);
    assert_eq!(
        nag("v0.3.0", "0.2.9", "/usr/bin/snap"),
        Some("snap v0.3.0 is out (you have 0.2.9) — https://github.com/emnlmn/snap/releases/latest".to_string())
    );
    assert_eq!(nag("v0.2.9", "0.2.9", "/usr/bin/snap"), None);
}

#[test]
fn releases_name_their_tag() {
    let v = Value::Object(vec![("tag_name".to_string(), Value::Str("v1".to_string()))]);
    assert_eq!(release_tag(&v), Some("v1".to_string()));
    assert_eq!(release_tag(&Value::Null), None);
}
