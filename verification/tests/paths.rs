use wayhand_mcp::calibrate::probe::calibration_path;
use wayhand_mcp::instance_lock::lock_path;
use wayhand_mcp::paths::{join, within};

#[test]
fn chooses_runtime_directory_or_uid_fallback() {
    assert_eq!(
        lock_path(Some("/run/user/1000"), 1000),
        "/run/user/1000/wayhand-mcp.lock"
    );
    assert_eq!(lock_path(None, 1000), "/tmp/wayhand-mcp-1000.lock");
}

#[test]
fn users_have_their_own_locks() {
    assert_ne!(lock_path(None, 1), lock_path(None, 11));
    assert_eq!(lock_path(None, u32::MAX), "/tmp/wayhand-mcp-4294967295.lock");
}

#[test]
fn joining_puts_one_separator_between() {
    assert_eq!(join("/run", "a"), "/run/a");
    assert_eq!(join("/run/", "a"), "/run/a");
    assert_eq!(join("", "a"), "a");
}

#[test]
fn siblings_are_not_within_a_directory() {
    assert!(within("/home/me/shot.png", "/home/me"));
    assert!(within("/home/me", "/home/me"));
    assert!(within("/anything", "/"));
    assert!(!within("/home/meow/shot.png", "/home/me"));
    assert!(!within("/home", "/home/me"));
    assert!(!within("/tmp/shot.png", "/home/me"));
}

#[test]
fn calibration_is_kept_below_the_configuration_directory() {
    assert_eq!(
        calibration_path(Some("/cfg"), Some("/home/me")).unwrap(),
        "/cfg/wayhand-mcp/calibration.json"
    );
    assert_eq!(
        calibration_path(None, Some("/home/me")).unwrap(),
        "/home/me/.config/wayhand-mcp/calibration.json"
    );
    assert_eq!(
        calibration_path(Some(""), Some("/home/me")).unwrap(),
        "/home/me/.config/wayhand-mcp/calibration.json"
    );
    assert_eq!(
        calibration_path(None, None).unwrap_err(),
        "neither XDG_CONFIG_HOME nor HOME is set"
    );
}
