use kult_node::{screen_security_policy, ScreenSecurityLevel, ScreenSecurityPlatform};

#[test]
fn policies_are_always_on_and_make_platform_limits_explicit() {
    let android = screen_security_policy(ScreenSecurityPlatform::Android);
    let ios = screen_security_policy(ScreenSecurityPlatform::Ios);
    let desktop = screen_security_policy(ScreenSecurityPlatform::Desktop);

    assert!(android.always_on && ios.always_on && desktop.always_on);
    assert_eq!(
        android.capture_prevention,
        ScreenSecurityLevel::PlatformEnforced
    );
    assert_eq!(ios.capture_prevention, ScreenSecurityLevel::Unavailable);
    assert!(ios
        .limitations
        .iter()
        .any(|text| text.contains("screenshots")));
    assert_eq!(desktop.capture_prevention, ScreenSecurityLevel::BestEffort);
    assert_eq!(desktop.rapid_lock, ScreenSecurityLevel::PlatformEnforced);
    assert!(desktop
        .limitations
        .iter()
        .any(|text| text.contains("compositor")));
}
