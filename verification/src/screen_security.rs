//! Screen-security promises shared by every front door.
//!
//! Screen protection is deliberately an always-on shell policy, not sealed user
//! metadata: it must already apply to the unlock screen and while the encrypted
//! store is closed. Platform shells enforce these capabilities; this module keeps
//! their user-visible claims exact and testable.

use vstd::prelude::*;

verus! {

/// Platform shell whose screen-security guarantees are being described.
#[derive(Clone, Copy, Debug, PartialEq, Eq, Structural)]
pub enum ScreenSecurityPlatform {
    /// Android application window.
    Android,
    /// iOS application scene.
    Ios,
    /// Desktop application window.
    Desktop,
}

impl ScreenSecurityPlatform {
    /// Canonical lower-case wire token.
    pub fn as_str(self) -> (token: &'static str)
        ensures
            token@ == match self {
                ScreenSecurityPlatform::Android => "android"@,
                ScreenSecurityPlatform::Ios => "ios"@,
                ScreenSecurityPlatform::Desktop => "desktop"@,
            },
    {
        match self {
            ScreenSecurityPlatform::Android => "android",
            ScreenSecurityPlatform::Ios => "ios",
            ScreenSecurityPlatform::Desktop => "desktop",
        }
    }
}

/// Strength of one native screen-security capability.
#[derive(Clone, Copy, Debug, PartialEq, Eq, Structural)]
pub enum ScreenSecurityLevel {
    /// The supported OS API is enabled for the whole surface.
    PlatformEnforced,
    /// Protection is requested, but the compositor or OS may ignore it.
    BestEffort,
    /// The platform exposes no honest way to provide this capability.
    Unavailable,
}

impl ScreenSecurityLevel {
    /// Canonical snake-case wire token.
    pub fn as_str(self) -> (token: &'static str)
        ensures
            token@ == match self {
                ScreenSecurityLevel::PlatformEnforced => "platform_enforced"@,
                ScreenSecurityLevel::BestEffort => "best_effort"@,
                ScreenSecurityLevel::Unavailable => "unavailable"@,
            },
    {
        match self {
            ScreenSecurityLevel::PlatformEnforced => "platform_enforced",
            ScreenSecurityLevel::BestEffort => "best_effort",
            ScreenSecurityLevel::Unavailable => "unavailable",
        }
    }
}

/// Render-safe, secret-free policy for one shipped platform.
#[derive(Clone, Debug, PartialEq, Eq)]
pub struct ScreenSecurityPolicy {
    /// Platform this policy describes.
    pub platform: ScreenSecurityPlatform,
    /// Always true: protection cannot be disabled and applies before unlock.
    pub always_on: bool,
    /// Screenshot and screen-recording prevention strength.
    pub capture_prevention: ScreenSecurityLevel,
    /// App-switcher, task-preview, or recent-window obscuring strength.
    pub background_obscuring: ScreenSecurityLevel,
    /// Live screen-capture detection strength.
    pub capture_detection: ScreenSecurityLevel,
    /// Immediate user-triggered session lock strength.
    pub rapid_lock: ScreenSecurityLevel,
    /// Short user-visible native mechanism description.
    pub mechanism: &'static str,
    /// Honest limits that must accompany the capability claims.
    pub limitations: &'static [&'static str],
}

/// The four strengths of a platform: capture prevention, background obscuring, capture
/// detection and rapid lock.
pub open spec fn strengths(platform: ScreenSecurityPlatform) -> (
    ScreenSecurityLevel,
    ScreenSecurityLevel,
    ScreenSecurityLevel,
    ScreenSecurityLevel,
) {
    match platform {
        ScreenSecurityPlatform::Android => (
            ScreenSecurityLevel::PlatformEnforced,
            ScreenSecurityLevel::PlatformEnforced,
            ScreenSecurityLevel::Unavailable,
            ScreenSecurityLevel::Unavailable,
        ),
        ScreenSecurityPlatform::Ios => (
            ScreenSecurityLevel::Unavailable,
            ScreenSecurityLevel::PlatformEnforced,
            ScreenSecurityLevel::PlatformEnforced,
            ScreenSecurityLevel::Unavailable,
        ),
        ScreenSecurityPlatform::Desktop => (
            ScreenSecurityLevel::BestEffort,
            ScreenSecurityLevel::BestEffort,
            ScreenSecurityLevel::Unavailable,
            ScreenSecurityLevel::PlatformEnforced,
        ),
    }
}

/// The mechanism that a platform's policy names.
pub open spec fn mechanism_of(platform: ScreenSecurityPlatform) -> Seq<char> {
    match platform {
        ScreenSecurityPlatform::Android => "Android FLAG_SECURE protects every Komms activity."@,
        ScreenSecurityPlatform::Ios =>
            "Komms covers inactive scenes and live captured screens with a privacy shield."@,
        ScreenSecurityPlatform::Desktop =>
            "Komms requests native content protection and locks immediately with Ctrl/Cmd+Shift+L."@,
    }
}

/// The limits that a platform's policy names.
pub open spec fn limitations_of(platform: ScreenSecurityPlatform) -> Seq<Seq<char>> {
    match platform {
        ScreenSecurityPlatform::Android => seq![
            "A compromised device, accessibility or overlay abuse, and an external camera remain outside this guarantee."@,
            "Android does not provide Komms a reliable callback for every blocked capture attempt."@,
        ],
        ScreenSecurityPlatform::Ios => seq![
            "iOS does not let Komms universally block still screenshots."@,
            "Capture notification can arrive after recording or mirroring has begun."@,
        ],
        ScreenSecurityPlatform::Desktop => seq![
            "Desktop capture and task-preview protection depends on the operating system, window server, and compositor."@,
            "Other software with sufficient privilege and an external camera remain outside this guarantee."@,
        ],
    }
}

/// Return the immutable policy for a shipped platform.
pub fn screen_security_policy(platform: ScreenSecurityPlatform) -> (policy: ScreenSecurityPolicy)
    ensures
        policy.platform == platform,
        policy.always_on,
        (
            policy.capture_prevention,
            policy.background_obscuring,
            policy.capture_detection,
            policy.rapid_lock,
        ) == strengths(platform),
        policy.mechanism@ == mechanism_of(platform),
        policy.limitations@.map_values(|text: &'static str| text@) == limitations_of(platform),
{
    let policy = match platform {
        ScreenSecurityPlatform::Android => ScreenSecurityPolicy {
            platform,
            always_on: true,
            capture_prevention: ScreenSecurityLevel::PlatformEnforced,
            background_obscuring: ScreenSecurityLevel::PlatformEnforced,
            capture_detection: ScreenSecurityLevel::Unavailable,
            rapid_lock: ScreenSecurityLevel::Unavailable,
            mechanism: "Android FLAG_SECURE protects every Komms activity.",
            limitations: &[
                "A compromised device, accessibility or overlay abuse, and an external camera remain outside this guarantee.",
                "Android does not provide Komms a reliable callback for every blocked capture attempt.",
            ],
        },
        ScreenSecurityPlatform::Ios => ScreenSecurityPolicy {
            platform,
            always_on: true,
            capture_prevention: ScreenSecurityLevel::Unavailable,
            background_obscuring: ScreenSecurityLevel::PlatformEnforced,
            capture_detection: ScreenSecurityLevel::PlatformEnforced,
            rapid_lock: ScreenSecurityLevel::Unavailable,
            mechanism: "Komms covers inactive scenes and live captured screens with a privacy shield.",
            limitations: &[
                "iOS does not let Komms universally block still screenshots.",
                "Capture notification can arrive after recording or mirroring has begun.",
            ],
        },
        ScreenSecurityPlatform::Desktop => ScreenSecurityPolicy {
            platform,
            always_on: true,
            capture_prevention: ScreenSecurityLevel::BestEffort,
            background_obscuring: ScreenSecurityLevel::BestEffort,
            capture_detection: ScreenSecurityLevel::Unavailable,
            rapid_lock: ScreenSecurityLevel::PlatformEnforced,
            mechanism: "Komms requests native content protection and locks immediately with Ctrl/Cmd+Shift+L.",
            limitations: &[
                "Desktop capture and task-preview protection depends on the operating system, window server, and compositor.",
                "Other software with sufficient privilege and an external camera remain outside this guarantee.",
            ],
        },
    };
    assert(policy.limitations@.map_values(|text: &'static str| text@) =~= limitations_of(platform));
    policy
}

/// What each platform can do: Android prevents capture, iOS detects it, and only a desktop
/// locks at once.
pub proof fn law_what_platforms_can_do()
    ensures
        strengths(ScreenSecurityPlatform::Android).0 == ScreenSecurityLevel::PlatformEnforced,
        strengths(ScreenSecurityPlatform::Ios).0 == ScreenSecurityLevel::Unavailable,
        strengths(ScreenSecurityPlatform::Desktop).0 == ScreenSecurityLevel::BestEffort,
        strengths(ScreenSecurityPlatform::Android).1 == ScreenSecurityLevel::PlatformEnforced,
        strengths(ScreenSecurityPlatform::Ios).1 == ScreenSecurityLevel::PlatformEnforced,
        strengths(ScreenSecurityPlatform::Desktop).1 == ScreenSecurityLevel::BestEffort,
        strengths(ScreenSecurityPlatform::Android).2 == ScreenSecurityLevel::Unavailable,
        strengths(ScreenSecurityPlatform::Ios).2 == ScreenSecurityLevel::PlatformEnforced,
        strengths(ScreenSecurityPlatform::Desktop).2 == ScreenSecurityLevel::Unavailable,
        strengths(ScreenSecurityPlatform::Android).3 == ScreenSecurityLevel::Unavailable,
        strengths(ScreenSecurityPlatform::Ios).3 == ScreenSecurityLevel::Unavailable,
        strengths(ScreenSecurityPlatform::Desktop).3 == ScreenSecurityLevel::PlatformEnforced,
{
}

/// No platform claims a protection without a limit.
pub proof fn law_every_platform_states_its_limits(platform: ScreenSecurityPlatform)
    ensures
        limitations_of(platform).len() == 2,
{
}

} // verus!
