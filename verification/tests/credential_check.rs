use liveness_registry::auth::authorize;
use liveness_registry::auth::Decision;
use liveness_registry::registry::Outcome;
use liveness_registry::registry::Registry;

#[test]
fn authorize_accepts_exact_match() {
    let secret = String::from("SECRET-REDACTED");
    let presented = String::from("SECRET-REDACTED");
    assert_eq!(authorize(Some(&presented), &secret), Decision::Authorized);
}

#[test]
fn authorize_rejects_missing_credential() {
    let secret = String::from("SECRET-REDACTED");
    assert_eq!(authorize(None, &secret), Decision::Missing);
}

#[test]
fn authorize_rejects_mismatched_credential() {
    let secret = String::from("SECRET-REDACTED");
    let presented = String::from("not-the-secret");
    assert_eq!(authorize(Some(&presented), &secret), Decision::Mismatch);
    let almost = String::from("SECRET-REDACTED ");
    assert_eq!(authorize(Some(&almost), &secret), Decision::Mismatch);
}

#[test]
fn scenario_gated_announcements() {
    let secret = String::from("SECRET-REDACTED");
    let good = String::from("SECRET-REDACTED");
    let bad = String::from("wrong");
    let mut r = Registry::new();

    let d = r.announce(Some(&good), &secret, String::from("svc-b"), 5, 0);
    assert_eq!(d, Decision::Authorized);
    assert_eq!(r.deadline_of("svc-b"), Some(5));

    // A rejected announcement alters nothing.
    let d = r.announce(Some(&bad), &secret, String::from("svc-b"), 99, 1);
    assert_eq!(d, Decision::Mismatch);
    assert_eq!(r.deadline_of("svc-b"), Some(5));
    assert_eq!(r.len(), 1);

    let d = r.announce(None, &secret, String::from("svc-b"), 99, 1);
    assert_eq!(d, Decision::Missing);
    assert_eq!(r.deadline_of("svc-b"), Some(5));

    // Queries are unauthenticated: the outcome ignores what was presented.
    assert_eq!(r.check("svc-b", 4), Outcome::Alive);
}
