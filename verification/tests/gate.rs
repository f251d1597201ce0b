use rolegate::engine::{decide, decide_from_reads, Decision, StoreError};
use rolegate::interceptor::{
    plan_message, plan_message_from_reads, terminal_of, MessagePlan, Terminal,
};
use rolegate::notice::{default_notice, u64_dec};
use rolegate::store::PolicyStore;

fn deny_text(d: Decision) -> String {
    match d {
        Decision::Deny(m) => m,
        Decision::Allow => panic!("expected Deny"),
    }
}

#[test]
fn exception_takes_precedence_over_blacklist() {
    let mut s = PolicyStore::new();
    s.upsert_blacklist(1, 2, Some("kept out".to_string()));
    s.insert_exception_if_absent(1, 2);
    let d = decide(&s, 1, &vec![2]);
    assert!(matches!(d, Decision::Allow));
}

#[test]
fn multi_role_union_denies_on_any_blacklisted_role() {
    let mut s = PolicyStore::new();
    s.upsert_blacklist(1, 2, Some("m".to_string()));
    let d = decide(&s, 1, &vec![2, 3]);
    assert_eq!(deny_text(d), "m");
    let d = decide(&s, 1, &vec![3]);
    assert!(matches!(d, Decision::Allow));
}

#[test]
fn deny_uses_default_notice_when_no_custom_message() {
    let mut s = PolicyStore::new();
    s.upsert_blacklist(42, 2, None);
    let d = decide(&s, 42, &vec![2]);
    assert_eq!(
        deny_text(d),
        "Your message in <#42> was deleted because you have a blacklisted role."
    );
}

#[test]
fn deny_uses_default_notice_when_custom_message_is_empty() {
    let mut s = PolicyStore::new();
    s.upsert_blacklist(7, 2, Some(String::new()));
    let d = decide(&s, 7, &vec![2]);
    assert_eq!(
        deny_text(d),
        "Your message in <#7> was deleted because you have a blacklisted role."
    );
}

#[test]
fn decimal_rendering_is_exact() {
    assert_eq!(u64_dec(0), "0");
    assert_eq!(u64_dec(9), "9");
    assert_eq!(u64_dec(10), "10");
    assert_eq!(u64_dec(1234567890), "1234567890");
    assert_eq!(u64_dec(u64::MAX), "18446744073709551615");
    assert_eq!(
        default_notice(987654321),
        "Your message in <#987654321> was deleted because you have a blacklisted role."
    );
}

#[test]
fn evaluation_is_fail_open_on_store_errors() {
    let d = decide_from_reads(5, Err(StoreError), Err(StoreError));
    assert!(matches!(d, Decision::Allow));
    let d = decide_from_reads(5, Ok(false), Err(StoreError));
    assert!(matches!(d, Decision::Allow));
    let d = decide_from_reads(5, Err(StoreError), Ok(Some((2, "m".to_string()))));
    assert_eq!(deny_text(d), "m");
    let d = decide_from_reads(5, Ok(true), Ok(Some((2, "m".to_string()))));
    assert!(matches!(d, Decision::Allow));
}

#[test]
fn end_to_end_scenario() {
    let mut s = PolicyStore::new();
    s.upsert_blacklist(1, 101, Some("no access".to_string()));
    s.insert_exception_if_absent(1, 102);

    // Author holding the blacklisted role: suppressed with the custom notice.
    let p = plan_message(&s, 1, false, &Some(vec![101]));
    match &p {
        MessagePlan::Suppress(m) => assert_eq!(m, "no access"),
        MessagePlan::Pass => panic!("expected Suppress"),
    }
    assert!(matches!(terminal_of(&p, true, true), Terminal::Suppressed));
    // Best-effort side effects: failures do not change the terminal state.
    assert!(matches!(terminal_of(&p, false, false), Terminal::Suppressed));
    assert!(matches!(terminal_of(&p, true, false), Terminal::Suppressed));

    // Author also holding the exception role: the message is kept.
    let p = plan_message(&s, 1, false, &Some(vec![101, 102]));
    assert!(matches!(p, MessagePlan::Pass));

    // Author with an unrelated role: the message is kept.
    let p = plan_message(&s, 1, false, &Some(vec![103]));
    assert!(matches!(p, MessagePlan::Pass));
}

#[test]
fn automated_authors_and_unresolved_roles_pass() {
    let mut s = PolicyStore::new();
    s.upsert_blacklist(1, 101, None);
    let p = plan_message(&s, 1, true, &Some(vec![101]));
    assert!(matches!(p, MessagePlan::Pass));
    let p = plan_message(&s, 1, false, &None);
    assert!(matches!(p, MessagePlan::Pass));
}

#[test]
fn plan_from_reads_is_fail_open_everywhere() {
    let p = plan_message_from_reads(1, true, true, Ok(false), Ok(Some((2, "m".to_string()))));
    assert!(matches!(p, MessagePlan::Pass));
    let p = plan_message_from_reads(1, false, false, Ok(false), Ok(Some((2, "m".to_string()))));
    assert!(matches!(p, MessagePlan::Pass));
    let p = plan_message_from_reads(1, false, true, Err(StoreError), Err(StoreError));
    assert!(matches!(p, MessagePlan::Pass));
    let p = plan_message_from_reads(1, false, true, Ok(false), Ok(Some((2, "m".to_string()))));
    match p {
        MessagePlan::Suppress(m) => assert_eq!(m, "m"),
        MessagePlan::Pass => panic!("expected Suppress"),
    }
}

#[test]
fn decisions_are_stateless_and_repeatable() {
    let mut s = PolicyStore::new();
    s.upsert_blacklist(1, 2, Some("m".to_string()));
    let a = deny_text(decide(&s, 1, &vec![2]));
    let b = deny_text(decide(&s, 1, &vec![2]));
    assert_eq!(a, b);
}
