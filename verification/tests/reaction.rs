use dbus_reactor::listener::{Configs, PowerProfileListener, ReactionPlan};
use dbus_reactor::watch::process_events;

fn listener_with(psm: &str, bal: &str, perf: &str) -> PowerProfileListener {
    PowerProfileListener::new_with_config(Configs {
        power_saver_mode: psm.to_string(),
        balanced_mode: bal.to_string(),
        performance_mode: perf.to_string(),
    })
}

fn mode_of(plan: &ReactionPlan) -> Option<&str> {
    match plan {
        ReactionPlan::SwitchMode(m) => Some(m.as_str()),
        _ => None,
    }
}

#[test]
fn known_profiles_pick_their_modes() {
    let l = listener_with("m.saver", "m.balanced", "m.performance");
    assert_eq!(mode_of(&l.plan_reaction("power-saver")), Some("m.saver"));
    assert_eq!(mode_of(&l.plan_reaction("balanced")), Some("m.balanced"));
    assert_eq!(mode_of(&l.plan_reaction("performance")), Some("m.performance"));
}

#[test]
fn unknown_profile_is_diagnosed() {
    let l = listener_with("m.saver", "m.balanced", "m.performance");
    assert!(matches!(l.plan_reaction("turbo"), ReactionPlan::UnknownProfile));
}

#[test]
fn empty_mode_invokes_nothing() {
    let l = PowerProfileListener::new(None);
    assert!(matches!(l.plan_reaction("balanced"), ReactionPlan::ModeUnset));
}

#[test]
fn read_failure_does_not_stop_the_loop() {
    let l = listener_with("m.saver", "m.balanced", "m.performance");
    let events = vec![
        Some("performance".to_string()),
        None,
        Some("power-saver".to_string()),
    ];
    let plans = process_events(&l, &events);
    assert_eq!(plans.len(), 2);
    assert_eq!(mode_of(&plans[0]), Some("m.performance"));
    assert_eq!(mode_of(&plans[1]), Some("m.saver"));
}

#[test]
fn duplicate_event_reacts_identically_twice() {
    let l = listener_with("m.saver", "m.balanced", "m.performance");
    let events = vec![
        Some("performance".to_string()),
        Some("performance".to_string()),
    ];
    let plans = process_events(&l, &events);
    assert_eq!(plans.len(), 2);
    assert_eq!(mode_of(&plans[0]), Some("m.performance"));
    assert_eq!(mode_of(&plans[1]), Some("m.performance"));
}

#[test]
fn doctor_output_with_mode_line_builds_notification() {
    let l = listener_with("m.saver", "m.balanced", "m.performance");
    let stderr = "kscreen.doctor: Output 1 set mode 1920x1080@144\n";
    let n = l.handle_doctor_output("performance", stderr).unwrap();
    assert_eq!(n.app_name, "dbus-reactor");
    assert_eq!(n.icon, "battery-low");
    assert_eq!(
        n.body,
        "Profile Changed to performance.\nResolution: 1920x1080\nRefresh rate: 144Hz"
    );
}

#[test]
fn doctor_output_without_mode_line_is_diagnosed() {
    let l = listener_with("m.saver", "m.balanced", "m.performance");
    assert!(l.handle_doctor_output("balanced", "nothing useful here").is_none());
}
