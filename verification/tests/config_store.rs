use dbus_reactor::listener::{Configs, PowerProfileListener};

fn listener_with(psm: &str, bal: &str, perf: &str) -> PowerProfileListener {
    PowerProfileListener::new_with_config(Configs {
        power_saver_mode: psm.to_string(),
        balanced_mode: bal.to_string(),
        performance_mode: perf.to_string(),
    })
}

#[test]
fn missing_file_yields_defaults() {
    let l = PowerProfileListener::new(None);
    let c = l.get_configs();
    assert_eq!(c.power_saver_mode, "");
    assert_eq!(c.balanced_mode, "");
    assert_eq!(c.performance_mode, "");
}

#[test]
fn empty_file_yields_defaults() {
    let l = PowerProfileListener::new(Some(""));
    let c = l.get_configs();
    assert_eq!(c.power_saver_mode, "");
    assert_eq!(c.balanced_mode, "");
    assert_eq!(c.performance_mode, "");
}

#[test]
fn unrelated_section_yields_defaults() {
    let text = "[other_tool]\nx = \"1\"\n";
    let l = PowerProfileListener::new(Some(text));
    let c = l.get_configs();
    assert_eq!(c.power_saver_mode, "");
    assert_eq!(c.balanced_mode, "");
    assert_eq!(c.performance_mode, "");
}

#[test]
fn persist_into_empty_document_exact_text() {
    let l = listener_with("output.1.mode.1", "output.1.mode.2", "output.1.mode.3");
    let written = l.persist(None);
    assert_eq!(
        written,
        "[kde_power]\npower_saver_mode = \"output.1.mode.1\"\nbalanced_mode = \"output.1.mode.2\"\nperformance_mode = \"output.1.mode.3\""
    );
}

#[test]
fn persist_then_read_round_trip() {
    let l = listener_with("output.1.mode.1", "output.1.mode.2", "output.1.mode.3");
    let written = l.persist(None);
    let back = PowerProfileListener::read_configs(Some(written.as_str())).unwrap();
    assert_eq!(back.power_saver_mode, "output.1.mode.1");
    assert_eq!(back.balanced_mode, "output.1.mode.2");
    assert_eq!(back.performance_mode, "output.1.mode.3");
}

#[test]
fn persist_then_read_round_trip_with_escapes() {
    let l = listener_with("a\"b", "c\\d", "e\nf\rg");
    let written = l.persist(Some("[kde_power]\nstray = \"1\"\n"));
    let back = PowerProfileListener::read_configs(Some(written.as_str())).unwrap();
    assert_eq!(back.power_saver_mode, "a\"b");
    assert_eq!(back.balanced_mode, "c\\d");
    assert_eq!(back.performance_mode, "e\nf\rg");
}

#[test]
fn persist_preserves_unrelated_section() {
    let existing = "[kde_power]\npower_saver_mode = \"output.1.mode.2\"\n[other_tool]\nx = \"1\"\n";
    let l = listener_with("output.1.mode.2", "output.2.mode.7", "");
    let written = l.persist(Some(existing));
    let lines: Vec<&str> = written.lines().collect();
    let other_at = lines
        .iter()
        .position(|l| *l == "[other_tool]")
        .expect("unrelated section header kept");
    assert_eq!(lines[other_at + 1], "x = \"1\"");
    let back = PowerProfileListener::read_configs(Some(written.as_str())).unwrap();
    assert_eq!(back.balanced_mode, "output.2.mode.7");
    assert_eq!(back.power_saver_mode, "output.1.mode.2");
}

#[test]
fn persist_keeps_unknown_fields_of_own_section() {
    let existing = "[kde_power]\ncustom = \"kept\"\npower_saver_mode = \"old\"\n";
    let l = listener_with("new", "", "");
    let written = l.persist(Some(existing));
    assert!(written.lines().any(|l| l == "custom = \"kept\""));
    let back = PowerProfileListener::read_configs(Some(written.as_str())).unwrap();
    assert_eq!(back.power_saver_mode, "new");
}

#[test]
fn read_configs_missing_file_is_none() {
    assert!(PowerProfileListener::read_configs(None).is_none());
}

#[test]
fn read_configs_partial_section_defaults_other_fields() {
    let text = "[kde_power]\nbalanced_mode = \"output.1.mode.2\"\n";
    let back = PowerProfileListener::read_configs(Some(text)).unwrap();
    assert_eq!(back.balanced_mode, "output.1.mode.2");
    assert_eq!(back.power_saver_mode, "");
    assert_eq!(back.performance_mode, "");
}

#[test]
fn configure_returns_instance_unchanged() {
    let l = listener_with("a", "b", "c");
    let l = l.configure();
    let c = l.get_configs();
    assert_eq!(c.power_saver_mode, "a");
    assert_eq!(c.balanced_mode, "b");
    assert_eq!(c.performance_mode, "c");
}
