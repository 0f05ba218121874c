use sender_receiver::settings::{
    interpret_settings, read_settings, Dataset, Entries, Key, Setting, SettingsError,
};

const FULL: &str = r#"
[general]
rate = 12.5
time = 3.0
save = true
send = false
receive = true
log = false
dataset = "caida"

[ip]
src = "10.7.0.4"
dst = "10.7.0.5"

[isolation]
isolate_send = true
core_send = 2
isolate_receive = false
core_receive = 3
priority = 99

[interface]
input = "eth0"
output = "wg0"
"#;

fn value(text: &str) -> toml::Value {
    text.parse().unwrap()
}

fn error_of(text: &str) -> SettingsError {
    read_settings(&value(text)).unwrap_err()
}

fn entries() -> Entries {
    Entries {
        rate: Some(Setting::Float(1.0f64.to_bits())),
        time: Some(Setting::Float(2.0f64.to_bits())),
        save: Some(Setting::Boolean(false)),
        send: Some(Setting::Boolean(true)),
        receive: Some(Setting::Boolean(false)),
        log: Some(Setting::Boolean(true)),
        dataset: Some(Setting::Text(String::new())),
        src: Some(Setting::Text("1.2.3.4".to_string())),
        dst: Some(Setting::Text("5.6.7.8".to_string())),
        isolate_send: Some(Setting::Boolean(false)),
        core_send: Some(Setting::Integer(0)),
        isolate_receive: Some(Setting::Boolean(true)),
        core_receive: Some(Setting::Integer(1)),
        priority: Some(Setting::Integer(10)),
        input: Some(Setting::Text("a".to_string())),
        output: Some(Setting::Text("b".to_string())),
    }
}

#[test]
fn settings_are_read() {
    let settings = read_settings(&value(FULL)).unwrap();
    assert_eq!(f64::from_bits(settings.rate_bits), 12.5);
    assert_eq!(f64::from_bits(settings.time_bits), 3.0);
    assert!(settings.save);
    assert!(!settings.send);
    assert!(settings.receive);
    assert!(!settings.log);
    assert_eq!(settings.dataset, Dataset::Caida);
    assert_eq!(settings.ip_src, [10, 7, 0, 4]);
    assert_eq!(settings.ip_dst, [10, 7, 0, 5]);
    assert!(settings.isolate_send);
    assert_eq!(settings.core_send, 2);
    assert!(!settings.isolate_receive);
    assert_eq!(settings.core_receive, 3);
    assert_eq!(settings.priority, 99);
    assert_eq!(settings.input, "eth0");
    assert_eq!(settings.output, "wg0");
}

#[test]
fn entries_are_interpreted() {
    let settings = interpret_settings(&entries()).unwrap();
    assert_eq!(settings.rate_bits, 1.0f64.to_bits());
    assert_eq!(settings.time_bits, 2.0f64.to_bits());
    assert_eq!(settings.dataset, Dataset::Uniform);
    assert_eq!(settings.ip_src, [1, 2, 3, 4]);
    assert_eq!(settings.ip_dst, [5, 6, 7, 8]);
    assert_eq!(settings.core_receive, 1);
    assert_eq!(settings.priority, 10);
    assert_eq!(settings.input, "a");
    assert_eq!(settings.output, "b");
}

#[test]
fn integers_are_cast() {
    let mut e = entries();
    e.core_send = Some(Setting::Integer(-1));
    e.core_receive = Some(Setting::Integer(i64::MIN));
    e.priority = Some(Setting::Integer(0x1_8000_0001));
    let settings = interpret_settings(&e).unwrap();
    assert_eq!(settings.core_send, usize::MAX);
    assert_eq!(settings.core_receive, i64::MIN as usize);
    assert_eq!(settings.priority, -0x7FFF_FFFF);
}

#[test]
fn missing_section_or_key_is_refused() {
    assert_eq!(error_of(""), SettingsError::Missing(Key::Rate));
    assert_eq!(error_of("general = 3"), SettingsError::Missing(Key::Rate));
    assert_eq!(error_of("[general]\nrate = 1.0\n"), SettingsError::Missing(Key::Time));
    assert_eq!(
        error_of(&FULL.replace("output = \"wg0\"", "")),
        SettingsError::Missing(Key::Output)
    );
    assert_eq!(SettingsError::Missing(Key::Output).message(), "index not found");
}

#[test]
fn wrong_types_are_refused() {
    for (from, to, key, message) in [
        ("rate = 12.5", "rate = 12", Key::Rate, "Rate setting not found"),
        ("time = 3.0", "time = \"3\"", Key::Time, "Sending time setting not found"),
        ("save = true", "save = 1", Key::Save, "Save setting not found"),
        ("send = false", "send = \"no\"", Key::Send, "Send setting not found"),
        ("receive = true", "receive = [true]", Key::Receive, "Receive setting not found"),
        ("log = false", "log = 0.0", Key::Log, "Is log setting not found"),
        ("dataset = \"caida\"", "dataset = 1", Key::Dataset, "Dataset setting not found"),
        ("src = \"10.7.0.4\"", "src = 10", Key::Src, "Src ip address not found"),
        ("dst = \"10.7.0.5\"", "dst = 10.7", Key::Dst, "Dst ip address not found"),
        (
            "isolate_send = true", "isolate_send = {}", Key::IsolateSend,
            "Isolate send setting not found",
        ),
        ("core_send = 2", "core_send = 2.0", Key::CoreSend, "Core send setting not found"),
        (
            "isolate_receive = false", "isolate_receive = 1979-05-27", Key::IsolateReceive,
            "Isolate receive setting not found",
        ),
        (
            "core_receive = 3", "core_receive = true", Key::CoreReceive,
            "Core receive setting not found",
        ),
        ("priority = 99", "priority = \"99\"", Key::Priority, "Thread priority setting not found"),
        ("input = \"eth0\"", "input = 0", Key::Input, "Input interface setting not found"),
        ("output = \"wg0\"", "output = 0", Key::Output, "Output interface setting not found"),
    ] {
        let error = error_of(&FULL.replace(from, to));
        assert_eq!(error, SettingsError::WrongType(key));
        assert_eq!(error.message(), message);
    }
}

#[test]
fn bad_addresses_are_refused() {
    let error = error_of(&FULL.replace("10.7.0.4", "10.7.0.400"));
    assert_eq!(error, SettingsError::NotAnAddress(Key::Src));
    assert_eq!(
        error.message(),
        "Failed to parse IP address: invalid IPv4 address syntax"
    );
    let error = error_of(&FULL.replace("10.7.0.5", "localhost"));
    assert_eq!(error, SettingsError::NotAnAddress(Key::Dst));
}

#[test]
fn first_problem_decides() {
    let mut e = entries();
    e.dst = Some(Setting::Text("x".to_string()));
    e.src = Some(Setting::Text("y".to_string()));
    e.output = None;
    assert_eq!(
        interpret_settings(&e).unwrap_err(),
        SettingsError::NotAnAddress(Key::Src)
    );
    e.log = Some(Setting::Other);
    assert_eq!(
        interpret_settings(&e).unwrap_err(),
        SettingsError::WrongType(Key::Log)
    );
    e.time = None;
    assert_eq!(
        interpret_settings(&e).unwrap_err(),
        SettingsError::Missing(Key::Time)
    );
}

#[test]
fn datasets_have_their_average() {
    assert_eq!(Dataset::from_name(&String::new()), Dataset::Uniform);
    assert_eq!(Dataset::from_name(&"caida".to_string()), Dataset::Caida);
    assert_eq!(Dataset::from_name(&"Caida".to_string()), Dataset::Unknown);
    assert_eq!(Dataset::Uniform.doubled_average_length(), 1629);
    assert_eq!(Dataset::Caida.doubled_average_length(), 2000);
    assert_eq!(Dataset::Unknown.doubled_average_length(), 0);
    assert!(Dataset::Caida.is_trace());
    assert!(!Dataset::Uniform.is_trace());
    assert!(!Dataset::Unknown.is_trace());
}

#[test]
fn entries_decide_the_settings() {
    let (first, second) = (
        interpret_settings(&entries()).unwrap(),
        interpret_settings(&entries()).unwrap(),
    );
    assert_eq!(format!("{first:?}"), format!("{second:?}"));
}

#[test]
fn log_lines_name_the_interfaces() {
    let mut settings = read_settings(&value(FULL)).unwrap();
    assert!(settings.log_lines().is_empty());
    settings.log = true;
    assert_eq!(
        settings.log_lines(),
        vec![
            "Sending Ethernet frames on interface eth0...",
            "Receiving Ethernet frames on interface wg0...",
            "Sending on specific cores = true",
        ]
    );
    settings.isolate_send = false;
    assert_eq!(settings.log_lines()[2], "Sending on specific cores = false");
}
