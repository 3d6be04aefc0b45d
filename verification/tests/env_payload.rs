use rift::env::{
    default_tracked_keys, entries, snapshot_payload, to_shell, tracked_keys_from, value_of, Entry,
};

#[test]
fn tracked_keys_defaults_when_unset() {
    // RIFT_TRACK_ENV unset: no setting is handed in.
    let keys = tracked_keys_from(None);
    assert!(keys.iter().any(|k| k == "SSH_AUTH_SOCK"));
    assert_eq!(keys.len(), default_tracked_keys().len());
}

#[test]
fn snapshot_marks_set_and_unset() {
    // RIFT_ENV_TEST_SET=hello is set, RIFT_ENV_TEST_MISSING is not.
    let payload = snapshot_payload(&[
        Entry {
            key: "RIFT_ENV_TEST_SET",
            value: Some("hello"),
        },
        Entry {
            key: "RIFT_ENV_TEST_MISSING",
            value: None,
        },
    ]);
    assert_eq!(payload, "RIFT_ENV_TEST_SET=hello\n-RIFT_ENV_TEST_MISSING\n");
}

#[test]
fn entries_roundtrip() {
    let payload = "DISPLAY=:1\n-WINDOWID\nSSH_AUTH_SOCK=/tmp/ssh\n";
    let got: Vec<Entry> = entries(payload);
    assert_eq!(
        got,
        vec![
            Entry {
                key: "DISPLAY",
                value: Some(":1")
            },
            Entry {
                key: "WINDOWID",
                value: None
            },
            Entry {
                key: "SSH_AUTH_SOCK",
                value: Some("/tmp/ssh")
            },
        ]
    );
}

#[test]
fn value_of_handles_set_unset_absent() {
    let payload = "DISPLAY=:1\n-WINDOWID\n";
    assert_eq!(value_of(payload, "DISPLAY"), Some(":1"));
    assert_eq!(value_of(payload, "WINDOWID"), None);
    assert_eq!(value_of(payload, "NOPE"), None);
}

#[test]
fn shell_mode_exports_and_unsets_with_escaping() {
    let payload = "DISPLAY=:1\n-WINDOWID\nWEIRD=a'b\n";
    let shell = to_shell(payload);
    assert!(shell.contains("export DISPLAY=':1';\n"));
    assert!(shell.contains("unset WINDOWID;\n"));
    assert!(shell.contains("export WEIRD='a'\\''b';\n"));
}

#[test]
fn default_keys_are_the_built_in_list() {
    let keys = default_tracked_keys();
    assert_eq!(
        keys,
        vec![
            "DISPLAY",
            "SSH_AUTH_SOCK",
            "SSH_AGENT_PID",
            "SSH_CONNECTION",
            "WINDOWID",
            "XAUTHORITY",
            "KITTY_LISTEN_ON",
            "KITTY_PID",
            "KITTY_WINDOW_ID",
        ]
    );
}

#[test]
fn configured_keys_are_split_trimmed_and_filtered() {
    assert_eq!(
        tracked_keys_from(Some(" DISPLAY ,, TERM\t,\u{3000}LANG\u{a0},")),
        vec!["DISPLAY", "TERM", "LANG"]
    );
    assert_eq!(tracked_keys_from(Some("")), Vec::<String>::new());
    assert_eq!(tracked_keys_from(Some(" , ")), Vec::<String>::new());
    assert_eq!(tracked_keys_from(Some("A")), vec!["A"]);
}

#[test]
fn entries_follow_line_rules() {
    // CRLF endings lose the carriage return; a final line without newline
    // counts; empty lines and lines without '=' are skipped; the value keeps
    // any further '='; a lone '-' is an unset empty key.
    let got = entries("A=1\r\n\nnoequals\nB=x=y\n-\nC=last\r");
    assert_eq!(
        got,
        vec![
            Entry { key: "A", value: Some("1") },
            Entry { key: "B", value: Some("x=y") },
            Entry { key: "", value: None },
            Entry { key: "C", value: Some("last\r") },
        ]
    );
    assert!(entries("").is_empty());
    assert_eq!(entries("K=\n"), vec![Entry { key: "K", value: Some("") }]);
}

#[test]
fn value_of_takes_first_entry_of_a_key() {
    let payload = "-K\nK=later\nJ=1\nJ=2\n";
    assert_eq!(value_of(payload, "K"), None);
    assert_eq!(value_of(payload, "J"), Some("1"));
}

#[test]
fn shell_output_is_exact() {
    assert_eq!(
        to_shell("A=it's\n-B\n"),
        "export A='it'\\''s';\nunset B;\n"
    );
    assert_eq!(to_shell(""), "");
}

#[test]
fn snapshot_skips_empty_keys() {
    let payload = snapshot_payload(&[
        Entry { key: "", value: Some("ignored") },
        Entry { key: "X", value: Some("") },
        Entry { key: "", value: None },
        Entry { key: "Y", value: None },
    ]);
    assert_eq!(payload, "X=\n-Y\n");
}

#[test]
fn snapshot_reads_back() {
    let vars = vec![
        Entry { key: "DISPLAY", value: Some(":0") },
        Entry { key: "SSH_AUTH_SOCK", value: None },
        Entry { key: "WEIRD", value: Some("a=b c'd") },
    ];
    let payload = snapshot_payload(&vars);
    assert_eq!(entries(&payload), vars);
    assert_eq!(value_of(&payload, "WEIRD"), Some("a=b c'd"));
    assert_eq!(value_of(&payload, "SSH_AUTH_SOCK"), None);
}

#[test]
fn snapshot_value_with_newline_does_not_read_back() {
    let vars = vec![Entry { key: "K", value: Some("a\nb") }];
    let payload = snapshot_payload(&vars);
    assert_ne!(entries(&payload), vars);
}
