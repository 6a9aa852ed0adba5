use minutes_app::names::{mic_output_active, parse_process_names, window_count_from_output};

#[test]
fn process_names_from_ps_output() {
    let out = "/sbin/launchd\n  /Applications/zoom.us.app/Contents/MacOS/zoom.us  \n\n\
               /Applications/Microsoft Teams.app/Contents/MacOS/Microsoft Teams\r\nloginwindow\n";
    assert_eq!(
        parse_process_names(out),
        vec!["launchd", "zoom.us", "Microsoft Teams", "loginwindow"]
    );
    assert_eq!(parse_process_names(""), Vec::<String>::new());
    assert_eq!(parse_process_names("   \n\t\n"), Vec::<String>::new());
    // a trailing slash leaves an empty name
    assert_eq!(parse_process_names("/usr/lib/\n"), vec![""]);
}

#[test]
fn window_counts_from_output() {
    assert_eq!(window_count_from_output(Some("3\n")), 3);
    assert_eq!(window_count_from_output(Some("  0  ")), 0);
    assert_eq!(window_count_from_output(Some("+7")), 7);
    assert_eq!(window_count_from_output(Some("4294967295")), u32::MAX);
    assert_eq!(window_count_from_output(Some("4294967296")), u32::MAX);
    assert_eq!(window_count_from_output(Some("abc")), u32::MAX);
    assert_eq!(window_count_from_output(Some("")), u32::MAX);
    assert_eq!(window_count_from_output(Some("-1")), u32::MAX);
    assert_eq!(window_count_from_output(Some("+")), u32::MAX);
    assert_eq!(window_count_from_output(Some("1 2")), u32::MAX);
    assert_eq!(window_count_from_output(Some("\u{a0}12\u{3000}")), 12);
    assert_eq!(window_count_from_output(None), u32::MAX);
}

#[test]
fn microphone_check_output() {
    assert!(mic_output_active("1\n"));
    assert!(mic_output_active(" 1 "));
    assert!(!mic_output_active("0\n"));
    assert!(!mic_output_active("11"));
    assert!(!mic_output_active(""));
}
