use zapret_rust::choice::{
    parse_command, parse_menu_choice, parse_usize, restart_requested, select_config, sort_configs,
    ChoiceError, Command, MenuChoice, ParseFailure, is_decline,
};
use zapret_rust::config::{decimal_u8, replace_placeholders, service_args, GAME_FILTER_MN};
use zapret_rust::paths::{
    absolute_dir, bin_dir, concat_str, config_file, configs_dir, general_list_file, get_bin_path,
    get_configs_path, get_lists_path, lists_dir, path_contains, path_entries, path_with_dir,
    path_without_dir, service_registry_key, session_path_after_add, winws_exe, PATH_SEP,
};
use zapret_rust::service::{
    driver_needs_stop, is_marked_for_delete, is_missing_service, line_reports_timestamps,
    notice_line, path_status_label, service_notice, stop_failure_report, tcp_start_needed,
    timestamps_enabled, ServiceError, ServiceNotice, ServiceState, SRVCNAME,
};
use zapret_rust::text::{
    contains_str, join_str, lex_le_chars, replace_str, split_str, str_eq, to_chars, trim_str,
};

fn strings(items: &[&str]) -> Vec<String> {
    items.iter().map(|s| s.to_string()).collect()
}

#[test]
fn relative_directories() {
    assert_eq!(get_configs_path(), "configs/");
    assert_eq!(get_bin_path(), "bin/");
    assert_eq!(get_lists_path(), "lists/");
}

#[test]
fn tool_directories() {
    let abs = absolute_dir(r"C:\tools\zapret");
    assert_eq!(abs, r"C:\tools\zapret\");
    assert_eq!(configs_dir(&abs), r"C:\tools\zapret\configs\");
    assert_eq!(bin_dir(&abs), r"C:\tools\zapret\bin\");
    assert_eq!(lists_dir(&abs), r"C:\tools\zapret\lists\");
    assert_eq!(general_list_file(&abs), r"C:\tools\zapret\lists\list-general.txt");
    assert_eq!(config_file(r"C:\z\configs\", "general.bat"), r"C:\z\configs\general.bat");
    assert_eq!(winws_exe(r"C:\z\bin\"), r"C:\z\bin\winws.exe");
    assert_eq!(
        service_registry_key(SRVCNAME),
        r"System\CurrentControlSet\Services\zapret-rust"
    );
    assert_eq!(concat_str("ab", "cd"), "abcd");
}

#[test]
fn split_like_std() {
    for (s, pat) in [
        ("a;b;;c", ";"),
        ("", ";"),
        (";", ";"),
        ("abc", ";"),
        ("x --y --z", " --"),
        (" -- --", " --"),
        ("aaaa", "aa"),
        ("--filter --wf-tcp=80 --new", " --"),
    ] {
        let expected: Vec<String> = s.split(pat).map(String::from).collect();
        assert_eq!(split_str(s, pat), expected, "split of {:?} at {:?}", s, pat);
    }
}

#[test]
fn join_and_replace_like_std() {
    let parts = strings(&["a", "", "b"]);
    assert_eq!(join_str(&parts, ";"), "a;;b");
    assert_eq!(join_str(&Vec::new(), ";"), "");
    assert_eq!(replace_str("x%A%y%A%", "%A%", "12"), "x12y12");
    assert_eq!(replace_str("aaa", "aa", "b"), "aaa".replace("aa", "b"));
    assert_eq!(replace_str("none here", "%BIN%", "q"), "none here");
}

#[test]
fn search_and_compare() {
    assert!(contains_str("tcp timestamps", "timestamps"));
    assert!(contains_str("abc", ""));
    assert!(!contains_str("abc", "abcd"));
    assert!(str_eq("abc", "abc"));
    assert!(!str_eq("abc", "abd"));
    assert_eq!(to_chars("añb"), vec!['a', 'ñ', 'b']);
    assert!(lex_le_chars(&to_chars("ab"), &to_chars("abc")));
    assert!(!lex_le_chars(&to_chars("b"), &to_chars("abc")));
    assert!(lex_le_chars(&to_chars("same"), &to_chars("same")));
}

#[test]
fn trim_like_std() {
    for s in ["  3 \n", "\t\r\n", "", "x", " a b ", "\u{3000}7\u{a0}", "\u{85}q"] {
        assert_eq!(trim_str(s), s.trim(), "trim of {:?}", s);
    }
}

#[test]
fn path_entries_and_membership() {
    assert_eq!(path_entries(r"C:\a;C:\b;", PATH_SEP), strings(&[r"C:\a", r"C:\b", ""]));
    assert!(path_contains(r"C:\a;C:\b\", r"C:\b\", PATH_SEP));
    assert!(!path_contains(r"C:\a;C:\bb", r"C:\b", PATH_SEP));
    assert_eq!(path_entries("a:b", ":"), strings(&["a", "b"]));
}

#[test]
fn add_to_path_value() {
    assert_eq!(path_with_dir(r"C:\a", r"C:\z\", PATH_SEP), Some(r"C:\a;C:\z\".to_string()));
    assert_eq!(path_with_dir(r"C:\a;C:\z\", r"C:\z\", PATH_SEP), None);
    assert_eq!(path_with_dir("", r"C:\z\", PATH_SEP), Some(r";C:\z\".to_string()));
    assert_eq!(session_path_after_add(r"C:\a", r"C:\z\", PATH_SEP), r"C:\a;C:\z\");
}

#[test]
fn remove_from_path_value() {
    assert_eq!(
        path_without_dir(r"C:\z\;C:\a;C:\z\", r"C:\z\", PATH_SEP),
        Some(r"C:\a".to_string())
    );
    assert_eq!(path_without_dir(r"C:\a;C:\b", r"C:\z\", PATH_SEP), None);
    assert_eq!(path_without_dir(r"C:\z\", r"C:\z\", PATH_SEP), Some(String::new()));
}

#[test]
fn add_then_remove_restores_path() {
    let original = r"C:\Windows;C:\Users\me\bin";
    let dir = r"C:\tools\zapret\";
    let added = path_with_dir(original, dir, PATH_SEP).unwrap();
    assert!(path_contains(&added, dir, PATH_SEP));
    assert_eq!(path_with_dir(&added, dir, PATH_SEP), None);
    assert_eq!(path_without_dir(&added, dir, PATH_SEP), Some(original.to_string()));
    let removed = path_without_dir(&added, dir, PATH_SEP).unwrap();
    assert!(!path_contains(&removed, dir, PATH_SEP));
    assert_eq!(join_str(&path_entries(original, PATH_SEP), PATH_SEP), original);
}

#[test]
fn game_filter_text() {
    assert_eq!(decimal_u8(GAME_FILTER_MN), "12");
    for n in [0u8, 7, 10, 99, 100, 255] {
        assert_eq!(decimal_u8(n), n.to_string());
    }
}

#[test]
fn placeholders_are_filled() {
    let data = "--hostlist=\"%LISTS%list.txt\" --dpi=%GameFilter% --exe=%BIN%winws.exe";
    assert_eq!(
        replace_placeholders(data, r"C:\z\lists\", r"C:\z\bin\"),
        r#"--hostlist="C:\z\lists\list.txt" --dpi=12 --exe=C:\z\bin\winws.exe"#
    );
}

#[test]
fn service_arguments() {
    let args = service_args("--wf-tcp=80 --filter-udp=%GameFilter% --hostlist=%LISTS%a.txt", "L\\", "B\\");
    assert_eq!(
        args,
        strings(&[
            "--wf-tcp=80",
            "--filter-udp=12",
            "--hostlist=L\\a.txt",
            "filter-udp=12",
            "hostlist=L\\a.txt",
        ])
    );
    assert_eq!(service_args("single", "", ""), strings(&["single"]));
    assert_eq!(service_args("", "", ""), strings(&[""]));
}

#[test]
fn usize_parsing_like_std() {
    for s in ["", "+", "-", "0", "+7", "-0", "12a", "a12", "18446744073709551615", "18446744073709551616",
        "99999999999999999999x", "x99999999999999999999", "007"]
    {
        let expected = match s.parse::<usize>() {
            Ok(v) => Ok(v),
            Err(e) => Err(match e.kind() {
                std::num::IntErrorKind::Empty => ParseFailure::Empty,
                std::num::IntErrorKind::InvalidDigit => ParseFailure::InvalidDigit,
                _ => ParseFailure::Overflow,
            }),
        };
        assert_eq!(parse_usize(s), expected, "parse of {:?}", s);
    }
}

#[test]
fn configuration_selection() {
    assert_eq!(select_config(3, " 2\r\n"), Ok(1));
    assert_eq!(select_config(3, "1"), Ok(0));
    assert_eq!(select_config(3, "3"), Ok(2));
    assert_eq!(select_config(3, "   \n"), Err(ChoiceError::Empty));
    assert_eq!(select_config(3, "0"), Err(ChoiceError::OutOfRange));
    assert_eq!(select_config(3, "4"), Err(ChoiceError::OutOfRange));
    assert_eq!(select_config(0, "1"), Err(ChoiceError::OutOfRange));
    assert_eq!(select_config(3, "two"), Err(ChoiceError::NotANumber(ParseFailure::InvalidDigit)));
    assert_eq!(
        select_config(3, "99999999999999999999999"),
        Err(ChoiceError::NotANumber(ParseFailure::Overflow))
    );
}

#[test]
fn configurations_sorted() {
    let names = strings(&["general.bat", "ALT.bat", "general (ALT2).bat", "b", "a", "ä", "a"]);
    let mut expected = names.clone();
    expected.sort();
    assert_eq!(sort_configs(names), expected);
    assert_eq!(sort_configs(Vec::new()), Vec::<String>::new());
}

#[test]
fn menu_entries() {
    assert_eq!(parse_menu_choice("1\n"), MenuChoice::InstallService);
    assert_eq!(parse_menu_choice(" 2 "), MenuChoice::RemoveServices);
    assert_eq!(parse_menu_choice("3"), MenuChoice::CheckStatus);
    assert_eq!(parse_menu_choice("4"), MenuChoice::AddToPath);
    assert_eq!(parse_menu_choice("5"), MenuChoice::RemoveFromPath);
    assert_eq!(parse_menu_choice("6"), MenuChoice::AddDomain);
    assert_eq!(parse_menu_choice("0\r\n"), MenuChoice::Exit);
    assert_eq!(parse_menu_choice("7"), MenuChoice::Unknown);
    assert_eq!(parse_menu_choice(""), MenuChoice::Unknown);
}

#[test]
fn command_line() {
    assert_eq!(parse_command(&strings(&["zapret"])), Command::Menu);
    assert_eq!(parse_command(&strings(&["zapret", "install"])), Command::Install(None));
    assert_eq!(
        parse_command(&strings(&["zapret", "install", "general.bat"])),
        Command::Install(Some("general.bat".to_string()))
    );
    assert_eq!(parse_command(&strings(&["zapret", "remove"])), Command::Remove);
    assert_eq!(parse_command(&strings(&["zapret", "status", "x"])), Command::Status);
    assert_eq!(parse_command(&strings(&["zapret", "add"])), Command::Add(None));
    assert_eq!(
        parse_command(&strings(&["zapret", "add", "example.org"])),
        Command::Add(Some("example.org".to_string()))
    );
    assert_eq!(parse_command(&strings(&["zapret", "Install"])), Command::Menu);
    assert_eq!(parse_command(&Vec::new()), Command::Menu);
}

#[test]
fn restart_answers() {
    assert!(!restart_requested("n"));
    assert!(!restart_requested(" NO \r\n"));
    assert!(!restart_requested("No"));
    assert!(restart_requested(""));
    assert!(restart_requested("y"));
    assert!(restart_requested("nope"));
    assert!(is_decline("no"));
    assert!(!is_decline("NO"));
}

#[test]
fn service_failures() {
    assert!(is_missing_service(ServiceError::Winapi(Some(1060))));
    assert!(!is_missing_service(ServiceError::Winapi(Some(1072))));
    assert!(!is_missing_service(ServiceError::Other));
    assert!(is_marked_for_delete(ServiceError::Winapi(Some(1072))));
    assert!(!is_marked_for_delete(ServiceError::Winapi(None)));
    assert_eq!(stop_failure_report(ServiceError::Winapi(Some(5))), Some(5));
    assert_eq!(stop_failure_report(ServiceError::Winapi(None)), Some(0));
    assert_eq!(stop_failure_report(ServiceError::Winapi(Some(1062))), None);
    assert_eq!(stop_failure_report(ServiceError::Winapi(Some(1060))), None);
    assert_eq!(stop_failure_report(ServiceError::Other), None);
    assert!(driver_needs_stop(ServiceState::Running));
    assert!(!driver_needs_stop(ServiceState::Stopped));
}

#[test]
fn service_notices() {
    assert_eq!(service_notice(None, false), None);
    assert_eq!(service_notice(Some(ServiceState::Running), true), Some(ServiceNotice::AlreadyRunning));
    assert_eq!(service_notice(Some(ServiceState::Running), false), Some(ServiceNotice::Running));
    assert_eq!(service_notice(Some(ServiceState::StopPending), true), Some(ServiceNotice::StopPending));
    assert_eq!(service_notice(Some(ServiceState::Stopped), true), None);
    assert_eq!(service_notice(Some(ServiceState::Paused), false), Some(ServiceNotice::NotRunning));
    assert_eq!(notice_line("zapret-rust", ServiceNotice::Running), "\"zapret-rust\" service is RUNNING.");
    assert_eq!(
        notice_line("WinDivert", ServiceNotice::NotRunning),
        "\"WinDivert\" service is NOT running."
    );
    assert_eq!(
        notice_line("x", ServiceNotice::AlreadyRunning),
        "\"x\" is ALREADY RUNNING as service, choose `Remove Services` first."
    );
    assert_eq!(
        notice_line("x", ServiceNotice::StopPending),
        "\x1b[33m\"x\" is STOP_PENDING, that may be caused by a conflict with another bypass.\x1b[0m"
    );
    assert_eq!(path_status_label(true), "IN PATH");
    assert_eq!(path_status_label(false), "NOT IN PATH");
}

#[test]
fn tcp_timestamps() {
    let on = "TCP Global Parameters\r\n----------\r\nRFC 1323 Timestamps                 : Enabled\r\n";
    let off = "TCP Global Parameters\r\nRFC 1323 Timestamps                 : disabled\r\n";
    let split = "Timestamps\nenabled\n";
    assert!(timestamps_enabled(on));
    assert!(!timestamps_enabled(off));
    assert!(!timestamps_enabled(split));
    assert!(!timestamps_enabled(""));
    assert!(line_reports_timestamps("timestamps: enabled"));
    assert!(!line_reports_timestamps("Timestamps: Enabled"));
    assert!(!tcp_start_needed(true, on));
    assert!(tcp_start_needed(true, off));
    assert!(tcp_start_needed(false, on));
}

#[test]
fn configuration_without_placeholders_unchanged() {
    let data = "--wf-tcp=80,443 --filter-udp=50000-65535";
    assert_eq!(replace_placeholders(data, r"C:\z\lists\", r"C:\z\bin\"), data);
}
