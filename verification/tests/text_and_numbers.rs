use port_inspector::aggregate::{parse_process_status, AggregateTable, PidAggregate, ProcessDetails};
use port_inspector::listing::{parse_listing_line, parse_socket_listing, RawSocketRecord};
use port_inspector::number::{decimal_text, parse_number};
use port_inspector::order::{stable_order, text_le};
use port_inspector::report::{build_report, report_rows, sort_ports};
use port_inspector::text::{
    is_all_numeric, is_space, join_texts, split_lines, split_words, tail_after_colon,
};
use port_inspector::{
    lister_command, status_command, terminate_command, PortError, Tool, ToolCommand,
};

fn strings(items: &[&str]) -> Vec<String> {
    items.iter().map(|s| s.to_string()).collect()
}

#[test]
fn field_separators_are_the_white_space_characters() {
    let mut c = 0u32;
    while c <= 0x10FFFF {
        if let Some(ch) = char::from_u32(c) {
            assert_eq!(is_space(ch), ch.is_whitespace(), "U+{:04X}", c);
        }
        c += 1;
    }
}

#[test]
fn words_are_the_runs_between_white_space() {
    for s in [
        "",
        " ",
        "a",
        " a",
        "a ",
        "  one two\tthree\n four\r\n",
        "\u{a0}x\u{3000}y\u{2003}",
        "nginx 100 root 6u IPv4 0x1 0t0 TCP *:80 (LISTEN)",
    ] {
        let want: Vec<String> = s.split_whitespace().map(|w| w.to_string()).collect();
        assert_eq!(split_words(s), want, "{:?}", s);
    }
    assert_eq!(split_words("  ab  c "), strings(&["ab", "c"]));
}

#[test]
fn lines_are_the_pieces_between_line_feeds() {
    assert_eq!(split_lines(""), strings(&[""]));
    assert_eq!(split_lines("a"), strings(&["a"]));
    assert_eq!(split_lines("a\n"), strings(&["a", ""]));
    assert_eq!(split_lines("a\n\nb c\r\nd"), strings(&["a", "", "b c\r", "d"]));
    assert_eq!(split_lines("\n"), strings(&["", ""]));
}

#[test]
fn the_port_is_what_follows_the_last_colon() {
    assert_eq!(tail_after_colon("*:80"), "80");
    assert_eq!(tail_after_colon("127.0.0.1:8080"), "8080");
    assert_eq!(tail_after_colon("[::1]:443"), "443");
    assert_eq!(tail_after_colon("host:"), "");
    assert_eq!(tail_after_colon("nocolon"), "nocolon");
    assert_eq!(tail_after_colon(""), "");
    assert_eq!(tail_after_colon(":"), "");
}

#[test]
fn numeric_text_holds_only_numeric_characters() {
    assert!(is_all_numeric("80"));
    assert!(is_all_numeric(""));
    assert!(is_all_numeric("\u{0663}7\u{2460}"));
    assert!(!is_all_numeric("http"));
    assert!(!is_all_numeric("80a"));
    assert!(!is_all_numeric("+80"));
    assert!(!is_all_numeric("8 0"));
    assert!(!is_all_numeric("\u{4e09}"));
}

#[test]
fn numbers_are_read_as_the_standard_library_reads_them() {
    for s in [
        "", "0", "7", "007", "80", "4294967295", "4294967296", "99999999999999999999", "+", "+5",
        "++5", "-5", "-0", "5+", " 5", "5 ", "5a", "a", "\u{0663}", "0000000000000000000000001",
        "+0", "٣٣",
    ] {
        assert_eq!(parse_number(s), s.parse::<u32>().ok(), "{:?}", s);
    }
    assert_eq!(parse_number("8080"), Some(8080));
    assert_eq!(parse_number("4294967296"), None);
}

#[test]
fn numbers_are_written_in_decimal_without_leading_zeros() {
    for n in [0u32, 1, 9, 10, 11, 99, 100, 101, 65535, 1000000, 4294967294, 4294967295] {
        assert_eq!(decimal_text(n), n.to_string());
        assert_eq!(parse_number(&decimal_text(n)), Some(n));
    }
    assert_eq!(decimal_text(8080), "8080");
}

#[test]
fn texts_are_joined_with_the_separator_between_neighbours() {
    assert_eq!(join_texts(&strings(&[]), ", "), "");
    assert_eq!(join_texts(&strings(&["80"]), ", "), "80");
    assert_eq!(join_texts(&strings(&["80", "443", "8080"]), ", "), "80, 443, 8080");
    assert_eq!(join_texts(&strings(&["", ""]), "-"), "-");
}

#[test]
fn texts_are_compared_in_dictionary_order_by_code_point() {
    let cases = ["", "a", "A", "ab", "abc", "b", "B", "\u{e9}", "z", "zz", "\u{10000}", "\u{ffff}"];
    for a in cases {
        for b in cases {
            let x: Vec<char> = a.chars().collect();
            let y: Vec<char> = b.chars().collect();
            assert_eq!(text_le(&x, &y), a <= b, "{:?} {:?}", a, b);
        }
    }
}

#[test]
fn a_stable_order_keeps_ties_in_place() {
    assert_eq!(stable_order::<u32>(&vec![]), Vec::<usize>::new());
    assert_eq!(stable_order(&vec![5u32]), vec![0]);
    assert_eq!(stable_order(&vec![3u32, 1, 2, 1, 3, 0]), vec![5, 1, 3, 2, 0, 4]);
    assert_eq!(stable_order(&vec![1u32, 1, 1]), vec![0, 1, 2]);
    assert_eq!(stable_order(&vec![9u32, 8, 7]), vec![2, 1, 0]);
}

#[test]
fn ports_are_sorted_by_number_and_none_is_dropped() {
    assert_eq!(sort_ports(&strings(&[])), strings(&[]));
    assert_eq!(sort_ports(&strings(&["8080", "80", "443"])), strings(&["80", "443", "8080"]));
    assert_eq!(sort_ports(&strings(&["10", "x", "9", "", "010"])), strings(&["x", "", "9", "10", "010"]));
}

#[test]
fn a_line_gives_a_record_of_its_first_second_eighth_and_ninth_field() {
    let r = parse_listing_line("nginx 100 root 6u IPv4 0x1 0t0 TCP *:80 (LISTEN)").unwrap();
    assert_eq!(
        r,
        RawSocketRecord {
            process_name: "nginx".to_string(),
            pid: 100,
            protocol: "TCP".to_string(),
            address: "*:80".to_string(),
        }
    );
    assert_eq!(r.port(), "80");
    assert!(parse_listing_line("nginx 100 root 6u IPv4 0x1 0t0 TCP").is_none());
    assert!(parse_listing_line("nginx 100 root 6u IPv4 0x1 0t0 TCP *:www").is_none());
    assert!(parse_listing_line("").is_none());
    assert!(parse_listing_line("a b c d e f g h 77").is_some());
}

#[test]
fn a_record_is_built_from_its_fields_and_the_verdict_on_its_port() {
    let fields = strings(&["sshd", "22", "root", "3u", "IPv4", "0x1", "0t0", "TCP", "*:22", "(LISTEN)"]);
    let r = RawSocketRecord::from_fields(&fields, true).unwrap();
    assert_eq!((r.process_name.as_str(), r.pid, r.protocol.as_str(), r.address.as_str()), ("sshd", 22, "TCP", "*:22"));
    assert!(RawSocketRecord::from_fields(&fields, false).is_none());
    assert!(RawSocketRecord::from_fields(&fields[..8].to_vec(), true).is_none());
    assert!(RawSocketRecord::from_fields(&fields[..9].to_vec(), true).is_some());
}

#[test]
fn a_listing_gives_its_records_in_the_order_of_its_lines() {
    let text = "HEADER\n\
                a 1 u 4u IPv4 0x1 0t0 TCP *:10 (LISTEN)\n\
                broken line\n\
                b 2 u 4u IPv6 0x1 0t0 TCP6 [::]:20 (LISTEN)\n";
    let records = parse_socket_listing(text);
    let seen: Vec<(String, u32, String, String)> =
        records.iter().map(|r| (r.process_name.clone(), r.pid, r.protocol.clone(), r.port())).collect();
    assert_eq!(
        seen,
        vec![
            ("a".to_string(), 1, "TCP".to_string(), "10".to_string()),
            ("b".to_string(), 2, "TCP6".to_string(), "20".to_string()),
        ]
    );
}

#[test]
fn a_status_line_needs_four_words() {
    assert_eq!(parse_process_status(""), None);
    assert_eq!(parse_process_status("root 0.0 0.1"), None);
    assert_eq!(
        parse_process_status("root 0.0 0.1 nginx"),
        Some(ProcessDetails {
            user: "root".to_string(),
            cpu: "0.0".to_string(),
            mem: "0.1".to_string(),
            command: "nginx".to_string(),
        })
    );
    assert_eq!(parse_process_status("root 0.0 0.1 nginx:  master   process").unwrap().command, "nginx: master process");
}

#[test]
fn the_table_holds_each_process_once_with_its_ports_and_protocols_once() {
    let text = "HEADER\n\
                a 1 u 4u IPv4 0x1 0t0 TCP *:10 (LISTEN)\n\
                b 2 u 4u IPv6 0x1 0t0 TCP6 [::]:20 (LISTEN)\n\
                a 1 u 5u IPv6 0x1 0t0 TCP6 [::]:10 (LISTEN)\n\
                a 1 u 6u IPv4 0x1 0t0 TCP *:5 (LISTEN)\n";
    let table = AggregateTable::from_records(&parse_socket_listing(text));
    assert_eq!(table.len(), 2);
    assert_eq!(table.pids(), vec![1, 2]);
    assert_eq!(table.find(2), Some(1));
    assert_eq!(table.find(3), None);
    let a: &PidAggregate = &table.entries()[0];
    assert_eq!(a.pid(), 1);
    assert_eq!(a.process_name(), "a");
    assert_eq!(a.ports(), &strings(&["10", "5"]));
    assert_eq!(a.protocols(), &strings(&["TCP", "TCP6"]));
    assert_eq!((a.user().as_str(), a.cpu().as_str(), a.mem().as_str(), a.command().as_str()), ("", "", "", ""));
}

#[test]
fn status_details_go_to_the_entry_of_their_process() {
    let mut table = AggregateTable::from_records(&parse_socket_listing(
        "H\na 1 u 4u IPv4 0x1 0t0 TCP *:10 (LISTEN)\nb 2 u 4u IPv4 0x1 0t0 TCP *:20 (LISTEN)\n",
    ));
    table.enrich(2, parse_process_status("bob 1.5 2.5 /bin/b --serve"));
    table.enrich(1, None);
    table.enrich(9, parse_process_status("eve 0 0 /bin/e"));
    let b = &table.entries()[1];
    assert_eq!((b.user().as_str(), b.cpu().as_str(), b.mem().as_str(), b.command().as_str()), ("bob", "1.5", "2.5", "/bin/b --serve"));
    assert_eq!(table.entries()[0].user(), "");
    assert_eq!(table.len(), 2);
    let rows = build_report(&table);
    assert_eq!(rows.len(), 2);
    assert_eq!(rows[1].command, "/bin/b --serve");
}

#[test]
fn the_order_of_the_rows_follows_the_folded_names_that_are_given() {
    let table = AggregateTable::from_records(&parse_socket_listing(
        "H\na 1 u 4u IPv4 0x1 0t0 TCP *:10 (LISTEN)\nb 2 u 4u IPv4 0x1 0t0 TCP *:20 (LISTEN)\n",
    ));
    let rows = report_rows(&table, &strings(&["2", "1"]));
    let names: Vec<&str> = rows.iter().map(|r| r.process_name.as_str()).collect();
    assert_eq!(names, vec!["b", "a"]);
    let rows = report_rows(&table, &strings(&["same", "same"]));
    let names: Vec<&str> = rows.iter().map(|r| r.process_name.as_str()).collect();
    assert_eq!(names, vec!["a", "b"]);
}

#[test]
fn the_commands_are_those_of_the_three_tools() {
    assert_eq!(
        lister_command(),
        ToolCommand { program: "lsof".to_string(), args: strings(&["-i", "-P", "-n", "-sTCP:LISTEN"]) }
    );
    assert_eq!(
        status_command(4242),
        ToolCommand {
            program: "ps".to_string(),
            args: strings(&["-p", "4242", "-o", "user=,%cpu=,%mem=,command="])
        }
    );
    assert_eq!(
        terminate_command(50),
        ToolCommand { program: "kill".to_string(), args: strings(&["-9", "50"]) }
    );
}

#[test]
fn every_error_has_a_one_line_rendering() {
    assert_eq!(
        PortError::ToolUnavailable { tool: Tool::ProcessStatus, detail: "gone".to_string() }.message(),
        "Failed to execute ps: gone"
    );
    assert_eq!(PortError::ToolExecutionFailed { tool: Tool::Terminator }.message(), "kill command failed");
    assert_eq!(PortError::ToolTimeout { tool: Tool::ProcessStatus }.message(), "ps command timed out");
    assert_eq!(
        PortError::TerminationFailed { pid: 4294967295, detail: String::new() }.message(),
        "Failed to kill process 4294967295: "
    );
}
