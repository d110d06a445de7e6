use port_inspector::{
    kill_process, list_ports, probe_targets, PidInfo, PortError, PortInfo, StatusProbe, Tool,
    ToolOutput, ToolRun,
};

const HEADER: &str = "COMMAND   PID USER   FD   TYPE DEVICE SIZE/OFF NODE NAME\n";

fn ran(stdout: &str) -> ToolRun {
    ToolRun::Completed(ToolOutput {
        success: true,
        stdout: stdout.to_string(),
        stderr: String::new(),
    })
}

fn failed(stderr: &str) -> ToolRun {
    ToolRun::Completed(ToolOutput {
        success: false,
        stdout: String::new(),
        stderr: stderr.to_string(),
    })
}

fn listing(lines: &[&str]) -> ToolRun {
    let mut text = String::from(HEADER);
    for line in lines {
        text.push_str(line);
        text.push('\n');
    }
    ran(&text)
}

fn probe(pid: u32, stdout: &str) -> StatusProbe {
    StatusProbe { pid, run: ran(stdout) }
}

fn info(pid: u32, ports: &str, user: &str, cpu: &str, mem: &str) -> PidInfo {
    PidInfo {
        pid,
        ports: ports.to_string(),
        user: user.to_string(),
        cpu: cpu.to_string(),
        mem: mem.to_string(),
    }
}

fn row(name: &str, command: &str, pids: Vec<PidInfo>) -> PortInfo {
    PortInfo { process_name: name.to_string(), command: command.to_string(), pids }
}

#[test]
fn two_processes_with_one_name_and_command_share_a_row() {
    let l = listing(&[
        "nginx 200 www 6u IPv4 0x1 0t0 TCP *:8080 (LISTEN)",
        "nginx 100 root 6u IPv4 0x2 0t0 TCP *:80 (LISTEN)",
    ]);
    let probes = vec![
        probe(200, "www 0.1 0.2 nginx: master\n"),
        probe(100, "root 0.0 0.3 nginx: master\n"),
    ];
    let rows = list_ports(&l, &probes).unwrap();
    assert_eq!(
        rows,
        vec![row(
            "nginx",
            "nginx: master",
            vec![info(100, "80", "root", "0.0", "0.3"), info(200, "8080", "www", "0.1", "0.2")],
        )]
    );
}

#[test]
fn a_port_listed_twice_for_one_process_is_reported_once() {
    let l = listing(&[
        "httpd 50 root 4u IPv4 0x1 0t0 TCP *:443 (LISTEN)",
        "httpd 50 root 5u IPv6 0x2 0t0 TCP [::1]:443 (LISTEN)",
    ]);
    let rows = list_ports(&l, &vec![probe(50, "root 1.0 2.0 /usr/sbin/httpd -k start")]).unwrap();
    assert_eq!(
        rows,
        vec![row("httpd", "/usr/sbin/httpd -k start", vec![info(50, "443", "root", "1.0", "2.0")])]
    );
}

#[test]
fn a_process_whose_probe_failed_stays_with_empty_details() {
    let l = listing(&[
        "httpd 50 root 4u IPv4 0x1 0t0 TCP *:443 (LISTEN)",
        "httpd 50 root 4u IPv4 0x1 0t0 TCP *:80 (LISTEN)",
        "redis 60 redis 4u IPv4 0x1 0t0 TCP 127.0.0.1:6379 (LISTEN)",
    ]);
    let probes = vec![
        StatusProbe { pid: 50, run: ToolRun::Unavailable("No such file or directory".to_string()) },
        probe(60, "redis 0.5 1.5 redis-server *:6379"),
    ];
    let rows = list_ports(&l, &probes).unwrap();
    assert_eq!(
        rows,
        vec![
            row("httpd", "", vec![info(50, "80, 443", "", "", "")]),
            row("redis", "redis-server *:6379", vec![info(60, "6379", "redis", "0.5", "1.5")]),
        ]
    );
}

#[test]
fn a_probe_with_empty_or_short_output_changes_nothing() {
    let l = listing(&["a 1 u 4u IPv4 0x1 0t0 TCP *:1 (LISTEN)", "b 2 u 4u IPv4 0x1 0t0 TCP *:2 (LISTEN)"]);
    let probes = vec![probe(1, ""), probe(2, "user 0.0 0.0")];
    let rows = list_ports(&l, &probes).unwrap();
    assert_eq!(
        rows,
        vec![row("a", "", vec![info(1, "1", "", "", "")]), row("b", "", vec![info(2, "2", "", "", "")])]
    );
}

#[test]
fn a_probe_is_read_whatever_the_tool_said_of_its_success() {
    let l = listing(&["a 1 u 4u IPv4 0x1 0t0 TCP *:1 (LISTEN)"]);
    let run = ToolRun::Completed(ToolOutput {
        success: false,
        stdout: "me 0.0 0.1 /bin/a".to_string(),
        stderr: String::new(),
    });
    let rows = list_ports(&l, &vec![StatusProbe { pid: 1, run }]).unwrap();
    assert_eq!(rows, vec![row("a", "/bin/a", vec![info(1, "1", "me", "0.0", "0.1")])]);
}

#[test]
fn a_probe_of_an_unlisted_process_is_ignored() {
    let l = listing(&["a 1 u 4u IPv4 0x1 0t0 TCP *:1 (LISTEN)"]);
    let rows = list_ports(&l, &vec![probe(7, "me 0.0 0.1 /bin/other")]).unwrap();
    assert_eq!(rows, vec![row("a", "", vec![info(1, "1", "", "", "")])]);
}

#[test]
fn the_command_keeps_all_its_words_with_single_blanks() {
    let l = listing(&["java 9 app 4u IPv4 0x1 0t0 TCP *:9000 (LISTEN)"]);
    let rows =
        list_ports(&l, &vec![probe(9, "  app  12.5   3.1  /usr/bin/java   -jar \t app.jar  --port 9000 \n")])
            .unwrap();
    assert_eq!(
        rows,
        vec![row(
            "java",
            "/usr/bin/java -jar app.jar --port 9000",
            vec![info(9, "9000", "app", "12.5", "3.1")]
        )]
    );
}

#[test]
fn lines_with_too_few_fields_or_a_port_that_is_no_number_are_skipped() {
    let l = listing(&[
        "short 1 root 4u IPv4 0x1 0t0 TCP",
        "named 2 root 4u IPv4 0x1 0t0 TCP *:http (LISTEN)",
        "",
        "mixed 3 root 4u IPv4 0x1 0t0 TCP *:80a (LISTEN)",
        "good 4 root 4u IPv4 0x1 0t0 TCP 10.0.0.1:22",
    ]);
    assert_eq!(probe_targets(&l).unwrap(), vec![4]);
    let rows = list_ports(&l, &vec![]).unwrap();
    assert_eq!(rows, vec![row("good", "", vec![info(4, "22", "", "", "")])]);
}

#[test]
fn the_header_line_is_skipped_even_where_it_looks_like_a_socket() {
    let l = ran("x 1 u 4u IPv4 0x1 0t0 TCP *:1 (LISTEN)\ny 2 u 4u IPv4 0x1 0t0 TCP *:2 (LISTEN)");
    assert_eq!(probe_targets(&l).unwrap(), vec![2]);
}

#[test]
fn an_empty_listing_gives_an_empty_report() {
    assert_eq!(list_ports(&ran(""), &vec![]).unwrap(), vec![]);
    assert_eq!(list_ports(&ran(HEADER), &vec![]).unwrap(), vec![]);
    assert_eq!(probe_targets(&ran("")).unwrap(), Vec::<u32>::new());
}

#[test]
fn carriage_returns_at_line_ends_do_not_matter() {
    let l = ran("COMMAND PID USER FD TYPE DEVICE SIZE/OFF NODE NAME\r\na 1 u 4u IPv4 0x1 0t0 TCP *:1\r\n");
    assert_eq!(list_ports(&l, &vec![]).unwrap(), vec![row("a", "", vec![info(1, "1", "", "", "")])]);
}

#[test]
fn a_process_id_that_is_no_number_counts_as_zero() {
    let l = listing(&[
        "odd abc root 4u IPv4 0x1 0t0 TCP *:1 (LISTEN)",
        "odd 4294967296 root 4u IPv4 0x1 0t0 TCP *:2 (LISTEN)",
    ]);
    assert_eq!(probe_targets(&l).unwrap(), vec![0]);
    assert_eq!(list_ports(&l, &vec![]).unwrap(), vec![row("odd", "", vec![info(0, "1, 2", "", "", "")])]);
}

#[test]
fn the_first_name_seen_for_a_process_is_kept() {
    let l = listing(&[
        "first 5 root 4u IPv4 0x1 0t0 TCP *:1 (LISTEN)",
        "second 5 root 4u IPv4 0x1 0t0 TCP *:2 (LISTEN)",
    ]);
    assert_eq!(list_ports(&l, &vec![]).unwrap(), vec![row("first", "", vec![info(5, "1, 2", "", "", "")])]);
}

#[test]
fn ports_are_in_ascending_order_of_their_numbers_and_ties_keep_their_order() {
    let l = listing(&[
        "a 1 u 4u IPv4 0x1 0t0 TCP *:8080 (LISTEN)",
        "a 1 u 4u IPv4 0x1 0t0 TCP *:443 (LISTEN)",
        "a 1 u 4u IPv4 0x1 0t0 TCP *:99999999999 (LISTEN)",
        "a 1 u 4u IPv4 0x1 0t0 TCP *:080 (LISTEN)",
        "a 1 u 4u IPv4 0x1 0t0 TCP *:80 (LISTEN)",
        "a 1 u 4u IPv4 0x1 0t0 TCP *: (LISTEN)",
        "a 1 u 4u IPv4 0x1 0t0 TCP *:\u{0663} (LISTEN)",
        "a 1 u 4u IPv4 0x1 0t0 TCP *:9 (LISTEN)",
    ]);
    let rows = list_ports(&l, &vec![]).unwrap();
    assert_eq!(
        rows,
        vec![row("a", "", vec![info(1, "99999999999, , \u{0663}, 9, 080, 80, 443, 8080", "", "", "")])]
    );
}

#[test]
fn rows_are_in_order_of_their_names_without_regard_to_case() {
    let l = listing(&[
        "Zeta 1 u 4u IPv4 0x1 0t0 TCP *:1 (LISTEN)",
        "alpha 2 u 4u IPv4 0x1 0t0 TCP *:2 (LISTEN)",
        "Beta 3 u 4u IPv4 0x1 0t0 TCP *:3 (LISTEN)",
        "\u{c9}cole 4 u 4u IPv4 0x1 0t0 TCP *:4 (LISTEN)",
    ]);
    let rows = list_ports(&l, &vec![]).unwrap();
    let names: Vec<&str> = rows.iter().map(|r| r.process_name.as_str()).collect();
    assert_eq!(names, vec!["alpha", "Beta", "Zeta", "\u{c9}cole"]);
}

#[test]
fn rows_whose_names_tie_are_ordered_by_name_and_then_by_command() {
    let l = listing(&[
        "node 1 u 4u IPv4 0x1 0t0 TCP *:1 (LISTEN)",
        "Node 2 u 4u IPv4 0x1 0t0 TCP *:2 (LISTEN)",
        "node 3 u 4u IPv4 0x1 0t0 TCP *:3 (LISTEN)",
        "node 4 u 4u IPv4 0x1 0t0 TCP *:4 (LISTEN)",
    ]);
    let probes = vec![
        probe(1, "u 0 0 node server.js"),
        probe(2, "u 0 0 node z.js"),
        probe(3, "u 0 0 node api.js"),
        probe(4, "u 0 0 node server.js"),
    ];
    let rows = list_ports(&l, &probes).unwrap();
    assert_eq!(
        rows,
        vec![
            row("Node", "node z.js", vec![info(2, "2", "u", "0", "0")]),
            row("node", "node api.js", vec![info(3, "3", "u", "0", "0")]),
            row("node", "node server.js", vec![info(1, "1", "u", "0", "0"), info(4, "4", "u", "0", "0")]),
        ]
    );
}

#[test]
fn processes_that_differ_in_name_or_command_get_rows_of_their_own() {
    let l = listing(&[
        "w 30 u 4u IPv4 0x1 0t0 TCP *:3 (LISTEN)",
        "w 10 u 4u IPv4 0x1 0t0 TCP *:1 (LISTEN)",
        "w 20 u 4u IPv4 0x1 0t0 TCP *:2 (LISTEN)",
        "v 40 u 4u IPv4 0x1 0t0 TCP *:4 (LISTEN)",
    ]);
    let probes = vec![
        probe(30, "u 0 0 w --pool"),
        probe(10, "u 0 0 w --pool"),
        probe(20, "u 0 0 w --other"),
        probe(40, "u 0 0 w --pool"),
    ];
    let rows = list_ports(&l, &probes).unwrap();
    assert_eq!(
        rows,
        vec![
            row("v", "w --pool", vec![info(40, "4", "u", "0", "0")]),
            row("w", "w --other", vec![info(20, "2", "u", "0", "0")]),
            row("w", "w --pool", vec![info(10, "1", "u", "0", "0"), info(30, "3", "u", "0", "0")]),
        ]
    );
}

#[test]
fn the_same_input_gives_the_same_report() {
    let l = listing(&[
        "b 2 u 4u IPv4 0x1 0t0 TCP *:2 (LISTEN)",
        "a 1 u 4u IPv4 0x1 0t0 TCP *:1 (LISTEN)",
        "B 3 u 4u IPv4 0x1 0t0 TCP *:3 (LISTEN)",
    ]);
    let probes = vec![probe(1, "u 0 0 a"), probe(2, "u 0 0 b"), probe(3, "u 0 0 b")];
    assert_eq!(list_ports(&l, &probes), list_ports(&l, &probes));
}

#[test]
fn a_later_probe_of_the_same_process_replaces_an_earlier_one() {
    let l = listing(&["a 1 u 4u IPv4 0x1 0t0 TCP *:1 (LISTEN)"]);
    let probes = vec![probe(1, "u 0 0 old"), probe(1, "v 1 1 new"), probe(1, "")];
    assert_eq!(list_ports(&l, &probes).unwrap(), vec![row("a", "new", vec![info(1, "1", "v", "1", "1")])]);
}

#[test]
fn a_socket_lister_that_cannot_be_started_ends_the_report() {
    let l = ToolRun::Unavailable("No such file or directory (os error 2)".to_string());
    let e = list_ports(&l, &vec![]).unwrap_err();
    assert_eq!(
        e,
        PortError::ToolUnavailable {
            tool: Tool::SocketLister,
            detail: "No such file or directory (os error 2)".to_string()
        }
    );
    assert_eq!(e.message(), "Failed to execute lsof: No such file or directory (os error 2)");
    assert_eq!(probe_targets(&l).unwrap_err(), e);
}

#[test]
fn a_socket_lister_that_reports_failure_ends_the_report() {
    let e = list_ports(&failed("lsof: status error"), &vec![]).unwrap_err();
    assert_eq!(e, PortError::ToolExecutionFailed { tool: Tool::SocketLister });
    assert_eq!(e.message(), "lsof command failed");
}

#[test]
fn a_socket_lister_that_does_not_finish_ends_the_report() {
    let e = list_ports(&ToolRun::TimedOut, &vec![]).unwrap_err();
    assert_eq!(e, PortError::ToolTimeout { tool: Tool::SocketLister });
    assert_eq!(e.message(), "lsof command timed out");
}

#[test]
fn ending_a_process_is_confirmed_with_its_id() {
    assert_eq!(kill_process(50, &ran("")).unwrap(), "Process 50 killed successfully");
    assert_eq!(kill_process(0, &ran("")).unwrap(), "Process 0 killed successfully");
    assert_eq!(kill_process(4294967295, &ran("")).unwrap(), "Process 4294967295 killed successfully");
}

#[test]
fn ending_a_process_that_does_not_exist_fails_with_the_tools_complaint() {
    let e = kill_process(50, &failed("kill: 50: No such process\n")).unwrap_err();
    assert_eq!(
        e,
        PortError::TerminationFailed { pid: 50, detail: "kill: 50: No such process\n".to_string() }
    );
    assert_eq!(e.message(), "Failed to kill process 50: kill: 50: No such process\n");
    let l = listing(&["a 50 u 4u IPv4 0x1 0t0 TCP *:1 (LISTEN)"]);
    assert_eq!(list_ports(&l, &vec![]).unwrap(), vec![row("a", "", vec![info(50, "1", "", "", "")])]);
}

#[test]
fn a_terminator_that_cannot_be_started_or_does_not_finish_fails() {
    let e = kill_process(7, &ToolRun::Unavailable("permission denied".to_string())).unwrap_err();
    assert_eq!(
        e,
        PortError::ToolUnavailable { tool: Tool::Terminator, detail: "permission denied".to_string() }
    );
    assert_eq!(e.message(), "Failed to kill process: permission denied");
    let e = kill_process(7, &ToolRun::TimedOut).unwrap_err();
    assert_eq!(e, PortError::ToolTimeout { tool: Tool::Terminator });
    assert_eq!(e.message(), "kill command timed out");
}
