use gups::environment::{elements_in_memory, job_size, mem_total_kb, resolve_pmix_server_uri};

#[test]
fn total_memory_is_found() {
    let report = "MemTotal:       16316412 kB\nMemFree:         1000 kB\n";
    assert_eq!(mem_total_kb(report), Some(16316412));
    assert_eq!(mem_total_kb("MemFree: 5 kB\r\nMemTotal:\t42\r\n"), Some(42));
    assert_eq!(mem_total_kb("MemTotal: 7"), Some(7));
    assert_eq!(mem_total_kb("MemTotal:\u{a0}+9\u{2003}kB"), Some(9));
}

#[test]
fn unreadable_totals_are_passed_over() {
    assert_eq!(mem_total_kb(""), None);
    assert_eq!(mem_total_kb("MemFree: 5 kB"), None);
    assert_eq!(mem_total_kb(" MemTotal: 5 kB"), None);
    assert_eq!(mem_total_kb("MemTotal:5 kB"), None);
    assert_eq!(mem_total_kb("MemTotal:\n6 kB"), None);
    assert_eq!(mem_total_kb("MemTotal: x kB\nMemTotal: 8 kB\nMemTotal: 9 kB"), Some(8));
    assert_eq!(mem_total_kb("MemTotal: 18446744073709551616 kB"), None);
}

#[test]
fn memory_is_counted_in_elements() {
    assert_eq!(elements_in_memory(Some(1024)), 131072);
    assert_eq!(elements_in_memory(Some(0)), 0);
    assert_eq!(elements_in_memory(None), 125_000_000);
}

#[test]
fn server_address_is_the_first_line() {
    let file = Some("  prte.1;tcp4://10.0.0.1:5000 \r\nsecond\n");
    assert_eq!(
        resolve_pmix_server_uri(false, file),
        Some(String::from("prte.1;tcp4://10.0.0.1:5000"))
    );
    assert_eq!(resolve_pmix_server_uri(false, Some("a b")), Some(String::from("a b")));
    assert_eq!(resolve_pmix_server_uri(false, Some("\nlater")), None);
    assert_eq!(resolve_pmix_server_uri(false, Some(" \t\n")), None);
    assert_eq!(resolve_pmix_server_uri(false, Some("")), None);
    assert_eq!(resolve_pmix_server_uri(false, None), None);
}

#[test]
fn managed_processes_are_given_no_address() {
    assert_eq!(resolve_pmix_server_uri(true, Some("uri")), None);
    assert_eq!(resolve_pmix_server_uri(true, None), None);
}

#[test]
fn job_size_prefers_the_report() {
    assert_eq!(job_size(Some(4), Some("8")), Some(4));
    assert_eq!(job_size(None, Some("8")), Some(8));
    assert_eq!(job_size(None, Some("eight")), None);
    assert_eq!(job_size(None, Some(" 8")), None);
    assert_eq!(job_size(None, None), None);
}
