use autolocalhost::hosts::HostsFileManager;

const BEGIN: &str = "# BEGIN MANAGED BLOCK - DO NOT EDIT MANUALLY # kz.byte0.autolocalhost";
const END: &str = "# END MANAGED BLOCK - DO NOT EDIT MANUALLY # kz.byte0.autolocalhost";

fn manager() -> HostsFileManager {
    HostsFileManager::new("/etc/hosts".to_string())
}

fn domains(ds: &[&str]) -> Vec<String> {
    ds.iter().map(|d| d.to_string()).collect()
}

#[test]
fn new_sets_path_and_markers() {
    let m = manager();
    assert_eq!(m.hosts_file_path, "/etc/hosts");
    assert_eq!(m.block_start, BEGIN);
    assert_eq!(m.block_end, END);
}

#[test]
fn block_lists_each_domain() {
    let b = manager().create_managed_block(&domains(&["a.test", "b.test"]));
    assert_eq!(b, format!("{BEGIN}\n127.0.0.1 a.test\n127.0.0.1 b.test\n{END}"));
}

#[test]
fn block_is_appended_after_one_blank_line() {
    let out = manager().update_managed_block("127.0.0.1 localhost\n", &domains(&["a.test"]));
    assert_eq!(out, format!("127.0.0.1 localhost\n\n{BEGIN}\n127.0.0.1 a.test\n{END}\n"));
}

#[test]
fn block_alone_in_empty_file() {
    let out = manager().update_managed_block("", &domains(&["a.test"]));
    assert_eq!(out, format!("{BEGIN}\n127.0.0.1 a.test\n{END}\n"));
}

#[test]
fn localhost_is_left_out() {
    let out = manager().update_managed_block("", &domains(&["localhost", "a.test"]));
    assert_eq!(out, format!("{BEGIN}\n127.0.0.1 a.test\n{END}\n"));
    let out = manager().update_managed_block("x\n", &domains(&["localhost"]));
    assert_eq!(out, "x\n");
}

#[test]
fn update_is_idempotent() {
    let m = manager();
    let ds = domains(&["a.test", "b.test"]);
    for start in ["", "127.0.0.1 localhost\n", "a\n\n\nb", "127.0.0.1 localhost\n\n\n", "a\r", "a\r\r\nb\r"] {
        let once = m.update_managed_block(start, &ds);
        let twice = m.update_managed_block(&once, &ds);
        assert_eq!(once, twice);
    }
}

#[test]
fn update_is_idempotent_with_an_existing_block() {
    let m = manager();
    let ds = domains(&["b.test", "c.test"]);
    let starts = [
        format!("127.0.0.1 localhost\n\n{BEGIN}\n127.0.0.1 old.test\n{END}\n\n# tail\n"),
        format!("{BEGIN}\n{END}\nrest"),
        format!("head\n{BEGIN}\n127.0.0.1 x\n{END}"),
        format!("a\r\n\n\n  \n\n{BEGIN}\nold\n{END}\n\n\n\nb\r\n\n\nc\n\n"),
        format!("  \n{BEGIN}\n{END}\n   \n"),
    ];
    for start in starts.iter() {
        let once = m.update_managed_block(start, &ds);
        let twice = m.update_managed_block(&once, &ds);
        assert_eq!(once, twice);
    }
}

#[test]
fn existing_block_is_replaced() {
    let m = manager();
    let start = format!("a\n\n{BEGIN}\n127.0.0.1 old.test\n{END}\n\nb\n");
    let out = m.update_managed_block(&start, &domains(&["new.test"]));
    assert_eq!(out, format!("a\n\n{BEGIN}\n127.0.0.1 new.test\n{END}\n\nb\n"));
}

#[test]
fn empty_list_removes_the_block_and_keeps_the_rest() {
    let m = manager();
    let start = format!("127.0.0.1 localhost\n::1 localhost\n\n{BEGIN}\n127.0.0.1 a.test\n{END}\n");
    let out = m.update_managed_block(&start, &[]);
    assert_eq!(out, "127.0.0.1 localhost\n::1 localhost\n");
    let start = format!("a\n{BEGIN}\n127.0.0.1 a.test\n{END}\nb\n");
    assert_eq!(m.update_managed_block(&start, &[]), "a\nb\n");
}

#[test]
fn block_at_the_top_stays_at_the_top() {
    let m = manager();
    let start = format!("{BEGIN}\n127.0.0.1 a.test\n{END}\n\nrest\n");
    let out = m.update_managed_block(&start, &domains(&["b.test"]));
    assert_eq!(out, format!("{BEGIN}\n127.0.0.1 b.test\n{END}\n\nrest\n"));
    assert_eq!(m.update_managed_block(&start, &[]), "rest\n");
}

#[test]
fn empty_list_without_block_only_normalizes() {
    assert_eq!(manager().update_managed_block("a\n\n\n\nb\n\n", &[]), "a\n\nb\n");
}

#[test]
fn start_marker_without_end_is_no_block() {
    let start = format!("{BEGIN}\nx\n");
    let out = manager().update_managed_block(&start, &[]);
    assert_eq!(out, start);
}

#[test]
fn normalize_collapses_and_terminates() {
    let m = manager();
    assert_eq!(m.normalize_content("a\n\n\n\nb\n\n"), "a\n\nb\n");
    assert_eq!(m.normalize_content("a\r\nb"), "a\nb\n");
    assert_eq!(m.normalize_content("\n\n  \n"), "");
    assert_eq!(m.normalize_content(""), "");
    assert_eq!(m.normalize_content("x"), "x\n");
    assert_eq!(m.normalize_content("a\r"), "a\n");
    assert_eq!(m.normalize_content("a\r\r\nb"), "a\nb\n");
}

#[test]
fn blank_line_before_block_is_stable() {
    let m = manager();
    let ds = domains(&["a"]);
    let start = format!("\r\n{BEGIN}\n127.0.0.1 a\n{END}\n");
    let once = m.update_managed_block(&start, &ds);
    assert_eq!(once, format!("{BEGIN}\n127.0.0.1 a\n{END}\n"));
    assert_eq!(m.update_managed_block(&once, &ds), once);
}

#[test]
fn stray_start_marker_stays_outside_the_block() {
    let m = manager();
    let ds = domains(&["a"]);
    let start = format!("{BEGIN}\nfoo\n");
    let once = m.update_managed_block(&start, &ds);
    assert_eq!(once, format!("{BEGIN}\nfoo\n\n{BEGIN}\n127.0.0.1 a\n{END}\n"));
    assert_eq!(m.update_managed_block(&once, &ds), once);
}

#[test]
fn markers_count_only_as_whole_lines() {
    let m = manager();
    let start = format!("x {BEGIN}\ny {END}\n");
    assert_eq!(m.update_managed_block(&start, &[]), start);
}
