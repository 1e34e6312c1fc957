use cdq::protocol::{extract_marker_value, format_marker_line, get_cdq_func_executor, Logger};

#[test]
fn marker_line_has_exact_shape() {
    let line = format_marker_line(b"/srv/data");
    assert_eq!(line, b"[CDQ][QUERY]: Path=/srv/data".to_vec());
}

#[test]
fn extraction_reads_back_the_emitted_path() {
    let line = format_marker_line(b"/home/user/projects");
    let value = extract_marker_value(&line).expect("marker line carries a value");
    assert_eq!(value, b"/home/user/projects".to_vec());
}

#[test]
fn ordinary_log_lines_carry_no_marker() {
    assert!(extract_marker_value(&Logger::info("all good")).is_none());
    assert!(extract_marker_value(&Logger::warn("careful")).is_none());
    assert!(extract_marker_value(&Logger::error("broken")).is_none());
    assert!(extract_marker_value(&Logger::debug("details")).is_none());
    assert!(extract_marker_value(b"Path=/looks/close/but/no/tag").is_none());
}

#[test]
fn logger_lines_have_exact_prefixes() {
    assert_eq!(Logger::info("m"), b"[CDQ][INFO]: m".to_vec());
    assert_eq!(Logger::warn("m"), b"[CDQ][WARN]: m".to_vec());
    assert_eq!(Logger::error("m"), b"[CDQ][ERROR]: m".to_vec());
    assert_eq!(Logger::query("m"), b"[CDQ][QUERY]: m".to_vec());
    assert_eq!(Logger::debug("m"), b"[CDQ][DEBUG]: m".to_vec());
}

#[test]
fn executor_is_the_fixed_template_around_the_executable() {
    let text = get_cdq_func_executor(b"/usr/local/bin/cdq");
    let expected = "\ncdq() {\n    local output=$(/usr/local/bin/cdq $1)\n    echo \"$output\"\n    local dir=$(echo \"$output\" | awk -F'Path=' '{print $2}')\n    if [ -d \"$dir\" ]; then\n        echo \"Proceeding to the $dir\"\n        cd \"$dir\"\n    fi\n}\n";
    assert_eq!(text, expected.as_bytes().to_vec());
}
