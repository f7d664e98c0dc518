use clonos_profiles::config::parse_shell_config;
use clonos_profiles::config::strip_quotes;
use clonos_profiles::engines::get_engine_metadata;
use clonos_profiles::escape::php_escape;
use clonos_profiles::keyspec::parse_key_spec;
use clonos_profiles::keyspec::parse_key_specs;
use clonos_profiles::sizes::human_to_bytes;
use clonos_profiles::sizes::is_plain_number;
use clonos_profiles::sizes::u64_to_dec;

#[test]
fn human_to_bytes_megabytes() {
    assert_eq!(human_to_bytes("100m"), "104857600");
}

#[test]
fn human_to_bytes_gigabytes() {
    assert_eq!(human_to_bytes("1g"), "1073741824");
}

#[test]
fn human_to_bytes_plain_number_unchanged() {
    assert_eq!(human_to_bytes("512"), "512");
}

#[test]
fn human_to_bytes_unknown_suffix_unchanged() {
    assert_eq!(human_to_bytes("20x"), "20x");
}

#[test]
fn human_to_bytes_kilo_and_tera() {
    assert_eq!(human_to_bytes("1k"), "1024");
    assert_eq!(human_to_bytes("2t"), "2199023255552");
}

#[test]
fn human_to_bytes_case_insensitive_suffix() {
    assert_eq!(human_to_bytes("5K"), "5120");
    assert_eq!(human_to_bytes("3G"), "3221225472");
}

#[test]
fn human_to_bytes_trims_input() {
    assert_eq!(human_to_bytes(" 5m "), "5242880");
    assert_eq!(human_to_bytes("  "), "");
}

#[test]
fn human_to_bytes_rejects_malformed() {
    assert_eq!(human_to_bytes("x20"), "x20");
    assert_eq!(human_to_bytes("10kb"), "10kb");
    assert_eq!(human_to_bytes("10 k"), "10 k");
    assert_eq!(human_to_bytes("99999999999999999999k"), "99999999999999999999k");
}

#[test]
fn is_plain_number_cases() {
    assert!(is_plain_number("123"));
    assert!(is_plain_number(" 42 "));
    assert!(!is_plain_number("12a"));
    assert!(!is_plain_number(""));
    assert!(!is_plain_number("1g"));
}

#[test]
fn u64_to_dec_renders_decimal() {
    assert_eq!(u64_to_dec(0), "0");
    assert_eq!(u64_to_dec(10), "10");
    assert_eq!(u64_to_dec(18446744073709551615), "18446744073709551615");
}

#[test]
fn key_spec_bytes_modifier() {
    let k = parse_key_spec("imgsize:bytes");
    assert_eq!(k.name, "imgsize");
    assert!(k.convert_to_bytes);
}

#[test]
fn key_spec_plain_name() {
    let k = parse_key_spec("vm_profile");
    assert_eq!(k.name, "vm_profile");
    assert!(!k.convert_to_bytes);
}

#[test]
fn key_spec_modifier_case_insensitive() {
    let k = parse_key_spec("a:BYTES");
    assert_eq!(k.name, "a");
    assert!(k.convert_to_bytes);
}

#[test]
fn key_spec_other_modifier_disables_conversion() {
    let k = parse_key_spec("a:mb");
    assert_eq!(k.name, "a");
    assert!(!k.convert_to_bytes);
    let k2 = parse_key_spec("a:");
    assert_eq!(k2.name, "a");
    assert!(!k2.convert_to_bytes);
}

#[test]
fn key_spec_trims_entry() {
    let k = parse_key_spec("  a : bytes ");
    assert_eq!(k.name, "a");
    assert!(k.convert_to_bytes);
}

#[test]
fn key_specs_skip_empty_entries() {
    let ks = parse_key_specs("a,,b:bytes, ,c");
    let names: Vec<&str> = ks.iter().map(|k| k.name.as_str()).collect();
    assert_eq!(names, vec!["a", "b", "c"]);
    assert!(!ks[0].convert_to_bytes);
    assert!(ks[1].convert_to_bytes);
}

#[test]
fn php_escape_backslash_and_quote() {
    assert_eq!(php_escape("a\\b\"c"), "a\\\\b\\\"c");
}

#[test]
fn php_escape_leaves_plain_text() {
    assert_eq!(php_escape("plain text 123"), "plain text 123");
    assert_eq!(php_escape("'single'"), "'single'");
}

#[test]
fn engine_metadata_known() {
    let (name, desc, prefix) = get_engine_metadata("bhyve").unwrap();
    assert_eq!(name, "bhyve");
    assert_eq!(desc, "Native FreeBSD hypervisor");
    assert_eq!(prefix, "b");
    let (name, desc, prefix) = get_engine_metadata("xen").unwrap();
    assert_eq!(name, "xen");
    assert_eq!(desc, "XEN type-1 hypervisor");
    assert_eq!(prefix, "x");
    let (name, desc, prefix) = get_engine_metadata("qemu").unwrap();
    assert_eq!(name, "qemu");
    assert_eq!(desc, "QEMU hypervisor");
    assert_eq!(prefix, "q");
}

#[test]
fn engine_metadata_unknown_is_dropped() {
    assert!(get_engine_metadata("vbox").is_none());
    assert!(get_engine_metadata("").is_none());
}

#[test]
fn strip_quotes_matching_pairs() {
    assert_eq!(strip_quotes("\"hello\""), "hello");
    assert_eq!(strip_quotes("'hello'"), "hello");
}

#[test]
fn strip_quotes_unmatched_left_alone() {
    assert_eq!(strip_quotes("\"hello'"), "\"hello'");
    assert_eq!(strip_quotes("\"hello"), "\"hello");
    assert_eq!(strip_quotes("\""), "\"");
    assert_eq!(strip_quotes("''"), "");
}

#[test]
fn parser_basic_assignments() {
    let m = parse_shell_config("a=1\nb = two \nc=\"three\"\n");
    assert_eq!(m.get("a"), Some(&"1".to_string()));
    assert_eq!(m.get("b"), Some(&"two".to_string()));
    assert_eq!(m.get("c"), Some(&"three".to_string()));
    assert_eq!(m.get("d"), None);
}

#[test]
fn parser_skips_comments_and_blanks() {
    let m = parse_shell_config("# top comment\n\n  \na=1\n   # indented comment\nb=2\n");
    assert_eq!(m.get("a"), Some(&"1".to_string()));
    assert_eq!(m.get("b"), Some(&"2".to_string()));
    assert_eq!(m.get("# top comment"), None);
}

#[test]
fn parser_joins_continuation_lines() {
    let m = parse_shell_config("a=one \\\n two\nb=3\n");
    assert_eq!(m.get("a"), Some(&"onetwo".to_string()));
    assert_eq!(m.get("b"), Some(&"3".to_string()));
}

#[test]
fn parser_drops_unterminated_continuation() {
    let m = parse_shell_config("a=1\nb=2 \\");
    assert_eq!(m.get("a"), Some(&"1".to_string()));
    assert_eq!(m.get("b"), None);
}

#[test]
fn parser_drops_line_without_equals() {
    let m = parse_shell_config("no equals here\na=1\n");
    assert_eq!(m.get("no equals here"), None);
    assert_eq!(m.get("a"), Some(&"1".to_string()));
}

#[test]
fn parser_splits_on_first_equals() {
    let m = parse_shell_config("a=b=c\n");
    assert_eq!(m.get("a"), Some(&"b=c".to_string()));
}

#[test]
fn parser_last_assignment_wins() {
    let m = parse_shell_config("a=1\na=2\n");
    assert_eq!(m.get("a"), Some(&"2".to_string()));
}

#[test]
fn parser_quote_handling() {
    let m = parse_shell_config("a='x'\nb=\"x'\nc=\"\nd='it''\n");
    assert_eq!(m.get("a"), Some(&"x".to_string()));
    assert_eq!(m.get("b"), Some(&"\"x'".to_string()));
    assert_eq!(m.get("c"), Some(&"\"".to_string()));
    assert_eq!(m.get("d"), Some(&"it'".to_string()));
}
