use clonos_profiles::config::parse_shell_config;
use clonos_profiles::emit::emit_config;
use clonos_profiles::emit::profile_fields;
use clonos_profiles::emit::Limits;
use clonos_profiles::engines::aggregate_profiles;
use clonos_profiles::engines::build_engines;
use clonos_profiles::keyspec::parse_key_specs;
use clonos_profiles::text::split_whitespace_tokens;

fn no_limits() -> Limits {
    Limits {
        vm_cpus_max: None,
        vm_cpus_min: None,
        vm_ram_max: None,
        vm_ram_min: None,
        imgsize_max: None,
        imgsize_min: None,
    }
}

#[test]
fn split_whitespace_tokens_splits_ids() {
    let toks = split_whitespace_tokens("  xen  bhyve\tqemu \n");
    assert_eq!(toks, vec!["xen".to_string(), "bhyve".to_string(), "qemu".to_string()]);
    assert_eq!(split_whitespace_tokens("   "), Vec::<String>::new());
}

#[test]
fn build_engines_keeps_known_in_order() {
    let ids = vec!["xen".to_string(), "bhyve".to_string()];
    let (engines, skipped) = build_engines(&ids);
    assert_eq!(engines.len(), 2);
    assert_eq!(engines[0].id, "xen");
    assert_eq!(engines[1].id, "bhyve");
    assert!(skipped.is_empty());
}

#[test]
fn build_engines_drops_unknown_with_warning_list() {
    let ids = vec!["vbox".to_string(), "qemu".to_string()];
    let (engines, skipped) = build_engines(&ids);
    assert_eq!(engines.len(), 1);
    assert_eq!(engines[0].id, "qemu");
    assert_eq!(skipped, vec!["vbox".to_string()]);
}

#[test]
fn build_engines_all_unknown_leaves_none() {
    let ids = vec!["vbox".to_string()];
    let (engines, skipped) = build_engines(&ids);
    assert!(engines.is_empty());
    assert_eq!(skipped, vec!["vbox".to_string()]);
}

#[test]
fn aggregation_places_profile_only_under_active_engine() {
    let ids = vec!["bhyve".to_string(), "xen".to_string()];
    let (engines, _) = build_engines(&ids);
    let file_a = parse_shell_config("bhyve_active=1\nvm_profile=alpha\n");
    let file_b = parse_shell_config("vm_profile=beta\n");
    let configs = vec![file_a, file_b];
    let engines = aggregate_profiles(engines, &configs);
    assert_eq!(engines[0].id, "bhyve");
    assert_eq!(engines[0].profiles.len(), 1);
    assert_eq!(engines[1].id, "xen");
    assert_eq!(engines[1].profiles.len(), 0);
}

#[test]
fn aggregation_requires_literal_one() {
    let ids = vec!["bhyve".to_string()];
    let (engines, _) = build_engines(&ids);
    let cfg = parse_shell_config("bhyve_active=yes\n");
    let engines = aggregate_profiles(engines, &vec![cfg]);
    assert_eq!(engines[0].profiles.len(), 0);
}

#[test]
fn aggregation_can_activate_multiple_engines() {
    let ids = vec!["bhyve".to_string(), "xen".to_string()];
    let (engines, _) = build_engines(&ids);
    let cfg = parse_shell_config("bhyve_active=1\nxen_active=1\n");
    let engines = aggregate_profiles(engines, &vec![cfg]);
    assert_eq!(engines[0].profiles.len(), 1);
    assert_eq!(engines[1].profiles.len(), 1);
}

#[test]
fn profile_field_order_is_alphabetical() {
    let cfg = parse_shell_config("zeta=1\nalpha=2\nmiddle=3\n");
    let specs = parse_key_specs("zeta,middle,alpha");
    let fields = profile_fields(&cfg, &specs);
    let names: Vec<&str> = fields.iter().map(|f| f.0.as_str()).collect();
    assert_eq!(names, vec!["alpha", "middle", "zeta"]);
}

#[test]
fn profile_fields_skip_absent_and_convert_sizes() {
    let cfg = parse_shell_config("imgsize=10g\nvm_profile=debian\n");
    let specs = parse_key_specs("vm_profile,imgsize:bytes,missing");
    let fields = profile_fields(&cfg, &specs);
    assert_eq!(fields.len(), 2);
    assert_eq!(fields[0].0, "imgsize");
    assert_eq!(fields[0].1, "10737418240");
    assert_eq!(fields[1].0, "vm_profile");
    assert_eq!(fields[1].1, "debian");
}

#[test]
fn emit_full_artifact() {
    let ids = vec!["bhyve".to_string(), "xen".to_string()];
    let (engines, _) = build_engines(&ids);
    let cfg = parse_shell_config("bhyve_active=1\nvm_profile=\"debian\"\nimgsize=10g\n");
    let engines = aggregate_profiles(engines, &vec![cfg]);
    let specs = parse_key_specs("vm_profile,imgsize:bytes");
    let limits = Limits { vm_cpus_max: Some("4".to_string()), ..no_limits() };
    let out = emit_config(&engines, &specs, &limits);
    let mut expected = String::new();
    expected.push_str("<?php\n");
    expected.push_str("ClonOS::$engines=[\n");
    expected.push_str("\t\"bhyve\"=>[\n");
    expected.push_str("\t\t\"name\"=>\"bhyve\",\n");
    expected.push_str("\t\t\"description\"=>\"Native FreeBSD hypervisor\",\n");
    expected.push_str("\t\t\"prefix\"=>\"b\",\n");
    expected.push_str("\t\t\"count\"=>\"1\",\n");
    expected.push_str("\t\t\"vm_cpus_max\"=>\"4\",\n");
    expected.push_str("\t\t\"data\"=>[\n");
    expected.push_str("\t\t\t\"p0\"=>[\"imgsize\"=>\"10737418240\",\"vm_profile\"=>\"debian\"]\n");
    expected.push_str("\t\t],\n");
    expected.push_str("\t],\n");
    expected.push_str("\t\"xen\"=>[\n");
    expected.push_str("\t\t\"name\"=>\"xen\",\n");
    expected.push_str("\t\t\"description\"=>\"XEN type-1 hypervisor\",\n");
    expected.push_str("\t\t\"prefix\"=>\"x\",\n");
    expected.push_str("\t\t\"count\"=>\"0\",\n");
    expected.push_str("\t\t\"vm_cpus_max\"=>\"4\",\n");
    expected.push_str("\t\t\"data\"=>[],\n");
    expected.push_str("\t]\n");
    expected.push_str("];\n");
    assert_eq!(out, expected);
}

#[test]
fn emit_escapes_values() {
    let ids = vec!["qemu".to_string()];
    let (engines, _) = build_engines(&ids);
    let cfg = parse_shell_config("qemu_active=1\nnote=say \\\"hi\\\" c:\\\\tmp\n");
    let engines = aggregate_profiles(engines, &vec![cfg]);
    let specs = parse_key_specs("note");
    let out = emit_config(&engines, &specs, &no_limits());
    assert!(out.contains("\"p0\"=>[\"note\"=>\"say \\\\\\\"hi\\\\\\\" c:\\\\\\\\tmp\"]"));
}

#[test]
fn emit_multiple_profiles_numbered_per_engine() {
    let ids = vec!["bhyve".to_string()];
    let (engines, _) = build_engines(&ids);
    let a = parse_shell_config("bhyve_active=1\nvm_profile=a\n");
    let b = parse_shell_config("bhyve_active=1\nvm_profile=b\n");
    let engines = aggregate_profiles(engines, &vec![a, b]);
    let specs = parse_key_specs("vm_profile");
    let out = emit_config(&engines, &specs, &no_limits());
    assert!(out.contains("\t\t\t\"p0\"=>[\"vm_profile\"=>\"a\"],\n"));
    assert!(out.contains("\t\t\t\"p1\"=>[\"vm_profile\"=>\"b\"]\n"));
    assert!(out.contains("\t\t\"count\"=>\"2\",\n"));
}
