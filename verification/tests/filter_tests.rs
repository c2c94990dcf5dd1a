use cpuid_report::filters::is_baseline;
use cpuid_report::filters::parse_filter_list;
use cpuid_report::filters::trim;

#[test]
fn filter_list_splits_trims_and_drops_empties() {
    let parsed = parse_filter_list(" SSE2 , AVX ,, AVX and AES ");
    assert_eq!(
        parsed,
        vec!["SSE2".to_string(), "AVX".to_string(), "AVX and AES".to_string()]
    );
}

#[test]
fn empty_filter_list_parses_to_nothing() {
    assert_eq!(parse_filter_list(""), Vec::<String>::new());
    assert_eq!(parse_filter_list(" , ,"), Vec::<String>::new());
}

#[test]
fn trim_strips_both_ends_only() {
    assert_eq!(trim("  a b\t"), "a b".to_string());
    assert_eq!(trim(""), "".to_string());
    assert_eq!(trim("   "), "".to_string());
}

#[test]
fn baseline_set_membership() {
    assert!(is_baseline(&"INTEL8086".to_string()));
    assert!(is_baseline(&"SMM".to_string()));
    assert!(is_baseline(&"PAUSE".to_string()));
    assert!(is_baseline(&"MULTIBYTENOP".to_string()));
    assert!(!is_baseline(&"SSE2".to_string()));
    assert!(!is_baseline(&"AVX".to_string()));
}
