use cpuid_report::report::Options;
use cpuid_report::report::report;
use cpuid_report::table::Record;
use cpuid_report::table::aggregate;
use iced_x86::Code;
use iced_x86::CpuidFeature;

fn rec(code: Code, feats: Vec<CpuidFeature>) -> Record {
    Record { code: code as u32, features: feats.into_iter().map(|f| f as u32).collect() }
}

fn base_opts() -> Options {
    Options {
        all: false,
        instr: false,
        opcode: false,
        count: false,
        percent: false,
        cpuid: Vec::new(),
        ignore_cpuid: Vec::new(),
    }
}

fn headers(text: &str) -> Vec<String> {
    text.lines().filter(|l| !l.starts_with('\t')).map(|l| l.to_string()).collect()
}

#[test]
fn conservation_total_counts_every_record() {
    let records = vec![
        rec(Code::Paddq_xmm_xmmm128, vec![CpuidFeature::SSE2]),
        rec(Code::VEX_Vaesenc_xmm_xmm_xmmm128, vec![CpuidFeature::AES, CpuidFeature::AVX]),
        rec(Code::Paddq_xmm_xmmm128, vec![CpuidFeature::SSE2]),
    ];
    assert_eq!(aggregate(&records, false).total, 3);
    assert_eq!(aggregate(&records, true).total, 3);
}

#[test]
fn fan_out_counts_once_per_feature() {
    // Without detail columns a two-feature record is tallied under each
    // feature's own group; no combined group appears.
    let records = vec![rec(
        Code::VEX_Vaesenc_xmm_xmm_xmmm128,
        vec![CpuidFeature::AES, CpuidFeature::AVX],
    )];
    let out = report(&records, &base_opts());
    assert_eq!(headers(&out), vec!["AES".to_string(), "AVX".to_string()]);
}

#[test]
fn detail_mode_uses_one_combined_key() {
    let mut opts = base_opts();
    opts.instr = true;
    let records = vec![rec(
        Code::VEX_Vaesenc_xmm_xmm_xmmm128,
        vec![CpuidFeature::AES, CpuidFeature::AVX],
    )];
    let out = report(&records, &opts);
    assert_eq!(headers(&out), vec!["AES and AVX".to_string()]);
}

#[test]
fn determinism_two_runs_byte_identical() {
    let records = vec![
        rec(Code::Paddq_xmm_xmmm128, vec![CpuidFeature::SSE2]),
        rec(Code::VEX_Vaesenc_xmm_xmm_xmmm128, vec![CpuidFeature::AES, CpuidFeature::AVX]),
        rec(Code::Add_rm8_r8, vec![CpuidFeature::INTEL8086]),
    ];
    let mut opts = base_opts();
    opts.instr = true;
    opts.opcode = true;
    opts.count = true;
    opts.percent = true;
    let first = report(&records, &opts);
    let second = report(&records, &opts);
    assert_eq!(first, second);
}

#[test]
fn filter_inclusion_then_exclusion() {
    // Groups SSE2, AVX and "AVX and AES": the inclusion list keeps the two
    // exact matches, and the exclusion list then removes AVX.
    let records = vec![
        rec(Code::Paddq_xmm_xmmm128, vec![CpuidFeature::SSE2]),
        rec(Code::VEX_Vzeroupper, vec![CpuidFeature::AVX]),
        rec(Code::VEX_Vaesenc_xmm_xmm_xmmm128, vec![CpuidFeature::AVX, CpuidFeature::AES]),
    ];
    let mut opts = base_opts();
    opts.instr = true;
    opts.cpuid = vec!["SSE2".to_string(), "AVX".to_string()];
    let out = report(&records, &opts);
    assert_eq!(headers(&out), vec!["AVX".to_string(), "SSE2".to_string()]);

    opts.ignore_cpuid = vec!["AVX".to_string()];
    let out2 = report(&records, &opts);
    assert_eq!(headers(&out2), vec!["SSE2".to_string()]);
}

#[test]
fn filter_never_matches_a_constituent_of_a_combined_group() {
    let records = vec![rec(
        Code::VEX_Vaesenc_xmm_xmm_xmmm128,
        vec![CpuidFeature::AVX, CpuidFeature::AES],
    )];
    let mut opts = base_opts();
    opts.instr = true;
    opts.cpuid = vec!["AVX".to_string()];
    let out = report(&records, &opts);
    assert_eq!(headers(&out), Vec::<String>::new());
}

#[test]
fn baseline_group_hidden_unless_all() {
    let records = vec![rec(Code::Add_rm8_r8, vec![CpuidFeature::INTEL8086])];
    let out = report(&records, &base_opts());
    assert_eq!(out, "");
    let mut opts = base_opts();
    opts.all = true;
    let out_all = report(&records, &opts);
    assert_eq!(headers(&out_all), vec!["INTEL8086".to_string()]);
}

#[test]
fn percent_boundary_single_record() {
    let records = vec![rec(Code::Paddq_xmm_xmmm128, vec![CpuidFeature::SSE2])];
    let mut opts = base_opts();
    opts.instr = true;
    opts.percent = true;
    let out = report(&records, &opts);
    assert!(out.contains("\t100.00%"), "output was: {}", out);
}

#[test]
fn percent_rounds_to_two_places() {
    let records = vec![
        rec(Code::Paddq_xmm_xmmm128, vec![CpuidFeature::SSE2]),
        rec(Code::Psubq_xmm_xmmm128, vec![CpuidFeature::SSE2]),
        rec(Code::Psubq_xmm_xmmm128, vec![CpuidFeature::SSE2]),
    ];
    let mut opts = base_opts();
    opts.instr = true;
    opts.percent = true;
    opts.count = true;
    let out = report(&records, &opts);
    assert!(out.contains("33.33% | 1 | "), "output was: {}", out);
    assert!(out.contains("66.67% | 2 | "), "output was: {}", out);
}

#[test]
fn rows_sort_by_text_not_arrival_order() {
    // The SUB instruction arrives first; the report still lists ADD first.
    let records = vec![
        rec(Code::Sub_rm8_r8, vec![CpuidFeature::INTEL8086]),
        rec(Code::Add_rm8_r8, vec![CpuidFeature::INTEL8086]),
    ];
    let mut opts = base_opts();
    opts.all = true;
    opts.instr = true;
    let out = report(&records, &opts);
    let add_at = out.find("ADD").expect("ADD line missing");
    let sub_at = out.find("SUB").expect("SUB line missing");
    assert!(add_at < sub_at, "output was: {}", out);
}

#[test]
fn opcode_column_shows_encoding_text() {
    let records = vec![rec(Code::Add_rm8_r8, vec![CpuidFeature::INTEL8086])];
    let mut opts = base_opts();
    opts.all = true;
    opts.opcode = true;
    let out = report(&records, &opts);
    assert!(out.contains("00 /r"), "output was: {}", out);
}

#[test]
fn columns_come_in_fixed_order() {
    let records = vec![rec(Code::Add_rm8_r8, vec![CpuidFeature::INTEL8086])];
    let mut opts = base_opts();
    opts.all = true;
    opts.instr = true;
    opts.opcode = true;
    opts.count = true;
    opts.percent = true;
    let out = report(&records, &opts);
    assert_eq!(out, "INTEL8086\n\t100.00% | 1 | 00 /r | ADD r/m8, r8\n");
}

#[test]
fn empty_stream_reports_nothing() {
    let records: Vec<Record> = Vec::new();
    let out = report(&records, &base_opts());
    assert_eq!(out, "");
}

#[test]
fn streaming_ingest_matches_one_shot_aggregation() {
    let records = vec![
        rec(Code::Paddq_xmm_xmmm128, vec![CpuidFeature::SSE2]),
        rec(Code::VEX_Vaesenc_xmm_xmm_xmmm128, vec![CpuidFeature::AES, CpuidFeature::AVX]),
    ];
    let mut opts = base_opts();
    opts.instr = true;
    opts.count = true;
    let mut agg = cpuid_report::table::Aggregator::new();
    for r in &records {
        agg.ingest(r.code, &r.features, true);
    }
    assert_eq!(agg.total, 2);
    let streamed = cpuid_report::report::report_table(&agg, &opts);
    let one_shot = report(&records, &opts);
    assert_eq!(streamed, one_shot);
}

#[test]
fn record_without_features_groups_under_empty_display() {
    // A record reporting no features still counts toward the total; in
    // detail mode it groups under the empty combined key.
    let records = vec![rec(Code::Add_rm8_r8, vec![])];
    assert_eq!(aggregate(&records, false).total, 1);
    let mut opts = base_opts();
    opts.instr = true;
    let out = report(&records, &opts);
    assert_eq!(headers(&out), vec!["".to_string()]);
}

#[test]
fn combined_keys_are_order_sensitive() {
    // Two occurrences group together only if their feature sequences are
    // identical element for element, so reversed orders form two groups.
    let records = vec![
        rec(Code::VEX_Vaesenc_xmm_xmm_xmmm128, vec![CpuidFeature::AES, CpuidFeature::AVX]),
        rec(Code::VEX_Vaesenc_xmm_xmm_xmmm128, vec![CpuidFeature::AVX, CpuidFeature::AES]),
    ];
    let mut opts = base_opts();
    opts.instr = true;
    let out = report(&records, &opts);
    assert_eq!(
        headers(&out),
        vec!["AES and AVX".to_string(), "AVX and AES".to_string()]
    );
}
