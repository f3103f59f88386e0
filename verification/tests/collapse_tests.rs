use flamegraph::dtrace::{collapse_dtrace, DtraceOptions};
use flamegraph::fold::{collapse_folded, emit_entries, FoldError};
use flamegraph::folded::Entry;
use flamegraph::perf::{collapse_perf, PerfOptions};

fn folded(entries: &Vec<Entry>) -> String {
    String::from_utf8(emit_entries(entries)).unwrap()
}

#[test]
fn trivial_perf_input_folds_to_one_line() {
    let input = b"a 1/1 [000] 0.0: 1 cycles:\n\t0 foo (bin)\n\n";
    let entries = collapse_perf(input, &PerfOptions::default()).unwrap();
    assert_eq!(folded(&entries), "a;foo 1\n");
}

#[test]
fn perf_aggregates_identical_records() {
    let input = b"a 1/1 [000] 0.0: 1 cycles:\n\t0 foo (bin)\n\na 1/1 [000] 0.1: 1 cycles:\n\t0 foo (bin)\n\n";
    let entries = collapse_perf(input, &PerfOptions::default()).unwrap();
    assert_eq!(folded(&entries), "a;foo 2\n");
}

#[test]
fn perf_reverses_frames_leaf_last() {
    let input = b"a 1/1 [000] 0.0: 1 cycles:\n\tff leaf (bin)\n\tee mid (bin)\n\tdd outer (bin)\n\n";
    let entries = collapse_perf(input, &PerfOptions::default()).unwrap();
    assert_eq!(folded(&entries), "a;outer;mid;leaf 1\n");
}

#[test]
fn perf_include_pid_and_tid_frames() {
    let input = b"a 5/7 [000] 0.0: 1 cycles:\n\t0 foo (bin)\n\n";
    let mut opts = PerfOptions::default();
    opts.include_pid = true;
    let entries = collapse_perf(input, &opts).unwrap();
    // header carries TID/PID, so the pid half is the second number
    assert_eq!(folded(&entries), "a-7;foo 1\n");
    let mut opts2 = PerfOptions::default();
    opts2.include_tid = true;
    let entries2 = collapse_perf(input, &opts2).unwrap();
    assert_eq!(folded(&entries2), "a-7/5;foo 1\n");
}

#[test]
fn perf_uses_period_as_weight() {
    let input = b"a 1/1 [000] 0.0: 250 cycles:\n\t0 foo (bin)\n\n";
    let entries = collapse_perf(input, &PerfOptions::default()).unwrap();
    assert_eq!(folded(&entries), "a;foo 250\n");
}

#[test]
fn perf_locks_onto_first_event_without_filter() {
    let input = b"a 1/1 [000] 0.0: 1 cycles:\n\t0 foo (bin)\n\na 1/1 [000] 0.1: 1 instructions:\n\t0 bar (bin)\n\na 1/1 [000] 0.2: 1 cycles:\n\t0 foo (bin)\n\n";
    let entries = collapse_perf(input, &PerfOptions::default()).unwrap();
    assert_eq!(folded(&entries), "a;foo 2\n");
}

#[test]
fn perf_event_filter_selects_records() {
    let input = b"a 1/1 [000] 0.0: 1 cycles:\n\t0 foo (bin)\n\na 1/1 [000] 0.1: 1 instructions:\n\t0 bar (bin)\n\n";
    let mut opts = PerfOptions::default();
    opts.event_filter = Some(b"instructions".to_vec());
    let entries = collapse_perf(input, &opts).unwrap();
    assert_eq!(folded(&entries), "a;bar 1\n");
}

#[test]
fn perf_annotates_kernel_frames() {
    let input = b"a 1/1 [000] 0.0: 1 cycles:\n\t0 ksym ([kernel.kallsyms])\n\n";
    let mut opts = PerfOptions::default();
    opts.set_annotate_all();
    let entries = collapse_perf(input, &opts).unwrap();
    assert_eq!(folded(&entries), "a;ksym_[k] 1\n");
}

#[test]
fn perf_strips_symbol_offsets() {
    let input = b"a 1/1 [000] 0.0: 1 cycles:\n\tff main+0x1a (bin)\n\n";
    let entries = collapse_perf(input, &PerfOptions::default()).unwrap();
    assert_eq!(folded(&entries), "a;main 1\n");
}

#[test]
fn perf_include_addrs_keeps_the_instruction_pointer() {
    let input = b"a 1/1 [000] 0.0: 1 cycles:\n\tdeadbeef foo (bin)\n\n";
    let mut opts = PerfOptions::default();
    opts.include_addrs = true;
    let entries = collapse_perf(input, &opts).unwrap();
    assert_eq!(folded(&entries), "a;foo@deadbeef 1\n");
}

#[test]
fn perf_empty_input_yields_nothing() {
    let entries = collapse_perf(b"", &PerfOptions::default()).unwrap();
    assert_eq!(entries.len(), 0);
}

#[test]
fn perf_malformed_header_is_skipped() {
    let input = b"not a header line\n\ta 1/1 [000] 0.0: 1 cycles:\n\n";
    let entries = collapse_perf(input, &PerfOptions::default()).unwrap();
    assert_eq!(entries.len(), 0);
}

#[test]
fn dtrace_two_frames_without_offsets() {
    let input = b"libc`main+0x10\nlibc`start+0x4\n2\n";
    let entries = collapse_dtrace(input, &DtraceOptions::default()).unwrap();
    assert_eq!(folded(&entries), "start;main 2\n");
}

#[test]
fn dtrace_two_frames_with_offsets() {
    let input = b"libc`main+0x10\nlibc`start+0x4\n2\n";
    let opts = DtraceOptions { include_offset: true };
    let entries = collapse_dtrace(input, &opts).unwrap();
    assert_eq!(folded(&entries), "start+0x4;main+0x10 2\n");
}

#[test]
fn dtrace_hex_address_frames_kept() {
    let input = b"0xdeadbeef\n3\n";
    let entries = collapse_dtrace(input, &DtraceOptions::default()).unwrap();
    assert_eq!(folded(&entries), "0xdeadbeef 3\n");
}

#[test]
fn dtrace_aggregates_identical_stacks() {
    let input = b"libc`a\n1\n\nlibc`a\n4\n\n";
    let entries = collapse_dtrace(input, &DtraceOptions::default()).unwrap();
    assert_eq!(folded(&entries), "a 5\n");
}

#[test]
fn dtrace_record_without_count_is_dropped() {
    let input = b"libc`a\n\nlibc`b\n2\n";
    let entries = collapse_dtrace(input, &DtraceOptions::default()).unwrap();
    assert_eq!(folded(&entries), "b 2\n");
}

#[test]
fn folded_input_aggregates_and_skips_malformed() {
    let input = b"a;b 3\nnot a folded line\na;b 2\nc 1\n\n";
    let entries = collapse_folded(input).unwrap();
    assert_eq!(folded(&entries), "a;b 5\nc 1\n");
}

#[test]
fn folded_input_count_overflow_is_an_error() {
    let input = b"a 18446744073709551615\na 1\n";
    assert_eq!(collapse_folded(input).unwrap_err(), FoldError::CountOverflow);
}

#[test]
fn refolding_collapser_output_is_identity() {
    let input = b"a 1/1 [000] 0.0: 7 cycles:\n\t0 foo (bin)\n\t1 bar (bin)\n\na 1/1 [000] 0.1: 2 cycles:\n\t0 baz (bin)\n\n";
    let entries = collapse_perf(input, &PerfOptions::default()).unwrap();
    let emitted = emit_entries(&entries);
    let refolded = collapse_folded(&emitted).unwrap();
    assert_eq!(emit_entries(&refolded), emitted);
}

#[test]
fn collapser_output_lines_match_the_grammar() {
    let input = b"a 1/1 [000] 0.0: 1 cycles:\n\t0 f;g (bin)\n\n";
    let entries = collapse_perf(input, &PerfOptions::default()).unwrap();
    // the reserved `;` in the symbol was normalized away
    assert_eq!(folded(&entries), "a;f:g 1\n");
    for e in &entries {
        assert!(e.count > 0);
        let line = flamegraph::folded::format_entry(e);
        let back = flamegraph::folded::parse_line(&line).unwrap();
        assert_eq!(back.key, e.key);
        assert_eq!(back.count, e.count);
    }
}

#[test]
fn weights_are_preserved_through_aggregation() {
    let input = b"a;b 3\na;c 4\na;b 5\n";
    let entries = collapse_folded(input).unwrap();
    let total: u64 = entries.iter().map(|e| e.count).sum();
    assert_eq!(total, 12);
}
