use crawler::analysis::command::{
    compile_fail, format_headers, get_compile_bin, log_head, log_output, log_try, log_verdict,
    try_compile, Finished,
};
use crawler::analysis::kernel::{kernels, parse_output, KernelMatch};
use crawler::analysis::loops::{Loop, Loops};
use crawler::analysis::packing::{matching_lines, parse, PackingCandidate};
use crawler::analysis::si::{
    debug_info, debug_status, find_loop_info, insert_pragma, is_for_loop, leading_word,
    log_findings, loop_info_option, loop_infos, match_rows, parse_loop_info, parse_loop_lines,
    parse_remarks, parse_vector_debug, read_i64, region_status, remarks, sort_numbers,
    status_key, DebugEntry, LoopInfo, MatchRow, Remark, SIStatus,
};
use crawler::interface::CompileResult;
use crawler::pattern::{group_text, has_match};

fn texts(list: &[&str]) -> Vec<String> {
    list.iter().map(|s| s.to_string()).collect()
}

fn groups(list: &[Option<&str>]) -> Vec<Option<String>> {
    list.iter().map(|s| s.map(|t| t.to_string())).collect()
}

const PRAGMA_LINE: &str = "#pragma clang loop scalar_interpolation(enable)\n";

#[test]
fn format_headers_prefixes_each_directory() {
    assert_eq!(
        format_headers(&texts(&["repo/include", "/abs/dir"])),
        texts(&["-Irepo/include", "-I/abs/dir"])
    );
    assert_eq!(format_headers(&vec![]), texts(&[]));
}

#[test]
fn compile_bin_is_below_the_tool_directory() {
    assert_eq!(get_compile_bin("/opt/llvm/bin", "clang"), "/opt/llvm/bin/clang");
    assert_eq!(get_compile_bin("/opt/llvm/bin/", "opt"), "/opt/llvm/bin/opt");
}

#[test]
fn compile_fail_carries_the_log() {
    let failed: CompileResult<u8> = compile_fail("so far");
    assert_eq!(failed.data, Err(()));
    assert_eq!(failed.to_log, "so far");
}

#[test]
fn log_of_a_successful_try() {
    let mut log = String::from("before");
    let finished = Finished { output: "warning: x\n".to_string(), code: Some(0) };
    let ok = log_try(&mut log, "repo/a b.c", &texts(&["repo/inc", "repo/\"q\""]), &finished);
    assert!(ok);
    assert_eq!(
        log,
        "before\n==============================\n\
         Try for file \"repo/a b.c\":\nHeaders: [\"repo/inc\", \"repo/\\\"q\\\"\"]\n\
         Output:\n------------------------------\nwarning: x\n\
         ------------------------------\nsuccess\n"
    );
}

#[test]
fn exit_code_124_is_a_failure_with_timeout_in_the_log() {
    let mut log = String::new();
    let finished = Finished { output: String::new(), code: Some(124) };
    assert!(finished.timed_out());
    assert!(!finished.succeeded());
    let ok = log_try(&mut log, "f.c", &vec![], &finished);
    assert!(!ok);
    assert!(log.ends_with("------------------------------\ntimed out\nfailed\n"));
    let mut verdict = String::from("x");
    assert!(!log_verdict(&mut verdict, Some(124)));
    assert_eq!(verdict, "xtimed out\nfailed\n");
}

#[test]
fn verdict_follows_the_exit_code() {
    let mut log = String::new();
    assert!(log_verdict(&mut log, Some(0)));
    assert!(!log_verdict(&mut log, Some(1)));
    assert!(!log_verdict(&mut log, None));
    assert_eq!(log, "success\nfailed\nfailed\n");
    assert!(!Finished { output: String::new(), code: None }.succeeded());
    assert!(!Finished { output: String::new(), code: None }.timed_out());
    assert!(!Finished { output: String::new(), code: Some(0) }.timed_out());
}

#[test]
fn head_and_output_blocks() {
    let mut log = String::new();
    log_head(&mut log, "Finding info for file", "f.c", &vec![]);
    assert_eq!(log, "\n==============================\nFinding info for file \"f.c\":\nHeaders: []");
    let mut out = String::new();
    log_output(&mut out, "text");
    assert_eq!(out, "\nOutput:\n------------------------------\ntext------------------------------\n");
}

#[test]
fn findings_of_a_successful_run_hold_output_and_info() {
    let mut log = String::new();
    let finished = Finished { output: "remarks\n".to_string(), code: Some(0) };
    let found = log_findings(&mut log, "f.c", &texts(&["inc"]), &finished, "info\n");
    assert_eq!(found, Some("remarks\ninfo\n".to_string()));
    assert_eq!(
        log,
        "\n==============================\nFinding info for file \"f.c\":\nHeaders: [\"inc\"]\n\
         Output:\n------------------------------\nremarks\n------------------------------\n\
         info\n------------------------------\nsuccess\n"
    );
    let mut late = String::new();
    let timed = Finished { output: String::new(), code: Some(124) };
    assert_eq!(log_findings(&mut late, "f.c", &vec![], &timed, "ignored"), None);
    assert!(late.ends_with("------------------------------\ntimed out\nfailed\n"));
    assert!(!late.contains("ignored"));
}

#[test]
fn has_match_searches_anywhere() {
    assert!(has_match("for", "  for (;;) {"));
    assert!(has_match("for", "before"));
    assert!(!has_match("for", "while (1) {"));
    assert!(!has_match("(", "an invalid pattern matches nothing ("));
    assert!(is_for_loop("for(i = 0; i < n; i++)"));
    assert!(!is_for_loop("do {"));
}

#[test]
fn group_text_and_numbers() {
    let g = groups(&[Some("3:5"), Some("3"), None, Some("x")]);
    assert_eq!(group_text(&g, 1), Some(&"3".to_string()));
    assert_eq!(group_text(&g, 2), None);
    assert_eq!(group_text(&g, 9), None);
    assert_eq!(read_i64(&g, 1), Some(3));
    assert_eq!(read_i64(&g, 2), None);
    assert_eq!(read_i64(&g, 3), None);
    assert_eq!(read_i64(&g, 4), None);
}

#[test]
fn loop_info_option_reads_null_and_numbers() {
    assert_eq!(loop_info_option("null"), Some(None));
    assert_eq!(loop_info_option("8"), Some(Some(8)));
    assert_eq!(loop_info_option("-4"), Some(Some(-4)));
    assert_eq!(loop_info_option("nul"), None);
    assert_eq!(loop_info_option("nulls"), None);
    assert_eq!(loop_info_option("x"), None);
}

fn info(line: i64, col: i64, start: Option<i64>, step: Option<i64>) -> LoopInfo {
    LoopInfo {
        line,
        col,
        ir_count: 10,
        ir_mem: 3,
        ir_arith: 4,
        ir_other: 3,
        pat_start: start,
        pat_step: step,
    }
}

#[test]
fn parse_loop_info_reads_every_line_of_the_pass() {
    let text = "noise\nloop info: (line: 2, col: 5, ir_count: 10, ir_mem: 3, ir_arith: 4, \
                ir_other: 3, pat_start: null, pat_step: 8)\nloop info: (line: 9, col: 1, \
                ir_count: 10, ir_mem: 3, ir_arith: 4, ir_other: 3, pat_start: 0, pat_step: \
                junk)\nloop info: (line: 7, col: 3, ir_count: 10, ir_mem: 3, ir_arith: 4, \
                ir_other: 3, pat_start: 0, pat_step: -1)\n";
    assert_eq!(
        parse_loop_info(text),
        vec![info(2, 5, None, Some(8)), info(7, 3, Some(0), Some(-1))]
    );
    assert_eq!(parse_loop_info("nothing"), vec![]);
}

#[test]
fn loop_infos_skip_matches_that_do_not_fit() {
    let good = groups(&[
        Some("all"),
        Some("1"),
        Some("2"),
        Some("3"),
        Some("4"),
        Some("5"),
        Some("6"),
        Some("null"),
        Some("7"),
    ]);
    let short = groups(&[Some("all"), Some("1")]);
    let big = groups(&[
        Some("all"),
        Some("99999999999999999999"),
        Some("2"),
        Some("3"),
        Some("4"),
        Some("5"),
        Some("6"),
        Some("null"),
        Some("7"),
    ]);
    assert_eq!(
        loop_infos(&vec![short, good, big]),
        vec![LoopInfo {
            line: 1,
            col: 2,
            ir_count: 3,
            ir_mem: 4,
            ir_arith: 5,
            ir_other: 6,
            pat_start: None,
            pat_step: Some(7)
        }]
    );
}

#[test]
fn parse_remarks_reads_vectorization_remarks() {
    let text = "f.c:3:5: remark: vectorized loop (vectorization width: 4, interleaved count: 2, \
                scalar interpolation count: 1)\nf.c:9:1: remark: loop not vectorized\n\
                12:7: remark: vectorized loop (vectorization width: 8, interleaved count: 1, \
                scalar interpolation count: 0)";
    assert_eq!(
        parse_remarks(text),
        vec![
            Remark { line: 3, col: 5, vector: 4, width: 2, si: 1 },
            Remark { line: 12, col: 7, vector: 8, width: 1, si: 0 }
        ]
    );
    let g = groups(&[Some("m"), Some("1"), Some("2"), Some("3"), Some("4"), Some("5")]);
    let bad = groups(&[Some("m"), Some("1"), Some("2"), Some("3"), Some("4"), None]);
    assert_eq!(remarks(&vec![bad, g]), vec![Remark { line: 1, col: 2, vector: 3, width: 4, si: 5 }]);
}

#[test]
fn find_loop_info_takes_the_first_on_the_line() {
    let infos = vec![info(2, 5, None, None), info(7, 3, None, None), info(7, 9, Some(1), None)];
    assert_eq!(find_loop_info(&infos, 7, 9), Some(info(7, 3, None, None)));
    assert_eq!(find_loop_info(&infos, 2, 0), Some(info(2, 5, None, None)));
    assert_eq!(find_loop_info(&infos, 3, 5), None);
    assert_eq!(find_loop_info(&vec![], 3, 5), None);
}

#[test]
fn status_keys() {
    assert_eq!(status_key(SIStatus::Enabled), 0);
    assert_eq!(status_key(SIStatus::Disabled), 1);
    assert_eq!(status_key(SIStatus::FloatingPoint), 2);
    assert_eq!(status_key(SIStatus::ControlFlow), 3);
}

const DEBUG_TEXT: &str = "header\n\
    LV: Checking a loop in 'f' from f.c:3:5\n\
    LV(SI): SI enabled\n\
    LV: Checking a loop in 'g' from f.c:9:1 [more]\n\
    LV(SI): SI enabled\n\
    LV(SI): Not legal to interpolate due to floating point instructions\n\
    LV: Checking a loop in 'h' from f.c:12:7\n\
    LV(SI): Not legal to interpolate due to non-interpolatable recipe\n\
    LV: Checking a loop in 'k' from f.c:20:2\n\
    nothing said\n";

#[test]
fn parse_vector_debug_reads_the_status_of_each_loop() {
    let entries = parse_vector_debug(DEBUG_TEXT);
    assert_eq!(
        entries,
        vec![
            DebugEntry { line: 3, col: 5, status: SIStatus::Enabled },
            DebugEntry { line: 9, col: 1, status: SIStatus::FloatingPoint },
            DebugEntry { line: 12, col: 7, status: SIStatus::ControlFlow },
            DebugEntry { line: 20, col: 2, status: SIStatus::Disabled },
        ]
    );
    assert_eq!(debug_status(&entries, 9, 1), Some(SIStatus::FloatingPoint));
    assert_eq!(debug_status(&entries, 9, 2), None);
    assert_eq!(parse_vector_debug("no loops here"), vec![]);
}

#[test]
fn debug_info_pairs_each_opening_line_with_the_part_after_it() {
    let locs = vec![
        groups(&[Some("a"), Some("1"), Some("2")]),
        groups(&[Some("b"), Some("x"), Some("2")]),
        groups(&[Some("c"), Some("1"), Some("2")]),
        groups(&[Some("d"), Some("5"), Some("6")]),
    ];
    let regions = texts(&["before", "LV(SI): SI enabled", "skipped", "", ]);
    assert_eq!(
        debug_info(&locs, &regions),
        vec![
            DebugEntry { line: 1, col: 2, status: SIStatus::Enabled },
            DebugEntry { line: 1, col: 2, status: SIStatus::Disabled },
        ]
    );
    let entries = debug_info(&locs, &regions);
    // The last entry for a position counts.
    assert_eq!(debug_status(&entries, 1, 2), Some(SIStatus::Disabled));
    assert_eq!(region_status("LV(SI): SI enabled"), SIStatus::Enabled);
    assert_eq!(region_status(""), SIStatus::Disabled);
}

#[test]
fn match_rows_join_remarks_with_loop_info_and_status() {
    let output = format!(
        "{}f.c:3:5: remark: vectorized loop (vectorization width: 4, interleaved count: 2, \
         scalar interpolation count: 1)\n\
         f.c:30:1: remark: vectorized loop (vectorization width: 2, interleaved count: 1, \
         scalar interpolation count: 0)\n\
         loop info: (line: 3, col: 5, ir_count: 10, ir_mem: 3, ir_arith: 4, ir_other: 3, \
         pat_start: null, pat_step: 8)\n",
        DEBUG_TEXT
    );
    assert_eq!(
        match_rows(&output),
        vec![
            MatchRow {
                remark: Remark { line: 3, col: 5, vector: 4, width: 2, si: 1 },
                info: Some(info(3, 5, None, Some(8))),
                status: Some(SIStatus::Enabled),
            },
            MatchRow {
                remark: Remark { line: 30, col: 1, vector: 2, width: 1, si: 0 },
                info: None,
                status: None,
            },
        ]
    );
    assert_eq!(match_rows(""), vec![]);
}

#[test]
fn parse_loop_lines_takes_the_number_before_the_first_space() {
    assert_eq!(parse_loop_lines("12 3\n7\nx 1\n 5\n+4 extra words\n\n30 1"), vec![12, 7, 4, 30]);
    assert_eq!(parse_loop_lines(""), Vec::<usize>::new());
    assert_eq!(leading_word("12 3"), "12");
    assert_eq!(leading_word(" 3"), "");
    assert_eq!(leading_word("word"), "word");
}

#[test]
fn sort_numbers_sorts_ascending() {
    assert_eq!(sort_numbers(&vec![5, 2, 9, 2, 0]), vec![0, 2, 2, 5, 9]);
    assert_eq!(sort_numbers(&vec![]), Vec::<usize>::new());
    assert_eq!(sort_numbers(&vec![3]), vec![3]);
}

#[test]
fn insert_pragma_marks_the_for_loops_on_the_given_lines() {
    let contents = "int a;\nfor (i=0;;) {\n  x;\n}\nwhile(1){}\nfor (;;) {}";
    let out = insert_pragma(contents, &vec![5, 2]);
    assert_eq!(
        out,
        format!("int a;\n{}for (i=0;;) {{\n  x;\n}}\nwhile(1){{}}\nfor (;;) {{}}\n", PRAGMA_LINE)
    );
    assert_eq!(insert_pragma("a\nb", &vec![]), "a\nb\n");
    assert_eq!(insert_pragma("", &vec![1]), "");
}

#[test]
fn insert_pragma_stops_at_a_line_number_that_no_line_matches() {
    // The second 3 is never met again, so line 4 is not reached.
    let contents = "a\nb\nfor\nfor\n";
    assert_eq!(
        insert_pragma(contents, &vec![3, 3, 4]),
        format!("a\nb\n{}for\nfor\n", PRAGMA_LINE)
    );
    assert_eq!(
        insert_pragma(contents, &vec![4, 3]),
        format!("a\nb\n{}for\n{}for\n", PRAGMA_LINE, PRAGMA_LINE)
    );
    assert_eq!(insert_pragma(contents, &vec![0, 3]), contents);
}

#[test]
fn new_loop_stands_on_its_row() {
    let made = Loop::new(4, 9);
    assert_eq!(
        made,
        Loop { row: 4, col: 9, post_row: 4, info: None, remarks: None, si_status: None }
    );
}

#[test]
fn loops_are_parsed_from_rows_and_columns() {
    let loops = Loops::parse("2 5\nnoise\n7 3 extra\n8\n9  1\n");
    assert_eq!(loops.len(), 2);
    assert_eq!(loops.get(0), Loop::new(2, 5));
    assert_eq!(loops.get(1), Loop::new(7, 3));
}

#[test]
fn loops_follow_their_rows_through_the_pragmas() {
    let mut loops = Loops::from_loops(vec![Loop::new(2, 5), Loop::new(4, 1), Loop::new(6, 3)]);
    let contents = "int a;\nfor (;;) {\n}\nwhile (1) {}\n\nfor (;;) {}\n";
    let out = loops.insert_pragma(contents);
    assert_eq!(
        out,
        format!("int a;\n{}for (;;) {{\n}}\nwhile (1) {{}}\n\n{}for (;;) {{}}\n", PRAGMA_LINE, PRAGMA_LINE)
    );
    assert_eq!(loops.get(0).post_row, 3);
    assert_eq!(loops.get(1).post_row, 4);
    assert_eq!(loops.get(2).post_row, 8);
    assert_eq!(loops.get(0).row, 2);

    loops.set_loop_info(
        "loop info: (line: 6, col: 3, ir_count: 10, ir_mem: 3, ir_arith: 4, ir_other: 3, \
         pat_start: 1, pat_step: 2)\nloop info: (line: 3, col: 1, ir_count: 10, ir_mem: 3, \
         ir_arith: 4, ir_other: 3, pat_start: 1, pat_step: 2)\n",
    );
    assert_eq!(loops.get(2).info, Some(info(6, 3, Some(1), Some(2))));
    assert_eq!(loops.get(0).info, None);

    let mut log = String::from("log");
    loops.opt_info(
        "LV: Checking a loop in 'f' from f.c:3:5\nLV(SI): SI enabled\n\
         f.c:8:3: remark: vectorized loop (vectorization width: 4, interleaved count: 2, \
         scalar interpolation count: 1)\n\
         f.c:2:5: remark: vectorized loop (vectorization width: 4, interleaved count: 2, \
         scalar interpolation count: 1)\n",
        &mut log,
    );
    assert_eq!(log, "log");
    assert_eq!(loops.get(0).si_status, Some(SIStatus::Enabled));
    assert_eq!(loops.get(0).remarks, None);
    assert_eq!(loops.get(1).si_status, None);
    assert_eq!(
        loops.get(2).remarks,
        Some(Remark { line: 8, col: 3, vector: 4, width: 2, si: 1 })
    );
}

#[test]
fn update_row_moves_a_loop() {
    let mut loops = Loops::from_loops(vec![Loop::new(2, 5), Loop::new(7, 3)]);
    loops.update_row(1, 11);
    assert_eq!(loops.get(1).post_row, 11);
    assert_eq!(loops.get(1).row, 7);
    loops.opt_info(
        "11:3: remark: vectorized loop (vectorization width: 4, interleaved count: 2, scalar \
         interpolation count: 1)\n7:3: remark: vectorized loop (vectorization width: 1, \
         interleaved count: 1, scalar interpolation count: 1)\n",
        &mut String::new(),
    );
    assert_eq!(
        loops.get(1).remarks,
        Some(Remark { line: 11, col: 3, vector: 4, width: 2, si: 1 })
    );
    assert_eq!(loops.get(0).remarks, None);
}

#[test]
fn kernel_output_is_parsed() {
    let text = "x\nKernel rewritable at line 14 with type 2\nKernel rewritable at line  with \
                type 1\nKernel rewritable at line 3 with type 0 and more";
    assert_eq!(
        parse_output(text),
        vec![KernelMatch { line: 14, kind: 2 }, KernelMatch { line: 3, kind: 0 }]
    );
    assert_eq!(parse_output(""), vec![]);
    let g = groups(&[Some("m"), Some("1"), Some("99999999999999999999")]);
    assert_eq!(kernels(&vec![g]), vec![]);
    assert_eq!(KernelMatch::default(), KernelMatch { line: 0, kind: 0 });
}

const START: &str = "[RebaseDLPass] RegionPackingCandidate ===========";
const END: &str = "[RebaseDLPass] ==================================";

#[test]
fn matching_lines_finds_whole_lines() {
    let all = texts(&["a", START, "b", START, " [RebaseDLPass] ", END]);
    assert_eq!(matching_lines(&all, START), vec![1, 3]);
    assert_eq!(matching_lines(&all, END), vec![5]);
    assert_eq!(matching_lines(&all, "c"), Vec::<usize>::new());
}

#[test]
fn packing_candidates_are_parsed() {
    let text = format!(
        "noise\n{}\n  something\n  !DILocation(line: 12, column: 7, scope: !5)\n- depth: 2\n\
         Minimum access frequency: 0.5\nCache utilization: 0.25\nCost benefit: 1.5\n{}\n\
         {}\nshort\n{}\n{}\nunclosed\n",
        START, END, START, END, START
    );
    assert_eq!(
        parse(text.as_str()),
        vec![
            PackingCandidate {
                line: Some(12),
                column: Some(7),
                depth: Some(2),
                min_access_frequency: Some("0.5".to_string()),
                cache_utilization: Some("0.25".to_string()),
                cost_benefit: Some("1.5".to_string()),
            },
            PackingCandidate::default(),
        ]
    );
    assert_eq!(parse(""), vec![]);
}

#[test]
fn quick_compilation_hands_on_the_output_of_a_successful_run() {
    let mut log = String::from("L0");
    let finished = Finished { output: "warn\n".to_string(), code: Some(0) };
    let out = try_compile("f.c", &texts(&["inc"]), &finished, vec![1, 2, 3], &mut log);
    assert_eq!(out, Ok(vec![1, 2, 3]));
    assert_eq!(
        log,
        "L0\n==============================\nTry for file \"f.c\":\nHeaders: [\"inc\"]\n\
         Output:\n------------------------------\nwarn\n------------------------------\n\
         success\n"
    );
}

#[test]
fn quick_compilation_that_timed_out_gives_nothing() {
    let mut log = String::from("L0");
    let finished = Finished { output: String::new(), code: Some(124) };
    let out = try_compile("f.c", &vec![], &finished, vec![9, 9], &mut log);
    assert_eq!(out, Err(()));
    assert!(log.starts_with("L0"));
    assert!(log.contains("timed out"));
    assert!(log.ends_with("timed out\nfailed\n"));
    let failed = Finished { output: "error\n".to_string(), code: Some(1) };
    let mut other = String::new();
    assert_eq!(try_compile("f.c", &vec![], &failed, vec![9], &mut other), Err(()));
    assert!(!other.contains("timed out"));
    assert!(other.ends_with("failed\n"));
}
