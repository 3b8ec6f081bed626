use thesis_converter::converter::{
    assemble_report, cancelled_result, concurrency_for, conversion_timeout_secs,
    df_available_bytes, disk_space_shortfall, failed_result, launch_failed, meminfo_low_ram,
    output_dir_failed, pdf_output_path, poll_step, progress_event, resolve_output_dir,
    soffice_args, soffice_candidates, split_by_size, start_step, succeeded_result, vm_stat_low_ram,
    which_candidate,
    ConvertTask, OutputConfig, Platform, PollAction, PollEvent,
};

fn task(name: &str, src: &str) -> ConvertTask {
    ConvertTask {
        student_name: name.to_string(),
        source_path: src.to_string(),
        output_dir: "/out".to_string(),
    }
}

fn finished(a: PollAction) -> (bool, thesis_converter::converter::ConvertResult) {
    match a {
        PollAction::Finish { kill, result } => (kill, result),
        PollAction::KeepWaiting => panic!("expected the conversion to finish"),
    }
}

#[test]
fn cancelled_task_is_skipped() {
    let r = cancelled_result(&task("张三", "/s/a.docx"));
    assert!(r.skipped);
    assert!(!r.success);
    assert_eq!(r.skip_reason.as_deref(), Some("已取消"));
    assert_eq!(r.error, None);
    assert_eq!(r.student_name, "张三");
}

#[test]
fn failure_messages_carry_the_cause() {
    let t = task("a", "/s/a.docx");
    assert_eq!(output_dir_failed(&t, "denied").error.as_deref(), Some("无法创建输出目录：denied"));
    assert_eq!(launch_failed(&t, "no such file").error.as_deref(), Some("启动 LibreOffice 失败：no such file"));
    let f = failed_result(&t, "x".to_string(), Some("/o.pdf".to_string()));
    assert_eq!(f.output_path.as_deref(), Some("/o.pdf"));
    assert!(!f.success && !f.skipped);
    let s = succeeded_result(&t, "/o.pdf".to_string());
    assert!(s.success && !s.skipped);
}

#[test]
fn large_file_needs_three_times_its_size() {
    let t = task("a", "/s/a.docx");
    let mb: u64 = 1024 * 1024;
    let r = disk_space_shortfall(&t, 200 * mb, 500 * mb).expect("not enough space");
    assert_eq!(r.error.as_deref(), Some("磁盘空间不足（需要 600MB，可用 500MB）"));
    assert!(disk_space_shortfall(&t, 200 * mb, 600 * mb).is_none());
    assert!(disk_space_shortfall(&t, 99 * mb, 0).is_none());
    assert!(disk_space_shortfall(&t, 100 * mb, 299 * mb).is_some());
}

#[test]
fn timeouts_depend_on_size() {
    assert_eq!(conversion_timeout_secs(0), 60);
    assert_eq!(conversion_timeout_secs(100 * 1024 * 1024 - 1), 60);
    assert_eq!(conversion_timeout_secs(100 * 1024 * 1024), 300);
}

#[test]
fn pdf_path_uses_the_file_stem() {
    assert_eq!(pdf_output_path("/s/张三/毕业论文.docx", "/out"), "/out/毕业论文.pdf");
    assert_eq!(pdf_output_path("/s/a.b.doc", "/out/"), "/out/a.b.pdf");
}

#[test]
fn poll_cancel_kills_and_skips() {
    let t = task("a", "/s/a.docx");
    let (kill, r) = finished(poll_step(&t, PollEvent::Cancelled, 60));
    assert!(kill);
    assert!(r.skipped);
    assert_eq!(r.skip_reason.as_deref(), Some("已取消"));
}

#[test]
fn poll_success_with_pdf() {
    let t = task("a", "/s/a.docx");
    let e = PollEvent::ExitedOk { pdf_path: "/out/a.pdf".to_string(), pdf_size: 10 };
    let (kill, r) = finished(poll_step(&t, e, 60));
    assert!(!kill);
    assert!(r.success);
    assert_eq!(r.output_path.as_deref(), Some("/out/a.pdf"));
}

#[test]
fn poll_success_with_empty_pdf_fails() {
    let t = task("a", "/s/a.docx");
    let e = PollEvent::ExitedOk { pdf_path: "/out/a.pdf".to_string(), pdf_size: 0 };
    let (kill, r) = finished(poll_step(&t, e, 60));
    assert!(!kill);
    assert!(!r.success);
    assert_eq!(r.error.as_deref(), Some("转换异常，生成的 PDF 为空"));
    assert_eq!(r.output_path.as_deref(), Some("/out/a.pdf"));
}

#[test]
fn poll_failed_exit_reports_stderr() {
    let t = task("a", "/s/a.docx");
    let (_, r) = finished(poll_step(&t, PollEvent::ExitedWithError { stderr: Some("boom".to_string()) }, 60));
    assert_eq!(r.error.as_deref(), Some("boom"));
    let (_, r) = finished(poll_step(&t, PollEvent::ExitedWithError { stderr: None }, 60));
    assert_eq!(r.error.as_deref(), Some("转换失败"));
}

#[test]
fn poll_running_waits_until_timeout() {
    let t = task("a", "/s/a.docx");
    assert!(matches!(poll_step(&t, PollEvent::Running { elapsed_nanos: 60_000_000_000 }, 60), PollAction::KeepWaiting));
    let (kill, r) = finished(poll_step(&t, PollEvent::Running { elapsed_nanos: 60_000_000_001 }, 60));
    assert!(kill);
    assert_eq!(r.error.as_deref(), Some("转换超时"));
}

#[test]
fn poll_wait_error() {
    let t = task("a", "/s/a.docx");
    let (kill, r) = finished(poll_step(&t, PollEvent::WaitFailed { message: "io".to_string() }, 60));
    assert!(!kill);
    assert_eq!(r.error.as_deref(), Some("进程错误：io"));
}

#[test]
fn output_dir_custom_and_beside_source() {
    let custom = OutputConfig {
        mode: "custom".to_string(),
        custom_dir: Some("/pdfs".to_string()),
        existing_pdf_strategy: "overwrite".to_string(),
    };
    assert_eq!(resolve_output_dir("/s/张三/a.docx", "张三", &custom), "/pdfs/张三");
    let custom_without_dir = OutputConfig { custom_dir: None, ..custom.clone() };
    assert_eq!(resolve_output_dir("/s/张三/a.docx", "张三", &custom_without_dir), "/s/张三");
    let same = OutputConfig { mode: "same".to_string(), ..custom };
    assert_eq!(resolve_output_dir("/s/张三/a.docx", "张三", &same), "/s/张三");
    assert_eq!(resolve_output_dir("", "张三", &same), ".");
    assert_eq!(resolve_output_dir("a.docx", "张三", &same), "");
}

#[test]
fn default_concurrency_rules() {
    assert_eq!(concurrency_for(true, Some(16)), 1);
    assert_eq!(concurrency_for(false, Some(16)), 4);
    assert_eq!(concurrency_for(false, Some(6)), 3);
    assert_eq!(concurrency_for(false, Some(1)), 1);
    assert_eq!(concurrency_for(false, None), 1);
}

#[test]
fn df_output_is_parsed() {
    let out = "Filesystem 1K-blocks Used Available Use% Mounted on\n/dev/sda1 1000 400 600 40% /\n";
    assert_eq!(df_available_bytes(out), 600 * 1024);
    assert_eq!(df_available_bytes("header only\n"), u64::MAX);
    assert_eq!(df_available_bytes(""), u64::MAX);
    let odd = "h\nshort line\n/dev/x 1 2 +7 3 /\n";
    assert_eq!(df_available_bytes(odd), 7 * 1024);
    let bad_then_good = "h\n/dev/x 1 2 -3 x /\n/dev/y 1 2 9 x /";
    assert_eq!(df_available_bytes(bad_then_good), 9 * 1024);
    let huge = "h\n/dev/x 1 2 18446744073709551615 x /";
    assert_eq!(df_available_bytes(huge), u64::MAX);
}

#[test]
fn meminfo_is_parsed() {
    assert!(meminfo_low_ram("MemTotal: 8000000 kB\nMemAvailable:  512000 kB\n"));
    assert!(!meminfo_low_ram("MemTotal: 8000000 kB\nMemAvailable:  4000000 kB\n"));
    assert!(!meminfo_low_ram("MemTotal: 8000000 kB\n"));
    assert!(!meminfo_low_ram("MemAvailable: lots\n"));
    assert!(meminfo_low_ram("MemAvailable: 1048575 kB\r\nMemAvailable: 9999999 kB\n"));
}

#[test]
fn vm_stat_is_parsed() {
    let low = "Mach Virtual Memory Statistics: (page size of 4096 bytes)\nPages free:                               1000.\nPages active:                           900000.\nPages speculative:                         500.\n";
    assert!(vm_stat_low_ram(low));
    let high = "Pages free:                             200000.\nPages speculative:                       62144.\n";
    assert!(!vm_stat_low_ram(high));
    let just_below = "Pages free: 200000.\nPages speculative: 62143.\n";
    assert!(vm_stat_low_ram(just_below));
    assert!(vm_stat_low_ram(""));
}

#[test]
fn soffice_search_order() {
    let v = soffice_candidates(None, Platform::Other);
    assert_eq!(v, vec!["/usr/bin/soffice", "/usr/local/bin/soffice", "/opt/libreoffice/program/soffice"]);
    let v = soffice_candidates(Some("/app/res"), Platform::Other);
    assert_eq!(v[0], "/app/res/LibreOffice/program/soffice");
    assert_eq!(v.len(), 4);
    let v = soffice_candidates(Some("/app/res"), Platform::MacOs);
    assert_eq!(v[0], "/app/res/LibreOffice.app/Contents/MacOS/soffice");
    assert_eq!(v[1], "/Applications/LibreOffice.app/Contents/MacOS/soffice");
    assert_eq!(v.len(), 5);
    let v = soffice_candidates(None, Platform::Windows);
    assert_eq!(v[0], "C:\\Program Files\\LibreOffice\\program\\soffice.exe");
    assert_eq!(v.len(), 2);
}

#[test]
fn which_output_is_trimmed() {
    assert_eq!(which_candidate("  /usr/bin/soffice\n").as_deref(), Some("/usr/bin/soffice"));
    assert_eq!(which_candidate(" \n\t"), None);
    assert_eq!(which_candidate(""), None);
}

#[test]
fn batch_is_split_by_size_in_order() {
    let tasks = vec![task("a", "1"), task("b", "2"), task("c", "3"), task("d", "4")];
    let big = 100 * 1024 * 1024;
    let (normal, large) = split_by_size(tasks, &vec![1, big, big - 1, big + 5]);
    let n: Vec<String> = normal.iter().map(|t| t.student_name.clone()).collect();
    let l: Vec<String> = large.iter().map(|t| t.student_name.clone()).collect();
    assert_eq!(n, vec!["a", "c"]);
    assert_eq!(l, vec!["b", "d"]);
}

#[test]
fn report_counts_each_result_once() {
    let t = task("a", "/s/a.docx");
    let normal = vec![
        succeeded_result(&t, "/o/a.pdf".to_string()),
        failed_result(&t, "x".to_string(), None),
    ];
    let large = vec![cancelled_result(&t), succeeded_result(&t, "/o/b.pdf".to_string())];
    let r = assemble_report(4, normal, large);
    assert_eq!(r.total, 4);
    assert_eq!(r.succeeded, 2);
    assert_eq!(r.failed, 1);
    assert_eq!(r.skipped, 1);
    assert_eq!(r.succeeded + r.failed + r.skipped, r.results.len());
    assert!(r.results[2].skipped);
}

#[test]
fn progress_reports_status_words() {
    let t = task("a", "/s/a.docx");
    let p = progress_event(3, 7, "/s/a.docx", &succeeded_result(&t, "/o".to_string()));
    assert_eq!((p.current, p.total), (3, 7));
    assert_eq!(p.status, "success");
    assert_eq!(p.current_file, "/s/a.docx");
    let p = progress_event(1, 1, "f", &cancelled_result(&t));
    assert_eq!(p.status, "skipped");
    let p = progress_event(1, 1, "f", &failed_result(&t, "e".to_string(), None));
    assert_eq!(p.status, "error");
}

#[test]
fn existing_pdf_is_kept_under_skip_strategy() {
    let t = task("张三", "/s/张三/毕业论文.docx");
    let r = start_step(&t, false, "skip", true).expect("an existing PDF is kept");
    assert!(r.skipped);
    assert!(!r.success);
    assert_eq!(r.skip_reason.as_deref(), Some("已存在同名 PDF"));
    assert_eq!(r.output_path, None);
    assert_eq!(r.student_name, "张三");
    assert!(start_step(&t, false, "skip", false).is_none());
    assert!(start_step(&t, false, "overwrite", true).is_none());
    assert!(start_step(&t, false, "rename", true).is_none());
    let c = start_step(&t, true, "skip", true).expect("a cancelled batch skips the task");
    assert_eq!(c.skip_reason.as_deref(), Some("已取消"));
    assert!(start_step(&t, true, "overwrite", false).is_some());
}

#[test]
fn joined_paths_use_the_platform_separator() {
    let sep = std::path::MAIN_SEPARATOR;
    let custom = OutputConfig {
        mode: "custom".to_string(),
        custom_dir: Some("/out".to_string()),
        existing_pdf_strategy: "overwrite".to_string(),
    };
    assert_eq!(
        resolve_output_dir("/s/张三/毕业论文.docx", "张三", &custom),
        format!("/out{sep}张三")
    );
    assert_eq!(pdf_output_path("/s/a/论文.DOCX", "/o"), format!("/o{sep}论文.pdf"));
    assert_eq!(pdf_output_path("/s/a/.hidden", "out"), format!("out{sep}.hidden.pdf"));
    let v = soffice_candidates(Some("/res"), Platform::Other);
    assert_eq!(v[0], format!("/res{sep}LibreOffice/program/soffice"));
}

#[test]
fn soffice_is_run_headless_into_the_output_dir() {
    let t = ConvertTask {
        student_name: "张三".to_string(),
        source_path: "/s/张三/论文.docx".to_string(),
        output_dir: "/out/张三".to_string(),
    };
    assert_eq!(
        soffice_args(&t),
        vec!["--headless", "--convert-to", "pdf", "/s/张三/论文.docx", "--outdir", "/out/张三"]
    );
}
