use thesis_converter::commands::{
    build_csv, build_txt, check_scan_root, conversion_task_failed, keyword_config_or_default,
    render_report, request_concurrency, scan_depth, soffice_missing_message, student_entries,
    with_output_dirs,
};
use thesis_converter::converter::{
    cancelled_result, failed_result, succeeded_result, ConversionReport, ConvertTask, OutputConfig,
};
use thesis_converter::identifier::{IdentifyStatus, KeywordConfig};
use thesis_converter::scanner::{FileInfo, StudentFolder};

fn task(name: &str, src: &str) -> ConvertTask {
    ConvertTask {
        student_name: name.to_string(),
        source_path: src.to_string(),
        output_dir: String::new(),
    }
}

fn sample_report() -> ConversionReport {
    let a = task("张三", "/s/张三/a.docx");
    let b = task("李四", "/s/李四/b.docx");
    let c = task("王五", "/s/王五/c.docx");
    ConversionReport {
        total: 3,
        succeeded: 1,
        failed: 1,
        skipped: 1,
        results: vec![
            succeeded_result(&a, "/s/张三/a.pdf".to_string()),
            failed_result(&b, "转换超时".to_string(), None),
            cancelled_result(&c),
        ],
    }
}

#[test]
fn text_report_layout() {
    let txt = build_txt(&sample_report());
    let expected = "===== 转换结果报告 =====\n总计：3  成功：1  失败：1  跳过：1\n\n[张三] /s/张三/a.docx → ✓ 成功\n[李四] /s/李四/b.docx → ✗ 失败（转换超时）\n[王五] /s/王五/c.docx → - 跳过（已取消）";
    assert_eq!(txt, expected);
}

#[test]
fn csv_report_layout() {
    let csv = build_csv(&sample_report());
    let expected = "学生文件夹,源文件,状态,输出PDF,错误信息\n张三,/s/张三/a.docx,成功,/s/张三/a.pdf,\n李四,/s/李四/b.docx,失败,,转换超时\n王五,/s/王五/c.docx,跳过,,已取消";
    assert_eq!(csv, expected);
}

#[test]
fn report_format_choice() {
    let r = sample_report();
    assert_eq!(render_report(&r, "csv"), build_csv(&r));
    assert_eq!(render_report(&r, "txt"), build_txt(&r));
    assert_eq!(render_report(&r, "CSV"), build_txt(&r));
}

#[test]
fn empty_report() {
    let r = ConversionReport { total: 0, succeeded: 0, failed: 0, skipped: 0, results: vec![] };
    assert_eq!(build_txt(&r), "===== 转换结果报告 =====\n总计：0  成功：0  失败：0  跳过：0\n");
    assert_eq!(build_csv(&r), "学生文件夹,源文件,状态,输出PDF,错误信息");
}

#[test]
fn scan_root_checks() {
    assert_eq!(check_scan_root("/x", false, false), Err("文件夹不存在：/x".to_string()));
    assert_eq!(check_scan_root("/x", true, false), Err("路径不是文件夹：/x".to_string()));
    assert_eq!(check_scan_root("/x", true, true), Ok(()));
}

#[test]
fn scan_defaults() {
    assert_eq!(scan_depth(None), 2);
    assert_eq!(scan_depth(Some(5)), 5);
    let c = keyword_config_or_default(None);
    assert_eq!(c, KeywordConfig::default());
    let mine = KeywordConfig { include_keywords: vec!["x".to_string()], exclude_keywords: vec![] };
    assert_eq!(keyword_config_or_default(Some(mine.clone())), mine);
}

#[test]
fn concurrency_is_clamped() {
    assert_eq!(request_concurrency(Some(0), 3), 1);
    assert_eq!(request_concurrency(Some(20), 3), 8);
    assert_eq!(request_concurrency(Some(5), 3), 5);
    assert_eq!(request_concurrency(None, 3), 3);
}

#[test]
fn tasks_get_output_dirs() {
    let custom = OutputConfig {
        mode: "custom".to_string(),
        custom_dir: Some("/pdfs".to_string()),
        existing_pdf_strategy: "skip".to_string(),
    };
    let tasks = vec![task("张三", "/s/张三/a.docx"), task("李四", "/s/李四/b.docx")];
    let out = with_output_dirs(tasks, &custom);
    assert_eq!(out[0].output_dir, "/pdfs/张三");
    assert_eq!(out[1].output_dir, "/pdfs/李四");
    assert_eq!(out[1].source_path, "/s/李四/b.docx");
    let same = OutputConfig { mode: "same".to_string(), ..custom };
    let out = with_output_dirs(vec![task("张三", "/s/张三/a.docx")], &same);
    assert_eq!(out[0].output_dir, "/s/张三");
}

#[test]
fn messages() {
    assert!(soffice_missing_message().starts_with("未找到 LibreOffice"));
    assert_eq!(conversion_task_failed("panic"), "转换任务出错：panic");
}

#[test]
fn entries_follow_the_folders() {
    let f = FileInfo {
        path: "/r/a/毕业论文.docx".to_string(),
        name: "毕业论文.docx".to_string(),
        size: 1,
        modified: 1,
        is_large: false,
    };
    let folders = vec![
        StudentFolder { name: "a".to_string(), path: "/r/a".to_string(), files: vec![f] },
        StudentFolder { name: "b".to_string(), path: "/r/b".to_string(), files: vec![] },
    ];
    let e = student_entries(folders, &KeywordConfig::default());
    assert_eq!(e.len(), 2);
    assert_eq!(e[0].student_name, "a");
    assert_eq!(e[0].identify_result.status, IdentifyStatus::Identified);
    assert_eq!(e[1].student_path, "/r/b");
    assert_eq!(e[1].identify_result.status, IdentifyStatus::NotFound);
}
