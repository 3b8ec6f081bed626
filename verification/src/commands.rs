//! What the application's commands compute: student entries from a scan,
//! the conversion request's settings, and the exported report text.
use vstd::prelude::*;
use crate::converter::{
    ConvertResultView, ConvertTask, ConversionReport, ConversionReportView, OutputConfig,
    placed_output_dir, resolve_output_dir,
};
use crate::identifier::{
    IdentifyResult, IdentifyResultView, KeywordConfig, identify, identify_spec, lowered_all,
    lowered_names,
};
use crate::scanner::StudentFolder;
use crate::text::{decimal_string, join_lines, join_with_newlines, push_decimal};

verus! {

/// A scanned student folder together with the identification result.
#[derive(Debug, Clone, PartialEq)]
pub struct StudentEntry {
    pub student_name: String,
    pub student_path: String,
    pub identify_result: IdentifyResult,
}

pub struct StudentEntryView {
    pub student_name: Seq<char>,
    pub student_path: Seq<char>,
    pub identify_result: IdentifyResultView,
}

impl View for StudentEntry {
    type V = StudentEntryView;

    open spec fn view(&self) -> StudentEntryView {
        StudentEntryView {
            student_name: self.student_name@,
            student_path: self.student_path@,
            identify_result: self.identify_result@,
        }
    }
}

impl DeepView for StudentEntry {
    type V = StudentEntryView;

    open spec fn deep_view(&self) -> StudentEntryView {
        self@
    }
}

/// A request to convert a batch of files.
#[derive(Debug, Clone, PartialEq)]
pub struct ConvertRequest {
    pub tasks: Vec<ConvertTask>,
    pub output_config: OutputConfig,
    pub concurrency: Option<usize>,
}

fn concat(a: &str, b: &str) -> (r: String)
    ensures
        r@ == a@ + b@,
{
    let mut s = a.to_owned();
    s.append(b);
    s
}

/// Checks the root folder of a scan: it must exist and be a directory.
pub fn check_scan_root(path: &str, exists: bool, is_dir: bool) -> (r: Result<(), String>)
    ensures
        !exists ==> (r matches Err(m) && m@ == "文件夹不存在："@ + path@),
        exists && !is_dir ==> (r matches Err(m) && m@ == "路径不是文件夹："@ + path@),
        exists && is_dir ==> r is Ok,
{
    if !exists {
        return Err(concat("文件夹不存在：", path));
    }
    if !is_dir {
        return Err(concat("路径不是文件夹：", path));
    }
    Ok(())
}

/// The search depth below each student folder: 2 unless given.
pub fn scan_depth(depth: Option<u8>) -> (d: u8)
    ensures
        d == (match depth {
            Some(d) => d,
            None => 2u8,
        }),
{
    match depth {
        Some(d) => d,
        None => 2,
    }
}

/// The keyword configuration to use: the given one, or the default one.
pub fn keyword_config_or_default(config: Option<KeywordConfig>) -> (c: KeywordConfig)
    ensures
        config matches Some(k) ==> c@ == k@,
        config is None ==> c@.include_keywords == crate::identifier::default_include()
            && c@.exclude_keywords == crate::identifier::default_exclude(),
{
    match config {
        Some(k) => k,
        None => KeywordConfig::default(),
    }
}

/// One entry per scanned folder, in the same order, with the rule engine's
/// answer for that folder's files.
pub fn student_entries(folders: Vec<StudentFolder>, config: &KeywordConfig) -> (r: Vec<StudentEntry>)
    ensures
        r@.len() == folders@.len(),
        forall|i: int|
            0 <= i < r@.len() ==> {
                &&& #[trigger] r@[i].student_name@ == folders@[i].name@
                &&& r@[i].student_path@ == folders@[i].path@
                &&& identify_spec(
                    folders@[i].files.deep_view(),
                    lowered_names(folders@[i].files.deep_view()),
                    lowered_all(config@.include_keywords),
                    lowered_all(config@.exclude_keywords),
                    r@[i].identify_result@,
                )
            },
{
    let ghost fs = folders@;
    let n = folders.len();
    let mut rest = folders;
    let mut out: Vec<StudentEntry> = Vec::new();
    let mut i: usize = 0;
    while i < n
        invariant
            n == fs.len(),
            i <= n,
            rest@ == fs.skip(i as int),
            out@.len() == i,
            forall|k: int|
                #![trigger out@[k]]
                0 <= k < i ==> {
                    &&& out@[k].student_name@ == fs[k].name@
                    &&& out@[k].student_path@ == fs[k].path@
                    &&& identify_spec(
                        fs[k].files.deep_view(),
                        lowered_names(fs[k].files.deep_view()),
                        lowered_all(config@.include_keywords),
                        lowered_all(config@.exclude_keywords),
                        out@[k].identify_result@,
                    )
                },
        decreases n - i,
    {
        let folder = rest.remove(0);
        assert(folder == fs[i as int]);
        assert(rest@ =~= fs.skip(i + 1));
        let files = folder.files.as_slice();
        let result = identify(files, config);
        assert(files.deep_view() =~= fs[i as int].files.deep_view());
        let ghost before = out@;
        out.push(StudentEntry {
            student_name: folder.name,
            student_path: folder.path,
            identify_result: result,
        });
        assert(forall|k: int| #![trigger out@[k]] 0 <= k < i ==> out@[k] == before[k]);
        i = i + 1;
    }
    out
}

/// The number of parallel conversions: the requested one (or `fallback`, the
/// machine's default), clamped to 1..=8.
pub fn request_concurrency(requested: Option<usize>, fallback: usize) -> (n: usize)
    ensures
        n == ({
            let c = match requested {
                Some(c) => c,
                None => fallback,
            };
            if c < 1 {
                1
            } else if c > 8 {
                8
            } else {
                c
            }
        }),
{
    let c = match requested {
        Some(c) => c,
        None => fallback,
    };
    if c < 1 {
        1
    } else if c > 8 {
        8
    } else {
        c
    }
}

/// The tasks with their output directory set by the output configuration
/// (each the directory that [`resolve_output_dir`] gives for it); student names
/// and sources are kept, in order.
pub fn with_output_dirs(tasks: Vec<ConvertTask>, config: &OutputConfig) -> (r: Vec<ConvertTask>)
    ensures
        r@.len() == tasks@.len(),
        forall|i: int|
            0 <= i < r@.len() ==> #[trigger] r@[i].student_name@ == tasks@[i].student_name@
                && r@[i].source_path@ == tasks@[i].source_path@,
        forall|i: int|
            0 <= i < r@.len() ==> placed_output_dir(
                tasks@[i].source_path@,
                tasks@[i].student_name@,
                config.mode@,
                config.custom_dir.deep_view(),
                (#[trigger] r@[i]).output_dir@,
            ),
{
    let ghost ts = tasks@;
    let n = tasks.len();
    let mut rest = tasks;
    let mut out: Vec<ConvertTask> = Vec::new();
    let mut i: usize = 0;
    while i < n
        invariant
            n == ts.len(),
            i <= n,
            rest@ == ts.skip(i as int),
            out@.len() == i,
            forall|k: int|
                0 <= k < i ==> #[trigger] out@[k].student_name@ == ts[k].student_name@
                    && out@[k].source_path@ == ts[k].source_path@,
            forall|k: int|
                0 <= k < i ==> placed_output_dir(
                    ts[k].source_path@,
                    ts[k].student_name@,
                    config.mode@,
                    config.custom_dir.deep_view(),
                    (#[trigger] out@[k]).output_dir@,
                ),
        decreases n - i,
    {
        let task = rest.remove(0);
        assert(task == ts[i as int]);
        assert(rest@ =~= ts.skip(i + 1));
        let dir = resolve_output_dir(task.source_path.as_str(), task.student_name.as_str(), config);
        out.push(
            ConvertTask {
                student_name: task.student_name,
                source_path: task.source_path,
                output_dir: dir,
            },
        );
        i = i + 1;
    }
    out
}

/// The message shown when no working LibreOffice was found.
pub fn soffice_missing_message() -> (m: String)
    ensures
        m@ == "未找到 LibreOffice，请将 LibreOffice.app 放入 src-tauri/resources/ 目录，或安装系统版 LibreOffice（https://www.libreoffice.org/download/）"@,
{
    "未找到 LibreOffice，请将 LibreOffice.app 放入 src-tauri/resources/ 目录，或安装系统版 LibreOffice（https://www.libreoffice.org/download/）".to_owned()
}

/// The message when the exported report could not be written.
pub fn write_failed_message(err: &str) -> (m: String)
    ensures
        m@ == "写入文件失败："@ + err@,
{
    concat("写入文件失败：", err)
}

/// The message when the background conversion task itself failed.
pub fn conversion_task_failed(err: &str) -> (m: String)
    ensures
        m@ == "转换任务出错："@ + err@,
{
    concat("转换任务出错：", err)
}


/// The text of an optional string, empty when absent.
pub open spec fn or_empty(s: Option<Seq<char>>) -> Seq<char> {
    match s {
        Some(t) => t,
        None => Seq::<char>::empty(),
    }
}

fn append_or_empty(out: &mut String, s: &Option<String>)
    ensures
        final(out)@ == old(out)@ + or_empty(s.deep_view()),
{
    match s {
        Some(t) => out.append(t.as_str()),
        None => {
            assert(old(out)@ + Seq::<char>::empty() =~= old(out)@);
        },
    }
}

/// How a result reads in the text report.
pub open spec fn txt_status(r: ConvertResultView) -> Seq<char> {
    if r.success {
        "✓ 成功"@
    } else if r.skipped {
        "- 跳过（"@ + or_empty(r.skip_reason) + "）"@
    } else {
        "✗ 失败（"@ + or_empty(r.error) + "）"@
    }
}

/// The text-report line of one result.
pub open spec fn txt_result_line(r: ConvertResultView) -> Seq<char> {
    "["@ + r.student_name + "] "@ + r.source_path + " → "@ + txt_status(r)
}

/// The totals line of the text report.
pub open spec fn txt_totals_line(report: ConversionReportView) -> Seq<char> {
    "总计："@ + decimal_string(report.total as nat) + "  成功："@ + decimal_string(
        report.succeeded as nat,
    ) + "  失败："@ + decimal_string(report.failed as nat) + "  跳过："@ + decimal_string(
        report.skipped as nat,
    )
}

/// The lines of the text report: a title, the totals, an empty line, then one
/// line per result.
pub open spec fn txt_lines(report: ConversionReportView) -> Seq<Seq<char>> {
    seq!["===== 转换结果报告 ====="@, txt_totals_line(report), Seq::<char>::empty()] + Seq::new(
        report.results.len(),
        |i: int| txt_result_line(report.results[i]),
    )
}

/// Law: the text report starts with its title, then the totals line, which
/// names the report's total, succeeded, failed and skipped counts in that
/// order, each in decimal after its own label, then an empty line; one line
/// per result follows, in order.
pub proof fn law_txt_report_layout(report: ConversionReportView)
    ensures
        txt_lines(report).len() == 3 + report.results.len(),
        txt_lines(report)[0] == "===== 转换结果报告 ====="@,
        txt_lines(report)[1] == "总计："@ + decimal_string(report.total as nat) + "  成功："@
            + decimal_string(report.succeeded as nat) + "  失败："@ + decimal_string(
            report.failed as nat,
        ) + "  跳过："@ + decimal_string(report.skipped as nat),
        txt_lines(report)[2] == Seq::<char>::empty(),
        forall|i: int|
            0 <= i < report.results.len() ==> #[trigger] txt_lines(report)[3 + i]
                == txt_result_line(report.results[i]),
{
}

/// The status column of the CSV report.
pub open spec fn csv_status(r: ConvertResultView) -> Seq<char> {
    if r.success {
        "成功"@
    } else if r.skipped {
        "跳过"@
    } else {
        "失败"@
    }
}

/// The error column of the CSV report: the error, else the skip reason.
pub open spec fn csv_error(r: ConvertResultView) -> Seq<char> {
    match r.error {
        Some(e) => e,
        None => or_empty(r.skip_reason),
    }
}

/// The CSV line of one result.
pub open spec fn csv_result_line(r: ConvertResultView) -> Seq<char> {
    r.student_name + ","@ + r.source_path + ","@ + csv_status(r) + ","@ + or_empty(r.output_path)
        + ","@ + csv_error(r)
}

/// The lines of the CSV report: a header, then one line per result.
pub open spec fn csv_lines(report: ConversionReportView) -> Seq<Seq<char>> {
    seq!["学生文件夹,源文件,状态,输出PDF,错误信息"@] + Seq::new(
        report.results.len(),
        |i: int| csv_result_line(report.results[i]),
    )
}

fn txt_line(r: &crate::converter::ConvertResult) -> (s: String)
    ensures
        s@ == txt_result_line(r@),
{
    let mut s = "[".to_owned();
    s.append(r.student_name.as_str());
    s.append("] ");
    s.append(r.source_path.as_str());
    s.append(" → ");
    if r.success {
        s.append("✓ 成功");
    } else if r.skipped {
        s.append("- 跳过（");
        append_or_empty(&mut s, &r.skip_reason);
        s.append("）");
    } else {
        s.append("✗ 失败（");
        append_or_empty(&mut s, &r.error);
        s.append("）");
    }
    proof {
        let a = "["@ + r.student_name@ + "] "@ + r.source_path@ + " → "@;
        if r.success {
        } else if r.skipped {
            assert(a + "- 跳过（"@ + or_empty(r.skip_reason.deep_view()) + "）"@ =~= a + txt_status(r@));
        } else {
            assert(a + "✗ 失败（"@ + or_empty(r.error.deep_view()) + "）"@ =~= a + txt_status(r@));
        }
    }
    s
}

fn csv_line(r: &crate::converter::ConvertResult) -> (s: String)
    ensures
        s@ == csv_result_line(r@),
{
    let mut s = r.student_name.clone();
    s.append(",");
    s.append(r.source_path.as_str());
    s.append(",");
    if r.success {
        s.append("成功");
    } else if r.skipped {
        s.append("跳过");
    } else {
        s.append("失败");
    }
    s.append(",");
    append_or_empty(&mut s, &r.output_path);
    s.append(",");
    match &r.error {
        Some(e) => s.append(e.as_str()),
        None => append_or_empty(&mut s, &r.skip_reason),
    }
    s
}

/// The text report: a title, the totals, and one line per result, joined by
/// '\n'.
pub fn build_txt(report: &ConversionReport) -> (s: String)
    ensures
        s@ == join_lines(txt_lines(report@)),
{
    let ghost rv = report@;
    let mut lines: Vec<String> = Vec::new();
    lines.push("===== 转换结果报告 =====".to_owned());
    let mut totals = "总计：".to_owned();
    push_decimal(&mut totals, report.total as u64);
    totals.append("  成功：");
    push_decimal(&mut totals, report.succeeded as u64);
    totals.append("  失败：");
    push_decimal(&mut totals, report.failed as u64);
    totals.append("  跳过：");
    push_decimal(&mut totals, report.skipped as u64);
    lines.push(totals);
    lines.push(String::new());
    let ghost head = seq!["===== 转换结果报告 ====="@, txt_totals_line(rv), Seq::<char>::empty()];
    assert(lines.deep_view() =~= head);
    let ghost body = Seq::new(rv.results.len(), |i: int| txt_result_line(rv.results[i]));
    for i in 0..report.results.len()
        invariant
            rv == report@,
            body.len() == rv.results.len(),
            forall|k: int| 0 <= k < body.len() ==> #[trigger] body[k] == txt_result_line(rv.results[k]),
            lines.deep_view() == head + body.take(i as int),
    {
        let ghost before = lines.deep_view();
        let line = txt_line(&report.results[i]);
        assert(report.results[i as int]@ == rv.results[i as int]);
        lines.push(line);
        assert(lines.deep_view() =~= before.push(line@));
        assert(head + body.take(i + 1) =~= (head + body.take(i as int)).push(body[i as int]));
    }
    assert(body.take(body.len() as int) =~= body);
    assert(head + body =~= txt_lines(rv));
    join_with_newlines(&lines)
}

/// The CSV report: a header line and one line per result, joined by '\n'.
pub fn build_csv(report: &ConversionReport) -> (s: String)
    ensures
        s@ == join_lines(csv_lines(report@)),
{
    let ghost rv = report@;
    let mut lines: Vec<String> = Vec::new();
    lines.push("学生文件夹,源文件,状态,输出PDF,错误信息".to_owned());
    let ghost head = seq!["学生文件夹,源文件,状态,输出PDF,错误信息"@];
    assert(lines.deep_view() =~= head);
    let ghost body = Seq::new(rv.results.len(), |i: int| csv_result_line(rv.results[i]));
    for i in 0..report.results.len()
        invariant
            rv == report@,
            body.len() == rv.results.len(),
            forall|k: int| 0 <= k < body.len() ==> #[trigger] body[k] == csv_result_line(rv.results[k]),
            lines.deep_view() == head + body.take(i as int),
    {
        let ghost before = lines.deep_view();
        let line = csv_line(&report.results[i]);
        assert(report.results[i as int]@ == rv.results[i as int]);
        lines.push(line);
        assert(lines.deep_view() =~= before.push(line@));
        assert(head + body.take(i + 1) =~= (head + body.take(i as int)).push(body[i as int]));
    }
    assert(body.take(body.len() as int) =~= body);
    assert(head + body =~= csv_lines(rv));
    join_with_newlines(&lines)
}

/// The exported report: CSV for the format "csv", the text report otherwise.
pub fn render_report(report: &ConversionReport, format: &str) -> (s: String)
    ensures
        format@ == "csv"@ ==> s@ == join_lines(csv_lines(report@)),
        format@ != "csv"@ ==> s@ == join_lines(txt_lines(report@)),
{
    let f = format.to_owned();
    let csv = "csv".to_owned();
    if f == csv {
        build_csv(report)
    } else {
        build_txt(report)
    }
}

} // verus!
