//! Conversion planning: output locations, the per-file conversion protocol
//! (as a step function driven by the caller's process events), batch splitting,
//! the final report, and the parsers for the system facts that steer it.
use vstd::prelude::*;
use crate::identifier::pick;
use crate::paths::{
    after_last, clean_parent, clean_path, is_verbatim, joined, lemma_after_last, no_prefix_chars,
    path_file_stem, path_join, path_parent, plain_file_name, relative_part, stem_of_name,
};
use crate::text::{
    chars_of, decimal_string, has_prefix, parse_u64, parse_u64_spec, push_decimal, split_chars,
    split_words, starts_with_chars, string_of_chars, text_lines, trim_chars, trim_spec, words,
};

verus! {

/// Seconds a normal-sized conversion may take.
pub const NORMAL_TIMEOUT_SECS: u64 = 60;

/// Seconds a large-file conversion may take.
pub const LARGE_FILE_TIMEOUT_SECS: u64 = 300;

/// Source files of at least this many bytes (100 MB) are large.
pub const LARGE_FILE_SIZE: u64 = 100 * 1024 * 1024;

/// A large file needs this many times its size in free disk space.
pub const MIN_DISK_MULTIPLIER: u64 = 3;

/// One file to convert.
#[derive(Debug, Clone, PartialEq)]
pub struct ConvertTask {
    pub student_name: String,
    pub source_path: String,
    pub output_dir: String,
}

pub struct ConvertTaskView {
    pub student_name: Seq<char>,
    pub source_path: Seq<char>,
    pub output_dir: Seq<char>,
}

impl View for ConvertTask {
    type V = ConvertTaskView;

    open spec fn view(&self) -> ConvertTaskView {
        ConvertTaskView {
            student_name: self.student_name@,
            source_path: self.source_path@,
            output_dir: self.output_dir@,
        }
    }
}

impl DeepView for ConvertTask {
    type V = ConvertTaskView;

    open spec fn deep_view(&self) -> ConvertTaskView {
        self@
    }
}

/// The outcome of converting one file.
#[derive(Debug, Clone, PartialEq)]
pub struct ConvertResult {
    pub student_name: String,
    pub source_path: String,
    pub output_path: Option<String>,
    pub success: bool,
    pub error: Option<String>,
    pub skipped: bool,
    pub skip_reason: Option<String>,
}

pub struct ConvertResultView {
    pub student_name: Seq<char>,
    pub source_path: Seq<char>,
    pub output_path: Option<Seq<char>>,
    pub success: bool,
    pub error: Option<Seq<char>>,
    pub skipped: bool,
    pub skip_reason: Option<Seq<char>>,
}

impl View for ConvertResult {
    type V = ConvertResultView;

    open spec fn view(&self) -> ConvertResultView {
        ConvertResultView {
            student_name: self.student_name@,
            source_path: self.source_path@,
            output_path: self.output_path.deep_view(),
            success: self.success,
            error: self.error.deep_view(),
            skipped: self.skipped,
            skip_reason: self.skip_reason.deep_view(),
        }
    }
}

impl DeepView for ConvertResult {
    type V = ConvertResultView;

    open spec fn deep_view(&self) -> ConvertResultView {
        self@
    }
}

/// A result is either a success, a skip or a failure, never both a success
/// and a skip.
pub open spec fn consistent(r: ConvertResultView) -> bool {
    !(r.success && r.skipped)
}

/// Progress information emitted after each file.
#[derive(Debug, Clone, PartialEq)]
pub struct ConversionProgress {
    pub current: usize,
    pub total: usize,
    pub current_file: String,
    pub status: String,
}

/// The summary of a whole batch.
#[derive(Debug, Clone, PartialEq)]
pub struct ConversionReport {
    pub total: usize,
    pub succeeded: usize,
    pub failed: usize,
    pub skipped: usize,
    pub results: Vec<ConvertResult>,
}

pub struct ConversionReportView {
    pub total: usize,
    pub succeeded: usize,
    pub failed: usize,
    pub skipped: usize,
    pub results: Seq<ConvertResultView>,
}

impl View for ConversionReport {
    type V = ConversionReportView;

    open spec fn view(&self) -> ConversionReportView {
        ConversionReportView {
            total: self.total,
            succeeded: self.succeeded,
            failed: self.failed,
            skipped: self.skipped,
            results: self.results.deep_view(),
        }
    }
}

/// Where the PDFs go.
#[derive(Debug, Clone, PartialEq)]
pub struct OutputConfig {
    /// "same" = the source's directory, "custom" = `custom_dir`.
    pub mode: String,
    pub custom_dir: Option<String>,
    /// What to do with a PDF that already exists: "overwrite" | "skip" |
    /// "rename" (see [`start_step`]).
    pub existing_pdf_strategy: String,
}

/// The skip reason of a cancelled conversion.
pub open spec fn cancelled_reason() -> Seq<char> {
    "已取消"@
}

fn owned(s: &str) -> (r: String)
    ensures
        r@ == s@,
{
    s.to_owned()
}

fn concat(a: &str, b: &str) -> (r: String)
    ensures
        r@ == a@ + b@,
{
    let mut s = a.to_owned();
    s.append(b);
    s
}

/// The result for a task skipped because the batch was cancelled.
pub fn cancelled_result(task: &ConvertTask) -> (r: ConvertResult)
    ensures
        r@ == (ConvertResultView {
            student_name: task.student_name@,
            source_path: task.source_path@,
            output_path: None,
            success: false,
            error: None,
            skipped: true,
            skip_reason: Some(cancelled_reason()),
        }),
{
    ConvertResult {
        student_name: task.student_name.clone(),
        source_path: task.source_path.clone(),
        output_path: None,
        success: false,
        error: None,
        skipped: true,
        skip_reason: Some(owned("已取消")),
    }
}

/// The skip reason of a task whose PDF already exists and is kept.
pub open spec fn existing_pdf_reason() -> Seq<char> {
    "已存在同名 PDF"@
}

/// The result for a task skipped because its PDF already exists.
pub fn existing_pdf_result(task: &ConvertTask) -> (r: ConvertResult)
    ensures
        r@ == (ConvertResultView {
            student_name: task.student_name@,
            source_path: task.source_path@,
            output_path: None,
            success: false,
            error: None,
            skipped: true,
            skip_reason: Some(existing_pdf_reason()),
        }),
{
    ConvertResult {
        student_name: task.student_name.clone(),
        source_path: task.source_path.clone(),
        output_path: None,
        success: false,
        error: None,
        skipped: true,
        skip_reason: Some(owned("已存在同名 PDF")),
    }
}

/// The strategy for an existing PDF that keeps it and skips the conversion.
pub open spec fn skip_strategy() -> Seq<char> {
    "skip"@
}

/// What happens before a task's conversion starts, given whether the batch
/// is cancelled, the output configuration's strategy for existing PDFs, and
/// whether a file already stands at the task's PDF path: a cancelled batch
/// skips the task as cancelled; otherwise the "skip" strategy skips a task
/// whose PDF exists, leaving that file as it is; otherwise (`None`) the
/// conversion goes ahead ("overwrite" lets it replace the file).
pub fn start_step(task: &ConvertTask, cancelled: bool, strategy: &str, pdf_exists: bool) -> (r:
    Option<ConvertResult>)
    ensures
        cancelled ==> (r matches Some(res) && res@ == (ConvertResultView {
            student_name: task.student_name@,
            source_path: task.source_path@,
            output_path: None,
            success: false,
            error: None,
            skipped: true,
            skip_reason: Some(cancelled_reason()),
        })),
        !cancelled && strategy@ == skip_strategy() && pdf_exists ==> (r matches Some(res)
            && res@ == (ConvertResultView {
            student_name: task.student_name@,
            source_path: task.source_path@,
            output_path: None,
            success: false,
            error: None,
            skipped: true,
            skip_reason: Some(existing_pdf_reason()),
        })),
        !cancelled && !(strategy@ == skip_strategy() && pdf_exists) ==> r is None,
{
    if cancelled {
        return Some(cancelled_result(task));
    }
    let skip = owned("skip");
    let given = owned(strategy);
    if pdf_exists && given == skip {
        Some(existing_pdf_result(task))
    } else {
        None
    }
}

/// The result for a task that failed with `message`.
pub fn failed_result(task: &ConvertTask, message: String, output_path: Option<String>) -> (r:
    ConvertResult)
    ensures
        r@ == (ConvertResultView {
            student_name: task.student_name@,
            source_path: task.source_path@,
            output_path: output_path.deep_view(),
            success: false,
            error: Some(message@),
            skipped: false,
            skip_reason: None,
        }),
{
    ConvertResult {
        student_name: task.student_name.clone(),
        source_path: task.source_path.clone(),
        output_path,
        success: false,
        error: Some(message),
        skipped: false,
        skip_reason: None,
    }
}

/// The result for a task whose PDF was written to `pdf_path`.
pub fn succeeded_result(task: &ConvertTask, pdf_path: String) -> (r: ConvertResult)
    ensures
        r@ == (ConvertResultView {
            student_name: task.student_name@,
            source_path: task.source_path@,
            output_path: Some(pdf_path@),
            success: true,
            error: None,
            skipped: false,
            skip_reason: None,
        }),
{
    ConvertResult {
        student_name: task.student_name.clone(),
        source_path: task.source_path.clone(),
        output_path: Some(pdf_path),
        success: true,
        error: None,
        skipped: false,
        skip_reason: None,
    }
}

/// The result when the output directory could not be created (`err` is the
/// system's description of the failure).
pub fn output_dir_failed(task: &ConvertTask, err: &str) -> (r: ConvertResult)
    ensures
        r@ == (ConvertResultView {
            student_name: task.student_name@,
            source_path: task.source_path@,
            output_path: None,
            success: false,
            error: Some("无法创建输出目录："@ + err@),
            skipped: false,
            skip_reason: None,
        }),
{
    failed_result(task, concat("无法创建输出目录：", err), None)
}

/// The result when LibreOffice could not be started.
pub fn launch_failed(task: &ConvertTask, err: &str) -> (r: ConvertResult)
    ensures
        r@ == (ConvertResultView {
            student_name: task.student_name@,
            source_path: task.source_path@,
            output_path: None,
            success: false,
            error: Some("启动 LibreOffice 失败："@ + err@),
            skipped: false,
            skip_reason: None,
        }),
{
    failed_result(task, concat("启动 LibreOffice 失败：", err), None)
}


/// The message for a large file whose PDF may not fit on the disk.
pub open spec fn disk_space_message(file_size: u64, available: u64) -> Seq<char> {
    "磁盘空间不足（需要 "@ + decimal_string(((file_size * MIN_DISK_MULTIPLIER) / 1024 / 1024) as nat)
        + "MB，可用 "@ + decimal_string((available / 1024 / 1024) as nat) + "MB）"@
}

/// Refuses a large source file (at least [`LARGE_FILE_SIZE`] bytes) when less
/// than three times its size is free on the output disk.
pub fn disk_space_shortfall(task: &ConvertTask, file_size: u64, available: u64) -> (r: Option<
    ConvertResult,
>)
    requires
        file_size * MIN_DISK_MULTIPLIER <= u64::MAX,
    ensures
        r is Some <==> (file_size >= LARGE_FILE_SIZE && available < file_size * MIN_DISK_MULTIPLIER),
        r matches Some(res) ==> res@ == (ConvertResultView {
            student_name: task.student_name@,
            source_path: task.source_path@,
            output_path: None,
            success: false,
            error: Some(disk_space_message(file_size, available)),
            skipped: false,
            skip_reason: None,
        }),
{
    if file_size >= LARGE_FILE_SIZE && available < file_size * MIN_DISK_MULTIPLIER {
        let mut msg = owned("磁盘空间不足（需要 ");
        push_decimal(&mut msg, (file_size * MIN_DISK_MULTIPLIER) / 1024 / 1024);
        msg.append("MB，可用 ");
        push_decimal(&mut msg, available / 1024 / 1024);
        msg.append("MB）");
        Some(failed_result(task, msg, None))
    } else {
        None
    }
}

/// How long a conversion may run: longer for large files.
pub fn conversion_timeout_secs(file_size: u64) -> (t: u64)
    ensures
        t == (if file_size >= LARGE_FILE_SIZE {
            LARGE_FILE_TIMEOUT_SECS
        } else {
            NORMAL_TIMEOUT_SECS
        }),
{
    if file_size >= LARGE_FILE_SIZE {
        LARGE_FILE_TIMEOUT_SECS
    } else {
        NORMAL_TIMEOUT_SECS
    }
}

/// Where the PDF of `source_path` appears: the source's file stem with
/// ".pdf", inside `output_dir`.
///
/// For a plain source path (see [`plain_file_name`]) and an output directory
/// without a Windows prefix, that is exactly the directory, a separator where
/// needed, and the documented stem ([`stem_of_name`]) with ".pdf".
pub fn pdf_output_path(source_path: &str, output_dir: &str) -> (r: String)
    ensures
        !is_verbatim(output_dir@) ==> r@.len() >= 4 && r@.subrange(r@.len() - 4, r@.len() as int)
            == ".pdf"@,
        plain_file_name(source_path@) matches Some(n) ==> (no_prefix_chars(output_dir@) ==> joined(
            output_dir@,
            stem_of_name(n) + ".pdf"@,
            r@,
        )),
{
    let stem = match path_file_stem(source_path) {
        Some(s) => s,
        None => String::new(),
    };
    let name = concat(stem.as_str(), ".pdf");
    proof {
        reveal_strlit(".pdf");
        if plain_file_name(source_path@) is Some {
            let p = source_path@;
            let n = after_last(p, '/');
            lemma_after_last(p, '/');
            lemma_after_last(n, '.');
            let st = stem_of_name(n);
            assert(st.len() <= n.len());
            assert(stem@ == st);
            assert forall|i: int| 0 <= i < st.len() implies #[trigger] st[i] != '\\' && st[i]
                != ':' && st[i] != '/' by {
                let j = p.len() - n.len() + i;
                assert(st[i] == n[i]);
                assert(n[i] == p[j]);
                assert(!n.contains('/'));
                assert(!p.contains('\\'));
                assert(!p.contains(':'));
            }
            assert(relative_part(name@)) by {
                assert forall|i: int| 0 <= i < name@.len() implies #[trigger] name@[i] != '\\'
                    && name@[i] != ':' by {
                    if i < st.len() {
                        assert(name@[i] == st[i]);
                    } else {
                        assert(name@[i] == ".pdf"@[i - st.len()]);
                    }
                }
                if name@.len() >= 1 {
                    if st.len() > 0 {
                        assert(name@[0] == st[0]);
                    } else {
                        assert(name@[0] == '.');
                    }
                }
            }
        }
    }
    let r = path_join(output_dir, name.as_str());
    proof {
        if !is_verbatim(output_dir@) {
            assert(r@.subrange(r@.len() - 4, r@.len() as int) =~= name@.subrange(
                name@.len() - 4,
                name@.len() as int,
            ));
            assert(name@.subrange(name@.len() - 4, name@.len() as int) =~= ".pdf"@);
        }
    }
    r
}

/// The arguments of the LibreOffice run that converts the task: headless,
/// to PDF, the source file, and the output directory after "--outdir".
pub fn soffice_args(task: &ConvertTask) -> (v: Vec<String>)
    ensures
        v.deep_view() == seq![
            "--headless"@,
            "--convert-to"@,
            "pdf"@,
            task.source_path@,
            "--outdir"@,
            task.output_dir@,
        ],
{
    let mut v: Vec<String> = Vec::new();
    push_owned(&mut v, "--headless");
    push_owned(&mut v, "--convert-to");
    push_owned(&mut v, "pdf");
    push_owned(&mut v, task.source_path.as_str());
    push_owned(&mut v, "--outdir");
    push_owned(&mut v, task.output_dir.as_str());
    v
}

/// What the caller observed while a conversion process runs (checked in this
/// order: the batch's cancel flag, then the process state).
pub enum PollEvent {
    /// The batch was cancelled.
    Cancelled,
    /// The process exited successfully; `pdf_size` is the size of the file at
    /// `pdf_path` (0 if it is missing).
    ExitedOk { pdf_path: String, pdf_size: u64 },
    /// The process exited with a failure status; `stderr` is what it wrote.
    ExitedWithError { stderr: Option<String> },
    /// The process is still running after `elapsed_nanos` nanoseconds.
    Running { elapsed_nanos: u128 },
    /// Waiting on the process failed with `message`.
    WaitFailed { message: String },
}

/// What the caller does next.
pub enum PollAction {
    /// Sleep briefly (200 ms) and poll again.
    KeepWaiting,
    /// Stop: kill the process first if `kill`, then report `result`.
    Finish { kill: bool, result: ConvertResult },
}

/// The sleep between two polls, in milliseconds.
pub const POLL_INTERVAL_MILLIS: u64 = 200;

/// One step of the conversion protocol: from what was observed, what to do.
pub fn poll_step(task: &ConvertTask, event: PollEvent, timeout_secs: u64) -> (a: PollAction)
    ensures
        match event {
            PollEvent::Cancelled => a matches PollAction::Finish { kill, result } && kill
                && result@ == (ConvertResultView {
                student_name: task.student_name@,
                source_path: task.source_path@,
                output_path: None,
                success: false,
                error: None,
                skipped: true,
                skip_reason: Some(cancelled_reason()),
            }),
            PollEvent::ExitedOk { pdf_path, pdf_size } => a matches PollAction::Finish {
                kill,
                result,
            } && !kill && result@ == (if pdf_size == 0 {
                ConvertResultView {
                    student_name: task.student_name@,
                    source_path: task.source_path@,
                    output_path: Some(pdf_path@),
                    success: false,
                    error: Some("转换异常，生成的 PDF 为空"@),
                    skipped: false,
                    skip_reason: None,
                }
            } else {
                ConvertResultView {
                    student_name: task.student_name@,
                    source_path: task.source_path@,
                    output_path: Some(pdf_path@),
                    success: true,
                    error: None,
                    skipped: false,
                    skip_reason: None,
                }
            }),
            PollEvent::ExitedWithError { stderr } => a matches PollAction::Finish { kill, result }
                && !kill && result@ == (ConvertResultView {
                student_name: task.student_name@,
                source_path: task.source_path@,
                output_path: None,
                success: false,
                error: Some(
                    match stderr {
                        Some(e) => e@,
                        None => "转换失败"@,
                    },
                ),
                skipped: false,
                skip_reason: None,
            }),
            PollEvent::Running { elapsed_nanos } => if elapsed_nanos > timeout_secs as u128
                * 1_000_000_000 {
                a matches PollAction::Finish { kill, result } && kill && result@ == (
                ConvertResultView {
                    student_name: task.student_name@,
                    source_path: task.source_path@,
                    output_path: None,
                    success: false,
                    error: Some("转换超时"@),
                    skipped: false,
                    skip_reason: None,
                })
            } else {
                a is KeepWaiting
            },
            PollEvent::WaitFailed { message } => a matches PollAction::Finish { kill, result }
                && !kill && result@ == (ConvertResultView {
                student_name: task.student_name@,
                source_path: task.source_path@,
                output_path: None,
                success: false,
                error: Some("进程错误："@ + message@),
                skipped: false,
                skip_reason: None,
            }),
        },
{
    match event {
        PollEvent::Cancelled => PollAction::Finish { kill: true, result: cancelled_result(task) },
        PollEvent::ExitedOk { pdf_path, pdf_size } => {
            if pdf_size == 0 {
                PollAction::Finish {
                    kill: false,
                    result: failed_result(task, owned("转换异常，生成的 PDF 为空"), Some(pdf_path)),
                }
            } else {
                PollAction::Finish { kill: false, result: succeeded_result(task, pdf_path) }
            }
        },
        PollEvent::ExitedWithError { stderr } => {
            let msg = match stderr {
                Some(e) => e,
                None => owned("转换失败"),
            };
            PollAction::Finish { kill: false, result: failed_result(task, msg, None) }
        },
        PollEvent::Running { elapsed_nanos } => {
            if elapsed_nanos > timeout_secs as u128 * 1_000_000_000 {
                PollAction::Finish { kill: true, result: failed_result(task, owned("转换超时"), None) }
            } else {
                PollAction::KeepWaiting
            }
        },
        PollEvent::WaitFailed { message } => PollAction::Finish {
            kill: false,
            result: failed_result(task, concat("进程错误：", message.as_str()), None),
        },
    }
}


/// Which tasks count as large, by their source sizes.
pub open spec fn large_mask(sizes: Seq<u64>) -> Seq<bool> {
    Seq::new(sizes.len(), |i: int| sizes[i] >= LARGE_FILE_SIZE)
}

/// Which tasks count as normal-sized, by their source sizes.
pub open spec fn normal_mask(sizes: Seq<u64>) -> Seq<bool> {
    Seq::new(sizes.len(), |i: int| sizes[i] < LARGE_FILE_SIZE)
}

/// Splits the tasks (whose source sizes are `sizes`, in order) into the
/// normal-sized ones, converted in parallel, and the large ones, converted one
/// at a time; both keep the task order.
pub fn split_by_size(tasks: Vec<ConvertTask>, sizes: &Vec<u64>) -> (r: (
    Vec<ConvertTask>,
    Vec<ConvertTask>,
))
    requires
        sizes@.len() == tasks@.len(),
    ensures
        r.0.deep_view() == pick(tasks.deep_view(), normal_mask(sizes@)),
        r.1.deep_view() == pick(tasks.deep_view(), large_mask(sizes@)),
{
    let ghost tv = tasks.deep_view();
    let n = tasks.len();
    let mut normal: Vec<ConvertTask> = Vec::new();
    let mut large: Vec<ConvertTask> = Vec::new();
    let mut i: usize = 0;
    let mut rest = tasks;
    assert(rest.deep_view() =~= tv.skip(0));
    while i < n
        invariant
            n == tv.len(),
            sizes@.len() == n,
            i <= n,
            rest@.len() == n - i,
            rest.deep_view() == tv.skip(i as int),
            normal.deep_view() == pick(tv.take(i as int), normal_mask(sizes@).take(i as int)),
            large.deep_view() == pick(tv.take(i as int), large_mask(sizes@).take(i as int)),
        decreases n - i,
    {
        let ghost before = rest.deep_view();
        let ghost before_raw = rest@;
        let t = rest.remove(0);
        assert forall|k: int| 0 <= k < rest@.len() implies #[trigger] rest.deep_view()[k]
            == tv.skip(i + 1)[k] by {
            assert(rest@[k] == before_raw[k + 1]);
            assert(before[k + 1] == tv.skip(i as int)[k + 1]);
        }
        assert(t@ == tv[i as int]) by {
            assert(before[0] == tv.skip(i as int)[0]);
        }
        assert(rest.deep_view() =~= tv.skip(i + 1));
        assert(tv.take(i + 1).drop_last() =~= tv.take(i as int));
        assert(normal_mask(sizes@).take(i + 1).take(i as int) =~= normal_mask(sizes@).take(i as int));
        assert(large_mask(sizes@).take(i + 1).take(i as int) =~= large_mask(sizes@).take(i as int));
        if sizes[i] < LARGE_FILE_SIZE {
            let ghost nb = normal.deep_view();
            normal.push(t);
            assert(normal.deep_view() =~= nb.push(tv[i as int]));
        } else {
            let ghost lb = large.deep_view();
            large.push(t);
            assert(large.deep_view() =~= lb.push(tv[i as int]));
        }
        i = i + 1;
    }
    assert(tv.take(n as int) =~= tv);
    assert(normal_mask(sizes@).take(n as int) =~= normal_mask(sizes@));
    assert(large_mask(sizes@).take(n as int) =~= large_mask(sizes@));
    (normal, large)
}


/// The progress status word for a result.
pub open spec fn status_word(r: ConvertResultView) -> Seq<char> {
    if r.success {
        "success"@
    } else if r.skipped {
        "skipped"@
    } else {
        "error"@
    }
}

/// The progress status word for a finished task.
pub fn progress_status(r: &ConvertResult) -> (s: String)
    ensures
        s@ == status_word(r@),
{
    if r.success {
        owned("success")
    } else if r.skipped {
        owned("skipped")
    } else {
        owned("error")
    }
}

/// The progress event after the `current`-th of `total` files finished.
pub fn progress_event(current: usize, total: usize, file: &str, result: &ConvertResult) -> (p:
    ConversionProgress)
    ensures
        p.current == current,
        p.total == total,
        p.current_file@ == file@,
        p.status@ == status_word(result@),
{
    ConversionProgress {
        current,
        total,
        current_file: owned(file),
        status: progress_status(result),
    }
}

/// How many entries of `m` are true.
pub open spec fn count_true(m: Seq<bool>) -> nat
    decreases m.len(),
{
    if m.len() == 0 {
        0
    } else {
        count_true(m.drop_last()) + if m.last() {
            1nat
        } else {
            0nat
        }
    }
}

pub open spec fn succeeded_count(rs: Seq<ConvertResultView>) -> nat {
    count_true(Seq::new(rs.len(), |i: int| rs[i].success))
}

pub open spec fn failed_count(rs: Seq<ConvertResultView>) -> nat {
    count_true(Seq::new(rs.len(), |i: int| !rs[i].success && !rs[i].skipped))
}

pub open spec fn skipped_count(rs: Seq<ConvertResultView>) -> nat {
    count_true(Seq::new(rs.len(), |i: int| rs[i].skipped))
}

proof fn lemma_count_step(rs: Seq<ConvertResultView>, i: int)
    requires
        0 <= i < rs.len(),
    ensures
        succeeded_count(rs.take(i + 1)) == succeeded_count(rs.take(i)) + (if rs[i].success {
            1nat
        } else {
            0nat
        }),
        failed_count(rs.take(i + 1)) == failed_count(rs.take(i)) + (if !rs[i].success
            && !rs[i].skipped {
            1nat
        } else {
            0nat
        }),
        skipped_count(rs.take(i + 1)) == skipped_count(rs.take(i)) + (if rs[i].skipped {
            1nat
        } else {
            0nat
        }),
{
    let a = rs.take(i + 1);
    let b = rs.take(i);
    assert(Seq::new(a.len(), |k: int| a[k].success).drop_last() =~= Seq::new(
        b.len(),
        |k: int| b[k].success,
    ));
    assert(Seq::new(a.len(), |k: int| !a[k].success && !a[k].skipped).drop_last() =~= Seq::new(
        b.len(),
        |k: int| !b[k].success && !b[k].skipped,
    ));
    assert(Seq::new(a.len(), |k: int| a[k].skipped).drop_last() =~= Seq::new(
        b.len(),
        |k: int| b[k].skipped,
    ));
}

proof fn lemma_count_bound(m: Seq<bool>)
    ensures
        count_true(m) <= m.len(),
    decreases m.len(),
{
    if m.len() > 0 {
        lemma_count_bound(m.drop_last());
    }
}

/// The report for a batch of `total` tasks: the results of the normal-sized
/// tasks, then those of the large ones, with how many succeeded, failed and
/// were skipped.
pub fn assemble_report(
    total: usize,
    normal_results: Vec<ConvertResult>,
    large_results: Vec<ConvertResult>,
) -> (r: ConversionReport)
    ensures
        r@.total == total,
        r@.results == normal_results.deep_view() + large_results.deep_view(),
        r@.succeeded == succeeded_count(r@.results),
        r@.failed == failed_count(r@.results),
        r@.skipped == skipped_count(r@.results),
{
    let ghost nv = normal_results.deep_view();
    let ghost lv = large_results.deep_view();
    let mut results = normal_results;
    let mut more = large_results;
    results.append(&mut more);
    let ghost rv = results.deep_view();
    assert(rv =~= nv + lv);
    let mut succeeded: usize = 0;
    let mut failed: usize = 0;
    let mut skipped: usize = 0;
    for i in 0..results.len()
        invariant
            rv == results.deep_view(),
            succeeded as nat == succeeded_count(rv.take(i as int)),
            failed as nat == failed_count(rv.take(i as int)),
            skipped as nat == skipped_count(rv.take(i as int)),
            succeeded <= i,
            failed <= i,
            skipped <= i,
    {
        proof {
            lemma_count_step(rv, i as int);
        }
        let r = &results[i];
        assert(r@ == rv[i as int]);
        if r.success {
            succeeded = succeeded + 1;
        }
        if !r.success && !r.skipped {
            failed = failed + 1;
        }
        if r.skipped {
            skipped = skipped + 1;
        }
    }
    assert(rv.take(rv.len() as int) =~= rv);
    ConversionReport { total, succeeded, failed, skipped, results }
}

proof fn lemma_counts_partition(rs: Seq<ConvertResultView>)
    requires
        forall|i: int| 0 <= i < rs.len() ==> consistent(#[trigger] rs[i]),
    ensures
        succeeded_count(rs) + failed_count(rs) + skipped_count(rs) == rs.len(),
    decreases rs.len(),
{
    if rs.len() > 0 {
        let t = rs.drop_last();
        assert forall|i: int| 0 <= i < t.len() implies consistent(#[trigger] t[i]) by {
            assert(t[i] == rs[i]);
        }
        lemma_counts_partition(t);
        lemma_count_step(rs, rs.len() - 1);
        assert(rs.take(rs.len() - 1) =~= t);
        assert(rs.take(rs.len() as int) =~= rs);
        assert(consistent(rs[rs.len() - 1]));
    }
}

/// Law: in a report of consistent results (none both succeeded and skipped,
/// as every result this library builds), each result is counted exactly once
/// as succeeded, failed or skipped.
pub proof fn law_report_counts_add_up(report: ConversionReportView)
    requires
        forall|i: int| 0 <= i < report.results.len() ==> consistent(#[trigger] report.results[i]),
        report.succeeded == succeeded_count(report.results),
        report.failed == failed_count(report.results),
        report.skipped == skipped_count(report.results),
    ensures
        report.succeeded + report.failed + report.skipped == report.results.len(),
{
    lemma_counts_partition(report.results);
}


proof fn lemma_split_counts(tasks: Seq<ConvertTaskView>, sizes: Seq<u64>)
    requires
        tasks.len() == sizes.len(),
    ensures
        pick(tasks, normal_mask(sizes)).len() + pick(tasks, large_mask(sizes)).len() == tasks.len(),
    decreases tasks.len(),
{
    if tasks.len() > 0 {
        let k = tasks.len() - 1;
        assert(normal_mask(sizes).take(k) =~= normal_mask(sizes.drop_last()));
        assert(large_mask(sizes).take(k) =~= large_mask(sizes.drop_last()));
        lemma_split_counts(tasks.drop_last(), sizes.drop_last());
    }
}

/// Law: splitting a batch by size loses and duplicates no task: every task
/// lands in exactly one of the two queues.
pub proof fn law_split_is_partition(tasks: Seq<ConvertTaskView>, sizes: Seq<u64>)
    requires
        tasks.len() == sizes.len(),
    ensures
        pick(tasks, normal_mask(sizes)).len() + pick(tasks, large_mask(sizes)).len() == tasks.len(),
{
    lemma_split_counts(tasks, sizes);
}

/// How the output directory of a task is chosen.
pub enum OutputDirPlan {
    /// `<base>/<student name>`.
    UnderCustom { base: String },
    /// The directory of the source file.
    BesideSource,
}

/// Custom placement applies when the mode is "custom" and a directory is set.
pub fn output_dir_plan(config: &OutputConfig) -> (p: OutputDirPlan)
    ensures
        match p {
            OutputDirPlan::UnderCustom { base } => config.mode@ == "custom"@ && (
            config.custom_dir matches Some(d) && base@ == d@),
            OutputDirPlan::BesideSource => !(config.mode@ == "custom"@ && config.custom_dir is Some),
        },
{
    let custom = owned("custom");
    if config.mode == custom {
        match &config.custom_dir {
            Some(base) => OutputDirPlan::UnderCustom { base: base.clone() },
            None => OutputDirPlan::BesideSource,
        }
    } else {
        OutputDirPlan::BesideSource
    }
}

/// A parent directory, or "." when the path has none.
pub fn parent_or_current(parent: Option<String>) -> (r: String)
    ensures
        r@ == (match parent {
            Some(p) => p@,
            None => "."@,
        }),
{
    match parent {
        Some(p) => p,
        None => owned("."),
    }
}

/// The output directory rule for a task, as far as it holds on every
/// platform: in custom mode with a directory `b` set, the student's name
/// joined onto `b` (it ends with the name unless `b` is a Windows verbatim
/// path, and is exactly `b`, a separator where needed, and the name when
/// neither has a Windows prefix and the name is relative); otherwise the
/// source's parent directory (see [`clean_parent`] for clean paths), or "."
/// when the source has none.
pub open spec fn placed_output_dir(
    source: Seq<char>,
    student: Seq<char>,
    mode: Seq<char>,
    custom: Option<Seq<char>>,
    r: Seq<char>,
) -> bool {
    if mode == "custom"@ && custom is Some {
        let b = custom->0;
        &&& !is_verbatim(b) ==> student.len() <= r.len() && r.subrange(
            r.len() - student.len(),
            r.len() as int,
        ) == student
        &&& no_prefix_chars(b) && relative_part(student) ==> joined(b, student, r)
    } else {
        &&& source.len() == 0 ==> r == "."@
        &&& clean_path(source) ==> r == clean_parent(source)
    }
}

/// The directory that receives the PDF of `source_path` for `student_name`.
pub fn resolve_output_dir(source_path: &str, student_name: &str, config: &OutputConfig) -> (r:
    String)
    ensures
        placed_output_dir(
            source_path@,
            student_name@,
            config.mode@,
            config.custom_dir.deep_view(),
            r@,
        ),
{
    match output_dir_plan(config) {
        OutputDirPlan::UnderCustom { base } => path_join(base.as_str(), student_name),
        OutputDirPlan::BesideSource => parent_or_current(path_parent(source_path)),
    }
}

/// The default number of parallel conversions: one when memory is low,
/// otherwise half the cores (two cores when unknown), between 1 and 4.
pub fn concurrency_for(low_ram: bool, cores: Option<usize>) -> (n: usize)
    ensures
        n == (if low_ram {
            1
        } else {
            let c = match cores {
                Some(c) => c,
                None => 2,
            };
            if c / 2 < 1 {
                1
            } else if c / 2 > 4 {
                4
            } else {
                c / 2
            }
        }),
        1 <= n <= 4,
{
    if low_ram {
        return 1;
    }
    let c = match cores {
        Some(c) => c,
        None => 2,
    };
    let half = c / 2;
    let at_least_one = if half < 1 {
        1
    } else {
        half
    };
    if at_least_one > 4 {
        4
    } else {
        at_least_one
    }
}

/// The platforms whose LibreOffice locations differ.
#[derive(Debug, Clone, Copy, PartialEq, Eq, Structural)]
pub enum Platform {
    MacOs,
    Windows,
    Other,
}

/// Where a LibreOffice bundled in `dir` keeps its `soffice` binary.
pub open spec fn bundled_relative(platform: Platform) -> Seq<char> {
    match platform {
        Platform::MacOs => "LibreOffice.app/Contents/MacOS/soffice"@,
        Platform::Windows => "LibreOffice/program/soffice.exe"@,
        Platform::Other => "LibreOffice/program/soffice"@,
    }
}

/// Each bundled location is a relative path with neither Windows prefix nor
/// root, so joining it onto a directory appends it.
proof fn lemma_bundled_relative_part(platform: Platform)
    ensures
        relative_part(bundled_relative(platform)),
{
    reveal_strlit("LibreOffice.app/Contents/MacOS/soffice");
    reveal_strlit("LibreOffice/program/soffice.exe");
    reveal_strlit("LibreOffice/program/soffice");
}

/// The usual system-wide `soffice` locations, in the order they are tried.
pub open spec fn system_soffice_paths(platform: Platform) -> Seq<Seq<char>> {
    match platform {
        Platform::Windows => seq![
            "C:\\Program Files\\LibreOffice\\program\\soffice.exe"@,
            "C:\\Program Files (x86)\\LibreOffice\\program\\soffice.exe"@,
        ],
        Platform::MacOs => seq![
            "/Applications/LibreOffice.app/Contents/MacOS/soffice"@,
            "/usr/local/bin/soffice"@,
            "/opt/homebrew/opt/libreoffice/bin/soffice"@,
            "/opt/homebrew/bin/soffice"@,
        ],
        Platform::Other => seq![
            "/usr/bin/soffice"@,
            "/usr/local/bin/soffice"@,
            "/opt/libreoffice/program/soffice"@,
        ],
    }
}

fn push_owned(v: &mut Vec<String>, s: &str)
    ensures
        final(v).deep_view() == old(v).deep_view().push(s@),
{
    let ghost before = v.deep_view();
    v.push(owned(s));
    assert(v.deep_view() =~= before.push(s@));
}

/// The `soffice` binaries to try, in order: the bundled one (when the
/// application's resource directory is known), then the system-wide ones.
pub fn soffice_candidates(bundled_dir: Option<&str>, platform: Platform) -> (v: Vec<String>)
    ensures
        v.deep_view().len() == system_soffice_paths(platform).len() + (if bundled_dir is Some {
            1int
        } else {
            0int
        }),
        bundled_dir is None ==> v.deep_view() == system_soffice_paths(platform),
        bundled_dir is Some ==> v.deep_view().skip(1) == system_soffice_paths(platform),
        (bundled_dir matches Some(d) && !is_verbatim(d@)) ==> bundled_relative(platform).len()
            <= v.deep_view()[0].len()
            && v.deep_view()[0].subrange(
            v.deep_view()[0].len() - bundled_relative(platform).len(),
            v.deep_view()[0].len() as int,
        ) == bundled_relative(platform),
        bundled_dir matches Some(d) ==> (no_prefix_chars(d@) ==> joined(
            d@,
            bundled_relative(platform),
            v.deep_view()[0],
        )),
{
    let mut v: Vec<String> = Vec::new();
    if let Some(dir) = bundled_dir {
        let rel = match platform {
            Platform::MacOs => "LibreOffice.app/Contents/MacOS/soffice",
            Platform::Windows => "LibreOffice/program/soffice.exe",
            Platform::Other => "LibreOffice/program/soffice",
        };
        proof {
            lemma_bundled_relative_part(platform);
        }
        let b = path_join(dir, rel);
        let ghost before = v.deep_view();
        v.push(b);
        assert(v.deep_view() =~= before.push(b@));
    }
    let ghost start = v.deep_view();
    match platform {
        Platform::Windows => {
            push_owned(&mut v, "C:\\Program Files\\LibreOffice\\program\\soffice.exe");
            push_owned(&mut v, "C:\\Program Files (x86)\\LibreOffice\\program\\soffice.exe");
        },
        Platform::MacOs => {
            push_owned(&mut v, "/Applications/LibreOffice.app/Contents/MacOS/soffice");
            push_owned(&mut v, "/usr/local/bin/soffice");
            push_owned(&mut v, "/opt/homebrew/opt/libreoffice/bin/soffice");
            push_owned(&mut v, "/opt/homebrew/bin/soffice");
        },
        Platform::Other => {
            push_owned(&mut v, "/usr/bin/soffice");
            push_owned(&mut v, "/usr/local/bin/soffice");
            push_owned(&mut v, "/opt/libreoffice/program/soffice");
        },
    }
    assert(v.deep_view() =~= start + system_soffice_paths(platform));
    proof {
        if bundled_dir is Some {
            assert(v.deep_view().skip(1) =~= system_soffice_paths(platform));
        }
    }
    v
}

/// The `soffice` path found on `$PATH`: the output of `which soffice`,
/// trimmed of surrounding whitespace, unless that is empty.
pub fn which_candidate(stdout: &str) -> (r: Option<String>)
    ensures
        r is Some <==> trim_spec(stdout@).len() > 0,
        r matches Some(p) ==> p@ == trim_spec(stdout@),
{
    let chars = chars_of(stdout);
    let t = trim_chars(&chars);
    if t.len() == 0 {
        None
    } else {
        Some(string_of_chars(&t))
    }
}


/// The available kilobytes on a line of `df -k` output: its fourth field, if
/// that is a number.
pub open spec fn df_line_kb(line: Seq<char>) -> Option<u64> {
    let w = words(line);
    if w.len() >= 4 {
        parse_u64_spec(w[3])
    } else {
        None
    }
}

/// The first line that reports available kilobytes.
pub open spec fn first_kb(lines: Seq<Seq<char>>) -> Option<u64>
    decreases lines.len(),
{
    if lines.len() == 0 {
        None
    } else {
        match df_line_kb(lines[0]) {
            Some(kb) => Some(kb),
            None => first_kb(lines.skip(1)),
        }
    }
}

/// Free bytes according to `df -k` output: the available kilobytes of the
/// first data line (after the header) that reports them, times 1024 (capped at
/// `u64::MAX`); `u64::MAX`, i.e. "assume enough", when no line does.
pub open spec fn df_available_spec(output: Seq<char>) -> u64 {
    match first_kb(text_lines(output).skip(1)) {
        Some(kb) => if kb * 1024 <= u64::MAX {
            (kb * 1024) as u64
        } else {
            u64::MAX
        },
        None => u64::MAX,
    }
}

/// Law: when the first data line of `df -k` output (the line after the
/// header) has at least four whitespace-separated fields and the fourth is a
/// number `n` of kilobytes, the free space is `n * 1024` bytes (capped at
/// `u64::MAX`), whatever the number and content of the further fields (as on
/// macOS, or a mount point with spaces) and whatever the later lines hold.
pub proof fn law_df_reads_fourth_field_of_first_data_line(output: Seq<char>, n: u64)
    requires
        text_lines(output).len() >= 2,
        words(text_lines(output)[1]).len() >= 4,
        parse_u64_spec(words(text_lines(output)[1])[3]) == Some(n),
    ensures
        df_available_spec(output) == (if n * 1024 <= u64::MAX {
            (n * 1024) as u64
        } else {
            u64::MAX
        }),
{
    let data = text_lines(output).skip(1);
    assert(data[0] == text_lines(output)[1]);
}

/// Reads the free space, in bytes, out of the output of `df -k <dir>`.
pub fn df_available_bytes(output: &str) -> (r: u64)
    ensures
        r == df_available_spec(output@),
{
    let chars = chars_of(output);
    let lines = split_chars(&chars, '\n');
    let ghost lv = lines.deep_view();
    proof {
        crate::text::lemma_split_nonempty(output@, '\n');
    }
    let mut i: usize = 1;
    while i < lines.len()
        invariant
            lv == lines.deep_view(),
            lv == text_lines(output@),
            lv.len() >= 1,
            1 <= i <= lv.len(),
            first_kb(lv.skip(1)) == first_kb(lv.skip(i as int)),
        decreases lv.len() - i,
    {
        assert(lv.skip(i as int)[0] == lv[i as int]);
        assert(lv.skip(i as int).skip(1) =~= lv.skip(i + 1));
        assert(lines[i as int]@ =~= lv[i as int]);
        let w = split_words(&lines[i]);
        if w.len() >= 4 {
            assert(w[3int]@ =~= w.deep_view()[3]);
            match parse_u64(&w[3]) {
                Some(kb) => {
                    return match kb.checked_mul(1024) {
                        Some(b) => b,
                        None => u64::MAX,
                    };
                },
                None => {},
            }
        }
        i = i + 1;
    }
    assert(lv.skip(i as int) =~= Seq::<Seq<char>>::empty());
    u64::MAX
}

/// The first line that starts with `prefix`.
pub open spec fn first_with_prefix(lines: Seq<Seq<char>>, prefix: Seq<char>) -> Option<Seq<char>>
    decreases lines.len(),
{
    if lines.len() == 0 {
        None
    } else if has_prefix(lines[0], prefix) {
        Some(lines[0])
    } else {
        first_with_prefix(lines.skip(1), prefix)
    }
}

/// The number in the second field of a line, or `u64::MAX` when there is none.
pub open spec fn second_field_or_max(line: Seq<char>) -> u64 {
    let w = words(line);
    if w.len() >= 2 {
        match parse_u64_spec(w[1]) {
            Some(n) => n,
            None => u64::MAX,
        }
    } else {
        u64::MAX
    }
}

/// Below 1 GB of available memory, according to `/proc/meminfo`: the
/// `MemAvailable:` line (the first one) gives the kilobytes; without such a
/// line the memory is assumed sufficient.
pub open spec fn meminfo_low_ram_spec(text: Seq<char>) -> bool {
    match first_with_prefix(text_lines(text), "MemAvailable:"@) {
        Some(line) => second_field_or_max(line) < 1024 * 1024,
        None => false,
    }
}

/// Whether `/proc/meminfo` reports less than 1 GB of available memory.
pub fn meminfo_low_ram(text: &str) -> (b: bool)
    ensures
        b == meminfo_low_ram_spec(text@),
{
    let chars = chars_of(text);
    let lines = split_chars(&chars, '\n');
    let ghost lv = lines.deep_view();
    let prefix = chars_of("MemAvailable:");
    let mut i: usize = 0;
    assert(lv.skip(0) =~= lv);
    while i < lines.len()
        invariant
            lv == lines.deep_view(),
            lv == text_lines(text@),
            prefix@ == "MemAvailable:"@,
            i <= lv.len(),
            first_with_prefix(lv, "MemAvailable:"@) == first_with_prefix(lv.skip(i as int), "MemAvailable:"@),
        decreases lv.len() - i,
    {
        assert(lv.skip(i as int)[0] == lv[i as int]);
        assert(lv.skip(i as int).skip(1) =~= lv.skip(i + 1));
        assert(lines[i as int]@ =~= lv[i as int]);
        if starts_with_chars(&lines[i], &prefix) {
            let w = split_words(&lines[i]);
            let kb = if w.len() >= 2 {
                assert(w[1int]@ =~= w.deep_view()[1]);
                match parse_u64(&w[1]) {
                    Some(n) => n,
                    None => u64::MAX,
                }
            } else {
                u64::MAX
            };
            return kb < 1024 * 1024;
        }
        i = i + 1;
    }
    assert(lv.skip(i as int) =~= Seq::<Seq<char>>::empty());
    false
}

/// `s` without its trailing '.' characters.
pub open spec fn trim_trailing_dots(s: Seq<char>) -> Seq<char>
    decreases s.len(),
{
    if s.len() > 0 && s.last() == '.' {
        trim_trailing_dots(s.drop_last())
    } else {
        s
    }
}

fn trim_trailing_dots_exec(s: &Vec<char>) -> (r: Vec<char>)
    ensures
        r@ == trim_trailing_dots(s@),
{
    let mut end = s.len();
    assert(s@.take(end as int) =~= s@);
    while end > 0 && s[end - 1] == '.'
        invariant
            end <= s@.len(),
            trim_trailing_dots(s@) == trim_trailing_dots(s@.take(end as int)),
        decreases end,
    {
        assert(s@.take(end as int).drop_last() =~= s@.take(end - 1));
        end = end - 1;
    }
    let mut r: Vec<char> = Vec::new();
    for k in 0..end
        invariant
            end <= s@.len(),
            r@ == s@.take(k as int),
    {
        r.push(s[k]);
        assert(s@.take(k + 1) =~= s@.take(k as int).push(s@[k as int]));
    }
    assert(r@ =~= s@.take(end as int));
    r
}

/// The page count on a `vm_stat` line: its last field without trailing
/// dots, if that is a number, else 0.
pub open spec fn page_count(line: Seq<char>) -> nat {
    let w = words(line);
    if w.len() == 0 {
        0
    } else {
        match parse_u64_spec(trim_trailing_dots(w.last())) {
            Some(n) => n as nat,
            None => 0,
        }
    }
}

/// The pages a line contributes: its count if it is a "Pages free:" or a
/// "Pages speculative:" line.
pub open spec fn free_pages_of(line: Seq<char>) -> nat {
    if has_prefix(line, "Pages free:"@) || has_prefix(line, "Pages speculative:"@) {
        page_count(line)
    } else {
        0
    }
}

pub open spec fn free_pages_total(lines: Seq<Seq<char>>) -> nat
    decreases lines.len(),
{
    if lines.len() == 0 {
        0
    } else {
        free_pages_total(lines.drop_last()) + free_pages_of(lines.last())
    }
}

/// The pages of two runs of lines add up.
proof fn lemma_free_pages_concat(a: Seq<Seq<char>>, b: Seq<Seq<char>>)
    ensures
        free_pages_total(a + b) == free_pages_total(a) + free_pages_total(b),
    decreases b.len(),
{
    if b.len() > 0 {
        lemma_free_pages_concat(a, b.drop_last());
        assert((a + b).drop_last() =~= a + b.drop_last());
        assert((a + b).last() == b.last());
    } else {
        assert(a + b =~= a);
    }
}

/// One line contributes its own pages.
proof fn lemma_free_pages_single(x: Seq<char>)
    ensures
        free_pages_total(seq![x]) == free_pages_of(x),
{
    let s = seq![x];
    assert(s.drop_last() =~= Seq::<Seq<char>>::empty());
    assert(free_pages_total(s.drop_last()) == 0);
    assert(s.last() == x);
}

/// A line that is neither a "Pages free:" nor a "Pages speculative:" line.
pub open spec fn other_vm_line(line: Seq<char>) -> bool {
    !has_prefix(line, "Pages free:"@) && !has_prefix(line, "Pages speculative:"@)
}

/// Law: only "Pages free:" and "Pages speculative:" lines count towards free
/// memory. Adding, removing or changing any other line (such as a "Pages
/// inactive:" one) leaves the free page count, and so whether `vm_stat` output
/// reports low memory, unchanged.
pub proof fn law_vm_stat_counts_only_free_and_speculative(
    t1: Seq<char>,
    t2: Seq<char>,
    k: int,
    line: Seq<char>,
)
    requires
        0 <= k <= text_lines(t1).len(),
        other_vm_line(line),
    ensures
        free_pages_of(line) == 0,
        text_lines(t2) == text_lines(t1).insert(k, line) ==> (free_pages_total(text_lines(t2))
            == free_pages_total(text_lines(t1)) && vm_stat_low_ram_spec(t2)
            == vm_stat_low_ram_spec(t1)),
        k < text_lines(t1).len() && other_vm_line(text_lines(t1)[k]) && text_lines(t2)
            == text_lines(t1).update(k, line) ==> (free_pages_total(text_lines(t2))
            == free_pages_total(text_lines(t1)) && vm_stat_low_ram_spec(t2)
            == vm_stat_low_ram_spec(t1)),
{
    let l1 = text_lines(t1);
    let pre = l1.take(k);
    lemma_free_pages_single(line);
    if text_lines(t2) == l1.insert(k, line) {
        assert(l1 =~= pre + l1.skip(k));
        assert(l1.insert(k, line) =~= pre + seq![line] + l1.skip(k));
        lemma_free_pages_concat(pre, l1.skip(k));
        lemma_free_pages_concat(pre, seq![line]);
        lemma_free_pages_concat(pre + seq![line], l1.skip(k));
    }
    if k < l1.len() && other_vm_line(l1[k]) && text_lines(t2) == l1.update(k, line) {
        let post = l1.skip(k + 1);
        lemma_free_pages_single(l1[k]);
        assert(l1 =~= pre + seq![l1[k]] + post);
        assert(l1.update(k, line) =~= pre + seq![line] + post);
        lemma_free_pages_concat(pre, seq![l1[k]]);
        lemma_free_pages_concat(pre + seq![l1[k]], post);
        lemma_free_pages_concat(pre, seq![line]);
        lemma_free_pages_concat(pre + seq![line], post);
    }
}

/// Below 1 GB free according to `vm_stat`: free plus speculative pages, at
/// 4096 bytes a page.
pub open spec fn vm_stat_low_ram_spec(text: Seq<char>) -> bool {
    free_pages_total(text_lines(text)) * 4096 < 1024 * 1024 * 1024
}

/// Whether `vm_stat` output reports less than 1 GB of free memory.
pub fn vm_stat_low_ram(text: &str) -> (b: bool)
    ensures
        b == vm_stat_low_ram_spec(text@),
{
    let chars = chars_of(text);
    let lines = split_chars(&chars, '\n');
    let ghost lv = lines.deep_view();
    let free_prefix = chars_of("Pages free:");
    let spec_prefix = chars_of("Pages speculative:");
    // 1 GB is 262144 pages: the running total is kept exact up to that cap.
    let cap: u64 = 262144;
    let mut total: u64 = 0;
    for i in 0..lines.len()
        invariant
            lv == lines.deep_view(),
            lv == text_lines(text@),
            free_prefix@ == "Pages free:"@,
            spec_prefix@ == "Pages speculative:"@,
            cap == 262144,
            total <= cap,
            total == (if free_pages_total(lv.take(i as int)) < cap {
                free_pages_total(lv.take(i as int))
            } else {
                cap as nat
            }),
    {
        assert(lv.take(i + 1).drop_last() =~= lv.take(i as int));
        assert(lv.take(i + 1).last() == lv[i as int]);
        assert(lines[i as int]@ =~= lv[i as int]);
        let line = &lines[i];
        if starts_with_chars(line, &free_prefix) || starts_with_chars(line, &spec_prefix) {
            let w = split_words(line);
            let n: u64 = if w.len() == 0 {
                0
            } else {
                let last = w.len() - 1;
                assert(w[last as int]@ =~= w.deep_view().last());
                let t = trim_trailing_dots_exec(&w[last]);
                match parse_u64(&t) {
                    Some(n) => n,
                    None => 0,
                }
            };
            assert(n as nat == free_pages_of(lv[i as int]));
            if n >= cap - total {
                total = cap;
            } else {
                total = total + n;
            }
        }
    }
    assert(lv.take(lv.len() as int) =~= lv);
    total < cap
}

} // verus!
