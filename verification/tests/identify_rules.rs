use thesis_converter::identifier::{
    identify, identify_lowered, sort_by_size_desc, IdentifyStatus, KeywordConfig,
};
use thesis_converter::scanner::FileInfo;

fn file(path: &str, name: &str, size: u64, modified: u64) -> FileInfo {
    FileInfo {
        path: path.to_string(),
        name: name.to_string(),
        size,
        modified,
        is_large: false,
    }
}

fn names(files: &[FileInfo]) -> Vec<String> {
    files.iter().map(|f| f.name.clone()).collect()
}

#[test]
fn empty_folder_is_not_found() {
    let r = identify(&[], &KeywordConfig::default());
    assert_eq!(r.status, IdentifyStatus::NotFound);
    assert!(r.candidates.is_empty());
    assert_eq!(r.selected_index, None);
}

#[test]
fn single_unmatched_file_is_identified() {
    let files = vec![file("/s/a.docx", "a.docx", 10, 1)];
    let r = identify(&files, &KeywordConfig::default());
    assert_eq!(r.status, IdentifyStatus::Identified);
    assert_eq!(names(&r.candidates), vec!["a.docx"]);
    assert_eq!(r.selected_index, Some(0));
}

#[test]
fn unmatched_files_are_unconfirmed_largest_first() {
    let files = vec![
        file("/s/a.docx", "a.docx", 10, 1),
        file("/s/b.docx", "b.docx", 30, 1),
        file("/s/c.docx", "c.docx", 20, 1),
        file("/s/d.docx", "d.docx", 30, 1),
    ];
    let r = identify(&files, &KeywordConfig::default());
    assert_eq!(r.status, IdentifyStatus::Unconfirmed);
    assert_eq!(names(&r.candidates), vec!["b.docx", "d.docx", "c.docx", "a.docx"]);
    assert_eq!(r.selected_index, Some(0));
}

#[test]
fn one_match_among_others_is_identified() {
    let files = vec![
        file("/s/张三_开题报告.docx", "张三_开题报告.docx", 10, 1),
        file("/s/张三_毕业论文.docx", "张三_毕业论文.docx", 10, 1),
        file("/s/notes.doc", "notes.doc", 10, 1),
    ];
    let r = identify(&files, &KeywordConfig::default());
    assert_eq!(r.status, IdentifyStatus::Identified);
    assert_eq!(names(&r.candidates), vec!["张三_毕业论文.docx"]);
    assert_eq!(r.selected_index, Some(0));
}

#[test]
fn exclude_keyword_wins_over_include_keyword() {
    let files = vec![
        file("/s/毕业论文开题报告.doc", "毕业论文开题报告.doc", 10, 1),
        file("/s/毕业论文答辩ppt.doc", "毕业论文答辩ppt.doc", 10, 1),
    ];
    let r = identify(&files, &KeywordConfig::default());
    assert_eq!(r.status, IdentifyStatus::Unconfirmed);
    assert_eq!(r.candidates.len(), 2);
}

#[test]
fn matching_is_case_insensitive() {
    let files = vec![
        file("/s/My THESIS.docx", "My THESIS.docx", 10, 1),
        file("/s/other.docx", "other.docx", 10, 1),
    ];
    let r = identify(&files, &KeywordConfig::default());
    assert_eq!(r.status, IdentifyStatus::Identified);
    assert_eq!(names(&r.candidates), vec!["My THESIS.docx"]);
}

#[test]
fn single_final_version_is_preselected() {
    let files = vec![
        file("/s/毕业论文_初稿.docx", "毕业论文_初稿.docx", 10, 5),
        file("/s/毕业论文_终稿.docx", "毕业论文_终稿.docx", 10, 1),
        file("/s/毕业论文_修改.docx", "毕业论文_修改.docx", 10, 9),
    ];
    let r = identify(&files, &KeywordConfig::default());
    assert_eq!(r.status, IdentifyStatus::Identified);
    assert_eq!(r.candidates.len(), 3);
    assert_eq!(r.selected_index, Some(1));
}

#[test]
fn several_matches_preselect_the_newest() {
    let files = vec![
        file("/s/thesis_v1.docx", "thesis_v1.docx", 10, 100),
        file("/s/thesis_v2.docx", "thesis_v2.docx", 10, 300),
        file("/s/thesis_v3.docx", "thesis_v3.docx", 10, 200),
    ];
    let r = identify(&files, &KeywordConfig::default());
    assert_eq!(r.status, IdentifyStatus::MultipleCandidates);
    assert_eq!(r.candidates.len(), 3);
    assert_eq!(r.selected_index, Some(1));
}

#[test]
fn equally_new_matches_preselect_the_last() {
    let files = vec![
        file("/s/thesis_a.docx", "thesis_a.docx", 10, 300),
        file("/s/thesis_b.docx", "thesis_b.docx", 10, 300),
        file("/s/thesis_c.docx", "thesis_c.docx", 10, 100),
    ];
    let r = identify(&files, &KeywordConfig::default());
    assert_eq!(r.status, IdentifyStatus::MultipleCandidates);
    assert_eq!(r.selected_index, Some(1));
}

#[test]
fn several_finals_preselect_the_newest_final() {
    let files = vec![
        file("/s/thesis_final_1.docx", "thesis_final_1.docx", 10, 100),
        file("/s/thesis_draft.docx", "thesis_draft.docx", 10, 900),
        file("/s/thesis_final_2.docx", "thesis_final_2.docx", 10, 200),
    ];
    let r = identify(&files, &KeywordConfig::default());
    assert_eq!(r.status, IdentifyStatus::MultipleCandidates);
    assert_eq!(r.candidates.len(), 3);
    assert_eq!(r.selected_index, Some(2));
}

#[test]
fn selection_uses_the_first_candidate_with_the_chosen_path() {
    let files = vec![
        file("/s/same.docx", "thesis_a.docx", 10, 100),
        file("/s/same.docx", "thesis_b.docx", 10, 200),
    ];
    let r = identify(&files, &KeywordConfig::default());
    assert_eq!(r.status, IdentifyStatus::MultipleCandidates);
    assert_eq!(r.selected_index, Some(0));
}

#[test]
fn custom_keywords_are_used() {
    let config = KeywordConfig {
        include_keywords: vec!["Report".to_string()],
        exclude_keywords: vec!["draft".to_string()],
    };
    let files = vec![
        file("/s/report_DRAFT.docx", "report_DRAFT.docx", 10, 1),
        file("/s/final report.docx", "final report.docx", 10, 1),
    ];
    let r = identify(&files, &config);
    assert_eq!(r.status, IdentifyStatus::Identified);
    assert_eq!(names(&r.candidates), vec!["final report.docx"]);
}

#[test]
fn empty_include_keyword_matches_every_name() {
    let config = KeywordConfig {
        include_keywords: vec![String::new()],
        exclude_keywords: vec![],
    };
    let files = vec![
        file("/s/a.docx", "a.docx", 10, 1),
        file("/s/b.docx", "b.docx", 10, 2),
    ];
    let r = identify(&files, &config);
    assert_eq!(r.status, IdentifyStatus::MultipleCandidates);
    assert_eq!(r.selected_index, Some(1));
}

#[test]
fn default_keywords_are_the_documented_lists() {
    let c = KeywordConfig::default();
    assert_eq!(c.include_keywords.len(), 10);
    assert_eq!(c.exclude_keywords.len(), 10);
    assert_eq!(c.include_keywords[0], "毕业论文");
    assert_eq!(c.include_keywords[9], "final_paper");
    assert_eq!(c.exclude_keywords[0], "开题报告");
    assert_eq!(c.exclude_keywords[9], "成绩");
}

#[test]
fn law_selection_points_into_candidates_on_examples() {
    let examples = vec![
        vec![file("/s/x.doc", "x.doc", 1, 1)],
        vec![file("/s/x.doc", "x.doc", 1, 1), file("/s/y.doc", "y.doc", 2, 2)],
        vec![file("/s/thesis1.doc", "thesis1.doc", 1, 1), file("/s/thesis2.doc", "thesis2.doc", 2, 2)],
    ];
    for files in examples {
        let r = identify(&files, &KeywordConfig::default());
        let i = r.selected_index.expect("a non-empty folder pre-selects a file");
        assert!(i < r.candidates.len());
        for c in &r.candidates {
            assert!(files.iter().any(|f| f == c));
        }
    }
}

#[test]
fn law_multiple_candidates_all_pass_the_keywords() {
    let files = vec![
        file("/s/thesis_1.doc", "thesis_1.doc", 1, 1),
        file("/s/notes.doc", "notes.doc", 1, 1),
        file("/s/Dissertation.doc", "Dissertation.doc", 1, 2),
        file("/s/thesis_ppt.doc", "thesis_ppt.doc", 1, 3),
    ];
    let r = identify(&files, &KeywordConfig::default());
    assert_eq!(r.status, IdentifyStatus::MultipleCandidates);
    assert_eq!(names(&r.candidates), vec!["thesis_1.doc", "Dissertation.doc"]);
    assert_eq!(r.selected_index, Some(1));
}

#[test]
fn accented_capitals_are_lowercased_before_matching() {
    let config = KeywordConfig {
        include_keywords: vec!["ÉTUDE".to_string()],
        exclude_keywords: vec![],
    };
    let files = vec![
        file("/s/étude.doc", "étude.doc", 1, 1),
        file("/s/other.doc", "other.doc", 1, 1),
    ];
    let r = identify(&files, &config);
    assert_eq!(r.status, IdentifyStatus::Identified);
    assert_eq!(names(&r.candidates), vec!["étude.doc"]);
}

#[test]
fn law_unconfirmed_preselects_a_largest_file() {
    let files = vec![
        file("/s/a.doc", "a.doc", 5, 1),
        file("/s/b.doc", "b.doc", 50, 1),
        file("/s/c.doc", "c.doc", 7, 1),
    ];
    let r = identify(&files, &KeywordConfig::default());
    assert_eq!(r.status, IdentifyStatus::Unconfirmed);
    let chosen = &r.candidates[r.selected_index.unwrap()];
    assert!(files.iter().all(|f| f.size <= chosen.size));
}

#[test]
fn rules_on_given_lowered_names() {
    let files = vec![
        file("/s/A.doc", "A.doc", 1, 5),
        file("/s/B.doc", "B.doc", 1, 9),
        file("/s/C.doc", "C.doc", 1, 7),
    ];
    let lower: Vec<Vec<char>> = vec!["x final".chars().collect(), "y".chars().collect(), "x".chars().collect()];
    let wanted: Vec<Vec<char>> = vec!["x".chars().collect()];
    let unwanted: Vec<Vec<char>> = vec![];
    let r = identify_lowered(&files, &lower, &wanted, &unwanted);
    assert_eq!(r.status, IdentifyStatus::Identified);
    assert_eq!(names(&r.candidates), vec!["A.doc", "C.doc"]);
    assert_eq!(r.selected_index, Some(0));
}

#[test]
fn stable_sort_by_size() {
    let files = vec![
        file("/1", "1", 3, 0),
        file("/2", "2", 5, 0),
        file("/3", "3", 3, 0),
        file("/4", "4", 0, 0),
    ];
    assert_eq!(names(&sort_by_size_desc(&files)), vec!["2", "1", "3", "4"]);
}
