use thesis_converter::scanner::{sort_folders_by_name, student_folder, word_file_info, StudentFolder};
use thesis_converter::text::{
    chars_of, contains_chars, join_with_newlines, parse_u64, push_decimal,
    split_chars, split_words, trim_chars,
};

fn folder(name: &str, path: &str) -> StudentFolder {
    StudentFolder { name: name.to_string(), path: path.to_string(), files: vec![] }
}

#[test]
fn word_files_are_recognised_by_extension() {
    let f = word_file_info("/r/a/Thesis.DOCX".to_string(), 10, 7).expect("a Word file");
    assert_eq!(f.name, "Thesis.DOCX");
    assert_eq!(f.path, "/r/a/Thesis.DOCX");
    assert_eq!((f.size, f.modified, f.is_large), (10, 7, false));
    assert!(word_file_info("/r/a/x.doc".to_string(), 100 * 1024 * 1024, 0).unwrap().is_large);
    assert!(word_file_info("/r/a/x.wps".to_string(), 1, 0).is_some());
    assert!(word_file_info("/r/a/x.pdf".to_string(), 1, 0).is_none());
    assert!(word_file_info("/r/a/docx".to_string(), 1, 0).is_none());
    assert!(word_file_info("/r/a/.doc".to_string(), 1, 0).is_none());
}

#[test]
fn folders_sort_by_name_stably() {
    let folders = vec![
        folder("王五", "/1"),
        folder("Bob", "/2"),
        folder("alice", "/3"),
        folder("Bob", "/4"),
        folder("", "/5"),
    ];
    let sorted = sort_folders_by_name(folders);
    let paths: Vec<String> = sorted.iter().map(|f| f.path.clone()).collect();
    assert_eq!(paths, vec!["/5", "/2", "/4", "/3", "/1"]);
}

#[test]
fn folder_is_named_after_its_directory() {
    let f = student_folder("/root/张三".to_string(), vec![]);
    assert_eq!(f.name, "张三");
    assert_eq!(f.path, "/root/张三");
}

#[test]
fn numbers_parse_like_std() {
    for s in ["0", "+12", "-1", "", "+", "12a", "18446744073709551615", "18446744073709551616", "007"] {
        assert_eq!(parse_u64(&chars_of(s)), s.parse::<u64>().ok(), "input {:?}", s);
    }
}

#[test]
fn numbers_print_in_decimal() {
    for n in [0u64, 7, 10, 1234567890, u64::MAX] {
        let mut s = String::from("x");
        push_decimal(&mut s, n);
        assert_eq!(s, format!("x{}", n));
    }
}

#[test]
fn words_and_trim_follow_std() {
    for s in ["", "  a  b\tc\n", "one", " \u{3000}全角\u{3000}空格 ", "a\r\nb"] {
        let w: Vec<String> = split_words(&chars_of(s)).iter().map(|v| v.iter().collect()).collect();
        let expected: Vec<String> = s.split_whitespace().map(|x| x.to_string()).collect();
        assert_eq!(w, expected);
        let t: String = trim_chars(&chars_of(s)).iter().collect();
        assert_eq!(t, s.trim());
    }
}

#[test]
fn splitting_and_joining_lines() {
    let parts = split_chars(&chars_of("a\n\nb"), '\n');
    assert_eq!(parts.len(), 3);
    assert!(parts[1].is_empty());
    let lines = vec!["a".to_string(), String::new(), "b".to_string()];
    assert_eq!(join_with_newlines(&lines), "a\n\nb");
    assert_eq!(join_with_newlines(&vec![]), "");
}

#[test]
fn substring_search() {
    assert!(contains_chars(&chars_of("毕业论文终稿"), &chars_of("终稿")));
    assert!(contains_chars(&chars_of("abc"), &chars_of("")));
    assert!(!contains_chars(&chars_of("ab"), &chars_of("abc")));
}

#[test]
fn windows_drive_paths_are_classified_by_extension() {
    assert!(word_file_info("C:\\Users\\张三\\论文.DOCX".to_string(), 1, 0).is_some());
    assert!(word_file_info("C:\\Users\\张三\\论文.wps".to_string(), 1, 0).is_some());
    assert!(word_file_info("C:\\Users\\张三\\论文.pdf".to_string(), 1, 0).is_none());
    let f = word_file_info("C:/Users/张三/论文.doc".to_string(), 1, 0).expect("a Word file");
    assert_eq!(f.name, "论文.doc");
}
