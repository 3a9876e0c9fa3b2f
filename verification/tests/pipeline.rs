use rust_paisy2pdf::paths::{add_suffix, normalize_path, replace_path};
use rust_paisy2pdf::plan::PlanError;
use rust_paisy2pdf::process::process;

#[test]
fn test_normalize_path() {
    let path = "C:\\Users\\isla1\\OneDrive\\Desktop\\Data\\";
    let normalized_path = normalize_path(path);
    assert_eq!(normalized_path, "C:\\Users\\isla1\\OneDrive\\Desktop\\Data");
}

#[test]
fn test_normalize_path_resolves_dots() {
    assert_eq!(normalize_path("a/b/../c"), "a/c");
    assert_eq!(normalize_path("./x"), "x");
    assert_eq!(normalize_path("a//b/"), "a/b");
    assert_eq!(normalize_path(""), ".");
    assert_eq!(normalize_path("."), ".");
    assert_eq!(normalize_path("/"), "/");
    assert_eq!(normalize_path("/.."), "/");
    assert_eq!(normalize_path("../a"), "../a");
    assert_eq!(normalize_path("C:\\x\\..\\y"), "C:\\y");
}

#[test]
fn test_add_suffix_replaces_extension() {
    assert_eq!(add_suffix("ohnealles.txt", "html").unwrap(), "ohnealles.html");
    assert_eq!(add_suffix("C:\\Data\\report.txt", "pdf").unwrap(), "C:\\Data\\report.pdf");
    assert_eq!(add_suffix("dir/archive.tar.gz", "pdf").unwrap(), "dir/archive.tar.pdf");
    assert_eq!(add_suffix("dir/noext", "html").unwrap(), "dir/noext.html");
    assert_eq!(add_suffix(".hidden", "html").unwrap(), ".hidden.html");
    assert_eq!(add_suffix("..", "html"), None);
    assert_eq!(add_suffix("/", "html"), None);
}

#[test]
fn test_replace_path_moves_file_name() {
    assert_eq!(replace_path("dir/file.txt", "C:\\out").unwrap(), "C:\\out\\file.txt");
    assert_eq!(replace_path("file.txt", "").unwrap(), "file.txt");
    assert_eq!(replace_path("dir/", "out").unwrap(), "out/dir");
    assert_eq!(replace_path("a/b.txt", "target/").unwrap(), "target/b.txt");
    assert_eq!(replace_path("/", "x"), None);
    assert_eq!(replace_path("..", "x"), None);
}

#[test]
fn test_process_plans_output_paths() {
    let paths = vec!["in1.txt".to_string(), "in2.txt".to_string()];
    let optional = vec!["a.txt".to_string(), "b.txt".to_string()];
    let jobs = process(&paths, "C:\\Users\\me\\Data\\", &optional).unwrap();
    assert_eq!(jobs.len(), 2);
    assert_eq!(jobs[0].input, "in1.txt");
    assert_eq!(jobs[0].html_output, "C:\\Users\\me\\Data\\a.html");
    assert_eq!(jobs[0].pdf_output, "C:\\Users\\me\\Data\\a.pdf");
    assert_eq!(jobs[1].input, "in2.txt");
    assert_eq!(jobs[1].html_output, "C:\\Users\\me\\Data\\b.html");
    assert_eq!(jobs[1].pdf_output, "C:\\Users\\me\\Data\\b.pdf");
}

#[test]
fn test_process_pairs_up_to_shorter_list() {
    let paths = vec!["in1.txt".to_string(), "in2.txt".to_string()];
    let optional = vec!["only.txt".to_string()];
    let jobs = process(&paths, "out", &optional).unwrap();
    assert_eq!(jobs.len(), 1);
    assert_eq!(jobs[0].html_output, "out/only.html");
}

#[test]
fn test_process_reports_missing_file_name() {
    let paths = vec!["in1.txt".to_string()];
    let optional = vec!["..".to_string()];
    assert!(matches!(process(&paths, "out", &optional), Err(PlanError::MissingFileName)));
}
