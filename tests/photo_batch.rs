use photo_batch::extensions::{_get_image_extensions, is_managed, ExtensionSet};
use photo_batch::listing::{list_managed_files, DirEntry};
use photo_batch::names::{_get_file_extension, format_canonical, parse_structured};
use photo_batch::order::str_less;
use photo_batch::rename::{
    check_plan, names_distinct, plan_phase, _rename_all_photos, plan_staging_phase, rename_target, RenameError, RenameOp,
};
use photo_batch::requests::{
    parse_request_line, read_requested_indices, select_for_copy, trim_text, RequestLine,
};
use photo_batch::text::{chars_of, string_of};

fn file(name: &str) -> DirEntry {
    DirEntry { name: name.to_string(), is_dir: false }
}

fn dir(name: &str) -> DirEntry {
    DirEntry { name: name.to_string(), is_dir: true }
}

fn apply(entries: &mut Vec<DirEntry>, ops: &[RenameOp]) {
    for op in ops {
        let e = entries.iter_mut().find(|e| e.name == op.from).expect("source present");
        e.name = op.to.clone();
    }
}

fn all_names_differ(entries: &[DirEntry]) -> bool {
    let mut names: Vec<&String> = entries.iter().map(|e| &e.name).collect();
    names.sort();
    names.windows(2).all(|w| w[0] != w[1])
}

fn strings(v: &[&str]) -> Vec<String> {
    v.iter().map(|s| s.to_string()).collect()
}

#[test]
fn extension_after_last_dot() {
    assert_eq!(_get_file_extension("a.jpg"), "jpg");
    assert_eq!(_get_file_extension("a.b.JPG"), "JPG");
    assert_eq!(_get_file_extension("noext"), "");
    assert_eq!(_get_file_extension("trailing."), "");
    assert_eq!(_get_file_extension(".hidden"), "hidden");
}

#[test]
fn classification_is_repeatable() {
    let exts = _get_image_extensions();
    for name in ["a.jpg", "B.PNG", "c.txt", "d", "e.Mov"] {
        assert_eq!(_get_file_extension(name), _get_file_extension(name));
        assert_eq!(is_managed(name, &exts), is_managed(name, &exts));
    }
}

#[test]
fn managed_ignores_case() {
    let exts = _get_image_extensions();
    assert!(is_managed("a.jpg", &exts));
    assert!(is_managed("A.JPG", &exts));
    assert!(is_managed("clip.MoV", &exts));
    assert!(is_managed("raw.cr2", &exts));
    assert!(!is_managed("c.txt", &exts));
    assert!(!is_managed("jpg", &exts));
}

#[test]
fn default_extension_set() {
    let exts = _get_image_extensions();
    for e in ["gif", "jpg", "jpeg", "png", "cr2", "nef", "mov", "mp4"] {
        assert!(exts.contains(e));
    }
    assert!(!exts.contains("JPG"));
    assert!(!exts.contains("txt"));
}

#[test]
fn injected_extension_set() {
    let exts = ExtensionSet::new(strings(&["txt"]));
    assert!(is_managed("notes.TXT", &exts));
    assert!(!is_managed("a.jpg", &exts));
}

#[test]
fn canonical_format() {
    assert_eq!(format_canonical("trip", 1, "jpg"), "trip_0001.jpg");
    assert_eq!(format_canonical("trip", 9999, "PNG"), "trip_9999.PNG");
    assert_eq!(format_canonical("", 42, "png"), "0042.png");
    assert_eq!(format_canonical("a_b", 305, "mov"), "a_b_0305.mov");
    assert_eq!(format_canonical("x", 12345, "jpg"), "x_12345.jpg");
    assert_eq!(format_canonical("", 10000, "jpg"), "10000.jpg");
    assert_eq!(format_canonical("x", u32::MAX, "jpg"), "x_4294967295.jpg");
}

#[test]
fn parse_canonical_names() {
    let sn = parse_structured("trip_0002.png").unwrap();
    assert_eq!((sn.prefix.as_str(), sn.index, sn.ext.as_str()), ("trip", 2, "png"));
    let sn = parse_structured("my_trip_0010.jpg").unwrap();
    assert_eq!((sn.prefix.as_str(), sn.index, sn.ext.as_str()), ("my_trip", 10, "jpg"));
    let sn = parse_structured("trip_0001.jpé").unwrap();
    assert_eq!((sn.prefix.as_str(), sn.index, sn.ext.as_str()), ("trip", 1, "jpé"));
    let sn = parse_structured("a_0001.é").unwrap();
    assert_eq!((sn.prefix.as_str(), sn.index, sn.ext.as_str()), ("a", 1, "é"));
    let sn = parse_structured("x.y_12345.Mp4").unwrap();
    assert_eq!((sn.prefix.as_str(), sn.index, sn.ext.as_str()), ("x.y", 12345, "Mp4"));
}

#[test]
fn parse_rejects_other_names() {
    assert!(parse_structured("a.jpg").is_none());
    assert!(parse_structured("_0001.jpg").is_none());
    assert!(parse_structured("trip_.jpg").is_none());
    assert!(parse_structured("trip_0001.").is_none());
    assert!(parse_structured("trip_0001").is_none());
    assert!(parse_structured("trip_00a1.jpg").is_none());
    assert!(parse_structured("trip_0001.j-g").is_none());
    assert!(parse_structured("trip_99999999999.jpg").is_none());
    assert!(parse_structured("a\nb_0001.jpg").is_none());
    assert!(parse_structured("\n_0001.jpg").is_none());
}

#[test]
fn canonical_round_trip() {
    for (p, i, e) in [
        ("trip", 0u32, "jpg"),
        ("a_b_c", 9999, "PNG"),
        ("x", 17, "mp4"),
        ("p_1", 1, "cr2"),
        ("big", 123456, "mov"),
        ("été", 3, "ñ_1"),
    ] {
        let name = format_canonical(p, i, e);
        let sn = parse_structured(&name).unwrap();
        assert_eq!((sn.prefix.as_str(), sn.index, sn.ext.as_str()), (p, i, e));
    }
}

#[test]
fn rename_index_bounds() {
    assert_eq!(rename_target("a.jpg", "trip", 10000), Err(RenameError::IndexOutOfRange));
    assert_eq!(rename_target("a.jpg", "trip", 9999), Ok("trip_9999.jpg".to_string()));
    assert_eq!(rename_target("b.PNG", "", 7), Ok("0007.PNG".to_string()));
}

#[test]
fn plan_index_bounds() {
    let files = strings(&["a.jpg", "b.jpg"]);
    assert!(matches!(_rename_all_photos(&files, "t", 9999), Err(RenameError::IndexOutOfRange)));
    let ops = _rename_all_photos(&files, "t", 9998).unwrap();
    assert_eq!(ops[1].to, "t_9999.jpg");
    assert!(_rename_all_photos(&Vec::new(), "t", 20000).unwrap().is_empty());
}

#[test]
fn listing_sorts_and_filters() {
    let entries = vec![file("b.png"), file("c.txt"), dir("z.jpg"), file("a.jpg"), file("B.JPG")];
    let exts = _get_image_extensions();
    assert_eq!(list_managed_files(&entries, &exts), strings(&["B.JPG", "a.jpg", "b.png"]));
}

#[test]
fn string_order() {
    assert!(str_less("B", "a"));
    assert!(str_less("ab", "abc"));
    assert!(!str_less("abc", "abc"));
    assert!(!str_less("b", "a"));
}

#[test]
fn batch_rename_scenario() {
    let exts = _get_image_extensions();
    let mut entries = vec![file("a.jpg"), file("b.png"), file("c.txt")];
    let (staging, first) = plan_staging_phase(&entries, &exts, 1);
    assert_eq!(staging.chars().count(), 6);
    assert!(staging.chars().all(|c| c.is_ascii_alphanumeric()));
    let first = first.unwrap();
    assert!(check_plan(&entries, &first));
    apply(&mut entries, &first);
    assert!(all_names_differ(&entries));
    let second = plan_phase(&entries, &exts, "trip", 1).unwrap();
    apply(&mut entries, &second);
    assert!(all_names_differ(&entries));
    let names: Vec<&str> = entries.iter().map(|e| e.name.as_str()).collect();
    assert_eq!(names, vec!["trip_0001.jpg", "trip_0002.png", "c.txt"]);
}

#[test]
fn batch_rename_keeps_order_with_same_prefix() {
    let exts = _get_image_extensions();
    let mut entries = vec![file("trip_0003.jpg"), file("trip_0001.png"), file("trip_0002.mov")];
    let (staging, first) = plan_staging_phase(&entries, &exts, 1);
    let first = first.unwrap();
    assert_eq!(first[0].to, format!("{}_0001.png", staging));
    apply(&mut entries, &first);
    assert!(all_names_differ(&entries));
    let second = plan_phase(&entries, &exts, "trip", 1).unwrap();
    apply(&mut entries, &second);
    assert!(all_names_differ(&entries));
    let names: Vec<&str> = entries.iter().map(|e| e.name.as_str()).collect();
    assert_eq!(names, vec!["trip_0003.jpg", "trip_0001.png", "trip_0002.mov"]);
}

#[test]
fn plan_refuses_taken_target() {
    let exts = _get_image_extensions();
    let entries = vec![file("a.jpg"), dir("trip_0001.jpg")];
    assert!(matches!(plan_phase(&entries, &exts, "trip", 1), Err(RenameError::Collision)));
    let entries = vec![file("a.jpg"), file("b.jpg")];
    assert!(matches!(plan_phase(&entries, &exts, "x", 9999), Err(RenameError::IndexOutOfRange)));
}

#[test]
fn request_lines() {
    assert_eq!(parse_request_line(""), RequestLine::Blank);
    assert_eq!(parse_request_line(" \t "), RequestLine::Blank);
    assert_eq!(parse_request_line(" 12 "), RequestLine::Index(12));
    assert_eq!(parse_request_line("+7"), RequestLine::Index(7));
    assert_eq!(parse_request_line("4294967295"), RequestLine::Index(u32::MAX));
    assert_eq!(parse_request_line("4294967296"), RequestLine::Invalid);
    assert_eq!(parse_request_line("-3"), RequestLine::Invalid);
    assert_eq!(parse_request_line("abc"), RequestLine::Invalid);
    assert_eq!(parse_request_line("+"), RequestLine::Invalid);
    assert_eq!(trim_text("\u{a0} 5 \u{3000}"), "5");
}

#[test]
fn resolver_tolerance() {
    let lines = strings(&["", "   ", "-3", "abc", "2"]);
    let req = read_requested_indices(&lines);
    assert_eq!(req.indices, vec![2]);
    assert_eq!(req.warnings, strings(&["-3", "abc"]));
    let available = strings(&["trip_0001.jpg", "trip_0002.png", "trip_0003.jpg"]);
    assert_eq!(select_for_copy(&req.indices, &available), strings(&["trip_0002.png"]));
}

#[test]
fn duplicate_requests_collapse() {
    let req = read_requested_indices(&strings(&["3", "1", "3", " 1"]));
    assert_eq!(req.indices, vec![3, 1]);
    assert!(req.warnings.is_empty());
}

#[test]
fn copy_selection_scenario() {
    let exts = _get_image_extensions();
    let entries = vec![file("trip_0001.jpg"), file("trip_0002.png")];
    let available = list_managed_files(&entries, &exts);
    let req = read_requested_indices(&strings(&["2"]));
    assert_eq!(select_for_copy(&req.indices, &available), strings(&["trip_0002.png"]));
}

#[test]
fn copy_selection_skips_unstructured() {
    let available = strings(&["a.jpg", "x_12345.jpg", "y_7.jpg"]);
    let req = vec![7, 12345];
    assert_eq!(select_for_copy(&req, &available), strings(&["x_12345.jpg", "y_0007.jpg"]));
}

#[test]
fn text_helpers() {
    let cs = chars_of("héllo");
    assert_eq!(cs.len(), 5);
    assert_eq!(string_of(&cs), "héllo");
}

#[test]
fn resolver_tolerance_large_index() {
    let lines = strings(&["", "", "-3", "abc", "12345"]);
    let req = read_requested_indices(&lines);
    assert_eq!(req.indices, vec![12345]);
    assert_eq!(req.warnings, strings(&["-3", "abc"]));
    let available = strings(&["x_12345.jpg"]);
    assert_eq!(select_for_copy(&req.indices, &available), strings(&["x_12345.jpg"]));
}

#[test]
fn plan_refuses_repeated_names() {
    let exts = _get_image_extensions();
    let entries = vec![file("a.jpg"), file("a.jpg")];
    assert!(!names_distinct(&entries));
    assert!(matches!(plan_phase(&entries, &exts, "trip", 1), Err(RenameError::Collision)));
    let entries = vec![file("a.jpg"), dir("b")];
    assert!(names_distinct(&entries));
}
