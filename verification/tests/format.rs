use cargo_swoop::cli::{crate_stats, is_affirmative, sort_crates};
use cargo_swoop::display::format_size;
use cargo_swoop::{Context, CrateInfo};

fn rec(path: &str, size: Option<u64>) -> CrateInfo {
    CrateInfo { path: path.to_string(), target_dir_size: size }
}

#[test]
fn bytes_are_printed_plain() {
    assert_eq!(format_size(0), "0 B");
    assert_eq!(format_size(731), "731 B");
    assert_eq!(format_size(1023), "1023 B");
}

#[test]
fn one_kibibyte_formats_with_two_decimals() {
    assert_eq!(format_size(1024), "1.00 KB");
}

#[test]
fn fractions_round_half_up() {
    assert_eq!(format_size(1536), "1.50 KB");
    assert_eq!(format_size(1024 + 5), "1.00 KB");
    assert_eq!(format_size(2 * 1024 * 1024 + 512 * 1024), "2.50 MB");
}

#[test]
fn each_unit_is_reached() {
    assert_eq!(format_size(1024 * 1024), "1.00 MB");
    assert_eq!(format_size(1024 * 1024 * 1024), "1.00 GB");
    assert_eq!(format_size(1024 * 1024 * 1024 * 1024), "1.00 TB");
    assert_eq!(format_size(u64::MAX), "16777216.00 TB");
}

#[test]
fn stats_sum_only_sized_records() {
    let ctx = Context {
        crates: vec![rec("a", None), rec("b", Some(100)), rec("c", Some(924)), rec("d", None)],
    };
    let stats = crate_stats(&ctx);
    assert_eq!(stats.total_size, 1024);
    assert_eq!(stats.non_empty_crates, 2);
}

#[test]
fn stats_of_empty_list_are_zero() {
    let stats = crate_stats(&Context::new());
    assert_eq!(stats.total_size, 0);
    assert_eq!(stats.non_empty_crates, 0);
}

#[test]
fn sort_puts_absent_sizes_first() {
    let mut ctx = Context {
        crates: vec![
            rec("big", Some(900)),
            rec("none1", None),
            rec("small", Some(3)),
            rec("none2", None),
            rec("mid", Some(30)),
        ],
    };
    sort_crates(&mut ctx);
    let sizes: Vec<Option<u64>> = ctx.crates.iter().map(|c| c.target_dir_size).collect();
    assert_eq!(sizes, vec![None, None, Some(3), Some(30), Some(900)]);
    let paths: Vec<&str> = ctx.crates.iter().map(|c| c.path.as_str()).collect();
    assert!(paths.contains(&"none1"));
    assert!(paths.contains(&"none2"));
}

#[test]
fn sort_keeps_equal_sizes_together() {
    let mut ctx = Context {
        crates: vec![rec("a", Some(5)), rec("b", Some(5)), rec("c", None)],
    };
    sort_crates(&mut ctx);
    assert_eq!(ctx.crates[0].target_dir_size, None);
    assert_eq!(ctx.crates[1].target_dir_size, Some(5));
    assert_eq!(ctx.crates[2].target_dir_size, Some(5));
}

#[test]
fn affirmative_replies() {
    assert!(is_affirmative("y"));
    assert!(is_affirmative("Y"));
    assert!(is_affirmative("yes"));
    assert!(is_affirmative("YES"));
    assert!(is_affirmative("Yes"));
}

#[test]
fn non_affirmative_replies() {
    assert!(!is_affirmative(""));
    assert!(!is_affirmative("n"));
    assert!(!is_affirmative("no"));
    assert!(!is_affirmative("yess"));
    assert!(!is_affirmative("ye"));
}
