use herdr::diff::parser::{
    parse_diff_git_header, parse_hunk_header, parse_range, parse_unified_diff, HunkLine,
};

fn chars(s: &str) -> Vec<char> {
    s.chars().collect()
}

#[test]
fn empty_diff_yields_no_files() {
    assert!(parse_unified_diff("").is_empty());
    assert!(parse_unified_diff("\n\n").is_empty());
}

#[test]
fn single_file_single_hunk() {
    let raw = "\
diff --git a/foo.txt b/foo.txt
index 0000001..0000002 100644
--- a/foo.txt
+++ b/foo.txt
@@ -1,3 +1,4 @@
 context one
-removed line
+added line
+another added
 context two
";
    let files = parse_unified_diff(raw);
    assert_eq!(files.len(), 1);
    let f = &files[0];
    assert_eq!(f.path, "foo.txt");
    assert!(!f.binary);
    assert!(f.rename_from.is_none());
    assert_eq!(f.hunks.len(), 1);
    let h = &f.hunks[0];
    assert_eq!(h.old_range, (1, 3));
    assert_eq!(h.new_range, (1, 4));
    assert_eq!(h.lines.len(), 5);
    assert_eq!(h.lines[0], HunkLine::Context("context one".into()));
    assert_eq!(h.lines[1], HunkLine::Removed("removed line".into()));
    assert_eq!(h.lines[2], HunkLine::Added("added line".into()));
    assert_eq!(h.lines[3], HunkLine::Added("another added".into()));
    assert_eq!(h.lines[4], HunkLine::Context("context two".into()));
}

#[test]
fn multiple_files() {
    let raw = "\
diff --git a/a.rs b/a.rs
--- a/a.rs
+++ b/a.rs
@@ -1 +1 @@
-old
+new
diff --git a/b.rs b/b.rs
--- a/b.rs
+++ b/b.rs
@@ -1 +1 @@
-foo
+bar
";
    let files = parse_unified_diff(raw);
    assert_eq!(files.len(), 2);
    assert_eq!(files[0].path, "a.rs");
    assert_eq!(files[1].path, "b.rs");
    assert_eq!(files[0].hunks.len(), 1);
    assert_eq!(files[1].hunks.len(), 1);
}

#[test]
fn rename_header_detected() {
    let raw = "\
diff --git a/old.txt b/new.txt
similarity index 95%
rename from old.txt
rename to new.txt
";
    let files = parse_unified_diff(raw);
    assert_eq!(files.len(), 1);
    assert_eq!(files[0].rename_from.as_deref(), Some("old.txt"));
    assert_eq!(files[0].path, "new.txt");
    assert!(files[0].hunks.is_empty());
}

#[test]
fn binary_marker_sets_binary_flag() {
    let raw = "\
diff --git a/img.png b/img.png
index 0..1
Binary files a/img.png and b/img.png differ
";
    let files = parse_unified_diff(raw);
    assert_eq!(files.len(), 1);
    assert!(files[0].binary);
    assert!(files[0].hunks.is_empty());
    assert_eq!(files[0].path, "img.png");
}

#[test]
fn malformed_input_does_not_panic() {
    let raw = "\
diff --git a/foo.txt b/foo.txt
@@ -1,3 +1,4 @@
 ctx
+";
    let files = parse_unified_diff(raw);
    assert_eq!(files.len(), 1);
    assert_eq!(files[0].hunks.len(), 1);
}

#[test]
fn hunk_heading_captured() {
    let raw = "\
diff --git a/lib.rs b/lib.rs
--- a/lib.rs
+++ b/lib.rs
@@ -10,1 +10,2 @@ fn outer()
 inner
+added
";
    let files = parse_unified_diff(raw);
    assert_eq!(files[0].hunks[0].heading, "fn outer()");
}

#[test]
fn single_value_range_treated_as_count_one() {
    let raw = "\
diff --git a/x b/x
@@ -5 +5 @@
-a
+b
";
    let files = parse_unified_diff(raw);
    assert_eq!(files[0].hunks[0].old_range, (5, 1));
    assert_eq!(files[0].hunks[0].new_range, (5, 1));
}

#[test]
fn lines_before_the_first_file_are_dropped() {
    let files = parse_unified_diff("@@ -1 +1 @@\n+x\nrename to y\ndiff --git a/z b/z\n+early\n");
    assert_eq!(files.len(), 1);
    assert_eq!(files[0].path, "z");
    assert!(files[0].hunks.is_empty());
}

#[test]
fn header_without_a_b_side_is_kept_whole() {
    let files = parse_unified_diff("diff --git something odd");
    assert_eq!(files[0].path, "something odd");
}

#[test]
fn b_side_wins_over_the_header() {
    let files = parse_unified_diff("diff --git a/x b/y\n--- a/x\n+++ b/z\n");
    assert_eq!(files[0].path, "z");
    let files = parse_unified_diff("diff --git a/x b/y\n--- a/x\n+++ /dev/null\n");
    assert_eq!(files[0].path, "y");
}

#[test]
fn unrecognized_lines_do_not_end_a_hunk() {
    let raw = "diff --git a/x b/x\n@@ -1 +1,2 @@\n-a\n\\ No newline at end of file\n+b\n+c\n";
    let files = parse_unified_diff(raw);
    assert_eq!(
        files[0].hunks[0].lines,
        vec![
            HunkLine::Removed("a".into()),
            HunkLine::Added("b".into()),
            HunkLine::Added("c".into()),
        ]
    );
}

#[test]
fn in_a_hunk_the_sign_decides() {
    let raw = "diff --git a/q.sql b/q.sql\n@@ -1,2 +1,1 @@\n--- old comment\n select 1;\n";
    let files = parse_unified_diff(raw);
    assert_eq!(files.len(), 1);
    assert_eq!(files[0].path, "q.sql");
    assert_eq!(files[0].hunks.len(), 1);
    assert_eq!(
        files[0].hunks[0].lines,
        vec![
            HunkLine::Removed("-- old comment".into()),
            HunkLine::Context("select 1;".into()),
        ]
    );
}

#[test]
fn signed_lines_that_look_like_headers() {
    let raw = "\
diff --git a/x b/x
--- a/x
+++ b/x
@@ -1,2 +1,3 @@
--- x
+++ b/x
+++ y
 --- z
-- w
";
    let files = parse_unified_diff(raw);
    assert_eq!(files.len(), 1);
    assert_eq!(files[0].path, "x");
    assert_eq!(
        files[0].hunks[0].lines,
        vec![
            HunkLine::Removed("-- x".into()),
            HunkLine::Added("++ b/x".into()),
            HunkLine::Added("++ y".into()),
            HunkLine::Context("--- z".into()),
            HunkLine::Removed("- w".into()),
        ]
    );
}

#[test]
fn header_lines_count_again_after_a_hunk() {
    let raw = "\
diff --git a/x b/x
@@ -1 +1 @@
-a
diff --git a/y b/y
--- a/y
+++ b/z
@@ -1 +1 @@
+b
";
    let files = parse_unified_diff(raw);
    assert_eq!(files.len(), 2);
    assert_eq!(files[0].hunks[0].lines, vec![HunkLine::Removed("a".into())]);
    assert_eq!(files[1].path, "z");
    assert_eq!(files[1].hunks[0].lines, vec![HunkLine::Added("b".into())]);
}

#[test]
fn a_broken_hunk_header_ends_the_hunk() {
    let raw = "diff --git a/x b/x\n@@ -1 +1 @@\n-a\n@@ nonsense @@\n+b\n";
    let files = parse_unified_diff(raw);
    assert_eq!(files[0].hunks.len(), 1);
    assert_eq!(files[0].hunks[0].lines, vec![HunkLine::Removed("a".into())]);
}

#[test]
fn binary_files_carry_no_hunks() {
    let raw = "diff --git a/x b/x\n@@ -1 +1 @@\n-a\nBinary files a/x and b/x differ\n@@ -2 +2 @@\n+b\n";
    let files = parse_unified_diff(raw);
    assert!(files[0].binary);
    assert!(files[0].hunks.is_empty());
}

#[test]
fn a_file_parses_the_same_whatever_comes_before_it() {
    let one = "diff --git a/a b/a\n@@ -1 +1 @@\n-x\n+y";
    let two = "diff --git a/b b/b\n@@ -3,2 +3,1 @@ top\n z\n-w";
    let both = parse_unified_diff(&format!("{one}\n{two}"));
    assert_eq!(both.len(), 2);
    assert_eq!(both[0], parse_unified_diff(one)[0]);
    assert_eq!(both[1], parse_unified_diff(two)[0]);
}

#[test]
fn ranges() {
    assert_eq!(parse_range(&chars("1,3")), Some((1, 3)));
    assert_eq!(parse_range(&chars("7")), Some((7, 1)));
    assert_eq!(parse_range(&chars("+7,0")), Some((7, 0)));
    assert_eq!(parse_range(&chars("4294967295,1")), Some((4294967295, 1)));
    assert_eq!(parse_range(&chars("4294967296,1")), None);
    assert_eq!(parse_range(&chars("1,2,3")), None);
    assert_eq!(parse_range(&chars("1,")), None);
    assert_eq!(parse_range(&chars("")), None);
    assert_eq!(parse_range(&chars("-1")), None);
    assert_eq!(parse_range(&chars(" 1")), None);
}

#[test]
fn hunk_headers() {
    let hunk = parse_hunk_header(&chars(" -1,5 +1,7 @@ heading here")).unwrap();
    assert_eq!(hunk.old_range, (1, 5));
    assert_eq!(hunk.new_range, (1, 7));
    assert_eq!(hunk.heading, "heading here");
    assert!(hunk.lines.is_empty());
    assert_eq!(parse_hunk_header(&chars("-1   +2 tail")).unwrap().heading, "tail");
    assert!(parse_hunk_header(&chars(" -1,5 +1,7")).is_none());
    assert!(parse_hunk_header(&chars(" -1,5+1,7 @@")).is_none());
    assert!(parse_hunk_header(&chars(" +1 -1 @@")).is_none());
    assert!(parse_hunk_header(&chars(" -x +1 @@")).is_none());
    assert!(parse_hunk_header(&chars("")).is_none());
}

#[test]
fn git_headers() {
    assert_eq!(
        parse_diff_git_header(&chars("a/x b/y")).as_deref(),
        Some("y")
    );
    assert_eq!(
        parse_diff_git_header(&chars("a/x b/y b/z")).as_deref(),
        Some("y b/z")
    );
    assert!(parse_diff_git_header(&chars("a/x")).is_none());
}
