use tzolkin::fields::{ends_with, holds, parse_number, rsplit_once, split, split_once, starts_with, to_text};
use tzolkin::report::{histogram, hms, reject_unknown_flags, search_note, thousands};
use tzolkin::text::{number, push_padded};

fn chars(s: &str) -> Vec<char> {
    s.chars().collect()
}

fn texts(v: &[&str]) -> Vec<String> {
    v.iter().map(|s| s.to_string()).collect()
}

#[test]
fn counts_are_grouped_in_threes() {
    assert_eq!(thousands(0), "0");
    assert_eq!(thousands(999), "999");
    assert_eq!(thousands(1_000), "1,000");
    assert_eq!(thousands(12_034_005), "12,034,005");
}

#[test]
fn durations_read_in_hours_and_minutes() {
    assert_eq!(hms(12), "12s");
    assert_eq!(hms(252), "04m 12s");
    assert_eq!(hms(3_852), "1h 04m 12s");
}

#[test]
fn unknown_options_are_refused() {
    let known = texts(&["--games", "--seed"]);
    assert!(reject_unknown_flags(&texts(&["--games", "4", "--seed", "3", "x"]), &known).is_ok());
    let e = reject_unknown_flags(&texts(&["--gamez"]), &known).unwrap_err();
    assert_eq!(e, "unknown option --gamez; --help lists them");
    let e = reject_unknown_flags(&texts(&["--game"]), &known).unwrap_err();
    assert_eq!(e, "unknown option --game; did you mean --games?");
}

#[test]
fn batch_sizes_print_as_a_histogram() {
    let mut hist = [0u64; 12];
    assert_eq!(histogram(&hist, 16), "  (no batches)");
    hist[0] = 1;
    hist[4] = 3;
    let want = format!(
        "      1-1             1  {}\n     16-31            3  {}\n",
        "#".repeat(10),
        "#".repeat(30)
    );
    assert_eq!(histogram(&hist, 16), want);
    let mut top = [0u64; 12];
    top[11] = 2;
    assert_eq!(
        histogram(&top, 4096),
        format!("   2048-4096          2  {}\n", "#".repeat(40))
    );
    assert!(histogram(&top, 16).starts_with("   2048-2048 "));
}

#[test]
fn numbers_read_back() {
    for n in [0u64, 7, 10, 65_535, u64::MAX] {
        assert_eq!(parse_number(&chars(&number(n)), u64::MAX), Some(n));
    }
    assert_eq!(parse_number(&chars("+12"), 99), Some(12));
    assert_eq!(parse_number(&chars("100"), 99), None);
    assert_eq!(parse_number(&chars(""), 99), None);
    assert_eq!(parse_number(&chars("+"), 99), None);
    assert_eq!(parse_number(&chars("1x"), 99), None);
    let mut s = String::new();
    push_padded(&mut s, 7, 3);
    assert_eq!(s, "007");
}

#[test]
fn texts_are_taken_apart() {
    let (a, b) = split_once(&chars("a:b:c"), ':').unwrap();
    assert_eq!((to_text(&a), to_text(&b)), ("a".to_string(), "b:c".to_string()));
    let (a, b) = rsplit_once(&chars("a:b:c"), ':').unwrap();
    assert_eq!((to_text(&a), to_text(&b)), ("a:b".to_string(), "c".to_string()));
    assert!(split_once(&chars("abc"), ':').is_none());
    let parts: Vec<String> = split(&chars("x,,y"), ',').iter().map(to_text).collect();
    assert_eq!(parts, texts(&["x", "", "y"]));
    assert!(starts_with(&chars("net-random:main"), "net-random"));
    assert!(ends_with(&chars("a.tzw"), ".tzw"));
    assert!(holds(&chars("k=v"), '=') && !holds(&chars("kv"), '='));
}

#[test]
fn searches_say_what_they_did() {
    assert_eq!(
        search_note(3, 12, 12, 400, 7, 90, 8, 1500),
        "depth 3 on top 12 of all 400 root moves (7 restatements) · 90 nodes, 8 cutoffs · 1500 ms"
    );
    assert_eq!(
        search_note(4, 5, 12, 400, 0, 90, 8, 15),
        "depth 4 on 5/12, else 3 of all 400 root moves · 90 nodes, 8 cutoffs · 15 ms"
    );
}
