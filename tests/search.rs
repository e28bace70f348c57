use minigrep::config::Config;
use minigrep::folding::fold_text;
use minigrep::render::Segment;
use minigrep::scanner::{search, search_case_insensitive, search_case_sensitive, SingleLineResult};

fn texts<'a>(r: &SingleLineResult<'a>) -> Vec<&'a str> {
    r.matches.iter().map(|&(o, l)| &r.line[o..o + l]).collect()
}

#[test]
fn one_result() {
    let query = "duct";
    let contents = "\
Rust:
safe, fast, productive.
Pick three.";
    let result = SingleLineResult {
        line: "safe, fast, productive.",
        matches: vec![(15, 4)],
    };
    let found = search_case_sensitive(query, contents);
    assert_eq!(vec![result], found);
    assert_eq!(texts(&found[0]), vec!["duct"]);
}

#[test]
fn no_result() {
    let query = "Naharda!";
    let contents = "Not the word\nAlso not the word.";
    let cmp: Vec<SingleLineResult> = vec![];
    assert_eq!(cmp, search_case_sensitive(query, contents));
}

#[test]
fn multiple_results() {
    let query = "Naharda!";
    let contents = "I am talking to you, Naharda!
NahardaNaharda!
Naharda!Naharda!
Naharda! Naharda Naharda!";
    let found = search_case_sensitive(query, contents);
    assert_eq!(
        vec![
            SingleLineResult {
                line: "I am talking to you, Naharda!",
                matches: vec![(21, 8)]
            },
            SingleLineResult {
                line: "NahardaNaharda!",
                matches: vec![(7, 8)]
            },
            SingleLineResult {
                line: "Naharda!Naharda!",
                matches: vec![(0, 8), (8, 8)]
            },
            SingleLineResult {
                line: "Naharda! Naharda Naharda!",
                matches: vec![(0, 8), (17, 8)]
            }
        ],
        found
    );
    for r in &found {
        assert!(texts(r).iter().all(|t| *t == "Naharda!"));
    }
}

#[test]
fn case_sensitive() {
    let query = "duct";
    let contents = "\
Rust:
safe, fast, productive.
Pick three.
Duct tape.";
    let found = search_case_sensitive(query, contents);
    assert_eq!(
        vec![SingleLineResult {
            line: "safe, fast, productive.",
            matches: vec![(15, 4)]
        }],
        found
    );
    assert_eq!(texts(&found[0]), vec!["duct"]);
}

#[test]
fn case_insensitive() {
    let query = "rUsT";
    let contents = "\
Rust:
safe, fast, productive.
Pick three.
Trust me.";
    let found = search_case_insensitive(query, contents);
    assert_eq!(
        vec![
            SingleLineResult {
                line: "Rust:",
                matches: vec![(0, 4)]
            },
            SingleLineResult {
                line: "Trust me.",
                matches: vec![(1, 4)]
            }
        ],
        found
    );
    assert_eq!(texts(&found[0]), vec!["Rust"]);
    assert_eq!(texts(&found[1]), vec!["rust"]);
}

#[test]
fn capitalised_query_matches_only_its_own_case() {
    let contents = "Rust:\nsafe, fast, productive.\nPick three.\nDuct tape.";
    let found = search_case_sensitive("Duct", contents);
    assert_eq!(
        vec![SingleLineResult {
            line: "Duct tape.",
            matches: vec![(0, 4)]
        }],
        found
    );
}

#[test]
fn back_to_back_matches_do_not_overlap() {
    let found = search_case_sensitive("Naharda!", "Naharda!Naharda!");
    assert_eq!(found.len(), 1);
    assert_eq!(found[0].matches, vec![(0, 8), (8, 8)]);
    let found = search_case_sensitive("aa", "aaaa");
    assert_eq!(found[0].matches, vec![(0, 2), (2, 2)]);
    let found = search_case_sensitive("aa", "aaa");
    assert_eq!(found[0].matches, vec![(0, 2)]);
}

#[test]
fn empty_document_gives_nothing() {
    assert!(search("x", "", true).is_empty());
    assert!(search("x", "", false).is_empty());
}

#[test]
fn empty_query_gives_nothing() {
    assert!(search("", "some text\nmore", true).is_empty());
    assert!(search("", "some text\nmore", false).is_empty());
}

#[test]
fn query_spanning_lines_is_not_found() {
    assert!(search("a\nb", "a\nb", true).is_empty());
}

#[test]
fn crlf_terminators_are_not_part_of_lines() {
    let found = search_case_sensitive("b", "ab\r\ncb\n\nb\r");
    assert_eq!(
        vec![
            SingleLineResult { line: "ab", matches: vec![(1, 1)] },
            SingleLineResult { line: "cb", matches: vec![(1, 1)] },
            SingleLineResult { line: "b\r", matches: vec![(0, 1)] },
        ],
        found
    );
}

#[test]
fn carriage_return_can_be_searched_for_inside_a_line() {
    let found = search_case_sensitive("\r", "a\rb\r\nc");
    assert_eq!(vec![SingleLineResult { line: "a\rb", matches: vec![(1, 1)] }], found);
}

#[test]
fn offsets_are_bytes_of_the_original_line() {
    let found = search_case_insensitive("WÖR", "héllo wörld\nWÖRLD");
    assert_eq!(
        vec![
            SingleLineResult { line: "héllo wörld", matches: vec![(7, 4)] },
            SingleLineResult { line: "WÖRLD", matches: vec![(0, 4)] },
        ],
        found
    );
    assert_eq!(texts(&found[0]), vec!["wör"]);
    assert_eq!(texts(&found[1]), vec!["WÖR"]);
    let found = search_case_insensitive("W", "héllo wörld");
    assert_eq!(found[0].matches, vec![(7, 1)]);
    assert_eq!(texts(&found[0]), vec!["w"]);
}

#[test]
fn non_ascii_letters_match_their_other_case() {
    let found = search_case_insensitive("Ö", "ö");
    assert_eq!(vec![SingleLineResult { line: "ö", matches: vec![(0, 2)] }], found);
    assert_eq!(search_case_insensitive("ö", "ö"), found);
    let found = search_case_insensitive("σοφία", "ΣΟΦΊΑ και σοφία");
    assert_eq!(found[0].matches, vec![(0, 10), (18, 10)]);
    assert!(search_case_sensitive("Ö", "ö").is_empty());
}

#[test]
fn characters_whose_lowercase_changes_width_match_only_themselves() {
    // The Kelvin sign lowercases to a one-byte 'k'; dotted capital I
    // lowercases to two characters. Both stay as they are.
    assert!(search_case_insensitive("k", "\u{212A}").is_empty());
    let found = search_case_insensitive("\u{212A}", "\u{212A}");
    assert_eq!(found[0].matches, vec![(0, 3)]);
    assert!(search_case_insensitive("i", "\u{130}").is_empty());
    assert_eq!(search_case_insensitive("\u{130}", "x\u{130}")[0].matches, vec![(1, 2)]);
}

#[test]
fn folding_lowercases_each_character() {
    assert_eq!(fold_text("ÀBÇ dé Ω"), "àbç dé ω");
    assert_eq!(fold_text("\u{212A}\u{130}"), "\u{212A}\u{130}");
    assert_eq!(fold_text(""), "");
}

#[test]
fn case_insensitive_matches_fold_to_query() {
    let query = "tHe";
    let contents = "The cat\nthe hat\nno match here\nTHE END, theme";
    let found = search_case_insensitive(query, contents);
    assert_eq!(found.len(), 3);
    for r in &found {
        assert!(contents.lines().any(|l| l == r.line));
        for t in texts(r) {
            assert_eq!(t.to_ascii_lowercase(), "the");
        }
    }
    assert_eq!(texts(&found[2]), vec!["THE", "the"]);
}

#[test]
fn spans_are_ascending_and_within_line() {
    let contents = "abcabcabc\nxabcx\nnothing";
    for cs in [true, false] {
        let found = search("abc", contents, cs);
        for r in &found {
            assert!(r.spans_in_order());
            for w in r.matches.windows(2) {
                assert!(w[0].0 + w[0].1 <= w[1].0);
                assert!(w[0].0 < w[1].0);
            }
            for &(o, l) in &r.matches {
                assert!(o + l <= r.line.len());
            }
        }
        assert!(found.len() <= contents.lines().count());
    }
}

#[test]
fn searching_twice_gives_the_same_outcome() {
    let contents = "one two\ntwo three\nfour";
    assert_eq!(search("two", contents, true), search("two", contents, true));
    assert_eq!(search("TWO", contents, false), search("TWO", contents, false));
}

#[test]
fn spans_out_of_order_are_detected() {
    let r = SingleLineResult { line: "abcdef", matches: vec![(2, 2), (1, 1)] };
    assert!(!r.spans_in_order());
    let r = SingleLineResult { line: "abc", matches: vec![(2, 2)] };
    assert!(!r.spans_in_order());
    let r = SingleLineResult { line: "abcdef", matches: vec![(0, 2), (2, 2)] };
    assert!(r.spans_in_order());
}

#[test]
fn segments_cover_the_line() {
    let found = search_case_sensitive("Naharda!", "Naharda! Naharda Naharda!");
    assert_eq!(
        found[0].segments(),
        vec![
            Segment { start: 0, end: 0, emphasized: false },
            Segment { start: 0, end: 8, emphasized: true },
            Segment { start: 8, end: 17, emphasized: false },
            Segment { start: 17, end: 25, emphasized: true },
            Segment { start: 25, end: 25, emphasized: false },
        ]
    );
    let r = SingleLineResult { line: "no spans", matches: vec![] };
    assert_eq!(r.segments(), vec![Segment { start: 0, end: 8, emphasized: false }]);
}

#[test]
fn config_needs_a_query() {
    assert_eq!(Config::new(&[], false).err(), Some("Didn't get a query string"));
    assert_eq!(
        Config::new(&["minigrep".to_string()], false).err(),
        Some("Didn't get a query string")
    );
}

#[test]
fn config_needs_a_filename() {
    let args = vec!["minigrep".to_string(), "to".to_string()];
    assert_eq!(Config::new(&args, false).err(), Some("Didn't get a filename"));
}

#[test]
fn config_takes_query_filename_and_mode() {
    let args = vec![
        "minigrep".to_string(),
        "to".to_string(),
        "poem.txt".to_string(),
        "extra".to_string(),
    ];
    let c = Config::new(&args, false).ok().unwrap();
    assert_eq!(c.query, "to");
    assert_eq!(c.filename, "poem.txt");
    assert!(c.case_sensitive);
    let c = Config::new(&args, true).ok().unwrap();
    assert!(!c.case_sensitive);
}
