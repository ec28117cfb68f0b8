use emc_finder::tooltip::{
    chars_of, emc_candidates, is_space_char, next_word, number_word_multiplier, remove_commas,
    split_lines, strip_ending, strip_marker, value_text_of_line, EmcText,
};

fn chars(text: &str) -> Vec<char> {
    text.chars().collect()
}

fn text(chars: &[char]) -> String {
    chars.iter().collect()
}

fn read(candidate: &EmcText) -> Option<f32> {
    let number = text(&candidate.number).parse::<f32>().ok()?;
    Some(match candidate.multiplier {
        Some(factor) => number * factor as f32,
        None => number,
    })
}

fn get_emc_from_tooltip(tooltip: &str) -> Option<f32> {
    emc_candidates(tooltip).iter().find_map(read)
}

fn candidates(tooltip: &str) -> Vec<(String, Option<u64>)> {
    emc_candidates(tooltip).iter().map(|c| (text(&c.number), c.multiplier)).collect()
}

fn one(number: &str, multiplier: Option<u64>) -> Vec<(String, Option<u64>)> {
    vec![(number.to_string(), multiplier)]
}

#[test]
fn test_get_emc_from_tooltip() {
    let tooltip = "EMC: 2";
    let emc = get_emc_from_tooltip(tooltip).unwrap();
    assert_eq!(emc, 2f32);

    let tooltip = "a\nb\nEMC: 2,048 (✗)\nc\nd";
    let emc = get_emc_from_tooltip(tooltip).unwrap();
    assert_eq!(emc, 2048f32);

    let tooltip = "a\nb\nEMC: 1.61 Billion (✗)\nc\nd";
    let emc = get_emc_from_tooltip(tooltip).unwrap();
    assert_eq!(emc, 1_610_000_000f32);
}

#[test]
fn bare_integer_line_gives_its_digits() {
    assert_eq!(candidates("EMC: 2"), one("2", None));
    assert_eq!(candidates("EMC: 1234567890"), one("1234567890", None));
    assert_eq!(get_emc_from_tooltip("EMC: 64"), Some(64.0));
}

#[test]
fn commas_and_ending_are_taken_out() {
    assert_eq!(candidates("EMC: 2,048 (✗)"), one("2048", None));
    assert_eq!(candidates("EMC: 1,234,567 (✗)"), one("1234567", None));
    assert_eq!(candidates("EMC: 2,048"), one("2048", None));
    assert_eq!(get_emc_from_tooltip("EMC: 1,234,567 (✗)"), Some(1_234_567.0));
}

#[test]
fn scale_words_give_their_factors() {
    assert_eq!(candidates("EMC: 1.61 Million (✗)"), one("1.61", Some(1_000_000)));
    assert_eq!(candidates("EMC: 1.61 Billion (✗)"), one("1.61", Some(1_000_000_000)));
    assert_eq!(candidates("EMC: 1.61 Trillion (✗)"), one("1.61", Some(1_000_000_000_000)));
    assert_eq!(candidates("EMC: 1.61 Quadrillion (✗)"), one("1.61", Some(1_000_000_000_000_000)));
    assert_eq!(
        candidates("EMC: 1.61 Quintillion (✗)"),
        one("1.61", Some(1_000_000_000_000_000_000))
    );
    assert_eq!(get_emc_from_tooltip("EMC: 2.5 Million"), Some(2_500_000.0));
    assert_eq!(get_emc_from_tooltip("EMC: 3 Trillion (✗)"), Some(3e12));
}

#[test]
fn number_words_are_matched_letter_for_letter() {
    assert_eq!(number_word_multiplier(&chars("Million")), Some(1_000_000));
    assert_eq!(number_word_multiplier(&chars("Billion")), Some(1_000_000_000));
    assert_eq!(number_word_multiplier(&chars("Trillion")), Some(1_000_000_000_000));
    assert_eq!(number_word_multiplier(&chars("Quadrillion")), Some(1_000_000_000_000_000));
    assert_eq!(number_word_multiplier(&chars("Quintillion")), Some(1_000_000_000_000_000_000));
    assert_eq!(number_word_multiplier(&chars("million")), None);
    assert_eq!(number_word_multiplier(&chars("MILLION")), None);
    assert_eq!(number_word_multiplier(&chars("Millions")), None);
    assert_eq!(number_word_multiplier(&chars("Millio")), None);
    assert_eq!(number_word_multiplier(&chars("Thousand")), None);
    assert_eq!(number_word_multiplier(&chars("")), None);
}

#[test]
fn unknown_second_word_is_ignored() {
    assert_eq!(candidates("EMC: 12 Gazillion (✗)"), one("12", None));
    assert_eq!(candidates("EMC: 12 million"), one("12", None));
    assert_eq!(candidates("EMC: 12 each Million"), one("12", None));
    assert_eq!(get_emc_from_tooltip("EMC: 12 Gazillion (✗)"), Some(12.0));
}

#[test]
fn only_the_first_value_line_is_used() {
    assert_eq!(get_emc_from_tooltip("EMC: 1\nEMC: 2\nEMC: 3"), Some(1.0));
    assert_eq!(get_emc_from_tooltip("name\nEMC: 5 Million\nlore\nEMC: 7"), Some(5_000_000.0));
    assert_eq!(
        candidates("EMC: 1\nx\nEMC: 2 Billion"),
        vec![("1".to_string(), None), ("2".to_string(), Some(1_000_000_000))]
    );
}

#[test]
fn line_that_does_not_read_as_a_number_is_passed_over() {
    assert_eq!(get_emc_from_tooltip("EMC: unknown\nEMC: 3"), Some(3.0));
    assert_eq!(get_emc_from_tooltip("EMC: \nEMC: 4,000"), Some(4000.0));
    assert_eq!(get_emc_from_tooltip("EMC: ?? Million"), None);
    assert_eq!(candidates("EMC: unknown\nEMC: 3"), vec![("unknown".to_string(), None), ("3".to_string(), None)]);
}

#[test]
fn description_without_a_value_line_has_no_value() {
    assert!(candidates("").is_empty());
    assert!(candidates("a plain description\nof two lines").is_empty());
    assert!(candidates("EMC:5").is_empty());
    assert!(candidates("emc: 5").is_empty());
    assert!(candidates(" EMC: 5").is_empty());
    assert!(candidates("Value EMC: 5").is_empty());
    assert!(candidates("EMC: ").is_empty());
    assert!(candidates("EMC:    \t ").is_empty());
    assert!(candidates("EMC:  (✗)").is_empty());
    assert!(candidates("EMC: ,,, (✗)").is_empty());
    assert_eq!(get_emc_from_tooltip("nothing here"), None);
}

#[test]
fn ending_is_taken_off_as_often_as_it_stands() {
    assert_eq!(candidates("EMC: 5 (✗) (✗)"), one("5", None));
    assert_eq!(candidates("EMC: 5 Million (✗) (✗) (✗)"), one("5", Some(1_000_000)));
    assert_eq!(candidates("EMC: 5 (✗) Million"), one("5", None));
    assert_eq!(candidates("EMC: 5(✗)"), one("5(✗)", None));
    let mut s = chars("7 (✗) (✗)");
    strip_ending(&mut s);
    assert_eq!(text(&s), "7");
    let mut s = chars(" (✗)");
    strip_ending(&mut s);
    assert_eq!(text(&s), "");
    let mut s = chars("7 (✗) ");
    strip_ending(&mut s);
    assert_eq!(text(&s), "7 (✗) ");
    let mut s = chars("(✗)");
    strip_ending(&mut s);
    assert_eq!(text(&s), "(✗)");
}

#[test]
fn commas_are_taken_out_before_words_are_split() {
    assert_eq!(candidates("EMC: 1, 5"), one("1", None));
    assert_eq!(candidates("EMC: ,1,,2, Million,"), one("12", Some(1_000_000)));
    assert_eq!(text(&remove_commas(&chars(",a,,b,"))), "ab");
    assert_eq!(text(&remove_commas(&chars(""))), "");
}

#[test]
fn carriage_returns_end_lines_only_before_a_line_feed() {
    assert_eq!(candidates("x\r\nEMC: 8 (✗)\r\ny"), one("8", None));
    assert_eq!(candidates("EMC: 8 Million\r\n"), one("8", Some(1_000_000)));
    assert_eq!(candidates("EMC: 8 (✗)\r"), one("8", None));
}

#[test]
fn lines_are_split_as_the_standard_library_splits_them() {
    let samples = [
        "",
        "a",
        "a\n",
        "a\n\n",
        "\n",
        "\n\n",
        "a\r\nb",
        "a\r\n",
        "a\r",
        "a\r\r\n",
        "\r\n",
        "\r",
        "a\nb\r\n\r\nc\r",
        "EMC: 1\nEMC: 2",
        "\n\r\n\r",
        "ünï\ncödé ✗\r\n",
    ];
    for sample in samples {
        let ours: Vec<String> = split_lines(&chars(sample)).iter().map(|l| text(l)).collect();
        let theirs: Vec<String> = sample.lines().map(|l| l.to_string()).collect();
        assert_eq!(ours, theirs, "lines of {:?}", sample);
    }
}

#[test]
fn white_space_is_what_the_standard_library_takes_for_it() {
    let mut code: u32 = 0;
    while code <= 0x10FFFF {
        if let Some(c) = char::from_u32(code) {
            assert_eq!(is_space_char(c), c.is_whitespace(), "U+{:04X}", code);
        }
        code += 1;
    }
}

#[test]
fn words_are_split_as_the_standard_library_splits_them() {
    let samples = [
        "",
        " ",
        "a",
        " a ",
        "a b",
        "  12   Million  (✗) ",
        "\t1\u{00A0}2\u{3000}3\n4\r5\u{2003}6",
        "one\u{200B}word",
        "x\u{0085}y\u{1680}z",
    ];
    for sample in samples {
        let s = chars(sample);
        let mut ours: Vec<String> = Vec::new();
        let mut from = 0;
        while let Some((word, end)) = next_word(&s, from) {
            ours.push(text(&word));
            from = end;
        }
        let theirs: Vec<String> = sample.split_whitespace().map(|w| w.to_string()).collect();
        assert_eq!(ours, theirs, "words of {:?}", sample);
    }
}

#[test]
fn marker_is_stripped_from_the_start_only() {
    assert_eq!(strip_marker(&chars("EMC: 12")).map(|r| text(&r)), Some("12".to_string()));
    assert_eq!(strip_marker(&chars("EMC: ")).map(|r| text(&r)), Some(String::new()));
    assert_eq!(strip_marker(&chars("EMC: EMC: 1")).map(|r| text(&r)), Some("EMC: 1".to_string()));
    assert!(strip_marker(&chars("EMC:")).is_none());
    assert!(strip_marker(&chars("")).is_none());
    assert!(strip_marker(&chars("xEMC: 1")).is_none());
}

#[test]
fn value_text_of_a_line_matches_the_standard_library_steps() {
    let samples = [
        "EMC: 2",
        "EMC: 2,048 (✗)",
        "EMC: 1.61 Billion (✗)",
        "EMC: 1.61 Billion (✗) (✗)",
        "EMC:   9   Trillion   ",
        "EMC: , (✗)",
        "EMC: 4 (✗) Million",
        "EMC: 1e3 Quintillion",
        "EMC: -7 Quadrillion (✗)",
        "EMC: inf",
        "EMC 1",
        "",
        "EMC: Million 3",
        "EMC: 3\u{00A0}Million",
    ];
    let words: [(&str, u64); 5] = [
        ("Million", 1_000_000),
        ("Billion", 1_000_000_000),
        ("Trillion", 1_000_000_000_000),
        ("Quadrillion", 1_000_000_000_000_000),
        ("Quintillion", 1_000_000_000_000_000_000),
    ];
    for sample in samples {
        let theirs = sample.strip_prefix("EMC: ").and_then(|x| {
            let x = x.trim_end_matches(" (✗)").replace(',', "");
            let mut parts = x.split_whitespace();
            let number = parts.next()?.to_string();
            let factor = parts.next().and_then(|w| words.iter().find(|(n, _)| *n == w).map(|(_, f)| *f));
            Some((number, factor))
        });
        let ours = value_text_of_line(&chars(sample)).map(|c| (text(&c.number), c.multiplier));
        assert_eq!(ours, theirs, "value text of {:?}", sample);
    }
}

#[test]
fn chars_of_keeps_every_character() {
    assert_eq!(chars_of("EMC: 2 (✗)"), chars("EMC: 2 (✗)"));
    assert_eq!(chars_of(""), Vec::<char>::new());
}

#[test]
fn value_reads_with_single_precision() {
    assert_eq!(get_emc_from_tooltip("EMC: 16,777,217"), Some(16_777_216.0));
    assert_eq!(get_emc_from_tooltip("EMC: 0.1 Million"), Some(0.1f32 * 1_000_000f32));
    assert_eq!(get_emc_from_tooltip("EMC: 1.5 Quintillion (✗)"), Some(1.5e18));
}

#[test]
fn no_word_begins_behind_the_end() {
    let s = chars("ab cd");
    assert!(next_word(&s, 5).is_none());
    assert!(next_word(&s, 99).is_none());
    assert_eq!(next_word(&s, 2).map(|(w, e)| (text(&w), e)), Some(("cd".to_string(), 5)));
    assert_eq!(next_word(&s, 1).map(|(w, e)| (text(&w), e)), Some(("b".to_string(), 2)));
}
