use amata::wrap::{split_paragraphs, LineWrap};

/// Every character one unit wide; at most `max` units per line.
fn wrap_units(text: &str, max: usize) -> Vec<String> {
    let mut out = Vec::new();
    for p in split_paragraphs(text) {
        let mut w = LineWrap::new(p);
        let mut used = 0usize;
        while w.current().is_some() {
            if used + 1 > max && !w.at_line_start() {
                w.break_line();
                used = 0;
            } else {
                used += 1;
                w.advance();
            }
        }
        out.extend(w.finish());
    }
    out
}

#[test]
fn paragraphs_split_on_every_newline() {
    let ps = split_paragraphs("a\n\nbc");
    assert_eq!(ps, vec![vec!['a'], vec![], vec!['b', 'c']]);
    assert_eq!(split_paragraphs(""), vec![Vec::<char>::new()]);
    assert_eq!(split_paragraphs("x\n"), vec![vec!['x'], vec![]]);
}

#[test]
fn western_text_breaks_after_the_last_space() {
    assert_eq!(wrap_units("hello world", 7), vec!["hello ", "world"]);
}

#[test]
fn opening_mark_moves_to_the_next_line() {
    assert_eq!(wrap_units("abc(def", 4), vec!["abc", "(def"]);
}

#[test]
fn closing_mark_stays_on_its_line() {
    assert_eq!(wrap_units("abcd。ef", 4), vec!["abcd。", "ef"]);
}

#[test]
fn cjk_breaks_between_characters() {
    assert_eq!(wrap_units("あい「うえお", 3), vec!["あい", "「うえ", "お"]);
}

#[test]
fn hard_breaks_always_start_a_line() {
    assert_eq!(wrap_units("ab\ncd", 10), vec!["ab", "cd"]);
    assert_eq!(wrap_units("", 10), vec![""]);
}

#[test]
fn a_single_overlong_character_still_takes_a_line() {
    assert_eq!(wrap_units("abc", 0), vec!["a", "b", "c"]);
}
