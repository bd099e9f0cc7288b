use kepub::sentences::{is_break_ws, split_sentences};

#[test]
fn single_fragment_without_terminators() {
    assert_eq!(split_sentences("just some words"), vec!["just some words"]);
}

#[test]
fn empty_text_yields_nothing() {
    assert!(split_sentences("").is_empty());
}

#[test]
fn splits_on_sentence_boundaries() {
    let frags = split_sentences("One. Two! Three?  Four");
    assert_eq!(frags, vec!["One. ", "Two! ", "Three?  ", "Four"]);
    assert_eq!(frags.concat(), "One. Two! Three?  Four");
}

#[test]
fn keeps_closing_quote_with_the_sentence() {
    let frags = split_sentences("\u{201C}Stop!\u{201D} She ran.");
    assert_eq!(frags, vec!["\u{201C}Stop!\u{201D} ", "She ran."]);
}

#[test]
fn does_not_split_without_trailing_whitespace() {
    assert_eq!(split_sentences("file.txt here"), vec!["file.txt here"]);
}

#[test]
fn fragments_rejoin_to_the_text() {
    for text in [
        "A. B.",
        "  leading space. then more",
        "Wait... what?! Yes.\u{201D}  Done",
        "no break.here",
        "\u{2026} ellipsis\u{2026} end",
    ] {
        let frags = split_sentences(text);
        assert_eq!(frags.concat(), text);
        assert!(frags.iter().all(|f| !f.is_empty()));
    }
}

#[test]
fn break_whitespace_excludes_non_breaking_space() {
    assert!(is_break_ws(' '));
    assert!(is_break_ws('\n'));
    assert!(!is_break_ws('\u{00A0}'));
    assert!(!is_break_ws('x'));
    assert_eq!(split_sentences("One.\u{00A0}Two."), vec!["One.\u{00A0}Two."]);
}

#[test]
fn runs_of_terminators_and_closers_stay_together() {
    assert_eq!(split_sentences("Really?!\" Yes."), vec!["Really?!\" ", "Yes."]);
    assert_eq!(split_sentences("End.)  Next"), vec!["End.)  Next"]);
}
