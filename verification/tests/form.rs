use bellwright_gold_editor::error::Error;
use bellwright_gold_editor::form::{backup_name, parse_amount, read_form, saved_message, EditRequest};

const GOLD_MSG: &str = "Gold: enter a whole number ≥ 0.";
const RENOWN_MSG: &str = "Renown: enter both the current (in-game) and new value as whole numbers ≥ 0.";

#[test]
fn parse_amount_accepts_plain_decimals() {
    assert_eq!(parse_amount("42"), Some(42));
    assert_eq!(parse_amount("+5"), Some(5));
    assert_eq!(parse_amount("007"), Some(7));
    assert_eq!(parse_amount("18446744073709551615"), Some(u64::MAX));
    assert_eq!(parse_amount("18446744073709551616"), None);
    assert_eq!(parse_amount(""), None);
    assert_eq!(parse_amount("+"), None);
    assert_eq!(parse_amount("-1"), None);
    assert_eq!(parse_amount(" 5"), None);
    assert_eq!(parse_amount("1_000"), None);
}

#[test]
fn read_form_gold_only() {
    assert_eq!(read_form(" 2000 ", "", ""), Ok(EditRequest { gold: 2000, renown: None }));
    assert_eq!(read_form("7", "  ", "\t"), Ok(EditRequest { gold: 7, renown: None }));
}

#[test]
fn read_form_with_renown() {
    assert_eq!(
        read_form("5", " 2188", "50000 "),
        Ok(EditRequest { gold: 5, renown: Some((2188, 50000)) })
    );
}

#[test]
fn read_form_rejects_bad_gold() {
    assert_eq!(read_form("abc", "", ""), Err(GOLD_MSG.to_string()));
    assert_eq!(read_form("-3", "1", "2"), Err(GOLD_MSG.to_string()));
    assert_eq!(read_form("", "", ""), Err(GOLD_MSG.to_string()));
}

#[test]
fn read_form_rejects_half_a_renown() {
    assert_eq!(read_form("5", "2188", ""), Err(RENOWN_MSG.to_string()));
    assert_eq!(read_form("5", "", "300"), Err(RENOWN_MSG.to_string()));
    assert_eq!(read_form("5", "x", "300"), Err(RENOWN_MSG.to_string()));
}

#[test]
fn saved_message_names_the_new_values() {
    assert_eq!(
        saved_message(EditRequest { gold: 2000, renown: None }),
        "Saved. Gold set to 2000. Backup at <file>.bak."
    );
    assert_eq!(
        saved_message(EditRequest { gold: 20000, renown: Some((2188, 50000)) }),
        "Saved. Gold set to 20000, renown to 50000. Backup at <file>.bak."
    );
}

#[test]
fn backup_name_appends_bak() {
    assert_eq!(backup_name("Klint_1.sav"), "Klint_1.sav.bak");
    assert_eq!(backup_name("Klint_1"), "Klint_1.bak");
    assert_eq!(backup_name("a.b.dat"), "a.b.dat.bak");
}

#[test]
fn error_messages() {
    assert_eq!(Error::Io("gone".to_string()).message(), "File error: gone");
    assert_eq!(
        Error::BadFile("missing VSWB magic".to_string()).message(),
        "Not a recognizable Bellwright save: missing VSWB magic"
    );
    assert_eq!(Error::Decompress("x".to_string()).message(), "Decompression failed: x");
    assert_eq!(Error::GoldNotFound(0).message(), "Could not locate the gold field in this save.");
    assert_eq!(
        Error::GoldNotFound(3).message(),
        "Ambiguous: found 3 possible gold fields; refusing to edit."
    );
    assert_eq!(Error::RenownNotFound(0).message(), "Could not locate the renown field in this save.");
    assert_eq!(
        Error::RenownNotFound(12).message(),
        "Ambiguous: found 12 possible renown fields; refusing to edit."
    );
    assert_eq!(Error::ParseError("p".to_string()).message(), "Save structure error: p");
    assert_eq!(Error::TooLarge("t".to_string()).message(), "Unsupported edit: t");
}

#[test]
fn read_form_trims_unicode_white_space() {
    assert_eq!(read_form("\u{3000}5\u{a0}", "\u{2028}", " "), Ok(EditRequest { gold: 5, renown: None }));
    assert_eq!(read_form("5\u{200b}", "", ""), Err(GOLD_MSG.to_string()));
}
