use sdle::cli::{
    handle_item_edit, handle_list_edit, handle_main_menu, is_valid, open_list_by_id, parse_usize,
    Command, InputRule, Notice, Screen, TextRule,
};
use sdle::client::ItemInterface;

fn words(ws: &[&str]) -> InputRule {
    InputRule::AcceptStrings(ws.iter().map(|w| w.to_string()).collect())
}

fn milk() -> ItemInterface {
    ItemInterface { name: "milk".to_string(), amount: 2, acquired: false }
}

#[test]
fn parse_usize_reads_decimal_numbers() {
    assert_eq!(parse_usize("42"), Some(42));
    assert_eq!(parse_usize("+7"), Some(7));
    assert_eq!(parse_usize("007"), Some(7));
    assert_eq!(parse_usize(""), None);
    assert_eq!(parse_usize("+"), None);
    assert_eq!(parse_usize("4a"), None);
    assert_eq!(parse_usize("-1"), None);
    assert_eq!(parse_usize("18446744073709551615"), Some(usize::MAX));
    assert_eq!(parse_usize("18446744073709551616"), None);
}

#[test]
fn is_valid_accepts_listed_words_and_ranges() {
    let rules = vec![words(&["a", "q"]), InputRule::AcceptNumberRange { low: 1, high: 3 }];
    assert!(is_valid("q", &rules));
    assert!(is_valid("a", &rules));
    assert!(is_valid("3", &rules));
    assert!(!is_valid("4", &rules));
    assert!(!is_valid("0", &rules));
    assert!(!is_valid("b", &rules));
    assert!(!is_valid("", &vec![]));
}

#[test]
fn is_valid_custom_rules() {
    let names = vec![InputRule::Custom(TextRule::AsciiAlphabetic)];
    assert!(is_valid("Bread", &names));
    assert!(is_valid("", &names));
    assert!(!is_valid("bread2", &names));
    let amounts = vec![InputRule::Custom(TextRule::AmountCommand)];
    assert!(is_valid("a12", &amounts));
    assert!(!is_valid("a", &amounts));
    assert!(!is_valid("a1x", &amounts));
    assert!(!is_valid("b12", &amounts));
}

#[test]
fn main_menu_decisions() {
    let lists = vec![10u128, 20u128];
    let (s, n) = handle_main_menu("q", &lists, 99);
    assert!(matches!(s, Screen::Exit) && n == Notice::Nothing);
    let (s, n) = handle_main_menu("c", &lists, 99);
    assert!(matches!(s, Screen::ListCreate(99)) && n == Notice::Nothing);
    let (s, n) = handle_main_menu("a", &lists, 99);
    assert!(matches!(s, Screen::OpenList) && n == Notice::Nothing);
    let (s, n) = handle_main_menu("2", &lists, 99);
    assert!(matches!(s, Screen::ListEdit(20)) && n == Notice::Nothing);
    let (s, n) = handle_main_menu("3", &lists, 99);
    assert!(matches!(s, Screen::MainMenu) && n == Notice::InvalidSelection);
    let (s, n) = handle_main_menu("0", &lists, 99);
    assert!(matches!(s, Screen::MainMenu) && n == Notice::InvalidSelection);
    let (s, n) = handle_main_menu("x", &lists, 99);
    assert!(matches!(s, Screen::MainMenu) && n == Notice::UnknownCommand);
}

#[test]
fn list_edit_decisions() {
    let items = vec![milk()];
    let (s, c, _) = handle_list_edit("q", &items, 5);
    assert!(matches!(s, Screen::Exit) && matches!(c, Command::Nothing));
    let (s, c, _) = handle_list_edit("b", &items, 5);
    assert!(matches!(s, Screen::MainMenu) && matches!(c, Command::Nothing));
    let (s, c, _) = handle_list_edit("a", &items, 5);
    assert!(matches!(s, Screen::ListEdit(5)) && matches!(c, Command::BuildItem));
    let (s, c, n) = handle_list_edit("r", &items, 5);
    assert!(matches!(s, Screen::ListEdit(5)) && matches!(c, Command::Nothing) && n == Notice::Nothing);
    let (s, c, n) = handle_list_edit("d", &items, 5);
    assert!(matches!(s, Screen::MainMenu) && matches!(c, Command::Nothing) && n == Notice::UnknownCommand);
    let (s, c, n) = handle_list_edit("1", &items, 5);
    match s {
        Screen::ItemEdit(5, it) => assert_eq!((it.name.as_str(), it.amount, it.acquired), ("milk", 2, false)),
        _ => panic!("expected the item editor"),
    }
    assert!(matches!(c, Command::Nothing) && n == Notice::Nothing);
    let (s, _, n) = handle_list_edit("2", &items, 5);
    assert!(matches!(s, Screen::MainMenu) && n == Notice::InvalidSelection);
    let (s, _, n) = handle_list_edit("zz", &items, 5);
    assert!(matches!(s, Screen::MainMenu) && n == Notice::UnknownCommand);
}

#[test]
fn item_edit_decisions() {
    let (s, c, n) = handle_item_edit("d", milk(), 5);
    assert!(matches!(s, Screen::ListEdit(5)) && n == Notice::Nothing);
    match c {
        Command::StoreItem { name, amount, acquired } => assert_eq!((name.as_str(), amount, acquired), ("milk", 2, true)),
        _ => panic!("expected a store command"),
    }
    let (s, c, n) = handle_item_edit("a7", milk(), 5);
    assert!(matches!(s, Screen::ListEdit(5)) && n == Notice::Nothing);
    match c {
        Command::StoreItem { name, amount, acquired } => assert_eq!((name.as_str(), amount, acquired), ("milk", 7, false)),
        _ => panic!("expected a store command"),
    }
    let (s, c, n) = handle_item_edit("a0", milk(), 5);
    assert!(matches!(s, Screen::ListEdit(5)) && matches!(c, Command::Nothing) && n == Notice::InvalidAmount);
    let (s, c, n) = handle_item_edit("ax", milk(), 5);
    assert!(matches!(s, Screen::MainMenu) && matches!(c, Command::Nothing) && n == Notice::InvalidInputTwice);
    let (s, c, n) = handle_item_edit("zz", milk(), 5);
    assert!(matches!(s, Screen::MainMenu) && matches!(c, Command::Nothing) && n == Notice::InvalidInput);
    let (s, _, _) = handle_item_edit("b", milk(), 5);
    assert!(matches!(s, Screen::ListEdit(5)));
    let (s, _, _) = handle_item_edit("q", milk(), 5);
    assert!(matches!(s, Screen::Exit));
}

#[test]
fn opening_a_list_by_id() {
    let (s, n) = open_list_by_id("67e55044-10b1-426f-9247-bb680e5fe0c8");
    assert!(matches!(s, Screen::ListEdit(0x67e55044_10b1_426f_9247_bb680e5fe0c8)) && n == Notice::Nothing);
    let (s, n) = open_list_by_id("groceries");
    assert!(matches!(s, Screen::MainMenu) && n == Notice::InvalidListId);
}
