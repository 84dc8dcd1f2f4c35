//! Decisions of the terminal interface: which inputs are valid, and what each does.
use vstd::prelude::*;
use crate::client::ItemInterface;
use crate::ids::{parse_uuid, parsed_uuid};

verus! {

/// Largest quantity a new item may be given.
pub const UPPER_ITEM_COUNT_LIMIT: usize = 1000000;

pub open spec fn is_digit(c: char) -> bool {
    '0' <= c && c <= '9'
}

pub open spec fn is_ascii_alphabetic(c: char) -> bool {
    ('a' <= c && c <= 'z') || ('A' <= c && c <= 'Z')
}

/// Value of a sequence of decimal digits.
pub open spec fn digits_value(s: Seq<char>) -> nat
    decreases s.len(),
{
    if s.len() == 0 {
        0
    } else {
        digits_value(s.drop_last()) * 10 + (s.last() as nat - 48) as nat
    }
}

pub open spec fn all_digits(s: Seq<char>) -> bool {
    forall|i: int| 0 <= i < s.len() ==> is_digit(#[trigger] s[i])
}

/// The number that Rust's `usize` parsing reads from `s`: decimal digits, at least
/// one, after an optional `+`, with a value that fits in a `usize`.
pub open spec fn usize_value(s: Seq<char>) -> Option<usize> {
    let t = if s.len() > 0 && s[0] == '+' {
        s.drop_first()
    } else {
        s
    };
    if t.len() > 0 && all_digits(t) && digits_value(t) <= usize::MAX {
        Some(digits_value(t) as usize)
    } else {
        None
    }
}

/// The characters of `s`.
pub fn chars_of(s: &str) -> (r: Vec<char>)
    ensures
        r@ == s@,
{
    broadcast use vstd::string::axiom_spec_iter;

    let mut r: Vec<char> = Vec::new();
    for c in it: s.chars()
        invariant
            it.seq() == s@,
            r@ == s@.take(it.index() as int),
            it.index() == it.seq().len() ==> r@ == s@,
    {
        proof {
            assert(s@[it.index() as int] == c);
        }
        r.push(c);
        proof {
            assert(s@.take(it.index() + 1) =~= s@.take(it.index() as int).push(c));
            if it.index() + 1 == s@.len() {
                assert(s@.take(it.index() + 1) =~= s@);
            }
        }
    }
    r
}

/// Reads `s[from..]` as Rust reads a `usize`.
fn parse_usize_from(s: &Vec<char>, from: usize) -> (r: Option<usize>)
    requires
        from <= s.len(),
    ensures
        r == usize_value(s@.skip(from as int)),
{
    let ghost whole = s@.skip(from as int);
    let mut start = from;
    if start < s.len() && s[start] == '+' {
        start = start + 1;
    }
    let ghost t = s@.skip(start as int);
    proof {
        if from < s.len() && s@[from as int] == '+' {
            assert(t =~= whole.drop_first());
        } else {
            assert(t =~= whole);
        }
    }
    if start == s.len() {
        return None;
    }
    let mut value: usize = 0;
    let mut overflow = false;
    let mut i = start;
    proof {
        assert(s@.subrange(start as int, start as int) =~= Seq::<char>::empty());
    }
    while i < s.len()
        invariant
            start <= i <= s.len(),
            t == s@.skip(start as int),
            whole == s@.skip(from as int),
            (whole.len() > 0 && whole[0] == '+' && t == whole.drop_first()) || (!(whole.len() > 0
                && whole[0] == '+') && t == whole),
            all_digits(s@.subrange(start as int, i as int)),
            !overflow ==> value == digits_value(s@.subrange(start as int, i as int)),
            overflow ==> digits_value(s@.subrange(start as int, i as int)) > usize::MAX,
        decreases s.len() - i,
    {
        let c = s[i];
        if !('0' <= c && c <= '9') {
            proof {
                assert(t[i - start] == c);
                assert(!is_digit(t[i - start]));
            }
            return None;
        }
        proof {
            assert(s@.subrange(start as int, i + 1).drop_last() =~= s@.subrange(start as int, i as int));
            assert(s@.subrange(start as int, i + 1).last() == c);
            assert forall|j: int| 0 <= j < s@.subrange(start as int, i + 1).len() implies is_digit(
                #[trigger] s@.subrange(start as int, i + 1)[j],
            ) by {
                if j < i - start {
                    assert(s@.subrange(start as int, i + 1)[j] == s@.subrange(start as int, i as int)[j]);
                }
            }
        }
        let d = (c as u32 - 48) as usize;
        if !overflow {
            match value.checked_mul(10) {
                Some(v) => match v.checked_add(d) {
                    Some(w) => {
                        value = w;
                    },
                    None => {
                        overflow = true;
                    },
                },
                None => {
                    overflow = true;
                    proof {
                        assert(digits_value(s@.subrange(start as int, i + 1)) >= value * 10);
                    }
                },
            }
        } else {
            proof {
                let p = digits_value(s@.subrange(start as int, i as int));
                assert(p * 10 >= p) by (nonlinear_arith)
                    requires
                        p >= 0,
                ;
            }
        }
        i = i + 1;
    }
    proof {
        assert(s@.subrange(start as int, s@.len() as int) =~= t);
    }
    if overflow {
        None
    } else {
        Some(value)
    }
}

/// Reads `s` as Rust reads a `usize`.
pub fn parse_usize(s: &str) -> (r: Option<usize>)
    ensures
        r == usize_value(s@),
{
    let cs = chars_of(s);
    proof {
        assert(cs@.skip(0) =~= cs@);
    }
    parse_usize_from(&cs, 0)
}

/// Whether `s` is exactly `lit`.
fn text_is(s: &str, lit: &str) -> (r: bool)
    ensures
        r == (s@ == lit@),
{
    let a: String = s.to_owned();
    let b: String = lit.to_owned();
    a == b
}

/// Checks on free text.
pub enum TextRule {
    /// Every character is an ASCII letter.
    AsciiAlphabetic,
    /// `a` followed by one or more decimal digits.
    AmountCommand,
}

/// A way in which an input line may be valid.
pub enum InputRule {
    AcceptStrings(Vec<String>),
    AcceptNumberRange { low: usize, high: usize },
    Custom(TextRule),
}

pub open spec fn text_rule_accepts(rule: TextRule, s: Seq<char>) -> bool {
    match rule {
        TextRule::AsciiAlphabetic => forall|i: int| 0 <= i < s.len() ==> is_ascii_alphabetic(
            #[trigger] s[i],
        ),
        TextRule::AmountCommand => s.len() > 1 && s[0] == 'a' && all_digits(s.drop_first()),
    }
}

pub open spec fn rule_accepts(rule: InputRule, s: Seq<char>) -> bool {
    match rule {
        InputRule::AcceptStrings(list) => exists|i: int| 0 <= i < list.len() && (#[trigger] list@[i])@ == s,
        InputRule::AcceptNumberRange { low, high } => match usize_value(s) {
            Some(n) => low <= n && n <= high,
            None => false,
        },
        InputRule::Custom(t) => text_rule_accepts(t, s),
    }
}

fn text_rule_check(rule: &TextRule, s: &Vec<char>) -> (r: bool)
    ensures
        r == text_rule_accepts(*rule, s@),
{
    match rule {
        TextRule::AsciiAlphabetic => {
            let mut i: usize = 0;
            while i < s.len()
                invariant
                    *rule == TextRule::AsciiAlphabetic,
                    i <= s.len(),
                    forall|j: int| 0 <= j < i ==> is_ascii_alphabetic(#[trigger] s@[j]),
                decreases s.len() - i,
            {
                let c = s[i];
                if !(('a' <= c && c <= 'z') || ('A' <= c && c <= 'Z')) {
                    proof {
                        assert(!is_ascii_alphabetic(s@[i as int]));
                    }
                    return false;
                }
                i = i + 1;
            }
            true
        },
        TextRule::AmountCommand => {
            if s.len() <= 1 || s[0] != 'a' {
                return false;
            }
            let mut i: usize = 1;
            while i < s.len()
                invariant
                    *rule == TextRule::AmountCommand,
                    s@.len() > 1 && s@[0] == 'a',
                    1 <= i <= s.len(),
                    forall|j: int| 1 <= j < i ==> is_digit(#[trigger] s@[j]),
                decreases s.len() - i,
            {
                let c = s[i];
                if !('0' <= c && c <= '9') {
                    proof {
                        assert(s@.drop_first()[i - 1] == c);
                        assert(!is_digit(s@.drop_first()[i - 1]));
                    }
                    return false;
                }
                i = i + 1;
            }
            proof {
                assert forall|j: int| 0 <= j < s@.drop_first().len() implies is_digit(
                    #[trigger] s@.drop_first()[j],
                ) by {
                    assert(s@.drop_first()[j] == s@[j + 1]);
                }
            }
            true
        },
    }
}

/// Whether any rule accepts `input`.
pub fn is_valid(input: &str, rules: &Vec<InputRule>) -> (r: bool)
    ensures
        r == exists|i: int| 0 <= i < rules.len() && rule_accepts(#[trigger] rules@[i], input@),
{
    let cs = chars_of(input);
    let mut i: usize = 0;
    while i < rules.len()
        invariant
            i <= rules.len(),
            cs@ == input@,
            forall|j: int| 0 <= j < i ==> !rule_accepts(#[trigger] rules@[j], input@),
        decreases rules.len() - i,
    {
        let ok = match &rules[i] {
            InputRule::AcceptStrings(list) => {
                let mut found = false;
                let mut j: usize = 0;
                while j < list.len()
                    invariant
                        j <= list.len(),
                        found ==> exists|x: int| 0 <= x < list.len() && (#[trigger] list@[x])@ == input@,
                        !found ==> forall|x: int| 0 <= x < j ==> (#[trigger] list@[x])@ != input@,
                    decreases list.len() - j,
                {
                    if text_is(list[j].as_str(), input) {
                        found = true;
                    }
                    j = j + 1;
                }
                found
            },
            InputRule::AcceptNumberRange { low, high } => {
                proof {
                    assert(cs@.skip(0) =~= cs@);
                }
                match parse_usize_from(&cs, 0) {
                    Some(n) => *low <= n && n <= *high,
                    None => false,
                }
            },
            InputRule::Custom(t) => text_rule_check(t, &cs),
        };
        if ok {
            return true;
        }
        i = i + 1;
    }
    false
}

/// The screens of the interface.
pub enum Screen {
    ListCreate(u128),
    /// Asks for the id of a list to open.
    OpenList,
    ListEdit(u128),
    MainMenu,
    Exit,
    ItemEdit(u128, ItemInterface),
}

/// What to tell the user after an input.
#[derive(PartialEq, Eq, Structural)]
pub enum Notice {
    Nothing,
    InvalidSelection,
    UnknownCommand,
    InvalidAmount,
    /// The input is printed back as invalid.
    InvalidInput,
    /// The input is printed back as invalid, twice.
    InvalidInputTwice,
    /// The input is not a list id.
    InvalidListId,
}

/// Work the interface must do for an input.
pub enum Command {
    Nothing,
    /// Ask the user for a new item, then store it.
    BuildItem,
    /// Store the item with this quantity and flag.
    StoreItem { name: String, amount: u64, acquired: bool },
}

/// Main menu: `q` quits, `c` creates the list `fresh_list_id`, `a` asks for the id
/// of a list to open, and a number opens that list (counting from one).
pub fn handle_main_menu(input: &str, lists: &Vec<u128>, fresh_list_id: u128) -> (r: (Screen, Notice))
    ensures
        input@ == "q"@ ==> r.0 == Screen::Exit && r.1 == Notice::Nothing,
        input@ == "c"@ ==> r.0 == Screen::ListCreate(fresh_list_id) && r.1 == Notice::Nothing,
        input@ == "a"@ ==> r.0 == Screen::OpenList && r.1 == Notice::Nothing,
        input@ != "q"@ && input@ != "c"@ && input@ != "a"@ ==> match usize_value(input@) {
            Some(n) => if 1 <= n && n <= lists.len() {
                r.0 == Screen::ListEdit(lists@[n - 1]) && r.1 == Notice::Nothing
            } else {
                r.0 == Screen::MainMenu && r.1 == Notice::InvalidSelection
            },
            None => r.0 == Screen::MainMenu && r.1 == Notice::UnknownCommand,
        },
{
    proof {
        reveal_strlit("q");
        reveal_strlit("c");
        reveal_strlit("a");
    }
    if text_is(input, "q") {
        return (Screen::Exit, Notice::Nothing);
    }
    if text_is(input, "c") {
        return (Screen::ListCreate(fresh_list_id), Notice::Nothing);
    }
    if text_is(input, "a") {
        return (Screen::OpenList, Notice::Nothing);
    }
    match parse_usize(input) {
        Some(selection) => {
            if selection >= 1 && selection - 1 < lists.len() {
                (Screen::ListEdit(lists[selection - 1]), Notice::Nothing)
            } else {
                (Screen::MainMenu, Notice::InvalidSelection)
            }
        },
        None => (Screen::MainMenu, Notice::UnknownCommand),
    }
}

/// Opening a list by id: a UUID opens that list; anything else goes back to the
/// main menu.
pub fn open_list_by_id(input: &str) -> (r: (Screen, Notice))
    ensures
        match parsed_uuid(input@) {
            Some(id) => r.0 == Screen::ListEdit(id) && r.1 == Notice::Nothing,
            None => r.0 == Screen::MainMenu && r.1 == Notice::InvalidListId,
        },
{
    match parse_uuid(input) {
        Some(id) => (Screen::ListEdit(id), Notice::Nothing),
        None => (Screen::MainMenu, Notice::InvalidListId),
    }
}

/// List view: `q` quits, `b` goes back, `a` adds an item, `r` shows the list again
/// (fetching and merging the servers' copy), and a number edits that item (counting
/// from one).
pub fn handle_list_edit(input: &str, items: &Vec<ItemInterface>, list_id: u128) -> (r: (
    Screen,
    Command,
    Notice,
))
    ensures
        input@ == "q"@ ==> r.0 == Screen::Exit && r.1 == Command::Nothing && r.2 == Notice::Nothing,
        input@ == "b"@ ==> r.0 == Screen::MainMenu && r.1 == Command::Nothing && r.2
            == Notice::Nothing,
        input@ == "a"@ ==> r.0 == Screen::ListEdit(list_id) && r.1 == Command::BuildItem && r.2
            == Notice::Nothing,
        input@ == "r"@ ==> r.0 == Screen::ListEdit(list_id) && r.1 == Command::Nothing && r.2
            == Notice::Nothing,
        input@ != "q"@ && input@ != "b"@ && input@ != "a"@ && input@ != "r"@ ==> r.1
            == Command::Nothing && match usize_value(input@) {
            Some(n) => if 1 <= n && n <= items.len() {
                r.0 == Screen::ItemEdit(list_id, items@[n - 1]) && r.2 == Notice::Nothing
            } else {
                r.0 == Screen::MainMenu && r.2 == Notice::InvalidSelection
            },
            None => r.0 == Screen::MainMenu && r.2 == Notice::UnknownCommand,
        },
{
    proof {
        reveal_strlit("q");
        reveal_strlit("a");
        reveal_strlit("b");
        reveal_strlit("r");
    }
    if text_is(input, "q") {
        return (Screen::Exit, Command::Nothing, Notice::Nothing);
    }
    if text_is(input, "b") {
        return (Screen::MainMenu, Command::Nothing, Notice::Nothing);
    }
    if text_is(input, "a") {
        return (Screen::ListEdit(list_id), Command::BuildItem, Notice::Nothing);
    }
    if text_is(input, "r") {
        return (Screen::ListEdit(list_id), Command::Nothing, Notice::Nothing);
    }
    match parse_usize(input) {
        Some(selection) => {
            if selection >= 1 && selection - 1 < items.len() {
                let chosen = items[selection - 1].clone();
                (Screen::ItemEdit(list_id, chosen), Command::Nothing, Notice::Nothing)
            } else {
                (Screen::MainMenu, Command::Nothing, Notice::InvalidSelection)
            }
        },
        None => (Screen::MainMenu, Command::Nothing, Notice::UnknownCommand),
    }
}

/// Item view: `q` quits, `b` goes back, `d` toggles the acquired flag, and `a<n>`
/// sets the quantity to `n`, which must be at least one.
pub fn handle_item_edit(input: &str, item: ItemInterface, list_id: u128) -> (r: (
    Screen,
    Command,
    Notice,
))
    ensures
        input@ == "q"@ ==> r.0 == Screen::Exit && r.1 == Command::Nothing && r.2 == Notice::Nothing,
        input@ == "b"@ ==> r.0 == Screen::ListEdit(list_id) && r.1 == Command::Nothing && r.2
            == Notice::Nothing,
        input@ == "d"@ ==> r.0 == Screen::ListEdit(list_id) && r.1 == (Command::StoreItem {
            name: item.name,
            amount: item.amount,
            acquired: !item.acquired,
        }) && r.2 == Notice::Nothing,
        input@ != "q"@ && input@ != "b"@ && input@ != "d"@ ==> if input@.len() > 0 && input@[0]
            == 'a' {
            match usize_value(input@.skip(1)) {
                Some(n) => if n < 1 {
                    r.0 == Screen::ListEdit(list_id) && r.1 == Command::Nothing && r.2
                        == Notice::InvalidAmount
                } else {
                    r.0 == Screen::ListEdit(list_id) && r.1 == (Command::StoreItem {
                        name: item.name,
                        amount: n as u64,
                        acquired: item.acquired,
                    }) && r.2 == Notice::Nothing
                },
                None => r.0 == Screen::MainMenu && r.1 == Command::Nothing && r.2
                    == Notice::InvalidInputTwice,
            }
        } else {
            r.0 == Screen::MainMenu && r.1 == Command::Nothing && r.2 == Notice::InvalidInput
        },
{
    proof {
        reveal_strlit("q");
        reveal_strlit("b");
        reveal_strlit("d");
        assert("q"@[0] != "b"@[0]);
        assert("q"@ != "b"@);
        assert("q"@ != "d"@);
        assert("b"@ != "d"@);
    }
    if text_is(input, "q") {
        return (Screen::Exit, Command::Nothing, Notice::Nothing);
    }
    if text_is(input, "b") {
        return (Screen::ListEdit(list_id), Command::Nothing, Notice::Nothing);
    }
    if text_is(input, "d") {
        let acquired = !item.acquired;
        return (
            Screen::ListEdit(list_id),
            Command::StoreItem { name: item.name, amount: item.amount, acquired },
            Notice::Nothing,
        );
    }
    let cs = chars_of(input);
    if cs.len() > 0 && cs[0] == 'a' {
        match parse_usize_from(&cs, 1) {
            Some(amount) => {
                if amount < 1 {
                    return (Screen::ListEdit(list_id), Command::Nothing, Notice::InvalidAmount);
                }
                return (
                    Screen::ListEdit(list_id),
                    Command::StoreItem { name: item.name, amount: amount as u64, acquired: item.acquired },
                    Notice::Nothing,
                );
            },
            None => {
                return (Screen::MainMenu, Command::Nothing, Notice::InvalidInputTwice);
            },
        }
    }
    (Screen::MainMenu, Command::Nothing, Notice::InvalidInput)
}

} // verus!
