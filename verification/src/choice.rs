//! What the user typed, read as a choice: the command line, the menu entry,
//! the number of a configuration, and the answer to a yes/no question.
use vstd::prelude::*;
use vstd::string::*;
use crate::text::{lowercase_of, to_lowercase, lex_le, lex_le_chars, lemma_lex_total, lemma_lex_transitive, str_eq, to_chars, trim_seq, trim_str};

verus! {

/// Why a text is not a number.
#[derive(Debug, Clone, Copy, PartialEq, Eq, Structural)]
pub enum ParseFailure {
    /// The text is empty.
    Empty,
    /// A character is not a decimal digit.
    InvalidDigit,
    /// The number does not fit in a `usize`.
    Overflow,
}

/// `c` is one of the ASCII digits `0` to `9`.
pub open spec fn is_digit(c: char) -> bool {
    48 <= (c as u32) <= 57
}

/// Every character of `s` is a digit.
pub open spec fn all_digits(s: Seq<char>) -> bool {
    forall|i: int| 0 <= i < s.len() ==> is_digit(#[trigger] s[i])
}

/// The number that the digits `s` write in decimal.
pub open spec fn digits_value(s: Seq<char>) -> int
    decreases s.len(),
{
    if s.len() == 0 {
        0
    } else {
        digits_value(s.drop_last()) * 10 + ((s.last() as u32) - 48)
    }
}

/// Reading the characters `d` from the left as decimal digits, as
/// `usize::from_str` reads them after the sign: the first character that is
/// not a digit, where every number read before it fits, fails with
/// `InvalidDigit`; otherwise a number that does not fit fails with
/// `Overflow`; otherwise the number is the result.
pub open spec fn parse_digits_spec(d: Seq<char>) -> Result<usize, ParseFailure> {
    if exists|k: int|
        0 <= k < d.len() && !is_digit(#[trigger] d[k]) && all_digits(d.take(k)) && digits_value(
            d.take(k),
        ) <= usize::MAX {
        Err(ParseFailure::InvalidDigit)
    } else if all_digits(d) && digits_value(d) <= usize::MAX {
        Ok(digits_value(d) as usize)
    } else {
        Err(ParseFailure::Overflow)
    }
}

/// What `s.parse::<usize>()` gives: an empty text fails with `Empty`; one
/// leading `+` is allowed when digits follow it.
pub open spec fn parse_usize_spec(s: Seq<char>) -> Result<usize, ParseFailure> {
    if s.len() == 0 {
        Err(ParseFailure::Empty)
    } else if s[0] == '+' {
        if s.len() == 1 {
            Err(ParseFailure::InvalidDigit)
        } else {
            parse_digits_spec(s.drop_first())
        }
    } else {
        parse_digits_spec(s)
    }
}

/// The value of digits grows as more of them are read.
proof fn lemma_digits_value_grows(s: Seq<char>, a: int, b: int)
    requires
        all_digits(s.take(b)),
        0 <= a <= b <= s.len(),
    ensures
        0 <= digits_value(s.take(a)) <= digits_value(s.take(b)),
    decreases b,
{
    if b > 0 {
        assert(s.take(b).drop_last() =~= s.take(b - 1));
        assert(is_digit(s.take(b)[b - 1]));
        assert(all_digits(s.take(b - 1))) by {
            assert forall|i: int| 0 <= i < b - 1 implies is_digit(#[trigger] s.take(b - 1)[i]) by {
                assert(s.take(b)[i] == s.take(b - 1)[i]);
            }
        }
        if a < b {
            lemma_digits_value_grows(s, a, b - 1);
        } else {
            lemma_digits_value_grows(s, b - 1, b - 1);
        }
    } else {
        assert(s.take(0).len() == 0);
    }
}

/// Reads decimal digits from `d`, starting at `start`.
fn parse_digits(d: &Vec<char>, start: usize) -> (r: Result<usize, ParseFailure>)
    requires
        start <= d@.len(),
    ensures
        r == parse_digits_spec(d@.skip(start as int)),
{
    let ghost s = d@.skip(start as int);
    let n = d.len();
    let mut acc: usize = 0;
    let mut i: usize = start;
    assert(s.take(0).len() == 0);
    while i < n
        invariant
            s == d@.skip(start as int),
            n == d@.len(),
            start <= i <= n,
            all_digits(s.take(i - start)),
            acc as int == digits_value(s.take(i - start)),
        decreases n - i,
    {
        let ghost k = i - start;
        let c = d[i];
        assert(s[k] == c);
        let u = c as u32;
        if u < 48 || u > 57 {
            assert(!is_digit(s[k]));
            return Err(ParseFailure::InvalidDigit);
        }
        let dv = (u - 48) as usize;
        assert(s.take(k + 1).drop_last() =~= s.take(k));
        assert(all_digits(s.take(k + 1))) by {
            assert forall|j: int| 0 <= j < k + 1 implies is_digit(#[trigger] s.take(k + 1)[j]) by {
                if j < k {
                    assert(s.take(k)[j] == s.take(k + 1)[j]);
                }
            }
        }
        assert(digits_value(s.take(k + 1)) == acc * 10 + dv);
        let m = acc.checked_mul(10);
        let next = match m {
            None => None,
            Some(m) => m.checked_add(dv),
        };
        match next {
            None => {
                proof {
                    assert(digits_value(s.take(k + 1)) > usize::MAX);
                    assert forall|j: int|
                        0 <= j < s.len() && !is_digit(#[trigger] s[j]) && all_digits(s.take(j))
                            implies digits_value(s.take(j)) > usize::MAX by {
                        if j <= k {
                            if j < k {
                                assert(s.take(k)[j] == s[j]);
                            }
                        } else {
                            lemma_digits_value_grows(s, k + 1, j);
                        }
                    }
                    if all_digits(s) {
                        assert(s.take(s.len() as int) =~= s);
                        lemma_digits_value_grows(s, k + 1, s.len() as int);
                    }
                }
                return Err(ParseFailure::Overflow);
            },
            Some(v) => {
                acc = v;
            },
        }
        i = i + 1;
    }
    proof {
        assert(s.take(i - start) =~= s);
        assert forall|j: int| 0 <= j < s.len() implies is_digit(#[trigger] s[j]) by {}
    }
    Ok(acc)
}

/// `s` read as a `usize`, as `s.parse::<usize>()` reads it.
pub fn parse_usize(s: &str) -> (r: Result<usize, ParseFailure>)
    ensures
        r == parse_usize_spec(s@),
{
    let d = to_chars(s);
    if d.len() == 0 {
        return Err(ParseFailure::Empty);
    }
    if d[0] == '+' {
        if d.len() == 1 {
            return Err(ParseFailure::InvalidDigit);
        }
        assert(d@.skip(1) =~= d@.drop_first());
        parse_digits(&d, 1)
    } else {
        assert(d@.skip(0) =~= d@);
        parse_digits(&d, 0)
    }
}

/// Why a typed configuration number was refused.
#[derive(Debug, Clone, Copy, PartialEq, Eq, Structural)]
pub enum ChoiceError {
    /// Nothing but white space was typed.
    Empty,
    /// The text is not a number.
    NotANumber(ParseFailure),
    /// The number is not between 1 and the number of configurations.
    OutOfRange,
}

/// The index into the list of `count` configurations that the typed text
/// `choice` selects: the trimmed text read as a number from 1 to `count`.
pub open spec fn select_config_spec(count: nat, choice: Seq<char>) -> Result<usize, ChoiceError> {
    let t = trim_seq(choice);
    if t.len() == 0 {
        Err(ChoiceError::Empty)
    } else {
        match parse_usize_spec(t) {
            Err(e) => Err(ChoiceError::NotANumber(e)),
            Ok(c) => if 1 <= c <= count {
                Ok((c - 1) as usize)
            } else {
                Err(ChoiceError::OutOfRange)
            },
        }
    }
}

/// The configuration, among `count`, that the user selected by typing `choice`.
pub fn select_config(count: usize, choice: &str) -> (r: Result<usize, ChoiceError>)
    ensures
        r == select_config_spec(count as nat, choice@),
        r matches Ok(i) ==> i < count,
{
    let t = trim_str(choice);
    if t.unicode_len() == 0 {
        return Err(ChoiceError::Empty);
    }
    match parse_usize(t) {
        Err(e) => Err(ChoiceError::NotANumber(e)),
        Ok(c) => {
            if 1 <= c && c <= count {
                Ok(c - 1)
            } else {
                Err(ChoiceError::OutOfRange)
            }
        },
    }
}

/// The texts sorted in the order of `str`'s `Ord`.
pub open spec fn sorted(s: Seq<Seq<char>>) -> bool {
    forall|i: int, j: int| 0 <= i < j < s.len() ==> lex_le(#[trigger] s[i], #[trigger] s[j])
}

/// The configuration names in ascending order, as `Vec::sort` leaves them.
pub fn sort_configs(names: Vec<String>) -> (r: Vec<String>)
    ensures
        sorted(r.deep_view()),
        r.deep_view().to_multiset() == names.deep_view().to_multiset(),
{
    broadcast use vstd::seq_lib::to_multiset_insert;

    let ghost v = names.deep_view();
    let mut out: Vec<String> = Vec::new();
    let mut keys: Vec<Vec<char>> = Vec::new();
    let mut i: usize = 0;
    assert(v.take(0) =~= out.deep_view());
    while i < names.len()
        invariant
            v == names.deep_view(),
            i <= names.len(),
            out@.len() == keys@.len(),
            forall|k: int| 0 <= k < keys@.len() ==> #[trigger] keys@[k]@ == out@[k]@,
            sorted(out.deep_view()),
            out.deep_view().to_multiset() == v.take(i as int).to_multiset(),
        decreases names.len() - i,
    {
        let key = to_chars(names[i].as_str());
        let ghost x = v[i as int];
        assert(key@ == x);
        let mut p: usize = 0;
        while p < keys.len() && lex_le_chars(&keys[p], &key)
            invariant
                out@.len() == keys@.len(),
                forall|k: int| 0 <= k < keys@.len() ==> #[trigger] keys@[k]@ == out@[k]@,
                p <= keys@.len(),
                forall|k: int| 0 <= k < p ==> lex_le(#[trigger] out@[k]@, x),
                key@ == x,
            decreases keys@.len() - p,
        {
            p = p + 1;
        }
        let ghost old_out = out.deep_view();
        proof {
            if p < keys@.len() {
                assert(!lex_le(keys@[p as int]@, x));
                lemma_lex_total(keys@[p as int]@, x);
                assert forall|k: int| p <= k < old_out.len() implies lex_le(x, #[trigger] old_out[k]) by {
                    if k > p {
                        assert(lex_le(old_out[p as int], old_out[k]));
                        lemma_lex_transitive(x, old_out[p as int], old_out[k]);
                    }
                }
            }
        }
        out.insert(p, names[i].clone());
        keys.insert(p, key);
        proof {
            let nv = out.deep_view();
            assert(nv =~= old_out.insert(p as int, x));
            assert forall|a: int, b: int| 0 <= a < b < nv.len() implies lex_le(
                #[trigger] nv[a],
                #[trigger] nv[b],
            ) by {
                if b == p {
                    assert(nv[a] == old_out[a]);
                } else if a == p {
                    assert(nv[b] == old_out[b - 1]);
                } else if b < p {
                    assert(nv[a] == old_out[a] && nv[b] == old_out[b]);
                } else if a < p {
                    assert(nv[a] == old_out[a] && nv[b] == old_out[b - 1]);
                    assert(lex_le(old_out[a], old_out[b - 1]));
                } else {
                    assert(nv[a] == old_out[a - 1] && nv[b] == old_out[b - 1]);
                }
            }
            assert forall|k: int| 0 <= k < keys@.len() implies #[trigger] keys@[k]@ == out@[k]@ by {
                assert(keys@[k]@ == nv[k]);
            }
            assert(v.take(i + 1) =~= v.take(i as int).push(x));
            vstd::seq_lib::to_multiset_build(v.take(i as int), x);
            vstd::seq_lib::to_multiset_insert(old_out, p as int, x);
            assert(nv.to_multiset() == old_out.to_multiset().insert(x));
        }
        i = i + 1;
    }
    assert(v.take(names.len() as int) =~= v);
    out
}

/// An entry of the main menu.
#[derive(Debug, Clone, Copy, PartialEq, Eq, Structural)]
pub enum MenuChoice {
    InstallService,
    RemoveServices,
    CheckStatus,
    AddToPath,
    RemoveFromPath,
    AddDomain,
    Exit,
    /// Any other text: the menu is shown again.
    Unknown,
}

/// The menu entry that the typed line selects, after trimming.
pub open spec fn menu_choice_spec(input: Seq<char>) -> MenuChoice {
    let t = trim_seq(input);
    if t == "1"@ {
        MenuChoice::InstallService
    } else if t == "2"@ {
        MenuChoice::RemoveServices
    } else if t == "3"@ {
        MenuChoice::CheckStatus
    } else if t == "4"@ {
        MenuChoice::AddToPath
    } else if t == "5"@ {
        MenuChoice::RemoveFromPath
    } else if t == "6"@ {
        MenuChoice::AddDomain
    } else if t == "0"@ {
        MenuChoice::Exit
    } else {
        MenuChoice::Unknown
    }
}

/// The menu entry that the typed line `input` selects.
pub fn parse_menu_choice(input: &str) -> (r: MenuChoice)
    ensures
        r == menu_choice_spec(input@),
{
    let t = trim_str(input);
    if str_eq(t, "1") {
        MenuChoice::InstallService
    } else if str_eq(t, "2") {
        MenuChoice::RemoveServices
    } else if str_eq(t, "3") {
        MenuChoice::CheckStatus
    } else if str_eq(t, "4") {
        MenuChoice::AddToPath
    } else if str_eq(t, "5") {
        MenuChoice::RemoveFromPath
    } else if str_eq(t, "6") {
        MenuChoice::AddDomain
    } else if str_eq(t, "0") {
        MenuChoice::Exit
    } else {
        MenuChoice::Unknown
    }
}

/// What the command line asks for.
#[derive(Debug, PartialEq, Eq)]
pub enum Command {
    /// Install the service, from the named configuration file when one is given.
    Install(Option<String>),
    Remove,
    Status,
    /// Add an address or domain to the general list, the one given or one typed.
    Add(Option<String>),
    /// Show the interactive menu.
    Menu,
}

/// The argument after the action, when there is one.
pub open spec fn extra_arg(args: Seq<Seq<char>>) -> Option<Seq<char>> {
    if args.len() > 2 {
        Some(args[2])
    } else {
        None
    }
}

/// The command line `args` (the program's name first) read as a command.
pub fn parse_command(args: &Vec<String>) -> (r: Command)
    ensures
        args.len() <= 1 ==> r == Command::Menu,
        args.len() > 1 ==> {
            let a = args.deep_view();
            if a[1] == "install"@ {
                r matches Command::Install(f) && f.deep_view() == extra_arg(a)
            } else if a[1] == "remove"@ {
                r == Command::Remove
            } else if a[1] == "status"@ {
                r == Command::Status
            } else if a[1] == "add"@ {
                r matches Command::Add(f) && f.deep_view() == extra_arg(a)
            } else {
                r == Command::Menu
            }
        },
{
    if args.len() <= 1 {
        return Command::Menu;
    }
    let action = args[1].as_str();
    let extra = if args.len() > 2 {
        Some(args[2].clone())
    } else {
        None
    };
    if str_eq(action, "install") {
        Command::Install(extra)
    } else if str_eq(action, "remove") {
        Command::Remove
    } else if str_eq(action, "status") {
        Command::Status
    } else if str_eq(action, "add") {
        Command::Add(extra)
    } else {
        Command::Menu
    }
}

/// An answer, already lowercased, that declines: `n` or `no`.
pub open spec fn declines(lowered: Seq<char>) -> bool {
    lowered == "n"@ || lowered == "no"@
}

/// Whether the lowercased answer `lowered` declines.
pub fn is_decline(lowered: &str) -> (r: bool)
    ensures
        r == declines(lowered@),
{
    str_eq(lowered, "n") || str_eq(lowered, "no")
}

/// Whether the typed answer asks to restart the service: any answer but a
/// trimmed `n` or `no`, in any case.
pub fn restart_requested(answer: &str) -> (r: bool)
    ensures
        r == !declines(lowercase_of(trim_seq(answer@))),
{
    let t = trim_str(answer);
    let lowered = to_lowercase(t);
    !is_decline(lowered.as_str())
}


/// A non-empty text of digits, optionally after one `+`, is read as the
/// number it writes when that number fits; a text starting with another
/// non-digit is refused as `InvalidDigit`.
pub proof fn law_parse_usize(s: Seq<char>)
    ensures
        s.len() > 0 && all_digits(s) && digits_value(s) <= usize::MAX ==> parse_usize_spec(s) == Ok::<
            usize,
            ParseFailure,
        >(digits_value(s) as usize),
        s.len() > 1 && s[0] == '+' && all_digits(s.drop_first()) && digits_value(s.drop_first())
            <= usize::MAX ==> parse_usize_spec(s) == Ok::<usize, ParseFailure>(
            digits_value(s.drop_first()) as usize,
        ),
        s.len() > 0 && s[0] != '+' && !is_digit(s[0]) ==> parse_usize_spec(s) == Err::<usize, ParseFailure>(
            ParseFailure::InvalidDigit,
        ),
{
    if s.len() > 0 && all_digits(s) {
        assert(is_digit(s[0]));
    }
    if s.len() > 0 && s[0] != '+' && !is_digit(s[0]) {
        assert(s.take(0).len() == 0);
        assert(digits_value(s.take(0)) == 0);
        assert(all_digits(s.take(0)));
    }
}

/// A typed number from 1 to the count of configurations, with white space
/// around it, selects the configuration at that position; 0 or a number
/// above the count is out of range; an answer of only white space is empty.
pub proof fn law_select_config(count: nat, choice: Seq<char>)
    ensures
        ({
            let t = trim_seq(choice);
            &&& t.len() == 0 <==> select_config_spec(count, choice) == Err::<usize, ChoiceError>(
                ChoiceError::Empty,
            )
            &&& t.len() > 0 && all_digits(t) && 1 <= digits_value(t) <= count && digits_value(t)
                <= usize::MAX ==> select_config_spec(count, choice) == Ok::<usize, ChoiceError>(
                (digits_value(t) - 1) as usize,
            )
            &&& t.len() > 0 && all_digits(t) && digits_value(t) <= usize::MAX && (digits_value(t)
                == 0 || digits_value(t) > count) ==> select_config_spec(count, choice) == Err::<
                usize,
                ChoiceError,
            >(ChoiceError::OutOfRange)
        }),
{
    law_parse_usize(trim_seq(choice));
}

} // verus!
