//! Generation numbers and the names of generation directories.

use crate::listing::{entry_models, DirEntry, EntryModel};
use crate::path::{is_name, text_of, Path, PathModel};
use vstd::prelude::*;
use vstd::string::*;

verus! {

/// The width to which the name of a generation directory is padded.
pub const GENERATION_WIDTH: usize = 16;

/// Whether `c` is a decimal digit.
pub open spec fn is_digit(c: char) -> bool {
    '0' <= c <= '9'
}

/// The value of the decimal digit `c`.
pub open spec fn digit_value(c: char) -> nat {
    (c as int - '0' as int) as nat
}

/// The character of the decimal digit with value `d`.
pub open spec fn digit_char(d: nat) -> char {
    ('0' as int + d) as char
}

/// Whether `text` holds decimal digits only.
pub open spec fn all_digits(text: Seq<char>) -> bool {
    forall|i: int| 0 <= i < text.len() ==> is_digit(#[trigger] text[i])
}

/// The number that the decimal digits `digits` denote.
pub open spec fn decimal_value(digits: Seq<char>) -> nat
    decreases digits.len(),
{
    if digits.len() == 0 {
        0
    } else {
        decimal_value(digits.drop_last()) * 10 + digit_value(digits.last())
    }
}

/// `text` without a leading plus sign.
pub open spec fn unsigned_part(text: Seq<char>) -> Seq<char> {
    if text.len() > 0 && text[0] == '+' {
        text.drop_first()
    } else {
        text
    }
}

/// The number that `text` denotes: an optional plus sign, then at least one
/// decimal digit and nothing else, with a value that fits the machine word.
pub open spec fn parse_number(text: Seq<char>) -> Option<nat> {
    let digits = unsigned_part(text);
    if digits.len() > 0 && all_digits(digits) && decimal_value(digits) <= usize::MAX {
        Some(decimal_value(digits))
    } else {
        None
    }
}

/// The decimal digits of `n`, without leading zeros.
pub open spec fn decimal_digits(n: nat) -> Seq<char>
    decreases n,
{
    if n < 10 {
        seq![digit_char(n)]
    } else {
        decimal_digits(n / 10).push(digit_char(n % 10))
    }
}

/// `count` zeros.
pub open spec fn zeros(count: nat) -> Seq<char> {
    Seq::new(count, |i: int| '0')
}

/// The name of the directory of generation `n`: its decimal digits, padded
/// with zeros on the left to the fixed width.
pub open spec fn generation_name_of(n: nat) -> Seq<char> {
    let digits = decimal_digits(n);
    if digits.len() < GENERATION_WIDTH {
        zeros((GENERATION_WIDTH - digits.len()) as nat) + digits
    } else {
        digits
    }
}

/// The number as a plain value.
pub open spec fn number_of(n: Option<usize>) -> Option<nat> {
    match n {
        Some(n) => Some(n as nat),
        None => None,
    }
}

/// The number that the last component of `path` denotes, if it denotes one.
pub open spec fn file_name_number(path: PathModel) -> Option<nat> {
    match path.file_name() {
        Some(name) => parse_number(name),
        None => None,
    }
}

/// The generation that an entry stands for: the number that its name
/// denotes, if it is a directory and its name denotes one.
pub open spec fn generation_of(entry: EntryModel) -> Option<nat> {
    if entry.is_dir {
        parse_number(entry.name)
    } else {
        None
    }
}

/// The greatest generation among `entries`, and 0 if there is none.
pub open spec fn latest_generation(entries: Seq<EntryModel>) -> nat
    decreases entries.len(),
{
    if entries.len() == 0 {
        0
    } else {
        let before = latest_generation(entries.drop_last());
        match generation_of(entries.last()) {
            Some(n) => if n > before {
                n
            } else {
                before
            },
            None => before,
        }
    }
}

/// The value of longer text is no less than that of its beginning.
proof fn lemma_decimal_value_grows(digits: Seq<char>, k: int)
    requires
        0 <= k <= digits.len(),
    ensures
        decimal_value(digits.take(k)) <= decimal_value(digits),
    decreases digits.len() - k,
{
    if k == digits.len() {
        assert(digits.take(k) == digits);
    } else {
        lemma_decimal_value_grows(digits, k + 1);
        assert(digits.take(k + 1).drop_last() == digits.take(k));
    }
}

/// The value of the digit `c`, if it is one.
fn digit_of(c: char) -> (r: Option<usize>)
    ensures
        r.is_some() == is_digit(c),
        r matches Some(d) ==> d == digit_value(c) && d < 10,
{
    if '0' <= c && c <= '9' {
        Some((c as u32 - '0' as u32) as usize)
    } else {
        None
    }
}

/// Reads a number.
pub fn parse_decimal(text: &str) -> (r: Option<usize>)
    ensures
        number_of(r) == parse_number(text@),
{
    let n = text.unicode_len();
    let start: usize = if n > 0 && text.get_char(0) == '+' {
        1
    } else {
        0
    };
    let ghost digits = unsigned_part(text@);
    if start == n {
        return None;
    }
    let mut value: usize = 0;
    let mut i: usize = start;
    while i < n
        invariant
            start <= i <= n,
            n == text@.len(),
            digits == unsigned_part(text@),
            digits == text@.skip(start as int),
            all_digits(digits.take(i - start)),
            value == decimal_value(digits.take(i - start)),
        decreases n - i,
    {
        let c = text.get_char(i);
        let ghost seen = digits.take(i - start);
        proof {
            assert(digits.take(i - start + 1).drop_last() == seen);
            assert(digits.take(i - start + 1).last() == c);
        }
        match digit_of(c) {
            None => {
                return None;
            },
            Some(d) => {
                if value > (usize::MAX - d) / 10 {
                    proof {
                        lemma_decimal_value_grows(digits, i - start + 1);
                    }
                    return None;
                }
                value = value * 10 + d;
                assert forall|k: int| 0 <= k < i - start + 1 implies is_digit(
                    #[trigger] digits.take(i - start + 1)[k],
                ) by {
                    if k < i - start {
                        assert(digits.take(i - start + 1)[k] == seen[k]);
                    }
                }
            },
        }
        i += 1;
    }
    assert(digits.take(n - start) == digits);
    Some(value)
}

/// The number that the last component of `path` denotes.
pub fn path_file_name_to_number(path: &Path) -> (r: Option<usize>)
    ensures
        number_of(r) == file_name_number(path@),
{
    match path.file_name() {
        Some(name) => parse_decimal(name.as_str()),
        None => None,
    }
}

/// The greatest generation among `entries`, and 0 if there is none.
pub fn latest(entries: &Vec<DirEntry>) -> (r: usize)
    ensures
        r == latest_generation(entry_models(entries@)),
{
    let ghost listing = entry_models(entries@);
    let mut best: usize = 0;
    let mut i: usize = 0;
    while i < entries.len()
        invariant
            i <= entries.len(),
            listing == entry_models(entries@),
            best == latest_generation(listing.take(i as int)),
        decreases entries.len() - i,
    {
        proof {
            assert(listing.take(i + 1).drop_last() == listing.take(i as int));
        }
        if entries[i].is_dir() {
            match parse_decimal(entries[i].name()) {
                Some(n) => {
                    if n > best {
                        best = n;
                    }
                },
                None => {},
            }
        }
        i += 1;
    }
    assert(listing.take(entries.len() as int) == listing);
    best
}

/// The number of the next generation: one more than the greatest generation
/// among the entries of the target directory. There is none if that would
/// not fit the machine word.
pub fn find_target_path_number(entries: &Vec<DirEntry>) -> (r: Option<usize>)
    ensures
        number_of(r) == if latest_generation(entry_models(entries@)) < usize::MAX {
            Some(latest_generation(entry_models(entries@)) + 1)
        } else {
            None
        },
{
    let number = latest(entries);
    if number < usize::MAX {
        Some(number + 1)
    } else {
        None
    }
}

/// The text of one decimal digit.
fn digit_text(d: usize) -> (r: &'static str)
    requires
        d < 10,
    ensures
        r@ == seq![digit_char(d as nat)],
{
    proof {
        reveal_strlit("0");
        reveal_strlit("1");
        reveal_strlit("2");
        reveal_strlit("3");
        reveal_strlit("4");
        reveal_strlit("5");
        reveal_strlit("6");
        reveal_strlit("7");
        reveal_strlit("8");
        reveal_strlit("9");
    }
    match d {
        0 => "0",
        1 => "1",
        2 => "2",
        3 => "3",
        4 => "4",
        5 => "5",
        6 => "6",
        7 => "7",
        8 => "8",
        _ => "9",
    }
}

/// Appends the decimal digits of `n` to `out`.
fn push_decimal(out: &mut String, n: usize)
    ensures
        final(out)@ == old(out)@ + decimal_digits(n as nat),
    decreases n,
{
    if n >= 10 {
        push_decimal(out, n / 10);
    }
    out.append(digit_text(n % 10));
}

/// The name of the directory of generation `n`.
pub fn generation_name(n: usize) -> (r: String)
    ensures
        r@ == generation_name_of(n as nat),
        is_name(r@),
{
    let mut digits = String::new();
    push_decimal(&mut digits, n);
    let width = digits.as_str().unicode_len();
    let mut out = String::new();
    if width < GENERATION_WIDTH {
        let count = GENERATION_WIDTH - width;
        let mut k: usize = 0;
        proof {
            reveal_strlit("0");
        }
        while k < count
            invariant
                k <= count,
                "0"@ == seq!['0'],
                out@ == zeros(k as nat),
            decreases count - k,
        {
            out.append("0");
            k += 1;
        }
    }
    out.append(digits.as_str());
    proof {
        lemma_generation_name_is_name(n as nat);
    }
    out
}

/// The decimal digits of a number are digits, at least one, and denote the
/// number.
pub proof fn lemma_decimal_digits(n: nat)
    ensures
        decimal_digits(n).len() > 0,
        all_digits(decimal_digits(n)),
        decimal_value(decimal_digits(n)) == n,
    decreases n,
{
    if n < 10 {
        let digits = decimal_digits(n);
        assert(decimal_value(digits.drop_last()) == 0);
    } else {
        lemma_decimal_digits(n / 10);
        let shorter = decimal_digits(n / 10);
        let digits = decimal_digits(n);
        assert(digits.drop_last() == shorter);
        assert forall|i: int| 0 <= i < digits.len() implies is_digit(#[trigger] digits[i]) by {
            if i < shorter.len() {
                assert(digits[i] == shorter[i]);
            }
        }
    }
}

/// Zeros in front change neither what digits denote nor that they are
/// digits.
pub proof fn lemma_leading_zeros(count: nat, digits: Seq<char>)
    ensures
        decimal_value(zeros(count) + digits) == decimal_value(digits),
        all_digits(digits) ==> all_digits(zeros(count) + digits),
    decreases digits.len(), count,
{
    let padded = zeros(count) + digits;
    if digits.len() > 0 {
        lemma_leading_zeros(count, digits.drop_last());
        assert(padded.drop_last() == zeros(count) + digits.drop_last());
    } else if count > 0 {
        lemma_leading_zeros((count - 1) as nat, digits);
        assert(padded.drop_last() == zeros((count - 1) as nat) + digits);
    }
    if all_digits(digits) {
        assert forall|i: int| 0 <= i < padded.len() implies is_digit(#[trigger] padded[i]) by {
            if i >= count {
                assert(padded[i] == digits[i - count]);
            }
        }
    }
}

/// The name of a generation directory is a component name.
pub proof fn lemma_generation_name_is_name(n: nat)
    ensures
        is_name(generation_name_of(n)),
        all_digits(generation_name_of(n)),
{
    lemma_decimal_digits(n);
    let digits = decimal_digits(n);
    let name = generation_name_of(n);
    if digits.len() < GENERATION_WIDTH {
        lemma_leading_zeros((GENERATION_WIDTH - digits.len()) as nat, digits);
    }
    assert(!name.contains('/')) by {
        if name.contains('/') {
            let i = choose|i: int| 0 <= i < name.len() && name[i] == '/';
            assert(is_digit(name[i]));
        }
    }
    assert(name != seq!['.']) by {
        assert(is_digit(name[0]));
    }
}

/// The name of the directory of a generation that fits the machine word
/// denotes that generation.
pub proof fn lemma_generation_name_parses(n: nat)
    requires
        n <= usize::MAX,
    ensures
        parse_number(generation_name_of(n)) == Some(n),
{
    lemma_decimal_digits(n);
    lemma_generation_name_is_name(n);
    let digits = decimal_digits(n);
    let name = generation_name_of(n);
    if digits.len() < GENERATION_WIDTH {
        lemma_leading_zeros((GENERATION_WIDTH - digits.len()) as nat, digits);
    }
    assert(is_digit(name[0]));
    assert(unsigned_part(name) == name);
}

/// The latest generation is no less than any generation among the entries,
/// and it is one of them unless it is 0.
pub proof fn lemma_latest_is_greatest(entries: Seq<EntryModel>)
    ensures
        forall|i: int|
            0 <= i < entries.len() ==> (#[trigger] generation_of(entries[i]) matches Some(n) ==> n
                <= latest_generation(entries)),
        latest_generation(entries) == 0 || exists|i: int|
            0 <= i < entries.len() && #[trigger] generation_of(entries[i]) == Some(
                latest_generation(entries),
            ),
    decreases entries.len(),
{
    if entries.len() > 0 {
        let init = entries.drop_last();
        lemma_latest_is_greatest(init);
        assert forall|i: int| 0 <= i < entries.len() implies (#[trigger] generation_of(
            entries[i],
        ) matches Some(n) ==> n <= latest_generation(entries)) by {
            if i < init.len() {
                assert(entries[i] == init[i]);
            }
        }
        if latest_generation(entries) != 0 {
            if latest_generation(entries) == latest_generation(init) {
                let i = choose|i: int|
                    0 <= i < init.len() && #[trigger] generation_of(init[i]) == Some(
                        latest_generation(init),
                    );
                assert(entries[i] == init[i]);
            } else {
                assert(generation_of(entries[entries.len() - 1]) == Some(
                    latest_generation(entries),
                ));
            }
        }
    }
}

/// Generations increase by one: once the directory of the next generation
/// has been created, the generation after it is the next one, whatever
/// entries that stand for no generation have appeared beside it.
pub proof fn lemma_next_generation(before: Seq<EntryModel>, after: Seq<EntryModel>)
    requires
        latest_generation(before) < usize::MAX,
        exists|i: int|
            0 <= i < after.len() && #[trigger] after[i] == (EntryModel {
                name: generation_name_of(latest_generation(before) + 1),
                is_dir: true,
            }),
        forall|i: int|
            0 <= i < after.len() ==> (#[trigger] generation_of(after[i]) matches Some(n) ==> n
                == latest_generation(before) + 1 || exists|j: int|
                0 <= j < before.len() && #[trigger] generation_of(before[j]) == Some(n)),
    ensures
        latest_generation(after) == latest_generation(before) + 1,
{
    let next = latest_generation(before) + 1;
    lemma_generation_name_parses(next);
    lemma_latest_is_greatest(before);
    lemma_latest_is_greatest(after);
    let made = choose|i: int|
        0 <= i < after.len() && #[trigger] after[i] == (EntryModel {
            name: generation_name_of(next),
            is_dir: true,
        });
    assert(generation_of(after[made]) == Some(next));
    assert(latest_generation(after) >= next);
    let top = choose|i: int|
        0 <= i < after.len() && #[trigger] generation_of(after[i]) == Some(
            latest_generation(after),
        );
    if latest_generation(after) != next {
        let j = choose|j: int|
            0 <= j < before.len() && #[trigger] generation_of(before[j]) == Some(
                latest_generation(after),
            );
        assert(latest_generation(after) <= latest_generation(before));
    }
}

} // verus!
