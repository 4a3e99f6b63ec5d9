//! Putting text together and taking it apart.

use vstd::prelude::*;
use vstd::string::*;

verus! {

/// A text that may be missing.
pub open spec fn text_view(text: Option<String>) -> Option<Seq<char>> {
    match text {
        Some(t) => Some(t@),
        None => None,
    }
}

/// The digit of `d`.
pub open spec fn digit(d: nat) -> char {
    ((48 + d) as u8) as char
}

/// `n` in decimal.
pub open spec fn decimal(n: nat) -> Seq<char>
    decreases n,
{
    if n < 10 {
        seq![digit(n)]
    } else {
        decimal(n / 10).push(digit(n % 10))
    }
}

/// The digit of `d`, as text.
fn digit_text(d: u8) -> (text: &'static str)
    requires
        d < 10,
    ensures
        text@ == seq![digit(d as nat)],
{
    let text: &'static str = match d {
        0 => "0",
        1 => "1",
        2 => "2",
        3 => "3",
        4 => "4",
        5 => "5",
        6 => "6",
        7 => "7",
        8 => "8",
        _ => "9",
    };
    proof {
        reveal_strlit("0");
        reveal_strlit("1");
        reveal_strlit("2");
        reveal_strlit("3");
        reveal_strlit("4");
        reveal_strlit("5");
        reveal_strlit("6");
        reveal_strlit("7");
        reveal_strlit("8");
        reveal_strlit("9");
        assert(text@ =~= seq![digit(d as nat)]);
    }
    text
}

/// `n` in decimal.
pub fn to_decimal(n: u128) -> (text: String)
    ensures
        text@ == decimal(n as nat),
    decreases n,
{
    if n < 10 {
        return String::from_str(digit_text(n as u8));
    }
    let mut text: String = to_decimal(n / 10);
    text.append(digit_text((n % 10) as u8));
    proof {
        assert(text@ =~= decimal(n as nat));
    }
    text
}

/// `n` in decimal, with a minus sign if it is negative.
pub open spec fn signed_decimal(n: int) -> Seq<char> {
    if n < 0 {
        "-"@ + decimal((-n) as nat)
    } else {
        decimal(n as nat)
    }
}

/// `n` in decimal, with a minus sign if it is negative.
pub fn to_signed_decimal(n: i64) -> (text: String)
    ensures
        text@ == signed_decimal(n as int),
{
    if n < 0 {
        let mut text: String = String::from_str("-");
        text.append(to_decimal((-(n as i128)) as u128).as_str());
        return text;
    }
    to_decimal(n as u128)
}

/// Whether two texts are the same.
pub fn same_text(a: &str, b: &str) -> (same: bool)
    ensures
        same == (a@ == b@),
{
    a.to_owned() == b.to_owned()
}

/// The characters of a text.
pub(crate) fn characters(text: &str) -> (list: Vec<char>)
    ensures
        list@ == text@,
{
    let mut list: Vec<char> = Vec::new();
    for c in it: text.chars()
        invariant
            it.seq() == text@,
            list@ == text@.take(it.index()),
    {
        list.push(c);
        proof {
            assert(text@.take(it.index() + 1) =~= text@.take(it.index()).push(c));
        }
    }
    proof {
        assert(text@.take(text@.len() as int) =~= text@);
    }
    list
}

/// Characters that count as white space.
pub open spec fn is_white(c: char) -> bool {
    let n = c as u32;
    ||| 0x9 <= n <= 0xd
    ||| n == 0x20
    ||| n == 0x85
    ||| n == 0xa0
    ||| n == 0x1680
    ||| 0x2000 <= n <= 0x200a
    ||| n == 0x2028
    ||| n == 0x2029
    ||| n == 0x202f
    ||| n == 0x205f
    ||| n == 0x3000
}

/// Whether a character counts as white space.
fn check_white(c: char) -> (white: bool)
    ensures
        white == is_white(c),
{
    let n: u32 = c as u32;
    (0x9 <= n && n <= 0xd) || n == 0x20 || n == 0x85 || n == 0xa0 || n == 0x1680 || (0x2000 <= n
        && n <= 0x200a) || n == 0x2028 || n == 0x2029 || n == 0x202f || n == 0x205f || n == 0x3000
}

/// Text of white space alone.
pub open spec fn blank(text: Seq<char>) -> bool {
    forall|i: int| 0 <= i < text.len() ==> is_white(#[trigger] text[i])
}

/// The pieces between the separators of a text.
pub open spec fn pieces(text: Seq<char>, separator: char) -> Seq<Seq<char>>
    decreases text.len(),
{
    if text.len() == 0 {
        seq![Seq::empty()]
    } else {
        let before = pieces(text.drop_last(), separator);
        if text.last() == separator {
            before.push(Seq::empty())
        } else {
            before.drop_last().push(before.last().push(text.last()))
        }
    }
}

/// Those of `list` that are not blank, in order.
pub open spec fn not_blank(list: Seq<Seq<char>>) -> Seq<Seq<char>>
    decreases list.len(),
{
    if list.len() == 0 {
        Seq::empty()
    } else if blank(list.last()) {
        not_blank(list.drop_last())
    } else {
        not_blank(list.drop_last()).push(list.last())
    }
}

/// The statements of a text: what stands between semicolons and is not blank.
pub open spec fn statements_of(sql: Seq<char>) -> Seq<Seq<char>> {
    not_blank(pieces(sql, ';'))
}

/// The views of texts.
pub open spec fn texts(list: Seq<String>) -> Seq<Seq<char>> {
    list.map_values(|s: String| s@)
}

/// The statements of a text, in order.
pub fn statements(sql: &str) -> (list: Vec<String>)
    ensures
        texts(list@) == statements_of(sql@),
{
    let letters: Vec<char> = characters(sql);
    let mut list: Vec<String> = Vec::new();
    let mut start: usize = 0;
    let mut solid: bool = false;
    proof {
        assert(sql@.take(0) =~= Seq::<char>::empty());
        let first = pieces(sql@.take(0), ';');
        assert(first.drop_last() =~= Seq::<Seq<char>>::empty());
        assert(first.last() =~= sql@.subrange(0, 0));
        assert(texts(list@) =~= not_blank(first.drop_last()));
    }
    for k in 0..letters.len()
        invariant
            letters@ == sql@,
            start <= k,
            pieces(sql@.take(k as int), ';').len() > 0,
            texts(list@) == not_blank(pieces(sql@.take(k as int), ';').drop_last()),
            pieces(sql@.take(k as int), ';').last() == sql@.subrange(start as int, k as int),
            solid == !blank(sql@.subrange(start as int, k as int)),
    {
        let ghost before = pieces(sql@.take(k as int), ';');
        let ghost after = pieces(sql@.take(k + 1), ';');
        let ghost piece = sql@.subrange(start as int, k as int);
        let ghost longer = sql@.subrange(start as int, k + 1);
        proof {
            assert(sql@.take(k + 1).drop_last() =~= sql@.take(k as int));
            assert(longer =~= piece.push(sql@[k as int]));
        }
        let c: char = letters[k];
        if c == ';' {
            proof {
                assert(after.drop_last() =~= before);
                assert(after.last() =~= sql@.subrange(k + 1, k + 1));
            }
            if solid {
                let ghost earlier = list@;
                list.push(sql.substring_char(start, k).to_owned());
                proof {
                    assert(texts(list@) =~= texts(earlier).push(piece));
                }
            }
            start = k + 1;
            solid = false;
        } else {
            proof {
                assert(after.drop_last() =~= before.drop_last());
                assert(longer[longer.len() - 1] == c);
                if !blank(piece) {
                    let i = choose|i: int| 0 <= i < piece.len() && !is_white(#[trigger] piece[i]);
                    assert(longer[i] == piece[i]);
                } else if is_white(c) {
                    assert forall|i: int| 0 <= i < longer.len() implies is_white(
                        #[trigger] longer[i],
                    ) by {
                        if i < piece.len() {
                            assert(longer[i] == piece[i]);
                        }
                    }
                }
            }
            if !check_white(c) {
                solid = true;
            }
        }
    }
    proof {
        assert(sql@.take(sql@.len() as int) =~= sql@);
    }
    if solid {
        let ghost earlier = list@;
        list.push(sql.substring_char(start, letters.len()).to_owned());
        proof {
            assert(texts(list@) =~= texts(earlier).push(
                sql@.subrange(start as int, sql@.len() as int),
            ));
        }
    }
    list
}

/// No statement is blank and none holds a semicolon.
pub proof fn law_statements_are_solid(sql: Seq<char>)
    ensures
        forall|i: int|
            0 <= i < statements_of(sql).len() ==> !blank(#[trigger] statements_of(sql)[i])
                && !statements_of(sql)[i].contains(';'),
{
    lemma_pieces_hold_no_separator(sql, ';');
    lemma_not_blank_keeps(pieces(sql, ';'), ';');
}

proof fn lemma_pieces_hold_no_separator(text: Seq<char>, separator: char)
    ensures
        pieces(text, separator).len() > 0,
        forall|i: int|
            0 <= i < pieces(text, separator).len() ==> !(#[trigger] pieces(
                text,
                separator,
            )[i]).contains(separator),
    decreases text.len(),
{
    if text.len() > 0 {
        let before = pieces(text.drop_last(), separator);
        let after = pieces(text, separator);
        lemma_pieces_hold_no_separator(text.drop_last(), separator);
        assert forall|i: int| 0 <= i < after.len() implies !(#[trigger] after[i]).contains(
            separator,
        ) by {
            if i < before.len() - 1 || (text.last() == separator && i < before.len()) {
                assert(after[i] == before[i]);
            } else if text.last() != separator {
                assert(after[i] == before.last().push(text.last()));
                assert(before.last() == before[before.len() - 1]);
                if after[i].contains(separator) {
                    let j = choose|j: int| 0 <= j < after[i].len() && after[i][j] == separator;
                    assert(before.last()[j] == separator);
                }
            }
        }
    }
}

proof fn lemma_not_blank_keeps(list: Seq<Seq<char>>, separator: char)
    requires
        forall|i: int| 0 <= i < list.len() ==> !(#[trigger] list[i]).contains(separator),
    ensures
        forall|i: int|
            0 <= i < not_blank(list).len() ==> !blank(#[trigger] not_blank(list)[i])
                && !not_blank(list)[i].contains(separator),
    decreases list.len(),
{
    if list.len() > 0 {
        assert(list.last() == list[list.len() - 1]);
        let before = not_blank(list.drop_last());
        lemma_not_blank_keeps(list.drop_last(), separator);
        assert forall|i: int| 0 <= i < not_blank(list).len() implies !blank(
            #[trigger] not_blank(list)[i],
        ) && !not_blank(list)[i].contains(separator) by {
            if i < before.len() {
                assert(not_blank(list)[i] == before[i]);
            }
        }
    }
}

/// The first line of a text, without its line break.
pub open spec fn first_line_of(text: Seq<char>) -> Seq<char> {
    let line = before_line_feed(text);
    if line.len() < text.len() && line.len() > 0 && line.last() == '\r' {
        line.drop_last()
    } else {
        line
    }
}

/// What stands before the first line feed.
pub open spec fn before_line_feed(text: Seq<char>) -> Seq<char>
    decreases text.len(),
{
    if text.len() == 0 || text[0] == '\n' {
        Seq::empty()
    } else {
        seq![text[0]] + before_line_feed(text.drop_first())
    }
}

proof fn lemma_front(text: Seq<char>, k: int)
    requires
        0 <= k <= text.len(),
        forall|i: int| 0 <= i < k ==> text[i] != '\n',
        k < text.len() ==> text[k] == '\n',
    ensures
        before_line_feed(text) == text.take(k),
    decreases k,
{
    if k == 0 {
        assert(before_line_feed(text) =~= text.take(0));
    } else {
        lemma_front(text.drop_first(), k - 1);
        assert(before_line_feed(text) =~= text.take(k));
    }
}

/// The first line of a text, without its line break.
pub fn first_line(text: &str) -> (line: String)
    ensures
        line@ == first_line_of(text@),
{
    let letters: Vec<char> = characters(text);
    let mut k: usize = 0;
    while k < letters.len() && letters[k] != '\n'
        invariant
            letters@ == text@,
            k <= letters@.len(),
            forall|i: int| 0 <= i < k ==> text@[i] != '\n',
        decreases letters@.len() - k,
    {
        k += 1;
    }
    proof {
        lemma_front(text@, k as int);
    }
    let end: usize = if k < letters.len() && k > 0 && letters[k - 1] == '\r' {
        k - 1
    } else {
        k
    };
    proof {
        assert(text@.subrange(0, end as int) =~= first_line_of(text@));
    }
    text.substring_char(0, end).to_owned()
}

/// Texts with a separator between each two.
pub open spec fn joined(list: Seq<Seq<char>>, separator: Seq<char>) -> Seq<char>
    decreases list.len(),
{
    if list.len() == 0 {
        Seq::empty()
    } else if list.len() == 1 {
        list[0]
    } else {
        joined(list.drop_last(), separator) + separator + list.last()
    }
}

/// Cutting a text at a separator loses nothing: the pieces, put back together
/// with the separator, are the text.
pub proof fn law_pieces_make_up_the_text(text: Seq<char>, separator: char)
    ensures
        pieces(text, separator).len() > 0,
        joined(pieces(text, separator), seq![separator]) == text,
    decreases text.len(),
{
    reveal_with_fuel(joined, 2);
    if text.len() > 0 {
        let init = text.drop_last();
        law_pieces_make_up_the_text(init, separator);
        let before = pieces(init, separator);
        let after = pieces(text, separator);
        if text.last() == separator {
            assert(after.drop_last() =~= before);
            assert(joined(after, seq![separator]) =~= text);
        } else {
            assert(after.drop_last() =~= before.drop_last());
            assert(after.last() =~= before.last().push(text.last()));
            assert(after.len() == before.len());
            if before.len() == 1 {
                assert(before[0] == init);
                assert(after[0] == after.last());
            } else {
                assert(init =~= joined(before.drop_last(), seq![separator]) + seq![separator]
                    + before.last());
            }
            assert(joined(after, seq![separator]) =~= init.push(text.last()));
            assert(init.push(text.last()) =~= text);
        }
    } else {
        assert(pieces(text, separator).drop_last() =~= Seq::<Seq<char>>::empty());
        assert(joined(pieces(text, separator), seq![separator]) =~= text);
    }
}

/// The rows of a file: each row on a line of its own.
pub open spec fn file_text(rows: Seq<Seq<char>>) -> Seq<char> {
    joined(rows, seq!['\n']).push('\n')
}

/// Puts each row on a line of its own.
pub fn to_file_text(rows: &Vec<String>) -> (text: String)
    ensures
        text@ == file_text(texts(rows@)),
{
    let mut text: String = String::new();
    let ghost lines = texts(rows@);
    proof {
        reveal_strlit("\n");
        reveal_strlit("");
        assert("\n"@ =~= seq!['\n']);
        assert(text@ =~= Seq::<char>::empty());
    }
    for k in 0..rows.len()
        invariant
            lines == texts(rows@),
            "\n"@ == seq!['\n'],
            text@ == joined(lines.take(k as int), seq!['\n']),
    {
        if k > 0 {
            text.append("\n");
        }
        text.append(rows[k].as_str());
        proof {
            let longer = lines.take(k + 1);
            assert(longer.drop_last() =~= lines.take(k as int));
            assert(longer.last() == rows@[k as int]@);
            assert(text@ =~= joined(longer, seq!['\n']));
        }
    }
    text.append("\n");
    proof {
        assert(lines.take(lines.len() as int) =~= lines);
        assert(text@ =~= file_text(lines));
    }
    text
}

/// `n` blanks.
pub open spec fn blanks(n: nat) -> Seq<char> {
    Seq::new(n, |i: int| ' ')
}

/// How many blanks bring a text to `width` characters.
pub open spec fn padding(text: Seq<char>, width: nat) -> nat {
    if text.len() < width {
        (width - text.len()) as nat
    } else {
        0
    }
}

/// A text in a column of `width` characters, at its left edge.
pub open spec fn at_left(text: Seq<char>, width: nat) -> Seq<char> {
    text + blanks(padding(text, width))
}

/// A text in a column of `width` characters, at its right edge.
pub open spec fn at_right(text: Seq<char>, width: nat) -> Seq<char> {
    blanks(padding(text, width)) + text
}

/// The blanks that bring a text to `width` characters.
fn padding_for(text: &str, width: usize) -> (pad: String)
    ensures
        pad@ == blanks(padding(text@, width as nat)),
{
    let len: usize = text.unicode_len();
    let missing: usize = if len < width {
        width - len
    } else {
        0
    };
    let mut pad: String = String::new();
    proof {
        reveal_strlit(" ");
        reveal_strlit("");
        assert(" "@ =~= seq![' ']);
        assert(pad@ =~= blanks(0));
    }
    for k in 0..missing
        invariant
            " "@ == seq![' '],
            pad@ == blanks(k as nat),
    {
        pad.append(" ");
        proof {
            assert(pad@ =~= blanks((k + 1) as nat));
        }
    }
    pad
}

/// Puts a text at the left edge of a column.
pub fn pad_right(text: &str, width: usize) -> (padded: String)
    ensures
        padded@ == at_left(text@, width as nat),
{
    let mut padded: String = text.to_owned();
    padded.append(padding_for(text, width).as_str());
    padded
}

/// Puts a text at the right edge of a column.
pub fn pad_left(text: &str, width: usize) -> (padded: String)
    ensures
        padded@ == at_right(text@, width as nat),
{
    let mut padded: String = padding_for(text, width);
    padded.append(text);
    padded
}

/// The value of a digit.
pub open spec fn digit_value(c: char) -> nat
    recommends
        '0' <= c <= '9',
{
    (c as u32 - 48) as nat
}

/// Text of digits alone.
pub open spec fn all_digits(text: Seq<char>) -> bool {
    forall|i: int| 0 <= i < text.len() ==> 48 <= #[trigger] text[i] as u32 <= 57
}

/// The number that digits write.
pub open spec fn digits_value(text: Seq<char>) -> nat
    decreases text.len(),
{
    if text.len() == 0 {
        0
    } else {
        digits_value(text.drop_last()) * 10 + digit_value(text.last())
    }
}

/// Text without a leading plus sign.
pub open spec fn unsigned_part(text: Seq<char>) -> Seq<char> {
    if text.len() > 0 && text[0] == '+' {
        text.drop_first()
    } else {
        text
    }
}

/// The number that a text writes: digits, with at most a plus sign in front, of
/// a value up to `max`.
pub open spec fn number_in(text: Seq<char>, max: nat) -> Option<nat> {
    let digits = unsigned_part(text);
    if digits.len() > 0 && all_digits(digits) && digits_value(digits) <= max {
        Some(digits_value(digits))
    } else {
        None
    }
}

proof fn lemma_value_grows(text: Seq<char>, k: int)
    requires
        0 <= k <= text.len(),
        all_digits(text),
    ensures
        digits_value(text.take(k)) <= digits_value(text),
    decreases text.len() - k,
{
    if k == text.len() {
        assert(text.take(k) =~= text);
    } else {
        lemma_value_grows(text, k + 1);
        assert(text.take(k + 1).drop_last() =~= text.take(k));
    }
}

/// Reads a number.
pub fn parse_u64(text: &str) -> (number: Option<u64>)
    ensures
        number == match number_in(text@, u64::MAX as nat) {
            Some(n) => Some(n as u64),
            None => None,
        },
{
    let letters: Vec<char> = characters(text);
    let start: usize = if letters.len() > 0 && letters[0] == '+' {
        1
    } else {
        0
    };
    let ghost digits = unsigned_part(text@);
    proof {
        assert(digits =~= text@.skip(start as int));
    }
    if start == letters.len() {
        return None;
    }
    let mut value: u64 = 0;
    for k in start..letters.len()
        invariant
            letters@ == text@,
            start <= letters@.len(),
            digits == text@.skip(start as int),
            digits == unsigned_part(text@),
            all_digits(digits.take(k - start)),
            value == digits_value(digits.take(k - start)),
    {
        let n: u32 = letters[k] as u32;
        let ghost here = k - start;
        proof {
            assert(digits[here] == letters@[k as int]);
            assert(digits.take(here + 1).drop_last() =~= digits.take(here));
            assert(digits.take(here + 1).last() == digits[here]);
        }
        if n < 48 || n > 57 {
            return None;
        }
        proof {
            assert(all_digits(digits.take(here + 1))) by {
                assert forall|i: int| 0 <= i < here + 1 implies 48 <= #[trigger] digits.take(
                    here + 1,
                )[i] as u32 <= 57 by {
                    if i < here {
                        assert(digits.take(here)[i] == digits.take(here + 1)[i]);
                    }
                }
            }
            if all_digits(digits) {
                lemma_value_grows(digits, here + 1);
            }
        }
        let d: u64 = (n - 48) as u64;
        match value.checked_mul(10) {
            Some(tens) => match tens.checked_add(d) {
                Some(sum) => {
                    value = sum;
                },
                None => {
                    return None;
                },
            },
            None => {
                return None;
            },
        }
    }
    proof {
        assert(digits.take(letters@.len() - start) =~= digits);
    }
    Some(value)
}

/// Reads a number that fits an index.
pub fn parse_usize(text: &str) -> (number: Option<usize>)
    ensures
        number == match number_in(text@, usize::MAX as nat) {
            Some(n) => Some(n as usize),
            None => None,
        },
{
    match parse_u64(text) {
        Some(n) => if n <= usize::MAX as u64 {
            Some(n as usize)
        } else {
            None
        },
        None => None,
    }
}

proof fn lemma_decimal_digits(n: nat)
    ensures
        decimal(n).len() > 0,
        all_digits(decimal(n)),
        digits_value(decimal(n)) == n,
    decreases n,
{
    if n < 10 {
        assert(decimal(n).drop_last() =~= Seq::<char>::empty());
        reveal_with_fuel(digits_value, 2);
        assert(decimal(n).last() == digit(n));
    } else {
        lemma_decimal_digits(n / 10);
        assert(decimal(n).drop_last() =~= decimal(n / 10));
        assert forall|i: int| 0 <= i < decimal(n).len() implies 48 <= #[trigger] decimal(
            n,
        )[i] as u32 <= 57 by {
            if i < decimal(n / 10).len() {
                assert(decimal(n)[i] == decimal(n / 10)[i]);
            }
        }
    }
}

/// Reading a number that was written in decimal gives the number back.
pub proof fn law_written_numbers_are_read_back(n: nat, max: nat)
    requires
        n <= max,
    ensures
        number_in(decimal(n), max) == Some(n),
{
    lemma_decimal_digits(n);
    assert(decimal(n)[0] as u32 != '+' as u32);
}

/// The characters that count as white space, one by one.
pub proof fn law_white_space_is_known(c: char)
    ensures
        is_white(c) <==> seq![
            '\t', '\n', '\u{b}', '\u{c}', '\r', ' ', '\u{85}', '\u{a0}', '\u{1680}', '\u{2000}',
            '\u{2001}', '\u{2002}', '\u{2003}', '\u{2004}', '\u{2005}', '\u{2006}', '\u{2007}',
            '\u{2008}', '\u{2009}', '\u{200a}', '\u{2028}', '\u{2029}', '\u{202f}', '\u{205f}',
            '\u{3000}',
        ].contains(c),
{
    let list = seq![
        '\t', '\n', '\u{b}', '\u{c}', '\r', ' ', '\u{85}', '\u{a0}', '\u{1680}', '\u{2000}',
        '\u{2001}', '\u{2002}', '\u{2003}', '\u{2004}', '\u{2005}', '\u{2006}', '\u{2007}',
        '\u{2008}', '\u{2009}', '\u{200a}', '\u{2028}', '\u{2029}', '\u{202f}', '\u{205f}',
        '\u{3000}',
    ];
    assert(list.len() == 25);
    let n = c as u32;
    if is_white(c) {
        let at: int = if n <= 0xd {
            n - 9
        } else if n == 0x20 {
            5
        } else if n == 0x85 {
            6
        } else if n == 0xa0 {
            7
        } else if n == 0x1680 {
            8
        } else if n <= 0x200a {
            n - 0x2000 + 9
        } else if n == 0x2028 {
            20
        } else if n == 0x2029 {
            21
        } else if n == 0x202f {
            22
        } else if n == 0x205f {
            23
        } else {
            24
        };
        assert(list[at] == c);
    }
}

/// Cutting at a separator: the pieces of what stands before it, then the pieces of what
/// stands behind it.
pub proof fn law_pieces_of_two(before: Seq<char>, separator: char, behind: Seq<char>)
    ensures
        pieces(before.push(separator) + behind, separator) == pieces(before, separator) + pieces(
            behind,
            separator,
        ),
    decreases behind.len(),
{
    let whole = before.push(separator) + behind;
    lemma_pieces_hold_no_separator(before, separator);
    if behind.len() == 0 {
        assert(whole =~= before.push(separator));
        assert(whole.drop_last() =~= before);
        assert(pieces(whole, separator) =~= pieces(before, separator) + pieces(behind, separator));
    } else {
        let shorter = behind.drop_last();
        law_pieces_of_two(before, separator, shorter);
        lemma_pieces_hold_no_separator(shorter, separator);
        assert(whole.drop_last() =~= before.push(separator) + shorter);
        assert(whole.last() == behind.last());
        assert(pieces(whole, separator) =~= pieces(before, separator) + pieces(behind, separator));
    }
}

/// A text without the separator is one piece.
pub proof fn law_uncut_text_is_one_piece(text: Seq<char>, separator: char)
    requires
        !text.contains(separator),
    ensures
        pieces(text, separator) == seq![text],
    decreases text.len(),
{
    if text.len() > 0 {
        let shorter = text.drop_last();
        assert(text[text.len() - 1] != separator);
        assert(!shorter.contains(separator)) by {
            if shorter.contains(separator) {
                let i = choose|i: int| 0 <= i < shorter.len() && shorter[i] == separator;
                assert(text[i] == separator);
            }
        }
        law_uncut_text_is_one_piece(shorter, separator);
        assert(shorter.push(text.last()) =~= text);
        assert(pieces(text, separator) =~= seq![text]);
    } else {
        assert(text =~= Seq::<char>::empty());
    }
}

proof fn lemma_not_blank_of_two(a: Seq<Seq<char>>, b: Seq<Seq<char>>)
    ensures
        not_blank(a + b) == not_blank(a) + not_blank(b),
    decreases b.len(),
{
    if b.len() == 0 {
        assert(a + b =~= a);
        assert(not_blank(a) + not_blank(b) =~= not_blank(a));
    } else {
        lemma_not_blank_of_two(a, b.drop_last());
        assert((a + b).drop_last() =~= a + b.drop_last());
        assert((a + b).last() == b.last());
        assert(not_blank(a + b) =~= not_blank(a) + not_blank(b));
    }
}

/// The statements of a text are those before a semicolon, then those behind it.
pub proof fn law_statements_of_two(before: Seq<char>, behind: Seq<char>)
    ensures
        statements_of(before.push(';') + behind) == statements_of(before) + statements_of(behind),
{
    law_pieces_of_two(before, ';', behind);
    lemma_not_blank_of_two(pieces(before, ';'), pieces(behind, ';'));
}

/// A text without a semicolon is one statement, whatever it holds, unless all of it is
/// white space.
pub proof fn law_solid_text_is_a_statement(text: Seq<char>)
    requires
        !text.contains(';'),
    ensures
        (exists|i: int| 0 <= i < text.len() && !is_white(#[trigger] text[i])) ==> statements_of(
            text,
        ) == seq![text],
        (forall|i: int| 0 <= i < text.len() ==> is_white(#[trigger] text[i])) ==> statements_of(
            text,
        ) == Seq::<Seq<char>>::empty(),
{
    law_uncut_text_is_one_piece(text, ';');
    let list = seq![text];
    assert(list.drop_last() =~= Seq::<Seq<char>>::empty());
    reveal_with_fuel(not_blank, 2);
    if exists|i: int| 0 <= i < text.len() && !is_white(#[trigger] text[i]) {
        assert(!blank(text));
        assert(not_blank(list) =~= list);
    }
}

proof fn lemma_not_blank_is_filter(list: Seq<Seq<char>>)
    ensures
        not_blank(list) == list.filter(
            |piece: Seq<char>|
                exists|i: int| 0 <= i < piece.len() && !is_white(#[trigger] piece[i]),
        ),
    decreases list.len(),
{
    reveal(Seq::filter);
    let solid = |piece: Seq<char>|
        exists|i: int| 0 <= i < piece.len() && !is_white(#[trigger] piece[i]);
    if list.len() > 0 {
        lemma_not_blank_is_filter(list.drop_last());
        assert(blank(list.last()) == !solid(list.last()));
    } else {
        assert(not_blank(list) =~= list.filter(solid));
    }
}

/// Each piece between semicolons that holds anything but white space is a statement, as
/// often and in the same order as among the pieces.
pub proof fn law_statements_are_the_solid_pieces(sql: Seq<char>)
    ensures
        statements_of(sql) == pieces(sql, ';').filter(
            |piece: Seq<char>|
                exists|i: int| 0 <= i < piece.len() && !is_white(#[trigger] piece[i]),
        ),
{
    lemma_not_blank_is_filter(pieces(sql, ';'));
}

/// The first line ends at the first line feed, and a carriage return before it is no part
/// of the line.
pub proof fn law_first_line_ends_at_a_line_feed(line: Seq<char>, rest: Seq<char>)
    requires
        !line.contains('\n'),
    ensures
        first_line_of(line) == line,
        line.len() == 0 || line.last() != '\r' ==> first_line_of(line.push('\n') + rest) == line,
        first_line_of(line.push('\r').push('\n') + rest) == line,
{
    let plain = line.push('\n') + rest;
    let returned = line.push('\r').push('\n') + rest;
    assert forall|i: int| 0 <= i < line.len() implies line[i] != '\n' by {
        assert(line.contains(line[i]));
    }
    lemma_front(line, line.len() as int);
    lemma_front(plain, line.len() as int);
    lemma_front(returned, line.len() as int + 1);
    assert(line.take(line.len() as int) =~= line);
    assert(plain.take(line.len() as int) =~= line);
    assert(returned.take(line.len() as int + 1) =~= line.push('\r'));
    assert(line.push('\r').drop_last() =~= line);
}

proof fn lemma_joined_push(rows: Seq<Seq<char>>, row: Seq<char>, separator: Seq<char>)
    ensures
        joined(rows.push(row), separator) == if rows.len() == 0 {
            row
        } else {
            joined(rows, separator) + separator + row
        },
{
    assert(rows.push(row).drop_last() =~= rows);
}

/// One more row is written behind the others, with a line feed behind it. The rows can be
/// told apart again if none of them holds a line feed.
pub proof fn law_each_row_is_a_line(rows: Seq<Seq<char>>, row: Seq<char>)
    ensures
        file_text(seq![row]) == row.push('\n'),
        rows.len() > 0 ==> file_text(rows.push(row)) == file_text(rows) + row.push('\n'),
        (rows.len() > 0 && forall|i: int|
            0 <= i < rows.len() ==> !(#[trigger] rows[i]).contains('\n')) ==> pieces(
            file_text(rows),
            '\n',
        ) == rows.push(Seq::empty()),
    decreases rows.len(),
{
    lemma_joined_push(Seq::empty(), row, seq!['\n']);
    assert(Seq::<Seq<char>>::empty().push(row) =~= seq![row]);
    lemma_joined_push(rows, row, seq!['\n']);
    if rows.len() > 0 {
        assert(file_text(rows.push(row)) =~= file_text(rows) + row.push('\n'));
        if forall|i: int| 0 <= i < rows.len() ==> !(#[trigger] rows[i]).contains('\n') {
            let front = rows.drop_last();
            let last = rows.last();
            assert(last == rows[rows.len() - 1]);
            assert(rows =~= front.push(last));
            assert forall|i: int| 0 <= i < front.len() implies !(#[trigger] front[i]).contains(
                '\n',
            ) by {
                assert(front[i] == rows[i]);
            }
            law_each_row_is_a_line(front, last);
            law_uncut_text_is_one_piece(last, '\n');
            let end = last.push('\n');
            assert(end + Seq::<char>::empty() =~= end);
            law_pieces_of_two(last, '\n', Seq::empty());
            assert(pieces(end, '\n') =~= seq![last, Seq::<char>::empty()]);
            if front.len() == 0 {
                assert(front.push(last) =~= seq![last]);
                assert(pieces(file_text(rows), '\n') =~= rows.push(Seq::empty()));
            } else {
                let text = joined(front, seq!['\n']);
                assert(file_text(rows) =~= text.push('\n') + end);
                law_pieces_of_two(text, '\n', end);
                law_pieces_of_two(text, '\n', Seq::empty());
                assert(text.push('\n') + Seq::<char>::empty() =~= file_text(front));
                assert(pieces(Seq::<char>::empty(), '\n') =~= seq![Seq::<char>::empty()]);
                let apart = pieces(text, '\n');
                assert(apart + seq![Seq::<char>::empty()] == front.push(Seq::empty()));
                assert(apart =~= front) by {
                    assert(apart.push(Seq::empty()) =~= apart + seq![Seq::<char>::empty()]);
                    assert(apart.push(Seq::empty()).drop_last() =~= apart);
                    assert(front.push(Seq::empty()).drop_last() =~= front);
                }
                assert(pieces(file_text(rows), '\n') =~= rows.push(Seq::empty()));
            }
        }
    }
}

/// A padded text is as wide as asked for, or as the text if that is wider. The text is at
/// its edge, and all else is blanks.
pub proof fn law_padding_fills_the_column(text: Seq<char>, width: nat)
    ensures
        at_left(text, width).len() == if text.len() < width {
            width
        } else {
            text.len()
        },
        at_right(text, width).len() == at_left(text, width).len(),
        at_left(text, width).take(text.len() as int) == text,
        at_right(text, width).skip(at_right(text, width).len() - text.len()) == text,
        forall|i: int|
            text.len() <= i < at_left(text, width).len() ==> #[trigger] at_left(text, width)[i]
                == ' ',
        forall|i: int|
            0 <= i < at_right(text, width).len() - text.len() ==> #[trigger] at_right(
                text,
                width,
            )[i] == ' ',
{
    assert(at_left(text, width).take(text.len() as int) =~= text);
    assert(at_right(text, width).skip(at_right(text, width).len() - text.len()) =~= text);
}

/// Ten times a number and a digit is written as the number and then the digit. One digit is
/// written as itself, and no number but zero begins with a zero.
pub proof fn law_decimal_digits_follow_each_other(n: nat, d: nat)
    requires
        d < 10,
    ensures
        decimal(d).len() == 1,
        decimal(d)[0] as nat == '0' as nat + d,
        n > 0 ==> decimal(n * 10 + d) == decimal(n) + decimal(d),
        n > 0 ==> decimal(n)[0] != '0',
    decreases n,
{
    if n > 0 {
        assert((n * 10 + d) / 10 == n);
        assert((n * 10 + d) % 10 == d);
        assert(decimal(n).push(digit(d)) =~= decimal(n) + decimal(d));
        if n < 10 {
            assert(decimal(n)[0] as nat == 48 + n);
        } else {
            lemma_decimal_digits(n / 10);
            law_decimal_digits_follow_each_other(n / 10, n % 10);
            assert(decimal(n)[0] == decimal(n / 10)[0]);
        }
    }
}

/// A number below zero is written as a minus sign and then its opposite; others are
/// written as they are.
pub proof fn law_negative_numbers_have_a_sign(n: nat)
    ensures
        signed_decimal(n as int) == decimal(n),
        n > 0 ==> signed_decimal(-n) == seq!['-'] + decimal(n),
{
    reveal_strlit("-");
    assert("-"@ =~= seq!['-']);
}

/// Reading a number: a digit behind a number makes it ten times as large and adds the
/// digit. A number that is too large is none.
pub proof fn law_digits_are_read_one_by_one(text: Seq<char>, c: char, max: nat)
    requires
        '0' <= c <= '9',
    ensures
        number_in(seq![c], max) == if c as nat - '0' as nat <= max {
            Some((c as nat - '0' as nat) as nat)
        } else {
            None
        },
        number_in(text, max) matches Some(n) ==> number_in(text.push(c), max) == {
            let longer = 10 * n + (c as nat - '0' as nat);
            if longer <= max {
                Some(longer as nat)
            } else {
                None
            }
        },
{
    let one = seq![c];
    assert(unsigned_part(one) =~= one);
    assert(one.drop_last() =~= Seq::<char>::empty());
    reveal_with_fuel(digits_value, 2);
    assert(one.last() == c);
    if number_in(text, max) is Some {
        let digits = unsigned_part(text);
        let more = unsigned_part(text.push(c));
        assert(more =~= digits.push(c));
        assert(more.drop_last() =~= digits);
        assert forall|i: int| 0 <= i < more.len() implies 48 <= #[trigger] more[i] as u32 <= 57 by {
            if i < digits.len() {
                assert(more[i] == digits[i]);
            }
        }
    }
}

/// A plus sign may stand before a number, once. A text that holds anything else but digits
/// is no number, and neither is an empty one.
pub proof fn law_only_digits_are_read(text: Seq<char>, i: int, c: char, max: nat)
    ensures
        number_in(Seq::empty(), max) is None,
        number_in(seq!['+'], max) is None,
        text.len() > 0 && text[0] != '+' ==> number_in(seq!['+'] + text, max) == number_in(
            text,
            max,
        ),
        0 <= i < text.len() && text[i] == c && !('0' <= c <= '9') && (i > 0 || c != '+')
            ==> number_in(text, max) is None,
{
    let signed = seq!['+'] + text;
    assert(signed.drop_first() =~= text);
    assert(seq!['+'].drop_first() =~= Seq::<char>::empty());
    if 0 <= i < text.len() && text[i] == c && !('0' <= c <= '9') && (i > 0 || c != '+') {
        let digits = unsigned_part(text);
        if text[0] == '+' {
            assert(digits[i - 1] == c);
            assert(!(48 <= digits[i - 1] as u32 <= 57));
        } else {
            assert(digits[i] == c);
            assert(!(48 <= digits[i] as u32 <= 57));
        }
    }
}

} // verus!
