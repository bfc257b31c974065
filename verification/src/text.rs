//! Numbers and bytes as text.

use vstd::prelude::*;

verus! {

/// The character a digit is written with.
pub open spec fn digit_char(digit: int) -> char {
    "0123456789abcdef"@[digit]
}

/// Bytes written out in hexadecimal, two digits to a byte.
pub open spec fn hex(bytes: Seq<u8>) -> Seq<char>
    decreases bytes.len(),
{
    if bytes.len() == 0 {
        Seq::empty()
    } else {
        let byte = bytes.last() as int;
        hex(bytes.drop_last()).push(digit_char(byte / 16)).push(digit_char(byte % 16))
    }
}

/// A number written out in decimal.
pub open spec fn decimal(number: nat) -> Seq<char>
    decreases number,
{
    if number < 10 {
        seq![digit_char(number as int)]
    } else {
        decimal(number / 10).push(digit_char((number % 10) as int))
    }
}

/// Pieces of text end to end, with `between` between each two.
pub open spec fn joined(pieces: Seq<Seq<char>>, between: Seq<char>) -> Seq<char>
    decreases pieces.len(),
{
    if pieces.len() == 0 {
        Seq::empty()
    } else if pieces.len() == 1 {
        pieces[0]
    } else {
        joined(pieces.drop_last(), between) + between + pieces.last()
    }
}

/// Joining one piece more writes it after what was joined already, with
/// `between` before it unless it is the first.
pub proof fn lemma_join_one_more(pieces: Seq<Seq<char>>, at: int, between: Seq<char>)
    requires
        0 <= at < pieces.len(),
    ensures
        joined(pieces.take(at + 1), between) == (if at == 0 {
            pieces[0]
        } else {
            joined(pieces.take(at), between) + between + pieces[at]
        }),
{
    assert(pieces.take(at + 1).drop_last() =~= pieces.take(at));
    assert(pieces.take(at + 1).last() == pieces[at]);
}

/// `String::push`: one more character on the end.
pub assume_specification[ String::push ](string: &mut String, c: char)
    ensures
        final(string)@ == old(string)@.push(c),
;

fn digit_text(digit: u8) -> (text: &'static str)
    requires
        digit < 16,
    ensures
        text@ == seq![digit_char(digit as int)],
{
    proof {
        reveal_strlit("0123456789abcdef");
        reveal_strlit("0");
        reveal_strlit("1");
        reveal_strlit("2");
        reveal_strlit("3");
        reveal_strlit("4");
        reveal_strlit("5");
        reveal_strlit("6");
        reveal_strlit("7");
        reveal_strlit("8");
        reveal_strlit("9");
        reveal_strlit("a");
        reveal_strlit("b");
        reveal_strlit("c");
        reveal_strlit("d");
        reveal_strlit("e");
        reveal_strlit("f");
    }
    let text = match digit {
        0 => "0",
        1 => "1",
        2 => "2",
        3 => "3",
        4 => "4",
        5 => "5",
        6 => "6",
        7 => "7",
        8 => "8",
        9 => "9",
        10 => "a",
        11 => "b",
        12 => "c",
        13 => "d",
        14 => "e",
        _ => "f",
    };
    assert(text@ =~= seq![digit_char(digit as int)]);
    text
}

/// Writes bytes onto the end of `text` in hexadecimal.
pub fn push_hex(text: &mut String, bytes: &[u8])
    ensures
        final(text)@ == old(text)@ + hex(bytes@),
{
    let ghost before = text@;
    let mut i: usize = 0;
    assert(bytes@.take(0) =~= Seq::empty());
    assert(text@ =~= before + hex(bytes@.take(0)));
    while i < bytes.len()
        invariant
            0 <= i <= bytes@.len(),
            text@ == before + hex(bytes@.take(i as int)),
        decreases bytes@.len() - i,
    {
        let byte = bytes[i];
        text.append(digit_text(byte / 16));
        text.append(digit_text(byte % 16));
        proof {
            let taken = bytes@.take(i + 1);
            assert(taken.drop_last() =~= bytes@.take(i as int));
            assert(taken.last() == byte);
            assert(text@ =~= before + hex(taken));
        }
        i += 1;
    }
    assert(bytes@.take(i as int) =~= bytes@);
}

/// Writes a number onto the end of `text` in decimal.
pub fn push_decimal(text: &mut String, number: u64)
    ensures
        final(text)@ == old(text)@ + decimal(number as nat),
    decreases number,
{
    let ghost before = text@;
    if number >= 10 {
        push_decimal(text, number / 10);
    }
    text.append(digit_text((number % 10) as u8));
    assert(text@ =~= before + decimal(number as nat));
}

/// The characters of some text.
pub fn chars_of(text: &str) -> (chars: Vec<char>)
    ensures
        chars@ == text@,
{
    let mut chars: Vec<char> = Vec::new();
    for c in it: text.chars()
        invariant
            it.seq() == text@,
            chars@ == text@.take(it.index() as int),
    {
        chars.push(c);
        assert(chars@ =~= text@.take(it.index() + 1));
    }
    assert(chars@ =~= text@);
    chars
}

/// The text some characters spell.
pub fn string_of(chars: &[char]) -> (text: String)
    ensures
        text@ == chars@,
{
    let mut text = String::new();
    let mut i: usize = 0;
    assert(text@ =~= chars@.take(0));
    while i < chars.len()
        invariant
            0 <= i <= chars@.len(),
            text@ == chars@.take(i as int),
        decreases chars@.len() - i,
    {
        text.push(chars[i]);
        assert(text@ =~= chars@.take(i + 1));
        i += 1;
    }
    assert(chars@.take(i as int) =~= chars@);
    text
}

/// Whether characters spell some text.
pub fn spells(chars: &[char], text: &str) -> (same: bool)
    ensures
        same == (chars@ == text@),
{
    let other = chars_of(text);
    if chars.len() != other.len() {
        return false;
    }
    let mut i: usize = 0;
    while i < chars.len()
        invariant
            chars@.len() == other@.len(),
            other@ == text@,
            0 <= i <= chars@.len(),
            forall|j: int| 0 <= j < i ==> chars@[j] == other@[j],
        decreases chars@.len() - i,
    {
        if chars[i] != other[i] {
            return false;
        }
        i += 1;
    }
    assert(chars@ =~= other@);
    true
}

/// Whether a character is white space.
pub open spec fn is_space(c: char) -> bool {
    let code = c as int;
    ||| 0x09 <= code <= 0x0d
    ||| code == 0x20
    ||| code == 0x85
    ||| code == 0xa0
    ||| code == 0x1680
    ||| 0x2000 <= code <= 0x200a
    ||| code == 0x2028
    ||| code == 0x2029
    ||| code == 0x202f
    ||| code == 0x205f
    ||| code == 0x3000
}

/// Whether a character is white space.
pub fn is_white(c: char) -> (space: bool)
    ensures
        space == is_space(c),
{
    let code = c as u32;
    (0x09 <= code && code <= 0x0d) || code == 0x20 || code == 0x85 || code == 0xa0 || code == 0x1680
        || (0x2000 <= code && code <= 0x200a) || code == 0x2028 || code == 0x2029 || code == 0x202f
        || code == 0x205f || code == 0x3000
}

/// The characters of the digits follow one another.
proof fn lemma_digits_are_worth_their_place(digit: int)
    requires
        0 <= digit < 16,
    ensures
        digit < 10 ==> digit_char(digit) as int == '0' as int + digit,
        digit >= 10 ==> digit_char(digit) as int == 'a' as int + digit - 10,
{
    reveal_strlit("0123456789abcdef");
}

/// A number written in decimal reads back as that number, digit by digit: it is
/// made of the digits zero to nine, and starts with a zero only if it is zero.
pub proof fn law_a_decimal_reads_back(number: nat)
    ensures
        decimal(number).fold_left(
            0nat,
            |read: nat, c: char| (read * 10 + (c as int - '0' as int)) as nat,
        ) == number,
        forall|i: int|
            0 <= i < decimal(number).len() ==> '0' <= #[trigger] decimal(number)[i] <= '9',
        decimal(number).len() > 0,
        decimal(number)[0] == '0' ==> number == 0,
    decreases number,
{
    let read = |read: nat, c: char| (read * 10 + (c as int - '0' as int)) as nat;
    let text = decimal(number);
    lemma_digits_are_worth_their_place((number % 10) as int);
    if number < 10 {
        assert(text.drop_last() =~= Seq::empty());
        reveal_with_fuel(Seq::fold_left, 2);
        lemma_digits_are_worth_their_place(number as int);
    } else {
        let head = decimal(number / 10);
        law_a_decimal_reads_back(number / 10);
        assert(text.drop_last() =~= head);
        assert(text.fold_left(0nat, read) == read(head.fold_left(0nat, read), text.last()));
        assert forall|i: int| 0 <= i < text.len() implies '0' <= #[trigger] text[i] <= '9' by {
            if i < head.len() {
                assert(text[i] == head[i]);
            }
        }
        assert(text[0] == head[0]);
    }
}

/// Different numbers are written differently.
pub proof fn law_decimals_tell_numbers_apart(a: nat, b: nat)
    requires
        decimal(a) == decimal(b),
    ensures
        a == b,
{
    law_a_decimal_reads_back(a);
    law_a_decimal_reads_back(b);
}

/// Bytes written in hexadecimal take two digits each, the greater first, in the
/// order of the bytes.
pub proof fn law_hex_is_two_digits_to_a_byte(bytes: Seq<u8>, at: int)
    requires
        0 <= at < bytes.len(),
    ensures
        hex(bytes).len() == 2 * bytes.len(),
        ({
            let (high, low) = (hex(bytes)[2 * at], hex(bytes)[2 * at + 1]);
            &&& '0' <= high <= '9' || 'a' <= high <= 'f'
            &&& '0' <= low <= '9' || 'a' <= low <= 'f'
            &&& bytes[at] == 16 * (if high <= '9' {
                high as int - '0' as int
            } else {
                high as int - 'a' as int + 10
            }) + (if low <= '9' {
                low as int - '0' as int
            } else {
                low as int - 'a' as int + 10
            })
        }),
    decreases bytes.len(),
{
    let head = bytes.drop_last();
    let byte = bytes.last() as int;
    lemma_digits_are_worth_their_place(byte / 16);
    lemma_digits_are_worth_their_place(byte % 16);
    if bytes.len() == 1 {
        assert(head =~= Seq::empty());
        reveal_with_fuel(hex, 2);
    } else {
        law_hex_is_two_digits_to_a_byte(head, if at < head.len() { at } else { 0 });
    }
}

/// Joining puts what goes between before every piece but the first, and adds
/// nothing else.
pub proof fn law_joining_separates_the_pieces(
    pieces: Seq<Seq<char>>,
    piece: Seq<char>,
    between: Seq<char>,
)
    ensures
        joined(Seq::empty(), between) == Seq::<char>::empty(),
        joined(seq![piece], between) == piece,
        pieces.len() > 0 ==> joined(pieces.push(piece), between) == joined(pieces, between)
            + between + piece,
{
    assert(pieces.push(piece).drop_last() =~= pieces);
}

/// A blank, a tab and the ends of lines are white space, and so are the wider and
/// narrower blanks and separators of other scripts; letters, digits and the
/// other marks a keyboard has are not, nor is anything else.
pub proof fn law_white_space_is_what_shows_as_nothing(c: char)
    ensures
        c == ' ' || c == '\t' || c == '\n' || c == '\r' ==> is_space(c),
        '!' <= c <= '~' ==> !is_space(c),
        is_space(c) <==> '\t' <= c <= '\r' || c == ' ' || c == '\u{85}' || c == '\u{a0}' || c
            == '\u{1680}' || '\u{2000}' <= c <= '\u{200a}' || c == '\u{2028}' || c == '\u{2029}' || c
            == '\u{202f}' || c == '\u{205f}' || c == '\u{3000}',
{
}

} // verus!
