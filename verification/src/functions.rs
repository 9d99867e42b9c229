//! The general functions of Nscript: encodings, numbers, the timer, and the
//! texts that the file and program functions report.
use vstd::prelude::*;
use vstd::string::StringSliceAdditionalSpecFns;
use vstd::utf8::{
    decode_utf8, valid_utf8, encode_utf8, encode_utf8_decode_utf8, encode_utf8_valid_utf8, is_ascii_chars,
    is_ascii_chars_encode_utf8,
};

use crate::bindings::{
    base64_decode, base64_decoded, base64_encode, decode_with_bom_sniffing, hex_decode,
    sniffed_utf8_decoding, utf8_lossy, utf8_lossy_string,
};
use crate::text::{chars_of, extend_chars, slice_chars, split_chars, split_text, string_of, views};

pub use crate::arrays::{arrayfilter, arraypush, arraypushroll, arraysearch, arrayshuffle, arraysort};

verus! {

/// The Base64 symbol of a 6-bit value.
pub open spec fn base64_symbol(v: int) -> char {
    if v < 26 {
        (65 + v) as char
    } else if v < 52 {
        (97 + v - 26) as char
    } else if v < 62 {
        (48 + v - 52) as char
    } else if v == 62 {
        '+'
    } else {
        '/'
    }
}

/// The standard Base64 encoding of RFC 4648, padded with `=`: each group of
/// three bytes becomes four symbols of six bits each.
pub open spec fn base64_text(b: Seq<u8>) -> Seq<char>
    decreases b.len(),
{
    if b.len() == 0 {
        Seq::empty()
    } else if b.len() == 1 {
        seq![base64_symbol(b[0] as int / 4), base64_symbol((b[0] as int % 4) * 16), '=', '=']
    } else if b.len() == 2 {
        seq![
            base64_symbol(b[0] as int / 4),
            base64_symbol((b[0] as int % 4) * 16 + b[1] as int / 16),
            base64_symbol((b[1] as int % 16) * 4),
            '=',
        ]
    } else {
        seq![
            base64_symbol(b[0] as int / 4),
            base64_symbol((b[0] as int % 4) * 16 + b[1] as int / 16),
            base64_symbol((b[1] as int % 16) * 4 + b[2] as int / 64),
            base64_symbol(b[2] as int % 64),
        ] + base64_text(b.skip(3))
    }
}

/// The value of a hexadecimal digit of either case.
pub open spec fn hex_digit_value(c: u8) -> Option<u8> {
    if 48 <= c <= 57 {
        Some((c - 48) as u8)
    } else if 65 <= c <= 70 {
        Some((c - 55) as u8)
    } else if 97 <= c <= 102 {
        Some((c - 87) as u8)
    } else {
        None
    }
}

/// The bytes written by a text of hexadecimal digit pairs; `None` for an odd
/// length or a byte that is not a hexadecimal digit.
pub open spec fn hex_decoded(t: Seq<u8>) -> Option<Seq<u8>>
    decreases t.len(),
{
    if t.len() % 2 != 0 {
        None
    } else if t.len() == 0 {
        Some(Seq::empty())
    } else {
        match (hex_digit_value(t[0]), hex_digit_value(t[1]), hex_decoded(t.skip(2))) {
            (Some(h), Some(l), Some(rest)) => Some(seq![(h * 16 + l) as u8] + rest),
            _ => None,
        }
    }
}

/// An upper-case hexadecimal digit.
pub open spec fn hex_upper_digit(n: int) -> char {
    if n < 10 {
        (48 + n) as char
    } else {
        (55 + n) as char
    }
}

/// Each byte written as two upper-case hexadecimal digits.
pub open spec fn hex_upper_text(b: Seq<u8>) -> Seq<char>
    decreases b.len(),
{
    if b.len() == 0 {
        Seq::empty()
    } else {
        seq![hex_upper_digit(b[0] as int / 16), hex_upper_digit(b[0] as int % 16)]
            + hex_upper_text(b.skip(1))
    }
}

/// The bytes start with the UTF-8 byte order mark.
pub open spec fn has_utf8_bom(b: Seq<u8>) -> bool {
    b.len() >= 3 && b[0] == 0xEFu8 && b[1] == 0xBBu8 && b[2] == 0xBFu8
}

/// A decimal digit character.
pub open spec fn digit_char(d: int) -> char {
    (48 + d) as char
}

/// `c` is one of `0` to `9`.
pub open spec fn is_digit(c: char) -> bool {
    48 <= (c as u32) <= 57
}

/// The number written by a sequence of decimal digits.
pub open spec fn digits_value(d: Seq<char>) -> nat
    decreases d.len(),
{
    if d.len() == 0 {
        0
    } else {
        digits_value(d.drop_last()) * 10 + ((d.last() as u32) - 48) as nat
    }
}

/// The decimal numeral of a natural number, without leading zeros.
pub open spec fn decimal_text(n: nat) -> Seq<char>
    decreases n,
{
    if n < 10 {
        seq![digit_char(n as int)]
    } else {
        decimal_text(n / 10).push(digit_char((n % 10) as int))
    }
}

/// The text without a leading `+` sign.
pub open spec fn unsigned_digits(s: Seq<char>) -> Seq<char> {
    if s.len() > 0 && s[0] == '+' {
        s.drop_first()
    } else {
        s
    }
}

/// Every character is a decimal digit.
pub open spec fn all_digits(d: Seq<char>) -> bool {
    forall|i: int| 0 <= i < d.len() ==> is_digit(#[trigger] d[i])
}

/// The number that an unsigned integer's `FromStr` reads from the text: an
/// optional `+` followed by at least one decimal digit and nothing else.
pub open spec fn unsigned_numeral(s: Seq<char>) -> Option<nat> {
    let d = unsigned_digits(s);
    if d.len() > 0 && all_digits(d) {
        Some(digits_value(d))
    } else {
        None
    }
}

/// Converts a string to its standard padded Base64 encoding.
pub fn string_to_base64(string_in: &str) -> (res: String)
    ensures
        res@ == base64_text(string_in.spec_bytes()),
{
    base64_encode(string_in.as_bytes())
}

/// The text of the bytes that a Base64 string encodes (malformed UTF-8
/// replaced); empty when the string is not Base64.
///
/// Decoding gives back the string that was encoded: a Base64 string that
/// encodes the UTF-8 bytes of a text yields that text.
pub fn base64_to_string(string_in: &str) -> (res: String)
    ensures
        res@ == match base64_decoded(string_in@) {
            Some(b) => utf8_lossy(b),
            None => Seq::empty(),
        },
        base64_decoded(string_in@) matches Some(b) ==> (valid_utf8(b) ==> res@ == decode_utf8(b)),
        forall|x: Seq<char>| #[trigger] base64_text(encode_utf8(x)) == string_in@ ==> res@ == x,
{
    match base64_decode(string_in) {
        Some(decoded) => {
            let res = utf8_lossy_string(decoded.as_slice());
            proof {
                assert forall|x: Seq<char>| #[trigger]
                    base64_text(encode_utf8(x)) == string_in@ implies res@ == x by {
                    encode_utf8_valid_utf8(x);
                    encode_utf8_decode_utf8(x);
                }
            }
            res
        },
        None => String::new(),
    }
}

/// The text of a file's contents, read as UTF-8 after any byte order mark:
/// contents in valid UTF-8 give the text they encode, without a leading
/// UTF-8 byte order mark.
pub fn decode_file_text(contents: &[u8]) -> (res: String)
    ensures
        res@ == sniffed_utf8_decoding(contents@),
        valid_utf8(contents@) ==> res@ == decode_utf8(
            if has_utf8_bom(contents@) {
                contents@.skip(3)
            } else {
                contents@
            },
        ),
{
    decode_with_bom_sniffing(contents)
}

/// The value of a decimal digit character.
fn digit_value(c: char) -> (d: u32)
    requires
        is_digit(c),
    ensures
        d == (c as u32) - 48,
        d < 10,
{
    (c as u32) - 48
}

/// A decimal digit as a character.
fn digit_char_exec(d: u64) -> (c: char)
    requires
        d < 10,
    ensures
        c == digit_char(d as int),
{
    match d {
        0 => '0',
        1 => '1',
        2 => '2',
        3 => '3',
        4 => '4',
        5 => '5',
        6 => '6',
        7 => '7',
        8 => '8',
        _ => '9',
    }
}

/// The number in the text, as `usize::from_str` reads it; 0 when the text
/// is not such a number or the number exceeds `usize::MAX`.
pub fn parse_string_to_usize(input: &str) -> (res: usize)
    ensures
        res == match unsigned_numeral(input@) {
            Some(v) => if v <= usize::MAX {
                v as usize
            } else {
                0
            },
            None => 0,
        },
{
    let s = chars_of(input);
    let start: usize = if s.len() > 0 && s[0] == '+' {
        1
    } else {
        0
    };
    let ghost d = unsigned_digits(s@);
    assert(d =~= s@.skip(start as int));
    if start == s.len() {
        return 0;
    }
    let mut acc: usize = 0;
    let mut i = start;
    let mut fits = true;
    while i < s.len()
        invariant
            start <= i <= s.len(),
            s@ == input@,
            d == s@.skip(start as int),
            d == unsigned_digits(s@),
            forall|k: int| 0 <= k < i - start ==> is_digit(#[trigger] d[k]),
            fits ==> acc == digits_value(d.take(i - start)),
            !fits ==> digits_value(d.take(i - start)) > usize::MAX,
        decreases s.len() - i,
    {
        let c = s[i];
        assert(d[i - start] == c);
        if !((c as u32) >= 48 && (c as u32) <= 57) {
            assert(!is_digit(d[i - start]));
            assert(unsigned_numeral(input@) is None);
            return 0;
        }
        let dv = digit_value(c);
        proof {
            let t = d.take(i + 1 - start);
            assert(t.drop_last() =~= d.take(i - start));
            assert(t.last() == c);
        }
        if fits {
            match acc.checked_mul(10) {
                Some(m) => match m.checked_add(dv as usize) {
                    Some(v) => {
                        acc = v;
                    },
                    None => {
                        fits = false;
                    },
                },
                None => {
                    fits = false;
                },
            }
        }
        i = i + 1;
    }
    assert(d.take(s.len() - start) =~= d);
    if fits {
        acc
    } else {
        0
    }
}

/// The decimal numeral of `n`.
pub fn decimal_string(n: u64) -> (res: String)
    ensures
        res@ == decimal_text(n as nat),
{
    let mut acc: Vec<char> = Vec::new();
    let mut m = n;
    while m >= 10
        invariant
            decimal_text(n as nat) == decimal_text(m as nat) + acc@,
        decreases m,
    {
        let c = digit_char_exec(m % 10);
        let ghost before = acc@;
        acc.insert(0, c);
        assert(decimal_text(m as nat) == decimal_text((m / 10) as nat).push(c));
        assert(acc@ =~= seq![c] + before);
        assert(decimal_text(m as nat) + before =~= decimal_text((m / 10) as nat) + acc@);
        m = m / 10;
    }
    let c = digit_char_exec(m);
    acc.insert(0, c);
    assert(acc@ =~= decimal_text(n as nat));
    string_of(&acc)
}

/// The size of a file in bytes, written as `filesizebytes` writes it.
pub fn size_text(size: u64) -> (res: String)
    ensures
        res@ == decimal_text(size as nat),
{
    decimal_string(size)
}

/// An upper-case hexadecimal digit, as `hex_upper_digit` says.
fn hex_upper_digit_exec(n: u8) -> (c: char)
    requires
        n < 16,
    ensures
        c == hex_upper_digit(n as int),
{
    if n < 10 {
        digit_char_exec(n as u64)
    } else {
        match n {
            10 => 'A',
            11 => 'B',
            12 => 'C',
            13 => 'D',
            14 => 'E',
            _ => 'F',
        }
    }
}

/// Each byte of the string written as two upper-case hexadecimal digits.
pub fn string_to_hex(input: &str) -> (res: String)
    ensures
        res@ == hex_upper_text(input.spec_bytes()),
{
    let bytes = input.as_bytes();
    let mut out: Vec<char> = Vec::new();
    let mut i: usize = 0;
    assert(bytes@.skip(0) =~= bytes@);
    while i < bytes.len()
        invariant
            i <= bytes@.len(),
            bytes@ == input.spec_bytes(),
            hex_upper_text(bytes@) == out@ + hex_upper_text(bytes@.skip(i as int)),
        decreases bytes@.len() - i,
    {
        let b = bytes[i];
        let high = hex_upper_digit_exec(b / 16);
        let low = hex_upper_digit_exec(b % 16);
        let ghost before = out@;
        out.push(high);
        out.push(low);
        assert(bytes@.skip(i as int).skip(1) =~= bytes@.skip(i + 1));
        assert(bytes@.skip(i as int)[0] == b);
        assert(out@ + hex_upper_text(bytes@.skip(i + 1)) =~= before + hex_upper_text(
            bytes@.skip(i as int),
        ));
        i = i + 1;
    }
    assert(bytes@.skip(bytes@.len() as int) =~= Seq::<u8>::empty());
    assert(out@ + Seq::<char>::empty() =~= out@);
    string_of(&out)
}

/// The text of the bytes that a hexadecimal string writes (malformed UTF-8
/// replaced); empty when the string is not hexadecimal.
///
/// Decoding gives back the string that was encoded: the hexadecimal text of
/// the UTF-8 bytes of a text yields that text.
pub fn hex_to_string(hex_string: &str) -> (res: String)
    ensures
        res@ == match hex_decoded(hex_string.spec_bytes()) {
            Some(b) => utf8_lossy(b),
            None => Seq::empty(),
        },
        hex_decoded(hex_string.spec_bytes()) matches Some(b) ==> (valid_utf8(b) ==> res@
            == decode_utf8(b)),
        forall|x: Seq<char>| hex_string@ == #[trigger] hex_upper_text(encode_utf8(x)) ==> res@ == x,
{
    match hex_decode(hex_string) {
        Some(bytes) => {
            let res = utf8_lossy_string(bytes.as_slice());
            proof {
                assert forall|x: Seq<char>|
                    hex_string@ == #[trigger] hex_upper_text(encode_utf8(x)) implies res@ == x by {
                    law_hex_roundtrip(encode_utf8(x));
                    encode_utf8_valid_utf8(x);
                    encode_utf8_decode_utf8(x);
                }
            }
            res
        },
        None => {
            proof {
                assert forall|x: Seq<char>|
                    hex_string@ == #[trigger] hex_upper_text(encode_utf8(x)) implies false by {
                    law_hex_roundtrip(encode_utf8(x));
                }
            }
            String::new()
        },
    }
}

proof fn lemma_hex_upper_text(b: Seq<u8>)
    ensures
        hex_upper_text(b).len() == 2 * b.len(),
        is_ascii_chars(hex_upper_text(b)),
        forall|k: int|
            0 <= k < b.len() ==> hex_upper_text(b)[2 * k] == hex_upper_digit(#[trigger] b[k] as int / 16)
                && hex_upper_text(b)[2 * k + 1] == hex_upper_digit(b[k] as int % 16),
    decreases b.len(),
{
    if b.len() > 0 {
        lemma_hex_upper_text(b.skip(1));
        let t = hex_upper_text(b);
        let r = hex_upper_text(b.skip(1));
        assert forall|k: int| 0 <= k < b.len() implies t[2 * k] == hex_upper_digit(
            #[trigger] b[k] as int / 16,
        ) && t[2 * k + 1] == hex_upper_digit(b[k] as int % 16) by {
            if k > 0 {
                assert(b.skip(1)[k - 1] == b[k]);
                assert(t[2 * k] == r[2 * (k - 1)]);
                assert(t[2 * k + 1] == r[2 * (k - 1) + 1]);
            }
        }
        assert forall|i: int| 0 <= i < t.len() implies '\0' <= #[trigger] t[i] <= '\u{7f}' by {
            if i >= 2 {
                assert(t[i] == r[i - 2]);
            }
        }
    }
}

proof fn lemma_hex_decode_digits(t: Seq<u8>, b: Seq<u8>)
    requires
        t.len() == 2 * b.len(),
        forall|k: int|
            0 <= k < b.len() ==> t[2 * k] == hex_upper_digit(#[trigger] b[k] as int / 16) as u8
                && t[2 * k + 1] == hex_upper_digit(b[k] as int % 16) as u8,
    ensures
        hex_decoded(t) == Some(b),
    decreases b.len(),
{
    if b.len() > 0 {
        let t2 = t.skip(2);
        let b2 = b.skip(1);
        assert forall|k: int| 0 <= k < b2.len() implies t2[2 * k] == hex_upper_digit(
            #[trigger] b2[k] as int / 16,
        ) as u8 && t2[2 * k + 1] == hex_upper_digit(b2[k] as int % 16) as u8 by {
            assert(b2[k] == b[k + 1]);
            assert(t2[2 * k] == t[2 * (k + 1)]);
            assert(t2[2 * k + 1] == t[2 * (k + 1) + 1]);
        }
        lemma_hex_decode_digits(t2, b2);
        assert(t[0] == hex_upper_digit(b[0] as int / 16) as u8);
        assert(t[1] == hex_upper_digit(b[0] as int % 16) as u8);
        assert(seq![b[0]] + b2 =~= b);
    }
}

/// Hexadecimal decoding undoes `hex_upper_text`: the bytes of the upper-case
/// hexadecimal text of any bytes decode to those bytes.
pub proof fn law_hex_roundtrip(b: Seq<u8>)
    ensures
        hex_decoded(encode_utf8(hex_upper_text(b))) == Some(b),
{
    let t = hex_upper_text(b);
    lemma_hex_upper_text(b);
    is_ascii_chars_encode_utf8(t);
    let e = encode_utf8(t);
    assert forall|k: int| 0 <= k < b.len() implies e[2 * k] == hex_upper_digit(
        #[trigger] b[k] as int / 16,
    ) as u8 && e[2 * k + 1] == hex_upper_digit(b[k] as int % 16) as u8 by {
        assert(t[2 * k] as u8 == e[2 * k]);
        assert(t[2 * k + 1] as u8 == e[2 * k + 1]);
    }
    lemma_hex_decode_digits(e, b);
}

/// The entry at position `entree` of the pieces of `arrayvar` between
/// occurrences of `delim`; empty past the last entry.
pub fn splitselect(arrayvar: &str, delim: &str, entree: usize) -> (res: String)
    ensures
        res@ == if entree < split_text(arrayvar@, delim@).len() {
            split_text(arrayvar@, delim@)[entree as int]
        } else {
            Seq::empty()
        },
{
    let av = chars_of(arrayvar);
    let dv = chars_of(delim);
    let pieces = split_chars(&av, &dv);
    if entree < pieces.len() {
        assert(views(pieces@)[entree as int] == pieces@[entree as int]@);
        string_of(&pieces[entree])
    } else {
        String::new()
    }
}

/// A reading of the clock: the parts of the current time that the timer
/// writes down.
pub struct ClockReading {
    pub year: i32,
    pub month: u32,
    pub day: u32,
    pub hour: u32,
    pub minute: u32,
    pub second: u32,
    pub millis: u32,
}

/// The ranges of a reading of chrono's clock.
pub open spec fn valid_reading(r: ClockReading) -> bool {
    &&& -262143 <= r.year <= 262142
    &&& 1 <= r.month <= 12
    &&& 1 <= r.day <= 31
    &&& r.hour < 24
    &&& r.minute < 60
    &&& r.second < 60
    &&& r.millis < 2000
}

/// `c` has the Unicode `White_Space` property, as `char::is_whitespace`
/// says.
pub open spec fn is_white_space(c: char) -> bool {
    let u = c as u32;
    (0x09 <= u <= 0x0D) || u == 0x20 || u == 0x85 || u == 0xA0 || u == 0x1680 || (0x2000 <= u
        <= 0x200A) || u == 0x2028 || u == 0x2029 || u == 0x202F || u == 0x205F || u == 0x3000
}

/// The text without its trailing white space.
pub open spec fn trim_end_text(s: Seq<char>) -> Seq<char>
    decreases s.len(),
{
    if s.len() > 0 && is_white_space(s.last()) {
        trim_end_text(s.drop_last())
    } else {
        s
    }
}

/// The pieces of the text between its white-space characters, empty ones
/// included.
pub open spec fn white_space_pieces(s: Seq<char>) -> Seq<Seq<char>>
    decreases s.len(),
{
    if s.len() == 0 {
        seq![Seq::<char>::empty()]
    } else {
        let r = white_space_pieces(s.drop_last());
        if is_white_space(s.last()) {
            r.push(Seq::<char>::empty())
        } else {
            r.update(r.len() - 1, r.last().push(s.last()))
        }
    }
}

/// The words of the text: its non-empty pieces between white space, as
/// `str::split_whitespace` gives them.
pub open spec fn words_text(s: Seq<char>) -> Seq<Seq<char>> {
    white_space_pieces(s).filter(|w: Seq<char>| w.len() > 0)
}

/// Whether `c` is white space, as `is_white_space` says.
pub fn is_white_space_exec(c: char) -> (r: bool)
    ensures
        r == is_white_space(c),
{
    let u = c as u32;
    (0x09 <= u && u <= 0x0D) || u == 0x20 || u == 0x85 || u == 0xA0 || u == 0x1680 || (0x2000 <= u
        && u <= 0x200A) || u == 0x2028 || u == 0x2029 || u == 0x202F || u == 0x205F || u == 0x3000
}

proof fn lemma_white_space_pieces_len(s: Seq<char>)
    ensures
        white_space_pieces(s).len() >= 1,
    decreases s.len(),
{
    if s.len() > 0 {
        lemma_white_space_pieces_len(s.drop_last());
    }
}

/// What the user typed, without trailing white space (the line end among
/// it), or `default` when nothing else is left.
pub fn user_input_or_default(line: &str, default: &str) -> (res: String)
    ensures
        res@ == if trim_end_text(line@).len() == 0 {
            default@
        } else {
            trim_end_text(line@)
        },
{
    let lv = chars_of(line);
    let mut end = lv.len();
    assert(lv@.take(end as int) =~= lv@);
    while end > 0 && is_white_space_exec(lv[end - 1])
        invariant
            end <= lv@.len(),
            trim_end_text(lv@) == trim_end_text(lv@.take(end as int)),
        decreases end,
    {
        let ghost t = lv@.take(end as int);
        assert(t.drop_last() =~= lv@.take(end - 1));
        end = end - 1;
    }
    let ghost t = lv@.take(end as int);
    assert(trim_end_text(t) == t);
    if end == 0 {
        default.to_owned()
    } else {
        let kept = slice_chars(&lv, 0, end);
        assert(kept@ =~= t);
        string_of(&kept)
    }
}

/// The words of the command line, as `str::split_whitespace` gives them:
/// the program followed by its arguments.
pub fn command_words(command: &str) -> (res: Vec<String>)
    ensures
        res@.map_values(|w: String| w@) == words_text(command@),
{
    let cv = chars_of(command);
    let mut done: Vec<String> = Vec::new();
    let mut cur: Vec<char> = Vec::new();
    let mut i: usize = 0;
    assert(cv@.take(0) =~= Seq::<char>::empty());
    assert(white_space_pieces(Seq::<char>::empty()).drop_last() =~= Seq::<Seq<char>>::empty());
    assert(Seq::<Seq<char>>::empty().filter(|w: Seq<char>| w.len() > 0) =~= Seq::<Seq<char>>::empty()) by {
        reveal(Seq::filter);
    }
    assert(done@.map_values(|w: String| w@) =~= Seq::<Seq<char>>::empty());
    while i < cv.len()
        invariant
            i <= cv@.len(),
            cv@ == command@,
            done@.map_values(|w: String| w@) == white_space_pieces(cv@.take(i as int)).drop_last().filter(
                |w: Seq<char>| w.len() > 0,
            ),
            white_space_pieces(cv@.take(i as int)).last() == cur@,
        decreases cv@.len() - i,
    {
        let c = cv[i];
        let ghost pre = cv@.take(i as int);
        let ghost pieces = white_space_pieces(pre);
        let ghost next = cv@.take(i + 1);
        proof {
            lemma_white_space_pieces_len(pre);
            assert(next.drop_last() =~= pre);
            assert(next.last() == c);
        }
        if is_white_space_exec(c) {
            assert(white_space_pieces(next) == pieces.push(Seq::<char>::empty()));
            assert(white_space_pieces(next).drop_last() =~= pieces);
            assert(pieces =~= pieces.drop_last().push(cur@));
            assert(pieces.filter(|w: Seq<char>| w.len() > 0) == if cur@.len() > 0 {
                pieces.drop_last().filter(|w: Seq<char>| w.len() > 0).push(cur@)
            } else {
                pieces.drop_last().filter(|w: Seq<char>| w.len() > 0)
            }) by {
                reveal(Seq::filter);
            }
            if cur.len() > 0 {
                let w = string_of(&cur);
                let ghost before = done@;
                done.push(w);
                assert(done@.map_values(|w: String| w@) =~= before.map_values(|w: String| w@).push(
                    cur@,
                ));
            }
            cur = Vec::new();
        } else {
            let ghost old_cur = cur@;
            cur.push(c);
            assert(white_space_pieces(next) == pieces.update(pieces.len() - 1, old_cur.push(c)));
            assert(white_space_pieces(next).drop_last() =~= pieces.drop_last());
        }
        i = i + 1;
    }
    let ghost pieces = white_space_pieces(cv@.take(i as int));
    proof {
        lemma_white_space_pieces_len(cv@.take(i as int));
        assert(cv@.take(i as int) =~= command@);
        assert(pieces =~= pieces.drop_last().push(cur@));
        assert(pieces.filter(|w: Seq<char>| w.len() > 0) == if cur@.len() > 0 {
            pieces.drop_last().filter(|w: Seq<char>| w.len() > 0).push(cur@)
        } else {
            pieces.drop_last().filter(|w: Seq<char>| w.len() > 0)
        }) by {
            reveal(Seq::filter);
        }
    }
    if cur.len() > 0 {
        let w = string_of(&cur);
        let ghost before = done@;
        done.push(w);
        assert(done@.map_values(|w: String| w@) =~= before.map_values(|w: String| w@).push(cur@));
    }
    done
}

/// The file and directory operations whose outcome Nscript reports.
#[derive(Clone, Copy, Debug, PartialEq, Eq, Structural)]
pub enum FileOperation {
    FileMove,
    FileCopy,
    FileDelete,
    DirectoryDelete,
    DirectoryMove,
}

/// The report of an operation that succeeded.
pub open spec fn success_message(op: FileOperation) -> Seq<char> {
    match op {
        FileOperation::FileMove => "File moved successfully"@,
        FileOperation::FileCopy => "File copied successfully"@,
        FileOperation::FileDelete => "File deleted successfully"@,
        FileOperation::DirectoryDelete => "Directory deleted successfully"@,
        FileOperation::DirectoryMove => "Directory moved successfully"@,
    }
}

/// The start of the report of an operation that failed; the error follows.
pub open spec fn failure_prefix(op: FileOperation) -> Seq<char> {
    match op {
        FileOperation::FileMove => "Error moving file: "@,
        FileOperation::FileCopy => "Error copying file: "@,
        FileOperation::FileDelete => "Error deleting file: "@,
        FileOperation::DirectoryDelete => "Error deleting directory: "@,
        FileOperation::DirectoryMove => "Error moving directory: "@,
    }
}

/// A string holding `a` followed by `b`.
pub fn concat_str(a: &str, b: &str) -> (res: String)
    ensures
        res@ == a@ + b@,
{
    let mut v = chars_of(a);
    let w = chars_of(b);
    extend_chars(&mut v, &w);
    string_of(&v)
}

/// The report of a file or directory operation, given its outcome (the
/// error as the operating system describes it).
pub fn operation_report(op: FileOperation, outcome: Result<(), String>) -> (res: String)
    ensures
        res@ == match outcome {
            Ok(_) => success_message(op),
            Err(e) => failure_prefix(op) + e@,
        },
{
    match outcome {
        Ok(_) => match op {
            FileOperation::FileMove => "File moved successfully".to_owned(),
            FileOperation::FileCopy => "File copied successfully".to_owned(),
            FileOperation::FileDelete => "File deleted successfully".to_owned(),
            FileOperation::DirectoryDelete => "Directory deleted successfully".to_owned(),
            FileOperation::DirectoryMove => "Directory moved successfully".to_owned(),
        },
        Err(e) => match op {
            FileOperation::FileMove => concat_str("Error moving file: ", e.as_str()),
            FileOperation::FileCopy => concat_str("Error copying file: ", e.as_str()),
            FileOperation::FileDelete => concat_str("Error deleting file: ", e.as_str()),
            FileOperation::DirectoryDelete => concat_str("Error deleting directory: ", e.as_str()),
            FileOperation::DirectoryMove => concat_str("Error moving directory: ", e.as_str()),
        },
    }
}

/// What became of running a program.
pub enum ProgramOutcome {
    /// The program ran; `success` tells whether it exited successfully.
    Finished { success: bool, code: Option<i32>, stdout: Vec<u8>, stderr: Vec<u8> },
    /// The program could not be started.
    NotStarted { error: String },
}

/// An integer in decimal, with a leading `-` when negative.
pub open spec fn signed_decimal_text(n: int) -> Seq<char> {
    if n < 0 {
        seq!['-'] + decimal_text((-n) as nat)
    } else {
        decimal_text(n as nat)
    }
}

/// An exit code as `{:?}` writes an `Option<i32>`.
pub open spec fn exit_code_text(code: Option<i32>) -> Seq<char> {
    match code {
        Some(n) => "Some("@ + signed_decimal_text(n as int) + ")"@,
        None => "None"@,
    }
}

/// The report of running a program.
pub open spec fn program_report_text(outcome: ProgramOutcome) -> Seq<char> {
    match outcome {
        ProgramOutcome::Finished { success, code, stdout, stderr } => if success {
            "Program executed successfully.\nStdout: "@ + utf8_lossy(stdout@) + "\nStderr: "@
                + utf8_lossy(stderr@)
        } else {
            "Program execution failed with exit code: "@ + exit_code_text(code)
        },
        ProgramOutcome::NotStarted { error } => "Failed to execute program: "@ + error@,
    }
}

/// An integer in decimal, as `signed_decimal_text` says.
pub fn signed_decimal_string(n: i32) -> (res: String)
    ensures
        res@ == signed_decimal_text(n as int),
{
    if n < 0 {
        let m = (-(n as i64)) as u64;
        let digits = decimal_string(m);
        proof {
            reveal_strlit("-");
        }
        concat_str("-", digits.as_str())
    } else {
        decimal_string(n as u64)
    }
}

/// The report of running a program, as `program_report_text` says.
pub fn program_report(outcome: &ProgramOutcome) -> (res: String)
    ensures
        res@ == program_report_text(*outcome),
        *outcome matches ProgramOutcome::Finished { success, stdout, stderr, .. } ==> (success
            && valid_utf8(stdout@) && valid_utf8(stderr@) ==> res@
            == "Program executed successfully.\nStdout: "@ + decode_utf8(stdout@) + "\nStderr: "@
            + decode_utf8(stderr@)),
{
    match outcome {
        ProgramOutcome::Finished { success, code, stdout, stderr } => {
            if *success {
                let out = utf8_lossy_string(stdout.as_slice());
                let err = utf8_lossy_string(stderr.as_slice());
                let a = concat_str("Program executed successfully.\nStdout: ", out.as_str());
                let b = concat_str(a.as_str(), "\nStderr: ");
                concat_str(b.as_str(), err.as_str())
            } else {
                let code_text = match code {
                    Some(n) => {
                        let digits = signed_decimal_string(*n);
                        let a = concat_str("Some(", digits.as_str());
                        concat_str(a.as_str(), ")")
                    },
                    None => "None".to_owned(),
                };
                concat_str("Program execution failed with exit code: ", code_text.as_str())
            }
        },
        ProgramOutcome::NotStarted { error } => concat_str(
            "Failed to execute program: ",
            error.as_str(),
        ),
    }
}

/// The unit in which `filesize` writes a size.
#[derive(Clone, Copy, Debug, PartialEq, Eq, Structural)]
pub enum SizeUnit {
    Bytes,
    Kilobytes,
    Megabytes,
    Gigabytes,
}

/// The unit for a size in bytes: the largest of GB, MB and KB (in powers of
/// 1000) that the size reaches, else bytes.
pub fn size_unit(size: u64) -> (res: SizeUnit)
    ensures
        res == if size >= 1_000_000_000 {
            SizeUnit::Gigabytes
        } else if size >= 1_000_000 {
            SizeUnit::Megabytes
        } else if size >= 1_000 {
            SizeUnit::Kilobytes
        } else {
            SizeUnit::Bytes
        },
{
    if size >= 1_000_000_000 {
        SizeUnit::Gigabytes
    } else if size >= 1_000_000 {
        SizeUnit::Megabytes
    } else if size >= 1_000 {
        SizeUnit::Kilobytes
    } else {
        SizeUnit::Bytes
    }
}

/// The timer of Nscript: time stamps are the digits of the current UTC
/// time, `YYYYMMDDhhmmss` followed by the milliseconds, read as a number.
pub struct Timer {}

/// The number written by the digits of a reading: the year, then month,
/// day, hour, minute and second in two digits each, then the milliseconds
/// in three digits (four in a leap second); negative for a year before 0.
pub open spec fn stamp_value(r: ClockReading) -> int {
    let fields = (((r.month as int * 100 + r.day as int) * 100 + r.hour as int) * 100
        + r.minute as int) * 100 + r.second as int;
    let magnitude = if r.millis < 1000 {
        abs_year(r.year as int) * 10_000_000_000_000 + fields * 1000 + r.millis as int
    } else {
        abs_year(r.year as int) * 100_000_000_000_000 + fields * 10000 + r.millis as int
    };
    if r.year < 0 {
        -magnitude
    } else {
        magnitude
    }
}

/// The magnitude of a year.
pub open spec fn abs_year(y: int) -> int {
    if y < 0 {
        -y
    } else {
        y
    }
}

/// The value fits an `i64`.
pub open spec fn fits_i64(v: int) -> bool {
    i64::MIN <= v <= i64::MAX
}

/// The time stamp of a reading, when it fits an `i64`.
pub open spec fn stamp_of(r: ClockReading) -> Option<i64> {
    if fits_i64(stamp_value(r)) {
        Some(stamp_value(r) as i64)
    } else {
        None
    }
}

/// `now - handle`, when it fits an `i64`.
pub open spec fn stamp_difference(now: int, handle: int) -> Option<i64> {
    if fits_i64(now - handle) {
        Some((now - handle) as i64)
    } else {
        None
    }
}

impl Timer {
    /// The time stamp of a clock reading; `None` when the number does not
    /// fit an `i64`.
    pub fn stamp(reading: &ClockReading) -> (res: Option<i64>)
        requires
            valid_reading(*reading),
        ensures
            res == stamp_of(*reading),
    {
        let fields: i128 = (((reading.month as i128 * 100 + reading.day as i128) * 100
            + reading.hour as i128) * 100 + reading.minute as i128) * 100 + reading.second as i128;
        let year: i128 = if reading.year < 0 {
            -(reading.year as i128)
        } else {
            reading.year as i128
        };
        let magnitude: i128 = if reading.millis < 1000 {
            year * 10_000_000_000_000 + fields * 1000 + reading.millis as i128
        } else {
            year * 100_000_000_000_000 + fields * 10000 + reading.millis as i128
        };
        let value: i128 = if reading.year < 0 {
            -magnitude
        } else {
            magnitude
        };
        if value >= i64::MIN as i128 && value <= i64::MAX as i128 {
            Some(value as i64)
        } else {
            None
        }
    }

    /// The time stamp of now; `None` when the clock gives no reading or the
    /// stamp does not fit an `i64`.
    pub fn init() -> (res: Option<i64>)
        ensures
            res is None || exists|r: ClockReading| valid_reading(r) && res == stamp_of(r),
    {
        match crate::bindings::clock_now() {
            Some(reading) => Timer::stamp(&reading),
            None => None,
        }
    }

    /// The difference between two time stamps; `None` when it does not fit
    /// an `i64`.
    pub fn elapsed(now: i64, timerhandle: i64) -> (res: Option<i64>)
        ensures
            res == stamp_difference(now as int, timerhandle as int),
    {
        now.checked_sub(timerhandle)
    }

    /// The difference between the time stamp of now and `timerhandle`;
    /// `None` when the clock gives no reading or either number does not fit
    /// an `i64`.
    pub fn diff(timerhandle: i64) -> (res: Option<i64>)
        ensures
            res is None || exists|r: ClockReading|
                valid_reading(r) && res == match stamp_of(r) {
                    Some(now) => stamp_difference(now as int, timerhandle as int),
                    None => None,
                },
    {
        match Timer::init() {
            Some(now) => Timer::elapsed(now, timerhandle),
            None => None,
        }
    }
}

} // verus!
