//! Display names: trimming what players type, numbering default names.

use vstd::prelude::*;
use vstd::string::*;
use crate::bot::Difficulty;
use crate::state::Seat;

verus! {

/// The Unicode `White_Space` property, which `str::trim` strips.
pub open spec fn is_white_space(c: char) -> bool {
    let u = c as int;
    ||| 0x09 <= u <= 0x0d
    ||| u == 0x20
    ||| u == 0x85
    ||| u == 0xa0
    ||| u == 0x1680
    ||| 0x2000 <= u <= 0x200a
    ||| u == 0x2028
    ||| u == 0x2029
    ||| u == 0x202f
    ||| u == 0x205f
    ||| u == 0x3000
}

pub fn white_space(c: char) -> (r: bool)
    ensures
        r == is_white_space(c),
{
    let u = c as u32;
    (0x09 <= u && u <= 0x0d) || u == 0x20 || u == 0x85 || u == 0xa0 || u == 0x1680 || (0x2000 <= u
        && u <= 0x200a) || u == 0x2028 || u == 0x2029 || u == 0x202f || u == 0x205f || u == 0x3000
}

/// `s` without its leading white space.
pub open spec fn trim_start(s: Seq<char>) -> Seq<char>
    decreases s.len(),
{
    if s.len() > 0 && is_white_space(s[0]) {
        trim_start(s.drop_first())
    } else {
        s
    }
}

/// `s` without its trailing white space.
pub open spec fn trim_end(s: Seq<char>) -> Seq<char>
    decreases s.len(),
{
    if s.len() > 0 && is_white_space(s.last()) {
        trim_end(s.drop_last())
    } else {
        s
    }
}

/// The longest a display name may be, in characters.
pub const NAME_MAX_CHARS: usize = 14;

/// The decimal digit `d` as a character.
pub open spec fn digit_char(d: int) -> char {
    if d == 0 {
        '0'
    } else if d == 1 {
        '1'
    } else if d == 2 {
        '2'
    } else if d == 3 {
        '3'
    } else if d == 4 {
        '4'
    } else if d == 5 {
        '5'
    } else if d == 6 {
        '6'
    } else if d == 7 {
        '7'
    } else if d == 8 {
        '8'
    } else {
        '9'
    }
}

/// `n` written in decimal.
pub open spec fn decimal(n: nat) -> Seq<char>
    decreases n,
{
    if n < 10 {
        seq![digit_char(n as int)]
    } else {
        decimal(n / 10).push(digit_char((n % 10) as int))
    }
}

/// The name a player gets for a typed `name` at `seat`: trimmed and cut to
/// `NAME_MAX_CHARS` characters, or "Player N" (seats counted from 1) when
/// nothing is left.
pub open spec fn sanitized_name(name: Seq<char>, seat: int) -> Seq<char> {
    let t = trim_end(trim_start(name));
    if t.len() == 0 {
        "Player "@ + decimal((seat + 1) as nat)
    } else if t.len() <= NAME_MAX_CHARS {
        t
    } else {
        t.take(NAME_MAX_CHARS as int)
    }
}

/// The name of the `n`th bot of a room (counted from 1), e.g. "Easy bot 2".
pub open spec fn bot_name(difficulty: Difficulty, n: nat) -> Seq<char> {
    difficulty.name_spec() + " bot "@ + decimal(n)
}

fn digit(d: u8) -> (s: &'static str)
    requires
        d < 10,
    ensures
        s@ == seq![digit_char(d as int)],
{
    if d == 0 {
        proof { reveal_strlit("0"); }
        "0"
    } else if d == 1 {
        proof { reveal_strlit("1"); }
        "1"
    } else if d == 2 {
        proof { reveal_strlit("2"); }
        "2"
    } else if d == 3 {
        proof { reveal_strlit("3"); }
        "3"
    } else if d == 4 {
        proof { reveal_strlit("4"); }
        "4"
    } else if d == 5 {
        proof { reveal_strlit("5"); }
        "5"
    } else if d == 6 {
        proof { reveal_strlit("6"); }
        "6"
    } else if d == 7 {
        proof { reveal_strlit("7"); }
        "7"
    } else if d == 8 {
        proof { reveal_strlit("8"); }
        "8"
    } else {
        proof { reveal_strlit("9"); }
        "9"
    }
}

/// Appends `n` in decimal to `s`.
pub fn push_decimal(s: &mut String, n: u8)
    ensures
        final(s)@ == old(s)@ + decimal(n as nat),
{
    let ghost start = s@;
    let ghost m = n as nat;
    if n >= 100 {
        s.append(digit(n / 100));
        s.append(digit((n / 10) % 10));
        s.append(digit(n % 10));
        proof {
            assert(m / 10 / 10 == m / 100);
            assert(decimal(m / 100) == seq![digit_char((m / 100) as int)]);
            assert(decimal(m / 10) == decimal(m / 100).push(digit_char(((m / 10) % 10) as int)));
            assert(decimal(m) == decimal(m / 10).push(digit_char((m % 10) as int)));
            assert(s@ == start + decimal(m));
        }
    } else if n >= 10 {
        s.append(digit(n / 10));
        s.append(digit(n % 10));
        proof {
            assert(decimal(m / 10) == seq![digit_char((m / 10) as int)]);
            assert(decimal(m) == decimal(m / 10).push(digit_char((m % 10) as int)));
            assert(s@ == start + decimal(m));
        }
    } else {
        s.append(digit(n));
        proof {
            assert(decimal(m) == seq![digit_char(m as int)]);
        }
    }
}

/// The display name for a typed `name` at `seat` (see `sanitized_name`).
pub fn sanitize_name(name: &str, seat: Seat) -> (r: String)
    requires
        seat < 255,
    ensures
        r@ == sanitized_name(name@, seat as int),
{
    let len = name.unicode_len();
    let mut a: usize = 0;
    assert(name@.subrange(0, len as int) == name@);
    while a < len && white_space(name.get_char(a))
        invariant
            len == name@.len(),
            a <= len,
            trim_start(name@) == trim_start(name@.subrange(a as int, len as int)),
        decreases len - a,
    {
        assert(name@.subrange(a as int, len as int).drop_first() == name@.subrange(a + 1, len as int));
        a += 1;
    }
    let ghost front = name@.subrange(a as int, len as int);
    assert(trim_start(name@) == front);
    let mut b: usize = len;
    while b > a && white_space(name.get_char(b - 1))
        invariant
            len == name@.len(),
            a <= b <= len,
            front == name@.subrange(a as int, len as int),
            trim_end(front) == trim_end(name@.subrange(a as int, b as int)),
        decreases b - a,
    {
        assert(name@.subrange(a as int, b as int).drop_last() == name@.subrange(a as int, b - 1));
        b -= 1;
    }
    let ghost t = name@.subrange(a as int, b as int);
    assert(trim_end(front) == t);
    if a == b {
        let mut r = String::from_str("Player ");
        proof { reveal_strlit("Player "); }
        push_decimal(&mut r, seat + 1);
        r
    } else {
        let take = if b - a <= NAME_MAX_CHARS {
            b - a
        } else {
            NAME_MAX_CHARS
        };
        let r = String::from_str(name.substring_char(a, a + take));
        if b - a > NAME_MAX_CHARS {
            assert(t.take(NAME_MAX_CHARS as int) == name@.subrange(a as int, (a + NAME_MAX_CHARS) as int));
        }
        r
    }
}

/// The display name of a room's `n`th bot (see `bot_name`).
pub fn make_bot_name(difficulty: Difficulty, n: u8) -> (r: String)
    ensures
        r@ == bot_name(difficulty, n as nat),
{
    let mut r = String::from_str(difficulty.name());
    r.append(" bot ");
    proof { reveal_strlit(" bot "); }
    push_decimal(&mut r, n);
    r
}

// ---------------------------------------------------------------------------
// Room codes.

/// The room-code alphabet: no 0/O, 1/I/L, so codes read back unambiguously.
pub open spec fn code_alphabet_spec() -> Seq<char> {
    "ABCDEFGHJKMNPQRSTUVWXYZ23456789"@
}

/// How many letters the room-code alphabet has.
pub const CODE_ALPHABET_LEN: usize = 31;

/// How many letters a room code has.
pub const CODE_LEN: usize = 4;

/// The code spelled by `picks`, each an index into the alphabet.
pub open spec fn code_from(picks: Seq<usize>) -> Seq<char> {
    Seq::new(picks.len(), |i: int| code_alphabet_spec()[picks[i] as int])
}

fn code_alphabet() -> (s: &'static str)
    ensures
        s@ == code_alphabet_spec(),
        s@.len() == CODE_ALPHABET_LEN,
{
    proof {
        reveal_strlit("ABCDEFGHJKMNPQRSTUVWXYZ23456789");
    }
    "ABCDEFGHJKMNPQRSTUVWXYZ23456789"
}

/// The room code whose letters are the alphabet's letters at `picks`.
pub fn room_code(picks: &[usize; CODE_LEN]) -> (code: String)
    requires
        forall|i: int| 0 <= i < CODE_LEN ==> picks@[i] < CODE_ALPHABET_LEN,
    ensures
        code@ == code_from(picks@),
        code@.len() == CODE_LEN,
{
    let alphabet = code_alphabet();
    let mut code = String::new();
    let mut i: usize = 0;
    while i < CODE_LEN
        invariant
            i <= CODE_LEN,
            alphabet@ == code_alphabet_spec(),
            alphabet@.len() == CODE_ALPHABET_LEN,
            forall|j: int| 0 <= j < CODE_LEN ==> picks@[j] < CODE_ALPHABET_LEN,
            code@ == code_from(picks@.take(i as int)),
        decreases CODE_LEN - i,
    {
        let k = picks[i];
        code.append(alphabet.substring_char(k, k + 1));
        assert(code@ =~= code_from(picks@.take(i + 1)));
        i += 1;
    }
    assert(picks@.take(CODE_LEN as int) == picks@);
    code
}

} // verus!
