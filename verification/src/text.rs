//! Text helpers: decimal numbers, splitting, prefixes and suffixes.

use vstd::prelude::*;

verus! {

/// The character of a decimal digit.
pub open spec fn digit_char(d: nat) -> char {
    (48 + d) as char
}

/// The decimal form of a number, without leading zeros.
pub open spec fn decimal(n: nat) -> Seq<char>
    decreases n,
{
    if n < 10 {
        seq![digit_char(n)]
    } else {
        decimal(n / 10).push(digit_char(n % 10))
    }
}

pub open spec fn is_digit(c: char) -> bool {
    '0' <= c <= '9'
}

/// The number that a run of decimal digits stands for, `None` if another character occurs in it.
pub open spec fn digits_value(s: Seq<char>) -> Option<nat>
    decreases s.len(),
{
    if s.len() == 0 {
        Some(0)
    } else {
        match digits_value(s.drop_last()) {
            Some(v) if is_digit(s.last()) => Some(v * 10 + (s.last() as nat - 48) as nat),
            _ => None,
        }
    }
}

/// An unsigned 64-bit number in text: an optional `+`, then at least one decimal digit and nothing
/// else.
pub open spec fn parsed_u64(s: Seq<char>) -> Option<u64> {
    let body = if s.len() > 0 && s[0] == '+' {
        s.drop_first()
    } else {
        s
    };
    if body.len() == 0 {
        None
    } else {
        match digits_value(body) {
            Some(v) if v <= u64::MAX => Some(v as u64),
            _ => None,
        }
    }
}

/// The pieces of a text between the occurrences of a separator. There is always one more piece
/// than there are separators.
pub open spec fn pieces(s: Seq<char>, sep: char) -> Seq<Seq<char>>
    decreases s.len(),
{
    if s.len() == 0 {
        seq![Seq::<char>::empty()]
    } else {
        let front = pieces(s.drop_last(), sep);
        if s.last() == sep {
            front.push(Seq::<char>::empty())
        } else {
            front.update(front.len() - 1, front.last().push(s.last()))
        }
    }
}

pub open spec fn starts_with(s: Seq<char>, prefix: Seq<char>) -> bool {
    prefix.len() <= s.len() && s.take(prefix.len() as int) == prefix
}

pub open spec fn ends_with(s: Seq<char>, suffix: Seq<char>) -> bool {
    suffix.len() <= s.len() && s.skip(s.len() - suffix.len()) == suffix
}

/// The texts that vectors of characters hold.
pub open spec fn texts(parts: Seq<Vec<char>>) -> Seq<Seq<char>> {
    parts.map_values(|part: Vec<char>| part@)
}

/// The characters of a text.
pub fn to_chars(s: &str) -> (chars: Vec<char>)
    ensures
        chars@ == s@,
{
    let mut chars: Vec<char> = Vec::new();
    for c in iter: s.chars()
        invariant
            iter.seq() == s@,
            chars@ == s@.take(iter.index() as int),
    {
        chars.push(c);
    }
    chars
}

fn digit_text(d: u64) -> (text: &'static str)
    requires
        d < 10,
    ensures
        text@ == seq![digit_char(d as nat)],
{
    proof {
        reveal_strlit("0");
        reveal_strlit("1");
        reveal_strlit("2");
        reveal_strlit("3");
        reveal_strlit("4");
        reveal_strlit("5");
        reveal_strlit("6");
        reveal_strlit("7");
        reveal_strlit("8");
        reveal_strlit("9");
    }
    match d {
        0 => "0",
        1 => "1",
        2 => "2",
        3 => "3",
        4 => "4",
        5 => "5",
        6 => "6",
        7 => "7",
        8 => "8",
        _ => "9",
    }
}

/// Appends the decimal form of a number.
pub fn push_decimal(out: &mut String, n: u64)
    ensures
        final(out)@ == old(out)@ + decimal(n as nat),
    decreases n,
{
    if n >= 10 {
        push_decimal(out, n / 10);
    }
    out.append(digit_text(n % 10));
}

/// Whether two texts are the same.
pub fn same_text(a: &str, b: &str) -> (same: bool)
    ensures
        same == (a@ == b@),
{
    let a_chars = to_chars(a);
    let b_chars = to_chars(b);
    if a_chars.len() != b_chars.len() {
        return false;
    }
    let mut i: usize = 0;
    while i < a_chars.len()
        invariant
            a_chars@ == a@,
            b_chars@ == b@,
            a_chars.len() == b_chars.len(),
            i <= a_chars.len(),
            forall|j: int| 0 <= j < i ==> a@[j] == b@[j],
        decreases a_chars.len() - i,
    {
        if a_chars[i] != b_chars[i] {
            return false;
        }
        i = i + 1;
    }
    assert(a@ =~= b@);
    true
}

/// Whether a text begins with a prefix.
pub fn has_prefix(s: &str, prefix: &str) -> (yes: bool)
    ensures
        yes == starts_with(s@, prefix@),
{
    let chars = to_chars(s);
    let head = to_chars(prefix);
    if chars.len() < head.len() {
        return false;
    }
    let mut i: usize = 0;
    while i < head.len()
        invariant
            chars@ == s@,
            head@ == prefix@,
            head.len() <= chars.len(),
            i <= head.len(),
            forall|j: int| 0 <= j < i ==> s@[j] == prefix@[j],
        decreases head.len() - i,
    {
        if chars[i] != head[i] {
            assert(s@.take(prefix@.len() as int)[i as int] != prefix@[i as int]);
            return false;
        }
        i = i + 1;
    }
    assert(s@.take(prefix@.len() as int) =~= prefix@);
    true
}

/// Whether a text ends with a suffix.
pub fn has_suffix(s: &str, suffix: &str) -> (yes: bool)
    ensures
        yes == ends_with(s@, suffix@),
{
    let chars = to_chars(s);
    let tail = to_chars(suffix);
    if chars.len() < tail.len() {
        return false;
    }
    let start: usize = chars.len() - tail.len();
    let mut i: usize = 0;
    while i < tail.len()
        invariant
            chars@ == s@,
            tail@ == suffix@,
            start + tail.len() == chars.len(),
            i <= tail.len(),
            forall|j: int| 0 <= j < i ==> s@[start + j] == suffix@[j],
        decreases tail.len() - i,
    {
        if chars[start + i] != tail[i] {
            assert(s@.skip(start as int)[i as int] != suffix@[i as int]);
            return false;
        }
        i = i + 1;
    }
    assert(s@.skip(start as int) =~= suffix@);
    true
}

/// Reads an unsigned 64-bit number, as `u64::from_str` does.
pub fn parse_u64(s: &Vec<char>) -> (n: Option<u64>)
    ensures
        n == parsed_u64(s@),
{
    let start: usize = if s.len() > 0 && s[0] == '+' {
        1
    } else {
        0
    };
    let ghost body = if s@.len() > 0 && s@[0] == '+' {
        s@.drop_first()
    } else {
        s@
    };
    assert(body =~= s@.skip(start as int));
    if start == s.len() {
        return None;
    }
    let mut value: Option<u64> = Some(0);
    let mut i: usize = start;
    assert(body.take(0) =~= Seq::<char>::empty());
    while i < s.len()
        invariant
            start <= i <= s.len(),
            body == s@.skip(start as int),
            match value {
                Some(v) => digits_value(body.take(i - start)) == Some(v as nat),
                None => match digits_value(body.take(i - start)) {
                    Some(v) => v > u64::MAX,
                    None => true,
                },
            },
        decreases s.len() - i,
    {
        let c = s[i];
        let ghost seen = body.take(i - start + 1);
        assert(seen.drop_last() =~= body.take(i - start));
        assert(seen.last() == c);
        if c < '0' || c > '9' {
            value = None;
        } else {
            let d: u64 = c as u64 - 48;
            value = match value {
                Some(v) => if v < u64::MAX / 10 || (v == u64::MAX / 10 && d <= 5) {
                    Some(v * 10 + d)
                } else {
                    None
                },
                None => None,
            };
        }
        i = i + 1;
    }
    assert(body.take(body.len() as int) =~= body);
    value
}

/// The pieces of a text between the occurrences of a separator.
pub fn split(s: &Vec<char>, sep: char) -> (parts: Vec<Vec<char>>)
    ensures
        texts(parts@) == pieces(s@, sep),
{
    let mut parts: Vec<Vec<char>> = Vec::new();
    let mut piece: Vec<char> = Vec::new();
    let mut i: usize = 0;
    assert(s@.take(0) =~= Seq::<char>::empty());
    assert(texts(parts@).push(piece@) =~= pieces(s@.take(0), sep));
    while i < s.len()
        invariant
            i <= s.len(),
            texts(parts@).push(piece@) == pieces(s@.take(i as int), sep),
        decreases s.len() - i,
    {
        let c = s[i];
        let ghost seen = s@.take(i + 1);
        let ghost before = texts(parts@);
        let ghost piece_before = piece@;
        assert(seen.drop_last() =~= s@.take(i as int));
        if c == sep {
            parts.push(piece);
            piece = Vec::new();
            assert(texts(parts@) =~= before.push(piece_before));
            assert(texts(parts@).push(piece@) =~= pieces(seen, sep));
        } else {
            piece.push(c);
            assert(texts(parts@).push(piece@) =~= pieces(seen, sep));
        }
        i = i + 1;
    }
    assert(s@.take(s@.len() as int) =~= s@);
    let ghost before = texts(parts@);
    let ghost piece_before = piece@;
    parts.push(piece);
    assert(texts(parts@) =~= before.push(piece_before));
    parts
}

/// A text begins with another exactly if something can be put behind that to make it, and ends with
/// another exactly if something can be put before that.
pub proof fn law_beginnings_and_ends(s: Seq<char>, part: Seq<char>)
    ensures
        starts_with(s, part) <==> exists|rest: Seq<char>| s == #[trigger] (part + rest),
        ends_with(s, part) <==> exists|head: Seq<char>| s == #[trigger] (head + part),
{
    if starts_with(s, part) {
        assert(s =~= part + s.skip(part.len() as int));
    }
    if exists|rest: Seq<char>| s == #[trigger] (part + rest) {
        let rest = choose|rest: Seq<char>| s == #[trigger] (part + rest);
        assert(s.take(part.len() as int) =~= part);
    }
    if ends_with(s, part) {
        assert(s =~= s.take(s.len() - part.len()) + part);
    }
    if exists|head: Seq<char>| s == #[trigger] (head + part) {
        let head = choose|head: Seq<char>| s == #[trigger] (head + part);
        assert(s.skip(s.len() - part.len()) =~= part);
    }
}

/// Parts with a separator between each two.
pub open spec fn with_separators(parts: Seq<Seq<char>>, sep: char) -> Seq<char>
    decreases parts.len(),
{
    if parts.len() == 0 {
        Seq::empty()
    } else if parts.len() == 1 {
        parts[0]
    } else {
        with_separators(parts.drop_last(), sep) + seq![sep] + parts.last()
    }
}

/// Splitting cuts a text at every separator and nowhere else: no piece holds one, and the pieces
/// with separators between them are the text.
pub proof fn law_pieces_make_the_text(s: Seq<char>, sep: char)
    ensures
        pieces(s, sep).len() > 0,
        with_separators(pieces(s, sep), sep) == s,
        forall|i: int| 0 <= i < pieces(s, sep).len() ==> !(#[trigger] pieces(s, sep)[i]).contains(sep),
    decreases s.len(),
{
    let all = pieces(s, sep);
    if s.len() == 0 {
        assert(all.len() == 1);
        assert(with_separators(all, sep) =~= s);
    } else {
        let front = s.drop_last();
        let before = pieces(front, sep);
        law_pieces_make_the_text(front, sep);
        if s.last() == sep {
            assert(all.drop_last() =~= before);
            assert(with_separators(all, sep) =~= front + seq![sep] + Seq::<char>::empty());
            assert(with_separators(all, sep) =~= s);
            assert forall|i: int| 0 <= i < all.len() implies !(#[trigger] all[i]).contains(sep) by {
                if i < before.len() {
                    assert(all[i] == before[i]);
                }
            }
        } else {
            assert(all.len() == before.len());
            assert(all.last() == before.last().push(s.last()));
            assert(all.drop_last() =~= before.drop_last());
            if all.len() == 1 {
                assert(with_separators(all, sep) == all[0]);
                assert(with_separators(before, sep) == before[0]);
            }
            assert(with_separators(all, sep) =~= with_separators(before, sep).push(s.last()));
            assert(with_separators(all, sep) =~= s);
            assert forall|i: int| 0 <= i < all.len() implies !(#[trigger] all[i]).contains(sep) by {
                assert(!before[i].contains(sep));
                if i == all.len() - 1 {
                    let piece = before.last();
                    assert(!piece.contains(sep));
                    if all[i].contains(sep) {
                        let k = choose|k: int| 0 <= k < all[i].len() && all[i][k] == sep;
                        assert(piece[k] == sep);
                    }
                } else {
                    assert(all[i] == before[i]);
                }
            }
        }
    }
}

/// The number that a text stands for, digit by digit, if all of it are digits.
pub open spec fn place_value(s: Seq<char>) -> int
    decreases s.len(),
{
    if s.len() == 0 {
        0
    } else {
        10 * place_value(s.drop_last()) + (s.last() as int - '0' as int)
    }
}

pub open spec fn all_digits(s: Seq<char>) -> bool {
    forall|i: int| 0 <= i < s.len() ==> '0' <= #[trigger] s[i] <= '9'
}

/// The decimal form of a number consists of digits that stand for the number, and has no zero at its
/// beginning unless it is the whole.
pub proof fn law_decimal_form(n: nat)
    ensures
        decimal(n).len() > 0,
        all_digits(decimal(n)),
        place_value(decimal(n)) == n,
        n > 0 ==> decimal(n)[0] != '0',
    decreases n,
{
    if n < 10 {
        assert(decimal(n).drop_last() =~= Seq::<char>::empty());
        assert(place_value(decimal(n).drop_last()) == 0);
    } else {
        law_decimal_form(n / 10);
        assert(decimal(n).drop_last() =~= decimal(n / 10));
        assert forall|i: int| 0 <= i < decimal(n).len() implies '0' <= #[trigger] decimal(n)[i]
            <= '9' by {
            if i < decimal(n / 10).len() {
                assert(decimal(n)[i] == decimal(n / 10)[i]);
            }
        }
        assert(decimal(n)[0] == decimal(n / 10)[0]);
    }
}

proof fn lemma_digits_value(s: Seq<char>)
    ensures
        digits_value(s) is Some <==> all_digits(s),
        digits_value(s) matches Some(v) ==> v == place_value(s),
    decreases s.len(),
{
    if s.len() > 0 {
        let front = s.drop_last();
        lemma_digits_value(front);
        if all_digits(s) {
            assert forall|i: int| 0 <= i < front.len() implies '0' <= #[trigger] front[i] <= '9' by {
                assert(front[i] == s[i]);
            }
            assert('0' <= s[s.len() - 1] <= '9');
        }
        if digits_value(s) is Some {
            assert forall|i: int| 0 <= i < s.len() implies '0' <= #[trigger] s[i] <= '9' by {
                if i < front.len() {
                    assert(front[i] == s[i]);
                }
            }
        }
    }
}

/// A text is a number exactly if it is digits, at least one, perhaps behind a plus sign, that stand
/// for one that fits; and then it is that number.
pub proof fn law_numbers_in_text(s: Seq<char>)
    ensures
        ({
            let digits = if s.len() > 0 && s[0] == '+' {
                s.skip(1)
            } else {
                s
            };
            &&& parsed_u64(s) is Some <==> digits.len() > 0 && all_digits(digits) && place_value(
                digits,
            ) <= u64::MAX
            &&& parsed_u64(s) matches Some(n) ==> n == place_value(digits)
        }),
{
    let digits = if s.len() > 0 && s[0] == '+' {
        s.skip(1)
    } else {
        s
    };
    if s.len() > 0 {
        assert(s.skip(1) =~= s.drop_first());
    }
    lemma_digits_value(digits);
}

} // verus!
