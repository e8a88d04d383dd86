//! Character sequences: splitting, trimming and reading numbers.
use vstd::prelude::*;

verus! {

/// The characters of `s`, in order.
pub fn chars_of(s: &str) -> (v: Vec<char>)
    ensures
        v@ == s@,
{
    let mut v: Vec<char> = Vec::new();
    for c in it: s.chars()
        invariant
            it.seq() == s@,
            v@ == s@.take(it.index() as int),
    {
        v.push(c);
    }
    v
}

/// White space: the characters that Unicode gives the property White_Space.
pub open spec fn is_whitespace(c: char) -> bool {
    let u = c as u32;
    ||| 0x09 <= u <= 0x0D
    ||| u == 0x20
    ||| u == 0x85
    ||| u == 0xA0
    ||| u == 0x1680
    ||| 0x2000 <= u <= 0x200A
    ||| u == 0x2028
    ||| u == 0x2029
    ||| u == 0x202F
    ||| u == 0x205F
    ||| u == 0x3000
}

/// Whether `c` is white space.
pub fn whitespace(c: char) -> (b: bool)
    ensures
        b == is_whitespace(c),
{
    let u: u32 = c as u32;
    (0x09 <= u && u <= 0x0D) || u == 0x20 || u == 0x85 || u == 0xA0 || u == 0x1680 || (0x2000
        <= u && u <= 0x200A) || u == 0x2028 || u == 0x2029 || u == 0x202F || u == 0x205F || u
        == 0x3000
}

/// `s` without the white space at its start.
pub open spec fn trim_start(s: Seq<char>) -> Seq<char>
    decreases s.len(),
{
    if s.len() > 0 && is_whitespace(s[0]) {
        trim_start(s.drop_first())
    } else {
        s
    }
}

/// `s` without the white space at its end.
pub open spec fn trim_end(s: Seq<char>) -> Seq<char>
    decreases s.len(),
{
    if s.len() > 0 && is_whitespace(s.last()) {
        trim_end(s.drop_last())
    } else {
        s
    }
}

/// `s` without the white space at its start and at its end.
pub open spec fn trim(s: Seq<char>) -> Seq<char> {
    trim_end(trim_start(s))
}

/// `s` without the white space at its start and at its end.
pub fn trimmed(s: &[char]) -> (t: &[char])
    ensures
        t@ == trim(s@),
{
    let mut from: usize = 0;
    assert(s@.subrange(0, s@.len() as int) =~= s@);
    while from < s.len() && whitespace(s[from])
        invariant
            from <= s@.len(),
            trim_start(s@) == trim_start(s@.subrange(from as int, s@.len() as int)),
        decreases s@.len() - from,
    {
        proof {
            let rest = s@.subrange(from as int, s@.len() as int);
            assert(rest.drop_first() =~= s@.subrange(from + 1, s@.len() as int));
        }
        from += 1;
    }
    let mut to: usize = s.len();
    let ghost body = s@.subrange(from as int, s@.len() as int);
    assert(trim_start(s@) == body);
    while to > from && whitespace(s[to - 1])
        invariant
            from <= to <= s@.len(),
            body == s@.subrange(from as int, s@.len() as int),
            trim_end(body) == trim_end(s@.subrange(from as int, to as int)),
        decreases to,
    {
        proof {
            let rest = s@.subrange(from as int, to as int);
            assert(rest.drop_last() =~= s@.subrange(from as int, to - 1));
        }
        to -= 1;
    }
    &s[from..to]
}

/// The position of the first `sep` in `s`, or the length of `s` if there is
/// none.
pub open spec fn first_index(s: Seq<char>, sep: char) -> int
    decreases s.len(),
{
    if s.len() == 0 || s[0] == sep {
        0
    } else {
        1 + first_index(s.drop_first(), sep)
    }
}

/// The pieces into which the occurrences of `sep` cut `s`, in order. There is
/// always at least one piece, and a piece may be empty.
pub open spec fn pieces(s: Seq<char>, sep: char) -> Seq<Seq<char>>
    decreases s.len(),
{
    let at = first_index(s, sep);
    if 0 <= at < s.len() {
        seq![s.take(at)] + pieces(s.skip(at + 1), sep)
    } else {
        seq![s]
    }
}

/// The character sequences behind a sequence of slices.
pub open spec fn views(parts: Seq<&[char]>) -> Seq<Seq<char>> {
    Seq::new(parts.len(), |k: int| parts[k]@)
}

/// `first_index` stays within the sequence.
pub proof fn lemma_first_index_bounds(s: Seq<char>, sep: char)
    ensures
        0 <= first_index(s, sep) <= s.len(),
        first_index(s, sep) < s.len() ==> s[first_index(s, sep)] == sep,
        forall|k: int| 0 <= k < first_index(s, sep) ==> s[k] != sep,
    decreases s.len(),
{
    if !(s.len() == 0 || s[0] == sep) {
        let rest = s.drop_first();
        lemma_first_index_bounds(rest, sep);
        assert forall|k: int| 0 <= k < first_index(s, sep) implies s[k] != sep by {
            if k > 0 {
                assert(s[k] == rest[k - 1]);
            }
        }
    }
}

proof fn lemma_first_index_skips(s: Seq<char>, sep: char, k: int)
    requires
        0 <= k <= s.len(),
        forall|a: int| 0 <= a < k ==> s[a] != sep,
    ensures
        first_index(s, sep) == k + first_index(s.skip(k), sep),
    decreases k,
{
    if k == 0 {
        assert(s.skip(0) =~= s);
    } else {
        let rest = s.drop_first();
        assert forall|a: int| 0 <= a < k - 1 implies rest[a] != sep by {
            assert(rest[a] == s[a + 1]);
        }
        lemma_first_index_skips(rest, sep, k - 1);
        assert(rest.skip(k - 1) =~= s.skip(k));
    }
}

/// A text without `sep`, then `sep`, then the rest: the first piece is the
/// text, and the other pieces are those of the rest.
pub proof fn lemma_pieces_after_first(head: Seq<char>, sep: char, rest: Seq<char>)
    requires
        forall|k: int| 0 <= k < head.len() ==> head[k] != sep,
    ensures
        pieces(head + seq![sep] + rest, sep) == seq![head] + pieces(rest, sep),
{
    let s = head + seq![sep] + rest;
    assert forall|a: int| 0 <= a < head.len() implies s[a] != sep by {
        assert(s[a] == head[a]);
    }
    lemma_first_index_skips(s, sep, head.len() as int);
    assert(s.skip(head.len() as int)[0] == sep);
    assert(first_index(s, sep) == head.len());
    assert(s.take(head.len() as int) =~= head);
    assert(s.skip(head.len() as int + 1) =~= rest);
}

/// The pieces into which the occurrences of `sep` cut `s`, in order.
pub fn split(s: &[char], sep: char) -> (parts: Vec<&[char]>)
    ensures
        views(parts@) == pieces(s@, sep),
{
    let mut parts: Vec<&[char]> = Vec::new();
    let mut from: usize = 0;
    let mut i: usize = 0;
    assert(s@.skip(0) =~= s@);
    while i < s.len()
        invariant
            from <= i <= s@.len(),
            forall|a: int| from <= a < i ==> s@[a] != sep,
            pieces(s@, sep) == views(parts@) + pieces(s@.skip(from as int), sep),
        decreases s@.len() - i,
    {
        if s[i] == sep {
            let part = &s[from..i];
            proof {
                let tail = s@.skip(from as int);
                assert forall|a: int| 0 <= a < i - from implies tail[a] != sep by {
                    assert(tail[a] == s@[from + a]);
                }
                lemma_first_index_skips(tail, sep, i - from);
                assert(tail.skip(i - from)[0] == sep);
                assert(first_index(tail, sep) == i - from);
                assert(tail.take(i - from) =~= part@);
                assert(tail.skip(i - from + 1) =~= s@.skip(i + 1));
                assert(views(parts@.push(part)) =~= views(parts@) + seq![part@]);
            }
            parts.push(part);
            from = i + 1;
        }
        i += 1;
    }
    let part = &s[from..i];
    proof {
        let tail = s@.skip(from as int);
        assert forall|a: int| 0 <= a < i - from implies tail[a] != sep by {
            assert(tail[a] == s@[from + a]);
        }
        lemma_first_index_skips(tail, sep, i - from);
        assert(tail.skip(i - from).len() == 0);
        assert(first_index(tail, sep) == tail.len());
        assert(tail =~= part@);
        assert(views(parts@.push(part)) =~= views(parts@) + seq![part@]);
    }
    parts.push(part);
    parts
}

/// The largest radix in which a digit can be written with a figure or a
/// letter of the Latin alphabet.
pub const MAX_RADIX: u32 = 36;

/// What the digit `c` stands for in `radix`: the figures count from 0 and
/// the letters, in either case, from 10.
pub open spec fn digit_value(c: char, radix: nat) -> Option<nat> {
    let u = c as u32;
    let d = if 0x30 <= u <= 0x39 {
        u - 0x30
    } else if 0x61 <= u <= 0x7A {
        u - 0x61 + 10
    } else if 0x41 <= u <= 0x5A {
        u - 0x41 + 10
    } else {
        radix as int
    };
    if d < radix {
        Some(d as nat)
    } else {
        None
    }
}

/// The number that the digits `s` write in `radix`, most significant first;
/// `None` if a character of `s` is no digit of `radix`.
pub open spec fn digits_value(s: Seq<char>, radix: nat) -> Option<nat>
    decreases s.len(),
{
    if s.len() == 0 {
        Some(0)
    } else {
        match (digits_value(s.drop_last(), radix), digit_value(s.last(), radix)) {
            (Some(high), Some(low)) => Some(high * radix + low),
            _ => None,
        }
    }
}

/// The number that `s` writes in `radix` without a minus sign: an optional
/// `+` and then at least one digit.
pub open spec fn unsigned_value(s: Seq<char>, radix: nat) -> Option<nat> {
    let digits = if s.len() > 0 && s[0] == '+' {
        s.skip(1)
    } else {
        s
    };
    if digits.len() == 0 {
        None
    } else {
        digits_value(digits, radix)
    }
}

/// The number that `s` writes in `radix`: an optional `+` or `-` and then at
/// least one digit.
pub open spec fn signed_value(s: Seq<char>, radix: nat) -> Option<int> {
    if s.len() > 0 && s[0] == '-' {
        if s.len() == 1 {
            None
        } else {
            match digits_value(s.skip(1), radix) {
                Some(v) => Some(-(v as int)),
                None => None,
            }
        }
    } else {
        match unsigned_value(s, radix) {
            Some(v) => Some(v as int),
            None => None,
        }
    }
}

/// `v` as a machine word, if it is at most `limit`.
pub open spec fn capped(v: Option<nat>, limit: u64) -> Option<u64> {
    match v {
        Some(x) => if x <= limit {
            Some(x as u64)
        } else {
            None
        },
        None => None,
    }
}

/// `v` as a signed machine word, if it fits in one.
pub open spec fn in_i64(v: Option<int>) -> Option<i64> {
    match v {
        Some(x) => if i64::MIN <= x <= i64::MAX {
            Some(x as i64)
        } else {
            None
        },
        None => None,
    }
}

/// The digits at the start of a number write no more than the whole number.
pub proof fn lemma_digits_prefix(s: Seq<char>, radix: nat, k: int)
    requires
        0 <= k <= s.len(),
        radix >= 1,
        digits_value(s, radix) is Some,
    ensures
        digits_value(s.take(k), radix) is Some,
        digits_value(s.take(k), radix)->0 <= digits_value(s, radix)->0,
    decreases s.len(),
{
    if k == s.len() {
        assert(s.take(k) =~= s);
    } else {
        let front = s.drop_last();
        lemma_digits_prefix(front, radix, k);
        assert(front.take(k) =~= s.take(k));
        let high = digits_value(front, radix)->0;
        assert(high <= high * radix) by (nonlinear_arith)
            requires
                radix >= 1,
        ;
    }
}

/// What the digit `c` stands for in `radix`.
pub fn digit(c: char, radix: u32) -> (d: Option<u32>)
    requires
        radix <= MAX_RADIX,
    ensures
        match d {
            Some(v) => digit_value(c, radix as nat) == Some(v as nat),
            None => digit_value(c, radix as nat) is None,
        },
{
    let u: u32 = c as u32;
    let v: u32 = if 0x30 <= u && u <= 0x39 {
        u - 0x30
    } else if 0x61 <= u && u <= 0x7A {
        u - 0x61 + 10
    } else if 0x41 <= u && u <= 0x5A {
        u - 0x41 + 10
    } else {
        radix
    };
    if v < radix {
        Some(v)
    } else {
        None
    }
}

/// The number that the digits `s` write in `radix`, if it is at most
/// `limit`.
pub fn read_digits(s: &[char], radix: u32, limit: u64) -> (r: Option<u64>)
    requires
        1 <= radix <= MAX_RADIX,
    ensures
        r == capped(digits_value(s@, radix as nat), limit),
{
    let mut acc: u64 = 0;
    let mut i: usize = 0;
    while i < s.len()
        invariant
            1 <= radix <= MAX_RADIX,
            i <= s@.len(),
            acc <= limit,
            digits_value(s@.take(i as int), radix as nat) == Some(acc as nat),
        decreases s@.len() - i,
    {
        let ghost upto = s@.take(i + 1);
        proof {
            assert(upto.drop_last() =~= s@.take(i as int));
            assert(upto.last() == s@[i as int]);
            if digits_value(s@, radix as nat) is Some {
                lemma_digits_prefix(s@, radix as nat, i + 1);
            }
        }
        match digit(s[i], radix) {
            None => {
                return None;
            },
            Some(d) => {
                assert(acc * radix + d <= u64::MAX * 36 + 36) by (nonlinear_arith)
                    requires
                        acc <= u64::MAX,
                        radix <= 36,
                        d <= 36,
                ;
                let next: u128 = acc as u128 * radix as u128 + d as u128;
                if next > limit as u128 {
                    return None;
                }
                acc = next as u64;
            },
        }
        i += 1;
    }
    assert(s@.take(i as int) =~= s@);
    Some(acc)
}

/// The number that `s` writes in `radix` without a minus sign, if it is at
/// most `limit`.
pub fn parse_unsigned(s: &[char], radix: u32, limit: u64) -> (r: Option<u64>)
    requires
        1 <= radix <= MAX_RADIX,
    ensures
        r == capped(unsigned_value(s@, radix as nat), limit),
{
    let digits = if s.len() > 0 && s[0] == '+' {
        &s[1..s.len()]
    } else {
        s
    };
    assert(s@.subrange(1, s@.len() as int) =~= s@.skip(1));
    if digits.len() == 0 {
        None
    } else {
        read_digits(digits, radix, limit)
    }
}

/// The number that `s` writes in `radix`, if it fits in 64 bits with a sign.
pub fn parse_signed(s: &[char], radix: u32) -> (r: Option<i64>)
    requires
        1 <= radix <= MAX_RADIX,
    ensures
        r == in_i64(signed_value(s@, radix as nat)),
{
    if s.len() > 0 && s[0] == '-' {
        if s.len() == 1 {
            return None;
        }
        assert(s@.subrange(1, s@.len() as int) =~= s@.skip(1));
        match read_digits(&s[1..s.len()], radix, 0x8000_0000_0000_0000) {
            Some(v) => {
                if v == 0x8000_0000_0000_0000 {
                    Some(i64::MIN)
                } else {
                    Some(-(v as i64))
                }
            },
            None => None,
        }
    } else {
        match parse_unsigned(s, radix, 0x7FFF_FFFF_FFFF_FFFF) {
            Some(v) => Some(v as i64),
            None => None,
        }
    }
}

} // verus!
