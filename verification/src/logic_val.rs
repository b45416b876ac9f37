use vstd::prelude::*;
use crate::text::chars_to_string;

verus! {

/// One value of a (VHDL `std_logic`-style) logic signal.
#[derive(Debug, Clone, Copy)]
pub enum LogicVal {
    /// A forced unknown value, written `X`.
    ForceUnknown,
    /// A driven `0` or `1`.
    Val(bool),
    /// A "don't care" value, written `-`.
    NotCare,
}

/// The character that stands for a logic value.
pub open spec fn spec_as_char(v: LogicVal) -> char {
    match v {
        LogicVal::ForceUnknown => 'X',
        LogicVal::Val(true) => '1',
        LogicVal::Val(false) => '0',
        LogicVal::NotCare => '-',
    }
}

/// The logic value a character stands for, if any.
pub open spec fn spec_from_char(c: char) -> Option<LogicVal> {
    if c == 'X' {
        Some(LogicVal::ForceUnknown)
    } else if c == '1' {
        Some(LogicVal::Val(true))
    } else if c == '0' {
        Some(LogicVal::Val(false))
    } else if c == '-' {
        Some(LogicVal::NotCare)
    } else {
        None
    }
}

/// Whether two logic values match: a don't-care matches anything, other
/// values match only themselves.
pub open spec fn compatible(a: LogicVal, b: LogicVal) -> bool {
    match (a, b) {
        (LogicVal::NotCare, _) => true,
        (_, LogicVal::NotCare) => true,
        (LogicVal::Val(x), LogicVal::Val(y)) => x == y,
        (LogicVal::ForceUnknown, LogicVal::ForceUnknown) => true,
        _ => false,
    }
}

/// The upper-case hexadecimal digit of a value below 16.
#[verifier::opaque]
pub open spec fn hex_digit(n: int) -> char {
    if n == 0 { '0' }
    else if n == 1 { '1' }
    else if n == 2 { '2' }
    else if n == 3 { '3' }
    else if n == 4 { '4' }
    else if n == 5 { '5' }
    else if n == 6 { '6' }
    else if n == 7 { '7' }
    else if n == 8 { '8' }
    else if n == 9 { '9' }
    else if n == 10 { 'A' }
    else if n == 11 { 'B' }
    else if n == 12 { 'C' }
    else if n == 13 { 'D' }
    else if n == 14 { 'E' }
    else { 'F' }
}

/// The value of a hexadecimal digit (either case), if the character is one.
#[verifier::opaque]
pub open spec fn hex_value(c: char) -> Option<int> {
    if c == '0' { Some(0) }
    else if c == '1' { Some(1) }
    else if c == '2' { Some(2) }
    else if c == '3' { Some(3) }
    else if c == '4' { Some(4) }
    else if c == '5' { Some(5) }
    else if c == '6' { Some(6) }
    else if c == '7' { Some(7) }
    else if c == '8' { Some(8) }
    else if c == '9' { Some(9) }
    else if c == 'A' || c == 'a' { Some(10) }
    else if c == 'B' || c == 'b' { Some(11) }
    else if c == 'C' || c == 'c' { Some(12) }
    else if c == 'D' || c == 'd' { Some(13) }
    else if c == 'E' || c == 'e' { Some(14) }
    else if c == 'F' || c == 'f' { Some(15) }
    else { None }
}

/// Bit `i` (0 = least significant) of a nibble value.
pub open spec fn nibble_bit(n: int, i: int) -> bool {
    (n / pow2_small(i)) % 2 == 1
}

/// `2^i` for the bit positions of a nibble.
pub open spec fn pow2_small(i: int) -> int {
    if i == 0 { 1 } else if i == 1 { 2 } else if i == 2 { 4 } else { 8 }
}

/// The four driven values of a nibble, least significant bit first.
pub open spec fn nibble_vals(n: int) -> Seq<LogicVal> {
    seq![
        LogicVal::Val(nibble_bit(n, 0)),
        LogicVal::Val(nibble_bit(n, 1)),
        LogicVal::Val(nibble_bit(n, 2)),
        LogicVal::Val(nibble_bit(n, 3)),
    ]
}

/// The number a group of four driven values stands for, least significant first.
pub open spec fn nibble_of(s: Seq<LogicVal>) -> int {
    (if s[0] == LogicVal::Val(true) { 1int } else { 0int })
        + (if s[1] == LogicVal::Val(true) { 2int } else { 0int })
        + (if s[2] == LogicVal::Val(true) { 4int } else { 0int })
        + (if s[3] == LogicVal::Val(true) { 8int } else { 0int })
}

/// Whether every value of the sequence is a driven `0` or `1`.
pub open spec fn all_driven(s: Seq<LogicVal>) -> bool {
    forall|i: int| 0 <= i < s.len() ==> (#[trigger] s[i]) is Val
}

/// The hexadecimal character of a group of values: the digit of the four
/// driven bits (least significant first), or `X` for anything else.
#[verifier::opaque]
pub open spec fn spec_hex_char(s: Seq<LogicVal>) -> char {
    if s.len() == 4 && all_driven(s) {
        hex_digit(nibble_of(s))
    } else {
        'X'
    }
}

/// The four values a hexadecimal character stands for, least significant first.
#[verifier::opaque]
pub open spec fn spec_from_hex_char(c: char) -> Option<Seq<LogicVal>> {
    match hex_value(c) {
        Some(n) => Some(nibble_vals(n)),
        None => if c == 'X' {
            Some(seq![LogicVal::ForceUnknown, LogicVal::ForceUnknown, LogicVal::ForceUnknown, LogicVal::ForceUnknown])
        } else if c == '-' {
            Some(seq![LogicVal::NotCare, LogicVal::NotCare, LogicVal::NotCare, LogicVal::NotCare])
        } else {
            None
        },
    }
}

impl LogicVal {
    /// The character that stands for this value.
    pub fn as_char(self) -> (c: char)
        ensures
            c == spec_as_char(self),
    {
        match self {
            LogicVal::ForceUnknown => 'X',
            LogicVal::Val(true) => '1',
            LogicVal::Val(false) => '0',
            LogicVal::NotCare => '-',
        }
    }

    /// The value written as text: its character.
    pub fn to_string(&self) -> (s: String)
        ensures
            s@ == seq![spec_as_char(*self)],
    {
        let c = self.as_char();
        let v = vec![c];
        proof {
            assert(v@ =~= seq![c]);
        }
        chars_to_string(v)
    }

    /// The value a character stands for: `X`, `1`, `0` or `-`.
    pub fn try_from_char(chr: char) -> (r: Option<LogicVal>)
        ensures
            r == spec_from_char(chr),
    {
        match chr {
            'X' => Some(LogicVal::ForceUnknown),
            '1' => Some(LogicVal::Val(true)),
            '0' => Some(LogicVal::Val(false)),
            '-' => Some(LogicVal::NotCare),
            _ => None,
        }
    }

    /// The hexadecimal character of four values, least significant first:
    /// the upper-case digit when all four are driven, `X` otherwise
    /// (also when the slice does not hold exactly four values).
    pub fn as_hex_char(val: &[LogicVal]) -> (c: char)
        ensures
            c == spec_hex_char(val@),
    {
        proof {
            reveal(spec_hex_char);
            reveal(hex_digit);
        }
        if val.len() != 4 {
            return 'X';
        }
        let mut n: u8 = 0;
        let mut weight: u8 = 1;
        let mut i: usize = 0;
        while i < 4
            invariant
                val@.len() == 4,
                0 <= i <= 4,
                weight == pow2_small(i as int),
                forall|k: int| 0 <= k < i ==> (#[trigger] val@[k]) is Val,
                n == (if i > 0 && val@[0] == LogicVal::Val(true) { 1int } else { 0int })
                    + (if i > 1 && val@[1] == LogicVal::Val(true) { 2int } else { 0int })
                    + (if i > 2 && val@[2] == LogicVal::Val(true) { 4int } else { 0int })
                    + (if i > 3 && val@[3] == LogicVal::Val(true) { 8int } else { 0int }),
            decreases 4 - i,
        {
            match val[i] {
                LogicVal::Val(b) => {
                    if b {
                        n = n + weight;
                    }
                },
                _ => {
                    proof {
                        reveal(spec_hex_char);
                    }
                    return 'X';
                },
            }
            if i < 3 {
                weight = weight * 2;
            }
            i = i + 1;
        }
        proof {
            assert(all_driven(val@));
        }
        match n {
            0 => '0',
            1 => '1',
            2 => '2',
            3 => '3',
            4 => '4',
            5 => '5',
            6 => '6',
            7 => '7',
            8 => '8',
            9 => '9',
            10 => 'A',
            11 => 'B',
            12 => 'C',
            13 => 'D',
            14 => 'E',
            _ => 'F',
        }
    }

    /// The four values (least significant first) a hexadecimal digit, `X` or
    /// `-` stands for.
    pub fn try_from_hex_char(chr: char) -> (r: Option<[LogicVal; 4]>)
        ensures
            match r {
                Some(a) => spec_from_hex_char(chr) == Some(a@),
                None => spec_from_hex_char(chr) is None,
            },
    {
        proof {
            reveal(spec_from_hex_char);
            reveal(hex_value);
        }
        let fu = LogicVal::ForceUnknown;
        let nc = LogicVal::NotCare;
        let o = LogicVal::Val(false);
        let l = LogicVal::Val(true);
        let r = match chr {
            '0' => [o, o, o, o],
            '1' => [l, o, o, o],
            '2' => [o, l, o, o],
            '3' => [l, l, o, o],
            '4' => [o, o, l, o],
            '5' => [l, o, l, o],
            '6' => [o, l, l, o],
            '7' => [l, l, l, o],
            '8' => [o, o, o, l],
            '9' => [l, o, o, l],
            'A' | 'a' => [o, l, o, l],
            'B' | 'b' => [l, l, o, l],
            'C' | 'c' => [o, o, l, l],
            'D' | 'd' => [l, o, l, l],
            'E' | 'e' => [o, l, l, l],
            'F' | 'f' => [l, l, l, l],
            'X' => [fu, fu, fu, fu],
            '-' => [nc, nc, nc, nc],
            _ => {
                return None;
            },
        };
        proof {
            assert(spec_from_hex_char(chr).unwrap() =~= r@);
        }
        Some(r)
    }
}

impl PartialEq for LogicVal {
    /// Two values are equal when they match: a don't-care equals anything.
    fn eq(&self, other: &Self) -> (r: bool) {
        match (*self, *other) {
            (LogicVal::NotCare, _) => true,
            (_, LogicVal::NotCare) => true,
            (LogicVal::Val(a), LogicVal::Val(b)) => a == b,
            (LogicVal::ForceUnknown, LogicVal::ForceUnknown) => true,
            _ => false,
        }
    }
}

impl Eq for LogicVal {}

impl vstd::std_specs::cmp::PartialEqSpecImpl for LogicVal {
    open spec fn obeys_eq_spec() -> bool {
        true
    }

    open spec fn eq_spec(&self, other: &Self) -> bool {
        compatible(*self, *other)
    }
}

/// Writing a value as a character and reading it back gives the value.
pub proof fn lemma_char_round_trip(v: LogicVal)
    ensures
        spec_from_char(spec_as_char(v)) == Some(v),
{
}

/// A character that reads as a value is the character that value is written as.
pub proof fn lemma_char_read_back(c: char)
    ensures
        spec_from_char(c) matches Some(v) ==> spec_as_char(v) == c,
{
}

/// A hexadecimal digit read as four values and written back gives the
/// upper-case digit.
pub proof fn lemma_hex_digit_round_trip(c: char)
    requires
        hex_value(c) is Some,
    ensures
        spec_from_hex_char(c) matches Some(s) && spec_hex_char(s) == hex_digit(hex_value(c).unwrap()),
        'a' <= c <= 'f' || spec_hex_char(spec_from_hex_char(c).unwrap()) == c,
{
    reveal(spec_from_hex_char);
    reveal(spec_hex_char);
    reveal(hex_value);
    reveal(hex_digit);
    let n = hex_value(c).unwrap();
    let s = nibble_vals(n);
    assert(all_driven(s));
    assert(nibble_of(s) == n);
}

/// A character that reads as values reads as four of them.
pub proof fn lemma_from_hex_char_len(c: char)
    ensures
        spec_from_hex_char(c) matches Some(s) ==> s.len() == 4,
{
    reveal(spec_from_hex_char);
}

/// Four driven values written as a hexadecimal digit and read back give the
/// same four values.
pub proof fn lemma_hex_vals_round_trip(s: Seq<LogicVal>)
    requires
        s.len() == 4,
        all_driven(s),
    ensures
        spec_from_hex_char(spec_hex_char(s)) == Some(s),
{
    reveal(spec_from_hex_char);
    reveal(spec_hex_char);
    reveal(hex_value);
    reveal(hex_digit);
    assert(s[0] is Val);
    assert(s[1] is Val);
    assert(s[2] is Val);
    assert(s[3] is Val);
    let n = nibble_of(s);
    assert(0 <= n < 16);
    assert(nibble_vals(n) =~= s);
}

/// Matching is reflexive and symmetric, and a don't-care matches every value.
/// It is transitive through any value but a don't-care (through a don't-care
/// it is not: `1` and `0` both match `-` but not each other).
pub proof fn lemma_compatible(a: LogicVal, b: LogicVal, c: LogicVal)
    ensures
        compatible(a, a),
        compatible(a, b) == compatible(b, a),
        compatible(LogicVal::NotCare, a),
        compatible(a, LogicVal::NotCare),
        (a !is NotCare && b !is NotCare) ==> (compatible(a, b) <==> a == b),
        (compatible(a, b) && compatible(b, c) && b !is NotCare) ==> compatible(a, c),
{
}

/// Hexadecimal digits are written in the usual order: the digit of value `n`
/// is the `n`-th character of `0123456789ABCDEF`, and that character and its
/// lower-case form read back as `n`.
pub proof fn lemma_hex_digits_in_order(n: int)
    requires
        0 <= n < 16,
    ensures
        hex_digit(n) == "0123456789ABCDEF"@[n],
        hex_value("0123456789ABCDEF"@[n]) == Some(n),
        hex_value("0123456789abcdef"@[n]) == Some(n),
{
    reveal_strlit("0123456789ABCDEF");
    reveal_strlit("0123456789abcdef");
    reveal(hex_digit);
    reveal(hex_value);
}

/// Four driven values (least significant first) are written as the digit of
/// the number they stand for: the character of `0123456789ABCDEF` at that
/// number.
pub proof fn lemma_hex_char_of_value(s: Seq<LogicVal>)
    requires
        s.len() == 4,
        all_driven(s),
    ensures
        0 <= nibble_of(s) < 16,
        spec_hex_char(s) == "0123456789ABCDEF"@[nibble_of(s)],
{
    reveal(spec_hex_char);
    lemma_hex_digits_in_order(nibble_of(s));
}

/// The character of `0123456789ABCDEF` (or `0123456789abcdef`) at `n` reads
/// as the four bits of `n`, least significant first.
pub proof fn lemma_hex_char_reads_value(n: int)
    requires
        0 <= n < 16,
    ensures
        spec_from_hex_char("0123456789ABCDEF"@[n]) == Some(nibble_vals(n)),
        spec_from_hex_char("0123456789abcdef"@[n]) == Some(nibble_vals(n)),
{
    lemma_hex_digits_in_order(n);
    reveal(spec_from_hex_char);
}

/// A driven value is written as its binary digit, and the forced unknown and
/// don't-care values as `X` and `-`.
pub proof fn lemma_char_is_binary_digit(b: bool)
    ensures
        spec_as_char(LogicVal::Val(b)) == hex_digit(if b { 1 } else { 0 }),
        spec_as_char(LogicVal::Val(b)) == "01"@[if b { 1 } else { 0 }],
        spec_as_char(LogicVal::ForceUnknown) == "X-"@[0],
        spec_as_char(LogicVal::NotCare) == "X-"@[1],
{
    reveal(hex_digit);
    reveal_strlit("01");
    reveal_strlit("X-");
}

} // verus!
