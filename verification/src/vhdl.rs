use vstd::prelude::*;
use vstd::string::*;
use crate::text::chars_to_string;

verus! {

/// The text of one test case as a VHDL record aggregate.
pub open spec fn case_text(
    a: Seq<char>,
    b: Seq<char>,
    cin: Seq<char>,
    s: Seq<char>,
    cout: Seq<char>,
    ovfl: Seq<char>,
) -> Seq<char> {
    "(\n  a    => x\""@ + a + "\",\n  b    => x\""@ + b + "\",\n  cin  => '"@ + cin + "',\n  s    => x\""@
        + s + "\",\n  cout => '"@ + cout + "',\n  ovfl => '"@ + ovfl + "'\n)"@
}

/// Joins the field texts of one test case into a VHDL record aggregate.
pub fn case_string(a: &str, b: &str, cin: &str, s: &str, cout: &str, ovfl: &str) -> (r: String)
    ensures
        r@ == case_text(a@, b@, cin@, s@, cout@, ovfl@),
{
    let mut out = String::from_str("(\n  a    => x\"");
    out.append(a);
    out.append("\",\n  b    => x\"");
    out.append(b);
    out.append("\",\n  cin  => '");
    out.append(cin);
    out.append("',\n  s    => x\"");
    out.append(s);
    out.append("\",\n  cout => '");
    out.append(cout);
    out.append("',\n  ovfl => '");
    out.append(ovfl);
    out.append("'\n)");
    out
}

/// The decimal digit of a value below ten.
pub open spec fn digit_char(d: int) -> char {
    if d == 0 { '0' }
    else if d == 1 { '1' }
    else if d == 2 { '2' }
    else if d == 3 { '3' }
    else if d == 4 { '4' }
    else if d == 5 { '5' }
    else if d == 6 { '6' }
    else if d == 7 { '7' }
    else if d == 8 { '8' }
    else { '9' }
}

/// The decimal digits of `n`, most significant first, without leading zeros.
pub open spec fn decimal_text(n: nat) -> Seq<char>
    decreases n,
{
    if n < 10 {
        seq![digit_char(n as int)]
    } else {
        decimal_text(n / 10).push(digit_char((n % 10) as int))
    }
}

fn digit(d: usize) -> (c: char)
    requires
        d < 10,
    ensures
        c == digit_char(d as int),
{
    match d {
        0 => '0',
        1 => '1',
        2 => '2',
        3 => '3',
        4 => '4',
        5 => '5',
        6 => '6',
        7 => '7',
        8 => '8',
        _ => '9',
    }
}

/// `n` written in decimal.
pub fn decimal_string(n: usize) -> (s: String)
    ensures
        s@ == decimal_text(n as nat),
{
    // collect the digits least significant first, then reverse them
    let mut rev: Vec<char> = Vec::new();
    let mut m = n;
    let ghost mut done: Seq<char> = Seq::empty();
    while m >= 10
        invariant
            decimal_text(n as nat) == decimal_text(m as nat) + done,
            rev@ == done.reverse(),
        decreases m,
    {
        let c = digit(m % 10);
        proof {
            assert(decimal_text(m as nat) == decimal_text((m / 10) as nat).push(c));
            assert(decimal_text((m / 10) as nat).push(c) + done =~= decimal_text((m / 10) as nat) + seq![c].add(done));
            assert(seq![c].add(done).reverse() =~= done.reverse().push(c));
            done = seq![c].add(done);
        }
        rev.push(c);
        m = m / 10;
    }
    let c = digit(m);
    rev.push(c);
    proof {
        assert(seq![c].add(done).reverse() =~= done.reverse().push(c));
        done = seq![c].add(done);
        assert(decimal_text(n as nat) =~= done);
    }
    let mut chars: Vec<char> = Vec::new();
    let mut k = rev.len();
    while k > 0
        invariant
            k <= rev@.len(),
            rev@ == done.reverse(),
            chars@ == done.subrange(0, rev@.len() - k),
        decreases k,
    {
        k = k - 1;
        chars.push(rev[k]);
        proof {
            assert(done.subrange(0, rev@.len() - k) =~= done.subrange(0, rev@.len() - k - 1).push(rev@[k as int]));
        }
    }
    proof {
        assert(chars@ =~= done);
    }
    chars_to_string(chars)
}

/// The lines that list the cases inside the array aggregate: the first case
/// is indented, each later one is preceded by a comma.
pub open spec fn case_lines(cases: Seq<Seq<char>>) -> Seq<char>
    decreases cases.len(),
{
    if cases.len() == 0 {
        Seq::empty()
    } else {
        let i = cases.len() - 1;
        case_lines(cases.drop_last()) + (if i == 0 { "  "@ } else { ", "@ }) + cases[i] + "\n"@
    }
}

/// The text of a VHDL package named `entity` that declares the record type of
/// an adder case with `width`-bit operands and a constant array of the cases.
pub open spec fn package_text(entity: Seq<char>, width: nat, cases: Seq<Seq<char>>) -> Seq<char> {
    "library ieee;\n"@
        + "use ieee.std_logic_1164.all;\n"@
        + "package "@ + entity + " is\n"@
        + "  type AdderCase is record\n"@
        + "    a, b, s : std_logic_vector("@ + decimal_text((width - 1) as nat) + " downto 0);\n"@
        + "    cin, cout, ovfl : std_logic;\n"@
        + "  end record;\n"@
        + "  type AdderCaseArray is array (natural range <>) of AdderCase;\n"@
        + "  constant AdderVectors : AdderCaseArray := (\n"@
        + case_lines(cases)
        + ");\n"@
        + "  constant AdderVectorCount : natural := "@ + decimal_text(cases.len()) + ";\n"@
        + "end package "@ + entity + ";\n"@
}

/// The views of a list of strings.
pub open spec fn string_views(v: Seq<String>) -> Seq<Seq<char>> {
    Seq::new(v.len(), |i: int| v[i]@)
}

/// The VHDL package that holds the given cases (`width` is the operand width
/// in bits).
pub fn vhdl_package(entity: &str, width: usize, cases: &Vec<String>) -> (r: String)
    requires
        width >= 1,
    ensures
        r@ == package_text(entity@, width as nat, string_views(cases@)),
{
    let mut out = String::from_str("library ieee;\n");
    out.append("use ieee.std_logic_1164.all;\n");
    out.append("package ");
    out.append(entity);
    out.append(" is\n");
    out.append("  type AdderCase is record\n");
    out.append("    a, b, s : std_logic_vector(");
    let msb = decimal_string(width - 1);
    out.append(msb.as_str());
    out.append(" downto 0);\n");
    out.append("    cin, cout, ovfl : std_logic;\n");
    out.append("  end record;\n");
    out.append("  type AdderCaseArray is array (natural range <>) of AdderCase;\n");
    out.append("  constant AdderVectors : AdderCaseArray := (\n");
    let ghost head = out@;
    let mut i: usize = 0;
    while i < cases.len()
        invariant
            0 <= i <= cases@.len(),
            out@ == head + case_lines(string_views(cases@).take(i as int)),
        decreases cases@.len() - i,
    {
        let comma = if i == 0 { "  " } else { ", " };
        out.append(comma);
        out.append(cases[i].as_str());
        out.append("\n");
        proof {
            let views = string_views(cases@);
            assert(views.take(i + 1).drop_last() =~= views.take(i as int));
        }
        i = i + 1;
    }
    proof {
        assert(string_views(cases@).take(cases@.len() as int) =~= string_views(cases@));
    }
    out.append(");\n");
    out.append("  constant AdderVectorCount : natural := ");
    let count = decimal_string(cases.len());
    out.append(count.as_str());
    out.append(";\n");
    out.append("end package ");
    out.append(entity);
    out.append(";\n");
    out
}

/// The character a one-bit output is written as: `1`, `0`, or `-` when missing.
pub open spec fn output_char(v: Option<bool>) -> char {
    match v {
        Some(true) => '1',
        Some(false) => '0',
        None => '-',
    }
}

/// The text of a record ends with the carry out and then the overflow, each
/// in its own field: `cout => '<carry out>'`, then `ovfl => '<overflow>'`.
pub open spec fn ends_with_carry_fields(text: Seq<char>, cout: Option<bool>, ovfl: Option<bool>) -> bool {
    let tail = "\",\n  cout => '"@ + seq![output_char(cout)] + "',\n  ovfl => '"@ + seq![output_char(ovfl)] + "'\n)"@;
    &&& text.len() >= tail.len()
    &&& text.subrange(text.len() - tail.len(), text.len() as int) == tail
}

/// Decimal digits are written in the usual order: the digit of value `d` is
/// the `d`-th character of `0123456789`, and a number's text ends with the
/// digit of its last place, the rest being the text of the number divided by
/// ten.
pub proof fn lemma_decimal_digits(n: nat)
    ensures
        n < 10 ==> digit_char(n as int) == "0123456789"@[n as int],
        decimal_text(n).last() == "0123456789"@[(n % 10) as int],
        n >= 10 ==> decimal_text(n).drop_last() == decimal_text(n / 10),
        n < 10 ==> decimal_text(n).len() == 1,
{
    reveal_strlit("0123456789");
    if n >= 10 {
        assert(decimal_text(n).drop_last() =~= decimal_text(n / 10));
    }
}

/// The character a one-bit input is written as: `1`, `0`, or `X` when missing.
pub open spec fn input_char(v: Option<bool>) -> char {
    match v {
        Some(true) => '1',
        Some(false) => '0',
        None => 'X',
    }
}

/// The text of a record starts with the operand `a`, then `b`, then the carry
/// in, then the sum, each in its own field.
pub open spec fn starts_with_operand_fields(text: Seq<char>, a: Seq<char>, b: Seq<char>, cin: Option<bool>, s: Seq<char>) -> bool {
    let head = "(\n  a    => x\""@ + a + "\",\n  b    => x\""@ + b + "\",\n  cin  => '"@ + seq![input_char(cin)]
        + "',\n  s    => x\""@ + s;
    &&& text.len() >= head.len()
    &&& text.subrange(0, head.len() as int) == head
}

} // verus!
