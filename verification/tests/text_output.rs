use test_generator::vhdl::{case_string, decimal_string, vhdl_package};

#[test]
fn decimal_strings() {
    assert_eq!(decimal_string(0), "0");
    assert_eq!(decimal_string(7), "7");
    assert_eq!(decimal_string(127), "127");
    assert_eq!(decimal_string(1024), "1024");
    assert_eq!(decimal_string(usize::MAX), usize::MAX.to_string());
}

#[test]
fn case_string_layout() {
    assert_eq!(
        case_string("A", "B", "1", "S", "0", "-"),
        "(\n  a    => x\"A\",\n  b    => x\"B\",\n  cin  => '1',\n  s    => x\"S\",\n  cout => '0',\n  ovfl => '-'\n)"
    );
}

#[test]
fn package_text_layout() {
    let cases = vec!["(c0)".to_string(), "(c1)".to_string(), "(c2)".to_string()];
    let text = vhdl_package("adder_tb", 8, &cases);
    let expected = "library ieee;\n\
use ieee.std_logic_1164.all;\n\
package adder_tb is\n\
\x20 type AdderCase is record\n\
\x20   a, b, s : std_logic_vector(7 downto 0);\n\
\x20   cin, cout, ovfl : std_logic;\n\
\x20 end record;\n\
\x20 type AdderCaseArray is array (natural range <>) of AdderCase;\n\
\x20 constant AdderVectors : AdderCaseArray := (\n\
\x20 (c0)\n\
, (c1)\n\
, (c2)\n\
);\n\
\x20 constant AdderVectorCount : natural := 3;\n\
end package adder_tb;\n";
    assert_eq!(text, expected);
}

#[test]
fn package_text_without_cases() {
    let text = vhdl_package("t", 1, &Vec::new());
    assert!(text.contains("std_logic_vector(0 downto 0);\n"));
    assert!(text.contains(":= (\n);\n"));
    assert!(text.contains("natural := 0;\n"));
}
