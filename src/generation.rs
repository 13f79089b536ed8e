//! Log generations and the names of their files: `<g>.json`, `g` in base 10.
use crate::error::text;
use vstd::prelude::*;
use vstd::string::StringExecFns;

verus! {

#[verifier::external_type_specification]
#[verifier::external_body]
pub struct ExPathBuf(std::path::PathBuf);

/// The digit character for `d < 10`.
pub open spec fn digit_char(d: nat) -> char {
    (d + 48) as char
}

/// The value of a digit character.
pub open spec fn char_digit(c: char) -> nat {
    (c as nat - 48) as nat
}

pub open spec fn is_digit(c: char) -> bool {
    '0' <= c && c <= '9'
}

/// The base-10 representation of `n`, without leading zeros.
pub open spec fn decimal(n: nat) -> Seq<char>
    decreases n,
{
    if n < 10 {
        seq![digit_char(n)]
    } else {
        decimal(n / 10).push(digit_char(n % 10))
    }
}

/// The value of a sequence of digit characters.
pub open spec fn digits_value(s: Seq<char>) -> nat
    decreases s.len(),
{
    if s.len() == 0 {
        0
    } else {
        digits_value(s.drop_last()) * 10 + char_digit(s.last())
    }
}

pub open spec fn json_suffix() -> Seq<char> {
    seq!['.', 'j', 's', 'o', 'n']
}

/// The name of the file of generation `g`.
pub open spec fn generation_file_name(g: u64) -> Seq<char> {
    decimal(g as nat) + json_suffix()
}

/// The decimal digits are digits, and read back as the number; the first
/// digit is `0` only for `0` itself.
pub proof fn lemma_decimal(n: nat)
    ensures
        decimal(n).len() >= 1,
        forall|i: int| 0 <= i < decimal(n).len() ==> is_digit(#[trigger] decimal(n)[i]),
        digits_value(decimal(n)) == n,
        decimal(n)[0] == '0' ==> n == 0,
    decreases n,
{
    if n >= 10 {
        lemma_decimal(n / 10);
        let s = decimal(n);
        assert(s.drop_last() =~= decimal(n / 10));
        assert(decimal(n)[0] == decimal(n / 10)[0]);
        assert(s.last() == digit_char(n % 10));
        assert(char_digit(digit_char(n % 10)) == n % 10);
        assert(digits_value(s) == digits_value(decimal(n / 10)) * 10 + n % 10);
        assert(n == (n / 10) * 10 + n % 10);
    } else {
        let s = decimal(n);
        assert(s.drop_last() =~= Seq::<char>::empty());
        assert(s.last() == digit_char(n));
        assert(char_digit(digit_char(n)) == n);
        assert(digits_value(s) == digits_value(s.drop_last()) * 10 + n);
    }
}

/// Digit strings without a leading zero (or `"0"` itself) are exactly the
/// decimal representations.
pub proof fn lemma_digits_decimal(s: Seq<char>)
    requires
        s.len() >= 1,
        forall|i: int| 0 <= i < s.len() ==> is_digit(#[trigger] s[i]),
        s[0] != '0' || s.len() == 1,
    ensures
        decimal(digits_value(s)) == s,
    decreases s.len(),
{
    if s.len() == 1 {
        assert(s.drop_last() =~= Seq::<char>::empty());
        assert(digits_value(s.drop_last()) == 0);
        assert(digits_value(s) == char_digit(s[0]));
        assert(digit_char(char_digit(s[0])) == s[0]);
        assert(decimal(digits_value(s)) =~= s);
    } else {
        let p = s.drop_last();
        assert(p[0] == s[0]);
        lemma_digits_decimal(p);
        lemma_decimal(digits_value(p));
        assert(digits_value(p) >= 1) by {
            if digits_value(p) == 0 {
                assert(decimal(0nat) =~= seq!['0']);
            }
        }
        let n = digits_value(s);
        assert(n / 10 == digits_value(p) && n % 10 == char_digit(s.last())) by (nonlinear_arith)
            requires
                n == digits_value(p) * 10 + char_digit(s.last()),
                char_digit(s.last()) < 10,
        ;
        assert(decimal(n) =~= s);
    }
}

/// Generation file names are distinct for distinct generations.
pub proof fn lemma_generation_file_name_injective(g1: u64, g2: u64)
    requires
        generation_file_name(g1) == generation_file_name(g2),
    ensures
        g1 == g2,
{
    lemma_decimal(g1 as nat);
    lemma_decimal(g2 as nat);
    let n1 = decimal(g1 as nat).len();
    let n2 = decimal(g2 as nat).len();
    if n1 < n2 {
        assert(generation_file_name(g2)[n1 as int] == generation_file_name(g1)[n1 as int]);
    } else if n2 < n1 {
        assert(generation_file_name(g2)[n2 as int] == generation_file_name(g1)[n2 as int]);
    }
    assert(decimal(g1 as nat) =~= generation_file_name(g1).subrange(0, n1 as int));
    assert(decimal(g2 as nat) =~= generation_file_name(g2).subrange(0, n2 as int));
}

/// Reads the generation out of a file name: `Some(g)` exactly when the
/// name is the file name of generation `g`; other names are not log files.
pub fn parse_generation(name: &str) -> (r: Option<u64>)
    ensures
        r matches Some(g) ==> name@ == generation_file_name(g),
        r is None ==> forall|g: u64| name@ != generation_file_name(g),
{
    let len = name.unicode_len();
    if len < 6 {
        proof {
            assert forall|g: u64| name@ != generation_file_name(g) by {
                lemma_decimal(g as nat);
            }
        }
        return None;
    }
    let n = len - 5;
    if name.get_char(n) != '.' || name.get_char(n + 1) != 'j' || name.get_char(n + 2) != 's'
        || name.get_char(n + 3) != 'o' || name.get_char(n + 4) != 'n' || (name.get_char(0) == '0'
        && n != 1) {
        proof {
            assert forall|g: u64| name@ != generation_file_name(g) by {
                lemma_decimal(g as nat);
                if name@ == generation_file_name(g) {
                    let d = decimal(g as nat);
                    assert(d.len() == n);
                    assert(name@[n + 0] == json_suffix()[0]);
                    assert(name@[n + 1] == json_suffix()[1]);
                    assert(name@[n + 2] == json_suffix()[2]);
                    assert(name@[n + 3] == json_suffix()[3]);
                    assert(name@[n + 4] == json_suffix()[4]);
                    assert(name@[0] == d[0]);
                }
            }
        }
        return None;
    }
    let ghost digits = name@.subrange(0, n as int);
    let mut value: u64 = 0;
    let mut i: usize = 0;
    while i < n
        invariant
            n + 5 == len == name@.len(),
            digits == name@.subrange(0, n as int),
            0 <= i <= n,
            forall|j: int| 0 <= j < i ==> is_digit(#[trigger] digits[j]),
            value as nat == digits_value(digits.subrange(0, i as int)),
        decreases n - i,
    {
        let c = name.get_char(i);
        if c < '0' || c > '9' {
            proof {
                assert forall|g: u64| name@ != generation_file_name(g) by {
                    lemma_decimal(g as nat);
                    if name@ == generation_file_name(g) {
                        assert(decimal(g as nat).len() == n);
                        assert(name@[i as int] == decimal(g as nat)[i as int]);
                    }
                }
            }
            return None;
        }
        let d = (c as u32 - 48) as u64;
        proof {
            assert(digits.subrange(0, i + 1).drop_last() =~= digits.subrange(0, i as int));
        }
        if value > (u64::MAX - d) / 10 {
            proof {
                assert forall|g: u64| name@ != generation_file_name(g) by {
                    if name@ == generation_file_name(g) {
                        lemma_decimal(g as nat);
                        assert(decimal(g as nat) =~= digits);
                        lemma_prefix_value_bound(digits, (i + 1) as nat);
                        assert(value * 10 + d > u64::MAX) by (nonlinear_arith)
                            requires value > (u64::MAX - d) / 10, d < 10;
                    }
                }
            }
            return None;
        }
        value = value * 10 + d;
        i = i + 1;
    }
    proof {
        assert(digits.subrange(0, n as int) =~= digits);
        lemma_digits_decimal(digits);
        assert(name@ =~= decimal(value as nat) + json_suffix());
    }
    Some(value)
}

/// The value of a prefix of a digit string is at most the value of the whole.
proof fn lemma_prefix_value_bound(s: Seq<char>, k: nat)
    requires
        k <= s.len(),
        forall|i: int| 0 <= i < s.len() ==> is_digit(#[trigger] s[i]),
    ensures
        digits_value(s.subrange(0, k as int)) <= digits_value(s),
    decreases s.len(),
{
    if k < s.len() {
        let p = s.drop_last();
        assert(p.subrange(0, k as int) =~= s.subrange(0, k as int));
        lemma_prefix_value_bound(p, k);
    } else {
        assert(s.subrange(0, k as int) =~= s);
    }
}

/// The digit character of `d`, as text.
fn digit_text(d: u64) -> (r: &'static str)
    requires
        d < 10,
    ensures
        r@ == seq![digit_char(d as nat)],
{
    let r = if d == 0 {
        proof {
            reveal_strlit("0");
        }
        "0"
    } else if d == 1 {
        proof {
            reveal_strlit("1");
        }
        "1"
    } else if d == 2 {
        proof {
            reveal_strlit("2");
        }
        "2"
    } else if d == 3 {
        proof {
            reveal_strlit("3");
        }
        "3"
    } else if d == 4 {
        proof {
            reveal_strlit("4");
        }
        "4"
    } else if d == 5 {
        proof {
            reveal_strlit("5");
        }
        "5"
    } else if d == 6 {
        proof {
            reveal_strlit("6");
        }
        "6"
    } else if d == 7 {
        proof {
            reveal_strlit("7");
        }
        "7"
    } else if d == 8 {
        proof {
            reveal_strlit("8");
        }
        "8"
    } else {
        proof {
            reveal_strlit("9");
        }
        "9"
    };
    assert(r@ =~= seq![digit_char(d as nat)]);
    r
}

/// The base-10 representation of `n`.
fn decimal_string(n: u64) -> (r: String)
    ensures
        r@ == decimal(n as nat),
    decreases n,
{
    if n < 10 {
        let r = text(digit_text(n));
        assert(r@ =~= decimal(n as nat));
        r
    } else {
        let mut s = decimal_string(n / 10);
        s.append(digit_text(n % 10));
        assert(s@ =~= decimal(n as nat));
        s
    }
}

/// The name of the file of generation `generation`.
pub fn generation_file_name_string(generation: u64) -> (r: String)
    ensures
        r@ == generation_file_name(generation),
{
    let mut s = decimal_string(generation);
    proof {
        reveal_strlit(".json");
    }
    s.append(".json");
    assert(s@ =~= generation_file_name(generation));
    s
}

/// The path of the entry `name` inside directory `dir`.
pub uninterp spec fn joined(dir: std::path::PathBuf, name: Seq<char>) -> std::path::PathBuf;

/// Relies on std::path::Path::join: the path of `name` inside `dir`, which
/// depends on the two alone.
#[verifier::external_body]
fn join_path(dir: &std::path::PathBuf, name: &String) -> (r: std::path::PathBuf)
    ensures
        r == joined(*dir, name@),
{
    dir.join(name)
}

/// The path of the file of generation `generation` in directory `dir_path`.
pub fn convert_command_generation_path(dir_path: &std::path::PathBuf, generation: u64) -> (r: std::path::PathBuf)
    ensures
        r == joined(*dir_path, generation_file_name(generation)),
{
    let name = generation_file_name_string(generation);
    join_path(dir_path, &name)
}

/// A law of the file names: the name of generation `g` reads back as `g`.
pub proof fn lemma_file_name_round_trip(g: u64, name: Seq<char>)
    requires
        name == generation_file_name(g),
    ensures
        forall|h: u64| name == generation_file_name(h) <==> h == g,
{
    assert forall|h: u64| name == generation_file_name(h) implies h == g by {
        lemma_generation_file_name_injective(g, h);
    }
}

/// The paths of distinct generations in one directory have distinct file
/// names, and each file name reads back as its generation.
pub proof fn lemma_generation_paths(g1: u64, g2: u64)
    ensures
        g1 != g2 ==> generation_file_name(g1) != generation_file_name(g2),
        forall|h: u64| generation_file_name(g1) == generation_file_name(h) <==> h == g1,
{
    if generation_file_name(g1) == generation_file_name(g2) {
        lemma_generation_file_name_injective(g1, g2);
    }
    lemma_file_name_round_trip(g1, generation_file_name(g1));
}

} // verus!
