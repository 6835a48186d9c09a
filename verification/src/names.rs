//! The names that the front end makes up: the identifiers of rules and the
//! names of bindings.

use vstd::prelude::*;
use vstd::string::*;

verus! {

/// The character of the digit `d`.
pub open spec fn digit_char(d: nat) -> char {
    if d == 0 {
        '0'
    } else if d == 1 {
        '1'
    } else if d == 2 {
        '2'
    } else if d == 3 {
        '3'
    } else if d == 4 {
        '4'
    } else if d == 5 {
        '5'
    } else if d == 6 {
        '6'
    } else if d == 7 {
        '7'
    } else if d == 8 {
        '8'
    } else {
        '9'
    }
}

/// The number `n` in decimal digits, without leading zeros.
pub open spec fn decimal(n: nat) -> Seq<char>
    decreases n,
{
    if n < 10 {
        seq![digit_char(n)]
    } else {
        decimal(n / 10).push(digit_char(n % 10))
    }
}

/// The identifier of the rule of number `n`: `rule_`, then the number in at
/// least two digits.
pub open spec fn rule_id(n: nat) -> Seq<char> {
    if n < 10 {
        "rule_0"@ + decimal(n)
    } else {
        "rule_"@ + decimal(n)
    }
}

/// The name of the binding of index `index`: two underscores, then the
/// index.
pub open spec fn binding_id(index: nat) -> Seq<char> {
    "__"@ + decimal(index)
}

/// The name of the binding that holds the whole text of a match.
pub open spec fn whole_match_id() -> Seq<char> {
    "__all"@
}

/// The digit `d` as a text.
fn digit_text(d: usize) -> (text: &'static str)
    requires
        d < 10,
    ensures
        text@ == seq![digit_char(d as nat)],
{
    proof {
        reveal_strlit("0");
        reveal_strlit("1");
        reveal_strlit("2");
        reveal_strlit("3");
        reveal_strlit("4");
        reveal_strlit("5");
        reveal_strlit("6");
        reveal_strlit("7");
        reveal_strlit("8");
        reveal_strlit("9");
    }
    let text = if d == 0 {
        "0"
    } else if d == 1 {
        "1"
    } else if d == 2 {
        "2"
    } else if d == 3 {
        "3"
    } else if d == 4 {
        "4"
    } else if d == 5 {
        "5"
    } else if d == 6 {
        "6"
    } else if d == 7 {
        "7"
    } else if d == 8 {
        "8"
    } else {
        "9"
    };
    assert(text@ =~= seq![digit_char(d as nat)]);
    text
}

/// Writes `n` in decimal digits behind what `text` holds.
fn push_decimal(text: &mut String, n: usize)
    ensures
        final(text)@ == old(text)@ + decimal(n as nat),
    decreases n,
{
    if n < 10 {
        text.append(digit_text(n));
    } else {
        push_decimal(text, n / 10);
        text.append(digit_text(n % 10));
        assert(old(text)@ + decimal((n / 10) as nat) + seq![digit_char((n % 10) as nat)] =~= old(
            text,
        )@ + decimal(n as nat));
    }
}

/// The identifier of the rule of number `n`.
pub fn rule_name(n: usize) -> (name: String)
    ensures
        name@ == rule_id(n as nat),
{
    let mut name: String = if n < 10 {
        "rule_0".to_owned()
    } else {
        "rule_".to_owned()
    };
    push_decimal(&mut name, n);
    name
}

/// The name of the binding of index `index`.
pub fn binding_name(index: usize) -> (name: String)
    ensures
        name@ == binding_id(index as nat),
{
    let mut name: String = "__".to_owned();
    push_decimal(&mut name, index);
    name
}

/// The name of the binding that holds the whole text of a match.
pub fn whole_match_name() -> (name: String)
    ensures
        name@ == whole_match_id(),
{
    "__all".to_owned()
}

/// A number in decimal digits has a digit; one of two digits or more does
/// not start with a zero.
pub proof fn lemma_decimal_shape(n: nat)
    ensures
        decimal(n).len() >= 1,
        n >= 10 ==> decimal(n).len() >= 2 && decimal(n)[0] != '0',
    decreases n,
{
    if n >= 10 {
        lemma_decimal_shape(n / 10);
        let front = decimal(n / 10);
        assert(decimal(n)[0] == front[0]);
        if n / 10 < 10 {
            assert(front[0] == digit_char(n / 10));
        }
    }
}

/// Two numbers with the same decimal digits are one number.
pub proof fn lemma_decimal_tells_numbers_apart(a: nat, b: nat)
    requires
        decimal(a) == decimal(b),
    ensures
        a == b,
    decreases a,
{
    lemma_decimal_shape(a);
    lemma_decimal_shape(b);
    if a < 10 && b < 10 {
        assert(decimal(a)[0] == digit_char(a));
        assert(decimal(b)[0] == digit_char(b));
    } else if a < 10 {
        assert(decimal(a).len() == 1);
    } else if b < 10 {
        assert(decimal(b).len() == 1);
    } else {
        let front_a = decimal(a / 10);
        let front_b = decimal(b / 10);
        assert(decimal(a).drop_last() =~= front_a);
        assert(decimal(b).drop_last() =~= front_b);
        assert(decimal(a).last() == digit_char(a % 10));
        assert(decimal(b).last() == digit_char(b % 10));
        lemma_decimal_tells_numbers_apart(a / 10, b / 10);
        assert(a % 10 == b % 10);
        assert(a == 10 * (a / 10) + a % 10);
        assert(b == 10 * (b / 10) + b % 10);
    }
}

/// Rules of different numbers have different identifiers.
pub proof fn lemma_rule_ids_differ(a: nat, b: nat)
    requires
        a != b,
    ensures
        rule_id(a) != rule_id(b),
{
    reveal_strlit("rule_0");
    reveal_strlit("rule_");
    lemma_decimal_shape(a);
    lemma_decimal_shape(b);
    if rule_id(a) == rule_id(b) {
        if a < 10 && b < 10 {
            assert(rule_id(a)[6] == decimal(a)[0]);
            assert(rule_id(b)[6] == decimal(b)[0]);
        } else if a < 10 {
            assert(rule_id(a)[5] == '0');
            assert(rule_id(b)[5] == decimal(b)[0]);
        } else if b < 10 {
            assert(rule_id(b)[5] == '0');
            assert(rule_id(a)[5] == decimal(a)[0]);
        } else {
            assert(decimal(a) =~= rule_id(a).subrange(5, rule_id(a).len() as int));
            assert(decimal(b) =~= rule_id(b).subrange(5, rule_id(b).len() as int));
            lemma_decimal_tells_numbers_apart(a, b);
        }
    }
}

/// Bindings of different indices have different names.
pub proof fn lemma_binding_ids_differ(a: nat, b: nat)
    requires
        a != b,
    ensures
        binding_id(a) != binding_id(b),
{
    reveal_strlit("__");
    if binding_id(a) == binding_id(b) {
        assert(decimal(a) =~= binding_id(a).subrange(2, binding_id(a).len() as int));
        assert(decimal(b) =~= binding_id(b).subrange(2, binding_id(b).len() as int));
        lemma_decimal_tells_numbers_apart(a, b);
    }
}

} // verus!
