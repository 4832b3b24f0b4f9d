//! Text: decimal numerals and the pieces that labels are composed of.
use vstd::prelude::*;
use vstd::string::*;

verus! {

/// The character of a decimal digit; `d` is below ten.
pub open spec fn digit_char(d: nat) -> char {
    if d == 0 {
        '0'
    } else if d == 1 {
        '1'
    } else if d == 2 {
        '2'
    } else if d == 3 {
        '3'
    } else if d == 4 {
        '4'
    } else if d == 5 {
        '5'
    } else if d == 6 {
        '6'
    } else if d == 7 {
        '7'
    } else if d == 8 {
        '8'
    } else {
        '9'
    }
}

/// The decimal numeral of `n`, most significant digit first, without
/// leading zeros.
pub open spec fn decimal_digits(n: nat) -> Seq<char>
    decreases n,
{
    if n < 10 {
        seq![digit_char(n)]
    } else {
        decimal_digits(n / 10).push(digit_char(n % 10))
    }
}

/// `open + inner + close`.
pub open spec fn enclosed(open: Seq<char>, inner: Seq<char>, close: Seq<char>) -> Seq<char> {
    open + inner + close
}

/// `open + left + between + right + close`.
pub open spec fn joined(
    open: Seq<char>,
    left: Seq<char>,
    between: Seq<char>,
    right: Seq<char>,
    close: Seq<char>,
) -> Seq<char> {
    open + left + between + right + close
}

/// The label of a sum: `(left + right)`.
pub open spec fn sum_label(left: Seq<char>, right: Seq<char>) -> Seq<char> {
    joined("("@, left, " + "@, right, ")"@)
}

/// The label of a product: `(left * right)`.
pub open spec fn product_label(left: Seq<char>, right: Seq<char>) -> Seq<char> {
    joined("("@, left, " * "@, right, ")"@)
}

/// The label of a difference: `(left - right)`.
pub open spec fn difference_label(left: Seq<char>, right: Seq<char>) -> Seq<char> {
    joined("("@, left, " - "@, right, ")"@)
}

/// The label of a negation: `(not inner)`.
pub open spec fn negation_label(inner: Seq<char>) -> Seq<char> {
    enclosed("(not "@, inner, ")"@)
}

/// The label of a power: `(base^exponent)`.
pub open spec fn power_label(base: Seq<char>, exponent: Seq<char>) -> Seq<char> {
    joined("("@, base, "^"@, exponent, ")"@)
}

/// The label of an exponential: `exp(inner)`.
pub open spec fn exp_label(inner: Seq<char>) -> Seq<char> {
    enclosed("exp("@, inner, ")"@)
}

/// The label of a hyperbolic tangent: `tanh(inner)`.
pub open spec fn tanh_label(inner: Seq<char>) -> Seq<char> {
    enclosed("tanh("@, inner, ")"@)
}

/// The label of a constant operand: `(Constant number)`.
pub open spec fn constant_label(number: Seq<char>) -> Seq<char> {
    enclosed("(Constant "@, number, ")"@)
}

/// The label of the `index`-th weight of a neuron: `w` and the index.
pub open spec fn weight_label(index: nat) -> Seq<char> {
    "w"@ + decimal_digits(index)
}

/// The message for a neuron that was given `actual` inputs and has
/// `expected` weights.
pub open spec fn input_count_message(expected: nat, actual: nat) -> Seq<char> {
    "Expected "@ + decimal_digits(expected) + " inputs, not "@ + decimal_digits(actual)
}

/// How a scalar is displayed: `label { data: data, grad: grad }`.
pub open spec fn display_line(label: Seq<char>, data: Seq<char>, grad: Seq<char>) -> Seq<char> {
    label + " { data: "@ + data + ", grad: "@ + grad + " }"@
}

/// `text` is what `Display` writes for `number`, in the sense of vstd's
/// relation for `to_string`.
pub open spec fn shows<T: std::fmt::Display>(text: Seq<char>, number: T) -> bool {
    exists|written: String| #[trigger]
        to_string_from_display_ensures::<T>(&number, written) && written@ == text
}

fn digit_text(d: usize) -> (text: &'static str)
    requires
        d < 10,
    ensures
        text@ == seq![digit_char(d as nat)],
{
    proof {
        reveal_strlit("0");
        reveal_strlit("1");
        reveal_strlit("2");
        reveal_strlit("3");
        reveal_strlit("4");
        reveal_strlit("5");
        reveal_strlit("6");
        reveal_strlit("7");
        reveal_strlit("8");
        reveal_strlit("9");
    }
    let text = if d == 0 {
        "0"
    } else if d == 1 {
        "1"
    } else if d == 2 {
        "2"
    } else if d == 3 {
        "3"
    } else if d == 4 {
        "4"
    } else if d == 5 {
        "5"
    } else if d == 6 {
        "6"
    } else if d == 7 {
        "7"
    } else if d == 8 {
        "8"
    } else {
        "9"
    };
    assert(text@ =~= seq![digit_char(d as nat)]);
    text
}

/// Writes `n` in decimal.
pub fn decimal(n: usize) -> (text: String)
    ensures
        text@ == decimal_digits(n as nat),
    decreases n,
{
    if n < 10 {
        String::from_str(digit_text(n))
    } else {
        let mut text = decimal(n / 10);
        text.append(digit_text(n % 10));
        assert(text@ =~= decimal_digits((n / 10) as nat).push(digit_char((n % 10) as nat)));
        text
    }
}

/// Puts `inner` between `open` and `close`.
pub fn enclose(open: &str, inner: &str, close: &str) -> (text: String)
    ensures
        text@ == enclosed(open@, inner@, close@),
{
    let mut text = String::from_str(open);
    text.append(inner);
    text.append(close);
    text
}

/// Puts `left` and `right` between `open` and `close`, with `between`
/// between them.
pub fn join(open: &str, left: &str, between: &str, right: &str, close: &str) -> (text: String)
    ensures
        text@ == joined(open@, left@, between@, right@, close@),
{
    let mut text = String::from_str(open);
    text.append(left);
    text.append(between);
    text.append(right);
    text.append(close);
    text
}

/// Composes the line that displays a scalar from its label and from the
/// texts of its number and of its gradient.
pub fn compose_display(label: &str, data: &str, grad: &str) -> (text: String)
    ensures
        text@ == display_line(label@, data@, grad@),
{
    let mut text = String::from_str(label);
    text.append(" { data: ");
    text.append(data);
    text.append(", grad: ");
    text.append(grad);
    text.append(" }");
    text
}

} // verus!
