//! The assembly text that the planner emits: one instruction per line.
use vstd::prelude::*;
use vstd::string::StringExecFns;

verus! {

/// The character of the decimal digit `d`.
pub open spec fn digit(d: nat) -> char {
    if d == 0 {
        '0'
    } else if d == 1 {
        '1'
    } else if d == 2 {
        '2'
    } else if d == 3 {
        '3'
    } else if d == 4 {
        '4'
    } else if d == 5 {
        '5'
    } else if d == 6 {
        '6'
    } else if d == 7 {
        '7'
    } else if d == 8 {
        '8'
    } else {
        '9'
    }
}

/// The decimal numeral of `n`, without leading zeros.
pub open spec fn decimal(n: nat) -> Seq<char>
    decreases n,
{
    if n < 10 {
        seq![digit(n)]
    } else {
        decimal(n / 10).push(digit(n % 10))
    }
}

/// `mov target, source`: copies the register `source` into `target`.
pub open spec fn move_line(target: Seq<char>, source: Seq<char>) -> Seq<char> {
    "mov\t"@ + target + ", "@ + source + "\n"@
}

/// `str register, [sp, #offset]`: stores one register to a stack slot.
pub open spec fn store_line(register: Seq<char>, offset: nat) -> Seq<char> {
    "str\t"@ + register + ", [sp, #"@ + decimal(offset) + "]\n"@
}

/// `stp first, second, [sp, #offset]`: stores `first` to the slot at
/// `offset` and `second` to the slot after it.
pub open spec fn store_pair_line(first: Seq<char>, second: Seq<char>, offset: nat) -> Seq<char> {
    "stp\t"@ + first + ", "@ + second + ", [sp, #"@ + decimal(offset) + "]\n"@
}

/// The text of one decimal digit.
fn digit_text(d: usize) -> (res: &'static str)
    requires
        d < 10,
    ensures
        res@ == seq![digit(d as nat)],
{
    proof {
        reveal_strlit("0");
        reveal_strlit("1");
        reveal_strlit("2");
        reveal_strlit("3");
        reveal_strlit("4");
        reveal_strlit("5");
        reveal_strlit("6");
        reveal_strlit("7");
        reveal_strlit("8");
        reveal_strlit("9");
    }
    let res = if d == 0 {
        "0"
    } else if d == 1 {
        "1"
    } else if d == 2 {
        "2"
    } else if d == 3 {
        "3"
    } else if d == 4 {
        "4"
    } else if d == 5 {
        "5"
    } else if d == 6 {
        "6"
    } else if d == 7 {
        "7"
    } else if d == 8 {
        "8"
    } else {
        "9"
    };
    assert(res@ =~= seq![digit(d as nat)]);
    res
}

/// Appends the decimal numeral of `n` to `text`.
pub fn push_decimal(text: &mut String, n: usize)
    ensures
        final(text)@ == old(text)@ + decimal(n as nat),
    decreases n,
{
    if n >= 10 {
        push_decimal(text, n / 10);
    }
    text.append(digit_text(n % 10));
    assert(text@ =~= old(text)@ + decimal(n as nat));
}

/// Appends a register-to-register move to `text`.
pub fn push_move_line(text: &mut String, target: &String, source: &String)
    ensures
        final(text)@ == old(text)@ + move_line(target@, source@),
{
    text.append("mov\t");
    text.append(target.as_str());
    text.append(", ");
    text.append(source.as_str());
    text.append("\n");
    assert(text@ =~= old(text)@ + move_line(target@, source@));
}

/// Appends the store of one register to a stack slot to `text`.
pub fn push_store_line(text: &mut String, register: &String, offset: usize)
    ensures
        final(text)@ == old(text)@ + store_line(register@, offset as nat),
{
    text.append("str\t");
    text.append(register.as_str());
    text.append(", [sp, #");
    push_decimal(text, offset);
    text.append("]\n");
    assert(text@ =~= old(text)@ + store_line(register@, offset as nat));
}

/// Appends the store of two registers to two adjacent stack slots to `text`.
pub fn push_store_pair_line(text: &mut String, first: &String, second: &String, offset: usize)
    ensures
        final(text)@ == old(text)@ + store_pair_line(first@, second@, offset as nat),
{
    text.append("stp\t");
    text.append(first.as_str());
    text.append(", ");
    text.append(second.as_str());
    text.append(", [sp, #");
    push_decimal(text, offset);
    text.append("]\n");
    assert(text@ =~= old(text)@ + store_pair_line(first@, second@, offset as nat));
}

} // verus!
