//! The names of the objects that deployment adds to a node with several
//! meshes.
use vstd::prelude::*;
use vstd::string::StringExecFns;

verus! {

/// The character of the digit `d`.
pub open spec fn digit(d: nat) -> char {
    if d == 0 {
        '0'
    } else if d == 1 {
        '1'
    } else if d == 2 {
        '2'
    } else if d == 3 {
        '3'
    } else if d == 4 {
        '4'
    } else if d == 5 {
        '5'
    } else if d == 6 {
        '6'
    } else if d == 7 {
        '7'
    } else if d == 8 {
        '8'
    } else {
        '9'
    }
}

/// The number `n` in decimal, without leading zeros.
pub open spec fn decimal(n: nat) -> Seq<char>
    decreases n,
{
    if n < 10 {
        seq![digit(n)]
    } else {
        decimal(n / 10).push(digit(n % 10))
    }
}

/// What stands between a node's name and a mesh's position.
pub open spec fn infix() -> Seq<char> {
    seq!['-', 'm', 'e', 's', 'h', '-']
}

/// The name of the object for the mesh at `position` of the node `name`:
/// the node's name, `-mesh-`, and the position in decimal.
pub open spec fn synthetic_name(name: Seq<char>, position: nat) -> Seq<char> {
    name + infix() + decimal(position)
}

fn digit_text(d: usize) -> (text: &'static str)
    requires
        d < 10,
    ensures
        text@ == seq![digit(d as nat)],
{
    proof {
        reveal_strlit("0");
        reveal_strlit("1");
        reveal_strlit("2");
        reveal_strlit("3");
        reveal_strlit("4");
        reveal_strlit("5");
        reveal_strlit("6");
        reveal_strlit("7");
        reveal_strlit("8");
        reveal_strlit("9");
    }
    let text = match d {
        0 => "0",
        1 => "1",
        2 => "2",
        3 => "3",
        4 => "4",
        5 => "5",
        6 => "6",
        7 => "7",
        8 => "8",
        _ => "9",
    };
    assert(text@ =~= seq![digit(d as nat)]);
    text
}

fn push_decimal(text: &mut String, n: usize)
    ensures
        final(text)@ == old(text)@ + decimal(n as nat),
    decreases n,
{
    if n >= 10 {
        push_decimal(text, n / 10);
    }
    text.append(digit_text(n % 10));
    assert(text@ =~= old(text)@ + decimal(n as nat));
}

/// The name of the object for the mesh at `position` of the node `name`.
pub fn make_synthetic_name(name: &String, position: usize) -> (full: String)
    ensures
        full@ == synthetic_name(name@, position as nat),
{
    let mut full = name.clone();
    proof {
        reveal_strlit("-mesh-");
    }
    full.append("-mesh-");
    assert(full@ =~= name@ + infix());
    push_decimal(&mut full, position);
    full
}

} // verus!
