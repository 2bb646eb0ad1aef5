//! Rendering of numbers, paths and joined lists as text.

use vstd::prelude::*;

verus! {

/// The ten decimal digits.
pub open spec fn digits() -> Seq<char> {
    seq!['0', '1', '2', '3', '4', '5', '6', '7', '8', '9']
}

/// A number in decimal notation, without leading zeros.
pub open spec fn decimal(n: nat) -> Seq<char>
    decreases n,
{
    if n < 10 {
        seq![digits()[n as int]]
    } else {
        decimal(n / 10).push(digits()[(n % 10) as int])
    }
}

/// The items in their order, with `sep` between each two neighbours.
pub open spec fn join(items: Seq<Seq<char>>, sep: Seq<char>) -> Seq<char>
    decreases items.len(),
{
    if items.len() == 0 {
        Seq::empty()
    } else if items.len() == 1 {
        items[0]
    } else {
        join(items.drop_last(), sep) + sep + items.last()
    }
}

/// The strings of a vector, each taken by its view.
pub open spec fn strings_view(v: Seq<String>) -> Seq<Seq<char>> {
    Seq::new(v.len(), |i: int| v[i]@)
}

/// The positions of a path in decimal notation.
pub open spec fn path_parts(p: Seq<u8>) -> Seq<Seq<char>> {
    Seq::new(p.len(), |i: int| decimal(p[i] as nat))
}

/// A path as text: its positions in decimal notation, a dot between each
/// two.
pub open spec fn path_text(p: Seq<u8>) -> Seq<char> {
    join(path_parts(p), seq!['.'])
}

/// `Itertools::join` on the strings of a vector: the strings in their order
/// with the separator between each two.
#[verifier::external_body]
pub(crate) fn join_strings(items: &Vec<String>, sep: &str) -> (r: String)
    ensures
        r@ == join(strings_view(items@), sep@),
{
    itertools::Itertools::join(&mut items.iter(), sep)
}

/// `str`'s `==`: whether two string slices hold the same characters.
#[verifier::external_body]
pub(crate) fn str_equal(a: &str, b: &str) -> (r: bool)
    ensures
        r == (a@ == b@),
{
    a == b
}

fn digit_str(d: u8) -> (r: &'static str)
    requires
        d < 10,
    ensures
        r@ == seq![digits()[d as int]],
{
    proof {
        reveal_strlit("0");
        reveal_strlit("1");
        reveal_strlit("2");
        reveal_strlit("3");
        reveal_strlit("4");
        reveal_strlit("5");
        reveal_strlit("6");
        reveal_strlit("7");
        reveal_strlit("8");
        reveal_strlit("9");
    }
    let r = match d {
        0 => "0",
        1 => "1",
        2 => "2",
        3 => "3",
        4 => "4",
        5 => "5",
        6 => "6",
        7 => "7",
        8 => "8",
        _ => "9",
    };
    assert(r@ =~= seq![digits()[d as int]]);
    r
}

/// A byte in decimal notation.
pub fn decimal_string(x: u8) -> (r: String)
    ensures
        r@ == decimal(x as nat),
{
    let mut s = String::new();
    if x >= 100 {
        s.append(digit_str(x / 100));
    }
    if x >= 10 {
        s.append(digit_str((x / 10) % 10));
    }
    s.append(digit_str(x % 10));
    proof {
        reveal_with_fuel(decimal, 3);
        let n = x as nat;
        if x >= 100 {
            assert((n / 10) / 10 == n / 100);
            assert(s@ =~= decimal(n));
        } else {
            assert(s@ =~= decimal(n));
        }
    }
    s
}

/// A path as text.
pub fn render_path(path: &Vec<u8>) -> (r: String)
    ensures
        r@ == path_text(path@),
{
    let mut parts: Vec<String> = Vec::new();
    let mut i: usize = 0;
    while i < path.len()
        invariant
            i <= path.len(),
            parts.len() == i,
            forall|k: int| 0 <= k < i ==> (#[trigger] parts@[k])@ == decimal(path@[k] as nat),
        decreases path.len() - i,
    {
        parts.push(decimal_string(path[i]));
        i += 1;
    }
    proof {
        reveal_strlit(".");
        assert("."@ =~= seq!['.']);
        assert(strings_view(parts@) =~= path_parts(path@));
    }
    join_strings(&parts, ".")
}

} // verus!
