//! The JSON form of a tree: a flat list of coordinate lists, in tree order.
use vstd::prelude::*;

verus! {

/// The decimal digits of `n`, without leading zeros.
pub open spec fn digits(n: nat) -> Seq<char>
    decreases n,
{
    let d = seq!['0', '1', '2', '3', '4', '5', '6', '7', '8', '9'];
    if n < 10 {
        seq![d[n as int]]
    } else {
        digits(n / 10) + seq![d[(n % 10) as int]]
    }
}

/// An integer as JSON writes it: its digits, after a minus sign where it
/// is negative.
pub open spec fn decimal(i: int) -> Seq<char> {
    if i < 0 {
        seq!['-'] + digits((-i) as nat)
    } else {
        digits(i as nat)
    }
}

/// The texts in `parts`, separated by commas.
pub open spec fn comma_joined(parts: Seq<Seq<char>>) -> Seq<char>
    decreases parts.len(),
{
    if parts.len() == 0 {
        Seq::empty()
    } else if parts.len() == 1 {
        parts[0]
    } else {
        comma_joined(parts.drop_last()) + seq![','] + parts.last()
    }
}

/// A JSON array of the texts in `parts`, without spaces.
pub open spec fn array_text(parts: Seq<Seq<char>>) -> Seq<char> {
    seq!['['] + comma_joined(parts) + seq![']']
}

/// The compact JSON text of a list of `i32` lists.
pub open spec fn json_of_rows(rows: Seq<Seq<i32>>) -> Seq<char> {
    array_text(rows.map_values(|row: Seq<i32>| array_text(row.map_values(|x: i32| decimal(x as int)))))
}

/// What serde_json reads from a text as a list of `i32` lists; `None`
/// where it refuses the text.
pub uninterp spec fn rows_of_json(text: Seq<char>) -> Option<Seq<Seq<i32>>>;

/// Relies on serde_json::to_string on a `Vec<Vec<i32>>`: it fails only
/// where a `Serialize` impl fails or a map has a key that is not a string,
/// neither of which a list of `i32` lists has; its compact formatter writes
/// each list as `[`, the items separated by `,`, then `]`, and each number
/// in decimal through itoa.
#[verifier::external_body]
pub(crate) fn rows_to_json(rows: &Vec<Vec<i32>>) -> (r: Option<String>)
    ensures
        r is Some,
        r.unwrap()@ == json_of_rows(rows.deep_view()),
{
    serde_json::to_string(rows).ok()
}

/// Relies on serde_json::from_str into a `Vec<Vec<i32>>`: what it reads,
/// or that it refuses, depends on the text alone.
#[verifier::external_body]
pub(crate) fn rows_from_json(text: &str) -> (r: Option<Vec<Vec<i32>>>)
    ensures
        match r {
            Some(v) => rows_of_json(text@) == Some(v.deep_view()),
            None => rows_of_json(text@) is None,
        },
{
    serde_json::from_str::<Vec<Vec<i32>>>(text).ok()
}

} // verus!
