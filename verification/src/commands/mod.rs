//! The logic of the `cman` commands, and the status lines they print.

pub mod build_plan;
pub mod build_steps;
pub mod check;
pub mod clean;
pub mod new;
pub mod run;

use vstd::prelude::*;

verus! {

/// A Cargo-style status line: the verb right-aligned in twelve columns,
/// then a space and the detail.
pub open spec fn spec_status_line(verb: Seq<char>, message: Seq<char>) -> Seq<char> {
    Seq::new(if verb.len() < 12 { (12 - verb.len()) as nat } else { 0 }, |i: int| ' ') + verb
        + seq![' '] + message
}

/// Format a Cargo-style status line, as `format!("{:>12} {}", verb, message)`
/// does.
pub fn status_line(verb: &str, message: &str) -> (line: String)
    ensures
        line@ == spec_status_line(verb@, message@),
{
    let n = crate::text::chars_of(verb).len();
    let mut line = String::new();
    let mut i: usize = n;
    while i < 12
        invariant
            n == verb@.len(),
            n <= i <= 12 || (n > 12 && i == n),
            line@ == Seq::new((i - n) as nat, |k: int| ' '),
        decreases 12 - i,
    {
        line.push(' ');
        assert(line@ =~= Seq::new((i + 1 - n) as nat, |k: int| ' '));
        i = i + 1;
    }
    assert(line@ =~= Seq::new(if n < 12 { (12 - n) as nat } else { 0 }, |k: int| ' '));
    line.append(verb);
    line.push(' ');
    line.append(message);
    line
}

} // verus!
