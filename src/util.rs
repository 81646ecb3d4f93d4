use vstd::prelude::*;

verus! {

/// Helpers that turn asset names into the identifiers the runtime looks them up by.
pub struct CrcHelper {}

/// The upper-case form of `s`, as `str::to_uppercase` gives it.
pub uninterp spec fn upper_of(s: Seq<char>) -> Seq<char>;

/// Relies on str::to_uppercase: the upper-case form depends on the characters alone.
#[verifier::external_body]
fn uppercase(s: &str) -> (r: String)
    ensures
        r@ == upper_of(s@),
{
    s.to_uppercase()
}

/// Relies on str::chars: the characters of `s`, in order.
#[verifier::external_body]
fn chars_of(s: &str) -> (r: Vec<char>)
    ensures
        r@ == s@,
{
    s.chars().collect()
}

/// Relies on String's FromIterator<char>: the string of the given characters, in order.
#[verifier::external_body]
fn string_of(cs: &Vec<char>) -> (r: String)
    ensures
        r@ == cs@,
{
    cs.iter().collect()
}

/// A character as it stands in a cleaned name: `-` becomes `_`, printable ASCII other
/// than lower-case letters stays, everything else becomes `_`.
pub open spec fn clean_char(c: char) -> char {
    if c == '-' {
        '_'
    } else if ('!' <= c && c <= '@') || ('A' <= c && c <= 'Z') || ('[' <= c && c <= '`') || ('{' <= c
        && c <= '~') {
        c
    } else {
        '_'
    }
}

impl CrcHelper {
    /// The name upper-cased, with `-` and every character outside printable ASCII
    /// replaced by `_`.
    pub fn clean_name_from_name_upcase_underscore(name: &str) -> (r: String)
        ensures
            r@ == upper_of(name@).map_values(|c: char| clean_char(c)),
    {
        let upcase_name = uppercase(name);
        let cs = chars_of(upcase_name.as_str());
        let mut out: Vec<char> = Vec::new();
        let mut i: usize = 0;
        while i < cs.len()
            invariant
                i <= cs@.len(),
                cs@ == upper_of(name@),
                out@ == cs@.take(i as int).map_values(|c: char| clean_char(c)),
            decreases cs@.len() - i,
        {
            let c = cs[i];
            let d = if c == '-' {
                '_'
            } else if ('!' <= c && c <= '@') || ('A' <= c && c <= 'Z') || ('[' <= c && c <= '`') || ('{'
                <= c && c <= '~') {
                c
            } else {
                '_'
            };
            out.push(d);
            i = i + 1;
            proof {
                assert(out@ =~= cs@.take(i as int).map_values(|c: char| clean_char(c)));
            }
        }
        proof {
            assert(cs@.take(i as int) =~= cs@);
        }
        string_of(&out)
    }
}

} // verus!
