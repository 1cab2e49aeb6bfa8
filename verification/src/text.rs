use vstd::prelude::*;
use vstd::string::StrSliceExecFns;
use vstd::string::StringExecFns;

verus! {

/// Relies on str's PartialEq: two string slices compare equal exactly when
/// they hold the same characters.
pub assume_specification[ <str as PartialEq>::eq ](a: &str, b: &str) -> (r: bool)
    ensures
        r == (a@ == b@),
;

/// The blank characters stripped from the ends of a round description.
pub open spec fn is_space(c: char) -> bool {
    c == ' ' || c == '\t' || c == '\n' || c == '\r'
}

/// A usable round description: non-empty and free of blanks, so it reads
/// as a single word.
pub open spec fn description_ok(s: Seq<char>) -> bool {
    s.len() > 0 && (forall|i: int| 0 <= i < s.len() ==> !is_space(s[i]))
}

/// `a` and `b` delimit the part of `s` that remains when the surrounding
/// blank characters are stripped.
pub open spec fn is_trim_of(s: Seq<char>, a: int, b: int) -> bool {
    &&& 0 <= a <= b <= s.len()
    &&& forall|k: int| 0 <= k < a ==> is_space(s[k])
    &&& forall|k: int| b <= k < s.len() ==> is_space(s[k])
    &&& a < b ==> !is_space(s[a]) && !is_space(s[b - 1])
    &&& a == b ==> forall|k: int| 0 <= k < s.len() ==> is_space(s[k])
}

fn is_space_char(c: char) -> (r: bool)
    ensures
        r == is_space(c),
{
    c == ' ' || c == '\t' || c == '\n' || c == '\r'
}

/// Strips blanks from both ends of a submitted description and accepts the
/// result only when what remains is a single non-empty word.
#[verifier::loop_isolation(false)]
pub fn trim_description(s: &str) -> (r: Option<String>)
    ensures
        match r {
            Some(t) => exists|a: int, b: int|
                is_trim_of(s@, a, b) && t@ == s@.subrange(a, b) && description_ok(t@),
            None => forall|a: int, b: int|
                is_trim_of(s@, a, b) ==> !description_ok(s@.subrange(a, b)),
        },
{
    let n = s.unicode_len();
    let mut a: usize = 0;
    while a < n && is_space_char(s.get_char(a))
        invariant
            0 <= a <= n,
            forall|k: int| 0 <= k < a ==> is_space(s@[k]),
        decreases n - a,
    {
        a = a + 1;
    }
    if a == n {
        // the description is nothing but blanks: every trim window is empty
        proof {
            assert forall|x: int, y: int| is_trim_of(s@, x, y) implies !description_ok(
                s@.subrange(x, y),
            ) by {
                if x < y {
                    assert(is_space(s@[x]));
                }
            }
        }
        return None;
    }
    let mut b: usize = n;
    while b > a && is_space_char(s.get_char(b - 1))
        invariant
            a < b <= n,
            forall|k: int| b <= k < n ==> is_space(s@[k]),
        decreases b,
    {
        b = b - 1;
    }
    let ghost ga = a as int;
    let ghost gb = b as int;
    assert(is_trim_of(s@, ga, gb));
    let mut i: usize = a;
    while i < b
        invariant
            a <= i <= b,
            forall|k: int| a <= k < i ==> !is_space(s@[k]),
        decreases b - i,
    {
        if is_space_char(s.get_char(i)) {
            // a blank inside the trimmed part: not a single word. The trim
            // window of a string is unique, so every window shows the blank.
            proof {
                assert forall|x: int, y: int| is_trim_of(s@, x, y) implies !description_ok(
                    s@.subrange(x, y),
                ) by {
                    if x < y {
                        assert(x == ga) by {
                            if x < ga {
                                assert(is_space(s@[x]));
                            }
                            if ga < x {
                                assert(is_space(s@[ga]));
                            }
                        }
                        assert(y == gb) by {
                            if y < gb {
                                assert(is_space(s@[gb - 1]));
                            }
                            if gb < y {
                                assert(is_space(s@[y - 1]));
                            }
                        }
                        assert(is_space(s@.subrange(x, y)[i - x]));
                    }
                }
            }
            return None;
        }
        i = i + 1;
    }
    let t = s.substring_char(a, b);
    let out = String::from_str(t);
    assert(out@ == s@.subrange(ga, gb));
    assert(description_ok(out@)) by {
        assert(forall|k: int| 0 <= k < out@.len() ==> out@[k] == s@[ga + k]);
    }
    Some(out)
}

/// Maps an uppercase ASCII letter to its lowercase form and leaves every
/// other character unchanged.
pub open spec fn lower_char(c: char) -> char {
    if 'A' <= c && c <= 'Z' {
        ((c as u8) + 32) as char
    } else {
        c
    }
}

/// `stored` is the lowercase form of `query`: room codes are matched
/// case-insensitively.
pub open spec fn code_matches(stored: Seq<char>, query: Seq<char>) -> bool {
    stored.len() == query.len() && (forall|i: int|
        0 <= i < stored.len() ==> stored[i] == lower_char(query[i]))
}

fn lower_char_exec(c: char) -> (r: char)
    ensures
        r == lower_char(c),
{
    if 'A' <= c && c <= 'Z' {
        ((c as u8) + 32) as char
    } else {
        c
    }
}

/// Compares a stored lowercase room code against a query of any case.
pub fn matches_code(stored: &str, query: &str) -> (r: bool)
    ensures
        r == code_matches(stored@, query@),
{
    let n = stored.unicode_len();
    if n != query.unicode_len() {
        return false;
    }
    let mut i: usize = 0;
    while i < n
        invariant
            n == stored@.len(),
            n == query@.len(),
            0 <= i <= n,
            forall|k: int| 0 <= k < i ==> stored@[k] == lower_char(query@[k]),
        decreases n - i,
    {
        if stored.get_char(i) != lower_char_exec(query.get_char(i)) {
            return false;
        }
        i = i + 1;
    }
    true
}

/// Relies on String::push: it appends the given character to the end of
/// the string.
#[verifier::external_body]
pub(crate) fn push_char(s: &mut String, c: char)
    ensures
        final(s)@ == old(s)@.push(c),
{
    s.push(c);
}

/// Copies a list of card identifiers; the copy holds the same strings in
/// the same order.
pub(crate) fn clone_cards(v: &Vec<String>) -> (r: Vec<String>)
    ensures
        r@ == v@,
{
    let mut r: Vec<String> = Vec::new();
    let mut i: usize = 0;
    while i < v.len()
        invariant
            0 <= i <= v@.len(),
            r@ == v@.take(i as int),
        decreases v@.len() - i,
    {
        r.push(v[i].clone());
        assert(r@ =~= v@.take(i + 1));
        i = i + 1;
    }
    assert(r@ =~= v@);
    r
}

/// Looks a card up in a hand and returns the first position holding it.
pub(crate) fn find_card(hand: &Vec<String>, card: &String) -> (r: Option<usize>)
    ensures
        match r {
            Some(i) => i < hand@.len() && hand@[i as int]@ == card@,
            None => forall|k: int| 0 <= k < hand@.len() ==> hand@[k]@ != card@,
        },
{
    let mut i: usize = 0;
    while i < hand.len()
        invariant
            0 <= i <= hand@.len(),
            forall|k: int| 0 <= k < i ==> hand@[k]@ != card@,
        decreases hand@.len() - i,
    {
        if hand[i].eq(card) {
            return Some(i);
        }
        i = i + 1;
    }
    None
}

} // verus!
