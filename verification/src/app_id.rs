use vstd::prelude::*;
use vstd::string::*;

verus! {

/// The whitespace that surrounds a hash read from a bundled file.
pub open spec fn is_space_char(c: char) -> bool {
    c == ' ' || c == '\n' || c == '\r' || c == '\t'
}

/// How many whitespace characters the text starts with.
pub open spec fn leading_spaces(s: Seq<char>) -> int
    decreases s.len(),
{
    if s.len() == 0 {
        0
    } else if is_space_char(s[0]) {
        1 + leading_spaces(s.drop_first())
    } else {
        0
    }
}

/// How many whitespace characters the text ends with.
pub open spec fn trailing_spaces(s: Seq<char>) -> int
    decreases s.len(),
{
    if s.len() == 0 {
        0
    } else if is_space_char(s.last()) {
        1 + trailing_spaces(s.drop_last())
    } else {
        0
    }
}

/// The text with its surrounding whitespace removed.
pub open spec fn trimmed(s: Seq<char>) -> Seq<char> {
    if leading_spaces(s) == s.len() {
        Seq::empty()
    } else {
        s.subrange(leading_spaces(s), s.len() - trailing_spaces(s))
    }
}

/// A scan that saw only whitespace before `i`, and stopped at `i` on
/// something else or at the end, found the leading whitespace exactly.
proof fn lemma_leading_spaces(s: Seq<char>, i: int)
    requires
        0 <= i <= s.len(),
        forall|j: int| 0 <= j < i ==> is_space_char(s[j]),
        i < s.len() ==> !is_space_char(s[i]),
    ensures
        leading_spaces(s) == i,
    decreases i,
{
    if i == 0 {
    } else {
        let rest = s.drop_first();
        assert forall|j: int| 0 <= j < i - 1 implies is_space_char(rest[j]) by {
            assert(rest[j] == s[j + 1]);
        }
        if i - 1 < rest.len() {
            assert(rest[i - 1] == s[i]);
        }
        lemma_leading_spaces(rest, i - 1);
    }
}

/// A scan that saw only whitespace from `i` on, and stopped at `i` on
/// something else or at the start, found the trailing whitespace exactly.
proof fn lemma_trailing_spaces(s: Seq<char>, i: int)
    requires
        0 <= i <= s.len(),
        forall|j: int| i <= j < s.len() ==> is_space_char(s[j]),
        i > 0 ==> !is_space_char(s[i - 1]),
    ensures
        trailing_spaces(s) == s.len() - i,
    decreases s.len(),
{
    if i == s.len() {
        if s.len() > 0 {
            assert(!is_space_char(s.last()));
        }
    } else {
        assert(is_space_char(s.last()));
        let rest = s.drop_last();
        assert forall|j: int| i <= j < rest.len() implies is_space_char(rest[j]) by {
            assert(rest[j] == s[j]);
        }
        if i > 0 {
            assert(rest[i - 1] == s[i - 1]);
        }
        lemma_trailing_spaces(rest, i);
    }
}

/// Whether this character counts as surrounding whitespace.
fn is_space(c: char) -> (b: bool)
    ensures
        b == is_space_char(c),
{
    c == ' ' || c == '\n' || c == '\r' || c == '\t'
}

/// The identifier this build of the application runs under: a fixed
/// prefix joined with the hash of the bundled data, the whitespace around
/// the hash stripped.
pub fn app_id(dna_hash: &str) -> (r: String)
    ensures
        r@ == "living-power-"@ + trimmed(dna_hash@),
{
    let n = dna_hash.unicode_len();
    let mut start: usize = 0;
    while start < n && is_space(dna_hash.get_char(start))
        invariant
            n == dna_hash@.len(),
            start <= n,
            forall|j: int| 0 <= j < start ==> is_space_char(dna_hash@[j]),
        decreases n - start,
    {
        start = start + 1;
    }
    if start == n {
        proof {
            lemma_leading_spaces(dna_hash@, n as int);
        }
        let r = "living-power-".to_owned();
        proof {
            assert(r@ =~= "living-power-"@ + trimmed(dna_hash@));
        }
        return r;
    }
    proof {
        lemma_leading_spaces(dna_hash@, start as int);
    }
    let mut end: usize = n;
    while end > start && is_space(dna_hash.get_char(end - 1))
        invariant
            n == dna_hash@.len(),
            start <= end <= n,
            start < n,
            !is_space_char(dna_hash@[start as int]),
            forall|j: int| end <= j < n ==> is_space_char(dna_hash@[j]),
        decreases end,
    {
        end = end - 1;
    }
    proof {
        if end == start {
            assert(is_space_char(dna_hash@[start as int]));
        }
        assert(end > start);
        lemma_trailing_spaces(dna_hash@, end as int);
    }
    let core = dna_hash.substring_char(start, end);
    let mut r = "living-power-".to_owned();
    r.append(core);
    proof {
        assert(r@ =~= "living-power-"@ + trimmed(dna_hash@));
    }
    r
}

} // verus!
