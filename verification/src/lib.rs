//! Reconciliation of two datasets describing the members of one region:
//! a bulk snapshot of member records and a paginated ranking feed for the
//! residency metric. The library canonicalizes identifiers, decides when
//! pagination has reached the end of the feed, joins the two datasets by
//! normalized name, and produces one deterministic, ordered sheet.
//!
//! Fractional quantities (ranking scores and influence values) are carried
//! as fixed-point integers with [`SCORE_SCALE`] units per whole unit, so
//! that every comparison and sum in the library is exact.

use vstd::prelude::*;

pub mod api;
pub mod archiveparse;
pub mod sheetbuilder;

verus! {

/// Fixed-point units per whole unit of a score or influence value.
pub const SCORE_SCALE: i64 = 10000;

/// A character the normalizer strips at the ends of an identifier: the
/// characters of Unicode's White_Space table, as `char::is_whitespace`
/// recognizes them.
pub open spec fn is_space(c: char) -> bool {
    let u = c as u32;
    u == 0x09 || u == 0x0A || u == 0x0B || u == 0x0C || u == 0x0D || u == 0x20 || u == 0x85 || u
        == 0xA0 || u == 0x1680 || (0x2000 <= u && u <= 0x200A) || u == 0x2028 || u == 0x2029 || u
        == 0x202F || u == 0x205F || u == 0x3000
}

/// What Unicode lowercasing returns for an identifier: the named result
/// of `str::to_lowercase`, a function of the characters alone.
pub uninterp spec fn lower_of(s: Seq<char>) -> Seq<char>;

/// A space becomes an underscore; every other character is unchanged.
pub open spec fn underscore_char(c: char) -> char {
    if c == ' ' {
        '_'
    } else {
        c
    }
}

/// The identifier with leading and trailing whitespace removed.
pub open spec fn trim_spec(s: Seq<char>) -> Seq<char>
    decreases s.len(),
{
    if s.len() == 0 {
        s
    } else if is_space(s[0]) {
        trim_spec(s.drop_first())
    } else if is_space(s.last()) {
        trim_spec(s.drop_last())
    } else {
        s
    }
}

/// Every remaining space of the sequence replaced by an underscore.
pub open spec fn underscore_map(s: Seq<char>) -> Seq<char> {
    s.map_values(|c: char| underscore_char(c))
}

/// The canonical key of a free-text identifier: trim, then Unicode
/// lowercasing (the named result [`lower_of`]), then every remaining
/// space replaced by an underscore.
pub open spec fn norm_spec(s: Seq<char>) -> Seq<char> {
    underscore_map(lower_of(trim_spec(s)))
}

fn is_space_exec(c: char) -> (r: bool)
    ensures
        r == is_space(c),
{
    let u = c as u32;
    u == 0x09 || u == 0x0A || u == 0x0B || u == 0x0C || u == 0x0D || u == 0x20 || u == 0x85 || u
        == 0xA0 || u == 0x1680 || (0x2000 <= u && u <= 0x200A) || u == 0x2028 || u == 0x2029 || u
        == 0x202F || u == 0x205F || u == 0x3000
}

fn underscore_char_exec(c: char) -> (r: char)
    ensures
        r == underscore_char(c),
{
    if c == ' ' {
        '_'
    } else {
        c
    }
}

/// Relies on str::to_lowercase: returns the Unicode lowercase
/// equivalent of the string, a function of its characters alone; the
/// lowercase equivalent of the empty string is empty.
#[verifier::external_body]
fn lowercase(s: &str) -> (r: String)
    ensures
        r@ == lower_of(s@),
        s@.len() == 0 ==> r@.len() == 0,
{
    s.to_lowercase()
}

/// Relies on String::push: appends the character to the end of the string.
#[verifier::external_body]
fn push_char(s: &mut String, c: char)
    ensures
        final(s)@ == old(s)@.push(c),
{
    s.push(c);
}

/// Trimming removes exactly the whitespace prefix and the whitespace
/// suffix: if everything before `a` and everything from `b` on is
/// whitespace, and the characters at the ends of `s[a..b]` are not,
/// then the trimmed sequence is `s[a..b]`.
proof fn lemma_trim_parts(s: Seq<char>, a: int, b: int)
    requires
        0 <= a <= b <= s.len(),
        forall|i: int| 0 <= i < a ==> is_space(s[i]),
        forall|i: int| b <= i < s.len() ==> is_space(s[i]),
        a < b ==> !is_space(s[a]) && !is_space(s[b - 1]),
    ensures
        trim_spec(s) == s.subrange(a, b),
    decreases s.len(),
{
    if s.len() == 0 {
        assert(trim_spec(s) =~= s.subrange(a, b));
    } else if is_space(s[0]) {
        let t = s.drop_first();
        if a == 0 {
            assert(a == b);
            lemma_trim_parts(t, 0, 0);
            assert(s.subrange(0, 0) =~= t.subrange(0, 0));
        } else {
            lemma_trim_parts(t, a - 1, b - 1);
            assert(s.subrange(a, b) =~= t.subrange(a - 1, b - 1));
        }
    } else if is_space(s.last()) {
        let t = s.drop_last();
        assert(b < s.len());
        lemma_trim_parts(t, a, b);
        assert(s.subrange(a, b) =~= t.subrange(a, b));
    } else {
        assert(a == 0);
        assert(b == s.len());
        assert(s.subrange(0, s.len() as int) =~= s);
    }
}

/// A trimmed identifier does not begin or end with whitespace.
proof fn lemma_trim_ends(s: Seq<char>)
    ensures
        trim_spec(s).len() > 0 ==> !is_space(trim_spec(s)[0]) && !is_space(trim_spec(s).last()),
    decreases s.len(),
{
    if s.len() == 0 {
    } else if is_space(s[0]) {
        lemma_trim_ends(s.drop_first());
    } else if is_space(s.last()) {
        lemma_trim_ends(s.drop_last());
    }
}

/// Appending a character and then replacing spaces is the same as
/// replacing first and appending the replaced character.
proof fn lemma_underscore_map_push(s: Seq<char>, c: char)
    ensures
        underscore_map(s.push(c)) == underscore_map(s).push(underscore_char(c)),
{
    assert(underscore_map(s.push(c)) =~= underscore_map(s).push(underscore_char(c)));
}

/// Canonicalizes a free-text identifier for cross-dataset matching:
/// trims leading and trailing whitespace, lowercases, and replaces every
/// remaining space with an underscore.
#[verifier::rlimit(30)]
pub fn normalize(string: &String) -> (r: String)
    ensures
        r@ == norm_spec(string@),
{
    let s: &str = string.as_str();
    let n: usize = s.unicode_len();
    let mut a: usize = 0;
    while a < n && is_space_exec(s.get_char(a))
        invariant
            0 <= a <= n,
            n == s@.len(),
            s@ == string@,
            forall|i: int| 0 <= i < a ==> is_space(s@[i]),
        decreases n - a,
    {
        a = a + 1;
    }
    let mut b: usize = n;
    while b > a && is_space_exec(s.get_char(b - 1))
        invariant
            a <= b <= n,
            n == s@.len(),
            s@ == string@,
            forall|i: int| b <= i < n ==> is_space(s@[i]),
        decreases b,
    {
        b = b - 1;
    }
    proof {
        lemma_trim_parts(string@, a as int, b as int);
    }
    let trimmed: &str = s.substring_char(a, b);
    let lowered: String = lowercase(trimmed);
    let ls: &str = lowered.as_str();
    let m: usize = ls.unicode_len();
    let mut out = String::new();
    let mut i: usize = 0;
    while i < m
        invariant
            0 <= i <= m,
            m == ls@.len(),
            ls@ == lowered@,
            lowered@ == lower_of(trim_spec(string@)),
            out@ == underscore_map(lowered@.take(i as int)),
        decreases m - i,
    {
        let c = ls.get_char(i);
        let c2 = underscore_char_exec(c);
        push_char(&mut out, c2);
        proof {
            assert(lowered@.take(i + 1 as int) =~= lowered@.take(i as int).push(
                lowered@[i as int],
            ));
            lemma_underscore_map_push(lowered@.take(i as int), lowered@[i as int]);
        }
        i = i + 1;
    }
    proof {
        assert(lowered@.take(m as int) =~= lowered@);
        assert(out@ =~= norm_spec(string@));
    }
    out
}

/// Trimming is idempotent: a trimmed identifier trims to itself.
pub proof fn lemma_trim_idempotent(s: Seq<char>)
    ensures
        trim_spec(trim_spec(s)) == trim_spec(s),
{
    lemma_trim_ends(s);
    lemma_trim_parts(trim_spec(s), 0, trim_spec(s).len() as int);
    assert(trim_spec(s).subrange(0, trim_spec(s).len() as int) =~= trim_spec(s));
}

/// Underscore replacement is idempotent: it leaves no space behind, and
/// an underscore is unchanged.
pub proof fn lemma_underscore_idempotent(s: Seq<char>)
    ensures
        underscore_map(underscore_map(s)) == underscore_map(s),
{
    assert forall|i: int| 0 <= i < s.len() implies underscore_char(
        underscore_char(s[i]),
    ) == underscore_char(s[i]) by {
    }
    assert(underscore_map(underscore_map(s)) =~= underscore_map(s));
}

/// Normalization is idempotent, granted two facts that hold of Unicode
/// lowercasing but that its named result [`lower_of`] cannot promise:
/// a normalized identifier carries no whitespace at its ends, and
/// lowercasing an already-normalized identifier changes nothing. The
/// trimming and underscore halves are idempotent unconditionally
/// ([`lemma_trim_idempotent`], [`lemma_underscore_idempotent`]).
pub proof fn lemma_normalize_idempotent(s: Seq<char>)
    ensures
        (trim_spec(norm_spec(s)) == norm_spec(s) && lower_of(norm_spec(s)) == norm_spec(s))
            ==> norm_spec(norm_spec(s)) == norm_spec(s),
{
    if trim_spec(norm_spec(s)) == norm_spec(s) && lower_of(norm_spec(s)) == norm_spec(s) {
        let t = norm_spec(s);
        assert(norm_spec(t) == underscore_map(lower_of(trim_spec(t))));
        assert(norm_spec(t) == underscore_map(t));
        lemma_underscore_idempotent(lower_of(trim_spec(s)));
    }
}

} // verus!
