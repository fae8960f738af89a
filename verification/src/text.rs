//! Character-sequence helpers shared by the model and the collector:
//! ASCII case folding, whitespace trimming, scanning, and the
//! case-insensitive lexicographic order used to sort entry names.

use vstd::prelude::*;
use vstd::string::*;

verus! {

/// Whitespace as this crate understands it when it strips command strings.
pub open spec fn is_space(c: char) -> bool {
    c == ' ' || c == '\t' || c == '\n' || c == '\r'
}

/// ASCII lower-casing of one character; anything outside `A..=Z` is kept.
pub open spec fn lower_char(c: char) -> char {
    if 65 <= c as u32 && c as u32 <= 90 {
        ((c as u8) + 32) as char
    } else {
        c
    }
}

/// ASCII upper-casing of one character; anything outside `a..=z` is kept.
pub open spec fn upper_char(c: char) -> char {
    if 97 <= c as u32 && c as u32 <= 122 {
        ((c as u8) - 32) as char
    } else {
        c
    }
}

/// ASCII lower-casing of a whole sequence.
pub open spec fn lower(s: Seq<char>) -> Seq<char> {
    s.map_values(|c: char| lower_char(c))
}

/// ASCII upper-casing of a whole sequence.
pub open spec fn upper(s: Seq<char>) -> Seq<char> {
    s.map_values(|c: char| upper_char(c))
}

/// Lower-casing one character is idempotent.
pub proof fn lemma_lower_char_idempotent(c: char)
    ensures
        lower_char(lower_char(c)) == lower_char(c),
{
}

/// Lower-casing is idempotent.
pub proof fn lemma_lower_idempotent(s: Seq<char>)
    ensures
        lower(lower(s)) == lower(s),
{
    assert(lower(s).len() == s.len());
    assert(lower(lower(s)).len() == s.len());
    assert forall|i: int| 0 <= i < s.len() implies #[trigger] lower(lower(s))[i] == lower(s)[i] by {
        let t = lower(s);
        let c = s[i];
        assert(t[i] == lower_char(c));
        assert(lower(t)[i] == lower_char(t[i]));
        lemma_lower_char_idempotent(c);
    }
    assert(lower(lower(s)) =~= lower(s));
}

/// Index of the first character satisfying `p`, or `s.len()` if none does.
pub open spec fn first_where(s: Seq<char>, p: spec_fn(char) -> bool) -> int
    decreases s.len(),
{
    if s.len() == 0 {
        0
    } else if p(s[0]) {
        0
    } else {
        1 + first_where(s.drop_first(), p)
    }
}

/// Index of the last character satisfying `p`, or `-1` if none does.
pub open spec fn last_where(s: Seq<char>, p: spec_fn(char) -> bool) -> int
    decreases s.len(),
{
    if s.len() == 0 {
        -1
    } else if p(s.last()) {
        s.len() - 1
    } else {
        last_where(s.drop_last(), p)
    }
}

pub proof fn lemma_first_where_unique(s: Seq<char>, p: spec_fn(char) -> bool, i: int)
    requires
        0 <= i <= s.len(),
        forall|k: int| 0 <= k < i ==> !p(#[trigger] s[k]),
        i < s.len() ==> p(s[i]),
    ensures
        first_where(s, p) == i,
    decreases s.len(),
{
    if s.len() > 0 && !p(s[0]) {
        assert(i > 0);
        assert forall|k: int| 0 <= k < i - 1 implies !p(#[trigger] s.drop_first()[k]) by {
            assert(s.drop_first()[k] == s[k + 1]);
        }
        assert(i - 1 < s.drop_first().len() ==> p(s.drop_first()[i - 1]));
        lemma_first_where_unique(s.drop_first(), p, i - 1);
    }
}

pub proof fn lemma_last_where_unique(s: Seq<char>, p: spec_fn(char) -> bool, i: int)
    requires
        -1 <= i < s.len(),
        forall|k: int| i < k < s.len() ==> !p(#[trigger] s[k]),
        i >= 0 ==> p(s[i]),
    ensures
        last_where(s, p) == i,
    decreases s.len(),
{
    if s.len() > 0 && !p(s.last()) {
        assert(i < s.len() - 1);
        assert forall|k: int| i < k < s.drop_last().len() implies !p(
            #[trigger] s.drop_last()[k],
        ) by {
            assert(s.drop_last()[k] == s[k]);
        }
        if i >= 0 {
            assert(s.drop_last()[i] == s[i]);
        }
        lemma_last_where_unique(s.drop_last(), p, i);
    }
}

/// Whitespace stripped from both ends.
pub open spec fn trim(s: Seq<char>) -> Seq<char> {
    let last = last_where(s, |c: char| !is_space(c));
    if last < 0 {
        Seq::empty()
    } else {
        s.subrange(first_where(s, |c: char| !is_space(c)), last + 1)
    }
}

/// Strict lexicographic order on character sequences, by code point.
pub open spec fn lex_lt(a: Seq<char>, b: Seq<char>) -> bool
    decreases a.len(),
{
    if b.len() == 0 {
        false
    } else if a.len() == 0 {
        true
    } else if a[0] != b[0] {
        a[0] < b[0]
    } else {
        lex_lt(a.drop_first(), b.drop_first())
    }
}

/// The order is total: two mutually unordered sequences are equal.
#[verifier::rlimit(50)]
pub proof fn lemma_lex_lt_total(a: Seq<char>, b: Seq<char>)
    requires
        !lex_lt(a, b),
        !lex_lt(b, a),
    ensures
        a == b,
    decreases a.len(),
{
    if a.len() == 0 || b.len() == 0 {
        assert(a =~= b);
    } else {
        assert(a[0] == b[0]);
        lemma_lex_lt_total(a.drop_first(), b.drop_first());
        assert(a =~= seq![a[0]] + a.drop_first());
        assert(b =~= seq![b[0]] + b.drop_first());
    }
}

/// The order is transitive.
pub proof fn lemma_lex_lt_trans(a: Seq<char>, b: Seq<char>, c: Seq<char>)
    requires
        lex_lt(a, b),
        lex_lt(b, c),
    ensures
        lex_lt(a, c),
    decreases a.len() + b.len() + c.len(),
{
    if a.len() == 0 {
        assert(c.len() > 0);
    } else if a[0] == b[0] && b[0] == c[0] {
        lemma_lex_lt_trans(a.drop_first(), b.drop_first(), c.drop_first());
    }
}

/// The order is irreflexive.
pub proof fn lemma_lex_lt_irrefl(a: Seq<char>)
    ensures
        !lex_lt(a, a),
    decreases a.len(),
{
    if a.len() > 0 {
        lemma_lex_lt_irrefl(a.drop_first());
    }
}

/// Appends one character. Relies on `String::push`.
#[verifier::external_body]
pub(crate) fn push_char(s: &mut String, c: char)
    ensures
        final(s)@ == old(s)@.push(c),
{
    s.push(c);
}

/// The characters of a string slice, in order.
pub fn str_to_chars(s: &str) -> (r: Vec<char>)
    ensures
        r@ == s@,
{
    let n = s.unicode_len();
    let mut r: Vec<char> = Vec::new();
    let mut i: usize = 0;
    while i < n
        invariant
            n == s@.len(),
            i <= n,
            r@ == s@.subrange(0, i as int),
        decreases n - i,
    {
        let c = s.get_char(i);
        r.push(c);
        i = i + 1;
        assert(r@ =~= s@.subrange(0, i as int));
    }
    assert(r@ =~= s@);
    r
}

/// A string made of exactly the given characters.
pub fn chars_to_string(v: &Vec<char>) -> (r: String)
    ensures
        r@ == v@,
{
    let mut r = String::new();
    let mut i: usize = 0;
    while i < v.len()
        invariant
            i <= v.len(),
            r@ == v@.subrange(0, i as int),
        decreases v.len() - i,
    {
        push_char(&mut r, v[i]);
        i = i + 1;
        assert(r@ =~= v@.subrange(0, i as int));
    }
    assert(r@ =~= v@);
    r
}

fn to_lower_char(c: char) -> (r: char)
    ensures
        r == lower_char(c),
{
    let u = c as u32;
    if 65 <= u && u <= 90 {
        ((c as u8) + 32) as char
    } else {
        c
    }
}

fn to_upper_char(c: char) -> (r: char)
    ensures
        r == upper_char(c),
{
    let u = c as u32;
    if 97 <= u && u <= 122 {
        ((c as u8) - 32) as char
    } else {
        c
    }
}

/// ASCII lower-cased copy of a character vector.
pub fn lower_chars(v: &Vec<char>) -> (r: Vec<char>)
    ensures
        r@ == lower(v@),
{
    let mut out: Vec<char> = Vec::new();
    let mut i: usize = 0;
    while i < v.len()
        invariant
            i <= v.len(),
            out@ == lower(v@).subrange(0, i as int),
        decreases v.len() - i,
    {
        out.push(to_lower_char(v[i]));
        i = i + 1;
        assert(out@ =~= lower(v@).subrange(0, i as int));
    }
    assert(out@ =~= lower(v@));
    out
}

/// ASCII lower-cased copy of a string.
pub fn to_lowercase(s: &str) -> (r: String)
    ensures
        r@ == lower(s@),
{
    let chars = str_to_chars(s);
    chars_to_string(&lower_chars(&chars))
}

/// ASCII upper-cased copy of a string.
pub fn to_uppercase(s: &str) -> (r: String)
    ensures
        r@ == upper(s@),
{
    let chars = str_to_chars(s);
    let mut out: Vec<char> = Vec::new();
    let mut i: usize = 0;
    while i < chars.len()
        invariant
            chars@ == s@,
            i <= chars.len(),
            out@ == upper(s@).subrange(0, i as int),
        decreases chars.len() - i,
    {
        out.push(to_upper_char(chars[i]));
        i = i + 1;
        assert(out@ =~= upper(s@).subrange(0, i as int));
    }
    assert(out@ =~= upper(s@));
    chars_to_string(&out)
}

/// Whether the character counts as whitespace for trimming.
pub fn is_space_char(c: char) -> (r: bool)
    ensures
        r == is_space(c),
{
    c == ' ' || c == '\t' || c == '\n' || c == '\r'
}

/// Whitespace stripped from both ends of a character vector.
pub fn trim_chars(v: &Vec<char>) -> (r: Vec<char>)
    ensures
        r@ == trim(v@),
{
    let n = v.len();
    let mut j: usize = n;
    while j > 0 && is_space_char(v[j - 1])
        invariant
            j <= n,
            n == v@.len(),
            forall|k: int| j <= k < n ==> is_space(#[trigger] v@[k]),
        decreases j,
    {
        j = j - 1;
    }
    if j == 0 {
        proof {
            lemma_last_where_unique(v@, |c: char| !is_space(c), -1);
        }
        let r: Vec<char> = Vec::new();
        return r;
    }
    proof {
        lemma_last_where_unique(v@, |c: char| !is_space(c), j - 1);
    }
    let mut i: usize = 0;
    while i < j - 1 && is_space_char(v[i])
        invariant
            i < j <= n,
            n == v@.len(),
            !is_space(v@[j - 1]),
            forall|k: int| 0 <= k < i ==> is_space(#[trigger] v@[k]),
        decreases j - i,
    {
        i = i + 1;
    }
    proof {
        lemma_first_where_unique(v@, |c: char| !is_space(c), i as int);
    }
    let mut r: Vec<char> = Vec::new();
    let mut k: usize = i;
    while k < j
        invariant
            i <= k <= j <= n,
            n == v@.len(),
            r@ == v@.subrange(i as int, k as int),
        decreases j - k,
    {
        r.push(v[k]);
        k = k + 1;
        assert(r@ =~= v@.subrange(i as int, k as int));
    }
    r
}

/// Whether two string slices hold the same characters.
pub fn str_eq(a: &str, b: &str) -> (r: bool)
    ensures
        r == (a@ == b@),
{
    let na = a.unicode_len();
    let nb = b.unicode_len();
    if na != nb {
        proof {
            assert(a@ != b@);
        }
        return false;
    }
    let mut i: usize = 0;
    while i < na
        invariant
            na == a@.len(),
            na == b@.len(),
            i <= na,
            forall|k: int| 0 <= k < i ==> a@[k] == b@[k],
        decreases na - i,
    {
        if a.get_char(i) != b.get_char(i) {
            return false;
        }
        i = i + 1;
    }
    proof {
        assert(a@ =~= b@);
    }
    true
}

/// Whether some string of the vector holds exactly these characters.
pub fn vec_contains_str(v: &Vec<String>, s: &str) -> (r: bool)
    ensures
        r == v.deep_view().contains(s@),
{
    let mut i: usize = 0;
    while i < v.len()
        invariant
            i <= v@.len(),
            forall|k: int| 0 <= k < i ==> v.deep_view()[k] != s@,
        decreases v.len() - i,
    {
        if str_eq(v[i].as_str(), s) {
            assert(v.deep_view()[i as int] == s@);
            return true;
        }
        i = i + 1;
    }
    proof {
        if v.deep_view().contains(s@) {
            let k = choose|k: int| 0 <= k < v.deep_view().len() && v.deep_view()[k] == s@;
        }
    }
    false
}

/// Whether `a` sorts strictly before `b`, comparing case-insensitively.
pub fn name_lt(a: &str, b: &str) -> (r: bool)
    ensures
        r == lex_lt(lower(a@), lower(b@)),
{
    let av = str_to_chars(a);
    let bv = str_to_chars(b);
    let ghost la = lower(a@);
    let ghost lb = lower(b@);
    proof {
        assert(la.subrange(0, la.len() as int) =~= la);
        assert(lb.subrange(0, lb.len() as int) =~= lb);
    }
    let mut i: usize = 0;
    loop
        invariant
            av@ == a@,
            bv@ == b@,
            la == lower(a@),
            lb == lower(b@),
            i <= av.len(),
            i <= bv.len(),
            lex_lt(la, lb) == lex_lt(la.subrange(i as int, la.len() as int), lb.subrange(i as int, lb.len() as int)),
        decreases av.len() - i,
    {
        let ghost sa = la.subrange(i as int, la.len() as int);
        let ghost sb = lb.subrange(i as int, lb.len() as int);
        if i >= bv.len() {
            assert(sb.len() == 0);
            return false;
        }
        if i >= av.len() {
            assert(sa.len() == 0 && sb.len() > 0);
            return true;
        }
        let ca = to_lower_char(av[i]);
        let cb = to_lower_char(bv[i]);
        assert(sa[0] == la[i as int] && sb[0] == lb[i as int]);
        if ca < cb {
            return true;
        }
        if cb < ca {
            return false;
        }
        assert(ca == cb);
        proof {
            assert(sa.drop_first() =~= la.subrange(i + 1, la.len() as int));
            assert(sb.drop_first() =~= lb.subrange(i + 1, lb.len() as int));
        }
        i = i + 1;
    }
}

} // verus!
