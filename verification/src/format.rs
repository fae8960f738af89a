//! Display and CSV helpers: sizes with one rounded decimal, install
//! dates, CSV field quoting, and the command-splitting rules used for
//! uninstall strings. All arithmetic is integral; the one-decimal forms
//! round half away from zero.

use vstd::prelude::*;
use crate::text::{
    lower, trim, first_where, is_space, str_to_chars, chars_to_string, trim_chars,
    lower_chars, is_space_char, push_char, lemma_first_where_unique,
};
use vstd::string::*;

verus! {

/// The digit character of one decimal digit.
pub open spec fn digit_char(d: int) -> char {
    ((48 + d) as u8) as char
}

/// The decimal representation of a nonnegative integer.
pub open spec fn dec_str(n: int) -> Seq<char>
    decreases n,
{
    if n < 10 {
        seq![digit_char(n)]
    } else {
        dec_str(n / 10) + seq![digit_char(n % 10)]
    }
}

fn digit_of(d: u64) -> (r: char)
    requires
        d < 10,
    ensures
        r == digit_char(d as int),
{
    ((48 + d as u8)) as char
}

/// The decimal digits of a number.
pub fn u64_to_string(n: u64) -> (r: String)
    ensures
        r@ == dec_str(n as int),
{
    if n == 0 {
        let mut r = String::new();
        push_char(&mut r, '0');
        proof {
            assert(digit_char(0) == '0');
            assert(r@ =~= dec_str(0));
        }
        return r;
    }
    let mut digits: Vec<char> = Vec::new();
    let mut m = n;
    while m > 0
        invariant
            n > 0,
            if m > 0 {
                dec_str(n as int) == dec_str(m as int) + digits@.reverse()
            } else {
                dec_str(n as int) == digits@.reverse()
            },
        decreases m,
    {
        let ghost m0 = m as int;
        let ghost before = digits@;
        let d = m % 10;
        digits.push(digit_of(d));
        m = m / 10;
        proof {
            assert(digits@.reverse() =~= seq![digit_char(m0 % 10)] + before.reverse());
            if m0 < 10 {
                assert(dec_str(m0) == seq![digit_char(m0)]);
                assert(m0 % 10 == m0);
                assert(dec_str(n as int) =~= digits@.reverse());
            } else {
                assert(dec_str(m0) == dec_str(m0 / 10) + seq![digit_char(m0 % 10)]);
                assert(dec_str(m0 / 10) + (seq![digit_char(m0 % 10)] + before.reverse())
                    =~= (dec_str(m0 / 10) + seq![digit_char(m0 % 10)]) + before.reverse());
                assert(dec_str(n as int) =~= dec_str(m as int) + digits@.reverse());
            }
        }
    }
    let mut out: Vec<char> = Vec::new();
    let mut i: usize = digits.len();
    while i > 0
        invariant
            i <= digits@.len(),
            out@ == digits@.reverse().subrange(0, digits@.len() - i),
        decreases i,
    {
        i = i - 1;
        out.push(digits[i]);
        proof {
            assert(digits@.reverse()[digits@.len() - 1 - i] == digits@[i as int]);
            assert(out@ =~= digits@.reverse().subrange(0, digits@.len() - i));
        }
    }
    proof {
        assert(out@ =~= digits@.reverse());
    }
    chars_to_string(&out)
}

/// Tenths rendered as "w.f": the last digit goes after the point.
pub open spec fn dec1_str(v: int) -> Seq<char> {
    dec_str(v / 10) + seq!['.'] + seq![digit_char(v % 10)]
}

fn one_decimal(v: u64) -> (r: String)
    ensures
        r@ == dec1_str(v as int),
{
    let mut r = u64_to_string(v / 10);
    push_char(&mut r, '.');
    push_char(&mut r, digit_of(v % 10));
    proof {
        assert(r@ =~= dec1_str(v as int));
    }
    r
}

/// How a byte count renders: gigabytes, megabytes or kilobytes to the
/// fitting precision, bare bytes below a kibibyte. Rounding is half-up
/// at the shown precision.
pub open spec fn format_memory_spec(b: int) -> Seq<char> {
    if b >= 1_073_741_824 {
        dec1_str((b * 10 + 536_870_912) / 1_073_741_824) + " GB"@
    } else if b >= 1_048_576 {
        dec1_str((b * 10 + 524_288) / 1_048_576) + " MB"@
    } else if b >= 1024 {
        dec_str((b + 512) / 1024) + " KB"@
    } else {
        dec_str(b) + " B"@
    }
}

/// Renders a byte count for the display tables.
pub fn format_memory(bytes: u64) -> (r: String)
    ensures
        r@ == format_memory_spec(bytes as int),
{
    if bytes >= 1_073_741_824 {
        let v = (((bytes as u128) * 10 + 536_870_912) / 1_073_741_824) as u64;
        let mut r = one_decimal(v);
        r.append(" GB");
        r
    } else if bytes >= 1_048_576 {
        let v = (((bytes as u128) * 10 + 524_288) / 1_048_576) as u64;
        let mut r = one_decimal(v);
        r.append(" MB");
        r
    } else if bytes >= 1024 {
        let v = (bytes + 512) / 1024;
        let mut r = u64_to_string(v);
        r.append(" KB");
        r
    } else {
        let mut r = u64_to_string(bytes);
        r.append(" B");
        r
    }
}

/// Renders a byte count for CSV export; the rule is the same as for the
/// display tables.
pub fn format_memory_csv(bytes: u64) -> (r: String)
    ensures
        r@ == format_memory_spec(bytes as int),
{
    format_memory(bytes)
}

/// As `format_memory_spec`, except that zero renders as an em dash.
pub open spec fn format_bytes_spec(b: int) -> Seq<char> {
    if b == 0 {
        "\u{2014}"@
    } else {
        format_memory_spec(b)
    }
}

/// Renders a byte count where zero means "nothing to show".
pub fn format_bytes(bytes: u64) -> (r: String)
    ensures
        r@ == format_bytes_spec(bytes as int),
{
    if bytes == 0 {
        "\u{2014}".to_owned()
    } else {
        format_memory(bytes)
    }
}

/// How a kilobyte count renders: zero is a placeholder, large sizes get
/// one decimal, small ones are bare kilobytes.
pub open spec fn format_size_spec(kb: int) -> Seq<char> {
    if kb == 0 {
        "--"@
    } else if kb >= 1_048_576 {
        dec1_str((kb * 10 + 524_288) / 1_048_576) + " GB"@
    } else if kb >= 1024 {
        dec1_str((kb * 10 + 512) / 1024) + " MB"@
    } else {
        dec_str(kb) + " KB"@
    }
}

/// Renders an installed size given in kilobytes.
pub fn format_size(kb: u64) -> (r: String)
    ensures
        r@ == format_size_spec(kb as int),
{
    if kb == 0 {
        "--".to_owned()
    } else if kb >= 1_048_576 {
        let v = (((kb as u128) * 10 + 524_288) / 1_048_576) as u64;
        let mut r = one_decimal(v);
        r.append(" GB");
        r
    } else if kb >= 1024 {
        let v = (((kb as u128) * 10 + 512) / 1024) as u64;
        let mut r = one_decimal(v);
        r.append(" MB");
        r
    } else {
        let mut r = u64_to_string(kb);
        r.append(" KB");
        r
    }
}

/// How an eight-digit raw install date renders: dashes inserted; empty
/// input is a placeholder; anything else passes through.
pub open spec fn format_install_date_spec(raw: Seq<char>) -> Seq<char> {
    if raw.len() == 8 {
        raw.subrange(0, 4) + seq!['-'] + raw.subrange(4, 6) + seq!['-'] + raw.subrange(6, 8)
    } else if raw.len() == 0 {
        "--"@
    } else {
        raw
    }
}

/// Renders a raw `YYYYMMDD` install date as `YYYY-MM-DD`.
pub fn format_install_date(raw: &str) -> (r: String)
    ensures
        r@ == format_install_date_spec(raw@),
{
    let n = raw.unicode_len();
    if n == 8 {
        let chars = str_to_chars(raw);
        let mut out: Vec<char> = Vec::new();
        out.push(chars[0]);
        out.push(chars[1]);
        out.push(chars[2]);
        out.push(chars[3]);
        out.push('-');
        out.push(chars[4]);
        out.push(chars[5]);
        out.push('-');
        out.push(chars[6]);
        out.push(chars[7]);
        proof {
            assert(out@ =~= format_install_date_spec(raw@));
        }
        chars_to_string(&out)
    } else if n == 0 {
        "--".to_owned()
    } else {
        raw.to_owned()
    }
}

/// Whether the field must be quoted for CSV.
pub open spec fn csv_needs_quote(s: Seq<char>) -> bool {
    exists|i: int| 0 <= i < s.len() && ((#[trigger] s[i]) == ',' || s[i] == '"' || s[i] == '\n')
}

/// Every quote doubled.
pub open spec fn csv_doubled(s: Seq<char>) -> Seq<char>
    decreases s.len(),
{
    if s.len() == 0 {
        Seq::empty()
    } else {
        csv_doubled(s.drop_last()) + if s.last() == '"' {
            seq!['"', '"']
        } else {
            seq![s.last()]
        }
    }
}

/// How a CSV field renders: wrapped in quotes with inner quotes doubled
/// where it holds a comma, quote or newline, untouched otherwise.
pub open spec fn csv_escape_spec(s: Seq<char>) -> Seq<char> {
    if csv_needs_quote(s) {
        seq!['"'] + csv_doubled(s) + seq!['"']
    } else {
        s
    }
}

/// Escapes one CSV field.
pub fn csv_escape(field: &str) -> (r: String)
    ensures
        r@ == csv_escape_spec(field@),
{
    let chars = str_to_chars(field);
    let mut needs: bool = false;
    let mut i: usize = 0;
    while i < chars.len()
        invariant
            i <= chars@.len(),
            chars@ == field@,
            needs == exists|k: int|
                0 <= k < i && ((#[trigger] chars@[k]) == ',' || chars@[k] == '"' || chars@[k]
                    == '\n'),
        decreases chars.len() - i,
    {
        let c = chars[i];
        if c == ',' || c == '"' || c == '\n' {
            needs = true;
        }
        i = i + 1;
    }
    if !needs {
        proof {
            assert(!csv_needs_quote(field@));
        }
        return field.to_owned();
    }
    let mut out: Vec<char> = Vec::new();
    out.push('"');
    let mut k: usize = 0;
    proof {
        assert(out@ =~= seq!['"'] + csv_doubled(chars@.subrange(0, 0)));
    }
    while k < chars.len()
        invariant
            k <= chars@.len(),
            chars@ == field@,
            out@ == seq!['"'] + csv_doubled(chars@.subrange(0, k as int)),
        decreases chars.len() - k,
    {
        let ghost prefix = chars@.subrange(0, k as int);
        let ghost cur = chars@.subrange(0, k + 1);
        proof {
            assert(cur.drop_last() =~= prefix);
            assert(cur.last() == chars@[k as int]);
        }
        let c = chars[k];
        if c == '"' {
            out.push('"');
            out.push('"');
        } else {
            out.push(c);
        }
        proof {
            assert(out@ =~= seq!['"'] + csv_doubled(cur));
        }
        k = k + 1;
    }
    out.push('"');
    proof {
        assert(chars@.subrange(0, chars@.len() as int) =~= chars@);
        assert(out@ =~= csv_escape_spec(field@));
    }
    chars_to_string(&out)
}

/// Index of the first occurrence of `pat` in `s`, or `-1`.
pub open spec fn find_pat(s: Seq<char>, pat: Seq<char>) -> int
    decreases s.len(),
{
    if s.len() < pat.len() {
        -1
    } else if s.subrange(0, pat.len() as int) == pat {
        0
    } else if s.len() == 0 {
        -1
    } else {
        let r = find_pat(s.drop_first(), pat);
        if r < 0 {
            -1
        } else {
            1 + r
        }
    }
}

proof fn lemma_find_pat_at(s: Seq<char>, pat: Seq<char>, i: int)
    requires
        pat.len() > 0,
        0 <= i,
        i + pat.len() <= s.len(),
        s.subrange(i, i + pat.len()) == pat,
        forall|j: int| 0 <= j < i ==> #[trigger] s.subrange(j, j + pat.len()) != pat,
    ensures
        find_pat(s, pat) == i,
    decreases s.len(),
{
    if i == 0 {
        assert(s.subrange(0, pat.len() as int) == pat);
    } else {
        assert(s.subrange(0int, 0int + pat.len()) != pat);
        assert(s.subrange(0, pat.len() as int) != pat);
        let d = s.drop_first();
        assert(d.subrange(i - 1, i - 1 + pat.len()) =~= s.subrange(i, i + pat.len()));
        assert forall|j: int| 0 <= j < i - 1 implies #[trigger] d.subrange(j, j + pat.len())
            != pat by {
            assert(d.subrange(j, j + pat.len()) =~= s.subrange(j + 1, j + 1 + pat.len()));
        }
        lemma_find_pat_at(d, pat, i - 1);
    }
}

proof fn lemma_find_pat_props(s: Seq<char>, pat: Seq<char>)
    ensures
        find_pat(s, pat) >= 0 ==> find_pat(s, pat) + pat.len() <= s.len(),
    decreases s.len(),
{
    if s.len() < pat.len() {
    } else if s.subrange(0, pat.len() as int) == pat {
    } else if s.len() == 0 {
    } else {
        lemma_find_pat_props(s.drop_first(), pat);
    }
}

proof fn lemma_find_pat_none(s: Seq<char>, pat: Seq<char>)
    requires
        pat.len() > 0,
        forall|j: int| 0 <= j && j + pat.len() <= s.len() ==> #[trigger] s.subrange(
            j,
            j + pat.len(),
        ) != pat,
    ensures
        find_pat(s, pat) == -1,
    decreases s.len(),
{
    if s.len() >= pat.len() {
        assert(s.subrange(0int, 0int + pat.len()) != pat);
        assert(s.subrange(0, pat.len() as int) != pat);
        let d = s.drop_first();
        assert forall|j: int| 0 <= j && j + pat.len() <= d.len() implies #[trigger] d.subrange(
            j,
            j + pat.len(),
        ) != pat by {
            assert(d.subrange(j, j + pat.len()) =~= s.subrange(j + 1, j + 1 + pat.len()));
        }
        lemma_find_pat_none(d, pat);
    }
}

/// Finds the first occurrence of a nonempty pattern.
fn find_in(chars: &Vec<char>, pat: &Vec<char>) -> (r: Option<usize>)
    requires
        pat@.len() > 0,
    ensures
        match r {
            Some(p) => find_pat(chars@, pat@) == p as int,
            None => find_pat(chars@, pat@) == -1,
        },
{
    let n = chars.len();
    let m = pat.len();
    if n < m {
        proof {
            lemma_find_pat_none(chars@, pat@);
        }
        return None;
    }
    let mut p: usize = 0;
    while p <= n - m
        invariant
            m == pat@.len(),
            m >= 1,
            n == chars@.len(),
            m <= n,
            p <= n - m + 1,
            forall|j: int| 0 <= j < p ==> #[trigger] chars@.subrange(j, j + pat@.len()) != pat@,
        decreases n - p,
    {
        let mut q: usize = 0;
        let mut hit = true;
        while q < m
            invariant
                m == pat@.len(),
                m >= 1,
                n == chars@.len(),
                p + m <= n,
                q <= m,
                hit == (chars@.subrange(p as int, p + q) =~= pat@.subrange(0, q as int)),
            decreases m - q,
        {
            let ghost before = chars@.subrange(p as int, p + q);
            if chars[p + q] != pat[q] {
                hit = false;
                proof {
                    assert(chars@.subrange(p as int, p + q + 1)[q as int] == chars@[p + q]);
                    assert(pat@.subrange(0, q as int + 1)[q as int] == pat@[q as int]);
                }
            } else {
                proof {
                    if hit {
                        assert(chars@.subrange(p as int, p + q + 1) =~= pat@.subrange(
                            0,
                            q as int + 1,
                        ));
                    } else {
                        assert(before =~= chars@.subrange(p as int, p + q + 1).drop_last());
                        assert(pat@.subrange(0, q as int) =~= pat@.subrange(
                            0,
                            q as int + 1,
                        ).drop_last());
                        if chars@.subrange(p as int, p + q + 1) =~= pat@.subrange(0, q as int + 1) {
                            assert(before =~= pat@.subrange(0, q as int));
                        }
                    }
                }
            }
            q = q + 1;
        }
        if hit {
            proof {
                assert(chars@.subrange(p as int, p + m) =~= pat@.subrange(0, m as int));
                assert(pat@.subrange(0, m as int) =~= pat@);
                lemma_find_pat_at(chars@, pat@, p as int);
            }
            return Some(p);
        }
        proof {
            assert(chars@.subrange(p as int, p + m) != pat@) by {
                assert(pat@.subrange(0, m as int) =~= pat@);
            }
        }
        p = p + 1;
    }
    proof {
        assert forall|j: int| 0 <= j && j + pat@.len() <= chars@.len() implies #[trigger] chars@
            .subrange(j, j + pat@.len()) != pat@ by {
            assert(j < p);
        }
        lemma_find_pat_none(chars@, pat@);
    }
    None
}

/// How a command string splits into executable and arguments: a quoted
/// executable splits at its closing quote; otherwise the first
/// case-insensitive `.exe` ends the executable; otherwise the first
/// whitespace does; a command with neither is all executable.
pub open spec fn split_command_spec(cmd: Seq<char>) -> (Seq<char>, Seq<char>) {
    let t = trim(cmd);
    if t.len() > 0 && t[0] == '"' && first_where(t.drop_first(), |c: char| c == '"')
        < t.drop_first().len() {
        let rest = t.drop_first();
        let e = first_where(rest, |c: char| c == '"');
        (rest.subrange(0, e), trim(rest.subrange(e + 1, rest.len() as int)))
    } else {
        let p = find_pat(lower(t), seq!['.', 'e', 'x', 'e']);
        if p >= 0 {
            (t.subrange(0, p + 4), trim(t.subrange(p + 4, t.len() as int)))
        } else {
            let w = first_where(t, |c: char| is_space(c));
            if w < t.len() {
                (t.subrange(0, w), trim(t.subrange(w, t.len() as int)))
            } else {
                (t, Seq::empty())
            }
        }
    }
}

fn copy_range(chars: &Vec<char>, from: usize, to: usize) -> (r: Vec<char>)
    requires
        from <= to <= chars@.len(),
    ensures
        r@ == chars@.subrange(from as int, to as int),
{
    let mut r: Vec<char> = Vec::new();
    let mut k: usize = from;
    while k < to
        invariant
            from <= k <= to <= chars@.len(),
            r@ == chars@.subrange(from as int, k as int),
        decreases to - k,
    {
        r.push(chars[k]);
        k = k + 1;
        assert(r@ =~= chars@.subrange(from as int, k as int));
    }
    r
}

/// Splits a launch or uninstall command into executable and arguments.
pub fn split_command(command: &str) -> (r: (String, String))
    ensures
        r.0@ == split_command_spec(command@).0,
        r.1@ == split_command_spec(command@).1,
{
    let chars = str_to_chars(command);
    let t = trim_chars(&chars);
    if t.len() > 0 && t[0] == '"' {
        let mut e: usize = 1;
        while e < t.len() && t[e] != '"'
            invariant
                1 <= e <= t@.len(),
                forall|k: int| 1 <= k < e ==> t@[k] != '"',
            decreases t.len() - e,
        {
            e = e + 1;
        }
        proof {
            let rest = t@.drop_first();
            assert forall|k: int| 0 <= k < e - 1 implies rest[k] != '"' by {
                assert(rest[k] == t@[k + 1]);
            }
            if e < t@.len() {
                assert(rest[e - 1] == t@[e as int]);
            }
            lemma_first_where_unique(rest, |c: char| c == '"', e - 1);
        }
        if e < t.len() {
            let exe = copy_range(&t, 1, e);
            let args_raw = copy_range(&t, e + 1, t.len());
            let args = trim_chars(&args_raw);
            proof {
                let rest = t@.drop_first();
                assert(exe@ =~= rest.subrange(0, e - 1));
                assert(args_raw@ =~= rest.subrange(e as int, rest.len() as int));
            }
            return (chars_to_string(&exe), chars_to_string(&args));
        }
    }
    let lowered = lower_chars(&t);
    let mut pat: Vec<char> = Vec::new();
    pat.push('.');
    pat.push('e');
    pat.push('x');
    pat.push('e');
    proof {
        assert(pat@ =~= seq!['.', 'e', 'x', 'e']);
    }
    match find_in(&lowered, &pat) {
        Some(p) => {
            proof {
                lemma_find_pat_props(lowered@, pat@);
            }
            let exe = copy_range(&t, 0, p + 4);
            let args_raw = copy_range(&t, p + 4, t.len());
            let args = trim_chars(&args_raw);
            (chars_to_string(&exe), chars_to_string(&args))
        },
        None => {
            let mut w: usize = 0;
            while w < t.len() && !is_space_char(t[w])
                invariant
                    w <= t@.len(),
                    forall|k: int| 0 <= k < w ==> !is_space(#[trigger] t@[k]),
                decreases t.len() - w,
            {
                w = w + 1;
            }
            proof {
                lemma_first_where_unique(t@, |c: char| is_space(c), w as int);
            }
            if w < t.len() {
                let exe = copy_range(&t, 0, w);
                let args_raw = copy_range(&t, w, t.len());
                let args = trim_chars(&args_raw);
                (chars_to_string(&exe), chars_to_string(&args))
            } else {
                proof {
                    assert(t@.subrange(0, t@.len() as int) =~= t@);
                }
                (chars_to_string(&t), String::new())
            }
        },
    }
}

/// One step at a time through shell-like splitting: quotes toggle
/// verbatim mode, unquoted blanks end the pending argument, everything
/// else joins it. The result is what the remaining input adds to what
/// has been split already.
pub open spec fn shell_split_from(
    s: Seq<char>,
    i: int,
    in_quotes: bool,
    current: Seq<char>,
    acc: Seq<Seq<char>>,
) -> Seq<Seq<char>>
    decreases s.len() - i,
{
    if i < 0 || i >= s.len() {
        if current.len() > 0 {
            acc.push(current)
        } else {
            acc
        }
    } else {
        let c = s[i];
        if c == '"' {
            shell_split_from(s, i + 1, !in_quotes, current, acc)
        } else if (c == ' ' || c == '\t') && !in_quotes {
            if current.len() > 0 {
                shell_split_from(s, i + 1, in_quotes, Seq::empty(), acc.push(current))
            } else {
                shell_split_from(s, i + 1, in_quotes, current, acc)
            }
        } else {
            shell_split_from(s, i + 1, in_quotes, current.push(c), acc)
        }
    }
}

/// How an argument string splits into arguments.
pub open spec fn shell_split_spec(s: Seq<char>) -> Seq<Seq<char>> {
    shell_split_from(s, 0, false, Seq::empty(), Seq::empty())
}

/// Splits an argument string shell-fashion: quoted stretches keep their
/// blanks, quotes themselves are dropped.
pub fn shell_split(s: &str) -> (r: Vec<String>)
    ensures
        r.deep_view() == shell_split_spec(s@),
{
    let chars = str_to_chars(s);
    let mut args: Vec<String> = Vec::new();
    let mut current: Vec<char> = Vec::new();
    let mut in_quotes = false;
    let mut i: usize = 0;
    proof {
        assert(args.deep_view() =~= Seq::<Seq<char>>::empty());
        assert(current@ =~= Seq::<char>::empty());
    }
    while i < chars.len()
        invariant
            i <= chars@.len(),
            chars@ == s@,
            shell_split_spec(s@) == shell_split_from(
                s@,
                i as int,
                in_quotes,
                current@,
                args.deep_view(),
            ),
        decreases chars.len() - i,
    {
        let c = chars[i];
        if c == '"' {
            in_quotes = !in_quotes;
        } else if (c == ' ' || c == '\t') && !in_quotes {
            if current.len() > 0 {
                let ghost acc_before = args.deep_view();
                let ghost cur_before = current@;
                args.push(chars_to_string(&current));
                current = Vec::new();
                proof {
                    assert(args.deep_view() =~= acc_before.push(cur_before));
                    assert(current@ =~= Seq::<char>::empty());
                }
            }
        } else {
            current.push(c);
        }
        i = i + 1;
    }
    if current.len() > 0 {
        let ghost acc_before = args.deep_view();
        let ghost cur_before = current@;
        args.push(chars_to_string(&current));
        proof {
            assert(args.deep_view() =~= acc_before.push(cur_before));
        }
    }
    args
}

/// How a launch command splits into its executable and argument list:
/// a quoted executable ends at its closing quote and the rest is split
/// shell-fashion; otherwise the first whitespace ends the executable.
/// An empty command has neither.
pub open spec fn parse_command_spec(cmd: Seq<char>) -> (Seq<char>, Seq<Seq<char>>) {
    let t = trim(cmd);
    if t.len() == 0 {
        (Seq::empty(), Seq::empty())
    } else if t[0] == '"' && first_where(t.drop_first(), |c: char| c == '"')
        < t.drop_first().len() {
        let rest = t.drop_first();
        let e = first_where(rest, |c: char| c == '"');
        let after = trim(rest.subrange(e + 1, rest.len() as int));
        (
            rest.subrange(0, e),
            if after.len() == 0 {
                Seq::empty()
            } else {
                shell_split_spec(after)
            },
        )
    } else {
        let w = first_where(t, |c: char| is_space(c));
        if w < t.len() {
            let after = trim(t.subrange(w + 1, t.len() as int));
            (
                t.subrange(0, w),
                if after.len() == 0 {
                    Seq::empty()
                } else {
                    shell_split_spec(after)
                },
            )
        } else {
            (t, Seq::empty())
        }
    }
}

/// Parses a launch command into its executable and argument list.
pub fn parse_command(command: &str) -> (r: (String, Vec<String>))
    ensures
        r.0@ == parse_command_spec(command@).0,
        r.1.deep_view() == parse_command_spec(command@).1,
{
    let chars = str_to_chars(command);
    let t = trim_chars(&chars);
    if t.len() == 0 {
        return (String::new(), Vec::new());
    }
    if t[0] == '"' {
        let mut e: usize = 1;
        while e < t.len() && t[e] != '"'
            invariant
                1 <= e <= t@.len(),
                forall|k: int| 1 <= k < e ==> t@[k] != '"',
            decreases t.len() - e,
        {
            e = e + 1;
        }
        proof {
            let rest = t@.drop_first();
            assert forall|k: int| 0 <= k < e - 1 implies rest[k] != '"' by {
                assert(rest[k] == t@[k + 1]);
            }
            if e < t@.len() {
                assert(rest[e - 1] == t@[e as int]);
            }
            lemma_first_where_unique(rest, |c: char| c == '"', e - 1);
        }
        if e < t.len() {
            let exe = copy_range(&t, 1, e);
            let after_raw = copy_range(&t, e + 1, t.len());
            let after = trim_chars(&after_raw);
            proof {
                let rest = t@.drop_first();
                assert(exe@ =~= rest.subrange(0, e - 1));
                assert(after_raw@ =~= rest.subrange(e as int, rest.len() as int));
            }
            let args: Vec<String> = if after.len() == 0 {
                Vec::new()
            } else {
                shell_split(chars_to_string(&after).as_str())
            };
            return (chars_to_string(&exe), args);
        }
    }
    let mut w: usize = 0;
    while w < t.len() && !is_space_char(t[w])
        invariant
            w <= t@.len(),
            forall|k: int| 0 <= k < w ==> !is_space(#[trigger] t@[k]),
        decreases t.len() - w,
    {
        w = w + 1;
    }
    proof {
        lemma_first_where_unique(t@, |c: char| is_space(c), w as int);
    }
    if w < t.len() {
        let exe = copy_range(&t, 0, w);
        let after_raw = copy_range(&t, w + 1, t.len());
        let after = trim_chars(&after_raw);
        let args: Vec<String> = if after.len() == 0 {
            Vec::new()
        } else {
            shell_split(chars_to_string(&after).as_str())
        };
        (chars_to_string(&exe), args)
    } else {
        proof {
            assert(t@.subrange(0, t@.len() as int) =~= t@);
        }
        (chars_to_string(&t), Vec::new())
    }
}

/// How the executable path is carved out of a command string for the
/// metadata lookup: a quoted path ends at its closing quote (or takes
/// the whole rest); otherwise the first known executable-like extension
/// ends it, tried in a fixed order; otherwise the first whitespace-
/// delimited token stands.
pub open spec fn extract_path_spec(s: Seq<char>) -> Seq<char> {
    let t = trim(s);
    if t.len() == 0 {
        Seq::empty()
    } else if t[0] == '"' {
        let rest = t.drop_first();
        rest.subrange(0, first_where(rest, |c: char| c == '"'))
    } else {
        let lt = lower(t);
        let p_exe = find_pat(lt, seq!['.', 'e', 'x', 'e']);
        let p_dll = find_pat(lt, seq!['.', 'd', 'l', 'l']);
        let p_sys = find_pat(lt, seq!['.', 's', 'y', 's']);
        let p_ocx = find_pat(lt, seq!['.', 'o', 'c', 'x']);
        if p_exe >= 0 {
            t.subrange(0, p_exe + 4)
        } else if p_dll >= 0 {
            t.subrange(0, p_dll + 4)
        } else if p_sys >= 0 {
            t.subrange(0, p_sys + 4)
        } else if p_ocx >= 0 {
            t.subrange(0, p_ocx + 4)
        } else {
            t.subrange(0, first_where(t, |c: char| is_space(c)))
        }
    }
}

fn ext_pat(a: char, b: char, c: char) -> (r: Vec<char>)
    ensures
        r@ == seq!['.', a, b, c],
{
    let mut pat: Vec<char> = Vec::new();
    pat.push('.');
    pat.push(a);
    pat.push(b);
    pat.push(c);
    proof {
        assert(pat@ =~= seq!['.', a, b, c]);
    }
    pat
}

/// Carves the executable path out of a command string.
pub fn extract_path(s: &str) -> (r: String)
    ensures
        r@ == extract_path_spec(s@),
{
    let chars = str_to_chars(s);
    let t = trim_chars(&chars);
    if t.len() == 0 {
        return String::new();
    }
    if t[0] == '"' {
        let mut e: usize = 1;
        while e < t.len() && t[e] != '"'
            invariant
                1 <= e <= t@.len(),
                forall|k: int| 1 <= k < e ==> t@[k] != '"',
            decreases t.len() - e,
        {
            e = e + 1;
        }
        proof {
            let rest = t@.drop_first();
            assert forall|k: int| 0 <= k < e - 1 implies rest[k] != '"' by {
                assert(rest[k] == t@[k + 1]);
            }
            if e < t@.len() {
                assert(rest[e - 1] == t@[e as int]);
            }
            lemma_first_where_unique(rest, |c: char| c == '"', e - 1);
        }
        let exe = copy_range(&t, 1, e);
        proof {
            assert(exe@ =~= t@.drop_first().subrange(0, e - 1));
        }
        return chars_to_string(&exe);
    }
    let lowered = lower_chars(&t);
    let pat_exe = ext_pat('e', 'x', 'e');
    let pat_dll = ext_pat('d', 'l', 'l');
    let pat_sys = ext_pat('s', 'y', 's');
    let pat_ocx = ext_pat('o', 'c', 'x');
    let found: Option<usize> = match find_in(&lowered, &pat_exe) {
        Some(p) => Some(p),
        None => match find_in(&lowered, &pat_dll) {
            Some(p) => Some(p),
            None => match find_in(&lowered, &pat_sys) {
                Some(p) => Some(p),
                None => find_in(&lowered, &pat_ocx),
            },
        },
    };
    match found {
        Some(p) => {
            proof {
                lemma_find_pat_props(lowered@, pat_exe@);
                lemma_find_pat_props(lowered@, pat_dll@);
                lemma_find_pat_props(lowered@, pat_sys@);
                lemma_find_pat_props(lowered@, pat_ocx@);
            }
            let exe = copy_range(&t, 0, p + 4);
            chars_to_string(&exe)
        },
        None => {
            let mut w: usize = 0;
            while w < t.len() && !is_space_char(t[w])
                invariant
                    w <= t@.len(),
                    forall|k: int| 0 <= k < w ==> !is_space(#[trigger] t@[k]),
                decreases t.len() - w,
            {
                w = w + 1;
            }
            proof {
                lemma_first_where_unique(t@, |c: char| is_space(c), w as int);
            }
            let exe = copy_range(&t, 0, w);
            chars_to_string(&exe)
        },
    }
}

} // verus!
