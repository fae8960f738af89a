//! The admin-visibility handoff: the newline-delimited list of task paths
//! a non-admin pass leaves behind for the next elevated pass to compare
//! against. Encoding and decoding are exact inverses for well-formed
//! paths, and a malformed or absent file can only yield fewer lines,
//! never an error.

use vstd::prelude::*;
use crate::text::{first_where, str_to_chars, chars_to_string, lemma_first_where_unique};
use vstd::string::*;

verus! {

/// A trailing carriage return stripped, as reading text lines does.
pub open spec fn strip_cr(l: Seq<char>) -> Seq<char> {
    if l.len() > 0 && l.last() == '\r' {
        l.drop_last()
    } else {
        l
    }
}

/// The lines of a text: split at every newline, each line without its
/// trailing carriage return; empty text has none.
pub open spec fn split_lines(s: Seq<char>) -> Seq<Seq<char>>
    decreases s.len(),
{
    if s.len() == 0 {
        Seq::empty()
    } else {
        let i = first_where(s, |c: char| c == '\n');
        if i < 0 || i >= s.len() {
            seq![strip_cr(s)]
        } else {
            seq![strip_cr(s.subrange(0, i))] + split_lines(s.subrange(i + 1, s.len() as int))
        }
    }
}

/// Lines joined with single newlines, no trailing newline.
pub open spec fn join_lines(paths: Seq<Seq<char>>) -> Seq<char>
    decreases paths.len(),
{
    if paths.len() == 0 {
        Seq::empty()
    } else if paths.len() == 1 {
        paths[0]
    } else {
        paths[0] + seq!['\n'] + join_lines(paths.drop_first())
    }
}

proof fn lemma_join_push(paths: Seq<Seq<char>>, x: Seq<char>)
    ensures
        join_lines(paths.push(x)) == if paths.len() == 0 {
            x
        } else {
            join_lines(paths) + seq!['\n'] + x
        },
    decreases paths.len(),
{
    let p = paths.push(x);
    if paths.len() == 0 {
        assert(p.len() == 1);
        assert(join_lines(p) == p[0]);
        assert(p[0] == x);
    } else {
        assert(p.len() >= 2);
        assert(p[0] == paths[0]);
        assert(p.drop_first() =~= paths.drop_first().push(x));
        lemma_join_push(paths.drop_first(), x);
        if paths.len() == 1 {
            assert(paths.drop_first().len() == 0);
            assert(join_lines(p) == paths[0] + seq!['\n'] + x);
            assert(join_lines(paths) == paths[0]);
        } else {
            assert(join_lines(p) == paths[0] + seq!['\n'] + (join_lines(paths.drop_first())
                + seq!['\n'] + x));
            assert(paths[0] + seq!['\n'] + (join_lines(paths.drop_first()) + seq!['\n'] + x)
                =~= (paths[0] + seq!['\n'] + join_lines(paths.drop_first())) + seq!['\n'] + x);
        }
    }
}

/// Writes the saved paths as newline-delimited text.
pub fn encode_handoff(paths: &Vec<String>) -> (r: String)
    ensures
        r@ == join_lines(paths.deep_view()),
{
    let ghost goal = paths.deep_view();
    let mut r = String::new();
    let mut i: usize = 0;
    proof {
        assert(goal.subrange(0, 0) =~= Seq::<Seq<char>>::empty());
    }
    while i < paths.len()
        invariant
            i <= paths@.len(),
            goal == paths.deep_view(),
            r@ == join_lines(goal.subrange(0, i as int)),
        decreases paths.len() - i,
    {
        if i > 0 {
            r.append("\n");
            proof {
                reveal_strlit("\n");
                assert("\n"@ =~= seq!['\n']);
            }
        }
        r.append(paths[i].as_str());
        proof {
            let prefix = goal.subrange(0, i as int);
            let cur = goal.subrange(0, i + 1);
            assert(cur =~= prefix.push(goal[i as int]));
            lemma_join_push(prefix, goal[i as int]);
            assert(goal[i as int] == paths@[i as int]@);
        }
        i = i + 1;
    }
    proof {
        assert(goal.subrange(0, goal.len() as int) =~= goal);
    }
    r
}

/// Reads the saved paths back from newline-delimited text. Malformed
/// content degrades to whatever lines are there; empty text has none.
pub fn decode_handoff(content: &str) -> (r: Vec<String>)
    ensures
        r.deep_view() == split_lines(content@),
{
    let chars = str_to_chars(content);
    let n = chars.len();
    let mut out: Vec<String> = Vec::new();
    let mut pos: usize = 0;
    proof {
        assert(out.deep_view() =~= Seq::<Seq<char>>::empty());
        assert(chars@.subrange(0, n as int) =~= content@);
    }
    while pos < n
        invariant
            pos <= n,
            n == chars@.len(),
            chars@ == content@,
            out.deep_view() + split_lines(chars@.subrange(pos as int, n as int)) == split_lines(
                content@,
            ),
        decreases n - pos,
    {
        let ghost suffix = chars@.subrange(pos as int, n as int);
        let mut j: usize = pos;
        while j < n && chars[j] != '\n'
            invariant
                pos <= j <= n,
                n == chars@.len(),
                forall|k: int| pos <= k < j ==> chars@[k] != '\n',
            decreases n - j,
        {
            j = j + 1;
        }
        proof {
            assert forall|k: int| 0 <= k < j - pos implies #[trigger] suffix[k] != '\n' by {
                assert(suffix[k] == chars@[pos + k]);
            }
            if j < n {
                assert(suffix[j - pos] == chars@[j as int]);
            }
            lemma_first_where_unique(suffix, |c: char| c == '\n', j - pos);
        }
        let end: usize = if j > pos && chars[j - 1] == '\r' {
            j - 1
        } else {
            j
        };
        let mut line: Vec<char> = Vec::new();
        let mut k: usize = pos;
        while k < end
            invariant
                pos <= k <= end <= n,
                n == chars@.len(),
                line@ == chars@.subrange(pos as int, k as int),
            decreases end - k,
        {
            line.push(chars[k]);
            k = k + 1;
            assert(line@ =~= chars@.subrange(pos as int, k as int));
        }
        proof {
            assert(chars@.subrange(pos as int, j as int) =~= suffix.subrange(0, j - pos));
            if j > pos && chars@[j - 1] == '\r' {
                assert(chars@.subrange(pos as int, j as int).drop_last() =~= chars@.subrange(
                    pos as int,
                    j - 1,
                ));
            }
            assert(line@ =~= strip_cr(suffix.subrange(0, j - pos)));
        }
        let ghost out_before = out.deep_view();
        out.push(chars_to_string(&line));
        proof {
            assert(out.deep_view() =~= out_before.push(line@));
        }
        if j >= n {
            proof {
                assert(suffix.subrange(0, j - pos) =~= suffix);
                assert(split_lines(suffix) == seq![strip_cr(suffix)]);
                assert(chars@.subrange(n as int, n as int) =~= Seq::<char>::empty());
                assert(out.deep_view() + split_lines(chars@.subrange(n as int, n as int))
                    =~= out_before.push(line@));
                assert(out_before.push(line@) =~= out_before + seq![strip_cr(suffix)]);
            }
            pos = n;
        } else {
            proof {
                assert(split_lines(suffix) == seq![strip_cr(suffix.subrange(0, j - pos))]
                    + split_lines(suffix.subrange(j - pos + 1, suffix.len() as int)));
                assert(suffix.subrange(j - pos + 1, suffix.len() as int) =~= chars@.subrange(
                    j + 1,
                    n as int,
                ));
                assert(out.deep_view() + split_lines(chars@.subrange(j + 1, n as int))
                    =~= (out_before + seq![strip_cr(suffix.subrange(0, j - pos))]) + split_lines(
                    chars@.subrange(j + 1, n as int),
                ));
                assert((out_before + seq![strip_cr(suffix.subrange(0, j - pos))]) + split_lines(
                    chars@.subrange(j + 1, n as int),
                ) =~= out_before + (seq![strip_cr(suffix.subrange(0, j - pos))] + split_lines(
                    chars@.subrange(j + 1, n as int),
                )));
            }
            pos = j + 1;
        }
    }
    proof {
        assert(chars@.subrange(pos as int, n as int) =~= Seq::<char>::empty());
        assert(split_lines(Seq::<char>::empty()) =~= Seq::<Seq<char>>::empty());
        assert(out.deep_view() + Seq::<Seq<char>>::empty() =~= out.deep_view());
    }
    out
}

/// A saved path list survives the file: decoding what was encoded gives
/// the same paths back, provided each is nonempty and free of line
/// breaks — which task paths are.
pub proof fn lemma_handoff_round_trip(paths: Seq<Seq<char>>)
    requires
        forall|i: int| 0 <= i < paths.len() ==> (#[trigger] paths[i]).len() > 0,
        forall|i: int, k: int|
            0 <= i < paths.len() && 0 <= k < paths[i].len() ==> (#[trigger] paths[i][k]) != '\n'
                && paths[i][k] != '\r',
    ensures
        split_lines(join_lines(paths)) == paths,
    decreases paths.len(),
{
    if paths.len() == 0 {
        assert(split_lines(join_lines(paths)) =~= paths);
    } else if paths.len() == 1 {
        let s = paths[0];
        assert(join_lines(paths) == s);
        assert forall|k: int| 0 <= k < s.len() implies !((|c: char| c == '\n')(#[trigger] s[k]))
            by {
            assert(paths[0][k] != '\n');
        }
        lemma_first_where_unique(s, |c: char| c == '\n', s.len() as int);
        assert(s.last() != '\r');
        assert(strip_cr(s) == s);
        assert(split_lines(s) =~= seq![s]);
        assert(seq![s] =~= paths);
    } else {
        let s = join_lines(paths);
        let h = paths[0];
        assert(s == h + seq!['\n'] + join_lines(paths.drop_first()));
        assert forall|k: int| 0 <= k < h.len() implies !((|c: char| c == '\n')(#[trigger] s[k]))
            by {
            assert(s[k] == paths[0][k]);
        }
        assert(s[h.len() as int] == '\n');
        lemma_first_where_unique(s, |c: char| c == '\n', h.len() as int);
        assert(s.subrange(0, h.len() as int) =~= h);
        assert(h.last() != '\r') by {
            assert(paths[0][h.len() - 1] != '\r');
        }
        assert(strip_cr(h) == h);
        assert(s.subrange(h.len() as int + 1, s.len() as int) =~= join_lines(
            paths.drop_first(),
        ));
        assert forall|i: int| 0 <= i < paths.drop_first().len() implies (#[trigger] paths.drop_first()[
            i
        ]).len() > 0 by {
            assert(paths.drop_first()[i] == paths[i + 1]);
        }
        assert forall|i: int, k: int|
            0 <= i < paths.drop_first().len() && 0 <= k < paths.drop_first()[i].len() implies (
        #[trigger] paths.drop_first()[i][k]) != '\n' && paths.drop_first()[i][k] != '\r' by {
            assert(paths.drop_first()[i] == paths[i + 1]);
        }
        lemma_handoff_round_trip(paths.drop_first());
        assert(split_lines(s) == seq![h] + paths.drop_first());
        assert(seq![h] + paths.drop_first() =~= paths);
    }
}

} // verus!
