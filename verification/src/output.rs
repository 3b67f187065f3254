use vstd::prelude::*;

use crate::entry::TaigiEntry;
use crate::selection::join_sp;

verus! {

/// Joining one more token appends it behind a separating space whenever
/// the joined text was not the very first token.
pub proof fn lemma_join_snoc(ts: Seq<Seq<char>>, t: Seq<char>)
    ensures
        join_sp(ts.push(t)) == (if ts.len() == 0 {
            t
        } else {
            join_sp(ts) + seq![' '] + t
        }),
    decreases ts.len(),
{
    let p = ts.push(t);
    if ts.len() == 0 {
        assert(p.len() == 1);
        assert(p[0] == t);
    } else if ts.len() == 1 {
        assert(p.len() == 2);
        assert(p[0] == ts[0]);
        assert(p.skip(1) =~= seq![t]);
        assert(join_sp(p.skip(1)) == t);
    } else {
        assert(p[0] == ts[0]);
        assert(p.skip(1) =~= ts.skip(1).push(t));
        lemma_join_snoc(ts.skip(1), t);
        assert(ts[0] + seq![' '] + (join_sp(ts.skip(1)) + seq![' '] + t) =~= (ts[0] + seq![' ']
            + join_sp(ts.skip(1))) + seq![' '] + t);
    }
}

/// The romanized forms of the entries, in order.
pub open spec fn roman_views(es: Seq<TaigiEntry>) -> Seq<Seq<char>> {
    es.map_values(|e: TaigiEntry| e@.poj)
}

/// Joins the entries' romanized forms with single spaces, in order:
/// the one line the program prints for the selected entries.
pub fn join_romanized(entries: &Vec<TaigiEntry>) -> (r: String)
    ensures
        r@ == join_sp(roman_views(entries@)),
{
    let ghost ts = roman_views(entries@);
    let mut s = String::new();
    let mut i: usize = 0;
    proof {
        assert(ts.take(0) =~= Seq::<Seq<char>>::empty());
    }
    while i < entries.len()
        invariant
            ts == roman_views(entries@),
            0 <= i <= entries@.len(),
            s@ == join_sp(ts.take(i as int)),
        decreases entries@.len() - i,
    {
        if i > 0 {
            s.append(" ");
        }
        s.append(entries[i].poj_unicode.as_str());
        proof {
            reveal_strlit(" ");
            lemma_join_snoc(ts.take(i as int), ts[i as int]);
            assert(ts.take(i + 1) =~= ts.take(i as int).push(ts[i as int]));
            assert(ts[i as int] == entries@[i as int]@.poj);
            if i > 0 {
                assert(" "@ =~= seq![' ']);
                assert(s@ =~= join_sp(ts.take(i as int)) + seq![' '] + ts[i as int]);
            } else {
                assert(s@ =~= ts[i as int]);
            }
        }
        i = i + 1;
    }
    proof {
        assert(ts.take(entries@.len() as int) =~= ts);
    }
    s
}

/// The text with every trailing newline removed and nothing else
/// touched.
pub open spec fn strip_nl(s: Seq<char>) -> Seq<char>
    decreases s.len(),
{
    if s.len() > 0 && s.last() == '\n' {
        strip_nl(s.drop_last())
    } else {
        s
    }
}

/// Strips only trailing newline characters from the selector's captured
/// output, as the raw text is returned to the caller.
pub fn strip_trailing_newlines(s: &str) -> (r: String)
    ensures
        r@ == strip_nl(s@),
{
    let len = s.unicode_len();
    let mut end: usize = len;
    proof {
        assert(s@.take(len as int) =~= s@);
    }
    loop
        invariant
            len == s@.len(),
            0 <= end <= len,
            strip_nl(s@) == strip_nl(s@.take(end as int)),
        ensures
            0 <= end <= len,
            strip_nl(s@) == strip_nl(s@.take(end as int)),
            end == 0 || s@[end - 1] != '\n',
        decreases end,
    {
        if end == 0 {
            break ;
        }
        if s.get_char(end - 1) != '\n' {
            break ;
        }
        proof {
            assert(s@.take(end as int).last() == s@[end - 1]);
            assert(s@.take(end as int).drop_last() =~= s@.take(end - 1));
        }
        end = end - 1;
    }
    proof {
        if end > 0 {
            assert(s@.take(end as int).last() == s@[end - 1]);
        }
        assert(strip_nl(s@.take(end as int)) == s@.take(end as int));
    }
    let cut = s.substring_char(0, end);
    let r = String::from_str(cut);
    proof {
        assert(s@.subrange(0, end as int) =~= s@.take(end as int));
    }
    r
}

} // verus!
