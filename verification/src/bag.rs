use vstd::prelude::*;

use crate::entry::{EntryView, TaigiEntry};
use crate::pad_of;
use crate::WORD_WIDTH;

verus! {

/// A run of `n` space characters.
pub open spec fn spaces(n: nat) -> Seq<char> {
    Seq::new(n, |i: int| ' ')
}

/// The styled display line for one entry: the romanized form in bold,
/// the two-space delimiter, then the gloss in italics padded so that the
/// romanized column is `WORD_WIDTH` characters wide, closed by a style
/// reset.
pub open spec fn line_spec(e: EntryView) -> Seq<char> {
    "\u{1b}[1m"@ + e.poj + "\u{1b}[0m"@ + "  "@ + "\u{1b}[3m"@ + spaces(pad_of(e.poj.len()))
        + e.english + "\u{1b}[0m"@
}

/// The full display blob: every entry's line, in collection order,
/// joined by newlines.
pub open spec fn blob_spec(es: Seq<EntryView>) -> Seq<char>
    decreases es.len(),
{
    if es.len() == 0 {
        Seq::empty()
    } else if es.len() == 1 {
        line_spec(es[0])
    } else {
        line_spec(es[0]) + "\n"@ + blob_spec(es.skip(1))
    }
}

/// The views of a sequence of entries.
pub open spec fn views_of(es: Seq<TaigiEntry>) -> Seq<EntryView> {
    es.map_values(|e: TaigiEntry| e@)
}

/// Extending a collection by one entry appends one more line to the
/// blob, behind a newline whenever the blob was not empty before.
pub proof fn lemma_blob_snoc(es: Seq<EntryView>, e: EntryView)
    ensures
        blob_spec(es.push(e)) == (if es.len() == 0 {
            line_spec(e)
        } else {
            blob_spec(es) + "\n"@ + line_spec(e)
        }),
    decreases es.len(),
{
    let p = es.push(e);
    if es.len() == 0 {
        assert(p.len() == 1);
        assert(p[0] == e);
        assert(blob_spec(p) == line_spec(e));
    } else if es.len() == 1 {
        assert(p.len() == 2);
        assert(p[0] == es[0]);
        assert(p.skip(1) =~= seq![e]);
        assert(blob_spec(p.skip(1)) == line_spec(e));
        assert(blob_spec(p) == blob_spec(es) + "\n"@ + line_spec(e));
    } else {
        assert(p[0] == es[0]);
        assert(p.skip(1) =~= es.skip(1).push(e));
        lemma_blob_snoc(es.skip(1), e);
        assert(line_spec(es[0]) + "\n"@ + (blob_spec(es.skip(1)) + "\n"@ + line_spec(e)) =~= (
        line_spec(es[0]) + "\n"@ + blob_spec(es.skip(1))) + "\n"@ + line_spec(e));
    }
}

/// The entry collection together with its display blob, computed once at
/// construction and never recomputed.
pub struct TaigiEntryBag {
    pub entries: Vec<TaigiEntry>,
    pub cached_display_string: String,
}

impl TaigiEntryBag {
    /// The cache is faithful: the stored string is exactly the blob of
    /// the stored entries.
    pub open spec fn wf(&self) -> bool {
        self.cached_display_string@ == blob_spec(views_of(self.entries@))
    }

    /// Builds the bag, formatting the display blob once.
    pub fn new(entries: Vec<TaigiEntry>) -> (r: Self)
        ensures
            r.wf(),
            r.entries@ == entries@,
    {
        let cached_display_string = Self::format_for_selection(entries.as_slice());
        Self { entries, cached_display_string }
    }

    /// Formats every entry and joins the lines with newlines, in order.
    pub fn format_for_selection(entries: &[TaigiEntry]) -> (r: String)
        ensures
            r@ == blob_spec(views_of(entries@)),
    {
        let ghost vs = views_of(entries@);
        let mut s = String::new();
        let n = entries.len();
        let mut i: usize = 0;
        proof {
            assert(vs.take(0) =~= Seq::<EntryView>::empty());
        }
        while i < n
            invariant
                n == entries@.len(),
                vs == views_of(entries@),
                0 <= i <= n,
                s@ == blob_spec(vs.take(i as int)),
            decreases n - i,
        {
            if i > 0 {
                s.append("\n");
            }
            let line = Self::format_str(&entries[i]);
            s.append(line.as_str());
            proof {
                lemma_blob_snoc(vs.take(i as int), entries@[i as int]@);
                assert(vs.take(i + 1) =~= vs.take(i as int).push(entries@[i as int]@));
                if i > 0 {
                    assert(s@ =~= blob_spec(vs.take(i as int)) + "\n"@ + line_spec(
                        entries@[i as int]@,
                    ));
                }
            }
            i = i + 1;
        }
        proof {
            assert(vs.take(n as int) =~= vs);
        }
        s
    }

    /// Formats one entry into its styled, fixed-width display line.
    pub fn format_str(entry: &TaigiEntry) -> (r: String)
        ensures
            r@ == line_spec(entry@),
    {
        let mut s = String::new();
        s.append("\u{1b}[1m");
        s.append(entry.poj_unicode.as_str());
        s.append("\u{1b}[0m");
        s.append("  ");
        s.append("\u{1b}[3m");
        let l = entry.poj_unicode.as_str().unicode_len();
        let pad: usize = if l >= WORD_WIDTH {
            0
        } else {
            WORD_WIDTH - l
        };
        let ghost head: Seq<char> = s@;
        proof {
            assert(head + spaces(0) =~= head);
        }
        let mut k: usize = 0;
        while k < pad
            invariant
                0 <= k <= pad,
                s@ == head + spaces(k as nat),
            decreases pad - k,
        {
            s.append(" ");
            proof {
                reveal_strlit(" ");
                assert((head + spaces(k as nat)) + " "@ =~= head + spaces((k + 1) as nat));
            }
            k = k + 1;
        }
        s.append(entry.english.as_str());
        s.append("\u{1b}[0m");
        proof {
            assert(pad as nat == pad_of(entry@.poj.len()));
            assert(s@ =~= line_spec(entry@));
        }
        s
    }

    /// The cached display blob, handed out without recomputation.
    pub fn get_selector_input(&self) -> (r: &str)
        requires
            self.wf(),
        ensures
            r@ == self.cached_display_string@,
            r@ == blob_spec(views_of(self.entries@)),
    {
        self.cached_display_string.as_str()
    }
}

/// Formatting is a pure function of the entries: two bags over equal
/// collections carry byte-identical display blobs, so formatting the
/// same collection twice yields the same text.
pub proof fn lemma_display_deterministic(a: TaigiEntryBag, b: TaigiEntryBag)
    requires
        a.wf(),
        b.wf(),
        views_of(a.entries@) == views_of(b.entries@),
    ensures
        a.cached_display_string@ == b.cached_display_string@,
{
}

} // verus!
