use vstd::prelude::*;

use vstd::arithmetic::div_mod::lemma_fundamental_div_mod;

use crate::bag::{views_of, TaigiEntryBag};
use crate::entry::{EntryView, TaigiEntry};

verus! {

// ---------------------------------------------------------------------------
// Decimal tokens
// ---------------------------------------------------------------------------
/// Whether `c` is an ASCII decimal digit.
pub open spec fn is_digit(c: char) -> bool {
    0x30 <= c as u32 && c as u32 <= 0x39
}

/// The numeric value of a digit character.
pub open spec fn digit_val(c: char) -> nat {
    (c as u32 - 0x30) as nat
}

/// Whether every character of `s` is a decimal digit.
pub open spec fn all_digits(s: Seq<char>) -> bool {
    forall|i: int| 0 <= i < s.len() ==> is_digit(s[i])
}

/// Whether no character of `t` is a space.
pub open spec fn no_space(t: Seq<char>) -> bool {
    forall|k: int| 0 <= k < t.len() ==> t[k] != ' '
}

/// The value of `s` read as a base-ten numeral.
pub open spec fn dec_val(s: Seq<char>) -> nat
    decreases s.len(),
{
    if s.len() == 0 {
        0
    } else {
        dec_val(s.drop_last()) * 10 + digit_val(s.last())
    }
}

/// What a selection token denotes: a non-negative integer, provided the
/// token is a non-empty run of digits whose value fits in `usize`;
/// anything else fails to parse.
pub open spec fn parse_token(s: Seq<char>) -> Option<nat> {
    if s.len() > 0 && all_digits(s) && dec_val(s) <= usize::MAX as nat {
        Some(dec_val(s))
    } else {
        None
    }
}

/// Reading more digits never shrinks the value: the numeral's value
/// dominates the value of every prefix.
pub proof fn lemma_dec_val_prefix(s: Seq<char>, m: int)
    requires
        0 <= m <= s.len(),
    ensures
        dec_val(s) >= dec_val(s.take(m)),
    decreases s.len(),
{
    if m == s.len() {
        assert(s.take(m) =~= s);
    } else {
        lemma_dec_val_prefix(s.drop_last(), m);
        assert(s.drop_last().take(m) =~= s.take(m));
        assert(dec_val(s.drop_last()) * 10 >= dec_val(s.drop_last())) by (nonlinear_arith);
    }
}

/// The digit character for a value below ten.
pub open spec fn digit_char(n: nat) -> char {
    if n == 0 {
        '0'
    } else if n == 1 {
        '1'
    } else if n == 2 {
        '2'
    } else if n == 3 {
        '3'
    } else if n == 4 {
        '4'
    } else if n == 5 {
        '5'
    } else if n == 6 {
        '6'
    } else if n == 7 {
        '7'
    } else if n == 8 {
        '8'
    } else {
        '9'
    }
}

/// The base-ten numeral of `n`, most significant digit first.
pub open spec fn dec_str(n: nat) -> Seq<char>
    decreases n,
{
    if n < 10 {
        seq![digit_char(n)]
    } else {
        dec_str(n / 10).push(digit_char(n % 10))
    }
}

/// A numeral is a non-empty run of digits and reads back as its value.
pub proof fn lemma_dec_str_wf(n: nat)
    ensures
        dec_str(n).len() >= 1,
        all_digits(dec_str(n)),
        dec_val(dec_str(n)) == n,
    decreases n,
{
    if n < 10 {
        let s = seq![digit_char(n)];
        assert(dec_str(n) == s);
        assert(s.drop_last() =~= Seq::<char>::empty());
        assert(s.last() == digit_char(n));
        assert(digit_val(digit_char(n)) == n);
        assert(is_digit(digit_char(n)));
        assert(dec_val(Seq::<char>::empty()) == 0);
        assert(dec_val(s) == dec_val(s.drop_last()) * 10 + digit_val(s.last()));
        assert(dec_val(s) == n);
    } else {
        lemma_dec_str_wf(n / 10);
        lemma_fundamental_div_mod(n as int, 10);
        let p = dec_str(n / 10);
        let s = dec_str(n);
        assert(s == p.push(digit_char(n % 10)));
        assert(s.drop_last() =~= p);
        assert(s.last() == digit_char(n % 10));
        assert(digit_val(digit_char(n % 10)) == n % 10);
        assert(is_digit(digit_char(n % 10)));
        assert forall|i: int| 0 <= i < s.len() implies is_digit(s[i]) by {
            if i < p.len() {
                assert(s[i] == p[i]);
            } else {
                assert(s[i] == digit_char(n % 10));
            }
        }
        assert(dec_val(s) == (n / 10) * 10 + n % 10);
    }
}

// ---------------------------------------------------------------------------
// Splitting on single spaces, joining with single spaces
// ---------------------------------------------------------------------------
/// The tokens of `s` split on every single space character, as
/// `str::split` with a one-space pattern produces them: one more token
/// than there are spaces, empty tokens included.
pub open spec fn split_sp(s: Seq<char>) -> Seq<Seq<char>>
    decreases s.len(),
{
    if s.len() == 0 {
        seq![Seq::<char>::empty()]
    } else if s[0] == ' ' {
        seq![Seq::<char>::empty()] + split_sp(s.skip(1))
    } else {
        let rest = split_sp(s.skip(1));
        seq![seq![s[0]] + rest[0]] + rest.skip(1)
    }
}

/// Splitting always yields at least one token.
pub proof fn lemma_split_sp_nonempty(s: Seq<char>)
    ensures
        split_sp(s).len() >= 1,
    decreases s.len(),
{
    if s.len() == 0 {
    } else if s[0] == ' ' {
    } else {
        lemma_split_sp_nonempty(s.skip(1));
    }
}

/// The position of the first space of `s`, or `s.len()` if there is
/// none.
pub open spec fn first_sp(s: Seq<char>) -> int
    decreases s.len(),
{
    if s.len() == 0 {
        0
    } else if s[0] == ' ' {
        0
    } else {
        1 + first_sp(s.skip(1))
    }
}

/// A position with no space before it, and a space (or the end) at it,
/// is the first space position.
pub proof fn lemma_first_sp_at(s: Seq<char>, n: int)
    requires
        0 <= n <= s.len(),
        forall|k: int| 0 <= k < n ==> s[k] != ' ',
        n == s.len() || s[n] == ' ',
    ensures
        first_sp(s) == n,
    decreases n,
{
    if n == 0 {
    } else {
        assert(s[0] != ' ');
        lemma_first_sp_at(s.skip(1), n - 1);
    }
}

/// Splitting takes off everything up to the first space as the first
/// token and continues after that space.
pub proof fn lemma_split_sp_step(s: Seq<char>)
    ensures
        0 <= first_sp(s) <= s.len(),
        split_sp(s) == (if first_sp(s) == s.len() {
            seq![s]
        } else {
            seq![s.take(first_sp(s))] + split_sp(s.skip(first_sp(s) + 1))
        }),
    decreases s.len(),
{
    if s.len() == 0 {
        assert(s =~= Seq::<char>::empty());
        assert(split_sp(s) == seq![s]);
    } else if s[0] == ' ' {
        assert(s.take(0) =~= Seq::<char>::empty());
    } else {
        lemma_split_sp_step(s.skip(1));
        let f1 = first_sp(s.skip(1));
        let f = 1 + f1;
        let rest = split_sp(s.skip(1));
        if f1 == s.skip(1).len() {
            assert(rest == seq![s.skip(1)]);
            assert(seq![s[0]] + s.skip(1) =~= s);
            assert(rest.skip(1) =~= Seq::<Seq<char>>::empty());
            assert(split_sp(s) =~= seq![s]);
        } else {
            assert(rest == seq![s.skip(1).take(f1)] + split_sp(s.skip(1).skip(f1 + 1)));
            assert(rest[0] == s.skip(1).take(f1));
            assert(seq![s[0]] + s.skip(1).take(f1) =~= s.take(f));
            assert(s.skip(1).skip(f1 + 1) =~= s.skip(f + 1));
            assert(rest.skip(1) =~= split_sp(s.skip(f + 1)));
            assert(split_sp(s) =~= seq![s.take(f)] + split_sp(s.skip(f + 1)));
        }
    }
}

/// A sequence without spaces splits into itself alone.
pub proof fn lemma_split_no_space(t: Seq<char>)
    requires
        no_space(t),
    ensures
        split_sp(t) == seq![t],
    decreases t.len(),
{
    if t.len() == 0 {
        assert(t =~= Seq::<char>::empty());
        assert(split_sp(t) == seq![t]);
    } else {
        assert(t[0] != ' ');
        assert forall|k: int| 0 <= k < t.skip(1).len() implies t.skip(1)[k] != ' ' by {
            assert(t.skip(1)[k] == t[k + 1]);
        }
        lemma_split_no_space(t.skip(1));
        assert(seq![t[0]] + t.skip(1) =~= t);
        assert(split_sp(t.skip(1)).skip(1) =~= Seq::<Seq<char>>::empty());
        assert(split_sp(t) =~= seq![t]);
    }
}

/// Splitting a space-free prefix, a space, and a remainder yields the
/// prefix as first token and then the remainder's tokens.
pub proof fn lemma_split_prepend(a: Seq<char>, b: Seq<char>)
    requires
        no_space(a),
    ensures
        split_sp(a + seq![' '] + b) == seq![a] + split_sp(b),
    decreases a.len(),
{
    let u = a + seq![' '] + b;
    if a.len() == 0 {
        assert(u[0] == ' ');
        assert(u.skip(1) =~= b);
        assert(a =~= Seq::<char>::empty());
        assert(split_sp(u) =~= seq![a] + split_sp(b));
    } else {
        assert forall|k: int| 0 <= k < a.skip(1).len() implies a.skip(1)[k] != ' ' by {
            assert(a.skip(1)[k] == a[k + 1]);
        }
        lemma_split_prepend(a.skip(1), b);
        assert(u[0] == a[0]);
        assert(u[0] != ' ');
        assert(u.skip(1) =~= a.skip(1) + seq![' '] + b);
        let rest = split_sp(u.skip(1));
        assert(rest == seq![a.skip(1)] + split_sp(b));
        assert(rest[0] == a.skip(1));
        assert(seq![u[0]] + rest[0] =~= a);
        assert(rest.skip(1) =~= split_sp(b));
        assert(split_sp(u) =~= seq![a] + split_sp(b));
    }
}

/// Tokens joined by single spaces.
pub open spec fn join_sp(ts: Seq<Seq<char>>) -> Seq<char>
    decreases ts.len(),
{
    if ts.len() == 0 {
        Seq::empty()
    } else if ts.len() == 1 {
        ts[0]
    } else {
        ts[0] + seq![' '] + join_sp(ts.skip(1))
    }
}

/// Splitting undoes joining: space-free tokens joined by spaces split
/// back into exactly those tokens.
pub proof fn lemma_split_join(ts: Seq<Seq<char>>)
    requires
        ts.len() >= 1,
        forall|j: int| 0 <= j < ts.len() ==> no_space(#[trigger] ts[j]),
    ensures
        split_sp(join_sp(ts)) == ts,
    decreases ts.len(),
{
    if ts.len() == 1 {
        lemma_split_no_space(ts[0]);
        assert(seq![ts[0]] =~= ts);
    } else {
        assert forall|j: int| 0 <= j < ts.skip(1).len() implies no_space(#[trigger] ts.skip(1)[j]) by {
            assert(ts.skip(1)[j] == ts[j + 1]);
        }
        lemma_split_join(ts.skip(1));
        lemma_split_prepend(ts[0], join_sp(ts.skip(1)));
        assert(seq![ts[0]] + ts.skip(1) =~= ts);
    }
}

// ---------------------------------------------------------------------------
// Resolving selector output to entries
// ---------------------------------------------------------------------------
/// Why a selection failed to resolve, as the specification sees it.
pub ghost enum ResolveErr {
    /// Some token was not a parseable non-negative integer.
    ParseFailure,
    /// Some token named a position outside the collection.
    BadIndex { index: int },
}

/// How a run of tokens resolves against a collection: each token in
/// turn must parse and name a valid position, whose entry is appended;
/// the first bad token aborts the whole resolution.
pub open spec fn resolve_tokens(es: Seq<EntryView>, toks: Seq<Seq<char>>) -> Result<
    Seq<EntryView>,
    ResolveErr,
>
    decreases toks.len(),
{
    if toks.len() == 0 {
        Ok(Seq::empty())
    } else {
        match parse_token(toks[0]) {
            Option::None => Err(ResolveErr::ParseFailure),
            Option::Some(n) => if n >= es.len() {
                Err((ResolveErr::BadIndex { index: n as int }))
            } else {
                match resolve_tokens(es, toks.skip(1)) {
                    Result::Ok(rest) => Ok(seq![es[n as int]] + rest),
                    Result::Err(e) => Err(e),
                }
            },
        }
    }
}

/// A token that parses to a valid position of a collection of `n`
/// entries.
pub open spec fn good_token(t: Seq<char>, n: nat) -> bool {
    t.len() > 0 && all_digits(t) && dec_val(t) <= usize::MAX as nat && dec_val(t) < n
}

/// When every token is good, resolution succeeds and yields exactly the
/// entries at the named positions, in token order, repeats included.
pub proof fn lemma_resolve_all_good(es: Seq<EntryView>, toks: Seq<Seq<char>>)
    requires
        forall|j: int| 0 <= j < toks.len() ==> good_token(#[trigger] toks[j], es.len()),
    ensures
        resolve_tokens(es, toks) == Ok::<Seq<EntryView>, ResolveErr>(
            Seq::new(toks.len(), |j: int| es[dec_val(toks[j]) as int]),
        ),
    decreases toks.len(),
{
    if toks.len() == 0 {
        assert(Seq::new(0, |j: int| es[dec_val(toks[j]) as int]) =~= Seq::<EntryView>::empty());
    } else {
        assert(good_token(toks[0], es.len()));
        assert forall|j: int| 0 <= j < toks.skip(1).len() implies good_token(
            #[trigger] toks.skip(1)[j],
            es.len(),
        ) by {
            assert(toks.skip(1)[j] == toks[j + 1]);
        }
        lemma_resolve_all_good(es, toks.skip(1));
        let v0 = dec_val(toks[0]);
        assert(parse_token(toks[0]) == Some(v0));
        assert(seq![es[v0 as int]] + Seq::new(toks.skip(1).len(), |j: int| es[dec_val(toks.skip(1)[j]) as int])
            =~= Seq::new(toks.len(), |j: int| es[dec_val(toks[j]) as int]));
    }
}

/// The round trip at the heart of the selection bridge: join any
/// non-empty run of valid positions into a space-separated line of
/// numerals, split and resolve it, and exactly the entries at those
/// positions come back, in that order, repeats included.
pub proof fn lemma_round_trip(es: Seq<EntryView>, ps: Seq<usize>)
    requires
        ps.len() >= 1,
        forall|j: int| 0 <= j < ps.len() ==> (#[trigger] ps[j] as int) < es.len(),
    ensures
        resolve_tokens(es, split_sp(join_sp(ps.map_values(|p: usize| dec_str(p as nat)))))
            == Ok::<Seq<EntryView>, ResolveErr>(Seq::new(ps.len(), |j: int| es[ps[j] as int])),
{
    let toks = ps.map_values(|p: usize| dec_str(p as nat));
    assert forall|j: int| 0 <= j < toks.len() implies no_space(#[trigger] toks[j]) && good_token(
        toks[j],
        es.len(),
    ) by {
        lemma_dec_str_wf(ps[j] as nat);
        assert(toks[j] == dec_str(ps[j] as nat));
        assert forall|k: int| 0 <= k < toks[j].len() implies toks[j][k] != ' ' by {
            assert(is_digit(toks[j][k]));
            assert(' ' as u32 == 0x20);
        }
    }
    lemma_split_join(toks);
    lemma_resolve_all_good(es, toks);
    assert(Seq::new(toks.len(), |j: int| es[dec_val(toks[j]) as int]) =~= Seq::new(
        ps.len(),
        |j: int| es[ps[j] as int],
    )) by {
        assert forall|j: int| 0 <= j < ps.len() implies dec_val(toks[j]) == ps[j] as nat by {
            lemma_dec_str_wf(ps[j] as nat);
        }
    }
}

// ---------------------------------------------------------------------------
// The executable selection bridge
// ---------------------------------------------------------------------------
/// Why a selection failed to resolve.
#[derive(Debug)]
pub enum SelectionError {
    /// Some token was not a parseable non-negative integer; carries the
    /// selector's whole raw output for diagnostics.
    Parse { raw: String },
    /// Some token named a position outside the collection; carries the
    /// offending position.
    Lookup { index: usize },
}

/// Builds the parse-failure error carrying the raw selector output.
pub fn get_parse_err(output: &str) -> (r: SelectionError)
    ensures
        r matches SelectionError::Parse { raw } && raw@ == output@,
{
    SelectionError::Parse { raw: String::from_str(output) }
}

/// The resolution outcome still owed after some tokens are done: the
/// final outcome equals the outcome on the remaining text, with the
/// already-resolved entries in front.
pub open spec fn resolve_continues(
    full: Result<Seq<EntryView>, ResolveErr>,
    es: Seq<EntryView>,
    done: Seq<EntryView>,
    rem: Seq<char>,
) -> bool {
    full == (match resolve_tokens(es, split_sp(rem)) {
        Result::Ok(rest) => Result::<Seq<EntryView>, ResolveErr>::Ok(done + rest),
        Result::Err(e) => Result::<Seq<EntryView>, ResolveErr>::Err(e),
    })
}

impl TaigiEntryBag {
    /// Resolves the selector's raw output — a line of space-separated
    /// position tokens — back to the entries at those positions, in
    /// token order, repeats included. The first token that does not
    /// parse fails the whole resolution with a parse error carrying the
    /// raw output; the first parsed token out of range fails it with a
    /// lookup error carrying the offending position.
    pub fn get_entries_from_selection_output(&self, output: &str) -> (r: Result<
        Vec<TaigiEntry>,
        SelectionError,
    >)
        ensures
            ({
                let outcome = resolve_tokens(views_of(self.entries@), split_sp(output@));
                match r {
                    Result::Ok(v) => outcome == Ok::<Seq<EntryView>, ResolveErr>(views_of(v@)),
                    Result::Err(e) => match e {
                        SelectionError::Parse { raw } => outcome == Err::<
                            Seq<EntryView>,
                            ResolveErr,
                        >(ResolveErr::ParseFailure) && raw@ == output@,
                        SelectionError::Lookup { index } => outcome == Err::<
                            Seq<EntryView>,
                            ResolveErr,
                        >((ResolveErr::BadIndex { index: index as int })),
                    },
                }
            }),
    {
        let ghost es = views_of(self.entries@);
        let ghost full = resolve_tokens(es, split_sp(output@));
        let len = output.unicode_len();
        let mut result: Vec<TaigiEntry> = Vec::new();
        let mut i: usize = 0;
        proof {
            assert(output@.skip(0) =~= output@);
            assert(views_of(result@) =~= Seq::<EntryView>::empty());
            match resolve_tokens(es, split_sp(output@)) {
                Result::Ok(rest) => {
                    assert(views_of(result@) + rest =~= rest);
                },
                Result::Err(_) => {},
            }
        }
        loop
            invariant
                len == output@.len(),
                0 <= i <= len,
                es == views_of(self.entries@),
                full == resolve_tokens(es, split_sp(output@)),
                resolve_continues(full, es, views_of(result@), output@.skip(i as int)),
            decreases len - i,
        {
            let ghost rem = output@.skip(i as int);
            let ghost done = views_of(result@);
            // scan to the end of the current token
            let mut j: usize = i;
            loop
                invariant
                    len == output@.len(),
                    i <= j <= len,
                    forall|k: int| i <= k < j ==> output@[k] != ' ',
                ensures
                    i <= j <= len,
                    forall|k: int| i <= k < j ==> output@[k] != ' ',
                    j == len || output@[j as int] == ' ',
                decreases len - j,
            {
                if j == len {
                    break ;
                }
                if output.get_char(j) == ' ' {
                    break ;
                }
                j = j + 1;
            }
            let ghost f = j - i;
            let ghost tok = rem.take(f);
            proof {
                assert forall|k: int| 0 <= k < f implies rem[k] != ' ' by {
                    assert(rem[k] == output@[i + k]);
                }
                if j < len {
                    assert(rem[f] == output@[j as int]);
                }
                lemma_first_sp_at(rem, f);
                lemma_split_sp_step(rem);
                assert(tok =~= output@.subrange(i as int, j as int));
                lemma_split_sp_nonempty(rem.skip(f + 1));
                if f == rem.len() {
                    assert(tok =~= rem);
                }
                assert(split_sp(rem)[0] == tok);
            }
            // parse the token as a decimal position
            if i == j {
                proof {
                    assert(tok.len() == 0);
                    assert(parse_token(tok) is None);
                    assert(resolve_tokens(es, split_sp(rem)) == Err::<Seq<EntryView>, ResolveErr>(
                        ResolveErr::ParseFailure,
                    ));
                }
                return Err(get_parse_err(output));
            }
            let mut acc: usize = 0;
            let mut k: usize = i;
            proof {
                assert(output@.subrange(i as int, i as int) =~= Seq::<char>::empty());
            }
            while k < j
                invariant
                    len == output@.len(),
                    i <= k <= j <= len,
                    i < j,
                    es == views_of(self.entries@),
                    full == resolve_tokens(es, split_sp(output@)),
                    resolve_continues(full, es, views_of(result@), rem),
                    rem == output@.skip(i as int),
                    f == j - i,
                    tok == output@.subrange(i as int, j as int),
                    tok == rem.take(f),
                    split_sp(rem)[0] == tok,
                    forall|t: int| i <= t < k ==> is_digit(output@[t]),
                    acc as nat == dec_val(output@.subrange(i as int, k as int)),
                decreases j - k,
            {
                let c = output.get_char(k);
                let u: u32 = c as u32;
                if !(0x30 <= u && u <= 0x39) {
                    proof {
                        assert(!is_digit(output@[k as int]));
                        assert(tok[k - i] == output@[k as int]);
                        assert(!all_digits(tok));
                        assert(parse_token(tok) is None);
                        assert(resolve_tokens(es, split_sp(rem)) == Err::<
                            Seq<EntryView>,
                            ResolveErr,
                        >(ResolveErr::ParseFailure));
                    }
                    return Err(get_parse_err(output));
                }
                let d: usize = (u - 0x30) as usize;
                proof {
                    lemma_fundamental_div_mod((usize::MAX - d) as int, 10);
                }
                if acc > (usize::MAX - d) / 10 {
                    proof {
                        assert(acc * 10 + d > usize::MAX);
                        assert(output@.subrange(i as int, (k + 1) as int).drop_last()
                            =~= output@.subrange(i as int, k as int));
                        assert(output@.subrange(i as int, (k + 1) as int).last()
                            == output@[k as int]);
                        assert(dec_val(output@.subrange(i as int, (k + 1) as int)) == acc * 10 + d);
                        assert(tok.take(k + 1 - i) =~= output@.subrange(i as int, (k + 1) as int));
                        lemma_dec_val_prefix(tok, k + 1 - i);
                        assert(dec_val(tok) > usize::MAX as nat);
                        assert(parse_token(tok) is None);
                        assert(resolve_tokens(es, split_sp(rem)) == Err::<
                            Seq<EntryView>,
                            ResolveErr,
                        >(ResolveErr::ParseFailure));
                    }
                    return Err(get_parse_err(output));
                }
                let acc2: usize = acc * 10 + d;
                proof {
                    assert(output@.subrange(i as int, (k + 1) as int).drop_last() =~= output@
                        .subrange(i as int, k as int));
                    assert(output@.subrange(i as int, (k + 1) as int).last() == output@[k as int]);
                    assert(digit_val(output@[k as int]) == d as nat);
                }
                acc = acc2;
                k = k + 1;
            }
            proof {
                assert forall|t: int| 0 <= t < tok.len() implies is_digit(tok[t]) by {
                    assert(tok[t] == output@[i + t]);
                }
                assert(dec_val(tok) == acc as nat);
                assert(parse_token(tok) == Some(acc as nat));
            }
            if acc >= self.entries.len() {
                proof {
                    assert(es.len() == self.entries@.len());
                    assert(resolve_tokens(es, split_sp(rem)) == Err::<Seq<EntryView>, ResolveErr>(
                        (ResolveErr::BadIndex { index: acc as int }),
                    ));
                }
                return Err(SelectionError::Lookup { index: acc });
            }
            let e = &self.entries[acc];
            let picked = TaigiEntry {
                poj_unicode: e.poj_unicode.clone(),
                english: e.english.clone(),
            };
            result.push(picked);
            proof {
                assert(es.len() == self.entries@.len());
                assert(picked@ == es[acc as int]);
                assert(views_of(result@) =~= done.push(es[acc as int]));
            }
            if j == len {
                proof {
                    assert(first_sp(rem) == f == rem.len());
                    assert(split_sp(rem) == seq![tok]);
                    assert(seq![tok].skip(1) =~= Seq::<Seq<char>>::empty());
                    assert(resolve_tokens(es, seq![tok].skip(1)) == Ok::<Seq<EntryView>, ResolveErr>(
                        Seq::empty(),
                    ));
                    assert(seq![es[acc as int]] + Seq::<EntryView>::empty() =~= seq![
                        es[acc as int],
                    ]);
                    assert(resolve_tokens(es, split_sp(rem)) == Ok::<Seq<EntryView>, ResolveErr>(
                        seq![es[acc as int]],
                    ));
                    assert(done + seq![es[acc as int]] =~= views_of(result@));
                    assert(full == Ok::<Seq<EntryView>, ResolveErr>(views_of(result@)));
                }
                return Ok(result);
            }
            proof {
                assert(first_sp(rem) == f < rem.len());
                assert(split_sp(rem) == seq![tok] + split_sp(rem.skip(f + 1)));
                assert(rem.skip(f + 1) =~= output@.skip(j + 1));
                assert((seq![tok] + split_sp(rem.skip(f + 1))).skip(1) =~= split_sp(
                    output@.skip(j + 1),
                ));
                match resolve_tokens(es, split_sp(output@.skip(j + 1))) {
                    Result::Ok(rest) => {
                        assert(resolve_tokens(es, split_sp(rem)) == Ok::<
                            Seq<EntryView>,
                            ResolveErr,
                        >(seq![es[acc as int]] + rest));
                        assert(done + (seq![es[acc as int]] + rest) =~= views_of(result@) + rest);
                    },
                    Result::Err(_) => {},
                }
                assert(resolve_continues(full, es, views_of(result@), output@.skip(j + 1)));
            }
            i = j + 1;
        }
    }
}

} // verus!
