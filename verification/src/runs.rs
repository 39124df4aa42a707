//! Counting identifiers: the maximal runs of identifier characters of a
//! text, and the terms among its tokens.
//!
//! This module holds no executable code.

use vstd::prelude::*;
use crate::chars::{is_quote, is_term_char};
use crate::interning::{
    interned, lemma_id_in, lemma_interned_push, lemma_names_are_the_identifiers,
    lemma_names_distinct, names_of,
};
use crate::lexemes::{
    lemma_quoted_from_advances, lemma_term_end_bounds, lex_from, quoted_from, term_end, Lexeme,
};
use crate::tokenizer::Tok;

verus! {

/// A maximal run of identifier characters starts at `i`: an identifier
/// character stands there, and none right before it.
pub open spec fn starts_run(s: Seq<char>, i: int) -> bool {
    0 <= i < s.len() && is_term_char(s[i]) && (i == 0 || !is_term_char(s[i - 1]))
}

/// The run of identifier characters that starts at `i`.
pub open spec fn run_at(s: Seq<char>, i: int) -> Seq<char> {
    s.subrange(i, term_end(s, i))
}

/// The number of maximal runs of identifier characters that start at `i` or
/// behind it.
pub open spec fn runs_from(s: Seq<char>, i: int) -> nat
    decreases s.len() - i,
{
    if i < 0 || i >= s.len() {
        0
    } else if starts_run(s, i) {
        1 + runs_from(s, i + 1)
    } else {
        runs_from(s, i + 1)
    }
}

/// The number of maximal runs of identifier characters in `s`.
pub open spec fn run_count(s: Seq<char>) -> nat {
    runs_from(s, 0)
}

/// `name` is a maximal run of identifier characters that starts at `i` or
/// behind it.
pub open spec fn runs_as_from(s: Seq<char>, i: int, name: Seq<char>) -> bool {
    exists|p: int| i <= p && #[trigger] starts_run(s, p) && run_at(s, p) == name
}

/// The distinct texts of the maximal runs of identifier characters in `s`.
pub open spec fn run_texts(s: Seq<char>) -> Set<Seq<char>> {
    Set::new(|name: Seq<char>| runs_as_from(s, 0, name))
}

/// Position `k` stands between the quotes of a literal, for a text that is
/// read from `i` on, where `i` is outside of any identifier and literal.
pub open spec fn in_literal_from(s: Seq<char>, i: int, k: int) -> bool
    decreases s.len() - i,
{
    if i < 0 || i >= s.len() || k < i {
        false
    } else if is_quote(s[i]) {
        match quoted_from(s, s[i], i + 1) {
            Ok((_, next)) => {
                proof {
                    lemma_quoted_from_advances(s, s[i], i + 1);
                }
                i < k < next - 1 || in_literal_from(s, next, k)
            },
            Err(_) => false,
        }
    } else if is_term_char(s[i]) {
        proof {
            lemma_term_end_bounds(s, i);
        }
        in_literal_from(s, term_end(s, i), k)
    } else {
        in_literal_from(s, i + 1, k)
    }
}

/// Position `k` of the text `s` stands between the quotes of a literal.
pub open spec fn in_literal(s: Seq<char>, k: int) -> bool {
    in_literal_from(s, 0, k)
}

/// No identifier character of `s` stands between the quotes of a literal.
pub open spec fn literals_hold_no_term_char(s: Seq<char>) -> bool {
    forall|k: int| #[trigger] in_literal(s, k) ==> !is_term_char(s[k])
}

/// The number of identifiers among the lexemes `lx`.
pub open spec fn ident_count(lx: Seq<Lexeme>) -> nat
    decreases lx.len(),
{
    if lx.len() == 0 {
        0
    } else if lx.last() is Ident {
        ident_count(lx.drop_last()) + 1
    } else {
        ident_count(lx.drop_last())
    }
}

/// The number of terms among the tokens `ts`.
pub open spec fn term_count(ts: Seq<Tok>) -> nat
    decreases ts.len(),
{
    if ts.len() == 0 {
        0
    } else if ts.last() is Term {
        term_count(ts.drop_last()) + 1
    } else {
        term_count(ts.drop_last())
    }
}

/// `name` is an identifier among the lexemes `lx`.
pub open spec fn has_ident(lx: Seq<Lexeme>, name: Seq<char>) -> bool {
    exists|k: int| 0 <= k < lx.len() && #[trigger] lx[k] == Lexeme::Ident(name)
}

/// The term with the id `id` stands among the first `k` of the tokens `ts`.
pub open spec fn stands_before(ts: Seq<Tok>, id: usize, k: int) -> bool {
    exists|j: int| 0 <= j < k && #[trigger] ts[j] == Tok::Term(id)
}

/// The distinct ids of the terms among the tokens `ts`.
pub open spec fn ids_of(ts: Seq<Tok>) -> Set<usize> {
    Set::new(|id: usize| stands_before(ts, id, ts.len() as int))
}

/// The ids below `n`.
pub open spec fn ids_below(n: nat) -> Set<usize> {
    Set::new(|id: usize| id < n)
}

/// There are `n` ids below `n`.
pub proof fn lemma_ids_below(n: nat)
    requires
        n <= usize::MAX,
    ensures
        ids_below(n).finite(),
        ids_below(n).len() == n,
    decreases n,
{
    if n == 0 {
        assert(ids_below(n) =~= Set::empty());
    } else {
        lemma_ids_below((n - 1) as nat);
        assert(ids_below(n) =~= ids_below((n - 1) as nat).insert((n - 1) as usize));
    }
}

/// A lexeme in front counts if it is an identifier.
pub proof fn lemma_ident_count_cons(l: Lexeme, more: Seq<Lexeme>)
    ensures
        ident_count(seq![l] + more) == ident_count(more) + if l is Ident {
            1nat
        } else {
            0nat
        },
    decreases more.len(),
{
    let all = seq![l] + more;
    if more.len() == 0 {
        assert(all.drop_last() =~= Seq::empty());
        assert(all.last() == l);
        assert(ident_count(all.drop_last()) == 0);
    } else {
        assert(all.drop_last() =~= seq![l] + more.drop_last());
        assert(all.last() == more.last());
        lemma_ident_count_cons(l, more.drop_last());
    }
}

/// There are as many terms among the tokens as identifiers among the
/// lexemes.
pub proof fn lemma_term_count_interned(lx: Seq<Lexeme>)
    ensures
        term_count(interned(lx)) == ident_count(lx),
    decreases lx.len(),
{
    if lx.len() > 0 {
        let before = lx.drop_last();
        assert(before.push(lx.last()) == lx);
        lemma_interned_push(before, lx.last());
        lemma_term_count_interned(before);
        assert(interned(lx).drop_last() =~= interned(before));
    }
}

/// The ids among the tokens are those below the number of names.
pub proof fn lemma_ids_of_interned(lx: Seq<Lexeme>)
    requires
        names_of(lx).len() <= usize::MAX,
    ensures
        ids_of(interned(lx)) == ids_below(names_of(lx).len()),
{
    let names = names_of(lx);
    let ts = interned(lx);
    lemma_names_distinct(lx);
    lemma_names_are_the_identifiers(lx);
    assert forall|id: usize| ids_of(ts).contains(id) <==> ids_below(names.len()).contains(
        id,
    ) by {
        if ids_of(ts).contains(id) {
            let j = choose|j: int| 0 <= j < ts.len() && #[trigger] ts[j] == Tok::Term(id);
            let at = crate::interning::id_in(names, lx[j]->Ident_0);
            assert(names[at] == lx[j]->Ident_0);
        }
        if id < names.len() {
            let j = choose|j: int|
                0 <= j < lx.len() && #[trigger] lx[j] == Lexeme::Ident(names[id as int]);
            lemma_id_in(names, id as int);
            assert(ts[j] == Tok::Term(id));
        }
    }
    assert(ids_of(ts) =~= ids_below(names.len()));
}

/// Where no run starts from `i` up to `j`, the runs from `i` are those
/// from `j`.
pub proof fn lemma_runs_skip(s: Seq<char>, i: int, j: int)
    requires
        0 <= i <= j <= s.len(),
        forall|p: int| i <= p < j ==> !#[trigger] starts_run(s, p),
    ensures
        runs_from(s, i) == runs_from(s, j),
        forall|name: Seq<char>| runs_as_from(s, i, name) <==> runs_as_from(s, j, name),
    decreases j - i,
{
    if i < j {
        lemma_runs_skip(s, i + 1, j);
    }
}

/// For a text that is read from `i` on and in which no identifier
/// character stands inside a literal from there on, the identifiers among
/// the lexemes are the maximal runs of identifier characters.
pub proof fn lemma_identifiers_are_runs(s: Seq<char>, i: int)
    requires
        0 <= i <= s.len(),
        i == 0 || i == s.len() || !is_term_char(s[i - 1]) || !is_term_char(s[i]),
        lex_from(s, i) is Ok,
        forall|k: int| #[trigger] in_literal_from(s, i, k) ==> !is_term_char(s[k]),
    ensures
        ident_count(lex_from(s, i)->Ok_0) == runs_from(s, i),
        forall|name: Seq<char>|
            has_ident(lex_from(s, i)->Ok_0, name) <==> runs_as_from(s, i, name),
    decreases s.len() - i,
{
    let lx = lex_from(s, i)->Ok_0;
    if i >= s.len() {
    } else if is_quote(s[i]) {
        let q = s[i];
        lemma_quoted_from_advances(s, q, i + 1);
        let (text, next) = quoted_from(s, q, i + 1)->Ok_0;
        let rest = lex_from(s, next)->Ok_0;
        assert(lx == seq![Lexeme::Literal(text)] + rest);
        assert forall|k: int| #[trigger] in_literal_from(s, next, k) implies !is_term_char(
            s[k],
        ) by {
            assert(in_literal_from(s, i, k));
        }
        lemma_identifiers_are_runs(s, next);
        assert forall|p: int| i <= p < next implies !#[trigger] starts_run(s, p) by {
            if i < p < next - 1 {
                assert(in_literal_from(s, i, p));
            }
        }
        lemma_runs_skip(s, i, next);
        lemma_ident_count_cons(Lexeme::Literal(text), rest);
        lemma_has_ident_cons(Lexeme::Literal(text), rest);
    } else if is_term_char(s[i]) {
        let end = term_end(s, i);
        lemma_term_end_bounds(s, i);
        let rest = lex_from(s, end)->Ok_0;
        let name = run_at(s, i);
        assert(lx == seq![Lexeme::Ident(name)] + rest);
        assert forall|k: int| #[trigger] in_literal_from(s, end, k) implies !is_term_char(
            s[k],
        ) by {
            assert(in_literal_from(s, i, k));
        }
        lemma_identifiers_are_runs(s, end);
        assert(starts_run(s, i));
        assert forall|p: int| i + 1 <= p < end implies !#[trigger] starts_run(s, p) by {
            assert(is_term_char(s[p - 1]));
        }
        lemma_runs_skip(s, i + 1, end);
        lemma_ident_count_cons(Lexeme::Ident(name), rest);
        lemma_has_ident_cons(Lexeme::Ident(name), rest);
        assert forall|other: Seq<char>| has_ident(lx, other) <==> runs_as_from(
            s,
            i,
            other,
        ) by {
            if runs_as_from(s, i, other) {
                let p = choose|p: int|
                    i <= p && #[trigger] starts_run(s, p) && run_at(s, p) == other;
                if p != i {
                    assert(runs_as_from(s, i + 1, other));
                }
            }
            if runs_as_from(s, end, other) {
                let p = choose|p: int|
                    end <= p && #[trigger] starts_run(s, p) && run_at(s, p) == other;
                assert(i <= p);
            }
        }
    } else {
        let rest = lex_from(s, i + 1)->Ok_0;
        assert forall|k: int| #[trigger] in_literal_from(s, i + 1, k) implies !is_term_char(
            s[k],
        ) by {
            assert(in_literal_from(s, i, k));
        }
        lemma_identifiers_are_runs(s, i + 1);
        lemma_runs_skip(s, i, i + 1);
        if crate::chars::is_structural(s[i]) {
            lemma_ident_count_cons(crate::lexemes::punctuation(s[i]), rest);
            lemma_has_ident_cons(crate::lexemes::punctuation(s[i]), rest);
        }
    }
}

/// The identifiers among lexemes are the one in front, if it is one, and
/// those among the rest.
pub proof fn lemma_has_ident_cons(l: Lexeme, more: Seq<Lexeme>)
    ensures
        forall|name: Seq<char>|
            has_ident(seq![l] + more, name) <==> l == Lexeme::Ident(name) || has_ident(
                more,
                name,
            ),
{
    let all = seq![l] + more;
    assert forall|name: Seq<char>| has_ident(all, name) <==> l == Lexeme::Ident(name)
        || has_ident(more, name) by {
        if has_ident(all, name) {
            let k = choose|k: int| 0 <= k < all.len() && #[trigger] all[k] == Lexeme::Ident(name);
            if k > 0 {
                assert(more[k - 1] == Lexeme::Ident(name));
            }
        }
        if l == Lexeme::Ident(name) {
            assert(all[0] == Lexeme::Ident(name));
        }
        if has_ident(more, name) {
            let k = choose|k: int|
                0 <= k < more.len() && #[trigger] more[k] == Lexeme::Ident(name);
            assert(all[k + 1] == Lexeme::Ident(name));
        }
    }
}

} // verus!
