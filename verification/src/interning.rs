//! What interning does to the identifiers of a text.
//!
//! This module holds no executable code. Identifiers get ids in the order
//! in which they first occur, starting at 0; the term table lists them by
//! id.

use vstd::prelude::*;
use crate::lexemes::Lexeme;
use crate::tokenizer::Tok;

verus! {

/// The distinct identifiers among `lx`, in the order of their first
/// occurrence. Its length is the number of ids given out, and the
/// identifier at position `id` is the one with that id.
pub open spec fn names_of(lx: Seq<Lexeme>) -> Seq<Seq<char>>
    decreases lx.len(),
{
    if lx.len() == 0 {
        Seq::empty()
    } else {
        listed(names_of(lx.drop_last()), lx.last())
    }
}

/// The names `names` after `l` has been met: `l` is added at the end if it
/// is an identifier that `names` does not hold yet.
pub open spec fn listed(names: Seq<Seq<char>>, l: Lexeme) -> Seq<Seq<char>> {
    match l {
        Lexeme::Ident(name) => if names.contains(name) {
            names
        } else {
            names.push(name)
        },
        _ => names,
    }
}

/// The id of `name` in `names`: the position at which it stands.
pub open spec fn id_in(names: Seq<Seq<char>>, name: Seq<char>) -> int
    recommends
        names.contains(name),
{
    choose|id: int| 0 <= id < names.len() && names[id] == name
}

/// The token for the lexeme `l`, where identifiers have the ids that
/// `names` gives them.
pub open spec fn token_of(names: Seq<Seq<char>>, l: Lexeme) -> Tok {
    match l {
        Lexeme::Defn => Tok::Defn,
        Lexeme::And => Tok::And,
        Lexeme::Or => Tok::Or,
        Lexeme::Terminal => Tok::Terminal,
        Lexeme::Ident(name) => Tok::Term(id_in(names, name) as usize),
        Lexeme::Literal(text) => Tok::Literal(text),
    }
}

/// The tokens for the lexemes `lx`: one token per lexeme, in order, each
/// identifier replaced by its id in [`names_of`]`(lx)`.
pub open spec fn interned(lx: Seq<Lexeme>) -> Seq<Tok> {
    Seq::new(lx.len(), |k: int| token_of(names_of(lx), lx[k]))
}

/// The table `table` lists `names` by id: its keys are the ids below the
/// number of names, and each id maps to the text of its name.
pub open spec fn table_lists(table: Map<usize, String>, names: Seq<Seq<char>>) -> bool {
    &&& names.len() <= usize::MAX
    &&& forall|id: usize| #[trigger] table.contains_key(id) <==> id < names.len()
    &&& forall|id: usize| id < names.len() ==> (#[trigger] table[id])@ == names[id as int]
}

/// The index `index` finds each of `names`, and nothing else, at its id.
pub open spec fn index_finds(index: Map<Seq<char>, usize>, names: Seq<Seq<char>>) -> bool {
    &&& forall|name: Seq<char>| #[trigger] index.contains_key(name) <==> names.contains(name)
    &&& forall|id: int| 0 <= id < names.len() ==> index[#[trigger] names[id]] == id
}

/// The names that the first `count` ids of `table` stand for, by id.
pub open spec fn names_in(table: Map<usize, String>, count: usize) -> Seq<Seq<char>> {
    Seq::new(count as nat, |id: int| table[id as usize]@)
}

/// The two directions of a term table agree: `table` has the ids below
/// `count` for keys, no two of them for the same name, and `index` maps
/// each of these names, and nothing else, back to its id.
pub open spec fn tables_agree(
    index: Map<Seq<char>, usize>,
    table: Map<usize, String>,
    count: usize,
) -> bool {
    &&& forall|id: usize| #[trigger] table.contains_key(id) <==> id < count
    &&& names_in(table, count).no_duplicates()
    &&& index_finds(index, names_in(table, count))
}

/// No identifier is listed twice.
pub proof fn lemma_names_distinct(lx: Seq<Lexeme>)
    ensures
        names_of(lx).no_duplicates(),
    decreases lx.len(),
{
    if lx.len() > 0 {
        lemma_names_distinct(lx.drop_last());
    }
}

/// Every identifier among the lexemes is listed, and every listed name is
/// the text of an identifier among the lexemes.
pub proof fn lemma_names_are_the_identifiers(lx: Seq<Lexeme>)
    ensures
        forall|k: int|
            0 <= k < lx.len() && #[trigger] lx[k] is Ident ==> names_of(lx).contains(
                lx[k]->Ident_0,
            ),
        forall|id: int|
            0 <= id < names_of(lx).len() ==> exists|k: int|
                0 <= k < lx.len() && #[trigger] lx[k] == Lexeme::Ident(
                    #[trigger] names_of(lx)[id],
                ),
    decreases lx.len(),
{
    if lx.len() > 0 {
        let before = lx.drop_last();
        let names = names_of(before);
        lemma_names_are_the_identifiers(before);
        assert forall|k: int| 0 <= k < lx.len() && #[trigger] lx[k] is Ident implies names_of(
            lx,
        ).contains(lx[k]->Ident_0) by {
            if k < before.len() {
                assert(before[k] == lx[k]);
                let at = choose|at: int| 0 <= at < names.len() && names[at] == lx[k]->Ident_0;
                assert(names_of(lx)[at] == lx[k]->Ident_0);
            } else {
                let name = lx[k]->Ident_0;
                if !names.contains(name) {
                    assert(names_of(lx)[names.len() as int] == name);
                }
            }
        }
        assert forall|id: int| 0 <= id < names_of(lx).len() implies exists|k: int|
            0 <= k < lx.len() && #[trigger] lx[k] == Lexeme::Ident(
                #[trigger] names_of(lx)[id],
            ) by {
            if id < names.len() {
                let k = choose|k: int|
                    0 <= k < before.len() && #[trigger] before[k] == Lexeme::Ident(names[id]);
                assert(lx[k] == Lexeme::Ident(names_of(lx)[id]));
            } else {
                assert(lx[lx.len() - 1] == Lexeme::Ident(names_of(lx)[id]));
            }
        }
    }
}

/// The id of a listed name is the one position at which it stands.
pub proof fn lemma_id_in(names: Seq<Seq<char>>, id: int)
    requires
        names.no_duplicates(),
        0 <= id < names.len(),
    ensures
        id_in(names, names[id]) == id,
{
}

/// One more lexeme: the names grow by at most the new identifier, the
/// tokens by one, and no earlier token changes.
pub proof fn lemma_interned_push(done: Seq<Lexeme>, l: Lexeme)
    ensures
        names_of(done.push(l)) == listed(names_of(done), l),
        interned(done.push(l)) == interned(done).push(token_of(names_of(done.push(l)), l)),
{
    let all = done.push(l);
    let names = names_of(done);
    let grown = names_of(all);
    assert(all.drop_last() == done);
    lemma_names_distinct(done);
    lemma_names_distinct(all);
    lemma_names_are_the_identifiers(done);
    assert forall|k: int| 0 <= k < done.len() implies token_of(grown, #[trigger] all[k])
        == token_of(names, done[k]) by {
        if let Lexeme::Ident(name) = done[k] {
            let id = id_in(names, name);
            assert(grown[id] == name);
            lemma_id_in(grown, id);
        }
    }
    assert(interned(all) =~= interned(done).push(token_of(grown, l)));
}

} // verus!
