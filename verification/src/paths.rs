//! How paths are spelt: the same path, component by component, is always the same text.

use crate::text::{
    join, join_texts, lemma_in_pushed, lemma_split_free, lemma_split_last, lemma_split_one,
    lemma_texts_push, same_text, split, split_at_from, split_text, starts_with, starts_with_text,
    texts,
};
use vstd::prelude::*;

verus! {

/// Whether a piece of a path counts: not one between two slashes with nothing in it, nor
/// a dot that stands behind something else.
pub open spec fn is_component(pieces: Seq<Seq<char>>, i: int) -> bool {
    pieces[i].len() > 0 && (pieces[i] != "."@ || i == 0)
}

/// The components among the first `n` pieces of a path.
pub open spec fn components_of(pieces: Seq<Seq<char>>, n: int) -> Seq<Seq<char>>
    decreases n,
{
    if n <= 0 {
        Seq::empty()
    } else if is_component(pieces, n - 1) {
        components_of(pieces, n - 1).push(pieces[n - 1])
    } else {
        components_of(pieces, n - 1)
    }
}

/// The components of a path.
pub open spec fn path_components(path: Seq<char>) -> Seq<Seq<char>> {
    let pieces = split(path, '/');
    components_of(pieces, pieces.len() as int)
}

pub open spec fn is_absolute(path: Seq<char>) -> bool {
    starts_with(path, "/"@)
}

/// A path with one slash between its components.
pub open spec fn path_spelt(path: Seq<char>) -> Seq<char> {
    let rest = join(path_components(path), "/"@);
    if is_absolute(path) {
        "/"@ + rest
    } else {
        rest
    }
}

/// Spells a path with one slash between its components.
pub fn spell_path(path: &str) -> (r: String)
    ensures
        r@ == path_spelt(path@),
{
    let pieces = split_text(path, '/');
    let ghost v = texts(pieces@);
    let mut kept: Vec<String> = Vec::new();
    let mut i: usize = 0;
    assert(texts(kept@) =~= components_of(v, 0));
    while i < pieces.len()
        invariant
            i <= pieces@.len(),
            v == texts(pieces@),
            texts(kept@) == components_of(v, i as int),
        decreases pieces@.len() - i,
    {
        let piece = &pieces[i];
        if piece.as_str().unicode_len() > 0 && (i == 0 || !same_text(piece.as_str(), ".")) {
            let copy = piece.clone();
            proof {
                lemma_texts_push(kept@, copy);
            }
            kept.push(copy);
        }
        i = i + 1;
    }
    let rest = join_texts(&kept, "/");
    if starts_with_text(path, "/") {
        crate::text::cat2("/", rest.as_str())
    } else {
        rest
    }
}

// ── Laws ────────────────────────────────────────────────────────────────

/// Paths with the same components are spelt alike.
pub proof fn same_components_same_spelling(a: Seq<char>, b: Seq<char>)
    requires
        is_absolute(a) == is_absolute(b),
        path_components(a) == path_components(b),
    ensures
        path_spelt(a) == path_spelt(b),
{
}

/// The spelling of a path is the same path: it has the components of the path and is
/// absolute where the path is. To spell it again changes nothing.
pub proof fn spelling_keeps_the_path(path: Seq<char>)
    ensures
        path_components(path_spelt(path)) == path_components(path),
        is_absolute(path_spelt(path)) == is_absolute(path),
        path_spelt(path_spelt(path)) == path_spelt(path),
{
    reveal_strlit("/");
    reveal_strlit(".");
    let pieces = split(path, '/');
    let parts = path_components(path);
    lemma_split_free(path, '/', 0, 0);
    lemma_components(pieces, pieces.len() as int);
    let s = path_spelt(path);
    if is_absolute(path) {
        lemma_first_piece_empty(path);
        assert(s.subrange(0, 1) =~= "/"@);
        if parts.len() == 0 {
            assert(s =~= seq!['/']);
            let none = Seq::<char>::empty();
            lemma_split_last(none, '/', none, 0, 0);
            assert(none + seq!['/'] + none =~= s);
            lemma_split_one(none, '/', 0, 0);
            assert(none.subrange(0, 0) =~= none);
            assert(split(s, '/') =~= seq![none, none]);
            assert(components_of(split(s, '/'), 2) =~= parts) by {
                reveal_with_fuel(components_of, 3);
            }
        } else {
            let all = seq![Seq::<char>::empty()] + parts;
            lemma_join_behind(Seq::<char>::empty(), parts);
            assert(s =~= join(all, "/"@));
            assert forall|k: int| 0 <= k < all.len() implies !(#[trigger] all[k]).contains('/') by {
                if k > 0 {
                    assert(all[k] == parts[k - 1]);
                }
            }
            lemma_split_joined(all);
            assert forall|k: int| 1 <= k < all.len() implies #[trigger] is_component(all, k) by {
                assert(all[k] == parts[k - 1]);
            }
            lemma_all_components(all, 1, all.len() as int);
            assert(all.subrange(1, all.len() as int) =~= parts);
        }
    } else if parts.len() == 0 {
        assert(s =~= Seq::<char>::empty());
        lemma_split_one(s, '/', 0, 0);
        assert(s.subrange(0, 0) =~= s);
        assert(split(s, '/') =~= seq![s]);
        assert(components_of(split(s, '/'), 1) =~= parts) by {
            reveal_with_fuel(components_of, 2);
        }
    } else {
        lemma_split_joined(parts);
        assert forall|k: int| 0 <= k < parts.len() implies #[trigger] is_component(parts, k) by {}
        lemma_all_components(parts, 0, parts.len() as int);
        assert(parts.subrange(0, parts.len() as int) =~= parts);
        lemma_join_begins(parts);
    }
}

/// Components are not empty, and a dot is only the first piece.
proof fn lemma_components(pieces: Seq<Seq<char>>, n: int)
    requires
        0 <= n <= pieces.len(),
        forall|k: int| 0 <= k < pieces.len() ==> !(#[trigger] pieces[k]).contains('/'),
    ensures
        components_of(pieces, n).len() <= n,
        forall|k: int|
            0 <= k < components_of(pieces, n).len() ==> {
                let part = #[trigger] components_of(pieces, n)[k];
                part.len() > 0 && !part.contains('/') && (part == "."@ ==> k == 0 && pieces[0]
                    == "."@)
            },
    decreases n,
{
    if n > 0 {
        lemma_components(pieces, n - 1);
    }
}

/// Pieces that count from `from` on, behind one that may not.
proof fn lemma_all_components(pieces: Seq<Seq<char>>, from: int, n: int)
    requires
        from == 0 || (from == 1 && pieces[0].len() == 0),
        from <= n <= pieces.len(),
        forall|k: int| from <= k < pieces.len() ==> #[trigger] is_component(pieces, k),
    ensures
        components_of(pieces, n) == pieces.subrange(from, n),
    decreases n,
{
    if n > from {
        lemma_all_components(pieces, from, n - 1);
        assert(is_component(pieces, n - 1));
        assert(pieces.subrange(from, n) =~= pieces.subrange(from, n - 1).push(pieces[n - 1]));
    } else {
        assert(components_of(pieces, n) =~= Seq::empty()) by {
            reveal_with_fuel(components_of, 2);
        }
        assert(pieces.subrange(from, n) =~= Seq::empty());
    }
}

proof fn lemma_first_piece_empty(path: Seq<char>)
    requires
        is_absolute(path),
    ensures
        split(path, '/')[0] == Seq::<char>::empty(),
{
    reveal_strlit("/");
    assert(path[0] == "/"@[0]);
    assert(split_at_from(path, '/', 0, 0)[0] =~= Seq::<char>::empty());
}

/// Pieces without a slash come back from the text that they are joined to.
proof fn lemma_split_joined(parts: Seq<Seq<char>>)
    requires
        parts.len() > 0,
        forall|k: int| 0 <= k < parts.len() ==> !(#[trigger] parts[k]).contains('/'),
    ensures
        split(join(parts, "/"@), '/') == parts,
    decreases parts.len(),
{
    reveal_strlit("/");
    let last = parts.last();
    assert(last == parts[parts.len() - 1]);
    if parts.len() == 1 {
        assert forall|k: int| 0 <= k < last.len() implies last[k] != '/' by {
            if last[k] == '/' {
                assert(last.contains('/'));
            }
        }
        lemma_split_one(last, '/', 0, 0);
        assert(last.subrange(0, last.len() as int) =~= last);
        assert(parts =~= seq![last]);
    } else {
        let rest = parts.drop_last();
        lemma_split_joined(rest);
        lemma_split_last(join(rest, "/"@), '/', last, 0, 0);
        assert("/"@ =~= seq!['/']);
        assert(parts =~= rest.push(last));
    }
}

proof fn lemma_join_behind(first: Seq<char>, parts: Seq<Seq<char>>)
    requires
        parts.len() > 0,
    ensures
        join(seq![first] + parts, "/"@) == first + "/"@ + join(parts, "/"@),
    decreases parts.len(),
{
    let all = seq![first] + parts;
    assert(all.drop_last() =~= seq![first] + parts.drop_last());
    assert(all.last() == parts.last());
    if parts.len() == 1 {
        assert(all.drop_last() =~= seq![first]);
        assert(join(seq![first], "/"@) == first);
    } else {
        lemma_join_behind(first, parts.drop_last());
        assert(join(all, "/"@) =~= first + "/"@ + join(parts, "/"@));
    }
}

/// A text of pieces begins as the first piece does.
proof fn lemma_join_begins(parts: Seq<Seq<char>>)
    requires
        parts.len() > 0,
        parts[0].len() > 0,
        !parts[0].contains('/'),
    ensures
        join(parts, "/"@).len() > 0,
        join(parts, "/"@)[0] == parts[0][0],
        !is_absolute(join(parts, "/"@)),
    decreases parts.len(),
{
    reveal_strlit("/");
    if parts.len() > 1 {
        lemma_join_begins(parts.drop_last());
    }
    let s = join(parts, "/"@);
    if is_absolute(s) {
        assert(s[0] == "/"@[0]);
        assert(parts[0].contains(parts[0][0]));
    }
}

/// The components of a path are what stands between its slashes: not where nothing does, and
/// a single dot counts only at the beginning.
pub proof fn components_stand_between_slashes(path: Seq<char>, x: Seq<char>)
    ensures
        path_components(path).contains(x) <==> x.len() > 0 && exists|i: int|
            0 <= i < split(path, '/').len() && (#[trigger] split(path, '/')[i]) == x && (x != "."@
                || i == 0),
{
    let pieces = split(path, '/');
    lemma_among_components(pieces, pieces.len() as int, x);
}

proof fn lemma_among_components(pieces: Seq<Seq<char>>, n: int, x: Seq<char>)
    requires
        0 <= n <= pieces.len(),
    ensures
        components_of(pieces, n).contains(x) <==> x.len() > 0 && exists|i: int|
            0 <= i < n && (#[trigger] pieces[i]) == x && (x != "."@ || i == 0),
    decreases n,
{
    if n > 0 {
        lemma_among_components(pieces, n - 1, x);
        lemma_in_pushed(components_of(pieces, n - 1), pieces[n - 1], x);
        if x.len() > 0 && pieces[n - 1] == x && (x != "."@ || n == 1) {
            assert(exists|i: int| 0 <= i < n && (#[trigger] pieces[i]) == x && (x != "."@ || i == 0));
        }
    }
}

} // verus!
