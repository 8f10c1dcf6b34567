use vstd::prelude::*;
use crate::trie::{ALPHABET, Trie, all_upper, is_upper, lemma_walk_concat, lemma_walk_push, slot_of};

verus! {

/// The plaintext letter a ciphertext symbol currently stands for: none yet,
/// or the letter with this index (0 for `A`).
#[derive(Clone, Copy, Debug, PartialEq, Eq, Structural)]
pub enum Letter {
    Unknown,
    Known(usize),
}

/// The uppercase letter with index `k` (0 for `A`).
pub open spec fn char_of(k: int) -> char {
    (k + 65) as char
}

/// How a symbol in state `l` is shown: its letter, or `?` while unassigned.
pub open spec fn shown(l: Letter) -> char {
    match l {
        Letter::Known(k) => char_of(k as int),
        Letter::Unknown => '?',
    }
}

/// The text of cipher word `w` under the assignment `m` (one state per symbol).
pub open spec fn render(w: Seq<usize>, m: Seq<Letter>) -> Seq<char> {
    Seq::new(w.len(), |j: int| shown(m[w[j] as int]))
}

/// Renders every word of `ws` under `m`.
pub open spec fn render_all(ws: Seq<Seq<usize>>, m: Seq<Letter>) -> Seq<Seq<char>> {
    Seq::new(ws.len(), |k: int| render(ws[k], m))
}

/// The contents of a list of cipher words.
pub open spec fn views(ws: Seq<Vec<usize>>) -> Seq<Seq<usize>> {
    Seq::new(ws.len(), |k: int| ws[k]@)
}

/// The characters of each string of `v`.
pub open spec fn texts(v: Seq<String>) -> Seq<Seq<char>> {
    Seq::new(v.len(), |k: int| v[k]@)
}

/// Every symbol of every word is one of the symbol indices `0..26`.
pub open spec fn symbols_in_range(ws: Seq<Seq<usize>>) -> bool {
    forall|k: int, j: int| 0 <= k < ws.len() && 0 <= j < ws[k].len() ==> #[trigger] ws[k][j] < ALPHABET
}

/// One state per symbol; assigned letters are in range and no letter is held
/// by two symbols.
pub open spec fn injective(m: Seq<Letter>) -> bool {
    &&& m.len() == ALPHABET
    &&& forall|s: int| 0 <= s < ALPHABET ==> (#[trigger] m[s] matches Letter::Known(c) ==> c < ALPHABET)
    &&& forall|s1: int, s2: int|
        0 <= s1 < ALPHABET && 0 <= s2 < ALPHABET && #[trigger] m[s1] is Known && #[trigger] m[s2] == m[s1]
            ==> s1 == s2
}

/// Every symbol of `w` is assigned under `m`.
pub open spec fn all_known(w: Seq<usize>, m: Seq<Letter>) -> bool {
    forall|j: int| 0 <= j < w.len() ==> #[trigger] m[w[j] as int] is Known
}

/// `m` is a full solution of the puzzle `ws` over the dictionary `dict`: it is
/// one to one, assigns every symbol that occurs, and turns every word into a
/// dictionary word.
pub open spec fn solves(ws: Seq<Seq<usize>>, dict: Set<Seq<char>>, m: Seq<Letter>) -> bool {
    &&& injective(m)
    &&& forall|k: int| 0 <= k < ws.len() ==> all_known(#[trigger] ws[k], m)
    &&& forall|k: int| 0 <= k < ws.len() ==> dict.contains(render(#[trigger] ws[k], m))
}

/// `t` is the puzzle `ws` rendered through some solution over `dict`.
pub open spec fn solution_text(ws: Seq<Seq<usize>>, dict: Set<Seq<char>>, t: Seq<Seq<char>>) -> bool {
    exists|m: Seq<Letter>| solves(ws, dict, m) && t == #[trigger] render_all(ws, m)
}

/// Relies on String::push: appends one character.
#[verifier::external_body]
fn push_char(s: &mut String, c: char)
    ensures
        final(s)@ == old(s)@.push(c),
{
    s.push(c)
}

/// The uppercase letter with index `k`.
fn letter_char(k: usize) -> (c: char)
    requires
        k < ALPHABET,
    ensures
        c == char_of(k as int),
{
    ((k as u8) + 65u8) as char
}

/// The text of `word` under `table`: each symbol shown as its assigned
/// letter, or as `?` while it is unassigned.
pub fn render_word(word: &Vec<usize>, table: &Vec<Letter>) -> (r: String)
    requires
        table@.len() == ALPHABET,
        forall|j: int| 0 <= j < word@.len() ==> #[trigger] word@[j] < ALPHABET,
        forall|s: int| 0 <= s < ALPHABET ==> (#[trigger] table@[s] matches Letter::Known(c) ==> c < ALPHABET),
    ensures
        r@ == render(word@, table@),
{
    let mut out = String::new();
    let mut i: usize = 0;
    while i < word.len()
        invariant
            i <= word@.len(),
            table@.len() == ALPHABET,
            forall|j: int| 0 <= j < word@.len() ==> #[trigger] word@[j] < ALPHABET,
            forall|s: int| 0 <= s < ALPHABET ==> (#[trigger] table@[s] matches Letter::Known(c) ==> c < ALPHABET),
            out@ == render(word@.take(i as int), table@),
        decreases word@.len() - i,
    {
        let c = match table[word[i]] {
            Letter::Known(k) => letter_char(k),
            Letter::Unknown => '?',
        };
        push_char(&mut out, c);
        i = i + 1;
        assert(out@ =~= render(word@.take(i as int), table@));
    }
    assert(word@.take(i as int) =~= word@);
    out
}

} // verus!

verus! {

/// Letter `k` leads from a node to its child in slot `k`.
proof fn lemma_step_letter(t: Trie, k: int)
    requires
        0 <= k < ALPHABET,
    ensures
        t.step(char_of(k)) == t.child_at(k),
{
    assert(is_upper(char_of(k)));
    assert(slot_of(char_of(k)) == k);
}

/// Every letter that some symbol holds under `m` is marked in `used`.
pub open spec fn covers(used: Seq<bool>, m: Seq<Letter>) -> bool {
    &&& used.len() == ALPHABET
    &&& forall|s: int| 0 <= s < ALPHABET ==> (#[trigger] m[s] matches Letter::Known(c) ==> used[c as int])
    &&& forall|c: int| 0 <= c < ALPHABET && #[trigger] used[c]
        ==> exists|s: int| 0 <= s < ALPHABET && m[s] == Letter::Known(c as usize)
}

/// `m` agrees with `t` on every symbol that `t` assigns.
pub open spec fn extends(m: Seq<Letter>, t: Seq<Letter>) -> bool {
    forall|s: int| 0 <= s < ALPHABET && (#[trigger] t[s]) is Known ==> m[s] == t[s]
}

/// Some entry of `sols` from index `from` on reads `t`.
pub open spec fn found(sols: Seq<Vec<String>>, from: int, t: Seq<Seq<char>>) -> bool {
    exists|j: int| from <= j < sols.len() && #[trigger] texts(sols[j]@) == t
}

/// `a` comes before `b` in alphabetical order: at the first position where
/// they differ, `a` has the earlier character.
pub open spec fn word_less(a: Seq<char>, b: Seq<char>) -> bool {
    exists|i: int| 0 <= i < a.len() && i < b.len() && #[trigger] a.take(i) == b.take(i) && (a[i] as int) < (b[i] as int)
}

/// `x` comes before `y` word by word: at the first word where they differ,
/// the word of `x` comes first.
pub open spec fn text_less(x: Seq<Seq<char>>, y: Seq<Seq<char>>) -> bool {
    exists|k: int| 0 <= k < x.len() && k < y.len() && #[trigger] x.take(k) == y.take(k) && word_less(x[k], y[k])
}

/// The position in `orig` of a word equal to `w`.
pub open spec fn index_in(orig: Seq<Seq<usize>>, w: Seq<usize>) -> int {
    choose|q: int| 0 <= q < orig.len() && orig[q] == w
}

/// The text `x` of the words `orig`, rearranged to follow the words `ws`.
pub open spec fn in_order(ws: Seq<Seq<usize>>, orig: Seq<Seq<usize>>, x: Seq<Seq<char>>) -> Seq<Seq<char>> {
    Seq::new(ws.len(), |k: int| x[index_in(orig, ws[k])])
}

/// A full listing of the solutions of `puzzle` over `dict`: only solution
/// texts, every one of them, in the order that the search finds them.
pub open spec fn listing(dict: Set<Seq<char>>, puzzle: Seq<Seq<usize>>, r: Seq<Seq<Seq<char>>>) -> bool {
    &&& forall|j: int| 0 <= j < r.len() ==> solution_text(puzzle, dict, #[trigger] r[j])
    &&& forall|m: Seq<Letter>| #[trigger] solves(puzzle, dict, m) ==> r.contains(render_all(puzzle, m))
    &&& forall|i: int, j: int| 0 <= i < j < r.len() ==> text_less(
        in_order(longest_first(puzzle), puzzle, #[trigger] r[i]),
        in_order(longest_first(puzzle), puzzle, #[trigger] r[j]),
    )
}

/// `x` renders `orig` through a solution of both `ws` and `orig` that agrees
/// with the partial assignment `t`.
pub open spec fn reached(
    ws: Seq<Seq<usize>>,
    orig: Seq<Seq<usize>>,
    dict: Set<Seq<char>>,
    t: Seq<Letter>,
    x: Seq<Seq<char>>,
) -> bool {
    exists|m: Seq<Letter>|
        solves(ws, dict, m) && solves(orig, dict, m) && extends(m, t) && x == #[trigger] render_all(orig, m)
}

/// Rearranging a rendering of `orig` to follow `ws` renders `ws`.
proof fn lemma_in_order(ws: Seq<Seq<usize>>, orig: Seq<Seq<usize>>, m: Seq<Letter>)
    requires
        forall|k: int| 0 <= k < ws.len() ==> orig.contains(#[trigger] ws[k]),
    ensures
        in_order(ws, orig, render_all(orig, m)) == render_all(ws, m),
{
    assert forall|k: int| 0 <= k < ws.len() implies #[trigger] in_order(ws, orig, render_all(orig, m))[k]
        == render_all(ws, m)[k] by {
        assert(orig.contains(ws[k]));
        let q = index_in(orig, ws[k]);
        assert(orig[q] == ws[k]);
    }
    assert(in_order(ws, orig, render_all(orig, m)) =~= render_all(ws, m));
}

/// Two solutions that agree with `t` on every word before `wi` and on the
/// first `li` symbols of word `wi`, and give the symbol at that position the
/// letters `a < b`, come in that order.
proof fn lemma_key_order(
    ws: Seq<Seq<usize>>,
    t: Seq<Letter>,
    wi: int,
    li: int,
    m1: Seq<Letter>,
    m2: Seq<Letter>,
    a: usize,
    b: usize,
)
    requires
        symbols_in_range(ws),
        0 <= wi < ws.len(),
        0 <= li < ws[wi].len(),
        forall|k: int| 0 <= k < wi ==> all_known(#[trigger] ws[k], t),
        all_known(ws[wi].take(li), t),
        extends(m1, t),
        extends(m2, t),
        m1[ws[wi][li] as int] == Letter::Known(a),
        m2[ws[wi][li] as int] == Letter::Known(b),
        a < b < ALPHABET,
    ensures
        text_less(render_all(ws, m1), render_all(ws, m2)),
{
    let x1 = render_all(ws, m1);
    let x2 = render_all(ws, m2);
    assert forall|k: int| 0 <= k < wi implies #[trigger] x1[k] == x2[k] by {
        assert(all_known(ws[k], t));
        assert forall|q: int| 0 <= q < ws[k].len() implies #[trigger] ws[k][q] < ALPHABET by {
            assert(ws[k][q] < ALPHABET);
        }
        lemma_render_agree(ws[k], t, m1);
        lemma_render_agree(ws[k], t, m2);
    }
    assert(x1.take(wi) =~= x2.take(wi));
    let p = ws[wi].take(li);
    assert forall|q: int| 0 <= q < p.len() implies #[trigger] p[q] < ALPHABET by {
        assert(ws[wi][q] < ALPHABET);
    }
    lemma_render_agree(p, t, m1);
    lemma_render_agree(p, t, m2);
    assert(x1[wi].take(li) =~= render(p, m1));
    assert(x2[wi].take(li) =~= render(p, m2));
    assert(x1[wi][li] == char_of(a as int));
    assert(x2[wi][li] == char_of(b as int));
    assert(word_less(x1[wi], x2[wi]));
}

/// Two assignments that agree on the symbols of `w` render it alike.
proof fn lemma_render_agree(w: Seq<usize>, t: Seq<Letter>, m: Seq<Letter>)
    requires
        all_known(w, t),
        extends(m, t),
        forall|j: int| 0 <= j < w.len() ==> #[trigger] w[j] < ALPHABET,
    ensures
        render(w, t) == render(w, m),
{
    assert forall|j: int| 0 <= j < w.len() implies #[trigger] m[w[j] as int] == t[w[j] as int] by {
        assert(t[w[j] as int] is Known);
    }
    assert(render(w, t) =~= render(w, m));
}

/// Every prefix of an accepted word can be walked.
proof fn lemma_prefix_walks(t: Trie, w: Seq<char>, k: int)
    requires
        t.accepts(w),
        0 <= k <= w.len(),
    ensures
        t.walk(w.take(k)) is Some,
{
    lemma_walk_concat(t, w.take(k), w.skip(k));
    assert(w.take(k) + w.skip(k) =~= w);
}

/// The state the search is in at word `wi`, letter `li`, having reached node
/// `cur`: every earlier word is fully assigned and in the dictionary, and the
/// letters of the current word so far lead from the root to `cur`.
pub open spec fn on_track(
    dict: Trie,
    cur: Trie,
    ws: Seq<Seq<usize>>,
    wi: int,
    li: int,
    m: Seq<Letter>,
) -> bool {
    &&& 0 <= wi <= ws.len()
    &&& forall|k: int| 0 <= k < wi ==> all_known(#[trigger] ws[k], m)
    &&& forall|k: int| 0 <= k < wi ==> dict@.contains(render(#[trigger] ws[k], m))
    &&& wi < ws.len() ==> {
        &&& 0 <= li <= ws[wi].len()
        &&& all_known(ws[wi].take(li), m)
        &&& dict.walk(render(ws[wi].take(li), m)) == Some(cur)
    }
}

/// 1 while the symbol under the cursor is unassigned, else 0.
pub open spec fn pending(ws: Seq<Seq<usize>>, wi: int, li: int, m: Seq<Letter>) -> int {
    if 0 <= wi < ws.len() && 0 <= li < ws[wi].len() && m[ws[wi][li] as int] is Unknown {
        1
    } else {
        0
    }
}

/// Letters left in the current word.
pub open spec fn left_in_word(ws: Seq<Seq<usize>>, wi: int, li: int) -> int {
    if 0 <= wi < ws.len() {
        ws[wi].len() - li
    } else {
        0
    }
}

/// Depth-first search for assignments from the cursor (word `word_index` of
/// `words`, letter `letter_index`, trie node `cur_dict`) on. Each full
/// solution found is appended to `solutions` as the words of
/// `original_words` rendered through it. Stops after the first solution
/// unless `find_all`, and reports whether it stopped. Every symbol state is
/// put back as it was.
pub fn search(
    word_index: usize,
    letter_index: usize,
    dict: &Trie,
    cur_dict: &Trie,
    words: &Vec<Vec<usize>>,
    used: [bool; 26],
    original_words: &Vec<Vec<usize>>,
    table: &mut Vec<Letter>,
    find_all: bool,
    solutions: &mut Vec<Vec<String>>,
) -> (stop: bool)
    requires
        dict.wf(),
        cur_dict.wf(),
        symbols_in_range(views(words@)),
        forall|i: int| 0 <= i < original_words@.len() ==> views(words@).contains(#[trigger] original_words@[i]@),
        forall|k: int| 0 <= k < words@.len() ==> views(original_words@).contains(#[trigger] words@[k]@),
        injective(old(table)@),
        covers(used@, old(table)@),
        on_track(*dict, *cur_dict, views(words@), word_index as int, letter_index as int, old(table)@),
    ensures
        final(table)@ == old(table)@,
        final(solutions)@.len() >= old(solutions)@.len(),
        forall|j: int| 0 <= j < old(solutions)@.len() ==> final(solutions)@[j] == old(solutions)@[j],
        forall|j: int| old(solutions)@.len() <= j < final(solutions)@.len()
            ==> reached(views(words@), views(original_words@), dict@, old(table)@, #[trigger] texts(final(solutions)@[j]@)),
        forall|i: int, j: int| old(solutions)@.len() <= i < j < final(solutions)@.len()
            ==> text_less(
                in_order(views(words@), views(original_words@), #[trigger] texts(final(solutions)@[i]@)),
                in_order(views(words@), views(original_words@), #[trigger] texts(final(solutions)@[j]@)),
            ),
        stop == (!find_all && final(solutions)@.len() > old(solutions)@.len()),
        !find_all ==> final(solutions)@.len() <= old(solutions)@.len() + 1,
        !find_all && final(solutions)@.len() > old(solutions)@.len() ==> forall|m: Seq<Letter>|
            #[trigger] solves(views(words@), dict@, m) && extends(m, old(table)@) ==> !text_less(
                in_order(views(words@), views(original_words@), render_all(views(original_words@), m)),
                in_order(views(words@), views(original_words@), texts(final(solutions)@[old(solutions)@.len() as int]@)),
            ),
        forall|m: Seq<Letter>|
            #[trigger] solves(views(words@), dict@, m) && extends(m, old(table)@) ==> {
                &&& final(solutions)@.len() > old(solutions)@.len()
                &&& find_all ==> found(final(solutions)@, old(solutions)@.len() as int, render_all(views(original_words@), m))
            },
    decreases
        words@.len() - word_index,
        left_in_word(views(words@), word_index as int, letter_index as int),
        pending(views(words@), word_index as int, letter_index as int, old(table)@),
{
    let ghost ws = views(words@);
    let ghost orig = views(original_words@);
    if word_index >= words.len() {
        let mut rendered: Vec<String> = Vec::new();
        let mut i: usize = 0;
        while i < original_words.len()
            invariant
                i <= original_words@.len(),
                orig == views(original_words@),
                ws == views(words@),
                symbols_in_range(ws),
                forall|i: int| 0 <= i < orig.len() ==> ws.contains(#[trigger] orig[i]),
                injective(table@),
                rendered@.len() == i,
                forall|k: int| 0 <= k < i ==> #[trigger] rendered@[k]@ == render(orig[k], table@),
            decreases original_words@.len() - i,
        {
            proof {
                let j = choose|j: int| 0 <= j < ws.len() && ws[j] == orig[i as int];
                assert forall|q: int| 0 <= q < original_words@[i as int]@.len()
                    implies #[trigger] original_words@[i as int]@[q] < ALPHABET by {
                    assert(ws[j][q] < ALPHABET);
                }
            }
            let r = render_word(&original_words[i], table);
            rendered.push(r);
            i = i + 1;
        }
        proof {
            let m = table@;
            assert forall|k: int| 0 <= k < orig.len() implies all_known(#[trigger] orig[k], m)
                && dict@.contains(render(orig[k], m)) by {
                let j = choose|j: int| 0 <= j < ws.len() && ws[j] == orig[k];
                assert(all_known(ws[j], m));
                assert(dict@.contains(render(ws[j], m)));
            }
            assert(solves(orig, dict@, m));
            assert(texts(rendered@) =~= render_all(orig, m));
            assert(extends(m, m));
        }
        let ghost before = solutions@;
        solutions.push(rendered);
        proof {
            assert forall|m: Seq<Letter>| #[trigger] solves(ws, dict@, m) && extends(m, table@)
                implies found(solutions@, before.len() as int, render_all(orig, m)) && !text_less(
                    in_order(ws, orig, render_all(orig, m)),
                    in_order(ws, orig, texts(solutions@[before.len() as int]@)),
                ) by {
                assert forall|k: int| 0 <= k < orig.len() implies #[trigger] render(orig[k], table@) == render(orig[k], m) by {
                    let j = choose|j: int| 0 <= j < ws.len() && ws[j] == orig[k];
                    assert(all_known(ws[j], table@));
                    assert forall|q: int| 0 <= q < ws[j].len() implies #[trigger] ws[j][q] < ALPHABET by {
                        assert(ws[j][q] < ALPHABET);
                    }
                    lemma_render_agree(orig[k], table@, m);
                }
                assert(render_all(orig, m) =~= render_all(orig, table@));
                assert(texts(solutions@[before.len() as int]@) == render_all(orig, m));
                lemma_text_less_irreflexive(in_order(ws, orig, render_all(orig, m)));
            }
        }
        return !find_all;
    }
    let word = &words[word_index];
    if letter_index >= word.len() {
        if cur_dict.is_terminal() {
            proof {
                let m = table@;
                assert(ws[word_index as int].take(letter_index as int) =~= ws[word_index as int]);
                assert(dict@.contains(render(ws[word_index as int], m)));
                if word_index + 1 < ws.len() {
                    assert(ws[word_index as int + 1].take(0) =~= Seq::<usize>::empty());
                }
                assert(render(Seq::<usize>::empty(), m) =~= Seq::<char>::empty());
            }
            return search(word_index + 1, 0, dict, dict, words, used, original_words, table, find_all, solutions);
        } else {
            proof {
                let wi = word_index as int;
                assert(ws[wi].take(letter_index as int) =~= ws[wi]);
                assert forall|m: Seq<Letter>| #[trigger] solves(ws, dict@, m) && extends(m, table@) implies false by {
                    assert(dict@.contains(render(ws[wi], m)));
                    assert forall|q: int| 0 <= q < ws[wi].len() implies #[trigger] ws[wi][q] < ALPHABET by {
                        assert(ws[wi][q] < ALPHABET);
                    }
                    lemma_render_agree(ws[wi], table@, m);
                }
            }
            return false;
        }
    }
    let sym: usize = word[letter_index];
    proof {
        assert(ws[word_index as int][letter_index as int] < ALPHABET);
    }
    match table[sym] {
        Letter::Unknown => {
            let ghost start = table@;
            let ghost first = solutions@.len();
            let mut c: usize = 0;
            let mut stop = false;
            while c < ALPHABET && !stop
                invariant
                    c <= ALPHABET,
                    ws == views(words@),
                    orig == views(original_words@),
                    dict.wf(),
                    cur_dict.wf(),
                    symbols_in_range(ws),
                    forall|i: int| 0 <= i < original_words@.len() ==> views(words@).contains(#[trigger] original_words@[i]@),
                    injective(start),
                    covers(used@, start),
                    on_track(*dict, *cur_dict, ws, word_index as int, letter_index as int, start),
                    word_index < ws.len(),
                    letter_index < ws[word_index as int].len(),
                    sym == ws[word_index as int][letter_index as int],
                    sym < ALPHABET,
                    table@ == start,
                    start == old(table)@,
                    start[sym as int] is Unknown,
                    solutions@.len() >= first,
                    forall|j: int| 0 <= j < first ==> solutions@[j] == old(solutions)@[j],
                    forall|k: int| 0 <= k < words@.len() ==> views(original_words@).contains(#[trigger] words@[k]@),
                    forall|j: int| first <= j < solutions@.len()
                        ==> reached(ws, orig, dict@, start, #[trigger] texts(solutions@[j]@)),
                    forall|i: int, j: int| first <= i < j < solutions@.len()
                        ==> text_less(
                            in_order(ws, orig, #[trigger] texts(solutions@[i]@)),
                            in_order(ws, orig, #[trigger] texts(solutions@[j]@)),
                        ),
                    forall|j: int| first <= j < solutions@.len()
                        ==> (in_order(ws, orig, #[trigger] texts(solutions@[j]@))[word_index as int][letter_index as int] as int)
                            < (char_of(c as int) as int),
                    stop == (!find_all && solutions@.len() > first),
                    !find_all ==> solutions@.len() <= first + 1,
                    !find_all && solutions@.len() > first ==> forall|m: Seq<Letter>|
                        #[trigger] solves(ws, dict@, m) && extends(m, start) ==> !text_less(
                            in_order(ws, orig, render_all(orig, m)),
                            in_order(ws, orig, texts(solutions@[first as int]@)),
                        ),
                    forall|m: Seq<Letter>|
                        #[trigger] solves(ws, dict@, m) && extends(m, start) && (m[sym as int] matches Letter::Known(c1)
                            && c1 < c) ==> {
                            &&& solutions@.len() > first
                            &&& find_all ==> found(solutions@, first as int, render_all(orig, m))
                        },
                decreases ALPHABET - c,
            {
                if !used[c] {
                    table.set(sym, Letter::Known(c));
                    let mut next_used = used;
                    next_used.set(c, true);
                    proof {
                        let m = table@;
                        assert(m == start.update(sym as int, Letter::Known(c)));
                        assert forall|s1: int, s2: int|
                            0 <= s1 < ALPHABET && 0 <= s2 < ALPHABET && #[trigger] m[s1] is Known
                                && #[trigger] m[s2] == m[s1] implies s1 == s2 by {
                            if s1 != sym as int && s2 == sym as int {
                                assert(start[s1] == Letter::Known(c));
                            } else if s1 == sym as int && s2 != sym as int {
                                assert(start[s2] == Letter::Known(c));
                            }
                        }
                        assert(injective(m));
                        assert forall|c1: int| 0 <= c1 < ALPHABET && #[trigger] next_used@[c1]
                            implies exists|s: int| 0 <= s < ALPHABET && m[s] == Letter::Known(c1 as usize) by {
                            if c1 == c as int {
                                assert(m[sym as int] == Letter::Known(c1 as usize));
                            } else {
                                assert(used@[c1]);
                                let s0 = choose|s: int| 0 <= s < ALPHABET && start[s] == Letter::Known(c1 as usize);
                                assert(m[s0] == Letter::Known(c1 as usize));
                            }
                        }
                        assert(covers(next_used@, m));
                        assert forall|w: Seq<usize>|
                            all_known(w, start) && (forall|j: int| 0 <= j < w.len() ==> #[trigger] w[j] < ALPHABET)
                            implies render(w, m) =~= render(w, start) && all_known(w, m) by {
                            assert forall|j: int| 0 <= j < w.len() implies w[j] as int != sym as int by {
                                assert(start[w[j] as int] is Known);
                            }
                        }
                        let wi = word_index as int;
                        let li = letter_index as int;
                        assert forall|k: int| 0 <= k < wi implies all_known(#[trigger] ws[k], m)
                            && dict@.contains(render(ws[k], m)) by {
                            assert(all_known(ws[k], start));
                            assert forall|j: int| 0 <= j < ws[k].len() implies #[trigger] ws[k][j] < ALPHABET by {
                                assert(ws[k][j] < ALPHABET);
                            }
                        }
                        assert(all_known(ws[wi].take(li), start));
                        assert forall|j: int| 0 <= j < ws[wi].take(li).len() implies #[trigger] ws[wi].take(li)[j] < ALPHABET by {
                            assert(ws[wi][j] < ALPHABET);
                        }
                        assert(render(ws[wi].take(li), m) == render(ws[wi].take(li), start));
                        assert(on_track(*dict, *cur_dict, ws, wi, li, m));
                        assert(pending(ws, wi, li, start) == 1);
                        assert(pending(ws, wi, li, m) == 0);
                    }
                    let ghost mid = solutions@;
                    let ghost tried = table@;
                    stop = search(
                        word_index,
                        letter_index,
                        dict,
                        cur_dict,
                        words,
                        next_used,
                        original_words,
                        table,
                        find_all,
                        solutions,
                    );
                    table.set(sym, Letter::Unknown);
                    assert(table@ =~= start);
                    proof {
                        let wi = word_index as int;
                        let li = letter_index as int;
                        assert(tried == start.update(sym as int, Letter::Known(c)));
                        if !find_all && solutions@.len() > first {
                            assert(mid.len() == first);
                            let e = texts(solutions@[first as int]@);
                            assert(reached(ws, orig, dict@, tried, e));
                            let me = choose|m: Seq<Letter>|
                                solves(ws, dict@, m) && solves(orig, dict@, m) && extends(m, tried)
                                    && e == #[trigger] render_all(orig, m);
                            assert forall|k: int| 0 <= k < ws.len() implies orig.contains(#[trigger] ws[k]) by {
                                assert(views(original_words@).contains(words@[k]@));
                            }
                            lemma_in_order(ws, orig, me);
                            assert(me[sym as int] == Letter::Known(c));
                            assert(extends(me, start));
                            assert forall|m: Seq<Letter>| #[trigger] solves(ws, dict@, m) && extends(m, start) implies !text_less(
                                in_order(ws, orig, render_all(orig, m)),
                                in_order(ws, orig, e),
                            ) by {
                                lemma_in_order(ws, orig, m);
                                assert(all_known(ws[wi], m));
                                assert(m[ws[wi][li] as int] is Known);
                                match m[sym as int] {
                                    Letter::Known(c1) => {
                                        if c1 == c {
                                            assert(extends(m, tried));
                                        } else if c1 < c {
                                            assert(mid.len() > first);
                                        } else {
                                            lemma_key_order(ws, start, wi, li, me, m, c, c1);
                                            if text_less(render_all(ws, m), render_all(ws, me)) {
                                                lemma_text_less_transitive(render_all(ws, me), render_all(ws, m), render_all(ws, me));
                                                lemma_text_less_irreflexive(render_all(ws, me));
                                            }
                                        }
                                    },
                                    Letter::Unknown => {},
                                }
                            }
                        }
                        assert forall|k: int| 0 <= k < ws.len() implies orig.contains(#[trigger] ws[k]) by {
                            assert(views(original_words@).contains(words@[k]@));
                        }
                        assert forall|i: int, j: int| first <= i < j < solutions@.len() implies text_less(
                            in_order(ws, orig, #[trigger] texts(solutions@[i]@)),
                            in_order(ws, orig, #[trigger] texts(solutions@[j]@)),
                        ) by {
                            if j < mid.len() {
                                assert(solutions@[i] == mid[i] && solutions@[j] == mid[j]);
                            } else if i >= mid.len() {
                            } else {
                                assert(solutions@[i] == mid[i]);
                                let mi = choose|m: Seq<Letter>|
                                    solves(ws, dict@, m) && solves(orig, dict@, m) && extends(m, start)
                                        && texts(mid[i]@) == #[trigger] render_all(orig, m);
                                let mj = choose|m: Seq<Letter>|
                                    solves(ws, dict@, m) && solves(orig, dict@, m) && extends(m, tried)
                                        && texts(solutions@[j]@) == #[trigger] render_all(orig, m);
                                lemma_in_order(ws, orig, mi);
                                lemma_in_order(ws, orig, mj);
                                let xi = render_all(ws, mi);
                                let xj = render_all(ws, mj);
                                assert(extends(mj, start));
                                assert forall|k: int| 0 <= k < wi implies #[trigger] xi[k] == xj[k] by {
                                    assert(all_known(ws[k], start));
                                    assert forall|q: int| 0 <= q < ws[k].len() implies #[trigger] ws[k][q] < ALPHABET by {
                                        assert(ws[k][q] < ALPHABET);
                                    }
                                    lemma_render_agree(ws[k], start, mi);
                                    lemma_render_agree(ws[k], start, mj);
                                }
                                assert(xi.take(wi) =~= xj.take(wi));
                                let p = ws[wi].take(li);
                                assert(all_known(p, start));
                                assert forall|q: int| 0 <= q < p.len() implies #[trigger] p[q] < ALPHABET by {
                                    assert(ws[wi][q] < ALPHABET);
                                }
                                lemma_render_agree(p, start, mi);
                                lemma_render_agree(p, start, mj);
                                assert(xi[wi].take(li) =~= render(p, mi));
                                assert(xj[wi].take(li) =~= render(p, mj));
                                assert(xi[wi].take(li) == xj[wi].take(li));
                                assert(mj[sym as int] == Letter::Known(c));
                                assert(xj[wi][li] == char_of(c as int));
                                assert((xi[wi][li] as int) < (char_of(c as int) as int));
                                assert(word_less(xi[wi], xj[wi]));
                                assert(text_less(xi, xj));
                            }
                        }
                    }
                    proof {
                        assert forall|m: Seq<Letter>|
                            #[trigger] solves(ws, dict@, m) && extends(m, start) && (m[sym as int] matches Letter::Known(c1)
                                && c1 < c + 1) implies {
                                &&& solutions@.len() > first
                                &&& find_all ==> found(solutions@, first as int, render_all(orig, m))
                            } by {
                            if m[sym as int] == Letter::Known(c) {
                                assert(extends(m, tried));
                                if find_all {
                                    let j = choose|j: int| mid.len() <= j < solutions@.len()
                                        && #[trigger] texts(solutions@[j]@) == render_all(orig, m);
                                    assert(texts(solutions@[j]@) == render_all(orig, m));
                                }
                            } else {
                                if find_all {
                                    let j = choose|j: int| first <= j < mid.len()
                                        && #[trigger] texts(mid[j]@) == render_all(orig, m);
                                    assert(solutions@[j] == mid[j]);
                                    assert(texts(solutions@[j]@) == render_all(orig, m));
                                }
                            }
                        }
                    }
                } else {
                    proof {
                        assert forall|m: Seq<Letter>|
                            #[trigger] solves(ws, dict@, m) && extends(m, start) && m[sym as int] == Letter::Known(c)
                            implies false by {
                            let s0 = choose|s: int| 0 <= s < ALPHABET && start[s] == Letter::Known(c);
                            assert(m[s0] == m[sym as int]);
                        }
                    }
                }
                c = c + 1;
            }
            proof {
                let wi = word_index as int;
                let li = letter_index as int;
                assert forall|m: Seq<Letter>| #[trigger] solves(ws, dict@, m) && extends(m, start)
                    implies m[sym as int] matches Letter::Known(c1) && c1 < c || stop by {
                    assert(all_known(ws[wi], m));
                    assert(m[ws[wi][li] as int] is Known);
                }
            }
            stop
        },
        Letter::Known(c) => {
            match cur_dict.child(c) {
                Some(next) => {
                    proof {
                        let m = table@;
                        let wi = word_index as int;
                        let li = letter_index as int;
                        let w = ws[wi];
                        assert(w.take(li + 1) =~= w.take(li).push(sym));
                        assert(render(w.take(li + 1), m) =~= render(w.take(li), m).push(char_of(c as int)));
                        lemma_walk_push(*dict, render(w.take(li), m), char_of(c as int));
                        lemma_step_letter(*cur_dict, c as int);
                        assert(all_known(w.take(li + 1), m));
                    }
                    search(word_index, letter_index + 1, dict, next, words, used, original_words, table, find_all, solutions)
                },
                None => {
                    proof {
                        let m0 = table@;
                        let wi = word_index as int;
                        let li = letter_index as int;
                        let w = ws[wi];
                        assert forall|m: Seq<Letter>| #[trigger] solves(ws, dict@, m) && extends(m, m0) implies false by {
                            assert(dict@.contains(render(w, m)));
                            assert(w.take(li + 1) =~= w.take(li).push(sym));
                            assert(all_known(w.take(li + 1), m0));
                            assert forall|q: int| 0 <= q < w.take(li + 1).len() implies #[trigger] w.take(li + 1)[q] < ALPHABET by {
                                assert(w[q] < ALPHABET);
                            }
                            lemma_render_agree(w.take(li + 1), m0, m);
                            assert(render(w, m).take(li + 1) =~= render(w.take(li + 1), m));
                            lemma_prefix_walks(*dict, render(w, m), li + 1);
                            assert(render(w.take(li + 1), m0) =~= render(w.take(li), m0).push(char_of(c as int)));
                            lemma_walk_push(*dict, render(w.take(li), m0), char_of(c as int));
                            lemma_step_letter(*cur_dict, c as int);
                        }
                    }
                    false
                },
            }
        },
    }
}

} // verus!

verus! {

/// The length of the longest word of `ws` (0 for no words).
pub open spec fn max_len(ws: Seq<Seq<usize>>) -> int
    decreases ws.len(),
{
    if ws.len() == 0 {
        0
    } else {
        let m = max_len(ws.drop_last());
        if ws.last().len() > m {
            ws.last().len() as int
        } else {
            m
        }
    }
}

/// The words of `ws` with exactly `l` symbols, in their order.
pub open spec fn of_length(ws: Seq<Seq<usize>>, l: int) -> Seq<Seq<usize>> {
    ws.filter(|w: Seq<usize>| w.len() == l)
}

/// The words of `ws` with lengths from `hi` down to `lo`, longer ones first,
/// words of one length in their order.
pub open spec fn lengths_down(ws: Seq<Seq<usize>>, hi: int, lo: int) -> Seq<Seq<usize>>
    decreases hi + 1 - lo,
{
    if lo > hi {
        Seq::empty()
    } else {
        lengths_down(ws, hi, lo + 1) + of_length(ws, lo)
    }
}

/// The words of `ws` ordered longest first, words of one length in their order.
pub open spec fn longest_first(ws: Seq<Seq<usize>>) -> Seq<Seq<usize>> {
    lengths_down(ws, max_len(ws), 0)
}

/// The cipher words of `words` ordered longest first, words of one length in
/// their input order. Every input word appears in the result and every
/// result word comes from the input.
pub fn sort_longest_first(words: &Vec<Vec<usize>>) -> (r: Vec<Vec<usize>>)
    ensures
        views(r@) == longest_first(views(words@)),
        forall|i: int, j: int| 0 <= i < j < r@.len() ==> r@[i]@.len() >= r@[j]@.len(),
        forall|i: int| 0 <= i < r@.len() ==> views(words@).contains(#[trigger] r@[i]@),
        forall|i: int| 0 <= i < words@.len() ==> views(r@).contains(#[trigger] words@[i]@),
{
    let ghost ws = views(words@);
    let mut longest: usize = 0;
    let mut i: usize = 0;
    while i < words.len()
        invariant
            i <= words@.len(),
            ws == views(words@),
            forall|k: int| 0 <= k < i ==> #[trigger] words@[k]@.len() <= longest,
            longest as int == max_len(ws.take(i as int)),
        decreases words@.len() - i,
    {
        assert(ws.take(i as int + 1).drop_last() =~= ws.take(i as int));
        if words[i].len() > longest {
            longest = words[i].len();
        }
        i = i + 1;
    }
    assert(ws.take(i as int) =~= ws);
    let mut r: Vec<Vec<usize>> = Vec::new();
    let mut l: usize = longest;
    let mut done = false;
    let ghost placed: Seq<int> = Seq::empty();
    while !done
        invariant
            forall|k: int| 0 <= k < words@.len() ==> #[trigger] words@[k]@.len() <= longest,
            l <= longest,
            forall|i: int, j: int| 0 <= i < j < r@.len() ==> r@[i]@.len() >= r@[j]@.len(),
            forall|i: int| 0 <= i < r@.len() ==> views(words@).contains(#[trigger] r@[i]@),
            !done ==> forall|i: int| 0 <= i < r@.len() ==> #[trigger] r@[i]@.len() > l,
            placed.len() == r@.len(),
            forall|i: int| 0 <= i < r@.len() ==> 0 <= #[trigger] placed[i] < words@.len() && r@[i]@ == words@[placed[i]]@,
            forall|k: int| 0 <= k < words@.len() && (done || words@[k]@.len() > l)
                ==> exists|i: int| 0 <= i < r@.len() && #[trigger] placed[i] == k,
            ws == views(words@),
            longest as int == max_len(ws),
            !done ==> views(r@) == lengths_down(ws, longest as int, l + 1),
            done ==> views(r@) == lengths_down(ws, longest as int, 0),
        decreases (if done { 0 } else { l + 1 }),
    {
        let mut k: usize = 0;
        let ghost before = r@.len();
        while k < words.len()
            invariant
                forall|q: int| 0 <= q < words@.len() ==> #[trigger] words@[q]@.len() <= longest,
                k <= words@.len(),
                before <= r@.len(),
                forall|i: int, j: int| 0 <= i < j < r@.len() ==> r@[i]@.len() >= r@[j]@.len(),
                forall|i: int| 0 <= i < before ==> #[trigger] r@[i]@.len() > l,
                forall|i: int| before <= i < r@.len() ==> #[trigger] r@[i]@.len() == l,
                forall|i: int| 0 <= i < r@.len() ==> views(words@).contains(#[trigger] r@[i]@),
                placed.len() == r@.len(),
                forall|i: int| 0 <= i < r@.len() ==> 0 <= #[trigger] placed[i] < words@.len() && r@[i]@ == words@[placed[i]]@,
                forall|i: int| before <= i < r@.len() ==> #[trigger] placed[i] < k,
                forall|q: int| 0 <= q < words@.len() && (words@[q]@.len() > l || (q < k && words@[q]@.len() == l))
                    ==> exists|i: int| 0 <= i < r@.len() && #[trigger] placed[i] == q,
                forall|i: int| 0 <= i < before ==> words@[#[trigger] placed[i]]@.len() > l,
                ws == views(words@),
                l <= longest,
                views(r@) == lengths_down(ws, longest as int, l + 1) + of_length(ws.take(k as int), l as int),
            decreases words@.len() - k,
        {
            proof {
                reveal(Seq::filter);
                assert(ws.take(k as int + 1).drop_last() =~= ws.take(k as int));
                assert(ws.take(k as int + 1).last() == ws[k as int]);
            }
            if words[k].len() == l {
                let copy = words[k].clone();
                assert(copy@ =~= words@[k as int]@);
                let ghost prev = placed;
                proof {
                    placed = placed.push(k as int);
                }
                let ghost r0 = r@;
                r.push(copy);
                proof {
                    assert(views(r@) =~= views(r0).push(words@[k as int]@));
                    assert forall|i: int| 0 <= i < r@.len() implies views(words@).contains(#[trigger] r@[i]@) by {
                        if i < r@.len() - 1 {
                        } else {
                            assert(views(words@)[k as int] == r@[i]@);
                        }
                    }
                    assert forall|q: int| 0 <= q < words@.len() && (words@[q]@.len() > l || (q < k + 1 && words@[q]@.len() == l))
                        implies exists|i: int| 0 <= i < r@.len() && #[trigger] placed[i] == q by {
                        if q == k {
                            assert(placed[r@.len() - 1] == q);
                        } else {
                            let i = choose|i: int| 0 <= i < r@.len() - 1 && #[trigger] prev[i] == q;
                            assert(placed[i] == q);
                        }
                    }
                }
            }
            k = k + 1;
        }
        assert forall|q: int| 0 <= q < words@.len() && words@[q]@.len() >= l
            implies exists|i: int| 0 <= i < r@.len() && #[trigger] placed[i] == q by {
            if words@[q]@.len() > l {
            } else {
                assert(q < k && words@[q]@.len() == l);
            }
        }
        assert(ws.take(k as int) =~= ws);
        let ghost l0 = l;
        if l == 0 {
            done = true;
        } else {
            l = l - 1;
        }
        assert forall|q: int| 0 <= q < words@.len() && (done || words@[q]@.len() > l)
            implies exists|i: int| 0 <= i < r@.len() && #[trigger] placed[i] == q by {
            assert(words@[q]@.len() >= l0);
        }
    }
    proof {
        assert forall|k: int| 0 <= k < words@.len() implies views(r@).contains(#[trigger] words@[k]@) by {
            let i = choose|i: int| 0 <= i < r@.len() && #[trigger] placed[i] == k;
            assert(views(r@)[i] == words@[k]@);
        }
    }
    r
}

} // verus!

verus! {

/// The symbols of a cipher token, `A` as 0 up to `Z` as 25; `None` when the
/// token holds a character outside `A`..`Z`.
pub fn encode_word(token: &str) -> (r: Option<Vec<usize>>)
    ensures
        r is Some <==> all_upper(token@),
        r matches Some(v) ==> {
            &&& v@.len() == token@.len()
            &&& forall|j: int| 0 <= j < v@.len() ==> #[trigger] v@[j] as int == slot_of(token@[j])
        },
{
    let n: usize = token.unicode_len();
    let mut v: Vec<usize> = Vec::new();
    let mut i: usize = 0;
    while i < n
        invariant
            n == token@.len(),
            i <= n,
            v@.len() == i,
            all_upper(token@.take(i as int)),
            forall|j: int| 0 <= j < i ==> #[trigger] v@[j] as int == slot_of(token@[j]),
        decreases n - i,
    {
        let c = token.get_char(i);
        if !('A' <= c && c <= 'Z') {
            return None;
        }
        v.push((c as u32 - 'A' as u32) as usize);
        i = i + 1;
        assert(forall|j: int| 0 <= j < i ==> #[trigger] token@.take(i as int)[j] == token@[j]);
    }
    assert(token@.take(n as int) =~= token@);
    Some(v)
}

/// Solves the cryptogram `puzzle`, given as cipher words of symbol indices,
/// over the words stored in `dict`. The words are searched longest first;
/// each solution comes back as the puzzle's words in their own order,
/// rendered through it. With `find_all` every solution is listed, else the
/// search ends after the first. Whenever a solution exists, one is found.
pub fn solve(dict: &Trie, puzzle: &Vec<Vec<usize>>, find_all: bool) -> (r: Vec<Vec<String>>)
    requires
        dict.wf(),
        symbols_in_range(views(puzzle@)),
    ensures
        forall|j: int| 0 <= j < r@.len() ==> solution_text(views(puzzle@), dict@, #[trigger] texts(r@[j]@)),
        !find_all ==> r@.len() <= 1,
        forall|i: int, j: int| 0 <= i < j < r@.len() ==> text_less(
            in_order(longest_first(views(puzzle@)), views(puzzle@), #[trigger] texts(r@[i]@)),
            in_order(longest_first(views(puzzle@)), views(puzzle@), #[trigger] texts(r@[j]@)),
        ),
        find_all ==> listing(dict@, views(puzzle@), Seq::new(r@.len(), |j: int| texts(r@[j]@))),
        !find_all && r@.len() == 1 ==> forall|m: Seq<Letter>| #[trigger] solves(views(puzzle@), dict@, m) ==> !text_less(
            in_order(longest_first(views(puzzle@)), views(puzzle@), render_all(views(puzzle@), m)),
            in_order(longest_first(views(puzzle@)), views(puzzle@), texts(r@[0]@)),
        ),
        forall|m: Seq<Letter>| #[trigger] solves(views(puzzle@), dict@, m) ==> {
            &&& r@.len() > 0
            &&& find_all ==> found(r@, 0, render_all(views(puzzle@), m))
        },
{
    let sorted = sort_longest_first(puzzle);
    let mut table: Vec<Letter> = Vec::new();
    let mut s: usize = 0;
    while s < ALPHABET
        invariant
            s <= ALPHABET,
            table@.len() == s,
            forall|k: int| 0 <= k < s ==> #[trigger] table@[k] == Letter::Unknown,
        decreases ALPHABET - s,
    {
        table.push(Letter::Unknown);
        s = s + 1;
    }
    let used: [bool; 26] = [false; 26];
    let mut solutions: Vec<Vec<String>> = Vec::new();
    proof {
        let ws = views(sorted@);
        let ps = views(puzzle@);
        assert forall|k: int, j: int| 0 <= k < ws.len() && 0 <= j < ws[k].len() implies #[trigger] ws[k][j] < ALPHABET by {
            assert(ps.contains(sorted@[k]@));
            let q = choose|q: int| 0 <= q < ps.len() && ps[q] == sorted@[k]@;
            assert(ps[q][j] < ALPHABET);
        }
        assert(ws.len() > 0 ==> ws[0].take(0) =~= Seq::<usize>::empty());
        assert(render(Seq::<usize>::empty(), table@) =~= Seq::<char>::empty());
    }
    proof {
        let ws = views(sorted@);
        let ps = views(puzzle@);
        assert forall|m: Seq<Letter>| #[trigger] solves(ps, dict@, m) implies solves(ws, dict@, m)
            && extends(m, table@) by {
            assert forall|k: int| 0 <= k < ws.len() implies all_known(#[trigger] ws[k], m)
                && dict@.contains(render(ws[k], m)) by {
                assert(ps.contains(sorted@[k]@));
                let q = choose|q: int| 0 <= q < ps.len() && ps[q] == sorted@[k]@;
                assert(all_known(ps[q], m));
            }
        }
    }
    proof {
        let ws = views(sorted@);
        let ps = views(puzzle@);
        assert forall|k: int| 0 <= k < sorted@.len() implies ps.contains(#[trigger] sorted@[k]@) by {
            assert(ps.contains(sorted@[k]@));
        }
    }
    search(0, 0, dict, dict, &sorted, used, puzzle, &mut table, find_all, &mut solutions);
    proof {
        let ws = views(sorted@);
        let ps = views(puzzle@);
        assert forall|j: int| 0 <= j < solutions@.len() implies solution_text(ps, dict@, #[trigger] texts(solutions@[j]@)) by {
            let m = choose|m: Seq<Letter>|
                solves(ws, dict@, m) && solves(ps, dict@, m) && extends(m, table@)
                    && texts(solutions@[j]@) == #[trigger] render_all(ps, m);
            assert(solves(ps, dict@, m) && texts(solutions@[j]@) == render_all(ps, m));
        }
        assert(ws == longest_first(ps));
        if !find_all && solutions@.len() == 1 {
            assert forall|m: Seq<Letter>| #[trigger] solves(ps, dict@, m) implies !text_less(
                in_order(longest_first(ps), ps, render_all(ps, m)),
                in_order(longest_first(ps), ps, texts(solutions@[0]@)),
            ) by {
                assert(solves(ws, dict@, m) && extends(m, table@));
            }
        }
        let listed = Seq::new(solutions@.len(), |j: int| texts(solutions@[j]@));
        if find_all {
            assert forall|m: Seq<Letter>| #[trigger] solves(ps, dict@, m) implies listed.contains(render_all(ps, m)) by {
                assert(found(solutions@, 0, render_all(ps, m)));
                let j = choose|j: int| 0 <= j < solutions@.len() && #[trigger] texts(solutions@[j]@) == render_all(ps, m);
                assert(listed[j] == render_all(ps, m));
            }
            assert forall|j: int| 0 <= j < listed.len() implies solution_text(ps, dict@, #[trigger] listed[j]) by {
                assert(listed[j] == texts(solutions@[j]@));
            }
            assert forall|i: int, j: int| 0 <= i < j < listed.len() implies text_less(
                in_order(longest_first(ps), ps, #[trigger] listed[i]),
                in_order(longest_first(ps), ps, #[trigger] listed[j]),
            ) by {
                assert(listed[i] == texts(solutions@[i]@));
                assert(listed[j] == texts(solutions@[j]@));
            }
        }
    }
    solutions
}

} // verus!

verus! {

/// Alphabetical order of words is transitive.
proof fn lemma_word_less_transitive(a: Seq<char>, b: Seq<char>, c: Seq<char>)
    requires
        word_less(a, b),
        word_less(b, c),
    ensures
        word_less(a, c),
{
    let i = choose|i: int| 0 <= i < a.len() && i < b.len() && #[trigger] a.take(i) == b.take(i) && (a[i] as int) < (b[i] as int);
    let j = choose|j: int| 0 <= j < b.len() && j < c.len() && #[trigger] b.take(j) == c.take(j) && (b[j] as int) < (c[j] as int);
    if i < j {
        assert(b.take(j).take(i) =~= b.take(i));
        assert(c.take(j).take(i) =~= c.take(i));
        assert(b.take(j)[i] == b[i] && c.take(j)[i] == c[i]);
        assert(a.take(i) == c.take(i));
    } else if j < i {
        assert(a.take(i).take(j) =~= a.take(j));
        assert(b.take(i).take(j) =~= b.take(j));
        assert(a.take(i)[j] == a[j] && b.take(i)[j] == b[j]);
        assert(a.take(j) == c.take(j));
    } else {
        assert(a.take(i) == c.take(i));
    }
}

/// Word-by-word order of texts is transitive.
proof fn lemma_text_less_transitive(x: Seq<Seq<char>>, y: Seq<Seq<char>>, z: Seq<Seq<char>>)
    requires
        text_less(x, y),
        text_less(y, z),
    ensures
        text_less(x, z),
{
    let i = choose|i: int| 0 <= i < x.len() && i < y.len() && #[trigger] x.take(i) == y.take(i) && word_less(x[i], y[i]);
    let j = choose|j: int| 0 <= j < y.len() && j < z.len() && #[trigger] y.take(j) == z.take(j) && word_less(y[j], z[j]);
    if i < j {
        assert(y.take(j).take(i) =~= y.take(i));
        assert(z.take(j).take(i) =~= z.take(i));
        assert(y.take(j)[i] == y[i] && z.take(j)[i] == z[i]);
        assert(x.take(i) == z.take(i));
    } else if j < i {
        assert(x.take(i).take(j) =~= x.take(j));
        assert(y.take(i).take(j) =~= y.take(j));
        assert(x.take(i)[j] == x[j] && y.take(i)[j] == y[j]);
        assert(x.take(j) == z.take(j));
    } else {
        lemma_word_less_transitive(x[i], y[i], z[i]);
        assert(x.take(i) == z.take(i));
    }
}

/// No text comes before itself.
proof fn lemma_text_less_irreflexive(x: Seq<Seq<char>>)
    ensures
        !text_less(x, x),
{
    if text_less(x, x) {
        let i = choose|i: int| 0 <= i < x.len() && i < x.len() && #[trigger] x.take(i) == x.take(i) && word_less(x[i], x[i]);
        let w = x[i];
        let q = choose|q: int| 0 <= q < w.len() && q < w.len() && #[trigger] w.take(q) == w.take(q) && (w[q] as int) < (w[q] as int);
    }
}

/// Two lists that hold the same texts, each strictly ordered by the search
/// order of `puzzle`, are equal.
proof fn lemma_sorted_unique(
    ls: Seq<Seq<usize>>,
    puzzle: Seq<Seq<usize>>,
    a: Seq<Seq<Seq<char>>>,
    b: Seq<Seq<Seq<char>>>,
)
    requires
        forall|j: int| 0 <= j < a.len() ==> b.contains(#[trigger] a[j]),
        forall|j: int| 0 <= j < b.len() ==> a.contains(#[trigger] b[j]),
        forall|i: int, j: int| 0 <= i < j < a.len() ==> text_less(
            in_order(ls, puzzle, #[trigger] a[i]),
            in_order(ls, puzzle, #[trigger] a[j]),
        ),
        forall|i: int, j: int| 0 <= i < j < b.len() ==> text_less(
            in_order(ls, puzzle, #[trigger] b[i]),
            in_order(ls, puzzle, #[trigger] b[j]),
        ),
    ensures
        a == b,
    decreases a.len(),
{
    if a.len() == 0 {
        if b.len() > 0 {
            assert(a.contains(b[0]));
        }
        assert(a =~= b);
    } else if b.len() == 0 {
        assert(b.contains(a[0]));
    } else {
        let p = choose|p: int| 0 <= p < b.len() && b[p] == a[0];
        let q = choose|q: int| 0 <= q < a.len() && a[q] == b[0];
        if p > 0 && q > 0 {
            assert(text_less(in_order(ls, puzzle, b[0]), in_order(ls, puzzle, b[p])));
            assert(text_less(in_order(ls, puzzle, a[0]), in_order(ls, puzzle, a[q])));
            lemma_text_less_transitive(in_order(ls, puzzle, a[0]), in_order(ls, puzzle, b[0]), in_order(ls, puzzle, a[0]));
            lemma_text_less_irreflexive(in_order(ls, puzzle, a[0]));
        }
        assert(a[0] == b[0]);
        let a1 = a.drop_first();
        let b1 = b.drop_first();
        assert forall|j: int| 0 <= j < a1.len() implies b1.contains(#[trigger] a1[j]) by {
            assert(b.contains(a[j + 1]));
            let r = choose|r: int| 0 <= r < b.len() && b[r] == a[j + 1];
            if r == 0 {
                assert(text_less(in_order(ls, puzzle, a[0]), in_order(ls, puzzle, a[j + 1])));
                lemma_text_less_irreflexive(in_order(ls, puzzle, a[0]));
            }
            assert(b1[r - 1] == a1[j]);
        }
        assert forall|j: int| 0 <= j < b1.len() implies a1.contains(#[trigger] b1[j]) by {
            assert(a.contains(b[j + 1]));
            let r = choose|r: int| 0 <= r < a.len() && a[r] == b[j + 1];
            if r == 0 {
                assert(text_less(in_order(ls, puzzle, b[0]), in_order(ls, puzzle, b[j + 1])));
                lemma_text_less_irreflexive(in_order(ls, puzzle, b[0]));
            }
            assert(a1[r - 1] == b1[j]);
        }
        assert forall|i: int, j: int| 0 <= i < j < a1.len() implies text_less(
            in_order(ls, puzzle, #[trigger] a1[i]),
            in_order(ls, puzzle, #[trigger] a1[j]),
        ) by {
            assert(a1[i] == a[i + 1] && a1[j] == a[j + 1]);
        }
        assert forall|i: int, j: int| 0 <= i < j < b1.len() implies text_less(
            in_order(ls, puzzle, #[trigger] b1[i]),
            in_order(ls, puzzle, #[trigger] b1[j]),
        ) by {
            assert(b1[i] == b[i + 1] && b1[j] == b[j + 1]);
        }
        lemma_sorted_unique(ls, puzzle, a1, b1);
        assert(a =~= seq![a[0]] + a1);
        assert(b =~= seq![b[0]] + b1);
    }
}

/// Determinism: a full listing of the solutions of a puzzle over a
/// dictionary is unique, so every run of `solve` with `find_all` on the same
/// dictionary and puzzle returns the same solutions in the same order.
pub proof fn lemma_listing_unique(
    dict: Set<Seq<char>>,
    puzzle: Seq<Seq<usize>>,
    a: Seq<Seq<Seq<char>>>,
    b: Seq<Seq<Seq<char>>>,
)
    requires
        listing(dict, puzzle, a),
        listing(dict, puzzle, b),
    ensures
        a == b,
{
    assert forall|j: int| 0 <= j < a.len() implies b.contains(#[trigger] a[j]) by {
        assert(solution_text(puzzle, dict, a[j]));
        let m = choose|m: Seq<Letter>| solves(puzzle, dict, m) && a[j] == #[trigger] render_all(puzzle, m);
        assert(b.contains(render_all(puzzle, m)));
    }
    assert forall|j: int| 0 <= j < b.len() implies a.contains(#[trigger] b[j]) by {
        assert(solution_text(puzzle, dict, b[j]));
        let m = choose|m: Seq<Letter>| solves(puzzle, dict, m) && b[j] == #[trigger] render_all(puzzle, m);
        assert(a.contains(render_all(puzzle, m)));
    }
    lemma_sorted_unique(longest_first(puzzle), puzzle, a, b);
}

} // verus!
