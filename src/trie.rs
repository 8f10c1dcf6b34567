use vstd::prelude::*;

verus! {

/// Number of letters in the alphabet, and of child slots in each node.
pub const ALPHABET: usize = 26;

/// Whether `c` is one of the uppercase Latin letters `A`..`Z`.
pub open spec fn is_upper(c: char) -> bool {
    'A' <= c && c <= 'Z'
}

/// The child slot that an uppercase letter selects (`A` is 0).
pub open spec fn slot_of(c: char) -> int {
    c as int - 'A' as int
}

/// Whether every character of `w` is an uppercase letter.
pub open spec fn all_upper(w: Seq<char>) -> bool {
    forall|i: int| 0 <= i < w.len() ==> is_upper(#[trigger] w[i])
}

/// Prefix tree over uppercase words: one optional child per letter, and a
/// flag that marks the end of a stored word.
pub struct Trie {
    nodes: Vec<Option<Box<Trie>>>,
    end: bool,
}

/// A word handed to `trie_insert` holds a character outside `A`..`Z`.
#[derive(Clone, Copy, Debug, PartialEq, Eq, Structural)]
pub enum InsertError {
    /// The character at this position (counted in characters) is not an
    /// uppercase letter.
    NotUppercase(usize),
}

impl Trie {
    /// Every node has exactly one slot per letter.
    pub closed spec fn wf(self) -> bool
        decreases self,
    {
        &&& self.nodes@.len() == ALPHABET
        &&& forall|i: int|
            0 <= i < ALPHABET ==> match #[trigger] self.nodes@[i] {
                Some(b) => b.wf(),
                None => true,
            }
    }

    /// Whether this node ends a stored word.
    pub closed spec fn terminal(self) -> bool {
        self.end
    }

    /// The child in slot `k`, if there is one.
    pub closed spec fn child_at(self, k: int) -> Option<Trie> {
        if 0 <= k < self.nodes@.len() {
            match self.nodes@[k] {
                Some(b) => Some(*b),
                None => None,
            }
        } else {
            None
        }
    }

    /// The child that character `c` leads to: none for a character outside
    /// `A`..`Z`.
    pub open spec fn step(self, c: char) -> Option<Trie> {
        if is_upper(c) {
            self.child_at(slot_of(c))
        } else {
            None
        }
    }

    /// The node reached by following the letters of `w` from this node.
    pub open spec fn walk(self, w: Seq<char>) -> Option<Trie>
        decreases w.len(),
    {
        if w.len() == 0 {
            Some(self)
        } else {
            match self.step(w[0]) {
                Some(t) => t.walk(w.drop_first()),
                None => None,
            }
        }
    }

    /// Whether following the letters of `w` ends on a terminal node.
    pub open spec fn accepts(self, w: Seq<char>) -> bool {
        match self.walk(w) {
            Some(t) => t.terminal(),
            None => false,
        }
    }
}

impl View for Trie {
    type V = Set<Seq<char>>;

    /// The set of words stored below this node.
    open spec fn view(&self) -> Set<Seq<char>> {
        Set::new(|w: Seq<char>| self.accepts(w))
    }
}

/// Whether `v` is a prefix of `w` (the empty word and `w` itself included).
pub open spec fn is_prefix(v: Seq<char>, w: Seq<char>) -> bool {
    v.len() <= w.len() && v == w.take(v.len() as int)
}

/// A non-empty word is a prefix of a non-empty word when their first letters
/// agree and the rest of one is a prefix of the rest of the other.
proof fn lemma_prefix_cons(v: Seq<char>, w: Seq<char>)
    requires
        v.len() > 0,
        w.len() > 0,
    ensures
        is_prefix(v, w) <==> (v[0] == w[0] && is_prefix(v.drop_first(), w.drop_first())),
{
    if is_prefix(v, w) {
        assert(v[0] == w.take(v.len() as int)[0]);
        assert(v.drop_first() =~= w.drop_first().take(v.drop_first().len() as int));
    }
    if v[0] == w[0] && is_prefix(v.drop_first(), w.drop_first()) {
        assert forall|j: int| 0 <= j < v.len() implies v[j] == w.take(v.len() as int)[j] by {
            if j > 0 {
                assert(v[j] == v.drop_first()[j - 1]);
                assert(v.drop_first()[j - 1] == w.drop_first().take(v.drop_first().len() as int)[j - 1]);
            }
        }
        assert(v =~= w.take(v.len() as int));
    }
}

/// Walking `u + v` walks `u` and then `v` from where `u` ends.
pub proof fn lemma_walk_concat(t: Trie, u: Seq<char>, v: Seq<char>)
    ensures
        t.walk(u + v) == (match t.walk(u) {
            Some(n) => n.walk(v),
            None => None,
        }),
    decreases u.len(),
{
    if u.len() == 0 {
        assert(u + v =~= v);
    } else {
        assert((u + v).drop_first() =~= u.drop_first() + v);
        match t.step(u[0]) {
            Some(n) => lemma_walk_concat(n, u.drop_first(), v),
            None => {},
        }
    }
}

/// Walking a word one letter further takes one more step.
pub proof fn lemma_walk_push(t: Trie, u: Seq<char>, c: char)
    ensures
        t.walk(u.push(c)) == (match t.walk(u) {
            Some(n) => n.step(c),
            None => None,
        }),
{
    lemma_walk_concat(t, u, seq![c]);
    assert(u.push(c) =~= u + seq![c]);
    match t.walk(u) {
        Some(n) => {
            assert(seq![c].drop_first() =~= Seq::<char>::empty());
            match n.step(c) {
                Some(m) => assert(m.walk(Seq::<char>::empty()) == Some(m)),
                None => {},
            }
        },
        None => {},
    }
}

/// A node with no children accepts no word but, when terminal, the empty one.
proof fn lemma_leaf_walk(t: Trie, w: Seq<char>)
    requires
        forall|k: int| 0 <= k < ALPHABET ==> #[trigger] t.child_at(k) is None,
        t.nodes@.len() == ALPHABET,
        w.len() > 0,
    ensures
        t.walk(w) is None,
{
    if is_upper(w[0]) {
        assert(t.child_at(slot_of(w[0])) is None);
    }
}

impl Trie {
    /// An empty trie: the root alone, which is not terminal.
    pub fn new() -> (t: Trie)
        ensures
            t.wf(),
            t@ == Set::<Seq<char>>::empty(),
            forall|k: int| #[trigger] t.child_at(k) is None,
            !t.terminal(),
    {
        let mut nodes: Vec<Option<Box<Trie>>> = Vec::new();
        let mut i: usize = 0;
        while i < ALPHABET
            invariant
                i <= ALPHABET,
                nodes@.len() == i,
                forall|k: int| 0 <= k < i ==> #[trigger] nodes@[k] is None,
            decreases ALPHABET - i,
        {
            nodes.push(None);
            i = i + 1;
        }
        let t = Trie { nodes, end: false };
        assert forall|w: Seq<char>| !t.accepts(w) by {
            if w.len() > 0 {
                lemma_leaf_walk(t, w);
            }
        }
        assert(t@ =~= Set::<Seq<char>>::empty());
        t
    }

    /// Whether this node ends a stored word.
    pub fn is_terminal(&self) -> (r: bool)
        ensures
            r == self.terminal(),
            r == self@.contains(Seq::<char>::empty()),
    {
        self.end
    }

    /// Whether `word` is stored: follows its letters from this node and
    /// reports whether the walk ends on a terminal node.
    pub fn contains(&self, word: &str) -> (r: bool)
        requires
            self.wf(),
        ensures
            r == self@.contains(word@),
    {
        let n: usize = word.unicode_len();
        let mut cur: &Trie = self;
        let mut i: usize = 0;
        while i < n
            invariant
                n == word@.len(),
                i <= n,
                cur.wf(),
                self.walk(word@.take(i as int)) == Some(*cur),
            decreases n - i,
        {
            let c = word.get_char(i);
            proof {
                lemma_walk_push(*self, word@.take(i as int), c);
                assert(word@.take(i as int).push(c) =~= word@.take(i as int + 1));
            }
            if !('A' <= c && c <= 'Z') {
                proof {
                    lemma_walk_concat(*self, word@.take(i as int + 1), word@.skip(i as int + 1));
                    assert(word@.take(i as int + 1) + word@.skip(i as int + 1) =~= word@);
                }
                return false;
            }
            match cur.child((c as u32 - 'A' as u32) as usize) {
                Some(next) => {
                    cur = next;
                },
                None => {
                    proof {
                        lemma_walk_concat(*self, word@.take(i as int + 1), word@.skip(i as int + 1));
                        assert(word@.take(i as int + 1) + word@.skip(i as int + 1) =~= word@);
                    }
                    return false;
                },
            }
            i = i + 1;
        }
        assert(word@.take(n as int) =~= word@);
        cur.end
    }

    /// The child reached by letter index `letter` (0 for `A`), if any.
    pub fn child(&self, letter: usize) -> (r: Option<&Trie>)
        ensures
            match r {
                Some(n) => self.child_at(letter as int) == Some(*n) && (self.wf() ==> n.wf()),
                None => self.child_at(letter as int) is None,
            },
    {
        if letter >= self.nodes.len() {
            return None;
        }
        match &self.nodes[letter] {
            Some(b) => Some(b),
            None => None,
        }
    }
}

/// Stores `w[i..]` below `node`, creating the missing nodes on the way.
fn insert_from(node: &mut Trie, w: &Vec<char>, i: usize)
    requires
        old(node).wf(),
        i <= w@.len(),
        all_upper(w@),
    ensures
        final(node).wf(),
        forall|v: Seq<char>|
            #[trigger] final(node).accepts(v) <==> old(node).accepts(v) || v == w@.skip(i as int),
        forall|v: Seq<char>|
            (#[trigger] final(node).walk(v)) is Some <==> (old(node).walk(v) is Some || is_prefix(v, w@.skip(i as int))),
        forall|v: Seq<char>| !is_prefix(v, w@.skip(i as int)) ==> #[trigger] final(node).walk(v) == old(node).walk(v),
    decreases w@.len() - i,
{
    let ghost before = *node;
    if i == w.len() {
        node.end = true;
        proof {
            assert forall|v: Seq<char>| #[trigger]
                node.accepts(v) <==> before.accepts(v) || v == w@.skip(i as int) by {
                assert(w@.skip(i as int).len() == 0);
                if v.len() > 0 {
                    assert(node.step(v[0]) == before.step(v[0]));
                    assert(v != w@.skip(i as int));
                } else {
                    assert(v =~= w@.skip(i as int));
                }
            }
            assert forall|v: Seq<char>| #[trigger] node.walk(v) == before.walk(v) || v.len() == 0 by {
                if v.len() > 0 {
                    assert(node.step(v[0]) == before.step(v[0]));
                }
            }
            assert forall|v: Seq<char>| v.len() == 0 implies is_prefix(v, w@.skip(i as int)) by {
                assert(v =~= w@.skip(i as int).take(0));
            }
        }
    } else {
        let c = w[i];
        let k: usize = (c as u32 - 'A' as u32) as usize;
        let mut taken: Option<Box<Trie>> = None;
        std::mem::swap(&mut taken, &mut node.nodes[k]);
        let mut sub = match taken {
            Some(b) => *b,
            None => Trie::new(),
        };
        let ghost sub0 = sub;
        insert_from(&mut sub, w, i + 1);
        node.nodes.set(k, Some(Box::new(sub)));
        proof {
            assert(node.nodes@ =~= before.nodes@.update(k as int, Some(Box::new(sub))));
            assert forall|v: Seq<char>| #[trigger]
                node.accepts(v) <==> before.accepts(v) || v == w@.skip(i as int) by {
                let tail = w@.skip(i as int);
                assert(tail.drop_first() =~= w@.skip(i as int + 1));
                if v.len() > 0 {
                    if v[0] == c {
                        assert(node.step(v[0]) == Some(sub));
                        assert(node.accepts(v) == sub.accepts(v.drop_first()));
                        if v == tail {
                        } else {
                            if v.drop_first() == tail.drop_first() {
                                assert(v =~= seq![v[0]] + v.drop_first());
                                assert(tail =~= seq![tail[0]] + tail.drop_first());
                            }
                        }
                        match before.step(v[0]) {
                            Some(b) => assert(b == sub0),
                            None => {
                                if v.drop_first().len() > 0 {
                                    lemma_leaf_walk(sub0, v.drop_first());
                                }
                                assert(!sub0.accepts(v.drop_first()));
                            },
                        }
                        assert(before.accepts(v) == sub0.accepts(v.drop_first()));
                        assert(v == tail <==> v.drop_first() == tail.drop_first());
                    } else {
                        assert(node.step(v[0]) == before.step(v[0]));
                        assert(v != tail);
                    }
                } else {
                    assert(v != tail);
                }
            }
            assert forall|v: Seq<char>|
                ((#[trigger] node.walk(v)) is Some <==> (before.walk(v) is Some || is_prefix(v, w@.skip(i as int))))
                && (!is_prefix(v, w@.skip(i as int)) ==> node.walk(v) == before.walk(v)) by {
                let tail = w@.skip(i as int);
                assert(tail.drop_first() =~= w@.skip(i as int + 1));
                if v.len() == 0 {
                    assert(v =~= tail.take(0));
                } else {
                    lemma_prefix_cons(v, tail);
                    let v1 = v.drop_first();
                    if v[0] == c {
                        assert(node.step(v[0]) == Some(sub));
                        assert(node.walk(v) == sub.walk(v1));
                        match before.step(v[0]) {
                            Some(b) => {
                                assert(b == sub0);
                                assert(before.walk(v) == sub0.walk(v1));
                            },
                            None => {
                                assert(before.walk(v) is None);
                                if v1.len() > 0 {
                                    lemma_leaf_walk(sub0, v1);
                                } else {
                                    assert(v1 =~= tail.drop_first().take(0));
                                }
                            },
                        }
                    } else {
                        assert(node.step(v[0]) == before.step(v[0]));
                    }
                }
            }
        }
    }
}

/// Stores `word` in the trie. A word with a character outside `A`..`Z` is
/// refused with the position of the first such character, and the trie is
/// left as it was.
pub fn trie_insert(trie: &mut Trie, word: &str) -> (r: Result<(), InsertError>)
    requires
        old(trie).wf(),
    ensures
        final(trie).wf(),
        match r {
            Ok(()) => {
                &&& all_upper(word@)
                &&& final(trie)@ == old(trie)@.insert(word@)
                &&& final(trie).walk(word@) matches Some(n) && n.terminal()
                &&& forall|v: Seq<char>| v != word@ ==> (#[trigger] final(trie).accepts(v) == old(trie).accepts(v))
                &&& forall|v: Seq<char>|
                    (#[trigger] final(trie).walk(v)) is Some <==> (old(trie).walk(v) is Some || is_prefix(v, word@))
                &&& forall|v: Seq<char>| !is_prefix(v, word@) ==> #[trigger] final(trie).walk(v) == old(trie).walk(v)
            },
            Err(InsertError::NotUppercase(p)) => {
                &&& p < word@.len()
                &&& !is_upper(word@[p as int])
                &&& all_upper(word@.take(p as int))
                &&& *final(trie) == *old(trie)
            },
        },
        r is Ok <==> all_upper(word@),
{
    let n: usize = word.unicode_len();
    let mut letters: Vec<char> = Vec::new();
    let mut i: usize = 0;
    while i < n
        invariant
            n == word@.len(),
            i <= n,
            *trie == *old(trie),
            trie.wf(),
            letters@ == word@.take(i as int),
            all_upper(letters@),
        decreases n - i,
    {
        let c = word.get_char(i);
        if !('A' <= c && c <= 'Z') {
            return Err(InsertError::NotUppercase(i));
        }
        letters.push(c);
        i = i + 1;
        assert(letters@ =~= word@.take(i as int));
    }
    assert(letters@ =~= word@);
    insert_from(trie, &letters, 0);
    assert(letters@.skip(0) =~= letters@);
    assert(trie@ =~= old(trie)@.insert(word@));
    assert(trie.accepts(word@));
    assert forall|v: Seq<char>| v != word@ implies (#[trigger] trie.accepts(v) == old(trie).accepts(v)) by {
        assert(trie.accepts(v) <==> old(trie).accepts(v) || v == letters@.skip(0));
    }
    assert(letters@.skip(0) == word@);
    Ok(())
}

impl Default for Trie {
    fn default() -> (t: Trie)
        ensures
            t.wf(),
            t@ == Set::<Seq<char>>::empty(),
    {
        Trie::new()
    }
}

} // verus!
