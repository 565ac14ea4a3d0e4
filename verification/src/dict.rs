//! The dictionary index: answers whether a string of characters is a known
//! word, a prefix of a known word, or either of the two.
//!
//! The index is modelled by the set of strings that were inserted into it
//! (the view of [`Words`]); every query is specified against that set alone.

use vstd::prelude::*;

verus! {

/// `s` is a non-empty strict prefix of `t`: shorter than `t` and equal to
/// its leading characters.
pub open spec fn is_strict_prefix_of(s: Seq<char>, t: Seq<char>) -> bool {
    1 <= s.len() < t.len() && s == t.take(s.len() as int)
}

/// `s` has an entry in an index loaded from the words `d`: it was inserted
/// itself, or it is a non-empty strict prefix of an inserted word.
pub open spec fn dict_has(d: Set<Seq<char>>, s: Seq<char>) -> bool {
    d.contains(s) || dict_is_prefix(d, s)
}

/// `s` counts as a word of the index loaded from `d`: it was inserted and it
/// is at least three characters long (shorter strings are never reported).
pub open spec fn dict_is_word(d: Set<Seq<char>>, s: Seq<char>) -> bool {
    d.contains(s) && s.len() >= 3
}

/// `s` is a non-empty strict prefix of some word of `d`.
pub open spec fn dict_is_prefix(d: Set<Seq<char>>, s: Seq<char>) -> bool {
    exists|t: Seq<char>| d.contains(t) && is_strict_prefix_of(s, t)
}

/// One stored entry: an exact string together with the two flags the
/// queries read. A string can carry both flags at once.
struct WordEntry {
    key: Vec<char>,
    is_word: bool,
    is_prefix: bool,
}

/// The dictionary index. Its view is the set of inserted words; the entries
/// the queries scan are kept in step with that set by [`Words::wf`].
pub struct Words {
    entries: Vec<WordEntry>,
    inserted: Ghost<Set<Seq<char>>>,
}

impl View for Words {
    type V = Set<Seq<char>>;

    closed spec fn view(&self) -> Set<Seq<char>> {
        self.inserted@
    }
}

impl Words {
    spec fn key_at(self, i: int) -> Seq<char> {
        self.entries@[i].key@
    }

    /// Some entry holds `s` with its word flag set.
    spec fn entry_word(self, s: Seq<char>) -> bool {
        exists|i: int|
            0 <= i < self.entries@.len() && #[trigger] self.key_at(i) == s
                && self.entries@[i].is_word
    }

    /// Some entry holds `s` with its prefix flag set.
    spec fn entry_prefix(self, s: Seq<char>) -> bool {
        exists|i: int|
            0 <= i < self.entries@.len() && #[trigger] self.key_at(i) == s
                && self.entries@[i].is_prefix
    }


    /// Keys are pairwise distinct and every entry carries at least one flag.
    spec fn entries_ok(self) -> bool {
        &&& forall|i: int, j: int|
            #![trigger self.key_at(i), self.key_at(j)]
            0 <= i < j < self.entries@.len() ==> self.key_at(i) != self.key_at(j)
        &&& forall|i: int|
            0 <= i < self.entries@.len() ==> ((#[trigger] self.entries@[i]).is_word
                || self.entries@[i].is_prefix)
    }

    /// The stored entries say exactly what the set of inserted words says:
    /// the word flag marks the inserted strings, the prefix flag marks their
    /// non-empty strict prefixes.
    pub closed spec fn wf(self) -> bool {
        &&& self.entries_ok()
        &&& forall|s: Seq<char>| #[trigger] self.entry_word(s) <==> self.inserted@.contains(s)
        &&& forall|s: Seq<char>| #[trigger]
            self.entry_prefix(s) <==> dict_is_prefix(self.inserted@, s)
    }

    /// An empty index: nothing inserted, every query false.
    pub fn new() -> (w: Words)
        ensures
            w.wf(),
            w@ == Set::<Seq<char>>::empty(),
    {
        let w = Words { entries: Vec::new(), inserted: Ghost(Set::empty()) };
        proof {
            assert forall|s: Seq<char>| !(#[trigger] w.entry_word(s)) by {}
            assert forall|s: Seq<char>| !(#[trigger] w.entry_prefix(s)) by {}
            assert forall|s: Seq<char>| !dict_is_prefix(w.inserted@, s) by {
                if dict_is_prefix(w.inserted@, s) {
                    let t = choose|t: Seq<char>|
                        w.inserted@.contains(t) && is_strict_prefix_of(s, t);
                }
            }
        }
        w
    }

    /// Is this string a known word or a prefix of a known word: the cheap
    /// existence check the search prunes with.
    pub fn has(&self, chars: Vec<char>) -> (r: bool)
        requires
            self.wf(),
        ensures
            r == dict_has(self@, chars@),
    {
        let mut i: usize = 0;
        while i < self.entries.len()
            invariant
                self.wf(),
                i <= self.entries@.len(),
                forall|j: int| 0 <= j < i ==> #[trigger] self.key_at(j) != chars@,
            decreases self.entries@.len() - i,
        {
            if chars_eq(&self.entries[i].key, &chars) {
                proof {
                    assert(self.key_at(i as int) == chars@);
                    let entry = self.entries@[i as int];
                    assert(entry.is_word || entry.is_prefix);
                    if entry.is_word {
                        assert(self.entry_word(chars@));
                    } else {
                        assert(self.entry_prefix(chars@));
                    }
                }
                return true;
            }
            i += 1;
        }
        proof {
            if self.entry_word(chars@) {
                let k = choose|k: int|
                    0 <= k < self.entries@.len() && #[trigger] self.key_at(k) == chars@
                        && self.entries@[k].is_word;
            }
            if self.entry_prefix(chars@) {
                let k = choose|k: int|
                    0 <= k < self.entries@.len() && #[trigger] self.key_at(k) == chars@
                        && self.entries@[k].is_prefix;
            }
        }
        false
    }

    /// Does this string have an entry whose word flag is set, and is it at
    /// least three characters long.
    pub fn is_word(&self, chars: Vec<char>) -> (r: bool)
        requires
            self.wf(),
        ensures
            r == dict_is_word(self@, chars@),
    {
        if chars.len() < 3 {
            return false;
        }
        let mut i: usize = 0;
        while i < self.entries.len()
            invariant
                self.wf(),
                chars@.len() >= 3,
                i <= self.entries@.len(),
                forall|j: int| 0 <= j < i ==> #[trigger] self.key_at(j) != chars@,
            decreases self.entries@.len() - i,
        {
            if chars_eq(&self.entries[i].key, &chars) {
                let w = self.entries[i].is_word;
                proof {
                    assert(self.key_at(i as int) == chars@);
                    if w {
                        assert(self.entry_word(chars@));
                    } else {
                        if self.entry_word(chars@) {
                            let k = choose|k: int|
                                0 <= k < self.entries@.len() && #[trigger] self.key_at(k)
                                    == chars@ && self.entries@[k].is_word;
                            assert(self.key_at(k) == self.key_at(i as int));
                        }
                    }
                }
                return w;
            }
            i += 1;
        }
        proof {
            if self.entry_word(chars@) {
                let k = choose|k: int|
                    0 <= k < self.entries@.len() && #[trigger] self.key_at(k) == chars@
                        && self.entries@[k].is_word;
            }
        }
        false
    }

    /// Does this string have an entry whose prefix flag is set.
    pub fn is_prefix(&self, chars: Vec<char>) -> (r: bool)
        requires
            self.wf(),
        ensures
            r == dict_is_prefix(self@, chars@),
    {
        let mut i: usize = 0;
        while i < self.entries.len()
            invariant
                self.wf(),
                i <= self.entries@.len(),
                forall|j: int| 0 <= j < i ==> #[trigger] self.key_at(j) != chars@,
            decreases self.entries@.len() - i,
        {
            if chars_eq(&self.entries[i].key, &chars) {
                let p = self.entries[i].is_prefix;
                proof {
                    assert(self.key_at(i as int) == chars@);
                    if p {
                        assert(self.entry_prefix(chars@));
                    } else {
                        if self.entry_prefix(chars@) {
                            let k = choose|k: int|
                                0 <= k < self.entries@.len() && #[trigger] self.key_at(k)
                                    == chars@ && self.entries@[k].is_prefix;
                            assert(self.key_at(k) == self.key_at(i as int));
                        }
                    }
                }
                return p;
            }
            i += 1;
        }
        proof {
            if self.entry_prefix(chars@) {
                let k = choose|k: int|
                    0 <= k < self.entries@.len() && #[trigger] self.key_at(k) == chars@
                        && self.entries@[k].is_prefix;
            }
        }
        false
    }
}

impl Words {
    /// Marks `key`'s entry as a prefix, creating the entry when it is
    /// absent; no other entry and no word flag changes.
    fn mark_prefix(&mut self, key: Vec<char>)
        requires
            old(self).entries_ok(),
        ensures
            final(self).entries_ok(),
            final(self).inserted == old(self).inserted,
            forall|s: Seq<char>|
                #![trigger final(self).entry_word(s)]
                #![trigger old(self).entry_word(s)]
                final(self).entry_word(s) <==> old(self).entry_word(s),
            forall|s: Seq<char>|
                #![trigger final(self).entry_prefix(s)]
                #![trigger old(self).entry_prefix(s)]
                final(self).entry_prefix(s) <==> (old(self).entry_prefix(s) || s == key@),
    {
        let ghost w0 = *self;
        let mut i: usize = 0;
        while i < self.entries.len()
            invariant
                *self == w0,
                w0 == *old(self),
                w0.entries_ok(),
                i <= self.entries@.len(),
                forall|j: int| 0 <= j < i ==> #[trigger] self.key_at(j) != key@,
            decreases self.entries@.len() - i,
        {
            if chars_eq(&self.entries[i].key, &key) {
                let k2 = copy_range(&self.entries[i].key, self.entries[i].key.len());
                let w = self.entries[i].is_word;
                proof {
                    assert(k2@ =~= w0.key_at(i as int));
                }
                self.entries[i] = WordEntry { key: k2, is_word: w, is_prefix: true };
                proof {
                    lemma_update_entry(w0, *self, i as int, key@);
                }
                return ;
            }
            i += 1;
        }
        self.entries.push(WordEntry { key, is_word: false, is_prefix: true });
        proof {
            lemma_push_entry(w0, *self, key@);
        }
    }

    /// Marks `key`'s entry as a word, creating the entry when it is absent;
    /// no other entry and no prefix flag changes.
    fn mark_word(&mut self, key: Vec<char>)
        requires
            old(self).entries_ok(),
        ensures
            final(self).entries_ok(),
            final(self).inserted == old(self).inserted,
            forall|s: Seq<char>|
                #![trigger final(self).entry_word(s)]
                #![trigger old(self).entry_word(s)]
                final(self).entry_word(s) <==> (old(self).entry_word(s) || s == key@),
            forall|s: Seq<char>|
                #![trigger final(self).entry_prefix(s)]
                #![trigger old(self).entry_prefix(s)]
                final(self).entry_prefix(s) <==> old(self).entry_prefix(s),
    {
        let ghost w0 = *self;
        let mut i: usize = 0;
        while i < self.entries.len()
            invariant
                *self == w0,
                w0 == *old(self),
                w0.entries_ok(),
                i <= self.entries@.len(),
                forall|j: int| 0 <= j < i ==> #[trigger] self.key_at(j) != key@,
            decreases self.entries@.len() - i,
        {
            if chars_eq(&self.entries[i].key, &key) {
                let k2 = copy_range(&self.entries[i].key, self.entries[i].key.len());
                let p = self.entries[i].is_prefix;
                proof {
                    assert(k2@ =~= w0.key_at(i as int));
                }
                self.entries[i] = WordEntry { key: k2, is_word: true, is_prefix: p };
                proof {
                    lemma_update_entry_word(w0, *self, i as int, key@);
                }
                return ;
            }
            i += 1;
        }
        self.entries.push(WordEntry { key, is_word: true, is_prefix: false });
        proof {
            lemma_push_entry_word(w0, *self, key@);
        }
    }
}

/// After replacing entry `i` by one with the same key, the same word flag
/// and the prefix flag set, the entry predicates shift by exactly that key.
proof fn lemma_update_entry(w0: Words, w1: Words, i: int, key: Seq<char>)
    requires
        w0.entries_ok(),
        0 <= i < w0.entries@.len(),
        w0.key_at(i) == key,
        w1.entries@ == w0.entries@.update(
            i,
            WordEntry { key: w1.entries@[i].key, is_word: w0.entries@[i].is_word, is_prefix: true },
        ),
        w1.key_at(i) == key,
    ensures
        w1.entries_ok(),
        forall|s: Seq<char>|
            #![trigger w1.entry_word(s)]
            #![trigger w0.entry_word(s)]
            w1.entry_word(s) <==> w0.entry_word(s),
        forall|s: Seq<char>|
            #![trigger w1.entry_prefix(s)]
            #![trigger w0.entry_prefix(s)]
            w1.entry_prefix(s) <==> (w0.entry_prefix(s) || s == key),
{
    assert forall|a: int| 0 <= a < w1.entries@.len() implies #[trigger] w1.key_at(a) == w0.key_at(
        a,
    ) by {}
    assert forall|s: Seq<char>| #[trigger] w1.entry_word(s) <==> w0.entry_word(s) by {
        if w1.entry_word(s) {
            let k = choose|k: int|
                0 <= k < w1.entries@.len() && #[trigger] w1.key_at(k) == s
                    && w1.entries@[k].is_word;
            assert(w0.key_at(k) == s && w0.entries@[k].is_word);
        }
        if w0.entry_word(s) {
            let k = choose|k: int|
                0 <= k < w0.entries@.len() && #[trigger] w0.key_at(k) == s
                    && w0.entries@[k].is_word;
            assert(w1.key_at(k) == s && w1.entries@[k].is_word);
        }
    }
    assert forall|s: Seq<char>| #[trigger]
        w1.entry_prefix(s) <==> (w0.entry_prefix(s) || s == key) by {
        if w1.entry_prefix(s) {
            let k = choose|k: int|
                0 <= k < w1.entries@.len() && #[trigger] w1.key_at(k) == s
                    && w1.entries@[k].is_prefix;
            if k != i {
                assert(w0.key_at(k) == s && w0.entries@[k].is_prefix);
            }
        }
        if w0.entry_prefix(s) {
            let k = choose|k: int|
                0 <= k < w0.entries@.len() && #[trigger] w0.key_at(k) == s
                    && w0.entries@[k].is_prefix;
            assert(w1.key_at(k) == s && w1.entries@[k].is_prefix);
        }
        if s == key {
            assert(w1.key_at(i) == s && w1.entries@[i].is_prefix);
        }
    }
}

/// After pushing a fresh prefix-only entry for `key`, the entry predicates
/// shift by exactly that key.
proof fn lemma_push_entry(w0: Words, w1: Words, key: Seq<char>)
    requires
        w0.entries_ok(),
        forall|j: int| 0 <= j < w0.entries@.len() ==> #[trigger] w0.key_at(j) != key,
        w1.entries@ == w0.entries@.push(w1.entries@.last()),
        w1.entries@.len() == w0.entries@.len() + 1,
        w1.key_at(w0.entries@.len() as int) == key,
        w1.entries@.last().is_prefix,
        !w1.entries@.last().is_word,
    ensures
        w1.entries_ok(),
        forall|s: Seq<char>|
            #![trigger w1.entry_word(s)]
            #![trigger w0.entry_word(s)]
            w1.entry_word(s) <==> w0.entry_word(s),
        forall|s: Seq<char>|
            #![trigger w1.entry_prefix(s)]
            #![trigger w0.entry_prefix(s)]
            w1.entry_prefix(s) <==> (w0.entry_prefix(s) || s == key),
{
    let n = w0.entries@.len() as int;
    assert forall|a: int| 0 <= a < n implies #[trigger] w1.key_at(a) == w0.key_at(a) by {}
    assert forall|s: Seq<char>| #[trigger] w1.entry_word(s) <==> w0.entry_word(s) by {
        if w1.entry_word(s) {
            let k = choose|k: int|
                0 <= k < w1.entries@.len() && #[trigger] w1.key_at(k) == s
                    && w1.entries@[k].is_word;
            assert(k != n);
            assert(w0.key_at(k) == s && w0.entries@[k].is_word);
        }
        if w0.entry_word(s) {
            let k = choose|k: int|
                0 <= k < w0.entries@.len() && #[trigger] w0.key_at(k) == s
                    && w0.entries@[k].is_word;
            assert(w1.key_at(k) == s && w1.entries@[k].is_word);
        }
    }
    assert forall|s: Seq<char>| #[trigger]
        w1.entry_prefix(s) <==> (w0.entry_prefix(s) || s == key) by {
        if w1.entry_prefix(s) {
            let k = choose|k: int|
                0 <= k < w1.entries@.len() && #[trigger] w1.key_at(k) == s
                    && w1.entries@[k].is_prefix;
            if k != n {
                assert(w0.key_at(k) == s && w0.entries@[k].is_prefix);
            }
        }
        if w0.entry_prefix(s) {
            let k = choose|k: int|
                0 <= k < w0.entries@.len() && #[trigger] w0.key_at(k) == s
                    && w0.entries@[k].is_prefix;
            assert(w1.key_at(k) == s && w1.entries@[k].is_prefix);
        }
        if s == key {
            assert(w1.key_at(n) == s && w1.entries@[n].is_prefix);
        }
    }
}

/// The counterpart of [`lemma_update_entry`] for setting the word flag.
proof fn lemma_update_entry_word(w0: Words, w1: Words, i: int, key: Seq<char>)
    requires
        w0.entries_ok(),
        0 <= i < w0.entries@.len(),
        w0.key_at(i) == key,
        w1.entries@ == w0.entries@.update(
            i,
            WordEntry { key: w1.entries@[i].key, is_word: true, is_prefix: w0.entries@[i].is_prefix },
        ),
        w1.key_at(i) == key,
    ensures
        w1.entries_ok(),
        forall|s: Seq<char>|
            #![trigger w1.entry_word(s)]
            #![trigger w0.entry_word(s)]
            w1.entry_word(s) <==> (w0.entry_word(s) || s == key),
        forall|s: Seq<char>|
            #![trigger w1.entry_prefix(s)]
            #![trigger w0.entry_prefix(s)]
            w1.entry_prefix(s) <==> w0.entry_prefix(s),
{
    assert forall|a: int| 0 <= a < w1.entries@.len() implies #[trigger] w1.key_at(a) == w0.key_at(
        a,
    ) by {}
    assert forall|s: Seq<char>| #[trigger]
        w1.entry_word(s) <==> (w0.entry_word(s) || s == key) by {
        if w1.entry_word(s) {
            let k = choose|k: int|
                0 <= k < w1.entries@.len() && #[trigger] w1.key_at(k) == s
                    && w1.entries@[k].is_word;
            if k != i {
                assert(w0.key_at(k) == s && w0.entries@[k].is_word);
            }
        }
        if w0.entry_word(s) {
            let k = choose|k: int|
                0 <= k < w0.entries@.len() && #[trigger] w0.key_at(k) == s
                    && w0.entries@[k].is_word;
            assert(w1.key_at(k) == s && w1.entries@[k].is_word);
        }
        if s == key {
            assert(w1.key_at(i) == s && w1.entries@[i].is_word);
        }
    }
    assert forall|s: Seq<char>| #[trigger] w1.entry_prefix(s) <==> w0.entry_prefix(s) by {
        if w1.entry_prefix(s) {
            let k = choose|k: int|
                0 <= k < w1.entries@.len() && #[trigger] w1.key_at(k) == s
                    && w1.entries@[k].is_prefix;
            assert(w0.key_at(k) == s && w0.entries@[k].is_prefix);
        }
        if w0.entry_prefix(s) {
            let k = choose|k: int|
                0 <= k < w0.entries@.len() && #[trigger] w0.key_at(k) == s
                    && w0.entries@[k].is_prefix;
            assert(w1.key_at(k) == s && w1.entries@[k].is_prefix);
        }
    }
}

/// The counterpart of [`lemma_push_entry`] for a fresh word-only entry.
proof fn lemma_push_entry_word(w0: Words, w1: Words, key: Seq<char>)
    requires
        w0.entries_ok(),
        forall|j: int| 0 <= j < w0.entries@.len() ==> #[trigger] w0.key_at(j) != key,
        w1.entries@ == w0.entries@.push(w1.entries@.last()),
        w1.entries@.len() == w0.entries@.len() + 1,
        w1.key_at(w0.entries@.len() as int) == key,
        w1.entries@.last().is_word,
        !w1.entries@.last().is_prefix,
    ensures
        w1.entries_ok(),
        forall|s: Seq<char>|
            #![trigger w1.entry_word(s)]
            #![trigger w0.entry_word(s)]
            w1.entry_word(s) <==> (w0.entry_word(s) || s == key),
        forall|s: Seq<char>|
            #![trigger w1.entry_prefix(s)]
            #![trigger w0.entry_prefix(s)]
            w1.entry_prefix(s) <==> w0.entry_prefix(s),
{
    let n = w0.entries@.len() as int;
    assert forall|a: int| 0 <= a < n implies #[trigger] w1.key_at(a) == w0.key_at(a) by {}
    assert forall|s: Seq<char>| #[trigger]
        w1.entry_word(s) <==> (w0.entry_word(s) || s == key) by {
        if w1.entry_word(s) {
            let k = choose|k: int|
                0 <= k < w1.entries@.len() && #[trigger] w1.key_at(k) == s
                    && w1.entries@[k].is_word;
            if k != n {
                assert(w0.key_at(k) == s && w0.entries@[k].is_word);
            }
        }
        if w0.entry_word(s) {
            let k = choose|k: int|
                0 <= k < w0.entries@.len() && #[trigger] w0.key_at(k) == s
                    && w0.entries@[k].is_word;
            assert(w1.key_at(k) == s && w1.entries@[k].is_word);
        }
        if s == key {
            assert(w1.key_at(n) == s && w1.entries@[n].is_word);
        }
    }
    assert forall|s: Seq<char>| #[trigger] w1.entry_prefix(s) <==> w0.entry_prefix(s) by {
        if w1.entry_prefix(s) {
            let k = choose|k: int|
                0 <= k < w1.entries@.len() && #[trigger] w1.key_at(k) == s
                    && w1.entries@[k].is_prefix;
            assert(k != n);
            assert(w0.key_at(k) == s && w0.entries@[k].is_prefix);
        }
        if w0.entry_prefix(s) {
            let k = choose|k: int|
                0 <= k < w0.entries@.len() && #[trigger] w0.key_at(k) == s
                    && w0.entries@[k].is_prefix;
            assert(w1.key_at(k) == s && w1.entries@[k].is_prefix);
        }
    }
}

/// Two index values with the same entries answer every entry predicate the
/// same way, whatever their ghost views hold.
proof fn lemma_same_entries(w1: Words, w2: Words)
    requires
        w1.entries@ == w2.entries@,
    ensures
        w1.entries_ok() <==> w2.entries_ok(),
        forall|s: Seq<char>|
            #![trigger w1.entry_word(s)]
            #![trigger w2.entry_word(s)]
            w1.entry_word(s) <==> w2.entry_word(s),
        forall|s: Seq<char>|
            #![trigger w1.entry_prefix(s)]
            #![trigger w2.entry_prefix(s)]
            w1.entry_prefix(s) <==> w2.entry_prefix(s),
{
    assert forall|a: int| 0 <= a < w1.entries@.len() implies #[trigger] w1.key_at(a) == w2.key_at(
        a,
    ) by {}
    assert forall|a: int| 0 <= a < w2.entries@.len() implies #[trigger] w2.key_at(a) == w1.key_at(
        a,
    ) by {}
    assert forall|s: Seq<char>| #[trigger] w1.entry_word(s) <==> w2.entry_word(s) by {
        if w1.entry_word(s) {
            let k = choose|k: int|
                0 <= k < w1.entries@.len() && #[trigger] w1.key_at(k) == s
                    && w1.entries@[k].is_word;
            assert(w2.key_at(k) == s && w2.entries@[k].is_word);
        }
        if w2.entry_word(s) {
            let k = choose|k: int|
                0 <= k < w2.entries@.len() && #[trigger] w2.key_at(k) == s
                    && w2.entries@[k].is_word;
            assert(w1.key_at(k) == s && w1.entries@[k].is_word);
        }
    }
    assert forall|s: Seq<char>| #[trigger] w1.entry_prefix(s) <==> w2.entry_prefix(s) by {
        if w1.entry_prefix(s) {
            let k = choose|k: int|
                0 <= k < w1.entries@.len() && #[trigger] w1.key_at(k) == s
                    && w1.entries@[k].is_prefix;
            assert(w2.key_at(k) == s && w2.entries@[k].is_prefix);
        }
        if w2.entry_prefix(s) {
            let k = choose|k: int|
                0 <= k < w2.entries@.len() && #[trigger] w2.key_at(k) == s
                    && w2.entries@[k].is_prefix;
            assert(w1.key_at(k) == s && w1.entries@[k].is_prefix);
        }
    }
}

/// Inserts one word: every non-empty strict prefix of `line` is marked as a
/// prefix, then `line` itself is marked as a word. Doing this twice with the
/// same word leaves the index where one insertion left it, since the view
/// only gains `line` once.
pub fn add_all(words: &mut Words, line: Vec<char>)
    requires
        old(words).wf(),
    ensures
        final(words).wf(),
        final(words)@ == old(words)@.insert(line@),
{
    let ghost d0 = words.inserted@;
    let ghost lv = line@;
    let n = line.len();
    let mut i: usize = 1;
    while i < n
        invariant
            words.entries_ok(),
            words.inserted@ == d0,
            n == lv.len(),
            line@ == lv,
            1 <= i,
            i <= n || i == 1,
            forall|s: Seq<char>| #[trigger] words.entry_word(s) <==> d0.contains(s),
            forall|s: Seq<char>| #[trigger]
                words.entry_prefix(s) <==> (dict_is_prefix(d0, s) || (exists|j: int|
                    1 <= j < i && s == lv.take(j))),
        decreases n - i,
    {
        let ghost w_before = *words;
        let p = copy_range(&line, i);
        words.mark_prefix(p);
        proof {
            let iv = i as int;
            assert forall|s: Seq<char>| #[trigger]
                words.entry_prefix(s) <==> (dict_is_prefix(d0, s) || (exists|j: int|
                    1 <= j < iv + 1 && s == lv.take(j))) by {
                assert(words.entry_prefix(s) <==> (w_before.entry_prefix(s) || s == lv.take(iv)));
                if words.entry_prefix(s) {
                    if w_before.entry_prefix(s) {
                        if !dict_is_prefix(d0, s) {
                            let j = choose|j: int| 1 <= j < iv && s == lv.take(j);
                            assert(1 <= j < iv + 1 && s == lv.take(j));
                        }
                    } else {
                        assert(s == lv.take(iv));
                        assert(1 <= iv < iv + 1 && s == lv.take(iv));
                    }
                }
                if dict_is_prefix(d0, s) {
                    assert(w_before.entry_prefix(s));
                }
                if exists|j: int| 1 <= j < iv + 1 && s == lv.take(j) {
                    let j = choose|j: int| 1 <= j < iv + 1 && s == lv.take(j);
                    if j < iv {
                        assert(w_before.entry_prefix(s));
                    } else {
                        assert(s == lv.take(iv));
                    }
                }
            }
        }
        i += 1;
    }
    let ghost w_mid = *words;
    words.mark_word(line);
    let ghost w_marked = *words;
    words.inserted = Ghost(d0.insert(lv));
    proof {
        lemma_same_entries(*words, w_marked);
        assert forall|s: Seq<char>| #[trigger]
            words.entry_word(s) <==> d0.insert(lv).contains(s) by {
            assert(words.entry_word(s) <==> w_marked.entry_word(s));
            assert(w_marked.entry_word(s) <==> (w_mid.entry_word(s) || s == lv));
        }
        assert forall|s: Seq<char>| #[trigger]
            words.entry_prefix(s) <==> dict_is_prefix(d0.insert(lv), s) by {
            assert(words.entry_prefix(s) <==> w_marked.entry_prefix(s));
            assert(w_marked.entry_prefix(s) <==> w_mid.entry_prefix(s));
            assert(w_mid.entry_prefix(s) <==> (dict_is_prefix(d0, s) || (exists|j: int|
                1 <= j < n && s == lv.take(j))));
            if w_mid.entry_prefix(s) {
                if dict_is_prefix(d0, s) {
                    let t = choose|t: Seq<char>| d0.contains(t) && is_strict_prefix_of(s, t);
                    assert(d0.insert(lv).contains(t) && is_strict_prefix_of(s, t));
                } else {
                    let j = choose|j: int| 1 <= j < n && s == lv.take(j);
                    assert(s.len() == j);
                    assert(is_strict_prefix_of(s, lv));
                    assert(d0.insert(lv).contains(lv));
                }
            }
            if dict_is_prefix(d0.insert(lv), s) {
                let t = choose|t: Seq<char>|
                    d0.insert(lv).contains(t) && is_strict_prefix_of(s, t);
                if d0.contains(t) {
                    assert(dict_is_prefix(d0, s));
                } else {
                    assert(t == lv);
                    let j = s.len() as int;
                    assert(1 <= j < n && s == lv.take(j));
                }
            }
        }
        assert(words@ == d0.insert(lv));
    }
}

/// The fatal condition of the dictionary load: an index cannot be built
/// from an empty word list.
#[derive(Clone, Copy, Debug, PartialEq, Eq, Structural)]
pub enum DictError {
    EmptySource,
}

/// The set of strings that a list of lines holds.
pub open spec fn lines_set(lines: Seq<Vec<char>>) -> Set<Seq<char>> {
    Set::new(|s: Seq<char>| exists|i: int| 0 <= i < lines.len() && (#[trigger] lines[i])@ == s)
}

impl Words {
    /// Builds the index from one word per line. An empty list is the fatal
    /// load error; otherwise the view is exactly the set of lines.
    pub fn from_lines(lines: &Vec<Vec<char>>) -> (r: Result<Words, DictError>)
        ensures
            r matches Err(e) ==> e == DictError::EmptySource && lines@.len() == 0,
            r matches Ok(w) ==> lines@.len() > 0 && w.wf() && w@ == lines_set(lines@),
    {
        if lines.len() == 0 {
            return Err(DictError::EmptySource);
        }
        let mut w = Words::new();
        proof {
            assert(w@ =~= lines_set(lines@.take(0)));
        }
        let mut i: usize = 0;
        while i < lines.len()
            invariant
                w.wf(),
                i <= lines@.len(),
                w@ == lines_set(lines@.take(i as int)),
            decreases lines@.len() - i,
        {
            let line = copy_range(&lines[i], lines[i].len());
            proof {
                assert(line@ =~= lines@[i as int]@);
            }
            add_all(&mut w, line);
            proof {
                let iv = i as int;
                assert forall|s: Seq<char>|
                    #[trigger] w@.contains(s) <==> lines_set(lines@.take(iv + 1)).contains(
                    s,
                ) by {
                    if w@.contains(s) {
                        if s == lines@[iv]@ {
                            assert(lines@.take(iv + 1)[iv]@ == s);
                        } else {
                            let j = choose|j: int|
                                0 <= j < lines@.take(iv).len() && (#[trigger] lines@.take(
                                    iv,
                                )[j])@ == s;
                            assert(lines@.take(iv + 1)[j]@ == s);
                        }
                    }
                    if lines_set(lines@.take(iv + 1)).contains(s) {
                        let j = choose|j: int|
                            0 <= j < lines@.take(iv + 1).len() && (#[trigger] lines@.take(
                                iv + 1,
                            )[j])@ == s;
                        if j < iv {
                            assert(lines@.take(iv)[j]@ == s);
                            assert(lines_set(lines@.take(iv)).contains(s));
                        } else {
                            assert(s == lines@[iv]@);
                        }
                    }
                }
                assert(w@ =~= lines_set(lines@.take(iv + 1)));
            }
            i += 1;
        }
        proof {
            assert(lines@.take(lines@.len() as int) =~= lines@);
        }
        Ok(w)
    }
}

/// Law: an inserted word of three or more characters answers the word query
/// with true, and answers the prefix query with true exactly when some
/// other inserted word has it as a strict prefix. Words shorter than three
/// characters are left out: the index never reports them as words.
pub proof fn lemma_inserted_word_flags(d: Set<Seq<char>>, w: Seq<char>)
    requires
        d.contains(w),
        w.len() >= 3,
    ensures
        dict_is_word(d, w),
        dict_is_prefix(d, w) <==> exists|t: Seq<char>|
            d.contains(t) && is_strict_prefix_of(w, t),
{
}

/// Law: a string of fewer than three characters is never a word, whatever
/// the dictionary holds.
pub proof fn lemma_short_strings_no_words(d: Set<Seq<char>>, s: Seq<char>)
    requires
        s.len() < 3,
    ensures
        !dict_is_word(d, s),
{
}

/// Law: inserting the same word twice leaves the index in the state one
/// insertion reaches, since the view of [`add_all`] only ever gains the
/// inserted word.
pub proof fn lemma_insert_idempotent(d: Set<Seq<char>>, w: Seq<char>)
    ensures
        d.insert(w).insert(w) == d.insert(w),
{
    assert(d.insert(w).insert(w) =~= d.insert(w));
}

/// Law: pruning is sound. When a non-empty string `s` is neither a word nor
/// a prefix of one, no extension `t` of `s` can be a word, nor even have an
/// entry, so a search branch spelling `s` can be cut without losing words.
pub proof fn lemma_prune_sound(d: Set<Seq<char>>, s: Seq<char>, t: Seq<char>)
    requires
        !dict_has(d, s),
        1 <= s.len() <= t.len(),
        s == t.take(s.len() as int),
    ensures
        !dict_has(d, t),
        !dict_is_word(d, t),
{
    if d.contains(t) {
        if s.len() == t.len() {
            assert(s =~= t);
        } else {
            assert(is_strict_prefix_of(s, t));
        }
        assert(dict_has(d, s));
    }
    if dict_is_prefix(d, t) {
        let u = choose|u: Seq<char>| d.contains(u) && is_strict_prefix_of(t, u);
        assert(u.take(t.len() as int).take(s.len() as int) =~= u.take(s.len() as int));
        assert(is_strict_prefix_of(s, u));
        assert(dict_has(d, s));
    }
}

/// Copies the first `n` characters of `v`.
fn copy_range(v: &Vec<char>, n: usize) -> (r: Vec<char>)
    requires
        n <= v@.len(),
    ensures
        r@ == v@.take(n as int),
{
    let mut r: Vec<char> = Vec::new();
    let mut i: usize = 0;
    while i < n
        invariant
            n <= v@.len(),
            i <= n,
            r@.len() == i,
            forall|j: int| 0 <= j < i ==> r@[j] == v@[j],
        decreases n - i,
    {
        r.push(v[i]);
        i += 1;
    }
    proof {
        assert(r@ =~= v@.take(n as int));
    }
    r
}

/// Character-by-character equality of two character vectors.
fn chars_eq(a: &Vec<char>, b: &Vec<char>) -> (r: bool)
    ensures
        r == (a@ == b@),
{
    if a.len() != b.len() {
        return false;
    }
    let mut i: usize = 0;
    while i < a.len()
        invariant
            a@.len() == b@.len(),
            i <= a@.len(),
            forall|j: int| 0 <= j < i ==> a@[j] == b@[j],
        decreases a@.len() - i,
    {
        if a[i] != b[i] {
            return false;
        }
        i += 1;
    }
    proof {
        assert(a@ =~= b@);
    }
    true
}

} // verus!
