use vstd::prelude::*;

verus! {

/// A node of the prefix tree; the whole tree is its root node.
///
/// A root-to-node path spells a prefix, and `is_end_of_word` marks the
/// prefixes that were inserted as complete words.
pub struct Trie {
    children: Vec<Trie>,
    is_end_of_word: bool,
    value: char,
}

impl Trie {
    /// Whether the word `w`, read from this node downwards, is stored.
    pub closed spec fn holds(self, w: Seq<char>) -> bool
        decreases w.len(),
    {
        if w.len() == 0 {
            self.is_end_of_word
        } else {
            exists|i: int|
                0 <= i < self.children@.len() && (#[trigger] self.children@[i]).value == w[0]
                    && self.children@[i].holds(w.drop_first())
        }
    }

    /// The character on the edge into this node.
    pub closed spec fn label(self) -> char {
        self.value
    }

    /// Whether `x` is `prefix` followed by a word stored below this node.
    pub closed spec fn completes(self, prefix: Seq<char>, x: Seq<char>) -> bool {
        prefix.is_prefix_of(x) && self.holds(x.skip(prefix.len() as int))
    }

    /// The stored words that start with `q`.
    pub open spec fn completions(self, q: Seq<char>) -> Set<Seq<char>> {
        self@.filter(|w: Seq<char>| q.is_prefix_of(w))
    }

    /// The stored words that surely begin with `q` under `key`.
    pub open spec fn sure_completions_by<F: Fn(char, char) -> bool>(self, q: Seq<char>, key: F) -> Set<
        Seq<char>,
    > {
        self@.filter(|w: Seq<char>| must_start_like(key, q, w))
    }

    /// The stored words that may begin with `q` under `key`.
    pub open spec fn possible_completions_by<F: Fn(char, char) -> bool>(
        self,
        q: Seq<char>,
        key: F,
    ) -> Set<Seq<char>> {
        self@.filter(|w: Seq<char>| may_start_like(key, q, w))
    }

    /// Whether some word is stored below this node.
    pub closed spec fn stores_some(self) -> bool {
        exists|w: Seq<char>| self.holds(w)
    }

    /// No two children of any node carry the same character, and every node
    /// below the root lies on the path of some stored word.
    pub closed spec fn wf(self) -> bool
        decreases self,
    {
        &&& forall|i: int, j: int|
            0 <= i < j < self.children.len() ==> (#[trigger] self.children[i]).value
                != (#[trigger] self.children[j]).value
        &&& forall|i: int| 0 <= i < self.children.len() ==> (#[trigger] self.children[i]).stores_some()
        &&& forall|i: int| 0 <= i < self.children.len() ==> (#[trigger] self.children[i]).wf()
    }

    /// An empty trie: a root that stores no word. Its own character `$` is
    /// never compared, since only children are matched.
    pub fn new() -> (t: Trie)
        ensures
            t.wf(),
            t@ == Set::<Seq<char>>::empty(),
    {
        let t = Trie { children: Vec::new(), is_end_of_word: false, value: '$' };
        assert(t@ =~= Set::<Seq<char>>::empty());
        t
    }

    /// Adds `word` to the stored words.
    pub fn add_word_mut(&mut self, word: &str)
        requires
            old(self).wf(),
        ensures
            final(self).wf(),
            final(self)@ == old(self)@.insert(word@),
            final(self).label() == old(self).label(),
        decreases word@.len(),
    {
        if word.unicode_len() == 0 {
            self.is_end_of_word = true;
            proof {
                assert(self.children@ == old(self).children@);
                assert(self.wf());
                assert forall|w: Seq<char>| self.holds(w) == (old(self).holds(w) || w == word@) by {
                    if w.len() > 0 {
                        assert(self.children@ == old(self).children@);
                    } else {
                        assert(w =~= word@);
                    }
                }
                assert(self@ =~= old(self)@.insert(word@));
            }
            return;
        }
        let first_char = word.get_char(0);
        let i = match self.find_child(first_char) {
            Some(i) => i,
            None => {
                self.children.push(Trie { children: Vec::new(), is_end_of_word: false, value: first_char });
                proof {
                    let fresh = self.children@.last();
                    assert forall|w: Seq<char>| !fresh.holds(w) by {
                        if w.len() > 0 {
                            assert(fresh.children@.len() == 0);
                        }
                    }
                }
                self.children.len() - 1
            },
        };
        let ghost mid = *self;
        assert(mid.children@[i as int].value == word@[0]);
        let tail = get_tail(word);
        self.children[i].add_word_mut(tail);
        proof {
            assert(self.children@[i as int]@.contains(tail@));
            assert forall|j: int| 0 <= j < self.children@.len() implies (
            #[trigger] self.children@[j]).stores_some() by {
                if j == i {
                    assert(self.children@[j].holds(tail@));
                } else {
                    assert(self.children@[j] == old(self).children@[j]);
                }
            }
            assert(self.wf());
            assert(self.children@ == mid.children@.update(i as int, self.children@[i as int]));
            assert forall|w: Seq<char>| self.holds(w) == (old(self).holds(w) || w == word@) by {
                if w.len() > 0 {
                    if self.holds(w) {
                        let j = choose|j: int|
                            0 <= j < self.children@.len() && (#[trigger] self.children@[j]).value
                                == w[0] && self.children@[j].holds(w.drop_first());
                        if j != i {
                            assert(mid.children@[j] == self.children@[j]);
                            assert(mid.holds(w));
                        } else if w != word@ {
                            assert(w[0] == word@[0]);
                            assert(w.drop_first() != tail@) by {
                                if w.drop_first() == tail@ {
                                    assert(w.len() == word@.len());
                                    assert forall|k: int| 0 <= k < w.len() implies w[k] == word@[k] by {
                                        if k > 0 {
                                            assert(w[k] == w.drop_first()[k - 1]);
                                            assert(word@[k] == word@.drop_first()[k - 1]);
                                        }
                                    }
                                    assert(w =~= word@);
                                }
                            }
                            assert(self.children@[j]@.contains(w.drop_first()));
                            assert(mid.children@[j]@.contains(w.drop_first()));
                            assert(mid.holds(w));
                        }
                    }
                    if mid.holds(w) {
                        let j = choose|j: int|
                            0 <= j < mid.children@.len() && (#[trigger] mid.children@[j]).value
                                == w[0] && mid.children@[j].holds(w.drop_first());
                        assert(self.children@[j].value == w[0]);
                        if j == i {
                            assert(mid.children@[j]@.contains(w.drop_first()));
                            assert(self.children@[j]@.contains(w.drop_first()));
                        }
                        assert(self.holds(w));
                    }
                    if w == word@ {
                        assert(self.children@[i as int]@.contains(w.drop_first()));
                    }
                    if old(self).holds(w) {
                        let j = choose|j: int|
                            0 <= j < old(self).children@.len() && (#[trigger] old(self).children@[j]).value
                                == w[0] && old(self).children@[j].holds(w.drop_first());
                        assert(mid.children@[j] == old(self).children@[j]);
                    }
                    assert(mid.holds(w) == old(self).holds(w));
                } else {
                    assert(mid.is_end_of_word == old(self).is_end_of_word);
                    assert(w != word@);
                }
            }
            assert(self@ =~= old(self)@.insert(word@));
        }
    }

    /// Every stored word that starts with `query`, each once, in no set order.
    pub fn predict(&self, query: &str) -> (r: Vec<String>)
        requires
            self.wf(),
        ensures
            texts(r@).no_duplicates(),
            texts(r@).to_set() == self.completions(query@),
    {
        match self.get_subtree(query) {
            Some(tree) => {
                let r = tree.predict_helper(query);
                proof {
                    assert forall|x: Seq<char>|
                        texts(r@).contains(x) == self.completions(query@).contains(x) by {
                        if query@.is_prefix_of(x) {
                            assert(x =~= query@ + x.skip(query@.len() as int));
                        }
                    }
                    assert(texts(r@).to_set() =~= self.completions(query@));
                }
                r
            },
            None => {
                let r: Vec<String> = Vec::new();
                proof {
                    assert forall|x: Seq<char>| !self.completions(query@).contains(x) by {
                        if query@.is_prefix_of(x) {
                            assert(x =~= query@ + x.skip(query@.len() as int));
                        }
                    }
                    assert(texts(r@).to_set() =~= self.completions(query@));
                }
                r
            },
        }
    }

    /// Every stored word that begins with `query` under `key`, each once, in
    /// no set order. `key` compares a character of `query` (first) with a
    /// stored character (second); the words come back as they were stored.
    /// For a `key` whose answer its `ensures` fixes, the two bounds below
    /// meet and give the result exactly.
    pub fn predict_by_key<F: Fn(char, char) -> bool>(&self, query: &str, key: F) -> (r: Vec<String>)
        requires
            self.wf(),
            forall|a: char, b: char| key.requires((a, b)),
        ensures
            texts(r@).no_duplicates(),
            self.sure_completions_by(query@, key) <= texts(r@).to_set(),
            texts(r@).to_set() <= self.possible_completions_by(query@, key),
    {
        let r = self.predict_by_key_helper(query, &key, "");
        proof {
            reveal_strlit("");
            assert forall|x: Seq<char>| self.sure_completions_by(query@, key).contains(x) implies texts(
                r@,
            ).contains(x) by {
                assert(x.skip(0) =~= x);
                assert(Seq::<char>::empty().is_prefix_of(x));
            }
            assert forall|x: Seq<char>| texts(r@).contains(x) implies self.possible_completions_by(
                query@,
                key,
            ).contains(x) by {
                assert(x.skip(0) =~= x);
            }
        }
        r
    }

    /// The words stored below this node that begin with `query` under `key`,
    /// each written after `string_so_far`.
    fn predict_by_key_helper<F: Fn(char, char) -> bool>(
        &self,
        query: &str,
        key: &F,
        string_so_far: &str,
    ) -> (r: Vec<String>)
        requires
            self.wf(),
            forall|a: char, b: char| key.requires((a, b)),
        ensures
            texts(r@).no_duplicates(),
            forall|x: Seq<char>|
                #[trigger] texts(r@).contains(x) ==> self.completes(string_so_far@, x) && may_start_like(
                    *key,
                    query@,
                    x.skip(string_so_far@.len() as int),
                ),
            forall|x: Seq<char>|
                self.completes(string_so_far@, x) && must_start_like(
                    *key,
                    query@,
                    x.skip(string_so_far@.len() as int),
                ) ==> #[trigger] texts(r@).contains(x),
        decreases query@.len(),
    {
        let ghost p = string_so_far@;
        if query.unicode_len() == 0 {
            return self.predict_helper(string_so_far);
        }
        let first_char = query.get_char(0);
        let tail = get_tail(query);
        let mut to_return: Vec<String> = Vec::new();
        let mut i: usize = 0;
        while i < self.children.len()
            invariant
                self.wf(),
                forall|a: char, b: char| key.requires((a, b)),
                p == string_so_far@,
                query@.len() > 0,
                first_char == query@[0],
                tail@ == query@.drop_first(),
                i <= self.children@.len(),
                texts(to_return@).no_duplicates(),
                forall|x: Seq<char>|
                    #[trigger] texts(to_return@).contains(x) ==> exists|j: int|
                        0 <= j < i && may_accept(*key, first_char, (#[trigger] self.children@[j]).value)
                            && self.children@[j].completes(p.push(self.children@[j].value), x)
                            && may_start_like(*key, tail@, x.skip(p.len() as int + 1)),
                forall|x: Seq<char>, j: int|
                    0 <= j < i && must_accept(*key, first_char, (#[trigger] self.children@[j]).value)
                        && self.children@[j].completes(p.push(self.children@[j].value), x)
                        && must_start_like(*key, tail@, x.skip(p.len() as int + 1))
                        ==> #[trigger] texts(to_return@).contains(x),
            decreases self.children@.len() - i,
        {
            let child = &self.children[i];
            if key(first_char, child.value) {
                let mut owned_string = String::from_str(string_so_far);
                push_char(&mut owned_string, child.value);
                let mut more = child.predict_by_key_helper(tail, key, owned_string.as_str());
                let ghost before = to_return@;
                let ghost added = more@;
                proof {
                    let q = p.push(child.value);
                    assert(q.len() == p.len() + 1);
                    assert forall|x: Seq<char>| texts(before).contains(x) implies !texts(added).contains(x) by {
                        if texts(added).contains(x) {
                            assert(x[p.len() as int] == q[p.len() as int]);
                            let j = choose|j: int|
                                0 <= j < i && may_accept(*key, first_char, (#[trigger] self.children@[j]).value)
                                    && self.children@[j].completes(p.push(self.children@[j].value), x)
                                    && may_start_like(*key, tail@, x.skip(p.len() as int + 1));
                            assert(x[p.len() as int] == p.push(self.children@[j].value)[p.len() as int]);
                        }
                    }
                    lemma_join(before, added);
                }
                to_return.append(&mut more);
            }
            i = i + 1;
        }
        proof {
            assert forall|x: Seq<char>| #[trigger] texts(to_return@).contains(x) implies self.completes(
                p,
                x,
            ) && may_start_like(*key, query@, x.skip(p.len() as int)) by {
                let rest = x.skip(p.len() as int);
                let j = choose|j: int|
                    0 <= j < self.children@.len() && may_accept(*key, first_char, (#[trigger] self.children@[j]).value)
                        && self.children@[j].completes(p.push(self.children@[j].value), x)
                        && may_start_like(*key, tail@, x.skip(p.len() as int + 1));
                assert(rest.drop_first() =~= x.skip(p.len() as int + 1));
                assert(x[p.len() as int] == p.push(self.children@[j].value)[p.len() as int]);
                assert(rest[0] == self.children@[j].value);
                assert(p =~= x.subrange(0, p.len() as int));
                assert(self.holds(rest));
                assert forall|k: int| 0 <= k < query@.len() implies may_accept(*key, query@[k], rest[k]) by {
                    if k > 0 {
                        assert(may_accept(*key, tail@[k - 1], x.skip(p.len() as int + 1)[k - 1]));
                    }
                }
            }
            assert forall|x: Seq<char>|
                self.completes(p, x) && must_start_like(*key, query@, x.skip(p.len() as int))
                    implies #[trigger] texts(to_return@).contains(x) by {
                let rest = x.skip(p.len() as int);
                let j = choose|j: int|
                    0 <= j < self.children@.len() && (#[trigger] self.children@[j]).value == rest[0]
                        && self.children@[j].holds(rest.drop_first());
                assert(rest.drop_first() =~= x.skip(p.len() as int + 1));
                assert(p.push(self.children@[j].value) =~= x.subrange(0, p.len() as int + 1));
                assert(must_accept(*key, query@[0], rest[0]));
                assert forall|k: int| 0 <= k < tail@.len() implies must_accept(
                    *key,
                    tail@[k],
                    x.skip(p.len() as int + 1)[k],
                ) by {
                    assert(must_accept(*key, query@[k + 1], rest[k + 1]));
                }
                assert(self.children@[j].completes(p.push(self.children@[j].value), x));
            }
        }
        to_return
    }

    /// The words stored below this node, each written after `string_so_far`.
    fn predict_helper(&self, string_so_far: &str) -> (r: Vec<String>)
        requires
            self.wf(),
        ensures
            texts(r@).no_duplicates(),
            forall|x: Seq<char>| texts(r@).contains(x) == self.completes(string_so_far@, x),
        decreases self,
    {
        let ghost p = string_so_far@;
        let mut to_return: Vec<String> = Vec::new();
        if self.is_end_of_word {
            to_return.push(String::from_str(string_so_far));
        }
        proof {
            assert forall|x: Seq<char>| texts(to_return@).contains(x) implies x == p by {
                let k = choose|k: int| 0 <= k < texts(to_return@).len() && texts(to_return@)[k] == x;
            }
            if self.is_end_of_word {
                assert(texts(to_return@)[0] == p);
            }
        }
        let mut i: usize = 0;
        while i < self.children.len()
            invariant
                self.wf(),
                p == string_so_far@,
                i <= self.children@.len(),
                texts(to_return@).no_duplicates(),
                forall|x: Seq<char>|
                    texts(to_return@).contains(x) == ((x == p && self.is_end_of_word) || exists|j: int|
                        0 <= j < i && (#[trigger] self.children@[j]).completes(
                            p.push(self.children@[j].value),
                            x,
                        )),
            decreases self.children@.len() - i,
        {
            let child = &self.children[i];
            assert(decreases_to!(self => self.children));
            assert(decreases_to!(self.children => self.children[i as int]));
            let mut owned_string = String::from_str(string_so_far);
            push_char(&mut owned_string, child.value);
            let mut more = child.predict_helper(owned_string.as_str());
            let ghost before = to_return@;
            let ghost added = more@;
            proof {
                let q = p.push(child.value);
                assert forall|x: Seq<char>| texts(before).contains(x) implies !texts(added).contains(x) by {
                    if texts(added).contains(x) {
                        assert(x[p.len() as int] == q[p.len() as int]);
                        if x != p || !self.is_end_of_word {
                            let j = choose|j: int|
                                0 <= j < i && (#[trigger] self.children@[j]).completes(
                                    p.push(self.children@[j].value),
                                    x,
                                );
                            assert(x[p.len() as int] == p.push(self.children@[j].value)[p.len() as int]);
                        }
                    }
                }
                lemma_join(before, added);
            }
            to_return.append(&mut more);
            i = i + 1;
            proof {
                assert forall|x: Seq<char>|
                    texts(to_return@).contains(x) == ((x == p && self.is_end_of_word) || exists|j: int|
                        0 <= j < i && (#[trigger] self.children@[j]).completes(
                            p.push(self.children@[j].value),
                            x,
                        )) by {
                    if self.children@[i - 1].completes(p.push(self.children@[i - 1].value), x) {
                        assert(texts(added).contains(x));
                    }
                }
            }
        }
        proof {
            assert forall|x: Seq<char>|
                texts(to_return@).contains(x) == self.completes(p, x) by {
                if self.completes(p, x) && x != p {
                    let rest = x.skip(p.len() as int);
                    if x.len() == p.len() {
                        assert(x =~= p);
                    }
                    let j = choose|j: int|
                        0 <= j < self.children@.len() && (#[trigger] self.children@[j]).value == rest[0]
                            && self.children@[j].holds(rest.drop_first());
                    assert(rest.drop_first() =~= x.skip(p.len() as int + 1));
                    assert(p.push(self.children@[j].value) =~= x.subrange(0, p.len() as int + 1));
                    assert(self.children@[j].completes(p.push(self.children@[j].value), x));
                }
                if x == p {
                    assert(x.skip(p.len() as int) =~= Seq::<char>::empty());
                }
                if texts(to_return@).contains(x) && x != p {
                    let j = choose|j: int|
                        0 <= j < self.children@.len() && (#[trigger] self.children@[j]).completes(
                            p.push(self.children@[j].value),
                            x,
                        );
                    let rest = x.skip(p.len() as int);
                    assert(rest.drop_first() =~= x.skip(p.len() as int + 1));
                    assert(x[p.len() as int] == p.push(self.children@[j].value)[p.len() as int]);
                    assert(rest[0] == self.children@[j].value);
                    assert(p =~= x.subrange(0, p.len() as int));
                }
            }
        }
        to_return
    }

    /// The node at the end of `query`'s path, if every character of `query`
    /// has its node; the words below it are the stored words that continue `query`.
    fn get_subtree(&self, query: &str) -> (r: Option<&Trie>)
        requires
            self.wf(),
        ensures
            match r {
                Some(t) => t.wf() && forall|w: Seq<char>| t.holds(w) == self.holds(query@ + w),
                None => forall|w: Seq<char>| !self.holds(query@ + w),
            },
            query@.len() > 0 ==> (r is Some <==> exists|w: Seq<char>| self.holds(query@ + w)),
    {
        let mut owned_query = query;
        let mut rover = self;
        let ghost mut done: Seq<char> = Seq::empty();
        while owned_query.unicode_len() > 0
            invariant
                rover.wf(),
                done.len() > 0 ==> rover.stores_some(),
                query@ == done + owned_query@,
                forall|w: Seq<char>| rover.holds(w) == self.holds(done + w),
            decreases owned_query@.len(),
        {
            let first_char = owned_query.get_char(0);
            let ghost rest = owned_query@;
            owned_query = get_tail(owned_query);
            match rover.find_child(first_char) {
                Some(i) => {
                    let ghost old_rover = *rover;
                    rover = &rover.children[i];
                    proof {
                        assert forall|w: Seq<char>| rover.holds(w) == self.holds(done.push(first_char) + w) by {
                            let v = seq![first_char] + w;
                            assert(v.drop_first() =~= w);
                            assert(done + v =~= done.push(first_char) + w);
                            if old_rover.holds(v) {
                                let j = choose|j: int|
                                    0 <= j < old_rover.children@.len() && (#[trigger] old_rover.children@[j]).value
                                        == v[0] && old_rover.children@[j].holds(v.drop_first());
                                assert(j == i);
                            }
                        }
                        done = done.push(first_char);
                        assert(query@ =~= done + owned_query@);
                    }
                },
                None => {
                    proof {
                        assert forall|w: Seq<char>| !self.holds(query@ + w) by {
                            let v = rest + w;
                            assert(query@ + w =~= done + v);
                            assert(v[0] == first_char);
                            assert(!rover.holds(v));
                        }
                    }
                    return None;
                },
            }
        }
        proof {
            assert forall|w: Seq<char>| rover.holds(w) == self.holds(query@ + w) by {
                assert(query@ + w =~= done + w);
            }
            if query@.len() > 0 {
                let w = choose|w: Seq<char>| rover.holds(w);
                assert(self.holds(query@ + w));
            }
        }
        Some(rover)
    }

    /// The position of the child that carries `c`, if there is one.
    fn find_child(&self, c: char) -> (r: Option<usize>)
        ensures
            match r {
                Some(i) => i < self.children@.len() && self.children@[i as int].value == c,
                None => forall|j: int|
                    0 <= j < self.children@.len() ==> (#[trigger] self.children@[j]).value != c,
            },
    {
        let mut i: usize = 0;
        while i < self.children.len()
            invariant
                i <= self.children@.len(),
                forall|j: int| 0 <= j < i ==> (#[trigger] self.children@[j]).value != c,
            decreases self.children@.len() - i,
        {
            if self.children[i].value == c {
                return Some(i);
            }
            i = i + 1;
        }
        None
    }

    /// Whether `query` was inserted, exactly; the empty query included.
    pub fn search(&self, query: &str) -> (r: bool)
        requires
            self.wf(),
        ensures
            r == self@.contains(query@),
        decreases query@.len(),
    {
        if query.unicode_len() == 0 {
            return self.is_end_of_word;
        }
        let first_char = query.get_char(0);
        match self.find_child(first_char) {
            Some(i) => {
                let node = &self.children[i];
                let r = node.search(get_tail(query));
                proof {
                    if r != self.holds(query@) {
                        if r {
                            assert(self.holds(query@));
                        } else {
                            let j = choose|j: int|
                                0 <= j < self.children@.len() && (#[trigger] self.children@[j]).value
                                    == query@[0] && self.children@[j].holds(query@.drop_first());
                            assert(j == i);
                        }
                    }
                }
                r
            },
            None => false,
        }
    }
}

/// The texts of a sequence of strings, in order.
pub open spec fn texts(v: Seq<String>) -> Seq<Seq<char>> {
    v.map_values(|s: String| s@)
}

/// Whether `key`, called on `(a, b)`, may answer `true`.
pub open spec fn may_accept<F: Fn(char, char) -> bool>(key: F, a: char, b: char) -> bool {
    key.ensures((a, b), true)
}

/// Whether `key`, called on `(a, b)`, cannot answer `false`.
pub open spec fn must_accept<F: Fn(char, char) -> bool>(key: F, a: char, b: char) -> bool {
    !key.ensures((a, b), false)
}

/// Whether `w` may begin with `q` under `key`, position by position; the
/// character of `q` comes first in each pair, that of `w` second.
pub open spec fn may_start_like<F: Fn(char, char) -> bool>(key: F, q: Seq<char>, w: Seq<char>) -> bool {
    q.len() <= w.len() && forall|i: int| 0 <= i < q.len() ==> may_accept(key, q[i], w[i])
}

/// Whether `w` surely begins with `q` under `key`, position by position.
pub open spec fn must_start_like<F: Fn(char, char) -> bool>(key: F, q: Seq<char>, w: Seq<char>) -> bool {
    q.len() <= w.len() && forall|i: int| 0 <= i < q.len() ==> must_accept(key, q[i], w[i])
}

/// Joining two lists of strings that share no text keeps every text once.
proof fn lemma_join(a: Seq<String>, b: Seq<String>)
    requires
        texts(a).no_duplicates(),
        texts(b).no_duplicates(),
        forall|x: Seq<char>| texts(a).contains(x) ==> !texts(b).contains(x),
    ensures
        texts(a + b).no_duplicates(),
        forall|x: Seq<char>|
            #[trigger] texts(a + b).contains(x) == (texts(a).contains(x) || texts(b).contains(x)),
{
    assert(texts(a + b) =~= texts(a) + texts(b));
    assert forall|i: int, j: int| 0 <= i < texts(a).len() && 0 <= j < texts(b).len() implies texts(a)[i]
        != texts(b)[j] by {
        assert(texts(a).contains(texts(a)[i]));
        assert(texts(b).contains(texts(b)[j]));
    }
    vstd::seq_lib::lemma_no_dup_in_concat(texts(a), texts(b));
    assert forall|x: Seq<char>|
        #[trigger] texts(a + b).contains(x) == (texts(a).contains(x) || texts(b).contains(x)) by {
        if texts(b).contains(x) {
            let k = choose|k: int| 0 <= k < texts(b).len() && texts(b)[k] == x;
            assert(texts(a + b)[a.len() + k] == x);
        }
        if texts(a).contains(x) {
            let k = choose|k: int| 0 <= k < texts(a).len() && texts(a)[k] == x;
            assert(texts(a + b)[k] == x);
        }
    }
}

/// Relies on String::push: appends the one character `c` at the end.
#[verifier::external_body]
fn push_char(s: &mut String, c: char)
    ensures
        final(s)@ == old(s)@.push(c),
{
    s.push(c)
}

/// The text that follows the first codepoint of `query`; empty stays empty.
fn get_tail(query: &str) -> (r: &str)
    ensures
        query@.len() == 0 ==> r@ == query@,
        query@.len() > 0 ==> r@ == query@.drop_first(),
{
    let n = query.unicode_len();
    if n == 0 {
        query
    } else {
        let r = query.substring_char(1, n);
        assert(r@ =~= query@.drop_first());
        r
    }
}

impl View for Trie {
    type V = Set<Seq<char>>;

    /// The set of stored words.
    closed spec fn view(&self) -> Set<Seq<char>> {
        Set::new(|w: Seq<char>| self.holds(w))
    }
}

} // verus!
