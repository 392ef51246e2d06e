use vstd::prelude::*;

verus! {

/// A letter the dictionary can index: one of the 26 lowercase Latin letters.
pub open spec fn is_letter(c: char) -> bool {
    'a' <= c && c <= 'z'
}

/// Position of a letter among the 26 child slots of a trie node.
pub open spec fn slot_of(c: char) -> int {
    (c as u32) as int - ('a' as u32) as int
}

/// Every character of `w` is a lowercase Latin letter.
pub open spec fn is_lower_word(w: Seq<char>) -> bool {
    forall|i: int| 0 <= i < w.len() ==> is_letter(#[trigger] w[i])
}

/// `p` is an initial segment of `w` (possibly all of it).
pub open spec fn is_prefix(p: Seq<char>, w: Seq<char>) -> bool {
    p.len() <= w.len() && w.subrange(0, p.len() as int) == p
}

/// Some word of `words` starts with `p`.
pub open spec fn begins_some(words: Set<Seq<char>>, p: Seq<char>) -> bool {
    exists|w: Seq<char>| #[trigger] words.contains(w) && is_prefix(p, w)
}

/// Some word of `words` is strictly longer than `p` and starts with it.
pub open spec fn extends(words: Set<Seq<char>>, p: Seq<char>) -> bool {
    exists|w: Seq<char>| #[trigger] words.contains(w) && p.len() < w.len() && is_prefix(p, w)
}

/// The answer to a query on a dictionary holding `words`: whether `p` is a
/// word, and whether it is terminal, that is, no longer word starts with it.
/// The empty candidate is never a word and always terminal.
pub open spec fn classify(words: Set<Seq<char>>, p: Seq<char>) -> (bool, bool) {
    if p.len() == 0 {
        (false, true)
    } else {
        (words.contains(p), !extends(words, p))
    }
}

/// The words that a list of source strings contributes: its non-empty entries.
pub open spec fn word_set(source: Seq<Seq<char>>) -> Set<Seq<char>> {
    Set::new(|w: Seq<char>| w.len() > 0 && source.contains(w))
}

/// The contents of a list of `String`s, as character sequences.
pub open spec fn views_of(source: Seq<String>) -> Seq<Seq<char>> {
    source.map_values(|s: String| s@)
}

/// Inserting a word that is already among the source words changes nothing:
/// the dictionary built with the extra copy holds the same words, so it
/// answers every candidate exactly as the one built without it.
pub proof fn insertion_is_idempotent(source: Seq<Seq<char>>, word: Seq<char>, candidate: Seq<char>)
    requires
        source.contains(word),
    ensures
        word_set(source.push(word)) == word_set(source),
        classify(word_set(source.push(word)), candidate) == classify(word_set(source), candidate),
{
    assert forall|w: Seq<char>| source.push(word).contains(w) <==> source.contains(w) by {
        if source.push(word).contains(w) {
            let k = choose|k: int| 0 <= k < source.push(word).len() && source.push(word)[k] == w;
            if k < source.len() {
                assert(source[k] == w);
            }
        }
        if source.contains(w) {
            let k = choose|k: int| 0 <= k < source.len() && source[k] == w;
            assert(source.push(word)[k] == w);
        }
    }
    assert(word_set(source.push(word)) =~= word_set(source));
}

/// Pruning is never undone: once a non-empty candidate is terminal, adding
/// any character to it gives a candidate that is no word and is terminal.
pub proof fn terminal_stays_terminal(words: Set<Seq<char>>, p: Seq<char>, c: char)
    requires
        p.len() > 0,
        classify(words, p).1,
    ensures
        classify(words, p.push(c)) == (false, true),
{
    let q = p.push(c);
    assert(is_prefix(p, q)) by {
        assert(q.subrange(0, p.len() as int) =~= p);
    }
    if words.contains(q) {
        assert(p.len() < q.len());
        assert(extends(words, p));
    }
    if extends(words, q) {
        let w = choose|w: Seq<char>| #[trigger] words.contains(w) && q.len() < w.len() && is_prefix(q, w);
        lemma_prefix_trans(p, q, w);
        assert(extends(words, p));
    }
}

/// `depth` copies of the indent marker `"- "`.
pub open spec fn indent(depth: nat) -> Seq<char>
    decreases depth,
{
    if depth == 0 {
        Seq::empty()
    } else {
        indent((depth - 1) as nat) + "- "@
    }
}

/// The line printed for a node spelling letter `c` at `depth`, e.g.
/// `"- b: is word -> "` followed by a newline.
pub open spec fn render_line(depth: nat, c: char, is_word: bool) -> Seq<char> {
    indent(depth) + seq![c] + ": "@ + (if is_word {
        "is word"@
    } else {
        "not word"@
    }) + " -> \n"@
}

/// Appends `"- "` to `out` `depth` times.
fn push_indent(out: &mut String, depth: usize)
    ensures
        final(out)@ == old(out)@ + indent(depth as nat),
{
    let mut d: usize = 0;
    while d < depth
        invariant
            d <= depth,
            out@ == old(out)@ + indent(d as nat),
        decreases depth - d,
    {
        out.append("- ");
        d = d + 1;
        assert(out@ =~= old(out)@ + indent(d as nat));
    }
}

/// Every dictionary answers, for a candidate string, whether it is a word and
/// whether it is terminal (a search need not continue past it).
pub trait Dictionary {
    /// The words the dictionary holds.
    spec fn words(&self) -> Set<Seq<char>>;

    /// The internal invariant of the dictionary.
    spec fn well_formed(&self) -> bool;

    /// Returns `(is a word, is terminal)` for `letters`.
    fn is_word(dict: &Self, letters: &str) -> (r: (bool, bool))
        requires
            dict.well_formed(),
        ensures
            r == classify(dict.words(), letters@),
    ;
}

/// A prefix tree over lowercase letters, stored as an arena of nodes.
/// Node 0 is the root and spells the empty string; node `i` keeps its 26
/// child links at `children[26 * i .. 26 * i + 26]`, one per letter.
pub struct VecDictionary {
    is_word: Vec<bool>,
    letters: Vec<char>,
    children: Vec<Option<usize>>,
    /// The string each node spells from the root.
    paths: Ghost<Seq<Seq<char>>>,
    /// The node each non-root node hangs from.
    parents: Ghost<Seq<int>>,
    /// The words inserted so far.
    words: Ghost<Set<Seq<char>>>,
}

/// Returns the child slot of `c`, or `None` when `c` is not a lowercase letter.
fn slot_index(c: char) -> (r: Option<usize>)
    ensures
        r is Some <==> is_letter(c),
        r matches Some(s) ==> s == slot_of(c) && s < 26,
{
    if 'a' <= c && c <= 'z' {
        Some((c as u32 - 'a' as u32) as usize)
    } else {
        None
    }
}

/// A prefix of a prefix is a prefix.
proof fn lemma_prefix_trans(p: Seq<char>, q: Seq<char>, w: Seq<char>)
    requires
        is_prefix(p, q),
        is_prefix(q, w),
    ensures
        is_prefix(p, w),
{
    assert(w.subrange(0, p.len() as int) =~= q.subrange(0, p.len() as int));
}

/// The initial segment of `w` of length `k` is a prefix of `w`.
proof fn lemma_subrange_prefix(w: Seq<char>, k: int)
    requires
        0 <= k <= w.len(),
    ensures
        is_prefix(w.subrange(0, k), w),
{
    assert(w.subrange(0, k).len() == k);
}

/// When no word begins with `p`, `p` is neither a word nor extended by one.
proof fn lemma_no_word_below(words: Set<Seq<char>>, q: Seq<char>, p: Seq<char>)
    requires
        !begins_some(words, q),
        is_prefix(q, p),
    ensures
        !words.contains(p),
        !extends(words, p),
{
    if words.contains(p) {
        assert(is_prefix(p, p)) by {
            assert(p.subrange(0, p.len() as int) =~= p);
        }
        lemma_prefix_trans(q, p, p);
    }
    if extends(words, p) {
        let w = choose|w: Seq<char>| #[trigger] words.contains(w) && p.len() < w.len() && is_prefix(p, w);
        lemma_prefix_trans(q, p, w);
    }
}

/// Extending `p` by one letter toward some word means some word extends `p`.
proof fn lemma_push_extends(words: Set<Seq<char>>, p: Seq<char>, c: char)
    requires
        begins_some(words, p.push(c)),
    ensures
        extends(words, p),
{
    let w = choose|w: Seq<char>| #[trigger] words.contains(w) && is_prefix(p.push(c), w);
    assert(p.push(c).subrange(0, p.len() as int) =~= p);
    lemma_prefix_trans(p, p.push(c), w);
    assert(is_prefix(p, p.push(c)));
}

/// A prefix of `e` extended by one character is a prefix of `e` or all of it.
proof fn lemma_prefix_of_push(p: Seq<char>, e: Seq<char>, c: char)
    requires
        is_prefix(p, e.push(c)),
    ensures
        is_prefix(p, e) || p == e.push(c),
{
    if p.len() <= e.len() {
        assert(e.push(c).subrange(0, p.len() as int) =~= e.subrange(0, p.len() as int));
    } else {
        assert(p =~= e.push(c));
    }
}

/// Appends the 26 empty child links of a new node.
fn push_empty_slots(children: &mut Vec<Option<usize>>)
    ensures
        final(children)@.len() == old(children)@.len() + 26,
        forall|u: int| 0 <= u < old(children)@.len() ==> final(children)@[u] == old(children)@[u],
        forall|u: int|
            old(children)@.len() <= u < old(children)@.len() + 26 ==> final(children)@[u] is None,
{
    let ghost start = children@;
    let mut t: usize = 0;
    while t < 26
        invariant
            t <= 26,
            children@.len() == start.len() + t,
            forall|u: int| 0 <= u < start.len() ==> children@[u] == start[u],
            forall|u: int| start.len() <= u < start.len() + t ==> children@[u] is None,
        decreases 26 - t,
    {
        children.push(None);
        t = t + 1;
    }
}

/// Relies on String::push: appends `c` at the end of `s`.
#[verifier::external_body]
pub(crate) fn push_char(s: &mut String, c: char)
    ensures
        final(s)@ == old(s)@.push(c),
{
    s.push(c)
}

impl VecDictionary {
    /// Number of nodes in the arena.
    pub closed spec fn node_count(&self) -> nat {
        self.is_word@.len()
    }

    /// The child link of node `i` for letter `c`.
    pub closed spec fn child(&self, i: int, c: char) -> Option<usize> {
        self.children@[26 * i + slot_of(c)]
    }

    /// The child link of node `i` in slot `s`.
    pub closed spec fn slot(&self, i: int, s: int) -> Option<usize> {
        self.children@[26 * i + s]
    }

    /// Layout and tree shape of the arena, independent of which words it holds.
    pub closed spec fn shape_ok(&self) -> bool {
        let n = self.node_count() as int;
        &&& n >= 1
        &&& self.letters@.len() == n
        &&& self.children@.len() == 26 * n
        &&& self.paths@.len() == n
        &&& self.parents@.len() == n
        &&& self.paths@[0] == Seq::<char>::empty()
        &&& forall|i: int, s: int|
            0 <= i < n && 0 <= s < 26 && #[trigger] self.slot(i, s) is Some ==> {
                let j = self.slot(i, s)->0 as int;
                &&& i < j < n
                &&& is_letter(self.letters@[j])
                &&& slot_of(self.letters@[j]) == s
                &&& self.paths@[j] == self.paths@[i].push(self.letters@[j])
            }
        &&& forall|j: int|
            0 < j < n ==> {
                let i = #[trigger] self.parents@[j];
                &&& 0 <= i < j
                &&& self.slot(i, slot_of(self.letters@[j])) == Some(j as usize)
                &&& is_letter(self.letters@[j])
                &&& self.paths@[j] == self.paths@[i].push(self.letters@[j])
            }
        &&& forall|i: int, j: int|
            0 <= i < n && 0 <= j < n && i != j ==> #[trigger] self.paths@[i]
                != #[trigger] self.paths@[j]
    }

    /// The arena agrees with a set of words, up to a pending prefix `extra`
    /// of a word being inserted: a child link exists exactly when some word
    /// (or `extra`) begins with the string it spells.
    pub closed spec fn links_agree(&self, words: Set<Seq<char>>, extra: Seq<char>) -> bool {
        let n = self.node_count() as int;
        &&& forall|i: int, c: char|
            0 <= i < n && is_letter(c) ==> (#[trigger] self.child(i, c) is Some <==> (begins_some(
                words,
                self.paths@[i].push(c),
            ) || is_prefix(self.paths@[i].push(c), extra)))
        &&& forall|i: int| 0 <= i < n ==> #[trigger] self.is_word@[i] == words.contains(self.paths@[i])
        &&& forall|w: Seq<char>| #[trigger] words.contains(w) ==> w.len() > 0 && is_lower_word(w)
    }

    /// The arena is well shaped and spells exactly the inserted words.
    pub closed spec fn inv(&self) -> bool {
        self.shape_ok() && self.links_agree(self.words@, Seq::empty())
    }

    /// Follows `letters` from the root; returns the node that spells it, or
    /// `None` when the string is empty or no word begins with it.
    fn find_word(&self, letters: &str) -> (r: Option<usize>)
        requires
            self.inv(),
        ensures
            r is Some <==> letters@.len() > 0 && begins_some(self.words@, letters@),
            r matches Some(i) ==> i < self.node_count() && self.paths@[i as int] == letters@,
    {
        let n = letters.unicode_len();
        if n == 0 {
            return None;
        }
        let mut cur: usize = 0;
        let mut k: usize = 0;
        while k < n
            invariant
                self.inv(),
                n == letters@.len(),
                k <= n,
                cur < self.node_count(),
                self.paths@[cur as int] == letters@.subrange(0, k as int),
                k > 0 ==> begins_some(self.words@, letters@.subrange(0, k as int)),
            decreases n - k,
        {
            let c = letters.get_char(k);
            let width = self.children.len();
            assert(letters@.subrange(0, k + 1) =~= letters@.subrange(0, k as int).push(c));
            proof {
                lemma_subrange_prefix(letters@, k + 1);
            }
            match slot_index(c) {
                None => {
                    proof {
                        if begins_some(self.words@, letters@.subrange(0, k + 1)) {
                            let w = choose|w: Seq<char>| #[trigger] self.words@.contains(w)
                                && is_prefix(letters@.subrange(0, k + 1), w);
                            assert(w.subrange(0, k + 1)[k as int] == w[k as int]);
                            assert(is_letter(w[k as int]));
                        }
                        lemma_no_word_below(self.words@, letters@.subrange(0, k + 1), letters@);
                        assert(letters@.subrange(0, n as int) =~= letters@);
                    }
                    return None;
                },
                Some(s) => {
                    assert(self.child(cur as int, c) == self.slot(cur as int, s as int));
                    match self.children[26 * cur + s] {
                        None => {
                            proof {
                                lemma_no_word_below(self.words@, letters@.subrange(0, k + 1), letters@);
                                if begins_some(self.words@, letters@) {
                                    let w = choose|w: Seq<char>| #[trigger] self.words@.contains(w)
                                        && is_prefix(letters@, w);
                                    lemma_prefix_trans(letters@.subrange(0, k + 1), letters@, w);
                                }
                            }
                            return None;
                        },
                        Some(j) => {
                            cur = j;
                        },
                    }
                },
            }
            k = k + 1;
        }
        assert(letters@.subrange(0, n as int) =~= letters@);
        Some(cur)
    }

    /// Whether node `i` has no child at all.
    fn is_leaf(&self, i: usize) -> (r: bool)
        requires
            self.inv(),
            i < self.node_count(),
        ensures
            r == !extends(self.words@, self.paths@[i as int]),
    {
        let width = self.children.len();
        let mut s: usize = 0;
        while s < 26
            invariant
                self.inv(),
                i < self.node_count(),
                width == self.children@.len(),
                s <= 26,
                forall|t: int| 0 <= t < s ==> self.slot(i as int, t) is None,
            decreases 26 - s,
        {
            if self.children[26 * i + s].is_some() {
                proof {
                    assert(self.slot(i as int, s as int) is Some);
                    let j = self.slot(i as int, s as int)->0 as int;
                    let c = self.letters@[j];
                    assert(self.child(i as int, c) == self.slot(i as int, s as int));
                    lemma_push_extends(self.words@, self.paths@[i as int], c);
                }
                return false;
            }
            s = s + 1;
        }
        proof {
            let p = self.paths@[i as int];
            if extends(self.words@, p) {
                let w = choose|w: Seq<char>| #[trigger] self.words@.contains(w) && p.len() < w.len()
                    && is_prefix(p, w);
                let c = w[p.len() as int];
                assert(is_letter(c));
                assert(w.subrange(0, p.len() as int + 1) =~= p.push(c));
                lemma_subrange_prefix(w, p.len() as int + 1);
                assert(begins_some(self.words@, p.push(c)));
                assert(self.child(i as int, c) is Some);
                assert(self.slot(i as int, slot_of(c)) is Some);
            }
        }
        true
    }

    /// A dictionary holding no word: the root alone.
    fn empty() -> (d: VecDictionary)
        ensures
            d.inv(),
            d.words@ == Set::<Seq<char>>::empty(),
    {
        let mut children: Vec<Option<usize>> = Vec::new();
        let mut t: usize = 0;
        while t < 26
            invariant
                t <= 26,
                children@.len() == t,
                forall|u: int| 0 <= u < t ==> children@[u] is None,
            decreases 26 - t,
        {
            children.push(None);
            t = t + 1;
        }
        let ghost root_paths = seq![Seq::<char>::empty()];
        let ghost root_parents = seq![0int];
        let d = VecDictionary {
            is_word: vec![false],
            letters: vec![' '],
            children,
            paths: Ghost(root_paths),
            parents: Ghost(root_parents),
            words: Ghost(Set::empty()),
        };
        assert forall|i: int, c: char| 0 <= i < 1 && is_letter(c) implies
            (#[trigger] d.child(i, c) is Some <==> (begins_some(d.words@, d.paths@[i].push(c))
                || is_prefix(d.paths@[i].push(c), Seq::empty()))) by {
            assert(d.child(i, c) == d.children@[slot_of(c)]);
        }
        d
    }

    /// What is printed for the children of node `i`, from slot `s` on: for
    /// each present child in letter order, its line, then what is printed
    /// for its own children one level deeper.
    pub closed spec fn render_slots(&self, i: int, depth: nat, s: int) -> Seq<char>
        decreases self.node_count() - i, 26 - s,
    {
        if !(0 <= i < self.node_count()) || s >= 26 || s < 0 {
            Seq::empty()
        } else {
            let rest = self.render_slots(i, depth, s + 1);
            match self.slot(i, s) {
                Some(j) => if i < j < self.node_count() {
                    render_line(depth, self.letters@[j as int], self.is_word@[j as int]) + self.render_slots(
                        j as int,
                        depth + 1,
                        0,
                    ) + rest
                } else {
                    rest
                },
                None => rest,
            }
        }
    }

    /// The printed form of the whole dictionary.
    pub closed spec fn rendered(&self) -> Seq<char> {
        self.render_slots(0, 0, 0)
    }

    /// Appends what is printed for the children of node `i` at `depth`.
    fn render_from(&self, i: usize, depth: usize, out: &mut String)
        requires
            self.inv(),
            i < self.node_count(),
            depth <= i,
        ensures
            final(out)@ == old(out)@ + self.render_slots(i as int, depth as nat, 0),
        decreases self.node_count() - i,
    {
        let width = self.children.len();
        let mut s: usize = 0;
        while s < 26
            invariant
                self.inv(),
                i < self.node_count(),
                depth <= i,
                width == self.children@.len(),
                s <= 26,
                old(out)@ + self.render_slots(i as int, depth as nat, 0) == out@ + self.render_slots(
                    i as int,
                    depth as nat,
                    s as int,
                ),
            decreases 26 - s,
        {
            match self.children[26 * i + s] {
                Some(j) => {
                    assert(self.slot(i as int, s as int) == Some(j));
                    let ghost before = out@;
                    push_indent(out, depth);
                    push_char(out, self.letters[j]);
                    out.append(": ");
                    if self.is_word[j] {
                        out.append("is word");
                    } else {
                        out.append("not word");
                    }
                    out.append(" -> \n");
                    assert(out@ =~= before + render_line(depth as nat, self.letters@[j as int], self.is_word@[j as int]));
                    self.render_from(j, depth + 1, out);
                },
                None => {},
            }
            s = s + 1;
        }
    }

    /// The dictionary as text: one line per node, children in letter order
    /// below their parent, each indented by `"- "` per level.
    pub fn to_string(dict: &Self) -> (r: String)
        requires
            dict.well_formed(),
        ensures
            r@ == dict.rendered(),
    {
        let mut out = String::new();
        dict.render_from(0, 0, &mut out);
        out
    }

    /// Builds the dictionary of the non-empty strings of `source_dictionary`,
    /// which must consist of lowercase letters.
    pub fn new(source_dictionary: &Vec<String>) -> (d: VecDictionary)
        requires
            forall|i: int|
                0 <= i < source_dictionary@.len() ==> is_lower_word(#[trigger] source_dictionary@[i]@),
        ensures
            d.well_formed(),
            d.words() == word_set(views_of(source_dictionary@)),
    {
        VecDictionary::translate_dictionary_to_word_map(source_dictionary)
    }

    /// Inserts each word in turn, starting from the bare root.
    fn translate_dictionary_to_word_map(source_dictionary: &Vec<String>) -> (d: VecDictionary)
        requires
            forall|i: int|
                0 <= i < source_dictionary@.len() ==> is_lower_word(#[trigger] source_dictionary@[i]@),
        ensures
            d.inv(),
            d.words@ == word_set(views_of(source_dictionary@)),
    {
        let mut d = VecDictionary::empty();
        let mut i: usize = 0;
        assert(word_set(views_of(source_dictionary@.subrange(0, 0))) =~= Set::<Seq<char>>::empty());
        while i < source_dictionary.len()
            invariant
                i <= source_dictionary@.len(),
                d.inv(),
                d.words@ == word_set(views_of(source_dictionary@.subrange(0, i as int))),
                forall|j: int|
                    0 <= j < source_dictionary@.len() ==> is_lower_word(#[trigger] source_dictionary@[j]@),
            decreases source_dictionary@.len() - i,
        {
            let w = &source_dictionary[i];
            let ghost before = views_of(source_dictionary@.subrange(0, i as int));
            let ghost after = views_of(source_dictionary@.subrange(0, i + 1));
            assert(after =~= before.push(w@));
            d.insert(w);
            assert(d.words@ =~= word_set(after)) by {
                assert forall|v: Seq<char>| #[trigger] after.contains(v) <==> (before.contains(v) || v == w@) by {
                    if after.contains(v) {
                        let k = choose|k: int| 0 <= k < after.len() && after[k] == v;
                        if k < before.len() {
                            assert(before[k] == v);
                        }
                    }
                    if before.contains(v) {
                        let k = choose|k: int| 0 <= k < before.len() && before[k] == v;
                        assert(after[k] == v);
                    }
                    if v == w@ {
                        assert(after[before.len() as int] == v);
                    }
                }
            }
            i = i + 1;
        }
        assert(source_dictionary@.subrange(0, i as int) =~= source_dictionary@);
        d
    }

    /// Appends a fresh node for letter `c` under `cur` and links it there.
    /// Requires that the link was absent and that no word begins with the
    /// string the new node spells, beyond the pending prefix `extra`.
    fn add_node(&mut self, cur: usize, c: char, s: usize, Ghost(extra): Ghost<Seq<char>>) -> (j: usize)
        requires
            old(self).shape_ok(),
            old(self).links_agree(old(self).words@, extra),
            cur < old(self).node_count(),
            is_letter(c),
            s == slot_of(c),
            old(self).child(cur as int, c) is None,
            extra == old(self).paths@[cur as int],
        ensures
            final(self).shape_ok(),
            final(self).links_agree(final(self).words@, extra.push(c)),
            final(self).words@ == old(self).words@,
            j < final(self).node_count(),
            final(self).paths@[j as int] == extra.push(c),
    {
        let ghost pre = *self;
        let ghost q = extra.push(c);
        let n = self.is_word.len();
        let base = self.children.len();
        assert(!begins_some(self.words@, q));
        assert(!self.words@.contains(q)) by {
            assert(q.subrange(0, q.len() as int) =~= q);
        }
        self.is_word.push(false);
        self.letters.push(c);
        push_empty_slots(&mut self.children);
        self.children.set(26 * cur + s, Some(n));
        self.paths = Ghost(self.paths@.push(q));
        self.parents = Ghost(self.parents@.push(cur as int));
        let ghost post = *self;
        assert(post.node_count() == n + 1);
        assert forall|i: int, t: int|
            0 <= i < n + 1 && 0 <= t < 26 && #[trigger] post.slot(i, t) is Some implies {
                let j = post.slot(i, t)->0 as int;
                &&& i < j < n + 1
                &&& is_letter(post.letters@[j])
                &&& slot_of(post.letters@[j]) == t
                &&& post.paths@[j] == post.paths@[i].push(post.letters@[j])
            } by {
            if i != cur || t != s {
                assert(i < n);
                assert(post.slot(i, t) == pre.slot(i, t));
            }
        }
        assert forall|j: int| 0 < j < n + 1 implies {
            let i = #[trigger] post.parents@[j];
            &&& 0 <= i < j
            &&& post.slot(i, slot_of(post.letters@[j])) == Some(j as usize)
            &&& is_letter(post.letters@[j])
            &&& post.paths@[j] == post.paths@[i].push(post.letters@[j])
        } by {
            if j < n {
                let i = pre.parents@[j];
                assert(pre.slot(i, slot_of(pre.letters@[j])) == Some(j as usize));
                assert(post.slot(i, slot_of(post.letters@[j])) == pre.slot(i, slot_of(pre.letters@[j])));
            } else {
                assert(post.slot(cur as int, s as int) == Some(n));
            }
        }
        assert forall|i: int, j: int| 0 <= i < n + 1 && 0 <= j < n + 1 && i != j implies
            #[trigger] post.paths@[i] != #[trigger] post.paths@[j] by {
            if i < n && j < n {
                assert(pre.paths@[i] != pre.paths@[j]);
            } else {
                let o = if i < n { i } else { j };
                if post.paths@[o] == q {
                    assert(o != 0);
                    let p = pre.parents@[o];
                    assert(pre.paths@[o] == pre.paths@[p].push(pre.letters@[o]));
                    assert(pre.paths@[p] =~= q.drop_last());
                    assert(q.drop_last() =~= extra);
                    assert(pre.paths@[o].last() == c);
                    assert(p == cur);
                    assert(pre.slot(p, slot_of(pre.letters@[o])) == Some(o as usize));
                    assert(pre.child(cur as int, c) == pre.slot(p, slot_of(pre.letters@[o])));
                }
            }
        }
        assert(post.shape_ok());
        assert forall|i: int, d: char| 0 <= i < n + 1 && is_letter(d) implies
            (#[trigger] post.child(i, d) is Some <==> (begins_some(post.words@, post.paths@[i].push(d))
                || is_prefix(post.paths@[i].push(d), q))) by {
            let pd = post.paths@[i].push(d);
            if i == n {
                assert(post.child(i, d) is None);
                assert(pd.subrange(0, q.len() as int) =~= q);
                assert(is_prefix(q, pd));
                if begins_some(post.words@, pd) {
                    let w = choose|w: Seq<char>| #[trigger] post.words@.contains(w) && is_prefix(pd, w);
                    lemma_prefix_trans(q, pd, w);
                }
            } else if i == cur && d == c {
                assert(post.child(i, d) == Some(n));
                assert(q.subrange(0, q.len() as int) =~= q);
            } else {
                assert(post.child(i, d) == pre.child(i, d));
                if is_prefix(pd, q) {
                    lemma_prefix_of_push(pd, extra, c);
                    if pd == q {
                        assert(pd.drop_last() =~= post.paths@[i]);
                        assert(q.drop_last() =~= extra);
                        assert(pd[extra.len() as int] == d);
                        assert(q[extra.len() as int] == c);
                    }
                }
                if is_prefix(pd, extra) {
                    assert(extra.push(c).subrange(0, pd.len() as int) =~= extra.subrange(0, pd.len() as int));
                }
            }
        }
        assert forall|i: int| 0 <= i < n + 1 implies #[trigger] post.is_word@[i] == post.words@.contains(
            post.paths@[i]) by {
            if i < n {
                assert(pre.is_word@[i] == pre.words@.contains(pre.paths@[i]));
            }
        }
        n
    }

    /// Adds `w` to the dictionary; the empty string is ignored.
    fn insert(&mut self, w: &String)
        requires
            old(self).inv(),
            is_lower_word(w@),
        ensures
            final(self).inv(),
            final(self).words@ == (if w@.len() > 0 { old(self).words@.insert(w@) } else { old(self).words@ }),
    {
        let n = w.as_str().unicode_len();
        let mut cur: usize = 0;
        let mut k: usize = 0;
        assert(w@.subrange(0, 0) =~= Seq::<char>::empty());
        while k < n
            invariant
                self.shape_ok(),
                self.links_agree(self.words@, w@.subrange(0, k as int)),
                self.words@ == old(self).words@,
                is_lower_word(w@),
                n == w@.len(),
                k <= n,
                cur < self.node_count(),
                self.paths@[cur as int] == w@.subrange(0, k as int),
            decreases n - k,
        {
            let c = w.as_str().get_char(k);
            let ghost e = w@.subrange(0, k as int);
            assert(w@.subrange(0, k + 1) =~= e.push(c));
            assert(is_letter(w@[k as int]));
            let width = self.children.len();
            let s = match slot_index(c) {
                Some(s) => s,
                None => 0,
            };
            assert(self.child(cur as int, c) == self.slot(cur as int, s as int));
            match self.children[26 * cur + s] {
                Some(j) => {
                    let ghost pre = *self;
                    assert forall|i: int, d: char| 0 <= i < pre.node_count() && is_letter(d) implies
                        (#[trigger] pre.child(i, d) is Some <==> (begins_some(pre.words@, pre.paths@[i].push(d))
                            || is_prefix(pre.paths@[i].push(d), e.push(c)))) by {
                        let pd = pre.paths@[i].push(d);
                        if is_prefix(pd, e.push(c)) {
                            lemma_prefix_of_push(pd, e, c);
                            if pd == e.push(c) {
                                assert(pre.paths@[i] =~= e);
                                assert(pd[e.len() as int] == d);
                                assert(e.push(c)[e.len() as int] == c);
                            }
                        }
                        if is_prefix(pd, e) {
                            assert(e.push(c).subrange(0, pd.len() as int) =~= e.subrange(0, pd.len() as int));
                        }
                    }
                    cur = j;
                },
                None => {
                    cur = self.add_node(cur, c, s, Ghost(e));
                },
            }
            k = k + 1;
        }
        assert(w@.subrange(0, n as int) =~= w@);
        if n > 0 {
            let ghost pre = *self;
            self.is_word.set(cur, true);
            self.words = Ghost(self.words@.insert(w@));
            let ghost post = *self;
            assert forall|i: int, d: char| 0 <= i < post.node_count() && is_letter(d) implies
                (#[trigger] post.child(i, d) is Some <==> (begins_some(post.words@, post.paths@[i].push(d))
                    || is_prefix(post.paths@[i].push(d), Seq::empty()))) by {
                let pd = post.paths@[i].push(d);
                assert(pre.child(i, d) == post.child(i, d));
                if begins_some(post.words@, pd) {
                    let v = choose|v: Seq<char>| #[trigger] post.words@.contains(v) && is_prefix(pd, v);
                    if v != w@ {
                        assert(pre.words@.contains(v));
                    }
                }
                if begins_some(pre.words@, pd) {
                    let v = choose|v: Seq<char>| #[trigger] pre.words@.contains(v) && is_prefix(pd, v);
                    assert(post.words@.contains(v));
                }
                if is_prefix(pd, w@) {
                    assert(post.words@.contains(w@));
                }
            }
            assert forall|i: int| 0 <= i < post.node_count() implies #[trigger] post.is_word@[i]
                == post.words@.contains(post.paths@[i]) by {
                if i != cur {
                    assert(pre.is_word@[i] == pre.words@.contains(pre.paths@[i]));
                    assert(pre.paths@[i] != pre.paths@[cur as int]);
                }
            }
            assert(post.node_count() == pre.node_count());
            assert(post.shape_ok()) by {
                assert(forall|i: int, t: int| #[trigger] post.slot(i, t) == pre.slot(i, t));
            }
            assert(post.links_agree(post.words@, Seq::empty()));
        } else {
            assert forall|i: int, d: char| 0 <= i < self.node_count() && is_letter(d) implies
                !is_prefix(#[trigger] self.paths@[i].push(d), Seq::<char>::empty()) by {
            }
            assert(self.links_agree(self.words@, Seq::empty()));
        }
    }
}

impl Dictionary for VecDictionary {
    closed spec fn words(&self) -> Set<Seq<char>> {
        self.words@
    }

    closed spec fn well_formed(&self) -> bool {
        self.inv()
    }

    fn is_word(dict: &Self, letters: &str) -> (r: (bool, bool)) {
        match dict.find_word(letters) {
            None => {
                proof {
                    if letters@.len() > 0 {
                        assert(is_prefix(letters@, letters@)) by {
                            assert(letters@.subrange(0, letters@.len() as int) =~= letters@);
                        }
                        lemma_no_word_below(dict.words@, letters@, letters@);
                    }
                }
                (false, true)
            },
            Some(i) => (dict.is_word[i], dict.is_leaf(i)),
        }
    }
}

} // verus!
