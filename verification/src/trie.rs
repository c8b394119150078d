use vstd::prelude::*;

verus! {

broadcast use vstd::std_specs::vec::group_vec_axioms;

/// Opaque handle for a playable audio resource.  The matcher never looks
/// inside one; it only stores handles and returns them by value.
#[derive(Clone, Copy, Debug, PartialEq, Eq, Structural)]
pub struct ResourceRef {
    pub id: u64,
}

/// One node of the syllable tree: the character it stands for, the resource
/// of the syllable that ends exactly here (if any), and the child nodes,
/// kept strictly sorted by character.
#[derive(Debug)]
pub struct TrieNode {
    pub character: char,
    pub audio: Option<ResourceRef>,
    pub children: Vec<TrieNode>,
}

/// Sibling ordering: characters strictly increase, so each character appears
/// at most once among siblings.
pub open spec fn chars_sorted(ns: Seq<TrieNode>) -> bool {
    forall|i: int, j: int|
        0 <= i < j < ns.len() ==> (ns[i].character as u32) < (ns[j].character as u32)
}

/// Some sibling carries character `c`.
pub open spec fn has_child(ns: Seq<TrieNode>, c: char) -> bool {
    exists|i: int| 0 <= i < ns.len() && ns[i].character == c
}

/// The sibling carrying character `c` (meaningful only under `has_child`;
/// unique under `chars_sorted`).
pub open spec fn child_with(ns: Seq<TrieNode>, c: char) -> TrieNode {
    ns[choose|i: int| 0 <= i < ns.len() && ns[i].character == c]
}

/// The node reached from `n` by walking the characters of `k` downward
/// through children, or `None` when the path leaves the tree.
pub open spec fn subtree_at(n: TrieNode, k: Seq<char>) -> Option<TrieNode>
    decreases k.len(),
{
    if k.len() == 0 {
        Some(n)
    } else if has_child(n.children@, k[0]) {
        subtree_at(child_with(n.children@, k[0]), k.skip(1))
    } else {
        None
    }
}

/// The node reached from a forest of root nodes by walking `k`; the empty
/// path reaches nothing.
pub open spec fn forest_at(ns: Seq<TrieNode>, k: Seq<char>) -> Option<TrieNode> {
    if k.len() == 0 {
        None
    } else if has_child(ns, k[0]) {
        subtree_at(child_with(ns, k[0]), k.skip(1))
    } else {
        None
    }
}

/// The resource attached at the end of path `k` below `n`, if any.
pub open spec fn node_resource(n: TrieNode, k: Seq<char>) -> Option<ResourceRef> {
    match subtree_at(n, k) {
        Some(m) => m.audio,
        None => None,
    }
}

/// The resource attached at the end of path `k` in the forest, if any.
pub open spec fn forest_resource(ns: Seq<TrieNode>, k: Seq<char>) -> Option<ResourceRef> {
    match forest_at(ns, k) {
        Some(m) => m.audio,
        None => None,
    }
}

/// Node well-formedness: a node without a resource and without children
/// would be unreachable dead weight and never exists; siblings are strictly
/// sorted; and the same holds below.
pub open spec fn node_wf(n: TrieNode) -> bool
    decreases n,
{
    &&& n.audio is Some || n.children.len() > 0
    &&& chars_sorted(n.children@)
    &&& forall|i: int| 0 <= i < n.children.len() ==> node_wf(#[trigger] n.children[i])
}

/// Forest well-formedness: roots strictly sorted, every node well-formed.
pub open spec fn forest_wf(ns: Seq<TrieNode>) -> bool {
    &&& chars_sorted(ns)
    &&& forall|i: int| 0 <= i < ns.len() ==> node_wf(#[trigger] ns[i])
}

/// First resource on the leftmost path below `n`: `n`'s own resource if it
/// has one, otherwise the first resource of its smallest child.
pub open spec fn first_resource(n: TrieNode) -> Option<ResourceRef>
    decreases n,
{
    if n.audio is Some {
        n.audio
    } else if n.children.len() == 0 {
        None
    } else {
        first_resource(n.children[0])
    }
}

/// Some syllable of `m` has `p` as a (not necessarily strict) prefix.
pub open spec fn reaches_key(m: Map<Seq<char>, ResourceRef>, p: Seq<char>) -> bool {
    exists|k: Seq<char>| #[trigger] m.dom().contains(k) && p.is_prefix_of(k)
}

/// Some syllable of `m` strictly extends `p`.
pub open spec fn extendable(m: Map<Seq<char>, ResourceRef>, p: Seq<char>) -> bool {
    exists|k: Seq<char>| #[trigger] m.dom().contains(k) && p.is_prefix_of(k) && p.len() < k.len()
}

/// Lexicographic order on character sequences: the empty sequence first, a
/// prefix before its extensions, otherwise the first differing character
/// decides.
pub open spec fn lex_leq(a: Seq<char>, b: Seq<char>) -> bool
    decreases a.len(),
{
    a.len() == 0 || (b.len() > 0 && ((a[0] as u32) < (b[0] as u32) || (a[0] == b[0] && lex_leq(
        a.skip(1),
        b.skip(1),
    ))))
}

/// Ordered prefix tree mapping syllables to audio resources.
pub struct Trie {
    roots: Vec<TrieNode>,
}

impl Trie {
    /// The well-formedness invariant, established by `new` and preserved by
    /// `insert`: at every node the sibling characters strictly increase (so
    /// no character repeats among siblings), and no node is dead weight —
    /// each carries a resource or has children.
    pub closed spec fn wf(self) -> bool {
        forest_wf(self.roots@)
    }

    /// The tree viewed abstractly: the finite map from each inserted
    /// syllable to its resource.
    pub closed spec fn as_map(self) -> Map<Seq<char>, ResourceRef> {
        Map::new(
            |k: Seq<char>| forest_resource(self.roots@, k) is Some,
            |k: Seq<char>| forest_resource(self.roots@, k).unwrap(),
        )
    }

    /// What `lookup` returns: the resource and leaf flag of the landing
    /// node when the whole candidate matches a path ending in a resource;
    /// otherwise the fallback through the candidate's last character, always
    /// flagged not-complete; `None` when the walk leaves the tree.
    pub closed spec fn lookup_spec(self, k: Seq<char>) -> Option<(ResourceRef, bool)> {
        if k.len() == 0 {
            None
        } else {
            match forest_at(self.roots@, k) {
                None => None,
                Some(n) => match n.audio {
                    Some(r) => Some((r, n.children.len() == 0)),
                    None => match forest_at(self.roots@, seq![k.last()]) {
                        None => None,
                        Some(m) => match first_resource(m) {
                            Some(r) => Some((r, false)),
                            None => None,
                        },
                    },
                },
            }
        }
    }

    /// Creates an empty tree: no roots, no syllables.
    pub fn new() -> (t: Trie)
        ensures
            t.wf(),
            t.as_map() == Map::<Seq<char>, ResourceRef>::empty(),
    {
        let t = Trie { roots: Vec::new() };
        proof {
            assert forall|k: Seq<char>| !(#[trigger] forest_resource(t.roots@, k) is Some) by {
                assert(!has_child(t.roots@, k[0]) || k.len() == 0);
            }
            assert(t.as_map() =~= Map::<Seq<char>, ResourceRef>::empty());
        }
        t
    }

    /// Inserts a syllable with its resource.  An empty syllable is a silent
    /// no-op; inserting the same syllable again overwrites (last writer
    /// wins).  Sibling ordering (and the rest of the invariant) is
    /// preserved.
    pub fn insert(&mut self, syllable: &str, resource: ResourceRef)
        requires
            old(self).wf(),
        ensures
            final(self).wf(),
            syllable@.len() == 0 ==> final(self).as_map() == old(self).as_map(),
            syllable@.len() > 0 ==> final(self).as_map() == old(self).as_map().insert(
                syllable@,
                resource,
            ),
    {
        let chars = chars_of(syllable);
        if chars.len() == 0 {
            return ;
        }
        insert_forest(&mut self.roots, &chars, 0, resource);
        proof {
            assert(chars@.skip(0) =~= syllable@);
            assert forall|k: Seq<char>|
                #[trigger] self.as_map().dom().contains(k) == old(self).as_map().insert(
                    syllable@,
                    resource,
                ).dom().contains(k) && (self.as_map().dom().contains(k)
                ==> self.as_map()[k] == old(self).as_map().insert(syllable@, resource)[k]) by {
                if k == syllable@ {
                    assert(forest_resource(self.roots@, k) == Some(resource));
                } else {
                    assert(forest_resource(self.roots@, k) == forest_resource(
                        old(self).roots@,
                        k,
                    ));
                }
            }
            assert(self.as_map() =~= old(self).as_map().insert(syllable@, resource));
        }
    }

    /// Looks a candidate string up, walking from the roots character by
    /// character; see `lookup_spec` for the exact result, and the lemmas
    /// below for its meaning over `as_map`.
    pub fn lookup(&self, candidate: &str) -> (res: Option<(ResourceRef, bool)>)
        requires
            self.wf(),
        ensures
            res == self.lookup_spec(candidate@),
    {
        let chars = chars_of(candidate);
        self.lookup_chars(&chars)
    }

    /// `lookup` on an already decoded character buffer.
    pub fn lookup_chars(&self, candidate: &Vec<char>) -> (res: Option<(ResourceRef, bool)>)
        requires
            self.wf(),
        ensures
            res == self.lookup_spec(candidate@),
    {
        let n = candidate.len();
        if n == 0 {
            return None;
        }
        let c0 = candidate[0];
        let j0 = match find_child(&self.roots, c0) {
            Some(j) => j,
            None => {
                return None;
            },
        };
        proof {
            lemma_child_with_is(self.roots@, j0 as int);
        }
        let landing = walk(&self.roots[j0], candidate, 1);
        let m = match landing {
            Some(m) => m,
            None => {
                return None;
            },
        };
        proof {
            assert(candidate@.skip(1) =~= candidate@.skip(0).skip(1));
            assert(candidate@.skip(0) =~= candidate@);
        }
        match m.audio {
            Some(r) => Some((r, m.children.len() == 0)),
            None => {
                let cl = candidate[n - 1];
                proof {
                    assert(cl == candidate@.last());
                }
                let j1 = match find_child(&self.roots, cl) {
                    Some(j) => j,
                    None => {
                        return None;
                    },
                };
                proof {
                    lemma_child_with_is(self.roots@, j1 as int);
                    assert(seq![candidate@.last()].skip(1) =~= Seq::<char>::empty());
                }
                match descend_first(&self.roots[j1]) {
                    Some(r) => Some((r, false)),
                    None => None,
                }
            },
        }
    }
}

/// Decodes a string slice into its characters.
fn chars_of(s: &str) -> (v: Vec<char>)
    ensures
        v@ == s@,
{
    let n = s.unicode_len();
    let mut v: Vec<char> = Vec::new();
    let mut i: usize = 0;
    while i < n
        invariant
            i <= n,
            n == s@.len(),
            v@ == s@.take(i as int),
        decreases n - i,
    {
        v.push(s.get_char(i));
        i += 1;
        proof {
            assert(v@ =~= s@.take(i as int));
        }
    }
    proof {
        assert(v@ =~= s@);
    }
    v
}

/// Linear scan for the sibling carrying `c`.
fn find_child(ns: &Vec<TrieNode>, c: char) -> (res: Option<usize>)
    ensures
        match res {
            Some(j) => j < ns.len() && ns[j as int].character == c,
            None => !has_child(ns@, c),
        },
{
    let mut j: usize = 0;
    while j < ns.len()
        invariant
            j <= ns.len(),
            forall|i: int| 0 <= i < j ==> ns@[i].character != c,
        decreases ns.len() - j,
    {
        if ns[j].character == c {
            return Some(j);
        }
        j += 1;
    }
    None
}

/// The index before which a node with character `c` belongs: the first
/// position whose character is greater or equal.
fn find_position(ns: &Vec<TrieNode>, c: char) -> (j: usize)
    ensures
        j <= ns.len(),
        forall|i: int| 0 <= i < j ==> (ns@[i].character as u32) < (c as u32),
        j < ns.len() ==> (ns@[j as int].character as u32) >= (c as u32),
{
    let mut j: usize = 0;
    while j < ns.len()
        invariant
            j <= ns.len(),
            forall|i: int| 0 <= i < j ==> (ns@[i].character as u32) < (c as u32),
        decreases ns.len() - j,
    {
        if (ns[j].character as u32) >= (c as u32) {
            return j;
        }
        j += 1;
    }
    j
}

/// Walks the characters of `candidate` from position `from` downward from
/// `n`, returning the landing node.
fn walk<'a>(n: &'a TrieNode, candidate: &Vec<char>, from: usize) -> (res: Option<&'a TrieNode>)
    requires
        from <= candidate.len(),
        node_wf(*n),
    ensures
        subtree_at(*n, candidate@.skip(from as int)) == match res {
            Some(m) => Some(*m),
            None => None::<TrieNode>,
        },
        res matches Some(m) ==> node_wf(*m),
    decreases candidate.len() - from,
{
    if from == candidate.len() {
        proof {
            assert(candidate@.skip(from as int) =~= Seq::<char>::empty());
        }
        Some(n)
    } else {
        let c = candidate[from];
        match find_child(&n.children, c) {
            None => {
                proof {
                    assert(candidate@.skip(from as int)[0] == c);
                }
                None
            },
            Some(j) => {
                proof {
                    lemma_child_with_is(n.children@, j as int);
                    assert(candidate@.skip(from as int).skip(1) =~= candidate@.skip(
                        from as int + 1,
                    ));
                    assert(candidate@.skip(from as int)[0] == c);
                }
                walk(&n.children[j], candidate, from + 1)
            },
        }
    }
}

/// Follows the leftmost path below `n` to the first node carrying a
/// resource.
fn descend_first(n: &TrieNode) -> (res: Option<ResourceRef>)
    ensures
        res == first_resource(*n),
    decreases *n,
{
    match n.audio {
        Some(r) => Some(r),
        None => {
            if n.children.len() == 0 {
                None
            } else {
                descend_first(&n.children[0])
            }
        },
    }
}

/// Unfolding of `node_wf` stated as a lemma, for values built in executable
/// code.
proof fn lemma_node_wf_intro(n: TrieNode)
    requires
        n.audio is Some || n.children.len() > 0,
        chars_sorted(n.children@),
        forall|i: int| 0 <= i < n.children.len() ==> node_wf(#[trigger] n.children[i]),
    ensures
        node_wf(n),
{
}

/// Unfolding of `subtree_at` on the empty path.
proof fn lemma_subtree_at_empty(n: TrieNode, k: Seq<char>)
    requires
        k.len() == 0,
    ensures
        subtree_at(n, k) == Some(n),
{
}

/// One-step unfolding of `subtree_at` on a nonempty path.
proof fn lemma_subtree_at_step(n: TrieNode, k: Seq<char>)
    requires
        k.len() > 0,
    ensures
        subtree_at(n, k) == (if has_child(n.children@, k[0]) {
            subtree_at(child_with(n.children@, k[0]), k.skip(1))
        } else {
            None::<TrieNode>
        }),
{
}

/// Builds the fresh chain of nodes for the suffix of `s` starting at
/// `from`, with the resource on its last node.
fn make_chain(s: &Vec<char>, from: usize, r: ResourceRef) -> (n: TrieNode)
    requires
        from < s.len(),
    ensures
        n.character == s@[from as int],
        node_wf(n),
        forall|k: Seq<char>| #[trigger] node_resource(n, k) == (if k == s@.skip(from as int + 1) {
            Some(r)
        } else {
            None::<ResourceRef>
        }),
    decreases s.len() - from,
{
    let c = s[from];
    if from + 1 == s.len() {
        let children: Vec<TrieNode> = Vec::new();
        let n = TrieNode { character: c, audio: Some(r), children: children };
        proof {
            lemma_node_wf_intro(n);
            assert(s@.skip(from as int + 1) =~= Seq::<char>::empty());
            assert forall|k: Seq<char>| #[trigger] node_resource(n, k) == (if k == s@.skip(
                from as int + 1,
            ) {
                Some(r)
            } else {
                None::<ResourceRef>
            }) by {
                if k.len() == 0 {
                    assert(k =~= Seq::<char>::empty());
                    lemma_subtree_at_empty(n, k);
                } else {
                    assert(!has_child(n.children@, k[0]));
                    lemma_subtree_at_step(n, k);
                    assert(k != s@.skip(from as int + 1));
                }
            }
        }
        n
    } else {
        let child = make_chain(s, from + 1, r);
        let mut children: Vec<TrieNode> = Vec::new();
        children.push(child);
        let n = TrieNode { character: c, audio: None, children: children };
        proof {
            assert(n.children@ =~= seq![child]);
            lemma_node_wf_intro(n);
            assert forall|k: Seq<char>| #[trigger] node_resource(n, k) == (if k == s@.skip(
                from as int + 1,
            ) {
                Some(r)
            } else {
                None::<ResourceRef>
            }) by {
                if k.len() == 0 {
                    lemma_subtree_at_empty(n, k);
                    assert(k != s@.skip(from as int + 1));
                } else {
                    lemma_skip_step(s@, from as int + 1, k);
                    lemma_subtree_at_step(n, k);
                    if k[0] == child.character {
                        lemma_child_with_is(n.children@, 0);
                        assert(subtree_at(n, k) == subtree_at(child, k.skip(1)));
                        assert(node_resource(n, k) == node_resource(child, k.skip(1)));
                    } else {
                        assert(!has_child(n.children@, k[0]));
                        assert(k != s@.skip(from as int + 1));
                    }
                }
            }
        }
        n
    }
}

/// A nonempty suffix equals `s.skip(from)` exactly when its head is
/// `s[from]` and its tail is `s.skip(from + 1)`.
proof fn lemma_skip_step(s: Seq<char>, from: int, k: Seq<char>)
    requires
        0 <= from < s.len(),
        k.len() > 0,
    ensures
        (k == s.skip(from)) == (k[0] == s[from] && k.skip(1) == s.skip(from + 1)),
{
    if k[0] == s[from] && k.skip(1) == s.skip(from + 1) {
        assert forall|i: int| 0 <= i < k.len() implies k[i] == s.skip(from)[i] by {
            if i > 0 {
                assert(k[i] == k.skip(1)[i - 1]);
                assert(s.skip(from + 1)[i - 1] == s[from + i]);
            }
        }
        assert(k =~= s.skip(from));
    }
    if k == s.skip(from) {
        assert(k[0] == s[from]);
        assert(k.skip(1) =~= s.skip(from + 1));
    }
}

/// Under sibling ordering the node found for a character is the sibling at
/// the index that carries it.
proof fn lemma_child_with_is(ns: Seq<TrieNode>, i: int)
    requires
        chars_sorted(ns),
        0 <= i < ns.len(),
    ensures
        has_child(ns, ns[i].character),
        child_with(ns, ns[i].character) == ns[i],
{
    let c = ns[i].character;
    assert(has_child(ns, c)) by {
        assert(0 <= i < ns.len() && ns[i].character == c);
    }
    let i2 = choose|i2: int| 0 <= i2 < ns.len() && ns[i2].character == c;
    if i2 < i {
        assert((ns[i2].character as u32) < (ns[i].character as u32));
        assert(false);
    }
    if i < i2 {
        assert((ns[i].character as u32) < (ns[i2].character as u32));
        assert(false);
    }
}

/// Inserts the suffix of `s` starting at `from` into a well-formed forest,
/// changing exactly that one path's resource.
fn insert_forest(ns: &mut Vec<TrieNode>, s: &Vec<char>, from: usize, r: ResourceRef)
    requires
        forest_wf(old(ns)@),
        from < s.len(),
    ensures
        forest_wf(final(ns)@),
        final(ns)@.len() > 0,
        forall|k: Seq<char>| #[trigger] forest_resource(final(ns)@, k) == (if k == s@.skip(
            from as int,
        ) {
            Some(r)
        } else {
            forest_resource(old(ns)@, k)
        }),
    decreases s.len() - from,
{
    let ghost ns0 = ns@;
    let c = s[from];
    let j = find_position(ns, c);
    if j < ns.len() && ns[j].character == c {
        let mut node = ns.remove(j);
        let ghost node0 = node;
        proof {
            assert(node_wf(node0));
            assert(forest_wf(node0.children@));
        }
        if from + 1 == s.len() {
            node.audio = Some(r);
        } else {
            insert_forest(&mut node.children, s, from + 1, r);
        }
        let ghost node1 = node;
        ns.insert(j, node);
        proof {
            assert(ns@ =~= ns0.update(j as int, node1));
            lemma_insert_forest_same_char(ns0, node0, node1, j as int, s@, from as int, r);
        }
    } else {
        let node = make_chain(s, from, r);
        let ghost node1 = node;
        ns.insert(j, node);
        proof {
            lemma_insert_forest_new_char(ns0, ns@, node1, j as int, s@, from as int, r);
        }
    }
}

/// After replacing the sibling that carries `s[from]` by its updated form,
/// the forest's resources change exactly at the suffix `s.skip(from)`.
proof fn lemma_insert_forest_same_char(
    ns0: Seq<TrieNode>,
    node0: TrieNode,
    node1: TrieNode,
    j: int,
    s: Seq<char>,
    from: int,
    r: ResourceRef,
)
    requires
        forest_wf(ns0),
        0 <= j < ns0.len(),
        0 <= from < s.len(),
        ns0[j] == node0,
        node0.character == s[from],
        node1.character == node0.character,
        // how node1 arose from node0:
        (if from + 1 == s.len() {
            node1 == TrieNode { audio: Some(r), ..node0 }
        } else {
            node1.audio == node0.audio && forest_wf(node1.children@) && node1.children@.len() > 0
                && forall|k2: Seq<char>| #[trigger] forest_resource(node1.children@, k2) == (if k2
                == s.skip(from + 1) {
                Some(r)
            } else {
                forest_resource(node0.children@, k2)
            })
        }),
    ensures
        forest_wf(ns0.update(j, node1)),
        ns0.update(j, node1).len() > 0,
        forall|k: Seq<char>| #[trigger] forest_resource(ns0.update(j, node1), k) == (if k == s.skip(
            from,
        ) {
            Some(r)
        } else {
            forest_resource(ns0, k)
        }),
{
    let ns1 = ns0.update(j, node1);
    let c = node0.character;
    assert(chars_sorted(ns1)) by {
        assert(forall|i: int| 0 <= i < ns1.len() ==> ns1[i].character == ns0[i].character);
    }
    assert(node_wf(node1)) by {
        if from + 1 == s.len() {
            assert(node_wf(node0));
            assert(forall|i: int| 0 <= i < node1.children.len() ==> node_wf(
                #[trigger] node1.children[i],
            ));
        }
    }
    assert(forall|i: int| 0 <= i < ns1.len() ==> node_wf(#[trigger] ns1[i]));
    lemma_child_with_is(ns0, j);
    lemma_child_with_is(ns1, j);
    assert forall|k: Seq<char>| #[trigger] forest_resource(ns1, k) == (if k == s.skip(from) {
        Some(r)
    } else {
        forest_resource(ns0, k)
    }) by {
        if k.len() == 0 {
            assert(s.skip(from).len() > 0);
        } else {
            lemma_skip_step(s, from, k);
            if k[0] == c {
                assert(has_child(ns1, c) && child_with(ns1, c) == node1);
                assert(has_child(ns0, c) && child_with(ns0, c) == node0);
                let k1 = k.skip(1);
                if k1.len() == 0 {
                    assert(subtree_at(node1, k1) == Some(node1));
                    assert(subtree_at(node0, k1) == Some(node0));
                    if from + 1 == s.len() {
                        assert(k =~= s.skip(from));
                    } else {
                        assert(k != s.skip(from));
                    }
                } else {
                    assert(subtree_at(node1, k1) == forest_at(node1.children@, k1));
                    assert(subtree_at(node0, k1) == forest_at(node0.children@, k1));
                    if from + 1 == s.len() {
                        assert(node1.children == node0.children);
                        assert(k != s.skip(from));
                    } else {
                        assert(forest_resource(node1.children@, k1) == (if k1 == s.skip(from + 1) {
                            Some(r)
                        } else {
                            forest_resource(node0.children@, k1)
                        }));
                    }
                }
            } else {
                assert(k != s.skip(from));
                lemma_other_char_same(ns0, ns1, c, k[0]);
            }
        }
    }
}

/// Two forests that agree on every sibling except the one carrying `cj`
/// agree on presence and identity of every character other than `cj`.
proof fn lemma_other_char_same(ns0: Seq<TrieNode>, ns1: Seq<TrieNode>, cj: char, c: char)
    requires
        chars_sorted(ns0),
        chars_sorted(ns1),
        ns0.len() == ns1.len(),
        forall|i: int|
            0 <= i < ns0.len() ==> (#[trigger] ns1[i]).character == ns0[i].character && (
            ns0[i].character != cj ==> ns1[i] == ns0[i]),
        c != cj,
    ensures
        has_child(ns0, c) == has_child(ns1, c),
        has_child(ns0, c) ==> child_with(ns1, c) == child_with(ns0, c),
{
    if has_child(ns0, c) {
        let i = choose|i: int| 0 <= i < ns0.len() && ns0[i].character == c;
        assert(ns1[i].character == c);
        lemma_child_with_is(ns0, i);
        lemma_child_with_is(ns1, i);
        assert(ns1[i] == ns0[i]);
    }
    if has_child(ns1, c) {
        let i = choose|i: int| 0 <= i < ns1.len() && ns1[i].character == c;
        assert(ns0[i].character == c);
        assert(has_child(ns0, c));
    }
}

/// After inserting a fresh chain for a character no sibling carried, the
/// forest's resources change exactly at the suffix `s.skip(from)`.
proof fn lemma_insert_forest_new_char(
    ns0: Seq<TrieNode>,
    ns1: Seq<TrieNode>,
    node1: TrieNode,
    j: int,
    s: Seq<char>,
    from: int,
    r: ResourceRef,
)
    requires
        forest_wf(ns0),
        0 <= j <= ns0.len(),
        0 <= from < s.len(),
        node1.character == s[from],
        node_wf(node1),
        forall|i: int| 0 <= i < j ==> (ns0[i].character as u32) < (node1.character as u32),
        j < ns0.len() ==> (ns0[j].character as u32) > (node1.character as u32),
        ns1 == ns0.insert(j, node1),
        forall|k2: Seq<char>| #[trigger] node_resource(node1, k2) == (if k2 == s.skip(from + 1) {
            Some(r)
        } else {
            None::<ResourceRef>
        }),
    ensures
        forest_wf(ns1),
        ns1.len() > 0,
        forall|k: Seq<char>| #[trigger] forest_resource(ns1, k) == (if k == s.skip(from) {
            Some(r)
        } else {
            forest_resource(ns0, k)
        }),
{
    let c = node1.character;
    assert(ns1.len() == ns0.len() + 1);
    assert(ns1[j] == node1);
    assert(forall|i: int| 0 <= i < j ==> ns1[i] == ns0[i]);
    assert(forall|i: int| j < i < ns1.len() ==> ns1[i] == ns0[i - 1]);
    assert(chars_sorted(ns1)) by {
        assert forall|i1: int, i2: int|
            0 <= i1 < i2 < ns1.len() implies (ns1[i1].character as u32) < (
        ns1[i2].character as u32) by {
            if i1 < j && i2 > j {
                assert((ns0[i1].character as u32) < (c as u32));
                assert(chars_sorted(ns0));
                assert((ns0[i2 - 1].character as u32) >= (ns0[j].character as u32));
            }
        }
    }
    assert(forall|i: int| 0 <= i < ns1.len() ==> node_wf(#[trigger] ns1[i]));
    assert(!has_child(ns0, c)) by {
        if has_child(ns0, c) {
            let i = choose|i: int| 0 <= i < ns0.len() && ns0[i].character == c;
            if i < j {
                assert((ns0[i].character as u32) < (c as u32));
            } else {
                assert((ns0[j].character as u32) <= (ns0[i].character as u32));
            }
            assert(false);
        }
    }
    lemma_child_with_is(ns1, j);
    assert forall|k: Seq<char>| #[trigger] forest_resource(ns1, k) == (if k == s.skip(from) {
        Some(r)
    } else {
        forest_resource(ns0, k)
    }) by {
        if k.len() == 0 {
            assert(s.skip(from).len() > 0);
        } else {
            lemma_skip_step(s, from, k);
            if k[0] == c {
                assert(forest_resource(ns0, k) == None::<ResourceRef>);
                assert(subtree_at(node1, k.skip(1)) == subtree_at(node1, k.skip(1)));
                assert(forest_resource(ns1, k) == node_resource(node1, k.skip(1)));
            } else {
                assert(k != s.skip(from));
                lemma_new_char_other_same(ns0, ns1, j, k[0]);
            }
        }
    }
}

/// Inserting a sibling leaves presence and identity of every other
/// character unchanged.
proof fn lemma_new_char_other_same(ns0: Seq<TrieNode>, ns1: Seq<TrieNode>, j: int, c: char)
    requires
        chars_sorted(ns0),
        chars_sorted(ns1),
        0 <= j <= ns0.len(),
        ns1.len() == ns0.len() + 1,
        forall|i: int| 0 <= i < j ==> ns1[i] == ns0[i],
        forall|i: int| j < i < ns1.len() ==> ns1[i] == ns0[i - 1],
        ns1[j].character != c,
    ensures
        has_child(ns0, c) == has_child(ns1, c),
        has_child(ns0, c) ==> child_with(ns1, c) == child_with(ns0, c),
{
    if has_child(ns0, c) {
        let i = choose|i: int| 0 <= i < ns0.len() && ns0[i].character == c;
        lemma_child_with_is(ns0, i);
        if i < j {
            lemma_child_with_is(ns1, i);
        } else {
            assert(ns1[i + 1] == ns0[i]);
            lemma_child_with_is(ns1, i + 1);
        }
    }
    if has_child(ns1, c) {
        let i = choose|i: int| 0 <= i < ns1.len() && ns1[i].character == c;
        if i < j {
            assert(ns0[i].character == c);
        } else {
            assert(i != j);
            assert(ns0[i - 1].character == c);
        }
        assert(has_child(ns0, c));
    }
}


/// Walking a concatenated path equals walking its parts in turn.
proof fn lemma_subtree_compose(n: TrieNode, k1: Seq<char>, k2: Seq<char>)
    ensures
        subtree_at(n, k1 + k2) == (match subtree_at(n, k1) {
            Some(m) => subtree_at(m, k2),
            None => None::<TrieNode>,
        }),
    decreases k1.len(),
{
    if k1.len() == 0 {
        assert(k1 + k2 =~= k2);
        lemma_subtree_at_empty(n, k1);
    } else {
        assert((k1 + k2).len() > 0);
        assert((k1 + k2)[0] == k1[0]);
        lemma_subtree_at_step(n, k1 + k2);
        lemma_subtree_at_step(n, k1);
        if has_child(n.children@, k1[0]) {
            let ch = child_with(n.children@, k1[0]);
            assert((k1 + k2).skip(1) =~= k1.skip(1) + k2);
            lemma_subtree_compose(ch, k1.skip(1), k2);
        }
    }
}

/// The same, from the forest roots.
proof fn lemma_forest_compose(ns: Seq<TrieNode>, k1: Seq<char>, k2: Seq<char>)
    requires
        k1.len() > 0,
    ensures
        forest_at(ns, k1 + k2) == (match forest_at(ns, k1) {
            Some(m) => subtree_at(m, k2),
            None => None::<TrieNode>,
        }),
{
    assert((k1 + k2).len() > 0);
    assert((k1 + k2)[0] == k1[0]);
    if has_child(ns, k1[0]) {
        let ch = child_with(ns, k1[0]);
        assert((k1 + k2).skip(1) =~= k1.skip(1) + k2);
        lemma_subtree_compose(ch, k1.skip(1), k2);
    }
}

/// Every node reached from a well-formed node is well-formed.
proof fn lemma_subtree_wf(n: TrieNode, k: Seq<char>)
    requires
        node_wf(n),
        subtree_at(n, k) is Some,
    ensures
        node_wf(subtree_at(n, k).unwrap()),
    decreases k.len(),
{
    if k.len() == 0 {
        lemma_subtree_at_empty(n, k);
    } else {
        lemma_subtree_at_step(n, k);
        let i = choose|i: int| 0 <= i < n.children@.len() && n.children@[i].character == k[0];
        assert(node_wf(n.children[i]));
        assert(child_with(n.children@, k[0]) == n.children@[i]);
        lemma_subtree_wf(n.children@[i], k.skip(1));
    }
}

/// The first resource below a well-formed node is always there, and it is
/// the resource of the lexicographically least path carrying one.
proof fn lemma_first_resource_least(n: TrieNode)
    requires
        node_wf(n),
    ensures
        first_resource(n) is Some,
        exists|k0: Seq<char>|
            #[trigger] node_resource(n, k0) == first_resource(n) && forall|k: Seq<char>|
                #[trigger] node_resource(n, k) is Some ==> lex_leq(k0, k),
    decreases n,
{
    if n.audio is Some {
        let k0 = Seq::<char>::empty();
        lemma_subtree_at_empty(n, k0);
        assert(node_resource(n, k0) == first_resource(n));
        assert(forall|k: Seq<char>| #[trigger] node_resource(n, k) is Some ==> lex_leq(k0, k));
    } else {
        assert(n.children@.len() > 0);
        let ch = n.children@[0];
        assert(node_wf(n.children[0]));
        assert(first_resource(n) == first_resource(ch));
        lemma_first_resource_least(ch);
        let k0p = choose|k0p: Seq<char>|
            #[trigger] node_resource(ch, k0p) == first_resource(ch) && forall|k: Seq<char>|
                #[trigger] node_resource(ch, k) is Some ==> lex_leq(k0p, k);
        let c0 = ch.character;
        let k0 = seq![c0] + k0p;
        assert(k0.len() > 0 && k0[0] == c0);
        lemma_child_with_is(n.children@, 0);
        lemma_subtree_at_step(n, k0);
        assert(k0.skip(1) =~= k0p);
        assert(node_resource(n, k0) == first_resource(n));
        assert forall|k: Seq<char>| #[trigger] node_resource(n, k) is Some implies lex_leq(
            k0,
            k,
        ) by {
            if k.len() == 0 {
                lemma_subtree_at_empty(n, k);
                assert(false);
            }
            lemma_subtree_at_step(n, k);
            assert(has_child(n.children@, k[0]));
            let i = choose|i: int| 0 <= i < n.children@.len() && n.children@[i].character == k[0];
            lemma_child_with_is(n.children@, i);
            if i == 0 {
                assert(child_with(n.children@, k[0]) == ch);
                assert(node_resource(ch, k.skip(1)) is Some);
                assert(lex_leq(k0p, k.skip(1)));
                assert(k0[0] == k[0]);
                assert(lex_leq(k0.skip(1), k.skip(1)));
                assert(lex_leq(k0, k));
            } else {
                assert((n.children@[0].character as u32) < (n.children@[i].character as u32));
                assert((k0[0] as u32) < (k[0] as u32));
                assert(lex_leq(k0, k));
            }
        }
    }
}

/// A well-formed node always has a first resource, and it is the resource of
/// some path below the node.
proof fn lemma_first_resource_key(n: TrieNode)
    requires
        node_wf(n),
    ensures
        first_resource(n) is Some,
        exists|k: Seq<char>| #[trigger] node_resource(n, k) == first_resource(n),
    decreases n,
{
    lemma_first_resource_least(n);
    let k0 = choose|k0: Seq<char>|
        #[trigger] node_resource(n, k0) == first_resource(n) && forall|k: Seq<char>|
            #[trigger] node_resource(n, k) is Some ==> lex_leq(k0, k);
    assert(node_resource(n, k0) == first_resource(n));
}

impl Trie {
    /// A nonempty path reaches a node exactly when some inserted syllable
    /// has it as a prefix; the reached node is well-formed.
    proof fn lemma_reaches(self, k: Seq<char>)
        requires
            self.wf(),
            k.len() > 0,
        ensures
            (forest_at(self.roots@, k) is Some) == reaches_key(self.as_map(), k),
            forest_at(self.roots@, k) is Some ==> node_wf(forest_at(self.roots@, k).unwrap()),
    {
        let ns = self.roots@;
        if forest_at(ns, k) is Some {
            let m = forest_at(ns, k).unwrap();
            let i = choose|i: int| 0 <= i < ns.len() && ns[i].character == k[0];
            assert(node_wf(ns[i]));
            assert(child_with(ns, k[0]) == ns[i]);
            lemma_subtree_wf(ns[i], k.skip(1));
            assert(node_wf(m));
            lemma_first_resource_key(m);
            let k2 = choose|k2: Seq<char>| #[trigger] node_resource(m, k2) == first_resource(m);
            let kk = k + k2;
            lemma_forest_compose(ns, k, k2);
            assert(forest_resource(ns, kk) == node_resource(m, k2));
            assert(self.as_map().dom().contains(kk));
            assert(kk.subrange(0, k.len() as int) =~= k);
            assert(k.is_prefix_of(kk));
            assert(reaches_key(self.as_map(), k));
        }
        if reaches_key(self.as_map(), k) {
            let kk = choose|kk: Seq<char>|
                #[trigger] self.as_map().dom().contains(kk) && k.is_prefix_of(kk);
            assert(forest_resource(ns, kk) is Some);
            let rest = kk.skip(k.len() as int);
            assert(kk =~= k + rest);
            lemma_forest_compose(ns, k, rest);
            assert(forest_at(ns, k) is Some);
        }
    }
}

/// Looking up an inserted syllable returns exactly its resource, flagged
/// complete exactly when no other inserted syllable strictly extends it.
pub proof fn lemma_lookup_hit(t: Trie, k: Seq<char>)
    requires
        t.wf(),
        t.as_map().dom().contains(k),
    ensures
        t.lookup_spec(k) == Some((t.as_map()[k], !extendable(t.as_map(), k))),
{
    let ns = t.roots@;
    assert(forest_resource(ns, k) is Some);
    assert(k.len() > 0);
    t.lemma_reaches(k);
    let m = forest_at(ns, k).unwrap();
    assert(m.audio == Some(t.as_map()[k]));
    if m.children@.len() > 0 {
        let ch = m.children@[0];
        assert(node_wf(m.children[0]));
        lemma_first_resource_key(ch);
        let k0 = choose|k0: Seq<char>| #[trigger] node_resource(ch, k0) == first_resource(ch);
        let tail = seq![ch.character] + k0;
        assert(tail.len() > 0 && tail[0] == ch.character);
        lemma_child_with_is(m.children@, 0);
        lemma_subtree_at_step(m, tail);
        assert(tail.skip(1) =~= k0);
        assert(node_resource(m, tail) is Some);
        let kk = k + tail;
        lemma_forest_compose(ns, k, tail);
        assert(forest_resource(ns, kk) is Some);
        assert(t.as_map().dom().contains(kk));
        assert(kk.subrange(0, k.len() as int) =~= k);
        assert(k.is_prefix_of(kk) && k.len() < kk.len());
        assert(extendable(t.as_map(), k));
    }
    if extendable(t.as_map(), k) {
        let kk = choose|kk: Seq<char>|
            #[trigger] t.as_map().dom().contains(kk) && k.is_prefix_of(kk) && k.len() < kk.len();
        assert(forest_resource(ns, kk) is Some);
        let rest = kk.skip(k.len() as int);
        assert(kk =~= k + rest);
        lemma_forest_compose(ns, k, rest);
        assert(subtree_at(m, rest) is Some);
        assert(rest.len() > 0);
        lemma_subtree_at_step(m, rest);
        assert(has_child(m.children@, rest[0]));
        assert(m.children@.len() > 0);
    }
}

/// Looking up the empty string, or a string that is not a prefix of any
/// inserted syllable, misses.
pub proof fn lemma_lookup_miss(t: Trie, k: Seq<char>)
    requires
        t.wf(),
        k.len() == 0 || !reaches_key(t.as_map(), k),
    ensures
        t.lookup_spec(k) == None::<(ResourceRef, bool)>,
{
    if k.len() > 0 {
        t.lemma_reaches(k);
    }
}

/// Prefix fallback: a candidate that leads into the tree without ending on
/// a resource resolves through its last character, never flagged complete.
/// When that character is itself an inserted one-letter syllable, its own
/// resource is returned; otherwise the resource of some inserted syllable
/// starting with that character; `None` exactly when there is none.
pub proof fn lemma_lookup_fallback(t: Trie, k: Seq<char>)
    requires
        t.wf(),
        k.len() > 0,
        !t.as_map().dom().contains(k),
        reaches_key(t.as_map(), k),
    ensures
        reaches_key(t.as_map(), seq![k.last()]) ==> exists|k2: Seq<char>|
            #[trigger] t.as_map().dom().contains(k2) && seq![k.last()].is_prefix_of(k2)
                && t.lookup_spec(k) == Some((t.as_map()[k2], false)) && (forall|kk: Seq<char>|
                #[trigger] t.as_map().dom().contains(kk) && seq![k.last()].is_prefix_of(kk)
                    ==> lex_leq(k2, kk)),
        t.as_map().dom().contains(seq![k.last()]) ==> t.lookup_spec(k) == Some(
            (t.as_map()[seq![k.last()]], false),
        ),
        !reaches_key(t.as_map(), seq![k.last()]) ==> t.lookup_spec(k) == None::<(
            ResourceRef,
            bool,
        )>,
{
    let ns = t.roots@;
    t.lemma_reaches(k);
    let m = forest_at(ns, k).unwrap();
    assert(m.audio is None) by {
        if m.audio is Some {
            assert(forest_resource(ns, k) is Some);
            assert(t.as_map().dom().contains(k));
        }
    }
    let last = seq![k.last()];
    assert(last.len() == 1);
    t.lemma_reaches(last);
    if reaches_key(t.as_map(), last) {
        let m2 = forest_at(ns, last).unwrap();
        assert(node_wf(m2));
        lemma_first_resource_least(m2);
        let r = first_resource(m2).unwrap();
        assert(t.lookup_spec(k) == Some((r, false)));
        let k0 = choose|k0: Seq<char>|
            #[trigger] node_resource(m2, k0) == first_resource(m2) && (forall|k3: Seq<char>|
                #[trigger] node_resource(m2, k3) is Some ==> lex_leq(k0, k3));
        let k2 = last + k0;
        lemma_forest_compose(ns, last, k0);
        assert(forest_resource(ns, k2) == node_resource(m2, k0));
        assert(t.as_map().dom().contains(k2));
        assert(k2.subrange(0, 1) =~= last);
        assert(last.is_prefix_of(k2));
        assert(t.as_map()[k2] == r);
        assert forall|kk: Seq<char>|
            #[trigger] t.as_map().dom().contains(kk) && last.is_prefix_of(kk) implies lex_leq(
            k2,
            kk,
        ) by {
            let rest = kk.skip(1);
            assert(kk =~= last + rest);
            lemma_forest_compose(ns, last, rest);
            assert(forest_resource(ns, kk) == node_resource(m2, rest));
            assert(node_resource(m2, rest) is Some);
            assert(lex_leq(k0, rest));
            assert(k2[0] == kk[0]);
            assert(k2.skip(1) =~= k0);
            assert(lex_leq(k2.skip(1), kk.skip(1)));
            assert(lex_leq(k2, kk));
        }
        assert(t.as_map().dom().contains(k2) && last.is_prefix_of(k2) && t.lookup_spec(k)
            == Some((t.as_map()[k2], false)) && (forall|kk: Seq<char>|
            #[trigger] t.as_map().dom().contains(kk) && last.is_prefix_of(kk)
                ==> lex_leq(k2, kk)));
        if t.as_map().dom().contains(last) {
            assert(forest_resource(ns, last) is Some);
            assert(m2.audio is Some);
            assert(first_resource(m2) == m2.audio);
            assert(t.as_map()[last] == r);
        }
    } else {
        assert(forest_at(ns, last) is None);
    }
}

/// `lex_leq` orders sequences antisymmetrically, so the least syllable the
/// fallback resolves to is unique.
pub proof fn lemma_lex_leq_antisymmetric(a: Seq<char>, b: Seq<char>)
    requires
        lex_leq(a, b),
        lex_leq(b, a),
    ensures
        a == b,
    decreases a.len(),
{
    if a.len() == 0 {
        assert(b.len() == 0);
        assert(a =~= b);
    } else {
        assert(b.len() > 0);
        assert(a[0] == b[0]);
        lemma_lex_leq_antisymmetric(a.skip(1), b.skip(1));
        assert(a =~= b) by {
            assert(forall|i: int| 1 <= i < a.len() ==> a[i] == a.skip(1)[i - 1]);
            assert(forall|i: int| 1 <= i < b.len() ==> b[i] == b.skip(1)[i - 1]);
        }
    }
}

/// Round trip: a syllable inserted while no other inserted syllable is a
/// prefix or an extension of it looks up to exactly its own resource,
/// flagged complete.
pub proof fn lemma_round_trip(t: Trie, k: Seq<char>, r: ResourceRef)
    requires
        t.wf(),
        t.as_map().dom().contains(k),
        t.as_map()[k] == r,
        forall|k2: Seq<char>|
            #[trigger] t.as_map().dom().contains(k2) && k2 != k ==> !k.is_prefix_of(k2)
                && !k2.is_prefix_of(k),
    ensures
        t.lookup_spec(k) == Some((r, true)),
{
    lemma_lookup_hit(t, k);
    if extendable(t.as_map(), k) {
        let kk = choose|kk: Seq<char>|
            #[trigger] t.as_map().dom().contains(kk) && k.is_prefix_of(kk) && k.len() < kk.len();
        assert(kk != k);
        assert(false);
    }
}


} // verus!
