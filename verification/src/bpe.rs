//! Byte-pair-encoding merges: the rank table and the greedy merge loop that
//! both tokenizers share.
use vstd::prelude::*;
use vstd::hash_map::StringHashMap;
use vstd::seq_lib::lemma_flatten_concat;

verus! {

/// A pair of adjacent symbols, as text.
pub type SymbolPair = (Seq<char>, Seq<char>);

/// The texts of a sequence of owned strings.
pub open spec fn string_views(s: Seq<String>) -> Seq<Seq<char>> {
    s.map_values(|x: String| x@)
}

/// The merge ranks: for each pair of symbols that may be merged, its rank
/// (a lower rank is merged first).
///
/// The table is keyed first by the left symbol, which leads to a slot of
/// `seconds`, a map from the right symbol to the rank.
pub struct MergeTable {
    firsts: StringHashMap<usize>,
    seconds: Vec<StringHashMap<usize>>,
}

impl MergeTable {
    /// Every slot that `firsts` names exists, and no two left symbols share one.
    pub closed spec fn wf(&self) -> bool {
        &&& forall|a: Seq<char>| #[trigger]
            self.firsts@.contains_key(a) ==> self.firsts@[a] < self.seconds.len()
        &&& forall|a1: Seq<char>, a2: Seq<char>|
            #[trigger] self.firsts@.contains_key(a1) && #[trigger] self.firsts@.contains_key(a2)
                && a1 != a2 ==> self.firsts@[a1] != self.firsts@[a2]
    }

    closed spec fn lookup(&self, a: Seq<char>, b: Seq<char>) -> Option<usize> {
        if self.firsts@.contains_key(a) && self.seconds@[self.firsts@[a] as int]@.contains_key(b) {
            Some(self.seconds@[self.firsts@[a] as int]@[b])
        } else {
            None
        }
    }

    /// An empty table.
    pub fn new() -> (t: MergeTable)
        ensures
            t.wf(),
            t@ == Map::<SymbolPair, usize>::empty(),
    {
        let t = MergeTable { firsts: StringHashMap::new(), seconds: Vec::new() };
        assert(t@ =~= Map::<SymbolPair, usize>::empty());
        t
    }

    /// Sets the rank of the pair `(a, b)`, replacing an earlier rank of it.
    pub fn insert(&mut self, a: String, b: String, rank: usize)
        requires
            old(self).wf(),
        ensures
            final(self).wf(),
            final(self)@ == old(self)@.insert((a@, b@), rank),
    {
        let ghost pre = *self;
        match self.firsts.get(a.as_str()) {
            Some(slot) => {
                let slot = *slot;
                self.seconds[slot].insert(b, rank);
                assert(self.firsts@ == pre.firsts@);
                assert(self.seconds@.len() == pre.seconds@.len());
                assert(self.seconds@[slot as int]@ == pre.seconds@[slot as int]@.insert(b@, rank));
                assert forall|p: SymbolPair| #[trigger] self.lookup(p.0, p.1) == (if p == (a@, b@) {
                    Some(rank)
                } else {
                    pre.lookup(p.0, p.1)
                }) by {
                    if self.firsts@.contains_key(p.0) && self.firsts@[p.0] != slot {
                        assert(self.seconds@[self.firsts@[p.0] as int] == pre.seconds@[self.firsts@[p.0] as int]);
                    }

                }
            },
            None => {
                let mut inner: StringHashMap<usize> = StringHashMap::new();
                inner.insert(b, rank);
                let slot = self.seconds.len();
                self.seconds.push(inner);
                self.firsts.insert(a, slot);
                assert forall|p: SymbolPair| #[trigger] self.lookup(p.0, p.1) == (if p == (a@, b@) {
                    Some(rank)
                } else {
                    pre.lookup(p.0, p.1)
                }) by {
                    if p.0 != a@ && self.firsts@.contains_key(p.0) {
                        assert(self.seconds@[self.firsts@[p.0] as int] == pre.seconds@[self.firsts@[p.0] as int]);
                    }
                }
            },
        }
        assert(self@ =~= pre@.insert((a@, b@), rank));
    }

    /// The rank of the pair `(a, b)`, if it may be merged.
    pub fn rank(&self, a: &str, b: &str) -> (r: Option<usize>)
        requires
            self.wf(),
        ensures
            r == (if self@.contains_key((a@, b@)) {
                Some(self@[(a@, b@)])
            } else {
                None
            }),
    {
        match self.firsts.get(a) {
            Some(slot) => {
                let slot = *slot;
                match self.seconds[slot].get(b) {
                    Some(r) => Some(*r),
                    None => None,
                }
            },
            None => None,
        }
    }
}

impl View for MergeTable {
    type V = Map<SymbolPair, usize>;

    closed spec fn view(&self) -> Map<SymbolPair, usize> {
        Map::new(
            |p: SymbolPair| self.lookup(p.0, p.1) is Some,
            |p: SymbolPair| self.lookup(p.0, p.1).unwrap(),
        )
    }
}

/// The pair at `i` (symbols `i` and `i + 1`) has a rank.
pub open spec fn pair_ranked(ranks: Map<SymbolPair, usize>, s: Seq<Seq<char>>, i: int) -> bool {
    0 <= i < s.len() - 1 && ranks.contains_key((s[i], s[i + 1]))
}

/// The rank of the pair at `i`.
pub open spec fn pair_rank(ranks: Map<SymbolPair, usize>, s: Seq<Seq<char>>, i: int) -> usize {
    ranks[(s[i], s[i + 1])]
}

/// The pair at `i` is the one merged next: its rank is the lowest of all
/// ranked pairs, and no pair before it has that rank.
pub open spec fn is_best_merge(ranks: Map<SymbolPair, usize>, s: Seq<Seq<char>>, i: int) -> bool {
    &&& pair_ranked(ranks, s, i)
    &&& forall|j: int| #[trigger]
        pair_ranked(ranks, s, j) ==> pair_rank(ranks, s, i) <= pair_rank(ranks, s, j)
    &&& forall|j: int|
        0 <= j < i && #[trigger] pair_ranked(ranks, s, j) ==> pair_rank(ranks, s, i) < pair_rank(
            ranks,
            s,
            j,
        )
}

/// `s` with the symbols at `i` and `i + 1` joined into one.
pub open spec fn merge_at(s: Seq<Seq<char>>, i: int) -> Seq<Seq<char>> {
    s.take(i).push(s[i] + s[i + 1]) + s.skip(i + 2)
}

/// Greedy byte-pair encoding: while some adjacent pair has a rank, merge
/// the first pair of lowest rank.
pub open spec fn bpe(ranks: Map<SymbolPair, usize>, s: Seq<Seq<char>>) -> Seq<Seq<char>>
    decreases s.len(),
{
    if exists|i: int| is_best_merge(ranks, s, i) {
        let i = choose|i: int| is_best_merge(ranks, s, i);
        bpe(ranks, merge_at(s, i))
    } else {
        s
    }
}

/// At most one pair is the next to merge.
pub proof fn lemma_best_merge_unique(ranks: Map<SymbolPair, usize>, s: Seq<Seq<char>>, i: int, j: int)
    requires
        is_best_merge(ranks, s, i),
        is_best_merge(ranks, s, j),
    ensures
        i == j,
{
    if i < j {
        assert(pair_ranked(ranks, s, i));
    } else if j < i {
        assert(pair_ranked(ranks, s, j));
    }
}

/// Joining a pair keeps the text of the whole sequence.
pub proof fn lemma_merge_at_flatten(s: Seq<Seq<char>>, i: int)
    requires
        0 <= i < s.len() - 1,
    ensures
        merge_at(s, i).flatten() == s.flatten(),
        merge_at(s, i).len() == s.len() - 1,
{
    let a = s.take(i);
    let rest = s.skip(i + 2);
    lemma_flatten_concat(a.push(s[i] + s[i + 1]), rest);
    a.lemma_flatten_push(s[i] + s[i + 1]);
    assert(s =~= a + seq![s[i], s[i + 1]] + rest);
    lemma_flatten_concat(a + seq![s[i], s[i + 1]], rest);
    lemma_flatten_concat(a, seq![s[i], s[i + 1]]);
    assert(seq![s[i], s[i + 1]] =~= seq![s[i]].push(s[i + 1]));
    seq![s[i]].lemma_flatten_push(s[i + 1]);
    seq![s[i]].lemma_flatten_one_element();
    assert(seq![s[i], s[i + 1]].flatten() =~= s[i] + s[i + 1]);
    assert(a.push(s[i] + s[i + 1]).flatten() =~= a.flatten() + (s[i] + s[i + 1]));
}

/// Merging never changes the text: the symbols that byte-pair encoding
/// returns spell out exactly the text of the symbols it was given, and
/// there are never more of them.
pub proof fn lemma_bpe_keeps_text(ranks: Map<SymbolPair, usize>, s: Seq<Seq<char>>)
    ensures
        bpe(ranks, s).flatten() == s.flatten(),
        bpe(ranks, s).len() <= s.len(),
    decreases s.len(),
{
    if exists|i: int| is_best_merge(ranks, s, i) {
        let i = choose|i: int| is_best_merge(ranks, s, i);
        lemma_merge_at_flatten(s, i);
        lemma_bpe_keeps_text(ranks, merge_at(s, i));
    }
}

/// Among the pairs before `n`, some pair is the lowest-ranked first one,
/// if any of them has a rank.
proof fn lemma_best_in_prefix(ranks: Map<SymbolPair, usize>, s: Seq<Seq<char>>, n: int)
    requires
        0 <= n,
        exists|j: int| 0 <= j < n && #[trigger] pair_ranked(ranks, s, j),
    ensures
        exists|i: int|
            {
                &&& 0 <= i < n
                &&& #[trigger] pair_ranked(ranks, s, i)
                &&& forall|j: int|
                    0 <= j < n && #[trigger] pair_ranked(ranks, s, j) ==> pair_rank(ranks, s, i)
                        <= pair_rank(ranks, s, j)
                &&& forall|j: int|
                    0 <= j < i && #[trigger] pair_ranked(ranks, s, j) ==> pair_rank(ranks, s, i)
                        < pair_rank(ranks, s, j)
            },
    decreases n,
{
    if exists|j: int| 0 <= j < n - 1 && #[trigger] pair_ranked(ranks, s, j) {
        lemma_best_in_prefix(ranks, s, n - 1);
        let i = choose|i: int|
            {
                &&& 0 <= i < n - 1
                &&& #[trigger] pair_ranked(ranks, s, i)
                &&& forall|j: int|
                    0 <= j < n - 1 && #[trigger] pair_ranked(ranks, s, j) ==> pair_rank(ranks, s, i)
                        <= pair_rank(ranks, s, j)
                &&& forall|j: int|
                    0 <= j < i && #[trigger] pair_ranked(ranks, s, j) ==> pair_rank(ranks, s, i)
                        < pair_rank(ranks, s, j)
            };
        if pair_ranked(ranks, s, n - 1) && pair_rank(ranks, s, n - 1) < pair_rank(ranks, s, i) {
            let k = n - 1;
            assert(forall|j: int|
                0 <= j < n && #[trigger] pair_ranked(ranks, s, j) ==> pair_rank(ranks, s, k) <= pair_rank(
                    ranks,
                    s,
                    j,
                ));
            assert(forall|j: int|
                0 <= j < k && #[trigger] pair_ranked(ranks, s, j) ==> pair_rank(ranks, s, k) < pair_rank(
                    ranks,
                    s,
                    j,
                ));
        } else {
            assert(forall|j: int|
                0 <= j < n && #[trigger] pair_ranked(ranks, s, j) ==> pair_rank(ranks, s, i) <= pair_rank(
                    ranks,
                    s,
                    j,
                ));
        }
    } else {
        let k = n - 1;
        assert(pair_ranked(ranks, s, k));
        assert(forall|j: int|
            0 <= j < n && #[trigger] pair_ranked(ranks, s, j) ==> j == k);
    }
}

/// Byte-pair encoding stops only when no adjacent pair of the result can
/// be merged.
pub proof fn lemma_bpe_leaves_no_merge(ranks: Map<SymbolPair, usize>, s: Seq<Seq<char>>)
    ensures
        forall|j: int| !#[trigger] pair_ranked(ranks, bpe(ranks, s), j),
    decreases s.len(),
{
    if exists|i: int| is_best_merge(ranks, s, i) {
        let i = choose|i: int| is_best_merge(ranks, s, i);
        lemma_merge_at_flatten(s, i);
        lemma_bpe_leaves_no_merge(ranks, merge_at(s, i));
        assert(bpe(ranks, s) == bpe(ranks, merge_at(s, i)));
    } else {
        assert(bpe(ranks, s) == s);
        if exists|j: int| #[trigger] pair_ranked(ranks, s, j) {
            let j0 = choose|j: int| #[trigger] pair_ranked(ranks, s, j);
            lemma_best_in_prefix(ranks, s, s.len() - 1);
            let i = choose|i: int|
                {
                    &&& 0 <= i < s.len() - 1
                    &&& #[trigger] pair_ranked(ranks, s, i)
                    &&& forall|j: int|
                        0 <= j < s.len() - 1 && #[trigger] pair_ranked(ranks, s, j) ==> pair_rank(
                            ranks,
                            s,
                            i,
                        ) <= pair_rank(ranks, s, j)
                    &&& forall|j: int|
                        0 <= j < i && #[trigger] pair_ranked(ranks, s, j) ==> pair_rank(ranks, s, i)
                            < pair_rank(ranks, s, j)
                };
            assert(is_best_merge(ranks, s, i));
        }
    }
}

/// Finds the pair that byte-pair encoding merges next, if any.
pub fn find_best_merge(ranks: &MergeTable, symbols: &Vec<String>) -> (r: Option<usize>)
    requires
        ranks.wf(),
    ensures
        match r {
            Some(i) => is_best_merge(ranks@, string_views(symbols@), i as int),
            None => forall|j: int| !#[trigger] pair_ranked(ranks@, string_views(symbols@), j),
        },
{
    let ghost s = string_views(symbols@);
    let n = symbols.len();
    let mut best: Option<usize> = None;
    let mut best_rank: usize = 0;
    let mut i: usize = 0;
    while i + 1 < n
        invariant
            n == symbols.len(),
            s == string_views(symbols@),
            ranks.wf(),
            i <= n,
            n > 0 ==> i < n,
            match best {
                None => forall|j: int| 0 <= j < i ==> !#[trigger] pair_ranked(ranks@, s, j),
                Some(b) => {
                    &&& b < i
                    &&& pair_ranked(ranks@, s, b as int)
                    &&& pair_rank(ranks@, s, b as int) == best_rank
                    &&& forall|j: int|
                        0 <= j < i && #[trigger] pair_ranked(ranks@, s, j) ==> best_rank
                            <= pair_rank(ranks@, s, j)
                    &&& forall|j: int|
                        0 <= j < b && #[trigger] pair_ranked(ranks@, s, j) ==> best_rank
                            < pair_rank(ranks@, s, j)
                },
            },
        decreases n - i,
    {
        let r = ranks.rank(symbols[i].as_str(), symbols[i + 1].as_str());
        assert(s[i as int] == symbols@[i as int]@ && s[i + 1] == symbols@[i + 1]@);
        match r {
            Some(rank) => {
                let better = match best {
                    None => true,
                    Some(_) => rank < best_rank,
                };
                if better {
                    best = Some(i);
                    best_rank = rank;
                }
            },
            None => {},
        }
        i = i + 1;
    }
    proof {
        assert forall|j: int| #[trigger] pair_ranked(ranks@, s, j) implies 0 <= j < i by {}
    }
    best
}

/// Runs byte-pair encoding on `symbols` in place.
pub fn apply_merges(ranks: &MergeTable, symbols: &mut Vec<String>)
    requires
        ranks.wf(),
    ensures
        string_views(final(symbols)@) == bpe(ranks@, string_views(old(symbols)@)),
{
    let ghost goal = bpe(ranks@, string_views(symbols@));
    loop
        invariant
            ranks.wf(),
            bpe(ranks@, string_views(symbols@)) == goal,
        ensures
            string_views(symbols@) == goal,
        decreases symbols.len(),
    {
        let ghost s = string_views(symbols@);
        match find_best_merge(ranks, symbols) {
            None => {
                assert(!exists|i: int| is_best_merge(ranks@, s, i));
                break;
            },
            Some(i) => {
                proof {
                    let k = choose|k: int| is_best_merge(ranks@, s, k);
                    lemma_best_merge_unique(ranks@, s, i as int, k);
                    assert(bpe(ranks@, s) == bpe(ranks@, merge_at(s, i as int)));
                }
                let mut merged = symbols[i].clone();
                merged.append(symbols[i + 1].as_str());
                symbols.set(i, merged);
                symbols.remove(i + 1);
                assert(string_views(symbols@) =~= merge_at(s, i as int));
            },
        }
    }
}

} // verus!
