//! Conflict-aware ordering of scheduled transactions.
//!
//! A transaction's conflict score counts the accounts it touches that are hot
//! (their number is 0 or 1 modulo 7) and takes the larger of its read and
//! write set sizes as its dependency depth. Sorting puts the least
//! conflicting transactions first.
use vstd::prelude::*;

verus! {

/// How contended a transaction is.
#[derive(Debug, Clone, Copy, PartialEq, Eq, Structural)]
pub struct ConflictScore {
    pub hot_account_conflicts: u32,
    pub dependency_depth: u32,
}

impl Default for ConflictScore {
    fn default() -> (score: Self)
        ensures
            score == zero_score(),
    {
        ConflictScore { hot_account_conflicts: 0, dependency_depth: 0 }
    }
}

/// A transaction waiting to be scheduled, with the accounts it reads and
/// writes.
#[derive(Debug, Clone, PartialEq, Eq)]
pub struct ScheduledTransaction {
    pub id: u64,
    pub read_accounts: Vec<u64>,
    pub write_accounts: Vec<u64>,
}

/// The transactions waiting to be scheduled.
#[derive(Debug)]
pub struct Scheduler {
    pub transactions: Vec<ScheduledTransaction>,
}

impl Default for Scheduler {
    fn default() -> (scheduler: Self)
        ensures
            scheduler.transactions@ == Seq::<ScheduledTransaction>::empty(),
    {
        Scheduler { transactions: Vec::new() }
    }
}

/// The score with both components zero.
pub open spec fn zero_score() -> ConflictScore {
    ConflictScore { hot_account_conflicts: 0, dependency_depth: 0 }
}

/// An account whose number is 0 or 1 modulo 7.
pub open spec fn is_hot(account: u64) -> bool {
    account % 7 == 0 || account % 7 == 1
}

/// How many of `accounts` are hot, counting repeats.
pub open spec fn hot_count(accounts: Seq<u64>) -> nat
    decreases accounts.len(),
{
    if accounts.len() == 0 {
        0
    } else {
        hot_count(accounts.drop_last()) + if is_hot(accounts.last()) {
            1nat
        } else {
            0nat
        }
    }
}

/// The score of a transaction: the hot accounts of its read and then its write
/// set, and the larger of the two set sizes, each truncated to 32 bits.
pub open spec fn conflict_score(tx: ScheduledTransaction) -> ConflictScore {
    let reads = tx.read_accounts@.len();
    let writes = tx.write_accounts@.len();
    ConflictScore {
        hot_account_conflicts: (hot_count(tx.read_accounts@) + hot_count(
            tx.write_accounts@,
        )) as u32,
        dependency_depth: (if writes >= reads {
            writes
        } else {
            reads
        }) as u32,
    }
}

/// The score that sorting gives every transaction with identifier `id`: the
/// score of the first transaction in `txs` with that identifier (zero when
/// there is none).
pub open spec fn first_score(txs: Seq<ScheduledTransaction>, id: u64) -> ConflictScore
    decreases txs.len(),
{
    if txs.len() == 0 {
        zero_score()
    } else if txs[0].id == id {
        conflict_score(txs[0])
    } else {
        first_score(txs.drop_first(), id)
    }
}

/// The sort key of `tx` among `txs`: its score's hot-account count, then its
/// dependency depth, then its identifier.
pub open spec fn sort_key(txs: Seq<ScheduledTransaction>, tx: ScheduledTransaction) -> (
    u32,
    u32,
    u64,
) {
    let score = first_score(txs, tx.id);
    (score.hot_account_conflicts, score.dependency_depth, tx.id)
}

/// Lexicographic order on sort keys.
pub open spec fn key_le(a: (u32, u32, u64), b: (u32, u32, u64)) -> bool {
    a.0 < b.0 || (a.0 == b.0 && (a.1 < b.1 || (a.1 == b.1 && a.2 <= b.2)))
}

/// `sorted` is `txs` reordered by the index map `order` (`sorted[i]` is
/// `txs[order[i]]`, no index taken twice), in non-decreasing key order, with
/// transactions of equal key in their original relative order.
pub open spec fn is_stable_sort(
    txs: Seq<ScheduledTransaction>,
    sorted: Seq<ScheduledTransaction>,
    order: Seq<int>,
) -> bool {
    &&& sorted.len() == txs.len()
    &&& order.len() == txs.len()
    &&& forall|i: int| 0 <= i < order.len() ==> 0 <= #[trigger] order[i] < txs.len()
    &&& forall|i: int| 0 <= i < order.len() ==> #[trigger] sorted[i] == txs[order[i]]
    &&& forall|i: int, j: int|
        0 <= i < order.len() && 0 <= j < order.len() && i != j ==> #[trigger] order[i]
            != #[trigger] order[j]
    &&& forall|i: int, j: int|
        0 <= i < j < sorted.len() ==> key_le(
            sort_key(txs, #[trigger] sorted[i]),
            sort_key(txs, #[trigger] sorted[j]),
        )
    &&& forall|i: int, j: int|
        0 <= i < j < sorted.len() && sort_key(txs, #[trigger] sorted[i]) == sort_key(
            txs,
            #[trigger] sorted[j],
        ) ==> order[i] < order[j]
}

/// The first transaction with a given identifier decides `first_score`.
proof fn lemma_first_score_at(txs: Seq<ScheduledTransaction>, id: u64, k: int)
    requires
        0 <= k < txs.len(),
        txs[k].id == id,
        forall|i: int| 0 <= i < k ==> txs[i].id != id,
    ensures
        first_score(txs, id) == conflict_score(txs[k]),
    decreases k,
{
    if k > 0 {
        let rest = txs.drop_first();
        assert forall|i: int| 0 <= i < k - 1 implies rest[i].id != id by {
            assert(rest[i] == txs[i + 1]);
        }
        lemma_first_score_at(rest, id, k - 1);
    }
}

/// The hot-account count of a list of accounts is the number of its entries,
/// repeats included, whose number leaves remainder 0 or 1 when divided by 7.
pub proof fn lemma_hot_count_counts_residues(accounts: Seq<u64>)
    ensures
        hot_count(accounts) == accounts.filter(|a: u64| a % 7 == 0 || a % 7 == 1).len(),
    decreases accounts.len(),
{
    reveal(Seq::filter);
    if accounts.len() > 0 {
        lemma_hot_count_counts_residues(accounts.drop_last());
    }
}

/// A transaction's score counts the accounts of its read set and of its
/// write set whose number is 0 or 1 modulo 7 (the sum truncated to 32 bits),
/// and its dependency depth is the size of the larger of the two sets.
pub proof fn lemma_score_counts_hot_residues(tx: ScheduledTransaction)
    ensures
        conflict_score(tx).hot_account_conflicts == (tx.read_accounts@.filter(
            |a: u64| a % 7 == 0 || a % 7 == 1,
        ).len() + tx.write_accounts@.filter(|a: u64| a % 7 == 0 || a % 7 == 1).len()) as u32,
        conflict_score(tx).dependency_depth == (if tx.write_accounts@.len()
            >= tx.read_accounts@.len() {
            tx.write_accounts@.len()
        } else {
            tx.read_accounts@.len()
        }) as u32,
{
    lemma_hot_count_counts_residues(tx.read_accounts@);
    lemma_hot_count_counts_residues(tx.write_accounts@);
}

/// In a stable sort by conflict, of two transactions the one with fewer
/// hot-account conflicts comes first, whatever their dependency depths; with
/// equal counts the one of smaller depth comes first, and with equal counts
/// and depths the one of smaller identifier.
pub proof fn lemma_sorted_fewer_conflicts_first(
    txs: Seq<ScheduledTransaction>,
    sorted: Seq<ScheduledTransaction>,
    order: Seq<int>,
    i: int,
    j: int,
)
    requires
        is_stable_sort(txs, sorted, order),
        0 <= i < j < sorted.len(),
    ensures
        ({
            let a = first_score(txs, sorted[i].id);
            let b = first_score(txs, sorted[j].id);
            &&& a.hot_account_conflicts <= b.hot_account_conflicts
            &&& a.hot_account_conflicts == b.hot_account_conflicts ==> a.dependency_depth
                <= b.dependency_depth
            &&& a.hot_account_conflicts == b.hot_account_conflicts && a.dependency_depth
                == b.dependency_depth ==> sorted[i].id <= sorted[j].id
        }),
{
    assert(key_le(sort_key(txs, sorted[i]), sort_key(txs, sorted[j])));
}

/// Counts the hot accounts in `accounts`.
fn count_hot(accounts: &Vec<u64>) -> (count: usize)
    ensures
        count == hot_count(accounts@),
{
    let mut count: usize = 0;
    let mut i: usize = 0;
    while i < accounts.len()
        invariant
            0 <= i <= accounts@.len(),
            count == hot_count(accounts@.take(i as int)),
            count <= i,
        decreases accounts.len() - i,
    {
        assert(accounts@.take(i + 1).drop_last() =~= accounts@.take(i as int));
        let account = accounts[i];
        if account % 7 == 0 || account % 7 == 1 {
            count = count + 1;
        }
        i = i + 1;
    }
    assert(accounts@.take(accounts@.len() as int) =~= accounts@);
    count
}

/// Whether key `a` orders no later than key `b`.
fn key_at_most(a: (u32, u32, u64), b: (u32, u32, u64)) -> (le: bool)
    ensures
        le == key_le(a, b),
{
    a.0 < b.0 || (a.0 == b.0 && (a.1 < b.1 || (a.1 == b.1 && a.2 <= b.2)))
}

/// The sort key for identifier `id`, looked up in the scores of `txs` listed
/// in order as `(id, score)`.
fn key_for(scores: &Vec<(u64, ConflictScore)>, id: u64, Ghost(txs): Ghost<
    Seq<ScheduledTransaction>,
>) -> (key: (u32, u32, u64))
    requires
        scores@.len() == txs.len(),
        forall|j: int|
            0 <= j < txs.len() ==> #[trigger] scores@[j] == (txs[j].id, conflict_score(txs[j])),
    ensures
        key == (
            first_score(txs, id).hot_account_conflicts,
            first_score(txs, id).dependency_depth,
            id,
        ),
{
    let mut j: usize = 0;
    while j < scores.len()
        invariant
            0 <= j <= scores@.len(),
            scores@.len() == txs.len(),
            forall|i: int|
                0 <= i < txs.len() ==> #[trigger] scores@[i] == (txs[i].id, conflict_score(txs[i])),
            forall|i: int| 0 <= i < j ==> txs[i].id != id,
        decreases scores.len() - j,
    {
        let (candidate, score) = scores[j];
        if candidate == id {
            proof {
                lemma_first_score_at(txs, id, j as int);
            }
            return (score.hot_account_conflicts, score.dependency_depth, id);
        }
        j = j + 1;
    }
    proof {
        lemma_first_score_absent(txs, id);
    }
    let score = ConflictScore::default();
    (score.hot_account_conflicts, score.dependency_depth, id)
}

/// With no transaction of identifier `id`, `first_score` is zero.
proof fn lemma_first_score_absent(txs: Seq<ScheduledTransaction>, id: u64)
    requires
        forall|i: int| 0 <= i < txs.len() ==> txs[i].id != id,
    ensures
        first_score(txs, id) == zero_score(),
    decreases txs.len(),
{
    if txs.len() > 0 {
        let rest = txs.drop_first();
        assert forall|i: int| 0 <= i < rest.len() implies rest[i].id != id by {
            assert(rest[i] == txs[i + 1]);
        }
        lemma_first_score_absent(rest, id);
    }
}

/// The first position in the sorted `keys` whose key is not below `key`.
fn insertion_point(keys: &Vec<(u32, u32, u64)>, key: (u32, u32, u64)) -> (pos: usize)
    requires
        forall|i: int, j: int| 0 <= i < j < keys@.len() ==> key_le(#[trigger] keys@[i], #[trigger] keys@[j]),
    ensures
        pos <= keys@.len(),
        forall|i: int| 0 <= i < pos ==> !key_le(key, #[trigger] keys@[i]),
        forall|i: int| pos <= i < keys@.len() ==> key_le(key, #[trigger] keys@[i]),
{
    let mut pos: usize = 0;
    while pos < keys.len()
        invariant
            0 <= pos <= keys@.len(),
            forall|i: int, j: int| 0 <= i < j < keys@.len() ==> key_le(#[trigger] keys@[i], #[trigger] keys@[j]),
            forall|i: int| 0 <= i < pos ==> !key_le(key, #[trigger] keys@[i]),
        decreases keys.len() - pos,
    {
        if key_at_most(key, keys[pos]) {
            assert forall|i: int| pos <= i < keys@.len() implies key_le(key, #[trigger] keys@[i]) by {
                if i > pos {
                    assert(key_le(keys@[pos as int], keys@[i]));
                }
            }
            return pos;
        }
        pos = pos + 1;
    }
    pos
}

impl Scheduler {
    /// The conflict score of `tx`.
    pub fn score_conflicts(&self, tx: &ScheduledTransaction) -> (score: ConflictScore)
        ensures
            score == conflict_score(*tx),
            score.hot_account_conflicts == (tx.read_accounts@.filter(
                |a: u64| a % 7 == 0 || a % 7 == 1,
            ).len() + tx.write_accounts@.filter(|a: u64| a % 7 == 0 || a % 7 == 1).len()) as u32,
            score.dependency_depth == (if tx.write_accounts@.len() >= tx.read_accounts@.len() {
                tx.write_accounts@.len()
            } else {
                tx.read_accounts@.len()
            }) as u32,
    {
        proof {
            lemma_score_counts_hot_residues(*tx);
        }
        let read_hot = count_hot(&tx.read_accounts);
        let write_hot = count_hot(&tx.write_accounts);
        let total: u128 = read_hot as u128 + write_hot as u128;
        let reads = tx.read_accounts.len();
        let writes = tx.write_accounts.len();
        let depth = if writes >= reads {
            writes
        } else {
            reads
        };
        ConflictScore { hot_account_conflicts: total as u32, dependency_depth: depth as u32 }
    }

    /// Sorts the transactions, stably, by the hot-account count and then the
    /// dependency depth of their score, then by identifier. Every transaction
    /// is sorted by the score of the first transaction that carries its
    /// identifier.
    pub fn sort_by_conflict(&mut self)
        ensures
            exists|order: Seq<int>|
                is_stable_sort(old(self).transactions@, final(self).transactions@, order),
            forall|i: int, j: int|
                0 <= i < j < final(self).transactions@.len() ==> {
                    let a = first_score(
                        old(self).transactions@,
                        (#[trigger] final(self).transactions@[i]).id,
                    );
                    let b = first_score(
                        old(self).transactions@,
                        (#[trigger] final(self).transactions@[j]).id,
                    );
                    &&& a.hot_account_conflicts <= b.hot_account_conflicts
                    &&& a.hot_account_conflicts == b.hot_account_conflicts
                        ==> a.dependency_depth <= b.dependency_depth
                    &&& a.hot_account_conflicts == b.hot_account_conflicts && a.dependency_depth
                        == b.dependency_depth ==> final(self).transactions@[i].id
                        <= final(self).transactions@[j].id
                },
    {
        let ghost txs = self.transactions@;
        let mut scores: Vec<(u64, ConflictScore)> = Vec::new();
        let mut i: usize = 0;
        while i < self.transactions.len()
            invariant
                0 <= i <= self.transactions@.len(),
                self.transactions@ == txs,
                scores@.len() == i,
                forall|j: int|
                    0 <= j < i ==> #[trigger] scores@[j] == (txs[j].id, conflict_score(txs[j])),
            decreases self.transactions.len() - i,
        {
            let score = self.score_conflicts(&self.transactions[i]);
            scores.push((self.transactions[i].id, score));
            i = i + 1;
        }
        let mut remaining: Vec<ScheduledTransaction> = Vec::new();
        std::mem::swap(&mut remaining, &mut self.transactions);
        let mut sorted: Vec<ScheduledTransaction> = Vec::new();
        let mut keys: Vec<(u32, u32, u64)> = Vec::new();
        let ghost mut order: Seq<int> = Seq::empty();
        while remaining.len() > 0
            invariant
                remaining@.len() <= txs.len(),
                remaining@ == txs.take(remaining@.len() as int),
                scores@.len() == txs.len(),
                forall|j: int|
                    0 <= j < txs.len() ==> #[trigger] scores@[j] == (txs[j].id, conflict_score(txs[j])),
                sorted@.len() + remaining@.len() == txs.len(),
                keys@.len() == sorted@.len(),
                order.len() == sorted@.len(),
                forall|i: int|
                    0 <= i < order.len() ==> remaining@.len() <= #[trigger] order[i] < txs.len(),
                forall|i: int| 0 <= i < order.len() ==> #[trigger] sorted@[i] == txs[order[i]],
                forall|i: int| 0 <= i < keys@.len() ==> #[trigger] keys@[i] == sort_key(txs, sorted@[i]),
                forall|i: int, j: int|
                    0 <= i < order.len() && 0 <= j < order.len() && i != j ==> #[trigger] order[i]
                        != #[trigger] order[j],
                forall|i: int, j: int|
                    0 <= i < j < keys@.len() ==> key_le(#[trigger] keys@[i], #[trigger] keys@[j]),
                forall|i: int, j: int|
                    0 <= i < j < keys@.len() && #[trigger] keys@[i] == #[trigger] keys@[j]
                        ==> order[i] < order[j],
            decreases remaining.len(),
        {
            let ghost r = (remaining@.len() - 1) as int;
            let tx = remaining.pop().unwrap();
            assert(tx == txs[r]);
            assert(remaining@ =~= txs.take(r));
            let key = key_for(&scores, tx.id, Ghost(txs));
            let pos = insertion_point(&keys, key);
            let ghost old_keys = keys@;
            let ghost old_order = order;
            let ghost old_sorted = sorted@;
            sorted.insert(pos, tx);
            keys.insert(pos, key);
            proof {
                order = order.insert(pos as int, r);
                assert forall|i: int, j: int|
                    0 <= i < j < keys@.len() implies key_le(#[trigger] keys@[i], #[trigger] keys@[j]) by {
                    if i < pos && j > pos {
                        assert(key_le(old_keys[i], old_keys[j - 1]));
                    }
                    if i < pos && j == pos {
                        assert(!key_le(key, old_keys[i]));
                    }
                    if i == pos && j > pos {
                        assert(key_le(key, old_keys[j - 1]));
                    }
                    if i > pos {
                        assert(key_le(old_keys[i - 1], old_keys[j - 1]));
                    }
                    if j < pos {
                        assert(key_le(old_keys[i], old_keys[j]));
                    }
                }
                assert forall|i: int, j: int|
                    0 <= i < j < keys@.len() && #[trigger] keys@[i] == #[trigger] keys@[j]
                        implies order[i] < order[j] by {
                    if i < pos && j == pos {
                        assert(!key_le(key, old_keys[i]));
                    }
                    if i < pos && j > pos {
                        assert(old_keys[i] == old_keys[j - 1]);
                    }
                    if i > pos {
                        assert(old_keys[i - 1] == old_keys[j - 1]);
                    }
                    if i == pos && j > pos {
                        assert(old_order[j - 1] >= r + 1);
                    }
                }
                assert forall|i: int| 0 <= i < keys@.len() implies #[trigger] keys@[i] == sort_key(
                    txs,
                    sorted@[i],
                ) by {
                    if i < pos {
                        assert(keys@[i] == old_keys[i] && sorted@[i] == old_sorted[i]);
                    } else if i > pos {
                        assert(keys@[i] == old_keys[i - 1] && sorted@[i] == old_sorted[i - 1]);
                    }
                }
                assert forall|i: int| 0 <= i < order.len() implies #[trigger] sorted@[i] == txs[order[i]] by {
                    if i < pos {
                        assert(sorted@[i] == old_sorted[i] && order[i] == old_order[i]);
                    } else if i > pos {
                        assert(sorted@[i] == old_sorted[i - 1] && order[i] == old_order[i - 1]);
                    }
                }
                assert forall|i: int| 0 <= i < order.len() implies remaining@.len() <= #[trigger] order[i] < txs.len() by {
                    if i < pos {
                        assert(order[i] == old_order[i]);
                    } else if i > pos {
                        assert(order[i] == old_order[i - 1]);
                    }
                }
                assert forall|i: int, j: int|
                    0 <= i < order.len() && 0 <= j < order.len() && i != j implies #[trigger] order[i]
                        != #[trigger] order[j] by {
                    let oi = if i < pos { old_order[i] } else if i == pos { r } else { old_order[i - 1] };
                    let oj = if j < pos { old_order[j] } else if j == pos { r } else { old_order[j - 1] };
                    assert(order[i] == oi);
                    assert(order[j] == oj);
                    if i != pos && j != pos {
                        let ii = if i < pos { i } else { i - 1 };
                        let jj = if j < pos { j } else { j - 1 };
                        assert(ii != jj);
                        assert(old_order[ii] != old_order[jj]);
                    }
                }
            }
        }
        self.transactions = sorted;
        proof {
            let out = self.transactions@;
            assert forall|i: int, j: int| 0 <= i < j < out.len() implies key_le(
                sort_key(txs, #[trigger] out[i]),
                sort_key(txs, #[trigger] out[j]),
            ) by {
                assert(key_le(keys@[i], keys@[j]));
            }
            assert forall|i: int, j: int|
                0 <= i < j < out.len() && sort_key(txs, #[trigger] out[i]) == sort_key(
                    txs,
                    #[trigger] out[j],
                ) implies order[i] < order[j] by {
                assert(keys@[i] == keys@[j]);
            }
            assert(is_stable_sort(txs, out, order));
            assert forall|i: int, j: int| 0 <= i < j < out.len() implies {
                let a = first_score(txs, (#[trigger] out[i]).id);
                let b = first_score(txs, (#[trigger] out[j]).id);
                &&& a.hot_account_conflicts <= b.hot_account_conflicts
                &&& a.hot_account_conflicts == b.hot_account_conflicts ==> a.dependency_depth
                    <= b.dependency_depth
                &&& a.hot_account_conflicts == b.hot_account_conflicts && a.dependency_depth
                    == b.dependency_depth ==> out[i].id <= out[j].id
            } by {
                lemma_sorted_fewer_conflicts_first(txs, out, order, i, j);
            }
        }
    }
}

/// The position of the first transaction in `txs` with identifier `id`, or
/// -1 when there is none.
spec fn first_index(txs: Seq<ScheduledTransaction>, id: u64) -> int
    decreases txs.len(),
{
    if txs.len() == 0 {
        -1
    } else if txs[0].id == id {
        0
    } else {
        let rest = first_index(txs.drop_first(), id);
        if rest < 0 {
            -1
        } else {
            rest + 1
        }
    }
}

proof fn lemma_first_index(txs: Seq<ScheduledTransaction>, id: u64)
    ensures
        first_index(txs, id) < txs.len(),
        first_index(txs, id) >= 0 ==> txs[first_index(txs, id)].id == id,
        forall|j: int|
            0 <= j < txs.len() && (first_index(txs, id) < 0 || j < first_index(txs, id))
                ==> #[trigger] txs[j].id != id,
    decreases txs.len(),
{
    if txs.len() > 0 && txs[0].id != id {
        let rest = txs.drop_first();
        lemma_first_index(rest, id);
        assert forall|j: int|
            0 <= j < txs.len() && (first_index(txs, id) < 0 || j < first_index(txs, id))
                implies #[trigger] txs[j].id != id by {
            if j > 0 {
                assert(txs[j] == rest[j - 1]);
            }
        }
    }
}

/// An index map into `0..n` of length `n` that takes no index twice takes
/// every index.
proof fn lemma_order_onto(order: Seq<int>, n: int, x: int)
    requires
        order.len() == n,
        0 <= x < n,
        forall|i: int| 0 <= i < n ==> 0 <= #[trigger] order[i] < n,
        forall|i: int, j: int|
            0 <= i < n && 0 <= j < n && i != j ==> #[trigger] order[i] != #[trigger] order[j],
    ensures
        exists|i: int| 0 <= i < n && order[i] == x,
{
    broadcast use vstd::seq_lib::seq_to_set_is_finite;

    assert(order.no_duplicates());
    order.unique_seq_to_set();
    vstd::set_lib::lemma_int_range(0, n);
    let range = vstd::set_lib::set_int_range(0, n);
    assert(order.to_set().subset_of(range));
    vstd::set_lib::lemma_subset_equality(order.to_set(), range);
    assert(range.contains(x));
    assert(order.to_set().contains(x));
}

/// Sorting keeps, for every identifier, the score of its first transaction.
proof fn lemma_first_score_kept(
    txs: Seq<ScheduledTransaction>,
    sorted: Seq<ScheduledTransaction>,
    order: Seq<int>,
    id: u64,
)
    requires
        is_stable_sort(txs, sorted, order),
    ensures
        first_score(sorted, id) == first_score(txs, id),
{
    lemma_first_index(txs, id);
    let k = first_index(txs, id);
    if k < 0 {
        assert forall|i: int| 0 <= i < sorted.len() implies sorted[i].id != id by {
            assert(sorted[i] == txs[order[i]]);
        }
        lemma_first_score_absent(sorted, id);
        lemma_first_score_absent(txs, id);
    } else {
        lemma_first_score_at(txs, id, k);
        lemma_order_onto(order, txs.len() as int, k);
        let p = choose|i: int| 0 <= i < txs.len() && order[i] == k;
        assert(sorted[p] == txs[k]);
        assert forall|q: int| 0 <= q < p implies sorted[q].id != id by {
            if sorted[q].id == id {
                assert(sort_key(txs, sorted[q]) == sort_key(txs, sorted[p]));
                assert(order[q] < order[p]);
                assert(sorted[q] == txs[order[q]]);
            }
        }
        lemma_first_score_at(sorted, id, p);
    }
}

/// A stable sort of transactions already in key order leaves them in place.
proof fn lemma_sorted_stays(
    txs: Seq<ScheduledTransaction>,
    sorted: Seq<ScheduledTransaction>,
    order: Seq<int>,
)
    requires
        is_stable_sort(txs, sorted, order),
        forall|i: int, j: int|
            0 <= i < j < txs.len() ==> key_le(
                sort_key(txs, #[trigger] txs[i]),
                sort_key(txs, #[trigger] txs[j]),
            ),
    ensures
        sorted == txs,
{
    let n = txs.len() as int;
    assert forall|i: int, j: int| 0 <= i < j < n implies #[trigger] order[i] < #[trigger] order[j] by {
        let a = order[i];
        let b = order[j];
        assert(sorted[i] == txs[a] && sorted[j] == txs[b]);
        assert(key_le(sort_key(txs, sorted[i]), sort_key(txs, sorted[j])));
        if b < a {
            assert(key_le(sort_key(txs, txs[b]), sort_key(txs, txs[a])));
            assert(sort_key(txs, sorted[i]) == sort_key(txs, sorted[j]));
        }
    }
    assert forall|i: int| 0 <= i < n implies #[trigger] order[i] >= i by {
        lemma_increasing_at_least(order, n, i);
    }
    assert forall|i: int| 0 <= i < n implies #[trigger] order[i] <= i by {
        lemma_increasing_at_most(order, n, i);
    }
    assert forall|i: int| 0 <= i < n implies #[trigger] sorted[i] == txs[i] by {
        assert(order[i] == i);
    }
    assert(sorted =~= txs);
}

proof fn lemma_increasing_at_least(order: Seq<int>, n: int, i: int)
    requires
        order.len() == n,
        0 <= i < n,
        forall|a: int| 0 <= a < n ==> 0 <= #[trigger] order[a] < n,
        forall|a: int, b: int| 0 <= a < b < n ==> #[trigger] order[a] < #[trigger] order[b],
    ensures
        order[i] >= i,
    decreases i,
{
    if i > 0 {
        lemma_increasing_at_least(order, n, i - 1);
        assert(order[i - 1] < order[i]);
    }
}

proof fn lemma_increasing_at_most(order: Seq<int>, n: int, i: int)
    requires
        order.len() == n,
        0 <= i < n,
        forall|a: int| 0 <= a < n ==> 0 <= #[trigger] order[a] < n,
        forall|a: int, b: int| 0 <= a < b < n ==> #[trigger] order[a] < #[trigger] order[b],
    ensures
        order[i] <= i,
    decreases n - i,
{
    if i < n - 1 {
        lemma_increasing_at_most(order, n, i + 1);
        assert(order[i] < order[i + 1]);
    }
}

/// Sorting transactions that were already sorted changes nothing: what
/// `sort_by_conflict` returns is a fixed point of it.
pub proof fn lemma_sort_idempotent(
    txs: Seq<ScheduledTransaction>,
    once: Seq<ScheduledTransaction>,
    first_order: Seq<int>,
    twice: Seq<ScheduledTransaction>,
    second_order: Seq<int>,
)
    requires
        is_stable_sort(txs, once, first_order),
        is_stable_sort(once, twice, second_order),
    ensures
        twice == once,
{
    assert forall|t: ScheduledTransaction| #[trigger] sort_key(once, t) == sort_key(txs, t) by {
        lemma_first_score_kept(txs, once, first_order, t.id);
    }
    assert forall|i: int, j: int| 0 <= i < j < once.len() implies key_le(
        sort_key(once, #[trigger] once[i]),
        sort_key(once, #[trigger] once[j]),
    ) by {
        assert(sort_key(once, once[i]) == sort_key(txs, once[i]));
        assert(sort_key(once, once[j]) == sort_key(txs, once[j]));
    }
    lemma_sorted_stays(once, twice, second_order);
}

/// Removing one account changes the hot count by whether it is hot.
proof fn lemma_hot_count_remove(accounts: Seq<u64>, k: int)
    requires
        0 <= k < accounts.len(),
    ensures
        hot_count(accounts) == hot_count(accounts.remove(k)) + if is_hot(accounts[k]) {
            1nat
        } else {
            0nat
        },
    decreases accounts.len(),
{
    if k == accounts.len() - 1 {
        assert(accounts.remove(k) =~= accounts.drop_last());
    } else {
        let rest = accounts.drop_last();
        lemma_hot_count_remove(rest, k);
        assert(accounts.remove(k).drop_last() =~= rest.remove(k));
        assert(accounts.remove(k).last() == accounts.last());
    }
}

/// The hot count depends only on which accounts occur how often.
proof fn lemma_hot_count_multiset(a: Seq<u64>, b: Seq<u64>)
    requires
        a.to_multiset() == b.to_multiset(),
    ensures
        hot_count(a) == hot_count(b),
    decreases a.len(),
{
    broadcast use vstd::seq_lib::group_to_multiset_ensures;
    broadcast use vstd::multiset::group_multiset_axioms;

    if a.len() == 0 {
        assert(b.to_multiset().len() == 0);
    } else {
        let x = a.last();
        let rest = a.drop_last();
        assert(a =~= rest.push(x));
        assert(a.to_multiset().count(x) > 0);
        assert(b.contains(x));
        let k = choose|k: int| 0 <= k < b.len() && b[k] == x;
        assert(rest.to_multiset() =~= b.remove(k).to_multiset());
        lemma_hot_count_multiset(rest, b.remove(k));
        lemma_hot_count_remove(b, k);
    }
}

/// The score of a transaction does not depend on its identifier, on the
/// order of its accounts, or on which of its two lists holds which accounts.
pub proof fn lemma_score_ignores_order_roles_and_id(a: ScheduledTransaction, b: ScheduledTransaction)
    requires
        (a.read_accounts@.to_multiset() == b.read_accounts@.to_multiset()
            && a.write_accounts@.to_multiset() == b.write_accounts@.to_multiset()) || (
        a.read_accounts@.to_multiset() == b.write_accounts@.to_multiset()
            && a.write_accounts@.to_multiset() == b.read_accounts@.to_multiset()),
    ensures
        conflict_score(a) == conflict_score(b),
{
    broadcast use vstd::seq_lib::group_to_multiset_ensures;

    if a.read_accounts@.to_multiset() == b.read_accounts@.to_multiset()
        && a.write_accounts@.to_multiset() == b.write_accounts@.to_multiset() {
        lemma_hot_count_multiset(a.read_accounts@, b.read_accounts@);
        lemma_hot_count_multiset(a.write_accounts@, b.write_accounts@);
        vstd::seq_lib::to_multiset_len(a.read_accounts@);
        vstd::seq_lib::to_multiset_len(b.read_accounts@);
        vstd::seq_lib::to_multiset_len(a.write_accounts@);
        vstd::seq_lib::to_multiset_len(b.write_accounts@);
    } else {
        lemma_hot_count_multiset(a.read_accounts@, b.write_accounts@);
        lemma_hot_count_multiset(a.write_accounts@, b.read_accounts@);
        vstd::seq_lib::to_multiset_len(a.read_accounts@);
        vstd::seq_lib::to_multiset_len(b.read_accounts@);
        vstd::seq_lib::to_multiset_len(a.write_accounts@);
        vstd::seq_lib::to_multiset_len(b.write_accounts@);
    }
}

/// No two transactions share an identifier.
pub open spec fn distinct_ids(txs: Seq<ScheduledTransaction>) -> bool {
    forall|i: int, j: int|
        0 <= i < txs.len() && 0 <= j < txs.len() && i != j ==> #[trigger] txs[i].id
            != #[trigger] txs[j].id
}

/// With distinct identifiers, a transaction's sort key is its own score and
/// identifier.
proof fn lemma_own_key(txs: Seq<ScheduledTransaction>, k: int)
    requires
        distinct_ids(txs),
        0 <= k < txs.len(),
    ensures
        sort_key(txs, txs[k]) == (
            conflict_score(txs[k]).hot_account_conflicts,
            conflict_score(txs[k]).dependency_depth,
            txs[k].id,
        ),
{
    assert forall|i: int| 0 <= i < k implies txs[i].id != txs[k].id by {
        assert(txs[i].id != txs[k].id);
    }
    lemma_first_score_at(txs, txs[k].id, k);
}

/// With distinct identifiers, the outcome of sorting depends only on which
/// transactions there are, not on the order they came in.
pub proof fn lemma_sort_ignores_input_order(
    a: Seq<ScheduledTransaction>,
    sorted_a: Seq<ScheduledTransaction>,
    order_a: Seq<int>,
    b: Seq<ScheduledTransaction>,
    sorted_b: Seq<ScheduledTransaction>,
    order_b: Seq<int>,
)
    requires
        a.to_multiset() == b.to_multiset(),
        distinct_ids(a),
        distinct_ids(b),
        is_stable_sort(a, sorted_a, order_a),
        is_stable_sort(b, sorted_b, order_b),
    ensures
        sorted_a == sorted_b,
{
    broadcast use vstd::seq_lib::group_to_multiset_ensures;

    let n = a.len() as int;
    vstd::seq_lib::to_multiset_len(a);
    vstd::seq_lib::to_multiset_len(b);
    // Each sorted sequence holds exactly the transactions of the input, keyed
    // by their own score and identifier, with distinct identifiers.
    assert forall|i: int| 0 <= i < n implies #[trigger] sort_key(a, sorted_a[i]) == own_key(
        sorted_a[i],
    ) && a.contains(sorted_a[i]) by {
        lemma_own_key(a, order_a[i]);
        assert(sorted_a[i] == a[order_a[i]]);
    }
    assert forall|i: int| 0 <= i < n implies #[trigger] sort_key(b, sorted_b[i]) == own_key(
        sorted_b[i],
    ) && b.contains(sorted_b[i]) by {
        lemma_own_key(b, order_b[i]);
        assert(sorted_b[i] == b[order_b[i]]);
    }
    assert forall|i: int, j: int| 0 <= i < j < n implies #[trigger] sorted_a[i].id
        != #[trigger] sorted_a[j].id by {
        assert(sorted_a[i] == a[order_a[i]] && sorted_a[j] == a[order_a[j]]);
    }
    assert forall|i: int, j: int| 0 <= i < j < n implies #[trigger] sorted_b[i].id
        != #[trigger] sorted_b[j].id by {
        assert(sorted_b[i] == b[order_b[i]] && sorted_b[j] == b[order_b[j]]);
    }
    // Every transaction of the input appears in each sorted sequence.
    assert forall|t: ScheduledTransaction| #[trigger] a.contains(t) implies exists|p: int|
        0 <= p < n && sorted_a[p] == t by {
        let k = choose|k: int| 0 <= k < n && a[k] == t;
        lemma_order_onto(order_a, n, k);
        let p = choose|p: int| 0 <= p < n && order_a[p] == k;
        assert(sorted_a[p] == t);
    }
    assert forall|t: ScheduledTransaction| #[trigger] b.contains(t) implies exists|p: int|
        0 <= p < n && sorted_b[p] == t by {
        let k = choose|k: int| 0 <= k < n && b[k] == t;
        lemma_order_onto(order_b, n, k);
        let p = choose|p: int| 0 <= p < n && order_b[p] == k;
        assert(sorted_b[p] == t);
    }
    assert forall|t: ScheduledTransaction| a.contains(t) <==> b.contains(t) by {
        vstd::seq_lib::to_multiset_contains(a, t);
        vstd::seq_lib::to_multiset_contains(b, t);
    }
    assert forall|i: int, j: int| 0 <= i < j < n implies key_le(
        own_key(#[trigger] sorted_a[i]),
        own_key(#[trigger] sorted_a[j]),
    ) by {
        assert(key_le(sort_key(a, sorted_a[i]), sort_key(a, sorted_a[j])));
    }
    assert forall|i: int, j: int| 0 <= i < j < n implies key_le(
        own_key(#[trigger] sorted_b[i]),
        own_key(#[trigger] sorted_b[j]),
    ) by {
        assert(key_le(sort_key(b, sorted_b[i]), sort_key(b, sorted_b[j])));
    }
    assert forall|i: int| 0 <= i < n implies sorted_b.contains(#[trigger] sorted_a[i]) by {
        assert(a.contains(sorted_a[i]));
        assert(b.contains(sorted_a[i]));
    }
    assert forall|i: int| 0 <= i < n implies sorted_a.contains(#[trigger] sorted_b[i]) by {
        assert(b.contains(sorted_b[i]));
        assert(a.contains(sorted_b[i]));
    }
    lemma_same_sorted(sorted_a, sorted_b, n, n);
    assert(sorted_a =~= sorted_b);
}

/// A transaction's own key: its score and identifier.
pub open spec fn own_key(tx: ScheduledTransaction) -> (u32, u32, u64) {
    (conflict_score(tx).hot_account_conflicts, conflict_score(tx).dependency_depth, tx.id)
}

/// Two sequences in strictly increasing key order that hold the same
/// transactions agree on their first `m` positions.
proof fn lemma_same_sorted(
    x: Seq<ScheduledTransaction>,
    y: Seq<ScheduledTransaction>,
    n: int,
    m: int,
)
    requires
        x.len() == n,
        y.len() == n,
        0 <= m <= n,
        forall|i: int, j: int| 0 <= i < j < n ==> #[trigger] x[i].id != #[trigger] x[j].id,
        forall|i: int, j: int| 0 <= i < j < n ==> #[trigger] y[i].id != #[trigger] y[j].id,
        forall|i: int, j: int| 0 <= i < j < n ==> key_le(own_key(#[trigger] x[i]), own_key(#[trigger] x[j])),
        forall|i: int, j: int| 0 <= i < j < n ==> key_le(own_key(#[trigger] y[i]), own_key(#[trigger] y[j])),
        forall|i: int| 0 <= i < n ==> y.contains(#[trigger] x[i]),
        forall|i: int| 0 <= i < n ==> x.contains(#[trigger] y[i]),
    ensures
        forall|i: int| 0 <= i < m ==> #[trigger] x[i] == y[i],
    decreases m,
{
    if m > 0 {
        lemma_same_sorted(x, y, n, m - 1);
        let i = m - 1;
        assert(y.contains(x[i]));
        assert(x.contains(y[i]));
        let p = choose|p: int| 0 <= p < n && y[p] == x[i];
        let q = choose|q: int| 0 <= q < n && x[q] == y[i];
        if p < i {
            assert(x[p] == y[p]);
            assert(x[p].id == x[i].id);
        }
        if q < i {
            assert(x[q] == y[q]);
            assert(y[q].id == y[i].id);
        }
        if p > i {
            assert(key_le(own_key(y[i]), own_key(y[p])));
            assert(y[i].id != y[p].id);
            assert(key_le(own_key(x[i]), own_key(x[q])) || q == i);
        }
    }
}

} // verus!
