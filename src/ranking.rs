//! The outcome rule: accounts by descending score, ties broken by the
//! account order, and the ABI encoding of the result.
use vstd::prelude::*;
use crate::types::{Address, address_lt, address_before};
use ethers_core::abi::{encode, Token};
use ethers_core::types::H160;

verus! {

/// The score table of a list of (account, score) entries; a later entry of an
/// account overrides an earlier one.
pub open spec fn score_table(s: Seq<(Address, u64)>) -> Map<Address, nat>
    decreases s.len(),
{
    if s.len() == 0 {
        Map::empty()
    } else {
        score_table(s.drop_last()).insert(s.last().0, s.last().1 as nat)
    }
}

/// No account occurs twice among the entries.
pub open spec fn distinct_accounts(s: Seq<(Address, u64)>) -> bool {
    forall|i: int, j: int| 0 <= i < j < s.len() ==> s[i].0 != s[j].0
}

/// `a` goes before `b`: a higher score, or the same score and a smaller account.
pub open spec fn ranks_before(m: Map<Address, nat>, a: Address, b: Address) -> bool {
    m[a] > m[b] || (m[a] == m[b] && address_lt(a, b))
}

/// `r` lists every account of the table once, in ranking order.
pub open spec fn is_ranking(r: Seq<Address>, m: Map<Address, nat>) -> bool {
    &&& r.to_set() == m.dom()
    &&& forall|i: int, j: int|
        0 <= i < j < r.len() ==> ranks_before(m, #[trigger] r[i], #[trigger] r[j])
}

/// The entry `x` goes before the entry `y` in ranking order.
pub open spec fn entry_before(x: (Address, u64), y: (Address, u64)) -> bool {
    x.1 > y.1 || (x.1 == y.1 && address_lt(x.0, y.0))
}

/// What the table of distinct entries holds: each entry's score, and no other account.
pub proof fn lemma_score_table(s: Seq<(Address, u64)>)
    requires
        distinct_accounts(s),
    ensures
        forall|i: int|
            0 <= i < s.len() ==> #[trigger] score_table(s).contains_key(s[i].0) && score_table(
                s,
            )[s[i].0] == s[i].1,
        forall|a: Address|
            #[trigger] score_table(s).contains_key(a) ==> exists|i: int|
                0 <= i < s.len() && s[i].0 == a,
    decreases s.len(),
{
    if s.len() > 0 {
        let t = s.drop_last();
        assert(distinct_accounts(t));
        lemma_score_table(t);
        assert forall|i: int| 0 <= i < s.len() implies #[trigger] score_table(s).contains_key(s[i].0)
            && score_table(s)[s[i].0] == s[i].1 by {
            if i < s.len() - 1 {
                assert(t[i] == s[i]);
                assert(score_table(t).contains_key(t[i].0));
            }
        }
        assert forall|a: Address| #[trigger] score_table(s).contains_key(a) implies exists|i: int|
            0 <= i < s.len() && s[i].0 == a by {
            if a != s.last().0 {
                assert(score_table(t).contains_key(a));
                let i = choose|i: int| 0 <= i < t.len() && t[i].0 == a;
                assert(s[i].0 == a);
            } else {
                assert(s[s.len() - 1].0 == a);
            }
        }
    }
}

/// The ranking of a score table is unique: two rankings of one table are equal.
pub proof fn lemma_ranking_unique(r1: Seq<Address>, r2: Seq<Address>, m: Map<Address, nat>)
    requires
        is_ranking(r1, m),
        is_ranking(r2, m),
    ensures
        r1 == r2,
    decreases r1.len(),
{
    if r1.len() == 0 {
        if r2.len() > 0 {
            assert(r2.to_set().contains(r2[0]));
            assert(!r1.to_set().contains(r2[0]));
        }
        assert(r1 =~= r2);
    } else {
        assert(r1.to_set().contains(r1[0]));
        if r2.len() == 0 {
            assert(!r2.to_set().contains(r1[0]));
        }
        let a = r1[0];
        let b = r2[0];
        if a != b {
            assert(r2.to_set().contains(a));
            let j = choose|j: int| 0 <= j < r2.len() && r2[j] == a;
            assert(ranks_before(m, r2[0], r2[j]));
            assert(r2.to_set().contains(b));
            assert(r1.to_set().contains(b));
            let k = choose|k: int| 0 <= k < r1.len() && r1[k] == b;
            assert(ranks_before(m, r1[0], r1[k]));
        }
        let t1 = r1.drop_first();
        let t2 = r2.drop_first();
        let m1 = m.remove(a);
        assert forall|i: int| 0 <= i < t1.len() implies t1[i] != a by {
            assert(ranks_before(m, r1[0], r1[i + 1]));
        }
        assert forall|i: int| 0 <= i < t2.len() implies t2[i] != a by {
            assert(ranks_before(m, r2[0], r2[i + 1]));
        }
        assert forall|x: Address| t1.to_set().contains(x) <==> m1.dom().contains(x) by {
            if t1.to_set().contains(x) {
                let i = choose|i: int| 0 <= i < t1.len() && t1[i] == x;
                assert(r1[i + 1] == x);
                assert(r1.to_set().contains(x));
            }
            if m1.dom().contains(x) {
                assert(r1.to_set().contains(x));
                let i = choose|i: int| 0 <= i < r1.len() && r1[i] == x;
                assert(t1[i - 1] == x);
                assert(t1.to_set().contains(x));
            }
        }
        assert forall|x: Address| t2.to_set().contains(x) <==> m1.dom().contains(x) by {
            if t2.to_set().contains(x) {
                let i = choose|i: int| 0 <= i < t2.len() && t2[i] == x;
                assert(r2[i + 1] == x);
                assert(r2.to_set().contains(x));
            }
            if m1.dom().contains(x) {
                assert(r2.to_set().contains(x));
                let i = choose|i: int| 0 <= i < r2.len() && r2[i] == x;
                assert(t2[i - 1] == x);
                assert(t2.to_set().contains(x));
            }
        }
        assert(t1.to_set() =~= m1.dom());
        assert(t2.to_set() =~= m1.dom());
        assert forall|i: int, j: int| 0 <= i < j < t1.len() implies ranks_before(
            m1,
            #[trigger] t1[i],
            #[trigger] t1[j],
        ) by {
            assert(ranks_before(m, r1[i + 1], r1[j + 1]));
        }
        assert forall|i: int, j: int| 0 <= i < j < t2.len() implies ranks_before(
            m1,
            #[trigger] t2[i],
            #[trigger] t2[j],
        ) by {
            assert(ranks_before(m, r2[i + 1], r2[j + 1]));
        }
        lemma_ranking_unique(t1, t2, m1);
        assert(r1 =~= r2) by {
            assert forall|i: int| 0 <= i < r1.len() implies r1[i] == r2[i] by {
                if i > 0 {
                    assert(t1[i - 1] == t2[i - 1]);
                }
            }
        }
    }
}

/// Whether the entry `x` goes before the entry `y` in ranking order.
fn entry_first(x: (Address, u64), y: (Address, u64)) -> (r: bool)
    ensures
        r == entry_before(x, y),
{
    x.1 > y.1 || (x.1 == y.1 && address_before(x.0, y.0))
}

/// The entries are in ranking order.
pub open spec fn entries_sorted(s: Seq<(Address, u64)>) -> bool {
    forall|a: int, b: int| 0 <= a < b < s.len() ==> entry_before(#[trigger] s[a], #[trigger] s[b])
}

/// Inserting an entry in front of the first entry it goes before keeps the order.
proof fn lemma_insert_sorted(s: Seq<(Address, u64)>, k: int, e: (Address, u64))
    requires
        0 <= k <= s.len(),
        entries_sorted(s),
        forall|j: int| 0 <= j < k ==> !entry_before(e, #[trigger] s[j]),
        k < s.len() ==> entry_before(e, s[k]),
        forall|j: int| 0 <= j < s.len() ==> (#[trigger] s[j]).0 != e.0,
    ensures
        entries_sorted(s.insert(k, e)),
{
    s.insert_ensures(k, e);
    let t = s.insert(k, e);
    assert forall|a: int, b: int| 0 <= a < b < t.len() implies entry_before(
        #[trigger] t[a],
        #[trigger] t[b],
    ) by {
        if b < k {
            assert(entry_before(s[a], s[b]));
        } else if b == k {
            assert(!entry_before(e, s[a]));
            assert(s[a].0 != e.0);
        } else if a < k {
            assert(!entry_before(e, s[a]));
            assert(s[a].0 != e.0);
            assert(t[b] == s[b - 1]);
            if b - 1 > k {
                assert(entry_before(s[k], s[b - 1]));
            }
        } else if a == k {
            assert(t[b] == s[b - 1]);
            if b - 1 > k {
                assert(entry_before(s[k], s[b - 1]));
            }
        } else {
            assert(t[a] == s[a - 1]);
            assert(t[b] == s[b - 1]);
            assert(entry_before(s[a - 1], s[b - 1]));
        }
    }
}

/// Inserting an entry adds exactly that entry to what a sequence contains.
proof fn lemma_insert_contains(
    s: Seq<(Address, u64)>,
    k: int,
    e: (Address, u64),
    x: (Address, u64),
)
    requires
        0 <= k <= s.len(),
    ensures
        s.insert(k, e).contains(x) <==> (s.contains(x) || x == e),
{
    s.insert_ensures(k, e);
    let t = s.insert(k, e);
    if t.contains(x) {
        let j = choose|j: int| 0 <= j < t.len() && t[j] == x;
        if j < k {
            assert(s[j] == x);
        } else if j > k {
            assert(s[j - 1] == x);
        }
    }
    if s.contains(x) {
        let j = choose|j: int| 0 <= j < s.len() && s[j] == x;
        if j < k {
            assert(t[j] == x);
        } else {
            assert(t[j + 1] == x);
        }
    }
    if x == e {
        assert(t[k] == x);
    }
}

/// Ranks the accounts of a list of entries: by descending score, ties by the account order.
pub fn rank_entries(entries: &Vec<(Address, u64)>) -> (r: Vec<Address>)
    requires
        distinct_accounts(entries@),
    ensures
        is_ranking(r@, score_table(entries@)),
{
    let mut sorted: Vec<(Address, u64)> = Vec::new();
    let mut i: usize = 0;
    while i < entries.len()
        invariant
            i <= entries.len(),
            distinct_accounts(entries@),
            sorted.len() == i,
            entries_sorted(sorted@),
            forall|x: (Address, u64)|
                #[trigger] sorted@.contains(x) <==> entries@.subrange(0, i as int).contains(x),
        decreases entries.len() - i,
    {
        let e = entries[i];
        let mut k: usize = 0;
        while k < sorted.len() && !entry_first(e, sorted[k])
            invariant
                k <= sorted.len(),
                forall|j: int| 0 <= j < k ==> !entry_before(e, #[trigger] sorted@[j]),
            decreases sorted.len() - k,
        {
            k = k + 1;
        }
        let ghost old_sorted = sorted@;
        proof {
            assert forall|j: int| 0 <= j < old_sorted.len() implies (#[trigger] old_sorted[j]).0
                != e.0 by {
                assert(old_sorted.contains(old_sorted[j]));
                let pre = entries@.subrange(0, i as int);
                assert(pre.contains(old_sorted[j]));
                let t = choose|t: int| 0 <= t < pre.len() && pre[t] == old_sorted[j];
                assert(entries@[t] == old_sorted[j]);
            }
            lemma_insert_sorted(old_sorted, k as int, e);
        }
        sorted.insert(k, e);
        proof {
            let pre = entries@.subrange(0, i as int);
            let pre1 = entries@.subrange(0, i + 1);
            assert(pre1 =~= pre.push(e));
            assert forall|x: (Address, u64)| #[trigger] sorted@.contains(x) <==> pre1.contains(x) by {
                lemma_insert_contains(old_sorted, k as int, e, x);
                assert(old_sorted.contains(x) <==> pre.contains(x));
                if pre1.contains(x) {
                    let t = choose|t: int| 0 <= t < pre1.len() && pre1[t] == x;
                    if t < i {
                        assert(pre[t] == x);
                        assert(pre.contains(x));
                    }
                }
                if pre.contains(x) {
                    let t = choose|t: int| 0 <= t < pre.len() && pre[t] == x;
                    assert(pre1[t] == x);
                    assert(pre1.contains(x));
                }
                if x == e {
                    assert(pre1[i as int] == x);
                    assert(pre1.contains(x));
                }
            }
        }
        i = i + 1;
    }
    let mut r: Vec<Address> = Vec::new();
    let mut j: usize = 0;
    while j < sorted.len()
        invariant
            j <= sorted.len(),
            r.len() == j,
            forall|t: int| 0 <= t < j ==> #[trigger] r@[t] == sorted@[t].0,
        decreases sorted.len() - j,
    {
        r.push(sorted[j].0);
        j = j + 1;
    }
    proof {
        lemma_ranked_addresses(entries@, sorted@, r@);
    }
    r
}

/// The accounts of a sorted arrangement of distinct entries form their ranking.
proof fn lemma_ranked_addresses(
    entries: Seq<(Address, u64)>,
    sorted: Seq<(Address, u64)>,
    r: Seq<Address>,
)
    requires
        distinct_accounts(entries),
        entries_sorted(sorted),
        forall|x: (Address, u64)|
            #[trigger] sorted.contains(x) <==> entries.subrange(0, entries.len() as int).contains(x),
        r.len() == sorted.len(),
        forall|t: int| 0 <= t < r.len() ==> #[trigger] r[t] == sorted[t].0,
    ensures
        is_ranking(r, score_table(entries)),
{
    assert(entries.subrange(0, entries.len() as int) =~= entries);
    let m = score_table(entries);
    lemma_score_table(entries);
    assert forall|t: int| 0 <= t < r.len() implies m.contains_key(#[trigger] r[t]) && m[r[t]]
        == sorted[t].1 by {
        assert(sorted.contains(sorted[t]));
        assert(entries.contains(sorted[t]));
        let u = choose|u: int| 0 <= u < entries.len() && entries[u] == sorted[t];
        assert(m.contains_key(entries[u].0));
    }
    assert forall|a: int, b: int| 0 <= a < b < r.len() implies ranks_before(
        m,
        #[trigger] r[a],
        #[trigger] r[b],
    ) by {
        assert(entry_before(sorted[a], sorted[b]));
        assert(m[r[a]] == sorted[a].1);
        assert(m[r[b]] == sorted[b].1);
    }
    assert forall|x: Address| r.to_set().contains(x) <==> m.dom().contains(x) by {
        if r.to_set().contains(x) {
            let t = choose|t: int| 0 <= t < r.len() && r[t] == x;
            assert(m.contains_key(r[t]));
        }
        if m.dom().contains(x) {
            assert(m.contains_key(x));
            let u = choose|u: int| 0 <= u < entries.len() && entries[u].0 == x;
            assert(entries.contains(entries[u]));
            assert(sorted.contains(entries[u]));
            let t = choose|t: int| 0 <= t < sorted.len() && sorted[t] == entries[u];
            assert(r[t] == x);
            assert(r.contains(x));
        }
    }
    assert(r.to_set() =~= m.dom());
}

/// The score of an account in a table, zero when it has none.
pub open spec fn score_of(m: Map<Address, nat>, a: Address) -> nat {
    if m.contains_key(a) {
        m[a]
    } else {
        0
    }
}

/// The table of the entries with a positive score; a later entry of an
/// account overrides an earlier one.
pub open spec fn positive_table(s: Seq<(Address, u64)>) -> Map<Address, nat>
    decreases s.len(),
{
    if s.len() == 0 {
        Map::empty()
    } else if s.last().1 > 0 {
        positive_table(s.drop_last()).insert(s.last().0, s.last().1 as nat)
    } else {
        positive_table(s.drop_last())
    }
}

/// In the positive table of distinct entries, each account has its entry's score.
pub proof fn lemma_positive_lookup(s: Seq<(Address, u64)>, j: int)
    requires
        distinct_accounts(s),
        0 <= j < s.len(),
    ensures
        score_of(positive_table(s), s[j].0) == s[j].1,
    decreases s.len(),
{
    let t = s.drop_last();
    assert(distinct_accounts(t));
    if j < s.len() - 1 {
        assert(t[j] == s[j]);
        lemma_positive_lookup(t, j);
    } else {
        lemma_positive_absent(t, s[j].0);
    }
}

/// An account that no entry names is not in the positive table.
pub proof fn lemma_positive_absent(s: Seq<(Address, u64)>, a: Address)
    requires
        forall|j: int| 0 <= j < s.len() ==> (#[trigger] s[j]).0 != a,
    ensures
        !positive_table(s).contains_key(a),
    decreases s.len(),
{
    if s.len() > 0 {
        let t = s.drop_last();
        assert forall|j: int| 0 <= j < t.len() implies (#[trigger] t[j]).0 != a by {
            assert(t[j] == s[j]);
        }
        lemma_positive_absent(t, a);
    }
}

/// Raising an account's score to a positive value changes the positive
/// table at that account only.
pub proof fn lemma_positive_update(s: Seq<(Address, u64)>, j: int, v: u64)
    requires
        distinct_accounts(s),
        0 <= j < s.len(),
        v > 0,
    ensures
        positive_table(s.update(j, (s[j].0, v))) == positive_table(s).insert(s[j].0, v as nat),
    decreases s.len(),
{
    let u = s.update(j, (s[j].0, v));
    let t = s.drop_last();
    assert(distinct_accounts(t));
    if j == s.len() - 1 {
        assert(u.drop_last() =~= t);
        lemma_positive_absent(t, s[j].0);
        assert(positive_table(u) =~= positive_table(s).insert(s[j].0, v as nat));
    } else {
        lemma_positive_update(t, j, v);
        assert(u.drop_last() =~= t.update(j, (s[j].0, v)));
        assert(s[j].0 != s.last().0);
        assert(positive_table(u) =~= positive_table(s).insert(s[j].0, v as nat));
    }
}

/// When every entry is positive, the positive table is the whole table.
pub proof fn lemma_positive_all(s: Seq<(Address, u64)>)
    requires
        forall|j: int| 0 <= j < s.len() ==> (#[trigger] s[j]).1 > 0,
    ensures
        positive_table(s) == score_table(s),
    decreases s.len(),
{
    if s.len() > 0 {
        let t = s.drop_last();
        assert forall|j: int| 0 <= j < t.len() implies (#[trigger] t[j]).1 > 0 by {
            assert(t[j] == s[j]);
        }
        lemma_positive_all(t);
        assert(s[s.len() - 1].1 > 0);
    }
}

/// The ABI encoding of an array of addresses, each address taken as its 20
/// big-endian bytes.
pub uninterp spec fn abi_address_array(addrs: Seq<Address>) -> Seq<u8>;

/// Relies on ethabi's `encode` (re-exported by ethers-core as `abi::encode`):
/// the ABI encoding of one `Token::Array` of addresses depends on the
/// addresses alone.
#[verifier::external_body]
fn simple_game_result(ranks: &Vec<Address>) -> (r: Vec<u8>)
    ensures
        r@ == abi_address_array(ranks@),
{
    let tokens: Vec<Token> = ranks
        .iter()
        .map(|a| {
            let bytes: Vec<u8> = a.high.to_be_bytes().into_iter().chain(a.low.to_be_bytes()).collect();
            Token::Address(H160::from_slice(&bytes))
        })
        .collect();
    encode(&[Token::Array(tokens)])
}

/// The ranking of a list of entries, ABI-encoded as an array of addresses.
pub fn encode_ranking(entries: &Vec<(Address, u64)>) -> (r: Vec<u8>)
    requires
        distinct_accounts(entries@),
    ensures
        exists|order: Seq<Address>|
            is_ranking(order, score_table(entries@)) && r@ == abi_address_array(order),
{
    let order = rank_entries(entries);
    simple_game_result(&order)
}

} // verus!
