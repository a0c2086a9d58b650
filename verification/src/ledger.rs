//! The ledger aggregator.
//!
//! Transactions carry named credit and debit line items with exact rational
//! amounts. The aggregator flattens every transaction into a stream of
//! (account, signed amount) pairs — credits positive, debits negative,
//! credits preceding debits — folds the stream into per-account net totals
//! with exact addition, prunes the accounts whose total is exactly zero, and
//! emits the rest ordered by account name.

use vstd::prelude::*;
use vstd::map::*;
use crate::arith::{lemma_rat_add_comm, lemma_rat_add_swap, lemma_rat_add_value};
use crate::rational::{abs_nat, rat_add, rat_neg, rat_reduced, ExactRational, Rat};

verus! {

/// Strict lexicographic order on character sequences.
pub open spec fn lex_lt(a: Seq<char>, b: Seq<char>) -> bool
    decreases a.len(),
{
    if b.len() == 0 {
        false
    } else if a.len() == 0 {
        true
    } else if a[0] != b[0] {
        a[0] < b[0]
    } else {
        lex_lt(a.skip(1), b.skip(1))
    }
}

/// No sequence is lexicographically below itself.
proof fn lemma_lex_lt_irrefl(a: Seq<char>)
    ensures
        !lex_lt(a, a),
    decreases a.len(),
{
    if a.len() > 0 {
        lemma_lex_lt_irrefl(a.skip(1));
    }
}

/// Lexicographic order is transitive.
proof fn lemma_lex_lt_trans(a: Seq<char>, b: Seq<char>, c: Seq<char>)
    requires
        lex_lt(a, b),
        lex_lt(b, c),
    ensures
        lex_lt(a, c),
    decreases a.len(),
{
    if a.len() == 0 {
    } else {
        if a[0] == b[0] && b[0] == c[0] {
            lemma_lex_lt_trans(a.skip(1), b.skip(1), c.skip(1));
        }
    }
}

/// Distinct sequences are ordered one way or the other.
proof fn lemma_lex_lt_connected(a: Seq<char>, b: Seq<char>)
    requires
        a != b,
    ensures
        lex_lt(a, b) || lex_lt(b, a),
    decreases a.len(),
{
    if a.len() == 0 {
        if b.len() == 0 {
            assert(a =~= b);
        }
    } else if b.len() == 0 {
        assert(lex_lt(b, a));
    } else if a[0] != b[0] {
        assert(lex_lt(a, b) == (a[0] < b[0]));
        assert(lex_lt(b, a) == (b[0] < a[0]));
    } else {
        if a.skip(1) == b.skip(1) {
            assert(a.skip(1).len() == a.len() - 1);
            assert(b.skip(1).len() == b.len() - 1);
            assert forall|k: int| 0 <= k < a.len() implies a[k] == b[k] by {
                if k > 0 {
                    assert(a[k] == a.skip(1)[k - 1]);
                    assert(b[k] == b.skip(1)[k - 1]);
                }
            }
            assert(a =~= b);
        }
        lemma_lex_lt_connected(a.skip(1), b.skip(1));
    }
}

/// Equal prefixes do not affect the order of what follows.
proof fn lemma_lex_lt_skip(a: Seq<char>, b: Seq<char>, i: int)
    requires
        0 <= i <= a.len(),
        i <= b.len(),
        forall|k: int| 0 <= k < i ==> a[k] == b[k],
    ensures
        lex_lt(a, b) == lex_lt(a.skip(i), b.skip(i)),
    decreases i,
{
    if i == 0 {
        assert(a.skip(0) =~= a);
        assert(b.skip(0) =~= b);
    } else {
        assert(forall|k: int| 0 <= k < i - 1 ==> a.skip(1)[k] == b.skip(1)[k]);
        lemma_lex_lt_skip(a.skip(1), b.skip(1), i - 1);
        assert(a.skip(1).skip(i - 1) =~= a.skip(i));
        assert(b.skip(1).skip(i - 1) =~= b.skip(i));
        assert(a[0] == b[0]);
        assert(lex_lt(a, b) == lex_lt(a.skip(1), b.skip(1)));
    }
}

/// Three-way lexicographic comparison of two strings.
fn str_cmp(a: &str, b: &str) -> (c: i8)
    ensures
        c == -1 || c == 0 || c == 1,
        (c == 0) <==> a@ == b@,
        (c == -1) <==> lex_lt(a@, b@),
        (c == 1) <==> lex_lt(b@, a@),
{
    let alen = a.unicode_len();
    let blen = b.unicode_len();
    let m = if alen < blen {
        alen
    } else {
        blen
    };
    let mut i: usize = 0;
    while i < m
        invariant
            0 <= i <= m,
            m == if alen < blen {
                alen as int
            } else {
                blen as int
            },
            alen == a@.len(),
            blen == b@.len(),
            forall|k: int| 0 <= k < i ==> a@[k] == b@[k],
        decreases m - i,
    {
        let ca = a.get_char(i);
        let cb = b.get_char(i);
        if ca != cb {
            proof {
                lemma_lex_lt_skip(a@, b@, i as int);
                lemma_lex_lt_skip(b@, a@, i as int);
                assert(a@.skip(i as int)[0] == ca);
                assert(b@.skip(i as int)[0] == cb);
            }
            if ca < cb {
                return -1;
            } else {
                return 1;
            }
        }
        i += 1;
    }
    proof {
        lemma_lex_lt_skip(a@, b@, m as int);
        lemma_lex_lt_skip(b@, a@, m as int);
    }
    if alen == blen {
        proof {
            assert(a@ =~= b@);
            assert(a@.skip(m as int).len() == 0);
        }
        0
    } else if alen < blen {
        proof {
            assert(a@.skip(m as int).len() == 0);
            assert(b@.skip(m as int).len() > 0);
            assert(a@.len() != b@.len());
        }
        -1
    } else {
        proof {
            assert(b@.skip(m as int).len() == 0);
            assert(a@.skip(m as int).len() > 0);
        }
        1
    }
}

/// Whether a line item is a credit (counts positive) or a debit (counts
/// negative).
#[derive(Debug, Clone, Copy)]
pub enum Polarity {
    Credit,
    Debit,
}

/// One parsed line item of one transaction: an account, an exact amount, and
/// the side of the ledger it belongs to.
#[derive(Debug)]
pub struct LedgerEntry {
    pub account: String,
    pub amount: ExactRational,
    pub polarity: Polarity,
}

impl LedgerEntry {
    pub open spec fn wf(self) -> bool {
        self.amount.wf()
    }

    /// The signed contribution of this entry: the amount for a credit, its
    /// negation for a debit.
    pub open spec fn signed(self) -> Rat {
        match self.polarity {
            Polarity::Credit => self.amount@,
            Polarity::Debit => rat_neg(self.amount@),
        }
    }
}

/// An ordered collection of line items drawn from one source record, credits
/// preceding debits.
#[derive(Debug)]
pub struct Transaction {
    pub entries: Vec<LedgerEntry>,
}

/// The (account, signed amount) stream of a list of entries, in order.
pub open spec fn entries_stream(es: Seq<LedgerEntry>) -> Seq<(Seq<char>, Rat)>
    decreases es.len(),
{
    if es.len() == 0 {
        Seq::empty()
    } else {
        entries_stream(es.drop_last()).push((es.last().account@, es.last().signed()))
    }
}

/// The stream of a credit list: amounts kept positive.
pub open spec fn credit_stream(ps: Seq<(String, ExactRational)>) -> Seq<(Seq<char>, Rat)>
    decreases ps.len(),
{
    if ps.len() == 0 {
        Seq::empty()
    } else {
        credit_stream(ps.drop_last()).push((ps.last().0@, ps.last().1@))
    }
}

/// The stream of a debit list: amounts negated.
pub open spec fn debit_stream(ps: Seq<(String, ExactRational)>) -> Seq<(Seq<char>, Rat)>
    decreases ps.len(),
{
    if ps.len() == 0 {
        Seq::empty()
    } else {
        debit_stream(ps.drop_last()).push((ps.last().0@, rat_neg(ps.last().1@)))
    }
}

/// Length and contents of an entry stream.
proof fn lemma_entries_stream_props(es: Seq<LedgerEntry>)
    ensures
        entries_stream(es).len() == es.len(),
        forall|k: int| 0 <= k < es.len() ==> entries_stream(es)[k] == (
        (#[trigger] es[k]).account@, es[k].signed()),
    decreases es.len(),
{
    if es.len() > 0 {
        lemma_entries_stream_props(es.drop_last());
        assert forall|k: int| 0 <= k < es.len() implies entries_stream(es)[k] == (
        (#[trigger] es[k]).account@, es[k].signed()) by {
            if k < es.len() - 1 {
                assert(es.drop_last()[k] == es[k]);
                assert(entries_stream(es)[k] == entries_stream(es.drop_last())[k]);
            }
        }
    }
}

impl Transaction {
    pub open spec fn wf(self) -> bool {
        forall|i: int| 0 <= i < self.entries@.len() ==> (#[trigger] self.entries@[i]).wf()
    }

    /// The transaction's stream of (account, signed amount) pairs, in order.
    pub open spec fn stream(self) -> Seq<(Seq<char>, Rat)> {
        entries_stream(self.entries@)
    }

    /// Builds a transaction from its credit and debit lists; credits precede
    /// debits in the entry order.
    pub fn new(credits: &Vec<(String, ExactRational)>, debits: &Vec<(String, ExactRational)>) -> (t:
        Self)
        requires
            forall|i: int| 0 <= i < credits@.len() ==> (#[trigger] credits@[i].1).wf(),
            forall|i: int| 0 <= i < debits@.len() ==> (#[trigger] debits@[i].1).wf(),
        ensures
            t.wf(),
            t.stream() == credit_stream(credits@) + debit_stream(debits@),
    {
        let mut entries: Vec<LedgerEntry> = Vec::new();
        let mut i: usize = 0;
        while i < credits.len()
            invariant
                0 <= i <= credits@.len(),
                forall|k: int| 0 <= k < credits@.len() ==> (#[trigger] credits@[k].1).wf(),
                forall|k: int| 0 <= k < entries@.len() ==> (#[trigger] entries@[k]).wf(),
                entries_stream(entries@) == credit_stream(credits@.take(i as int)),
            decreases credits@.len() - i,
        {
            let pair = &credits[i];
            let ghost pre = entries@;
            entries.push(
                LedgerEntry {
                    account: pair.0.clone(),
                    amount: pair.1.clone(),
                    polarity: Polarity::Credit,
                },
            );
            proof {
                assert(entries@.drop_last() =~= pre);
                assert(entries@.last().signed() == credits@[i as int].1@);
                assert(credits@.take(i + 1).drop_last() =~= credits@.take(i as int));
                assert(credits@.take(i + 1).last() == credits@[i as int]);
                assert(entries_stream(entries@) == credit_stream(credits@.take(i + 1)));
            }
            i += 1;
        }
        proof {
            assert(credits@.take(credits@.len() as int) =~= credits@);
        }
        let mut j: usize = 0;
        while j < debits.len()
            invariant
                0 <= j <= debits@.len(),
                forall|k: int| 0 <= k < debits@.len() ==> (#[trigger] debits@[k].1).wf(),
                forall|k: int| 0 <= k < entries@.len() ==> (#[trigger] entries@[k]).wf(),
                entries_stream(entries@) == credit_stream(credits@) + debit_stream(
                    debits@.take(j as int),
                ),
            decreases debits@.len() - j,
        {
            let pair = &debits[j];
            let ghost pre = entries@;
            entries.push(
                LedgerEntry {
                    account: pair.0.clone(),
                    amount: pair.1.clone(),
                    polarity: Polarity::Debit,
                },
            );
            proof {
                assert(entries@.drop_last() =~= pre);
                assert(entries@.last().signed() == rat_neg(debits@[j as int].1@));
                assert(debits@.take(j + 1).drop_last() =~= debits@.take(j as int));
                assert(debits@.take(j + 1).last() == debits@[j as int]);
                assert(credit_stream(credits@) + debit_stream(debits@.take(j + 1)) == (
                credit_stream(credits@) + debit_stream(debits@.take(j as int))).push(
                    (debits@[j as int].0@, rat_neg(debits@[j as int].1@)),
                )) by {
                    assert(credit_stream(credits@) + debit_stream(debits@.take(j + 1)) =~= (
                    credit_stream(credits@) + debit_stream(debits@.take(j as int))).push(
                        (debits@[j as int].0@, rat_neg(debits@[j as int].1@)),
                    ));
                }
                assert(entries_stream(entries@) == credit_stream(credits@) + debit_stream(
                    debits@.take(j + 1),
                ));
            }
            j += 1;
        }
        proof {
            assert(debits@.take(debits@.len() as int) =~= debits@);
        }
        Transaction { entries }
    }
}

/// The whole run's stream of (account, signed amount) pairs: every
/// transaction's stream, in transaction order.
pub open spec fn all_entries(txs: Seq<Transaction>) -> Seq<(Seq<char>, Rat)>
    decreases txs.len(),
{
    if txs.len() == 0 {
        Seq::empty()
    } else {
        all_entries(txs.drop_last()) + txs.last().stream()
    }
}

/// Adds one signed entry to a balance map: a new account starts at the
/// amount itself (equivalently, at exact zero plus the amount), an existing
/// account accumulates by exact addition.
pub open spec fn upsert(m: Map<Seq<char>, Rat>, a: Seq<char>, v: Rat) -> Map<Seq<char>, Rat> {
    if m.contains_key(a) {
        m.insert(a, rat_add(m[a], v))
    } else {
        m.insert(a, v)
    }
}

/// Folds a stream of signed entries into a balance map, left to right.
pub open spec fn fold_entries(es: Seq<(Seq<char>, Rat)>) -> Map<Seq<char>, Rat>
    decreases es.len(),
{
    if es.len() == 0 {
        Map::empty()
    } else {
        upsert(fold_entries(es.drop_last()), es.last().0, es.last().1)
    }
}

/// Removes every account whose net balance is exactly zero.
pub open spec fn prune_zeros(m: Map<Seq<char>, Rat>) -> Map<Seq<char>, Rat> {
    Map::<Seq<char>, Rat>::new(
        |a: Seq<char>| m.contains_key(a) && m[a].num != 0,
        |a: Seq<char>| m[a],
    )
}

/// The balance sheet of a run: fold everything, then prune the zeros.
pub open spec fn spec_balances(txs: Seq<Transaction>) -> Map<Seq<char>, Rat> {
    prune_zeros(fold_entries(all_entries(txs)))
}

/// The balance map denoted by a sheet's row list.
pub open spec fn map_of(es: Seq<(String, ExactRational)>) -> Map<Seq<char>, Rat>
    decreases es.len(),
{
    if es.len() == 0 {
        Map::empty()
    } else {
        map_of(es.drop_last()).insert(es.last().0@, es.last().1@)
    }
}

/// Row keys strictly ascending in lexicographic order.
pub open spec fn rows_sorted(es: Seq<(String, ExactRational)>) -> bool {
    forall|i: int, j: int| 0 <= i < j < es.len() ==> lex_lt(
        #[trigger] es[i].0@,
        #[trigger] es[j].0@,
    )
}

/// Every row's amount is a well-formed rational.
pub open spec fn rows_wf(es: Seq<(String, ExactRational)>) -> bool {
    forall|i: int| 0 <= i < es.len() ==> (#[trigger] es[i].1).wf()
}

/// No two rows name the same account.
pub open spec fn keys_unique(es: Seq<(String, ExactRational)>) -> bool {
    forall|i: int, j: int| 0 <= i < j < es.len() ==> (#[trigger] es[i].0@) != (
    #[trigger] es[j].0@)
}

proof fn lemma_sorted_unique(es: Seq<(String, ExactRational)>)
    requires
        rows_sorted(es),
    ensures
        keys_unique(es),
{
    assert forall|i: int, j: int| 0 <= i < j < es.len() implies (#[trigger] es[i].0@) != (
    #[trigger] es[j].0@) by {
        lemma_lex_lt_irrefl(es[i].0@);
    }
}

/// A key is in the map of a row list exactly when some row names it.
proof fn lemma_map_of_contains(es: Seq<(String, ExactRational)>, a: Seq<char>)
    ensures
        map_of(es).contains_key(a) <==> exists|i: int| 0 <= i < es.len() && (#[trigger] es[i].0@)
            == a,
    decreases es.len(),
{
    if es.len() == 0 {
    } else {
        lemma_map_of_contains(es.drop_last(), a);
        let d = es.drop_last();
        if map_of(es).contains_key(a) {
            if es.last().0@ != a {
                let i = choose|i: int| 0 <= i < d.len() && (#[trigger] d[i].0@) == a;
                assert(es[i].0@ == a);
            }
        }
        if exists|i: int| 0 <= i < es.len() && (#[trigger] es[i].0@) == a {
            let i = choose|i: int| 0 <= i < es.len() && (#[trigger] es[i].0@) == a;
            if i < es.len() - 1 {
                assert(d[i].0@ == a);
            }
        }
    }
}

/// With distinct keys, the map of a row list sends each named account to its
/// row's amount.
proof fn lemma_map_of_index(es: Seq<(String, ExactRational)>, i: int)
    requires
        keys_unique(es),
        0 <= i < es.len(),
    ensures
        map_of(es).contains_key(es[i].0@),
        map_of(es)[es[i].0@] == es[i].1@,
    decreases es.len(),
{
    let d = es.drop_last();
    if i == es.len() - 1 {
    } else {
        assert(keys_unique(d)) by {
            assert(forall|x: int, y: int| 0 <= x < y < d.len() ==> d[x] == es[x] && d[y] == es[y]);
        }
        lemma_map_of_index(d, i);
        assert(es[i].0@ != es.last().0@);
    }
}

/// Inserting a row with a fresh key inserts its pair into the map.
proof fn lemma_map_of_insert(es: Seq<(String, ExactRational)>, p: int, x: (String, ExactRational))
    requires
        0 <= p <= es.len(),
        forall|i: int| 0 <= i < es.len() ==> (#[trigger] es[i].0@) != x.0@,
    ensures
        map_of(es.insert(p, x)) == map_of(es).insert(x.0@, x.1@),
    decreases es.len(),
{
    if p == es.len() {
        assert(es.insert(p, x).drop_last() =~= es);
        assert(es.insert(p, x).last() == x);
    } else {
        let d = es.drop_last();
        assert(forall|i: int| 0 <= i < d.len() ==> (#[trigger] d[i].0@) != x.0@) by {
            assert(forall|i: int| 0 <= i < d.len() ==> d[i] == es[i]);
        }
        lemma_map_of_insert(d, p, x);
        assert(es.insert(p, x).drop_last() =~= d.insert(p, x));
        assert(es.insert(p, x).last() == es.last());
        assert(es.last().0@ != x.0@);
        assert(map_of(es.insert(p, x)) == map_of(d.insert(p, x)).insert(
            es.last().0@,
            es.last().1@,
        ));
        assert(map_of(d).insert(x.0@, x.1@).insert(es.last().0@, es.last().1@) =~= map_of(d).insert(
            es.last().0@,
            es.last().1@,
        ).insert(x.0@, x.1@));
    }
}

/// Replacing the row of an account overwrites its amount in the map.
proof fn lemma_map_of_update(es: Seq<(String, ExactRational)>, p: int, x: (String, ExactRational))
    requires
        keys_unique(es),
        0 <= p < es.len(),
        x.0@ == es[p].0@,
    ensures
        map_of(es.update(p, x)) == map_of(es).insert(x.0@, x.1@),
    decreases es.len(),
{
    let d = es.drop_last();
    if p == es.len() - 1 {
        assert(es.update(p, x).drop_last() =~= d);
        assert(es.update(p, x).last() == x);
        assert(map_of(d).insert(x.0@, x.1@) =~= map_of(d).insert(es.last().0@, es.last().1@).insert(
            x.0@,
            x.1@,
        ));
    } else {
        assert(keys_unique(d)) by {
            assert(forall|i: int, j: int| 0 <= i < j < d.len() ==> d[i] == es[i] && d[j] == es[j]);
        }
        lemma_map_of_update(d, p, x);
        assert(es.update(p, x).drop_last() =~= d.update(p, x));
        assert(es.update(p, x).last() == es.last());
        assert(es[p].0@ != es.last().0@);
        assert(map_of(d).insert(x.0@, x.1@).insert(es.last().0@, es.last().1@) =~= map_of(d).insert(
            es.last().0@,
            es.last().1@,
        ).insert(x.0@, x.1@));
    }
}

/// Applies one signed entry to a sorted row list, keeping it sorted: the
/// executable counterpart of `upsert`.
#[verifier::rlimit(60)]
fn apply_entry(acc: &mut Vec<(String, ExactRational)>, account: &String, amount: &ExactRational)
    requires
        rows_sorted(old(acc)@),
        rows_wf(old(acc)@),
        amount.wf(),
    ensures
        rows_sorted(final(acc)@),
        rows_wf(final(acc)@),
        map_of(final(acc)@) == upsert(map_of(old(acc)@), account@, amount@),
{
    proof {
        lemma_sorted_unique(old(acc)@);
    }
    let mut p: usize = 0;
    let mut stop = false;
    while !stop
        invariant
            0 <= p <= acc@.len(),
            acc@ == old(acc)@,
            forall|m: int| 0 <= m < p ==> lex_lt(#[trigger] acc@[m].0@, account@),
            stop ==> (p == acc@.len() || !lex_lt(acc@[p as int].0@, account@)),
        decreases acc@.len() - p + (if stop {
            0int
        } else {
            1int
        }),
    {
        if p >= acc.len() {
            stop = true;
        } else {
            let c = str_cmp(acc[p].0.as_str(), account.as_str());
            if c == -1 {
                p += 1;
            } else {
                stop = true;
            }
        }
    }
    if p < acc.len() {
        let c = str_cmp(acc[p].0.as_str(), account.as_str());
        if c == 0 {
            // the account already has a row: accumulate
            let (key, cur) = acc.remove(p);
            let sum = cur.add(amount);
            proof {
                lemma_map_of_index(old(acc)@, p as int);
            }
            acc.insert(p, (key, sum));
            proof {
                assert(acc@ =~= old(acc)@.update(p as int, acc@[p as int]));
                assert(acc@[p as int].0@ == old(acc)@[p as int].0@);
                lemma_map_of_update(old(acc)@, p as int, acc@[p as int]);
                assert forall|m: int| 0 <= m < acc@.len() implies (#[trigger] acc@[m].0@) == old(
                    acc,
                )@[m].0@ by {
                    let u = old(acc)@.update(p as int, acc@[p as int]);
                    assert(acc@[m] == u[m]);
                    if m != p {
                        assert(u[m] == old(acc)@[m]);
                    }
                }
                assert forall|i: int, j: int| 0 <= i < j < acc@.len() implies lex_lt(
                    #[trigger] acc@[i].0@,
                    #[trigger] acc@[j].0@,
                ) by {
                    assert(lex_lt(old(acc)@[i].0@, old(acc)@[j].0@));
                }
            }
            return ;
        }
    }
    // no row yet: insert one at the scan position, keeping the order
    proof {
        // every existing key differs from the account
        assert forall|i: int| 0 <= i < acc@.len() implies (#[trigger] acc@[i].0@) != account@ by {
            if i < p {
                lemma_lex_lt_irrefl(account@);
            } else {
                if acc@[i].0@ == account@ {
                    if i > p {
                        lemma_lex_lt_connected(acc@[p as int].0@, account@);
                        lemma_lex_lt_trans(account@, acc@[p as int].0@, acc@[i].0@);
                        lemma_lex_lt_irrefl(account@);
                    }
                }
            }
        }
        lemma_map_of_contains(acc@, account@);
    }
    let ghost pre = acc@;
    let new_row = (account.clone(), amount.clone());
    let ghost x = new_row;
    acc.insert(p, new_row);
    proof {
        pre.insert_ensures(p as int, x);
        assert(acc@[p as int] == x);
        lemma_map_of_insert(pre, p as int, acc@[p as int]);
        // sortedness across the inserted row
        assert forall|i: int, j: int| 0 <= i < j < acc@.len() implies lex_lt(
            #[trigger] acc@[i].0@,
            #[trigger] acc@[j].0@,
        ) by {
            let pi = p as int;
            if i < pi && j == pi {
            } else if i == pi && j > pi {
                let prev = pre[j - 1].0@;
                assert(acc@[j].0@ == prev);
                // the scan stopped at a key at or above the account, which
                // differs from it, so the account sorts strictly below it
                assert(pre[pi].0@ != account@);
                assert(!lex_lt(pre[pi].0@, account@));
                lemma_lex_lt_connected(account@, pre[pi].0@);
                assert(lex_lt(account@, pre[pi].0@));
                if j - 1 > pi {
                    assert(lex_lt(pre[pi].0@, prev));
                    lemma_lex_lt_trans(account@, pre[pi].0@, prev);
                }
            } else if i < pi && j > pi {
                assert(acc@[i].0@ == pre[i].0@);
                assert(acc@[j].0@ == pre[j - 1].0@);
            } else if i > pi {
                assert(acc@[i].0@ == pre[i - 1].0@);
                assert(acc@[j].0@ == pre[j - 1].0@);
            } else {
                assert(acc@[i].0@ == pre[i].0@);
                assert(acc@[j].0@ == pre[j].0@);
            }
        }
    }
}

/// The net balance of every account over a run of transactions, zero
/// balances pruned, rows ordered by account name.
#[derive(Debug)]
pub struct BalanceSheet {
    rows: Vec<(String, ExactRational)>,
}

impl View for BalanceSheet {
    type V = Map<Seq<char>, Rat>;

    closed spec fn view(&self) -> Map<Seq<char>, Rat> {
        map_of(self.rows@)
    }
}

impl BalanceSheet {
    /// The rows in output order: (account, balance) pairs.
    pub closed spec fn rows_view(&self) -> Seq<(Seq<char>, Rat)> {
        self.rows@.map_values(|p: (String, ExactRational)| (p.0@, p.1@))
    }

    /// Sorted by account, well-formed amounts, no zero balances.
    pub closed spec fn wf(&self) -> bool {
        &&& rows_sorted(self.rows@)
        &&& rows_wf(self.rows@)
        &&& forall|i: int| 0 <= i < self.rows@.len() ==> (#[trigger] self.rows@[i].1)@.num != 0
    }

    /// The sheet's rows list exactly the accounts of its map, in ascending
    /// account order, with their balances; no balance is zero.
    pub proof fn lemma_rows(&self)
        requires
            self.wf(),
        ensures
            forall|i: int| 0 <= i < self.rows_view().len() ==> self@.contains_key(
                (#[trigger] self.rows_view()[i]).0,
            ) && self@[self.rows_view()[i].0] == self.rows_view()[i].1,
            forall|a: Seq<char>| self@.contains_key(a) ==> exists|i: int|
                0 <= i < self.rows_view().len() && (#[trigger] self.rows_view()[i]).0 == a,
            forall|i: int, j: int| 0 <= i < j < self.rows_view().len() ==> lex_lt(
                (#[trigger] self.rows_view()[i]).0,
                (#[trigger] self.rows_view()[j]).0,
            ),
            forall|i: int| 0 <= i < self.rows_view().len() ==> (
            #[trigger] self.rows_view()[i]).1.num != 0,
    {
        lemma_sorted_unique(self.rows@);
        assert forall|i: int| 0 <= i < self.rows_view().len() implies self@.contains_key(
            (#[trigger] self.rows_view()[i]).0,
        ) && self@[self.rows_view()[i].0] == self.rows_view()[i].1 by {
            lemma_map_of_index(self.rows@, i);
        }
        assert forall|a: Seq<char>| self@.contains_key(a) implies exists|i: int|
            0 <= i < self.rows_view().len() && (#[trigger] self.rows_view()[i]).0 == a by {
            lemma_map_of_contains(self.rows@, a);
            let i = choose|i: int| 0 <= i < self.rows@.len() && (#[trigger] self.rows@[i].0@) == a;
            assert(self.rows_view()[i].0 == a);
        }
    }

    /// The number of accounts in the sheet.
    pub fn len(&self) -> (n: usize)
        ensures
            n == self.rows_view().len(),
    {
        self.rows.len()
    }

    /// The account name of the row at `i`.
    pub fn account_at(&self, i: usize) -> (a: &String)
        requires
            i < self.rows_view().len(),
        ensures
            a@ == self.rows_view()[i as int].0,
    {
        &self.rows[i].0
    }

    /// The balance of the row at `i`.
    pub fn amount_at(&self, i: usize) -> (q: &ExactRational)
        requires
            i < self.rows_view().len(),
        ensures
            q@ == self.rows_view()[i as int].1,
            self.wf() ==> q.wf(),
    {
        &self.rows[i].1
    }

    /// Looks an account up by name.
    pub fn get(&self, account: &str) -> (r: Option<&ExactRational>)
        requires
            self.wf(),
        ensures
            match r {
                Some(q) => self@.contains_key(account@) && q@ == self@[account@] && q.wf(),
                None => !self@.contains_key(account@),
            },
    {
        proof {
            lemma_sorted_unique(self.rows@);
            lemma_map_of_contains(self.rows@, account@);
        }
        let mut i: usize = 0;
        while i < self.rows.len()
            invariant
                0 <= i <= self.rows@.len(),
                rows_sorted(self.rows@),
                rows_wf(self.rows@),
                keys_unique(self.rows@),
                forall|k: int| 0 <= k < i ==> (#[trigger] self.rows@[k].0@) != account@,
            decreases self.rows@.len() - i,
        {
            let c = str_cmp(self.rows[i].0.as_str(), account);
            if c == 0 {
                proof {
                    lemma_map_of_index(self.rows@, i as int);
                }
                return Some(&self.rows[i].1);
            }
            i += 1;
        }
        proof {
            lemma_map_of_contains(self.rows@, account@);
        }
        None
    }
}

/// Folds a run of transactions into its balance sheet: flatten every
/// transaction's credits (positive) and debits (negative) into one stream,
/// accumulate per-account net totals by exact addition, prune the accounts
/// that net to exactly zero, and order the rest by account name.
pub fn balances(txs: &Vec<Transaction>) -> (r: BalanceSheet)
    requires
        forall|i: int| 0 <= i < txs@.len() ==> (#[trigger] txs@[i]).wf(),
    ensures
        r.wf(),
        r@ == spec_balances(txs@),
{
    let mut acc: Vec<(String, ExactRational)> = Vec::new();
    let mut ti: usize = 0;
    let ghost whole = all_entries(txs@);
    while ti < txs.len()
        invariant
            0 <= ti <= txs@.len(),
            forall|i: int| 0 <= i < txs@.len() ==> (#[trigger] txs@[i]).wf(),
            rows_sorted(acc@),
            rows_wf(acc@),
            map_of(acc@) == fold_entries(all_entries(txs@.take(ti as int))),
        decreases txs@.len() - ti,
    {
        let tx = &txs[ti];
        let mut ei: usize = 0;
        proof {
            lemma_entries_stream_props(tx.entries@);
            assert(all_entries(txs@.take(ti as int)) + tx.stream().take(0) =~= all_entries(
                txs@.take(ti as int),
            ));
        }
        while ei < tx.entries.len()
            invariant
                0 <= ei <= tx.entries@.len(),
                tx == txs@[ti as int],
                0 <= ti < txs@.len(),
                forall|i: int| 0 <= i < txs@.len() ==> (#[trigger] txs@[i]).wf(),
                rows_sorted(acc@),
                rows_wf(acc@),
                map_of(acc@) == fold_entries(
                    all_entries(txs@.take(ti as int)) + tx.stream().take(ei as int),
                ),
            decreases tx.entries@.len() - ei,
        {
            let e = &tx.entries[ei];
            let ghost before = all_entries(txs@.take(ti as int)) + tx.stream().take(ei as int);
            let signed = match e.polarity {
                Polarity::Credit => e.amount.clone(),
                Polarity::Debit => e.amount.neg(),
            };
            proof {
                assert(tx.entries@[ei as int].wf());
                assert(signed@ == e.signed());
            }
            apply_entry(&mut acc, &e.account, &signed);
            proof {
                lemma_entries_stream_props(tx.entries@);
                let after = all_entries(txs@.take(ti as int)) + tx.stream().take(ei + 1);
                assert(tx.stream()[ei as int] == (e.account@, e.signed()));
                assert(after.drop_last() =~= before);
                assert(after.last() == (e.account@, e.signed()));
                assert(map_of(acc@) == fold_entries(after));
            }
            ei += 1;
        }
        proof {
            lemma_entries_stream_props(tx.entries@);
            assert(all_entries(txs@.take(ti as int)) + tx.stream().take(tx.entries@.len() as int)
                =~= all_entries(txs@.take(ti + 1))) by {
                assert(txs@.take(ti + 1).drop_last() =~= txs@.take(ti as int));
                assert(txs@.take(ti + 1).last() == txs@[ti as int]);
                assert(tx.stream().take(tx.entries@.len() as int) =~= tx.stream());
            }
        }
        ti += 1;
    }
    proof {
        assert(txs@.take(txs@.len() as int) =~= txs@);
    }
    // prune the zero balances
    let mut rows: Vec<(String, ExactRational)> = Vec::new();
    let mut i: usize = 0;
    proof {
        lemma_sorted_unique(acc@);
    }
    while i < acc.len()
        invariant
            0 <= i <= acc@.len(),
            rows_sorted(acc@),
            rows_wf(acc@),
            keys_unique(acc@),
            rows_sorted(rows@),
            rows_wf(rows@),
            forall|k: int| 0 <= k < rows@.len() ==> (#[trigger] rows@[k].1)@.num != 0,
            forall|k: int| 0 <= k < rows@.len() ==> exists|m: int|
                0 <= m < i && #[trigger] rows@[k] == #[trigger] acc@[m],
            map_of(rows@) == prune_zeros(map_of(acc@.take(i as int))),
        decreases acc@.len() - i,
    {
        let ghost pre = rows@;
        let keep = !acc[i].1.is_zero();
        if keep {
            rows.push((acc[i].0.clone(), acc[i].1.clone()));
            proof {
                assert(rows@.drop_last() == pre);
                assert forall|k: int| 0 <= k < rows@.len() implies exists|m: int|
                    0 <= m < i + 1 && #[trigger] rows@[k] == #[trigger] acc@[m] by {
                    if k < pre.len() {
                        assert(rows@[k] == pre[k]);
                        let m = choose|m: int| 0 <= m < i && #[trigger] pre[k] == #[trigger] acc@[m];
                        assert(rows@[k] == acc@[m]);
                    } else {
                        assert(rows@[k] == acc@[i as int]);
                    }
                }
                assert forall|a: int, b: int| 0 <= a < b < rows@.len() implies lex_lt(
                    #[trigger] rows@[a].0@,
                    #[trigger] rows@[b].0@,
                ) by {
                    if b == rows@.len() - 1 {
                        let m = choose|m: int| 0 <= m < i && pre[a] == acc@[m];
                        assert(lex_lt(acc@[m].0@, acc@[i as int].0@));
                    }
                }
            }
        }
        proof {
            let tk = acc@.take(i + 1);
            assert(tk.drop_last() =~= acc@.take(i as int));
            assert(tk.last() == acc@[i as int]);
            assert(map_of(tk) == map_of(acc@.take(i as int)).insert(
                acc@[i as int].0@,
                acc@[i as int].1@,
            ));
            // the key at i is fresh for the prefix
            assert forall|m: int| 0 <= m < i implies (#[trigger] acc@[m].0@) != acc@[i as int].0@
                by {}
            lemma_map_of_contains(acc@.take(i as int), acc@[i as int].0@);
            if keep {
                assert(map_of(rows@) == map_of(pre).insert(acc@[i as int].0@, acc@[i as int].1@));
                assert(map_of(rows@) =~= prune_zeros(map_of(tk)));
            } else {
                assert(map_of(rows@) =~= prune_zeros(map_of(tk)));
            }
        }
        i += 1;
    }
    proof {
        assert(acc@.take(acc@.len() as int) =~= acc@);
    }
    BalanceSheet { rows }
}

/// Zero-pruning: an account whose signed contributions net to exactly zero
/// over the whole run — total credits equal total debits — does not appear
/// in the balance sheet at all.
pub proof fn lemma_zero_pruned(txs: Seq<Transaction>, a: Seq<char>)
    requires
        fold_entries(all_entries(txs)).contains_key(a) ==> fold_entries(all_entries(txs))[a].num
            == 0,
    ensures
        !spec_balances(txs).contains_key(a),
{
}

/// Every balance in a map is in lowest terms.
pub open spec fn map_reduced(m: Map<Seq<char>, Rat>) -> bool {
    forall|a: Seq<char>| m.contains_key(a) ==> rat_reduced(#[trigger] m[a])
}

/// Every amount in a stream is in lowest terms.
pub open spec fn entries_reduced(es: Seq<(Seq<char>, Rat)>) -> bool {
    forall|k: int| 0 <= k < es.len() ==> rat_reduced((#[trigger] es[k]).1)
}

proof fn lemma_upsert_reduced(m: Map<Seq<char>, Rat>, a: Seq<char>, v: Rat)
    requires
        map_reduced(m),
        rat_reduced(v),
    ensures
        map_reduced(upsert(m, a, v)),
{
    if m.contains_key(a) {
        lemma_rat_add_value(m[a], v);
    }
}

/// Folding two entries in either order leaves the same balance map behind.
proof fn lemma_upsert_swap(m: Map<Seq<char>, Rat>, a1: Seq<char>, v1: Rat, a2: Seq<char>, v2: Rat)
    requires
        map_reduced(m),
        rat_reduced(v1),
        rat_reduced(v2),
    ensures
        upsert(upsert(m, a1, v1), a2, v2) == upsert(upsert(m, a2, v2), a1, v1),
{
    if a1 == a2 {
        if m.contains_key(a1) {
            lemma_rat_add_swap(m[a1], v1, v2);
        } else {
            lemma_rat_add_comm(v1, v2);
        }
        assert(upsert(upsert(m, a1, v1), a2, v2) =~= upsert(upsert(m, a2, v2), a1, v1));
    } else {
        assert(upsert(upsert(m, a1, v1), a2, v2) =~= upsert(upsert(m, a2, v2), a1, v1));
    }
}

proof fn lemma_fold_reduced(es: Seq<(Seq<char>, Rat)>)
    requires
        entries_reduced(es),
    ensures
        map_reduced(fold_entries(es)),
    decreases es.len(),
{
    if es.len() > 0 {
        let d = es.drop_last();
        assert(entries_reduced(d)) by {
            assert(forall|k: int| 0 <= k < d.len() ==> d[k] == es[k]);
        }
        lemma_fold_reduced(d);
        lemma_upsert_reduced(fold_entries(d), es.last().0, es.last().1);
    }
}

/// Any entry of a stream may be folded last without changing the result.
proof fn lemma_fold_pull_out(es: Seq<(Seq<char>, Rat)>, i: int)
    requires
        entries_reduced(es),
        0 <= i < es.len(),
    ensures
        fold_entries(es) == upsert(fold_entries(es.remove(i)), es[i].0, es[i].1),
    decreases es.len(),
{
    es.remove_ensures(i);
    if i == es.len() - 1 {
        assert(es.remove(i) =~= es.drop_last());
    } else {
        let d = es.drop_last();
        assert(entries_reduced(d)) by {
            assert(forall|k: int| 0 <= k < d.len() ==> d[k] == es[k]);
        }
        assert(d[i] == es[i]);
        lemma_fold_pull_out(d, i);
        assert(entries_reduced(d.remove(i))) by {
            d.remove_ensures(i);
        }
        lemma_fold_reduced(d.remove(i));
        lemma_upsert_swap(
            fold_entries(d.remove(i)),
            es[i].0,
            es[i].1,
            es.last().0,
            es.last().1,
        );
        assert(es.remove(i).drop_last() =~= d.remove(i));
        assert(es.remove(i).last() == es.last());
        assert(fold_entries(es.remove(i)) == upsert(
            fold_entries(d.remove(i)),
            es.last().0,
            es.last().1,
        ));
    }
}

/// Folding a stream depends only on which entries it holds, not on their
/// order.
proof fn lemma_fold_permutation(es1: Seq<(Seq<char>, Rat)>, es2: Seq<(Seq<char>, Rat)>)
    requires
        entries_reduced(es1),
        entries_reduced(es2),
        es1.to_multiset() == es2.to_multiset(),
    ensures
        fold_entries(es1) == fold_entries(es2),
    decreases es2.len(),
{
    broadcast use vstd::seq_lib::group_to_multiset_ensures;

    if es2.len() == 0 {
        assert(es1.to_multiset().len() == es1.len());
        assert(es2.to_multiset().len() == 0);
        assert(es1.len() == 0);
    } else {
        let last = es2.len() - 1;
        let x = es2[last];
        assert(es2.contains(x));
        assert(es2.to_multiset().count(x) > 0);
        assert(es1.to_multiset().count(x) > 0);
        assert(es1.contains(x));
        let i = choose|i: int| 0 <= i < es1.len() && es1[i] == x;
        lemma_fold_pull_out(es1, i);
        assert(es1.remove(i).to_multiset() == es1.to_multiset().remove(x));
        assert(es2.remove(last).to_multiset() == es2.to_multiset().remove(x));
        assert(es2.remove(last) =~= es2.drop_last());
        assert(entries_reduced(es1.remove(i))) by {
            es1.remove_ensures(i);
        }
        assert(entries_reduced(es2.drop_last())) by {
            assert(forall|k: int|
                0 <= k < es2.drop_last().len() ==> es2.drop_last()[k] == es2[k]);
        }
        lemma_fold_permutation(es1.remove(i), es2.drop_last());
        assert(fold_entries(es2) == upsert(
            fold_entries(es2.drop_last()),
            es2.last().0,
            es2.last().1,
        ));
    }
}

proof fn lemma_stream_reduced(t: Transaction)
    requires
        t.wf(),
    ensures
        entries_reduced(t.stream()),
{
    lemma_entries_stream_props(t.entries@);
    assert forall|k: int| 0 <= k < t.stream().len() implies rat_reduced(
        (#[trigger] t.stream()[k]).1,
    ) by {
        let e = t.entries@[k];
        assert(e.wf());
        e.amount.lemma_wf_reduced();
        assert(abs_nat(rat_neg(e.amount@).num) == abs_nat(e.amount@.num));
    }
}

proof fn lemma_all_entries_reduced(txs: Seq<Transaction>)
    requires
        forall|i: int| 0 <= i < txs.len() ==> (#[trigger] txs[i]).wf(),
    ensures
        entries_reduced(all_entries(txs)),
    decreases txs.len(),
{
    if txs.len() > 0 {
        let d = txs.drop_last();
        assert(forall|i: int| 0 <= i < d.len() ==> d[i] == txs[i]);
        lemma_all_entries_reduced(d);
        lemma_stream_reduced(txs.last());
        let u = all_entries(d);
        let v = txs.last().stream();
        assert forall|k: int| 0 <= k < (u + v).len() implies rat_reduced(
            (#[trigger] (u + v)[k]).1,
        ) by {
            if k < u.len() {
                assert((u + v)[k] == u[k]);
            } else {
                assert((u + v)[k] == v[k - u.len()]);
            }
        }
    }
}

/// Moving one transaction's stream to the end of the run leaves the same
/// entries behind, counted with multiplicity.
proof fn lemma_all_entries_remove(txs: Seq<Transaction>, i: int)
    requires
        0 <= i < txs.len(),
    ensures
        all_entries(txs).to_multiset() == (all_entries(txs.remove(i))
            + txs[i].stream()).to_multiset(),
    decreases txs.len(),
{
    broadcast use vstd::seq_lib::lemma_multiset_commutative;
    broadcast use vstd::multiset::group_multiset_axioms;

    txs.remove_ensures(i);
    if i == txs.len() - 1 {
        assert(txs.remove(i) =~= txs.drop_last());
    } else {
        let d = txs.drop_last();
        assert(d[i] == txs[i]);
        lemma_all_entries_remove(d, i);
        assert(txs.remove(i).drop_last() =~= d.remove(i));
        assert(txs.remove(i).last() == txs.last());
        assert(all_entries(txs.remove(i)) == all_entries(d.remove(i)) + txs.last().stream());
        let m0 = all_entries(d.remove(i)).to_multiset();
        let ms = txs[i].stream().to_multiset();
        let ml = txs.last().stream().to_multiset();
        assert(all_entries(txs).to_multiset() == all_entries(d).to_multiset().add(ml));
        assert(all_entries(d).to_multiset() == m0.add(ms));
        assert((all_entries(txs.remove(i)) + txs[i].stream()).to_multiset() == m0.add(ml).add(
            ms,
        ));
        assert(m0.add(ms).add(ml) =~= m0.add(ml).add(ms));
    }
}

/// Folding the same stream after equal prefixes gives equal results.
proof fn lemma_fold_concat_same(
    u1: Seq<(Seq<char>, Rat)>,
    u2: Seq<(Seq<char>, Rat)>,
    v: Seq<(Seq<char>, Rat)>,
)
    requires
        fold_entries(u1) == fold_entries(u2),
    ensures
        fold_entries(u1 + v) == fold_entries(u2 + v),
    decreases v.len(),
{
    if v.len() == 0 {
        assert(u1 + v =~= u1);
        assert(u2 + v =~= u2);
    } else {
        assert((u1 + v).drop_last() =~= u1 + v.drop_last());
        assert((u2 + v).drop_last() =~= u2 + v.drop_last());
        lemma_fold_concat_same(u1, u2, v.drop_last());
        assert((u1 + v).last() == v.last());
        assert((u2 + v).last() == v.last());
    }
}

proof fn lemma_fold_reorder(txs1: Seq<Transaction>, txs2: Seq<Transaction>)
    requires
        forall|i: int| 0 <= i < txs1.len() ==> (#[trigger] txs1[i]).wf(),
        forall|i: int| 0 <= i < txs2.len() ==> (#[trigger] txs2[i]).wf(),
        txs1.to_multiset() == txs2.to_multiset(),
    ensures
        fold_entries(all_entries(txs1)) == fold_entries(all_entries(txs2)),
    decreases txs2.len(),
{
    broadcast use vstd::seq_lib::group_to_multiset_ensures;

    if txs2.len() == 0 {
        assert(txs1.to_multiset().len() == txs1.len());
        assert(txs2.to_multiset().len() == 0);
        assert(txs1.len() == 0);
    } else {
        let last = txs2.len() - 1;
        let x = txs2[last];
        assert(txs2.contains(x));
        assert(txs2.to_multiset().count(x) > 0);
        assert(txs1.to_multiset().count(x) > 0);
        assert(txs1.contains(x));
        let i = choose|i: int| 0 <= i < txs1.len() && txs1[i] == x;
        let rest = txs1.remove(i);
        txs1.remove_ensures(i);
        assert(forall|k: int| 0 <= k < rest.len() ==> (#[trigger] rest[k]).wf());
        lemma_all_entries_remove(txs1, i);
        lemma_all_entries_reduced(txs1);
        lemma_all_entries_reduced(rest);
        lemma_stream_reduced(x);
        let u1 = all_entries(rest);
        let v = x.stream();
        assert(entries_reduced(u1 + v)) by {
            assert forall|k: int| 0 <= k < (u1 + v).len() implies rat_reduced(
                (#[trigger] (u1 + v)[k]).1,
            ) by {
                if k < u1.len() {
                    assert((u1 + v)[k] == u1[k]);
                } else {
                    assert((u1 + v)[k] == v[k - u1.len()]);
                }
            }
        }
        lemma_fold_permutation(all_entries(txs1), u1 + v);
        // the remainders are reorderings of each other
        assert(rest.to_multiset() == txs1.to_multiset().remove(x));
        assert(txs2.remove(last).to_multiset() == txs2.to_multiset().remove(x));
        assert(txs2.remove(last) =~= txs2.drop_last());
        assert(forall|k: int|
            0 <= k < txs2.drop_last().len() ==> txs2.drop_last()[k] == txs2[k]);
        lemma_fold_reorder(rest, txs2.drop_last());
        lemma_fold_concat_same(u1, all_entries(txs2.drop_last()), v);
        assert(all_entries(txs2) == all_entries(txs2.drop_last()) + txs2.last().stream());
    }
}

/// Reordering the transactions of a run does not change its balance sheet:
/// exact addition of the per-account totals is commutative and associative,
/// and zero-pruning sees only the final totals.
pub proof fn lemma_balances_reorder(txs1: Seq<Transaction>, txs2: Seq<Transaction>)
    requires
        forall|i: int| 0 <= i < txs1.len() ==> (#[trigger] txs1[i]).wf(),
        forall|i: int| 0 <= i < txs2.len() ==> (#[trigger] txs2[i]).wf(),
        txs1.to_multiset() == txs2.to_multiset(),
    ensures
        spec_balances(txs1) == spec_balances(txs2),
{
    lemma_fold_reorder(txs1, txs2);
}

} // verus!
