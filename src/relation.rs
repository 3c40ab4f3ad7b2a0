use vstd::prelude::*;

use crate::order::{
    compare_str, lemma_seq_lt_asymmetric, lemma_seq_lt_irreflexive, lemma_seq_lt_transitive, seq_lt,
};

verus! {

/// One entry of a relation: a value stored under a key inside a scope.
pub struct Row<V> {
    pub scope: String,
    pub key: String,
    pub value: V,
}

/// A row as plain values: scope, key and value.
pub type RowView<V> = (Seq<char>, Seq<char>, V);

impl<V> View for Row<V> {
    type V = RowView<V>;

    open spec fn view(&self) -> RowView<V> {
        (self.scope@, self.key@, self.value)
    }
}

/// A finite relation from (scope, key) to values, kept in ascending order
/// of scope, then key, so that each scope can be listed page by page.
pub struct Relation<V> {
    rows: Vec<Row<V>>,
}

/// Order of rows: by scope, then by key.
pub open spec fn row_lt<V>(a: RowView<V>, b: RowView<V>) -> bool {
    seq_lt(a.0, b.0) || (a.0 == b.0 && seq_lt(a.1, b.1))
}

pub open spec fn sorted_rows<V>(s: Seq<RowView<V>>) -> bool {
    forall|i: int, j: int| 0 <= i < j < s.len() ==> row_lt(s[i], s[j])
}

/// `s[i]` is the row stored under `(scope, key)`.
pub open spec fn row_at<V>(s: Seq<RowView<V>>, scope: Seq<char>, key: Seq<char>, i: int) -> bool {
    0 <= i < s.len() && s[i].0 == scope && s[i].1 == key
}

/// The value stored under `(scope, key)`, if any.
pub open spec fn lookup<V>(s: Seq<RowView<V>>, scope: Seq<char>, key: Seq<char>) -> Option<V> {
    if exists|i: int| row_at(s, scope, key, i) {
        Some(s[choose|i: int| row_at(s, scope, key, i)].2)
    } else {
        None
    }
}

/// A row belongs to a listing of `scope` that resumes after the key `after`.
pub open spec fn in_listing<V>(r: RowView<V>, scope: Seq<char>, after: Option<Seq<char>>) -> bool {
    r.0 == scope && match after {
        None => true,
        Some(a) => seq_lt(a, r.1),
    }
}

/// The (key, value) pairs of `scope` after the cursor, in the order of `s`.
pub open spec fn selection<V>(s: Seq<RowView<V>>, scope: Seq<char>, after: Option<Seq<char>>) -> Seq<
    (Seq<char>, V),
>
    decreases s.len(),
{
    if s.len() == 0 {
        Seq::empty()
    } else {
        let prev = selection(s.drop_last(), scope, after);
        if in_listing(s.last(), scope, after) {
            prev.push((s.last().1, s.last().2))
        } else {
            prev
        }
    }
}

/// One page: the first `limit` pairs of the selection.
pub open spec fn page<V>(s: Seq<RowView<V>>, scope: Seq<char>, after: Option<Seq<char>>, limit: nat) -> Seq<
    (Seq<char>, V),
> {
    let all = selection(s, scope, after);
    if limit < all.len() {
        all.take(limit as int)
    } else {
        all
    }
}

/// What `n` pages of one pair each give when each resumes after the key
/// that ended the one before.
pub open spec fn chained_single_pages<V>(
    s: Seq<RowView<V>>,
    scope: Seq<char>,
    after: Option<Seq<char>>,
    n: nat,
) -> Seq<(Seq<char>, V)>
    decreases n,
{
    if n == 0 {
        Seq::empty()
    } else {
        let p = page(s, scope, after, 1);
        if p.len() == 0 {
            p
        } else {
            p + chained_single_pages(s, scope, Some(p[0].0), (n - 1) as nat)
        }
    }
}

pub proof fn lemma_row_lt_transitive<V>(a: RowView<V>, b: RowView<V>, c: RowView<V>)
    requires
        row_lt(a, b),
        row_lt(b, c),
    ensures
        row_lt(a, c),
{
    if seq_lt(a.0, b.0) && seq_lt(b.0, c.0) {
        lemma_seq_lt_transitive(a.0, b.0, c.0);
    }
    if a.0 == b.0 && b.0 == c.0 {
        lemma_seq_lt_transitive(a.1, b.1, c.1);
    }
}

pub proof fn lemma_row_lt_irreflexive<V>(a: RowView<V>, b: RowView<V>)
    requires
        a.0 == b.0,
        a.1 == b.1,
    ensures
        !row_lt(a, b),
{
    lemma_seq_lt_irreflexive(a.0);
    lemma_seq_lt_irreflexive(a.1);
}

/// In sorted rows a (scope, key) pair stands at one index at most.
pub proof fn lemma_lookup_at<V>(s: Seq<RowView<V>>, scope: Seq<char>, key: Seq<char>, i: int)
    requires
        sorted_rows(s),
        row_at(s, scope, key, i),
    ensures
        lookup(s, scope, key) == Some(s[i].2),
{
    let j = choose|j: int| row_at(s, scope, key, j);
    if i < j {
        lemma_row_lt_irreflexive(s[i], s[j]);
    } else if j < i {
        lemma_row_lt_irreflexive(s[j], s[i]);
    }
}

proof fn lemma_selection_take<V>(s: Seq<RowView<V>>, scope: Seq<char>, after: Option<Seq<char>>, i: int)
    requires
        0 <= i < s.len(),
    ensures
        selection(s.take(i + 1), scope, after) == if in_listing(s[i], scope, after) {
            selection(s.take(i), scope, after).push((s[i].1, s[i].2))
        } else {
            selection(s.take(i), scope, after)
        },
{
    assert(s.take(i + 1).drop_last() =~= s.take(i));
}

proof fn lemma_selection_prefix<V>(s: Seq<RowView<V>>, scope: Seq<char>, after: Option<Seq<char>>, i: int)
    requires
        0 <= i <= s.len(),
    ensures
        selection(s.take(i), scope, after).len() <= selection(s, scope, after).len(),
        selection(s.take(i), scope, after) =~= selection(s, scope, after).take(
            selection(s.take(i), scope, after).len() as int,
        ),
    decreases s.len(),
{
    if i == s.len() {
        assert(s.take(i) =~= s);
    } else {
        assert(s.drop_last().take(i) =~= s.take(i));
        lemma_selection_prefix(s.drop_last(), scope, after, i);
    }
}

/// The selection of a sorted relation, where its first pair comes from row
/// `m`, is that pair followed by the selection that resumes after its key.
proof fn lemma_selection_split<V>(s: Seq<RowView<V>>, scope: Seq<char>, after: Option<Seq<char>>, m: int, i: int)
    requires
        sorted_rows(s),
        0 <= m < s.len(),
        in_listing(s[m], scope, after),
        forall|j: int| 0 <= j < m ==> !in_listing(#[trigger] s[j], scope, after),
        0 <= i <= s.len(),
    ensures
        i <= m ==> selection(s.take(i), scope, after).len() == 0,
        i <= m ==> selection(s.take(i), scope, Some(s[m].1)).len() == 0,
        i > m ==> selection(s.take(i), scope, after) =~= seq![(s[m].1, s[m].2)] + selection(
            s.take(i),
            scope,
            Some(s[m].1),
        ),
    decreases i,
{
    if i > 0 {
        let j = i - 1;
        lemma_selection_split(s, scope, after, m, j);
        lemma_selection_take(s, scope, after, j);
        lemma_selection_take(s, scope, Some(s[m].1), j);
        lemma_seq_lt_irreflexive(s[m].1);
        if j < m {
            if in_listing(s[j], scope, Some(s[m].1)) {
                match after {
                    Some(a) => lemma_seq_lt_transitive(a, s[m].1, s[j].1),
                    None => {},
                }
            }
        } else if j > m {
            assert(row_lt(s[m], s[j]));
            if in_listing(s[j], scope, after) {
                lemma_seq_lt_irreflexive(scope);
                assert(seq_lt(s[m].1, s[j].1));
            }
            if in_listing(s[j], scope, Some(s[m].1)) {
                match after {
                    Some(a) => lemma_seq_lt_transitive(a, s[m].1, s[j].1),
                    None => {},
                }
            }
        }
    }
}

proof fn lemma_selection_first<V>(s: Seq<RowView<V>>, scope: Seq<char>, after: Option<Seq<char>>) -> (m: int)
    requires
        selection(s, scope, after).len() > 0,
    ensures
        0 <= m < s.len(),
        in_listing(s[m], scope, after),
        forall|j: int| 0 <= j < m ==> !in_listing(#[trigger] s[j], scope, after),
    decreases s.len(),
{
    let prev = selection(s.drop_last(), scope, after);
    if prev.len() > 0 {
        let m = lemma_selection_first(s.drop_last(), scope, after);
        assert forall|j: int| 0 <= j < m implies !in_listing(#[trigger] s[j], scope, after) by {
            assert(s[j] == s.drop_last()[j]);
        }
        assert(s[m] == s.drop_last()[m]);
        m
    } else {
        let m = s.len() - 1;
        assert forall|j: int| 0 <= j < m implies !in_listing(#[trigger] s[j], scope, after) by {
            assert(s.drop_last() =~= s.take(m));
            lemma_selection_prefix(s.drop_last(), scope, after, j + 1);
            lemma_selection_take(s.drop_last(), scope, after, j);
            assert(s.drop_last().take(j + 1) =~= s.take(j + 1));
            assert(s.drop_last()[j] == s[j]);
        }
        m
    }
}

/// Chaining single-pair pages, each resuming after the key that ended the
/// one before, yields the same ordered sequence as one listing without a
/// page limit.
pub proof fn lemma_chained_pages_complete<V>(
    s: Seq<RowView<V>>,
    scope: Seq<char>,
    after: Option<Seq<char>>,
    n: nat,
)
    requires
        sorted_rows(s),
        n >= selection(s, scope, after).len(),
    ensures
        chained_single_pages(s, scope, after, n) == selection(s, scope, after),
    decreases n,
{
    let all = selection(s, scope, after);
    if all.len() == 0 {
        if n > 0 {
            assert(page(s, scope, after, 1) =~= all);
        }
        assert(chained_single_pages(s, scope, after, n) =~= all);
    } else {
        let m = lemma_selection_first(s, scope, after);
        lemma_selection_split(s, scope, after, m, s.len() as int);
        assert(s.take(s.len() as int) =~= s);
        let rest = selection(s, scope, Some(s[m].1));
        assert(all =~= seq![(s[m].1, s[m].2)] + rest);
        assert(page(s, scope, after, 1) =~= seq![(s[m].1, s[m].2)]);
        lemma_chained_pages_complete(s, scope, Some(s[m].1), (n - 1) as nat);
        assert(chained_single_pages(s, scope, after, n) =~= all);
    }
}


/// Compares a row with a (scope, key) pair in the order of rows.
fn compare_row<V>(row: &Row<V>, scope: &String, key: &String) -> (r: i8)
    ensures
        r < 0 <==> row_lt(row@, (scope@, key@, row.value)),
        r == 0 <==> (row.scope@ == scope@ && row.key@ == key@),
        r > 0 <==> row_lt((scope@, key@, row.value), row@),
{
    proof {
        lemma_seq_lt_asymmetric(row.scope@, scope@);
        lemma_seq_lt_irreflexive(scope@);
    }
    let c = compare_str(row.scope.as_str(), scope.as_str());
    if c != 0 {
        c
    } else {
        compare_str(row.key.as_str(), key.as_str())
    }
}

impl<V: Copy> View for Relation<V> {
    type V = Seq<RowView<V>>;

    closed spec fn view(&self) -> Seq<RowView<V>> {
        self.rows@.map_values(|r: Row<V>| r@)
    }
}

impl<V: Copy> Relation<V> {
    pub open spec fn wf(&self) -> bool {
        sorted_rows(self@)
    }

    pub fn new() -> (r: Relation<V>)
        ensures
            r.wf(),
            r@ == Seq::<RowView<V>>::empty(),
    {
        let r = Relation { rows: Vec::new() };
        assert(r@ =~= Seq::<RowView<V>>::empty());
        r
    }

    pub fn len(&self) -> (n: usize)
        ensures
            n == self@.len(),
    {
        self.rows.len()
    }

    pub fn row(&self, i: usize) -> (r: &Row<V>)
        requires
            i < self@.len(),
        ensures
            r@ == self@[i as int],
    {
        &self.rows[i]
    }

    /// The value stored under `(scope, key)`.
    pub fn get(&self, scope: &String, key: &String) -> (r: Option<V>)
        requires
            self.wf(),
        ensures
            r == lookup(self@, scope@, key@),
    {
        let n = self.rows.len();
        let mut i: usize = 0;
        while i < n
            invariant
                n == self@.len(),
                self.wf(),
                0 <= i <= n,
                forall|j: int| 0 <= j < i ==> !row_at(self@, scope@, key@, j),
            decreases n - i,
        {
            let c = compare_row(&self.rows[i], scope, key);
            if c == 0 {
                proof {
                    lemma_lookup_at(self@, scope@, key@, i as int);
                }
                return Some(self.rows[i].value);
            }
            i = i + 1;
        }
        None
    }

    /// Stores `value` under `(scope, key)`, in place of what stood there.
    pub fn upsert(&mut self, scope: String, key: String, value: V)
        requires
            old(self).wf(),
        ensures
            final(self).wf(),
            lookup(final(self)@, scope@, key@) == Some(value),
            forall|s: Seq<char>, k: Seq<char>|
                !(s == scope@ && k == key@) ==> #[trigger] lookup(final(self)@, s, k) == lookup(
                    old(self)@,
                    s,
                    k,
                ),
    {
        let ghost old_rows = self@;
        let ghost new_row: RowView<V> = (scope@, key@, value);
        let n = self.rows.len();
        let mut p: usize = 0;
        let mut c: i8 = 1;
        while p < n
            invariant
                n == self@.len(),
                self@ == old_rows,
                new_row == (scope@, key@, value),
                self.wf(),
                0 <= p <= n,
                forall|j: int| 0 <= j < p ==> row_lt(#[trigger] old_rows[j], new_row),
            ensures
                p < n ==> (c == 0 <==> (old_rows[p as int].0 == scope@ && old_rows[p as int].1 == key@)),
                p < n ==> (c > 0 ==> row_lt(new_row, old_rows[p as int])),
                p < n ==> c >= 0,
                forall|j: int| 0 <= j < p ==> row_lt(#[trigger] old_rows[j], new_row),
            decreases n - p,
        {
            c = compare_row(&self.rows[p], &scope, &key);
            proof {
                assert(old_rows[p as int] == self.rows@[p as int]@);
            }
            if c >= 0 {
                break;
            }
            p = p + 1;
        }
        let row = Row { scope, key, value };
        assert(row@ == new_row);
        if p < n && c == 0 {
            self.rows.set(p, row);
            proof {
                assert(self@ =~= old_rows.update(p as int, new_row));
                assert forall|i: int, j: int| 0 <= i < j < self@.len() implies row_lt(self@[i], self@[j]) by {
                    assert(row_lt(old_rows[i], old_rows[j]));
                }
                self.lemma_lookup_after_write(old_rows, p as int, new_row);
            }
        } else {
            self.rows.insert(p, row);
            proof {
                assert(self@ =~= old_rows.insert(p as int, new_row));
                assert forall|i: int, j: int| 0 <= i < j < self@.len() implies row_lt(self@[i], self@[j]) by {
                    if j < p {
                        assert(row_lt(old_rows[i], old_rows[j]));
                    } else if i > p {
                        assert(row_lt(old_rows[i - 1], old_rows[j - 1]));
                    } else if i == p {
                        if j - 1 > p {
                            assert(row_lt(old_rows[p as int], old_rows[j - 1]));
                            lemma_row_lt_transitive(new_row, old_rows[p as int], old_rows[j - 1]);
                        }
                    }
                }
                self.lemma_lookup_after_insert(old_rows, p as int, new_row);
            }
        }
    }

    proof fn lemma_lookup_after_write(&self, old_rows: Seq<RowView<V>>, p: int, r: RowView<V>)
        requires
            sorted_rows(old_rows),
            sorted_rows(self@),
            0 <= p < old_rows.len(),
            old_rows[p].0 == r.0 && old_rows[p].1 == r.1,
            self@ == old_rows.update(p, r),
        ensures
            lookup(self@, r.0, r.1) == Some(r.2),
            forall|s: Seq<char>, k: Seq<char>|
                !(s == r.0 && k == r.1) ==> #[trigger] lookup(self@, s, k) == lookup(old_rows, s, k),
    {
        lemma_lookup_at(self@, r.0, r.1, p);
        assert forall|s: Seq<char>, k: Seq<char>|
            !(s == r.0 && k == r.1) implies #[trigger] lookup(self@, s, k) == lookup(old_rows, s, k) by {
            if exists|i: int| row_at(old_rows, s, k, i) {
                let i = choose|i: int| row_at(old_rows, s, k, i);
                lemma_lookup_at(old_rows, s, k, i);
                lemma_lookup_at(self@, s, k, i);
            } else if exists|i: int| row_at(self@, s, k, i) {
                let i = choose|i: int| row_at(self@, s, k, i);
                assert(row_at(old_rows, s, k, i));
            }
        }
    }

    proof fn lemma_lookup_after_insert(&self, old_rows: Seq<RowView<V>>, p: int, r: RowView<V>)
        requires
            sorted_rows(old_rows),
            sorted_rows(self@),
            0 <= p <= old_rows.len(),
            self@ == old_rows.insert(p, r),
        ensures
            lookup(self@, r.0, r.1) == Some(r.2),
            forall|s: Seq<char>, k: Seq<char>|
                !(s == r.0 && k == r.1) ==> #[trigger] lookup(self@, s, k) == lookup(old_rows, s, k),
    {
        lemma_lookup_at(self@, r.0, r.1, p);
        assert forall|s: Seq<char>, k: Seq<char>|
            !(s == r.0 && k == r.1) implies #[trigger] lookup(self@, s, k) == lookup(old_rows, s, k) by {
            if exists|i: int| row_at(old_rows, s, k, i) {
                let i = choose|i: int| row_at(old_rows, s, k, i);
                lemma_lookup_at(old_rows, s, k, i);
                if i < p {
                    lemma_lookup_at(self@, s, k, i);
                } else {
                    lemma_lookup_at(self@, s, k, i + 1);
                }
            } else if exists|i: int| row_at(self@, s, k, i) {
                let i = choose|i: int| row_at(self@, s, k, i);
                if i < p {
                    assert(row_at(old_rows, s, k, i));
                } else {
                    assert(row_at(old_rows, s, k, i - 1));
                }
            }
        }
    }

    pub fn duplicate(&self) -> (r: Relation<V>)
        ensures
            r@ == self@,
    {
        let n = self.rows.len();
        let mut rows: Vec<Row<V>> = Vec::new();
        let mut i: usize = 0;
        while i < n
            invariant
                n == self.rows@.len(),
                0 <= i <= n,
                rows@.len() == i,
                forall|j: int| 0 <= j < i ==> (#[trigger] rows@[j])@ == self.rows@[j]@,
            decreases n - i,
        {
            let row = &self.rows[i];
            rows.push(Row { scope: row.scope.clone(), key: row.key.clone(), value: row.value });
            i = i + 1;
        }
        let r = Relation { rows };
        assert(r@ =~= self@);
        r
    }

    /// At most `limit` (key, value) pairs of `scope` whose key comes after
    /// `after`, in ascending order of key.
    pub fn page(&self, scope: &String, after: Option<&String>, limit: usize) -> (r: Vec<(String, V)>)
        requires
            self.wf(),
        ensures
            r@.len() == page(self@, scope@, opt_view(after), limit as nat).len(),
            forall|i: int|
                0 <= i < r@.len() ==> (#[trigger] r@[i]).0@ == page(
                    self@,
                    scope@,
                    opt_view(after),
                    limit as nat,
                )[i].0 && r@[i].1 == page(self@, scope@, opt_view(after), limit as nat)[i].1,
    {
        let ghost s = self@;
        let ghost cur = opt_view(after);
        let n = self.rows.len();
        let mut out: Vec<(String, V)> = Vec::new();
        let mut i: usize = 0;
        while i < n && out.len() < limit
            invariant
                n == s.len(),
                s == self@,
                cur == opt_view(after),
                0 <= i <= n,
                out@.len() == selection(s.take(i as int), scope@, cur).len(),
                out@.len() <= limit,
                forall|j: int|
                    0 <= j < out@.len() ==> (#[trigger] out@[j]).0@ == selection(
                        s.take(i as int),
                        scope@,
                        cur,
                    )[j].0 && out@[j].1 == selection(s.take(i as int), scope@, cur)[j].1,
            decreases n - i,
        {
            proof {
                lemma_selection_take(s, scope@, cur, i as int);
            }
            let row = &self.rows[i];
            assert(row@ == s[i as int]);
            let c = compare_str(row.scope.as_str(), scope.as_str());
            let wanted = if c != 0 {
                false
            } else {
                match after {
                    None => true,
                    Some(a) => compare_str(a.as_str(), row.key.as_str()) < 0,
                }
            };
            if wanted {
                out.push((row.key.clone(), row.value));
            }
            i = i + 1;
        }
        proof {
            lemma_selection_prefix(s, scope@, cur, i as int);
            if i == n {
                assert(s.take(i as int) =~= s);
            }
        }
        out
    }
}

pub open spec fn opt_view(o: Option<&String>) -> Option<Seq<char>> {
    match o {
        None => None,
        Some(s) => Some(s@),
    }
}

} // verus!
