//! What to change in one part: repairs keyed by the 1-based ordinal a scanner
//! gave the paragraph, table, text body or chart container they land on.
use vstd::prelude::*;
use crate::chart::ChartText;
use crate::text::{Direction, Fix};

verus! {

/// Values keyed by a 1-based ordinal, kept in increasing key order.
pub struct ByIndex<V> {
    entries: Vec<(usize, V)>,
}

/// Repairs for one part's paragraphs, keyed by paragraph index: every `a:p`
/// in the part, 1-based, as the scanner counts them.
pub type PartFixes = ByIndex<Vec<Fix>>;

/// Repairs for one part's tables: every `a:tbl`, 1-based.
pub type TableFixes = ByIndex<Vec<Fix>>;

/// Repairs for one part's text bodies: every `a:bodyPr`, 1-based, the
/// single-column ones included.
pub type ColumnFixes = ByIndex<Vec<Fix>>;

/// The direction each paragraph inherits from its container, by index, for
/// paragraphs that declare none of their own.
pub type Inherited = ByIndex<Direction>;

impl<V> ByIndex<V> {
    #[verifier::type_invariant]
    spec fn increasing(self) -> bool {
        forall|i: int, j: int| 0 <= i < j < self.entries@.len() ==> self.entries@[i].0 < self.entries@[j].0
    }

    /// The keys, in increasing order.
    pub closed spec fn key_order(self) -> Seq<usize> {
        self.entries@.map_values(|e: (usize, V)| e.0)
    }

    spec fn has(self, k: usize) -> bool {
        exists|i: int| 0 <= i < self.entries@.len() && self.entries@[i].0 == k
    }

    spec fn position(self, k: usize) -> int {
        choose|i: int| 0 <= i < self.entries@.len() && self.entries@[i].0 == k
    }

    pub closed spec fn as_map(self) -> Map<usize, V> {
        Map::new(|k: usize| self.has(k), |k: usize| self.entries@[self.position(k)].1)
    }

    proof fn lemma_position(self, i: int)
        requires
            self.increasing(),
            0 <= i < self.entries@.len(),
        ensures
            self.has(self.entries@[i].0),
            self.position(self.entries@[i].0) == i,
    {
        let k = self.entries@[i].0;
        assert(self.has(k));
        let p = self.position(k);
        if p < i {
            assert(self.entries@[p].0 < self.entries@[i].0);
        } else if p > i {
            assert(self.entries@[i].0 < self.entries@[p].0);
        }
    }

    /// The key order lists exactly the keys, each once, increasing.
    proof fn lemma_key_order(self)
        requires
            self.increasing(),
        ensures
            forall|i: int, j: int| 0 <= i < j < self.key_order().len() ==> self.key_order()[i] < self.key_order()[j],
            forall|k: usize| self@.contains_key(k) <==> self.key_order().contains(k),
    {
        assert forall|k: usize| self@.contains_key(k) <==> self.key_order().contains(k) by {
            if self@.contains_key(k) {
                let i = choose|i: int| 0 <= i < self.entries@.len() && self.entries@[i].0 == k;
                assert(self.key_order()[i] == k);
            }
            if self.key_order().contains(k) {
                let i = choose|i: int| 0 <= i < self.key_order().len() && self.key_order()[i] == k;
                assert(self.entries@[i].0 == k);
            }
        }
    }

    /// An empty map.
    pub fn new() -> (m: Self)
        ensures
            m@ == Map::<usize, V>::empty(),
            m.key_order() == Seq::<usize>::empty(),
    {
        let m = ByIndex { entries: Vec::new() };
        assert(m.as_map() =~= Map::<usize, V>::empty());
        assert(m.key_order() =~= Seq::<usize>::empty());
        m
    }

    /// Key `k` holds `v` from now on, replacing what it held.
    pub fn insert(&mut self, k: usize, v: V)
        ensures
            final(self)@ == old(self)@.insert(k, v),
    {
        proof {
            use_type_invariant(&*self);
        }
        let ghost before = *self;
        let mut p: usize = 0;
        while p < self.entries.len() && self.entries[p].0 < k
            invariant
                p <= self.entries@.len(),
                *self == before,
                before.increasing(),
                forall|i: int| 0 <= i < p ==> self.entries@[i].0 < k,
            decreases self.entries@.len() - p,
        {
            p += 1;
        }
        let mut entries = Vec::new();
        std::mem::swap(&mut entries, &mut self.entries);
        if p < entries.len() && entries[p].0 == k {
            entries.set(p, (k, v));
        } else {
            entries.insert(p, (k, v));
        }
        let next = ByIndex { entries };
        proof {
            let old_m = before.as_map();
            let new_m = next.as_map();
            if p < before.entries@.len() && before.entries@[p as int].0 == k {
                assert forall|kk: usize| new_m.contains_key(kk) <==> old_m.insert(k, v).contains_key(kk) by {
                    if new_m.contains_key(kk) {
                        let i = choose|i: int| 0 <= i < next.entries@.len() && next.entries@[i].0 == kk;
                        if i != p {
                            assert(before.entries@[i].0 == kk);
                        }
                    }
                    if old_m.contains_key(kk) {
                        let i = choose|i: int| 0 <= i < before.entries@.len() && before.entries@[i].0 == kk;
                        assert(next.entries@[i].0 == kk);
                    }
                    if kk == k {
                        assert(next.entries@[p as int].0 == kk);
                    }
                }
                assert forall|kk: usize| #[trigger] new_m.contains_key(kk) implies new_m[kk] == old_m.insert(k, v)[kk] by {
                    let i = choose|i: int| 0 <= i < next.entries@.len() && next.entries@[i].0 == kk;
                    next.lemma_position(i);
                    if i != p {
                        assert(before.entries@[i].0 == kk);
                        before.lemma_position(i);
                    }
                }
                assert(new_m =~= old_m.insert(k, v));
            } else {
                assert forall|i: int| 0 <= i < p implies before.entries@[i].0 < k by {}
                assert forall|i: int| p <= i < before.entries@.len() implies k < before.entries@[i].0 by {
                    if i > p {
                        assert(before.entries@[p as int].0 < before.entries@[i].0);
                    }
                }
                assert forall|i: int, j: int| 0 <= i < j < next.entries@.len() implies next.entries@[i].0 < next.entries@[j].0 by {
                    if j < p {
                    } else if i < p && j == p {
                    } else if i < p && j > p {
                        assert(next.entries@[j] == before.entries@[j - 1]);
                    } else if i == p {
                        assert(next.entries@[j] == before.entries@[j - 1]);
                    } else {
                        assert(next.entries@[i] == before.entries@[i - 1]);
                        assert(next.entries@[j] == before.entries@[j - 1]);
                    }
                }
                assert forall|kk: usize| new_m.contains_key(kk) <==> old_m.insert(k, v).contains_key(kk) by {
                    if new_m.contains_key(kk) {
                        let i = choose|i: int| 0 <= i < next.entries@.len() && next.entries@[i].0 == kk;
                        if i < p {
                            assert(before.entries@[i].0 == kk);
                        } else if i > p {
                            assert(before.entries@[i - 1].0 == kk);
                        }
                    }
                    if old_m.contains_key(kk) {
                        let i = choose|i: int| 0 <= i < before.entries@.len() && before.entries@[i].0 == kk;
                        if i < p {
                            assert(next.entries@[i].0 == kk);
                        } else {
                            assert(next.entries@[i + 1].0 == kk);
                        }
                    }
                    if kk == k {
                        assert(next.entries@[p as int].0 == kk);
                    }
                }
                assert forall|kk: usize| #[trigger] new_m.contains_key(kk) implies new_m[kk] == old_m.insert(k, v)[kk] by {
                    let i = choose|i: int| 0 <= i < next.entries@.len() && next.entries@[i].0 == kk;
                    next.lemma_position(i);
                    if i < p {
                        assert(before.entries@[i].0 == kk);
                        before.lemma_position(i);
                    } else if i > p {
                        assert(before.entries@[i - 1].0 == kk);
                        before.lemma_position(i - 1);
                    }
                }
                assert(new_m =~= old_m.insert(k, v));
            }
        }
        *self = next;
    }

    /// What key `k` holds, if anything.
    pub fn get(&self, k: usize) -> (r: Option<&V>)
        ensures
            r == (if self@.contains_key(k) { Some(&self@[k]) } else { None }),
    {
        proof {
            use_type_invariant(self);
        }
        let mut i: usize = 0;
        while i < self.entries.len()
            invariant
                i <= self.entries@.len(),
                self.increasing(),
                forall|j: int| 0 <= j < i ==> self.entries@[j].0 != k,
            decreases self.entries@.len() - i,
        {
            if self.entries[i].0 == k {
                proof {
                    self.lemma_position(i as int);
                }
                return Some(&self.entries[i].1);
            }
            i += 1;
        }
        None
    }

    /// The keys, in increasing order.
    pub fn keys(&self) -> (r: Vec<usize>)
        ensures
            r@ == self.key_order(),
            forall|i: int, j: int| 0 <= i < j < r@.len() ==> r@[i] < r@[j],
            forall|k: usize| self@.contains_key(k) <==> r@.contains(k),
    {
        proof {
            use_type_invariant(self);
            self.lemma_key_order();
        }
        let mut r: Vec<usize> = Vec::new();
        let mut i: usize = 0;
        while i < self.entries.len()
            invariant
                i <= self.entries@.len(),
                r@ == self.key_order().take(i as int),
            decreases self.entries@.len() - i,
        {
            r.push(self.entries[i].0);
            assert(r@ =~= self.key_order().take(i + 1));
            i += 1;
        }
        assert(r@ =~= self.key_order());
        r
    }

    /// How many keys hold something.
    pub fn len(&self) -> (r: usize)
        ensures
            r == self.key_order().len(),
    {
        self.entries.len()
    }

    pub fn is_empty(&self) -> (r: bool)
        ensures
            r <==> self@ == Map::<usize, V>::empty(),
    {
        proof {
            use_type_invariant(self);
            self.lemma_key_order();
            if self.entries@.len() > 0 {
                assert(self@.contains_key(self.entries@[0].0));
            }
        }
        let r = self.entries.len() == 0;
        if r {
            assert(self@ =~= Map::<usize, V>::empty());
        }
        r
    }
}

impl<V> View for ByIndex<V> {
    type V = Map<usize, V>;

    closed spec fn view(&self) -> Map<usize, V> {
        self.as_map()
    }
}

impl<V> Default for ByIndex<V> {
    fn default() -> (m: Self)
        ensures
            m@ == Map::<usize, V>::empty(),
    {
        ByIndex::new()
    }
}


/// Repairs for one part's chart text containers, keyed by the container's
/// kind and its 1-based ordinal among the elements of that kind.
pub struct ChartTextFixes {
    pub category_axes: ByIndex<Vec<Fix>>,
    pub legends: ByIndex<Vec<Fix>>,
    pub data_labels: ByIndex<Vec<Fix>>,
}

/// The repairs a plan holds for one kind of chart container.
pub open spec fn of_kind(c: ChartTextFixes, kind: ChartText) -> ByIndex<Vec<Fix>> {
    match kind {
        ChartText::CategoryAxis => c.category_axes,
        ChartText::Legend => c.legends,
        ChartText::DataLabels => c.data_labels,
    }
}

impl ChartTextFixes {
    pub fn new() -> (c: Self)
        ensures
            forall|kind: ChartText| #[trigger] of_kind(c, kind)@ == Map::<usize, Vec<Fix>>::empty(),
            forall|kind: ChartText| #[trigger] of_kind(c, kind).key_order() == Seq::<usize>::empty(),
    {
        ChartTextFixes { category_axes: ByIndex::new(), legends: ByIndex::new(), data_labels: ByIndex::new() }
    }

    /// The container `key` names gets `fixes`, replacing what it had.
    pub fn insert(&mut self, key: (ChartText, usize), fixes: Vec<Fix>)
        ensures
            of_kind(*final(self), key.0)@ == of_kind(*old(self), key.0)@.insert(key.1, fixes),
            forall|kind: ChartText| kind != key.0 ==> #[trigger] of_kind(*final(self), kind) == of_kind(*old(self), kind),
    {
        match key.0 {
            ChartText::CategoryAxis => self.category_axes.insert(key.1, fixes),
            ChartText::Legend => self.legends.insert(key.1, fixes),
            ChartText::DataLabels => self.data_labels.insert(key.1, fixes),
        }
    }

    /// The repairs for the container `key` names, if any.
    pub fn get(&self, key: (ChartText, usize)) -> (r: Option<&Vec<Fix>>)
        ensures
            r == (if of_kind(*self, key.0)@.contains_key(key.1) { Some(&of_kind(*self, key.0)@[key.1]) } else { None }),
    {
        self.kind(key.0).get(key.1)
    }

    /// The repairs for one kind of container.
    pub fn kind(&self, kind: ChartText) -> (r: &ByIndex<Vec<Fix>>)
        ensures
            *r == of_kind(*self, kind),
    {
        match kind {
            ChartText::CategoryAxis => &self.category_axes,
            ChartText::Legend => &self.legends,
            ChartText::DataLabels => &self.data_labels,
        }
    }
}

impl Default for ChartTextFixes {
    fn default() -> (c: Self)
        ensures
            forall|kind: ChartText| #[trigger] of_kind(c, kind)@ == Map::<usize, Vec<Fix>>::empty(),
    {
        ChartTextFixes::new()
    }
}

/// Everything to change in one part.
pub struct PartPlan {
    pub paragraphs: PartFixes,
    pub tables: TableFixes,
    pub columns: ColumnFixes,
    pub chart_text: ChartTextFixes,
}

/// How many repairs a list of keyed repair lists holds in all.
pub open spec fn repairs_in(m: Map<usize, Vec<Fix>>, keys: Seq<usize>) -> nat
    decreases keys.len(),
{
    if keys.len() == 0 {
        0
    } else {
        repairs_in(m, keys.drop_last()) + m[keys.last()]@.len()
    }
}

/// How many repairs one map of lists holds.
pub open spec fn count(r: ByIndex<Vec<Fix>>) -> nat {
    repairs_in(r@, r.key_order())
}

/// How many repairs a plan carries.
pub open spec fn plan_count(p: PartPlan) -> nat {
    count(p.paragraphs) + count(p.tables) + count(p.columns) + count(p.chart_text.category_axes)
        + count(p.chart_text.legends) + count(p.chart_text.data_labels)
}

/// How many repairs one map of lists holds.
pub fn count_of(r: &ByIndex<Vec<Fix>>) -> (n: usize)
    requires
        count(*r) <= usize::MAX,
    ensures
        n == count(*r),
{
    let keys = r.keys();
    let mut n: usize = 0;
    let mut i: usize = 0;
    while i < keys.len()
        invariant
            i <= keys@.len(),
            keys@ == r.key_order(),
            forall|k: usize| r@.contains_key(k) <==> keys@.contains(k),
            count(*r) <= usize::MAX,
            n == repairs_in(r@, keys@.take(i as int)),
        decreases keys@.len() - i,
    {
        assert(keys@.take(i + 1).drop_last() =~= keys@.take(i as int));
        proof {
            lemma_repairs_in_prefix(r@, keys@, i + 1);
        }
        let list = r.get(keys[i]).unwrap();
        n = n + list.len();
        i += 1;
    }
    assert(keys@.take(keys@.len() as int) =~= keys@);
    n
}

proof fn lemma_repairs_in_prefix(m: Map<usize, Vec<Fix>>, keys: Seq<usize>, j: int)
    requires
        0 <= j <= keys.len(),
    ensures
        repairs_in(m, keys.take(j)) <= repairs_in(m, keys),
    decreases keys.len(),
{
    if j < keys.len() {
        assert(keys.drop_last().take(j) =~= keys.take(j));
        lemma_repairs_in_prefix(m, keys.drop_last(), j);
    } else {
        assert(keys.take(j) =~= keys);
    }
}

/// Whether no key holds a repair.
pub fn holds_no_repair(r: &ByIndex<Vec<Fix>>) -> (b: bool)
    ensures
        b <==> count(*r) == 0,
{
    let keys = r.keys();
    let mut i: usize = 0;
    while i < keys.len()
        invariant
            i <= keys@.len(),
            keys@ == r.key_order(),
            forall|k: usize| r@.contains_key(k) <==> keys@.contains(k),
            repairs_in(r@, keys@.take(i as int)) == 0,
        decreases keys@.len() - i,
    {
        assert(keys@.take(i + 1).drop_last() =~= keys@.take(i as int));
        let list = r.get(keys[i]).unwrap();
        if list.len() > 0 {
            proof {
                lemma_repairs_in_prefix(r@, keys@, i + 1);
            }
            return false;
        }
        i += 1;
    }
    assert(keys@.take(keys@.len() as int) =~= keys@);
    true
}

impl PartPlan {
    pub fn new() -> (p: Self)
        ensures
            p.paragraphs@ == Map::<usize, Vec<Fix>>::empty(),
            p.tables@ == Map::<usize, Vec<Fix>>::empty(),
            p.columns@ == Map::<usize, Vec<Fix>>::empty(),
            forall|kind: ChartText| #[trigger] of_kind(p.chart_text, kind)@ == Map::<usize, Vec<Fix>>::empty(),
            plan_count(p) == 0,
    {
        let p = PartPlan {
            paragraphs: ByIndex::new(),
            tables: ByIndex::new(),
            columns: ByIndex::new(),
            chart_text: ChartTextFixes::new(),
        };
        assert(of_kind(p.chart_text, ChartText::CategoryAxis).key_order() == Seq::<usize>::empty());
        assert(of_kind(p.chart_text, ChartText::Legend).key_order() == Seq::<usize>::empty());
        assert(of_kind(p.chart_text, ChartText::DataLabels).key_order() == Seq::<usize>::empty());
        p
    }

    /// How many repairs the plan carries.
    pub fn len(&self) -> (n: usize)
        requires
            plan_count(*self) <= usize::MAX,
        ensures
            n == plan_count(*self),
    {
        let a = count_of(&self.paragraphs);
        let b = count_of(&self.tables);
        let c = count_of(&self.columns);
        let d = count_of(&self.chart_text.category_axes);
        let e = count_of(&self.chart_text.legends);
        let f = count_of(&self.chart_text.data_labels);
        a + b + c + d + e + f
    }

    pub fn is_empty(&self) -> (r: bool)
        ensures
            r <==> plan_count(*self) == 0,
    {
        holds_no_repair(&self.paragraphs) && holds_no_repair(&self.tables) && holds_no_repair(&self.columns)
            && holds_no_repair(&self.chart_text.category_axes) && holds_no_repair(&self.chart_text.legends)
            && holds_no_repair(&self.chart_text.data_labels)
    }
}

impl Default for PartPlan {
    fn default() -> (p: Self)
        ensures
            plan_count(p) == 0,
            p.paragraphs@ == Map::<usize, Vec<Fix>>::empty(),
            p.tables@ == Map::<usize, Vec<Fix>>::empty(),
            p.columns@ == Map::<usize, Vec<Fix>>::empty(),
            forall|kind: ChartText| #[trigger] of_kind(p.chart_text, kind)@ == Map::<usize, Vec<Fix>>::empty(),
    {
        PartPlan::new()
    }
}

} // verus!
