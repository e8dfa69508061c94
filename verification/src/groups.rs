//! Values grouped under keys. Groups stand in the order in which their keys
//! came first, and the values of a group in the order in which they came.

use vstd::prelude::*;

verus! {

/// A key that can be told from another at run time, and that has a hash by
/// which it is found.
pub trait GroupKey: Copy {
    /// The hash of the key.
    spec fn code(self) -> u64;

    fn same(self, other: Self) -> (same: bool)
        ensures
            same == (self == other),
    ;

    fn hash_code(self) -> (code: u64)
        ensures
            code == self.code(),
    ;
}

impl GroupKey for usize {
    open spec fn code(self) -> u64 {
        self as u64
    }

    fn same(self, other: usize) -> (same: bool) {
        self == other
    }

    fn hash_code(self) -> (code: u64) {
        self as u64
    }
}

impl GroupKey for u64 {
    /// A hash is its own hash.
    open spec fn code(self) -> u64 {
        self
    }

    fn same(self, other: u64) -> (same: bool) {
        self == other
    }

    fn hash_code(self) -> (code: u64) {
        crate::identity_hash::identity_hash(self)
    }
}

/// Two projects, each named by the index of its first document.
#[derive(Clone, Copy, Debug, PartialEq, Eq, Structural)]
pub struct ProjectPairKey {
    pub first: usize,
    pub second: usize,
}

impl GroupKey for ProjectPairKey {
    open spec fn code(self) -> u64 {
        (self.first as u64).wrapping_mul(31).wrapping_add(self.second as u64)
    }

    fn same(self, other: ProjectPairKey) -> (same: bool) {
        self.first == other.first && self.second == other.second
    }

    fn hash_code(self) -> (code: u64) {
        (self.first as u64).wrapping_mul(31).wrapping_add(self.second as u64)
    }
}

/// The index of the group of `key`, or the number of groups if it has none.
pub open spec fn position<K, V>(groups: Seq<(K, Seq<V>)>, key: K) -> int
    decreases groups.len(),
{
    if groups.len() == 0 {
        0
    } else {
        let before = position(groups.drop_last(), key);
        if before < groups.len() - 1 {
            before
        } else if groups.last().0 == key {
            groups.len() - 1
        } else {
            groups.len() as int
        }
    }
}

/// `groups` with `value` added to the group of `key`. A key that has no
/// group yet gets a new one at the end.
pub open spec fn with_value<K, V>(groups: Seq<(K, Seq<V>)>, key: K, value: V) -> Seq<
    (K, Seq<V>),
> {
    let at = position(groups, key);
    if at < groups.len() {
        groups.update(at, (key, groups[at].1.push(value)))
    } else {
        groups.push((key, seq![value]))
    }
}

/// The groups of a sequence of keyed values.
pub open spec fn grouped<K, V>(items: Seq<(K, V)>) -> Seq<(K, Seq<V>)>
    decreases items.len(),
{
    if items.len() == 0 {
        Seq::empty()
    } else {
        with_value(grouped(items.drop_last()), items.last().0, items.last().1)
    }
}

/// No two groups have the same key.
pub open spec fn distinct_keys<K, V>(groups: Seq<(K, Seq<V>)>) -> bool {
    forall|i: int, j: int|
        0 <= i < j < groups.len() ==> (#[trigger] groups[i]).0 != (#[trigger] groups[j]).0
}

/// `position` finds the first group of the key.
pub proof fn lemma_position<K, V>(groups: Seq<(K, Seq<V>)>, key: K)
    ensures
        0 <= position(groups, key) <= groups.len(),
        position(groups, key) < groups.len() ==> groups[position(groups, key)].0 == key,
        forall|i: int| 0 <= i < position(groups, key) ==> (#[trigger] groups[i]).0 != key,
    decreases groups.len(),
{
    if groups.len() > 0 {
        lemma_position(groups.drop_last(), key);
        assert forall|i: int| 0 <= i < position(groups, key) implies (#[trigger] groups[i]).0
            != key by {
            if i < groups.len() - 1 {
                assert(groups.drop_last()[i] == groups[i]);
            }
        }
    }
}

/// Whoever finds no group of the key before `at`, and one at `at` or the end
/// of the groups there, has found `position`.
pub proof fn lemma_position_found<K, V>(groups: Seq<(K, Seq<V>)>, key: K, at: int)
    requires
        0 <= at <= groups.len(),
        forall|i: int| 0 <= i < at ==> (#[trigger] groups[i]).0 != key,
        at < groups.len() ==> groups[at].0 == key,
    ensures
        position(groups, key) == at,
{
    lemma_position(groups, key);
    let p = position(groups, key);
    if p < at {
        assert(groups[p].0 != key);
    }
}

/// Adding a value keeps the keys apart.
pub proof fn lemma_with_value<K, V>(groups: Seq<(K, Seq<V>)>, key: K, value: V)
    requires
        distinct_keys(groups),
    ensures
        distinct_keys(with_value(groups, key, value)),
        position(with_value(groups, key, value), key) == position(groups, key),
{
    let after = with_value(groups, key, value);
    let at = position(groups, key);
    lemma_position(groups, key);
    assert forall|i: int, j: int| 0 <= i < j < after.len() implies (#[trigger] after[i]).0 != (
    #[trigger] after[j]).0 by {
        if j < groups.len() {
            assert(groups[i].0 != groups[j].0);
        } else {
            assert(groups[i].0 != key);
        }
    }
    lemma_position_found(after, key, at);
}

/// The groups of any sequence have keys that are all different.
pub proof fn lemma_grouped_distinct<K, V>(items: Seq<(K, V)>)
    ensures
        distinct_keys(grouped(items)),
    decreases items.len(),
{
    if items.len() > 0 {
        lemma_grouped_distinct(items.drop_last());
        lemma_with_value(grouped(items.drop_last()), items.last().0, items.last().1);
    }
}

/// Whether a group stands under `key`.
pub open spec fn has_key<K, V>(groups: Seq<(K, Seq<V>)>, key: K) -> bool {
    exists|g: int| 0 <= g < groups.len() && (#[trigger] groups[g]).0 == key
}

/// After a value was added under `key`, the keys are those of before and
/// `key`.
pub proof fn lemma_with_value_keys<K, V>(groups: Seq<(K, Seq<V>)>, key: K, value: V, other: K)
    ensures
        has_key(with_value(groups, key, value), other) <==> has_key(groups, other) || other == key,
{
    let after = with_value(groups, key, value);
    lemma_position(groups, key);
    if has_key(groups, other) {
        let g = choose|g: int| 0 <= g < groups.len() && (#[trigger] groups[g]).0 == other;
        assert(after[g].0 == other);
    }
    if other == key {
        assert(after[position(groups, key)].0 == key);
    }
    if has_key(after, other) {
        let g = choose|g: int| 0 <= g < after.len() && (#[trigger] after[g]).0 == other;
        if g < groups.len() && other != key {
            assert(groups[g].0 == other);
        }
    }
}

/// The keys of the groups are the keys of the items.
pub proof fn lemma_grouped_keys<K, V>(items: Seq<(K, V)>, key: K)
    ensures
        has_key(grouped(items), key) <==> exists|i: int|
            0 <= i < items.len() && (#[trigger] items[i]).0 == key,
    decreases items.len(),
{
    if items.len() > 0 {
        let shorter = items.drop_last();
        lemma_grouped_keys(shorter, key);
        lemma_with_value_keys(grouped(shorter), items.last().0, items.last().1, key);
        if exists|i: int| 0 <= i < shorter.len() && (#[trigger] shorter[i]).0 == key {
            let i = choose|i: int| 0 <= i < shorter.len() && (#[trigger] shorter[i]).0 == key;
            assert(items[i].0 == key);
        }
        if exists|i: int| 0 <= i < items.len() && (#[trigger] items[i]).0 == key {
            let i = choose|i: int| 0 <= i < items.len() && (#[trigger] items[i]).0 == key;
            if i < shorter.len() {
                assert(shorter[i].0 == key);
            }
        }
    }
}

/// Every value of every group meets `p`.
pub open spec fn all_values<K, V>(groups: Seq<(K, Seq<V>)>, p: spec_fn(V) -> bool) -> bool {
    forall|g: int, i: int|
        0 <= g < groups.len() && 0 <= i < groups[g].1.len() ==> p(#[trigger] groups[g].1[i])
}

/// Every key meets `q`.
pub open spec fn all_keys<K, V>(groups: Seq<(K, Seq<V>)>, q: spec_fn(K) -> bool) -> bool {
    forall|g: int| 0 <= g < groups.len() ==> q((#[trigger] groups[g]).0)
}

/// What holds of all keys and of the new one holds of all keys after a value
/// was added.
pub proof fn lemma_with_value_all_keys<K, V>(
    groups: Seq<(K, Seq<V>)>,
    key: K,
    value: V,
    q: spec_fn(K) -> bool,
)
    requires
        all_keys(groups, q),
        q(key),
    ensures
        all_keys(with_value(groups, key, value), q),
{
    let after = with_value(groups, key, value);
    lemma_position(groups, key);
    assert forall|g: int| 0 <= g < after.len() implies q((#[trigger] after[g]).0) by {
        if g < groups.len() {
            assert(after[g].0 == groups[g].0);
        }
    }
}

/// What holds of all values and of the new one holds of all values after it
/// was added.
pub proof fn lemma_with_value_all<K, V>(
    groups: Seq<(K, Seq<V>)>,
    key: K,
    value: V,
    p: spec_fn(V) -> bool,
)
    requires
        all_values(groups, p),
        p(value),
    ensures
        all_values(with_value(groups, key, value), p),
{
    let after = with_value(groups, key, value);
    lemma_position(groups, key);
    assert forall|g: int, i: int| 0 <= g < after.len() && 0 <= i < after[g].1.len() implies p(
        #[trigger] after[g].1[i],
    ) by {
        if g < groups.len() && i < groups[g].1.len() {
            assert(after[g].1[i] == groups[g].1[i]);
        }
    }
}

/// What adding a value changes: the group of the key, which now ends with the
/// value, and nothing else.
pub proof fn lemma_with_value_shape<K, V>(groups: Seq<(K, Seq<V>)>, key: K, value: V)
    ensures
        with_value(groups, key, value).len() >= groups.len(),
        0 <= position(groups, key) < with_value(groups, key, value).len(),
        with_value(groups, key, value)[position(groups, key)].0 == key,
        with_value(groups, key, value)[position(groups, key)].1.len() > 0,
        with_value(groups, key, value)[position(groups, key)].1.last() == value,
        forall|g: int|
            0 <= g < groups.len() ==> (#[trigger] with_value(groups, key, value)[g]).0
                == groups[g].0 && with_value(groups, key, value)[g].1.len() >= groups[g].1.len(),
        forall|g: int, j: int|
            0 <= g < groups.len() && 0 <= j < groups[g].1.len() ==> (#[trigger] with_value(
                groups,
                key,
                value,
            )[g].1[j]) == groups[g].1[j],
        forall|g: int, j: int|
            0 <= g < with_value(groups, key, value).len() && 0 <= j < with_value(
                groups,
                key,
                value,
            )[g].1.len() && !(g < groups.len() && j < groups[g].1.len()) ==> g == position(
                groups,
                key,
            ) && (#[trigger] with_value(groups, key, value)[g].1[j]) == value,
{
    lemma_position(groups, key);
}

/// No group is empty.
pub proof fn lemma_grouped_nonempty<K, V>(items: Seq<(K, V)>, g: int)
    requires
        0 <= g < grouped(items).len(),
    ensures
        grouped(items)[g].1.len() > 0,
    decreases items.len(),
{
    let shorter = items.drop_last();
    let before = grouped(shorter);
    lemma_with_value_shape(before, items.last().0, items.last().1);
    if g < before.len() {
        lemma_grouped_nonempty(shorter, g);
    }
}

/// Every value of every group is the value of an item of the same key; the
/// result is the place of such an item.
pub proof fn lemma_grouped_member<K, V>(items: Seq<(K, V)>, g: int, j: int) -> (i: int)
    requires
        0 <= g < grouped(items).len(),
        0 <= j < grouped(items)[g].1.len(),
    ensures
        0 <= i < items.len(),
        items[i] == (grouped(items)[g].0, grouped(items)[g].1[j]),
    decreases items.len(),
{
    let shorter = items.drop_last();
    let before = grouped(shorter);
    lemma_with_value_shape(before, items.last().0, items.last().1);
    if g < before.len() && j < before[g].1.len() {
        let i = lemma_grouped_member(shorter, g, j);
        assert(shorter[i] == items[i]);
        i
    } else {
        items.len() - 1
    }
}

/// Every item stands in the group of its key; the result is the place of the
/// group and the place of the value in it.
pub proof fn lemma_grouped_contains<K, V>(items: Seq<(K, V)>, i: int) -> (at: (int, int))
    requires
        0 <= i < items.len(),
    ensures
        0 <= at.0 < grouped(items).len(),
        0 <= at.1 < grouped(items)[at.0].1.len(),
        grouped(items)[at.0].0 == items[i].0,
        grouped(items)[at.0].1[at.1] == items[i].1,
    decreases items.len(),
{
    let shorter = items.drop_last();
    let before = grouped(shorter);
    lemma_with_value_shape(before, items.last().0, items.last().1);
    if i < shorter.len() {
        let at = lemma_grouped_contains(shorter, i);
        assert(shorter[i] == items[i]);
        at
    } else {
        let g = position(before, items.last().0);
        (g, grouped(items)[g].1.len() - 1)
    }
}

/// Groups as sequences.
pub open spec fn groups_view<K, V>(entries: Seq<(K, Vec<V>)>) -> Seq<(K, Seq<V>)> {
    entries.map_values(|e: (K, Vec<V>)| (e.0, e.1@))
}

/// The bucket in which a key of the given hash is looked for, of `n`
/// buckets.
pub open spec fn bucket_of(code: u64, n: int) -> int {
    code as int % n
}

/// The number of buckets of a table that had `count` buckets and was made
/// larger: twice as many and one more, as long as that number can be held.
pub open spec fn grown_count(count: int) -> int {
    if count <= usize::MAX / 2 - 1 {
        2 * count + 1
    } else {
        count
    }
}

/// Whether `i` is one of the places.
pub open spec fn holds_place(places: Seq<usize>, i: int) -> bool {
    exists|x: int| 0 <= x < places.len() && (#[trigger] places[x]) as int == i
}

/// Keyed values, grouped as they arrive. The groups stand in `entries`; a
/// table of buckets tells for every hash where the groups of the keys with
/// that hash stand.
pub struct Groups<K, V> {
    entries: Vec<(K, Vec<V>)>,
    buckets: Vec<Vec<usize>>,
}

impl<K: GroupKey, V> Groups<K, V> {
    /// The groups as sequences.
    pub closed spec fn view(&self) -> Seq<(K, Seq<V>)> {
        groups_view(self.entries@)
    }

    /// The places of the groups that bucket `b` holds.
    pub closed spec fn slots(&self, b: int) -> Seq<usize> {
        self.buckets@[b]@
    }

    /// The number of buckets.
    pub closed spec fn bucket_count(&self) -> int {
        self.buckets@.len() as int
    }

    /// Whether the bucket of its key holds the place of group `i`.
    pub closed spec fn is_indexed(&self, i: int) -> bool {
        holds_place(self.slots(bucket_of(self@[i].0.code(), self.bucket_count())), i)
    }

    /// Whether the table of buckets is right: no two groups have the same
    /// key, every bucket holds only places of groups whose keys belong in
    /// it, and the place of every group stands in the bucket of its key.
    pub closed spec fn wf(&self) -> bool {
        &&& self.bucket_count() > 0
        &&& distinct_keys(self@)
        &&& forall|b: int, x: int|
            0 <= b < self.bucket_count() && 0 <= x < self.slots(b).len() ==> (
            #[trigger] self.slots(b)[x]) < self.entries@.len() && bucket_of(
                self@[self.slots(b)[x] as int].0.code(),
                self.bucket_count(),
            ) == b
        &&& forall|i: int| 0 <= i < self.entries@.len() ==> #[trigger] self.is_indexed(i)
    }

    /// No group at all.
    pub fn new() -> (groups: Self)
        ensures
            groups.wf(),
            groups@ == Seq::<(K, Seq<V>)>::empty(),
    {
        let mut buckets: Vec<Vec<usize>> = Vec::new();
        let mut i: usize = 0;
        while i < 16
            invariant
                i <= 16,
                buckets@.len() == i,
                forall|b: int| 0 <= b < i ==> (#[trigger] buckets@[b])@.len() == 0,
            decreases 16 - i,
        {
            buckets.push(Vec::new());
            i += 1;
        }
        let groups = Groups { entries: Vec::new(), buckets };
        proof {
            assert(groups@ =~= Seq::<(K, Seq<V>)>::empty());
        }
        groups
    }

    /// The groups, in the order in which their keys came first.
    pub fn groups(&self) -> (entries: &Vec<(K, Vec<V>)>)
        ensures
            groups_view(entries@) == self@,
    {
        &self.entries
    }

    /// The groups, given away.
    pub fn into_groups(self) -> (entries: Vec<(K, Vec<V>)>)
        ensures
            groups_view(entries@) == self@,
    {
        self.entries
    }

    /// The bucket in which `key` is looked for.
    fn bucket(&self, key: K) -> (b: usize)
        requires
            self.bucket_count() > 0,
        ensures
            b == bucket_of(key.code(), self.bucket_count()),
            b < self.bucket_count(),
    {
        (key.hash_code() % (self.buckets.len() as u64)) as usize
    }

    /// The index of the group of `key`, or the number of groups.
    pub fn find(&self, key: K) -> (at: usize)
        requires
            self.wf(),
        ensures
            at == position(self@, key),
    {
        let b = self.bucket(key);
        let n: usize = self.buckets[b].len();
        let mut x: usize = 0;
        while x < n
            invariant
                self.wf(),
                b == bucket_of(key.code(), self.bucket_count()),
                b < self.bucket_count(),
                n == self.slots(b as int).len(),
                x <= n,
                forall|y: int| 0 <= y < x ==> self@[(#[trigger] self.slots(b as int)[y]) as int].0 != key,
            decreases n - x,
        {
            let at: usize = self.buckets[b][x];
            proof {
                assert(self.slots(b as int)[x as int] == at);
            }
            if self.entries[at].0.same(key) {
                proof {
                    assert forall|i: int| 0 <= i < at implies (#[trigger] self@[i]).0 != key by {
                        assert(self@[i].0 != self@[at as int].0);
                    }
                    lemma_position_found(self@, key, at as int);
                }
                return at;
            }
            x += 1;
        }
        proof {
            assert forall|i: int| 0 <= i < self.entries@.len() implies (#[trigger] self@[i]).0
                != key by {
                if self@[i].0 == key {
                    assert(self.is_indexed(i));
                    let y = choose|y: int|
                        0 <= y < self.slots(b as int).len() && (#[trigger] self.slots(
                            b as int,
                        )[y]) as int == i;
                    assert(self@[self.slots(b as int)[y] as int].0 != key);
                }
            }
            lemma_position_found(self@, key, self.entries@.len() as int);
        }
        self.entries.len()
    }

    /// Makes the table of buckets larger, so that few groups share a
    /// bucket: the groups stay as they are, and their places are put into a
    /// new table of more buckets.
    fn grow(&mut self)
        requires
            old(self).wf(),
        ensures
            final(self).wf(),
            final(self).entries == old(self).entries,
            final(self).bucket_count() == grown_count(old(self).bucket_count()),
    {
        let count: usize = self.buckets.len();
        let target: usize = if count <= usize::MAX / 2 - 1 {
            2 * count + 1
        } else {
            count
        };
        let mut buckets: Vec<Vec<usize>> = Vec::new();
        let mut b: usize = 0;
        while b < target
            invariant
                b <= target,
                buckets@.len() == b,
                forall|c: int| 0 <= c < b ==> (#[trigger] buckets@[c])@.len() == 0,
            decreases target - b,
        {
            buckets.push(Vec::new());
            b += 1;
        }
        let n: usize = self.entries.len();
        let mut i: usize = 0;
        while i < n
            invariant
                target > 0,
                n == self.entries@.len(),
                i <= n,
                *self == *old(self),
                buckets@.len() == target,
                forall|c: int, x: int|
                    0 <= c < target && 0 <= x < buckets@[c]@.len() ==> (#[trigger] buckets@[c]@[x])
                        < i && bucket_of(self@[buckets@[c]@[x] as int].0.code(), target as int)
                        == c,
                forall|j: int|
                    0 <= j < i ==> holds_place(
                        buckets@[bucket_of((#[trigger] self@[j]).0.code(), target as int)]@,
                        j,
                    ),
            decreases n - i,
        {
            let c: usize = (self.entries[i].0.hash_code() % (target as u64)) as usize;
            let ghost before = buckets@;
            buckets[c].push(i);
            proof {
                assert(self@[i as int].0 == self.entries@[i as int].0);
                assert forall|j: int| 0 <= j < i + 1 implies holds_place(
                    buckets@[bucket_of((#[trigger] self@[j]).0.code(), target as int)]@,
                    j,
                ) by {
                    let d = bucket_of(self@[j].0.code(), target as int);
                    if j < i {
                        assert(holds_place(before[d]@, j));
                        let x = choose|x: int|
                            0 <= x < before[d]@.len() && (#[trigger] before[d]@[x]) as int == j;
                        assert(buckets@[d]@[x] as int == j);
                    } else {
                        assert(buckets@[d]@[buckets@[d]@.len() - 1] as int == j);
                    }
                }
            }
            i += 1;
        }
        self.buckets = buckets;
        proof {
            assert forall|j: int| 0 <= j < self.entries@.len() implies #[trigger] self.is_indexed(
                j,
            ) by {
                assert(holds_place(
                    self.buckets@[bucket_of(self@[j].0.code(), target as int)]@,
                    j,
                ));
            }
        }
    }

    /// Adds `value` to the group of `key`.
    pub fn add(&mut self, key: K, value: V)
        requires
            old(self).wf(),
        ensures
            final(self).wf(),
            final(self)@ == with_value(old(self)@, key, value),
    {
        let at = self.find(key);
        let ghost before = *self;
        if at < self.entries.len() {
            self.entries[at].1.push(value);
            proof {
                lemma_position(before@, key);
                assert(self@ =~= with_value(before@, key, value));
                lemma_with_value(before@, key, value);
                assert(self.buckets == before.buckets);
                assert forall|i: int| 0 <= i < self.entries@.len() implies (#[trigger] self@[i]).0
                    == before@[i].0 by {}
                assert forall|c: int, x: int|
                    0 <= c < self.bucket_count() && 0 <= x < self.slots(c).len() implies (
                #[trigger] self.slots(c)[x]) < self.entries@.len() && bucket_of(
                    self@[self.slots(c)[x] as int].0.code(),
                    self.bucket_count(),
                ) == c by {
                    assert(self.slots(c)[x] == before.slots(c)[x]);
                    assert(self@[before.slots(c)[x] as int].0 == before@[before.slots(
                        c,
                    )[x] as int].0);
                }
                assert forall|i: int| 0 <= i < self.entries@.len() implies #[trigger] self.is_indexed(
                    i,
                ) by {
                    assert(before.is_indexed(i));
                    assert(self@[i].0 == before@[i].0);
                }
            }
        } else {
            if self.entries.len() / 2 >= self.buckets.len() {
                self.grow();
            }
            let ghost grown = *self;
            let b = self.bucket(key);
            let place: usize = self.entries.len();
            let mut values: Vec<V> = Vec::new();
            values.push(value);
            self.entries.push((key, values));
            self.buckets[b].push(place);
            proof {
                assert(grown@ == before@);
                lemma_position(before@, key);
                assert(self@ =~= with_value(before@, key, value));
                lemma_with_value(before@, key, value);
                assert(self.bucket_count() == grown.bucket_count());
                assert forall|i: int| 0 <= i < grown.entries@.len() implies (#[trigger] self@[i]).0
                    == grown@[i].0 by {}
                assert forall|c: int, x: int|
                    0 <= c < self.bucket_count() && 0 <= x < self.slots(c).len() implies (
                #[trigger] self.slots(c)[x]) < self.entries@.len() && bucket_of(
                    self@[self.slots(c)[x] as int].0.code(),
                    self.bucket_count(),
                ) == c by {
                    if c == b && x == self.slots(c).len() - 1 {
                        assert(self.slots(c)[x] == place);
                        assert(self@[place as int].0 == key);
                    } else {
                        assert(self.slots(c)[x] == grown.slots(c)[x]);
                        assert(self@[grown.slots(c)[x] as int].0 == grown@[grown.slots(
                            c,
                        )[x] as int].0);
                    }
                }
                assert forall|i: int| 0 <= i < self.entries@.len() implies #[trigger] self.is_indexed(
                    i,
                ) by {
                    let d = bucket_of(self@[i].0.code(), self.bucket_count());
                    if i < grown.entries@.len() {
                        assert(grown.is_indexed(i));
                        assert(self@[i].0 == grown@[i].0);
                        let x = choose|x: int|
                            0 <= x < grown.slots(d).len() && (#[trigger] grown.slots(d)[x]) as int
                                == i;
                        assert(self.slots(d)[x] as int == i);
                    } else {
                        assert(self@[i].0 == key);
                        assert(self.slots(d)[self.slots(d).len() - 1] as int == i);
                    }
                }
            }
        }
    }
}

} // verus!
