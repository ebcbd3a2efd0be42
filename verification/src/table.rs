//! A map and a set keyed by strings, each kept in the strings' order.

use vstd::prelude::*;

use crate::text;

verus! {

/// Whether `left` comes before `right`, character by character.
pub open spec fn before(left: Seq<char>, right: Seq<char>) -> bool
    decreases left.len(),
{
    if right.len() == 0 {
        false
    } else if left.len() == 0 {
        true
    } else if left[0] == right[0] {
        before(left.skip(1), right.skip(1))
    } else {
        (left[0] as int) < (right[0] as int)
    }
}

/// Of two strings that differ, one comes before the other, and not the other
/// way round.
pub proof fn one_comes_first(left: Seq<char>, right: Seq<char>)
    ensures
        !before(left, left),
        left != right ==> (before(left, right) <==> !before(right, left)),
        before(left, right) ==> left != right,
    decreases left.len(),
{
    if left.len() > 0 && right.len() > 0 && left[0] == right[0] {
        one_comes_first(left.skip(1), right.skip(1));
        if left.skip(1) == right.skip(1) {
            assert(left =~= seq![left[0]] + left.skip(1));
            assert(right =~= seq![right[0]] + right.skip(1));
        }
    } else if left.len() > 0 {
        one_comes_first(left.skip(1), left.skip(1));
    }
    if left.len() > 0 {
        one_comes_first(left.skip(1), left.skip(1));
    }
    if left.len() == 0 && right.len() == 0 {
        assert(left =~= right);
    }
    if left.len() > 0 && right.len() > 0 && left[0] != right[0] {
        assert(left[0] as int != right[0] as int);
    }
}

pub proof fn order_chains(first: Seq<char>, second: Seq<char>, third: Seq<char>)
    requires
        before(first, second),
        before(second, third),
    ensures
        before(first, third),
    decreases first.len(),
{
    if first.len() > 0 && second.len() > 0 && third.len() > 0 && first[0] == second[0] && second[0]
        == third[0] {
        order_chains(first.skip(1), second.skip(1), third.skip(1));
    }
}

pub fn comes_before(left: &str, right: &str) -> (r: bool)
    ensures
        r == before(left@, right@),
{
    let a = text::chars(left);
    let b = text::chars(right);
    let mut i: usize = 0;
    assert(left@.skip(0) =~= left@);
    assert(right@.skip(0) =~= right@);
    while i < a.len() && i < b.len() && a[i] == b[i]
        invariant
            i <= a@.len(),
            i <= b@.len(),
            a@ == left@,
            b@ == right@,
            before(left@, right@) == before(left@.skip(i as int), right@.skip(i as int)),
        decreases a@.len() - i,
    {
        assert(left@.skip(i as int).skip(1) =~= left@.skip(i + 1));
        assert(right@.skip(i as int).skip(1) =~= right@.skip(i + 1));
        i = i + 1;
    }
    if i >= b.len() {
        false
    } else if i >= a.len() {
        true
    } else {
        let x: char = a[i];
        let y: char = b[i];
        lower(x, y)
    }
}

fn lower(x: char, y: char) -> (r: bool)
    ensures
        r == ((x as int) < (y as int)),
{
    (x as u32) < (y as u32)
}

pub open spec fn sorted<V>(entries: Seq<(String, V)>) -> bool {
    forall|i: int, j: int|
        0 <= i < j < entries.len() ==> before(
            (#[trigger] entries[i]).0@,
            (#[trigger] entries[j]).0@,
        )
}

/// What `entries` map each key to.
pub open spec fn mapped<V>(entries: Seq<(String, V)>) -> Map<Seq<char>, V>
    decreases entries.len(),
{
    if entries.len() == 0 {
        map![]
    } else {
        mapped(entries.drop_last()).insert(entries.last().0@, entries.last().1)
    }
}

/// A key is mapped when some entry has it, and to what that entry holds.
pub proof fn mapped_by_entries<V>(entries: Seq<(String, V)>)
    requires
        sorted(entries),
    ensures
        forall|i: int|
            0 <= i < entries.len() ==> mapped(entries).contains_key((#[trigger] entries[i]).0@)
                && mapped(entries)[entries[i].0@] == entries[i].1,
        forall|key: Seq<char>| #[trigger]
            mapped(entries).contains_key(key) ==> exists|i: int|
                0 <= i < entries.len() && (#[trigger] entries[i]).0@ == key,
    decreases entries.len(),
{
    if entries.len() > 0 {
        let fewer = entries.drop_last();
        assert(forall|i: int| 0 <= i < fewer.len() ==> fewer[i] == entries[i]);
        mapped_by_entries(fewer);
        assert forall|i: int| 0 <= i < entries.len() implies mapped(entries).contains_key(
            (#[trigger] entries[i]).0@,
        ) && mapped(entries)[entries[i].0@] == entries[i].1 by {
            if i < fewer.len() {
                assert(fewer[i] == entries[i]);
                one_comes_first(entries[i].0@, entries[entries.len() - 1].0@);
            }
        }
        assert forall|key: Seq<char>| #[trigger] mapped(entries).contains_key(key) implies exists|
            i: int,
        |
            0 <= i < entries.len() && (#[trigger] entries[i]).0@ == key by {
            if key != entries.last().0@ {
                assert(mapped(fewer).contains_key(key));
                let i = choose|i: int| 0 <= i < fewer.len() && (#[trigger] fewer[i]).0@ == key;
                assert(entries[i].0@ == key);
            } else {
                assert(entries[entries.len() - 1].0@ == key);
            }
        }
    }
}

/// A map from strings to values that can be copied.
#[derive(Debug, PartialEq, Eq)]
pub struct Table<V: Copy> {
    entries: Vec<(String, V)>,
}

impl<V: Copy> View for Table<V> {
    type V = Map<Seq<char>, V>;

    closed spec fn view(&self) -> Map<Seq<char>, V> {
        mapped(self.entries@)
    }
}

impl<V: Copy> Clone for Table<V> {
    fn clone(&self) -> (table: Self)
        ensures
            table@ == self@,
    {
        proof {
            use_type_invariant(self);
        }
        let mut entries: Vec<(String, V)> = Vec::new();
        let mut i: usize = 0;
        assert(mapped(self.entries@.take(0)) =~= mapped(entries@));
        while i < self.entries.len()
            invariant
                i <= self.entries@.len(),
                i == entries@.len(),
                forall|j: int|
                    0 <= j < i ==> (#[trigger] entries@[j]).0@ == self.entries@[j].0@,
                mapped(entries@) == mapped(self.entries@.take(i as int)),
            decreases self.entries@.len() - i,
        {
            let ghost was = entries@;
            entries.push((self.entries[i].0.clone(), self.entries[i].1));
            assert(entries@.drop_last() =~= was);
            assert(self.entries@.take(i + 1).drop_last() =~= self.entries@.take(i as int));
            i = i + 1;
        }
        assert(self.entries@.take(i as int) =~= self.entries@);
        assert forall|i: int, j: int| 0 <= i < j < entries@.len() implies before(
            (#[trigger] entries@[i]).0@,
            (#[trigger] entries@[j]).0@,
        ) by {
            assert(before(self.entries@[i].0@, self.entries@[j].0@));
        }
        Table { entries }
    }
}

impl<V: Copy> Table<V> {
    #[verifier::type_invariant]
    spec fn in_order(self) -> bool {
        sorted(self.entries@)
    }

    pub fn new() -> (table: Self)
        ensures
            table@ == Map::<Seq<char>, V>::empty(),
    {
        Table { entries: Vec::new() }
    }

    /// The entries, in the order of their keys.
    pub fn pairs(&self) -> (entries: &Vec<(String, V)>)
        ensures
            sorted(entries@),
            mapped(entries@) == self@,
    {
        proof {
            use_type_invariant(self);
        }
        &self.entries
    }

    /// The first entry whose key does not come before `key`.
    fn position(&self, key: &str) -> (at: usize)
        ensures
            at <= self.entries@.len(),
            forall|i: int| 0 <= i < at ==> before((#[trigger] self.entries@[i]).0@, key@),
            forall|i: int|
                at <= i < self.entries@.len() ==> !before((#[trigger] self.entries@[i]).0@, key@),
    {
        proof {
            use_type_invariant(self);
        }
        let mut at: usize = 0;
        while at < self.entries.len() && comes_before(self.entries[at].0.as_str(), key)
            invariant
                at <= self.entries@.len(),
                forall|i: int| 0 <= i < at ==> before((#[trigger] self.entries@[i]).0@, key@),
            decreases self.entries@.len() - at,
        {
            at = at + 1;
        }
        proof {
            if at < self.entries@.len() {
                assert forall|i: int| at <= i < self.entries@.len() implies !before(
                    (#[trigger] self.entries@[i]).0@,
                    key@,
                ) by {
                    if i > at && before(self.entries@[i].0@, key@) {
                        order_chains(
                            self.entries@[at as int].0@,
                            self.entries@[i].0@,
                            key@,
                        );
                    }
                }
            }
        }
        at
    }

    pub fn get(&self, key: &str) -> (r: Option<V>)
        ensures
            r == (if self@.contains_key(key@) {
                Some(self@[key@])
            } else {
                None
            }),
    {
        proof {
            use_type_invariant(self);
            mapped_by_entries(self.entries@);
        }
        let at: usize = self.position(key);
        if at < self.entries.len() && text::same(self.entries[at].0.as_str(), key) {
            assert(self.entries@[at as int].0@ == key@);
            Some(self.entries[at].1)
        } else {
            proof {
                if self@.contains_key(key@) {
                    let i = choose|i: int|
                        0 <= i < self.entries@.len() && (#[trigger] self.entries@[i]).0@ == key@;
                    one_comes_first(key@, key@);
                    if i != at {
                        assert(i > at);
                        one_comes_first(self.entries@[at as int].0@, key@);
                    }
                }
            }
            None
        }
    }

    pub fn contains(&self, key: &str) -> (r: bool)
        ensures
            r == self@.contains_key(key@),
    {
        self.get(key).is_some()
    }

    pub fn is_empty(&self) -> (r: bool)
        ensures
            r == (self@ == Map::<Seq<char>, V>::empty()),
    {
        proof {
            use_type_invariant(self);
            mapped_by_entries(self.entries@);
            if self.entries@.len() > 0 {
                assert(self@.contains_key(self.entries@[0].0@));
            }
        }
        self.entries.len() == 0
    }

    pub fn insert(&mut self, key: String, value: V)
        ensures
            final(self)@ == old(self)@.insert(key@, value),
    {
        proof {
            use_type_invariant(&*self);
        }
        let at: usize = self.position(key.as_str());
        let ghost was = self.entries@;
        let mut entries: Vec<(String, V)> = Vec::new();
        std::mem::swap(&mut entries, &mut self.entries);
        proof {
            mapped_by_entries(was);
        }
        if at < entries.len() && text::same(entries[at].0.as_str(), key.as_str()) {
            entries.set(at, (key, value));
            proof {
                assert(forall|i: int|
                    0 <= i < entries@.len() ==> (#[trigger] entries@[i]).0@ == was[i].0@);
                assert(sorted(entries@)) by {
                    assert forall|i: int, j: int| 0 <= i < j < entries@.len() implies before(
                        (#[trigger] entries@[i]).0@,
                        (#[trigger] entries@[j]).0@,
                    ) by {
                        assert(before(was[i].0@, was[j].0@));
                    }
                }
                mapped_by_entries(entries@);
                same_map(was, entries@, key@, value, at as int, false);
            }
        } else {
            entries.insert(at, (key, value));
            proof {
                assert forall|i: int, j: int| 0 <= i < j < entries@.len() implies before(
                    (#[trigger] entries@[i]).0@,
                    (#[trigger] entries@[j]).0@,
                ) by {
                    if j < at {
                        assert(before(was[i].0@, was[j].0@));
                    } else if i > at {
                        assert(before(was[i - 1].0@, was[j - 1].0@));
                    } else if j == at {
                        assert(before(was[i].0@, key@));
                    } else {
                        let next = was[j - 1].0@;
                        assert(!before(next, key@));
                        if next == key@ {
                            one_comes_first(was[at as int].0@, key@);
                            if j - 1 > at {
                                assert(before(was[at as int].0@, was[j - 1].0@));
                            }
                        }
                        one_comes_first(next, key@);
                        if i < at {
                            assert(before(was[i].0@, key@));
                            order_chains(was[i].0@, key@, next);
                        }
                    }
                }
                mapped_by_entries(entries@);
                same_map(was, entries@, key@, value, at as int, true);
            }
        }
        self.entries = entries;
    }

    pub fn remove(&mut self, key: &str)
        ensures
            final(self)@ == old(self)@.remove(key@),
    {
        proof {
            use_type_invariant(&*self);
        }
        let at: usize = self.position(key);
        let ghost was = self.entries@;
        let mut entries: Vec<(String, V)> = Vec::new();
        std::mem::swap(&mut entries, &mut self.entries);
        proof {
            mapped_by_entries(was);
        }
        if at < entries.len() && text::same(entries[at].0.as_str(), key) {
            entries.remove(at);
            proof {
                assert(forall|i: int|
                    0 <= i < entries@.len() ==> #[trigger] entries@[i] == (if i < at {
                        was[i]
                    } else {
                        was[i + 1]
                    }));
                assert(sorted(entries@));
                mapped_by_entries(entries@);
                let now = mapped(entries@);
                let want = mapped(was).remove(key@);
                assert forall|k: Seq<char>| #[trigger] now.contains_key(k) implies want.contains_key(k)
                    && now[k] == want[k] by {
                    let i = choose|i: int| 0 <= i < entries@.len() && (#[trigger] entries@[i]).0@ == k;
                    let j = if i < at { i } else { i + 1 };
                    assert(was[j].0@ == k);
                    one_comes_first(was[j].0@, was[at as int].0@);
                }
                assert forall|k: Seq<char>| #[trigger] want.contains_key(k) implies now.contains_key(k) by {
                    let j = choose|j: int| 0 <= j < was.len() && (#[trigger] was[j]).0@ == k;
                    let i = if j < at { j } else { j - 1 };
                    assert(entries@[i].0@ == k);
                }
                assert(now =~= want);
            }
        } else {
            proof {
                if mapped(was).contains_key(key@) {
                    let i = choose|i: int| 0 <= i < was.len() && (#[trigger] was[i]).0@ == key@;
                    one_comes_first(key@, key@);
                    if i != at {
                        one_comes_first(was[at as int].0@, key@);
                    }
                }
                assert(mapped(was) =~= mapped(was).remove(key@));
            }
        }
        self.entries = entries;
    }
}

/// One entry more, or one entry changed, and nothing else.
proof fn same_map<V>(
    was: Seq<(String, V)>,
    now: Seq<(String, V)>,
    key: Seq<char>,
    value: V,
    at: int,
    grown: bool,
)
    requires
        sorted(was),
        sorted(now),
        0 <= at < now.len(),
        now[at].0@ == key,
        now[at].1 == value,
        grown ==> now.len() == was.len() + 1 && forall|i: int|
            0 <= i < now.len() && i != at ==> #[trigger] now[i] == was[if i < at {
                i
            } else {
                i - 1
            }],
        !grown ==> now.len() == was.len() && was[at].0@ == key && forall|i: int|
            0 <= i < now.len() && i != at ==> #[trigger] now[i] == was[i],
    ensures
        mapped(now) == mapped(was).insert(key, value),
{
    mapped_by_entries(was);
    mapped_by_entries(now);
    let got = mapped(now);
    let want = mapped(was).insert(key, value);
    assert forall|k: Seq<char>| #[trigger] got.contains_key(k) implies want.contains_key(k)
        && got[k] == want[k] by {
        let i = choose|i: int| 0 <= i < now.len() && (#[trigger] now[i]).0@ == k;
        if i != at {
            let j = if grown && i > at {
                i - 1
            } else {
                i
            };
            assert(was[j] == now[i]);
            one_comes_first(now[i].0@, now[at].0@);
            one_comes_first(now[at].0@, now[i].0@);
        }
    }
    assert forall|k: Seq<char>| #[trigger] want.contains_key(k) implies got.contains_key(k) by {
        if k != key {
            let j = choose|j: int| 0 <= j < was.len() && (#[trigger] was[j]).0@ == k;
            let i = if grown && j >= at {
                j + 1
            } else {
                j
            };
            assert(now[i] == was[j]);
        } else {
            assert(now[at].0@ == key);
        }
    }
    assert(got =~= want);
}

/// **Words go by their first difference**: where two differ first, the one with
/// the smaller letter comes before; and what another begins with comes before
/// it.
pub proof fn words_go_by_their_first_difference(
    same: Seq<char>,
    one: char,
    other: char,
    rest: Seq<char>,
    tail: Seq<char>,
)
    requires
        one as int != other as int,
    ensures
        before(same.push(one) + rest, same.push(other) + tail) <==> (one as int) < (other as int),
        before(same, same.push(one) + rest),
        !before(same.push(one) + rest, same),
    decreases same.len(),
{
    let (a, b) = (same.push(one) + rest, same.push(other) + tail);
    if same.len() > 0 {
        let less = same.skip(1);
        assert(a.skip(1) =~= less.push(one) + rest);
        assert(b.skip(1) =~= less.push(other) + tail);
        assert(a[0] == same[0] && b[0] == same[0]);
        words_go_by_their_first_difference(less, one, other, rest, tail);
    } else {
        assert(a[0] == one && b[0] == other);
    }
}

} // verus!
