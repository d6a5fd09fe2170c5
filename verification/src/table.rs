//! A table by name, kept in the order of its names.
use crate::text::chars_of;
use vstd::prelude::*;

verus! {

/// One text stands before another: by the first character in which they differ,
/// and a beginning before the whole.
pub open spec fn before(a: Seq<char>, b: Seq<char>) -> bool
    decreases b.len(),
{
    if b.len() == 0 {
        false
    } else if a.len() == 0 {
        true
    } else if a[0] != b[0] {
        a[0] < b[0]
    } else {
        before(a.skip(1), b.skip(1))
    }
}

pub proof fn lemma_before_total(a: Seq<char>, b: Seq<char>)
    ensures
        a != b ==> before(a, b) || before(b, a),
        !(before(a, b) && before(b, a)),
        a == b ==> !before(a, b),
    decreases a.len(),
{
    if a.len() > 0 && b.len() > 0 && a[0] == b[0] {
        lemma_before_total(a.skip(1), b.skip(1));
        if a.skip(1) == b.skip(1) {
            assert(a =~= seq![a[0]] + a.skip(1));
            assert(b =~= seq![b[0]] + b.skip(1));
        }
    } else if a.len() == 0 && b.len() == 0 {
        assert(a =~= b);
    }
}

pub proof fn lemma_before_trans(a: Seq<char>, b: Seq<char>, c: Seq<char>)
    requires
        before(a, b),
        before(b, c),
    ensures
        before(a, c),
    decreases a.len(),
{
    if a.len() > 0 && a[0] == b[0] && b[0] == c[0] {
        lemma_before_trans(a.skip(1), b.skip(1), c.skip(1));
    }
}

/// Whether one text stands before another.
pub fn stands_before(a: &[char], b: &[char]) -> (r: bool)
    ensures
        r == before(a@, b@),
{
    let mut i: usize = 0;
    assert(a@.skip(0) =~= a@);
    assert(b@.skip(0) =~= b@);
    while i < a.len() && i < b.len()
        invariant
            i <= a@.len(),
            i <= b@.len(),
            before(a@, b@) == before(a@.skip(i as int), b@.skip(i as int)),
        decreases a@.len() - i,
    {
        assert(a@.skip(i as int)[0] == a@[i as int]);
        assert(b@.skip(i as int)[0] == b@[i as int]);
        if a[i] != b[i] {
            return a[i] < b[i];
        }
        assert(a@.skip(i as int).skip(1) =~= a@.skip(i + 1));
        assert(b@.skip(i as int).skip(1) =~= b@.skip(i + 1));
        i += 1;
    }
    i < b.len()
}

/// Values by name, in the order of the names, one for each.
#[derive(Clone, Debug, PartialEq, Eq)]
pub struct NameTable<V> {
    pub entries: Vec<(String, V)>,
}

/// What the first `n` entries say of each name.
pub open spec fn named_to<V>(entries: Seq<(String, V)>, n: int) -> Map<Seq<char>, V>
    decreases n,
{
    if n <= 0 {
        Map::empty()
    } else {
        named_to(entries, n - 1).insert(entries[n - 1].0@, entries[n - 1].1)
    }
}

pub open spec fn by_name<V>(entries: Seq<(String, V)>) -> bool {
    forall|i: int, j: int|
        0 <= i < j < entries.len() ==> before(
            (#[trigger] entries[i]).0@,
            (#[trigger] entries[j]).0@,
        )
}

pub proof fn lemma_named<V>(entries: Seq<(String, V)>, n: int)
    requires
        0 <= n <= entries.len(),
        by_name(entries),
    ensures
        forall|i: int|
            0 <= i < n ==> named_to(entries, n).dom().contains((#[trigger] entries[i]).0@)
                && named_to(entries, n)[entries[i].0@] == entries[i].1,
        forall|a: Seq<char>|
            #[trigger] named_to(entries, n).dom().contains(a) ==> exists|i: int|
                0 <= i < n && (#[trigger] entries[i]).0@ == a,
        named_to(entries, n).dom().finite(),
        named_to(entries, n).dom().len() == n,
    decreases n,
{
    if n > 0 {
        lemma_named(entries, n - 1);
        let t = named_to(entries, n - 1);
        let last = entries[n - 1].0@;
        if t.dom().contains(last) {
            let i = choose|i: int| 0 <= i < n - 1 && (#[trigger] entries[i]).0@ == last;
            lemma_before_total(entries[i].0@, last);
            assert(before(entries[i].0@, entries[n - 1].0@));
        }
        assert(named_to(entries, n).dom() =~= t.dom().insert(last));
        assert forall|i: int| 0 <= i < n implies named_to(entries, n).dom().contains(
            (#[trigger] entries[i]).0@,
        ) && named_to(entries, n)[entries[i].0@] == entries[i].1 by {
            if i < n - 1 {
                assert(t.dom().contains(entries[i].0@));
            }
        }
        assert forall|a: Seq<char>| #[trigger] named_to(entries, n).dom().contains(a) implies exists|
            i: int,
        |
            0 <= i < n && (#[trigger] entries[i]).0@ == a by {
            if a == last {
                assert(entries[n - 1].0@ == a);
            } else {
                assert(t.dom().contains(a));
            }
        }
    }
}

proof fn lemma_replaced<V>(was: Seq<(String, V)>, i: int, entry: (String, V))
    requires
        by_name(was),
        0 <= i < was.len(),
        entry.0@ == was[i].0@,
    ensures
        ({
            let now = was.update(i, entry);
            by_name(now) && named_to(now, now.len() as int) == named_to(
                was,
                was.len() as int,
            ).insert(entry.0@, entry.1)
        }),
{
    let now = was.update(i, entry);
    let t = named_to(now, now.len() as int);
    let want = named_to(was, was.len() as int).insert(entry.0@, entry.1);
    assert forall|k: int| 0 <= k < now.len() implies (#[trigger] now[k]).0@ == was[k].0@ by {}
    assert forall|a: int, b: int| 0 <= a < b < now.len() implies before(
        (#[trigger] now[a]).0@,
        (#[trigger] now[b]).0@,
    ) by {
        assert(before(was[a].0@, was[b].0@));
    }
    lemma_named(now, now.len() as int);
    lemma_named(was, was.len() as int);
    assert forall|a: Seq<char>| #[trigger] t.dom().contains(a) <==> want.dom().contains(a) by {
        if t.dom().contains(a) {
            let k = choose|k: int| 0 <= k < now.len() && (#[trigger] now[k]).0@ == a;
            assert(was[k].0@ == a);
        }
        if want.dom().contains(a) && a != entry.0@ {
            let k = choose|k: int| 0 <= k < was.len() && (#[trigger] was[k]).0@ == a;
            assert(now[k].0@ == a);
        }
        if a == entry.0@ {
            assert(now[i].0@ == a);
        }
    }
    assert forall|a: Seq<char>| t.dom().contains(a) implies #[trigger] t[a] == want[a] by {
        let k = choose|k: int| 0 <= k < now.len() && (#[trigger] now[k]).0@ == a;
        if k == i {
            assert(now[i] == entry);
        } else {
            assert(now[k] == was[k]);
            lemma_before_total(was[k].0@, was[i].0@);
            if k < i {
                assert(before(was[k].0@, was[i].0@));
            } else {
                assert(before(was[i].0@, was[k].0@));
            }
        }
    }
    assert(t =~= want);
}

proof fn lemma_added<V>(was: Seq<(String, V)>, i: int, entry: (String, V))
    requires
        by_name(was),
        0 <= i <= was.len(),
        forall|k: int| 0 <= k < i ==> before((#[trigger] was[k]).0@, entry.0@),
        forall|k: int| i <= k < was.len() ==> before(entry.0@, (#[trigger] was[k]).0@),
    ensures
        ({
            let now = was.insert(i, entry);
            by_name(now) && named_to(now, now.len() as int) == named_to(
                was,
                was.len() as int,
            ).insert(entry.0@, entry.1)
        }),
{
    let now = was.insert(i, entry);
    let name = entry.0@;
    let t = named_to(now, now.len() as int);
    let want = named_to(was, was.len() as int).insert(name, entry.1);
    assert(now[i] == entry);
    assert forall|k: int| 0 <= k < i implies #[trigger] now[k] == was[k] by {}
    assert forall|k: int| i < k < now.len() implies #[trigger] now[k] == was[k - 1] by {}
    assert forall|a: int, b: int| 0 <= a < b < now.len() implies before(
        (#[trigger] now[a]).0@,
        (#[trigger] now[b]).0@,
    ) by {
        if b < i {
            assert(before(was[a].0@, was[b].0@));
        } else if a > i {
            assert(before(was[a - 1].0@, was[b - 1].0@));
        } else if a < i && b > i {
            assert(before(was[a].0@, was[b - 1].0@));
        } else if b == i {
            assert(before(was[a].0@, name));
        } else {
            assert(before(name, was[b - 1].0@));
        }
    }
    lemma_named(now, now.len() as int);
    lemma_named(was, was.len() as int);
    assert forall|a: Seq<char>| #[trigger] t.dom().contains(a) <==> want.dom().contains(a) by {
        if t.dom().contains(a) {
            let k = choose|k: int| 0 <= k < now.len() && (#[trigger] now[k]).0@ == a;
            if k < i {
                assert(was[k].0@ == a);
            } else if k > i {
                assert(was[k - 1].0@ == a);
            }
        }
        if want.dom().contains(a) && a != name {
            let k = choose|k: int| 0 <= k < was.len() && (#[trigger] was[k]).0@ == a;
            let x = if k < i {
                k
            } else {
                k + 1
            };
            assert(now[x].0@ == a);
        }
        if a == name {
            assert(now[i].0@ == a);
        }
    }
    assert forall|a: Seq<char>| t.dom().contains(a) implies #[trigger] t[a] == want[a] by {
        let k = choose|k: int| 0 <= k < now.len() && (#[trigger] now[k]).0@ == a;
        lemma_before_total(name, name);
        if k < i {
            assert(was[k].0@ == a);
        } else if k > i {
            assert(was[k - 1].0@ == a);
        }
    }
    assert(t =~= want);
}

impl<V> NameTable<V> {
    pub open spec fn wf(&self) -> bool {
        by_name(self.entries@)
    }

    pub open spec fn view(&self) -> Map<Seq<char>, V> {
        named_to(self.entries@, self.entries@.len() as int)
    }

    pub fn new() -> (r: NameTable<V>)
        ensures
            r.wf(),
            r@ == Map::<Seq<char>, V>::empty(),
            r.entries@.len() == 0,
    {
        NameTable { entries: Vec::new() }
    }

    /// The place of the first entry that does not stand before a name.
    fn place(&self, name: &str) -> (r: usize)
        requires
            self.wf(),
        ensures
            r <= self.entries@.len(),
            forall|i: int| 0 <= i < r ==> before((#[trigger] self.entries@[i]).0@, name@),
            r < self.entries@.len() ==> !before(self.entries@[r as int].0@, name@),
    {
        let want = chars_of(name);
        let mut i: usize = 0;
        while i < self.entries.len()
            invariant
                i <= self.entries@.len(),
                want@ == name@,
                forall|k: int| 0 <= k < i ==> before((#[trigger] self.entries@[k]).0@, name@),
            decreases self.entries@.len() - i,
        {
            let have = chars_of(self.entries[i].0.as_str());
            if !stands_before(&have, &want) {
                return i;
            }
            i += 1;
        }
        i
    }

    /// The place of a name, where the table has it.
    pub fn find(&self, name: &str) -> (r: Option<usize>)
        requires
            self.wf(),
        ensures
            match r {
                Some(i) => i < self.entries@.len() && self.entries@[i as int].0@ == name@
                    && self@.dom().contains(name@) && self@[name@] == self.entries@[i as int].1,
                None => !self@.dom().contains(name@),
            },
    {
        proof {
            lemma_named(self.entries@, self.entries@.len() as int);
        }
        let i: usize = self.place(name);
        if i < self.entries.len() {
            if crate::text::str_eq(self.entries[i].0.as_str(), name) {
                return Some(i);
            }
            proof {
                lemma_before_total(self.entries@[i as int].0@, name@);
                assert forall|k: int| i <= k < self.entries@.len() implies (
                #[trigger] self.entries@[k]).0@ != name@ by {
                    if k > i {
                        assert(before(self.entries@[i as int].0@, self.entries@[k].0@));
                        lemma_before_total(self.entries@[i as int].0@, self.entries@[k].0@);
                    }
                }
            }
        }
        proof {
            lemma_before_total(name@, name@);
        }
        None
    }

    /// Sets the value of a name.
    pub fn insert(&mut self, name: String, value: V)
        requires
            old(self).wf(),
        ensures
            final(self).wf(),
            final(self)@ == old(self)@.insert(name@, value),
    {
        let ghost was = self.entries@;
        let i: usize = self.place(name.as_str());
        let same = if i < self.entries.len() {
            crate::text::str_eq(self.entries[i].0.as_str(), name.as_str())
        } else {
            false
        };
        if same {
            proof {
                lemma_replaced(was, i as int, (name, value));
            }
            self.entries.set(i, (name, value));
        } else {
            proof {
                assert forall|k: int| i <= k < was.len() implies before(
                    name@,
                    (#[trigger] was[k]).0@,
                ) by {
                    lemma_before_total(was[i as int].0@, name@);
                    if k > i {
                        assert(before(was[i as int].0@, was[k].0@));
                        lemma_before_trans(name@, was[i as int].0@, was[k].0@);
                    }
                }
                lemma_added(was, i as int, (name, value));
            }
            self.entries.insert(i, (name, value));
        }
    }
}

/// One text stands before another exactly if it is a proper beginning of it, or is
/// less at the first place where they differ.
pub proof fn law_texts_stand_in_their_letters_order(a: Seq<char>, b: Seq<char>, n: int)
    requires
        0 <= n <= a.len(),
        n <= b.len(),
        forall|i: int| 0 <= i < n ==> a[i] == b[i],
        n < a.len() && n < b.len() ==> a[n] != b[n],
    ensures
        before(a, b) <==> n < b.len() && (n == a.len() || a[n] < b[n]),
    decreases n,
{
    if n > 0 {
        assert(a[0] == b[0]);
        law_texts_stand_in_their_letters_order(a.skip(1), b.skip(1), n - 1);
    }
}

} // verus!
