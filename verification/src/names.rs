//! Lists of values found by name, read as maps from names to values.

use vstd::prelude::*;

verus! {

/// A value together with the name under which it is found.
pub struct Named<T> {
    pub name: String,
    pub value: T,
}

/// No two entries of the list have the same name.
pub open spec fn names_unique<T>(s: Seq<Named<T>>) -> bool {
    forall|i: int, j: int| 0 <= i < j < s.len() ==> s[i].name@ != s[j].name@
}

/// The map from each name of the list to the view of its value.
pub open spec fn as_map<T: View>(s: Seq<Named<T>>) -> Map<Seq<char>, T::V>
    decreases s.len(),
{
    if s.len() == 0 {
        Map::empty()
    } else {
        as_map(s.drop_last()).insert(s.last().name@, s.last().value@)
    }
}

/// The names of the map are the names of the list.
pub proof fn lemma_as_map_dom<T: View>(s: Seq<Named<T>>, name: Seq<char>)
    ensures
        as_map(s).contains_key(name) <==> exists|i: int|
            0 <= i < s.len() && (#[trigger] s[i]).name@ == name,
    decreases s.len(),
{
    if s.len() > 0 {
        let front = s.drop_last();
        lemma_as_map_dom(front, name);
        if as_map(s).contains_key(name) {
            if s.last().name@ == name {
                assert(s[s.len() - 1].name@ == name);
            } else {
                let i = choose|i: int| 0 <= i < front.len() && (#[trigger] front[i]).name@ == name;
                assert(s[i].name@ == name);
            }
        }
        if exists|i: int| 0 <= i < s.len() && (#[trigger] s[i]).name@ == name {
            let i = choose|i: int| 0 <= i < s.len() && (#[trigger] s[i]).name@ == name;
            if i < front.len() {
                assert(front[i].name@ == name);
            }
        }
    }
}

/// Where names are unique, the map sends each entry's name to its value.
pub proof fn lemma_as_map_at<T: View>(s: Seq<Named<T>>, i: int)
    requires
        names_unique(s),
        0 <= i < s.len(),
    ensures
        as_map(s).contains_key(s[i].name@),
        as_map(s)[s[i].name@] == s[i].value@,
    decreases s.len(),
{
    let front = s.drop_last();
    if i < s.len() - 1 {
        assert(names_unique(front)) by {
            assert forall|a: int, b: int| 0 <= a < b < front.len() implies front[a].name@
                != front[b].name@ by {
                assert(front[a] == s[a] && front[b] == s[b]);
            }
        }
        lemma_as_map_at(front, i);
        assert(front[i] == s[i]);
    }
}

/// Replacing the value of an entry replaces it in the map.
pub proof fn lemma_as_map_update<T: View>(s: Seq<Named<T>>, i: int, e: Named<T>)
    requires
        names_unique(s),
        0 <= i < s.len(),
        e.name@ == s[i].name@,
    ensures
        names_unique(s.update(i, e)),
        as_map(s.update(i, e)) == as_map(s).insert(e.name@, e.value@),
    decreases s.len(),
{
    let r = s.update(i, e);
    assert(names_unique(r)) by {
        assert forall|a: int, b: int| 0 <= a < b < r.len() implies r[a].name@ != r[b].name@ by {
            assert(r[a].name@ == s[a].name@ && r[b].name@ == s[b].name@);
        }
    }
    let front = s.drop_last();
    if i == s.len() - 1 {
        assert(r.drop_last() =~= front);
        assert(as_map(r) =~= as_map(s).insert(e.name@, e.value@));
    } else {
        assert(names_unique(front)) by {
            assert forall|a: int, b: int| 0 <= a < b < front.len() implies front[a].name@
                != front[b].name@ by {
                assert(front[a] == s[a] && front[b] == s[b]);
            }
        }
        lemma_as_map_update(front, i, e);
        assert(r.drop_last() =~= front.update(i, e));
        assert(r.last() == s.last());
        assert(s.last().name@ != e.name@) by {
            assert(s[i].name@ != s[s.len() - 1].name@);
        }
        assert(as_map(r) =~= as_map(s).insert(e.name@, e.value@));
    }
}

/// Appending an entry under a new name adds it to the map.
pub proof fn lemma_as_map_push<T: View>(s: Seq<Named<T>>, e: Named<T>)
    requires
        names_unique(s),
        !as_map(s).contains_key(e.name@),
    ensures
        names_unique(s.push(e)),
        as_map(s.push(e)) == as_map(s).insert(e.name@, e.value@),
{
    let r = s.push(e);
    assert(r.drop_last() =~= s);
    assert forall|a: int, b: int| 0 <= a < b < r.len() implies r[a].name@ != r[b].name@ by {
        if b == s.len() {
            lemma_as_map_dom(s, e.name@);
            assert(s[a].name@ != e.name@);
        }
    }
}

/// The index of the entry of the given name, if there is one.
pub fn position<T>(entries: &Vec<Named<T>>, name: &String) -> (found: Option<usize>)
    ensures
        match found {
            Some(i) => i < entries.len() && entries@[i as int].name@ == name@,
            None => forall|i: int| 0 <= i < entries.len() ==> entries@[i].name@ != name@,
        },
{
    let mut i: usize = 0;
    while i < entries.len()
        invariant
            i <= entries.len(),
            forall|j: int| 0 <= j < i ==> entries@[j].name@ != name@,
        decreases entries.len() - i,
    {
        if entries[i].name == *name {
            return Some(i);
        }
        i += 1;
    }
    None
}

/// The order of names: a text precedes another if it is a proper prefix of
/// it, or if at the first place where they differ its character comes
/// first.
pub open spec fn precedes(a: Seq<char>, b: Seq<char>) -> bool
    decreases a.len(),
{
    if b.len() == 0 {
        false
    } else if a.len() == 0 {
        true
    } else if a[0] != b[0] {
        (a[0] as u32) < (b[0] as u32)
    } else {
        precedes(a.drop_first(), b.drop_first())
    }
}

/// The names of the list are in order, each preceding the next.
pub open spec fn names_sorted<T>(s: Seq<Named<T>>) -> bool {
    forall|i: int, j: int| 0 <= i < j < s.len() ==> precedes(s[i].name@, s[j].name@)
}

/// No text precedes itself.
pub proof fn lemma_precedes_irreflexive(a: Seq<char>)
    ensures
        !precedes(a, a),
    decreases a.len(),
{
    if a.len() > 0 {
        lemma_precedes_irreflexive(a.drop_first());
    }
}

/// Of two different texts one precedes the other.
pub proof fn lemma_precedes_total(a: Seq<char>, b: Seq<char>)
    ensures
        a == b || precedes(a, b) || precedes(b, a),
    decreases a.len(),
{
    if a.len() > 0 && b.len() > 0 && a[0] == b[0] {
        lemma_precedes_total(a.drop_first(), b.drop_first());
        if a.drop_first() == b.drop_first() {
            assert(a =~= seq![a[0]] + a.drop_first());
            assert(b =~= seq![b[0]] + b.drop_first());
        }
    } else if a.len() == 0 && b.len() == 0 {
        assert(a =~= b);
    } else if a.len() > 0 && b.len() > 0 {
        assert(a[0] == b[0] || a[0] as u32 != b[0] as u32) by {
            vstd::utf8::char_u32_cast(a[0], a[0] as u32);
            vstd::utf8::char_u32_cast(b[0], b[0] as u32);
        }
    }
}

/// The order of names is transitive.
pub proof fn lemma_precedes_transitive(a: Seq<char>, b: Seq<char>, c: Seq<char>)
    requires
        precedes(a, b),
        precedes(b, c),
    ensures
        precedes(a, c),
    decreases a.len(),
{
    if a.len() > 0 && a[0] == b[0] && b[0] == c[0] {
        lemma_precedes_transitive(a.drop_first(), b.drop_first(), c.drop_first());
    }
}

/// In the order of names, two texts that agree on their first `k`
/// characters compare as what follows those characters.
pub proof fn lemma_precedes_skip(a: Seq<char>, b: Seq<char>, k: int)
    requires
        0 <= k <= a.len(),
        k <= b.len(),
        a.take(k) == b.take(k),
    ensures
        precedes(a, b) == precedes(a.skip(k), b.skip(k)),
    decreases k,
{
    if k > 0 {
        assert(a[0] == a.take(k)[0] && b[0] == b.take(k)[0]);
        let a1 = a.drop_first();
        let b1 = b.drop_first();
        assert(a1.take(k - 1) =~= a.take(k).drop_first());
        assert(b1.take(k - 1) =~= b.take(k).drop_first());
        lemma_precedes_skip(a1, b1, k - 1);
        assert(a1.skip(k - 1) =~= a.skip(k));
        assert(b1.skip(k - 1) =~= b.skip(k));
    } else {
        assert(a.skip(0) =~= a);
        assert(b.skip(0) =~= b);
    }
}

/// Names that are in order are unique.
pub proof fn lemma_sorted_unique<T>(s: Seq<Named<T>>)
    requires
        names_sorted(s),
    ensures
        names_unique(s),
{
    assert forall|i: int, j: int| 0 <= i < j < s.len() implies s[i].name@ != s[j].name@ by {
        lemma_precedes_irreflexive(s[i].name@);
    }
}

/// An entry under a new name that enters the list at any place is added
/// to the map.
pub proof fn lemma_as_map_insert<T: View>(s: Seq<Named<T>>, p: int, e: Named<T>)
    requires
        0 <= p <= s.len(),
        !as_map(s).contains_key(e.name@),
    ensures
        as_map(s.insert(p, e)) == as_map(s).insert(e.name@, e.value@),
    decreases s.len(),
{
    let r = s.insert(p, e);
    if p == s.len() {
        assert(r.drop_last() =~= s);
    } else {
        let front = s.drop_last();
        assert(r.drop_last() =~= front.insert(p, e));
        assert(r.last() == s.last());
        lemma_as_map_dom(s, e.name@);
        lemma_as_map_dom(front, e.name@);
        assert(!as_map(front).contains_key(e.name@)) by {
            if as_map(front).contains_key(e.name@) {
                let i = choose|i: int| 0 <= i < front.len() && (#[trigger] front[i]).name@ == e.name@;
                assert(s[i].name@ == e.name@);
            }
        }
        assert(s.last().name@ != e.name@) by {
            assert(s[s.len() - 1].name@ != e.name@);
        }
        lemma_as_map_insert(front, p, e);
        assert(as_map(r) =~= as_map(s).insert(e.name@, e.value@));
    }
}

/// Whether a name precedes another.
pub fn name_precedes(first: &String, second: &String) -> (before: bool)
    ensures
        before == precedes(first@, second@),
{
    let a = first.as_str();
    let b = second.as_str();
    let n = a.unicode_len();
    let m = b.unicode_len();
    let mut i: usize = 0;
    assert(a@.take(0) =~= b@.take(0));
    while i < n && i < m
        invariant
            a@ == first@,
            b@ == second@,
            n == a@.len(),
            m == b@.len(),
            i <= n,
            i <= m,
            a@.take(i as int) == b@.take(i as int),
        decreases n - i,
    {
        let c = a.get_char(i);
        let d = b.get_char(i);
        if c != d {
            let before = (c as u32) < (d as u32);
            proof {
                lemma_precedes_skip(a@, b@, i as int);
                let x = a@.skip(i as int);
                let y = b@.skip(i as int);
                assert(x.len() > 0 && y.len() > 0);
                assert(x[0] == c && y[0] == d);
                assert(precedes(x, y) == before);
            }
            return before;
        }
        assert(a@.take(i + 1) =~= a@.take(i as int).push(c));
        assert(b@.take(i + 1) =~= b@.take(i as int).push(d));
        i += 1;
    }
    proof {
        lemma_precedes_skip(a@, b@, i as int);
    }
    i < m
}

/// The place of a name in a list whose names are in order: the index of
/// its entry, or else the index at which an entry for it keeps the order.
pub fn search<T>(entries: &Vec<Named<T>>, name: &String) -> (place: Result<usize, usize>)
    requires
        names_sorted(entries@),
    ensures
        match place {
            Ok(i) => i < entries.len() && entries@[i as int].name@ == name@,
            Err(p) => {
                &&& p <= entries.len()
                &&& forall|i: int| 0 <= i < p ==> precedes(#[trigger] entries@[i].name@, name@)
                &&& forall|i: int|
                    p <= i < entries.len() ==> precedes(name@, #[trigger] entries@[i].name@)
                &&& forall|i: int| 0 <= i < entries.len() ==> entries@[i].name@ != name@
            },
        },
{
    let mut i: usize = 0;
    while i < entries.len()
        invariant
            i <= entries.len(),
            names_sorted(entries@),
            forall|j: int| 0 <= j < i ==> precedes(#[trigger] entries@[j].name@, name@),
        decreases entries.len() - i,
    {
        if !name_precedes(&entries[i].name, name) {
            if entries[i].name == *name {
                return Ok(i);
            }
            proof {
                lemma_precedes_total(entries@[i as int].name@, name@);
                assert forall|j: int| i <= j < entries.len() implies precedes(
                    name@,
                    #[trigger] entries@[j].name@,
                ) by {
                    if j > i {
                        lemma_precedes_transitive(
                            name@,
                            entries@[i as int].name@,
                            entries@[j].name@,
                        );
                    }
                }
                assert forall|j: int| 0 <= j < entries.len() implies entries@[j].name@
                    != name@ by {
                    lemma_precedes_irreflexive(name@);
                }
            }
            return Err(i);
        }
        i += 1;
    }
    proof {
        assert forall|j: int| 0 <= j < entries.len() implies entries@[j].name@ != name@ by {
            lemma_precedes_irreflexive(name@);
        }
    }
    Err(i)
}

/// The names of the list, in order, with commas between them.
pub open spec fn joined_names<T>(s: Seq<Named<T>>) -> Seq<char>
    decreases s.len(),
{
    if s.len() == 0 {
        Seq::empty()
    } else if s.len() == 1 {
        s[0].name@
    } else {
        joined_names(s.drop_last()) + seq![','] + s.last().name@
    }
}

/// Writes the names of the list, in order, with commas between them.
pub fn join_names<T>(entries: &Vec<Named<T>>) -> (line: String)
    ensures
        line@ == joined_names(entries@),
{
    let mut line = String::new();
    let mut i: usize = 0;
    proof {
        reveal_strlit(",");
        assert(","@ =~= seq![',']);
        assert(entries@.take(0) =~= Seq::<Named<T>>::empty());
    }
    while i < entries.len()
        invariant
            i <= entries.len(),
            line@ == joined_names(entries@.take(i as int)),
            ","@ == seq![','],
        decreases entries.len() - i,
    {
        proof {
            let next = entries@.take(i + 1);
            assert(next.drop_last() =~= entries@.take(i as int));
            assert(next.last() == entries@[i as int]);
            if i == 0 {
                assert(next[0] == entries@[0]);
            }
        }
        if i > 0 {
            line.append(",");
        }
        line.append(entries[i].name.as_str());
        proof {
            if i == 0 {
                assert(line@ =~= entries@[0].name@);
            }
        }
        i += 1;
    }
    assert(entries@.take(entries.len() as int) =~= entries@);
    line
}

} // verus!
