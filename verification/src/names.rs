//! Sets of names, in alphabetical order.

use vstd::prelude::*;

use crate::text::{chars_of, texts};

verus! {

/// Whether a name comes before another, character by character.
pub open spec fn name_before(a: Seq<char>, b: Seq<char>) -> bool
    decreases a.len(),
{
    if b.len() == 0 {
        false
    } else if a.len() == 0 {
        true
    } else if a.first() != b.first() {
        a.first() < b.first()
    } else {
        name_before(a.drop_first(), b.drop_first())
    }
}

/// Whether names stand in alphabetical order, none of them twice.
pub open spec fn in_order(s: Seq<Seq<char>>) -> bool {
    forall|i: int, j: int| 0 <= i < j < s.len() ==> #[trigger] name_before(s[i], s[j])
}

/// The names in a set, in alphabetical order.
pub open spec fn name_list(names: Set<Seq<char>>) -> Seq<Seq<char>> {
    choose|s: Seq<Seq<char>>| in_order(s) && #[trigger] s.to_set() == names
}

proof fn lemma_before_irreflexive(a: Seq<char>)
    ensures
        !name_before(a, a),
    decreases a.len(),
{
    if a.len() > 0 {
        lemma_before_irreflexive(a.drop_first());
    }
}

proof fn lemma_before_transitive(a: Seq<char>, b: Seq<char>, c: Seq<char>)
    requires
        name_before(a, b),
        name_before(b, c),
    ensures
        name_before(a, c),
    decreases a.len(),
{
    if a.len() > 0 && a.first() == b.first() && b.first() == c.first() {
        lemma_before_transitive(a.drop_first(), b.drop_first(), c.drop_first());
    }
}

proof fn lemma_before_total(a: Seq<char>, b: Seq<char>)
    requires
        !name_before(a, b),
        !name_before(b, a),
    ensures
        a == b,
    decreases a.len(),
{
    if a.len() == 0 {
        assert(b.len() == 0);
    } else if b.len() > 0 {
        lemma_before_total(a.drop_first(), b.drop_first());
        assert(a == seq![a.first()] + a.drop_first());
        assert(b == seq![b.first()] + b.drop_first());
    }
}

/// Ordered sequences of the same names are equal.
pub proof fn lemma_order_unique(s: Seq<Seq<char>>, t: Seq<Seq<char>>)
    requires
        in_order(s),
        in_order(t),
        forall|name: Seq<char>| s.contains(name) <==> t.contains(name),
    ensures
        s == t,
    decreases s.len(),
{
    if s.len() == 0 {
        if t.len() > 0 {
            assert(t.contains(t[0]));
            assert(s.contains(t[0]));
        }
    } else {
        let a = s.last();
        assert(s.contains(a));
        assert(t.contains(a));
        let b = t.last();
        assert(t.contains(b));
        assert(s.contains(b));
        let i = s.index_of(b);
        let j = t.index_of(a);
        assert(a == b) by {
            if a != b {
                assert(name_before(s[i], s[s.len() - 1]));
                assert(name_before(t[j], t[t.len() - 1]));
                lemma_before_transitive(a, b, a);
                lemma_before_irreflexive(a);
            }
        }
        let p = s.drop_last();
        let q = t.drop_last();
        assert(in_order(p)) by {
            assert forall|i: int, j: int| 0 <= i < j < p.len() implies #[trigger] name_before(
                p[i],
                p[j],
            ) by {
                assert(name_before(s[i], s[j]));
            }
        }
        assert(in_order(q)) by {
            assert forall|i: int, j: int| 0 <= i < j < q.len() implies #[trigger] name_before(
                q[i],
                q[j],
            ) by {
                assert(name_before(t[i], t[j]));
            }
        }
        assert forall|name: Seq<char>| p.contains(name) <==> q.contains(name) by {
            if p.contains(name) {
                let k = p.index_of(name);
                assert(s[k] == name);
                assert(name_before(s[k], s[s.len() - 1]));
                lemma_before_irreflexive(name);
                assert(s.contains(name));
                let m = t.index_of(name);
                assert(q[m] == name);
            }
            if q.contains(name) {
                let k = q.index_of(name);
                assert(t[k] == name);
                assert(name_before(t[k], t[t.len() - 1]));
                lemma_before_irreflexive(name);
                assert(t.contains(name));
                let m = s.index_of(name);
                assert(p[m] == name);
            }
        }
        lemma_order_unique(p, q);
        assert(s == p.push(a));
        assert(t == q.push(a));
    }
}

/// An ordered sequence of the names in a set is the list of that set.
pub proof fn lemma_name_list(s: Seq<Seq<char>>, names: Set<Seq<char>>)
    requires
        in_order(s),
        s.to_set() == names,
    ensures
        name_list(names) == s,
{
    let t = name_list(names);
    assert(in_order(t) && t.to_set() == names);
    assert forall|name: Seq<char>| s.contains(name) <==> t.contains(name) by {
        assert(s.to_set().contains(name) <==> t.to_set().contains(name));
    }
    lemma_order_unique(s, t);
}

/// An ordered list takes one more name.
proof fn lemma_add_name(s: Seq<Seq<char>>, name: Seq<char>) -> (t: Seq<Seq<char>>)
    requires
        in_order(s),
    ensures
        in_order(t),
        t.to_set() == s.to_set().insert(name),
    decreases s.len(),
{
    if s.len() == 0 {
        let t = seq![name];
        assert(t == s.push(name));
        s.lemma_push_to_set_commute(name);
        t
    } else {
        let last = s.last();
        let rest = s.drop_last();
        assert(s == rest.push(last));
        rest.lemma_push_to_set_commute(last);
        assert(in_order(rest)) by {
            assert forall|i: int, j: int| 0 <= i < j < rest.len() implies #[trigger] name_before(
                rest[i],
                rest[j],
            ) by {
                assert(name_before(s[i], s[j]));
            }
        }
        if last == name {
            assert(s.to_set().insert(name) == s.to_set());
            s
        } else if name_before(last, name) {
            let t = s.push(name);
            s.lemma_push_to_set_commute(name);
            assert forall|i: int, j: int| 0 <= i < j < t.len() implies #[trigger] name_before(
                t[i],
                t[j],
            ) by {
                if j < s.len() {
                    assert(name_before(s[i], s[j]));
                } else if i < s.len() - 1 {
                    assert(name_before(s[i], s[s.len() - 1]));
                    lemma_before_transitive(s[i], last, name);
                }
            }
            t
        } else {
            if !name_before(name, last) {
                lemma_before_total(name, last);
            }
            let u = lemma_add_name(rest, name);
            let t = u.push(last);
            u.lemma_push_to_set_commute(last);
            assert(t.to_set() == s.to_set().insert(name));
            assert forall|i: int, j: int| 0 <= i < j < t.len() implies #[trigger] name_before(
                t[i],
                t[j],
            ) by {
                if j < u.len() {
                    assert(name_before(u[i], u[j]));
                } else {
                    assert(u.to_set().contains(u[i]));
                    if u[i] != name {
                        assert(rest.to_set().contains(u[i]));
                        let k = rest.index_of(u[i]);
                        assert(name_before(s[k], s[s.len() - 1]));
                    }
                }
            }
            t
        }
    }
}

/// The list of a finite set of names is in order and holds these names.
pub proof fn lemma_name_list_holds(names: Set<Seq<char>>)
    requires
        names.finite(),
    ensures
        in_order(name_list(names)),
        name_list(names).to_set() == names,
    decreases names.len(),
{
    if names.len() == 0 {
        let s = Seq::<Seq<char>>::empty();
        assert(s.to_set() == names);
        assert(in_order(s));
    } else {
        let name = names.choose();
        let rest = names.remove(name);
        lemma_name_list_holds(rest);
        let t = lemma_add_name(name_list(rest), name);
        assert(rest.insert(name) == names);
        assert(in_order(t) && t.to_set() == names);
    }
}

/// A name that is put between those before it and those after it keeps the order.
proof fn lemma_insert_in_order(s: Seq<Seq<char>>, at: int, name: Seq<char>)
    requires
        in_order(s),
        0 <= at <= s.len(),
        forall|i: int| 0 <= i < at ==> #[trigger] name_before(s[i], name),
        forall|i: int| at <= i < s.len() ==> #[trigger] name_before(name, s[i]),
    ensures
        in_order(s.insert(at, name)),
        s.insert(at, name).to_set() == s.to_set().insert(name),
{
    let t = s.insert(at, name);
    assert forall|i: int, j: int| 0 <= i < j < t.len() implies #[trigger] name_before(
        t[i],
        t[j],
    ) by {
        let a = if i < at {
            i
        } else {
            i - 1
        };
        let b = if j < at {
            j
        } else {
            j - 1
        };
        if i == at {
            assert(name_before(name, s[b]));
        } else if j == at {
            assert(name_before(s[a], name));
        } else {
            assert(name_before(s[a], s[b]));
        }
    }
    assert forall|x: Seq<char>| t.to_set().contains(x) <==> s.to_set().insert(name).contains(x) by {
        if t.contains(x) {
            let i = t.index_of(x);
            if i < at {
                assert(s[i] == x);
            } else if i > at {
                assert(s[i - 1] == x);
            }
        }
        if s.contains(x) {
            let i = s.index_of(x);
            if i < at {
                assert(t[i] == x);
            } else {
                assert(t[i + 1] == x);
            }
        }
        assert(t[at] == name);
    }
    assert(t.to_set() == s.to_set().insert(name));
}

/// Whether a name comes before another.
fn comes_before(a: &Vec<char>, b: &Vec<char>) -> (r: bool)
    ensures
        r == name_before(a@, b@),
{
    let mut i: usize = 0;
    assert(a@.skip(0) == a@);
    assert(b@.skip(0) == b@);
    while i < a.len() && i < b.len()
        invariant
            i <= a.len(),
            i <= b.len(),
            name_before(a@, b@) == name_before(a@.skip(i as int), b@.skip(i as int)),
        decreases a.len() - i,
    {
        assert(a@.skip(i as int).first() == a@[i as int]);
        assert(b@.skip(i as int).first() == b@[i as int]);
        assert(a@.skip(i as int).drop_first() == a@.skip(i + 1));
        assert(b@.skip(i as int).drop_first() == b@.skip(i + 1));
        if a[i] != b[i] {
            return a[i] < b[i];
        }
        i += 1;
    }
    i < b.len()
}

/// Adds a name to an ordered list, unless it is there.
pub fn insert_name(names: &mut Vec<String>, name: &str)
    requires
        in_order(texts(old(names)@)),
    ensures
        in_order(texts(final(names)@)),
        texts(final(names)@).to_set() == texts(old(names)@).to_set().insert(name@),
{
    let ghost s = texts(names@);
    let chars = chars_of(name);
    let mut at: usize = 0;
    while at < names.len() && comes_before(&chars_of(&names[at]), &chars)
        invariant
            at <= names.len(),
            chars@ == name@,
            s == texts(names@),
            forall|i: int| 0 <= i < at ==> #[trigger] name_before(s[i], name@),
        decreases names.len() - at,
    {
        at += 1;
    }
    if at < names.len() && !comes_before(&chars, &chars_of(&names[at])) {
        proof {
            lemma_before_total(s[at as int], name@);
            assert(s.contains(name@));
            assert(s.to_set().insert(name@) == s.to_set());
        }
        return;
    }
    proof {
        assert forall|i: int| at <= i < s.len() implies #[trigger] name_before(name@, s[i]) by {
            if i > at {
                assert(name_before(s[at as int], s[i]));
                lemma_before_transitive(name@, s[at as int], s[i]);
            }
        }
        lemma_insert_in_order(s, at as int, name@);
    }
    names.insert(at, name.to_owned());
    assert(texts(names@) == s.insert(at as int, name@));
}

/// Law: a name comes before another if and only if it is a proper beginning of it, or its character
/// is the smaller one where the two first differ.
pub proof fn law_name_before(a: Seq<char>, b: Seq<char>)
    ensures
        name_before(a, b) <==> exists|k: int|
            0 <= k <= a.len() && k < b.len() && #[trigger] a.take(k) == b.take(k) && (k == a.len()
                || a[k] < b[k]),
    decreases a.len(),
{
    if a.len() > 0 && b.len() > 0 && a.first() == b.first() {
        let p = a.drop_first();
        let q = b.drop_first();
        law_name_before(p, q);
        if name_before(a, b) {
            let k = choose|k: int|
                0 <= k <= p.len() && k < q.len() && #[trigger] p.take(k) == q.take(k) && (k
                    == p.len() || p[k] < q[k]);
            assert(a.take(k + 1) == seq![a.first()] + p.take(k));
            assert(b.take(k + 1) == seq![b.first()] + q.take(k));
        }
        if exists|k: int|
            0 <= k <= a.len() && k < b.len() && #[trigger] a.take(k) == b.take(k) && (k == a.len()
                || a[k] < b[k]) {
            let k = choose|k: int|
                0 <= k <= a.len() && k < b.len() && #[trigger] a.take(k) == b.take(k) && (k
                    == a.len() || a[k] < b[k]);
            assert(k > 0);
            assert(p.take(k - 1) == a.take(k).drop_first());
            assert(q.take(k - 1) == b.take(k).drop_first());
        }
    } else if b.len() > 0 {
        assert(a.take(0) == b.take(0));
        if exists|k: int|
            0 <= k <= a.len() && k < b.len() && #[trigger] a.take(k) == b.take(k) && (k == a.len()
                || a[k] < b[k]) {
            let k = choose|k: int|
                0 <= k <= a.len() && k < b.len() && #[trigger] a.take(k) == b.take(k) && (k
                    == a.len() || a[k] < b[k]);
            if k > 0 {
                assert(a.take(k)[0] == a.first());
                assert(b.take(k)[0] == b.first());
            }
        }
    }
}

} // verus!
