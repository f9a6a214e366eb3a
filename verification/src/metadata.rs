//! The metadata of a model: values by key, in the order of the keys.

use vstd::prelude::*;
use vstd::utf8::*;

use crate::gguf::Value;
use crate::gguf::ValueView;

verus! {

/// `a` is before `b` where position `i` decides: they agree up to there, and
/// `a` ends or holds the smaller byte.
pub open spec fn before_at(a: Seq<u8>, b: Seq<u8>, i: int) -> bool {
    &&& 0 <= i <= a.len()
    &&& i < b.len()
    &&& forall|j: int| 0 <= j < i ==> a[j] == #[trigger] b[j]
    &&& i == a.len() || a[i] < b[i]
}

/// Key `a` is before key `b`, in the order of their UTF-8 bytes.
pub open spec fn before(a: Seq<char>, b: Seq<char>) -> bool {
    exists|i: int| before_at(encode_utf8(a), encode_utf8(b), i)
}

/// The keys are in strictly ascending order, so that none occurs twice.
pub open spec fn ascending(keys: Seq<Seq<char>>) -> bool {
    forall|i: int, j: int|
        0 <= i < j < keys.len() ==> before(#[trigger] keys[i], #[trigger] keys[j])
}

/// Two keys are the same, or one of them is before the other.
proof fn lemma_before_total(a: Seq<char>, b: Seq<char>)
    ensures
        a == b || before(a, b) || before(b, a),
{
    let x = encode_utf8(a);
    let y = encode_utf8(b);
    if forall|i: int| 0 <= i < x.len() && 0 <= i < y.len() ==> x[i] == y[i] {
        if x.len() < y.len() {
            assert(before_at(x, y, x.len() as int));
        } else if y.len() < x.len() {
            assert(before_at(y, x, y.len() as int));
        } else {
            assert(x =~= y);
            encode_utf8_decode_utf8(a);
            encode_utf8_decode_utf8(b);
        }
    } else {
        let d = lemma_first_difference(x, y, 0);
        assert(before_at(x, y, d) || before_at(y, x, d));
    }
}

/// The first position, from `from` on, where two sequences that differ do so.
proof fn lemma_first_difference(x: Seq<u8>, y: Seq<u8>, from: int) -> (d: int)
    requires
        0 <= from,
        forall|j: int| 0 <= j < from ==> x[j] == y[j],
        exists|i: int| 0 <= i < x.len() && 0 <= i < y.len() && x[i] != y[i],
    ensures
        from <= d < x.len(),
        d < y.len(),
        x[d] != y[d],
        forall|j: int| 0 <= j < d ==> x[j] == y[j],
    decreases x.len() - from,
{
    let i = choose|i: int| 0 <= i < x.len() && 0 <= i < y.len() && x[i] != y[i];
    if x[from] != y[from] && from < x.len() && from < y.len() {
        from
    } else {
        assert(from <= i);
        lemma_first_difference(x, y, from + 1)
    }
}

/// The order of keys is transitive.
proof fn lemma_before_transitive(a: Seq<char>, b: Seq<char>, c: Seq<char>)
    requires
        before(a, b),
        before(b, c),
    ensures
        before(a, c),
{
    let x = encode_utf8(a);
    let y = encode_utf8(b);
    let z = encode_utf8(c);
    let i = choose|i: int| before_at(x, y, i);
    let j = choose|j: int| before_at(y, z, j);
    if i <= j {
        assert(forall|t: int| 0 <= t < i ==> x[t] == #[trigger] z[t]) by {
            assert forall|t: int| 0 <= t < i implies x[t] == #[trigger] z[t] by {
                assert(x[t] == y[t] && y[t] == z[t]);
            }
        }
        if i < j {
            assert(y[i] == z[i]);
        }
        assert(before_at(x, z, i));
    } else {
        assert forall|t: int| 0 <= t < j implies x[t] == #[trigger] z[t] by {
            assert(x[t] == y[t] && y[t] == z[t]);
        }
        assert(x[j] == y[j]);
        assert(before_at(x, z, j));
    }
}

/// No key is before itself.
proof fn lemma_before_irreflexive(a: Seq<char>)
    ensures
        !before(a, a),
{
}

/// Whether key `a` is before key `b`.
fn is_before(a: &String, b: &String) -> (r: bool)
    ensures
        r == before(a@, b@),
{
    let x = a.as_str().as_bytes();
    let y = b.as_str().as_bytes();
    let mut i: usize = 0;
    while i < x.len() && i < y.len() && x[i] == y[i]
        invariant
            i <= x.len(),
            i <= y.len(),
            forall|j: int| 0 <= j < i ==> x@[j] == #[trigger] y@[j],
        decreases x.len() - i,
    {
        i += 1;
    }
    let r = i < y.len() && (i == x.len() || x[i] < y[i]);
    proof {
        let xs = encode_utf8(a@);
        let ys = encode_utf8(b@);
        if r {
            assert(before_at(xs, ys, i as int));
        } else if before(a@, b@) {
            let j = choose|j: int| before_at(xs, ys, j);
            if j < i {
                assert(xs[j] == ys[j]);
            } else if i < j {
                assert(xs[i as int] == ys[i as int]);
            }
        }
    }
    r
}

/// Metadata values by key, in ascending order of the keys.
#[derive(Debug)]
pub struct Metadata {
    entries: Vec<(String, Value)>,
}

/// The keys of a sequence of entries.
spec fn keys_of(entries: Seq<(String, Value)>) -> Seq<Seq<char>> {
    Seq::new(entries.len(), |i: int| entries[i].0@)
}

/// What a sequence of entries says of each key.
spec fn map_of(entries: Seq<(String, Value)>) -> Map<Seq<char>, ValueView> {
    Map::new(
        |k: Seq<char>| keys_of(entries).contains(k),
        |k: Seq<char>| entries[keys_of(entries).index_of(k)].1@,
    )
}

/// In ascending entries, a key is found where it stands.
proof fn lemma_lookup(entries: Seq<(String, Value)>, i: int)
    requires
        ascending(keys_of(entries)),
        0 <= i < entries.len(),
    ensures
        map_of(entries).contains_key(entries[i].0@),
        map_of(entries)[entries[i].0@] == entries[i].1@,
{
    let keys = keys_of(entries);
    assert(keys[i] == entries[i].0@);
    assert(keys.contains(keys[i]));
    let j = keys.index_of(keys[i]);
    assert(keys[j] == keys[i]);
    lemma_before_irreflexive(keys[i]);
    if j < i {
        assert(before(keys[j], keys[i]));
    } else if i < j {
        assert(before(keys[i], keys[j]));
    }
}

impl Metadata {
    #[verifier::type_invariant]
    spec fn inv(self) -> bool {
        ascending(keys_of(self.entries@))
    }

    /// The keys, in the order in which they stand.
    pub closed spec fn keys(&self) -> Seq<Seq<char>> {
        keys_of(self.entries@)
    }

    /// What the metadata says of each key.
    pub closed spec fn view(&self) -> Map<Seq<char>, ValueView> {
        map_of(self.entries@)
    }

    /// No metadata.
    pub fn new() -> (m: Self)
        ensures
            m@ == Map::<Seq<char>, ValueView>::empty(),
    {
        let m = Metadata { entries: Vec::new() };
        assert(m@ =~= Map::<Seq<char>, ValueView>::empty());
        m
    }

    /// How many keys there are.
    pub fn len(&self) -> (n: usize)
        ensures
            n == self.keys().len(),
            ascending(self.keys()),
            forall|k: Seq<char>| #[trigger] self.keys().contains(k) <==> self@.contains_key(k),
    {
        proof {
            use_type_invariant(self);
        }
        self.entries.len()
    }

    /// The entry at position `i`, in ascending order of the keys.
    pub fn entry(&self, i: usize) -> (e: (&str, &Value))
        requires
            i < self.keys().len(),
        ensures
            e.0@ == self.keys()[i as int],
            self@.contains_key(e.0@),
            self@[e.0@] == e.1@,
    {
        proof {
            use_type_invariant(self);
            lemma_lookup(self.entries@, i as int);
        }
        (self.entries[i].0.as_str(), &self.entries[i].1)
    }

    /// The value of a key, if it has one.
    pub fn get(&self, key: &str) -> (r: Option<&Value>)
        ensures
            r is Some <==> self@.contains_key(key@),
            r matches Some(v) ==> v@ == self@[key@],
    {
        proof {
            use_type_invariant(self);
        }
        let wanted = key.to_owned();
        for i in 0..self.entries.len()
            invariant
                wanted@ == key@,
                ascending(keys_of(self.entries@)),
                forall|j: int| 0 <= j < i ==> #[trigger] keys_of(self.entries@)[j] != key@,
        {
            if self.entries[i].0 == wanted {
                proof {
                    lemma_lookup(self.entries@, i as int);
                }
                return Some(&self.entries[i].1);
            }
        }
        None
    }

    /// Sets the value of a key, whether or not it had one.
    pub fn insert(&mut self, key: String, value: Value)
        ensures
            final(self)@ == old(self)@.insert(key@, value@),
    {
        proof {
            use_type_invariant(&*self);
        }
        let mut entries: Vec<(String, Value)> = Vec::new();
        core::mem::swap(&mut entries, &mut self.entries);
        let ghost before_entries = entries@;
        let ghost old_keys = keys_of(before_entries);
        let mut i: usize = 0;
        while i < entries.len() && is_before(&entries[i].0, &key)
            invariant
                i <= entries.len(),
                entries@ == before_entries,
                old_keys == keys_of(before_entries),
                forall|j: int| 0 <= j < i ==> before(#[trigger] old_keys[j], key@),
            decreases entries.len() - i,
        {
            assert(old_keys[i as int] == entries[i as int].0@);
            i += 1;
        }
        let replace = i < entries.len() && entries[i].0 == key;
        proof {
            if i < entries.len() {
                assert(old_keys[i as int] == entries[i as int].0@);
                lemma_before_total(old_keys[i as int], key@);
            }
            assert forall|j: int| i < j < old_keys.len() implies before(
                key@,
                #[trigger] old_keys[j],
            ) by {
                assert(before(old_keys[i as int], old_keys[j]));
                if !replace {
                    lemma_before_transitive(key@, old_keys[i as int], old_keys[j]);
                }
            }
        }
        let ghost k = key@;
        let ghost v = value@;
        if replace {
            entries[i] = (key, value);
            assert(keys_of(entries@) =~= old_keys);
        } else {
            entries.insert(i, (key, value));
            assert(keys_of(entries@) =~= old_keys.insert(i as int, k));
        }
        proof {
            let keys = keys_of(entries@);
            assert(ascending(keys)) by {
                assert forall|a: int, b: int| 0 <= a < b < keys.len() implies before(
                    #[trigger] keys[a],
                    #[trigger] keys[b],
                ) by {
                    if !replace {
                        let oa = if a < i { a } else { a - 1 };
                        let ob = if b < i { b } else { b - 1 };
                        if a != i {
                            assert(keys[a] == old_keys[oa]);
                        }
                        if b != i {
                            assert(keys[b] == old_keys[ob]);
                        }
                        if a != i && b != i {
                            assert(before(old_keys[oa], old_keys[ob]));
                        }
                    }
                }
            }
            assert(entries[i as int].0@ == k && entries[i as int].1@ == v);
            lemma_lookup(entries@, i as int);
            assert(map_of(entries@) =~= map_of(before_entries).insert(k, v)) by {
                assert forall|q: Seq<char>| map_of(entries@).contains_key(q)
                    <==> map_of(before_entries).insert(k, v).contains_key(q) by {
                    if keys.contains(q) {
                        let a = keys.index_of(q);
                        if replace {
                            assert(old_keys[a] == q);
                        } else if a < i {
                            assert(old_keys[a] == q);
                        } else if a > i {
                            assert(old_keys[a - 1] == q);
                        }
                    }
                    if old_keys.contains(q) {
                        let a = old_keys.index_of(q);
                        if replace || a < i {
                            assert(keys[a] == q);
                        } else {
                            assert(keys[a + 1] == q);
                        }
                    }
                    assert(keys[i as int] == k);
                }
                assert forall|q: Seq<char>| map_of(entries@).contains_key(q) && q != k implies
                    map_of(entries@)[q] == map_of(before_entries).insert(k, v)[q] by {
                    let a = keys.index_of(q);
                    assert(keys[a] == q && a != i);
                    lemma_lookup(entries@, a);
                    let oa = if replace || a < i { a } else { a - 1 };
                    assert(old_keys[oa] == q);
                    lemma_lookup(before_entries, oa);
                }
            }
        }
        self.entries = entries;
    }
}

/// Keys are ordered as their UTF-8 bytes are: a prefix comes before what it is a
/// prefix of, and otherwise the first byte that differs decides. Of two keys that
/// differ, one is before the other, and never both.
pub proof fn law_keys_are_ordered_by_bytes(a: Seq<char>, b: Seq<char>, i: int)
    ensures
        ({
            let (x, y) = (encode_utf8(a), encode_utf8(b));
            &&& x.len() < y.len() && x == y.take(x.len() as int) ==> before(a, b)
            &&& 0 <= i < x.len() && i < y.len() && x.take(i) == y.take(i) && x[i] < y[i] ==> before(
                a,
                b,
            )
        }),
        a != b ==> before(a, b) || before(b, a),
        before(a, b) ==> a != b && !before(b, a),
{
    let (x, y) = (encode_utf8(a), encode_utf8(b));
    lemma_before_total(a, b);
    lemma_before_irreflexive(a);
    if before(a, b) && before(b, a) {
        lemma_before_transitive(a, b, a);
    }
    if x.len() < y.len() && x == y.take(x.len() as int) {
        assert forall|j: int| 0 <= j < x.len() implies x[j] == #[trigger] y[j] by {
            assert(y.take(x.len() as int)[j] == y[j]);
        }
        assert(before_at(x, y, x.len() as int));
    }
    if 0 <= i < x.len() && i < y.len() && x.take(i) == y.take(i) && x[i] < y[i] {
        assert forall|j: int| 0 <= j < i implies x[j] == #[trigger] y[j] by {
            assert(x.take(i)[j] == y.take(i)[j]);
        }
        assert(before_at(x, y, i));
    }
}

} // verus!
