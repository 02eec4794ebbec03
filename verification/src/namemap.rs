//! A map from names to values that keeps its entries sorted by name, in the
//! byte order of the names' UTF-8 encodings (the order of Rust's `str`).
use vstd::prelude::*;
use vstd::utf8::*;

verus! {

broadcast use vstd::string::group_string_axioms;

/// Lexicographic order on byte sequences.
pub open spec fn bytes_lt(a: Seq<u8>, b: Seq<u8>) -> bool
    decreases a.len(),
{
    if a.len() == 0 {
        b.len() > 0
    } else if b.len() == 0 {
        false
    } else if a[0] != b[0] {
        a[0] < b[0]
    } else {
        bytes_lt(a.drop_first(), b.drop_first())
    }
}

/// The order of names: byte order of their UTF-8 encodings.
pub open spec fn name_lt(a: Seq<char>, b: Seq<char>) -> bool {
    bytes_lt(encode_utf8(a), encode_utf8(b))
}

/// Names in strictly increasing order.
pub open spec fn names_sorted<T>(m: Seq<(Seq<char>, T)>) -> bool {
    forall|i: int, j: int| 0 <= i < j < m.len() ==> name_lt(#[trigger] m[i].0, #[trigger] m[j].0)
}

/// The first position from `i` whose name is not below `k`.
pub open spec fn insert_pos<T>(m: Seq<(Seq<char>, T)>, k: Seq<char>, i: int) -> int
    decreases m.len() - i,
{
    if i < 0 || i >= m.len() || !name_lt(m[i].0, k) {
        i
    } else {
        insert_pos(m, k, i + 1)
    }
}

/// `m` with `k` bound to `v`: the entry for `k` is replaced if there is one,
/// otherwise the new entry goes before the first name that is not below `k`.
pub open spec fn map_insert<T>(m: Seq<(Seq<char>, T)>, k: Seq<char>, v: T) -> Seq<(Seq<char>, T)> {
    let p = insert_pos(m, k, 0);
    if p < m.len() && m[p].0 == k {
        m.update(p, (k, v))
    } else {
        m.insert(p, (k, v))
    }
}

/// The value bound to `k` in `m` (its first entry named `k`).
pub open spec fn map_get<T>(m: Seq<(Seq<char>, T)>, k: Seq<char>) -> Option<T>
    decreases m.len(),
{
    if m.len() == 0 {
        None
    } else if m[0].0 == k {
        Some(m[0].1)
    } else {
        map_get(m.drop_first(), k)
    }
}

/// A name-keyed map whose entries are kept sorted by name.
#[derive(Clone, Debug)]
pub struct NameMap<V> {
    pub entries: Vec<(String, V)>,
}

pub open spec fn pairs_view<V: View>(s: Seq<(String, V)>) -> Seq<(Seq<char>, V::V)> {
    s.map_values(|e: (String, V)| (e.0@, e.1@))
}

impl<V: View> View for NameMap<V> {
    type V = Seq<(Seq<char>, V::V)>;

    open spec fn view(&self) -> Seq<(Seq<char>, V::V)> {
        pairs_view(self.entries@)
    }
}

/// `a` before `b` in the byte order of their UTF-8 encodings.
pub fn str_lt(a: &str, b: &str) -> (r: bool)
    ensures
        r == name_lt(a@, b@),
{
    let x = a.as_bytes();
    let y = b.as_bytes();
    let mut i: usize = 0;
    assert(x@.skip(0) =~= x@);
    assert(y@.skip(0) =~= y@);
    loop
        invariant
            i <= x@.len(),
            i <= y@.len(),
            x@ == encode_utf8(a@),
            y@ == encode_utf8(b@),
            bytes_lt(x@, y@) == bytes_lt(x@.skip(i as int), y@.skip(i as int)),
        decreases x@.len() - i,
    {
        if i == x.len() {
            return i < y.len();
        }
        if i == y.len() {
            return false;
        }
        if x[i] != y[i] {
            return x[i] < y[i];
        }
        assert(x@.skip(i as int).drop_first() =~= x@.skip(i + 1));
        assert(y@.skip(i as int).drop_first() =~= y@.skip(i + 1));
        i = i + 1;
    }
}

/// `a` and `b` spell the same name.
pub fn str_eq(a: &str, b: &str) -> (r: bool)
    ensures
        r == (a@ == b@),
{
    let x = a.as_bytes();
    let y = b.as_bytes();
    proof {
        encode_utf8_decode_utf8(a@);
        encode_utf8_decode_utf8(b@);
    }
    if x.len() != y.len() {
        assert(x@.len() != y@.len());
        assert(x@ != y@);
        return false;
    }
    let mut i: usize = 0;
    while i < x.len()
        invariant
            i <= x@.len(),
            x@.len() == y@.len(),
            x@ == encode_utf8(a@),
            y@ == encode_utf8(b@),
            forall|j: int| 0 <= j < i ==> x@[j] == y@[j],
        decreases x@.len() - i,
    {
        if x[i] != y[i] {
            assert(x@[i as int] != y@[i as int]);
            assert(x@ != y@);
            return false;
        }
        i = i + 1;
    }
    assert(x@ =~= y@);
    true
}

impl<V: View> NameMap<V> {
    pub fn new() -> (r: Self)
        ensures
            r@ == Seq::<(Seq<char>, V::V)>::empty(),
    {
        let r = NameMap { entries: Vec::new() };
        assert(r@ =~= Seq::<(Seq<char>, V::V)>::empty());
        r
    }

    /// Binds `k` to `v`.
    pub fn insert(&mut self, k: String, v: V)
        ensures
            final(self)@ == map_insert(old(self)@, k@, v@),
    {
        let ghost m = old(self)@;
        let mut i: usize = 0;
        while i < self.entries.len() && str_lt(self.entries[i].0.as_str(), k.as_str())
            invariant
                self@ == m,
                i <= self.entries@.len(),
                insert_pos(m, k@, 0) == insert_pos(m, k@, i as int),
            decreases self.entries@.len() - i,
        {
            i = i + 1;
        }
        assert(insert_pos(m, k@, i as int) == i);
        if i < self.entries.len() && str_eq(self.entries[i].0.as_str(), k.as_str()) {
            self.entries.set(i, (k, v));
            assert(self@ =~= m.update(i as int, (k@, v@)));
        } else {
            self.entries.insert(i, (k, v));
            assert(self@ =~= m.insert(i as int, (k@, v@)));
        }
    }

    /// The entry named `k`, if there is one.
    pub fn get(&self, k: &str) -> (r: Option<&V>)
        ensures
            match (r, map_get(self@, k@)) {
                (Some(v), Some(sv)) => v@ == sv,
                (None, None) => true,
                _ => false,
            },
    {
        let mut i: usize = 0;
        assert(self@.skip(0) =~= self@);
        while i < self.entries.len()
            invariant
                i <= self.entries@.len(),
                map_get(self@, k@) == map_get(self@.skip(i as int), k@),
            decreases self.entries@.len() - i,
        {
            if str_eq(self.entries[i].0.as_str(), k) {
                return Some(&self.entries[i].1);
            }
            assert(self@.skip(i as int).drop_first() =~= self@.skip(i + 1));
            i = i + 1;
        }
        None
    }

    /// The entry named `k` with its stored name, if there is one.
    pub fn get_key_value(&self, k: &str) -> (r: Option<(&String, &V)>)
        ensures
            match (r, map_get(self@, k@)) {
                (Some((n, v)), Some(sv)) => n@ == k@ && v@ == sv,
                (None, None) => true,
                _ => false,
            },
    {
        let mut i: usize = 0;
        assert(self@.skip(0) =~= self@);
        while i < self.entries.len()
            invariant
                i <= self.entries@.len(),
                map_get(self@, k@) == map_get(self@.skip(i as int), k@),
            decreases self.entries@.len() - i,
        {
            if str_eq(self.entries[i].0.as_str(), k) {
                return Some((&self.entries[i].0, &self.entries[i].1));
            }
            assert(self@.skip(i as int).drop_first() =~= self@.skip(i + 1));
            i = i + 1;
        }
        None
    }

    pub fn len(&self) -> (r: usize)
        ensures
            r == self@.len(),
    {
        self.entries.len()
    }
}


pub proof fn lemma_map_get_entry<T>(m: Seq<(Seq<char>, T)>, k: Seq<char>)
    ensures
        map_get(m, k) matches Some(v) ==> exists|i: int| 0 <= i < m.len() && #[trigger] m[i] == (k, v),
        map_get(m, k) is None ==> forall|i: int| 0 <= i < m.len() ==> (#[trigger] m[i]).0 != k,
    decreases m.len(),
{
    if m.len() > 0 {
        lemma_map_get_entry(m.drop_first(), k);
        if m[0].0 != k {
            if let Some(v) = map_get(m, k) {
                let j = choose|j: int| 0 <= j < m.drop_first().len() && m.drop_first()[j] == (k, v);
                assert(m[j + 1] == (k, v));
            } else {
                assert forall|i: int| 0 <= i < m.len() implies (#[trigger] m[i]).0 != k by {
                    if i > 0 {
                        assert(m[i] == m.drop_first()[i - 1]);
                    }
                }
            }
        } else {
            assert(m[0] == (k, m[0].1));
        }
    }
}


// ---------------------------------------------------------------------------
// The order of names

pub proof fn lemma_bytes_lt_irreflexive(a: Seq<u8>)
    ensures
        !bytes_lt(a, a),
    decreases a.len(),
{
    if a.len() > 0 {
        lemma_bytes_lt_irreflexive(a.drop_first());
    }
}

pub proof fn lemma_bytes_lt_transitive(a: Seq<u8>, b: Seq<u8>, c: Seq<u8>)
    requires
        bytes_lt(a, b),
        bytes_lt(b, c),
    ensures
        bytes_lt(a, c),
    decreases a.len(),
{
    if a.len() > 0 && b.len() > 0 && c.len() > 0 && a[0] == b[0] && b[0] == c[0] {
        lemma_bytes_lt_transitive(a.drop_first(), b.drop_first(), c.drop_first());
    }
}

pub proof fn lemma_bytes_lt_total(a: Seq<u8>, b: Seq<u8>)
    requires
        a != b,
    ensures
        bytes_lt(a, b) || bytes_lt(b, a),
    decreases a.len(),
{
    if a.len() == 0 && b.len() == 0 {
        assert(a =~= b);
    }
    if a.len() > 0 && b.len() > 0 && a[0] == b[0] {
        if a.drop_first() == b.drop_first() {
            assert(a.drop_first().len() == b.drop_first().len());
            assert(a.len() == b.len());
            assert(a =~= b) by {
                assert forall|i: int| 0 <= i < a.len() implies a[i] == b[i] by {
                    if i > 0 {
                        assert(a[i] == a.drop_first()[i - 1]);
                        assert(b[i] == b.drop_first()[i - 1]);
                    }
                }
            }
        }
        lemma_bytes_lt_total(a.drop_first(), b.drop_first());
    }
}

/// The order of names is a strict total order.
pub proof fn lemma_name_order(a: Seq<char>, b: Seq<char>, c: Seq<char>)
    ensures
        !name_lt(a, a),
        name_lt(a, b) && name_lt(b, c) ==> name_lt(a, c),
        a != b ==> name_lt(a, b) || name_lt(b, a),
        name_lt(a, b) ==> !name_lt(b, a) && a != b,
{
    lemma_bytes_lt_irreflexive(encode_utf8(a));
    if name_lt(a, b) && name_lt(b, c) {
        lemma_bytes_lt_transitive(encode_utf8(a), encode_utf8(b), encode_utf8(c));
    }
    if a != b {
        encode_utf8_decode_utf8(a);
        encode_utf8_decode_utf8(b);
        lemma_bytes_lt_total(encode_utf8(a), encode_utf8(b));
    }
    if name_lt(a, b) && name_lt(b, a) {
        lemma_bytes_lt_transitive(encode_utf8(a), encode_utf8(b), encode_utf8(a));
    }
}

// ---------------------------------------------------------------------------
// Laws of the map

proof fn lemma_insert_pos<T>(m: Seq<(Seq<char>, T)>, k: Seq<char>, i: int)
    requires
        0 <= i <= m.len(),
    ensures
        i <= insert_pos(m, k, i) <= m.len(),
        forall|j: int| i <= j < insert_pos(m, k, i) ==> name_lt(#[trigger] m[j].0, k),
        insert_pos(m, k, i) < m.len() ==> !name_lt(m[insert_pos(m, k, i)].0, k),
    decreases m.len() - i,
{
    if i < m.len() && name_lt(m[i].0, k) {
        lemma_insert_pos(m, k, i + 1);
    }
}

/// In a map whose names are sorted, looking up the name of an entry finds
/// that entry.
pub proof fn lemma_map_get_at<T>(m: Seq<(Seq<char>, T)>, i: int)
    requires
        names_sorted(m),
        0 <= i < m.len(),
    ensures
        map_get(m, m[i].0) == Some(m[i].1),
    decreases i,
{
    if i > 0 {
        lemma_name_order(m[0].0, m[i].0, m[i].0);
        let d = m.drop_first();
        assert forall|a: int, b: int| 0 <= a < b < d.len() implies name_lt(#[trigger] d[a].0, #[trigger] d[b].0) by {
            assert(d[a] == m[a + 1]);
            assert(d[b] == m[b + 1]);
        }
        assert(d[i - 1] == m[i]);
        lemma_map_get_at(d, i - 1);
    }
}

/// Inserting into a map whose names are sorted keeps them sorted, binds the
/// inserted name to the inserted value and leaves every other name as it was.
pub proof fn lemma_map_insert<T>(m: Seq<(Seq<char>, T)>, k: Seq<char>, v: T, k2: Seq<char>)
    requires
        names_sorted(m),
    ensures
        names_sorted(map_insert(m, k, v)),
        map_get(map_insert(m, k, v), k2) == (if k2 == k {
            Some(v)
        } else {
            map_get(m, k2)
        }),
{
    lemma_insert_pos(m, k, 0);
    let p = insert_pos(m, k, 0);
    let r = map_insert(m, k, v);
    if p < m.len() && m[p].0 == k {
        assert(r == m.update(p, (k, v)));
        assert forall|a: int, b: int| 0 <= a < b < r.len() implies name_lt(#[trigger] r[a].0, #[trigger] r[b].0) by {
            assert(r[a].0 == m[a].0 && r[b].0 == m[b].0);
        }
    } else {
        assert(r == m.insert(p, (k, v)));
        if p < m.len() {
            lemma_name_order(k, m[p].0, k);
        }
        assert forall|a: int, b: int| 0 <= a < b < r.len() implies name_lt(#[trigger] r[a].0, #[trigger] r[b].0) by {
            if b < p {
                assert(r[a] == m[a] && r[b] == m[b]);
            } else if b == p {
                assert(r[a] == m[a]);
            } else if a == p {
                assert(r[b] == m[b - 1]);
                if b - 1 > p {
                    lemma_name_order(k, m[p].0, m[b - 1].0);
                }
            } else if a < p {
                assert(r[a] == m[a] && r[b] == m[b - 1]);
            } else {
                assert(r[a] == m[a - 1] && r[b] == m[b - 1]);
            }
        }
    }
    // The value bound to `k2`.
    lemma_map_get_entry(m, k2);
    lemma_map_get_entry(r, k2);
    if k2 == k {
        lemma_map_get_at(r, p);
    } else if let Some(x) = map_get(m, k2) {
        let i = choose|i: int| 0 <= i < m.len() && #[trigger] m[i] == (k2, x);
        if p < m.len() && m[p].0 == k {
            assert(r[i] == m[i]);
            lemma_map_get_at(r, i);
        } else if i < p {
            assert(r[i] == m[i]);
            lemma_map_get_at(r, i);
        } else {
            assert(r[i + 1] == m[i]);
            lemma_map_get_at(r, i + 1);
        }
    } else {
        if let Some(y) = map_get(r, k2) {
            let i = choose|i: int| 0 <= i < r.len() && #[trigger] r[i] == (k2, y);
            if p < m.len() && m[p].0 == k {
                if i != p {
                    assert(r[i] == m[i]);
                }
            } else if i < p {
                assert(r[i] == m[i]);
            } else if i > p {
                assert(r[i] == m[i - 1]);
            }
        }
    }
}

/// Every entry of `map_insert(m, k, v)` is `(k, v)` or an entry of `m`.
pub proof fn lemma_map_insert_entries<T>(m: Seq<(Seq<char>, T)>, k: Seq<char>, v: T)
    ensures
        forall|i: int|
            0 <= i < map_insert(m, k, v).len() ==> #[trigger] map_insert(m, k, v)[i] == (k, v)
                || m.contains(map_insert(m, k, v)[i]),
{
    lemma_insert_pos(m, k, 0);
    let p = insert_pos(m, k, 0);
    let r = map_insert(m, k, v);
    assert forall|i: int| 0 <= i < r.len() implies #[trigger] r[i] == (k, v) || m.contains(r[i]) by {
        if p < m.len() && m[p].0 == k {
            if i != p {
                assert(r[i] == m[i]);
                assert(m.contains(m[i]));
            }
        } else if i < p {
            assert(r[i] == m[i]);
            assert(m.contains(m[i]));
        } else if i > p {
            assert(r[i] == m[i - 1]);
            assert(m.contains(m[i - 1]));
        }
    }
}

} // verus!
