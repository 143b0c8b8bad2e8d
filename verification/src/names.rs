//! Sets of names and name-to-name maps, kept in ascending order of their
//! characters (code point by code point, a proper prefix first: the
//! order of `str`'s `Ord`), so walking one is deterministic and two
//! holding the same names are laid out identically.
use vstd::prelude::*;
use crate::text::{chars_of, same_text};

verus! {

/// `a` sorts strictly before `b`.
pub open spec fn text_lt(a: Seq<char>, b: Seq<char>) -> bool
    decreases a.len(),
{
    if a.len() == 0 {
        b.len() > 0
    } else if b.len() == 0 {
        false
    } else if a[0] != b[0] {
        (a[0] as int) < (b[0] as int)
    } else {
        text_lt(a.drop_first(), b.drop_first())
    }
}

/// Strictly ascending: sorted, nothing twice.
pub open spec fn ascending(s: Seq<Seq<char>>) -> bool {
    forall|i: int, j: int| 0 <= i < j < s.len() ==> text_lt(#[trigger] s[i], #[trigger] s[j])
}

/// The characters of each string.
pub open spec fn texts(v: Seq<String>) -> Seq<Seq<char>> {
    v.map_values(|s: String| s@)
}

pub proof fn lemma_text_lt_irreflexive(a: Seq<char>)
    ensures
        !text_lt(a, a),
    decreases a.len(),
{
    if a.len() > 0 {
        lemma_text_lt_irreflexive(a.drop_first());
    }
}

pub proof fn lemma_text_lt_transitive(a: Seq<char>, b: Seq<char>, c: Seq<char>)
    requires
        text_lt(a, b),
        text_lt(b, c),
    ensures
        text_lt(a, c),
    decreases a.len(),
{
    if a.len() > 0 && b.len() > 0 && c.len() > 0 && a[0] == b[0] && b[0] == c[0] {
        lemma_text_lt_transitive(a.drop_first(), b.drop_first(), c.drop_first());
    }
}

pub proof fn lemma_text_lt_total(a: Seq<char>, b: Seq<char>)
    requires
        a != b,
    ensures
        text_lt(a, b) || text_lt(b, a),
    decreases a.len(),
{
    if a.len() == 0 && b.len() == 0 {
        assert(a =~= b);
    }
    if a.len() > 0 && b.len() > 0 && a[0] == b[0] {
        assert(a.drop_first().len() == a.len() - 1);
        assert(b.drop_first().len() == b.len() - 1);
        if a.drop_first() == b.drop_first() {
            assert(a.len() == b.len());
            assert forall|i: int| 0 <= i < a.len() implies a[i] == b[i] by {
                if i > 0 {
                    assert(a[i] == a.drop_first()[i - 1]);
                    assert(b[i] == b.drop_first()[i - 1]);
                }
            }
            assert(a =~= b);
        }
        lemma_text_lt_total(a.drop_first(), b.drop_first());
    }
}

pub proof fn lemma_text_lt_asymmetric(a: Seq<char>, b: Seq<char>)
    requires
        text_lt(a, b),
    ensures
        !text_lt(b, a),
{
    if text_lt(b, a) {
        lemma_text_lt_transitive(a, b, a);
        lemma_text_lt_irreflexive(a);
    }
}

/// Whether `a` sorts strictly before `b`.
pub fn text_less(a: &str, b: &str) -> (r: bool)
    ensures
        r == text_lt(a@, b@),
{
    let x = chars_of(a);
    let y = chars_of(b);
    let mut i: usize = 0;
    proof {
        assert(a@.skip(0) =~= a@);
        assert(b@.skip(0) =~= b@);
    }
    while i < x.len() && i < y.len()
        invariant
            i <= x@.len(),
            i <= y@.len(),
            x@ == a@,
            y@ == b@,
            text_lt(a@, b@) == text_lt(a@.skip(i as int), b@.skip(i as int)),
        decreases x@.len() - i,
    {
        let c = x[i];
        let d = y[i];
        proof {
            assert(a@.skip(i as int)[0] == c);
            assert(b@.skip(i as int)[0] == d);
        }
        if c != d {
            return c < d;
        }
        proof {
            assert(a@.skip(i as int).drop_first() =~= a@.skip(i + 1));
            assert(b@.skip(i as int).drop_first() =~= b@.skip(i + 1));
        }
        i += 1;
    }
    proof {
        assert(a@.skip(i as int).len() == a@.len() - i);
        assert(b@.skip(i as int).len() == b@.len() - i);
    }
    i == x.len() && i < y.len()
}

/// Where `key` belongs in the ascending `items`: how many items sort
/// before it, and whether the next one is `key` itself.
fn locate(items: &Vec<String>, key: &str) -> (r: (usize, bool))
    requires
        ascending(texts(items@)),
    ensures
        r.0 <= items@.len(),
        forall|i: int| 0 <= i < r.0 ==> text_lt(#[trigger] items@[i]@, key@),
        r.1 ==> r.0 < items@.len() && items@[r.0 as int]@ == key@,
        !r.1 ==> forall|i: int| r.0 <= i < items@.len() ==> text_lt(key@, #[trigger] items@[i]@),
{
    let mut i: usize = 0;
    while i < items.len()
        invariant
            i <= items@.len(),
            ascending(texts(items@)),
            forall|k: int| 0 <= k < i ==> text_lt(#[trigger] items@[k]@, key@),
        decreases items@.len() - i,
    {
        if text_less(items[i].as_str(), key) {
            i += 1;
        } else {
            if same_text(items[i].as_str(), key) {
                return (i, true);
            }
            proof {
                lemma_text_lt_total(items@[i as int]@, key@);
                assert forall|j: int| i <= j < items@.len() implies text_lt(
                    key@,
                    #[trigger] items@[j]@,
                ) by {
                    if j > i {
                        assert(texts(items@)[i as int] == items@[i as int]@);
                        assert(texts(items@)[j] == items@[j]@);
                        lemma_text_lt_transitive(key@, items@[i as int]@, items@[j]@);
                    }
                }
            }
            return (i, false);
        }
    }
    (i, false)
}

/// Inserting `x` where [`locate`] put it keeps a sequence ascending.
proof fn lemma_insert_ascending(s: Seq<Seq<char>>, p: int, x: Seq<char>)
    requires
        ascending(s),
        0 <= p <= s.len(),
        forall|i: int| 0 <= i < p ==> text_lt(#[trigger] s[i], x),
        forall|i: int| p <= i < s.len() ==> text_lt(x, #[trigger] s[i]),
    ensures
        ascending(s.insert(p, x)),
{
    let t = s.insert(p, x);
    assert forall|i: int, j: int| 0 <= i < j < t.len() implies text_lt(
        #[trigger] t[i],
        #[trigger] t[j],
    ) by {
        if i < p && j < p {
            assert(text_lt(s[i], s[j]));
        } else if i < p && j == p {
        } else if i < p {
            assert(text_lt(s[i], s[j - 1]));
        } else if i == p {
            assert(t[j] == s[j - 1]);
        } else {
            assert(text_lt(s[i - 1], s[j - 1]));
        }
    }
}

proof fn lemma_texts_insert(v: Seq<String>, p: int, s: String)
    requires
        0 <= p <= v.len(),
    ensures
        texts(v.insert(p, s)) == texts(v).insert(p, s@),
{
    assert(texts(v.insert(p, s)) =~= texts(v).insert(p, s@));
}

/// In an ascending sequence the position of each element is unique.
proof fn lemma_ascending_unique(s: Seq<Seq<char>>, i: int, j: int)
    requires
        ascending(s),
        0 <= i < s.len(),
        0 <= j < s.len(),
        s[i] == s[j],
    ensures
        i == j,
{
    if i < j {
        assert(text_lt(s[i], s[j]));
        lemma_text_lt_irreflexive(s[i]);
    } else if j < i {
        assert(text_lt(s[j], s[i]));
        lemma_text_lt_irreflexive(s[i]);
    }
}

/// A set of names, walked in ascending order.
#[derive(Debug, PartialEq, Eq)]
pub struct NameSet {
    items: Vec<String>,
}

/// A copy of a vector of strings.
pub fn copy_strings(v: &Vec<String>) -> (r: Vec<String>)
    ensures
        r@ == v@,
{
    let mut r: Vec<String> = Vec::new();
    let mut i: usize = 0;
    while i < v.len()
        invariant
            i <= v@.len(),
            r@ == v@.subrange(0, i as int),
        decreases v@.len() - i,
    {
        r.push(v[i].clone());
        i += 1;
    }
    assert(r@ =~= v@);
    r
}

impl Clone for NameSet {
    fn clone(&self) -> (r: Self)
        ensures
            r@ == self@,
    {
        proof {
            use_type_invariant(self);
        }
        NameSet { items: copy_strings(&self.items) }
    }
}

impl View for NameSet {
    type V = Seq<Seq<char>>;

    /// The names, in ascending order.
    closed spec fn view(&self) -> Seq<Seq<char>> {
        texts(self.items@)
    }
}

impl NameSet {
    #[verifier::type_invariant]
    closed spec fn inv(self) -> bool {
        ascending(texts(self.items@))
    }

    pub fn new() -> (r: NameSet)
        ensures
            r@ == Seq::<Seq<char>>::empty(),
    {
        let r = NameSet { items: Vec::new() };
        assert(r@ =~= Seq::<Seq<char>>::empty());
        r
    }

    /// The set holding exactly `names`.
    pub fn from_names(names: Vec<String>) -> (r: NameSet)
        ensures
            r@.to_set() == texts(names@).to_set(),
            ascending(r@),
    {
        let mut r = NameSet::new();
        let mut i: usize = 0;
        while i < names.len()
            invariant
                i <= names@.len(),
                r@.to_set() == texts(names@.subrange(0, i as int)).to_set(),
                ascending(r@),
            decreases names@.len() - i,
        {
            r.insert(names[i].clone());
            proof {
                assert(texts(names@.subrange(0, i + 1)) =~= texts(names@.subrange(0, i as int)).push(
                    names@[i as int]@,
                ));
                texts(names@.subrange(0, i as int)).lemma_push_to_set_commute(names@[i as int]@);
            }
            i += 1;
        }
        assert(names@.subrange(0, i as int) =~= names@);
        r
    }

    /// The names, in ascending order.
    pub fn items(&self) -> (r: &Vec<String>)
        ensures
            texts(r@) == self@,
            ascending(self@),
    {
        proof {
            use_type_invariant(self);
        }
        &self.items
    }

    pub fn len(&self) -> (r: usize)
        ensures
            r == self@.len(),
    {
        self.items.len()
    }

    pub fn is_empty(&self) -> (r: bool)
        ensures
            r == (self@.len() == 0),
    {
        self.items.len() == 0
    }

    pub fn contains(&self, name: &str) -> (r: bool)
        ensures
            r == self@.contains(name@),
    {
        proof {
            use_type_invariant(self);
        }
        let (p, found) = locate(&self.items, name);
        proof {
            if !found {
                assert forall|i: int| 0 <= i < self@.len() implies self@[i] != name@ by {
                    assert(self@[i] == self.items@[i]@);
                    if i < p {
                        lemma_text_lt_irreflexive(name@);
                    } else {
                        lemma_text_lt_irreflexive(name@);
                    }
                }
            } else {
                assert(self@[p as int] == name@);
            }
        }
        found
    }

    /// Adds `name`; whether it was new.
    pub fn insert(&mut self, name: String) -> (added: bool)
        ensures
            added == !old(self)@.contains(name@),
            final(self)@.to_set() == old(self)@.to_set().insert(name@),
            ascending(final(self)@),
    {
        proof {
            use_type_invariant(&*self);
        }
        let (p, found) = locate(&self.items, name.as_str());
        let ghost old_items = self.items@;
        if found {
            proof {
                assert(self@[p as int] == name@);
                assert(self@.to_set() =~= self@.to_set().insert(name@));
            }
            return false;
        }
        proof {
            assert forall|i: int| 0 <= i < self@.len() implies self@[i] != name@ by {
                assert(self@[i] == self.items@[i]@);
                lemma_text_lt_irreflexive(name@);
            }
            assert forall|i: int| 0 <= i < p implies text_lt(
                #[trigger] texts(old_items)[i],
                name@,
            ) by {
                assert(texts(old_items)[i] == old_items[i]@);
            }
            assert forall|i: int| p <= i < old_items.len() implies text_lt(
                name@,
                #[trigger] texts(old_items)[i],
            ) by {
                assert(texts(old_items)[i] == old_items[i]@);
            }
            lemma_insert_ascending(texts(old_items), p as int, name@);
            lemma_texts_insert(old_items, p as int, name);
        }
        let ghost nv = name@;
        let mut items: Vec<String> = Vec::new();
        std::mem::swap(&mut items, &mut self.items);
        items.insert(p, name);
        self.items = items;
        proof {
            assert(self@ == texts(old_items).insert(p as int, nv));
            assert(self@.to_set() =~= texts(old_items).to_set().insert(nv)) by {
                assert forall|x: Seq<char>| #[trigger] self@.contains(x) implies texts(
                    old_items,
                ).to_set().insert(nv).contains(x) by {
                    let k = choose|k: int| 0 <= k < self@.len() && self@[k] == x;
                    if k < p {
                        assert(texts(old_items)[k] == x);
                    } else if k > p {
                        assert(texts(old_items)[k - 1] == x);
                    }
                }
                assert forall|x: Seq<char>| texts(old_items).to_set().insert(nv).contains(
                    x,
                ) implies #[trigger] self@.contains(x) by {
                    if x == nv {
                        assert(self@[p as int] == nv);
                    } else {
                        let k = choose|k: int|
                            0 <= k < texts(old_items).len() && texts(old_items)[k] == x;
                        if k < p {
                            assert(self@[k] == x);
                        } else {
                            assert(self@[k + 1] == x);
                        }
                    }
                }
            }
        }
        true
    }
}


/// The map sending `ks[i]` to `vs[i]`.
pub open spec fn paired_map(ks: Seq<Seq<char>>, vs: Seq<Seq<char>>) -> Map<Seq<char>, Seq<char>> {
    Map::new(|k: Seq<char>| ks.contains(k), |k: Seq<char>| vs[ks.index_of(k)])
}

proof fn lemma_paired_at(ks: Seq<Seq<char>>, vs: Seq<Seq<char>>, i: int)
    requires
        ascending(ks),
        0 <= i < ks.len(),
    ensures
        paired_map(ks, vs).contains_key(ks[i]),
        paired_map(ks, vs)[ks[i]] == vs[i],
{
    assert(ks.contains(ks[i]));
    let j = ks.index_of(ks[i]);
    lemma_ascending_unique(ks, i, j);
}

proof fn lemma_paired_update(ks: Seq<Seq<char>>, vs: Seq<Seq<char>>, p: int, v: Seq<char>)
    requires
        ascending(ks),
        ks.len() == vs.len(),
        0 <= p < ks.len(),
    ensures
        paired_map(ks, vs.update(p, v)) == paired_map(ks, vs).insert(ks[p], v),
{
    let lhs = paired_map(ks, vs.update(p, v));
    let rhs = paired_map(ks, vs).insert(ks[p], v);
    assert forall|q: Seq<char>| #[trigger] lhs.contains_key(q) implies lhs[q] == rhs[q] by {
        let j = choose|j: int| 0 <= j < ks.len() && ks[j] == q;
        lemma_paired_at(ks, vs.update(p, v), j);
        if j != p {
            lemma_paired_at(ks, vs, j);
            if q == ks[p] {
                lemma_ascending_unique(ks, j, p);
            }
        }
    }
    assert(lhs =~= rhs);
}

proof fn lemma_paired_insert(
    ks: Seq<Seq<char>>,
    vs: Seq<Seq<char>>,
    p: int,
    k: Seq<char>,
    v: Seq<char>,
)
    requires
        ascending(ks),
        ascending(ks.insert(p, k)),
        ks.len() == vs.len(),
        0 <= p <= ks.len(),
    ensures
        paired_map(ks.insert(p, k), vs.insert(p, v)) == paired_map(ks, vs).insert(k, v),
{
    let ks2 = ks.insert(p, k);
    let vs2 = vs.insert(p, v);
    let lhs = paired_map(ks2, vs2);
    let rhs = paired_map(ks, vs).insert(k, v);
    assert forall|q: Seq<char>| lhs.contains_key(q) <==> rhs.contains_key(q) by {
        if lhs.contains_key(q) && q != k {
            let j = choose|j: int| 0 <= j < ks2.len() && ks2[j] == q;
            if j < p {
                assert(ks[j] == q);
            } else {
                assert(ks[j - 1] == q);
            }
        }
        if rhs.contains_key(q) {
            if q == k {
                assert(ks2[p] == k);
            } else {
                let j = choose|j: int| 0 <= j < ks.len() && ks[j] == q;
                if j < p {
                    assert(ks2[j] == q);
                } else {
                    assert(ks2[j + 1] == q);
                }
            }
        }
    }
    assert forall|q: Seq<char>| #[trigger] lhs.contains_key(q) implies lhs[q] == rhs[q] by {
        let j = choose|j: int| 0 <= j < ks2.len() && ks2[j] == q;
        lemma_paired_at(ks2, vs2, j);
        if j < p {
            lemma_paired_at(ks, vs, j);
            if q == k {
                lemma_ascending_unique(ks2, j, p);
            }
        } else if j > p {
            lemma_paired_at(ks, vs, j - 1);
            if q == k {
                lemma_ascending_unique(ks2, j, p);
            }
        }
    }
    assert(lhs =~= rhs);
}

/// A map from names to names, walked in ascending order of its keys.
#[derive(Debug, PartialEq, Eq)]
pub struct RenameMap {
    keys: Vec<String>,
    values: Vec<String>,
}

impl View for RenameMap {
    type V = Map<Seq<char>, Seq<char>>;

    closed spec fn view(&self) -> Map<Seq<char>, Seq<char>> {
        paired_map(texts(self.keys@), texts(self.values@))
    }
}

impl RenameMap {
    #[verifier::type_invariant]
    closed spec fn inv(self) -> bool {
        &&& ascending(texts(self.keys@))
        &&& self.keys@.len() == self.values@.len()
    }

    pub fn new() -> (r: RenameMap)
        ensures
            r@ == Map::<Seq<char>, Seq<char>>::empty(),
    {
        let r = RenameMap { keys: Vec::new(), values: Vec::new() };
        assert(r@ =~= Map::<Seq<char>, Seq<char>>::empty());
        r
    }

    /// The map holding `pairs`, a later pair overriding an earlier one
    /// with the same key.
    pub fn from_pairs(pairs: Vec<(String, String)>) -> (r: RenameMap)
        ensures
            r@ == pairs_map(pairs@),
    {
        let mut r = RenameMap::new();
        let mut i: usize = 0;
        while i < pairs.len()
            invariant
                i <= pairs@.len(),
                r@ == pairs_map(pairs@.subrange(0, i as int)),
            decreases pairs@.len() - i,
        {
            let (k, v) = (pairs[i].0.clone(), pairs[i].1.clone());
            r.insert(k, v);
            proof {
                assert(pairs@.subrange(0, i + 1).drop_last() =~= pairs@.subrange(0, i as int));
            }
            i += 1;
        }
        assert(pairs@.subrange(0, i as int) =~= pairs@);
        r
    }

    /// The number of keys.
    pub fn len(&self) -> (r: usize)
        ensures
            r == self@.dom().len(),
    {
        proof {
            use_type_invariant(self);
            let ks = texts(self.keys@);
            assert(ks.no_duplicates()) by {
                assert forall|i: int, j: int|
                    0 <= i < ks.len() && 0 <= j < ks.len() && i != j implies ks[i] != ks[j] by {
                    if ks[i] == ks[j] {
                        lemma_ascending_unique(ks, i, j);
                    }
                }
            }
            ks.unique_seq_to_set();
            assert(self@.dom() =~= ks.to_set());
        }
        self.keys.len()
    }

    pub fn is_empty(&self) -> (r: bool)
        ensures
            r == (self@.dom().len() == 0),
    {
        self.len() == 0
    }

    pub fn contains_key(&self, key: &str) -> (r: bool)
        ensures
            r == self@.contains_key(key@),
    {
        self.get(key).is_some()
    }

    /// The value at `key`, if any.
    pub fn get(&self, key: &str) -> (r: Option<&String>)
        ensures
            match r {
                Some(v) => self@.contains_key(key@) && self@[key@] == v@,
                None => !self@.contains_key(key@),
            },
    {
        proof {
            use_type_invariant(self);
        }
        let (p, found) = locate(&self.keys, key);
        if found {
            proof {
                assert(texts(self.keys@)[p as int] == key@);
                lemma_paired_at(texts(self.keys@), texts(self.values@), p as int);
            }
            Some(&self.values[p])
        } else {
            proof {
                assert forall|i: int| 0 <= i < self.keys@.len() implies texts(self.keys@)[i]
                    != key@ by {
                    assert(texts(self.keys@)[i] == self.keys@[i]@);
                    lemma_text_lt_irreflexive(key@);
                }
            }
            None
        }
    }

    /// Sets `key` to `value`; the value it replaced, if any.
    pub fn insert(&mut self, key: String, value: String) -> (r: Option<String>)
        ensures
            final(self)@ == old(self)@.insert(key@, value@),
            match r {
                Some(v) => old(self)@.contains_key(key@) && old(self)@[key@] == v@,
                None => !old(self)@.contains_key(key@),
            },
    {
        proof {
            use_type_invariant(&*self);
        }
        let ghost ks = texts(self.keys@);
        let ghost vs = texts(self.values@);
        let ghost kv = key@;
        let ghost vv = value@;
        let (p, found) = locate(&self.keys, key.as_str());
        let mut whole = RenameMap::new();
        std::mem::swap(&mut whole, self);
        let RenameMap { mut keys, mut values } = whole;
        if found {
            proof {
                assert(ks[p as int] == kv);
                lemma_paired_at(ks, vs, p as int);
                lemma_paired_update(ks, vs, p as int, vv);
                assert(texts(values@.update(p as int, value)) =~= vs.update(p as int, vv));
            }
            let old_value = values[p].clone();
            values.set(p, value);
            *self = RenameMap { keys, values };
            return Some(old_value);
        }
        proof {
            assert forall|i: int| 0 <= i < ks.len() implies ks[i] != kv by {
                assert(ks[i] == keys@[i]@);
                lemma_text_lt_irreflexive(kv);
            }
            assert forall|i: int| 0 <= i < p implies text_lt(#[trigger] ks[i], kv) by {
                assert(ks[i] == keys@[i]@);
            }
            assert forall|i: int| p <= i < ks.len() implies text_lt(kv, #[trigger] ks[i]) by {
                assert(ks[i] == keys@[i]@);
            }
            lemma_insert_ascending(ks, p as int, kv);
            lemma_texts_insert(keys@, p as int, key);
            lemma_texts_insert(values@, p as int, value);
            lemma_paired_insert(ks, vs, p as int, kv, vv);
        }
        keys.insert(p, key);
        values.insert(p, value);
        *self = RenameMap { keys, values };
        None
    }
}

/// The map that inserting `pairs` in order into an empty map gives.
pub open spec fn pairs_map(pairs: Seq<(String, String)>) -> Map<Seq<char>, Seq<char>>
    decreases pairs.len(),
{
    if pairs.len() == 0 {
        Map::empty()
    } else {
        pairs_map(pairs.drop_last()).insert(pairs.last().0@, pairs.last().1@)
    }
}

} // verus!
