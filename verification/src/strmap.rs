//! A small association list keyed by strings, the in-memory store behind the
//! ledgers, pools and registries of the chain state.

use vstd::prelude::*;

verus! {

/// Maps string keys to values; each key occurs at most once.
pub struct StrMap<T> {
    entries: Vec<(String, T)>,
}

/// Text order: `a` comes before `b` character by character (code points),
/// a proper prefix first. For UTF-8 strings it is the order of their bytes.
pub open spec fn str_lt(a: Seq<char>, b: Seq<char>) -> bool
    decreases a.len(),
{
    if a.len() == 0 {
        b.len() > 0
    } else if b.len() == 0 {
        false
    } else if a[0] == b[0] {
        str_lt(a.drop_first(), b.drop_first())
    } else {
        (a[0] as int) < (b[0] as int)
    }
}

/// `str_lt` is a strict total order.
pub proof fn lemma_str_order(a: Seq<char>, b: Seq<char>, c: Seq<char>)
    ensures
        !str_lt(a, a),
        str_lt(a, b) ==> !str_lt(b, a),
        str_lt(a, b) && str_lt(b, c) ==> str_lt(a, c),
        a != b ==> str_lt(a, b) || str_lt(b, a),
    decreases a.len(),
{
    if a.len() > 0 {
        let a1 = a.drop_first();
        lemma_str_order(a1, a1, a1);
        if b.len() > 0 && a[0] == b[0] {
            let b1 = b.drop_first();
            if c.len() > 0 && b[0] == c[0] {
                lemma_str_order(a1, b1, c.drop_first());
            } else {
                lemma_str_order(a1, b1, b1);
            }
            if a1 == b1 {
                assert forall|k: int| 0 <= k < a.len() implies a[k] == b[k] by {
                    if k > 0 {
                        assert(a[k] == a1[k - 1] && b[k] == b1[k - 1]);
                    }
                }
                assert(a =~= b);
            }
        }
    } else if b.len() == 0 {
        assert(a =~= b);
    }
}

/// The keys of `s` strictly ascend in text order.
pub open spec fn ascending(s: Seq<Seq<char>>) -> bool {
    forall|i: int, j: int| 0 <= i < j < s.len() ==> str_lt(#[trigger] s[i], #[trigger] s[j])
}

/// The keys of `keys` in ascending text order.
pub open spec fn ascending_keys(keys: Set<Seq<char>>) -> Seq<Seq<char>> {
    choose|s: Seq<Seq<char>>| ascending(s) && s.to_set() == keys
}

/// Two ascending sequences of the same keys are equal.
pub proof fn lemma_ascending_unique(s: Seq<Seq<char>>, t: Seq<Seq<char>>)
    requires
        ascending(s),
        ascending(t),
        s.to_set() == t.to_set(),
    ensures
        s == t,
    decreases s.len(),
{
    if s.len() == 0 {
        if t.len() > 0 {
            assert(t.to_set().contains(t[0]));
        }
        assert(s =~= t);
    } else {
        assert(s.to_set().contains(s[0]));
        assert(t.len() > 0);
        assert(t.to_set().contains(t[0]));
        let i = choose|i: int| 0 <= i < s.len() && s[i] == t[0];
        let j = choose|j: int| 0 <= j < t.len() && t[j] == s[0];
        lemma_str_order(s[0], t[0], s[0]);
        if s[0] != t[0] {
            assert(i > 0 && str_lt(s[0], s[i]));
            assert(j > 0 && str_lt(t[0], t[j]));
        }
        let s1 = s.drop_first();
        let t1 = t.drop_first();
        assert forall|x: Seq<char>| s1.to_set().contains(x) <==> t1.to_set().contains(x) by {
            if s1.to_set().contains(x) {
                let a = choose|a: int| 0 <= a < s1.len() && s1[a] == x;
                assert(s.to_set().contains(x));
                assert(str_lt(s[0], s[a + 1]));
                lemma_str_order(x, x, x);
                let b = choose|b: int| 0 <= b < t.len() && t[b] == x;
                if b == 0 {
                    assert(x == s[0]);
                }
                assert(t1[b - 1] == x);
            }
            if t1.to_set().contains(x) {
                let a = choose|a: int| 0 <= a < t1.len() && t1[a] == x;
                assert(t.to_set().contains(x));
                assert(str_lt(t[0], t[a + 1]));
                lemma_str_order(x, x, x);
                let b = choose|b: int| 0 <= b < s.len() && s[b] == x;
                if b == 0 {
                    assert(x == t[0]);
                }
                assert(s1[b - 1] == x);
            }
        }
        assert(s1.to_set() =~= t1.to_set());
        lemma_ascending_unique(s1, t1);
        assert(s[0] == t[0]);
        assert forall|k: int| 0 <= k < s.len() implies s[k] == t[k] by {
            if k > 0 {
                assert(s[k] == s1[k - 1] && t[k] == t1[k - 1]);
            }
        }
        assert(s =~= t);
    }
}

/// A witness is the ascending sequence of its keys.
pub proof fn lemma_ascending_keys(s: Seq<Seq<char>>)
    requires
        ascending(s),
    ensures
        ascending_keys(s.to_set()) == s,
{
    let t = ascending_keys(s.to_set());
    assert(ascending(s) && s.to_set() == s.to_set());
    lemma_ascending_unique(t, s);
}

/// The texts of `v`.
pub open spec fn string_views(v: Seq<String>) -> Seq<Seq<char>> {
    v.map_values(|s: String| s@)
}

/// Whether `a` comes before `b` in text order.
pub fn str_less(a: &str, b: &str) -> (r: bool)
    ensures
        r == str_lt(a@, b@),
{
    let na = a.unicode_len();
    let nb = b.unicode_len();
    let mut i: usize = 0;
    assert(a@.skip(0) =~= a@ && b@.skip(0) =~= b@);
    while i < na && i < nb
        invariant
            na == a@.len(),
            nb == b@.len(),
            i <= na,
            i <= nb,
            str_lt(a@, b@) == str_lt(a@.skip(i as int), b@.skip(i as int)),
        decreases na - i,
    {
        let ca = a.get_char(i);
        let cb = b.get_char(i);
        proof {
            let x = a@.skip(i as int);
            let y = b@.skip(i as int);
            assert(x[0] == ca && y[0] == cb);
            assert(x.drop_first() =~= a@.skip(i + 1));
            assert(y.drop_first() =~= b@.skip(i + 1));
        }
        if ca != cb {
            let r = (ca as u32) < (cb as u32);
            assert(r == ((ca as int) < (cb as int)));
            return r;
        }
        i = i + 1;
    }
    i == na && i < nb
}

impl<T> StrMap<T> {
    /// The entries in the order in which their keys were first inserted.
    pub closed spec fn entries(self) -> Seq<(String, T)> {
        self.entries@
    }

    /// No key occurs twice.
    pub closed spec fn wf(self) -> bool {
        forall|i: int, j: int|
            0 <= i < self.entries@.len() && 0 <= j < self.entries@.len() && i != j
                ==> (#[trigger] self.entries@[i]).0@ != (#[trigger] self.entries@[j]).0@
    }

    pub closed spec fn has_key(self, k: Seq<char>) -> bool {
        exists|i: int| 0 <= i < self.entries@.len() && (#[trigger] self.entries@[i]).0@ == k
    }

    pub closed spec fn index_of(self, k: Seq<char>) -> int {
        choose|i: int| 0 <= i < self.entries@.len() && (#[trigger] self.entries@[i]).0@ == k
    }

    /// The store as a finite map from keys to values.
    pub closed spec fn view(self) -> Map<Seq<char>, T> {
        Map::new(|k: Seq<char>| self.has_key(k), |k: Seq<char>| self.entries@[self.index_of(k)].1)
    }

    /// The keys, in insertion order.
    pub closed spec fn key_seq(self) -> Seq<Seq<char>> {
        self.entries@.map_values(|e: (String, T)| e.0@)
    }

    /// The values, in insertion order.
    pub closed spec fn value_seq(self) -> Seq<T> {
        self.entries@.map_values(|e: (String, T)| e.1)
    }

    proof fn lemma_index(self, i: int)
        requires
            self.wf(),
            0 <= i < self.entries@.len(),
        ensures
            self.has_key(self.entries@[i].0@),
            self.index_of(self.entries@[i].0@) == i,
            self.view().contains_key(self.entries@[i].0@),
            self.view()[self.entries@[i].0@] == self.entries@[i].1,
    {
        let k = self.entries@[i].0@;
        assert(self.has_key(k));
        let j = self.index_of(k);
        assert(self.entries@[j].0@ == k);
    }

    /// Where a present key sits in `key_seq` and `value_seq`.
    pub proof fn lemma_index_of(self, k: Seq<char>)
        requires
            self.wf(),
            self.view().contains_key(k),
        ensures
            0 <= self.index_of(k) < self.key_seq().len(),
            self.key_seq().len() == self.value_seq().len(),
            self.key_seq()[self.index_of(k)] == k,
            self.value_seq()[self.index_of(k)] == self.view()[k],
    {
        let i = self.index_of(k);
        assert(self.entries@[i].0@ == k);
    }

    /// Every value of the store, at its position in `value_seq`.
    pub proof fn lemma_values(self)
        requires
            self.wf(),
        ensures
            self.value_seq().len() == self.key_seq().len(),
            forall|i: int|
                0 <= i < self.key_seq().len() ==> self.view().contains_key(#[trigger] self.key_seq()[i])
                    && self.view()[self.key_seq()[i]] == self.value_seq()[i],
            forall|k: Seq<char>|
                #[trigger] self.view().contains_key(k) ==> exists|i: int|
                    0 <= i < self.key_seq().len() && self.key_seq()[i] == k,
    {
        assert forall|i: int| 0 <= i < self.key_seq().len() implies self.view().contains_key(
            #[trigger] self.key_seq()[i],
        ) && self.view()[self.key_seq()[i]] == self.value_seq()[i] by {
            self.lemma_index(i);
        }
        assert forall|k: Seq<char>| #[trigger] self.view().contains_key(k) implies exists|i: int|
            0 <= i < self.key_seq().len() && self.key_seq()[i] == k by {
            let i = self.index_of(k);
            assert(self.key_seq()[i] == k);
        }
    }

    /// The keys in ascending text order.
    pub fn sorted_keys(&self) -> (v: Vec<String>)
        requires
            self.wf(),
        ensures
            string_views(v@) == ascending_keys(self.view().dom()),
            ascending(string_views(v@)),
            string_views(v@).to_set() == self.view().dom(),
            v@.len() == self.key_seq().len(),
    {
        let n = self.entries.len();
        let ghost ks = self.key_seq();
        let mut out: Vec<String> = Vec::new();
        let mut i: usize = 0;
        while i < n
            invariant
                self.wf(),
                n == self.entries@.len(),
                ks == self.key_seq(),
                i <= n,
                out@.len() == i,
                ascending(string_views(out@)),
                string_views(out@).to_set() == ks.take(i as int).to_set(),
            decreases n - i,
        {
            let k = self.entries[i].0.clone();
            let ghost kv = k@;
            assert(kv == ks[i as int]);
            let ghost ov = string_views(out@);
            // every key placed so far differs from k
            assert forall|t: int| 0 <= t < ov.len() implies ov[t] != kv by {
                assert(ks.take(i as int).to_set().contains(ov[t]));
                let t0 = ks.take(i as int);
                let u = choose|u: int| 0 <= u < t0.len() && t0[u] == ov[t];
                assert(self.entries@[u].0@ == ov[t]);
                assert(self.entries@[i as int].0@ == kv);
            }
            let mut j: usize = 0;
            let mut placed = false;
            while !placed && j < out.len()
                invariant
                    ov == string_views(out@),
                    j <= out@.len(),
                    forall|t: int| 0 <= t < ov.len() ==> ov[t] != kv,
                    forall|t: int| 0 <= t < j ==> str_lt(#[trigger] ov[t], kv),
                    placed ==> j < ov.len() && str_lt(kv, ov[j as int]),
                    kv == k@,
                decreases out@.len() - j, if placed { 0int } else { 1int },
            {
                if str_less(k.as_str(), out[j].as_str()) {
                    placed = true;
                } else {
                    proof {
                        lemma_str_order(kv, ov[j as int], kv);
                    }
                    j = j + 1;
                }
            }
            proof {
                if j < ov.len() {
                    assert(placed);
                    assert forall|t: int| j <= t < ov.len() implies str_lt(kv, #[trigger] ov[t]) by {
                        if t > j {
                            lemma_str_order(kv, ov[j as int], ov[t]);
                        }
                    }
                }
            }
            out.insert(j, k);
            proof {
                let nv = string_views(out@);
                assert(nv =~= ov.insert(j as int, kv));
                assert forall|a: int, b: int| 0 <= a < b < nv.len() implies str_lt(#[trigger] nv[a], #[trigger] nv[b]) by {
                    if a < j && b < j {
                        assert(nv[a] == ov[a] && nv[b] == ov[b]);
                    } else if a < j && b == j {
                        assert(nv[a] == ov[a]);
                    } else if a < j && b > j {
                        assert(nv[a] == ov[a] && nv[b] == ov[b - 1]);
                        lemma_str_order(ov[a], kv, ov[b - 1]);
                        assert(str_lt(kv, ov[b - 1]));
                    } else if a == j {
                        assert(nv[b] == ov[b - 1]);
                    } else {
                        assert(nv[a] == ov[a - 1] && nv[b] == ov[b - 1]);
                    }
                }
                assert(ks.take(i + 1) =~= ks.take(i as int).push(kv));
                assert forall|x: Seq<char>| nv.to_set().contains(x) <==> ks.take(i + 1).to_set().contains(x) by {
                    if nv.to_set().contains(x) {
                        let a = choose|a: int| 0 <= a < nv.len() && nv[a] == x;
                        if a < j {
                            assert(ov[a] == x && ov.to_set().contains(x));
                        } else if a > j {
                            assert(ov[a - 1] == x && ov.to_set().contains(x));
                        }
                        if x != kv {
                            assert(ks.take(i as int).to_set().contains(x));
                            let t0 = ks.take(i as int);
                            let u = choose|u: int| 0 <= u < t0.len() && t0[u] == x;
                            assert(ks.take(i + 1)[u] == x);
                        } else {
                            assert(ks.take(i + 1)[i as int] == x);
                        }
                    }
                    if ks.take(i + 1).to_set().contains(x) {
                        let t1 = ks.take(i + 1);
                        let u = choose|u: int| 0 <= u < t1.len() && t1[u] == x;
                        if u == i {
                            assert(nv[j as int] == x);
                        } else {
                            assert(ks.take(i as int)[u] == t1[u]);
                            assert(ov.to_set().contains(x));
                            let a = choose|a: int| 0 <= a < ov.len() && ov[a] == x;
                            if a < j {
                                assert(nv[a] == x);
                            } else {
                                assert(nv[a + 1] == x);
                            }
                        }
                    }
                }
                assert(nv.to_set() =~= ks.take(i + 1).to_set());
            }
            i = i + 1;
        }
        proof {
            let ov = string_views(out@);
            assert(ks.take(n as int) =~= ks);
            self.lemma_values();
            assert forall|x: Seq<char>| ov.to_set().contains(x) <==> self.view().dom().contains(x) by {
                if ov.to_set().contains(x) {
                    let u = choose|u: int| 0 <= u < ks.len() && ks[u] == x;
                }
                if self.view().dom().contains(x) {
                    assert(self.view().contains_key(x));
                    let u = choose|u: int| 0 <= u < ks.len() && ks[u] == x;
                    assert(ks.to_set().contains(x));
                }
            }
            assert(ov.to_set() =~= self.view().dom());
            lemma_ascending_keys(ov);
        }
        out
    }

    /// An empty store.
    pub fn new() -> (m: Self)
        ensures
            m.wf(),
            m.view() == Map::<Seq<char>, T>::empty(),
            m.key_seq() == Seq::<Seq<char>>::empty(),
            m.value_seq() == Seq::<T>::empty(),
    {
        let m = StrMap { entries: Vec::new() };
        assert(m.view() =~= Map::<Seq<char>, T>::empty());
        assert(m.key_seq() =~= Seq::<Seq<char>>::empty());
        assert(m.value_seq() =~= Seq::<T>::empty());
        m
    }

    /// Number of keys.
    pub fn len(&self) -> (n: usize)
        requires
            self.wf(),
        ensures
            n == self.key_seq().len(),
            n == self.value_seq().len(),
    {
        self.entries.len()
    }

    /// The key stored at position `i`.
    pub fn key_at(&self, i: usize) -> (k: &String)
        requires
            i < self.key_seq().len(),
        ensures
            k@ == self.key_seq()[i as int],
    {
        &self.entries[i].0
    }

    /// The value stored at position `i`.
    pub fn value_at(&self, i: usize) -> (v: &T)
        requires
            i < self.value_seq().len(),
        ensures
            *v == self.value_seq()[i as int],
    {
        &self.entries[i].1
    }

    /// Position of `key`, if present.
    pub fn find(&self, key: &str) -> (r: Option<usize>)
        requires
            self.wf(),
        ensures
            r is None <==> !self.view().contains_key(key@),
            r matches Some(i) ==> i < self.key_seq().len() && self.key_seq()[i as int] == key@
                && self.view()[key@] == self.value_seq()[i as int],
    {
        let k = key.to_owned();
        let n = self.entries.len();
        let mut i: usize = 0;
        while i < n
            invariant
                self.wf(),
                n == self.entries@.len(),
                k@ == key@,
                i <= n,
                forall|j: int| 0 <= j < i ==> (#[trigger] self.entries@[j]).0@ != key@,
            decreases n - i,
        {
            if self.entries[i].0 == k {
                proof {
                    self.lemma_index(i as int);
                }
                return Some(i);
            }
            i = i + 1;
        }
        proof {
            if self.view().contains_key(key@) {
                let j = self.index_of(key@);
                assert(self.entries@[j].0@ == key@);
            }
        }
        None
    }

    /// The value under `key`, if present.
    pub fn get(&self, key: &str) -> (r: Option<&T>)
        requires
            self.wf(),
        ensures
            r is Some <==> self.view().contains_key(key@),
            r matches Some(v) ==> *v == self.view()[key@],
    {
        match self.find(key) {
            Some(i) => Some(&self.entries[i].1),
            None => None,
        }
    }

    /// Whether `key` is present.
    pub fn contains_key(&self, key: &str) -> (b: bool)
        requires
            self.wf(),
        ensures
            b == self.view().contains_key(key@),
    {
        self.find(key).is_some()
    }

    /// Stores `v` under `key`, replacing a previous value; a new key goes last.
    pub fn insert(&mut self, key: String, v: T)
        requires
            old(self).wf(),
        ensures
            final(self).wf(),
            final(self).view() == old(self).view().insert(key@, v),
            old(self).view().contains_key(key@) ==> final(self).view().dom() == old(self).view().dom(),
            old(self).view().contains_key(key@) ==> final(self).key_seq() == old(self).key_seq()
                && final(self).value_seq() == old(self).value_seq().update(old(self).index_of(key@), v),
            !old(self).view().contains_key(key@) ==> final(self).key_seq() == old(self).key_seq().push(key@)
                && final(self).value_seq() == old(self).value_seq().push(v),
    {
        let ghost k = key@;
        let ghost old_self = *self;
        match self.find(key.as_str()) {
            Some(i) => {
                self.entries.set(i, (key, v));
                proof {
                    assert(self.wf());
                    assert forall|kk: Seq<char>| #[trigger] self.has_key(kk) == old_self.has_key(kk) by {
                        if old_self.has_key(kk) {
                            let j = old_self.index_of(kk);
                            assert(self.entries@[j].0@ == kk);
                        }
                        if self.has_key(kk) {
                            let j = self.index_of(kk);
                            assert(old_self.entries@[j].0@ == kk);
                        }
                    }
                    assert forall|kk: Seq<char>| #[trigger] self.has_key(kk) && kk != k implies
                        self.view()[kk] == old_self.view()[kk] by {
                        let j = self.index_of(kk);
                        old_self.lemma_index(j);
                    }
                    self.lemma_index(i as int);
                    old_self.lemma_index(i as int);
                    assert(self.view() =~= old_self.view().insert(k, v));
                    assert(self.view().dom() =~= old_self.view().dom());
                    assert(self.key_seq() =~= old_self.key_seq());
                    assert(self.value_seq() =~= old_self.value_seq().update(old_self.index_of(k), v));
                }
            },
            None => {
                self.entries.push((key, v));
                proof {
                    let n = old_self.entries@.len() as int;
                    assert(self.wf());
                    assert forall|kk: Seq<char>| #[trigger] self.has_key(kk) == (old_self.has_key(kk) || kk == k) by {
                        if old_self.has_key(kk) {
                            let j = old_self.index_of(kk);
                            assert(self.entries@[j].0@ == kk);
                        }
                        if kk == k {
                            assert(self.entries@[n].0@ == kk);
                        }
                        if self.has_key(kk) && kk != k {
                            let j = self.index_of(kk);
                            assert(old_self.entries@[j].0@ == kk);
                        }
                    }
                    assert forall|kk: Seq<char>| #[trigger] self.has_key(kk) && kk != k implies
                        self.view()[kk] == old_self.view()[kk] by {
                        let j = self.index_of(kk);
                        old_self.lemma_index(j);
                    }
                    self.lemma_index(n);
                    assert(self.view() =~= old_self.view().insert(k, v));
                    assert(self.key_seq() =~= old_self.key_seq().push(k));
                    assert(self.value_seq() =~= old_self.value_seq().push(v));
                }
            },
        }
    }

    /// Removes `key` and hands back its value.
    pub fn remove(&mut self, key: &str) -> (r: Option<T>)
        requires
            old(self).wf(),
        ensures
            final(self).wf(),
            final(self).view() == old(self).view().remove(key@),
            r is Some <==> old(self).view().contains_key(key@),
            r matches Some(v) ==> v == old(self).view()[key@],
    {
        let ghost old_self = *self;
        match self.find(key) {
            Some(i) => {
                let e = self.entries.remove(i);
                proof {
                    let k = key@;
                    assert(self.wf()) by {
                        assert forall|a: int, b: int|
                            0 <= a < self.entries@.len() && 0 <= b < self.entries@.len() && a != b implies
                            (#[trigger] self.entries@[a]).0@ != (#[trigger] self.entries@[b]).0@ by {
                            let a2 = if a < i { a } else { a + 1 };
                            let b2 = if b < i { b } else { b + 1 };
                            assert(self.entries@[a] == old_self.entries@[a2]);
                            assert(self.entries@[b] == old_self.entries@[b2]);
                        }
                    }
                    assert forall|kk: Seq<char>| #[trigger] self.has_key(kk) == (old_self.has_key(kk) && kk != k) by {
                        if old_self.has_key(kk) && kk != k {
                            let j = old_self.index_of(kk);
                            assert(j != i);
                            let j2 = if j < i { j } else { j - 1 };
                            assert(self.entries@[j2].0@ == kk);
                        }
                        if self.has_key(kk) {
                            let j = self.index_of(kk);
                            let j2 = if j < i { j } else { j + 1 };
                            assert(old_self.entries@[j2].0@ == kk);
                            old_self.lemma_index(j2);
                        }
                    }
                    assert forall|kk: Seq<char>| #[trigger] self.has_key(kk) implies
                        self.view()[kk] == old_self.view()[kk] by {
                        let j = self.index_of(kk);
                        let j2 = if j < i { j } else { j + 1 };
                        assert(old_self.entries@[j2] == self.entries@[j]);
                        old_self.lemma_index(j2);
                    }
                    assert(self.view() =~= old_self.view().remove(k));
                }
                Some(e.1)
            },
            None => {
                assert(self.view() =~= old_self.view().remove(key@));
                None
            },
        }
    }
}

} // verus!
