use vstd::prelude::*;
use vstd::utf8::encode_utf8;

use crate::error::FastarError;

verus! {

broadcast use vstd::utf8::encode_utf8_decode_utf8;

/// Byte-wise lexicographic order.
pub open spec fn lex_lt(a: Seq<u8>, b: Seq<u8>) -> bool
    decreases a.len(),
{
    if a.len() == 0 {
        b.len() > 0
    } else if b.len() == 0 {
        false
    } else if a[0] != b[0] {
        a[0] < b[0]
    } else {
        lex_lt(a.drop_first(), b.drop_first())
    }
}

/// The order of names: that of their UTF-8 bytes.
pub open spec fn name_lt(a: Seq<char>, b: Seq<char>) -> bool {
    lex_lt(encode_utf8(a), encode_utf8(b))
}

pub proof fn lemma_lex_irreflexive(a: Seq<u8>)
    ensures
        !lex_lt(a, a),
    decreases a.len(),
{
    if a.len() > 0 {
        lemma_lex_irreflexive(a.drop_first());
    }
}

pub proof fn lemma_lex_transitive(a: Seq<u8>, b: Seq<u8>, c: Seq<u8>)
    requires
        lex_lt(a, b),
        lex_lt(b, c),
    ensures
        lex_lt(a, c),
    decreases a.len(),
{
    if a.len() > 0 && b.len() > 0 && c.len() > 0 && a[0] == b[0] && b[0] == c[0] {
        lemma_lex_transitive(a.drop_first(), b.drop_first(), c.drop_first());
    }
}

pub proof fn lemma_lex_total(a: Seq<u8>, b: Seq<u8>)
    ensures
        a == b || lex_lt(a, b) || lex_lt(b, a),
    decreases a.len(),
{
    if a.len() > 0 && b.len() > 0 && a[0] == b[0] {
        lemma_lex_total(a.drop_first(), b.drop_first());
        if a.drop_first() == b.drop_first() {
            assert(a =~= seq![a[0]] + a.drop_first());
            assert(b =~= seq![b[0]] + b.drop_first());
        }
    } else if a.len() == 0 && b.len() == 0 {
        assert(a =~= b);
    }
}

pub proof fn lemma_name_total(a: Seq<char>, b: Seq<char>)
    ensures
        a == b || name_lt(a, b) || name_lt(b, a),
        !name_lt(a, a),
{
    lemma_lex_total(encode_utf8(a), encode_utf8(b));
    lemma_lex_irreflexive(encode_utf8(a));
    vstd::utf8::encode_utf8_decode_utf8(a);
    vstd::utf8::encode_utf8_decode_utf8(b);
}

/// Compares two names by their UTF-8 bytes.
pub fn name_less(a: &str, b: &str) -> (r: bool)
    ensures
        r == name_lt(a@, b@),
{
    let x = a.as_bytes();
    let y = b.as_bytes();
    let mut i: usize = 0;
    assert(x@.subrange(0, x@.len() as int) =~= x@);
    assert(y@.subrange(0, y@.len() as int) =~= y@);
    while i < x.len() && i < y.len() && x[i] == y[i]
        invariant
            i <= x@.len(),
            i <= y@.len(),
            x@ == encode_utf8(a@),
            y@ == encode_utf8(b@),
            lex_lt(x@, y@) == lex_lt(x@.subrange(i as int, x@.len() as int), y@.subrange(
                i as int,
                y@.len() as int,
            )),
        decreases x@.len() - i,
    {
        let ghost xs = x@.subrange(i as int, x@.len() as int);
        let ghost ys = y@.subrange(i as int, y@.len() as int);
        assert(xs.drop_first() =~= x@.subrange(i + 1, x@.len() as int));
        assert(ys.drop_first() =~= y@.subrange(i + 1, y@.len() as int));
        i = i + 1;
    }
    let ghost xs = x@.subrange(i as int, x@.len() as int);
    let ghost ys = y@.subrange(i as int, y@.len() as int);
    if i == x.len() {
        i < y.len()
    } else if i == y.len() {
        false
    } else {
        assert(xs[0] == x@[i as int] && ys[0] == y@[i as int]);
        x[i] < y[i]
    }
}

/// Names in strictly increasing order (so also without repeats).
pub open spec fn strictly_sorted<E>(s: Seq<(Seq<char>, E)>) -> bool {
    forall|i: int, j: int| 0 <= i < j < s.len() ==> name_lt(s[i].0, s[j].0)
}

pub open spec fn has_key<E>(s: Seq<(Seq<char>, E)>, k: Seq<char>) -> bool {
    exists|i: int| 0 <= i < s.len() && s[i].0 == k
}

/// The mapping that a list of (name, entry) pairs with distinct names holds.
pub open spec fn as_map<E>(s: Seq<(Seq<char>, E)>) -> Map<Seq<char>, E> {
    Map::new(|k: Seq<char>| has_key(s, k), |k: Seq<char>| s[choose|i: int| 0 <= i < s.len() && s[i].0 == k].1)
}

/// An ordered map from source names to entries.
#[derive(Debug)]
pub struct NameMap<E> {
    entries: Vec<(String, E)>,
}

pub open spec fn pair_views<E>(s: Seq<(String, E)>) -> Seq<(Seq<char>, E)> {
    s.map_values(|p: (String, E)| (p.0@, p.1))
}

impl<E> View for NameMap<E> {
    type V = Seq<(Seq<char>, E)>;

    closed spec fn view(&self) -> Seq<(Seq<char>, E)> {
        pair_views(self.entries@)
    }
}

proof fn lemma_sorted_unique<E>(s: Seq<(Seq<char>, E)>, i: int, j: int)
    requires
        strictly_sorted(s),
        0 <= i < s.len(),
        0 <= j < s.len(),
        s[i].0 == s[j].0,
    ensures
        i == j,
{
    if i < j {
        lemma_name_total(s[i].0, s[j].0);
    } else if j < i {
        lemma_name_total(s[i].0, s[j].0);
    }
}

impl<E> NameMap<E> {
    pub open spec fn wf(&self) -> bool {
        strictly_sorted(self@)
    }

    pub fn new() -> (r: NameMap<E>)
        ensures
            r@.len() == 0,
            r.wf(),
    {
        NameMap { entries: Vec::new() }
    }

    pub fn len(&self) -> (r: usize)
        ensures
            r == self@.len(),
    {
        self.entries.len()
    }

    /// Sets the entry of `key`, replacing the one it had.
    pub fn insert(&mut self, key: String, value: E)
        requires
            old(self).wf(),
        ensures
            final(self).wf(),
            as_map(final(self)@) == as_map(old(self)@).insert(key@, value),
    {
        let ghost s = self@;
        let mut k: usize = 0;
        while k < self.entries.len() && name_less(self.entries[k].0.as_str(), key.as_str())
            invariant
                k <= self@.len(),
                s == self@,
                strictly_sorted(s),
                forall|i: int| 0 <= i < k ==> name_lt(s[i].0, key@),
            decreases self@.len() - k,
        {
            k = k + 1;
        }
        proof {
            if k < s.len() {
                lemma_name_total(s[k as int].0, key@);
            }
        }
        if k < self.entries.len() && self.entries[k].0 == key {
            self.entries.set(k, (key, value));
            let ghost t = self@;
            assert(t =~= s.update(k as int, (key@, value)));
            assert(strictly_sorted(t));
            assert(as_map(t) =~= as_map(s).insert(key@, value)) by {
                assert forall|x: Seq<char>| #[trigger] has_key(t, x) == (has_key(s, x) || x == key@) by {
                    if has_key(s, x) {
                        let i = choose|i: int| 0 <= i < s.len() && s[i].0 == x;
                        assert(t[i].0 == x);
                    }
                    if has_key(t, x) {
                        let i = choose|i: int| 0 <= i < t.len() && t[i].0 == x;
                        assert(s[i].0 == x);
                    }
                    if x == key@ {
                        assert(t[k as int].0 == x);
                    }
                }
                assert forall|x: Seq<char>| has_key(t, x) implies #[trigger] as_map(t)[x] == as_map(s).insert(key@, value)[x] by {
                    let i = choose|i: int| 0 <= i < t.len() && t[i].0 == x;
                    if x == key@ {
                        lemma_sorted_unique(t, i, k as int);
                    } else {
                        let j = choose|j: int| 0 <= j < s.len() && s[j].0 == x;
                        lemma_sorted_unique(s, i, j);
                    }
                }
            }
        } else {
            proof {
                if k < s.len() {
                    lemma_name_total(s[k as int].0, key@);
                }
            }
            self.entries.insert(k, (key, value));
            let ghost t = self@;
            assert(t =~= s.insert(k as int, (key@, value)));
            assert forall|m: int| k <= m < s.len() implies name_lt(key@, #[trigger] s[m].0) by {
                assert(name_lt(key@, s[k as int].0));
                if m > k {
                    assert(strictly_sorted(s));
                    assert(name_lt(s[k as int].0, s[m].0));
                    lemma_lex_transitive(
                        encode_utf8(key@),
                        encode_utf8(s[k as int].0),
                        encode_utf8(s[m].0),
                    );
                }
            }
            assert forall|i: int, j: int| 0 <= i < j < t.len() implies name_lt(t[i].0, t[j].0) by {
                if j < k {
                    assert(t[i] == s[i] && t[j] == s[j]);
                } else if j == k {
                    assert(t[i] == s[i]);
                } else if i < k {
                    assert(t[i] == s[i] && t[j] == s[j - 1]);
                    lemma_lex_transitive(
                        encode_utf8(t[i].0),
                        encode_utf8(key@),
                        encode_utf8(t[j].0),
                    );
                } else if i == k {
                    assert(t[j] == s[j - 1]);
                } else {
                    assert(t[i] == s[i - 1] && t[j] == s[j - 1]);
                }
            }
            assert(strictly_sorted(t));
            assert(as_map(t) =~= as_map(s).insert(key@, value)) by {
                assert forall|x: Seq<char>| #[trigger] has_key(t, x) == (has_key(s, x) || x == key@) by {
                    if has_key(s, x) {
                        let i = choose|i: int| 0 <= i < s.len() && s[i].0 == x;
                        if i < k {
                            assert(t[i].0 == x);
                        } else {
                            assert(t[i + 1].0 == x);
                        }
                    }
                    if has_key(t, x) {
                        let i = choose|i: int| 0 <= i < t.len() && t[i].0 == x;
                        if i < k {
                            assert(s[i].0 == x);
                        } else if i > k {
                            assert(s[i - 1].0 == x);
                        }
                    }
                    if x == key@ {
                        assert(t[k as int].0 == x);
                    }
                }
                assert forall|x: Seq<char>| has_key(t, x) implies #[trigger] as_map(t)[x] == as_map(s).insert(key@, value)[x] by {
                    let i = choose|i: int| 0 <= i < t.len() && t[i].0 == x;
                    if x == key@ {
                        lemma_sorted_unique(t, i, k as int);
                    } else {
                        let j = choose|j: int| 0 <= j < s.len() && s[j].0 == x;
                        let j2 = if j < k { j } else { j + 1 };
                        assert(t[j2].0 == x);
                        lemma_sorted_unique(t, i, j2);
                    }
                }
            }
        }
    }

    /// The name at position `i`.
    pub fn key_at(&self, i: usize) -> (r: &String)
        requires
            i < self@.len(),
        ensures
            r@ == self@[i as int].0,
    {
        &self.entries[i].0
    }

    /// The entry at position `i`.
    pub fn value_at(&self, i: usize) -> (r: &E)
        requires
            i < self@.len(),
        ensures
            *r == self@[i as int].1,
    {
        &self.entries[i].1
    }

    /// A map holding `entries` as they stand.
    pub fn from_entries(entries: Vec<(String, E)>) -> (r: NameMap<E>)
        ensures
            r@ == pair_views(entries@),
    {
        NameMap { entries }
    }

    /// The names, in order.
    pub fn names(&self) -> (r: Vec<String>)
        ensures
            r@.len() == self@.len(),
            forall|i: int| 0 <= i < r@.len() ==> r@[i]@ == self@[i].0,
    {
        let mut r: Vec<String> = Vec::new();
        let mut i: usize = 0;
        while i < self.entries.len()
            invariant
                i <= self@.len(),
                self@ == pair_views(self.entries@),
                r@.len() == i,
                forall|j: int| 0 <= j < i ==> r@[j]@ == self@[j].0,
            decreases self@.len() - i,
        {
            r.push(self.entries[i].0.clone());
            i = i + 1;
        }
        r
    }

    /// The entry of `name`.
    pub fn get(&self, name: &str) -> (r: Option<&E>)
        ensures
            (match r {
                Some(e) => has_key(self@, name@) && self@[first_key(self@, name@)].1 == *e,
                None => !has_key(self@, name@),
            }),
    {
        let ghost s = self@;
        let mut i: usize = 0;
        while i < self.entries.len()
            invariant
                i <= s.len(),
                s == pair_views(self.entries@),
                forall|j: int| 0 <= j < i ==> s[j].0 != name@,
            decreases s.len() - i,
        {
            if crate::bytes::bytes_equal(self.entries[i].0.as_str().as_bytes(), name.as_bytes()) {
                proof {
                    vstd::utf8::encode_utf8_decode_utf8(s[i as int].0);
                    vstd::utf8::encode_utf8_decode_utf8(name@);
                    lemma_first_key(s, name@, i as int);
                }
                return Some(&self.entries[i].1);
            }
            proof {
                if s[i as int].0 == name@ {
                    assert(encode_utf8(s[i as int].0) == encode_utf8(name@));
                }
            }
            i = i + 1;
        }
        None
    }
}

/// A source name whose entry could not be built, and why.
#[derive(Debug)]
pub struct BuildFailure {
    pub name: String,
    pub error: FastarError,
}

/// Index of the first failed result, or -1.
pub open spec fn first_failure<E>(results: Seq<Result<E, FastarError>>) -> int
    decreases results.len(),
{
    if results.len() == 0 {
        -1
    } else if results[0] is Err {
        0
    } else {
        let j = first_failure(results.drop_first());
        if j < 0 {
            -1
        } else {
            j + 1
        }
    }
}

proof fn lemma_first_failure<E>(results: Seq<Result<E, FastarError>>, i: int)
    requires
        0 <= i <= results.len(),
        forall|j: int| 0 <= j < i ==> results[j] is Ok,
    ensures
        i < results.len() && results[i] is Err ==> first_failure(results) == i,
        i == results.len() ==> first_failure(results) == -1,
    decreases i,
{
    if i > 0 {
        lemma_first_failure(results.drop_first(), i - 1);
    }
}

/// The mapping made of the successful results, each under its name; of two
/// results under one name the later one stays.
pub open spec fn collected<E>(names: Seq<Seq<char>>, results: Seq<Result<E, FastarError>>) -> Map<
    Seq<char>,
    E,
>
    decreases results.len(),
{
    if results.len() == 0 || names.len() == 0 {
        Map::empty()
    } else {
        let m = collected(names.drop_last(), results.drop_last());
        match results.last() {
            Ok(e) => m.insert(names.last(), e),
            Err(_) => m,
        }
    }
}

pub open spec fn name_views(names: Seq<String>) -> Seq<Seq<char>> {
    names.map_values(|s: String| s@)
}

/// Gathers the results of building each name's entry (`results[i]` for
/// `names[i]`) into an ordered map. In strict mode the first failure, with
/// its name, fails the whole build; otherwise failed names are left out.
pub fn assemble<E>(names: &Vec<String>, results: Vec<Result<E, FastarError>>, strict: bool) -> (r:
    Result<NameMap<E>, BuildFailure>)
    requires
        names@.len() == results@.len(),
    ensures
        strict && first_failure(results@) >= 0 ==> (r matches Err(f) && f.name@ == names@[first_failure(
            results@,
        )]@ && results@[first_failure(results@)] == Err::<E, FastarError>(f.error)),
        !(strict && first_failure(results@) >= 0) ==> (r matches Ok(m) && m.wf() && as_map(m@)
            == collected(name_views(names@), results@)),
{
    let ghost orig = results@;
    let ghost nv = name_views(names@);
    let n = results.len();
    let mut pending = results;
    let mut rev: Vec<Result<E, FastarError>> = Vec::new();
    while pending.len() > 0
        invariant
            orig == results@,
            pending@.len() + rev@.len() == n,
            n == orig.len(),
            pending@ == orig.subrange(0, pending@.len() as int),
            forall|j: int| 0 <= j < rev@.len() ==> rev@[j] == orig[n - 1 - j],
        decreases pending@.len(),
    {
        let x = pending.pop().unwrap();
        rev.push(x);
    }
    let mut map: NameMap<E> = NameMap::new();
    let mut i: usize = 0;
    assert(collected(nv.subrange(0, 0), orig.subrange(0, 0)) =~= Map::<Seq<char>, E>::empty());
    assert(as_map(map@) =~= Map::<Seq<char>, E>::empty());
    while i < n
        invariant
            orig == results@,
            n == orig.len(),
            n == names@.len(),
            nv == name_views(names@),
            i <= n,
            rev@.len() == n - i,
            forall|j: int| 0 <= j < rev@.len() ==> rev@[j] == orig[n - 1 - j],
            map.wf(),
            as_map(map@) == collected(nv.subrange(0, i as int), orig.subrange(0, i as int)),
            strict ==> forall|j: int| 0 <= j < i ==> orig[j] is Ok,
        decreases n - i,
    {
        let x = rev.pop().unwrap();
        assert(x == orig[i as int]);
        let ghost ns = nv.subrange(0, i + 1);
        let ghost rs = orig.subrange(0, i + 1);
        assert(ns.drop_last() =~= nv.subrange(0, i as int));
        assert(rs.drop_last() =~= orig.subrange(0, i as int));
        match x {
            Ok(e) => {
                map.insert(names[i].clone(), e);
            },
            Err(error) => {
                if strict {
                    proof {
                        lemma_first_failure(orig, i as int);
                    }
                    return Err(BuildFailure { name: names[i].clone(), error });
                }
            },
        }
        i = i + 1;
    }
    proof {
        if strict {
            lemma_first_failure(orig, n as int);
        }
        assert(nv.subrange(0, n as int) =~= nv);
        assert(orig.subrange(0, n as int) =~= orig);
    }
    Ok(map)
}

/// Index of the first entry named `k`, or -1.
pub open spec fn first_key<E>(s: Seq<(Seq<char>, E)>, k: Seq<char>) -> int
    decreases s.len(),
{
    if s.len() == 0 {
        -1
    } else if s[0].0 == k {
        0
    } else {
        let j = first_key(s.drop_first(), k);
        if j < 0 {
            -1
        } else {
            j + 1
        }
    }
}

/// Lists with the same names in the same order find a name at the same
/// place.
pub proof fn lemma_same_keys<E, F>(s: Seq<(Seq<char>, E)>, t: Seq<(Seq<char>, F)>, k: Seq<char>)
    requires
        s.len() == t.len(),
        forall|i: int| 0 <= i < s.len() ==> s[i].0 == t[i].0,
    ensures
        has_key(s, k) == has_key(t, k),
        first_key(s, k) == first_key(t, k),
        has_key(s, k) ==> 0 <= first_key(s, k) < s.len(),
    decreases s.len(),
{
    if has_key(s, k) {
        let i = choose|i: int| 0 <= i < s.len() && s[i].0 == k;
        assert(t[i].0 == k);
    }
    if has_key(t, k) {
        let i = choose|i: int| 0 <= i < t.len() && t[i].0 == k;
        assert(s[i].0 == k);
    }
    if s.len() > 0 {
        lemma_same_keys(s.drop_first(), t.drop_first(), k);
        if s[0].0 != k && has_key(s, k) {
            let i = choose|i: int| 0 <= i < s.len() && s[i].0 == k;
            assert(s.drop_first()[i - 1].0 == k);
        }
    }
}

/// Lists with the same names in the same order are sorted alike.
pub proof fn lemma_sorted_same_keys<E, F>(s: Seq<(Seq<char>, E)>, t: Seq<(Seq<char>, F)>)
    requires
        s.len() == t.len(),
        forall|i: int| 0 <= i < s.len() ==> s[i].0 == t[i].0,
    ensures
        strictly_sorted(s) == strictly_sorted(t),
{
    if strictly_sorted(s) {
        assert forall|i: int, j: int| 0 <= i < j < t.len() implies name_lt(t[i].0, t[j].0) by {
            assert(name_lt(s[i].0, s[j].0));
        }
    }
    if strictly_sorted(t) {
        assert forall|i: int, j: int| 0 <= i < j < s.len() implies name_lt(s[i].0, s[j].0) by {
            assert(name_lt(t[i].0, t[j].0));
        }
    }
}

/// Checks that the names of a list of pairs strictly increase.
pub fn is_strictly_sorted<E>(entries: &Vec<(String, E)>) -> (r: bool)
    ensures
        r == strictly_sorted(pair_views(entries@)),
{
    let ghost s = pair_views(entries@);
    let n = entries.len();
    if n == 0 {
        return true;
    }
    let mut k: usize = 1;
    while k < n
        invariant
            1 <= k <= n,
            n == entries@.len(),
            s == pair_views(entries@),
            forall|i: int, j: int| 0 <= i < j < k ==> name_lt(s[i].0, s[j].0),
        decreases n - k,
    {
        if !name_less(entries[k - 1].0.as_str(), entries[k].0.as_str()) {
            assert(!name_lt(s[k - 1].0, s[k as int].0));
            return false;
        }
        assert forall|i: int, j: int| 0 <= i < j < k + 1 implies name_lt(s[i].0, s[j].0) by {
            if j == k && i < k - 1 {
                assert(name_lt(s[i].0, s[k - 1].0));
                lemma_lex_transitive(
                    encode_utf8(s[i].0),
                    encode_utf8(s[k - 1].0),
                    encode_utf8(s[j].0),
                );
            }
        }
        k = k + 1;
    }
    true
}

proof fn lemma_first_key<E>(s: Seq<(Seq<char>, E)>, k: Seq<char>, i: int)
    requires
        0 <= i < s.len(),
        s[i].0 == k,
        forall|j: int| 0 <= j < i ==> s[j].0 != k,
    ensures
        first_key(s, k) == i,
    decreases i,
{
    if i > 0 {
        lemma_first_key(s.drop_first(), k, i - 1);
    }
}

} // verus!
