//! A map from byte strings to byte strings whose entries are kept in
//! increasing key order, so walking it visits keys in order.
use vstd::prelude::*;
use crate::text::bytes_eq;

verus! {

/// Lexicographic order on byte strings (the order of `Vec<u8>` and `str`).
pub open spec fn lex_lt(a: Seq<u8>, b: Seq<u8>) -> bool
    decreases a.len(),
{
    if a.len() == 0 {
        b.len() > 0
    } else if b.len() == 0 {
        false
    } else if a[0] != b[0] {
        a[0] < b[0]
    } else {
        lex_lt(a.drop_first(), b.drop_first())
    }
}

pub proof fn lemma_lex_irreflexive(a: Seq<u8>)
    ensures
        !lex_lt(a, a),
    decreases a.len(),
{
    if a.len() > 0 {
        lemma_lex_irreflexive(a.drop_first());
    }
}

pub proof fn lemma_lex_transitive(a: Seq<u8>, b: Seq<u8>, c: Seq<u8>)
    requires
        lex_lt(a, b),
        lex_lt(b, c),
    ensures
        lex_lt(a, c),
    decreases a.len(),
{
    if a.len() > 0 && b.len() > 0 && c.len() > 0 && a[0] == b[0] && b[0] == c[0] {
        lemma_lex_transitive(a.drop_first(), b.drop_first(), c.drop_first());
    }
}

pub proof fn lemma_lex_total(a: Seq<u8>, b: Seq<u8>)
    requires
        a != b,
        !lex_lt(a, b),
    ensures
        lex_lt(b, a),
    decreases a.len(),
{
    if a.len() == 0 {
        assert(a =~= b);
    } else if b.len() == 0 {
    } else if a[0] != b[0] {
    } else {
        if a.drop_first() == b.drop_first() {
            assert(a =~= seq![a[0]] + a.drop_first());
            assert(b =~= seq![b[0]] + b.drop_first());
        }
        lemma_lex_total(a.drop_first(), b.drop_first());
    }
}

/// Whether `a` sorts strictly before `b`.
pub fn bytes_lt(a: &[u8], b: &[u8]) -> (r: bool)
    ensures
        r == lex_lt(a@, b@),
{
    let mut i: usize = 0;
    assert(a@.skip(0) =~= a@);
    assert(b@.skip(0) =~= b@);
    while i < a.len() && i < b.len()
        invariant
            i <= a@.len(),
            i <= b@.len(),
            lex_lt(a@, b@) == lex_lt(a@.skip(i as int), b@.skip(i as int)),
        decreases a@.len() - i,
    {
        if a[i] != b[i] {
            return a[i] < b[i];
        }
        assert(a@.skip(i as int).drop_first() =~= a@.skip(i + 1));
        assert(b@.skip(i as int).drop_first() =~= b@.skip(i + 1));
        i = i + 1;
    }
    i == a.len() && i < b.len()
}

/// Entries with byte-string keys in strictly increasing order.
pub struct ByteMap {
    entries: Vec<(Vec<u8>, Vec<u8>)>,
}

pub open spec fn pairs_view(es: Seq<(Vec<u8>, Vec<u8>)>) -> Seq<(Seq<u8>, Seq<u8>)> {
    es.map_values(|e: (Vec<u8>, Vec<u8>)| (e.0@, e.1@))
}

pub open spec fn sorted_keys(es: Seq<(Seq<u8>, Seq<u8>)>) -> bool {
    forall|i: int, j: int| 0 <= i < j < es.len() ==> lex_lt(#[trigger] es[i].0, #[trigger] es[j].0)
}

pub open spec fn has_key(es: Seq<(Seq<u8>, Seq<u8>)>, k: Seq<u8>) -> bool {
    exists|i: int| 0 <= i < es.len() && es[i].0 == k
}

/// The map that a key-sorted list of entries stands for.
pub open spec fn map_of(es: Seq<(Seq<u8>, Seq<u8>)>) -> Map<Seq<u8>, Seq<u8>> {
    Map::new(
        |k: Seq<u8>| has_key(es, k),
        |k: Seq<u8>| es[key_index(es, k)].1,
    )
}

/// Where `k` stands among the entries.
pub open spec fn key_index(es: Seq<(Seq<u8>, Seq<u8>)>, k: Seq<u8>) -> int {
    choose|i: int| 0 <= i < es.len() && es[i].0 == k
}

pub proof fn lemma_sorted_unique(es: Seq<(Seq<u8>, Seq<u8>)>, i: int, j: int)
    requires
        sorted_keys(es),
        0 <= i < es.len(),
        0 <= j < es.len(),
        es[i].0 == es[j].0,
    ensures
        i == j,
{
    lemma_lex_irreflexive(es[i].0);
}

pub proof fn lemma_map_of_at(es: Seq<(Seq<u8>, Seq<u8>)>, i: int)
    requires
        sorted_keys(es),
        0 <= i < es.len(),
    ensures
        map_of(es).contains_key(es[i].0),
        map_of(es)[es[i].0] == es[i].1,
{
    let k = es[i].0;
    assert(has_key(es, k));
    assert(map_of(es).dom().contains(k));
    let c = key_index(es, k);
    lemma_sorted_unique(es, i, c);
}

/// The map of the first `i + 1` entries adds entry `i` to the map of the first `i`.
pub proof fn lemma_map_of_take(ps: Seq<(Seq<u8>, Seq<u8>)>, i: int)
    requires
        sorted_keys(ps),
        0 <= i < ps.len(),
    ensures
        map_of(ps.take(i + 1)) == map_of(ps.take(i)).insert(ps[i].0, ps[i].1),
{
    let a = ps.take(i);
    let b = ps.take(i + 1);
    assert(sorted_keys(a));
    assert(sorted_keys(b));
    assert forall|k: Seq<u8>| has_key(b, k) == (has_key(a, k) || k == ps[i].0) by {
        if has_key(a, k) {
            let j = choose|j: int| 0 <= j < a.len() && a[j].0 == k;
            assert(b[j].0 == k);
        }
        if k == ps[i].0 {
            assert(b[i].0 == k);
        }
        if has_key(b, k) {
            let j = choose|j: int| 0 <= j < b.len() && b[j].0 == k;
            if j < i {
                assert(a[j].0 == k);
            }
        }
    }
    assert forall|k: Seq<u8>| has_key(b, k) implies map_of(b)[k] == map_of(a).insert(
        ps[i].0,
        ps[i].1,
    )[k] by {
        let j = choose|j: int| 0 <= j < b.len() && b[j].0 == k;
        lemma_map_of_at(b, j);
        if j < i {
            lemma_map_of_at(a, j);
            if k == ps[i].0 {
                assert(b[i].0 == k);
                lemma_sorted_unique(b, j, i as int);
            }
        }
    }
    assert(map_of(b) =~= map_of(a).insert(ps[i].0, ps[i].1));
}

impl ByteMap {
    pub closed spec fn pairs(&self) -> Seq<(Seq<u8>, Seq<u8>)> {
        pairs_view(self.entries@)
    }

    pub open spec fn wf(&self) -> bool {
        sorted_keys(self.pairs())
    }

    pub open spec fn view(&self) -> Map<Seq<u8>, Seq<u8>> {
        map_of(self.pairs())
    }

    pub fn new() -> (r: ByteMap)
        ensures
            r.wf(),
            r.pairs() == Seq::<(Seq<u8>, Seq<u8>)>::empty(),
            r@ == Map::<Seq<u8>, Seq<u8>>::empty(),
    {
        let r = ByteMap { entries: Vec::new() };
        assert(r.pairs() =~= Seq::<(Seq<u8>, Seq<u8>)>::empty());
        assert(r@ =~= Map::<Seq<u8>, Seq<u8>>::empty());
        r
    }

    pub fn len(&self) -> (r: usize)
        ensures
            r == self.pairs().len(),
    {
        self.entries.len()
    }

    /// The `i`-th entry in key order.
    pub fn entry(&self, i: usize) -> (r: (&Vec<u8>, &Vec<u8>))
        requires
            i < self.pairs().len(),
        ensures
            (r.0@, r.1@) == self.pairs()[i as int],
    {
        let e = &self.entries[i];
        (&e.0, &e.1)
    }

    /// The value stored under `k`, if any.
    pub fn get(&self, k: &[u8]) -> (r: Option<&Vec<u8>>)
        requires
            self.wf(),
        ensures
            r.is_some() == self@.contains_key(k@),
            r.is_some() ==> r.unwrap()@ == self@[k@],
    {
        let mut i: usize = 0;
        while i < self.entries.len()
            invariant
                self.wf(),
                i <= self.pairs().len(),
                forall|j: int| 0 <= j < i ==> self.pairs()[j].0 != k@,
            decreases self.pairs().len() - i,
        {
            if bytes_eq(self.entries[i].0.as_slice(), k) {
                proof {
                    lemma_map_of_at(self.pairs(), i as int);
                }
                return Some(&self.entries[i].1);
            }
            i = i + 1;
        }
        None
    }

    /// Stores `v` under `k`, replacing what was there.
    pub fn insert(&mut self, k: Vec<u8>, v: Vec<u8>)
        requires
            old(self).wf(),
        ensures
            final(self).wf(),
            final(self)@ == old(self)@.insert(k@, v@),
    {
        let ghost es = self.pairs();
        let mut i: usize = 0;
        while i < self.entries.len() && bytes_lt(self.entries[i].0.as_slice(), k.as_slice())
            invariant
                self.pairs() == es,
                sorted_keys(es),
                i <= es.len(),
                forall|j: int| 0 <= j < i ==> lex_lt(#[trigger] es[j].0, k@),
            decreases es.len() - i,
        {
            i = i + 1;
        }
        let ghost nk = (k@, v@);
        if i < self.entries.len() && bytes_eq(self.entries[i].0.as_slice(), k.as_slice()) {
            self.entries.set(i, (k, v));
            let ghost ns = self.pairs();
            assert(ns =~= es.update(i as int, nk));
            assert(nk.0 == es[i as int].0);
            assert forall|a: int, b: int| 0 <= a < b < ns.len() implies lex_lt(
                #[trigger] ns[a].0,
                #[trigger] ns[b].0,
            ) by {
                assert(ns[a].0 == es[a].0 && ns[b].0 == es[b].0);
            }
            assert forall|kk: Seq<u8>| has_key(ns, kk) == (has_key(es, kk) || kk == nk.0) by {
                if has_key(es, kk) {
                    let j = choose|j: int| 0 <= j < es.len() && es[j].0 == kk;
                    assert(ns[j].0 == kk);
                }
                if kk == nk.0 {
                    assert(ns[i as int].0 == kk);
                }
                if has_key(ns, kk) {
                    let j = choose|j: int| 0 <= j < ns.len() && ns[j].0 == kk;
                    assert(es[j].0 == kk);
                }
            }
            assert forall|kk: Seq<u8>| has_key(ns, kk) implies map_of(ns)[kk] == map_of(
                es,
            ).insert(nk.0, nk.1)[kk] by {
                let j = choose|j: int| 0 <= j < ns.len() && ns[j].0 == kk;
                lemma_map_of_at(ns, j);
                if j != i {
                    lemma_map_of_at(es, j);
                }
            }
            assert(map_of(ns) =~= map_of(es).insert(nk.0, nk.1));
        } else {
            proof {
                if i < es.len() {
                    lemma_lex_total(es[i as int].0, k@);
                }
            }
            self.entries.insert(i, (k, v));
            let ghost ns = self.pairs();
            assert(ns =~= es.insert(i as int, nk));
            assert forall|a: int, b: int| 0 <= a < b < ns.len() implies lex_lt(
                #[trigger] ns[a].0,
                #[trigger] ns[b].0,
            ) by {
                if b == i {
                } else if a == i {
                    if b - 1 > i {
                        lemma_lex_transitive(nk.0, es[i as int].0, es[b - 1].0);
                    }
                } else if a < i && b > i {
                } else {
                }
            }
            assert forall|kk: Seq<u8>| has_key(ns, kk) == (has_key(es, kk) || kk == nk.0) by {
                if has_key(es, kk) {
                    let j = choose|j: int| 0 <= j < es.len() && es[j].0 == kk;
                    if j < i {
                        assert(ns[j].0 == kk);
                    } else {
                        assert(ns[j + 1].0 == kk);
                    }
                }
                if kk == nk.0 {
                    assert(ns[i as int].0 == kk);
                }
                if has_key(ns, kk) {
                    let j = choose|j: int| 0 <= j < ns.len() && ns[j].0 == kk;
                    if j < i {
                        assert(es[j].0 == kk);
                    } else if j > i {
                        assert(es[j - 1].0 == kk);
                    }
                }
            }
            assert forall|kk: Seq<u8>| has_key(ns, kk) implies map_of(ns)[kk] == map_of(
                es,
            ).insert(nk.0, nk.1)[kk] by {
                let j = choose|j: int| 0 <= j < ns.len() && ns[j].0 == kk;
                lemma_map_of_at(ns, j);
                if j < i {
                    lemma_map_of_at(es, j);
                    lemma_lex_irreflexive(kk);
                } else if j > i {
                    lemma_map_of_at(es, j - 1);
                    lemma_lex_irreflexive(kk);
                }
            }
            assert(map_of(ns) =~= map_of(es).insert(nk.0, nk.1));
        }
    }
}

} // verus!
