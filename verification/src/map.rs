//! Insertion-ordered string maps: the configuration tree is a mapping from
//! section name to a mapping from key to an optional value, both levels
//! keeping insertion order and holding each key at most once.

use vstd::prelude::*;

verus! {

/// The model of the inner mapping: key, optional value, in insertion order.
pub type PropsV = Seq<(Seq<char>, Option<Seq<char>>)>;

/// The model of the whole tree: section name and its properties, in insertion
/// order.
pub type TreeV = Seq<(Seq<char>, PropsV)>;

/// The value of the first entry bearing key `k`, if any.
pub open spec fn assoc_get<V>(m: Seq<(Seq<char>, V)>, k: Seq<char>) -> Option<V>
    decreases m.len(),
{
    if m.len() == 0 {
        None
    } else if m[0].0 == k {
        Some(m[0].1)
    } else {
        assoc_get(m.skip(1), k)
    }
}

/// Replaces the value of the first entry bearing key `k`, keeping its
/// position, or appends the pair at the end.
pub open spec fn assoc_upsert<V>(m: Seq<(Seq<char>, V)>, k: Seq<char>, v: V) -> Seq<
    (Seq<char>, V),
>
    decreases m.len(),
{
    if m.len() == 0 {
        seq![(k, v)]
    } else if m[0].0 == k {
        seq![(k, v)] + m.skip(1)
    } else {
        seq![m[0]] + assoc_upsert(m.skip(1), k, v)
    }
}

/// Removes the first entry bearing key `k`, if any, closing the gap.
pub open spec fn assoc_remove<V>(m: Seq<(Seq<char>, V)>, k: Seq<char>) -> Seq<(Seq<char>, V)>
    decreases m.len(),
{
    if m.len() == 0 {
        m
    } else if m[0].0 == k {
        m.skip(1)
    } else {
        seq![m[0]] + assoc_remove(m.skip(1), k)
    }
}

/// The keys, in order.
pub open spec fn assoc_keys<V>(m: Seq<(Seq<char>, V)>) -> Seq<Seq<char>> {
    Seq::new(m.len(), |i: int| m[i].0)
}

/// Each key occurs at most once.
pub open spec fn assoc_wf<V>(m: Seq<(Seq<char>, V)>) -> bool {
    forall|i: int, j: int| 0 <= i < j < m.len() ==> m[i].0 != m[j].0
}

pub proof fn lemma_assoc_get_idx<V>(m: Seq<(Seq<char>, V)>, k: Seq<char>, i: int)
    requires
        0 <= i < m.len(),
        m[i].0 == k,
        forall|j: int| 0 <= j < i ==> m[j].0 != k,
    ensures
        assoc_get(m, k) == Some(m[i].1),
    decreases i,
{
    if i > 0 {
        lemma_assoc_get_idx(m.skip(1), k, i - 1);
    }
}

pub proof fn lemma_assoc_get_none<V>(m: Seq<(Seq<char>, V)>, k: Seq<char>)
    requires
        forall|j: int| 0 <= j < m.len() ==> m[j].0 != k,
    ensures
        assoc_get(m, k) is None,
    decreases m.len(),
{
    if m.len() > 0 {
        lemma_assoc_get_none(m.skip(1), k);
    }
}

pub proof fn lemma_assoc_upsert_idx<V>(m: Seq<(Seq<char>, V)>, k: Seq<char>, v: V, i: int)
    requires
        0 <= i < m.len(),
        m[i].0 == k,
        forall|j: int| 0 <= j < i ==> m[j].0 != k,
    ensures
        assoc_upsert(m, k, v) =~= m.update(i, (k, v)),
    decreases i,
{
    if i > 0 {
        lemma_assoc_upsert_idx(m.skip(1), k, v, i - 1);
        assert(seq![m[0]] + m.skip(1).update(i - 1, (k, v)) =~= m.update(i, (k, v)));
    }
}

pub proof fn lemma_assoc_upsert_none<V>(m: Seq<(Seq<char>, V)>, k: Seq<char>, v: V)
    requires
        forall|j: int| 0 <= j < m.len() ==> m[j].0 != k,
    ensures
        assoc_upsert(m, k, v) =~= m.push((k, v)),
    decreases m.len(),
{
    if m.len() > 0 {
        lemma_assoc_upsert_none(m.skip(1), k, v);
        assert(seq![m[0]] + m.skip(1).push((k, v)) =~= m.push((k, v)));
    }
}

pub proof fn lemma_assoc_remove_idx<V>(m: Seq<(Seq<char>, V)>, k: Seq<char>, i: int)
    requires
        0 <= i < m.len(),
        m[i].0 == k,
        forall|j: int| 0 <= j < i ==> m[j].0 != k,
    ensures
        assoc_remove(m, k) =~= m.remove(i),
    decreases i,
{
    if i > 0 {
        lemma_assoc_remove_idx(m.skip(1), k, i - 1);
        assert(seq![m[0]] + m.skip(1).remove(i - 1) =~= m.remove(i));
    }
}

pub proof fn lemma_assoc_remove_none<V>(m: Seq<(Seq<char>, V)>, k: Seq<char>)
    requires
        forall|j: int| 0 <= j < m.len() ==> m[j].0 != k,
    ensures
        assoc_remove(m, k) =~= m,
    decreases m.len(),
{
    if m.len() > 0 {
        lemma_assoc_remove_none(m.skip(1), k);
        assert(seq![m[0]] + m.skip(1) =~= m);
    }
}

/// The view of a sequence of owned entries.
pub open spec fn pm_view(es: Seq<(String, Option<String>)>) -> PropsV {
    Seq::new(es.len(), |i: int| (es[i].0@, es[i].1.deep_view()))
}

/// The inner mapping: an insertion-ordered association of keys to optional
/// values, each key held at most once.
#[derive(Debug, PartialEq, Eq)]
pub struct PropMap {
    entries: Vec<(String, Option<String>)>,
}

impl View for PropMap {
    type V = PropsV;

    closed spec fn view(&self) -> PropsV {
        pm_view(self.entries@)
    }
}

impl DeepView for PropMap {
    type V = PropsV;

    open spec fn deep_view(&self) -> PropsV {
        self.view()
    }
}

impl PropMap {
    /// The invariant every value of the type keeps: keys unique.
    #[verifier::type_invariant]
    pub open spec fn wf(&self) -> bool {
        assoc_wf(self@)
    }

    pub fn new() -> (r: PropMap)
        ensures
            r@ == Seq::<(Seq<char>, Option<Seq<char>>)>::empty(),
    {
        let r = PropMap { entries: Vec::new() };
        proof {
            assert(r@ =~= Seq::<(Seq<char>, Option<Seq<char>>)>::empty());
        }
        r
    }

    pub fn len(&self) -> (n: usize)
        ensures
            n == self@.len(),
    {
        self.entries.len()
    }

    pub fn is_empty(&self) -> (b: bool)
        ensures
            b == (self@.len() == 0),
    {
        self.entries.len() == 0
    }

    /// The key at a position, in insertion order.
    pub fn key_at(&self, i: usize) -> (k: &String)
        requires
            i < self@.len(),
        ensures
            k@ == self@[i as int].0,
    {
        &self.entries[i].0
    }

    /// The value at a position, in insertion order.
    pub fn value_at(&self, i: usize) -> (v: &Option<String>)
        requires
            i < self@.len(),
        ensures
            v.deep_view() == self@[i as int].1,
    {
        &self.entries[i].1
    }

    fn idx_of(&self, key: &String) -> (r: Option<usize>)
        ensures
            match r {
                Some(i) => i < self@.len() && self@[i as int].0 == key@ && (forall|j: int|
                    0 <= j < i ==> self@[j].0 != key@),
                None => forall|j: int| 0 <= j < self@.len() ==> self@[j].0 != key@,
            },
    {
        let n = self.entries.len();
        let mut i: usize = 0;
        while i < n
            invariant
                i <= n,
                n == self@.len(),
                n == self.entries@.len(),
                forall|j: int| 0 <= j < i ==> self@[j].0 != key@,
            decreases n - i,
        {
            if self.entries[i].0 == *key {
                return Some(i);
            }
            i += 1;
        }
        None
    }

    /// Whether the key is present, valueless or not.
    pub fn contains_key(&self, key: &String) -> (r: bool)
        ensures
            r == (assoc_get(self@, key@) is Some),
    {
        match self.idx_of(key) {
            Some(i) => {
                proof {
                    lemma_assoc_get_idx(self@, key@, i as int);
                }
                true
            },
            None => {
                proof {
                    lemma_assoc_get_none(self@, key@);
                }
                false
            },
        }
    }

    /// The stored value of a key: `None` when the key is absent,
    /// `Some(None)` when the key is present without a value.
    pub fn get<'a>(&'a self, key: &String) -> (r: Option<&'a Option<String>>)
        ensures
            match r {
                Some(v) => assoc_get(self@, key@) == Some(v.deep_view()),
                None => assoc_get(self@, key@) is None,
            },
    {
        match self.idx_of(key) {
            Some(i) => {
                proof {
                    lemma_assoc_get_idx(self@, key@, i as int);
                }
                Some(&self.entries[i].1)
            },
            None => {
                proof {
                    lemma_assoc_get_none(self@, key@);
                }
                None
            },
        }
    }

    /// Inserts or overwrites; an existing key keeps its position. Returns the
    /// prior value, if the key was present.
    pub fn insert(&mut self, key: String, value: Option<String>) -> (prev: Option<Option<String>>)
        ensures
            final(self)@ == assoc_upsert(old(self)@, key@, value.deep_view()),
            prev.deep_view() == assoc_get(old(self)@, key@),
    {
        proof {
            use_type_invariant(&*self);
        }
        let ghost m0 = self@;
        let idx = self.idx_of(&key);
        let mut entries: Vec<(String, Option<String>)> = Vec::new();
        core::mem::swap(&mut entries, &mut self.entries);
        let prev: Option<Option<String>>;
        match idx {
            Some(i) => {
                proof {
                    lemma_assoc_get_idx(m0, key@, i as int);
                    lemma_assoc_upsert_idx(m0, key@, value.deep_view(), i as int);
                }
                let (_k0, v0) = entries.remove(i);
                entries.insert(i, (key, value));
                prev = Some(v0);
                proof {
                    let nv = pm_view(entries@);
                    assert(nv =~= m0.update(i as int, (key@, value.deep_view())));
                    assert(forall|q: int| 0 <= q < nv.len() ==> nv[q].0 == m0[q].0);
                    assert(assoc_wf(nv));
                }
            },
            None => {
                proof {
                    lemma_assoc_get_none(m0, key@);
                    lemma_assoc_upsert_none(m0, key@, value.deep_view());
                }
                entries.push((key, value));
                prev = None;
                proof {
                    let nv = pm_view(entries@);
                    assert(nv =~= m0.push((key@, value.deep_view())));
                    assert(assoc_wf(nv));
                }
            },
        }
        self.entries = entries;
        proof {
            assert(self@ =~= assoc_upsert(m0, key@, value.deep_view()));
        }
        prev
    }

    /// Removes a key, closing the gap; returns what was stored.
    pub fn remove(&mut self, key: &String) -> (prev: Option<Option<String>>)
        ensures
            final(self)@ == assoc_remove(old(self)@, key@),
            prev.deep_view() == assoc_get(old(self)@, key@),
    {
        proof {
            use_type_invariant(&*self);
        }
        let ghost m0 = self@;
        let idx = self.idx_of(key);
        let mut entries: Vec<(String, Option<String>)> = Vec::new();
        core::mem::swap(&mut entries, &mut self.entries);
        let prev: Option<Option<String>>;
        match idx {
            Some(i) => {
                proof {
                    lemma_assoc_get_idx(m0, key@, i as int);
                    lemma_assoc_remove_idx(m0, key@, i as int);
                }
                let (_k0, v0) = entries.remove(i);
                prev = Some(v0);
                proof {
                    let nv = pm_view(entries@);
                    assert(nv =~= m0.remove(i as int));
                    assert forall|a: int, b: int| 0 <= a < b < nv.len() implies nv[a].0
                        != nv[b].0 by {
                        let a0 = if a < i as int { a } else { a + 1 };
                        let b0 = if b < i as int { b } else { b + 1 };
                        assert(nv[a].0 == m0[a0].0);
                        assert(nv[b].0 == m0[b0].0);
                    }
                    assert(assoc_wf(nv));
                }
            },
            None => {
                proof {
                    lemma_assoc_get_none(m0, key@);
                    lemma_assoc_remove_none(m0, key@);
                }
                prev = None;
            },
        }
        self.entries = entries;
        proof {
            assert(self@ =~= assoc_remove(m0, key@));
        }
        prev
    }

    /// The keys, cloned, in insertion order.
    pub fn keys(&self) -> (r: Vec<String>)
        ensures
            r.deep_view() == assoc_keys(self@),
    {
        let n = self.entries.len();
        let mut r: Vec<String> = Vec::new();
        let mut i: usize = 0;
        while i < n
            invariant
                i <= n,
                n == self@.len(),
                n == self.entries@.len(),
                r@.len() == i,
                forall|j: int| 0 <= j < i ==> r@[j]@ == self@[j].0,
            decreases n - i,
        {
            let k = self.entries[i].0.clone();
            r.push(k);
            i += 1;
        }
        proof {
            assert(r.deep_view() =~= assoc_keys(self@));
        }
        r
    }

    /// A copy with the same contents.
    pub fn duplicate(&self) -> (r: PropMap)
        ensures
            r@ == self@,
    {
        proof {
            use_type_invariant(&*self);
        }
        let n = self.entries.len();
        let mut entries: Vec<(String, Option<String>)> = Vec::new();
        let mut i: usize = 0;
        while i < n
            invariant
                i <= n,
                n == self.entries@.len(),
                entries@.len() == i,
                forall|j: int| 0 <= j < i ==> (entries@[j].0@, entries@[j].1.deep_view()) == (
                self.entries@[j].0@,
                self.entries@[j].1.deep_view(),
                ),
            decreases n - i,
        {
            let e = &self.entries[i];
            entries.push((e.0.clone(), e.1.clone()));
            i += 1;
        }
        proof {
            assert(pm_view(entries@) =~= self@);
        }
        let r = PropMap { entries };
        r
    }
}


/// The properties of a section, or the empty mapping when the section is
/// absent.
pub open spec fn props_or_empty(t: TreeV, s: Seq<char>) -> PropsV {
    match assoc_get(t, s) {
        Some(p) => p,
        None => Seq::empty(),
    }
}

/// The tree with the section present: untouched when it exists, appended
/// empty when it does not.
pub open spec fn tree_ensure(t: TreeV, s: Seq<char>) -> TreeV {
    if assoc_get(t, s) is Some {
        t
    } else {
        t.push((s, Seq::empty()))
    }
}

/// The tree after writing one key of one section, creating the section at the
/// end when it is new.
pub open spec fn tree_upsert(t: TreeV, s: Seq<char>, k: Seq<char>, v: Option<Seq<char>>) -> TreeV {
    assoc_upsert(t, s, assoc_upsert(props_or_empty(t, s), k, v))
}

/// The stored value of a key of a section: `None` when section or key is
/// absent, `Some(None)` when the key is present without a value.
pub open spec fn tree_lookup(t: TreeV, s: Seq<char>, k: Seq<char>) -> Option<Option<Seq<char>>> {
    match assoc_get(t, s) {
        Some(p) => assoc_get(p, k),
        None => None,
    }
}

/// A sequence of `n` newline characters.
pub open spec fn nl_rep(n: nat) -> Seq<char> {
    Seq::new(n, |i: int| '\n')
}

/// A continuation line joined onto a stored value: the prior text if any,
/// then one newline per pending blank line, a separating newline, and the
/// continuation text.
pub open spec fn cont_value(prev: Option<Option<Seq<char>>>, blanks: nat, text: Seq<char>) -> Seq<
    char,
> {
    (match prev {
        Some(Some(s)) => s,
        _ => Seq::<char>::empty(),
    }) + nl_rep((blanks + 1) as nat) + text
}

/// The tree after a multiline continuation of one key of one section.
pub open spec fn tree_continue(
    t: TreeV,
    s: Seq<char>,
    k: Seq<char>,
    blanks: nat,
    text: Seq<char>,
) -> TreeV {
    assoc_upsert(
        t,
        s,
        assoc_upsert(
            props_or_empty(t, s),
            k,
            Some(cont_value(assoc_get(props_or_empty(t, s), k), blanks, text)),
        ),
    )
}


/// The tree after removing one key of one section: untouched when the section
/// is absent, the section kept (possibly empty) when present.
pub open spec fn tree_remove_key(t: TreeV, s: Seq<char>, k: Seq<char>) -> TreeV {
    match assoc_get(t, s) {
        Some(p) => assoc_upsert(t, s, assoc_remove(p, k)),
        None => t,
    }
}

/// One section of an incoming tree merged into `t`: the section is created if
/// absent, then each incoming key overwrites in order.
pub open spec fn merge_section(t: TreeV, name: Seq<char>, props: PropsV) -> TreeV
    decreases props.len(),
{
    if props.len() == 0 {
        tree_ensure(t, name)
    } else {
        tree_upsert(
            merge_section(t, name, props.drop_last()),
            name,
            props.last().0,
            props.last().1,
        )
    }
}

/// An incoming tree merged into `t`, section by section in order.
pub open spec fn tree_merge(t: TreeV, o: TreeV) -> TreeV
    decreases o.len(),
{
    if o.len() == 0 {
        t
    } else {
        merge_section(tree_merge(t, o.drop_last()), o.last().0, o.last().1)
    }
}

/// A well-formed tree: section names unique, and keys unique within each
/// section.
pub open spec fn tree_wf(t: TreeV) -> bool {
    assoc_wf(t) && (forall|i: int| 0 <= i < t.len() ==> assoc_wf(#[trigger] t[i].1))
}

/// The view of a sequence of owned sections.
pub open spec fn tm_view(es: Seq<(String, PropMap)>) -> TreeV {
    Seq::new(es.len(), |i: int| (es[i].0@, es[i].1@))
}

impl Clone for PropMap {
    /// A copy with the same contents.
    fn clone(&self) -> (r: Self)
        ensures
            r@ == self@,
    {
        self.duplicate()
    }
}

/// The configuration tree: an insertion-ordered association of section names
/// to property mappings, each name held at most once.
#[derive(Debug, PartialEq, Eq)]
pub struct IniMap {
    entries: Vec<(String, PropMap)>,
}

impl View for IniMap {
    type V = TreeV;

    closed spec fn view(&self) -> TreeV {
        tm_view(self.entries@)
    }
}

impl DeepView for IniMap {
    type V = TreeV;

    open spec fn deep_view(&self) -> TreeV {
        self.view()
    }
}

impl IniMap {
    /// The invariant every value of the type keeps: section names unique,
    /// keys unique within each section.
    #[verifier::type_invariant]
    pub open spec fn wf(&self) -> bool {
        tree_wf(self@)
    }

    pub fn new() -> (r: IniMap)
        ensures
            r@ == Seq::<(Seq<char>, PropsV)>::empty(),
    {
        let r = IniMap { entries: Vec::new() };
        proof {
            assert(r@ =~= Seq::<(Seq<char>, PropsV)>::empty());
        }
        r
    }

    pub fn len(&self) -> (n: usize)
        ensures
            n == self@.len(),
    {
        self.entries.len()
    }

    pub fn is_empty(&self) -> (b: bool)
        ensures
            b == (self@.len() == 0),
    {
        self.entries.len() == 0
    }

    /// The section name at a position, in insertion order.
    pub fn section_at(&self, i: usize) -> (k: &String)
        requires
            i < self@.len(),
        ensures
            k@ == self@[i as int].0,
    {
        &self.entries[i].0
    }

    /// The properties at a position, in insertion order.
    pub fn props_at(&self, i: usize) -> (p: &PropMap)
        requires
            i < self@.len(),
        ensures
            p@ == self@[i as int].1,
    {
        &self.entries[i].1
    }

    fn idx_of(&self, name: &String) -> (r: Option<usize>)
        ensures
            match r {
                Some(i) => i < self@.len() && self@[i as int].0 == name@ && (forall|j: int|
                    0 <= j < i ==> self@[j].0 != name@),
                None => forall|j: int| 0 <= j < self@.len() ==> self@[j].0 != name@,
            },
    {
        let n = self.entries.len();
        let mut i: usize = 0;
        while i < n
            invariant
                i <= n,
                n == self@.len(),
                n == self.entries@.len(),
                forall|j: int| 0 <= j < i ==> self@[j].0 != name@,
            decreases n - i,
        {
            if self.entries[i].0 == *name {
                return Some(i);
            }
            i += 1;
        }
        None
    }

    /// Whether a section of this name exists, possibly empty.
    pub fn contains_section(&self, name: &String) -> (r: bool)
        ensures
            r == (assoc_get(self@, name@) is Some),
    {
        match self.idx_of(name) {
            Some(i) => {
                proof {
                    lemma_assoc_get_idx(self@, name@, i as int);
                }
                true
            },
            None => {
                proof {
                    lemma_assoc_get_none(self@, name@);
                }
                false
            },
        }
    }

    /// The properties of a section, if it exists.
    pub fn get<'a>(&'a self, name: &String) -> (r: Option<&'a PropMap>)
        ensures
            match r {
                Some(p) => assoc_get(self@, name@) == Some(p@),
                None => assoc_get(self@, name@) is None,
            },
    {
        match self.idx_of(name) {
            Some(i) => {
                proof {
                    lemma_assoc_get_idx(self@, name@, i as int);
                }
                Some(&self.entries[i].1)
            },
            None => {
                proof {
                    lemma_assoc_get_none(self@, name@);
                }
                None
            },
        }
    }

    /// The section names, cloned, in insertion order.
    pub fn section_names(&self) -> (r: Vec<String>)
        ensures
            r.deep_view() == assoc_keys(self@),
    {
        let n = self.entries.len();
        let mut r: Vec<String> = Vec::new();
        let mut i: usize = 0;
        while i < n
            invariant
                i <= n,
                n == self@.len(),
                n == self.entries@.len(),
                r@.len() == i,
                forall|j: int| 0 <= j < i ==> r@[j]@ == self@[j].0,
            decreases n - i,
        {
            let k = self.entries[i].0.clone();
            r.push(k);
            i += 1;
        }
        proof {
            assert(r.deep_view() =~= assoc_keys(self@));
        }
        r
    }

    /// Makes sure the section exists, appending it empty when new.
    pub fn ensure_section(&mut self, name: &String)
        ensures
            final(self)@ == tree_ensure(old(self)@, name@),
    {
        proof {
            use_type_invariant(&*self);
        }
        let ghost t0 = self@;
        match self.idx_of(name) {
            Some(i) => {
                proof {
                    lemma_assoc_get_idx(t0, name@, i as int);
                }
            },
            None => {
                proof {
                    lemma_assoc_get_none(t0, name@);
                }
                let mut entries: Vec<(String, PropMap)> = Vec::new();
                core::mem::swap(&mut entries, &mut self.entries);
                entries.push((name.clone(), PropMap::new()));
                proof {
                    let nv = tm_view(entries@);
                    assert(nv =~= t0.push((name@, Seq::<(Seq<char>, Option<Seq<char>>)>::empty())));
                    assert(assoc_wf(nv));
                    assert(forall|q: int| 0 <= q < nv.len() ==> assoc_wf(nv[q].1));
                }
                self.entries = entries;
            },
        }
    }

    /// Writes one key of one section, creating the section at the end when it
    /// is new; an existing key keeps its position. Returns the prior value of
    /// the key, if it was present.
    pub fn upsert_value(&mut self, name: &String, key: String, value: Option<String>) -> (prev:
        Option<Option<String>>)
        ensures
            final(self)@ == tree_upsert(old(self)@, name@, key@, value.deep_view()),
            prev.deep_view() == tree_lookup(old(self)@, name@, key@),
    {
        proof {
            use_type_invariant(&*self);
        }
        let ghost t0 = self@;
        let idx = self.idx_of(name);
        let mut entries: Vec<(String, PropMap)> = Vec::new();
        core::mem::swap(&mut entries, &mut self.entries);
        let prev: Option<Option<String>>;
        match idx {
            Some(i) => {
                proof {
                    lemma_assoc_get_idx(t0, name@, i as int);
                }
                let (name0, mut pm) = entries.remove(i);
                prev = pm.insert(key, value);
                proof {
                    use_type_invariant(&pm);
                }
                entries.insert(i, (name0, pm));
                proof {
                    lemma_assoc_upsert_idx(
                        t0,
                        name@,
                        assoc_upsert(props_or_empty(t0, name@), key@, value.deep_view()),
                        i as int,
                    );
                    let nv = tm_view(entries@);
                    assert(nv =~= tree_upsert(t0, name@, key@, value.deep_view()));
                    assert(forall|q: int| 0 <= q < nv.len() ==> nv[q].0 == t0[q].0);
                    assert(assoc_wf(nv));
                    assert(forall|q: int|
                        0 <= q < nv.len() && q != i as int ==> nv[q].1 == t0[q].1);
                    assert(forall|q: int| 0 <= q < nv.len() ==> assoc_wf(nv[q].1));
                }
            },
            None => {
                proof {
                    lemma_assoc_get_none(t0, name@);
                    lemma_assoc_upsert_none(
                        t0,
                        name@,
                        assoc_upsert(props_or_empty(t0, name@), key@, value.deep_view()),
                    );
                }
                let mut pm = PropMap::new();
                prev = pm.insert(key, value);
                proof {
                    use_type_invariant(&pm);
                }
                entries.push((name.clone(), pm));
                proof {
                    let nv = tm_view(entries@);
                    assert(nv =~= tree_upsert(t0, name@, key@, value.deep_view()));
                    assert(assoc_wf(nv));
                    assert(forall|q: int|
                        0 <= q < nv.len() && q != nv.len() - 1 ==> nv[q].1 == t0[q].1);
                    assert(forall|q: int| 0 <= q < nv.len() ==> assoc_wf(nv[q].1));
                }
            },
        }
        self.entries = entries;
        prev
    }

    /// Joins a continuation line onto a key of a section, creating section,
    /// key or value as needed.
    pub fn append_value(&mut self, name: &String, key: &String, blanks: usize, text: &str)
        ensures
            final(self)@ == tree_continue(old(self)@, name@, key@, blanks as nat, text@),
    {
        proof {
            use_type_invariant(&*self);
        }
        let ghost t0 = self@;
        let idx = self.idx_of(name);
        let mut entries: Vec<(String, PropMap)> = Vec::new();
        core::mem::swap(&mut entries, &mut self.entries);
        match idx {
            Some(i) => {
                proof {
                    lemma_assoc_get_idx(t0, name@, i as int);
                }
                let (name0, mut pm) = entries.remove(i);
                let joined = joined_value(&pm, key, blanks, text);
                pm.insert(key.clone(), Some(joined));
                proof {
                    use_type_invariant(&pm);
                }
                entries.insert(i, (name0, pm));
                proof {
                    lemma_assoc_upsert_idx(
                        t0,
                        name@,
                        assoc_upsert(
                            props_or_empty(t0, name@),
                            key@,
                            Some(
                                cont_value(
                                    assoc_get(props_or_empty(t0, name@), key@),
                                    blanks as nat,
                                    text@,
                                ),
                            ),
                        ),
                        i as int,
                    );
                    let nv = tm_view(entries@);
                    assert(nv =~= tree_continue(t0, name@, key@, blanks as nat, text@));
                    assert(forall|q: int| 0 <= q < nv.len() ==> nv[q].0 == t0[q].0);
                    assert(assoc_wf(nv));
                    assert(forall|q: int|
                        0 <= q < nv.len() && q != i as int ==> nv[q].1 == t0[q].1);
                    assert(forall|q: int| 0 <= q < nv.len() ==> assoc_wf(nv[q].1));
                }
            },
            None => {
                proof {
                    lemma_assoc_get_none(t0, name@);
                    lemma_assoc_upsert_none(
                        t0,
                        name@,
                        assoc_upsert(
                            props_or_empty(t0, name@),
                            key@,
                            Some(
                                cont_value(
                                    assoc_get(props_or_empty(t0, name@), key@),
                                    blanks as nat,
                                    text@,
                                ),
                            ),
                        ),
                    );
                }
                let mut pm = PropMap::new();
                let joined = joined_value(&pm, key, blanks, text);
                pm.insert(key.clone(), Some(joined));
                proof {
                    use_type_invariant(&pm);
                }
                entries.push((name.clone(), pm));
                proof {
                    let nv = tm_view(entries@);
                    assert(nv =~= tree_continue(t0, name@, key@, blanks as nat, text@));
                    assert(assoc_wf(nv));
                    assert(forall|q: int|
                        0 <= q < nv.len() && q != nv.len() - 1 ==> nv[q].1 == t0[q].1);
                    assert(forall|q: int| 0 <= q < nv.len() ==> assoc_wf(nv[q].1));
                }
            },
        }
        self.entries = entries;
    }

    /// Removes a section, closing the gap; returns its properties.
    pub fn remove_section_entry(&mut self, name: &String) -> (prev: Option<PropMap>)
        ensures
            final(self)@ == assoc_remove(old(self)@, name@),
            match prev {
                Some(p) => assoc_get(old(self)@, name@) == Some(p@),
                None => assoc_get(old(self)@, name@) is None,
            },
    {
        proof {
            use_type_invariant(&*self);
        }
        let ghost t0 = self@;
        let idx = self.idx_of(name);
        let mut entries: Vec<(String, PropMap)> = Vec::new();
        core::mem::swap(&mut entries, &mut self.entries);
        let prev: Option<PropMap>;
        match idx {
            Some(i) => {
                proof {
                    lemma_assoc_get_idx(t0, name@, i as int);
                    lemma_assoc_remove_idx(t0, name@, i as int);
                }
                let (_name0, pm) = entries.remove(i);
                prev = Some(pm);
                proof {
                    let nv = tm_view(entries@);
                    assert(nv =~= t0.remove(i as int));
                    assert forall|a: int, b: int| 0 <= a < b < nv.len() implies nv[a].0
                        != nv[b].0 by {
                        let a0 = if a < i as int {
                            a
                        } else {
                            a + 1
                        };
                        let b0 = if b < i as int {
                            b
                        } else {
                            b + 1
                        };
                        assert(nv[a].0 == t0[a0].0);
                        assert(nv[b].0 == t0[b0].0);
                    }
                    assert(assoc_wf(nv));
                    assert forall|q: int| 0 <= q < nv.len() implies assoc_wf(nv[q].1) by {
                        let q0 = if q < i as int {
                            q
                        } else {
                            q + 1
                        };
                        assert(nv[q].1 == t0[q0].1);
                    }
                }
            },
            None => {
                proof {
                    lemma_assoc_get_none(t0, name@);
                    lemma_assoc_remove_none(t0, name@);
                }
                prev = None;
            },
        }
        self.entries = entries;
        proof {
            assert(self@ =~= assoc_remove(t0, name@));
        }
        prev
    }

    /// Empties the tree.
    pub fn clear(&mut self)
        ensures
            final(self)@ == Seq::<(Seq<char>, PropsV)>::empty(),
    {
        proof {
            use_type_invariant(&*self);
        }
        let mut entries: Vec<(String, PropMap)> = Vec::new();
        core::mem::swap(&mut entries, &mut self.entries);
        entries.clear();
        self.entries = entries;
        proof {
            assert(self@ =~= Seq::<(Seq<char>, PropsV)>::empty());
        }
    }

    /// A copy with the same contents.
    pub fn duplicate(&self) -> (r: IniMap)
        ensures
            r@ == self@,
    {
        proof {
            use_type_invariant(&*self);
        }
        let n = self.entries.len();
        let mut entries: Vec<(String, PropMap)> = Vec::new();
        let mut i: usize = 0;
        while i < n
            invariant
                i <= n,
                n == self.entries@.len(),
                entries@.len() == i,
                forall|j: int| 0 <= j < i ==> (entries@[j].0@, entries@[j].1@) == (
                self.entries@[j].0@,
                self.entries@[j].1@,
                ),
            decreases n - i,
        {
            let e = &self.entries[i];
            entries.push((e.0.clone(), e.1.duplicate()));
            i += 1;
        }
        proof {
            assert(tm_view(entries@) =~= self@);
        }
        let r = IniMap { entries };
        r
    }


    /// Removes one key of one section, keeping the section; returns what the
    /// key held.
    pub fn remove_value(&mut self, name: &String, key: &String) -> (prev: Option<Option<String>>)
        ensures
            final(self)@ == tree_remove_key(old(self)@, name@, key@),
            prev.deep_view() == tree_lookup(old(self)@, name@, key@),
    {
        proof {
            use_type_invariant(&*self);
        }
        let ghost t0 = self@;
        let idx = self.idx_of(name);
        match idx {
            Some(i) => {
                proof {
                    lemma_assoc_get_idx(t0, name@, i as int);
                }
                let mut entries: Vec<(String, PropMap)> = Vec::new();
                core::mem::swap(&mut entries, &mut self.entries);
                let (name0, mut pm) = entries.remove(i);
                let prev = pm.remove(key);
                proof {
                    use_type_invariant(&pm);
                }
                entries.insert(i, (name0, pm));
                proof {
                    lemma_assoc_upsert_idx(
                        t0,
                        name@,
                        assoc_remove(props_or_empty(t0, name@), key@),
                        i as int,
                    );
                    let nv = tm_view(entries@);
                    assert(nv =~= tree_remove_key(t0, name@, key@));
                    assert(forall|q: int| 0 <= q < nv.len() ==> nv[q].0 == t0[q].0);
                    assert(assoc_wf(nv));
                    assert(forall|q: int|
                        0 <= q < nv.len() && q != i as int ==> nv[q].1 == t0[q].1);
                    assert(forall|q: int| 0 <= q < nv.len() ==> assoc_wf(nv[q].1));
                }
                self.entries = entries;
                prev
            },
            None => {
                proof {
                    lemma_assoc_get_none(t0, name@);
                }
                None
            },
        }
    }

    /// Merges another tree into this one, section by section in order:
    /// incoming keys overwrite, everything else is kept.
    pub fn merge_from(&mut self, other: &IniMap)
        ensures
            final(self)@ == tree_merge(old(self)@, other@),
    {
        let ghost t0 = self@;
        let n = other.len();
        let mut i: usize = 0;
        while i < n
            invariant
                i <= n,
                n == other@.len(),
                self@ == tree_merge(t0, other@.take(i as int)),
            decreases n - i,
        {
            let name = other.section_at(i).clone();
            let props = other.props_at(i);
            let ghost ti = self@;
            self.ensure_section(&name);
            let m = props.len();
            let mut j: usize = 0;
            while j < m
                invariant
                    j <= m,
                    i < n,
                    n == other@.len(),
                    m == other@[i as int].1.len(),
                    props@ == other@[i as int].1,
                    name@ == other@[i as int].0,
                    self@ == merge_section(ti, name@, props@.take(j as int)),
                decreases m - j,
            {
                let key = props.key_at(j).clone();
                let value: Option<String> = match props.value_at(j) {
                    Some(sv) => Some(sv.clone()),
                    None => None,
                };
                self.upsert_value(&name, key, value);
                proof {
                    assert(props@.take(j as int + 1).drop_last() =~= props@.take(j as int));
                    assert(props@.take(j as int + 1).last() == props@[j as int]);
                }
                j += 1;
            }
            proof {
                assert(props@.take(m as int) =~= props@);
                assert(other@.take(i as int + 1).drop_last() =~= other@.take(i as int));
                assert(other@.take(i as int + 1).last() == other@[i as int]);
            }
            i += 1;
        }
        proof {
            assert(other@.take(n as int) =~= other@);
        }
    }
}

/// The prior text of a key extended by a continuation line: the existing
/// value if any, pending blank lines, a newline, and the text.
fn joined_value(pm: &PropMap, key: &String, blanks: usize, text: &str) -> (r: String)
    ensures
        r@ == cont_value(assoc_get(pm@, key@), blanks as nat, text@),
{
    let mut acc: String = match pm.get(key) {
        Some(v) => match v {
            Some(sv) => sv.clone(),
            None => String::new(),
        },
        None => String::new(),
    };
    let ghost base = acc@;
    let mut q: usize = 0;
    while q < blanks
        invariant
            q <= blanks,
            acc@ =~= base + nl_rep(q as nat),
        decreases blanks - q,
    {
        acc.append("\n");
        proof {
            reveal_strlit("\n");
            assert(acc@ =~= base + nl_rep(q as nat + 1));
        }
        q += 1;
    }
    acc.append("\n");
    acc.append(text);
    proof {
        reveal_strlit("\n");
        assert(acc@ =~= base + nl_rep((blanks + 1) as nat) + text@);
    }
    acc
}

impl Clone for IniMap {
    /// A copy with the same contents.
    fn clone(&self) -> (r: Self)
        ensures
            r@ == self@,
    {
        self.duplicate()
    }
}

} // verus!
