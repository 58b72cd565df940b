//! Laws the store obeys, stated over the mathematical model of the tree and
//! proved once for every input.

use vstd::prelude::*;

use crate::ini::{get_spec, IniV};
use crate::map::{
    assoc_get, assoc_upsert, assoc_wf, merge_section, props_or_empty, tree_ensure, tree_lookup,
    tree_merge, tree_upsert, tree_wf, PropsV, TreeV,
};
use crate::parse::caser_spec;
use crate::strutil::{ascii_only, lemma_lower_ascii_idempotent, lower_of};

verus! {

/// The full meaning of a first-match lookup: the answer names an entry, and
/// a missing answer means no entry bears the key.
pub proof fn lemma_assoc_get_char<V>(m: Seq<(Seq<char>, V)>, k: Seq<char>)
    ensures
        match assoc_get(m, k) {
            Some(v) => exists|i: int|
                0 <= i < m.len() && m[i].0 == k && m[i].1 == v && (forall|j: int|
                    0 <= j < i ==> m[j].0 != k),
            None => forall|j: int| 0 <= j < m.len() ==> m[j].0 != k,
        },
    decreases m.len(),
{
    if m.len() == 0 {
    } else if m[0].0 == k {
        assert(0 <= 0 < m.len() && m[0].0 == k && m[0].1 == assoc_get(m, k).unwrap() && (forall|
            j: int,
        | 0 <= j < 0 ==> m[j].0 != k));
    } else {
        lemma_assoc_get_char(m.skip(1), k);
        match assoc_get(m.skip(1), k) {
            Some(v) => {
                let i = choose|i: int|
                    0 <= i < m.skip(1).len() && m.skip(1)[i].0 == k && m.skip(1)[i].1 == v && (
                    forall|j: int| 0 <= j < i ==> m.skip(1)[j].0 != k);
                assert(m[i + 1].0 == k && m[i + 1].1 == v);
                assert(forall|j: int| 1 <= j < i + 1 ==> m[j].0 == m.skip(1)[j - 1].0);
                assert(0 <= i + 1 < m.len() && m[i + 1].0 == k && m[i + 1].1 == v && (forall|
                    j: int,
                | 0 <= j < i + 1 ==> m[j].0 != k));
            },
            None => {
                assert(forall|j: int| 1 <= j < m.len() ==> m[j].0 == m.skip(1)[j - 1].0);
            },
        }
    }
}

/// Looking up the key just written answers the written value.
pub proof fn lemma_assoc_get_upsert_same<V>(m: Seq<(Seq<char>, V)>, k: Seq<char>, v: V)
    ensures
        assoc_get(assoc_upsert(m, k, v), k) == Some(v),
    decreases m.len(),
{
    if m.len() == 0 {
    } else if m[0].0 == k {
    } else {
        lemma_assoc_get_upsert_same(m.skip(1), k, v);
        assert((seq![m[0]] + assoc_upsert(m.skip(1), k, v)).skip(1) =~= assoc_upsert(
            m.skip(1),
            k,
            v,
        ));
    }
}

/// Writing one key leaves every other key's lookup unchanged.
pub proof fn lemma_assoc_get_upsert_other<V>(
    m: Seq<(Seq<char>, V)>,
    k: Seq<char>,
    v: V,
    k2: Seq<char>,
)
    requires
        k2 != k,
    ensures
        assoc_get(assoc_upsert(m, k, v), k2) == assoc_get(m, k2),
{
    lemma_assoc_get_char(m, k);
    match assoc_get(m, k) {
        Some(_) => {
            let i = choose|i: int|
                0 <= i < m.len() && m[i].0 == k && (forall|j: int| 0 <= j < i ==> m[j].0 != k);
            crate::map::lemma_assoc_upsert_idx(m, k, v, i);
            let u = m.update(i, (k, v));
            lemma_assoc_get_char(m, k2);
            match assoc_get(m, k2) {
                Some(v2) => {
                    let j = choose|j: int|
                        0 <= j < m.len() && m[j].0 == k2 && m[j].1 == v2 && (forall|q: int|
                            0 <= q < j ==> m[q].0 != k2);
                    assert(u[j] == m[j]);
                    crate::map::lemma_assoc_get_idx(u, k2, j);
                },
                None => {
                    crate::map::lemma_assoc_get_none(u, k2);
                },
            }
        },
        None => {
            crate::map::lemma_assoc_upsert_none(m, k, v);
            let u = m.push((k, v));
            lemma_assoc_get_char(m, k2);
            match assoc_get(m, k2) {
                Some(v2) => {
                    let j = choose|j: int|
                        0 <= j < m.len() && m[j].0 == k2 && m[j].1 == v2 && (forall|q: int|
                            0 <= q < j ==> m[q].0 != k2);
                    assert(u[j] == m[j]);
                    crate::map::lemma_assoc_get_idx(u, k2, j);
                },
                None => {
                    crate::map::lemma_assoc_get_none(u, k2);
                },
            }
        },
    }
}

/// Appending a fresh entry leaves every other key's lookup unchanged.
pub proof fn lemma_assoc_get_push_other<V>(m: Seq<(Seq<char>, V)>, x: (Seq<char>, V), k2: Seq<char>)
    requires
        x.0 != k2,
    ensures
        assoc_get(m.push(x), k2) == assoc_get(m, k2),
{
    lemma_assoc_get_char(m, k2);
    match assoc_get(m, k2) {
        Some(v2) => {
            let j = choose|j: int|
                0 <= j < m.len() && m[j].0 == k2 && m[j].1 == v2 && (forall|q: int|
                    0 <= q < j ==> m[q].0 != k2);
            assert(m.push(x)[j] == m[j]);
            crate::map::lemma_assoc_get_idx(m.push(x), k2, j);
        },
        None => {
            crate::map::lemma_assoc_get_none(m.push(x), k2);
        },
    }
}

/// A key other than the last entry's looks up the same in the shorter list.
pub proof fn lemma_assoc_get_drop_last_other<V>(m: Seq<(Seq<char>, V)>, k2: Seq<char>)
    requires
        m.len() > 0,
        m.last().0 != k2,
    ensures
        assoc_get(m, k2) == assoc_get(m.drop_last(), k2),
{
    lemma_assoc_get_char(m.drop_last(), k2);
    match assoc_get(m.drop_last(), k2) {
        Some(v2) => {
            let j = choose|j: int|
                0 <= j < m.drop_last().len() && m.drop_last()[j].0 == k2 && m.drop_last()[j].1
                    == v2 && (forall|q: int| 0 <= q < j ==> m.drop_last()[q].0 != k2);
            assert(m[j] == m.drop_last()[j]);
            assert(forall|q: int| 0 <= q < j ==> m[q] == m.drop_last()[q]);
            crate::map::lemma_assoc_get_idx(m, k2, j);
        },
        None => {
            assert(forall|q: int| 0 <= q < m.len() - 1 ==> m[q] == m.drop_last()[q]);
            crate::map::lemma_assoc_get_none(m, k2);
        },
    }
}

/// Making a section exist does not change what any key of it looks up to.
proof fn lemma_tree_ensure_lookup(t: TreeV, name: Seq<char>, k: Seq<char>)
    ensures
        tree_lookup(tree_ensure(t, name), name, k) == tree_lookup(t, name, k),
{
    if assoc_get(t, name) is None {
        lemma_assoc_get_char(t, name);
        crate::map::lemma_assoc_get_idx(
            t.push((name, Seq::<(Seq<char>, Option<Seq<char>>)>::empty())),
            name,
            t.len() as int,
        );
    }
}

/// Making one section exist leaves every other section's lookups unchanged.
proof fn lemma_tree_ensure_other(t: TreeV, name: Seq<char>, s2: Seq<char>, k2: Seq<char>)
    requires
        s2 != name,
    ensures
        tree_lookup(tree_ensure(t, name), s2, k2) == tree_lookup(t, s2, k2),
{
    if assoc_get(t, name) is None {
        lemma_assoc_get_push_other(
            t,
            (name, Seq::<(Seq<char>, Option<Seq<char>>)>::empty()),
            s2,
        );
    }
}

/// What one write does to lookups within its own section: the written key now
/// answers the value, every other key answers as before.
pub proof fn lemma_tree_upsert_lookup(
    t: TreeV,
    s: Seq<char>,
    k: Seq<char>,
    v: Option<Seq<char>>,
    k2: Seq<char>,
)
    ensures
        tree_lookup(tree_upsert(t, s, k, v), s, k2) == (if k2 == k {
            Some(v)
        } else {
            tree_lookup(t, s, k2)
        }),
{
    let inner = assoc_upsert(props_or_empty(t, s), k, v);
    lemma_assoc_get_upsert_same(t, s, inner);
    if k2 == k {
        lemma_assoc_get_upsert_same(props_or_empty(t, s), k, v);
    } else {
        lemma_assoc_get_upsert_other(props_or_empty(t, s), k, v, k2);
    }
}

/// One write leaves every other section's lookups unchanged.
pub proof fn lemma_tree_upsert_other(
    t: TreeV,
    s: Seq<char>,
    k: Seq<char>,
    v: Option<Seq<char>>,
    s2: Seq<char>,
    k2: Seq<char>,
)
    requires
        s2 != s,
    ensures
        tree_lookup(tree_upsert(t, s, k, v), s2, k2) == tree_lookup(t, s2, k2),
{
    lemma_assoc_get_upsert_other(t, s, assoc_upsert(props_or_empty(t, s), k, v), s2);
}

proof fn lemma_merge_section_lookup(tt: TreeV, name: Seq<char>, props: PropsV, k: Seq<char>)
    requires
        assoc_wf(props),
    ensures
        tree_lookup(merge_section(tt, name, props), name, k) == (match assoc_get(props, k) {
            Some(v) => Some(v),
            None => tree_lookup(tt, name, k),
        }),
    decreases props.len(),
{
    if props.len() == 0 {
        lemma_tree_ensure_lookup(tt, name, k);
    } else {
        let k2 = props.last().0;
        let v2 = props.last().1;
        let m1 = merge_section(tt, name, props.drop_last());
        assert(forall|q: int| 0 <= q < props.len() - 1 ==> props.drop_last()[q] == props[q]);
        lemma_merge_section_lookup(tt, name, props.drop_last(), k);
        if k == k2 {
            lemma_tree_upsert_lookup(m1, name, k2, v2, k);
            crate::map::lemma_assoc_get_idx(props, k, props.len() - 1);
        } else {
            lemma_tree_upsert_lookup(m1, name, k2, v2, k);
            lemma_assoc_get_drop_last_other(props, k);
        }
    }
}

proof fn lemma_merge_section_other(
    tt: TreeV,
    name: Seq<char>,
    props: PropsV,
    s2: Seq<char>,
    k2: Seq<char>,
)
    requires
        s2 != name,
    ensures
        tree_lookup(merge_section(tt, name, props), s2, k2) == tree_lookup(tt, s2, k2),
    decreases props.len(),
{
    if props.len() == 0 {
        lemma_tree_ensure_other(tt, name, s2, k2);
    } else {
        lemma_merge_section_other(tt, name, props.drop_last(), s2, k2);
        lemma_tree_upsert_other(
            merge_section(tt, name, props.drop_last()),
            name,
            props.last().0,
            props.last().1,
            s2,
            k2,
        );
    }
}

/// Law (merge semantics): merging a well-formed tree into another overwrites
/// exactly the incoming keys; a section or key the incoming tree does not
/// mention keeps its old value.
pub proof fn lemma_merge_semantics(t: TreeV, o: TreeV, s: Seq<char>, k: Seq<char>)
    requires
        tree_wf(o),
    ensures
        tree_lookup(tree_merge(t, o), s, k) == (match tree_lookup(o, s, k) {
            Some(v) => Some(v),
            None => tree_lookup(t, s, k),
        }),
    decreases o.len(),
{
    if o.len() == 0 {
    } else {
        let o1 = o.drop_last();
        let name = o.last().0;
        let props = o.last().1;
        assert(forall|q: int| 0 <= q < o.len() - 1 ==> o1[q] == o[q]);
        assert(tree_wf(o1));
        lemma_merge_semantics(t, o1, s, k);
        if s == name {
            assert(assoc_wf(props));
            lemma_merge_section_lookup(tree_merge(t, o1), name, props, k);
            crate::map::lemma_assoc_get_idx(o, name, o.len() - 1);
            crate::map::lemma_assoc_get_none(o1, name);
        } else {
            lemma_merge_section_other(tree_merge(t, o1), name, props, s, k);
            lemma_assoc_get_drop_last_other(o, s);
        }
    }
}

/// Law (last write wins): writing the same section and key twice stores the
/// second value.
pub proof fn lemma_last_write_wins(
    t: TreeV,
    s: Seq<char>,
    k: Seq<char>,
    v1: Option<Seq<char>>,
    v2: Option<Seq<char>>,
)
    ensures
        tree_lookup(tree_upsert(tree_upsert(t, s, k, v1), s, k, v2), s, k) == Some(v2),
{
    lemma_tree_upsert_lookup(tree_upsert(t, s, k, v1), s, k, v2, k);
}

/// Law (case-insensitivity): with case-folding on, `get` cannot tell two
/// spellings of a name apart: section and key arguments that fold alike
/// answer alike. With case-folding off, `get` looks names up exactly as
/// written.
pub proof fn lemma_get_case_insensitive(
    v: IniV,
    s1: Seq<char>,
    k1: Seq<char>,
    s2: Seq<char>,
    k2: Seq<char>,
)
    requires
        !v.cs,
        lower_of(s1) == lower_of(s2),
        lower_of(k1) == lower_of(k2),
    ensures
        get_spec(v, s1, k1) == get_spec(v, s2, k2),
{
}

/// Law (case-insensitivity, spelled out): with case-folding on, the upper-
/// and lower-case spellings of a name reach the same entry; in particular
/// `get` under `SECTION` and `KEY` answers as under `section` and `key`.
pub proof fn lemma_get_case_insensitive_spelling(v: IniV)
    requires
        !v.cs,
    ensures
        get_spec(v, "SECTION"@, "KEY"@) == get_spec(v, "section"@, "key"@),
{
    reveal_strlit("SECTION");
    reveal_strlit("section");
    reveal_strlit("KEY");
    reveal_strlit("key");
    assert(ascii_only("SECTION"@));
    assert(ascii_only("section"@));
    assert(ascii_only("KEY"@));
    assert(ascii_only("key"@));
    assert(lower_of("SECTION"@) =~= lower_of("section"@));
    assert(lower_of("KEY"@) =~= lower_of("key"@));
    lemma_get_case_insensitive(v, "SECTION"@, "KEY"@, "section"@, "key"@);
}

/// Law (folding is stable): with case-folding on, asking with the already
/// folded ASCII spellings of section and key answers exactly as asking with
/// the originals.
pub proof fn lemma_get_fold_stable(v: IniV, s: Seq<char>, k: Seq<char>)
    requires
        !v.cs,
        ascii_only(s),
        ascii_only(k),
    ensures
        get_spec(v, lower_of(s), lower_of(k)) == get_spec(v, s, k),
{
    lemma_lower_ascii_idempotent(s);
    lemma_lower_ascii_idempotent(k);
}

/// Law (valueless against missing): `get` answers nothing exactly when the
/// key is absent or stored without a value; only the map view tells those two
/// states apart.
pub proof fn lemma_valueless_vs_missing(v: IniV, s: Seq<char>, k: Seq<char>)
    ensures
        (get_spec(v, s, k) is None) <==> (tree_lookup(
            v.tree,
            caser_spec(v.cs, s),
            caser_spec(v.cs, k),
        ) is None || tree_lookup(v.tree, caser_spec(v.cs, s), caser_spec(v.cs, k)) == Some(
            None::<Seq<char>>,
        )),
{
}

} // verus!
