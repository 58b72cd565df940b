//! The round-trip law: a tree in the parser's canonical form, written out and
//! parsed again under the same options, comes back as the same mapping, and
//! unchanged in shape when the default section is absent or stands first;
//! and, under case-kept options, every successful parse yields such a tree,
//! so text parsed, written and parsed again keeps its meaning.

use vstd::prelude::*;

use crate::map::{assoc_get, assoc_wf, nl_rep, PropsV, TreeV};
use crate::parse::{
    caser_spec, ended_line, init_state, line_step, lines_spec, parse_lines, parse_spec, ParseError,
    ParseOpts, ParseState,
};
use crate::strutil::{
    find_in_set_spec, is_space_char, lemma_find_in_set_none, lemma_find_in_set_some,
    lemma_ltrim_skip, ltrim_spec, rtrim_spec, trim_spec,
};
use crate::unparse::{
    cont_lines_out, delim_out, entry_out, props_out, section_block_out, sections_out, unparse_spec,
    value_out,
};

verus! {

/// The lines folded over the state with the line number ignored: the numbers
/// only reach error payloads, so a successful run does not depend on them.
pub open spec fn run_all(ls: Seq<Seq<char>>, st: ParseState, o: ParseOpts) -> Option<ParseState>
    decreases ls.len(),
{
    if ls.len() == 0 {
        Some(st)
    } else {
        match line_step(st, ls[0], 0, o) {
            Ok(st2) => run_all(ls.skip(1), st2, o),
            Err(_) => None,
        }
    }
}

proof fn lemma_step_num(st: ParseState, l: Seq<char>, n1: int, n2: int, o: ParseOpts)
    ensures
        line_step(st, l, n1, o) is Ok ==> line_step(st, l, n2, o) == line_step(st, l, n1, o),
        line_step(st, l, n1, o) is Err ==> line_step(st, l, n2, o) is Err,
{
}

/// A successful numberless run is what `parse_lines` answers; a failing one
/// means `parse_lines` errs too.
pub proof fn lemma_run_all_parse_lines(ls: Seq<Seq<char>>, i: int, st: ParseState, o: ParseOpts)
    requires
        0 <= i <= ls.len(),
    ensures
        (match run_all(ls.skip(i), st, o) {
            Some(st2) => parse_lines(ls, i, st, o) == Ok::<TreeV, ParseError>(st2.tree),
            None => parse_lines(ls, i, st, o) is Err,
        }),
    decreases ls.len() - i,
{
    if i < ls.len() {
        assert(ls.skip(i)[0] == ls[i]);
        lemma_step_num(st, ls[i], 0, i, o);
        match line_step(st, ls[i], 0, o) {
            Ok(st2) => {
                assert(ls.skip(i).skip(1) =~= ls.skip(i + 1));
                lemma_run_all_parse_lines(ls, i + 1, st2, o);
            },
            Err(_) => {},
        }
    } else {
        assert(ls.skip(i) =~= Seq::<Seq<char>>::empty());
    }
}

/// Running a concatenation runs the first part, then the second from where it
/// left off.
pub proof fn lemma_run_all_concat(ls1: Seq<Seq<char>>, ls2: Seq<Seq<char>>, st: ParseState, o: ParseOpts)
    ensures
        run_all(ls1 + ls2, st, o) == (match run_all(ls1, st, o) {
            Some(st1) => run_all(ls2, st1, o),
            None => None::<ParseState>,
        }),
    decreases ls1.len(),
{
    if ls1.len() == 0 {
        assert(ls1 + ls2 =~= ls2);
    } else {
        assert((ls1 + ls2)[0] == ls1[0]);
        match line_step(st, ls1[0], 0, o) {
            Ok(st2) => {
                assert((ls1 + ls2).skip(1) =~= ls1.skip(1) + ls2);
                lemma_run_all_concat(ls1.skip(1), ls2, st2, o);
            },
            Err(_) => {
                assert((ls1 + ls2).skip(1) =~= ls1.skip(1) + ls2);
            },
        }
    }
}

/// Splitting a text that ends on a newline splits each part on its own.
pub proof fn lemma_lines_concat(a: Seq<char>, b: Seq<char>)
    requires
        a.len() > 0,
        a.last() == '\n',
    ensures
        lines_spec(a + b) == lines_spec(a) + lines_spec(b),
    decreases a.len(),
{
    let ab = a + b;
    crate::strutil::lemma_find_in_set_bounds(a, seq!['\n']);
    let fa = find_in_set_spec(a, seq!['\n']);
    assert(seq!['\n'][0] == '\n');
    assert(seq!['\n'].contains(a.last()));
    assert(fa is Some);
    let i = fa.unwrap();
    assert(seq!['\n'].contains(a[i]));
    assert(a[i] == '\n');
    assert(forall|j: int| 0 <= j < i ==> !seq!['\n'].contains(a[j]));
    assert(forall|j: int| 0 <= j < i ==> a[j] != '\n');
    assert(forall|j: int| 0 <= j < i ==> ab[j] == a[j]);
    crate::parse::lemma_find_nl(ab, i);
    assert(ab.take(i) =~= a.take(i));
    assert(ended_line(ab.take(i)) == ended_line(a.take(i)));
    if i == a.len() - 1 {
        assert(ab.skip(i + 1) =~= b);
        assert(a.skip(i + 1) =~= Seq::<char>::empty());
        assert(lines_spec(a) == seq![ended_line(a.take(i))] + lines_spec(a.skip(i + 1)));
        assert(lines_spec(a.skip(i + 1)) =~= Seq::<Seq<char>>::empty());
        assert(lines_spec(a) =~= seq![ended_line(a.take(i))]);
        assert(lines_spec(ab) == seq![ended_line(ab.take(i))] + lines_spec(b));
        assert(lines_spec(ab) =~= lines_spec(a) + lines_spec(b));
    } else {
        let a2 = a.skip(i + 1);
        assert(a2.len() > 0);
        assert(a2.last() == a.last());
        lemma_lines_concat(a2, b);
        assert(ab.skip(i + 1) =~= a2 + b);
        assert(lines_spec(ab) == seq![ended_line(ab.take(i))] + lines_spec(a2 + b));
        assert(lines_spec(a) == seq![ended_line(a.take(i))] + lines_spec(a2));
        assert(lines_spec(ab) =~= lines_spec(a) + lines_spec(b));
    }
}

/// A single newline-ended piece without inner newlines is one line.
pub proof fn lemma_lines_single(x: Seq<char>)
    requires
        !x.contains('\n'),
        x.len() > 0 ==> x.last() != '\r',
    ensures
        lines_spec(x + seq!['\n']) == seq![x],
{
    let a = x + seq!['\n'];
    assert(a[x.len() as int] == '\n');
    assert(forall|j: int| 0 <= j < x.len() ==> a[j] == x[j]);
    assert(forall|j: int| 0 <= j < x.len() ==> a[j] != '\n');
    crate::parse::lemma_find_nl(a, x.len() as int);
    assert(a.take(x.len() as int) =~= x);
    assert(ended_line(x) == x);
    assert(lines_spec(a) == seq![ended_line(a.take(x.len() as int))] + lines_spec(
        a.skip(x.len() as int + 1),
    ));
    assert(a.skip(x.len() as int + 1) =~= Seq::<char>::empty());
    assert(lines_spec(Seq::<char>::empty()) =~= Seq::<Seq<char>>::empty());
    assert(lines_spec(a) =~= seq![x]);
}

/// A run of blank lines is that many empty lines.
pub proof fn lemma_lines_blank(n: nat)
    ensures
        lines_spec(nl_rep(n)) =~= Seq::new(n, |q: int| Seq::<char>::empty()),
    decreases n,
{
    if n == 0 {
        assert(nl_rep(0) =~= Seq::<char>::empty());
    } else {
        let a = nl_rep(n);
        assert(a[0] == '\n');
        crate::parse::lemma_find_nl(a, 0);
        assert(a.take(0) =~= Seq::<char>::empty());
        assert(ended_line(Seq::<char>::empty()) =~= Seq::<char>::empty());
        assert(a.skip(1) =~= nl_rep((n - 1) as nat));
        lemma_lines_blank((n - 1) as nat);
        assert(lines_spec(a) =~= Seq::new(n, |q: int| Seq::<char>::empty()));
    }
}

/// A piece whose edges are not whitespace trims to itself.
pub proof fn lemma_trim_stable(x: Seq<char>)
    requires
        x.len() == 0 || (!is_space_char(x[0]) && !is_space_char(x.last())),
    ensures
        trim_spec(x) == x,
{
}


/// Grammar parameters under which written text reads back: the characters
/// the writer emits (brackets, the equals sign, the spacing) do not double as
/// comment, inline comment or delimiter characters.
pub open spec fn writable_opts(o: ParseOpts, space: bool) -> bool {
    o.delims.contains('=') && !o.comment.contains('[') && !o.inline.contains('[')
        && !o.inline.contains(']') && !o.inline.contains('=') && !o.inline.contains(' ') && (space
        ==> !o.delims.contains(' '))
}

/// A key as the parser stores it: non-empty, trimmed, on one line, not
/// opening a bracket or a comment, free of delimiter and inline-comment
/// characters, and left unchanged by the store's case folding (as written
/// when case-sensitive, already folded otherwise).
pub open spec fn writable_key(k: Seq<char>, o: ParseOpts) -> bool {
    k.len() > 0 && !is_space_char(k[0]) && !is_space_char(k.last()) && !k.contains('\n') && k[0]
        != '[' && !o.comment.contains(k[0]) && caser_spec(o.cs, k) == k && (forall|i: int|
        0 <= i < k.len() ==> !o.delims.contains(#[trigger] k[i]) && !o.inline.contains(k[i]))
}

/// A value as the parser stores it with multiline off: trimmed, on one line,
/// and free of inline-comment characters.
pub open spec fn writable_value(v: Seq<char>, o: ParseOpts) -> bool {
    (v.len() == 0 || (!is_space_char(v[0]) && !is_space_char(v.last()))) && !v.contains('\n') && (
    forall|i: int| 0 <= i < v.len() ==> !o.inline.contains(#[trigger] v[i]))
}

/// The lines joined back into one text, a newline between each two.
pub open spec fn join_lines(ls: Seq<Seq<char>>) -> Seq<char>
    decreases ls.len(),
{
    if ls.len() == 0 {
        Seq::empty()
    } else if ls.len() == 1 {
        ls[0]
    } else {
        join_lines(ls.drop_last()) + seq!['\n'] + ls.last()
    }
}

/// One line of a stored multiline value: trimmed, no inner newline, free of
/// inline-comment characters; a later line must not open a bracket or a
/// comment, since it is re-read as a continuation.
pub open spec fn writable_vline(l: Seq<char>, first: bool, o: ParseOpts) -> bool {
    !l.contains('\n') && (l.len() == 0 || (!is_space_char(l[0]) && !is_space_char(l.last()))) && (
    forall|q: int| 0 <= q < l.len() ==> !o.inline.contains(#[trigger] l[q])) && ((!first
        && l.len() > 0) ==> (l[0] != '[' && !o.comment.contains(l[0])))
}

/// A value as a multiline-mode parse stores it: its lines joined by plain
/// newlines, each line in writable form, the last one non-empty.
pub open spec fn writable_value_ml(v: Seq<char>, o: ParseOpts) -> bool {
    let ls = lines_spec(v);
    join_lines(ls) == v && (ls.len() > 0 ==> ls.last().len() > 0) && (forall|i: int|
        0 <= i < ls.len() ==> writable_vline(#[trigger] ls[i], i == 0, o))
}

/// A value as the parser stores it, under either multiline setting.
pub open spec fn writable_val(v: Seq<char>, o: ParseOpts) -> bool {
    if o.multiline {
        writable_value_ml(v, o)
    } else {
        writable_value(v, o)
    }
}

/// A section name as the parser stores it: trimmed, on one line, free of
/// inline-comment characters, and left unchanged by the store's case folding.
pub open spec fn writable_name(n: Seq<char>, o: ParseOpts) -> bool {
    (n.len() == 0 || (!is_space_char(n[0]) && !is_space_char(n.last()))) && !n.contains('\n')
        && caser_spec(o.cs, n) == n && (forall|i: int|
        0 <= i < n.len() ==> !o.inline.contains(#[trigger] n[i]))
}

/// A section's properties as the parser stores them: keys unique, each entry
/// in writable form.
pub open spec fn writable_props(ps: PropsV, o: ParseOpts) -> bool {
    assoc_wf(ps) && (forall|i: int|
        0 <= i < ps.len() ==> writable_key(#[trigger] ps[i].0, o) && (match ps[i].1 {
            Some(v) => writable_val(v, o),
            None => true,
        }))
}

/// A tree of sections as the parser produces them: names unique and writable,
/// every section's properties writable.
pub open spec fn writable_sections(t: TreeV, o: ParseOpts) -> bool {
    assoc_wf(t) && (forall|i: int|
        0 <= i < t.len() ==> writable_name(#[trigger] t[i].0, o) && writable_props(t[i].1, o))
}

/// A tree as the writer can render it: writable sections, and the default
/// section, if present, not empty, since an empty default section has no text
/// form.
pub open spec fn writable_tree(t: TreeV, d: Seq<char>, o: ParseOpts) -> bool {
    writable_sections(t, o) && (match assoc_get(t, d) {
        Some(dp) => dp.len() > 0,
        None => true,
    })
}

/// The text of one key line, without its line ending.
pub open spec fn entry_body(key: Seq<char>, val: Option<Seq<char>>, space: bool) -> Seq<char> {
    key + (match val {
        None => Seq::<char>::empty(),
        Some(v) => delim_out(space, v.len() == 0) + v,
    })
}

/// A blank line only counts blanks.
proof fn lemma_blank_step(st: ParseState, o: ParseOpts)
    ensures
        line_step(st, Seq::<char>::empty(), 0, o) == Ok::<ParseState, ParseError>(
            (ParseState { blanks: st.blanks + 1, ..st }),
        ),
{
}

/// A writable key line is one output line, and parsing it writes exactly that
/// key and value into the current section.
proof fn lemma_entry_step(
    st: ParseState,
    key: Seq<char>,
    val: Option<Seq<char>>,
    o: ParseOpts,
    space: bool,
    indent: nat,
)
    requires
        writable_opts(o, space),
        writable_key(key, o),
        (match val {
            Some(v) => writable_value(v, o),
            None => true,
        }),
        (o.multiline && val is Some && val.unwrap().len() > 0) ==> lines_spec(val.unwrap())
            == seq![val.unwrap()],
    ensures
        lines_spec(entry_out(key, val, o.multiline, space, indent)) == seq![
            entry_body(key, val, space),
        ],
        line_step(st, entry_body(key, val, space), 0, o) == Ok::<ParseState, ParseError>(
            (ParseState {
                tree: crate::map::tree_upsert(st.tree, st.section, key, val),
                section: st.section,
                cur_key: Some(key),
                blanks: 0,
            }),
        ),
{
    let body = entry_body(key, val, space);
    // the entry is one line
    assert(forall|j: int| 0 <= j < key.len() ==> body[j] == key[j]);
    assert forall|j: int| 0 <= j < body.len() implies body[j] != '\n' by {
        lemma_body_char(key, val, space, j);
    }
    assert(!body.contains('\n'));
    assert(body.last() != '\n' && !is_space_char(body.last())) by {
        lemma_body_char(key, val, space, body.len() - 1);
    }
    assert(match val {
        Some(v) => value_out(v, o.multiline, indent) =~= v,
        None => true,
    }) by {
        if o.multiline {
            match val {
                Some(v) => {
                    if v.len() > 0 {
                        assert(lines_spec(v) == seq![v]);
                        assert(lines_spec(v).skip(1) =~= Seq::<Seq<char>>::empty());
                        assert(cont_lines_out(lines_spec(v).skip(1), indent) =~= Seq::<
                            char,
                        >::empty());
                        assert(value_out(v, o.multiline, indent) =~= v);
                    } else {
                        assert(lines_spec(v) =~= Seq::<Seq<char>>::empty());
                        assert(value_out(v, o.multiline, indent) =~= v);
                    }
                },
                None => {},
            }
        }
    }
    assert(entry_out(key, val, o.multiline, space, indent) =~= body + seq!['\n']);
    lemma_lines_single(body);

    // the line is already trimmed
    assert(body[0] == key[0]);
    lemma_trim_stable(body);

    // it is not a comment and not blank
    assert(!o.comment.contains(body[0]));

    // no inline comment character occurs
    assert forall|j: int| 0 <= j < body.len() implies !o.inline.contains(body[j]) by {
        lemma_body_char(key, val, space, j);
    }
    lemma_find_in_set_none(body, o.inline);

    // it is not a section header
    assert(body[0] != '[');

    // the delimiter search finds the written equals sign, or nothing for a
    // valueless key
    match val {
        None => {
            assert(body =~= key);
            assert forall|j: int| 0 <= j < body.len() implies !o.delims.contains(body[j]) by {}
            lemma_find_in_set_none(body, o.delims);
            assert(line_step(st, body, 0, o) == Ok::<ParseState, ParseError>(
                (ParseState {
                    tree: crate::map::tree_upsert(st.tree, st.section, key, None),
                    section: st.section,
                    cur_key: Some(key),
                    blanks: 0,
                }),
            ));
        },
        Some(v) => {
            let dl = delim_out(space, v.len() == 0);
            let dpos: int = key.len() + (if space {
                1int
            } else {
                0int
            });
            assert(body[dpos] == dl[dpos - key.len()]);
            assert(body[dpos] == '=');
            assert forall|j: int| 0 <= j < dpos implies !o.delims.contains(body[j]) by {
                if j < key.len() {
                    assert(body[j] == key[j]);
                } else {
                    assert(body[j] == dl[0]);
                    assert(body[j] == ' ');
                }
            }
            lemma_find_in_set_some(body, o.delims, dpos);
            // the key part trims back to the key
            if space {
                assert(body.take(dpos) =~= key + seq![' ']);
                assert(ltrim_spec(key + seq![' ']) == key + seq![' ']);
                assert((key + seq![' ']).drop_last() =~= key);
                assert(rtrim_spec(key + seq![' ']) == rtrim_spec(key));
                assert(rtrim_spec(key) == key);
                assert(trim_spec(body.take(dpos)) == key);
            } else {
                assert(body.take(dpos) =~= key);
                lemma_trim_stable(key);
            }
            assert(key.len() > 0);
            // the value part trims back to the value
            if v.len() == 0 {
                assert(body.skip(dpos + 1) =~= Seq::<char>::empty());
                assert(trim_spec(body.skip(dpos + 1)) =~= v);
            } else if space {
                assert(body.skip(dpos + 1) =~= seq![' '] + v);
                assert(forall|j: int| 0 <= j < 1 ==> is_space_char((seq![' '] + v)[j]));
                lemma_ltrim_skip(seq![' '] + v, 1);
                assert((seq![' '] + v).skip(1) =~= v);
                assert(ltrim_spec(v) == v);
                assert(rtrim_spec(v) == v);
                assert(trim_spec(body.skip(dpos + 1)) == v);
            } else {
                assert(body.skip(dpos + 1) =~= v);
                lemma_trim_stable(v);
            }
            assert(line_step(st, body, 0, o) == Ok::<ParseState, ParseError>(
                (ParseState {
                    tree: crate::map::tree_upsert(st.tree, st.section, key, Some(v)),
                    section: st.section,
                    cur_key: Some(key),
                    blanks: 0,
                }),
            ));
        },
    }
}

/// What stands at each position of a key line: a key character, the
/// delimiter, or a value character.
proof fn lemma_body_char(key: Seq<char>, val: Option<Seq<char>>, space: bool, j: int)
    requires
        0 <= j < entry_body(key, val, space).len(),
    ensures
        (exists|q: int| 0 <= q < key.len() && entry_body(key, val, space)[j] == key[q]) || (
        entry_body(key, val, space)[j] == '=') || (entry_body(key, val, space)[j] == ' ') || (
        match val {
            Some(v) => exists|q: int| 0 <= q < v.len() && entry_body(key, val, space)[j] == v[q],
            None => false,
        }),
{
    let body = entry_body(key, val, space);
    if j < key.len() {
        assert(body[j] == key[j]);
    } else {
        match val {
            None => {},
            Some(v) => {
                let dl = delim_out(space, v.len() == 0);
                if j < key.len() + dl.len() {
                    assert(body[j] == dl[j - key.len()]);
                    assert(dl[j - key.len()] == '=' || dl[j - key.len()] == ' ');
                } else {
                    assert(body[j] == v[j - key.len() - dl.len()]);
                }
            },
        }
    }
}

/// A writable header line is one output line, and parsing it opens exactly
/// that section, creating it when new.
proof fn lemma_header_step(st: ParseState, name: Seq<char>, o: ParseOpts, space: bool)
    requires
        writable_opts(o, space),
        writable_name(name, o),
    ensures
        lines_spec(seq!['['] + name + seq![']', '\n']) == seq![seq!['['] + name + seq![']']],
        line_step(st, seq!['['] + name + seq![']'], 0, o) == Ok::<ParseState, ParseError>(
            (ParseState {
                tree: crate::map::tree_ensure(st.tree, name),
                section: name,
                ..st
            }),
        ),
{
    let body = seq!['['] + name + seq![']'];
    assert(body[0] == '[');
    assert(body.last() == ']');
    assert(forall|j: int| 0 <= j < name.len() ==> body[j + 1] == name[j]);
    assert forall|j: int| 0 <= j < body.len() implies body[j] != '\n' && !o.inline.contains(
        body[j],
    ) by {
        if 1 <= j < body.len() - 1 {
            assert(body[j] == name[j - 1]);
        }
    }
    assert(!body.contains('\n'));
    assert(seq!['['] + name + seq![']', '\n'] =~= body + seq!['\n']);
    lemma_lines_single(body);

    lemma_trim_stable(body);
    assert(!o.comment.contains(body[0]));
    lemma_find_in_set_none(body, o.inline);
    // the closing bracket is the last character, so the backwards search
    // answers at once
    assert(crate::strutil::rfind_spec(body, ']') == Some(body.len() - 1));
    assert(body.subrange(1, body.len() - 1) =~= name);
    lemma_trim_stable(name);
}



/// One written continuation line: the indentation and the text, or nothing
/// for a blank line of the value.
pub open spec fn cline(l: Seq<char>, indent: nat) -> Seq<char> {
    if l.len() > 0 {
        crate::unparse::spaces(indent) + l
    } else {
        Seq::<char>::empty()
    }
}

/// The written continuation lines of a value's later lines.
pub open spec fn clist_of(cs: Seq<Seq<char>>, indent: nat) -> Seq<Seq<char>> {
    Seq::new(cs.len(), |i: int| cline(cs[i], indent))
}

/// Writing the same key twice keeps only the second value, in place.
proof fn lemma_assoc_upsert_upsert<V>(m: Seq<(Seq<char>, V)>, k: Seq<char>, a: V, b: V)
    ensures
        crate::map::assoc_upsert(crate::map::assoc_upsert(m, k, a), k, b)
            =~= crate::map::assoc_upsert(m, k, b),
    decreases m.len(),
{
    if m.len() == 0 {
    } else if m[0].0 == k {
        assert((seq![(k, a)] + m.skip(1)).skip(1) =~= m.skip(1));
    } else {
        lemma_assoc_upsert_upsert(m.skip(1), k, a, b);
        assert((seq![m[0]] + crate::map::assoc_upsert(m.skip(1), k, a)).skip(1)
            =~= crate::map::assoc_upsert(m.skip(1), k, a));
    }
}

/// Writing a key and then writing it again leaves only the second write.
proof fn lemma_upsert_collapse(
    t: TreeV,
    st: Seq<char>,
    k: Seq<char>,
    v1: Option<Seq<char>>,
    v2: Option<Seq<char>>,
)
    ensures
        crate::map::tree_upsert(crate::map::tree_upsert(t, st, k, v1), st, k, v2)
            =~= crate::map::tree_upsert(t, st, k, v2),
{
    let p0 = crate::map::props_or_empty(t, st);
    let inner1 = crate::map::assoc_upsert(p0, k, v1);
    crate::laws::lemma_assoc_get_upsert_same(t, st, inner1);
    assert(crate::map::props_or_empty(crate::map::tree_upsert(t, st, k, v1), st) == inner1);
    lemma_assoc_upsert_upsert(p0, k, v1, v2);
    lemma_assoc_upsert_upsert(t, st, inner1, crate::map::assoc_upsert(inner1, k, v2));
    assert(crate::map::assoc_upsert(inner1, k, v2) =~= crate::map::assoc_upsert(p0, k, v2));
}

/// A joined list of two or more lines starts with its first line.
proof fn lemma_join_front(ll: Seq<Seq<char>>)
    requires
        ll.len() >= 2,
    ensures
        join_lines(ll) == ll[0] + seq!['\n'] + join_lines(ll.skip(1)),
    decreases ll.len(),
{
    if ll.len() == 2 {
        assert(ll.drop_last() =~= seq![ll[0]]);
        assert(ll.skip(1) =~= seq![ll[1]]);
        assert(join_lines(seq![ll[0]]) == ll[0]);
        assert(join_lines(seq![ll[1]]) == ll[1]);
    } else {
        lemma_join_front(ll.drop_last());
        assert(ll.drop_last()[0] == ll[0]);
        assert(ll.drop_last().skip(1) =~= ll.skip(1).drop_last());
        assert(ll.skip(1).len() >= 2);
        assert(ll.skip(1).last() == ll.last());
        assert(join_lines(ll.skip(1)) == join_lines(ll.skip(1).drop_last()) + seq!['\n']
            + ll.last());
        assert(join_lines(ll) == join_lines(ll.drop_last()) + seq!['\n'] + ll.last());
        assert(join_lines(ll) =~= ll[0] + seq!['\n'] + join_lines(ll.skip(1)));
    }
}

/// Joining the key line and the written continuation lines spells the entry's
/// text.
proof fn lemma_cont_join(b0: Seq<char>, cs: Seq<Seq<char>>, indent: nat)
    ensures
        join_lines(seq![b0] + clist_of(cs, indent)) == b0 + cont_lines_out(cs, indent),
    decreases cs.len(),
{
    let ll = seq![b0] + clist_of(cs, indent);
    if cs.len() == 0 {
        assert(ll =~= seq![b0]);
        assert(join_lines(seq![b0]) == b0);
        assert(b0 + cont_lines_out(cs, indent) =~= b0);
    } else {
        lemma_cont_join(b0, cs.drop_last(), indent);
        assert(ll.drop_last() =~= seq![b0] + clist_of(cs.drop_last(), indent));
        assert(ll.len() >= 2);
        assert(ll.last() == cline(cs.last(), indent));
        assert(join_lines(ll) == join_lines(ll.drop_last()) + seq!['\n'] + cline(
            cs.last(),
            indent,
        ));
        assert(cont_lines_out(cs, indent) == cont_lines_out(cs.drop_last(), indent) + seq!['\n']
            + (if cs.last().len() > 0 {
            crate::unparse::spaces(indent) + cs.last()
        } else {
            Seq::<char>::empty()
        }));
        assert(cline(cs.last(), indent) == (if cs.last().len() > 0 {
            crate::unparse::spaces(indent) + cs.last()
        } else {
            Seq::<char>::empty()
        }));
        assert(join_lines(ll) =~= b0 + cont_lines_out(cs, indent));
    }
}

/// Splitting a joined, newline-ended list of clean lines gives the list back.
proof fn lemma_lines_unjoin(ll: Seq<Seq<char>>)
    requires
        ll.len() >= 1,
        forall|i: int|
            0 <= i < ll.len() ==> !(#[trigger] ll[i]).contains('\n') && (ll[i].len() > 0
                ==> ll[i].last() != '\r'),
    ensures
        lines_spec(join_lines(ll) + seq!['\n']) == ll,
    decreases ll.len(),
{
    if ll.len() == 1 {
        assert(join_lines(ll) == ll[0]);
        lemma_lines_single(ll[0]);
        assert(lines_spec(join_lines(ll) + seq!['\n']) =~= ll);
    } else {
        lemma_join_front(ll);
        let rest = join_lines(ll.skip(1)) + seq!['\n'];
        let head = ll[0] + seq!['\n'];
        assert(join_lines(ll) + seq!['\n'] =~= head + rest);
        lemma_lines_single(ll[0]);
        assert(head.last() == '\n');
        lemma_lines_concat(head, rest);
        assert(forall|i: int| 0 <= i < ll.skip(1).len() ==> ll.skip(1)[i] == ll[i + 1]);
        lemma_lines_unjoin(ll.skip(1));
        assert(lines_spec(join_lines(ll) + seq!['\n']) =~= ll);
    }
}

/// Joining one more line appends a newline and that line.
proof fn lemma_join_push(ls: Seq<Seq<char>>, q: int)
    requires
        1 <= q < ls.len(),
    ensures
        join_lines(ls.take(q + 1)) == join_lines(ls.take(q)) + seq!['\n'] + ls[q],
{
    assert(ls.take(q + 1).drop_last() =~= ls.take(q));
    assert(ls.take(q + 1).last() == ls[q]);
}

/// Blank lines of a value join into a run of newlines.
proof fn lemma_join_take_blanks(ls: Seq<Seq<char>>, p: int, j: int)
    requires
        1 <= p <= j <= ls.len(),
        forall|q: int| p <= q < j ==> ls[q].len() == 0,
    ensures
        join_lines(ls.take(j)) == join_lines(ls.take(p)) + nl_rep((j - p) as nat),
    decreases j - p,
{
    if j == p {
        assert(nl_rep(0) =~= Seq::<char>::empty());
        assert(join_lines(ls.take(p)) + nl_rep(0) =~= join_lines(ls.take(p)));
    } else {
        lemma_join_take_blanks(ls, p, j - 1);
        lemma_join_push(ls, j - 1);
        assert(ls[j - 1] =~= Seq::<char>::empty());
        assert(join_lines(ls.take(j)) =~= join_lines(ls.take(p)) + nl_rep((j - 1 - p) as nat)
            + seq!['\n']);
        assert(nl_rep((j - 1 - p) as nat) + seq!['\n'] =~= nl_rep((j - p) as nat));
        assert(join_lines(ls.take(j)) =~= join_lines(ls.take(p)) + nl_rep((j - p) as nat));
    }
}

/// A written key line whose value continues on later lines: parsing it writes
/// the value's first line under the key.
proof fn lemma_keyline_step(
    st: ParseState,
    key: Seq<char>,
    ls0: Seq<char>,
    o: ParseOpts,
    space: bool,
)
    requires
        writable_opts(o, space),
        writable_key(key, o),
        writable_vline(ls0, true, o),
    ensures
        line_step(st, key + delim_out(space, false) + ls0, 0, o) == Ok::<ParseState, ParseError>(
            (ParseState {
                tree: crate::map::tree_upsert(st.tree, st.section, key, Some(ls0)),
                section: st.section,
                cur_key: Some(key),
                blanks: 0,
            }),
        ),
{
    let dl = delim_out(space, false);
    let body = key + dl + ls0;
    assert(body[0] == key[0]);
    assert(forall|j: int| 0 <= j < key.len() ==> body[j] == key[j]);
    // trim: at most the delimiter's trailing space goes
    let dpos: int = key.len() + (if space {
        1int
    } else {
        0int
    });
    let line: Seq<char> = if space && ls0.len() == 0 {
        key + seq![' ', '=']
    } else {
        body
    };
    assert(ltrim_spec(body) == body);
    if space && ls0.len() == 0 {
        assert(body.last() == ' ');
        assert(rtrim_spec(body) == rtrim_spec(body.drop_last()));
        assert(body.drop_last() =~= key + seq![' ', '=']);
        assert((key + seq![' ', '=']).last() == '=');
        assert(rtrim_spec(key + seq![' ', '=']) == key + seq![' ', '=']);
        assert(trim_spec(body) == line);
    } else {
        if ls0.len() > 0 {
            assert(body.last() == ls0.last());
        } else {
            assert(body.last() == '=');
        }
        assert(rtrim_spec(body) == body);
        assert(trim_spec(body) == line);
    }
    // not a comment, not blank, no inline comment character
    assert(line[0] == key[0]);
    assert(!o.comment.contains(line[0]));
    assert(line.len() > 0);
    assert forall|j: int| 0 <= j < line.len() implies !o.inline.contains(line[j]) by {
        if j < key.len() {
            assert(line[j] == key[j]);
        } else if j < dpos + 1 {
            assert(line[j] == '=' || line[j] == ' ') by {
                if space && ls0.len() == 0 {
                } else {
                    assert(line[j] == dl[j - key.len()]);
                }
            }
        } else {
            assert((key + seq![' ', '=']).len() == key.len() + 2);
            assert(!(space && ls0.len() == 0));
            assert(line == body);
            if j < key.len() + dl.len() {
                assert(line[j] == dl[j - key.len()]);
                assert(line[j] == '=' || line[j] == ' ');
            } else {
                assert(line[j] == ls0[j - key.len() - dl.len()]);
            }
        }
    }
    lemma_find_in_set_none(line, o.inline);
    assert(trim_spec(line) == line) by {
        if space && ls0.len() == 0 {
            assert(line.last() == '=');
        } else if ls0.len() > 0 {
            assert(line.last() == ls0.last());
        } else {
            assert(line.last() == '=');
        }
        lemma_trim_stable(line);
    }
    // not a header, not a continuation
    assert(line[0] != '[');
    assert(!is_space_char(line[0]));
    // the delimiter search finds the written equals sign
    assert(line[dpos] == '=') by {
        if space && ls0.len() == 0 {
        } else {
            assert(line[dpos] == dl[dpos - key.len()]);
        }
    }
    assert forall|j: int| 0 <= j < dpos implies !o.delims.contains(line[j]) by {
        if j < key.len() {
            assert(line[j] == key[j]);
        } else {
            assert(line[j] == ' ') by {
                if space && ls0.len() == 0 {
                } else {
                    assert(line[j] == dl[0]);
                }
            }
        }
    }
    lemma_find_in_set_some(line, o.delims, dpos);
    // the key part trims back to the key
    if space {
        assert(line.take(dpos) =~= key + seq![' ']);
        assert(ltrim_spec(key + seq![' ']) == key + seq![' ']);
        assert((key + seq![' ']).drop_last() =~= key);
        assert(rtrim_spec(key + seq![' ']) == rtrim_spec(key));
        assert(rtrim_spec(key) == key);
        assert(trim_spec(line.take(dpos)) == key);
    } else {
        assert(line.take(dpos) =~= key);
        lemma_trim_stable(key);
    }
    // the value part trims back to the value's first line
    if ls0.len() == 0 {
        assert(line.skip(dpos + 1) =~= Seq::<char>::empty());
        assert(trim_spec(line.skip(dpos + 1)) =~= ls0);
    } else if space {
        assert(line.skip(dpos + 1) =~= seq![' '] + ls0);
        assert(forall|j: int| 0 <= j < 1 ==> is_space_char((seq![' '] + ls0)[j]));
        lemma_ltrim_skip(seq![' '] + ls0, 1);
        assert((seq![' '] + ls0).skip(1) =~= ls0);
        assert(ltrim_spec(ls0) == ls0);
        assert(rtrim_spec(ls0) == ls0);
        assert(trim_spec(line.skip(dpos + 1)) == ls0);
    } else {
        assert(line.skip(dpos + 1) =~= ls0);
        lemma_trim_stable(ls0);
    }
}

/// A written continuation line: parsing it joins the text onto the current
/// key, one newline per pending blank line and one more between.
proof fn lemma_cont_step(st: ParseState, l: Seq<char>, o: ParseOpts, indent: nat)
    requires
        o.multiline,
        indent >= 1,
        writable_vline(l, false, o),
        l.len() > 0,
        st.cur_key is Some,
    ensures
        line_step(st, cline(l, indent), 0, o) == Ok::<ParseState, ParseError>(
            (ParseState {
                tree: crate::map::tree_continue(
                    st.tree,
                    st.section,
                    st.cur_key.unwrap(),
                    st.blanks,
                    l,
                ),
                section: st.section,
                cur_key: st.cur_key,
                blanks: 0,
            }),
        ),
{
    let raw = cline(l, indent);
    let sp = crate::unparse::spaces(indent);
    assert(raw =~= sp + l);
    assert(forall|j: int| 0 <= j < indent ==> is_space_char(raw[j]));
    assert(forall|j: int| 0 <= j < l.len() ==> raw[j + indent] == l[j]);
    lemma_ltrim_skip(raw, indent as int);
    assert(raw.skip(indent as int) =~= l);
    assert(ltrim_spec(l) == l);
    assert(rtrim_spec(l) == l);
    assert(trim_spec(raw) == l);
    assert(!o.comment.contains(l[0]));
    lemma_find_in_set_none(l, o.inline);
    lemma_trim_stable(l);
    assert(l[0] != '[');
    assert(raw[0] == ' ');
    assert(is_space_char(raw[0]));
}

/// Running a value's continuation lines rebuilds the stored value, line by
/// line.
proof fn lemma_cont_run(
    t0: TreeV,
    sname: Seq<char>,
    key: Seq<char>,
    v: Seq<char>,
    j: int,
    p: int,
    st: ParseState,
    o: ParseOpts,
    indent: nat,
)
    requires
        o.multiline,
        indent >= 1,
        writable_value_ml(v, o),
        lines_spec(v).len() > 0,
        1 <= p <= j <= lines_spec(v).len(),
        forall|q: int| p <= q < j ==> lines_spec(v)[q].len() == 0,
        st.section == sname,
        st.cur_key == Some(key),
        st.blanks == (j - p) as nat,
        st.tree == crate::map::tree_upsert(
            t0,
            sname,
            key,
            Some(join_lines(lines_spec(v).take(p))),
        ),
    ensures
        (match run_all(clist_of(lines_spec(v).skip(1), indent).skip(j - 1), st, o) {
            Some(st2) => st2 == (ParseState {
                tree: crate::map::tree_upsert(t0, sname, key, Some(v)),
                section: sname,
                cur_key: Some(key),
                blanks: 0,
            }),
            None => false,
        }),
    decreases lines_spec(v).len() - j,
{
    let ls = lines_spec(v);
    let cl = clist_of(ls.skip(1), indent);
    if j == ls.len() {
        assert(p == ls.len()) by {
            if p < ls.len() {
                assert(ls[ls.len() - 1].len() == 0);
            }
        }
        assert(ls.take(p) =~= ls);
        assert(join_lines(ls) == v);
        assert(cl.skip(j - 1) =~= Seq::<Seq<char>>::empty());
        assert(st == (ParseState {
            tree: crate::map::tree_upsert(t0, sname, key, Some(v)),
            section: sname,
            cur_key: Some(key),
            blanks: 0,
        }));
    } else {
        let l = ls[j];
        assert(cl.skip(j - 1)[0] == cline(ls.skip(1)[j - 1], indent));
        assert(ls.skip(1)[j - 1] == l);
        assert(cl.skip(j - 1).skip(1) =~= cl.skip(j));
        if l.len() == 0 {
            assert(cline(l, indent) =~= Seq::<char>::empty());
            lemma_blank_step(st, o);
            let st2 = ParseState { blanks: st.blanks + 1, ..st };
            assert(st2.blanks == (j + 1 - p) as nat);
            lemma_cont_run(t0, sname, key, v, j + 1, p, st2, o, indent);
        } else {
            assert(writable_vline(l, false, o));
            lemma_cont_step(st, l, o, indent);
            let prev = join_lines(ls.take(p));
            crate::laws::lemma_tree_upsert_lookup(t0, sname, key, Some(prev), key);
            assert(crate::map::tree_lookup(st.tree, sname, key) == Some(Some(prev)));
            assert(crate::map::assoc_get(
                crate::map::props_or_empty(st.tree, sname),
                key,
            ) == Some(Some(prev))) by {
                match crate::map::assoc_get(st.tree, sname) {
                    Some(_) => {},
                    None => {},
                }
            }
            let newval = crate::map::cont_value(Some(Some(prev)), st.blanks, l);
            assert(crate::map::tree_continue(st.tree, sname, key, st.blanks, l)
                == crate::map::tree_upsert(st.tree, sname, key, Some(newval)));
            lemma_join_take_blanks(ls, p, j);
            lemma_join_push(ls, j);
            assert(newval =~= prev + nl_rep((j - p + 1) as nat) + l);
            assert(nl_rep((j - p) as nat) + seq!['\n'] =~= nl_rep((j - p + 1) as nat));
            assert(join_lines(ls.take(j + 1)) =~= prev + nl_rep((j - p + 1) as nat) + l);
            assert(newval == join_lines(ls.take(j + 1)));
            lemma_upsert_collapse(t0, sname, key, Some(prev), Some(newval));
            let st2 = ParseState {
                tree: crate::map::tree_continue(st.tree, sname, key, st.blanks, l),
                section: sname,
                cur_key: Some(key),
                blanks: 0,
            };
            assert(st2.tree == crate::map::tree_upsert(
                t0,
                sname,
                key,
                Some(join_lines(ls.take(j + 1))),
            ));
            lemma_cont_run(t0, sname, key, v, j + 1, j + 1, st2, o, indent);
        }
    }
}

/// Running one whole entry, under either multiline setting: its lines write
/// exactly that key and value into the current section.
proof fn lemma_entry_run(
    st: ParseState,
    key: Seq<char>,
    val: Option<Seq<char>>,
    o: ParseOpts,
    space: bool,
    indent: nat,
)
    requires
        writable_opts(o, space),
        writable_key(key, o),
        (match val {
            Some(v) => writable_val(v, o),
            None => true,
        }),
        o.multiline ==> indent >= 1,
    ensures
        (match run_all(lines_spec(entry_out(key, val, o.multiline, space, indent)), st, o) {
            Some(st2) => st2 == (ParseState {
                tree: crate::map::tree_upsert(st.tree, st.section, key, val),
                section: st.section,
                cur_key: Some(key),
                blanks: 0,
            }),
            None => false,
        }),
{
    let target = ParseState {
        tree: crate::map::tree_upsert(st.tree, st.section, key, val),
        section: st.section,
        cur_key: Some(key),
        blanks: 0,
    };
    let multi: bool = match val {
        Some(v) => o.multiline && lines_spec(v).len() > 1,
        None => false,
    };
    if !multi {
        // a single line: valueless, empty, or a one-line value
        match val {
            Some(v) => {
                let ls = lines_spec(v);
                if o.multiline {
                    if v.len() > 0 {
                        assert(ls.len() >= 1);
                        assert(ls.len() == 1);
                        assert(join_lines(ls) == ls[0]);
                        assert(v == ls[0]);
                        assert(writable_vline(ls[0], true, o));
                        assert(writable_value(v, o));
                    } else {
                        assert(writable_value(v, o));
                    }
                }
                lemma_entry_step(st, key, val, o, space, indent);
            },
            None => {
                lemma_entry_step(st, key, val, o, space, indent);
            },
        }
        let body = entry_body(key, val, space);
        assert(line_step(st, body, 0, o) == Ok::<ParseState, ParseError>(target));
        let els = lines_spec(entry_out(key, val, o.multiline, space, indent));
        assert(els == seq![body]);
        assert(els.skip(1) =~= Seq::<Seq<char>>::empty());
        assert(run_all(Seq::<Seq<char>>::empty(), target, o) == Some(target));
        assert(run_all(els, st, o) == Some(target));
    } else {
        let v = val.unwrap();
        let ls = lines_spec(v);
        assert(o.multiline && ls.len() > 1);
        assert(v.len() > 0) by {
            if v.len() == 0 {
                assert(ls.len() == 0);
            }
        }
        let dl = delim_out(space, false);
        let b0 = key + dl + ls[0];
        let cl = clist_of(ls.skip(1), indent);
        let ll = seq![b0] + cl;
        let text = entry_out(key, val, o.multiline, space, indent);
        assert(value_out(v, o.multiline, indent) == ls[0] + cont_lines_out(ls.skip(1), indent));
        assert(forall|i: int| 0 <= i < ls.skip(1).len() ==> ls.skip(1)[i] == ls[i + 1]);
        lemma_cont_join(b0, ls.skip(1), indent);
        assert(join_lines(ll) =~= key + dl + value_out(v, o.multiline, indent));
        assert(text =~= join_lines(ll) + seq!['\n']);
        assert(writable_vline(ls[0], true, o));
        assert forall|i: int|
            0 <= i < ll.len() implies !(#[trigger] ll[i]).contains('\n') && (ll[i].len() > 0
            ==> ll[i].last() != '\r') by {
            if i == 0 {
                assert(ll[0] == b0);
                assert forall|q: int| 0 <= q < b0.len() implies b0[q] != '\n' by {
                    if q < key.len() {
                        assert(b0[q] == key[q]);
                    } else if q < key.len() + dl.len() {
                        assert(b0[q] == dl[q - key.len()]);
                        assert(b0[q] == '=' || b0[q] == ' ');
                    } else {
                        assert(b0[q] == ls[0][q - key.len() - dl.len()]);
                    }
                }
                assert(!b0.contains('\n'));
                if ls[0].len() > 0 {
                    assert(b0.last() == ls[0].last());
                    assert(!is_space_char(b0.last()));
                } else {
                    assert(b0.last() == dl.last());
                    assert(b0.last() == '=' || b0.last() == ' ');
                }
            } else {
                let c = ll[i];
                assert(c == cline(ls[i], indent));
                assert(writable_vline(ls[i], false, o));
                if ls[i].len() > 0 {
                    let sp = crate::unparse::spaces(indent);
                    assert forall|q: int| 0 <= q < c.len() implies c[q] != '\n' by {
                        if q < indent {
                            assert(c[q] == ' ');
                        } else {
                            assert(c[q] == ls[i][q - indent]);
                        }
                    }
                    assert(!c.contains('\n'));
                    assert(c.last() == ls[i].last());
                    assert(!is_space_char(c.last()));
                } else {
                    assert(c =~= Seq::<char>::empty());
                    assert(!c.contains('\n'));
                }
            }
        }
        lemma_lines_unjoin(ll);
        assert(lines_spec(text) == ll);
        // the key line, then the continuation lines
        lemma_keyline_step(st, key, ls[0], o, space);
        assert(ll[0] == b0);
        assert(ll.skip(1) =~= cl);
        let st1 = ParseState {
            tree: crate::map::tree_upsert(st.tree, st.section, key, Some(ls[0])),
            section: st.section,
            cur_key: Some(key),
            blanks: 0,
        };
        assert(line_step(st, b0, 0, o) == Ok::<ParseState, ParseError>(st1));
        assert(ls.take(1) =~= seq![ls[0]]);
        assert(join_lines(seq![ls[0]]) == ls[0]);
        assert(cl.skip(0) =~= cl);
        lemma_cont_run(st.tree, st.section, key, v, 1, 1, st1, o, indent);
        match run_all(cl, st1, o) {
            Some(st2) => {
                assert(run_all(lines_spec(text), st, o) == Some(st2));
                assert(st2 == target);
            },
            None => {
                assert(false);
            },
        }
    }
}


/// What is left after trimming on the left: a suffix whose head, if any, is
/// not whitespace.
pub proof fn lemma_ltrim_shape(x: Seq<char>)
    ensures
        ltrim_spec(x).len() <= x.len(),
        forall|q: int|
            0 <= q < ltrim_spec(x).len() ==> ltrim_spec(x)[q] == x[q + (x.len() - ltrim_spec(
                x,
            ).len())],
        ltrim_spec(x).len() > 0 ==> !is_space_char(ltrim_spec(x)[0]),
    decreases x.len(),
{
    if x.len() > 0 && is_space_char(x[0]) {
        lemma_ltrim_shape(x.skip(1));
        assert(forall|q: int| 0 <= q < x.skip(1).len() ==> x.skip(1)[q] == x[q + 1]);
    }
}

/// What is left after trimming on the right: a prefix whose last character,
/// if any, is not whitespace.
pub proof fn lemma_rtrim_shape(x: Seq<char>)
    ensures
        rtrim_spec(x).len() <= x.len(),
        forall|q: int| 0 <= q < rtrim_spec(x).len() ==> rtrim_spec(x)[q] == x[q],
        rtrim_spec(x).len() > 0 ==> !is_space_char(rtrim_spec(x).last()),
    decreases x.len(),
{
    if x.len() > 0 && is_space_char(x.last()) {
        lemma_rtrim_shape(x.drop_last());
        assert(forall|q: int| 0 <= q < x.drop_last().len() ==> x.drop_last()[q] == x[q]);
    }
}

/// Every character of a trimmed text stands in the text, and its edges are
/// not whitespace.
pub proof fn lemma_trim_shape(x: Seq<char>)
    ensures
        forall|q: int|
            #![trigger trim_spec(x)[q]]
            0 <= q < trim_spec(x).len() ==> (exists|p: int|
                0 <= p < x.len() && trim_spec(x)[q] == #[trigger] x[p]),
        trim_spec(x).len() > 0 ==> (!is_space_char(trim_spec(x)[0]) && !is_space_char(
            trim_spec(x).last(),
        )),
        trim_spec(x).len() > 0 ==> trim_spec(x)[0] == ltrim_spec(x)[0],
{
    lemma_ltrim_shape(x);
    lemma_rtrim_shape(ltrim_spec(x));
    let l = ltrim_spec(x);
    let r = trim_spec(x);
    assert forall|q: int| #![trigger r[q]] 0 <= q < r.len() implies (exists|p: int|
        0 <= p < x.len() && r[q] == #[trigger] x[p]) by {
        assert(r[q] == l[q]);
        assert(l[q] == x[q + (x.len() - l.len())]);
        assert(r[q] == x[q + (x.len() - l.len())]);
    }
    if r.len() > 0 {
        assert(r[0] == l[0]);
    }
}

/// The lines of a text hold no newline themselves.
pub proof fn lemma_lines_no_nl(s: Seq<char>)
    ensures
        forall|i: int| 0 <= i < lines_spec(s).len() ==> !(#[trigger] lines_spec(s)[i]).contains(
            '\n',
        ),
    decreases s.len(),
{
    if s.len() > 0 {
        crate::strutil::lemma_find_in_set_bounds(s, seq!['\n']);
        match find_in_set_spec(s, seq!['\n']) {
            Some(i) => {
                assert(seq!['\n'].contains(s[i]));
                let head = ended_line(s.take(i));
                assert forall|q: int| 0 <= q < head.len() implies head[q] != '\n' by {
                    assert(head[q] == s[q]);
                    assert(seq!['\n'][0] == '\n');
                    assert(!seq!['\n'].contains(s[q]));
                }
                assert(!head.contains('\n'));
                lemma_lines_no_nl(s.skip(i + 1));
                assert(lines_spec(s) == seq![head] + lines_spec(s.skip(i + 1)));
                assert(forall|j: int|
                    #![trigger lines_spec(s.skip(i + 1))[j]]
                    0 <= j < lines_spec(s.skip(i + 1)).len() ==> (seq![head] + lines_spec(
                        s.skip(i + 1),
                    ))[j + 1] == lines_spec(s.skip(i + 1))[j]);
            },
            None => {
                assert forall|q: int| 0 <= q < s.len() implies s[q] != '\n' by {
                    assert(seq!['\n'][0] == '\n');
                    assert(!seq!['\n'].contains(s[q]));
                }
                assert(!s.contains('\n'));
            },
        }
    }
}

/// Joining two runs of lines joins each and puts a newline between.
pub proof fn lemma_join_concat(a: Seq<Seq<char>>, b: Seq<Seq<char>>)
    requires
        a.len() > 0,
        b.len() > 0,
    ensures
        join_lines(a + b) == join_lines(a) + seq!['\n'] + join_lines(b),
    decreases b.len(),
{
    if b.len() == 1 {
        assert((a + b).drop_last() =~= a);
        assert((a + b).last() == b[0]);
        assert(join_lines(b) == b[0]);
        assert((a + b).len() >= 2);
    } else {
        lemma_join_concat(a, b.drop_last());
        assert((a + b).drop_last() =~= a + b.drop_last());
        assert((a + b).last() == b.last());
        assert(join_lines(a + b) == join_lines(a + b.drop_last()) + seq!['\n'] + b.last());
        assert(join_lines(b) == join_lines(b.drop_last()) + seq!['\n'] + b.last());
        assert(join_lines(a + b) =~= join_lines(a) + seq!['\n'] + join_lines(b));
    }
}

/// Splitting a joined list of clean lines gives the list back, when the last
/// line is not empty.
pub proof fn lemma_lines_rejoin(ll: Seq<Seq<char>>)
    requires
        ll.len() >= 1,
        forall|i: int|
            0 <= i < ll.len() ==> !(#[trigger] ll[i]).contains('\n') && (i < ll.len() - 1
                && ll[i].len() > 0 ==> ll[i].last() != '\r'),
        ll.last().len() > 0,
    ensures
        lines_spec(join_lines(ll)) == ll,
    decreases ll.len(),
{
    if ll.len() == 1 {
        let x = ll[0];
        crate::strutil::lemma_find_in_set_bounds(x, seq!['\n']);
        match find_in_set_spec(x, seq!['\n']) {
            Some(i) => {
                assert(seq!['\n'].contains(x[i]));
                assert(x[i] == '\n');
                assert(false);
            },
            None => {
                assert(lines_spec(x) =~= seq![x]);
            },
        }
    } else {
        lemma_join_front(ll);
        let head = ll[0] + seq!['\n'];
        let rest = join_lines(ll.skip(1));
        assert(join_lines(ll) =~= head + rest);
        assert(forall|i: int| 0 <= i < ll.skip(1).len() ==> ll.skip(1)[i] == ll[i + 1]);
        lemma_lines_rejoin(ll.skip(1));
        assert(rest.len() > 0) by {
            if ll.skip(1).len() == 1 {
                assert(rest == ll.skip(1)[0]);
                assert(ll.skip(1)[0] == ll.last());
            } else {
                lemma_join_front(ll.skip(1));
            }
        }
        lemma_lines_single(ll[0]);
        lemma_lines_concat(head, rest);
        assert(lines_spec(join_lines(ll)) =~= ll);
    }
}

/// Joining empty lines yields one newline between each two.
pub proof fn lemma_join_empties(m: int)
    requires
        m >= 1,
    ensures
        join_lines(Seq::new(m as nat, |q: int| Seq::<char>::empty())) =~= nl_rep((m - 1) as nat),
    decreases m,
{
    let e = Seq::new(m as nat, |q: int| Seq::<char>::empty());
    if m == 1 {
        assert(join_lines(e) == e[0]);
        assert(nl_rep(0) =~= Seq::<char>::empty());
    } else {
        lemma_join_empties(m - 1);
        assert(e.drop_last() =~= Seq::new((m - 1) as nat, |q: int| Seq::<char>::empty()));
        assert(join_lines(e) == join_lines(e.drop_last()) + seq!['\n'] + e.last());
        assert(join_lines(e) =~= nl_rep((m - 1) as nat));
    }
}

/// Writing a key keeps the mapping well formed.
pub proof fn lemma_assoc_upsert_wf<V>(m: Seq<(Seq<char>, V)>, k: Seq<char>, v: V)
    requires
        assoc_wf(m),
    ensures
        assoc_wf(crate::map::assoc_upsert(m, k, v)),
{
    crate::laws::lemma_assoc_get_char(m, k);
    match crate::map::assoc_get(m, k) {
        Some(_) => {
            let i = choose|i: int|
                0 <= i < m.len() && m[i].0 == k && (forall|j: int| 0 <= j < i ==> m[j].0 != k);
            crate::map::lemma_assoc_upsert_idx(m, k, v, i);
            let u = m.update(i, (k, v));
            assert(forall|q: int| 0 <= q < u.len() ==> u[q].0 == m[q].0);
            assert(assoc_wf(u));
        },
        None => {
            crate::map::lemma_assoc_upsert_none(m, k, v);
            let u = m.push((k, v));
            assert(forall|q: int| 0 <= q < m.len() ==> u[q] == m[q]);
            assert(assoc_wf(u));
        },
    }
}


/// A non-empty text without newlines is one line, itself.
proof fn lemma_lines_of_clean(v: Seq<char>)
    requires
        !v.contains('\n'),
        v.len() > 0,
    ensures
        lines_spec(v) == seq![v],
{
    crate::strutil::lemma_find_in_set_bounds(v, seq!['\n']);
    match find_in_set_spec(v, seq!['\n']) {
        Some(i) => {
            assert(seq!['\n'].contains(v[i]));
            assert(v[i] == '\n');
            assert(false);
        },
        None => {
        },
    }
}

/// Trimming keeps every character out of a set it was out of.
proof fn lemma_trim_keeps_out(x: Seq<char>, set: Seq<char>)
    requires
        forall|p: int| 0 <= p < x.len() ==> !set.contains(#[trigger] x[p]),
    ensures
        forall|q: int|
            0 <= q < trim_spec(x).len() ==> !set.contains(#[trigger] trim_spec(x)[q]),
{
    lemma_trim_shape(x);
}

/// Trimming keeps a character absent.
proof fn lemma_trim_keeps_char_out(x: Seq<char>, c: char)
    requires
        forall|p: int| 0 <= p < x.len() ==> (#[trigger] x[p]) != c,
    ensures
        forall|q: int| 0 <= q < trim_spec(x).len() ==> (#[trigger] trim_spec(x)[q]) != c,
{
    lemma_trim_shape(x);
}

/// Joining a continuation line onto a stored value keeps the value writable.
proof fn lemma_cont_value_writable(
    prev: Option<Option<Seq<char>>>,
    b: nat,
    t: Seq<char>,
    o: ParseOpts,
)
    requires
        (match prev {
            Some(Some(v)) => writable_value_ml(v, o),
            _ => true,
        }),
        writable_vline(t, false, o),
        t.len() > 0,
    ensures
        writable_value_ml(crate::map::cont_value(prev, b, t), o),
{
    let v2 = crate::map::cont_value(prev, b, t);
    let base: Seq<char> = match prev {
        Some(Some(v)) => v,
        _ => Seq::<char>::empty(),
    };
    assert(v2 == base + nl_rep((b + 1) as nat) + t);
    if base.len() == 0 {
        let es = Seq::new((b + 1) as nat, |q: int| Seq::<char>::empty());
        let ll = es + seq![t];
        lemma_join_empties(b as int + 1);
        lemma_join_concat(es, seq![t]);
        assert(join_lines(seq![t]) == t);
        assert(join_lines(ll) =~= nl_rep((b + 1) as nat) + t);
        assert(v2 =~= join_lines(ll));
        assert forall|i: int|
            0 <= i < ll.len() implies !(#[trigger] ll[i]).contains('\n') && (i < ll.len() - 1
            && ll[i].len() > 0 ==> ll[i].last() != '\r') by {
            if i < es.len() {
                assert(ll[i] =~= Seq::<char>::empty());
            } else {
                assert(ll[i] == t);
            }
        }
        assert(ll.last() == t);
        lemma_lines_rejoin(ll);
        assert(lines_spec(v2) == ll);
        assert forall|i: int|
            0 <= i < lines_spec(v2).len() implies writable_vline(
            #[trigger] lines_spec(v2)[i],
            i == 0,
            o,
        ) by {
            if i < es.len() {
                assert(ll[i] =~= Seq::<char>::empty());
            } else {
                assert(ll[i] == t);
            }
        }
        assert(join_lines(lines_spec(v2)) == v2);
        assert(writable_value_ml(v2, o));
    } else {
        let lsv = lines_spec(base);
        assert(join_lines(lsv) == base);
        assert(lsv.len() > 0) by {
            if lsv.len() == 0 {
                assert(join_lines(lsv) =~= Seq::<char>::empty());
            }
        }
        let mid = Seq::new(b as nat, |q: int| Seq::<char>::empty()) + seq![t];
        let ll = lsv + mid;
        assert(mid.len() == b + 1);
        if b == 0 {
            assert(mid =~= seq![t]);
            assert(join_lines(mid) == t);
        } else {
            lemma_join_empties(b as int);
            lemma_join_concat(Seq::new(b as nat, |q: int| Seq::<char>::empty()), seq![t]);
            assert(join_lines(mid) =~= nl_rep((b - 1) as nat) + seq!['\n'] + t);
        }
        lemma_join_concat(lsv, mid);
        assert(join_lines(ll) =~= base + nl_rep((b + 1) as nat) + t);
        assert(v2 =~= join_lines(ll));
        assert forall|i: int|
            0 <= i < ll.len() implies !(#[trigger] ll[i]).contains('\n') && (i < ll.len() - 1
            && ll[i].len() > 0 ==> ll[i].last() != '\r') by {
            if i < lsv.len() {
                assert(ll[i] == lsv[i]);
                assert(writable_vline(lsv[i], i == 0, o));
                if ll[i].len() > 0 {
                    assert(!is_space_char(ll[i].last()));
                }
            } else if i < ll.len() - 1 {
                assert(ll[i] == mid[i - lsv.len()]);
                assert(ll[i] =~= Seq::<char>::empty());
            } else {
                assert(ll[i] == t);
            }
        }
        assert(ll.last() == t);
        lemma_lines_rejoin(ll);
        assert(lines_spec(v2) == ll);
        assert forall|i: int|
            0 <= i < lines_spec(v2).len() implies writable_vline(
            #[trigger] lines_spec(v2)[i],
            i == 0,
            o,
        ) by {
            if i < lsv.len() {
                assert(ll[i] == lsv[i]);
                assert(writable_vline(lsv[i], i == 0, o));
            } else if i < ll.len() - 1 {
                assert(ll[i] == mid[i - lsv.len()]);
                assert(ll[i] =~= Seq::<char>::empty());
            } else {
                assert(ll[i] == t);
            }
        }
        assert(join_lines(lines_spec(v2)) == v2);
        assert(writable_value_ml(v2, o));
    }
}


/// Making a section exist keeps the tree's sections writable.
proof fn lemma_ensure_writable(tr: TreeV, sname: Seq<char>, o: ParseOpts)
    requires
        writable_sections(tr, o),
        writable_name(sname, o),
    ensures
        writable_sections(crate::map::tree_ensure(tr, sname), o),
{
    if crate::map::assoc_get(tr, sname) is None {
        crate::laws::lemma_assoc_get_char(tr, sname);
        let u = tr.push((sname, Seq::<(Seq<char>, Option<Seq<char>>)>::empty()));
        assert(forall|q: int| 0 <= q < tr.len() ==> u[q] == tr[q]);
        assert(u.last() == (sname, Seq::<(Seq<char>, Option<Seq<char>>)>::empty()));
        assert(assoc_wf(u));
        assert(writable_props(Seq::<(Seq<char>, Option<Seq<char>>)>::empty(), o));
        assert(forall|i: int|
            0 <= i < u.len() ==> writable_name(#[trigger] u[i].0, o) && writable_props(
                u[i].1,
                o,
            ));
    }
}

/// Writing a writable key and value keeps the tree's sections writable.
proof fn lemma_upsert_writable(
    tr: TreeV,
    sname: Seq<char>,
    k: Seq<char>,
    v: Option<Seq<char>>,
    o: ParseOpts,
)
    requires
        writable_sections(tr, o),
        writable_name(sname, o),
        writable_key(k, o),
        (match v {
            Some(x) => writable_val(x, o),
            None => true,
        }),
    ensures
        writable_sections(crate::map::tree_upsert(tr, sname, k, v), o),
{
    let props0 = crate::map::props_or_empty(tr, sname);
    // the section's properties, if any, are writable
    crate::laws::lemma_assoc_get_char(tr, sname);
    assert(writable_props(props0, o)) by {
        match crate::map::assoc_get(tr, sname) {
            Some(_) => {
                let i = choose|i: int|
                    0 <= i < tr.len() && tr[i].0 == sname && tr[i].1 == props0 && (forall|j: int|
                        0 <= j < i ==> tr[j].0 != sname);
                assert(writable_props(tr[i].1, o));
            },
            None => {
                assert(props0 =~= Seq::<(Seq<char>, Option<Seq<char>>)>::empty());
            },
        }
    }
    // the updated properties are writable
    let inner = crate::map::assoc_upsert(props0, k, v);
    lemma_assoc_upsert_wf(props0, k, v);
    assert(writable_props(inner, o)) by {
        crate::laws::lemma_assoc_get_char(props0, k);
        match crate::map::assoc_get(props0, k) {
            Some(_) => {
                let i = choose|i: int|
                    0 <= i < props0.len() && props0[i].0 == k && (forall|j: int|
                        0 <= j < i ==> props0[j].0 != k);
                crate::map::lemma_assoc_upsert_idx(props0, k, v, i);
                let u = props0.update(i, (k, v));
                assert forall|q: int|
                    0 <= q < u.len() implies writable_key(#[trigger] u[q].0, o) && (match u[q].1 {
                    Some(x) => writable_val(x, o),
                    None => true,
                }) by {
                    if q != i {
                        assert(u[q] == props0[q]);
                    }
                }
            },
            None => {
                crate::map::lemma_assoc_upsert_none(props0, k, v);
                let u = props0.push((k, v));
                assert forall|q: int|
                    0 <= q < u.len() implies writable_key(#[trigger] u[q].0, o) && (match u[q].1 {
                    Some(x) => writable_val(x, o),
                    None => true,
                }) by {
                    if q < props0.len() {
                        assert(u[q] == props0[q]);
                    }
                }
            },
        }
    }
    // the updated tree is writable
    match crate::map::assoc_get(tr, sname) {
        Some(_) => {
            let i = choose|i: int|
                0 <= i < tr.len() && tr[i].0 == sname && (forall|j: int|
                    0 <= j < i ==> tr[j].0 != sname);
            crate::map::lemma_assoc_upsert_idx(tr, sname, inner, i);
            let u = tr.update(i, (sname, inner));
            assert(forall|q: int| 0 <= q < u.len() ==> u[q].0 == tr[q].0);
            assert(assoc_wf(u));
            assert forall|q: int|
                0 <= q < u.len() implies writable_name(#[trigger] u[q].0, o) && writable_props(
                u[q].1,
                o,
            ) by {
                if q != i {
                    assert(u[q] == tr[q]);
                }
            }
        },
        None => {
            crate::map::lemma_assoc_upsert_none(tr, sname, inner);
            let u = tr.push((sname, inner));
            assert(forall|q: int| 0 <= q < tr.len() ==> u[q] == tr[q]);
            assert(assoc_wf(u));
            assert forall|q: int|
                0 <= q < u.len() implies writable_name(#[trigger] u[q].0, o) && writable_props(
                u[q].1,
                o,
            ) by {
                if q < tr.len() {
                    assert(u[q] == tr[q]);
                }
            }
        },
    }
}

/// Writing a key into a section no entry bears appends the section at the
/// end, holding just that key.
proof fn lemma_upsert_fresh_section(b: TreeV, s: Seq<char>, k: Seq<char>, v: Option<Seq<char>>)
    requires
        forall|j: int| 0 <= j < b.len() ==> b[j].0 != s,
    ensures
        crate::map::tree_upsert(b, s, k, v) =~= b.push((s, seq![(k, v)])),
{
    crate::map::lemma_assoc_get_none(b, s);
    let inner = crate::map::assoc_upsert(crate::map::props_or_empty(b, s), k, v);
    assert(inner =~= seq![(k, v)]);
    crate::map::lemma_assoc_upsert_none(b, s, inner);
}

/// Writing a fresh key into the section that stands last appends the key to
/// that section.
proof fn lemma_upsert_last_section(
    b: TreeV,
    s: Seq<char>,
    q: PropsV,
    k: Seq<char>,
    v: Option<Seq<char>>,
)
    requires
        forall|j: int| 0 <= j < b.len() ==> b[j].0 != s,
        forall|j: int| 0 <= j < q.len() ==> q[j].0 != k,
    ensures
        crate::map::tree_upsert(b.push((s, q)), s, k, v) =~= b.push((s, q.push((k, v)))),
{
    let t = b.push((s, q));
    assert(t[b.len() as int].0 == s);
    assert(forall|j: int| 0 <= j < b.len() ==> t[j].0 == b[j].0);
    crate::map::lemma_assoc_get_idx(t, s, b.len() as int);
    assert(crate::map::props_or_empty(t, s) == q);
    crate::map::lemma_assoc_upsert_none(q, k, v);
    let inner = crate::map::assoc_upsert(q, k, v);
    crate::map::lemma_assoc_upsert_idx(t, s, inner, b.len() as int);
    assert(t.update(b.len() as int, (s, inner)) =~= b.push((s, q.push((k, v)))));
}

/// The key lines of a section end on a line ending whenever there are any.
proof fn lemma_props_out_nl(ps: PropsV, multiline: bool, space: bool, indent: nat)
    ensures
        ps.len() > 0 ==> props_out(ps, multiline, space, indent).len() > 0,
        props_out(ps, multiline, space, indent).len() > 0 ==> props_out(
            ps,
            multiline,
            space,
            indent,
        ).last() == '\n',
{
    if ps.len() > 0 {
        let e = entry_out(ps.last().0, ps.last().1, multiline, space, indent);
        assert(e.last() == '\n');
        assert(props_out(ps, multiline, space, indent).last() == e.last());
    }
}

/// Splitting into lines distributes over a first part that is empty or ends
/// on a newline.
proof fn lemma_lines_concat0(a: Seq<char>, b: Seq<char>)
    requires
        a.len() == 0 || a.last() == '\n',
    ensures
        lines_spec(a + b) == lines_spec(a) + lines_spec(b),
{
    if a.len() == 0 {
        assert(a + b =~= b);
        assert(lines_spec(a) + lines_spec(b) =~= lines_spec(b));
    } else {
        lemma_lines_concat(a, b);
    }
}

/// Blank lines leave the tree and the current section alone.
proof fn lemma_blanks_run(n: nat, st: ParseState, o: ParseOpts)
    ensures
        (match run_all(Seq::new(n, |q: int| Seq::<char>::empty()), st, o) {
            Some(st2) => st2.tree == st.tree && st2.section == st.section,
            None => false,
        }),
    decreases n,
{
    let ls = Seq::new(n, |q: int| Seq::<char>::empty());
    if n > 0 {
        lemma_blank_step(st, o);
        let st2 = ParseState { blanks: st.blanks + 1, ..st };
        assert(ls.skip(1) =~= Seq::new((n - 1) as nat, |q: int| Seq::<char>::empty()));
        lemma_blanks_run((n - 1) as nat, st2, o);
    }
}

/// Running the key lines of a section whose partial contents stand last in
/// the tree appends those keys in order.
proof fn lemma_props_run_acc(
    b: TreeV,
    s: Seq<char>,
    acc: PropsV,
    ps: PropsV,
    st: ParseState,
    o: ParseOpts,
    space: bool,
    indent: nat,
)
    requires
        writable_opts(o, space),
        assoc_wf(ps),
        forall|i: int|
            0 <= i < ps.len() ==> writable_key(#[trigger] ps[i].0, o) && (match ps[i].1 {
                Some(v) => writable_val(v, o),
                None => true,
            }),
        o.multiline ==> indent >= 1,
        forall|i: int, j: int| 0 <= i < ps.len() && 0 <= j < acc.len() ==> acc[j].0 != ps[i].0,
        forall|j: int| 0 <= j < b.len() ==> b[j].0 != s,
        st.section == s,
        st.tree == b.push((s, acc)),
    ensures
        (match run_all(lines_spec(props_out(ps, o.multiline, space, indent)), st, o) {
            Some(st2) => st2.tree == b.push((s, acc + ps)) && st2.section == s,
            None => false,
        }),
    decreases ps.len(),
{
    if ps.len() == 0 {
        assert(props_out(ps, o.multiline, space, indent) =~= Seq::<char>::empty());
        assert(lines_spec(Seq::<char>::empty()) =~= Seq::<Seq<char>>::empty());
        assert(acc + ps =~= acc);
        assert(b.push((s, acc + ps)) =~= b.push((s, acc)));
    } else {
        let ps1 = ps.drop_last();
        let k = ps.last().0;
        let v = ps.last().1;
        assert(forall|i: int| 0 <= i < ps1.len() ==> ps1[i] == ps[i]);
        lemma_props_run_acc(b, s, acc, ps1, st, o, space, indent);
        let st2 = run_all(lines_spec(props_out(ps1, o.multiline, space, indent)), st, o).unwrap();
        let e = entry_out(k, v, o.multiline, space, indent);
        lemma_entry_run(st2, k, v, o, space, indent);
        let a1 = props_out(ps1, o.multiline, space, indent);
        lemma_props_out_nl(ps1, o.multiline, space, indent);
        lemma_lines_concat0(a1, e);
        assert(props_out(ps, o.multiline, space, indent) == a1 + e);
        lemma_run_all_concat(lines_spec(a1), lines_spec(e), st, o);
        assert(forall|j: int| 0 <= j < (acc + ps1).len() ==> (acc + ps1)[j].0 != k);
        lemma_upsert_last_section(b, s, acc + ps1, k, v);
        assert((acc + ps1).push((k, v)) =~= acc + ps);
        assert(b.push((s, (acc + ps1).push((k, v)))) =~= b.push((s, acc + ps)));
        match run_all(lines_spec(e), st2, o) {
            Some(st3) => {
                assert(run_all(lines_spec(props_out(ps, o.multiline, space, indent)), st, o)
                    == Some(st3));
                assert(st3.tree == b.push((s, acc + ps)));
                assert(st3.section == s);
            },
            None => {
                assert(false);
            },
        }
    }
}

/// Running the key lines of a section not yet in the tree appends the section
/// with those keys.
proof fn lemma_props_run_new(
    b: TreeV,
    s: Seq<char>,
    ps: PropsV,
    st: ParseState,
    o: ParseOpts,
    space: bool,
    indent: nat,
)
    requires
        writable_opts(o, space),
        assoc_wf(ps),
        ps.len() > 0,
        forall|i: int|
            0 <= i < ps.len() ==> writable_key(#[trigger] ps[i].0, o) && (match ps[i].1 {
                Some(v) => writable_val(v, o),
                None => true,
            }),
        o.multiline ==> indent >= 1,
        forall|j: int| 0 <= j < b.len() ==> b[j].0 != s,
        st.section == s,
        st.tree == b,
    ensures
        (match run_all(lines_spec(props_out(ps, o.multiline, space, indent)), st, o) {
            Some(st2) => st2.tree == b.push((s, ps)) && st2.section == s,
            None => false,
        }),
{
    let ps1 = ps.skip(1);
    let k = ps[0].0;
    let v = ps[0].1;
    assert(forall|i: int| 0 <= i < ps1.len() ==> ps1[i] == ps[i + 1]);
    // the first key line creates the section
    let e0 = entry_out(k, v, o.multiline, space, indent);
    lemma_entry_run(st, k, v, o, space, indent);
    lemma_upsert_fresh_section(b, s, k, v);
    // the whole block is that line followed by the rest
    lemma_props_split_first(ps, o.multiline, space, indent);
    let rest = props_out(ps1, o.multiline, space, indent);
    assert(e0.last() == '\n');
    lemma_lines_concat0(e0, rest);
    lemma_run_all_concat(lines_spec(e0), lines_spec(rest), st, o);
    let st1 = ParseState {
        tree: crate::map::tree_upsert(st.tree, st.section, k, v),
        section: st.section,
        cur_key: Some(k),
        blanks: 0,
    };
    assert(st1.tree == b.push((s, seq![(k, v)])));
    assert(run_all(lines_spec(e0), st, o) == Some(st1));
    assert(forall|i: int, j: int|
        0 <= i < ps1.len() && 0 <= j < seq![(k, v)].len() ==> seq![(k, v)][j].0 != ps1[i].0);
    lemma_props_run_acc(b, s, seq![(k, v)], ps1, st1, o, space, indent);
    assert(seq![(k, v)] + ps1 =~= ps);
    assert(b.push((s, seq![(k, v)] + ps1)) =~= b.push((s, ps)));
    match run_all(lines_spec(props_out(ps1, o.multiline, space, indent)), st1, o) {
        Some(st2) => {
            assert(run_all(lines_spec(props_out(ps, o.multiline, space, indent)), st, o) == Some(
                st2,
            ));
            assert(st2.tree == b.push((s, ps)));
        },
        None => {
            assert(false);
        },
    }
}

/// The key lines of a section are its first key's line followed by the rest.
proof fn lemma_props_split_first(ps: PropsV, multiline: bool, space: bool, indent: nat)
    requires
        ps.len() > 0,
    ensures
        props_out(ps, multiline, space, indent) == entry_out(
            ps[0].0,
            ps[0].1,
            multiline,
            space,
            indent,
        ) + props_out(ps.skip(1), multiline, space, indent),
    decreases ps.len(),
{
    if ps.len() == 1 {
        assert(ps.drop_last() =~= Seq::<(Seq<char>, Option<Seq<char>>)>::empty());
        assert(ps.skip(1) =~= Seq::<(Seq<char>, Option<Seq<char>>)>::empty());
        assert(props_out(ps.drop_last(), multiline, space, indent) =~= Seq::<char>::empty());
        assert(props_out(ps.skip(1), multiline, space, indent) =~= Seq::<char>::empty());
        assert(props_out(ps, multiline, space, indent) =~= entry_out(
            ps[0].0,
            ps[0].1,
            multiline,
            space,
            indent,
        ) + props_out(ps.skip(1), multiline, space, indent));
    } else {
        let ps1 = ps.drop_last();
        lemma_props_split_first(ps1, multiline, space, indent);
        assert(ps1[0] == ps[0]);
        assert(ps1.skip(1) =~= ps.skip(1).drop_last());
        assert(ps.skip(1).last() == ps.last());
        assert(props_out(ps.skip(1), multiline, space, indent) == props_out(
            ps.skip(1).drop_last(),
            multiline,
            space,
            indent,
        ) + entry_out(ps.last().0, ps.last().1, multiline, space, indent));
        assert(props_out(ps, multiline, space, indent) =~= entry_out(
            ps[0].0,
            ps[0].1,
            multiline,
            space,
            indent,
        ) + props_out(ps.skip(1), multiline, space, indent));
    }
}


/// Running a header and its key lines appends that section, filled in order.
proof fn lemma_block_run(
    b: TreeV,
    name: Seq<char>,
    ps: PropsV,
    d: Seq<char>,
    st: ParseState,
    o: ParseOpts,
    space: bool,
    indent: nat,
)
    requires
        writable_opts(o, space),
        writable_name(name, o),
        assoc_wf(ps),
        forall|i: int|
            0 <= i < ps.len() ==> writable_key(#[trigger] ps[i].0, o) && (match ps[i].1 {
                Some(v) => writable_val(v, o),
                None => true,
            }),
        o.multiline ==> indent >= 1,
        name != d,
        forall|j: int| 0 <= j < b.len() ==> b[j].0 != name,
        st.tree == b,
    ensures
        (match run_all(
            lines_spec(section_block_out(name, ps, d, o.multiline, space, indent)),
            st,
            o,
        ) {
            Some(st2) => st2.tree == b.push((name, ps)) && st2.section == name,
            None => false,
        }),
{
    let htext = seq!['['] + name + seq![']', '\n'];
    let hbody = seq!['['] + name + seq![']'];
    let rest = props_out(ps, o.multiline, space, indent);
    let block = section_block_out(name, ps, d, o.multiline, space, indent);
    assert(block =~= htext + rest);
    lemma_header_step(st, name, o, space);
    assert(htext.last() == '\n');
    lemma_lines_concat0(htext, rest);
    lemma_run_all_concat(lines_spec(htext), lines_spec(rest), st, o);
    assert(lines_spec(htext)[0] == hbody);
    assert(lines_spec(htext).skip(1) =~= Seq::<Seq<char>>::empty());
    crate::map::lemma_assoc_get_none(b, name);
    let st1 = ParseState { tree: crate::map::tree_ensure(st.tree, name), section: name, ..st };
    assert(st1.tree == b.push((name, Seq::<(Seq<char>, Option<Seq<char>>)>::empty())));
    assert(run_all(Seq::<Seq<char>>::empty(), st1, o) == Some(st1));
    assert(run_all(lines_spec(htext), st, o) == Some(st1));
    lemma_props_run_acc(
        b,
        name,
        Seq::<(Seq<char>, Option<Seq<char>>)>::empty(),
        ps,
        st1,
        o,
        space,
        indent,
    );
    match run_all(lines_spec(rest), st1, o) {
        Some(st2) => {
            assert(run_all(lines_spec(block), st, o) == Some(st2));
            assert(Seq::<(Seq<char>, Option<Seq<char>>)>::empty() + ps =~= ps);
            assert(st2.tree == b.push((name, ps)));
        },
        None => {
            assert(false);
        },
    }
}

/// The tree's sections with the default one left out, in order.
pub open spec fn nd_filter(t: TreeV, d: Seq<char>) -> TreeV
    decreases t.len(),
{
    if t.len() == 0 {
        Seq::empty()
    } else {
        nd_filter(t.drop_last(), d) + (if t.last().0 == d {
            Seq::<(Seq<char>, PropsV)>::empty()
        } else {
            seq![t.last()]
        })
    }
}

proof fn lemma_nd_keys(t: TreeV, d: Seq<char>, x: Seq<char>)
    requires
        forall|j: int| 0 <= j < t.len() ==> t[j].0 != x,
    ensures
        forall|q: int| 0 <= q < nd_filter(t, d).len() ==> nd_filter(t, d)[q].0 != x,
    decreases t.len(),
{
    if t.len() > 0 {
        assert(forall|j: int| 0 <= j < t.len() - 1 ==> t.drop_last()[j] == t[j]);
        lemma_nd_keys(t.drop_last(), d, x);
        let nd1 = nd_filter(t.drop_last(), d);
        let nd = nd_filter(t, d);
        assert forall|q: int| 0 <= q < nd.len() implies nd[q].0 != x by {
            if q < nd1.len() {
                assert(nd[q] == nd1[q]);
            } else {
                assert(nd[q] == t.last());
                assert(t[t.len() - 1].0 != x);
            }
        }
    }
}

proof fn lemma_nd_no_d(t: TreeV, d: Seq<char>)
    ensures
        forall|q: int| 0 <= q < nd_filter(t, d).len() ==> nd_filter(t, d)[q].0 != d,
    decreases t.len(),
{
    if t.len() > 0 {
        lemma_nd_no_d(t.drop_last(), d);
        let nd1 = nd_filter(t.drop_last(), d);
        let nd = nd_filter(t, d);
        assert forall|q: int| 0 <= q < nd.len() implies nd[q].0 != d by {
            if q < nd1.len() {
                assert(nd[q] == nd1[q]);
            } else {
                assert(nd[q] == t.last());
            }
        }
    }
}

/// Leaving the default section out changes no other section's lookup.
proof fn lemma_nd_get(t: TreeV, d: Seq<char>, s: Seq<char>)
    requires
        assoc_wf(t),
        s != d,
    ensures
        assoc_get(nd_filter(t, d), s) == assoc_get(t, s),
    decreases t.len(),
{
    if t.len() == 0 {
    } else {
        let t1 = t.drop_last();
        assert(forall|j: int| 0 <= j < t1.len() ==> t1[j] == t[j]);
        assert(assoc_wf(t1));
        lemma_nd_get(t1, d, s);
        if t.last().0 == d {
            assert(nd_filter(t, d) =~= nd_filter(t1, d));
            crate::laws::lemma_assoc_get_drop_last_other(t, s);
        } else {
            assert(nd_filter(t, d) =~= nd_filter(t1, d).push(t.last()));
            if t.last().0 == s {
                crate::map::lemma_assoc_get_idx(t, s, t.len() - 1);
                assert(forall|j: int| 0 <= j < t1.len() ==> t1[j].0 != s);
                lemma_nd_keys(t1, d, s);
                let nd = nd_filter(t, d);
                assert(nd[nd.len() - 1] == t.last());
                crate::map::lemma_assoc_get_idx(nd, s, nd.len() - 1);
            } else {
                crate::laws::lemma_assoc_get_drop_last_other(t, s);
                crate::laws::lemma_assoc_get_push_other(nd_filter(t1, d), t.last(), s);
            }
        }
    }
}

/// Running the first section blocks builds the head tree plus those sections,
/// the default one skipped.
proof fn lemma_sections_run(
    t: TreeV,
    i: int,
    d: Seq<char>,
    base: TreeV,
    st0: ParseState,
    o: ParseOpts,
    space: bool,
    indent: nat,
    blanks: nat,
)
    requires
        writable_opts(o, space),
        assoc_wf(t),
        forall|j: int|
            0 <= j < t.len() ==> writable_name(#[trigger] t[j].0, o) && writable_props(t[j].1, o),
        o.multiline ==> indent >= 1,
        0 <= i <= t.len(),
        forall|j: int| 0 <= j < base.len() ==> base[j].0 == d,
        st0.tree == base,
    ensures
        (match run_all(
            lines_spec(sections_out(t.take(i), d, o.multiline, space, indent, blanks)),
            st0,
            o,
        ) {
            Some(st2) => st2.tree == base + nd_filter(t.take(i), d),
            None => false,
        }),
    decreases i,
{
    if i == 0 {
        assert(t.take(0) =~= Seq::<(Seq<char>, PropsV)>::empty());
        assert(sections_out(t.take(0), d, o.multiline, space, indent, blanks) =~= Seq::<
            char,
        >::empty());
        assert(lines_spec(Seq::<char>::empty()) =~= Seq::<Seq<char>>::empty());
        assert(base + nd_filter(t.take(0), d) =~= base);
    } else {
        let pre = t.take(i - 1);
        let now = t.take(i);
        assert(now.drop_last() =~= pre);
        assert(now.last() == t[i - 1]);
        lemma_sections_run(t, i - 1, d, base, st0, o, space, indent, blanks);
        let a = sections_out(pre, d, o.multiline, space, indent, blanks);
        let sep: Seq<char> = if i - 1 > 0 {
            nl_rep(blanks)
        } else {
            Seq::<char>::empty()
        };
        let name = t[i - 1].0;
        let ps = t[i - 1].1;
        let blk = section_block_out(name, ps, d, o.multiline, space, indent);
        assert(sections_out(now, d, o.multiline, space, indent, blanks) == sections_out(
            now.drop_last(),
            d,
            o.multiline,
            space,
            indent,
            blanks,
        ) + (if now.len() - 1 > 0 {
            nl_rep(blanks)
        } else {
            Seq::<char>::empty()
        }) + section_block_out(now.last().0, now.last().1, d, o.multiline, space, indent));
        assert(sections_out(now, d, o.multiline, space, indent, blanks) =~= a + (sep + blk));
        lemma_sections_out_nl(pre, d, o.multiline, space, indent, blanks);
        lemma_lines_concat0(a, sep + blk);
        assert(sep.len() == 0 || sep.last() == '\n') by {
            if sep.len() > 0 {
                assert(sep[sep.len() - 1] == '\n');
            }
        }
        lemma_lines_concat0(sep, blk);
        lemma_run_all_concat(lines_spec(a), lines_spec(sep + blk), st0, o);
        lemma_lines_blank(blanks);
        match run_all(lines_spec(a), st0, o) {
            Some(stp) => {
                lemma_run_all_concat(lines_spec(sep), lines_spec(blk), stp, o);
                // the separator lines change nothing
                assert(lines_spec(sep) =~= (if i - 1 > 0 {
                    Seq::new(blanks, |q: int| Seq::<char>::empty())
                } else {
                    Seq::<Seq<char>>::empty()
                }));
                let sts: ParseState;
                if i - 1 > 0 {
                    lemma_blanks_run(blanks, stp, o);
                    sts = run_all(lines_spec(sep), stp, o).unwrap();
                } else {
                    assert(lines_spec(sep) =~= Seq::<Seq<char>>::empty());
                    sts = stp;
                }
                assert(sts.tree == base + nd_filter(pre, d));
                if name == d {
                    assert(blk =~= Seq::<char>::empty());
                    assert(lines_spec(blk) =~= Seq::<Seq<char>>::empty());
                    assert(run_all(lines_spec(blk), sts, o) == Some(sts));
                    assert(nd_filter(now, d) =~= nd_filter(pre, d));
                    assert(run_all(
                        lines_spec(sections_out(now, d, o.multiline, space, indent, blanks)),
                        st0,
                        o,
                    ) == Some(sts));
                } else {
                    assert(forall|j: int| 0 <= j < pre.len() ==> pre[j].0 != name);
                    lemma_nd_keys(pre, d, name);
                    assert(forall|j: int|
                        0 <= j < (base + nd_filter(pre, d)).len() ==> (base + nd_filter(pre, d))[j].0
                            != name);
                    assert(writable_name(name, o) && writable_props(ps, o));
                    lemma_block_run(base + nd_filter(pre, d), name, ps, d, sts, o, space, indent);
                    match run_all(lines_spec(blk), sts, o) {
                        Some(st2) => {
                            assert(run_all(
                                lines_spec(
                                    sections_out(now, d, o.multiline, space, indent, blanks),
                                ),
                                st0,
                                o,
                            ) == Some(st2));
                            assert((base + nd_filter(pre, d)).push((name, ps)) =~= base + nd_filter(
                                now,
                                d,
                            ));
                        },
                        None => {
                            assert(false);
                        },
                    }
                }
            },
            None => {
                assert(false);
            },
        }
    }
}

/// The section blocks end on a line ending whenever there are any.
proof fn lemma_sections_out_nl(
    t: TreeV,
    d: Seq<char>,
    multiline: bool,
    space: bool,
    indent: nat,
    blanks: nat,
)
    ensures
        sections_out(t, d, multiline, space, indent, blanks).len() == 0 || sections_out(
            t,
            d,
            multiline,
            space,
            indent,
            blanks,
        ).last() == '\n',
    decreases t.len(),
{
    if t.len() > 0 {
        lemma_sections_out_nl(t.drop_last(), d, multiline, space, indent, blanks);
        let blk = section_block_out(t.last().0, t.last().1, d, multiline, space, indent);
        lemma_props_out_nl(t.last().1, multiline, space, indent);
        if t.last().0 == d {
            let sep: Seq<char> = if t.len() - 1 > 0 {
                nl_rep(blanks)
            } else {
                Seq::<char>::empty()
            };
            if sep.len() > 0 {
                assert(sep[sep.len() - 1] == '\n');
            }
        } else {
            if blk.last() == '\n' {
            } else {
                let ps = t.last().1;
                assert(props_out(ps, multiline, space, indent).len() == 0);
                assert(blk =~= seq!['['] + t.last().0 + seq![']', '\n']);
                assert(blk.last() == '\n');
            }
        }
    }
}


proof fn lemma_nd_all(t: TreeV, d: Seq<char>)
    requires
        forall|j: int| 0 <= j < t.len() ==> t[j].0 != d,
    ensures
        nd_filter(t, d) == t,
    decreases t.len(),
{
    if t.len() > 0 {
        assert(forall|j: int| 0 <= j < t.len() - 1 ==> t.drop_last()[j] == t[j]);
        lemma_nd_all(t.drop_last(), d);
        assert(nd_filter(t, d) =~= t.drop_last().push(t.last()));
        assert(t.drop_last().push(t.last()) =~= t);
    }
}

/// The round-trip law in its exact form: when the default section is absent
/// or stands first, the whole tree comes back unchanged, order included.
pub proof fn lemma_round_trip_exact(
    t: TreeV,
    d: Seq<char>,
    o: ParseOpts,
    space: bool,
    indent: nat,
    blanks: nat,
)
    requires
        writable_opts(o, space),
        writable_tree(t, d, o),
        o.multiline ==> indent >= 1,
        t.len() > 0 && t[0].0 == d || (forall|j: int| 0 <= j < t.len() ==> t[j].0 != d),
    ensures
        parse_spec(unparse_spec(t, d, o.multiline, space, indent, blanks), d, o) == Ok::<
            TreeV,
            ParseError,
        >(t),
{
    lemma_round_trip(t, d, o, space, indent, blanks);
    match parse_spec(unparse_spec(t, d, o.multiline, space, indent, blanks), d, o) {
        Ok(t2) => {
            if t.len() > 0 && t[0].0 == d {
                // the default section stands first and nowhere else
                assert(assoc_get(t, d) == Some(t[0].1));
                assert(assoc_wf(t));
                assert(forall|j: int| 1 <= j < t.len() ==> t[j].0 != d);
                assert forall|j: int| 0 <= j < t.skip(1).len() implies t.skip(1)[j].0 != d by {
                    assert(t.skip(1)[j] == t[j + 1]);
                }
                lemma_round_trip_shape(t, d, o, space, indent, blanks);
                assert(t2 =~= seq![(d, t[0].1)] + nd_filter(t, d));
                lemma_nd_skip_first(t, d);
                assert(t2 =~= t);
            } else {
                lemma_round_trip_shape(t, d, o, space, indent, blanks);
                crate::map::lemma_assoc_get_none(t, d);
                assert(t2 =~= nd_filter(t, d));
                lemma_nd_all(t, d);
                assert(t2 =~= t);
            }
        },
        Err(_) => {
            assert(false);
        },
    }
}

proof fn lemma_nd_skip_first(t: TreeV, d: Seq<char>)
    requires
        t.len() > 0,
        t[0].0 == d,
        forall|j: int| 1 <= j < t.len() ==> t[j].0 != d,
    ensures
        seq![(d, t[0].1)] + nd_filter(t, d) =~= t,
    decreases t.len(),
{
    if t.len() == 1 {
        assert(nd_filter(t.drop_last(), d) =~= Seq::<(Seq<char>, PropsV)>::empty());
        assert(nd_filter(t, d) =~= Seq::<(Seq<char>, PropsV)>::empty());
    } else {
        assert(forall|j: int| 0 <= j < t.len() - 1 ==> t.drop_last()[j] == t[j]);
        lemma_nd_skip_first(t.drop_last(), d);
        assert(t.last().0 != d);
        assert(nd_filter(t, d) =~= nd_filter(t.drop_last(), d).push(t.last()));
        assert(seq![(d, t[0].1)] + nd_filter(t, d) =~= (seq![(d, t[0].1)] + nd_filter(
            t.drop_last(),
            d,
        )).push(t.last()));
        assert((seq![(d, t[0].1)] + nd_filter(t.drop_last(), d)).push(t.last()) =~= t);
    }
}

/// What the reparsed text yields, shape and all: the default section's entry
/// first when it exists, where the writer put its keys, then every other
/// section in the tree's order.
pub proof fn lemma_round_trip_shape(
    t: TreeV,
    d: Seq<char>,
    o: ParseOpts,
    space: bool,
    indent: nat,
    blanks: nat,
)
    requires
        writable_opts(o, space),
        writable_tree(t, d, o),
        o.multiline ==> indent >= 1,
    ensures
        (match parse_spec(unparse_spec(t, d, o.multiline, space, indent, blanks), d, o) {
            Ok(t2) => t2 == (match assoc_get(t, d) {
                Some(dp) => seq![(d, dp)],
                None => Seq::<(Seq<char>, PropsV)>::empty(),
            }) + nd_filter(t, d),
            Err(_) => false,
        }),
{
    let text = unparse_spec(t, d, o.multiline, space, indent, blanks);
    let st0 = init_state(d);
    let head: Seq<char> = match assoc_get(t, d) {
        Some(dp) => props_out(dp, o.multiline, space, indent),
        None => Seq::<char>::empty(),
    };
    let body = sections_out(t, d, o.multiline, space, indent, blanks);
    assert(text == head + body);
    let base: TreeV;
    let st1: ParseState;
    match assoc_get(t, d) {
        Some(dp) => {
            crate::laws::lemma_assoc_get_char(t, d);
            let di = choose|di: int|
                0 <= di < t.len() && t[di].0 == d && t[di].1 == dp && (forall|j: int|
                    0 <= j < di ==> t[j].0 != d);
            assert(writable_props(t[di].1, o));
            assert(dp.len() > 0);
            assert(st0.tree =~= Seq::<(Seq<char>, PropsV)>::empty());
            lemma_props_run_new(
                Seq::<(Seq<char>, PropsV)>::empty(),
                d,
                dp,
                st0,
                o,
                space,
                indent,
            );
            base = seq![(d, dp)];
            match run_all(lines_spec(head), st0, o) {
                Some(sth) => {
                    assert(Seq::<(Seq<char>, PropsV)>::empty().push((d, dp)) =~= base);
                    assert(sth.tree == base);
                    st1 = sth;
                },
                None => {
                    assert(false);
                    st1 = st0;
                },
            }
            lemma_props_out_nl(dp, o.multiline, space, indent);
        },
        None => {
            base = Seq::<(Seq<char>, PropsV)>::empty();
            assert(lines_spec(head) =~= Seq::<Seq<char>>::empty());
            st1 = st0;
            assert(run_all(lines_spec(head), st0, o) == Some(st1));
            assert(st1.tree =~= base);
        },
    }
    lemma_lines_concat0(head, body);
    lemma_run_all_concat(lines_spec(head), lines_spec(body), st0, o);
    assert(t.take(t.len() as int) =~= t);
    lemma_sections_run(t, t.len() as int, d, base, st1, o, space, indent, blanks);
    match run_all(lines_spec(body), st1, o) {
        Some(st2) => {
            let t2 = st2.tree;
            assert(t2 == base + nd_filter(t, d));
            assert(run_all(lines_spec(text), st0, o) == Some(st2));
            assert(lines_spec(text).skip(0) =~= lines_spec(text));
            lemma_run_all_parse_lines(lines_spec(text), 0, st0, o);
            assert(parse_spec(text, d, o) == Ok::<TreeV, ParseError>(t2));
        },
        None => {
            assert(false);
        },
    }
}

/// The round-trip law: a tree in the parser's canonical form, written out
/// under options whose special characters do not collide with the grammar,
/// parses back to the same mapping from section names to properties.
pub proof fn lemma_round_trip(
    t: TreeV,
    d: Seq<char>,
    o: ParseOpts,
    space: bool,
    indent: nat,
    blanks: nat,
)
    requires
        writable_opts(o, space),
        writable_tree(t, d, o),
        o.multiline ==> indent >= 1,
    ensures
        (match parse_spec(unparse_spec(t, d, o.multiline, space, indent, blanks), d, o) {
            Ok(t2) => forall|s: Seq<char>| assoc_get(t2, s) == assoc_get(t, s),
            Err(_) => false,
        }),
{
    lemma_round_trip_shape(t, d, o, space, indent, blanks);
    let base: TreeV = match assoc_get(t, d) {
        Some(dp) => seq![(d, dp)],
        None => Seq::<(Seq<char>, PropsV)>::empty(),
    };
    match parse_spec(unparse_spec(t, d, o.multiline, space, indent, blanks), d, o) {
        Ok(t2) => {
            assert(t2 == base + nd_filter(t, d));
            assert forall|s: Seq<char>| assoc_get(t2, s) == assoc_get(t, s) by {
                if s == d {
                    match assoc_get(t, d) {
                        Some(dp) => {
                            assert(t2[0] == (d, dp));
                            assert(assoc_get(t2, d) == Some(t2[0].1));
                        },
                        None => {
                            lemma_nd_no_d(t, d);
                            assert(t2 =~= nd_filter(t, d));
                            crate::map::lemma_assoc_get_none(t2, d);
                        },
                    }
                } else {
                    lemma_nd_get(t, d, s);
                    if base.len() > 0 {
                        assert(t2[0].0 == d);
                        assert(t2.skip(1) =~= nd_filter(t, d));
                        assert(assoc_get(t2, s) == assoc_get(nd_filter(t, d), s));
                    } else {
                        assert(t2 =~= nd_filter(t, d));
                    }
                }
            }
        },
        Err(_) => {
            assert(false);
        },
    }
}


/// The shape a run keeps: the tree's sections writable, the current section
/// and the current key in writable form.
pub open spec fn canonical_state(st: ParseState, o: ParseOpts) -> bool {
    writable_sections(st.tree, o) && writable_name(st.section, o) && (match st.cur_key {
        Some(k) => writable_key(k, o),
        None => true,
    })
}

/// One parsed line keeps the state canonical, when names are kept as written.
#[verifier::rlimit(80)]
proof fn lemma_step_canonical(st: ParseState, raw: Seq<char>, n: int, o: ParseOpts)
    requires
        o.cs,
        !raw.contains('\n'),
        canonical_state(st, o),
    ensures
        (match line_step(st, raw, n, o) {
            Ok(st2) => canonical_state(st2, o),
            Err(_) => true,
        }),
{
    let line = trim_spec(raw);
    lemma_trim_shape(raw);
    assert forall|p: int| 0 <= p < raw.len() implies (#[trigger] raw[p]) != '\n' by {
        if raw[p] == '\n' {
            assert(raw.contains('\n'));
        }
    }
    lemma_trim_keeps_char_out(raw, '\n');
    if line.len() > 0 && o.comment.contains(line[0]) {
    } else {
        let cut = (match find_in_set_spec(line, o.inline) {
            Some(i) => line.take(i),
            None => line,
        });
        crate::strutil::lemma_find_in_set_bounds(line, o.inline);
        assert(forall|p: int| 0 <= p < cut.len() ==> (#[trigger] cut[p]) == line[p]);
        assert(forall|p: int| 0 <= p < cut.len() ==> !o.inline.contains(#[trigger] cut[p]));
        assert(forall|p: int| 0 <= p < cut.len() ==> (#[trigger] cut[p]) != '\n');
        let t = trim_spec(cut);
        lemma_trim_shape(cut);
        lemma_trim_keeps_char_out(cut, '\n');
        lemma_trim_keeps_out(cut, o.inline);
        if t.len() == 0 {
        } else {
            assert(!is_space_char(t[0]) && !is_space_char(t.last()));
            assert(line.len() > 0);
            assert(!is_space_char(line[0]));
            assert(cut[0] == line[0]);
            assert(ltrim_spec(cut) == cut);
            lemma_rtrim_shape(cut);
            assert(t[0] == cut[0]);
            assert(t[0] == line[0]);
            assert(!o.comment.contains(t[0]));
            if t[0] == '[' {
                match crate::strutil::rfind_spec(t, ']') {
                    Some(end) => {
                        crate::strutil::lemma_rfind_bounds(t, ']');
                        let inner = t.subrange(1, end);
                        assert(forall|q: int|
                            0 <= q < inner.len() ==> (#[trigger] inner[q]) == t[q + 1]);
                        assert(forall|q: int| 0 <= q < inner.len() ==> (#[trigger] inner[q]) != '\n');
                        assert(forall|q: int|
                            0 <= q < inner.len() ==> !o.inline.contains(#[trigger] inner[q]));
                        lemma_trim_shape(inner);
                        lemma_trim_keeps_char_out(inner, '\n');
                        lemma_trim_keeps_out(inner, o.inline);
                        let name = caser_spec(o.cs, trim_spec(inner));
                        assert(name == trim_spec(inner));
                        assert(writable_name(name, o));
                        lemma_ensure_writable(st.tree, name, o);
                    },
                    None => {},
                }
            } else if o.multiline && raw.len() > 0 && is_space_char(raw[0]) {
                match st.cur_key {
                    None => {},
                    Some(k) => {
                        let props0 = crate::map::props_or_empty(st.tree, st.section);
                        let prev = crate::map::assoc_get(props0, k);
                        // the key's stored value, if any, is writable
                        assert(match prev {
                            Some(Some(v)) => writable_value_ml(v, o),
                            _ => true,
                        }) by {
                            crate::laws::lemma_assoc_get_char(st.tree, st.section);
                            match crate::map::assoc_get(st.tree, st.section) {
                                Some(_) => {
                                    let i = choose|i: int|
                                        0 <= i < st.tree.len() && st.tree[i].0 == st.section
                                            && st.tree[i].1 == props0 && (forall|j: int|
                                            0 <= j < i ==> st.tree[j].0 != st.section);
                                    assert(writable_props(st.tree[i].1, o));
                                    crate::laws::lemma_assoc_get_char(props0, k);
                                    match prev {
                                        Some(pv) => {
                                            let q = choose|q: int|
                                                0 <= q < props0.len() && props0[q].0 == k
                                                    && props0[q].1 == pv && (forall|j: int|
                                                    0 <= j < q ==> props0[j].0 != k);
                                            assert(match props0[q].1 {
                                                Some(x) => writable_val(x, o),
                                                None => true,
                                            });
                                        },
                                        None => {},
                                    }
                                },
                                None => {
                                    assert(props0 =~= Seq::<
                                        (Seq<char>, Option<Seq<char>>),
                                    >::empty());
                                },
                            }
                        }
                        assert(writable_vline(t, false, o));
                        lemma_cont_value_writable(prev, st.blanks, t, o);
                        let v2 = crate::map::cont_value(prev, st.blanks, t);
                        assert(crate::map::tree_continue(st.tree, st.section, k, st.blanks, t)
                            == crate::map::tree_upsert(st.tree, st.section, k, Some(v2)));
                        assert(writable_val(v2, o));
                        lemma_upsert_writable(st.tree, st.section, k, Some(v2), o);
                    },
                }
            } else {
                crate::strutil::lemma_find_in_set_bounds(t, o.delims);
                match find_in_set_spec(t, o.delims) {
                    Some(d) => {
                        let kraw = t.take(d);
                        assert(forall|q: int| 0 <= q < kraw.len() ==> (#[trigger] kraw[q]) == t[q]);
                        assert(forall|q: int|
                            0 <= q < kraw.len() ==> !o.delims.contains(#[trigger] kraw[q]));
                        assert(forall|q: int|
                            0 <= q < kraw.len() ==> !o.inline.contains(#[trigger] kraw[q]));
                        assert(forall|q: int| 0 <= q < kraw.len() ==> (#[trigger] kraw[q]) != '\n');
                        lemma_trim_shape(kraw);
                        lemma_trim_keeps_char_out(kraw, '\n');
                        lemma_trim_keeps_out(kraw, o.inline);
                        lemma_trim_keeps_out(kraw, o.delims);
                        let key = caser_spec(o.cs, trim_spec(kraw));
                        assert(key == trim_spec(kraw));
                        if key.len() == 0 {
                        } else {
                            assert(key[0] == kraw[0] == t[0]) by {
                                assert(kraw[0] == t[0]);
                                assert(!is_space_char(kraw[0]));
                                assert(ltrim_spec(kraw) == kraw);
                                lemma_rtrim_shape(kraw);
                            }
                            assert(writable_key(key, o));
                            let vraw = t.skip(d + 1);
                            assert(forall|q: int|
                                0 <= q < vraw.len() ==> (#[trigger] vraw[q]) == t[q + d + 1]);
                            assert(forall|q: int|
                                0 <= q < vraw.len() ==> !o.inline.contains(#[trigger] vraw[q]));
                            assert(forall|q: int|
                                0 <= q < vraw.len() ==> (#[trigger] vraw[q]) != '\n');
                            lemma_trim_shape(vraw);
                            lemma_trim_keeps_char_out(vraw, '\n');
                            lemma_trim_keeps_out(vraw, o.inline);
                            let value = trim_spec(vraw);
                            assert(!value.contains('\n')) by {
                                if value.contains('\n') {
                                    let w = choose|w: int|
                                        0 <= w < value.len() && value[w] == '\n';
                                    assert(value[w] != '\n');
                                }
                            }
                            assert(writable_value(value, o));
                            assert(writable_val(value, o)) by {
                                if o.multiline {
                                    if value.len() > 0 {
                                        lemma_lines_of_clean(value);
                                        assert(join_lines(seq![value]) == value);
                                        assert(writable_value_ml(value, o));
                                    } else {
                                        assert(lines_spec(value) =~= Seq::<Seq<char>>::empty());
                                        assert(join_lines(lines_spec(value)) =~= value);
                                        assert(writable_value_ml(value, o));
                                    }
                                }
                            }
                            lemma_upsert_writable(st.tree, st.section, key, Some(value), o);
                        }
                    },
                    None => {
                        let key = caser_spec(o.cs, t);
                        assert(key == t);
                        assert(!key.contains('\n')) by {
                            if key.contains('\n') {
                                let w = choose|w: int| 0 <= w < key.len() && key[w] == '\n';
                                assert(key[w] != '\n');
                            }
                        }
                        assert(writable_key(key, o));
                        lemma_upsert_writable(st.tree, st.section, key, None, o);
                    },
                }
            }
        }
    }
}

/// A whole run keeps the state canonical, when names are kept as written.
proof fn lemma_run_canonical(ls: Seq<Seq<char>>, st: ParseState, o: ParseOpts)
    requires
        o.cs,
        forall|i: int| 0 <= i < ls.len() ==> !(#[trigger] ls[i]).contains('\n'),
        canonical_state(st, o),
    ensures
        (match run_all(ls, st, o) {
            Some(st2) => canonical_state(st2, o),
            None => true,
        }),
    decreases ls.len(),
{
    if ls.len() > 0 {
        lemma_step_canonical(st, ls[0], 0, o);
        match line_step(st, ls[0], 0, o) {
            Ok(st2) => {
                assert(forall|i: int|
                    0 <= i < ls.skip(1).len() ==> ls.skip(1)[i] == ls[i + 1]);
                lemma_run_canonical(ls.skip(1), st2, o);
            },
            Err(_) => {},
        }
    }
}

/// A successful parse under case-kept options yields a tree of writable
/// sections: names and keys non-empty where owed, trimmed, clean of the
/// grammar's characters, values in the stored multiline form.
pub proof fn lemma_parse_canonical(text: Seq<char>, d: Seq<char>, o: ParseOpts)
    requires
        o.cs,
        writable_name(d, o),
    ensures
        (match parse_spec(text, d, o) {
            Ok(t) => writable_sections(t, o),
            Err(_) => true,
        }),
{
    let ls = lines_spec(text);
    lemma_lines_no_nl(text);
    let st0 = init_state(d);
    assert(writable_sections(st0.tree, o));
    assert(canonical_state(st0, o));
    lemma_run_canonical(ls, st0, o);
    assert(ls.skip(0) =~= ls);
    lemma_run_all_parse_lines(ls, 0, st0, o);
    match run_all(ls, st0, o) {
        Some(st2) => {
            assert(parse_spec(text, d, o) == Ok::<TreeV, ParseError>(st2.tree));
        },
        None => {
            assert(parse_spec(text, d, o) is Err);
        },
    }
}

/// The round-trip law for parsed trees: text parsed under case-kept options,
/// written out, parses back to the same mapping — unless the text left the
/// default section present but empty, which has no written form.
pub proof fn lemma_parse_write_parse(
    text: Seq<char>,
    d: Seq<char>,
    o: ParseOpts,
    space: bool,
    indent: nat,
    blanks: nat,
)
    requires
        o.cs,
        writable_opts(o, space),
        writable_name(d, o),
        o.multiline ==> indent >= 1,
    ensures
        (match parse_spec(text, d, o) {
            Ok(t) => (match crate::map::assoc_get(t, d) {
                Some(dp) => dp.len() > 0,
                None => true,
            }) ==> (match parse_spec(
                unparse_spec(t, d, o.multiline, space, indent, blanks),
                d,
                o,
            ) {
                Ok(t2) => forall|sn: Seq<char>| assoc_get(t2, sn) == assoc_get(t, sn),
                Err(_) => false,
            }),
            Err(_) => true,
        }),
{
    lemma_parse_canonical(text, d, o);
    match parse_spec(text, d, o) {
        Ok(t) => {
            if (match crate::map::assoc_get(t, d) {
                Some(dp) => dp.len() > 0,
                None => true,
            }) {
                assert(writable_tree(t, d, o));
                lemma_round_trip(t, d, o, space, indent, blanks);
            }
        },
        Err(_) => {},
    }
}

} // verus!
