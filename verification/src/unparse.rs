//! The serializer: rendering a configuration tree back into INI-syntax text,
//! the default section first and without a header, every other section under
//! its bracketed name.

use vstd::prelude::*;

use crate::map::{assoc_get, nl_rep, IniMap, PropMap, PropsV, TreeV};
use crate::parse::lines_spec;

verus! {

/// A run of `n` spaces.
pub open spec fn spaces(n: nat) -> Seq<char> {
    Seq::new(n, |i: int| ' ')
}

/// What separates a key from its value: an equals sign, spaced when asked
/// for, the trailing space dropped when the value is empty.
pub open spec fn delim_out(space: bool, vempty: bool) -> Seq<char> {
    if space {
        if vempty {
            seq![' ', '=']
        } else {
            seq![' ', '=', ' ']
        }
    } else {
        seq!['=']
    }
}

/// The lines of a value after the first, each on its own output line,
/// non-empty ones indented.
pub open spec fn cont_lines_out(ls: Seq<Seq<char>>, indent: nat) -> Seq<char>
    decreases ls.len(),
{
    if ls.len() == 0 {
        Seq::empty()
    } else {
        cont_lines_out(ls.drop_last(), indent) + seq!['\n'] + (if ls.last().len() > 0 {
            spaces(indent) + ls.last()
        } else {
            Seq::<char>::empty()
        })
    }
}

/// A value as written out: as it stands, or spread over indented lines in
/// multiline mode.
pub open spec fn value_out(v: Seq<char>, multiline: bool, indent: nat) -> Seq<char> {
    if multiline {
        let ls = lines_spec(v);
        if ls.len() == 0 {
            Seq::empty()
        } else {
            ls[0] + cont_lines_out(ls.skip(1), indent)
        }
    } else {
        v
    }
}

/// One key line: the key, then delimiter and value when a value is stored,
/// then the line ending.
pub open spec fn entry_out(
    key: Seq<char>,
    val: Option<Seq<char>>,
    multiline: bool,
    space: bool,
    indent: nat,
) -> Seq<char> {
    key + (match val {
        None => Seq::<char>::empty(),
        Some(v) => delim_out(space, v.len() == 0) + value_out(v, multiline, indent),
    }) + seq!['\n']
}

/// The key lines of one section, in insertion order.
pub open spec fn props_out(props: PropsV, multiline: bool, space: bool, indent: nat) -> Seq<char>
    decreases props.len(),
{
    if props.len() == 0 {
        Seq::empty()
    } else {
        props_out(props.drop_last(), multiline, space, indent) + entry_out(
            props.last().0,
            props.last().1,
            multiline,
            space,
            indent,
        )
    }
}

/// A section with its header, or nothing for the default section, whose keys
/// were already written at the top.
pub open spec fn section_block_out(
    name: Seq<char>,
    props: PropsV,
    default_cased: Seq<char>,
    multiline: bool,
    space: bool,
    indent: nat,
) -> Seq<char> {
    if name == default_cased {
        Seq::empty()
    } else {
        seq!['['] + name + seq![']', '\n'] + props_out(props, multiline, space, indent)
    }
}

/// All section blocks in tree order, the configured number of blank lines
/// before every block but the first.
pub open spec fn sections_out(
    tree: TreeV,
    default_cased: Seq<char>,
    multiline: bool,
    space: bool,
    indent: nat,
    blanks: nat,
) -> Seq<char>
    decreases tree.len(),
{
    if tree.len() == 0 {
        Seq::empty()
    } else {
        sections_out(tree.drop_last(), default_cased, multiline, space, indent, blanks) + (if
        tree.len() - 1 > 0 {
            nl_rep(blanks)
        } else {
            Seq::<char>::empty()
        }) + section_block_out(
            tree.last().0,
            tree.last().1,
            default_cased,
            multiline,
            space,
            indent,
        )
    }
}

/// The whole text of a tree: the default section's keys first and without a
/// header, then every section in order.
pub open spec fn unparse_spec(
    tree: TreeV,
    default_cased: Seq<char>,
    multiline: bool,
    space: bool,
    indent: nat,
    blanks: nat,
) -> Seq<char> {
    (match assoc_get(tree, default_cased) {
        Some(p) => props_out(p, multiline, space, indent),
        None => Seq::<char>::empty(),
    }) + sections_out(tree, default_cased, multiline, space, indent, blanks)
}

#[verifier::loop_isolation(false)]
fn emit_spaces(out: &mut String, n: usize)
    ensures
        final(out)@ == old(out)@ + spaces(n as nat),
{
    let ghost base = out@;
    let mut q: usize = 0;
    while q < n
        invariant
            q <= n,
            out@ =~= base + spaces(q as nat),
        decreases n - q,
    {
        out.append(" ");
        proof {
            reveal_strlit(" ");
            assert(out@ =~= base + spaces(q as nat + 1));
        }
        q += 1;
    }
    proof {
        assert(out@ =~= base + spaces(n as nat));
    }
}

#[verifier::loop_isolation(false)]
fn emit_blank_lines(out: &mut String, n: usize)
    ensures
        final(out)@ == old(out)@ + nl_rep(n as nat),
{
    let ghost base = out@;
    let mut q: usize = 0;
    while q < n
        invariant
            q <= n,
            out@ =~= base + nl_rep(q as nat),
        decreases n - q,
    {
        out.append("\n");
        proof {
            reveal_strlit("\n");
            assert(out@ =~= base + nl_rep(q as nat + 1));
        }
        q += 1;
    }
    proof {
        assert(out@ =~= base + nl_rep(n as nat));
    }
}

#[verifier::loop_isolation(false)]
fn emit_value(out: &mut String, v: &String, multiline: bool, space: bool, indent: usize)
    ensures
        final(out)@ == old(out)@ + delim_out(space, v@.len() == 0) + value_out(
            v@,
            multiline,
            indent as nat,
        ),
{
    proof {
        reveal_strlit("=");
        reveal_strlit(" =");
        reveal_strlit(" = ");
        reveal_strlit("\n");
    }
    if v.as_str().is_empty() {
        if space {
            out.append(" =");
        } else {
            out.append("=");
        }
    } else {
        if space {
            out.append(" = ");
        } else {
            out.append("=");
        }
    }
    proof {
        assert(out@ =~= old(out)@ + delim_out(space, v@.len() == 0));
    }
    let ghost base = out@;
    if multiline {
        let ls = split_lines_local(v.as_str());
        let ghost lsv = lines_spec(v@);
        let m = ls.len();
        if m > 0 {
            out.append(ls[0]);
            let mut q: usize = 1;
            while q < m
                invariant
                    1 <= q <= m,
                    out@ =~= base + lsv[0] + cont_lines_out(
                        lsv.take(q as int).skip(1),
                        indent as nat,
                    ),
                decreases m - q,
            {
                out.append("\n");
                let line = ls[q];
                if !line.is_empty() {
                    emit_spaces(out, indent);
                    out.append(line);
                }
                proof {
                    let pre = lsv.take(q as int).skip(1);
                    let now = lsv.take(q as int + 1).skip(1);
                    assert(now.drop_last() =~= pre);
                    assert(now.last() == lsv[q as int]);
                    assert(out@ =~= base + lsv[0] + cont_lines_out(now, indent as nat));
                }
                q += 1;
            }
            proof {
                assert(lsv.take(m as int) =~= lsv);
                assert(out@ =~= base + value_out(v@, multiline, indent as nat));
            }
        } else {
            proof {
                assert(out@ =~= base + value_out(v@, multiline, indent as nat));
            }
        }
    } else {
        out.append(v.as_str());
    }
}

fn split_lines_local<'a>(s: &'a str) -> (r: Vec<&'a str>)
    ensures
        r.deep_view() == lines_spec(s@),
{
    crate::parse::split_lines(s)
}

#[verifier::loop_isolation(false)]
fn emit_props(out: &mut String, props: &PropMap, multiline: bool, space: bool, indent: usize)
    ensures
        final(out)@ == old(out)@ + props_out(props@, multiline, space, indent as nat),
{
    let ghost base = out@;
    let n = props.len();
    let mut j: usize = 0;
    while j < n
        invariant
            j <= n,
            out@ =~= base + props_out(props@.take(j as int), multiline, space, indent as nat),
        decreases n - j,
    {
        let key = props.key_at(j);
        out.append(key.as_str());
        match props.value_at(j) {
            Some(v) => {
                emit_value(out, v, multiline, space, indent);
            },
            None => {},
        }
        out.append("\n");
        proof {
            reveal_strlit("\n");
            let pre = props@.take(j as int);
            let now = props@.take(j as int + 1);
            assert(now.drop_last() =~= pre);
            assert(now.last() == props@[j as int]);
            assert(out@ =~= base + props_out(now, multiline, space, indent as nat));
        }
        j += 1;
    }
    proof {
        assert(props@.take(n as int) =~= props@);
    }
}

/// Renders the whole tree, with the default section name handed in already
/// case-folded.
#[verifier::loop_isolation(false)]
#[verifier::rlimit(60)]
pub fn unparse_tree(
    map: &IniMap,
    default_cased: &String,
    multiline: bool,
    space: bool,
    indent: usize,
    blanks: usize,
) -> (r: String)
    ensures
        r@ == unparse_spec(map@, default_cased@, multiline, space, indent as nat, blanks as nat),
{
    let mut out = String::new();
    match map.get(default_cased) {
        Some(p) => {
            emit_props(&mut out, p, multiline, space, indent);
        },
        None => {},
    }
    let ghost head = out@;
    let n = map.len();
    let mut i: usize = 0;
    while i < n
        invariant
            i <= n,
            out@ =~= head + sections_out(
                map@.take(i as int),
                default_cased@,
                multiline,
                space,
                indent as nat,
                blanks as nat,
            ),
        decreases n - i,
    {
        let ghost pre = map@.take(i as int);
        let ghost now = map@.take(i as int + 1);
        let ghost sep: Seq<char> = if i > 0 {
            nl_rep(blanks as nat)
        } else {
            Seq::empty()
        };
        let ghost blk = section_block_out(
            map@[i as int].0,
            map@[i as int].1,
            default_cased@,
            multiline,
            space,
            indent as nat,
        );
        if i > 0 {
            emit_blank_lines(&mut out, blanks);
        }
        proof {
            assert(out@ =~= head + sections_out(
                pre,
                default_cased@,
                multiline,
                space,
                indent as nat,
                blanks as nat,
            ) + sep);
        }
        let ghost mid = out@;
        let name = map.section_at(i);
        if !(*name == *default_cased) {
            proof {
                reveal_strlit("[");
                reveal_strlit("]\n");
                assert("["@ =~= seq!['[']);
                assert("]\n"@ =~= seq![']', '\n']);
            }
            out.append("[");
            out.append(name.as_str());
            out.append("]\n");
            emit_props(&mut out, map.props_at(i), multiline, space, indent);
            proof {
                assert(out@ =~= mid + blk);
            }
        } else {
            proof {
                assert(out@ =~= mid + blk);
            }
        }
        proof {
            assert(now.drop_last() =~= pre);
            assert(now.last() == map@[i as int]);
            assert(sections_out(now, default_cased@, multiline, space, indent as nat, blanks as nat)
                == sections_out(pre, default_cased@, multiline, space, indent as nat, blanks as nat)
                + sep + blk);
            assert(out@ =~= head + sections_out(
                now,
                default_cased@,
                multiline,
                space,
                indent as nat,
                blanks as nat,
            ));
        }
        i += 1;
    }
    proof {
        assert(map@.take(n as int) =~= map@);
        assert(out@ =~= unparse_spec(
            map@,
            default_cased@,
            multiline,
            space,
            indent as nat,
            blanks as nat,
        ));
    }
    out
}

} // verus!
