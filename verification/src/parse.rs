//! The parser: line-oriented reading of INI-syntax text into a configuration
//! tree, with the grammar given by the store's options.

use vstd::prelude::*;

use crate::map::{
    tree_continue, tree_ensure, tree_upsert, IniMap, TreeV,
};
use crate::num::dec_str;
use crate::strutil::{
    char_is_space, find_in_set, find_in_set_spec, is_space_char, lower_of, rfind_char, rfind_spec,
    set_contains, to_lower, trim_spec, trim_str,
};

verus! {

/// A line terminated by a newline, the trailing carriage return of a
/// carriage-return-line-feed ending removed.
pub open spec fn ended_line(t: Seq<char>) -> Seq<char> {
    if t.len() > 0 && t.last() == '\r' {
        t.drop_last()
    } else {
        t
    }
}

/// The lines of a text, as `str::lines` splits them: separated by newlines,
/// a carriage return before the newline dropped, the final line ending
/// optional, a lone trailing carriage return kept.
pub open spec fn lines_spec(s: Seq<char>) -> Seq<Seq<char>>
    decreases s.len(),
    via lines_spec_decreases
{
    if s.len() == 0 {
        Seq::empty()
    } else {
        match find_in_set_spec(s, seq!['\n']) {
            Some(i) => seq![ended_line(s.take(i))] + lines_spec(s.skip(i + 1)),
            None => seq![s],
        }
    }
}

#[via_fn]
proof fn lines_spec_decreases(s: Seq<char>) {
    crate::strutil::lemma_find_in_set_bounds(s, seq!['\n']);
}

pub proof fn lemma_find_nl(s: Seq<char>, i: int)
    requires
        0 <= i < s.len(),
        s[i] == '\n',
        forall|j: int| 0 <= j < i ==> s[j] != '\n',
    ensures
        find_in_set_spec(s, seq!['\n']) == Some(i),
    decreases i,
{
    if i == 0 {
        assert(seq!['\n'][0] == s[0]);
        assert(seq!['\n'].contains(s[0]));
    } else {
        assert(forall|q: int| 0 <= q < 1 ==> seq!['\n'][q] != s[0]);
        assert(!seq!['\n'].contains(s[0]));
        lemma_find_nl(s.skip(1), i - 1);
    }
}

pub proof fn lemma_find_nl_none(s: Seq<char>)
    requires
        forall|j: int| 0 <= j < s.len() ==> s[j] != '\n',
    ensures
        find_in_set_spec(s, seq!['\n']) is None,
    decreases s.len(),
{
    if s.len() > 0 {
        assert(forall|q: int| 0 <= q < 1 ==> seq!['\n'][q] != s[0]);
        assert(!seq!['\n'].contains(s[0]));
        lemma_find_nl_none(s.skip(1));
    }
}

/// Splits a text into lines, as `str::lines` does.
pub fn split_lines<'a>(s: &'a str) -> (r: Vec<&'a str>)
    ensures
        r.deep_view() == lines_spec(s@),
{
    let n = s.unicode_len();
    let mut r: Vec<&'a str> = Vec::new();
    let mut start: usize = 0;
    proof {
        assert(s@.skip(0) =~= s@);
        assert(r.deep_view() + lines_spec(s@) =~= lines_spec(s@));
    }
    while start < n
        invariant
            start <= n,
            n == s@.len(),
            lines_spec(s@) =~= r.deep_view() + lines_spec(s@.skip(start as int)),
        decreases n - start,
    {
        let ghost rest = s@.skip(start as int);
        let mut j = start;
        while j < n && s.get_char(j) != '\n'
            invariant
                start <= j <= n,
                n == s@.len(),
                forall|t: int| start <= t < j ==> s@[t] != '\n',
            decreases n - j,
        {
            j += 1;
        }
        if j < n {
            proof {
                assert(forall|t: int|
                    0 <= t < j - start ==> rest[t] == s@[t + start] && rest[t] != '\n');
                assert(rest[j - start] == '\n');
                lemma_find_nl(rest, j - start);
            }
            let end = if j > start && s.get_char(j - 1) == '\r' {
                j - 1
            } else {
                j
            };
            let line = s.substring_char(start, end);
            r.push(line);
            proof {
                assert(line@ =~= ended_line(rest.take(j - start)));
                assert(rest.skip(j - start + 1) =~= s@.skip(j + 1));
                assert(lines_spec(rest) == seq![ended_line(rest.take(j - start))] + lines_spec(
                    s@.skip(j as int + 1),
                ));
                assert(lines_spec(s@) =~= r.deep_view() + lines_spec(s@.skip(j as int + 1)));
            }
            start = j + 1;
        } else {
            proof {
                assert(forall|t: int| 0 <= t < rest.len() ==> rest[t] == s@[t + start]);
                lemma_find_nl_none(rest);
                assert(rest.len() > 0);
                assert(lines_spec(rest) == seq![rest]);
            }
            let line = s.substring_char(start, n);
            r.push(line);
            proof {
                assert(line@ =~= rest);
                assert(lines_spec(s@.skip(n as int)) =~= Seq::<Seq<char>>::empty());
                assert(lines_spec(s@) =~= r.deep_view() + lines_spec(s@.skip(n as int)));
            }
            start = n;
        }
    }
    proof {
        assert(lines_spec(s@.skip(n as int)) =~= Seq::<Seq<char>>::empty());
        assert(r.deep_view() =~= lines_spec(s@));
    }
    r
}

/// A structural fault of the text: parsing stops at the first one, carrying
/// the zero-based line number.
#[derive(Debug, Clone, Copy, PartialEq, Eq, Structural)]
pub enum ParseError {
    /// A section header opened a bracket and never closed it.
    NoClosingBracket { line: usize },
    /// A continuation line appeared before any key.
    IndentWithoutEntry { line: usize },
    /// A delimited line whose key trims to nothing; `col` is the delimiter
    /// position.
    EmptyKey { line: usize, col: usize },
}

/// The message a parse error carries.
pub open spec fn message_spec(e: ParseError) -> Seq<char> {
    match e {
        ParseError::NoClosingBracket { line } => "line "@ + dec_str(line as nat)
            + ": Found opening bracket for section name but no closing bracket"@,
        ParseError::IndentWithoutEntry { line } => "line "@ + dec_str(line as nat)
            + ": Started with indentation but there is no current entry"@,
        ParseError::EmptyKey { line, col } => "line "@ + dec_str(line as nat) + ":"@ + dec_str(
            col as nat,
        ) + ": Key cannot be empty"@,
    }
}

impl ParseError {
    /// The message of this error.
    pub fn to_message(&self) -> (r: String)
        ensures
            r@ == message_spec(*self),
    {
        match *self {
            ParseError::NoClosingBracket { line } => {
                let mut s = String::from_str("line ");
                s.append(crate::num::u64_to_string(line as u64).as_str());
                s.append(": Found opening bracket for section name but no closing bracket");
                s
            },
            ParseError::IndentWithoutEntry { line } => {
                let mut s = String::from_str("line ");
                s.append(crate::num::u64_to_string(line as u64).as_str());
                s.append(": Started with indentation but there is no current entry");
                s
            },
            ParseError::EmptyKey { line, col } => {
                let mut s = String::from_str("line ");
                s.append(crate::num::u64_to_string(line as u64).as_str());
                s.append(":");
                s.append(crate::num::u64_to_string(col as u64).as_str());
                s.append(": Key cannot be empty");
                s
            },
        }
    }
}

/// The grammar parameters a parse runs under.
pub struct ParseOpts {
    /// Characters that open a whole-line comment.
    pub comment: Seq<char>,
    /// Characters that cut a line short from their first occurrence on.
    pub inline: Seq<char>,
    /// Characters that separate a key from its value.
    pub delims: Seq<char>,
    /// Whether names are kept as written rather than lower-cased.
    pub cs: bool,
    /// Whether indented lines continue the previous value.
    pub multiline: bool,
}

/// The parser's running state: the tree built so far, the section and key
/// being filled, and the pending blank-line count.
pub struct ParseState {
    /// The tree built so far.
    pub tree: TreeV,
    /// The section the next keys fall into.
    pub section: Seq<char>,
    /// The key a continuation line would extend.
    pub cur_key: Option<Seq<char>>,
    /// Blank lines seen since the last entry, kept for multiline values.
    pub blanks: nat,
}

/// A name as the store keeps it: as written when case-sensitive, lower-cased
/// otherwise.
pub open spec fn caser_spec(cs: bool, s: Seq<char>) -> Seq<char> {
    if cs {
        s
    } else {
        lower_of(s)
    }
}

/// One line's effect on the parser state, mirroring the grammar: whole-line
/// comments are dropped; inline comments cut the line; a line with nothing
/// left is counted as blank; a bracket at the first position opens a section
/// header; with multiline on, an indented line continues the previous key;
/// anything else writes a key, split at the first delimiter if one occurs.
pub open spec fn line_step(st: ParseState, raw: Seq<char>, num: int, o: ParseOpts) -> Result<
    ParseState,
    ParseError,
> {
    let line = trim_spec(raw);
    if line.len() > 0 && o.comment.contains(line[0]) {
        Ok(st)
    } else {
        let cut = (match find_in_set_spec(line, o.inline) {
            Some(i) => line.take(i),
            None => line,
        });
        let t = trim_spec(cut);
        if t.len() == 0 {
            Ok(
                (ParseState {
                    blanks: st.blanks + 1,
                    ..st
                }),
            )
        } else if t[0] == '[' {
            match rfind_spec(t, ']') {
                Some(end) => {
                    let name = caser_spec(o.cs, trim_spec(t.subrange(1, end)));
                    Ok(
                        (ParseState {
                            tree: tree_ensure(st.tree, name),
                            section: name,
                            ..st
                        }),
                    )
                },
                None => Err((ParseError::NoClosingBracket { line: num as usize })),
            }
        } else if o.multiline && raw.len() > 0 && is_space_char(raw[0]) {
            match st.cur_key {
                None => Err((ParseError::IndentWithoutEntry { line: num as usize })),
                Some(k) => Ok(
                    (ParseState {
                        tree: tree_continue(st.tree, st.section, k, st.blanks, t),
                        section: st.section,
                        cur_key: st.cur_key,
                        blanks: 0,
                    }),
                ),
            }
        } else {
            match find_in_set_spec(t, o.delims) {
                Some(d) => {
                    let key = caser_spec(o.cs, trim_spec(t.take(d)));
                    if key.len() == 0 {
                        Err((ParseError::EmptyKey { line: num as usize, col: d as usize }))
                    } else {
                        Ok(
                            (ParseState {
                                tree: tree_upsert(
                                    st.tree,
                                    st.section,
                                    key,
                                    Some(trim_spec(t.skip(d + 1))),
                                ),
                                section: st.section,
                                cur_key: Some(key),
                                blanks: 0,
                            }),
                        )
                    }
                },
                None => {
                    let key = caser_spec(o.cs, t);
                    Ok(
                        (ParseState {
                            tree: tree_upsert(st.tree, st.section, key, None),
                            section: st.section,
                            cur_key: Some(key),
                            blanks: 0,
                        }),
                    )
                },
            }
        }
    }
}

/// The remaining lines folded over the state: the finished tree, or the first
/// error.
pub open spec fn parse_lines(lines: Seq<Seq<char>>, i: int, st: ParseState, o: ParseOpts) -> Result<
    TreeV,
    ParseError,
>
    decreases lines.len() - i,
{
    if i < 0 || i >= lines.len() {
        Ok(st.tree)
    } else {
        match line_step(st, lines[i], i, o) {
            Ok(st2) => parse_lines(lines, i + 1, st2, o),
            Err(e) => Err(e),
        }
    }
}

/// The state a parse starts from: an empty tree, the default section current,
/// no key yet.
pub open spec fn init_state(default_cased: Seq<char>) -> ParseState {
    ParseState { tree: Seq::empty(), section: default_cased, cur_key: None, blanks: 0 }
}

/// What parsing a whole text yields: the tree, or the first structural error.
pub open spec fn parse_spec(text: Seq<char>, default_cased: Seq<char>, o: ParseOpts) -> Result<
    TreeV,
    ParseError,
> {
    parse_lines(lines_spec(text), 0, init_state(default_cased), o)
}

/// Parses a text, line by line, under the given grammar parameters. The
/// default section name is handed in already case-folded.
#[verifier::loop_isolation(false)]
pub fn parse_text(
    input: &str,
    default_cased: &String,
    comment: &Vec<char>,
    inline: &Vec<char>,
    delims: &Vec<char>,
    cs: bool,
    multiline: bool,
) -> (r: Result<IniMap, ParseError>)
    ensures
        (match r {
            Ok(m) => Ok(m@),
            Err(e) => Err(e),
        }) == parse_spec(
            input@,
            default_cased@,
            (ParseOpts { comment: comment@, inline: inline@, delims: delims@, cs, multiline }),
        ),
{
    let ghost o = ParseOpts { comment: comment@, inline: inline@, delims: delims@, cs, multiline };
    let lines = split_lines(input);
    let ghost ls = lines.deep_view();
    let mut map = IniMap::new();
    let mut section: String = default_cased.clone();
    let mut cur_key: Option<String> = None;
    let mut blanks: usize = 0;
    let n = lines.len();
    let mut i: usize = 0;
    proof {
        assert(ls == lines_spec(input@));
    }
    while i < n
        invariant
            i <= n,
            n == ls.len(),
            blanks <= i,
            lines.deep_view() == ls,
            n == lines@.len(),
            parse_lines(
                ls,
                i as int,
                (ParseState {
                    tree: map@,
                    section: section@,
                    cur_key: cur_key.deep_view(),
                    blanks: blanks as nat,
                }),
                o,
            ) == parse_spec(input@, default_cased@, o),
        decreases n - i,
    {
        let ghost st = ParseState {
            tree: map@,
            section: section@,
            cur_key: cur_key.deep_view(),
            blanks: blanks as nat,
        };
        let raw: &str = lines[i];
        proof {
            assert(raw@ == ls[i as int]);
        }
        let lt = trim_str(raw);
        let ltn = lt.unicode_len();
        if ltn > 0 && set_contains(comment.as_slice(), lt.get_char(0)) {
            // a whole-line comment: dropped entirely
            proof {
                assert(line_step(st, raw@, i as int, o) == Ok::<ParseState, ParseError>(st));
            }
            i += 1;
            continue ;
        }
        let cut: &str = match find_in_set(lt, inline.as_slice()) {
            Some(ix) => lt.substring_char(0, ix),
            None => lt,
        };
        proof {
            assert(cut@ =~= (match find_in_set_spec(lt@, o.inline) {
                Some(q) => lt@.take(q),
                None => lt@,
            }));
        }
        let t = trim_str(cut);
        let tn = t.unicode_len();
        if tn == 0 {
            // nothing left after the inline comment: the line counts as blank
            blanks += 1;
            proof {
                assert(line_step(st, raw@, i as int, o) == Ok::<ParseState, ParseError>(
                    (ParseState { blanks: st.blanks + 1, ..st }),
                ));
            }
            i += 1;
            continue ;
        }
        if t.get_char(0) == '[' {
            match rfind_char(t, ']') {
                Some(end) => {
                    let name_part = t.substring_char(1, end);
                    let name_trimmed = trim_str(name_part);
                    let name: String = if cs {
                        String::from_str(name_trimmed)
                    } else {
                        to_lower(name_trimmed)
                    };
                    map.ensure_section(&name);
                    section = name;
                },
                None => {
                    return Err(ParseError::NoClosingBracket { line: i });
                },
            }
        } else {
            let raw_n = raw.unicode_len();
            if multiline && raw_n > 0 && char_is_space(raw.get_char(0)) {
                match &cur_key {
                    None => {
                        return Err(ParseError::IndentWithoutEntry { line: i });
                    },
                    Some(k) => {
                        map.append_value(&section, k, blanks, t);
                        blanks = 0;
                    },
                }
            } else {
                match find_in_set(t, delims.as_slice()) {
                    Some(d) => {
                        let key_part = t.substring_char(0, d);
                        let key_trimmed = trim_str(key_part);
                        let key: String = if cs {
                            String::from_str(key_trimmed)
                        } else {
                            to_lower(key_trimmed)
                        };
                        if key.as_str().is_empty() {
                            return Err(ParseError::EmptyKey { line: i, col: d });
                        }
                        let value = trim_str(t.substring_char(d + 1, tn));
                        map.upsert_value(&section, key.clone(), Some(String::from_str(value)));
                        cur_key = Some(key);
                        blanks = 0;
                    },
                    None => {
                        let key: String = if cs {
                            String::from_str(t)
                        } else {
                            to_lower(t)
                        };
                        map.upsert_value(&section, key.clone(), None);
                        cur_key = Some(key);
                        blanks = 0;
                    },
                }
            }
        }
        proof {
            let st2 = ParseState {
                tree: map@,
                section: section@,
                cur_key: cur_key.deep_view(),
                blanks: blanks as nat,
            };
            assert(line_step(st, raw@, i as int, o) == Ok::<ParseState, ParseError>(st2));
        }
        i += 1;
    }
    proof {
        assert(parse_spec(input@, default_cased@, o) == Ok::<TreeV, ParseError>(map@));
    }
    Ok(map)
}

} // verus!
