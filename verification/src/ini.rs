//! The configuration store: an insertion-ordered tree of sections behind a
//! typed accessor and mutator API, filled by the parser and rendered by the
//! serializer.

use vstd::prelude::*;

use crate::map::{
    assoc_get, assoc_keys, assoc_remove, tree_lookup, tree_merge, tree_remove_key, tree_upsert,
    IniMap, PropMap, TreeV,
};
use crate::num::{i64_parse_spec, parse_i64, parse_u64, u64_parse_spec};
use crate::parse::{caser_spec, message_spec, parse_spec, parse_text, ParseOpts};
use crate::strutil::{lower_of, to_lower};
use crate::unparse::{unparse_spec, unparse_tree};

verus! {

/// The spellings the coercing boolean getter recognizes, for each truth
/// value.
#[derive(Debug, Clone, PartialEq, Eq)]
pub struct BoolValues {
    /// Spellings read as true.
    pub true_values: Vec<String>,
    /// Spellings read as false.
    pub false_values: Vec<String>,
}

/// A template of grammar and behaviour settings, used to create stores and to
/// carry their settings around.
#[derive(Debug, Clone, PartialEq, Eq)]
pub struct IniDefault {
    /// The name of the section keys fall into before any header.
    pub default_section: String,
    /// Characters that open a whole-line comment.
    pub comment_symbols: Vec<char>,
    /// Characters that cut a line short; `None` falls back to the comment
    /// symbols.
    pub inline_comment_symbols: Option<Vec<char>>,
    /// Characters that separate a key from its value.
    pub delimiters: Vec<char>,
    /// The spellings the coercing boolean getter recognizes.
    pub boolean_values: BoolValues,
    /// Whether names are kept as written rather than lower-cased.
    pub case_sensitive: bool,
    /// Whether indented lines continue the previous value.
    pub multiline: bool,
}

/// Formatting choices for the serializer.
#[derive(Debug, Clone, PartialEq, Eq, Structural)]
pub struct WriteOptions {
    /// Whether the delimiter is written as ` = ` rather than `=`; before an
    /// empty value the trailing space is dropped.
    pub space_around_delimiters: bool,
    /// How many spaces indent the later lines of a multiline value.
    pub multiline_line_indentation: usize,
    /// How many blank lines separate sections.
    pub blank_lines_between_sections: usize,
}

impl Default for WriteOptions {
    /// Compact formatting: bare delimiter, four-space indentation, no blank
    /// lines.
    fn default() -> (r: Self)
        ensures
            r.space_around_delimiters == false,
            r.multiline_line_indentation == 4,
            r.blank_lines_between_sections == 0,
    {
        WriteOptions {
            space_around_delimiters: false,
            multiline_line_indentation: 4,
            blank_lines_between_sections: 0,
        }
    }
}

impl WriteOptions {
    /// The default formatting.
    pub fn new() -> (r: WriteOptions)
        ensures
            r.space_around_delimiters == false,
            r.multiline_line_indentation == 4,
            r.blank_lines_between_sections == 0,
    {
        WriteOptions::default()
    }

    /// Formatting with every choice given.
    pub fn new_with_params(
        space_around_delimiters: bool,
        multiline_line_indentation: usize,
        blank_lines_between_sections: usize,
    ) -> (r: WriteOptions)
        ensures
            r.space_around_delimiters == space_around_delimiters,
            r.multiline_line_indentation == multiline_line_indentation,
            r.blank_lines_between_sections == blank_lines_between_sections,
    {
        WriteOptions { space_around_delimiters, multiline_line_indentation, blank_lines_between_sections }
    }
}

/// The mathematical content of a store: its tree and every setting.
#[verifier::ext_equal]
pub struct IniV {
    /// The configuration tree.
    pub tree: TreeV,
    /// The default section's configured name, as written.
    pub default_section: Seq<char>,
    /// The whole-line comment characters.
    pub comment: Seq<char>,
    /// The inline comment characters, `None` falling back to `comment`.
    pub inline_opt: Option<Seq<char>>,
    /// The key-value delimiter characters.
    pub delims: Seq<char>,
    /// Spellings the coercing boolean getter reads as true.
    pub trues: Seq<Seq<char>>,
    /// Spellings the coercing boolean getter reads as false.
    pub falses: Seq<Seq<char>>,
    /// Whether names are kept as written.
    pub cs: bool,
    /// Whether indented lines continue the previous value.
    pub multiline: bool,
}

/// The grammar parameters a store hands to the parser.
pub open spec fn popts(v: IniV) -> ParseOpts {
    ParseOpts {
        comment: v.comment,
        inline: (match v.inline_opt {
            Some(s) => s,
            None => v.comment,
        }),
        delims: v.delims,
        cs: v.cs,
        multiline: v.multiline,
    }
}

/// The default section's name as the tree holds it: case-folded unless the
/// store is case-sensitive.
pub open spec fn cased_default(v: IniV) -> Seq<char> {
    caser_spec(v.cs, v.default_section)
}

/// What `get` answers: the value stored under the case-folded section and
/// key, and `None` for a valueless or missing key alike.
pub open spec fn get_spec(v: IniV, s: Seq<char>, k: Seq<char>) -> Option<Seq<char>> {
    match tree_lookup(v.tree, caser_spec(v.cs, s), caser_spec(v.cs, k)) {
        Some(Some(x)) => Some(x),
        _ => None,
    }
}

/// Whether a sequence is one of a list.
pub open spec fn in_list(l: Seq<Seq<char>>, x: Seq<char>) -> bool {
    exists|i: int| 0 <= i < l.len() && l[i] == x
}

/// What `getbool` answers: absent or valueless keys give `Ok(None)`; a stored
/// value must spell `true` or `false`, case-insensitively; anything else is
/// an error naming the offending section and key.
pub open spec fn getbool_spec(v: IniV, s: Seq<char>, k: Seq<char>) -> Result<
    Option<bool>,
    Seq<char>,
> {
    match tree_lookup(v.tree, caser_spec(v.cs, s), caser_spec(v.cs, k)) {
        Some(Some(x)) => if lower_of(x) == "true"@ {
            Ok(Some(true))
        } else if lower_of(x) == "false"@ {
            Ok(Some(false))
        } else {
            Err(
                "Unable to parse value into bool at "@ + caser_spec(v.cs, s) + ":"@ + caser_spec(
                    v.cs,
                    k,
                ),
            )
        },
        _ => Ok(None),
    }
}

/// What `getboolcoerce` answers: as `getbool`, but any configured spelling is
/// accepted, the true spellings checked first.
pub open spec fn getboolcoerce_spec(v: IniV, s: Seq<char>, k: Seq<char>) -> Result<
    Option<bool>,
    Seq<char>,
> {
    match tree_lookup(v.tree, caser_spec(v.cs, s), caser_spec(v.cs, k)) {
        Some(Some(x)) => if in_list(v.trues, lower_of(x)) {
            Ok(Some(true))
        } else if in_list(v.falses, lower_of(x)) {
            Ok(Some(false))
        } else {
            Err(
                "Unable to parse value into bool at "@ + caser_spec(v.cs, s) + ":"@ + caser_spec(
                    v.cs,
                    k,
                ),
            )
        },
        _ => Ok(None),
    }
}

/// What `getint` answers: absent or valueless keys give `Ok(None)`; a stored
/// value must read as a signed 64-bit decimal.
pub open spec fn getint_spec(v: IniV, s: Seq<char>, k: Seq<char>) -> Result<
    Option<i64>,
    Seq<char>,
> {
    match tree_lookup(v.tree, caser_spec(v.cs, s), caser_spec(v.cs, k)) {
        Some(Some(x)) => match i64_parse_spec(x) {
            Some(n) => Ok(Some(n)),
            None => Err(
                "Unable to parse value into integer at "@ + caser_spec(v.cs, s) + ":"@
                    + caser_spec(v.cs, k),
            ),
        },
        _ => Ok(None),
    }
}

/// What `getuint` answers: as `getint`, for unsigned 64-bit values.
pub open spec fn getuint_spec(v: IniV, s: Seq<char>, k: Seq<char>) -> Result<
    Option<u64>,
    Seq<char>,
> {
    match tree_lookup(v.tree, caser_spec(v.cs, s), caser_spec(v.cs, k)) {
        Some(Some(x)) => match u64_parse_spec(x) {
            Some(n) => Ok(Some(n)),
            None => Err(
                "Unable to parse value into unsigned integer at "@ + caser_spec(v.cs, s) + ":"@
                    + caser_spec(v.cs, k),
            ),
        },
        _ => Ok(None),
    }
}

/// The settings a plain `new` store starts with: lower-casing on, `;` and `#`
/// comments, `=` and `:` delimiters, the usual boolean spellings, multiline
/// off, and an empty tree.
pub open spec fn default_options_view() -> IniV {
    IniV {
        tree: Seq::empty(),
        default_section: "default"@,
        comment: seq![';', '#'],
        inline_opt: None,
        delims: seq!['=', ':'],
        trues: seq!["true"@, "yes"@, "t"@, "y"@, "on"@, "1"@],
        falses: seq!["false"@, "no"@, "f"@, "n"@, "off"@, "0"@],
        cs: false,
        multiline: false,
    }
}

impl Default for IniDefault {
    /// The stock template: the settings of `default_options_view`.
    fn default() -> (r: Self)
        ensures
            r.default_section@ == "default"@,
            r.comment_symbols@ == seq![';', '#'],
            r.inline_comment_symbols is None,
            r.delimiters@ == seq!['=', ':'],
            r.boolean_values.true_values.deep_view() == seq![
                "true"@,
                "yes"@,
                "t"@,
                "y"@,
                "on"@,
                "1"@,
            ],
            r.boolean_values.false_values.deep_view() == seq![
                "false"@,
                "no"@,
                "f"@,
                "n"@,
                "off"@,
                "0"@,
            ],
            r.case_sensitive == false,
            r.multiline == false,
    {
        let mut comment_symbols: Vec<char> = Vec::new();
        comment_symbols.push(';');
        comment_symbols.push('#');
        let mut delimiters: Vec<char> = Vec::new();
        delimiters.push('=');
        delimiters.push(':');
        let mut true_values: Vec<String> = Vec::new();
        true_values.push(String::from_str("true"));
        true_values.push(String::from_str("yes"));
        true_values.push(String::from_str("t"));
        true_values.push(String::from_str("y"));
        true_values.push(String::from_str("on"));
        true_values.push(String::from_str("1"));
        let mut false_values: Vec<String> = Vec::new();
        false_values.push(String::from_str("false"));
        false_values.push(String::from_str("no"));
        false_values.push(String::from_str("f"));
        false_values.push(String::from_str("n"));
        false_values.push(String::from_str("off"));
        false_values.push(String::from_str("0"));
        proof {
            assert(comment_symbols@ =~= seq![';', '#']);
            assert(delimiters@ =~= seq!['=', ':']);
            assert(true_values.deep_view() =~= seq!["true"@, "yes"@, "t"@, "y"@, "on"@, "1"@]);
            assert(false_values.deep_view() =~= seq!["false"@, "no"@, "f"@, "n"@, "off"@, "0"@]);
        }
        IniDefault {
            default_section: String::from_str("default"),
            comment_symbols,
            inline_comment_symbols: None,
            delimiters,
            boolean_values: BoolValues { true_values, false_values },
            case_sensitive: false,
            multiline: false,
        }
    }
}

/// The configuration store: a tree of sections and the grammar settings the
/// parser, serializer and accessors follow.
#[derive(Debug)]
pub struct Ini {
    map: IniMap,
    default_section: String,
    comment_symbols: Vec<char>,
    inline_comment_symbols: Option<Vec<char>>,
    delimiters: Vec<char>,
    boolean_values: BoolValues,
    case_sensitive: bool,
    multiline: bool,
}

impl View for Ini {
    type V = IniV;

    closed spec fn view(&self) -> IniV {
        IniV {
            tree: self.map@,
            default_section: self.default_section@,
            comment: self.comment_symbols@,
            inline_opt: (match self.inline_comment_symbols {
                Some(ref v) => Some(v@),
                None => None,
            }),
            delims: self.delimiters@,
            trues: self.boolean_values.true_values.deep_view(),
            falses: self.boolean_values.false_values.deep_view(),
            cs: self.case_sensitive,
            multiline: self.multiline,
        }
    }
}

/// A name as the store keeps it: as written when case-sensitive, lower-cased
/// otherwise.
fn fold_name(cs: bool, s: &str) -> (r: String)
    ensures
        r@ == caser_spec(cs, s@),
{
    if cs {
        s.to_owned()
    } else {
        to_lower(s)
    }
}

/// Whether a string is one of a list.
fn list_has(list: &Vec<String>, x: &String) -> (r: bool)
    ensures
        r == in_list(list.deep_view(), x@),
{
    let n = list.len();
    let mut i: usize = 0;
    while i < n
        invariant
            i <= n,
            n == list@.len(),
            forall|j: int| 0 <= j < i ==> list@[j]@ != x@,
        decreases n - i,
    {
        if list[i] == *x {
            proof {
                assert(list.deep_view()[i as int] == x@);
            }
            return true;
        }
        i += 1;
    }
    proof {
        assert(forall|j: int| 0 <= j < list.deep_view().len() ==> list.deep_view()[j] != x@);
    }
    false
}

fn clone_string_vec(l: &Vec<String>) -> (r: Vec<String>)
    ensures
        r.deep_view() == l.deep_view(),
{
    let n = l.len();
    let mut r: Vec<String> = Vec::new();
    let mut i: usize = 0;
    while i < n
        invariant
            i <= n,
            n == l@.len(),
            r@.len() == i,
            forall|j: int| 0 <= j < i ==> r@[j]@ == l@[j]@,
        decreases n - i,
    {
        r.push(l[i].clone());
        i += 1;
    }
    proof {
        assert(r.deep_view() =~= l.deep_view());
    }
    r
}

fn clone_char_vec(l: &Vec<char>) -> (r: Vec<char>)
    ensures
        r@ == l@,
{
    let n = l.len();
    let mut r: Vec<char> = Vec::new();
    let mut i: usize = 0;
    while i < n
        invariant
            i <= n,
            n == l@.len(),
            r@.len() == i,
            forall|j: int| 0 <= j < i ==> r@[j] == l@[j],
        decreases n - i,
    {
        r.push(l[i]);
        i += 1;
    }
    proof {
        assert(r@ =~= l@);
    }
    r
}

impl Clone for Ini {
    /// A copy with the same tree and settings.
    fn clone(&self) -> (r: Self)
        ensures
            r@ == self@,
    {
        let r = Ini {
            map: self.map.duplicate(),
            default_section: self.default_section.clone(),
            comment_symbols: clone_char_vec(&self.comment_symbols),
            inline_comment_symbols: (match &self.inline_comment_symbols {
                Some(v) => Some(clone_char_vec(v)),
                None => None,
            }),
            delimiters: clone_char_vec(&self.delimiters),
            boolean_values: BoolValues {
                true_values: clone_string_vec(&self.boolean_values.true_values),
                false_values: clone_string_vec(&self.boolean_values.false_values),
            },
            case_sensitive: self.case_sensitive,
            multiline: self.multiline,
        };
        proof {
            assert(r@ =~= self@);
        }
        r
    }
}

impl Ini {
    /// A fresh store with the stock settings: case-insensitive, `;` and `#`
    /// comments, `=` and `:` delimiters.
    pub fn new() -> (r: Ini)
        ensures
            r@ == default_options_view(),
    {
        let r = Ini::new_from_defaults(IniDefault::default());
        proof {
            assert(r@ =~= default_options_view());
        }
        r
    }

    /// A fresh store with the stock settings but case-sensitive names.
    pub fn new_cs() -> (r: Ini)
        ensures
            r@ == (IniV { cs: true, ..default_options_view() }),
    {
        let mut d = IniDefault::default();
        d.case_sensitive = true;
        let r = Ini::new_from_defaults(d);
        proof {
            assert(r@ =~= (IniV { cs: true, ..default_options_view() }));
        }
        r
    }

    /// A fresh store with the given settings and an empty tree.
    pub fn new_from_defaults(defaults: IniDefault) -> (r: Ini)
        ensures
            r@ == (IniV {
                tree: Seq::empty(),
                default_section: defaults.default_section@,
                comment: defaults.comment_symbols@,
                inline_opt: defaults.inline_comment_symbols.deep_view(),
                delims: defaults.delimiters@,
                trues: defaults.boolean_values.true_values.deep_view(),
                falses: defaults.boolean_values.false_values.deep_view(),
                cs: defaults.case_sensitive,
                multiline: defaults.multiline,
            }),
    {
        let r = Ini {
            map: IniMap::new(),
            default_section: defaults.default_section,
            comment_symbols: defaults.comment_symbols,
            inline_comment_symbols: defaults.inline_comment_symbols,
            delimiters: defaults.delimiters,
            boolean_values: defaults.boolean_values,
            case_sensitive: defaults.case_sensitive,
            multiline: defaults.multiline,
        };
        proof {
            assert(r@ =~= (IniV {
                tree: Seq::empty(),
                default_section: defaults.default_section@,
                comment: defaults.comment_symbols@,
                inline_opt: defaults.inline_comment_symbols.deep_view(),
                delims: defaults.delimiters@,
                trues: defaults.boolean_values.true_values.deep_view(),
                falses: defaults.boolean_values.false_values.deep_view(),
                cs: defaults.case_sensitive,
                multiline: defaults.multiline,
            }));
        }
        r
    }

    /// The store's settings, as a template.
    pub fn defaults(&self) -> (r: IniDefault)
        ensures
            r.default_section@ == self@.default_section,
            r.comment_symbols@ == self@.comment,
            r.inline_comment_symbols.deep_view() == self@.inline_opt,
            r.delimiters@ == self@.delims,
            r.boolean_values.true_values.deep_view() == self@.trues,
            r.boolean_values.false_values.deep_view() == self@.falses,
            r.case_sensitive == self@.cs,
            r.multiline == self@.multiline,
    {
        IniDefault {
            default_section: self.default_section.clone(),
            comment_symbols: clone_char_vec(&self.comment_symbols),
            inline_comment_symbols: (match &self.inline_comment_symbols {
                Some(v) => Some(clone_char_vec(v)),
                None => None,
            }),
            delimiters: clone_char_vec(&self.delimiters),
            boolean_values: BoolValues {
                true_values: clone_string_vec(&self.boolean_values.true_values),
                false_values: clone_string_vec(&self.boolean_values.false_values),
            },
            case_sensitive: self.case_sensitive,
            multiline: self.multiline,
        }
    }

    /// Takes every setting of a template; the tree is kept. Affects only
    /// future parses, never already-parsed content.
    pub fn load_defaults(&mut self, defaults: IniDefault)
        ensures
            final(self)@ == (IniV {
                default_section: defaults.default_section@,
                comment: defaults.comment_symbols@,
                inline_opt: defaults.inline_comment_symbols.deep_view(),
                delims: defaults.delimiters@,
                trues: defaults.boolean_values.true_values.deep_view(),
                falses: defaults.boolean_values.false_values.deep_view(),
                cs: defaults.case_sensitive,
                multiline: defaults.multiline,
                ..old(self)@
            }),
    {
        self.default_section = defaults.default_section;
        self.comment_symbols = defaults.comment_symbols;
        self.inline_comment_symbols = defaults.inline_comment_symbols;
        self.delimiters = defaults.delimiters;
        self.boolean_values = defaults.boolean_values;
        self.case_sensitive = defaults.case_sensitive;
        self.multiline = defaults.multiline;
        proof {
            assert(self@ =~= (IniV {
                default_section: self.default_section@,
                comment: self.comment_symbols@,
                inline_opt: (match self.inline_comment_symbols {
                    Some(ref v) => Some(v@),
                    None => None,
                }),
                delims: self.delimiters@,
                trues: self.boolean_values.true_values.deep_view(),
                falses: self.boolean_values.false_values.deep_view(),
                cs: self.case_sensitive,
                multiline: self.multiline,
                ..old(self)@
            }));
        }
    }

    /// Renames the default section for future parses and writes.
    pub fn set_default_section(&mut self, section: &str)
        ensures
            final(self)@ == (IniV { default_section: section@, ..old(self)@ }),
    {
        self.default_section = section.to_owned();
        proof {
            assert(self@ =~= (IniV { default_section: section@, ..old(self)@ }));
        }
    }

    /// Replaces the whole-line comment characters for future parses.
    pub fn set_comment_symbols(&mut self, symlist: &[char])
        ensures
            final(self)@ == (IniV { comment: symlist@, ..old(self)@ }),
    {
        self.comment_symbols = vstd::slice::slice_to_vec(symlist);
        proof {
            assert(self@ =~= (IniV { comment: symlist@, ..old(self)@ }));
        }
    }

    /// Replaces the inline comment characters for future parses; `None` falls
    /// back to the whole-line comment characters.
    pub fn set_inline_comment_symbols(&mut self, symlist: Option<&[char]>)
        ensures
            final(self)@ == (IniV {
                inline_opt: (match symlist {
                    Some(sl) => Some(sl@),
                    None => None,
                }),
                ..old(self)@
            }),
    {
        self.inline_comment_symbols = match symlist {
            Some(sl) => Some(vstd::slice::slice_to_vec(sl)),
            None => None,
        };
        proof {
            assert(self@ =~= (IniV {
                inline_opt: (match symlist {
                    Some(sl) => Some(sl@),
                    None => None,
                }),
                ..old(self)@
            }));
        }
    }

    /// Switches multiline values on or off for future parses and writes.
    pub fn set_multiline(&mut self, multiline: bool)
        ensures
            final(self)@ == (IniV { multiline, ..old(self)@ }),
    {
        self.multiline = multiline;
        proof {
            assert(self@ =~= (IniV { multiline, ..old(self)@ }));
        }
    }

    /// The section names, in the tree's order.
    pub fn sections(&self) -> (r: Vec<String>)
        ensures
            r.deep_view() == assoc_keys(self@.tree),
    {
        self.map.section_names()
    }

    /// Parses a text and replaces the tree with the outcome; on a parse error
    /// the store is left untouched. Returns a copy of the new tree, or the
    /// error's message.
    pub fn read(&mut self, input: String) -> (r: Result<IniMap, String>)
        ensures
            (match parse_spec(input@, cased_default(old(self)@), popts(old(self)@)) {
                Ok(t) => (match r {
                    Ok(m) => m@ == t && final(self)@ == (IniV { tree: t, ..old(self)@ }),
                    Err(_) => false,
                }),
                Err(e) => (match r {
                    Ok(_) => false,
                    Err(m) => m@ == message_spec(e) && final(self)@ == old(self)@,
                }),
            }),
    {
        let cased = fold_name(self.case_sensitive, self.default_section.as_str());
        let outcome = match &self.inline_comment_symbols {
            Some(v) => parse_text(
                input.as_str(),
                &cased,
                &self.comment_symbols,
                v,
                &self.delimiters,
                self.case_sensitive,
                self.multiline,
            ),
            None => parse_text(
                input.as_str(),
                &cased,
                &self.comment_symbols,
                &self.comment_symbols,
                &self.delimiters,
                self.case_sensitive,
                self.multiline,
            ),
        };
        match outcome {
            Ok(m) => {
                self.map = m;
                proof {
                    assert(self@ =~= (IniV { tree: self.map@, ..old(self)@ }));
                }
                Ok(self.map.duplicate())
            },
            Err(e) => Err(e.to_message()),
        }
    }

    /// Parses a text and merges the outcome into the tree: incoming keys
    /// overwrite, everything else is kept; on a parse error the store is left
    /// untouched. Returns a copy of the merged tree, or the error's message.
    pub fn read_and_append(&mut self, input: String) -> (r: Result<IniMap, String>)
        ensures
            (match parse_spec(input@, cased_default(old(self)@), popts(old(self)@)) {
                Ok(t) => (match r {
                    Ok(m) => m@ == tree_merge(old(self)@.tree, t) && final(self)@ == (IniV {
                        tree: tree_merge(old(self)@.tree, t),
                        ..old(self)@
                    }),
                    Err(_) => false,
                }),
                Err(e) => (match r {
                    Ok(_) => false,
                    Err(m) => m@ == message_spec(e) && final(self)@ == old(self)@,
                }),
            }),
    {
        let cased = fold_name(self.case_sensitive, self.default_section.as_str());
        let outcome = match &self.inline_comment_symbols {
            Some(v) => parse_text(
                input.as_str(),
                &cased,
                &self.comment_symbols,
                v,
                &self.delimiters,
                self.case_sensitive,
                self.multiline,
            ),
            None => parse_text(
                input.as_str(),
                &cased,
                &self.comment_symbols,
                &self.comment_symbols,
                &self.delimiters,
                self.case_sensitive,
                self.multiline,
            ),
        };
        match outcome {
            Ok(loaded) => {
                self.map.merge_from(&loaded);
                proof {
                    assert(self@ =~= (IniV { tree: self.map@, ..old(self)@ }));
                }
                Ok(self.map.duplicate())
            },
            Err(e) => Err(e.to_message()),
        }
    }

    /// The tree as INI text with compact formatting.
    pub fn writes(&self) -> (r: String)
        ensures
            r@ == unparse_spec(
                self@.tree,
                cased_default(self@),
                self@.multiline,
                false,
                4,
                0,
            ),
    {
        let cased = fold_name(self.case_sensitive, self.default_section.as_str());
        unparse_tree(&self.map, &cased, self.multiline, false, 4, 0)
    }

    /// The tree as INI text with the given formatting.
    pub fn pretty_writes(&self, write_options: &WriteOptions) -> (r: String)
        ensures
            r@ == unparse_spec(
                self@.tree,
                cased_default(self@),
                self@.multiline,
                write_options.space_around_delimiters,
                write_options.multiline_line_indentation as nat,
                write_options.blank_lines_between_sections as nat,
            ),
    {
        let cased = fold_name(self.case_sensitive, self.default_section.as_str());
        unparse_tree(
            &self.map,
            &cased,
            self.multiline,
            write_options.space_around_delimiters,
            write_options.multiline_line_indentation,
            write_options.blank_lines_between_sections,
        )
    }

    /// The stored value of a key: `None` both when it is absent and when it
    /// is valueless; only the map view tells those apart.
    pub fn get(&self, section: &str, key: &str) -> (r: Option<String>)
        ensures
            r.deep_view() == get_spec(self@, section@, key@),
    {
        let s = fold_name(self.case_sensitive, section);
        let k = fold_name(self.case_sensitive, key);
        match self.map.get(&s) {
            Some(pm) => match pm.get(&k) {
                Some(v) => match v {
                    Some(x) => Some(x.clone()),
                    None => None,
                },
                None => None,
            },
            None => None,
        }
    }

    /// The value read as a boolean: only `true` and `false`, in any casing.
    pub fn getbool(&self, section: &str, key: &str) -> (r: Result<Option<bool>, String>)
        ensures
            (match r {
                Ok(v) => getbool_spec(self@, section@, key@) == Ok::<Option<bool>, Seq<char>>(v),
                Err(m) => getbool_spec(self@, section@, key@) == Err::<Option<bool>, Seq<char>>(
                    m@,
                ),
            }),
    {
        let s = fold_name(self.case_sensitive, section);
        let k = fold_name(self.case_sensitive, key);
        match self.map.get(&s) {
            Some(pm) => match pm.get(&k) {
                Some(v) => match v {
                    Some(x) => {
                        let lowered = to_lower(x.as_str());
                        let t = String::from_str("true");
                        let f = String::from_str("false");
                        if lowered == t {
                            Ok(Some(true))
                        } else if lowered == f {
                            Ok(Some(false))
                        } else {
                            let mut m = String::from_str("Unable to parse value into bool at ");
                            m.append(s.as_str());
                            m.append(":");
                            m.append(k.as_str());
                            Err(m)
                        }
                    },
                    None => Ok(None),
                },
                None => Ok(None),
            },
            None => Ok(None),
        }
    }

    /// The value read as a boolean, accepting every configured spelling.
    pub fn getboolcoerce(&self, section: &str, key: &str) -> (r: Result<Option<bool>, String>)
        ensures
            (match r {
                Ok(v) => getboolcoerce_spec(self@, section@, key@) == Ok::<
                    Option<bool>,
                    Seq<char>,
                >(v),
                Err(m) => getboolcoerce_spec(self@, section@, key@) == Err::<
                    Option<bool>,
                    Seq<char>,
                >(m@),
            }),
    {
        let s = fold_name(self.case_sensitive, section);
        let k = fold_name(self.case_sensitive, key);
        match self.map.get(&s) {
            Some(pm) => match pm.get(&k) {
                Some(v) => match v {
                    Some(x) => {
                        let lowered = to_lower(x.as_str());
                        if list_has(&self.boolean_values.true_values, &lowered) {
                            Ok(Some(true))
                        } else if list_has(&self.boolean_values.false_values, &lowered) {
                            Ok(Some(false))
                        } else {
                            let mut m = String::from_str("Unable to parse value into bool at ");
                            m.append(s.as_str());
                            m.append(":");
                            m.append(k.as_str());
                            Err(m)
                        }
                    },
                    None => Ok(None),
                },
                None => Ok(None),
            },
            None => Ok(None),
        }
    }

    /// The value read as a signed 64-bit integer.
    pub fn getint(&self, section: &str, key: &str) -> (r: Result<Option<i64>, String>)
        ensures
            (match r {
                Ok(v) => getint_spec(self@, section@, key@) == Ok::<Option<i64>, Seq<char>>(v),
                Err(m) => getint_spec(self@, section@, key@) == Err::<Option<i64>, Seq<char>>(m@),
            }),
    {
        let s = fold_name(self.case_sensitive, section);
        let k = fold_name(self.case_sensitive, key);
        match self.map.get(&s) {
            Some(pm) => match pm.get(&k) {
                Some(v) => match v {
                    Some(x) => match parse_i64(x.as_str()) {
                        Some(n) => Ok(Some(n)),
                        None => {
                            let mut m = String::from_str(
                                "Unable to parse value into integer at ",
                            );
                            m.append(s.as_str());
                            m.append(":");
                            m.append(k.as_str());
                            Err(m)
                        },
                    },
                    None => Ok(None),
                },
                None => Ok(None),
            },
            None => Ok(None),
        }
    }

    /// The value read as an unsigned 64-bit integer.
    pub fn getuint(&self, section: &str, key: &str) -> (r: Result<Option<u64>, String>)
        ensures
            (match r {
                Ok(v) => getuint_spec(self@, section@, key@) == Ok::<Option<u64>, Seq<char>>(v),
                Err(m) => getuint_spec(self@, section@, key@) == Err::<Option<u64>, Seq<char>>(
                    m@,
                ),
            }),
    {
        let s = fold_name(self.case_sensitive, section);
        let k = fold_name(self.case_sensitive, key);
        match self.map.get(&s) {
            Some(pm) => match pm.get(&k) {
                Some(v) => match v {
                    Some(x) => match parse_u64(x.as_str()) {
                        Some(n) => Ok(Some(n)),
                        None => {
                            let mut m = String::from_str(
                                "Unable to parse value into unsigned integer at ",
                            );
                            m.append(s.as_str());
                            m.append(":");
                            m.append(k.as_str());
                            Err(m)
                        },
                    },
                    None => Ok(None),
                },
                None => Ok(None),
            },
            None => Ok(None),
        }
    }

    /// A copy of the tree, or `None` when it is empty.
    pub fn get_map(&self) -> (r: Option<IniMap>)
        ensures
            (match r {
                Some(m) => self@.tree.len() > 0 && m@ == self@.tree,
                None => self@.tree.len() == 0,
            }),
    {
        if self.map.is_empty() {
            None
        } else {
            Some(self.map.duplicate())
        }
    }

    /// The tree itself, read-only.
    pub fn get_map_ref<'a>(&'a self) -> (r: &'a IniMap)
        ensures
            r@ == self@.tree,
    {
        &self.map
    }

    /// The tree itself, for direct mutation; nothing case-folds what is
    /// written through it.
    pub fn get_mut_map<'a>(&'a mut self) -> (r: &'a mut IniMap)
        ensures
            r@ == old(self)@.tree,
            final(self)@ == (IniV { tree: final(r)@, ..old(self)@ }),
    {
        &mut self.map
    }

    /// Writes a value under a section and key, case-folded, creating both as
    /// needed; returns what the key held before, if it existed.
    pub fn set(&mut self, section: &str, key: &str, value: Option<String>) -> (prev: Option<
        Option<String>,
    >)
        ensures
            final(self)@ == (IniV {
                tree: tree_upsert(
                    old(self)@.tree,
                    caser_spec(old(self)@.cs, section@),
                    caser_spec(old(self)@.cs, key@),
                    value.deep_view(),
                ),
                ..old(self)@
            }),
            prev.deep_view() == tree_lookup(
                old(self)@.tree,
                caser_spec(old(self)@.cs, section@),
                caser_spec(old(self)@.cs, key@),
            ),
    {
        let s = fold_name(self.case_sensitive, section);
        let k = fold_name(self.case_sensitive, key);
        let prev = self.map.upsert_value(&s, k, value);
        proof {
            assert(self@ =~= (IniV { tree: self.map@, ..old(self)@ }));
        }
        prev
    }

    /// As `set`, from a borrowed value.
    pub fn setstr(&mut self, section: &str, key: &str, value: Option<&str>) -> (prev: Option<
        Option<String>,
    >)
        ensures
            final(self)@ == (IniV {
                tree: tree_upsert(
                    old(self)@.tree,
                    caser_spec(old(self)@.cs, section@),
                    caser_spec(old(self)@.cs, key@),
                    (match value {
                        Some(v) => Some(v@),
                        None => None,
                    }),
                ),
                ..old(self)@
            }),
            prev.deep_view() == tree_lookup(
                old(self)@.tree,
                caser_spec(old(self)@.cs, section@),
                caser_spec(old(self)@.cs, key@),
            ),
    {
        let owned: Option<String> = match value {
            Some(v) => Some(v.to_owned()),
            None => None,
        };
        self.set(section, key, owned)
    }

    /// Empties the tree; the settings stay.
    pub fn clear(&mut self)
        ensures
            final(self)@ == (IniV { tree: Seq::empty(), ..old(self)@ }),
    {
        self.map.clear();
        proof {
            assert(self@ =~= (IniV { tree: Seq::empty(), ..old(self)@ }));
        }
    }

    /// Removes a whole section, case-folded; returns its properties if it
    /// existed.
    pub fn remove_section(&mut self, section: &str) -> (prev: Option<PropMap>)
        ensures
            final(self)@ == (IniV {
                tree: assoc_remove(old(self)@.tree, caser_spec(old(self)@.cs, section@)),
                ..old(self)@
            }),
            (match prev {
                Some(p) => assoc_get(old(self)@.tree, caser_spec(old(self)@.cs, section@))
                    == Some(p@),
                None => assoc_get(old(self)@.tree, caser_spec(old(self)@.cs, section@)) is None,
            }),
    {
        let s = fold_name(self.case_sensitive, section);
        let prev = self.map.remove_section_entry(&s);
        proof {
            assert(self@ =~= (IniV { tree: self.map@, ..old(self)@ }));
        }
        prev
    }

    /// Removes one key of a section, case-folded; returns what it held if it
    /// existed.
    pub fn remove_key(&mut self, section: &str, key: &str) -> (prev: Option<Option<String>>)
        ensures
            final(self)@ == (IniV {
                tree: tree_remove_key(
                    old(self)@.tree,
                    caser_spec(old(self)@.cs, section@),
                    caser_spec(old(self)@.cs, key@),
                ),
                ..old(self)@
            }),
            prev.deep_view() == tree_lookup(
                old(self)@.tree,
                caser_spec(old(self)@.cs, section@),
                caser_spec(old(self)@.cs, key@),
            ),
    {
        let s = fold_name(self.case_sensitive, section);
        let k = fold_name(self.case_sensitive, key);
        let prev = self.map.remove_value(&s, &k);
        proof {
            assert(self@ =~= (IniV { tree: self.map@, ..old(self)@ }));
        }
        prev
    }
}

} // verus!
