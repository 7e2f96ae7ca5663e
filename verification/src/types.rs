//! Artifact names, their kinds, and the errors of loading them.

use vstd::prelude::*;
use std::collections::VecDeque;
use std::rc::Rc;
use vstd::std_specs::iter::IteratorSpec;
use vstd::std_specs::cmp::PartialEqSpecImpl;
use vstd::utf8::{decode_utf8, encode_utf8, is_char_boundary};

use crate::names::{_parse_names, names_scan, stray_bracket_msg, unclosed_msg, NamesScan};
use crate::pattern::{compile, is_match, regex_compiles, regex_finds};
use crate::text::{
    chars_of, decimal, join_strings, join_with, lemma_split_nonempty, normalize, normalized,
    push_char, push_decimal, split_on, split_text, strings_view,
};

verus! {

broadcast use vstd::string::group_string_axioms;

/// Error raised while loading artifacts or their names.
#[derive(Debug)]
pub struct LoadError {
    pub desc: String,
}

impl LoadError {
    pub fn new(desc: String) -> (e: LoadError)
        ensures
            e.desc == desc,
    {
        LoadError { desc: desc }
    }

    /// The error as shown to the user.
    pub fn message(&self) -> (m: String)
        ensures
            m@ == "Parse Errors: "@ + self.desc@,
    {
        let mut m = "Parse Errors: ".to_string();
        m.append(self.desc.as_str());
        m
    }
}

pub type LoadResult<T> = Result<T, LoadError>;

/// The four kinds of artifact.
#[derive(Debug, Copy, Clone, PartialEq, Eq, Structural, Hash)]
pub enum ArtType {
    REQ,
    SPC,
    RSK,
    TST,
}

/// The pattern that a normalized artifact name must match as a whole: it
/// starts with its kind, optionally followed by `-` and characters from
/// A-Z, 0-9, `_` and `-`, and does not end in `-` (`laws::name_syntax`
/// writes this language out; that the regex engine accepts exactly it is
/// not proved here).
pub const ART_VALID_PATTERN: &'static str = "^(REQ|SPC|RSK|TST)(-[A-Z0-9_-]*[A-Z0-9_])?\\z";

/// The text of a kind.
pub open spec fn kind_text(ty: ArtType) -> Seq<char> {
    match ty {
        ArtType::REQ => seq!['R', 'E', 'Q'],
        ArtType::SPC => seq!['S', 'P', 'C'],
        ArtType::RSK => seq!['R', 'S', 'K'],
        ArtType::TST => seq!['T', 'S', 'T'],
    }
}

/// The kind a text names, if any.
pub open spec fn type_of_name(t: Seq<char>) -> Option<ArtType> {
    if t == kind_text(ArtType::REQ) {
        Some(ArtType::REQ)
    } else if t == kind_text(ArtType::SPC) {
        Some(ArtType::SPC)
    } else if t == kind_text(ArtType::RSK) {
        Some(ArtType::RSK)
    } else if t == kind_text(ArtType::TST) {
        Some(ArtType::TST)
    } else {
        None
    }
}

pub open spec fn bad_type_msg(raw: Seq<char>) -> Seq<char> {
    "name must start with REQ, RSK, SPC or TST: "@ + raw
}

pub open spec fn invalid_name_msg(raw: Seq<char>) -> Seq<char> {
    "invalid artifact name: "@ + raw
}

/// What a load result holds, with an error taken by its description.
pub open spec fn result_view<T: View>(r: LoadResult<T>) -> Result<T::V, Seq<char>> {
    match r {
        Ok(v) => Ok(v@),
        Err(e) => Err(e.desc@),
    }
}

/// The kind that the first segment `value` of the name `raw` gives.
pub open spec fn type_result(value: Seq<char>, raw: Seq<char>) -> Result<ArtType, Seq<char>> {
    match type_of_name(value) {
        Some(ty) => Ok(ty),
        None => Err(bad_type_msg(raw)),
    }
}

/// Reads the kind from the first segment of a name.
fn _get_type(value: &str, raw: &str) -> (r: LoadResult<ArtType>)
    ensures
        match r {
            Ok(ty) => type_result(value@, raw@) == Ok::<ArtType, Seq<char>>(ty),
            Err(e) => type_result(value@, raw@) == Err::<ArtType, Seq<char>>(e.desc@),
        },
{
    let cs = chars_of(value);
    if cs.len() == 3 {
        let (a, b, c) = (cs[0], cs[1], cs[2]);
        assert(value@ =~= seq![a, b, c]);
        if a == 'R' && b == 'E' && c == 'Q' {
            return Ok(ArtType::REQ);
        } else if a == 'S' && b == 'P' && c == 'C' {
            return Ok(ArtType::SPC);
        } else if a == 'R' && b == 'S' && c == 'K' {
            return Ok(ArtType::RSK);
        } else if a == 'T' && b == 'S' && c == 'T' {
            return Ok(ArtType::TST);
        }
    }
    let mut desc = "name must start with REQ, RSK, SPC or TST: ".to_string();
    desc.append(raw);
    Err(LoadError::new(desc))
}

/// An artifact name as written (`raw`), its normalized segments (`value`)
/// and its kind. Its display form is `display_text` (the name as written)
/// and its debug form `debug_text` (the segments joined with `-`); the
/// derived `Debug` prints the fields instead, since `fmt` cannot be written
/// by hand in verified code.
#[derive(Debug)]
pub struct ArtName {
    pub raw: String,
    pub value: Vec<String>,
    pub ty: ArtType,
}

impl Clone for ArtName {
    fn clone(&self) -> (r: ArtName)
        ensures
            r@ == self@,
    {
        let mut value: Vec<String> = Vec::new();
        let mut i: usize = 0;
        while i < self.value.len()
            invariant
                0 <= i <= self.value.len(),
                strings_view(value@) == strings_view(self.value@).take(i as int),
            decreases self.value.len() - i,
        {
            let seg = self.value[i].clone();
            let ghost before = strings_view(value@);
            value.push(seg);
            assert(strings_view(value@) =~= before.push(seg@));
            i = i + 1;
            assert(strings_view(self.value@).take(i as int) =~= strings_view(self.value@).take(
                i - 1,
            ).push(self.value@[i - 1]@));
        }
        assert(strings_view(self.value@).take(self.value.len() as int) =~= strings_view(self.value@));
        ArtName { raw: self.raw.clone(), value: value, ty: self.ty }
    }
}

/// The mathematical content of an artifact name.
#[verifier::ext_equal]
pub struct ArtNameV {
    pub raw: Seq<char>,
    pub value: Seq<Seq<char>>,
    pub ty: ArtType,
}

impl View for ArtName {
    type V = ArtNameV;

    open spec fn view(&self) -> ArtNameV {
        ArtNameV { raw: self.raw@, value: strings_view(self.value@), ty: self.ty }
    }
}

/// The segments of a name: its normalized text split at `-`.
pub open spec fn name_value(s: Seq<char>) -> Seq<Seq<char>> {
    split_on(normalize(s), '-')
}

/// Whether the normalized text matches the artifact-name pattern.
pub open spec fn art_text_valid(t: Seq<char>) -> bool {
    regex_compiles(ART_VALID_PATTERN@) && regex_finds(ART_VALID_PATTERN@, t)
}

/// The name read from `s`, given whether its normalized text matches the
/// artifact-name pattern.
pub open spec fn name_result(s: Seq<char>, matched: bool) -> Result<ArtNameV, Seq<char>> {
    if !matched {
        Err(invalid_name_msg(s))
    } else {
        match type_result(name_value(s)[0], s) {
            Ok(ty) => Ok(ArtNameV { raw: s, value: name_value(s), ty }),
            Err(e) => Err(e),
        }
    }
}

/// The name that `ArtName::from_str` reads from `s`.
pub open spec fn parse_name(s: Seq<char>) -> Result<ArtNameV, Seq<char>> {
    name_result(s, art_text_valid(normalize(s)))
}

/// Whether the normalized text matches the artifact-name pattern.
fn matches_art_pattern(t: &str) -> (b: bool)
    ensures
        b == art_text_valid(t@),
{
    match compile(ART_VALID_PATTERN) {
        Ok(m) => is_match(&m, t),
        Err(_) => false,
    }
}

impl ArtName {
    /// Builds the name for `s` once it is known whether its normalized text
    /// matches the artifact-name pattern.
    pub fn from_matched(s: &str, matched: bool) -> (r: LoadResult<ArtName>)
        ensures
            result_view(r) == name_result(s@, matched),
    {
        if !matched {
            let mut desc = "invalid artifact name: ".to_string();
            desc.append(s);
            return Err(LoadError::new(desc));
        }
        let norm = normalized(s);
        let value = split_text(norm.as_str(), '-');
        assert(value@.len() > 0) by {
            lemma_split_nonempty(norm@, '-');
        }
        let ty = _get_type(value[0].as_str(), s)?;
        Ok(ArtName { raw: s.to_string(), value: value, ty: ty })
    }

    /// Parses a name: upper-cases it, removes its spaces, checks it against
    /// the artifact-name pattern, splits it at `-` and reads its kind.
    pub fn from_str(s: &str) -> (r: LoadResult<ArtName>)
        ensures
            result_view(r) == parse_name(s@),
    {
        let norm = normalized(s);
        let matched = matches_art_pattern(norm.as_str());
        Self::from_matched(s, matched)
    }
}

/// The parent of a name: the name without its last segment, written with
/// `-` between its segments. A name of one segment has none.
pub open spec fn parent_of(n: ArtNameV) -> Option<ArtNameV> {
    if n.value.len() <= 1 {
        None
    } else {
        let v = n.value.drop_last();
        Some(ArtNameV { raw: join_with(v, '-'), value: v, ty: n.ty })
    }
}

/// The kind of the artifact that a name of more than one segment names as
/// the one it is part of: a test is part of a specification, a
/// specification part of a requirement.
pub open spec fn partof_kind(n: ArtNameV) -> Option<ArtType> {
    if n.value.len() <= 1 {
        None
    } else {
        match n.ty {
            ArtType::TST => Some(ArtType::SPC),
            ArtType::SPC => Some(ArtType::REQ),
            _ => None,
        }
    }
}

/// The text after the first three bytes of a name's UTF-8 encoding.
pub open spec fn after_three_bytes(raw: Seq<char>) -> Seq<char> {
    decode_utf8(encode_utf8(raw).subrange(3, encode_utf8(raw).len() as int))
}

/// Whether the name's UTF-8 encoding can be split after its third byte.
pub open spec fn splits_after_three(raw: Seq<char>) -> bool {
    is_char_boundary(encode_utf8(raw), 3)
}

/// The text of the named part-of: the name with its first three bytes
/// replaced by the kind's text.
pub open spec fn partof_text(n: ArtNameV, kind: ArtType) -> Seq<char> {
    kind_text(kind) + after_three_bytes(n.raw)
}

/// Whether the named part-of of `n` can be read as a name.
pub open spec fn partof_ready(n: ArtNameV) -> bool {
    match partof_kind(n) {
        Some(k) => splits_after_three(n.raw) && parse_name(partof_text(n, k)) is Ok,
        None => true,
    }
}

/// The names that a name names as what it is part of.
pub open spec fn named_partofs_of(n: ArtNameV) -> Seq<ArtNameV> {
    match partof_kind(n) {
        Some(k) => seq![parse_name(partof_text(n, k))->Ok_0],
        None => Seq::empty(),
    }
}

/// The views of a sequence of names.
pub open spec fn names_view(v: Seq<ArtName>) -> Seq<ArtNameV> {
    v.map_values(|n: ArtName| n@)
}

impl ArtName {
    /// The name without its last segment, if it has more than one.
    pub fn parent(&self) -> (r: Option<ArtName>)
        ensures
            match r {
                Some(p) => parent_of(self@) == Some(p@),
                None => parent_of(self@) is None,
            },
    {
        if self.value.len() <= 1 {
            return None;
        }
        let n = self.value.len() - 1;
        let mut value: Vec<String> = Vec::new();
        let mut i: usize = 0;
        while i < n
            invariant
                0 <= i <= n,
                n == self.value.len() - 1,
                strings_view(value@) == strings_view(self.value@).take(i as int),
            decreases n - i,
        {
            let seg = self.value[i].clone();
            let ghost before = strings_view(value@);
            value.push(seg);
            assert(strings_view(value@) =~= before.push(seg@));
            i = i + 1;
            assert(strings_view(self.value@).take(i as int) =~= strings_view(self.value@).take(
                i - 1,
            ).push(self.value@[i - 1]@));
        }
        assert(strings_view(value@) =~= strings_view(self.value@).drop_last());
        let raw = join_strings(&value, '-');
        Some(ArtName { raw: raw, value: value, ty: self.ty })
    }

    /// The name as written.
    pub fn display_text(&self) -> (r: String)
        ensures
            r@ == self.raw@,
    {
        self.raw.clone()
    }

    /// The segments joined with `-`.
    pub fn debug_text(&self) -> (r: String)
        ensures
            r@ == join_with(self@.value, '-'),
    {
        join_strings(&self.value, '-')
    }

    /// Whether the name is a kind alone.
    pub fn is_root(&self) -> (r: bool)
        ensures
            r == (self.value@.len() == 1),
    {
        self.value.len() == 1
    }

    /// The parent, shared.
    pub fn parent_rc(&self) -> (r: Option<Rc<ArtName>>)
        ensures
            match r {
                Some(p) => parent_of(self@) == Some(p@),
                None => parent_of(self@) is None,
            },
    {
        match self.parent() {
            Some(p) => Some(Rc::new(p)),
            None => None,
        }
    }

    /// The names that this name is part of by its own name: a test names the
    /// specification with the same segments, a specification the requirement.
    pub fn named_partofs(&self) -> (r: Vec<ArtName>)
        requires
            partof_ready(self@),
        ensures
            names_view(r@) == named_partofs_of(self@),
    {
        if self.value.len() <= 1 {
            let empty: Vec<ArtName> = Vec::new();
            assert(names_view(empty@) =~= Seq::empty());
            return empty;
        }
        let ty = self.ty;
        let mut out: Vec<ArtName> = Vec::new();
        match ty {
            ArtType::TST => {
                out.push(self._get_named_partof(ArtType::SPC));
            },
            ArtType::SPC => {
                out.push(self._get_named_partof(ArtType::REQ));
            },
            ArtType::RSK => {},
            ArtType::REQ => {},
        }
        assert(names_view(out@) =~= named_partofs_of(self@));
        out
    }

    /// The text of the named part-of of kind `kind`.
    fn partof_string(&self, kind: ArtType) -> (r: String)
        requires
            splits_after_three(self.raw@),
        ensures
            r@ == partof_text(self@, kind),
    {
        broadcast use vstd::utf8::encode_utf8_decode_utf8, vstd::utf8::encode_utf8_valid_utf8;

        let mut s = String::new();
        match kind {
            ArtType::REQ => {
                push_char(&mut s, 'R');
                push_char(&mut s, 'E');
                push_char(&mut s, 'Q');
            },
            ArtType::SPC => {
                push_char(&mut s, 'S');
                push_char(&mut s, 'P');
                push_char(&mut s, 'C');
            },
            ArtType::RSK => {
                push_char(&mut s, 'R');
                push_char(&mut s, 'S');
                push_char(&mut s, 'K');
            },
            ArtType::TST => {
                push_char(&mut s, 'T');
                push_char(&mut s, 'S');
                push_char(&mut s, 'T');
            },
        }
        assert(s@ =~= kind_text(kind));
        let raw: &str = self.raw.as_str();
        let (_head, tail) = raw.split_at(3);
        assert(tail@ == decode_utf8(encode_utf8(tail@)));
        assert(tail@ == after_three_bytes(self.raw@));
        s.append(tail);
        s
    }

    fn _get_named_partof(&self, kind: ArtType) -> (r: ArtName)
        requires
            splits_after_three(self.raw@),
            parse_name(partof_text(self@, kind)) is Ok,
        ensures
            r@ == parse_name(partof_text(self@, kind))->Ok_0,
    {
        let s = self.partof_string(kind);
        let r = ArtName::from_str(s.as_str());
        match r {
            Ok(n) => n,
            Err(_) => {
                assert(false);
                self.clone()
            },
        }
    }

    /// `named_partofs`, or `None` where the named part-of cannot be read
    /// as a name.
    pub fn try_named_partofs(&self) -> (r: Option<Vec<ArtName>>)
        ensures
            r is Some <==> partof_ready(self@),
            r matches Some(v) ==> names_view(v@) == named_partofs_of(self@),
    {
        let kind = if self.value.len() <= 1 {
            None
        } else {
            match self.ty {
                ArtType::TST => Some(ArtType::SPC),
                ArtType::SPC => Some(ArtType::REQ),
                _ => None,
            }
        };
        match kind {
            None => Some(self.named_partofs()),
            Some(k) => {
                if !self.raw.as_str().is_char_boundary(3) {
                    return None;
                }
                let s = self.partof_string(k);
                match ArtName::from_str(s.as_str()) {
                    Ok(_) => Some(self.named_partofs()),
                    Err(_) => None,
                }
            },
        }
    }
}

/// Two names are equal when their segments are.
impl PartialEq for ArtName {
    fn eq(&self, other: &ArtName) -> (r: bool) {
        same_value(self, other)
    }
}

impl PartialEqSpecImpl for ArtName {
    open spec fn obeys_eq_spec() -> bool {
        true
    }

    open spec fn eq_spec(&self, other: &ArtName) -> bool {
        self@.value == other@.value
    }
}

impl Eq for ArtName {}

/// Whether two names have the same segments.
pub fn same_value(a: &ArtName, b: &ArtName) -> (r: bool)
    ensures
        r == (a@.value == b@.value),
{
    if a.value.len() != b.value.len() {
        assert(a@.value.len() != b@.value.len());
        return false;
    }
    let mut i: usize = 0;
    while i < a.value.len()
        invariant
            0 <= i <= a.value.len(),
            a.value.len() == b.value.len(),
            forall|j: int| 0 <= j < i ==> a.value@[j]@ == b.value@[j]@,
        decreases a.value.len() - i,
    {
        if a.value[i] != b.value[i] {
            assert(a@.value[i as int] != b@.value[i as int]);
            return false;
        }
        i = i + 1;
    }
    assert(a@.value =~= b@.value);
    true
}

impl Default for ArtName {
    /// The name `REQ-default`.
    fn default() -> (r: ArtName)
        ensures
            r@ == (ArtNameV {
                raw: "REQ-default"@,
                value: seq![kind_text(ArtType::REQ), seq!['D', 'E', 'F', 'A', 'U', 'L', 'T']],
                ty: ArtType::REQ,
            }),
    {
        let mut value: Vec<String> = Vec::new();
        value.push("REQ".to_string());
        value.push("DEFAULT".to_string());
        proof {
            reveal_strlit("REQ");
            reveal_strlit("DEFAULT");
            assert("REQ"@ =~= kind_text(ArtType::REQ));
            assert("DEFAULT"@ =~= seq!['D', 'E', 'F', 'A', 'U', 'L', 'T']);
            assert(strings_view(value@) =~= seq![kind_text(ArtType::REQ), seq!['D', 'E', 'F', 'A', 'U', 'L', 'T']]);
        }
        ArtName { raw: "REQ-default".to_string(), value: value, ty: ArtType::REQ }
    }
}

/// A place in a file: its path and line and column.
#[derive(Debug, PartialEq, Eq)]
pub struct Loc {
    pub path: String,
    pub line_col: (usize, usize),
}

impl Clone for Loc {
    fn clone(&self) -> (r: Loc)
        ensures
            r == *self,
    {
        Loc { path: self.path.clone(), line_col: self.line_col }
    }
}

impl Loc {
    /// A made-up location, for artifacts that have none.
    pub fn fake() -> (l: Loc)
        ensures
            l.path@ == "fake"@,
            l.line_col == (42usize, 0usize),
    {
        Loc { path: "fake".to_string(), line_col: (42, 0) }
    }

    /// The location as `path(line:column)`.
    pub fn display_text(&self) -> (r: String)
        ensures
            r@ == self.path@ + seq!['('] + decimal(self.line_col.0 as nat) + seq![':'] + decimal(
                self.line_col.1 as nat,
            ) + seq![')'],
    {
        let mut r = self.path.clone();
        push_char(&mut r, '(');
        push_decimal(&mut r, self.line_col.0);
        push_char(&mut r, ':');
        push_decimal(&mut r, self.line_col.1);
        push_char(&mut r, ')');
        r
    }
}

/// Where the artifacts and the code that implements them are looked for,
/// and how output looks.
#[derive(Debug, Default, Clone)]
pub struct Settings {
    pub disabled: bool,
    pub paths: VecDeque<String>,
    pub code_paths: VecDeque<String>,
    pub exclude_code_paths: VecDeque<String>,
    pub color: bool,
}

/// Whether output is colored unless told otherwise. This is the value for
/// every platform other than Windows; Windows consoles would want `false`,
/// but one constant cannot differ by platform without conditional
/// compilation, which this library does not use.
pub const DEFAULT_COLOR: bool = true;

impl Settings {
    /// Enabled settings with no paths, colored as by default.
    pub fn new() -> (s: Settings)
        ensures
            !s.disabled,
            s.paths@.len() == 0,
            s.code_paths@.len() == 0,
            s.exclude_code_paths@.len() == 0,
            s.color == DEFAULT_COLOR,
    {
        Settings {
            disabled: false,
            paths: VecDeque::new(),
            code_paths: VecDeque::new(),
            exclude_code_paths: VecDeque::new(),
            color: DEFAULT_COLOR,
        }
    }
}

/// Reads a value from its text.
pub trait LoadFromStr: Sized {
    fn from_str(s: &str) -> LoadResult<Self>;
}

impl LoadFromStr for Rc<ArtName> {
    fn from_str(s: &str) -> (r: LoadResult<Rc<ArtName>>)
        ensures
            result_view(r) == parse_name(s@),
    {
        let name = ArtName::from_str(s)?;
        Ok(Rc::new(name))
    }
}

/// Adds a name to a set of names, unless a name with the same segments is
/// already there.
pub open spec fn insert_name(ns: Seq<ArtNameV>, n: ArtNameV) -> Seq<ArtNameV> {
    if exists|i: int| 0 <= i < ns.len() && ns[i].value == n.value {
        ns
    } else {
        ns.push(n)
    }
}

/// The set of names read from a list of texts, or the first error.
pub open spec fn collect_names(list: Seq<Seq<char>>) -> Result<Seq<ArtNameV>, Seq<char>>
    decreases list.len(),
{
    if list.len() == 0 {
        Ok(Seq::empty())
    } else {
        match collect_names(list.drop_last()) {
            Err(e) => Err(e),
            Ok(ns) => match parse_name(list.last()) {
                Err(e) => Err(e),
                Ok(n) => Ok(insert_name(ns, n)),
            },
        }
    }
}

/// The set of names that a names list stands for, or why it has none.
pub open spec fn names_result(s: Seq<char>) -> Result<Seq<ArtNameV>, Seq<char>> {
    match names_scan(s, false) {
        NamesScan::Names { names, .. } => collect_names(names),
        NamesScan::Unclosed { .. } => Err(unclosed_msg()),
        NamesScan::StrayBracket { .. } => Err(stray_bracket_msg()),
    }
}

/// No two names of the sequence have the same segments.
pub open spec fn distinct_names(ns: Seq<ArtNameV>) -> bool {
    forall|i: int, j: int| 0 <= i < j < ns.len() ==> ns[i].value != ns[j].value
}

/// A set of artifact names; names with the same segments count once, and of
/// such names the first added is kept, as with a hash set whose hash and
/// equality go by the segments. `ArtName` has no such hash (a derived one
/// would also hash the written form), so the set is a vector that never
/// holds two names with the same segments.
pub struct ArtNames {
    names: Vec<Rc<ArtName>>,
}

impl View for ArtNames {
    type V = Seq<ArtNameV>;

    closed spec fn view(&self) -> Seq<ArtNameV> {
        self.names@.map_values(|n: Rc<ArtName>| n@)
    }
}

impl ArtNames {
    #[verifier::type_invariant]
    closed spec fn no_repeats(&self) -> bool {
        distinct_names(self@)
    }

    /// The empty set.
    pub fn new() -> (r: ArtNames)
        ensures
            r@ == Seq::<ArtNameV>::empty(),
    {
        let r = ArtNames { names: Vec::new() };
        assert(r@ =~= Seq::<ArtNameV>::empty());
        r
    }

    /// The number of names.
    pub fn len(&self) -> (n: usize)
        ensures
            n == self@.len(),
    {
        self.names.len()
    }

    /// Whether a name with the same segments is in the set.
    pub fn contains(&self, name: &ArtName) -> (r: bool)
        ensures
            r == exists|i: int| 0 <= i < self@.len() && self@[i].value == name@.value,
    {
        let mut i: usize = 0;
        while i < self.names.len()
            invariant
                0 <= i <= self.names.len(),
                forall|j: int| 0 <= j < i ==> self@[j].value != name@.value,
            decreases self.names.len() - i,
        {
            let n: &ArtName = &self.names[i];
            if same_value(n, name) {
                assert(self@[i as int].value == name@.value);
                return true;
            }
            i = i + 1;
        }
        false
    }

    /// Adds a name unless one with the same segments is there; says whether
    /// it was added.
    pub fn insert(&mut self, name: Rc<ArtName>) -> (added: bool)
        ensures
            final(self)@ == insert_name(old(self)@, name@),
            added == !(exists|i: int| 0 <= i < old(self)@.len() && old(self)@[i].value == name@.value),
    {
        proof {
            use_type_invariant(&*self);
        }
        if self.contains(&name) {
            return false;
        }
        let ghost before = self@;
        let mut names: Vec<Rc<ArtName>> = Vec::new();
        std::mem::swap(&mut names, &mut self.names);
        names.push(name);
        let ghost after = names@.map_values(|n: Rc<ArtName>| n@);
        assert(after =~= before.push(name@));
        self.names = names;
        true
    }

    /// The written forms of the names, in the order they were added.
    pub fn raw_texts(&self) -> (v: Vec<String>)
        ensures
            v@.len() == self@.len(),
            forall|i: int| 0 <= i < v@.len() ==> #[trigger] v@[i]@ == self@[i].raw,
    {
        let mut v: Vec<String> = Vec::new();
        let mut i: usize = 0;
        while i < self.names.len()
            invariant
                0 <= i <= self.names.len(),
                v@.len() == i,
                forall|j: int| 0 <= j < i ==> #[trigger] v@[j]@ == self@[j].raw,
            decreases self.names.len() - i,
        {
            v.push(self.names[i].raw.clone());
            i = i + 1;
        }
        v
    }

    /// The names, in the order they were added.
    pub fn as_vec(&self) -> (v: &Vec<Rc<ArtName>>)
        ensures
            v@.map_values(|n: Rc<ArtName>| n@) == self@,
    {
        &self.names
    }
}

impl LoadFromStr for ArtNames {
    /// Reads a names list and collects the names it stands for.
    fn from_str(partof_str: &str) -> (r: LoadResult<ArtNames>)
        ensures
            result_view(r) == names_result(partof_str@),
    {
        let mut it = partof_str.chars();
        assert(it.remaining() == partof_str@);
        let strs = _parse_names(&mut it, false)?;
        assert(names_scan(partof_str@, false) matches NamesScan::Names { names, .. } && names
            == strings_view(strs@));
        assert(names_result(partof_str@) == collect_names(strings_view(strs@)));
        let ghost list = strings_view(strs@);
        let mut out = ArtNames::new();
        let mut i: usize = 0;
        assert(list.take(0) =~= Seq::<Seq<char>>::empty());
        while i < strs.len()
            invariant
                0 <= i <= strs.len(),
                list == strings_view(strs@),
                names_result(partof_str@) == collect_names(list),
                collect_names(list.take(i as int)) == Ok::<Seq<ArtNameV>, Seq<char>>(out@),
            decreases strs.len() - i,
        {
            assert(list.take(i + 1).drop_last() =~= list.take(i as int));
            let parsed = ArtName::from_str(strs[i].as_str());
            match parsed {
                Ok(name) => {
                    out.insert(Rc::new(name));
                },
                Err(e) => {
                    proof {
                        assert(list.take(i + 1).last() == list[i as int]);
                        assert(collect_names(list.take(i + 1)) == Err::<Seq<ArtNameV>, Seq<char>>(e.desc@));
                        lemma_collect_prefix_err(list, i + 1);
                        assert(list.take(list.len() as int) =~= list);
                    }
                    return Err(e);
                },
            }
            i = i + 1;
        }
        assert(list.take(strs.len() as int) =~= list);
        Ok(out)
    }
}

/// Once a prefix of the list fails to read, the whole list fails the same way.
proof fn lemma_collect_prefix_err(list: Seq<Seq<char>>, k: int)
    requires
        0 <= k <= list.len(),
        collect_names(list.take(k)) is Err,
    ensures
        collect_names(list) == collect_names(list.take(k)),
    decreases list.len(),
{
    if k < list.len() {
        assert(list.drop_last().take(k) =~= list.take(k));
        lemma_collect_prefix_err(list.drop_last(), k);
    } else {
        assert(list.take(k) =~= list);
    }
}


} // verus!
