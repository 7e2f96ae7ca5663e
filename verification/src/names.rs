//! The names-list syntax: `hi-[ho, he], ha` stands for `hi-ho`, `hi-he`, `ha`.

use vstd::prelude::*;
use std::str::Chars;
use vstd::std_specs::iter::IteratorSpec;
use vstd::string::next_post;

use crate::text::{push_char, strings_view};
use crate::types::{LoadError, LoadResult};

verus! {

broadcast use vstd::string::group_string_axioms;

/// Where reading a names list ends, and with what.
/// `rest` is what is left unread of the input.
pub enum NamesScan {
    Names { names: Seq<Seq<char>>, rest: Seq<char> },
    Unclosed { rest: Seq<char> },
    StrayBracket { rest: Seq<char> },
}

impl NamesScan {
    pub open spec fn rest(self) -> Seq<char> {
        match self {
            NamesScan::Names { rest, .. } => rest,
            NamesScan::Unclosed { rest } => rest,
            NamesScan::StrayBracket { rest } => rest,
        }
    }
}

/// Characters that a names list ignores.
pub open spec fn is_blank(c: char) -> bool {
    c == ' ' || c == '\n' || c == '\r'
}

/// Adds a finished piece to the list, unless it is empty.
pub open spec fn add_piece(names: Seq<Seq<char>>, piece: Seq<char>) -> Seq<Seq<char>> {
    if piece.len() == 0 {
        names
    } else {
        names.push(piece)
    }
}

/// Puts `prefix` in front of every name.
pub open spec fn prefix_all(prefix: Seq<char>, names: Seq<Seq<char>>) -> Seq<Seq<char>> {
    names.map_values(|p: Seq<char>| prefix + p)
}

/// Reads a names list from `s`, given the names already finished and the
/// piece being read. Inside brackets the list ends at `]` and must be closed;
/// at the top level it ends at `]` or at the end of the input.
/// A `[` expands the piece before it with every name of the bracketed list.
pub open spec fn scan_names(
    s: Seq<char>,
    in_brackets: bool,
    names: Seq<Seq<char>>,
    current: Seq<char>,
) -> NamesScan
    decreases s.len(),
{
    if s.len() == 0 {
        if in_brackets {
            NamesScan::Unclosed { rest: s }
        } else {
            NamesScan::Names { names: add_piece(names, current), rest: s }
        }
    } else {
        let c = s[0];
        let rest = s.drop_first();
        if is_blank(c) {
            scan_names(rest, in_brackets, names, current)
        } else if c == '[' {
            if current.len() == 0 {
                NamesScan::StrayBracket { rest }
            } else {
                match scan_names(rest, true, Seq::empty(), Seq::empty()) {
                    NamesScan::Names { names: inner, rest: after } => {
                        if after.len() < s.len() {
                            scan_names(
                                after,
                                in_brackets,
                                names + prefix_all(current, inner),
                                Seq::empty(),
                            )
                        } else {
                            NamesScan::Unclosed { rest: after }
                        }
                    },
                    failed => failed,
                }
            }
        } else if c == ']' {
            NamesScan::Names { names: add_piece(names, current), rest }
        } else if c == ',' {
            scan_names(rest, in_brackets, add_piece(names, current), Seq::empty())
        } else {
            scan_names(rest, in_brackets, names, current.push(c))
        }
    }
}

/// The names list read from the whole of `s`.
pub open spec fn names_scan(s: Seq<char>, in_brackets: bool) -> NamesScan {
    scan_names(s, in_brackets, Seq::empty(), Seq::empty())
}

pub open spec fn unclosed_msg() -> Seq<char> {
    "brackets are not closed"@
}

pub open spec fn stray_bracket_msg() -> Seq<char> {
    "cannot have '[' after characters ',' or ']' or at start of string"@
}

/// How a call that reads a names list answers for a given scan.
pub open spec fn answers(scan: NamesScan, r: LoadResult<Vec<String>>) -> bool {
    match scan {
        NamesScan::Names { names, .. } => r matches Ok(v) && strings_view(v@) == names,
        NamesScan::Unclosed { .. } => r matches Err(e) && e.desc@ == unclosed_msg(),
        NamesScan::StrayBracket { .. } => r matches Err(e) && e.desc@ == stray_bracket_msg(),
    }
}

/// Reads a names list from `raw`, one character at a time, and returns its
/// names in order. `in_brackets` says that the list was opened by `[`.
/// Blanks (space, newline, carriage return) are skipped and empty pieces dropped.
pub fn _parse_names(raw: &mut Chars, in_brackets: bool) -> (r: LoadResult<Vec<String>>)
    requires
        (*old(raw)).decrease() is Some,
    ensures
        (*final(raw)).decrease() is Some,
        in_brackets && r is Ok ==> (*final(raw)).decrease()->0 < (*old(raw)).decrease()->0,
        answers(names_scan((*old(raw)).remaining(), in_brackets), r),
        (*final(raw)).remaining() == names_scan((*old(raw)).remaining(), in_brackets).rest(),
        (*final(raw)).remaining().len() <= (*old(raw)).remaining().len(),
    decreases (*old(raw)).decrease()->0,
{
    let ghost start = (*raw).remaining();
    let mut names: Vec<String> = Vec::new();
    let mut current = String::new();
    assert(strings_view(names@) =~= Seq::<Seq<char>>::empty());
    loop
        invariant
            (*raw).decrease() is Some,
            (*old(raw)).decrease() is Some,
            (*raw).decrease()->0 <= (*old(raw)).decrease()->0,
            start == (*old(raw)).remaining(),
            (*raw).remaining().len() <= start.len(),
            names_scan(start, in_brackets) == scan_names(
                (*raw).remaining(),
                in_brackets,
                strings_view(names@),
                current@,
            ),
        decreases (*raw).decrease()->0,
    {
        let ghost before = *raw;
        let next = raw.next();
        assert(next_post(&before, &*raw, next));
        match next {
            None => {
                if in_brackets {
                    return Err(LoadError::new("brackets are not closed".to_string()));
                }
                let ghost names0 = strings_view(names@);
                if !current.as_str().is_empty() {
                    let ghost cur = current@;
                    names.push(current);
                    assert(strings_view(names@) =~= names0.push(cur));
                }
                return Ok(names);
            },
            Some(c) => {
                if c == ' ' || c == '\n' || c == '\r' {
                } else if c == '[' {
                    if current.as_str().is_empty() {
                        return Err(
                            LoadError::new(
                                "cannot have '[' after characters ',' or ']' or at start of string".to_string(),
                            ),
                        );
                    }
                    let inner = _parse_names(raw, true)?;
                    let mut k: usize = 0;
                    let ghost names0 = strings_view(names@);
                    while k < inner.len()
                        invariant
                            0 <= k <= inner.len(),
                            strings_view(names@) == names0 + prefix_all(
                                current@,
                                strings_view(inner@).take(k as int),
                            ),
                        decreases inner.len() - k,
                    {
                        let mut piece = current.clone();
                        piece.append(inner[k].as_str());
                        let ghost before_push = strings_view(names@);
                        names.push(piece);
                        assert(strings_view(names@) =~= before_push.push(current@ + inner[k as int]@));
                        assert(strings_view(inner@).take(k + 1) =~= strings_view(inner@).take(k as int).push(inner[k as int]@));
                        k = k + 1;
                        assert(prefix_all(current@, strings_view(inner@).take(k as int)) =~= prefix_all(current@, strings_view(inner@).take(k - 1)).push(current@ + inner[k - 1]@));
                    }
                    assert(strings_view(inner@).take(inner.len() as int) =~= strings_view(inner@));
                    current = String::new();
                } else if c == ']' {
                    let ghost names0 = strings_view(names@);
                    if !current.as_str().is_empty() {
                        let ghost cur = current@;
                        names.push(current);
                        assert(strings_view(names@) =~= names0.push(cur));
                    }
                    return Ok(names);
                } else if c == ',' {
                    let ghost names0 = strings_view(names@);
                    if !current.as_str().is_empty() {
                        let ghost cur = current@;
                        names.push(current);
                        assert(strings_view(names@) =~= names0.push(cur));
                    }
                    current = String::new();
                } else {
                    push_char(&mut current, c);
                }
            },
        }
    }
}

} // verus!
