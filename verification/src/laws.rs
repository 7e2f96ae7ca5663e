//! Properties of artifact names that hold across the operations on them.

use vstd::prelude::*;

use crate::compare::{law_text_order, segments_order, text_order, Rank};
use crate::export::{export_config, html_text};
use crate::logging::{level_for, LevelFilter};
use vstd::utf8::{encode_scalar, encode_utf8};
use crate::names::{add_piece, is_blank, names_scan, prefix_all, scan_names, NamesScan};
use crate::text::{
    all_chars, free_of, is_normal_char, join_with, lemma_join_chars, lemma_normalize_concat,
    lemma_normalize_fixed, lemma_normalize_normal, lemma_split_first_prefix, lemma_split_join,
    lemma_split_nonempty, lemma_join_split, lemma_split_pieces, lemma_split_prefix, lemma_split_single, lowercase,
    normalize, split_on, upper,
};
use crate::types::named_partofs_of;
use crate::types::{
    art_text_valid, collect_names, distinct_names, insert_name, kind_text, name_result, name_value, parse_name,
    after_three_bytes, parent_of, partof_kind, partof_text, type_of_name, ArtNameV, ArtType,
};

verus! {

/// The segments of a name that reads: at least one, the first is the kind's
/// text, none holds `-`, and each is in normal form (upper case, no spaces).
pub open spec fn well_formed(n: ArtNameV) -> bool {
    &&& n.value.len() >= 1
    &&& n.value[0] == kind_text(n.ty)
    &&& forall|i: int| 0 <= i < n.value.len() ==> free_of(#[trigger] n.value[i], '-')
    &&& forall|i: int|
        0 <= i < n.value.len() ==> all_chars(#[trigger] n.value[i], |c: char| is_normal_char(c))
}

proof fn lemma_kind_of_text(t: ArtType)
    ensures
        type_of_name(kind_text(t)) == Some(t),
{
    assert(kind_text(ArtType::REQ) != kind_text(ArtType::SPC));
    assert(kind_text(ArtType::REQ) != kind_text(ArtType::RSK));
    assert(kind_text(ArtType::REQ) != kind_text(ArtType::TST));
    assert(kind_text(ArtType::SPC) != kind_text(ArtType::RSK));
    assert(kind_text(ArtType::SPC) != kind_text(ArtType::TST));
    assert(kind_text(ArtType::RSK) != kind_text(ArtType::TST));
}

/// Every kind is read back from its own text.
pub proof fn law_kind_text_reads_back(t: ArtType)
    ensures
        type_of_name(kind_text(t)) == Some(t),
{
    lemma_kind_of_text(t);
}

/// Every name that reads is well formed.
pub proof fn law_read_names_are_well_formed(s: Seq<char>, matched: bool)
    requires
        name_result(s, matched) is Ok,
    ensures
        well_formed(name_result(s, matched)->Ok_0),
{
    let n = name_result(s, matched)->Ok_0;
    lemma_split_nonempty(normalize(s), '-');
    lemma_normalize_normal(s);
    lemma_split_pieces(normalize(s), '-', |c: char| is_normal_char(c));
    assert(type_of_name(n.value[0]) == Some(n.ty));
}

/// Reading is blind to case and spaces: a text and its normal form have the
/// same segments.
pub proof fn law_normal_form_reads_the_same(s: Seq<char>)
    ensures
        normalize(normalize(s)) == normalize(s),
        name_value(normalize(s)) == name_value(s),
{
    lemma_normalize_normal(s);
    lemma_normalize_fixed(normalize(s));
}

/// The parent of a well-formed name is well formed.
pub proof fn law_parent_well_formed(n: ArtNameV)
    requires
        well_formed(n),
        parent_of(n) is Some,
    ensures
        well_formed(parent_of(n)->Some_0),
{
    let p = parent_of(n)->Some_0;
    assert forall|i: int| 0 <= i < p.value.len() implies free_of(#[trigger] p.value[i], '-') by {
        assert(p.value[i] == n.value[i]);
    }
    assert forall|i: int| 0 <= i < p.value.len() implies all_chars(
        #[trigger] p.value[i],
        |c: char| is_normal_char(c),
    ) by {
        assert(p.value[i] == n.value[i]);
    }
}

/// The text of a parent reads back as the parent: the parent's segments
/// are those of its text, and its kind is read from the first of them.
pub proof fn law_parent_reads_back(n: ArtNameV)
    requires
        well_formed(n),
        parent_of(n) is Some,
    ensures
        name_value(parent_of(n)->Some_0.raw) == parent_of(n)->Some_0.value,
        name_result(parent_of(n)->Some_0.raw, true) == Ok::<ArtNameV, Seq<char>>(
            parent_of(n)->Some_0,
        ),
{
    let p = parent_of(n)->Some_0;
    law_parent_well_formed(n);
    lemma_join_chars(p.value, '-', |c: char| is_normal_char(c));
    lemma_normalize_fixed(p.raw);
    lemma_split_join(p.value, '-');
    lemma_kind_of_text(p.ty);
    assert(name_result(p.raw, true) =~= Ok::<ArtNameV, Seq<char>>(p));
}

/// The segments of a well-formed name, joined with `-` (its debug text),
/// read back as the same name: the joined text is already in normal form,
/// splits into the same segments, and gives the same kind. So `==`, which
/// compares segments, holds between the name and the one read back.
pub proof fn law_joined_reads_back(n: ArtNameV)
    requires
        well_formed(n),
    ensures
        normalize(join_with(n.value, '-')) == join_with(n.value, '-'),
        name_value(join_with(n.value, '-')) == n.value,
        name_result(join_with(n.value, '-'), true) == Ok::<ArtNameV, Seq<char>>(
            ArtNameV { raw: join_with(n.value, '-'), value: n.value, ty: n.ty },
        ),
        parse_name(join_with(n.value, '-')) == name_result(
            join_with(n.value, '-'),
            art_text_valid(join_with(n.value, '-')),
        ),
{
    let j = join_with(n.value, '-');
    lemma_join_chars(n.value, '-', |c: char| is_normal_char(c));
    lemma_normalize_fixed(j);
    lemma_split_join(n.value, '-');
    lemma_kind_of_text(n.ty);
    assert(name_result(j, true) =~= Ok::<ArtNameV, Seq<char>>(
        ArtNameV { raw: j, value: n.value, ty: n.ty },
    ));
}

/// Splitting a text at `-` and joining the pieces gives the text back.
pub proof fn law_join_split(t: Seq<char>)
    ensures
        join_with(split_on(t, '-'), '-') == t,
{
    lemma_join_split(t, '-');
}

/// Whether a name is its kind alone is whether it has no parent.
pub proof fn law_root_iff_no_parent(n: ArtNameV)
    requires
        n.value.len() >= 1,
    ensures
        (n.value.len() == 1) == (parent_of(n) is None),
{
}

/// The ancestor `k` generations up, if there is one.
pub open spec fn ancestor(n: ArtNameV, k: nat) -> Option<ArtNameV>
    decreases k,
{
    if k == 0 {
        Some(n)
    } else {
        match parent_of(n) {
            Some(p) => ancestor(p, (k - 1) as nat),
            None => None,
        }
    }
}

/// Going up parent by parent ends, one generation per segment, at the name
/// that is the kind alone, and that name has no parent.
pub proof fn law_parents_reach_root(n: ArtNameV)
    requires
        n.value.len() >= 1,
    ensures
        ancestor(n, (n.value.len() - 1) as nat) matches Some(r) && r.value == seq![n.value[0]]
            && r.ty == n.ty && parent_of(r) is None,
    decreases n.value.len(),
{
    if n.value.len() == 1 {
        assert(n.value =~= seq![n.value[0]]);
    } else {
        let p = parent_of(n)->Some_0;
        law_parents_reach_root(p);
        assert(p.value[0] == n.value[0]);
    }
}

/// The UTF-8 encoding works character by character.
proof fn lemma_encode_concat(a: Seq<char>, b: Seq<char>)
    ensures
        encode_utf8(a + b) == encode_utf8(a) + encode_utf8(b),
    decreases a.len(),
{
    if a.len() == 0 {
        assert(a + b =~= b);
        assert(encode_utf8(a) + encode_utf8(b) =~= encode_utf8(b));
    } else {
        lemma_encode_concat(a.drop_first(), b);
        assert((a + b).drop_first() =~= a.drop_first() + b);
        assert((a + b)[0] == a[0]);
        assert(encode_utf8(a) + encode_utf8(b) =~= encode_scalar(a[0] as u32) + (encode_utf8(
            a.drop_first(),
        ) + encode_utf8(b)));
    }
}

/// Where the first three characters are ASCII, they are the first three
/// bytes, and what follows them is the rest of the text.
proof fn lemma_ascii_head_split(s: Seq<char>)
    requires
        s.len() >= 3,
        forall|i: int| 0 <= i < 3 ==> (#[trigger] s[i] as u32) < 128,
    ensures
        after_three_bytes(s) == s.skip(3),
{
    broadcast use vstd::utf8::encode_utf8_decode_utf8;

    let h = s.take(3);
    assert(h + s.skip(3) =~= s);
    lemma_encode_concat(h, s.skip(3));
    assert(encode_utf8(h).len() == 3) by {
        assert(h[0] == s[0] && h[1] == s[1] && h[2] == s[2]);
        assert(h.drop_first().drop_first().drop_first() =~= Seq::<char>::empty());
        assert(h.drop_first()[0] == s[1]);
        assert(h.drop_first().drop_first()[0] == s[2]);
        reveal_with_fuel(encode_utf8, 4);
    }
    let e = encode_utf8(s);
    assert(e.subrange(3, e.len() as int) =~= encode_utf8(s.skip(3)));
}

/// Text without spaces normalizes character by character.
proof fn lemma_normalize_no_space(s: Seq<char>)
    requires
        free_of(s, ' '),
    ensures
        normalize(s).len() == s.len(),
        forall|i: int| 0 <= i < s.len() ==> #[trigger] normalize(s)[i] == upper(s[i]),
    decreases s.len(),
{
    if s.len() > 0 {
        assert(free_of(s.drop_last(), ' ')) by {
            assert forall|i: int| 0 <= i < s.drop_last().len() implies s.drop_last()[i] != ' ' by {
                assert(s.drop_last()[i] == s[i]);
            }
        }
        lemma_normalize_no_space(s.drop_last());
        assert(s[s.len() - 1] != ' ');
        assert forall|i: int| 0 <= i < s.len() implies #[trigger] normalize(s)[i] == upper(s[i]) by {
            if i < s.len() - 1 {
                assert(s.drop_last()[i] == s[i]);
            }
        }
    }
}

/// A test names the specification, and a specification the requirement,
/// with the same segments after the kind: where the pattern accepts the
/// named text, it reads as that name. The first three characters must not
/// be spaces, so that they are the kind (and so take one byte each).
pub proof fn law_partof_keeps_segments(s: Seq<char>)
    requires
        name_result(s, true) is Ok,
        partof_kind(name_result(s, true)->Ok_0) is Some,
        s.len() >= 3,
        free_of(s.take(3), ' '),
    ensures
        ({
            let n = name_result(s, true)->Ok_0;
            let k = partof_kind(n)->Some_0;
            name_result(partof_text(n, k), true) == Ok::<ArtNameV, Seq<char>>(
                ArtNameV {
                    raw: partof_text(n, k),
                    value: seq![kind_text(k)] + n.value.skip(1),
                    ty: k,
                },
            )
        }),
{
    let n = name_result(s, true)->Ok_0;
    let k = partof_kind(n)->Some_0;
    law_read_names_are_well_formed(s, true);
    let head = s.take(3);
    let tail = s.skip(3);
    assert(head + tail =~= s);
    lemma_normalize_concat(head, tail);
    let big_k = normalize(head);
    let r = normalize(tail);
    // the head has no spaces, so its normal form has three characters
    lemma_normalize_len(head);
    // the first segment is the start of the normal form, so it is the head
    lemma_split_first_prefix(normalize(s), '-');
    assert(n.value[0] == kind_text(n.ty));
    assert(normalize(s).take(3) =~= big_k);
    assert(big_k == kind_text(n.ty));
    assert(free_of(big_k, '-'));
    lemma_split_prefix(big_k, r, '-');
    lemma_split_nonempty(r, '-');
    let pr = crate::text::split_on(r, '-');
    assert(pr[0].len() == 0);
    // the head is the kind's letters in some case, so it is ASCII
    lemma_normalize_no_space(head);
    assert forall|i: int| 0 <= i < 3 implies (#[trigger] head[i] as u32) < 128 by {
        assert(upper(head[i]) == big_k[i]);
        assert((big_k[i] as u32) < 128);
    }
    lemma_ascii_head_split(s);
    // the named text
    let t = partof_text(n, k);
    assert(t =~= kind_text(k) + tail);
    lemma_normalize_concat(kind_text(k), tail);
    assert(all_chars(kind_text(k), |c: char| is_normal_char(c)));
    lemma_normalize_fixed(kind_text(k));
    assert(free_of(kind_text(k), '-'));
    lemma_split_prefix(kind_text(k), r, '-');
    assert(kind_text(k) + pr[0] =~= kind_text(k));
    assert(big_k + pr[0] =~= big_k);
    assert(name_value(t) =~= seq![kind_text(k)] + n.value.skip(1));
    lemma_kind_of_text(k);
}

proof fn lemma_normalize_len(s: Seq<char>)
    requires
        free_of(s, ' '),
    ensures
        normalize(s).len() == s.len(),
    decreases s.len(),
{
    if s.len() > 0 {
        assert(free_of(s.drop_last(), ' ')) by {
            assert forall|i: int| 0 <= i < s.drop_last().len() implies s.drop_last()[i] != ' ' by {
                assert(s.drop_last()[i] == s[i]);
            }
        }
        lemma_normalize_len(s.drop_last());
        assert(s[s.len() - 1] != ' ');
    }
}

/// A character that can stand in a name of a names list.
pub open spec fn is_word_char(c: char) -> bool {
    !is_blank(c) && c != ',' && c != '[' && c != ']'
}

/// A names list without brackets.
pub open spec fn bracket_free(s: Seq<char>) -> bool {
    free_of(s, '[') && free_of(s, ']')
}

/// The text without its blanks.
pub open spec fn drop_blanks(s: Seq<char>) -> Seq<char> {
    s.filter(|c: char| !is_blank(c))
}

/// The non-empty pieces of a text between its commas.
pub open spec fn comma_names(t: Seq<char>) -> Seq<Seq<char>> {
    split_on(t, ',').filter(|p: Seq<char>| p.len() > 0)
}

proof fn lemma_drop_blanks_cons(c: char, s: Seq<char>)
    ensures
        drop_blanks(seq![c] + s) == (if is_blank(c) {
            Seq::<char>::empty()
        } else {
            seq![c]
        }) + drop_blanks(s),
{
    s.lemma_filter_prepend(c, |c: char| !is_blank(c));
}

/// Splitting across a separator splits each side.
proof fn lemma_split_across(x: Seq<char>, d: Seq<char>, sep: char)
    ensures
        split_on(x.push(sep) + d, sep) == split_on(x, sep) + split_on(d, sep),
    decreases d.len(),
{
    lemma_split_nonempty(x, sep);
    if d.len() == 0 {
        assert(x.push(sep) + d =~= x.push(sep));
        assert(split_on(x.push(sep), sep) =~= split_on(x, sep) + split_on(d, sep)) by {
            assert(x.push(sep).drop_last() =~= x);
        }
    } else {
        lemma_split_across(x, d.drop_last(), sep);
        lemma_split_nonempty(d.drop_last(), sep);
        assert((x.push(sep) + d).drop_last() =~= x.push(sep) + d.drop_last());
        assert((x.push(sep) + d).last() == d.last());
        assert(split_on(x.push(sep) + d, sep) =~= split_on(x, sep) + split_on(d, sep));
    }
}

proof fn lemma_comma_names_single(cur: Seq<char>)
    requires
        free_of(cur, ','),
    ensures
        comma_names(cur) == add_piece(Seq::empty(), cur),
{
    lemma_split_single(cur, ',');
    reveal_with_fuel(Seq::filter, 2);
    assert(seq![cur].drop_last() =~= Seq::<Seq<char>>::empty());
    assert(comma_names(cur) =~= add_piece(Seq::empty(), cur));
}

/// Reading a bracket-free list up to its end, or up to a `]`: the names are
/// the non-empty comma-separated pieces, blanks dropped.
proof fn lemma_scan_flat(
    x: Seq<char>,
    tail: Seq<char>,
    in_brackets: bool,
    names: Seq<Seq<char>>,
    cur: Seq<char>,
)
    requires
        bracket_free(x),
        free_of(cur, ','),
        (tail.len() == 0 && !in_brackets) || (tail.len() > 0 && tail[0] == ']'),
    ensures
        scan_names(x + tail, in_brackets, names, cur) == (NamesScan::Names {
            names: names + comma_names(cur + drop_blanks(x)),
            rest: if tail.len() == 0 {
                tail
            } else {
                tail.drop_first()
            },
        }),
    decreases x.len(),
{
    if x.len() == 0 {
        assert(x + tail =~= tail);
        assert(drop_blanks(x) =~= Seq::<char>::empty()) by {
            reveal_with_fuel(Seq::filter, 1);
        }
        assert(cur + drop_blanks(x) =~= cur);
        lemma_comma_names_single(cur);
        assert(names + add_piece(Seq::empty(), cur) =~= add_piece(names, cur));
        if tail.len() > 0 {
            assert(tail[0] == ']');
        }
    } else {
        let c = x[0];
        let rest = x.drop_first();
        assert(x =~= seq![c] + rest);
        assert((x + tail).drop_first() =~= rest + tail);
        assert((x + tail)[0] == c);
        assert(bracket_free(rest)) by {
            assert forall|i: int| 0 <= i < rest.len() implies rest[i] != '[' && rest[i] != ']' by {
                assert(rest[i] == x[i + 1]);
            }
        }
        assert(c != '[' && c != ']');
        lemma_drop_blanks_cons(c, rest);
        if is_blank(c) {
            lemma_scan_flat(rest, tail, in_brackets, names, cur);
            assert(drop_blanks(x) =~= drop_blanks(rest));
        } else if c == ',' {
            lemma_scan_flat(rest, tail, in_brackets, add_piece(names, cur), Seq::empty());
            let d = drop_blanks(rest);
            assert(cur + drop_blanks(x) =~= cur.push(',') + d);
            lemma_split_across(cur, d, ',');
            lemma_split_single(cur, ',');
            Seq::filter_distributes_over_add(
                split_on(cur, ','),
                split_on(d, ','),
                |p: Seq<char>| p.len() > 0,
            );
            lemma_comma_names_single(cur);
            assert(Seq::<char>::empty() + d =~= d);
            assert(names + comma_names(cur + drop_blanks(x)) =~= add_piece(names, cur)
                + comma_names(d));
        } else {
            assert(free_of(cur.push(c), ',')) by {
                assert forall|i: int| 0 <= i < cur.push(c).len() implies cur.push(c)[i] != ',' by {
                    if i < cur.len() {
                        assert(cur.push(c)[i] == cur[i]);
                    }
                }
            }
            lemma_scan_flat(rest, tail, in_brackets, names, cur.push(c));
            assert(cur.push(c) + drop_blanks(rest) =~= cur + drop_blanks(x));
        }
    }
}

/// A list without brackets stands for its non-empty comma-separated pieces,
/// with blanks dropped; it is read to its end.
pub proof fn law_flat_list(s: Seq<char>)
    requires
        bracket_free(s),
    ensures
        names_scan(s, false) == (NamesScan::Names {
            names: comma_names(drop_blanks(s)),
            rest: Seq::<char>::empty(),
        }),
{
    lemma_scan_flat(s, Seq::empty(), false, Seq::empty(), Seq::empty());
    assert(s + Seq::<char>::empty() =~= s);
    assert(Seq::<char>::empty() + drop_blanks(s) =~= drop_blanks(s));
    assert(Seq::<Seq<char>>::empty() + comma_names(drop_blanks(s)) =~= comma_names(drop_blanks(s)));
}

/// Reading the characters of a name adds them to the piece being read.
proof fn lemma_scan_word(
    w: Seq<char>,
    t: Seq<char>,
    in_brackets: bool,
    names: Seq<Seq<char>>,
    cur: Seq<char>,
)
    requires
        all_chars(w, |c: char| is_word_char(c)),
    ensures
        scan_names(w + t, in_brackets, names, cur) == scan_names(t, in_brackets, names, cur + w),
    decreases w.len(),
{
    if w.len() == 0 {
        assert(w + t =~= t);
        assert(cur + w =~= cur);
    } else {
        let c = w[0];
        assert(is_word_char(c));
        let rest = w.drop_first();
        assert(all_chars(rest, |c: char| is_word_char(c))) by {
            assert forall|i: int| 0 <= i < rest.len() implies is_word_char(#[trigger] rest[i]) by {
                assert(rest[i] == w[i + 1]);
            }
        }
        assert((w + t).drop_first() =~= rest + t);
        assert((w + t)[0] == c);
        lemma_scan_word(rest, t, in_brackets, names, cur.push(c));
        assert(cur.push(c) + rest =~= cur + w);
    }
}

/// `prefix-[a, b]` stands for `prefix` followed by each name of the
/// bracketed list.
pub proof fn law_bracket_expansion(w: Seq<char>, x: Seq<char>)
    requires
        w.len() > 0,
        all_chars(w, |c: char| is_word_char(c)),
        bracket_free(x),
    ensures
        names_scan(w + seq!['['] + x + seq![']'], false) == (NamesScan::Names {
            names: prefix_all(w, comma_names(drop_blanks(x))),
            rest: Seq::<char>::empty(),
        }),
{
    let s = w + seq!['['] + x + seq![']'];
    let t = seq!['['] + x + seq![']'];
    assert(s =~= w + t);
    lemma_scan_word(w, t, false, Seq::empty(), Seq::empty());
    assert(Seq::<char>::empty() + w =~= w);
    lemma_scan_flat(x, seq![']'], true, Seq::empty(), Seq::empty());
    assert(t.drop_first() =~= x + seq![']']);
    assert(Seq::<char>::empty() + drop_blanks(x) =~= drop_blanks(x));
    assert(Seq::<Seq<char>>::empty() + comma_names(drop_blanks(x)) =~= comma_names(drop_blanks(x)));
    assert(seq![']'].drop_first() =~= Seq::<char>::empty());
    assert(t[0] == '[');
    let inner = comma_names(drop_blanks(x));
    assert(scan_names(x + seq![']'], true, Seq::empty(), Seq::empty()) == (NamesScan::Names {
        names: inner,
        rest: Seq::<char>::empty(),
    }));
    assert(Seq::<Seq<char>>::empty() + prefix_all(w, inner) =~= prefix_all(w, inner));
    assert(scan_names(t, false, Seq::empty(), w) == scan_names(
        Seq::<char>::empty(),
        false,
        prefix_all(w, inner),
        Seq::empty(),
    ));
}

/// Every name of a list that reads is non-empty and made of name characters.
proof fn lemma_scan_clean(s: Seq<char>, in_brackets: bool, names: Seq<Seq<char>>, cur: Seq<char>)
    requires
        forall|i: int| 0 <= i < names.len() ==> #[trigger] names[i].len() > 0 && all_chars(
            names[i],
            |c: char| is_word_char(c),
        ),
        all_chars(cur, |c: char| is_word_char(c)),
    ensures
        scan_names(s, in_brackets, names, cur) matches NamesScan::Names { names: out, .. } ==> forall|
            i: int,
        |
            0 <= i < out.len() ==> #[trigger] out[i].len() > 0 && all_chars(
                out[i],
                |c: char| is_word_char(c),
            ),
    decreases s.len(),
{
    if s.len() == 0 {
    } else {
        let c = s[0];
        let rest = s.drop_first();
        if is_blank(c) {
            lemma_scan_clean(rest, in_brackets, names, cur);
        } else if c == '[' {
            if cur.len() > 0 {
                lemma_scan_clean(rest, true, Seq::empty(), Seq::empty());
                match scan_names(rest, true, Seq::empty(), Seq::empty()) {
                    NamesScan::Names { names: inner, rest: after } => {
                        if after.len() < s.len() {
                            let more = names + prefix_all(cur, inner);
                            assert forall|i: int| 0 <= i < more.len() implies #[trigger] more[i].len()
                                > 0 && all_chars(more[i], |c: char| is_word_char(c)) by {
                                if i >= names.len() {
                                    let p = inner[i - names.len()];
                                    assert(more[i] == cur + p);
                                    assert(all_chars(p, |c: char| is_word_char(c)));
                                    assert forall|k: int| 0 <= k < more[i].len() implies is_word_char(
                                        #[trigger] more[i][k],
                                    ) by {
                                        if k < cur.len() {
                                            assert(more[i][k] == cur[k]);
                                        } else {
                                            assert(more[i][k] == p[k - cur.len()]);
                                        }
                                    }
                                }
                            }
                            lemma_scan_clean(after, in_brackets, more, Seq::empty());
                        }
                    },
                    _ => {},
                }
            }
        } else if c == ']' || c == ',' {
            if c == ',' {
                lemma_scan_clean(rest, in_brackets, add_piece(names, cur), Seq::empty());
            }
        } else {
            assert(all_chars(cur.push(c), |c: char| is_word_char(c))) by {
                assert forall|k: int| 0 <= k < cur.push(c).len() implies is_word_char(
                    #[trigger] cur.push(c)[k],
                ) by {
                    if k < cur.len() {
                        assert(cur.push(c)[k] == cur[k]);
                    }
                }
            }
            lemma_scan_clean(rest, in_brackets, names, cur.push(c));
        }
    }
}

/// Every name that a names list stands for is non-empty and holds no blank,
/// comma or bracket.
pub proof fn law_names_are_words(s: Seq<char>, in_brackets: bool)
    ensures
        names_scan(s, in_brackets) matches NamesScan::Names { names, .. } ==> forall|i: int|
            0 <= i < names.len() ==> #[trigger] names[i].len() > 0 && all_chars(
                names[i],
                |c: char| is_word_char(c),
            ),
{
    lemma_scan_clean(s, in_brackets, Seq::empty(), Seq::empty());
}

/// Reading a names list reads a prefix of the input and leaves the rest.
pub proof fn law_scan_leaves_suffix(s: Seq<char>, in_brackets: bool)
    ensures
        names_scan(s, in_brackets).rest().len() <= s.len(),
        s.skip(s.len() - names_scan(s, in_brackets).rest().len()) == names_scan(s, in_brackets).rest(),
{
    lemma_scan_suffix(s, in_brackets, Seq::empty(), Seq::empty());
}

proof fn lemma_scan_suffix(s: Seq<char>, in_brackets: bool, names: Seq<Seq<char>>, cur: Seq<char>)
    ensures
        scan_names(s, in_brackets, names, cur).rest().len() <= s.len(),
        s.skip(s.len() - scan_names(s, in_brackets, names, cur).rest().len()) == scan_names(
            s,
            in_brackets,
            names,
            cur,
        ).rest(),
    decreases s.len(),
{
    let r = scan_names(s, in_brackets, names, cur).rest();
    if s.len() == 0 {
        assert(s.skip(0) =~= s);
    } else {
        let c = s[0];
        let rest = s.drop_first();
        if is_blank(c) {
            lemma_scan_suffix(rest, in_brackets, names, cur);
        } else if c == '[' {
            lemma_scan_suffix(rest, true, Seq::empty(), Seq::empty());
            if cur.len() > 0 {
                match scan_names(rest, true, Seq::empty(), Seq::empty()) {
                    NamesScan::Names { names: inner, rest: after } => {
                        if after.len() < s.len() {
                            lemma_scan_suffix(after, in_brackets, names + prefix_all(cur, inner), Seq::empty());
                            let r2 = scan_names(after, in_brackets, names + prefix_all(cur, inner), Seq::empty()).rest();
                            assert(rest.skip(rest.len() - after.len()) == after);
                            assert(after.skip(after.len() - r2.len()) == r2);
                            assert(s.skip(s.len() - r2.len()) =~= r2);
                        }
                    },
                    _ => {},
                }
            }
        } else if c == ']' {
        } else if c == ',' {
            lemma_scan_suffix(rest, in_brackets, add_piece(names, cur), Seq::empty());
        } else {
            lemma_scan_suffix(rest, in_brackets, names, cur.push(c));
        }
        if r.len() <= rest.len() {
            assert(s.skip(s.len() - r.len()) =~= rest.skip(rest.len() - r.len()));
        }
    }
}

/// The default name is the name read from `REQ-default`.
pub proof fn law_default_name_reads()
    ensures
        name_result("REQ-default"@, true) == Ok::<ArtNameV, Seq<char>>(
            ArtNameV {
                raw: "REQ-default"@,
                value: seq![kind_text(ArtType::REQ), seq!['D', 'E', 'F', 'A', 'U', 'L', 'T']],
                ty: ArtType::REQ,
            },
        ),
{
    reveal_strlit("REQ-default");
    let s = "REQ-default"@;
    let head = seq!['R', 'E', 'Q', '-'];
    let tail = seq!['d', 'e', 'f', 'a', 'u', 'l', 't'];
    assert(s =~= head + tail);
    lemma_normalize_concat(head, tail);
    assert(normalize(head) =~= head) by {
        reveal_with_fuel(normalize, 5);
        assert(head.drop_last() =~= seq!['R', 'E', 'Q']);
        assert(head.drop_last().drop_last() =~= seq!['R', 'E']);
        assert(head.drop_last().drop_last().drop_last() =~= seq!['R']);
        assert(head.drop_last().drop_last().drop_last().drop_last() =~= Seq::<char>::empty());
    }
    let up = seq!['D', 'E', 'F', 'A', 'U', 'L', 'T'];
    assert(normalize(tail) =~= up) by {
        reveal_with_fuel(normalize, 8);
        assert(tail.drop_last() =~= seq!['d', 'e', 'f', 'a', 'u', 'l']);
        assert(tail.drop_last().drop_last() =~= seq!['d', 'e', 'f', 'a', 'u']);
        assert(tail.drop_last().drop_last().drop_last() =~= seq!['d', 'e', 'f', 'a']);
        assert(tail.drop_last().drop_last().drop_last().drop_last() =~= seq!['d', 'e', 'f']);
        assert(tail.drop_last().drop_last().drop_last().drop_last().drop_last() =~= seq!['d', 'e']);
        assert(tail.drop_last().drop_last().drop_last().drop_last().drop_last().drop_last() =~= seq!['d']);
        assert(tail.drop_last().drop_last().drop_last().drop_last().drop_last().drop_last().drop_last() =~= Seq::<char>::empty());
    }
    let v = seq![kind_text(ArtType::REQ), up];
    assert(free_of(kind_text(ArtType::REQ), '-'));
    assert(free_of(up, '-'));
    lemma_split_join(v, '-');
    assert(join_with(v, '-') =~= head + up) by {
        assert(v.drop_last() =~= seq![kind_text(ArtType::REQ)]);
        assert(join_with(v.drop_last(), '-') == kind_text(ArtType::REQ));
        assert(kind_text(ArtType::REQ).push('-') =~= head);
        assert(v.last() == up);
    }
    assert(normalize(s) =~= head + up);
    lemma_kind_of_text(ArtType::REQ);
    assert(name_value(s) =~= v);
}

/// The same outcome, with blanks dropped from what is left unread.
pub open spec fn without_blanks(r: NamesScan) -> NamesScan {
    match r {
        NamesScan::Names { names, rest } => NamesScan::Names { names, rest: drop_blanks(rest) },
        NamesScan::Unclosed { rest } => NamesScan::Unclosed { rest: drop_blanks(rest) },
        NamesScan::StrayBracket { rest } => NamesScan::StrayBracket { rest: drop_blanks(rest) },
    }
}

proof fn lemma_drop_blanks_suffix_len(s: Seq<char>, k: int)
    requires
        0 <= k <= s.len(),
    ensures
        drop_blanks(s.skip(k)).len() <= drop_blanks(s).len(),
{
    assert(s =~= s.take(k) + s.skip(k));
    Seq::filter_distributes_over_add(s.take(k), s.skip(k), |c: char| !is_blank(c));
}

proof fn lemma_scan_blanks(s: Seq<char>, in_brackets: bool, names: Seq<Seq<char>>, cur: Seq<char>)
    ensures
        scan_names(drop_blanks(s), in_brackets, names, cur) == without_blanks(
            scan_names(s, in_brackets, names, cur),
        ),
    decreases s.len(),
{
    if s.len() == 0 {
        assert(drop_blanks(s) =~= s) by {
            reveal_with_fuel(Seq::filter, 1);
        }
    } else {
        let c = s[0];
        let rest = s.drop_first();
        assert(s =~= seq![c] + rest);
        lemma_drop_blanks_cons(c, rest);
        let d = drop_blanks(s);
        if is_blank(c) {
            lemma_scan_blanks(rest, in_brackets, names, cur);
            assert(d =~= drop_blanks(rest));
        } else {
            assert(d =~= seq![c] + drop_blanks(rest));
            assert(d[0] == c);
            assert(d.drop_first() =~= drop_blanks(rest));
            if c == '[' {
                if cur.len() > 0 {
                    lemma_scan_blanks(rest, true, Seq::empty(), Seq::empty());
                    lemma_scan_suffix(rest, true, Seq::empty(), Seq::empty());
                    match scan_names(rest, true, Seq::empty(), Seq::empty()) {
                        NamesScan::Names { names: inner, rest: after } => {
                            lemma_drop_blanks_suffix_len(rest, rest.len() - after.len());
                            assert(rest.skip(rest.len() - after.len()) == after);
                            lemma_scan_blanks(
                                after,
                                in_brackets,
                                names + prefix_all(cur, inner),
                                Seq::empty(),
                            );
                        },
                        _ => {},
                    }
                }
            } else if c == ']' {
            } else if c == ',' {
                lemma_scan_blanks(rest, in_brackets, add_piece(names, cur), Seq::empty());
            } else {
                lemma_scan_blanks(rest, in_brackets, names, cur.push(c));
            }
        }
    }
}

/// Blanks do not matter: reading a names list without its blanks gives the
/// same outcome and names, and leaves the same text unread, blanks dropped.
pub proof fn law_blanks_ignored(s: Seq<char>, in_brackets: bool)
    ensures
        names_scan(drop_blanks(s), in_brackets) == without_blanks(names_scan(s, in_brackets)),
{
    lemma_scan_blanks(s, in_brackets, Seq::empty(), Seq::empty());
}

/// The names and the piece reached after reading all of `x` at one level,
/// if that can be done: every `]` of `x` closes an earlier `[` of `x`, each
/// `[` follows a piece, and nothing fails on the way.
pub open spec fn read_through(x: Seq<char>, names: Seq<Seq<char>>, cur: Seq<char>) -> Option<
    (Seq<Seq<char>>, Seq<char>),
>
    decreases x.len(),
{
    if x.len() == 0 {
        Some((names, cur))
    } else {
        let c = x[0];
        let rest = x.drop_first();
        if is_blank(c) {
            read_through(rest, names, cur)
        } else if c == '[' {
            if cur.len() == 0 {
                None
            } else {
                match scan_names(rest, true, Seq::empty(), Seq::empty()) {
                    NamesScan::Names { names: inner, rest: after } => {
                        if after.len() < x.len() {
                            read_through(after, names + prefix_all(cur, inner), Seq::empty())
                        } else {
                            None
                        }
                    },
                    _ => None,
                }
            }
        } else if c == ']' {
            None
        } else if c == ',' {
            read_through(rest, add_piece(names, cur), Seq::empty())
        } else {
            read_through(rest, names, cur.push(c))
        }
    }
}

/// Whether a names list can be read to its end with its brackets balanced.
pub open spec fn reads_through(x: Seq<char>) -> bool {
    read_through(x, Seq::empty(), Seq::empty()) is Some
}

/// The same outcome with `m` put before its names.
pub open spec fn with_names_before(m: Seq<Seq<char>>, r: NamesScan) -> NamesScan {
    match r {
        NamesScan::Names { names, rest } => NamesScan::Names { names: m + names, rest },
        other => other,
    }
}

/// A bracketed list that closes reads the same whatever follows it.
proof fn lemma_closed_group_stable(
    s: Seq<char>,
    t: Seq<char>,
    names: Seq<Seq<char>>,
    cur: Seq<char>,
)
    requires
        scan_names(s, true, names, cur) is Names,
    ensures
        scan_names(s + t, true, names, cur) == (NamesScan::Names {
            names: scan_names(s, true, names, cur)->Names_names,
            rest: scan_names(s, true, names, cur)->Names_rest + t,
        }),
    decreases s.len(),
{
    let c = s[0];
    let rest = s.drop_first();
    assert((s + t)[0] == c);
    assert((s + t).drop_first() =~= rest + t);
    if is_blank(c) {
        lemma_closed_group_stable(rest, t, names, cur);
    } else if c == '[' {
        lemma_closed_group_stable(rest, t, Seq::empty(), Seq::empty());
        let inner = scan_names(rest, true, Seq::empty(), Seq::empty());
        let after = inner->Names_rest;
        lemma_closed_group_stable(after, t, names + prefix_all(cur, inner->Names_names), Seq::empty());
    } else if c == ']' {
    } else if c == ',' {
        lemma_closed_group_stable(rest, t, add_piece(names, cur), Seq::empty());
    } else {
        lemma_closed_group_stable(rest, t, names, cur.push(c));
    }
}

/// Reading through `x` and then `t` is reading `t` from where `x` left off.
proof fn lemma_read_through(
    x: Seq<char>,
    t: Seq<char>,
    in_brackets: bool,
    names: Seq<Seq<char>>,
    cur: Seq<char>,
)
    requires
        read_through(x, names, cur) is Some,
    ensures
        scan_names(x + t, in_brackets, names, cur) == scan_names(
            t,
            in_brackets,
            read_through(x, names, cur)->Some_0.0,
            read_through(x, names, cur)->Some_0.1,
        ),
    decreases x.len(),
{
    if x.len() == 0 {
        assert(x + t =~= t);
    } else {
        let c = x[0];
        let rest = x.drop_first();
        assert((x + t)[0] == c);
        assert((x + t).drop_first() =~= rest + t);
        if is_blank(c) {
            lemma_read_through(rest, t, in_brackets, names, cur);
        } else if c == '[' {
            let inner = scan_names(rest, true, Seq::empty(), Seq::empty());
            lemma_closed_group_stable(rest, t, Seq::empty(), Seq::empty());
            let after = inner->Names_rest;
            lemma_read_through(after, t, in_brackets, names + prefix_all(cur, inner->Names_names), Seq::empty());
            assert((after + t).len() < (x + t).len());
        } else if c == ',' {
            lemma_read_through(rest, t, in_brackets, add_piece(names, cur), Seq::empty());
        } else {
            lemma_read_through(rest, t, in_brackets, names, cur.push(c));
        }
    }
}

/// Names read after some names are put after them.
proof fn lemma_names_before(
    s: Seq<char>,
    in_brackets: bool,
    m: Seq<Seq<char>>,
    names: Seq<Seq<char>>,
    cur: Seq<char>,
)
    ensures
        scan_names(s, in_brackets, m + names, cur) == with_names_before(
            m,
            scan_names(s, in_brackets, names, cur),
        ),
    decreases s.len(),
{
    if s.len() == 0 {
        assert(add_piece(m + names, cur) =~= m + add_piece(names, cur));
    } else {
        let c = s[0];
        let rest = s.drop_first();
        if is_blank(c) {
            lemma_names_before(rest, in_brackets, m, names, cur);
        } else if c == '[' {
            match scan_names(rest, true, Seq::empty(), Seq::empty()) {
                NamesScan::Names { names: inner, rest: after } => {
                    if after.len() < s.len() {
                        assert(m + names + prefix_all(cur, inner) =~= m + (names + prefix_all(
                            cur,
                            inner,
                        )));
                        lemma_names_before(
                            after,
                            in_brackets,
                            m,
                            names + prefix_all(cur, inner),
                            Seq::empty(),
                        );
                    }
                },
                _ => {},
            }
        } else if c == ']' {
            assert(add_piece(m + names, cur) =~= m + add_piece(names, cur));
        } else if c == ',' {
            assert(add_piece(m + names, cur) =~= m + add_piece(names, cur));
            lemma_names_before(rest, in_brackets, m, add_piece(names, cur), Seq::empty());
        } else {
            lemma_names_before(rest, in_brackets, m, names, cur.push(c));
        }
    }
}

/// A list that reads through stands for the names and piece it reaches.
pub proof fn law_read_through_names(x: Seq<char>)
    requires
        reads_through(x),
    ensures
        names_scan(x, false) == (NamesScan::Names {
            names: add_piece(
                read_through(x, Seq::empty(), Seq::empty())->Some_0.0,
                read_through(x, Seq::empty(), Seq::empty())->Some_0.1,
            ),
            rest: Seq::<char>::empty(),
        }),
{
    lemma_read_through(x, Seq::empty(), false, Seq::empty(), Seq::empty());
    assert(x + Seq::<char>::empty() =~= x);
}

/// A comma at the top level joins the names of its two sides: where the
/// left side reads through, the names of `x,y` are those of `x` followed by
/// those of `y`, and reading ends where reading `y` ends.
pub proof fn law_comma_joins(x: Seq<char>, y: Seq<char>)
    requires
        reads_through(x),
    ensures
        names_scan(x, false) is Names,
        names_scan(x + seq![','] + y, false) == with_names_before(
            names_scan(x, false)->Names_names,
            names_scan(y, false),
        ),
{
    let st = read_through(x, Seq::empty(), Seq::empty())->Some_0;
    law_read_through_names(x);
    assert(x + seq![','] + y =~= x + (seq![','] + y));
    lemma_read_through(x, seq![','] + y, false, Seq::empty(), Seq::empty());
    assert((seq![','] + y)[0] == ',');
    assert((seq![','] + y).drop_first() =~= y);
    assert(add_piece(st.0, st.1) =~= add_piece(st.0, st.1) + Seq::<Seq<char>>::empty());
    lemma_names_before(y, false, add_piece(st.0, st.1), Seq::empty(), Seq::empty());
}

/// Reading a piece that holds no comma or bracket adds its non-blank
/// characters to the piece being read.
proof fn lemma_scan_piece(
    w: Seq<char>,
    t: Seq<char>,
    in_brackets: bool,
    names: Seq<Seq<char>>,
    cur: Seq<char>,
)
    requires
        free_of(w, ','),
        bracket_free(w),
    ensures
        scan_names(w + t, in_brackets, names, cur) == scan_names(
            t,
            in_brackets,
            names,
            cur + drop_blanks(w),
        ),
    decreases w.len(),
{
    if w.len() == 0 {
        assert(w + t =~= t);
        assert(drop_blanks(w) =~= Seq::<char>::empty()) by {
            reveal_with_fuel(Seq::filter, 1);
        }
        assert(cur + drop_blanks(w) =~= cur);
    } else {
        let c = w[0];
        let rest = w.drop_first();
        assert(w =~= seq![c] + rest);
        lemma_drop_blanks_cons(c, rest);
        assert(free_of(rest, ',') && bracket_free(rest)) by {
            assert forall|i: int| 0 <= i < rest.len() implies rest[i] != ',' && rest[i] != '['
                && rest[i] != ']' by {
                assert(rest[i] == w[i + 1]);
            }
        }
        assert(c != ',' && c != '[' && c != ']');
        assert((w + t).drop_first() =~= rest + t);
        assert((w + t)[0] == c);
        if is_blank(c) {
            lemma_scan_piece(rest, t, in_brackets, names, cur);
            assert(drop_blanks(w) =~= drop_blanks(rest));
        } else {
            lemma_scan_piece(rest, t, in_brackets, names, cur.push(c));
            assert(cur.push(c) + drop_blanks(rest) =~= cur + drop_blanks(w));
        }
    }
}

/// `prefix[list]` puts the prefix, blanks dropped, before every name of a
/// list that reads through, groups inside it included.
pub proof fn law_group_expansion(p: Seq<char>, inner: Seq<char>)
    requires
        free_of(p, ','),
        bracket_free(p),
        drop_blanks(p).len() > 0,
        reads_through(inner),
    ensures
        names_scan(inner, false) is Names,
        names_scan(p + seq!['['] + inner + seq![']'], false) == (NamesScan::Names {
            names: prefix_all(drop_blanks(p), names_scan(inner, false)->Names_names),
            rest: Seq::<char>::empty(),
        }),
{
    let q = drop_blanks(p);
    let t = seq!['['] + inner + seq![']'];
    assert(p + seq!['['] + inner + seq![']'] =~= p + t);
    lemma_scan_piece(p, t, false, Seq::empty(), Seq::empty());
    assert(Seq::<char>::empty() + q =~= q);
    law_read_through_names(inner);
    let st = read_through(inner, Seq::empty(), Seq::empty())->Some_0;
    lemma_read_through(inner, seq![']'], true, Seq::empty(), Seq::empty());
    assert(t[0] == '[');
    assert(t.drop_first() =~= inner + seq![']']);
    assert(seq![']'].drop_first() =~= Seq::<char>::empty());
    let v = add_piece(st.0, st.1);
    assert(scan_names(inner + seq![']'], true, Seq::empty(), Seq::empty()) == (NamesScan::Names {
        names: v,
        rest: Seq::<char>::empty(),
    }));
    assert(Seq::<Seq<char>>::empty() + prefix_all(q, v) =~= prefix_all(q, v));
    assert(scan_names(t, false, Seq::empty(), q) == scan_names(
        Seq::<char>::empty(),
        false,
        prefix_all(q, v),
        Seq::empty(),
    ));
}

proof fn lemma_prefix_orders_below(a: Seq<Seq<char>>, b: Seq<Seq<char>>)
    requires
        b.len() > 0,
    ensures
        segments_order(a, a + b) == Rank::Less,
    decreases a.len(),
{
    if a.len() > 0 {
        law_text_order(a[0], a[0]);
        assert((a + b)[0] == a[0]);
        assert((a + b).drop_first() =~= a.drop_first() + b);
        lemma_prefix_orders_below(a.drop_first(), b);
    }
}

/// Each parent orders below its child.
pub proof fn law_parent_orders_below(n: ArtNameV)
    requires
        parent_of(n) is Some,
    ensures
        segments_order(parent_of(n)->Some_0.value, n.value) == Rank::Less,
{
    let v = n.value.drop_last();
    assert(v + seq![n.value.last()] =~= n.value);
    lemma_prefix_orders_below(v, seq![n.value.last()]);
}

/// The name read from the `i`-th text of a list.
pub open spec fn read_at(list: Seq<Seq<char>>, i: int) -> ArtNameV {
    parse_name(list[i])->Ok_0
}

/// Every text of the list reads as a name.
pub open spec fn all_read(list: Seq<Seq<char>>) -> bool {
    forall|i: int| 0 <= i < list.len() ==> #[trigger] parse_name(list[i]) is Ok
}

proof fn lemma_init_read(list: Seq<Seq<char>>, j: int)
    requires
        0 <= j < list.len() - 1,
    ensures
        list.drop_last()[j] == list[j],
        read_at(list.drop_last(), j) == read_at(list, j),
        parse_name(list.drop_last()[j]) == parse_name(list[j]),
{
}

proof fn lemma_collect_ok(list: Seq<Seq<char>>)
    ensures
        (collect_names(list) is Ok) == all_read(list),
    decreases list.len(),
{
    if list.len() > 0 {
        let init = list.drop_last();
        lemma_collect_ok(init);
        assert(list.last() == list[list.len() - 1]);
        if all_read(list) {
            assert forall|i: int| 0 <= i < init.len() implies #[trigger] parse_name(init[i]) is Ok by {
                lemma_init_read(list, i);
            }
        }
        if all_read(init) && parse_name(list.last()) is Ok {
            assert forall|i: int| 0 <= i < list.len() implies #[trigger] parse_name(list[i]) is Ok by {
                if i < list.len() - 1 {
                    lemma_init_read(list, i);
                }
            }
        }
    }
}

proof fn lemma_collect_err(list: Seq<Seq<char>>)
    ensures
        collect_names(list) matches Err(e) ==> exists|i: int|
            0 <= i < list.len() && #[trigger] parse_name(list[i]) == Err::<ArtNameV, Seq<char>>(e)
                && forall|j: int| 0 <= j < i ==> #[trigger] parse_name(list[j]) is Ok,
    decreases list.len(),
{
    if list.len() > 0 {
        let init = list.drop_last();
        let last = list.len() - 1;
        lemma_collect_err(init);
        lemma_collect_ok(init);
        assert(list.last() == list[last]);
        match collect_names(init) {
            Err(e) => {
                let i = choose|i: int|
                    0 <= i < init.len() && #[trigger] parse_name(init[i]) == Err::<ArtNameV, Seq<char>>(e)
                        && forall|j: int| 0 <= j < i ==> #[trigger] parse_name(init[j]) is Ok;
                lemma_init_read(list, i);
                assert forall|j: int| 0 <= j < i implies #[trigger] parse_name(list[j]) is Ok by {
                    lemma_init_read(list, j);
                    assert(parse_name(init[j]) is Ok);
                }
            },
            Ok(ns) => {
                if let Err(e) = parse_name(list.last()) {
                    assert forall|j: int| 0 <= j < last implies #[trigger] parse_name(list[j]) is Ok by {
                        lemma_init_read(list, j);
                        assert(parse_name(init[j]) is Ok);
                    }
                }
            },
        }
    }
}

proof fn lemma_collect_distinct(list: Seq<Seq<char>>)
    ensures
        collect_names(list) matches Ok(ns) ==> distinct_names(ns),
    decreases list.len(),
{
    if list.len() > 0 {
        lemma_collect_distinct(list.drop_last());
        if let Ok(ns) = collect_names(list.drop_last()) {
            if let Ok(n) = parse_name(list.last()) {
                law_insert_keeps_distinct(ns, n);
            }
        }
    }
}

/// Each name of the set is the first name read with its segments.
#[verifier::opaque]
pub open spec fn first_reads(list: Seq<Seq<char>>, ns: Seq<ArtNameV>) -> bool {
    forall|k: int|
        0 <= k < ns.len() ==> exists|i: int|
            0 <= i < list.len() && #[trigger] ns[k] == read_at(list, i) && forall|j: int|
                0 <= j < i ==> #[trigger] read_at(list, j).value != ns[k].value
}

/// Each name read has its segments in the set.
#[verifier::opaque]
pub open spec fn covers_reads(list: Seq<Seq<char>>, ns: Seq<ArtNameV>) -> bool {
    forall|i: int|
        #![trigger read_at(list, i)]
        0 <= i < list.len() ==> exists|k: int|
            0 <= k < ns.len() && #[trigger] ns[k].value == read_at(list, i).value
}

#[verifier::spinoff_prover]
proof fn lemma_collect_covers(list: Seq<Seq<char>>)
    ensures
        collect_names(list) matches Ok(ns) ==> covers_reads(list, ns),
    decreases list.len(),
{
    reveal(covers_reads);
    if list.len() > 0 {
        let init = list.drop_last();
        let last = list.len() - 1;
        lemma_collect_covers(init);
        if let Ok(ns) = collect_names(init) {
            if let Ok(n) = parse_name(list.last()) {
                let out = insert_name(ns, n);
                assert(list.last() == list[last]);
                assert(read_at(list, last) == n);
                assert forall|i: int| #![trigger read_at(list, i)] 0 <= i < list.len() implies exists|k: int|
                    0 <= k < out.len() && #[trigger] out[k].value == read_at(list, i).value by {
                    if i < last {
                        lemma_init_read(list, i);
                        let k = choose|k: int| 0 <= k < ns.len() && #[trigger] ns[k].value == read_at(init, i).value;
                        if out != ns {
                            assert(out[k] == ns[k]);
                        }
                        assert(out[k].value == read_at(list, i).value);
                    } else if out == ns {
                        let q = choose|q: int| 0 <= q < ns.len() && ns[q].value == n.value;
                        assert(out[q].value == read_at(list, i).value);
                    } else {
                        assert(out[ns.len() as int] == n);
                    }
                }
            }
        }
    }
}

proof fn lemma_first_kept(list: Seq<Seq<char>>, ns: Seq<ArtNameV>, k: int)
    requires
        list.len() > 0,
        first_reads(list.drop_last(), ns),
        0 <= k < ns.len(),
    ensures
        exists|i: int|
            0 <= i < list.len() && #[trigger] ns[k] == read_at(list, i) && forall|j: int|
                0 <= j < i ==> #[trigger] read_at(list, j).value != ns[k].value,
{
    reveal(first_reads);
    let init = list.drop_last();
    let i = choose|i: int|
        0 <= i < init.len() && #[trigger] ns[k] == read_at(init, i) && forall|j: int|
            0 <= j < i ==> #[trigger] read_at(init, j).value != ns[k].value;
    lemma_init_read(list, i);
    assert forall|j: int| 0 <= j < i implies #[trigger] read_at(list, j).value != ns[k].value by {
        lemma_init_read(list, j);
    }
}

proof fn lemma_first_new(list: Seq<Seq<char>>, ns: Seq<ArtNameV>, n: ArtNameV)
    requires
        list.len() > 0,
        covers_reads(list.drop_last(), ns),
        read_at(list, list.len() - 1) == n,
        !(exists|q: int| 0 <= q < ns.len() && ns[q].value == n.value),
    ensures
        forall|j: int| 0 <= j < list.len() - 1 ==> #[trigger] read_at(list, j).value != n.value,
{
    reveal(covers_reads);
    let init = list.drop_last();
    assert forall|j: int| 0 <= j < list.len() - 1 implies #[trigger] read_at(list, j).value != n.value by {
        lemma_init_read(list, j);
        assert(read_at(init, j) == read_at(list, j));
        let kk = choose|kk: int| 0 <= kk < ns.len() && #[trigger] ns[kk].value == read_at(init, j).value;
        assert(ns[kk].value != n.value);
    }
}

#[verifier::spinoff_prover]
proof fn lemma_first_step(list: Seq<Seq<char>>, ns: Seq<ArtNameV>, n: ArtNameV)
    requires
        list.len() > 0,
        first_reads(list.drop_last(), ns),
        covers_reads(list.drop_last(), ns),
        read_at(list, list.len() - 1) == n,
    ensures
        first_reads(list, insert_name(ns, n)),
{
    let out = insert_name(ns, n);
    let last = list.len() - 1;
    reveal(first_reads);
    if exists|q: int| 0 <= q < ns.len() && ns[q].value == n.value {
        assert(out == ns);
        assert forall|k: int| 0 <= k < out.len() implies exists|i: int|
            0 <= i < list.len() && #[trigger] out[k] == read_at(list, i) && forall|j: int|
                0 <= j < i ==> #[trigger] read_at(list, j).value != out[k].value by {
            lemma_first_kept(list, ns, k);
        }
    } else {
        lemma_first_new(list, ns, n);
        assert(out == ns.push(n));
        assert forall|k: int| 0 <= k < out.len() implies exists|i: int|
            0 <= i < list.len() && #[trigger] out[k] == read_at(list, i) && forall|j: int|
                0 <= j < i ==> #[trigger] read_at(list, j).value != out[k].value by {
            if k < ns.len() {
                assert(out[k] == ns[k]);
                lemma_first_kept(list, ns, k);
            } else {
                assert(out[k] == read_at(list, last));
            }
        }
    }
}

proof fn lemma_collect_first(list: Seq<Seq<char>>)
    ensures
        collect_names(list) matches Ok(ns) ==> first_reads(list, ns),
    decreases list.len(),
{
    if list.len() == 0 {
        reveal(first_reads);
    } else {
        let init = list.drop_last();
        lemma_collect_first(init);
        lemma_collect_covers(init);
        if let Ok(ns) = collect_names(init) {
            if let Ok(n) = parse_name(list.last()) {
                assert(list.last() == list[list.len() - 1]);
                lemma_first_step(list, ns, n);
            }
        }
    }
}

/// The set read from a list of texts: it reads exactly when every text
/// reads, and then holds the names read, names with equal segments once,
/// the first of them kept; otherwise it fails with the error of the first
/// text that does not read.
pub proof fn law_collect_names(list: Seq<Seq<char>>)
    ensures
        (collect_names(list) is Ok) == all_read(list),
        collect_names(list) matches Err(e) ==> exists|i: int|
            0 <= i < list.len() && #[trigger] parse_name(list[i]) == Err::<ArtNameV, Seq<char>>(e)
                && forall|j: int| 0 <= j < i ==> #[trigger] parse_name(list[j]) is Ok,
        collect_names(list) matches Ok(ns) ==> distinct_names(ns) && first_reads(list, ns)
            && covers_reads(list, ns),
{
    lemma_collect_ok(list);
    lemma_collect_err(list);
    lemma_collect_distinct(list);
    lemma_collect_first(list);
    lemma_collect_covers(list);
}

/// A character that may follow the kind and its `-`.
pub open spec fn is_name_char(c: char) -> bool {
    ('A' <= c && c <= 'Z') || ('0' <= c && c <= '9') || c == '_' || c == '-'
}

/// The syntax of a normalized name, as the documentation of the name
/// pattern gives it: a kind, then optionally `-` and at least one character
/// of A-Z, 0-9, `_` and `-`, not ending in `-`.
pub open spec fn name_syntax(t: Seq<char>) -> bool {
    &&& t.len() >= 3
    &&& type_of_name(t.take(3)) is Some
    &&& t.len() == 3 || {
        &&& t.len() >= 5
        &&& t[3] == '-'
        &&& forall|i: int| 4 <= i < t.len() ==> is_name_char(#[trigger] t[i])
        &&& t[t.len() - 1] != '-'
    }
}

/// A name whose normal form has the name syntax reads, where the pattern
/// accepts it, with the kind its first three characters give.
pub proof fn law_syntax_reads(s: Seq<char>)
    requires
        name_syntax(normalize(s)),
    ensures
        name_result(s, true) == Ok::<ArtNameV, Seq<char>>(
            ArtNameV {
                raw: s,
                value: name_value(s),
                ty: type_of_name(normalize(s).take(3))->Some_0,
            },
        ),
{
    let t = normalize(s);
    let k = t.take(3);
    let r = t.skip(3);
    assert(t =~= k + r);
    let ty = type_of_name(k)->Some_0;
    assert(k == kind_text(ty));
    assert(free_of(k, '-'));
    lemma_split_prefix(k, r, '-');
    lemma_split_nonempty(r, '-');
    lemma_split_first_prefix(r, '-');
    lemma_split_pieces(r, '-', |c: char| true);
    let first = split_on(r, '-')[0];
    if r.len() > 0 {
        assert(r[0] == '-');
        if first.len() > 0 {
            assert(first[0] == r.take(first.len() as int)[0]);
            assert(free_of(first, '-'));
            assert(false);
        }
    } else {
        assert(first.len() == 0);
    }
    assert(k + first =~= k);
    assert(name_value(s)[0] == k);
    lemma_kind_of_text(ty);
}

/// Adding a name twice adds it once.
pub proof fn law_insert_twice(ns: Seq<ArtNameV>, n: ArtNameV)
    ensures
        insert_name(insert_name(ns, n), n) == insert_name(ns, n),
{
    if !(exists|i: int| 0 <= i < ns.len() && ns[i].value == n.value) {
        let m = ns.push(n);
        assert(m[ns.len() as int].value == n.value);
    }
}

/// Adding a name keeps the names distinct.
pub proof fn law_insert_keeps_distinct(ns: Seq<ArtNameV>, n: ArtNameV)
    requires
        distinct_names(ns),
    ensures
        distinct_names(insert_name(ns, n)),
{
}

/// The export format is read without regard to case.
pub proof fn law_export_type_ignores_case(
    path: Option<Seq<char>>,
    t1: Seq<char>,
    t2: Seq<char>,
)
    requires
        lowercase(t1) == lowercase(t2),
    ensures
        export_config(path, Some(t1)) == export_config(path, Some(t2)),
{
}

} // verus!

verus! {

/// ASCII upper case: every letter from `a` to `z` becomes the letter from
/// `A` to `Z` 32 code points below it, and every other character stays.
pub proof fn law_upper_case(c: char)
    ensures
        'a' <= c <= 'z' ==> 'A' <= upper(c) <= 'Z' && (upper(c) as u32) + 32 == (c as u32),
        !('a' <= c <= 'z') ==> upper(c) == c,
{
}

/// Upper-casing a letter twice is upper-casing it once.
proof fn lemma_upper_twice(c: char)
    ensures
        upper(upper(c)) == upper(c),
{
}

proof fn lemma_normalize_upper(s: Seq<char>)
    ensures
        normalize(s.map_values(|c: char| upper(c))) == normalize(s),
    decreases s.len(),
{
    let u = s.map_values(|c: char| upper(c));
    if s.len() > 0 {
        assert(u.drop_last() =~= s.drop_last().map_values(|c: char| upper(c)));
        lemma_normalize_upper(s.drop_last());
        lemma_upper_twice(s.last());
        assert(u.last() == upper(s.last()));
        assert(upper(s.last()) == ' ' <==> s.last() == ' ');
    }
}

/// A name and its ASCII upper-case form read as the same segments.
pub proof fn law_case_does_not_matter(s: Seq<char>)
    ensures
        name_value(s.map_values(|c: char| upper(c))) == name_value(s),
{
    lemma_normalize_upper(s);
}

/// A text that is a proper prefix of another orders below it.
pub proof fn law_prefix_orders_first(a: Seq<char>, b: Seq<char>)
    requires
        b.len() > 0,
    ensures
        text_order(a, a + b) == Rank::Less,
        text_order(a + b, a) == Rank::Greater,
    decreases a.len(),
{
    if a.len() == 0 {
        assert(a + b =~= b);
    } else {
        assert((a + b)[0] == a[0]);
        assert((a + b).drop_first() =~= a.drop_first() + b);
        law_prefix_orders_first(a.drop_first(), b);
    }
}

/// Two texts that agree up to a position and differ there order as the
/// characters at that position do.
pub proof fn law_first_difference_decides(a: Seq<char>, b: Seq<char>, i: int)
    requires
        0 <= i < a.len(),
        i < b.len(),
        a.take(i) == b.take(i),
        a[i] < b[i],
    ensures
        text_order(a, b) == Rank::Less,
        text_order(b, a) == Rank::Greater,
    decreases i,
{
    if i > 0 {
        assert(a[0] == a.take(i)[0] && b[0] == b.take(i)[0]);
        assert(a.drop_first().take(i - 1) =~= a.take(i).drop_first());
        assert(b.drop_first().take(i - 1) =~= b.take(i).drop_first());
        law_first_difference_decides(a.drop_first(), b.drop_first(), i - 1);
    }
}

/// A name that is its kind alone, and every requirement or risk, names no
/// part-of; a test of more than one segment names exactly one
/// specification, and a specification of more than one segment exactly one
/// requirement.
pub proof fn law_partof_by_kind(n: ArtNameV)
    ensures
        n.value.len() <= 1 ==> named_partofs_of(n) == Seq::<ArtNameV>::empty(),
        n.ty == ArtType::REQ || n.ty == ArtType::RSK ==> named_partofs_of(n)
            == Seq::<ArtNameV>::empty(),
        n.value.len() > 1 && n.ty == ArtType::TST ==> partof_kind(n) == Some(ArtType::SPC)
            && named_partofs_of(n).len() == 1,
        n.value.len() > 1 && n.ty == ArtType::SPC ==> partof_kind(n) == Some(ArtType::REQ)
            && named_partofs_of(n).len() == 1,
{
}

/// The export settings keep the path as given, and read exactly when a
/// path is given and the format is `html` in any case.
pub proof fn law_export_keeps_path(p: Option<Seq<char>>, t: Option<Seq<char>>)
    ensures
        export_config(p, t) matches Ok((q, _)) ==> p == Some(q),
        (export_config(p, t) is Ok) == (p is Some && t is Some && lowercase(t->Some_0)
            == html_text()),
{
}

/// The number a level stands at: none, warnings, information, debugging,
/// tracing.
pub open spec fn level_rank(l: LevelFilter) -> int {
    match l {
        LevelFilter::Off => 0,
        LevelFilter::Warn => 1,
        LevelFilter::Info => 2,
        LevelFilter::Debug => 3,
        LevelFilter::Trace => 4,
    }
}

/// Quiet turns logging off whatever the verbosity; otherwise warnings are
/// logged, and each `-v`, up to three, adds one more kind of message.
pub proof fn law_log_levels(quiet: bool, v: u8)
    ensures
        quiet ==> level_for(quiet, v) == LevelFilter::Off,
        !quiet && v <= 3 ==> level_rank(level_for(quiet, v)) == v + 1,
        !quiet && v < 3 ==> level_rank(level_for(quiet, (v + 1) as u8)) == level_rank(
            level_for(quiet, v),
        ) + 1,
{
}

} // verus!
