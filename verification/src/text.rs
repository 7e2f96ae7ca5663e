use vstd::prelude::*;
use vstd::std_specs::iter::IteratorSpec;

verus! {

broadcast use vstd::string::group_string_axioms;

/// ASCII upper case of one character; other characters are kept.
pub open spec fn upper(c: char) -> char {
    if 'a' <= c && c <= 'z' {
        ((c as u32) - 32) as char
    } else {
        c
    }
}

/// ASCII lower case of one character; other characters are kept.
pub open spec fn lower(c: char) -> char {
    if 'A' <= c && c <= 'Z' {
        ((c as u32) + 32) as char
    } else {
        c
    }
}

/// ASCII lower case of a text.
pub open spec fn lowercase(s: Seq<char>) -> Seq<char> {
    s.map_values(|c: char| lower(c))
}

/// A text in ASCII upper case, with its spaces removed.
pub open spec fn normalize(s: Seq<char>) -> Seq<char>
    decreases s.len(),
{
    if s.len() == 0 {
        Seq::empty()
    } else if s.last() == ' ' {
        normalize(s.drop_last())
    } else {
        normalize(s.drop_last()).push(upper(s.last()))
    }
}

/// The pieces of `s` between the occurrences of `sep`; an empty text has one
/// empty piece.
pub open spec fn split_on(s: Seq<char>, sep: char) -> Seq<Seq<char>>
    decreases s.len(),
{
    if s.len() == 0 {
        seq![Seq::<char>::empty()]
    } else {
        let parts = split_on(s.drop_last(), sep);
        if s.last() == sep {
            parts.push(Seq::empty())
        } else {
            parts.update(parts.len() - 1, parts.last().push(s.last()))
        }
    }
}

/// The pieces joined, with `sep` between each two.
pub open spec fn join_with(parts: Seq<Seq<char>>, sep: char) -> Seq<char>
    decreases parts.len(),
{
    if parts.len() == 0 {
        Seq::empty()
    } else if parts.len() == 1 {
        parts[0]
    } else {
        join_with(parts.drop_last(), sep).push(sep) + parts.last()
    }
}

/// Every character of `s` has property `p`.
pub open spec fn all_chars(s: Seq<char>, p: spec_fn(char) -> bool) -> bool {
    forall|i: int| 0 <= i < s.len() ==> p(#[trigger] s[i])
}

/// A character that normalization keeps as it is.
pub open spec fn is_normal_char(c: char) -> bool {
    c != ' ' && upper(c) == c
}

/// The character does not occur in `s`.
pub open spec fn free_of(s: Seq<char>, sep: char) -> bool {
    forall|i: int| 0 <= i < s.len() ==> s[i] != sep
}

pub proof fn lemma_upper_normal(c: char)
    ensures
        c != ' ' ==> is_normal_char(upper(c)),
{
}

/// Normalized text holds only characters that normalization keeps.
pub proof fn lemma_normalize_normal(s: Seq<char>)
    ensures
        all_chars(normalize(s), |c: char| is_normal_char(c)),
    decreases s.len(),
{
    if s.len() > 0 {
        lemma_normalize_normal(s.drop_last());
        lemma_upper_normal(s.last());
    }
}

/// Text of characters that normalization keeps is its own normal form.
pub proof fn lemma_normalize_fixed(s: Seq<char>)
    requires
        all_chars(s, |c: char| is_normal_char(c)),
    ensures
        normalize(s) == s,
    decreases s.len(),
{
    if s.len() > 0 {
        assert(all_chars(s.drop_last(), |c: char| is_normal_char(c))) by {
            assert forall|i: int| 0 <= i < s.drop_last().len() implies is_normal_char(
                #[trigger] s.drop_last()[i],
            ) by {
                assert(s.drop_last()[i] == s[i]);
            }
        }
        lemma_normalize_fixed(s.drop_last());
        assert(is_normal_char(s[s.len() - 1]));
        assert(normalize(s) =~= s);
    }
}

/// Normalization works character by character.
pub proof fn lemma_normalize_concat(a: Seq<char>, b: Seq<char>)
    ensures
        normalize(a + b) == normalize(a) + normalize(b),
    decreases b.len(),
{
    if b.len() == 0 {
        assert(a + b =~= a);
        assert(normalize(a) + normalize(b) =~= normalize(a));
    } else {
        lemma_normalize_concat(a, b.drop_last());
        assert((a + b).drop_last() =~= a + b.drop_last());
        assert((a + b).last() == b.last());
        if b.last() == ' ' {
        } else {
            assert(normalize(a) + normalize(b) =~= (normalize(a) + normalize(b.drop_last())).push(
                upper(b.last()),
            ));
        }
    }
}

/// Every text has at least one piece.
pub proof fn lemma_split_nonempty(s: Seq<char>, sep: char)
    ensures
        split_on(s, sep).len() > 0,
    decreases s.len(),
{
    if s.len() > 0 {
        lemma_split_nonempty(s.drop_last(), sep);
    }
}

/// A text without the separator is a single piece.
pub proof fn lemma_split_single(a: Seq<char>, sep: char)
    requires
        free_of(a, sep),
    ensures
        split_on(a, sep) == seq![a],
    decreases a.len(),
{
    if a.len() > 0 {
        assert(free_of(a.drop_last(), sep)) by {
            assert forall|i: int| 0 <= i < a.drop_last().len() implies a.drop_last()[i] != sep by {
                assert(a.drop_last()[i] == a[i]);
            }
        }
        lemma_split_single(a.drop_last(), sep);
        assert(a[a.len() - 1] != sep);
        assert(a.drop_last().push(a.last()) =~= a);
        assert(split_on(a, sep) =~= seq![a]);
    } else {
        assert(a =~= Seq::<char>::empty());
    }
}

/// Appending text without the separator extends the last piece.
pub proof fn lemma_split_extend(x: Seq<char>, b: Seq<char>, sep: char)
    requires
        free_of(b, sep),
    ensures
        split_on(x + b, sep) == split_on(x, sep).update(
            split_on(x, sep).len() - 1,
            split_on(x, sep).last() + b,
        ),
        split_on(x, sep).len() > 0,
    decreases b.len(),
{
    lemma_split_nonempty(x, sep);
    let px = split_on(x, sep);
    if b.len() == 0 {
        assert(x + b =~= x);
        assert(px.last() + b =~= px.last());
        assert(px.update(px.len() - 1, px.last()) =~= px);
    } else {
        lemma_split_extend(x, b.drop_last(), sep);
        assert((x + b).drop_last() =~= x + b.drop_last());
        assert((x + b).last() == b.last());
        assert(b.last() != sep);
        assert((px.last() + b.drop_last()).push(b.last()) =~= px.last() + b);
        assert(split_on(x + b, sep) =~= px.update(px.len() - 1, px.last() + b));
    }
}

/// Joining pieces that do not hold the separator and splitting again gives
/// the pieces back.
pub proof fn lemma_split_join(v: Seq<Seq<char>>, sep: char)
    requires
        v.len() >= 1,
        forall|i: int| 0 <= i < v.len() ==> free_of(#[trigger] v[i], sep),
    ensures
        split_on(join_with(v, sep), sep) == v,
    decreases v.len(),
{
    if v.len() == 1 {
        lemma_split_single(v[0], sep);
        assert(seq![v[0]] =~= v);
    } else {
        let w = v.drop_last();
        assert forall|i: int| 0 <= i < w.len() implies free_of(#[trigger] w[i], sep) by {
            assert(w[i] == v[i]);
        }
        lemma_split_join(w, sep);
        let j = join_with(w, sep).push(sep);
        assert(split_on(j, sep) == w.push(Seq::<char>::empty())) by {
            assert(j.drop_last() =~= join_with(w, sep));
        }
        assert(free_of(v.last(), sep)) by {
            assert(v.last() == v[v.len() - 1]);
        }
        lemma_split_extend(j, v.last(), sep);
        assert(Seq::<char>::empty() + v.last() =~= v.last());
        assert(w.push(Seq::<char>::empty()).update(w.len() as int, v.last()) =~= v);
    }
}

/// The first piece of a split is a prefix of the text.
pub proof fn lemma_split_first_prefix(t: Seq<char>, sep: char)
    ensures
        split_on(t, sep).len() > 0,
        split_on(t, sep)[0].len() <= t.len(),
        t.take(split_on(t, sep)[0].len() as int) == split_on(t, sep)[0],
        split_on(t, sep).len() == 1 ==> split_on(t, sep)[0] == t,
    decreases t.len(),
{
    lemma_split_nonempty(t, sep);
    if t.len() > 0 {
        lemma_split_first_prefix(t.drop_last(), sep);
        let parts = split_on(t.drop_last(), sep);
        if t.last() != sep && parts.len() == 1 {
            assert(t.drop_last().push(t.last()) =~= t);
            assert(split_on(t, sep)[0] == t);
            assert(t.take(t.len() as int) =~= t);
        } else {
            assert(split_on(t, sep)[0] == parts[0]);
            assert(t.take(parts[0].len() as int) =~= t.drop_last().take(parts[0].len() as int));
        }
    } else {
        assert(t.take(0) =~= split_on(t, sep)[0]);
    }
}

/// A separator-free text put in front extends the first piece.
pub proof fn lemma_split_prefix(a: Seq<char>, b: Seq<char>, sep: char)
    requires
        free_of(a, sep),
    ensures
        split_on(a + b, sep) == split_on(b, sep).update(0, a + split_on(b, sep)[0]),
    decreases b.len(),
{
    if b.len() == 0 {
        assert(a + b =~= a);
        lemma_split_single(a, sep);
        assert(a + Seq::<char>::empty() =~= a);
        assert(split_on(b, sep).update(0, a + split_on(b, sep)[0]) =~= seq![a]);
    } else {
        lemma_split_prefix(a, b.drop_last(), sep);
        lemma_split_nonempty(b.drop_last(), sep);
        assert((a + b).drop_last() =~= a + b.drop_last());
        assert((a + b).last() == b.last());
        let pb = split_on(b.drop_last(), sep);
        if b.last() == sep {
            assert(split_on(a + b, sep) =~= split_on(b, sep).update(0, a + split_on(b, sep)[0]));
        } else {
            if pb.len() == 1 {
                assert((a + pb[0]).push(b.last()) =~= a + pb[0].push(b.last()));
            }
            assert(split_on(a + b, sep) =~= split_on(b, sep).update(0, a + split_on(b, sep)[0]));
        }
    }
}

/// Extending the last piece extends the joined text.
proof fn lemma_join_extend_last(v: Seq<Seq<char>>, sep: char, c: char)
    requires
        v.len() > 0,
    ensures
        join_with(v.update(v.len() - 1, v.last().push(c)), sep) == join_with(v, sep).push(c),
{
    let w = v.update(v.len() - 1, v.last().push(c));
    if v.len() == 1 {
        assert(w[0] == v[0].push(c));
    } else {
        assert(w.drop_last() =~= v.drop_last());
        assert(w.last() == v.last().push(c));
        assert(join_with(v.drop_last(), sep).push(sep) + v.last().push(c) =~= (join_with(
            v.drop_last(),
            sep,
        ).push(sep) + v.last()).push(c));
    }
}

/// Splitting a text and joining the pieces again gives the text back.
pub proof fn lemma_join_split(t: Seq<char>, sep: char)
    ensures
        join_with(split_on(t, sep), sep) == t,
    decreases t.len(),
{
    if t.len() == 0 {
        assert(join_with(seq![Seq::<char>::empty()], sep) == Seq::<char>::empty());
    } else {
        lemma_join_split(t.drop_last(), sep);
        lemma_split_nonempty(t.drop_last(), sep);
        let parts = split_on(t.drop_last(), sep);
        if t.last() == sep {
            let np = parts.push(Seq::<char>::empty());
            assert(np.drop_last() =~= parts);
            assert(join_with(parts, sep).push(sep) + Seq::<char>::empty() =~= t);
        } else {
            lemma_join_extend_last(parts, sep, t.last());
            assert(t.drop_last().push(t.last()) =~= t);
        }
    }
}

/// The pieces of a split hold no separator, and only characters of the text.
pub proof fn lemma_split_pieces(s: Seq<char>, sep: char, p: spec_fn(char) -> bool)
    ensures
        forall|i: int| 0 <= i < split_on(s, sep).len() ==> free_of(#[trigger] split_on(s, sep)[i], sep),
        all_chars(s, p) ==> forall|i: int|
            0 <= i < split_on(s, sep).len() ==> all_chars(#[trigger] split_on(s, sep)[i], p),
    decreases s.len(),
{
    if s.len() > 0 {
        lemma_split_pieces(s.drop_last(), sep, p);
        lemma_split_nonempty(s.drop_last(), sep);
        let parts = split_on(s.drop_last(), sep);
        if all_chars(s, p) {
            assert(all_chars(s.drop_last(), p)) by {
                assert forall|i: int| 0 <= i < s.drop_last().len() implies p(
                    #[trigger] s.drop_last()[i],
                ) by {
                    assert(s.drop_last()[i] == s[i]);
                }
            }
            assert(p(s[s.len() - 1]));
        }
        if s.last() != sep {
            let np = split_on(s, sep);
            assert forall|i: int| 0 <= i < np.len() implies free_of(#[trigger] np[i], sep) by {
                if i == np.len() - 1 {
                    assert(np[i] == parts.last().push(s.last()));
                    assert(free_of(parts[parts.len() - 1], sep));
                    assert forall|k: int| 0 <= k < np[i].len() implies np[i][k] != sep by {
                        if k < parts.last().len() {
                            assert(np[i][k] == parts.last()[k]);
                        }
                    }
                } else {
                    assert(np[i] == parts[i]);
                }
            }
            if all_chars(s, p) {
                assert forall|i: int| 0 <= i < np.len() implies all_chars(#[trigger] np[i], p) by {
                    if i == np.len() - 1 {
                        assert(all_chars(parts[parts.len() - 1], p));
                        assert forall|k: int| 0 <= k < np[i].len() implies p(#[trigger] np[i][k]) by {
                            if k < parts.last().len() {
                                assert(np[i][k] == parts.last()[k]);
                            } else {
                                assert(np[i][k] == s[s.len() - 1]);
                            }
                        }
                    } else {
                        assert(np[i] == parts[i]);
                    }
                }
            }
        } else {
            let np = split_on(s, sep);
            assert forall|i: int| 0 <= i < np.len() implies free_of(#[trigger] np[i], sep) by {
                if i < parts.len() {
                    assert(np[i] == parts[i]);
                }
            }
            if all_chars(s, p) {
                assert forall|i: int| 0 <= i < np.len() implies all_chars(#[trigger] np[i], p) by {
                    if i < parts.len() {
                        assert(np[i] == parts[i]);
                    }
                }
            }
        }
    }
}

/// Joining pieces of one kind of character, with a separator of that kind,
/// gives text of that kind.
pub proof fn lemma_join_chars(v: Seq<Seq<char>>, sep: char, p: spec_fn(char) -> bool)
    requires
        p(sep),
        forall|i: int| 0 <= i < v.len() ==> all_chars(#[trigger] v[i], p),
    ensures
        all_chars(join_with(v, sep), p),
    decreases v.len(),
{
    if v.len() == 1 {
        assert(all_chars(v[0], p));
    } else if v.len() > 1 {
        let w = v.drop_last();
        assert forall|i: int| 0 <= i < w.len() implies all_chars(#[trigger] w[i], p) by {
            assert(w[i] == v[i]);
        }
        lemma_join_chars(w, sep, p);
        let j = join_with(w, sep).push(sep);
        assert(all_chars(v[v.len() - 1], p));
        assert forall|k: int| 0 <= k < join_with(v, sep).len() implies p(
            #[trigger] join_with(v, sep)[k],
        ) by {
            if k < j.len() {
                if k < join_with(w, sep).len() {
                    assert(join_with(v, sep)[k] == join_with(w, sep)[k]);
                }
            } else {
                assert(join_with(v, sep)[k] == v.last()[k - j.len()]);
            }
        }
    }
}

/// The views of a sequence of strings.
pub open spec fn strings_view(v: Seq<String>) -> Seq<Seq<char>> {
    v.map_values(|s: String| s@)
}

/// Appends one character to a string (`String::push`).
#[verifier::external_body]
pub(crate) fn push_char(s: &mut String, c: char)
    ensures
        final(s)@ == old(s)@.push(c),
{
    s.push(c);
}

/// ASCII upper case of one character.
pub fn upper_char(c: char) -> (r: char)
    ensures
        r == upper(c),
{
    if 'a' <= c && c <= 'z' {
        ((c as u8) - 32) as char
    } else {
        c
    }
}

/// ASCII lower case of one character.
pub fn lower_char(c: char) -> (r: char)
    ensures
        r == lower(c),
{
    if 'A' <= c && c <= 'Z' {
        ((c as u8) + 32) as char
    } else {
        c
    }
}

/// ASCII lower case of a text (`str::to_ascii_lowercase`).
pub fn to_lowercase(s: &str) -> (r: String)
    ensures
        r@ == lowercase(s@),
{
    let cs = chars_of(s);
    let mut out = String::new();
    let mut i: usize = 0;
    while i < cs.len()
        invariant
            0 <= i <= cs.len(),
            cs@ == s@,
            out@ == lowercase(s@.take(i as int)),
        decreases cs.len() - i,
    {
        push_char(&mut out, lower_char(cs[i]));
        i = i + 1;
        assert(lowercase(s@.take(i as int)) =~= lowercase(s@.take(i - 1)).push(lower(s@[i - 1])));
    }
    assert(s@.take(cs.len() as int) =~= s@);
    out
}

/// A text in ASCII upper case with its spaces removed
/// (`to_ascii_uppercase` then `replace(' ', "")`).
pub fn normalized(s: &str) -> (r: String)
    ensures
        r@ == normalize(s@),
{
    let cs = chars_of(s);
    let mut out = String::new();
    let mut i: usize = 0;
    while i < cs.len()
        invariant
            0 <= i <= cs.len(),
            cs@ == s@,
            out@ == normalize(s@.take(i as int)),
        decreases cs.len() - i,
    {
        let c = cs[i];
        if c != ' ' {
            push_char(&mut out, upper_char(c));
        }
        i = i + 1;
        assert(s@.take(i as int).drop_last() =~= s@.take(i - 1));
    }
    assert(s@.take(cs.len() as int) =~= s@);
    out
}

/// The pieces of a text between the occurrences of `sep` (`str::split`).
pub fn split_text(s: &str, sep: char) -> (r: Vec<String>)
    ensures
        strings_view(r@) == split_on(s@, sep),
{
    let cs = chars_of(s);
    let mut parts: Vec<String> = Vec::new();
    let mut current = String::new();
    let mut i: usize = 0;
    assert(s@.take(0) =~= Seq::<char>::empty());
    while i < cs.len()
        invariant
            0 <= i <= cs.len(),
            cs@ == s@,
            strings_view(parts@).push(current@) == split_on(s@.take(i as int), sep),
        decreases cs.len() - i,
    {
        let c = cs[i];
        let ghost before = strings_view(parts@).push(current@);
        if c == sep {
            parts.push(current);
            current = String::new();
        } else {
            push_char(&mut current, c);
        }
        i = i + 1;
        assert(s@.take(i as int).drop_last() =~= s@.take(i - 1));
        assert(strings_view(parts@).push(current@) =~= split_on(s@.take(i as int), sep));
    }
    assert(s@.take(cs.len() as int) =~= s@);
    parts.push(current);
    assert(strings_view(parts@) =~= split_on(s@, sep));
    parts
}

/// The strings joined with `sep` between each two (`join`).
pub fn join_strings(parts: &Vec<String>, sep: char) -> (r: String)
    ensures
        r@ == join_with(strings_view(parts@), sep),
{
    let mut out = String::new();
    let mut i: usize = 0;
    while i < parts.len()
        invariant
            0 <= i <= parts.len(),
            out@ == join_with(strings_view(parts@).take(i as int), sep),
        decreases parts.len() - i,
    {
        if i > 0 {
            push_char(&mut out, sep);
        }
        out.append(parts[i].as_str());
        i = i + 1;
        assert(strings_view(parts@).take(i as int).drop_last() =~= strings_view(parts@).take(i - 1));
    }
    assert(strings_view(parts@).take(parts.len() as int) =~= strings_view(parts@));
    out
}

/// The decimal digit for a number below ten.
pub open spec fn digit(d: nat) -> char {
    ((48 + d) as u32) as char
}

/// The decimal numeral of a number.
pub open spec fn decimal(n: nat) -> Seq<char>
    decreases n,
{
    if n < 10 {
        seq![digit(n)]
    } else {
        decimal(n / 10).push(digit(n % 10))
    }
}

/// The decimal digit for a number below ten.
fn digit_char(d: usize) -> (c: char)
    requires
        d < 10,
    ensures
        c == digit(d as nat),
{
    ((48 + d) as u8) as char
}

/// Appends the decimal numeral of `n`.
pub fn push_decimal(out: &mut String, n: usize)
    ensures
        final(out)@ == old(out)@ + decimal(n as nat),
    decreases n,
{
    if n >= 10 {
        push_decimal(out, n / 10);
    }
    push_char(out, digit_char(n % 10));
    assert(out@ =~= old(out)@ + decimal(n as nat));
}

/// Collects the characters of a string slice.
pub fn chars_of(s: &str) -> (v: Vec<char>)
    ensures
        v@ == s@,
{
    let mut v: Vec<char> = Vec::new();
    let mut it = s.chars();
    loop
        invariant
            it.decrease() is Some,
            v@ + it.remaining() == s@,
        decreases it.decrease()->0,
    {
        match it.next() {
            Some(c) => {
                v.push(c);
            },
            None => {
                return v;
            },
        }
    }
}

} // verus!
