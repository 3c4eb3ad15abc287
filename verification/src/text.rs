//! Character-level text handling: whitespace trimming, ASCII lower-casing,
//! splitting on a separator, code-point ordering and decimal parsing.
//! Every operation works on the `Seq<char>` view of a string.
use vstd::prelude::*;

verus! {

broadcast use vstd::string::group_string_axioms;

// ---------------------------------------------------------------------------
// Specifications
// ---------------------------------------------------------------------------

/// The Unicode `White_Space` characters: the set that `char::is_whitespace`
/// recognises and that `str::trim` removes.
pub open spec fn is_space(c: char) -> bool {
    ||| ('\u{9}' <= c && c <= '\u{d}')
    ||| c == ' '
    ||| c == '\u{85}'
    ||| c == '\u{a0}'
    ||| c == '\u{1680}'
    ||| ('\u{2000}' <= c && c <= '\u{200a}')
    ||| c == '\u{2028}'
    ||| c == '\u{2029}'
    ||| c == '\u{202f}'
    ||| c == '\u{205f}'
    ||| c == '\u{3000}'
}

/// Lower-cases one ASCII capital letter and leaves every other character as it is.
pub open spec fn lower_of(c: char) -> char {
    if 'A' <= c && c <= 'Z' {
        ((c as u32) + 32) as char
    } else {
        c
    }
}

/// ASCII lower-casing of a whole text.
pub open spec fn ascii_lower(s: Seq<char>) -> Seq<char> {
    s.map_values(|c: char| lower_of(c))
}

/// `s` without its leading whitespace.
pub open spec fn trim_start(s: Seq<char>) -> Seq<char>
    decreases s.len(),
{
    if s.len() > 0 && is_space(s[0]) {
        trim_start(s.drop_first())
    } else {
        s
    }
}

/// `s` without its trailing whitespace.
pub open spec fn trim_end(s: Seq<char>) -> Seq<char>
    decreases s.len(),
{
    if s.len() > 0 && is_space(s.last()) {
        trim_end(s.drop_last())
    } else {
        s
    }
}

/// `s` without whitespace at either end.
pub open spec fn trim(s: Seq<char>) -> Seq<char> {
    trim_end(trim_start(s))
}

/// `s` without every trailing occurrence of `c`.
pub open spec fn trim_end_of(s: Seq<char>, c: char) -> Seq<char>
    decreases s.len(),
{
    if s.len() > 0 && s.last() == c {
        trim_end_of(s.drop_last(), c)
    } else {
        s
    }
}

/// The pieces of `s` between occurrences of `sep`: one more piece than
/// there are separators, empty pieces included.
pub open spec fn split_on(s: Seq<char>, sep: char) -> Seq<Seq<char>>
    decreases s.len(),
{
    if s.len() == 0 {
        seq![Seq::<char>::empty()]
    } else {
        let prev = split_on(s.drop_last(), sep);
        if s.last() == sep {
            prev.push(Seq::<char>::empty())
        } else {
            prev.update(prev.len() - 1, prev.last().push(s.last()))
        }
    }
}

/// Strict lexicographic order of texts by code point; a proper prefix comes first.
/// This is the order of `str` and `String`, which compare their UTF-8 bytes.
pub open spec fn text_lt(a: Seq<char>, b: Seq<char>) -> bool
    decreases a.len(),
{
    if a.len() == 0 {
        b.len() > 0
    } else if b.len() == 0 {
        false
    } else if a[0] != b[0] {
        a[0] < b[0]
    } else {
        text_lt(a.drop_first(), b.drop_first())
    }
}

/// The outcome of comparing two values.
#[derive(Clone, Copy, Debug, PartialEq, Eq, Structural)]
pub enum TextOrder {
    Less,
    Equal,
    Greater,
}

/// How `a` compares to `b` in the order `text_lt`.
pub open spec fn text_order(a: Seq<char>, b: Seq<char>) -> TextOrder {
    if a == b {
        TextOrder::Equal
    } else if text_lt(a, b) {
        TextOrder::Less
    } else {
        TextOrder::Greater
    }
}

pub open spec fn is_digit(c: char) -> bool {
    '0' <= c && c <= '9'
}

pub open spec fn all_digits(s: Seq<char>) -> bool {
    forall|i: int| 0 <= i < s.len() ==> is_digit(#[trigger] s[i])
}

/// The number that a string of decimal digits denotes.
pub open spec fn digits_value(s: Seq<char>) -> int
    decreases s.len(),
{
    if s.len() == 0 {
        0
    } else {
        digits_value(s.drop_last()) * 10 + ((s.last() as int) - ('0' as int))
    }
}

/// The digits of a decimal numeral: the text after an optional leading `+`.
pub open spec fn numeral_digits(s: Seq<char>) -> Seq<char> {
    if s.len() > 0 && s[0] == '+' {
        s.drop_first()
    } else {
        s
    }
}

/// What `u64::from_str` accepts: an optional `+`, then one or more decimal
/// digits whose value fits in a `u64`.
pub open spec fn parse_u64_spec(s: Seq<char>) -> Option<u64> {
    let d = numeral_digits(s);
    if d.len() > 0 && all_digits(d) && digits_value(d) <= u64::MAX {
        Some(digits_value(d) as u64)
    } else {
        None
    }
}

/// The position of the first `c` in `s`, or `s.len()` when there is none.
pub open spec fn index_of_char(s: Seq<char>, c: char) -> int
    decreases s.len(),
{
    if s.len() == 0 {
        0
    } else if s[0] == c {
        0
    } else {
        1 + index_of_char(s.drop_first(), c)
    }
}

// ---------------------------------------------------------------------------
// Lemmas
// ---------------------------------------------------------------------------

pub proof fn lemma_index_of_char(s: Seq<char>, c: char)
    ensures
        0 <= index_of_char(s, c) <= s.len(),
        index_of_char(s, c) < s.len() ==> s[index_of_char(s, c)] == c,
        forall|i: int| 0 <= i < index_of_char(s, c) ==> #[trigger] s[i] != c,
    decreases s.len(),
{
    if s.len() > 0 && s[0] != c {
        lemma_index_of_char(s.drop_first(), c);
        assert forall|i: int| 0 <= i < index_of_char(s, c) implies #[trigger] s[i] != c by {
            if i > 0 {
                assert(s[i] == s.drop_first()[i - 1]);
            }
        }
    }
}

/// Cutting the trailing `c`s leaves a prefix that does not end in `c`, and
/// only `c`s were cut.
pub proof fn lemma_trim_end_of_shape(s: Seq<char>, c: char)
    ensures
        trim_end_of(s, c).len() <= s.len(),
        trim_end_of(s, c) == s.take(trim_end_of(s, c).len() as int),
        trim_end_of(s, c).len() > 0 ==> trim_end_of(s, c).last() != c,
        forall|i: int| trim_end_of(s, c).len() <= i < s.len() ==> #[trigger] s[i] == c,
    decreases s.len(),
{
    if s.len() > 0 && s.last() == c {
        lemma_trim_end_of_shape(s.drop_last(), c);
        let t = trim_end_of(s.drop_last(), c);
        assert(s.drop_last().take(t.len() as int) =~= s.take(t.len() as int));
        assert forall|i: int| t.len() <= i < s.len() implies #[trigger] s[i] == c by {
            if i < s.len() - 1 {
                assert(s[i] == s.drop_last()[i]);
            }
        }
    } else {
        assert(s.take(s.len() as int) =~= s);
    }
}

/// A text without the separator is a single piece.
pub proof fn lemma_split_without_sep(e: Seq<char>, sep: char)
    requires
        !e.contains(sep),
    ensures
        split_on(e, sep) == seq![e],
    decreases e.len(),
{
    if e.len() > 0 {
        let t = e.drop_last();
        assert(!t.contains(sep)) by {
            if t.contains(sep) {
                let k = choose|k: int| 0 <= k < t.len() && t[k] == sep;
                assert(e[k] == sep);
            }
        }
        lemma_split_without_sep(t, sep);
        assert(e[e.len() - 1] != sep);
        assert(t.push(e.last()) =~= e);
        assert(seq![t].update(0, t.push(e.last())) =~= seq![e]);
    } else {
        assert(e =~= Seq::<char>::empty());
    }
}

/// Appending a separator and a piece without the separator appends that piece.
pub proof fn lemma_split_append_piece(raw: Seq<char>, e: Seq<char>, sep: char)
    requires
        !e.contains(sep),
    ensures
        split_on(raw + seq![sep] + e, sep) == split_on(raw, sep).push(e),
    decreases e.len(),
{
    if e.len() == 0 {
        let s = raw + seq![sep] + e;
        assert(s.drop_last() =~= raw);
        assert(s.last() == sep);
        assert(e =~= Seq::<char>::empty());
    } else {
        let t = e.drop_last();
        assert(!t.contains(sep)) by {
            if t.contains(sep) {
                let k = choose|k: int| 0 <= k < t.len() && t[k] == sep;
                assert(e[k] == sep);
            }
        }
        lemma_split_append_piece(raw, t, sep);
        let s = raw + seq![sep] + e;
        assert(s.drop_last() =~= raw + seq![sep] + t);
        assert(s.last() == e[e.len() - 1]);
        let prev = split_on(raw, sep).push(t);
        assert(s.last() == e.last());
        assert(prev.last() == t);
        assert(t.push(e.last()) =~= e);
        assert(prev.update(prev.len() - 1, prev.last().push(s.last())) =~= split_on(raw, sep).push(
            e,
        ));
    }
}

pub proof fn lemma_split_on_nonempty(s: Seq<char>, sep: char)
    ensures
        split_on(s, sep).len() >= 1,
    decreases s.len(),
{
    if s.len() > 0 {
        lemma_split_on_nonempty(s.drop_last(), sep);
    }
}

/// No piece of a split holds the separator.
pub proof fn lemma_split_pieces_lack_sep(s: Seq<char>, sep: char)
    ensures
        forall|i: int|
            0 <= i < split_on(s, sep).len() ==> !(#[trigger] split_on(s, sep)[i]).contains(sep),
    decreases s.len(),
{
    if s.len() > 0 {
        lemma_split_pieces_lack_sep(s.drop_last(), sep);
        lemma_split_on_nonempty(s.drop_last(), sep);
        let prev = split_on(s.drop_last(), sep);
        if s.last() != sep {
            let last = prev.last().push(s.last());
            assert(!last.contains(sep)) by {
                assert(!prev[prev.len() - 1].contains(sep));
                if last.contains(sep) {
                    let j = choose|j: int| 0 <= j < last.len() && last[j] == sep;
                    assert(prev.last()[j] == sep);
                }
            }
        } else {
            assert(!Seq::<char>::empty().contains(sep));
        }
    }
}

/// For a property `p` that the separator lacks: no character of `s` other
/// than the separator has `p` exactly when no character of any piece has `p`.
pub proof fn lemma_split_all_empty_iff(s: Seq<char>, sep: char, p: spec_fn(char) -> bool)
    requires
        !p(sep),
    ensures
        (forall|i: int| 0 <= i < s.len() ==> #[trigger] s[i] == sep || !p(s[i])) <==> (forall|
            i: int,
            j: int,
        |
            0 <= i < split_on(s, sep).len() && 0 <= j < split_on(s, sep)[i].len() ==> !p(
                #[trigger] split_on(s, sep)[i][j],
            )),
    decreases s.len(),
{
    lemma_split_on_nonempty(s, sep);
    if s.len() > 0 {
        let t = s.drop_last();
        lemma_split_all_empty_iff(t, sep, p);
        lemma_split_on_nonempty(t, sep);
        let prev = split_on(t, sep);
        let cur = split_on(s, sep);
        let left = forall|i: int| 0 <= i < s.len() ==> #[trigger] s[i] == sep || !p(s[i]);
        let left_t = forall|i: int| 0 <= i < t.len() ==> #[trigger] t[i] == sep || !p(t[i]);
        let right = forall|i: int, j: int|
            0 <= i < cur.len() && 0 <= j < cur[i].len() ==> !p(#[trigger] cur[i][j]);
        let right_t = forall|i: int, j: int|
            0 <= i < prev.len() && 0 <= j < prev[i].len() ==> !p(#[trigger] prev[i][j]);
        assert(left <==> (left_t && (s.last() == sep || !p(s.last())))) by {
            if left_t && (s.last() == sep || !p(s.last())) {
                assert forall|i: int| 0 <= i < s.len() implies #[trigger] s[i] == sep || !p(
                    s[i],
                ) by {
                    if i < t.len() {
                        assert(s[i] == t[i]);
                    }
                }
            }
            if left {
                assert forall|i: int| 0 <= i < t.len() implies #[trigger] t[i] == sep || !p(
                    t[i],
                ) by {
                    assert(s[i] == t[i]);
                }
                assert(s[s.len() - 1] == sep || !p(s[s.len() - 1]));
            }
        }
        if s.last() == sep {
            assert(right <==> right_t) by {
                if right_t {
                    assert forall|i: int, j: int|
                        0 <= i < cur.len() && 0 <= j < cur[i].len() implies !p(
                        #[trigger] cur[i][j],
                    ) by {
                        assert(i < prev.len());
                        assert(cur[i] == prev[i]);
                    }
                }
                if right {
                    assert forall|i: int, j: int|
                        0 <= i < prev.len() && 0 <= j < prev[i].len() implies !p(
                        #[trigger] prev[i][j],
                    ) by {
                        assert(cur[i] == prev[i]);
                    }
                }
            }
        } else {
            let k = prev.len() - 1;
            assert(right <==> (right_t && !p(s.last()))) by {
                if right_t && !p(s.last()) {
                    assert forall|i: int, j: int|
                        0 <= i < cur.len() && 0 <= j < cur[i].len() implies !p(
                        #[trigger] cur[i][j],
                    ) by {
                        if i < k {
                            assert(cur[i] == prev[i]);
                        } else {
                            assert(cur[i] == prev[k].push(s.last()));
                            if j < prev[k].len() {
                                assert(cur[i][j] == prev[k][j]);
                            }
                        }
                    }
                }
                if right {
                    assert forall|i: int, j: int|
                        0 <= i < prev.len() && 0 <= j < prev[i].len() implies !p(
                        #[trigger] prev[i][j],
                    ) by {
                        if i < k {
                            assert(cur[i] == prev[i]);
                        } else {
                            assert(cur[k][j] == prev[k][j]);
                        }
                    }
                    assert(cur[k][prev[k].len() as int] == s.last());
                }
            }
        }
    }
}

pub proof fn lemma_trim_start_is_suffix(s: Seq<char>)
    ensures
        trim_start(s).len() <= s.len(),
        trim_start(s) == s.subrange(s.len() - trim_start(s).len(), s.len() as int),
        trim_start(s).len() > 0 ==> !is_space(trim_start(s)[0]),
        forall|i: int| 0 <= i < s.len() - trim_start(s).len() ==> is_space(#[trigger] s[i]),
    decreases s.len(),
{
    if s.len() > 0 && is_space(s[0]) {
        lemma_trim_start_is_suffix(s.drop_first());
        let t = trim_start(s.drop_first());
        assert forall|i: int| 0 <= i < s.len() - t.len() implies is_space(#[trigger] s[i]) by {
            if i > 0 {
                assert(s[i] == s.drop_first()[i - 1]);
            }
        }
        assert(s.drop_first().subrange(s.len() - 1 - t.len(), s.len() - 1) =~= s.subrange(
            s.len() - t.len(),
            s.len() as int,
        ));
    } else {
        assert(s.subrange(0, s.len() as int) =~= s);
    }
}

pub proof fn lemma_trim_end_is_prefix(s: Seq<char>)
    ensures
        trim_end(s).len() <= s.len(),
        trim_end(s) == s.subrange(0, trim_end(s).len() as int),
        trim_end(s).len() > 0 ==> !is_space(trim_end(s).last()),
        forall|i: int| trim_end(s).len() <= i < s.len() ==> is_space(#[trigger] s[i]),
    decreases s.len(),
{
    if s.len() > 0 && is_space(s.last()) {
        lemma_trim_end_is_prefix(s.drop_last());
        let t = trim_end(s.drop_last());
        assert forall|i: int| t.len() <= i < s.len() implies is_space(#[trigger] s[i]) by {
            if i < s.len() - 1 {
                assert(s[i] == s.drop_last()[i]);
            }
        }
        assert(s.drop_last().subrange(0, t.len() as int) =~= s.subrange(0, t.len() as int));
    } else {
        assert(s.subrange(0, s.len() as int) =~= s);
    }
}

/// A trimmed text is a slice of the original with no whitespace at either end,
/// and everything cut away was whitespace.
pub proof fn lemma_trim_shape(s: Seq<char>)
    ensures
        exists|a: int, b: int|
            0 <= a <= b <= s.len() && trim(s) == s.subrange(a, b) && (forall|i: int|
                0 <= i < a ==> is_space(#[trigger] s[i])) && (forall|i: int|
                b <= i < s.len() ==> is_space(#[trigger] s[i])),
        trim(s).len() > 0 ==> !is_space(trim(s)[0]) && !is_space(trim(s).last()),
{
    lemma_trim_start_is_suffix(s);
    let u = trim_start(s);
    lemma_trim_end_is_prefix(u);
    let a = s.len() - u.len();
    let b = a + trim_end(u).len();
    assert(trim(s) =~= s.subrange(a, b));
    assert forall|i: int| b <= i < s.len() implies is_space(#[trigger] s[i]) by {
        assert(s[i] == u[i - a]);
    }
    if trim(s).len() > 0 {
        assert(trim(s)[0] == u[0]);
    }
}

/// A text trims to nothing exactly when it is all whitespace.
pub proof fn lemma_trim_empty_iff(s: Seq<char>)
    ensures
        (trim(s).len() == 0) <==> (forall|i: int| 0 <= i < s.len() ==> is_space(#[trigger] s[i])),
{
    lemma_trim_start_is_suffix(s);
    let u = trim_start(s);
    lemma_trim_end_is_prefix(u);
    if trim(s).len() == 0 {
        assert forall|i: int| 0 <= i < s.len() implies is_space(#[trigger] s[i]) by {
            let a = s.len() - u.len();
            if i >= a {
                assert(s[i] == u[i - a]);
            }
        }
    }
    if forall|i: int| 0 <= i < s.len() ==> is_space(#[trigger] s[i]) {
        if u.len() > 0 {
            assert(u[0] == s[s.len() - u.len()]);
        }
    }
}

pub proof fn lemma_lower_of_keeps_class(c: char)
    ensures
        is_space(lower_of(c)) == is_space(c),
        (lower_of(c) == ',') == (c == ','),
        !('A' <= lower_of(c) && lower_of(c) <= 'Z'),
        lower_of(lower_of(c)) == lower_of(c),
{
}

/// ASCII lower-casing is idempotent.
pub proof fn lemma_ascii_lower_idempotent(s: Seq<char>)
    ensures
        ascii_lower(ascii_lower(s)) == ascii_lower(s),
{
    assert forall|i: int| 0 <= i < s.len() implies #[trigger] ascii_lower(ascii_lower(s))[i]
        == ascii_lower(s)[i] by {
        lemma_lower_of_keeps_class(s[i]);
    }
    assert(ascii_lower(ascii_lower(s)) =~= ascii_lower(s));
}

/// Lower-casing and trimming commute: lower-casing keeps whitespace as it is.
pub proof fn lemma_trim_ascii_lower(s: Seq<char>)
    ensures
        trim(ascii_lower(s)) == ascii_lower(trim(s)),
{
    lemma_trim_start_ascii_lower(s);
    lemma_trim_end_ascii_lower(trim_start(s));
}

proof fn lemma_trim_start_ascii_lower(s: Seq<char>)
    ensures
        trim_start(ascii_lower(s)) == ascii_lower(trim_start(s)),
    decreases s.len(),
{
    if s.len() > 0 {
        lemma_lower_of_keeps_class(s[0]);
        assert(ascii_lower(s)[0] == lower_of(s[0]));
        assert(ascii_lower(s).drop_first() =~= ascii_lower(s.drop_first()));
        if is_space(s[0]) {
            lemma_trim_start_ascii_lower(s.drop_first());
        }
    }
}

proof fn lemma_trim_end_ascii_lower(s: Seq<char>)
    ensures
        trim_end(ascii_lower(s)) == ascii_lower(trim_end(s)),
    decreases s.len(),
{
    if s.len() > 0 {
        lemma_lower_of_keeps_class(s.last());
        assert(ascii_lower(s).last() == lower_of(s.last()));
        assert(ascii_lower(s).drop_last() =~= ascii_lower(s.drop_last()));
        if is_space(s.last()) {
            lemma_trim_end_ascii_lower(s.drop_last());
        }
    }
}

/// Splitting the lower-cased text on a character that lower-casing leaves
/// alone gives the lower-cased pieces.
pub proof fn lemma_split_ascii_lower(s: Seq<char>, sep: char)
    requires
        forall|c: char| (#[trigger] lower_of(c) == sep) <==> c == sep,
    ensures
        split_on(ascii_lower(s), sep) == split_on(s, sep).map_values(|p: Seq<char>| ascii_lower(p)),
    decreases s.len(),
{
    let f = |p: Seq<char>| ascii_lower(p);
    if s.len() == 0 {
        assert(ascii_lower(s) =~= Seq::<char>::empty());
        assert(ascii_lower(Seq::<char>::empty()) =~= Seq::<char>::empty());
        assert(split_on(s, sep).map_values(f) =~= seq![Seq::<char>::empty()]);
    } else {
        let t = s.drop_last();
        let c = s.last();
        lemma_split_ascii_lower(t, sep);
        lemma_split_on_nonempty(t, sep);
        assert(ascii_lower(s).drop_last() =~= ascii_lower(t));
        assert(ascii_lower(s).last() == lower_of(c));
        assert(lower_of(c) == sep <==> c == sep);
        let prev = split_on(t, sep);
        if c == sep {
            assert(ascii_lower(Seq::<char>::empty()) =~= Seq::<char>::empty());
            assert(prev.push(Seq::<char>::empty()).map_values(f) =~= prev.map_values(f).push(
                Seq::<char>::empty(),
            ));
        } else {
            let k = prev.len() - 1;
            assert(ascii_lower(prev.last().push(c)) =~= ascii_lower(prev.last()).push(lower_of(c)));
            assert(prev.update(k, prev.last().push(c)).map_values(f) =~= prev.map_values(f).update(
                k,
                prev.map_values(f).last().push(lower_of(c)),
            ));
        }
    }
}

pub proof fn lemma_text_lt_irreflexive(a: Seq<char>)
    ensures
        !text_lt(a, a),
    decreases a.len(),
{
    if a.len() > 0 {
        lemma_text_lt_irreflexive(a.drop_first());
    }
}

pub proof fn lemma_text_lt_transitive(a: Seq<char>, b: Seq<char>, c: Seq<char>)
    requires
        text_lt(a, b),
        text_lt(b, c),
    ensures
        text_lt(a, c),
    decreases a.len(),
{
    if a.len() > 0 && b.len() > 0 && c.len() > 0 {
        if a[0] == b[0] && b[0] == c[0] {
            lemma_text_lt_transitive(a.drop_first(), b.drop_first(), c.drop_first());
        }
    }
}

/// Of two different texts, exactly one comes first.
pub proof fn lemma_text_lt_total(a: Seq<char>, b: Seq<char>)
    ensures
        a != b ==> (text_lt(a, b) || text_lt(b, a)),
        !(text_lt(a, b) && text_lt(b, a)),
    decreases a.len(),
{
    if a.len() > 0 && b.len() > 0 && a[0] == b[0] {
        lemma_text_lt_total(a.drop_first(), b.drop_first());
        if a.drop_first() == b.drop_first() {
            assert(a =~= seq![a[0]] + a.drop_first());
            assert(b =~= seq![b[0]] + b.drop_first());
        }
    } else if a.len() == 0 && b.len() == 0 {
        assert(a =~= b);
    }
}

pub proof fn lemma_digits_value_monotone(s: Seq<char>, i: int)
    requires
        all_digits(s),
        0 <= i <= s.len(),
    ensures
        0 <= digits_value(s.take(i)) <= digits_value(s),
    decreases s.len(),
{
    if s.len() > 0 {
        let t = s.drop_last();
        assert(all_digits(t)) by {
            assert forall|j: int| 0 <= j < t.len() implies is_digit(#[trigger] t[j]) by {
                assert(t[j] == s[j]);
            }
        }
        assert(is_digit(s[s.len() - 1]));
        if i == s.len() {
            assert(s.take(i) =~= s);
            lemma_digits_value_monotone(t, t.len() as int);
            assert(t.take(t.len() as int) =~= t);
        } else {
            lemma_digits_value_monotone(t, i);
            assert(t.take(i) =~= s.take(i));
            lemma_digits_value_monotone(t, t.len() as int);
            assert(t.take(t.len() as int) =~= t);
        }
    } else {
        assert(s.take(i) =~= s);
    }
}

// ---------------------------------------------------------------------------
// Executable operations
// ---------------------------------------------------------------------------

/// `String::push` appends one character at the end of the string.
#[verifier::external_body]
pub(crate) fn push_char(s: &mut String, c: char)
    ensures
        final(s)@ == old(s)@.push(c),
{
    s.push(c);
}

/// The characters of `s`, in order.
pub fn chars_of(s: &str) -> (v: Vec<char>)
    ensures
        v@ == s@,
{
    let mut v: Vec<char> = Vec::new();
    for c in it: s.chars()
        invariant
            v.len() == it.index(),
            forall|i: int| 0 <= i < v.len() ==> v@[i] == it.seq()[i],
    {
        v.push(c);
    }
    assert(v@ =~= s@);
    v
}

/// Whether `c` is Unicode whitespace.
pub fn is_space_char(c: char) -> (r: bool)
    ensures
        r == is_space(c),
{
    ('\u{9}' <= c && c <= '\u{d}') || c == ' ' || c == '\u{85}' || c == '\u{a0}' || c
        == '\u{1680}' || ('\u{2000}' <= c && c <= '\u{200a}') || c == '\u{2028}' || c
        == '\u{2029}' || c == '\u{202f}' || c == '\u{205f}' || c == '\u{3000}'
}

/// ASCII lower-casing of one character.
pub fn lower_char(c: char) -> (r: char)
    ensures
        r == lower_of(c),
{
    if 'A' <= c && c <= 'Z' {
        let b: u8 = c as u8;
        (b + 32) as char
    } else {
        c
    }
}

/// The text of `chars[lo..hi]`.
pub fn text_of(chars: &Vec<char>, lo: usize, hi: usize) -> (r: String)
    requires
        lo <= hi <= chars.len(),
    ensures
        r@ == chars@.subrange(lo as int, hi as int),
{
    let mut r = String::new();
    let mut i = lo;
    while i < hi
        invariant
            lo <= i <= hi <= chars.len(),
            r@ == chars@.subrange(lo as int, i as int),
        decreases hi - i,
    {
        push_char(&mut r, chars[i]);
        assert(chars@.subrange(lo as int, i + 1) =~= chars@.subrange(lo as int, i as int).push(
            chars@[i as int],
        ));
        i = i + 1;
    }
    r
}

/// The ASCII lower-cased text of `chars[lo..hi]`.
pub fn lower_text_of(chars: &Vec<char>, lo: usize, hi: usize) -> (r: String)
    requires
        lo <= hi <= chars.len(),
    ensures
        r@ == ascii_lower(chars@.subrange(lo as int, hi as int)),
{
    let mut r = String::new();
    let mut i = lo;
    while i < hi
        invariant
            lo <= i <= hi <= chars.len(),
            r@ == ascii_lower(chars@.subrange(lo as int, i as int)),
        decreases hi - i,
    {
        let c = lower_char(chars[i]);
        push_char(&mut r, c);
        assert(ascii_lower(chars@.subrange(lo as int, i + 1)) =~= ascii_lower(
            chars@.subrange(lo as int, i as int),
        ).push(lower_of(chars@[i as int])));
        i = i + 1;
    }
    r
}

/// The ASCII lower-cased copy of `s` (`str::to_ascii_lowercase`).
pub fn to_ascii_lower(s: &str) -> (r: String)
    ensures
        r@ == ascii_lower(s@),
{
    let chars = chars_of(s);
    let r = lower_text_of(&chars, 0, chars.len());
    assert(chars@.subrange(0, chars@.len() as int) =~= chars@);
    r
}

/// The bounds of `chars[lo..hi]` once whitespace is cut from both ends.
pub fn trimmed_bounds(chars: &Vec<char>, lo: usize, hi: usize) -> (r: (usize, usize))
    requires
        lo <= hi <= chars.len(),
    ensures
        lo <= r.0 <= r.1 <= hi,
        chars@.subrange(r.0 as int, r.1 as int) == trim(chars@.subrange(lo as int, hi as int)),
{
    let ghost whole = chars@.subrange(lo as int, hi as int);
    let mut a = lo;
    while a < hi && is_space_char(chars[a])
        invariant
            lo <= a <= hi <= chars.len(),
            trim_start(whole) == trim_start(chars@.subrange(a as int, hi as int)),
        decreases hi - a,
    {
        assert(chars@.subrange(a as int, hi as int).drop_first() =~= chars@.subrange(
            a + 1,
            hi as int,
        ));
        a = a + 1;
    }
    let mut b = hi;
    while b > a && is_space_char(chars[b - 1])
        invariant
            lo <= a <= b <= hi <= chars.len(),
            trim_end(chars@.subrange(a as int, hi as int)) == trim_end(
                chars@.subrange(a as int, b as int),
            ),
        decreases b - a,
    {
        assert(chars@.subrange(a as int, b as int).drop_last() =~= chars@.subrange(
            a as int,
            b - 1,
        ));
        b = b - 1;
    }
    (a, b)
}

/// Compares two texts in the order `text_lt` (the order of `str`).
pub fn compare_text(a: &str, b: &str) -> (r: TextOrder)
    ensures
        r == text_order(a@, b@),
{
    let x = chars_of(a);
    let y = chars_of(b);
    let mut i: usize = 0;
    assert(x@.skip(0) =~= x@);
    assert(y@.skip(0) =~= y@);
    while i < x.len() && i < y.len() && x[i] == y[i]
        invariant
            i <= x.len(),
            i <= y.len(),
            x@.take(i as int) == y@.take(i as int),
            text_lt(x@, y@) == text_lt(x@.skip(i as int), y@.skip(i as int)),
            text_lt(y@, x@) == text_lt(y@.skip(i as int), x@.skip(i as int)),
        decreases x.len() - i,
    {
        assert(x@.skip(i as int).drop_first() =~= x@.skip(i + 1));
        assert(y@.skip(i as int).drop_first() =~= y@.skip(i + 1));
        assert(x@.take(i + 1) =~= x@.take(i as int).push(x@[i as int]));
        assert(y@.take(i + 1) =~= y@.take(i as int).push(y@[i as int]));
        i = i + 1;
    }
    proof {
        lemma_text_lt_total(x@, y@);
    }
    if i == x.len() && i == y.len() {
        assert(x@ =~= x@.take(i as int));
        assert(y@ =~= y@.take(i as int));
        TextOrder::Equal
    } else if i == x.len() {
        assert(x@.skip(i as int).len() == 0);
        proof {
            if x@ == y@ {
                assert(x@.len() == y@.len());
            }
        }
        TextOrder::Less
    } else if i == y.len() {
        assert(y@.skip(i as int).len() == 0);
        proof {
            if x@ == y@ {
                assert(x@.len() == y@.len());
            }
        }
        TextOrder::Greater
    } else {
        assert(x@.skip(i as int)[0] == x@[i as int]);
        assert(y@.skip(i as int)[0] == y@[i as int]);
        proof {
            if x@ == y@ {
                assert(x@[i as int] == y@[i as int]);
            }
        }
        if x[i] < y[i] {
            TextOrder::Less
        } else {
            TextOrder::Greater
        }
    }
}

/// The position of the first `c` in `chars[from..]`, counted from `from`,
/// or `chars.len()` when there is none.
pub fn find_char(chars: &Vec<char>, from: usize, c: char) -> (r: usize)
    requires
        from <= chars.len(),
    ensures
        r == from + index_of_char(chars@.skip(from as int), c),
        from <= r <= chars.len(),
{
    let mut i = from;
    assert(chars@.skip(from as int) =~= chars@.skip(i as int));
    while i < chars.len() && chars[i] != c
        invariant
            from <= i <= chars.len(),
            from + index_of_char(chars@.skip(from as int), c) == i + index_of_char(
                chars@.skip(i as int),
                c,
            ),
        decreases chars.len() - i,
    {
        assert(chars@.skip(i as int).drop_first() =~= chars@.skip(i + 1));
        i = i + 1;
    }
    i
}

/// Parses a decimal `u64` as `str::parse::<u64>` does.
pub fn parse_u64(s: &str) -> (r: Option<u64>)
    ensures
        r == parse_u64_spec(s@),
{
    let chars = chars_of(s);
    let start: usize = if chars.len() > 0 && chars[0] == '+' {
        1
    } else {
        0
    };
    let ghost d = numeral_digits(s@);
    assert(d =~= chars@.subrange(start as int, chars@.len() as int));
    if start == chars.len() {
        return None;
    }
    let mut i = start;
    while i < chars.len()
        invariant
            start <= i <= chars.len(),
            d == chars@.subrange(start as int, chars@.len() as int),
            d == numeral_digits(s@),
            forall|j: int| start <= j < i ==> is_digit(#[trigger] chars@[j]),
        decreases chars.len() - i,
    {
        if !('0' <= chars[i] && chars[i] <= '9') {
            assert(d[i - start] == chars@[i as int]);
            assert(!is_digit(d[i - start]));
            return None;
        }
        i = i + 1;
    }
    assert(all_digits(d)) by {
        assert forall|j: int| 0 <= j < d.len() implies is_digit(#[trigger] d[j]) by {
            assert(d[j] == chars@[start + j]);
        }
    }
    let mut value: u128 = 0;
    let mut k = start;
    while k < chars.len()
        invariant
            start <= k <= chars.len(),
            d == chars@.subrange(start as int, chars@.len() as int),
            d == numeral_digits(s@),
            all_digits(d),
            value == digits_value(d.take(k - start)),
            value <= u64::MAX,
        decreases chars.len() - k,
    {
        let c = chars[k];
        assert(d[k - start] == c);
        assert(is_digit(d[k - start]));
        assert(d.take(k - start + 1).drop_last() =~= d.take(k - start));
        let digit: u128 = (c as u32 - '0' as u32) as u128;
        value = value * 10 + digit;
        assert(value == digits_value(d.take(k - start + 1)));
        if value > 18446744073709551615u128 {
            proof {
                lemma_digits_value_monotone(d, k - start + 1);
            }
            return None;
        }
        k = k + 1;
    }
    assert(d.take(d.len() as int) =~= d);
    Some(value as u64)
}

/// `s` without its trailing occurrences of `c` (`str::trim_end_matches`
/// with a single character).
pub fn trim_end_char(s: &str, c: char) -> (r: String)
    ensures
        r@ == trim_end_of(s@, c),
{
    let chars = chars_of(s);
    let mut n = chars.len();
    assert(chars@.subrange(0, chars@.len() as int) =~= s@);
    while n > 0 && chars[n - 1] == c
        invariant
            n <= chars.len(),
            trim_end_of(s@, c) == trim_end_of(chars@.subrange(0, n as int), c),
        decreases n,
    {
        assert(chars@.subrange(0, n as int).drop_last() =~= chars@.subrange(0, n - 1));
        n = n - 1;
    }
    assert(chars@.subrange(0, chars@.len() as int) =~= s@);
    text_of(&chars, 0, n)
}

} // verus!
